use coop_sched::sched::Scheduler;
use coop_sched::task::ActuatorState;
use coop_sched::task::Toggle;

#[test]
fn three_tasks_blink_on_their_own_periods() {
    // three tasks with periods 1000 ms, 500 ms and 250 ms spawned at t = 0;
    // at t = 1000 all three deadlines coincide and the tasks resume in
    // registration order
    let mut s = Scheduler::new(0);
    let a = s.spawn(1000);
    let b = s.spawn(500);
    let c = s.spawn(250);
    let r = s.run_until(1000);
    assert_eq!(
        r,
        vec![
            Toggle { task: c, at: 250, state: ActuatorState::Low },
            Toggle { task: b, at: 500, state: ActuatorState::Low },
            Toggle { task: c, at: 500, state: ActuatorState::High },
            Toggle { task: c, at: 750, state: ActuatorState::Low },
            Toggle { task: a, at: 1000, state: ActuatorState::Low },
            Toggle { task: b, at: 1000, state: ActuatorState::High },
            Toggle { task: c, at: 1000, state: ActuatorState::High },
        ]
    );
}

#[test]
fn scenario_toggle_counts_over_two_seconds() {
    let mut s = Scheduler::new(0);
    let a = s.spawn(1000);
    let b = s.spawn(500);
    let c = s.spawn(250);
    let r = s.run_until(2000);
    assert_eq!(r.iter().filter(|tg| tg.task == a).count(), 2);
    assert_eq!(r.iter().filter(|tg| tg.task == b).count(), 4);
    assert_eq!(r.iter().filter(|tg| tg.task == c).count(), 8);
    let a_times: Vec<u64> = r.iter().filter(|tg| tg.task == a).map(|tg| tg.at).collect();
    let b_times: Vec<u64> = r.iter().filter(|tg| tg.task == b).map(|tg| tg.at).collect();
    assert_eq!(a_times, vec![1000, 2000]);
    assert_eq!(b_times, vec![500, 1000, 1500, 2000]);
}

#[test]
fn one_task_is_unaffected_by_anothers_period() {
    // task 0 keeps period 300 in both schedulers; task 1's period differs
    let mut s1 = Scheduler::new(0);
    s1.spawn(300);
    s1.spawn(500);
    let mut s2 = Scheduler::new(0);
    s2.spawn(300);
    s2.spawn(700);
    let r1 = s1.run_until(2100);
    let r2 = s2.run_until(2100);
    let own1: Vec<Toggle> = r1.into_iter().filter(|tg| tg.task == 0).collect();
    let own2: Vec<Toggle> = r2.into_iter().filter(|tg| tg.task == 0).collect();
    assert_eq!(own1, own2);
    assert_eq!(own1.len(), 7);
}

#[test]
fn every_task_keeps_toggling() {
    // no task silently stops: over any horizon every task produces exactly
    // one toggle per elapsed period, and a longer run extends the shorter
    let mut s1 = Scheduler::new(0);
    s1.spawn(7);
    s1.spawn(13);
    let r1 = s1.run_until(1000);
    assert_eq!(r1.iter().filter(|tg| tg.task == 0).count(), 142);
    assert_eq!(r1.iter().filter(|tg| tg.task == 1).count(), 76);
    let mut s2 = Scheduler::new(0);
    s2.spawn(7);
    s2.spawn(13);
    let r2 = s2.run_until(2000);
    assert_eq!(&r2[..r1.len()], &r1[..]);
    assert!(r2.len() > r1.len());
}
