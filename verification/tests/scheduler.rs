use coop_sched::sched::Scheduler;
use coop_sched::task::ActuatorState;
use coop_sched::task::Toggle;

#[test]
fn empty_scheduler_has_no_wake() {
    let mut s = Scheduler::new(0);
    assert_eq!(s.num_tasks(), 0);
    assert_eq!(s.now(), 0);
    assert_eq!(s.next_wake(), None);
    let r = s.run_until(10_000);
    assert!(r.is_empty());
    assert_eq!(s.now(), 0);
}

#[test]
fn spawn_sets_first_deadline_one_period_out() {
    let mut s = Scheduler::new(0);
    let a = s.spawn(1000);
    assert_eq!(a, 0);
    assert_eq!(s.num_tasks(), 1);
    assert_eq!(s.period_of(a), 1000);
    assert_eq!(s.deadline_of(a), 1000);
    assert_eq!(s.state_of(a), ActuatorState::High);
    assert_eq!(s.next_wake(), Some(1000));
}

#[test]
fn next_wake_is_earliest_deadline() {
    let mut s = Scheduler::new(0);
    s.spawn(300);
    s.spawn(200);
    s.spawn(450);
    assert_eq!(s.next_wake(), Some(200));
}

#[test]
fn first_toggle_drives_low() {
    let mut s = Scheduler::new(0);
    let a = s.spawn(250);
    let r = s.run_until(250);
    assert_eq!(r, vec![Toggle { task: 0, at: 250, state: ActuatorState::Low }]);
    assert_eq!(s.state_of(a), ActuatorState::Low);
    assert_eq!(s.deadline_of(a), 500);
}

#[test]
fn toggles_fall_one_period_apart() {
    let mut s = Scheduler::new(0);
    s.spawn(250);
    let r = s.run_until(1000);
    let times: Vec<u64> = r.iter().map(|tg| tg.at).collect();
    assert_eq!(times, vec![250, 500, 750, 1000]);
    for w in times.windows(2) {
        assert_eq!(w[1] - w[0], 250);
    }
}

#[test]
fn toggle_states_alternate() {
    let mut s = Scheduler::new(0);
    s.spawn(100);
    let r = s.run_until(500);
    let states: Vec<ActuatorState> = r.iter().map(|tg| tg.state).collect();
    assert_eq!(
        states,
        vec![
            ActuatorState::Low,
            ActuatorState::High,
            ActuatorState::Low,
            ActuatorState::High,
            ActuatorState::Low,
        ]
    );
}

#[test]
fn simultaneous_deadlines_resume_in_registration_order() {
    let mut s = Scheduler::new(0);
    s.spawn(100);
    s.spawn(100);
    s.spawn(100);
    let r = s.run_until(100);
    assert_eq!(
        r,
        vec![
            Toggle { task: 0, at: 100, state: ActuatorState::Low },
            Toggle { task: 1, at: 100, state: ActuatorState::Low },
            Toggle { task: 2, at: 100, state: ActuatorState::Low },
        ]
    );
}

#[test]
fn late_wake_resumes_in_ascending_deadline_order() {
    let mut s = Scheduler::new(0);
    s.spawn(400);
    s.spawn(300);
    let r = s.advance_to(450);
    assert_eq!(
        r,
        vec![
            Toggle { task: 1, at: 450, state: ActuatorState::Low },
            Toggle { task: 0, at: 450, state: ActuatorState::Low },
        ]
    );
}

#[test]
fn late_wake_reschedules_from_resume_time() {
    let mut s = Scheduler::new(0);
    let a = s.spawn(250);
    let b = s.spawn(500);
    let r = s.advance_to(600);
    assert_eq!(
        r,
        vec![
            Toggle { task: 0, at: 600, state: ActuatorState::Low },
            Toggle { task: 1, at: 600, state: ActuatorState::Low },
        ]
    );
    // fixed-delay semantics: the next wait starts at the resume time, not at
    // the missed deadline
    assert_eq!(s.deadline_of(a), 850);
    assert_eq!(s.deadline_of(b), 1100);
}

#[test]
fn advance_before_any_deadline_toggles_nothing() {
    let mut s = Scheduler::new(0);
    let a = s.spawn(500);
    let r = s.advance_to(499);
    assert!(r.is_empty());
    assert_eq!(s.now(), 499);
    assert_eq!(s.deadline_of(a), 500);
    assert_eq!(s.state_of(a), ActuatorState::High);
}

#[test]
fn spawn_after_time_advanced_phases_from_now() {
    let mut s = Scheduler::new(0);
    s.spawn(100);
    s.advance_to(150);
    let b = s.spawn(100);
    assert_eq!(s.deadline_of(b), 250);
}
