//! The laws the scheduler obeys, stated and proved over the model of an
//! ideal run (`evolve` and `ideal`): the run in which every wake happens
//! exactly at the earliest pending deadline, which is the run `run_until`
//! produces.

use vstd::prelude::*;

use crate::task::TaskModel;
use crate::task::ToggleModel;
use crate::task::evolve;
use crate::task::flip;
use crate::task::ideal;
use crate::task::lemma_evolve_pending;
use crate::task::lemma_run_split;
use crate::task::run_measure;
use crate::task::task_step;

verus! {

/// Period law: in an ideal run every two consecutive toggles of one task lie
/// exactly one period apart, and the first toggle comes at the task's first
/// deadline.
pub proof fn lemma_toggle_period(m: TaskModel, id: int, t: int)
    requires
        m.wf(),
    ensures
        ideal(m, id, t).len() > 0 ==> ideal(m, id, t)[0].at == m.deadline,
        forall|k: int|
            0 <= k < ideal(m, id, t).len() - 1 ==> (#[trigger] ideal(m, id, t)[k + 1]).at == ideal(
                m,
                id,
                t,
            )[k].at + m.period,
    decreases run_measure(m, t),
{
    if m.deadline <= t {
        let m2 = task_step(m, m.deadline);
        lemma_toggle_period(m2, id, t);
        let s = ideal(m, id, t);
        let tail = ideal(m2, id, t);
        assert forall|k: int| 0 <= k < s.len() - 1 implies (#[trigger] s[k + 1]).at == s[k].at
            + m.period by {
            if k == 0 {
                assert(s[1] == tail[0]);
                assert(tail[0].at == m2.deadline);
            } else {
                assert(s[k + 1] == tail[k]);
                assert(s[k] == tail[k - 1]);
                assert(tail[(k - 1) + 1].at == tail[k - 1].at + m2.period);
            }
        }
    }
}

/// Alternation law: in an ideal run every toggle drives the actuator to the
/// opposite of the level the previous toggle left it at, and the first toggle
/// drives it to the opposite of the initial level.
pub proof fn lemma_toggle_alternation(m: TaskModel, id: int, t: int)
    requires
        m.wf(),
    ensures
        ideal(m, id, t).len() > 0 ==> ideal(m, id, t)[0].state == flip(m.state),
        forall|k: int|
            0 <= k < ideal(m, id, t).len() - 1 ==> (#[trigger] ideal(m, id, t)[k + 1]).state
                == flip(ideal(m, id, t)[k].state),
    decreases run_measure(m, t),
{
    if m.deadline <= t {
        let m2 = task_step(m, m.deadline);
        lemma_toggle_alternation(m2, id, t);
        let s = ideal(m, id, t);
        let tail = ideal(m2, id, t);
        assert forall|k: int| 0 <= k < s.len() - 1 implies (#[trigger] s[k + 1]).state == flip(
            s[k].state,
        ) by {
            if k == 0 {
                assert(s[1] == tail[0]);
                assert(tail[0].state == flip(m2.state));
            } else {
                assert(s[k + 1] == tail[k]);
                assert(s[k] == tail[k - 1]);
                assert(tail[(k - 1) + 1].state == flip(tail[k - 1].state));
            }
        }
    }
}

/// Independence law: a task's ideal run, and so the toggle events it
/// produces, is a function of its own descriptor alone — two tasks with the
/// same period, deadline and actuator level behave identically, whatever
/// tasks stand beside them in their schedulers.
pub proof fn lemma_independence(a: TaskModel, b: TaskModel, id: int, t: int)
    requires
        a.wf(),
        a.period == b.period,
        a.deadline == b.deadline,
        a.state == b.state,
    ensures
        ideal(a, id, t) == ideal(b, id, t),
        evolve(a, t) == evolve(b, t),
{
    assert(a == b);
}

/// Liveness law: a task never stops toggling.  Past any instant `t1`, running
/// on to any instant `t2` that reaches the task's pending deadline produces
/// strictly more toggles, and the earlier toggles stand unchanged at the
/// front.
pub proof fn lemma_liveness(m: TaskModel, id: int, t1: int, t2: int)
    requires
        m.wf(),
        t1 <= t2,
        evolve(m, t1).deadline <= t2,
    ensures
        ideal(m, id, t2).len() > ideal(m, id, t1).len(),
        ideal(m, id, t1) == ideal(m, id, t2).take(ideal(m, id, t1).len() as int),
{
    lemma_run_split(m, id, t1, t2);
    lemma_evolve_pending(m, t1);
    let m1 = evolve(m, t1);
    assert(ideal(m1, id, t2).len() > 0);
    assert(ideal(m, id, t1) =~= (ideal(m, id, t1) + ideal(m1, id, t2)).take(
        ideal(m, id, t1).len() as int,
    ));
}

} // verus!
