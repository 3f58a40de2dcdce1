//! One periodic task: its period, its next deadline, and the level its
//! actuator currently holds, together with the mathematical model of what a
//! task does when it is resumed.
//!
//! Time is measured in ticks of the monotonic timebase (one tick per
//! millisecond at the configured resolution).  Instants and durations are
//! plain tick counts; the hardware counter is assumed not to wrap within the
//! runtime's lifetime, and every operation that advances a deadline carries a
//! precondition ruling the wraparound out.

use vstd::prelude::*;

verus! {

/// The two electrical levels a binary output can hold.
#[derive(Clone, Copy, PartialEq, Eq, Structural, Debug)]
pub enum ActuatorState {
    High,
    Low,
}

/// The opposite electrical level.
pub open spec fn flip(s: ActuatorState) -> ActuatorState {
    match s {
        ActuatorState::High => ActuatorState::Low,
        ActuatorState::Low => ActuatorState::High,
    }
}

impl ActuatorState {
    /// The opposite electrical level, as executable code.
    pub fn flipped(self) -> (r: ActuatorState)
        ensures
            r == flip(self),
    {
        match self {
            ActuatorState::High => ActuatorState::Low,
            ActuatorState::Low => ActuatorState::High,
        }
    }
}

/// Mathematical model of one periodic task.
pub ghost struct TaskModel {
    /// Ticks between two consecutive resumes.
    pub period: int,
    /// The instant at which the task next resumes.
    pub deadline: int,
    /// The level the task's actuator holds right now.
    pub state: ActuatorState,
}

impl TaskModel {
    /// A task is well formed when its period spans at least one tick.
    pub open spec fn wf(self) -> bool {
        self.period >= 1
    }
}

/// One periodic task as the scheduler stores it.
#[derive(Clone, Copy)]
pub struct Task {
    /// Ticks between two consecutive resumes.
    pub period: u64,
    /// The instant at which the task next resumes.
    pub next_deadline: u64,
    /// The level the task's actuator holds right now.
    pub state: ActuatorState,
}

impl View for Task {
    type V = TaskModel;

    open spec fn view(&self) -> TaskModel {
        TaskModel {
            period: self.period as int,
            deadline: self.next_deadline as int,
            state: self.state,
        }
    }
}

impl Task {
    /// A fresh task registered at instant `now`: its actuator starts at the
    /// reset level `High`, and its first resume comes one period after
    /// registration, so its first toggle drives the actuator `Low`.
    pub fn new(period: u64, now: u64) -> (r: Task)
        requires
            1 <= period,
            now + period <= u64::MAX,
        ensures
            r@ == (TaskModel {
                period: period as int,
                deadline: now + period,
                state: ActuatorState::High,
            }),
    {
        Task { period, next_deadline: now + period, state: ActuatorState::High }
    }
}

/// A toggle event: the task registered as number `task` set its actuator to
/// `state` at instant `at`.
#[derive(Clone, Copy, PartialEq, Eq, Structural, Debug)]
pub struct Toggle {
    /// Which task toggled, by registration order.
    pub task: usize,
    /// The instant of the toggle.
    pub at: u64,
    /// The level the actuator was set to.
    pub state: ActuatorState,
}

/// Mathematical model of one toggle event.
pub ghost struct ToggleModel {
    pub task: int,
    pub at: int,
    pub state: ActuatorState,
}

impl View for Toggle {
    type V = ToggleModel;

    open spec fn view(&self) -> ToggleModel {
        ToggleModel { task: self.task as int, at: self.at as int, state: self.state }
    }
}

/// What a task does when the timebase reaches instant `t`.  A task whose
/// deadline has elapsed resumes: it flips its actuator and schedules the next
/// resume one period after the resume time (fixed-delay semantics: a task
/// resumed late starts its next wait late too).  A task whose deadline is
/// still pending is left untouched.
pub open spec fn task_step(m: TaskModel, t: int) -> TaskModel {
    if m.deadline <= t {
        TaskModel { period: m.period, deadline: t + m.period, state: flip(m.state) }
    } else {
        m
    }
}

/// Measure for recursion over an ideal run: how many ticks of work remain up
/// to instant `t`.
pub open spec fn run_measure(m: TaskModel, t: int) -> int {
    if m.deadline > t {
        0
    } else {
        t - m.deadline + 1
    }
}

/// The task after an ideal run to instant `t`: resumed at each of its own
/// deadlines, exactly on time, as long as that deadline is at or before `t`.
pub open spec fn evolve(m: TaskModel, t: int) -> TaskModel
    decreases run_measure(m, t), when m.wf()
{
    if m.deadline > t {
        m
    } else {
        evolve(task_step(m, m.deadline), t)
    }
}

/// The toggle events task `id` produces in an ideal run to instant `t`, in
/// the order it produces them.
pub open spec fn ideal(m: TaskModel, id: int, t: int) -> Seq<ToggleModel>
    decreases run_measure(m, t), when m.wf()
{
    if m.deadline > t {
        Seq::empty()
    } else {
        seq![ToggleModel { task: id, at: m.deadline, state: flip(m.state) }]
            + ideal(task_step(m, m.deadline), id, t)
    }
}

/// After an ideal run to instant `t`, a task is still well formed, keeps its
/// period, and its pending deadline lies strictly past `t`.
pub proof fn lemma_evolve_pending(m: TaskModel, t: int)
    requires
        m.wf(),
    ensures
        evolve(m, t).wf(),
        evolve(m, t).period == m.period,
        evolve(m, t).deadline > t,
    decreases run_measure(m, t),
{
    if m.deadline > t {
    } else {
        lemma_evolve_pending(task_step(m, m.deadline), t);
    }
}

/// An ideal run to instant `t2` is an ideal run to an earlier instant `t1`
/// followed by an ideal run of the resulting task from `t1` to `t2`; the
/// toggle events concatenate accordingly.
pub proof fn lemma_run_split(m: TaskModel, id: int, t1: int, t2: int)
    requires
        m.wf(),
        t1 <= t2,
    ensures
        evolve(m, t2) == evolve(evolve(m, t1), t2),
        ideal(m, id, t2) == ideal(m, id, t1) + ideal(evolve(m, t1), id, t2),
    decreases run_measure(m, t1),
{
    if m.deadline > t1 {
        assert(ideal(m, id, t1) + ideal(m, id, t2) =~= ideal(m, id, t2));
    } else {
        let m2 = task_step(m, m.deadline);
        lemma_run_split(m2, id, t1, t2);
        let head = seq![ToggleModel { task: id, at: m.deadline, state: flip(m.state) }];
        assert(ideal(m, id, t2) =~= (head + ideal(m2, id, t1)) + ideal(evolve(m, t1), id, t2));
    }
}

} // verus!
