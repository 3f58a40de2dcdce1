//! The cooperative scheduler: it owns the registered tasks and the current
//! reading of the monotonic timebase, and resumes every task whose deadline
//! has elapsed when the timebase advances.

use vstd::prelude::*;

use crate::task::ActuatorState;
use crate::task::Task;
use crate::task::TaskModel;
use crate::task::Toggle;
use crate::task::ToggleModel;
use crate::task::evolve;
use crate::task::flip;
use crate::task::ideal;
use crate::task::lemma_evolve_pending;
use crate::task::lemma_run_split;
use crate::task::task_step;

verus! {

/// Mathematical model of the scheduler: the current instant and the
/// registered tasks, in registration order.
pub ghost struct SchedulerModel {
    pub now: int,
    pub tasks: Seq<TaskModel>,
}

impl SchedulerModel {
    /// Every registered task is well formed and its pending deadline lies in
    /// the future: a task has exactly one outstanding deadline at a time, and
    /// that deadline is never already elapsed between steps.
    pub open spec fn wf(self) -> bool {
        forall|i: int|
            0 <= i < self.tasks.len() ==> (#[trigger] self.tasks[i]).wf()
                && self.tasks[i].deadline > self.now
    }
}

/// The models of a sequence of toggle events.
pub open spec fn toggle_views(s: Seq<Toggle>) -> Seq<ToggleModel> {
    s.map_values(|tg: Toggle| tg@)
}

/// The toggle events of task `id`, in order, among a sequence of events.
pub open spec fn toggles_for(s: Seq<ToggleModel>, id: int) -> Seq<ToggleModel>
    decreases s.len(),
{
    if s.len() == 0 {
        Seq::empty()
    } else {
        let rest = toggles_for(s.drop_last(), id);
        if s.last().task == id {
            rest.push(s.last())
        } else {
            rest
        }
    }
}

/// Whether task `i` resumed between the task states `pre` (before a wake at
/// instant `t`) and `cur` (during or after it): its deadline had elapsed, and
/// it has been rescheduled past `t`.
pub open spec fn resumed(pre: Seq<TaskModel>, cur: Seq<TaskModel>, i: int, t: int) -> bool {
    pre[i].deadline <= t && cur[i].deadline > t
}

/// The order in which two elapsed deadlines are served: ascending deadline,
/// ties broken by ascending registration order.
pub open spec fn resume_order(d1: int, i1: int, d2: int, i2: int) -> bool {
    d1 < d2 || (d1 == d2 && i1 < i2)
}

/// How many tasks in `s` have an elapsed deadline at instant `t`.
spec fn n_due(s: Seq<TaskModel>, t: int) -> nat
    decreases s.len(),
{
    if s.len() == 0 {
        0
    } else {
        n_due(s.drop_last(), t) + (if s.last().deadline <= t {
            1nat
        } else {
            0nat
        })
    }
}

/// Rescheduling one task whose deadline had elapsed past `t` lowers the count
/// of elapsed deadlines.
proof fn lemma_n_due_update(s: Seq<TaskModel>, j: int, v: TaskModel, t: int)
    requires
        0 <= j < s.len(),
        s[j].deadline <= t,
        v.deadline > t,
    ensures
        n_due(s.update(j, v), t) < n_due(s, t),
    decreases s.len(),
{
    let s2 = s.update(j, v);
    if j == s.len() - 1 {
        assert(s2.drop_last() =~= s.drop_last());
    } else {
        assert(s2.drop_last() =~= s.drop_last().update(j, v));
        lemma_n_due_update(s.drop_last(), j, v, t);
    }
}

/// Appending one toggle event extends exactly its own task's subsequence.
pub proof fn lemma_toggles_for_push(s: Seq<ToggleModel>, x: ToggleModel, id: int)
    ensures
        toggles_for(s.push(x), id) == (if x.task == id {
            toggles_for(s, id).push(x)
        } else {
            toggles_for(s, id)
        }),
{
    assert(s.push(x).drop_last() =~= s);
    assert(s.push(x).last() == x);
}

/// A task's subsequence of a concatenation is the concatenation of its
/// subsequences.
pub proof fn lemma_toggles_for_add(a: Seq<ToggleModel>, b: Seq<ToggleModel>, id: int)
    ensures
        toggles_for(a + b, id) == toggles_for(a, id) + toggles_for(b, id),
    decreases b.len(),
{
    if b.len() == 0 {
        assert(a + b =~= a);
        assert(toggles_for(a, id) + toggles_for(b, id) =~= toggles_for(a, id));
    } else {
        lemma_toggles_for_add(a, b.drop_last(), id);
        assert((a + b).drop_last() =~= a + b.drop_last());
        lemma_toggles_for_push(a + b.drop_last(), b.last(), id);
        assert(a + b =~= (a + b.drop_last()).push(b.last()));
        assert(b =~= b.drop_last().push(b.last()));
        lemma_toggles_for_push(b.drop_last(), b.last(), id);
        if b.last().task == id {
            assert(toggles_for(a, id) + toggles_for(b, id) =~= (toggles_for(a, id)
                + toggles_for(b.drop_last(), id)).push(b.last()));
        }
    }
}

/// The models of a concatenation are the concatenated models.
pub proof fn lemma_toggle_views_add(a: Seq<Toggle>, b: Seq<Toggle>)
    ensures
        toggle_views(a + b) == toggle_views(a) + toggle_views(b),
{
    assert(toggle_views(a + b) =~= toggle_views(a) + toggle_views(b));
}

/// The models of a push are the models with the new event's model pushed.
pub proof fn lemma_toggle_views_push(s: Seq<Toggle>, x: Toggle)
    ensures
        toggle_views(s.push(x)) == toggle_views(s).push(x@),
{
    assert(toggle_views(s.push(x)) =~= toggle_views(s).push(x@));
}

/// The cooperative scheduler and the single timebase it owns.
pub struct Scheduler {
    now: u64,
    tasks: Vec<Task>,
}

impl View for Scheduler {
    type V = SchedulerModel;

    closed spec fn view(&self) -> SchedulerModel {
        SchedulerModel {
            now: self.now as int,
            tasks: self.tasks@.map_values(|t: Task| t@),
        }
    }
}

impl Scheduler {
    /// A scheduler with no tasks, whose timebase reads `start`.
    pub fn new(start: u64) -> (r: Scheduler)
        ensures
            r@.now == start,
            r@.tasks.len() == 0,
            r@.wf(),
    {
        Scheduler { now: start, tasks: Vec::new() }
    }

    /// The current reading of the timebase.
    pub fn now(&self) -> (r: u64)
        ensures
            r == self@.now,
    {
        self.now
    }

    /// How many tasks are registered.
    pub fn num_tasks(&self) -> (r: usize)
        ensures
            r == self@.tasks.len(),
    {
        self.tasks.len()
    }

    /// The period of task `id`.
    pub fn period_of(&self, id: usize) -> (r: u64)
        requires
            id < self@.tasks.len(),
        ensures
            r == self@.tasks[id as int].period,
    {
        self.tasks[id].period
    }

    /// The pending deadline of task `id`.
    pub fn deadline_of(&self, id: usize) -> (r: u64)
        requires
            id < self@.tasks.len(),
        ensures
            r == self@.tasks[id as int].deadline,
    {
        self.tasks[id].next_deadline
    }

    /// The level the actuator of task `id` holds right now.
    pub fn state_of(&self, id: usize) -> (r: ActuatorState)
        requires
            id < self@.tasks.len(),
        ensures
            r == self@.tasks[id as int].state,
    {
        self.tasks[id].state
    }

    /// Register one task.  Its identity, used everywhere else, is its
    /// registration order; its actuator starts at the reset level `High` and
    /// its first resume comes one period after registration.
    pub fn spawn(&mut self, period: u64) -> (id: usize)
        requires
            old(self)@.wf(),
            1 <= period,
            old(self)@.now + period <= u64::MAX,
        ensures
            final(self)@.wf(),
            final(self)@.now == old(self)@.now,
            id == old(self)@.tasks.len(),
            final(self)@.tasks == old(self)@.tasks.push(
                TaskModel {
                    period: period as int,
                    deadline: old(self)@.now + period,
                    state: ActuatorState::High,
                },
            ),
    {
        let id = self.tasks.len();
        let t = Task::new(period, self.now);
        let ghost pre = self@;
        self.tasks.push(t);
        proof {
            assert(self@.tasks =~= pre.tasks.push(t@));
        }
        id
    }

    /// The earliest pending deadline across all tasks: the instant at which
    /// the processor must next wake.  `None` exactly when no task is
    /// registered.
    pub fn next_wake(&self) -> (r: Option<u64>)
        ensures
            match r {
                Option::None => self@.tasks.len() == 0,
                Option::Some(d) => {
                    &&& self@.tasks.len() > 0
                    &&& exists|i: int|
                        0 <= i < self@.tasks.len() && (#[trigger] self@.tasks[i]).deadline == d
                    &&& forall|i: int|
                        0 <= i < self@.tasks.len() ==> (#[trigger] self@.tasks[i]).deadline >= d
                },
            },
    {
        if self.tasks.len() == 0 {
            return None;
        }
        let mut best: u64 = self.tasks[0].next_deadline;
        assert(self@.tasks[0].deadline == best);
        let mut i: usize = 1;
        while i < self.tasks.len()
            invariant
                1 <= i <= self@.tasks.len(),
                self@.tasks.len() == self.tasks.len(),
                exists|j: int| 0 <= j < i && (#[trigger] self@.tasks[j]).deadline == best,
                forall|j: int| 0 <= j < i ==> (#[trigger] self@.tasks[j]).deadline >= best,
            decreases self.tasks.len() - i,
        {
            if self.tasks[i].next_deadline < best {
                best = self.tasks[i].next_deadline;
                assert(self@.tasks[i as int].deadline == best);
            }
            i = i + 1;
        }
        Some(best)
    }

    /// Advance the timebase to instant `t` and resume every task whose
    /// deadline has elapsed, in ascending-deadline order, ties broken by
    /// registration order.  Each resumed task flips its actuator once and
    /// schedules its next resume one period after `t` (fixed-delay
    /// semantics).  The returned events record, in resume order, which task
    /// set its actuator to which level.
    #[verifier::loop_isolation(false)]
    pub fn advance_to(&mut self, t: u64) -> (r: Vec<Toggle>)
        requires
            old(self)@.wf(),
            old(self)@.now <= t,
            forall|i: int|
                0 <= i < old(self)@.tasks.len() ==> t + (#[trigger] old(self)@.tasks[i]).period
                    <= u64::MAX,
        ensures
            final(self)@.wf(),
            final(self)@.now == t,
            final(self)@.tasks.len() == old(self)@.tasks.len(),
            forall|i: int|
                0 <= i < old(self)@.tasks.len() ==> final(self)@.tasks[i] == task_step(
                    #[trigger] old(self)@.tasks[i],
                    t as int,
                ),
            forall|i: int|
                0 <= i < old(self)@.tasks.len() ==> #[trigger] toggles_for(toggle_views(r@), i)
                    == (if old(self)@.tasks[i].deadline <= t {
                    seq![
                        ToggleModel {
                            task: i,
                            at: t as int,
                            state: flip(old(self)@.tasks[i].state),
                        },
                    ]
                } else {
                    Seq::<ToggleModel>::empty()
                }),
            forall|k: int|
                0 <= k < r@.len() ==> {
                    let tg = #[trigger] r@[k];
                    &&& 0 <= tg.task < old(self)@.tasks.len()
                    &&& old(self)@.tasks[tg.task as int].deadline <= t
                    &&& tg.at == t
                    &&& tg.state == flip(old(self)@.tasks[tg.task as int].state)
                },
            forall|k1: int, k2: int|
                0 <= k1 < k2 < r@.len() ==> resume_order(
                    old(self)@.tasks[(#[trigger] r@[k1]).task as int].deadline,
                    r@[k1].task as int,
                    old(self)@.tasks[(#[trigger] r@[k2]).task as int].deadline,
                    r@[k2].task as int,
                ),
    {
        let ghost pre = self@;
        self.now = t;
        let n = self.tasks.len();
        let mut out: Vec<Toggle> = Vec::new();
        let mut done = false;
        while !done
            invariant
                done ==> forall|j: int| 0 <= j < n ==> (#[trigger] self@.tasks[j]).deadline > t,
                self@.tasks.len() == n,
                self@.now == t,
                forall|i: int|
                    0 <= i < n ==> (#[trigger] self@.tasks[i]) == pre.tasks[i] || (
                    pre.tasks[i].deadline <= t && self@.tasks[i] == task_step(
                        pre.tasks[i],
                        t as int,
                    )),
                forall|i: int|
                    0 <= i < n ==> #[trigger] toggles_for(toggle_views(out@), i) == (if resumed(
                        pre.tasks,
                        self@.tasks,
                        i,
                        t as int,
                    ) {
                        seq![
                            ToggleModel { task: i, at: t as int, state: flip(pre.tasks[i].state) },
                        ]
                    } else {
                        Seq::<ToggleModel>::empty()
                    }),
                forall|k: int|
                    0 <= k < out@.len() ==> {
                        let tg = #[trigger] out@[k];
                        &&& 0 <= tg.task < n
                        &&& tg.at == t
                        &&& tg.state == flip(pre.tasks[tg.task as int].state)
                        &&& resumed(pre.tasks, self@.tasks, tg.task as int, t as int)
                    },
                forall|k1: int, k2: int|
                    0 <= k1 < k2 < out@.len() ==> resume_order(
                        pre.tasks[(#[trigger] out@[k1]).task as int].deadline,
                        out@[k1].task as int,
                        pre.tasks[(#[trigger] out@[k2]).task as int].deadline,
                        out@[k2].task as int,
                    ),
                forall|k: int, j: int|
                    0 <= k < out@.len() && 0 <= j < n && (#[trigger] self@.tasks[j]).deadline <= t
                        ==> resume_order(
                        pre.tasks[(#[trigger] out@[k]).task as int].deadline,
                        out@[k].task as int,
                        pre.tasks[j].deadline,
                        j,
                    ),
            decreases n_due(self@.tasks, t as int), (if done {
                0int
            } else {
                1int
            }),
        {
            // find the due task that resumes first: least deadline, then
            // least registration index
            let mut best: Option<usize> = None;
            let mut i: usize = 0;
            while i < n
                invariant
                    i <= n,
                    match best {
                        Option::None => forall|j: int|
                            0 <= j < i ==> (#[trigger] self@.tasks[j]).deadline > t,
                        Option::Some(b) => {
                            &&& 0 <= (b as int) < i as int
                            &&& self@.tasks[b as int].deadline <= t
                            &&& forall|j: int|
                                0 <= j < i && (#[trigger] self@.tasks[j]).deadline <= t ==> (
                                self@.tasks[b as int].deadline < self@.tasks[j].deadline || (
                                self@.tasks[b as int].deadline == self@.tasks[j].deadline && b
                                    <= j))
                        },
                    },
                decreases n - i,
            {
                let due_i = self.tasks[i].next_deadline <= t;
                if due_i {
                    match best {
                        Option::None => { best = Some(i) },
                        Option::Some(b) => {
                            if self.tasks[i].next_deadline < self.tasks[b].next_deadline {
                                best = Some(i);
                            }
                        },
                    }
                }
                i = i + 1;
            }
            match best {
                Option::None => {
                    done = true;
                },
                Option::Some(b) => {
                    let tk = self.tasks[b];
                    assert(tk@ == self@.tasks[b as int]);
                    assert(tk@ == pre.tasks[b as int]);
                    let new_state = tk.state.flipped();
                    let nt = Task {
                        period: tk.period,
                        next_deadline: t + tk.period,
                        state: new_state,
                    };
                    let ghost prev_models = self@.tasks;
                    let ghost prev_out = out@;
                    self.tasks[b] = nt;
                    proof {
                        assert(self@.tasks =~= prev_models.update(b as int, nt@));
                    }
                    out.push(Toggle { task: b, at: t, state: new_state });
                    proof {
                        let tg = Toggle { task: b, at: t, state: new_state };
                        lemma_toggle_views_push(prev_out, tg);
                        assert forall|i: int| 0 <= i < n implies #[trigger] toggles_for(
                            toggle_views(out@),
                            i,
                        ) == (if resumed(pre.tasks, self@.tasks, i, t as int) {
                            seq![
                                ToggleModel {
                                    task: i,
                                    at: t as int,
                                    state: flip(pre.tasks[i].state),
                                },
                            ]
                        } else {
                            Seq::<ToggleModel>::empty()
                        }) by {
                            lemma_toggles_for_push(toggle_views(prev_out), tg@, i);
                            if i == b as int {
                                assert(!resumed(pre.tasks, prev_models, i, t as int));
                                assert(toggles_for(toggle_views(prev_out), i)
                                    == Seq::<ToggleModel>::empty());
                                assert(toggles_for(toggle_views(out@), i) == Seq::<
                                    ToggleModel,
                                >::empty().push(tg@));
                                assert(Seq::<ToggleModel>::empty().push(tg@) =~= seq![
                                    ToggleModel {
                                        task: i,
                                        at: t as int,
                                        state: flip(pre.tasks[i].state),
                                    },
                                ]);
                            } else {
                                assert(self@.tasks[i] == prev_models[i]);
                            }
                        }
                        lemma_n_due_update(prev_models, b as int, nt@, t as int);
                    }
                },
            }
        }
        proof {
            assert forall|i: int| 0 <= i < n implies self@.tasks[i] == task_step(
                pre.tasks[i],
                t as int,
            ) by {
                if pre.tasks[i].deadline <= t {
                    assert(self@.tasks[i].deadline > t);
                    assert(self@.tasks[i] != pre.tasks[i]);
                }
            }
        }
        out
    }

    /// Run the ideal schedule to instant `horizon`: repeatedly sleep until
    /// the earliest pending deadline and wake exactly there, so that every
    /// task is resumed exactly at its own deadlines.  Each task's toggle
    /// events are therefore a function of its own descriptor alone: the k-th
    /// one falls exactly one period after the (k-1)-th, whatever the other
    /// tasks' periods are.
    #[verifier::loop_isolation(false)]
    pub fn run_until(&mut self, horizon: u64) -> (r: Vec<Toggle>)
        requires
            old(self)@.wf(),
            old(self)@.now <= horizon,
            forall|i: int|
                0 <= i < old(self)@.tasks.len() ==> horizon + (
                #[trigger] old(self)@.tasks[i]).period <= u64::MAX,
        ensures
            final(self)@.wf(),
            final(self)@.tasks.len() == old(self)@.tasks.len(),
            old(self)@.now <= final(self)@.now <= horizon,
            forall|i: int|
                0 <= i < old(self)@.tasks.len() ==> final(self)@.tasks[i] == evolve(
                    #[trigger] old(self)@.tasks[i],
                    horizon as int,
                ),
            forall|i: int|
                0 <= i < old(self)@.tasks.len() ==> #[trigger] toggles_for(toggle_views(r@), i)
                    == ideal(old(self)@.tasks[i], i, horizon as int),
            forall|k: int|
                0 <= k < r@.len() ==> {
                    let tg = #[trigger] r@[k];
                    &&& 0 <= tg.task < old(self)@.tasks.len()
                    &&& old(self)@.now < tg.at <= horizon
                },
            forall|k1: int, k2: int|
                0 <= k1 < k2 < r@.len() ==> resume_order(
                    (#[trigger] r@[k1]).at as int,
                    r@[k1].task as int,
                    (#[trigger] r@[k2]).at as int,
                    r@[k2].task as int,
                ),
    {
        let ghost pre = self@;
        let n = self.tasks.len();
        let mut out: Vec<Toggle> = Vec::new();
        proof {
            assert(toggle_views(out@) =~= Seq::<ToggleModel>::empty());
            assert forall|i: int| 0 <= i < n implies self@.tasks[i] == evolve(
                #[trigger] pre.tasks[i],
                pre.now,
            ) && toggles_for(toggle_views(out@), i) == ideal(pre.tasks[i], i, pre.now) by {
                assert(pre.tasks[i].deadline > pre.now);
            }
        }
        let mut done = false;
        while !done
            invariant
                done ==> forall|j: int|
                    0 <= j < n ==> (#[trigger] self@.tasks[j]).deadline > horizon,
                self@.wf(),
                self@.tasks.len() == n,
                pre.now <= self@.now <= horizon,
                forall|i: int|
                    0 <= i < n ==> self@.tasks[i] == evolve(#[trigger] pre.tasks[i], self@.now),
                forall|i: int|
                    0 <= i < n ==> #[trigger] toggles_for(toggle_views(out@), i) == ideal(
                        pre.tasks[i],
                        i,
                        self@.now,
                    ),
                forall|k: int|
                    0 <= k < out@.len() ==> {
                        let tg = #[trigger] out@[k];
                        &&& 0 <= tg.task < n
                        &&& pre.now < tg.at <= self@.now
                    },
                forall|k1: int, k2: int|
                    0 <= k1 < k2 < out@.len() ==> resume_order(
                        (#[trigger] out@[k1]).at as int,
                        out@[k1].task as int,
                        (#[trigger] out@[k2]).at as int,
                        out@[k2].task as int,
                    ),
            decreases (horizon - self@.now), (if done {
                0int
            } else {
                1int
            }),
        {
            let nw = self.next_wake();
            match nw {
                Option::None => {
                    done = true;
                },
                Option::Some(d) => {
                    if d > horizon {
                        done = true;
                    } else {
                        proof {
                            let wi = choose|j: int|
                                0 <= j < n && (#[trigger] self@.tasks[j]).deadline == d;
                            assert(self@.tasks[wi].deadline > self@.now);
                            assert forall|i: int|
                                0 <= i < n implies d + (#[trigger] self@.tasks[i]).period
                                <= u64::MAX by {
                                lemma_evolve_pending(pre.tasks[i], self@.now);
                            }
                        }
                        let ghost mid = self@;
                        let ghost prev_out = out@;
                        let mut batch = self.advance_to(d);
                        let ghost batch_view = batch@;
                        out.append(&mut batch);
                        proof {
                            lemma_toggle_views_add(prev_out, batch_view);
                            assert forall|i: int| 0 <= i < n implies self@.tasks[i] == evolve(
                                #[trigger] pre.tasks[i],
                                d as int,
                            ) && toggles_for(toggle_views(out@), i) == ideal(
                                pre.tasks[i],
                                i,
                                d as int,
                            ) by {
                                lemma_run_split(pre.tasks[i], i, mid.now, d as int);
                                lemma_toggles_for_add(
                                    toggle_views(prev_out),
                                    toggle_views(batch_view),
                                    i,
                                );
                                let m = mid.tasks[i];
                                if m.deadline > d {
                                    assert(evolve(m, d as int) == m);
                                    assert(ideal(m, i, d as int) =~= Seq::<ToggleModel>::empty());
                                    assert(ideal(pre.tasks[i], i, d as int) =~= ideal(
                                        pre.tasks[i],
                                        i,
                                        mid.now,
                                    ) + Seq::<ToggleModel>::empty());
                                } else {
                                    assert(m.deadline == d);
                                    let m2 = task_step(m, d as int);
                                    assert(m2.deadline == d + m.period > d);
                                    assert(evolve(m, d as int) == evolve(m2, d as int));
                                    assert(evolve(m2, d as int) == m2);
                                    assert(ideal(m2, i, d as int) =~= Seq::<ToggleModel>::empty());
                                    assert(ideal(m, i, d as int) =~= seq![
                                        ToggleModel { task: i, at: d as int, state: flip(m.state) },
                                    ]);
                                }
                            }
                            assert forall|k: int| 0 <= k < out@.len() implies {
                                let tg = #[trigger] out@[k];
                                &&& 0 <= tg.task < n
                                &&& pre.now < tg.at <= self@.now
                            } by {
                                if k >= prev_out.len() {
                                    assert(out@[k] == batch_view[k - prev_out.len()]);
                                }
                            }
                            assert forall|k1: int, k2: int|
                                0 <= k1 < k2 < out@.len() implies resume_order(
                                (#[trigger] out@[k1]).at as int,
                                out@[k1].task as int,
                                (#[trigger] out@[k2]).at as int,
                                out@[k2].task as int,
                            ) by {
                                let lo = prev_out.len() as int;
                                if k2 >= lo {
                                    assert(out@[k2] == batch_view[k2 - lo]);
                                    assert(out@[k2].at == d);
                                    if k1 >= lo {
                                        assert(out@[k1] == batch_view[k1 - lo]);
                                        let t1 = batch_view[k1 - lo].task as int;
                                        let t2 = batch_view[k2 - lo].task as int;
                                        assert(mid.tasks[t1].deadline == d);
                                        assert(mid.tasks[t2].deadline == d);
                                    } else {
                                        assert(out@[k1] == prev_out[k1]);
                                        assert(out@[k1].at <= mid.now < d);
                                    }
                                }
                            }
                        }
                    }
                },
            }
        }
        proof {
            assert forall|i: int| 0 <= i < n implies self@.tasks[i] == evolve(
                #[trigger] pre.tasks[i],
                horizon as int,
            ) && toggles_for(toggle_views(out@), i) == ideal(
                pre.tasks[i],
                i,
                horizon as int,
            ) by {
                lemma_run_split(pre.tasks[i], i, self@.now, horizon as int);
                let m = self@.tasks[i];
                assert(m.deadline > horizon);
                assert(evolve(m, horizon as int) == m);
                assert(ideal(m, i, horizon as int) =~= Seq::<ToggleModel>::empty());
                assert(ideal(pre.tasks[i], i, horizon as int) =~= ideal(
                    pre.tasks[i],
                    i,
                    self@.now,
                ) + Seq::<ToggleModel>::empty());
            }
        }
        out
    }
}

} // verus!
