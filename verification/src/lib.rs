//! A cooperative periodic-task scheduler: a fixed set of tasks, each of which
//! toggles one binary actuator on its own period, share a single monotonic
//! timebase and a single execution context.  The scheduler resumes each task
//! when its deadline elapses, in ascending-deadline order, with ties broken
//! deterministically by registration order.

pub mod laws;
pub mod sched;
pub mod task;
