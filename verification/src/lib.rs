//! A lightweight periodic-task scheduler.
//!
//! Callers register invocable units of work together with a repeat
//! interval ([`scheduler::Scheduler::schedule`]); starting the
//! scheduler drains the pending registrations into launch
//! descriptions, one per task, each carrying a shared cancellation
//! token ([`token::CancelToken`]).  A host runtime drives one
//! execution loop per launch, pacing it with the drift-compensated
//! sleep computation of [`timing`], until the scheduler cancels the
//! task's token ([`scheduler::Scheduler::terminate`],
//! [`scheduler::Scheduler::shutdown`]).

pub mod scheduler;
pub mod timing;
pub mod token;
