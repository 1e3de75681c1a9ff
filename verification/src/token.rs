//! Shared cancellation tokens.
//!
//! Each task gets one token when it is registered.  The scheduler keeps
//! one handle and the task's execution loop gets another; both refer to
//! the same atomic flag.  The scheduler only ever clears the flag
//! (`cancel`), the loop only ever reads it (`is_active`), so a single
//! atomic boolean with relaxed ordering is all the synchronization the
//! two sides need.
//!
//! The flag is shared mutable state: another handle to the same cell
//! may clear it between any two observations.  The contracts therefore
//! pin nothing about the value `is_active` returns; verified callers
//! must hold for every outcome, which is exactly the cooperative,
//! fire-and-forget cancellation model.

use vstd::prelude::*;

verus! {

/// One handle on a task's shared cancellation flag.
pub struct CancelToken {
    flag: std::sync::Arc<core::sync::atomic::AtomicBool>,
}

impl CancelToken {
    /// A fresh flag, set to active, with this as its only handle so
    /// far.
    pub fn new() -> (r: CancelToken) {
        CancelToken {
            flag: std::sync::Arc::new(core::sync::atomic::AtomicBool::new(true)),
        }
    }

    /// Another handle on the same flag, for handing to an execution
    /// loop.
    ///
    /// Relies on `std::sync::Arc::clone`: the new handle shares the
    /// original cell rather than copying its value.
    #[verifier::external_body]
    pub fn handle(&self) -> (r: CancelToken) {
        CancelToken { flag: std::sync::Arc::clone(&self.flag) }
    }

    /// Request the owning loop to stop, by clearing the shared flag;
    /// the loop observes it at its next cycle boundary.
    pub fn cancel(&self) {
        self.flag.store(false, core::sync::atomic::Ordering::Relaxed);
    }

    /// Whether the task is still requested to run.  Nothing is
    /// promised of the result: any other handle on the same flag may
    /// clear it at any moment.
    pub fn is_active(&self) -> (r: bool) {
        self.flag.load(core::sync::atomic::Ordering::Relaxed)
    }
}

} // verus!
