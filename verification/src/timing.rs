//! Drift-compensated timing for one execution loop.
//!
//! A loop that simply slept for a fixed delay after every invocation
//! would accumulate timing error cycle over cycle.  Instead, each task
//! keeps a [`TaskClock`]: after the `k`-th completed invocation the
//! loop sleeps until the cumulative target `interval * k`, measured
//! from loop start, clamped at zero when a slow invocation already
//! overran the target (no negative sleep and no catch-up burst).

use vstd::prelude::*;

verus! {

/// The sleep owed after `completions` finished invocations: the
/// distance from `elapsed` to the cumulative target
/// `interval * completions`, or zero when the target was overrun.
pub open spec fn sleep_needed(interval: int, completions: int, elapsed: int) -> int {
    if interval * completions > elapsed {
        interval * completions - elapsed
    } else {
        0
    }
}

/// `sleep_needed`, clamped into the range of `u64`.
pub open spec fn sleep_clamped(interval: int, completions: int, elapsed: int) -> int {
    if sleep_needed(interval, completions, elapsed) > u64::MAX {
        u64::MAX as int
    } else {
        sleep_needed(interval, completions, elapsed)
    }
}

/// Elapsed time at which the `n + 1`-th invocation starts, in the
/// model where invocation `k + 1` runs for `durations[k]` and every
/// sleep lasts exactly as long as requested: each cycle finishes its
/// invocation, then sleeps the drift-compensated amount.
pub open spec fn cycle_start(interval: int, durations: Seq<int>, n: nat) -> int
    recommends
        n <= durations.len(),
    decreases n,
{
    if n == 0 {
        0
    } else {
        let finished = cycle_start(interval, durations, (n - 1) as nat) + durations[n - 1];
        finished + sleep_needed(interval, n as int, finished)
    }
}

/// Per-task cycle counter from which the drift-compensated sleep is
/// computed.
pub struct TaskClock {
    /// Repeat interval of the task, in milliseconds; positive.
    pub interval_ms: u64,
    /// Invocations completed so far, successful or not.
    pub completions: u64,
}

/// The clock state after one more invocation has completed.  It is a
/// function of the previous state alone: whether the invocation
/// succeeded or failed does not enter.
pub open spec fn after_invocation(c: TaskClock) -> TaskClock {
    TaskClock { interval_ms: c.interval_ms, completions: (c.completions + 1) as u64 }
}

impl TaskClock {
    /// A fresh clock for a task with the given repeat interval, with no
    /// completed invocations yet.
    pub fn new(interval_ms: u64) -> (r: TaskClock)
        requires
            interval_ms > 0,
        ensures
            r.interval_ms == interval_ms,
            r.completions == 0,
    {
        TaskClock { interval_ms, completions: 0 }
    }

    /// Record that one invocation has finished.  A failed invocation is
    /// recorded exactly like a successful one: the next state depends
    /// on the previous state alone, so a failure never stops the task
    /// or alters its cadence.
    pub fn record_invocation(&mut self, succeeded: bool)
        requires
            old(self).completions < u64::MAX,
        ensures
            *final(self) == after_invocation(*old(self)),
    {
        self.completions = self.completions + 1;
    }

    /// The drift-compensated sleep owed now, given the time elapsed
    /// since loop start, in milliseconds.
    pub fn sleep_ms(&self, elapsed_ms: u64) -> (r: u64)
        ensures
            r == sleep_clamped(self.interval_ms as int, self.completions as int, elapsed_ms as int),
    {
        proof {
            assert((self.interval_ms as int) * (self.completions as int)
                <= (u64::MAX as int) * (u64::MAX as int)) by (nonlinear_arith)
                requires
                    self.interval_ms <= u64::MAX,
                    self.completions <= u64::MAX,
            ;
        }
        let target: u128 = (self.interval_ms as u128) * (self.completions as u128);
        if target > elapsed_ms as u128 {
            let gap: u128 = target - elapsed_ms as u128;
            if gap > u64::MAX as u128 {
                u64::MAX
            } else {
                gap as u64
            }
        } else {
            0
        }
    }
}

/// Drift tolerance: as long as every invocation runs for at most
/// `bound`, itself at most one interval, the `n + 1`-th invocation
/// starts no earlier than its target `interval * n` and no later than
/// `bound` past it.  Scheduling error stays within one invocation's
/// duration of the target, however the earlier cycles came out — it
/// does not compound across cycles.
pub proof fn lemma_drift_tolerance(interval: int, durations: Seq<int>, bound: int, n: nat)
    requires
        0 <= bound <= interval,
        n <= durations.len(),
        forall|k: int| 0 <= k < durations.len() ==> 0 <= #[trigger] durations[k] <= bound,
    ensures
        interval * n <= cycle_start(interval, durations, n) <= interval * n + bound,
    decreases n,
{
    if n > 0 {
        let m = (n - 1) as nat;
        lemma_drift_tolerance(interval, durations, bound, m);
        assert(interval * n == interval * m + interval) by (nonlinear_arith)
            requires
                n == m + 1,
        ;
        let finished = cycle_start(interval, durations, m) + durations[n - 1];
        assert(cycle_start(interval, durations, n) == finished + sleep_needed(
            interval,
            n as int,
            finished,
        ));
    } else {
        assert(interval * n == 0) by (nonlinear_arith)
            requires
                n == 0,
        ;
    }
}

/// Drift compensation, exactly: with instantaneous invocations the
/// `n + 1`-th invocation starts exactly at `interval * n`.
pub proof fn lemma_drift_compensation(interval: int, durations: Seq<int>, n: nat)
    requires
        interval >= 0,
        n <= durations.len(),
        forall|k: int| 0 <= k < durations.len() ==> #[trigger] durations[k] == 0,
    ensures
        cycle_start(interval, durations, n) == interval * n,
{
    lemma_drift_tolerance(interval, durations, 0, n);
}

} // verus!
