//! The scheduler: task registration, start, termination, shutdown.
//!
//! A [`Scheduler`] owns a pending sequence of registered tasks and a
//! running-set mapping from task id to cancellation token.  Ids are
//! allocated from a monotonically increasing counter starting at 1 and
//! are never reused for the lifetime of one scheduler, shutdowns
//! included.  A task's token is created when the task is registered,
//! before it is ever started, so the scheduler can request cancellation
//! at any point of the task's life.
//!
//! The scheduler never runs a task itself: [`Scheduler::start`] drains
//! the pending sequence into [`Launch`] values, and the host runtime
//! drives one execution loop per launch, pacing it with
//! [`crate::timing::TaskClock`] and stopping when the launch's token is
//! no longer active.  The scheduler's own operations assume a single
//! caller; only the tokens are shared with the loops.

use vstd::prelude::*;

use crate::token::CancelToken;

verus! {

/// A registered task: a unit of work, its repeat interval, and its
/// identity.  Immutable once created; moved out of the pending
/// sequence when started.
pub struct Task<T> {
    /// Unique id, from the scheduler's counter; at least 1.
    pub id: u64,
    /// The unit of work the execution loop will invoke each cycle.
    pub invocable: T,
    /// Repeat interval in milliseconds; positive.
    pub interval_ms: u64,
}

/// Everything the host runtime needs to drive one started task: the
/// task's data plus a handle on its cancellation token.
pub struct Launch<T> {
    /// The task's id.
    pub id: u64,
    /// The unit of work to invoke each cycle.
    pub invocable: T,
    /// Repeat interval in milliseconds; positive.
    pub interval_ms: u64,
    /// The loop's handle on the task's shared cancellation flag.
    pub token: CancelToken,
}

/// The errors the scheduler reports synchronously.
#[derive(Debug, PartialEq, Eq, Structural)]
pub enum SchedulerError {
    /// The id is absent from the running-set mapping: never issued,
    /// already terminated, or shut down.
    NotFound,
    /// The id counter is exhausted; no further task can be registered
    /// on this scheduler.
    IdSpaceExhausted,
}

/// A read-only snapshot for diagnostics: which tasks are still pending
/// and which started ids still had an active token when observed.
pub struct ScheduleReport {
    /// Ids of tasks registered but not yet started, in registration
    /// order.
    pub pending: Vec<u64>,
    /// Ids in the running-set mapping whose token was observed active,
    /// in mapping order.  Best effort: a token may be cleared by the
    /// time the caller reads the report.
    pub running: Vec<u64>,
}

/// The ids of the running-set mapping, in order.
pub open spec fn token_ids(tokens: Seq<(u64, CancelToken)>) -> Seq<u64> {
    tokens.map_values(|p: (u64, CancelToken)| p.0)
}

/// Whether `id` is in the running-set mapping.
pub open spec fn has_token(tokens: Seq<(u64, CancelToken)>, id: u64) -> bool {
    token_ids(tokens).contains(id)
}

/// The ids of a pending sequence, in registration order.
pub open spec fn pending_ids<T>(pending: Seq<Task<T>>) -> Seq<u64> {
    pending.map_values(|t: Task<T>| t.id)
}

/// The ids among `keys` whose entry in `flags` was observed set, in
/// order.  This is what a diagnostic snapshot reports as running,
/// `flags` being the flag values the snapshot happened to observe.
pub open spec fn active_ids(keys: Seq<u64>, flags: Seq<bool>) -> Seq<u64>
    recommends
        keys.len() == flags.len(),
    decreases keys.len(),
{
    if keys.len() == 0 {
        Seq::empty()
    } else {
        let rest = active_ids(keys.drop_last(), flags.drop_last());
        if flags.last() {
            rest.push(keys.last())
        } else {
            rest
        }
    }
}

/// The data of a sequence of launches: each launch's id, interval and
/// unit of work, in order.
pub open spec fn launch_parts<T>(ls: Seq<Launch<T>>) -> Seq<(u64, u64, T)> {
    ls.map_values(|l: Launch<T>| (l.id, l.interval_ms, l.invocable))
}

/// What one drain of `pending` launches, given the running-set mapping
/// `tokens`: the id, interval and unit of work of every pending task
/// whose id still has a token, in registration order.  A pending task
/// that was terminated before ever being started has lost its token
/// and is dropped: its loop would observe the cancelled flag and exit
/// before the first invocation anyway.
pub open spec fn launch_plan<T>(
    pending: Seq<Task<T>>,
    tokens: Seq<(u64, CancelToken)>,
) -> Seq<(u64, u64, T)>
    decreases pending.len(),
{
    if pending.len() == 0 {
        Seq::empty()
    } else {
        let rest = launch_plan(pending.drop_last(), tokens);
        let t = pending.last();
        if has_token(tokens, t.id) {
            rest.push((t.id, t.interval_ms, t.invocable))
        } else {
            rest
        }
    }
}

/// The periodic-task scheduler.  Callers must serialize calls to its
/// own API; the only state shared with execution loops is the tokens.
pub struct Scheduler<T> {
    /// Tasks registered but not yet started, in registration order.
    pending: Vec<Task<T>>,
    /// The running-set mapping: id to cancellation token, for every
    /// task whose token the scheduler still holds.
    tokens: Vec<(u64, CancelToken)>,
    /// The last id issued; 0 before any registration.  Never reset.
    counter: u64,
    /// Every id ever issued, in issue order.
    issued: Ghost<Seq<u64>>,
}

impl<T> Scheduler<T> {
    /// The pending sequence.
    pub closed spec fn spec_pending(&self) -> Seq<Task<T>> {
        self.pending@
    }

    /// The running-set mapping, as an ordered sequence of pairs.
    pub closed spec fn spec_running(&self) -> Seq<(u64, CancelToken)> {
        self.tokens@
    }

    /// The last id issued.
    pub closed spec fn spec_counter(&self) -> u64 {
        self.counter
    }

    /// Every id ever issued by this scheduler, in issue order.
    pub closed spec fn spec_issued(&self) -> Seq<u64> {
        self.issued@
    }

    /// Well-formedness: the `i`-th id ever issued was `i + 1`, the
    /// counter counts the issued ids, every id in the pending sequence
    /// or the running-set mapping was issued, ids are unique within
    /// each, and pending intervals are positive.
    pub open spec fn wf(&self) -> bool {
        &&& self.spec_issued().len() == self.spec_counter()
        &&& (forall|i: int| 0 <= i < self.spec_issued().len() ==> self.spec_issued()[i] == i + 1)
        &&& (forall|i: int|
            0 <= i < self.spec_running().len() ==> 1 <= (#[trigger] self.spec_running()[i]).0
                <= self.spec_counter())
        &&& (forall|i: int, j: int|
            0 <= i < j < self.spec_running().len() ==> self.spec_running()[i].0
                != self.spec_running()[j].0)
        &&& (forall|i: int|
            0 <= i < self.spec_pending().len() ==> 1 <= (#[trigger] self.spec_pending()[i]).id
                <= self.spec_counter())
        &&& (forall|i: int, j: int|
            0 <= i < j < self.spec_pending().len() ==> self.spec_pending()[i].id
                != self.spec_pending()[j].id)
        &&& (forall|i: int|
            0 <= i < self.spec_pending().len() ==> (#[trigger] self.spec_pending()[i]).interval_ms
                > 0)
    }

    /// A scheduler with nothing registered, nothing running, and no id
    /// issued yet.
    pub fn new() -> (r: Scheduler<T>)
        ensures
            r.wf(),
            r.spec_pending() == Seq::<Task<T>>::empty(),
            r.spec_running() == Seq::<(u64, CancelToken)>::empty(),
            r.spec_counter() == 0,
            r.spec_issued() == Seq::<u64>::empty(),
    {
        Scheduler {
            pending: Vec::new(),
            tokens: Vec::new(),
            counter: 0,
            issued: Ghost(Seq::empty()),
        }
    }

    /// Register a unit of work to be invoked every `interval_ms`
    /// milliseconds once started.  Allocates the next id, appends the
    /// task to the pending sequence, and records a fresh, active
    /// cancellation token for the id in the running-set mapping.
    ///
    /// Fails only when the id space is exhausted, and then changes
    /// nothing.
    pub fn schedule(&mut self, invocable: T, interval_ms: u64) -> (r: Result<
        u64,
        SchedulerError,
    >)
        requires
            old(self).wf(),
            interval_ms > 0,
        ensures
            final(self).wf(),
            old(self).spec_counter() == u64::MAX ==> {
                &&& r == Err::<u64, SchedulerError>(SchedulerError::IdSpaceExhausted)
                &&& *final(self) == *old(self)
            },
            old(self).spec_counter() < u64::MAX ==> {
                let id = (old(self).spec_counter() + 1) as u64;
                &&& r == Ok::<u64, SchedulerError>(id)
                &&& final(self).spec_counter() == id
                &&& final(self).spec_issued() == old(self).spec_issued().push(id)
                &&& final(self).spec_pending() == old(self).spec_pending().push(
                    (Task { id, invocable: invocable, interval_ms: interval_ms }),
                )
                &&& final(self).spec_running().len() == old(self).spec_running().len() + 1
                &&& final(self).spec_running().subrange(
                    0,
                    old(self).spec_running().len() as int,
                ) == old(self).spec_running()
                &&& final(self).spec_running().last().0 == id
                &&& has_token(final(self).spec_running(), id)
            },
    {
        if self.counter == u64::MAX {
            return Err(SchedulerError::IdSpaceExhausted);
        }
        self.counter = self.counter + 1;
        let id = self.counter;
        self.pending.push(Task { id, invocable, interval_ms });
        self.tokens.push((id, CancelToken::new()));
        proof {
            self.issued@ = self.issued@.push(id);
            let plen = old(self).spec_pending().len() as int;
            let tlen = old(self).spec_running().len() as int;
            assert forall|i: int|
                0 <= i < self.spec_issued().len() implies self.spec_issued()[i] == i + 1 by {
                if i < old(self).spec_issued().len() {
                    assert(old(self).spec_issued()[i] == i + 1);
                }
            }
            assert forall|i: int|
                0 <= i < self.spec_pending().len() implies 1 <= (
            #[trigger] self.spec_pending()[i]).id <= self.spec_counter() by {
                if i < plen {
                    assert(1 <= old(self).spec_pending()[i].id <= old(self).spec_counter());
                    assert(self.spec_pending()[i] == old(self).spec_pending()[i]);
                }
            }
            assert forall|i: int|
                0 <= i < self.spec_pending().len() implies (
            #[trigger] self.spec_pending()[i]).interval_ms > 0 by {
                if i < plen {
                    assert(old(self).spec_pending()[i].interval_ms > 0);
                    assert(self.spec_pending()[i] == old(self).spec_pending()[i]);
                }
            }
            assert forall|i: int, j: int|
                0 <= i < j < self.spec_pending().len() implies self.spec_pending()[i].id
                != self.spec_pending()[j].id by {
                assert(1 <= old(self).spec_pending()[i].id <= old(self).spec_counter());
                assert(self.spec_pending()[i] == old(self).spec_pending()[i]);
                if j < plen {
                    assert(old(self).spec_pending()[i].id != old(self).spec_pending()[j].id);
                    assert(self.spec_pending()[j] == old(self).spec_pending()[j]);
                }
            }
            assert forall|i: int|
                0 <= i < self.spec_running().len() implies 1 <= (
            #[trigger] self.spec_running()[i]).0 <= self.spec_counter() by {
                if i < tlen {
                    assert(1 <= old(self).spec_running()[i].0 <= old(self).spec_counter());
                    assert(self.spec_running()[i] == old(self).spec_running()[i]);
                }
            }
            assert forall|i: int, j: int|
                0 <= i < j < self.spec_running().len() implies self.spec_running()[i].0
                != self.spec_running()[j].0 by {
                assert(1 <= old(self).spec_running()[i].0 <= old(self).spec_counter());
                assert(self.spec_running()[i] == old(self).spec_running()[i]);
                if j < tlen {
                    assert(old(self).spec_running()[i].0 != old(self).spec_running()[j].0);
                    assert(self.spec_running()[j] == old(self).spec_running()[j]);
                }
            }
            assert(self.spec_running().subrange(0, tlen) =~= old(self).spec_running());
            assert(token_ids(self.spec_running())[tlen] == id);
            assert(has_token(self.spec_running(), id));
        }
        Ok(id)
    }

    /// Position of `id` in the running-set mapping, if present.
    fn find_token(&self, id: u64) -> (r: Option<usize>)
        ensures
            r is Some <==> has_token(self.spec_running(), id),
            r matches Some(i) ==> i < self.spec_running().len() && self.spec_running()[i as int].0
                == id,
    {
        let mut i: usize = 0;
        while i < self.tokens.len()
            invariant
                i <= self.spec_running().len(),
                forall|j: int| 0 <= j < i ==> (#[trigger] self.spec_running()[j]).0 != id,
            decreases self.spec_running().len() - i,
        {
            if self.tokens[i].0 == id {
                proof {
                    assert(token_ids(self.spec_running())[i as int] == id);
                }
                return Some(i);
            }
            i = i + 1;
        }
        proof {
            assert forall|k: int|
                0 <= k < token_ids(self.spec_running()).len() implies #[trigger] token_ids(
                self.spec_running(),
            )[k] != id by {
                assert(token_ids(self.spec_running())[k] == self.spec_running()[k].0);
            }
        }
        None
    }

    /// Atomically take the whole pending sequence, leaving it empty,
    /// and return one launch for each drained task that still has a
    /// token, pairing the task with a fresh handle on that token, in
    /// registration order.  The host runtime drives one execution loop
    /// per launch; this call itself starts nothing and does not wait.
    ///
    /// Tasks registered after this call stay pending until `start` is
    /// called again; repeated calls only drain what was registered
    /// since the last one.
    pub fn start(&mut self) -> (r: Vec<Launch<T>>)
        requires
            old(self).wf(),
        ensures
            final(self).wf(),
            final(self).spec_pending() == Seq::<Task<T>>::empty(),
            final(self).spec_running() == old(self).spec_running(),
            final(self).spec_counter() == old(self).spec_counter(),
            final(self).spec_issued() == old(self).spec_issued(),
            launch_parts(r@) == launch_plan(old(self).spec_pending(), old(self).spec_running()),
            forall|k: int| 0 <= k < r@.len() ==> (#[trigger] r@[k]).interval_ms > 0,
    {
        let mut work: Vec<Task<T>> = Vec::new();
        core::mem::swap(&mut work, &mut self.pending);
        let ghost all = work@;
        let mut launches: Vec<Launch<T>> = Vec::new();
        let ghost mut processed: int = 0;
        while work.len() > 0
            invariant
                0 <= processed,
                processed + work@.len() == all.len(),
                work@ == all.skip(processed),
                all == old(self).spec_pending(),
                old(self).wf(),
                self.spec_running() == old(self).spec_running(),
                self.spec_pending() == Seq::<Task<T>>::empty(),
                self.spec_counter() == old(self).spec_counter(),
                self.spec_issued() == old(self).spec_issued(),
                launch_parts(launches@) == launch_plan(
                    all.take(processed),
                    old(self).spec_running(),
                ),
                forall|k: int| 0 <= k < launches@.len() ==> (#[trigger] launches@[k]).interval_ms
                    > 0,
            decreases work@.len(),
        {
            let ghost p = processed;
            let ghost lau0 = launches@;
            let task = work.remove(0);
            proof {
                assert(task == all[p]);
                assert(1 <= old(self).spec_pending()[p].id <= old(self).spec_counter());
                assert(old(self).spec_pending()[p].interval_ms > 0);
            }
            match self.find_token(task.id) {
                Some(j) => {
                    let tok = self.tokens[j].1.handle();
                    launches.push(
                        Launch {
                            id: task.id,
                            invocable: task.invocable,
                            interval_ms: task.interval_ms,
                            token: tok,
                        },
                    );
                },
                None => {
                },
            }
            proof {
                processed = processed + 1;
                assert(all.take(p + 1).drop_last() =~= all.take(p));
                assert(all.take(p + 1).last() == all[p]);
                if has_token(old(self).spec_running(), all[p].id) {
                    assert(launch_parts(launches@) =~= launch_parts(lau0).push(
                        (all[p].id, all[p].interval_ms, all[p].invocable),
                    ));
                    assert(launch_plan(all.take(p + 1), old(self).spec_running()) == launch_plan(
                        all.take(p),
                        old(self).spec_running(),
                    ).push((all[p].id, all[p].interval_ms, all[p].invocable)));
                } else {
                    assert(launches@ == lau0);
                    assert(launch_plan(all.take(p + 1), old(self).spec_running()) == launch_plan(
                        all.take(p),
                        old(self).spec_running(),
                    ));
                }
                assert(work@ =~= all.skip(p + 1));
            }
        }
        proof {
            assert(all.take(all.len() as int) =~= all);
            assert forall|i: int|
                0 <= i < self.spec_running().len() implies 1 <= (#[trigger] self.spec_running()[i]).0
                <= self.spec_counter() by {
                assert(self.spec_running()[i] == old(self).spec_running()[i]);
                assert(1 <= old(self).spec_running()[i].0 <= old(self).spec_counter());
            }
            assert forall|i: int, j: int|
                0 <= i < j < self.spec_running().len() implies self.spec_running()[i].0
                != self.spec_running()[j].0 by {
                assert(self.spec_running()[i] == old(self).spec_running()[i]);
                assert(self.spec_running()[j] == old(self).spec_running()[j]);
                assert(old(self).spec_running()[i].0 != old(self).spec_running()[j].0);
            }
            assert forall|i: int|
                0 <= i < self.spec_issued().len() implies self.spec_issued()[i] == i + 1 by {
                assert(old(self).spec_issued()[i] == i + 1);
            }
        }
        launches
    }

    /// Request cancellation of the task with this id.  If the id is in
    /// the running-set mapping, its token is cancelled and the id is
    /// removed from the mapping; the task's execution loop, if one is
    /// already running, observes the cleared flag at its next cycle
    /// boundary and exits on its own — this call does not wait for it.
    /// If the id is absent — never issued, already terminated, or shut
    /// down — nothing changes and `NotFound` is reported.
    pub fn terminate(&mut self, task_id: u64) -> (r: Result<(), SchedulerError>)
        requires
            old(self).wf(),
        ensures
            final(self).wf(),
            final(self).spec_pending() == old(self).spec_pending(),
            final(self).spec_counter() == old(self).spec_counter(),
            final(self).spec_issued() == old(self).spec_issued(),
            r == Ok::<(), SchedulerError>(()) <==> has_token(old(self).spec_running(), task_id),
            !has_token(old(self).spec_running(), task_id) ==> {
                &&& r == Err::<(), SchedulerError>(SchedulerError::NotFound)
                &&& final(self).spec_running() == old(self).spec_running()
            },
            has_token(old(self).spec_running(), task_id) ==> {
                &&& !has_token(final(self).spec_running(), task_id)
                &&& (exists|i: int|
                    0 <= i < old(self).spec_running().len() && (#[trigger] old(
                        self,
                    ).spec_running()[i]).0 == task_id && final(self).spec_running() == old(
                        self,
                    ).spec_running().remove(i))
            },
    {
        match self.find_token(task_id) {
            Some(i) => {
                self.tokens[i].1.cancel();
                self.tokens.remove(i);
                proof {
                    let ot = old(self).spec_running();
                    let nt = self.spec_running();
                    let iw = i as int;
                    assert(nt == ot.remove(iw));
                    assert forall|j: int|
                        0 <= j < nt.len() implies #[trigger] nt[j] == (if j < iw {
                        ot[j]
                    } else {
                        ot[j + 1]
                    }) by {}
                    assert forall|j: int|
                        0 <= j < nt.len() implies 1 <= (#[trigger] nt[j]).0 <= self.spec_counter()
                        && nt[j].0 != task_id by {
                        if j < iw {
                            assert(1 <= ot[j].0 <= old(self).spec_counter());
                            assert(ot[j].0 != ot[iw].0);
                        } else {
                            assert(1 <= ot[j + 1].0 <= old(self).spec_counter());
                            assert(ot[iw].0 != ot[j + 1].0);
                        }
                    }
                    assert forall|j: int, k: int|
                        0 <= j < k < nt.len() implies nt[j].0 != nt[k].0 by {
                        if k < iw {
                            assert(ot[j].0 != ot[k].0);
                        } else if j < iw {
                            assert(ot[j].0 != ot[k + 1].0);
                        } else {
                            assert(ot[j + 1].0 != ot[k + 1].0);
                        }
                    }
                    assert forall|k: int|
                        0 <= k < token_ids(nt).len() implies #[trigger] token_ids(nt)[k]
                        != task_id by {
                        assert(token_ids(nt)[k] == nt[k].0);
                    }
                    assert(0 <= iw < ot.len() && ot[iw].0 == task_id && nt == ot.remove(iw));
                    assert forall|j: int|
                        0 <= j < self.spec_pending().len() implies 1 <= (
                    #[trigger] self.spec_pending()[j]).id <= self.spec_counter()
                        && self.spec_pending()[j].interval_ms > 0 by {
                        assert(self.spec_pending()[j] == old(self).spec_pending()[j]);
                        assert(1 <= old(self).spec_pending()[j].id <= old(self).spec_counter());
                        assert(old(self).spec_pending()[j].interval_ms > 0);
                    }
                    assert forall|j: int, k: int|
                        0 <= j < k < self.spec_pending().len() implies self.spec_pending()[j].id
                        != self.spec_pending()[k].id by {
                        assert(self.spec_pending()[j] == old(self).spec_pending()[j]);
                        assert(self.spec_pending()[k] == old(self).spec_pending()[k]);
                        assert(old(self).spec_pending()[j].id != old(self).spec_pending()[k].id);
                    }
                }
                Ok(())
            },
            None => Err(SchedulerError::NotFound),
        }
    }

    /// A read-only diagnostic snapshot: the ids still pending, and the
    /// ids in the running-set mapping whose token was observed active.
    /// The running part is best effort only: each flag is read once,
    /// and another handle may clear it at any moment, so the report
    /// promises no more than that it reflects some observation of the
    /// current mapping.
    pub fn list_schedules(&self) -> (r: ScheduleReport)
        ensures
            r.pending@ == pending_ids(self.spec_pending()),
            exists|flags: Seq<bool>|
                flags.len() == self.spec_running().len() && r.running@ == active_ids(
                    token_ids(self.spec_running()),
                    flags,
                ),
    {
        let mut pending_list: Vec<u64> = Vec::new();
        let mut i: usize = 0;
        while i < self.pending.len()
            invariant
                i <= self.spec_pending().len(),
                pending_list@.len() == i,
                forall|j: int|
                    0 <= j < i ==> pending_list@[j] == (#[trigger] self.spec_pending()[j]).id,
            decreases self.spec_pending().len() - i,
        {
            pending_list.push(self.pending[i].id);
            i = i + 1;
        }
        proof {
            assert(pending_list@ =~= pending_ids(self.spec_pending()));
        }
        let mut running_list: Vec<u64> = Vec::new();
        let ghost mut flags: Seq<bool> = Seq::empty();
        let mut k: usize = 0;
        while k < self.tokens.len()
            invariant
                k <= self.spec_running().len(),
                flags.len() == k,
                running_list@ == active_ids(token_ids(self.spec_running()).take(k as int), flags),
            decreases self.spec_running().len() - k,
        {
            let active = self.tokens[k].1.is_active();
            if active {
                running_list.push(self.tokens[k].0);
            }
            proof {
                let kk = k as int;
                let keys = token_ids(self.spec_running());
                assert(keys.take(kk + 1).drop_last() =~= keys.take(kk));
                assert(flags.push(active).drop_last() =~= flags);
                assert(keys.take(kk + 1).last() == keys[kk]);
                assert(keys[kk] == self.spec_running()[kk].0);
                flags = flags.push(active);
            }
            k = k + 1;
        }
        proof {
            let keys = token_ids(self.spec_running());
            assert(keys.take(self.spec_running().len() as int) =~= keys);
            assert(flags.len() == self.spec_running().len() && running_list@ == active_ids(
                keys,
                flags,
            ));
        }
        ScheduleReport { pending: pending_list, running: running_list }
    }

    /// Request cancellation of every task in the running-set mapping,
    /// then clear both the mapping and the pending sequence.  Already
    /// launched loops stop on their own next cycle check; this call
    /// does not wait for them.  Afterwards the scheduler is back in its
    /// initial empty state and can be reused, except that the id
    /// counter keeps its value, preserving id uniqueness across the
    /// scheduler's lifetime.
    pub fn shutdown(&mut self)
        requires
            old(self).wf(),
        ensures
            final(self).wf(),
            final(self).spec_pending() == Seq::<Task<T>>::empty(),
            final(self).spec_running() == Seq::<(u64, CancelToken)>::empty(),
            final(self).spec_counter() == old(self).spec_counter(),
            final(self).spec_issued() == old(self).spec_issued(),
    {
        let mut i: usize = 0;
        while i < self.tokens.len()
            invariant
                *self == *old(self),
                i <= self.spec_running().len(),
            decreases self.spec_running().len() - i,
        {
            self.tokens[i].1.cancel();
            i = i + 1;
        }
        self.tokens.clear();
        self.pending.clear();
        proof {
            assert(self.spec_running() =~= Seq::<(u64, CancelToken)>::empty());
            assert(self.spec_pending() =~= Seq::<Task<T>>::empty());
        }
    }
}

/// Over the lifetime of one scheduler, the ids handed out by
/// `schedule` are strictly increasing, start at 1, and are never
/// repeated, shutdowns included: the `i`-th id ever issued is `i + 1`.
pub proof fn lemma_ids_strictly_increasing<T>(s: &Scheduler<T>)
    requires
        s.wf(),
    ensures
        forall|i: int, j: int|
            0 <= i < j < s.spec_issued().len() ==> s.spec_issued()[i] < s.spec_issued()[j],
        s.spec_issued().len() > 0 ==> s.spec_issued()[0] == 1,
{
}

/// `has_token` is the existence of a mapping entry with that id.
pub proof fn lemma_has_token_entry(tokens: Seq<(u64, CancelToken)>, id: u64)
    ensures
        has_token(tokens, id) <==> exists|i: int|
            0 <= i < tokens.len() && (#[trigger] tokens[i]).0 == id,
{
    if has_token(tokens, id) {
        let w = choose|w: int|
            0 <= w < token_ids(tokens).len() && token_ids(tokens)[w] == id;
        assert(tokens[w].0 == id);
    }
    if exists|i: int| 0 <= i < tokens.len() && (#[trigger] tokens[i]).0 == id {
        let w = choose|i: int| 0 <= i < tokens.len() && (#[trigger] tokens[i]).0 == id;
        assert(token_ids(tokens)[w] == id);
        assert(token_ids(tokens).contains(id));
    }
}

/// Cancellation isolation at the registry: terminating one task
/// removes exactly its own entry.  Any other id keeps its membership
/// in the running-set mapping, and keeps the very same entry — same
/// id, same token — so nothing about the other task's cancellation
/// state or timing is altered.
pub proof fn lemma_cancellation_isolation(
    before: Seq<(u64, CancelToken)>,
    after: Seq<(u64, CancelToken)>,
    i: int,
    other: u64,
)
    requires
        forall|p: int, q: int| 0 <= p < q < before.len() ==> before[p].0 != before[q].0,
        0 <= i < before.len(),
        before[i].0 != other,
        after == before.remove(i),
    ensures
        has_token(after, other) <==> has_token(before, other),
        forall|j: int|
            0 <= j < after.len() && (#[trigger] after[j]).0 == other ==> before.contains(after[j]),
        forall|j: int|
            0 <= j < before.len() && (#[trigger] before[j]).0 == other ==> after.contains(
                before[j],
            ),
{
    lemma_has_token_entry(before, other);
    lemma_has_token_entry(after, other);
    assert forall|j: int|
        0 <= j < after.len() implies #[trigger] after[j] == (if j < i {
        before[j]
    } else {
        before[j + 1]
    }) by {}
    assert forall|j: int|
        0 <= j < after.len() && (#[trigger] after[j]).0 == other implies before.contains(
        after[j],
    ) by {
        if j < i {
            assert(after[j] == before[j]);
        } else {
            assert(after[j] == before[j + 1]);
        }
    }
    assert forall|j: int|
        0 <= j < before.len() && (#[trigger] before[j]).0 == other implies after.contains(
        before[j],
    ) by {
        if j < i {
            assert(after[j] == before[j]);
        } else {
            assert(j != i);
            assert(after[j - 1] == before[j]);
        }
    }
    if has_token(before, other) {
        let k = choose|k: int| 0 <= k < before.len() && (#[trigger] before[k]).0 == other;
        if k < i {
            assert(after[k].0 == other);
        } else {
            assert(k != i);
            assert(after[k - 1].0 == other);
        }
    }
    if has_token(after, other) {
        let k = choose|k: int| 0 <= k < after.len() && (#[trigger] after[k]).0 == other;
        if k < i {
            assert(before[k].0 == other);
        } else {
            assert(before[k + 1].0 == other);
        }
    }
}

/// A terminated id can no longer be listed as running: whatever flag
/// values a later snapshot observes, a report over a mapping that
/// lacks the id cannot contain it.
pub proof fn lemma_terminated_not_listed(keys: Seq<u64>, flags: Seq<bool>, id: u64)
    requires
        !keys.contains(id),
    ensures
        !active_ids(keys, flags).contains(id),
    decreases keys.len(),
{
    if keys.len() > 0 {
        assert(!keys.drop_last().contains(id)) by {
            if keys.drop_last().contains(id) {
                let w = choose|w: int|
                    0 <= w < keys.drop_last().len() && keys.drop_last()[w] == id;
                assert(keys[w] == id);
            }
        }
        lemma_terminated_not_listed(keys.drop_last(), flags.drop_last(), id);
        assert(keys[keys.len() - 1] != id);
        let rest = active_ids(keys.drop_last(), flags.drop_last());
        if flags.last() {
            assert(!rest.push(keys.last()).contains(id)) by {
                if rest.push(keys.last()).contains(id) {
                    let w = choose|w: int|
                        0 <= w < rest.push(keys.last()).len() && rest.push(keys.last())[w] == id;
                    if w < rest.len() {
                        assert(rest[w] == id);
                    }
                }
            }
        }
    }
}

} // verus!
