//! Process-local synchronization state and the syscall surface over it.
//!
//! All slot tables and ledger matrices are private to one process and are
//! mutated only through the syscall methods here, which the kernel runs under
//! the process's exclusive-access guard: each method is one atomic bookkeeping
//! transition. Where the kernel would suspend or resume a thread, the method
//! returns a [`SysEffect`] naming the scheduling action instead; the guard is
//! released before the action is carried out, so a suspended thread never
//! holds it.

use vstd::prelude::*;
use crate::detect::{avail_int, completes, is_safe, safe};
use crate::ledger::{with_entry, Ledger};
use crate::queue::{lemma_dequeue, WaitQueue};

verus! {

/// The ledger as it stands, with one more unit of resource `r` needed by
/// thread `t` (the probe vector of a lock or down request), admits an order
/// in which every thread completes. This is what the request path asks the
/// detector before granting.
pub open spec fn request_safe(l: Ledger, t: int, r: int) -> bool {
    completes(
        l.need_mat().update(
            t,
            l.need_mat()[t].update(r, (l.need_mat()[t][r] + 1) as usize),
        ),
        l.alloc_mat(),
        avail_int(l),
        Seq::new(l.nthreads() as nat, |x: int| false),
        l.nthreads() as nat,
    )
}

/// Which mutex implementation a slot holds.
#[derive(Clone, Copy, Debug, PartialEq, Eq)]
pub enum MutexKind {
    /// Busy-polls a locked flag, yielding between attempts; no wait queue,
    /// FIFO is not guaranteed.
    Spin,
    /// A locked flag plus a FIFO wait queue of suspended threads.
    Blocking,
}

/// A live mutex slot.
pub struct MutexSlot {
    pub kind: MutexKind,
    pub locked: bool,
    pub waiters: WaitQueue,
}

/// A live counting-semaphore slot. Its unit counts live in the process's
/// semaphore ledger; the slot itself only keeps the FIFO wait queue.
pub struct SemSlot {
    pub waiters: WaitQueue,
}

/// A live condition-variable slot: a FIFO wait queue only.
pub struct CondvarSlot {
    pub waiters: WaitQueue,
}

/// What the calling thread does after a syscall's bookkeeping phase.
#[derive(Clone, Copy, Debug, PartialEq, Eq)]
pub enum Park {
    /// The caller stays runnable and continues.
    Run,
    /// The caller is suspended until another thread's syscall wakes it.
    Block,
    /// The caller is suspended until the given wall-clock millisecond.
    BlockUntil(usize),
    /// The caller stays runnable but should yield and retry the same call.
    Yield,
}

/// The outcome of one syscall transition: the status the call returns to the
/// caller (for a suspended caller, the status it sees once resumed), at most
/// one thread to make runnable again, and the caller's own scheduling fate.
#[derive(Clone, Copy, Debug, PartialEq, Eq)]
pub struct SysEffect {
    pub status: isize,
    pub wake: Option<usize>,
    pub park: Park,
}

/// Status returned by a request the deadlock detector rejected.
pub const DEADLOCK_RC: isize = -0xDEAD;

impl MutexSlot {
    pub open spec fn wf(self) -> bool {
        &&& self.waiters.no_dup()
        &&& (self.kind == MutexKind::Spin ==> self.waiters.view().len() == 0)
        &&& (self.waiters.view().len() > 0 ==> self.locked)
    }
}

/// Per-process synchronization state: the three slot tables, the two resource
/// ledgers (mutexes are binary resources, semaphores multi-unit ones, treated
/// uniformly by the detector), and the detection flag.
pub struct ProcSyncState {
    /// Slot-indexed mutexes; a `None` slot is free and reusable.
    pub mutexes: Vec<Option<MutexSlot>>,
    /// Slot-indexed semaphores.
    pub semaphores: Vec<Option<SemSlot>>,
    /// Slot-indexed condition variables.
    pub condvars: Vec<Option<CondvarSlot>>,
    /// Ledger over the mutex slots, one unit per mutex.
    pub mutex_ledger: Ledger,
    /// Ledger over the semaphore slots.
    pub sem_ledger: Ledger,
    /// Whether lock/down requests run the deadlock detector; off by default.
    pub deadlock_detect: bool,
    /// Threads seen so far; ledger rows exist exactly for these.
    pub thread_count: usize,
}

impl ProcSyncState {
    pub open spec fn mutex_live(self, i: int) -> bool {
        0 <= i < self.mutexes@.len() && self.mutexes@[i] is Some
    }

    pub open spec fn mutex_at(self, i: int) -> MutexSlot {
        self.mutexes@[i]->0
    }

    pub open spec fn sem_live(self, i: int) -> bool {
        0 <= i < self.semaphores@.len() && self.semaphores@[i] is Some
    }

    pub open spec fn sem_at(self, i: int) -> SemSlot {
        self.semaphores@[i]->0
    }

    pub open spec fn cv_live(self, i: int) -> bool {
        0 <= i < self.condvars@.len() && self.condvars@[i] is Some
    }

    pub open spec fn cv_at(self, i: int) -> CondvarSlot {
        self.condvars@[i]->0
    }

    /// A live mutex slot agrees with its ledger column: exactly one unit
    /// exists, the unit is out exactly when the flag shows locked, and a
    /// thread's need for the slot is 1 exactly while it waits in the queue.
    pub open spec fn mutex_slot_ok(self, i: int) -> bool {
        let s = self.mutex_at(i);
        &&& s.wf()
        &&& self.mutex_ledger.total@[i] == 1
        &&& (s.locked <==> self.mutex_ledger.available@[i] == 0)
        &&& forall|k: int|
            0 <= k < s.waiters.view().len() ==> (#[trigger] s.waiters.view()[k])
                < self.thread_count
        &&& forall|t: int|
            0 <= t < self.thread_count ==> #[trigger] self.mutex_ledger.need_mat()[t][i] == (
            if s.waiters.view().contains(t as usize) {
                1int
            } else {
                0int
            })
    }

    /// A live semaphore slot agrees with its ledger column: units are only
    /// queued for while none are available, and a thread's need for the slot
    /// is 1 exactly while it waits in the queue.
    pub open spec fn sem_slot_ok(self, i: int) -> bool {
        let s = self.sem_at(i);
        &&& s.waiters.no_dup()
        &&& (s.waiters.view().len() > 0 ==> self.sem_ledger.available@[i] == 0)
        &&& forall|k: int|
            0 <= k < s.waiters.view().len() ==> (#[trigger] s.waiters.view()[k])
                < self.thread_count
        &&& forall|t: int|
            0 <= t < self.thread_count ==> #[trigger] self.sem_ledger.need_mat()[t][i] == (
            if s.waiters.view().contains(t as usize) {
                1int
            } else {
                0int
            })
    }

    /// A live condition-variable slot: a well-formed queue of known threads.
    /// Condition variables are not ledger resources; no column exists for
    /// them.
    pub open spec fn cv_slot_ok(self, i: int) -> bool {
        let s = self.cv_at(i);
        &&& s.waiters.no_dup()
        &&& forall|k: int|
            0 <= k < s.waiters.view().len() ==> (#[trigger] s.waiters.view()[k])
                < self.thread_count
    }

    /// Well-formedness of the whole process state: both ledgers are
    /// well-formed (hence conserve units), their dimensions match the slot
    /// tables and the thread count, and every live slot agrees with its
    /// ledger column.
    pub open spec fn wf(self) -> bool {
        &&& self.mutex_ledger.wf()
        &&& self.sem_ledger.wf()
        &&& self.mutex_ledger.nthreads() == self.thread_count
        &&& self.sem_ledger.nthreads() == self.thread_count
        &&& self.mutex_ledger.nres() == self.mutexes@.len()
        &&& self.sem_ledger.nres() == self.semaphores@.len()
        &&& forall|i: int| #[trigger] self.mutex_live(i) ==> self.mutex_slot_ok(i)
        &&& forall|i: int| #[trigger] self.sem_live(i) ==> self.sem_slot_ok(i)
        &&& forall|i: int| #[trigger] self.cv_live(i) ==> self.cv_slot_ok(i)
    }

    /// Nothing a live slot's agreement depends on has changed, so
    /// well-formedness carries over.
    proof fn lemma_wf_frame(pre: ProcSyncState, post: ProcSyncState)
        requires
            pre.wf(),
            post.mutexes@ == pre.mutexes@,
            post.semaphores@ == pre.semaphores@,
            post.condvars@ == pre.condvars@,
            post.mutex_ledger == pre.mutex_ledger,
            post.sem_ledger == pre.sem_ledger,
            post.thread_count == pre.thread_count,
        ensures
            post.wf(),
    {
        assert forall|i: int| #[trigger] post.mutex_live(i) implies post.mutex_slot_ok(i) by {
            assert(pre.mutex_live(i));
            assert(pre.mutex_slot_ok(i));
        }
        assert forall|i: int| #[trigger] post.sem_live(i) implies post.sem_slot_ok(i) by {
            assert(pre.sem_live(i));
            assert(pre.sem_slot_ok(i));
        }
        assert forall|i: int| #[trigger] post.cv_live(i) implies post.cv_slot_ok(i) by {
            assert(pre.cv_live(i));
            assert(pre.cv_slot_ok(i));
        }
    }

    /// A fresh process: no primitives, no threads, detection disabled.
    pub fn new() -> (st: ProcSyncState)
        ensures
            st.wf(),
            st.mutexes@.len() == 0,
            st.semaphores@.len() == 0,
            st.condvars@.len() == 0,
            st.thread_count == 0,
            st.deadlock_detect == false,
    {
        ProcSyncState {
            mutexes: Vec::new(),
            semaphores: Vec::new(),
            condvars: Vec::new(),
            mutex_ledger: Ledger::new(),
            sem_ledger: Ledger::new(),
            deadlock_detect: false,
            thread_count: 0,
        }
    }

    /// A thread is created within the process: both ledgers grow a
    /// zero-filled row for it. Returns the new thread id.
    pub fn register_thread(&mut self) -> (tid: usize)
        requires
            old(self).wf(),
            old(self).thread_count < usize::MAX,
        ensures
            final(self).wf(),
            tid == old(self).thread_count,
            final(self).thread_count == old(self).thread_count + 1,
            final(self).mutexes@ == old(self).mutexes@,
            final(self).semaphores@ == old(self).semaphores@,
            final(self).condvars@ == old(self).condvars@,
            final(self).deadlock_detect == old(self).deadlock_detect,
    {
        let tid = self.thread_count;
        self.mutex_ledger.add_thread();
        self.sem_ledger.add_thread();
        self.thread_count = self.thread_count + 1;
        proof {
            let post = *final(self);
            assert forall|i: int| #[trigger] post.mutex_live(i) implies post.mutex_slot_ok(i) by {
                assert(old(self).mutex_live(i));
                assert(old(self).mutex_slot_ok(i));
                let s = post.mutex_at(i);
                assert forall|t: int| 0 <= t < post.thread_count implies
                    #[trigger] post.mutex_ledger.need_mat()[t][i] == (
                    if s.waiters.view().contains(t as usize) {
                        1int
                    } else {
                        0int
                    }) by {
                    if t < old(self).thread_count {
                        assert(post.mutex_ledger.need_mat()[t] == old(self).mutex_ledger.need_mat()[t]);
                    } else {
                        assert(post.mutex_ledger.need_mat()[t] == Seq::new(
                            old(self).mutex_ledger.nres() as nat,
                            |r: int| 0usize,
                        ));
                        if s.waiters.view().contains(t as usize) {
                            let k = choose|k: int|
                                0 <= k < s.waiters.view().len() && s.waiters.view()[k] == t
                                    as usize;
                            assert(s.waiters.view()[k] < old(self).thread_count);
                            assert(false);
                        }
                    }
                }
            }
            assert forall|i: int| #[trigger] post.sem_live(i) implies post.sem_slot_ok(i) by {
                assert(old(self).sem_live(i));
                assert(old(self).sem_slot_ok(i));
                let s = post.sem_at(i);
                assert forall|t: int| 0 <= t < post.thread_count implies
                    #[trigger] post.sem_ledger.need_mat()[t][i] == (
                    if s.waiters.view().contains(t as usize) {
                        1int
                    } else {
                        0int
                    }) by {
                    if t < old(self).thread_count {
                        assert(post.sem_ledger.need_mat()[t] == old(self).sem_ledger.need_mat()[t]);
                    } else {
                        assert(post.sem_ledger.need_mat()[t] == Seq::new(
                            old(self).sem_ledger.nres() as nat,
                            |r: int| 0usize,
                        ));
                        if s.waiters.view().contains(t as usize) {
                            let k = choose|k: int|
                                0 <= k < s.waiters.view().len() && s.waiters.view()[k] == t
                                    as usize;
                            assert(s.waiters.view()[k] < old(self).thread_count);
                            assert(false);
                        }
                    }
                }
            }
            assert forall|i: int| #[trigger] post.cv_live(i) implies post.cv_slot_ok(i) by {
                assert(old(self).cv_live(i));
                assert(old(self).cv_slot_ok(i));
            }
        }
        tid
    }

    /// Create a mutex: a spin mutex when `blocking` is false, a blocking
    /// (FIFO-queued) mutex when it is true. The first free slot is reused,
    /// with its ledger column reset to one available unit; if no slot is
    /// free, a new slot is appended and every thread's rows grow with it.
    /// Returns the slot id, stable for the primitive's lifetime.
    pub fn sys_mutex_create(&mut self, blocking: bool) -> (id: isize)
        requires
            old(self).wf(),
            old(self).mutexes@.len() < isize::MAX,
        ensures
            final(self).wf(),
            0 <= id <= old(self).mutexes@.len(),
            forall|j: int| 0 <= j < id ==> old(self).mutexes@[j] is Some,
            id < old(self).mutexes@.len() ==> old(self).mutexes@[id as int] is None
                && final(self).mutexes@.len() == old(self).mutexes@.len(),
            id == old(self).mutexes@.len() ==> final(self).mutexes@.len() == old(self).mutexes@.len() + 1,
            forall|j: int|
                0 <= j < old(self).mutexes@.len() && j != id ==> final(self).mutexes@[j] == old(self).mutexes@[j],
            final(self).mutex_live(id as int),
            final(self).mutex_at(id as int).kind == (if blocking {
                MutexKind::Blocking
            } else {
                MutexKind::Spin
            }),
            final(self).mutex_at(id as int).locked == false,
            final(self).mutex_at(id as int).waiters.view() == Seq::<usize>::empty(),
            final(self).mutex_ledger.available@[id as int] == 1,
            final(self).mutex_ledger.total@[id as int] == 1,
            forall|t: int|
                0 <= t < old(self).thread_count ==> #[trigger] final(self).mutex_ledger.need_mat()[t][id as int] == 0,
            forall|t: int|
                0 <= t < old(self).thread_count ==> #[trigger] final(self).mutex_ledger.alloc_mat()[t][id as int] == 0,
            forall|r: int|
                0 <= r < old(self).mutexes@.len() && r != id ==> final(self).mutex_ledger.available@[r] == old(self).mutex_ledger.available@[r] && final(self).mutex_ledger.total@[r] == old(self).mutex_ledger.total@[r],
            forall|t: int, r: int|
                0 <= t < old(self).thread_count && 0 <= r < old(self).mutexes@.len() && r != id
                    ==> #[trigger] final(self).mutex_ledger.need_mat()[t][r] == old(self).mutex_ledger.need_mat()[t][r],
            forall|t: int, r: int|
                0 <= t < old(self).thread_count && 0 <= r < old(self).mutexes@.len() && r != id
                    ==> #[trigger] final(self).mutex_ledger.alloc_mat()[t][r] == old(self).mutex_ledger.alloc_mat()[t][r],
            final(self).semaphores@ == old(self).semaphores@,
            final(self).condvars@ == old(self).condvars@,
            final(self).sem_ledger == old(self).sem_ledger,
            final(self).deadlock_detect == old(self).deadlock_detect,
            final(self).thread_count == old(self).thread_count,
    {
        let id = first_free_slot_mutex(&self.mutexes);
        let kind = if blocking {
            MutexKind::Blocking
        } else {
            MutexKind::Spin
        };
        let slot = MutexSlot { kind, locked: false, waiters: WaitQueue::new() };
        if id < self.mutexes.len() {
            self.mutexes[id] = Some(slot);
            self.mutex_ledger.reset_resource(id, 1);
        } else {
            self.mutexes.push(Some(slot));
            self.mutex_ledger.add_resource(1);
        }
        proof {
            let pre = *old(self);
            let post = *final(self);
            assert forall|i: int| #[trigger] post.mutex_live(i) implies post.mutex_slot_ok(i) by {
                if i == id {
                    assert(post.mutex_at(i).waiters.view().len() == 0);
                } else {
                    assert(pre.mutex_live(i));
                    assert(pre.mutex_slot_ok(i));
                    assert(post.mutex_at(i) == pre.mutex_at(i));
                    assert forall|t: int| 0 <= t < post.thread_count implies
                        #[trigger] post.mutex_ledger.need_mat()[t][i] == (
                        if post.mutex_at(i).waiters.view().contains(t as usize) {
                            1int
                        } else {
                            0int
                        }) by {
                        assert(post.mutex_ledger.need_mat()[t][i]
                            == pre.mutex_ledger.need_mat()[t][i]);
                    }
                }
            }
            assert forall|i: int| #[trigger] post.sem_live(i) implies post.sem_slot_ok(i) by {
                assert(pre.sem_live(i));
                assert(pre.sem_slot_ok(i));
            }
            assert forall|i: int| #[trigger] post.cv_live(i) implies post.cv_slot_ok(i) by {
                assert(pre.cv_live(i));
                assert(pre.cv_slot_ok(i));
            }
        }
        id as isize
    }

    /// Create a counting semaphore with `res_count` initial units. Slot
    /// choice and ledger bookkeeping are as for mutex creation, with the
    /// column set to `res_count` available units.
    pub fn sys_semaphore_create(&mut self, res_count: usize) -> (id: isize)
        requires
            old(self).wf(),
            old(self).semaphores@.len() < isize::MAX,
        ensures
            final(self).wf(),
            0 <= id <= old(self).semaphores@.len(),
            forall|j: int| 0 <= j < id ==> old(self).semaphores@[j] is Some,
            id < old(self).semaphores@.len() ==> old(self).semaphores@[id as int] is None
                && final(self).semaphores@.len() == old(self).semaphores@.len(),
            id == old(self).semaphores@.len() ==> final(self).semaphores@.len() == old(self).semaphores@.len() + 1,
            forall|j: int|
                0 <= j < old(self).semaphores@.len() && j != id ==> final(self).semaphores@[j]
                    == old(self).semaphores@[j],
            final(self).sem_live(id as int),
            final(self).sem_at(id as int).waiters.view() == Seq::<usize>::empty(),
            final(self).sem_ledger.available@[id as int] == res_count,
            final(self).sem_ledger.total@[id as int] == res_count,
            forall|t: int|
                0 <= t < old(self).thread_count ==> #[trigger] final(self).sem_ledger.need_mat()[t][id as int] == 0,
            forall|t: int|
                0 <= t < old(self).thread_count ==> #[trigger] final(self).sem_ledger.alloc_mat()[t][id as int] == 0,
            forall|r: int|
                0 <= r < old(self).semaphores@.len() && r != id ==> final(self).sem_ledger.available@[r] == old(self).sem_ledger.available@[r] && final(self).sem_ledger.total@[r] == old(self).sem_ledger.total@[r],
            forall|t: int, r: int|
                0 <= t < old(self).thread_count && 0 <= r < old(self).semaphores@.len() && r != id
                    ==> #[trigger] final(self).sem_ledger.need_mat()[t][r] == old(self).sem_ledger.need_mat()[t][r],
            forall|t: int, r: int|
                0 <= t < old(self).thread_count && 0 <= r < old(self).semaphores@.len() && r != id
                    ==> #[trigger] final(self).sem_ledger.alloc_mat()[t][r] == old(self).sem_ledger.alloc_mat()[t][r],
            final(self).mutexes@ == old(self).mutexes@,
            final(self).condvars@ == old(self).condvars@,
            final(self).mutex_ledger == old(self).mutex_ledger,
            final(self).deadlock_detect == old(self).deadlock_detect,
            final(self).thread_count == old(self).thread_count,
    {
        let id = first_free_slot_sem(&self.semaphores);
        let slot = SemSlot { waiters: WaitQueue::new() };
        if id < self.semaphores.len() {
            self.semaphores[id] = Some(slot);
            self.sem_ledger.reset_resource(id, res_count);
        } else {
            self.semaphores.push(Some(slot));
            self.sem_ledger.add_resource(res_count);
        }
        proof {
            let pre = *old(self);
            let post = *final(self);
            assert forall|i: int| #[trigger] post.sem_live(i) implies post.sem_slot_ok(i) by {
                if i == id {
                    assert(post.sem_at(i).waiters.view().len() == 0);
                } else {
                    assert(pre.sem_live(i));
                    assert(pre.sem_slot_ok(i));
                    assert(post.sem_at(i) == pre.sem_at(i));
                    assert forall|t: int| 0 <= t < post.thread_count implies
                        #[trigger] post.sem_ledger.need_mat()[t][i] == (
                        if post.sem_at(i).waiters.view().contains(t as usize) {
                            1int
                        } else {
                            0int
                        }) by {
                        assert(post.sem_ledger.need_mat()[t][i] == pre.sem_ledger.need_mat()[t][i]);
                    }
                }
            }
            assert forall|i: int| #[trigger] post.mutex_live(i) implies post.mutex_slot_ok(i) by {
                assert(pre.mutex_live(i));
                assert(pre.mutex_slot_ok(i));
            }
            assert forall|i: int| #[trigger] post.cv_live(i) implies post.cv_slot_ok(i) by {
                assert(pre.cv_live(i));
                assert(pre.cv_slot_ok(i));
            }
        }
        id as isize
    }

    /// Create a condition variable: a FIFO wait queue only. Condition
    /// variables take no part in the ledger, so only the slot table changes.
    pub fn sys_condvar_create(&mut self) -> (id: isize)
        requires
            old(self).wf(),
            old(self).condvars@.len() < isize::MAX,
        ensures
            final(self).wf(),
            0 <= id <= old(self).condvars@.len(),
            forall|j: int| 0 <= j < id ==> old(self).condvars@[j] is Some,
            id < old(self).condvars@.len() ==> old(self).condvars@[id as int] is None && final(self).condvars@.len() == old(self).condvars@.len(),
            id == old(self).condvars@.len() ==> final(self).condvars@.len() == old(self).condvars@.len() + 1,
            forall|j: int|
                0 <= j < old(self).condvars@.len() && j != id ==> final(self).condvars@[j] == old(self).condvars@[j],
            final(self).cv_live(id as int),
            final(self).cv_at(id as int).waiters.view() == Seq::<usize>::empty(),
            final(self).mutexes@ == old(self).mutexes@,
            final(self).semaphores@ == old(self).semaphores@,
            final(self).mutex_ledger == old(self).mutex_ledger,
            final(self).sem_ledger == old(self).sem_ledger,
            final(self).deadlock_detect == old(self).deadlock_detect,
            final(self).thread_count == old(self).thread_count,
    {
        let id = first_free_slot_cv(&self.condvars);
        let slot = CondvarSlot { waiters: WaitQueue::new() };
        if id < self.condvars.len() {
            self.condvars[id] = Some(slot);
        } else {
            self.condvars.push(Some(slot));
        }
        proof {
            let pre = *old(self);
            let post = *final(self);
            assert forall|i: int| #[trigger] post.mutex_live(i) implies post.mutex_slot_ok(i) by {
                assert(pre.mutex_live(i));
                assert(pre.mutex_slot_ok(i));
            }
            assert forall|i: int| #[trigger] post.sem_live(i) implies post.sem_slot_ok(i) by {
                assert(pre.sem_live(i));
                assert(pre.sem_slot_ok(i));
            }
            assert forall|i: int| #[trigger] post.cv_live(i) implies post.cv_slot_ok(i) by {
                if i == id {
                    assert(post.cv_at(i).waiters.view().len() == 0);
                } else {
                    assert(pre.cv_live(i));
                    assert(pre.cv_slot_ok(i));
                }
            }
        }
        id as isize
    }

    /// Only mutex slot `i`, ledger column `i` and thread row `t` may differ
    /// from `pre`; if the changed slot still agrees with its column, the
    /// whole state is well-formed again.
    proof fn lemma_wf_mutex_local(pre: ProcSyncState, post: ProcSyncState, i: int)
        requires
            pre.wf(),
            post.thread_count == pre.thread_count,
            post.semaphores@ == pre.semaphores@,
            post.condvars@ == pre.condvars@,
            post.sem_ledger == pre.sem_ledger,
            post.mutexes@.len() == pre.mutexes@.len(),
            0 <= i < pre.mutexes@.len(),
            forall|j: int|
                0 <= j < pre.mutexes@.len() && j != i ==> post.mutexes@[j] == pre.mutexes@[j],
            post.mutex_ledger.wf(),
            post.mutex_ledger.nthreads() == pre.mutex_ledger.nthreads(),
            post.mutex_ledger.nres() == pre.mutex_ledger.nres(),
            forall|r: int|
                0 <= r < pre.mutex_ledger.nres() && r != i ==> post.mutex_ledger.available@[r]
                    == pre.mutex_ledger.available@[r] && post.mutex_ledger.total@[r]
                    == pre.mutex_ledger.total@[r],
            forall|t: int, r: int|
                0 <= t < pre.thread_count && 0 <= r < pre.mutex_ledger.nres() && r != i
                    ==> #[trigger] post.mutex_ledger.need_mat()[t][r]
                    == pre.mutex_ledger.need_mat()[t][r],
            post.mutex_live(i) ==> post.mutex_slot_ok(i),
        ensures
            post.wf(),
    {
        assert forall|j: int| #[trigger] post.mutex_live(j) implies post.mutex_slot_ok(j) by {
            if j != i {
                assert(pre.mutex_live(j));
                assert(pre.mutex_slot_ok(j));
                assert(post.mutex_at(j) == pre.mutex_at(j));
                let s = post.mutex_at(j);
                assert forall|t: int| 0 <= t < post.thread_count implies
                    #[trigger] post.mutex_ledger.need_mat()[t][j] == (
                    if s.waiters.view().contains(t as usize) {
                        1int
                    } else {
                        0int
                    }) by {
                    assert(post.mutex_ledger.need_mat()[t][j]
                        == pre.mutex_ledger.need_mat()[t][j]);
                }
            }
        }
        assert forall|j: int| #[trigger] post.sem_live(j) implies post.sem_slot_ok(j) by {
            assert(pre.sem_live(j));
            assert(pre.sem_slot_ok(j));
        }
        assert forall|j: int| #[trigger] post.cv_live(j) implies post.cv_slot_ok(j) by {
            assert(pre.cv_live(j));
            assert(pre.cv_slot_ok(j));
        }
    }

    /// Symmetric to `lemma_wf_mutex_local`, for semaphore slot `i`.
    proof fn lemma_wf_sem_local(pre: ProcSyncState, post: ProcSyncState, i: int)
        requires
            pre.wf(),
            post.thread_count == pre.thread_count,
            post.mutexes@ == pre.mutexes@,
            post.condvars@ == pre.condvars@,
            post.mutex_ledger == pre.mutex_ledger,
            post.semaphores@.len() == pre.semaphores@.len(),
            0 <= i < pre.semaphores@.len(),
            forall|j: int|
                0 <= j < pre.semaphores@.len() && j != i ==> post.semaphores@[j]
                    == pre.semaphores@[j],
            post.sem_ledger.wf(),
            post.sem_ledger.nthreads() == pre.sem_ledger.nthreads(),
            post.sem_ledger.nres() == pre.sem_ledger.nres(),
            forall|r: int|
                0 <= r < pre.sem_ledger.nres() && r != i ==> post.sem_ledger.available@[r]
                    == pre.sem_ledger.available@[r] && post.sem_ledger.total@[r]
                    == pre.sem_ledger.total@[r],
            forall|t: int, r: int|
                0 <= t < pre.thread_count && 0 <= r < pre.sem_ledger.nres() && r != i
                    ==> #[trigger] post.sem_ledger.need_mat()[t][r]
                    == pre.sem_ledger.need_mat()[t][r],
            post.sem_live(i) ==> post.sem_slot_ok(i),
        ensures
            post.wf(),
    {
        assert forall|j: int| #[trigger] post.sem_live(j) implies post.sem_slot_ok(j) by {
            if j != i {
                assert(pre.sem_live(j));
                assert(pre.sem_slot_ok(j));
                assert(post.sem_at(j) == pre.sem_at(j));
                let s = post.sem_at(j);
                assert forall|t: int| 0 <= t < post.thread_count implies
                    #[trigger] post.sem_ledger.need_mat()[t][j] == (
                    if s.waiters.view().contains(t as usize) {
                        1int
                    } else {
                        0int
                    }) by {
                    assert(post.sem_ledger.need_mat()[t][j] == pre.sem_ledger.need_mat()[t][j]);
                }
            }
        }
        assert forall|j: int| #[trigger] post.mutex_live(j) implies post.mutex_slot_ok(j) by {
            assert(pre.mutex_live(j));
            assert(pre.mutex_slot_ok(j));
        }
        assert forall|j: int| #[trigger] post.cv_live(j) implies post.cv_slot_ok(j) by {
            assert(pre.cv_live(j));
            assert(pre.cv_slot_ok(j));
        }
    }

    /// Acquire mutex `mutex_id` for thread `tid`. The request path records
    /// the probe need, runs the deadlock detector when detection is enabled,
    /// and rejects an unsafe request with `DEADLOCK_RC` before any
    /// primitive-level enqueue, rolling the need back so the caller remains
    /// runnable and consistent. A safe (or unchecked) request takes the
    /// mutex at once when it is free; otherwise the caller is queued (for a
    /// blocking mutex, FIFO) or told to spin-yield (for a spin mutex), and
    /// the recorded need stands until the grant.
    pub fn sys_mutex_lock(&mut self, tid: usize, mutex_id: usize) -> (e: SysEffect)
        requires
            old(self).wf(),
            tid < old(self).thread_count,
            old(self).mutex_live(mutex_id as int),
            !old(self).mutex_at(mutex_id as int).waiters.contains(tid),
        ensures
            final(self).wf(),
            final(self).mutex_live(mutex_id as int),
            final(self).thread_count == old(self).thread_count,
            final(self).semaphores@ == old(self).semaphores@,
            final(self).condvars@ == old(self).condvars@,
            final(self).sem_ledger == old(self).sem_ledger,
            final(self).deadlock_detect == old(self).deadlock_detect,
            final(self).mutexes@.len() == old(self).mutexes@.len(),
            forall|j: int|
                0 <= j < old(self).mutexes@.len() && j != mutex_id ==> final(self).mutexes@[j]
                    == old(self).mutexes@[j],
            e.wake is None,
            final(self).mutex_ledger.total@ == old(self).mutex_ledger.total@,
            e.status == DEADLOCK_RC <==> (old(self).deadlock_detect && !request_safe(
                old(self).mutex_ledger,
                tid as int,
                mutex_id as int,
            )),
            // a rejected request leaves the state as it was
            (old(self).deadlock_detect && !request_safe(
                old(self).mutex_ledger,
                tid as int,
                mutex_id as int,
            )) ==> e.park == Park::Run && final(self).mutexes@ == old(self).mutexes@ && final(self).mutex_ledger.need_mat() == old(self).mutex_ledger.need_mat() && final(self).mutex_ledger.alloc_mat() == old(self).mutex_ledger.alloc_mat() && final(self).mutex_ledger.available@ == old(self).mutex_ledger.available@ && final(self).mutex_ledger.total@ == old(self).mutex_ledger.total@,
            // a free mutex is taken at once
            (e.status != DEADLOCK_RC && !old(self).mutex_at(mutex_id as int).locked) ==> (
            e.status == 0 && e.park == Park::Run && final(self).mutex_at(mutex_id as int).locked
                && final(self).mutex_at(mutex_id as int).kind == old(self).mutex_at(
                mutex_id as int,
            ).kind && final(self).mutex_at(mutex_id as int).waiters.view() == old(self).mutex_at(
                mutex_id as int,
            ).waiters.view() && final(self).mutex_ledger.available@[mutex_id as int] == 0 && final(self).mutex_ledger.alloc_mat()[tid as int][mutex_id as int] == old(self).mutex_ledger.alloc_mat()[tid as int][mutex_id as int] + 1 && final(self).mutex_ledger.need_mat() == old(self).mutex_ledger.need_mat() && final(self).mutex_ledger.available@ == old(self).mutex_ledger.available@.update(mutex_id as int, 0usize) && final(self).mutex_ledger.alloc_mat() == with_entry(old(self).mutex_ledger.alloc_mat(), tid as int, mutex_id as int, (old(self).mutex_ledger.alloc_mat()[tid as int][mutex_id as int] + 1) as usize)),
            // a held blocking mutex queues the caller, need left recorded
            (e.status != DEADLOCK_RC && old(self).mutex_at(mutex_id as int).locked && old(self).mutex_at(mutex_id as int).kind == MutexKind::Blocking) ==> (e.status == 0 && e.park
                == Park::Block && final(self).mutex_at(mutex_id as int).waiters.view() == old(self).mutex_at(mutex_id as int).waiters.view().push(tid) && final(self).mutex_at(
                mutex_id as int,
            ).locked && final(self).mutex_ledger.available@ == old(self).mutex_ledger.available@
                && final(self).mutex_ledger.alloc_mat() == old(self).mutex_ledger.alloc_mat()
                && final(self).mutex_ledger.need_mat()[tid as int][mutex_id as int] == 1
                && final(self).mutex_ledger.need_mat() == with_entry(
                old(self).mutex_ledger.need_mat(),
                tid as int,
                mutex_id as int,
                1usize,
            )),
            // a held spin mutex: stay runnable, yield and retry
            (e.status != DEADLOCK_RC && old(self).mutex_at(mutex_id as int).locked && old(self).mutex_at(mutex_id as int).kind == MutexKind::Spin) ==> (e.status == 0 && e.park
                == Park::Yield && final(self).mutexes@ == old(self).mutexes@ && final(self).mutex_ledger.need_mat() == old(self).mutex_ledger.need_mat() && final(self).mutex_ledger.alloc_mat() == old(self).mutex_ledger.alloc_mat() && final(self).mutex_ledger.available@ == old(self).mutex_ledger.available@),
    {
        proof {
            assert(old(self).mutex_live(mutex_id as int));
            assert(old(self).mutex_slot_ok(mutex_id as int));
        }
        self.mutex_ledger.record_need(tid, mutex_id);
        let ghost recorded = self.mutex_ledger;
        let mut rejected = false;
        if self.deadlock_detect {
            if !is_safe(&self.mutex_ledger) {
                rejected = true;
            }
        }
        proof {
            assert(avail_int(recorded) =~= avail_int(old(self).mutex_ledger));
            assert(safe(recorded) == request_safe(
                old(self).mutex_ledger,
                tid as int,
                mutex_id as int,
            ));
        }
        if rejected {
            self.mutex_ledger.rollback_need(tid, mutex_id);
            proof {
                assert(final(self).mutex_ledger.need_mat() =~~= old(self).mutex_ledger.need_mat());
                Self::lemma_wf_mutex_local(*old(self), *final(self), mutex_id as int);
            }
            return SysEffect { status: DEADLOCK_RC, wake: None, park: Park::Run };
        }
        let locked = match &self.mutexes[mutex_id] {
            Some(s) => s.locked,
            None => false,
        };
        if !locked {
            self.mutex_ledger.commit_grant(tid, mutex_id);
            match &mut self.mutexes[mutex_id] {
                Some(s) => {
                    s.locked = true;
                },
                None => {},
            }
            proof {
                old(self).mutex_ledger.lemma_conservation(mutex_id as int);
                assert(old(self).mutex_ledger.available@[mutex_id as int] == 1);
                let post = *final(self);
                let s = post.mutex_at(mutex_id as int);
                let pre_q = old(self).mutex_at(mutex_id as int).waiters.view();
                assert(s.waiters.view() == pre_q);
                assert(pre_q.len() == 0);
                assert forall|t: int| 0 <= t < post.thread_count implies
                    #[trigger] post.mutex_ledger.need_mat()[t][mutex_id as int] == (
                    if s.waiters.view().contains(t as usize) {
                        1int
                    } else {
                        0int
                    }) by {
                    if s.waiters.view().contains(t as usize) {
                        let k = choose|k: int|
                            0 <= k < s.waiters.view().len() && s.waiters.view()[k] == t as usize;
                        assert(false);
                    }
                    if t == tid {
                        assert(post.mutex_ledger.need_mat()[t][mutex_id as int] == 0);
                    } else {
                        assert(post.mutex_ledger.need_mat()[t][mutex_id as int] == old(self).mutex_ledger.need_mat()[t][mutex_id as int]);
                        assert(!pre_q.contains(t as usize));
                    }
                }
                assert(post.mutex_slot_ok(mutex_id as int));
                Self::lemma_wf_mutex_local(*old(self), post, mutex_id as int);
                assert(post.mutex_ledger.need_mat() =~~= old(self).mutex_ledger.need_mat());
            }
            return SysEffect { status: 0, wake: None, park: Park::Run };
        }
        let kind = match &self.mutexes[mutex_id] {
            Some(s) => s.kind,
            None => MutexKind::Spin,
        };
        match kind {
            MutexKind::Blocking => {
                match &mut self.mutexes[mutex_id] {
                    Some(s) => {
                        s.waiters.push_back(tid);
                    },
                    None => {},
                }
                proof {
                    let post = *final(self);
                    let s = post.mutex_at(mutex_id as int);
                    let pre_q = old(self).mutex_at(mutex_id as int).waiters.view();
                    assert(s.waiters.view() == pre_q.push(tid));
                    assert forall|a: int, b: int|
                        0 <= a < b < s.waiters.view().len() implies s.waiters.view()[a]
                        != s.waiters.view()[b] by {
                        if b == pre_q.len() as int {
                            assert(s.waiters.view()[a] == pre_q[a]);
                            assert(pre_q.contains(pre_q[a]));
                        }
                    }
                    assert forall|t: int| 0 <= t < post.thread_count implies
                        #[trigger] post.mutex_ledger.need_mat()[t][mutex_id as int] == (
                        if s.waiters.view().contains(t as usize) {
                            1int
                        } else {
                            0int
                        }) by {
                        if t == tid {
                            assert(s.waiters.view()[pre_q.len() as int] == tid);
                        } else {
                            if s.waiters.view().contains(t as usize) {
                                let k = choose|k: int|
                                    0 <= k < s.waiters.view().len() && s.waiters.view()[k] == t
                                        as usize;
                                assert(pre_q[k] == t as usize);
                                assert(pre_q.contains(t as usize));
                            } else {
                                if pre_q.contains(t as usize) {
                                    let k = choose|k: int|
                                        0 <= k < pre_q.len() && pre_q[k] == t as usize;
                                    assert(s.waiters.view()[k] == t as usize);
                                    assert(false);
                                }
                            }
                        }
                    }
                    assert(post.mutex_slot_ok(mutex_id as int));
                    Self::lemma_wf_mutex_local(*old(self), post, mutex_id as int);
                }
                SysEffect { status: 0, wake: None, park: Park::Block }
            },
            MutexKind::Spin => {
                self.mutex_ledger.rollback_need(tid, mutex_id);
                proof {
                    assert(final(self).mutex_ledger.need_mat() =~~= old(self).mutex_ledger.need_mat());
                    Self::lemma_wf_mutex_local(*old(self), *final(self), mutex_id as int);
                }
                SysEffect { status: 0, wake: None, park: Park::Yield }
            },
        }
    }

    /// Release mutex `mutex_id`, held by thread `tid`. If waiters are
    /// queued, ownership passes directly to the queue's front -- the earliest
    /// waiter -- which is woken with its request granted and its need
    /// cleared; the mutex never becomes observable as free in between.
    /// With no waiters the unit returns to the available pool.
    pub fn sys_mutex_unlock(&mut self, tid: usize, mutex_id: usize) -> (e: SysEffect)
        requires
            old(self).wf(),
            tid < old(self).thread_count,
            old(self).mutex_live(mutex_id as int),
            old(self).mutex_ledger.alloc_mat()[tid as int][mutex_id as int] == 1,
            !old(self).mutex_at(mutex_id as int).waiters.contains(tid),
        ensures
            final(self).wf(),
            final(self).mutex_live(mutex_id as int),
            final(self).thread_count == old(self).thread_count,
            final(self).semaphores@ == old(self).semaphores@,
            final(self).condvars@ == old(self).condvars@,
            final(self).sem_ledger == old(self).sem_ledger,
            final(self).deadlock_detect == old(self).deadlock_detect,
            final(self).mutexes@.len() == old(self).mutexes@.len(),
            forall|j: int|
                0 <= j < old(self).mutexes@.len() && j != mutex_id ==> final(self).mutexes@[j]
                    == old(self).mutexes@[j],
            e.status == 0,
            e.park == Park::Run,
            final(self).mutex_ledger.total@ == old(self).mutex_ledger.total@,
            final(self).mutex_ledger.alloc_mat()[tid as int][mutex_id as int] == 0,
            // no waiters: the mutex becomes free
            old(self).mutex_at(mutex_id as int).waiters.view().len() == 0 ==> (e.wake is None
                && !final(self).mutex_at(mutex_id as int).locked && final(self).mutex_at(
                mutex_id as int,
            ).waiters.view().len() == 0 && final(self).mutex_ledger.available@[mutex_id as int]
                == 1 && final(self).mutex_ledger.need_mat() == old(self).mutex_ledger.need_mat()
                && final(self).mutex_ledger.available@ == old(self).mutex_ledger.available@.update(mutex_id as int, 1usize) && final(self).mutex_ledger.alloc_mat() == with_entry(
                old(self).mutex_ledger.alloc_mat(),
                tid as int,
                mutex_id as int,
                0usize,
            )),
            // waiters: FIFO handoff to the front of the queue
            old(self).mutex_at(mutex_id as int).waiters.view().len() > 0 ==> (e.wake == Some(
                old(self).mutex_at(mutex_id as int).waiters.view().first(),
            ) && final(self).mutex_at(mutex_id as int).locked && final(self).mutex_at(
                mutex_id as int,
            ).waiters.view() == old(self).mutex_at(mutex_id as int).waiters.view().drop_first()
                && final(self).mutex_ledger.available@[mutex_id as int] == 0 && final(self).mutex_ledger.alloc_mat()[old(self).mutex_at(
                mutex_id as int,
            ).waiters.view().first() as int][mutex_id as int] == old(self).mutex_ledger.alloc_mat()[old(self).mutex_at(
                mutex_id as int,
            ).waiters.view().first() as int][mutex_id as int] + 1 && final(self).mutex_ledger.need_mat()[old(self).mutex_at(
                mutex_id as int,
            ).waiters.view().first() as int][mutex_id as int] == 0 && final(self).mutex_ledger.available@ == old(self).mutex_ledger.available@ && final(self).mutex_ledger.alloc_mat() == with_entry(
                old(self).mutex_ledger.alloc_mat(),
                tid as int,
                mutex_id as int,
                0usize,
            ).update(
                old(self).mutex_at(mutex_id as int).waiters.view().first() as int,
                old(self).mutex_ledger.alloc_mat()[old(self).mutex_at(
                    mutex_id as int,
                ).waiters.view().first() as int].update(
                    mutex_id as int,
                    (old(self).mutex_ledger.alloc_mat()[old(self).mutex_at(
                        mutex_id as int,
                    ).waiters.view().first() as int][mutex_id as int] + 1) as usize,
                ),
            ) && final(self).mutex_ledger.need_mat() == with_entry(
                old(self).mutex_ledger.need_mat(),
                old(self).mutex_at(mutex_id as int).waiters.view().first() as int,
                mutex_id as int,
                0usize,
            )),
    {
        proof {
            assert(old(self).mutex_live(mutex_id as int));
            assert(old(self).mutex_slot_ok(mutex_id as int));
            old(self).mutex_ledger.lemma_conservation(mutex_id as int);
            crate::ledger::lemma_col_sum_bounds_entry(
                old(self).mutex_ledger.alloc_mat(),
                mutex_id as int,
                old(self).mutex_ledger.nthreads(),
                tid as int,
            );
            assert(old(self).mutex_ledger.available@[mutex_id as int] == 0);
            assert(old(self).mutex_at(mutex_id as int).locked);
        }
        let empty = match &self.mutexes[mutex_id] {
            Some(s) => s.waiters.is_empty(),
            None => true,
        };
        if empty {
            self.mutex_ledger.commit_release(tid, mutex_id);
            match &mut self.mutexes[mutex_id] {
                Some(s) => {
                    s.locked = false;
                },
                None => {},
            }
            proof {
                let post = *final(self);
                let s = post.mutex_at(mutex_id as int);
                assert forall|t: int| 0 <= t < post.thread_count implies
                    #[trigger] post.mutex_ledger.need_mat()[t][mutex_id as int] == (
                    if s.waiters.view().contains(t as usize) {
                        1int
                    } else {
                        0int
                    }) by {
                    if s.waiters.view().contains(t as usize) {
                        let k = choose|k: int|
                            0 <= k < s.waiters.view().len() && s.waiters.view()[k] == t as usize;
                        assert(false);
                    }
                }
                assert(post.mutex_slot_ok(mutex_id as int));
                Self::lemma_wf_mutex_local(*old(self), post, mutex_id as int);
            }
            SysEffect { status: 0, wake: None, park: Park::Run }
        } else {
            let head = match &mut self.mutexes[mutex_id] {
                Some(s) => s.waiters.pop_front(),
                None => 0,
            };
            proof {
                let pre_q = old(self).mutex_at(mutex_id as int).waiters.view();
                assert(head == pre_q.first());
                assert(pre_q.contains(head));
                assert(head < old(self).thread_count);
                assert(old(self).mutex_ledger.need_mat()[head as int][mutex_id as int] == 1);
                assert(head != tid);
            }
            self.mutex_ledger.commit_release(tid, mutex_id);
            self.mutex_ledger.commit_grant(head, mutex_id);
            proof {
                let post = *final(self);
                let s = post.mutex_at(mutex_id as int);
                let pre_q = old(self).mutex_at(mutex_id as int).waiters.view();
                lemma_dequeue(pre_q);
                assert(s.waiters.view() == pre_q.drop_first());
                assert(post.mutex_ledger.available@[mutex_id as int] == 0);
                assert forall|t: int| 0 <= t < post.thread_count implies
                    #[trigger] post.mutex_ledger.need_mat()[t][mutex_id as int] == (
                    if s.waiters.view().contains(t as usize) {
                        1int
                    } else {
                        0int
                    }) by {
                    if t == head {
                        assert(!s.waiters.view().contains(head));
                    } else {
                        assert(post.mutex_ledger.need_mat()[t][mutex_id as int] == old(self).mutex_ledger.need_mat()[t][mutex_id as int]);
                        assert(s.waiters.view().contains(t as usize) == pre_q.contains(
                            t as usize,
                        ));
                    }
                }
                assert(post.mutex_slot_ok(mutex_id as int));
                Self::lemma_wf_mutex_local(*old(self), post, mutex_id as int);
            }
            SysEffect { status: 0, wake: Some(head), park: Park::Run }
        }
    }

    /// Symmetric to `lemma_wf_mutex_local`, for condition-variable slot `i`
    /// (no ledger is involved).
    proof fn lemma_wf_cv_local(pre: ProcSyncState, post: ProcSyncState, i: int)
        requires
            pre.wf(),
            post.thread_count == pre.thread_count,
            post.mutexes@ == pre.mutexes@,
            post.semaphores@ == pre.semaphores@,
            post.mutex_ledger == pre.mutex_ledger,
            post.sem_ledger == pre.sem_ledger,
            post.condvars@.len() == pre.condvars@.len(),
            0 <= i < pre.condvars@.len(),
            forall|j: int|
                0 <= j < pre.condvars@.len() && j != i ==> post.condvars@[j] == pre.condvars@[j],
            post.cv_live(i) ==> post.cv_slot_ok(i),
        ensures
            post.wf(),
    {
        assert forall|j: int| #[trigger] post.mutex_live(j) implies post.mutex_slot_ok(j) by {
            assert(pre.mutex_live(j));
            assert(pre.mutex_slot_ok(j));
        }
        assert forall|j: int| #[trigger] post.sem_live(j) implies post.sem_slot_ok(j) by {
            assert(pre.sem_live(j));
            assert(pre.sem_slot_ok(j));
        }
        assert forall|j: int| #[trigger] post.cv_live(j) implies post.cv_slot_ok(j) by {
            if j != i {
                assert(pre.cv_live(j));
                assert(pre.cv_slot_ok(j));
            }
        }
    }

    /// Take one unit of semaphore `sem_id` for thread `tid`. The request
    /// path records the probe need and, when detection is enabled, runs the
    /// detector, rejecting an unsafe request with `DEADLOCK_RC` strictly
    /// before any primitive-level enqueue -- a rejected caller stays
    /// runnable. A safe request takes a unit at once when one is available;
    /// with none available the caller joins the FIFO queue (it blocks, it
    /// does not error) and its need stands until a raise grants it.
    pub fn sys_semaphore_down(&mut self, tid: usize, sem_id: usize) -> (e: SysEffect)
        requires
            old(self).wf(),
            tid < old(self).thread_count,
            old(self).sem_live(sem_id as int),
            !old(self).sem_at(sem_id as int).waiters.contains(tid),
        ensures
            final(self).wf(),
            final(self).sem_live(sem_id as int),
            final(self).thread_count == old(self).thread_count,
            final(self).mutexes@ == old(self).mutexes@,
            final(self).condvars@ == old(self).condvars@,
            final(self).mutex_ledger == old(self).mutex_ledger,
            final(self).deadlock_detect == old(self).deadlock_detect,
            final(self).semaphores@.len() == old(self).semaphores@.len(),
            forall|j: int|
                0 <= j < old(self).semaphores@.len() && j != sem_id ==> final(self).semaphores@[j]
                    == old(self).semaphores@[j],
            e.wake is None,
            e.status == DEADLOCK_RC <==> (old(self).deadlock_detect && !request_safe(
                old(self).sem_ledger,
                tid as int,
                sem_id as int,
            )),
            // a rejected request leaves the state as it was
            e.status == DEADLOCK_RC ==> e.park == Park::Run && final(self).semaphores@ == old(self).semaphores@ && final(self).sem_ledger.need_mat() == old(self).sem_ledger.need_mat()
                && final(self).sem_ledger.alloc_mat() == old(self).sem_ledger.alloc_mat() && final(self).sem_ledger.available@ == old(self).sem_ledger.available@ && final(self).sem_ledger.total@ == old(self).sem_ledger.total@,
            // an available unit is taken at once
            (e.status != DEADLOCK_RC && old(self).sem_ledger.available@[sem_id as int] > 0) ==> (
            e.status == 0 && e.park == Park::Run && final(self).semaphores@ == old(self).semaphores@ && final(self).sem_ledger.available@[sem_id as int] == old(self).sem_ledger.available@[sem_id as int] - 1 && final(self).sem_ledger.alloc_mat()[tid as int][sem_id as int] == old(self).sem_ledger.alloc_mat()[tid as int][sem_id as int] + 1 && final(self).sem_ledger.need_mat() == old(self).sem_ledger.need_mat() && final(self).sem_ledger.total@ == old(self).sem_ledger.total@ && final(self).sem_ledger.available@ == old(self).sem_ledger.available@.update(sem_id as int, (old(self).sem_ledger.available@[sem_id as int] - 1) as usize) && final(self).sem_ledger.alloc_mat() == with_entry(old(self).sem_ledger.alloc_mat(), tid as int, sem_id as int, (old(self).sem_ledger.alloc_mat()[tid as int][sem_id as int] + 1) as usize)),
            // no unit available: block in FIFO order, need left recorded
            (e.status != DEADLOCK_RC && old(self).sem_ledger.available@[sem_id as int] == 0) ==> (
            e.status == 0 && e.park == Park::Block && final(self).sem_at(
                sem_id as int,
            ).waiters.view() == old(self).sem_at(sem_id as int).waiters.view().push(tid) && final(self).sem_ledger.available@ == old(self).sem_ledger.available@ && final(self).sem_ledger.alloc_mat() == old(self).sem_ledger.alloc_mat() && final(self).sem_ledger.need_mat()[tid as int][sem_id as int] == 1 && final(self).sem_ledger.total@ == old(self).sem_ledger.total@ && final(self).sem_ledger.need_mat() == with_entry(old(self).sem_ledger.need_mat(), tid as int, sem_id as int, 1usize)),
    {
        proof {
            assert(old(self).sem_live(sem_id as int));
            assert(old(self).sem_slot_ok(sem_id as int));
            old(self).sem_ledger.lemma_conservation(sem_id as int);
            crate::ledger::lemma_col_sum_bounds_entry(
                old(self).sem_ledger.alloc_mat(),
                sem_id as int,
                old(self).sem_ledger.nthreads(),
                tid as int,
            );
        }
        self.sem_ledger.record_need(tid, sem_id);
        let ghost recorded = self.sem_ledger;
        let mut rejected = false;
        if self.deadlock_detect {
            if !is_safe(&self.sem_ledger) {
                rejected = true;
            }
        }
        proof {
            assert(avail_int(recorded) =~= avail_int(old(self).sem_ledger));
            assert(safe(recorded) == request_safe(
                old(self).sem_ledger,
                tid as int,
                sem_id as int,
            ));
        }
        if rejected {
            self.sem_ledger.rollback_need(tid, sem_id);
            proof {
                assert(final(self).sem_ledger.need_mat() =~~= old(self).sem_ledger.need_mat());
                Self::lemma_wf_sem_local(*old(self), *final(self), sem_id as int);
            }
            return SysEffect { status: DEADLOCK_RC, wake: None, park: Park::Run };
        }
        let avail = self.sem_ledger.available[sem_id];
        if avail > 0 {
            self.sem_ledger.commit_grant(tid, sem_id);
            proof {
                let post = *final(self);
                let s = post.sem_at(sem_id as int);
                let pre_q = old(self).sem_at(sem_id as int).waiters.view();
                assert(s.waiters.view() == pre_q);
                assert(pre_q.len() == 0);
                assert forall|t: int| 0 <= t < post.thread_count implies
                    #[trigger] post.sem_ledger.need_mat()[t][sem_id as int] == (
                    if s.waiters.view().contains(t as usize) {
                        1int
                    } else {
                        0int
                    }) by {
                    if s.waiters.view().contains(t as usize) {
                        let k = choose|k: int|
                            0 <= k < s.waiters.view().len() && s.waiters.view()[k] == t as usize;
                        assert(false);
                    }
                    if t == tid {
                        assert(post.sem_ledger.need_mat()[t][sem_id as int] == 0);
                    } else {
                        assert(post.sem_ledger.need_mat()[t][sem_id as int] == old(self).sem_ledger.need_mat()[t][sem_id as int]);
                        assert(!pre_q.contains(t as usize));
                    }
                }
                assert(post.sem_slot_ok(sem_id as int));
                Self::lemma_wf_sem_local(*old(self), post, sem_id as int);
                assert(post.sem_ledger.need_mat() =~~= old(self).sem_ledger.need_mat());
                let pre_l = old(self).sem_ledger;
                assert(pre_l.alloc_mat()[tid as int] == pre_l.allocated@[tid as int]@);
                assert(post.sem_ledger.alloc_mat()[tid as int][sem_id as int] == pre_l.alloc_mat()[
                    tid as int][sem_id as int] + 1);
            }
            SysEffect { status: 0, wake: None, park: Park::Run }
        } else {
            match &mut self.semaphores[sem_id] {
                Some(s) => {
                    s.waiters.push_back(tid);
                },
                None => {},
            }
            proof {
                let post = *final(self);
                let s = post.sem_at(sem_id as int);
                let pre_q = old(self).sem_at(sem_id as int).waiters.view();
                assert(s.waiters.view() == pre_q.push(tid));
                assert forall|a: int, b: int|
                    0 <= a < b < s.waiters.view().len() implies s.waiters.view()[a]
                    != s.waiters.view()[b] by {
                    if b == pre_q.len() as int {
                        assert(s.waiters.view()[a] == pre_q[a]);
                        assert(pre_q.contains(pre_q[a]));
                    }
                }
                assert forall|t: int| 0 <= t < post.thread_count implies
                    #[trigger] post.sem_ledger.need_mat()[t][sem_id as int] == (
                    if s.waiters.view().contains(t as usize) {
                        1int
                    } else {
                        0int
                    }) by {
                    if t == tid {
                        assert(s.waiters.view()[pre_q.len() as int] == tid);
                    } else {
                        if s.waiters.view().contains(t as usize) {
                            let k = choose|k: int|
                                0 <= k < s.waiters.view().len() && s.waiters.view()[k] == t
                                    as usize;
                            assert(pre_q[k] == t as usize);
                            assert(pre_q.contains(t as usize));
                        } else {
                            if pre_q.contains(t as usize) {
                                let k = choose|k: int|
                                    0 <= k < pre_q.len() && pre_q[k] == t as usize;
                                assert(s.waiters.view()[k] == t as usize);
                                assert(false);
                            }
                        }
                    }
                }
                assert(post.sem_slot_ok(sem_id as int));
                Self::lemma_wf_sem_local(*old(self), post, sem_id as int);
            }
            SysEffect { status: 0, wake: None, park: Park::Block }
        }
    }

    /// Raise semaphore `sem_id` by one unit, released by thread `tid`. If
    /// waiters are queued the unit passes directly to the queue's front,
    /// which is woken with its request granted; otherwise the unit joins the
    /// available pool. A thread that holds no unit may still raise (the
    /// semaphore used as a signal): the unit is then new, and the total
    /// grows with it, so conservation holds either way.
    pub fn sys_semaphore_up(&mut self, tid: usize, sem_id: usize) -> (e: SysEffect)
        requires
            old(self).wf(),
            tid < old(self).thread_count,
            old(self).sem_live(sem_id as int),
            !old(self).sem_at(sem_id as int).waiters.contains(tid),
            old(self).sem_ledger.alloc_mat()[tid as int][sem_id as int] == 0 ==> old(self).sem_ledger.total@[sem_id as int] < usize::MAX,
        ensures
            final(self).wf(),
            final(self).sem_live(sem_id as int),
            final(self).thread_count == old(self).thread_count,
            final(self).mutexes@ == old(self).mutexes@,
            final(self).condvars@ == old(self).condvars@,
            final(self).mutex_ledger == old(self).mutex_ledger,
            final(self).deadlock_detect == old(self).deadlock_detect,
            final(self).semaphores@.len() == old(self).semaphores@.len(),
            forall|j: int|
                0 <= j < old(self).semaphores@.len() && j != sem_id ==> final(self).semaphores@[j]
                    == old(self).semaphores@[j],
            e.status == 0,
            e.park == Park::Run,
            // the released unit comes out of the caller's holding, or is new
            old(self).sem_ledger.alloc_mat()[tid as int][sem_id as int] > 0 ==> final(self).sem_ledger.alloc_mat()[tid as int][sem_id as int] == old(self).sem_ledger.alloc_mat()[tid as int][sem_id as int] - 1 && final(self).sem_ledger.total@ == old(self).sem_ledger.total@,
            old(self).sem_ledger.alloc_mat()[tid as int][sem_id as int] == 0 ==> final(self).sem_ledger.total@[sem_id as int] == old(self).sem_ledger.total@[sem_id as int] + 1
                && final(self).sem_ledger.total@ == old(self).sem_ledger.total@.update(
                sem_id as int,
                (old(self).sem_ledger.total@[sem_id as int] + 1) as usize,
            ),
            // exactly which allocation rows move, in each of the four cases
            (old(self).sem_ledger.alloc_mat()[tid as int][sem_id as int] > 0 && old(self).sem_at(
                sem_id as int,
            ).waiters.view().len() == 0) ==> final(self).sem_ledger.alloc_mat() == with_entry(
                old(self).sem_ledger.alloc_mat(),
                tid as int,
                sem_id as int,
                (old(self).sem_ledger.alloc_mat()[tid as int][sem_id as int] - 1) as usize,
            ),
            (old(self).sem_ledger.alloc_mat()[tid as int][sem_id as int] == 0 && old(self).sem_at(
                sem_id as int,
            ).waiters.view().len() == 0) ==> final(self).sem_ledger.alloc_mat() == old(self).sem_ledger.alloc_mat(),
            (old(self).sem_ledger.alloc_mat()[tid as int][sem_id as int] > 0 && old(self).sem_at(
                sem_id as int,
            ).waiters.view().len() > 0) ==> final(self).sem_ledger.alloc_mat() == with_entry(
                old(self).sem_ledger.alloc_mat(),
                tid as int,
                sem_id as int,
                (old(self).sem_ledger.alloc_mat()[tid as int][sem_id as int] - 1) as usize,
            ).update(
                old(self).sem_at(sem_id as int).waiters.view().first() as int,
                old(self).sem_ledger.alloc_mat()[old(self).sem_at(
                    sem_id as int,
                ).waiters.view().first() as int].update(
                    sem_id as int,
                    (old(self).sem_ledger.alloc_mat()[old(self).sem_at(
                        sem_id as int,
                    ).waiters.view().first() as int][sem_id as int] + 1) as usize,
                ),
            ),
            (old(self).sem_ledger.alloc_mat()[tid as int][sem_id as int] == 0 && old(self).sem_at(
                sem_id as int,
            ).waiters.view().len() > 0) ==> final(self).sem_ledger.alloc_mat() == with_entry(
                old(self).sem_ledger.alloc_mat(),
                old(self).sem_at(sem_id as int).waiters.view().first() as int,
                sem_id as int,
                (old(self).sem_ledger.alloc_mat()[old(self).sem_at(
                    sem_id as int,
                ).waiters.view().first() as int][sem_id as int] + 1) as usize,
            ),
            // no waiters: the unit joins the pool; at most one waiter woken
            old(self).sem_at(sem_id as int).waiters.view().len() == 0 ==> (e.wake is None && final(self).sem_at(sem_id as int).waiters.view().len() == 0 && final(self).sem_ledger.available@[sem_id as int] == old(self).sem_ledger.available@[sem_id as int]
                + 1 && final(self).sem_ledger.need_mat() == old(self).sem_ledger.need_mat()
                && final(self).sem_ledger.available@ == old(self).sem_ledger.available@.update(
                sem_id as int,
                (old(self).sem_ledger.available@[sem_id as int] + 1) as usize,
            )),
            // waiters: FIFO handoff to the front of the queue
            old(self).sem_at(sem_id as int).waiters.view().len() > 0 ==> (e.wake == Some(
                old(self).sem_at(sem_id as int).waiters.view().first(),
            ) && final(self).sem_at(sem_id as int).waiters.view() == old(self).sem_at(
                sem_id as int,
            ).waiters.view().drop_first() && final(self).sem_ledger.available@[sem_id as int] == 0
                && final(self).sem_ledger.alloc_mat()[old(self).sem_at(
                sem_id as int,
            ).waiters.view().first() as int][sem_id as int] == old(self).sem_ledger.alloc_mat()[old(self).sem_at(sem_id as int).waiters.view().first() as int][sem_id as int] + 1 && final(self).sem_ledger.need_mat()[old(self).sem_at(
                sem_id as int,
            ).waiters.view().first() as int][sem_id as int] == 0 && final(self).sem_ledger.available@ == old(self).sem_ledger.available@ && final(self).sem_ledger.need_mat() == with_entry(
                old(self).sem_ledger.need_mat(),
                old(self).sem_at(sem_id as int).waiters.view().first() as int,
                sem_id as int,
                0usize,
            )),
    {
        proof {
            assert(old(self).sem_live(sem_id as int));
            assert(old(self).sem_slot_ok(sem_id as int));
            old(self).sem_ledger.lemma_conservation(sem_id as int);
            crate::ledger::lemma_col_sum_bounds_entry(
                old(self).sem_ledger.alloc_mat(),
                sem_id as int,
                old(self).sem_ledger.nthreads(),
                tid as int,
            );
        }
        let holds = self.sem_ledger.allocated[tid][sem_id] > 0;
        let empty = match &self.semaphores[sem_id] {
            Some(s) => s.waiters.is_empty(),
            None => true,
        };
        if empty {
            if holds {
                self.sem_ledger.commit_release(tid, sem_id);
            } else {
                self.sem_ledger.deposit(sem_id);
            }
            proof {
                let post = *final(self);
                let s = post.sem_at(sem_id as int);
                assert forall|t: int| 0 <= t < post.thread_count implies
                    #[trigger] post.sem_ledger.need_mat()[t][sem_id as int] == (
                    if s.waiters.view().contains(t as usize) {
                        1int
                    } else {
                        0int
                    }) by {
                    if s.waiters.view().contains(t as usize) {
                        let k = choose|k: int|
                            0 <= k < s.waiters.view().len() && s.waiters.view()[k] == t as usize;
                        assert(false);
                    }
                    assert(post.sem_ledger.need_mat()[t][sem_id as int] == old(self).sem_ledger.need_mat()[t][sem_id as int]);
                    assert(!old(self).sem_at(sem_id as int).waiters.view().contains(t as usize));
                }
                assert(post.sem_slot_ok(sem_id as int));
                Self::lemma_wf_sem_local(*old(self), post, sem_id as int);
                let pre_l = old(self).sem_ledger;
                assert(pre_l.alloc_mat()[tid as int] == pre_l.allocated@[tid as int]@);
                if pre_l.alloc_mat()[tid as int][sem_id as int] > 0 {
                    assert(post.sem_ledger.alloc_mat()[tid as int][sem_id as int]
                        == pre_l.alloc_mat()[tid as int][sem_id as int] - 1);
                }
            }
            SysEffect { status: 0, wake: None, park: Park::Run }
        } else {
            let head = match &mut self.semaphores[sem_id] {
                Some(s) => s.waiters.pop_front(),
                None => 0,
            };
            proof {
                let pre_q = old(self).sem_at(sem_id as int).waiters.view();
                assert(head == pre_q.first());
                assert(pre_q.contains(head));
                assert(head < old(self).thread_count);
                assert(old(self).sem_ledger.need_mat()[head as int][sem_id as int] == 1);
                assert(head != tid);
                assert(old(self).sem_ledger.available@[sem_id as int] == 0);
            }
            if holds {
                self.sem_ledger.commit_release(tid, sem_id);
            } else {
                self.sem_ledger.deposit(sem_id);
            }
            let ghost mid_l = self.sem_ledger;
            proof {
                mid_l.lemma_conservation(sem_id as int);
                crate::ledger::lemma_col_sum_bounds_entry(
                    mid_l.alloc_mat(),
                    sem_id as int,
                    mid_l.nthreads(),
                    head as int,
                );
                assert(mid_l.available@[sem_id as int] == 1);
            }
            self.sem_ledger.commit_grant(head, sem_id);
            proof {
                let post = *final(self);
                let s = post.sem_at(sem_id as int);
                let pre_q = old(self).sem_at(sem_id as int).waiters.view();
                lemma_dequeue(pre_q);
                assert(s.waiters.view() == pre_q.drop_first());
                assert(post.sem_ledger.available@[sem_id as int] == 0);
                assert forall|t: int| 0 <= t < post.thread_count implies
                    #[trigger] post.sem_ledger.need_mat()[t][sem_id as int] == (
                    if s.waiters.view().contains(t as usize) {
                        1int
                    } else {
                        0int
                    }) by {
                    if t == head {
                        assert(!s.waiters.view().contains(head));
                    } else {
                        assert(post.sem_ledger.need_mat()[t][sem_id as int] == old(self).sem_ledger.need_mat()[t][sem_id as int]);
                        assert(s.waiters.view().contains(t as usize) == pre_q.contains(
                            t as usize,
                        ));
                    }
                }
                assert(post.sem_slot_ok(sem_id as int));
                Self::lemma_wf_sem_local(*old(self), post, sem_id as int);
                let pre_l = old(self).sem_ledger;
                assert(pre_l.alloc_mat()[head as int] == pre_l.allocated@[head as int]@);
                assert(pre_l.alloc_mat()[tid as int] == pre_l.allocated@[tid as int]@);
                assert(post.sem_ledger.alloc_mat()[head as int][sem_id as int] == pre_l.alloc_mat()[
                    head as int][sem_id as int] + 1);
                if pre_l.alloc_mat()[tid as int][sem_id as int] > 0 {
                    assert(post.sem_ledger.alloc_mat()[tid as int][sem_id as int]
                        == pre_l.alloc_mat()[tid as int][sem_id as int] - 1);
                    assert(post.sem_ledger.total@ == pre_l.total@);
                }
            }
            SysEffect { status: 0, wake: Some(head), park: Park::Run }
        }
    }

    /// Signal condition variable `condvar_id`: wake the longest-waiting
    /// thread if any is queued. Signaling with no waiters is a no-op that
    /// still returns 0. At most one waiter is ever woken per signal.
    pub fn sys_condvar_signal(&mut self, condvar_id: usize) -> (e: SysEffect)
        requires
            old(self).wf(),
            old(self).cv_live(condvar_id as int),
        ensures
            final(self).wf(),
            final(self).cv_live(condvar_id as int),
            e.status == 0,
            e.park == Park::Run,
            final(self).thread_count == old(self).thread_count,
            final(self).mutexes@ == old(self).mutexes@,
            final(self).semaphores@ == old(self).semaphores@,
            final(self).mutex_ledger == old(self).mutex_ledger,
            final(self).sem_ledger == old(self).sem_ledger,
            final(self).deadlock_detect == old(self).deadlock_detect,
            final(self).condvars@.len() == old(self).condvars@.len(),
            forall|j: int|
                0 <= j < old(self).condvars@.len() && j != condvar_id ==> final(self).condvars@[j]
                    == old(self).condvars@[j],
            // no waiters: a no-op
            old(self).cv_at(condvar_id as int).waiters.view().len() == 0 ==> e.wake is None
                && *final(self) == *old(self),
            // waiters: exactly the longest-waiting thread is woken
            old(self).cv_at(condvar_id as int).waiters.view().len() > 0 ==> (e.wake == Some(
                old(self).cv_at(condvar_id as int).waiters.view().first(),
            ) && final(self).cv_at(condvar_id as int).waiters.view() == old(self).cv_at(
                condvar_id as int,
            ).waiters.view().drop_first()),
    {
        proof {
            assert(old(self).cv_live(condvar_id as int));
            assert(old(self).cv_slot_ok(condvar_id as int));
        }
        let empty = match &self.condvars[condvar_id] {
            Some(s) => s.waiters.is_empty(),
            None => true,
        };
        if empty {
            SysEffect { status: 0, wake: None, park: Park::Run }
        } else {
            let head = match &mut self.condvars[condvar_id] {
                Some(s) => s.waiters.pop_front(),
                None => 0,
            };
            proof {
                let pre_q = old(self).cv_at(condvar_id as int).waiters.view();
                lemma_dequeue(pre_q);
                assert(final(self).cv_at(condvar_id as int).waiters.view()
                    == pre_q.drop_first());
                assert(final(self).cv_slot_ok(condvar_id as int));
                Self::lemma_wf_cv_local(*old(self), *final(self), condvar_id as int);
            }
            SysEffect { status: 0, wake: Some(head), park: Park::Run }
        }
    }

    /// Wait on condition variable `condvar_id`, with `mutex_id` held by the
    /// caller: the mutex is released exactly as by an unlock (its FIFO queue
    /// is honored, so a queued locker may be woken), the caller joins the
    /// condition variable's FIFO queue and is suspended. It is resumed only
    /// by a matching signal, and must then re-acquire the mutex with a
    /// separate lock call; spurious wakeup is not modeled.
    pub fn sys_condvar_wait(&mut self, tid: usize, condvar_id: usize, mutex_id: usize) -> (e:
        SysEffect)
        requires
            old(self).wf(),
            tid < old(self).thread_count,
            old(self).cv_live(condvar_id as int),
            old(self).mutex_live(mutex_id as int),
            !old(self).cv_at(condvar_id as int).waiters.contains(tid),
            !old(self).mutex_at(mutex_id as int).waiters.contains(tid),
            old(self).mutex_ledger.alloc_mat()[tid as int][mutex_id as int] == 1,
        ensures
            final(self).wf(),
            final(self).cv_live(condvar_id as int),
            final(self).mutex_live(mutex_id as int),
            e.status == 0,
            e.park == Park::Block,
            final(self).thread_count == old(self).thread_count,
            final(self).semaphores@ == old(self).semaphores@,
            final(self).sem_ledger == old(self).sem_ledger,
            final(self).deadlock_detect == old(self).deadlock_detect,
            // the caller joins the condition variable's queue
            final(self).cv_at(condvar_id as int).waiters.view() == old(self).cv_at(
                condvar_id as int,
            ).waiters.view().push(tid),
            forall|j: int|
                0 <= j < old(self).condvars@.len() && j != condvar_id ==> final(self).condvars@[j]
                    == old(self).condvars@[j],
            // the mutex is released as by an unlock
            final(self).mutex_ledger.alloc_mat()[tid as int][mutex_id as int] == 0,
            forall|j: int|
                0 <= j < old(self).mutexes@.len() && j != mutex_id ==> final(self).mutexes@[j]
                    == old(self).mutexes@[j],
            final(self).mutex_ledger.total@ == old(self).mutex_ledger.total@,
            old(self).mutex_at(mutex_id as int).waiters.view().len() == 0 ==> (e.wake is None
                && !final(self).mutex_at(mutex_id as int).locked && final(self).mutex_ledger.available@[mutex_id as int] == 1 && final(self).mutex_ledger.available@ == old(self).mutex_ledger.available@.update(
                mutex_id as int,
                1usize,
            ) && final(self).mutex_ledger.alloc_mat() == with_entry(
                old(self).mutex_ledger.alloc_mat(),
                tid as int,
                mutex_id as int,
                0usize,
            ) && final(self).mutex_ledger.need_mat() == old(self).mutex_ledger.need_mat()),
            old(self).mutex_at(mutex_id as int).waiters.view().len() > 0 ==> (e.wake == Some(
                old(self).mutex_at(mutex_id as int).waiters.view().first(),
            ) && final(self).mutex_at(mutex_id as int).locked && final(self).mutex_at(
                mutex_id as int,
            ).waiters.view() == old(self).mutex_at(mutex_id as int).waiters.view().drop_first()
                && final(self).mutex_ledger.need_mat()[old(self).mutex_at(
                mutex_id as int,
            ).waiters.view().first() as int][mutex_id as int] == 0 && final(self).mutex_ledger.available@ == old(self).mutex_ledger.available@ && final(self).mutex_ledger.alloc_mat() == with_entry(
                old(self).mutex_ledger.alloc_mat(),
                tid as int,
                mutex_id as int,
                0usize,
            ).update(
                old(self).mutex_at(mutex_id as int).waiters.view().first() as int,
                old(self).mutex_ledger.alloc_mat()[old(self).mutex_at(
                    mutex_id as int,
                ).waiters.view().first() as int].update(
                    mutex_id as int,
                    (old(self).mutex_ledger.alloc_mat()[old(self).mutex_at(
                        mutex_id as int,
                    ).waiters.view().first() as int][mutex_id as int] + 1) as usize,
                ),
            ) && final(self).mutex_ledger.need_mat() == with_entry(
                old(self).mutex_ledger.need_mat(),
                old(self).mutex_at(mutex_id as int).waiters.view().first() as int,
                mutex_id as int,
                0usize,
            )),
    {
        let unlocked = self.sys_mutex_unlock(tid, mutex_id);
        let ghost mid_state = *self;
        match &mut self.condvars[condvar_id] {
            Some(s) => {
                s.waiters.push_back(tid);
            },
            None => {},
        }
        proof {
            let post = *final(self);
            let s = post.cv_at(condvar_id as int);
            let pre_q = mid_state.cv_at(condvar_id as int).waiters.view();
            assert(pre_q == old(self).cv_at(condvar_id as int).waiters.view());
            assert(s.waiters.view() == pre_q.push(tid));
            assert(mid_state.cv_live(condvar_id as int));
            assert(mid_state.cv_slot_ok(condvar_id as int));
            assert forall|a: int, b: int|
                0 <= a < b < s.waiters.view().len() implies s.waiters.view()[a]
                != s.waiters.view()[b] by {
                if b == pre_q.len() as int {
                    assert(s.waiters.view()[a] == pre_q[a]);
                    assert(pre_q.contains(pre_q[a]));
                }
            }
            assert(post.cv_slot_ok(condvar_id as int));
            Self::lemma_wf_cv_local(mid_state, post, condvar_id as int);
        }
        SysEffect { status: 0, wake: unlocked.wake, park: Park::Block }
    }

    /// Switch online deadlock detection on (`1`) or off (`0`); any other
    /// argument is invalid and leaves the state unchanged.
    pub fn sys_enable_deadlock_detect(&mut self, enabled: usize) -> (r: isize)
        requires
            old(self).wf(),
        ensures
            final(self).wf(),
            enabled == 0 ==> r == 0 && *final(self) == (ProcSyncState {
                deadlock_detect: false,
                ..*old(self)
            }),
            enabled == 1 ==> r == 0 && *final(self) == (ProcSyncState {
                deadlock_detect: true,
                ..*old(self)
            }),
            enabled > 1 ==> r == -1 && *final(self) == *old(self),
    {
        let r: isize = if enabled == 0 {
            self.deadlock_detect = false;
            0
        } else if enabled == 1 {
            self.deadlock_detect = true;
            0
        } else {
            -1
        };
        proof {
            Self::lemma_wf_frame(*old(self), *final(self));
        }
        r
    }
}

/// Index of the first free mutex slot, or the table's length if none is free.
fn first_free_slot_mutex(v: &Vec<Option<MutexSlot>>) -> (r: usize)
    ensures
        r <= v@.len(),
        forall|j: int| 0 <= j < r ==> v@[j] is Some,
        r < v@.len() ==> v@[r as int] is None,
{
    let n = v.len();
    let mut i: usize = 0;
    while i < n
        invariant
            i <= n,
            n == v@.len(),
            forall|j: int| 0 <= j < i ==> v@[j] is Some,
        decreases n - i,
    {
        if v[i].is_none() {
            return i;
        }
        i = i + 1;
    }
    i
}

/// Index of the first free semaphore slot, or the table's length.
fn first_free_slot_sem(v: &Vec<Option<SemSlot>>) -> (r: usize)
    ensures
        r <= v@.len(),
        forall|j: int| 0 <= j < r ==> v@[j] is Some,
        r < v@.len() ==> v@[r as int] is None,
{
    let n = v.len();
    let mut i: usize = 0;
    while i < n
        invariant
            i <= n,
            n == v@.len(),
            forall|j: int| 0 <= j < i ==> v@[j] is Some,
        decreases n - i,
    {
        if v[i].is_none() {
            return i;
        }
        i = i + 1;
    }
    i
}

/// Index of the first free condition-variable slot, or the table's length.
fn first_free_slot_cv(v: &Vec<Option<CondvarSlot>>) -> (r: usize)
    ensures
        r <= v@.len(),
        forall|j: int| 0 <= j < r ==> v@[j] is Some,
        r < v@.len() ==> v@[r as int] is None,
{
    let n = v.len();
    let mut i: usize = 0;
    while i < n
        invariant
            i <= n,
            n == v@.len(),
            forall|j: int| 0 <= j < i ==> v@[j] is Some,
        decreases n - i,
    {
        if v[i].is_none() {
            return i;
        }
        i = i + 1;
    }
    i
}

} // verus!
