//! FIFO wait queues of suspended threads.
//!
//! Every blocking primitive (blocking mutex, counting semaphore, condition
//! variable) keeps the thread ids of its suspended waiters in arrival order.
//! Waiters enter at the back and are released from the front, which is the
//! FIFO liveness guarantee: a thread that began waiting earlier is granted
//! the resource no later than any thread that began waiting after it.

use vstd::prelude::*;

verus! {

/// An ordered queue of suspended threads, released in arrival order.
pub struct WaitQueue {
    threads: Vec<usize>,
}

impl WaitQueue {
    /// The queued thread ids, front (oldest waiter) first.
    pub closed spec fn view(self) -> Seq<usize> {
        self.threads@
    }

    /// Whether thread `t` is currently queued.
    pub open spec fn contains(self, t: usize) -> bool {
        self.view().contains(t)
    }

    /// No thread is queued twice.
    pub open spec fn no_dup(self) -> bool {
        forall|a: int, b: int|
            0 <= a < b < self.view().len() ==> self.view()[a] != self.view()[b]
    }

    pub fn new() -> (q: WaitQueue)
        ensures
            q.view() == Seq::<usize>::empty(),
    {
        WaitQueue { threads: Vec::new() }
    }

    pub fn is_empty(&self) -> (b: bool)
        ensures
            b == (self.view().len() == 0),
    {
        self.threads.len() == 0
    }

    /// A newly suspended thread joins at the back.
    pub fn push_back(&mut self, t: usize)
        ensures
            final(self).view() == old(self).view().push(t),
    {
        self.threads.push(t);
    }

    /// The longest-waiting thread leaves from the front.
    pub fn pop_front(&mut self) -> (t: usize)
        requires
            old(self).view().len() > 0,
        ensures
            t == old(self).view().first(),
            final(self).view() == old(self).view().drop_first(),
    {
        let t = self.threads.remove(0);
        proof {
            assert(old(self).view().remove(0) =~= old(self).view().drop_first());
        }
        t
    }
}

/// Releasing the front of a duplicate-free queue keeps it duplicate-free,
/// and the remaining members are exactly the old ones minus the front.
pub proof fn lemma_dequeue(q: Seq<usize>)
    requires
        q.len() > 0,
        forall|a: int, b: int| 0 <= a < b < q.len() ==> q[a] != q[b],
    ensures
        forall|a: int, b: int|
            0 <= a < b < q.drop_first().len() ==> q.drop_first()[a] != q.drop_first()[b],
        forall|x: usize|
            #[trigger] q.drop_first().contains(x) <==> (q.contains(x) && x != q.first()),
{
    assert forall|a: int, b: int|
        0 <= a < b < q.drop_first().len() implies q.drop_first()[a] != q.drop_first()[b] by {
        assert(q.drop_first()[a] == q[a + 1]);
        assert(q.drop_first()[b] == q[b + 1]);
    }
    assert forall|x: usize| #[trigger] q.drop_first().contains(x) implies (q.contains(x) && x
        != q.first()) by {
        let k = choose|k: int| 0 <= k < q.drop_first().len() && q.drop_first()[k] == x;
        assert(q[k + 1] == x);
    }
    assert forall|x: usize| q.contains(x) && x != q.first() implies #[trigger] q.drop_first()
        .contains(x) by {
        let k = choose|k: int| 0 <= k < q.len() && q[k] == x;
        assert(k != 0);
        assert(q.drop_first()[k - 1] == x);
    }
}

/// FIFO law: however many threads are already queued, threads released one by
/// one leave in exactly the order in which they arrived; after `k` releases
/// the front of the queue is the `k`-th arrival.
pub proof fn lemma_fifo_release_order(q: Seq<usize>, k: int)
    requires
        0 <= k < q.len(),
    ensures
        q.skip(k).first() == q[k],
        q.skip(k).drop_first() == q.skip(k + 1),
{
    assert(q.skip(k).first() == q[k]);
    assert(q.skip(k).drop_first() =~= q.skip(k + 1));
}

} // verus!
