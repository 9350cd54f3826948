//! The resource ledger: per-process matrices of available / allocated /
//! needed units for every resource, keyed by thread.
//!
//! One `Ledger` tracks one family of resources (the process keeps one for its
//! mutexes and one for its semaphores). Rows are threads, columns are
//! resource slots. The central invariant is conservation: for every resource
//! `r`, `available[r] + sum over threads of allocated[t][r] == total[r]` at
//! every quiescent point, and every operation of the ledger preserves it.

use vstd::prelude::*;

verus! {

/// The units of resource `r` held by the first `k` threads of matrix `m`:
/// `m[0][r] + m[1][r] + ... + m[k-1][r]`.
pub open spec fn col_sum(m: Seq<Seq<usize>>, r: int, k: int) -> int
    decreases k,
{
    if k <= 0 {
        0
    } else {
        col_sum(m, r, k - 1) + m[k - 1][r]
    }
}

/// A column sum only reads column `r` of the first `k` rows.
pub proof fn lemma_col_sum_agree(m1: Seq<Seq<usize>>, m2: Seq<Seq<usize>>, r: int, k: int)
    requires
        forall|t: int| 0 <= t < k ==> m1[t][r] == m2[t][r],
    ensures
        col_sum(m1, r, k) == col_sum(m2, r, k),
    decreases k,
{
    if k > 0 {
        lemma_col_sum_agree(m1, m2, r, k - 1);
    }
}

/// Changing row `t` changes the column sum by the difference in that row.
pub proof fn lemma_col_sum_update(m: Seq<Seq<usize>>, t: int, row: Seq<usize>, r: int, k: int)
    requires
        0 <= t < k <= m.len(),
    ensures
        col_sum(m.update(t, row), r, k) == col_sum(m, r, k) - m[t][r] + row[r],
    decreases k,
{
    if t == k - 1 {
        assert forall|j: int| 0 <= j < k - 1 implies m.update(t, row)[j][r] == m[j][r] by {
            assert(m.update(t, row)[j] == m[j]);
        }
        lemma_col_sum_agree(m.update(t, row), m, r, k - 1);
        assert(m.update(t, row)[k - 1] == row);
    } else {
        lemma_col_sum_update(m, t, row, r, k - 1);
        assert(m.update(t, row)[k - 1] == m[k - 1]);
    }
}

/// A column of zeroes sums to zero.
pub proof fn lemma_col_sum_zero(m: Seq<Seq<usize>>, r: int, k: int)
    requires
        forall|t: int| 0 <= t < k ==> m[t][r] == 0,
    ensures
        col_sum(m, r, k) == 0,
    decreases k,
{
    if k > 0 {
        lemma_col_sum_zero(m, r, k - 1);
    }
}

/// Every entry of a column is at most the whole column's sum.
pub proof fn lemma_col_sum_bounds_entry(m: Seq<Seq<usize>>, r: int, k: int, t: int)
    requires
        0 <= t < k,
    ensures
        m[t][r] <= col_sum(m, r, k),
        col_sum(m, r, k) >= 0,
    decreases k,
{
    if k > 0 {
        if t < k - 1 {
            lemma_col_sum_bounds_entry(m, r, k - 1, t);
        } else {
            lemma_col_sum_nonneg(m, r, k - 1);
        }
    }
}

/// A column sum of unsigned entries is nonnegative.
pub proof fn lemma_col_sum_nonneg(m: Seq<Seq<usize>>, r: int, k: int)
    ensures
        col_sum(m, r, k) >= 0,
    decreases k,
{
    if k > 0 {
        lemma_col_sum_nonneg(m, r, k - 1);
    }
}

/// The matrix `m` with entry `(t, r)` replaced by `v` and nothing else
/// changed: the shape every single-entry ledger adjustment has.
pub open spec fn with_entry(m: Seq<Seq<usize>>, t: int, r: int, v: usize) -> Seq<Seq<usize>> {
    m.update(t, m[t].update(r, v))
}

/// Per-thread, per-resource accounting for one family of resources.
pub struct Ledger {
    /// `available[r]`: units of resource `r` not currently held by any thread.
    pub available: Vec<usize>,
    /// `allocated[t][r]`: units of resource `r` currently held by thread `t`.
    pub allocated: Vec<Vec<usize>>,
    /// `need[t][r]`: units of `r` thread `t` has requested but not yet been
    /// granted (at most one outstanding request per thread per resource).
    pub need: Vec<Vec<usize>>,
    /// `total[r]`: all units of resource `r` that exist, held or not.
    pub total: Vec<usize>,
}

impl Ledger {
    /// Number of thread rows.
    pub open spec fn nthreads(self) -> int {
        self.allocated@.len() as int
    }

    /// Number of resource columns.
    pub open spec fn nres(self) -> int {
        self.available@.len() as int
    }

    /// The allocation matrix as a sequence of rows.
    pub open spec fn alloc_mat(self) -> Seq<Seq<usize>> {
        self.allocated@.map_values(|row: Vec<usize>| row@)
    }

    /// The need matrix as a sequence of rows.
    pub open spec fn need_mat(self) -> Seq<Seq<usize>> {
        self.need@.map_values(|row: Vec<usize>| row@)
    }

    /// Well-formedness: consistent dimensions, and conservation of units.
    pub open spec fn wf(self) -> bool {
        &&& self.need@.len() == self.nthreads()
        &&& self.total@.len() == self.nres()
        &&& forall|t: int|
            0 <= t < self.nthreads() ==> (#[trigger] self.allocated@[t])@.len() == self.nres()
        &&& forall|t: int|
            0 <= t < self.nthreads() ==> (#[trigger] self.need@[t])@.len() == self.nres()
        &&& forall|r: int|
            0 <= r < self.nres() ==> self.available@[r] + col_sum(
                self.alloc_mat(),
                r,
                self.nthreads(),
            ) == #[trigger] self.total@[r]
    }

    /// Ledger conservation, stated on its own: in a well-formed ledger no
    /// unit of any resource is created or destroyed -- what is available plus
    /// what all threads hold is exactly what exists.
    pub proof fn lemma_conservation(self, r: int)
        requires
            self.wf(),
            0 <= r < self.nres(),
        ensures
            self.available@[r] + col_sum(self.alloc_mat(), r, self.nthreads())
                == self.total@[r],
            self.available@[r] <= self.total@[r],
            forall|t: int|
                0 <= t < self.nthreads() ==> #[trigger] self.alloc_mat()[t][r]
                    <= self.total@[r],
    {
        lemma_col_sum_nonneg(self.alloc_mat(), r, self.nthreads());
        assert forall|t: int|
            0 <= t < self.nthreads() implies #[trigger] self.alloc_mat()[t][r]
            <= self.total@[r] by {
            lemma_col_sum_bounds_entry(self.alloc_mat(), r, self.nthreads(), t);
        }
    }

    /// An empty ledger: no threads, no resources.
    pub fn new() -> (l: Ledger)
        ensures
            l.wf(),
            l.nthreads() == 0,
            l.nres() == 0,
    {
        Ledger { available: Vec::new(), allocated: Vec::new(), need: Vec::new(), total: Vec::new() }
    }

    /// Number of thread rows.
    pub fn thread_count(&self) -> (n: usize)
        ensures
            n == self.nthreads(),
    {
        self.allocated.len()
    }

    /// Number of resource columns.
    pub fn resource_count(&self) -> (n: usize)
        ensures
            n == self.nres(),
    {
        self.available.len()
    }

    /// Units of resource `r` not currently held by any thread.
    pub fn available_units(&self, r: usize) -> (u: usize)
        requires
            r < self.nres(),
        ensures
            u == self.available@[r as int],
    {
        self.available[r]
    }

    /// Units of resource `r` currently held by thread `t`.
    pub fn allocated_units(&self, t: usize, r: usize) -> (u: usize)
        requires
            self.wf(),
            t < self.nthreads(),
            r < self.nres(),
        ensures
            u == self.alloc_mat()[t as int][r as int],
    {
        self.allocated[t][r]
    }

    /// Units of resource `r` thread `t` has requested but not been granted.
    pub fn needed_units(&self, t: usize, r: usize) -> (u: usize)
        requires
            self.wf(),
            t < self.nthreads(),
            r < self.nres(),
        ensures
            u == self.need_mat()[t as int][r as int],
    {
        self.need[t][r]
    }

    /// All units of resource `r` that exist.
    pub fn total_units(&self, r: usize) -> (u: usize)
        requires
            self.wf(),
            r < self.nres(),
        ensures
            u == self.total@[r as int],
    {
        self.total[r]
    }

    /// A new thread is seen for the first time: extend the need and
    /// allocation matrices with a zero-filled row. The thread holds nothing,
    /// so conservation is untouched.
    pub fn add_thread(&mut self)
        requires
            old(self).wf(),
        ensures
            final(self).wf(),
            final(self).nthreads() == old(self).nthreads() + 1,
            final(self).nres() == old(self).nres(),
            final(self).available@ == old(self).available@,
            final(self).total@ == old(self).total@,
            final(self).alloc_mat() == old(self).alloc_mat().push(
                Seq::new(old(self).nres() as nat, |r: int| 0usize),
            ),
            final(self).need_mat() == old(self).need_mat().push(
                Seq::new(old(self).nres() as nat, |r: int| 0usize),
            ),
    {
        let m = self.available.len();
        let zero_alloc = zero_row(m);
        let zero_need = zero_row(m);
        let ghost zrow = Seq::new(m as nat, |r: int| 0usize);
        proof {
            assert(zero_alloc@ =~= zrow);
            assert(zero_need@ =~= zrow);
        }
        self.allocated.push(zero_alloc);
        self.need.push(zero_need);
        proof {
            assert(final(self).alloc_mat() =~= old(self).alloc_mat().push(zrow));
            assert(final(self).need_mat() =~= old(self).need_mat().push(zrow));
            assert forall|r: int| 0 <= r < final(self).nres() implies final(self).available@[r]
                + col_sum(final(self).alloc_mat(), r, final(self).nthreads())
                == #[trigger] final(self).total@[r] by {
                lemma_col_sum_agree(
                    final(self).alloc_mat(),
                    old(self).alloc_mat(),
                    r,
                    old(self).nthreads(),
                );
            }
        }
    }

    /// A new resource slot is seen for the first time: extend every thread's
    /// rows with a zero and make all `units` of the new resource available.
    pub fn add_resource(&mut self, units: usize)
        requires
            old(self).wf(),
        ensures
            final(self).wf(),
            final(self).nthreads() == old(self).nthreads(),
            final(self).nres() == old(self).nres() + 1,
            final(self).available@ == old(self).available@.push(units),
            final(self).total@ == old(self).total@.push(units),
            forall|t: int|
                0 <= t < old(self).nthreads() ==> #[trigger] final(self).alloc_mat()[t]
                    == old(self).alloc_mat()[t].push(0usize),
            forall|t: int|
                0 <= t < old(self).nthreads() ==> #[trigger] final(self).need_mat()[t]
                    == old(self).need_mat()[t].push(0usize),
    {
        let ghost pre = *self;
        let n = self.allocated.len();
        self.available.push(units);
        self.total.push(units);
        let mut t: usize = 0;
        while t < n
            invariant
                n == pre.nthreads(),
                self.allocated@.len() == n,
                self.need@.len() == n,
                self.available@ == pre.available@.push(units),
                self.total@ == pre.total@.push(units),
                forall|j: int|
                    t <= j < n ==> #[trigger] self.allocated@[j] == pre.allocated@[j],
                forall|j: int| t <= j < n ==> #[trigger] self.need@[j] == pre.need@[j],
                forall|j: int|
                    0 <= j < t ==> (#[trigger] self.allocated@[j])@ == pre.alloc_mat()[j].push(
                        0usize,
                    ),
                forall|j: int|
                    0 <= j < t ==> (#[trigger] self.need@[j])@ == pre.need_mat()[j].push(0usize),
                pre.wf(),
            decreases n - t,
        {
            self.allocated[t].push(0);
            self.need[t].push(0);
            t = t + 1;
        }
        proof {
            let m = pre.nres();
            assert forall|r: int| 0 <= r < m + 1 implies final(self).available@[r]
                + col_sum(final(self).alloc_mat(), r, n as int)
                == #[trigger] final(self).total@[r] by {
                if r < m {
                    lemma_col_sum_agree(final(self).alloc_mat(), pre.alloc_mat(), r, n as int);
                } else {
                    lemma_col_sum_zero(final(self).alloc_mat(), r, n as int);
                }
            }
        }
    }

    /// A freed slot is being reused: reset its column to initial values.
    /// `units` of the resource exist again and none are held or requested.
    pub fn reset_resource(&mut self, r: usize, units: usize)
        requires
            old(self).wf(),
            r < old(self).nres(),
        ensures
            final(self).wf(),
            final(self).nthreads() == old(self).nthreads(),
            final(self).nres() == old(self).nres(),
            final(self).available@ == old(self).available@.update(r as int, units),
            final(self).total@ == old(self).total@.update(r as int, units),
            forall|t: int|
                0 <= t < old(self).nthreads() ==> #[trigger] final(self).alloc_mat()[t]
                    == old(self).alloc_mat()[t].update(r as int, 0usize),
            forall|t: int|
                0 <= t < old(self).nthreads() ==> #[trigger] final(self).need_mat()[t]
                    == old(self).need_mat()[t].update(r as int, 0usize),
    {
        let ghost pre = *self;
        let n = self.allocated.len();
        self.available[r] = units;
        self.total[r] = units;
        let mut t: usize = 0;
        while t < n
            invariant
                n == pre.nthreads(),
                r < pre.nres(),
                self.allocated@.len() == n,
                self.need@.len() == n,
                self.available@ == pre.available@.update(r as int, units),
                self.total@ == pre.total@.update(r as int, units),
                forall|j: int|
                    t <= j < n ==> #[trigger] self.allocated@[j] == pre.allocated@[j],
                forall|j: int| t <= j < n ==> #[trigger] self.need@[j] == pre.need@[j],
                forall|j: int|
                    0 <= j < t ==> (#[trigger] self.allocated@[j])@ == pre.alloc_mat()[j].update(
                        r as int,
                        0usize,
                    ),
                forall|j: int|
                    0 <= j < t ==> (#[trigger] self.need@[j])@ == pre.need_mat()[j].update(
                        r as int,
                        0usize,
                    ),
                pre.wf(),
            decreases n - t,
        {
            self.allocated[t][r] = 0;
            self.need[t][r] = 0;
            t = t + 1;
        }
        proof {
            let m = pre.nres();
            assert forall|c: int| 0 <= c < m implies final(self).available@[c]
                + col_sum(final(self).alloc_mat(), c, n as int)
                == #[trigger] final(self).total@[c] by {
                if c == r {
                    lemma_col_sum_zero(final(self).alloc_mat(), c, n as int);
                } else {
                    lemma_col_sum_agree(final(self).alloc_mat(), pre.alloc_mat(), c, n as int);
                }
            }
        }
    }
    /// Thread `t` requests one unit of resource `r`: the adjustment `+1` to
    /// the need matrix, made before the safety check of the request path.
    pub fn record_need(&mut self, t: usize, r: usize)
        requires
            old(self).wf(),
            t < old(self).nthreads(),
            r < old(self).nres(),
            old(self).need_mat()[t as int][r as int] < usize::MAX,
        ensures
            final(self).wf(),
            final(self).nthreads() == old(self).nthreads(),
            final(self).nres() == old(self).nres(),
            final(self).available@ == old(self).available@,
            final(self).total@ == old(self).total@,
            final(self).alloc_mat() == old(self).alloc_mat(),
            final(self).need_mat() == old(self).need_mat().update(
                t as int,
                old(self).need_mat()[t as int].update(
                    r as int,
                    (old(self).need_mat()[t as int][r as int] + 1) as usize,
                ),
            ),
    {
        let v = self.need[t][r];
        self.need[t][r] = v + 1;
        proof {
            assert(final(self).alloc_mat() =~= old(self).alloc_mat());
            assert(final(self).need_mat() =~= old(self).need_mat().update(
                t as int,
                old(self).need_mat()[t as int].update(r as int, (v + 1) as usize),
            ));
            assert forall|c: int| 0 <= c < final(self).nres() implies final(self).available@[c]
                + col_sum(final(self).alloc_mat(), c, final(self).nthreads())
                == #[trigger] final(self).total@[c] by {}
        }
    }

    /// A rejected or withdrawn request: the adjustment `-1` to the need
    /// matrix, rolling back `record_need`.
    pub fn rollback_need(&mut self, t: usize, r: usize)
        requires
            old(self).wf(),
            t < old(self).nthreads(),
            r < old(self).nres(),
            old(self).need_mat()[t as int][r as int] >= 1,
        ensures
            final(self).wf(),
            final(self).nthreads() == old(self).nthreads(),
            final(self).nres() == old(self).nres(),
            final(self).available@ == old(self).available@,
            final(self).total@ == old(self).total@,
            final(self).alloc_mat() == old(self).alloc_mat(),
            final(self).need_mat() == old(self).need_mat().update(
                t as int,
                old(self).need_mat()[t as int].update(
                    r as int,
                    (old(self).need_mat()[t as int][r as int] - 1) as usize,
                ),
            ),
    {
        let v = self.need[t][r];
        self.need[t][r] = v - 1;
        proof {
            assert(final(self).alloc_mat() =~= old(self).alloc_mat());
            assert(final(self).need_mat() =~= old(self).need_mat().update(
                t as int,
                old(self).need_mat()[t as int].update(r as int, (v - 1) as usize),
            ));
        }
    }

    /// A safe request is granted: one available unit of `r` moves to thread
    /// `t`'s allocation and the outstanding need is cleared. Conservation is
    /// preserved: the unit changes hands, it is not created.
    pub fn commit_grant(&mut self, t: usize, r: usize)
        requires
            old(self).wf(),
            t < old(self).nthreads(),
            r < old(self).nres(),
            old(self).available@[r as int] >= 1,
            old(self).need_mat()[t as int][r as int] >= 1,
        ensures
            final(self).wf(),
            final(self).nthreads() == old(self).nthreads(),
            final(self).nres() == old(self).nres(),
            final(self).total@ == old(self).total@,
            final(self).available@ == old(self).available@.update(
                r as int,
                (old(self).available@[r as int] - 1) as usize,
            ),
            final(self).alloc_mat() == old(self).alloc_mat().update(
                t as int,
                old(self).alloc_mat()[t as int].update(
                    r as int,
                    (old(self).alloc_mat()[t as int][r as int] + 1) as usize,
                ),
            ),
            final(self).need_mat() == old(self).need_mat().update(
                t as int,
                old(self).need_mat()[t as int].update(
                    r as int,
                    (old(self).need_mat()[t as int][r as int] - 1) as usize,
                ),
            ),
    {
        proof {
            old(self).lemma_conservation(r as int);
            lemma_col_sum_bounds_entry(
                old(self).alloc_mat(),
                r as int,
                old(self).nthreads(),
                t as int,
            );
        }
        let a = self.allocated[t][r];
        self.allocated[t][r] = a + 1;
        let v = self.need[t][r];
        self.need[t][r] = v - 1;
        let w = self.available[r];
        self.available[r] = w - 1;
        proof {
            let pre = *old(self);
            let arow = pre.alloc_mat()[t as int].update(r as int, (a + 1) as usize);
            assert(final(self).alloc_mat() =~= pre.alloc_mat().update(t as int, arow));
            assert(final(self).need_mat() =~= pre.need_mat().update(
                t as int,
                pre.need_mat()[t as int].update(r as int, (v - 1) as usize),
            ));
            assert forall|c: int| 0 <= c < final(self).nres() implies final(self).available@[c]
                + col_sum(final(self).alloc_mat(), c, final(self).nthreads())
                == #[trigger] final(self).total@[c] by {
                lemma_col_sum_update(pre.alloc_mat(), t as int, arow, c, pre.nthreads());
            }
        }
    }

    /// Thread `t` gives back one held unit of resource `r`: it returns to the
    /// available pool. Conservation is preserved.
    pub fn commit_release(&mut self, t: usize, r: usize)
        requires
            old(self).wf(),
            t < old(self).nthreads(),
            r < old(self).nres(),
            old(self).alloc_mat()[t as int][r as int] >= 1,
        ensures
            final(self).wf(),
            final(self).nthreads() == old(self).nthreads(),
            final(self).nres() == old(self).nres(),
            final(self).total@ == old(self).total@,
            final(self).need_mat() == old(self).need_mat(),
            final(self).available@ == old(self).available@.update(
                r as int,
                (old(self).available@[r as int] + 1) as usize,
            ),
            final(self).alloc_mat() == old(self).alloc_mat().update(
                t as int,
                old(self).alloc_mat()[t as int].update(
                    r as int,
                    (old(self).alloc_mat()[t as int][r as int] - 1) as usize,
                ),
            ),
    {
        proof {
            old(self).lemma_conservation(r as int);
            lemma_col_sum_bounds_entry(
                old(self).alloc_mat(),
                r as int,
                old(self).nthreads(),
                t as int,
            );
        }
        let a = self.allocated[t][r];
        self.allocated[t][r] = a - 1;
        let w = self.available[r];
        self.available[r] = w + 1;
        proof {
            let pre = *old(self);
            let arow = pre.alloc_mat()[t as int].update(r as int, (a - 1) as usize);
            assert(final(self).alloc_mat() =~= pre.alloc_mat().update(t as int, arow));
            assert(final(self).need_mat() =~= pre.need_mat());
            assert forall|c: int| 0 <= c < final(self).nres() implies final(self).available@[c]
                + col_sum(final(self).alloc_mat(), c, final(self).nthreads())
                == #[trigger] final(self).total@[c] by {
                lemma_col_sum_update(pre.alloc_mat(), t as int, arow, c, pre.nthreads());
            }
        }
    }

    /// A unit of resource `r` enters the system that no thread held: a
    /// semaphore is raised past its creation count. Both the available pool
    /// and the total grow by one, so conservation is preserved.
    pub fn deposit(&mut self, r: usize)
        requires
            old(self).wf(),
            r < old(self).nres(),
            old(self).total@[r as int] < usize::MAX,
        ensures
            final(self).wf(),
            final(self).nthreads() == old(self).nthreads(),
            final(self).nres() == old(self).nres(),
            final(self).alloc_mat() == old(self).alloc_mat(),
            final(self).need_mat() == old(self).need_mat(),
            final(self).available@ == old(self).available@.update(
                r as int,
                (old(self).available@[r as int] + 1) as usize,
            ),
            final(self).total@ == old(self).total@.update(
                r as int,
                (old(self).total@[r as int] + 1) as usize,
            ),
    {
        proof {
            old(self).lemma_conservation(r as int);
        }
        let w = self.available[r];
        self.available[r] = w + 1;
        let u = self.total[r];
        self.total[r] = u + 1;
        proof {
            assert(final(self).alloc_mat() =~= old(self).alloc_mat());
            assert(final(self).need_mat() =~= old(self).need_mat());
        }
    }
}

/// A row of `m` zeroes.
fn zero_row(m: usize) -> (row: Vec<usize>)
    ensures
        row@.len() == m,
        forall|r: int| 0 <= r < m ==> row@[r] == 0,
{
    let mut row: Vec<usize> = Vec::new();
    let mut i: usize = 0;
    while i < m
        invariant
            i <= m,
            row@.len() == i,
            forall|r: int| 0 <= r < i ==> row@[r] == 0,
        decreases m - i,
    {
        row.push(0);
        i = i + 1;
    }
    row
}

} // verus!
