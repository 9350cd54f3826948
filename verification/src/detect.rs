//! The deadlock detector: a generalized Banker's-algorithm safety check over
//! a ledger snapshot.
//!
//! A ledger state is *safe* when some order of remaining thread completions
//! exists: an order in which every thread can be granted its full remaining
//! need from the work pool, finish, and return what it holds. [`is_safe`]
//! decides this with the usual greedy expansion, and its contract states the
//! exact characterization: it returns `true` if and only if such an order
//! exists ([`safe`]). The greedy order is irrelevant -- the algorithm is
//! confluent, which is the content of [`lemma_absorb`].

use vstd::prelude::*;
use crate::ledger::{col_sum, lemma_col_sum_nonneg, Ledger};

verus! {

/// Thread row `row` fits under the work vector: for every resource `r`,
/// `row[r] <= work[r]`.
pub open spec fn row_le(row: Seq<usize>, work: Seq<int>) -> bool {
    forall|r: int| 0 <= r < work.len() ==> row[r] <= work[r]
}

/// The work vector after a finished thread returns its allocation.
pub open spec fn add_row(work: Seq<int>, row: Seq<usize>) -> Seq<int> {
    Seq::new(work.len(), |r: int| work[r] + row[r])
}

/// Every thread is marked finished.
pub open spec fn all_finished(fin: Seq<bool>) -> bool {
    forall|t: int| 0 <= t < fin.len() ==> fin[t]
}

/// How many threads are not yet marked finished.
pub open spec fn count_unfinished(fin: Seq<bool>) -> nat
    decreases fin.len(),
{
    if fin.len() == 0 {
        0
    } else {
        count_unfinished(fin.drop_last()) + if fin.last() {
            0nat
        } else {
            1nat
        }
    }
}

/// From work pool `work` and finish marks `fin`, the remaining threads can
/// all finish in some order, each step granting a thread whose whole need
/// row fits under the current work and then reclaiming its allocation.
/// `fuel` bounds the number of steps; since a step finishes a thread for
/// good, `fin.len()` steps always suffice.
pub open spec fn completes(
    need: Seq<Seq<usize>>,
    alloc: Seq<Seq<usize>>,
    work: Seq<int>,
    fin: Seq<bool>,
    fuel: nat,
) -> bool
    decreases fuel,
{
    if all_finished(fin) {
        true
    } else if fuel == 0 {
        false
    } else {
        exists|t: int|
            0 <= t < fin.len() && !fin[t] && row_le(need[t], work) && completes(
                need,
                alloc,
                add_row(work, alloc[t]),
                fin.update(t, true),
                (fuel - 1) as nat,
            )
    }
}

/// The available vector as a mathematical sequence.
pub open spec fn avail_int(l: Ledger) -> Seq<int> {
    Seq::new(l.available@.len(), |r: int| l.available@[r] as int)
}

/// The ledger state is safe: some order of remaining thread completions
/// exists under the Banker's-algorithm step relation, starting from the
/// currently available units with no thread finished.
pub open spec fn safe(l: Ledger) -> bool {
    completes(
        l.need_mat(),
        l.alloc_mat(),
        avail_int(l),
        Seq::new(l.nthreads() as nat, |t: int| false),
        l.nthreads() as nat,
    )
}

/// Marking an unfinished thread finished lowers the unfinished count by one.
proof fn lemma_count_update(fin: Seq<bool>, t: int)
    requires
        0 <= t < fin.len(),
        !fin[t],
    ensures
        count_unfinished(fin.update(t, true)) == count_unfinished(fin) - 1,
    decreases fin.len(),
{
    if t == fin.len() - 1 {
        assert(fin.update(t, true).drop_last() =~= fin.drop_last());
    } else {
        assert(fin.update(t, true).drop_last() =~= fin.drop_last().update(t, true));
        lemma_count_update(fin.drop_last(), t);
    }
}

/// The unfinished count never exceeds the number of threads.
proof fn lemma_count_le_len(fin: Seq<bool>)
    ensures
        count_unfinished(fin) <= fin.len(),
    decreases fin.len(),
{
    if fin.len() > 0 {
        lemma_count_le_len(fin.drop_last());
    }
}

/// A bigger work pool accepts every row the smaller one accepted.
proof fn lemma_row_le_grow(row: Seq<usize>, work: Seq<int>, extra: Seq<usize>)
    requires
        row_le(row, work),
    ensures
        row_le(row, add_row(work, extra)),
{
}

/// Reclaiming two finished threads' allocations commutes.
proof fn lemma_add_row_comm(work: Seq<int>, a: Seq<usize>, b: Seq<usize>)
    ensures
        add_row(add_row(work, a), b) == add_row(add_row(work, b), a),
{
    assert(add_row(add_row(work, a), b) =~= add_row(add_row(work, b), a));
}

/// One completion step folded back into `completes`: if thread `t` is
/// eligible and the rest completes after granting `t`, the whole completes.
proof fn lemma_step(
    need: Seq<Seq<usize>>,
    alloc: Seq<Seq<usize>>,
    work: Seq<int>,
    fin: Seq<bool>,
    fuel: nat,
    t: int,
)
    requires
        fuel >= 1,
        0 <= t < fin.len(),
        !fin[t],
        row_le(need[t], work),
        completes(need, alloc, add_row(work, alloc[t]), fin.update(t, true), (fuel - 1) as nat),
    ensures
        completes(need, alloc, work, fin, fuel),
{
    assert(exists|u: int|
        0 <= u < fin.len() && !fin[u] && row_le(need[u], work) && completes(
            need,
            alloc,
            add_row(work, alloc[u]),
            fin.update(u, true),
            (fuel - 1) as nat,
        )) by {
        assert(0 <= t < fin.len() && !fin[t] && row_le(need[t], work) && completes(
            need,
            alloc,
            add_row(work, alloc[t]),
            fin.update(t, true),
            (fuel - 1) as nat,
        ));
    }
}

/// More fuel never hurts: a completion within `fuel` steps is a completion
/// within any larger budget.
proof fn lemma_fuel_mono(
    need: Seq<Seq<usize>>,
    alloc: Seq<Seq<usize>>,
    work: Seq<int>,
    fin: Seq<bool>,
    fuel: nat,
    fuel2: nat,
)
    requires
        completes(need, alloc, work, fin, fuel),
        fuel2 >= fuel,
    ensures
        completes(need, alloc, work, fin, fuel2),
    decreases fuel,
{
    if !all_finished(fin) {
        let t = choose|t: int|
            0 <= t < fin.len() && !fin[t] && row_le(need[t], work) && completes(
                need,
                alloc,
                add_row(work, alloc[t]),
                fin.update(t, true),
                (fuel - 1) as nat,
            );
        lemma_fuel_mono(
            need,
            alloc,
            add_row(work, alloc[t]),
            fin.update(t, true),
            (fuel - 1) as nat,
            (fuel2 - 1) as nat,
        );
        lemma_step(need, alloc, work, fin, fuel2, t);
    }
}

/// Any completion needs at most one step per unfinished thread, so a budget
/// of `count_unfinished(fin)` steps is always enough.
proof fn lemma_fuel_saturates(
    need: Seq<Seq<usize>>,
    alloc: Seq<Seq<usize>>,
    work: Seq<int>,
    fin: Seq<bool>,
    fuel: nat,
    fuel2: nat,
)
    requires
        completes(need, alloc, work, fin, fuel),
        fuel2 >= count_unfinished(fin),
    ensures
        completes(need, alloc, work, fin, fuel2),
    decreases fuel,
{
    if !all_finished(fin) {
        let t = choose|t: int|
            0 <= t < fin.len() && !fin[t] && row_le(need[t], work) && completes(
                need,
                alloc,
                add_row(work, alloc[t]),
                fin.update(t, true),
                (fuel - 1) as nat,
            );
        lemma_count_update(fin, t);
        lemma_fuel_saturates(
            need,
            alloc,
            add_row(work, alloc[t]),
            fin.update(t, true),
            (fuel - 1) as nat,
            (fuel2 - 1) as nat,
        );
        lemma_step(need, alloc, work, fin, fuel2, t);
    }
}

/// Confluence of the Banker's step relation: if the remaining threads can
/// complete, and thread `t` is eligible right now, then granting `t` first
/// cannot destroy the completion -- any expansion order reaches the same
/// finish set.
proof fn lemma_absorb(
    need: Seq<Seq<usize>>,
    alloc: Seq<Seq<usize>>,
    work: Seq<int>,
    fin: Seq<bool>,
    fuel: nat,
    t: int,
)
    requires
        completes(need, alloc, work, fin, fuel),
        0 <= t < fin.len(),
        !fin[t],
        row_le(need[t], work),
    ensures
        completes(need, alloc, add_row(work, alloc[t]), fin.update(t, true), fuel),
    decreases fuel,
{
    let fin_t = fin.update(t, true);
    let work_t = add_row(work, alloc[t]);
    if all_finished(fin_t) {
        // nothing left to schedule after t
    } else {
        let u = choose|u: int|
            0 <= u < fin.len() && !fin[u] && row_le(need[u], work) && completes(
                need,
                alloc,
                add_row(work, alloc[u]),
                fin.update(u, true),
                (fuel - 1) as nat,
            );
        if u == t {
            lemma_fuel_mono(need, alloc, work_t, fin_t, (fuel - 1) as nat, fuel);
        } else {
            let work_u = add_row(work, alloc[u]);
            let fin_u = fin.update(u, true);
            lemma_row_le_grow(need[t], work, alloc[u]);
            lemma_absorb(need, alloc, work_u, fin_u, (fuel - 1) as nat, t);
            lemma_add_row_comm(work, alloc[u], alloc[t]);
            assert(fin_u.update(t, true) =~= fin_t.update(u, true));
            lemma_row_le_grow(need[u], work, alloc[t]);
            lemma_step(need, alloc, work_t, fin_t, fuel, u);
        }
    }
}

/// The units of resource `r` held by the finish-marked threads among the
/// first `k`.
pub open spec fn marked_col_sum(m: Seq<Seq<usize>>, mask: Seq<bool>, r: int, k: int) -> int
    decreases k,
{
    if k <= 0 {
        0
    } else {
        marked_col_sum(m, mask, r, k - 1) + if mask[k - 1] {
            m[k - 1][r] as int
        } else {
            0
        }
    }
}

/// With no thread marked, nothing is summed.
proof fn lemma_marked_none(m: Seq<Seq<usize>>, mask: Seq<bool>, r: int, k: int)
    requires
        forall|t: int| 0 <= t < k ==> !mask[t],
    ensures
        marked_col_sum(m, mask, r, k) == 0,
    decreases k,
{
    if k > 0 {
        lemma_marked_none(m, mask, r, k - 1);
    }
}

/// Marking thread `t` adds exactly its held units to the marked sum.
proof fn lemma_marked_update(m: Seq<Seq<usize>>, mask: Seq<bool>, t: int, r: int, k: int)
    requires
        0 <= t < k <= mask.len(),
        !mask[t],
    ensures
        marked_col_sum(m, mask.update(t, true), r, k) == marked_col_sum(m, mask, r, k)
            + m[t][r],
    decreases k,
{
    if t == k - 1 {
        assert forall|j: int| 0 <= j < k - 1 implies mask.update(t, true)[j] == mask[j] by {}
        lemma_marked_agree(m, mask.update(t, true), mask, r, k - 1);
    } else {
        lemma_marked_update(m, mask, t, r, k - 1);
    }
}

/// A marked sum only reads the first `k` marks.
proof fn lemma_marked_agree(
    m: Seq<Seq<usize>>,
    mask1: Seq<bool>,
    mask2: Seq<bool>,
    r: int,
    k: int,
)
    requires
        forall|t: int| 0 <= t < k ==> mask1[t] == mask2[t],
    ensures
        marked_col_sum(m, mask1, r, k) == marked_col_sum(m, mask2, r, k),
    decreases k,
{
    if k > 0 {
        lemma_marked_agree(m, mask1, mask2, r, k - 1);
    }
}

/// The marked sum never exceeds the whole column's sum.
proof fn lemma_marked_le_col(m: Seq<Seq<usize>>, mask: Seq<bool>, r: int, k: int)
    ensures
        marked_col_sum(m, mask, r, k) <= col_sum(m, r, k),
        marked_col_sum(m, mask, r, k) >= 0,
    decreases k,
{
    if k > 0 {
        lemma_marked_le_col(m, mask, r, k - 1);
    }
}

/// The work vector as a mathematical sequence.
pub open spec fn work_int(w: Seq<usize>) -> Seq<int> {
    Seq::new(w.len(), |r: int| w[r] as int)
}

/// The Banker's-algorithm safety check, run over a ledger snapshot (whose
/// need matrix already holds the hypothetical pending request): greedy
/// expansion of a work pool from the available vector, finishing any thread
/// whose whole need row fits, until no further thread can be finished.
/// Returns `true` exactly when the snapshot is [`safe`].
pub fn is_safe(l: &Ledger) -> (r: bool)
    requires
        l.wf(),
    ensures
        r == safe(*l),
{
    let n = l.allocated.len();
    let m = l.available.len();
    let ghost need_s = l.need_mat();
    let ghost alloc_s = l.alloc_mat();
    let ghost fuel = n as nat;

    let mut work: Vec<usize> = Vec::new();
    let mut i: usize = 0;
    while i < m
        invariant
            i <= m,
            m == l.nres(),
            work@.len() == i,
            forall|c: int| 0 <= c < i ==> work@[c] == l.available@[c],
        decreases m - i,
    {
        work.push(l.available[i]);
        i = i + 1;
    }
    let mut fin: Vec<bool> = Vec::new();
    let mut j: usize = 0;
    while j < n
        invariant
            j <= n,
            fin@.len() == j,
            forall|c: int| 0 <= c < j ==> !fin@[c],
        decreases n - j,
    {
        fin.push(false);
        j = j + 1;
    }

    let ghost base = safe(*l);
    proof {
        assert(work_int(work@) =~= avail_int(*l));
        assert(fin@ =~= Seq::new(l.nthreads() as nat, |t: int| false));
        assert forall|c: int| 0 <= c < m implies work@[c] == l.available@[c] + marked_col_sum(
            alloc_s,
            fin@,
            c,
            n as int,
        ) by {
            lemma_marked_none(alloc_s, fin@, c, n as int);
        }
    }

    let mut progressed = true;
    while progressed
        invariant
            l.wf(),
            n == l.nthreads(),
            m == l.nres(),
            need_s == l.need_mat(),
            alloc_s == l.alloc_mat(),
            fin@.len() == n,
            work@.len() == m,
            forall|c: int|
                0 <= c < m ==> work@[c] == l.available@[c] + marked_col_sum(
                    alloc_s,
                    fin@,
                    c,
                    n as int,
                ),
            base == completes(need_s, alloc_s, work_int(work@), fin@, n as nat),
            base == safe(*l),
            !progressed ==> forall|t: int|
                0 <= t < n ==> fin@[t] || !row_le(need_s[t], work_int(work@)),
        decreases count_unfinished(fin@) + if progressed {
            1int
        } else {
            0int
        },
    {
        progressed = false;
        let ghost fin_pass = fin@;
        let ghost work_pass = work@;
        let mut t: usize = 0;
        while t < n
            invariant
                l.wf(),
                n == l.nthreads(),
                m == l.nres(),
                need_s == l.need_mat(),
                alloc_s == l.alloc_mat(),
                t <= n,
                fin@.len() == n,
                work@.len() == m,
                forall|c: int|
                    0 <= c < m ==> work@[c] == l.available@[c] + marked_col_sum(
                        alloc_s,
                        fin@,
                        c,
                        n as int,
                    ),
                base == completes(need_s, alloc_s, work_int(work@), fin@, n as nat),
                base == safe(*l),
                !progressed ==> fin@ == fin_pass && work@ == work_pass,
                !progressed ==> forall|j: int|
                    0 <= j < t ==> fin@[j] || !row_le(need_s[j], work_int(work@)),
                count_unfinished(fin@) <= count_unfinished(fin_pass),
                progressed ==> count_unfinished(fin@) < count_unfinished(fin_pass),
            decreases n - t,
        {
            if !fin[t] {
                let mut ok = true;
                let mut r: usize = 0;
                while r < m
                    invariant
                        l.wf(),
                        n == l.nthreads(),
                        m == l.nres(),
                        need_s == l.need_mat(),
                        t < n,
                        r <= m,
                        work@.len() == m,
                        ok <==> (forall|c: int| 0 <= c < r ==> need_s[t as int][c] <= work@[c]),
                    decreases m - r,
                {
                    if l.need[t][r] > work[r] {
                        ok = false;
                    }
                    r = r + 1;
                }
                if ok {
                    proof {
                        assert(row_le(need_s[t as int], work_int(work@)));
                    }
                    let ghost fin_pre = fin@;
                    let ghost work_pre = work@;
                    fin[t] = true;
                    let mut r2: usize = 0;
                    while r2 < m
                        invariant
                            l.wf(),
                            n == l.nthreads(),
                            m == l.nres(),
                            alloc_s == l.alloc_mat(),
                            t < n,
                            r2 <= m,
                            work@.len() == m,
                            fin@ == fin_pre.update(t as int, true),
                            fin_pre.len() == n,
                            !fin_pre[t as int],
                            forall|c: int|
                                0 <= c < m ==> work_pre[c] == l.available@[c] + marked_col_sum(
                                    alloc_s,
                                    fin_pre,
                                    c,
                                    n as int,
                                ),
                            forall|c: int|
                                0 <= c < r2 ==> work@[c] == work_pre[c] + alloc_s[t as int][c],
                            forall|c: int| r2 <= c < m ==> work@[c] == work_pre[c],
                        decreases m - r2,
                    {
                        let w = work[r2];
                        let a = l.allocated[t][r2];
                        proof {
                            lemma_marked_update(alloc_s, fin_pre, t as int, r2 as int, n as int);
                            lemma_marked_le_col(
                                alloc_s,
                                fin_pre.update(t as int, true),
                                r2 as int,
                                n as int,
                            );
                            l.lemma_conservation(r2 as int);
                            assert(alloc_s[t as int] == l.allocated@[t as int]@);
                            assert(w == work_pre[r2 as int]);
                            assert(w + a <= l.total@[r2 as int]);
                        }
                        work[r2] = w + a;
                        r2 = r2 + 1;
                    }
                    progressed = true;
                    proof {
                        assert(work_int(work@) =~= add_row(work_int(work_pre), alloc_s[t as int]));
                        lemma_count_update(fin_pre, t as int);
                        assert forall|c: int| 0 <= c < m implies work@[c] == l.available@[c]
                            + marked_col_sum(alloc_s, fin@, c, n as int) by {
                            lemma_marked_update(alloc_s, fin_pre, t as int, c, n as int);
                        }
                        if completes(need_s, alloc_s, work_int(work_pre), fin_pre, n as nat) {
                            lemma_absorb(
                                need_s,
                                alloc_s,
                                work_int(work_pre),
                                fin_pre,
                                n as nat,
                                t as int,
                            );
                        }
                        if completes(need_s, alloc_s, work_int(work@), fin@, n as nat) {
                            lemma_step(
                                need_s,
                                alloc_s,
                                work_int(work_pre),
                                fin_pre,
                                (n + 1) as nat,
                                t as int,
                            );
                            lemma_count_le_len(fin_pre);
                            lemma_fuel_saturates(
                                need_s,
                                alloc_s,
                                work_int(work_pre),
                                fin_pre,
                                (n + 1) as nat,
                                n as nat,
                            );
                        }
                    }
                }
            }
            t = t + 1;
        }
    }

    let mut all = true;
    let mut t: usize = 0;
    while t < n
        invariant
            t <= n,
            n == fin@.len(),
            all <==> (forall|j: int| 0 <= j < t ==> fin@[j]),
        decreases n - t,
    {
        if !fin[t] {
            all = false;
        }
        t = t + 1;
    }

    proof {
        if all {
            assert(all_finished(fin@));
            assert(completes(need_s, alloc_s, work_int(work@), fin@, n as nat));
        } else {
            assert(!all_finished(fin@));
            if completes(need_s, alloc_s, work_int(work@), fin@, n as nat) {
                if n as nat == 0 {
                    assert(false);
                } else {
                    let u = choose|u: int|
                        0 <= u < fin@.len() && !fin@[u] && row_le(need_s[u], work_int(work@))
                            && completes(
                            need_s,
                            alloc_s,
                            add_row(work_int(work@), alloc_s[u]),
                            fin@.update(u, true),
                            (n - 1) as nat,
                        );
                    assert(false);
                }
            }
        }
    }
    all
}

} // verus!
