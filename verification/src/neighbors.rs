//! The order of the training samples by distance, and its first `k` entries.
//!
//! Samples are named by their position in the training set. The order is
//! stable: of two samples at the same distance, the one that stands earlier
//! in the training set comes first.

use vstd::prelude::*;

verus! {

/// The distances as mathematical naturals.
pub open spec fn as_nats(d: Seq<u128>) -> Seq<nat> {
    Seq::new(d.len(), |i: int| d[i] as nat)
}

/// The positions as mathematical integers.
pub open spec fn as_ints(order: Seq<usize>) -> Seq<int> {
    Seq::new(order.len(), |i: int| order[i] as int)
}

/// Every entry of `order` is a position below `n`.
pub open spec fn in_range(order: Seq<int>, n: int) -> bool {
    forall|q: int| 0 <= q < order.len() ==> 0 <= #[trigger] order[q] < n
}

/// Where a sample at distance `x` enters `order`: before the first entry
/// that is strictly farther than `x`, or at the end if there is none.
pub open spec fn insertion_point(d: Seq<nat>, order: Seq<int>, x: nat) -> nat
    decreases order.len(),
{
    if order.len() == 0 || d[order[0]] > x {
        0
    } else {
        1 + insertion_point(d, order.skip(1), x)
    }
}

/// `p` is the place before the first entry of `order` farther than `x`.
pub open spec fn splits_at(d: Seq<nat>, order: Seq<int>, x: nat, p: int) -> bool {
    &&& 0 <= p <= order.len()
    &&& forall|q: int| 0 <= q < p ==> d[#[trigger] order[q]] <= x
    &&& p < order.len() ==> d[order[p]] > x
}

/// `order` with sample `i` entered at its insertion point.
pub open spec fn stable_insert(d: Seq<nat>, order: Seq<int>, i: int) -> Seq<int> {
    order.insert(insertion_point(d, order, d[i]) as int, i)
}

/// The first `n` samples in ascending order of distance, ties in the order
/// of their positions.
pub open spec fn stable_order(d: Seq<nat>, n: nat) -> Seq<int>
    decreases n,
{
    if n == 0 {
        Seq::empty()
    } else {
        stable_insert(d, stable_order(d, (n - 1) as nat), n - 1)
    }
}

/// The first `k` entries of `order`, or all of it where it has fewer.
pub open spec fn first_k(order: Seq<int>, k: nat) -> Seq<int> {
    if k <= order.len() {
        order.take(k as int)
    } else {
        order
    }
}

/// The `k` samples nearest to the query, nearest first.
pub open spec fn nearest(d: Seq<nat>, k: nat) -> Seq<int> {
    first_k(stable_order(d, d.len()), k)
}

/// The insertion point splits the order as `splits_at` says.
pub proof fn lemma_insertion_point_splits(d: Seq<nat>, order: Seq<int>, x: nat)
    ensures
        splits_at(d, order, x, insertion_point(d, order, x) as int),
    decreases order.len(),
{
    if order.len() == 0 || d[order[0]] > x {
    } else {
        let rest = order.skip(1);
        lemma_insertion_point_splits(d, rest, x);
        let p = insertion_point(d, order, x) as int;
        assert forall|q: int| 0 <= q < p implies d[#[trigger] order[q]] <= x by {
            if q > 0 {
                assert(order[q] == rest[q - 1]);
            }
        }
        if p < order.len() {
            assert(order[p] == rest[p - 1]);
        }
    }
}

/// Only the insertion point splits the order so.
pub proof fn lemma_split_is_insertion_point(d: Seq<nat>, order: Seq<int>, x: nat, p: int)
    requires
        splits_at(d, order, x, p),
    ensures
        p == insertion_point(d, order, x),
{
    lemma_insertion_point_splits(d, order, x);
    let r = insertion_point(d, order, x) as int;
    if r < p {
        assert(d[order[r]] <= x);
    } else if p < r {
        assert(d[order[p]] <= x);
    }
}

/// Entering a sample and keeping the first `k` gives the same as keeping the
/// first `k`, entering the sample and keeping the first `k` again.
pub proof fn lemma_insert_first_k(d: Seq<nat>, order: Seq<int>, i: int, k: nat)
    ensures
        first_k(stable_insert(d, order, i), k) == first_k(
            stable_insert(d, first_k(order, k), i),
            k,
        ),
{
    let x = d[i];
    let p = insertion_point(d, order, x) as int;
    lemma_insertion_point_splits(d, order, x);
    let short = first_k(order, k);
    if k < order.len() {
        if p < k {
            assert(splits_at(d, short, x, p));
            lemma_split_is_insertion_point(d, short, x, p);
        } else {
            assert(splits_at(d, short, x, k as int));
            lemma_split_is_insertion_point(d, short, x, k as int);
        }
        assert(first_k(stable_insert(d, order, i), k) =~= first_k(
            stable_insert(d, short, i),
            k,
        ));
    } else {
        assert(short =~= order);
    }
}

/// The stable order of the first `n` samples names each of them once.
pub proof fn lemma_stable_order_len(d: Seq<nat>, n: nat)
    ensures
        stable_order(d, n).len() == n,
        in_range(stable_order(d, n), n as int),
    decreases n,
{
    if n > 0 {
        let prev = stable_order(d, (n - 1) as nat);
        lemma_stable_order_len(d, (n - 1) as nat);
        lemma_insertion_point_splits(d, prev, d[n - 1]);
        let p = insertion_point(d, prev, d[n - 1]) as int;
        let cur = stable_order(d, n);
        assert forall|q: int| 0 <= q < cur.len() implies 0 <= #[trigger] cur[q] < n by {
            if q < p {
                assert(cur[q] == prev[q]);
            } else if q > p {
                assert(cur[q] == prev[q - 1]);
            }
        }
    }
}

/// Sample `i` comes before sample `j`: it is nearer, or as near and earlier
/// in the training set.
pub open spec fn comes_before(d: Seq<nat>, i: int, j: int) -> bool {
    d[i] < d[j] || (d[i] == d[j] && i < j)
}

/// The stable order is ascending by distance, and samples at one distance
/// stand in the order of their positions.
pub proof fn lemma_stable_order_sorted(d: Seq<nat>, n: nat)
    requires
        n <= d.len(),
    ensures
        forall|a: int, b: int|
            0 <= a < b < n ==> comes_before(
                d,
                #[trigger] stable_order(d, n)[a],
                #[trigger] stable_order(d, n)[b],
            ),
    decreases n,
{
    if n > 0 {
        let prev = stable_order(d, (n - 1) as nat);
        let x = d[n - 1];
        let p = insertion_point(d, prev, x) as int;
        let cur = stable_order(d, n);
        lemma_stable_order_sorted(d, (n - 1) as nat);
        lemma_stable_order_len(d, (n - 1) as nat);
        lemma_insertion_point_splits(d, prev, x);
        assert(cur == prev.insert(p, n - 1));
        assert forall|a: int, b: int| 0 <= a < b < n implies comes_before(
            d,
            #[trigger] cur[a],
            #[trigger] cur[b],
        ) by {
            if b == p {
                assert(cur[a] == prev[a]);
                assert(d[prev[a]] <= x);
            } else if a == p {
                assert(cur[b] == prev[b - 1]);
                if b - 1 > p {
                    assert(comes_before(d, prev[p], prev[b - 1]));
                }
            } else {
                let a0 = if a < p { a } else { a - 1 };
                let b0 = if b < p { b } else { b - 1 };
                assert(cur[a] == prev[a0]);
                assert(cur[b] == prev[b0]);
                assert(comes_before(d, prev[a0], prev[b0]));
            }
        }
    }
}

/// Every one of the first `n` samples stands somewhere in their stable
/// order.
pub proof fn lemma_stable_order_complete(d: Seq<nat>, n: nat, i: int)
    requires
        0 <= i < n,
    ensures
        exists|q: int| 0 <= q < n && stable_order(d, n)[q] == i,
    decreases n,
{
    let prev = stable_order(d, (n - 1) as nat);
    let p = insertion_point(d, prev, d[n - 1]) as int;
    let cur = stable_order(d, n);
    lemma_stable_order_len(d, (n - 1) as nat);
    lemma_stable_order_len(d, n);
    lemma_insertion_point_splits(d, prev, d[n - 1]);
    assert(cur == prev.insert(p, n - 1));
    if i == n - 1 {
        assert(cur[p] == i);
    } else {
        lemma_stable_order_complete(d, (n - 1) as nat, i);
        let q0 = choose|q: int| 0 <= q < n - 1 && prev[q] == i;
        let q = if q0 < p { q0 } else { q0 + 1 };
        assert(cur[q] == i);
    }
}

/// A sample is among the `k` nearest, or each of them comes before it.
pub proof fn lemma_nearest_come_first(d: Seq<nat>, k: nat, j: int)
    requires
        0 <= j < d.len(),
    ensures
        nearest(d, k).contains(j) || forall|q: int|
            0 <= q < nearest(d, k).len() ==> comes_before(d, #[trigger] nearest(d, k)[q], j),
{
    let n = d.len();
    let order = stable_order(d, n);
    let near = nearest(d, k);
    lemma_stable_order_len(d, n);
    lemma_stable_order_sorted(d, n);
    lemma_stable_order_complete(d, n, j);
    let at = choose|q: int| 0 <= q < n && order[q] == j;
    if at < near.len() {
        assert(near[at] == j);
    } else {
        assert forall|q: int| 0 <= q < near.len() implies comes_before(
            d,
            #[trigger] near[q],
            j,
        ) by {
            assert(near[q] == order[q]);
            assert(comes_before(d, order[q], order[at]));
        }
    }
}

/// Finds the `k` samples nearest to the query from their distances: the
/// first `k` positions in ascending order of distance, ties in the order of
/// the positions. Where there are fewer than `k` samples, all are returned.
pub fn nearest_indices(distances: &Vec<u128>, k: usize) -> (best: Vec<usize>)
    ensures
        as_ints(best@) == nearest(as_nats(distances@), k as nat),
        best@.len() == if k <= distances@.len() { k as nat } else { distances@.len() },
        forall|q: int| 0 <= q < best@.len() ==> best@[q] < distances@.len(),
{
    let ghost d = as_nats(distances@);
    let n: usize = distances.len();
    let mut best: Vec<usize> = Vec::new();
    let mut i: usize = 0;
    proof {
        assert(as_ints(best@) =~= first_k(stable_order(d, 0), k as nat));
    }
    while i < n
        invariant
            i <= n,
            n == distances@.len(),
            d == as_nats(distances@),
            as_ints(best@) == first_k(stable_order(d, i as nat), k as nat),
            best@.len() <= k,
            best@.len() <= i,
            forall|q: int| 0 <= q < best@.len() ==> best@[q] < i,
        decreases n - i,
    {
        let x: u128 = distances[i];
        let mut p: usize = 0;
        while p < best.len() && distances[best[p]] <= x
            invariant
                p <= best@.len(),
                i < n,
                n == distances@.len(),
                d == as_nats(distances@),
                x == distances@[i as int],
                forall|q: int| 0 <= q < best@.len() ==> best@[q] < i,
                forall|q: int| 0 <= q < p ==> d[#[trigger] as_ints(best@)[q]] <= x,
            decreases best@.len() - p,
        {
            p = p + 1;
        }
        let ghost before = as_ints(best@);
        proof {
            assert(d[i as int] == x);
            if p < before.len() {
                assert(d[before[p as int]] == distances@[best@[p as int] as int]);
            }
            assert(splits_at(d, before, x as nat, p as int));
            lemma_split_is_insertion_point(d, before, x as nat, p as int);
            lemma_insert_first_k(d, stable_order(d, i as nat), i as int, k as nat);
            lemma_stable_order_len(d, i as nat);
        }
        best.insert(p, i);
        proof {
            assert(as_ints(best@) =~= stable_insert(d, before, i as int));
        }
        if best.len() > k {
            best.truncate(k);
        }
        proof {
            assert(as_ints(best@) =~= first_k(stable_insert(d, before, i as int), k as nat));
        }
        i = i + 1;
    }
    proof {
        lemma_stable_order_len(d, n as nat);
    }
    best
}

} // verus!
