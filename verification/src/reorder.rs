//! Reordering the training set: where no two samples are equally far from
//! the query, the class of the query does not depend on their order.

use vstd::prelude::*;
use crate::classifier::classify;
use crate::classifier::distances_to;
use crate::distance::squared_distance;
use crate::neighbors::comes_before;
use crate::neighbors::first_k;
use crate::neighbors::insertion_point;
use crate::neighbors::lemma_insertion_point_splits;
use crate::neighbors::lemma_stable_order_len;
use crate::neighbors::lemma_stable_order_sorted;
use crate::neighbors::nearest;
use crate::neighbors::stable_order;
use crate::sample::labels_of;
use crate::sample::SampleModel;
use crate::sample::NUM_CLASSES;
use crate::vote::tally;
use crate::vote::votes_for;

verus! {

/// No two samples of the training set are equally far from the query.
pub open spec fn no_distance_ties(training: Seq<SampleModel>, query: Seq<i32>) -> bool {
    forall|i: int, j: int|
        0 <= i < j < training.len() ==> squared_distance(
            (#[trigger] training[i]).features,
            query,
        ) != squared_distance((#[trigger] training[j]).features, query)
}

/// The first `n` training samples in their stable order by distance.
pub open spec fn ordered_samples(training: Seq<SampleModel>, query: Seq<i32>, n: nat) -> Seq<
    SampleModel,
> {
    Seq::new(n, |q: int| training[stable_order(distances_to(training, query), n)[q]])
}

/// Each sample is at most as far from the query as those after it.
pub open spec fn ascending(s: Seq<SampleModel>, query: Seq<i32>) -> bool {
    forall|a: int, b: int|
        0 <= a < b < s.len() ==> squared_distance((#[trigger] s[a]).features, query)
            <= squared_distance((#[trigger] s[b]).features, query)
}

/// Each sample is nearer to the query than those after it.
pub open spec fn strictly_ascending(s: Seq<SampleModel>, query: Seq<i32>) -> bool {
    forall|a: int, b: int|
        0 <= a < b < s.len() ==> squared_distance((#[trigger] s[a]).features, query)
            < squared_distance((#[trigger] s[b]).features, query)
}

/// The samples in stable order are the training samples, each as often as
/// it occurs there.
pub proof fn lemma_ordered_samples_contents(training: Seq<SampleModel>, query: Seq<i32>, n: nat)
    requires
        n <= training.len(),
    ensures
        ordered_samples(training, query, n).to_multiset() == training.take(n as int).to_multiset(),
    decreases n,
{
    let d = distances_to(training, query);
    if n == 0 {
        assert(ordered_samples(training, query, n) =~= training.take(0));
    } else {
        let m = (n - 1) as nat;
        let prev = stable_order(d, m);
        let p = insertion_point(d, prev, d[n - 1]) as int;
        lemma_ordered_samples_contents(training, query, m);
        lemma_stable_order_len(d, m);
        lemma_insertion_point_splits(d, prev, d[n - 1]);
        assert(stable_order(d, n) == prev.insert(p, n - 1));
        let before = ordered_samples(training, query, m);
        let last = training[n - 1];
        assert(ordered_samples(training, query, n) =~= before.insert(p, last));
        assert(training.take(n as int) =~= training.take(m as int).push(last));
        vstd::seq_lib::to_multiset_insert(before, p, last);
        vstd::seq_lib::to_multiset_build(training.take(m as int), last);
    }
}

/// The samples in stable order are ascending by distance, and strictly so
/// where no two samples are equally far.
pub proof fn lemma_ordered_samples_ascending(training: Seq<SampleModel>, query: Seq<i32>)
    ensures
        ascending(ordered_samples(training, query, training.len()), query),
        no_distance_ties(training, query) ==> strictly_ascending(
            ordered_samples(training, query, training.len()),
            query,
        ),
{
    let d = distances_to(training, query);
    let n = training.len();
    let order = stable_order(d, n);
    let s = ordered_samples(training, query, n);
    lemma_stable_order_sorted(d, n);
    lemma_stable_order_len(d, n);
    assert forall|a: int, b: int| 0 <= a < b < s.len() implies squared_distance(
        (#[trigger] s[a]).features,
        query,
    ) <= squared_distance((#[trigger] s[b]).features, query) by {
        assert(comes_before(d, order[a], order[b]));
    }
    if no_distance_ties(training, query) {
        assert forall|a: int, b: int| 0 <= a < b < s.len() implies squared_distance(
            (#[trigger] s[a]).features,
            query,
        ) < squared_distance((#[trigger] s[b]).features, query) by {
            assert(comes_before(d, order[a], order[b]));
            let i = order[a];
            let j = order[b];
            if d[i] == d[j] {
                assert(i < j);
                assert(squared_distance(training[i].features, query) != squared_distance(
                    training[j].features,
                    query,
                ));
            }
        }
    }
}

/// A strictly ascending sequence and an ascending one with the same
/// contents are the same sequence.
pub proof fn lemma_ascending_unique(x: Seq<SampleModel>, y: Seq<SampleModel>, query: Seq<i32>)
    requires
        strictly_ascending(x, query),
        ascending(y, query),
        x.to_multiset() == y.to_multiset(),
    ensures
        x == y,
    decreases x.len(),
{
    x.to_multiset_ensures();
    y.to_multiset_ensures();
    if x.len() == 0 {
        assert(x =~= y);
    } else {
        assert(y.contains(y[0]));
        assert(y.to_multiset().count(y[0]) > 0);
        assert(x.to_multiset().count(y[0]) > 0);
        assert(x.contains(y[0]));
        let i = choose|i: int| 0 <= i < x.len() && x[i] == y[0];
        assert(x.contains(x[0]));
        assert(x.to_multiset().count(x[0]) > 0);
        assert(y.to_multiset().count(x[0]) > 0);
        assert(y.contains(x[0]));
        let j = choose|j: int| 0 <= j < y.len() && y[j] == x[0];
        if i > 0 {
            assert(squared_distance(x[0].features, query) < squared_distance(
                x[i].features,
                query,
            ));
            if j > 0 {
                assert(squared_distance(y[0].features, query) <= squared_distance(
                    y[j].features,
                    query,
                ));
            }
        }
        assert(x[0] == y[0]);
        let xs = x.drop_first();
        let ys = y.drop_first();
        assert(xs =~= x.remove(0));
        assert(ys =~= y.remove(0));
        assert(xs.to_multiset() == ys.to_multiset());
        assert forall|a: int, b: int| 0 <= a < b < xs.len() implies squared_distance(
            (#[trigger] xs[a]).features,
            query,
        ) < squared_distance((#[trigger] xs[b]).features, query) by {
            assert(xs[a] == x[a + 1] && xs[b] == x[b + 1]);
        }
        assert forall|a: int, b: int| 0 <= a < b < ys.len() implies squared_distance(
            (#[trigger] ys[a]).features,
            query,
        ) <= squared_distance((#[trigger] ys[b]).features, query) by {
            assert(ys[a] == y[a + 1] && ys[b] == y[b + 1]);
        }
        lemma_ascending_unique(xs, ys, query);
        assert(x.len() == y.len());
        assert forall|q: int| 0 <= q < x.len() implies x[q] == y[q] by {
            if q > 0 {
                assert(x[q] == xs[q - 1]);
                assert(y[q] == ys[q - 1]);
            }
        }
        assert(x =~= y);
    }
}

/// The votes depend only on the labels met along the order.
pub proof fn lemma_votes_by_labels(
    labels1: Seq<u8>,
    order1: Seq<int>,
    labels2: Seq<u8>,
    order2: Seq<int>,
    c: int,
)
    requires
        order1.len() == order2.len(),
        forall|q: int| 0 <= q < order1.len() ==> labels1[order1[q]] == labels2[order2[q]],
    ensures
        votes_for(labels1, order1, c) == votes_for(labels2, order2, c),
    decreases order1.len(),
{
    if order1.len() > 0 {
        let rest1 = order1.drop_last();
        let rest2 = order2.drop_last();
        assert forall|q: int| 0 <= q < rest1.len() implies labels1[rest1[q]]
            == labels2[rest2[q]] by {
            assert(rest1[q] == order1[q] && rest2[q] == order2[q]);
        }
        lemma_votes_by_labels(labels1, rest1, labels2, rest2, c);
        assert(labels1[order1[order1.len() - 1]] == labels2[order2[order1.len() - 1]]);
    }
}

/// Two training sets with the same contents, in whatever order, give a
/// query the same class, provided that no two samples are equally far from
/// the query.
pub proof fn lemma_reordering_keeps_class(
    training: Seq<SampleModel>,
    reordered: Seq<SampleModel>,
    k: nat,
    query: Seq<i32>,
)
    requires
        training.to_multiset() == reordered.to_multiset(),
        no_distance_ties(training, query),
    ensures
        classify(training, k, query) == classify(reordered, k, query),
{
    let n = training.len();
    training.to_multiset_ensures();
    reordered.to_multiset_ensures();
    assert(reordered.len() == n);
    let d1 = distances_to(training, query);
    let d2 = distances_to(reordered, query);
    let s1 = ordered_samples(training, query, n);
    let s2 = ordered_samples(reordered, query, n);
    lemma_ordered_samples_contents(training, query, n);
    lemma_ordered_samples_contents(reordered, query, n);
    assert(training.take(n as int) =~= training);
    assert(reordered.take(n as int) =~= reordered);
    lemma_ordered_samples_ascending(training, query);
    lemma_ordered_samples_ascending(reordered, query);
    lemma_ascending_unique(s1, s2, query);
    lemma_stable_order_len(d1, n);
    lemma_stable_order_len(d2, n);
    let order1 = nearest(d1, k);
    let order2 = nearest(d2, k);
    let labels1 = labels_of(training);
    let labels2 = labels_of(reordered);
    assert(order1 == first_k(stable_order(d1, n), k));
    assert(order2 == first_k(stable_order(d2, n), k));
    assert forall|q: int| 0 <= q < order1.len() implies labels1[order1[q]]
        == labels2[order2[q]] by {
        assert(order1[q] == stable_order(d1, n)[q]);
        assert(order2[q] == stable_order(d2, n)[q]);
        assert(s1[q] == training[order1[q]]);
        assert(s2[q] == reordered[order2[q]]);
    }
    assert forall|c: int| 0 <= c < NUM_CLASSES implies votes_for(labels1, order1, c) == votes_for(
        labels2,
        order2,
        c,
    ) by {
        lemma_votes_by_labels(labels1, order1, labels2, order2, c);
    }
    assert(tally(labels1, order1) =~= tally(labels2, order2));
}

} // verus!
