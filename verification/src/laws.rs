//! What holds of every classification.

use vstd::prelude::*;
use crate::classifier::classify;
use crate::classifier::distances_to;
use crate::distance::lemma_distance_zero_iff_equal;
use crate::neighbors::insertion_point;
use crate::neighbors::lemma_insertion_point_splits;
use crate::neighbors::lemma_stable_order_len;
use crate::neighbors::nearest;
use crate::neighbors::stable_order;
use crate::sample::dims_match;
use crate::sample::labels_of;
use crate::sample::labels_valid;
use crate::sample::SampleModel;
use crate::sample::NUM_CLASSES;
use crate::vote::lemma_leader_is_lowest_maximum;
use crate::vote::lemma_lowest_maximum_is_leader;
use crate::vote::tally;
use crate::vote::votes_for;

verus! {

/// Whatever the training set, the neighbour count and the query, the class
/// of the query is one of the class IDs.
pub proof fn lemma_class_in_range(training: Seq<SampleModel>, k: nat, query: Seq<i32>)
    ensures
        0 <= classify(training, k, query) < NUM_CLASSES,
{
    let counts = tally(labels_of(training), nearest(distances_to(training, query), k));
    lemma_leader_is_lowest_maximum(counts, counts.len());
}

/// A sample that is strictly nearer than every other of the first `n`
/// stands first in their stable order.
pub proof fn lemma_strict_minimum_is_first(d: Seq<nat>, n: nat, i: int)
    requires
        0 <= i < n <= d.len(),
        forall|j: int| 0 <= j < n && j != i ==> d[i] < d[j],
    ensures
        stable_order(d, n).len() == n,
        stable_order(d, n)[0] == i,
    decreases n,
{
    let prev = stable_order(d, (n - 1) as nat);
    lemma_stable_order_len(d, (n - 1) as nat);
    lemma_stable_order_len(d, n);
    if n - 1 == i {
        if prev.len() > 0 {
            let j = prev[0];
            assert(0 <= j < n - 1);
            assert(d[i] < d[j]);
        }
        assert(insertion_point(d, prev, d[i]) == 0);
        assert(stable_order(d, n) == prev.insert(0, i));
    } else {
        lemma_strict_minimum_is_first(d, (n - 1) as nat, i);
        assert(prev[0] == i);
        assert(d[prev[0]] <= d[n - 1]);
        let p = insertion_point(d, prev, d[n - 1]) as int;
        assert(p >= 1);
        lemma_insertion_point_splits(d, prev, d[n - 1]);
        assert(stable_order(d, n) == prev.insert(p, n - 1));
    }
}

/// With one neighbour consulted, a query that equals exactly one training
/// sample, feature for feature, gets that sample's label.
pub proof fn lemma_identity(training: Seq<SampleModel>, query: Seq<i32>, i: int)
    requires
        labels_valid(training),
        dims_match(training, query),
        0 <= i < training.len(),
        training[i].features == query,
        forall|j: int| 0 <= j < training.len() && j != i ==> training[j].features != query,
    ensures
        classify(training, 1, query) == training[i].label,
{
    let d = distances_to(training, query);
    let labels = labels_of(training);
    lemma_distance_zero_iff_equal(training[i].features, query);
    assert forall|j: int| 0 <= j < d.len() && j != i implies d[i] < d[j] by {
        lemma_distance_zero_iff_equal(training[j].features, query);
    }
    lemma_strict_minimum_is_first(d, d.len(), i);
    let order = nearest(d, 1);
    assert(order =~= seq![i]);
    let counts = tally(labels, order);
    let w = training[i].label as int;
    assert(order.drop_last() =~= Seq::<int>::empty());
    assert forall|c: int| 0 <= c < NUM_CLASSES implies counts[c] == if c == w {
        1nat
    } else {
        0nat
    } by {
        assert(votes_for(labels, order.drop_last(), c) == 0);
        assert(order.last() == i);
    }
    assert(training[i].label < NUM_CLASSES);
    lemma_lowest_maximum_is_leader(counts, counts.len(), w);
}

} // verus!
