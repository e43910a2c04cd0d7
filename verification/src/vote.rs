//! Majority vote among the nearest neighbours.

use vstd::prelude::*;
use crate::neighbors::as_ints;
use crate::sample::labels_of;
use crate::sample::models;
use crate::sample::Sample;
use crate::sample::NUM_CLASSES;

verus! {

/// The number of entries of `order` whose sample carries the label `c`.
pub open spec fn votes_for(labels: Seq<u8>, order: Seq<int>, c: int) -> nat
    decreases order.len(),
{
    if order.len() == 0 {
        0
    } else {
        votes_for(labels, order.drop_last(), c) + if labels[order.last()] == c {
            1nat
        } else {
            0nat
        }
    }
}

/// The votes of the neighbours in `order`, one count for each class ID.
pub open spec fn tally(labels: Seq<u8>, order: Seq<int>) -> Seq<nat> {
    Seq::new(NUM_CLASSES as nat, |c: int| votes_for(labels, order, c))
}

/// The counts as mathematical naturals.
pub open spec fn as_counts(counts: Seq<usize>) -> Seq<nat> {
    Seq::new(counts.len(), |c: int| counts[c] as nat)
}

/// The lowest of the first `n` class IDs whose count is the highest among
/// them.
pub open spec fn leader(counts: Seq<nat>, n: nat) -> int
    decreases n,
{
    if n <= 1 {
        0
    } else {
        let before = leader(counts, (n - 1) as nat);
        if counts[n - 1] > counts[before] {
            n - 1
        } else {
            before
        }
    }
}

/// The winning class: the lowest class ID whose count is the highest.
pub open spec fn winner(counts: Seq<nat>) -> int {
    leader(counts, counts.len())
}

/// `w` has the highest count, and every lower class ID has a smaller one.
pub open spec fn is_lowest_maximum(counts: Seq<nat>, n: nat, w: int) -> bool {
    &&& 0 <= w < n
    &&& forall|c: int| 0 <= c < n ==> counts[c] <= counts[w]
    &&& forall|c: int| 0 <= c < w ==> counts[c] < counts[w]
}

/// The leader is the lowest class ID with the highest count.
pub proof fn lemma_leader_is_lowest_maximum(counts: Seq<nat>, n: nat)
    requires
        1 <= n <= counts.len(),
    ensures
        is_lowest_maximum(counts, n, leader(counts, n)),
    decreases n,
{
    if n > 1 {
        lemma_leader_is_lowest_maximum(counts, (n - 1) as nat);
    }
}

/// Only the leader is the lowest class ID with the highest count.
pub proof fn lemma_lowest_maximum_is_leader(counts: Seq<nat>, n: nat, w: int)
    requires
        1 <= n <= counts.len(),
        is_lowest_maximum(counts, n, w),
    ensures
        w == leader(counts, n),
{
    lemma_leader_is_lowest_maximum(counts, n);
    let l = leader(counts, n);
    if l < w {
        assert(counts[l] < counts[w]);
    } else if w < l {
        assert(counts[w] < counts[l]);
    }
}

/// No class gets more votes than there are neighbours.
pub proof fn lemma_votes_bounded(labels: Seq<u8>, order: Seq<int>, c: int)
    ensures
        votes_for(labels, order, c) <= order.len(),
    decreases order.len(),
{
    if order.len() > 0 {
        lemma_votes_bounded(labels, order.drop_last(), c);
    }
}

/// Counts, for each class ID, the neighbours that carry it.
pub fn tally_votes(samples: &Vec<Sample>, neighbors: &Vec<usize>) -> (counts: Vec<usize>)
    requires
        forall|q: int|
            0 <= q < neighbors@.len() ==> neighbors@[q] < samples@.len()
                && samples@[neighbors@[q] as int].label < NUM_CLASSES,
    ensures
        as_counts(counts@) == tally(labels_of(models(samples@)), as_ints(neighbors@)),
        counts@.len() == NUM_CLASSES,
{
    let ghost labels = labels_of(models(samples@));
    let ghost order = as_ints(neighbors@);
    let mut counts: Vec<usize> = Vec::new();
    let mut c: usize = 0;
    while c < NUM_CLASSES
        invariant
            c <= NUM_CLASSES,
            counts@.len() == c,
            forall|j: int| 0 <= j < c ==> counts@[j] == 0,
        decreases NUM_CLASSES - c,
    {
        counts.push(0);
        c = c + 1;
    }
    let m: usize = neighbors.len();
    let mut q: usize = 0;
    while q < m
        invariant
            q <= m,
            m == neighbors@.len(),
            order == as_ints(neighbors@),
            labels == labels_of(models(samples@)),
            counts@.len() == NUM_CLASSES,
            forall|p: int|
                0 <= p < neighbors@.len() ==> neighbors@[p] < samples@.len()
                    && samples@[neighbors@[p] as int].label < NUM_CLASSES,
            forall|j: int|
                0 <= j < NUM_CLASSES ==> counts@[j] == votes_for(labels, order.take(q as int), j),
        decreases m - q,
    {
        let label: u8 = samples[neighbors[q]].label;
        let slot: usize = label as usize;
        proof {
            let next = order.take(q + 1);
            assert(next.drop_last() =~= order.take(q as int));
            assert(next.last() == neighbors@[q as int]);
            assert(labels[next.last()] == label);
            lemma_votes_bounded(labels, next, slot as int);
        }
        let bumped: usize = counts[slot] + 1;
        counts.set(slot, bumped);
        q = q + 1;
    }
    proof {
        assert(order.take(m as int) =~= order);
        assert(as_counts(counts@) =~= tally(labels, order));
    }
    counts
}

/// Picks the winning class from the vote counts: the lowest class ID whose
/// count is the highest.
pub fn majority_label(counts: &Vec<usize>) -> (label: u8)
    requires
        1 <= counts@.len() <= 256,
    ensures
        label == winner(as_counts(counts@)),
        label < counts@.len(),
        forall|c: int| 0 <= c < counts@.len() ==> counts@[c] <= counts@[label as int],
        forall|c: int| 0 <= c < label ==> counts@[c] < counts@[label as int],
{
    let ghost model = as_counts(counts@);
    let n: usize = counts.len();
    let mut best: usize = 0;
    let mut c: usize = 1;
    while c < n
        invariant
            1 <= c <= n,
            n == counts@.len(),
            n <= 256,
            model == as_counts(counts@),
            best == leader(model, c as nat),
            0 <= best < c,
        decreases n - c,
    {
        if counts[c] > counts[best] {
            best = c;
        }
        c = c + 1;
    }
    proof {
        lemma_leader_is_lowest_maximum(model, n as nat);
        assert forall|c: int| 0 <= c < counts@.len() implies counts@[c] <= counts@[best as int] by {
            assert(model[c] <= model[best as int]);
        }
        assert forall|c: int| 0 <= c < best implies counts@[c] < counts@[best as int] by {
            assert(model[c] < model[best as int]);
        }
    }
    best as u8
}

} // verus!
