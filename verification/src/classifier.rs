//! The classifier: a training set, a neighbour count, and the queries.

use vstd::prelude::*;
use crate::distance::squared_distance;
use crate::distance::squared_euclidean_distance;
use crate::neighbors::as_nats;
use crate::neighbors::nearest;
use crate::neighbors::nearest_indices;
use crate::sample::dims_match;
use crate::sample::labels_of;
use crate::sample::labels_valid;
use crate::sample::models;
use crate::sample::Sample;
use crate::sample::SampleModel;
use crate::sample::NUM_CLASSES;
use crate::vote::majority_label;
use crate::vote::tally;
use crate::vote::tally_votes;
use crate::vote::winner;

verus! {

/// A nearest-neighbour classifier.
pub struct KNNClassifier {
    train_data: Vec<Sample>,
    k: usize,
}

/// What a classifier is: its training set in order, and its neighbour count.
pub struct ClassifierModel {
    pub training: Seq<SampleModel>,
    pub k: nat,
}

/// Why a query was not answered.
#[derive(Clone, Copy, Debug, PartialEq, Eq, Structural)]
pub enum PredictError {
    /// The training set is empty or the neighbour count is zero.
    DegenerateInput,
    /// The neighbour count exceeds the training set, a sample's dimension
    /// differs from the query's, or a label is no class ID.
    PreconditionViolation,
}

/// The distance of each training sample to the query, by position.
pub open spec fn distances_to(training: Seq<SampleModel>, query: Seq<i32>) -> Seq<nat> {
    Seq::new(training.len(), |i: int| squared_distance(training[i].features, query))
}

/// The class of the query: the winner of the vote among the `k` training
/// samples nearest to it.
pub open spec fn classify(training: Seq<SampleModel>, k: nat, query: Seq<i32>) -> int {
    winner(tally(labels_of(training), nearest(distances_to(training, query), k)))
}

/// The training set is empty or no neighbour is consulted.
pub open spec fn degenerate(m: ClassifierModel) -> bool {
    m.k == 0 || m.training.len() == 0
}

/// The classifier can answer the query: it consults at least one neighbour
/// and no more than it has, and the data are consistent.
pub open spec fn answerable(m: ClassifierModel, query: Seq<i32>) -> bool {
    &&& 1 <= m.k <= m.training.len()
    &&& dims_match(m.training, query)
    &&& labels_valid(m.training)
}

impl View for KNNClassifier {
    type V = ClassifierModel;

    closed spec fn view(&self) -> ClassifierModel {
        ClassifierModel { training: models(self.train_data@), k: self.k as nat }
    }
}

impl KNNClassifier {
    /// A classifier that consults `k` neighbours, with an empty training set.
    pub fn new(k: usize) -> (c: KNNClassifier)
        ensures
            c@.k == k,
            c@.training.len() == 0,
    {
        KNNClassifier { train_data: Vec::new(), k }
    }

    /// Replaces the training set with `samples`, in the given order.
    pub fn fit(&mut self, samples: Vec<Sample>)
        ensures
            final(self)@.training == models(samples@),
            final(self)@.k == old(self)@.k,
    {
        self.train_data = samples;
    }

    /// The neighbour count.
    pub fn k(&self) -> (k: usize)
        ensures
            k == self@.k,
    {
        self.k
    }

    /// The size of the training set.
    pub fn training_len(&self) -> (n: usize)
        ensures
            n == self@.training.len(),
    {
        self.train_data.len()
    }

    /// The class of `features` by majority vote among the `k` nearest
    /// training samples. Samples at equal distance count in the order of the
    /// training set; of classes with equal votes the lowest ID wins. The
    /// label is a function of the training set, the neighbour count and the
    /// query alone: the same query gets the same label every time.
    pub fn predict(&self, features: &[i32]) -> (label: u8)
        requires
            self@.k <= self@.training.len(),
            labels_valid(self@.training),
        ensures
            label == classify(self@.training, self@.k, features@),
            label < NUM_CLASSES,
    {
        let n: usize = self.train_data.len();
        let mut distances: Vec<u128> = Vec::new();
        let mut i: usize = 0;
        while i < n
            invariant
                i <= n,
                n == self.train_data@.len(),
                distances@.len() == i,
                forall|j: int|
                    0 <= j < i ==> distances@[j] == squared_distance(
                        self.train_data@[j].features@,
                        features@,
                    ),
            decreases n - i,
        {
            let sample: &Sample = &self.train_data[i];
            let d: u128 = squared_euclidean_distance(sample.features.as_slice(), features);
            distances.push(d);
            i = i + 1;
        }
        proof {
            assert(as_nats(distances@) =~= distances_to(self@.training, features@));
        }
        let best: Vec<usize> = nearest_indices(&distances, self.k);
        proof {
            assert forall|q: int| 0 <= q < best@.len() implies best@[q] < self.train_data@.len()
                && self.train_data@[best@[q] as int].label < NUM_CLASSES by {
                let s = best@[q] as int;
                assert(self@.training[s].label < NUM_CLASSES);
            }
        }
        let counts: Vec<usize> = tally_votes(&self.train_data, &best);
        majority_label(&counts)
    }

    /// Answers the query where the classifier can, and says why where it
    /// cannot.
    pub fn try_predict(&self, features: &[i32]) -> (r: Result<u8, PredictError>)
        ensures
            degenerate(self@) ==> r == Err::<u8, PredictError>(PredictError::DegenerateInput),
            !degenerate(self@) && !answerable(self@, features@) ==> r == Err::<u8, PredictError>(
                PredictError::PreconditionViolation,
            ),
            answerable(self@, features@) ==> r == Ok::<u8, PredictError>(
                classify(self@.training, self@.k, features@) as u8,
            ),
    {
        let n: usize = self.train_data.len();
        if self.k == 0 || n == 0 {
            return Err(PredictError::DegenerateInput);
        }
        if self.k > n {
            return Err(PredictError::PreconditionViolation);
        }
        let mut i: usize = 0;
        while i < n
            invariant
                i <= n,
                n == self.train_data@.len(),
                1 <= self.k <= n,
                forall|j: int|
                    0 <= j < i ==> self.train_data@[j].features@.len() == features@.len()
                        && self.train_data@[j].label < NUM_CLASSES,
            decreases n - i,
        {
            let sample: &Sample = &self.train_data[i];
            if sample.features.len() != features.len() || !sample.has_valid_label() {
                proof {
                    let bad = self@.training[i as int];
                    assert(bad.features.len() != features@.len() || !(bad.label < NUM_CLASSES));
                }
                return Err(PredictError::PreconditionViolation);
            }
            i = i + 1;
        }
        proof {
            let training = self@.training;
            assert forall|j: int| 0 <= j < training.len() implies (#[trigger] training[j]).label
                < NUM_CLASSES && training[j].features.len() == features@.len() by {
                assert(training[j] == self.train_data@[j]@);
            }
        }
        Ok(self.predict(features))
    }

    /// Answers every query, in the order of the queries.
    pub fn predict_all(&self, queries: &Vec<Vec<i32>>) -> (labels: Vec<u8>)
        requires
            self@.k <= self@.training.len(),
            labels_valid(self@.training),
        ensures
            labels@.len() == queries@.len(),
            forall|i: int|
                0 <= i < queries@.len() ==> labels@[i] == classify(
                    self@.training,
                    self@.k,
                    queries@[i]@,
                ),
    {
        let n: usize = queries.len();
        let mut labels: Vec<u8> = Vec::new();
        let mut i: usize = 0;
        while i < n
            invariant
                i <= n,
                n == queries@.len(),
                self@.k <= self@.training.len(),
                labels_valid(self@.training),
                labels@.len() == i,
                forall|j: int|
                    0 <= j < i ==> labels@[j] == classify(self@.training, self@.k, queries@[j]@),
            decreases n - i,
        {
            let label: u8 = self.predict(queries[i].as_slice());
            labels.push(label);
            i = i + 1;
        }
        labels
    }
}

} // verus!
