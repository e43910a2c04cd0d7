//! Labelled samples and their mathematical model.

use vstd::prelude::*;

verus! {

/// The number of classes. Class IDs run from 0 to `NUM_CLASSES - 1`.
pub const NUM_CLASSES: usize = 10;

/// A labelled feature vector. Feature values are fixed-point integers.
#[derive(Clone, Debug)]
pub struct Sample {
    pub label: u8,
    pub features: Vec<i32>,
}

/// What a sample is: its class ID and the sequence of its feature values.
pub struct SampleModel {
    pub label: u8,
    pub features: Seq<i32>,
}

impl View for Sample {
    type V = SampleModel;

    open spec fn view(&self) -> SampleModel {
        SampleModel { label: self.label, features: self.features@ }
    }
}

impl Sample {
    /// Builds a sample from its class ID and feature values.
    pub fn new(label: u8, features: Vec<i32>) -> (s: Sample)
        ensures
            s@.label == label,
            s@.features == features@,
    {
        Sample { label, features }
    }

    /// Whether the label is one of the class IDs.
    pub fn has_valid_label(&self) -> (ok: bool)
        ensures
            ok == (self@.label < NUM_CLASSES),
    {
        self.label < 10
    }
}

/// The models of a sequence of samples, in the same order.
pub open spec fn models(samples: Seq<Sample>) -> Seq<SampleModel> {
    Seq::new(samples.len(), |i: int| samples[i]@)
}

/// The labels of a training set, by position.
pub open spec fn labels_of(training: Seq<SampleModel>) -> Seq<u8> {
    Seq::new(training.len(), |i: int| training[i].label)
}

/// Every label of the training set is a class ID.
pub open spec fn labels_valid(training: Seq<SampleModel>) -> bool {
    forall|i: int| 0 <= i < training.len() ==> (#[trigger] training[i]).label < NUM_CLASSES
}

/// Every sample of the training set has as many features as the query.
pub open spec fn dims_match(training: Seq<SampleModel>, query: Seq<i32>) -> bool {
    forall|i: int|
        0 <= i < training.len() ==> (#[trigger] training[i]).features.len() == query.len()
}

} // verus!
