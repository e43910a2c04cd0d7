//! Nearest-neighbour classification of fixed-point feature vectors.
//!
//! A classifier holds a labelled training set and a neighbour count `k`.
//! A query is answered by majority vote among the `k` training samples that
//! are closest to it in Euclidean distance. Feature values are fixed-point
//! integers, so every distance is computed exactly.

pub mod classifier;
pub mod distance;
pub mod laws;
pub mod neighbors;
pub mod reorder;
pub mod sample;
pub mod vote;
