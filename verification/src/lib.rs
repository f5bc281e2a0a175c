//! Exact k-nearest-neighbor search over a hierarchical metric tree.
//!
//! The dataset and the tree are external collaborators: the tree is built
//! elsewhere and is read-only here, and the dataset supplies the metric
//! through the [`dataset::Dataset`] trait.  This crate provides the search
//! strategies that traverse the tree: a brute-force baseline, an
//! adaptive-radius repeated range search, two sieve (threshold) variants,
//! and a two-queue expanding-threshold branch and bound.  Every strategy
//! is proved to return the true k nearest neighbors, sorted ascending by
//! distance ([`results::is_knn_result`]).
#![verifier::loop_isolation(false)]

pub mod dataset;
pub mod expanding_threshold;
pub mod grains;
pub mod linear;
pub mod repeated_rnn;
pub mod results;
pub mod sieve_v1;
pub mod sieve_v2;
pub mod tree;

use vstd::prelude::*;

use crate::dataset::Dataset;
use crate::results::is_knn_result;
use crate::tree::{valid_query, Tree};

verus! {

/// The algorithm to use for k-nearest-neighbor search.
///
/// The default is `RepeatedRnn`.  Every variant returns the same distances
/// for the same input (see [`results::lemma_knn_distances_unique`]); they
/// differ in how much of the tree they visit.
#[derive(Clone, Copy, Debug)]
pub enum Algorithm {
    /// Linear search over the entire dataset: no pruning, the baseline.
    Linear,
    /// Repeated range search, growing the radius until enough neighbors
    /// are found; the growth factor follows a local fractal dimension
    /// surrogate and is capped at 2.
    RepeatedRnn,
    /// The sieve: iterative threshold pruning over cluster grains, with no
    /// separate grains for cluster centers.
    SieveV1,
    /// The sieve with each surviving cluster's center split into its own
    /// resolved grain, which tightens later thresholds.
    SieveV2,
    /// Two priority queues, candidates by lower bound and hits by exact
    /// distance, and an expanding threshold.
    ExpandingThreshold,
}

impl Default for Algorithm {
    /// The default algorithm is `RepeatedRnn`.
    fn default() -> (a: Self)
        ensures
            a == Algorithm::RepeatedRnn,
    {
        Self::RepeatedRnn
    }
}

impl Algorithm {
    /// Searches for the k nearest neighbors of a query.
    ///
    /// Returns pairs of (instance index, distance to the query), sorted
    /// ascending by distance: exactly `min(k, n)` of them, distinct, and
    /// such that no other instance is closer than the last returned one.
    /// The tree is read-only and the call keeps no state, so identical
    /// calls return identical results.
    pub fn search<T, D: Dataset<T>>(self, tree: &Tree, data: &D, query: &T, k: usize) -> (res: Vec<
        (usize, u64),
    >)
        requires
            tree.wf(),
            valid_query(*tree, *data, *query),
        ensures
            is_knn_result(*tree, *data, *query, k as int, res@),
    {
        match self {
            Self::Linear => crate::linear::search(tree, data, query, k),
            Self::RepeatedRnn => crate::repeated_rnn::search(tree, data, query, k),
            Self::SieveV1 => crate::sieve_v1::search(tree, data, query, k),
            Self::SieveV2 => crate::sieve_v2::search(tree, data, query, k),
            Self::ExpandingThreshold => crate::expanding_threshold::search(tree, data, query, k),
        }
    }
}

} // verus!
