//! The dataset abstraction: an indexable collection of instances together
//! with the query side of a metric.
//!
//! A search never mutates the dataset; all it needs is the number of
//! instances and the distance from the query to any instance by index.
//! Distances are non-negative integers (`u64`); a metric with fractional
//! values is expected to be scaled to integers by the collaborator that
//! builds the dataset and the tree.

use vstd::prelude::*;

verus! {

/// An immutable dataset of `card()` instances and a distance function from a
/// query value to any instance.  The metric itself (symmetry, triangle
/// inequality) lives with the collaborator that built the tree; the search
/// algorithms consume it only through the per-query bound facts stated by
/// [`crate::tree::valid_query`].
pub trait Dataset<T> {
    /// The number of instances, as a mathematical integer.
    spec fn card(&self) -> int;

    /// The distance from query `q` to the instance at index `i`.
    spec fn dist(&self, q: T, i: int) -> int;

    /// The number of instances.
    fn cardinality(&self) -> (n: usize)
        ensures
            n as int == self.card(),
    ;

    /// Computes the distance from `q` to the instance at index `i`.
    fn query_distance(&self, q: &T, i: usize) -> (d: u64)
        requires
            0 <= (i as int) && (i as int) < self.card(),
        ensures
            d as int == self.dist(*q, i as int),
    ;
}

/// Points on a line, with absolute difference as the metric.  The simplest
/// metric space; it exercises every search strategy in the tests.
pub struct LineDataset {
    /// The position of each instance on the line.
    pub points: Vec<u64>,
}

impl Dataset<u64> for LineDataset {
    open spec fn card(&self) -> int {
        self.points@.len() as int
    }

    open spec fn dist(&self, q: u64, i: int) -> int {
        if self.points@[i] >= q {
            self.points@[i] - q
        } else {
            q - self.points@[i]
        }
    }

    fn cardinality(&self) -> (n: usize) {
        self.points.len()
    }

    fn query_distance(&self, q: &u64, i: usize) -> (d: u64) {
        let p = self.points[i];
        if p >= *q {
            p - *q
        } else {
            *q - p
        }
    }
}

} // verus!
