//! Sieve search, first variant: cluster centers are not treated separately.
//! The working set is seeded with the root cluster as a single grain.

use vstd::prelude::*;

use crate::dataset::Dataset;
use crate::grains::{seed_root, sieve_core};
use crate::results::{is_knn_result, min_k};
use crate::tree::{valid_query, Tree};

verus! {

/// Threshold-sieve k-nearest-neighbor search without separate center
/// grains.
pub fn search<T, D: Dataset<T>>(t: &Tree, data: &D, q: &T, k: usize) -> (res: Vec<(usize, u64)>)
    requires
        t.wf(),
        valid_query(*t, *data, *q),
    ensures
        is_knn_result(*t, *data, *q, k as int, res@),
{
    let n = t.size;
    if k == 0 || n == 0 {
        let res: Vec<(usize, u64)> = Vec::new();
        proof {
            assert(min_k(k as int, t.size as int) == 0);
        }
        return res;
    }
    let seed = seed_root(t, data, q);
    sieve_core(t, data, q, k, seed)
}

} // verus!
