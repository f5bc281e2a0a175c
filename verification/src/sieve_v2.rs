//! Sieve search, second variant: each surviving cluster's center is split
//! into its own resolved instance grain, so later thresholds rest on more
//! exact distances.  The working set is seeded with the root's center as an
//! instance grain plus the remainder of the root cluster.

use vstd::prelude::*;

use crate::dataset::Dataset;
use crate::grains::{seed_root_split, sieve_core};
use crate::results::{is_knn_result, min_k};
use crate::tree::{valid_query, Tree};

verus! {

/// Threshold-sieve k-nearest-neighbor search with separate center grains.
pub fn search<T, D: Dataset<T>>(t: &Tree, data: &D, q: &T, k: usize) -> (res: Vec<(usize, u64)>)
    requires
        t.wf(),
        valid_query(*t, *data, *q),
    ensures
        is_knn_result(*t, *data, *q, k as int, res@),
{
    let n = t.size;
    if k == 0 || n == 0 {
        let res: Vec<(usize, u64)> = Vec::new();
        proof {
            assert(min_k(k as int, t.size as int) == 0);
        }
        return res;
    }
    let seed = seed_root_split(t, data, q);
    sieve_core(t, data, q, k, seed)
}

} // verus!
