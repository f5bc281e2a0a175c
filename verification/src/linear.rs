//! Brute-force k-nearest-neighbor search: computes the distance from the
//! query to every instance and keeps the k smallest.  No pruning; the
//! baseline and correctness oracle for the tree-based strategies.

use vstd::prelude::*;

use crate::dataset::Dataset;
use crate::results::{entry_ok, finish, has_index, is_knn_result};
use crate::tree::{valid_query, Tree};

verus! {

/// Scans every dataset index, then selects the `min(k, n)` nearest.
pub fn search<T, D: Dataset<T>>(t: &Tree, data: &D, q: &T, k: usize) -> (res: Vec<(usize, u64)>)
    requires
        t.wf(),
        valid_query(*t, *data, *q),
    ensures
        is_knn_result(*t, *data, *q, k as int, res@),
{
    let n = t.size;
    let mut entries: Vec<(usize, u64)> = Vec::new();
    let mut i: usize = 0;
    while i < n
        invariant
            i <= n,
            entries@.len() == i as int,
            forall|p: int|
                0 <= p < entries@.len() ==> (#[trigger] entries@[p]).0 == p as usize && entry_ok(
                    *t,
                    *data,
                    *q,
                    entries@[p],
                ),
        decreases n - i,
    {
        let d = data.query_distance(q, i);
        entries.push((i, d));
        i = i + 1;
    }
    proof {
        assert forall|x: usize| #[trigger]
            t.all_indices().contains(x) implies has_index(entries@, x) by {
            let j = choose|j: int| 0 <= j < t.all_indices().len() && t.all_indices()[j] == x;
            assert(t.wf_at(t.root as int));
            assert((t.all_indices()[j] as int) < t.size as int);
            assert(entries@[x as int].0 == x);
        }
    }
    finish(t, data, q, k, entries, Ghost(Set::empty()))
}

} // verus!
