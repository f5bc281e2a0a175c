//! The metric tree: a binary hierarchy of clusters over dataset indices,
//! plus the distance-bound primitives `d_min` / `d_max` derived from a
//! cluster's center distance and radius.
//!
//! The tree is built by an external collaborator and is read-only during
//! every search.  Its invariants ([`Tree::wf`] for the structure,
//! [`valid_query`] for the bound facts the metric guarantees about a given
//! query) are assumptions of every search, per the contract with the
//! builder: a tree that violates them may yield wrong results, never a
//! panic.

use vstd::prelude::*;

use crate::dataset::Dataset;

verus! {

/// One node of the metric tree, stored in the arena [`Tree::clusters`].
///
/// A cluster owns a set of dataset indices: the instances listed directly
/// (leaf) or the union of its two children's instances (internal).  The
/// `radius` bounds the distance from the `center` instance to every owned
/// instance.
pub struct Cluster {
    /// Dataset index of the designated center instance.
    pub center: usize,
    /// Maximum distance from the center to any owned instance.
    pub radius: u64,
    /// Number of owned instances, descendants included.
    pub cardinality: usize,
    /// Whether this cluster is a leaf.
    pub is_leaf: bool,
    /// Arena index of the left child (internal clusters only).
    pub left: usize,
    /// Arena index of the right child (internal clusters only).
    pub right: usize,
    /// Owned dataset indices (leaf clusters only).
    pub instances: Vec<usize>,
}

/// A metric tree: an arena of clusters, a root, and the cardinality of the
/// indexed dataset.  Children sit strictly after their parent in the arena.
pub struct Tree {
    /// All clusters; children of `clusters[c]` have arena indices `> c`.
    pub clusters: Vec<Cluster>,
    /// Arena index of the root cluster.
    pub root: usize,
    /// Cardinality of the indexed dataset.
    pub size: usize,
}

impl Tree {
    /// Number of clusters in the arena.
    pub open spec fn len(self) -> int {
        self.clusters@.len() as int
    }

    /// The dataset indices owned by cluster `c`: its instance list at a
    /// leaf, the concatenation of its children's owned indices otherwise.
    pub open spec fn owned(self, c: int) -> Seq<usize>
        decreases self.len() - c,
    {
        if 0 <= c < self.len() {
            let cl = self.clusters@[c];
            if cl.is_leaf {
                cl.instances@
            } else if c < cl.left < self.len() && c < cl.right < self.len() {
                self.owned(cl.left as int) + self.owned(cl.right as int)
            } else {
                Seq::empty()
            }
        } else {
            Seq::empty()
        }
    }

    /// Number of clusters in the subtree rooted at `c`; the termination
    /// measure of every traversal.
    pub open spec fn subtree_size(self, c: int) -> nat
        decreases self.len() - c,
    {
        if 0 <= c < self.len() {
            let cl = self.clusters@[c];
            if cl.is_leaf {
                1
            } else if c < cl.left < self.len() && c < cl.right < self.len() {
                1 + self.subtree_size(cl.left as int) + self.subtree_size(cl.right as int)
            } else {
                1
            }
        } else {
            0
        }
    }

    /// Structural well-formedness of the cluster at arena index `c`.
    pub open spec fn wf_at(self, c: int) -> bool {
        let cl = self.clusters@[c];
        &&& (cl.center as int) < self.size as int
        &&& self.owned(c).no_duplicates()
        &&& self.owned(c).contains(cl.center)
        &&& self.owned(c).len() == cl.cardinality as int
        &&& (forall|j: int|
            0 <= j < self.owned(c).len() ==> (#[trigger] self.owned(c)[j] as int) < self.size as int)
        &&& !cl.is_leaf ==> {
            &&& c < (cl.left as int) && (cl.left as int) < self.len()
            &&& c < (cl.right as int) && (cl.right as int) < self.len()
            &&& self.clusters@[cl.left as int].center == cl.center
        }
    }

    /// Well-formedness of the whole tree: every cluster is well formed and
    /// the root owns each dataset index exactly once.
    pub open spec fn wf(self) -> bool {
        &&& 0 <= (self.root as int) < self.len()
        &&& (forall|c: int| 0 <= c < self.len() ==> #[trigger] self.wf_at(c))
        &&& self.owned(self.root as int).len() == self.size as int
        &&& (forall|i: int|
            0 <= i < self.size as int ==> self.owned(self.root as int).contains(#[trigger] (i as usize)))
    }

    /// The dataset indices owned by the root: every instance, each once.
    pub open spec fn all_indices(self) -> Seq<usize> {
        self.owned(self.root as int)
    }
}

/// The per-query facts that the metric and the radius invariant guarantee:
/// for every cluster `c` and owned instance `x`, the distance from the query
/// to `x` is within `radius(c)` of the distance to `center(c)`, and all
/// query distances fit in `u64`.  This is exactly what makes `d_min` and
/// `d_max` certified bounds; it follows from the triangle inequality and is
/// owed by the collaborator that built the tree.
pub open spec fn valid_query<T, D: Dataset<T>>(t: Tree, data: D, q: T) -> bool {
    &&& data.card() == t.size as int
    &&& (forall|c: int, j: int|
        0 <= c < t.len() && 0 <= j < t.owned(c).len() ==> {
            let x = #[trigger] t.owned(c)[j] as int;
            let dc = data.dist(q, t.clusters@[c].center as int);
            &&& 0 <= data.dist(q, x) <= u64::MAX as int
            &&& data.dist(q, x) <= dc + t.clusters@[c].radius as int
            &&& dc <= data.dist(q, x) + t.clusters@[c].radius as int
        })
}

/// Lower bound on the distance from the query to any instance of a cluster
/// whose center is at distance `dc` and whose radius is `r`: never negative.
pub open spec fn spec_d_min(dc: int, r: int) -> int {
    if dc >= r {
        dc - r
    } else {
        0
    }
}

/// Upper bound on the distance from the query to any instance of a cluster
/// whose center is at distance `dc` and whose radius is `r`.  The sum
/// saturates at `u64::MAX`, which stays an upper bound because every query
/// distance fits in `u64`.
pub open spec fn spec_d_max(dc: int, r: int) -> int {
    if dc + r <= u64::MAX as int {
        dc + r
    } else {
        u64::MAX as int
    }
}

/// Computes `spec_d_min(dc, r)`: the certified lower bound.
pub fn d_min(dc: u64, r: u64) -> (b: u64)
    ensures
        b as int == spec_d_min(dc as int, r as int),
{
    if dc >= r {
        dc - r
    } else {
        0
    }
}

/// Computes `spec_d_max(dc, r)`: the certified upper bound.
pub fn d_max(dc: u64, r: u64) -> (b: u64)
    ensures
        b as int == spec_d_max(dc as int, r as int),
{
    if dc <= u64::MAX - r {
        dc + r
    } else {
        u64::MAX
    }
}

/// Monotonic bound validity: for every cluster `c` and every instance `x`
/// it owns, `d_min` is at most the true distance from the query to `x`, and
/// the true distance is at most `d_max`.
pub proof fn lemma_bounds_valid<T, D: Dataset<T>>(t: Tree, data: D, q: T, c: int, j: int)
    requires
        t.wf(),
        valid_query(t, data, q),
        0 <= c < t.len(),
        0 <= j < t.owned(c).len(),
    ensures
        spec_d_min(
            data.dist(q, t.clusters@[c].center as int),
            t.clusters@[c].radius as int,
        ) <= data.dist(q, t.owned(c)[j] as int),
        data.dist(q, t.owned(c)[j] as int) <= spec_d_max(
            data.dist(q, t.clusters@[c].center as int),
            t.clusters@[c].radius as int,
        ),
        0 <= data.dist(q, t.owned(c)[j] as int) <= u64::MAX as int,
{
    assert(t.wf_at(c));
    assert(t.owned(c)[j] == t.owned(c)[j]);
}

/// The center's own query distance is within `[0, u64::MAX]` and within the
/// cluster's bounds; it is owned by its cluster.
pub proof fn lemma_center_dist_in_range<T, D: Dataset<T>>(t: Tree, data: D, q: T, c: int)
    requires
        t.wf(),
        valid_query(t, data, q),
        0 <= c < t.len(),
    ensures
        0 <= data.dist(q, t.clusters@[c].center as int) <= u64::MAX as int,
{
    assert(t.wf_at(c));
    let ctr = t.clusters@[c].center;
    let j = choose|j: int| 0 <= j < t.owned(c).len() && t.owned(c)[j] == ctr;
    assert(t.owned(c)[j] == ctr);
}

} // verus!
