//! The sieve searches' working set: *grains*, and the shared sieve engine.
//!
//! A grain is either an unresolved cluster (distance known only as the
//! `[d_min, d_max]` bound, weight = cardinality), a cluster minus its center
//! (the variant that resolves centers early), or a single resolved instance
//! (exact distance, weight 1).  Each round the engine computes the smallest
//! threshold under which grains of total weight at least k are certified,
//! prunes every grain whose lower bound exceeds it, and subdivides the
//! surviving cluster grains; leaves resolve into instance grains.  The two
//! sieve variants differ only in their seed and in whether centers are split
//! out, which the grain kinds themselves encode.

use vstd::prelude::*;

use crate::dataset::Dataset;
use crate::results::{
    distinct_indices, entry_ok, finish, has_entry_le, has_index, is_knn_result, min_k, ruled_out,
};
use crate::tree::{
    d_max, d_min, lemma_bounds_valid, lemma_center_dist_in_range, spec_d_max, spec_d_min,
    valid_query, Tree,
};

verus! {

/// What a grain stands for.
#[derive(Clone, Copy)]
pub enum GrainKind {
    /// An unresolved cluster.
    Whole { c: usize },
    /// A cluster without its center, the center having been resolved.
    Rest { c: usize },
    /// A single resolved instance.
    Point { i: usize },
}

/// One unit of the sieve's working set, with its certified distance bounds
/// and its weight (the number of instances it stands for).
#[derive(Clone, Copy)]
pub struct Grain {
    /// What the grain stands for.
    pub kind: GrainKind,
    /// Certified lower bound on the distance to any covered instance.
    pub lo: u64,
    /// Certified upper bound on the distance to any covered instance.
    pub hi: u64,
    /// Number of covered instances.
    pub weight: usize,
}

/// Instance `x` is covered by (stands behind) grain `g`.
pub open spec fn covers(t: Tree, g: Grain, x: usize) -> bool {
    match g.kind {
        GrainKind::Whole { c } => t.owned(c as int).contains(x),
        GrainKind::Rest { c } => t.owned(c as int).contains(x) && x
            != t.clusters@[c as int].center,
        GrainKind::Point { i } => x == i,
    }
}

/// Instance `x` is covered by some grain of `s`.
pub open spec fn covered_g(t: Tree, s: Seq<Grain>, x: usize) -> bool {
    exists|p: int| 0 <= p < s.len() && covers(t, #[trigger] s[p], x)
}

/// A well-formed grain: its cluster (if any) is a cluster of the tree, its
/// bounds are the certified `d_min` / `d_max` for that cluster (or the exact
/// distance for a resolved instance), its weight counts its cover, and it
/// covers only instances of the tree.
pub open spec fn grain_wf<T, D: Dataset<T>>(t: Tree, data: D, q: T, g: Grain) -> bool {
    match g.kind {
        GrainKind::Whole { c } => {
            &&& 0 <= (c as int) < t.len()
            &&& (g.lo as int) == spec_d_min(
                data.dist(q, t.clusters@[c as int].center as int),
                t.clusters@[c as int].radius as int,
            )
            &&& (g.hi as int) == spec_d_max(
                data.dist(q, t.clusters@[c as int].center as int),
                t.clusters@[c as int].radius as int,
            )
            &&& g.weight == t.clusters@[c as int].cardinality
            &&& (forall|j: int|
                0 <= j < t.owned(c as int).len() ==> t.all_indices().contains(
                    #[trigger] t.owned(c as int)[j],
                ))
        },
        GrainKind::Rest { c } => {
            &&& 0 <= (c as int) < t.len()
            &&& (g.lo as int) == spec_d_min(
                data.dist(q, t.clusters@[c as int].center as int),
                t.clusters@[c as int].radius as int,
            )
            &&& (g.hi as int) == spec_d_max(
                data.dist(q, t.clusters@[c as int].center as int),
                t.clusters@[c as int].radius as int,
            )
            &&& t.clusters@[c as int].cardinality >= 1
            &&& (g.weight as int) == t.clusters@[c as int].cardinality - 1
            &&& (forall|j: int|
                0 <= j < t.owned(c as int).len() ==> t.all_indices().contains(
                    #[trigger] t.owned(c as int)[j],
                ))
        },
        GrainKind::Point { i } => {
            &&& t.all_indices().contains(i)
            &&& g.lo == g.hi
            &&& (g.lo as int) == data.dist(q, i as int)
            &&& g.weight == 1
        },
    }
}

/// A grain's bounds are valid: any covered instance is an instance of the
/// tree at distance between `lo` and `hi`.
pub proof fn lemma_grain_bounds<T, D: Dataset<T>>(t: Tree, data: D, q: T, g: Grain, x: usize)
    requires
        t.wf(),
        valid_query(t, data, q),
        grain_wf(t, data, q, g),
        covers(t, g, x),
    ensures
        t.all_indices().contains(x),
        g.lo as int <= data.dist(q, x as int),
        data.dist(q, x as int) <= g.hi as int,
{
    match g.kind {
        GrainKind::Whole { c } => {
            let j = choose|j: int| 0 <= j < t.owned(c as int).len() && t.owned(c as int)[j] == x;
            lemma_bounds_valid(t, data, q, c as int, j);
        },
        GrainKind::Rest { c } => {
            let j = choose|j: int| 0 <= j < t.owned(c as int).len() && t.owned(c as int)[j] == x;
            lemma_bounds_valid(t, data, q, c as int, j);
        },
        GrainKind::Point { i } => {},
    }
}

/// A grain's lower bound never exceeds its upper bound.
pub proof fn lemma_grain_lo_le_hi<T, D: Dataset<T>>(t: Tree, data: D, q: T, g: Grain)
    requires
        t.wf(),
        valid_query(t, data, q),
        grain_wf(t, data, q, g),
    ensures
        g.lo <= g.hi,
{
    match g.kind {
        GrainKind::Whole { c } => {
            lemma_center_dist_in_range(t, data, q, c as int);
        },
        GrainKind::Rest { c } => {
            lemma_center_dist_in_range(t, data, q, c as int);
        },
        GrainKind::Point { i } => {},
    }
}

/// Removing one occurrence of a value from a duplicate-free sequence.
proof fn lemma_remove_value_nodup(s: Seq<usize>, v: usize)
    requires
        s.no_duplicates(),
        s.contains(v),
    ensures
        s.remove_value(v).len() == s.len() - 1,
        s.remove_value(v).no_duplicates(),
        forall|p: int|
            0 <= p < s.remove_value(v).len() ==> #[trigger] s.remove_value(v)[p] != v
                && s.contains(s.remove_value(v)[p]),
{
    s.index_of_first_ensures(v);
    let i = s.index_of_first(v).unwrap();
    s.remove_ensures(i);
    let rv = s.remove(i);
    assert forall|p: int| 0 <= p < rv.len() implies #[trigger] rv[p] != v && s.contains(
        rv[p],
    ) by {
        if p < i {
            assert(rv[p] == s[p]);
        } else {
            assert(rv[p] == s[p + 1]);
        }
    }
    assert forall|p1: int, p2: int| 0 <= p1 < p2 < rv.len() implies rv[p1] != rv[p2] by {
        let q1: int = if p1 < i {
            p1
        } else {
            p1 + 1
        };
        let q2: int = if p2 < i {
            p2
        } else {
            p2 + 1
        };
        assert(rv[p1] == s[q1] && rv[p2] == s[q2]);
    }
}

/// The instances a grain stands for, as a duplicate-free list of length
/// `weight`.
pub open spec fn cover_list(t: Tree, g: Grain) -> Seq<usize> {
    match g.kind {
        GrainKind::Whole { c } => t.owned(c as int),
        GrainKind::Rest { c } => t.owned(c as int).remove_value(t.clusters@[c as int].center),
        GrainKind::Point { i } => seq![i],
    }
}

proof fn lemma_cover_list<T, D: Dataset<T>>(t: Tree, data: D, q: T, g: Grain)
    requires
        t.wf(),
        valid_query(t, data, q),
        grain_wf(t, data, q, g),
    ensures
        cover_list(t, g).no_duplicates(),
        cover_list(t, g).len() == g.weight as int,
        forall|j: int| 0 <= j < cover_list(t, g).len() ==> covers(t, g, #[trigger] cover_list(t, g)[j]),
{
    match g.kind {
        GrainKind::Whole { c } => {
            assert(t.wf_at(c as int));
        },
        GrainKind::Rest { c } => {
            assert(t.wf_at(c as int));
            lemma_remove_value_nodup(t.owned(c as int), t.clusters@[c as int].center);
        },
        GrainKind::Point { i } => {
            assert(cover_list(t, g) =~= seq![i]);
        },
    }
}

/// Total weight of the grains whose upper bound is at most `d`.
pub open spec fn weight_le(s: Seq<Grain>, d: u64) -> int
    decreases s.len(),
{
    if s.len() == 0 {
        0
    } else {
        weight_le(s.drop_last(), d) + if s.last().hi <= d {
            s.last().weight as int
        } else {
            0
        }
    }
}

proof fn lemma_weight_le_take_step(s: Seq<Grain>, d: u64, p: int)
    requires
        0 <= p < s.len(),
    ensures
        weight_le(s.take(p + 1), d) == weight_le(s.take(p), d) + if s[p].hi <= d {
            s[p].weight as int
        } else {
            0
        },
{
    assert(s.take(p + 1).drop_last() =~= s.take(p));
    assert(s.take(p + 1).last() == s[p]);
}

proof fn lemma_weight_le_mono(s: Seq<Grain>, d: u64, p: int)
    requires
        0 <= p <= s.len(),
    ensures
        weight_le(s.take(p), d) <= weight_le(s, d),
    decreases s.len() - p,
{
    if p == s.len() {
        assert(s.take(p) =~= s);
    } else {
        lemma_weight_le_take_step(s, d, p);
        lemma_weight_le_mono(s, d, p + 1);
    }
}

/// Sum of the weights of grains with `hi <= d` in the prefix of length `p`.
fn weight_within(grains: &Vec<Grain>, d: u64, k: usize) -> (enough: bool)
    requires
        k >= 1,
    ensures
        enough <==> weight_le(grains@, d) >= k as int,
{
    let mut acc: u128 = 0;
    let mut p: usize = 0;
    while p < grains.len()
        invariant
            p <= grains@.len(),
            acc as int == weight_le(grains@.take(p as int), d),
            acc < (k as u128),
        decreases grains@.len() - p,
    {
        proof {
            lemma_weight_le_take_step(grains@, d, p as int);
        }
        if grains[p].hi <= d {
            acc = acc + (grains[p].weight as u128);
        }
        if acc >= k as u128 {
            proof {
                lemma_weight_le_mono(grains@, d, p + 1);
            }
            return true;
        }
        p = p + 1;
    }
    proof {
        assert(grains@.take(grains@.len() as int) =~= grains@);
    }
    false
}

/// The sieve threshold: the smallest upper bound among the grains under
/// which grains of total weight at least k are certified, or `u64::MAX`
/// when the whole working set weighs less than k.
fn threshold(grains: &Vec<Grain>, k: usize) -> (th: u64)
    requires
        k >= 1,
    ensures
        weight_le(grains@, th) >= k as int || th == u64::MAX,
{
    let mut th: u64 = u64::MAX;
    let mut found = false;
    let mut p: usize = 0;
    while p < grains.len()
        invariant
            p <= grains@.len(),
            found ==> weight_le(grains@, th) >= k as int,
            !found ==> th == u64::MAX,
        decreases grains@.len() - p,
    {
        let cand = grains[p].hi;
        if !found || cand < th {
            if weight_within(grains, cand, k) {
                th = cand;
                found = true;
            }
        }
        p = p + 1;
    }
    th
}

/// The termination measure: total number of clusters below the working set.
pub open spec fn grain_size(t: Tree, g: Grain) -> nat {
    match g.kind {
        GrainKind::Whole { c } => t.subtree_size(c as int),
        GrainKind::Rest { c } => t.subtree_size(c as int),
        GrainKind::Point { i } => 0,
    }
}

pub open spec fn grains_measure(t: Tree, s: Seq<Grain>) -> nat
    decreases s.len(),
{
    if s.len() == 0 {
        0
    } else {
        grains_measure(t, s.drop_last()) + grain_size(t, s.last())
    }
}

proof fn lemma_grains_measure_take_step(t: Tree, s: Seq<Grain>, p: int)
    requires
        0 <= p < s.len(),
    ensures
        grains_measure(t, s.take(p + 1)) == grains_measure(t, s.take(p)) + grain_size(t, s[p]),
{
    assert(s.take(p + 1).drop_last() =~= s.take(p));
    assert(s.take(p + 1).last() == s[p]);
}

proof fn lemma_grains_measure_push(t: Tree, s: Seq<Grain>, g: Grain)
    ensures
        grains_measure(t, s.push(g)) == grains_measure(t, s) + grain_size(t, g),
{
    assert(s.push(g).drop_last() =~= s);
    assert(s.push(g).last() == g);
}

/// Is any unresolved cluster grain left?
pub open spec fn is_cluster_grain(g: Grain) -> bool {
    !(g.kind is Point)
}

fn find_cluster_grain(grains: &Vec<Grain>) -> (r: Option<usize>)
    ensures
        match r {
            Some(p) => (p as int) < grains@.len() && is_cluster_grain(grains@[p as int]),
            None => forall|p: int| 0 <= p < grains@.len() ==> !is_cluster_grain(#[trigger] grains@[p]),
        },
{
    let mut p: usize = 0;
    while p < grains.len()
        invariant
            p <= grains@.len(),
            forall|j: int| 0 <= j < p ==> !is_cluster_grain(#[trigger] grains@[j]),
        decreases grains@.len() - p,
    {
        match grains[p].kind {
            GrainKind::Point { i: _ } => {
                p = p + 1;
            },
            GrainKind::Whole { c: _ } => {
                return Some(p);
            },
            GrainKind::Rest { c: _ } => {
                return Some(p);
            },
        }
    }
    None
}

/// Every member of `w` is covered by some grain of `s` whose upper bound is
/// at most `d`.
pub open spec fn witness_ok(t: Tree, s: Seq<Grain>, d: u64, w: Seq<usize>) -> bool {
    forall|j: int|
        0 <= j < w.len() ==> exists|p: int|
            0 <= p < s.len() && covers(t, #[trigger] s[p], #[trigger] w[j]) && s[p].hi <= d
}

/// A duplicate-free list of at least `weight_le(s, d)` instances, all
/// covered by grains of `s` whose upper bound is at most `d`.
proof fn build_witness<T, D: Dataset<T>>(t: Tree, data: D, q: T, s: Seq<Grain>, d: u64) -> (w: Seq<
    usize,
>)
    requires
        t.wf(),
        valid_query(t, data, q),
        forall|p: int| 0 <= p < s.len() ==> grain_wf(t, data, q, #[trigger] s[p]),
        forall|p1: int, p2: int, x: usize|
            0 <= p1 < s.len() && 0 <= p2 < s.len() && p1 != p2 && (#[trigger] covers(t, s[p1], x))
                ==> !(#[trigger] covers(t, s[p2], x)),
    ensures
        w.no_duplicates(),
        w.len() >= weight_le(s, d),
        witness_ok(t, s, d, w),
    decreases s.len(),
{
    if s.len() == 0 {
        Seq::empty()
    } else {
        let rest = build_witness(t, data, q, s.drop_last(), d);
        let g = s.last();
        assert forall|j: int|
            0 <= j < rest.len() implies exists|p: int|
            0 <= p < s.len() && covers(t, #[trigger] s[p], #[trigger] rest[j]) && s[p].hi <= d by {
            assert(witness_ok(t, s.drop_last(), d, rest));
            let p = choose|p: int|
                0 <= p < s.drop_last().len() && covers(t, #[trigger] s.drop_last()[p], rest[j])
                    && s.drop_last()[p].hi <= d;
            assert(s[p] == s.drop_last()[p]);
            assert(covers(t, s[p], rest[j]) && s[p].hi <= d);
        }
        assert(witness_ok(t, s, d, rest));
        if g.hi <= d {
            lemma_cover_list(t, data, q, g);
            let cl = cover_list(t, g);
            assert forall|x: int, y: int|
                0 <= x < rest.len() && 0 <= y < cl.len() implies rest[x] != cl[y] by {
                let p = choose|p: int|
                    0 <= p < s.len() && covers(t, #[trigger] s[p], rest[x]) && s[p].hi <= d;
                let pd = choose|p2: int|
                    0 <= p2 < s.drop_last().len() && covers(
                        t,
                        #[trigger] s.drop_last()[p2],
                        rest[x],
                    ) && s.drop_last()[p2].hi <= d;
                assert(covers(t, s[pd], rest[x]));
                assert(covers(t, g, cl[y]));
                assert(s[s.len() - 1] == g);
                if rest[x] == cl[y] {
                    assert(covers(t, s[pd], cl[y]));
                    assert(!covers(t, s[s.len() - 1], cl[y]));
                }
            }
            vstd::seq_lib::lemma_no_dup_in_concat(rest, cl);
            let w = rest + cl;
            assert forall|j: int|
                0 <= j < w.len() implies exists|p: int|
                0 <= p < s.len() && covers(t, #[trigger] s[p], #[trigger] w[j]) && s[p].hi
                    <= d by {
                if j < rest.len() {
                    assert(w[j] == rest[j]);
                } else {
                    assert(w[j] == cl[j - rest.len()]);
                    assert(covers(t, s[s.len() - 1], w[j]));
                }
            }
            assert(weight_le(s, d) == weight_le(s.drop_last(), d) + g.weight as int);
            assert(witness_ok(t, s, d, w));
            w
        } else {
            assert(weight_le(s, d) == weight_le(s.drop_last(), d));
            rest
        }
    }
}


/// Every grain of `s` is well formed.
pub open spec fn grains_all_wf<T, D: Dataset<T>>(t: Tree, data: D, q: T, s: Seq<Grain>) -> bool {
    forall|p: int| 0 <= p < s.len() ==> grain_wf(t, data, q, #[trigger] s[p])
}

/// No instance stands behind two grains of `s`.
pub open spec fn grains_disjoint(t: Tree, s: Seq<Grain>) -> bool {
    forall|p1: int, p2: int, x: usize|
        0 <= p1 < s.len() && 0 <= p2 < s.len() && p1 != p2 && (#[trigger] covers(t, s[p1], x))
            ==> !(#[trigger] covers(t, s[p2], x))
}

/// `s` covers exactly what the first `upto` grains of `base` cover.
pub open spec fn same_cover(t: Tree, base: Seq<Grain>, upto: int, s: Seq<Grain>) -> bool {
    &&& (forall|j: int, x: usize|
        0 <= j < s.len() && (#[trigger] covers(t, s[j], x)) ==> exists|p0: int|
            0 <= p0 < upto && covers(t, #[trigger] base[p0], x))
    &&& (forall|p0: int, x: usize|
        0 <= p0 < upto && (#[trigger] covers(t, base[p0], x)) ==> covered_g(t, s, x))
}

/// Sieve threshold certification: the grains whose upper bound is within
/// `d` stand for at least `weight_le(s, d)` distinct instances, all at
/// distance at most `d` from the query.  A threshold whose cumulative
/// weight reaches k is therefore a safe pruning cutoff: at least k
/// instances are certified at least as close as it.
pub proof fn lemma_threshold_certified<T, D: Dataset<T>>(
    t: Tree,
    data: D,
    q: T,
    s: Seq<Grain>,
    d: u64,
)
    requires
        t.wf(),
        valid_query(t, data, q),
        grains_all_wf(t, data, q, s),
        grains_disjoint(t, s),
    ensures
        exists|w: Seq<usize>|
            {
                &&& #[trigger] w.no_duplicates()
                &&& w.len() >= weight_le(s, d)
                &&& forall|j: int|
                    0 <= j < w.len() ==> covered_g(t, s, #[trigger] w[j]) && data.dist(
                        q,
                        w[j] as int,
                    ) <= d as int
            },
{
    let w = build_witness(t, data, q, s, d);
    assert forall|j: int|
        0 <= j < w.len() implies covered_g(t, s, #[trigger] w[j]) && data.dist(q, w[j] as int)
        <= d as int by {
        assert(witness_ok(t, s, d, w));
        let p = choose|p: int| 0 <= p < s.len() && covers(t, #[trigger] s[p], w[j]) && s[p].hi <= d;
        lemma_grain_bounds(t, data, q, s[p], w[j]);
    }
}

/// The discard certificate of the sieve: `x` is beaten by at least `m`
/// distinct instances still standing behind the working set.
pub open spec fn live_ruled<T, D: Dataset<T>>(
    t: Tree,
    data: D,
    q: T,
    s: Seq<Grain>,
    m: int,
    x: usize,
) -> bool {
    exists|w: Seq<usize>|
        {
            &&& #[trigger] w.no_duplicates()
            &&& w.len() >= m
            &&& forall|j: int|
                0 <= j < w.len() ==> covered_g(t, s, #[trigger] w[j]) && data.dist(q, w[j] as int)
                    <= data.dist(q, x as int)
        }
}


/// One pruning pass: keep the grains whose lower bound is within the
/// threshold; every instance behind a dropped grain is certifiably beaten
/// by `min(k, n)` instances still standing behind the survivors.
fn prune<T, D: Dataset<T>>(
    t: &Tree,
    data: &D,
    q: &T,
    k: usize,
    grains: Vec<Grain>,
    th: u64,
    Ghost(removed): Ghost<Set<usize>>,
) -> (out: (Vec<Grain>, Ghost<Set<usize>>))
    requires
        t.wf(),
        valid_query(*t, *data, *q),
        k >= 1,
        grains_all_wf(*t, *data, *q, grains@),
        grains_disjoint(*t, grains@),
        weight_le(grains@, th) >= k as int || th == u64::MAX,
        forall|x: usize|
            #[trigger] removed.contains(x) ==> t.all_indices().contains(x) && live_ruled(
                *t,
                *data,
                *q,
                grains@,
                min_k(k as int, t.size as int),
                x,
            ),
    ensures
        grains_all_wf(*t, *data, *q, out.0@),
        grains_disjoint(*t, out.0@),
        forall|x: usize|
            covered_g(*t, grains@, x) ==> covered_g(*t, out.0@, x) || out.1@.contains(x),
        removed.subset_of(out.1@),
        forall|x: usize|
            #[trigger] out.1@.contains(x) ==> t.all_indices().contains(x) && live_ruled(
                *t,
                *data,
                *q,
                out.0@,
                min_k(k as int, t.size as int),
                x,
            ),
        grains_measure(*t, out.0@) <= grains_measure(*t, grains@),
        forall|p0: int|
            0 <= p0 < grains@.len() && is_cluster_grain(#[trigger] grains@[p0]) ==> (exists|j: int|
                0 <= j < out.0@.len() && out.0@[j] == grains@[p0]) || grains_measure(*t, out.0@)
                < grains_measure(*t, grains@),
{
    let ghost pre = grains@;
    let ghost m = min_k(k as int, t.size as int);
    let mut kept: Vec<Grain> = Vec::new();
    let ghost mut src: Seq<int> = Seq::empty();
    let ghost mut dropped_cluster: bool = false;
    let mut p: usize = 0;
    while p < grains.len()
        invariant
            p <= pre.len(),
            grains@ == pre,
            src.len() == kept@.len(),
            forall|j: int|
                0 <= j < src.len() ==> 0 <= #[trigger] src[j] < p as int && kept@[j] == pre[src[j]],
            forall|j1: int, j2: int| 0 <= j1 < j2 < src.len() ==> src[j1] < src[j2],
            forall|p0: int|
                0 <= p0 < p as int && (#[trigger] pre[p0]).lo <= th ==> exists|j: int|
                    0 <= j < src.len() && src[j] == p0,
            grains_measure(*t, kept@) + (if dropped_cluster {
                1nat
            } else {
                0nat
            }) <= grains_measure(*t, pre.take(p as int)),
            forall|p0: int|
                0 <= p0 < p as int && (#[trigger] pre[p0]).lo > th && is_cluster_grain(pre[p0])
                    ==> dropped_cluster,
        decreases pre.len() - p,
    {
        proof {
            lemma_grains_measure_take_step(*t, pre, p as int);
        }
        let g = grains[p];
        let ghost old_kept = kept@;
        let ghost old_src = src;
        if g.lo <= th {
            kept.push(g);
            proof {
                lemma_grains_measure_push(*t, old_kept, g);
                src = src.push(p as int);
                assert forall|p0: int|
                    0 <= p0 < (p + 1) as int && (#[trigger] pre[p0]).lo <= th implies exists|j: int|
                    0 <= j < src.len() && src[j] == p0 by {
                    if p0 == p as int {
                        assert(src[src.len() - 1] == p0);
                    } else {
                        let j = choose|j: int| 0 <= j < old_src.len() && old_src[j] == p0;
                        assert(src[j] == p0);
                    }
                }
            }
        } else {
            proof {
                if is_cluster_grain(g) {
                    dropped_cluster = true;
                    assert(grain_size(*t, g) >= 1) by {
                        assert(grain_wf(*t, *data, *q, pre[p as int]));
                        match g.kind {
                            GrainKind::Whole { c } => {
                                assert(t.subtree_size(c as int) >= 1);
                            },
                            GrainKind::Rest { c } => {
                                assert(t.subtree_size(c as int) >= 1);
                            },
                            GrainKind::Point { i } => {},
                        }
                    }
                }
            }
        }
        p = p + 1;
    }
    let ghost r2 = Set::new(
        |x: usize| removed.contains(x) || (covered_g(*t, pre, x) && !covered_g(*t, kept@, x)),
    );
    proof {
        assert(pre.take(pre.len() as int) =~= pre);
        // the survivors are well formed, pairwise disjoint, and each pre
        // grain within the threshold survives
        assert forall|j: int| 0 <= j < kept@.len() implies grain_wf(
            *t,
            *data,
            *q,
            #[trigger] kept@[j],
        ) by {
            assert(grain_wf(*t, *data, *q, pre[src[j]]));
        }
        assert forall|p1: int, p2: int, x: usize|
            0 <= p1 < kept@.len() && 0 <= p2 < kept@.len() && p1 != p2 && (#[trigger] covers(
                *t,
                kept@[p1],
                x,
            )) implies !(#[trigger] covers(*t, kept@[p2], x)) by {
            assert(kept@[p1] == pre[src[p1]] && kept@[p2] == pre[src[p2]]);
            if p1 < p2 {
                assert(src[p1] < src[p2]);
            } else {
                assert(src[p2] < src[p1]);
            }
            assert(covers(*t, pre[src[p1]], x));
        }
        // the witness certified by the threshold, carried by the survivors
        let wth = build_witness(*t, *data, *q, pre, th);
        assert forall|j: int|
            0 <= j < wth.len() implies covered_g(*t, kept@, #[trigger] wth[j]) && data.dist(
            *q,
            wth[j] as int,
        ) <= th as int && t.all_indices().contains(wth[j]) by {
            assert(witness_ok(*t, pre, th, wth));
            let p0 = choose|p0: int|
                0 <= p0 < pre.len() && covers(*t, #[trigger] pre[p0], wth[j]) && pre[p0].hi <= th;
            lemma_grain_lo_le_hi(*t, *data, *q, pre[p0]);
            lemma_grain_bounds(*t, *data, *q, pre[p0], wth[j]);
            let jj = choose|jj: int| 0 <= jj < src.len() && src[jj] == p0;
            assert(kept@[jj] == pre[p0]);
            assert(covers(*t, kept@[jj], wth[j]));
        }
        // certificates: new and old removals alike
        assert forall|x: usize| #[trigger] r2.contains(x) implies t.all_indices().contains(x)
            && live_ruled(*t, *data, *q, kept@, m, x) by {
            if !removed.contains(x) {
                // freshly dropped: x sits behind a grain beyond the threshold
                let pc = choose|pc: int| 0 <= pc < pre.len() && covers(*t, #[trigger] pre[pc], x);
                lemma_grain_bounds(*t, *data, *q, pre[pc], x);
                if pre[pc].lo <= th {
                    let jj = choose|jj: int| 0 <= jj < src.len() && src[jj] == pc;
                    assert(covers(*t, kept@[jj], x));
                    assert(covered_g(*t, kept@, x));
                    assert(false);
                }
                assert(data.dist(*q, x as int) > th as int);
                assert(th < u64::MAX) by {
                    lemma_grain_lo_le_hi(*t, *data, *q, pre[pc]);
                }
                assert(wth.len() >= k as int);
                assert forall|j: int|
                    0 <= j < wth.len() implies covered_g(*t, kept@, #[trigger] wth[j])
                        && data.dist(*q, wth[j] as int) <= data.dist(*q, x as int) by {}
                assert(live_ruled(*t, *data, *q, kept@, m, x));
            } else {
                let dx = data.dist(*q, x as int);
                let w = choose|w: Seq<usize>|
                    {
                        &&& #[trigger] w.no_duplicates()
                        &&& w.len() >= m
                        &&& forall|j: int|
                            0 <= j < w.len() ==> covered_g(*t, pre, #[trigger] w[j]) && data.dist(
                                *q,
                                w[j] as int,
                            ) <= dx
                    };
                if dx > th as int {
                    // x is beyond the threshold: the certified witness wins
                    if th == u64::MAX {
                        // distances never exceed the maximum
                        let jr = choose|jr: int|
                            0 <= jr < t.all_indices().len() && t.all_indices()[jr] == x;
                        lemma_bounds_valid(*t, *data, *q, t.root as int, jr);
                        assert(false);
                    }
                    assert(wth.len() >= k as int);
                    assert forall|j: int|
                        0 <= j < wth.len() implies covered_g(*t, kept@, #[trigger] wth[j])
                            && data.dist(*q, wth[j] as int) <= dx by {}
                    assert(live_ruled(*t, *data, *q, kept@, m, x));
                } else {
                    // x is within the threshold: its old witnesses survive
                    assert forall|j: int|
                        0 <= j < w.len() implies covered_g(*t, kept@, #[trigger] w[j])
                            && data.dist(*q, w[j] as int) <= dx by {
                        let pe = choose|pe: int|
                            0 <= pe < pre.len() && covers(*t, #[trigger] pre[pe], w[j]);
                        lemma_grain_bounds(*t, *data, *q, pre[pe], w[j]);
                        assert(pre[pe].lo as int <= data.dist(*q, w[j] as int) <= th as int);
                        let jj = choose|jj: int| 0 <= jj < src.len() && src[jj] == pe;
                        assert(covers(*t, kept@[jj], w[j]));
                    }
                    assert(live_ruled(*t, *data, *q, kept@, m, x));
                }
            }
        }
        // anything covered before is covered still, or newly removed
        assert forall|x: usize|
            covered_g(*t, pre, x) implies covered_g(*t, kept@, x) || r2.contains(x) by {}
        // a surviving cluster grain keeps the measure argument honest
        assert forall|p0: int|
            0 <= p0 < pre.len() && is_cluster_grain(#[trigger] pre[p0]) implies (exists|j: int|
                0 <= j < kept@.len() && kept@[j] == pre[p0]) || grains_measure(*t, kept@)
            < grains_measure(*t, pre) by {
            if pre[p0].lo <= th {
                let jj = choose|jj: int| 0 <= jj < src.len() && src[jj] == p0;
                assert(kept@[jj] == pre[p0]);
            }
        }
    }
    (kept, Ghost(r2))
}


/// Resolves a leaf cluster grain into instance grains with exact distances.
#[verifier::rlimit(100)]
#[verifier::spinoff_prover]
fn split_whole_leaf<T, D: Dataset<T>>(t: &Tree, data: &D, q: &T, g: Grain, c: usize) -> (pieces:
    Vec<Grain>)
    requires
        t.wf(),
        valid_query(*t, *data, *q),
        grain_wf(*t, *data, *q, g),
        g.kind == (GrainKind::Whole { c }),
        t.clusters@[c as int].is_leaf,
    ensures
        grains_all_wf(*t, *data, *q, pieces@),
        grains_disjoint(*t, pieces@),
        forall|j: int, x: usize|
            0 <= j < pieces@.len() && (#[trigger] covers(*t, pieces@[j], x)) ==> covers(*t, g, x),
        forall|x: usize| (#[trigger] covers(*t, g, x)) ==> covered_g(*t, pieces@, x),
        grains_measure(*t, pieces@) <= grain_size(*t, g),
        is_cluster_grain(g) ==> grains_measure(*t, pieces@) < grain_size(*t, g),
{
    let mut pieces: Vec<Grain> = Vec::new();
    proof {
        assert(t.wf_at(c as int));
    }
    let cl = &t.clusters[c];
        proof {
            assert(t.owned(c as int) == cl.instances@);
            assert(t.subtree_size(c as int) == 1);
        }
        let mut jj: usize = 0;
        while jj < cl.instances.len()
            invariant
                jj <= cl.instances@.len(),
                pieces@.len() == jj as int,
                grains_measure(*t, pieces@) == 0,
                grains_all_wf(*t, *data, *q, pieces@),
                forall|a: int|
                    0 <= a < pieces@.len() ==> (#[trigger] pieces@[a]).kind
                        == (GrainKind::Point { i: cl.instances@[a] }),
            decreases cl.instances@.len() - jj as int,
        {
            let idx = cl.instances[jj];
            proof {
                assert(t.owned(c as int)[jj as int] == idx);
                assert((idx as int) < t.size as int);
                assert(t.all_indices().contains(idx));
            }
            let d = data.query_distance(q, idx);
            let ghost before = pieces@;
            pieces.push(Grain { kind: GrainKind::Point { i: idx }, lo: d, hi: d, weight: 1 });
            proof {
                lemma_grains_measure_push(*t, before, pieces@.last());
            }
            jj = jj + 1;
        }
        proof {
            assert forall|p1: int, p2: int, x: usize|
                0 <= p1 < pieces@.len() && 0 <= p2 < pieces@.len() && p1 != p2 && (
            #[trigger] covers(*t, pieces@[p1], x)) implies !(#[trigger] covers(
                *t,
                pieces@[p2],
                x,
            )) by {
                assert(t.owned(c as int).no_duplicates());
            }
            assert forall|x: usize| (#[trigger] covers(*t, g, x)) implies covered_g(
                *t,
                pieces@,
                x,
            ) by {
                let j0 = choose|j0: int|
                    0 <= j0 < cl.instances@.len() && cl.instances@[j0] == x;
                assert(covers(*t, pieces@[j0], x));
            }
            assert forall|j: int, x: usize|
                0 <= j < pieces@.len() && (#[trigger] covers(
                    *t,
                    pieces@[j],
                    x,
                )) implies covers(*t, g, x) by {
                assert(t.owned(c as int)[j] == cl.instances@[j]);
            }
        }
    pieces
}

/// Replaces an internal cluster grain by its two children.
#[verifier::rlimit(100)]
#[verifier::spinoff_prover]
fn split_whole_internal<T, D: Dataset<T>>(t: &Tree, data: &D, q: &T, g: Grain, c: usize) -> (
    pieces: Vec<Grain>)
    requires
        t.wf(),
        valid_query(*t, *data, *q),
        grain_wf(*t, *data, *q, g),
        g.kind == (GrainKind::Whole { c }),
        !t.clusters@[c as int].is_leaf,
    ensures
        grains_all_wf(*t, *data, *q, pieces@),
        grains_disjoint(*t, pieces@),
        forall|j: int, x: usize|
            0 <= j < pieces@.len() && (#[trigger] covers(*t, pieces@[j], x)) ==> covers(*t, g, x),
        forall|x: usize| (#[trigger] covers(*t, g, x)) ==> covered_g(*t, pieces@, x),
        grains_measure(*t, pieces@) <= grain_size(*t, g),
        is_cluster_grain(g) ==> grains_measure(*t, pieces@) < grain_size(*t, g),
{
    let mut pieces: Vec<Grain> = Vec::new();
    proof {
        assert(t.wf_at(c as int));
    }
    let cl = &t.clusters[c];
    {
            proof {
                assert(t.wf_at(cl.left as int));
                assert(t.wf_at(cl.right as int));
                let lo_s = t.owned(cl.left as int);
                let ro_s = t.owned(cl.right as int);
                assert(t.owned(c as int) == lo_s + ro_s);
                crate::results::lemma_concat_nodup_parts(lo_s, ro_s);
                assert forall|j: int| 0 <= j < lo_s.len() implies t.owned(c as int).contains(
                    #[trigger] lo_s[j],
                ) && t.all_indices().contains(lo_s[j]) by {
                    assert(t.owned(c as int)[j] == lo_s[j]);
                }
                assert forall|j: int| 0 <= j < ro_s.len() implies t.owned(c as int).contains(
                    #[trigger] ro_s[j],
                ) && t.all_indices().contains(ro_s[j]) by {
                    assert(t.owned(c as int)[lo_s.len() + j] == ro_s[j]);
                }
            }
            let dcl = data.query_distance(q, t.clusters[cl.left].center);
            let dcr = data.query_distance(q, t.clusters[cl.right].center);
            let gl = Grain {
                kind: GrainKind::Whole { c: cl.left },
                lo: d_min(dcl, t.clusters[cl.left].radius),
                hi: d_max(dcl, t.clusters[cl.left].radius),
                weight: t.clusters[cl.left].cardinality,
            };
            let gr = Grain {
                kind: GrainKind::Whole { c: cl.right },
                lo: d_min(dcr, t.clusters[cl.right].radius),
                hi: d_max(dcr, t.clusters[cl.right].radius),
                weight: t.clusters[cl.right].cardinality,
            };
            pieces.push(gl);
            pieces.push(gr);
            proof {
                lemma_grains_measure_push(*t, Seq::empty(), gl);
                lemma_grains_measure_push(*t, seq![gl], gr);
                assert(pieces@ =~= seq![gl, gr]);
                let lo_s = t.owned(cl.left as int);
                let ro_s = t.owned(cl.right as int);
                assert forall|x: usize| (#[trigger] covers(*t, g, x)) implies covered_g(
                    *t,
                    pieces@,
                    x,
                ) by {
                    let j0 = choose|j0: int|
                        0 <= j0 < t.owned(c as int).len() && t.owned(c as int)[j0] == x;
                    if j0 < lo_s.len() {
                        assert(lo_s[j0] == x);
                        assert(covers(*t, pieces@[0], x));
                    } else {
                        assert(ro_s[j0 - lo_s.len()] == x);
                        assert(covers(*t, pieces@[1], x));
                    }
                }
                assert(t.subtree_size(c as int) == 1 + t.subtree_size(cl.left as int)
                    + t.subtree_size(cl.right as int));
            }
    }
    pieces
}

/// Resolves a leaf cluster grain whose center is already resolved: its
/// other instances become instance grains.
#[verifier::rlimit(100)]
#[verifier::spinoff_prover]
fn split_rest_leaf<T, D: Dataset<T>>(t: &Tree, data: &D, q: &T, g: Grain, c: usize) -> (pieces:
    Vec<Grain>)
    requires
        t.wf(),
        valid_query(*t, *data, *q),
        grain_wf(*t, *data, *q, g),
        g.kind == (GrainKind::Rest { c }),
        t.clusters@[c as int].is_leaf,
    ensures
        grains_all_wf(*t, *data, *q, pieces@),
        grains_disjoint(*t, pieces@),
        forall|j: int, x: usize|
            0 <= j < pieces@.len() && (#[trigger] covers(*t, pieces@[j], x)) ==> covers(*t, g, x),
        forall|x: usize| (#[trigger] covers(*t, g, x)) ==> covered_g(*t, pieces@, x),
        grains_measure(*t, pieces@) <= grain_size(*t, g),
        is_cluster_grain(g) ==> grains_measure(*t, pieces@) < grain_size(*t, g),
{
    let mut pieces: Vec<Grain> = Vec::new();
    proof {
        assert(t.wf_at(c as int));
    }
    let cl = &t.clusters[c];
    let ctr = cl.center;
        proof {
            assert(t.owned(c as int) == cl.instances@);
            assert(t.subtree_size(c as int) == 1);
        }
        let mut jj: usize = 0;
        while jj < cl.instances.len()
            invariant
                jj <= cl.instances@.len(),
                grains_measure(*t, pieces@) == 0,
                grains_all_wf(*t, *data, *q, pieces@),
                forall|a: int|
                    0 <= a < pieces@.len() ==> exists|j0: int|
                        0 <= j0 < jj as int && (#[trigger] pieces@[a]).kind
                            == (GrainKind::Point { i: cl.instances@[j0] })
                            && cl.instances@[j0] != ctr,
                forall|a: int, b: int|
                    0 <= a < b < pieces@.len() ==> (#[trigger] pieces@[a]).kind != (
                    #[trigger] pieces@[b]).kind,
                forall|j0: int|
                    0 <= j0 < jj as int && (#[trigger] cl.instances@[j0]) != ctr
                        ==> covered_g(*t, pieces@, cl.instances@[j0]),
            decreases cl.instances@.len() - jj as int,
        {
            let idx = cl.instances[jj];
            proof {
                assert(t.owned(c as int)[jj as int] == idx);
                assert((idx as int) < t.size as int);
                assert(t.all_indices().contains(idx));
            }
            let ghost before = pieces@;
            if idx != ctr {
                let d = data.query_distance(q, idx);
                pieces.push(
                    Grain { kind: GrainKind::Point { i: idx }, lo: d, hi: d, weight: 1 },
                );
                proof {
                    lemma_grains_measure_push(*t, before, pieces@.last());
                    assert(t.owned(c as int).no_duplicates());
                    assert forall|a: int, b: int|
                        0 <= a < b < pieces@.len() implies (#[trigger] pieces@[a]).kind
                        != (#[trigger] pieces@[b]).kind by {
                        if b == pieces@.len() - 1 {
                            let j0 = choose|j0: int|
                                0 <= j0 < jj as int && (#[trigger] pieces@[a]).kind == (
                                GrainKind::Point { i: cl.instances@[j0] })
                                    && cl.instances@[j0] != ctr;
                            assert(cl.instances@[j0] != cl.instances@[jj as int]);
                        }
                    }
                    assert forall|j0: int|
                        0 <= j0 < (jj + 1) as int && (#[trigger] cl.instances@[j0])
                            != ctr implies covered_g(*t, pieces@, cl.instances@[j0]) by {
                        if j0 < jj as int {
                            let a = choose|a: int|
                                0 <= a < before.len() && covers(
                                    *t,
                                    #[trigger] before[a],
                                    cl.instances@[j0],
                                );
                            assert(covers(*t, pieces@[a], cl.instances@[j0]));
                        } else {
                            assert(covers(
                                *t,
                                pieces@[pieces@.len() - 1],
                                cl.instances@[j0],
                            ));
                        }
                    }
                }
            }
            jj = jj + 1;
        }
        proof {
            assert forall|p1: int, p2: int, x: usize|
                0 <= p1 < pieces@.len() && 0 <= p2 < pieces@.len() && p1 != p2 && (
            #[trigger] covers(*t, pieces@[p1], x)) implies !(#[trigger] covers(
                *t,
                pieces@[p2],
                x,
            )) by {}
            assert forall|j: int, x: usize|
                0 <= j < pieces@.len() && (#[trigger] covers(
                    *t,
                    pieces@[j],
                    x,
                )) implies covers(*t, g, x) by {
                let j0 = choose|j0: int|
                    0 <= j0 < cl.instances@.len() && (#[trigger] pieces@[j]).kind == (
                    GrainKind::Point { i: cl.instances@[j0] }) && cl.instances@[j0] != ctr;
                assert(t.owned(c as int)[j0] == cl.instances@[j0]);
            }
        }
    pieces
}

/// Replaces an internal center-less cluster grain: the left child inherits
/// the already-resolved center, the right child's center resolves exactly.
#[verifier::rlimit(100)]
#[verifier::spinoff_prover]
fn split_rest_internal<T, D: Dataset<T>>(t: &Tree, data: &D, q: &T, g: Grain, c: usize) -> (
    pieces: Vec<Grain>)
    requires
        t.wf(),
        valid_query(*t, *data, *q),
        grain_wf(*t, *data, *q, g),
        g.kind == (GrainKind::Rest { c }),
        !t.clusters@[c as int].is_leaf,
    ensures
        grains_all_wf(*t, *data, *q, pieces@),
        grains_disjoint(*t, pieces@),
        forall|j: int, x: usize|
            0 <= j < pieces@.len() && (#[trigger] covers(*t, pieces@[j], x)) ==> covers(*t, g, x),
        forall|x: usize| (#[trigger] covers(*t, g, x)) ==> covered_g(*t, pieces@, x),
        grains_measure(*t, pieces@) <= grain_size(*t, g),
        is_cluster_grain(g) ==> grains_measure(*t, pieces@) < grain_size(*t, g),
{
    let mut pieces: Vec<Grain> = Vec::new();
    proof {
        assert(t.wf_at(c as int));
    }
    let cl = &t.clusters[c];
    let ctr = cl.center;
    {
            proof {
                assert(t.wf_at(cl.left as int));
                assert(t.wf_at(cl.right as int));
                let lo_s = t.owned(cl.left as int);
                let ro_s = t.owned(cl.right as int);
                assert(t.owned(c as int) == lo_s + ro_s);
                crate::results::lemma_concat_nodup_parts(lo_s, ro_s);
                assert forall|j: int| 0 <= j < lo_s.len() implies t.owned(c as int).contains(
                    #[trigger] lo_s[j],
                ) && t.all_indices().contains(lo_s[j]) by {
                    assert(t.owned(c as int)[j] == lo_s[j]);
                }
                assert forall|j: int| 0 <= j < ro_s.len() implies t.owned(c as int).contains(
                    #[trigger] ro_s[j],
                ) && t.all_indices().contains(ro_s[j]) by {
                    assert(t.owned(c as int)[lo_s.len() + j] == ro_s[j]);
                }
            }
            let dcl = data.query_distance(q, t.clusters[cl.left].center);
            let dcr = data.query_distance(q, t.clusters[cl.right].center);
            let rctr = t.clusters[cl.right].center;
            let dctr = data.query_distance(q, rctr);
            let gl = Grain {
                kind: GrainKind::Rest { c: cl.left },
                lo: d_min(dcl, t.clusters[cl.left].radius),
                hi: d_max(dcl, t.clusters[cl.left].radius),
                weight: t.clusters[cl.left].cardinality - 1,
            };
            let gp = Grain { kind: GrainKind::Point { i: rctr }, lo: dctr, hi: dctr, weight: 1 };
            let gr = Grain {
                kind: GrainKind::Rest { c: cl.right },
                lo: d_min(dcr, t.clusters[cl.right].radius),
                hi: d_max(dcr, t.clusters[cl.right].radius),
                weight: t.clusters[cl.right].cardinality - 1,
            };
            pieces.push(gl);
            pieces.push(gp);
            pieces.push(gr);
            proof {
                lemma_grains_measure_push(*t, Seq::empty(), gl);
                lemma_grains_measure_push(*t, seq![gl], gp);
                lemma_grains_measure_push(*t, seq![gl, gp], gr);
                assert(Seq::<Grain>::empty().push(gl) =~= seq![gl]);
                assert(seq![gl].push(gp) =~= seq![gl, gp]);
                assert(seq![gl, gp].push(gr) =~= seq![gl, gp, gr]);
                assert(pieces@ =~= seq![gl, gp, gr]);
                assert(grains_measure(*t, pieces@) == grain_size(*t, gl) + grain_size(*t, gp)
                    + grain_size(*t, gr));
                let lo_s = t.owned(cl.left as int);
                let ro_s = t.owned(cl.right as int);
                // the parent center is the left child's center and sits
                // on the left; the right center sits on the right
                assert(t.clusters@[cl.left as int].center == ctr);
                assert(lo_s.contains(ctr));
                assert(ro_s.contains(rctr));
                assert(rctr != ctr);
                assert forall|x: usize| (#[trigger] covers(*t, g, x)) implies covered_g(
                    *t,
                    pieces@,
                    x,
                ) by {
                    let j0 = choose|j0: int|
                        0 <= j0 < t.owned(c as int).len() && t.owned(c as int)[j0] == x;
                    if j0 < lo_s.len() {
                        assert(lo_s[j0] == x);
                        assert(covers(*t, pieces@[0], x));
                    } else {
                        assert(ro_s[j0 - lo_s.len()] == x);
                        if x == rctr {
                            assert(covers(*t, pieces@[1], x));
                        } else {
                            assert(covers(*t, pieces@[2], x));
                        }
                    }
                }
                assert forall|j: int, x: usize|
                    0 <= j < pieces@.len() && (#[trigger] covers(
                        *t,
                        pieces@[j],
                        x,
                    )) implies covers(*t, g, x) by {
                    if j == 0 {
                        let j0 = choose|j0: int| 0 <= j0 < lo_s.len() && lo_s[j0] == x;
                        assert(t.owned(c as int)[j0] == x);
                        assert(x != ctr);
                    } else {
                        let xr: usize = if j == 1 {
                            rctr
                        } else {
                            x
                        };
                        assert(ro_s.contains(xr));
                        let j0 = choose|j0: int| 0 <= j0 < ro_s.len() && ro_s[j0] == xr;
                        assert(t.owned(c as int)[lo_s.len() + j0] == xr);
                        if xr == ctr {
                            assert(lo_s.contains(ctr));
                            assert(false);
                        }
                    }
                }
                assert(t.subtree_size(c as int) == 1 + t.subtree_size(cl.left as int)
                    + t.subtree_size(cl.right as int));
            }
    }
    pieces
}

/// Subdivides one grain: a resolved instance stays; a leaf cluster resolves
/// into its instances with exact distances (the variant without its center
/// skips the center); an internal cluster is replaced by its two children,
/// the center-splitting variant resolving the right child's center exactly.
fn split_grain<T, D: Dataset<T>>(t: &Tree, data: &D, q: &T, g: Grain) -> (pieces: Vec<Grain>)
    requires
        t.wf(),
        valid_query(*t, *data, *q),
        grain_wf(*t, *data, *q, g),
    ensures
        grains_all_wf(*t, *data, *q, pieces@),
        grains_disjoint(*t, pieces@),
        forall|j: int, x: usize|
            0 <= j < pieces@.len() && (#[trigger] covers(*t, pieces@[j], x)) ==> covers(*t, g, x),
        forall|x: usize| (#[trigger] covers(*t, g, x)) ==> covered_g(*t, pieces@, x),
        grains_measure(*t, pieces@) <= grain_size(*t, g),
        is_cluster_grain(g) ==> grains_measure(*t, pieces@) < grain_size(*t, g),
{
    match g.kind {
        GrainKind::Point { i: _ } => {
            let mut pieces: Vec<Grain> = Vec::new();
            pieces.push(g);
            proof {
                lemma_grains_measure_push(*t, Seq::empty(), g);
                assert forall|x: usize| (#[trigger] covers(*t, g, x)) implies covered_g(
                    *t,
                    pieces@,
                    x,
                ) by {
                    assert(covers(*t, pieces@[0], x));
                }
            }
            pieces
        },
        GrainKind::Whole { c } => {
            proof {
                assert(t.wf_at(c as int));
            }
            if t.clusters[c].is_leaf {
                split_whole_leaf(t, data, q, g, c)
            } else {
                split_whole_internal(t, data, q, g, c)
            }
        },
        GrainKind::Rest { c } => {
            proof {
                assert(t.wf_at(c as int));
            }
            if t.clusters[c].is_leaf {
                split_rest_leaf(t, data, q, g, c)
            } else {
                split_rest_internal(t, data, q, g, c)
            }
        },
    }
}


/// One subdivision pass: every grain is replaced by its pieces.
#[verifier::rlimit(100)]
#[verifier::spinoff_prover]
fn subdivide<T, D: Dataset<T>>(t: &Tree, data: &D, q: &T, grains: Vec<Grain>) -> (next: Vec<Grain>)
    requires
        t.wf(),
        valid_query(*t, *data, *q),
        grains_all_wf(*t, *data, *q, grains@),
        grains_disjoint(*t, grains@),
    ensures
        grains_all_wf(*t, *data, *q, next@),
        grains_disjoint(*t, next@),
        same_cover(*t, grains@, grains@.len() as int, next@),
        grains_measure(*t, next@) <= grains_measure(*t, grains@),
        (exists|p: int| 0 <= p < grains@.len() && is_cluster_grain(#[trigger] grains@[p]))
            ==> grains_measure(*t, next@) < grains_measure(*t, grains@),
{
    let ghost base = grains@;
    let mut next: Vec<Grain> = Vec::new();
    let ghost mut did_split: bool = false;
    let mut p: usize = 0;
    while p < grains.len()
        invariant
            p <= base.len(),
            grains@ == base,
            grains_all_wf(*t, *data, *q, next@),
            grains_disjoint(*t, next@),
            same_cover(*t, base, p as int, next@),
            grains_measure(*t, next@) + (if did_split {
                1nat
            } else {
                0nat
            }) <= grains_measure(*t, base.take(p as int)),
            forall|p0: int|
                0 <= p0 < p as int && is_cluster_grain(#[trigger] base[p0]) ==> did_split,
        decreases base.len() - p,
    {
        proof {
            lemma_grains_measure_take_step(*t, base, p as int);
            assert(grain_wf(*t, *data, *q, base[p as int]));
        }
        let g = grains[p];
        let mut pieces = split_grain(t, data, q, g);
        let ghost before = next@;
        let ghost ps = pieces@;
        next.append(&mut pieces);
        proof {
            if is_cluster_grain(g) {
                did_split = true;
            }
            assert(next@ == before + ps);
            // measure adds up piecewise
            lemma_grains_measure_concat(*t, before, ps);
            // well-formedness of the extended working set
            assert forall|j: int| 0 <= j < next@.len() implies grain_wf(
                *t,
                *data,
                *q,
                #[trigger] next@[j],
            ) by {
                if j < before.len() {
                    assert(next@[j] == before[j]);
                } else {
                    assert(next@[j] == ps[j - before.len()]);
                    assert(grain_wf(*t, *data, *q, ps[j - before.len()]));
                }
            }
            // disjointness: pieces sit inside the p-th base grain, which is
            // disjoint from everything the earlier pieces sit inside
            assert forall|p1: int, p2: int, x: usize|
                0 <= p1 < next@.len() && 0 <= p2 < next@.len() && p1 != p2 && (#[trigger] covers(
                    *t,
                    next@[p1],
                    x,
                )) implies !(#[trigger] covers(*t, next@[p2], x)) by {
                if covers(*t, next@[p2], x) {
                    if p1 < before.len() && p2 < before.len() {
                        assert(covers(*t, before[p1], x) && covers(*t, before[p2], x));
                    } else if p1 >= before.len() && p2 >= before.len() {
                        assert(covers(*t, ps[p1 - before.len()], x));
                        assert(covers(*t, ps[p2 - before.len()], x));
                    } else {
                        let pa: int = if p1 < before.len() {
                            p1
                        } else {
                            p2
                        };
                        let pb: int = if p1 < before.len() {
                            p2
                        } else {
                            p1
                        };
                        assert(covers(*t, before[pa], x));
                        assert(covers(*t, ps[pb - before.len()], x));
                        assert(covers(*t, base[p as int], x));
                        let p0 = choose|p0: int|
                            0 <= p0 < p as int && covers(*t, #[trigger] base[p0], x);
                        assert(false);
                    }
                }
            }
            // the new pieces cover exactly what the p-th base grain covered
            assert forall|j: int, x: usize|
                0 <= j < next@.len() && (#[trigger] covers(*t, next@[j], x)) implies exists|
                p0: int,
            |
                0 <= p0 < (p + 1) as int && covers(*t, #[trigger] base[p0], x) by {
                if j < before.len() {
                    assert(covers(*t, before[j], x));
                    let p0 = choose|p0: int|
                        0 <= p0 < p as int && covers(*t, #[trigger] base[p0], x);
                    assert(covers(*t, base[p0], x));
                } else {
                    assert(covers(*t, ps[j - before.len()], x));
                    assert(covers(*t, base[p as int], x));
                }
            }
            assert forall|p0: int, x: usize|
                0 <= p0 < (p + 1) as int && (#[trigger] covers(
                    *t,
                    base[p0],
                    x,
                )) implies covered_g(*t, next@, x) by {
                if p0 < p as int {
                    let j = choose|j: int| 0 <= j < before.len() && covers(*t, #[trigger] before[j], x);
                    assert(covers(*t, next@[j], x));
                } else {
                    let j = choose|j: int| 0 <= j < ps.len() && covers(*t, #[trigger] ps[j], x);
                    assert(covers(*t, next@[before.len() + j], x));
                }
            }
        }
        p = p + 1;
    }
    proof {
        assert(base.take(base.len() as int) =~= base);
    }
    next
}

/// The measure of a concatenation is the sum of the measures.
proof fn lemma_grains_measure_concat(t: Tree, a: Seq<Grain>, b: Seq<Grain>)
    ensures
        grains_measure(t, a + b) == grains_measure(t, a) + grains_measure(t, b),
    decreases b.len(),
{
    if b.len() == 0 {
        assert(a + b =~= a);
    } else {
        assert((a + b).drop_last() =~= a + b.drop_last());
        assert((a + b).last() == b.last());
        lemma_grains_measure_concat(t, a, b.drop_last());
    }
}


/// An instance grain and the answer entry it becomes.
pub open spec fn point_entry(g: Grain, e: (usize, u64)) -> bool {
    match g.kind {
        GrainKind::Point { i } => e == (i, g.lo),
        _ => false,
    }
}

/// The shared sieve engine: rounds of threshold, prune and subdivide until
/// only resolved instances are left, then exact selection among them.  The
/// two variants differ only in the seed handed in.
#[verifier::rlimit(100)]
#[verifier::spinoff_prover]
pub(crate) fn sieve_core<T, D: Dataset<T>>(
    t: &Tree,
    data: &D,
    q: &T,
    k: usize,
    grains_init: Vec<Grain>,
) -> (res: Vec<(usize, u64)>)
    requires
        t.wf(),
        valid_query(*t, *data, *q),
        k >= 1,
        t.size >= 1,
        grains_all_wf(*t, *data, *q, grains_init@),
        grains_disjoint(*t, grains_init@),
        forall|i: usize|
            #[trigger] t.all_indices().contains(i) ==> covered_g(*t, grains_init@, i),
    ensures
        is_knn_result(*t, *data, *q, k as int, res@),
{
    let mut grains = grains_init;
    let ghost mut removed: Set<usize> = Set::empty();
    let ghost m = min_k(k as int, t.size as int);
    let mut hc = find_cluster_grain(&grains);
    #[verifier::loop_isolation(true)]
    while hc.is_some()
        invariant
            t.wf(),
            valid_query(*t, *data, *q),
            k >= 1,
            t.size >= 1,
            m == min_k(k as int, t.size as int),
            grains_all_wf(*t, *data, *q, grains@),
            grains_disjoint(*t, grains@),
            forall|i: usize|
                #[trigger] t.all_indices().contains(i) ==> covered_g(*t, grains@, i)
                    || removed.contains(i),
            forall|x: usize|
                #[trigger] removed.contains(x) ==> t.all_indices().contains(x) && live_ruled(
                    *t,
                    *data,
                    *q,
                    grains@,
                    m,
                    x,
                ),
            match hc {
                Some(p) => (p as int) < grains@.len() && is_cluster_grain(grains@[p as int]),
                None => forall|p: int|
                    0 <= p < grains@.len() ==> !is_cluster_grain(#[trigger] grains@[p]),
            },
        decreases grains_measure(*t, grains@),
    {
        let ghost entry_seq = grains@;
        let ghost p_cl = hc->Some_0 as int;
        let th = threshold(&grains, k);
        let pr = prune(t, data, q, k, grains, th, Ghost(removed));
        grains = pr.0;
        proof {
            removed = pr.1@;
        }
        let ghost kept_seq = grains@;
        let next = subdivide(t, data, q, grains);
        grains = next;
        proof {
            // cover and certificates carry through the subdivision, whose
            // pieces cover exactly what the survivors covered
            assert forall|i: usize|
                #[trigger] t.all_indices().contains(i) implies covered_g(*t, grains@, i)
                || removed.contains(i) by {
                if covered_g(*t, kept_seq, i) {
                    let p0 = choose|p0: int|
                        0 <= p0 < kept_seq.len() && covers(*t, #[trigger] kept_seq[p0], i);
                }
            }
            assert forall|x: usize| #[trigger] removed.contains(x) implies t.all_indices().contains(
                x,
            ) && live_ruled(*t, *data, *q, grains@, m, x) by {
                let dx = data.dist(*q, x as int);
                let w = choose|w: Seq<usize>|
                    {
                        &&& #[trigger] w.no_duplicates()
                        &&& w.len() >= m
                        &&& forall|j: int|
                            0 <= j < w.len() ==> covered_g(*t, kept_seq, #[trigger] w[j])
                                && data.dist(*q, w[j] as int) <= dx
                    };
                assert forall|j: int|
                    0 <= j < w.len() implies covered_g(*t, grains@, #[trigger] w[j]) && data.dist(
                    *q,
                    w[j] as int,
                ) <= dx by {
                    let p0 = choose|p0: int|
                        0 <= p0 < kept_seq.len() && covers(*t, #[trigger] kept_seq[p0], w[j]);
                }
                assert(live_ruled(*t, *data, *q, grains@, m, x));
            }
            // strict progress: the cluster grain found at entry was either
            // pruned (strictly smaller survivors) or subdivided
            assert(is_cluster_grain(entry_seq[p_cl]));
            if exists|j: int| 0 <= j < kept_seq.len() && kept_seq[j] == entry_seq[p_cl] {
                let j = choose|j: int| 0 <= j < kept_seq.len() && kept_seq[j] == entry_seq[p_cl];
                assert(is_cluster_grain(kept_seq[j]));
                assert(grains_measure(*t, grains@) < grains_measure(*t, kept_seq));
            } else {
                assert(grains_measure(*t, kept_seq) < grains_measure(*t, entry_seq));
            }
        }
        hc = find_cluster_grain(&grains);
    }
    // only resolved instances remain: read them off
    let mut entries: Vec<(usize, u64)> = Vec::new();
    let mut p: usize = 0;
    while p < grains.len()
        invariant
            p <= grains@.len(),
            entries@.len() == p as int,
            forall|j: int| 0 <= j < p as int ==> point_entry(grains@[j], #[trigger] entries@[j]),
        decreases grains@.len() - p,
    {
        let g = grains[p];
        match g.kind {
            GrainKind::Point { i } => {
                entries.push((i, g.lo));
            },
            GrainKind::Whole { c: _ } => {
                proof {
                    assert(is_cluster_grain(grains@[p as int]));
                    assert(false);
                }
            },
            GrainKind::Rest { c: _ } => {
                proof {
                    assert(is_cluster_grain(grains@[p as int]));
                    assert(false);
                }
            },
        }
        p = p + 1;
    }
    proof {
        assert forall|a: int, b: int| 0 <= a < b < entries@.len() implies (
        #[trigger] entries@[a]).0 != (#[trigger] entries@[b]).0 by {
            assert(covers(*t, grains@[a], entries@[a].0));
            if entries@[a].0 == entries@[b].0 {
                assert(covers(*t, grains@[b], entries@[a].0));
            }
        }
        assert forall|j: int| 0 <= j < entries@.len() implies entry_ok(
            *t,
            *data,
            *q,
            #[trigger] entries@[j],
        ) by {
            assert(grain_wf(*t, *data, *q, grains@[j]));
        }
        assert forall|i: usize|
            #[trigger] t.all_indices().contains(i) implies has_index(entries@, i)
            || removed.contains(i) by {
            if covered_g(*t, grains@, i) {
                let p0 = choose|p0: int|
                    0 <= p0 < grains@.len() && covers(*t, #[trigger] grains@[p0], i);
                assert(point_entry(grains@[p0], entries@[p0]));
                assert(entries@[p0].0 == i);
            }
        }
        assert forall|x: usize| #[trigger] removed.contains(x) implies ruled_out(
            *t,
            *data,
            *q,
            m,
            entries@,
            x,
        ) by {
            let dx = data.dist(*q, x as int);
            let w = choose|w: Seq<usize>|
                {
                    &&& #[trigger] w.no_duplicates()
                    &&& w.len() >= m
                    &&& forall|j: int|
                        0 <= j < w.len() ==> covered_g(*t, grains@, #[trigger] w[j]) && data.dist(
                            *q,
                            w[j] as int,
                        ) <= dx
                };
            assert forall|j: int| 0 <= j < w.len() implies has_entry_le(
                entries@,
                #[trigger] w[j],
                dx,
            ) by {
                let p0 = choose|p0: int|
                    0 <= p0 < grains@.len() && covers(*t, #[trigger] grains@[p0], w[j]);
                assert(point_entry(grains@[p0], entries@[p0]));
                assert(entries@[p0].0 == w[j]);
                assert(grain_wf(*t, *data, *q, grains@[p0]));
                assert(entries@[p0].1 as int == data.dist(*q, w[j] as int));
            }
        }
    }
    finish(t, data, q, k, entries, Ghost(removed))
}


/// Seeds the working set with the root cluster as one grain.
pub(crate) fn seed_root<T, D: Dataset<T>>(t: &Tree, data: &D, q: &T) -> (seed: Vec<Grain>)
    requires
        t.wf(),
        valid_query(*t, *data, *q),
    ensures
        grains_all_wf(*t, *data, *q, seed@),
        grains_disjoint(*t, seed@),
        forall|i: usize| #[trigger] t.all_indices().contains(i) ==> covered_g(*t, seed@, i),
{
    proof {
        assert(t.wf_at(t.root as int));
        assert forall|j: int|
            0 <= j < t.owned(t.root as int).len() implies t.all_indices().contains(
            #[trigger] t.owned(t.root as int)[j],
        ) by {
            assert(t.all_indices()[j] == t.owned(t.root as int)[j]);
        }
    }
    let root = t.root;
    let dc = data.query_distance(q, t.clusters[root].center);
    let g = Grain {
        kind: GrainKind::Whole { c: root },
        lo: crate::tree::d_min(dc, t.clusters[root].radius),
        hi: crate::tree::d_max(dc, t.clusters[root].radius),
        weight: t.clusters[root].cardinality,
    };
    let mut seed: Vec<Grain> = Vec::new();
    seed.push(g);
    proof {
        assert forall|i: usize| #[trigger] t.all_indices().contains(i) implies covered_g(
            *t,
            seed@,
            i,
        ) by {
            assert(covers(*t, seed@[0], i));
        }
    }
    seed
}

/// Seeds the working set with the root's center resolved exactly and the
/// rest of the root cluster as one grain.
pub(crate) fn seed_root_split<T, D: Dataset<T>>(t: &Tree, data: &D, q: &T) -> (seed: Vec<Grain>)
    requires
        t.wf(),
        valid_query(*t, *data, *q),
        t.size >= 1,
    ensures
        grains_all_wf(*t, *data, *q, seed@),
        grains_disjoint(*t, seed@),
        forall|i: usize| #[trigger] t.all_indices().contains(i) ==> covered_g(*t, seed@, i),
{
    proof {
        assert(t.wf_at(t.root as int));
        assert forall|j: int|
            0 <= j < t.owned(t.root as int).len() implies t.all_indices().contains(
            #[trigger] t.owned(t.root as int)[j],
        ) by {
            assert(t.all_indices()[j] == t.owned(t.root as int)[j]);
        }
    }
    let root = t.root;
    let ctr = t.clusters[root].center;
    let dc = data.query_distance(q, ctr);
    let gp = Grain { kind: GrainKind::Point { i: ctr }, lo: dc, hi: dc, weight: 1 };
    let gr = Grain {
        kind: GrainKind::Rest { c: root },
        lo: crate::tree::d_min(dc, t.clusters[root].radius),
        hi: crate::tree::d_max(dc, t.clusters[root].radius),
        weight: t.clusters[root].cardinality - 1,
    };
    let mut seed: Vec<Grain> = Vec::new();
    seed.push(gp);
    seed.push(gr);
    proof {
        assert(t.owned(t.root as int).contains(ctr));
        assert(t.all_indices().contains(ctr));
        assert(t.clusters@[t.root as int].cardinality >= 1);
        assert forall|i: usize| #[trigger] t.all_indices().contains(i) implies covered_g(
            *t,
            seed@,
            i,
        ) by {
            if i == ctr {
                assert(covers(*t, seed@[0], i));
            } else {
                assert(covers(*t, seed@[1], i));
            }
        }
    }
    seed
}

} // verus!
