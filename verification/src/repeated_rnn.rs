//! Repeated range-nearest-neighbor search: run a pruned range query with a
//! small seed radius, grow the radius until at least `min(k, n)` instances
//! fall inside, then select the k nearest among them.
//!
//! The radius grows in two phases.  While no instance is inside, the radius
//! doubles.  Once some are, the growth step is chosen from a local
//! fractal dimension surrogate — the ratio between the hit counts at the
//! current radius and at half of it: when the count did not at least double
//! from the half radius (the neighborhood looks low-dimensional), the radius
//! doubles, otherwise it grows by half; the factor is thereby capped at 2.
//! Either way the radius is capped at the root's upper bound `d_max`, where
//! the range query provably returns the whole dataset, so both phases
//! terminate.

use vstd::prelude::*;

use crate::dataset::Dataset;
use crate::results::{
    distinct_indices, entry_ok, finish, has_index, indices_of, is_knn_result,
    lemma_concat_nodup_parts, lemma_indices_present, min_k, ruled_out,
};
use crate::tree::{d_max, d_min, lemma_bounds_valid, valid_query, Tree};

verus! {

/// The entries appended to `out` by a subtree traversal: real instances of
/// the subtree with their true distances, no duplicates, prefix untouched.
pub open spec fn appended_ok<T, D: Dataset<T>>(
    t: Tree,
    data: D,
    q: T,
    c: int,
    prev: Seq<(usize, u64)>,
    now: Seq<(usize, u64)>,
) -> bool {
    &&& now.len() >= prev.len()
    &&& now.subrange(0, prev.len() as int) == prev
    &&& distinct_indices(now)
    &&& forall|p: int|
        prev.len() <= p < now.len() ==> {
            let e = #[trigger] now[p];
            &&& t.owned(c).contains(e.0)
            &&& entry_ok(t, data, q, e)
        }
}

/// Requirements shared by the subtree traversals: the prefix already in
/// `out` is well formed and disjoint from the subtree, and the subtree's
/// instances are instances of the whole tree.
pub open spec fn traversal_pre<T, D: Dataset<T>>(
    t: Tree,
    data: D,
    q: T,
    c: int,
    prev: Seq<(usize, u64)>,
) -> bool {
    &&& t.wf()
    &&& valid_query(t, data, q)
    &&& 0 <= c < t.len()
    &&& distinct_indices(prev)
    &&& (forall|p: int| 0 <= p < prev.len() ==> entry_ok(t, data, q, #[trigger] prev[p]))
    &&& (forall|p: int| 0 <= p < prev.len() ==> !t.owned(c).contains((#[trigger] prev[p]).0))
    &&& (forall|j: int|
        0 <= j < t.owned(c).len() ==> t.all_indices().contains(#[trigger] t.owned(c)[j]))
}

/// Appends every instance of the subtree at `c`, with its true distance.
fn collect_subtree<T, D: Dataset<T>>(
    t: &Tree,
    data: &D,
    q: &T,
    c: usize,
    out: &mut Vec<(usize, u64)>,
)
    requires
        traversal_pre(*t, *data, *q, c as int, old(out)@),
    ensures
        appended_ok(*t, *data, *q, c as int, old(out)@, final(out)@),
        forall|i: usize| t.owned(c as int).contains(i) ==> has_index(final(out)@, i),
    decreases t.clusters@.len() - c as int,
{
    proof {
        assert(t.wf_at(c as int));
    }
    let cl = &t.clusters[c];
    if cl.is_leaf {
        let ghost prev = out@;
        let mut j: usize = 0;
        while j < cl.instances.len()
            invariant
                j <= cl.instances.len(),
                out@.len() == prev.len() + j as int,
                out@.subrange(0, prev.len() as int) == prev,
                forall|p: int|
                    prev.len() <= p < out@.len() ==> (#[trigger] out@[p]).0 == cl.instances@[p
                        - prev.len()] && entry_ok(*t, *data, *q, out@[p]),
            decreases cl.instances@.len() - j as int,
        {
            let idx = cl.instances[j];
            proof {
                assert(t.owned(c as int) == cl.instances@);
                assert(t.owned(c as int)[j as int] == idx);
                assert((idx as int) < t.size as int);
                assert(t.all_indices().contains(idx));
            }
            let d = data.query_distance(q, idx);
            let ghost before = out@;
            out.push((idx, d));
            proof {
                assert(out@.subrange(0, prev.len() as int) =~= prev);
                assert forall|p: int|
                    prev.len() <= p < out@.len() implies (#[trigger] out@[p]).0 == cl.instances@[p
                    - prev.len()] && entry_ok(*t, *data, *q, out@[p]) by {
                    if p < before.len() {
                        assert(out@[p] == before[p]);
                    } else {
                        assert(out@[p] == (idx, d));
                    }
                }
            }
            j = j + 1;
        }
        proof {
            assert(t.owned(c as int) == cl.instances@);
            assert forall|i: usize| t.owned(c as int).contains(i) implies has_index(out@, i) by {
                let jj = choose|jj: int|
                    0 <= jj < cl.instances@.len() && cl.instances@[jj] == i;
                assert(out@[prev.len() + jj].0 == i);
            }
            assert forall|x: int, y: int| 0 <= x < y < out@.len() implies (#[trigger] out@[x]).0
                != (#[trigger] out@[y]).0 by {
                if x >= prev.len() {
                    assert(t.owned(c as int).no_duplicates());
                } else if y >= prev.len() {
                    assert(t.owned(c as int).contains(out@[y].0));
                    assert(out@[x] == prev[x]);
                } else {
                    assert(out@[x] == prev[x] && out@[y] == prev[y]);
                }
            }
        }
    } else {
        let ghost prev = out@;
        proof {
            let lo = t.owned(cl.left as int);
            let ro = t.owned(cl.right as int);
            assert(t.owned(c as int) == lo + ro);
            lemma_concat_nodup_parts(lo, ro);
            assert forall|j: int| 0 <= j < lo.len() implies t.owned(c as int).contains(
                #[trigger] lo[j],
            ) by {
                assert(t.owned(c as int)[j] == lo[j]);
            }
            assert forall|j: int| 0 <= j < ro.len() implies t.owned(c as int).contains(
                #[trigger] ro[j],
            ) by {
                assert(t.owned(c as int)[lo.len() + j] == ro[j]);
            }
        }
        collect_subtree(t, data, q, cl.left, out);
        let ghost mid = out@;
        proof {
            let lo = t.owned(cl.left as int);
            let ro = t.owned(cl.right as int);
            assert forall|p: int| 0 <= p < mid.len() implies entry_ok(*t, *data, *q, #[trigger] mid[p]) by {
                if p < prev.len() {
                    assert(mid.subrange(0, prev.len() as int)[p] == mid[p]);
                    assert(mid[p] == prev[p]);
                }
            }
            assert forall|j: int|
                0 <= j < t.owned(cl.right as int).len() implies t.all_indices().contains(
                #[trigger] t.owned(cl.right as int)[j],
            ) by {
                assert(t.owned(c as int)[lo.len() + j] == ro[j]);
            }
            assert forall|p: int| 0 <= p < mid.len() implies !ro.contains(
                (#[trigger] mid[p]).0,
            ) by {
                if p < prev.len() {
                    assert(mid[p] == prev[p]);
                    assert(!t.owned(c as int).contains(prev[p].0));
                    if ro.contains(prev[p].0) {
                        let y = choose|y: int| 0 <= y < ro.len() && ro[y] == prev[p].0;
                        assert(t.owned(c as int)[lo.len() + y] == ro[y]);
                    }
                } else {
                    assert(lo.contains(mid[p].0));
                }
            }
        }
        collect_subtree(t, data, q, cl.right, out);
        proof {
            let lo = t.owned(cl.left as int);
            let ro = t.owned(cl.right as int);
            assert(out@.subrange(0, prev.len() as int) =~= prev) by {
                assert(out@.subrange(0, mid.len() as int) == mid);
                assert forall|p: int| 0 <= p < prev.len() implies out@[p] == prev[p] by {
                    assert(out@.subrange(0, mid.len() as int)[p] == out@[p]);
                    assert(mid.subrange(0, prev.len() as int)[p] == mid[p]);
                }
            }
            assert forall|p: int|
                prev.len() <= p < out@.len() implies t.owned(c as int).contains(
                (#[trigger] out@[p]).0,
            ) && entry_ok(*t, *data, *q, out@[p]) by {
                if p < mid.len() {
                    assert(out@.subrange(0, mid.len() as int)[p] == out@[p]);
                    assert(mid[p] == out@[p]);
                    assert(lo.contains(out@[p].0));
                    let y = choose|y: int| 0 <= y < lo.len() && lo[y] == out@[p].0;
                    assert(t.owned(c as int)[y] == lo[y]);
                } else {
                    assert(ro.contains(out@[p].0));
                    let y = choose|y: int| 0 <= y < ro.len() && ro[y] == out@[p].0;
                    assert(t.owned(c as int)[lo.len() + y] == ro[y]);
                }
            }
            assert forall|i: usize| t.owned(c as int).contains(i) implies has_index(out@, i) by {
                let j = choose|j: int| 0 <= j < t.owned(c as int).len() && t.owned(c as int)[j] == i;
                if j < lo.len() {
                    assert(lo[j] == i);
                    assert(has_index(mid, i));
                    let p = choose|p: int| 0 <= p < mid.len() && (#[trigger] mid[p]).0 == i;
                    assert(out@.subrange(0, mid.len() as int)[p] == out@[p]);
                    assert(out@[p].0 == i);
                } else {
                    assert(ro[j - lo.len()] == i);
                }
            }
        }
    }
}

/// The pruned range query: appends exactly the instances of the subtree at
/// `c` that lie within `r` of the query.  A cluster whose lower bound
/// exceeds `r` is skipped whole; one whose upper bound is within `r`
/// contributes every instance without per-instance range checks.
fn range_search<T, D: Dataset<T>>(
    t: &Tree,
    data: &D,
    q: &T,
    r: u64,
    c: usize,
    out: &mut Vec<(usize, u64)>,
)
    requires
        traversal_pre(*t, *data, *q, c as int, old(out)@),
    ensures
        appended_ok(*t, *data, *q, c as int, old(out)@, final(out)@),
        forall|p: int| old(out)@.len() <= p < final(out)@.len() ==> (#[trigger] final(out)@[p]).1 <= r,
        forall|i: usize|
            t.owned(c as int).contains(i) && data.dist(*q, i as int) <= r as int ==> has_index(
                final(out)@,
                i,
            ),
    decreases t.clusters@.len() - c as int,
{
    proof {
        assert(t.wf_at(c as int));
    }
    let cl = &t.clusters[c];
    let dc = data.query_distance(q, cl.center);
    let lo = d_min(dc, cl.radius);
    if lo > r {
        // no instance of this cluster can be within r
        proof {
            assert forall|i: usize|
                t.owned(c as int).contains(i) && data.dist(*q, i as int) <= r as int implies has_index(
                out@,
                i,
            ) by {
                let j = choose|j: int|
                    0 <= j < t.owned(c as int).len() && t.owned(c as int)[j] == i;
                lemma_bounds_valid(*t, *data, *q, c as int, j);
            }
            assert(out@.subrange(0, out@.len() as int) =~= out@);
        }
        return ;
    }
    let hi = d_max(dc, cl.radius);
    if hi <= r {
        // every instance of this cluster is within r
        let ghost prev = out@;
        collect_subtree(t, data, q, c, out);
        proof {
            assert forall|p: int| prev.len() <= p < out@.len() implies (#[trigger] out@[p]).1
                <= r by {
                assert(t.owned(c as int).contains(out@[p].0));
                let j = choose|j: int|
                    0 <= j < t.owned(c as int).len() && t.owned(c as int)[j] == out@[p].0;
                lemma_bounds_valid(*t, *data, *q, c as int, j);
            }
        }
        return ;
    }
    if cl.is_leaf {
        let ghost prev = out@;
        let mut j: usize = 0;
        while j < cl.instances.len()
            invariant
                j <= cl.instances.len(),
                out@.len() >= prev.len(),
                out@.subrange(0, prev.len() as int) == prev,
                forall|p: int|
                    prev.len() <= p < out@.len() ==> {
                        let e = #[trigger] out@[p];
                        &&& t.owned(c as int).contains(e.0)
                        &&& entry_ok(*t, *data, *q, e)
                        &&& e.1 <= r
                        &&& exists|jj: int| 0 <= jj < j as int && cl.instances@[jj] == e.0
                    },
                forall|jj: int|
                    0 <= jj < j as int && data.dist(*q, cl.instances@[jj] as int) <= r as int
                        ==> has_index(out@, #[trigger] cl.instances@[jj]),
                distinct_indices(out@),
            decreases cl.instances@.len() - j as int,
        {
            let idx = cl.instances[j];
            proof {
                assert(t.owned(c as int) == cl.instances@);
                assert(t.owned(c as int)[j as int] == idx);
                assert((idx as int) < t.size as int);
                assert(t.all_indices().contains(idx));
            }
            let d = data.query_distance(q, idx);
            let ghost before = out@;
            if d <= r {
                out.push((idx, d));
            }
            proof {
                assert(out@.subrange(0, prev.len() as int) =~= prev);
                if out@.len() > before.len() {
                    assert forall|x: int, y: int| 0 <= x < y < out@.len() implies (
                    #[trigger] out@[x]).0 != (#[trigger] out@[y]).0 by {
                        if y == out@.len() - 1 {
                            assert(out@[y] == (idx, d));
                            if x >= prev.len() {
                                let jj = choose|jj: int|
                                    0 <= jj < j as int && cl.instances@[jj] == before[x].0;
                                assert(t.owned(c as int).no_duplicates());
                                assert(out@[x] == before[x]);
                            } else {
                                assert(out@[x] == prev[x]);
                                assert(!t.owned(c as int).contains(prev[x].0));
                            }
                        } else {
                            assert(out@[x] == before[x] && out@[y] == before[y]);
                        }
                    }
                }
                assert forall|jj: int|
                    0 <= jj < (j + 1) as int && data.dist(*q, cl.instances@[jj] as int)
                        <= r as int implies has_index(out@, #[trigger] cl.instances@[jj]) by {
                    if jj < j as int {
                        assert(has_index(before, cl.instances@[jj]));
                        let p = choose|p: int|
                            0 <= p < before.len() && (#[trigger] before[p]).0
                                == cl.instances@[jj];
                        assert(out@[p] == before[p]);
                    } else {
                        assert(data.dist(*q, idx as int) == d as int);
                        assert(out@[out@.len() - 1] == (idx, d));
                    }
                }
            }
            j = j + 1;
        }
        proof {
            assert(t.owned(c as int) == cl.instances@);
            assert forall|i: usize|
                t.owned(c as int).contains(i) && data.dist(*q, i as int) <= r as int implies has_index(
                out@,
                i,
            ) by {
                let jj = choose|jj: int|
                    0 <= jj < cl.instances@.len() && cl.instances@[jj] == i;
            }
        }
    } else {
        let ghost prev = out@;
        proof {
            let lo_s = t.owned(cl.left as int);
            let ro_s = t.owned(cl.right as int);
            assert(t.owned(c as int) == lo_s + ro_s);
            lemma_concat_nodup_parts(lo_s, ro_s);
            assert forall|j: int| 0 <= j < lo_s.len() implies t.owned(c as int).contains(
                #[trigger] lo_s[j],
            ) by {
                assert(t.owned(c as int)[j] == lo_s[j]);
            }
            assert forall|j: int| 0 <= j < ro_s.len() implies t.owned(c as int).contains(
                #[trigger] ro_s[j],
            ) by {
                assert(t.owned(c as int)[lo_s.len() + j] == ro_s[j]);
            }
        }
        range_search(t, data, q, r, cl.left, out);
        let ghost mid = out@;
        proof {
            let lo_s = t.owned(cl.left as int);
            let ro_s = t.owned(cl.right as int);
            assert forall|p: int| 0 <= p < mid.len() implies entry_ok(*t, *data, *q, #[trigger] mid[p]) by {
                if p < prev.len() {
                    assert(mid.subrange(0, prev.len() as int)[p] == mid[p]);
                    assert(mid[p] == prev[p]);
                }
            }
            assert forall|j: int|
                0 <= j < t.owned(cl.right as int).len() implies t.all_indices().contains(
                #[trigger] t.owned(cl.right as int)[j],
            ) by {
                assert(t.owned(c as int)[lo_s.len() + j] == ro_s[j]);
            }
            assert forall|p: int| 0 <= p < mid.len() implies !ro_s.contains(
                (#[trigger] mid[p]).0,
            ) by {
                if p < prev.len() {
                    assert(mid[p] == prev[p]);
                    assert(!t.owned(c as int).contains(prev[p].0));
                    if ro_s.contains(prev[p].0) {
                        let y = choose|y: int| 0 <= y < ro_s.len() && ro_s[y] == prev[p].0;
                        assert(t.owned(c as int)[lo_s.len() + y] == ro_s[y]);
                    }
                } else {
                    assert(lo_s.contains(mid[p].0));
                }
            }
        }
        range_search(t, data, q, r, cl.right, out);
        proof {
            let lo_s = t.owned(cl.left as int);
            let ro_s = t.owned(cl.right as int);
            assert(out@.subrange(0, prev.len() as int) =~= prev) by {
                assert(out@.subrange(0, mid.len() as int) == mid);
                assert forall|p: int| 0 <= p < prev.len() implies out@[p] == prev[p] by {
                    assert(out@.subrange(0, mid.len() as int)[p] == out@[p]);
                    assert(mid.subrange(0, prev.len() as int)[p] == mid[p]);
                }
            }
            assert forall|p: int|
                prev.len() <= p < out@.len() implies t.owned(c as int).contains(
                (#[trigger] out@[p]).0,
            ) && entry_ok(*t, *data, *q, out@[p]) && out@[p].1 <= r by {
                if p < mid.len() {
                    assert(out@.subrange(0, mid.len() as int)[p] == out@[p]);
                    assert(mid[p] == out@[p]);
                    assert(lo_s.contains(out@[p].0));
                    let y = choose|y: int| 0 <= y < lo_s.len() && lo_s[y] == out@[p].0;
                    assert(t.owned(c as int)[y] == lo_s[y]);
                } else {
                    assert(ro_s.contains(out@[p].0));
                    let y = choose|y: int| 0 <= y < ro_s.len() && ro_s[y] == out@[p].0;
                    assert(t.owned(c as int)[lo_s.len() + y] == ro_s[y]);
                }
            }
            assert forall|i: usize|
                t.owned(c as int).contains(i) && data.dist(*q, i as int) <= r as int implies has_index(
                out@,
                i,
            ) by {
                let j = choose|j: int|
                    0 <= j < t.owned(c as int).len() && t.owned(c as int)[j] == i;
                if j < lo_s.len() {
                    assert(lo_s[j] == i);
                    assert(has_index(mid, i));
                    let p = choose|p: int| 0 <= p < mid.len() && (#[trigger] mid[p]).0 == i;
                    assert(out@.subrange(0, mid.len() as int)[p] == out@[p]);
                    assert(out@[p].0 == i);
                } else {
                    assert(ro_s[j - lo_s.len()] == i);
                }
            }
        }
    }
}


/// Adaptive-radius k-nearest-neighbor search: repeated pruned range queries
/// with a growing radius, then exact selection among the hits.
pub fn search<T, D: Dataset<T>>(t: &Tree, data: &D, q: &T, k: usize) -> (res: Vec<(usize, u64)>)
    requires
        t.wf(),
        valid_query(*t, *data, *q),
    ensures
        is_knn_result(*t, *data, *q, k as int, res@),
{
    let n = t.size;
    if k == 0 || n == 0 {
        let res: Vec<(usize, u64)> = Vec::new();
        proof {
            assert(min_k(k as int, t.size as int) == 0);
        }
        return res;
    }
    let root = t.root;
    proof {
        assert(t.wf_at(root as int));
        assert forall|j: int|
            0 <= j < t.all_indices().len() implies t.all_indices().contains(
            #[trigger] t.all_indices()[j],
        ) by {}
    }
    let cl_root = &t.clusters[root];
    let dc_root = data.query_distance(q, cl_root.center);
    let r_full = d_max(dc_root, cl_root.radius);
    // seed radius: the root radius divided by the cardinality, at least 1
    let mut r: u64 = cl_root.radius / (n as u64);
    if r == 0 {
        r = 1;
    }
    let mut out: Vec<(usize, u64)> = Vec::new();
    range_search(t, data, q, r, root, &mut out);
    // while nothing is in range, double the radius
    while out.len() == 0
        invariant
            1 <= r,
            distinct_indices(out@),
            forall|p: int|
                0 <= p < out@.len() ==> entry_ok(*t, *data, *q, #[trigger] out@[p]) && out@[p].1
                    <= r,
            forall|i: usize|
                #[trigger] t.all_indices().contains(i) && data.dist(*q, i as int) <= r as int
                    ==> has_index(out@, i),
        decreases r_full as int - r as int,
    {
        proof {
            if r >= r_full {
                assert(t.all_indices().contains(0usize));
                let j = choose|j: int|
                    0 <= j < t.all_indices().len() && t.all_indices()[j] == 0usize;
                lemma_bounds_valid(*t, *data, *q, root as int, j);
                assert(data.dist(*q, 0int) <= r as int);
                assert(has_index(out@, 0usize));
                assert(false);
            }
        }
        if r <= r_full - r {
            r = r + r;
        } else {
            r = r_full;
        }
        let mut fresh: Vec<(usize, u64)> = Vec::new();
        range_search(t, data, q, r, root, &mut fresh);
        out = fresh;
    }
    // grow the radius until min(k, n) instances are inside
    while out.len() < k && out.len() < n
        invariant
            1 <= r,
            distinct_indices(out@),
            forall|p: int|
                0 <= p < out@.len() ==> entry_ok(*t, *data, *q, #[trigger] out@[p]) && out@[p].1
                    <= r,
            forall|i: usize|
                #[trigger] t.all_indices().contains(i) && data.dist(*q, i as int) <= r as int
                    ==> has_index(out@, i),
        decreases r_full as int - r as int,
    {
        proof {
            if r >= r_full {
                assert forall|i: usize| #[trigger]
                    t.all_indices().contains(i) implies has_index(out@, i) by {
                    let j = choose|j: int|
                        0 <= j < t.all_indices().len() && t.all_indices()[j] == i;
                    lemma_bounds_valid(*t, *data, *q, root as int, j);
                }
                lemma_indices_present(*t, out@);
                assert(false);
            }
        }
        // local fractal dimension surrogate: hit counts at r and at r / 2
        let half_r = r / 2;
        let mut cnt: usize = 0;
        let mut p: usize = 0;
        while p < out.len()
            invariant
                p <= out@.len(),
                cnt <= p,
            decreases out@.len() - p,
        {
            if out[p].1 <= half_r {
                cnt = cnt + 1;
            }
            p = p + 1;
        }
        // double when the count did not at least double from the half
        // radius; otherwise grow by half (the factor is capped at 2)
        let step: u64 = if cnt > out.len() / 2 {
            if half_r > 0 {
                half_r
            } else {
                1
            }
        } else {
            r
        };
        let desired: u64 = if r <= u64::MAX - step {
            r + step
        } else {
            u64::MAX
        };
        r = if desired > r_full {
            r_full
        } else {
            desired
        };
        let mut fresh: Vec<(usize, u64)> = Vec::new();
        range_search(t, data, q, r, root, &mut fresh);
        out = fresh;
    }
    // every instance still outside the radius is beaten by min(k, n) hits
    let ghost removed = Set::new(
        |x: usize| t.all_indices().contains(x) && !has_index(out@, x),
    );
    proof {
        let m = min_k(k as int, t.size as int);
        assert(out@.len() >= m);
        assert forall|x: usize| #[trigger] removed.contains(x) implies ruled_out(
            *t,
            *data,
            *q,
            m,
            out@,
            x,
        ) by {
            assert(data.dist(*q, x as int) > r as int);
            let w = indices_of(out@).subrange(0, m);
            assert forall|a: int, b: int| 0 <= a < b < w.len() implies w[a] != w[b] by {
                assert(w[a] == out@[a].0 && w[b] == out@[b].0);
            }
            assert(w.no_duplicates());
            assert forall|p: int| 0 <= p < w.len() implies crate::results::has_entry_le(
                out@,
                #[trigger] w[p],
                data.dist(*q, x as int),
            ) by {
                assert(w[p] == out@[p].0);
                assert(out@[p].1 <= r);
            }
        }
    }
    finish(t, data, q, k, out, Ghost(removed))
}

} // verus!
