//! Expanding-threshold search: a two-queue branch and bound.
//!
//! `candidates` holds unresolved clusters prioritized by smallest `d_min`;
//! `hits` holds tentatively confirmed instances prioritized by largest exact
//! distance and trimmed to k.  The top candidate is popped and replaced by
//! its children until it is a leaf, whose instances move into `hits`.  The
//! loop stops when no candidate is left or the best remaining candidate
//! cannot beat the current worst hit.  Both queues are held as plain
//! vectors with linear extraction, one per priority direction.

use vstd::prelude::*;

use crate::dataset::Dataset;

use crate::results::{
    distinct_indices, entry_ok, finish, has_entry_le, has_index, indices_of, is_knn_result,
    lemma_concat_nodup_parts, min_k, ruled_out,
};
use crate::tree::{d_min, lemma_bounds_valid, spec_d_min, valid_query, Tree};

verus! {

/// A well-formed candidate: a cluster of the tree paired with its `d_min`,
/// whose instances are instances of the whole tree.
pub open spec fn cand_wf<T, D: Dataset<T>>(t: Tree, data: D, q: T, e: (usize, u64)) -> bool {
    &&& 0 <= (e.0 as int) < t.len()
    &&& (e.1 as int) == spec_d_min(
        data.dist(q, t.clusters@[e.0 as int].center as int),
        t.clusters@[e.0 as int].radius as int,
    )
    &&& (forall|j: int|
        0 <= j < t.owned(e.0 as int).len() ==> t.all_indices().contains(
            #[trigger] t.owned(e.0 as int)[j],
        ))
}

/// Instance `i` lies under some candidate cluster.
pub open spec fn covered(t: Tree, cands: Seq<(usize, u64)>, i: usize) -> bool {
    exists|p: int| 0 <= p < cands.len() && t.owned((#[trigger] cands[p]).0 as int).contains(i)
}

/// The total number of clusters below the candidate queue: the termination
/// measure of the traversal.
pub open spec fn cands_measure(t: Tree, s: Seq<(usize, u64)>) -> nat
    decreases s.len(),
{
    if s.len() == 0 {
        0
    } else {
        cands_measure(t, s.drop_last()) + t.subtree_size(s.last().0 as int)
    }
}

proof fn lemma_measure_remove(t: Tree, s: Seq<(usize, u64)>, i: int)
    requires
        0 <= i < s.len(),
    ensures
        cands_measure(t, s.remove(i)) + t.subtree_size(s[i].0 as int) == cands_measure(t, s),
    decreases s.len(),
{
    if i == s.len() - 1 {
        assert(s.remove(i) =~= s.drop_last());
    } else {
        assert(s.remove(i).drop_last() =~= s.drop_last().remove(i));
        assert(s.remove(i).last() == s.last());
        lemma_measure_remove(t, s.drop_last(), i);
    }
}

proof fn lemma_measure_push(t: Tree, s: Seq<(usize, u64)>, e: (usize, u64))
    ensures
        cands_measure(t, s.push(e)) == cands_measure(t, s) + t.subtree_size(e.0 as int),
{
    assert(s.push(e).drop_last() =~= s);
    assert(s.push(e).last() == e);
}

/// Two-queue branch-and-bound k-nearest-neighbor search.
#[verifier::rlimit(60)]
pub fn search<T, D: Dataset<T>>(t: &Tree, data: &D, q: &T, k: usize) -> (res: Vec<(usize, u64)>)
    requires
        t.wf(),
        valid_query(*t, *data, *q),
    ensures
        is_knn_result(*t, *data, *q, k as int, res@),
{
    let n = t.size;
    if k == 0 || n == 0 {
        let res: Vec<(usize, u64)> = Vec::new();
        proof {
            assert(min_k(k as int, t.size as int) == 0);
        }
        return res;
    }
    let root = t.root;
    let mut cands: Vec<(usize, u64)> = Vec::new();
    let mut hits: Vec<(usize, u64)> = Vec::new();
    let ghost mut removed: Set<usize> = Set::empty();
    proof {
        assert(t.wf_at(root as int));
        assert forall|j: int|
            0 <= j < t.all_indices().len() implies t.all_indices().contains(
            #[trigger] t.all_indices()[j],
        ) by {}
    }
    let dc_root = data.query_distance(q, t.clusters[root].center);
    let lo_root = d_min(dc_root, t.clusters[root].radius);
    cands.push((root, lo_root));
    proof {
        assert forall|j: int|
            0 <= j < t.owned(root as int).len() implies t.all_indices().contains(
            #[trigger] t.owned(root as int)[j],
        ) by {
            assert(t.all_indices()[j] == t.owned(root as int)[j]);
        }
        assert(cand_wf(*t, *data, *q, (root, lo_root)));
        assert forall|i: usize| #[trigger]
            t.all_indices().contains(i) implies covered(*t, cands@, i) by {
            assert(t.owned(cands@[0].0 as int).contains(i));
        }
    }
    #[verifier::loop_isolation(true)]
    while cands.len() > 0
        invariant
            t.wf(),
            valid_query(*t, *data, *q),
            k >= 1,
            forall|p: int| 0 <= p < cands@.len() ==> cand_wf(*t, *data, *q, #[trigger] cands@[p]),
            forall|p1: int, p2: int, x: usize|
                0 <= p1 < cands@.len() && 0 <= p2 < cands@.len() && p1 != p2 && (#[trigger] t.owned(
                    cands@[p1].0 as int,
                ).contains(x)) ==> !(#[trigger] t.owned(cands@[p2].0 as int).contains(x)),
            distinct_indices(hits@),
            forall|p: int| 0 <= p < hits@.len() ==> entry_ok(*t, *data, *q, #[trigger] hits@[p]),
            forall|ph: int, pc: int|
                0 <= ph < hits@.len() && 0 <= pc < cands@.len() ==> !t.owned(
                    (#[trigger] cands@[pc]).0 as int,
                ).contains((#[trigger] hits@[ph]).0),
            hits@.len() <= k as int,
            forall|i: usize|
                #[trigger] t.all_indices().contains(i) ==> has_index(hits@, i)
                    || removed.contains(i) || covered(*t, cands@, i),
            forall|x: usize|
                #[trigger] removed.contains(x) ==> ruled_out(*t, *data, *q, k as int, hits@, x),
        ensures
            distinct_indices(hits@),
            forall|p: int| 0 <= p < hits@.len() ==> entry_ok(*t, *data, *q, #[trigger] hits@[p]),
            forall|i: usize|
                #[trigger] t.all_indices().contains(i) ==> has_index(hits@, i)
                    || removed.contains(i),
            forall|x: usize|
                #[trigger] removed.contains(x) ==> ruled_out(*t, *data, *q, k as int, hits@, x),
        decreases cands_measure(*t, cands@),
    {
        // best remaining candidate: smallest d_min
        let mut pmin: usize = 0;
        let mut p: usize = 1;
        while p < cands.len()
            invariant
                (pmin as int) < cands@.len(),
                p <= cands@.len(),
                forall|j: int| 0 <= j < p ==> cands@[pmin as int].1 <= (#[trigger] cands@[j]).1,
            decreases cands@.len() - p,
        {
            if cands[p].1 < cands[pmin].1 {
                pmin = p;
            }
            p = p + 1;
        }
        if hits.len() >= k {
            // worst current hit
            let mut pmax: usize = 0;
            let mut ph: usize = 1;
            while ph < hits.len()
                invariant
                    (pmax as int) < hits@.len(),
                    ph <= hits@.len(),
                    forall|j: int| 0 <= j < ph ==> hits@[pmax as int].1 >= (#[trigger] hits@[j]).1,
                decreases hits@.len() - ph,
            {
                if hits[ph].1 > hits[pmax].1 {
                    pmax = ph;
                }
                ph = ph + 1;
            }
            if cands[pmin].1 >= hits[pmax].1 {
                // the best candidate cannot beat the worst hit: discard all
                proof {
                    let hmax = hits@[pmax as int].1;
                    let old_removed = removed;
                    removed = Set::new(
                        |x: usize| old_removed.contains(x) || covered(*t, cands@, x),
                    );
                    assert forall|x: usize| #[trigger] removed.contains(x) implies ruled_out(
                        *t,
                        *data,
                        *q,
                        k as int,
                        hits@,
                        x,
                    ) by {
                        if !old_removed.contains(x) {
                            let pc = choose|pc: int|
                                0 <= pc < cands@.len() && t.owned(
                                    (#[trigger] cands@[pc]).0 as int,
                                ).contains(x);
                            let c = cands@[pc].0 as int;
                            let j = choose|j: int|
                                0 <= j < t.owned(c).len() && t.owned(c)[j] == x;
                            lemma_bounds_valid(*t, *data, *q, c, j);
                            assert(data.dist(*q, x as int) >= cands@[pc].1 as int);
                            assert(cands@[pc].1 >= cands@[pmin as int].1);
                            let w = indices_of(hits@);
                            assert forall|a: int, b: int| 0 <= a < b < w.len() implies w[a]
                                != w[b] by {
                                assert(w[a] == hits@[a].0 && w[b] == hits@[b].0);
                            }
                            assert(w.no_duplicates());
                            assert forall|pw: int| 0 <= pw < w.len() implies has_entry_le(
                                hits@,
                                #[trigger] w[pw],
                                data.dist(*q, x as int),
                            ) by {
                                assert(w[pw] == hits@[pw].0);
                                assert(hits@[pw].1 <= hmax);
                            }
                        }
                    }
                    assert forall|i: usize|
                        #[trigger] t.all_indices().contains(i) implies has_index(hits@, i)
                        || removed.contains(i) by {
                        if covered(*t, cands@, i) {
                            assert(removed.contains(i));
                        }
                    }
                }
                break ;
            }
        }
        let ghost old_cands = cands@;
        let ghost old_measure = cands_measure(*t, cands@);
        let (c, _clo) = cands.remove(pmin);
        proof {
            lemma_measure_remove(*t, old_cands, pmin as int);
            old_cands.remove_ensures(pmin as int);
            assert(t.wf_at(c as int));
            assert(t.subtree_size(c as int) >= 1);
            assert forall|j: int|
                0 <= j < t.owned(c as int).len() implies t.all_indices().contains(
                #[trigger] t.owned(c as int)[j],
            ) by {
                assert(cand_wf(*t, *data, *q, old_cands[pmin as int]));
            }
        }
        let cl = &t.clusters[c];
        if !cl.is_leaf {
            // replace the candidate by its two children
            proof {
                assert(t.wf_at(cl.left as int));
                assert(t.wf_at(cl.right as int));
            }
            let dcl = data.query_distance(q, t.clusters[cl.left].center);
            let dcr = data.query_distance(q, t.clusters[cl.right].center);
            let ghost mid_cands = cands@;
            let lol = d_min(dcl, t.clusters[cl.left].radius);
            let lor = d_min(dcr, t.clusters[cl.right].radius);
            proof {
                let lo_s = t.owned(cl.left as int);
                let ro_s = t.owned(cl.right as int);
                assert(t.owned(c as int) == lo_s + ro_s);
                lemma_concat_nodup_parts(lo_s, ro_s);
                assert forall|j: int| 0 <= j < lo_s.len() implies t.owned(c as int).contains(
                    #[trigger] lo_s[j],
                ) by {
                    assert(t.owned(c as int)[j] == lo_s[j]);
                }
                assert forall|j: int| 0 <= j < ro_s.len() implies t.owned(c as int).contains(
                    #[trigger] ro_s[j],
                ) by {
                    assert(t.owned(c as int)[lo_s.len() + j] == ro_s[j]);
                }
            }
            cands.push((cl.left, lol));
            cands.push((cl.right, lor));
            proof {
                lemma_measure_push(*t, mid_cands, (cl.left, lol));
                lemma_measure_push(*t, mid_cands.push((cl.left, lol)), (cl.right, lor));
                assert(t.wf_at(cl.left as int) && t.wf_at(cl.right as int));
                assert(t.subtree_size(c as int) == 1 + t.subtree_size(cl.left as int)
                    + t.subtree_size(cl.right as int));
                assert(cands_measure(*t, cands@) < old_measure);
                // cover: an instance under the popped cluster is under a child
                assert forall|i: usize|
                    #[trigger] t.all_indices().contains(i) implies has_index(hits@, i)
                    || removed.contains(i) || covered(*t, cands@, i) by {
                    if !has_index(hits@, i) && !removed.contains(i) {
                        let pc = choose|pc: int|
                            0 <= pc < old_cands.len() && t.owned(
                                (#[trigger] old_cands[pc]).0 as int,
                            ).contains(i);
                        if pc == pmin as int {
                            let j = choose|j: int|
                                0 <= j < t.owned(c as int).len() && t.owned(c as int)[j] == i;
                            if j < t.owned(cl.left as int).len() {
                                assert(t.owned(cl.left as int)[j] == i);
                                assert(cands@[cands@.len() - 2].0 == cl.left);
                            } else {
                                assert(t.owned(cl.right as int)[j - t.owned(
                                    cl.left as int,
                                ).len()] == i);
                                assert(cands@[cands@.len() - 1].0 == cl.right);
                            }
                        } else {
                            let pc2: int = if pc < pmin as int {
                                pc
                            } else {
                                pc - 1
                            };
                            assert(cands@[pc2] == old_cands[pc]);
                        }
                    }
                }
            }
        } else {
            // move every leaf instance into the hit queue, then trim to k
            let ghost pre_hits = hits@;
            let mut j: usize = 0;
            proof {
                assert(t.owned(c as int) == cl.instances@);
            }
            while j < cl.instances.len()
                invariant
                    j <= cl.instances@.len(),
                    distinct_indices(hits@),
                    forall|p0: int|
                        0 <= p0 < hits@.len() ==> entry_ok(*t, *data, *q, #[trigger] hits@[p0]),
                    hits@.len() == pre_hits.len() + j as int,
                    hits@.subrange(0, pre_hits.len() as int) == pre_hits,
                    forall|p0: int|
                        pre_hits.len() <= p0 < hits@.len() ==> (#[trigger] hits@[p0]).0
                            == cl.instances@[p0 - pre_hits.len()],
                    forall|jj: int|
                        0 <= jj < j as int ==> has_index(hits@, #[trigger] cl.instances@[jj]),
                    forall|ph: int, pc: int|
                        0 <= ph < hits@.len() && 0 <= pc < cands@.len() ==> !t.owned(
                            (#[trigger] cands@[pc]).0 as int,
                        ).contains((#[trigger] hits@[ph]).0),
                decreases cl.instances@.len() - j as int,
            {
                let idx = cl.instances[j];
                proof {
                    assert(t.owned(c as int)[j as int] == idx);
                    assert((idx as int) < t.size as int);
                    assert(t.all_indices().contains(idx));
                }
                let d = data.query_distance(q, idx);
                let ghost before = hits@;
                hits.push((idx, d));
                proof {
                    assert(hits@.subrange(0, pre_hits.len() as int) =~= pre_hits);
                    assert forall|x: int, y: int| 0 <= x < y < hits@.len() implies (
                    #[trigger] hits@[x]).0 != (#[trigger] hits@[y]).0 by {
                        if y == hits@.len() - 1 {
                            assert(hits@[y] == (idx, d));
                            if x >= pre_hits.len() {
                                assert(hits@[x] == before[x]);
                                assert(hits@[x].0 == cl.instances@[x - pre_hits.len()]);
                                assert(t.owned(c as int).no_duplicates());
                            } else {
                                assert(hits@[x] == pre_hits[x]);
                                assert(!t.owned(
                                    (old_cands[pmin as int]).0 as int,
                                ).contains(pre_hits[x].0));
                            }
                        } else {
                            assert(hits@[x] == before[x] && hits@[y] == before[y]);
                        }
                    }
                    assert forall|jj: int|
                        0 <= jj < (j + 1) as int implies has_index(
                        hits@,
                        #[trigger] cl.instances@[jj],
                    ) by {
                        if jj < j as int {
                            let p0 = choose|p0: int|
                                0 <= p0 < before.len() && (#[trigger] before[p0]).0
                                    == cl.instances@[jj];
                            assert(hits@[p0] == before[p0]);
                        } else {
                            assert(hits@[hits@.len() - 1] == (idx, d));
                        }
                    }
                    assert forall|ph: int, pc: int|
                        0 <= ph < hits@.len() && 0 <= pc < cands@.len() implies !t.owned(
                        (#[trigger] cands@[pc]).0 as int,
                    ).contains((#[trigger] hits@[ph]).0) by {
                        let pc_old: int = if pc < pmin as int {
                            pc
                        } else {
                            pc + 1
                        };
                        assert(cands@[pc] == old_cands[pc_old]);
                        if ph == hits@.len() - 1 {
                            assert(hits@[ph].0 == idx);
                            assert(t.owned(c as int).contains(idx));
                        } else {
                            assert(hits@[ph] == before[ph]);
                        }
                    }
                }
                j = j + 1;
            }
            // justification survives the pushes
            proof {
                assert forall|x: usize| #[trigger] removed.contains(x) implies ruled_out(
                    *t,
                    *data,
                    *q,
                    k as int,
                    hits@,
                    x,
                ) by {
                    let dx = data.dist(*q, x as int);
                    let w = choose|w: Seq<usize>|
                        {
                            &&& #[trigger] w.no_duplicates()
                            &&& w.len() >= k as int
                            &&& forall|pw: int|
                                0 <= pw < w.len() ==> has_entry_le(pre_hits, #[trigger] w[pw], dx)
                        };
                    assert forall|pw: int| 0 <= pw < w.len() implies has_entry_le(
                        hits@,
                        #[trigger] w[pw],
                        dx,
                    ) by {
                        let p0 = choose|p0: int|
                            0 <= p0 < pre_hits.len() && (#[trigger] pre_hits[p0]).0 == w[pw] && (
                            pre_hits[p0].1 as int) <= dx;
                        assert(hits@.subrange(0, pre_hits.len() as int)[p0] == hits@[p0]);
                        assert(hits@[p0] == pre_hits[p0]);
                    }
                }
                // cover after the pop: leaf instances are now hits
                assert forall|i: usize|
                    #[trigger] t.all_indices().contains(i) implies has_index(hits@, i)
                    || removed.contains(i) || covered(*t, cands@, i) by {
                    if !has_index(hits@, i) && !removed.contains(i) {
                        let pc = choose|pc: int|
                            0 <= pc < old_cands.len() && t.owned(
                                (#[trigger] old_cands[pc]).0 as int,
                            ).contains(i);
                        if pc == pmin as int {
                            let jj = choose|jj: int|
                                0 <= jj < t.owned(c as int).len() && t.owned(c as int)[jj] == i;
                            assert(has_index(hits@, cl.instances@[jj]));
                            assert(false);
                        } else {
                            let pc2: int = if pc < pmin as int {
                                pc
                            } else {
                                pc - 1
                            };
                            assert(cands@[pc2] == old_cands[pc]);
                        }
                    }
                }
            }
            // trim the hit queue to the k best
            while hits.len() > k
                invariant
                    distinct_indices(hits@),
                    forall|p0: int|
                        0 <= p0 < hits@.len() ==> entry_ok(*t, *data, *q, #[trigger] hits@[p0]),
                    forall|ph: int, pc: int|
                        0 <= ph < hits@.len() && 0 <= pc < cands@.len() ==> !t.owned(
                            (#[trigger] cands@[pc]).0 as int,
                        ).contains((#[trigger] hits@[ph]).0),
                    forall|i: usize|
                        #[trigger] t.all_indices().contains(i) ==> has_index(hits@, i)
                            || removed.contains(i) || covered(*t, cands@, i),
                    forall|x: usize|
                        #[trigger] removed.contains(x) ==> ruled_out(
                            *t,
                            *data,
                            *q,
                            k as int,
                            hits@,
                            x,
                        ),
                decreases hits@.len(),
            {
                let mut pmax: usize = 0;
                let mut ph: usize = 1;
                while ph < hits.len()
                    invariant
                        (pmax as int) < hits@.len(),
                        ph <= hits@.len(),
                        forall|j0: int|
                            0 <= j0 < ph ==> hits@[pmax as int].1 >= (#[trigger] hits@[j0]).1,
                    decreases hits@.len() - ph,
                {
                    if hits[ph].1 > hits[pmax].1 {
                        pmax = ph;
                    }
                    ph = ph + 1;
                }
                let ghost old_hits = hits@;
                let evicted = hits.remove(pmax);
                proof {
                    old_hits.remove_ensures(pmax as int);
                    let de = data.dist(*q, evicted.0 as int);
                    assert((evicted.1 as int) == de);
                    let old_removed = removed;
                    removed = removed.insert(evicted.0);
                    assert forall|x: usize| #[trigger] removed.contains(x) implies ruled_out(
                        *t,
                        *data,
                        *q,
                        k as int,
                        hits@,
                        x,
                    ) by {
                        let dx = data.dist(*q, x as int);
                        let wf_new = indices_of(hits@);
                        assert forall|a: int, b: int| 0 <= a < b < wf_new.len() implies wf_new[a]
                            != wf_new[b] by {
                            assert(wf_new[a] == hits@[a].0 && wf_new[b] == hits@[b].0);
                        }
                        assert(wf_new.no_duplicates());
                        if x == evicted.0 || (old_removed.contains(x) && evicted.1 as int <= dx) {
                            // every surviving hit is at most the evicted
                            // one, which is at most x's distance
                            assert(wf_new.len() >= k as int);
                            assert forall|pw: int| 0 <= pw < wf_new.len() implies has_entry_le(
                                hits@,
                                #[trigger] wf_new[pw],
                                dx,
                            ) by {
                                assert(wf_new[pw] == hits@[pw].0);
                                if pw < pmax as int {
                                    assert(hits@[pw] == old_hits[pw]);
                                } else {
                                    assert(hits@[pw] == old_hits[pw + 1]);
                                }
                                assert(hits@[pw].1 <= evicted.1);
                            }
                        } else {
                            // x was ruled out before; its witnesses sit
                            // strictly below the evicted hit, so they stay
                            assert(old_removed.contains(x));
                            let w = choose|w: Seq<usize>|
                                {
                                    &&& #[trigger] w.no_duplicates()
                                    &&& w.len() >= k as int
                                    &&& forall|pw: int|
                                        0 <= pw < w.len() ==> has_entry_le(
                                            old_hits,
                                            #[trigger] w[pw],
                                            dx,
                                        )
                                };
                            assert forall|pw: int| 0 <= pw < w.len() implies has_entry_le(
                                hits@,
                                #[trigger] w[pw],
                                dx,
                            ) by {
                                let p0 = choose|p0: int|
                                    0 <= p0 < old_hits.len() && (#[trigger] old_hits[p0]).0
                                        == w[pw] && (old_hits[p0].1 as int) <= dx;
                                assert(old_hits[p0].1 as int <= dx < evicted.1 as int);
                                assert(p0 != pmax as int);
                                if p0 < pmax as int {
                                    assert(hits@[p0] == old_hits[p0]);
                                } else {
                                    assert(hits@[p0 - 1] == old_hits[p0]);
                                }
                            }
                        }
                    }
                    assert forall|i: usize|
                        #[trigger] t.all_indices().contains(i) implies has_index(hits@, i)
                        || removed.contains(i) || covered(*t, cands@, i) by {
                        if !removed.contains(i) && !covered(*t, cands@, i) {
                            assert(has_index(old_hits, i));
                            let p0 = choose|p0: int|
                                0 <= p0 < old_hits.len() && (#[trigger] old_hits[p0]).0 == i;
                            if p0 == pmax as int {
                                assert(i == evicted.0);
                                assert(removed.contains(i));
                                assert(false);
                            } else if p0 < pmax as int {
                                assert(hits@[p0] == old_hits[p0]);
                            } else {
                                assert(hits@[p0 - 1] == old_hits[p0]);
                            }
                        }
                    }
                }
            }
        }
    }
    // the removal certificates carry over from k to min(k, n)
    let ghost m = min_k(k as int, t.size as int);
    proof {
        assert forall|x: usize| #[trigger] removed.contains(x) implies ruled_out(
            *t,
            *data,
            *q,
            m,
            hits@,
            x,
        ) by {
            let dx = data.dist(*q, x as int);
            let w = choose|w: Seq<usize>|
                {
                    &&& #[trigger] w.no_duplicates()
                    &&& w.len() >= k as int
                    &&& forall|pw: int| 0 <= pw < w.len() ==> has_entry_le(hits@, #[trigger] w[pw], dx)
                };
            assert(w.len() >= m);
        }
    }
    finish(t, data, q, k, hits, Ghost(removed))
}

} // verus!
