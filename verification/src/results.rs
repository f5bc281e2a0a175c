//! The shape of a correct k-nearest-neighbor answer, and the machinery every
//! strategy shares to produce one: a verified selection sort, and `finish`,
//! which turns a candidate list plus a pruning certificate into the final
//! top-k sequence.
//!
//! A strategy may discard ("rule out") instances during its traversal.  The
//! certificate it must carry is [`ruled_out`]: for each discarded instance,
//! at least `min(k, n)` distinct surviving candidates sit at distance no
//! greater than the discarded instance's distance.  That is exactly the
//! branch-and-bound safety argument, and `finish` turns it into the global
//! optimality clause of [`is_knn_result`].

use vstd::prelude::*;
use vstd::multiset::Multiset;
use vstd::seq_lib::*;

use crate::dataset::Dataset;
use crate::tree::Tree;

verus! {

/// The length of a correct answer: `k`, or the dataset cardinality if that
/// is smaller.
pub open spec fn min_k(k: int, n: int) -> int {
    if k <= n {
        k
    } else {
        n
    }
}

/// One answer entry is a real instance of the tree with its true query
/// distance.
pub open spec fn entry_ok<T, D: Dataset<T>>(t: Tree, data: D, q: T, e: (usize, u64)) -> bool {
    &&& t.all_indices().contains(e.0)
    &&& (e.1 as int) == data.dist(q, e.0 as int)
}

/// Every entry of `s` is a real instance with its true query distance.
pub open spec fn entries_ok<T, D: Dataset<T>>(t: Tree, data: D, q: T, s: Seq<(usize, u64)>) -> bool {
    forall|p: int| 0 <= p < s.len() ==> entry_ok(t, data, q, #[trigger] s[p])
}

/// Entries are sorted ascending by distance.
pub open spec fn sorted_by_distance(s: Seq<(usize, u64)>) -> bool {
    forall|a: int, b: int| 0 <= a <= b < s.len() ==> (#[trigger] s[a]).1 <= (#[trigger] s[b]).1
}

/// No dataset index appears twice.
pub open spec fn distinct_indices(s: Seq<(usize, u64)>) -> bool {
    forall|a: int, b: int| 0 <= a < b < s.len() ==> (#[trigger] s[a]).0 != (#[trigger] s[b]).0
}

/// `s` has an entry for index `i`.
pub open spec fn has_index(s: Seq<(usize, u64)>, i: usize) -> bool {
    exists|p: int| 0 <= p < s.len() && (#[trigger] s[p]).0 == i
}

/// `s` has an entry for index `i` whose distance is at most `d`.
pub open spec fn has_entry_le(s: Seq<(usize, u64)>, i: usize, d: int) -> bool {
    exists|p: int| 0 <= p < s.len() && (#[trigger] s[p]).0 == i && (s[p].1 as int) <= d
}

/// The branch-and-bound discard certificate for instance `x` against the
/// candidate list `s`: at least `m` distinct candidates sit at distance no
/// greater than `x`'s own distance, so `x` cannot be among the `m` nearest.
pub open spec fn ruled_out<T, D: Dataset<T>>(
    t: Tree,
    data: D,
    q: T,
    m: int,
    s: Seq<(usize, u64)>,
    x: usize,
) -> bool {
    exists|w: Seq<usize>|
        {
            &&& #[trigger] w.no_duplicates()
            &&& w.len() >= m
            &&& forall|p: int|
                0 <= p < w.len() ==> has_entry_le(s, #[trigger] w[p], data.dist(q, x as int))
        }
}

/// What every search strategy returns: `min(k, n)` distinct real instances
/// with true distances, sorted ascending, such that no other instance of the
/// dataset is closer than the last (k-th) returned one.
pub open spec fn is_knn_result<T, D: Dataset<T>>(
    t: Tree,
    data: D,
    q: T,
    k: int,
    res: Seq<(usize, u64)>,
) -> bool {
    &&& res.len() == min_k(k, t.size as int)
    &&& sorted_by_distance(res)
    &&& distinct_indices(res)
    &&& entries_ok(t, data, q, res)
    &&& forall|i: usize|
        #[trigger] t.all_indices().contains(i) && !has_index(res, i) && res.len() > 0
            ==> data.dist(q, i as int) >= res[res.len() - 1].1 as int
}

/// A sequence of distinct values, each occurring in `b`, is no longer than
/// `b`.
pub proof fn lemma_nodup_subset_len(a: Seq<usize>, b: Seq<usize>)
    requires
        a.no_duplicates(),
        forall|p: int| 0 <= p < a.len() ==> b.contains(#[trigger] a[p]),
    ensures
        a.len() <= b.len(),
{
    broadcast use vstd::seq_lib::seq_to_set_is_finite;

    a.unique_seq_to_set();
    b.lemma_cardinality_of_set();
    assert forall|x: usize| a.to_set().contains(x) implies b.to_set().contains(x) by {
        assert(a.contains(x));
    }
    vstd::set_lib::lemma_len_subset(a.to_set(), b.to_set());
}

/// Both halves of a duplicate-free concatenation are duplicate-free and
/// share no element.
pub proof fn lemma_concat_nodup_parts(a: Seq<usize>, b: Seq<usize>)
    requires
        (a + b).no_duplicates(),
    ensures
        a.no_duplicates(),
        b.no_duplicates(),
        forall|x: int, y: int| 0 <= x < a.len() && 0 <= y < b.len() ==> a[x] != b[y],
{
    assert forall|x: int, y: int| 0 <= x < a.len() && 0 <= y < b.len() implies a[x] != b[y] by {
        assert((a + b)[x] == a[x]);
        assert((a + b)[a.len() + y] == b[y]);
    }
    assert forall|x: int, y: int| 0 <= x < y < a.len() implies a[x] != a[y] by {
        assert((a + b)[x] == a[x] && (a + b)[y] == a[y]);
    }
    assert forall|x: int, y: int| 0 <= x < y < b.len() implies b[x] != b[y] by {
        assert((a + b)[a.len() + x] == b[x] && (a + b)[a.len() + y] == b[y]);
    }
}

/// The per-index view of an entry list.
pub open spec fn indices_of(s: Seq<(usize, u64)>) -> Seq<usize> {
    s.map_values(|e: (usize, u64)| e.0)
}

/// Two entry lists with equal multisets have the same entries; if one has
/// no repeated index, neither has the other.
pub proof fn lemma_multiset_eq_distinct_indices(a: Seq<(usize, u64)>, b: Seq<(usize, u64)>)
    requires
        a.to_multiset() == b.to_multiset(),
        distinct_indices(a),
    ensures
        distinct_indices(b),
{
    broadcast use group_to_multiset_ensures;

    assert forall|x: int, y: int| 0 <= x < y < b.len() implies (#[trigger] b[x]).0 != (
    #[trigger] b[y]).0 by {
        if b[x].0 == b[y].0 {
            if b[x] == b[y] {
                // the same pair twice: its multiset count is at least two,
                // so the original list repeats an index
                let e = b[x];
                assert(b.remove(x).to_multiset() =~= b.to_multiset().remove(e));
                b.remove_ensures(x);
                assert(b.remove(x)[y - 1] == e);
                assert(b.remove(x).contains(e));
                assert(b.remove(x).to_multiset().count(e) > 0);
                assert(b.to_multiset().count(e) == b.remove(x).to_multiset().count(e) + 1) by {
                    broadcast use vstd::multiset::group_multiset_axioms;

                    assert(b.contains(e));
                }
                assert(b.to_multiset().count(e) >= 2);
                assert(a.to_multiset().count(e) >= 2);
                assert(a.contains(e));
                let p1 = choose|p: int| 0 <= p < a.len() && a[p] == e;
                assert(a.remove(p1).to_multiset() =~= a.to_multiset().remove(e));
                assert(a.remove(p1).to_multiset().count(e) >= 1);
                assert(a.remove(p1).contains(e));
                let p2 = choose|p: int| 0 <= p < a.remove(p1).len() && a.remove(p1)[p] == e;
                a.remove_ensures(p1);
                if p2 < p1 {
                    assert(a[p2] == e && a[p1] == e);
                } else {
                    assert(a[p2 + 1] == e && a[p1] == e);
                }
            } else {
                // two different pairs sharing an index: both occur in the
                // original list at different positions
                assert(b.contains(b[x]) && b.contains(b[y]));
                assert(a.to_multiset().count(b[x]) > 0 && a.to_multiset().count(b[y]) > 0);
                assert(a.contains(b[x]) && a.contains(b[y]));
                let p1 = choose|p: int| 0 <= p < a.len() && a[p] == b[x];
                let p2 = choose|p: int| 0 <= p < a.len() && a[p] == b[y];
                assert(p1 != p2);
            }
        }
    }
}

/// Selection sort by distance.  Returns the same entries (as a multiset),
/// sorted ascending by distance.
pub fn sort_entries(v: Vec<(usize, u64)>) -> (out: Vec<(usize, u64)>)
    ensures
        out@.to_multiset() == v@.to_multiset(),
        sorted_by_distance(out@),
        out@.len() == v@.len(),
{
    broadcast use group_to_multiset_ensures;

    let mut rest = v;
    let mut out: Vec<(usize, u64)> = Vec::new();
    proof {
        assert(out@.to_multiset().add(rest@.to_multiset()) =~= v@.to_multiset());
    }
    while rest.len() > 0
        invariant
            out@.to_multiset().add(rest@.to_multiset()) == v@.to_multiset(),
            sorted_by_distance(out@),
            forall|a: int, b: int|
                0 <= a < out@.len() && 0 <= b < rest@.len() ==> (#[trigger] out@[a]).1 <= (
                #[trigger] rest@[b]).1,
            out@.len() + rest@.len() == v@.len(),
        decreases rest@.len(),
    {
        let mut mi: usize = 0;
        let mut p: usize = 1;
        while p < rest.len()
            invariant
                (mi as int) < rest@.len(),
                p <= rest@.len(),
                forall|j: int| 0 <= j < p ==> rest@[mi as int].1 <= (#[trigger] rest@[j]).1,
            decreases rest@.len() - p,
        {
            if rest[p].1 < rest[mi].1 {
                mi = p;
            }
            p = p + 1;
        }
        let ghost old_rest = rest@;
        let ghost old_out = out@;
        let e = rest.remove(mi);
        out.push(e);
        proof {
            old_rest.remove_ensures(mi as int);
            assert(old_rest.contains(e));
            assert(rest@.to_multiset() =~= old_rest.to_multiset().remove(e));
            assert(out@.to_multiset() =~= old_out.to_multiset().insert(e));
            assert(out@.to_multiset().add(rest@.to_multiset()) =~= v@.to_multiset());
            assert forall|a: int, b: int|
                0 <= a < out@.len() && 0 <= b < rest@.len() implies (#[trigger] out@[a]).1 <= (
            #[trigger] rest@[b]).1 by {
                if b < mi as int {
                    assert(rest@[b] == old_rest[b]);
                } else {
                    assert(rest@[b] == old_rest[b + 1]);
                }
                if a < old_out.len() {
                    assert(out@[a] == old_out[a]);
                } else {
                    assert(out@[a] == e);
                }
            }
            assert forall|a: int, b: int| 0 <= a <= b < out@.len() implies (#[trigger] out@[a]).1
                <= (#[trigger] out@[b]).1 by {
                if b < old_out.len() {
                    assert(out@[a] == old_out[a] && out@[b] == old_out[b]);
                } else if a < old_out.len() {
                    assert(out@[a] == old_out[a] && out@[b] == e);
                }
            }
        }
    }
    proof {
        assert(rest@.to_multiset() =~= Multiset::<(usize, u64)>::empty());
        assert(out@.to_multiset() =~= v@.to_multiset());
        assert(out@.len() == out@.to_multiset().len());
        assert(v@.len() == v@.to_multiset().len());
    }
    out
}

/// Sorts the candidate entries and truncates to `min(k, n)`, turning a
/// complete candidate list plus its discard certificates into a correct
/// k-nearest-neighbor answer.
pub fn finish<T, D: Dataset<T>>(
    t: &Tree,
    data: &D,
    q: &T,
    k: usize,
    entries: Vec<(usize, u64)>,
    Ghost(removed): Ghost<Set<usize>>,
) -> (res: Vec<(usize, u64)>)
    requires
        t.wf(),
        crate::tree::valid_query(*t, *data, *q),
        distinct_indices(entries@),
        entries_ok(*t, *data, *q, entries@),
        forall|i: usize|
            #[trigger] t.all_indices().contains(i) ==> has_index(entries@, i) || removed.contains(
                i,
            ),
        forall|x: usize|
            #[trigger] removed.contains(x) ==> ruled_out(
                *t,
                *data,
                *q,
                min_k(k as int, t.size as int),
                entries@,
                x,
            ),
    ensures
        is_knn_result(*t, *data, *q, k as int, res@),
{
    broadcast use group_to_multiset_ensures;

    let n = t.size;
    let m: usize = if k <= n {
        k
    } else {
        n
    };
    let ghost e_seq = entries@;
    let mut out = sort_entries(entries);
    let ghost o_seq = out@;
    proof {
        // entry-level facts transfer across the permutation
        assert forall|p: int| 0 <= p < o_seq.len() implies entry_ok(*t, *data, *q, #[trigger] o_seq[p]) by {
            assert(o_seq.contains(o_seq[p]));
            assert(e_seq.to_multiset().count(o_seq[p]) > 0);
            assert(e_seq.contains(o_seq[p]));
            let p2 = choose|j: int| 0 <= j < e_seq.len() && e_seq[j] == o_seq[p];
            assert(entry_ok(*t, *data, *q, e_seq[p2]));
        }
        lemma_multiset_eq_distinct_indices(e_seq, o_seq);
        // the candidate list is long enough
        if m > 0 {
            if forall|i: usize|
                #[trigger] t.all_indices().contains(i) ==> has_index(e_seq, i) {
                lemma_indices_present(*t, e_seq);
                assert(e_seq.len() >= n as int);
            } else {
                let i0 = choose|i: usize|
                    #[trigger] t.all_indices().contains(i) && !has_index(e_seq, i);
                assert(removed.contains(i0));
                let w = choose|w: Seq<usize>|
                    {
                        &&& #[trigger] w.no_duplicates()
                        &&& w.len() >= m as int
                        &&& forall|p: int|
                            0 <= p < w.len() ==> has_entry_le(
                                e_seq,
                                #[trigger] w[p],
                                data.dist(*q, i0 as int),
                            )
                    };
                assert forall|p: int| 0 <= p < w.len() implies has_index(e_seq, #[trigger] w[p]) by {
                    let pe = choose|j: int|
                        0 <= j < e_seq.len() && (#[trigger] e_seq[j]).0 == w[p] && (e_seq[j].1
                            as int) <= data.dist(*q, i0 as int);
                    assert(0 <= pe < e_seq.len() && e_seq[pe].0 == w[p]);
                }
                lemma_witness_fits(e_seq, w);
                assert(e_seq.len() >= m as int);
            }
        }
        assert(o_seq.len() >= m as int);
    }
    out.truncate(m);
    proof {
        let res = out@;
        assert(res =~= o_seq.subrange(0, m as int));
        assert forall|i: usize|
            #[trigger] t.all_indices().contains(i) && !has_index(res, i) && res.len() > 0 implies data.dist(
            *q,
            i as int,
        ) >= res[res.len() - 1].1 as int by {
            let last = res[m - 1].1 as int;
            if has_index(e_seq, i) {
                let p0 = choose|p: int| 0 <= p < e_seq.len() && (#[trigger] e_seq[p]).0 == i;
                assert(e_seq.contains(e_seq[p0]));
                assert(o_seq.to_multiset().count(e_seq[p0]) > 0);
                assert(o_seq.contains(e_seq[p0]));
                let p1 = choose|p: int| 0 <= p < o_seq.len() && o_seq[p] == e_seq[p0];
                assert(o_seq[p1].0 == i);
                if p1 < m {
                    assert(res[p1].0 == i);
                    assert(false);
                }
                assert(o_seq[m - 1].1 <= o_seq[p1].1);
                assert(entry_ok(*t, *data, *q, o_seq[p1]));
            } else {
                assert(removed.contains(i));
                let dx = data.dist(*q, i as int);
                let w = choose|w: Seq<usize>|
                    {
                        &&& #[trigger] w.no_duplicates()
                        &&& w.len() >= m as int
                        &&& forall|p: int|
                            0 <= p < w.len() ==> has_entry_le(e_seq, #[trigger] w[p], dx)
                    };
                if last > dx {
                    // every witness entry sorts strictly before position m-1
                    let prefix = indices_of(o_seq.subrange(0, m - 1));
                    assert forall|p: int| 0 <= p < w.len() implies prefix.contains(
                        #[trigger] w[p],
                    ) by {
                        let pe = choose|j: int|
                            0 <= j < e_seq.len() && (#[trigger] e_seq[j]).0 == w[p] && (e_seq[j].1
                                as int) <= dx;
                        assert(e_seq.contains(e_seq[pe]));
                        assert(o_seq.to_multiset().count(e_seq[pe]) > 0);
                        assert(o_seq.contains(e_seq[pe]));
                        let po = choose|j: int| 0 <= j < o_seq.len() && o_seq[j] == e_seq[pe];
                        assert(o_seq[po].1 as int <= dx);
                        if po >= m - 1 {
                            assert(o_seq[m - 1].1 <= o_seq[po].1);
                            assert(false);
                        }
                        assert(o_seq.subrange(0, m - 1)[po] == o_seq[po]);
                        assert(prefix[po] == o_seq[po].0);
                    }
                    lemma_nodup_subset_len(w, prefix);
                    assert(false);
                }
            }
        }
    }
    out
}

/// If every dataset index has an entry, the entry list is at least as long
/// as the dataset.
pub proof fn lemma_indices_present(t: Tree, s: Seq<(usize, u64)>)
    requires
        t.wf(),
        forall|i: usize| #[trigger] t.all_indices().contains(i) ==> has_index(s, i),
    ensures
        s.len() >= t.size as int,
{
    let a = t.all_indices();
    assert(t.wf_at(t.root as int));
    assert forall|p: int| 0 <= p < a.len() implies indices_of(s).contains(#[trigger] a[p]) by {
        assert(a.contains(a[p]));
        let pe = choose|j: int| 0 <= j < s.len() && (#[trigger] s[j]).0 == a[p];
        assert(indices_of(s)[pe] == a[p]);
    }
    lemma_nodup_subset_len(a, indices_of(s));
}

/// A duplicate-free witness whose members all occur in the entry list is no
/// longer than the entry list.
proof fn lemma_witness_fits(s: Seq<(usize, u64)>, w: Seq<usize>)
    requires
        w.no_duplicates(),
        forall|p: int| 0 <= p < w.len() ==> has_index(s, #[trigger] w[p]),
    ensures
        w.len() <= s.len(),
{
    assert forall|p: int| 0 <= p < w.len() implies indices_of(s).contains(#[trigger] w[p]) by {
        assert(has_index(s, w[p]));
        let pe = choose|j: int| 0 <= j < s.len() && (#[trigger] s[j]).0 == w[p];
        assert(indices_of(s)[pe] == w[p]);
    }
    lemma_nodup_subset_len(w, indices_of(s));
}


/// One direction of the uniqueness argument: at any position, the first
/// answer's distance is at least the second's.
proof fn lemma_knn_distance_ge<T, D: Dataset<T>>(
    t: Tree,
    data: D,
    q: T,
    k: int,
    r1: Seq<(usize, u64)>,
    r2: Seq<(usize, u64)>,
    p: int,
)
    requires
        t.wf(),
        is_knn_result(t, data, q, k, r1),
        is_knn_result(t, data, q, k, r2),
        0 <= p < r1.len(),
    ensures
        r1[p].1 >= r2[p].1,
{
    if r1[p].1 < r2[p].1 {
        // the p + 1 nearest according to r1 all sort strictly before
        // position p in r2: too many for too few slots
        let s1 = indices_of(r1.subrange(0, p + 1));
        let prefix2 = indices_of(r2.subrange(0, p));
        assert forall|a: int, b: int| 0 <= a < b < s1.len() implies s1[a] != s1[b] by {
            assert(s1[a] == r1[a].0 && s1[b] == r1[b].0);
        }
        assert(s1.no_duplicates());
        assert forall|j: int| 0 <= j < s1.len() implies prefix2.contains(#[trigger] s1[j]) by {
            let i = r1[j].0;
            assert(s1[j] == i);
            assert(entry_ok(t, data, q, r1[j]));
            assert(r1[j].1 <= r1[p].1);
            if !has_index(r2, i) {
                assert(r2[p].1 <= r2[r2.len() - 1].1);
                assert(data.dist(q, i as int) >= r2[r2.len() - 1].1 as int);
            }
            let p2 = choose|p2: int| 0 <= p2 < r2.len() && (#[trigger] r2[p2]).0 == i;
            assert(entry_ok(t, data, q, r2[p2]));
            assert(r2[p2].1 == r1[j].1);
            if p2 >= p {
                assert(r2[p].1 <= r2[p2].1);
                assert(false);
            }
            assert(r2.subrange(0, p)[p2] == r2[p2]);
            assert(prefix2[p2] == r2[p2].0);
        }
        lemma_nodup_subset_len(s1, prefix2);
        assert(false);
    }
}

/// Equivalence of the strategies, and determinism of the answer: any two
/// correct answers for the same tree, dataset, query and k have the same
/// length and identical distances position by position.  The answer is
/// unique up to tie-breaking among instances at equal distances.
pub proof fn lemma_knn_distances_unique<T, D: Dataset<T>>(
    t: Tree,
    data: D,
    q: T,
    k: int,
    r1: Seq<(usize, u64)>,
    r2: Seq<(usize, u64)>,
)
    requires
        t.wf(),
        is_knn_result(t, data, q, k, r1),
        is_knn_result(t, data, q, k, r2),
    ensures
        r1.len() == r2.len(),
        forall|p: int| 0 <= p < r1.len() ==> (#[trigger] r1[p]).1 == (#[trigger] r2[p]).1,
{
    assert forall|p: int| 0 <= p < r1.len() implies (#[trigger] r1[p]).1 == (
    #[trigger] r2[p]).1 by {
        lemma_knn_distance_ge(t, data, q, k, r1, r2, p);
        lemma_knn_distance_ge(t, data, q, k, r2, r1, p);
    }
}

/// Branch-and-bound safety: no instance whose true distance is smaller
/// than the distance of the k-th returned neighbor is missing from the
/// answer — nothing close was ever permanently discarded.
pub proof fn lemma_no_close_instance_missed<T, D: Dataset<T>>(
    t: Tree,
    data: D,
    q: T,
    k: int,
    res: Seq<(usize, u64)>,
    x: usize,
)
    requires
        is_knn_result(t, data, q, k, res),
        t.all_indices().contains(x),
        res.len() > 0,
        data.dist(q, x as int) < res[res.len() - 1].1 as int,
    ensures
        has_index(res, x),
{
}

} // verus!
