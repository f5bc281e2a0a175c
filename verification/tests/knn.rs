use knn_search::dataset::LineDataset;
use knn_search::tree::{d_max, d_min, Cluster, Tree};
use knn_search::Algorithm;

const ALL: [Algorithm; 5] = [
    Algorithm::Linear,
    Algorithm::RepeatedRnn,
    Algorithm::SieveV1,
    Algorithm::SieveV2,
    Algorithm::ExpandingThreshold,
];

fn leaf(center: usize, radius: u64, instances: Vec<usize>) -> Cluster {
    Cluster {
        center,
        radius,
        cardinality: instances.len(),
        is_leaf: true,
        left: 0,
        right: 0,
        instances,
    }
}

fn internal(center: usize, radius: u64, cardinality: usize, left: usize, right: usize) -> Cluster {
    Cluster {
        center,
        radius,
        cardinality,
        is_leaf: false,
        left,
        right,
        instances: Vec::new(),
    }
}

/// Ten points on a line at positions 0, 2, ..., 18 (twice the integers 0..9,
/// so that a query midway between two points keeps integer distances), with
/// a two-leaf tree over them.
fn ten_point_line() -> (Tree, LineDataset) {
    let data = LineDataset { points: vec![0, 2, 4, 6, 8, 10, 12, 14, 16, 18] };
    let tree = Tree {
        clusters: vec![
            internal(4, 10, 10, 1, 2),
            leaf(4, 8, vec![0, 1, 2, 3, 4]),
            leaf(7, 4, vec![5, 6, 7, 8, 9]),
        ],
        root: 0,
        size: 10,
    };
    (tree, data)
}

/// Eight points at positions 0, 3, ..., 21 with a depth-two tree, so that
/// the traversals subdivide internal clusters more than once.  All query
/// distances from position 10 are distinct, which pins the exact answer.
fn eight_point_line() -> (Tree, LineDataset) {
    let data = LineDataset { points: vec![0, 3, 6, 9, 12, 15, 18, 21] };
    let tree = Tree {
        clusters: vec![
            internal(0, 21, 8, 1, 2),
            internal(0, 9, 4, 3, 4),
            internal(4, 9, 4, 5, 6),
            leaf(0, 3, vec![0, 1]),
            leaf(2, 3, vec![2, 3]),
            leaf(4, 3, vec![4, 5]),
            leaf(6, 3, vec![6, 7]),
        ],
        root: 0,
        size: 8,
    };
    (tree, data)
}

fn sorted_ascending(res: &[(usize, u64)]) -> bool {
    res.windows(2).all(|w| w[0].1 <= w[1].1)
}

fn distinct_indices(res: &[(usize, u64)]) -> bool {
    for a in 0..res.len() {
        for b in (a + 1)..res.len() {
            if res[a].0 == res[b].0 {
                return false;
            }
        }
    }
    true
}

#[test]
fn bound_primitives() {
    assert_eq!(d_min(5, 3), 2);
    assert_eq!(d_min(3, 5), 0);
    assert_eq!(d_min(7, 7), 0);
    assert_eq!(d_max(5, 3), 8);
    assert_eq!(d_max(0, 0), 0);
    assert_eq!(d_max(u64::MAX, 1), u64::MAX);
    assert_eq!(d_max(u64::MAX - 3, 2), u64::MAX - 1);
}

#[test]
fn default_is_repeated_rnn() {
    assert!(matches!(Algorithm::default(), Algorithm::RepeatedRnn));
}

#[test]
fn midline_query_every_variant() {
    // query midway between the fifth and sixth point: the two nearest are
    // at distance 1, and the third, at distance 3, is either neighbor tie
    let (tree, data) = ten_point_line();
    for alg in ALL {
        let res = alg.search(&tree, &data, &9, 3);
        assert_eq!(res.len(), 3);
        assert_eq!(res[0].1, 1);
        assert_eq!(res[1].1, 1);
        let mut first_two = [res[0].0, res[1].0];
        first_two.sort_unstable();
        assert_eq!(first_two, [4, 5]);
        assert_eq!(res[2].1, 3);
        assert!(res[2].0 == 3 || res[2].0 == 6);
    }
}

#[test]
fn k_zero_gives_empty() {
    let (tree, data) = ten_point_line();
    for alg in ALL {
        assert!(alg.search(&tree, &data, &9, 0).is_empty());
    }
}

#[test]
fn k_beyond_cardinality_gives_all_sorted() {
    let (tree, data) = ten_point_line();
    for alg in ALL {
        let res = alg.search(&tree, &data, &9, 100);
        assert_eq!(res.len(), 10);
        assert!(sorted_ascending(&res));
        assert!(distinct_indices(&res));
        let dists: Vec<u64> = res.iter().map(|e| e.1).collect();
        assert_eq!(dists, vec![1, 1, 3, 3, 5, 5, 7, 7, 9, 9]);
    }
}

#[test]
fn exact_answer_on_deep_tree() {
    let (tree, data) = eight_point_line();
    for alg in ALL {
        let res = alg.search(&tree, &data, &10, 3);
        assert_eq!(res, vec![(3, 1), (4, 2), (2, 4)]);
    }
}

#[test]
fn variants_agree_with_linear() {
    let (tree, data) = eight_point_line();
    for q in [0u64, 2, 7, 10, 13, 21, 40] {
        for k in [1usize, 2, 3, 5, 8, 20] {
            let oracle = Algorithm::Linear.search(&tree, &data, &q, k);
            for alg in ALL {
                let res = alg.search(&tree, &data, &q, k);
                assert_eq!(res.len(), oracle.len());
                let d1: Vec<u64> = res.iter().map(|e| e.1).collect();
                let d2: Vec<u64> = oracle.iter().map(|e| e.1).collect();
                assert_eq!(d1, d2);
                assert!(sorted_ascending(&res));
                assert!(distinct_indices(&res));
            }
        }
    }
}

#[test]
fn repeated_calls_are_identical() {
    let (tree, data) = ten_point_line();
    for alg in ALL {
        let first = alg.search(&tree, &data, &9, 4);
        let second = alg.search(&tree, &data, &9, 4);
        assert_eq!(first, second);
    }
}

#[test]
fn query_on_an_instance() {
    let (tree, data) = ten_point_line();
    for alg in ALL {
        let res = alg.search(&tree, &data, &6, 1);
        assert_eq!(res, vec![(3, 0)]);
    }
}

#[test]
fn single_point_dataset() {
    let data = LineDataset { points: vec![7] };
    let tree = Tree { clusters: vec![leaf(0, 0, vec![0])], root: 0, size: 1 };
    for alg in ALL {
        assert_eq!(alg.search(&tree, &data, &3, 5), vec![(0, 4)]);
        assert_eq!(alg.search(&tree, &data, &7, 1), vec![(0, 0)]);
    }
}

#[test]
fn bounds_bracket_true_distances() {
    // root cluster of the ten-point tree: center at position 8, radius 10
    let (_, data) = ten_point_line();
    let q: u64 = 9;
    let dc: u64 = 1; // distance from the query to the center position 8
    let lo = d_min(dc, 10);
    let hi = d_max(dc, 10);
    for i in 0..data.points.len() {
        let p = data.points[i];
        let d = if p >= q { p - q } else { q - p };
        assert!(lo <= d && d <= hi);
    }
}
