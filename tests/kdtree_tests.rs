use embedding_index::kdtree::{IndexError, KDTree};
use embedding_index::point::{squared_distance, Point};

fn pt(e: &[i32], d: &str) -> Point {
    Point { embedding: e.to_vec(), data: d.to_string() }
}

fn sample_tree() -> KDTree {
    let mut t = KDTree::new(2);
    assert_eq!(t.insert(pt(&[1, 2], "a")), Ok(()));
    assert_eq!(t.insert(pt(&[3, 4], "b")), Ok(()));
    assert_eq!(t.insert(pt(&[5, 6], "c")), Ok(()));
    t
}

/// A small deterministic generator of coordinates.
struct Lcg(u64);

impl Lcg {
    fn next(&mut self) -> i32 {
        self.0 = self.0.wrapping_mul(6364136223846793005).wrapping_add(1442695040888963407);
        ((self.0 >> 33) % 201) as i32 - 100
    }
}

fn random_points(seed: u64, count: usize, dims: usize) -> Vec<Point> {
    let mut g = Lcg(seed);
    (0..count)
        .map(|i| Point { embedding: (0..dims).map(|_| g.next()).collect(), data: format!("p{}", i) })
        .collect()
}

#[test]
fn three_points_nearest_and_top_two() {
    let t = sample_tree();
    let target = pt(&[1, 1], "");
    assert_eq!(t.nearest_neighbor(&target).unwrap().data, "a");
    let top: Vec<String> = t.nearest_neighbors_topn(&target, 2).unwrap().into_iter().map(|p| p.data).collect();
    assert_eq!(top, vec!["a".to_string(), "b".to_string()]);
}

#[test]
fn wrong_dimension_is_rejected_and_tree_unchanged() {
    let mut t = sample_tree();
    assert_eq!(t.insert(pt(&[1, 2, 3], "x")), Err(IndexError::DimensionMismatch));
    assert_eq!(t.len(), 3);
    assert_eq!(t.nearest_neighbor(&pt(&[1, 1], "")).unwrap().data, "a");
}

#[test]
fn empty_tree_has_no_neighbors() {
    let t = KDTree::new(3);
    assert_eq!(t.len(), 0);
    assert!(t.nearest_neighbor(&pt(&[0, 0, 0], "")).is_none());
    assert!(t.nearest_neighbors_topn(&pt(&[0, 0, 0], ""), 4).is_none());
}

#[test]
fn top_zero_is_none_and_large_n_returns_all() {
    let t = sample_tree();
    let target = pt(&[6, 6], "");
    assert!(t.nearest_neighbors_topn(&target, 0).is_none());
    let all: Vec<String> = t.nearest_neighbors_topn(&target, 10).unwrap().into_iter().map(|p| p.data).collect();
    assert_eq!(all, vec!["c".to_string(), "b".to_string(), "a".to_string()]);
}

#[test]
fn squared_distance_exact_values() {
    assert_eq!(squared_distance(&vec![1, 2], &vec![4, 6]), 25);
    assert_eq!(squared_distance(&vec![], &vec![]), 0);
    let far = squared_distance(&vec![i32::MIN, i32::MIN], &vec![i32::MAX, i32::MAX]);
    assert_eq!(far, 2 * (u32::MAX as u128) * (u32::MAX as u128));
}

#[test]
fn point_len_counts_coordinates() {
    assert_eq!(pt(&[1, 2, 3], "x").len(), 3);
    assert_eq!(pt(&[], "x").len(), 0);
}

#[test]
fn nearest_matches_linear_scan() {
    for dims in 1..5usize {
        for seed in 0..6u64 {
            let pts = random_points(seed * 31 + dims as u64, 60, dims);
            let mut t = KDTree::new(dims);
            for p in &pts {
                assert_eq!(t.insert(p.duplicate()), Ok(()));
            }
            assert_eq!(t.len(), 60);
            let targets = random_points(seed + 1000, 10, dims);
            for q in &targets {
                let best = t.nearest_neighbor(q).unwrap();
                let got = squared_distance(&best.embedding, &q.embedding);
                let want = pts.iter().map(|p| squared_distance(&p.embedding, &q.embedding)).min().unwrap();
                assert_eq!(got, want);
            }
        }
    }
}

#[test]
fn top_n_matches_linear_scan() {
    for dims in 1..4usize {
        let pts = random_points(7 + dims as u64, 50, dims);
        let mut t = KDTree::new(dims);
        for p in &pts {
            assert_eq!(t.insert(p.duplicate()), Ok(()));
        }
        for (i, q) in random_points(99, 8, dims).iter().enumerate() {
            for n in [1usize, 3, 7, 50, 80] {
                let got = t.nearest_neighbors_topn(q, n).unwrap();
                assert_eq!(got.len(), n.min(50));
                let got_d: Vec<u128> = got.iter().map(|p| squared_distance(&p.embedding, &q.embedding)).collect();
                let mut all_d: Vec<u128> = pts.iter().map(|p| squared_distance(&p.embedding, &q.embedding)).collect();
                all_d.sort();
                assert_eq!(got_d, all_d[..n.min(50)].to_vec(), "target {} n {}", i, n);
            }
        }
    }
}

#[test]
fn equal_points_are_all_kept() {
    let mut t = KDTree::new(1);
    for name in ["x", "y", "z"] {
        assert_eq!(t.insert(pt(&[4], name)), Ok(()));
    }
    let mut got: Vec<String> = t.nearest_neighbors_topn(&pt(&[4], ""), 3).unwrap().into_iter().map(|p| p.data).collect();
    got.sort();
    assert_eq!(got, vec!["x".to_string(), "y".to_string(), "z".to_string()]);
}

#[test]
fn insertion_descends_to_a_new_leaf() {
    let mut t = KDTree::new(2);
    for (e, d) in [([5, 5], "root"), ([3, 9], "l"), ([7, 1], "r"), ([4, 2], "lr"), ([4, 9], "ll")] {
        assert_eq!(t.insert(pt(&e, d)), Ok(()));
    }
    let root = t.root.as_ref().unwrap();
    assert_eq!((root.point.data.as_str(), root.axis), ("root", 0));
    let l = root.left.as_ref().unwrap();
    assert_eq!((l.point.data.as_str(), l.axis), ("l", 1));
    assert_eq!(root.right.as_ref().unwrap().point.data, "r");
    // [4, 2] goes left of the root (4 < 5), then left of "l" (2 < 9).
    let ll = l.left.as_ref().unwrap();
    assert_eq!((ll.point.data.as_str(), ll.axis), ("lr", 0));
    // [4, 9] ties "l" on its axis and goes right.
    assert_eq!(l.right.as_ref().unwrap().point.data, "ll");
}
