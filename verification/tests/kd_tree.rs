//! Tests for the k-d tree: insert, contains, delete, nearest_neighbors,
//! len and is_empty, over 2-dimensional integer points.

use kdtree::kd_tree::KDTree;

/// A random coordinate in `[0, 1000]` (tenths of the unit square side).
fn random_coord() -> i64 {
    (rand::random::<f64>() * 1000.0).round() as i64
}

fn random_point() -> [i64; 2] {
    [random_coord(), random_coord()]
}

fn random_points(n: usize) -> Vec<[i64; 2]> {
    (0..n).map(|_| random_point()).collect()
}

/// Random points whose coordinates are pairwise distinct on each axis, so
/// that median splitting never ties on a split coordinate.
fn random_points_distinct_axes(n: usize) -> Vec<[i64; 2]> {
    let mut points: Vec<[i64; 2]> = Vec::new();
    while points.len() < n {
        let p = [random_coord(), random_coord()];
        if points.iter().all(|q| q[0] != p[0] && q[1] != p[1]) {
            points.push(p);
        }
    }
    points
}

#[test]
fn insert() {
    let points: Vec<[i64; 2]> = random_points(100);
    let mut kd_tree = KDTree::build(points);
    let point = random_point();

    assert!(kd_tree.insert(point));
    // Cannot insert twice
    assert!(!kd_tree.insert(point));
}

#[test]
fn contains() {
    let points: Vec<[i64; 2]> = random_points(100);
    let mut kd_tree = KDTree::build(points);
    let point = random_point();
    kd_tree.insert(point);

    assert!(kd_tree.contains(&point));
}

#[test]
fn delete() {
    let points: Vec<[i64; 2]> = random_points_distinct_axes(100);
    let idx = ((rand::random::<f64>() * 100.0).round() as usize).min(99);
    let point = points[idx];
    let mut kd_tree = KDTree::build(points);

    assert!(kd_tree.delete(&point));
    // Cannot delete twice
    assert!(!kd_tree.delete(&point));
    // Ensure point is no longer present in k-d tree
    assert!(!kd_tree.contains(&point));
}

#[test]
fn nearest_neighbors() {
    // Test with large data set
    let points_1: Vec<[i64; 2]> = random_points(1000);
    let kd_tree_1 = KDTree::build(points_1);
    let target = [500, 500];
    let neighbors_1 = kd_tree_1.nearest_neighbors(&target, 10);

    // Confirm we have exactly 10 nearest neighbors
    assert_eq!(neighbors_1.len(), 10);

    // `20000` is the squared distance between [400, 400] and [500, 500] and
    // between [500, 500] and [600, 600], so with 1000 points in the square
    // our closest neighbors are expected inside the bounding box
    // [400, 400] - [600, 600], with a squared distance of at most 20000
    for neighbor in neighbors_1 {
        assert!(neighbor.0 <= 20000);
    }

    // Test with small data set
    let points_2: Vec<[i64; 2]> = vec![[2, 3], [5, 4], [9, 6], [4, 7], [8, 1], [7, 2]];
    let kd_tree_2 = KDTree::build(points_2);
    let neighbors_2 = kd_tree_2.nearest_neighbors(&[6, 3], 3);

    // Confirm we have exactly 3 nearest neighbors
    assert_eq!(neighbors_2.len(), 3);

    // With a small set of data, we can manually calculate our 3 nearest
    // neighbors with their squared distances and compare with those obtained
    // from our method; the traversal order is not part of the contract, so
    // compare as a set
    let expected: Vec<(i64, [i64; 2])> = vec![(2, [7, 2]), (2, [5, 4]), (8, [8, 1])];
    for e in &expected {
        assert!(neighbors_2.contains(e));
    }
    // Both distances equal to 2 are present
    assert_eq!(neighbors_2.iter().filter(|n| n.0 == 2).count(), 2);
}

#[test]
fn is_empty() {
    let mut kd_tree: KDTree<2> = KDTree::new();

    assert!(kd_tree.is_empty());

    kd_tree.insert([15, 30]);

    assert!(!kd_tree.is_empty());
}

#[test]
fn len() {
    let points: Vec<[i64; 2]> = random_points(1000);
    let kd_tree = KDTree::build(points);

    assert_eq!(kd_tree.len(), 1000);
}

#[test]
fn build_stores_all_points() {
    let points: Vec<[i64; 2]> = vec![[2, 3], [5, 4], [9, 6], [4, 7], [8, 1], [7, 2]];
    let kd_tree = KDTree::build(points.clone());

    assert_eq!(kd_tree.len(), 6);
    for p in &points {
        assert!(kd_tree.contains(p));
    }
}

#[test]
fn insert_new_point_then_duplicate() {
    let mut kd_tree: KDTree<2> = KDTree::new();

    assert!(kd_tree.insert([1, 2]));
    assert_eq!(kd_tree.len(), 1);
    assert!(kd_tree.contains(&[1, 2]));

    assert!(!kd_tree.insert([1, 2]));
    assert_eq!(kd_tree.len(), 1);
}

#[test]
fn delete_stored_point_then_again() {
    let mut kd_tree: KDTree<2> = KDTree::new();
    kd_tree.insert([1, 2]);

    assert!(kd_tree.delete(&[1, 2]));
    assert_eq!(kd_tree.len(), 0);
    assert!(!kd_tree.contains(&[1, 2]));

    assert!(!kd_tree.delete(&[1, 2]));
    assert_eq!(kd_tree.len(), 0);
}

#[test]
fn delete_inner_node_with_both_subtrees() {
    // Sorted by x, the median point [7, 2] becomes the root with subtrees on
    // both sides; deleting it exercises the replace-with-subtree-minimum path
    let points: Vec<[i64; 2]> = vec![[2, 3], [5, 4], [9, 6], [4, 7], [8, 1], [7, 2]];
    let mut kd_tree = KDTree::build(points);

    assert!(kd_tree.delete(&[7, 2]));
    assert_eq!(kd_tree.len(), 5);
    assert!(!kd_tree.contains(&[7, 2]));
    for p in &[[2, 3], [5, 4], [9, 6], [4, 7], [8, 1]] {
        assert!(kd_tree.contains(p));
    }
}

#[test]
fn delete_node_with_left_subtree_only() {
    // [3, 7] ends up holding only a left child [2, 2]; deleting it exercises
    // the path that moves the left subtree over to the right side
    let mut kd_tree: KDTree<2> = KDTree::new();
    kd_tree.insert([5, 5]);
    kd_tree.insert([3, 7]);
    kd_tree.insert([2, 2]);

    assert!(kd_tree.delete(&[3, 7]));
    assert_eq!(kd_tree.len(), 2);
    assert!(!kd_tree.contains(&[3, 7]));
    assert!(kd_tree.contains(&[2, 2]));
    assert!(kd_tree.contains(&[5, 5]));
}

#[test]
fn nearest_neighbors_matches_brute_force() {
    let points: Vec<[i64; 2]> = vec![[2, 3], [5, 4], [9, 6], [4, 7], [8, 1], [7, 2]];
    let query: [i64; 2] = [6, 3];
    let kd_tree = KDTree::build(points.clone());

    let mut brute: Vec<(i64, [i64; 2])> = points
        .iter()
        .map(|p| {
            let dx = p[0] - query[0];
            let dy = p[1] - query[1];
            (dx * dx + dy * dy, *p)
        })
        .collect();
    brute.sort();

    for n in 0..=6 {
        let mut result = kd_tree.nearest_neighbors(&query, n);
        assert_eq!(result.len(), n);
        result.sort();
        // The distances are exactly the n smallest ones
        let result_distances: Vec<i64> = result.iter().map(|r| r.0).collect();
        let brute_distances: Vec<i64> = brute[..n].iter().map(|b| b.0).collect();
        assert_eq!(result_distances, brute_distances);
        // Every entry pairs a stored point with its true distance, and no
        // point is reported twice; at tied distances either point may appear
        for w in result.windows(2) {
            assert_ne!(w[0].1, w[1].1);
        }
        for r in &result {
            assert!(brute.contains(r));
        }
    }
}

#[test]
fn nearest_neighbors_requests_beyond_len() {
    let points: Vec<[i64; 2]> = vec![[2, 3], [5, 4], [9, 6]];
    let kd_tree = KDTree::build(points);

    let neighbors = kd_tree.nearest_neighbors(&[0, 0], 10);
    assert_eq!(neighbors.len(), 3);

    let none = kd_tree.nearest_neighbors(&[0, 0], 0);
    assert!(none.is_empty());
}

#[test]
fn nearest_neighbors_on_empty_tree() {
    let kd_tree: KDTree<2> = KDTree::new();
    let neighbors = kd_tree.nearest_neighbors(&[1, 1], 5);
    assert!(neighbors.is_empty());
}

#[test]
fn nearest_neighbors_at_coordinate_range_limit() {
    let mut kd_tree: KDTree<2> = KDTree::new();
    kd_tree.insert([1_000_000, 1_000_000]);
    kd_tree.insert([-1_000_000, -1_000_000]);

    let mut neighbors = kd_tree.nearest_neighbors(&[0, 0], 2);
    neighbors.sort();
    assert_eq!(neighbors.len(), 2);
    assert_eq!(neighbors[0].0, 2_000_000_000_000);
    assert_eq!(neighbors[1].0, 2_000_000_000_000);
}

#[test]
fn three_dimensional_points() {
    let mut kd_tree: KDTree<3> = KDTree::new();
    assert!(kd_tree.insert([1, 2, 3]));
    assert!(kd_tree.insert([4, 5, 6]));
    assert!(kd_tree.insert([-1, 0, 1]));

    assert!(kd_tree.contains(&[4, 5, 6]));
    assert!(!kd_tree.contains(&[4, 5, 7]));

    let neighbors = kd_tree.nearest_neighbors(&[1, 2, 2], 1);
    assert_eq!(neighbors, vec![(1, [1, 2, 3])]);

    assert!(kd_tree.delete(&[1, 2, 3]));
    assert_eq!(kd_tree.len(), 2);
}
