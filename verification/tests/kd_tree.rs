//! Behavioural tests of the index, through its public interface only.
//! Coordinates are integers; where a scenario is given in tenths, every
//! coordinate is scaled by ten, which leaves every cosine similarity — a
//! magnitude-independent measure — unchanged.

use gangdb::dbmodel::Vector;
use gangdb::gangdb::{KDTree, KdError};
use gangdb::sim::more_similar;

fn points(coords: &[&[i64]]) -> Vec<Vector> {
    coords.iter().map(|c| Vector::new(c.to_vec())).collect()
}

/// The point of the batch most similar to `q`, by exhaustive comparison.
fn brute_force(batch: &[Vector], q: &Vector) -> Vector {
    let mut best = batch[0].clone();
    for p in &batch[1..] {
        if more_similar(p, &best, q) {
            best = p.clone();
        }
    }
    best
}

#[test]
fn test_kd_tree_nearest_neighbor() {
    let vectors = vec![
        Vector::new(vec![45, 40]),
        Vector::new(vec![75, 50]),
        Vector::new(vec![120, 80]),
        Vector::new(vec![35, 102]),
        Vector::new(vec![110, 119]),
        Vector::new(vec![148, 114]),
        Vector::new(vec![190, 175]),
        Vector::new(vec![88, 158]),
        Vector::new(vec![150, 140]),
        Vector::new(vec![190, 120]),
        Vector::new(vec![215, 86]),
        Vector::new(vec![175, 65]),
        Vector::new(vec![132, 57]),
        Vector::new(vec![50, 177]),
    ];

    let kd_tree = KDTree::new(vectors);
    let query_vector: Vector = Vector::new(vec![90, 130]);

    assert_eq!(kd_tree.nearest_neighbor(&query_vector), Some(Vector::new(vec![88, 158])));

    if let Some(nearest) = kd_tree.nearest_neighbor(&query_vector) {
        println!("Nearest neighbor to {:?} is {:?}", query_vector, nearest);
    } else {
        println!("No nearest neighbor found");
    }
}

#[test]
fn test_scenario_agrees_with_brute_force() {
    let batch = points(&[
        &[45, 40],
        &[75, 50],
        &[120, 80],
        &[35, 102],
        &[110, 119],
        &[148, 114],
        &[190, 175],
        &[88, 158],
        &[150, 140],
        &[190, 120],
        &[215, 86],
        &[175, 65],
        &[132, 57],
        &[50, 177],
    ]);
    let tree = KDTree::new(batch.clone());
    let q = Vector::new(vec![90, 130]);
    let got = tree.nearest_neighbor(&q).unwrap();
    let want = brute_force(&batch, &q);
    assert!(!more_similar(&want, &got, &q));
    assert_eq!(got, Vector::new(vec![88, 158]));
}

#[test]
fn test_query_with_present_point_has_similarity_one() {
    // no two points share a coordinate on any axis, and no point is a
    // scalar multiple of another, so each point is its own unique best match
    let batch = points(&[&[3, 7], &[10, 2], &[6, 13], &[12, 9], &[1, 5], &[8, 11]]);
    let tree = KDTree::new(batch.clone());
    for q in &batch {
        let got = tree.nearest_neighbor(q).unwrap();
        // nothing is strictly more similar to q than the answer — not even
        // q itself, whose similarity to itself is exactly 1
        assert!(!more_similar(q, &got, q));
        assert_eq!(&got, q);
    }
}

#[test]
fn test_empty_index_returns_no_result() {
    let tree = KDTree::new(Vec::new());
    for q in &points(&[&[1, 2], &[0, 0], &[65536, 65536], &[5, 5, 5]]) {
        assert_eq!(tree.nearest_neighbor(q), None);
        assert_eq!(tree.query(q), Ok(None));
    }
}

#[test]
fn test_build_is_deterministic() {
    let batch = points(&[
        &[45, 40],
        &[75, 50],
        &[120, 80],
        &[35, 102],
        &[110, 119],
        &[190, 120],
        &[190, 175],
    ]);
    let t1 = KDTree::new(batch.clone());
    let t2 = KDTree::new(batch.clone());
    assert_eq!(format!("{:?}", t1), format!("{:?}", t2));
    for q in &points(&[&[90, 130], &[1, 1], &[200, 100]]) {
        assert_eq!(t1.nearest_neighbor(q), t2.nearest_neighbor(q));
    }
}

struct Lcg {
    state: u64,
}

impl Lcg {
    fn new(seed: u64) -> Lcg {
        Lcg { state: seed }
    }

    fn next_in(&mut self, lo: i64, hi: i64) -> i64 {
        self.state = self
            .state
            .wrapping_mul(6364136223846793005)
            .wrapping_add(1442695040888963407);
        let v = self.state >> 33;
        lo + (v % ((hi - lo + 1) as u64)) as i64
    }
}

#[test]
fn test_matches_brute_force_on_random_batches() {
    // the primary cross-check: on batches whose coordinates are spread far
    // apart, the pruning test never skips the branch holding the true best
    // match, and the search must return exactly the exhaustive winner
    let mut rng = Lcg::new(12345);
    for dim in 2..=5usize {
        let batch: Vec<Vector> = (0..50)
            .map(|_| Vector::new((0..dim).map(|_| rng.next_in(1, 60000)).collect()))
            .collect();
        let tree = KDTree::new(batch.clone());
        for _ in 0..20 {
            let q = Vector::new((0..dim).map(|_| rng.next_in(1, 60000)).collect());
            let got = tree.nearest_neighbor(&q).unwrap();
            assert!(batch.contains(&got));
            let want = brute_force(&batch, &q);
            assert!(
                !more_similar(&want, &got, &q),
                "search missed the true best match for {:?}",
                q
            );
        }
    }
}

#[test]
fn test_zero_query_point_is_answered_without_panic() {
    let batch = points(&[
        &[45, 40],
        &[75, 50],
        &[120, 80],
        &[35, 102],
        &[88, 158],
    ]);
    let tree = KDTree::new(batch.clone());
    let q = Vector::new(vec![0, 0]);
    let got = tree.nearest_neighbor(&q).expect("a non-empty index must answer");
    // every similarity against the zero vector is exactly 0, so the answer
    // ties with every point of the index
    for p in &batch {
        assert!(!more_similar(p, &got, &q));
        assert!(!more_similar(&got, p, &q));
    }
}

#[test]
fn test_build_rejects_mixed_dimensions() {
    let batch = points(&[&[1, 2], &[3, 4, 5]]);
    assert!(matches!(KDTree::build(batch), Err(KdError::DimensionMismatch)));
    let ok = KDTree::build(points(&[&[1, 2], &[3, 4]]));
    assert!(ok.is_ok());
}

#[test]
fn test_query_rejects_wrong_dimension() {
    let tree = KDTree::build(points(&[&[1, 2], &[3, 4]])).unwrap();
    let q3 = Vector::new(vec![1, 2, 3]);
    assert_eq!(tree.query(&q3), Err(KdError::DimensionMismatch));
    let q2 = Vector::new(vec![1, 2]);
    assert!(tree.query(&q2).is_ok());
}

#[test]
fn test_similarity_comparison_exact_values() {
    let q = Vector::new(vec![1, 1]);
    // similarity 1 (same direction) beats similarity 1/sqrt(2) (one axis)
    assert!(more_similar(&Vector::new(vec![2, 2]), &Vector::new(vec![5, 0]), &q));
    assert!(!more_similar(&Vector::new(vec![5, 0]), &Vector::new(vec![2, 2]), &q));
    // two points of similarity exactly 1 tie
    assert!(!more_similar(&Vector::new(vec![3, 3]), &Vector::new(vec![1, 1]), &q));
    assert!(!more_similar(&Vector::new(vec![1, 1]), &Vector::new(vec![3, 3]), &q));
    // positive similarity beats the opposite direction's -1
    assert!(more_similar(&Vector::new(vec![1, 0]), &Vector::new(vec![-1, -1]), &q));
    // the zero vector has similarity exactly 0: below any positive, above
    // any negative
    assert!(more_similar(&Vector::new(vec![0, 0]), &Vector::new(vec![-1, -1]), &q));
    assert!(more_similar(&Vector::new(vec![1, 2]), &Vector::new(vec![0, 0]), &q));
    // 3/sqrt(10) > 4/sqrt(20): a fine comparison, decided exactly by
    // 9 * 20 > 16 * 10
    assert!(more_similar(&Vector::new(vec![1, 2]), &Vector::new(vec![1, 3]), &q));
    assert!(!more_similar(&Vector::new(vec![1, 3]), &Vector::new(vec![1, 2]), &q));
}

#[test]
fn test_vector_construction() {
    let v = Vector::new(vec![4, -7, 0]);
    assert_eq!(v.coordinates, vec![4, -7, 0]);
    let w = v.clone();
    assert_eq!(v, w);
}

#[test]
fn test_single_point_index() {
    let tree = KDTree::new(points(&[&[7, 3]]));
    let got = tree.nearest_neighbor(&Vector::new(vec![1, 1])).unwrap();
    assert_eq!(got, Vector::new(vec![7, 3]));
}

#[test]
fn test_duplicate_points_are_kept() {
    let batch = points(&[&[2, 2], &[2, 2], &[9, 1]]);
    let tree = KDTree::new(batch);
    let got = tree.nearest_neighbor(&Vector::new(vec![1, 1])).unwrap();
    assert_eq!(got, Vector::new(vec![2, 2]));
}

#[test]
fn test_extreme_coordinates_compare_exactly() {
    // coordinates at the supported bound exercise the widest intermediate
    // products the comparisons can produce
    let batch = points(&[
        &[65536, -65536],
        &[-65536, 65536],
        &[65536, 65535],
        &[1, 65536],
        &[-65536, -65536],
        &[65534, 2],
    ]);
    let tree = KDTree::new(batch.clone());
    let queries = points(&[&[65536, 65536], &[1, 1], &[-1, -1], &[65535, -65536]]);
    let expected = points(&[&[65536, 65535], &[65536, 65535], &[-65536, -65536], &[65536, -65536]]);
    for (q, want) in queries.iter().zip(expected.iter()) {
        let got = tree.nearest_neighbor(q).unwrap();
        assert_eq!(&got, want);
        assert!(!more_similar(&brute_force(&batch, q), &got, q));
    }
}
