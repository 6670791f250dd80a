use kmeans_wasm::kmeans_triangle::{hamerly_kmeans, hamerly_kmeans_from, HamerlyKmeansResult};
use kmeans_wasm::scalar::Scalar;
use kmeans_wasm::seeding::centroids_at;

#[derive(Clone, Copy, Debug, PartialEq)]
struct Real(f64);

impl Scalar for Real {
    fn zero_spec() -> Self {
        Real(0.0)
    }

    fn zero() -> Self {
        Real(0.0)
    }

    fn max_value_spec() -> Self {
        Real(f64::MAX)
    }

    fn max_value() -> Self {
        Real(f64::MAX)
    }

    fn from_u8_spec(byte: u8) -> Self {
        Real(byte as f64)
    }

    fn from_u8(byte: u8) -> Self {
        Real(byte as f64)
    }

    fn to_u8_spec(self) -> u8 {
        self.0 as u8
    }

    fn to_u8(self) -> u8 {
        self.0 as u8
    }

    fn from_count_spec(count: usize) -> Self {
        Real(count as f64)
    }

    fn from_count(count: usize) -> Self {
        Real(count as f64)
    }

    fn plus_spec(self, rhs: Self) -> Self {
        Real(self.0 + rhs.0)
    }

    fn plus(self, rhs: Self) -> Self {
        Real(self.0 + rhs.0)
    }

    fn minus_spec(self, rhs: Self) -> Self {
        Real(self.0 - rhs.0)
    }

    fn minus(self, rhs: Self) -> Self {
        Real(self.0 - rhs.0)
    }

    fn over_spec(self, rhs: Self) -> Self {
        Real(self.0 / rhs.0)
    }

    fn over(self, rhs: Self) -> Self {
        Real(self.0 / rhs.0)
    }

    fn squared_spec(self) -> Self {
        Real(self.0 * self.0)
    }

    fn squared(self) -> Self {
        Real(self.0 * self.0)
    }

    fn sqrt_spec(self) -> Self {
        Real(self.0.sqrt())
    }

    fn sqrt(self) -> Self {
        Real(self.0.sqrt())
    }

    fn lt_spec(self, rhs: Self) -> bool {
        self.0 < rhs.0
    }

    fn lt(self, rhs: Self) -> bool {
        self.0 < rhs.0
    }

    fn larger_spec(self, rhs: Self) -> Self {
        Real(f64::max(self.0, rhs.0))
    }

    fn larger(self, rhs: Self) -> Self {
        Real(f64::max(self.0, rhs.0))
    }

    fn total_lt_spec(self, rhs: Self) -> bool {
        self.0.total_cmp(&rhs.0) == std::cmp::Ordering::Less
    }

    fn total_lt(self, rhs: Self) -> bool {
        self.0.total_cmp(&rhs.0) == std::cmp::Ordering::Less
    }

    fn is_sign_negative_spec(self) -> bool {
        self.0.is_sign_negative()
    }

    fn is_sign_negative(self) -> bool {
        self.0.is_sign_negative()
    }
}

fn reals(values: &[f64]) -> Vec<Real> {
    values.iter().map(|v| Real(*v)).collect()
}

fn real_points(values: &[&[f64]]) -> Vec<Vec<Real>> {
    values.iter().map(|p| reals(p)).collect()
}

fn floats(values: &[Real]) -> Vec<f64> {
    values.iter().map(|v| v.0).collect()
}


fn close(a: f64, b: f64) -> bool {
    (a - b).abs() <= 1e-9
}

fn square() -> Vec<Vec<Real>> {
    real_points(&[&[0.0, 0.0], &[0.0, 1.0], &[10.0, 0.0], &[10.0, 1.0]])
}

fn run_from_seeds(
    points: &[Vec<Real>],
    seeds: &[usize],
    max_iter: usize,
    threshold: f64,
) -> HamerlyKmeansResult<Real> {
    let centroids = centroids_at(points, seeds);
    hamerly_kmeans_from(centroids, max_iter, Real(threshold), points)
}

fn sizes(result: &HamerlyKmeansResult<Real>) -> Vec<usize> {
    (0..result.centroids.len())
        .map(|j| result.point_centroids.iter().filter(|a| **a == j).count())
        .collect()
}

fn has_centroid_near(result: &HamerlyKmeansResult<Real>, x: f64, y: f64) -> bool {
    result.centroids.iter().any(|c| close(c[0].0, x) && close(c[1].0, y))
}

#[test]
fn two_pairs_of_points_are_found_from_seeds_on_both_sides() {
    let points = square();
    for seeds in [[0, 2], [0, 3], [1, 2], [1, 3], [2, 0], [3, 0], [2, 1], [3, 1]] {
        let result = run_from_seeds(&points, &seeds, 10, 0.0);
        assert_eq!(result.centroids.len(), 2);
        assert!(has_centroid_near(&result, 0.0, 0.5));
        assert!(has_centroid_near(&result, 10.0, 0.5));
        assert_eq!(sizes(&result), vec![2, 2]);
        assert_eq!(result.point_centroids[0], result.point_centroids[1]);
        assert_eq!(result.point_centroids[2], result.point_centroids[3]);
        assert_ne!(result.point_centroids[0], result.point_centroids[2]);
    }
}

#[test]
fn two_pairs_of_points_from_the_first_and_the_third_exactly() {
    let result = run_from_seeds(&square(), &[0, 2], 10, 0.0);
    assert_eq!(result.centroids, real_points(&[&[0.0, 0.5], &[10.0, 0.5]]));
    assert_eq!(result.point_centroids, vec![0, 0, 1, 1]);
    assert_eq!(result.iterations, 10);
}

#[test]
fn seeds_on_one_side_settle_in_the_other_stable_split() {
    let points = square();
    for seeds in [[0, 1], [2, 3]] {
        let result = run_from_seeds(&points, &seeds, 10, 0.0);
        assert_eq!(result.centroids, real_points(&[&[5.0, 0.0], &[5.0, 1.0]]));
        assert_eq!(result.point_centroids, vec![0, 1, 0, 1]);
    }
}

#[test]
fn a_zero_threshold_never_ends_a_run_early() {
    let result = run_from_seeds(&square(), &[0, 2], 7, 0.0);
    assert_eq!(result.iterations, 7);
}

#[test]
fn a_positive_threshold_ends_the_run_when_the_centroids_rest() {
    let result = run_from_seeds(&square(), &[0, 2], 10, 1e-9);
    assert_eq!(result.iterations, 1);
    assert_eq!(result.centroids, real_points(&[&[0.0, 0.5], &[10.0, 0.5]]));
    assert_eq!(result.point_centroids, vec![0, 0, 1, 1]);
}

#[test]
fn the_iteration_that_converges_still_moves_the_centroids() {
    let result = run_from_seeds(&square(), &[0, 2], 10, 1.0);
    assert_eq!(result.iterations, 0);
    assert_eq!(result.centroids, real_points(&[&[0.0, 0.5], &[10.0, 0.5]]));
}

#[test]
fn no_iterations_allowed_returns_the_first_assignment() {
    let result = run_from_seeds(&square(), &[0, 2], 0, 0.0);
    assert_eq!(result.iterations, 0);
    assert_eq!(result.centroids, real_points(&[&[0.0, 0.0], &[10.0, 0.0]]));
    assert_eq!(result.point_centroids, vec![0, 0, 1, 1]);
}

#[test]
fn every_point_its_own_centroid_converges_at_once() {
    let points = real_points(&[&[3.0, 1.0], &[-2.0, 8.0], &[0.5, 0.25], &[7.0, 7.0]]);
    for seeds in [[0, 1, 2, 3], [3, 1, 0, 2]] {
        let result = run_from_seeds(&points, &seeds, 25, 1e-12);
        assert_eq!(result.iterations, 0);
        assert_eq!(result.centroids, centroids_at(&points, &seeds));
        for (i, centroid) in result.point_centroids.iter().enumerate() {
            assert_eq!(seeds[*centroid], i);
        }
    }
}

#[test]
fn every_point_its_own_centroid_runs_on_under_a_zero_threshold() {
    let points = real_points(&[&[3.0, 1.0], &[-2.0, 8.0], &[0.5, 0.25]]);
    let result = run_from_seeds(&points, &[0, 1, 2], 5, 0.0);
    assert_eq!(result.iterations, 5);
    assert_eq!(result.centroids, points);
    assert_eq!(result.point_centroids, vec![0, 1, 2]);
}

#[test]
fn points_on_a_line_regroup_in_the_second_iteration() {
    let points = real_points(&[&[0.0], &[1.0], &[2.0], &[10.0]]);
    let result = run_from_seeds(&points, &[0, 1], 10, 0.0);
    assert_eq!(result.point_centroids, vec![0, 0, 0, 1]);
    assert_eq!(result.centroids, real_points(&[&[1.0], &[10.0]]));
    let early = run_from_seeds(&points, &[0, 1], 1, 0.0);
    assert_eq!(early.iterations, 1);
    assert_eq!(early.point_centroids, vec![0, 1, 1, 1]);
    assert_eq!(early.centroids, real_points(&[&[0.0], &[13.0 / 3.0]]));
}

#[test]
fn a_point_midway_between_two_centroids_keeps_its_centroid() {
    // After the first update the centroids rest at 0 and 4, and the point at 2
    // lies midway: its upper bound equals half the distance between them, so
    // it is not searched again and stays with the second centroid.
    let points = real_points(&[&[-1.0], &[1.0], &[2.0], &[6.0]]);
    let result = run_from_seeds(&points, &[1, 2], 10, 0.0);
    assert_eq!(result.point_centroids, vec![0, 0, 1, 1]);
    assert_eq!(result.centroids, real_points(&[&[0.0], &[4.0]]));
}

fn scattered(n: usize, d: usize, seed: u64) -> Vec<Vec<Real>> {
    let mut state = seed;
    let mut points = Vec::new();
    for _ in 0..n {
        let mut point = Vec::new();
        for _ in 0..d {
            state = state
                .wrapping_mul(6364136223846793005)
                .wrapping_add(1442695040888963407);
            point.push(Real(((state >> 33) % 1000) as f64));
        }
        points.push(point);
    }
    points
}

fn squared(a: &[Real], b: &[Real]) -> f64 {
    a.iter().zip(b.iter()).map(|(x, y)| (x.0 - y.0) * (x.0 - y.0)).sum()
}

fn plain_assignment(points: &[Vec<Real>], centroids: &[Vec<Real>]) -> Vec<usize> {
    points
        .iter()
        .map(|point| {
            let mut best = 0;
            let mut best_distance = f64::MAX;
            for (j, centroid) in centroids.iter().enumerate() {
                let distance = squared(point, centroid);
                if distance < best_distance {
                    best_distance = distance;
                    best = j;
                }
            }
            best
        })
        .collect()
}

fn plain_means(points: &[Vec<Real>], assignment: &[usize], k: usize) -> Vec<Vec<Real>> {
    let d = points[0].len();
    (0..k)
        .map(|j| {
            let mut sum = vec![0.0; d];
            let mut count = 0usize;
            for (point, a) in points.iter().zip(assignment.iter()) {
                if *a == j {
                    count += 1;
                    for t in 0..d {
                        sum[t] += point[t].0;
                    }
                }
            }
            sum.iter().map(|s| Real(s / count as f64)).collect()
        })
        .collect()
}

fn plain_run(
    points: &[Vec<Real>],
    seeds: &[usize],
    iterations: usize,
) -> (Vec<Vec<Real>>, Vec<usize>) {
    let mut centroids = centroids_at(points, seeds);
    let mut assignment = plain_assignment(points, &centroids);
    for _ in 0..iterations {
        assignment = plain_assignment(points, &centroids);
        centroids = plain_means(points, &assignment, seeds.len());
    }
    (centroids, assignment)
}

fn same_positions(a: &[Vec<Real>], b: &[Vec<Real>]) -> bool {
    a.len() == b.len()
        && a.iter().zip(b.iter()).all(|(x, y)| {
            x.len() == y.len() && x.iter().zip(y.iter()).all(|(p, q)| close(p.0, q.0))
        })
}

#[test]
fn pruned_runs_agree_with_full_recomputation() {
    for (n, d, k, seed) in [(40, 2, 3, 1u64), (60, 3, 5, 2), (25, 1, 4, 3), (80, 4, 6, 4)] {
        let points = scattered(n, d, seed);
        let seeds: Vec<usize> = (0..k).map(|c| c * (n / k)).collect();
        for iterations in [0, 1, 2, 3, 5, 8, 20] {
            let pruned = run_from_seeds(&points, &seeds, iterations, 0.0);
            let (centroids, assignment) = plain_run(&points, &seeds, iterations);
            assert_eq!(pruned.iterations, iterations);
            assert_eq!(pruned.point_centroids, assignment);
            assert!(same_positions(&pruned.centroids, &centroids));
        }
    }
}

fn objective(points: &[Vec<Real>], result: &HamerlyKmeansResult<Real>) -> f64 {
    points
        .iter()
        .zip(result.point_centroids.iter())
        .map(|(point, a)| squared(point, &result.centroids[*a]))
        .sum()
}

#[test]
fn the_objective_never_grows_from_one_iteration_to_the_next() {
    for (n, d, k, seed) in [(40, 2, 3, 5u64), (60, 3, 5, 6), (80, 4, 6, 7)] {
        let points = scattered(n, d, seed);
        let seeds: Vec<usize> = (0..k).map(|c| c * (n / k)).collect();
        let mut before = objective(&points, &run_from_seeds(&points, &seeds, 1, 0.0));
        for iterations in 2..15 {
            let after = objective(&points, &run_from_seeds(&points, &seeds, iterations, 0.0));
            assert!(after <= before + 1e-6);
            before = after;
        }
    }
}

#[test]
fn results_have_the_shape_of_the_request() {
    let points = scattered(30, 3, 9);
    let result = run_from_seeds(&points, &[0, 7, 14, 21], 50, 1e-6);
    assert_eq!(result.centroids.len(), 4);
    assert!(result.centroids.iter().all(|c| c.len() == 3));
    assert_eq!(result.point_centroids.len(), 30);
    assert!(result.point_centroids.iter().all(|a| *a < 4));
    assert!(result.iterations <= 50);
}

#[test]
fn seeded_generator_picks_distinct_points_and_repeats_itself() {
    let points = scattered(50, 2, 11);
    let first = hamerly_kmeans(4, 30, Real(0.0), points.clone()).unwrap();
    let second = hamerly_kmeans(4, 30, Real(0.0), points.clone()).unwrap();
    assert_eq!(first.centroids, second.centroids);
    assert_eq!(first.point_centroids, second.point_centroids);
    assert_eq!(first.iterations, 30);
    assert_eq!(first.centroids.len(), 4);
    assert_eq!(first.point_centroids.len(), 50);
    assert!(first.point_centroids.iter().all(|a| *a < 4));
    let start = hamerly_kmeans(4, 0, Real(0.0), points.clone()).unwrap();
    for (j, centroid) in start.centroids.iter().enumerate() {
        assert!(points.contains(centroid));
        assert!(!start.centroids[..j].contains(centroid));
    }
}

#[test]
fn run_without_points_is_empty() {
    let result = hamerly_kmeans::<Real>(3, 10, Real(0.0), Vec::new()).unwrap();
    assert!(result.centroids.is_empty());
    assert!(result.point_centroids.is_empty());
    assert_eq!(result.iterations, 0);
}

#[test]
fn run_with_more_clusters_than_points_fails() {
    let points = real_points(&[&[1.0], &[2.0]]);
    let result = hamerly_kmeans(3, 10, Real(0.0), points);
    assert!(matches!(result, Err(kmeans_wasm::errors::KmeansError::InsufficientPoints)));
}

#[test]
fn run_with_fewer_than_two_clusters_fails() {
    let points = real_points(&[&[1.0], &[2.0]]);
    for k in [0, 1] {
        let result = hamerly_kmeans(k, 10, Real(0.0), points.clone());
        assert!(matches!(result, Err(kmeans_wasm::errors::KmeansError::TooFewClusters)));
        let empty = hamerly_kmeans::<Real>(k, 10, Real(0.0), Vec::new()).unwrap();
        assert!(empty.centroids.is_empty());
    }
}

#[test]
fn run_with_as_many_clusters_as_points_takes_them_all() {
    let points = real_points(&[&[1.0], &[2.0], &[4.0]]);
    let result = hamerly_kmeans(3, 4, Real(1e-9), points.clone()).unwrap();
    assert_eq!(result.iterations, 0);
    let mut positions = floats(&result.centroids.iter().map(|c| c[0]).collect::<Vec<Real>>());
    positions.sort_by(|a, b| a.total_cmp(b));
    assert_eq!(positions, vec![1.0, 2.0, 4.0]);
}
