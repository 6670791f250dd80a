use kmeans_wasm::distance::{get_distance, get_distance_squared};
use kmeans_wasm::nearest::{
    get_min_centroid, get_min_centroid_skip_point_centroid, point_all_centers,
};
use kmeans_wasm::scalar::Scalar;

#[derive(Clone, Copy, Debug, PartialEq)]
struct Real(f64);

impl Scalar for Real {
    fn zero_spec() -> Self {
        Real(0.0)
    }

    fn zero() -> Self {
        Real(0.0)
    }

    fn max_value_spec() -> Self {
        Real(f64::MAX)
    }

    fn max_value() -> Self {
        Real(f64::MAX)
    }

    fn from_u8_spec(byte: u8) -> Self {
        Real(byte as f64)
    }

    fn from_u8(byte: u8) -> Self {
        Real(byte as f64)
    }

    fn to_u8_spec(self) -> u8 {
        self.0 as u8
    }

    fn to_u8(self) -> u8 {
        self.0 as u8
    }

    fn from_count_spec(count: usize) -> Self {
        Real(count as f64)
    }

    fn from_count(count: usize) -> Self {
        Real(count as f64)
    }

    fn plus_spec(self, rhs: Self) -> Self {
        Real(self.0 + rhs.0)
    }

    fn plus(self, rhs: Self) -> Self {
        Real(self.0 + rhs.0)
    }

    fn minus_spec(self, rhs: Self) -> Self {
        Real(self.0 - rhs.0)
    }

    fn minus(self, rhs: Self) -> Self {
        Real(self.0 - rhs.0)
    }

    fn over_spec(self, rhs: Self) -> Self {
        Real(self.0 / rhs.0)
    }

    fn over(self, rhs: Self) -> Self {
        Real(self.0 / rhs.0)
    }

    fn squared_spec(self) -> Self {
        Real(self.0 * self.0)
    }

    fn squared(self) -> Self {
        Real(self.0 * self.0)
    }

    fn sqrt_spec(self) -> Self {
        Real(self.0.sqrt())
    }

    fn sqrt(self) -> Self {
        Real(self.0.sqrt())
    }

    fn lt_spec(self, rhs: Self) -> bool {
        self.0 < rhs.0
    }

    fn lt(self, rhs: Self) -> bool {
        self.0 < rhs.0
    }

    fn larger_spec(self, rhs: Self) -> Self {
        Real(f64::max(self.0, rhs.0))
    }

    fn larger(self, rhs: Self) -> Self {
        Real(f64::max(self.0, rhs.0))
    }

    fn total_lt_spec(self, rhs: Self) -> bool {
        self.0.total_cmp(&rhs.0) == std::cmp::Ordering::Less
    }

    fn total_lt(self, rhs: Self) -> bool {
        self.0.total_cmp(&rhs.0) == std::cmp::Ordering::Less
    }

    fn is_sign_negative_spec(self) -> bool {
        self.0.is_sign_negative()
    }

    fn is_sign_negative(self) -> bool {
        self.0.is_sign_negative()
    }
}

fn reals(values: &[f64]) -> Vec<Real> {
    values.iter().map(|v| Real(*v)).collect()
}

fn real_points(values: &[&[f64]]) -> Vec<Vec<Real>> {
    values.iter().map(|p| reals(p)).collect()
}


#[test]
fn squared_distance_of_a_three_four_triangle() {
    let d = get_distance_squared(&reals(&[0.0, 0.0]), &reals(&[3.0, 4.0]));
    assert_eq!(d, Real(25.0));
}

#[test]
fn distance_of_a_three_four_triangle() {
    let d = get_distance(&reals(&[1.0, 1.0]), &reals(&[4.0, 5.0]));
    assert_eq!(d, Real(5.0));
}

#[test]
fn distance_to_itself_is_zero() {
    let p = reals(&[2.5, -7.0, 11.0]);
    assert_eq!(get_distance(&p, &p), Real(0.0));
    assert_eq!(get_distance_squared(&p, &p), Real(0.0));
}

#[test]
fn distance_is_taken_over_the_coordinates_both_have() {
    let d = get_distance_squared(&reals(&[1.0, 2.0, 100.0]), &reals(&[4.0, 6.0]));
    assert_eq!(d, Real(25.0));
    let d = get_distance_squared(&reals(&[1.0]), &reals(&[4.0, 6.0]));
    assert_eq!(d, Real(9.0));
}

#[test]
fn distance_of_vectors_without_coordinates_is_zero() {
    assert_eq!(get_distance_squared::<Real>(&[], &[]), Real(0.0));
    assert_eq!(get_distance::<Real>(&[], &[]), Real(0.0));
}

#[test]
fn squares_are_added_from_the_lowest_coordinate() {
    // 1e16 + 1 + 1 differs from 1 + 1 + 1e16 in double precision.
    let a = reals(&[1e8, 1.0, 1.0]);
    let b = reals(&[0.0, 0.0, 0.0]);
    let expected = (0.0 + 1e8f64 * 1e8f64) + 1.0 + 1.0;
    assert_eq!(get_distance_squared(&a, &b), Real(expected));
    assert_eq!(expected, 1e16);
    let a = reals(&[1.0, 1.0, 1e8]);
    assert_eq!(get_distance_squared(&a, &b), Real(1e16 + 2.0));
}

#[test]
fn nearest_centroid_and_distance() {
    let centroids = real_points(&[&[0.0, 0.0], &[10.0, 0.0], &[3.0, 4.0]]);
    let (index, distance) = get_min_centroid(&reals(&[9.0, 0.0]), &centroids);
    assert_eq!(index, 1);
    assert_eq!(distance, Real(1.0));
    let (index, distance) = get_min_centroid(&reals(&[3.0, 0.0]), &centroids);
    assert_eq!(index, 0);
    assert_eq!(distance, Real(3.0));
}

#[test]
fn first_of_equally_near_centroids_wins() {
    let centroids = real_points(&[&[5.0, 0.0], &[-5.0, 0.0], &[0.0, 5.0], &[0.0, -5.0]]);
    let (index, distance) = get_min_centroid(&reals(&[0.0, 0.0]), &centroids);
    assert_eq!(index, 0);
    assert_eq!(distance, Real(5.0));
    let (index, distance) =
        get_min_centroid_skip_point_centroid(&reals(&[0.0, 0.0]), &centroids, 0);
    assert_eq!(index, 1);
    assert_eq!(distance, Real(5.0));
}

#[test]
fn search_without_centroids_gives_index_zero_at_the_largest_distance() {
    let centroids: Vec<Vec<Real>> = Vec::new();
    let (index, distance) = get_min_centroid(&reals(&[1.0]), &centroids);
    assert_eq!(index, 0);
    assert_eq!(distance, Real(f64::MAX.sqrt()));
}

#[test]
fn skipping_the_only_centroid_finds_nothing() {
    let centroids = real_points(&[&[1.0, 1.0]]);
    let (index, distance) =
        get_min_centroid_skip_point_centroid(&reals(&[1.0, 1.0]), &centroids, 0);
    assert_eq!(index, 0);
    assert_eq!(distance, Real(f64::MAX.sqrt()));
}

#[test]
fn second_nearest_skips_the_given_centroid() {
    let centroids = real_points(&[&[0.0, 0.0], &[10.0, 0.0], &[3.0, 4.0]]);
    let point = reals(&[0.0, 1.0]);
    let (index, distance) = get_min_centroid_skip_point_centroid(&point, &centroids, 0);
    assert_eq!(index, 2);
    assert_eq!(distance, Real(18.0f64.sqrt()));
    let (index, distance) = get_min_centroid_skip_point_centroid(&point, &centroids, 2);
    assert_eq!(index, 0);
    assert_eq!(distance, Real(1.0));
}

#[test]
fn skipping_an_index_past_the_last_skips_nothing() {
    let centroids = real_points(&[&[0.0, 0.0], &[10.0, 0.0]]);
    let point = reals(&[9.0, 0.0]);
    let skipping = get_min_centroid_skip_point_centroid(&point, &centroids, 7);
    assert_eq!(skipping, get_min_centroid(&point, &centroids));
}

#[test]
fn a_distance_that_is_not_a_number_never_wins() {
    let centroids = real_points(&[&[f64::NAN, 0.0], &[10.0, 0.0]]);
    let (index, distance) = get_min_centroid(&reals(&[0.0, 0.0]), &centroids);
    assert_eq!(index, 1);
    assert_eq!(distance, Real(10.0));
}

#[test]
fn full_search_sets_centroid_and_both_bounds() {
    let centroids = real_points(&[&[0.0, 0.0], &[10.0, 0.0], &[3.0, 4.0]]);
    let mut upper = Real(-1.0);
    let mut lower = Real(-1.0);
    let mut centroid = 99usize;
    point_all_centers(&reals(&[9.0, 0.0]), &centroids, &mut upper, &mut lower, &mut centroid);
    assert_eq!(centroid, 1);
    assert_eq!(upper, Real(1.0));
    assert_eq!(lower, Real(52.0f64.sqrt()));
}

#[test]
fn full_search_without_centroids_finds_nothing() {
    let centroids: Vec<Vec<Real>> = Vec::new();
    let mut upper = Real(-1.0);
    let mut lower = Real(-1.0);
    let mut centroid = 99usize;
    point_all_centers(&reals(&[9.0, 0.0]), &centroids, &mut upper, &mut lower, &mut centroid);
    assert_eq!(centroid, 0);
    assert_eq!(upper, Real(f64::MAX.sqrt()));
    assert_eq!(lower, Real(f64::MAX.sqrt()));
}
