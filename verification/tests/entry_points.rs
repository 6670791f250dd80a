use kmeans_wasm::errors::KmeansError;
use kmeans_wasm::kmeans_triangle::HamerlyKmeansResult;
use kmeans_wasm::rgb::{points_from_rgb, rgb_from_centroids};
use kmeans_wasm::scalar::Scalar;
use kmeans_wasm::seeding::{
    all_indices, centroids_at, draw_seeds, get_centroids, is_valid_seeding, offer_index,
};
use kmeans_wasm::validate::{
    check_parameters, check_request, check_rgb_request, has_same_dimension, threshold_or_zero,
};
use kmeans_wasm::{kmeans, kmeans_rgb, kmeans_rgb_seeded, kmeans_seeded};
use rand::rngs::StdRng;
use rand::seq::SliceRandom;
use rand::SeedableRng;

#[derive(Clone, Copy, Debug, PartialEq)]
struct Real(f64);

impl Scalar for Real {
    fn zero_spec() -> Self {
        Real(0.0)
    }

    fn zero() -> Self {
        Real(0.0)
    }

    fn max_value_spec() -> Self {
        Real(f64::MAX)
    }

    fn max_value() -> Self {
        Real(f64::MAX)
    }

    fn from_u8_spec(byte: u8) -> Self {
        Real(byte as f64)
    }

    fn from_u8(byte: u8) -> Self {
        Real(byte as f64)
    }

    fn to_u8_spec(self) -> u8 {
        self.0 as u8
    }

    fn to_u8(self) -> u8 {
        self.0 as u8
    }

    fn from_count_spec(count: usize) -> Self {
        Real(count as f64)
    }

    fn from_count(count: usize) -> Self {
        Real(count as f64)
    }

    fn plus_spec(self, rhs: Self) -> Self {
        Real(self.0 + rhs.0)
    }

    fn plus(self, rhs: Self) -> Self {
        Real(self.0 + rhs.0)
    }

    fn minus_spec(self, rhs: Self) -> Self {
        Real(self.0 - rhs.0)
    }

    fn minus(self, rhs: Self) -> Self {
        Real(self.0 - rhs.0)
    }

    fn over_spec(self, rhs: Self) -> Self {
        Real(self.0 / rhs.0)
    }

    fn over(self, rhs: Self) -> Self {
        Real(self.0 / rhs.0)
    }

    fn squared_spec(self) -> Self {
        Real(self.0 * self.0)
    }

    fn squared(self) -> Self {
        Real(self.0 * self.0)
    }

    fn sqrt_spec(self) -> Self {
        Real(self.0.sqrt())
    }

    fn sqrt(self) -> Self {
        Real(self.0.sqrt())
    }

    fn lt_spec(self, rhs: Self) -> bool {
        self.0 < rhs.0
    }

    fn lt(self, rhs: Self) -> bool {
        self.0 < rhs.0
    }

    fn larger_spec(self, rhs: Self) -> Self {
        Real(f64::max(self.0, rhs.0))
    }

    fn larger(self, rhs: Self) -> Self {
        Real(f64::max(self.0, rhs.0))
    }

    fn total_lt_spec(self, rhs: Self) -> bool {
        self.0.total_cmp(&rhs.0) == std::cmp::Ordering::Less
    }

    fn total_lt(self, rhs: Self) -> bool {
        self.0.total_cmp(&rhs.0) == std::cmp::Ordering::Less
    }

    fn is_sign_negative_spec(self) -> bool {
        self.0.is_sign_negative()
    }

    fn is_sign_negative(self) -> bool {
        self.0.is_sign_negative()
    }
}

fn reals(values: &[f64]) -> Vec<Real> {
    values.iter().map(|v| Real(*v)).collect()
}

fn real_points(values: &[&[f64]]) -> Vec<Vec<Real>> {
    values.iter().map(|p| reals(p)).collect()
}


fn square() -> Vec<Vec<Real>> {
    real_points(&[&[0.0, 0.0], &[0.0, 1.0], &[10.0, 0.0], &[10.0, 1.0]])
}

#[test]
fn black_and_white_stay_black_and_white() {
    let bytes = kmeans_rgb::<Real>(vec![0, 0, 0, 255, 255, 255], 2, 10, None).unwrap();
    assert!(bytes == vec![0, 0, 0, 255, 255, 255] || bytes == vec![255, 255, 255, 0, 0, 0]);
    let bytes = kmeans_rgb(vec![0, 0, 0, 255, 255, 255], 2, 10, Some(Real(0.5))).unwrap();
    assert!(bytes == vec![0, 0, 0, 255, 255, 255] || bytes == vec![255, 255, 255, 0, 0, 0]);
}

#[test]
fn black_and_white_from_either_order_of_seeds() {
    let rgb = [0u8, 0, 0, 255, 255, 255];
    let bytes = kmeans_rgb_seeded::<Real>(&rgb, &[0, 1], 10, None).unwrap();
    assert_eq!(bytes, vec![0, 0, 0, 255, 255, 255]);
    let bytes = kmeans_rgb_seeded::<Real>(&rgb, &[1, 0], 10, None).unwrap();
    assert_eq!(bytes, vec![255, 255, 255, 0, 0, 0]);
}

#[test]
fn colour_centroids_drop_their_fraction() {
    let rgb = [0u8, 0, 0, 1, 1, 1, 255, 255, 255, 254, 254, 254, 3, 2, 0];
    let bytes = kmeans_rgb_seeded::<Real>(&rgb, &[0, 2], 10, None).unwrap();
    // The means are (4/3, 1, 1/3) and (254.5, 254.5, 254.5).
    assert_eq!(bytes, vec![1, 1, 0, 254, 254, 254]);
}

#[test]
fn colours_without_bytes_give_no_bytes() {
    assert_eq!(kmeans_rgb::<Real>(Vec::new(), 2, 10, None), Ok(Vec::new()));
    assert_eq!(kmeans_rgb_seeded::<Real>(&[], &[0, 1], 10, None), Ok(Vec::new()));
}

#[test]
fn colours_are_checked_in_order() {
    let rgb = vec![1u8, 2, 3, 4];
    assert_eq!(kmeans_rgb(rgb.clone(), 1, 0, Some(Real(-1.0))), Err(KmeansError::TooFewClusters));
    assert_eq!(kmeans_rgb(rgb.clone(), 0, 5, Some(Real(0.0))), Err(KmeansError::TooFewClusters));
    assert_eq!(
        kmeans_rgb(rgb.clone(), 2, 0, Some(Real(-1.0))),
        Err(KmeansError::TooFewIterations)
    );
    assert_eq!(
        kmeans_rgb(rgb.clone(), 2, 1, Some(Real(-1.0))),
        Err(KmeansError::NegativeThreshold)
    );
    assert_eq!(
        kmeans_rgb(rgb.clone(), 2, 1, Some(Real(-0.0))),
        Err(KmeansError::NegativeThreshold)
    );
    assert_eq!(kmeans_rgb::<Real>(rgb.clone(), 2, 1, None), Err(KmeansError::RaggedRgb));
    assert_eq!(
        kmeans_rgb::<Real>(vec![1, 2, 3], 2, 1, None),
        Err(KmeansError::InsufficientPoints)
    );
    assert_eq!(
        kmeans_rgb::<Real>(vec![1, 2, 3, 4, 5, 6], 3, 1, None),
        Err(KmeansError::InsufficientPoints)
    );
}

#[test]
fn seeds_for_colours_are_checked() {
    let rgb = [1u8, 2, 3, 4, 5, 6, 7, 8, 9];
    assert_eq!(
        kmeans_rgb_seeded::<Real>(&rgb, &[0], 5, None),
        Err(KmeansError::TooFewClusters)
    );
    assert_eq!(
        kmeans_rgb_seeded::<Real>(&rgb, &[0, 0], 5, None),
        Err(KmeansError::InvalidSeeds)
    );
    assert_eq!(
        kmeans_rgb_seeded::<Real>(&rgb, &[0, 3], 5, None),
        Err(KmeansError::InvalidSeeds)
    );
    assert_eq!(
        kmeans_rgb_seeded::<Real>(&rgb, &[0, 1, 2, 1], 5, None),
        Err(KmeansError::InsufficientPoints)
    );
    assert_eq!(
        kmeans_rgb_seeded::<Real>(&rgb[..8], &[0, 1], 5, None),
        Err(KmeansError::RaggedRgb)
    );
}

#[test]
fn points_are_checked_in_order() {
    let ragged = real_points(&[&[1.0, 2.0], &[3.0]]);
    assert!(matches!(
        kmeans(ragged.clone(), 1, 0, Some(Real(-1.0))),
        Err(KmeansError::TooFewClusters)
    ));
    assert!(matches!(
        kmeans(ragged.clone(), 2, 0, Some(Real(-1.0))),
        Err(KmeansError::TooFewIterations)
    ));
    assert!(matches!(
        kmeans(ragged.clone(), 2, 3, Some(Real(-1.0))),
        Err(KmeansError::NegativeThreshold)
    ));
    assert!(matches!(kmeans(ragged.clone(), 2, 3, None), Err(KmeansError::DimensionMismatch)));
    assert!(matches!(kmeans(ragged, 5, 3, None), Err(KmeansError::DimensionMismatch)));
    assert!(matches!(kmeans(square(), 5, 3, None), Err(KmeansError::InsufficientPoints)));
}

#[test]
fn seeds_for_points_are_checked() {
    let points = square();
    assert!(matches!(
        kmeans_seeded(&points, &[1], 3, None),
        Err(KmeansError::TooFewClusters)
    ));
    assert!(matches!(
        kmeans_seeded(&points, &[1, 1], 3, None),
        Err(KmeansError::InvalidSeeds)
    ));
    assert!(matches!(
        kmeans_seeded(&points, &[1, 4], 3, None),
        Err(KmeansError::InvalidSeeds)
    ));
    assert!(matches!(
        kmeans_seeded(&points, &[0, 1, 2, 3, 0], 3, None),
        Err(KmeansError::InsufficientPoints)
    ));
}

#[test]
fn no_points_give_an_empty_result() {
    let result = kmeans::<Real>(Vec::new(), 2, 10, None).unwrap();
    assert!(result.centroids.is_empty());
    assert!(result.point_centroids.is_empty());
    assert_eq!(result.iterations, 0);
    let result = kmeans_seeded::<Real>(&[], &[0, 1], 10, None).unwrap();
    assert!(result.centroids.is_empty());
    assert_eq!(result.iterations, 0);
}

#[test]
fn a_missing_threshold_is_zero() {
    assert_eq!(threshold_or_zero::<Real>(None), Real(0.0));
    assert_eq!(threshold_or_zero(Some(Real(2.5))), Real(2.5));
    let result = kmeans_seeded(&square(), &[0, 2], 6, None).unwrap();
    assert_eq!(result.iterations, 6);
    let result = kmeans_seeded(&square(), &[0, 2], 6, Some(Real(1e-9))).unwrap();
    assert_eq!(result.iterations, 1);
}

#[test]
fn seeded_clustering_of_two_pairs_of_points() {
    let result = kmeans_seeded(&square(), &[3, 0], 10, None).unwrap();
    assert_eq!(result.centroids, real_points(&[&[10.0, 0.5], &[0.0, 0.5]]));
    assert_eq!(result.point_centroids, vec![1, 1, 0, 0]);
    assert_eq!(result.iterations, 10);
}

#[test]
fn clustering_with_the_generator_gives_means_of_the_clusters() {
    let points = real_points(&[
        &[0.0, 0.0],
        &[1.0, 0.0],
        &[0.0, 1.0],
        &[100.0, 100.0],
        &[101.0, 100.0],
        &[100.0, 101.0],
        &[-50.0, 60.0],
        &[-51.0, 60.0],
    ]);
    let result = kmeans(points.clone(), 3, 40, None).unwrap();
    assert_eq!(result.centroids.len(), 3);
    assert_eq!(result.point_centroids.len(), 8);
    assert_eq!(result.iterations, 40);
    for (j, centroid) in result.centroids.iter().enumerate() {
        let members: Vec<&Vec<Real>> = points
            .iter()
            .zip(result.point_centroids.iter())
            .filter(|(_, a)| **a == j)
            .map(|(p, _)| p)
            .collect();
        assert!(!members.is_empty());
        for t in 0..2 {
            let mean = members.iter().map(|p| p[t].0).sum::<f64>() / members.len() as f64;
            assert!((centroid[t].0 - mean).abs() <= 1e-9);
        }
    }
}

#[test]
fn parameters_are_checked() {
    assert_eq!(check_parameters::<Real>(2, 1, None), None);
    assert_eq!(check_parameters(2, 1, Some(Real(0.0))), None);
    assert_eq!(check_parameters::<Real>(1, 1, None), Some(KmeansError::TooFewClusters));
    assert_eq!(check_parameters::<Real>(2, 0, None), Some(KmeansError::TooFewIterations));
    assert_eq!(
        check_parameters(2, 1, Some(Real(-1e-300))),
        Some(KmeansError::NegativeThreshold)
    );
}

#[test]
fn dimensions_are_compared_with_the_first_point() {
    assert!(has_same_dimension::<Real>(&[]));
    assert!(has_same_dimension(&real_points(&[&[1.0, 2.0]])));
    assert!(has_same_dimension(&real_points(&[&[1.0, 2.0], &[3.0, 4.0]])));
    assert!(!has_same_dimension(&real_points(&[&[1.0, 2.0], &[3.0, 4.0], &[5.0]])));
    assert!(!has_same_dimension(&real_points(&[&[], &[3.0]])));
}

#[test]
fn every_error_has_its_message() {
    assert_eq!(
        KmeansError::TooFewClusters.message(),
        "Error: k must be greater than or equal to 2."
    );
    assert_eq!(
        KmeansError::TooFewIterations.message(),
        "Error: max_iter must be greater than or equal to 1."
    );
    assert_eq!(
        KmeansError::NegativeThreshold.message(),
        "Error: convergence_threshold must be positive"
    );
    assert_eq!(
        KmeansError::RaggedRgb.message(),
        "Error: The length of rgb_slice must be a multiple of 3."
    );
    assert_eq!(
        KmeansError::DimensionMismatch.message(),
        "Error: All data points must have the same dimension."
    );
    assert_eq!(
        KmeansError::InsufficientPoints.message(),
        "Error: k must not exceed the number of data points."
    );
    assert_eq!(
        KmeansError::InvalidSeeds.message(),
        "Error: The initial centroids must be distinct data points."
    );
    assert_eq!(KmeansError::NoCentroids.message(), "Error: There are no centroids.");
}

#[test]
fn a_new_point_is_classified_by_its_nearest_centroid() {
    let result = kmeans_seeded(&square(), &[0, 2], 10, None).unwrap();
    assert_eq!(result.test(&reals(&[1.0, 7.0])), Ok(0));
    assert_eq!(result.test(&reals(&[9.0, -3.0])), Ok(1));
    assert_eq!(result.test(&reals(&[5.0, 0.5])), Ok(0));
    assert_eq!(result.test(&reals(&[5.0])), Err(KmeansError::DimensionMismatch));
    assert_eq!(result.test(&reals(&[5.0, 1.0, 2.0])), Err(KmeansError::DimensionMismatch));
}

#[test]
fn nothing_is_classified_without_centroids() {
    let result: HamerlyKmeansResult<Real> =
        HamerlyKmeansResult { centroids: Vec::new(), iterations: 0, point_centroids: Vec::new() };
    assert_eq!(result.test(&[]), Err(KmeansError::NoCentroids));
    assert_eq!(result.test(&reals(&[1.0])), Err(KmeansError::NoCentroids));
}

#[test]
fn generator_picks_as_many_distinct_points_as_asked() {
    let points: Vec<Vec<Real>> = (0..20).map(|i| vec![Real(i as f64)]).collect();
    for k in [0, 1, 2, 7, 19, 20] {
        let centroids = get_centroids(&points, k).unwrap();
        assert_eq!(centroids.len(), k);
        for (j, centroid) in centroids.iter().enumerate() {
            assert!(points.contains(centroid));
            assert!(!centroids[..j].contains(centroid));
        }
    }
    assert!(matches!(get_centroids(&points, 21), Err(KmeansError::InsufficientPoints)));
    assert_eq!(get_centroids(&points, 5), get_centroids(&points, 5));
}

#[test]
fn generator_picks_what_a_choice_from_the_slice_picks_under_seed_zero() {
    let points: Vec<Vec<Real>> = (0..300).map(|i| vec![Real(i as f64), Real(-(i as f64))]).collect();
    for k in [2, 3, 11, 12, 60, 170, 299, 300] {
        let mut rng = StdRng::seed_from_u64(0);
        let chosen: Vec<Vec<Real>> = points.choose_multiple(&mut rng, k).cloned().collect();
        assert_eq!(get_centroids(&points, k).unwrap(), chosen);
    }
}

#[test]
fn generator_does_not_simply_take_the_first_points_in_order() {
    let points: Vec<Vec<Real>> = (0..1000).map(|i| vec![Real(i as f64)]).collect();
    let centroids = get_centroids(&points, 10).unwrap();
    let first: Vec<Vec<Real>> = points[..10].to_vec();
    assert_ne!(centroids, first);
}

#[test]
fn centroids_are_copied_from_the_seeded_points() {
    let points = square();
    assert_eq!(centroids_at(&points, &[3, 1]), real_points(&[&[10.0, 1.0], &[0.0, 1.0]]));
    assert_eq!(centroids_at(&points, &[2, 2]), real_points(&[&[10.0, 0.0], &[10.0, 0.0]]));
    assert!(centroids_at(&points, &[]).is_empty());
}

#[test]
fn seedings_are_valid_when_distinct_and_in_range() {
    assert!(is_valid_seeding(&[], 0));
    assert!(is_valid_seeding(&[2, 0, 1], 3));
    assert!(!is_valid_seeding(&[2, 0, 3], 3));
    assert!(!is_valid_seeding(&[2, 0, 2], 3));
    assert!(!is_valid_seeding(&[0], 0));
}

#[test]
fn offered_indices_are_taken_once() {
    let mut chosen = Vec::new();
    assert!(offer_index(&mut chosen, 4, 5));
    assert!(!offer_index(&mut chosen, 4, 5));
    assert!(!offer_index(&mut chosen, 5, 5));
    assert!(offer_index(&mut chosen, 0, 5));
    assert!(offer_index(&mut chosen, 2, 5));
    assert!(!offer_index(&mut chosen, 0, 5));
    assert_eq!(chosen, vec![4, 0, 2]);
    assert!(is_valid_seeding(&chosen, 5));
}

#[test]
fn colour_bytes_become_points_and_back() {
    let points: Vec<Vec<Real>> = points_from_rgb(&[1, 2, 3, 250, 0, 9]);
    assert_eq!(points, real_points(&[&[1.0, 2.0, 3.0], &[250.0, 0.0, 9.0]]));
    assert_eq!(rgb_from_centroids(&points), vec![1, 2, 3, 250, 0, 9]);
    let fractions = real_points(&[&[1.9, 254.999, 0.5], &[-3.0, 300.0, f64::NAN]]);
    assert_eq!(rgb_from_centroids(&fractions), vec![1, 254, 0, 0, 255, 0]);
    let longer = real_points(&[&[1.0, 2.0, 3.0, 4.0], &[5.0, 6.0, 7.0, 8.0]]);
    assert_eq!(rgb_from_centroids(&longer), vec![1, 2, 3, 5, 6, 7]);
    let trailing: Vec<Vec<Real>> = points_from_rgb(&[1, 2, 3, 4, 5]);
    assert_eq!(trailing, real_points(&[&[1.0, 2.0, 3.0]]));
}

#[test]
fn all_indices_come_in_their_order() {
    assert_eq!(all_indices(0), Vec::<usize>::new());
    assert_eq!(all_indices(4), vec![0, 1, 2, 3]);
}

#[test]
fn drawn_seeds_are_distinct_and_in_range() {
    for (length, amount) in [(1, 0), (1, 1), (5, 5), (40, 7), (1000, 200), (1000, 999)] {
        let seeds = draw_seeds(length, amount);
        assert_eq!(seeds.len(), amount);
        assert!(is_valid_seeding(&seeds, length));
        assert_eq!(seeds, draw_seeds(length, amount));
    }
}

#[test]
fn drawing_all_of_a_few_indices_is_left_to_the_generator() {
    let mut rng = StdRng::seed_from_u64(0);
    let drawn = rand::seq::index::sample(&mut rng, 6, 6).into_vec();
    assert_eq!(draw_seeds(6, 6), drawn);
}

#[test]
fn requests_for_points_are_checked_whole() {
    let points = square();
    assert_eq!(check_request::<Real>(&points, 2, 1, None), None);
    assert_eq!(check_request::<Real>(&points, 4, 1, None), None);
    assert_eq!(check_request::<Real>(&[], 9, 1, None), None);
    assert_eq!(check_request::<Real>(&points, 5, 1, None), Some(KmeansError::InsufficientPoints));
    assert_eq!(check_request::<Real>(&points, 1, 1, None), Some(KmeansError::TooFewClusters));
    assert_eq!(check_request::<Real>(&points, 2, 0, None), Some(KmeansError::TooFewIterations));
    assert_eq!(
        check_request(&points, 2, 1, Some(Real(-2.0))),
        Some(KmeansError::NegativeThreshold)
    );
    let ragged = real_points(&[&[1.0], &[1.0, 2.0]]);
    assert_eq!(check_request::<Real>(&ragged, 9, 1, None), Some(KmeansError::DimensionMismatch));
}

#[test]
fn requests_for_colours_are_checked_whole() {
    assert_eq!(check_rgb_request::<Real>(6, 2, 1, None), None);
    assert_eq!(check_rgb_request::<Real>(0, 7, 1, None), None);
    assert_eq!(check_rgb_request::<Real>(6, 3, 1, None), Some(KmeansError::InsufficientPoints));
    assert_eq!(check_rgb_request::<Real>(7, 3, 1, None), Some(KmeansError::RaggedRgb));
    assert_eq!(check_rgb_request::<Real>(7, 1, 1, None), Some(KmeansError::TooFewClusters));
    assert_eq!(check_rgb_request::<Real>(7, 2, 0, None), Some(KmeansError::TooFewIterations));
    assert_eq!(
        check_rgb_request(7, 2, 1, Some(Real(-0.0))),
        Some(KmeansError::NegativeThreshold)
    );
}

#[test]
fn a_request_that_is_turned_down_costs_no_seeds() {
    // As many clusters as the machine can count: nothing of that size is built.
    assert_eq!(
        kmeans_rgb::<Real>(vec![1, 2, 3, 4, 5, 6], usize::MAX, 1, None),
        Err(KmeansError::InsufficientPoints)
    );
    assert_eq!(kmeans_rgb::<Real>(Vec::new(), usize::MAX, 1, None), Ok(Vec::new()));
    assert!(matches!(
        kmeans(square(), usize::MAX, 1, None),
        Err(KmeansError::InsufficientPoints)
    ));
    assert!(kmeans::<Real>(Vec::new(), usize::MAX, 1, None).unwrap().centroids.is_empty());
}
