use kmeans_wasm::distance::{get_distance, get_distance_squared};
use kmeans_wasm::errors::KmeansError;
use kmeans_wasm::scalar::Scalar;
use kmeans_wasm::{kmeans_rgb, kmeans_rgb_seeded, kmeans_seeded};

#[test]
fn whole_numbers_add_and_subtract_within_their_range() {
    assert_eq!(3i64.plus(4), 7);
    assert_eq!(3i64.minus(4), -1);
    assert_eq!(i64::MAX.plus(1), i64::MAX);
    assert_eq!(i64::MIN.minus(1), i64::MIN);
    assert_eq!(i64::MIN.plus(-5), i64::MIN);
    assert_eq!(i64::MAX.minus(-5), i64::MAX);
    assert_eq!(<i64 as Scalar>::zero(), 0);
    assert_eq!(<i64 as Scalar>::max_value(), i64::MAX);
}

#[test]
fn whole_numbers_square_within_their_range() {
    assert_eq!(12i64.squared(), 144);
    assert_eq!((-12i64).squared(), 144);
    assert_eq!(3037000499i64.squared(), 9223372030926249001);
    assert_eq!(3037000500i64.squared(), i64::MAX);
    assert_eq!(i64::MIN.squared(), i64::MAX);
}

#[test]
fn whole_numbers_divide_towards_zero() {
    assert_eq!(7i64.over(2), 3);
    assert_eq!((-7i64).over(2), -3);
    assert_eq!(7i64.over(-2), -3);
    assert_eq!((-7i64).over(-2), 3);
    assert_eq!(7i64.over(0), 0);
    assert_eq!(i64::MIN.over(-1), i64::MAX);
    assert_eq!(i64::MIN.over(1), i64::MIN);
}

#[test]
fn whole_roots() {
    assert_eq!(0i64.sqrt(), 0);
    assert_eq!(1i64.sqrt(), 1);
    assert_eq!(3i64.sqrt(), 1);
    assert_eq!(4i64.sqrt(), 2);
    assert_eq!(24i64.sqrt(), 4);
    assert_eq!(25i64.sqrt(), 5);
    assert_eq!(26i64.sqrt(), 5);
    assert_eq!((-9i64).sqrt(), 0);
    assert_eq!(i64::MAX.sqrt(), 3037000499);
    assert_eq!(9223372030926249001i64.sqrt(), 3037000499);
    assert_eq!(9223372030926249000i64.sqrt(), 3037000498);
}

#[test]
fn whole_numbers_compare_and_convert() {
    assert!(1i64.lt(2));
    assert!(!2i64.lt(2));
    assert!((-1i64).total_lt(0));
    assert!(!0i64.total_lt(0));
    assert_eq!(3i64.larger(9), 9);
    assert_eq!(9i64.larger(3), 9);
    assert!((-1i64).is_sign_negative());
    assert!(!0i64.is_sign_negative());
    assert_eq!(<i64 as Scalar>::from_u8(200), 200);
    assert_eq!(200i64.to_u8(), 200);
    assert_eq!(256i64.to_u8(), 255);
    assert_eq!((-1i64).to_u8(), 0);
    assert_eq!(<i64 as Scalar>::from_count(17), 17);
    if usize::MAX as u128 > i64::MAX as u128 {
        assert_eq!(<i64 as Scalar>::from_count(usize::MAX), i64::MAX);
    }
}

#[test]
fn distances_between_whole_points() {
    assert_eq!(get_distance_squared(&[0i64, 0], &[3, 4]), 25);
    assert_eq!(get_distance(&[0i64, 0], &[3, 4]), 5);
    assert_eq!(get_distance(&[0i64, 0], &[1, 1]), 1);
}

#[test]
fn whole_points_cluster_like_real_ones() {
    let points: Vec<Vec<i64>> = vec![vec![0, 0], vec![0, 2], vec![10, 0], vec![10, 2]];
    let result = kmeans_seeded(&points, &[0, 2], 10, Some(1)).unwrap();
    assert_eq!(result.centroids, vec![vec![0, 1], vec![10, 1]]);
    assert_eq!(result.point_centroids, vec![0, 0, 1, 1]);
    assert_eq!(result.iterations, 1);
}

#[test]
fn colours_in_whole_numbers() {
    let rgb = [0u8, 0, 0, 255, 255, 255, 1, 1, 1, 254, 254, 254];
    let bytes = kmeans_rgb_seeded::<i64>(&rgb, &[0, 1], 10, None).unwrap();
    assert_eq!(bytes, vec![0, 0, 0, 254, 254, 254]);
    let bytes = kmeans_rgb::<i64>(vec![0, 0, 0, 255, 255, 255], 2, 10, None).unwrap();
    assert!(bytes == vec![0, 0, 0, 255, 255, 255] || bytes == vec![255, 255, 255, 0, 0, 0]);
}

#[test]
fn a_negative_whole_threshold_is_turned_down() {
    assert_eq!(
        kmeans_rgb::<i64>(vec![0, 0, 0, 255, 255, 255], 2, 10, Some(-1)),
        Err(KmeansError::NegativeThreshold)
    );
}
