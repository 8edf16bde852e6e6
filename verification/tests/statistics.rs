use lightning_core::statistics::{
    abs_difference, approx_quantile, calculate_mean, calculate_variance, calculate_z_score,
    min_max_normalize, try_min_max_normalize, z_score_normalize_filter, EPSILON, FIXED_ONE,
};

#[test]
fn test_mean_basic() {
    let values = [1, 2, 3, 4, 5, 6, 7, 8, 9];
    let mean = calculate_mean(&values).unwrap();
    assert_eq!(mean, 5);
}

#[test]
fn test_mean() {
    // Fixed-point values with eighteen decimal places.
    let one = FIXED_ONE as i128;
    let values = [
        123134134_i128 * one,
        4134_i128 * one,
        12312_i128 * one,
        999999999_i128 * one,
        232323232323_i128 * one,
    ];
    let mean = calculate_mean(&values).unwrap();
    // 46689276580.4
    assert_eq!(mean, 466892765804_i128 * (one / 10));
}

#[test]
fn test_mean_one() {
    let values = [42i128];
    assert_eq!(calculate_mean(&values).unwrap(), 42);
}

#[test]
fn test_mean_empty() {
    let values: Vec<i128> = vec![];
    assert!(calculate_mean(&values).is_none());
}

#[test]
fn mean_rounds_towards_zero() {
    assert_eq!(calculate_mean(&[-3, -4]), Some(-3));
    assert_eq!(calculate_mean(&[3, 4]), Some(3));
}

#[test]
fn test_variance_basic() {
    let values = [1, 2, 3, 4, 5, 6, 7, 8];
    let var = calculate_variance(&values).unwrap();
    assert_eq!(var, 6);
}

#[test]
fn test_variance() {
    let values = [57389400_i128, 123124143_i128, 413434984_i128, 1_i128];
    let var = calculate_variance(&values).unwrap();
    assert!(33729290112861004_i128 - var < 100_i128);
}

#[test]
fn test_variance_empty() {
    let values: Vec<i128> = vec![];
    assert!(calculate_variance(&values).is_none());
}

#[test]
fn variance_of_one_value_is_one() {
    assert_eq!(calculate_variance(&[17]), Some(1));
}

#[test]
fn z_score_is_squared_deviation_over_variance() {
    assert_eq!(calculate_z_score(10, 4, 4), 9);
    assert_eq!(calculate_z_score(-2, 4, 4), 9);
    assert_eq!(calculate_z_score(5, 4, 4), 0);
}

/// A fixed-point number with eighteen decimal places, from its units and
/// thousandths.
fn fixed(units: i128, thousandths: i128) -> i128 {
    units * FIXED_ONE as i128 + thousandths * (FIXED_ONE as i128 / 1000)
}

#[test]
fn test_min_max_normalize() {
    assert_eq!(min_max_normalize(fixed(80, 0), fixed(20, 0), fixed(100, 0)), fixed(0, 750));
    assert_eq!(min_max_normalize(fixed(100, 0), fixed(20, 0), fixed(100, 0)), fixed(1, 0));
    assert_eq!(min_max_normalize(fixed(20, 0), fixed(20, 0), fixed(100, 0)), fixed(0, 0));
}

#[test]
fn test_try_min_max_normalize() {
    assert_eq!(try_min_max_normalize(fixed(50, 0), fixed(50, 0), fixed(50, 0)), None);
    assert_eq!(try_min_max_normalize(fixed(50, 0), fixed(10, 0), fixed(90, 0)), Some(fixed(0, 500)));
}

#[test]
fn min_max_normalize_outside_the_bounds() {
    assert_eq!(min_max_normalize(fixed(-70, 0), fixed(20, 0), fixed(100, 0)), fixed(-1, -125));
    assert_eq!(min_max_normalize(fixed(180, 0), fixed(20, 0), fixed(100, 0)), fixed(2, 0));
}

#[test]
fn min_max_normalize_rounds_towards_zero() {
    // One third, and minus one third, to eighteen places.
    assert_eq!(min_max_normalize(fixed(1, 0), 0, fixed(3, 0)), 333_333_333_333_333_333);
    assert_eq!(min_max_normalize(fixed(-1, 0), 0, fixed(3, 0)), -333_333_333_333_333_333);
}

#[test]
fn min_max_normalize_large_range() {
    // A range near the top of the i128 range still divides exactly.
    let max = i128::MAX / 2;
    assert_eq!(min_max_normalize(max, 0, max), fixed(1, 0));
    assert_eq!(min_max_normalize(0, 0, max), 0);
}

#[test]
fn try_min_max_normalize_needs_distinct_bounds() {
    assert_eq!(try_min_max_normalize(5, 0, EPSILON - 1), None);
    assert_eq!(try_min_max_normalize(EPSILON, 0, EPSILON), Some(fixed(1, 0)));
    assert_eq!(try_min_max_normalize(0, EPSILON, 0), Some(fixed(1, 0)));
}

#[test]
fn abs_difference_both_ways() {
    assert_eq!(abs_difference(3, 10), 7);
    assert_eq!(abs_difference(10, 3), 7);
}

#[test]
fn test_approx_quantile() {
    let scale = FIXED_ONE;
    let values = vec![1, 2, 3, 4, 5, 6, 7, 8, 9, 10];
    assert_eq!(approx_quantile(values, scale / 10).unwrap(), 2);
    let values = vec![1, 2, 3, 4, 5, 6, 7, 8, 9, 10];
    assert_eq!(approx_quantile(values, 0).unwrap(), 1);
    let values = vec![1, 2, 3, 4, 5, 6, 7, 8, 9, 10];
    assert_eq!(approx_quantile(values, scale), None);
    let values = vec![1, 2, 3, 4, 5, 6, 7, 8, 9, 10];
    assert_eq!(approx_quantile(values, scale / 10000 * 9999), None);
    let values: Vec<i128> = Vec::new();
    assert_eq!(approx_quantile(values, scale / 2), None);
}

#[test]
fn approx_quantile_sorts_first() {
    let values = vec![10, 3, 7, 1, 9];
    assert_eq!(approx_quantile(values, FIXED_ONE / 2), Some(7));
    let values = vec![10, 3, 7, 1, 9];
    assert_eq!(approx_quantile(values, 0), Some(1));
}

#[test]
fn test_z_score_normalize_filter() {
    let mut values = vec![1, 4, 6, 3, 4, 7, 4, 5, 6, 7, 8, 3, 80];
    z_score_normalize_filter(&mut values);
    assert_eq!(values, vec![1, 4, 6, 3, 4, 7, 4, 5, 6, 7, 8, 3])
}

#[test]
fn test_z_score_normalize_filter_empty() {
    let mut values: Vec<i128> = vec![];
    z_score_normalize_filter(&mut values);
    assert_eq!(values, Vec::<i128>::new())
}

#[test]
fn test_z_score_normalize_filter_one_element() {
    let mut values = vec![1];
    z_score_normalize_filter(&mut values);
    assert_eq!(values, vec![1])
}

#[test]
fn test_z_score_normalize_filter_two_elements() {
    let mut values = vec![1, 2];
    z_score_normalize_filter(&mut values);
    assert_eq!(values, vec![1, 2])
}

#[test]
fn test_z_score_normalize_filter_more() {
    let mut values = vec![4, 6, 3, 4, 5, 2, 2, 1, 3, 2, 4, 50];
    z_score_normalize_filter(&mut values);
    assert_eq!(values, vec![4, 6, 3, 4, 5, 2, 2, 1, 3, 2, 4]);
}

#[test]
fn z_score_filter_keeps_equal_values() {
    let mut values = vec![5, 5, 5, 5];
    z_score_normalize_filter(&mut values);
    assert_eq!(values, vec![5, 5, 5, 5]);
}

#[test]
fn the_outlier_filter_never_empties_a_list() {
    for mut values in [vec![5i128], vec![-3, 3], vec![0, 0, 0, 1_000_000], vec![1, 100, 10_000, 1_000_000]] {
        z_score_normalize_filter(&mut values);
        assert!(!values.is_empty());
    }
}
