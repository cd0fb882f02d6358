use peer_stats::estimator::isqrt;
use peer_stats::{durations_error_with_ci, durations_mean, durations_std_dev};

const SECOND: u64 = 1_000_000_000;

#[test]
fn correct_durations_mean() {
    let durations = vec![1 * SECOND, 3 * SECOND, 5 * SECOND];
    assert_eq!(durations_mean(&durations).unwrap(), 3 * SECOND);
}

#[test]
fn correct_durations_std_dev() {
    let durations = vec![1 * SECOND, 3 * SECOND, 5 * SECOND];
    let epsilon = 0.01;
    let std_dev = durations_std_dev(&durations).unwrap() as f64 / 1e9;
    assert!((std_dev - 1.63).abs() < epsilon);
}

#[test]
fn estimators_of_an_empty_window_are_absent() {
    let durations: Vec<u64> = Vec::new();
    assert_eq!(durations_mean(&durations), None);
    assert_eq!(durations_std_dev(&durations), None);
    assert_eq!(durations_error_with_ci(&durations), None);
}

#[test]
fn estimators_of_any_window_with_samples_are_present() {
    let durations = vec![0];
    assert!(durations_mean(&durations).is_some());
    assert!(durations_std_dev(&durations).is_some());
    assert!(durations_error_with_ci(&durations).is_some());
}

#[test]
fn mean_rounds_down() {
    assert_eq!(durations_mean(&vec![1, 2]), Some(1));
    assert_eq!(durations_mean(&vec![7]), Some(7));
    assert_eq!(durations_mean(&vec![0, 0, 0]), Some(0));
}

#[test]
fn mean_of_the_largest_samples_does_not_overflow() {
    let durations = vec![u64::MAX, u64::MAX, u64::MAX];
    assert_eq!(durations_mean(&durations), Some(u64::MAX));
    assert_eq!(durations_std_dev(&durations), Some(0));
    assert_eq!(durations_error_with_ci(&durations), Some(0));
}

#[test]
fn std_dev_is_the_floor_of_the_population_value() {
    // The variance of 1 s, 3 s and 5 s is 8/3 s^2.
    let durations = vec![1 * SECOND, 3 * SECOND, 5 * SECOND];
    assert_eq!(durations_std_dev(&durations), Some(1_632_993_161));
    // Dividing by n, not by n - 1: two samples 2 apart deviate by 1.
    assert_eq!(durations_std_dev(&vec![10, 12]), Some(1));
    assert_eq!(durations_std_dev(&vec![2, 4, 4, 4, 5, 5, 7, 9]), Some(2));
}

#[test]
fn std_dev_of_a_single_sample_is_zero() {
    assert_eq!(durations_std_dev(&vec![42 * SECOND]), Some(0));
    assert_eq!(durations_error_with_ci(&vec![42 * SECOND]), Some(0));
}

#[test]
fn std_dev_of_extreme_samples() {
    // Half the samples at each end of the range: the deviation is half the range.
    assert_eq!(durations_std_dev(&vec![0, u64::MAX]), Some(u64::MAX / 2));
    assert_eq!(durations_std_dev(&vec![0, u64::MAX, 0, u64::MAX]), Some(u64::MAX / 2));
}

#[test]
fn error_is_the_scaled_deviation_over_the_root_of_the_count() {
    let durations = vec![1 * SECOND, 3 * SECOND, 5 * SECOND];
    // 1.96 * 1.632993161 s / sqrt(3).
    assert_eq!(durations_std_dev(&durations), Some(1_632_993_161));
    assert_eq!(durations_error_with_ci(&durations), Some(1_847_905_720));
    // Deviation 2, eight samples: 1.96 * 2 / sqrt(8) = 1.38.
    assert_eq!(durations_error_with_ci(&vec![2, 4, 4, 4, 5, 5, 7, 9]), Some(1));
    // Deviation 100, four samples: 1.96 * 100 / 2.
    assert_eq!(durations_error_with_ci(&vec![0, 200, 0, 200]), Some(98));
    // Deviation 4, two samples: 1.96 * 4 / sqrt(2) = 5.54.
    assert_eq!(durations_std_dev(&vec![0, 8]), Some(4));
    assert_eq!(durations_error_with_ci(&vec![0, 8]), Some(5));
}

#[test]
fn error_follows_the_deviation_that_is_returned() {
    // Both windows have deviation 1: 1.96 / sqrt(2) = 1.38 and 1.96 / sqrt(3) = 1.13.
    assert_eq!(durations_std_dev(&vec![0, 2]), Some(1));
    assert_eq!(durations_std_dev(&vec![0, 0, 4]), Some(1));
    let fewer = durations_error_with_ci(&vec![0, 2]).unwrap();
    let more = durations_error_with_ci(&vec![0, 0, 4]).unwrap();
    assert_eq!(fewer, 1);
    assert_eq!(more, 1);
    assert!(more <= fewer);
}

#[test]
fn error_of_the_widest_deviation_fits() {
    let durations = vec![0, u64::MAX];
    assert_eq!(durations_std_dev(&durations), Some(u64::MAX / 2));
    // 1.96 * (2^63 - 1) / sqrt(2).
    let error = durations_error_with_ci(&durations).unwrap();
    let exact = 1.96 * (u64::MAX / 2) as f64 / 2f64.sqrt();
    assert!((error as f64 - exact).abs() / exact < 1e-12);
}

#[test]
fn error_shrinks_as_samples_with_the_same_deviation_are_added() {
    let mut durations: Vec<u64> = Vec::new();
    let mut last = u64::MAX;
    for _ in 0..20 {
        durations.push(1 * SECOND);
        durations.push(3 * SECOND);
        assert_eq!(durations_std_dev(&durations), Some(1 * SECOND));
        let error = durations_error_with_ci(&durations).unwrap();
        assert!(error <= last);
        last = error;
    }
    // 1.96 s / sqrt(40).
    assert_eq!(last, 309_903_210);
    assert_eq!(durations_error_with_ci(&vec![1 * SECOND, 3 * SECOND]), Some(1_385_929_291));
}

#[test]
fn integer_square_roots() {
    assert_eq!(isqrt(0), 0);
    assert_eq!(isqrt(1), 1);
    assert_eq!(isqrt(3), 1);
    assert_eq!(isqrt(4), 2);
    assert_eq!(isqrt(99), 9);
    assert_eq!(isqrt(100), 10);
    assert_eq!(isqrt(u128::MAX), u64::MAX);
    assert_eq!(isqrt((u64::MAX as u128) * (u64::MAX as u128) - 1), u64::MAX - 1);
}

#[test]
fn mean_and_deviation_stay_within_the_range_of_the_samples() {
    let windows: Vec<Vec<u64>> = vec![
        vec![5],
        vec![3, 9],
        vec![10, 10, 10, 11],
        vec![0, u64::MAX, 17],
        vec![1 * SECOND, 3 * SECOND, 5 * SECOND],
    ];
    for window in &windows {
        let low = *window.iter().min().unwrap();
        let high = *window.iter().max().unwrap();
        let mean = durations_mean(window).unwrap();
        assert!(low <= mean && mean <= high);
        assert!(durations_std_dev(window).unwrap() <= high - low);
    }
}
