use plato_correlate::stats::{bin_counts, lag_windows, tied_ranks_doubled};

// The correlation values are floating point and computed outside the verified
// core; these tests check the lags and windows that a cross-correlation compares.
#[test]
fn cross_correlation_zero_lag() {
    let w = lag_windows(50, 50, 0);
    assert_eq!(w.len(), 1);
    assert_eq!(w[0], (0, 50, 0, 50));
}

#[test]
fn cross_correlation_empty() {
    assert!(lag_windows(0, 0, 5).is_empty());
    assert!(lag_windows(0, 7, 5).is_empty());
    assert!(lag_windows(7, 0, 5).is_empty());
}

#[test]
fn cross_correlation_max_lag_exceeds_length() {
    let w = lag_windows(3, 3, 100);
    assert!(w.len() <= 4);
    assert_eq!(w, vec![(0, 3, 0, 3), (1, 2, 1, 3), (2, 1, 2, 3)]);
}

#[test]
fn lag_windows_stop_at_the_shorter_series() {
    assert_eq!(
        lag_windows(5, 3, 10),
        vec![(0, 3, 0, 3), (1, 2, 1, 3), (2, 1, 2, 3)]
    );
    assert_eq!(
        lag_windows(3, 5, 10),
        vec![(0, 3, 0, 3), (1, 3, 1, 4), (2, 3, 2, 5)]
    );
    assert_eq!(lag_windows(4, 3, 0), vec![(0, 3, 0, 3)]);
    assert_eq!(lag_windows(50, 50, 10).len(), 11);
    assert_eq!(lag_windows(50, 50, 10)[5], (5, 45, 5, 50));
    assert_eq!(lag_windows(4, 9, usize::MAX).len(), 4);
}

#[test]
fn tied_values_share_the_average_rank() {
    // Values [2.0, 1.0, 3.0, 2.0] sort to positions of indices [1, 0, 3, 2];
    // the two 2.0 share ranks 2 and 3.
    let r = tied_ranks_doubled(&vec![1, 0, 3, 2], &vec![false, true, false]);
    assert_eq!(r, vec![5, 2, 8, 5]);
}

#[test]
fn distinct_values_rank_one_to_n() {
    let r = tied_ranks_doubled(&vec![2, 0, 1], &vec![false, false]);
    assert_eq!(r, vec![4, 6, 2]);
}

#[test]
fn all_equal_values_share_the_middle_rank() {
    let r = tied_ranks_doubled(&vec![0, 1, 2, 3], &vec![true, true, true]);
    assert_eq!(r, vec![5, 5, 5, 5]);
    assert!(tied_ranks_doubled(&vec![], &vec![]).is_empty());
    assert_eq!(tied_ranks_doubled(&vec![0], &vec![]), vec![2]);
}

#[test]
fn histogram_counts_pairs_and_marginals() {
    let (joint, mx, my) = bin_counts(&vec![0, 1, 1, 2], &vec![2, 1, 1, 0], 3);
    assert_eq!(joint, vec![vec![0, 0, 1], vec![0, 2, 0], vec![1, 0, 0]]);
    assert_eq!(mx, vec![1, 2, 1]);
    assert_eq!(my, vec![1, 2, 1]);
}

#[test]
fn histogram_of_no_samples_is_zero() {
    let (joint, mx, my) = bin_counts(&vec![], &vec![], 2);
    assert_eq!(joint, vec![vec![0, 0], vec![0, 0]]);
    assert_eq!(mx, vec![0, 0]);
    assert_eq!(my, vec![0, 0]);
}
