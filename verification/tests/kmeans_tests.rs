use kmeans::kmeans;
use kmeans::KmeansError;

#[test]
fn three_means() {
    let mut data = vec![1, 2, 3, 10, 11, 12, 20, 21, 22];
    data.sort_unstable();
    let centroids = kmeans(&data, 3).unwrap();
    assert_eq!(centroids, vec![2, 11, 21]);
}

#[test]
fn four_means() {
    let mut data = vec![30, 31, 32, 1, 2, 3, 10, 11, 12, 20, 21, 22];
    data.sort_unstable();
    let centroids = kmeans(&data, 4).unwrap();
    assert_eq!(centroids, vec![2, 11, 21, 31]);
}

#[test]
fn centroids_are_sorted_and_in_range() {
    let data = vec![0, 1, 4, 9, 16, 25, 36, 49, 64, 81];
    for k in 1..=data.len() {
        let centroids = kmeans(&data, k).unwrap();
        assert_eq!(centroids.len(), k);
        for pair in centroids.windows(2) {
            assert!(pair[0] <= pair[1]);
        }
        for c in &centroids {
            assert!(data[0] <= *c && *c <= data[data.len() - 1]);
        }
    }
}

#[test]
fn rerun_gives_same_result() {
    let data = vec![1, 2, 3, 10, 11, 12, 20, 21, 22];
    let first = kmeans(&data, 3).unwrap();
    let second = kmeans(&data, 3).unwrap();
    assert_eq!(first, second);
}

#[test]
fn one_cluster_per_sample() {
    let data = vec![1, 3, 5];
    let centroids = kmeans(&data, 3).unwrap();
    assert_eq!(centroids, data);
}

#[test]
fn single_cluster_is_rounded_mean() {
    let data = vec![10, 20];
    assert_eq!(kmeans(&data, 1).unwrap(), vec![15]);
    let data = vec![1, 2, 3];
    assert_eq!(kmeans(&data, 1).unwrap(), vec![2]);
    let data = vec![1, 2];
    assert_eq!(kmeans(&data, 1).unwrap(), vec![2]);
}

#[test]
fn single_cluster_negative_mean_truncates_toward_zero() {
    // the rounding rule adds half the count before a truncating division,
    // so the mean of two samples at -1 rounds up to 0
    let data = vec![-1, -1];
    assert_eq!(kmeans(&data, 1).unwrap(), vec![0]);
}

#[test]
fn negative_ties_round_toward_zero_in_both_clusters() {
    // both clusters cover the two tied samples; each mean of -1 rounds to 0
    let data = vec![-1, -1];
    assert_eq!(kmeans(&data, 2).unwrap(), vec![0, 0]);
}

#[test]
fn tied_samples_leave_empty_clusters_unharmed() {
    let data = vec![5, 5, 5, 5];
    let centroids = kmeans(&data, 2).unwrap();
    assert_eq!(centroids, vec![5, 5]);
}

#[test]
fn far_outlier_perturbation_leaves_other_clusters_alone() {
    let base = vec![1, 2, 3, 10, 11, 12, 100];
    let perturbed = vec![1, 2, 3, 10, 11, 12, 120];
    let c_base = kmeans(&base, 3).unwrap();
    let c_perturbed = kmeans(&perturbed, 3).unwrap();
    assert_eq!(c_base, vec![2, 11, 100]);
    assert_eq!(c_perturbed, vec![2, 11, 120]);
    assert_eq!(c_base[0], c_perturbed[0]);
    assert_eq!(c_base[1], c_perturbed[1]);
}

#[test]
fn zero_clusters_rejected() {
    let data = vec![1, 2, 3];
    assert_eq!(kmeans(&data, 0), Err(KmeansError::InvalidInput));
}

#[test]
fn more_clusters_than_samples_rejected() {
    let data = vec![1, 2, 3];
    assert_eq!(kmeans(&data, 4), Err(KmeansError::InvalidInput));
}

#[test]
fn empty_input_rejected() {
    let data: Vec<i32> = Vec::new();
    assert_eq!(kmeans(&data, 1), Err(KmeansError::InvalidInput));
}

#[test]
fn single_sample_single_cluster() {
    let data = vec![7];
    assert_eq!(kmeans(&data, 1).unwrap(), vec![7]);
}

#[test]
fn extreme_values_stay_representable() {
    let data = vec![i32::MAX - 1, i32::MAX, i32::MAX];
    assert_eq!(kmeans(&data, 1).unwrap(), vec![i32::MAX]);
    // adding half the count before the truncating division rounds the
    // mean of two minimal samples up by one
    let data = vec![i32::MIN, i32::MIN];
    assert_eq!(kmeans(&data, 1).unwrap(), vec![i32::MIN + 1]);
}
