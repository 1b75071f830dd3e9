use anomaly_detection::{detect_anomalies_dbscan, ClusterError, FeatureMatrix};

fn line(xs: &[i64]) -> FeatureMatrix {
    let rows: Vec<Vec<i64>> = xs.iter().map(|&x| vec![x]).collect();
    FeatureMatrix::from_rows(&rows).unwrap()
}

fn noise_in(a: &[Option<usize>]) -> usize {
    a.iter().filter(|c| c.is_none()).count()
}

#[test]
fn three_close_points_and_one_outlier() {
    // Coordinates in tenths: (0,0), (0.1,0.1), (0.1,-0.1), (50,50); radius 1.0.
    let data =
        FeatureMatrix::from_rows(&vec![vec![0, 0], vec![1, 1], vec![1, -1], vec![500, 500]])
            .unwrap();
    let a = detect_anomalies_dbscan(&data, 10, 2).unwrap();
    assert_eq!(a, vec![Some(0), Some(0), Some(0), None]);
}

#[test]
fn identical_points_form_one_cluster() {
    let data = FeatureMatrix::from_rows(&vec![vec![7, -3]; 5]).unwrap();
    for eps in [0, 1, 1000] {
        let a = detect_anomalies_dbscan(&data, eps, 2).unwrap();
        assert_eq!(a, vec![Some(0); 5]);
        assert_eq!(noise_in(&a), 0);
    }
}

#[test]
fn empty_input_gives_empty_assignment() {
    let data = FeatureMatrix::from_rows(&Vec::new()).unwrap();
    let a = detect_anomalies_dbscan(&data, 3, 5).unwrap();
    assert_eq!(a, Vec::new());
}

#[test]
fn negative_radius_is_refused() {
    let data = line(&[0, 1, 2]);
    assert_eq!(detect_anomalies_dbscan(&data, -1, 2), Err(ClusterError::InvalidParameter));
    assert_eq!(detect_anomalies_dbscan(&data, i64::MIN, 2), Err(ClusterError::InvalidParameter));
}

#[test]
fn zero_threshold_is_refused() {
    let data = line(&[0, 1, 2]);
    assert_eq!(detect_anomalies_dbscan(&data, 1, 0), Err(ClusterError::InvalidParameter));
    let empty = FeatureMatrix::from_rows(&Vec::new()).unwrap();
    assert_eq!(detect_anomalies_dbscan(&empty, 1, 0), Err(ClusterError::InvalidParameter));
}

#[test]
fn threshold_one_makes_every_point_a_cluster() {
    let data = line(&[0, 10, 20]);
    let a = detect_anomalies_dbscan(&data, 1, 1).unwrap();
    assert_eq!(a, vec![Some(0), Some(1), Some(2)]);
    let a = detect_anomalies_dbscan(&data, 0, 1).unwrap();
    assert_eq!(noise_in(&a), 0);
}

#[test]
fn radius_is_inclusive_and_euclidean() {
    let data = FeatureMatrix::from_rows(&vec![vec![0, 0], vec![3, 4]]).unwrap();
    assert_eq!(detect_anomalies_dbscan(&data, 5, 2).unwrap(), vec![Some(0), Some(0)]);
    assert_eq!(detect_anomalies_dbscan(&data, 4, 2).unwrap(), vec![None, None]);
}

#[test]
fn threshold_counts_the_point_itself() {
    let data = line(&[0, 1, 2]);
    // The middle point has three points within reach, the outer ones two.
    assert_eq!(detect_anomalies_dbscan(&data, 1, 3).unwrap(), vec![Some(0), Some(0), Some(0)]);
    assert_eq!(detect_anomalies_dbscan(&data, 1, 4).unwrap(), vec![None, None, None]);
}

#[test]
fn clusters_grow_along_chains_of_core_points() {
    let data = line(&[0, 1, 2, 3, 4, 5, 100]);
    let a = detect_anomalies_dbscan(&data, 1, 2).unwrap();
    assert_eq!(
        a,
        vec![Some(0), Some(0), Some(0), Some(0), Some(0), Some(0), None]
    );
}

#[test]
fn border_points_do_not_extend_a_cluster() {
    // 3 is the only core point; 6 is a border point, and 9 lies within reach
    // of 6 alone.
    let data = line(&[0, 1, 3, 6, 9]);
    let a = detect_anomalies_dbscan(&data, 3, 4).unwrap();
    assert_eq!(a, vec![Some(0), Some(0), Some(0), Some(0), None]);
}

#[test]
fn clusters_are_numbered_in_the_order_of_their_first_core_point() {
    let data = line(&[100, 101, 50, 0, 1]);
    let a = detect_anomalies_dbscan(&data, 1, 2).unwrap();
    assert_eq!(a, vec![Some(0), Some(0), None, Some(1), Some(1)]);
}

#[test]
fn border_point_before_its_core_point_joins_it() {
    let data = line(&[0, 1, 2]);
    let a = detect_anomalies_dbscan(&data, 1, 3).unwrap();
    assert_eq!(a[0], Some(0));
}

#[test]
fn border_point_joins_the_lowest_cluster_that_reaches_it() {
    let data = line(&[-5, -8, -8, 0, 3, 6, 6]);
    let a = detect_anomalies_dbscan(&data, 5, 4).unwrap();
    assert_eq!(
        a,
        vec![Some(0), Some(0), Some(0), Some(0), Some(1), Some(1), Some(1)]
    );
}

#[test]
fn larger_radius_may_move_a_border_point() {
    let data = line(&[-5, -8, -8, 0, 3, 6, 6]);
    let small = detect_anomalies_dbscan(&data, 3, 4).unwrap();
    assert_eq!(
        small,
        vec![None, None, None, Some(0), Some(0), Some(0), Some(0)]
    );
    let large = detect_anomalies_dbscan(&data, 5, 4).unwrap();
    assert!(noise_in(&large) <= noise_in(&small));
    // Point 3 stays with points 5 and 6; the border point 0 has moved.
    assert_eq!(large[4], large[5]);
    assert_ne!(large[3], large[4]);
}

#[test]
fn larger_radius_merges_clusters_and_removes_noise() {
    let data = line(&[0, 1, 2, 10, 11, 12, 30]);
    let radii = [0, 1, 2, 7, 8, 17, 18, 40];
    let mut previous: Option<Vec<Option<usize>>> = None;
    for eps in radii {
        let a = detect_anomalies_dbscan(&data, eps, 2).unwrap();
        if let Some(p) = &previous {
            assert!(noise_in(&a) <= noise_in(p));
            for i in 0..p.len() {
                for j in 0..p.len() {
                    if p[i].is_some() && p[i] == p[j] {
                        assert_eq!(a[i], a[j]);
                    }
                }
            }
        }
        previous = Some(a);
    }
    assert_eq!(
        detect_anomalies_dbscan(&data, 1, 2).unwrap(),
        vec![Some(0), Some(0), Some(0), Some(1), Some(1), Some(1), None]
    );
    assert_eq!(
        detect_anomalies_dbscan(&data, 8, 2).unwrap(),
        vec![Some(0), Some(0), Some(0), Some(0), Some(0), Some(0), None]
    );
    assert_eq!(detect_anomalies_dbscan(&data, 18, 2).unwrap(), vec![Some(0); 7]);
}

#[test]
fn repeated_runs_agree() {
    let data = FeatureMatrix::from_rows(&vec![
        vec![0, 0],
        vec![2, 1],
        vec![1, 3],
        vec![40, 40],
        vec![41, 42],
        vec![90, -7],
    ])
    .unwrap();
    let first = detect_anomalies_dbscan(&data, 4, 2).unwrap();
    let second = detect_anomalies_dbscan(&data, 4, 2).unwrap();
    assert_eq!(first, second);
    assert_eq!(first, vec![Some(0), Some(0), Some(0), Some(1), Some(1), None]);
}

#[test]
fn order_of_rows_changes_numbers_only() {
    let forward = line(&[0, 1, 50, 100, 101]);
    let backward = line(&[101, 100, 50, 1, 0]);
    let a = detect_anomalies_dbscan(&forward, 1, 2).unwrap();
    let b = detect_anomalies_dbscan(&backward, 1, 2).unwrap();
    assert_eq!(a, vec![Some(0), Some(0), None, Some(1), Some(1)]);
    assert_eq!(b, vec![Some(0), Some(0), None, Some(1), Some(1)]);
    for i in 0..5 {
        for j in 0..5 {
            assert_eq!(a[i] == a[j], b[4 - i] == b[4 - j]);
        }
    }
}

#[test]
fn extreme_coordinates_do_not_overflow() {
    let data = line(&[i64::MIN, i64::MAX, i64::MAX, i64::MAX - 1]);
    let a = detect_anomalies_dbscan(&data, i64::MAX, 2).unwrap();
    assert_eq!(a, vec![None, Some(0), Some(0), Some(0)]);
    let data = FeatureMatrix::from_rows(&vec![vec![0; 8], vec![i64::MAX; 8]]).unwrap();
    let a = detect_anomalies_dbscan(&data, i64::MAX, 2).unwrap();
    assert_eq!(a, vec![None, None]);
    let data = line(&[0, i64::MAX]);
    let a = detect_anomalies_dbscan(&data, i64::MAX, 2).unwrap();
    assert_eq!(a, vec![Some(0), Some(0)]);
}

#[test]
fn rows_without_cells_coincide() {
    let data = FeatureMatrix::from_rows(&vec![Vec::new(), Vec::new()]).unwrap();
    assert_eq!(detect_anomalies_dbscan(&data, 0, 2).unwrap(), vec![Some(0), Some(0)]);
    assert_eq!(detect_anomalies_dbscan(&data, 0, 3).unwrap(), vec![None, None]);
}

#[test]
fn single_point_below_threshold_is_noise() {
    let data = line(&[4]);
    assert_eq!(detect_anomalies_dbscan(&data, 9, 2).unwrap(), vec![None]);
    assert_eq!(detect_anomalies_dbscan(&data, 9, 1).unwrap(), vec![Some(0)]);
}
