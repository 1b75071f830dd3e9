use anomaly_detection::{
    detect_anomalies_dbscan, evaluate_anomalies, noise_rows, plot_groups, ClusterError,
    FeatureMatrix,
};

#[test]
fn counts_are_exact() {
    let clusters = vec![None, None, Some(0), Some(1), None, Some(0)];
    let labels = vec![1, 0, 1, 0, 1, 0];
    assert_eq!(evaluate_anomalies(&clusters, &labels), Ok((2, 1, 1)));
}

#[test]
fn totals_match_labels_and_noise() {
    let clusters = vec![Some(3), None, None, Some(0), None, Some(3), None];
    let labels = vec![1, 1, 0, 0, 1, 1, 0];
    let (tp, fp, fneg) = evaluate_anomalies(&clusters, &labels).unwrap();
    let positives = labels.iter().filter(|&&l| l == 1).count();
    let noise = clusters.iter().filter(|c| c.is_none()).count();
    assert_eq!(tp + fneg, positives);
    assert_eq!(tp + fp, noise);
    assert_eq!((tp, fp, fneg), (2, 2, 2));
}

#[test]
fn empty_input_counts_nothing() {
    let clusters: Vec<Option<usize>> = Vec::new();
    let labels: Vec<u8> = Vec::new();
    assert_eq!(evaluate_anomalies(&clusters, &labels), Ok((0, 0, 0)));
}

#[test]
fn different_lengths_are_refused() {
    let clusters = vec![None, Some(0)];
    assert_eq!(evaluate_anomalies(&clusters, &[1]), Err(ClusterError::ShapeMismatch));
    assert_eq!(evaluate_anomalies(&clusters, &[1, 0, 1]), Err(ClusterError::ShapeMismatch));
    assert_eq!(evaluate_anomalies(&[], &[0]), Err(ClusterError::ShapeMismatch));
}

#[test]
fn other_labels_count_nowhere() {
    let clusters = vec![None, Some(0), None];
    let labels = vec![2, 7, 1];
    assert_eq!(evaluate_anomalies(&clusters, &labels), Ok((1, 0, 0)));
}

#[test]
fn cluster_numbers_do_not_matter() {
    let labels = vec![0, 1, 1];
    assert_eq!(
        evaluate_anomalies(&[Some(0), Some(0), None], &labels),
        evaluate_anomalies(&[Some(9), Some(4), None], &labels)
    );
}

#[test]
fn clustering_feeds_the_evaluation() {
    let data =
        FeatureMatrix::from_rows(&vec![vec![0, 0], vec![1, 1], vec![1, -1], vec![500, 500]])
            .unwrap();
    let clusters = detect_anomalies_dbscan(&data, 10, 2).unwrap();
    assert_eq!(evaluate_anomalies(&clusters, &[0, 0, 1, 1]), Ok((1, 0, 1)));
    assert_eq!(noise_rows(data.nrows(), &clusters), Ok(vec![3]));
    assert_eq!(
        plot_groups(data.nrows(), &[0, 0, 1, 1], &clusters),
        Ok((vec![0, 1], vec![2, 3]))
    );
}

#[test]
fn noise_rows_are_listed_in_order() {
    let clusters = vec![None, Some(1), None, None, Some(0)];
    assert_eq!(noise_rows(5, &clusters), Ok(vec![0, 2, 3]));
    assert_eq!(noise_rows(0, &[]), Ok(Vec::new()));
    assert_eq!(noise_rows(2, &[Some(0), Some(0)]), Ok(Vec::new()));
}

#[test]
fn noise_rows_refuse_another_length() {
    let clusters = vec![None, Some(1)];
    assert_eq!(noise_rows(3, &clusters), Err(ClusterError::ShapeMismatch));
    assert_eq!(noise_rows(1, &clusters), Err(ClusterError::ShapeMismatch));
}

#[test]
fn plot_groups_split_every_row() {
    let clusters = vec![Some(0), None, Some(0), None, Some(2)];
    let labels = vec![0, 0, 1, 1, 3];
    assert_eq!(
        plot_groups(5, &labels, &clusters),
        Ok((vec![0, 4], vec![1, 2, 3]))
    );
    assert_eq!(plot_groups(0, &[], &[]), Ok((Vec::new(), Vec::new())));
}

#[test]
fn plot_groups_refuse_another_length() {
    let clusters = vec![Some(0), None];
    assert_eq!(plot_groups(2, &[0], &clusters), Err(ClusterError::ShapeMismatch));
    assert_eq!(plot_groups(3, &[0, 1], &clusters), Err(ClusterError::ShapeMismatch));
    assert_eq!(plot_groups(2, &[0, 1, 1], &clusters), Err(ClusterError::ShapeMismatch));
}
