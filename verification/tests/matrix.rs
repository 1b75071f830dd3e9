use anomaly_detection::{ClusterError, FeatureMatrix};

#[test]
fn from_rows_keeps_every_cell_in_place() {
    let rows = vec![vec![1, 2, 3], vec![4, 5, 6]];
    let m = FeatureMatrix::from_rows(&rows).unwrap();
    assert_eq!(m.nrows(), 2);
    assert_eq!(m.ncols(), 3);
    for i in 0..2 {
        for j in 0..3 {
            assert_eq!(m.get(i, j), Some(rows[i][j]));
        }
    }
}

#[test]
fn get_outside_the_matrix_is_none() {
    let m = FeatureMatrix::from_rows(&vec![vec![1, 2], vec![3, 4]]).unwrap();
    assert_eq!(m.get(2, 0), None);
    assert_eq!(m.get(0, 2), None);
    assert_eq!(m.get(1, 1), Some(4));
}

#[test]
fn from_rows_refuses_ragged_rows() {
    let r = FeatureMatrix::from_rows(&vec![vec![1, 2], vec![3]]);
    assert!(matches!(r, Err(ClusterError::ShapeMismatch)));
    let r = FeatureMatrix::from_rows(&vec![vec![], vec![3]]);
    assert!(matches!(r, Err(ClusterError::ShapeMismatch)));
}

#[test]
fn from_rows_accepts_no_rows() {
    let m = FeatureMatrix::from_rows(&Vec::new()).unwrap();
    assert_eq!(m.nrows(), 0);
    assert_eq!(m.ncols(), 0);
    assert_eq!(m.get(0, 0), None);
}

#[test]
fn from_rows_accepts_rows_without_cells() {
    let m = FeatureMatrix::from_rows(&vec![Vec::new(), Vec::new(), Vec::new()]).unwrap();
    assert_eq!(m.nrows(), 3);
    assert_eq!(m.ncols(), 0);
    assert_eq!(m.get(1, 0), None);
}

#[test]
fn from_rows_keeps_extreme_values() {
    let m = FeatureMatrix::from_rows(&vec![vec![i64::MIN, i64::MAX]]).unwrap();
    assert_eq!(m.get(0, 0), Some(i64::MIN));
    assert_eq!(m.get(0, 1), Some(i64::MAX));
}
