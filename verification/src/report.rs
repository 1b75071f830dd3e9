//! Which rows a report shows: the noise rows of an export, and the two
//! groups of a scatter plot.

use crate::error::ClusterError;
use vstd::prelude::*;

verus! {

/// The indices below `k` at which `mask` holds, in increasing order.
pub open spec fn rows_where(mask: Seq<bool>, k: int) -> Seq<usize>
    decreases k,
{
    if k <= 0 {
        Seq::empty()
    } else if mask[k - 1] {
        rows_where(mask, k - 1).push((k - 1) as usize)
    } else {
        rows_where(mask, k - 1)
    }
}

/// Marks the rows that are noise.
pub open spec fn noise_mask(clusters: Seq<Option<usize>>) -> Seq<bool> {
    Seq::new(clusters.len(), |i: int| clusters[i] is None)
}

/// Marks the rows that a plot shows as anomalous: noise, or labelled 1.
pub open spec fn anomaly_mask(labels: Seq<u8>, clusters: Seq<Option<usize>>) -> Seq<bool> {
    Seq::new(clusters.len(), |i: int| clusters[i] is None || labels[i] == 1)
}

/// Marks the rows that a plot shows as normal: all the others.
pub open spec fn normal_mask(labels: Seq<u8>, clusters: Seq<Option<usize>>) -> Seq<bool> {
    Seq::new(clusters.len(), |i: int| !(clusters[i] is None || labels[i] == 1))
}

/// The rows that an export lists: the indices of the noise rows, in
/// increasing order. `rows` is the number of rows of the data set that the
/// clustering belongs to; a clustering of another length is refused.
pub fn noise_rows(rows: usize, clusters: &[Option<usize>]) -> (r: Result<Vec<usize>, ClusterError>)
    ensures
        r is Ok <==> clusters@.len() == rows,
        r matches Ok(v) ==> v@ == rows_where(noise_mask(clusters@), rows as int),
        r matches Err(e) ==> e == ClusterError::ShapeMismatch,
{
    if clusters.len() != rows {
        return Err(ClusterError::ShapeMismatch);
    }
    let ghost mask = noise_mask(clusters@);
    let mut picked: Vec<usize> = Vec::new();
    let mut i: usize = 0;
    while i < rows
        invariant
            i <= rows,
            rows == clusters@.len(),
            mask == noise_mask(clusters@),
            picked@ == rows_where(mask, i as int),
        decreases rows - i,
    {
        if clusters[i].is_none() {
            picked.push(i);
        }
        i += 1;
    }
    Ok(picked)
}

/// The two groups of a scatter plot, normal rows first and anomalous rows
/// second, each as row indices in increasing order. A row is anomalous when
/// it is noise or labelled 1. `rows` is the number of rows of the data set;
/// labels or a clustering of another length are refused.
pub fn plot_groups(rows: usize, labels: &[u8], clusters: &[Option<usize>]) -> (r: Result<
    (Vec<usize>, Vec<usize>),
    ClusterError,
>)
    ensures
        r is Ok <==> clusters@.len() == rows && labels@.len() == rows,
        r matches Ok(groups) ==> {
            &&& groups.0@ == rows_where(normal_mask(labels@, clusters@), rows as int)
            &&& groups.1@ == rows_where(anomaly_mask(labels@, clusters@), rows as int)
        },
        r matches Err(e) ==> e == ClusterError::ShapeMismatch,
{
    if clusters.len() != rows || labels.len() != rows {
        return Err(ClusterError::ShapeMismatch);
    }
    let ghost normal_rows = normal_mask(labels@, clusters@);
    let ghost anomalous_rows = anomaly_mask(labels@, clusters@);
    let mut normal: Vec<usize> = Vec::new();
    let mut anomalous: Vec<usize> = Vec::new();
    let mut i: usize = 0;
    while i < rows
        invariant
            i <= rows,
            rows == clusters@.len(),
            rows == labels@.len(),
            normal_rows == normal_mask(labels@, clusters@),
            anomalous_rows == anomaly_mask(labels@, clusters@),
            normal@ == rows_where(normal_rows, i as int),
            anomalous@ == rows_where(anomalous_rows, i as int),
        decreases rows - i,
    {
        if clusters[i].is_none() || labels[i] == 1 {
            anomalous.push(i);
        } else {
            normal.push(i);
        }
        i += 1;
    }
    Ok((normal, anomalous))
}

} // verus!
