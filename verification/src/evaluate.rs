//! Comparing a clustering with ground-truth labels: a point is predicted
//! anomalous exactly when it is noise.

use crate::density::{noise_count, noise_upto};
use crate::error::ClusterError;
use vstd::prelude::*;

verus! {

/// How many of the first `k` rows are noise or not, as `noise` says, and
/// carry the ground-truth label `label`.
pub open spec fn tally_upto(
    clusters: Seq<Option<usize>>,
    labels: Seq<u8>,
    noise: bool,
    label: u8,
    k: int,
) -> int
    decreases k,
{
    if k <= 0 {
        0
    } else {
        tally_upto(clusters, labels, noise, label, k - 1) + if (clusters[k - 1] is None) == noise
            && labels[k - 1] == label {
            1int
        } else {
            0int
        }
    }
}

/// Rows that are noise and labelled 1.
pub open spec fn true_positives(clusters: Seq<Option<usize>>, labels: Seq<u8>) -> int {
    tally_upto(clusters, labels, true, 1, clusters.len() as int)
}

/// Rows that are noise and labelled 0.
pub open spec fn false_positives(clusters: Seq<Option<usize>>, labels: Seq<u8>) -> int {
    tally_upto(clusters, labels, true, 0, clusters.len() as int)
}

/// Rows that have a cluster and are labelled 1.
pub open spec fn false_negatives(clusters: Seq<Option<usize>>, labels: Seq<u8>) -> int {
    tally_upto(clusters, labels, false, 1, clusters.len() as int)
}

/// How many of the first `k` labels are 1.
pub open spec fn positives_upto(labels: Seq<u8>, k: int) -> int
    decreases k,
{
    if k <= 0 {
        0
    } else {
        positives_upto(labels, k - 1) + if labels[k - 1] == 1 {
            1int
        } else {
            0int
        }
    }
}

/// How many labels are 1.
pub open spec fn positive_count(labels: Seq<u8>) -> int {
    positives_upto(labels, labels.len() as int)
}

/// Every label is 0 or 1.
pub open spec fn binary(labels: Seq<u8>) -> bool {
    forall|i: int| 0 <= i < labels.len() ==> (#[trigger] labels[i]) == 0 || labels[i] == 1
}

/// A tally never exceeds the number of rows counted.
proof fn lemma_tally_bounds(
    clusters: Seq<Option<usize>>,
    labels: Seq<u8>,
    noise: bool,
    label: u8,
    k: int,
)
    requires
        0 <= k,
    ensures
        0 <= tally_upto(clusters, labels, noise, label, k) <= k,
    decreases k,
{
    if k > 0 {
        lemma_tally_bounds(clusters, labels, noise, label, k - 1);
    }
}

proof fn lemma_totals_upto(clusters: Seq<Option<usize>>, labels: Seq<u8>, k: int)
    requires
        0 <= k <= clusters.len(),
        clusters.len() == labels.len(),
    ensures
        tally_upto(clusters, labels, true, 1, k) + tally_upto(clusters, labels, false, 1, k)
            == positives_upto(labels, k),
        binary(labels) ==> tally_upto(clusters, labels, true, 1, k) + tally_upto(
            clusters,
            labels,
            true,
            0,
            k,
        ) == noise_upto(clusters, k),
    decreases k,
{
    if k > 0 {
        lemma_totals_upto(clusters, labels, k - 1);
        if binary(labels) {
            assert(labels[k - 1] == 0 || labels[k - 1] == 1);
        }
    }
}

/// The totals of an evaluation: true positives and false negatives together
/// are the rows labelled 1, and, where every label is 0 or 1, true positives
/// and false positives together are the noise rows.
pub proof fn evaluation_totals(clusters: Seq<Option<usize>>, labels: Seq<u8>)
    requires
        clusters.len() == labels.len(),
    ensures
        true_positives(clusters, labels) + false_negatives(clusters, labels) == positive_count(
            labels,
        ),
        binary(labels) ==> true_positives(clusters, labels) + false_positives(clusters, labels)
            == noise_count(clusters),
{
    lemma_totals_upto(clusters, labels, clusters.len() as int);
}

/// Counts true positives, false positives and false negatives, in this
/// order, of the prediction "noise is anomalous" against the labels. A label
/// other than 0 and 1 counts nowhere. Inputs of different lengths are
/// refused.
pub fn evaluate_anomalies(clusters: &[Option<usize>], labels: &[u8]) -> (r: Result<
    (usize, usize, usize),
    ClusterError,
>)
    ensures
        r is Ok <==> clusters@.len() == labels@.len(),
        r matches Ok(counts) ==> {
            &&& counts.0 == true_positives(clusters@, labels@)
            &&& counts.1 == false_positives(clusters@, labels@)
            &&& counts.2 == false_negatives(clusters@, labels@)
        },
        r matches Err(e) ==> e == ClusterError::ShapeMismatch,
{
    let n = clusters.len();
    if labels.len() != n {
        return Err(ClusterError::ShapeMismatch);
    }
    let mut true_positives: usize = 0;
    let mut false_positives: usize = 0;
    let mut false_negatives: usize = 0;
    let mut i: usize = 0;
    while i < n
        invariant
            i <= n,
            n == clusters@.len(),
            n == labels@.len(),
            true_positives == tally_upto(clusters@, labels@, true, 1, i as int),
            false_positives == tally_upto(clusters@, labels@, true, 0, i as int),
            false_negatives == tally_upto(clusters@, labels@, false, 1, i as int),
        decreases n - i,
    {
        proof {
            lemma_tally_bounds(clusters@, labels@, true, 1, i as int);
            lemma_tally_bounds(clusters@, labels@, true, 0, i as int);
            lemma_tally_bounds(clusters@, labels@, false, 1, i as int);
        }
        let noise = clusters[i].is_none();
        let label = labels[i];
        if noise && label == 1 {
            true_positives += 1;
        } else if noise && label == 0 {
            false_positives += 1;
        } else if !noise && label == 1 {
            false_negatives += 1;
        }
        i += 1;
    }
    Ok((true_positives, false_positives, false_negatives))
}

} // verus!
