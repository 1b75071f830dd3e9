//! Squared Euclidean distance between points with fixed-point coordinates,
//! computed exactly in integers.

use crate::matrix::{cell, rectangular, FeatureMatrix};
use vstd::prelude::*;

verus! {

/// The number of coordinates that `p` and `q` both have.
pub open spec fn common_len(p: Seq<i64>, q: Seq<i64>) -> int {
    if p.len() <= q.len() {
        p.len() as int
    } else {
        q.len() as int
    }
}

/// The sum of the squared coordinate differences over the first `k`
/// coordinates.
pub open spec fn squared_distance_upto(p: Seq<i64>, q: Seq<i64>, k: int) -> int
    decreases k,
{
    if k <= 0 {
        0
    } else {
        squared_distance_upto(p, q, k - 1) + (p[k - 1] - q[k - 1]) * (p[k - 1] - q[k - 1])
    }
}

/// The squared Euclidean distance between `p` and `q`.
pub open spec fn squared_distance(p: Seq<i64>, q: Seq<i64>) -> int {
    squared_distance_upto(p, q, common_len(p, q))
}

/// `q` lies within the closed ball of radius `eps` around `p`.
pub open spec fn within_radius(p: Seq<i64>, q: Seq<i64>, eps: int) -> bool {
    squared_distance(p, q) <= eps * eps
}

/// Partial sums of squares are never negative and never shrink.
pub proof fn lemma_partial_sums_grow(p: Seq<i64>, q: Seq<i64>, j: int, k: int)
    requires
        j <= k,
    ensures
        0 <= squared_distance_upto(p, q, j) <= squared_distance_upto(p, q, k),
    decreases k,
{
    if k <= 0 {
    } else if j == k {
        lemma_partial_sums_grow(p, q, j - 1, k - 1);
        let d = p[k - 1] - q[k - 1];
        assert(0 <= d * d) by (nonlinear_arith);
    } else {
        lemma_partial_sums_grow(p, q, j, k - 1);
        let d = p[k - 1] - q[k - 1];
        assert(0 <= d * d) by (nonlinear_arith);
    }
}

/// The distance does not depend on the order of its arguments.
pub proof fn lemma_distance_symmetric(p: Seq<i64>, q: Seq<i64>)
    ensures
        squared_distance(p, q) == squared_distance(q, p),
{
    lemma_partial_sums_symmetric(p, q, common_len(p, q));
}

proof fn lemma_partial_sums_symmetric(p: Seq<i64>, q: Seq<i64>, k: int)
    ensures
        squared_distance_upto(p, q, k) == squared_distance_upto(q, p, k),
    decreases k,
{
    if k > 0 {
        lemma_partial_sums_symmetric(p, q, k - 1);
        let d = p[k - 1] - q[k - 1];
        let e = q[k - 1] - p[k - 1];
        assert(d * d == e * e) by (nonlinear_arith)
            requires
                e == -d,
        ;
    }
}

/// A point is at distance zero from itself.
pub proof fn lemma_distance_to_self(p: Seq<i64>)
    ensures
        squared_distance(p, p) == 0,
{
    lemma_partial_sums_to_self(p, p.len() as int);
}

proof fn lemma_partial_sums_to_self(p: Seq<i64>, k: int)
    ensures
        squared_distance_upto(p, p, k) == 0,
    decreases k,
{
    if k > 0 {
        lemma_partial_sums_to_self(p, k - 1);
    }
}

/// A larger radius keeps every point that a smaller one reached.
pub proof fn lemma_radius_grows(p: Seq<i64>, q: Seq<i64>, eps1: int, eps2: int)
    requires
        0 <= eps1 <= eps2,
        within_radius(p, q, eps1),
    ensures
        within_radius(p, q, eps2),
{
    assert(eps1 * eps1 <= eps2 * eps2) by (nonlinear_arith)
        requires
            0 <= eps1 <= eps2,
    ;
}

/// Decides whether row `j` lies within distance `eps` of row `i`.
pub(crate) fn rows_within(data: &FeatureMatrix, width: usize, i: usize, j: usize, eps: i64) -> (b:
    bool)
    requires
        i < data@.len(),
        j < data@.len(),
        rectangular(data@, width as int),
        eps >= 0,
    ensures
        b == within_radius(data@[i as int], data@[j as int], eps as int),
{
    let ghost p = data@[i as int];
    let ghost q = data@[j as int];
    let limit: u128 = eps as u128;
    assert(limit * limit <= 0x3fff_ffff_ffff_ffff_0000_0000_0000_0001u128) by (nonlinear_arith)
        requires
            limit <= 0x7fff_ffff_ffff_ffffu128,
    ;
    let limit_sq: u128 = limit * limit;
    let mut sum: u128 = 0;
    let mut k: usize = 0;
    while k < width
        invariant
            k <= width,
            i < data@.len(),
            j < data@.len(),
            p == data@[i as int],
            q == data@[j as int],
            p.len() == width,
            q.len() == width,
            limit == eps,
            limit_sq == limit * limit,
            limit <= 0x7fff_ffff_ffff_ffffu128,
            sum == squared_distance_upto(p, q, k as int),
            sum <= limit_sq,
        decreases width - k,
    {
        let a = cell(data, i, k);
        let b = cell(data, j, k);
        let d: i128 = a as i128 - b as i128;
        let gap: u128 = if d < 0 {
            (-d) as u128
        } else {
            d as u128
        };
        proof {
            assert((p[k as int] - q[k as int]) * (p[k as int] - q[k as int]) == gap * gap)
                by (nonlinear_arith)
                requires
                    gap == d || gap == -d,
                    d == p[k as int] - q[k as int],
            ;
            lemma_partial_sums_grow(p, q, k as int + 1, width as int);
        }
        if gap > limit {
            proof {
                assert(gap * gap > limit * limit) by (nonlinear_arith)
                    requires
                        gap > limit,
                        limit >= 0,
                ;
            }
            return false;
        }
        assert(gap * gap <= limit * limit) by (nonlinear_arith)
            requires
                0 <= gap <= limit,
        ;
        let term: u128 = gap * gap;
        if term > limit_sq - sum {
            return false;
        }
        sum = sum + term;
        k += 1;
    }
    true
}

} // verus!
