//! The mathematical model of density-based clustering: neighbourhoods, core
//! points, density connection, and what it means for an assignment of
//! cluster identifiers to be the clustering of a point set.

use crate::distance::{lemma_distance_symmetric, lemma_distance_to_self, within_radius};
use vstd::prelude::*;

verus! {

/// Point `j` lies in the neighbourhood of point `i`.
pub open spec fn near(pts: Seq<Seq<i64>>, eps: int, i: int, j: int) -> bool {
    within_radius(pts[i], pts[j], eps)
}

/// How many of the first `k` points lie in the neighbourhood of point `i`.
pub open spec fn neighbors_upto(pts: Seq<Seq<i64>>, eps: int, i: int, k: int) -> int
    decreases k,
{
    if k <= 0 {
        0
    } else {
        neighbors_upto(pts, eps, i, k - 1) + if near(pts, eps, i, k - 1) {
            1int
        } else {
            0int
        }
    }
}

/// The size of the neighbourhood of point `i`, the point itself included.
pub open spec fn neighbor_count(pts: Seq<Seq<i64>>, eps: int, i: int) -> int {
    neighbors_upto(pts, eps, i, pts.len() as int)
}

/// Point `i` is a core point: its neighbourhood holds at least `min_points`
/// points.
pub open spec fn is_core(pts: Seq<Seq<i64>>, eps: int, min_points: int, i: int) -> bool {
    0 <= i < pts.len() && neighbor_count(pts, eps, i) >= min_points
}

/// Step `k` of `path` stays within the neighbourhood of the step before it.
pub open spec fn linked(pts: Seq<Seq<i64>>, eps: int, path: Seq<int>, k: int) -> bool {
    near(pts, eps, path[k - 1], path[k])
}

/// `path` is a chain of core points, each in the neighbourhood of the one
/// before it.
pub open spec fn core_chain(pts: Seq<Seq<i64>>, eps: int, min_points: int, path: Seq<int>) -> bool {
    &&& path.len() > 0
    &&& forall|k: int| 0 <= k < path.len() ==> is_core(pts, eps, min_points, #[trigger] path[k])
    &&& forall|k: int| 0 < k < path.len() ==> #[trigger] linked(pts, eps, path, k)
}

/// `path` is a chain of core points that leads from `i` to `j`.
pub open spec fn chain_between(
    pts: Seq<Seq<i64>>,
    eps: int,
    min_points: int,
    path: Seq<int>,
    i: int,
    j: int,
) -> bool {
    core_chain(pts, eps, min_points, path) && path[0] == i && path[path.len() - 1] == j
}

/// The core points `i` and `j` are joined by a chain of core points.
pub open spec fn density_connected(
    pts: Seq<Seq<i64>>,
    eps: int,
    min_points: int,
    i: int,
    j: int,
) -> bool {
    exists|path: Seq<int>| #[trigger] chain_between(pts, eps, min_points, path, i, j)
}

/// Point `i` lies in the neighbourhood of no core point.
pub open spec fn is_noise(pts: Seq<Seq<i64>>, eps: int, min_points: int, i: int) -> bool {
    forall|c: int| is_core(pts, eps, min_points, c) ==> !#[trigger] near(pts, eps, c, i)
}

/// Point `i` is the core point of lowest index in its cluster.
pub open spec fn is_leader(pts: Seq<Seq<i64>>, eps: int, min_points: int, i: int) -> bool {
    &&& is_core(pts, eps, min_points, i)
    &&& forall|j: int|
        0 <= j < i && is_core(pts, eps, min_points, j) ==> !#[trigger] density_connected(
            pts,
            eps,
            min_points,
            j,
            i,
        )
}

/// How many clusters have their leader below index `i`.
pub open spec fn leaders_before(pts: Seq<Seq<i64>>, eps: int, min_points: int, i: int) -> int
    decreases i,
{
    if i <= 0 {
        0
    } else {
        leaders_before(pts, eps, min_points, i - 1) + if is_leader(pts, eps, min_points, i - 1) {
            1int
        } else {
            0int
        }
    }
}

/// The cluster identifier of point `i` as an integer, with -1 for noise.
pub open spec fn id_of(a: Seq<Option<usize>>, i: int) -> int {
    match a[i] {
        Some(c) => c as int,
        None => -1,
    }
}

/// The border point `b` has joined the cluster of one of the core points
/// whose neighbourhood it lies in, and of those clusters the one with the
/// lowest identifier.
pub open spec fn joins_lowest(
    pts: Seq<Seq<i64>>,
    eps: int,
    min_points: int,
    a: Seq<Option<usize>>,
    b: int,
) -> bool {
    &&& exists|c: int|
        is_core(pts, eps, min_points, c) && #[trigger] near(pts, eps, c, b) && a[c] == a[b]
    &&& forall|c: int|
        is_core(pts, eps, min_points, c) && #[trigger] near(pts, eps, c, b) ==> id_of(a, b)
            <= id_of(a, c)
}

/// `a` is the clustering of `pts` for the radius `eps` and the threshold
/// `min_points`:
/// - a point has no cluster exactly when it is noise;
/// - two core points share a cluster exactly when they are density
///   connected;
/// - clusters are numbered from 0 in the order of their leaders;
/// - a border point joins the lowest-numbered cluster that reaches it.
pub open spec fn is_clustering(
    pts: Seq<Seq<i64>>,
    eps: int,
    min_points: int,
    a: Seq<Option<usize>>,
) -> bool {
    &&& a.len() == pts.len()
    &&& forall|i: int|
        0 <= i < pts.len() ==> ((#[trigger] a[i]) is None <==> is_noise(pts, eps, min_points, i))
    &&& forall|i: int, j: int|
        is_core(pts, eps, min_points, i) && is_core(pts, eps, min_points, j) ==> (a[i] == a[j]
            <==> #[trigger] density_connected(pts, eps, min_points, i, j))
    &&& forall|i: int| #[trigger]
        is_leader(pts, eps, min_points, i) ==> id_of(a, i) == leaders_before(
            pts,
            eps,
            min_points,
            i,
        )
    &&& forall|b: int|
        0 <= b < pts.len() && !is_core(pts, eps, min_points, b) && (#[trigger] a[b]) is Some
            ==> joins_lowest(pts, eps, min_points, a, b)
}

/// How many of the first `k` entries of `a` are noise.
pub open spec fn noise_upto(a: Seq<Option<usize>>, k: int) -> int
    decreases k,
{
    if k <= 0 {
        0
    } else {
        noise_upto(a, k - 1) + if a[k - 1] is None {
            1int
        } else {
            0int
        }
    }
}

/// How many entries of `a` are noise.
pub open spec fn noise_count(a: Seq<Option<usize>>) -> int {
    noise_upto(a, a.len() as int)
}

/// Neighbourhoods are symmetric.
pub proof fn lemma_near_symmetric(pts: Seq<Seq<i64>>, eps: int, i: int, j: int)
    ensures
        near(pts, eps, i, j) == near(pts, eps, j, i),
{
    lemma_distance_symmetric(pts[i], pts[j]);
}

/// Every point lies in its own neighbourhood.
pub proof fn lemma_near_self(pts: Seq<Seq<i64>>, eps: int, i: int)
    ensures
        near(pts, eps, i, i),
{
    lemma_distance_to_self(pts[i]);
    assert(0 <= eps * eps) by (nonlinear_arith);
}

/// Neighbourhood counts are never negative, never shrink, and never exceed the
/// number of points counted.
pub proof fn lemma_neighbors_bounds(pts: Seq<Seq<i64>>, eps: int, i: int, j: int, k: int)
    requires
        0 <= j <= k,
    ensures
        0 <= neighbors_upto(pts, eps, i, j) <= neighbors_upto(pts, eps, i, k),
        neighbors_upto(pts, eps, i, k) <= k,
    decreases k,
{
    if k > 0 {
        if j == k {
            lemma_neighbors_bounds(pts, eps, i, j - 1, k - 1);
        } else {
            lemma_neighbors_bounds(pts, eps, i, j, k - 1);
        }
    }
}

/// A core point is density connected to itself.
pub proof fn lemma_connected_self(pts: Seq<Seq<i64>>, eps: int, min_points: int, i: int)
    requires
        is_core(pts, eps, min_points, i),
    ensures
        density_connected(pts, eps, min_points, i, i),
{
    let path = seq![i];
    assert(chain_between(pts, eps, min_points, path, i, i));
}

/// A chain can be extended by a core point in the neighbourhood of its end.
pub proof fn lemma_connected_step(
    pts: Seq<Seq<i64>>,
    eps: int,
    min_points: int,
    s: int,
    p: int,
    q: int,
)
    requires
        density_connected(pts, eps, min_points, s, p),
        is_core(pts, eps, min_points, q),
        near(pts, eps, p, q),
    ensures
        density_connected(pts, eps, min_points, s, q),
{
    let path = choose|path: Seq<int>| chain_between(pts, eps, min_points, path, s, p);
    let longer = path.push(q);
    assert forall|k: int| 0 <= k < longer.len() implies is_core(
        pts,
        eps,
        min_points,
        #[trigger] longer[k],
    ) by {
        if k < path.len() {
            assert(longer[k] == path[k]);
        }
    }
    assert forall|k: int| 0 < k < longer.len() implies #[trigger] linked(pts, eps, longer, k) by {
        if k < path.len() {
            assert(linked(pts, eps, path, k));
            assert(longer[k] == path[k] && longer[k - 1] == path[k - 1]);
        } else {
            assert(longer[k - 1] == p && longer[k] == q);
        }
    }
    assert(chain_between(pts, eps, min_points, longer, s, q));
}

/// Density connection is symmetric.
pub proof fn lemma_connected_symmetric(
    pts: Seq<Seq<i64>>,
    eps: int,
    min_points: int,
    i: int,
    j: int,
)
    requires
        density_connected(pts, eps, min_points, i, j),
    ensures
        density_connected(pts, eps, min_points, j, i),
{
    let path = choose|path: Seq<int>| chain_between(pts, eps, min_points, path, i, j);
    let n = path.len() as int;
    let back = Seq::new(path.len(), |k: int| path[n - 1 - k]);
    assert forall|k: int| 0 <= k < back.len() implies is_core(
        pts,
        eps,
        min_points,
        #[trigger] back[k],
    ) by {
        assert(back[k] == path[n - 1 - k]);
    }
    assert forall|k: int| 0 < k < back.len() implies #[trigger] linked(pts, eps, back, k) by {
        assert(linked(pts, eps, path, n - k));
        assert(back[k] == path[n - 1 - k]);
        assert(back[k - 1] == path[n - k]);
        lemma_near_symmetric(pts, eps, path[n - 1 - k], path[n - k]);
    }
    assert(chain_between(pts, eps, min_points, back, j, i));
}

/// Density connection is transitive.
pub proof fn lemma_connected_transitive(
    pts: Seq<Seq<i64>>,
    eps: int,
    min_points: int,
    i: int,
    j: int,
    k: int,
)
    requires
        density_connected(pts, eps, min_points, i, j),
        density_connected(pts, eps, min_points, j, k),
    ensures
        density_connected(pts, eps, min_points, i, k),
{
    let first = choose|path: Seq<int>| chain_between(pts, eps, min_points, path, i, j);
    let second = choose|path: Seq<int>| chain_between(pts, eps, min_points, path, j, k);
    let n = first.len() as int;
    let joined = first + second.subrange(1, second.len() as int);
    assert forall|t: int| 0 <= t < joined.len() implies is_core(
        pts,
        eps,
        min_points,
        #[trigger] joined[t],
    ) by {
        if t < n {
            assert(joined[t] == first[t]);
        } else {
            assert(joined[t] == second[t - n + 1]);
        }
    }
    assert forall|t: int| 0 < t < joined.len() implies #[trigger] linked(pts, eps, joined, t) by {
        if t < n {
            assert(linked(pts, eps, first, t));
            assert(joined[t] == first[t] && joined[t - 1] == first[t - 1]);
        } else {
            assert(linked(pts, eps, second, t - n + 1));
            assert(joined[t] == second[t - n + 1]);
            if t == n {
                assert(joined[t - 1] == first[n - 1]);
                assert(second[0] == j);
            } else {
                assert(joined[t - 1] == second[t - n]);
            }
        }
    }
    if second.len() == 1 {
        assert(joined =~= first);
        assert(j == k);
    } else {
        assert(joined[joined.len() - 1] == second[second.len() - 1]);
    }
    assert(chain_between(pts, eps, min_points, joined, i, k));
}

/// Every core point is density connected to the leader of its cluster.
pub proof fn lemma_leader_exists(pts: Seq<Seq<i64>>, eps: int, min_points: int, i: int) -> (l: int)
    requires
        is_core(pts, eps, min_points, i),
    ensures
        is_leader(pts, eps, min_points, l),
        density_connected(pts, eps, min_points, l, i),
        l <= i,
    decreases i,
{
    if is_leader(pts, eps, min_points, i) {
        lemma_connected_self(pts, eps, min_points, i);
        i
    } else {
        let j = choose|j: int|
            0 <= j < i && is_core(pts, eps, min_points, j) && #[trigger] density_connected(
                pts,
                eps,
                min_points,
                j,
                i,
            );
        let l = lemma_leader_exists(pts, eps, min_points, j);
        lemma_connected_transitive(pts, eps, min_points, l, j, i);
        l
    }
}

/// Two leaders that are density connected are the same point.
pub proof fn lemma_leader_unique(pts: Seq<Seq<i64>>, eps: int, min_points: int, l: int, m: int)
    requires
        is_leader(pts, eps, min_points, l),
        is_leader(pts, eps, min_points, m),
        density_connected(pts, eps, min_points, l, m),
    ensures
        l == m,
{
    if l < m {
        assert(!density_connected(pts, eps, min_points, l, m));
    } else if m < l {
        lemma_connected_symmetric(pts, eps, min_points, l, m);
        assert(!density_connected(pts, eps, min_points, m, l));
    }
}

/// The number of leaders below an index is between zero and the index, and
/// grows with the index.
pub proof fn lemma_leaders_bounds(pts: Seq<Seq<i64>>, eps: int, min_points: int, j: int, i: int)
    requires
        0 <= j <= i,
    ensures
        0 <= leaders_before(pts, eps, min_points, j) <= leaders_before(pts, eps, min_points, i),
        leaders_before(pts, eps, min_points, i) <= i,
    decreases i,
{
    if i > 0 {
        if j == i {
            lemma_leaders_bounds(pts, eps, min_points, j - 1, i - 1);
        } else {
            lemma_leaders_bounds(pts, eps, min_points, j, i - 1);
        }
    }
}

} // verus!
