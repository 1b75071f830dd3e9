//! What holds of every clustering: it is unique, a larger radius only merges,
//! and a threshold of one leaves no noise.

use crate::density::{
    chain_between, density_connected, id_of, is_clustering, is_core, is_leader, is_noise,
    joins_lowest, leaders_before, lemma_connected_self, lemma_connected_step,
    lemma_connected_symmetric, lemma_connected_transitive, lemma_leader_exists,
    lemma_leaders_bounds, lemma_near_self, lemma_neighbors_bounds, linked, near, neighbors_upto,
    noise_count, noise_upto,
};
use crate::distance::lemma_radius_grows;
use vstd::prelude::*;

verus! {

/// In a clustering every core point has a cluster, and two clusterings of
/// the same points give it the same one.
proof fn lemma_core_agrees(
    pts: Seq<Seq<i64>>,
    eps: int,
    min_points: int,
    a: Seq<Option<usize>>,
    b: Seq<Option<usize>>,
    c: int,
)
    requires
        is_clustering(pts, eps, min_points, a),
        is_clustering(pts, eps, min_points, b),
        is_core(pts, eps, min_points, c),
    ensures
        a[c] is Some,
        a[c] == b[c],
{
    let l = lemma_leader_exists(pts, eps, min_points, c);
    lemma_leaders_bounds(pts, eps, min_points, 0, l);
    assert(is_leader(pts, eps, min_points, l));
    assert(id_of(a, l) == leaders_before(pts, eps, min_points, l));
    assert(id_of(b, l) == leaders_before(pts, eps, min_points, l));
    assert(a[l] == b[l] && a[l] is Some);
    assert(density_connected(pts, eps, min_points, l, c));
    assert(a[l] == a[c]);
    assert(b[l] == b[c]);
}

/// Determinism: a point set, a radius and a threshold have exactly one
/// clustering, so every computation of it yields the same clusters, the same
/// noise and the same numbering.
pub proof fn clustering_is_unique(
    pts: Seq<Seq<i64>>,
    eps: int,
    min_points: int,
    a: Seq<Option<usize>>,
    b: Seq<Option<usize>>,
)
    requires
        is_clustering(pts, eps, min_points, a),
        is_clustering(pts, eps, min_points, b),
    ensures
        a == b,
{
    assert forall|i: int| 0 <= i < a.len() implies a[i] == b[i] by {
        if is_core(pts, eps, min_points, i) {
            lemma_core_agrees(pts, eps, min_points, a, b, i);
        } else if a[i] is None {
            assert(is_noise(pts, eps, min_points, i));
            assert(b[i] is None);
        } else {
            assert(!is_noise(pts, eps, min_points, i));
            assert(b[i] is Some);
            assert(joins_lowest(pts, eps, min_points, a, i));
            assert(joins_lowest(pts, eps, min_points, b, i));
            let wa = choose|c: int|
                is_core(pts, eps, min_points, c) && #[trigger] near(pts, eps, c, i) && a[c] == a[i];
            let wb = choose|c: int|
                is_core(pts, eps, min_points, c) && #[trigger] near(pts, eps, c, i) && b[c] == b[i];
            lemma_core_agrees(pts, eps, min_points, a, b, wa);
            lemma_core_agrees(pts, eps, min_points, a, b, wb);
            assert(id_of(a, i) <= id_of(a, wb));
            assert(id_of(b, i) <= id_of(b, wa));
            assert(id_of(a, i) == id_of(b, i));
        }
    }
    assert(a =~= b);
}

/// A larger radius never shrinks a neighbourhood count.
proof fn lemma_count_grows(pts: Seq<Seq<i64>>, eps1: int, eps2: int, i: int, k: int)
    requires
        0 <= eps1 <= eps2,
    ensures
        neighbors_upto(pts, eps1, i, k) <= neighbors_upto(pts, eps2, i, k),
    decreases k,
{
    if k > 0 {
        lemma_count_grows(pts, eps1, eps2, i, k - 1);
        if near(pts, eps1, i, k - 1) {
            lemma_radius_grows(pts[i], pts[k - 1], eps1, eps2);
        }
    }
}

/// A core point stays a core point when the radius grows.
pub proof fn lemma_core_stays(pts: Seq<Seq<i64>>, eps1: int, eps2: int, min_points: int, i: int)
    requires
        0 <= eps1 <= eps2,
        is_core(pts, eps1, min_points, i),
    ensures
        is_core(pts, eps2, min_points, i),
{
    lemma_count_grows(pts, eps1, eps2, i, pts.len() as int);
}

/// Density connection survives a growing radius.
pub proof fn lemma_connection_stays(
    pts: Seq<Seq<i64>>,
    eps1: int,
    eps2: int,
    min_points: int,
    i: int,
    j: int,
)
    requires
        0 <= eps1 <= eps2,
        density_connected(pts, eps1, min_points, i, j),
    ensures
        density_connected(pts, eps2, min_points, i, j),
{
    let path = choose|path: Seq<int>| chain_between(pts, eps1, min_points, path, i, j);
    assert forall|k: int| 0 <= k < path.len() implies is_core(
        pts,
        eps2,
        min_points,
        #[trigger] path[k],
    ) by {
        lemma_core_stays(pts, eps1, eps2, min_points, path[k]);
    }
    assert forall|k: int| 0 < k < path.len() implies #[trigger] linked(pts, eps2, path, k) by {
        assert(linked(pts, eps1, path, k));
        lemma_radius_grows(pts[path[k - 1]], pts[path[k]], eps1, eps2);
    }
    assert(chain_between(pts, eps2, min_points, path, i, j));
}

/// A point that is noise at the larger radius is noise at the smaller one.
pub proof fn lemma_noise_recedes(
    pts: Seq<Seq<i64>>,
    eps1: int,
    eps2: int,
    min_points: int,
    i: int,
)
    requires
        0 <= eps1 <= eps2,
        is_noise(pts, eps2, min_points, i),
    ensures
        is_noise(pts, eps1, min_points, i),
{
    assert forall|c: int| is_core(pts, eps1, min_points, c) implies !#[trigger] near(
        pts,
        eps1,
        c,
        i,
    ) by {
        if near(pts, eps1, c, i) {
            lemma_core_stays(pts, eps1, eps2, min_points, c);
            lemma_radius_grows(pts[c], pts[i], eps1, eps2);
            assert(near(pts, eps2, c, i));
        }
    }
}

/// Where every noise entry of `a` is a noise entry of `b`, `a` has no more
/// noise than `b`.
proof fn lemma_noise_compared(a: Seq<Option<usize>>, b: Seq<Option<usize>>, k: int)
    requires
        0 <= k <= a.len(),
        a.len() == b.len(),
        forall|i: int| 0 <= i < a.len() && (#[trigger] a[i]) is None ==> b[i] is None,
    ensures
        noise_upto(a, k) <= noise_upto(b, k),
    decreases k,
{
    if k > 0 {
        lemma_noise_compared(a, b, k - 1);
        assert(a[k - 1] is None ==> b[k - 1] is None);
    }
}

/// A point with a cluster shares it with a core point that is the point
/// itself or reaches it.
proof fn lemma_anchor(
    pts: Seq<Seq<i64>>,
    eps: int,
    min_points: int,
    a: Seq<Option<usize>>,
    i: int,
) -> (w: int)
    requires
        is_clustering(pts, eps, min_points, a),
        0 <= i < pts.len(),
        a[i] is Some,
    ensures
        is_core(pts, eps, min_points, w),
        near(pts, eps, w, i),
        a[w] == a[i],
{
    if is_core(pts, eps, min_points, i) {
        lemma_near_self(pts, eps, i);
        i
    } else {
        assert(joins_lowest(pts, eps, min_points, a, i));
        choose|c: int|
            is_core(pts, eps, min_points, c) && #[trigger] near(pts, eps, c, i) && a[c] == a[i]
    }
}

/// Monotonicity in the radius: when the radius grows and the threshold
/// stays, no point turns into noise, so the noise count does not grow, and
/// two points of one cluster that are core points at the larger radius are
/// still in one cluster. Clusters merge or stay; they are not split.
pub proof fn larger_radius_only_merges(
    pts: Seq<Seq<i64>>,
    min_points: int,
    eps1: int,
    eps2: int,
    a1: Seq<Option<usize>>,
    a2: Seq<Option<usize>>,
)
    requires
        0 <= eps1 <= eps2,
        is_clustering(pts, eps1, min_points, a1),
        is_clustering(pts, eps2, min_points, a2),
    ensures
        forall|i: int| 0 <= i < pts.len() && (#[trigger] a2[i]) is None ==> a1[i] is None,
        noise_count(a2) <= noise_count(a1),
        forall|i: int, j: int|
            #![trigger a1[i], a1[j]]
            0 <= i < pts.len() && 0 <= j < pts.len() && a1[i] is Some && a1[i] == a1[j] && is_core(
                pts,
                eps2,
                min_points,
                i,
            ) && is_core(pts, eps2, min_points, j) ==> a2[i] == a2[j],
{
    assert forall|i: int| 0 <= i < pts.len() && (#[trigger] a2[i]) is None implies a1[i] is None by {
        assert(is_noise(pts, eps2, min_points, i));
        lemma_noise_recedes(pts, eps1, eps2, min_points, i);
    }
    lemma_noise_compared(a2, a1, a2.len() as int);
    assert forall|i: int, j: int|
        #![trigger a1[i], a1[j]]
        0 <= i < pts.len() && 0 <= j < pts.len() && a1[i] is Some && a1[i] == a1[j] && is_core(
            pts,
            eps2,
            min_points,
            i,
        ) && is_core(pts, eps2, min_points, j) implies a2[i] == a2[j] by {
        let wi = lemma_anchor(pts, eps1, min_points, a1, i);
        let wj = lemma_anchor(pts, eps1, min_points, a1, j);
        assert(a1[wi] == a1[wj]);
        assert(density_connected(pts, eps1, min_points, wi, wj));
        lemma_connection_stays(pts, eps1, eps2, min_points, wi, wj);
        lemma_core_stays(pts, eps1, eps2, min_points, wi);
        lemma_core_stays(pts, eps1, eps2, min_points, wj);
        lemma_radius_grows(pts[wi], pts[i], eps1, eps2);
        lemma_radius_grows(pts[wj], pts[j], eps1, eps2);
        lemma_connected_self(pts, eps2, min_points, wi);
        lemma_connected_step(pts, eps2, min_points, wi, wi, i);
        lemma_connected_symmetric(pts, eps2, min_points, wi, i);
        lemma_connected_transitive(pts, eps2, min_points, i, wi, wj);
        lemma_connected_step(pts, eps2, min_points, i, wj, j);
        assert(density_connected(pts, eps2, min_points, i, j));
    }
}

/// Where all points coincide, each has all of them in its neighbourhood.
proof fn lemma_all_near(pts: Seq<Seq<i64>>, eps: int, i: int, k: int)
    requires
        0 <= i < pts.len(),
        0 <= k <= pts.len(),
        forall|x: int, y: int|
            0 <= x < pts.len() && 0 <= y < pts.len() ==> #[trigger] pts[x] == #[trigger] pts[y],
    ensures
        neighbors_upto(pts, eps, i, k) == k,
    decreases k,
{
    if k > 0 {
        lemma_all_near(pts, eps, i, k - 1);
        lemma_near_self(pts, eps, i);
        assert(pts[i] == pts[k - 1]);
    }
}

/// Points that all coincide form the single cluster 0, and none is noise,
/// when there are at least `min_points` of them.
pub proof fn coinciding_points_form_one_cluster(
    pts: Seq<Seq<i64>>,
    eps: int,
    min_points: int,
    a: Seq<Option<usize>>,
)
    requires
        is_clustering(pts, eps, min_points, a),
        pts.len() >= min_points,
        forall|x: int, y: int|
            0 <= x < pts.len() && 0 <= y < pts.len() ==> #[trigger] pts[x] == #[trigger] pts[y],
    ensures
        forall|i: int| 0 <= i < pts.len() ==> (#[trigger] a[i]) == Some(0usize),
{
    assert forall|i: int| 0 <= i < pts.len() implies (#[trigger] a[i]) == Some(0usize) by {
        lemma_all_near(pts, eps, 0, pts.len() as int);
        lemma_all_near(pts, eps, i, pts.len() as int);
        assert(is_core(pts, eps, min_points, 0));
        assert(is_core(pts, eps, min_points, i));
        assert(is_leader(pts, eps, min_points, 0));
        assert(leaders_before(pts, eps, min_points, 0) == 0);
        assert(id_of(a, 0) == 0);
        lemma_near_self(pts, eps, 0);
        assert(pts[0] == pts[i]);
        assert(near(pts, eps, 0, i));
        lemma_connected_self(pts, eps, min_points, 0);
        lemma_connected_step(pts, eps, min_points, 0, 0, i);
        assert(density_connected(pts, eps, min_points, 0, i));
        assert(a[0] == a[i]);
    }
}

/// With a threshold of at most one every point is a core point, because it
/// lies in its own neighbourhood.
pub proof fn lemma_every_point_is_core(pts: Seq<Seq<i64>>, eps: int, min_points: int, i: int)
    requires
        min_points <= 1,
        0 <= i < pts.len(),
    ensures
        is_core(pts, eps, min_points, i),
{
    lemma_near_self(pts, eps, i);
    lemma_neighbors_bounds(pts, eps, i, 0, i);
    lemma_neighbors_bounds(pts, eps, i, i + 1, pts.len() as int);
    assert(neighbors_upto(pts, eps, i, i + 1) == neighbors_upto(pts, eps, i, i) + 1);
}

/// How many noise entries a sequence without noise has.
proof fn lemma_no_noise(a: Seq<Option<usize>>, k: int)
    requires
        0 <= k <= a.len(),
        forall|i: int| 0 <= i < a.len() ==> (#[trigger] a[i]) is Some,
    ensures
        noise_upto(a, k) == 0,
    decreases k,
{
    if k > 0 {
        lemma_no_noise(a, k - 1);
        assert(a[k - 1] is Some);
    }
}

/// With a threshold of one no point is noise.
pub proof fn threshold_one_leaves_no_noise(pts: Seq<Seq<i64>>, eps: int, a: Seq<Option<usize>>)
    requires
        is_clustering(pts, eps, 1, a),
    ensures
        forall|i: int| 0 <= i < pts.len() ==> (#[trigger] a[i]) is Some,
        noise_count(a) == 0,
{
    assert forall|i: int| 0 <= i < pts.len() implies (#[trigger] a[i]) is Some by {
        lemma_every_point_is_core(pts, eps, 1, i);
        lemma_near_self(pts, eps, i);
        assert(near(pts, eps, i, i));
        assert(!is_noise(pts, eps, 1, i));
    }
    lemma_no_noise(a, a.len() as int);
}

} // verus!
