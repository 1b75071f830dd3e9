//! The clustering engine: brute-force neighbourhood search, then a sweep
//! over the points that grows one cluster at a time from each unclaimed core
//! point with an explicit worklist.

use crate::density::{
    chain_between, core_chain, density_connected, id_of, is_clustering, is_core, is_leader,
    is_noise, joins_lowest, leaders_before, lemma_connected_self, lemma_connected_step,
    lemma_connected_symmetric, lemma_connected_transitive, lemma_leader_unique,
    lemma_leaders_bounds, lemma_near_self, lemma_near_symmetric, linked, near, neighbor_count,
    neighbors_upto, noise_count, noise_upto,
};
use crate::distance::rows_within;
use crate::error::ClusterError;
use crate::matrix::{column_count, rectangular, row_count, FeatureMatrix};
use vstd::prelude::*;

verus! {

/// The flags say of each point whether it is a core point.
spec fn flags_match(pts: Seq<Seq<i64>>, eps: int, min_points: int, core: Seq<bool>) -> bool {
    &&& core.len() == pts.len()
    &&& forall|i: int|
        0 <= i < core.len() ==> (#[trigger] core[i]) == is_core(pts, eps, min_points, i)
}

/// Every identifier in use is below `k`.
spec fn ids_below(a: Seq<Option<usize>>, k: int) -> bool {
    forall|x: int| 0 <= x < a.len() ==> (#[trigger] id_of(a, x)) < k
}

/// The whole neighbourhood of the core point `x` has a cluster, and its core
/// points have the cluster of `x`.
spec fn absorbed(
    pts: Seq<Seq<i64>>,
    eps: int,
    min_points: int,
    a: Seq<Option<usize>>,
    x: int,
) -> bool {
    absorbed_upto(pts, eps, min_points, a, x, pts.len() as int)
}

/// As `absorbed`, for the points below index `t` only.
spec fn absorbed_upto(
    pts: Seq<Seq<i64>>,
    eps: int,
    min_points: int,
    a: Seq<Option<usize>>,
    x: int,
    t: int,
) -> bool {
    forall|y: int|
        0 <= y < t && #[trigger] near(pts, eps, x, y) ==> id_of(a, y) >= 0 && (is_core(
            pts,
            eps,
            min_points,
            y,
        ) ==> id_of(a, y) == id_of(a, x))
}

/// Every core point with an identifier below `k` has absorbed its
/// neighbourhood: the clusters below `k` are complete.
spec fn settled(
    pts: Seq<Seq<i64>>,
    eps: int,
    min_points: int,
    a: Seq<Option<usize>>,
    k: int,
) -> bool {
    forall|x: int|
        is_core(pts, eps, min_points, x) && 0 <= (#[trigger] id_of(a, x)) < k ==> absorbed(
            pts,
            eps,
            min_points,
            a,
            x,
        )
}

/// The border point `b` shares the cluster of a core point that reaches it,
/// and no core point that reaches it has a lower identifier so far.
spec fn attached(
    pts: Seq<Seq<i64>>,
    eps: int,
    min_points: int,
    a: Seq<Option<usize>>,
    b: int,
) -> bool {
    &&& exists|c: int|
        is_core(pts, eps, min_points, c) && #[trigger] near(pts, eps, c, b) && id_of(a, c)
            == id_of(a, b)
    &&& forall|c: int|
        is_core(pts, eps, min_points, c) && #[trigger] near(pts, eps, c, b) && id_of(a, c) >= 0
            ==> id_of(a, b) <= id_of(a, c)
}

/// Every point that has a cluster without being a core point is attached.
spec fn borders_attached(
    pts: Seq<Seq<i64>>,
    eps: int,
    min_points: int,
    a: Seq<Option<usize>>,
) -> bool {
    forall|b: int|
        0 <= b < pts.len() && !is_core(pts, eps, min_points, b) && (#[trigger] id_of(a, b)) >= 0
            ==> attached(pts, eps, min_points, a, b)
}

/// `later` keeps every identifier of `earlier` and gives the identifier `c`
/// to the points that it adds.
spec fn grown(earlier: Seq<Option<usize>>, later: Seq<Option<usize>>, c: int) -> bool {
    &&& later.len() == earlier.len()
    &&& forall|x: int|
        #![trigger id_of(later, x)]
        #![trigger id_of(earlier, x)]
        0 <= x < earlier.len() ==> id_of(later, x) == id_of(earlier, x) || (id_of(earlier, x)
            == -1 && id_of(later, x) == c)
}

/// The point `x` waits in the worklist.
spec fn queued(work: Seq<usize>, x: int) -> bool {
    exists|t: int| 0 <= t < work.len() && #[trigger] work[t] == x
}

/// The state while cluster `c` grows from the seed `s`: the clusters below
/// `c` are complete, and every core point of cluster `c` is density connected
/// to the seed and either has absorbed its neighbourhood, waits in the
/// worklist, or is the point `p` in progress.
spec fn expanding(
    pts: Seq<Seq<i64>>,
    eps: int,
    min_points: int,
    a: Seq<Option<usize>>,
    c: int,
    s: int,
    work: Seq<usize>,
    p: int,
) -> bool {
    &&& a.len() == pts.len()
    &&& ids_below(a, c + 1)
    &&& settled(pts, eps, min_points, a, c)
    &&& forall|x: int|
        is_core(pts, eps, min_points, x) && (#[trigger] id_of(a, x)) == c ==> x == p || queued(
            work,
            x,
        ) || absorbed(pts, eps, min_points, a, x)
    &&& forall|t: int|
        0 <= t < work.len() ==> is_core(pts, eps, min_points, (#[trigger] work[t]) as int)
            && id_of(a, work[t] as int) == c
    &&& forall|x: int|
        is_core(pts, eps, min_points, x) && (#[trigger] id_of(a, x)) == c ==> density_connected(
            pts,
            eps,
            min_points,
            s,
            x,
        )
    &&& borders_attached(pts, eps, min_points, a)
}

/// The state of the sweep before it looks at point `i`: `reps` lists the
/// leaders of the clusters found so far, which are complete.
spec fn swept(
    pts: Seq<Seq<i64>>,
    eps: int,
    min_points: int,
    a: Seq<Option<usize>>,
    reps: Seq<int>,
    i: int,
) -> bool {
    &&& a.len() == pts.len()
    &&& reps.len() == leaders_before(pts, eps, min_points, i)
    &&& ids_below(a, reps.len() as int)
    &&& settled(pts, eps, min_points, a, reps.len() as int)
    &&& borders_attached(pts, eps, min_points, a)
    &&& forall|d: int|
        0 <= d < reps.len() ==> {
            &&& 0 <= (#[trigger] reps[d]) < i
            &&& is_leader(pts, eps, min_points, reps[d])
            &&& leaders_before(pts, eps, min_points, reps[d]) == d
            &&& id_of(a, reps[d]) == d
        }
    &&& forall|x: int|
        is_core(pts, eps, min_points, x) && (#[trigger] id_of(a, x)) >= 0 ==> density_connected(
            pts,
            eps,
            min_points,
            reps[id_of(a, x)],
            x,
        )
    &&& forall|x: int|
        0 <= x < i && is_core(pts, eps, min_points, x) ==> (#[trigger] id_of(a, x)) >= 0
}

/// Giving a cluster to a point that had none removes one noise entry.
proof fn lemma_noise_drops(a: Seq<Option<usize>>, q: int, c: usize, k: int)
    requires
        0 <= q < a.len(),
        a[q] is None,
        0 <= k <= a.len(),
    ensures
        noise_upto(a.update(q, Some(c)), k) == noise_upto(a, k) - if q < k {
            1int
        } else {
            0int
        },
    decreases k,
{
    if k > 0 {
        lemma_noise_drops(a, q, c, k - 1);
    }
}

/// A point that has absorbed its neighbourhood keeps it absorbed when another
/// point, which had no cluster, is given one.
proof fn lemma_absorbed_kept(
    pts: Seq<Seq<i64>>,
    eps: int,
    min_points: int,
    a: Seq<Option<usize>>,
    x: int,
    q: int,
    c: usize,
    t: int,
)
    requires
        a.len() == pts.len(),
        0 <= q < a.len(),
        0 <= x < a.len(),
        id_of(a, q) == -1,
        id_of(a, x) >= 0,
        t <= pts.len(),
        absorbed_upto(pts, eps, min_points, a, x, t),
        t <= q || t == pts.len(),
    ensures
        absorbed_upto(pts, eps, min_points, a.update(q, Some(c)), x, t),
{
    let a2 = a.update(q, Some(c));
    assert forall|y: int| 0 <= y < t && #[trigger] near(pts, eps, x, y) implies id_of(a2, y) >= 0
        && (is_core(pts, eps, min_points, y) ==> id_of(a2, y) == id_of(a2, x)) by {
        assert(id_of(a, y) >= 0);
        assert(y != q);
        assert(a2[y] == a[y]);
        assert(a2[x] == a[x]);
    }
}

/// What changes when the point `q`, which had no cluster, joins cluster `c`
/// from the neighbourhood of the core point `p`.
proof fn lemma_absorb(
    pts: Seq<Seq<i64>>,
    eps: int,
    min_points: int,
    a: Seq<Option<usize>>,
    c: usize,
    s: int,
    work: Seq<usize>,
    p: int,
    q: usize,
)
    requires
        expanding(pts, eps, min_points, a, c as int, s, work, p),
        is_core(pts, eps, min_points, p),
        id_of(a, p) == c,
        q < pts.len(),
        near(pts, eps, p, q as int),
        id_of(a, q as int) == -1,
        absorbed_upto(pts, eps, min_points, a, p, q as int),
    ensures
        expanding(
            pts,
            eps,
            min_points,
            a.update(q as int, Some(c)),
            c as int,
            s,
            if is_core(pts, eps, min_points, q as int) {
                work.push(q)
            } else {
                work
            },
            p,
        ),
        absorbed_upto(pts, eps, min_points, a.update(q as int, Some(c)), p, q + 1),
        grown(a, a.update(q as int, Some(c)), c as int),
{
    let a2 = a.update(q as int, Some(c));
    let w2 = if is_core(pts, eps, min_points, q as int) {
        work.push(q)
    } else {
        work
    };
    assert forall|x: int| 0 <= x < a.len() implies #[trigger] id_of(a2, x) == (if x == q {
        c as int
    } else {
        id_of(a, x)
    }) by {}
    assert(ids_below(a2, c + 1)) by {
        assert forall|x: int| 0 <= x < a2.len() implies (#[trigger] id_of(a2, x)) < c + 1 by {
            assert(id_of(a, x) < c + 1);
        }
    }
    assert(settled(pts, eps, min_points, a2, c as int)) by {
        assert forall|x: int|
            is_core(pts, eps, min_points, x) && 0 <= (#[trigger] id_of(a2, x)) < c implies absorbed(
            pts,
            eps,
            min_points,
            a2,
            x,
        ) by {
            assert(id_of(a, x) == id_of(a2, x));
            lemma_absorbed_kept(pts, eps, min_points, a, x, q as int, c, pts.len() as int);
        }
    }
    assert forall|x: int|
        is_core(pts, eps, min_points, x) && (#[trigger] id_of(a2, x)) == c implies x == p || queued(
        w2,
        x,
    ) || absorbed(pts, eps, min_points, a2, x) by {
        if x == q {
            assert(w2[w2.len() - 1] == q);
        } else {
            assert(id_of(a, x) == c);
            if x == p {
            } else if queued(work, x) {
                let t = choose|t: int| 0 <= t < work.len() && #[trigger] work[t] == x;
                assert(w2[t] == x);
            } else {
                lemma_absorbed_kept(pts, eps, min_points, a, x, q as int, c, pts.len() as int);
            }
        }
    }
    assert forall|t: int| 0 <= t < w2.len() implies is_core(
        pts,
        eps,
        min_points,
        (#[trigger] w2[t]) as int,
    ) && id_of(a2, w2[t] as int) == c by {
        if t < work.len() {
            assert(w2[t] == work[t]);
            assert(id_of(a, work[t] as int) == c);
        }
    }
    assert(density_connected(pts, eps, min_points, s, p));
    assert forall|x: int|
        is_core(pts, eps, min_points, x) && (#[trigger] id_of(a2, x)) == c implies density_connected(
        pts,
        eps,
        min_points,
        s,
        x,
    ) by {
        if x == q {
            lemma_connected_step(pts, eps, min_points, s, p, q as int);
        } else {
            assert(id_of(a, x) == c);
        }
    }
    assert(borders_attached(pts, eps, min_points, a2)) by {
        assert forall|b: int|
            0 <= b < pts.len() && !is_core(pts, eps, min_points, b) && (#[trigger] id_of(a2, b))
                >= 0 implies attached(pts, eps, min_points, a2, b) by {
            if b == q {
                assert(is_core(pts, eps, min_points, p) && near(pts, eps, p, b) && id_of(a2, p)
                    == id_of(a2, b));
                assert forall|y: int|
                    is_core(pts, eps, min_points, y) && #[trigger] near(pts, eps, y, b) && id_of(
                        a2,
                        y,
                    ) >= 0 implies id_of(a2, b) <= id_of(a2, y) by {
                    assert(id_of(a, y) == id_of(a2, y));
                    if id_of(a, y) < c {
                        assert(absorbed(pts, eps, min_points, a, y));
                        assert(id_of(a, b) >= 0);
                    }
                }
            } else {
                assert(id_of(a, b) == id_of(a2, b));
                assert(attached(pts, eps, min_points, a, b));
                let w = choose|w: int|
                    is_core(pts, eps, min_points, w) && #[trigger] near(pts, eps, w, b) && id_of(
                        a,
                        w,
                    ) == id_of(a, b);
                assert(is_core(pts, eps, min_points, w) && near(pts, eps, w, b) && id_of(a2, w)
                    == id_of(a2, b));
                assert forall|y: int|
                    is_core(pts, eps, min_points, y) && #[trigger] near(pts, eps, y, b) && id_of(
                        a2,
                        y,
                    ) >= 0 implies id_of(a2, b) <= id_of(a2, y) by {
                    if y == q {
                        assert(id_of(a, b) < c + 1);
                    }
                }
            }
        }
    }
    assert(absorbed_upto(pts, eps, min_points, a2, p, q + 1)) by {
        lemma_absorbed_kept(pts, eps, min_points, a, p, q as int, c, q as int);
        assert forall|y: int| 0 <= y < q + 1 && #[trigger] near(pts, eps, p, y) implies id_of(
            a2,
            y,
        ) >= 0 && (is_core(pts, eps, min_points, y) ==> id_of(a2, y) == id_of(a2, p)) by {}
    }
}

/// A core point that already has a cluster and lies in the neighbourhood of
/// a core point of cluster `c` is itself in cluster `c`.
proof fn lemma_seen(
    pts: Seq<Seq<i64>>,
    eps: int,
    min_points: int,
    a: Seq<Option<usize>>,
    c: int,
    s: int,
    work: Seq<usize>,
    p: int,
    q: int,
)
    requires
        expanding(pts, eps, min_points, a, c, s, work, p),
        is_core(pts, eps, min_points, p),
        id_of(a, p) == c,
        0 <= q < pts.len(),
        near(pts, eps, p, q),
        id_of(a, q) >= 0,
        is_core(pts, eps, min_points, q),
    ensures
        id_of(a, q) == c,
{
    assert(id_of(a, q) < c + 1);
    if id_of(a, q) < c {
        assert(absorbed(pts, eps, min_points, a, q));
        lemma_near_symmetric(pts, eps, p, q);
        assert(near(pts, eps, q, p));
    }
}

/// The state right after the seed of a new cluster got its identifier.
proof fn lemma_begin(
    pts: Seq<Seq<i64>>,
    eps: int,
    min_points: int,
    a: Seq<Option<usize>>,
    c: usize,
    s: usize,
)
    requires
        a.len() == pts.len(),
        ids_below(a, c as int),
        settled(pts, eps, min_points, a, c as int),
        borders_attached(pts, eps, min_points, a),
        is_core(pts, eps, min_points, s as int),
        id_of(a, s as int) == -1,
    ensures
        expanding(
            pts,
            eps,
            min_points,
            a.update(s as int, Some(c)),
            c as int,
            s as int,
            seq![s],
            -1,
        ),
        grown(a, a.update(s as int, Some(c)), c as int),
{
    let a2 = a.update(s as int, Some(c));
    let w2 = seq![s];
    assert forall|x: int| 0 <= x < a.len() implies #[trigger] id_of(a2, x) == (if x == s {
        c as int
    } else {
        id_of(a, x)
    }) by {}
    assert(ids_below(a2, c + 1)) by {
        assert forall|x: int| 0 <= x < a2.len() implies (#[trigger] id_of(a2, x)) < c + 1 by {
            assert(id_of(a, x) < c);
        }
    }
    assert(settled(pts, eps, min_points, a2, c as int)) by {
        assert forall|x: int|
            is_core(pts, eps, min_points, x) && 0 <= (#[trigger] id_of(a2, x)) < c implies absorbed(
            pts,
            eps,
            min_points,
            a2,
            x,
        ) by {
            assert(id_of(a, x) == id_of(a2, x));
            lemma_absorbed_kept(pts, eps, min_points, a, x, s as int, c, pts.len() as int);
        }
    }
    assert forall|x: int|
        is_core(pts, eps, min_points, x) && (#[trigger] id_of(a2, x)) == c implies x == -1
        || queued(w2, x) || absorbed(pts, eps, min_points, a2, x) by {
        if x == s {
            assert(w2[0] == s);
        } else {
            assert(id_of(a, x) < c);
        }
    }
    assert forall|x: int|
        is_core(pts, eps, min_points, x) && (#[trigger] id_of(a2, x)) == c implies density_connected(
        pts,
        eps,
        min_points,
        s as int,
        x,
    ) by {
        if x == s {
            lemma_connected_self(pts, eps, min_points, s as int);
        } else {
            assert(id_of(a, x) < c);
        }
    }
    assert(borders_attached(pts, eps, min_points, a2)) by {
        assert forall|b: int|
            0 <= b < pts.len() && !is_core(pts, eps, min_points, b) && (#[trigger] id_of(a2, b))
                >= 0 implies attached(pts, eps, min_points, a2, b) by {
            assert(b != s);
            assert(id_of(a, b) == id_of(a2, b));
            assert(attached(pts, eps, min_points, a, b));
            let w = choose|w: int|
                is_core(pts, eps, min_points, w) && #[trigger] near(pts, eps, w, b) && id_of(a, w)
                    == id_of(a, b);
            assert(is_core(pts, eps, min_points, w) && near(pts, eps, w, b) && id_of(a2, w)
                == id_of(a2, b));
            assert forall|y: int|
                is_core(pts, eps, min_points, y) && #[trigger] near(pts, eps, y, b) && id_of(a2, y)
                    >= 0 implies id_of(a2, b) <= id_of(a2, y) by {
                if y == s {
                    assert(id_of(a, b) < c);
                }
            }
        }
    }
}

/// Taking the last point off the worklist makes it the point in progress.
proof fn lemma_take(
    pts: Seq<Seq<i64>>,
    eps: int,
    min_points: int,
    a: Seq<Option<usize>>,
    c: int,
    s: int,
    work: Seq<usize>,
)
    requires
        work.len() > 0,
        expanding(pts, eps, min_points, a, c, s, work, -1),
    ensures
        expanding(pts, eps, min_points, a, c, s, work.drop_last(), work.last() as int),
        is_core(pts, eps, min_points, work.last() as int),
        id_of(a, work.last() as int) == c,
{
    let rest = work.drop_last();
    let p = work.last() as int;
    assert(work[work.len() - 1] == work.last());
    assert forall|x: int|
        is_core(pts, eps, min_points, x) && (#[trigger] id_of(a, x)) == c implies x == p || queued(
        rest,
        x,
    ) || absorbed(pts, eps, min_points, a, x) by {
        if queued(work, x) {
            let t = choose|t: int| 0 <= t < work.len() && #[trigger] work[t] == x;
            if t < rest.len() {
                assert(rest[t] == x);
            }
        }
    }
    assert forall|t: int| 0 <= t < rest.len() implies is_core(
        pts,
        eps,
        min_points,
        (#[trigger] rest[t]) as int,
    ) && id_of(a, rest[t] as int) == c by {
        assert(rest[t] == work[t]);
    }
}

/// Once the point in progress has absorbed its neighbourhood, no point is in
/// progress.
proof fn lemma_retire(
    pts: Seq<Seq<i64>>,
    eps: int,
    min_points: int,
    a: Seq<Option<usize>>,
    c: int,
    s: int,
    work: Seq<usize>,
    p: int,
)
    requires
        expanding(pts, eps, min_points, a, c, s, work, p),
        absorbed(pts, eps, min_points, a, p),
    ensures
        expanding(pts, eps, min_points, a, c, s, work, -1),
{
}

/// With an empty worklist and no point in progress, cluster `c` is complete.
proof fn lemma_end(
    pts: Seq<Seq<i64>>,
    eps: int,
    min_points: int,
    a: Seq<Option<usize>>,
    c: int,
    s: int,
    work: Seq<usize>,
)
    requires
        work.len() == 0,
        expanding(pts, eps, min_points, a, c, s, work, -1),
    ensures
        settled(pts, eps, min_points, a, c + 1),
{
    assert forall|x: int|
        is_core(pts, eps, min_points, x) && 0 <= (#[trigger] id_of(a, x)) < c + 1 implies absorbed(
        pts,
        eps,
        min_points,
        a,
        x,
    ) by {
        if id_of(a, x) == c {
            assert(!queued(work, x));
        }
    }
}

/// Growth composes.
proof fn lemma_grown_twice(
    a0: Seq<Option<usize>>,
    a1: Seq<Option<usize>>,
    a2: Seq<Option<usize>>,
    c: int,
)
    requires
        grown(a0, a1, c),
        grown(a1, a2, c),
        c >= 0,
    ensures
        grown(a0, a2, c),
{
    assert forall|x: int|
        #![trigger id_of(a2, x)]
        #![trigger id_of(a0, x)]
        0 <= x < a0.len() implies id_of(a2, x) == id_of(a0, x) || (id_of(a0, x) == -1 && id_of(
        a2,
        x,
    ) == c) by {
        assert(id_of(a1, x) == id_of(a0, x) || id_of(a1, x) == c);
    }
}

/// Noise counts are between zero and the number of entries counted.
proof fn lemma_noise_bounds(a: Seq<Option<usize>>, k: int)
    requires
        0 <= k,
    ensures
        0 <= noise_upto(a, k) <= k,
    decreases k,
{
    if k > 0 {
        lemma_noise_bounds(a, k - 1);
    }
}

/// While every cluster in use is complete, a chain of core points that
/// starts in a cluster stays in it.
proof fn lemma_chain_same(
    pts: Seq<Seq<i64>>,
    eps: int,
    min_points: int,
    a: Seq<Option<usize>>,
    k: int,
    path: Seq<int>,
    t: int,
)
    requires
        a.len() == pts.len(),
        ids_below(a, k),
        settled(pts, eps, min_points, a, k),
        core_chain(pts, eps, min_points, path),
        id_of(a, path[0]) >= 0,
        0 <= t < path.len(),
    ensures
        id_of(a, path[t]) == id_of(a, path[0]),
    decreases t,
{
    if t > 0 {
        lemma_chain_same(pts, eps, min_points, a, k, path, t - 1);
        let x = path[t - 1];
        let y = path[t];
        assert(is_core(pts, eps, min_points, x));
        assert(is_core(pts, eps, min_points, y));
        assert(id_of(a, x) < k);
        assert(absorbed(pts, eps, min_points, a, x));
        assert(linked(pts, eps, path, t));
        assert(near(pts, eps, x, y));
    }
}

/// A core point that the sweep reaches without a cluster is a leader.
proof fn lemma_fresh_leader(
    pts: Seq<Seq<i64>>,
    eps: int,
    min_points: int,
    a: Seq<Option<usize>>,
    reps: Seq<int>,
    i: int,
)
    requires
        swept(pts, eps, min_points, a, reps, i),
        is_core(pts, eps, min_points, i),
        id_of(a, i) == -1,
    ensures
        is_leader(pts, eps, min_points, i),
{
    assert forall|j: int| 0 <= j < i && is_core(pts, eps, min_points, j) implies !#[trigger] density_connected(
        pts,
        eps,
        min_points,
        j,
        i,
    ) by {
        if density_connected(pts, eps, min_points, j, i) {
            let path = choose|path: Seq<int>| chain_between(pts, eps, min_points, path, j, i);
            assert(id_of(a, j) >= 0);
            lemma_chain_same(
                pts,
                eps,
                min_points,
                a,
                reps.len() as int,
                path,
                path.len() - 1,
            );
        }
    }
}

/// The sweep moves past a point that starts no cluster.
proof fn lemma_skip(
    pts: Seq<Seq<i64>>,
    eps: int,
    min_points: int,
    a: Seq<Option<usize>>,
    reps: Seq<int>,
    i: int,
)
    requires
        swept(pts, eps, min_points, a, reps, i),
        0 <= i < pts.len(),
        !(is_core(pts, eps, min_points, i) && id_of(a, i) == -1),
    ensures
        swept(pts, eps, min_points, a, reps, i + 1),
{
    if is_core(pts, eps, min_points, i) {
        let d = id_of(a, i);
        assert(d >= 0);
        assert(d < reps.len());
        let r = reps[d];
        assert(0 <= r < i && is_leader(pts, eps, min_points, r));
        assert(density_connected(pts, eps, min_points, r, i));
        assert(!is_leader(pts, eps, min_points, i));
    }
    assert forall|d: int| 0 <= d < reps.len() implies 0 <= (#[trigger] reps[d]) < i + 1 by {}
}

/// The sweep moves past a leader once its cluster is complete.
proof fn lemma_cluster_done(
    pts: Seq<Seq<i64>>,
    eps: int,
    min_points: int,
    a0: Seq<Option<usize>>,
    a1: Seq<Option<usize>>,
    reps: Seq<int>,
    i: int,
)
    requires
        swept(pts, eps, min_points, a0, reps, i),
        0 <= i < pts.len(),
        is_leader(pts, eps, min_points, i),
        id_of(a0, i) == -1,
        grown(a0, a1, reps.len() as int),
        id_of(a1, i) == reps.len(),
        ids_below(a1, reps.len() as int + 1),
        settled(pts, eps, min_points, a1, reps.len() as int + 1),
        borders_attached(pts, eps, min_points, a1),
        forall|x: int|
            is_core(pts, eps, min_points, x) && (#[trigger] id_of(a1, x)) == reps.len()
                ==> density_connected(pts, eps, min_points, i, x),
    ensures
        swept(pts, eps, min_points, a1, reps.push(i), i + 1),
{
    let k = reps.len() as int;
    let reps2 = reps.push(i);
    assert forall|d: int| 0 <= d < reps2.len() implies {
        &&& 0 <= (#[trigger] reps2[d]) < i + 1
        &&& is_leader(pts, eps, min_points, reps2[d])
        &&& leaders_before(pts, eps, min_points, reps2[d]) == d
        &&& id_of(a1, reps2[d]) == d
    } by {
        if d < k {
            assert(reps2[d] == reps[d]);
            assert(id_of(a0, reps[d]) == d);
            assert(id_of(a1, reps[d]) == d);
        } else {
            assert(reps2[d] == i);
        }
    }
    assert forall|x: int|
        is_core(pts, eps, min_points, x) && (#[trigger] id_of(a1, x)) >= 0 implies density_connected(
        pts,
        eps,
        min_points,
        reps2[id_of(a1, x)],
        x,
    ) by {
        if id_of(a1, x) == k {
            assert(reps2[k] == i);
        } else {
            assert(id_of(a1, x) < k + 1);
            assert(id_of(a0, x) == id_of(a1, x));
            assert(reps2[id_of(a1, x)] == reps[id_of(a0, x)]);
        }
    }
    assert forall|x: int| 0 <= x < i + 1 && is_core(pts, eps, min_points, x) implies (
    #[trigger] id_of(a1, x)) >= 0 by {
        if x < i {
            assert(id_of(a0, x) >= 0);
        }
    }
}

/// When the sweep has passed every point, the identifiers are the
/// clustering.
proof fn lemma_finish(
    pts: Seq<Seq<i64>>,
    eps: int,
    min_points: int,
    a: Seq<Option<usize>>,
    reps: Seq<int>,
)
    requires
        swept(pts, eps, min_points, a, reps, pts.len() as int),
    ensures
        is_clustering(pts, eps, min_points, a),
{
    let n = pts.len() as int;
    let k = reps.len() as int;
    assert forall|i: int| 0 <= i < n implies ((#[trigger] a[i]) is None <==> is_noise(
        pts,
        eps,
        min_points,
        i,
    )) by {
        if a[i] is None {
            assert(id_of(a, i) == -1);
            assert forall|c: int| is_core(pts, eps, min_points, c) implies !#[trigger] near(
                pts,
                eps,
                c,
                i,
            ) by {
                if near(pts, eps, c, i) {
                    assert(id_of(a, c) >= 0);
                    assert(id_of(a, c) < k);
                    assert(absorbed(pts, eps, min_points, a, c));
                    assert(id_of(a, i) >= 0);
                }
            }
        } else {
            assert(id_of(a, i) >= 0);
            if is_core(pts, eps, min_points, i) {
                lemma_near_self(pts, eps, i);
                assert(near(pts, eps, i, i));
            } else {
                assert(attached(pts, eps, min_points, a, i));
                let w = choose|w: int|
                    is_core(pts, eps, min_points, w) && #[trigger] near(pts, eps, w, i) && id_of(
                        a,
                        w,
                    ) == id_of(a, i);
                assert(near(pts, eps, w, i));
            }
        }
    }
    assert forall|i: int, j: int|
        is_core(pts, eps, min_points, i) && is_core(pts, eps, min_points, j) implies (a[i] == a[j]
        <==> #[trigger] density_connected(pts, eps, min_points, i, j)) by {
        assert(id_of(a, i) >= 0);
        assert(id_of(a, j) >= 0);
        if density_connected(pts, eps, min_points, i, j) {
            let path = choose|path: Seq<int>| chain_between(pts, eps, min_points, path, i, j);
            lemma_chain_same(pts, eps, min_points, a, k, path, path.len() - 1);
            assert(id_of(a, i) == id_of(a, j));
        }
        if a[i] == a[j] {
            let r = reps[id_of(a, i)];
            assert(density_connected(pts, eps, min_points, r, i));
            assert(density_connected(pts, eps, min_points, r, j));
            lemma_connected_symmetric(pts, eps, min_points, r, i);
            lemma_connected_transitive(pts, eps, min_points, i, r, j);
        }
    }
    assert forall|i: int| #[trigger] is_leader(pts, eps, min_points, i) implies id_of(a, i)
        == leaders_before(pts, eps, min_points, i) by {
        let d = id_of(a, i);
        assert(d >= 0);
        assert(d < k);
        let r = reps[d];
        assert(is_leader(pts, eps, min_points, r));
        assert(density_connected(pts, eps, min_points, r, i));
        lemma_leader_unique(pts, eps, min_points, r, i);
    }
    assert forall|b: int|
        0 <= b < n && !is_core(pts, eps, min_points, b) && (#[trigger] a[b]) is Some implies joins_lowest(
        pts,
        eps,
        min_points,
        a,
        b,
    ) by {
        assert(id_of(a, b) >= 0);
        assert(attached(pts, eps, min_points, a, b));
        let w = choose|w: int|
            is_core(pts, eps, min_points, w) && #[trigger] near(pts, eps, w, b) && id_of(a, w)
                == id_of(a, b);
        assert(is_core(pts, eps, min_points, w) && near(pts, eps, w, b) && a[w] == a[b]);
        assert forall|c: int|
            is_core(pts, eps, min_points, c) && #[trigger] near(pts, eps, c, b) implies id_of(a, b)
            <= id_of(a, c) by {
            assert(id_of(a, c) >= 0);
        }
    }
}

/// Counts the points in the neighbourhood of row `i`.
fn count_neighbors(data: &FeatureMatrix, width: usize, i: usize, eps: i64) -> (count: usize)
    requires
        i < data@.len(),
        rectangular(data@, width as int),
        eps >= 0,
    ensures
        count == neighbor_count(data@, eps as int, i as int),
{
    let n = row_count(data);
    let mut count: usize = 0;
    let mut j: usize = 0;
    while j < n
        invariant
            j <= n,
            n == data@.len(),
            i < n,
            rectangular(data@, width as int),
            eps >= 0,
            count == neighbors_upto(data@, eps as int, i as int, j as int),
            count <= j,
        decreases n - j,
    {
        if rows_within(data, width, i, j, eps) {
            count += 1;
        }
        j += 1;
    }
    count
}

/// Decides for every row whether it is a core point.
fn core_flags(data: &FeatureMatrix, width: usize, eps: i64, min_points: usize) -> (core: Vec<bool>)
    requires
        rectangular(data@, width as int),
        eps >= 0,
    ensures
        flags_match(data@, eps as int, min_points as int, core@),
{
    let n = row_count(data);
    let mut core: Vec<bool> = Vec::new();
    let mut i: usize = 0;
    while i < n
        invariant
            i <= n,
            n == data@.len(),
            rectangular(data@, width as int),
            eps >= 0,
            core@.len() == i,
            forall|x: int|
                0 <= x < i ==> (#[trigger] core@[x]) == is_core(
                    data@,
                    eps as int,
                    min_points as int,
                    x,
                ),
        decreases n - i,
    {
        let count = count_neighbors(data, width, i, eps);
        core.push(count >= min_points);
        i += 1;
    }
    core
}

/// Grows cluster `id` from the core point `seed`: the seed and everything
/// density reachable from it get the identifier, border points included,
/// unless an earlier cluster has claimed them.
fn expand_cluster(
    data: &FeatureMatrix,
    width: usize,
    eps: i64,
    min_points: Ghost<int>,
    core: &Vec<bool>,
    labels: &mut Vec<Option<usize>>,
    seed: usize,
    id: usize,
)
    requires
        rectangular(data@, width as int),
        eps >= 0,
        flags_match(data@, eps as int, min_points@, core@),
        old(labels)@.len() == data@.len(),
        seed < data@.len(),
        is_core(data@, eps as int, min_points@, seed as int),
        id_of(old(labels)@, seed as int) == -1,
        ids_below(old(labels)@, id as int),
        settled(data@, eps as int, min_points@, old(labels)@, id as int),
        borders_attached(data@, eps as int, min_points@, old(labels)@),
    ensures
        grown(old(labels)@, final(labels)@, id as int),
        id_of(final(labels)@, seed as int) == id,
        ids_below(final(labels)@, id + 1),
        settled(data@, eps as int, min_points@, final(labels)@, id + 1),
        borders_attached(data@, eps as int, min_points@, final(labels)@),
        forall|x: int|
            is_core(data@, eps as int, min_points@, x) && (#[trigger] id_of(final(labels)@, x))
                == id ==> density_connected(data@, eps as int, min_points@, seed as int, x),
{
    let ghost pts = data@;
    let ghost e = eps as int;
    let ghost mp = min_points@;
    let ghost start = labels@;
    let n = row_count(data);
    labels.set(seed, Some(id));
    let mut work: Vec<usize> = Vec::new();
    work.push(seed);
    proof {
        lemma_begin(pts, e, mp, start, id, seed);
        assert(work@ =~= seq![seed]);
    }
    while work.len() > 0
        invariant
            pts == data@,
            e == eps as int,
            mp == min_points@,
            n == pts.len(),
            rectangular(pts, width as int),
            eps >= 0,
            flags_match(pts, e, mp, core@),
            labels@.len() == n,
            seed < n,
            expanding(pts, e, mp, labels@, id as int, seed as int, work@, -1),
            grown(start, labels@, id as int),
            id_of(labels@, seed as int) == id,
        decreases noise_count(labels@), work@.len(),
    {
        let ghost before = work@;
        let p = work.pop().unwrap();
        proof {
            lemma_take(pts, e, mp, labels@, id as int, seed as int, before);
            assert(work@ =~= before.drop_last());
            lemma_noise_bounds(labels@, n as int);
        }
        let ghost count0 = noise_count(labels@);
        let ghost len0 = work@.len();
        let mut q: usize = 0;
        while q < n
            invariant
                q <= n,
                pts == data@,
                e == eps as int,
                mp == min_points@,
                n == pts.len(),
                rectangular(pts, width as int),
                eps >= 0,
                flags_match(pts, e, mp, core@),
                labels@.len() == n,
                seed < n,
                p < n,
                expanding(pts, e, mp, labels@, id as int, seed as int, work@, p as int),
                is_core(pts, e, mp, p as int),
                id_of(labels@, p as int) == id,
                absorbed_upto(pts, e, mp, labels@, p as int, q as int),
                grown(start, labels@, id as int),
                id_of(labels@, seed as int) == id,
                0 <= noise_count(labels@) <= count0,
                noise_count(labels@) == count0 ==> work@.len() == len0,
            decreases n - q,
        {
            let close = rows_within(data, width, p, q, eps);
            if close {
                let current = labels[q];
                match current {
                    None => {
                        let ghost a = labels@;
                        let ghost w = work@;
                        labels.set(q, Some(id));
                        if core[q] {
                            work.push(q);
                        }
                        proof {
                            assert(id_of(a, q as int) == -1);
                            lemma_absorb(pts, e, mp, a, id, seed as int, w, p as int, q);
                            lemma_noise_drops(a, q as int, id, n as int);
                            lemma_noise_bounds(labels@, n as int);
                            lemma_grown_twice(start, a, labels@, id as int);
                            assert(labels@ == a.update(q as int, Some(id)));
                        }
                    },
                    Some(_) => {
                        proof {
                            assert(id_of(labels@, q as int) >= 0);
                            if is_core(pts, e, mp, q as int) {
                                lemma_seen(
                                    pts,
                                    e,
                                    mp,
                                    labels@,
                                    id as int,
                                    seed as int,
                                    work@,
                                    p as int,
                                    q as int,
                                );
                            }
                        }
                    },
                }
            }
            proof {
                assert forall|y: int| 0 <= y < q + 1 && #[trigger] near(pts, e, p as int, y) implies id_of(
                    labels@,
                    y,
                ) >= 0 && (is_core(pts, e, mp, y) ==> id_of(labels@, y) == id_of(
                    labels@,
                    p as int,
                )) by {}
            }
            q += 1;
        }
        proof {
            lemma_retire(pts, e, mp, labels@, id as int, seed as int, work@, p as int);
        }
    }
    proof {
        lemma_end(pts, e, mp, labels@, id as int, seed as int, work@);
    }
}

/// Clusters the rows of `data` by density. A row is a core point when at
/// least `min_points` rows, itself included, lie within Euclidean distance
/// `epsilon` of it. Core points that a chain of core points joins share a
/// cluster; a row that is no core point joins the lowest-numbered cluster
/// with a core point that reaches it, and is noise (`None`) when there is
/// none. Clusters are numbered from 0 in the order of their first core
/// point.
///
/// A negative radius or a threshold of zero is refused.
pub fn detect_anomalies_dbscan(data: &FeatureMatrix, epsilon: i64, min_points: usize) -> (r:
    Result<Vec<Option<usize>>, ClusterError>)
    ensures
        r is Ok <==> epsilon >= 0 && min_points >= 1,
        r matches Ok(a) ==> is_clustering(data@, epsilon as int, min_points as int, a@),
        r matches Err(e) ==> e == ClusterError::InvalidParameter,
{
    if epsilon < 0 || min_points < 1 {
        return Err(ClusterError::InvalidParameter);
    }
    let ghost pts = data@;
    let ghost e = epsilon as int;
    let ghost mp = min_points as int;
    let n = row_count(data);
    let width = column_count(data);
    let core = core_flags(data, width, epsilon, min_points);
    let mut labels: Vec<Option<usize>> = Vec::new();
    let mut t: usize = 0;
    while t < n
        invariant
            t <= n,
            labels@.len() == t,
            forall|x: int| 0 <= x < t ==> (#[trigger] labels@[x]) is None,
        decreases n - t,
    {
        labels.push(None);
        t += 1;
    }
    let ghost mut reps: Seq<int> = Seq::empty();
    let mut next: usize = 0;
    let mut i: usize = 0;
    proof {
        assert forall|x: int| 0 <= x < n implies #[trigger] id_of(labels@, x) == -1 by {
            assert(labels@[x] is None);
        }
    }
    while i < n
        invariant
            i <= n,
            pts == data@,
            e == epsilon as int,
            mp == min_points as int,
            n == pts.len(),
            rectangular(pts, width as int),
            epsilon >= 0,
            flags_match(pts, e, mp, core@),
            labels@.len() == n,
            swept(pts, e, mp, labels@, reps, i as int),
            next == reps.len(),
        decreases n - i,
    {
        proof {
            lemma_leaders_bounds(pts, e, mp, 0, i as int);
        }
        let unclaimed = labels[i].is_none();
        if core[i] && unclaimed {
            let ghost before = labels@;
            proof {
                assert(id_of(before, i as int) == -1);
                lemma_fresh_leader(pts, e, mp, before, reps, i as int);
            }
            expand_cluster(data, width, epsilon, Ghost(mp), &core, &mut labels, i, next);
            proof {
                lemma_cluster_done(pts, e, mp, before, labels@, reps, i as int);
                reps = reps.push(i as int);
            }
            next += 1;
        } else {
            proof {
                lemma_skip(pts, e, mp, labels@, reps, i as int);
            }
        }
        i += 1;
    }
    proof {
        lemma_finish(pts, e, mp, labels@, reps);
    }
    Ok(labels)
}

} // verus!
