//! Breadth-first distances in a graph.

use vstd::prelude::*;

#[allow(unused_imports)]
use crate::counting::{count, count_bound, count_lt};
#[allow(unused_imports)]
use crate::tarjan::{graph_wf, has_edge, lists};

verus! {

/// `v` is at most `k` edges from a source.
pub open spec fn within(g: Seq<Seq<usize>>, sources: Seq<bool>, k: nat, v: int) -> bool
    decreases k,
{
    if k == 0 {
        sources[v]
    } else {
        within(g, sources, (k - 1) as nat, v) || exists|u: int| #[trigger]
            has_edge(g, u, v) && within(g, sources, (k - 1) as nat, u)
    }
}

/// Some path leads from a source to `v`.
pub open spec fn reached(g: Seq<Seq<usize>>, sources: Seq<bool>, v: int) -> bool {
    exists|k: nat| #[trigger] within(g, sources, k, v)
}

/// `d` is the number of edges on a shortest path from a source to `v`.
pub open spec fn is_distance(g: Seq<Seq<usize>>, sources: Seq<bool>, v: int, d: nat) -> bool {
    within(g, sources, d, v) && (d > 0 ==> !within(g, sources, (d - 1) as nat, v))
}

/// The distance of every vertex, `None` where no path leads.
pub open spec fn distances(
    g: Seq<Seq<usize>>,
    sources: Seq<bool>,
    dist: Seq<Option<u32>>,
) -> bool {
    &&& dist.len() == g.len()
    &&& forall|v: int|
        0 <= v < g.len() ==> match #[trigger] dist[v] {
            Some(d) => is_distance(g, sources, v, d as nat),
            None => !reached(g, sources, v),
        }
}

/// More edges reach no less.
pub proof fn within_monotone(g: Seq<Seq<usize>>, sources: Seq<bool>, k: nat, m: nat, v: int)
    requires
        k <= m,
        within(g, sources, k, v),
    ensures
        within(g, sources, m, v),
    decreases m,
{
    if k < m {
        within_monotone(g, sources, k, (m - 1) as nat, v);
    }
}

/// A vertex has one distance.
pub proof fn distance_unique(g: Seq<Seq<usize>>, sources: Seq<bool>, v: int, a: nat, b: nat)
    requires
        is_distance(g, sources, v, a),
        is_distance(g, sources, v, b),
    ensures
        a == b,
{
    if a < b {
        within_monotone(g, sources, a, (b - 1) as nat, v);
    } else if b < a {
        within_monotone(g, sources, b, (a - 1) as nat, v);
    }
}

/// Every vertex past the sources has a predecessor one step nearer.
pub proof fn distance_predecessor(g: Seq<Seq<usize>>, sources: Seq<bool>, v: int, d: nat) -> (u: int)
    requires
        is_distance(g, sources, v, d),
        d > 0,
    ensures
        has_edge(g, u, v),
        is_distance(g, sources, u, (d - 1) as nat),
{
    let e = (d - 1) as nat;
    let u = choose|u: int| #[trigger] has_edge(g, u, v) && within(g, sources, e, u);
    if e > 0 && within(g, sources, (e - 1) as nat, u) {
        assert(within(g, sources, e, v));
    }
    u
}

/// The distance along an edge grows by at most one.
pub proof fn distance_edge(
    g: Seq<Seq<usize>>,
    sources: Seq<bool>,
    u: int,
    v: int,
    a: nat,
    b: nat,
)
    requires
        has_edge(g, u, v),
        is_distance(g, sources, u, a),
        is_distance(g, sources, v, b),
    ensures
        b <= a + 1,
{
    assert(within(g, sources, a + 1, v)) by {
        assert(has_edge(g, u, v) && within(g, sources, a, u));
    }
    if b > a + 1 {
        within_monotone(g, sources, a + 1, (b - 1) as nat, v);
    }
}

/// A level that adds nothing ends the search.
proof fn within_stops(g: Seq<Seq<usize>>, sources: Seq<bool>, d: nat, k: nat, v: int)
    requires
        graph_wf(g),
        0 <= v < g.len(),
        forall|w: int|
            0 <= w < g.len() && #[trigger] within(g, sources, d + 1, w) ==> within(
                g,
                sources,
                d,
                w,
            ),
        within(g, sources, k, v),
    ensures
        within(g, sources, d, v),
    decreases k,
{
    if k <= d {
        within_monotone(g, sources, k, d, v);
    } else {
        let e = (k - 1) as nat;
        if within(g, sources, e, v) {
            within_stops(g, sources, d, e, v);
        } else {
            let u = choose|u: int| #[trigger] has_edge(g, u, v) && within(g, sources, e, u);
            within_stops(g, sources, d, e, u);
            assert(within(g, sources, d + 1, v));
        }
    }
}

/// What is known while the vertices at distance `d` are being looked at, those
/// before `u` done and the first `j` successors of `u`.
spec fn level(
    g: Seq<Seq<usize>>,
    sources: Seq<bool>,
    dist: Seq<Option<u32>>,
    d: u32,
    u: int,
    j: int,
) -> bool {
    &&& dist.len() == g.len()
    &&& forall|v: int|
        0 <= v < g.len() ==> match #[trigger] dist[v] {
            Some(k) => k <= d + 1 && is_distance(g, sources, v, k as nat),
            None => !within(g, sources, d as nat, v),
        }
    &&& forall|a: int, b: int|
        #![trigger g[a][b]]
        0 <= a < g.len() && 0 <= b < g[a].len() && (a < u || a == u && b < j) && dist[a] == Some(d)
            ==> dist[g[a][b] as int] is Some
}

/// Shortest distances from the sources.
pub fn bfs_distances(adj: &Vec<Vec<usize>>, sources: &Vec<bool>) -> (dist: Vec<Option<u32>>)
    requires
        graph_wf(lists(adj@)),
        sources@.len() == adj@.len(),
        adj@.len() < u32::MAX,
    ensures
        distances(lists(adj@), sources@, dist@),
        forall|v: int|
            0 <= v < dist@.len() ==> ((#[trigger] dist@[v]) matches Some(d) ==> d <= adj@.len()),
{
    let ghost g = lists(adj@);
    let ghost src = sources@;
    let n: usize = adj.len();
    let mut dist: Vec<Option<u32>> = Vec::new();
    let mut i: usize = 0;
    while i < n
        invariant
            n == sources@.len(),
            src == sources@,
            i <= n,
            dist@.len() == i,
            forall|v: int|
                0 <= v < i ==> #[trigger] dist@[v] == (if src[v] {
                    Some(0u32)
                } else {
                    None
                }),
        decreases n - i,
    {
        if sources[i] {
            dist.push(Some(0));
        } else {
            dist.push(None);
        }
        i = i + 1;
    }
    let mut d: u32 = 0;
    let mut changed = true;
    proof {
        count_bound(|v: int| dist@[v] is None, n as int);
    }
    while changed
        invariant
            n == adj@.len(),
            n < u32::MAX,
            g == lists(adj@),
            graph_wf(g),
            src == sources@,
            dist@.len() == n,
            d <= n,
            changed ==> d + count(|v: int| dist@[v] is None, n as int) <= n,
            forall|v: int|
                0 <= v < n ==> match #[trigger] dist@[v] {
                    Some(k) => k <= d && is_distance(g, src, v, k as nat),
                    None => !within(g, src, d as nat, v),
                },
            !changed ==> forall|v: int|
                0 <= v < n && #[trigger] within(g, src, d as nat + 1, v) ==> within(
                    g,
                    src,
                    d as nat,
                    v,
                ),
        decreases
            count(|v: int| dist@[v] is None, n as int),
            (if changed {
                1int
            } else {
                0
            }),
    {
        let ghost dist0 = dist@;
        changed = false;
        let mut u: usize = 0;
        while u < n
            invariant
                n == adj@.len(),
                n < u32::MAX,
                d <= n,
                g == lists(adj@),
                graph_wf(g),
                u <= n,
                level(g, src, dist@, d, u as int, 0),
                dist0.len() == n,
                forall|v: int| 0 <= v < n && (#[trigger] dist0[v]) is Some ==> dist@[v] == dist0[v],
                !changed ==> dist@ == dist0,
                changed ==> exists|v: int|
                    0 <= v < n && (#[trigger] dist0[v]) is None && dist@[v] is Some,
                forall|v: int|
                    0 <= v < n ==> match #[trigger] dist0[v] {
                        Some(k) => k <= d && is_distance(g, src, v, k as nat),
                        None => !within(g, src, d as nat, v),
                    },
            decreases n - u,
        {
            let at_level = match dist[u] {
                Some(k) => k == d,
                None => false,
            };
            if at_level {
                let list = &adj[u];
                let mut j: usize = 0;
                while j < list.len()
                    invariant
                        n == adj@.len(),
                        n < u32::MAX,
                        d <= n,
                        g == lists(adj@),
                        graph_wf(g),
                        u < n,
                        list@ == g[u as int],
                        j <= list@.len(),
                        dist@[u as int] == Some(d),
                        level(g, src, dist@, d, u as int, j as int),
                        dist0.len() == n,
                        forall|v: int|
                            0 <= v < n && (#[trigger] dist0[v]) is Some ==> dist@[v] == dist0[v],
                        !changed ==> dist@ == dist0,
                        changed ==> exists|v: int|
                            0 <= v < n && (#[trigger] dist0[v]) is None && dist@[v] is Some,
                        forall|v: int|
                            0 <= v < n ==> match #[trigger] dist0[v] {
                                Some(k) => k <= d && is_distance(g, src, v, k as nat),
                                None => !within(g, src, d as nat, v),
                            },
                    decreases list@.len() - j,
                {
                    let v: usize = list[j];
                    assert(g[u as int][j as int] == v);
                    if dist[v].is_none() {
                        let ghost before = dist@;
                        dist.set(v, Some(d + 1));
                        changed = true;
                        proof {
                            assert(has_edge(g, u as int, v as int));
                            assert(within(g, src, d as nat, u as int));
                            assert(within(g, src, d as nat + 1, v as int));
                            assert(!within(g, src, d as nat, v as int));
                            assert(dist0[v as int] is None) by {
                                if dist0[v as int] is Some {
                                    assert(before[v as int] == dist0[v as int]);
                                }
                            }
                            assert(v != u);
                            assert forall|a: int, b: int|
                                #![trigger g[a][b]]
                                0 <= a < g.len() && 0 <= b < g[a].len() && (a < u || a == u && b < j
                                    + 1) && dist@[a] == Some(d) implies dist@[g[a][b] as int] is Some by {
                                if a != v {
                                    if !(a == u && b == j) {
                                        assert(before[g[a][b] as int] is Some);
                                    }
                                }
                            }
                        }
                    }
                    j = j + 1;
                }
            }
            u = u + 1;
        }
        proof {
            let p0 = |v: int| dist0[v] is None;
            let p1 = |v: int| dist@[v] is None;
            assert forall|v: int| 0 <= v < n && #[trigger] p1(v) implies p0(v) by {
                if dist0[v] is Some {
                    assert(dist@[v] == dist0[v]);
                }
            }
            if changed {
                let v = choose|v: int| 0 <= v < n && (#[trigger] dist0[v]) is None && dist@[v] is Some;
                count_lt(p1, p0, n as int, v);
            }
            assert forall|v: int| 0 <= v < n && #[trigger] within(
                g,
                src,
                d as nat + 1,
                v,
            ) implies dist@[v] is Some by {
                if within(g, src, d as nat, v) {
                    assert(dist@[v] is Some);
                } else {
                    let u = choose|u: int| #[trigger]
                        has_edge(g, u, v) && within(g, src, d as nat, u);
                    let j = choose|j: int| 0 <= j < g[u].len() && #[trigger] g[u][j] == v;
                    assert(dist@[u] is Some);
                    let k = dist@[u]->0;
                    assert(is_distance(g, src, u, k as nat));
                    if k < d {
                        assert(within(g, src, k as nat + 1, v));
                        within_monotone(g, src, k as nat + 1, d as nat, v);
                    } else {
                        if k > d {
                            within_monotone(g, src, d as nat, (k - 1) as nat, u);
                        }
                        assert(dist@[g[u][j] as int] is Some);
                    }
                }
            }
        }
        if changed {
            d = d + 1;
        } else {
            proof {
                assert forall|v: int| 0 <= v < n && #[trigger] within(
                    g,
                    src,
                    d as nat + 1,
                    v,
                ) implies within(g, src, d as nat, v) by {
                    assert(dist@[v] is Some);
                    let k = dist@[v]->0;
                    assert(dist0[v] == dist@[v]);
                    within_monotone(g, src, k as nat, d as nat, v);
                }
            }
        }
    }
    proof {
        assert forall|v: int| 0 <= v < n implies match #[trigger] dist@[v] {
            Some(k) => is_distance(g, src, v, k as nat),
            None => !reached(g, src, v),
        } by {
            if dist@[v] is None && reached(g, src, v) {
                let k = choose|k: nat| #[trigger] within(g, src, k, v);
                within_stops(g, src, d as nat, k, v);
            }
        }
    }
    dist
}

/// `w` is a walk along edges from a source to `v`.
pub open spec fn walks_to(g: Seq<Seq<usize>>, sources: Seq<bool>, w: Seq<int>, v: int) -> bool {
    &&& w.len() >= 1
    &&& w.last() == v
    &&& sources[w[0]]
    &&& forall|k: int| 0 <= k < w.len() - 1 ==> has_edge(g, #[trigger] w[k], w[k + 1])
}

proof fn within_has_a_walk(g: Seq<Seq<usize>>, sources: Seq<bool>, k: nat, v: int) -> (w: Seq<int>)
    requires
        within(g, sources, k, v),
    ensures
        walks_to(g, sources, w, v),
        w.len() <= k + 1,
    decreases k,
{
    if k == 0 {
        seq![v]
    } else if within(g, sources, (k - 1) as nat, v) {
        within_has_a_walk(g, sources, (k - 1) as nat, v)
    } else {
        let u = choose|u: int| #[trigger]
            has_edge(g, u, v) && within(g, sources, (k - 1) as nat, u);
        let w = within_has_a_walk(g, sources, (k - 1) as nat, u);
        let x = w.push(v);
        assert forall|j: int| 0 <= j < x.len() - 1 implies has_edge(g, #[trigger] x[j], x[j + 1]) by {
            if j < w.len() - 1 {
                assert(w[j] == x[j] && w[j + 1] == x[j + 1]);
                assert(has_edge(g, w[j], w[j + 1]));
            }
        }
        x
    }
}

/// A walk of `n` vertices reaches its end within `n - 1` edges.
pub proof fn walks_stay_within(g: Seq<Seq<usize>>, sources: Seq<bool>, w: Seq<int>, v: int)
    requires
        walks_to(g, sources, w, v),
    ensures
        within(g, sources, (w.len() - 1) as nat, v),
    decreases w.len(),
{
    if w.len() > 1 {
        let x = w.drop_last();
        let u = x.last();
        assert forall|j: int| 0 <= j < x.len() - 1 implies has_edge(g, #[trigger] x[j], x[j + 1]) by {
            assert(x[j] == w[j] && x[j + 1] == w[j + 1]);
            assert(has_edge(g, w[j], w[j + 1]));
        }
        assert(x[0] == w[0]);
        walks_stay_within(g, sources, x, u);
        assert(has_edge(g, w[w.len() - 2], w[w.len() - 1]));
        assert(has_edge(g, u, v));
    }
}

/// A distance is the length of a shortest walk: some walk has that many edges,
/// and none has fewer.
pub proof fn distances_are_shortest_walks(
    g: Seq<Seq<usize>>,
    sources: Seq<bool>,
    v: int,
    d: nat,
)
    requires
        is_distance(g, sources, v, d),
    ensures
        exists|w: Seq<int>| #[trigger] walks_to(g, sources, w, v) && w.len() == d + 1,
        forall|w: Seq<int>| #[trigger] walks_to(g, sources, w, v) ==> w.len() >= d + 1,
{
    assert forall|w: Seq<int>| #[trigger] walks_to(g, sources, w, v) implies w.len() >= d + 1 by {
        walks_stay_within(g, sources, w, v);
        if w.len() < d + 1 {
            within_monotone(g, sources, (w.len() - 1) as nat, (d - 1) as nat, v);
        }
    }
    let w = within_has_a_walk(g, sources, d, v);
    assert(walks_to(g, sources, w, v) && w.len() == d + 1);
}

/// A vertex is reached exactly if some walk leads there.
pub proof fn reached_by_walks(g: Seq<Seq<usize>>, sources: Seq<bool>, v: int)
    ensures
        reached(g, sources, v) <==> exists|w: Seq<int>| #[trigger] walks_to(g, sources, w, v),
{
    if reached(g, sources, v) {
        let k = choose|k: nat| #[trigger] within(g, sources, k, v);
        let w = within_has_a_walk(g, sources, k, v);
        assert(walks_to(g, sources, w, v));
    }
    if exists|w: Seq<int>| #[trigger] walks_to(g, sources, w, v) {
        let w = choose|w: Seq<int>| #[trigger] walks_to(g, sources, w, v);
        walks_stay_within(g, sources, w, v);
    }
}

/// A vertex that is reached has a distance.
pub proof fn reached_has_a_distance(g: Seq<Seq<usize>>, sources: Seq<bool>, v: int) -> (d: nat)
    requires
        reached(g, sources, v),
    ensures
        is_distance(g, sources, v, d),
{
    let k = choose|k: nat| #[trigger] within(g, sources, k, v);
    least_within(g, sources, v, k)
}

proof fn least_within(g: Seq<Seq<usize>>, sources: Seq<bool>, v: int, k: nat) -> (d: nat)
    requires
        within(g, sources, k, v),
    ensures
        is_distance(g, sources, v, d),
    decreases k,
{
    if k > 0 && within(g, sources, (k - 1) as nat, v) {
        least_within(g, sources, v, (k - 1) as nat)
    } else {
        k
    }
}

proof fn distance_chain(g: Seq<Seq<usize>>, sources: Seq<bool>, v: int, d: nat) -> (c: Seq<usize>)
    requires
        0 <= v < g.len() <= usize::MAX,
        is_distance(g, sources, v, d),
    ensures
        c.len() == d + 1,
        forall|k: int|
            0 <= k < c.len() ==> (#[trigger] c[k]) < g.len() && is_distance(
                g,
                sources,
                c[k] as int,
                k as nat,
            ),
    decreases d,
{
    if d == 0 {
        seq![v as usize]
    } else {
        let u = distance_predecessor(g, sources, v, d);
        let c = distance_chain(g, sources, u, (d - 1) as nat);
        c.push(v as usize)
    }
}

/// No vertex is farther from the sources than there are other vertices.
pub proof fn distances_are_short(g: Seq<Seq<usize>>, sources: Seq<bool>, v: int, d: nat)
    requires
        0 <= v < g.len() <= usize::MAX,
        is_distance(g, sources, v, d),
    ensures
        d < g.len(),
{
    let c = distance_chain(g, sources, v, d);
    assert forall|i: int, j: int| 0 <= i < j < c.len() implies c[i] != c[j] by {
        if c[i] == c[j] {
            distance_unique(g, sources, c[i] as int, i as nat, j as nat);
        }
    }
    crate::layering::no_more_than(c, g.len());
}

} // verus!
