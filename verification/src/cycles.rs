//! Turning a graph into one without cycles by reversing edges.

use vstd::prelude::*;

#[allow(unused_imports)]
use crate::counting::{
    count, count_bound, count_eq, count_insert, count_le, count_lt, sum, sum_bound, sum_one,
    sum_two,
};
#[allow(unused_imports)]
use crate::graph::{reach, reach_edge, reach_preserves, reach_refl, reach_trans};
use crate::tarjan::tarjan_sccs;
#[allow(unused_imports)]
use crate::tarjan::{
    components, covers, edges, graph_wf, has_edge, in_some, is_tarjan_output, lists, mutual,
};

verus! {

/// No vertex is its own successor.
pub open spec fn no_loops(g: Seq<Seq<usize>>) -> bool {
    forall|u: int, j: int| 0 <= u < g.len() && 0 <= j < g[u].len() ==> #[trigger] g[u][j] != u
}

/// How many members of the component lead to `u`.
pub open spec fn component_in_degree(g: Seq<Seq<usize>>, scc: Seq<usize>, u: int) -> nat {
    count(|i: int| scc.contains(i as usize) && has_edge(g, i, u), g.len() as int)
}

/// Some successor of `u` is in the component.
pub open spec fn leads_inside(g: Seq<Seq<usize>>, scc: Seq<usize>, u: int) -> bool {
    exists|j: int| 0 <= j < g[u].len() && scc.contains(#[trigger] g[u][j])
}

/// The edge to reverse in a component: its source is the first member, among
/// those with a successor in the component, whose in-degree within the
/// component is largest, and its target is the source's first successor in
/// the component.
pub open spec fn picked(g: Seq<Seq<usize>>, scc: Seq<usize>, u: usize, v: usize) -> bool {
    &&& exists|a: int|
        #![trigger scc[a]]
        {
            &&& 0 <= a < scc.len()
            &&& scc[a] == u
            &&& leads_inside(g, scc, u as int)
            &&& forall|b: int|
                0 <= b < a && leads_inside(g, scc, scc[b] as int) ==> component_in_degree(
                    g,
                    scc,
                    #[trigger] scc[b] as int,
                ) < component_in_degree(g, scc, u as int)
            &&& forall|b: int|
                a < b < scc.len() && leads_inside(g, scc, scc[b] as int) ==> component_in_degree(
                    g,
                    scc,
                    #[trigger] scc[b] as int,
                ) <= component_in_degree(g, scc, u as int)
        }
    &&& exists|j: int|
        #![trigger g[u as int][j]]
        {
            &&& 0 <= j < g[u as int].len()
            &&& g[u as int][j] == v
            &&& scc.contains(v)
            &&& forall|i: int| 0 <= i < j ==> !scc.contains(#[trigger] g[u as int][i])
        }
}

/// An edge joins the two vertices, in one direction or the other.
pub open spec fn joined(g: Seq<Seq<usize>>, a: int, b: int) -> bool {
    has_edge(g, a, b) || has_edge(g, b, a)
}

/// The two graphs join the same vertices.
pub open spec fn same_neighbours(g: Seq<Seq<usize>>, h: Seq<Seq<usize>>) -> bool {
    &&& g.len() == h.len()
    &&& forall|a: int, b: int|
        0 <= a < g.len() && 0 <= b < g.len() ==> #[trigger] joined(h, a, b) == joined(g, a, b)
}

/// The list without any copy of `v`.
pub open spec fn without(s: Seq<usize>, v: usize) -> Seq<usize>
    decreases s.len(),
{
    if s.len() == 0 {
        s
    } else if s.last() == v {
        without(s.drop_last(), v)
    } else {
        without(s.drop_last(), v).push(s.last())
    }
}

/// The graph with the edge from `u` to `v` turned round.
pub open spec fn reverse_edge(g: Seq<Seq<usize>>, u: usize, v: usize) -> Seq<Seq<usize>> {
    let cut = g.update(u as int, without(g[u as int], v));
    cut.update(v as int, cut[v as int].push(u))
}

/// `(u, v)` is the edge that the next reversal takes: the picked edge of the
/// first component with more than one member.
pub open spec fn next_reversal(g: Seq<Seq<usize>>, e: (usize, usize)) -> bool {
    exists|out: Seq<Seq<usize>>, c: int|
        #![trigger is_tarjan_output(g, out), out[c]]
        {
            &&& is_tarjan_output(g, out)
            &&& 0 <= c < out.len()
            &&& out[c].len() >= 2
            &&& forall|d: int| 0 <= d < c ==> (#[trigger] out[d]).len() < 2
            &&& picked(g, out[c], e.0, e.1)
        }
}

/// Every component is a single vertex.
pub open spec fn acyclic(g: Seq<Seq<usize>>) -> bool {
    forall|a: int, b: int|
        0 <= a < g.len() && 0 <= b < g.len() && #[trigger] mutual(g, a, b) ==> a == b
}

/// The graph after the given reversals, in order.
pub open spec fn replay(g: Seq<Seq<usize>>, reversed: Seq<(usize, usize)>) -> Seq<Seq<usize>>
    decreases reversed.len(),
{
    if reversed.len() == 0 {
        g
    } else {
        let (u, v) = reversed.last();
        reverse_edge(replay(g, reversed.drop_last()), u, v)
    }
}

/// Every reversal in the list is the one that the graph before it calls for.
pub open spec fn valid_reversals(g: Seq<Seq<usize>>, reversed: Seq<(usize, usize)>) -> bool {
    forall|t: int|
        0 <= t < reversed.len() ==> next_reversal(replay(g, reversed.take(t)), #[trigger] reversed[t])
}

/// Numbers on the vertices fall along every edge.
pub open spec fn falls_along(g: Seq<Seq<usize>>, rank: Seq<int>) -> bool {
    &&& rank.len() == g.len()
    &&& forall|u: int, j: int|
        0 <= u < g.len() && 0 <= j < g[u].len() ==> rank[#[trigger] g[u][j] as int] < rank[u]
}

/// The graph can be numbered so that edges go to smaller numbers.
pub open spec fn ranked(g: Seq<Seq<usize>>) -> bool {
    exists|rank: Seq<int>| #[trigger] falls_along(g, rank)
}

/// A graph with such a numbering has no cycle.
pub proof fn ranked_has_no_cycle(g: Seq<Seq<usize>>, u: int, v: int)
    requires
        ranked(g),
        graph_wf(g),
        has_edge(g, u, v),
    ensures
        !reach(edges(g), v, u),
{
    let rank = choose|rank: Seq<int>| #[trigger] falls_along(g, rank);
    if reach(edges(g), v, u) {
        let prop = |x: int| 0 <= x < g.len() && rank[x] < rank[u];
        let j0 = choose|j: int| 0 <= j < g[u].len() && #[trigger] g[u][j] == v;
        assert(rank[g[u][j0] as int] < rank[u]);
        assert(g[u][j0] < g.len());
        assert forall|x: int, y: int| prop(x) && #[trigger] edges(g)(x, y) implies prop(y) by {
            let j = choose|j: int| 0 <= j < g[x].len() && #[trigger] g[x][j] == y;
            assert(rank[g[x][j] as int] < rank[x]);
            assert(g[x][j] < g.len());
        }
        reach_preserves(edges(g), prop, v, u);
    }
}

/// A graph without cycles has such a numbering: the number of vertices that
/// each vertex reaches.
pub proof fn acyclic_is_ranked(g: Seq<Seq<usize>>)
    requires
        graph_wf(g),
        acyclic(g),
        no_loops(g),
    ensures
        ranked(g),
{
    let n = g.len();
    let rank = Seq::new(n, |u: int| count(reached_from(g, u), n as int) as int);
    assert forall|u: int, j: int| 0 <= u < g.len() && 0 <= j < g[u].len() implies rank[
        #[trigger] g[u][j] as int] < rank[u] by {
        let v = g[u][j] as int;
        assert(has_edge(g, u, v));
        reach_edge(edges(g), u, v);
        reach_refl(edges(g), u);
        if reach(edges(g), v, u) {
            assert(mutual(g, u, v));
        }
        let (p, q) = (reached_from(g, v), reached_from(g, u));
        assert forall|x: int| 0 <= x < n && #[trigger] p(x) implies q(x) by {
            reach_trans(edges(g), u, v, x);
        }
        count_lt(p, q, n as int, u);
    }
    assert(falls_along(g, rank));
}

/// The vertices that `u` reaches.
spec fn reached_from(g: Seq<Seq<usize>>, u: int) -> spec_fn(int) -> bool {
    |x: int| reach(edges(g), u, x)
}

/// What [`without`] keeps.
pub proof fn without_contains(s: Seq<usize>, v: usize, x: usize)
    ensures
        without(s, v).contains(x) <==> s.contains(x) && x != v,
        without(s, v).len() <= s.len(),
    decreases s.len(),
{
    if s.len() > 0 {
        let r = s.drop_last();
        without_contains(r, v, x);
        if r.contains(x) {
            let i = choose|i: int| 0 <= i < r.len() && r[i] == x;
            assert(s[i] == x);
        }
        if s.contains(x) {
            let i = choose|i: int| 0 <= i < s.len() && s[i] == x;
            if i < r.len() {
                assert(r[i] == x);
            }
        }
        let w = without(r, v);
        if s.last() != v {
            let p = w.push(s.last());
            if w.contains(x) {
                let i = choose|i: int| 0 <= i < w.len() && w[i] == x;
                assert(p[i] == x);
            }
            if x == s.last() {
                assert(p[w.len() as int] == x);
                assert(s[s.len() - 1] == x);
            }
            if p.contains(x) {
                let i = choose|i: int| 0 <= i < p.len() && p[i] == x;
                if i < w.len() {
                    assert(w[i] == x);
                } else {
                    assert(s[s.len() - 1] == x);
                }
            }
        }
    }
}

/// The edges of the graph after a reversal.
pub proof fn reverse_edge_edges(g: Seq<Seq<usize>>, u: usize, v: usize, a: int, b: int)
    requires
        u < g.len(),
        v < g.len(),
        u != v,
        0 <= b <= usize::MAX,
    ensures
        has_edge(reverse_edge(g, u, v), a, b) <==> (has_edge(g, a, b) && !(a == u && b == v)) || (a
            == v && b == u),
{
    let h = reverse_edge(g, u, v);
    let bu = b as usize;
    if 0 <= a < g.len() {
        edge_is_contains(g, a, b);
        edge_is_contains(h, a, b);
        if a == u {
            without_contains(g[a], v, bu);
            assert(h[a] == without(g[a], v));
        } else if a == v {
            let s = g[a];
            assert(h[a] == s.push(u));
            if s.contains(bu) {
                let i = choose|i: int| 0 <= i < s.len() && s[i] == bu;
                assert(h[a][i] == bu);
            }
            if b == u {
                assert(h[a][s.len() as int] == bu);
            }
            if h[a].contains(bu) {
                let i = choose|i: int| 0 <= i < h[a].len() && h[a][i] == bu;
                if i < s.len() {
                    assert(s[i] == bu);
                }
            }
        } else {
            assert(h[a] == g[a]);
        }
    }
}

proof fn edge_is_contains(g: Seq<Seq<usize>>, a: int, b: int)
    requires
        0 <= a < g.len(),
        0 <= b <= usize::MAX,
    ensures
        has_edge(g, a, b) <==> g[a].contains(b as usize),
{
    if has_edge(g, a, b) {
        let j = choose|j: int| 0 <= j < g[a].len() && #[trigger] g[a][j] == b;
        assert(g[a][j] == b as usize);
    }
    if g[a].contains(b as usize) {
        let j = choose|j: int| 0 <= j < g[a].len() && g[a][j] == b as usize;
        assert(g[a][j] == b);
    }
}

/// Reversals keep the graph well formed and free of loops.
pub proof fn reverse_edge_wf(g: Seq<Seq<usize>>, u: usize, v: usize)
    requires
        graph_wf(g),
        no_loops(g),
        u < g.len(),
        v < g.len(),
        u != v,
        g[v as int].len() < usize::MAX,
    ensures
        graph_wf(reverse_edge(g, u, v)),
        no_loops(reverse_edge(g, u, v)),
{
    let h = reverse_edge(g, u, v);
    assert forall|a: int| 0 <= a < h.len() implies (#[trigger] h[a]).len() <= usize::MAX by {
        if a == u {
            without_contains(g[a], v, 0);
            assert(g[a].len() <= usize::MAX);
        } else if a == v {
            assert(h[a] == g[a].push(u));
        } else {
            assert(g[a].len() <= usize::MAX);
        }
    }
    assert forall|a: int, j: int| 0 <= a < h.len() && 0 <= j < h[a].len() implies (
    #[trigger] h[a][j]) < h.len() && h[a][j] != a by {
        let b = h[a][j] as int;
        assert(has_edge(h, a, b));
        reverse_edge_edges(g, u, v, a, b);
        if has_edge(g, a, b) {
            let i = choose|i: int| 0 <= i < g[a].len() && #[trigger] g[a][i] == b;
            assert(g[a][i] < g.len() && g[a][i] != a);
        }
    }
}

/// Reversing an edge inside a component connects no vertices that were not
/// connected before.
proof fn reversal_reach(g: Seq<Seq<usize>>, u: usize, v: usize, a: int, b: int)
    requires
        graph_wf(g),
        u < g.len(),
        v < g.len(),
        u != v,
        reach(edges(g), v as int, u as int),
        reach(edges(reverse_edge(g, u, v)), a, b),
        0 <= a < g.len(),
    ensures
        reach(edges(g), a, b),
{
    let h = reverse_edge(g, u, v);
    let prop = |x: int| 0 <= x < g.len() && reach(edges(g), a, x);
    reach_refl(edges(g), a);
    assert forall|x: int, y: int| prop(x) && #[trigger] edges(h)(x, y) implies prop(y) by {
        let j = choose|j: int| 0 <= j < h[x].len() && #[trigger] h[x][j] == y;
        reverse_edge_edges(g, u, v, x, y);
        if has_edge(g, x, y) {
            let i = choose|i: int| 0 <= i < g[x].len() && #[trigger] g[x][i] == y;
            assert(g[x][i] < g.len());
            assert(edges(g)(x, y));
            reach_edge(edges(g), x, y);
            reach_trans(edges(g), a, x, y);
        } else {
            reach_trans(edges(g), a, x, y);
        }
    }
    reach_preserves(edges(h), prop, a, b);
}

/// How many members of its own component lead to `x`.
spec fn in_degree(g: Seq<Seq<usize>>, x: int) -> nat {
    count(|i: int| mutual(g, i, x) && has_edge(g, i, x), g.len() as int)
}

/// The number of different edges.
spec fn edge_total(g: Seq<Seq<usize>>) -> int {
    sum(|a: int| count(|b: int| has_edge(g, a, b), g.len() as int) as int, g.len() as int)
}

/// The vertex is the smallest of its component.
spec fn leader(g: Seq<Seq<usize>>, i: int) -> bool {
    forall|j: int| 0 <= j < i ==> !#[trigger] mutual(g, i, j)
}

spec fn leader_total(g: Seq<Seq<usize>>) -> int {
    count(|i: int| leader(g, i), g.len() as int) as int
}

spec fn square(x: int) -> int {
    x * x
}

spec fn degree_squares(g: Seq<Seq<usize>>) -> int {
    sum(|x: int| square(in_degree(g, x) as int), g.len() as int)
}

spec fn cube(n: int) -> int {
    n * (n * n)
}

proof fn measure_bounds(g: Seq<Seq<usize>>)
    ensures
        0 <= edge_total(g),
        0 <= leader_total(g) <= g.len(),
        0 <= degree_squares(g) <= cube(g.len() as int),
{
    let n = g.len() as int;
    let f = |a: int| count(|b: int| has_edge(g, a, b), n) as int;
    assert forall|a: int| 0 <= a < n implies 0 <= #[trigger] f(a) <= n by {
        count_bound(|b: int| has_edge(g, a, b), n);
    }
    sum_bound(f, n, n);
    count_bound(|i: int| leader(g, i), n);
    let d = |x: int| square(in_degree(g, x) as int);
    assert forall|x: int| 0 <= x < n implies 0 <= #[trigger] d(x) <= n * n by {
        count_bound(|i: int| mutual(g, i, x) && has_edge(g, i, x), n);
        let k = in_degree(g, x) as int;
        assert(0 <= k * k <= n * n) by (nonlinear_arith)
            requires
                0 <= k <= n,
        ;
    }
    sum_bound(d, n, n * n);
}

/// Reversing an edge whose opposite exists removes an edge.
proof fn reversal_drops_edge(g: Seq<Seq<usize>>, u: usize, v: usize)
    requires
        graph_wf(g),
        u < g.len(),
        v < g.len(),
        u != v,
        has_edge(g, u as int, v as int),
        has_edge(g, v as int, u as int),
    ensures
        edge_total(reverse_edge(g, u, v)) == edge_total(g) - 1,
{
    let h = reverse_edge(g, u, v);
    let n = g.len() as int;
    let f = |a: int| count(|b: int| has_edge(g, a, b), n) as int;
    let k = |a: int| count(|b: int| has_edge(h, a, b), n) as int;
    assert forall|a: int| 0 <= a < n && a != u implies #[trigger] f(a) == k(a) by {
        let p = |b: int| has_edge(g, a, b);
        let q = |b: int| has_edge(h, a, b);
        assert forall|b: int| 0 <= b < n implies #[trigger] p(b) == q(b) by {
            reverse_edge_edges(g, u, v, a, b);
        }
        count_eq(p, q, n);
    }
    let p = |b: int| has_edge(g, u as int, b);
    let q = |b: int| has_edge(h, u as int, b);
    assert forall|b: int| 0 <= b < n && b != v implies #[trigger] q(b) == p(b) by {
        reverse_edge_edges(g, u, v, u as int, b);
    }
    reverse_edge_edges(g, u, v, u as int, v as int);
    count_insert(q, p, n, v as int);
    sum_one(f, k, n, u as int);
}

/// Reversing an edge whose opposite does not exist keeps the number of edges.
proof fn reversal_keeps_edges(g: Seq<Seq<usize>>, u: usize, v: usize)
    requires
        graph_wf(g),
        u < g.len(),
        v < g.len(),
        u != v,
        has_edge(g, u as int, v as int),
        !has_edge(g, v as int, u as int),
    ensures
        edge_total(reverse_edge(g, u, v)) == edge_total(g),
{
    let h = reverse_edge(g, u, v);
    let n = g.len() as int;
    let f = |a: int| count(|b: int| has_edge(g, a, b), n) as int;
    let k = |a: int| count(|b: int| has_edge(h, a, b), n) as int;
    assert forall|a: int| 0 <= a < n && a != u && a != v implies #[trigger] f(a) == k(a) by {
        let p = |b: int| has_edge(g, a, b);
        let q = |b: int| has_edge(h, a, b);
        assert forall|b: int| 0 <= b < n implies #[trigger] p(b) == q(b) by {
            reverse_edge_edges(g, u, v, a, b);
        }
        count_eq(p, q, n);
    }
    let p = |b: int| has_edge(g, u as int, b);
    let q = |b: int| has_edge(h, u as int, b);
    assert forall|b: int| 0 <= b < n && b != v implies #[trigger] q(b) == p(b) by {
        reverse_edge_edges(g, u, v, u as int, b);
    }
    reverse_edge_edges(g, u, v, u as int, v as int);
    count_insert(q, p, n, v as int);
    let p2 = |b: int| has_edge(g, v as int, b);
    let q2 = |b: int| has_edge(h, v as int, b);
    assert forall|b: int| 0 <= b < n && b != u implies #[trigger] p2(b) == q2(b) by {
        reverse_edge_edges(g, u, v, v as int, b);
    }
    reverse_edge_edges(g, u, v, v as int, u as int);
    count_insert(p2, q2, n, u as int);
    sum_two(f, k, n, u as int, v as int);
}

/// A reversal that keeps the number of edges splits a component or makes the
/// in-degrees more uneven.
proof fn reversal_progress(g: Seq<Seq<usize>>, u: usize, v: usize)
    requires
        graph_wf(g),
        u < g.len(),
        v < g.len(),
        u != v,
        mutual(g, u as int, v as int),
        has_edge(g, u as int, v as int),
        !has_edge(g, v as int, u as int),
        in_degree(g, v as int) <= in_degree(g, u as int),
    ensures
        ({
            let h = reverse_edge(g, u, v);
            leader_total(h) > leader_total(g) || leader_total(h) == leader_total(g)
                && degree_squares(h) > degree_squares(g)
        }),
{
    let h = reverse_edge(g, u, v);
    let n = g.len() as int;
    let lg = |i: int| leader(g, i);
    let lh = |i: int| leader(h, i);
    assert forall|a: int, b: int|
        0 <= a < n && 0 <= b < n && #[trigger] mutual(h, a, b) implies mutual(g, a, b) by {
        reversal_reach(g, u, v, a, b);
        reversal_reach(g, u, v, b, a);
    }
    assert forall|i: int| 0 <= i < n && #[trigger] lg(i) implies lh(i) by {
        assert forall|j: int| 0 <= j < i implies !#[trigger] mutual(h, i, j) by {
            assert(!mutual(g, i, j));
        }
    }
    count_le(lg, lh, n);
    if exists|a: int, b: int|
        0 <= a < n && 0 <= b < n && #[trigger] mutual(g, a, b) && !mutual(h, a, b) {
        let (a, b) = choose|a: int, b: int|
            0 <= a < n && 0 <= b < n && #[trigger] mutual(g, a, b) && !mutual(h, a, b);
        let i = split_leader(g, h, a, b);
        count_lt(lg, lh, n, i);
    } else {
        let f = |x: int| square(in_degree(g, x) as int);
        let k = |x: int| square(in_degree(h, x) as int);
        assert forall|a: int, b: int| 0 <= a < n && 0 <= b < n implies #[trigger] mutual(h, a, b)
            == mutual(g, a, b) by {}
        assert forall|x: int| 0 <= x < n && x != u && x != v implies #[trigger] f(x) == k(x) by {
            let p = |i: int| mutual(g, i, x) && has_edge(g, i, x);
            let q = |i: int| mutual(h, i, x) && has_edge(h, i, x);
            assert forall|i: int| 0 <= i < n implies #[trigger] p(i) == q(i) by {
                reverse_edge_edges(g, u, v, i, x);
                assert(mutual(h, i, x) == mutual(g, i, x));
            }
            count_eq(p, q, n);
        }
        let du = in_degree(g, u as int) as int;
        let dv = in_degree(g, v as int) as int;
        assert(in_degree(h, u as int) == du + 1) by {
            let p = |i: int| mutual(g, i, u as int) && has_edge(g, i, u as int);
            let q = |i: int| mutual(h, i, u as int) && has_edge(h, i, u as int);
            assert forall|i: int| 0 <= i < n && i != v implies #[trigger] p(i) == q(i) by {
                reverse_edge_edges(g, u, v, i, u as int);
                assert(mutual(h, i, u as int) == mutual(g, i, u as int));
            }
            reverse_edge_edges(g, u, v, v as int, u as int);
            assert(mutual(h, v as int, u as int) == mutual(g, v as int, u as int));
            count_insert(p, q, n, v as int);
        }
        assert(in_degree(h, v as int) == dv - 1) by {
            let p = |i: int| mutual(g, i, v as int) && has_edge(g, i, v as int);
            let q = |i: int| mutual(h, i, v as int) && has_edge(h, i, v as int);
            assert forall|i: int| 0 <= i < n && i != u implies #[trigger] q(i) == p(i) by {
                reverse_edge_edges(g, u, v, i, v as int);
                assert(mutual(h, i, v as int) == mutual(g, i, v as int));
            }
            reverse_edge_edges(g, u, v, u as int, v as int);
            count_insert(q, p, n, u as int);
        }
        sum_two(f, k, n, u as int, v as int);
        assert((du + 1) * (du + 1) - du * du + (dv - 1) * (dv - 1) - dv * dv > 0)
            by (nonlinear_arith)
            requires
                dv <= du,
        ;
        assert(lg =~= lh || true);
        if leader_total(h) != leader_total(g) {
            assert(leader_total(h) > leader_total(g));
        }
    }
}

/// Where a component splits, some vertex becomes the smallest of its own.
proof fn split_leader(g: Seq<Seq<usize>>, h: Seq<Seq<usize>>, a: int, b: int) -> (i: int)
    requires
        h.len() == g.len(),
        0 <= a < g.len(),
        0 <= b < g.len(),
        mutual(g, a, b),
        !mutual(h, a, b),
        forall|x: int, y: int|
            0 <= x < g.len() && 0 <= y < g.len() && #[trigger] mutual(h, x, y) ==> mutual(g, x, y),
    ensures
        0 <= i < g.len(),
        leader(h, i),
        !leader(g, i),
{
    let la = smallest(h, a);
    let lb = smallest(h, b);
    mutual_trans(h, a, la, b);
    mutual_trans(h, la, b, b);
    mutual_trans(g, la, a, b);
    mutual_trans(g, la, b, lb);
    mutual_trans(g, lb, b, a);
    mutual_trans(g, lb, a, la);
    assert(mutual(h, a, la) && mutual(h, b, lb));
    assert(mutual(g, a, la) && mutual(g, b, lb));
    assert(mutual(g, la, lb));
    assert(mutual(g, lb, la));
    if la == lb {
        mutual_trans(h, a, la, b);
        assert(false);
    }
    if la < lb {
        assert(mutual(g, lb, la));
        lb
    } else {
        assert(mutual(g, la, lb));
        la
    }
}

/// Being in one component is symmetric and transitive.
pub proof fn mutual_trans(g: Seq<Seq<usize>>, a: int, b: int, c: int)
    ensures
        mutual(g, a, a),
        mutual(g, a, b) ==> mutual(g, b, a),
        mutual(g, a, b) && mutual(g, b, c) ==> mutual(g, a, c),
{
    reach_refl(edges(g), a);
    if mutual(g, a, b) && mutual(g, b, c) {
        reach_trans(edges(g), a, b, c);
        reach_trans(edges(g), c, b, a);
    }
}

proof fn smallest(g: Seq<Seq<usize>>, a: int) -> (l: int)
    requires
        0 <= a,
    ensures
        0 <= l <= a,
        mutual(g, a, l),
        mutual(g, l, a),
        leader(g, l),
    decreases a,
{
    mutual_trans(g, a, a, a);
    if leader(g, a) {
        a
    } else {
        let j = choose|j: int| 0 <= j < a && #[trigger] mutual(g, a, j);
        let l = smallest(g, j);
        mutual_trans(g, a, j, l);
        mutual_trans(g, l, j, a);
        l
    }
}

/// Whether the list holds `x`.
pub fn list_contains(list: &Vec<usize>, x: usize) -> (r: bool)
    ensures
        r == list@.contains(x),
{
    let mut i: usize = 0;
    while i < list.len()
        invariant
            i <= list@.len(),
            forall|j: int| 0 <= j < i ==> #[trigger] list@[j] != x,
        decreases list@.len() - i,
    {
        if list[i] == x {
            assert(list@[i as int] == x);
            return true;
        }
        i = i + 1;
    }
    false
}

/// The list without any copy of `v`.
pub fn list_without(list: &Vec<usize>, v: usize) -> (r: Vec<usize>)
    ensures
        r@ == without(list@, v),
{
    let mut r: Vec<usize> = Vec::new();
    let mut i: usize = 0;
    while i < list.len()
        invariant
            i <= list@.len(),
            r@ == without(list@.take(i as int), v),
        decreases list@.len() - i,
    {
        proof {
            let t = list@.take(i + 1);
            assert(t.drop_last() =~= list@.take(i as int));
            assert(t.last() == list@[i as int]);
        }
        if list[i] != v {
            r.push(list[i]);
        }
        i = i + 1;
    }
    assert(list@.take(list@.len() as int) =~= list@);
    r
}

/// Marks the members of a component.
fn member_marks(scc: &Vec<usize>, n: usize) -> (r: Vec<bool>)
    requires
        forall|i: int| 0 <= i < scc@.len() ==> (#[trigger] scc@[i]) < n,
    ensures
        r@.len() == n,
        forall|x: int| 0 <= x < n ==> #[trigger] r@[x] == scc@.contains(x as usize),
{
    let mut r: Vec<bool> = Vec::new();
    let mut x: usize = 0;
    while x < n
        invariant
            x <= n,
            r@.len() == x,
            forall|y: int| 0 <= y < x ==> #[trigger] r@[y] == scc@.contains(y as usize),
        decreases n - x,
    {
        r.push(list_contains(scc, x));
        x = x + 1;
    }
    r
}

/// How many members of the component lead to `u`.
fn in_degree_inside(adj: &Vec<Vec<usize>>, scc: &Vec<usize>, marks: &Vec<bool>, u: usize) -> (r: usize)
    requires
        marks@.len() == adj@.len(),
        forall|x: int| 0 <= x < adj@.len() ==> #[trigger] marks@[x] == scc@.contains(x as usize),
    ensures
        r == component_in_degree(lists(adj@), scc@, u as int),
{
    let ghost g = lists(adj@);
    let ghost p = |i: int| scc@.contains(i as usize) && has_edge(g, i, u as int);
    let mut r: usize = 0;
    let mut i: usize = 0;
    while i < adj.len()
        invariant
            g == lists(adj@),
            p == (|i: int| scc@.contains(i as usize) && has_edge(g, i, u as int)),
            marks@.len() == adj@.len(),
            forall|x: int|
                0 <= x < adj@.len() ==> #[trigger] marks@[x] == scc@.contains(x as usize),
            i <= adj@.len(),
            r <= i,
            r == count(p, i as int),
        decreases adj@.len() - i,
    {
        proof {
            edge_is_contains(g, i as int, u as int);
            assert(marks@[i as int] == scc@.contains(i as usize));
        }
        if marks[i] && list_contains(&adj[i], u) {
            r = r + 1;
        }
        i = i + 1;
    }
    r
}

/// The first successor of `u` that is in the component.
fn first_inside(adj: &Vec<Vec<usize>>, scc: &Vec<usize>, marks: &Vec<bool>, u: usize) -> (r: Option<usize>)
    requires
        u < adj@.len(),
        graph_wf(lists(adj@)),
        marks@.len() == adj@.len(),
        forall|x: int| 0 <= x < adj@.len() ==> #[trigger] marks@[x] == scc@.contains(x as usize),
    ensures
        match r {
            Some(v) => leads_inside(lists(adj@), scc@, u as int) && exists|j: int|
                #![trigger lists(adj@)[u as int][j]]
                {
                    &&& 0 <= j < lists(adj@)[u as int].len()
                    &&& lists(adj@)[u as int][j] == v
                    &&& scc@.contains(v)
                    &&& forall|i: int|
                        0 <= i < j ==> !scc@.contains(#[trigger] lists(adj@)[u as int][i])
                },
            None => !leads_inside(lists(adj@), scc@, u as int),
        },
{
    let ghost g = lists(adj@);
    let mut j: usize = 0;
    while j < adj[u].len()
        invariant
            u < adj@.len(),
            g == lists(adj@),
            graph_wf(g),
            marks@.len() == adj@.len(),
            forall|x: int|
                0 <= x < adj@.len() ==> #[trigger] marks@[x] == scc@.contains(x as usize),
            j <= adj@[u as int]@.len(),
            forall|i: int| 0 <= i < j ==> !scc@.contains(#[trigger] g[u as int][i]),
        decreases adj@[u as int]@.len() - j,
    {
        let v: usize = adj[u][j];
        assert(g[u as int][j as int] == v);
        assert(marks@[v as int] == scc@.contains(v as int as usize));
        if marks[v] {
            return Some(v);
        }
        j = j + 1;
    }
    None
}

/// The member at `c` leads the members before `a`.
spec fn best_member(g: Seq<Seq<usize>>, scc: Seq<usize>, a: int, c: int) -> bool {
    &&& 0 <= c < a
    &&& leads_inside(g, scc, scc[c] as int)
    &&& forall|b: int|
        0 <= b < c && leads_inside(g, scc, scc[b] as int) ==> component_in_degree(
            g,
            scc,
            #[trigger] scc[b] as int,
        ) < component_in_degree(g, scc, scc[c] as int)
    &&& forall|b: int|
        c < b < a && leads_inside(g, scc, scc[b] as int) ==> component_in_degree(
            g,
            scc,
            #[trigger] scc[b] as int,
        ) <= component_in_degree(g, scc, scc[c] as int)
}

/// `v` is the first successor of `u` in the component.
spec fn first_successor(g: Seq<Seq<usize>>, scc: Seq<usize>, u: usize, v: usize) -> bool {
    exists|j: int|
        #![trigger g[u as int][j]]
        {
            &&& 0 <= j < g[u as int].len()
            &&& g[u as int][j] == v
            &&& scc.contains(v)
            &&& forall|i: int| 0 <= i < j ==> !scc.contains(#[trigger] g[u as int][i])
        }
}

/// The edge of the component to reverse.
fn pick_edge(adj: &Vec<Vec<usize>>, scc: &Vec<usize>) -> (r: Option<(usize, usize)>)
    requires
        graph_wf(lists(adj@)),
        forall|i: int| 0 <= i < scc@.len() ==> (#[trigger] scc@[i]) < adj@.len(),
    ensures
        match r {
            Some((u, v)) => picked(lists(adj@), scc@, u, v),
            None => forall|b: int|
                0 <= b < scc@.len() ==> !leads_inside(lists(adj@), scc@, #[trigger] scc@[b] as int),
        },
{
    let ghost g = lists(adj@);
    let marks: Vec<bool> = member_marks(scc, adj.len());
    let mut best: Option<(usize, usize, usize)> = None;
    let ghost mut at: int = 0;
    let mut a: usize = 0;
    while a < scc.len()
        invariant
            g == lists(adj@),
            graph_wf(g),
            forall|i: int| 0 <= i < scc@.len() ==> (#[trigger] scc@[i]) < adj@.len(),
            marks@.len() == adj@.len(),
            forall|x: int|
                0 <= x < adj@.len() ==> #[trigger] marks@[x] == scc@.contains(x as usize),
            a <= scc@.len(),
            best is None ==> forall|b: int|
                0 <= b < a ==> !leads_inside(g, scc@, #[trigger] scc@[b] as int),
            best matches Some((u, v, d)) ==> best_member(g, scc@, a as int, at) && scc@[at] == u && d
                == component_in_degree(g, scc@, u as int) && first_successor(g, scc@, u, v),
        decreases scc@.len() - a,
    {
        let u: usize = scc[a];
        let d: usize = in_degree_inside(adj, scc, &marks, u);
        let first: Option<usize> = first_inside(adj, scc, &marks, u);
        match first {
            Some(v) => {
                assert(first_successor(g, scc@, u, v));
                let better = match best {
                    None => true,
                    Some((_, _, s)) => d > s,
                };
                if better {
                    proof {
                        assert forall|b: int|
                            0 <= b < a && leads_inside(
                                g,
                                scc@,
                                scc@[b] as int,
                            ) implies component_in_degree(g, scc@, #[trigger] scc@[b] as int)
                            < component_in_degree(g, scc@, scc@[a as int] as int) by {}
                        at = a as int;
                    }
                    best = Some((u, v, d));
                }
            },
            None => {},
        }
        a = a + 1;
    }
    match best {
        Some((u, v, _)) => {
            assert(scc@[at] == u);
            Some((u, v))
        },
        None => None,
    }
}

/// A member of a component with two members leads to a member.
proof fn member_leads_inside(g: Seq<Seq<usize>>, out: Seq<Seq<usize>>, c: int, i: int)
    requires
        graph_wf(g),
        components(g, out),
        0 <= c < out.len(),
        out[c].len() >= 2,
        0 <= i < out[c].len(),
    ensures
        leads_inside(g, out[c], out[c][i] as int),
{
    let scc = out[c];
    let rel = edges(g);
    let k: int = if i == 0 {
        1
    } else {
        0
    };
    let a = scc[i] as int;
    let b = scc[k] as int;
    assert(out[c][k] == b && out[c][k] < g.len());
    assert(scc.contains(b as usize));
    assert(mutual(g, out[c][i] as int, b));
    assert(a != b) by {
        assert(scc.no_duplicates());
    }
    let p = choose|p: Seq<int>|
        #[trigger] crate::graph::is_path(rel, p) && p[0] == a && p.last() == b;
    assert(p.len() >= 2);
    assert(rel(p[0], p[0int + 1]));
    let x = p[1];
    let j = choose|j: int| 0 <= j < g[a].len() && #[trigger] g[a][j] == x;
    assert(g[a][j] < g.len());
    reach_edge(rel, a, x);
    let q = p.skip(1);
    assert forall|t: int| 0 <= t < q.len() - 1 implies rel(#[trigger] q[t], q[t + 1]) by {
        assert(rel(p[t + 1], p[t + 1 + 1]));
    }
    assert(crate::graph::is_path(rel, q));
    assert(q[0] == x && q.last() == b);
    assert(reach(rel, x, b));
    reach_trans(rel, x, b, a);
    assert(mutual(g, out[c][i] as int, x));
    assert(scc.contains(x as usize));
    assert(scc.contains(g[a][j]));
}

/// For a member of a component, the in-degree within the list is the
/// in-degree within the component.
proof fn degrees_agree(g: Seq<Seq<usize>>, out: Seq<Seq<usize>>, c: int, i: int)
    requires
        graph_wf(g),
        components(g, out),
        0 <= c < out.len(),
        0 <= i < out[c].len(),
    ensures
        component_in_degree(g, out[c], out[c][i] as int) == in_degree(g, out[c][i] as int),
{
    let x = out[c][i] as int;
    let p = |k: int| out[c].contains(k as usize) && has_edge(g, k, x);
    let q = |k: int| mutual(g, k, x) && has_edge(g, k, x);
    assert forall|k: int| 0 <= k < g.len() implies #[trigger] p(k) == q(k) by {
        assert(mutual(g, out[c][i] as int, k) <==> out[c].contains(k as usize));
        mutual_trans(g, x, k, k);
        mutual_trans(g, k, x, x);
    }
    count_eq(p, q, g.len() as int);
}

/// What is known of the picked edge of a component.
proof fn picked_edge_facts(
    g: Seq<Seq<usize>>,
    out: Seq<Seq<usize>>,
    c: int,
    u: usize,
    v: usize,
)
    requires
        graph_wf(g),
        no_loops(g),
        components(g, out),
        0 <= c < out.len(),
        out[c].len() >= 2,
        picked(g, out[c], u, v),
    ensures
        u < g.len(),
        v < g.len(),
        u != v,
        mutual(g, u as int, v as int),
        has_edge(g, u as int, v as int),
        in_degree(g, v as int) <= in_degree(g, u as int),
{
    let scc = out[c];
    let a = choose|a: int|
        #![trigger scc[a]]
        {
            &&& 0 <= a < scc.len()
            &&& scc[a] == u
            &&& leads_inside(g, scc, u as int)
            &&& forall|b: int|
                0 <= b < a && leads_inside(g, scc, scc[b] as int) ==> component_in_degree(
                    g,
                    scc,
                    #[trigger] scc[b] as int,
                ) < component_in_degree(g, scc, u as int)
            &&& forall|b: int|
                a < b < scc.len() && leads_inside(g, scc, scc[b] as int) ==> component_in_degree(
                    g,
                    scc,
                    #[trigger] scc[b] as int,
                ) <= component_in_degree(g, scc, u as int)
        };
    assert(out[c][a] == u);
    let j = choose|j: int|
        #![trigger g[u as int][j]]
        {
            &&& 0 <= j < g[u as int].len()
            &&& g[u as int][j] == v
            &&& scc.contains(v)
            &&& forall|i: int| 0 <= i < j ==> !scc.contains(#[trigger] g[u as int][i])
        };
    assert(g[u as int][j] < g.len() && g[u as int][j] != u);
    assert(mutual(g, out[c][a] as int, v as int) <==> out[c].contains(v as int as usize));
    let b = choose|b: int| 0 <= b < scc.len() && scc[b] == v;
    assert(out[c][b] == v);
    member_leads_inside(g, out, c, b);
    degrees_agree(g, out, c, a);
    degrees_agree(g, out, c, b);
}

/// Single-vertex components, each after those its edges lead to, number the
/// graph.
proof fn singletons_rank(g: Seq<Seq<usize>>, out: Seq<Seq<usize>>)
    requires
        graph_wf(g),
        no_loops(g),
        components(g, out),
        covers(out, g.len()),
        forall|c: int| 0 <= c < out.len() ==> (#[trigger] out[c]).len() < 2,
    ensures
        ranked(g),
        acyclic(g),
{
    let rank = Seq::new(
        g.len(),
        |v: int| choose|c: int| 0 <= c < out.len() && #[trigger] out[c].contains(v as usize),
    );
    assert forall|v: int| 0 <= v < g.len() implies 0 <= #[trigger] rank[v] < out.len()
        && out[rank[v]].contains(v as usize) by {
        assert(in_some(out, out.len() as int, v as usize));
    }
    assert forall|u: int, j: int| 0 <= u < g.len() && 0 <= j < g[u].len() implies rank[#[trigger] g[u][j] as int]
        < rank[u] by {
        let c = rank[u];
        assert(out[c].contains(u as usize));
        assert(out[c].len() == 1);
        let i = choose|i: int| 0 <= i < out[c].len() && out[c][i] == u as usize;
        assert(out[c][i] as int == u);
        let z = g[u][j];
        assert(g[out[c][i] as int][j] == z);
        assert(in_some(out, c + 1, z));
        let d = choose|d: int| 0 <= d < c + 1 && #[trigger] out[d].contains(z);
        assert(z < g.len() && z != u);
        assert(d != c);
        let e = rank[z as int];
        assert(out[e].contains(z as int as usize));
        if e != d {
            let k = choose|k: int| 0 <= k < out[d].len() && out[d][k] == z;
            assert(!out[e].contains(out[d][k]));
        }
    }
    assert(falls_along(g, rank));
    assert forall|a: int, b: int|
        0 <= a < g.len() && 0 <= b < g.len() && #[trigger] mutual(g, a, b) implies a == b by {
        let c = rank[a];
        assert(out[c].contains(a as usize));
        let i = choose|i: int| 0 <= i < out[c].len() && out[c][i] == a as usize;
        assert(mutual(g, out[c][i] as int, b) <==> out[c].contains(b as usize));
        let k = choose|k: int| 0 <= k < out[c].len() && out[c][k] == b as usize;
        assert(i == k);
    }
}

/// Repeatedly reverses the picked edge of the first component with more than
/// one member, until every component is a single vertex. Returns the graph and
/// the reversed edges in order.
#[verifier::rlimit(40)]
pub fn break_cycles(adj: Vec<Vec<usize>>) -> (r: (Vec<Vec<usize>>, Vec<(usize, usize)>))
    requires
        graph_wf(lists(adj@)),
        no_loops(lists(adj@)),
    ensures
        lists(r.0@) == replay(lists(adj@), r.1@),
        valid_reversals(lists(adj@), r.1@),
        acyclic(lists(r.0@)),
        ranked(lists(r.0@)),
        graph_wf(lists(r.0@)),
        no_loops(lists(r.0@)),
        same_neighbours(lists(adj@), lists(r.0@)),
{
    let ghost g0 = lists(adj@);
    let mut adj = adj;
    let mut reversed: Vec<(usize, usize)> = Vec::new();
    let mut found = true;
    while found
        invariant
            lists(adj@) == replay(g0, reversed@),
            valid_reversals(g0, reversed@),
            graph_wf(lists(adj@)),
            no_loops(lists(adj@)),
            same_neighbours(g0, lists(adj@)),
            !found ==> acyclic(lists(adj@)) && ranked(lists(adj@)),
        decreases
            edge_total(lists(adj@)),
            adj@.len() - leader_total(lists(adj@)),
            cube(adj@.len() as int) - degree_squares(lists(adj@)),
            (if found {
                1int
            } else {
                0
            }),
    {
        let sccs: Vec<Vec<usize>> = tarjan_sccs(&adj);
        let ghost g = lists(adj@);
        let ghost out = lists(sccs@);
        proof {
            measure_bounds(g);
        }
        found = false;
        let mut c: usize = 0;
        while c < sccs.len() && sccs[c].len() < 2
            invariant
                out == lists(sccs@),
                c <= sccs@.len(),
                forall|d: int| 0 <= d < c ==> (#[trigger] out[d]).len() < 2,
            decreases sccs@.len() - c,
        {
            assert(out[c as int].len() < 2);
            c = c + 1;
        }
        if c < sccs.len() {
            let ghost scc = out[c as int];
            assert(sccs@[c as int]@ == scc);
            assert forall|i: int| 0 <= i < scc.len() implies (#[trigger] scc[i]) < adj@.len() by {
                assert(out[c as int][i] < g.len());
            }
            match pick_edge(&adj, &sccs[c]) {
                Some((u, v)) => {
                    found = true;
                    proof {
                        picked_edge_facts(g, out, c as int, u, v);
                        assert(is_tarjan_output(g, out) && picked(g, out[c as int], u, v));
                        assert(next_reversal(g, (u, v)));
                        if has_edge(g, v as int, u as int) {
                            reversal_drops_edge(g, u, v);
                        } else {
                            reversal_keeps_edges(g, u, v);
                            reversal_progress(g, u, v);
                        }
                        measure_bounds(reverse_edge(g, u, v));
                    }
                    let kept: Vec<usize> = list_without(&adj[u], v);
                    adj.set(u, kept);
                    let ghost cut = lists(adj@);
                    assert(cut =~= g.update(u as int, without(g[u as int], v)));
                    adj[v].push(u);
                    let ghost before = reversed@;
                    reversed.push((u, v));
                    let total: usize = adj[v].len();
                    proof {
                        let h = lists(adj@);
                        assert(h =~= reverse_edge(g, u, v));
                        assert(h[v as int].len() == total);
                        assert(h[v as int].len() == g[v as int].len() + 1);
                        reverse_edge_wf(g, u, v);
                        assert forall|a: int, b: int|
                            0 <= a < g0.len() && 0 <= b < g0.len() implies #[trigger] joined(h, a, b)
                            == joined(g0, a, b) by {
                            reverse_edge_edges(g, u, v, a, b);
                            reverse_edge_edges(g, u, v, b, a);
                            assert(joined(g, a, b) == joined(g0, a, b));
                        }
                        assert(reversed@.drop_last() =~= before);
                        assert(reversed@.last() == (u, v));
                        assert forall|t: int| 0 <= t < reversed@.len() implies next_reversal(
                            replay(g0, reversed@.take(t)),
                            #[trigger] reversed@[t],
                        ) by {
                            if t < before.len() {
                                assert(reversed@.take(t) =~= before.take(t));
                                assert(before[t] == reversed@[t]);
                            } else {
                                assert(reversed@.take(t) =~= before);
                            }
                        }
                    }
                },
                None => {
                    proof {
                        member_leads_inside(g, out, c as int, 0);
                        assert(!leads_inside(g, scc, scc[0] as int));
                    }
                },
            }
        } else {
            proof {
                singletons_rank(g, out);
            }
        }
    }
    (adj, reversed)
}

} // verus!
