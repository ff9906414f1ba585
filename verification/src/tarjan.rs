//! Strongly connected components by Tarjan's algorithm with an explicit call
//! stack.
//!
//! The algorithm is stated as a step function on its state. The executable
//! loop takes those steps, and the invariant of the steps shows that the
//! components it reports are exactly the strongly connected components, each
//! after the components its edges lead to.

use vstd::prelude::*;

#[allow(unused_imports)]
use crate::graph::{reach, reach_edge, reach_preserves, reach_refl, reach_step, reach_trans};

verus! {

/// Every successor is a vertex.
pub open spec fn graph_wf(g: Seq<Seq<usize>>) -> bool {
    &&& g.len() <= usize::MAX
    &&& forall|u: int| 0 <= u < g.len() ==> (#[trigger] g[u]).len() <= usize::MAX
    &&& forall|u: int, j: int|
        0 <= u < g.len() && 0 <= j < g[u].len() ==> #[trigger] g[u][j] < g.len()
}

/// The successor lists of an executable graph.
pub open spec fn lists(adj: Seq<Vec<usize>>) -> Seq<Seq<usize>> {
    Seq::new(adj.len(), |u: int| adj[u]@)
}

/// `v` is a successor of `u`.
pub open spec fn has_edge(g: Seq<Seq<usize>>, u: int, v: int) -> bool {
    &&& 0 <= u < g.len()
    &&& exists|j: int| 0 <= j < g[u].len() && #[trigger] g[u][j] == v
}

/// [`has_edge`] as a relation.
pub open spec fn edges(g: Seq<Seq<usize>>) -> spec_fn(int, int) -> bool {
    |u: int, v: int| has_edge(g, u, v)
}

/// Each vertex reaches the other.
pub open spec fn mutual(g: Seq<Seq<usize>>, a: int, b: int) -> bool {
    reach(edges(g), a, b) && reach(edges(g), b, a)
}

/// The state of the search.
pub struct Search {
    /// The next vertex to start from.
    pub start: usize,
    /// The number of vertices visited.
    pub counter: usize,
    /// Visited vertices whose component is still open, in order of visit.
    pub stack: Seq<usize>,
    pub on: Seq<bool>,
    /// Order of visit.
    pub idx: Seq<Option<usize>>,
    pub low: Seq<usize>,
    /// Active vertices, each with the number of its successors looked at.
    pub call: Seq<(usize, usize)>,
    /// Closed components.
    pub out: Seq<Seq<usize>>,
}

/// The state before the first step.
pub open spec fn initial(n: nat) -> Search {
    Search {
        start: 0,
        counter: 0,
        stack: Seq::empty(),
        on: Seq::new(n, |i: int| false),
        idx: Seq::new(n, |i: int| None),
        low: Seq::new(n, |i: int| 0usize),
        call: Seq::empty(),
        out: Seq::empty(),
    }
}

/// Visits `w`.
pub open spec fn visit(s: Search, w: usize) -> Search {
    Search {
        start: s.start,
        counter: (s.counter + 1) as usize,
        stack: s.stack.push(w),
        on: s.on.update(w as int, true),
        idx: s.idx.update(w as int, Some(s.counter)),
        low: s.low.update(w as int, s.counter),
        call: s.call.push((w, 0)),
        out: s.out,
    }
}

/// Pops the stack down to and including `v`: what is left, and what was
/// popped in the order of the pops.
pub open spec fn pop_to(stack: Seq<usize>, v: usize) -> (Seq<usize>, Seq<usize>)
    decreases stack.len(),
{
    if stack.len() == 0 {
        (stack, Seq::empty())
    } else if stack.last() == v {
        (stack.drop_last(), seq![v])
    } else {
        let (rest, popped) = pop_to(stack.drop_last(), v);
        (rest, seq![stack.last()] + popped)
    }
}

/// `min`.
pub open spec fn min_usize(a: usize, b: usize) -> usize {
    if a <= b {
        a
    } else {
        b
    }
}

/// Leaves the active vertex `v`, all of whose successors were looked at: its
/// low link passes to its parent, and if it is the root of a component the
/// component is closed.
pub open spec fn leave(s: Search, v: usize) -> Search {
    let call = s.call.drop_last();
    let low = if call.len() > 0 {
        let p = call.last().0 as int;
        s.low.update(p, min_usize(s.low[p], s.low[v as int]))
    } else {
        s.low
    };
    if Some(s.low[v as int]) == s.idx[v as int] {
        let (rest, scc) = pop_to(s.stack, v);
        Search {
            stack: rest,
            on: Seq::new(s.on.len(), |x: int| s.on[x] && !scc.contains(x as usize)),
            low,
            call,
            out: s.out.push(scc),
            ..s
        }
    } else {
        Search { low, call, ..s }
    }
}

/// One step of the search.
pub open spec fn step(g: Seq<Seq<usize>>, s: Search) -> Search {
    if s.call.len() == 0 {
        if s.start >= g.len() {
            s
        } else if s.idx[s.start as int] is Some {
            Search { start: (s.start + 1) as usize, ..s }
        } else {
            visit(s, s.start)
        }
    } else {
        let (v, k) = s.call.last();
        if k < g[v as int].len() {
            let w = g[v as int][k as int];
            let s1 = Search {
                call: s.call.update(s.call.len() - 1, (v, (k + 1) as usize)),
                ..s
            };
            if s.idx[w as int] is None {
                visit(s1, w)
            } else if s.on[w as int] {
                Search {
                    low: s.low.update(
                        v as int,
                        min_usize(s.low[v as int], s.idx[w as int]->0),
                    ),
                    ..s1
                }
            } else {
                s1
            }
        } else {
            leave(s, v)
        }
    }
}

/// The search is over.
pub open spec fn finished(g: Seq<Seq<usize>>, s: Search) -> bool {
    s.call.len() == 0 && s.start >= g.len()
}

/// The state after `k` steps.
pub open spec fn after(g: Seq<Seq<usize>>, k: nat) -> Search
    decreases k,
{
    if k == 0 {
        initial(g.len())
    } else {
        step(g, after(g, (k - 1) as nat))
    }
}

/// The components in the order in which the search closes them.
pub open spec fn is_tarjan_output(g: Seq<Seq<usize>>, out: Seq<Seq<usize>>) -> bool {
    exists|k: nat| finished(g, #[trigger] after(g, k)) && out == after(g, k).out
}

proof fn after_stays(g: Seq<Seq<usize>>, k: nat, m: nat)
    requires
        finished(g, after(g, k)),
        k <= m,
    ensures
        after(g, m) == after(g, k),
    decreases m,
{
    if k < m {
        after_stays(g, k, (m - 1) as nat);
    }
}

/// The search has one output.
pub proof fn tarjan_output_unique(g: Seq<Seq<usize>>, a: Seq<Seq<usize>>, b: Seq<Seq<usize>>)
    requires
        is_tarjan_output(g, a),
        is_tarjan_output(g, b),
    ensures
        a == b,
{
    let k = choose|k: nat| finished(g, #[trigger] after(g, k)) && a == after(g, k).out;
    let m = choose|m: nat| finished(g, #[trigger] after(g, m)) && b == after(g, m).out;
    if k <= m {
        after_stays(g, k, m);
    } else {
        after_stays(g, m, k);
    }
}

/// The number of visited vertices below `n`.
spec fn visited_count(idx: Seq<Option<usize>>, n: int) -> nat
    decreases n,
{
    if n <= 0 {
        0
    } else {
        visited_count(idx, n - 1) + (if idx[n - 1] is Some {
            1nat
        } else {
            0nat
        })
    }
}

proof fn visited_count_bound(idx: Seq<Option<usize>>, n: int)
    requires
        0 <= n,
    ensures
        visited_count(idx, n) <= n,
    decreases n,
{
    if n > 0 {
        visited_count_bound(idx, n - 1);
    }
}

proof fn visited_count_gap(idx: Seq<Option<usize>>, n: int, w: int)
    requires
        0 <= w < n,
        idx[w] is None,
    ensures
        visited_count(idx, n) < n,
    decreases n,
{
    if w < n - 1 {
        visited_count_gap(idx, n - 1, w);
    } else {
        visited_count_bound(idx, n - 1);
    }
}

proof fn visited_count_update(idx: Seq<Option<usize>>, n: int, w: int, c: usize)
    requires
        0 <= w < idx.len(),
        0 <= n <= idx.len(),
        idx[w] is None,
    ensures
        visited_count(idx.update(w, Some(c)), n) == visited_count(idx, n) + (if w < n {
            1nat
        } else {
            0nat
        }),
    decreases n,
{
    if n > 0 {
        visited_count_update(idx, n - 1, w, c);
    }
}

/// The order of visit of a visited vertex.
pub open spec fn at(s: Search, v: int) -> int {
    s.idx[v]->0 as int
}

/// The vertex belongs to a closed component.
pub open spec fn closed_vertex(s: Search, v: int) -> bool {
    s.idx[v] is Some && !s.on[v]
}

#[verifier::opaque]
spec fn inv_shape(g: Seq<Seq<usize>>, s: Search) -> bool {
    &&& s.idx.len() == g.len()
    &&& s.low.len() == g.len()
    &&& s.on.len() == g.len()
    &&& s.counter == visited_count(s.idx, g.len() as int)
    &&& s.start <= g.len()
    &&& forall|v: int| 0 <= v < s.start ==> (#[trigger] s.idx[v]) is Some
    &&& forall|v: int|
        0 <= v < g.len() && (#[trigger] s.idx[v]) is Some ==> s.idx[v]->0 < s.counter
    &&& forall|v: int| 0 <= v < g.len() && #[trigger] s.on[v] ==> s.idx[v] is Some
}

#[verifier::opaque]
spec fn inv_stack(g: Seq<Seq<usize>>, s: Search) -> bool {
    &&& forall|p: int| 0 <= p < s.stack.len() ==> (#[trigger] s.stack[p]) < g.len() && s.on[s.stack[p] as int]
    &&& forall|p: int, q: int|
        0 <= p < q < s.stack.len() ==> at(s, #[trigger] s.stack[p] as int) < at(
            s,
            #[trigger] s.stack[q] as int,
        )
    &&& forall|v: int| 0 <= v < g.len() && #[trigger] s.on[v] ==> s.stack.contains(v as usize)
}

#[verifier::opaque]
spec fn inv_call(g: Seq<Seq<usize>>, s: Search) -> bool {
    &&& forall|f: int|
        0 <= f < s.call.len() ==> (#[trigger] s.call[f]).0 < g.len() && s.on[s.call[f].0 as int]
            && s.call[f].1 <= g[s.call[f].0 as int].len()
    &&& forall|f: int, h: int|
        0 <= f < h < s.call.len() ==> at(s, (#[trigger] s.call[f]).0 as int) < at(
            s,
            (#[trigger] s.call[h]).0 as int,
        )
    &&& s.call.len() == 0 ==> s.stack.len() == 0
    &&& s.call.len() > 0 ==> s.stack.len() > 0 && s.stack[0] == s.call[0].0
}

/// Active vertices reach everything visited after them that is still open.
#[verifier::opaque]
spec fn inv_down(g: Seq<Seq<usize>>, s: Search) -> bool {
    forall|f: int, y: int|
        #![trigger s.call[f], s.on[y]]
        0 <= f < s.call.len() && 0 <= y < g.len() && s.on[y] && at(s, s.call[f].0 as int) <= at(
            s,
            y,
        ) ==> reach(edges(g), s.call[f].0 as int, y)
}

spec fn reaches_active(g: Seq<Seq<usize>>, s: Search, y: int) -> bool {
    exists|f: int|
        0 <= f < s.call.len() && at(s, (#[trigger] s.call[f]).0 as int) <= at(s, y) && reach(
            edges(g),
            y,
            s.call[f].0 as int,
        )
}

/// Open vertices reach an active vertex visited no later than they were.
#[verifier::opaque]
spec fn inv_up(g: Seq<Seq<usize>>, s: Search) -> bool {
    forall|y: int| 0 <= y < g.len() && s.on[y] ==> #[trigger] reaches_active(g, s, y)
}

spec fn low_witness(g: Seq<Seq<usize>>, s: Search, v: int, z: int) -> bool {
    0 <= z < g.len() && s.on[z] && at(s, z) == s.low[v] && reach(edges(g), v, z)
}

/// The low link of an active vertex is the visit order of an open vertex that
/// it reaches.
#[verifier::opaque]
spec fn inv_low(g: Seq<Seq<usize>>, s: Search) -> bool {
    forall|f: int|
        0 <= f < s.call.len() ==> s.low[(#[trigger] s.call[f]).0 as int] <= at(
            s,
            s.call[f].0 as int,
        ) && exists|z: int| #[trigger] low_witness(g, s, s.call[f].0 as int, z)
}

/// The open vertex `y` was visited from the active vertex in frame `f` and
/// from none above it.
spec fn in_segment(s: Search, f: int, y: int) -> bool {
    &&& 0 <= f < s.call.len()
    &&& s.on[y]
    &&& at(s, s.call[f].0 as int) <= at(s, y)
    &&& f + 1 < s.call.len() ==> at(s, y) < at(s, s.call[f + 1].0 as int)
}

/// The successor `j` of `y`, in the segment of frame `f`, has been looked at.
spec fn looked_at(g: Seq<Seq<usize>>, s: Search, f: int, y: int, j: int) -> bool {
    0 <= j < g[y].len() && (y == s.call[f].0 ==> j < s.call[f].1)
}

/// The successors looked at from a segment are visited, and the low link of
/// the segment's active vertex is no later than those that are open.
#[verifier::opaque]
spec fn inv_edges(g: Seq<Seq<usize>>, s: Search) -> bool {
    forall|f: int, y: int, j: int|
        #![trigger in_segment(s, f, y), looked_at(g, s, f, y, j)]
        0 <= y < g.len() && in_segment(s, f, y) && looked_at(g, s, f, y, j)
            ==> s.idx[g[y][j] as int] is Some && (s.on[g[y][j] as int]
            ==> s.low[s.call[f].0 as int] <= at(s, g[y][j] as int))
}

/// Edges from closed vertices lead to closed vertices.
#[verifier::opaque]
spec fn inv_closed(g: Seq<Seq<usize>>, s: Search) -> bool {
    forall|y: int, j: int|
        0 <= y < g.len() && closed_vertex(s, y) && 0 <= j < g[y].len() ==> closed_vertex(
            s,
            #[trigger] g[y][j] as int,
        )
}

/// `out` lists strongly connected components, without repetition, each after
/// the components that its edges lead to.
pub open spec fn components(g: Seq<Seq<usize>>, out: Seq<Seq<usize>>) -> bool {
    &&& forall|c: int| 0 <= c < out.len() ==> (#[trigger] out[c]).len() > 0 && out[c].no_duplicates()
    &&& forall|c: int, i: int|
        0 <= c < out.len() && 0 <= i < out[c].len() ==> (#[trigger] out[c][i]) < g.len()
    &&& forall|c: int, i: int, b: int|
        #![trigger out[c][i], mutual(g, out[c][i] as int, b)]
        0 <= c < out.len() && 0 <= i < out[c].len() && 0 <= b < g.len() ==> (mutual(
            g,
            out[c][i] as int,
            b,
        ) <==> out[c].contains(b as usize))
    &&& forall|c: int, d: int, i: int|
        #![trigger out[c][i], out[d]]
        0 <= c < out.len() && 0 <= d < out.len() && c != d && 0 <= i < out[c].len()
            ==> !out[d].contains(out[c][i])
    &&& forall|c: int, i: int, j: int|
        #![trigger g[out[c][i] as int][j]]
        0 <= c < out.len() && 0 <= i < out[c].len() && 0 <= j < g[out[c][i] as int].len()
            ==> in_some(out, c + 1, g[out[c][i] as int][j])
}

/// One of the first `m` lists holds the vertex.
pub open spec fn in_some(out: Seq<Seq<usize>>, m: int, v: usize) -> bool {
    exists|d: int| 0 <= d < m && #[trigger] out[d].contains(v)
}

#[verifier::opaque]
spec fn inv_out(g: Seq<Seq<usize>>, s: Search) -> bool {
    &&& components(g, s.out)
    &&& forall|v: int|
        0 <= v < g.len() ==> (#[trigger] closed_vertex(s, v) <==> in_some(
            s.out,
            s.out.len() as int,
            v as usize,
        ))
}

/// What every step of the search preserves.
pub closed spec fn inv(g: Seq<Seq<usize>>, s: Search) -> bool {
    &&& graph_wf(g)
    &&& inv_shape(g, s)
    &&& inv_stack(g, s)
    &&& inv_call(g, s)
    &&& inv_down(g, s)
    &&& inv_up(g, s)
    &&& inv_low(g, s)
    &&& inv_edges(g, s)
    &&& inv_closed(g, s)
    &&& inv_out(g, s)
}

proof fn inv_initial(g: Seq<Seq<usize>>)
    requires
        graph_wf(g),
    ensures
        inv(g, initial(g.len())),
{
    let s = initial(g.len());
    visited_count_none(s.idx, g.len() as int);
    reveal(inv_shape);
    reveal(inv_stack);
    reveal(inv_call);
    reveal(inv_down);
    reveal(inv_up);
    reveal(inv_low);
    reveal(inv_edges);
    reveal(inv_closed);
    assert(inv_out(g, s)) by {
        reveal(inv_out);
        assert forall|v: int| 0 <= v < g.len() implies !(#[trigger] closed_vertex(s, v))
            && !in_some(s.out, s.out.len() as int, v as usize) by {}
    }
}

proof fn visited_count_none(idx: Seq<Option<usize>>, n: int)
    requires
        0 <= n <= idx.len(),
        forall|v: int| 0 <= v < n ==> (#[trigger] idx[v]) is None,
    ensures
        visited_count(idx, n) == 0,
    decreases n,
{
    if n > 0 {
        visited_count_none(idx, n - 1);
    }
}

/// The facts about order and activity that the proofs of a step use.
proof fn basics(g: Seq<Seq<usize>>, s: Search)
    requires
        inv(g, s),
    ensures
        s.idx.len() == g.len(),
        s.low.len() == g.len(),
        s.on.len() == g.len(),
        forall|v: int|
            0 <= v < g.len() && (#[trigger] s.idx[v]) is Some ==> s.idx[v]->0 < s.counter,
        forall|v: int| 0 <= v < g.len() && #[trigger] s.on[v] ==> s.idx[v] is Some,
        forall|f: int|
            0 <= f < s.call.len() ==> (#[trigger] s.call[f]).0 < g.len() && s.on[s.call[f].0 as int]
                && s.call[f].1 <= g[s.call[f].0 as int].len(),
        forall|f: int, h: int|
            0 <= f < h < s.call.len() ==> at(s, (#[trigger] s.call[f]).0 as int) < at(
                s,
                (#[trigger] s.call[h]).0 as int,
            ),
{
    reveal(inv_shape);
    reveal(inv_call);
}

/// Visiting a new vertex, either a start or a successor of the top active
/// vertex.
proof fn inv_visit(g: Seq<Seq<usize>>, s: Search, w: usize)
    requires
        inv(g, s),
        w < g.len(),
        s.idx[w as int] is None,
        s.call.len() > 0 ==> has_edge(g, s.call.last().0 as int, w as int),
    ensures
        s.counter < g.len(),
        inv(g, visit(s, w)),
{
    let t = visit(s, w);
    let rel = edges(g);
    basics(g, s);
    assert(!s.on[w as int]);
    assert(s.counter < g.len() && inv_shape(g, t)) by {
        reveal(inv_shape);
        visited_count_gap(s.idx, g.len() as int, w as int);
        visited_count_update(s.idx, g.len() as int, w as int, s.counter);
    }
    assert(inv_stack(g, t)) by {
        reveal(inv_stack);
        assert forall|v: int| 0 <= v < g.len() && #[trigger] t.on[v] implies t.stack.contains(
            v as usize,
        ) by {
            if v == w {
                assert(t.stack[t.stack.len() - 1] == w);
            } else {
                assert(s.on[v]);
                let p = choose|p: int| 0 <= p < s.stack.len() && s.stack[p] == v as usize;
                assert(t.stack[p] == v as usize);
            }
        }
        assert forall|p: int, q: int| 0 <= p < q < t.stack.len() implies at(
            t,
            #[trigger] t.stack[p] as int,
        ) < at(t, #[trigger] t.stack[q] as int) by {
            assert(s.on[s.stack[p] as int]);
            if q < s.stack.len() {
                assert(s.on[s.stack[q] as int]);
            }
        }
    }
    assert(inv_call(g, t)) by {
        reveal(inv_call);
        assert forall|f: int, h: int| 0 <= f < h < t.call.len() implies at(
            t,
            (#[trigger] t.call[f]).0 as int,
        ) < at(t, (#[trigger] t.call[h]).0 as int) by {
            assert(s.on[s.call[f].0 as int]);
            if h < s.call.len() {
                assert(s.on[s.call[h].0 as int]);
            }
        }
    }
    assert(inv_down(g, t)) by {
        reveal(inv_down);
        assert forall|f: int, y: int|
            #![trigger t.call[f], t.on[y]]
            0 <= f < t.call.len() && 0 <= y < g.len() && t.on[y] && at(t, t.call[f].0 as int)
                <= at(t, y) implies reach(rel, t.call[f].0 as int, y) by {
            if f == s.call.len() {
                if y != w {
                    assert(s.on[y]);
                }
                assert(y == w);
                reach_refl(rel, w as int);
            } else if y != w {
                assert(s.on[y]);
                assert(t.call[f] == s.call[f]);
                assert(s.on[s.call[f].0 as int]);
            } else {
                let top = s.call.last().0 as int;
                assert(t.call[f] == s.call[f]);
                assert(s.call[s.call.len() - 1].0 == top && s.on[top]);
                assert(s.on[s.call[f].0 as int]);
                assert(reach(rel, s.call[f].0 as int, top));
                assert(rel(top, w as int));
                reach_step(rel, s.call[f].0 as int, top, w as int);
            }
        }
    }
    assert(inv_up(g, t)) by {
        reveal(inv_up);
        assert forall|y: int| 0 <= y < g.len() && t.on[y] implies #[trigger] reaches_active(
            g,
            t,
            y,
        ) by {
            if y == w {
                reach_refl(rel, w as int);
                assert(t.call[s.call.len() as int].0 == w);
            } else {
                assert(s.on[y] && reaches_active(g, s, y));
                let f = choose|f: int|
                    0 <= f < s.call.len() && at(s, (#[trigger] s.call[f]).0 as int) <= at(s, y)
                        && reach(rel, y, s.call[f].0 as int);
                assert(t.call[f] == s.call[f]);
                assert(s.on[s.call[f].0 as int]);
            }
        }
    }
    assert(inv_low(g, t)) by {
        reveal(inv_low);
        assert forall|f: int| 0 <= f < t.call.len() implies t.low[(#[trigger] t.call[f]).0 as int]
            <= at(t, t.call[f].0 as int) && exists|z: int| #[trigger]
            low_witness(g, t, t.call[f].0 as int, z) by {
            if f == s.call.len() {
                reach_refl(rel, w as int);
                assert(low_witness(g, t, w as int, w as int));
            } else {
                assert(t.call[f] == s.call[f]);
                let v = s.call[f].0 as int;
                assert(s.on[v]);
                let z = choose|z: int| #[trigger] low_witness(g, s, v, z);
                assert(low_witness(g, t, v, z));
            }
        }
    }
    assert(inv_edges(g, t)) by {
        reveal(inv_edges);
        assert forall|f: int, y: int, j: int|
            #![trigger in_segment(t, f, y), looked_at(g, t, f, y, j)]
            0 <= y < g.len() && in_segment(t, f, y) && looked_at(
                g,
                t,
                f,
                y,
                j,
            ) implies t.idx[g[y][j] as int] is Some && (t.on[g[y][j] as int]
            ==> t.low[t.call[f].0 as int] <= at(t, g[y][j] as int)) by {
            if f == s.call.len() {
                if y != w {
                    assert(s.on[y]);
                }
                assert(y == w);
                assert(false);
            } else {
                assert(t.call[f] == s.call[f]);
                let v = s.call[f].0 as int;
                assert(s.on[v]);
                if f + 1 == s.call.len() {
                    assert(t.call[f + 1].0 == w);
                    assert(y != w);
                } else {
                    assert(t.call[f + 1] == s.call[f + 1]);
                    assert(s.on[s.call[f + 1].0 as int]);
                    assert(y != w);
                }
                assert(s.on[y]);
                assert(in_segment(s, f, y));
                assert(looked_at(g, s, f, y, j));
                let z = g[y][j] as int;
                assert(s.idx[z] is Some);
                assert(z != w);
            }
        }
    }
    closed_unchanged(g, s, t);
}

/// The closed components are untouched where no vertex opens or closes one.
proof fn closed_unchanged(g: Seq<Seq<usize>>, s: Search, t: Search)
    requires
        inv_closed(g, s),
        inv_out(g, s),
        t.out == s.out,
        forall|v: int|
            0 <= v < g.len() ==> (#[trigger] closed_vertex(t, v) == closed_vertex(s, v)),
        graph_wf(g),
    ensures
        inv_closed(g, t),
        inv_out(g, t),
{
    reveal(inv_closed);
    reveal(inv_out);
    assert forall|y: int, j: int|
        0 <= y < g.len() && closed_vertex(t, y) && 0 <= j < g[y].len() implies closed_vertex(
        t,
        #[trigger] g[y][j] as int,
    ) by {
        assert(closed_vertex(s, y));
        assert(closed_vertex(s, g[y][j] as int));
        assert(closed_vertex(t, g[y][j] as int) == closed_vertex(s, g[y][j] as int));
    }
    assert forall|v: int| 0 <= v < g.len() implies (#[trigger] closed_vertex(t, v) <==> in_some(
        t.out,
        t.out.len() as int,
        v as usize,
    )) by {
        assert(closed_vertex(s, v) <==> in_some(s.out, s.out.len() as int, v as usize));
    }
}

/// Looking at the next successor of the top active vertex, when that
/// successor is visited already.
proof fn inv_look(g: Seq<Seq<usize>>, s: Search)
    requires
        inv(g, s),
        s.call.len() > 0,
        s.call.last().1 < g[s.call.last().0 as int].len(),
        s.idx[g[s.call.last().0 as int][s.call.last().1 as int] as int] is Some,
    ensures
        inv(g, step(g, s)),
{
    let t = step(g, s);
    let rel = edges(g);
    basics(g, s);
    let top = s.call.len() - 1;
    let (v, k) = s.call.last();
    let w = g[v as int][k as int] as int;
    assert(s.call[top] == (v, k));
    assert(g[v as int].len() <= usize::MAX);
    assert(w < g.len());
    assert(rel(v as int, w));
    assert forall|f: int| 0 <= f < s.call.len() implies (#[trigger] t.call[f]).0 == s.call[f].0
        && (f < top ==> t.call[f] == s.call[f]) by {}
    assert(t.call[top] == (v, (k + 1) as usize));
    assert(inv_shape(g, t)) by {
        reveal(inv_shape);
    }
    assert(inv_stack(g, t)) by {
        reveal(inv_stack);
    }
    assert(inv_call(g, t)) by {
        reveal(inv_call);
        assert forall|f: int| 0 <= f < t.call.len() implies (#[trigger] t.call[f]).0 < g.len()
            && t.on[t.call[f].0 as int] && t.call[f].1 <= g[t.call[f].0 as int].len() by {
            assert(s.call[f].0 < g.len() && s.on[s.call[f].0 as int]);
        }
        assert forall|f: int, h: int| 0 <= f < h < t.call.len() implies at(
            t,
            (#[trigger] t.call[f]).0 as int,
        ) < at(t, (#[trigger] t.call[h]).0 as int) by {
            assert(at(s, s.call[f].0 as int) < at(s, s.call[h].0 as int));
        }
    }
    assert(inv_down(g, t)) by {
        reveal(inv_down);
        assert forall|f: int, y: int|
            #![trigger t.call[f], t.on[y]]
            0 <= f < t.call.len() && 0 <= y < g.len() && t.on[y] && at(t, t.call[f].0 as int)
                <= at(t, y) implies reach(edges(g), t.call[f].0 as int, y) by {
            assert(s.call[f].0 == t.call[f].0 && s.on[y]);
        }
    }
    assert(inv_up(g, t)) by {
        reveal(inv_up);
        assert forall|y: int| 0 <= y < g.len() && t.on[y] implies #[trigger] reaches_active(
            g,
            t,
            y,
        ) by {
            assert(s.on[y] && reaches_active(g, s, y));
            let f = choose|f: int|
                0 <= f < s.call.len() && at(s, (#[trigger] s.call[f]).0 as int) <= at(s, y)
                    && reach(edges(g), y, s.call[f].0 as int);
            assert(t.call[f].0 == s.call[f].0);
        }
    }
    assert(inv_low(g, t)) by {
        reveal(inv_low);
        assert forall|f: int| 0 <= f < t.call.len() implies t.low[(#[trigger] t.call[f]).0 as int]
            <= at(t, t.call[f].0 as int) && exists|z: int| #[trigger]
            low_witness(g, t, t.call[f].0 as int, z) by {
            assert(s.call[f].0 == t.call[f].0);
            let x = s.call[f].0 as int;
            let z = choose|z: int| #[trigger] low_witness(g, s, x, z);
            if f == top && s.on[w] && at(s, w) < s.low[v as int] {
                reach_edge(rel, v as int, w);
                assert(low_witness(g, t, x, w));
            } else {
                if f < top {
                    assert(at(s, s.call[f].0 as int) < at(s, s.call[top].0 as int));
                    assert(x != v);
                }
                assert(low_witness(g, t, x, z));
            }
        }
    }
    assert(inv_edges(g, t)) by {
        reveal(inv_edges);
        assert forall|f: int, y: int, j: int|
            #![trigger in_segment(t, f, y), looked_at(g, t, f, y, j)]
            0 <= y < g.len() && in_segment(t, f, y) && looked_at(
                g,
                t,
                f,
                y,
                j,
            ) implies t.idx[g[y][j] as int] is Some && (t.on[g[y][j] as int]
            ==> t.low[t.call[f].0 as int] <= at(t, g[y][j] as int)) by {
            assert(t.call[f].0 == s.call[f].0);
            if f + 1 < s.call.len() {
                assert(t.call[f + 1].0 == s.call[f + 1].0);
            }
            assert(in_segment(s, f, y));
            if f < top {
                assert(at(s, s.call[f].0 as int) < at(s, s.call[top].0 as int));
                assert(looked_at(g, s, f, y, j));
            } else if y == v && j == k {
                assert(g[y][j] as int == w);
            } else {
                assert(looked_at(g, s, f, y, j));
            }
        }
    }
    assert forall|x: int| 0 <= x < g.len() implies (#[trigger] closed_vertex(t, x)
        == closed_vertex(s, x)) by {}
    closed_unchanged(g, s, t);
}

/// Counting one more successor of an active vertex as looked at.
proof fn inv_bump(g: Seq<Seq<usize>>, s: Search, f: int)
    requires
        inv(g, s),
        0 <= f < s.call.len(),
        s.call[f].1 < g[s.call[f].0 as int].len(),
        ({
            let w = g[s.call[f].0 as int][s.call[f].1 as int] as int;
            s.idx[w] is Some && s.low[s.call[f].0 as int] <= at(s, w)
        }),
    ensures
        inv(
            g,
            Search {
                call: s.call.update(f, (s.call[f].0, (s.call[f].1 + 1) as usize)),
                ..s
            },
        ),
{
    let (v, k) = s.call[f];
    let t = Search { call: s.call.update(f, (v, (k + 1) as usize)), ..s };
    basics(g, s);
    assert(g[v as int].len() <= usize::MAX);
    assert forall|h: int| 0 <= h < s.call.len() implies (#[trigger] t.call[h]).0 == s.call[h].0
        && (h != f ==> t.call[h] == s.call[h]) by {}
    assert(inv_shape(g, t)) by {
        reveal(inv_shape);
    }
    assert(inv_stack(g, t)) by {
        reveal(inv_stack);
    }
    assert(inv_call(g, t)) by {
        reveal(inv_call);
        assert forall|h: int| 0 <= h < t.call.len() implies (#[trigger] t.call[h]).0 < g.len()
            && t.on[t.call[h].0 as int] && t.call[h].1 <= g[t.call[h].0 as int].len() by {
            assert(s.call[h].0 < g.len() && s.on[s.call[h].0 as int]);
        }
        assert forall|a: int, b: int| 0 <= a < b < t.call.len() implies at(
            t,
            (#[trigger] t.call[a]).0 as int,
        ) < at(t, (#[trigger] t.call[b]).0 as int) by {
            assert(at(s, s.call[a].0 as int) < at(s, s.call[b].0 as int));
        }
    }
    assert(inv_down(g, t)) by {
        reveal(inv_down);
        assert forall|h: int, y: int|
            #![trigger t.call[h], t.on[y]]
            0 <= h < t.call.len() && 0 <= y < g.len() && t.on[y] && at(t, t.call[h].0 as int)
                <= at(t, y) implies reach(edges(g), t.call[h].0 as int, y) by {
            assert(s.call[h].0 == t.call[h].0 && s.on[y]);
        }
    }
    assert(inv_up(g, t)) by {
        reveal(inv_up);
        assert forall|y: int| 0 <= y < g.len() && t.on[y] implies #[trigger] reaches_active(
            g,
            t,
            y,
        ) by {
            assert(s.on[y] && reaches_active(g, s, y));
            let h = choose|h: int|
                0 <= h < s.call.len() && at(s, (#[trigger] s.call[h]).0 as int) <= at(s, y)
                    && reach(edges(g), y, s.call[h].0 as int);
            assert(t.call[h].0 == s.call[h].0);
        }
    }
    assert(inv_low(g, t)) by {
        reveal(inv_low);
        assert forall|h: int| 0 <= h < t.call.len() implies t.low[(#[trigger] t.call[h]).0 as int]
            <= at(t, t.call[h].0 as int) && exists|z: int| #[trigger]
            low_witness(g, t, t.call[h].0 as int, z) by {
            assert(s.call[h].0 == t.call[h].0);
            let z = choose|z: int| #[trigger] low_witness(g, s, s.call[h].0 as int, z);
            assert(low_witness(g, t, t.call[h].0 as int, z));
        }
    }
    assert(inv_edges(g, t)) by {
        reveal(inv_edges);
        assert forall|h: int, y: int, j: int|
            #![trigger in_segment(t, h, y), looked_at(g, t, h, y, j)]
            0 <= y < g.len() && in_segment(t, h, y) && looked_at(
                g,
                t,
                h,
                y,
                j,
            ) implies t.idx[g[y][j] as int] is Some && (t.on[g[y][j] as int]
            ==> t.low[t.call[h].0 as int] <= at(t, g[y][j] as int)) by {
            assert(t.call[h].0 == s.call[h].0);
            if h + 1 < s.call.len() {
                assert(t.call[h + 1].0 == s.call[h + 1].0);
            }
            assert(in_segment(s, h, y));
            if h == f && y == v && j == k {
            } else {
                assert(looked_at(g, s, h, y, j));
            }
        }
    }
    assert forall|x: int| 0 <= x < g.len() implies (#[trigger] closed_vertex(t, x)
        == closed_vertex(s, x)) by {}
    closed_unchanged(g, s, t);
}

/// The top active vertex is done with and is not the root of its component.
spec fn leaves_inner(g: Seq<Seq<usize>>, s: Search) -> bool {
    &&& s.call.len() > 0
    &&& s.call.last().1 >= g[s.call.last().0 as int].len()
    &&& Some(s.low[s.call.last().0 as int]) != s.idx[s.call.last().0 as int]
}

/// A vertex that is not a root has a parent and reaches an open vertex visited
/// before it.
proof fn inner_witness(g: Seq<Seq<usize>>, s: Search) -> (z: int)
    requires
        inv(g, s),
        leaves_inner(g, s),
    ensures
        low_witness(g, s, s.call.last().0 as int, z),
        s.low[s.call.last().0 as int] < at(s, s.call.last().0 as int),
        s.call.len() > 1,
        at(s, s.call[s.call.len() - 2].0 as int) < at(s, s.call.last().0 as int),
{
    let (v, k) = s.call.last();
    let top = s.call.len() - 1;
    basics(g, s);
    assert(s.call[top] == (v, k));
    assert(s.on[v as int]);
    let z = choose|z: int| #[trigger] low_witness(g, s, v as int, z);
    assert(s.low[v as int] < at(s, v as int) && low_witness(g, s, v as int, z)) by {
        reveal(inv_low);
    }
    assert(top > 0) by {
        reveal(inv_stack);
        reveal(inv_call);
        let q = choose|q: int| 0 <= q < s.stack.len() && s.stack[q] == z as usize;
        assert(s.stack.contains(z as usize));
        assert(s.stack[0] == s.call[0].0);
        if q > 0 {
            assert(at(s, s.stack[0] as int) < at(s, s.stack[q] as int));
        }
    }
    assert(at(s, s.call[top - 1].0 as int) < at(s, s.call[top].0 as int));
    z
}

proof fn leave_inner_up(g: Seq<Seq<usize>>, s: Search)
    requires
        inv(g, s),
        leaves_inner(g, s),
    ensures
        inv_up(g, leave(s, s.call.last().0)),
{
    let (v, k) = s.call.last();
    let t = leave(s, v);
    let rel = edges(g);
    let top = s.call.len() - 1;
    basics(g, s);
    let z = inner_witness(g, s);
    let p = s.call[top - 1].0;
    assert(s.call[top] == (v, k));
    assert(t.call.last() == s.call[top - 1]);
    assert forall|f: int| 0 <= f < t.call.len() implies #[trigger] t.call[f] == s.call[f] by {}
    assert(inv_up(g, t)) by {
        reveal(inv_up);
        assert forall|y: int| 0 <= y < g.len() && t.on[y] implies #[trigger] reaches_active(
            g,
            t,
            y,
        ) by {
            assert(s.on[y] && reaches_active(g, s, y));
            let f = choose|f: int|
                0 <= f < s.call.len() && at(s, (#[trigger] s.call[f]).0 as int) <= at(s, y)
                    && reach(rel, y, s.call[f].0 as int);
            if f < top {
                assert(t.call[f] == s.call[f]);
            } else {
                assert(s.on[z] && reaches_active(g, s, z));
                let h = choose|h: int|
                    0 <= h < s.call.len() && at(s, (#[trigger] s.call[h]).0 as int) <= at(s, z)
                        && reach(rel, z, s.call[h].0 as int);
                assert(h != top);
                reach_trans(rel, y, v as int, z);
                reach_trans(rel, y, z, s.call[h].0 as int);
                assert(t.call[h] == s.call[h]);
            }
        }
    }
}

#[verifier::spinoff_prover]
proof fn leave_inner_low(g: Seq<Seq<usize>>, s: Search)
    requires
        inv(g, s),
        leaves_inner(g, s),
    ensures
        inv_low(g, leave(s, s.call.last().0)),
{
    let (v, k) = s.call.last();
    let t = leave(s, v);
    let rel = edges(g);
    let top = s.call.len() - 1;
    basics(g, s);
    let z = inner_witness(g, s);
    let p = s.call[top - 1].0;
    assert(s.call[top] == (v, k));
    assert(t.call.last() == s.call[top - 1]);
    assert forall|f: int| 0 <= f < t.call.len() implies #[trigger] t.call[f] == s.call[f] by {}
    assert(inv_low(g, t)) by {
        reveal(inv_low);
        assert forall|f: int| 0 <= f < t.call.len() implies t.low[(#[trigger] t.call[f]).0 as int]
            <= at(t, t.call[f].0 as int) && exists|z: int| #[trigger]
            low_witness(g, t, t.call[f].0 as int, z) by {
            assert(s.call[f] == t.call[f]);
            let x = s.call[f].0 as int;
            let z0 = choose|z0: int| #[trigger] low_witness(g, s, x, z0);
            if f == top - 1 && s.low[v as int] < s.low[p as int] {
                assert(reach(rel, p as int, v as int)) by {
                    reveal(inv_down);
                    assert(s.call[top - 1].0 == p && s.on[v as int]);
                }
                reach_trans(rel, p as int, v as int, z);
                assert(low_witness(g, t, x, z));
            } else {
                if f < top - 1 {
                    assert(at(s, s.call[f].0 as int) < at(s, s.call[top - 1].0 as int));
                    assert(x != p);
                }
                assert(low_witness(g, t, x, z0));
            }
        }
    }
}

proof fn leave_inner_edges(g: Seq<Seq<usize>>, s: Search)
    requires
        inv(g, s),
        leaves_inner(g, s),
    ensures
        inv_edges(g, leave(s, s.call.last().0)),
{
    let (v, k) = s.call.last();
    let t = leave(s, v);
    let rel = edges(g);
    let top = s.call.len() - 1;
    basics(g, s);
    let z = inner_witness(g, s);
    let p = s.call[top - 1].0;
    assert(s.call[top] == (v, k));
    assert(t.call.last() == s.call[top - 1]);
    assert forall|f: int| 0 <= f < t.call.len() implies #[trigger] t.call[f] == s.call[f] by {}
    assert(inv_edges(g, t)) by {
        reveal(inv_edges);
        assert forall|f: int, y: int, j: int|
            #![trigger in_segment(t, f, y), looked_at(g, t, f, y, j)]
            0 <= y < g.len() && in_segment(t, f, y) && looked_at(
                g,
                t,
                f,
                y,
                j,
            ) implies t.idx[g[y][j] as int] is Some && (t.on[g[y][j] as int]
            ==> t.low[t.call[f].0 as int] <= at(t, g[y][j] as int)) by {
            assert(t.call[f] == s.call[f]);
            if f < top - 1 {
                assert(t.call[f + 1] == s.call[f + 1]);
                assert(at(s, s.call[f].0 as int) < at(s, s.call[top - 1].0 as int));
                assert(in_segment(s, f, y));
                assert(looked_at(g, s, f, y, j));
            } else if at(s, y) < at(s, v as int) {
                assert(in_segment(s, f, y));
                assert(looked_at(g, s, f, y, j));
            } else {
                assert(in_segment(s, top, y));
                assert(looked_at(g, s, top, y, j));
            }
        }
    }
}

/// Leaving an active vertex that is not the root of its component.
proof fn inv_leave_inner(g: Seq<Seq<usize>>, s: Search)
    requires
        inv(g, s),
        leaves_inner(g, s),
    ensures
        inv(g, leave(s, s.call.last().0)),
{
    let (v, k) = s.call.last();
    let t = leave(s, v);
    let rel = edges(g);
    let top = s.call.len() - 1;
    basics(g, s);
    let z = inner_witness(g, s);
    let p = s.call[top - 1].0;
    assert(s.call[top] == (v, k));
    assert(t.call.last() == s.call[top - 1]);
    assert forall|f: int| 0 <= f < t.call.len() implies #[trigger] t.call[f] == s.call[f] by {}
    assert(inv_shape(g, t)) by {
        reveal(inv_shape);
    }
    assert(inv_stack(g, t)) by {
        reveal(inv_stack);
    }
    assert(inv_call(g, t)) by {
        reveal(inv_call);
    }
    assert(inv_down(g, t)) by {
        reveal(inv_down);
        assert forall|f: int, y: int|
            #![trigger t.call[f], t.on[y]]
            0 <= f < t.call.len() && 0 <= y < g.len() && t.on[y] && at(t, t.call[f].0 as int)
                <= at(t, y) implies reach(rel, t.call[f].0 as int, y) by {
            assert(s.call[f].0 == t.call[f].0 && s.on[y]);
        }
    }
    leave_inner_up(g, s);
    leave_inner_low(g, s);
    leave_inner_edges(g, s);
    assert forall|x: int| 0 <= x < g.len() implies (#[trigger] closed_vertex(t, x)
        == closed_vertex(s, x)) by {}
    closed_unchanged(g, s, t);
}

/// What popping down to the vertex at position `p` leaves and yields.
proof fn pop_to_at(stack: Seq<usize>, v: usize, p: int)
    requires
        0 <= p < stack.len(),
        stack[p] == v,
        forall|q: int| p < q < stack.len() ==> #[trigger] stack[q] != v,
    ensures
        pop_to(stack, v).0 == stack.take(p),
        pop_to(stack, v).1.len() == stack.len() - p,
        forall|i: int|
            0 <= i < stack.len() - p ==> #[trigger] pop_to(stack, v).1[i] == stack[stack.len() - 1
                - i],
    decreases stack.len(),
{
    if stack.last() == v {
        assert(p == stack.len() - 1);
        assert(stack.drop_last() =~= stack.take(p));
    } else {
        let rest = stack.drop_last();
        assert forall|q: int| p < q < rest.len() implies #[trigger] rest[q] != v by {
            assert(stack[q] != v);
        }
        pop_to_at(rest, v, p);
        assert(rest.take(p) =~= stack.take(p));
        let popped = pop_to(rest, v).1;
        let all = seq![stack.last()] + popped;
        assert forall|i: int| 0 <= i < stack.len() - p implies #[trigger] all[i]
            == stack[stack.len() - 1 - i] by {
            if i > 0 {
                assert(all[i] == popped[i - 1]);
                assert(popped[i - 1] == rest[rest.len() - 1 - (i - 1)]);
            }
        }
    }
}

/// The vertices popped with the root `v` are the open vertices visited no
/// earlier than it.
proof fn popped_component(g: Seq<Seq<usize>>, s: Search) -> (p: int)
    requires
        inv(g, s),
        s.call.len() > 0,
    ensures
        0 <= p < s.stack.len(),
        s.stack[p] == s.call.last().0,
        pop_to(s.stack, s.call.last().0).0 == s.stack.take(p),
        pop_to(s.stack, s.call.last().0).1.len() == s.stack.len() - p,
        pop_to(s.stack, s.call.last().0).1.no_duplicates(),
        forall|i: int|
            0 <= i < s.stack.len() - p ==> #[trigger] pop_to(s.stack, s.call.last().0).1[i]
                == s.stack[s.stack.len() - 1 - i],
        forall|y: int|
            0 <= y < g.len() ==> (#[trigger] pop_to(s.stack, s.call.last().0).1.contains(
                y as usize,
            ) <==> s.on[y] && at(s, s.call.last().0 as int) <= at(s, y)),
{
    basics(g, s);
    reveal(inv_stack);
    let v = s.call.last().0;
    assert(s.call[s.call.len() - 1].0 == v);
    assert(s.on[v as int] && s.stack.contains(v as int as usize));
    let p = choose|p: int| 0 <= p < s.stack.len() && s.stack[p] == v;
    assert forall|q: int| p < q < s.stack.len() implies #[trigger] s.stack[q] != v by {
        assert(at(s, s.stack[p] as int) < at(s, s.stack[q] as int));
    }
    pop_to_at(s.stack, v, p);
    let scc = pop_to(s.stack, v).1;
    let m = s.stack.len();
    assert forall|y: int| 0 <= y < g.len() implies (#[trigger] scc.contains(y as usize) <==> s.on[y]
        && at(s, v as int) <= at(s, y)) by {
        if scc.contains(y as usize) {
            let i = choose|i: int| 0 <= i < scc.len() && scc[i] == y as usize;
            let q = m - 1 - i;
            assert(s.stack[q] == y as usize);
            if q > p {
                assert(at(s, s.stack[p] as int) < at(s, s.stack[q] as int));
            }
        }
        if s.on[y] && at(s, v as int) <= at(s, y) {
            assert(s.stack.contains(y as usize));
            let q = choose|q: int| 0 <= q < s.stack.len() && s.stack[q] == y as usize;
            if q < p {
                assert(at(s, s.stack[q] as int) < at(s, s.stack[p] as int));
            }
            assert(scc[m - 1 - q] == y as usize);
        }
    }
    assert forall|i: int, j: int| 0 <= i < j < scc.len() implies scc[i] != scc[j] by {
        assert(at(s, s.stack[m - 1 - j] as int) < at(s, s.stack[m - 1 - i] as int));
    }
    p
}

/// Every vertex popped with a root is in one strongly connected component,
/// and its edges lead into the component or into closed ones.
proof fn popped_strong(g: Seq<Seq<usize>>, s: Search, a: int)
    requires
        inv(g, s),
        s.call.len() > 0,
        s.call.last().1 >= g[s.call.last().0 as int].len(),
        Some(s.low[s.call.last().0 as int]) == s.idx[s.call.last().0 as int],
        0 <= a < g.len(),
        s.on[a],
        at(s, s.call.last().0 as int) <= at(s, a),
    ensures
        mutual(g, a, s.call.last().0 as int),
        forall|j: int|
            0 <= j < g[a].len() ==> {
                let z = #[trigger] g[a][j] as int;
                closed_vertex(s, z) || s.on[z] && at(s, s.call.last().0 as int) <= at(s, z)
            },
{
    basics(g, s);
    let rel = edges(g);
    let v = s.call.last().0 as int;
    let top = s.call.len() - 1;
    assert(s.call[top].0 == v);
    assert(reach(rel, v, a)) by {
        reveal(inv_down);
    }
    assert(reach(rel, a, v)) by {
        assert(reaches_active(g, s, a)) by {
            reveal(inv_up);
        }
        let f = choose|f: int|
            0 <= f < s.call.len() && at(s, (#[trigger] s.call[f]).0 as int) <= at(s, a) && reach(
                rel,
                a,
                s.call[f].0 as int,
            );
        assert(s.on[v]);
        assert(at(s, s.call[f].0 as int) <= at(s, v));
        assert(reach(rel, s.call[f].0 as int, v)) by {
            reveal(inv_down);
        }
        reach_trans(rel, a, s.call[f].0 as int, v);
    }
    assert forall|j: int| 0 <= j < g[a].len() implies {
        let z = #[trigger] g[a][j] as int;
        closed_vertex(s, z) || s.on[z] && at(s, v) <= at(s, z)
    } by {
        reveal(inv_edges);
        assert(in_segment(s, top, a));
        assert(looked_at(g, s, top, a, j));
    }
}

/// The component of a root holds every vertex mutual with one of its members.
proof fn popped_maximal(g: Seq<Seq<usize>>, s: Search, a: int, b: int)
    requires
        inv(g, s),
        s.call.len() > 0,
        s.call.last().1 >= g[s.call.last().0 as int].len(),
        Some(s.low[s.call.last().0 as int]) == s.idx[s.call.last().0 as int],
        0 <= a < g.len(),
        0 <= b < g.len(),
        s.on[a],
        at(s, s.call.last().0 as int) <= at(s, a),
        mutual(g, a, b),
    ensures
        s.on[b] && at(s, s.call.last().0 as int) <= at(s, b),
{
    let rel = edges(g);
    let v = s.call.last().0 as int;
    let prop = |x: int|
        0 <= x < g.len() && (closed_vertex(s, x) || s.on[x] && at(s, v) <= at(s, x));
    assert forall|x: int, y: int| prop(x) && #[trigger] rel(x, y) implies prop(y) by {
        let j = choose|j: int| 0 <= j < g[x].len() && #[trigger] g[x][j] == y;
        assert(g[x][j] < g.len());
        if closed_vertex(s, x) {
            reveal(inv_closed);
            assert(closed_vertex(s, g[x][j] as int));
        } else {
            popped_strong(g, s, x);
            assert(g[x][j] as int == y);
        }
    }
    reach_preserves(rel, prop, a, b);
    if closed_vertex(s, b) {
        let shut = |x: int| 0 <= x < g.len() && closed_vertex(s, x);
        assert forall|x: int, y: int| shut(x) && #[trigger] rel(x, y) implies shut(y) by {
            let j = choose|j: int| 0 <= j < g[x].len() && #[trigger] g[x][j] == y;
            reveal(inv_closed);
            assert(closed_vertex(s, g[x][j] as int));
            assert(g[x][j] < g.len());
        }
        reach_preserves(rel, shut, b, a);
    }
}

proof fn components_push(g: Seq<Seq<usize>>, s: Search)
    requires
        inv(g, s),
        s.call.len() > 0,
        s.call.last().1 >= g[s.call.last().0 as int].len(),
        Some(s.low[s.call.last().0 as int]) == s.idx[s.call.last().0 as int],
    ensures
        components(g, s.out.push(pop_to(s.stack, s.call.last().0).1)),
{
    basics(g, s);
    let v = s.call.last().0;
    let scc = pop_to(s.stack, v).1;
    let out = s.out.push(scc);
    let m = s.out.len() as int;
    let p = popped_component(g, s);
    assert(components(g, s.out)) by {
        reveal(inv_out);
    }
    assert forall|c: int, i: int| 0 <= c < out.len() && 0 <= i < out[c].len() implies (
    #[trigger] out[c][i]) < g.len() by {
        if c == m {
            assert(scc[i] == s.stack[s.stack.len() - 1 - i]);
            reveal(inv_stack);
        } else {
            assert(out[c] == s.out[c]);
            assert(s.out[c][i] < g.len());
        }
    }
    assert forall|c: int| 0 <= c < out.len() implies (#[trigger] out[c]).len() > 0
        && out[c].no_duplicates() by {
        if c < m {
            assert(out[c] == s.out[c]);
        }
    }
    assert forall|c: int, i: int, b: int|
        #![trigger out[c][i], mutual(g, out[c][i] as int, b)]
        0 <= c < out.len() && 0 <= i < out[c].len() && 0 <= b < g.len() implies (mutual(
        g,
        out[c][i] as int,
        b,
    ) <==> out[c].contains(b as usize)) by {
        if c == m {
            let a = scc[i] as int;
            assert(out[c][i] < g.len());
            assert(scc.contains(a as usize));
            if mutual(g, a, b) {
                popped_maximal(g, s, a, b);
            }
            if scc.contains(b as usize) {
                popped_strong(g, s, a);
                popped_strong(g, s, b);
                reach_trans(edges(g), a, v as int, b);
                reach_trans(edges(g), b, v as int, a);
            }
        } else {
            assert(out[c] == s.out[c]);
            assert(s.out[c][i] == out[c][i]);
        }
    }
    assert forall|c: int, d: int, i: int|
        #![trigger out[c][i], out[d]]
        0 <= c < out.len() && 0 <= d < out.len() && c != d && 0 <= i < out[c].len() implies !out[d].contains(
        out[c][i],
    ) by {
        let x = out[c][i];
        assert(x < g.len());
        if c == m {
            assert(scc.contains(x as int as usize));
            assert(s.on[x as int]);
            if out[d].contains(x) {
                assert(s.out[d].contains(x));
                assert(in_some(s.out, m, x));
                reveal(inv_out);
                assert(closed_vertex(s, x as int));
            }
        } else if d == m {
            if scc.contains(x) {
                assert(scc.contains(x as int as usize));
                assert(s.on[x as int]);
                assert(out[c] == s.out[c]);
                assert(s.out[c].contains(x));
                assert(in_some(s.out, m, x));
                reveal(inv_out);
                assert(closed_vertex(s, x as int));
            }
        } else {
            assert(out[c] == s.out[c] && out[d] == s.out[d]);
            assert(s.out[c][i] == x);
        }
    }
    assert forall|c: int, i: int, j: int|
        #![trigger g[out[c][i] as int][j]]
        0 <= c < out.len() && 0 <= i < out[c].len() && 0 <= j < g[out[c][i] as int].len() implies in_some(
        out,
        c + 1,
        g[out[c][i] as int][j],
    ) by {
        let a = out[c][i] as int;
        let z = g[a][j];
        assert(a < g.len());
        assert(z < g.len());
        if c == m {
            assert(scc.contains(a as usize));
            popped_strong(g, s, a);
            if closed_vertex(s, z as int) {
                reveal(inv_out);
                assert(in_some(s.out, m, z as int as usize));
                let d = choose|d: int| 0 <= d < m && #[trigger] s.out[d].contains(z);
                assert(out[d].contains(z));
            } else {
                assert(scc.contains(z as int as usize));
                assert(out[m].contains(z));
            }
        } else {
            assert(out[c] == s.out[c]);
            assert(g[s.out[c][i] as int][j] == z);
            assert(in_some(s.out, c + 1, z));
            let d = choose|d: int| 0 <= d < c + 1 && #[trigger] s.out[d].contains(z);
            assert(out[d].contains(z));
        }
    }
}

/// Leaving the root of a component.
proof fn inv_leave_root(g: Seq<Seq<usize>>, s: Search)
    requires
        inv(g, s),
        s.call.len() > 0,
        s.call.last().1 >= g[s.call.last().0 as int].len(),
        Some(s.low[s.call.last().0 as int]) == s.idx[s.call.last().0 as int],
    ensures
        inv(g, leave(s, s.call.last().0)),
{
    let (v, k) = s.call.last();
    let t = leave(s, v);
    let rel = edges(g);
    let top = s.call.len() - 1;
    basics(g, s);
    assert(s.call[top] == (v, k));
    let p = popped_component(g, s);
    let scc = pop_to(s.stack, v).1;
    assert forall|f: int| 0 <= f < t.call.len() implies #[trigger] t.call[f] == s.call[f] && at(
        s,
        s.call[f].0 as int,
    ) < at(s, v as int) by {
        assert(at(s, s.call[f].0 as int) < at(s, s.call[top].0 as int));
    }
    assert(t.low == s.low) by {
        if top > 0 {
            reveal(inv_low);
            assert(t.call.last() == s.call[top - 1]);
            assert(s.low[s.call[top - 1].0 as int] <= at(s, s.call[top - 1].0 as int));
            assert(t.low =~= s.low);
        }
    }
    assert forall|y: int| 0 <= y < g.len() implies #[trigger] t.on[y] == (s.on[y] && at(s, y) < at(
        s,
        v as int,
    )) by {
        assert(scc.contains(y as usize) <==> s.on[y] && at(s, v as int) <= at(s, y));
    }
    assert(inv_shape(g, t)) by {
        reveal(inv_shape);
    }
    assert(inv_stack(g, t)) by {
        reveal(inv_stack);
        assert(t.stack == s.stack.take(p));
        assert forall|q: int| 0 <= q < t.stack.len() implies (#[trigger] t.stack[q]) < g.len()
            && t.on[t.stack[q] as int] by {
            assert(t.stack[q] == s.stack[q]);
            assert(at(s, s.stack[q] as int) < at(s, s.stack[p] as int));
        }
        assert forall|a: int, b: int| 0 <= a < b < t.stack.len() implies at(
            t,
            #[trigger] t.stack[a] as int,
        ) < at(t, #[trigger] t.stack[b] as int) by {
            assert(at(s, s.stack[a] as int) < at(s, s.stack[b] as int));
        }
        assert forall|y: int| 0 <= y < g.len() && #[trigger] t.on[y] implies t.stack.contains(
            y as usize,
        ) by {
            assert(s.stack.contains(y as usize));
            let q = choose|q: int| 0 <= q < s.stack.len() && s.stack[q] == y as usize;
            if q >= p {
                if q > p {
                    assert(at(s, s.stack[p] as int) < at(s, s.stack[q] as int));
                }
                assert(false);
            }
            assert(t.stack[q] == y as usize);
        }
    }
    assert(inv_call(g, t)) by {
        reveal(inv_call);
        reveal(inv_stack);
        assert(s.stack[0] == s.call[0].0);
        if top == 0 {
            if p > 0 {
                assert(at(s, s.stack[0] as int) < at(s, s.stack[p] as int));
            }
        } else {
            assert(at(s, s.call[0].0 as int) < at(s, v as int));
            assert(p > 0);
            assert(t.stack[0] == s.stack[0]);
        }
        assert forall|f: int| 0 <= f < t.call.len() implies (#[trigger] t.call[f]).0 < g.len()
            && t.on[t.call[f].0 as int] && t.call[f].1 <= g[t.call[f].0 as int].len() by {
            assert(t.call[f] == s.call[f]);
        }
        assert forall|f: int, h: int| 0 <= f < h < t.call.len() implies at(
            t,
            (#[trigger] t.call[f]).0 as int,
        ) < at(t, (#[trigger] t.call[h]).0 as int) by {
            assert(at(s, s.call[f].0 as int) < at(s, s.call[h].0 as int));
        }
    }
    assert(inv_down(g, t)) by {
        reveal(inv_down);
        assert forall|f: int, y: int|
            #![trigger t.call[f], t.on[y]]
            0 <= f < t.call.len() && 0 <= y < g.len() && t.on[y] && at(t, t.call[f].0 as int)
                <= at(t, y) implies reach(rel, t.call[f].0 as int, y) by {
            assert(s.call[f].0 == t.call[f].0 && s.on[y]);
        }
    }
    assert(inv_up(g, t)) by {
        reveal(inv_up);
        assert forall|y: int| 0 <= y < g.len() && t.on[y] implies #[trigger] reaches_active(
            g,
            t,
            y,
        ) by {
            assert(s.on[y] && reaches_active(g, s, y));
            let f = choose|f: int|
                0 <= f < s.call.len() && at(s, (#[trigger] s.call[f]).0 as int) <= at(s, y)
                    && reach(rel, y, s.call[f].0 as int);
            assert(f < top);
            assert(t.call[f] == s.call[f]);
        }
    }
    assert(inv_low(g, t)) by {
        reveal(inv_low);
        assert forall|f: int| 0 <= f < t.call.len() implies t.low[(#[trigger] t.call[f]).0 as int]
            <= at(t, t.call[f].0 as int) && exists|z: int| #[trigger]
            low_witness(g, t, t.call[f].0 as int, z) by {
            assert(s.call[f] == t.call[f]);
            let x = s.call[f].0 as int;
            let z = choose|z: int| #[trigger] low_witness(g, s, x, z);
            assert(t.on[z]);
            assert(low_witness(g, t, x, z));
        }
    }
    assert(inv_edges(g, t)) by {
        reveal(inv_edges);
        assert forall|f: int, y: int, j: int|
            #![trigger in_segment(t, f, y), looked_at(g, t, f, y, j)]
            0 <= y < g.len() && in_segment(t, f, y) && looked_at(
                g,
                t,
                f,
                y,
                j,
            ) implies t.idx[g[y][j] as int] is Some && (t.on[g[y][j] as int]
            ==> t.low[t.call[f].0 as int] <= at(t, g[y][j] as int)) by {
            assert(t.call[f] == s.call[f]);
            if f + 1 < t.call.len() {
                assert(t.call[f + 1] == s.call[f + 1]);
            }
            assert(in_segment(s, f, y));
            assert(looked_at(g, s, f, y, j));
            assert(g[y][j] < g.len());
        }
    }
    assert forall|y: int| 0 <= y < g.len() implies (#[trigger] closed_vertex(t, y) <==> (
    closed_vertex(s, y) || scc.contains(y as usize))) by {
        assert(scc.contains(y as usize) <==> s.on[y] && at(s, v as int) <= at(s, y));
    }
    assert(inv_closed(g, t)) by {
        reveal(inv_closed);
        assert forall|y: int, j: int|
            0 <= y < g.len() && closed_vertex(t, y) && 0 <= j < g[y].len() implies closed_vertex(
            t,
            #[trigger] g[y][j] as int,
        ) by {
            let z = g[y][j] as int;
            assert(g[y][j] < g.len());
            if closed_vertex(s, y) {
                assert(closed_vertex(s, g[y][j] as int));
            } else {
                popped_strong(g, s, y);
                assert(closed_vertex(s, z) || scc.contains(z as usize));
            }
        }
    }
    components_push(g, s);
    assert(inv_out(g, t)) by {
        reveal(inv_out);
        assert forall|y: int| 0 <= y < g.len() implies (#[trigger] closed_vertex(t, y) <==> in_some(
            t.out,
            t.out.len() as int,
            y as usize,
        )) by {
            let m = s.out.len() as int;
            assert(closed_vertex(s, y) <==> in_some(s.out, m, y as usize));
            if closed_vertex(s, y) {
                let d = choose|d: int| 0 <= d < m && #[trigger] s.out[d].contains(y as usize);
                assert(t.out[d].contains(y as usize));
            }
            if scc.contains(y as usize) {
                assert(t.out[m].contains(y as usize));
            }
            if in_some(t.out, m + 1, y as usize) {
                let d = choose|d: int| 0 <= d < m + 1 && #[trigger] t.out[d].contains(y as usize);
                if d < m {
                    assert(s.out[d].contains(y as usize));
                }
            }
        }
    }
}

/// Every step preserves the invariant.
proof fn inv_step(g: Seq<Seq<usize>>, s: Search)
    requires
        inv(g, s),
    ensures
        inv(g, step(g, s)),
{
    basics(g, s);
    if s.call.len() == 0 {
        if s.start < g.len() {
            if s.idx[s.start as int] is Some {
                let t = step(g, s);
                assert(inv_shape(g, t)) by {
                    reveal(inv_shape);
                }
                assert(inv_stack(g, t)) by {
                    reveal(inv_stack);
                }
                assert(inv_call(g, t)) by {
                    reveal(inv_call);
                }
                reveal(inv_down);
                reveal(inv_up);
                reveal(inv_low);
                assert(inv_edges(g, t)) by {
                    reveal(inv_edges);
                }
                assert(inv_up(g, t)) by {
                    assert forall|y: int| 0 <= y < g.len() && t.on[y] implies #[trigger] reaches_active(
                        g,
                        t,
                        y,
                    ) by {
                        assert(s.on[y] && reaches_active(g, s, y));
                    }
                }
                assert forall|x: int| 0 <= x < g.len() implies (#[trigger] closed_vertex(t, x)
                    == closed_vertex(s, x)) by {}
                closed_unchanged(g, s, t);
            } else {
                inv_visit(g, s, s.start);
            }
        }
    } else {
        let (v, k) = s.call.last();
        assert(s.call[s.call.len() - 1] == (v, k));
        if k < g[v as int].len() {
            let w = g[v as int][k as int];
            assert(w < g.len());
            if s.idx[w as int] is None {
                assert(has_edge(g, v as int, w as int));
                inv_visit(g, s, w);
                let t = visit(s, w);
                let f = s.call.len() - 1;
                assert(t.call[f] == (v, k));
                assert(s.on[v as int]);
                assert(s.low[v as int] <= at(s, v as int)) by {
                    reveal(inv_low);
                    assert(s.call[f].0 == v);
                }
                inv_bump(g, t, f);
                assert(step(g, s).call =~= t.call.update(f, (v, (k + 1) as usize)));
            } else {
                inv_look(g, s);
            }
        } else if Some(s.low[v as int]) == s.idx[v as int] {
            inv_leave_root(g, s);
        } else {
            inv_leave_inner(g, s);
        }
    }
}

/// Every vertex is in one of the lists.
pub open spec fn covers(out: Seq<Seq<usize>>, n: nat) -> bool {
    forall|v: int| 0 <= v < n ==> #[trigger] in_some(out, out.len() as int, v as usize)
}

proof fn finished_output(g: Seq<Seq<usize>>, s: Search)
    requires
        inv(g, s),
        finished(g, s),
    ensures
        components(g, s.out),
        covers(s.out, g.len()),
{
    reveal(inv_shape);
    reveal(inv_call);
    reveal(inv_stack);
    reveal(inv_out);
    assert forall|v: int| 0 <= v < g.len() implies #[trigger] in_some(
        s.out,
        s.out.len() as int,
        v as usize,
    ) by {
        assert(s.idx[v] is Some);
        if s.on[v] {
            assert(s.stack.contains(v as usize));
        }
        assert(closed_vertex(s, v));
    }
}

/// What the executable search needs to know of a state.
proof fn exec_facts(g: Seq<Seq<usize>>, s: Search)
    requires
        inv(g, s),
    ensures
        s.idx.len() == g.len(),
        s.low.len() == g.len(),
        s.on.len() == g.len(),
        s.counter <= g.len(),
        forall|v: int| 0 <= v < g.len() && (#[trigger] s.idx[v]) is None ==> s.counter < g.len(),
        s.call.len() > 0 ==> {
            &&& s.call.last().0 < g.len()
            &&& s.idx[s.call.last().0 as int] is Some
            &&& s.call.last().1 <= g[s.call.last().0 as int].len()
            &&& s.stack.contains(s.call.last().0)
        },
        forall|p: int| 0 <= p < s.stack.len() ==> (#[trigger] s.stack[p]) < g.len(),
        s.call.len() > 1 ==> s.call[s.call.len() - 2].0 < g.len() && s.call[s.call.len() - 2].0
            != s.call.last().0,
{
    basics(g, s);
    reveal(inv_shape);
    visited_count_bound(s.idx, g.len() as int);
    assert forall|v: int| 0 <= v < g.len() && (#[trigger] s.idx[v]) is None implies s.counter
        < g.len() by {
        visited_count_gap(s.idx, g.len() as int, v);
    }
    if s.call.len() > 0 {
        let f = s.call.len() - 1;
        assert(s.call[f] == s.call.last());
        assert(s.on[s.call[f].0 as int]);
        assert(s.stack.contains(s.call[f].0 as int as usize)) by {
            reveal(inv_stack);
        }
        if f > 0 {
            assert(at(s, s.call[f - 1].0 as int) < at(s, s.call[f].0 as int));
        }
    }
    reveal(inv_stack);
}

/// The executable state of the search.
struct Run {
    start: usize,
    counter: usize,
    stack: Vec<usize>,
    on_stack: Vec<bool>,
    indices: Vec<Option<usize>>,
    lowlink: Vec<usize>,
    call_stack: Vec<(usize, usize)>,
    sccs: Vec<Vec<usize>>,
}

impl Run {
    spec fn state(self) -> Search {
        Search {
            start: self.start,
            counter: self.counter,
            stack: self.stack@,
            on: self.on_stack@,
            idx: self.indices@,
            low: self.lowlink@,
            call: self.call_stack@,
            out: lists(self.sccs@),
        }
    }

    /// Visits `w`.
    fn enter(&mut self, w: usize)
        requires
            w < old(self).indices@.len(),
            w < old(self).lowlink@.len(),
            w < old(self).on_stack@.len(),
            old(self).counter < usize::MAX,
        ensures
            final(self).state() == visit(old(self).state(), w),
    {
        self.indices.set(w, Some(self.counter));
        self.lowlink.set(w, self.counter);
        self.counter = self.counter + 1;
        self.stack.push(w);
        self.on_stack.set(w, true);
        self.call_stack.push((w, 0));
    }

    /// Pops the component whose root is `v`.
    fn close(&mut self, v: usize)
        requires
            old(self).stack@.contains(v),
            forall|p: int|
                0 <= p < old(self).stack@.len() ==> (#[trigger] old(self).stack@[p])
                    < old(self).on_stack@.len(),
        ensures
            ({
                let s = old(self).state();
                let (rest, scc) = pop_to(s.stack, v);
                final(self).state() == (Search {
                    stack: rest,
                    on: Seq::new(s.on.len(), |x: int| s.on[x] && !scc.contains(x as usize)),
                    out: s.out.push(scc),
                    ..s
                })
            }),
    {
        let mut scc: Vec<usize> = Vec::new();
        let total: usize = self.on_stack.len();
        let ghost first = self.state();
        let ghost target = pop_to(first.stack, v);
        let mut done = false;
        proof {
            assert(scc@ + target.1 =~= target.1);
        }
        while !done
            invariant
                first == old(self).state(),
                total == first.on.len(),
                self.start == first.start,
                self.counter == first.counter,
                self.indices@ == first.idx,
                self.lowlink@ == first.low,
                self.call_stack@ == first.call,
                lists(self.sccs@) == first.out,
                target == pop_to(first.stack, v),
                !done ==> self.stack@.contains(v),
                !done ==> target.0 == pop_to(self.stack@, v).0,
                !done ==> target.1 == scc@ + pop_to(self.stack@, v).1,
                done ==> target.0 == self.stack@ && target.1 == scc@,
                self.on_stack@.len() == first.on.len(),
                forall|p: int|
                    0 <= p < self.stack@.len() ==> (#[trigger] self.stack@[p])
                        < self.on_stack@.len(),
                forall|x: int|
                    0 <= x < first.on.len() ==> #[trigger] self.on_stack@[x] == (first.on[x]
                        && !scc@.contains(x as usize)),
            decreases self.stack@.len() + (if done {
                0int
            } else {
                1int
            }),
        {
            let ghost before = self.stack@;
            let ghost popped = scc@;
            match self.stack.pop() {
                Some(w) => {
                    assert(w == before.last());
                    assert(self.stack@ =~= before.drop_last());
                    assert(before[before.len() - 1] == w);
                    self.on_stack.set(w, false);
                    scc.push(w);
                    proof {
                        assert forall|x: int| 0 <= x < first.on.len() implies (
                        #[trigger] scc@.contains(x as usize) <==> popped.contains(x as usize) || x
                            == w) by {
                            if popped.contains(x as usize) {
                                let i = choose|i: int|
                                    0 <= i < popped.len() && popped[i] == x as usize;
                                assert(scc@[i] == x as usize);
                            }
                            if x == w {
                                assert(scc@[scc@.len() - 1] == x as usize);
                            }
                            if scc@.contains(x as usize) {
                                let i = choose|i: int| 0 <= i < scc@.len() && scc@[i] == x as usize;
                                if i < popped.len() {
                                    assert(popped[i] == x as usize);
                                }
                            }
                        }
                        assert forall|p: int| 0 <= p < self.stack@.len() implies (
                        #[trigger] self.stack@[p]) < self.on_stack@.len() by {
                            assert(before[p] < self.on_stack@.len());
                        }
                        if w == v {
                            assert(scc@ =~= target.1);
                        } else {
                            let i = choose|i: int| 0 <= i < before.len() && before[i] == v;
                            assert(self.stack@[i] == v);
                            assert(popped + (seq![w] + pop_to(self.stack@, v).1) =~= scc@ + pop_to(
                                self.stack@,
                                v,
                            ).1);
                        }
                    }
                    if w == v {
                        done = true;
                    }
                },
                None => {
                    assert(before.len() == 0);
                },
            }
        }
        let ghost out = lists(self.sccs@);
        self.sccs.push(scc);
        proof {
            assert(lists(self.sccs@) =~= first.out.push(target.1));
            assert(self.on_stack@ =~= Seq::new(
                first.on.len(),
                |x: int| first.on[x] && !target.1.contains(x as usize),
            ));
        }
    }
}

/// The strongly connected components, in the order in which the search closes
/// them.
pub fn tarjan_sccs(adj: &Vec<Vec<usize>>) -> (r: Vec<Vec<usize>>)
    requires
        graph_wf(lists(adj@)),
    ensures
        is_tarjan_output(lists(adj@), lists(r@)),
        components(lists(adj@), lists(r@)),
        covers(lists(r@), adj@.len()),
{
    let ghost g = lists(adj@);
    let n: usize = adj.len();
    let mut on_stack: Vec<bool> = Vec::new();
    let mut indices: Vec<Option<usize>> = Vec::new();
    let mut lowlink: Vec<usize> = Vec::new();
    let mut i: usize = 0;
    while i < n
        invariant
            i <= n,
            on_stack@ == Seq::new(i as nat, |j: int| false),
            indices@ == Seq::new(i as nat, |j: int| None::<usize>),
            lowlink@ == Seq::new(i as nat, |j: int| 0usize),
        decreases n - i,
    {
        on_stack.push(false);
        indices.push(None);
        lowlink.push(0);
        i = i + 1;
    }
    let mut run = Run {
        start: 0,
        counter: 0,
        stack: Vec::new(),
        on_stack,
        indices,
        lowlink,
        call_stack: Vec::new(),
        sccs: Vec::new(),
    };
    let ghost mut k: nat = 0;
    proof {
        inv_initial(g);
        assert(run.state().out =~= initial(g.len()).out);
        assert(run.state().idx =~= initial(g.len()).idx);
        assert(run.state().low =~= initial(g.len()).low);
        assert(run.state().on =~= initial(g.len()).on);
    }
    while run.start < n || run.call_stack.len() > 0
        invariant
            n == adj@.len(),
            g == lists(adj@),
            graph_wf(g),
            run.state() == after(g, k),
            inv(g, run.state()),
        decreases
            n - run.counter,
            run.call_stack@.len(),
            (if run.call_stack@.len() > 0 {
                g[run.call_stack@.last().0 as int].len() - run.call_stack@.last().1
            } else {
                0
            }),
            n - run.start,
    {
        let ghost s = run.state();
        proof {
            exec_facts(g, s);
            inv_step(g, s);
            exec_facts(g, step(g, s));
        }
        let depth: usize = run.call_stack.len();
        if depth == 0 {
            let start: usize = run.start;
            if run.indices[start].is_some() {
                run.start = start + 1;
            } else {
                run.enter(start);
            }
        } else {
            let (v, next): (usize, usize) = run.call_stack[depth - 1];
            if next < adj[v].len() {
                let w: usize = adj[v][next];
                assert(w == g[v as int][next as int]);
                run.call_stack.set(depth - 1, (v, next + 1));
                match run.indices[w] {
                    None => {
                        run.enter(w);
                    },
                    Some(iw) => {
                        if run.on_stack[w] {
                            if iw < run.lowlink[v] {
                                run.lowlink.set(v, iw);
                            } else {
                                proof {
                                    assert(run.lowlink@.update(v as int, run.lowlink@[v as int])
                                        =~= run.lowlink@);
                                }
                            }
                        }
                    },
                }
            } else {
                let low: usize = run.lowlink[v];
                run.call_stack.pop();
                assert(run.call_stack@ =~= s.call.drop_last());
                if depth > 1 {
                    let parent: usize = run.call_stack[depth - 2].0;
                    if low < run.lowlink[parent] {
                        run.lowlink.set(parent, low);
                    } else {
                        proof {
                            assert(run.lowlink@.update(parent as int, run.lowlink@[parent as int])
                                =~= run.lowlink@);
                        }
                    }
                }
                let root = match run.indices[v] {
                    Some(iv) => low == iv,
                    None => false,
                };
                if root {
                    run.close(v);
                }
            }
        }
        proof {
            assert(run.state() == step(g, s));
            k = k + 1;
        }
    }
    proof {
        assert(finished(g, after(g, k)));
        finished_output(g, run.state());
    }
    run.sccs
}

} // verus!
