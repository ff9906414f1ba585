//! Layerings of graphs: topological order, longest-path layers, ranks within
//! layers, renumbering and neighbour-barycenter ordering.

use vstd::prelude::*;

#[allow(unused_imports)]
use crate::counting::{
    count, count_bound, count_eq, count_insert, count_lt, count_monotone, count_positive,
    count_witness, sum, sum_eq, sum_one,
};
use crate::cycles::list_contains;
#[allow(unused_imports)]
use crate::cycles::{falls_along, ranked};
#[allow(unused_imports)]
use crate::ordering::{where_list, where_list_contains, where_list_sorted};
#[allow(unused_imports)]
use crate::tarjan::{graph_wf, has_edge, lists};

verus! {

// ---------------------------------------------------------------------------
// Topological order
// ---------------------------------------------------------------------------

/// The positions at which the list holds `v`.
pub open spec fn holds_at(s: Seq<usize>, v: int) -> spec_fn(int) -> bool {
    |j: int| s[j] == v
}

/// How often the list holds `v`.
pub open spec fn occurrences(s: Seq<usize>, v: int) -> nat {
    count(holds_at(s, v), s.len() as int)
}

/// How many edges lead to `v` from vertices outside `done`.
spec fn incoming(g: Seq<Seq<usize>>, done: spec_fn(int) -> bool, v: int) -> int {
    sum(
        |u: int|
            if done(u) {
                0int
            } else {
                occurrences(g[u], v) as int
            },
        g.len() as int,
    )
}

/// The sequence lists `0..n`, each once.
pub open spec fn is_permutation(order: Seq<usize>, n: nat) -> bool {
    &&& order.len() == n
    &&& order.no_duplicates()
    &&& forall|p: int| 0 <= p < order.len() ==> (#[trigger] order[p]) < n
    &&& forall|v: int| 0 <= v < n ==> #[trigger] order.contains(v as usize)
}

/// Every vertex comes after the vertices that lead to it.
pub open spec fn respects_edges(g: Seq<Seq<usize>>, order: Seq<usize>) -> bool {
    forall|u: int, p: int|
        #![trigger has_edge(g, u, order[p] as int)]
        0 <= p < order.len() && has_edge(g, u, order[p] as int) ==> exists|q: int|
            0 <= q < p && #[trigger] order[q] == u
}

/// Every vertex that leads to `v` is in the list.
pub open spec fn preceded(g: Seq<Seq<usize>>, out: Seq<usize>, v: int) -> bool {
    forall|u: int| #[trigger] has_edge(g, u, v) ==> out.contains(u as usize)
}

/// The vertices that become ready when the first `j` edges of a vertex with
/// successors `s` are taken off, in the order of those edges. Of parallel
/// edges the last one counts.
pub open spec fn freed(g: Seq<Seq<usize>>, out: Seq<usize>, s: Seq<usize>, j: int) -> Seq<usize>
    decreases j,
{
    if j <= 0 {
        Seq::empty()
    } else if preceded(g, out, s[j - 1] as int) && (forall|k: int|
        j <= k < s.len() ==> #[trigger] s[k] != s[j - 1]) {
        freed(g, out, s, j - 1).push(s[j - 1])
    } else {
        freed(g, out, s, j - 1)
    }
}

/// Goes on with an order for `steps` vertices: the newest ready vertex comes
/// next, and what it makes ready is newer than what was ready before.
pub open spec fn newest_first(
    g: Seq<Seq<usize>>,
    out: Seq<usize>,
    ready: Seq<usize>,
    steps: nat,
) -> Seq<usize>
    decreases steps,
{
    if steps == 0 || ready.len() == 0 {
        out
    } else {
        let u = ready.last();
        let s = g[u as int];
        newest_first(
            g,
            out.push(u),
            ready.drop_last() + freed(g, out.push(u), s, s.len() as int),
            (steps - 1) as nat,
        )
    }
}

/// Nothing leads to the vertex.
pub open spec fn has_no_source(g: Seq<Seq<usize>>) -> spec_fn(int) -> bool {
    |v: int| preceded(g, Seq::empty(), v)
}

/// The vertices that can be ordered, the newest ready one first. At the start
/// the last vertex to which nothing leads is the newest.
pub open spec fn sorted_part(g: Seq<Seq<usize>>) -> Seq<usize> {
    newest_first(g, Seq::empty(), where_list(has_no_source(g), g.len() as int), g.len())
}

/// The vertex is not in the list.
pub open spec fn unlisted(out: Seq<usize>) -> spec_fn(int) -> bool {
    |v: int| !out.contains(v as usize)
}

/// Kahn's topological order; vertices on and behind cycles come last, by
/// number.
pub open spec fn topological(g: Seq<Seq<usize>>) -> Seq<usize> {
    sorted_part(g) + where_list(unlisted(sorted_part(g)), g.len() as int)
}

/// In-degrees, counting parallel edges.
fn in_degrees(dag: &Vec<Vec<usize>>) -> (indeg: Vec<u128>)
    requires
        graph_wf(lists(dag@)),
    ensures
        indeg@.len() == dag@.len(),
        forall|v: int|
            0 <= v < dag@.len() ==> #[trigger] indeg@[v] == incoming(
                lists(dag@),
                |u: int| false,
                v,
            ),
{
    let ghost g = lists(dag@);
    let n: usize = dag.len();
    let mut indeg: Vec<u128> = Vec::new();
    let mut v: usize = 0;
    while v < n
        invariant
            n == dag@.len(),
            g == lists(dag@),
            v <= n,
            indeg@.len() == v,
            forall|w: int|
                0 <= w < v ==> #[trigger] indeg@[w] == incoming(g, |u: int| false, w),
        decreases n - v,
    {
        let ghost f = |u: int|
            if (|u: int| false)(u) {
                0int
            } else {
                occurrences(g[u], v as int) as int
            };
        let mut total: u128 = 0;
        let mut u: usize = 0;
        while u < n
            invariant
                n == dag@.len(),
                g == lists(dag@),
                    v < n,
                f == (|u: int|
                    if (|u: int| false)(u) {
                        0int
                    } else {
                        occurrences(g[u], v as int) as int
                    }),
                u <= n,
                total == sum(f, u as int),
                total <= u * usize::MAX,
            decreases n - u,
        {
            let list = &dag[u];
            let ghost p = holds_at(g[u as int], v as int);
            let mut here: usize = 0;
            let mut j: usize = 0;
            while j < list.len()
                invariant
                    u < n,
                    n == dag@.len(),
                    g == lists(dag@),
                    list@ == g[u as int],
                    p == holds_at(g[u as int], v as int),
                    j <= list@.len(),
                    here <= j,
                    here == count(p, j as int),
                decreases list@.len() - j,
            {
                if list[j] == v {
                    here = here + 1;
                }
                j = j + 1;
            }
            proof {
                let m = usize::MAX as int;
                assert(u * m + here <= (u + 1) * m) by (nonlinear_arith)
                    requires
                        here <= m,
                ;
                assert((u + 1) * m <= 0xffff_ffff_ffff_ffff * 0xffff_ffff_ffff_ffff)
                    by (nonlinear_arith)
                    requires
                        0 <= u + 1 <= m,
                        m <= 0xffff_ffff_ffff_ffff,
                ;
            }
            total = total + here as u128;
            u = u + 1;
        }
        proof {
            assert(incoming(g, |u: int| false, v as int) == sum(f, n as int)) by {
                let h = |u: int|
                    if (|u: int| false)(u) {
                        0int
                    } else {
                        occurrences(g[u], v as int) as int
                    };
                sum_eq(f, h, n as int);
            }
        }
        indeg.push(total);
        v = v + 1;
    }
    indeg
}

/// The vertices already listed.
spec fn listed(out: Seq<usize>) -> spec_fn(int) -> bool {
    |u: int| out.contains(u as usize)
}

/// How often `v` occurs from position `j` on.
spec fn occurrences_from(s: Seq<usize>, v: int, j: int) -> int {
    occurrences(s, v) - count(holds_at(s, v), j)
}

proof fn incoming_after(g: Seq<Seq<usize>>, out: Seq<usize>, u: usize, v: int)
    requires
        u < g.len(),
        g.len() <= usize::MAX,
        !out.contains(u),
    ensures
        incoming(g, listed(out.push(u)), v) == incoming(g, listed(out), v) - occurrences(
            g[u as int],
            v,
        ),
{
    let n = g.len() as int;
    let before = |a: int|
        if listed(out)(a) {
            0int
        } else {
            occurrences(g[a], v) as int
        };
    let after = |a: int|
        if listed(out.push(u))(a) {
            0int
        } else {
            occurrences(g[a], v) as int
        };
    assert forall|a: int| 0 <= a < n && a != u implies #[trigger] before(a) == after(a) by {
        push_contains(out, u, a as usize);
    }
    push_contains(out, u, u);
    sum_one(before, after, n, u as int);
}

proof fn push_contains(out: Seq<usize>, u: usize, a: usize)
    ensures
        out.push(u).contains(a) <==> out.contains(a) || a == u,
{
    if out.contains(a) {
        let i = choose|i: int| 0 <= i < out.len() && out[i] == a;
        assert(out.push(u)[i] == a);
    }
    assert(out.push(u)[out.len() as int] == u);
    if out.push(u).contains(a) {
        let i = choose|i: int| 0 <= i < out.push(u).len() && out.push(u)[i] == a;
        if i < out.len() {
            assert(out[i] == a);
        }
    }
}

proof fn incoming_nonnegative(g: Seq<Seq<usize>>, done: spec_fn(int) -> bool, v: int)
    ensures
        0 <= incoming(g, done, v),
{
    let f = |u: int|
        if done(u) {
            0int
        } else {
            occurrences(g[u], v) as int
        };
    sum_nonnegative(f, g.len() as int);
}

proof fn sum_nonnegative(f: spec_fn(int) -> int, n: int)
    requires
        forall|i: int| 0 <= i < n ==> 0 <= #[trigger] f(i),
    ensures
        0 <= sum(f, n),
    decreases n,
{
    if n > 0 {
        sum_nonnegative(f, n - 1);
        assert(0 <= f(n - 1));
    }
}

/// No incoming edges means that every predecessor is done.
proof fn incoming_zero(g: Seq<Seq<usize>>, done: spec_fn(int) -> bool, u: int, v: int)
    requires
        incoming(g, done, v) == 0,
        has_edge(g, u, v),
    ensures
        done(u),
{
    if !done(u) {
        let j = choose|j: int| 0 <= j < g[u].len() && #[trigger] g[u][j] == v;
        count_positive(holds_at(g[u], v), g[u].len() as int, j);
        let f = |u: int|
            if done(u) {
                0int
            } else {
                occurrences(g[u], v) as int
            };
        sum_positive(f, g.len() as int, u);
    }
}

proof fn sum_positive(f: spec_fn(int) -> int, n: int, k: int)
    requires
        0 <= k < n,
        forall|i: int| 0 <= i < n ==> 0 <= #[trigger] f(i),
        f(k) > 0,
    ensures
        sum(f, n) > 0,
    decreases n,
{
    if k == n - 1 {
        sum_nonnegative(f, n - 1);
    } else {
        sum_positive(f, n - 1, k);
        assert(0 <= f(n - 1));
    }
}

/// An incoming edge has a source.
proof fn incoming_source(g: Seq<Seq<usize>>, done: spec_fn(int) -> bool, v: int) -> (u: int)
    requires
        incoming(g, done, v) > 0,
    ensures
        0 <= u < g.len(),
        !done(u),
        has_edge(g, u, v),
{
    let f = |u: int|
        if done(u) {
            0int
        } else {
            occurrences(g[u], v) as int
        };
    let u = sum_source(f, g.len() as int);
    assert(f(u) > 0);
    let j = count_witness(holds_at(g[u], v), g[u].len() as int);
    assert(g[u][j] == v);
    u
}

proof fn sum_source(f: spec_fn(int) -> int, n: int) -> (k: int)
    requires
        sum(f, n) > 0,
    ensures
        0 <= k < n,
        f(k) > 0,
    decreases n,
{
    if f(n - 1) > 0 {
        n - 1
    } else {
        sum_source(f, n - 1)
    }
}

/// What the order, the queue and the in-degrees satisfy, with `extra(v)` the
/// edges of the vertex in hand that are still to be taken off.
spec fn kahn_inv(
    g: Seq<Seq<usize>>,
    out: Seq<usize>,
    queue: Seq<usize>,
    indeg: Seq<u128>,
    extra: spec_fn(int) -> int,
) -> bool {
    &&& indeg.len() == g.len()
    &&& out.no_duplicates()
    &&& queue.no_duplicates()
    &&& forall|p: int| 0 <= p < out.len() ==> (#[trigger] out[p]) < g.len()
    &&& forall|p: int| 0 <= p < queue.len() ==> (#[trigger] queue[p]) < g.len() && !out.contains(queue[p])
    &&& forall|v: int|
        0 <= v < g.len() ==> #[trigger] indeg[v] == incoming(g, listed(out), v) + extra(v)
    &&& forall|v: int|
        0 <= v < g.len() ==> ((#[trigger] indeg[v]) == 0 <==> out.contains(v as usize)
            || queue.contains(v as usize))
    &&& respects_edges(g, out)
}

spec fn nothing() -> spec_fn(int) -> int {
    |v: int| 0int
}

spec fn rest_of(s: Seq<usize>, j: int) -> spec_fn(int) -> int {
    |v: int| occurrences_from(s, v, j)
}

/// Kahn's topological order, taking the newest ready vertex first.
///
/// On a graph that can be numbered downwards every vertex comes after its
/// predecessors.
#[verifier::rlimit(60)]
pub fn topo_order(dag: &Vec<Vec<usize>>) -> (out: Vec<usize>)
    requires
        graph_wf(lists(dag@)),
    ensures
        out@ == topological(lists(dag@)),
        is_permutation(out@, dag@.len()),
        ranked(lists(dag@)) ==> respects_edges(lists(dag@), out@),
{
    let ghost g = lists(dag@);
    let n: usize = dag.len();
    let ghost free = has_no_source(g);
    let mut indeg: Vec<u128> = in_degrees(dag);
    let mut queue: Vec<usize> = Vec::new();
    let mut i: usize = 0;
    while i < n
        invariant
            n == g.len(),
            indeg@.len() == n,
            i <= n,
            free == has_no_source(g),
            forall|v: int|
                0 <= v < n ==> #[trigger] indeg@[v] == incoming(g, |u: int| false, v),
            queue@ == where_list(free, i as int),
            queue@.no_duplicates(),
            forall|p: int| 0 <= p < queue@.len() ==> (#[trigger] queue@[p]) < i,
            forall|v: int| 0 <= v < i ==> ((#[trigger] indeg@[v]) == 0 <==> queue@.contains(v as usize)),
        decreases n - i,
    {
        let ghost before = queue@;
        proof {
            assert(indeg@[i as int] == incoming(g, |u: int| false, i as int));
            source_free(g, i as int);
        }
        if indeg[i] == 0 {
            queue.push(i);
            proof {
                assert forall|v: int| 0 <= v < i + 1 implies (#[trigger] queue@.contains(v as usize)
                    <==> before.contains(v as usize) || v == i) by {
                    push_contains(before, i, v as usize);
                }
            }
        }
        proof {
            if before.contains(i) {
                let p = choose|p: int| 0 <= p < before.len() && before[p] == i;
                assert(before[p] < i);
            }
        }
        i = i + 1;
    }
    let mut out: Vec<usize> = Vec::new();
    proof {
        assert forall|v: int| 0 <= v < g.len() implies #[trigger] indeg@[v] == incoming(
            g,
            listed(out@),
            v,
        ) + nothing()(v) by {
            let f = |u: int|
                if (|u: int| false)(u) {
                    0int
                } else {
                    occurrences(g[u], v) as int
                };
            let h = |u: int|
                if listed(out@)(u) {
                    0int
                } else {
                    occurrences(g[u], v) as int
                };
            sum_eq(f, h, g.len() as int);
        }
        assert(kahn_inv(g, out@, queue@, indeg@, nothing()));
    }

    while queue.len() > 0
        invariant
            n == g.len(),
            g == lists(dag@),
            graph_wf(g),
            kahn_inv(g, out@, queue@, indeg@, nothing()),
            out@.len() <= n,
            newest_first(g, out@, queue@, (n - out@.len()) as nat) == sorted_part(g),
        decreases n - out@.len(),
    {
        let ghost queue0 = queue@;
        let ghost out0 = out@;
        let ghost indeg0 = indeg@;
        proof {
            no_more_than(out0, g.len());
        }
        match queue.pop() {
            Some(u) => {
                proof {
                    assert(queue0[queue0.len() - 1] == u);
                    assert(!out0.contains(u));
                    no_more_than(out0.push(u), g.len());
                }
                out.push(u);
                let list = &dag[u];
                let mut j: usize = 0;
                proof {
                    kahn_take(g, out0, queue0, indeg0, u);
                    assert(queue@ =~= queue0.drop_last());
                    assert(out@ =~= out0.push(u));
                }
                while j < list.len()
                    invariant
                        n == g.len(),
                        g == lists(dag@),
                        graph_wf(g),
                        u < n,
                        list@ == g[u as int],
                        j <= list@.len(),
                        out@ == out0.push(u),
                        queue@ == queue0.drop_last() + freed(g, out@, list@, j as int),
                        kahn_inv(g, out@, queue@, indeg@, rest_of(list@, j as int)),
                    decreases list@.len() - j,
                {
                    let v: usize = list[j];
                    assert(g[u as int][j as int] == v);
                    let ghost queue1 = queue@;
                    let ghost indeg1 = indeg@;
                    proof {
                        kahn_positive(g, out@, queue1, indeg1, u, j as int);
                    }
                    let left: u128 = indeg[v] - 1;
                    indeg.set(v, left);
                    if left == 0 {
                        queue.push(v);
                    }
                    proof {
                        kahn_drop(g, out@, queue1, indeg1, u, j as int);
                        kahn_ready(g, out@, indeg@, u, j as int);
                        assert(queue@ =~= queue0.drop_last() + freed(g, out@, list@, j + 1));
                    }
                    j = j + 1;
                }
                proof {
                    let s = list@;
                    let e = rest_of(s, s.len() as int);
                    let f = nothing();
                    assert forall|v: int| 0 <= v < g.len() implies #[trigger] e(v) == f(v) by {}
                    kahn_same_extra(g, out@, queue@, indeg@, e, f);
                }
            },
            None => {},
        }
    }
    let ghost sorted = out@;
    let ghost rest = unlisted(sorted);
    proof {
        assert(sorted == sorted_part(g));
        if ranked(g) {
            kahn_complete(g, out@, queue@, indeg@);
        }
    }
    let mut i: usize = 0;
    while i < n
        invariant
            n == g.len(),
            i <= n,
            rest == unlisted(sorted),
            out@ == sorted + where_list(rest, i as int),
            out@.no_duplicates(),
            forall|p: int| 0 <= p < out@.len() ==> (#[trigger] out@[p]) < n,
            forall|v: int| 0 <= v < i ==> #[trigger] out@.contains(v as usize),
            forall|v: int|
                0 <= v < n && sorted.contains(v as usize) ==> #[trigger] out@.contains(v as usize),
            (forall|v: int| 0 <= v < n ==> #[trigger] sorted.contains(v as usize)) ==> out@
                == sorted,
        decreases n - i,
    {
        let ghost before = out@;
        proof {
            crate::ordering::where_list_contains(rest, i as int, i);
            assert(before.contains(i) <==> sorted.contains(i)) by {
                let w = where_list(rest, i as int);
                if before.contains(i) {
                    let p = choose|p: int| 0 <= p < before.len() && before[p] == i;
                    if p < sorted.len() {
                        assert(sorted[p] == i);
                    } else {
                        assert(w[p - sorted.len()] == i);
                        assert(w.contains(i));
                    }
                }
                if sorted.contains(i) {
                    let p = choose|p: int| 0 <= p < sorted.len() && sorted[p] == i;
                    assert(before[p] == i);
                }
            }
        }
        if !list_contains(&out, i) {
            proof {
                assert(!sorted.contains(i as int as usize)) by {
                    if sorted.contains(i as int as usize) {
                        assert(out@.contains(i as int as usize));
                    }
                }
            }
            out.push(i);
            proof {
                assert forall|v: int| 0 <= v < n implies (#[trigger] out@.contains(v as usize)
                    <==> before.contains(v as usize) || v == i) by {
                    push_contains(before, i, v as usize);
                }
            }
        }
        i = i + 1;
    }
    proof {
        permutation_length(out@, g.len());
    }
    out
}

/// Nothing leads to a vertex of in-degree zero.
proof fn source_free(g: Seq<Seq<usize>>, v: int)
    requires
        g.len() <= usize::MAX,
    ensures
        incoming(g, |u: int| false, v) == 0 <==> preceded(g, Seq::empty(), v),
{
    let none = |u: int| false;
    incoming_nonnegative(g, none, v);
    if incoming(g, none, v) == 0 {
        assert forall|u: int| #[trigger] has_edge(g, u, v) implies Seq::<usize>::empty().contains(
            u as usize,
        ) by {
            incoming_zero(g, none, u, v);
        }
    } else {
        let u = incoming_source(g, none, v);
        assert(has_edge(g, u, v));
    }
}

/// An edge of the vertex in hand makes its target ready if it is the last one
/// that leads there.
proof fn kahn_ready(g: Seq<Seq<usize>>, out: Seq<usize>, indeg: Seq<u128>, u: usize, j: int)
    requires
        graph_wf(g),
        u < g.len(),
        0 <= j < g[u as int].len(),
        indeg.len() == g.len(),
        indeg[g[u as int][j] as int] == incoming(g, listed(out), g[u as int][j] as int) + rest_of(
            g[u as int],
            j + 1,
        )(g[u as int][j] as int),
    ensures
        ({
            let s = g[u as int];
            indeg[s[j] as int] == 0 <==> preceded(g, out, s[j] as int) && (forall|k: int|
                j + 1 <= k < s.len() ==> #[trigger] s[k] != s[j])
        }),
{
    let s = g[u as int];
    let v = s[j] as int;
    let p = holds_at(s, v);
    let n = s.len() as int;
    incoming_nonnegative(g, listed(out), v);
    count_monotone(p, j + 1, n);
    if incoming(g, listed(out), v) == 0 {
        assert forall|w: int| #[trigger] has_edge(g, w, v) implies out.contains(w as usize) by {
            incoming_zero(g, listed(out), w, v);
        }
    } else {
        let w = incoming_source(g, listed(out), v);
        assert(has_edge(g, w, v));
    }
    if count(p, n) == count(p, j + 1) {
        assert forall|k: int| j + 1 <= k < n implies #[trigger] s[k] != s[j] by {
            if s[k] == s[j] {
                assert(p(k));
                count_monotone(p, j + 1, k);
                assert(count(p, k + 1) == count(p, k) + 1);
                count_monotone(p, k + 1, n);
            }
        }
    } else if forall|k: int| j + 1 <= k < n ==> #[trigger] s[k] != s[j] {
        assert forall|k: int| j + 1 <= k < n implies !#[trigger] p(k) by {
            assert(s[k] != s[j]);
        }
        count_flat(p, j + 1, n);
    }
}

proof fn count_flat(p: spec_fn(int) -> bool, m: int, n: int)
    requires
        0 <= m <= n,
        forall|k: int| m <= k < n ==> !#[trigger] p(k),
    ensures
        count(p, m) == count(p, n),
    decreases n,
{
    if m < n {
        count_flat(p, m, n - 1);
        assert(!p(n - 1));
    }
}

proof fn kahn_same_extra(
    g: Seq<Seq<usize>>,
    out: Seq<usize>,
    queue: Seq<usize>,
    indeg: Seq<u128>,
    e: spec_fn(int) -> int,
    f: spec_fn(int) -> int,
)
    requires
        kahn_inv(g, out, queue, indeg, e),
        forall|v: int| 0 <= v < g.len() ==> #[trigger] e(v) == f(v),
    ensures
        kahn_inv(g, out, queue, indeg, f),
{
}

/// Taking a ready vertex out of the queue.
proof fn kahn_take(
    g: Seq<Seq<usize>>,
    out: Seq<usize>,
    queue: Seq<usize>,
    indeg: Seq<u128>,
    u: usize,
)
    requires
        graph_wf(g),
        kahn_inv(g, out, queue, indeg, nothing()),
        queue.len() > 0,
        u == queue.last(),
    ensures
        kahn_inv(g, out.push(u), queue.drop_last(), indeg, rest_of(g[u as int], 0)),
{
    let out1 = out.push(u);
    let queue1 = queue.drop_last();
    assert(queue[queue.len() - 1] == u);
    assert forall|i: int, j: int| 0 <= i < j < out1.len() implies out1[i] != out1[j] by {
        if j == out.len() {
            assert(out1[i] == out[i]);
            assert(!out.contains(u));
        }
    }
    assert forall|p: int| 0 <= p < queue1.len() implies (#[trigger] queue1[p]) < g.len()
        && !out1.contains(queue1[p]) by {
        assert(queue[p] == queue1[p]);
        assert(queue[p] != u);
        push_contains(out, u, queue1[p]);
    }
    assert forall|v: int| 0 <= v < g.len() implies #[trigger] indeg[v] == incoming(
        g,
        listed(out1),
        v,
    ) + rest_of(g[u as int], 0)(v) by {
        incoming_after(g, out, u, v);
    }
    assert forall|v: int| 0 <= v < g.len() implies ((#[trigger] indeg[v]) == 0 <==> out1.contains(
        v as usize,
    ) || queue1.contains(v as usize)) by {
        push_contains(out, u, v as usize);
        if queue.contains(v as usize) {
            let p = choose|p: int| 0 <= p < queue.len() && queue[p] == v as usize;
            if p < queue1.len() {
                assert(queue1[p] == v as usize);
            }
        }
        if queue1.contains(v as usize) {
            let p = choose|p: int| 0 <= p < queue1.len() && queue1[p] == v as usize;
            assert(queue[p] == v as usize);
        }
        if v == u {
            assert(queue.contains(v as usize));
        }
    }
    assert forall|w: int, p: int|
        #![trigger has_edge(g, w, out1[p] as int)]
        0 <= p < out1.len() && has_edge(g, w, out1[p] as int) implies exists|q: int|
        0 <= q < p && #[trigger] out1[q] == w by {
        if p < out.len() {
            assert(out1[p] == out[p]);
            assert(has_edge(g, w, out[p] as int));
            let q = choose|q: int| 0 <= q < p && #[trigger] out[q] == w;
            assert(out1[q] == w);
        } else {
            assert(queue.contains(u as int as usize));
            assert(indeg[u as int] == 0);
            incoming_zero(g, listed(out), w, u as int);
            let q = choose|q: int| 0 <= q < out.len() && out[q] == w as usize;
            assert(out1[q] == w);
        }
    }
}

/// The next edge of the vertex in hand still counts.
proof fn kahn_positive(
    g: Seq<Seq<usize>>,
    out: Seq<usize>,
    queue: Seq<usize>,
    indeg: Seq<u128>,
    u: usize,
    j: int,
)
    requires
        graph_wf(g),
        u < g.len(),
        kahn_inv(g, out, queue, indeg, rest_of(g[u as int], j)),
        0 <= j < g[u as int].len(),
    ensures
        g[u as int][j] < indeg.len(),
        indeg[g[u as int][j] as int] > 0,
{
    let s = g[u as int];
    let v = s[j] as int;
    incoming_nonnegative(g, listed(out), v);
    let p = holds_at(s, v);
    assert(p(j));
    count_monotone(p, j + 1, s.len() as int);
    assert(count(p, j + 1) == count(p, j) + 1);
}

/// Taking one edge of the vertex in hand off.
proof fn kahn_drop(
    g: Seq<Seq<usize>>,
    out: Seq<usize>,
    queue: Seq<usize>,
    indeg: Seq<u128>,
    u: usize,
    j: int,
)
    requires
        graph_wf(g),
        u < g.len(),
        kahn_inv(g, out, queue, indeg, rest_of(g[u as int], j)),
        0 <= j < g[u as int].len(),
        indeg[g[u as int][j] as int] > 0,
    ensures
        ({
            let v = g[u as int][j];
            let left = (indeg[v as int] - 1) as u128;
            let queue1 = if left == 0 {
                queue.push(v)
            } else {
                queue
            };
            kahn_inv(g, out, queue1, indeg.update(v as int, left), rest_of(g[u as int], j + 1))
        }),
{
    let s = g[u as int];
    let v = s[j];
    let left = (indeg[v as int] - 1) as u128;
    let queue1 = if left == 0 {
        queue.push(v)
    } else {
        queue
    };
    let indeg1 = indeg.update(v as int, left);
    assert(!out.contains(v as int as usize) && !queue.contains(v as int as usize));
    assert forall|w: int| 0 <= w < g.len() implies #[trigger] indeg1[w] == incoming(
        g,
        listed(out),
        w,
    ) + rest_of(s, j + 1)(w) by {
        let p = holds_at(s, w);
        assert(count(p, j + 1) == count(p, j) + (if p(j) {
            1nat
        } else {
            0nat
        }));
        assert(indeg[w] == incoming(g, listed(out), w) + rest_of(s, j)(w));
    }
    assert forall|a: int, b: int| 0 <= a < b < queue1.len() implies queue1[a] != queue1[b] by {
        if b == queue.len() {
            assert(queue1[a] == queue[a]);
        }
    }
    assert forall|p: int| 0 <= p < queue1.len() implies (#[trigger] queue1[p]) < g.len()
        && !out.contains(queue1[p]) by {
        if p < queue.len() {
            assert(queue1[p] == queue[p]);
        }
    }
    assert forall|w: int| 0 <= w < g.len() implies ((#[trigger] indeg1[w]) == 0 <==> out.contains(
        w as usize,
    ) || queue1.contains(w as usize)) by {
        assert(indeg[w] == 0 <==> out.contains(w as usize) || queue.contains(w as usize));
        if left == 0 {
            push_contains(queue, v, w as usize);
        }
    }
}

/// An empty queue leaves nothing out when the graph can be numbered.
proof fn kahn_complete(
    g: Seq<Seq<usize>>,
    out: Seq<usize>,
    queue: Seq<usize>,
    indeg: Seq<u128>,
)
    requires
        graph_wf(g),
        ranked(g),
        kahn_inv(g, out, queue, indeg, nothing()),
        queue.len() == 0,
    ensures
        forall|v: int| 0 <= v < g.len() ==> #[trigger] out.contains(v as usize),
{
    let rank = choose|rank: Seq<int>| #[trigger] falls_along(g, rank);
    if exists|v: int| 0 <= v < g.len() && !#[trigger] out.contains(v as usize) {
        let v0 = choose|v: int| 0 <= v < g.len() && !#[trigger] out.contains(v as usize);
        let v = highest(out, rank, g.len() as int, v0);
        assert(indeg[v] > 0);
        let u = incoming_source(g, listed(out), v);
        let j = choose|j: int| 0 <= j < g[u].len() && #[trigger] g[u][j] == v;
        assert(rank[g[u][j] as int] < rank[u]);
        assert(!out.contains(u as usize));
    }
}

/// The vertex of largest number outside the list.
proof fn highest(out: Seq<usize>, rank: Seq<int>, n: int, v0: int) -> (v: int)
    requires
        0 <= v0 < n,
        !out.contains(v0 as usize),
    ensures
        0 <= v < n,
        !out.contains(v as usize),
        forall|w: int|
            0 <= w < n && !#[trigger] out.contains(w as usize) ==> rank[w] <= rank[v],
    decreases n,
{
    if exists|w: int| 0 <= w < n - 1 && !#[trigger] out.contains(w as usize) {
        let w0 = choose|w: int| 0 <= w < n - 1 && !#[trigger] out.contains(w as usize);
        let v = highest(out, rank, n - 1, w0);
        if !out.contains((n - 1) as usize) && rank[n - 1] > rank[v] {
            n - 1
        } else {
            v
        }
    } else {
        v0
    }
}

/// A list without repetition below `n` has at most `n` entries.
pub proof fn no_more_than(s: Seq<usize>, n: nat)
    requires
        s.no_duplicates(),
        forall|p: int| 0 <= p < s.len() ==> (#[trigger] s[p]) < n,
    ensures
        s.len() <= n,
    decreases n,
{
    if n == 0 {
        if s.len() > 0 {
            assert(s[0] < n);
        }
    } else {
        let m = (n - 1) as nat;
        let top = m as usize;
        if exists|p: int| 0 <= p < s.len() && s[p] == m {
            let p = choose|p: int| 0 <= p < s.len() && s[p] == m;
            let t = s.remove(p);
            assert forall|q: int| 0 <= q < t.len() implies (#[trigger] t[q]) < m by {
                let r = if q < p {
                    q
                } else {
                    q + 1
                };
                assert(t[q] == s[r]);
                assert(s[r] < n);
                assert(s[r] != s[p]);
            }
            assert forall|a: int, b: int| 0 <= a < b < t.len() implies t[a] != t[b] by {
                let x = if a < p {
                    a
                } else {
                    a + 1
                };
                let y = if b < p {
                    b
                } else {
                    b + 1
                };
                assert(t[a] == s[x] && t[b] == s[y]);
            }
            no_more_than(t, m);
        } else {
            assert forall|q: int| 0 <= q < s.len() implies (#[trigger] s[q]) < m by {
                assert(s[q] != m);
            }
            no_more_than(s, m);
        }
    }
}

/// A list that holds every number below `n` has at least `n` entries.
proof fn no_fewer_than(s: Seq<usize>, n: nat)
    requires
        s.no_duplicates(),
        n <= usize::MAX,
        forall|v: int| 0 <= v < n ==> #[trigger] s.contains(v as usize),
    ensures
        s.len() >= n,
    decreases n,
{
    if n > 0 {
        let m = (n - 1) as nat;
        assert(s.contains(m as int as usize));
        let p = choose|p: int| 0 <= p < s.len() && s[p] == m;
        let t = s.remove(p);
        assert forall|v: int| 0 <= v < m implies #[trigger] t.contains(v as usize) by {
            assert(s.contains(v as usize));
            let q = choose|q: int| 0 <= q < s.len() && s[q] == v as usize;
            if q < p {
                assert(t[q] == v as usize);
            } else {
                assert(t[q - 1] == v as usize);
            }
        }
        assert forall|a: int, b: int| 0 <= a < b < t.len() implies t[a] != t[b] by {
            let x = if a < p {
                a
            } else {
                a + 1
            };
            let y = if b < p {
                b
            } else {
                b + 1
            };
            assert(t[a] == s[x] && t[b] == s[y]);
        }
        no_fewer_than(t, m);
    }
}

proof fn permutation_length(s: Seq<usize>, n: nat)
    requires
        s.no_duplicates(),
        n <= usize::MAX,
        forall|p: int| 0 <= p < s.len() ==> (#[trigger] s[p]) < n,
        forall|v: int| 0 <= v < n ==> #[trigger] s.contains(v as usize),
    ensures
        s.len() == n,
{
    no_more_than(s, n);
    no_fewer_than(s, n);
}

// ---------------------------------------------------------------------------
// Layers
// ---------------------------------------------------------------------------

/// The longest-path layering: sources and vertices without predecessors are in
/// layer 0, every other vertex is one layer past the last of its predecessors.
pub open spec fn is_layering(g: Seq<Seq<usize>>, sources: Seq<bool>, layers: Seq<u32>) -> bool {
    &&& layers.len() == g.len()
    &&& forall|v: int| 0 <= v < g.len() ==> #[trigger] layer_at(g, sources, layers, v)
}

/// The layer of `v` is what the layers of its predecessors make it.
pub open spec fn layer_at(
    g: Seq<Seq<usize>>,
    sources: Seq<bool>,
    layers: Seq<u32>,
    v: int,
) -> bool {
    if sources[v] {
        layers[v] == 0
    } else {
        &&& forall|u: int| #[trigger] has_edge(g, u, v) ==> layers[u] < layers[v]
        &&& layers[v] == 0 || exists|u: int| #[trigger] has_edge(g, u, v) && layers[v] == layers[u] + 1
    }
}

/// A graph that can be numbered downwards has one layering.
pub proof fn layering_unique(
    g: Seq<Seq<usize>>,
    sources: Seq<bool>,
    a: Seq<u32>,
    b: Seq<u32>,
)
    requires
        graph_wf(g),
        ranked(g),
        is_layering(g, sources, a),
        is_layering(g, sources, b),
    ensures
        a == b,
{
    let rank = choose|rank: Seq<int>| #[trigger] falls_along(g, rank);
    assert forall|v: int| 0 <= v < g.len() implies a[v] == b[v] by {
        let top = highest(Seq::empty(), rank, g.len() as int, v);
        assert forall|w: int| 0 <= w < g.len() implies #[trigger] rank[w] <= rank[top] by {
            assert(!Seq::<usize>::empty().contains(w as usize));
        }
        layering_unique_at(g, sources, a, b, rank, rank[top], v);
    }
    assert(a =~= b);
}

proof fn layering_unique_at(
    g: Seq<Seq<usize>>,
    sources: Seq<bool>,
    a: Seq<u32>,
    b: Seq<u32>,
    rank: Seq<int>,
    top: int,
    v: int,
)
    requires
        graph_wf(g),
        falls_along(g, rank),
        is_layering(g, sources, a),
        is_layering(g, sources, b),
        0 <= v < g.len(),
        forall|w: int| 0 <= w < g.len() ==> #[trigger] rank[w] <= top,
    ensures
        a[v] == b[v],
    decreases top - rank[v],
{
    assert(layer_at(g, sources, a, v) && layer_at(g, sources, b, v));
    if !sources[v] {
        if a[v] > 0 {
            let u = choose|u: int| #[trigger] has_edge(g, u, v) && a[v] == a[u] + 1;
            let j = choose|j: int| 0 <= j < g[u].len() && #[trigger] g[u][j] == v;
            assert(rank[g[u][j] as int] < rank[u]);
            assert(rank[u] <= top);
            layering_unique_at(g, sources, a, b, rank, top, u);
            assert(b[u] < b[v]);
        }
        if b[v] > 0 {
            let u = choose|u: int| #[trigger] has_edge(g, u, v) && b[v] == b[u] + 1;
            let j = choose|j: int| 0 <= j < g[u].len() && #[trigger] g[u][j] == v;
            assert(rank[g[u][j] as int] < rank[u]);
            assert(rank[u] <= top);
            layering_unique_at(g, sources, a, b, rank, top, u);
            assert(a[u] < a[v]);
        }
    }
}

/// The layer of a vertex that is not a source, given the layers of its
/// predecessors.
fn after_predecessors(dag: &Vec<Vec<usize>>, layers: &Vec<u32>, v: usize, bound: usize) -> (r: u32)
    requires
        layers@.len() == dag@.len(),
        v < dag@.len(),
        bound < u32::MAX,
        forall|u: int| #[trigger] has_edge(lists(dag@), u, v as int) ==> layers@[u] < bound,
    ensures
        r <= bound,
        forall|u: int| #[trigger] has_edge(lists(dag@), u, v as int) ==> layers@[u] < r,
        r == 0 || exists|u: int| #[trigger]
            has_edge(lists(dag@), u, v as int) && r == layers@[u] + 1,
{
    let ghost g = lists(dag@);
    let mut r: u32 = 0;
    let mut u: usize = 0;
    while u < dag.len()
        invariant
            g == lists(dag@),
            layers@.len() == dag@.len(),
            bound < u32::MAX,
            forall|w: int| #[trigger] has_edge(g, w, v as int) ==> layers@[w] < bound,
            u <= dag@.len(),
            r <= bound,
            forall|w: int| 0 <= w < u && #[trigger] has_edge(g, w, v as int) ==> layers@[w] < r,
            r == 0 || exists|w: int| #[trigger]
                has_edge(g, w, v as int) && r == layers@[w] + 1,
        decreases dag@.len() - u,
    {
        let hit = list_contains(&dag[u], v);
        proof {
            let s = g[u as int];
            if hit {
                let j = choose|j: int| 0 <= j < s.len() && s[j] == v;
                assert(g[u as int][j] == v as int);
                assert(has_edge(g, u as int, v as int));
            } else if has_edge(g, u as int, v as int) {
                let j = choose|j: int| 0 <= j < s.len() && #[trigger] g[u as int][j] == v as int;
                assert(s[j] == v);
            }
        }
        if hit && layers[u] >= r {
            r = layers[u] + 1;
        }
        u = u + 1;
    }
    r
}

/// Longest-path layering of a graph that can be numbered downwards.
pub fn longest_path_layers(dag: &Vec<Vec<usize>>, sources: &Vec<bool>) -> (layers: Vec<u32>)
    requires
        graph_wf(lists(dag@)),
        ranked(lists(dag@)),
        sources@.len() == dag@.len(),
        dag@.len() < u32::MAX,
    ensures
        is_layering(lists(dag@), sources@, layers@),
        forall|v: int| 0 <= v < dag@.len() ==> #[trigger] layers@[v] < dag@.len(),
{
    let ghost g = lists(dag@);
    let n: usize = dag.len();
    let order: Vec<usize> = topo_order(dag);
    let mut layers: Vec<u32> = Vec::new();
    let mut i: usize = 0;
    while i < n
        invariant
            i <= n,
            layers@.len() == i,
        decreases n - i,
    {
        layers.push(0);
        i = i + 1;
    }
    let mut p: usize = 0;
    while p < n
        invariant
            n == dag@.len(),
            n < u32::MAX,
            g == lists(dag@),
            sources@.len() == n,
            is_permutation(order@, n as nat),
            respects_edges(g, order@),
            p <= n,
            layers@.len() == n,
            forall|q: int| 0 <= q < p ==> layers@[#[trigger] order@[q] as int] <= q,
            forall|q: int|
                0 <= q < p ==> layer_at(g, sources@, layers@, #[trigger] order@[q] as int),
        decreases n - p,
    {
        let v: usize = order[p];
        let ghost before = layers@;
        proof {
            assert forall|u: int| #[trigger] has_edge(g, u, v as int) implies layers@[u] < p by {
                assert(has_edge(g, u, order@[p as int] as int));
                let q = choose|q: int| 0 <= q < p && #[trigger] order@[q] == u;
                assert(layers@[order@[q] as int] <= q);
            }
        }
        if sources[v] {
            layers.set(v, 0);
        } else {
            let l: u32 = after_predecessors(dag, &layers, v, p);
            layers.set(v, l);
        }
        proof {
            let now = layers@;
            assert forall|w: int| 0 <= w < n && w != v implies now[w] == before[w] by {}
            assert forall|q: int| 0 <= q < p + 1 implies layer_at(
                g,
                sources@,
                now,
                #[trigger] order@[q] as int,
            ) && now[order@[q] as int] <= q by {
                let x = order@[q] as int;
                assert forall|u: int| #[trigger] has_edge(g, u, x) implies now[u] == before[u] by {
                    assert(has_edge(g, u, order@[q] as int));
                    let t = choose|t: int| 0 <= t < q && #[trigger] order@[t] == u;
                    assert(order@[t] != order@[p as int]);
                }
                if q < p {
                    assert(order@[q] != order@[p as int]);
                    assert(layer_at(g, sources@, before, x));
                    if !sources@[x] {
                        if before[x] != 0 {
                            let u = choose|u: int| #[trigger]
                                has_edge(g, u, x) && before[x] == before[u] + 1;
                            assert(has_edge(g, u, x) && now[x] == now[u] + 1);
                        }
                    }
                } else if !sources@[x] && now[x] != 0 {
                    let u = choose|u: int| #[trigger]
                        has_edge(g, u, x) && now[x] == before[u] + 1;
                    assert(has_edge(g, u, x) && now[x] == now[u] + 1);
                }
            }
        }
        p = p + 1;
    }
    proof {
        assert forall|v: int| 0 <= v < g.len() implies #[trigger] layer_at(
            g,
            sources@,
            layers@,
            v,
        ) && layers@[v] < n by {
            assert(order@.contains(v as usize));
            let q = choose|q: int| 0 <= q < order@.len() && order@[q] == v as usize;
            assert(layer_at(g, sources@, layers@, order@[q] as int));
            assert(layers@[order@[q] as int] <= q);
        }
        assert forall|v: int| 0 <= v < g.len() implies #[trigger] layers@[v] < n by {
            assert(layer_at(g, sources@, layers@, v));
        }
    }
    layers
}

/// The default ordering key: the element index.
pub fn identity_order(n: usize) -> (r: Vec<u32>)
    requires
        n <= u32::MAX,
    ensures
        r@ == Seq::new(n as nat, |i: int| i as u32),
{
    let mut r: Vec<u32> = Vec::new();
    let mut i: usize = 0;
    while i < n
        invariant
            i <= n,
            n <= u32::MAX,
            r@ == Seq::new(i as nat, |j: int| j as u32),
        decreases n - i,
    {
        r.push(i as u32);
        i = i + 1;
    }
    r
}

/// The elements before `i` in the same layer.
pub open spec fn rank_in(layers: Seq<u32>, i: int) -> nat {
    count(|j: int| layers[j] == layers[i], i)
}

/// Ranks the elements of each layer by index.
pub fn rank_by_layer(layers: &Vec<u32>) -> (r: Vec<u32>)
    requires
        layers@.len() <= u32::MAX,
    ensures
        r@.len() == layers@.len(),
        forall|i: int| 0 <= i < r@.len() ==> #[trigger] r@[i] == rank_in(layers@, i),
{
    let mut r: Vec<u32> = Vec::new();
    let mut i: usize = 0;
    while i < layers.len()
        invariant
            layers@.len() <= u32::MAX,
            i <= layers@.len(),
            r@.len() == i,
            forall|k: int| 0 <= k < i ==> #[trigger] r@[k] == rank_in(layers@, k),
        decreases layers@.len() - i,
    {
        let ghost p = |j: int| layers@[j] == layers@[i as int];
        let mut c: u32 = 0;
        let mut j: usize = 0;
        while j < i
            invariant
                layers@.len() <= u32::MAX,
                i < layers@.len(),
                p == (|j: int| layers@[j] == layers@[i as int]),
                j <= i,
                c <= j,
                c == count(p, j as int),
            decreases i - j,
        {
            if layers[j] == layers[i] {
                c = c + 1;
            }
            j = j + 1;
        }
        r.push(c);
        i = i + 1;
    }
    r
}

/// Ranks number each layer: two elements of one layer have different ranks,
/// in index order.
pub proof fn ranks_order_a_layer(layers: Seq<u32>, i: int, j: int)
    requires
        0 <= i < j < layers.len(),
        layers[i] == layers[j],
    ensures
        rank_in(layers, i) < rank_in(layers, j),
{
    let p = |k: int| layers[k] == layers[i];
    let q = |k: int| layers[k] == layers[j];
    count_eq(p, q, i);
    assert(count(q, i + 1) == count(q, i) + 1) by {
        assert(q(i));
    }
    count_monotone(q, i + 1, j);
}

/// No earlier element has the same value.
pub open spec fn first_of_value(layers: Seq<u32>, k: int) -> bool {
    forall|j: int| 0 <= j < k ==> #[trigger] layers[j] != layers[k]
}

/// How many different values below `x` occur.
pub open spec fn distinct_below(layers: Seq<u32>, x: u32) -> nat {
    count(|k: int| layers[k] < x && first_of_value(layers, k), layers.len() as int)
}

/// The layers renumbered to consecutive numbers from zero, in order.
pub open spec fn compacted(layers: Seq<u32>) -> Seq<u32> {
    Seq::new(layers.len(), |i: int| distinct_below(layers, layers[i]) as u32)
}

/// Renumbers layers to be consecutive from zero, keeping their order.
pub fn compact_layers(layers: &mut Vec<u32>)
    ensures
        final(layers)@ == compacted(old(layers)@),
{
    let ghost before = layers@;
    let n: usize = layers.len();
    let mut fresh: Vec<bool> = Vec::new();
    let mut k: usize = 0;
    while k < n
        invariant
            n == layers@.len(),
            layers@ == before,
            k <= n,
            fresh@.len() == k,
            forall|j: int| 0 <= j < k ==> #[trigger] fresh@[j] == first_of_value(before, j),
        decreases n - k,
    {
        let mut seen = false;
        let mut j: usize = 0;
        while j < k
            invariant
                n == layers@.len(),
                layers@ == before,
                k < n,
                j <= k,
                seen == exists|i: int| 0 <= i < j && #[trigger] before[i] == before[k as int],
            decreases k - j,
        {
            if layers[j] == layers[k] {
                seen = true;
            }
            j = j + 1;
        }
        fresh.push(!seen);
        k = k + 1;
    }
    let mut out: Vec<u32> = Vec::new();
    let mut i: usize = 0;
    while i < n
        invariant
            n == layers@.len(),
            layers@ == before,
            fresh@.len() == n,
            forall|j: int| 0 <= j < n ==> #[trigger] fresh@[j] == first_of_value(before, j),
            i <= n,
            out@.len() == i,
            forall|j: int|
                0 <= j < i ==> #[trigger] out@[j] == distinct_below(before, before[j]) as u32,
        decreases n - i,
    {
        let x: u32 = layers[i];
        let ghost p = |k: int| before[k] < x && first_of_value(before, k);
        let mut c: u32 = 0;
        let mut k: usize = 0;
        while k < n
            invariant
                n == layers@.len(),
                    layers@ == before,
                fresh@.len() == n,
                forall|j: int| 0 <= j < n ==> #[trigger] fresh@[j] == first_of_value(before, j),
                p == (|k: int| before[k] < x && first_of_value(before, k)),
                k <= n,
                c == count(p, k as int),
            decreases n - k,
        {
            assert(fresh@[k as int] == first_of_value(before, k as int));
            proof {
                few_below(before, x);
                count_monotone(p, k + 1, n as int);
            }
            if layers[k] < x && fresh[k] {
                c = c + 1;
            }
            k = k + 1;
        }
        out.push(c);
        i = i + 1;
    }
    assert(out@ =~= compacted(before));
    *layers = out;
}

/// The first element with the value of element `i`.
proof fn first_with_value(layers: Seq<u32>, i: int) -> (k: int)
    requires
        0 <= i < layers.len(),
    ensures
        0 <= k <= i,
        layers[k] == layers[i],
        first_of_value(layers, k),
    decreases i,
{
    if first_of_value(layers, i) {
        i
    } else {
        let j = choose|j: int| 0 <= j < i && #[trigger] layers[j] == layers[i];
        first_with_value(layers, j)
    }
}

/// Fewer than `x + 1` values lie below `x`.
proof fn few_below(layers: Seq<u32>, x: u32)
    ensures
        distinct_below(layers, x) <= x,
    decreases x,
{
    let n = layers.len() as int;
    let q = |k: int| layers[k] < x && first_of_value(layers, k);
    if x == 0 {
        assert forall|k: int| 0 <= k < n implies !#[trigger] q(k) by {}
        count_flat(q, 0, n);
    } else {
        let y = (x - 1) as u32;
        few_below(layers, y);
        let p = |k: int| layers[k] < y && first_of_value(layers, k);
        if exists|k: int| 0 <= k < n && #[trigger] layers[k] == y {
            let k = choose|k: int| 0 <= k < n && #[trigger] layers[k] == y;
            let f = first_with_value(layers, k);
            assert forall|i: int| 0 <= i < n && i != f implies #[trigger] p(i) == q(i) by {
                if layers[i] == y && first_of_value(layers, i) {
                    if i < f {
                        assert(layers[i] != layers[f]);
                    } else {
                        assert(layers[f] != layers[i]);
                    }
                }
            }
            count_insert(p, q, n, f);
        } else {
            assert forall|i: int| 0 <= i < n implies #[trigger] p(i) == q(i) by {
                assert(layers[i] != y);
            }
            count_eq(p, q, n);
        }
    }
}

/// Renumbering keeps the order of layers and which elements share one.
pub proof fn compacting_keeps_order(layers: Seq<u32>, i: int, j: int)
    requires
        0 <= i < layers.len(),
        0 <= j < layers.len(),
    ensures
        layers[i] < layers[j] <==> compacted(layers)[i] < compacted(layers)[j],
        layers[i] == layers[j] <==> compacted(layers)[i] == compacted(layers)[j],
{
    few_below(layers, layers[i]);
    few_below(layers, layers[j]);
    if layers[i] < layers[j] {
        below_grows(layers, i, j);
    } else if layers[j] < layers[i] {
        below_grows(layers, j, i);
    }
}

proof fn below_grows(layers: Seq<u32>, i: int, j: int)
    requires
        0 <= i < layers.len(),
        0 <= j < layers.len(),
        layers[i] < layers[j],
    ensures
        distinct_below(layers, layers[i]) < distinct_below(layers, layers[j]),
{
    let p = |k: int| layers[k] < layers[i] && first_of_value(layers, k);
    let q = |k: int| layers[k] < layers[j] && first_of_value(layers, k);
    let k = first_with_value(layers, i);
    count_lt(p, q, layers.len() as int, k);
}

/// Renumbering leaves no gap: below every occupied layer the previous one is
/// occupied too.
pub proof fn compacting_leaves_no_gap(layers: Seq<u32>, i: int) -> (j: int)
    requires
        0 <= i < layers.len(),
        compacted(layers)[i] > 0,
    ensures
        0 <= j < layers.len(),
        compacted(layers)[j] == compacted(layers)[i] - 1,
{
    let n = layers.len() as int;
    let p = |k: int| layers[k] < layers[i] && first_of_value(layers, k);
    few_below(layers, layers[i]);
    let k0 = count_witness(p, n);
    let j = largest_below(layers, layers[i], n, k0);
    let f = first_with_value(layers, j);
    let q = |k: int| layers[k] < layers[j] && first_of_value(layers, k);
    assert forall|k: int| 0 <= k < n && k != f implies #[trigger] q(k) == p(k) by {
        if p(k) && !q(k) {
            assert(layers[k] == layers[f]);
            if k < f {
                assert(layers[k] != layers[f]);
            } else {
                assert(layers[f] != layers[k]);
            }
        }
    }
    count_insert(q, p, n, f);
    j
}

/// The number of different values.
pub open spec fn distinct_values(layers: Seq<u32>) -> nat {
    count(|k: int| first_of_value(layers, k), layers.len() as int)
}

/// Renumbered layers are numbered from zero, one number for each different
/// layer.
pub proof fn compacting_counts_layers(layers: Seq<u32>, m: u32)
    ensures
        compacted(layers).len() == layers.len(),
        m < distinct_values(layers) <==> exists|i: int|
            0 <= i < layers.len() && #[trigger] compacted(layers)[i] == m,
{
    let n = layers.len() as int;
    let c = compacted(layers);
    let q = |k: int| first_of_value(layers, k);
    assert forall|i: int| 0 <= i < n && #[trigger] c[i] == m implies m < distinct_values(layers) by {
        few_below(layers, layers[i]);
        let p = |k: int| layers[k] < layers[i] && first_of_value(layers, k);
        let f = first_with_value(layers, i);
        count_lt(p, q, n, f);
    }
    if m < distinct_values(layers) {
        let k0 = count_witness(q, n);
        let top = largest(layers, n);
        let p = |k: int| layers[k] < layers[top] && first_of_value(layers, k);
        let f = first_with_value(layers, top);
        assert forall|k: int| 0 <= k < n && k != f implies #[trigger] p(k) == q(k) by {
            assert(layers[k] <= layers[top]);
            if q(k) && !p(k) {
                if k < f {
                    assert(layers[k] != layers[f]);
                } else {
                    assert(layers[f] != layers[k]);
                }
            }
        }
        count_insert(p, q, n, f);
        few_below(layers, layers[top]);
        assert(c[top] == distinct_values(layers) - 1);
        let i = number_below(layers, top, m);
        assert(c[i] == m);
    }
}

proof fn largest(layers: Seq<u32>, n: int) -> (j: int)
    requires
        0 < n <= layers.len(),
    ensures
        0 <= j < n,
        forall|k: int| 0 <= k < n ==> #[trigger] layers[k] <= layers[j],
    decreases n,
{
    if n == 1 {
        0
    } else {
        let j = largest(layers, n - 1);
        if layers[n - 1] > layers[j] {
            n - 1
        } else {
            j
        }
    }
}

proof fn number_below(layers: Seq<u32>, i: int, m: u32) -> (j: int)
    requires
        0 <= i < layers.len(),
        m <= compacted(layers)[i],
    ensures
        0 <= j < layers.len(),
        compacted(layers)[j] == m,
    decreases compacted(layers)[i] - m,
{
    if m == compacted(layers)[i] {
        i
    } else {
        let k = compacting_leaves_no_gap(layers, i);
        number_below(layers, k, m)
    }
}

/// Renumbering layers a second time changes nothing.
pub proof fn compacting_twice_is_once(layers: Seq<u32>)
    ensures
        compacted(compacted(layers)) == compacted(layers),
{
    let c = compacted(layers);
    let n = layers.len() as int;
    assert forall|k: int| 0 <= k < n implies #[trigger] first_of_value(c, k) == first_of_value(
        layers,
        k,
    ) by {
        assert forall|j: int| 0 <= j < k implies (#[trigger] layers[j] == layers[k] <==> c[j]
            == c[k]) by {
            compacting_keeps_order(layers, j, k);
        }
        if first_of_value(layers, k) {
            assert forall|j: int| 0 <= j < k implies #[trigger] c[j] != c[k] by {
                assert(layers[j] != layers[k]);
            }
        }
        if first_of_value(c, k) {
            assert forall|j: int| 0 <= j < k implies #[trigger] layers[j] != layers[k] by {
                assert(c[j] != c[k]);
            }
        }
    }
    assert forall|i: int| 0 <= i < n implies #[trigger] compacted(c)[i] == c[i] by {
        let p = |k: int| layers[k] < layers[i] && first_of_value(layers, k);
        let q = |k: int| c[k] < c[i] && first_of_value(c, k);
        assert forall|k: int| 0 <= k < n implies #[trigger] p(k) == q(k) by {
            compacting_keeps_order(layers, k, i);
            assert(first_of_value(c, k) == first_of_value(layers, k));
        }
        count_eq(p, q, n);
    }
    assert(compacted(c) =~= c);
}

/// The element with the largest value below `x`.
proof fn largest_below(layers: Seq<u32>, x: u32, n: int, k0: int) -> (j: int)
    requires
        0 <= k0 < n <= layers.len(),
        layers[k0] < x,
    ensures
        0 <= j < n,
        layers[j] < x,
        forall|k: int| 0 <= k < n && #[trigger] layers[k] < x ==> layers[k] <= layers[j],
    decreases n,
{
    if exists|k: int| 0 <= k < n - 1 && #[trigger] layers[k] < x {
        let k = choose|k: int| 0 <= k < n - 1 && #[trigger] layers[k] < x;
        let j = largest_below(layers, x, n - 1, k);
        if layers[n - 1] < x && layers[n - 1] > layers[j] {
            n - 1
        } else {
            j
        }
    } else {
        k0
    }
}

// ---------------------------------------------------------------------------
// Neighbour-barycenter ordering
// ---------------------------------------------------------------------------

/// The neighbours of `i` in layer `nl`.
pub open spec fn neighbour_in(
    g: Seq<Seq<usize>>,
    layers: Seq<u32>,
    i: int,
    nl: int,
) -> spec_fn(int) -> bool {
    |j: int| has_edge(g, i, j) && layers[j] == nl
}

/// The position of `j` if it is a neighbour of `i` in layer `nl`.
pub open spec fn neighbour_position(
    g: Seq<Seq<usize>>,
    layers: Seq<u32>,
    pos: Seq<u32>,
    i: int,
    nl: int,
) -> spec_fn(int) -> int {
    |j: int|
        if has_edge(g, i, j) && layers[j] == nl {
            pos[j] as int
        } else {
            0
        }
}

/// The mean position of the neighbours of `i` in layer `nl` as a numerator and
/// a denominator, or its own position where it has none there.
pub open spec fn barycenter(
    g: Seq<Seq<usize>>,
    layers: Seq<u32>,
    pos: Seq<u32>,
    i: int,
    nl: int,
) -> (int, int) {
    let c = count(neighbour_in(g, layers, i, nl), g.len() as int) as int;
    if c > 0 {
        (sum(neighbour_position(g, layers, pos, i, nl), g.len() as int), c)
    } else {
        (pos[i] as int, 1)
    }
}

/// `a` comes before `b` by barycenter, then position, then index.
pub open spec fn sorts_before(
    g: Seq<Seq<usize>>,
    layers: Seq<u32>,
    pos: Seq<u32>,
    nl: int,
    a: int,
    b: int,
) -> bool {
    let (na, da) = barycenter(g, layers, pos, a, nl);
    let (nb, db) = barycenter(g, layers, pos, b, nl);
    na * db < nb * da || na * db == nb * da && (pos[a] < pos[b] || pos[a] == pos[b] && a < b)
}

/// The members of layer `l` that come before `i`.
pub open spec fn earlier_member(
    g: Seq<Seq<usize>>,
    layers: Seq<u32>,
    pos: Seq<u32>,
    l: int,
    nl: int,
    i: int,
) -> spec_fn(int) -> bool {
    |k: int| layers[k] == l && sorts_before(g, layers, pos, nl, k, i)
}

/// The positions after the members of layer `l` are sorted by the barycenters
/// of their neighbours in layer `nl`.
pub open spec fn resorted(
    g: Seq<Seq<usize>>,
    layers: Seq<u32>,
    pos: Seq<u32>,
    l: int,
    nl: int,
) -> Seq<u32> {
    Seq::new(
        g.len(),
        |i: int|
            if layers[i] == l {
                count(earlier_member(g, layers, pos, l, nl, i), g.len() as int) as u32
            } else {
                pos[i]
            },
    )
}

/// Sorting layers `1..l` from left to right, each against the layer before it.
pub open spec fn swept_right(
    g: Seq<Seq<usize>>,
    layers: Seq<u32>,
    pos: Seq<u32>,
    l: int,
) -> Seq<u32>
    decreases l,
{
    if l <= 1 {
        pos
    } else {
        resorted(g, layers, swept_right(g, layers, pos, l - 1), l - 1, l - 2)
    }
}

/// Sorting layers `l..m` from right to left, each against the layer after it.
pub open spec fn swept_left(
    g: Seq<Seq<usize>>,
    layers: Seq<u32>,
    pos: Seq<u32>,
    l: int,
    m: int,
) -> Seq<u32>
    decreases m - l,
{
    if l >= m {
        pos
    } else {
        resorted(g, layers, swept_left(g, layers, pos, l + 1, m), l, l + 1)
    }
}

/// One past the last layer.
pub open spec fn layer_limit(layers: Seq<u32>, n: int) -> int
    decreases n,
{
    if n <= 0 {
        0
    } else {
        let m = layer_limit(layers, n - 1);
        if layers[n - 1] >= m {
            layers[n - 1] + 1
        } else {
            m
        }
    }
}

/// A sweep to the right and one back.
pub open spec fn swept(g: Seq<Seq<usize>>, layers: Seq<u32>, pos: Seq<u32>) -> Seq<u32> {
    let m = layer_limit(layers, layers.len() as int);
    swept_left(g, layers, swept_right(g, layers, pos, m), 0, m)
}

/// The neighbour-barycenter order: positions start at the ranks by index and
/// take two sweeps to the right and back.
pub open spec fn barycenter_positions(g: Seq<Seq<usize>>, layers: Seq<u32>) -> Seq<u32> {
    let start = Seq::new(g.len(), |i: int| rank_in(layers, i) as u32);
    swept(g, layers, swept(g, layers, start))
}

/// The barycenter of one element.
fn mean_position(adj: &Vec<Vec<usize>>, layers: &Vec<u32>, pos: &Vec<u32>, i: usize, nl: u32) -> (r: (
    u64,
    u64,
))
    requires
        graph_wf(lists(adj@)),
        adj@.len() <= u32::MAX,
        layers@.len() == adj@.len(),
        pos@.len() == adj@.len(),
        forall|j: int| 0 <= j < pos@.len() ==> #[trigger] pos@[j] <= adj@.len(),
        i < adj@.len(),
    ensures
        (r.0 as int, r.1 as int) == barycenter(
            lists(adj@),
            layers@,
            pos@,
            i as int,
            nl as int,
        ),
        r.1 <= adj@.len() || r.1 == 1,
        r.0 <= adj@.len() * adj@.len(),
{
    let ghost g = lists(adj@);
    let ghost p = neighbour_in(g, layers@, i as int, nl as int);
    let ghost f = neighbour_position(g, layers@, pos@, i as int, nl as int);
    let n: usize = adj.len();
    let mut c: u64 = 0;
    let mut total: u64 = 0;
    let mut j: usize = 0;
    while j < n
        invariant
            n == adj@.len(),
            n <= u32::MAX,
            g == lists(adj@),
            layers@.len() == n,
            pos@.len() == n,
            forall|j: int| 0 <= j < pos@.len() ==> #[trigger] pos@[j] <= n,
            i < n,
            p == neighbour_in(g, layers@, i as int, nl as int),
            f == neighbour_position(g, layers@, pos@, i as int, nl as int),
            j <= n,
            c <= j,
            c == count(p, j as int),
            total == sum(f, j as int),
            total <= j * n,
        decreases n - j,
    {
        let hit = list_contains(&adj[i], j);
        proof {
            let s = g[i as int];
            if hit {
                let k = choose|k: int| 0 <= k < s.len() && s[k] == j;
                assert(g[i as int][k] == j as int);
            } else if has_edge(g, i as int, j as int) {
                let k = choose|k: int| 0 <= k < s.len() && #[trigger] g[i as int][k] == j as int;
                assert(s[k] == j);
            }
            assert(j * n + n == (j + 1) * n) by (nonlinear_arith);
            assert((j + 1) * n <= 0xffff_ffff * 0xffff_ffff) by (nonlinear_arith)
                requires
                    0 <= j + 1 <= n,
                    n <= 0xffff_ffff,
            ;
        }
        if hit && layers[j] == nl {
            c = c + 1;
            total = total + pos[j] as u64;
        }
        j = j + 1;
    }
    proof {
        assert(n * n >= n) by (nonlinear_arith)
            requires
                n >= 1,
        ;
    }
    if c > 0 {
        (total, c)
    } else {
        (pos[i] as u64, 1)
    }
}

/// Sorts the members of one layer by the barycenters of their neighbours in
/// another.
fn resort_layer(adj: &Vec<Vec<usize>>, layers: &Vec<u32>, pos: &Vec<u32>, l: u32, nl: u32) -> (r: Vec<
    u32,
>)
    requires
        graph_wf(lists(adj@)),
        adj@.len() <= u32::MAX,
        layers@.len() == adj@.len(),
        pos@.len() == adj@.len(),
        forall|j: int| 0 <= j < pos@.len() ==> #[trigger] pos@[j] <= adj@.len(),
    ensures
        r@ == resorted(lists(adj@), layers@, pos@, l as int, nl as int),
        forall|j: int| 0 <= j < r@.len() ==> #[trigger] r@[j] <= adj@.len(),
{
    let ghost g = lists(adj@);
    let n: usize = adj.len();
    let mut num: Vec<u64> = Vec::new();
    let mut den: Vec<u64> = Vec::new();
    let mut i: usize = 0;
    while i < n
        invariant
            n == adj@.len(),
            n <= u32::MAX,
            g == lists(adj@),
            graph_wf(g),
            layers@.len() == n,
            pos@.len() == n,
            forall|j: int| 0 <= j < pos@.len() ==> #[trigger] pos@[j] <= n,
            i <= n,
            num@.len() == i,
            den@.len() == i,
            forall|j: int|
                0 <= j < i ==> ((#[trigger] num@[j]) as int, den@[j] as int) == barycenter(
                    g,
                    layers@,
                    pos@,
                    j,
                    nl as int,
                ) && den@[j] <= n && num@[j] <= n * n,
        decreases n - i,
    {
        let (a, b): (u64, u64) = mean_position(adj, layers, pos, i, nl);
        num.push(a);
        den.push(b);
        i = i + 1;
    }
    let mut r: Vec<u32> = Vec::new();
    let mut i: usize = 0;
    while i < n
        invariant
            n == adj@.len(),
            n <= u32::MAX,
            g == lists(adj@),
            layers@.len() == n,
            pos@.len() == n,
            forall|j: int| 0 <= j < pos@.len() ==> #[trigger] pos@[j] <= n,
            num@.len() == n,
            den@.len() == n,
            forall|j: int|
                0 <= j < n ==> ((#[trigger] num@[j]) as int, den@[j] as int) == barycenter(
                    g,
                    layers@,
                    pos@,
                    j,
                    nl as int,
                ) && den@[j] <= n && num@[j] <= n * n,
            i <= n,
            r@.len() == i,
            forall|j: int|
                0 <= j < i ==> #[trigger] r@[j] == resorted(
                    g,
                    layers@,
                    pos@,
                    l as int,
                    nl as int,
                )[j] && r@[j] <= n,
        decreases n - i,
    {
        if layers[i] == l {
            let ghost p = earlier_member(g, layers@, pos@, l as int, nl as int, i as int);
            let mut c: u32 = 0;
            let mut k: usize = 0;
            while k < n
                invariant
                    n == adj@.len(),
                    n <= u32::MAX,
                    g == lists(adj@),
                    layers@.len() == n,
                    pos@.len() == n,
                    num@.len() == n,
                    den@.len() == n,
                    i < n,
                    forall|j: int|
                        0 <= j < n ==> ((#[trigger] num@[j]) as int, den@[j] as int)
                            == barycenter(g, layers@, pos@, j, nl as int) && den@[j] <= n
                            && num@[j] <= n * n,
                    p == earlier_member(g, layers@, pos@, l as int, nl as int, i as int),
                    k <= n,
                    c <= k,
                    c == count(p, k as int),
                decreases n - k,
            {
                proof {
                    let a = num@[k as int] as int;
                    let b = den@[i as int] as int;
                    let x = num@[i as int] as int;
                    let y = den@[k as int] as int;
                    assert(0 <= a * b <= 0xffff_ffff * 0xffff_ffff * 0xffff_ffff)
                        by (nonlinear_arith)
                        requires
                            0 <= a <= n * n,
                            0 <= b <= n,
                            0 <= n <= 0xffff_ffff,
                    ;
                    assert(0 <= x * y <= 0xffff_ffff * 0xffff_ffff * 0xffff_ffff)
                        by (nonlinear_arith)
                        requires
                            0 <= x <= n * n,
                            0 <= y <= n,
                            0 <= n <= 0xffff_ffff,
                    ;
                }
                let left: u128 = num[k] as u128 * den[i] as u128;
                let right: u128 = num[i] as u128 * den[k] as u128;
                let earlier = left < right || left == right && (pos[k] < pos[i] || pos[k] == pos[i]
                    && k < i);
                if layers[k] == l && earlier {
                    c = c + 1;
                }
                k = k + 1;
            }
            r.push(c);
        } else {
            r.push(pos[i]);
        }
        i = i + 1;
    }
    assert(r@ =~= resorted(g, layers@, pos@, l as int, nl as int));
    r
}

/// One past the last layer.
fn count_layers(layers: &Vec<u32>) -> (m: u32)
    requires
        forall|i: int| 0 <= i < layers@.len() ==> #[trigger] layers@[i] < u32::MAX,
    ensures
        m == layer_limit(layers@, layers@.len() as int),
{
    let mut m: u32 = 0;
    let mut i: usize = 0;
    while i < layers.len()
        invariant
            forall|i: int| 0 <= i < layers@.len() ==> #[trigger] layers@[i] < u32::MAX,
            i <= layers@.len(),
            m == layer_limit(layers@, i as int),
        decreases layers@.len() - i,
    {
        if layers[i] >= m {
            m = layers[i] + 1;
        }
        i = i + 1;
    }
    m
}

fn sweep(adj: &Vec<Vec<usize>>, layers: &Vec<u32>, pos: Vec<u32>) -> (r: Vec<u32>)
    requires
        graph_wf(lists(adj@)),
        adj@.len() <= u32::MAX,
        layers@.len() == adj@.len(),
        forall|i: int| 0 <= i < layers@.len() ==> #[trigger] layers@[i] < u32::MAX,
        pos@.len() == adj@.len(),
        forall|j: int| 0 <= j < pos@.len() ==> #[trigger] pos@[j] <= adj@.len(),
    ensures
        r@ == swept(lists(adj@), layers@, pos@),
        r@.len() == adj@.len(),
        forall|j: int| 0 <= j < r@.len() ==> #[trigger] r@[j] <= adj@.len(),
{
    let ghost g = lists(adj@);
    let ghost start = pos@;
    let m: u32 = count_layers(layers);
    let mut pos = pos;
    let mut l: u32 = 1;
    while l < m
        invariant
            g == lists(adj@),
            graph_wf(g),
            adj@.len() <= u32::MAX,
            layers@.len() == adj@.len(),
            1 <= l,
            l <= m || l == 1,
            pos@.len() == adj@.len(),
            pos@ == swept_right(g, layers@, start, l as int),
            forall|j: int| 0 <= j < pos@.len() ==> #[trigger] pos@[j] <= adj@.len(),
        decreases m - l,
    {
        pos = resort_layer(adj, layers, &pos, l, l - 1);
        l = l + 1;
    }
    let ghost right = pos@;
    assert(right == swept_right(g, layers@, start, m as int));
    let mut l: u32 = m;
    while l > 0
        invariant
            g == lists(adj@),
            graph_wf(g),
            adj@.len() <= u32::MAX,
            layers@.len() == adj@.len(),
            l <= m,
            pos@.len() == adj@.len(),
            pos@ == swept_left(g, layers@, right, l as int, m as int),
            forall|j: int| 0 <= j < pos@.len() ==> #[trigger] pos@[j] <= adj@.len(),
        decreases l,
    {
        l = l - 1;
        pos = resort_layer(adj, layers, &pos, l, l + 1);
    }
    pos
}

/// Neighbour-barycenter ordering within each layer: a key per element whose
/// relative order inside a layer is the ordering.
pub fn barycenter_order(adj: &Vec<Vec<usize>>, layers: &Vec<u32>) -> (r: Vec<u32>)
    requires
        graph_wf(lists(adj@)),
        adj@.len() <= u32::MAX,
        layers@.len() == adj@.len(),
        forall|i: int| 0 <= i < layers@.len() ==> #[trigger] layers@[i] < u32::MAX,
    ensures
        r@ == barycenter_positions(lists(adj@), layers@),
{
    let start: Vec<u32> = rank_by_layer(layers);
    proof {
        assert forall|j: int| 0 <= j < start@.len() implies #[trigger] start@[j] <= adj@.len() by {
            count_bound(|k: int| layers@[k] == layers@[j], j);
        }
        assert(start@ =~= Seq::new(adj@.len(), |i: int| rank_in(layers@, i) as u32));
    }
    let once: Vec<u32> = sweep(adj, layers, start);
    sweep(adj, layers, once)
}

/// The members of layer `l`.
pub open spec fn in_layer(layers: Seq<u32>, l: int) -> spec_fn(int) -> bool {
    |k: int| layers[k] == l
}

/// How many members layer `l` has.
pub open spec fn layer_size(layers: Seq<u32>, l: int) -> nat {
    count(in_layer(layers, l), layers.len() as int)
}

/// The positions number the members of layer `l` from zero, each number once.
pub open spec fn numbers_layer(layers: Seq<u32>, pos: Seq<u32>, l: int) -> bool {
    &&& pos.len() == layers.len()
    &&& forall|i: int|
        0 <= i < layers.len() && #[trigger] layers[i] == l ==> pos[i] < layer_size(layers, l)
    &&& forall|i: int, j: int|
        0 <= i < j < layers.len() && #[trigger] layers[i] == l && #[trigger] layers[j] == l
            ==> pos[i] != pos[j]
    &&& forall|p: int|
        0 <= p < layer_size(layers, l) ==> #[trigger] is_taken(layers, pos, l, p)
}

/// A member of layer `l` has position `p`.
pub open spec fn is_taken(layers: Seq<u32>, pos: Seq<u32>, l: int, p: int) -> bool {
    exists|i: int| 0 <= i < layers.len() && layers[i] == l && #[trigger] pos[i] == p
}

/// The positions of layer `l` are distinct and below its size.
spec fn distinct_in_layer(layers: Seq<u32>, pos: Seq<u32>, l: int) -> bool {
    &&& pos.len() == layers.len()
    &&& forall|i: int|
        0 <= i < layers.len() && #[trigger] layers[i] == l ==> pos[i] < layer_size(layers, l)
    &&& forall|i: int, j: int|
        0 <= i < j < layers.len() && #[trigger] layers[i] == l && #[trigger] layers[j] == l
            ==> pos[i] != pos[j]
}

proof fn where_list_counts(p: spec_fn(int) -> bool, n: int)
    ensures
        where_list(p, n).len() == count(p, n),
    decreases n,
{
    if n > 0 {
        where_list_counts(p, n - 1);
    }
}

/// Distinct numbers below the size of the layer are all of them.
proof fn distinct_is_numbered(layers: Seq<u32>, pos: Seq<u32>, l: int)
    requires
        layers.len() <= u32::MAX,
        distinct_in_layer(layers, pos, l),
    ensures
        numbers_layer(layers, pos, l),
{
    let n = layers.len() as int;
    let size = layer_size(layers, l);
    let members = where_list(in_layer(layers, l), n);
    where_list_counts(in_layer(layers, l), n);
    count_bound(in_layer(layers, l), n);
    assert forall|q: int| 0 <= q < members.len() implies (#[trigger] members[q]) < n
        && layers[members[q] as int] == l by {
        where_list_contains(in_layer(layers, l), n, members[q]);
        assert(members.contains(members[q]));
    }
    assert forall|p: int| 0 <= p < size implies #[trigger] is_taken(layers, pos, l, p) by {
        if !is_taken(layers, pos, l, p) {
            let taken = Seq::new(
                size + 1,
                |q: int|
                    if q < size {
                        pos[members[q] as int] as usize
                    } else {
                        p as usize
                    },
            );
            assert forall|a: int, b: int| 0 <= a < b < taken.len() implies taken[a] != taken[b] by {
                assert(layers[members[a] as int] == l);
                if b < size {
                    where_list_sorted(in_layer(layers, l), n, a, b);
                    assert(layers[members[b] as int] == l);
                } else {
                    assert(pos[members[a] as int] != p);
                }
            }
            assert forall|q: int| 0 <= q < taken.len() implies (#[trigger] taken[q]) < size by {
                if q < size {
                    assert(layers[members[q] as int] == l);
                }
            }
            assert(taken.no_duplicates());
            no_more_than(taken, size);
        }
    }
}

/// Fractions with positive denominators are ordered.
proof fn fractions_chain(na: int, da: int, nb: int, db: int, nc: int, dc: int)
    requires
        da > 0,
        db > 0,
        dc > 0,
        na * db <= nb * da,
        nb * dc <= nc * db,
    ensures
        na * dc <= nc * da,
        na * db < nb * da || nb * dc < nc * db ==> na * dc < nc * da,
{
    assert(db * (na * dc) <= db * (nc * da)) by (nonlinear_arith)
        requires
            da > 0,
            dc > 0,
            na * db <= nb * da,
            nb * dc <= nc * db,
    {
        assert((na * db) * dc <= (nb * da) * dc);
        assert((nb * dc) * da <= (nc * db) * da);
    }
    assert(na * dc <= nc * da) by (nonlinear_arith)
        requires
            db > 0,
            db * (na * dc) <= db * (nc * da),
    ;
    if na * db < nb * da {
        assert(db * (na * dc) < db * (nc * da)) by (nonlinear_arith)
            requires
                da > 0,
                dc > 0,
                na * db < nb * da,
                nb * dc <= nc * db,
        {
            assert((na * db) * dc < (nb * da) * dc);
            assert((nb * dc) * da <= (nc * db) * da);
        }
    }
    if nb * dc < nc * db {
        assert(db * (na * dc) < db * (nc * da)) by (nonlinear_arith)
            requires
                da > 0,
                dc > 0,
                na * db <= nb * da,
                nb * dc < nc * db,
        {
            assert((na * db) * dc <= (nb * da) * dc);
            assert((nb * dc) * da < (nc * db) * da);
        }
    }
}

proof fn sorts_before_chain(
    g: Seq<Seq<usize>>,
    layers: Seq<u32>,
    pos: Seq<u32>,
    nl: int,
    a: int,
    b: int,
    c: int,
)
    requires
        sorts_before(g, layers, pos, nl, a, b),
        sorts_before(g, layers, pos, nl, b, c),
    ensures
        sorts_before(g, layers, pos, nl, a, c),
{
    let (na, da) = barycenter(g, layers, pos, a, nl);
    let (nb, db) = barycenter(g, layers, pos, b, nl);
    let (nc, dc) = barycenter(g, layers, pos, c, nl);
    fractions_chain(na, da, nb, db, nc, dc);
}

/// Sorting a layer numbers its members and leaves the other layers alone.
proof fn resorting_numbers(
    g: Seq<Seq<usize>>,
    layers: Seq<u32>,
    pos: Seq<u32>,
    l: int,
    nl: int,
)
    requires
        layers.len() == g.len(),
        layers.len() <= u32::MAX,
        pos.len() == g.len(),
    ensures
        distinct_in_layer(layers, resorted(g, layers, pos, l, nl), l),
        forall|m: int| #[trigger]
            distinct_in_layer(layers, pos, m) ==> distinct_in_layer(
                layers,
                resorted(g, layers, pos, l, nl),
                m,
            ),
{
    let n = g.len() as int;
    let r = resorted(g, layers, pos, l, nl);
    count_bound(in_layer(layers, l), n);
    assert forall|i: int| 0 <= i < n && #[trigger] layers[i] == l implies r[i] < layer_size(
        layers,
        l,
    ) && r[i] == count(earlier_member(g, layers, pos, l, nl, i), n) by {
        count_lt(earlier_member(g, layers, pos, l, nl, i), in_layer(layers, l), n, i);
    }
    assert forall|i: int, j: int|
        0 <= i < j < n && #[trigger] layers[i] == l && #[trigger] layers[j] == l implies r[i]
        != r[j] by {
        let (a, b) = if sorts_before(g, layers, pos, nl, i, j) {
            (i, j)
        } else {
            (j, i)
        };
        assert(sorts_before(g, layers, pos, nl, a, b));
        let (p, q) = (
            earlier_member(g, layers, pos, l, nl, a),
            earlier_member(g, layers, pos, l, nl, b),
        );
        assert forall|k: int| 0 <= k < n && #[trigger] p(k) implies q(k) by {
            sorts_before_chain(g, layers, pos, nl, k, a, b);
        }
        count_lt(p, q, n, a);
    }
}

/// Sweeping keeps the members of every layer numbered.
proof fn sweeping_numbers(g: Seq<Seq<usize>>, layers: Seq<u32>, pos: Seq<u32>, l: int)
    requires
        layers.len() == g.len(),
        layers.len() <= u32::MAX,
        distinct_in_layer(layers, pos, l),
    ensures
        distinct_in_layer(layers, swept(g, layers, pos), l),
{
    let m = layer_limit(layers, layers.len() as int);
    sweeping_right_numbers(g, layers, pos, m, l);
    sweeping_left_numbers(g, layers, swept_right(g, layers, pos, m), 0, m, l);
}

proof fn sweeping_right_numbers(
    g: Seq<Seq<usize>>,
    layers: Seq<u32>,
    pos: Seq<u32>,
    m: int,
    l: int,
)
    requires
        layers.len() == g.len(),
        layers.len() <= u32::MAX,
        distinct_in_layer(layers, pos, l),
    ensures
        distinct_in_layer(layers, swept_right(g, layers, pos, m), l),
    decreases m,
{
    if m > 1 {
        sweeping_right_numbers(g, layers, pos, m - 1, l);
        resorting_numbers(g, layers, swept_right(g, layers, pos, m - 1), m - 1, m - 2);
    }
}

proof fn sweeping_left_numbers(
    g: Seq<Seq<usize>>,
    layers: Seq<u32>,
    pos: Seq<u32>,
    k: int,
    m: int,
    l: int,
)
    requires
        layers.len() == g.len(),
        layers.len() <= u32::MAX,
        distinct_in_layer(layers, pos, l),
    ensures
        distinct_in_layer(layers, swept_left(g, layers, pos, k, m), l),
    decreases m - k,
{
    if k < m {
        sweeping_left_numbers(g, layers, pos, k + 1, m, l);
        resorting_numbers(g, layers, swept_left(g, layers, pos, k + 1, m), k, k + 1);
    }
}

/// The ranks by index number the members of every layer.
pub proof fn ranks_number_layers(layers: Seq<u32>, l: int)
    requires
        layers.len() <= u32::MAX,
    ensures
        numbers_layer(layers, Seq::new(layers.len(), |i: int| rank_in(layers, i) as u32), l),
{
    let n = layers.len() as int;
    let start = Seq::new(layers.len(), |i: int| rank_in(layers, i) as u32);
    let member = in_layer(layers, l);
    assert forall|i: int| 0 <= i < n && #[trigger] layers[i] == l implies start[i] == count(
        member,
        i,
    ) && count(member, i + 1) == count(member, i) + 1 by {
        count_bound(member, i);
        count_eq(|j: int| layers[j] == layers[i], member, i);
    }
    assert forall|i: int| 0 <= i < n && #[trigger] layers[i] == l implies start[i] < layer_size(
        layers,
        l,
    ) by {
        count_monotone(member, i + 1, n);
    }
    assert forall|i: int, j: int|
        0 <= i < j < n && #[trigger] layers[i] == l && #[trigger] layers[j] == l implies start[i]
        != start[j] by {
        count_monotone(member, i + 1, j);
    }
    distinct_is_numbered(layers, start, l);
}

/// The barycenter order is an order of each layer: its keys number the members
/// of a layer from zero, each number once.
pub proof fn barycenters_number_layers(g: Seq<Seq<usize>>, layers: Seq<u32>, l: int)
    requires
        layers.len() == g.len(),
        layers.len() <= u32::MAX,
    ensures
        numbers_layer(layers, barycenter_positions(g, layers), l),
{
    let start = Seq::new(g.len(), |i: int| rank_in(layers, i) as u32);
    ranks_number_layers(layers, l);
    sweeping_numbers(g, layers, start, l);
    sweeping_numbers(g, layers, swept(g, layers, start), l);
    distinct_is_numbered(layers, barycenter_positions(g, layers), l);
}

/// `i` has neighbours in layer `nl`, and all of them are at positions from
/// `lo` to `hi`.
pub open spec fn neighbours_between(
    g: Seq<Seq<usize>>,
    layers: Seq<u32>,
    pos: Seq<u32>,
    i: int,
    nl: int,
    lo: int,
    hi: int,
) -> bool {
    &&& exists|j: int| 0 <= j < g.len() && layers[j] == nl && #[trigger] has_edge(g, i, j)
    &&& forall|j: int|
        0 <= j < g.len() && layers[j] == nl && #[trigger] has_edge(g, i, j) ==> lo <= pos[j] <= hi
}

proof fn barycenter_between(
    g: Seq<Seq<usize>>,
    layers: Seq<u32>,
    pos: Seq<u32>,
    i: int,
    nl: int,
    lo: int,
    hi: int,
)
    requires
        neighbours_between(g, layers, pos, i, nl, lo, hi),
    ensures
        ({
            let (n, d) = barycenter(g, layers, pos, i, nl);
            d > 0 && lo * d <= n <= hi * d
        }),
{
    let p = neighbour_in(g, layers, i, nl);
    let j = choose|j: int| 0 <= j < g.len() && layers[j] == nl && #[trigger] has_edge(g, i, j);
    assert(p(j));
    count_positive(p, g.len() as int, j);
    positions_between(g, layers, pos, i, nl, lo, hi, g.len() as int);
}

proof fn positions_between(
    g: Seq<Seq<usize>>,
    layers: Seq<u32>,
    pos: Seq<u32>,
    i: int,
    nl: int,
    lo: int,
    hi: int,
    n: int,
)
    requires
        0 <= n <= g.len(),
        forall|j: int|
            0 <= j < g.len() && layers[j] == nl && #[trigger] has_edge(g, i, j) ==> lo <= pos[j]
                <= hi,
    ensures
        ({
            let c = count(neighbour_in(g, layers, i, nl), n) as int;
            let s = sum(neighbour_position(g, layers, pos, i, nl), n);
            lo * c <= s <= hi * c
        }),
    decreases n,
{
    let p = neighbour_in(g, layers, i, nl);
    let f = neighbour_position(g, layers, pos, i, nl);
    if n > 0 {
        positions_between(g, layers, pos, i, nl, lo, hi, n - 1);
        let c = count(p, n - 1) as int;
        assert(lo * (c + 1) == lo * c + lo && hi * (c + 1) == hi * c + hi) by (nonlinear_arith);
        assert(sum(f, n) == sum(f, n - 1) + f(n - 1));
        if p(n - 1) {
            assert(has_edge(g, i, n - 1));
            assert(count(p, n) as int == c + 1);
        } else {
            assert(count(p, n) as int == c);
        }
    } else {
        assert(lo * 0 == 0 && hi * 0 == 0) by (nonlinear_arith);
    }
}

/// Sorting a layer puts an element before another when all its neighbours in
/// the layer beside it are before all of the other's; elements of other layers
/// keep their positions.
pub proof fn sorting_follows_the_neighbours(
    g: Seq<Seq<usize>>,
    layers: Seq<u32>,
    pos: Seq<u32>,
    l: int,
    nl: int,
    a: int,
    b: int,
    x: int,
    y: int,
    z: int,
)
    requires
        g.len() <= u32::MAX,
        0 <= a < g.len(),
        0 <= b < g.len(),
        layers[a] == l,
        layers[b] == l,
        neighbours_between(g, layers, pos, a, nl, x, y),
        neighbours_between(g, layers, pos, b, nl, y + 1, z),
    ensures
        resorted(g, layers, pos, l, nl)[a] < resorted(g, layers, pos, l, nl)[b],
        forall|i: int|
            0 <= i < g.len() && layers[i] != l ==> #[trigger] resorted(g, layers, pos, l, nl)[i]
                == pos[i],
{
    barycenter_between(g, layers, pos, a, nl, x, y);
    barycenter_between(g, layers, pos, b, nl, y + 1, z);
    let (na, da) = barycenter(g, layers, pos, a, nl);
    let (nb, db) = barycenter(g, layers, pos, b, nl);
    assert(na * db < nb * da) by (nonlinear_arith)
        requires
            da > 0,
            db > 0,
            na <= y * da,
            nb >= (y + 1) * db,
    {
        assert(na * db <= y * da * db);
        assert(nb * da >= (y + 1) * db * da);
        assert((y + 1) * db * da == y * da * db + da * db);
        assert(da * db > 0);
    }
    assert(sorts_before(g, layers, pos, nl, a, b));
    let p = earlier_member(g, layers, pos, l, nl, a);
    let q = earlier_member(g, layers, pos, l, nl, b);
    let n = g.len() as int;
    assert forall|k: int| 0 <= k < n && #[trigger] p(k) implies q(k) by {
        sorts_before_chain(g, layers, pos, nl, k, a, b);
    }
    assert(!p(a) && q(a));
    count_lt(p, q, n, a);
    crate::counting::count_bound(p, n);
    crate::counting::count_bound(q, n);
}

/// In the final order, an element is before another of its layer when all its
/// neighbours in the next layer are before all of the other's there.
pub proof fn layers_follow_the_next_layer(
    g: Seq<Seq<usize>>,
    layers: Seq<u32>,
    l: int,
    a: int,
    b: int,
    x: int,
    y: int,
    z: int,
)
    requires
        g.len() == layers.len(),
        g.len() <= u32::MAX,
        0 <= a < g.len(),
        0 <= b < g.len(),
        layers[a] == l,
        layers[b] == l,
        neighbours_between(g, layers, barycenter_positions(g, layers), a, l + 1, x, y),
        neighbours_between(g, layers, barycenter_positions(g, layers), b, l + 1, y + 1, z),
    ensures
        barycenter_positions(g, layers)[a] < barycenter_positions(g, layers)[b],
{
    let m = layer_limit(layers, layers.len() as int);
    let start = Seq::new(g.len(), |i: int| rank_in(layers, i) as u32);
    let pos = swept_right(g, layers, swept(g, layers, start), m);
    limit_is_past(layers, a, layers.len() as int);
    let then = swept_left(g, layers, pos, l + 1, m);
    let last = barycenter_positions(g, layers);
    left_sweep_keeps(g, layers, pos, 0, l, m);
    left_sweep_keeps(g, layers, pos, 0, l + 1, m);
    assert forall|j: int| 0 <= j < g.len() && layers[j] == l + 1 implies #[trigger] then[j]
        == last[j] by {}
    assert(neighbours_between(g, layers, then, a, l + 1, x, y));
    assert(neighbours_between(g, layers, then, b, l + 1, y + 1, z));
    sorting_follows_the_neighbours(g, layers, then, l, l + 1, a, b, x, y, z);
}

proof fn limit_is_past(layers: Seq<u32>, a: int, n: int)
    requires
        0 <= a < n <= layers.len(),
    ensures
        layers[a] < layer_limit(layers, n),
    decreases n,
{
    if a < n - 1 {
        limit_is_past(layers, a, n - 1);
    }
}

proof fn left_sweep_keeps(
    g: Seq<Seq<usize>>,
    layers: Seq<u32>,
    pos: Seq<u32>,
    l: int,
    k: int,
    m: int,
)
    requires
        l <= k,
        k <= m,
    ensures
        forall|i: int|
            0 <= i < g.len() && layers[i] >= k ==> #[trigger] swept_left(g, layers, pos, l, m)[i]
                == swept_left(g, layers, pos, k, m)[i],
    decreases k - l,
{
    if l < k {
        left_sweep_keeps(g, layers, pos, l + 1, k, m);
        let then = swept_left(g, layers, pos, l + 1, m);
        assert(swept_left(g, layers, pos, l, m) == resorted(g, layers, then, l, l + 1));
        assert forall|i: int| 0 <= i < g.len() && layers[i] >= k implies #[trigger] swept_left(
            g,
            layers,
            pos,
            l,
            m,
        )[i] == swept_left(g, layers, pos, k, m)[i] by {
            assert(then[i] == swept_left(g, layers, pos, k, m)[i]);
        }
    }
}

} // verus!
