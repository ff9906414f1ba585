//! Linear orders of the vertices of a relation: the greedy order of a small
//! feedback-arc set and the topological order that takes the smallest ready
//! vertex first.

use vstd::prelude::*;

#[allow(unused_imports)]
use crate::counting::{
    count, count_eq, count_insert, count_positive, count_witness, sum, sum_eq, sum_one,
};

verus! {

/// `m` is a relation on `n` vertices.
pub open spec fn is_relation(m: Seq<Seq<bool>>, n: nat) -> bool {
    &&& m.len() == n
    &&& forall|u: int| 0 <= u < n ==> (#[trigger] m[u]).len() == n
}

/// The rows of an executable relation.
pub open spec fn rows(m: Seq<Vec<bool>>) -> Seq<Seq<bool>> {
    Seq::new(m.len(), |u: int| m[u]@)
}

/// The successors of `u` that remain.
pub open spec fn remaining_successor(
    m: Seq<Seq<bool>>,
    rem: Seq<bool>,
    u: int,
) -> spec_fn(int) -> bool {
    |v: int| m[u][v] && rem[v]
}

/// The predecessors of `u` that remain.
pub open spec fn remaining_predecessor(
    m: Seq<Seq<bool>>,
    rem: Seq<bool>,
    u: int,
) -> spec_fn(int) -> bool {
    |v: int| m[v][u] && rem[v]
}

/// How many successors of `u` remain.
pub open spec fn out_degree(m: Seq<Seq<bool>>, rem: Seq<bool>, u: int) -> nat {
    count(remaining_successor(m, rem, u), rem.len() as int)
}

/// How many predecessors of `u` remain.
pub open spec fn in_degree(m: Seq<Seq<bool>>, rem: Seq<bool>, u: int) -> nat {
    count(remaining_predecessor(m, rem, u), rem.len() as int)
}

/// The smallest index from `i` on that satisfies `p`, or `n`.
pub open spec fn first_where(p: spec_fn(int) -> bool, i: int, n: int) -> int
    decreases n - i,
{
    if i >= n {
        n
    } else if p(i) {
        i
    } else {
        first_where(p, i + 1, n)
    }
}

/// [`first_where`] is the smallest index with the property.
pub proof fn first_where_is_first(p: spec_fn(int) -> bool, i: int, n: int)
    requires
        i <= n,
    ensures
        i <= first_where(p, i, n) <= n,
        first_where(p, i, n) < n ==> p(first_where(p, i, n)),
        forall|j: int| i <= j < first_where(p, i, n) ==> !#[trigger] p(j),
    decreases n - i,
{
    if i < n && !p(i) {
        first_where_is_first(p, i + 1, n);
    }
}

/// The indices below `n` that satisfy `p`, in order.
pub open spec fn where_list(p: spec_fn(int) -> bool, n: int) -> Seq<usize>
    decreases n,
{
    if n <= 0 {
        Seq::empty()
    } else if p(n - 1) {
        where_list(p, n - 1).push((n - 1) as usize)
    } else {
        where_list(p, n - 1)
    }
}

/// What [`where_list`] holds.
pub proof fn where_list_contains(p: spec_fn(int) -> bool, n: int, x: usize)
    requires
        0 <= n <= usize::MAX + 1,
    ensures
        where_list(p, n).contains(x) <==> x < n && p(x as int),
    decreases n,
{
    if n > 0 {
        where_list_contains(p, n - 1, x);
        let s = where_list(p, n - 1);
        let y = (n - 1) as usize;
        if p(n - 1) {
            if s.contains(x) {
                let i = choose|i: int| 0 <= i < s.len() && s[i] == x;
                assert(s.push(y)[i] == x);
            }
            assert(s.push(y)[s.len() as int] == y);
            if s.push(y).contains(x) {
                let i = choose|i: int| 0 <= i < s.push(y).len() && s.push(y)[i] == x;
                if i < s.len() {
                    assert(s[i] == x);
                }
            }
        }
    }
}

/// Equal predicates have the same list.
pub proof fn where_list_eq(p: spec_fn(int) -> bool, q: spec_fn(int) -> bool, n: int)
    requires
        forall|b: int| #[trigger] p(b) == q(b),
    ensures
        where_list(p, n) == where_list(q, n),
    decreases n,
{
    if n > 0 {
        where_list_eq(p, q, n - 1);
        assert(p(n - 1) == q(n - 1));
    }
}

/// [`where_list`] is increasing.
pub proof fn where_list_sorted(p: spec_fn(int) -> bool, n: int, i: int, j: int)
    requires
        0 <= n <= usize::MAX + 1,
        0 <= i < j < where_list(p, n).len(),
    ensures
        where_list(p, n)[i] < where_list(p, n)[j],
    decreases n,
{
    if n > 0 {
        let s = where_list(p, n - 1);
        if p(n - 1) && j == s.len() {
            where_list_contains(p, n - 1, s[i]);
            assert(s.contains(s[i]));
        } else {
            where_list_sorted(p, n - 1, i, j);
        }
    }
}

/// The number of vertices that remain.
pub open spec fn left_over(rem: Seq<bool>) -> nat {
    count(|v: int| rem[v], rem.len() as int)
}

/// Taking a remaining vertex away.
pub proof fn left_over_drops(rem: Seq<bool>, u: int)
    requires
        0 <= u < rem.len(),
        rem[u],
    ensures
        left_over(rem.update(u, false)) == left_over(rem) - 1,
{
    let p = |v: int| rem[v];
    let q = |v: int| rem.update(u, false)[v];
    count_insert(q, p, rem.len() as int, u);
}

/// A remaining vertex without remaining successors.
pub open spec fn is_sink(m: Seq<Seq<bool>>, rem: Seq<bool>) -> spec_fn(int) -> bool {
    |u: int| rem[u] && out_degree(m, rem, u) == 0
}

/// A remaining vertex without remaining predecessors.
pub open spec fn is_source(m: Seq<Seq<bool>>, rem: Seq<bool>) -> spec_fn(int) -> bool {
    |u: int| rem[u] && in_degree(m, rem, u) == 0
}

/// Remaining out-degree less remaining in-degree.
pub open spec fn surplus(m: Seq<Seq<bool>>, rem: Seq<bool>, u: int) -> int {
    out_degree(m, rem, u) - in_degree(m, rem, u)
}

/// The first remaining vertex below `n` of largest surplus, or `-1`.
pub open spec fn richest(m: Seq<Seq<bool>>, rem: Seq<bool>, n: int) -> int
    decreases n,
{
    if n <= 0 {
        -1
    } else {
        let b = richest(m, rem, n - 1);
        if rem[n - 1] && (b < 0 || surplus(m, rem, n - 1) > surplus(m, rem, b)) {
            n - 1
        } else {
            b
        }
    }
}

/// [`richest`] is a remaining vertex of largest surplus.
pub proof fn richest_is_largest(m: Seq<Seq<bool>>, rem: Seq<bool>, n: int)
    requires
        0 <= n <= rem.len(),
    ensures
        -1 <= richest(m, rem, n) < n || n == 0 && richest(m, rem, n) == -1,
        richest(m, rem, n) >= 0 ==> rem[richest(m, rem, n)],
        forall|v: int|
            0 <= v < n && #[trigger] rem[v] ==> richest(m, rem, n) >= 0 && surplus(m, rem, v)
                <= surplus(m, rem, richest(m, rem, n)),
    decreases n,
{
    if n > 0 {
        richest_is_largest(m, rem, n - 1);
    }
}

/// The greedy order of the remaining vertices: while there is a sink, the
/// first one goes to the end; then while there is a source, the first one goes
/// to the front; then the first vertex of largest surplus goes to the front.
pub open spec fn greedy_order(m: Seq<Seq<bool>>, rem: Seq<bool>, phase: nat) -> Seq<usize>
    decreases left_over(rem), 3 - phase,
{
    let n = rem.len() as int;
    if left_over(rem) == 0 {
        Seq::empty()
    } else if phase == 0 {
        let u = first_where(is_sink(m, rem), 0, n);
        if u < n {
            proof {
                first_where_is_first(is_sink(m, rem), 0, n);
                left_over_drops(rem, u);
            }
            greedy_order(m, rem.update(u, false), 0).push(u as usize)
        } else {
            greedy_order(m, rem, 1)
        }
    } else if phase == 1 {
        let u = first_where(is_source(m, rem), 0, n);
        if u < n {
            proof {
                first_where_is_first(is_source(m, rem), 0, n);
                left_over_drops(rem, u);
            }
            seq![u as usize] + greedy_order(m, rem.update(u, false), 1)
        } else {
            greedy_order(m, rem, 2)
        }
    } else {
        let u = richest(m, rem, n);
        proof {
            richest_is_largest(m, rem, n);
            let v = count_witness(|v: int| rem[v], n);
            assert(rem[v]);
            left_over_drops(rem, u);
        }
        seq![u as usize] + greedy_order(m, rem.update(u, false), 0)
    }
}

/// The order lists each remaining vertex once.
pub open spec fn lists_exactly(order: Seq<usize>, rem: Seq<bool>) -> bool {
    &&& order.no_duplicates()
    &&& forall|p: int| 0 <= p < order.len() ==> (#[trigger] order[p]) < rem.len() && rem[order[p] as int]
    &&& forall|v: int| 0 <= v < rem.len() && rem[v] ==> #[trigger] order.contains(v as usize)
}

proof fn lists_exactly_push(order: Seq<usize>, rem: Seq<bool>, u: int)
    requires
        rem.len() <= usize::MAX,
        0 <= u < rem.len(),
        rem[u],
        lists_exactly(order, rem.update(u, false)),
    ensures
        lists_exactly(order.push(u as usize), rem),
{
    let next = order.push(u as usize);
    let less = rem.update(u, false);
    assert forall|i: int, j: int| 0 <= i < j < next.len() implies next[i] != next[j] by {
        assert(order[i] == next[i]);
        assert(less[order[i] as int]);
    }
    assert forall|p: int| 0 <= p < next.len() implies (#[trigger] next[p]) < rem.len()
        && rem[next[p] as int] by {
        if p < order.len() {
            assert(less[order[p] as int]);
        }
    }
    assert forall|v: int| 0 <= v < rem.len() && rem[v] implies #[trigger] next.contains(
        v as usize,
    ) by {
        if v == u {
            assert(next[order.len() as int] == v as usize);
        } else {
            assert(less[v]);
            assert(order.contains(v as usize));
            let p = choose|p: int| 0 <= p < order.len() && order[p] == v as usize;
            assert(next[p] == v as usize);
        }
    }
}

proof fn lists_exactly_front(order: Seq<usize>, rem: Seq<bool>, u: int)
    requires
        rem.len() <= usize::MAX,
        0 <= u < rem.len(),
        rem[u],
        lists_exactly(order, rem.update(u, false)),
    ensures
        lists_exactly(seq![u as usize] + order, rem),
{
    let next = seq![u as usize] + order;
    let less = rem.update(u, false);
    assert forall|i: int, j: int| 0 <= i < j < next.len() implies next[i] != next[j] by {
        assert(order[j - 1] == next[j]);
        assert(less[order[j - 1] as int]);
        if i > 0 {
            assert(order[i - 1] == next[i]);
        }
    }
    assert forall|p: int| 0 <= p < next.len() implies (#[trigger] next[p]) < rem.len()
        && rem[next[p] as int] by {
        if p > 0 {
            assert(next[p] == order[p - 1]);
            assert(less[order[p - 1] as int]);
        }
    }
    assert forall|v: int| 0 <= v < rem.len() && rem[v] implies #[trigger] next.contains(
        v as usize,
    ) by {
        if v == u {
            assert(next[0] == v as usize);
        } else {
            assert(less[v]);
            assert(order.contains(v as usize));
            let p = choose|p: int| 0 <= p < order.len() && order[p] == v as usize;
            assert(next[p + 1] == v as usize);
        }
    }
}

proof fn none_left(rem: Seq<bool>)
    requires
        left_over(rem) == 0,
    ensures
        forall|v: int| 0 <= v < rem.len() ==> !#[trigger] rem[v],
{
    assert forall|v: int| 0 <= v < rem.len() implies !#[trigger] rem[v] by {
        if rem[v] {
            count_positive(|v: int| rem[v], rem.len() as int, v);
        }
    }
}

/// The greedy order lists each remaining vertex once.
pub proof fn greedy_order_lists(m: Seq<Seq<bool>>, rem: Seq<bool>, phase: nat)
    requires
        rem.len() <= usize::MAX,
    ensures
        lists_exactly(greedy_order(m, rem, phase), rem),
    decreases left_over(rem), 3 - phase,
{
    let n = rem.len() as int;
    if left_over(rem) == 0 {
        none_left(rem);
    } else if phase == 0 {
        first_where_is_first(is_sink(m, rem), 0, n);
        let u = first_where(is_sink(m, rem), 0, n);
        if u < n {
            left_over_drops(rem, u);
            greedy_order_lists(m, rem.update(u, false), 0);
            lists_exactly_push(greedy_order(m, rem.update(u, false), 0), rem, u);
        } else {
            greedy_order_lists(m, rem, 1);
        }
    } else if phase == 1 {
        first_where_is_first(is_source(m, rem), 0, n);
        let u = first_where(is_source(m, rem), 0, n);
        if u < n {
            left_over_drops(rem, u);
            greedy_order_lists(m, rem.update(u, false), 1);
            lists_exactly_front(greedy_order(m, rem.update(u, false), 1), rem, u);
        } else {
            greedy_order_lists(m, rem, 2);
        }
    } else {
        richest_is_largest(m, rem, n);
        let v = count_witness(|v: int| rem[v], n);
        assert(rem[v]);
        let u = richest(m, rem, n);
        left_over_drops(rem, u);
        greedy_order_lists(m, rem.update(u, false), 0);
        lists_exactly_front(greedy_order(m, rem.update(u, false), 0), rem, u);
    }
}

// ---- Loops -------------------------------------------------------------------------

/// A walk along the relation through remaining vertices.
pub open spec fn is_walk(m: Seq<Seq<bool>>, rem: Seq<bool>, w: Seq<usize>) -> bool {
    &&& forall|k: int| 0 <= k < w.len() ==> (#[trigger] w[k]) < rem.len() && rem[w[k] as int]
    &&& forall|k: int|
        #![trigger w[k]]
        0 <= k && k + 1 < w.len() ==> m[w[k] as int][w[k + 1] as int]
}

/// A walk that comes back to where it starts.
pub open spec fn is_loop(m: Seq<Seq<bool>>, rem: Seq<bool>, w: Seq<usize>) -> bool {
    &&& w.len() >= 2
    &&& is_walk(m, rem, w)
    &&& w[0] == w[w.len() - 1]
}

/// Some walk through the remaining vertices comes back to where it starts.
pub open spec fn has_loop(m: Seq<Seq<bool>>, rem: Seq<bool>) -> bool {
    exists|w: Seq<usize>| #[trigger] is_loop(m, rem, w)
}

/// The relation leads from earlier to later places of the order only.
pub open spec fn goes_forward(m: Seq<Seq<bool>>, order: Seq<usize>) -> bool {
    forall|p: int, q: int|
        0 <= p < order.len() && 0 <= q < order.len()
            && m[#[trigger] order[p] as int][#[trigger] order[q] as int] ==> p < q
}

proof fn long_walk(m: Seq<Seq<bool>>, rem: Seq<bool>, v: int, k: nat) -> (w: Seq<usize>)
    requires
        rem.len() <= usize::MAX,
        0 <= v < rem.len(),
        rem[v],
        forall|u: int| 0 <= u < rem.len() ==> !#[trigger] is_sink(m, rem)(u),
    ensures
        w.len() == k + 1,
        w[0] == v,
        is_walk(m, rem, w),
    decreases k,
{
    if k == 0 {
        seq![v as usize]
    } else {
        assert(!is_sink(m, rem)(v));
        let u = count_witness(remaining_successor(m, rem, v), rem.len() as int);
        let t = long_walk(m, rem, u, (k - 1) as nat);
        let w = seq![v as usize] + t;
        assert forall|j: int| 0 <= j < w.len() implies (#[trigger] w[j]) < rem.len()
            && rem[w[j] as int] by {
            if j > 0 {
                assert(w[j] == t[j - 1]);
            }
        }
        assert forall|j: int|
            #![trigger w[j]]
            0 <= j && j + 1 < w.len() implies m[w[j] as int][w[j + 1] as int] by {
            assert(w[j + 1] == t[j]);
            if j > 0 {
                assert(w[j] == t[j - 1]);
            }
        }
        w
    }
}

/// Where nothing loops, some remaining vertex is a sink.
proof fn loopless_has_sink(m: Seq<Seq<bool>>, rem: Seq<bool>)
    requires
        rem.len() <= usize::MAX,
        left_over(rem) > 0,
        !has_loop(m, rem),
    ensures
        first_where(is_sink(m, rem), 0, rem.len() as int) < rem.len(),
{
    let n = rem.len() as int;
    first_where_is_first(is_sink(m, rem), 0, n);
    if first_where(is_sink(m, rem), 0, n) == n {
        let v = count_witness(|v: int| rem[v], n);
        assert(rem[v]);
        let w = long_walk(m, rem, v, rem.len());
        if w.no_duplicates() {
            assert forall|p: int| 0 <= p < w.len() implies (#[trigger] w[p]) < n by {
                assert(rem[w[p] as int]);
            }
            crate::layering::no_more_than(w, rem.len());
        } else {
            let (i, j) = choose|i: int, j: int|
                0 <= i < w.len() && 0 <= j < w.len() && i != j && w[i] == w[j];
            let (a, b) = if i < j {
                (i, j)
            } else {
                (j, i)
            };
            let t = w.subrange(a, b + 1);
            assert forall|k: int| 0 <= k < t.len() implies (#[trigger] t[k]) < rem.len()
                && rem[t[k] as int] by {
                assert(t[k] == w[a + k]);
            }
            assert forall|k: int|
                #![trigger t[k]]
                0 <= k && k + 1 < t.len() implies m[t[k] as int][t[k + 1] as int] by {
                assert(t[k] == w[a + k]);
                assert(t[k + 1] == w[a + k + 1]);
            }
            assert(is_loop(m, rem, t));
        }
    }
}

proof fn loopless_is_forward(m: Seq<Seq<bool>>, rem: Seq<bool>)
    requires
        rem.len() <= usize::MAX,
        !has_loop(m, rem),
    ensures
        goes_forward(m, greedy_order(m, rem, 0)),
    decreases left_over(rem),
{
    let n = rem.len() as int;
    if left_over(rem) > 0 {
        loopless_has_sink(m, rem);
        first_where_is_first(is_sink(m, rem), 0, n);
        let u = first_where(is_sink(m, rem), 0, n);
        left_over_drops(rem, u);
        let less = rem.update(u, false);
        if has_loop(m, less) {
            let w = choose|w: Seq<usize>| #[trigger] is_loop(m, less, w);
            assert forall|k: int| 0 <= k < w.len() implies (#[trigger] w[k]) < rem.len()
                && rem[w[k] as int] by {
                assert(less[w[k] as int]);
            }
            assert(is_loop(m, rem, w));
        }
        loopless_is_forward(m, less);
        greedy_order_lists(m, less, 0);
        let s = greedy_order(m, less, 0);
        let t = s.push(u as usize);
        assert(greedy_order(m, rem, 0) == t);
        assert forall|p: int, q: int|
            0 <= p < t.len() && 0 <= q < t.len()
                && m[#[trigger] t[p] as int][#[trigger] t[q] as int] implies p < q by {
            if p == s.len() {
                if q < s.len() {
                    assert(less[s[q] as int]);
                }
                assert(rem[t[q] as int]);
                count_positive(remaining_successor(m, rem, u), n, t[q] as int);
            } else if q < s.len() {
                assert(m[s[p] as int][s[q] as int]);
            }
        }
    }
}

proof fn loops_run_back(m: Seq<Seq<bool>>, rem: Seq<bool>, order: Seq<usize>, w: Seq<usize>, k: int)
    requires
        is_walk(m, rem, w),
        lists_exactly(order, rem),
        goes_forward(m, order),
        0 < k < w.len(),
    ensures
        order.index_of(w[0]) < order.index_of(w[k]),
    decreases k,
{
    let (x, y) = (w[k - 1], w[k]);
    assert(rem[x as int] && rem[y as int]);
    assert(order.contains(x as int as usize) && order.contains(y as int as usize));
    let p = order.index_of(x);
    let q = order.index_of(y);
    assert(order[p] == x && order[q] == y);
    assert(m[order[p] as int][order[q] as int]);
    if k > 1 {
        loops_run_back(m, rem, order, w, k - 1);
    }
}

/// The greedy order has the relation run backward somewhere exactly where it
/// cannot be helped: where a walk comes back to where it starts.
pub proof fn only_loops_run_backward(m: Seq<Seq<bool>>, rem: Seq<bool>)
    requires
        rem.len() <= usize::MAX,
    ensures
        goes_forward(m, greedy_order(m, rem, 0)) <==> !has_loop(m, rem),
{
    if has_loop(m, rem) {
        if goes_forward(m, greedy_order(m, rem, 0)) {
            let w = choose|w: Seq<usize>| #[trigger] is_loop(m, rem, w);
            greedy_order_lists(m, rem, 0);
            loops_run_back(m, rem, greedy_order(m, rem, 0), w, w.len() - 1);
        }
    } else {
        loopless_is_forward(m, rem);
    }
}

// ---- Backward arcs -----------------------------------------------------------------

/// The relation leads from `a` back to `b`, which has the earlier place.
pub open spec fn back_arc(
    m: Seq<Seq<bool>>,
    rem: Seq<bool>,
    order: Seq<usize>,
    a: int,
) -> spec_fn(int) -> bool {
    |b: int| m[a][b] && rem[b] && order.index_of(b as usize) < order.index_of(a as usize)
}

/// The backward arcs that leave each remaining vertex.
pub open spec fn back_degrees(
    m: Seq<Seq<bool>>,
    rem: Seq<bool>,
    order: Seq<usize>,
) -> spec_fn(int) -> int {
    |a: int|
        if rem[a] {
            count(back_arc(m, rem, order, a), rem.len() as int) as int
        } else {
            0
        }
}

/// How many arcs of the relation between remaining vertices run backward.
pub open spec fn backward_arcs(m: Seq<Seq<bool>>, rem: Seq<bool>, order: Seq<usize>) -> int {
    sum(back_degrees(m, rem, order), rem.len() as int)
}

/// The arcs that leave each remaining vertex.
pub open spec fn degrees(m: Seq<Seq<bool>>, rem: Seq<bool>) -> spec_fn(int) -> int {
    |a: int|
        if rem[a] {
            out_degree(m, rem, a) as int
        } else {
            0
        }
}

/// How many arcs the relation has between remaining vertices.
pub open spec fn all_arcs(m: Seq<Seq<bool>>, rem: Seq<bool>) -> int {
    sum(degrees(m, rem), rem.len() as int)
}

/// No remaining vertex leads to itself.
pub open spec fn irreflexive(m: Seq<Seq<bool>>, rem: Seq<bool>) -> bool {
    forall|u: int| 0 <= u < rem.len() && rem[u] ==> !#[trigger] m[u][u]
}

spec fn flags(p: spec_fn(int) -> bool) -> spec_fn(int) -> int {
    |i: int|
        if p(i) {
            1int
        } else {
            0int
        }
}

proof fn sum_of_flags(p: spec_fn(int) -> bool, n: int)
    ensures
        sum(flags(p), n) == count(p, n),
    decreases n,
{
    if n > 0 {
        sum_of_flags(p, n - 1);
    }
}

proof fn sum_plus(
    f: spec_fn(int) -> int,
    g: spec_fn(int) -> int,
    h: spec_fn(int) -> int,
    n: int,
)
    requires
        forall|i: int| 0 <= i < n ==> #[trigger] h(i) == f(i) + g(i),
    ensures
        sum(h, n) == sum(f, n) + sum(g, n),
    decreases n,
{
    if n > 0 {
        sum_plus(f, g, h, n - 1);
        assert(h(n - 1) == f(n - 1) + g(n - 1));
    }
}

/// Taking a vertex away takes its arcs away.
proof fn arcs_without(m: Seq<Seq<bool>>, rem: Seq<bool>, u: int)
    requires
        0 <= u < rem.len(),
        rem[u],
        irreflexive(m, rem),
    ensures
        all_arcs(m, rem) == all_arcs(m, rem.update(u, false)) + out_degree(m, rem, u) + in_degree(
            m,
            rem,
            u,
        ),
{
    let n = rem.len() as int;
    let less = rem.update(u, false);
    let (f, f1) = (degrees(m, rem), degrees(m, less));
    let p = remaining_predecessor(m, rem, u);
    let g = flags(p);
    let h = |a: int| f1(a) + g(a);
    sum_of_flags(p, n);
    sum_plus(f1, g, h, n);
    assert(!m[u][u]);
    assert forall|a: int| 0 <= a < n && a != u implies #[trigger] h(a) == f(a) by {
        if rem[a] {
            let s = remaining_successor(m, rem, a);
            let s1 = remaining_successor(m, less, a);
            if m[a][u] {
                count_insert(s1, s, n, u);
            } else {
                count_eq(s1, s, n);
            }
        }
    }
    sum_one(h, f, n, u);
}

proof fn place_in_front(s: Seq<usize>, u: usize, b: usize)
    requires
        s.no_duplicates(),
        !s.contains(u),
        b == u || s.contains(b),
    ensures
        (seq![u] + s).index_of(b) == if b == u {
            0
        } else {
            s.index_of(b) + 1
        },
{
    let t = seq![u] + s;
    assert(t.contains(b)) by {
        if b == u {
            assert(t[0] == b);
        } else {
            let i = choose|i: int| 0 <= i < s.len() && s[i] == b;
            assert(t[i + 1] == b);
        }
    }
    let i = t.index_of(b);
    assert(t[i] == b);
    if b == u {
        if i > 0 {
            assert(s[i - 1] == u);
        }
    } else {
        assert(i > 0);
        assert(s[i - 1] == b);
        let j = s.index_of(b);
        assert(s[j] == b);
    }
}

proof fn place_at_end(s: Seq<usize>, u: usize, b: usize)
    requires
        s.no_duplicates(),
        !s.contains(u),
        b == u || s.contains(b),
    ensures
        s.push(u).index_of(b) == if b == u {
            s.len() as int
        } else {
            s.index_of(b)
        },
        b != u ==> s.index_of(b) < s.len(),
{
    let t = s.push(u);
    assert(t.contains(b)) by {
        if b == u {
            assert(t[s.len() as int] == b);
        } else {
            let i = choose|i: int| 0 <= i < s.len() && s[i] == b;
            assert(t[i] == b);
        }
    }
    let i = t.index_of(b);
    assert(t[i] == b);
    if b == u {
        if i < s.len() {
            assert(s[i] == u);
        }
    } else {
        assert(i < s.len());
        assert(s[i] == b);
        let j = s.index_of(b);
        assert(s[j] == b);
    }
}

/// What is listed without `u` does not hold `u`.
proof fn listed_without(s: Seq<usize>, rem: Seq<bool>, u: int)
    requires
        rem.len() <= usize::MAX,
        0 <= u < rem.len(),
        lists_exactly(s, rem.update(u, false)),
    ensures
        !s.contains(u as usize),
        forall|b: int| 0 <= b < rem.len() && rem[b] && b != u ==> #[trigger] s.contains(b as usize),
{
    let less = rem.update(u, false);
    if s.contains(u as usize) {
        let p = choose|p: int| 0 <= p < s.len() && s[p] == u as usize;
        assert(less[s[p] as int]);
    }
    assert forall|b: int| 0 <= b < rem.len() && rem[b] && b != u implies #[trigger] s.contains(
        b as usize,
    ) by {
        assert(less[b]);
    }
}

/// Arcs to the vertex in front run backward, and no other arcs of it do.
proof fn front_adds(m: Seq<Seq<bool>>, rem: Seq<bool>, s: Seq<usize>, u: int)
    requires
        rem.len() <= usize::MAX,
        0 <= u < rem.len(),
        rem[u],
        irreflexive(m, rem),
        lists_exactly(s, rem.update(u, false)),
    ensures
        backward_arcs(m, rem, seq![u as usize] + s) == backward_arcs(m, rem.update(u, false), s)
            + in_degree(m, rem, u),
{
    let n = rem.len() as int;
    let less = rem.update(u, false);
    let t = seq![u as usize] + s;
    listed_without(s, rem, u);
    let p = remaining_predecessor(m, rem, u);
    let (f, f1, g) = (back_degrees(m, rem, t), back_degrees(m, less, s), flags(p));
    assert(!m[u][u]);
    assert forall|b: int| 0 <= b < n && rem[b] implies #[trigger] t.index_of(b as usize) == if b == u {
        0
    } else {
        s.index_of(b as usize) + 1
    } by {
        place_in_front(s, u as usize, b as usize);
    }
    assert(t.index_of(u as usize) == 0);
    assert forall|a: int| 0 <= a < n implies #[trigger] f(a) == f1(a) + g(a) by {
        let r = back_arc(m, rem, t, a);
        let r1 = back_arc(m, less, s, a);
        if rem[a] && a != u {
            assert(s.contains(a as usize));
            assert(t.index_of(a as usize) == s.index_of(a as usize) + 1);
            assert(s[s.index_of(a as usize)] == a);
            assert forall|b: int| 0 <= b < n && b != u implies #[trigger] r1(b) == r(b) by {
                if rem[b] {
                    assert(t.index_of(b as usize) == s.index_of(b as usize) + 1);
                }
            }
            if m[a][u] {
                count_insert(r1, r, n, u);
            } else {
                assert(r1(u) == r(u));
                count_eq(r1, r, n);
            }
        } else if a == u {
            assert forall|b: int| 0 <= b < n implies !#[trigger] r(b) by {
                if rem[b] {
                    if b != u {
                        assert(s.contains(b as usize));
                        assert(s[s.index_of(b as usize)] == b);
                    }
                    assert(t.index_of(b as usize) >= 0);
                }
            }
            if count(r, n) > 0 {
                let b = count_witness(r, n);
            }
        }
    }
    sum_plus(f1, g, f, n);
    sum_of_flags(p, n);
}

/// A vertex without successors adds no backward arc at the end.
proof fn end_adds_none(m: Seq<Seq<bool>>, rem: Seq<bool>, s: Seq<usize>, u: int)
    requires
        rem.len() <= usize::MAX,
        0 <= u < rem.len(),
        rem[u],
        out_degree(m, rem, u) == 0,
        lists_exactly(s, rem.update(u, false)),
    ensures
        backward_arcs(m, rem, s.push(u as usize)) == backward_arcs(m, rem.update(u, false), s),
{
    let n = rem.len() as int;
    let less = rem.update(u, false);
    let t = s.push(u as usize);
    listed_without(s, rem, u);
    let (f, f1) = (back_degrees(m, rem, t), back_degrees(m, less, s));
    assert forall|b: int| 0 <= b < n && rem[b] implies #[trigger] t.index_of(b as usize) == if b == u {
        s.len() as int
    } else {
        s.index_of(b as usize)
    } by {
        place_at_end(s, u as usize, b as usize);
    }
    assert(t.index_of(u as usize) == s.len());
    assert forall|a: int| 0 <= a < n implies #[trigger] f1(a) == f(a) by {
        let r = back_arc(m, rem, t, a);
        let r1 = back_arc(m, less, s, a);
        if rem[a] && a != u {
            place_at_end(s, u as usize, a as usize);
            assert(t.index_of(a as usize) == s.index_of(a as usize));
            assert forall|b: int| 0 <= b < n implies #[trigger] r1(b) == r(b) by {
                if rem[b] && b != u {
                    assert(t.index_of(b as usize) == s.index_of(b as usize));
                }
            }
            count_eq(r1, r, n);
        } else if a == u {
            if count(r, n) > 0 {
                let b = count_witness(r, n);
                count_positive(remaining_successor(m, rem, u), n, b);
            }
        }
    }
    sum_eq(f1, f, n);
}

spec fn row(p: spec_fn(int, int) -> bool, k: int) -> spec_fn(int) -> int {
    |a: int| count(|b: int| p(a, b), k) as int
}

spec fn column(p: spec_fn(int, int) -> bool, n: int) -> spec_fn(int) -> int {
    |b: int| count(|a: int| p(a, b), n) as int
}

/// Pairs counted by rows and by columns.
proof fn rows_are_columns(p: spec_fn(int, int) -> bool, n: int, k: int)
    ensures
        sum(row(p, k), n) == sum(column(p, n), k),
    decreases n,
{
    let q = |b: int| p(n - 1, b);
    if n > 0 {
        rows_are_columns(p, n - 1, k);
        let (f, g, h) = (column(p, n - 1), flags(q), column(p, n));
        assert forall|b: int| 0 <= b < k implies #[trigger] h(b) == f(b) + g(b) by {
            let r = |a: int| p(a, b);
            assert(count(r, n) == count(r, n - 1) + (if r(n - 1) {
                1nat
            } else {
                0nat
            }));
        }
        sum_plus(f, g, h, k);
        sum_of_flags(q, k);
        assert(row(p, k)(n - 1) == count(q, k));
    } else {
        let h = column(p, n);
        let z = |b: int| 0int;
        assert forall|b: int| 0 <= b < k implies #[trigger] h(b) == z(b) by {}
        sum_eq(h, z, k);
        sum_zero(z, k);
    }
}

proof fn sum_zero(f: spec_fn(int) -> int, n: int)
    requires
        forall|i: int| 0 <= i < n ==> #[trigger] f(i) == 0,
    ensures
        sum(f, n) == 0,
    decreases n,
{
    if n > 0 {
        sum_zero(f, n - 1);
        assert(f(n - 1) == 0);
    }
}

/// Terms of which some is smaller and none is larger.
proof fn sum_smaller(f: spec_fn(int) -> int, g: spec_fn(int) -> int, n: int, k: int)
    requires
        0 <= k,
        forall|i: int| 0 <= i < n ==> #[trigger] f(i) <= g(i),
        k < n ==> f(k) < g(k),
    ensures
        sum(f, n) <= sum(g, n),
        k < n ==> sum(f, n) < sum(g, n),
    decreases n,
{
    if n > 0 {
        sum_smaller(f, g, n - 1, k);
        assert(f(n - 1) <= g(n - 1));
    }
}

/// Some remaining vertex has as many successors as predecessors, or more.
proof fn richest_is_rich(m: Seq<Seq<bool>>, rem: Seq<bool>, v: int)
    requires
        0 <= v < rem.len(),
        rem[v],
    ensures
        surplus(m, rem, richest(m, rem, rem.len() as int)) >= 0,
{
    let n = rem.len() as int;
    richest_is_largest(m, rem, n);
    if surplus(m, rem, richest(m, rem, n)) < 0 {
        let p = |a: int, b: int| rem[a] && rem[b] && m[a][b];
        let (f, g) = (row(p, n), column(p, n));
        rows_are_columns(p, n, n);
        assert forall|a: int| 0 <= a < n implies #[trigger] f(a) <= g(a) && (rem[a] ==> f(a)
            < g(a)) by {
            let fa = |b: int| p(a, b);
            let ga = |b: int| p(b, a);
            if rem[a] {
                count_eq(fa, remaining_successor(m, rem, a), n);
                count_eq(ga, remaining_predecessor(m, rem, a), n);
                assert(surplus(m, rem, a) < 0);
            } else {
                if count(fa, n) > 0 {
                    let b = count_witness(fa, n);
                }
            }
        }
        assert(f(v) < g(v));
        sum_smaller(f, g, n, v);
    }
}

/// At most half of the arcs run backward in the greedy order.
pub proof fn half_run_forward(m: Seq<Seq<bool>>, rem: Seq<bool>, phase: nat)
    requires
        rem.len() <= usize::MAX,
        irreflexive(m, rem),
    ensures
        2 * backward_arcs(m, rem, greedy_order(m, rem, phase)) <= all_arcs(m, rem),
    decreases left_over(rem), 3 - phase,
{
    let n = rem.len() as int;
    if left_over(rem) == 0 {
        none_left(rem);
        sum_zero(back_degrees(m, rem, greedy_order(m, rem, phase)), n);
        sum_zero(degrees(m, rem), n);
    } else if phase == 0 {
        first_where_is_first(is_sink(m, rem), 0, n);
        let u = first_where(is_sink(m, rem), 0, n);
        if u < n {
            left_over_drops(rem, u);
            let less = rem.update(u, false);
            half_run_forward(m, less, 0);
            greedy_order_lists(m, less, 0);
            end_adds_none(m, rem, greedy_order(m, less, 0), u);
            arcs_without(m, rem, u);
        } else {
            half_run_forward(m, rem, 1);
        }
    } else if phase == 1 {
        first_where_is_first(is_source(m, rem), 0, n);
        let u = first_where(is_source(m, rem), 0, n);
        if u < n {
            left_over_drops(rem, u);
            let less = rem.update(u, false);
            half_run_forward(m, less, 1);
            greedy_order_lists(m, less, 1);
            front_adds(m, rem, greedy_order(m, less, 1), u);
            arcs_without(m, rem, u);
        } else {
            half_run_forward(m, rem, 2);
        }
    } else {
        richest_is_largest(m, rem, n);
        let v = count_witness(|v: int| rem[v], n);
        assert(rem[v]);
        let u = richest(m, rem, n);
        left_over_drops(rem, u);
        let less = rem.update(u, false);
        half_run_forward(m, less, 0);
        greedy_order_lists(m, less, 0);
        front_adds(m, rem, greedy_order(m, less, 0), u);
        arcs_without(m, rem, u);
        richest_is_rich(m, rem, v);
    }
}

/// The topological order that takes the first ready vertex each time; what is
/// in cycles comes last, in order.
pub open spec fn ready_order(m: Seq<Seq<bool>>, rem: Seq<bool>) -> Seq<usize>
    decreases left_over(rem),
{
    let n = rem.len() as int;
    let u = first_where(is_source(m, rem), 0, n);
    if 0 <= u < n && rem[u] {
        proof {
            left_over_drops(rem, u);
        }
        seq![u as usize] + ready_order(m, rem.update(u, false))
    } else {
        where_list(|v: int| rem[v], n)
    }
}

/// The topological order lists each remaining vertex once.
pub proof fn ready_order_lists(m: Seq<Seq<bool>>, rem: Seq<bool>)
    requires
        rem.len() <= usize::MAX,
    ensures
        lists_exactly(ready_order(m, rem), rem),
    decreases left_over(rem),
{
    let n = rem.len() as int;
    first_where_is_first(is_source(m, rem), 0, n);
    let u = first_where(is_source(m, rem), 0, n);
    if u < n && rem[u] {
        left_over_drops(rem, u);
        ready_order_lists(m, rem.update(u, false));
        lists_exactly_front(ready_order(m, rem.update(u, false)), rem, u);
    } else {
        let p = |v: int| rem[v];
        let s = where_list(p, n);
        assert forall|i: int, j: int| 0 <= i < j < s.len() implies s[i] != s[j] by {
            where_list_sorted(p, n, i, j);
        }
        assert forall|i: int| 0 <= i < s.len() implies (#[trigger] s[i]) < rem.len()
            && rem[s[i] as int] by {
            where_list_contains(p, n, s[i]);
            assert(s.contains(s[i]));
        }
        assert forall|v: int| 0 <= v < rem.len() && rem[v] implies #[trigger] s.contains(
            v as usize,
        ) by {
            where_list_contains(p, n, v as usize);
        }
    }
}

/// Where numbers rise along every edge between remaining vertices, every
/// vertex comes after its remaining predecessors.
pub proof fn ready_order_respects(
    m: Seq<Seq<bool>>,
    rem: Seq<bool>,
    rank: Seq<int>,
    a: int,
    b: int,
)
    requires
        rem.len() <= usize::MAX,
        rank.len() == rem.len(),
        is_relation(m, rem.len()),
        forall|u: int, v: int|
            0 <= u < rem.len() && 0 <= v < rem.len() && #[trigger] m[u][v] && rem[u] && rem[v]
                ==> rank[u] < rank[v],
        0 <= a < rem.len(),
        0 <= b < rem.len(),
        m[a][b],
        rem[a],
        rem[b],
    ensures
        exists|p: int, q: int|
            #![trigger ready_order(m, rem)[p], ready_order(m, rem)[q]]
            0 <= p < q < ready_order(m, rem).len() && ready_order(m, rem)[p] == a && ready_order(
                m,
                rem,
            )[q] == b,
    decreases left_over(rem),
{
    let n = rem.len() as int;
    first_where_is_first(is_source(m, rem), 0, n);
    let u = first_where(is_source(m, rem), 0, n);
    let w = lowest(rem, rank, n, a);
    assert(is_source(m, rem)(w)) by {
        if in_degree(m, rem, w) > 0 {
            let v = count_witness(remaining_predecessor(m, rem, w), n);
            assert(m[v][w] && rem[v]);
            assert(rank[v] < rank[w]);
        }
    }
    assert(u < n);
    let less = rem.update(u, false);
    left_over_drops(rem, u);
    let rest = ready_order(m, less);
    let order = ready_order(m, rem);
    assert(order == seq![u as usize] + rest);
    if u == b {
        count_positive(remaining_predecessor(m, rem, b), n, a);
        assert(false);
    } else if u == a {
        ready_order_lists(m, less);
        assert(less[b]);
        assert(rest.contains(b as usize));
        let q = choose|q: int| 0 <= q < rest.len() && rest[q] == b as usize;
        assert(order[0] == a);
        assert(order[q + 1] == b);
    } else {
        ready_order_respects(m, less, rank, a, b);
        let (p, q) = choose|p: int, q: int|
            #![trigger ready_order(m, less)[p], ready_order(m, less)[q]]
            0 <= p < q < ready_order(m, less).len() && ready_order(m, less)[p] == a
                && ready_order(m, less)[q] == b;
        assert(order[p + 1] == a && order[q + 1] == b);
    }
}

proof fn lowest(rem: Seq<bool>, rank: Seq<int>, n: int, v0: int) -> (v: int)
    requires
        0 <= v0 < n <= rem.len(),
        rem[v0],
    ensures
        0 <= v < n,
        rem[v],
        forall|w: int| 0 <= w < n && #[trigger] rem[w] ==> rank[v] <= rank[w],
    decreases n,
{
    if exists|w: int| 0 <= w < n - 1 && #[trigger] rem[w] {
        let w0 = choose|w: int| 0 <= w < n - 1 && #[trigger] rem[w];
        let v = lowest(rem, rank, n - 1, w0);
        if rem[n - 1] && rank[n - 1] < rank[v] {
            n - 1
        } else {
            v
        }
    } else {
        v0
    }
}

/// How many successors of `u` remain.
fn count_out(m: &Vec<Vec<bool>>, rem: &Vec<bool>, u: usize) -> (r: usize)
    requires
        is_relation(rows(m@), rem@.len()),
        u < rem@.len(),
    ensures
        r == out_degree(rows(m@), rem@, u as int),
        r <= rem@.len(),
{
    let ghost g = rows(m@);
    let ghost p = remaining_successor(g, rem@, u as int);
    let n: usize = rem.len();
    let mut r: usize = 0;
    let mut v: usize = 0;
    assert(g[u as int].len() == n);
    while v < n
        invariant
            n == rem@.len(),
            g == rows(m@),
            m@.len() == n,
            u < n,
            m@[u as int]@.len() == n,
            p == remaining_successor(g, rem@, u as int),
            v <= n,
            r <= v,
            r == count(p, v as int),
        decreases n - v,
    {
        if m[u][v] && rem[v] {
            r = r + 1;
        }
        v = v + 1;
    }
    r
}

/// How many predecessors of `u` remain.
fn count_in(m: &Vec<Vec<bool>>, rem: &Vec<bool>, u: usize) -> (r: usize)
    requires
        is_relation(rows(m@), rem@.len()),
        u < rem@.len(),
    ensures
        r == in_degree(rows(m@), rem@, u as int),
        r <= rem@.len(),
{
    let ghost g = rows(m@);
    let ghost p = remaining_predecessor(g, rem@, u as int);
    let n: usize = rem.len();
    let mut r: usize = 0;
    let mut v: usize = 0;
    while v < n
        invariant
            n == rem@.len(),
            g == rows(m@),
            is_relation(g, n as nat),
            m@.len() == n,
            u < n,
            p == remaining_predecessor(g, rem@, u as int),
            v <= n,
            r <= v,
            r == count(p, v as int),
        decreases n - v,
    {
        assert(g[v as int].len() == n);
        if m[v][u] && rem[v] {
            r = r + 1;
        }
        v = v + 1;
    }
    r
}

fn first_sink(m: &Vec<Vec<bool>>, rem: &Vec<bool>) -> (r: usize)
    requires
        is_relation(rows(m@), rem@.len()),
    ensures
        r == first_where(is_sink(rows(m@), rem@), 0, rem@.len() as int),
        r <= rem@.len(),
        r < rem@.len() ==> rem@[r as int],
{
    let ghost p = is_sink(rows(m@), rem@);
    let n: usize = rem.len();
    let mut i: usize = 0;
    while i < n
        invariant
            n == rem@.len(),
            is_relation(rows(m@), rem@.len()),
            p == is_sink(rows(m@), rem@),
            i <= n,
            first_where(p, 0, n as int) == first_where(p, i as int, n as int),
        decreases n - i,
    {
        if rem[i] && count_out(m, rem, i) == 0 {
            return i;
        }
        i = i + 1;
    }
    n
}

fn first_source(m: &Vec<Vec<bool>>, rem: &Vec<bool>) -> (r: usize)
    requires
        is_relation(rows(m@), rem@.len()),
    ensures
        r == first_where(is_source(rows(m@), rem@), 0, rem@.len() as int),
        r <= rem@.len(),
        r < rem@.len() ==> rem@[r as int],
{
    let ghost p = is_source(rows(m@), rem@);
    let n: usize = rem.len();
    let mut i: usize = 0;
    while i < n
        invariant
            n == rem@.len(),
            is_relation(rows(m@), rem@.len()),
            p == is_source(rows(m@), rem@),
            i <= n,
            first_where(p, 0, n as int) == first_where(p, i as int, n as int),
        decreases n - i,
    {
        if rem[i] && count_in(m, rem, i) == 0 {
            return i;
        }
        i = i + 1;
    }
    n
}

fn pick_richest(m: &Vec<Vec<bool>>, rem: &Vec<bool>) -> (r: usize)
    requires
        is_relation(rows(m@), rem@.len()),
        left_over(rem@) > 0,
    ensures
        r == richest(rows(m@), rem@, rem@.len() as int),
        r < rem@.len(),
        rem@[r as int],
{
    let ghost g = rows(m@);
    let n: usize = rem.len();
    let mut best: Option<(usize, i128)> = None;
    let mut i: usize = 0;
    while i < n
        invariant
            n == rem@.len(),
            g == rows(m@),
            is_relation(g, rem@.len()),
            i <= n,
            match best {
                None => richest(g, rem@, i as int) == -1,
                Some((b, s)) => b == richest(g, rem@, i as int) && s == surplus(g, rem@, b as int)
                    && b < n,
            },
        decreases n - i,
    {
        if rem[i] {
            let out: usize = count_out(m, rem, i);
            let inn: usize = count_in(m, rem, i);
            let s: i128 = out as i128 - inn as i128;
            let better = match best {
                None => true,
                Some((_, t)) => s > t,
            };
            if better {
                best = Some((i, s));
            }
        }
        i = i + 1;
    }
    proof {
        richest_is_largest(g, rem@, n as int);
        let v = count_witness(|v: int| rem@[v], n as int);
        assert(rem@[v]);
    }
    match best {
        Some((b, _)) => b,
        None => 0,
    }
}

fn count_left(rem: &Vec<bool>) -> (r: usize)
    ensures
        r == left_over(rem@),
{
    let ghost p = |v: int| rem@[v];
    let n: usize = rem.len();
    let mut r: usize = 0;
    let mut v: usize = 0;
    while v < n
        invariant
            n == rem@.len(),
            p == (|v: int| rem@[v]),
            v <= n,
            r <= v,
            r == count(p, v as int),
        decreases n - v,
    {
        if rem[v] {
            r = r + 1;
        }
        v = v + 1;
    }
    r
}

/// Eades' greedy order of the vertices in `rem`. Edges that run backward in it
/// are feedback arcs.
pub fn greedy_fas_sequence(m: &Vec<Vec<bool>>, rem: Vec<bool>) -> (r: Vec<usize>)
    requires
        is_relation(rows(m@), rem@.len()),
    ensures
        r@ == greedy_order(rows(m@), rem@, 0),
        lists_exactly(r@, rem@),
{
    let ghost g = rows(m@);
    let ghost all = rem@;
    let n: usize = rem.len();
    proof {
        greedy_order_lists(g, all, 0);
    }
    let mut rem = rem;
    let mut left: Vec<usize> = Vec::new();
    // The right-hand part, last vertex first.
    let mut right: Vec<usize> = Vec::new();
    let mut phase: u8 = 0;
    let mut todo: usize = count_left(&rem);
    proof {
        let s = greedy_order(g, all, 0);
        assert(Seq::<usize>::empty() + s + Seq::<usize>::empty().reverse() =~= s);
        assert(left@ =~= Seq::<usize>::empty());
        assert(right@ =~= Seq::<usize>::empty());
    }
    while todo > 0
        invariant
            n == rem@.len(),
            g == rows(m@),
            is_relation(g, n as nat),
            phase <= 2,
            todo == left_over(rem@),
            greedy_order(g, all, 0) == left@ + greedy_order(g, rem@, phase as nat)
                + right@.reverse(),
        decreases todo, 3 - phase,
    {
        let ghost before = rem@;
        let ghost l0 = left@;
        let ghost r0 = right@;
        if phase == 0 {
            let u: usize = first_sink(m, &rem);
            if u < n {
                right.push(u);
                rem.set(u, false);
                todo = todo - 1;
                proof {
                    left_over_drops(before, u as int);
                    let s = greedy_order(g, rem@, 0);
                    assert(l0 + s.push(u) + r0.reverse() =~= l0 + s + right@.reverse());
                }
            } else {
                phase = 1;
            }
        } else if phase == 1 {
            let u: usize = first_source(m, &rem);
            if u < n {
                left.push(u);
                rem.set(u, false);
                todo = todo - 1;
                proof {
                    left_over_drops(before, u as int);
                    let s = greedy_order(g, rem@, 1);
                    assert(l0 + (seq![u] + s) + r0.reverse() =~= left@ + s + r0.reverse());
                }
            } else {
                phase = 2;
            }
        } else {
            let u: usize = pick_richest(m, &rem);
            left.push(u);
            rem.set(u, false);
            todo = todo - 1;
            phase = 0;
            proof {
                left_over_drops(before, u as int);
                let s = greedy_order(g, rem@, 0);
                assert(l0 + (seq![u] + s) + r0.reverse() =~= left@ + s + r0.reverse());
            }
        }
    }
    let ghost l1 = left@;
    let ghost r1 = right@;
    assert(greedy_order(g, all, 0) =~= l1 + r1.reverse());
    let total: usize = right.len();
    let mut i: usize = 0;
    while i < total
        invariant
            total == r1.len(),
            right@ == r1,
            i <= total,
            left@ == l1 + r1.reverse().take(i as int),
        decreases total - i,
    {
        left.push(right[total - 1 - i]);
        assert(r1.reverse().take(i + 1) =~= r1.reverse().take(i as int).push(
            r1[total - 1 - i],
        ));
        i = i + 1;
    }
    assert(r1.reverse().take(total as int) =~= r1.reverse());
    left
}

/// The topological order of the vertices in `rem`, first ready vertex first.
pub fn ready_sequence(m: &Vec<Vec<bool>>, rem: Vec<bool>) -> (r: Vec<usize>)
    requires
        is_relation(rows(m@), rem@.len()),
    ensures
        r@ == ready_order(rows(m@), rem@),
        lists_exactly(r@, rem@),
{
    let ghost g = rows(m@);
    let ghost all = rem@;
    let n: usize = rem.len();
    proof {
        ready_order_lists(g, all);
    }
    let mut rem = rem;
    let mut out: Vec<usize> = Vec::new();
    let mut more = true;
    proof {
        assert(out@ + ready_order(g, all) =~= ready_order(g, all));
    }
    while more
        invariant
            n == rem@.len(),
            g == rows(m@),
            is_relation(g, n as nat),
            more ==> ready_order(g, all) == out@ + ready_order(g, rem@),
            !more ==> ready_order(g, all) == out@ + where_list(|v: int| rem@[v], n as int),
        decreases
            left_over(rem@),
            (if more {
                1int
            } else {
                0
            }),
    {
        let u: usize = first_source(m, &rem);
        let ghost before = rem@;
        let ghost o = out@;
        if u < n {
            out.push(u);
            rem.set(u, false);
            proof {
                left_over_drops(before, u as int);
                let s = ready_order(g, rem@);
                assert(o + (seq![u] + s) =~= out@ + s);
            }
        } else {
            more = false;
        }
    }
    let ghost o = out@;
    let ghost p = |v: int| rem@[v];
    let mut v: usize = 0;
    assert(o + where_list(p, 0) =~= o);
    while v < n
        invariant
            n == rem@.len(),
            p == (|v: int| rem@[v]),
            v <= n,
            out@ == o + where_list(p, v as int),
        decreases n - v,
    {
        let ghost now = out@;
        if rem[v] {
            out.push(v);
            assert(out@ =~= o + where_list(p, v as int + 1));
        }
        v = v + 1;
    }
    out
}

} // verus!
