//! The trees that join the pins of a net are as short as any.
//!
//! The proof exchanges edges: whatever joins all pins can take over the edges
//! of the tree one by one without getting longer.

use vstd::prelude::*;

#[allow(unused_imports)]
use crate::counting::{sum, sum_eq, sum_one, sum_two};
#[allow(unused_imports)]
use crate::crossing::{
    edges_after, joint, nearest_is_member, next_is_nearest, next_to_join, square_distance,
    tree_after, tree_edges, tree_grows,
};
#[allow(unused_imports)]
use crate::graph::{
    reach, reach_edge, reach_monotone, reach_preserves, reach_refl, reach_step, reach_symmetric,
    reach_trans,
};

verus! {

/// Edge `k` joins the two vertices.
pub open spec fn links_at(links: Seq<(int, int)>, k: int, u: int, v: int) -> bool {
    links[k] == (u, v) || links[k] == (v, u)
}

/// Some edge that is kept joins the two vertices.
pub open spec fn kept_link(links: Seq<(int, int)>, keep: spec_fn(int) -> bool) -> spec_fn(
    int,
    int,
) -> bool {
    |u: int, v: int|
        exists|k: int|
            0 <= k < links.len() && keep(k) && #[trigger] links_at(links, k, u, v)
}

/// All edges are kept.
pub open spec fn every_link() -> spec_fn(int) -> bool {
    |k: int| true
}

/// The edges join all of the first `n` vertices.
pub open spec fn joins_all(links: Seq<(int, int)>, n: int) -> bool {
    forall|u: int, v: int|
        0 <= u < n && 0 <= v < n ==> #[trigger] reach(kept_link(links, every_link()), u, v)
}

/// The edge leads out of the set.
pub open spec fn leaves(inside: Seq<int>, link: (int, int)) -> bool {
    inside.contains(link.0) != inside.contains(link.1)
}

/// Without those of the first `j` edges that lead out of the set.
pub open spec fn without_exits(links: Seq<(int, int)>, inside: Seq<int>, j: int) -> spec_fn(
    int,
) -> bool {
    |k: int| !(k < j && leaves(inside, links[k]))
}

proof fn links_turn_round(links: Seq<(int, int)>, keep: spec_fn(int) -> bool)
    ensures
        forall|x: int, y: int| #[trigger] kept_link(links, keep)(x, y) ==> kept_link(links, keep)(
            y,
            x,
        ),
{
    assert forall|x: int, y: int| #[trigger] kept_link(links, keep)(x, y) implies kept_link(
        links,
        keep,
    )(y, x) by {
        let k = choose|k: int|
            0 <= k < links.len() && keep(k) && #[trigger] links_at(links, k, x, y);
        assert(links_at(links, k, y, x));
    }
}

/// If one more edge joins what was apart, it leads from the part of the one
/// vertex to the part of the other.
proof fn bridge(
    links: Seq<(int, int)>,
    keep: spec_fn(int) -> bool,
    more: spec_fn(int) -> bool,
    j: int,
    a: int,
    b: int,
)
    requires
        0 <= j < links.len(),
        forall|k: int| 0 <= k < links.len() && k != j ==> #[trigger] more(k) == keep(k),
        reach(kept_link(links, more), a, b),
        !reach(kept_link(links, keep), a, b),
    ensures
        ({
            let (x, y) = links[j];
            let rel = kept_link(links, keep);
            (reach(rel, a, x) && reach(rel, y, b)) || (reach(rel, a, y) && reach(rel, x, b))
        }),
{
    let (x, y) = links[j];
    let rel = kept_link(links, keep);
    let wide = kept_link(links, more);
    let prop = |z: int|
        reach(rel, a, z) || (reach(rel, a, x) && reach(rel, y, z)) || (reach(rel, a, y) && reach(
            rel,
            x,
            z,
        ));
    reach_refl(rel, a);
    assert forall|p: int, q: int| prop(p) && #[trigger] wide(p, q) implies prop(q) by {
        let k = choose|k: int|
            0 <= k < links.len() && more(k) && #[trigger] links_at(links, k, p, q);
        if k != j {
            assert(keep(k));
            assert(rel(p, q));
            if reach(rel, a, p) {
                reach_step(rel, a, p, q);
            } else if reach(rel, a, x) && reach(rel, y, p) {
                reach_step(rel, y, p, q);
            } else {
                reach_step(rel, x, p, q);
            }
        } else {
            reach_refl(rel, x);
            reach_refl(rel, y);
        }
    }
    reach_preserves(wide, prop, a, b);
}

/// What is left of the edges when all that lead out of the set are dropped does
/// not lead out of it.
proof fn no_exit(links: Seq<(int, int)>, inside: Seq<int>, a: int, b: int)
    requires
        inside.contains(a),
        reach(kept_link(links, without_exits(links, inside, links.len() as int)), a, b),
    ensures
        inside.contains(b),
{
    let keep = without_exits(links, inside, links.len() as int);
    let rel = kept_link(links, keep);
    let prop = |z: int| inside.contains(z);
    assert forall|p: int, q: int| prop(p) && #[trigger] rel(p, q) implies prop(q) by {
        let k = choose|k: int|
            0 <= k < links.len() && keep(k) && #[trigger] links_at(links, k, p, q);
        assert(!leaves(inside, links[k]));
    }
    reach_preserves(rel, prop, a, b);
}

/// The first edge out of the set without which `a` and `b` fall apart.
proof fn last_exit(links: Seq<(int, int)>, inside: Seq<int>, a: int, b: int, j: int) -> (r: int)
    requires
        0 <= j <= links.len(),
        reach(kept_link(links, every_link()), a, b),
        !reach(kept_link(links, without_exits(links, inside, j)), a, b),
    ensures
        0 <= r < j,
        leaves(inside, links[r]),
        reach(kept_link(links, without_exits(links, inside, r)), a, b),
        !reach(kept_link(links, without_exits(links, inside, r + 1)), a, b),
    decreases j,
{
    if j == 0 {
        let keep = without_exits(links, inside, 0);
        assert forall|x: int, y: int| #[trigger]
            kept_link(links, every_link())(x, y) implies kept_link(links, keep)(x, y) by {
            let k = choose|k: int|
                0 <= k < links.len() && every_link()(k) && #[trigger] links_at(links, k, x, y);
            assert(keep(k));
        }
        reach_monotone(kept_link(links, every_link()), kept_link(links, keep), a, b);
        0
    } else if reach(kept_link(links, without_exits(links, inside, j - 1)), a, b) {
        if !leaves(inside, links[j - 1]) {
            let (wide, keep) = (
                without_exits(links, inside, j - 1),
                without_exits(links, inside, j),
            );
            assert forall|x: int, y: int| #[trigger]
                kept_link(links, wide)(x, y) implies kept_link(links, keep)(x, y) by {
                let k = choose|k: int|
                    0 <= k < links.len() && wide(k) && #[trigger] links_at(links, k, x, y);
                assert(keep(k));
            }
            reach_monotone(kept_link(links, wide), kept_link(links, keep), a, b);
        }
        j - 1
    } else {
        last_exit(links, inside, a, b, j - 1)
    }
}

/// The edges with `new` at `m` in place of edge `j`, which leaves; what was at
/// `m` takes its place.
pub open spec fn exchanged(links: Seq<(int, int)>, m: int, j: int, new: (int, int)) -> Seq<
    (int, int),
> {
    links.update(j, links[m]).update(m, new)
}

/// Exchanging a bridge keeps all vertices joined.
proof fn exchange_joins(
    links: Seq<(int, int)>,
    inside: Seq<int>,
    m: int,
    j: int,
    new: (int, int),
    n: int,
)
    requires
        joins_all(links, n),
        0 <= m <= j < links.len(),
        leaves(inside, links[j]),
        reach(kept_link(links, without_exits(links, inside, j)), new.0, new.1),
        !reach(kept_link(links, without_exits(links, inside, j + 1)), new.0, new.1),
    ensures
        joins_all(exchanged(links, m, j, new), n),
{
    let after = exchanged(links, m, j, new);
    let all = every_link();
    let rel = kept_link(after, all);
    let keep = without_exits(links, inside, j + 1);
    let thin = kept_link(links, keep);
    links_turn_round(after, all);
    links_turn_round(links, keep);
    assert forall|x: int, y: int| #[trigger] thin(x, y) implies rel(x, y) by {
        let k = choose|k: int|
            0 <= k < links.len() && keep(k) && #[trigger] links_at(links, k, x, y);
        assert(k != j);
        kept_edge(links, m, j, new, k, x, y);
    }
    bridge(links, keep, without_exits(links, inside, j), j, new.0, new.1);
    let (x, y) = links[j];
    assert(links_at(after, m, new.0, new.1));
    assert(rel(new.0, new.1));
    reach_edge(rel, new.0, new.1);
    assert(reach(rel, x, y)) by {
        if reach(thin, new.0, x) && reach(thin, y, new.1) {
            reach_monotone(thin, rel, new.0, x);
            reach_monotone(thin, rel, y, new.1);
            reach_symmetric(rel, new.0, x);
            reach_symmetric(rel, y, new.1);
            reach_trans(rel, x, new.0, new.1);
            reach_trans(rel, x, new.1, y);
        } else {
            reach_monotone(thin, rel, new.0, y);
            reach_monotone(thin, rel, x, new.1);
            reach_symmetric(rel, new.0, new.1);
            reach_trans(rel, x, new.1, new.0);
            reach_trans(rel, x, new.0, y);
        }
    }
    reach_symmetric(rel, x, y);
    assert forall|u: int, v: int| 0 <= u < n && 0 <= v < n implies #[trigger] reach(rel, u, v) by {
        let old_rel = kept_link(links, all);
        assert(reach(old_rel, u, v));
        let prop = |z: int| reach(rel, u, z);
        reach_refl(rel, u);
        assert forall|p: int, q: int| prop(p) && #[trigger] old_rel(p, q) implies prop(q) by {
            let k = choose|k: int|
                0 <= k < links.len() && all(k) && #[trigger] links_at(links, k, p, q);
            if k == j {
                reach_trans(rel, u, p, q);
            } else {
                kept_edge(links, m, j, new, k, p, q);
                reach_step(rel, u, p, q);
            }
        }
        reach_preserves(old_rel, prop, u, v);
    }
}

/// All edges but the one that leaves are still there after an exchange.
proof fn kept_edge(
    links: Seq<(int, int)>,
    m: int,
    j: int,
    new: (int, int),
    k: int,
    x: int,
    y: int,
)
    requires
        0 <= m <= j < links.len(),
        0 <= k < links.len(),
        k != j,
        links_at(links, k, x, y),
    ensures
        kept_link(exchanged(links, m, j, new), every_link())(x, y),
{
    let after = exchanged(links, m, j, new);
    if k == m {
        assert(links_at(after, j, x, y));
        assert(every_link()(j));
    } else {
        assert(links_at(after, k, x, y));
        assert(every_link()(k));
    }
}

/// The edge by which pin number `k` joins the tree.
pub open spec fn tree_link(pins: Seq<(int, int)>, k: int) -> (int, int) {
    let tree = tree_after(pins, k as nat);
    let v = next_to_join(pins, tree, pins.len() as int)->0;
    (joint(pins, tree, v), v)
}

/// What the edges measure, by a measure `g` of squared lengths.
pub open spec fn lengths(
    pins: Seq<(int, int)>,
    links: Seq<(int, int)>,
    g: spec_fn(int) -> int,
) -> spec_fn(int) -> int {
    |k: int| g(square_distance(pins[links[k].0], pins[links[k].1]))
}

/// Vertices of the edges are pins.
pub open spec fn links_pins(pins: Seq<(int, int)>, links: Seq<(int, int)>) -> bool {
    forall|k: int|
        0 <= k < links.len() ==> 0 <= (#[trigger] links[k]).0 < pins.len() && 0 <= links[k].1
            < pins.len()
}

/// The measure is never negative and longer edges measure no less.
pub open spec fn is_measure(g: spec_fn(int) -> int) -> bool {
    &&& forall|a: int, b: int| 0 <= a <= b ==> #[trigger] g(a) <= #[trigger] g(b)
    &&& g(0) >= 0
}

/// The first `m` edges are those of the tree.
pub open spec fn begins_with_tree(pins: Seq<(int, int)>, links: Seq<(int, int)>, m: int) -> bool {
    &&& m <= links.len()
    &&& forall|k: int| 0 <= k < m ==> #[trigger] links[k] == tree_link(pins, k)
}

/// Every tree edge joins pins that are in the tree once it is.
proof fn links_stay_inside(pins: Seq<(int, int)>, k: int, m: int)
    requires
        0 <= k < m < pins.len(),
    ensures
        tree_after(pins, m as nat).contains(tree_link(pins, k).0),
        tree_after(pins, m as nat).contains(tree_link(pins, k).1),
    decreases m - k,
{
    tree_grows(pins, k as nat);
    tree_grows(pins, (k + 1) as nat);
    tree_grows(pins, m as nat);
    if m == k + 1 {
        let tree = tree_after(pins, k as nat);
        next_is_nearest(pins, tree, pins.len() as int);
        let after = tree_after(pins, m as nat);
        let (u, v) = tree_link(pins, k);
        assert(after == tree.push(v));
        nearest_is_member(pins, tree, v, tree.len() as int);
        let i = choose|i: int| 0 <= i < tree.len() && tree[i] == u;
        assert(after[i] == u);
        assert(after[k + 1] == v);
    } else {
        links_stay_inside(pins, k, m - 1);
        tree_grows(pins, (m - 1) as nat);
        let before = tree_after(pins, (m - 1) as nat);
        let after = tree_after(pins, m as nat);
        let (u, v) = tree_link(pins, k);
        let i = choose|i: int| 0 <= i < before.len() && before[i] == u;
        let j = choose|j: int| 0 <= j < before.len() && before[j] == v;
        assert(after[i] == u && after[j] == v);
    }
}

/// One more edge of the tree can be taken over.
proof fn take_over(
    pins: Seq<(int, int)>,
    links: Seq<(int, int)>,
    g: spec_fn(int) -> int,
    m: int,
) -> (r: Seq<(int, int)>)
    requires
        0 <= m < pins.len() - 1,
        links_pins(pins, links),
        joins_all(links, pins.len() as int),
        begins_with_tree(pins, links, m),
        is_measure(g),
    ensures
        r.len() == links.len(),
        links_pins(pins, r),
        joins_all(r, pins.len() as int),
        begins_with_tree(pins, r, m + 1),
        sum(lengths(pins, r, g), r.len() as int) <= sum(
            lengths(pins, links, g),
            links.len() as int,
        ),
{
    let n = pins.len() as int;
    let tree = tree_after(pins, m as nat);
    tree_grows(pins, m as nat);
    tree_grows(pins, (m + 1) as nat);
    next_is_nearest(pins, tree, n);
    let new = tree_link(pins, m);
    let (a, b) = new;
    assert(next_to_join(pins, tree, n) == Some(b));
    nearest_is_member(pins, tree, b, tree.len() as int);
    assert(tree.contains(a) && !tree.contains(b));
    let ia = choose|i: int| 0 <= i < tree.len() && tree[i] == a;
    assert(0 <= a < n && 0 <= b < n);
    let whole = links.len() as int;
    assert(!reach(kept_link(links, without_exits(links, tree, whole)), a, b)) by {
        if reach(kept_link(links, without_exits(links, tree, whole)), a, b) {
            no_exit(links, tree, a, b);
        }
    }
    assert(reach(kept_link(links, every_link()), a, b));
    let j = last_exit(links, tree, a, b, whole);
    assert(m <= j) by {
        if j < m {
            assert(links[j] == tree_link(pins, j));
            links_stay_inside(pins, j, m);
        }
    }
    exchange_joins(links, tree, m, j, new, n);
    let r = exchanged(links, m, j, new);
    assert forall|k: int| 0 <= k < m + 1 implies #[trigger] r[k] == tree_link(pins, k) by {
        if k < m {
            assert(links[k] == tree_link(pins, k));
        }
    }
    assert forall|k: int| 0 <= k < r.len() implies 0 <= (#[trigger] r[k]).0 < n && 0 <= r[k].1
        < n by {
        assert(0 <= links[k].0 < n);
        assert(0 <= links[m].0 < n);
    }
    let (f, h) = (lengths(pins, links, g), lengths(pins, r, g));
    let (x, y) = links[j];
    let short = square_distance(pins[a], pins[b]);
    let long = square_distance(pins[x], pins[y]);
    assert(0 <= short <= long) by {
        squares_are_positive(pins[a], pins[b]);
        distance_turns_round(pins[x], pins[y]);
        let (u, w) = if tree.contains(x) {
            (x, y)
        } else {
            (y, x)
        };
        assert(0 <= links[j].0 < n);
        nearest_is_member(pins, tree, w, tree.len() as int);
        let iu = choose|i: int| 0 <= i < tree.len() && tree[i] == u;
        assert(square_distance(pins[joint(pins, tree, w)], pins[w]) <= square_distance(
            pins[tree[iu]],
            pins[w],
        ));
        assert(!tree.contains(w));
    }
    assert(g(short) <= g(long));
    if j == m {
        assert forall|k: int| 0 <= k < whole && k != m implies #[trigger] f(k) == h(k) by {
            assert(r[k] == links[k]);
        }
        sum_one(f, h, whole, m);
    } else {
        assert forall|k: int| 0 <= k < whole && k != m && k != j implies #[trigger] f(k)
            == h(k) by {
            assert(r[k] == links[k]);
        }
        sum_two(f, h, whole, m, j);
        assert(r[j] == links[m]);
    }
    r
}

proof fn squares_are_positive(a: (int, int), b: (int, int))
    ensures
        square_distance(a, b) >= 0,
{
    let (p, q) = (a.0 - b.0, a.1 - b.1);
    assert(p * p >= 0) by (nonlinear_arith);
    assert(q * q >= 0) by (nonlinear_arith);
}

proof fn distance_turns_round(a: (int, int), b: (int, int))
    ensures
        square_distance(a, b) == square_distance(b, a),
{
    let (p, q) = (a.0 - b.0, a.1 - b.1);
    let (r, s) = (b.0 - a.0, b.1 - a.1);
    assert(p * p == r * r) by (nonlinear_arith)
        requires
            p == -r,
    ;
    assert(q * q == s * s) by (nonlinear_arith)
        requires
            q == -s,
    ;
}

proof fn take_over_all(
    pins: Seq<(int, int)>,
    links: Seq<(int, int)>,
    g: spec_fn(int) -> int,
    m: int,
) -> (r: Seq<(int, int)>)
    requires
        0 <= m < pins.len(),
        links_pins(pins, links),
        joins_all(links, pins.len() as int),
        is_measure(g),
    ensures
        r.len() == links.len(),
        links_pins(pins, r),
        joins_all(r, pins.len() as int),
        begins_with_tree(pins, r, m),
        sum(lengths(pins, r, g), r.len() as int) <= sum(
            lengths(pins, links, g),
            links.len() as int,
        ),
    decreases m,
{
    if m == 0 {
        links
    } else {
        let before = take_over_all(pins, links, g, m - 1);
        take_over(pins, before, g, m - 1)
    }
}

proof fn edge_of_link(pins: Seq<(int, int)>, k: int, m: int)
    requires
        0 <= k < m < pins.len(),
    ensures
        edges_after(pins, m as nat)[k] == (
            pins[tree_link(pins, k).0],
            pins[tree_link(pins, k).1],
        ),
    decreases m,
{
    tree_grows(pins, (m - 1) as nat);
    tree_grows(pins, m as nat);
    next_is_nearest(pins, tree_after(pins, (m - 1) as nat), pins.len() as int);
    if k < m - 1 {
        edge_of_link(pins, k, m - 1);
    }
}

proof fn tail_is_positive(f: spec_fn(int) -> int, m: int, n: int)
    requires
        0 <= m <= n,
        forall|k: int| m <= k < n ==> 0 <= #[trigger] f(k),
    ensures
        sum(f, m) <= sum(f, n),
    decreases n - m,
{
    if m < n {
        tail_is_positive(f, m, n - 1);
        assert(0 <= f(n - 1));
    }
}

/// What the edges of the tree measure.
pub open spec fn tree_lengths(pins: Seq<(int, int)>, g: spec_fn(int) -> int) -> spec_fn(
    int,
) -> int {
    |k: int| g(square_distance(tree_edges(pins)[k].0, tree_edges(pins)[k].1))
}

/// The tree is a minimal one: by whatever measure that grows with the lengths
/// of edges, no other edges that join all pins measure less together.
pub proof fn trees_are_minimal(
    pins: Seq<(int, int)>,
    others: Seq<(int, int)>,
    g: spec_fn(int) -> int,
)
    requires
        pins.len() >= 2,
        links_pins(pins, others),
        joins_all(others, pins.len() as int),
        is_measure(g),
    ensures
        sum(tree_lengths(pins, g), tree_edges(pins).len() as int) <= sum(
            lengths(pins, others, g),
            others.len() as int,
        ),
{
    let m = pins.len() - 1;
    tree_grows(pins, m as nat);
    let r = take_over_all(pins, others, g, m);
    let (f, h) = (tree_lengths(pins, g), lengths(pins, r, g));
    assert forall|k: int| 0 <= k < m implies #[trigger] f(k) == h(k) by {
        edge_of_link(pins, k, m);
        assert(r[k] == tree_link(pins, k));
    }
    sum_eq(f, h, m);
    assert forall|k: int| m <= k < r.len() implies 0 <= #[trigger] h(k) by {
        let d = square_distance(pins[r[k].0], pins[r[k].1]);
        squares_are_positive(pins[r[k].0], pins[r[k].1]);
        assert(g(0) <= g(d));
    }
    tail_is_positive(h, m, r.len() as int);
}

} // verus!
