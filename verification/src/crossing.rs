//! Wire crossings, estimated from straight-line trees.
//!
//! The pins of each net are joined into a tree, nearest pin first, and the
//! crossings of tree edges of different nets are counted.

use vstd::prelude::*;

use crate::netlist::CheckedNetlist;
#[allow(unused_imports)]
use crate::placement::{spots_within, Spot, MAX_COORD};
#[allow(unused_imports)]
use crate::wires::{
    net_limit, net_pins, net_pins_fit, nets_of, pin_limit, points, points_on_sheet,
};

verus! {

// ---- Trees -----------------------------------------------------------------------

/// The square of the distance of two points.
pub open spec fn square_distance(a: (int, int), b: (int, int)) -> int {
    (a.0 - b.0) * (a.0 - b.0) + (a.1 - b.1) * (a.1 - b.1)
}

/// Of the first `n` pins that have joined the tree, the one nearest to pin
/// `v`; of equally near ones, the one that joined first.
pub open spec fn nearest_joined(pins: Seq<(int, int)>, tree: Seq<int>, v: int, n: int) -> int
    decreases n,
{
    if n <= 1 {
        tree[0]
    } else {
        let best = nearest_joined(pins, tree, v, n - 1);
        let u = tree[n - 1];
        if square_distance(pins[u], pins[v]) < square_distance(pins[best], pins[v]) {
            u
        } else {
            best
        }
    }
}

/// The pin of the tree that pin `v` would be joined to.
pub open spec fn joint(pins: Seq<(int, int)>, tree: Seq<int>, v: int) -> int {
    nearest_joined(pins, tree, v, tree.len() as int)
}

/// How far pin `v` is from the tree.
pub open spec fn tree_distance(pins: Seq<(int, int)>, tree: Seq<int>, v: int) -> int {
    square_distance(pins[joint(pins, tree, v)], pins[v])
}

/// Of the first `n` pins outside the tree, the one nearest to it; of equally
/// near ones, the first.
pub open spec fn next_to_join(pins: Seq<(int, int)>, tree: Seq<int>, n: int) -> Option<int>
    decreases n,
{
    if n <= 0 {
        None
    } else {
        let v = n - 1;
        let best = next_to_join(pins, tree, n - 1);
        if tree.contains(v) {
            best
        } else {
            match best {
                None => Some(v),
                Some(b) => if tree_distance(pins, tree, v) < tree_distance(pins, tree, b) {
                    Some(v)
                } else {
                    Some(b)
                },
            }
        }
    }
}

/// The pins in the order in which they join the tree, after `k` joins. The
/// first pin is the root.
pub open spec fn tree_after(pins: Seq<(int, int)>, k: nat) -> Seq<int>
    decreases k,
{
    if k == 0 {
        seq![0int]
    } else {
        let tree = tree_after(pins, (k - 1) as nat);
        match next_to_join(pins, tree, pins.len() as int) {
            Some(v) => tree.push(v),
            None => tree,
        }
    }
}

/// The edges of the tree after `k` joins, each from the joint to the pin that
/// joins.
pub open spec fn edges_after(pins: Seq<(int, int)>, k: nat) -> Seq<((int, int), (int, int))>
    decreases k,
{
    if k == 0 {
        seq![]
    } else {
        let tree = tree_after(pins, (k - 1) as nat);
        let rest = edges_after(pins, (k - 1) as nat);
        match next_to_join(pins, tree, pins.len() as int) {
            Some(v) => rest.push((pins[joint(pins, tree, v)], pins[v])),
            None => rest,
        }
    }
}

/// The edges that join all the pins.
pub open spec fn tree_edges(pins: Seq<(int, int)>) -> Seq<((int, int), (int, int))> {
    if pins.len() < 2 {
        seq![]
    } else {
        edges_after(pins, (pins.len() - 1) as nat)
    }
}

/// The nearest joined pin is in the tree, and none of the tree is nearer.
pub proof fn nearest_is_member(pins: Seq<(int, int)>, tree: Seq<int>, v: int, n: int)
    requires
        1 <= n <= tree.len(),
    ensures
        tree.contains(nearest_joined(pins, tree, v, n)),
        forall|k: int|
            0 <= k < n ==> square_distance(pins[nearest_joined(pins, tree, v, n)], pins[v])
                <= square_distance(pins[#[trigger] tree[k]], pins[v]),
    decreases n,
{
    if n > 1 {
        nearest_is_member(pins, tree, v, n - 1);
        assert(tree.contains(tree[n - 1]));
    } else {
        assert(tree.contains(tree[0]));
    }
}

proof fn nearest_prefix(pins: Seq<(int, int)>, tree: Seq<int>, u: int, v: int, n: int)
    requires
        1 <= n <= tree.len(),
    ensures
        nearest_joined(pins, tree.push(u), v, n) == nearest_joined(pins, tree, v, n),
    decreases n,
{
    if n > 1 {
        nearest_prefix(pins, tree, u, v, n - 1);
        assert(tree.push(u)[n - 1] == tree[n - 1]);
    } else {
        assert(tree.push(u)[0] == tree[0]);
    }
}

/// What joining one more pin does to the joints of the others.
proof fn joint_grows(pins: Seq<(int, int)>, tree: Seq<int>, u: int, v: int)
    requires
        tree.len() >= 1,
    ensures
        joint(pins, tree.push(u), v) == (if square_distance(pins[u], pins[v]) < tree_distance(
            pins,
            tree,
            v,
        ) {
            u
        } else {
            joint(pins, tree, v)
        }),
{
    nearest_prefix(pins, tree, u, v, tree.len() as int);
    assert(tree.push(u)[tree.len() as int] == u);
}

/// The next pin to join is outside the tree, and none outside is nearer to it.
pub proof fn next_is_nearest(pins: Seq<(int, int)>, tree: Seq<int>, n: int)
    ensures
        match next_to_join(pins, tree, n) {
            Some(v) => {
                &&& 0 <= v < n
                &&& !tree.contains(v)
                &&& forall|w: int|
                    0 <= w < n && !(#[trigger] tree.contains(w)) ==> tree_distance(pins, tree, v)
                        <= tree_distance(pins, tree, w)
            },
            None => forall|w: int| 0 <= w < n ==> #[trigger] tree.contains(w),
        },
    decreases n,
{
    if n > 0 {
        next_is_nearest(pins, tree, n - 1);
    }
}

/// A tree list holds pins, each once.
pub open spec fn is_tree(pins: Seq<(int, int)>, tree: Seq<int>) -> bool {
    &&& tree.len() >= 1
    &&& tree.no_duplicates()
    &&& forall|k: int| 0 <= k < tree.len() ==> 0 <= #[trigger] tree[k] < pins.len()
}

/// Distinct numbers below `n` are at most `n`.
proof fn distinct_are_few(tree: Seq<int>, n: int)
    requires
        tree.no_duplicates(),
        0 <= n,
        forall|k: int| 0 <= k < tree.len() ==> 0 <= #[trigger] tree[k] < n,
    ensures
        tree.len() <= n,
        tree.len() == n ==> forall|w: int| 0 <= w < n ==> #[trigger] tree.contains(w),
    decreases n,
{
    if n == 0 {
        if tree.len() > 0 {
            assert(tree[0] < 0);
        }
    } else if tree.contains(n - 1) {
        let k = choose|k: int| 0 <= k < tree.len() && tree[k] == n - 1;
        let rest = tree.remove(k);
        assert forall|j: int| 0 <= j < rest.len() implies 0 <= #[trigger] rest[j] < n - 1 by {
            if j < k {
                assert(rest[j] == tree[j]);
                assert(tree[j] != tree[k]);
            } else {
                assert(rest[j] == tree[j + 1]);
                assert(tree[j + 1] != tree[k]);
            }
        }
        assert(rest.no_duplicates());
        distinct_are_few(rest, n - 1);
        if tree.len() == n {
            assert forall|w: int| 0 <= w < n implies #[trigger] tree.contains(w) by {
                if w < n - 1 {
                    assert(rest.contains(w));
                    let j = choose|j: int| 0 <= j < rest.len() && rest[j] == w;
                    if j < k {
                        assert(tree[j] == w);
                    } else {
                        assert(tree[j + 1] == w);
                    }
                }
            }
        }
    } else {
        assert forall|j: int| 0 <= j < tree.len() implies 0 <= #[trigger] tree[j] < n - 1 by {
            assert(tree.contains(tree[j]));
        }
        distinct_are_few(tree, n - 1);
    }
}

/// Every join adds one pin and one edge.
pub proof fn tree_grows(pins: Seq<(int, int)>, k: nat)
    requires
        k < pins.len(),
    ensures
        is_tree(pins, tree_after(pins, k)),
        tree_after(pins, k).len() == k + 1,
        edges_after(pins, k).len() == k,
    decreases k,
{
    if k > 0 {
        tree_grows(pins, (k - 1) as nat);
        let tree = tree_after(pins, (k - 1) as nat);
        next_is_nearest(pins, tree, pins.len() as int);
        if next_to_join(pins, tree, pins.len() as int) is None {
            // All pins would be in the tree already.
            pigeons(tree, pins.len() as int);
        } else {
            let v = next_to_join(pins, tree, pins.len() as int)->0;
            assert forall|i: int, j: int|
                0 <= i < tree.push(v).len() && 0 <= j < tree.push(v).len() && i
                    != j implies tree.push(v)[i] != tree.push(v)[j] by {
                if i < tree.len() {
                    assert(tree.contains(tree[i]));
                }
                if j < tree.len() {
                    assert(tree.contains(tree[j]));
                }
            }
        }
    }
}

/// A list that holds all numbers below `n` is at least that long.
proof fn pigeons(tree: Seq<int>, n: int)
    requires
        0 <= n,
        forall|w: int| 0 <= w < n ==> #[trigger] tree.contains(w),
    ensures
        tree.len() >= n,
    decreases n,
{
    if n > 0 {
        assert(tree.contains(n - 1));
        let k = choose|k: int| 0 <= k < tree.len() && tree[k] == n - 1;
        let rest = tree.remove(k);
        assert forall|w: int| 0 <= w < n - 1 implies #[trigger] rest.contains(w) by {
            assert(tree.contains(w));
            let j = choose|j: int| 0 <= j < tree.len() && tree[j] == w;
            if j < k {
                assert(rest[j] == w);
            } else {
                assert(rest[j - 1] == w);
            }
        }
        pigeons(rest, n - 1);
    }
}

/// The tree joins all pins with one edge fewer than there are pins, and every
/// pin that joins is as near to the tree as any that is left.
pub proof fn trees_span(pins: Seq<(int, int)>, k: nat)
    requires
        1 <= k < pins.len(),
    ensures
        tree_edges(pins).len() == pins.len() - 1,
        forall|w: int|
            0 <= w < pins.len() ==> #[trigger] tree_after(
                pins,
                (pins.len() - 1) as nat,
            ).contains(w),
        ({
            let tree = tree_after(pins, (k - 1) as nat);
            let v = tree_after(pins, k)[k as int];
            &&& !tree.contains(v)
            &&& edges_after(pins, k)[k - 1] == (pins[joint(pins, tree, v)], pins[v])
            &&& forall|u: int, w: int|
                0 <= u < tree.len() && 0 <= w < pins.len() && !(#[trigger] tree.contains(w))
                    ==> square_distance(pins[joint(pins, tree, v)], pins[v]) <= square_distance(
                    pins[#[trigger] tree[u]],
                    pins[w],
                )
        }),
{
    tree_grows(pins, (pins.len() - 1) as nat);
    tree_grows(pins, (k - 1) as nat);
    tree_grows(pins, k);
    distinct_are_few(tree_after(pins, (pins.len() - 1) as nat), pins.len() as int);
    let tree = tree_after(pins, (k - 1) as nat);
    next_is_nearest(pins, tree, pins.len() as int);
    let v = tree_after(pins, k)[k as int];
    assert forall|u: int, w: int|
        0 <= u < tree.len() && 0 <= w < pins.len() && !(#[trigger] tree.contains(w))
            implies square_distance(pins[joint(pins, tree, v)], pins[v]) <= square_distance(
        pins[#[trigger] tree[u]],
        pins[w],
    ) by {
        nearest_is_member(pins, tree, w, tree.len() as int);
        assert(tree_distance(pins, tree, v) <= tree_distance(pins, tree, w));
    }
}

/// A tree edge.
#[derive(Debug, Clone, Copy, PartialEq, Eq, Structural)]
pub struct Segment {
    pub ax: i64,
    pub ay: i64,
    pub bx: i64,
    pub by: i64,
}

impl View for Segment {
    type V = ((int, int), (int, int));

    open spec fn view(&self) -> ((int, int), (int, int)) {
        ((self.ax as int, self.ay as int), (self.bx as int, self.by as int))
    }
}

/// The edges of an executable list.
pub open spec fn segments(list: Seq<Segment>) -> Seq<((int, int), (int, int))> {
    Seq::new(list.len(), |k: int| list[k]@)
}

proof fn limits_are_small()
    ensures
        0 <= pin_limit() <= 1_600_000_000_000,
        pin_limit() * pin_limit() <= 2_560_000_000_000_000_000_000_000,
        0 <= net_limit() <= 6_553_600_000,
        net_limit() * net_limit() <= 42_949_672_960_000_000_000,
{
    assert(net_limit() == 6_553_600_000);
    let m = pin_limit();
    assert(m * m <= 1_600_000_000_000 * 1_600_000_000_000) by (nonlinear_arith)
        requires
            0 <= m <= 1_600_000_000_000,
    ;
    let n = net_limit();
    assert(n * n <= 6_553_600_000 * 6_553_600_000) by (nonlinear_arith)
        requires
            0 <= n <= 6_553_600_000,
    ;
}

/// Largest square of a distance on the sheet.
spec fn square_limit() -> int {
    8 * (pin_limit() * pin_limit())
}

proof fn square_distance_fits(a: (int, int), b: (int, int))
    requires
        -pin_limit() <= a.0 <= pin_limit(),
        -pin_limit() <= a.1 <= pin_limit(),
        -pin_limit() <= b.0 <= pin_limit(),
        -pin_limit() <= b.1 <= pin_limit(),
    ensures
        0 <= square_distance(a, b) <= square_limit(),
        0 <= (a.0 - b.0) * (a.0 - b.0) <= 4 * (pin_limit() * pin_limit()),
        0 <= (a.1 - b.1) * (a.1 - b.1) <= 4 * (pin_limit() * pin_limit()),
{
    let m = pin_limit();
    let (dx, dy) = (a.0 - b.0, a.1 - b.1);
    assert(0 <= dx * dx <= 4 * (m * m)) by (nonlinear_arith)
        requires
            -2 * m <= dx <= 2 * m,
            m >= 0,
    ;
    assert(0 <= dy * dy <= 4 * (m * m)) by (nonlinear_arith)
        requires
            -2 * m <= dy <= 2 * m,
            m >= 0,
    ;
}

fn dist(a: (i64, i64), b: (i64, i64)) -> (r: i128)
    requires
        -pin_limit() <= a.0 <= pin_limit(),
        -pin_limit() <= a.1 <= pin_limit(),
        -pin_limit() <= b.0 <= pin_limit(),
        -pin_limit() <= b.1 <= pin_limit(),
    ensures
        r == square_distance((a.0 as int, a.1 as int), (b.0 as int, b.1 as int)),
{
    proof {
        square_distance_fits((a.0 as int, a.1 as int), (b.0 as int, b.1 as int));
        limits_are_small();
    }
    let dx: i128 = a.0 as i128 - b.0 as i128;
    let dy: i128 = a.1 as i128 - b.1 as i128;
    dx * dx + dy * dy
}

/// The edges that join the pins of a net.
pub fn net_mst_edges(pins: &Vec<(i64, i64)>) -> (r: Vec<Segment>)
    requires
        points_on_sheet(points(pins@)),
    ensures
        segments(r@) == tree_edges(points(pins@)),
{
    let ghost p = points(pins@);
    let n: usize = pins.len();
    let mut edges: Vec<Segment> = Vec::new();
    if n < 2 {
        assert(segments(edges@) =~= seq![]);
        return edges;
    }
    let mut joined: Vec<bool> = Vec::new();
    let mut near: Vec<i128> = Vec::new();
    let mut parent: Vec<usize> = Vec::new();
    let ghost root: Seq<int> = seq![0int];
    let mut v: usize = 0;
    while v < n
        invariant
            v <= n,
            n == pins@.len(),
            n >= 2,
            p == points(pins@),
            points_on_sheet(p),
            root == seq![0int],
            joined@.len() == v,
            near@.len() == v,
            parent@.len() == v,
            forall|w: int| 0 <= w < v ==> #[trigger] joined@[w] == root.contains(w),
            forall|w: int| 0 <= w < v ==> #[trigger] near@[w] == tree_distance(p, root, w),
            forall|w: int| 0 <= w < v ==> #[trigger] parent@[w] == joint(p, root, w),
        decreases n - v,
    {
        proof {
            assert(p[0] == (pins@[0].0 as int, pins@[0].1 as int));
            assert(p[v as int] == (pins@[v as int].0 as int, pins@[v as int].1 as int));
            assert(root[0] == 0);
            if root.contains(v as int) {
                let k = choose|k: int| 0 <= k < root.len() && root[k] == v;
            }
        }
        let d: i128 = dist(pins[0], pins[v]);
        joined.push(v == 0);
        near.push(d);
        parent.push(0);
        v = v + 1;
    }
    let mut k: usize = 1;
    while k < n
        invariant
            1 <= k <= n,
            n == pins@.len(),
            p == points(pins@),
            points_on_sheet(p),
            joined@.len() == n,
            near@.len() == n,
            parent@.len() == n,
            ({
                let tree = tree_after(p, (k - 1) as nat);
                &&& forall|w: int| 0 <= w < n ==> #[trigger] joined@[w] == tree.contains(w)
                &&& forall|w: int| 0 <= w < n ==> #[trigger] near@[w] == tree_distance(p, tree, w)
                &&& forall|w: int| 0 <= w < n ==> #[trigger] parent@[w] == joint(p, tree, w)
            }),
            segments(edges@) == edges_after(p, (k - 1) as nat),
        decreases n - k,
    {
        let ghost tree = tree_after(p, (k - 1) as nat);
        proof {
            tree_grows(p, (k - 1) as nat);
            tree_grows(p, k as nat);
        }
        let mut next: Option<usize> = None;
        let mut v: usize = 0;
        while v < n
            invariant
                v <= n,
                n == joined@.len(),
                n == near@.len(),
                forall|w: int| 0 <= w < n ==> #[trigger] joined@[w] == tree.contains(w),
                forall|w: int| 0 <= w < n ==> #[trigger] near@[w] == tree_distance(p, tree, w),
                match next {
                    Some(b) => b < v && next_to_join(p, tree, v as int) == Some(b as int),
                    None => next_to_join(p, tree, v as int) is None,
                },
            decreases n - v,
        {
            assert(joined@[v as int] == tree.contains(v as int));
            assert(near@[v as int] == tree_distance(p, tree, v as int));
            if !joined[v] {
                next = match next {
                    None => Some(v),
                    Some(b) => {
                        assert(near@[b as int] == tree_distance(p, tree, b as int));
                        if near[v] < near[b] {
                            Some(v)
                        } else {
                            Some(b)
                        }
                    },
                };
            }
            v = v + 1;
        }
        let u: usize = match next {
            Some(u) => u,
            None => {
                assert(tree_after(p, k as nat) == tree);
                assert(false);
                0
            },
        };
        let ghost grown = tree.push(u as int);
        assert(tree_after(p, k as nat) == grown);
        let from: usize = parent[u];
        proof {
            assert(parent@[u as int] == joint(p, tree, u as int));
            nearest_is_member(p, tree, u as int, tree.len() as int);
            let j = choose|j: int|
                0 <= j < tree.len() && tree[j] == joint(p, tree, u as int);
            assert(0 <= tree[j] < p.len());
            assert(p[u as int] == (pins@[u as int].0 as int, pins@[u as int].1 as int));
            assert(p[from as int] == (pins@[from as int].0 as int, pins@[from as int].1 as int));
        }
        let ghost was = edges@;
        edges.push(
            Segment { ax: pins[from].0, ay: pins[from].1, bx: pins[u].0, by: pins[u].1 },
        );
        proof {
            assert(segments(edges@) =~= segments(was).push((p[from as int], p[u as int])));
        }
        joined.set(u, true);
        proof {
            assert forall|w: int| 0 <= w < n implies #[trigger] joined@[w] == grown.contains(w) by {
                if w == u {
                    assert(grown[tree.len() as int] == w);
                } else {
                    if tree.contains(w) {
                        let j = choose|j: int| 0 <= j < tree.len() && tree[j] == w;
                        assert(grown[j] == w);
                    }
                    if grown.contains(w) {
                        let j = choose|j: int| 0 <= j < grown.len() && grown[j] == w;
                        assert(tree[j] == w);
                    }
                }
            }
        }
        let mut v: usize = 0;
        while v < n
            invariant
                v <= n,
                n == pins@.len(),
                u < n,
                p == points(pins@),
                points_on_sheet(p),
                tree.len() >= 1,
                grown == tree.push(u as int),
                near@.len() == n,
                parent@.len() == n,
                forall|w: int|
                    0 <= w < v ==> #[trigger] near@[w] == tree_distance(p, grown, w),
                forall|w: int| 0 <= w < v ==> #[trigger] parent@[w] == joint(p, grown, w),
                forall|w: int|
                    v <= w < n ==> #[trigger] near@[w] == tree_distance(p, tree, w),
                forall|w: int| v <= w < n ==> #[trigger] parent@[w] == joint(p, tree, w),
            decreases n - v,
        {
            proof {
                joint_grows(p, tree, u as int, v as int);
                assert(p[u as int] == (pins@[u as int].0 as int, pins@[u as int].1 as int));
                assert(p[v as int] == (pins@[v as int].0 as int, pins@[v as int].1 as int));
                assert(near@[v as int] == tree_distance(p, tree, v as int));
                assert(parent@[v as int] == joint(p, tree, v as int));
            }
            let d: i128 = dist(pins[u], pins[v]);
            if d < near[v] {
                near.set(v, d);
                parent.set(v, u);
            }
            v = v + 1;
        }
        k = k + 1;
    }
    edges
}

// ---- Crossings --------------------------------------------------------------------

/// Twice the signed area of a triangle.
pub open spec fn turn(a: (int, int), b: (int, int), c: (int, int)) -> int {
    (b.0 - a.0) * (c.1 - a.1) - (b.1 - a.1) * (c.0 - a.0)
}

/// The points lie on different sides of the line through the edge.
pub open spec fn apart(s: ((int, int), (int, int)), p: (int, int), q: (int, int)) -> bool {
    (turn(s.0, s.1, p) > 0 && turn(s.0, s.1, q) < 0) || (turn(s.0, s.1, p) < 0 && turn(s.0, s.1, q)
        > 0)
}

/// The interiors of two edges cross. Edges that touch or run along each other
/// do not.
pub open spec fn edges_cross(s: ((int, int), (int, int)), t: ((int, int), (int, int))) -> bool {
    apart(t, s.0, s.1) && apart(s, t.0, t.1)
}

/// Crossing is mutual.
pub proof fn crossing_is_mutual(s: ((int, int), (int, int)), t: ((int, int), (int, int)))
    ensures
        edges_cross(s, t) == edges_cross(t, s),
{
}

/// The first `n` edges of a list that cross an edge.
pub open spec fn crossed_edges(
    s: ((int, int), (int, int)),
    list: Seq<((int, int), (int, int))>,
    n: int,
) -> int
    decreases n,
{
    if n <= 0 {
        0
    } else {
        crossed_edges(s, list, n - 1) + (if edges_cross(s, list[n - 1]) {
            1int
        } else {
            0
        })
    }
}

/// The crossings of the first `n` edges of one list with the edges of another.
pub open spec fn crossed_lists(
    a: Seq<((int, int), (int, int))>,
    b: Seq<((int, int), (int, int))>,
    n: int,
) -> int
    decreases n,
{
    if n <= 0 {
        0
    } else {
        crossed_lists(a, b, n - 1) + crossed_edges(a[n - 1], b, b.len() as int)
    }
}

/// The crossings of the edges of the first `n` nets with those of net `j`.
pub open spec fn crossed_nets(spots: Seq<Spot>, checked: &CheckedNetlist, j: int, n: int) -> int
    decreases n,
{
    if n <= 0 {
        0
    } else {
        let a = tree_edges(net_pins(spots, checked, n - 1));
        crossed_nets(spots, checked, j, n - 1) + crossed_lists(
            a,
            tree_edges(net_pins(spots, checked, j)),
            a.len() as int,
        )
    }
}

/// The crossings between edges of different nets among the first `n` nets.
pub open spec fn wire_crossings(spots: Seq<Spot>, checked: &CheckedNetlist, n: int) -> int
    decreases n,
{
    if n <= 0 {
        0
    } else {
        wire_crossings(spots, checked, n - 1) + crossed_nets(spots, checked, n - 1, n - 1)
    }
}

/// The edge is on the sheet.
spec fn segment_fits(s: Segment) -> bool {
    let m = pin_limit();
    &&& -m <= s.ax <= m
    &&& -m <= s.ay <= m
    &&& -m <= s.bx <= m
    &&& -m <= s.by <= m
}

fn orient(ax: i64, ay: i64, bx: i64, by: i64, cx: i64, cy: i64) -> (r: i128)
    requires
        -pin_limit() <= ax <= pin_limit(),
        -pin_limit() <= ay <= pin_limit(),
        -pin_limit() <= bx <= pin_limit(),
        -pin_limit() <= by <= pin_limit(),
        -pin_limit() <= cx <= pin_limit(),
        -pin_limit() <= cy <= pin_limit(),
    ensures
        r == turn((ax as int, ay as int), (bx as int, by as int), (cx as int, cy as int)),
{
    let (p, q): (i128, i128) = (bx as i128 - ax as i128, cy as i128 - ay as i128);
    let (s, t): (i128, i128) = (by as i128 - ay as i128, cx as i128 - ax as i128);
    proof {
        limits_are_small();
        let m = 2 * pin_limit();
        assert(m * m == 4 * (pin_limit() * pin_limit())) by (nonlinear_arith)
            requires
                m == 2 * pin_limit(),
        ;
        assert(-(m * m) <= p * q <= m * m) by (nonlinear_arith)
            requires
                -m <= p <= m,
                -m <= q <= m,
        ;
        assert(-(m * m) <= s * t <= m * m) by (nonlinear_arith)
            requires
                -m <= s <= m,
                -m <= t <= m,
        ;
    }
    p * q - s * t
}

fn segments_cross(s: &Segment, t: &Segment) -> (r: bool)
    requires
        segment_fits(*s),
        segment_fits(*t),
    ensures
        r == edges_cross(s@, t@),
{
    let d1: i128 = orient(t.ax, t.ay, t.bx, t.by, s.ax, s.ay);
    let d2: i128 = orient(t.ax, t.ay, t.bx, t.by, s.bx, s.by);
    let d3: i128 = orient(s.ax, s.ay, s.bx, s.by, t.ax, t.ay);
    let d4: i128 = orient(s.ax, s.ay, s.bx, s.by, t.bx, t.by);
    ((d1 > 0 && d2 < 0) || (d1 < 0 && d2 > 0)) && ((d3 > 0 && d4 < 0) || (d3 < 0 && d4 > 0))
}

proof fn edges_fit(pins: Seq<(int, int)>, k: nat)
    requires
        k < pins.len(),
        points_on_sheet(pins),
    ensures
        forall|e: int|
            0 <= e < edges_after(pins, k).len() ==> {
                let s = #[trigger] edges_after(pins, k)[e];
                let m = pin_limit();
                &&& -m <= s.0.0 <= m
                &&& -m <= s.0.1 <= m
                &&& -m <= s.1.0 <= m
                &&& -m <= s.1.1 <= m
            },
    decreases k,
{
    if k > 0 {
        edges_fit(pins, (k - 1) as nat);
        tree_grows(pins, (k - 1) as nat);
        let tree = tree_after(pins, (k - 1) as nat);
        next_is_nearest(pins, tree, pins.len() as int);
        match next_to_join(pins, tree, pins.len() as int) {
            Some(v) => {
                nearest_is_member(pins, tree, v, tree.len() as int);
                let j = choose|j: int| 0 <= j < tree.len() && tree[j] == joint(pins, tree, v);
                assert(0 <= tree[j] < pins.len());
                assert(-pin_limit() <= pins[v].0 <= pin_limit());
                assert(-pin_limit() <= pins[tree[j]].0 <= pin_limit());
            },
            None => {},
        }
    }
}

/// The lists hold the tree edges of the nets.
spec fn trees_of(
    trees: Seq<Vec<Segment>>,
    spots: Seq<Spot>,
    checked: &CheckedNetlist,
) -> bool {
    &&& trees.len() == checked.nets@.len()
    &&& forall|net: int|
        0 <= net < trees.len() ==> {
            &&& segments((#[trigger] trees[net])@) == tree_edges(net_pins(spots, checked, net))
            &&& trees[net]@.len() <= net_limit()
            &&& forall|e: int|
                0 <= e < trees[net]@.len() ==> segment_fits(#[trigger] trees[net]@[e])
        }
}

/// The crossings of two lists of edges.
fn count_crossed(a: &Vec<Segment>, b: &Vec<Segment>) -> (r: u128)
    requires
        a@.len() <= net_limit(),
        b@.len() <= net_limit(),
        forall|e: int| 0 <= e < a@.len() ==> segment_fits(#[trigger] a@[e]),
        forall|e: int| 0 <= e < b@.len() ==> segment_fits(#[trigger] b@[e]),
    ensures
        r == crossed_lists(segments(a@), segments(b@), a@.len() as int),
        r <= net_limit() * net_limit(),
{
    let mut total: u128 = 0;
    let mut i: usize = 0;
    while i < a.len()
        invariant
            i <= a@.len(),
            a@.len() <= net_limit(),
            b@.len() <= net_limit(),
            forall|e: int| 0 <= e < a@.len() ==> segment_fits(#[trigger] a@[e]),
            forall|e: int| 0 <= e < b@.len() ==> segment_fits(#[trigger] b@[e]),
            total == crossed_lists(segments(a@), segments(b@), i as int),
            total <= i * net_limit(),
        decreases a@.len() - i,
    {
        let ghost s = segments(a@)[i as int];
        let mut part: u128 = 0;
        let mut k: usize = 0;
        while k < b.len()
            invariant
                k <= b@.len(),
                i < a@.len(),
                segment_fits(a@[i as int]),
                s == a@[i as int]@,
                forall|e: int| 0 <= e < b@.len() ==> segment_fits(#[trigger] b@[e]),
                part == crossed_edges(s, segments(b@), k as int),
                part <= k,
            decreases b@.len() - k,
        {
            assert(segments(b@)[k as int] == b@[k as int]@);
            if segments_cross(&a[i], &b[k]) {
                part = part + 1;
            }
            k = k + 1;
        }
        proof {
            assert((i + 1) * net_limit() == i * net_limit() + net_limit()) by (nonlinear_arith);
            assert((i + 1) * net_limit() <= net_limit() * net_limit()) by (nonlinear_arith)
                requires
                    i + 1 <= net_limit(),
                    net_limit() >= 0,
            ;
        }
        total = total + part;
        i = i + 1;
    }
    proof {
        assert(i * net_limit() <= net_limit() * net_limit()) by (nonlinear_arith)
            requires
                i <= net_limit(),
                net_limit() >= 0,
        ;
    }
    total
}

/// The estimated number of wire crossings.
pub(crate) fn crossings(
    nets: &Vec<Vec<(i64, i64)>>,
    checked: &CheckedNetlist,
    Ghost(spots): Ghost<Seq<Spot>>,
) -> (r: u128)
    requires
        checked.drawable(),
        spots.len() == checked.elements@.len(),
        spots_within(spots, MAX_COORD as int),
        nets_of(nets@, spots, checked),
    ensures
        r == wire_crossings(spots, checked, checked.nets@.len() as int),
{
    let mut trees: Vec<Vec<Segment>> = Vec::new();
    let mut net: usize = 0;
    while net < nets.len()
        invariant
            net <= nets@.len(),
            checked.drawable(),
            spots.len() == checked.elements@.len(),
            spots_within(spots, MAX_COORD as int),
            nets_of(nets@, spots, checked),
            trees@.len() == net,
            forall|k: int|
                0 <= k < net ==> {
                    &&& segments((#[trigger] trees@[k])@) == tree_edges(net_pins(spots, checked, k))
                    &&& trees@[k]@.len() <= net_limit()
                    &&& forall|e: int|
                        0 <= e < trees@[k]@.len() ==> segment_fits(#[trigger] trees@[k]@[e])
                },
        decreases nets@.len() - net,
    {
        let ghost pins = net_pins(spots, checked, net as int);
        proof {
            net_pins_fit(spots, checked, net as int);
            assert(points(nets@[net as int]@) == pins);
        }
        let edges = net_mst_edges(&nets[net]);
        proof {
            if pins.len() >= 2 {
                tree_grows(pins, (pins.len() - 1) as nat);
                edges_fit(pins, (pins.len() - 1) as nat);
            }
            assert(segments(edges@).len() == edges@.len());
            assert forall|e: int| 0 <= e < edges@.len() implies segment_fits(
                #[trigger] edges@[e],
            ) by {
                assert(segments(edges@)[e] == edges@[e]@);
                assert(tree_edges(pins)[e] == edges@[e]@);
            }
        }
        trees.push(edges);
        net = net + 1;
    }
    let mut total: u128 = 0;
    let mut j: usize = 0;
    while j < trees.len()
        invariant
            j <= trees@.len(),
            checked.drawable(),
            trees_of(trees@, spots, checked),
            total == wire_crossings(spots, checked, j as int),
            total <= j * (0x8000_0000 * (net_limit() * net_limit())),
        decreases trees@.len() - j,
    {
        assert(segments(trees@[j as int]@) == tree_edges(net_pins(spots, checked, j as int)));
        let mut part: u128 = 0;
        let mut i: usize = 0;
        while i < j
            invariant
                i <= j,
                j < trees@.len(),
                checked.drawable(),
                trees_of(trees@, spots, checked),
                part == crossed_nets(spots, checked, j as int, i as int),
                part <= i * (net_limit() * net_limit()),
            decreases j - i,
        {
            proof {
                assert(segments(trees@[i as int]@) == tree_edges(
                    net_pins(spots, checked, i as int),
                ));
                assert(segments(trees@[j as int]@) == tree_edges(
                    net_pins(spots, checked, j as int),
                ));
                assert(segments(trees@[i as int]@).len() == trees@[i as int]@.len());
                limits_are_small();
                let w = net_limit() * net_limit();
                assert((i + 1) * w == i * w + w) by (nonlinear_arith);
                assert((i + 1) * w <= 0x8000_0000 * w) by (nonlinear_arith)
                    requires
                        i + 1 <= 0x8000_0000,
                        w >= 0,
                ;
            }
            part = part + count_crossed(&trees[i], &trees[j]);
            i = i + 1;
        }
        proof {
            limits_are_small();
            let w = net_limit() * net_limit();
            assert(i * w <= 0x8000_0000 * w) by (nonlinear_arith)
                requires
                    i <= 0x8000_0000,
                    w >= 0,
            ;
            let z = 0x8000_0000 * w;
            assert((j + 1) * z == j * z + z) by (nonlinear_arith);
            assert((j + 1) * z <= 0x8000_0000 * z) by (nonlinear_arith)
                requires
                    j + 1 <= 0x8000_0000,
                    z >= 0,
            ;
        }
        total = total + part;
        j = j + 1;
    }
    total
}

/// A horizontal and a vertical edge cross exactly if the vertical one stands
/// strictly between the ends of the horizontal one and runs from strictly above
/// it to strictly below it.
pub proof fn straight_edges_cross_inside(x0: int, x1: int, y: int, x: int, y0: int, y1: int)
    requires
        x0 < x1,
        y0 < y1,
    ensures
        edges_cross(((x0, y), (x1, y)), ((x, y0), (x, y1))) <==> x0 < x < x1 && y0 < y < y1,
{
    let (s, t) = (((x0, y), (x1, y)), ((x, y0), (x, y1)));
    let (a, b) = (x1 - x0, y1 - y0);
    assert(turn(s.0, s.1, t.0) == a * (y0 - y)) by (nonlinear_arith)
        requires
            turn(s.0, s.1, t.0) == (x1 - x0) * (y0 - y) - (y - y) * (x - x0),
            a == x1 - x0,
    ;
    assert(turn(s.0, s.1, t.1) == a * (y1 - y)) by (nonlinear_arith)
        requires
            turn(s.0, s.1, t.1) == (x1 - x0) * (y1 - y) - (y - y) * (x - x0),
            a == x1 - x0,
    ;
    assert(turn(t.0, t.1, s.0) == b * (x - x0)) by (nonlinear_arith)
        requires
            turn(t.0, t.1, s.0) == (x - x) * (y - y0) - (y1 - y0) * (x0 - x),
            b == y1 - y0,
    ;
    assert(turn(t.0, t.1, s.1) == b * (x - x1)) by (nonlinear_arith)
        requires
            turn(t.0, t.1, s.1) == (x - x) * (y - y0) - (y1 - y0) * (x1 - x),
            b == y1 - y0,
    ;
    positive_scale(a, y0 - y);
    positive_scale(a, y1 - y);
    positive_scale(b, x - x0);
    positive_scale(b, x - x1);
}

proof fn positive_scale(a: int, x: int)
    requires
        a > 0,
    ensures
        a * x > 0 <==> x > 0,
        a * x < 0 <==> x < 0,
{
    assert((a * x > 0) == (x > 0)) by (nonlinear_arith)
        requires
            a > 0,
    ;
    assert((a * x < 0) == (x < 0)) by (nonlinear_arith)
        requires
            a > 0,
    ;
}

/// Edges that meet at an end do not cross, nor does an edge cross itself.
pub proof fn meeting_edges_do_not_cross(p: (int, int), q: (int, int), r: (int, int))
    ensures
        !edges_cross((p, q), (p, r)),
        !edges_cross((p, q), (r, p)),
        !edges_cross((p, q), (p, q)),
{
    assert(turn(p, q, p) == 0) by (nonlinear_arith)
        requires
            turn(p, q, p) == (q.0 - p.0) * (p.1 - p.1) - (q.1 - p.1) * (p.0 - p.0),
    ;
}

/// Edge `e` of the tree of net `i` crosses edge `f` of the tree of net `j`.
pub open spec fn wires_cross(
    spots: Seq<Spot>,
    checked: &CheckedNetlist,
    i: int,
    e: int,
    j: int,
    f: int,
) -> bool {
    let (s, t) = (
        tree_edges(net_pins(spots, checked, i)),
        tree_edges(net_pins(spots, checked, j)),
    );
    0 <= e < s.len() && 0 <= f < t.len() && edges_cross(s[e], t[f])
}

/// Every crossing of wires of two nets is counted, and counted once: where
/// there is but one the count is one, and without any it is zero.
pub proof fn crossings_are_counted_once(
    spots: Seq<Spot>,
    checked: &CheckedNetlist,
    a: int,
    e: int,
    b: int,
    f: int,
)
    requires
        0 <= a < b < checked.nets@.len(),
    ensures
        ({
            let n = checked.nets@.len() as int;
            let sole = forall|i: int, x: int, j: int, y: int|
                0 <= i < j < n && #[trigger] wires_cross(spots, checked, i, x, j, y) ==> i == a && x
                    == e && j == b && y == f;
            let hit = wires_cross(spots, checked, a, e, b, f);
            &&& hit ==> wire_crossings(spots, checked, n) >= 1
            &&& hit && sole ==> wire_crossings(spots, checked, n) == 1
            &&& !hit && sole ==> wire_crossings(spots, checked, n) == 0
        }),
{
    let n = checked.nets@.len() as int;
    let sole = forall|i: int, x: int, j: int, y: int|
        0 <= i < j < n && #[trigger] wires_cross(spots, checked, i, x, j, y) ==> i == a && x == e
            && j == b && y == f;
    crossings_of_pairs(spots, checked, a, e, b, f, sole, n);
}

/// No wires of two nets cross but the given ones.
spec fn sole_crossing(
    spots: Seq<Spot>,
    checked: &CheckedNetlist,
    a: int,
    e: int,
    b: int,
    f: int,
) -> bool {
    forall|i: int, x: int, j: int, y: int|
        0 <= i < j < checked.nets@.len() && #[trigger] wires_cross(spots, checked, i, x, j, y)
            ==> i == a && x == e && j == b && y == f
}

proof fn crossings_of_pairs(
    spots: Seq<Spot>,
    checked: &CheckedNetlist,
    a: int,
    e: int,
    b: int,
    f: int,
    sole: bool,
    n: int,
)
    requires
        0 <= a < b,
        n <= checked.nets@.len(),
        sole ==> sole_crossing(spots, checked, a, e, b, f),
    ensures
        ({
            let c: int = if b < n && wires_cross(spots, checked, a, e, b, f) {
                1
            } else {
                0
            };
            &&& wire_crossings(spots, checked, n) >= c
            &&& sole ==> wire_crossings(spots, checked, n) == c
        }),
    decreases n,
{
    if n > 0 {
        crossings_of_pairs(spots, checked, a, e, b, f, sole, n - 1);
        crossings_with_net(spots, checked, a, e, b, f, sole, n - 1, n - 1);
    }
}

proof fn crossings_with_net(
    spots: Seq<Spot>,
    checked: &CheckedNetlist,
    a: int,
    e: int,
    b: int,
    f: int,
    sole: bool,
    j: int,
    n: int,
)
    requires
        0 <= a < b,
        n <= j < checked.nets@.len(),
        sole ==> sole_crossing(spots, checked, a, e, b, f),
    ensures
        ({
            let c: int = if b == j && a < n && wires_cross(spots, checked, a, e, b, f) {
                1
            } else {
                0
            };
            &&& crossed_nets(spots, checked, j, n) >= c
            &&& sole ==> crossed_nets(spots, checked, j, n) == c
        }),
    decreases n,
{
    if n > 0 {
        crossings_with_net(spots, checked, a, e, b, f, sole, j, n - 1);
        let s = tree_edges(net_pins(spots, checked, n - 1));
        crossings_of_list(spots, checked, a, e, b, f, sole, n - 1, j, s.len() as int);
    }
}

proof fn crossings_of_list(
    spots: Seq<Spot>,
    checked: &CheckedNetlist,
    a: int,
    e: int,
    b: int,
    f: int,
    sole: bool,
    i: int,
    j: int,
    n: int,
)
    requires
        0 <= a < b,
        0 <= i < j < checked.nets@.len(),
        n <= tree_edges(net_pins(spots, checked, i)).len(),
        sole ==> sole_crossing(spots, checked, a, e, b, f),
    ensures
        ({
            let (s, t) = (
                tree_edges(net_pins(spots, checked, i)),
                tree_edges(net_pins(spots, checked, j)),
            );
            let c: int = if b == j && a == i && e < n && wires_cross(spots, checked, a, e, b, f) {
                1
            } else {
                0
            };
            &&& crossed_lists(s, t, n) >= c
            &&& sole ==> crossed_lists(s, t, n) == c
        }),
    decreases n,
{
    if n > 0 {
        crossings_of_list(spots, checked, a, e, b, f, sole, i, j, n - 1);
        let t = tree_edges(net_pins(spots, checked, j));
        crossings_of_edge(spots, checked, a, e, b, f, sole, i, n - 1, j, t.len() as int);
    }
}

proof fn crossings_of_edge(
    spots: Seq<Spot>,
    checked: &CheckedNetlist,
    a: int,
    e: int,
    b: int,
    f: int,
    sole: bool,
    i: int,
    x: int,
    j: int,
    n: int,
)
    requires
        0 <= a < b,
        0 <= i < j < checked.nets@.len(),
        0 <= x < tree_edges(net_pins(spots, checked, i)).len(),
        n <= tree_edges(net_pins(spots, checked, j)).len(),
        sole ==> sole_crossing(spots, checked, a, e, b, f),
    ensures
        ({
            let (s, t) = (
                tree_edges(net_pins(spots, checked, i)),
                tree_edges(net_pins(spots, checked, j)),
            );
            let c: int = if b == j && a == i && e == x && f < n && wires_cross(
                spots,
                checked,
                a,
                e,
                b,
                f,
            ) {
                1
            } else {
                0
            };
            &&& crossed_edges(s[x], t, n) >= c
            &&& sole ==> crossed_edges(s[x], t, n) == c
        }),
    decreases n,
{
    if n > 0 {
        crossings_of_edge(spots, checked, a, e, b, f, sole, i, x, j, n - 1);
        let (s, t) = (
            tree_edges(net_pins(spots, checked, i)),
            tree_edges(net_pins(spots, checked, j)),
        );
        assert(wires_cross(spots, checked, i, x, j, n - 1) == edges_cross(s[x], t[n - 1]));
    }
}

} // verus!
