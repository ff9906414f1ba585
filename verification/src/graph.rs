//! Reachability in finite directed graphs given by an edge relation.

use vstd::prelude::*;

verus! {

/// Consecutive vertices of `path` are joined by edges of `rel`.
pub open spec fn is_path(rel: spec_fn(int, int) -> bool, path: Seq<int>) -> bool {
    &&& path.len() > 0
    &&& forall|i: int| 0 <= i < path.len() - 1 ==> rel(#[trigger] path[i], path[i + 1])
}

/// A path leads from `a` to `b`.
pub open spec fn reach(rel: spec_fn(int, int) -> bool, a: int, b: int) -> bool {
    exists|path: Seq<int>| #[trigger] is_path(rel, path) && path[0] == a && path.last() == b
}

/// Every vertex reaches itself.
pub proof fn reach_refl(rel: spec_fn(int, int) -> bool, a: int)
    ensures
        reach(rel, a, a),
{
    let p = seq![a];
    assert(is_path(rel, p));
    assert(p.last() == a);
}

/// An edge is a path.
pub proof fn reach_edge(rel: spec_fn(int, int) -> bool, a: int, b: int)
    requires
        rel(a, b),
    ensures
        reach(rel, a, b),
{
    let p = seq![a, b];
    assert(is_path(rel, p));
    assert(p.last() == b);
}

/// Paths compose.
pub proof fn reach_trans(rel: spec_fn(int, int) -> bool, a: int, b: int, c: int)
    requires
        reach(rel, a, b),
        reach(rel, b, c),
    ensures
        reach(rel, a, c),
{
    let p = choose|p: Seq<int>| #[trigger] is_path(rel, p) && p[0] == a && p.last() == b;
    let q = choose|q: Seq<int>| #[trigger] is_path(rel, q) && q[0] == b && q.last() == c;
    let r = p + q.skip(1);
    assert forall|i: int| 0 <= i < r.len() - 1 implies rel(#[trigger] r[i], r[i + 1]) by {
        if i < p.len() - 1 {
            assert(r[i] == p[i] && r[i + 1] == p[i + 1]);
        } else {
            let j = i - (p.len() - 1);
            assert(r[i] == q[j]);
            assert(r[i + 1] == q[j + 1]);
        }
    }
    assert(is_path(rel, r));
    assert(r[0] == a);
    assert(r.last() == c);
}

/// A path extended by an edge at its end.
pub proof fn reach_step(rel: spec_fn(int, int) -> bool, a: int, b: int, c: int)
    requires
        reach(rel, a, b),
        rel(b, c),
    ensures
        reach(rel, a, c),
{
    reach_edge(rel, b, c);
    reach_trans(rel, a, b, c);
}

/// Reversing a path of a symmetric relation.
pub proof fn reach_symmetric(rel: spec_fn(int, int) -> bool, a: int, b: int)
    requires
        forall|x: int, y: int| #[trigger] rel(x, y) ==> rel(y, x),
        reach(rel, a, b),
    ensures
        reach(rel, b, a),
{
    let p = choose|p: Seq<int>| #[trigger] is_path(rel, p) && p[0] == a && p.last() == b;
    let n = p.len();
    let q = Seq::new(n, |i: int| p[n - 1 - i]);
    assert forall|i: int| 0 <= i < q.len() - 1 implies rel(#[trigger] q[i], q[i + 1]) by {
        assert(rel(p[n - 2 - i], p[n - 2 - i + 1]));
    }
    assert(is_path(rel, q));
    assert(q[0] == b && q.last() == a);
}

/// A property that edges preserve holds along every path.
pub proof fn reach_preserves(
    rel: spec_fn(int, int) -> bool,
    prop: spec_fn(int) -> bool,
    a: int,
    b: int,
)
    requires
        prop(a),
        reach(rel, a, b),
        forall|x: int, y: int| prop(x) && #[trigger] rel(x, y) ==> prop(y),
    ensures
        prop(b),
{
    let p = choose|p: Seq<int>| #[trigger] is_path(rel, p) && p[0] == a && p.last() == b;
    path_preserves(rel, prop, p, p.len() - 1);
}

proof fn path_preserves(
    rel: spec_fn(int, int) -> bool,
    prop: spec_fn(int) -> bool,
    p: Seq<int>,
    i: int,
)
    requires
        is_path(rel, p),
        prop(p[0]),
        0 <= i < p.len(),
        forall|x: int, y: int| prop(x) && #[trigger] rel(x, y) ==> prop(y),
    ensures
        prop(p[i]),
    decreases i,
{
    if i > 0 {
        path_preserves(rel, prop, p, i - 1);
        assert(rel(p[i - 1], p[i - 1 + 1]));
    }
}

/// A path in a sub-relation is a path.
pub proof fn reach_monotone(
    inner: spec_fn(int, int) -> bool,
    rel: spec_fn(int, int) -> bool,
    a: int,
    b: int,
)
    requires
        reach(inner, a, b),
        forall|x: int, y: int| #[trigger] inner(x, y) ==> rel(x, y),
    ensures
        reach(rel, a, b),
{
    let p = choose|p: Seq<int>| #[trigger] is_path(inner, p) && p[0] == a && p.last() == b;
    assert forall|i: int| 0 <= i < p.len() - 1 implies rel(#[trigger] p[i], p[i + 1]) by {
        assert(inner(p[i], p[i + 1]));
    }
    assert(is_path(rel, p));
}

} // verus!
