//! DC-potential rank over nets and the device facing it implies: which
//! conduction terminal of a transistor is drawn on top.

use vstd::prelude::*;

use crate::distance::bfs_distances;
#[allow(unused_imports)]
use crate::distance::{
    distance_unique, distances_are_shortest_walks, is_distance, reached, reached_by_walks,
    reached_has_a_distance, walks_to,
};
use crate::net_class::{vertical_prefs, VertPref};
use crate::netlist::{CheckedNetlist, ElementKind, ResolvedElement};
#[allow(unused_imports)]
use crate::netlist::nets_in_range;
#[allow(unused_imports)]
use crate::ordering::{where_list, where_list_contains};
#[allow(unused_imports)]
use crate::tarjan::{graph_wf, has_edge, lists};

verus! {

/// The terminals `(hi, lo)` of a device: `hi` must be drawn above `lo`.
pub type Facing = (usize, usize);

/// The two terminals that a DC current flows between. A capacitor blocks DC,
/// a base or gate is a control terminal, and a supply is no drawn body.
pub open spec fn conduction_of(e: ResolvedElement) -> Option<Facing> {
    let pair: Option<Facing> = match e.kind {
        ElementKind::Resistor
        | ElementKind::Inductor
        | ElementKind::Diode
        | ElementKind::VoltageSrc
        | ElementKind::CurrentSrc => Some((0usize, 1usize)),
        ElementKind::Bjt | ElementKind::Mosfet | ElementKind::Jfet => Some((0usize, 2usize)),
        _ => None,
    };
    if e.role.is_power() {
        None
    } else {
        match pair {
            Some((a, b)) => if b < e.nodes@.len() && e.nodes@[a as int] != e.nodes@[b as int] {
                Some((a, b))
            } else {
                None
            },
            None => None,
        }
    }
}

/// The two terminals that a DC current flows between.
pub fn conduction_terminals(e: &ResolvedElement) -> (r: Option<Facing>)
    ensures
        r == conduction_of(*e),
{
    if e.role.power() {
        return None;
    }
    let (a, b): (usize, usize) = match e.kind {
        ElementKind::Resistor
        | ElementKind::Inductor
        | ElementKind::Diode
        | ElementKind::VoltageSrc
        | ElementKind::CurrentSrc => (0, 1),
        ElementKind::Bjt | ElementKind::Mosfet | ElementKind::Jfet => (0, 2),
        _ => {
            return None;
        },
    };
    if b < e.nodes.len() && e.nodes[a] != e.nodes[b] {
        Some((a, b))
    } else {
        None
    }
}

/// A device whose DC current flows between its first and third terminal.
pub open spec fn is_transistor(kind: ElementKind) -> bool {
    kind == ElementKind::Bjt || kind == ElementKind::Mosfet || kind == ElementKind::Jfet
}

/// A transistor with a conduction path.
pub open spec fn faces(e: ResolvedElement) -> bool {
    is_transistor(e.kind) && conduction_of(e) is Some
}

/// Whether the facing convention has an opinion about the element.
pub fn is_facing_device(e: &ResolvedElement) -> (r: bool)
    ensures
        r == faces(*e),
{
    (e.kind == ElementKind::Bjt || e.kind == ElementKind::Mosfet || e.kind == ElementKind::Jfet)
        && conduction_terminals(e).is_some()
}

/// Element `i` conducts DC between the two nets.
pub open spec fn conducts(checked: &CheckedNetlist, i: int, a: int, b: int) -> bool {
    &&& 0 <= i < checked.elements@.len()
    &&& match conduction_of(checked.elements@[i]) {
        Some((x, y)) => {
            let n = checked.elements@[i].nodes@;
            n[x as int] == a && n[y as int] == b || n[x as int] == b && n[y as int] == a
        },
        None => false,
    }
}

/// A step of a walk from rails of the given polarity with the edges of the two
/// elements `skip` removed. A rail of the other polarity is never left.
pub open spec fn rank_step(
    checked: &CheckedNetlist,
    polarity: VertPref,
    skip: (int, int),
    a: int,
) -> spec_fn(int) -> bool {
    |b: int|
        (checked.vert_pref_of(a) is None || checked.vert_pref_of(a) == Some(polarity))
            && exists|i: int| i != skip.0 && i != skip.1 && #[trigger] conducts(checked, i, a, b)
}

/// The graph of such steps.
pub open spec fn rank_graph(checked: &CheckedNetlist, polarity: VertPref, skip: (int, int)) -> Seq<
    Seq<usize>,
> {
    let n = checked.nets@.len();
    Seq::new(n, |a: int| where_list(rank_step(checked, polarity, skip, a), n as int))
}

/// The rails of the given polarity.
pub open spec fn rank_roots(checked: &CheckedNetlist, polarity: VertPref) -> Seq<bool> {
    Seq::new(checked.nets@.len(), |a: int| checked.vert_pref_of(a) == Some(polarity))
}

/// The number of DC conductors between a net and the nearest rail of the given
/// polarity, not counting paths through the elements `skip`.
pub open spec fn rail_distance(
    checked: &CheckedNetlist,
    polarity: VertPref,
    skip: (int, int),
    net: int,
) -> Option<nat> {
    let g = rank_graph(checked, polarity, skip);
    let roots = rank_roots(checked, polarity);
    if reached(g, roots, net) {
        Some(choose|d: nat| is_distance(g, roots, net, d))
    } else {
        None
    }
}

/// `a` is a smaller distance than `b`; no path at all is the largest.
pub open spec fn nearer(a: Option<nat>, b: Option<nat>) -> bool {
    match (a, b) {
        (Some(x), Some(y)) => x < y,
        (Some(_), None) => true,
        _ => false,
    }
}

/// Net `a` is at the higher potential, seen past the elements `skip`: strictly
/// nearer the upper rails and strictly farther from the lower ones.
pub open spec fn sits_higher(checked: &CheckedNetlist, skip: (int, int), a: int, b: int) -> bool {
    &&& nearer(
        rail_distance(checked, VertPref::Up, skip, a),
        rail_distance(checked, VertPref::Up, skip, b),
    )
    &&& nearer(
        rail_distance(checked, VertPref::Down, skip, b),
        rail_distance(checked, VertPref::Down, skip, a),
    )
}

/// Which of two nets sits higher: `Some(true)` for the first, `Some(false)`
/// for the second.
pub open spec fn higher_of(
    checked: &CheckedNetlist,
    skip: (int, int),
    a: int,
    b: int,
) -> Option<bool> {
    if sits_higher(checked, skip, a, b) {
        Some(true)
    } else if sits_higher(checked, skip, b, a) {
        Some(false)
    } else {
        None
    }
}

/// The facing of element `i`: the conduction terminal at the higher potential
/// over the other, or none where the two rails do not agree.
pub open spec fn facing_of(checked: &CheckedNetlist, i: int) -> Option<Facing> {
    let e = checked.elements@[i];
    match conduction_of(e) {
        Some((ta, tb)) => {
            let a = e.nodes@[ta as int] as int;
            let b = e.nodes@[tb as int] as int;
            if !faces(e) {
                None
            } else if sits_higher(checked, (i, i), a, b) {
                Some((ta, tb))
            } else if sits_higher(checked, (i, i), b, a) {
                Some((tb, ta))
            } else {
                None
            }
        },
        None => None,
    }
}

/// Whether a step leads from `a` to `b`.
fn dc_step(
    checked: &CheckedNetlist,
    prefs: &Vec<Option<VertPref>>,
    polarity: VertPref,
    skip: (usize, usize),
    a: usize,
    b: usize,
) -> (r: bool)
    requires
        checked.wf(),
        prefs@.len() == checked.nets@.len(),
        forall|net: int|
            0 <= net < prefs@.len() ==> #[trigger] prefs@[net] == checked.vert_pref_of(net),
        a < prefs@.len(),
    ensures
        r == rank_step(checked, polarity, (skip.0 as int, skip.1 as int), a as int)(b as int),
{
    assert(prefs@[a as int] == checked.vert_pref_of(a as int));
    let open = match prefs[a] {
        None => true,
        Some(p) => p == polarity,
    };
    if !open {
        return false;
    }
    let mut i: usize = 0;
    while i < checked.elements.len()
        invariant
            checked.wf(),
            i <= checked.elements@.len(),
            checked.vert_pref_of(a as int) is None || checked.vert_pref_of(a as int) == Some(polarity),
            forall|j: int|
                0 <= j < i && j != skip.0 && j != skip.1 ==> !#[trigger] conducts(
                    checked,
                    j,
                    a as int,
                    b as int,
                ),
        decreases checked.elements@.len() - i,
    {
        if i != skip.0 && i != skip.1 {
            let e = &checked.elements[i];
            match conduction_terminals(e) {
                Some((x, y)) => {
                    if e.nodes[x] == a && e.nodes[y] == b || e.nodes[x] == b && e.nodes[y] == a {
                        assert(conducts(checked, i as int, a as int, b as int));
                        return true;
                    }
                },
                None => {},
            }
        }
        i = i + 1;
    }
    assert forall|j: int| j != skip.0 && j != skip.1 implies !#[trigger] conducts(
        checked,
        j,
        a as int,
        b as int,
    ) by {
        if 0 <= j < checked.elements@.len() {
            assert(!conducts(checked, j, a as int, b as int));
        }
    }
    false
}

/// The graph of steps from rails of one polarity past two elements.
fn dc_adjacency(
    checked: &CheckedNetlist,
    prefs: &Vec<Option<VertPref>>,
    polarity: VertPref,
    skip: (usize, usize),
) -> (adj: Vec<Vec<usize>>)
    requires
        checked.wf(),
        prefs@.len() == checked.nets@.len(),
        forall|net: int|
            0 <= net < prefs@.len() ==> #[trigger] prefs@[net] == checked.vert_pref_of(net),
    ensures
        lists(adj@) == rank_graph(checked, polarity, (skip.0 as int, skip.1 as int)),
        graph_wf(lists(adj@)),
{
    let n: usize = checked.nets.len();
    let mut adj: Vec<Vec<usize>> = Vec::new();
    let mut a: usize = 0;
    while a < n
        invariant
            checked.wf(),
            n == checked.nets@.len(),
            prefs@.len() == n,
            forall|net: int|
                0 <= net < prefs@.len() ==> #[trigger] prefs@[net] == checked.vert_pref_of(net),
            a <= n,
            adj@.len() == a,
            forall|x: int|
                0 <= x < a ==> (#[trigger] adj@[x])@ == where_list(
                    rank_step(checked, polarity, (skip.0 as int, skip.1 as int), x),
                    n as int,
                ),
        decreases n - a,
    {
        let ghost p = rank_step(checked, polarity, (skip.0 as int, skip.1 as int), a as int);
        let mut row: Vec<usize> = Vec::new();
        let mut b: usize = 0;
        while b < n
            invariant
                checked.wf(),
                n == checked.nets@.len(),
                prefs@.len() == n,
                forall|net: int|
                    0 <= net < prefs@.len() ==> #[trigger] prefs@[net] == checked.vert_pref_of(
                        net,
                    ),
                a < n,
                p == rank_step(checked, polarity, (skip.0 as int, skip.1 as int), a as int),
                b <= n,
                row@ == where_list(p, b as int),
            decreases n - b,
        {
            if dc_step(checked, prefs, polarity, skip, a, b) {
                row.push(b);
            }
            b = b + 1;
        }
        adj.push(row);
        a = a + 1;
    }
    proof {
        let g = lists(adj@);
        let h = rank_graph(checked, polarity, (skip.0 as int, skip.1 as int));
        assert forall|x: int| 0 <= x < n implies g[x] == h[x] by {
            assert(adj@[x]@ == where_list(
                rank_step(checked, polarity, (skip.0 as int, skip.1 as int), x),
                n as int,
            ));
        }
        assert(g =~= h);
        assert forall|x: int| 0 <= x < g.len() implies (#[trigger] g[x]).len() <= usize::MAX by {
            assert(adj@[x]@.len() == adj@[x].len());
        }
        assert forall|x: int, j: int| 0 <= x < g.len() && 0 <= j < g[x].len() implies (
        #[trigger] g[x][j]) < g.len() by {
            where_list_contains(rank_step(checked, polarity, (skip.0 as int, skip.1 as int), x), n as int, g[x][j]);
            assert(g[x].contains(g[x][j]));
        }
    }
    adj
}

/// Distances of every net from the rails of one polarity, past two elements.
pub fn rank(
    checked: &CheckedNetlist,
    prefs: &Vec<Option<VertPref>>,
    polarity: VertPref,
    skip: (usize, usize),
) -> (dist: Vec<Option<u32>>)
    requires
        checked.wf(),
        checked.nets@.len() < u32::MAX,
        prefs@.len() == checked.nets@.len(),
        forall|net: int|
            0 <= net < prefs@.len() ==> #[trigger] prefs@[net] == checked.vert_pref_of(net),
    ensures
        dist@.len() == checked.nets@.len(),
        forall|net: int|
            0 <= net < dist@.len() ==> match #[trigger] dist@[net] {
                Some(d) => rail_distance(checked, polarity, (skip.0 as int, skip.1 as int), net) == Some(d as nat),
                None => rail_distance(checked, polarity, (skip.0 as int, skip.1 as int), net) is None,
            },
{
    let n: usize = checked.nets.len();
    let adj: Vec<Vec<usize>> = dc_adjacency(checked, prefs, polarity, skip);
    let mut roots: Vec<bool> = Vec::new();
    let mut a: usize = 0;
    while a < n
        invariant
            n == checked.nets@.len(),
            prefs@.len() == n,
            forall|net: int|
                0 <= net < prefs@.len() ==> #[trigger] prefs@[net] == checked.vert_pref_of(net),
            a <= n,
            roots@ == Seq::new(a as nat, |x: int| checked.vert_pref_of(x) == Some(polarity)),
        decreases n - a,
    {
        assert(prefs@[a as int] == checked.vert_pref_of(a as int));
        let root = match prefs[a] {
            Some(p) => p == polarity,
            None => false,
        };
        roots.push(root);
        assert(roots@ =~= Seq::new(
            (a + 1) as nat,
            |x: int| checked.vert_pref_of(x) == Some(polarity),
        ));
        a = a + 1;
    }
    let dist: Vec<Option<u32>> = bfs_distances(&adj, &roots);
    proof {
        let g = rank_graph(checked, polarity, (skip.0 as int, skip.1 as int));
        let src = rank_roots(checked, polarity);
        assert(roots@ =~= src);
        assert forall|net: int| 0 <= net < dist@.len() implies match #[trigger] dist@[net] {
            Some(d) => rail_distance(checked, polarity, (skip.0 as int, skip.1 as int), net) == Some(d as nat),
            None => rail_distance(checked, polarity, (skip.0 as int, skip.1 as int), net) is None,
        } by {
            match dist@[net] {
                Some(d) => {
                    assert(is_distance(g, src, net, d as nat));
                    assert(reached(g, src, net));
                    let e = choose|e: nat| is_distance(g, src, net, e);
                    distance_unique(g, src, net, d as nat, e);
                },
                None => {},
            }
        }
    }
    dist
}

fn closer(a: Option<u32>, b: Option<u32>) -> (r: bool)
    ensures
        r == (match (a, b) {
            (Some(x), Some(y)) => x < y,
            (Some(_), None) => true,
            _ => false,
        }),
{
    match (a, b) {
        (Some(x), Some(y)) => x < y,
        (Some(_), None) => true,
        _ => false,
    }
}

/// Which of two nets sits higher, seen past two elements: `Some(true)` for the
/// first, `Some(false)` for the second, `None` where the rails do not agree.
pub fn higher_net(
    checked: &CheckedNetlist,
    prefs: &Vec<Option<VertPref>>,
    a: usize,
    b: usize,
    skip: (usize, usize),
) -> (r: Option<bool>)
    requires
        checked.wf(),
        checked.nets@.len() < u32::MAX,
        prefs@.len() == checked.nets@.len(),
        forall|net: int|
            0 <= net < prefs@.len() ==> #[trigger] prefs@[net] == checked.vert_pref_of(net),
        a < checked.nets@.len(),
        b < checked.nets@.len(),
    ensures
        r == higher_of(checked, (skip.0 as int, skip.1 as int), a as int, b as int),
{
    let up: Vec<Option<u32>> = rank(checked, prefs, VertPref::Up, skip);
    let dn: Vec<Option<u32>> = rank(checked, prefs, VertPref::Down, skip);
    proof {
        assert(up@[a as int] == up@[a as int]);
        assert(up@[b as int] == up@[b as int]);
        assert(dn@[a as int] == dn@[a as int]);
        assert(dn@[b as int] == dn@[b as int]);
    }
    if closer(up[a], up[b]) && closer(dn[b], dn[a]) {
        Some(true)
    } else if closer(up[b], up[a]) && closer(dn[a], dn[b]) {
        Some(false)
    } else {
        None
    }
}

/// The DC facing of every element, in element order.
#[must_use]
pub fn device_facings(checked: &CheckedNetlist) -> (r: Vec<Option<Facing>>)
    requires
        checked.wf(),
        checked.nets@.len() < u32::MAX,
    ensures
        r@.len() == checked.elements@.len(),
        forall|i: int| 0 <= i < r@.len() ==> #[trigger] r@[i] == facing_of(checked, i),
{
    let prefs: Vec<Option<VertPref>> = vertical_prefs(checked);
    let mut out: Vec<Option<Facing>> = Vec::new();
    let mut i: usize = 0;
    while i < checked.elements.len()
        invariant
            checked.wf(),
            checked.nets@.len() < u32::MAX,
            prefs@.len() == checked.nets@.len(),
            forall|net: int|
                0 <= net < prefs@.len() ==> #[trigger] prefs@[net] == checked.vert_pref_of(net),
            i <= checked.elements@.len(),
            out@.len() == i,
            forall|j: int| 0 <= j < i ==> #[trigger] out@[j] == facing_of(checked, j),
        decreases checked.elements@.len() - i,
    {
        let e = &checked.elements[i];
        let mut facing: Option<Facing> = None;
        if is_facing_device(e) {
            match conduction_terminals(e) {
                Some((ta, tb)) => {
                    let a: usize = e.nodes[ta];
                    let b: usize = e.nodes[tb];
                    assert(nets_in_range(checked.elements@[i as int].nodes@, checked.nets@.len()));
                    match higher_net(checked, &prefs, a, b, (i, i)) {
                        Some(true) => {
                            facing = Some((ta, tb));
                        },
                        Some(false) => {
                            facing = Some((tb, ta));
                        },
                        None => {},
                    }
                },
                None => {},
            }
        }
        out.push(facing);
        i = i + 1;
    }
    out
}

/// A facing names the two conduction terminals of a transistor, never its
/// control terminal, and puts the one on top that both rails place higher.
pub proof fn facing_agrees_with_both_rails(checked: &CheckedNetlist, i: int)
    requires
        0 <= i < checked.elements@.len(),
    ensures
        match facing_of(checked, i) {
            Some((hi, lo)) => {
                let n = checked.elements@[i].nodes@;
                &&& faces(checked.elements@[i])
                &&& (hi, lo) == (0usize, 2usize) || (hi, lo) == (2usize, 0usize)
                &&& sits_higher(checked, (i, i), n[hi as int] as int, n[lo as int] as int)
                &&& !sits_higher(checked, (i, i), n[lo as int] as int, n[hi as int] as int)
            },
            None => true,
        },
{
}

/// A transistor whose conduction terminals are equally far from the rails of
/// either polarity has no facing: it is never guessed.
pub proof fn ties_decline(checked: &CheckedNetlist, i: int, polarity: VertPref)
    requires
        0 <= i < checked.elements@.len(),
        checked.elements@[i].nodes@.len() >= 3,
        rail_distance(checked, polarity, (i, i), checked.elements@[i].nodes@[0] as int)
            == rail_distance(checked, polarity, (i, i), checked.elements@[i].nodes@[2] as int),
    ensures
        facing_of(checked, i) is None,
{
}

/// The other netlist is the same, but for the first and third net of element
/// `i`, which have changed places.
pub open spec fn rewired(checked: &CheckedNetlist, other: &CheckedNetlist, i: int) -> bool {
    let n = checked.elements@[i].nodes@;
    &&& other.nets@ == checked.nets@
    &&& other.elements@.len() == checked.elements@.len()
    &&& forall|j: int|
        0 <= j < checked.elements@.len() ==> (#[trigger] other.elements@[j]).kind
            == checked.elements@[j].kind && other.elements@[j].role == checked.elements@[j].role
    &&& forall|j: int|
        0 <= j < checked.elements@.len() && j != i ==> (#[trigger] other.elements@[j]).nodes@
            == checked.elements@[j].nodes@
    &&& n.len() >= 3
    &&& other.elements@[i].nodes@ == n.update(0, n[2]).update(2, n[0])
}

proof fn rewiring_keeps_touches(
    checked: &CheckedNetlist,
    other: &CheckedNetlist,
    i: int,
    j: int,
    net: int,
)
    requires
        0 <= i < checked.elements@.len(),
        0 <= j < checked.elements@.len(),
        rewired(checked, other, i),
    ensures
        other.touches(j, net) == checked.touches(j, net),
{
    let (a, b) = (checked.elements@[j].nodes@, other.elements@[j].nodes@);
    let turn = |k: int|
        if j != i {
            k
        } else if k == 0 {
            2
        } else if k == 2 {
            0
        } else {
            k
        };
    if checked.touches(j, net) {
        let k = choose|k: int| 0 <= k < a.len() && #[trigger] a[k] == net;
        assert(other.elements@[j].nodes@[turn(k)] == net);
    }
    if other.touches(j, net) {
        let k = choose|k: int| 0 <= k < b.len() && #[trigger] b[k] == net;
        assert(checked.elements@[j].nodes@[turn(k)] == net);
    }
}

/// The rails are the same when a device that is no supply is rewired.
proof fn rewiring_keeps_rails(checked: &CheckedNetlist, other: &CheckedNetlist, i: int, net: int)
    requires
        0 <= i < checked.elements@.len(),
        rewired(checked, other, i),
        !checked.elements@[i].role.is_power(),
    ensures
        other.vert_pref_of(net) == checked.vert_pref_of(net),
{
    assert forall|j: int| 0 <= j < checked.elements@.len() implies #[trigger] other.touches(j, net)
        == checked.touches(j, net) by {
        rewiring_keeps_touches(checked, other, i, j, net);
    }
    assert forall|j: int| 0 <= j < checked.elements@.len() implies #[trigger] checked.touches(j, net)
        == other.touches(j, net) by {
        rewiring_keeps_touches(checked, other, i, j, net);
    }
    assert(other.touched(net) == checked.touched(net));
    assert(other.touched_by_power(net) == checked.touched_by_power(net));
    assert(other.touched_by_negative_power(net) == checked.touched_by_negative_power(net));
    assert(other.is_supply_terminal(net) == checked.is_supply_terminal(net)) by {
        if checked.is_supply_terminal(net) {
            let j = choose|j: int|
                0 <= j < checked.elements@.len() && (
                #[trigger] checked.elements@[j]).role.is_power() && checked.elements@[j].nodes@.len()
                    > 0 && checked.elements@[j].nodes@[0] == net;
            assert(other.elements@[j].role.is_power());
        }
        if other.is_supply_terminal(net) {
            let j = choose|j: int|
                0 <= j < other.elements@.len() && (#[trigger] other.elements@[j]).role.is_power()
                    && other.elements@[j].nodes@.len() > 0 && other.elements@[j].nodes@[0] == net;
            assert(checked.elements@[j].role.is_power());
        }
    }
}

/// Seen past element `j`, the two netlists put every net at the same distances.
spec fn same_distances(checked: &CheckedNetlist, other: &CheckedNetlist, j: int) -> bool {
    forall|polarity: VertPref, net: int| #[trigger]
        rail_distance(other, polarity, (j, j), net) == rail_distance(checked, polarity, (j, j), net)
}

/// The other conductors, and a rewired transistor too, join the nets that they
/// joined.
proof fn rewiring_keeps_conduction(
    checked: &CheckedNetlist,
    other: &CheckedNetlist,
    i: int,
    j: int,
    a: int,
    b: int,
)
    requires
        0 <= i < checked.elements@.len(),
        rewired(checked, other, i),
        j != i || is_transistor(checked.elements@[i].kind),
    ensures
        conducts(other, j, a, b) == conducts(checked, j, a, b),
{
    if 0 <= j < checked.elements@.len() {
        assert(other.elements@[j].kind == checked.elements@[j].kind);
    }
}

/// Seen past element `skip`, every net is as far from the rails as it was.
proof fn rewiring_keeps_distances(
    checked: &CheckedNetlist,
    other: &CheckedNetlist,
    i: int,
    skip: int,
    polarity: VertPref,
    net: int,
)
    requires
        0 <= i < checked.elements@.len(),
        rewired(checked, other, i),
        !checked.elements@[i].role.is_power(),
        skip == i || is_transistor(checked.elements@[i].kind),
    ensures
        rail_distance(other, polarity, (skip, skip), net) == rail_distance(
            checked,
            polarity,
            (skip, skip),
            net,
        ),
{
    let n = checked.nets@.len();
    let past = (skip, skip);
    assert forall|a: int| #[trigger] other.vert_pref_of(a) == checked.vert_pref_of(a) by {
        rewiring_keeps_rails(checked, other, i, a);
    }
    assert(rank_roots(other, polarity) =~= rank_roots(checked, polarity));
    let (g, h) = (rank_graph(checked, polarity, past), rank_graph(other, polarity, past));
    assert forall|a: int| 0 <= a < n implies #[trigger] h[a] == g[a] by {
        let p = rank_step(checked, polarity, past, a);
        let q = rank_step(other, polarity, past, a);
        assert forall|b: int| #[trigger] q(b) == p(b) by {
            assert forall|j: int| j != skip implies #[trigger] conducts(other, j, a, b) == conducts(
                checked,
                j,
                a,
                b,
            ) by {
                rewiring_keeps_conduction(checked, other, i, j, a, b);
            }
            assert forall|j: int| j != skip implies #[trigger] conducts(checked, j, a, b)
                == conducts(other, j, a, b) by {
                assert(conducts(other, j, a, b) == conducts(checked, j, a, b));
            }
        }
        crate::ordering::where_list_eq(p, q, n as int);
    }
    assert(h =~= g);
}

/// A facing follows the wiring: a transistor whose conduction terminals change
/// places on their nets faces the other way round, and one that had no facing
/// still has none. Every other device keeps the facing it had.
pub proof fn facing_follows_the_wiring(checked: &CheckedNetlist, other: &CheckedNetlist, i: int)
    requires
        0 <= i < checked.elements@.len(),
        rewired(checked, other, i),
    ensures
        facing_of(other, i) == match facing_of(checked, i) {
            Some((hi, lo)) => Some((lo, hi)),
            None => None,
        },
        is_transistor(checked.elements@[i].kind) && !checked.elements@[i].role.is_power()
            ==> forall|j: int|
            0 <= j < checked.elements@.len() && j != i ==> #[trigger] facing_of(other, j)
                == facing_of(checked, j),
{
    assert(other.elements@[i].kind == checked.elements@[i].kind);
    if !checked.elements@[i].role.is_power() {
        assert forall|j: int|
            0 <= j < checked.elements@.len() && (j == i || is_transistor(
                checked.elements@[i].kind,
            )) implies #[trigger] same_distances(checked, other, j) by {
            assert forall|polarity: VertPref, net: int| #[trigger]
                rail_distance(other, polarity, (j, j), net) == rail_distance(
                    checked,
                    polarity,
                    (j, j),
                    net,
                ) by {
                rewiring_keeps_distances(checked, other, i, j, polarity, net);
            }
        }
        assert(same_distances(checked, other, i));
        assert forall|j: int|
            0 <= j < checked.elements@.len() && j != i && is_transistor(
                checked.elements@[i].kind,
            ) implies #[trigger] facing_of(other, j) == facing_of(checked, j) by {
            assert(same_distances(checked, other, j));
            assert(other.elements@[j].kind == checked.elements@[j].kind);
        }
    }
}

/// What conducts DC, by terminal. A transistor conducts between its first and
/// third terminal, a resistor, inductor, diode or source between its first and
/// second, nothing else does. A supply and a device with both ends on one net
/// conduct nothing.
pub proof fn devices_conduct_between_their_ends(checked: &CheckedNetlist, i: int, a: int, b: int)
    requires
        0 <= i < checked.elements@.len(),
    ensures
        ({
            let e = checked.elements@[i];
            let n = e.nodes@;
            let ends = |s: int, t: int|
                t < n.len() && n[s] != n[t] && !(e.role is Power) && (n[s] == a && n[t] == b || n[s]
                    == b && n[t] == a);
            conducts(checked, i, a, b) <==> match e.kind {
                ElementKind::Bjt => ends(0, 2),
                ElementKind::Mosfet => ends(0, 2),
                ElementKind::Jfet => ends(0, 2),
                ElementKind::Resistor => ends(0, 1),
                ElementKind::Inductor => ends(0, 1),
                ElementKind::Diode => ends(0, 1),
                ElementKind::VoltageSrc => ends(0, 1),
                ElementKind::CurrentSrc => ends(0, 1),
                ElementKind::Capacitor => false,
                ElementKind::Vcvs => false,
                ElementKind::Vccs => false,
                ElementKind::Other => false,
            }
        }),
{
}

/// `w` is a walk from a rail of the given polarity to a net, along DC
/// conductors other than the two elements `skip`. It never goes on from a rail
/// of the other polarity.
pub open spec fn dc_walk(
    checked: &CheckedNetlist,
    polarity: VertPref,
    skip: (int, int),
    w: Seq<int>,
    net: int,
) -> bool {
    let n = checked.nets@.len();
    &&& w.len() >= 1
    &&& w.last() == net
    &&& checked.vert_pref_of(w[0]) == Some(polarity)
    &&& forall|k: int| 0 <= k < w.len() ==> 0 <= #[trigger] w[k] < n
    &&& forall|k: int|
        0 <= k < w.len() - 1 ==> (checked.vert_pref_of(#[trigger] w[k]) is None
            || checked.vert_pref_of(w[k]) == Some(polarity)) && exists|j: int|
            j != skip.0 && j != skip.1 && #[trigger] conducts(checked, j, w[k], w[k + 1])
}

proof fn dc_walks_are_walks(
    checked: &CheckedNetlist,
    polarity: VertPref,
    skip: (int, int),
    w: Seq<int>,
    net: int,
)
    requires
        0 <= net < checked.nets@.len() <= usize::MAX,
        w.len() > 0 ==> 0 <= w[0] < checked.nets@.len(),
    ensures
        dc_walk(checked, polarity, skip, w, net) <==> walks_to(
            rank_graph(checked, polarity, skip),
            rank_roots(checked, polarity),
            w,
            net,
        ),
{
    let n = checked.nets@.len();
    let g = rank_graph(checked, polarity, skip);
    let roots = rank_roots(checked, polarity);
    assert forall|a: int, b: int| 0 <= a < n && 0 <= b < n implies (#[trigger] has_edge(g, a, b)
        <==> rank_step(checked, polarity, skip, a)(b)) by {
        rank_edges(checked, polarity, skip, a, b);
    }
    assert forall|a: int, b: int| #[trigger] has_edge(g, a, b) implies 0 <= a < n && 0 <= b < n by {
        let k = choose|k: int| 0 <= k < g[a].len() && #[trigger] g[a][k] == b;
        where_list_contains(rank_step(checked, polarity, skip, a), n as int, g[a][k]);
        assert(g[a].contains(g[a][k]));
    }
    if dc_walk(checked, polarity, skip, w, net) {
        assert forall|k: int| 0 <= k < w.len() - 1 implies has_edge(g, #[trigger] w[k], w[k + 1]) by {
            assert(0 <= w[k] < n && 0 <= w[k + 1] < n);
            assert(rank_step(checked, polarity, skip, w[k])(w[k + 1]));
        }
    }
    if walks_to(g, roots, w, net) {
        assert forall|k: int| 0 <= k < w.len() implies 0 <= #[trigger] w[k] < n by {
            if k < w.len() - 1 {
                assert(has_edge(g, w[k], w[k + 1]));
            } else if k > 0 {
                assert(has_edge(g, w[k - 1], w[k - 1 + 1]));
            }
        }
        assert forall|k: int| 0 <= k < w.len() - 1 implies (checked.vert_pref_of(
            #[trigger] w[k],
        ) is None || checked.vert_pref_of(w[k]) == Some(polarity)) && exists|j: int|
            j != skip.0 && j != skip.1 && #[trigger] conducts(checked, j, w[k], w[k + 1]) by {
            assert(has_edge(g, w[k], w[k + 1]));
            assert(rank_step(checked, polarity, skip, w[k])(w[k + 1]));
        }
    }
}

proof fn rank_edges(
    checked: &CheckedNetlist,
    polarity: VertPref,
    skip: (int, int),
    a: int,
    b: int,
)
    requires
        0 <= a < checked.nets@.len() <= usize::MAX,
        0 <= b < checked.nets@.len(),
    ensures
        has_edge(rank_graph(checked, polarity, skip), a, b) <==> rank_step(
            checked,
            polarity,
            skip,
            a,
        )(b),
{
    let n = checked.nets@.len() as int;
    let p = rank_step(checked, polarity, skip, a);
    let g = rank_graph(checked, polarity, skip);
    where_list_contains(p, n, b as usize);
    if has_edge(g, a, b) {
        let k = choose|k: int| 0 <= k < g[a].len() && #[trigger] g[a][k] == b;
        assert(g[a][k] == b as usize);
        assert(g[a].contains(b as usize));
    }
    if p(b) {
        let k = choose|k: int| 0 <= k < g[a].len() && g[a][k] == b as usize;
        assert(g[a][k] == b);
    }
}

/// The distance to the rails is the length of the shortest DC walk from one,
/// and there is none where no walk leads.
pub proof fn rail_distances_are_shortest_walks(
    checked: &CheckedNetlist,
    polarity: VertPref,
    skip: (int, int),
    net: int,
)
    requires
        0 <= net < checked.nets@.len() <= usize::MAX,
    ensures
        match rail_distance(checked, polarity, skip, net) {
            Some(d) => {
                &&& exists|w: Seq<int>| #[trigger]
                    dc_walk(checked, polarity, skip, w, net) && w.len() == d + 1
                &&& forall|w: Seq<int>| #[trigger]
                    dc_walk(checked, polarity, skip, w, net) ==> w.len() >= d + 1
            },
            None => forall|w: Seq<int>| !#[trigger] dc_walk(checked, polarity, skip, w, net),
        },
{
    let n = checked.nets@.len();
    let g = rank_graph(checked, polarity, skip);
    let roots = rank_roots(checked, polarity);
    assert forall|w: Seq<int>| #[trigger] dc_walk(checked, polarity, skip, w, net) implies walks_to(
        g,
        roots,
        w,
        net,
    ) by {
        assert(0 <= w[0] < n);
        dc_walks_are_walks(checked, polarity, skip, w, net);
    }
    reached_by_walks(g, roots, net);
    if reached(g, roots, net) {
        let e = reached_has_a_distance(g, roots, net);
        let d = choose|d: nat| is_distance(g, roots, net, d);
        assert(is_distance(g, roots, net, e));
        assert(is_distance(g, roots, net, d));
        distances_are_shortest_walks(g, roots, net, d);
        let m = shortest_inside(checked, polarity, skip, net, d);
        assert(dc_walk(checked, polarity, skip, m, net) && m.len() == d + 1);
    }
}

/// A shortest walk of the graph starts at a net of the table.
proof fn shortest_inside(
    checked: &CheckedNetlist,
    polarity: VertPref,
    skip: (int, int),
    net: int,
    d: nat,
) -> (w: Seq<int>)
    requires
        0 <= net < checked.nets@.len() <= usize::MAX,
        is_distance(
            rank_graph(checked, polarity, skip),
            rank_roots(checked, polarity),
            net,
            d,
        ),
    ensures
        dc_walk(checked, polarity, skip, w, net),
        w.len() == d + 1,
{
    let g = rank_graph(checked, polarity, skip);
    let roots = rank_roots(checked, polarity);
    distances_are_shortest_walks(g, roots, net, d);
    let w = choose|w: Seq<int>| #[trigger] walks_to(g, roots, w, net) && w.len() == d + 1;
    if w.len() > 1 {
        assert(has_edge(g, w[0], w[0int + 1]));
    }
    dc_walks_are_walks(checked, polarity, skip, w, net);
    w
}

/// Some DC walk leads from a rail of the polarity to `a` that is shorter than
/// every one to `b`.
pub open spec fn reaches_sooner(
    checked: &CheckedNetlist,
    polarity: VertPref,
    skip: (int, int),
    a: int,
    b: int,
) -> bool {
    exists|w: Seq<int>| #[trigger]
        dc_walk(checked, polarity, skip, w, a) && forall|x: Seq<int>| #[trigger]
            dc_walk(checked, polarity, skip, x, b) ==> w.len() < x.len()
}

proof fn nearer_is_sooner(
    checked: &CheckedNetlist,
    polarity: VertPref,
    skip: (int, int),
    a: int,
    b: int,
)
    requires
        0 <= a < checked.nets@.len() <= usize::MAX,
        0 <= b < checked.nets@.len(),
    ensures
        nearer(
            rail_distance(checked, polarity, skip, a),
            rail_distance(checked, polarity, skip, b),
        ) <==> reaches_sooner(checked, polarity, skip, a, b),
{
    rail_distances_are_shortest_walks(checked, polarity, skip, a);
    rail_distances_are_shortest_walks(checked, polarity, skip, b);
    let (da, db) = (
        rail_distance(checked, polarity, skip, a),
        rail_distance(checked, polarity, skip, b),
    );
    if nearer(da, db) {
        let w = choose|w: Seq<int>| #[trigger]
            dc_walk(checked, polarity, skip, w, a) && w.len() == da->0 + 1;
        assert forall|x: Seq<int>| #[trigger] dc_walk(checked, polarity, skip, x, b) implies w.len()
            < x.len() by {}
        assert(dc_walk(checked, polarity, skip, w, a));
    }
    if reaches_sooner(checked, polarity, skip, a, b) {
        let w = choose|w: Seq<int>| #[trigger]
            dc_walk(checked, polarity, skip, w, a) && forall|x: Seq<int>| #[trigger]
                dc_walk(checked, polarity, skip, x, b) ==> w.len() < x.len();
        assert(dc_walk(checked, polarity, skip, w, a));
        if db is Some {
            let x = choose|x: Seq<int>| #[trigger]
                dc_walk(checked, polarity, skip, x, b) && x.len() == db->0 + 1;
            assert(w.len() < x.len());
        }
    }
}

/// A bipolar, MOS or junction transistor stands with its first terminal over
/// its third exactly if, past the transistor itself, DC reaches the first
/// sooner from an upper rail and the third sooner from a lower one; with its
/// third over its first exactly the other way round; and otherwise neither is
/// drawn on top. Nothing else has a facing.
pub proof fn transistors_stand_between_the_rails(
    checked: &CheckedNetlist,
    facings: Seq<Option<Facing>>,
    i: int,
)
    requires
        checked.wf(),
        checked.nets@.len() <= usize::MAX,
        0 <= i < checked.elements@.len(),
        facings[i] == facing_of(checked, i),
    ensures
        ({
            let e = checked.elements@[i];
            let n = e.nodes@;
            let transistor = e.kind == ElementKind::Bjt || e.kind == ElementKind::Mosfet || e.kind
                == ElementKind::Jfet;
            let (c, f) = (n[0] as int, n[2] as int);
            if transistor && !(e.role is Power) && n.len() >= 3 && c != f {
                &&& facings[i] == Some((0usize, 2usize)) <==> reaches_sooner(
                    checked,
                    VertPref::Up,
                    (i, i),
                    c,
                    f,
                ) && reaches_sooner(checked, VertPref::Down, (i, i), f, c)
                &&& facings[i] == Some((2usize, 0usize)) <==> reaches_sooner(
                    checked,
                    VertPref::Up,
                    (i, i),
                    f,
                    c,
                ) && reaches_sooner(checked, VertPref::Down, (i, i), c, f)
                &&& facings[i] is None || facings[i] == Some((0usize, 2usize)) || facings[i] == Some(
                    (2usize, 0usize),
                )
            } else {
                facings[i] is None
            }
        }),
{
    let e = checked.elements@[i];
    let n = e.nodes@;
    assert(nets_in_range(checked.elements@[i].nodes@, checked.nets@.len()));
    if n.len() >= 3 {
        let (c, f) = (n[0] as int, n[2] as int);
        nearer_is_sooner(checked, VertPref::Up, (i, i), c, f);
        nearer_is_sooner(checked, VertPref::Up, (i, i), f, c);
        nearer_is_sooner(checked, VertPref::Down, (i, i), c, f);
        nearer_is_sooner(checked, VertPref::Down, (i, i), f, c);
    }
}

/// The higher of two nets is the one that DC reaches sooner from an upper rail
/// and later from a lower one.
pub proof fn higher_nets_are_between_the_rails(
    checked: &CheckedNetlist,
    skip: (int, int),
    a: int,
    b: int,
)
    requires
        0 <= a < checked.nets@.len() <= usize::MAX,
        0 <= b < checked.nets@.len(),
    ensures
        higher_of(checked, skip, a, b) == Some(true) <==> reaches_sooner(
            checked,
            VertPref::Up,
            skip,
            a,
            b,
        ) && reaches_sooner(checked, VertPref::Down, skip, b, a),
        higher_of(checked, skip, a, b) == Some(false) <==> reaches_sooner(
            checked,
            VertPref::Up,
            skip,
            b,
            a,
        ) && reaches_sooner(checked, VertPref::Down, skip, a, b),
{
    nearer_is_sooner(checked, VertPref::Up, skip, a, b);
    nearer_is_sooner(checked, VertPref::Up, skip, b, a);
    nearer_is_sooner(checked, VertPref::Down, skip, a, b);
    nearer_is_sooner(checked, VertPref::Down, skip, b, a);
}

} // verus!
