//! Recurring sub-circuits and the constraints that their usual drawing
//! implies.
//!
//! A detector reads the netlist alone and reports element indices. Passes
//! that act on a detection place elements relative to each other and leave
//! everything alone that is pinned already.

use vstd::prelude::*;

#[allow(unused_imports)]
use crate::counting::{count, sum};
#[allow(unused_imports)]
use crate::extent::{
    extent_of, extents_are_limited, vertical_steps, vertical_steps_clear, MIN_CLEARANCE,
};
use crate::extent::{vertical_stride_cells, world_extent};
use crate::net_class::{classify_nets, vertical_prefs, NetClass, NetClassMap, VertPref};
#[allow(unused_imports)]
use crate::net_class::classes_of;
use crate::netlist::{CheckedNetlist, ElementKind, ResolvedElement};
#[allow(unused_imports)]
use crate::netlist::nets_in_range;
use crate::placement::{put_pinned, GridPoint, Placement};
#[allow(unused_imports)]
use crate::placement::{
    layout_of, pins_hold, same_parts, same_parts_trans, spots_within, Layout, Spot, GRID_STEP,
    MAX_COORD,
};
use crate::placer::Placer;
use crate::symbol::Orientation;
#[allow(unused_imports)]
use crate::symbol::orientation_at;

verus! {

/// A resistor, capacitor or inductor with two terminals.
pub open spec fn is_passive(e: ResolvedElement) -> bool {
    e.nodes@.len() == 2 && (e.kind == ElementKind::Resistor || e.kind == ElementKind::Capacitor
        || e.kind == ElementKind::Inductor)
}

/// Whether the element is a two-terminal resistor, capacitor or inductor.
pub fn is_two_terminal_passive(e: &ResolvedElement) -> (r: bool)
    ensures
        r == is_passive(*e),
{
    e.nodes.len() == 2 && (e.kind == ElementKind::Resistor || e.kind == ElementKind::Capacitor
        || e.kind == ElementKind::Inductor)
}

// Dividers.

/// A detected resistor divider: `upper` is drawn above `lower`.
#[derive(Debug, Clone, Copy, PartialEq, Eq, Structural)]
pub struct DividerPair {
    pub upper: usize,
    pub lower: usize,
}

/// A resistor with two terminals.
pub open spec fn is_resistor(e: ResolvedElement) -> bool {
    e.kind == ElementKind::Resistor && e.nodes@.len() == 2
}

/// The terminals of a list that are on the net.
pub open spec fn on_net(nodes: Seq<usize>, net: int) -> spec_fn(int) -> bool {
    |k: int| nodes[k] == net
}

/// The number of terminals of a list that are on the net.
pub open spec fn incidence(nodes: Seq<usize>, net: int) -> int {
    count(on_net(nodes, net), nodes.len() as int) as int
}

/// The terminals of each element on the net.
pub open spec fn element_incidence(checked: &CheckedNetlist, net: int) -> spec_fn(int) -> int {
    |i: int| incidence(checked.elements@[i].nodes@, net)
}

/// The ports of each sheet instance on the net.
pub open spec fn sheet_incidence(checked: &CheckedNetlist, net: int) -> spec_fn(int) -> int {
    |i: int| incidence(checked.sheet_instances@[i].nodes@, net)
}

/// The number of element terminals and sheet ports on the net.
pub open spec fn net_degree(checked: &CheckedNetlist, net: int) -> int {
    sum(element_incidence(checked, net), checked.elements@.len() as int) + sum(
        sheet_incidence(checked, net),
        checked.sheet_instances@.len() as int,
    )
}

/// The resistors with a terminal on the net among the first `n` elements, in
/// element order; a resistor with both terminals on the net occurs twice.
pub open spec fn resistors_at(checked: &CheckedNetlist, net: int, n: int) -> Seq<usize>
    decreases n,
{
    if n <= 0 {
        seq![]
    } else {
        let rest = resistors_at(checked, net, n - 1);
        let e = checked.elements@[n - 1];
        if !is_resistor(e) {
            rest
        } else {
            let one = if e.nodes@[0] == net {
                rest.push((n - 1) as usize)
            } else {
                rest
            };
            if e.nodes@[1] == net {
                one.push((n - 1) as usize)
            } else {
                one
            }
        }
    }
}

/// The one net other than `net` on a list of terminals.
pub open spec fn far_net(nodes: Seq<usize>, net: int) -> Option<usize> {
    if nodes.len() - incidence(nodes, net) == 1 {
        Some(nodes[first_other(nodes, net, 0)])
    } else {
        None
    }
}

/// The first terminal from `k` on that is not on the net.
pub open spec fn first_other(nodes: Seq<usize>, net: int, k: int) -> int
    decreases nodes.len() - k,
{
    if k < 0 || k >= nodes.len() || nodes[k] != net {
        k
    } else {
        first_other(nodes, net, k + 1)
    }
}

/// The net of the one terminal that is not on `net`; none when there is not
/// exactly one such terminal.
pub fn other_net(nodes: &Vec<usize>, net: usize) -> (r: Option<usize>)
    ensures
        r == far_net(nodes@, net as int),
        r matches Some(m) ==> m != net && exists|k: int|
            0 <= k < nodes@.len() && #[trigger] nodes@[k] == m,
{
    let mut found: Option<usize> = None;
    let mut k: usize = 0;
    while k < nodes.len()
        invariant
            k <= nodes@.len(),
            k - count(on_net(nodes@, net as int), k as int) <= 1,
            match found {
                Some(m) => {
                    let at = first_other(nodes@, net as int, 0);
                    &&& k - count(on_net(nodes@, net as int), k as int) == 1
                    &&& 0 <= at < k
                    &&& m == nodes@[at]
                    &&& m != net
                },
                None => {
                    &&& k - count(on_net(nodes@, net as int), k as int) == 0
                    &&& first_other(nodes@, net as int, 0) == first_other(
                        nodes@,
                        net as int,
                        k as int,
                    )
                },
            },
        decreases nodes@.len() - k,
    {
        if nodes[k] != net {
            if found.is_some() {
                proof {
                    others_grow(nodes@, net as int, k + 1, nodes@.len() as int);
                }
                return None;
            }
            found = Some(nodes[k]);
        }
        k = k + 1;
    }
    found
}

proof fn others_grow(nodes: Seq<usize>, net: int, m: int, n: int)
    requires
        0 <= m <= n,
    ensures
        m - count(on_net(nodes, net), m) <= n - count(on_net(nodes, net), n),
    decreases n,
{
    if m < n {
        others_grow(nodes, net, m, n - 1);
    }
}

/// The tap of a divider: with the rail gate a signal net, which under the
/// strict reading nothing but the divider touches; without it a net that
/// exactly two terminals touch.
pub open spec fn is_tap(checked: &CheckedNetlist, placer: Placer, tap: int) -> bool {
    if placer.rail_gated_dividers {
        checked.class_of(tap) == Some(NetClass::Signal) && (placer.divider_tap_must_be_unloaded
            ==> net_degree(checked, tap) == 2)
    } else {
        net_degree(checked, tap) == 2
    }
}

/// The divider around a tap, if there is one: exactly two resistors meet at
/// the tap, and their far nets are different nets. Under the rail gate the
/// far nets are rails of opposite sides and the resistor on the supply is the
/// upper one; else the resistor with the smaller index is.
pub open spec fn divider_at(checked: &CheckedNetlist, placer: Placer, tap: int) -> Option<
    DividerPair,
> {
    let rs = resistors_at(checked, tap, checked.elements@.len() as int);
    if !is_tap(checked, placer, tap) || rs.len() != 2 {
        None
    } else {
        let (a, b) = (rs[0], rs[1]);
        match (
            far_net(checked.elements@[a as int].nodes@, tap),
            far_net(checked.elements@[b as int].nodes@, tap),
        ) {
            (Some(fa), Some(fb)) => if fa == fb {
                None
            } else if placer.rail_gated_dividers {
                match (checked.vert_pref_of(fa as int), checked.vert_pref_of(fb as int)) {
                    (Some(pa), Some(pb)) => if pa == pb {
                        None
                    } else if pa == VertPref::Up {
                        Some(DividerPair { upper: a, lower: b })
                    } else {
                        Some(DividerPair { upper: b, lower: a })
                    },
                    _ => None,
                }
            } else {
                Some(DividerPair { upper: a, lower: b })
            },
            _ => None,
        }
    }
}

/// The element is in one of the pairs.
pub open spec fn in_pairs(pairs: Seq<DividerPair>, i: usize) -> bool {
    exists|k: int|
        0 <= k < pairs.len() && ((#[trigger] pairs[k]).upper == i || pairs[k].lower == i)
}

/// The dividers taken when the first `n` nets have been tried as taps, in net
/// order: a divider whose resistors are both free is taken.
pub open spec fn dividers_taken(checked: &CheckedNetlist, placer: Placer, n: int) -> Seq<
    DividerPair,
>
    decreases n,
{
    if n <= 0 {
        seq![]
    } else {
        let rest = dividers_taken(checked, placer, n - 1);
        match divider_at(checked, placer, n - 1) {
            Some(p) => if in_pairs(rest, p.upper) || in_pairs(rest, p.lower) {
                rest
            } else {
                rest.push(p)
            },
            None => rest,
        }
    }
}

/// The list holds the dividers of the netlist, ordered by their upper
/// resistor.
pub open spec fn lists_dividers(
    checked: &CheckedNetlist,
    placer: Placer,
    pairs: Seq<DividerPair>,
) -> bool {
    let taken = dividers_taken(checked, placer, checked.nets@.len() as int);
    &&& forall|a: int, b: int|
        0 <= a < b < pairs.len() ==> (#[trigger] pairs[a]).upper < (#[trigger] pairs[b]).upper
    &&& forall|p: DividerPair| #[trigger] pairs.contains(p) <==> taken.contains(p)
}

fn capped_incidence(nodes: &Vec<usize>, net: usize, start: usize) -> (r: usize)
    requires
        start <= 3,
    ensures
        r <= 3,
        r == if start + incidence(nodes@, net as int) < 3 {
            start + incidence(nodes@, net as int)
        } else {
            3
        },
{
    let mut d: usize = start;
    let mut k: usize = 0;
    while k < nodes.len()
        invariant
            k <= nodes@.len(),
            start <= 3,
            d == if start + count(on_net(nodes@, net as int), k as int) < 3 {
                start + count(on_net(nodes@, net as int), k as int)
            } else {
                3
            },
        decreases nodes@.len() - k,
    {
        if nodes[k] == net && d < 3 {
            d = d + 1;
        }
        k = k + 1;
    }
    d
}

/// Whether exactly two terminals touch the net.
fn degree_is_two(checked: &CheckedNetlist, net: usize) -> (r: bool)
    ensures
        r == (net_degree(checked, net as int) == 2),
{
    let mut d: usize = 0;
    let mut i: usize = 0;
    while i < checked.elements.len()
        invariant
            i <= checked.elements@.len(),
            d <= 3,
            sum(element_incidence(checked, net as int), i as int) >= 0,
            d == if sum(element_incidence(checked, net as int), i as int) < 3 {
                sum(element_incidence(checked, net as int), i as int)
            } else {
                3
            },
        decreases checked.elements@.len() - i,
    {
        d = capped_incidence(&checked.elements[i].nodes, net, d);
        i = i + 1;
    }
    let ghost base = sum(element_incidence(checked, net as int), checked.elements@.len() as int);
    let mut j: usize = 0;
    while j < checked.sheet_instances.len()
        invariant
            j <= checked.sheet_instances@.len(),
            d <= 3,
            base >= 0,
            sum(sheet_incidence(checked, net as int), j as int) >= 0,
            d == if base + sum(sheet_incidence(checked, net as int), j as int) < 3 {
                base + sum(sheet_incidence(checked, net as int), j as int)
            } else {
                3
            },
        decreases checked.sheet_instances@.len() - j,
    {
        d = capped_incidence(&checked.sheet_instances[j].nodes, net, d);
        j = j + 1;
    }
    d == 2
}

/// The resistors at a net.
fn resistors_on(checked: &CheckedNetlist, net: usize) -> (r: Vec<usize>)
    ensures
        r@ == resistors_at(checked, net as int, checked.elements@.len() as int),
        forall|k: int|
            0 <= k < r@.len() ==> (#[trigger] r@[k]) < checked.elements@.len() && is_resistor(
                checked.elements@[r@[k] as int],
            ),
{
    let mut out: Vec<usize> = Vec::new();
    let mut i: usize = 0;
    while i < checked.elements.len()
        invariant
            i <= checked.elements@.len(),
            out@ == resistors_at(checked, net as int, i as int),
            forall|k: int|
                0 <= k < out@.len() ==> (#[trigger] out@[k]) < i && is_resistor(
                    checked.elements@[out@[k] as int],
                ),
        decreases checked.elements@.len() - i,
    {
        let e = &checked.elements[i];
        if e.kind == ElementKind::Resistor && e.nodes.len() == 2 {
            if e.nodes[0] == net {
                out.push(i);
            }
            if e.nodes[1] == net {
                out.push(i);
            }
        }
        i = i + 1;
    }
    out
}

/// The divider around a tap.
fn find_divider(
    checked: &CheckedNetlist,
    placer: Placer,
    classes: &NetClassMap,
    prefs: &Vec<Option<VertPref>>,
    tap: usize,
) -> (r: Option<DividerPair>)
    requires
        checked.wf(),
        classes_of(checked, classes),
        prefs@.len() == checked.nets@.len(),
        forall|net: int|
            0 <= net < prefs@.len() ==> #[trigger] prefs@[net] == checked.vert_pref_of(net),
        tap < checked.nets@.len(),
    ensures
        r == divider_at(checked, placer, tap as int),
        r matches Some(p) ==> p.upper < checked.elements@.len() && p.lower < checked.elements@.len(),
{
    if placer.rail_gated_dividers {
        match classes.class[tap] {
            Some(NetClass::Signal) => {},
            _ => {
                return None;
            },
        }
        if placer.divider_tap_must_be_unloaded && !degree_is_two(checked, tap) {
            return None;
        }
    } else if !degree_is_two(checked, tap) {
        return None;
    }
    let rs = resistors_on(checked, tap);
    if rs.len() != 2 {
        return None;
    }
    let a: usize = rs[0];
    let b: usize = rs[1];
    match (
        other_net(&checked.elements[a].nodes, tap),
        other_net(&checked.elements[b].nodes, tap),
    ) {
        (Some(fa), Some(fb)) => {
            if fa == fb {
                return None;
            }
            if placer.rail_gated_dividers {
                assert(nets_in_range(checked.elements@[a as int].nodes@, checked.nets@.len()));
                assert(nets_in_range(checked.elements@[b as int].nodes@, checked.nets@.len()));
                match (prefs[fa], prefs[fb]) {
                    (Some(pa), Some(pb)) => {
                        if pa == pb {
                            None
                        } else if pa == VertPref::Up {
                            Some(DividerPair { upper: a, lower: b })
                        } else {
                            Some(DividerPair { upper: b, lower: a })
                        }
                    },
                    _ => None,
                }
            } else {
                Some(DividerPair { upper: a, lower: b })
            }
        },
        _ => None,
    }
}

/// Detects every resistor divider, ordered by the upper resistor.
pub fn detect_dividers(checked: &CheckedNetlist, placer: Placer) -> (r: Vec<DividerPair>)
    requires
        checked.wf(),
    ensures
        lists_dividers(checked, placer, r@),
        forall|k: int|
            0 <= k < r@.len() ==> (#[trigger] r@[k]).upper < checked.elements@.len() && r@[k].lower
                < checked.elements@.len(),
{
    let classes = classify_nets(checked);
    let prefs = vertical_prefs(checked);
    let n: usize = checked.elements.len();
    let mut partner: Vec<Option<usize>> = Vec::new();
    let mut used: Vec<bool> = Vec::new();
    let mut i: usize = 0;
    while i < n
        invariant
            i <= n,
            partner@.len() == i,
            used@.len() == i,
            forall|k: int| 0 <= k < i ==> #[trigger] partner@[k] is None,
            forall|k: int| 0 <= k < i ==> !(#[trigger] used@[k]),
        decreases n - i,
    {
        partner.push(None);
        used.push(false);
        i = i + 1;
    }
    let mut tap: usize = 0;
    while tap < checked.nets.len()
        invariant
            tap <= checked.nets@.len(),
            n == checked.elements@.len(),
            checked.wf(),
            classes_of(checked, &classes),
            prefs@.len() == checked.nets@.len(),
            forall|net: int|
                0 <= net < prefs@.len() ==> #[trigger] prefs@[net] == checked.vert_pref_of(net),
            partner@.len() == n,
            used@.len() == n,
            forall|k: int|
                0 <= k < n ==> #[trigger] used@[k] == in_pairs(
                    dividers_taken(checked, placer, tap as int),
                    k as usize,
                ),
            forall|k: int|
                0 <= k < n ==> match #[trigger] partner@[k] {
                    Some(l) => l < n && dividers_taken(checked, placer, tap as int).contains(
                        DividerPair { upper: k as usize, lower: l },
                    ),
                    None => true,
                },
            forall|p: DividerPair|
                #[trigger] dividers_taken(checked, placer, tap as int).contains(p) ==> p.upper < n
                    && partner@[p.upper as int] == Some(p.lower),
        decreases checked.nets@.len() - tap,
    {
        let hit = find_divider(checked, placer, &classes, &prefs, tap);
        let ghost before = dividers_taken(checked, placer, tap as int);
        let ghost after = dividers_taken(checked, placer, tap + 1);
        match hit {
            Some(p) => {
                if !used[p.upper] && !used[p.lower] {
                    let ghost old_partner = partner@;
                    used.set(p.upper, true);
                    used.set(p.lower, true);
                    partner.set(p.upper, Some(p.lower));
                    proof {
                        assert(after == before.push(p));
                        assert(after[before.len() as int] == p);
                        assert forall|k: int| 0 <= k < n implies #[trigger] used@[k] == in_pairs(
                            after,
                            k as usize,
                        ) by {
                            if in_pairs(before, k as usize) {
                                let m = choose|m: int|
                                    0 <= m < before.len() && ((#[trigger] before[m]).upper
                                        == k as usize || before[m].lower == k as usize);
                                assert(after[m] == before[m]);
                            }
                            if in_pairs(after, k as usize) {
                                let m = choose|m: int|
                                    0 <= m < after.len() && ((#[trigger] after[m]).upper
                                        == k as usize || after[m].lower == k as usize);
                                if m < before.len() {
                                    assert(before[m] == after[m]);
                                }
                            }
                        }
                        assert forall|q: DividerPair| #[trigger] after.contains(q) implies q.upper
                            < n && partner@[q.upper as int] == Some(q.lower) by {
                            let m = choose|m: int| 0 <= m < after.len() && after[m] == q;
                            if m < before.len() {
                                assert(before[m] == q);
                                assert(before.contains(q));
                                assert(in_pairs(before, q.upper));
                            }
                        }
                        assert forall|k: int| 0 <= k < n implies match #[trigger] partner@[k] {
                            Some(l) => l < n && after.contains(
                                DividerPair { upper: k as usize, lower: l },
                            ),
                            None => true,
                        } by {
                            if k != p.upper {
                                assert(partner@[k] == old_partner[k]);
                                match old_partner[k] {
                                    Some(l) => {
                                        let q = DividerPair { upper: k as usize, lower: l };
                                        assert(before.contains(q));
                                        let m = choose|m: int|
                                            0 <= m < before.len() && before[m] == q;
                                        assert(after[m] == q);
                                    },
                                    None => {},
                                }
                            }
                        }
                    }
                }
            },
            None => {},
        }
        tap = tap + 1;
    }
    let ghost taken = dividers_taken(checked, placer, checked.nets@.len() as int);
    let mut out: Vec<DividerPair> = Vec::new();
    let mut u: usize = 0;
    while u < n
        invariant
            u <= n,
            n == checked.elements@.len(),
            partner@.len() == n,
            taken == dividers_taken(checked, placer, checked.nets@.len() as int),
            forall|k: int|
                0 <= k < n ==> match #[trigger] partner@[k] {
                    Some(l) => l < n && taken.contains(DividerPair { upper: k as usize, lower: l }),
                    None => true,
                },
            forall|p: DividerPair|
                #[trigger] taken.contains(p) ==> p.upper < n && partner@[p.upper as int] == Some(
                    p.lower,
                ),
            forall|k: int|
                0 <= k < out@.len() ==> (#[trigger] out@[k]).upper < u && out@[k].lower < n
                    && taken.contains(out@[k]),
            forall|a: int, b: int|
                0 <= a < b < out@.len() ==> (#[trigger] out@[a]).upper < (
                #[trigger] out@[b]).upper,
            forall|p: DividerPair|
                #[trigger] taken.contains(p) && p.upper < u ==> out@.contains(p),
        decreases n - u,
    {
        let ghost before = out@;
        match partner[u] {
            Some(l) => {
                out.push(DividerPair { upper: u, lower: l });
                proof {
                    assert forall|p: DividerPair| #[trigger]
                        taken.contains(p) && p.upper < u + 1 implies out@.contains(p) by {
                        if p.upper < u {
                            let m = choose|m: int| 0 <= m < before.len() && before[m] == p;
                            assert(out@[m] == p);
                        } else {
                            assert(partner@[p.upper as int] == Some(p.lower));
                            assert(out@[before.len() as int] == p);
                        }
                    }
                }
            },
            None => {
                proof {
                    assert forall|p: DividerPair| #[trigger]
                        taken.contains(p) && p.upper < u + 1 implies out@.contains(p) by {
                        assert(partner@[p.upper as int] == Some(p.lower));
                    }
                }
            },
        }
        u = u + 1;
    }
    proof {
        assert forall|p: DividerPair| #[trigger] out@.contains(p) <==> taken.contains(p) by {
            if out@.contains(p) {
                let m = choose|m: int| 0 <= m < out@.len() && out@[m] == p;
                assert(taken.contains(out@[m]));
            }
        }
    }
    out
}

/// Resistors at a net are elements, and are listed in element order.
proof fn resistors_at_listed(checked: &CheckedNetlist, net: int, n: int)
    requires
        0 <= n <= checked.elements@.len(),
    ensures
        forall|k: int|
            0 <= k < resistors_at(checked, net, n).len() ==> {
                let i = #[trigger] resistors_at(checked, net, n)[k];
                i < n && is_resistor(checked.elements@[i as int]) && checked.touches(i as int, net)
            },
        forall|a: int, b: int|
            0 <= a < b < resistors_at(checked, net, n).len() ==> resistors_at(checked, net, n)[a]
                <= resistors_at(checked, net, n)[b],
    decreases n,
{
    if n > 0 {
        resistors_at_listed(checked, net, n - 1);
        assert(checked.elements@.len() == checked.elements.len());
        let rest = resistors_at(checked, net, n - 1);
        let all = resistors_at(checked, net, n);
        let e = checked.elements@[n - 1];
        assert forall|k: int| 0 <= k < all.len() implies {
            let i = #[trigger] all[k];
            i < n && is_resistor(checked.elements@[i as int]) && checked.touches(i as int, net)
        } by {
            if k < rest.len() {
                assert(all[k] == rest[k]);
            } else {
                assert(e.nodes@[0] == net || e.nodes@[1] == net);
                assert(checked.touches(n - 1, net));
            }
        }
        assert forall|a: int, b: int| 0 <= a < b < all.len() implies all[a] <= all[b] by {
            if b < rest.len() {
                assert(all[a] == rest[a] && all[b] == rest[b]);
            } else if a < rest.len() {
                assert(all[a] == rest[a]);
            }
        }
    }
}

/// A divider consists of two different resistors that meet at the tap.
pub proof fn dividers_are_resistors(checked: &CheckedNetlist, placer: Placer, tap: int)
    requires
        checked.wf(),
    ensures
        divider_at(checked, placer, tap) matches Some(p) ==> {
            &&& p.upper != p.lower
            &&& p.upper < checked.elements@.len() && p.lower < checked.elements@.len()
            &&& is_resistor(checked.elements@[p.upper as int])
            &&& is_resistor(checked.elements@[p.lower as int])
            &&& checked.touches(p.upper as int, tap)
            &&& checked.touches(p.lower as int, tap)
        },
{
    resistors_at_listed(checked, tap, checked.elements@.len() as int);
    match divider_at(checked, placer, tap) {
        Some(p) => {
            let rs = resistors_at(checked, tap, checked.elements@.len() as int);
            let (a, b) = (rs[0], rs[1]);
            if a == b {
                assert(far_net(checked.elements@[a as int].nodes@, tap) == far_net(
                    checked.elements@[b as int].nodes@,
                    tap,
                ));
            }
        },
        None => {},
    }
}

/// No element is in two dividers.
pub proof fn dividers_are_disjoint(checked: &CheckedNetlist, placer: Placer, n: int, a: int, b: int)
    requires
        checked.wf(),
        0 <= a < b < dividers_taken(checked, placer, n).len(),
    ensures
        ({
            let p = dividers_taken(checked, placer, n)[a];
            let q = dividers_taken(checked, placer, n)[b];
            p.upper != q.upper && p.upper != q.lower && p.lower != q.upper && p.lower != q.lower
        }),
    decreases n,
{
    if n > 0 {
        let rest = dividers_taken(checked, placer, n - 1);
        let all = dividers_taken(checked, placer, n);
        if b < rest.len() {
            dividers_are_disjoint(checked, placer, n - 1, a, b);
        } else {
            let p = rest[a];
            assert(all[a] == p);
            assert(in_pairs(rest, p.upper) && in_pairs(rest, p.lower));
        }
    }
}

/// The strict reading of the rail gate only narrows: every divider it finds
/// at a tap is one that the rail gate finds there.
pub proof fn strict_gate_narrows(checked: &CheckedNetlist, placer: Placer, tap: int)
    requires
        placer.rail_gated_dividers,
        placer.divider_tap_must_be_unloaded,
    ensures
        divider_at(checked, placer, tap) matches Some(p) ==> divider_at(
            checked,
            (Placer { divider_tap_must_be_unloaded: false, ..placer }),
            tap,
        ) == Some(p),
{
}

/// The space of an upright symbol without text.
pub open spec fn upright_extent(e: ResolvedElement) -> crate::extent::Bounds {
    extent_of(e.symbol, orientation_at(0), None)
}

/// The layout with `lower` one clear stride below `upper` in its column, both
/// upright and pinned; nothing changes when one of them is pinned already.
pub open spec fn stacked(
    layout: Layout,
    checked: &CheckedNetlist,
    upper: int,
    lower: int,
) -> Layout {
    if layout.pinned[upper] || layout.pinned[lower] {
        layout
    } else {
        let stride = vertical_steps(
            upright_extent(checked.elements@[upper]),
            upright_extent(checked.elements@[lower]),
        );
        let at = layout.spots[upper].origin;
        layout.pin_at(upper, Spot { origin: at, orientation: orientation_at(0) }).pin_at(
            lower,
            Spot {
                origin: GridPoint { x: at.x, y: (at.y + stride) as i32 },
                orientation: orientation_at(0),
            },
        )
    }
}

/// Stacks `lower` one stride below `upper` and pins both, unless one of them
/// is pinned already.
pub fn stack_below(
    placement: &mut Placement,
    pinned: &mut Vec<bool>,
    checked: &CheckedNetlist,
    upper: usize,
    lower: usize,
)
    requires
        checked.drawable(),
        old(placement).elements@.len() == checked.elements@.len(),
        old(pinned)@.len() == checked.elements@.len(),
        upper < checked.elements@.len(),
        lower < checked.elements@.len(),
        !old(pinned)@[upper as int] ==> old(placement).spots()[upper as int].origin.within(
            MAX_COORD as int,
        ),
    ensures
        same_parts(*old(placement), *final(placement)),
        layout_of(*final(placement), *final(pinned)) == stacked(
            layout_of(*old(placement), *old(pinned)),
            checked,
            upper as int,
            lower as int,
        ),
{
    if pinned[upper] || pinned[lower] {
        return ;
    }
    let upright = Orientation::identity();
    assert(checked.elements@[upper as int].symbol.wf());
    assert(checked.elements@[lower as int].symbol.wf());
    let upper_ext = world_extent(&checked.elements[upper].symbol, upright, &None);
    let lower_ext = world_extent(&checked.elements[lower].symbol, upright, &None);
    proof {
        extents_are_limited(checked.elements@[upper as int], upright, None, seq![]);
        extents_are_limited(checked.elements@[lower as int], upright, None, seq![]);
    }
    let stride: i32 = vertical_stride_cells(&upper_ext, &lower_ext);
    let anchor = placement.elements[upper].origin;
    assert(placement.spots()[upper as int].origin == anchor);
    put_pinned(placement, pinned, upper, anchor, upright);
    put_pinned(placement, pinned, lower, GridPoint::new(anchor.x, anchor.y + stride), upright);
}

/// The layout after the first `n` pairs have been stacked.
pub open spec fn stacked_all(
    layout: Layout,
    checked: &CheckedNetlist,
    pairs: Seq<DividerPair>,
    n: int,
) -> Layout
    decreases n,
{
    if n <= 0 {
        layout
    } else {
        stacked(
            stacked_all(layout, checked, pairs, n - 1),
            checked,
            pairs[n - 1].upper as int,
            pairs[n - 1].lower as int,
        )
    }
}

/// A stacked pair stands upright in one column, the lower element far enough
/// below the upper one for their bodies to be clear of each other.
pub proof fn stacked_pairs_line_up(
    layout: Layout,
    checked: &CheckedNetlist,
    upper: int,
    lower: int,
    limit: int,
)
    requires
        checked.drawable(),
        layout.sized(checked.elements@.len() as int),
        0 <= upper < checked.elements@.len(),
        0 <= lower < checked.elements@.len(),
        upper != lower,
        spots_within(layout.spots, limit),
        0 <= limit <= MAX_COORD,
        !layout.pinned[upper],
        !layout.pinned[lower],
    ensures
        ({
            let after = stacked(layout, checked, upper, lower);
            let (a, b) = (after.spots[upper], after.spots[lower]);
            &&& after.pinned[upper] && after.pinned[lower]
            &&& a.orientation == orientation_at(0) && b.orientation == orientation_at(0)
            &&& a.origin == layout.spots[upper].origin
            &&& a.origin.x == b.origin.x
            &&& a.origin.y * GRID_STEP + upright_extent(checked.elements@[upper]).max_y
                + MIN_CLEARANCE <= b.origin.y * GRID_STEP + upright_extent(
                checked.elements@[lower],
            ).min_y
        }),
{
    let (p, q) = (
        upright_extent(checked.elements@[upper]),
        upright_extent(checked.elements@[lower]),
    );
    let at = layout.spots[upper].origin;
    assert(at.within(limit));
    assert(checked.elements@[upper].symbol.wf() && checked.elements@[lower].symbol.wf());
    extents_are_limited(checked.elements@[upper], orientation_at(0), None, seq![]);
    extents_are_limited(checked.elements@[lower], orientation_at(0), None, seq![]);
    vertical_steps_clear(p, q, at.y as int);
}

/// Stacking moves no pinned element, moves no element that it leaves
/// unpinned, and moves none far.
pub proof fn stacking_respects_pins(
    layout: Layout,
    checked: &CheckedNetlist,
    pairs: Seq<DividerPair>,
    n: int,
    limit: int,
)
    requires
        checked.drawable(),
        layout.sized(checked.elements@.len() as int),
        n <= pairs.len(),
        forall|k: int|
            0 <= k < pairs.len() ==> (#[trigger] pairs[k]).upper < checked.elements@.len()
                && pairs[k].lower < checked.elements@.len(),
        spots_within(layout.spots, limit),
        0 <= limit <= MAX_COORD,
    ensures
        ({
            let after = stacked_all(layout, checked, pairs, n);
            &&& after.sized(checked.elements@.len() as int)
            &&& pins_hold(layout, after)
            &&& spots_within(after.spots, limit + 2000)
            &&& forall|i: int|
                0 <= i < after.spots.len() && !(#[trigger] after.pinned[i]) ==> after.spots[i]
                    == layout.spots[i]
        }),
    decreases n,
{
    if n > 0 {
        stacking_respects_pins(layout, checked, pairs, n - 1, limit);
        let before = stacked_all(layout, checked, pairs, n - 1);
        let p = pairs[n - 1];
        assert(before.pinned[p.upper as int] || before.spots[p.upper as int]
            == layout.spots[p.upper as int]);
        assert(layout.spots[p.upper as int].origin.within(limit));
        assert(checked.elements@[p.upper as int].symbol.wf());
        assert(checked.elements@[p.lower as int].symbol.wf());
        extents_are_limited(checked.elements@[p.upper as int], orientation_at(0), None, seq![]);
        extents_are_limited(checked.elements@[p.lower as int], orientation_at(0), None, seq![]);
        let after = stacked_all(layout, checked, pairs, n);
        assert forall|i: int| 0 <= i < after.spots.len() implies (
        #[trigger] after.spots[i]).origin.within(limit + 2000) by {
            assert(before.spots[i].origin.within(limit + 2000));
        }
    } else {
        assert forall|i: int| 0 <= i < layout.spots.len() implies (
        #[trigger] layout.spots[i]).origin.within(limit + 2000) by {
            assert(layout.spots[i].origin.within(limit));
        }
    }
}

/// Stacks every pair of a list, in list order.
pub fn apply(
    placement: &mut Placement,
    pinned: &mut Vec<bool>,
    checked: &CheckedNetlist,
    pairs: &Vec<DividerPair>,
)
    requires
        checked.drawable(),
        old(placement).elements@.len() == checked.elements@.len(),
        old(pinned)@.len() == checked.elements@.len(),
        old(placement).within(MAX_COORD as int),
        forall|k: int|
            0 <= k < pairs@.len() ==> (#[trigger] pairs@[k]).upper < checked.elements@.len()
                && pairs@[k].lower < checked.elements@.len(),
    ensures
        same_parts(*old(placement), *final(placement)),
        layout_of(*final(placement), *final(pinned)) == stacked_all(
            layout_of(*old(placement), *old(pinned)),
            checked,
            pairs@,
            pairs@.len() as int,
        ),
{
    let ghost start = layout_of(*placement, *pinned);
    let mut k: usize = 0;
    while k < pairs.len()
        invariant
            k <= pairs@.len(),
            checked.drawable(),
            same_parts(*old(placement), *placement),
            start.sized(checked.elements@.len() as int),
            spots_within(start.spots, MAX_COORD as int),
            forall|k: int|
                0 <= k < pairs@.len() ==> (#[trigger] pairs@[k]).upper < checked.elements@.len()
                    && pairs@[k].lower < checked.elements@.len(),
            placement.elements@.len() == checked.elements@.len(),
            pinned@.len() == checked.elements@.len(),
            layout_of(*placement, *pinned) == stacked_all(start, checked, pairs@, k as int),
        decreases pairs@.len() - k,
    {
        let p = pairs[k];
        proof {
            stacking_respects_pins(start, checked, pairs@, k as int, MAX_COORD as int);
            let now = layout_of(*placement, *pinned);
            if !now.pinned[p.upper as int] {
                assert(now.spots[p.upper as int] == start.spots[p.upper as int]);
                assert(start.spots[p.upper as int].origin.within(MAX_COORD as int));
            }
        }
        let ghost before = *placement;
        stack_below(placement, pinned, checked, p.upper, p.lower);
        proof {
            same_parts_trans(*old(placement), before, *placement);
        }
        k = k + 1;
    }
}

// Parallel pairs.

/// Two two-terminal passives on the same two nets, `a < b`.
#[derive(Debug, Clone, Copy, PartialEq, Eq, Structural)]
pub struct ParallelPair {
    pub a: usize,
    pub b: usize,
}

/// The element is a two-terminal passive between two different nets.
pub open spec fn bridges(e: ResolvedElement) -> bool {
    is_passive(e) && e.nodes@[0] != e.nodes@[1]
}

/// Both elements are passives between the same two nets.
pub open spec fn in_parallel(a: ResolvedElement, b: ResolvedElement) -> bool {
    &&& bridges(a)
    &&& bridges(b)
    &&& (a.nodes@[0] == b.nodes@[0] && a.nodes@[1] == b.nodes@[1]) || (a.nodes@[0] == b.nodes@[1]
        && a.nodes@[1] == b.nodes@[0])
}

/// The elements in parallel with element `i`.
pub open spec fn parallel_to(checked: &CheckedNetlist, i: int) -> spec_fn(int) -> bool {
    |j: int| in_parallel(checked.elements@[i], checked.elements@[j])
}

/// The first element from `j` on that is in parallel with element `i`.
pub open spec fn next_parallel(checked: &CheckedNetlist, i: int, j: int) -> Option<usize>
    decreases checked.elements@.len() - j,
{
    if j < 0 || j >= checked.elements@.len() {
        None
    } else if parallel_to(checked, i)(j) {
        Some(j as usize)
    } else {
        next_parallel(checked, i, j + 1)
    }
}

/// The later partner of element `i`, if it is the earlier one of a pair:
/// elements in parallel are paired two by two in element order.
pub open spec fn parallel_partner(checked: &CheckedNetlist, i: int) -> Option<usize> {
    if bridges(checked.elements@[i]) && count(parallel_to(checked, i), i) % 2 == 0 {
        next_parallel(checked, i, i + 1)
    } else {
        None
    }
}

/// The pairs whose earlier member is among the first `n` elements, in element
/// order.
pub open spec fn parallel_pairs(checked: &CheckedNetlist, n: int) -> Seq<ParallelPair>
    decreases n,
{
    if n <= 0 {
        seq![]
    } else {
        let rest = parallel_pairs(checked, n - 1);
        match parallel_partner(checked, n - 1) {
            Some(b) => rest.push(ParallelPair { a: (n - 1) as usize, b }),
            None => rest,
        }
    }
}

fn are_parallel(a: &ResolvedElement, b: &ResolvedElement) -> (r: bool)
    ensures
        r == in_parallel(*a, *b),
{
    is_two_terminal_passive(a) && is_two_terminal_passive(b) && a.nodes[0] != a.nodes[1]
        && b.nodes[0] != b.nodes[1] && ((a.nodes[0] == b.nodes[0] && a.nodes[1] == b.nodes[1]) || (
    a.nodes[0] == b.nodes[1] && a.nodes[1] == b.nodes[0]))
}

/// Detects every pair of two-terminal passives in parallel, ordered by the
/// earlier element.
pub fn detect_parallel_pairs(checked: &CheckedNetlist) -> (r: Vec<ParallelPair>)
    ensures
        r@ == parallel_pairs(checked, checked.elements@.len() as int),
{
    let n: usize = checked.elements.len();
    let mut out: Vec<ParallelPair> = Vec::new();
    let mut i: usize = 0;
    while i < n
        invariant
            i <= n,
            n == checked.elements@.len(),
            out@ == parallel_pairs(checked, i as int),
        decreases n - i,
    {
        let e = &checked.elements[i];
        if is_two_terminal_passive(e) && e.nodes[0] != e.nodes[1] {
            let mut even = true;
            let mut j: usize = 0;
            while j < i
                invariant
                    j <= i,
                    i < n,
                    n == checked.elements@.len(),
                    *e == checked.elements@[i as int],
                    even == (count(parallel_to(checked, i as int), j as int) % 2 == 0),
                decreases i - j,
            {
                if are_parallel(e, &checked.elements[j]) {
                    even = !even;
                }
                j = j + 1;
            }
            if even {
                let mut j: usize = i + 1;
                let mut found: Option<usize> = None;
                while j < n && found.is_none()
                    invariant
                        i < j <= n,
                        n == checked.elements@.len(),
                        *e == checked.elements@[i as int],
                        match found {
                            Some(b) => next_parallel(checked, i as int, i + 1) == Some(b),
                            None => next_parallel(checked, i as int, i + 1) == next_parallel(
                                checked,
                                i as int,
                                j as int,
                            ),
                        },
                    decreases n - j + (if found is None { 1int } else { 0 }),
                {
                    if are_parallel(e, &checked.elements[j]) {
                        found = Some(j);
                    } else {
                        j = j + 1;
                    }
                }
                match found {
                    Some(b) => {
                        out.push(ParallelPair { a: i, b });
                    },
                    None => {},
                }
            }
        }
        i = i + 1;
    }
    out
}

proof fn next_parallel_is_first(checked: &CheckedNetlist, i: int, j: int)
    requires
        0 <= j,
    ensures
        match next_parallel(checked, i, j) {
            Some(b) => {
                &&& j <= b < checked.elements@.len()
                &&& in_parallel(checked.elements@[i], checked.elements@[b as int])
                &&& forall|k: int|
                    j <= k < b ==> !in_parallel(
                        checked.elements@[i],
                        #[trigger] checked.elements@[k],
                    )
            },
            None => forall|k: int|
                j <= k < checked.elements@.len() ==> !in_parallel(
                    checked.elements@[i],
                    #[trigger] checked.elements@[k],
                ),
        },
    decreases checked.elements@.len() - j,
{
    assert(checked.elements@.len() == checked.elements.len());
    if j < checked.elements@.len() {
        next_parallel_is_first(checked, i, j + 1);
    }
}

/// Paired elements share both nets, and a pair's later member is never the
/// earlier member of another pair.
pub proof fn parallel_pairs_share_both_nets(checked: &CheckedNetlist, i: int)
    requires
        0 <= i < checked.elements@.len(),
    ensures
        parallel_partner(checked, i) matches Some(b) ==> {
            &&& i < b < checked.elements@.len()
            &&& in_parallel(checked.elements@[i], checked.elements@[b as int])
            &&& parallel_partner(checked, b as int) is None
        },
{
    next_parallel_is_first(checked, i, i + 1);
    match parallel_partner(checked, i) {
        Some(b) => {
            let p = parallel_to(checked, i);
            let q = parallel_to(checked, b as int);
            assert forall|k: int| 0 <= k < b implies #[trigger] p(k) == q(k) by {}
            crate::counting::count_eq(p, q, b as int);
            assert(p(i));
            count_gap(p, i + 1, b as int);
        },
        None => {},
    }
}

proof fn count_gap(p: spec_fn(int) -> bool, m: int, n: int)
    requires
        0 <= m <= n,
        forall|k: int| m <= k < n ==> !#[trigger] p(k),
    ensures
        count(p, n) == count(p, m),
    decreases n,
{
    if m < n {
        count_gap(p, m, n - 1);
        assert(!p(n - 1));
    }
}

// Collector loads.

/// A resistor that hangs off the collector of a transistor.
#[derive(Debug, Clone, Copy, PartialEq, Eq, Structural)]
pub struct CollectorLoad {
    pub resistor: usize,
    pub transistor: usize,
}

/// The first bipolar transistor from `k` on whose collector is on the net.
pub open spec fn collector_owner(checked: &CheckedNetlist, net: int, k: int) -> Option<usize>
    decreases checked.elements@.len() - k,
{
    if k < 0 || k >= checked.elements@.len() {
        None
    } else if checked.elements@[k].kind == ElementKind::Bjt && checked.elements@[k].nodes@.len() > 0
        && checked.elements@[k].nodes@[0] == net {
        Some(k as usize)
    } else {
        collector_owner(checked, net, k + 1)
    }
}

/// The transistor that a resistor loads: exactly one terminal of the resistor
/// is on a collector net, and the transistor is the first that owns it.
pub open spec fn loaded_transistor(checked: &CheckedNetlist, i: int) -> Option<usize> {
    let e = checked.elements@[i];
    if !is_resistor(e) {
        None
    } else {
        match (
            collector_owner(checked, e.nodes@[0] as int, 0),
            collector_owner(checked, e.nodes@[1] as int, 0),
        ) {
            (Some(q), None) => Some(q),
            (None, Some(q)) => Some(q),
            _ => None,
        }
    }
}

/// The collector loads among the first `n` elements, in element order.
pub open spec fn collector_loads(checked: &CheckedNetlist, n: int) -> Seq<CollectorLoad>
    decreases n,
{
    if n <= 0 {
        seq![]
    } else {
        let rest = collector_loads(checked, n - 1);
        match loaded_transistor(checked, n - 1) {
            Some(transistor) => rest.push(
                CollectorLoad { resistor: (n - 1) as usize, transistor },
            ),
            None => rest,
        }
    }
}

fn find_collector(checked: &CheckedNetlist, net: usize) -> (r: Option<usize>)
    ensures
        r == collector_owner(checked, net as int, 0),
{
    let mut k: usize = 0;
    while k < checked.elements.len()
        invariant
            k <= checked.elements@.len(),
            collector_owner(checked, net as int, 0) == collector_owner(
                checked,
                net as int,
                k as int,
            ),
        decreases checked.elements@.len() - k,
    {
        let e = &checked.elements[k];
        if e.kind == ElementKind::Bjt && e.nodes.len() > 0 && e.nodes[0] == net {
            return Some(k);
        }
        k = k + 1;
    }
    None
}

/// Detects every collector load, ordered by the resistor.
pub fn detect_collector_loads(checked: &CheckedNetlist) -> (r: Vec<CollectorLoad>)
    ensures
        r@ == collector_loads(checked, checked.elements@.len() as int),
{
    let mut out: Vec<CollectorLoad> = Vec::new();
    let mut i: usize = 0;
    while i < checked.elements.len()
        invariant
            i <= checked.elements@.len(),
            out@ == collector_loads(checked, i as int),
        decreases checked.elements@.len() - i,
    {
        let e = &checked.elements[i];
        if e.kind == ElementKind::Resistor && e.nodes.len() == 2 {
            match (find_collector(checked, e.nodes[0]), find_collector(checked, e.nodes[1])) {
                (Some(transistor), None) => {
                    out.push(CollectorLoad { resistor: i, transistor });
                },
                (None, Some(transistor)) => {
                    out.push(CollectorLoad { resistor: i, transistor });
                },
                _ => {},
            }
        }
        i = i + 1;
    }
    out
}

// What the idioms are.

/// The element is a resistor with two terminals, one on each of two different
/// nets.
pub open spec fn resistor_between(e: ResolvedElement, a: int, b: int) -> bool {
    &&& e.kind == ElementKind::Resistor
    &&& e.nodes@.len() == 2
    &&& a != b
    &&& e.nodes@[0] == a && e.nodes@[1] == b || e.nodes@[0] == b && e.nodes@[1] == a
}

proof fn far_nets_of_pairs(nodes: Seq<usize>, net: int)
    requires
        nodes.len() == 2,
    ensures
        far_net(nodes, net) == if nodes[0] == net && nodes[1] != net {
            Some(nodes[1])
        } else if nodes[1] == net && nodes[0] != net {
            Some(nodes[0])
        } else {
            None
        },
{
    let p = on_net(nodes, net);
    reveal_with_fuel(count, 4);
    reveal_with_fuel(first_other, 4);
    assert(count(p, 2) == count(p, 1) + if p(1) {
        1nat
    } else {
        0
    });
}

/// A divider hangs between two nets. Its resistors meet at the tap, and their
/// other ends are on two different nets. Under the rail gate the tap is a
/// signal net, the upper resistor ends on a rail that runs along the top and
/// the lower one on a rail that runs along the bottom; without it nothing but
/// the two resistors is on the tap, and the upper one comes first in the
/// netlist.
pub proof fn dividers_hang_between_rails(checked: &CheckedNetlist, placer: Placer, tap: int)
    requires
        checked.wf(),
    ensures
        divider_at(checked, placer, tap) matches Some(p) ==> {
            let (u, l) = (checked.elements@[p.upper as int], checked.elements@[p.lower as int]);
            &&& p.upper < checked.elements@.len() && p.lower < checked.elements@.len()
            &&& exists|a: int, b: int|
                #![trigger resistor_between(u, tap, a), resistor_between(l, tap, b)]
                {
                    &&& resistor_between(u, tap, a)
                    &&& resistor_between(l, tap, b)
                    &&& a != b
                    &&& placer.rail_gated_dividers ==> checked.class_of(tap) == Some(
                        NetClass::Signal,
                    ) && checked.vert_pref_of(a) == Some(VertPref::Up) && checked.vert_pref_of(b)
                        == Some(VertPref::Down)
                }
            &&& !placer.rail_gated_dividers ==> p.upper < p.lower
            &&& !placer.rail_gated_dividers || placer.divider_tap_must_be_unloaded
                ==> net_degree(checked, tap) == 2
        },
{
    dividers_are_resistors(checked, placer, tap);
    resistors_at_listed(checked, tap, checked.elements@.len() as int);
    match divider_at(checked, placer, tap) {
        Some(p) => {
            let rs = resistors_at(checked, tap, checked.elements@.len() as int);
            let (u, l) = (checked.elements@[p.upper as int], checked.elements@[p.lower as int]);
            far_nets_of_pairs(u.nodes@, tap);
            far_nets_of_pairs(l.nodes@, tap);
            let a = far_net(u.nodes@, tap)->0 as int;
            let b = far_net(l.nodes@, tap)->0 as int;
            assert(rs[0] <= rs[1]);
            assert(is_resistor(checked.elements@[rs[0] as int]));
            assert(is_resistor(checked.elements@[rs[1] as int]));
            far_nets_of_pairs(checked.elements@[rs[0] as int].nodes@, tap);
            far_nets_of_pairs(checked.elements@[rs[1] as int].nodes@, tap);
            assert(resistor_between(u, tap, a) && resistor_between(l, tap, b));
        },
        None => {},
    }
}

proof fn two_resistors_at(checked: &CheckedNetlist, net: int, n: int, i: int, j: int)
    requires
        0 <= n <= checked.elements@.len() <= usize::MAX,
        0 <= i < j < checked.elements@.len(),
        exists|a: int| #[trigger] resistor_between(checked.elements@[i], net, a),
        exists|b: int| #[trigger] resistor_between(checked.elements@[j], net, b),
        forall|k: int|
            0 <= k < checked.elements@.len() && k != i && k != j && is_resistor(
                #[trigger] checked.elements@[k],
            ) ==> checked.elements@[k].nodes@[0] != net && checked.elements@[k].nodes@[1] != net,
    ensures
        resistors_at(checked, net, n) == if n <= i {
            Seq::<usize>::empty()
        } else if n <= j {
            seq![i as usize]
        } else {
            seq![i as usize, j as usize]
        },
    decreases n,
{
    if n > 0 {
        two_resistors_at(checked, net, n - 1, i, j);
        let e = checked.elements@[n - 1];
        assert(resistors_at(checked, net, n) =~= if n <= i {
            Seq::<usize>::empty()
        } else if n <= j {
            seq![i as usize]
        } else {
            seq![i as usize, j as usize]
        });
    }
}

/// Every divider is found: where exactly two resistors meet at a net that may
/// be a tap and their other ends are on different nets, which under the rail
/// gate are rails of opposite sides, there is a divider of the two.
pub proof fn meeting_resistors_are_dividers(
    checked: &CheckedNetlist,
    placer: Placer,
    tap: int,
    i: int,
    j: int,
    a: int,
    b: int,
)
    requires
        checked.elements@.len() <= usize::MAX,
        0 <= i < j < checked.elements@.len(),
        resistor_between(checked.elements@[i], tap, a),
        resistor_between(checked.elements@[j], tap, b),
        a != b,
        forall|k: int|
            0 <= k < checked.elements@.len() && k != i && k != j && is_resistor(
                #[trigger] checked.elements@[k],
            ) ==> checked.elements@[k].nodes@[0] != tap && checked.elements@[k].nodes@[1] != tap,
        placer.rail_gated_dividers ==> checked.class_of(tap) == Some(NetClass::Signal),
        !placer.rail_gated_dividers || placer.divider_tap_must_be_unloaded ==> net_degree(
            checked,
            tap,
        ) == 2,
        placer.rail_gated_dividers ==> checked.vert_pref_of(a) == Some(VertPref::Up)
            && checked.vert_pref_of(b) == Some(VertPref::Down) || checked.vert_pref_of(a) == Some(
            VertPref::Down,
        ) && checked.vert_pref_of(b) == Some(VertPref::Up),
    ensures
        divider_at(checked, placer, tap) == Some(
            if placer.rail_gated_dividers && checked.vert_pref_of(a) == Some(VertPref::Down) {
                DividerPair { upper: j as usize, lower: i as usize }
            } else {
                DividerPair { upper: i as usize, lower: j as usize }
            },
        ),
{
    two_resistors_at(checked, tap, checked.elements@.len() as int, i, j);
    far_nets_of_pairs(checked.elements@[i].nodes@, tap);
    far_nets_of_pairs(checked.elements@[j].nodes@, tap);
}

/// A parallel pair is two resistors, capacitors or inductors of two terminals
/// across the same two nets, which are different.
pub proof fn parallel_pairs_bridge_the_same_nets(a: ResolvedElement, b: ResolvedElement)
    ensures
        in_parallel(a, b) <==> ({
            let passive = |k: ElementKind|
                k == ElementKind::Resistor || k == ElementKind::Capacitor || k
                    == ElementKind::Inductor;
            &&& passive(a.kind) && passive(b.kind)
            &&& a.nodes@.len() == 2 && b.nodes@.len() == 2
            &&& a.nodes@[0] != a.nodes@[1]
            &&& a.nodes@ == b.nodes@ || a.nodes@ == seq![b.nodes@[1], b.nodes@[0]]
        }),
{
    if a.nodes@.len() == 2 && b.nodes@.len() == 2 {
        if a.nodes@[0] == b.nodes@[0] && a.nodes@[1] == b.nodes@[1] {
            assert(a.nodes@ =~= b.nodes@);
        }
        if a.nodes@[0] == b.nodes@[1] && a.nodes@[1] == b.nodes@[0] {
            assert(a.nodes@ =~= seq![b.nodes@[1], b.nodes@[0]]);
        }
        if a.nodes@ == seq![b.nodes@[1], b.nodes@[0]] {
            assert(a.nodes@[0] == b.nodes@[1] && a.nodes@[1] == b.nodes@[0]);
        }
    }
}

/// The net is the collector of a bipolar transistor.
pub open spec fn is_collector_net(checked: &CheckedNetlist, net: int) -> bool {
    exists|q: int|
        0 <= q < checked.elements@.len() && (#[trigger] checked.elements@[q]).kind
            == ElementKind::Bjt && checked.elements@[q].nodes@.len() > 0
            && checked.elements@[q].nodes@[0] == net
}

proof fn collector_owner_is_first(checked: &CheckedNetlist, net: int, k: int)
    requires
        0 <= k,
        checked.elements@.len() <= usize::MAX,
    ensures
        match collector_owner(checked, net, k) {
            Some(q) => {
                &&& k <= q < checked.elements@.len()
                &&& checked.elements@[q as int].kind == ElementKind::Bjt
                &&& checked.elements@[q as int].nodes@.len() > 0
                &&& checked.elements@[q as int].nodes@[0] == net
                &&& forall|j: int|
                    k <= j < q ==> !((#[trigger] checked.elements@[j]).kind == ElementKind::Bjt
                        && checked.elements@[j].nodes@.len() > 0 && checked.elements@[j].nodes@[0]
                        == net)
            },
            None => forall|j: int|
                k <= j < checked.elements@.len() ==> !((#[trigger] checked.elements@[j]).kind
                    == ElementKind::Bjt && checked.elements@[j].nodes@.len() > 0
                    && checked.elements@[j].nodes@[0] == net),
        },
    decreases checked.elements@.len() - k,
{
    if k < checked.elements@.len() {
        collector_owner_is_first(checked, net, k + 1);
    }
}

/// A resistor of two terminals loads a transistor exactly if one of its ends,
/// and not the other, is on the collector of a bipolar transistor; it loads the
/// first such transistor.
pub proof fn loads_hang_off_collectors(checked: &CheckedNetlist, i: int)
    requires
        checked.elements@.len() <= usize::MAX,
        0 <= i < checked.elements@.len(),
    ensures
        ({
            let e = checked.elements@[i];
            let n = e.nodes@;
            let resistor = e.kind == ElementKind::Resistor && n.len() == 2;
            &&& loaded_transistor(checked, i) is Some <==> resistor && is_collector_net(
                checked,
                n[0] as int,
            ) != is_collector_net(checked, n[1] as int)
            &&& loaded_transistor(checked, i) matches Some(q) ==> {
                &&& q < checked.elements@.len()
                &&& checked.elements@[q as int].kind == ElementKind::Bjt
                &&& checked.elements@[q as int].nodes@[0] == n[0]
                    || checked.elements@[q as int].nodes@[0] == n[1]
                &&& forall|j: int|
                    0 <= j < q && (#[trigger] checked.elements@[j]).kind == ElementKind::Bjt
                        && checked.elements@[j].nodes@.len() > 0
                        ==> checked.elements@[j].nodes@[0] != checked.elements@[q as int].nodes@[0]
            }
        }),
{
    let n = checked.elements@[i].nodes@;
    if n.len() == 2 {
        collector_owner_is_first(checked, n[0] as int, 0);
        collector_owner_is_first(checked, n[1] as int, 0);
    }
}

} // verus!
