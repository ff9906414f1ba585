//! Where the pins of a placed element are on the sheet.

use vstd::prelude::*;

#[allow(unused_imports)]
use crate::extent::round_div;
use crate::netlist::{CheckedNetlist, ResolvedElement};
use crate::placement::{GridPoint, Placement, GRID_STEP};
#[allow(unused_imports)]
use crate::placement::Spot;
use crate::symbol::Orientation;
#[allow(unused_imports)]
use crate::symbol::{in_reach, MAX_REACH};

verus! {

/// The sheet offset, from the element's origin, of the pin on a net in pose
/// `o`. The pin is that of the first terminal on the net.
pub open spec fn pin_offset(e: ResolvedElement, o: Orientation, net: int) -> Option<(int, int)> {
    match e.pin_on(o, net) {
        Some(k) => {
            let p = e.symbol.posed(o).pins@[k];
            Some((p.x as int, -p.y))
        },
        None => None,
    }
}

/// The sheet position of a placed element's pin on a net.
pub open spec fn pin_xy(spot: Spot, e: ResolvedElement, net: int) -> Option<(int, int)> {
    match pin_offset(e, spot.orientation, net) {
        Some(d) => Some((spot.origin.um().0 + d.0, spot.origin.um().1 + d.1)),
        None => None,
    }
}

/// The offset of the pin on a net from the element's origin.
pub fn pin_offset_world(e: &ResolvedElement, o: Orientation, net: usize) -> (r: Option<(i64, i64)>)
    requires
        e.symbol.wf(),
    ensures
        match r {
            Some(d) => {
                &&& pin_offset(*e, o, net as int) == Some((d.0 as int, d.1 as int))
                &&& in_reach(d.0 as int) && in_reach(d.1 as int)
            },
            None => pin_offset(*e, o, net as int) is None,
        },
{
    match e.net_pin(o, net) {
        Some(k) => {
            let pose = e.symbol.pose(o);
            assert(in_reach(pose.pins@[k as int].x as int));
            let p = &pose.pins[k];
            Some((p.x as i64, -(p.y as i64)))
        },
        None => None,
    }
}

/// The sheet position of the pin that an element at the given spot has on a
/// net.
pub fn world_pin_xy(e: &ResolvedElement, origin: GridPoint, o: Orientation, net: usize) -> (r:
    Option<(i64, i64)>)
    requires
        e.symbol.wf(),
    ensures
        match r {
            Some(p) => {
                &&& pin_xy(Spot { origin, orientation: o }, *e, net as int) == Some(
                    (p.0 as int, p.1 as int),
                )
                &&& origin.um().0 - MAX_REACH <= p.0 <= origin.um().0 + MAX_REACH
                &&& origin.um().1 - MAX_REACH <= p.1 <= origin.um().1 + MAX_REACH
            },
            None => pin_xy(Spot { origin, orientation: o }, *e, net as int) is None,
        },
{
    match pin_offset_world(e, o, net) {
        Some((dx, dy)) => {
            let (ox, oy) = origin.to_um();
            Some((ox + dx, oy + dy))
        },
        None => None,
    }
}

/// The sheet position of element `i`'s pin on a net, as placed.
pub fn placed_pin_xy(placement: &Placement, checked: &CheckedNetlist, i: usize, net: usize) -> (r:
    Option<(i64, i64)>)
    requires
        i < placement.elements@.len(),
        i < checked.elements@.len(),
        checked.elements@[i as int].symbol.wf(),
    ensures
        match r {
            Some(p) => {
                let o = placement.spots()[i as int].origin;
                &&& pin_xy(placement.spots()[i as int], checked.elements@[i as int], net as int)
                    == Some((p.0 as int, p.1 as int))
                &&& o.um().0 - MAX_REACH <= p.0 <= o.um().0 + MAX_REACH
                &&& o.um().1 - MAX_REACH <= p.1 <= o.um().1 + MAX_REACH
            },
            None => pin_xy(
                placement.spots()[i as int],
                checked.elements@[i as int],
                net as int,
            ) is None,
        },
{
    world_pin_xy(
        &checked.elements[i],
        placement.elements[i].origin,
        placement.elements[i].orientation,
        net,
    )
}

/// A pin lies in reach of its element's origin.
pub proof fn pin_offset_in_reach(e: ResolvedElement, o: Orientation, net: int)
    requires
        e.symbol.wf(),
    ensures
        pin_offset(e, o, net) matches Some(d) ==> in_reach(d.0) && in_reach(d.1),
{
    crate::symbol::orientation_index_inverse();
    assert(0 <= crate::symbol::orientation_index(o) < 8);
    assert(e.symbol.poses@[crate::symbol::orientation_index(o)].wf());
    match e.pin_on(o, net) {
        Some(k) => {
            crate::netlist::terminal_from_is_first(e.nodes@, net, 0);
            let t = crate::netlist::terminal_from(e.nodes@, net, 0)->0;
            crate::symbol::pin_from_is_first(e.symbol.posed(o).pins@, e.pin_mapping@[t]@, 0);
            assert(in_reach(e.symbol.posed(o).pins@[k].x as int));
        },
        None => {},
    }
}

/// The quotient rounded to the nearest integer, halves away from zero.
pub fn round_quotient(n: i64, d: i64) -> (r: i64)
    requires
        0 < d <= 0x1000_0000_0000_0000,
        -0x1000_0000_0000_0000 <= n <= 0x1000_0000_0000_0000,
    ensures
        r == round_div(n as int, d as int),
{
    if n >= 0 {
        (2 * n + d) / (2 * d)
    } else {
        let q: i64 = (2 * (-n) + d) / (2 * d);
        proof {
            rounding_is_nearest(-n, d as int);
        }
        -q
    }
}

/// Rounding moves a quotient by at most one half.
pub proof fn rounding_is_nearest(n: int, d: int)
    requires
        d > 0,
    ensures
        -d <= 2 * (round_div(n, d) * d - n) <= d,
        n >= 0 ==> 0 <= round_div(n, d) <= n + 1,
        n <= 0 ==> 0 <= -round_div(n, d) <= -n + 1,
{
    let a = if n >= 0 {
        n
    } else {
        -n
    };
    let q = (2 * a + d) / (2 * d);
    let m = (2 * a + d) % (2 * d);
    vstd::arithmetic::div_mod::lemma_fundamental_div_mod(2 * a + d, 2 * d);
    assert(2 * a + d == 2 * (q * d) + m) by (nonlinear_arith)
        requires
            2 * a + d == (2 * d) * q + m,
    ;
    assert(0 <= m < 2 * d);
    assert((-q) * d == -(q * d)) by (nonlinear_arith);
    assert(q >= 0) by (nonlinear_arith)
        requires
            2 * a + d == 2 * (q * d) + m,
            0 <= m < 2 * d,
            a >= 0,
            d > 0,
    ;
    assert(q <= a + 1) by (nonlinear_arith)
        requires
            2 * a + d == 2 * (q * d) + m,
            0 <= m,
            a >= 0,
            d > 0,
            q >= 0,
    ;
    assert(a == 0 ==> q == 0) by (nonlinear_arith)
        requires
            2 * a + d == 2 * (q * d) + m,
            0 <= m,
            d > 0,
            q >= 0,
    ;
}

/// A multiple of the divisor rounds to itself.
pub proof fn exact_quotients_stay(k: int, d: int)
    requires
        d > 0,
    ensures
        round_div(k * d, d) == k,
{
    rounding_is_nearest(k * d, d);
    let r = round_div(k * d, d);
    assert(r == k) by (nonlinear_arith)
        requires
            -d <= 2 * (r * d - k * d) <= d,
            d > 0,
    ;
}

/// The grid origin that brings the pin on a net to a sheet position, to the
/// nearest grid step.
pub open spec fn origin_for_pin(
    e: ResolvedElement,
    o: Orientation,
    net: int,
    target: (int, int),
) -> Option<(int, int)> {
    match pin_offset(e, o, net) {
        Some(d) => Some(
            (
                round_div(target.0 - d.0, GRID_STEP as int),
                round_div(target.1 - d.1, GRID_STEP as int),
            ),
        ),
        None => None,
    }
}

/// The grid origin that brings the pin on a net to a sheet position.
pub fn origin_placing_pin_at(e: &ResolvedElement, o: Orientation, net: usize, target: (i64, i64)) -> (r:
    Option<GridPoint>)
    requires
        e.symbol.wf(),
        -2_700_000_000_000 <= target.0 <= 2_700_000_000_000,
        -2_700_000_000_000 <= target.1 <= 2_700_000_000_000,
    ensures
        match r {
            Some(p) => origin_for_pin(*e, o, net as int, (target.0 as int, target.1 as int))
                == Some((p.x as int, p.y as int)),
            None => origin_for_pin(*e, o, net as int, (target.0 as int, target.1 as int)) is None,
        },
{
    match pin_offset_world(e, o, net) {
        Some((dx, dy)) => {
            let x: i64 = round_quotient(target.0 - dx, GRID_STEP);
            let y: i64 = round_quotient(target.1 - dy, GRID_STEP);
            proof {
                rounding_is_nearest(target.0 - dx, 1270);
                rounding_is_nearest(target.1 - dy, 1270);
            }
            Some(GridPoint::new(x as i32, y as i32))
        },
        None => None,
    }
}

/// When the position that a pin is to be brought to is a whole number of grid
/// steps from where the pin would be at the sheet's origin, the pin lands
/// exactly there.
pub proof fn pins_land_on_target(
    e: ResolvedElement,
    o: Orientation,
    net: int,
    target: (int, int),
    x: int,
    y: int,
)
    requires
        pin_offset(e, o, net) matches Some(d) && target == (x * GRID_STEP + d.0, y * GRID_STEP
            + d.1),
    ensures
        origin_for_pin(e, o, net, target) == Some((x, y)),
{
    exact_quotients_stay(x, GRID_STEP as int);
    exact_quotients_stay(y, GRID_STEP as int);
}

/// The pin on a net belongs to the first terminal on that net and is the one
/// that carries the terminal's number. It is drawn at its own X, and at its Y
/// counted downward.
pub proof fn net_pins_follow_the_terminals(e: ResolvedElement, o: Orientation, net: int, t: int)
    requires
        0 <= t < e.nodes@.len(),
        t < e.pin_mapping@.len(),
        e.nodes@[t] == net,
        forall|u: int| 0 <= u < t ==> #[trigger] e.nodes@[u] != net,
    ensures
        pin_offset(e, o, net) matches Some(d) ==> exists|k: int|
            #![trigger e.symbol.posed(o).pins@[k]]
            {
                &&& 0 <= k < e.symbol.posed(o).pins@.len()
                &&& e.symbol.posed(o).pins@[k].number@ == e.pin_mapping@[t]@
                &&& d.0 == e.symbol.posed(o).pins@[k].x
                &&& d.1 + e.symbol.posed(o).pins@[k].y == 0
            },
        pin_offset(e, o, net) is None ==> forall|k: int|
            0 <= k < e.symbol.posed(o).pins@.len() ==> (
            #[trigger] e.symbol.posed(o).pins@[k]).number@ != e.pin_mapping@[t]@,
{
    crate::netlist::terminal_from_is_first(e.nodes@, net, 0);
    let s = crate::netlist::terminal_from(e.nodes@, net, 0);
    assert(s == Some(t));
    crate::symbol::pin_from_is_first(e.symbol.posed(o).pins@, e.pin_mapping@[t]@, 0);
}

/// A placed pin stands at its offset from the element's origin, which is
/// counted in steps of 1.27 mm. Bringing the pin to a position puts it within
/// half a step of that position both ways.
pub proof fn pins_are_brought_near(
    e: ResolvedElement,
    spot: Spot,
    net: int,
    target: (int, int),
    at: (int, int),
)
    requires
        pin_offset(e, spot.orientation, net) is Some,
        at == (spot.origin.x as int, spot.origin.y as int),
    ensures
        ({
            let d = pin_offset(e, spot.orientation, net)->0;
            &&& pin_xy(spot, e, net) == Some((at.0 * 1270 + d.0, at.1 * 1270 + d.1))
            &&& origin_for_pin(e, spot.orientation, net, target) == Some(at) ==> {
                &&& -635 <= at.0 * 1270 + d.0 - target.0 <= 635
                &&& -635 <= at.1 * 1270 + d.1 - target.1 <= 635
            }
        }),
{
    let d = pin_offset(e, spot.orientation, net)->0;
    rounding_is_nearest(target.0 - d.0, 1270);
    rounding_is_nearest(target.1 - d.1, 1270);
}

} // verus!
