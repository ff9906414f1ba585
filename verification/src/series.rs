//! Series elements: two-terminal elements on the signal path, drawn
//! horizontally with the upstream pin on the left.
//!
//! The pass sets position and pose together and pins what it sets, so it
//! takes no pose that the orientation filters forbid.

use vstd::prelude::*;

use crate::depth::{capped_touches, signal_net_depth};
#[allow(unused_imports)]
use crate::depth::{net_depth, touch_count, touching};
#[allow(unused_imports)]
use crate::extent::{
    extent_of, extents_are_limited, round_div, vertical_steps, vertical_steps_clear, EXTENT_LIMIT,
    MIN_CLEARANCE,
};
use crate::extent::{vertical_stride_cells, world_extent};
#[allow(unused_imports)]
use crate::counting::count;
#[allow(unused_imports)]
use crate::idioms::is_passive;
use crate::idioms::is_two_terminal_passive;
use crate::net_class::{classify_nets, NetClassMap, VertPref};
#[allow(unused_imports)]
use crate::net_class::classes_of;
use crate::netlist::{CheckedNetlist, ResolvedElement};
#[allow(unused_imports)]
use crate::netlist::{nets_in_range, ElementKind};
use crate::pins::{
    origin_placing_pin_at, pin_offset_world, placed_pin_xy, round_quotient, world_pin_xy,
};
#[allow(unused_imports)]
use crate::pins::{origin_for_pin, pin_offset, pin_offset_in_reach, pin_xy, rounding_is_nearest};
use crate::placement::{put_pinned, GridPoint, Placement, GRID_STEP};
#[allow(unused_imports)]
use crate::placement::{
    layout_of, pins_hold, same_parts, same_parts_trans, spots_within, Layout, Spot, MAX_COORD,
    MAX_ELEMENTS,
};
use crate::placer::Placer;
use crate::rail_stub::{detect_rail_stubs, has_side, RailStub};
#[allow(unused_imports)]
use crate::rail_stub::{all_stubs, side_taken, stub_of, stubs_listed};
use crate::symbol::{Orientation, Rotation};
#[allow(unused_imports)]
use crate::symbol::{orientation_at, MAX_REACH};
#[allow(unused_imports)]
use crate::placement::places;

verus! {

/// Steps added below a clear stride, so that the label of the shared node
/// has room, for a stub that drops below the node.
pub const LABEL_MARGIN_DOWN: i32 = 2;

/// The same for a stub that rises above the node.
pub const LABEL_MARGIN_UP: i32 = 3;

/// How a series element is laid out.
#[derive(Debug, Clone, Copy, PartialEq, Eq, Structural)]
pub enum Construction {
    /// The downstream node has stubs on one side, which move onto the
    /// element's downstream pin.
    Recolumn,
    /// One end is a terminal net: the pin at the other end stays where it is.
    TerminalNet,
    /// The downstream node is a divider: the downstream pin moves onto the
    /// divider's column.
    DividerNode,
}

/// The net is an end of the circuit: it carries a declared port, or at most
/// one element is on it.
pub open spec fn is_terminal_net(checked: &CheckedNetlist, net: int) -> bool {
    ||| exists|p: int| 0 <= p < checked.ports@.len() && (#[trigger] checked.ports@[p]).net == net
    ||| touch_count(checked, net) <= 1
}

/// The flow through an element: its upstream and downstream net. The element
/// is a two-terminal passive and no supply, both nets are signals, and their
/// depths differ.
pub open spec fn flow_through(checked: &CheckedNetlist, placer: Placer, i: int) -> Option<
    (int, int),
> {
    let e = checked.elements@[i];
    if !is_passive(e) || e.role.is_power() {
        None
    } else {
        let (a, b) = (e.nodes@[0] as int, e.nodes@[1] as int);
        if a == b || checked.is_rail(a) || checked.is_rail(b) {
            None
        } else {
            match (net_depth(checked, placer, a), net_depth(checked, placer, b)) {
                (Some(x), Some(y)) => if x < y {
                    Some((a, b))
                } else if x > y {
                    Some((b, a))
                } else {
                    None
                },
                _ => None,
            }
        }
    }
}

/// How an element is laid out, by the stubs at its downstream net.
pub open spec fn construction_of(
    checked: &CheckedNetlist,
    placer: Placer,
    up: int,
    down: int,
) -> Option<Construction> {
    let stubs = all_stubs(checked);
    let above = side_taken(stubs, down, VertPref::Up);
    let below = side_taken(stubs, down, VertPref::Down);
    if above && below {
        if placer.divider_node_series {
            Some(Construction::DividerNode)
        } else {
            None
        }
    } else if above || below {
        Some(Construction::Recolumn)
    } else if placer.terminal_net_series && (is_terminal_net(checked, up) || is_terminal_net(
        checked,
        down,
    )) {
        Some(Construction::TerminalNet)
    } else {
        None
    }
}

/// The pose lays a symbol on its side.
pub open spec fn is_sideways(o: Orientation) -> bool {
    o.rotation == Rotation::R90 || o.rotation == Rotation::R270
}

/// Both pins are drawn in all sideways poses among the first `n`.
pub open spec fn drawn_sideways(e: ResolvedElement, up: int, down: int, n: int) -> bool {
    forall|j: int|
        0 <= j < n && is_sideways(#[trigger] orientation_at(j)) ==> pin_offset(
            e,
            orientation_at(j),
            up,
        ) is Some && pin_offset(e, orientation_at(j), down) is Some
}

/// Among the first `n` poses, the sideways one with the upstream pin left of
/// the downstream pin and farthest left; the first of equals.
pub open spec fn best_flow(e: ResolvedElement, up: int, down: int, n: int) -> Option<
    (Orientation, int),
>
    decreases n,
{
    if n <= 0 {
        None
    } else {
        let best = best_flow(e, up, down, n - 1);
        let o = orientation_at(n - 1);
        if !is_sideways(o) {
            best
        } else {
            match (pin_offset(e, o, up), pin_offset(e, o, down)) {
                (Some(u), Some(d)) => if u.0 < d.0 && (best matches Some(b) ==> u.0 < b.1) {
                    Some((o, u.0))
                } else {
                    best
                },
                _ => best,
            }
        }
    }
}

/// The sideways pose that draws the flow from left to right.
pub open spec fn flow_pose(e: ResolvedElement, up: int, down: int) -> Option<Orientation> {
    if drawn_sideways(e, up, down, 8) {
        match best_flow(e, up, down, 8) {
            Some(b) => Some(b.0),
            None => None,
        }
    } else {
        None
    }
}

/// The sideways pose that draws the flow from left to right.
pub fn horizontal_flow_orientation(e: &ResolvedElement, up: usize, down: usize) -> (r: Option<
    Orientation,
>)
    requires
        e.symbol.wf(),
    ensures
        r == flow_pose(*e, up as int, down as int),
{
    let mut best: Option<(Orientation, i64)> = None;
    let mut j: usize = 0;
    while j < 8
        invariant
            j <= 8,
            e.symbol.wf(),
            drawn_sideways(*e, up as int, down as int, j as int),
            match best {
                Some(b) => best_flow(*e, up as int, down as int, j as int) == Some(
                    (b.0, b.1 as int),
                ),
                None => best_flow(*e, up as int, down as int, j as int) is None,
            },
        decreases 8 - j,
    {
        let o = Orientation::nth(j);
        if o.rotation == Rotation::R90 || o.rotation == Rotation::R270 {
            match (pin_offset_world(e, o, up), pin_offset_world(e, o, down)) {
                (Some((ux, _)), Some((dx, _))) => {
                    let better = match best {
                        Some((_, bx)) => ux < bx,
                        None => true,
                    };
                    if ux < dx && better {
                        best = Some((o, ux));
                    }
                },
                _ => {
                    assert(!drawn_sideways(*e, up as int, down as int, 8)) by {
                        assert(is_sideways(orientation_at(j as int)));
                    }
                    return None;
                },
            }
        }
        j = j + 1;
    }
    match best {
        Some((o, _)) => Some(o),
        None => None,
    }
}

/// A flow pose draws the upstream pin left of the downstream pin.
pub proof fn flow_runs_rightward(e: ResolvedElement, up: int, down: int)
    ensures
        flow_pose(e, up, down) matches Some(o) ==> {
            &&& is_sideways(o)
            &&& pin_offset(e, o, up) matches Some(u)
            &&& pin_offset(e, o, down) matches Some(d)
            &&& u.0 < d.0
        },
{
    best_flow_runs(e, up, down, 8);
}

proof fn best_flow_runs(e: ResolvedElement, up: int, down: int, n: int)
    ensures
        best_flow(e, up, down, n) matches Some(b) ==> {
            &&& is_sideways(b.0)
            &&& pin_offset(e, b.0, up) matches Some(u)
            &&& pin_offset(e, b.0, down) matches Some(d)
            &&& u.0 < d.0
            &&& u.0 == b.1
        },
    decreases n,
{
    if n > 0 {
        best_flow_runs(e, up, down, n - 1);
    }
}

/// The angle of a pin that faces a side.
pub open spec fn side_angle(side: VertPref) -> int {
    match side {
        VertPref::Up => 270,
        VertPref::Down => 90,
    }
}

/// The first terminal from `k` on that is not on the net.
pub open spec fn rail_terminal(nodes: Seq<usize>, net: int, k: int) -> Option<int>
    decreases nodes.len() - k,
{
    if k < 0 || k >= nodes.len() {
        None
    } else if nodes[k] != net {
        Some(k)
    } else {
        rail_terminal(nodes, net, k + 1)
    }
}

/// In the pose the pin of terminal `t` faces the side.
pub open spec fn pin_faces(e: ResolvedElement, o: Orientation, t: int, side: VertPref) -> bool {
    e.pin_of(o, t) matches Some(k) && e.symbol.posed(o).pins@[k].angle % 360 == side_angle(side)
}

/// The first upright pose from `j` on in which the pin of terminal `t` faces
/// the side.
pub open spec fn facing_pose(e: ResolvedElement, t: int, side: VertPref, j: int) -> Option<
    Orientation,
>
    decreases 8 - j,
{
    if j < 0 || j >= 8 {
        None
    } else if !is_sideways(orientation_at(j)) && pin_faces(e, orientation_at(j), t, side) {
        Some(orientation_at(j))
    } else {
        facing_pose(e, t, side, j + 1)
    }
}

/// The upright pose in which a stub's rail pin faces its rail.
pub open spec fn rail_facing(e: ResolvedElement, net: int, side: VertPref) -> Option<Orientation> {
    match rail_terminal(e.nodes@, net, 0) {
        Some(t) => facing_pose(e, t, side, 0),
        None => None,
    }
}

/// The upright pose in which a stub's rail pin, the one off the signal net,
/// faces the side on which its rail runs.
pub fn rail_facing_orientation(e: &ResolvedElement, signal_net: usize, side: VertPref) -> (r: Option<
    Orientation,
>)
    requires
        e.symbol.wf(),
    ensures
        r == rail_facing(*e, signal_net as int, side),
{
    let mut t: usize = 0;
    while t < e.nodes.len() && e.nodes[t] == signal_net
        invariant
            t <= e.nodes@.len(),
            rail_terminal(e.nodes@, signal_net as int, 0) == rail_terminal(
                e.nodes@,
                signal_net as int,
                t as int,
            ),
        decreases e.nodes@.len() - t,
    {
        t = t + 1;
    }
    if t >= e.nodes.len() {
        return None;
    }
    let want: u16 = match side {
        VertPref::Up => 270,
        VertPref::Down => 90,
    };
    let mut j: usize = 0;
    while j < 8
        invariant
            j <= 8,
            e.symbol.wf(),
            want == side_angle(side),
            rail_terminal(e.nodes@, signal_net as int, 0) == Some(t as int),
            rail_facing(*e, signal_net as int, side) == facing_pose(*e, t as int, side, j as int),
        decreases 8 - j,
    {
        let o = Orientation::nth(j);
        if o.rotation == Rotation::R0 || o.rotation == Rotation::R180 {
            match e.terminal_pin(o, t) {
                Some(k) => {
                    if e.symbol.pins_in(o)[k].angle % 360 == want {
                        return Some(o);
                    }
                },
                None => {},
            }
        }
        j = j + 1;
    }
    None
}

/// The element may take the pose.
pub open spec fn permits(allowed: Seq<Vec<Orientation>>, i: int, o: Orientation) -> bool {
    0 <= i < allowed.len() && allowed[i]@.contains(o)
}

/// Whether the element may take the pose.
pub fn v14_permits(allowed: &Vec<Vec<Orientation>>, i: usize, o: Orientation) -> (r: bool)
    ensures
        r == permits(allowed@, i as int, o),
{
    if i >= allowed.len() {
        return false;
    }
    let set = &allowed[i];
    let mut k: usize = 0;
    while k < set.len()
        invariant
            i < allowed@.len(),
            *set == allowed@[i as int],
            k <= set@.len(),
            forall|j: int| 0 <= j < k ==> #[trigger] set@[j] != o,
        decreases set@.len() - k,
    {
        if set[k] == o {
            assert(set@[k as int] == o);
            return true;
        }
        k = k + 1;
    }
    false
}

/// The sum of the X of the pins that the first `n` stubs have on the net, and
/// their number.
pub open spec fn stub_pins(
    spots: Seq<Spot>,
    checked: &CheckedNetlist,
    stubs: Seq<RailStub>,
    net: int,
    n: int,
) -> (int, int)
    decreases n,
{
    if n <= 0 {
        (0, 0)
    } else {
        let rest = stub_pins(spots, checked, stubs, net, n - 1);
        let i = stubs[n - 1].element as int;
        if stubs[n - 1].signal_net != net {
            rest
        } else {
            match pin_xy(spots[i], checked.elements@[i], net) {
                Some(p) => (rest.0 + p.0, rest.1 + 1),
                None => rest,
            }
        }
    }
}

/// Element `j` can be driven from the net by the series element: it has three
/// or more terminals, is on the net, and is no stub. Its pin is drawn.
pub open spec fn driven_pin(
    spots: Seq<Spot>,
    checked: &CheckedNetlist,
    net: int,
    series: int,
    j: int,
) -> Option<int> {
    if j == series || checked.elements@[j].nodes@.len() < 3 || stub_of(checked, j) is Some {
        None
    } else {
        match pin_xy(spots[j], checked.elements@[j], net) {
            Some(p) => Some(p.1),
            None => None,
        }
    }
}

/// Among the first `n` elements, the terminal count of the largest element
/// that the net drives, and the Y of its pin; the first of equals.
pub open spec fn wire_y(
    spots: Seq<Spot>,
    checked: &CheckedNetlist,
    net: int,
    series: int,
    n: int,
) -> Option<(int, int)>
    decreases n,
{
    if n <= 0 {
        None
    } else {
        let best = wire_y(spots, checked, net, series, n - 1);
        let size = checked.elements@[n - 1].nodes@.len() as int;
        match driven_pin(spots, checked, net, series, n - 1) {
            Some(y) => if best matches Some(b) && size <= b.0 {
                best
            } else {
                Some((size, y))
            },
            None => best,
        }
    }
}

/// The net whose pin stays in place when one end is terminal: the downstream
/// net when only the upstream one is terminal, else the upstream net.
pub open spec fn held_net(checked: &CheckedNetlist, up: int, down: int) -> int {
    if is_terminal_net(checked, up) && !is_terminal_net(checked, down) {
        down
    } else {
        up
    }
}

/// Where the element's origin goes in the new pose.
pub open spec fn series_origin(
    spots: Seq<Spot>,
    checked: &CheckedNetlist,
    c: Construction,
    up: int,
    down: int,
    i: int,
    o: Orientation,
) -> Option<(int, int)> {
    let e = checked.elements@[i];
    match c {
        Construction::Recolumn => Some((spots[i].origin.x as int, spots[i].origin.y as int)),
        Construction::TerminalNet => {
            let held = held_net(checked, up, down);
            match pin_xy(spots[i], e, held) {
                Some(at) => origin_for_pin(e, o, held, at),
                None => None,
            }
        },
        Construction::DividerNode => {
            let stubs = all_stubs(checked);
            let (total, n) = stub_pins(spots, checked, stubs, down, stubs.len() as int);
            match (
                wire_y(spots, checked, down, i, checked.elements@.len() as int),
                pin_offset(e, o, down),
            ) {
                (Some(w), Some(d)) => if n == 0 {
                    None
                } else {
                    Some(
                        (
                            round_div(total - d.0 * n, GRID_STEP * n),
                            round_div(w.1 - d.1, GRID_STEP as int),
                        ),
                    )
                },
                _ => None,
            }
        },
    }
}

/// The space of an element in a pose.
pub open spec fn bare_extent(e: ResolvedElement, o: Orientation) -> crate::extent::Bounds {
    extent_of(e.symbol, o, None)
}

/// The Y offset of a stub from the series element it is moved onto: a clear
/// stride and the label margin, below for a lower rail and above for an upper.
pub open spec fn stub_drop(
    series: ResolvedElement,
    so: Orientation,
    stub: ResolvedElement,
    o: Orientation,
    side: VertPref,
) -> int {
    match side {
        VertPref::Down => vertical_steps(bare_extent(series, so), bare_extent(stub, o))
            + LABEL_MARGIN_DOWN,
        VertPref::Up => -(vertical_steps(bare_extent(stub, o), bare_extent(series, so))
            + LABEL_MARGIN_UP),
    }
}

/// The layout after the first `n` stubs have been considered for moving onto
/// the column `x` of series element `i`: an unpinned stub on the downstream
/// net moves when it may take the pose that faces its rail, and is pinned.
pub open spec fn recolumned(
    layout: Layout,
    checked: &CheckedNetlist,
    allowed: Seq<Vec<Orientation>>,
    i: int,
    down: int,
    x: int,
    n: int,
) -> Layout
    decreases n,
{
    if n <= 0 {
        layout
    } else {
        let rest = recolumned(layout, checked, allowed, i, down, x, n - 1);
        let s = all_stubs(checked)[n - 1];
        let j = s.element as int;
        let e = checked.elements@[j];
        let o = match rail_facing(e, down, s.side) {
            Some(o) => o,
            None => rest.spots[j].orientation,
        };
        if s.signal_net != down || rest.pinned[j] || !permits(allowed, j, o) {
            rest
        } else {
            let at = rest.spots[i];
            let y = at.origin.y + stub_drop(
                checked.elements@[i],
                at.orientation,
                e,
                o,
                s.side,
            );
            rest.pin_at(
                j,
                Spot { origin: GridPoint { x: x as i32, y: y as i32 }, orientation: o },
            )
        }
    }
}

/// The layout after series element `i` has been handled.
pub open spec fn series_step(
    layout: Layout,
    checked: &CheckedNetlist,
    allowed: Seq<Vec<Orientation>>,
    placer: Placer,
    i: int,
) -> Layout {
    if layout.pinned[i] {
        layout
    } else {
        match flow_through(checked, placer, i) {
            None => layout,
            Some((up, down)) => match (
                construction_of(checked, placer, up, down),
                flow_pose(checked.elements@[i], up, down),
            ) {
                (Some(c), Some(o)) => if !permits(allowed, i, o) {
                    layout
                } else {
                    match series_origin(layout.spots, checked, c, up, down, i, o) {
                        None => layout,
                        Some(at) => {
                            let spot = Spot {
                                origin: GridPoint { x: at.0 as i32, y: at.1 as i32 },
                                orientation: o,
                            };
                            let after = layout.pin_at(i, spot);
                            if c != Construction::Recolumn {
                                after
                            } else {
                                match pin_xy(spot, checked.elements@[i], down) {
                                    Some(p) => recolumned(
                                        after,
                                        checked,
                                        allowed,
                                        i,
                                        down,
                                        round_div(p.0, GRID_STEP as int),
                                        all_stubs(checked).len() as int,
                                    ),
                                    None => after,
                                }
                            }
                        },
                    }
                },
                _ => layout,
            },
        }
    }
}

/// The layout after the first `n` elements have been handled.
pub open spec fn series_laid(
    layout: Layout,
    checked: &CheckedNetlist,
    allowed: Seq<Vec<Orientation>>,
    placer: Placer,
    n: int,
) -> Layout
    decreases n,
{
    if n <= 0 {
        layout
    } else {
        series_step(
            series_laid(layout, checked, allowed, placer, n - 1),
            checked,
            allowed,
            placer,
            n - 1,
        )
    }
}

/// What every state of the pass keeps of element `j`.
pub open spec fn series_item(
    start: Layout,
    now: Layout,
    checked: &CheckedNetlist,
    allowed: Seq<Vec<Orientation>>,
    limit: int,
    j: int,
) -> bool {
    &&& !now.pinned[j] ==> now.spots[j] == start.spots[j]
    &&& now.pinned[j] && !start.pinned[j] ==> permits(allowed, j, now.spots[j].orientation)
    &&& now.spots[j].origin.within(limit + 10000)
    &&& stub_of(checked, j) is Some || checked.elements@[j].nodes@.len() >= 3
        ==> now.spots[j].origin.within(limit + 5000)
}

/// What every state of the pass keeps, relative to the layout it started
/// from: pins hold, unpinned elements have not moved, the elements that other
/// elements are laid out by stay near, all stay in range, and what has been
/// pinned is in a pose that it may take.
pub open spec fn series_state(
    start: Layout,
    now: Layout,
    checked: &CheckedNetlist,
    allowed: Seq<Vec<Orientation>>,
    limit: int,
) -> bool {
    &&& now.sized(checked.elements@.len() as int)
    &&& pins_hold(start, now)
    &&& forall|j: int|
        0 <= j < now.spots.len() ==> #[trigger] series_item(
            start,
            now,
            checked,
            allowed,
            limit,
            j,
        )
}

/// Moving stubs onto a series element keeps the state.
proof fn recolumn_keeps(
    start: Layout,
    layout: Layout,
    checked: &CheckedNetlist,
    allowed: Seq<Vec<Orientation>>,
    i: int,
    down: int,
    x: int,
    n: int,
    limit: int,
)
    requires
        checked.drawable(),
        0 <= limit <= MAX_COORD,
        series_state(start, layout, checked, allowed, limit),
        start.sized(checked.elements@.len() as int),
        0 <= i < checked.elements@.len(),
        layout.pinned[i],
        layout.spots[i].origin.within(limit),
        -(limit + 2000) <= x <= limit + 2000,
        0 <= n <= all_stubs(checked).len(),
    ensures
        series_state(
            start,
            recolumned(layout, checked, allowed, i, down, x, n),
            checked,
            allowed,
            limit,
        ),
        recolumned(layout, checked, allowed, i, down, x, n).pinned[i],
        recolumned(layout, checked, allowed, i, down, x, n).spots[i] == layout.spots[i],
    decreases n,
{
    if n > 0 {
        recolumn_keeps(start, layout, checked, allowed, i, down, x, n - 1, limit);
        stubs_listed(checked, checked.elements@.len() as int);
        let rest = recolumned(layout, checked, allowed, i, down, x, n - 1);
        let s = all_stubs(checked)[n - 1];
        let j = s.element as int;
        let e = checked.elements@[j];
        let o = match rail_facing(e, down, s.side) {
            Some(o) => o,
            None => rest.spots[j].orientation,
        };
        assert(e.symbol.wf());
        assert(checked.elements@[i].symbol.wf());
        extents_are_limited(e, o, None, seq![]);
        extents_are_limited(checked.elements@[i], rest.spots[i].orientation, None, seq![]);
        let after = recolumned(layout, checked, allowed, i, down, x, n);
        assert(series_item(start, rest, checked, allowed, limit, j));
        assert forall|k: int| 0 <= k < after.spots.len() implies #[trigger] series_item(
            start,
            after,
            checked,
            allowed,
            limit,
            k,
        ) by {
            assert(series_item(start, rest, checked, allowed, limit, k));
        }
    }
}

/// The stub pins that a divider column is taken from are not far.
proof fn stub_pins_bound(
    spots: Seq<Spot>,
    checked: &CheckedNetlist,
    net: int,
    n: int,
    limit: int,
)
    requires
        checked.drawable(),
        spots.len() == checked.elements@.len(),
        0 <= n <= all_stubs(checked).len(),
        0 <= limit,
        forall|j: int|
            0 <= j < spots.len() && stub_of(checked, j) is Some ==> (
            #[trigger] spots[j]).origin.within(limit),
    ensures
        ({
            let (total, c) = stub_pins(spots, checked, all_stubs(checked), net, n);
            let reach = limit * GRID_STEP + MAX_REACH;
            &&& 0 <= c <= n
            &&& -(c * reach) <= total <= c * reach
        }),
    decreases n,
{
    if n > 0 {
        stub_pins_bound(spots, checked, net, n - 1, limit);
        stubs_listed(checked, checked.elements@.len() as int);
        let (total, c) = stub_pins(spots, checked, all_stubs(checked), net, n - 1);
        let reach = limit * GRID_STEP + MAX_REACH;
        let j = all_stubs(checked)[n - 1].element as int;
        assert(checked.elements@[j].symbol.wf());
        assert(spots[j].origin.within(limit));
        pin_offset_in_reach(checked.elements@[j], spots[j].orientation, net);
        assert((c + 1) * reach == c * reach + reach) by (nonlinear_arith);
        assert(-(limit * GRID_STEP) <= spots[j].origin.x * GRID_STEP <= limit * GRID_STEP)
            by (nonlinear_arith)
            requires
                -limit <= spots[j].origin.x <= limit,
                GRID_STEP == 1270,
        ;
    }
}

/// The wire's Y is that of a pin that is not far.
proof fn wire_y_bound(
    spots: Seq<Spot>,
    checked: &CheckedNetlist,
    net: int,
    series: int,
    n: int,
    limit: int,
)
    requires
        checked.drawable(),
        spots.len() == checked.elements@.len(),
        0 <= n <= spots.len(),
        0 <= limit,
        forall|j: int|
            0 <= j < spots.len() && checked.elements@[j].nodes@.len() >= 3 ==> (
            #[trigger] spots[j]).origin.within(limit),
    ensures
        wire_y(spots, checked, net, series, n) matches Some(w) ==> -(limit * GRID_STEP + MAX_REACH)
            <= w.1 <= limit * GRID_STEP + MAX_REACH,
    decreases n,
{
    if n > 0 {
        wire_y_bound(spots, checked, net, series, n - 1, limit);
        let j = n - 1;
        if checked.elements@[j].nodes@.len() >= 3 {
            assert(checked.elements@[j].symbol.wf());
            assert(spots[j].origin.within(limit));
            pin_offset_in_reach(checked.elements@[j], spots[j].orientation, net);
            assert(-(limit * GRID_STEP) <= spots[j].origin.y * GRID_STEP <= limit * GRID_STEP)
                by (nonlinear_arith)
                requires
                    -limit <= spots[j].origin.y <= limit,
                    GRID_STEP == 1270,
            ;
        }
    }
}

/// Rounding a length that is not far gives an origin that is not far.
proof fn rounded_within(m: int, limit: int, slack: int)
    requires
        0 <= limit,
        -(limit * 1270 + slack) <= m <= limit * 1270 + slack,
        0 <= slack <= 3_000_000,
    ensures
        -(limit + 2400) <= round_div(m, GRID_STEP as int) <= limit + 2400,
{
    rounding_is_nearest(m, 1270);
}

/// The new origin of a series element is not far.
proof fn series_origin_within(
    start: Layout,
    now: Layout,
    checked: &CheckedNetlist,
    allowed: Seq<Vec<Orientation>>,
    c: Construction,
    up: int,
    down: int,
    i: int,
    o: Orientation,
    limit: int,
)
    requires
        checked.drawable(),
        0 <= limit <= MAX_COORD,
        start.sized(checked.elements@.len() as int),
        spots_within(start.spots, limit),
        series_state(start, now, checked, allowed, limit),
        0 <= i < checked.elements@.len(),
        !now.pinned[i],
    ensures
        series_origin(now.spots, checked, c, up, down, i, o) matches Some(at) ==> {
            &&& -(limit + 10000) <= at.0 <= limit + 10000
            &&& -(limit + 10000) <= at.1 <= limit + 10000
            &&& c == Construction::Recolumn ==> -limit <= at.0 <= limit && -limit <= at.1 <= limit
        },
{
    assert(series_item(start, now, checked, allowed, limit, i));
    assert(start.spots[i].origin.within(limit));
    let e = checked.elements@[i];
    assert(e.symbol.wf());
    let near = limit + 5000;
    assert forall|j: int|
        0 <= j < now.spots.len() && (stub_of(checked, j) is Some || checked.elements@[j].nodes@.len()
            >= 3) implies (#[trigger] now.spots[j]).origin.within(near) by {
        assert(series_item(start, now, checked, allowed, limit, j));
    }
    match c {
        Construction::Recolumn => {},
        Construction::TerminalNet => {
            let held = held_net(checked, up, down);
            pin_offset_in_reach(e, now.spots[i].orientation, held);
            pin_offset_in_reach(e, o, held);
            match pin_xy(now.spots[i], e, held) {
                Some(at) => match pin_offset(e, o, held) {
                    Some(d) => {
                        rounded_within(at.0 - d.0, limit, 2_000_000);
                        rounded_within(at.1 - d.1, limit, 2_000_000);
                    },
                    None => {},
                },
                None => {},
            }
        },
        Construction::DividerNode => {
            let stubs = all_stubs(checked);
            let (total, n) = stub_pins(now.spots, checked, stubs, down, stubs.len() as int);
            stub_pins_bound(now.spots, checked, down, stubs.len() as int, near);
            wire_y_bound(now.spots, checked, down, i, checked.elements@.len() as int, near);
            pin_offset_in_reach(e, o, down);
            match (
                wire_y(now.spots, checked, down, i, checked.elements@.len() as int),
                pin_offset(e, o, down),
            ) {
                (Some(w), Some(d)) => {
                    rounded_within(w.1 - d.1, near, 2_000_000);
                    if n > 0 {
                        let m = total - d.0 * n;
                        let q = GRID_STEP * n;
                        let r = round_div(m, q);
                        rounding_is_nearest(m, q);
                        let reach = near * 1270 + 1_000_000;
                        assert(-(near + 2000) <= r <= near + 2000) by (nonlinear_arith)
                            requires
                                q == 1270 * n,
                                n > 0,
                                -q <= 2 * (r * q - m) <= q,
                                m == total - d.0 * n,
                                -1_000_000 <= d.0 <= 1_000_000,
                                reach == near * 1270 + 1_000_000,
                                -(n * reach) <= total <= n * reach,
                        ;
                    }
                },
                _ => {},
            }
        },
    }
}

/// Handling one element keeps the state.
proof fn series_keeps(
    start: Layout,
    now: Layout,
    checked: &CheckedNetlist,
    allowed: Seq<Vec<Orientation>>,
    placer: Placer,
    i: int,
    limit: int,
)
    requires
        checked.drawable(),
        0 <= limit <= MAX_COORD,
        start.sized(checked.elements@.len() as int),
        spots_within(start.spots, limit),
        series_state(start, now, checked, allowed, limit),
        0 <= i < checked.elements@.len(),
    ensures
        series_state(
            start,
            series_step(now, checked, allowed, placer, i),
            checked,
            allowed,
            limit,
        ),
{
    if !now.pinned[i] {
        match flow_through(checked, placer, i) {
            None => {},
            Some((up, down)) => match (
                construction_of(checked, placer, up, down),
                flow_pose(checked.elements@[i], up, down),
            ) {
                (Some(c), Some(o)) => {
                    if permits(allowed, i, o) {
                        series_origin_within(
                            start,
                            now,
                            checked,
                            allowed,
                            c,
                            up,
                            down,
                            i,
                            o,
                            limit,
                        );
                        match series_origin(now.spots, checked, c, up, down, i, o) {
                            None => {},
                            Some(at) => {
                                let spot = Spot {
                                    origin: GridPoint { x: at.0 as i32, y: at.1 as i32 },
                                    orientation: o,
                                };
                                let after = now.pin_at(i, spot);
                                let e = checked.elements@[i];
                                crate::net_class::only_rails_have_a_preference(
                                    checked,
                                    e.nodes@[0] as int,
                                );
                                crate::net_class::only_rails_have_a_preference(
                                    checked,
                                    e.nodes@[1] as int,
                                );
                                assert(stub_of(checked, i) is None);
                                assert forall|k: int| 0 <= k < after.spots.len() implies #[trigger] series_item(
                                    start,
                                    after,
                                    checked,
                                    allowed,
                                    limit,
                                    k,
                                ) by {
                                    assert(series_item(start, now, checked, allowed, limit, k));
                                }
                                assert(series_state(start, after, checked, allowed, limit));
                                if c == Construction::Recolumn {
                                    match pin_xy(spot, e, down) {
                                        Some(p) => {
                                            assert(e.symbol.wf());
                                            pin_offset_in_reach(e, o, down);
                                            rounded_within_reach(p.0, limit, at.0);
                                            recolumn_keeps(
                                                start,
                                                after,
                                                checked,
                                                allowed,
                                                i,
                                                down,
                                                round_div(p.0, GRID_STEP as int),
                                                all_stubs(checked).len() as int,
                                                limit,
                                            );
                                        },
                                        None => {},
                                    }
                                }
                            },
                        }
                    }
                },
                _ => {},
            },
        }
    }
}

proof fn rounded_within_reach(m: int, limit: int, x: int)
    requires
        -limit <= x <= limit,
        x * GRID_STEP - MAX_REACH <= m <= x * GRID_STEP + MAX_REACH,
    ensures
        -(limit + 2000) <= round_div(m, GRID_STEP as int) <= limit + 2000,
{
    rounding_is_nearest(m, 1270);
}

/// A stub moved onto a series element drops below it for a lower rail and rises
/// above it for an upper one, and their bodies are clear of each other.
pub proof fn moved_stubs_keep_clear(
    series: ResolvedElement,
    so: Orientation,
    stub: ResolvedElement,
    o: Orientation,
    side: VertPref,
    y: int,
)
    ensures
        ({
            let drop = stub_drop(series, so, stub, o, side);
            let (p, q) = (bare_extent(series, so), bare_extent(stub, o));
            match side {
                VertPref::Down => drop > 0 && y * GRID_STEP + p.max_y + MIN_CLEARANCE <= (y + drop)
                    * GRID_STEP + q.min_y,
                VertPref::Up => drop < 0 && (y + drop) * GRID_STEP + q.max_y + MIN_CLEARANCE <= y
                    * GRID_STEP + p.min_y,
            }
        }),
{
    let (p, q) = (bare_extent(series, so), bare_extent(stub, o));
    let drop = stub_drop(series, so, stub, o, side);
    match side {
        VertPref::Down => {
            let steps = vertical_steps(p, q);
            vertical_steps_clear(p, q, y);
            assert((y + steps) * GRID_STEP <= (y + drop) * GRID_STEP) by (nonlinear_arith)
                requires
                    steps <= drop,
                    GRID_STEP == 1270,
            ;
        },
        VertPref::Up => {
            let steps = vertical_steps(q, p);
            vertical_steps_clear(q, p, y + drop);
            assert((y + drop + steps) * GRID_STEP <= y * GRID_STEP) by (nonlinear_arith)
                requires
                    drop + steps <= 0,
                    GRID_STEP == 1270,
            ;
        },
    }
}

/// The pass moves no pinned element, leaves every element that it does not
/// pin where it was, moves none far, and pins an element only in a pose that
/// it may take.
pub proof fn series_pass_is_safe(
    layout: Layout,
    checked: &CheckedNetlist,
    allowed: Seq<Vec<Orientation>>,
    placer: Placer,
    n: int,
    limit: int,
)
    requires
        checked.drawable(),
        0 <= limit <= MAX_COORD,
        layout.sized(checked.elements@.len() as int),
        spots_within(layout.spots, limit),
        0 <= n <= checked.elements@.len(),
    ensures
        series_state(
            layout,
            series_laid(layout, checked, allowed, placer, n),
            checked,
            allowed,
            limit,
        ),
    decreases n,
{
    if n > 0 {
        series_pass_is_safe(layout, checked, allowed, placer, n - 1, limit);
        series_keeps(
            layout,
            series_laid(layout, checked, allowed, placer, n - 1),
            checked,
            allowed,
            placer,
            n - 1,
            limit,
        );
    } else {
        assert forall|j: int| 0 <= j < layout.spots.len() implies #[trigger] series_item(
            layout,
            layout,
            checked,
            allowed,
            limit,
            j,
        ) by {
            assert(layout.spots[j].origin.within(limit));
        }
    }
}

/// Whether a net is an end of the circuit.
fn terminal_net(checked: &CheckedNetlist, net: usize) -> (r: bool)
    ensures
        r == is_terminal_net(checked, net as int),
{
    let mut p: usize = 0;
    while p < checked.ports.len()
        invariant
            p <= checked.ports@.len(),
            forall|q: int| 0 <= q < p ==> (#[trigger] checked.ports@[q]).net != net,
        decreases checked.ports@.len() - p,
    {
        if checked.ports[p].net == net {
            assert(checked.ports@[p as int].net == net);
            return true;
        }
        p = p + 1;
    }
    capped_touches(checked, net) <= 1
}

/// The mean X of the stub pins on a net, as a sum and a count.
fn stub_column_x(
    placement: &Placement,
    checked: &CheckedNetlist,
    stubs: &Vec<RailStub>,
    net: usize,
) -> (r: (i64, i64))
    requires
        checked.drawable(),
        stubs@ == all_stubs(checked),
        placement.elements@.len() == checked.elements@.len(),
        forall|j: int|
            0 <= j < placement.spots().len() && stub_of(checked, j) is Some ==> (
            #[trigger] placement.spots()[j]).origin.within(MAX_COORD + 5000),
    ensures
        (r.0 as int, r.1 as int) == stub_pins(
            placement.spots(),
            checked,
            stubs@,
            net as int,
            stubs@.len() as int,
        ),
        0 <= r.1 <= MAX_ELEMENTS,
        -96_000_000_000_000_000 <= r.0 <= 96_000_000_000_000_000,
{
    let ghost spots = placement.spots();
    let (mut total, mut n): (i64, i64) = (0, 0);
    proof {
        stubs_listed(checked, checked.elements@.len() as int);
    }
    let mut k: usize = 0;
    while k < stubs.len()
        invariant
            k <= stubs@.len(),
            stubs@.len() <= MAX_ELEMENTS,
            checked.drawable(),
            stubs@ == all_stubs(checked),
            spots == placement.spots(),
            placement.elements@.len() == checked.elements@.len(),
            forall|j: int|
                0 <= j < spots.len() && stub_of(checked, j) is Some ==> (
                #[trigger] spots[j]).origin.within(MAX_COORD + 5000),
            (total as int, n as int) == stub_pins(spots, checked, stubs@, net as int, k as int),
        decreases stubs@.len() - k,
    {
        proof {
            stubs_listed(checked, checked.elements@.len() as int);
            stub_pins_bound(spots, checked, net as int, k as int, MAX_COORD + 5000);
            stub_pins_bound(spots, checked, net as int, k + 1, MAX_COORD + 5000);
            let reach = (MAX_COORD + 5000) * GRID_STEP + MAX_REACH;
            let c = stub_pins(spots, checked, stubs@, net as int, k + 1).1;
            assert(c * reach <= 65536 * reach) by (nonlinear_arith)
                requires
                    c <= 65536,
                    reach >= 0,
            ;
        }
        let s = stubs[k];
        if s.signal_net == net {
            assert(checked.elements@[s.element as int].symbol.wf());
            match placed_pin_xy(placement, checked, s.element, net) {
                Some((x, _)) => {
                    total = total + x;
                    n = n + 1;
                },
                None => {},
            }
        }
        k = k + 1;
    }
    proof {
        stub_pins_bound(spots, checked, net as int, k as int, MAX_COORD + 5000);
        let reach = (MAX_COORD + 5000) * GRID_STEP + MAX_REACH;
        assert(n * reach <= 65536 * reach) by (nonlinear_arith)
            requires
                n <= 65536,
                reach >= 0,
        ;
    }
    (total, n)
}

/// The Y of the wire that the net sends to the largest element it drives.
fn node_outgoing_wire_y(
    placement: &Placement,
    checked: &CheckedNetlist,
    stubs: &Vec<RailStub>,
    net: usize,
    series: usize,
) -> (r: Option<i64>)
    requires
        checked.drawable(),
        stubs@ == all_stubs(checked),
        placement.elements@.len() == checked.elements@.len(),
    ensures
        match r {
            Some(y) => wire_y(
                placement.spots(),
                checked,
                net as int,
                series as int,
                checked.elements@.len() as int,
            ) matches Some(w) && w.1 == y,
            None => wire_y(
                placement.spots(),
                checked,
                net as int,
                series as int,
                checked.elements@.len() as int,
            ) is None,
        },
{
    let ghost spots = placement.spots();
    let mut best: Option<(usize, i64)> = None;
    let mut j: usize = 0;
    while j < checked.elements.len()
        invariant
            j <= checked.elements@.len(),
            checked.drawable(),
            stubs@ == all_stubs(checked),
            spots == placement.spots(),
            placement.elements@.len() == checked.elements@.len(),
            match best {
                Some(b) => wire_y(spots, checked, net as int, series as int, j as int) == Some(
                    (b.0 as int, b.1 as int),
                ),
                None => wire_y(spots, checked, net as int, series as int, j as int) is None,
            },
        decreases checked.elements@.len() - j,
    {
        let size: usize = checked.elements[j].nodes.len();
        if j != series && size >= 3 {
            assert(checked.elements@[j as int].symbol.wf());
            match placed_pin_xy(placement, checked, j, net) {
                Some((_, y)) => {
                    let better = match best {
                        Some((pins, _)) => size > pins,
                        None => true,
                    };
                    if better {
                        best = Some((size, y));
                    }
                },
                None => {},
            }
        }
        j = j + 1;
    }
    match best {
        Some((_, y)) => Some(y),
        None => None,
    }
}

/// Where the element's origin goes in the new pose.
fn series_target(
    placement: &Placement,
    checked: &CheckedNetlist,
    stubs: &Vec<RailStub>,
    c: Construction,
    up: usize,
    down: usize,
    i: usize,
    o: Orientation,
) -> (r: Option<GridPoint>)
    requires
        checked.drawable(),
        stubs@ == all_stubs(checked),
        placement.elements@.len() == checked.elements@.len(),
        i < checked.elements@.len(),
        placement.spots()[i as int].origin.within(MAX_COORD as int),
        forall|j: int|
            0 <= j < placement.spots().len() && (stub_of(checked, j) is Some
                || checked.elements@[j].nodes@.len() >= 3) ==> (
            #[trigger] placement.spots()[j]).origin.within(MAX_COORD + 5000),
        series_origin(placement.spots(), checked, c, up as int, down as int, i as int, o) matches Some(
            at,
        ) ==> -(MAX_COORD + 10000) <= at.0 <= MAX_COORD + 10000 && -(MAX_COORD + 10000) <= at.1
            <= MAX_COORD + 10000,
    ensures
        match r {
            Some(p) => series_origin(
                placement.spots(),
                checked,
                c,
                up as int,
                down as int,
                i as int,
                o,
            ) == Some((p.x as int, p.y as int)),
            None => series_origin(
                placement.spots(),
                checked,
                c,
                up as int,
                down as int,
                i as int,
                o,
            ) is None,
        },
{
    let e = &checked.elements[i];
    assert(checked.elements@[i as int].symbol.wf());
    let ghost spots = placement.spots();
    match c {
        Construction::Recolumn => {
            let at = placement.elements[i].origin;
            assert(spots[i as int].origin == at);
            Some(at)
        },
        Construction::TerminalNet => {
            let held: usize = if terminal_net(checked, up) && !terminal_net(checked, down) {
                down
            } else {
                up
            };
            match placed_pin_xy(placement, checked, i, held) {
                Some(at) => origin_placing_pin_at(e, o, held, at),
                None => None,
            }
        },
        Construction::DividerNode => {
            let (total, n) = stub_column_x(placement, checked, stubs, down);
            if n == 0 {
                return None;
            }
            match node_outgoing_wire_y(placement, checked, stubs, down, i) {
                None => None,
                Some(y) => {
                    match pin_offset_world(e, o, down) {
                        None => None,
                        Some((dx, dy)) => {
                            proof {
                                wire_y_bound(
                                    spots,
                                    checked,
                                    down as int,
                                    i as int,
                                    checked.elements@.len() as int,
                                    MAX_COORD + 5000,
                                );
                                assert(-68_000_000_000 <= dx * n <= 68_000_000_000)
                                    by (nonlinear_arith)
                                    requires
                                        -1_000_000 <= dx <= 1_000_000,
                                        0 <= n <= 65536,
                                ;
                            }
                            let x: i64 = round_quotient(total - dx * n, GRID_STEP * n);
                            let yy: i64 = round_quotient(y - dy, GRID_STEP);
                            Some(GridPoint::new(x as i32, yy as i32))
                        },
                    }
                },
            }
        },
    }
}

/// Moves the stubs on the downstream net onto the series element's column.
fn recolumn(
    placement: &mut Placement,
    pinned: &mut Vec<bool>,
    checked: &CheckedNetlist,
    allowed: &Vec<Vec<Orientation>>,
    stubs: &Vec<RailStub>,
    i: usize,
    down: usize,
    x: i32,
    Ghost(start): Ghost<Layout>,
)
    requires
        checked.drawable(),
        stubs@ == all_stubs(checked),
        old(placement).elements@.len() == checked.elements@.len(),
        old(pinned)@.len() == checked.elements@.len(),
        i < checked.elements@.len(),
        start.sized(checked.elements@.len() as int),
        series_state(
            start,
            layout_of(*old(placement), *old(pinned)),
            checked,
            allowed@,
            MAX_COORD as int,
        ),
        old(pinned)@[i as int],
        old(placement).spots()[i as int].origin.within(MAX_COORD as int),
        -(MAX_COORD + 2000) <= x <= MAX_COORD + 2000,
    ensures
        same_parts(*old(placement), *final(placement)),
        layout_of(*final(placement), *final(pinned)) == recolumned(
            layout_of(*old(placement), *old(pinned)),
            checked,
            allowed@,
            i as int,
            down as int,
            x as int,
            stubs@.len() as int,
        ),
{
    let ghost before = layout_of(*placement, *pinned);
    let at = placement.elements[i].origin;
    let io = placement.elements[i].orientation;
    assert(before.spots[i as int] == Spot { origin: at, orientation: io });
    assert(checked.elements@[i as int].symbol.wf());
    let series_ext = world_extent(&checked.elements[i].symbol, io, &None);
    proof {
        extents_are_limited(checked.elements@[i as int], io, None, seq![]);
    }
    let mut k: usize = 0;
    while k < stubs.len()
        invariant
            k <= stubs@.len(),
            checked.drawable(),
            stubs@ == all_stubs(checked),
            same_parts(*old(placement), *placement),
            placement.elements@.len() == checked.elements@.len(),
            pinned@.len() == checked.elements@.len(),
            i < checked.elements@.len(),
            start.sized(checked.elements@.len() as int),
            series_state(start, before, checked, allowed@, MAX_COORD as int),
            before.pinned[i as int],
            before.spots[i as int] == (Spot { origin: at, orientation: io }),
            at.within(MAX_COORD as int),
            -(MAX_COORD + 2000) <= x <= MAX_COORD + 2000,
            series_ext@ == extent_of(checked.elements@[i as int].symbol, io, None),
            series_ext@.within(EXTENT_LIMIT as int),
            layout_of(*placement, *pinned) == recolumned(
                before,
                checked,
                allowed@,
                i as int,
                down as int,
                x as int,
                k as int,
            ),
        decreases stubs@.len() - k,
    {
        proof {
            stubs_listed(checked, checked.elements@.len() as int);
            recolumn_keeps(
                start,
                before,
                checked,
                allowed@,
                i as int,
                down as int,
                x as int,
                k as int,
                MAX_COORD as int,
            );
        }
        let s = stubs[k];
        let j: usize = s.element;
        if s.signal_net == down && !pinned[j] {
            assert(checked.elements@[j as int].symbol.wf());
            let e = &checked.elements[j];
            let o = match rail_facing_orientation(e, down, s.side) {
                Some(o) => o,
                None => placement.elements[j].orientation,
            };
            assert(placement.spots()[j as int].orientation
                == placement.elements@[j as int].orientation);
            if v14_permits(allowed, j, o) {
                let ext = world_extent(&e.symbol, o, &None);
                proof {
                    extents_are_limited(*e, o, None, seq![]);
                }
                let y: i32 = match s.side {
                    VertPref::Down => {
                        at.y + (vertical_stride_cells(&series_ext, &ext) + LABEL_MARGIN_DOWN)
                    },
                    VertPref::Up => {
                        at.y - (vertical_stride_cells(&ext, &series_ext) + LABEL_MARGIN_UP)
                    },
                };
                let ghost prior = *placement;
                put_pinned(placement, pinned, j, GridPoint::new(x, y), o);
                proof {
                    same_parts_trans(*old(placement), prior, *placement);
                }
            }
        }
        k = k + 1;
    }
}

/// The upstream and downstream net of an element, by the depths of its nets.
fn element_flow(
    checked: &CheckedNetlist,
    classes: &NetClassMap,
    depth: &Vec<Option<u32>>,
    placer: Placer,
    i: usize,
) -> (r: Option<(usize, usize)>)
    requires
        checked.wf(),
        classes_of(checked, classes),
        i < checked.elements@.len(),
        depth@.len() == checked.nets@.len(),
        forall|net: int|
            0 <= net < depth@.len() ==> match #[trigger] depth@[net] {
                Some(d) => net_depth(checked, placer, net) == Some(d as nat),
                None => net_depth(checked, placer, net) is None,
            },
    ensures
        match r {
            Some(f) => flow_through(checked, placer, i as int) == Some((f.0 as int, f.1 as int)),
            None => flow_through(checked, placer, i as int) is None,
        },
{
    let e = &checked.elements[i];
    if !is_two_terminal_passive(e) || e.role.power() {
        return None;
    }
    assert(nets_in_range(checked.elements@[i as int].nodes@, checked.nets@.len()));
    let (a, b) = (e.nodes[0], e.nodes[1]);
    if a == b || classes.is_rail_net(a) || classes.is_rail_net(b) {
        return None;
    }
    match (depth[a], depth[b]) {
        (Some(x), Some(y)) => {
            if x < y {
                Some((a, b))
            } else if x > y {
                Some((b, a))
            } else {
                None
            }
        },
        _ => None,
    }
}

/// How an element is laid out.
fn choose_construction(
    checked: &CheckedNetlist,
    stubs: &Vec<RailStub>,
    placer: Placer,
    up: usize,
    down: usize,
) -> (r: Option<Construction>)
    requires
        stubs@ == all_stubs(checked),
    ensures
        r == construction_of(checked, placer, up as int, down as int),
{
    let above = has_side(stubs, down, VertPref::Up);
    let below = has_side(stubs, down, VertPref::Down);
    if above && below {
        if placer.divider_node_series {
            Some(Construction::DividerNode)
        } else {
            None
        }
    } else if above || below {
        Some(Construction::Recolumn)
    } else if placer.terminal_net_series && (terminal_net(checked, up) || terminal_net(
        checked,
        down,
    )) {
        Some(Construction::TerminalNet)
    } else {
        None
    }
}

/// Lays every unpinned series element on its side, with the flow from left to
/// right, and pins it. The stubs on its downstream net move onto its
/// downstream pin.
pub fn apply_series_horizontal(
    placement: &mut Placement,
    pinned: &mut Vec<bool>,
    checked: &CheckedNetlist,
    allowed: &Vec<Vec<Orientation>>,
    placer: Placer,
)
    requires
        checked.drawable(),
        checked.nets@.len() < u32::MAX,
        places(&*old(placement), checked),
        old(pinned)@.len() == checked.elements@.len(),
        old(placement).within(MAX_COORD as int),
    ensures
        same_parts(*old(placement), *final(placement)),
        layout_of(*final(placement), *final(pinned)) == series_laid(
            layout_of(*old(placement), *old(pinned)),
            checked,
            allowed@,
            placer,
            checked.elements@.len() as int,
        ),
{
    let classes = classify_nets(checked);
    let depth = signal_net_depth(checked, &classes, placer);
    let stubs = detect_rail_stubs(checked);
    let ghost start = layout_of(*placement, *pinned);
    let n: usize = checked.elements.len();
    let mut i: usize = 0;
    while i < n
        invariant
            i <= n,
            n == checked.elements@.len(),
            checked.drawable(),
            classes_of(checked, &classes),
            depth@.len() == checked.nets@.len(),
            forall|net: int|
                0 <= net < depth@.len() ==> match #[trigger] depth@[net] {
                    Some(d) => net_depth(checked, placer, net) == Some(d as nat),
                    None => net_depth(checked, placer, net) is None,
                },
            stubs@ == all_stubs(checked),
            same_parts(*old(placement), *placement),
            placement.elements@.len() == checked.elements@.len(),
            pinned@.len() == checked.elements@.len(),
            start.sized(checked.elements@.len() as int),
            spots_within(start.spots, MAX_COORD as int),
            layout_of(*placement, *pinned) == series_laid(
                start,
                checked,
                allowed@,
                placer,
                i as int,
            ),
        decreases n - i,
    {
        let ghost now = layout_of(*placement, *pinned);
        proof {
            series_pass_is_safe(start, checked, allowed@, placer, i as int, MAX_COORD as int);
        }
        if !pinned[i] {
            assert(checked.elements@[i as int].symbol.wf());
            let flow = element_flow(checked, &classes, &depth, placer, i);
            if let Some((up, down)) = flow {
                let plan = choose_construction(checked, &stubs, placer, up, down);
                let pose = horizontal_flow_orientation(&checked.elements[i], up, down);
                if let (Some(c), Some(o)) = (plan, pose) {
                    if v14_permits(allowed, i, o) {
                        proof {
                            series_origin_within(
                                start,
                                now,
                                checked,
                                allowed@,
                                c,
                                up as int,
                                down as int,
                                i as int,
                                o,
                                MAX_COORD as int,
                            );
                            assert(series_item(
                                start,
                                now,
                                checked,
                                allowed@,
                                MAX_COORD as int,
                                i as int,
                            ));
                            assert(start.spots[i as int].origin.within(MAX_COORD as int));
                            assert forall|j: int|
                                0 <= j < now.spots.len() && (stub_of(checked, j) is Some
                                    || checked.elements@[j].nodes@.len() >= 3) implies (
                            #[trigger] now.spots[j]).origin.within(MAX_COORD + 5000) by {
                                assert(series_item(
                                    start,
                                    now,
                                    checked,
                                    allowed@,
                                    MAX_COORD as int,
                                    j,
                                ));
                            }
                        }
                        let target = series_target(
                            placement,
                            checked,
                            &stubs,
                            c,
                            up,
                            down,
                            i,
                            o,
                        );
                        if let Some(at) = target {
                            let ghost p0 = *placement;
                            put_pinned(placement, pinned, i, at, o);
                            proof {
                                same_parts_trans(*old(placement), p0, *placement);
                            }
                            if c == Construction::Recolumn {
                                let tip = world_pin_xy(&checked.elements[i], at, o, down);
                                if let Some((px, _)) = tip {
                                    let ghost after = layout_of(*placement, *pinned);
                                    proof {
                                        rounded_within_reach(
                                            px as int,
                                            MAX_COORD as int,
                                            at.x as int,
                                        );
                                        pinned_keeps(
                                            start,
                                            now,
                                            checked,
                                            allowed@,
                                            i as int,
                                            Spot { origin: at, orientation: o },
                                            placer,
                                        );
                                    }
                                    let x: i64 = round_quotient(px, GRID_STEP);
                                    let ghost p1 = *placement;
                                    recolumn(
                                        placement,
                                        pinned,
                                        checked,
                                        allowed,
                                        &stubs,
                                        i,
                                        down,
                                        x as i32,
                                        Ghost(start),
                                    );
                                    proof {
                                        same_parts_trans(*old(placement), p1, *placement);
                                    }
                                }
                            }
                        }
                    }
                }
            }
        }
        proof {
            series_pass_is_safe(start, checked, allowed@, placer, i + 1, MAX_COORD as int);
        }
        i = i + 1;
    }
}

/// Pinning a series element near its place in a pose that it may take keeps
/// the state.
proof fn pinned_keeps(
    start: Layout,
    now: Layout,
    checked: &CheckedNetlist,
    allowed: Seq<Vec<Orientation>>,
    i: int,
    spot: Spot,
    placer: Placer,
)
    requires
        checked.drawable(),
        start.sized(checked.elements@.len() as int),
        series_state(start, now, checked, allowed, MAX_COORD as int),
        0 <= i < checked.elements@.len(),
        !now.pinned[i],
        flow_through(checked, placer, i) is Some,
        permits(allowed, i, spot.orientation),
        spot.origin.within(MAX_COORD + 10000),
    ensures
        series_state(start, now.pin_at(i, spot), checked, allowed, MAX_COORD as int),
{
    let after = now.pin_at(i, spot);
    let e = checked.elements@[i];
    crate::net_class::only_rails_have_a_preference(checked, e.nodes@[0] as int);
    crate::net_class::only_rails_have_a_preference(checked, e.nodes@[1] as int);
    assert(stub_of(checked, i) is None);
    assert forall|k: int| 0 <= k < after.spots.len() implies #[trigger] series_item(
        start,
        after,
        checked,
        allowed,
        MAX_COORD as int,
        k,
    ) by {
        assert(series_item(start, now, checked, allowed, MAX_COORD as int, k));
    }
}

/// The flow through an element enters at the net that is fewer steps from the
/// inputs and leaves at the other. Only resistors, capacitors and inductors
/// between two different signal nets have a flow, and each of them has one
/// when the depths of its nets differ.
pub proof fn series_flow_leaves_the_inputs(checked: &CheckedNetlist, placer: Placer, i: int)
    ensures
        ({
            let e = checked.elements@[i];
            let (a, b) = (e.nodes@[0] as int, e.nodes@[1] as int);
            let joins = {
                &&& e.nodes@.len() == 2
                &&& e.role is Normal
                &&& e.kind == ElementKind::Resistor || e.kind == ElementKind::Capacitor || e.kind
                    == ElementKind::Inductor
                &&& a != b
                &&& !checked.is_rail(a)
                &&& !checked.is_rail(b)
            };
            let nearer = |u: int, v: int|
                {
                    &&& net_depth(checked, placer, u) matches Some(x)
                    &&& net_depth(checked, placer, v) matches Some(y)
                    &&& x < y
                };
            match flow_through(checked, placer, i) {
                Some((up, down)) => joins && nearer(up, down) && (up == a && down == b || up == b
                    && down == a),
                None => joins ==> !nearer(a, b) && !nearer(b, a),
            }
        }),
{
}

/// A net is an end of the circuit when a port is on it, or when at most one
/// element is; two elements and no port make it an inner net.
pub proof fn ends_carry_a_port_or_one_element(
    checked: &CheckedNetlist,
    net: int,
    p: int,
    a: int,
    b: int,
)
    requires
        0 <= a < checked.elements@.len(),
        0 <= b < checked.elements@.len(),
    ensures
        0 <= p < checked.ports@.len() && checked.ports@[p].net == net ==> is_terminal_net(
            checked,
            net,
        ),
        (forall|j: int| 0 <= j < checked.elements@.len() && #[trigger] checked.touches(j, net) ==> j == a)
            ==> is_terminal_net(checked, net),
        a != b && checked.touches(a, net) && checked.touches(b, net) && (forall|q: int|
            0 <= q < checked.ports@.len() ==> (#[trigger] checked.ports@[q]).net != net)
            ==> !is_terminal_net(checked, net),
{
    let n = checked.elements@.len() as int;
    let on = touching(checked, net);
    if forall|j: int| 0 <= j < n && #[trigger] checked.touches(j, net) ==> j == a {
        count_at_most_one(on, n, a);
    }
    if a != b && checked.touches(a, net) && checked.touches(b, net) {
        crate::counting::two_are_counted(on, n, a, b);
    }
}

/// A property of one index at most is counted once at most.
proof fn count_at_most_one(p: spec_fn(int) -> bool, n: int, a: int)
    requires
        forall|j: int| 0 <= j < n && #[trigger] p(j) ==> j == a,
    ensures
        count(p, n) <= 1,
        !(0 <= a < n && p(a)) ==> count(p, n) == 0,
    decreases n,
{
    if n > 0 {
        count_at_most_one(p, n - 1, a);
    }
}

/// A stub of the given side hangs on the net.
pub open spec fn hangs_on(checked: &CheckedNetlist, net: int, side: VertPref, k: int) -> bool {
    &&& 0 <= k < all_stubs(checked).len()
    &&& all_stubs(checked)[k].signal_net == net
    &&& all_stubs(checked)[k].side == side
}

/// Stubs on one side only of the downstream net are moved onto the element.
/// Between stubs on both sides the element is laid out as a divider's feed,
/// where the policy has that. Without stubs it is laid out only where the
/// policy has it for the circuit's ends and one of its nets is an end.
pub proof fn stubs_decide_the_construction(
    checked: &CheckedNetlist,
    placer: Placer,
    up: int,
    down: int,
)
    ensures
        ({
            let above = exists|k: int| #[trigger] hangs_on(checked, down, VertPref::Up, k);
            let below = exists|k: int| #[trigger] hangs_on(checked, down, VertPref::Down, k);
            let at_end = is_terminal_net(checked, up) || is_terminal_net(checked, down);
            let c = construction_of(checked, placer, up, down);
            &&& c == Some(Construction::Recolumn) <==> above != below
            &&& c == Some(Construction::DividerNode) <==> above && below
                && placer.divider_node_series
            &&& c == Some(Construction::TerminalNet) <==> !above && !below
                && placer.terminal_net_series && at_end
        }),
{
    let stubs = all_stubs(checked);
    assert(forall|side: VertPref, k: int|
        hangs_on(checked, down, side, k) ==> 0 <= k < stubs.len() && (
        #[trigger] stubs[k]).signal_net == down && #[trigger] hangs_on(checked, down, side, k));
    if side_taken(stubs, down, VertPref::Up) {
        let k = choose|k: int|
            0 <= k < stubs.len() && (#[trigger] stubs[k]).signal_net == down && stubs[k].side
                == VertPref::Up;
        assert(hangs_on(checked, down, VertPref::Up, k));
    }
    if side_taken(stubs, down, VertPref::Down) {
        let k = choose|k: int|
            0 <= k < stubs.len() && (#[trigger] stubs[k]).signal_net == down && stubs[k].side
                == VertPref::Down;
        assert(hangs_on(checked, down, VertPref::Down, k));
    }
}

/// A flow is drawn with the element on its side, from a pin on the left to
/// one on the right, and in no other such pose does it start farther left. If
/// the pins are drawn and some such pose runs rightward, one is taken.
pub proof fn flow_starts_farthest_left(e: ResolvedElement, up: int, down: int, p: Orientation)
    requires
        p.rotation == Rotation::R90 || p.rotation == Rotation::R270,
        pin_offset(e, p, up) matches Some(u) && pin_offset(e, p, down) matches Some(d) && u.0 < d.0,
    ensures
        match flow_pose(e, up, down) {
            Some(o) => {
                &&& o.rotation == Rotation::R90 || o.rotation == Rotation::R270
                &&& (pin_offset(e, o, up)->0).0 < (pin_offset(e, o, down)->0).0
                &&& (pin_offset(e, o, up)->0).0 <= (pin_offset(e, p, up)->0).0
            },
            None => exists|q: Orientation|
                #![trigger pin_offset(e, q, up)]
                (q.rotation == Rotation::R90 || q.rotation == Rotation::R270) && (pin_offset(
                    e,
                    q,
                    up,
                ) is None || pin_offset(e, q, down) is None),
        },
{
    crate::symbol::orientation_index_inverse();
    let j = crate::symbol::orientation_index(p);
    flow_runs_rightward(e, up, down);
    best_flow_is_leftmost(e, up, down, j, 8);
    best_flow_runs(e, up, down, 8);
    if flow_pose(e, up, down) is None {
        let k = choose|k: int|
            0 <= k < 8 && is_sideways(#[trigger] orientation_at(k)) && (pin_offset(
                e,
                orientation_at(k),
                up,
            ) is None || pin_offset(e, orientation_at(k), down) is None);
        let q = orientation_at(k);
        assert(pin_offset(e, q, up) is None || pin_offset(e, q, down) is None);
    }
}

proof fn best_flow_is_leftmost(e: ResolvedElement, up: int, down: int, j: int, n: int)
    requires
        0 <= j < n,
        is_sideways(orientation_at(j)),
        pin_offset(e, orientation_at(j), up) matches Some(u) && pin_offset(
            e,
            orientation_at(j),
            down,
        ) matches Some(d) && u.0 < d.0,
    ensures
        best_flow(e, up, down, n) matches Some(b) && b.1 <= (pin_offset(
            e,
            orientation_at(j),
            up,
        )->0).0,
    decreases n,
{
    if j < n - 1 {
        best_flow_is_leftmost(e, up, down, j, n - 1);
    }
}

/// A stub that is turned to its rail stands upright, its rail pin at 270
/// degrees for a rail above and at 90 for one below. Where it is not turned,
/// no upright pose has the pin so.
pub proof fn stubs_face_their_rails(
    e: ResolvedElement,
    net: int,
    side: VertPref,
    t: int,
    p: Orientation,
)
    requires
        0 <= t < e.nodes@.len(),
        e.nodes@[t] != net,
        forall|u: int| 0 <= u < t ==> #[trigger] e.nodes@[u] == net,
    ensures
        ({
            let points = |o: Orientation|
                {
                    &&& o.rotation == Rotation::R0 || o.rotation == Rotation::R180
                    &&& e.pin_of(o, t) matches Some(k)
                    &&& e.symbol.posed(o).pins@[k].angle % 360 == (if side == VertPref::Up {
                        270int
                    } else {
                        90int
                    })
                };
            match rail_facing(e, net, side) {
                Some(o) => points(o),
                None => !points(p),
            }
        }),
{
    crate::symbol::orientation_index_inverse();
    first_off_net(e.nodes@, net, 0, t);
    first_facing(e, t, side, 0, crate::symbol::orientation_index(p));
}

proof fn first_off_net(nodes: Seq<usize>, net: int, k: int, t: int)
    requires
        0 <= k <= t < nodes.len(),
        nodes[t] != net,
        forall|u: int| k <= u < t ==> #[trigger] nodes[u] == net,
    ensures
        rail_terminal(nodes, net, k) == Some(t),
    decreases t - k,
{
    if k < t {
        first_off_net(nodes, net, k + 1, t);
    }
}

proof fn first_facing(e: ResolvedElement, t: int, side: VertPref, j: int, x: int)
    requires
        0 <= j <= 8,
    ensures
        match facing_pose(e, t, side, j) {
            Some(o) => !is_sideways(o) && pin_faces(e, o, t, side),
            None => j <= x < 8 ==> is_sideways(orientation_at(x)) || !pin_faces(
                e,
                orientation_at(x),
                t,
                side,
            ),
        },
    decreases 8 - j,
{
    if j < 8 {
        first_facing(e, t, side, j + 1, x);
    }
}

/// An element with an end of the circuit on one side keeps the pin on its
/// other side in place, to half a grid step; with ends on both sides it keeps
/// the pin that the flow enters by.
pub proof fn inner_pins_stay(
    spots: Seq<Spot>,
    checked: &CheckedNetlist,
    up: int,
    down: int,
    i: int,
    o: Orientation,
    held: int,
)
    requires
        held == down ==> is_terminal_net(checked, up) && !is_terminal_net(checked, down),
        held == up ==> is_terminal_net(checked, down) || !is_terminal_net(checked, up),
        held == up || held == down,
        up != down,
    ensures
        series_origin(spots, checked, Construction::TerminalNet, up, down, i, o) matches Some(at)
            ==> {
            &&& pin_xy(spots[i], checked.elements@[i], held) matches Some(p)
            &&& pin_offset(checked.elements@[i], o, held) matches Some(d)
            &&& -635 <= at.0 * 1270 + d.0 - p.0 <= 635
            &&& -635 <= at.1 * 1270 + d.1 - p.1 <= 635
        },
{
    match (pin_xy(spots[i], checked.elements@[i], held), pin_offset(checked.elements@[i], o, held)) {
        (Some(p), Some(d)) => {
            rounding_is_nearest(p.0 - d.0, 1270);
            rounding_is_nearest(p.1 - d.1, 1270);
        },
        _ => {},
    }
}

/// An element with stubs on its one side only stays where it is.
pub proof fn recolumned_elements_stay(
    spots: Seq<Spot>,
    checked: &CheckedNetlist,
    up: int,
    down: int,
    i: int,
    o: Orientation,
)
    ensures
        series_origin(spots, checked, Construction::Recolumn, up, down, i, o) == Some(
            (spots[i].origin.x as int, spots[i].origin.y as int),
        ),
{
}

/// Where the stubs of a divider node have their pins in one column, the
/// element that feeds the node gets its pin there, to half a grid step, and
/// at the height of the pin of the largest element that the node drives.
pub proof fn feeds_meet_the_divider(
    spots: Seq<Spot>,
    checked: &CheckedNetlist,
    up: int,
    down: int,
    i: int,
    o: Orientation,
    x: int,
)
    requires
        forall|k: int|
            0 <= k < all_stubs(checked).len() && (#[trigger] all_stubs(checked)[k]).signal_net
                == down ==> (pin_xy(
                spots[all_stubs(checked)[k].element as int],
                checked.elements@[all_stubs(checked)[k].element as int],
                down,
            ) matches Some(p) ==> p.0 == x),
    ensures
        series_origin(spots, checked, Construction::DividerNode, up, down, i, o) matches Some(at)
            ==> {
            &&& pin_offset(checked.elements@[i], o, down) matches Some(d)
            &&& -635 <= at.0 * 1270 + d.0 - x <= 635
            &&& exists|j: int|
                #![trigger spots[j]]
                {
                    &&& 0 <= j < checked.elements@.len() && j != i
                    &&& checked.elements@[j].nodes@.len() >= 3
                    &&& stub_of(checked, j) is None
                    &&& pin_xy(spots[j], checked.elements@[j], down) matches Some(q)
                    &&& -635 <= at.1 * 1270 + d.1 - q.1 <= 635
                    &&& forall|l: int|
                        0 <= l < checked.elements@.len() && l != i && stub_of(checked, l) is None
                            && pin_xy(#[trigger] spots[l], checked.elements@[l], down) is Some
                            ==> checked.elements@[l].nodes@.len()
                            <= checked.elements@[j].nodes@.len()
                }
        },
{
    let e = checked.elements@[i];
    let stubs = all_stubs(checked);
    let m = checked.elements@.len() as int;
    let (total, n) = stub_pins(spots, checked, stubs, down, stubs.len() as int);
    stub_pins_in_column(spots, checked, stubs, down, x, stubs.len() as int);
    match (wire_y(spots, checked, down, i, m), pin_offset(e, o, down)) {
        (Some(w), Some(d)) => {
            if n != 0 {
                let j = wire_y_is_largest(spots, checked, down, i, m);
                rounding_is_nearest(w.1 - d.1, 1270);
                let q = round_div(total - d.0 * n, GRID_STEP * n);
                rounding_is_nearest(total - d.0 * n, 1270 * n);
                assert(-635 <= q * 1270 + d.0 - x <= 635) by (nonlinear_arith)
                    requires
                        n > 0,
                        total == x * n,
                        -(1270 * n) <= 2 * (q * (1270 * n) - (total - d.0 * n)) <= 1270 * n,
                ;
                assert(spots[j] == spots[j]);
            }
        },
        _ => {},
    }
}

proof fn stub_pins_in_column(
    spots: Seq<Spot>,
    checked: &CheckedNetlist,
    stubs: Seq<RailStub>,
    net: int,
    x: int,
    n: int,
)
    requires
        n <= stubs.len(),
        forall|k: int|
            0 <= k < n && (#[trigger] stubs[k]).signal_net == net ==> (pin_xy(
                spots[stubs[k].element as int],
                checked.elements@[stubs[k].element as int],
                net,
            ) matches Some(p) ==> p.0 == x),
    ensures
        stub_pins(spots, checked, stubs, net, n).1 >= 0,
        stub_pins(spots, checked, stubs, net, n).0 == x * stub_pins(spots, checked, stubs, net, n).1,
    decreases n,
{
    if n > 0 {
        stub_pins_in_column(spots, checked, stubs, net, x, n - 1);
        let c = stub_pins(spots, checked, stubs, net, n - 1).1;
        assert(stubs[n - 1] == stubs[n - 1]);
        assert(x * (c + 1) == x * c + x) by (nonlinear_arith);
    }
}

proof fn wire_y_is_largest(
    spots: Seq<Spot>,
    checked: &CheckedNetlist,
    net: int,
    series: int,
    n: int,
) -> (j: int)
    ensures
        match wire_y(spots, checked, net, series, n) {
            Some(w) => {
                &&& 0 <= j < n && j != series
                &&& w.0 == checked.elements@[j].nodes@.len() >= 3
                &&& stub_of(checked, j) is None
                &&& pin_xy(spots[j], checked.elements@[j], net) matches Some(q)
                &&& q.1 == w.1
                &&& forall|l: int|
                    0 <= l < n && l != series && stub_of(checked, l) is None && pin_xy(
                        #[trigger] spots[l],
                        checked.elements@[l],
                        net,
                    ) is Some ==> checked.elements@[l].nodes@.len() <= w.0
            },
            None => forall|l: int|
                0 <= l < n && l != series && stub_of(checked, l) is None && pin_xy(
                    #[trigger] spots[l],
                    checked.elements@[l],
                    net,
                ) is Some ==> checked.elements@[l].nodes@.len() < 3,
        },
    decreases n,
{
    if n <= 0 {
        0
    } else {
        let rest = wire_y_is_largest(spots, checked, net, series, n - 1);
        if wire_y(spots, checked, net, series, n) == wire_y(spots, checked, net, series, n - 1) {
            rest
        } else {
            n - 1
        }
    }
}

/// A stub that the step pins hangs on the downstream net. It moves into the
/// given column, its drop from the element counted from the element's row, and
/// turns to its rail where it can. What the step does not pin stays.
pub proof fn stubs_move_onto_the_element(
    layout: Layout,
    checked: &CheckedNetlist,
    allowed: Seq<Vec<Orientation>>,
    i: int,
    down: int,
    x: int,
    n: int,
    j: int,
)
    requires
        checked.wf(),
        layout.sized(checked.elements@.len() as int),
        0 <= i < checked.elements@.len(),
        0 <= j < checked.elements@.len(),
        0 <= n <= all_stubs(checked).len(),
        layout.pinned[i],
    ensures
        ({
            let after = recolumned(layout, checked, allowed, i, down, x, n);
            &&& layout.pinned[j] || !after.pinned[j] ==> after.spots[j] == layout.spots[j]
            &&& layout.pinned[j] ==> after.pinned[j]
            &&& !layout.pinned[j] && after.pinned[j] ==> exists|k: int|
                #![trigger all_stubs(checked)[k]]
                {
                    let s = all_stubs(checked)[k];
                    let o = after.spots[j].orientation;
                    &&& 0 <= k < n && s.element == j && s.signal_net == down
                    &&& permits(allowed, j, o)
                    &&& rail_facing(checked.elements@[j], down, s.side) matches Some(p) ==> o == p
                    &&& after.spots[j].origin.x == x as i32
                    &&& after.spots[j].origin.y == (layout.spots[i].origin.y + stub_drop(
                        checked.elements@[i],
                        layout.spots[i].orientation,
                        checked.elements@[j],
                        o,
                        s.side,
                    )) as i32
                }
        }),
    decreases n,
{
    if n > 0 {
        stubs_move_onto_the_element(layout, checked, allowed, i, down, x, n - 1, j);
        stubs_move_onto_the_element(layout, checked, allowed, i, down, x, n - 1, i);
        stubs_listed(checked, checked.elements@.len() as int);
        recolumned_sized(layout, checked, allowed, i, down, x, n - 1);
        let s = all_stubs(checked)[n - 1];
        assert(0 <= s.element < checked.elements@.len());
    }
}

proof fn recolumned_sized(
    layout: Layout,
    checked: &CheckedNetlist,
    allowed: Seq<Vec<Orientation>>,
    i: int,
    down: int,
    x: int,
    n: int,
)
    requires
        checked.wf(),
        layout.sized(checked.elements@.len() as int),
        n <= all_stubs(checked).len(),
    ensures
        recolumned(layout, checked, allowed, i, down, x, n).sized(checked.elements@.len() as int),
    decreases n,
{
    if n > 0 {
        recolumned_sized(layout, checked, allowed, i, down, x, n - 1);
        stubs_listed(checked, checked.elements@.len() as int);
        assert(all_stubs(checked)[n - 1].element < checked.elements@.len());
    }
}

/// A moved stub keeps a clearance of 1.27 mm and the room of a label from the
/// element: two steps below it, three above it. One step less would not do.
pub proof fn moved_stubs_leave_room_for_labels(
    series: ResolvedElement,
    so: Orientation,
    stub: ResolvedElement,
    o: Orientation,
    side: VertPref,
)
    ensures
        ({
            let drop = stub_drop(series, so, stub, o, side);
            let (p, q) = (bare_extent(series, so), bare_extent(stub, o));
            match side {
                VertPref::Down => {
                    &&& p.max_y + 1270 <= (drop - 2) * 1270 + q.min_y
                    &&& drop > 3 ==> p.max_y + 1270 > (drop - 3) * 1270 + q.min_y
                },
                VertPref::Up => {
                    &&& (drop + 3) * 1270 + q.max_y + 1270 <= p.min_y
                    &&& drop < -4 ==> (drop + 4) * 1270 + q.max_y + 1270 > p.min_y
                },
            }
        }),
{
    let (p, q) = (bare_extent(series, so), bare_extent(stub, o));
    vertical_steps_clear(p, q, 0);
    vertical_steps_clear(q, p, 0);
}

/// A series element that may lie on its side is put there and pinned, at the
/// place that its construction asks for. Only where stubs are moved onto it
/// does anything else move, and they go to the column of its downstream pin,
/// to half a grid step.
pub proof fn series_elements_are_laid_on_their_side(
    layout: Layout,
    checked: &CheckedNetlist,
    allowed: Seq<Vec<Orientation>>,
    placer: Placer,
    i: int,
    flow: (int, int),
    c: Construction,
    o: Orientation,
    at: GridPoint,
    j: int,
)
    requires
        checked.wf(),
        layout.sized(checked.elements@.len() as int),
        0 <= i < checked.elements@.len(),
        0 <= j < checked.elements@.len(),
        j != i,
        !layout.pinned[i],
        flow_through(checked, placer, i) == Some(flow),
        construction_of(checked, placer, flow.0, flow.1) == Some(c),
        flow_pose(checked.elements@[i], flow.0, flow.1) == Some(o),
        allowed.len() == checked.elements@.len(),
        allowed[i]@.contains(o),
        series_origin(layout.spots, checked, c, flow.0, flow.1, i, o) == Some(
            (at.x as int, at.y as int),
        ),
    ensures
        ({
            let after = series_step(layout, checked, allowed, placer, i);
            let p = pin_xy(after.spots[i], checked.elements@[i], flow.1);
            &&& after.pinned[i]
            &&& after.spots[i].orientation == o
            &&& after.spots[i].origin == at
            &&& c != Construction::Recolumn || layout.pinned[j] || !after.pinned[j]
                ==> after.spots[j] == layout.spots[j]
            &&& c != Construction::Recolumn ==> after.pinned[j] == layout.pinned[j]
            &&& !layout.pinned[j] && after.pinned[j] ==> p is Some && exists|x: int|
                #![trigger x as i32]
                -635 <= x * 1270 - (p->0).0 <= 635 && after.spots[j].origin.x == x as i32
        }),
{
    let spot = Spot { origin: GridPoint { x: at.x, y: at.y }, orientation: o };
    let then = layout.pin_at(i, spot);
    let e = checked.elements@[i];
    match pin_xy(spot, e, flow.1) {
        Some(p) => {
            let x = round_div(p.0, GRID_STEP as int);
            rounding_is_nearest(p.0, 1270);
            let n = all_stubs(checked).len() as int;
            stubs_move_onto_the_element(then, checked, allowed, i, flow.1, x, n, i);
            stubs_move_onto_the_element(then, checked, allowed, i, flow.1, x, n, j);
            assert(x as i32 == x as i32);
        },
        None => {},
    }
}

/// An element that is pinned, has no flow, no construction or no pose for it
/// that it may take is left alone, and so is everything else.
pub proof fn other_elements_are_not_laid(
    layout: Layout,
    checked: &CheckedNetlist,
    allowed: Seq<Vec<Orientation>>,
    placer: Placer,
    i: int,
    up: int,
    down: int,
)
    requires
        layout.pinned[i] || flow_through(checked, placer, i) is None || flow_through(
            checked,
            placer,
            i,
        ) == Some((up, down)) && (construction_of(checked, placer, up, down) is None || flow_pose(
            checked.elements@[i],
            up,
            down,
        ) is None || !allowed[i]@.contains(flow_pose(checked.elements@[i], up, down)->0)),
    ensures
        series_step(layout, checked, allowed, placer, i) == layout,
{
}

} // verus!
