//! A passive on a node that several transistors share, such as the tail of a
//! differential pair: the passive is drawn centred below the transistors.

use vstd::prelude::*;

#[allow(unused_imports)]
use crate::counting::sum;
#[allow(unused_imports)]
use crate::extent::{extent_of, extents_are_limited, int_max, round_div, vertical_steps};
use crate::extent::{vertical_stride_cells, world_extent};
#[allow(unused_imports)]
use crate::idioms::{is_passive, upright_extent};
use crate::idioms::is_two_terminal_passive;
use crate::net_class::{classify_nets, element_touches};
#[allow(unused_imports)]
use crate::net_class::classes_of;
use crate::netlist::{CheckedNetlist, ElementKind};
#[allow(unused_imports)]
use crate::ordering::{where_list, where_list_contains};
use crate::pins::{placed_pin_xy, round_quotient, world_pin_xy};
#[allow(unused_imports)]
use crate::pins::{pin_offset, pin_offset_in_reach, pin_xy, rounding_is_nearest};
use crate::placement::{put, put_pinned, GridPoint, Placement, GRID_STEP};
#[allow(unused_imports)]
use crate::placement::{
    layout_of, pins_hold, same_parts, same_parts_trans, spots_within, Layout, Spot, MAX_COORD,
    MAX_ELEMENTS,
};
use crate::symbol::Orientation;
#[allow(unused_imports)]
use crate::symbol::{orientation_at, MAX_REACH};
#[allow(unused_imports)]
use crate::placement::places;

verus! {

/// A passive on a net that at least two transistors share.
#[derive(Debug)]
pub struct SharedNodeCenter {
    pub element: usize,
    pub transistors: Vec<usize>,
    pub net: usize,
}

/// The bipolar transistors on a net.
pub open spec fn transistor_on(checked: &CheckedNetlist, net: int) -> spec_fn(int) -> bool {
    |i: int| checked.touches(i, net) && checked.elements@[i].kind == ElementKind::Bjt
}

/// The two-terminal passives on a net.
pub open spec fn passive_on(checked: &CheckedNetlist, net: int) -> spec_fn(int) -> bool {
    |i: int| checked.touches(i, net) && is_passive(checked.elements@[i])
}

/// The transistors on a net, in element order.
pub open spec fn transistors_on(checked: &CheckedNetlist, net: int) -> Seq<usize> {
    where_list(transistor_on(checked, net), checked.elements@.len() as int)
}

/// The passives on a net, in element order.
pub open spec fn passives_on(checked: &CheckedNetlist, net: int) -> Seq<usize> {
    where_list(passive_on(checked, net), checked.elements@.len() as int)
}

/// At least two transistors and exactly one passive meet at the net, and it
/// is not a rail.
pub open spec fn is_shared_node(checked: &CheckedNetlist, net: int) -> bool {
    &&& !checked.is_rail(net)
    &&& transistors_on(checked, net).len() >= 2
    &&& passives_on(checked, net).len() == 1
}

/// The hit describes the shared node.
pub open spec fn describes(checked: &CheckedNetlist, hit: SharedNodeCenter, net: int) -> bool {
    &&& hit.net == net
    &&& hit.transistors@ == transistors_on(checked, net)
    &&& hit.element == passives_on(checked, net)[0]
}

/// The shared nodes among the first `n` nets, in net order.
pub open spec fn shared_nodes(checked: &CheckedNetlist, n: int) -> Seq<usize> {
    where_list(shared_node(checked), n)
}

/// The nets that are shared nodes.
pub open spec fn shared_node(checked: &CheckedNetlist) -> spec_fn(int) -> bool {
    |net: int| is_shared_node(checked, net)
}

/// Detects every shared node with its passive and transistors, in net order.
pub fn detect_shared_node_centers(checked: &CheckedNetlist) -> (r: Vec<SharedNodeCenter>)
    requires
        checked.wf(),
    ensures
        r@.len() == shared_nodes(checked, checked.nets@.len() as int).len(),
        forall|k: int|
            0 <= k < r@.len() ==> describes(
                checked,
                #[trigger] r@[k],
                shared_nodes(checked, checked.nets@.len() as int)[k] as int,
            ),
{
    let classes = classify_nets(checked);
    let mut out: Vec<SharedNodeCenter> = Vec::new();
    let mut net: usize = 0;
    while net < checked.nets.len()
        invariant
            net <= checked.nets@.len(),
            classes_of(checked, &classes),
            out@.len() == shared_nodes(checked, net as int).len(),
            forall|k: int|
                0 <= k < out@.len() ==> describes(
                    checked,
                    #[trigger] out@[k],
                    shared_nodes(checked, net as int)[k] as int,
                ),
        decreases checked.nets@.len() - net,
    {
        let ghost before = shared_nodes(checked, net as int);
        if !classes.is_rail_net(net) {
            let mut transistors: Vec<usize> = Vec::new();
            let mut passives: Vec<usize> = Vec::new();
            let mut i: usize = 0;
            while i < checked.elements.len()
                invariant
                    i <= checked.elements@.len(),
                    transistors@ == where_list(transistor_on(checked, net as int), i as int),
                    passives@ == where_list(passive_on(checked, net as int), i as int),
                decreases checked.elements@.len() - i,
            {
                if element_touches(checked, i, net) {
                    if checked.elements[i].kind == ElementKind::Bjt {
                        transistors.push(i);
                    }
                    if is_two_terminal_passive(&checked.elements[i]) {
                        passives.push(i);
                    }
                }
                i = i + 1;
            }
            if transistors.len() >= 2 && passives.len() == 1 {
                let element: usize = passives[0];
                out.push(SharedNodeCenter { element, transistors, net });
                proof {
                    assert(shared_nodes(checked, net + 1) == before.push(net));
                }
            }
        }
        net = net + 1;
    }
    out
}

/// The sum of the X of the pins that the first `n` listed elements have on the
/// net, and the number of those pins.
pub open spec fn pins_on_net(
    spots: Seq<Spot>,
    checked: &CheckedNetlist,
    ids: Seq<usize>,
    net: int,
    n: int,
) -> (int, int)
    decreases n,
{
    if n <= 0 {
        (0, 0)
    } else {
        let rest = pins_on_net(spots, checked, ids, net, n - 1);
        let i = ids[n - 1] as int;
        match pin_xy(spots[i], checked.elements@[i], net) {
            Some(p) => (rest.0 + p.0, rest.1 + 1),
            None => rest,
        }
    }
}

/// The largest Y among the origins of the first `n` listed elements.
pub open spec fn lowest(spots: Seq<Spot>, ids: Seq<usize>, n: int) -> int
    decreases n,
{
    if n <= 1 {
        spots[ids[0] as int].origin.y as int
    } else {
        int_max(lowest(spots, ids, n - 1), spots[ids[n - 1] as int].origin.y as int)
    }
}

/// The layout with the passive centred below the transistors: its pin on the
/// net moves to the mean X of their pins, rounded to the grid, and its origin
/// one clear stride and one more step below the lowest of them. It is drawn
/// upright and pinned. Nothing changes when the passive is pinned already or
/// no transistor has a pin on the net. A passive without a pin on the net is
/// turned upright and not moved.
pub open spec fn centered(
    layout: Layout,
    checked: &CheckedNetlist,
    element: int,
    transistors: Seq<usize>,
    net: int,
) -> Layout {
    let (total, n) = pins_on_net(
        layout.spots,
        checked,
        transistors,
        net,
        transistors.len() as int,
    );
    if layout.pinned[element] || n == 0 {
        layout
    } else {
        let at = layout.spots[element].origin;
        let upright = Spot { origin: at, orientation: orientation_at(0) };
        match pin_xy(upright, checked.elements@[element], net) {
            None => layout.put_at(element, upright),
            Some(p) => {
                let first = transistors[0] as int;
                let dx = round_div(total - p.0 * n, GRID_STEP * n);
                let stride = vertical_steps(
                    extent_of(
                        checked.elements@[first].symbol,
                        layout.spots[first].orientation,
                        None,
                    ),
                    upright_extent(checked.elements@[element]),
                );
                let y = lowest(layout.spots, transistors, transistors.len() as int) + stride + 1;
                layout.pin_at(
                    element,
                    Spot {
                        origin: GridPoint { x: (at.x + dx) as i32, y: y as i32 },
                        orientation: orientation_at(0),
                    },
                )
            },
        }
    }
}

/// Some hit of the list centres the element.
pub open spec fn is_centered(hits: Seq<SharedNodeCenter>, i: int) -> bool {
    exists|k: int| 0 <= k < hits.len() && (#[trigger] hits[k]).element == i
}

/// A hit of the list names elements of the netlist, and none that another hit
/// centres is among its transistors. Transistors then stay where they are while
/// the pass runs, so that no element drifts off the sheet.
pub open spec fn hit_in_range(
    checked: &CheckedNetlist,
    hits: Seq<SharedNodeCenter>,
    hit: SharedNodeCenter,
) -> bool {
    &&& hit.element < checked.elements@.len()
    &&& is_centered(hits, hit.element as int)
    &&& hit.transistors@.len() <= MAX_ELEMENTS
    &&& forall|k: int|
        0 <= k < hit.transistors@.len() ==> (#[trigger] hit.transistors@[k])
            < checked.elements@.len() && !is_centered(hits, hit.transistors@[k] as int)
}

/// Every hit of the list is in range.
pub open spec fn hits_in_range(checked: &CheckedNetlist, hits: Seq<SharedNodeCenter>) -> bool {
    forall|k: int| 0 <= k < hits.len() ==> hit_in_range(checked, hits, #[trigger] hits[k])
}

/// The layout after the first `n` hits have been centred.
pub open spec fn centered_all(
    layout: Layout,
    checked: &CheckedNetlist,
    hits: Seq<SharedNodeCenter>,
    n: int,
) -> Layout
    decreases n,
{
    if n <= 0 {
        layout
    } else {
        let hit = hits[n - 1];
        centered(
            centered_all(layout, checked, hits, n - 1),
            checked,
            hit.element as int,
            hit.transistors@,
            hit.net as int,
        )
    }
}

/// The origin of every element but the centred ones is within `limit`, and
/// that of the centred ones within a little more.
pub open spec fn transistors_within(
    spots: Seq<Spot>,
    hits: Seq<SharedNodeCenter>,
    limit: int,
) -> bool {
    forall|i: int|
        0 <= i < spots.len() ==> {
            &&& (#[trigger] spots[i]).origin.within(limit + 2100)
            &&& !is_centered(hits, i) ==> spots[i].origin.within(limit)
        }
}

proof fn pins_on_net_bound(
    spots: Seq<Spot>,
    checked: &CheckedNetlist,
    hits: Seq<SharedNodeCenter>,
    hit: SharedNodeCenter,
    n: int,
    limit: int,
)
    requires
        checked.drawable(),
        spots.len() == checked.elements@.len(),
        hit_in_range(checked, hits, hit),
        0 <= n <= hit.transistors@.len(),
        0 <= limit,
        transistors_within(spots, hits, limit),
    ensures
        ({
            let (total, c) = pins_on_net(spots, checked, hit.transistors@, hit.net as int, n);
            let reach = limit * GRID_STEP + MAX_REACH;
            &&& 0 <= c <= n
            &&& -(c * reach) <= total <= c * reach
        }),
    decreases n,
{
    if n > 0 {
        pins_on_net_bound(spots, checked, hits, hit, n - 1, limit);
        let (total, c) = pins_on_net(spots, checked, hit.transistors@, hit.net as int, n - 1);
        let reach = limit * GRID_STEP + MAX_REACH;
        let i = hit.transistors@[n - 1] as int;
        assert(checked.elements@[i].symbol.wf());
        assert(spots[i].origin.within(limit));
        pin_offset_in_reach(checked.elements@[i], spots[i].orientation, hit.net as int);
        assert((c + 1) * reach == c * reach + reach) by (nonlinear_arith);
        assert(-(limit * GRID_STEP) <= spots[i].origin.x * GRID_STEP <= limit * GRID_STEP)
            by (nonlinear_arith)
            requires
                -limit <= spots[i].origin.x <= limit,
                GRID_STEP == 1270,
        ;
    }
}

proof fn lowest_within(
    spots: Seq<Spot>,
    checked: &CheckedNetlist,
    hits: Seq<SharedNodeCenter>,
    hit: SharedNodeCenter,
    n: int,
    limit: int,
)
    requires
        spots.len() == checked.elements@.len(),
        hit_in_range(checked, hits, hit),
        1 <= n <= hit.transistors@.len(),
        transistors_within(spots, hits, limit),
    ensures
        -limit <= lowest(spots, hit.transistors@, n) <= limit,
    decreases n,
{
    let i = hit.transistors@[n - 1] as int;
    assert(spots[i].origin.within(limit));
    if n > 1 {
        lowest_within(spots, checked, hits, hit, n - 1, limit);
    }
}

/// The mean of the pins is not far, so neither is the centred passive.
proof fn centered_within(
    layout: Layout,
    checked: &CheckedNetlist,
    hits: Seq<SharedNodeCenter>,
    hit: SharedNodeCenter,
    limit: int,
)
    requires
        checked.drawable(),
        layout.sized(checked.elements@.len() as int),
        hit_in_range(checked, hits, hit),
        0 <= limit <= MAX_COORD,
        transistors_within(layout.spots, hits, limit),
    ensures
        ({
            let after = centered(
                layout,
                checked,
                hit.element as int,
                hit.transistors@,
                hit.net as int,
            );
            let (total, n) = pins_on_net(
                layout.spots,
                checked,
                hit.transistors@,
                hit.net as int,
                hit.transistors@.len() as int,
            );
            let at = layout.spots[hit.element as int].origin;
            &&& after.sized(checked.elements@.len() as int)
            &&& pins_hold(layout, after)
            &&& transistors_within(after.spots, hits, limit)
            &&& n > 0 ==> (pin_xy(
                Spot { origin: at, orientation: orientation_at(0) },
                checked.elements@[hit.element as int],
                hit.net as int,
            ) matches Some(p) ==> -(limit + 2100) <= at.x + round_div(
                total - p.0 * n,
                GRID_STEP * n,
            ) <= limit + 2100)
        }),
{
    let (total, n) = pins_on_net(
        layout.spots,
        checked,
        hit.transistors@,
        hit.net as int,
        hit.transistors@.len() as int,
    );
    pins_on_net_bound(layout.spots, checked, hits, hit, hit.transistors@.len() as int, limit);
    let el = hit.element as int;
    let at = layout.spots[el].origin;
    let e = checked.elements@[el];
    assert(e.symbol.wf());
    pin_offset_in_reach(e, orientation_at(0), hit.net as int);
    if n > 0 {
        match pin_xy(Spot { origin: at, orientation: orientation_at(0) }, e, hit.net as int) {
            Some(p) => {
                let off = p.0 - at.x * GRID_STEP;
                let d = GRID_STEP * n;
                let r = round_div(total - p.0 * n, d);
                rounding_is_nearest(total - p.0 * n, d);
                let reach = limit * 1270 + 1_000_000;
                assert(-(limit + 2100) <= at.x + r <= limit + 2100) by (nonlinear_arith)
                    requires
                        d == 1270 * n,
                        n > 0,
                        -d <= 2 * (r * d - (total - p.0 * n)) <= d,
                        p.0 == at.x * 1270 + off,
                        -1_000_000 <= off <= 1_000_000,
                        reach == limit * 1270 + 1_000_000,
                        -(n * reach) <= total <= n * reach,
                ;
                lowest_within(
                    layout.spots,
                    checked,
                    hits,
                    hit,
                    hit.transistors@.len() as int,
                    limit,
                );
                let first = hit.transistors@[0] as int;
                assert(checked.elements@[first].symbol.wf());
                extents_are_limited(
                    checked.elements@[first],
                    layout.spots[first].orientation,
                    None,
                    seq![],
                );
                extents_are_limited(e, orientation_at(0), None, seq![]);
            },
            None => {},
        }
    }
    let after = centered(layout, checked, el, hit.transistors@, hit.net as int);
    assert forall|i: int| 0 <= i < after.spots.len() implies {
        &&& (#[trigger] after.spots[i]).origin.within(limit + 2100)
        &&& !is_centered(hits, i) ==> after.spots[i].origin.within(limit)
    } by {
        assert(layout.spots[i].origin.within(limit + 2100));
    }
}

proof fn lowest_is_lowest(spots: Seq<Spot>, ids: Seq<usize>, n: int, k: int)
    requires
        0 <= k < n,
    ensures
        spots[ids[k] as int].origin.y <= lowest(spots, ids, n),
    decreases n,
{
    if 1 < n && k < n - 1 {
        lowest_is_lowest(spots, ids, n - 1, k);
    }
}

/// A centred element is upright and pinned, below all its transistors, and its
/// pin on the node is at most half a grid step from the mean of theirs.
pub proof fn centered_pins_are_central(
    layout: Layout,
    checked: &CheckedNetlist,
    hits: Seq<SharedNodeCenter>,
    hit: SharedNodeCenter,
    limit: int,
    k: int,
)
    requires
        checked.drawable(),
        layout.sized(checked.elements@.len() as int),
        hit_in_range(checked, hits, hit),
        0 <= limit <= MAX_COORD,
        transistors_within(layout.spots, hits, limit),
        0 <= k < hit.transistors@.len(),
        !layout.pinned[hit.element as int],
        pin_offset(
            checked.elements@[hit.element as int],
            orientation_at(0),
            hit.net as int,
        ) is Some,
        pins_on_net(
            layout.spots,
            checked,
            hit.transistors@,
            hit.net as int,
            hit.transistors@.len() as int,
        ).1 > 0,
    ensures
        ({
            let i = hit.element as int;
            let net = hit.net as int;
            let (total, n) = pins_on_net(
                layout.spots,
                checked,
                hit.transistors@,
                net,
                hit.transistors@.len() as int,
            );
            let after = centered(layout, checked, i, hit.transistors@, net);
            &&& after.pinned[i]
            &&& after.spots[i].orientation == orientation_at(0)
            &&& after.spots[i].origin.y > layout.spots[hit.transistors@[k] as int].origin.y
            &&& pin_xy(after.spots[i], checked.elements@[i], net) matches Some(p)
            &&& -(GRID_STEP * n) <= 2 * (p.0 * n - total) <= GRID_STEP * n
        }),
{
    let i = hit.element as int;
    let net = hit.net as int;
    let ids = hit.transistors@;
    let e = checked.elements@[i];
    let (total, n) = pins_on_net(layout.spots, checked, ids, net, ids.len() as int);
    centered_within(layout, checked, hits, hit, limit);
    lowest_is_lowest(layout.spots, ids, ids.len() as int, k);
    lowest_within(layout.spots, checked, hits, hit, ids.len() as int, limit);
    pins_on_net_bound(layout.spots, checked, hits, hit, ids.len() as int, limit);
    let first = ids[0] as int;
    assert(checked.elements@[first].symbol.wf() && e.symbol.wf());
    extents_are_limited(
        checked.elements@[first],
        layout.spots[first].orientation,
        None,
        seq![],
    );
    extents_are_limited(e, orientation_at(0), None, seq![]);
    pin_offset_in_reach(e, orientation_at(0), net);
    let at = layout.spots[i].origin;
    let p = pin_xy(Spot { origin: at, orientation: orientation_at(0) }, e, net)->0;
    let d = GRID_STEP * n;
    let m = total - p.0 * n;
    let r = round_div(m, d);
    rounding_is_nearest(m, d);
    let after = centered(layout, checked, i, ids, net);
    let off = p.0 - at.x * GRID_STEP;
    let reach = limit * 1270 + 1_000_000;
    assert(-(limit + 2100) <= at.x + r <= limit + 2100) by (nonlinear_arith)
        requires
            d == 1270 * n,
            n > 0,
            -d <= 2 * (r * d - (total - p.0 * n)) <= d,
            p.0 == at.x * 1270 + off,
            -1_000_000 <= off <= 1_000_000,
            reach == limit * 1270 + 1_000_000,
            -(n * reach) <= total <= n * reach,
    ;
    let q = pin_xy(after.spots[i], e, net)->0;
    assert(q.0 == p.0 + GRID_STEP * r);
    assert(q.0 * n == p.0 * n + r * d) by (nonlinear_arith)
        requires
            q.0 == p.0 + GRID_STEP * r,
            d == GRID_STEP * n,
    ;
}

/// Centring moves no pinned element and none but those of the hits, and moves
/// none far.
pub proof fn centering_respects_pins(
    layout: Layout,
    checked: &CheckedNetlist,
    hits: Seq<SharedNodeCenter>,
    n: int,
    limit: int,
)
    requires
        checked.drawable(),
        layout.sized(checked.elements@.len() as int),
        n <= hits.len(),
        hits_in_range(checked, hits),
        0 <= limit <= MAX_COORD,
        spots_within(layout.spots, limit),
    ensures
        ({
            let after = centered_all(layout, checked, hits, n);
            &&& after.sized(checked.elements@.len() as int)
            &&& pins_hold(layout, after)
            &&& transistors_within(after.spots, hits, limit)
            &&& spots_within(after.spots, limit + 2100)
        }),
    decreases n,
{
    if n > 0 {
        centering_respects_pins(layout, checked, hits, n - 1, limit);
        centered_within(
            centered_all(layout, checked, hits, n - 1),
            checked,
            hits,
            hits[n - 1],
            limit,
        );
    } else {
        assert forall|i: int| 0 <= i < layout.spots.len() implies {
            &&& (#[trigger] layout.spots[i]).origin.within(limit + 2100)
            &&& !is_centered(hits, i) ==> layout.spots[i].origin.within(limit)
        } by {
            assert(layout.spots[i].origin.within(limit));
        }
    }
}

/// Centres one passive below its transistors.
fn center_one(
    placement: &mut Placement,
    pinned: &mut Vec<bool>,
    checked: &CheckedNetlist,
    hit: &SharedNodeCenter,
    Ghost(hits): Ghost<Seq<SharedNodeCenter>>,
)
    requires
        checked.drawable(),
        old(placement).elements@.len() == checked.elements@.len(),
        old(pinned)@.len() == checked.elements@.len(),
        hit_in_range(checked, hits, *hit),
        transistors_within(old(placement).spots(), hits, MAX_COORD as int),
    ensures
        same_parts(*old(placement), *final(placement)),
        layout_of(*final(placement), *final(pinned)) == centered(
            layout_of(*old(placement), *old(pinned)),
            checked,
            hit.element as int,
            hit.transistors@,
            hit.net as int,
        ),
{
    let el: usize = hit.element;
    if pinned[el] {
        return ;
    }
    let ghost start = layout_of(*placement, *pinned);
    let mut total: i64 = 0;
    let mut n: i64 = 0;
    let mut low: i32 = i32::MIN;
    let mut k: usize = 0;
    while k < hit.transistors.len()
        invariant
            k <= hit.transistors@.len(),
            checked.drawable(),
            hit_in_range(checked, hits, *hit),
            start == layout_of(*placement, *pinned),
            placement.elements@.len() == checked.elements@.len(),
            transistors_within(start.spots, hits, MAX_COORD as int),
            (total as int, n as int) == pins_on_net(
                start.spots,
                checked,
                hit.transistors@,
                hit.net as int,
                k as int,
            ),
            k == 0 ==> low == i32::MIN,
            k > 0 ==> low == lowest(start.spots, hit.transistors@, k as int),
        decreases hit.transistors@.len() - k,
    {
        let t: usize = hit.transistors[k];
        proof {
            pins_on_net_bound(start.spots, checked, hits, *hit, k as int, MAX_COORD as int);
            assert(checked.elements@[t as int].symbol.wf());
            assert(start.spots[t as int].origin.within(MAX_COORD as int));
            assert(n * (MAX_COORD * GRID_STEP + MAX_REACH) <= 65536 * (MAX_COORD * GRID_STEP
                + MAX_REACH)) by (nonlinear_arith)
                requires
                    0 <= n <= 65536,
                    MAX_COORD * GRID_STEP + MAX_REACH >= 0,
            ;
        }
        match placed_pin_xy(placement, checked, t, hit.net) {
            Some((x, _)) => {
                total = total + x;
                n = n + 1;
            },
            None => {},
        }
        let y: i32 = placement.elements[t].origin.y;
        assert(start.spots[t as int].origin.y == y);
        if y > low || k == 0 {
            low = y;
        }
        k = k + 1;
    }
    if n == 0 {
        return ;
    }
    let upright = Orientation::identity();
    let at = placement.elements[el].origin;
    assert(start.spots[el as int].origin == at);
    let e = &checked.elements[el];
    assert(checked.elements@[el as int].symbol.wf());
    proof {
        centered_within(start, checked, hits, *hit, MAX_COORD as int);
        pins_on_net_bound(
            start.spots,
            checked,
            hits,
            *hit,
            hit.transistors@.len() as int,
            MAX_COORD as int,
        );
        lowest_within(
            start.spots,
            checked,
            hits,
            *hit,
            hit.transistors@.len() as int,
            MAX_COORD as int,
        );
    }
    match world_pin_xy(e, at, upright, hit.net) {
        None => {
            put(placement, el, at, upright);
        },
        Some((cur_x, _)) => {
            assert(at.within(MAX_COORD + 2100));
            assert(-96_000_000_000_000_000 <= cur_x * n <= 96_000_000_000_000_000)
                by (nonlinear_arith)
                requires
                    0 <= n <= 65536,
                    -1_400_000_000_000 <= cur_x <= 1_400_000_000_000,
            ;
            assert(n * (MAX_COORD * GRID_STEP + MAX_REACH) <= 65536 * (MAX_COORD * GRID_STEP
                + MAX_REACH)) by (nonlinear_arith)
                requires
                    0 <= n <= 65536,
                    MAX_COORD * GRID_STEP + MAX_REACH >= 0,
            ;
            let dx: i64 = round_quotient(total - cur_x * n, GRID_STEP * n);
            let t0: usize = hit.transistors[0];
            assert(checked.elements@[t0 as int].symbol.wf());
            let el_ext = world_extent(&e.symbol, upright, &None);
            let q_ext = world_extent(
                &checked.elements[t0].symbol,
                placement.elements[t0].orientation,
                &None,
            );
            proof {
                extents_are_limited(*e, upright, None, seq![]);
                extents_are_limited(
                    checked.elements@[t0 as int],
                    placement.spots()[t0 as int].orientation,
                    None,
                    seq![],
                );
            }
            let stride: i32 = vertical_stride_cells(&q_ext, &el_ext);
            let x: i64 = at.x as i64 + dx;
            put_pinned(
                placement,
                pinned,
                el,
                GridPoint::new(x as i32, low + stride + 1),
                upright,
            );
        },
    }
}

/// Centres every element of a list below its transistors, in list order.
pub fn apply_shared_centers(
    placement: &mut Placement,
    pinned: &mut Vec<bool>,
    checked: &CheckedNetlist,
    hits: &Vec<SharedNodeCenter>,
)
    requires
        checked.drawable(),
        places(&*old(placement), checked),
        old(pinned)@.len() == checked.elements@.len(),
        old(placement).within(MAX_COORD as int),
        hits_in_range(checked, hits@),
    ensures
        same_parts(*old(placement), *final(placement)),
        layout_of(*final(placement), *final(pinned)) == centered_all(
            layout_of(*old(placement), *old(pinned)),
            checked,
            hits@,
            hits@.len() as int,
        ),
{
    let ghost start = layout_of(*placement, *pinned);
    let mut k: usize = 0;
    while k < hits.len()
        invariant
            k <= hits@.len(),
            checked.drawable(),
            same_parts(*old(placement), *placement),
            start.sized(checked.elements@.len() as int),
            spots_within(start.spots, MAX_COORD as int),
            hits_in_range(checked, hits@),
            placement.elements@.len() == checked.elements@.len(),
            pinned@.len() == checked.elements@.len(),
            layout_of(*placement, *pinned) == centered_all(start, checked, hits@, k as int),
        decreases hits@.len() - k,
    {
        proof {
            centering_respects_pins(start, checked, hits@, k as int, MAX_COORD as int);
        }
        let ghost before = *placement;
        center_one(placement, pinned, checked, &hits[k], Ghost(hits@));
        proof {
            same_parts_trans(*old(placement), before, *placement);
            centering_respects_pins(start, checked, hits@, k + 1, MAX_COORD as int);
        }
        k = k + 1;
    }
}

/// Every hit of the detector names a passive and transistors of the netlist.
proof fn detected_hit(checked: &CheckedNetlist, hit: SharedNodeCenter, net: int)
    requires
        checked.elements@.len() <= MAX_ELEMENTS,
        is_shared_node(checked, net),
        describes(checked, hit, net),
    ensures
        hit.element < checked.elements@.len(),
        is_passive(checked.elements@[hit.element as int]),
        hit.transistors@.len() <= MAX_ELEMENTS,
        forall|k: int|
            0 <= k < hit.transistors@.len() ==> (#[trigger] hit.transistors@[k])
                < checked.elements@.len() && checked.elements@[hit.transistors@[k] as int].kind
                == ElementKind::Bjt,
{
    let n = checked.elements@.len() as int;
    assert forall|k: int| 0 <= k < hit.transistors@.len() implies (#[trigger] hit.transistors@[k])
        < checked.elements@.len() && checked.elements@[hit.transistors@[k] as int].kind
        == ElementKind::Bjt by {
        where_list_contains(transistor_on(checked, net), n, hit.transistors@[k]);
        assert(where_list(transistor_on(checked, net), n).contains(hit.transistors@[k]));
    }
    where_list_contains(passive_on(checked, net), n, hit.element);
    assert(where_list(passive_on(checked, net), n).contains(hit.element));
    where_list_short(transistor_on(checked, net), n);
}

/// A list of detected hits is in range, whichever of them it holds and in
/// whatever order.
pub proof fn detected_hits_in_range(
    checked: &CheckedNetlist,
    hits: Seq<SharedNodeCenter>,
    nodes: Seq<usize>,
)
    requires
        checked.elements@.len() <= MAX_ELEMENTS,
        hits.len() == nodes.len(),
        forall|k: int|
            0 <= k < nodes.len() ==> is_shared_node(checked, #[trigger] nodes[k] as int),
        forall|k: int|
            0 <= k < hits.len() ==> describes(checked, #[trigger] hits[k], nodes[k] as int),
    ensures
        hits_in_range(checked, hits),
{
    assert forall|k: int| 0 <= k < hits.len() implies hit_in_range(
        checked,
        hits,
        #[trigger] hits[k],
    ) by {
        let hit = hits[k];
        detected_hit(checked, hit, nodes[k] as int);
        assert(is_centered(hits, hit.element as int));
        assert forall|t: int| 0 <= t < hit.transistors@.len() implies !is_centered(
            hits,
            (#[trigger] hit.transistors@[t]) as int,
        ) by {
            let i = hit.transistors@[t] as int;
            if is_centered(hits, i) {
                let j = choose|j: int| 0 <= j < hits.len() && (#[trigger] hits[j]).element == i;
                detected_hit(checked, hits[j], nodes[j] as int);
            }
        }
    }
}

proof fn where_list_short(p: spec_fn(int) -> bool, n: int)
    requires
        0 <= n,
    ensures
        where_list(p, n).len() <= n,
    decreases n,
{
    if n > 0 {
        where_list_short(p, n - 1);
    }
}

/// A shared node is a net that is no rail, on which two or more bipolar
/// transistors and exactly one two-terminal resistor, capacitor or inductor
/// have terminals. Its passive is the one to be centred, below all of its
/// transistors.
pub proof fn shared_nodes_join_transistors(
    checked: &CheckedNetlist,
    hit: SharedNodeCenter,
    net: int,
    i: usize,
)
    requires
        checked.elements@.len() <= usize::MAX,
        is_shared_node(checked, net),
        describes(checked, hit, net),
    ensures
        checked.class_of(net) != Some(crate::net_class::NetClass::Power),
        checked.class_of(net) != Some(crate::net_class::NetClass::Ground),
        hit.transistors@.len() >= 2,
        hit.transistors@.contains(i) <==> i < checked.elements@.len()
            && checked.elements@[i as int].kind == ElementKind::Bjt && checked.touches(
            i as int,
            net,
        ),
        hit.element == i <==> i < checked.elements@.len() && checked.touches(i as int, net)
            && checked.elements@[i as int].nodes@.len() == 2 && (checked.elements@[i as int].kind
            == ElementKind::Resistor || checked.elements@[i as int].kind == ElementKind::Capacitor
            || checked.elements@[i as int].kind == ElementKind::Inductor),
{
    let n = checked.elements@.len() as int;
    crate::ordering::where_list_contains(transistor_on(checked, net), n, i);
    crate::ordering::where_list_contains(passive_on(checked, net), n, i);
    let p = passives_on(checked, net);
    crate::ordering::where_list_contains(passive_on(checked, net), n, p[0]);
    assert(p.contains(p[0]));
    if p.contains(i) {
        let k = choose|k: int| 0 <= k < p.len() && p[k] == i;
        assert(k == 0);
    }
}

/// A centred passive stands below all its transistors, by the room that the
/// first of them and the passive need, a clearance of 1.27 mm and one step
/// more, counted from the lowest.
pub proof fn centered_passives_stand_clear_below(
    layout: Layout,
    checked: &CheckedNetlist,
    hits: Seq<SharedNodeCenter>,
    hit: SharedNodeCenter,
    limit: int,
    k: int,
)
    requires
        checked.drawable(),
        layout.sized(checked.elements@.len() as int),
        hit_in_range(checked, hits, hit),
        0 <= limit <= MAX_COORD,
        transistors_within(layout.spots, hits, limit),
        0 <= k < hit.transistors@.len(),
        forall|j: int|
            0 <= j < hit.transistors@.len() ==> layout.spots[#[trigger] hit.transistors@[j] as int].origin.y
                <= layout.spots[hit.transistors@[k] as int].origin.y,
        !layout.pinned[hit.element as int],
        pin_offset(
            checked.elements@[hit.element as int],
            orientation_at(0),
            hit.net as int,
        ) is Some,
        pins_on_net(
            layout.spots,
            checked,
            hit.transistors@,
            hit.net as int,
            hit.transistors@.len() as int,
        ).1 > 0,
    ensures
        ({
            let i = hit.element as int;
            let first = hit.transistors@[0] as int;
            let after = centered(layout, checked, i, hit.transistors@, hit.net as int);
            let drop = after.spots[i].origin.y - layout.spots[hit.transistors@[k] as int].origin.y;
            let upper = extent_of(
                checked.elements@[first].symbol,
                layout.spots[first].orientation,
                None,
            );
            let lower = extent_of(checked.elements@[i].symbol, orientation_at(0), None);
            &&& upper.max_y + 1270 <= (drop - 1) * 1270 + lower.min_y
            &&& drop > 2 ==> upper.max_y + 1270 > (drop - 2) * 1270 + lower.min_y
        }),
{
    let i = hit.element as int;
    let ids = hit.transistors@;
    let e = checked.elements@[i];
    lowest_is_lowest(layout.spots, ids, ids.len() as int, k);
    lowest_within(layout.spots, checked, hits, hit, ids.len() as int, limit);
    lowest_is_met(layout.spots, ids, ids.len() as int, k);
    let first = ids[0] as int;
    assert(checked.elements@[first].symbol.wf() && e.symbol.wf());
    extents_are_limited(
        checked.elements@[first],
        layout.spots[first].orientation,
        None,
        seq![],
    );
    extents_are_limited(e, orientation_at(0), None, seq![]);
    crate::extent::vertical_steps_clear(
        extent_of(checked.elements@[first].symbol, layout.spots[first].orientation, None),
        upright_extent(e),
        0,
    );
}

proof fn lowest_is_met(spots: Seq<Spot>, ids: Seq<usize>, n: int, k: int)
    requires
        0 < n <= ids.len(),
        0 <= k < ids.len(),
        forall|j: int|
            0 <= j < ids.len() ==> spots[#[trigger] ids[j] as int].origin.y
                <= spots[ids[k] as int].origin.y,
    ensures
        lowest(spots, ids, n) <= spots[ids[k] as int].origin.y,
    decreases n,
{
    assert(spots[ids[n - 1] as int].origin.y <= spots[ids[k] as int].origin.y);
    if n > 1 {
        lowest_is_met(spots, ids, n - 1, k);
    }
}

} // verus!
