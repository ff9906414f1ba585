//! Rail stubs: two-terminal elements between a signal node and a rail.
//!
//! A stub ends a signal rather than passing it on, and is drawn as a straight
//! drop from the node it serves. The pass here moves stubs sideways into the
//! column of their node. It changes no Y, no pose and no pin.

use vstd::prelude::*;

#[allow(unused_imports)]
use crate::extent::{
    extent_of, extents_are_limited, int_max, round_div, stride_steps, Bounds, EXTENT_LIMIT,
};
use crate::extent::{up_to_cells, world_extent, MIN_CLEARANCE};
use crate::net_class::{vertical_prefs, VertPref};
use crate::netlist::{CheckedNetlist, ResolvedElement};
#[allow(unused_imports)]
use crate::netlist::{nets_in_range, terminal_from_is_first};
use crate::pins::{placed_pin_xy, round_quotient};
#[allow(unused_imports)]
use crate::pins::{pin_offset_in_reach, pin_xy, rounding_is_nearest};
use crate::placement::{put, GridPoint, Placement, GRID_STEP};
#[allow(unused_imports)]
use crate::placement::{
    same_parts, same_parts_trans, spots_within, Spot, MAX_COORD, MAX_ELEMENTS,
};
#[allow(unused_imports)]
use crate::symbol::MAX_REACH;
#[allow(unused_imports)]
use crate::placement::{moving_keeps_the_netlist, places};

verus! {

/// Width of the cell that every element takes up at least, in grid steps.
pub const CELL_W: i32 = 6;

/// Farthest that the pass moves a stub beyond the elements it is aligned to.
pub const STUB_SPREAD: i32 = 120_000_000;

/// A two-terminal element with one terminal on a rail. `signal_term` is the
/// terminal on `signal_net`, and `side` is where the rail runs.
#[derive(Debug, Clone, Copy, PartialEq, Eq, Structural)]
pub struct RailStub {
    pub element: usize,
    pub signal_net: usize,
    pub signal_term: usize,
    pub side: VertPref,
}

/// The stub that an element is: it has two terminals on different nets and
/// exactly one of the nets is a rail.
pub open spec fn stub_of(checked: &CheckedNetlist, i: int) -> Option<RailStub> {
    let e = checked.elements@[i];
    if e.nodes@.len() != 2 || e.nodes@[0] == e.nodes@[1] {
        None
    } else {
        let (a, b) = (e.nodes@[0], e.nodes@[1]);
        match (checked.vert_pref_of(a as int), checked.vert_pref_of(b as int)) {
            (Some(side), None) => Some(
                RailStub { element: i as usize, signal_net: b, signal_term: 1, side },
            ),
            (None, Some(side)) => Some(
                RailStub { element: i as usize, signal_net: a, signal_term: 0, side },
            ),
            _ => None,
        }
    }
}

/// The stubs among the first `n` elements, in element order.
pub open spec fn rail_stubs(checked: &CheckedNetlist, n: int) -> Seq<RailStub>
    decreases n,
{
    if n <= 0 {
        seq![]
    } else {
        match stub_of(checked, n - 1) {
            Some(s) => rail_stubs(checked, n - 1).push(s),
            None => rail_stubs(checked, n - 1),
        }
    }
}

/// The stubs of the netlist.
pub open spec fn all_stubs(checked: &CheckedNetlist) -> Seq<RailStub> {
    rail_stubs(checked, checked.elements@.len() as int)
}

/// Detects every rail stub, in element order.
pub fn detect_rail_stubs(checked: &CheckedNetlist) -> (r: Vec<RailStub>)
    requires
        checked.wf(),
    ensures
        r@ == all_stubs(checked),
{
    let prefs = vertical_prefs(checked);
    let mut out: Vec<RailStub> = Vec::new();
    let mut i: usize = 0;
    while i < checked.elements.len()
        invariant
            i <= checked.elements@.len(),
            checked.wf(),
            prefs@.len() == checked.nets@.len(),
            forall|net: int|
                0 <= net < prefs@.len() ==> #[trigger] prefs@[net] == checked.vert_pref_of(net),
            out@ == rail_stubs(checked, i as int),
        decreases checked.elements@.len() - i,
    {
        assert(nets_in_range(checked.elements@[i as int].nodes@, checked.nets@.len()));
        let e = &checked.elements[i];
        if e.nodes.len() == 2 && e.nodes[0] != e.nodes[1] {
            let (a, b) = (e.nodes[0], e.nodes[1]);
            match (prefs[a], prefs[b]) {
                (Some(side), None) => {
                    out.push(RailStub { element: i, signal_net: b, signal_term: 1, side });
                },
                (None, Some(side)) => {
                    out.push(RailStub { element: i, signal_net: a, signal_term: 0, side });
                },
                _ => {},
            }
        }
        i = i + 1;
    }
    out
}

/// What the stub list holds.
pub proof fn stubs_listed(checked: &CheckedNetlist, n: int)
    requires
        checked.wf(),
        0 <= n <= checked.elements@.len(),
    ensures
        rail_stubs(checked, n).len() <= n,
        forall|k: int|
            0 <= k < rail_stubs(checked, n).len() ==> {
                let s = #[trigger] rail_stubs(checked, n)[k];
                &&& s.element < n
                &&& stub_of(checked, s.element as int) == Some(s)
                &&& s.signal_net < checked.nets@.len()
            },
        forall|a: int, b: int|
            0 <= a < b < rail_stubs(checked, n).len() ==> (#[trigger] rail_stubs(
                checked,
                n,
            )[a]).element < (#[trigger] rail_stubs(checked, n)[b]).element,
        forall|i: int|
            0 <= i < n ==> (#[trigger] stub_of(checked, i) matches Some(s) ==> rail_stubs(
                checked,
                n,
            ).contains(s)),
    decreases n,
{
    if n > 0 {
        stubs_listed(checked, n - 1);
        assert(checked.elements@.len() == checked.elements.len());
        let rest = rail_stubs(checked, n - 1);
        let all = rail_stubs(checked, n);
        assert(nets_in_range(checked.elements@[n - 1].nodes@, checked.nets@.len()));
        assert forall|k: int| 0 <= k < all.len() implies {
            let s = #[trigger] all[k];
            &&& s.element < n
            &&& stub_of(checked, s.element as int) == Some(s)
            &&& s.signal_net < checked.nets@.len()
        } by {
            if k < rest.len() {
                assert(all[k] == rest[k]);
            }
        }
        assert forall|a: int, b: int| 0 <= a < b < all.len() implies (
        #[trigger] all[a]).element < (#[trigger] all[b]).element by {
            assert(all[a] == rest[a]);
            if b < rest.len() {
                assert(all[b] == rest[b]);
            }
        }
        assert forall|i: int| 0 <= i < n implies (#[trigger] stub_of(checked, i) matches Some(s)
            ==> all.contains(s)) by {
            match stub_of(checked, i) {
                Some(s) => {
                    if i < n - 1 {
                        assert(rest.contains(s));
                        let k = choose|k: int| 0 <= k < rest.len() && rest[k] == s;
                        assert(all[k] == s);
                    } else {
                        assert(all[rest.len() as int] == s);
                    }
                },
                None => {},
            }
        }
    }
}

/// Element `i` is a stub on the net.
pub open spec fn stubs_on(stubs: Seq<RailStub>, i: int, net: int) -> bool {
    exists|k: int|
        0 <= k < stubs.len() && (#[trigger] stubs[k]).element == i && stubs[k].signal_net == net
}

/// Some stub on the net runs to the side.
pub open spec fn side_taken(stubs: Seq<RailStub>, net: int, side: VertPref) -> bool {
    exists|k: int|
        0 <= k < stubs.len() && (#[trigger] stubs[k]).signal_net == net && stubs[k].side == side
}

/// Whether element `i` is a stub on the net.
pub fn is_stub_on(stubs: &Vec<RailStub>, i: usize, net: usize) -> (r: bool)
    ensures
        r == stubs_on(stubs@, i as int, net as int),
{
    let mut k: usize = 0;
    while k < stubs.len()
        invariant
            k <= stubs@.len(),
            forall|j: int|
                0 <= j < k ==> !((#[trigger] stubs@[j]).element == i && stubs@[j].signal_net
                    == net),
        decreases stubs@.len() - k,
    {
        if stubs[k].element == i && stubs[k].signal_net == net {
            assert(stubs@[k as int].element == i);
            return true;
        }
        k = k + 1;
    }
    false
}

/// Whether some stub on the net runs to the side.
pub fn has_side(stubs: &Vec<RailStub>, net: usize, side: VertPref) -> (r: bool)
    ensures
        r == side_taken(stubs@, net as int, side),
{
    let mut k: usize = 0;
    while k < stubs.len()
        invariant
            k <= stubs@.len(),
            forall|j: int|
                0 <= j < k ==> !((#[trigger] stubs@[j]).signal_net == net && stubs@[j].side
                    == side),
        decreases stubs@.len() - k,
    {
        if stubs[k].signal_net == net && stubs[k].side == side {
            assert(stubs@[k as int].signal_net == net);
            return true;
        }
        k = k + 1;
    }
    false
}

/// The column that the stubs on a node should stand in. The X is the mean
/// `sum / count`. A strong column comes from a pin of an element with at
/// least three terminals. When `outward` is not zero the pin faces sideways,
/// and the stubs stand one stride to that side of it.
#[derive(Debug, Clone, Copy, PartialEq, Eq, Structural)]
pub struct RailStubAnchor {
    pub sum: i64,
    pub count: i64,
    pub strong: bool,
    pub outward: i32,
}

/// Sums over the pins that a node offers as anchors: vertical pins of
/// elements with three or more terminals, sideways pins of such elements with
/// the sum of their directions, and vertical pins of any element.
pub struct AnchorSums {
    pub multi: (int, int),
    pub sideways: (int, int),
    pub direction: int,
    pub any: (int, int),
}

/// The direction of a sideways pin: right or left.
pub open spec fn sideways_sign(angle: int) -> int {
    if angle % 360 == 0 {
        1
    } else {
        -1
    }
}

/// The sums over the first `n` elements. A stub on the net is no anchor for
/// it.
pub open spec fn anchor_sums(
    spots: Seq<Spot>,
    checked: &CheckedNetlist,
    stubs: Seq<RailStub>,
    net: int,
    n: int,
) -> AnchorSums
    decreases n,
{
    if n <= 0 {
        AnchorSums { multi: (0, 0), sideways: (0, 0), direction: 0, any: (0, 0) }
    } else {
        let s = anchor_sums(spots, checked, stubs, net, n - 1);
        let i = n - 1;
        let e = checked.elements@[i];
        let o = spots[i].orientation;
        match e.pin_on(o, net) {
            Some(k) => if stubs_on(stubs, i, net) {
                s
            } else {
                let angle = e.symbol.posed(o).pins@[k].angle as int;
                let x = spots[i].origin.um().0 + e.symbol.posed(o).pins@[k].x;
                let wide = e.nodes@.len() >= 3;
                if angle % 180 == 0 {
                    if wide {
                        AnchorSums {
                            sideways: (s.sideways.0 + x, s.sideways.1 + 1),
                            direction: s.direction + sideways_sign(angle),
                            ..s
                        }
                    } else {
                        s
                    }
                } else if wide {
                    AnchorSums {
                        multi: (s.multi.0 + x, s.multi.1 + 1),
                        any: (s.any.0 + x, s.any.1 + 1),
                        ..s
                    }
                } else {
                    AnchorSums { any: (s.any.0 + x, s.any.1 + 1), ..s }
                }
            },
            None => s,
        }
    }
}

/// The anchor that the sums give: the vertical pins of larger elements if
/// there are any; else their sideways pins, if these agree on a direction and
/// the node has stubs on one side only; else the vertical pins of any
/// element.
pub open spec fn anchor_from(s: AnchorSums, both_sides: bool) -> Option<
    (int, int, bool, int),
> {
    if s.multi.1 > 0 {
        Some((s.multi.0, s.multi.1, true, 0))
    } else if !both_sides && s.sideways.1 > 0 && s.direction != 0 {
        Some(
            (
                s.sideways.0,
                s.sideways.1,
                true,
                if s.direction > 0 {
                    1int
                } else {
                    -1
                },
            ),
        )
    } else if s.any.1 == 0 {
        None
    } else {
        Some((s.any.0, s.any.1, false, 0))
    }
}

/// The anchor of a node.
pub open spec fn anchor_of(
    spots: Seq<Spot>,
    checked: &CheckedNetlist,
    stubs: Seq<RailStub>,
    net: int,
) -> Option<(int, int, bool, int)> {
    anchor_from(
        anchor_sums(spots, checked, stubs, net, checked.elements@.len() as int),
        side_taken(stubs, net, VertPref::Up) && side_taken(stubs, net, VertPref::Down),
    )
}

/// Every element that offers an anchor on the net is within `limit`.
pub open spec fn anchors_within(
    spots: Seq<Spot>,
    checked: &CheckedNetlist,
    stubs: Seq<RailStub>,
    net: int,
    limit: int,
) -> bool {
    forall|i: int|
        0 <= i < spots.len() && checked.touches(i, net) && !stubs_on(stubs, i, net)
            ==> (#[trigger] spots[i]).origin.within(limit)
}

/// The sums stay within what the anchors' positions allow.
proof fn anchor_sums_bound(
    spots: Seq<Spot>,
    checked: &CheckedNetlist,
    stubs: Seq<RailStub>,
    net: int,
    n: int,
    limit: int,
)
    requires
        checked.drawable(),
        spots.len() == checked.elements@.len(),
        0 <= n <= spots.len(),
        0 <= limit,
        anchors_within(spots, checked, stubs, net, limit),
    ensures
        ({
            let s = anchor_sums(spots, checked, stubs, net, n);
            let reach = limit * GRID_STEP + MAX_REACH;
            &&& 0 <= s.multi.1 <= n && -(s.multi.1 * reach) <= s.multi.0 <= s.multi.1 * reach
            &&& 0 <= s.sideways.1 <= n && -(s.sideways.1 * reach) <= s.sideways.0 <= s.sideways.1
                * reach
            &&& 0 <= s.any.1 <= n && -(s.any.1 * reach) <= s.any.0 <= s.any.1 * reach
            &&& -n <= s.direction <= n
        }),
    decreases n,
{
    if n > 0 {
        anchor_sums_bound(spots, checked, stubs, net, n - 1, limit);
        let s = anchor_sums(spots, checked, stubs, net, n - 1);
        let reach = limit * GRID_STEP + MAX_REACH;
        let i = n - 1;
        let e = checked.elements@[i];
        let o = spots[i].orientation;
        assert(e.symbol.wf());
        match e.pin_on(o, net) {
            Some(k) => {
                terminal_from_is_first(e.nodes@, net, 0);
                assert(checked.touches(i, net));
                if !stubs_on(stubs, i, net) {
                    assert(spots[i].origin.within(limit));
                    pin_offset_in_reach(e, o, net);
                    let x = spots[i].origin.um().0 + e.symbol.posed(o).pins@[k].x;
                    assert(-reach <= x <= reach) by (nonlinear_arith)
                        requires
                            -limit <= spots[i].origin.x <= limit,
                            x == spots[i].origin.x * GRID_STEP + e.symbol.posed(o).pins@[k].x,
                            -MAX_REACH <= e.symbol.posed(o).pins@[k].x <= MAX_REACH,
                            reach == limit * GRID_STEP + MAX_REACH,
                            GRID_STEP == 1270,
                    ;
                    assert((s.multi.1 + 1) * reach == s.multi.1 * reach + reach)
                        by (nonlinear_arith);
                    assert((s.sideways.1 + 1) * reach == s.sideways.1 * reach + reach)
                        by (nonlinear_arith);
                    assert((s.any.1 + 1) * reach == s.any.1 * reach + reach) by (nonlinear_arith);
                }
            },
            None => {},
        }
    }
}

/// The anchor of a node, from the placement as it is.
pub fn rail_stub_anchor_x(
    placement: &Placement,
    checked: &CheckedNetlist,
    stubs: &Vec<RailStub>,
    net: usize,
) -> (r: Option<RailStubAnchor>)
    requires
        checked.drawable(),
        places(placement, checked),
        anchors_within(placement.spots(), checked, stubs@, net as int, MAX_COORD as int),
    ensures
        match r {
            Some(a) => {
                &&& anchor_of(placement.spots(), checked, stubs@, net as int) == Some(
                    (a.sum as int, a.count as int, a.strong, a.outward as int),
                )
                &&& 0 < a.count <= MAX_ELEMENTS
                &&& -1 <= a.outward <= 1
                &&& -96_000_000_000_000_000 <= a.sum <= 96_000_000_000_000_000
            },
            None => anchor_of(placement.spots(), checked, stubs@, net as int) is None,
        },
{
    let ghost spots = placement.spots();
    let n: usize = checked.elements.len();
    let (mut multi_sum, mut multi_n): (i64, i64) = (0, 0);
    let (mut side_sum, mut side_n): (i64, i64) = (0, 0);
    let mut direction: i64 = 0;
    let (mut any_sum, mut any_n): (i64, i64) = (0, 0);
    let mut i: usize = 0;
    while i < n
        invariant
            i <= n,
            n == checked.elements@.len(),
            checked.drawable(),
            placement.elements@.len() == checked.elements@.len(),
            spots == placement.spots(),
            anchors_within(spots, checked, stubs@, net as int, MAX_COORD as int),
            anchor_sums(spots, checked, stubs@, net as int, i as int) == (AnchorSums {
                multi: (multi_sum as int, multi_n as int),
                sideways: (side_sum as int, side_n as int),
                direction: direction as int,
                any: (any_sum as int, any_n as int),
            }),
        decreases n - i,
    {
        proof {
            anchor_sums_bound(spots, checked, stubs@, net as int, i as int, MAX_COORD as int);
            anchor_sums_bound(spots, checked, stubs@, net as int, i + 1, MAX_COORD as int);
            assert(checked.elements@[i as int].symbol.wf());
            let reach = MAX_COORD * GRID_STEP + MAX_REACH;
            let s = anchor_sums(spots, checked, stubs@, net as int, i + 1);
            assert(s.multi.1 * reach <= 65536 * reach && s.sideways.1 * reach <= 65536 * reach
                && s.any.1 * reach <= 65536 * reach) by (nonlinear_arith)
                requires
                    s.multi.1 <= 65536,
                    s.sideways.1 <= 65536,
                    s.any.1 <= 65536,
                    reach >= 0,
            ;
        }
        let e = &checked.elements[i];
        let o = placement.elements[i].orientation;
        assert(spots[i as int].orientation == o);
        match e.net_pin(o, net) {
            Some(k) => {
                if !is_stub_on(stubs, i, net) {
                    let pose = e.symbol.pose(o);
                    let p = &pose.pins[k];
                    let (ox, _) = placement.elements[i].origin.to_um();
                    assert(spots[i as int].origin.um().0 == ox);
                    let x: i64 = ox + p.x as i64;
                    let wide = e.nodes.len() >= 3;
                    if p.angle % 180 == 0 {
                        if wide {
                            side_sum = side_sum + x;
                            side_n = side_n + 1;
                            if p.angle % 360 == 0 {
                                direction = direction + 1;
                            } else {
                                direction = direction - 1;
                            }
                        }
                    } else {
                        if wide {
                            multi_sum = multi_sum + x;
                            multi_n = multi_n + 1;
                        }
                        any_sum = any_sum + x;
                        any_n = any_n + 1;
                    }
                }
            },
            None => {},
        }
        i = i + 1;
    }
    proof {
        anchor_sums_bound(spots, checked, stubs@, net as int, n as int, MAX_COORD as int);
        let reach = MAX_COORD * GRID_STEP + MAX_REACH;
        assert(multi_n * reach <= 65536 * reach && side_n * reach <= 65536 * reach && any_n * reach
            <= 65536 * reach) by (nonlinear_arith)
            requires
                multi_n <= 65536,
                side_n <= 65536,
                any_n <= 65536,
                reach >= 0,
        ;
    }
    if multi_n > 0 {
        return Some(RailStubAnchor { sum: multi_sum, count: multi_n, strong: true, outward: 0 });
    }
    let both = has_side(stubs, net, VertPref::Up) && has_side(stubs, net, VertPref::Down);
    if !both && side_n > 0 && direction != 0 {
        let outward: i32 = if direction > 0 {
            1
        } else {
            -1
        };
        return Some(RailStubAnchor { sum: side_sum, count: side_n, strong: true, outward });
    }
    if any_n == 0 {
        return None;
    }
    Some(RailStubAnchor { sum: any_sum, count: any_n, strong: false, outward: 0 })
}

/// The space of a placed element without its text.
pub open spec fn placed_extent(spots: Seq<Spot>, checked: &CheckedNetlist, i: int) -> Bounds {
    extent_of(checked.elements@[i].symbol, spots[i].orientation, None)
}

/// The farthest that one of the first `n` listed elements reaches back
/// towards a pin that faces `outward`.
pub open spec fn reach_back(
    spots: Seq<Spot>,
    checked: &CheckedNetlist,
    ids: Seq<usize>,
    outward: int,
    n: int,
) -> int
    decreases n,
{
    if n <= 0 {
        0
    } else {
        let b = placed_extent(spots, checked, ids[n - 1] as int);
        int_max(
            reach_back(spots, checked, ids, outward, n - 1),
            if outward > 0 {
                -b.min_x
            } else {
                b.max_x
            },
        )
    }
}

/// The column in which a group of stubs stands, as a fraction: the anchor's
/// mean, or for a sideways anchor the smallest whole number of steps outward
/// of it at which the widest member clears the pin.
pub open spec fn column_x(
    spots: Seq<Spot>,
    checked: &CheckedNetlist,
    anchor: (int, int, bool, int),
    ids: Seq<usize>,
) -> (int, int) {
    if anchor.3 == 0 {
        (anchor.0, anchor.1)
    } else {
        let cells = stride_steps(
            reach_back(spots, checked, ids, anchor.3, ids.len() as int) + MIN_CLEARANCE,
        );
        (anchor.0 + anchor.3 * cells * GRID_STEP * anchor.1, anchor.1)
    }
}

/// Every listed element is in the netlist.
pub open spec fn ids_in_range(checked: &CheckedNetlist, ids: Seq<usize>) -> bool {
    forall|k: int| 0 <= k < ids.len() ==> (#[trigger] ids[k]) < checked.elements@.len()
}

/// Resolves an anchor into the column for a group of stubs, as a numerator
/// over the anchor's count.
pub fn anchored_column_x(
    placement: &Placement,
    checked: &CheckedNetlist,
    anchor: RailStubAnchor,
    members: &Vec<usize>,
) -> (r: i64)
    requires
        checked.drawable(),
        placement.elements@.len() == checked.elements@.len(),
        ids_in_range(checked, members@),
        0 < anchor.count <= MAX_ELEMENTS,
        -1 <= anchor.outward <= 1,
        -96_000_000_000_000_000 <= anchor.sum <= 96_000_000_000_000_000,
    ensures
        (r as int, anchor.count as int) == column_x(
            placement.spots(),
            checked,
            (anchor.sum as int, anchor.count as int, anchor.strong, anchor.outward as int),
            members@,
        ),
        anchor.sum - 1000 * 1270 * anchor.count <= r <= anchor.sum + 1000 * 1270 * anchor.count,
{
    if anchor.outward == 0 {
        return anchor.sum;
    }
    let ghost spots = placement.spots();
    let mut reach: i64 = 0;
    let mut k: usize = 0;
    while k < members.len()
        invariant
            k <= members@.len(),
            checked.drawable(),
            spots == placement.spots(),
            placement.elements@.len() == checked.elements@.len(),
            ids_in_range(checked, members@),
            reach == reach_back(spots, checked, members@, anchor.outward as int, k as int),
            0 <= reach <= EXTENT_LIMIT,
        decreases members@.len() - k,
    {
        let i: usize = members[k];
        assert(checked.elements@[i as int].symbol.wf());
        let o = placement.elements[i].orientation;
        assert(spots[i as int].orientation == o);
        let ext = world_extent(&checked.elements[i].symbol, o, &None);
        proof {
            extents_are_limited(checked.elements@[i as int], o, None, seq![]);
        }
        let toward: i64 = if anchor.outward > 0 {
            -ext.min_x
        } else {
            ext.max_x
        };
        if toward > reach {
            reach = toward;
        }
        k = k + 1;
    }
    let cells: i32 = up_to_cells(reach + MIN_CLEARANCE);
    assert(1 <= cells <= 1000);
    let step: i64 = if anchor.outward > 0 {
        cells as i64 * GRID_STEP
    } else {
        -(cells as i64 * GRID_STEP)
    };
    assert(step == anchor.outward * cells * GRID_STEP) by (nonlinear_arith)
        requires
            anchor.outward == 1 && step == cells * GRID_STEP || anchor.outward == -1 && step == -(
            cells * GRID_STEP),
    ;
    assert(-1_270_000 * anchor.count <= step * anchor.count <= 1_270_000 * anchor.count)
        by (nonlinear_arith)
        requires
            -1_270_000 <= step <= 1_270_000,
            0 < anchor.count <= 65536,
    ;
    assert(anchor.outward * cells * GRID_STEP * anchor.count == step * anchor.count);
    anchor.sum + step * anchor.count
}

/// The elements of the stubs on the net that run to the side, among the first
/// `n` stubs.
pub open spec fn group_of(stubs: Seq<RailStub>, net: int, side: VertPref, n: int) -> Seq<usize>
    decreases n,
{
    if n <= 0 {
        seq![]
    } else {
        let rest = group_of(stubs, net, side, n - 1);
        if stubs[n - 1].signal_net == net && stubs[n - 1].side == side {
            rest.push(stubs[n - 1].element)
        } else {
            rest
        }
    }
}

/// The stride of a row of stubs: at least a cell, and wide enough for every
/// two neighbours among the first `n`.
pub open spec fn row_stride(
    spots: Seq<Spot>,
    checked: &CheckedNetlist,
    ids: Seq<usize>,
    n: int,
) -> int
    decreases n,
{
    if n <= 1 {
        CELL_W as int
    } else {
        let a = placed_extent(spots, checked, ids[n - 2] as int);
        let b = placed_extent(spots, checked, ids[n - 1] as int);
        int_max(
            row_stride(spots, checked, ids, n - 1),
            stride_steps(a.max_x - b.min_x + MIN_CLEARANCE),
        )
    }
}

/// The offset of a slot from the middle of its row, in steps.
pub open spec fn slot_offset(slot: int, count: int, stride: int) -> int {
    slot * stride - ((count - 1) * stride) / 2
}

/// Where a stub's origin goes: its pin on the net moves to the slot's column,
/// to the nearest grid step.
pub open spec fn slot_spot(
    spot: Spot,
    e: ResolvedElement,
    net: int,
    column: (int, int),
    offset: int,
) -> Spot {
    match pin_xy(spot, e, net) {
        Some(p) => {
            let dx = round_div(
                column.0 + offset * GRID_STEP * column.1 - p.0 * column.1,
                GRID_STEP * column.1,
            );
            Spot {
                origin: GridPoint { x: (spot.origin.x + dx) as i32, y: spot.origin.y },
                orientation: spot.orientation,
            }
        },
        None => spot,
    }
}

/// The spots after the first `n` members of a row have been put into their
/// slots.
pub open spec fn spread(
    spots: Seq<Spot>,
    checked: &CheckedNetlist,
    ids: Seq<usize>,
    net: int,
    column: (int, int),
    stride: int,
    n: int,
) -> Seq<Spot>
    decreases n,
{
    if n <= 0 {
        spots
    } else {
        let rest = spread(spots, checked, ids, net, column, stride, n - 1);
        let i = ids[n - 1] as int;
        rest.update(
            i,
            slot_spot(
                rest[i],
                checked.elements@[i],
                net,
                column,
                slot_offset(n - 1, ids.len() as int, stride),
            ),
        )
    }
}

/// Some listed element is marked.
pub open spec fn any_marked(mask: Seq<bool>, ids: Seq<usize>) -> bool {
    exists|k: int| 0 <= k < ids.len() && mask[#[trigger] ids[k] as int]
}

/// The spots after the stubs of one node and side have been moved into its
/// column. Nothing moves when the node has no anchor, when a member is
/// locked, or when the anchor is weak and a member was released from a
/// symmetry pin.
pub open spec fn group_columned(
    spots: Seq<Spot>,
    checked: &CheckedNetlist,
    stubs: Seq<RailStub>,
    locked: Seq<bool>,
    released: Seq<bool>,
    net: int,
    side: VertPref,
) -> Seq<Spot> {
    let ids = group_of(stubs, net, side, stubs.len() as int);
    match anchor_of(spots, checked, stubs, net) {
        None => spots,
        Some(anchor) => if ids.len() == 0 || any_marked(locked, ids) || (!anchor.2 && any_marked(
            released,
            ids,
        )) {
            spots
        } else {
            spread(
                spots,
                checked,
                ids,
                net,
                column_x(spots, checked, anchor, ids),
                row_stride(spots, checked, ids, ids.len() as int),
                ids.len() as int,
            )
        },
    }
}

/// The spots after the first `n` nodes have been handled, in net order, the
/// upper side of each before the lower.
pub open spec fn columned(
    spots: Seq<Spot>,
    checked: &CheckedNetlist,
    stubs: Seq<RailStub>,
    locked: Seq<bool>,
    released: Seq<bool>,
    n: int,
) -> Seq<Spot>
    decreases n,
{
    if n <= 0 {
        spots
    } else {
        let before = columned(spots, checked, stubs, locked, released, n - 1);
        group_columned(
            group_columned(before, checked, stubs, locked, released, n - 1, VertPref::Up),
            checked,
            stubs,
            locked,
            released,
            n - 1,
            VertPref::Down,
        )
    }
}

/// The list names the element.
pub open spec fn is_listed(stubs: Seq<RailStub>, i: int) -> bool {
    exists|k: int| 0 <= k < stubs.len() && (#[trigger] stubs[k]).element == i
}

/// No element of the list is an anchor for another: one that touches the node
/// of some stub is itself listed as a stub on that node. Anchors then stay
/// where they are while the pass runs, so that no column drifts off the sheet.
/// Every list of stubs that [`detect_rail_stubs`] finds is like this, in any
/// order and with any of them left out.
pub open spec fn anchors_stay(checked: &CheckedNetlist, stubs: Seq<RailStub>) -> bool {
    &&& stubs.len() <= MAX_ELEMENTS
    &&& forall|k: int|
        0 <= k < stubs.len() ==> (#[trigger] stubs[k]).element < checked.elements@.len()
    &&& forall|j: int, k: int|
        0 <= j < stubs.len() && 0 <= k < stubs.len() && checked.touches(
            (#[trigger] stubs[j]).element as int,
            (#[trigger] stubs[k]).signal_net as int,
        ) ==> stubs_on(stubs, stubs[j].element as int, stubs[k].signal_net as int)
}

/// Stubs that were detected are no anchors for each other, whichever of them
/// are listed and in whatever order.
pub proof fn detected_stubs_stay(checked: &CheckedNetlist, stubs: Seq<RailStub>)
    requires
        checked.wf(),
        stubs.len() <= MAX_ELEMENTS,
        forall|k: int| 0 <= k < stubs.len() ==> all_stubs(checked).contains(#[trigger] stubs[k]),
    ensures
        anchors_stay(checked, stubs),
{
    let all = all_stubs(checked);
    stubs_listed(checked, checked.elements@.len() as int);
    assert forall|k: int| 0 <= k < stubs.len() implies (#[trigger] stubs[k]).element
        < checked.elements@.len() && stub_of(checked, stubs[k].element as int) == Some(
        stubs[k],
    ) by {
        assert(all.contains(stubs[k]));
        let m = choose|m: int| 0 <= m < all.len() && all[m] == stubs[k];
        assert(stub_of(checked, all[m].element as int) == Some(all[m]));
    }
    assert forall|j: int, k: int|
        0 <= j < stubs.len() && 0 <= k < stubs.len() && checked.touches(
            (#[trigger] stubs[j]).element as int,
            (#[trigger] stubs[k]).signal_net as int,
        ) implies stubs_on(stubs, stubs[j].element as int, stubs[k].signal_net as int) by {
        let i = stubs[j].element as int;
        let net = stubs[k].signal_net as int;
        assert(stub_of(checked, stubs[k].element as int) == Some(stubs[k]));
        assert(checked.vert_pref_of(net) is None);
        assert(stub_of(checked, i) == Some(stubs[j]));
        let e = checked.elements@[i];
        let m = choose|m: int| 0 <= m < e.nodes@.len() && #[trigger] e.nodes@[m] == net;
        assert(m == 0 || m == 1);
        assert(stubs[j].signal_net == net);
    }
}

/// Between the spots only the X of unlocked listed elements differs, and none
/// of them lies beyond the limit by more than the spread.
pub open spec fn only_stubs_slid(
    a: Seq<Spot>,
    b: Seq<Spot>,
    stubs: Seq<RailStub>,
    locked: Seq<bool>,
    limit: int,
) -> bool {
    &&& a.len() == b.len()
    &&& forall|i: int|
        0 <= i < a.len() ==> {
            &&& (#[trigger] b[i]).orientation == a[i].orientation
            &&& b[i].origin.y == a[i].origin.y
            &&& !is_listed(stubs, i) || locked[i] ==> b[i] == a[i]
            &&& -(limit + STUB_SPREAD) <= b[i].origin.x <= limit + STUB_SPREAD
        }
}

/// A group holds elements that are listed as stubs on its net.
proof fn group_members(
    checked: &CheckedNetlist,
    stubs: Seq<RailStub>,
    net: int,
    side: VertPref,
    n: int,
)
    requires
        anchors_stay(checked, stubs),
        0 <= n <= stubs.len(),
    ensures
        ({
            let ids = group_of(stubs, net, side, n);
            &&& ids.len() <= n
            &&& ids_in_range(checked, ids)
            &&& forall|k: int|
                0 <= k < ids.len() ==> stubs_on(stubs, (#[trigger] ids[k]) as int, net)
        }),
    decreases n,
{
    if n > 0 {
        group_members(checked, stubs, net, side, n - 1);
        let rest = group_of(stubs, net, side, n - 1);
        let ids = group_of(stubs, net, side, n);
        assert forall|k: int| 0 <= k < ids.len() implies (#[trigger] ids[k])
            < checked.elements@.len() && stubs_on(stubs, ids[k] as int, net) by {
            if k < rest.len() {
                assert(ids[k] == rest[k]);
            } else {
                assert(stubs[n - 1].element == ids[k]);
            }
        }
    }
}

/// The stride of a row is bounded by the extents.
proof fn row_stride_bound(spots: Seq<Spot>, checked: &CheckedNetlist, ids: Seq<usize>, n: int)
    requires
        checked.drawable(),
        spots.len() == checked.elements@.len(),
        ids_in_range(checked, ids),
        n <= ids.len(),
    ensures
        6 <= row_stride(spots, checked, ids, n) <= 1735,
    decreases n,
{
    if n > 1 {
        row_stride_bound(spots, checked, ids, n - 1);
        let (i, j) = (ids[n - 2] as int, ids[n - 1] as int);
        assert(checked.elements@[i].symbol.wf());
        assert(checked.elements@[j].symbol.wf());
        extents_are_limited(checked.elements@[i], spots[i].orientation, None, seq![]);
        extents_are_limited(checked.elements@[j], spots[j].orientation, None, seq![]);
    }
}

/// A slot lies in the spread about its column.
proof fn slot_bound(
    spot: Spot,
    e: ResolvedElement,
    net: int,
    column: (int, int),
    offset: int,
    limit: int,
)
    requires
        e.symbol.wf(),
        0 <= limit,
        0 < column.1 <= MAX_ELEMENTS,
        -(column.1 * (limit * 1270 + 2_270_000)) <= column.0 <= column.1 * (limit * 1270
            + 2_270_000),
        -114_000_000 <= offset <= 114_000_000,
    ensures
        pin_xy(spot, e, net) matches Some(p) ==> -(limit + STUB_SPREAD) <= spot.origin.x
            + round_div(
            column.0 + offset * GRID_STEP * column.1 - p.0 * column.1,
            GRID_STEP * column.1,
        ) <= limit + STUB_SPREAD,
{
    pin_offset_in_reach(e, spot.orientation, net);
    match pin_xy(spot, e, net) {
        Some(p) => {
            let c = column.1;
            let d = GRID_STEP * c;
            let m = column.0 + offset * GRID_STEP * c - p.0 * c;
            let r = round_div(m, d);
            rounding_is_nearest(m, d);
            let off = p.0 - spot.origin.x * GRID_STEP;
            let x = spot.origin.x as int;
            let t = column.0;
            assert(offset * GRID_STEP * c == offset * d) by (nonlinear_arith)
                requires
                    d == GRID_STEP * c,
            ;
            assert(p.0 * c == x * d + off * c) by (nonlinear_arith)
                requires
                    p.0 == x * GRID_STEP + off,
                    d == GRID_STEP * c,
            ;
            let z = x + r - offset;
            assert(z * d == x * d + r * d - offset * d) by (nonlinear_arith)
                requires
                    z == x + r - offset,
            ;
            assert(-(limit + 3000) <= z <= limit + 3000) by (nonlinear_arith)
                requires
                    d == 1270 * c,
                    c > 0,
                    -d <= 2 * (z * d - (t - off * c)) <= d,
                    -1_000_000 <= off <= 1_000_000,
                    -(c * (limit * 1270 + 2_270_000)) <= t <= c * (limit * 1270 + 2_270_000),
            ;
        },
        None => {},
    }
}

/// The column of a group lies near its anchors.
proof fn column_bound(
    spots: Seq<Spot>,
    checked: &CheckedNetlist,
    stubs: Seq<RailStub>,
    net: int,
    ids: Seq<usize>,
    limit: int,
)
    requires
        checked.drawable(),
        spots.len() == checked.elements@.len(),
        ids_in_range(checked, ids),
        0 <= limit,
        anchors_within(spots, checked, stubs, net, limit),
    ensures
        anchor_of(spots, checked, stubs, net) matches Some(anchor) ==> {
            let c = column_x(spots, checked, anchor, ids);
            &&& 0 < c.1 <= MAX_ELEMENTS
            &&& -(c.1 * (limit * 1270 + 2_270_000)) <= c.0 <= c.1 * (limit * 1270 + 2_270_000)
        },
{
    anchor_sums_bound(spots, checked, stubs, net, checked.elements@.len() as int, limit);
    match anchor_of(spots, checked, stubs, net) {
        Some(anchor) => {
            let reach = limit * GRID_STEP + MAX_REACH;
            let n = anchor.1;
            reach_back_bound(spots, checked, ids, anchor.3, ids.len() as int);
            let cells = stride_steps(
                reach_back(spots, checked, ids, anchor.3, ids.len() as int) + MIN_CLEARANCE,
            );
            let add = anchor.3 * cells * GRID_STEP * n;
            if anchor.3 != 0 {
                assert(-(n * 1_270_000) <= add <= n * 1_270_000) by (nonlinear_arith)
                    requires
                        add == anchor.3 * cells * GRID_STEP * n,
                        anchor.3 == 1 || anchor.3 == -1,
                        1 <= cells <= 1000,
                        GRID_STEP == 1270,
                        n >= 0,
                ;
            }
            assert(n * reach + n * 1_270_000 == n * (limit * 1270 + 2_270_000))
                by (nonlinear_arith)
                requires
                    reach == limit * 1270 + 1_000_000,
            ;
        },
        None => {},
    }
}

proof fn reach_back_bound(
    spots: Seq<Spot>,
    checked: &CheckedNetlist,
    ids: Seq<usize>,
    outward: int,
    n: int,
)
    requires
        checked.drawable(),
        spots.len() == checked.elements@.len(),
        ids_in_range(checked, ids),
        n <= ids.len(),
    ensures
        0 <= reach_back(spots, checked, ids, outward, n) <= EXTENT_LIMIT,
    decreases n,
{
    if n > 0 {
        reach_back_bound(spots, checked, ids, outward, n - 1);
        let i = ids[n - 1] as int;
        assert(checked.elements@[i].symbol.wf());
        extents_are_limited(checked.elements@[i], spots[i].orientation, None, seq![]);
    }
}

/// Slot offsets are bounded by the row's length.
proof fn slot_offset_bound(slot: int, n: int, stride: int)
    requires
        0 <= slot < n <= MAX_ELEMENTS,
        0 <= stride <= 1735,
    ensures
        -114_000_000 <= slot_offset(slot, n, stride) <= 114_000_000,
{
    assert(0 <= slot * stride <= 65536 * 1735) by (nonlinear_arith)
        requires
            0 <= slot <= 65536,
            0 <= stride <= 1735,
    ;
    assert(0 <= (n - 1) * stride <= 65536 * 1735) by (nonlinear_arith)
        requires
            0 <= n - 1 <= 65536,
            0 <= stride <= 1735,
    ;
}

/// Spreading a row slides only its members.
proof fn spread_slides(
    spots: Seq<Spot>,
    checked: &CheckedNetlist,
    ids: Seq<usize>,
    net: int,
    column: (int, int),
    stride: int,
    n: int,
    limit: int,
)
    requires
        checked.drawable(),
        spots.len() == checked.elements@.len(),
        ids_in_range(checked, ids),
        ids.len() <= MAX_ELEMENTS,
        0 <= n <= ids.len(),
        0 <= limit <= MAX_COORD,
        0 <= stride <= 1735,
        0 < column.1 <= MAX_ELEMENTS,
        -(column.1 * (limit * 1270 + 2_270_000)) <= column.0 <= column.1 * (limit * 1270
            + 2_270_000),
    ensures
        ({
            let after = spread(spots, checked, ids, net, column, stride, n);
            &&& after.len() == spots.len()
            &&& forall|i: int|
                0 <= i < spots.len() ==> {
                    &&& (#[trigger] after[i]).orientation == spots[i].orientation
                    &&& after[i].origin.y == spots[i].origin.y
                    &&& after[i] == spots[i] || (exists|k: int| 0 <= k < n && ids[k] == i)
                    &&& after[i] == spots[i] || (-(limit + STUB_SPREAD) <= after[i].origin.x
                        <= limit + STUB_SPREAD)
                }
        }),
    decreases n,
{
    if n > 0 {
        spread_slides(spots, checked, ids, net, column, stride, n - 1, limit);
        let rest = spread(spots, checked, ids, net, column, stride, n - 1);
        let after = spread(spots, checked, ids, net, column, stride, n);
        let j = ids[n - 1] as int;
        assert(checked.elements@[j].symbol.wf());
        slot_offset_bound(n - 1, ids.len() as int, stride);
        slot_bound(
            rest[j],
            checked.elements@[j],
            net,
            column,
            slot_offset(n - 1, ids.len() as int, stride),
            limit,
        );
        assert forall|i: int| 0 <= i < spots.len() implies {
            &&& (#[trigger] after[i]).orientation == spots[i].orientation
            &&& after[i].origin.y == spots[i].origin.y
            &&& after[i] == spots[i] || (exists|k: int| 0 <= k < n && ids[k] == i)
            &&& after[i] == spots[i] || (-(limit + STUB_SPREAD) <= after[i].origin.x <= limit
                + STUB_SPREAD)
        } by {
            assert(rest[i].orientation == spots[i].orientation);
            if i == j {
                assert(ids[n - 1] == i);
            }
        }
    }
}

/// What handling one group does.
proof fn group_slides(
    start: Seq<Spot>,
    spots: Seq<Spot>,
    checked: &CheckedNetlist,
    stubs: Seq<RailStub>,
    locked: Seq<bool>,
    released: Seq<bool>,
    net: int,
    side: VertPref,
    limit: int,
)
    requires
        checked.drawable(),
        start.len() == checked.elements@.len(),
        spots_within(start, limit),
        0 <= limit <= MAX_COORD,
        anchors_stay(checked, stubs),
        only_stubs_slid(start, spots, stubs, locked, limit),
    ensures
        only_stubs_slid(
            start,
            group_columned(spots, checked, stubs, locked, released, net, side),
            stubs,
            locked,
            limit,
        ),
        group_of(stubs, net, side, stubs.len() as int).len() > 0
            ==> anchors_within(spots, checked, stubs, net, limit),
{
    let ids = group_of(stubs, net, side, stubs.len() as int);
    group_members(checked, stubs, net, side, stubs.len() as int);
    if ids.len() > 0 {
        assert(stubs_on(stubs, ids[0] as int, net));
        let k = choose|k: int|
            0 <= k < stubs.len() && (#[trigger] stubs[k]).element == ids[0] as int
                && stubs[k].signal_net == net;
        assert forall|i: int|
            0 <= i < spots.len() && checked.touches(i, net) && !stubs_on(stubs, i, net) implies (
        #[trigger] spots[i]).origin.within(limit) by {
            if is_listed(stubs, i) {
                let j = choose|j: int| 0 <= j < stubs.len() && (#[trigger] stubs[j]).element == i;
                assert(stubs_on(stubs, stubs[j].element as int, stubs[k].signal_net as int));
            }
            assert(spots[i] == start[i]);
            assert(start[i].origin.within(limit));
        }
        match anchor_of(spots, checked, stubs, net) {
            Some(anchor) => {
                if !any_marked(locked, ids) && !(!anchor.2 && any_marked(released, ids)) {
                    let column = column_x(spots, checked, anchor, ids);
                    let stride = row_stride(spots, checked, ids, ids.len() as int);
                    column_bound(spots, checked, stubs, net, ids, limit);
                    row_stride_bound(spots, checked, ids, ids.len() as int);
                    spread_slides(
                        spots,
                        checked,
                        ids,
                        net,
                        column,
                        stride,
                        ids.len() as int,
                        limit,
                    );
                    let after = spread(
                        spots,
                        checked,
                        ids,
                        net,
                        column,
                        stride,
                        ids.len() as int,
                    );
                    assert forall|i: int| 0 <= i < start.len() implies {
                        &&& (#[trigger] after[i]).orientation == start[i].orientation
                        &&& after[i].origin.y == start[i].origin.y
                        &&& !is_listed(stubs, i) || locked[i] ==> after[i] == start[i]
                        &&& -(limit + STUB_SPREAD) <= after[i].origin.x <= limit + STUB_SPREAD
                    } by {
                        assert(spots[i].orientation == start[i].orientation);
                        if after[i] != spots[i] {
                            let m = choose|m: int| 0 <= m < ids.len() && ids[m] == i;
                            assert(stubs_on(stubs, ids[m] as int, net));
                            assert(is_listed(stubs, i)) by {
                                let q = choose|q: int|
                                    0 <= q < stubs.len() && (#[trigger] stubs[q]).element
                                        == ids[m] as int && stubs[q].signal_net == net;
                                assert(stubs[q].element == i);
                            }
                            assert(!locked[ids[m] as int]);
                        }
                    }
                }
            },
            None => {},
        }
    }
}

/// A stub is pin-anchored: put into a slot, its pin on the node is at most half
/// a grid step from the slot's column.
pub proof fn stub_pins_reach_their_slots(
    spot: Spot,
    e: ResolvedElement,
    net: int,
    column: (int, int),
    offset: int,
    limit: int,
)
    requires
        e.symbol.wf(),
        0 <= limit <= MAX_COORD,
        0 < column.1 <= MAX_ELEMENTS,
        -(column.1 * (limit * 1270 + 2_270_000)) <= column.0 <= column.1 * (limit * 1270
            + 2_270_000),
        -114_000_000 <= offset <= 114_000_000,
    ensures
        pin_xy(slot_spot(spot, e, net, column, offset), e, net) matches Some(p) ==> {
            let slot = column.0 + offset * GRID_STEP * column.1;
            -(GRID_STEP * column.1) <= 2 * (p.0 * column.1 - slot) <= GRID_STEP * column.1
        },
{
    match pin_xy(spot, e, net) {
        Some(p) => {
            slot_bound(spot, e, net, column, offset, limit);
            let c = column.1;
            let d = GRID_STEP * c;
            let slot = column.0 + offset * GRID_STEP * c;
            let m = slot - p.0 * c;
            let r = round_div(m, d);
            rounding_is_nearest(m, d);
            let q = pin_xy(slot_spot(spot, e, net, column, offset), e, net)->0;
            assert(q.0 == p.0 + GRID_STEP * r);
            assert(q.0 * c == p.0 * c + r * d) by (nonlinear_arith)
                requires
                    q.0 == p.0 + GRID_STEP * r,
                    d == GRID_STEP * c,
            ;
        },
        None => {},
    }
}

/// The pass moves nothing but the X of unlocked stubs.
pub proof fn columns_slide_only_stubs(
    spots: Seq<Spot>,
    checked: &CheckedNetlist,
    stubs: Seq<RailStub>,
    locked: Seq<bool>,
    released: Seq<bool>,
    n: int,
    limit: int,
)
    requires
        checked.drawable(),
        spots.len() == checked.elements@.len(),
        spots_within(spots, limit),
        0 <= limit <= MAX_COORD,
        anchors_stay(checked, stubs),
    ensures
        only_stubs_slid(
            spots,
            columned(spots, checked, stubs, locked, released, n),
            stubs,
            locked,
            limit,
        ),
    decreases n,
{
    if n > 0 {
        columns_slide_only_stubs(spots, checked, stubs, locked, released, n - 1, limit);
        let before = columned(spots, checked, stubs, locked, released, n - 1);
        let mid = group_columned(before, checked, stubs, locked, released, n - 1, VertPref::Up);
        group_slides(spots, before, checked, stubs, locked, released, n - 1, VertPref::Up, limit);
        group_slides(spots, mid, checked, stubs, locked, released, n - 1, VertPref::Down, limit);
    } else {
        assert forall|i: int| 0 <= i < spots.len() implies -(limit + STUB_SPREAD) <= (
        #[trigger] spots[i]).origin.x <= limit + STUB_SPREAD by {
            assert(spots[i].origin.within(limit));
        }
    }
}

/// Whether a listed element is marked.
fn some_marked(mask: &Vec<bool>, ids: &Vec<usize>) -> (r: bool)
    requires
        forall|k: int| 0 <= k < ids@.len() ==> (#[trigger] ids@[k]) < mask@.len(),
    ensures
        r == any_marked(mask@, ids@),
{
    let mut k: usize = 0;
    while k < ids.len()
        invariant
            k <= ids@.len(),
            forall|j: int| 0 <= j < ids@.len() ==> (#[trigger] ids@[j]) < mask@.len(),
            forall|j: int| 0 <= j < k ==> !mask@[#[trigger] ids@[j] as int],
        decreases ids@.len() - k,
    {
        let i: usize = ids[k];
        if mask[i] {
            assert(mask@[ids@[k as int] as int]);
            return true;
        }
        k = k + 1;
    }
    false
}

/// The stubs on a net that run to a side.
fn stub_group(stubs: &Vec<RailStub>, net: usize, side: VertPref) -> (r: Vec<usize>)
    ensures
        r@ == group_of(stubs@, net as int, side, stubs@.len() as int),
{
    let mut out: Vec<usize> = Vec::new();
    let mut k: usize = 0;
    while k < stubs.len()
        invariant
            k <= stubs@.len(),
            out@ == group_of(stubs@, net as int, side, k as int),
        decreases stubs@.len() - k,
    {
        if stubs[k].signal_net == net && stubs[k].side == side {
            out.push(stubs[k].element);
        }
        k = k + 1;
    }
    out
}

/// The stride of a row of stubs.
fn stub_row_stride(placement: &Placement, checked: &CheckedNetlist, ids: &Vec<usize>) -> (r: i32)
    requires
        checked.drawable(),
        placement.elements@.len() == checked.elements@.len(),
        ids_in_range(checked, ids@),
        ids@.len() > 0,
    ensures
        r == row_stride(placement.spots(), checked, ids@, ids@.len() as int),
        6 <= r <= 1735,
{
    let ghost spots = placement.spots();
    let mut stride: i32 = CELL_W;
    let mut k: usize = 1;
    while k < ids.len()
        invariant
            1 <= k <= ids@.len(),
            checked.drawable(),
            spots == placement.spots(),
            placement.elements@.len() == checked.elements@.len(),
            ids_in_range(checked, ids@),
            stride == row_stride(spots, checked, ids@, k as int),
        decreases ids@.len() - k,
    {
        let (i, j) = (ids[k - 1], ids[k]);
        assert(checked.elements@[i as int].symbol.wf());
        assert(checked.elements@[j as int].symbol.wf());
        let (oi, oj) = (placement.elements[i].orientation, placement.elements[j].orientation);
        assert(spots[i as int].orientation == oi && spots[j as int].orientation == oj);
        let a = world_extent(&checked.elements[i].symbol, oi, &None);
        let b = world_extent(&checked.elements[j].symbol, oj, &None);
        proof {
            extents_are_limited(checked.elements@[i as int], oi, None, seq![]);
            extents_are_limited(checked.elements@[j as int], oj, None, seq![]);
        }
        let need: i32 = up_to_cells(a.max_x - b.min_x + MIN_CLEARANCE);
        if need > stride {
            stride = need;
        }
        k = k + 1;
    }
    proof {
        row_stride_bound(spots, checked, ids@, ids@.len() as int);
    }
    stride
}

/// Moves the stubs of one node and side into its column.
fn column_group(
    placement: &mut Placement,
    locked: &Vec<bool>,
    released: &Vec<bool>,
    checked: &CheckedNetlist,
    stubs: &Vec<RailStub>,
    net: usize,
    side: VertPref,
    Ghost(start): Ghost<Seq<Spot>>,
)
    requires
        checked.drawable(),
        anchors_stay(checked, stubs@),
        places(&*old(placement), checked),
        locked@.len() == checked.elements@.len(),
        released@.len() == checked.elements@.len(),
        start.len() == checked.elements@.len(),
        spots_within(start, MAX_COORD as int),
        only_stubs_slid(start, old(placement).spots(), stubs@, locked@, MAX_COORD as int),
    ensures
        same_parts(*old(placement), *final(placement)),
        final(placement).spots() == group_columned(
            old(placement).spots(),
            checked,
            stubs@,
            locked@,
            released@,
            net as int,
            side,
        ),
{
    let ids = stub_group(stubs, net, side);
    let ghost before = placement.spots();
    proof {
        group_members(checked, stubs@, net as int, side, stubs@.len() as int);
        group_slides(
            start,
            before,
            checked,
            stubs@,
            locked@,
            released@,
            net as int,
            side,
            MAX_COORD as int,
        );
    }
    if ids.len() == 0 {
        return ;
    }
    match rail_stub_anchor_x(placement, checked, stubs, net) {
        None => {},
        Some(anchor) => {
            let num: i64 = anchored_column_x(placement, checked, anchor, &ids);
            if !anchor.strong && some_marked(released, &ids) {
                return ;
            }
            if some_marked(locked, &ids) {
                return ;
            }
            let stride: i32 = stub_row_stride(placement, checked, &ids);
            let den: i64 = anchor.count;
            let ghost column = (num as int, den as int);
            proof {
                column_bound(before, checked, stubs@, net as int, ids@, MAX_COORD as int);
            }
            let count: i64 = ids.len() as i64;
            let mut k: usize = 0;
            while k < ids.len()
                invariant
                    k <= ids@.len(),
                    count == ids@.len(),
                    ids@.len() <= MAX_ELEMENTS,
                    checked.drawable(),
                    same_parts(*old(placement), *placement),
                    placement.elements@.len() == checked.elements@.len(),
                    before.len() == checked.elements@.len(),
                    start.len() == checked.elements@.len(),
                    only_stubs_slid(start, before, stubs@, locked@, MAX_COORD as int),
                    ids_in_range(checked, ids@),
                    0 < den <= MAX_ELEMENTS,
                    column == (num as int, den as int),
                    -(column.1 * (MAX_COORD * 1270 + 2_270_000)) <= column.0 <= column.1 * (MAX_COORD
                        * 1270 + 2_270_000),
                    6 <= stride <= 1735,
                    placement.spots() == spread(
                        before,
                        checked,
                        ids@,
                        net as int,
                        column,
                        stride as int,
                        k as int,
                    ),
                decreases ids@.len() - k,
            {
                let i: usize = ids[k];
                assert(checked.elements@[i as int].symbol.wf());
                proof {
                    spread_slides(
                        before,
                        checked,
                        ids@,
                        net as int,
                        column,
                        stride as int,
                        k as int,
                        MAX_COORD as int,
                    );
                    slot_offset_bound(k as int, count as int, stride as int);
                    assert(0 <= k * stride <= 65536 * 1735) by (nonlinear_arith)
                        requires
                            0 <= k <= 65536,
                            0 <= stride <= 1735,
                    ;
                    assert(0 <= (count - 1) * stride <= 65536 * 1735) by (nonlinear_arith)
                        requires
                            0 <= count - 1 <= 65536,
                            0 <= stride <= 1735,
                    ;
                }
                let offset: i64 = k as i64 * stride as i64 - ((count - 1) * stride as i64) / 2;
                assert(offset == slot_offset(k as int, count as int, stride as int));
                match placed_pin_xy(placement, checked, i, net) {
                    None => {
                        assert(placement.spots() =~= placement.spots().update(
                            i as int,
                            placement.spots()[i as int],
                        ));
                    },
                    Some((x, _)) => {
                        let at = placement.elements[i].origin;
                        assert(placement.spots()[i as int].origin == at);
                        proof {
                            assert(before[i as int].orientation == start[i as int].orientation);
                            assert(-(MAX_COORD + STUB_SPREAD) <= at.x <= MAX_COORD + STUB_SPREAD);
                            slot_bound(
                                placement.spots()[i as int],
                                checked.elements@[i as int],
                                net as int,
                                column,
                                offset as int,
                                MAX_COORD as int,
                            );
                            assert(-11_200_000_000_000_000 <= offset * GRID_STEP * den
                                <= 11_200_000_000_000_000) by (nonlinear_arith)
                                requires
                                    -114_000_000 <= offset <= 114_000_000,
                                    GRID_STEP == 1270,
                                    0 < den <= 65536,
                            ;
                            assert(-112_000_000_000_000_000 <= x * den <= 112_000_000_000_000_000)
                                by (nonlinear_arith)
                                requires
                                    -1_600_000_000_000 <= x <= 1_600_000_000_000,
                                    0 < den <= 65536,
                            ;
                            assert(den * (MAX_COORD * 1270 + 2_270_000) <= 65536 * (MAX_COORD * 1270
                                + 2_270_000)) by (nonlinear_arith)
                                requires
                                    0 < den <= 65536,
                                    MAX_COORD * 1270 + 2_270_000 >= 0,
                            ;
                        }
                        let shift: i64 = offset * GRID_STEP;
                        assert(shift * den == offset * GRID_STEP * den);
                        let dx: i64 = round_quotient(num + shift * den - x * den, GRID_STEP * den);
                        let nx: i64 = at.x as i64 + dx;
                        let ghost prior = *placement;
                        let o = placement.elements[i].orientation;
                        put(placement, i, GridPoint::new(nx as i32, at.y), o);
                        proof {
                            same_parts_trans(*old(placement), prior, *placement);
                        }
                    },
                }
                k = k + 1;
            }
        },
    }
}

/// Moves the listed rail stubs into the columns of the nodes they end. A group
/// of stubs on one node and side is spread about the column; a group with a
/// locked member stays where it is.
pub fn apply_rail_stub_columns(
    placement: &mut Placement,
    locked: &Vec<bool>,
    released: &Vec<bool>,
    checked: &CheckedNetlist,
    stubs: &Vec<RailStub>,
)
    requires
        checked.drawable(),
        anchors_stay(checked, stubs@),
        places(&*old(placement), checked),
        old(placement).within(MAX_COORD as int),
        locked@.len() == checked.elements@.len(),
        released@.len() == checked.elements@.len(),
    ensures
        same_parts(*old(placement), *final(placement)),
        final(placement).spots() == columned(
            old(placement).spots(),
            checked,
            stubs@,
            locked@,
            released@,
            checked.nets@.len() as int,
        ),
{
    let ghost start = placement.spots();
    let mut net: usize = 0;
    while net < checked.nets.len()
        invariant
            net <= checked.nets@.len(),
            checked.drawable(),
            anchors_stay(checked, stubs@),
            places(&*old(placement), checked),
            same_parts(*old(placement), *placement),
            placement.elements@.len() == checked.elements@.len(),
            locked@.len() == checked.elements@.len(),
            released@.len() == checked.elements@.len(),
            start.len() == checked.elements@.len(),
            spots_within(start, MAX_COORD as int),
            placement.spots() == columned(start, checked, stubs@, locked@, released@, net as int),
        decreases checked.nets@.len() - net,
    {
        proof {
            columns_slide_only_stubs(
                start,
                checked,
                stubs@,
                locked@,
                released@,
                net as int,
                MAX_COORD as int,
            );
            group_slides(
                start,
                placement.spots(),
                checked,
                stubs@,
                locked@,
                released@,
                net as int,
                VertPref::Up,
                MAX_COORD as int,
            );
        }
        let ghost p0 = *placement;
        proof {
            moving_keeps_the_netlist(*old(placement), *placement, checked);
        }
        column_group(placement, locked, released, checked, stubs, net, VertPref::Up, Ghost(start));
        let ghost p1 = *placement;
        proof {
            moving_keeps_the_netlist(p0, p1, checked);
        }
        column_group(
            placement,
            locked,
            released,
            checked,
            stubs,
            net,
            VertPref::Down,
            Ghost(start),
        );
        proof {
            same_parts_trans(*old(placement), p0, p1);
            same_parts_trans(*old(placement), p1, *placement);
        }
        net = net + 1;
    }
}

/// A rail stub has two terminals on different nets, of which exactly one is a
/// rail. It hangs from the other one, which is its signal net, and runs to the
/// side of the rail. Every such element is a stub.
pub proof fn stubs_join_a_signal_to_a_rail(checked: &CheckedNetlist, i: int)
    requires
        0 <= i < checked.elements@.len() <= usize::MAX,
    ensures
        ({
            let n = checked.elements@[i].nodes@;
            let side = |t: int| checked.vert_pref_of(n[t] as int);
            &&& stub_of(checked, i) is Some <==> n.len() == 2 && n[0] != n[1] && (side(0) is Some
                != side(1) is Some)
            &&& stub_of(checked, i) matches Some(s) ==> {
                &&& s.element == i
                &&& s.signal_term == 0 || s.signal_term == 1
                &&& s.signal_net == n[s.signal_term as int]
                &&& side(s.signal_term as int) is None
                &&& side(1 - s.signal_term) == Some(s.side)
            }
        }),
{
}

proof fn lone_anchor(
    spots: Seq<Spot>,
    checked: &CheckedNetlist,
    stubs: Seq<RailStub>,
    net: int,
    i: int,
    n: int,
)
    requires
        0 <= i,
        forall|j: int|
            0 <= j < n && j != i && !stubs_on(stubs, j, net)
                ==> #[trigger] checked.elements@[j].pin_on(spots[j].orientation, net) is None,
    ensures
        n <= i || stubs_on(stubs, i, net) || checked.elements@[i].pin_on(
            spots[i].orientation,
            net,
        ) is None ==> anchor_sums(spots, checked, stubs, net, n) == (AnchorSums {
            multi: (0, 0),
            sideways: (0, 0),
            direction: 0,
            any: (0, 0),
        }),
        i < n && !stubs_on(stubs, i, net) ==> match checked.elements@[i].pin_on(
            spots[i].orientation,
            net,
        ) {
            Some(k) => {
                let p = checked.elements@[i].symbol.posed(spots[i].orientation).pins@[k];
                let x = spots[i].origin.um().0 + p.x;
                let wide = checked.elements@[i].nodes@.len() >= 3;
                let s = anchor_sums(spots, checked, stubs, net, n);
                if p.angle as int % 180 == 0 {
                    s == (AnchorSums {
                        multi: (0, 0),
                        sideways: if wide {
                            (x, 1)
                        } else {
                            (0, 0)
                        },
                        direction: if !wide {
                            0
                        } else if p.angle as int % 360 == 0 {
                            1
                        } else {
                            -1
                        },
                        any: (0, 0),
                    })
                } else {
                    s == (AnchorSums {
                        multi: if wide {
                            (x, 1)
                        } else {
                            (0, 0)
                        },
                        sideways: (0, 0),
                        direction: 0,
                        any: (x, 1),
                    })
                }
            },
            None => true,
        },
    decreases n,
{
    if n > 0 {
        lone_anchor(spots, checked, stubs, net, i, n - 1);
        let e = checked.elements@[n - 1];
        assert(n - 1 != i && !stubs_on(stubs, n - 1, net) ==> e.pin_on(
            spots[n - 1].orientation,
            net,
        ) is None);
    }
}

/// Stubs stand in the column of what they hang from. Where one element alone
/// offers its pin on the node, the anchor is the X of that pin. It is strong if
/// the element has three or more terminals. A pin that faces right sends the
/// stubs to its right and one that faces left to its left, unless stubs run
/// both up and down from the node; a sideways pin of a smaller element is no
/// anchor.
pub proof fn stubs_stand_by_their_anchor(
    spots: Seq<Spot>,
    checked: &CheckedNetlist,
    stubs: Seq<RailStub>,
    net: int,
    i: int,
    k: int,
)
    requires
        0 <= i < checked.elements@.len(),
        !stubs_on(stubs, i, net),
        checked.elements@[i].pin_on(spots[i].orientation, net) == Some(k),
        forall|j: int|
            0 <= j < checked.elements@.len() && j != i && !stubs_on(stubs, j, net)
                ==> #[trigger] checked.elements@[j].pin_on(spots[j].orientation, net) is None,
    ensures
        ({
            let p = checked.elements@[i].symbol.posed(spots[i].orientation).pins@[k];
            let x = spots[i].origin.x * 1270 + p.x;
            let wide = checked.elements@[i].nodes@.len() >= 3;
            let both = side_taken(stubs, net, VertPref::Up) && side_taken(
                stubs,
                net,
                VertPref::Down,
            );
            let turn = p.angle as int % 360;
            anchor_of(spots, checked, stubs, net) == if turn == 0 || turn == 180 {
                if wide && !both {
                    Some(
                        (
                            x,
                            1int,
                            true,
                            if turn == 0 {
                                1int
                            } else {
                                -1
                            },
                        ),
                    )
                } else {
                    None
                }
            } else {
                Some((x, 1int, wide, 0int))
            }
        }),
{
    lone_anchor(spots, checked, stubs, net, i, checked.elements@.len() as int);
}

/// Beside a sideways pin the stubs keep clear of it: where the pin faces right,
/// no member of the group reaches within a grid step of the pin's X from the
/// right, and likewise to the left.
pub proof fn columns_keep_clear_of_their_pin(
    spots: Seq<Spot>,
    checked: &CheckedNetlist,
    anchor: (int, int, bool, int),
    ids: Seq<usize>,
    k: int,
)
    requires
        0 <= k < ids.len(),
        anchor.1 == 1,
    ensures
        ({
            let c = column_x(spots, checked, anchor, ids).0;
            let b = placed_extent(spots, checked, ids[k] as int);
            &&& anchor.3 == 0 ==> c == anchor.0
            &&& anchor.3 == 1 ==> c + b.min_x >= anchor.0 + 1270
            &&& anchor.3 == -1 ==> c + b.max_x <= anchor.0 - 1270
        }),
{
    reach_back_covers(spots, checked, ids, anchor.3, ids.len() as int, k);
    let need = reach_back(spots, checked, ids, anchor.3, ids.len() as int) + MIN_CLEARANCE;
    let cells = stride_steps(need);
    assert(cells * 1270 >= need);
    assert(1int * cells * GRID_STEP * 1int == cells * 1270) by (nonlinear_arith)
        requires
            GRID_STEP == 1270,
    ;
    assert(-1int * cells * GRID_STEP * 1int == -(cells * 1270)) by (nonlinear_arith)
        requires
            GRID_STEP == 1270,
    ;
}

proof fn reach_back_covers(
    spots: Seq<Spot>,
    checked: &CheckedNetlist,
    ids: Seq<usize>,
    outward: int,
    n: int,
    k: int,
)
    requires
        0 <= k < n,
    ensures
        reach_back(spots, checked, ids, outward, n) >= if outward > 0 {
            -placed_extent(spots, checked, ids[k] as int).min_x
        } else {
            placed_extent(spots, checked, ids[k] as int).max_x
        },
    decreases n,
{
    if k < n - 1 {
        reach_back_covers(spots, checked, ids, outward, n - 1, k);
    }
}

/// The slots of a row run left to right, one stride apart, and the row is
/// centred on its column to the step.
pub proof fn slots_are_centred(slot: int, count: int, stride: int)
    requires
        count > 0,
    ensures
        slot_offset(slot + 1, count, stride) == slot_offset(slot, count, stride) + stride,
        0 <= slot_offset(0, count, stride) + slot_offset(count - 1, count, stride) <= 1,
{
    assert((slot + 1) * stride == slot * stride + stride) by (nonlinear_arith);
    assert(0 * stride == 0) by (nonlinear_arith);
}

/// Neighbours in a row of stubs are far enough apart for their drawings: by at
/// least six steps, and by what both reach towards each other and a clearance.
pub proof fn stub_rows_keep_clear(
    spots: Seq<Spot>,
    checked: &CheckedNetlist,
    ids: Seq<usize>,
    n: int,
    k: int,
)
    requires
        0 <= k < n - 1,
        n <= ids.len(),
    ensures
        row_stride(spots, checked, ids, n) >= 6,
        row_stride(spots, checked, ids, n) * 1270 >= placed_extent(
            spots,
            checked,
            ids[k] as int,
        ).max_x - placed_extent(spots, checked, ids[k + 1] as int).min_x + 1270,
    decreases n,
{
    if k < n - 2 {
        stub_rows_keep_clear(spots, checked, ids, n - 1, k);
    } else {
        if n > 2 {
            stub_rows_keep_clear(spots, checked, ids, n - 1, 0);
        }
        assert(row_stride(spots, checked, ids, 1) == 6);
    }
}

} // verus!
