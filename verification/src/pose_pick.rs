//! Choosing poses: every unpinned element takes the allowed pose that brings
//! its pins closest to the pins they connect to. Positions stay as they are.

use vstd::prelude::*;

use crate::names::str_eq;
use crate::netlist::CheckedNetlist;
use crate::placement::{put, Placement, GRID_STEP};
#[allow(unused_imports)]
use crate::placement::{
    pin_at, same_parts, same_parts_trans, spots_within, Spot, MAX_COORD, MAX_ELEMENTS,
};
use crate::symbol::Orientation;
#[allow(unused_imports)]
use crate::symbol::{in_reach, orientation_at, orientation_index, MAX_PINS, MAX_REACH};

verus! {

/// Most sweeps over the elements.
pub const MAX_PASSES: usize = 8;

/// The sheet position of the pin of a placed element's terminal.
pub open spec fn terminal_at(spot: Spot, checked: &CheckedNetlist, i: int, t: int) -> Option<
    (int, int),
> {
    let e = checked.elements@[i];
    match e.pin_of(spot.orientation, t) {
        Some(k) => Some(pin_at(spot.origin, e.symbol.posed(spot.orientation).pins@[k])),
        None => None,
    }
}

/// The absolute value of a number.
pub open spec fn abs(x: int) -> int {
    if x < 0 {
        -x
    } else {
        x
    }
}

/// The Manhattan distance of two terminals' pins; zero when one is not drawn.
pub open spec fn pin_distance(a: Option<(int, int)>, b: Option<(int, int)>) -> int {
    match (a, b) {
        (Some(p), Some(q)) => abs(p.0 - q.0) + abs(p.1 - q.1),
        _ => 0,
    }
}

/// The distances from a pin to the pins that the first `n` terminals of
/// element `j` have on the net, in sum.
pub open spec fn cost_to_terminals(
    spots: Seq<Spot>,
    checked: &CheckedNetlist,
    from: Option<(int, int)>,
    net: int,
    j: int,
    n: int,
) -> int
    decreases n,
{
    if n <= 0 {
        0
    } else {
        cost_to_terminals(spots, checked, from, net, j, n - 1) + (if checked.elements@[j].nodes@[n
            - 1] == net {
            pin_distance(from, terminal_at(spots[j], checked, j, n - 1))
        } else {
            0
        })
    }
}

/// The distances from a pin of element `i` to the pins on its net of the
/// first `n` elements other than `i`, in sum.
pub open spec fn cost_to_elements(
    spots: Seq<Spot>,
    checked: &CheckedNetlist,
    i: int,
    from: Option<(int, int)>,
    net: int,
    n: int,
) -> int
    decreases n,
{
    if n <= 0 {
        0
    } else {
        cost_to_elements(spots, checked, i, from, net, n - 1) + (if n - 1 == i {
            0
        } else {
            cost_to_terminals(
                spots,
                checked,
                from,
                net,
                n - 1,
                checked.elements@[n - 1].nodes@.len() as int,
            )
        })
    }
}

/// What pose `o` costs element `i` over its first `n` terminals: the distance
/// of every pin to every pin it connects to, except through net `0`.
pub open spec fn pose_cost(
    spots: Seq<Spot>,
    checked: &CheckedNetlist,
    i: int,
    o: Orientation,
    n: int,
) -> int
    decreases n,
{
    if n <= 0 {
        0
    } else {
        let net = checked.elements@[i].nodes@[n - 1] as int;
        let here = Spot { origin: spots[i].origin, orientation: o };
        pose_cost(spots, checked, i, o, n - 1) + (if checked.is_reference(net) {
            0
        } else {
            cost_to_elements(
                spots,
                checked,
                i,
                terminal_at(here, checked, i, n - 1),
                net,
                checked.elements@.len() as int,
            )
        })
    }
}

/// The whole cost of a pose.
pub open spec fn full_cost(
    spots: Seq<Spot>,
    checked: &CheckedNetlist,
    i: int,
    o: Orientation,
) -> int {
    pose_cost(spots, checked, i, o, checked.elements@[i].nodes@.len() as int)
}

/// Terminal `t` of element `i` is connected to another element, other than
/// through net `0`.
pub open spec fn connected_terminal(checked: &CheckedNetlist, i: int, t: int) -> bool {
    let net = checked.elements@[i].nodes@[t] as int;
    !checked.is_reference(net) && exists|j: int|
        0 <= j < checked.elements@.len() && j != i && #[trigger] checked.touches(j, net)
}

/// The element is connected to another one.
pub open spec fn is_connected(checked: &CheckedNetlist, i: int) -> bool {
    exists|t: int|
        0 <= t < checked.elements@[i].nodes@.len() && #[trigger] connected_terminal(checked, i, t)
}

/// The order of preference among poses of equal cost: the upright pose, then
/// pose order.
pub open spec fn pose_rank(o: Orientation) -> int {
    if o == orientation_at(0) {
        0
    } else {
        orientation_index(o) + 1
    }
}

/// Pose `a` is better than pose `b`.
pub open spec fn better_pose(
    spots: Seq<Spot>,
    checked: &CheckedNetlist,
    i: int,
    a: Orientation,
    b: Orientation,
) -> bool {
    let (ca, cb) = (full_cost(spots, checked, i, a), full_cost(spots, checked, i, b));
    ca < cb || (ca == cb && pose_rank(a) < pose_rank(b))
}

/// The best of the first `n` poses of a list.
pub open spec fn cheapest(
    spots: Seq<Spot>,
    checked: &CheckedNetlist,
    i: int,
    poses: Seq<Orientation>,
    n: int,
) -> Option<Orientation>
    decreases n,
{
    if n <= 0 {
        None
    } else {
        match cheapest(spots, checked, i, poses, n - 1) {
            None => Some(poses[n - 1]),
            Some(b) => if better_pose(spots, checked, i, poses[n - 1], b) {
                Some(poses[n - 1])
            } else {
                Some(b)
            },
        }
    }
}

/// The pose that element `i` takes: pinned elements and elements without
/// connections keep theirs, as do elements that no pose is allowed.
pub open spec fn next_pose(
    spots: Seq<Spot>,
    pinned: Seq<bool>,
    checked: &CheckedNetlist,
    allowed: Seq<Vec<Orientation>>,
    i: int,
) -> Orientation {
    if pinned[i] || !is_connected(checked, i) {
        spots[i].orientation
    } else {
        match cheapest(spots, checked, i, allowed[i]@, allowed[i]@.len() as int) {
            Some(o) => o,
            None => spots[i].orientation,
        }
    }
}

/// The spots after the first `n` elements have chosen.
pub open spec fn swept(
    spots: Seq<Spot>,
    pinned: Seq<bool>,
    checked: &CheckedNetlist,
    allowed: Seq<Vec<Orientation>>,
    n: int,
) -> Seq<Spot>
    decreases n,
{
    if n <= 0 {
        spots
    } else {
        let before = swept(spots, pinned, checked, allowed, n - 1);
        let i = n - 1;
        before.update(
            i,
            Spot {
                origin: before[i].origin,
                orientation: next_pose(before, pinned, checked, allowed, i),
            },
        )
    }
}

/// The spots after at most `k` sweeps: sweeping stops when a sweep changes
/// nothing.
pub open spec fn settled(
    spots: Seq<Spot>,
    pinned: Seq<bool>,
    checked: &CheckedNetlist,
    allowed: Seq<Vec<Orientation>>,
    k: nat,
) -> Seq<Spot>
    decreases k,
{
    if k == 0 {
        spots
    } else {
        let next = swept(spots, pinned, checked, allowed, spots.len() as int);
        if next == spots {
            spots
        } else {
            settled(next, pinned, checked, allowed, (k - 1) as nat)
        }
    }
}

/// What the choice of poses guarantees from `a` to `b`: no element moves, a
/// pinned element keeps its pose, and an element whose pose changes takes an
/// allowed one.
pub open spec fn only_turned(
    a: Seq<Spot>,
    b: Seq<Spot>,
    pinned: Seq<bool>,
    allowed: Seq<Vec<Orientation>>,
) -> bool {
    &&& a.len() == b.len()
    &&& forall|i: int|
        0 <= i < a.len() ==> {
            &&& (#[trigger] b[i]).origin == a[i].origin
            &&& pinned[i] ==> b[i] == a[i]
            &&& b[i] == a[i] || allowed[i]@.contains(b[i].orientation)
        }
}

proof fn cheapest_is_allowed(
    spots: Seq<Spot>,
    checked: &CheckedNetlist,
    i: int,
    poses: Seq<Orientation>,
    n: int,
)
    requires
        0 <= n <= poses.len(),
    ensures
        cheapest(spots, checked, i, poses, n) matches Some(o) ==> poses.contains(o) && forall|k: int|
            0 <= k < n ==> !better_pose(spots, checked, i, #[trigger] poses[k], o),
        n > 0 ==> cheapest(spots, checked, i, poses, n) is Some,
    decreases n,
{
    if n > 0 {
        cheapest_is_allowed(spots, checked, i, poses, n - 1);
        assert(poses.contains(poses[n - 1]));
    }
}

/// The chosen pose is an allowed one, and no allowed pose is better.
pub proof fn the_cheapest_allowed_pose_is_taken(
    spots: Seq<Spot>,
    pinned: Seq<bool>,
    checked: &CheckedNetlist,
    allowed: Seq<Vec<Orientation>>,
    i: int,
)
    requires
        !pinned[i],
        is_connected(checked, i),
        allowed[i]@.len() > 0,
    ensures
        ({
            let o = next_pose(spots, pinned, checked, allowed, i);
            &&& allowed[i]@.contains(o)
            &&& forall|k: int|
                0 <= k < allowed[i]@.len() ==> !better_pose(
                    spots,
                    checked,
                    i,
                    #[trigger] allowed[i]@[k],
                    o,
                )
        }),
{
    cheapest_is_allowed(spots, checked, i, allowed[i]@, allowed[i]@.len() as int);
}

proof fn sweep_turns(
    spots: Seq<Spot>,
    pinned: Seq<bool>,
    checked: &CheckedNetlist,
    allowed: Seq<Vec<Orientation>>,
    n: int,
)
    requires
        0 <= n <= spots.len(),
    ensures
        only_turned(spots, swept(spots, pinned, checked, allowed, n), pinned, allowed),
        forall|i: int|
            n <= i < spots.len() ==> #[trigger] swept(spots, pinned, checked, allowed, n)[i]
                == spots[i],
    decreases n,
{
    if n > 0 {
        sweep_turns(spots, pinned, checked, allowed, n - 1);
        let before = swept(spots, pinned, checked, allowed, n - 1);
        let after = swept(spots, pinned, checked, allowed, n);
        let i = n - 1;
        cheapest_is_allowed(before, checked, i, allowed[i]@, allowed[i]@.len() as int);
        assert(before[i] == spots[i]);
        assert forall|j: int| 0 <= j < spots.len() implies {
            &&& (#[trigger] after[j]).origin == spots[j].origin
            &&& pinned[j] ==> after[j] == spots[j]
            &&& after[j] == spots[j] || allowed[j]@.contains(after[j].orientation)
        } by {
            assert(before[j].origin == spots[j].origin);
        }
    }
}

/// Choosing poses moves nothing, turns no pinned element, and turns an element
/// only into a pose that it may take.
pub proof fn picking_only_turns(
    spots: Seq<Spot>,
    pinned: Seq<bool>,
    checked: &CheckedNetlist,
    allowed: Seq<Vec<Orientation>>,
    k: nat,
)
    ensures
        only_turned(spots, settled(spots, pinned, checked, allowed, k), pinned, allowed),
    decreases k,
{
    if k > 0 {
        let next = swept(spots, pinned, checked, allowed, spots.len() as int);
        sweep_turns(spots, pinned, checked, allowed, spots.len() as int);
        if next != spots {
            picking_only_turns(next, pinned, checked, allowed, (k - 1) as nat);
            let last = settled(next, pinned, checked, allowed, (k - 1) as nat);
            assert forall|i: int| 0 <= i < spots.len() implies {
                &&& (#[trigger] last[i]).origin == spots[i].origin
                &&& pinned[i] ==> last[i] == spots[i]
                &&& last[i] == spots[i] || allowed[i]@.contains(last[i].orientation)
            } by {
                assert(next[i].origin == spots[i].origin);
            }
        }
    }
}

/// Once a sweep changes nothing, further sweeps would change nothing either.
pub proof fn a_quiet_sweep_is_final(
    spots: Seq<Spot>,
    pinned: Seq<bool>,
    checked: &CheckedNetlist,
    allowed: Seq<Vec<Orientation>>,
    k: nat,
)
    requires
        swept(spots, pinned, checked, allowed, spots.len() as int) == spots,
    ensures
        settled(spots, pinned, checked, allowed, k) == spots,
{
}

/// Largest distance of two pins on the sheet.
spec fn far() -> int {
    4 * (MAX_COORD * GRID_STEP + MAX_REACH)
}

/// Pins of placed elements are on the sheet.
pub proof fn terminal_bound(spot: Spot, checked: &CheckedNetlist, i: int, t: int)
    requires
        checked.drawable(),
        0 <= i < checked.elements@.len(),
        spot.origin.within(MAX_COORD as int),
    ensures
        terminal_at(spot, checked, i, t) matches Some(p) ==> {
            let m = MAX_COORD * GRID_STEP + MAX_REACH;
            -m <= p.0 <= m && -m <= p.1 <= m
        },
{
    let e = checked.elements@[i];
    assert(e.symbol.wf());
    crate::symbol::orientation_index_inverse();
    assert(0 <= orientation_index(spot.orientation) < 8);
    assert(e.symbol.poses@[orientation_index(spot.orientation)].wf());
    match e.pin_of(spot.orientation, t) {
        Some(k) => {
            let pins = e.symbol.posed(spot.orientation).pins@;
            crate::symbol::pin_from_is_first(pins, e.pin_mapping@[t]@, 0);
            assert(in_reach(pins[k].x as int));
        },
        None => {},
    }
}

proof fn terminals_cost_bound(
    spots: Seq<Spot>,
    checked: &CheckedNetlist,
    from: Option<(int, int)>,
    net: int,
    j: int,
    n: int,
)
    requires
        checked.drawable(),
        spots.len() == checked.elements@.len(),
        spots_within(spots, MAX_COORD as int),
        0 <= j < spots.len(),
        0 <= n,
        from matches Some(p) ==> {
            let m = MAX_COORD * GRID_STEP + MAX_REACH;
            -m <= p.0 <= m && -m <= p.1 <= m
        },
    ensures
        0 <= cost_to_terminals(spots, checked, from, net, j, n) <= n * far(),
    decreases n,
{
    if n > 0 {
        terminals_cost_bound(spots, checked, from, net, j, n - 1);
        assert(spots[j].origin.within(MAX_COORD as int));
        terminal_bound(spots[j], checked, j, n - 1);
        assert(n * far() == (n - 1) * far() + far()) by (nonlinear_arith);
    }
}

proof fn elements_cost_bound(
    spots: Seq<Spot>,
    checked: &CheckedNetlist,
    i: int,
    from: Option<(int, int)>,
    net: int,
    n: int,
)
    requires
        checked.drawable(),
        spots.len() == checked.elements@.len(),
        spots_within(spots, MAX_COORD as int),
        0 <= n <= spots.len(),
        from matches Some(p) ==> {
            let m = MAX_COORD * GRID_STEP + MAX_REACH;
            -m <= p.0 <= m && -m <= p.1 <= m
        },
    ensures
        0 <= cost_to_elements(spots, checked, i, from, net, n) <= n * (MAX_PINS * far()),
    decreases n,
{
    if n > 0 {
        elements_cost_bound(spots, checked, i, from, net, n - 1);
        let m = checked.elements@[n - 1].nodes@.len() as int;
        terminals_cost_bound(spots, checked, from, net, n - 1, m);
        assert(checked.elements@[n - 1].symbol.wf());
        assert(m * far() <= MAX_PINS * far()) by (nonlinear_arith)
            requires
                m <= MAX_PINS,
                far() >= 0,
        ;
        assert(n * (MAX_PINS * far()) == (n - 1) * (MAX_PINS * far()) + MAX_PINS * far())
            by (nonlinear_arith);
    }
}

proof fn pose_cost_bound(
    spots: Seq<Spot>,
    checked: &CheckedNetlist,
    i: int,
    o: Orientation,
    n: int,
)
    requires
        checked.drawable(),
        spots.len() == checked.elements@.len(),
        spots_within(spots, MAX_COORD as int),
        0 <= i < spots.len(),
        0 <= n <= checked.elements@[i].nodes@.len(),
    ensures
        0 <= pose_cost(spots, checked, i, o, n) <= n * (MAX_ELEMENTS * (MAX_PINS * far())),
    decreases n,
{
    if n > 0 {
        pose_cost_bound(spots, checked, i, o, n - 1);
        let here = Spot { origin: spots[i].origin, orientation: o };
        assert(spots[i].origin.within(MAX_COORD as int));
        terminal_bound(here, checked, i, n - 1);
        let net = checked.elements@[i].nodes@[n - 1] as int;
        let m = checked.elements@.len() as int;
        elements_cost_bound(spots, checked, i, terminal_at(here, checked, i, n - 1), net, m);
        let w = MAX_PINS * far();
        assert(m * w <= MAX_ELEMENTS * w) by (nonlinear_arith)
            requires
                m <= MAX_ELEMENTS,
                w >= 0,
        ;
        assert(n * (MAX_ELEMENTS * w) == (n - 1) * (MAX_ELEMENTS * w) + MAX_ELEMENTS * w)
            by (nonlinear_arith);
    }
}

/// No cost overflows.
proof fn costs_fit(
    spots: Seq<Spot>,
    checked: &CheckedNetlist,
    i: int,
    o: Orientation,
    n: int,
)
    requires
        checked.drawable(),
        spots.len() == checked.elements@.len(),
        spots_within(spots, MAX_COORD as int),
        0 <= i < spots.len(),
        0 <= n <= checked.elements@[i].nodes@.len(),
    ensures
        0 <= pose_cost(spots, checked, i, o, n) <= 0x1_0000_0000_0000_0000_0000_0000,
{
    pose_cost_bound(spots, checked, i, o, n);
    assert(checked.elements@[i].symbol.wf());
    let w = MAX_ELEMENTS * (MAX_PINS * far());
    assert(n * w <= MAX_PINS * w) by (nonlinear_arith)
        requires
            n <= MAX_PINS,
            w >= 0,
    ;
}

/// The sheet position of a terminal's pin, in pose `o`.
pub fn terminal_point(
    placement: &Placement,
    checked: &CheckedNetlist,
    i: usize,
    o: Orientation,
    t: usize,
) -> (r: Option<(i64, i64)>)
    requires
        checked.drawable(),
        placement.elements@.len() == checked.elements@.len(),
        i < checked.elements@.len(),
        placement.within(MAX_COORD as int),
    ensures
        ({
            let here = Spot { origin: placement.spots()[i as int].origin, orientation: o };
            let m = MAX_COORD * GRID_STEP + MAX_REACH;
            match r {
                Some(p) => {
                    &&& terminal_at(here, checked, i as int, t as int) == Some(
                        (p.0 as int, p.1 as int),
                    )
                    &&& -m <= p.0 <= m && -m <= p.1 <= m
                },
                None => terminal_at(here, checked, i as int, t as int) is None,
            }
        }),
{
    let e = &checked.elements[i];
    assert(checked.elements@[i as int].symbol.wf());
    let ghost here = Spot { origin: placement.spots()[i as int].origin, orientation: o };
    proof {
        assert(placement.spots()[i as int].origin.within(MAX_COORD as int));
        terminal_bound(here, checked, i as int, t as int);
    }
    match e.terminal_pin(o, t) {
        Some(k) => {
            let (ox, oy) = placement.elements[i].origin.to_um();
            let p = &e.symbol.pins_in(o)[k];
            Some((ox + p.x as i64, oy - p.y as i64))
        },
        None => None,
    }
}

/// The cost of a pose.
fn cost_of(placement: &Placement, checked: &CheckedNetlist, i: usize, o: Orientation) -> (r: i128)
    requires
        checked.drawable(),
        placement.elements@.len() == checked.elements@.len(),
        i < checked.elements@.len(),
        placement.within(MAX_COORD as int),
    ensures
        r == full_cost(placement.spots(), checked, i as int, o),
{
    let ghost spots = placement.spots();
    let e = &checked.elements[i];
    let mut total: i128 = 0;
    let mut t: usize = 0;
    while t < e.nodes.len()
        invariant
            t <= e.nodes@.len(),
            *e == checked.elements@[i as int],
            checked.drawable(),
            placement.elements@.len() == checked.elements@.len(),
            i < checked.elements@.len(),
            spots == placement.spots(),
            spots_within(spots, MAX_COORD as int),
            total == pose_cost(spots, checked, i as int, o, t as int),
        decreases e.nodes@.len() - t,
    {
        proof {
            costs_fit(spots, checked, i as int, o, t as int);
            assert(crate::netlist::nets_in_range(
                checked.elements@[i as int].nodes@,
                checked.nets@.len(),
            ));
        }
        let net: usize = e.nodes[t];
        if !str_eq(checked.nets[net].as_str(), "0") {
            let from = terminal_point(placement, checked, i, o, t);
            let ghost spec_from = terminal_at(
                Spot { origin: spots[i as int].origin, orientation: o },
                checked,
                i as int,
                t as int,
            );
            let mut sum: i128 = 0;
            let mut j: usize = 0;
            while j < checked.elements.len()
                invariant
                    j <= checked.elements@.len(),
                    checked.drawable(),
                    placement.elements@.len() == checked.elements@.len(),
                    spots == placement.spots(),
                    spots_within(spots, MAX_COORD as int),
                    match from {
                        Some(p) => {
                            let m = MAX_COORD * GRID_STEP + MAX_REACH;
                            &&& spec_from == Some((p.0 as int, p.1 as int))
                            &&& -m <= p.0 <= m && -m <= p.1 <= m
                        },
                        None => spec_from is None,
                    },
                    sum == cost_to_elements(
                        spots,
                        checked,
                        i as int,
                        spec_from,
                        net as int,
                        j as int,
                    ),
                decreases checked.elements@.len() - j,
            {
                proof {
                    elements_cost_bound(
                        spots,
                        checked,
                        i as int,
                        spec_from,
                        net as int,
                        j as int,
                    );
                    let w = MAX_PINS * far();
                    assert(j * w <= MAX_ELEMENTS * w) by (nonlinear_arith)
                        requires
                            j <= MAX_ELEMENTS,
                            w >= 0,
                    ;
                    assert(checked.elements@[j as int].symbol.wf());
                }
                if j != i {
                    let nodes = &checked.elements[j].nodes;
                    let mut part: i128 = 0;
                    let mut s: usize = 0;
                    while s < nodes.len()
                        invariant
                            s <= nodes@.len(),
                            j < checked.elements@.len(),
                            nodes@ == checked.elements@[j as int].nodes@,
                            nodes@.len() <= MAX_PINS,
                            checked.drawable(),
                            placement.elements@.len() == checked.elements@.len(),
                            spots == placement.spots(),
                            spots_within(spots, MAX_COORD as int),
                            match from {
                                Some(p) => {
                                    let m = MAX_COORD * GRID_STEP + MAX_REACH;
                                    &&& spec_from == Some((p.0 as int, p.1 as int))
                                    &&& -m <= p.0 <= m && -m <= p.1 <= m
                                },
                                None => spec_from is None,
                            },
                            part == cost_to_terminals(
                                spots,
                                checked,
                                spec_from,
                                net as int,
                                j as int,
                                s as int,
                            ),
                        decreases nodes@.len() - s,
                    {
                        proof {
                            terminals_cost_bound(
                                spots,
                                checked,
                                spec_from,
                                net as int,
                                j as int,
                                s as int,
                            );
                            assert(s * far() <= MAX_PINS * far()) by (nonlinear_arith)
                                requires
                                    s <= MAX_PINS,
                                    far() >= 0,
                            ;
                            assert(spots[j as int] == (Spot {
                                origin: spots[j as int].origin,
                                orientation: placement.elements@[j as int].orientation,
                            }));
                        }
                        if nodes[s] == net {
                            let to = terminal_point(
                                placement,
                                checked,
                                j,
                                placement.elements[j].orientation,
                                s,
                            );
                            if let (Some(p), Some(q)) = (from, to) {
                                let dx: i64 = if p.0 >= q.0 {
                                    p.0 - q.0
                                } else {
                                    q.0 - p.0
                                };
                                let dy: i64 = if p.1 >= q.1 {
                                    p.1 - q.1
                                } else {
                                    q.1 - p.1
                                };
                                part = part + dx as i128 + dy as i128;
                            }
                        }
                        s = s + 1;
                    }
                    proof {
                        terminals_cost_bound(
                            spots,
                            checked,
                            spec_from,
                            net as int,
                            j as int,
                            s as int,
                        );
                        assert(s * far() <= MAX_PINS * far()) by (nonlinear_arith)
                            requires
                                s <= MAX_PINS,
                                far() >= 0,
                        ;
                    }
                    sum = sum + part;
                }
                j = j + 1;
            }
            proof {
                elements_cost_bound(
                    spots,
                    checked,
                    i as int,
                    spec_from,
                    net as int,
                    j as int,
                );
                let w = MAX_PINS * far();
                assert(j * w <= MAX_ELEMENTS * w) by (nonlinear_arith)
                    requires
                        j <= MAX_ELEMENTS,
                        w >= 0,
                ;
            }
            total = total + sum;
        }
        t = t + 1;
    }
    total
}

/// Whether an element is connected to another one.
fn connected_element(checked: &CheckedNetlist, i: usize) -> (r: bool)
    requires
        checked.wf(),
        i < checked.elements@.len(),
    ensures
        r == is_connected(checked, i as int),
{
    let e = &checked.elements[i];
    let mut t: usize = 0;
    while t < e.nodes.len()
        invariant
            t <= e.nodes@.len(),
            i < checked.elements@.len(),
            *e == checked.elements@[i as int],
            checked.wf(),
            forall|s: int| 0 <= s < t ==> !(#[trigger] connected_terminal(checked, i as int, s)),
        decreases e.nodes@.len() - t,
    {
        assert(crate::netlist::nets_in_range(
            checked.elements@[i as int].nodes@,
            checked.nets@.len(),
        ));
        let net: usize = e.nodes[t];
        if !str_eq(checked.nets[net].as_str(), "0") {
            let mut j: usize = 0;
            while j < checked.elements.len()
                invariant
                    j <= checked.elements@.len(),
                    i < checked.elements@.len(),
                    t < checked.elements@[i as int].nodes@.len(),
                    net == checked.elements@[i as int].nodes@[t as int],
                    !checked.is_reference(net as int),
                    forall|k: int|
                        0 <= k < j && k != i ==> !(#[trigger] checked.touches(k, net as int)),
                decreases checked.elements@.len() - j,
            {
                if j != i && crate::net_class::element_touches(checked, j, net) {
                    assert(connected_terminal(checked, i as int, t as int));
                    return true;
                }
                j = j + 1;
            }
        }
        t = t + 1;
    }
    false
}

/// Lets every unpinned element take the cheapest pose that it is allowed,
/// element by element, until a sweep changes nothing or the sweeps run out.
pub fn pick_orientations(
    placement: &mut Placement,
    pinned: &Vec<bool>,
    checked: &CheckedNetlist,
    allowed: &Vec<Vec<Orientation>>,
)
    requires
        checked.drawable(),
        old(placement).elements@.len() == checked.elements@.len(),
        pinned@.len() == checked.elements@.len(),
        allowed@.len() == checked.elements@.len(),
        old(placement).within(MAX_COORD as int),
    ensures
        same_parts(*old(placement), *final(placement)),
        final(placement).spots() == settled(
            old(placement).spots(),
            pinned@,
            checked,
            allowed@,
            MAX_PASSES as nat,
        ),
{
    let n: usize = checked.elements.len();
    let ghost start = placement.spots();
    let mut k: usize = 0;
    while k < MAX_PASSES
        invariant
            k <= MAX_PASSES,
            n == checked.elements@.len(),
            checked.drawable(),
            same_parts(*old(placement), *placement),
            placement.elements@.len() == checked.elements@.len(),
            pinned@.len() == checked.elements@.len(),
            allowed@.len() == checked.elements@.len(),
            placement.within(MAX_COORD as int),
            start == old(placement).spots(),
            settled(start, pinned@, checked, allowed@, MAX_PASSES as nat) == settled(
                placement.spots(),
                pinned@,
                checked,
                allowed@,
                (MAX_PASSES - k) as nat,
            ),
        decreases MAX_PASSES - k,
    {
        let ghost before = placement.spots();
        let mut changed = false;
        let mut i: usize = 0;
        while i < n
            invariant
                i <= n,
                n == checked.elements@.len(),
                checked.drawable(),
                same_parts(*old(placement), *placement),
                placement.elements@.len() == checked.elements@.len(),
                pinned@.len() == checked.elements@.len(),
                allowed@.len() == checked.elements@.len(),
                placement.within(MAX_COORD as int),
                before.len() == n,
                placement.spots() == swept(before, pinned@, checked, allowed@, i as int),
                !changed ==> placement.spots() == before,
                changed ==> exists|j: int| 0 <= j < i && #[trigger] placement.spots()[j] != before[j],
            decreases n - i,
        {
            let ghost now = placement.spots();
            proof {
                sweep_turns(before, pinned@, checked, allowed@, i as int);
                assert(now[i as int] == before[i as int]);
            }
            let mut turned = false;
            if !pinned[i] && connected_element(checked, i) {
                let set = &allowed[i];
                let mut best: Option<(Orientation, i128, usize)> = None;
                let mut m: usize = 0;
                while m < set.len()
                    invariant
                        m <= set@.len(),
                        i < n,
                        n == checked.elements@.len(),
                        *set == allowed@[i as int],
                        checked.drawable(),
                        placement.elements@.len() == checked.elements@.len(),
                        placement.within(MAX_COORD as int),
                        now == placement.spots(),
                        match best {
                            Some(b) => {
                                &&& cheapest(now, checked, i as int, set@, m as int) == Some(b.0)
                                &&& b.1 == full_cost(now, checked, i as int, b.0)
                                &&& b.2 == pose_rank(b.0)
                            },
                            None => cheapest(now, checked, i as int, set@, m as int) is None,
                        },
                    decreases set@.len() - m,
                {
                    let o = set[m];
                    let cost: i128 = cost_of(placement, checked, i, o);
                    let rank: usize = if o == Orientation::identity() {
                        0
                    } else {
                        o.index() + 1
                    };
                    let take = match best {
                        Some((_, c, r)) => cost < c || (cost == c && rank < r),
                        None => true,
                    };
                    if take {
                        best = Some((o, cost, rank));
                    }
                    m = m + 1;
                }
                match best {
                    Some((o, _, _)) => {
                        if placement.elements[i].orientation != o {
                            let at = placement.elements[i].origin;
                            assert(now[i as int].origin == at);
                            let ghost prior = *placement;
                            put(placement, i, at, o);
                            proof {
                                same_parts_trans(*old(placement), prior, *placement);
                            }
                            turned = true;
                        } else {
                            assert(now[i as int].orientation == o);
                        }
                    },
                    None => {},
                }
            }
            proof {
                let after = swept(before, pinned@, checked, allowed@, i + 1);
                assert(placement.spots() =~= after);
                assert forall|j: int| 0 <= j < after.len() implies (
                #[trigger] after[j]).origin.within(MAX_COORD as int) by {
                    assert(now[j].origin.within(MAX_COORD as int));
                }
                if turned {
                    assert(placement.spots()[i as int] != before[i as int]);
                } else {
                    assert(placement.spots() =~= now);
                    if changed {
                        let j = choose|j: int| 0 <= j < i && #[trigger] now[j] != before[j];
                        assert(placement.spots()[j] != before[j]);
                    }
                }
            }
            changed = changed || turned;
            i = i + 1;
        }
        if !changed {
            proof {
                assert(swept(before, pinned@, checked, allowed@, n as int) == before);
            }
            return ;
        }
        k = k + 1;
    }
}

/// A terminal is drawn at its element's pin of the terminal's number, from an
/// origin in steps of 1.27 mm.
pub proof fn terminals_are_drawn_at_their_pins(
    spot: Spot,
    checked: &CheckedNetlist,
    i: int,
    t: int,
    k: int,
)
    requires
        checked.elements@[i].pin_of(spot.orientation, t) == Some(k),
    ensures
        terminal_at(spot, checked, i, t) matches Some(p) && {
            let pin = checked.elements@[i].symbol.posed(spot.orientation).pins@[k];
            p.0 == spot.origin.x * 1270 + pin.x && p.1 == spot.origin.y * 1270 - pin.y
        },
{
}

/// A connection of the element: its terminal `t` and terminal `u` of another
/// element `j` are on one net, which is not net `0`.
pub open spec fn is_wire(checked: &CheckedNetlist, i: int, t: int, j: int, u: int) -> bool {
    &&& 0 <= j < checked.elements@.len() && j != i
    &&& 0 <= t < checked.elements@[i].nodes@.len()
    &&& 0 <= u < checked.elements@[j].nodes@.len()
    &&& checked.elements@[i].nodes@[t] == checked.elements@[j].nodes@[u]
    &&& checked.nets@[checked.elements@[i].nodes@[t] as int]@ != "0"@
}

/// A pose costs at least the way along the grid of each of its connections,
/// and exactly that where there is but one. Without connections it costs
/// nothing.
pub proof fn poses_cost_their_wires(
    spots: Seq<Spot>,
    checked: &CheckedNetlist,
    i: int,
    o: Orientation,
    t: int,
    j: int,
    u: int,
)
    requires
        is_wire(checked, i, t, j, u),
        terminal_at(spots[j], checked, j, u) is Some,
        terminal_at(Spot { origin: spots[i].origin, orientation: o }, checked, i, t) is Some,
    ensures
        ({
            let p = terminal_at(
                Spot { origin: spots[i].origin, orientation: o },
                checked,
                i,
                t,
            )->0;
            let q = terminal_at(spots[j], checked, j, u)->0;
            let dx = if p.0 < q.0 { q.0 - p.0 } else { p.0 - q.0 };
            let dy = if p.1 < q.1 { q.1 - p.1 } else { p.1 - q.1 };
            &&& full_cost(spots, checked, i, o) >= dx + dy
            &&& (forall|a: int, b: int, c: int| #[trigger]
                is_wire(checked, i, a, b, c) ==> a == t && b == j && c == u) ==> full_cost(
                spots,
                checked,
                i,
                o,
            ) == dx + dy
        }),
{
    let sole = forall|a: int, b: int, c: int| #[trigger]
        is_wire(checked, i, a, b, c) ==> a == t && b == j && c == u;
    wires_in_pose(spots, checked, i, o, t, j, u, sole, checked.elements@[i].nodes@.len() as int);
}

proof fn wires_in_pose(
    spots: Seq<Spot>,
    checked: &CheckedNetlist,
    i: int,
    o: Orientation,
    t: int,
    j: int,
    u: int,
    sole: bool,
    n: int,
)
    requires
        is_wire(checked, i, t, j, u),
        n <= checked.elements@[i].nodes@.len(),
        sole ==> forall|a: int, b: int, c: int| #[trigger]
            is_wire(checked, i, a, b, c) ==> a == t && b == j && c == u,
    ensures
        ({
            let here = Spot { origin: spots[i].origin, orientation: o };
            let d = pin_distance(
                terminal_at(here, checked, i, t),
                terminal_at(spots[j], checked, j, u),
            );
            &&& pose_cost(spots, checked, i, o, n) >= (if t < n { d } else { 0 })
            &&& sole ==> pose_cost(spots, checked, i, o, n) == (if t < n { d } else { 0 })
        }),
    decreases n,
{
    if n > 0 {
        wires_in_pose(spots, checked, i, o, t, j, u, sole, n - 1);
        let a = n - 1;
        let net = checked.elements@[i].nodes@[a] as int;
        let here = Spot { origin: spots[i].origin, orientation: o };
        if !checked.is_reference(net) {
            wires_to_elements(
                spots,
                checked,
                i,
                terminal_at(here, checked, i, a),
                a,
                t,
                j,
                u,
                sole,
                checked.elements@.len() as int,
            );
        }
    }
}

proof fn wires_to_elements(
    spots: Seq<Spot>,
    checked: &CheckedNetlist,
    i: int,
    from: Option<(int, int)>,
    a: int,
    t: int,
    j: int,
    u: int,
    sole: bool,
    n: int,
)
    requires
        is_wire(checked, i, t, j, u),
        0 <= a < checked.elements@[i].nodes@.len(),
        checked.nets@[checked.elements@[i].nodes@[a] as int]@ != "0"@,
        n <= checked.elements@.len(),
        sole ==> forall|a: int, b: int, c: int| #[trigger]
            is_wire(checked, i, a, b, c) ==> a == t && b == j && c == u,
    ensures
        ({
            let net = checked.elements@[i].nodes@[a] as int;
            let d = pin_distance(from, terminal_at(spots[j], checked, j, u));
            let c = cost_to_elements(spots, checked, i, from, net, n);
            &&& c >= (if a == t && j < n { d } else { 0 })
            &&& sole ==> c == (if a == t && j < n { d } else { 0 })
        }),
    decreases n,
{
    if n > 0 {
        wires_to_elements(spots, checked, i, from, a, t, j, u, sole, n - 1);
        if n - 1 != i {
            wires_to_terminals(
                spots,
                checked,
                i,
                from,
                a,
                n - 1,
                t,
                j,
                u,
                sole,
                checked.elements@[n - 1].nodes@.len() as int,
            );
        }
    }
}

proof fn wires_to_terminals(
    spots: Seq<Spot>,
    checked: &CheckedNetlist,
    i: int,
    from: Option<(int, int)>,
    a: int,
    b: int,
    t: int,
    j: int,
    u: int,
    sole: bool,
    n: int,
)
    requires
        is_wire(checked, i, t, j, u),
        0 <= a < checked.elements@[i].nodes@.len(),
        0 <= b < checked.elements@.len(),
        b != i,
        checked.nets@[checked.elements@[i].nodes@[a] as int]@ != "0"@,
        n <= checked.elements@[b].nodes@.len(),
        sole ==> forall|a: int, b: int, c: int| #[trigger]
            is_wire(checked, i, a, b, c) ==> a == t && b == j && c == u,
    ensures
        ({
            let net = checked.elements@[i].nodes@[a] as int;
            let d = pin_distance(from, terminal_at(spots[j], checked, j, u));
            let c = cost_to_terminals(spots, checked, from, net, b, n);
            &&& c >= (if a == t && b == j && u < n { d } else { 0 })
            &&& sole ==> c == (if a == t && b == j && u < n { d } else { 0 })
        }),
    decreases n,
{
    if n > 0 {
        wires_to_terminals(spots, checked, i, from, a, b, t, j, u, sole, n - 1);
        let net = checked.elements@[i].nodes@[a] as int;
        if checked.elements@[b].nodes@[n - 1] == net {
            assert(is_wire(checked, i, a, b, n - 1));
        }
    }
}

/// An element that is not pinned and has a connection takes an allowed pose of
/// the least cost, and of those the upright one where it is among them. Other
/// elements keep theirs.
pub proof fn poses_are_cheap_then_upright(
    spots: Seq<Spot>,
    pinned: Seq<bool>,
    checked: &CheckedNetlist,
    allowed: Seq<Vec<Orientation>>,
    i: int,
    t: int,
    j: int,
    u: int,
    k: int,
)
    requires
        is_wire(checked, i, t, j, u),
        !pinned[i],
        0 <= k < allowed[i]@.len(),
    ensures
        ({
            let o = next_pose(spots, pinned, checked, allowed, i);
            let p = allowed[i]@[k];
            let (a, b) = (full_cost(spots, checked, i, o), full_cost(spots, checked, i, p));
            &&& allowed[i]@.contains(o)
            &&& a <= b
            &&& a == b && p.rotation == crate::symbol::Rotation::R0 && !p.mirror_y ==> o == p
            &&& a == b && !p.mirror_y ==> !o.mirror_y
        }),
{
    assert(checked.touches(j, checked.elements@[i].nodes@[t] as int));
    assert(connected_terminal(checked, i, t));
    the_cheapest_allowed_pose_is_taken(spots, pinned, checked, allowed, i);
    assert(allowed[i]@[k] == allowed[i]@[k]);
    crate::symbol::orientation_index_inverse();
}

/// An element that is pinned or has no connection keeps its pose.
pub proof fn loose_elements_keep_their_pose(
    spots: Seq<Spot>,
    pinned: Seq<bool>,
    checked: &CheckedNetlist,
    allowed: Seq<Vec<Orientation>>,
    i: int,
)
    requires
        pinned[i] || forall|t: int, j: int, u: int| !#[trigger] is_wire(checked, i, t, j, u),
    ensures
        next_pose(spots, pinned, checked, allowed, i) == spots[i].orientation,
{
    if !pinned[i] && is_connected(checked, i) {
        let t = choose|t: int|
            0 <= t < checked.elements@[i].nodes@.len() && #[trigger] connected_terminal(
                checked,
                i,
                t,
            );
        let net = checked.elements@[i].nodes@[t] as int;
        let j = choose|j: int|
            0 <= j < checked.elements@.len() && j != i && #[trigger] checked.touches(j, net);
        let u = choose|u: int|
            0 <= u < checked.elements@[j].nodes@.len() && #[trigger] checked.elements@[j].nodes@[u]
                == net;
        assert(is_wire(checked, i, t, j, u));
    }
}

} // verus!
