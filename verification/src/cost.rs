//! The cost of a layout, term by term.
//!
//! Lengths are in micrometres and areas in square micrometres, so that every
//! term is exact. How the terms are weighed against each other is up to the
//! caller.

use vstd::prelude::*;

#[allow(unused_imports)]
use crate::constraints::{align_members, pins_to_place_by, relation_holds};
use crate::cost_rows::{
    band_inversion, band_misalignment, hinged, layer_order, soft_y_residual,
};
#[allow(unused_imports)]
use crate::cost_rows::{
    band_excesses, band_list, height_cost, hinge, inversion_cost, order_cost, origin_span,
    spans_fit, square, squares_fit, x_at, y_at,
};
#[allow(unused_imports)]
use crate::counting::{sum, sum_bound, sum_eq};
use crate::crossing::crossings;
#[allow(unused_imports)]
use crate::crossing::wire_crossings;
#[allow(unused_imports)]
use crate::extent::Bounds;
#[allow(unused_imports)]
use crate::layers::LayerAssignment;
use crate::names::str_eq;
use crate::netlist::{AlignSpec, Axis, CheckedNetlist, ElementRole, PlaceSpec, Relation};
#[allow(unused_imports)]
use crate::netlist::{last_named_is_last, nets_in_range};
#[allow(unused_imports)]
use crate::pins::exact_quotients_stay;
use crate::placement::{GridPoint, Placement, GRID_STEP};
#[allow(unused_imports)]
use crate::placement::{pin_at, spots_within, Spot, MAX_COORD, MAX_ELEMENTS};
#[allow(unused_imports)]
use crate::placer::champion_placer;
#[allow(unused_imports)]
use crate::pose_pick::{abs, terminal_at};
use crate::pose_pick::terminal_point;
#[allow(unused_imports)]
use crate::relation::{
    anchor_side, facing_side, key_less, outermost, pin_steps, relation_gap, side_key,
};
use crate::relation::Side;
#[allow(unused_imports)]
use crate::seed::is_assignment;
#[allow(unused_imports)]
use crate::symbol::{in_reach, Pin};
use crate::symbol::{Orientation, Symbol};
use crate::wires::{box_around, build_nets, hpwl, net_bbox_crossings};
#[allow(unused_imports)]
use crate::wires::{
    box_crossings, nets_of, pin_limit, pins_box, points, points_on_sheet, wire_length,
};
#[allow(unused_imports)]
use crate::placement::places;

verus! {

/// Width and height of a cell, in micrometres.
pub const CELL_UM: i64 = 7620;

// ---- Overlap -----------------------------------------------------------------------

/// The area that the cells about two origins share.
pub open spec fn shared_cell(spots: Seq<Spot>, i: int, j: int) -> int {
    hinge(CELL_UM - abs(x_at(spots, i) - x_at(spots, j))) * hinge(
        CELL_UM - abs(y_at(spots, i) - y_at(spots, j)),
    )
}

/// The area that the cell of element `j` shares with each other cell.
pub open spec fn shared_cells(spots: Seq<Spot>, j: int) -> spec_fn(int) -> int {
    |i: int| shared_cell(spots, i, j)
}

/// The area that each cell shares with the cells before it.
pub open spec fn shared_below(spots: Seq<Spot>) -> spec_fn(int) -> int {
    |j: int| sum(shared_cells(spots, j), j)
}

/// The area that cells share, over all pairs of elements.
pub open spec fn cell_overlap(spots: Seq<Spot>) -> int {
    sum(shared_below(spots), spots.len() as int)
}

fn overlap(placement: &Placement) -> (r: u128)
    requires
        placement.elements@.len() <= MAX_ELEMENTS,
        placement.within(MAX_COORD as int),
    ensures
        r == cell_overlap(placement.spots()),
{
    let ghost spots = placement.spots();
    let ghost f = shared_below(spots);
    let mut total: u128 = 0;
    let mut j: usize = 0;
    while j < placement.elements.len()
        invariant
            j <= placement.elements@.len(),
            placement.elements@.len() <= MAX_ELEMENTS,
            spots == placement.spots(),
            spots_within(spots, MAX_COORD as int),
            f == shared_below(spots),
            total == sum(f, j as int),
            total <= j * 3_805_308_518_400,
        decreases placement.elements@.len() - j,
    {
        let ghost g = shared_cells(spots, j as int);
        let (bx, by): (i64, i64) = placement.elements[j].origin.to_um();
        assert(spots[j as int].origin.within(MAX_COORD as int));
        let mut part: u128 = 0;
        let mut i: usize = 0;
        while i < j
            invariant
                i <= j,
                j < placement.elements@.len(),
                placement.elements@.len() <= MAX_ELEMENTS,
                spots == placement.spots(),
                spots_within(spots, MAX_COORD as int),
                spots[j as int].origin.within(MAX_COORD as int),
                bx == x_at(spots, j as int),
                by == y_at(spots, j as int),
                g == shared_cells(spots, j as int),
                part == sum(g, i as int),
                part <= i * 58_064_400,
            decreases j - i,
        {
            let (ax, ay): (i64, i64) = placement.elements[i].origin.to_um();
            assert(spots[i as int].origin.within(MAX_COORD as int));
            let dx: i64 = if ax >= bx {
                ax - bx
            } else {
                bx - ax
            };
            let dy: i64 = if ay >= by {
                ay - by
            } else {
                by - ay
            };
            let mut add: u128 = 0;
            if dx < CELL_UM && dy < CELL_UM {
                let (w, h): (i64, i64) = (CELL_UM - dx, CELL_UM - dy);
                assert(0 <= w * h <= 58_064_400) by (nonlinear_arith)
                    requires
                        0 <= w <= 7620,
                        0 <= h <= 7620,
                ;
                add = (w * h) as u128;
            } else {
                proof {
                    let w = hinge(CELL_UM - abs(ax - bx));
                    let h = hinge(CELL_UM - abs(ay - by));
                    assert(w * h == 0) by (nonlinear_arith)
                        requires
                            w == 0 || h == 0,
                    ;
                }
            }
            assert(add == g(i as int));
            part = part + add;
            i = i + 1;
        }
        assert(part == f(j as int));
        total = total + part;
        j = j + 1;
    }
    total
}

// ---- Clusters ----------------------------------------------------------------------

/// The coordinate that a cluster shares: the row of a horizontal one, the
/// column of a vertical one.
pub open spec fn shared_coordinate(spots: Seq<Spot>, axis: Axis, i: int) -> int {
    match axis {
        Axis::Horizontal => y_at(spots, i),
        Axis::Vertical => x_at(spots, i),
    }
}

/// The members among the first `n` names of a cluster, the sum of their shared
/// coordinates, and the sum of their squares.
pub open spec fn cluster_sums(
    spots: Seq<Spot>,
    checked: &CheckedNetlist,
    spec: AlignSpec,
    n: int,
) -> (int, int, int)
    decreases n,
{
    if n <= 0 {
        (0, 0, 0)
    } else {
        let (m, s, q) = cluster_sums(spots, checked, spec, n - 1);
        match checked.element_named(spec.refdes@[n - 1]@) {
            Some(i) => {
                let c = shared_coordinate(spots, spec.axis, i);
                (m + 1, s + c, q + square(c))
            },
            None => (m, s, q),
        }
    }
}

/// The members of a cluster times the squared distances of their shared
/// coordinates from the mean, in sum.
pub open spec fn cluster_spread(spots: Seq<Spot>, checked: &CheckedNetlist, spec: AlignSpec) -> (
    int,
    int,
) {
    let (m, s, q) = cluster_sums(spots, checked, spec, spec.refdes@.len() as int);
    (m, m * q - s * s)
}

/// How far a cluster is from being aligned: `numerator / members` is the sum of
/// the squared distances from the mean.
#[derive(Debug, Clone, Copy, PartialEq, Eq, Structural)]
pub struct ClusterSpread {
    pub members: u64,
    pub numerator: i128,
}

proof fn cluster_sums_fit(
    spots: Seq<Spot>,
    checked: &CheckedNetlist,
    spec: AlignSpec,
    n: int,
)
    requires
        spots.len() == checked.elements@.len(),
        spots_within(spots, MAX_COORD as int),
        0 <= n <= MAX_ELEMENTS,
    ensures
        ({
            let (m, s, q) = cluster_sums(spots, checked, spec, n);
            let w = origin_span();
            &&& 0 <= m <= n
            &&& -(n * w) <= s <= n * w
            &&& 0 <= q <= n * (w * w)
        }),
    decreases n,
{
    let w = origin_span();
    if n > 0 {
        cluster_sums_fit(spots, checked, spec, n - 1);
        let name = spec.refdes@[n - 1]@;
        last_named_is_last(checked.elements@, name, checked.elements@.len() as int);
        spans_fit();
        assert(n * w == (n - 1) * w + w) by (nonlinear_arith);
        assert(n * (w * w) == (n - 1) * (w * w) + w * w) by (nonlinear_arith);
        match checked.element_named(name) {
            Some(i) => {
                assert(spots[i].origin.within(MAX_COORD as int));
                squares_fit(shared_coordinate(spots, spec.axis, i), w);
            },
            None => {},
        }
    } else {
        assert(n * w == 0 && n * (w * w) == 0) by (nonlinear_arith)
            requires
                n == 0,
        ;
    }
}

/// The spread of one cluster.
fn spread_of(placement: &Placement, checked: &CheckedNetlist, spec: &AlignSpec) -> (r: ClusterSpread)
    requires
        placement.elements@.len() == checked.elements@.len(),
        placement.within(MAX_COORD as int),
        spec.refdes@.len() <= MAX_ELEMENTS,
    ensures
        (r.members as int, r.numerator as int) == cluster_spread(placement.spots(), checked, *spec),
{
    let ghost spots = placement.spots();
    let ghost w = origin_span();
    proof {
        spans_fit();
    }
    let mut members: u64 = 0;
    let mut s: i128 = 0;
    let mut q: i128 = 0;
    let mut k: usize = 0;
    while k < spec.refdes.len()
        invariant
            k <= spec.refdes@.len(),
            spec.refdes@.len() <= MAX_ELEMENTS,
            placement.elements@.len() == checked.elements@.len(),
            spots == placement.spots(),
            spots.len() == checked.elements@.len(),
            spots_within(spots, MAX_COORD as int),
            w == origin_span(),
            0 <= w <= 2_800_000_000_000,
            0 <= w * w <= 7_840_000_000_000_000_000_000_000,
            (members as int, s as int, q as int) == cluster_sums(spots, checked, *spec, k as int),
        decreases spec.refdes@.len() - k,
    {
        proof {
            cluster_sums_fit(spots, checked, *spec, k as int);
            cluster_sums_fit(spots, checked, *spec, k + 1);
            assert((k + 1) * w <= 65536 * w) by (nonlinear_arith)
                requires
                    k + 1 <= 65536,
                    w >= 0,
            ;
            assert((k + 1) * (w * w) <= 65536 * (w * w)) by (nonlinear_arith)
                requires
                    k + 1 <= 65536,
                    w * w >= 0,
            ;
        }
        if let Some(i) = checked.element_index(spec.refdes[k].as_str()) {
            let (x, y): (i64, i64) = placement.elements[i].origin.to_um();
            let c: i64 = match spec.axis {
                Axis::Horizontal => y,
                Axis::Vertical => x,
            };
            assert(c == shared_coordinate(spots, spec.axis, i as int));
            assert(spots[i as int].origin.within(MAX_COORD as int));
            proof {
                squares_fit(c as int, w);
            }
            let c: i128 = c as i128;
            members = members + 1;
            s = s + c;
            q = q + c * c;
        }
        k = k + 1;
    }
    proof {
        cluster_sums_fit(spots, checked, *spec, k as int);
        let n = k as int;
        let m = members as int;
        assert(0 <= n * (w * w) <= 65536 * (w * w)) by (nonlinear_arith)
            requires
                0 <= n <= 65536,
                w * w >= 0,
        ;
        assert(0 <= m * q <= 65536 * (65536 * (w * w))) by (nonlinear_arith)
            requires
                0 <= m <= 65536,
                0 <= q <= 65536 * (w * w),
        ;
        let t = 65536 * w;
        assert(0 <= n * w <= t) by (nonlinear_arith)
            requires
                0 <= n <= 65536,
                w >= 0,
                t == 65536 * w,
        ;
        assert(0 <= s * s <= t * t) by (nonlinear_arith)
            requires
                -t <= s <= t,
        ;
        assert(t * t == 4294967296 * (w * w)) by (nonlinear_arith)
            requires
                t == 65536 * w,
        ;
    }
    ClusterSpread { members, numerator: members as i128 * q - s * s }
}

/// Alignment costs nothing: when all members share their coordinate, the
/// spread is zero.
pub proof fn straight_clusters_cost_nothing(
    spots: Seq<Spot>,
    checked: &CheckedNetlist,
    spec: AlignSpec,
    c: int,
    n: int,
)
    requires
        forall|k: int|
            0 <= k < n ==> (checked.element_named(#[trigger] spec.refdes@[k]@) matches Some(i)
                ==> shared_coordinate(spots, spec.axis, i) == c),
    ensures
        ({
            let (m, s, q) = cluster_sums(spots, checked, spec, n);
            s == m * c && q == m * square(c) && m * q - s * s == 0
        }),
    decreases n,
{
    if n > 0 {
        straight_clusters_cost_nothing(spots, checked, spec, c, n - 1);
        assert(spec.refdes@[n - 1]@ == spec.refdes@[n - 1]@);
    }
    let (m, s, q) = cluster_sums(spots, checked, spec, n);
    if n > 0 {
        let (m0, s0, q0) = cluster_sums(spots, checked, spec, n - 1);
        assert((m0 + 1) * c == m0 * c + c) by (nonlinear_arith);
        assert((m0 + 1) * square(c) == m0 * square(c) + square(c)) by (nonlinear_arith);
    } else {
        assert(m * c == 0 && m * square(c) == 0) by (nonlinear_arith)
            requires
                m == 0,
        ;
    }
    assert(m * (m * (c * c)) == (m * c) * (m * c)) by (nonlinear_arith);
}

// ---- Relations -----------------------------------------------------------------------

/// The sheet offset of a pin, in micrometres.
pub open spec fn pin_um(pin: Pin) -> (int, int) {
    (pin.x as int, -pin.y)
}

/// The offset of the outermost of the first `n` pins on a side.
pub open spec fn outermost_um(pins: Seq<Pin>, side: Side, n: int) -> (int, int)
    decreases n,
{
    if n <= 1 {
        pin_um(pins[0])
    } else {
        let best = outermost_um(pins, side, n - 1);
        let p = pin_um(pins[n - 1]);
        if key_less(side_key(side, p), side_key(side, best)) {
            p
        } else {
            best
        }
    }
}

/// The sheet position of the pin that a placed symbol has outermost on a side.
pub open spec fn edge_point(symbol: Symbol, spot: Spot, side: Side) -> (int, int) {
    let pins = symbol.posed(spot.orientation).pins@;
    let d = outermost_um(pins, side, pins.len() as int);
    (spot.origin.um().0 + d.0, spot.origin.um().1 + d.1)
}

/// What a relation pays when the facing pins are at `a` on the anchor and at
/// `t` on the element: across the relation whatever they are out of line,
/// along it only what they overlap.
pub open spec fn relation_excess(relation: Relation, a: (int, int), t: (int, int)) -> int {
    match relation {
        Relation::RightOf => square(hinge(a.0 - t.0)) + square(a.1 - t.1),
        Relation::LeftOf => square(hinge(t.0 - a.0)) + square(a.1 - t.1),
        Relation::Above => square(hinge(t.1 - a.1)) + square(a.0 - t.0),
        Relation::Below => square(hinge(a.1 - t.1)) + square(a.0 - t.0),
    }
}

/// What a `place` directive pays. One with an unknown name pays nothing.
pub open spec fn place_excess(spots: Seq<Spot>, checked: &CheckedNetlist, spec: PlaceSpec) -> int {
    match (checked.element_named(spec.refdes@), checked.element_named(spec.anchor@)) {
        (Some(t), Some(a)) => relation_excess(
            spec.relation,
            edge_point(checked.elements@[a].symbol, spots[a], anchor_side(spec.relation)),
            edge_point(checked.elements@[t].symbol, spots[t], facing_side(spec.relation)),
        ),
        _ => 0,
    }
}

/// What each `place` directive pays.
pub open spec fn place_excesses(spots: Seq<Spot>, checked: &CheckedNetlist) -> spec_fn(int) -> int {
    |k: int| place_excess(spots, checked, checked.place@[k])
}

/// What all `place` directives pay together.
pub open spec fn place_cost(spots: Seq<Spot>, checked: &CheckedNetlist) -> int {
    sum(place_excesses(spots, checked), checked.place@.len() as int)
}

/// All pins of the posed symbol are on the grid.
pub open spec fn pins_on_grid(symbol: Symbol, o: Orientation) -> bool {
    forall|k: int|
        0 <= k < symbol.posed(o).pins@.len() ==> (#[trigger] symbol.posed(o).pins@[k]).x % 1270 == 0
            && symbol.posed(o).pins@[k].y % 1270 == 0
}

proof fn grid_pin(pin: Pin)
    requires
        pin.x % 1270 == 0,
        pin.y % 1270 == 0,
    ensures
        pin_um(pin) == (pin_steps(pin).0 * GRID_STEP, pin_steps(pin).1 * GRID_STEP),
{
    let (a, b) = (pin.x / 1270, -(pin.y / 1270));
    exact_quotients_stay(a, 1270);
    exact_quotients_stay(b, 1270);
    assert(pin.x == a * 1270);
    assert(-pin.y == b * 1270);
}

proof fn grid_outermost(pins: Seq<Pin>, side: Side, n: int)
    requires
        1 <= n <= pins.len(),
        forall|k: int| 0 <= k < pins.len() ==> (#[trigger] pins[k]).x % 1270 == 0 && pins[k].y % 1270 == 0,
    ensures
        outermost_um(pins, side, n) == (
            outermost(pins, side, n).0 * GRID_STEP,
            outermost(pins, side, n).1 * GRID_STEP,
        ),
    decreases n,
{
    grid_pin(pins[n - 1]);
    if n > 1 {
        grid_outermost(pins, side, n - 1);
    } else {
        grid_pin(pins[0]);
    }
}

/// A relation that holds costs nothing, for symbols with their pins on the
/// grid.
pub proof fn settled_relations_cost_nothing(
    spots: Seq<Spot>,
    checked: &CheckedNetlist,
    spec: PlaceSpec,
)
    requires
        relation_holds(checked, spots, spec),
        pins_to_place_by(checked, spec),
        forall|i: int, o: Orientation|
            0 <= i < checked.elements@.len() ==> #[trigger] pins_on_grid(
                checked.elements@[i].symbol,
                o,
            ),
    ensures
        place_excess(spots, checked, spec) == 0,
{
    last_named_is_last(checked.elements@, spec.refdes@, checked.elements@.len() as int);
    last_named_is_last(checked.elements@, spec.anchor@, checked.elements@.len() as int);
    match (checked.element_named(spec.refdes@), checked.element_named(spec.anchor@)) {
        (Some(t), Some(a)) => {
            let (st, sa) = (checked.elements@[t].symbol, checked.elements@[a].symbol);
            let (ot, oa) = (spots[t].orientation, spots[a].orientation);
            assert(pins_on_grid(st, ot) && pins_on_grid(sa, oa));
            assert(st.posed(ot).pins@.len() > 0 && sa.posed(oa).pins@.len() > 0);
            grid_outermost(
                sa.posed(oa).pins@,
                anchor_side(spec.relation),
                sa.posed(oa).pins@.len() as int,
            );
            grid_outermost(
                st.posed(ot).pins@,
                facing_side(spec.relation),
                st.posed(ot).pins@.len() as int,
            );
            let p = edge_point(sa, spots[a], anchor_side(spec.relation));
            let q = edge_point(st, spots[t], facing_side(spec.relation));
            assert(square(0) == 0);
            let gap = relation_gap(spec.relation);
            assert(q.0 == p.0 + gap.0 * GRID_STEP && q.1 == p.1 + gap.1 * GRID_STEP);
        },
        _ => {},
    }
}

/// Whether a pin lies farther out on a side.
fn farther(side: Side, p: (i64, i64), best: (i64, i64)) -> (r: bool)
    requires
        in_reach(p.0 as int),
        in_reach(p.1 as int),
        in_reach(best.0 as int),
        in_reach(best.1 as int),
    ensures
        r == key_less(
            side_key(side, (p.0 as int, p.1 as int)),
            side_key(side, (best.0 as int, best.1 as int)),
        ),
{
    match side {
        Side::Left => p.0 < best.0 || (p.0 == best.0 && p.1 < best.1),
        Side::Right => p.0 > best.0 || (p.0 == best.0 && p.1 < best.1),
        Side::Top => p.1 < best.1 || (p.1 == best.1 && p.0 < best.0),
        Side::Bottom => p.1 > best.1 || (p.1 == best.1 && p.0 < best.0),
    }
}

/// The sheet position of the outermost pin on a side.
fn pick_pin(symbol: &Symbol, origin: GridPoint, o: Orientation, side: Side) -> (r: (i64, i64))
    requires
        symbol.wf(),
        symbol.posed(o).pins@.len() > 0,
        origin.within(MAX_COORD as int),
    ensures
        (r.0 as int, r.1 as int) == edge_point(
            *symbol,
            (Spot { origin, orientation: o }),
            side,
        ),
        -pin_limit() <= r.0 <= pin_limit(),
        -pin_limit() <= r.1 <= pin_limit(),
{
    let pose = symbol.pose(o);
    assert(in_reach(pose.pins@[0].x as int));
    let mut best: (i64, i64) = (pose.pins[0].x as i64, -(pose.pins[0].y as i64));
    let mut k: usize = 1;
    while k < pose.pins.len()
        invariant
            1 <= k <= pose.pins@.len(),
            pose.wf(),
            in_reach(best.0 as int),
            in_reach(best.1 as int),
            (best.0 as int, best.1 as int) == outermost_um(pose.pins@, side, k as int),
        decreases pose.pins@.len() - k,
    {
        assert(in_reach(pose.pins@[k as int].x as int));
        let p: (i64, i64) = (pose.pins[k].x as i64, -(pose.pins[k].y as i64));
        if farther(side, p, best) {
            best = p;
        }
        k = k + 1;
    }
    let (ox, oy): (i64, i64) = origin.to_um();
    (ox + best.0, oy + best.1)
}

/// What a relation pays, from the positions of the facing pins.
pub fn place_residual(relation: Relation, a: (i64, i64), t: (i64, i64)) -> (r: u128)
    requires
        -pin_limit() <= a.0 <= pin_limit(),
        -pin_limit() <= a.1 <= pin_limit(),
        -pin_limit() <= t.0 <= pin_limit(),
        -pin_limit() <= t.1 <= pin_limit(),
    ensures
        r == relation_excess(relation, (a.0 as int, a.1 as int), (t.0 as int, t.1 as int)),
        r <= 2 * ((2 * pin_limit()) * (2 * pin_limit())),
{
    let ghost m = 2 * pin_limit();
    proof {
        assert(m * m <= 3_200_000_000_000 * 3_200_000_000_000) by (nonlinear_arith)
            requires
                0 <= m <= 3_200_000_000_000,
        ;
    }
    let dx: i128 = a.0 as i128 - t.0 as i128;
    let dy: i128 = a.1 as i128 - t.1 as i128;
    proof {
        assert((-dx) * (-dx) == dx * dx && (-dy) * (-dy) == dy * dy) by (nonlinear_arith);
        squares_fit(dx as int, m);
        squares_fit(dy as int, m);
        assert(hinge(dx as int) + hinge(-dx) == abs(dx as int));
        assert(hinge(dy as int) + hinge(-dy) == abs(dy as int));
    }
    match relation {
        Relation::RightOf => hinged(dx, Ghost(m)) + (dy * dy) as u128,
        Relation::LeftOf => hinged(-dx, Ghost(m)) + (dy * dy) as u128,
        Relation::Above => hinged(-dy, Ghost(m)) + (dx * dx) as u128,
        Relation::Below => hinged(dy, Ghost(m)) + (dx * dx) as u128,
    }
}

/// What the `place` directives pay together.
pub fn place_residuals(placement: &Placement, checked: &CheckedNetlist) -> (r: u128)
    requires
        checked.drawable(),
        checked.directives_fit(),
        places(placement, checked),
        placement.within(MAX_COORD as int),
    ensures
        r == place_cost(placement.spots(), checked),
{
    let ghost spots = placement.spots();
    let ghost f = place_excesses(spots, checked);
    let ghost m = 2 * ((2 * pin_limit()) * (2 * pin_limit()));
    proof {
        let w = 2 * pin_limit();
        assert(0 <= w * w <= 3_200_000_000_000 * 3_200_000_000_000) by (nonlinear_arith)
            requires
                0 <= w <= 3_200_000_000_000,
        ;
    }
    let mut total: u128 = 0;
    let mut k: usize = 0;
    while k < checked.place.len()
        invariant
            k <= checked.place@.len(),
            checked.drawable(),
            checked.directives_fit(),
            placement.elements@.len() == checked.elements@.len(),
            spots == placement.spots(),
            spots_within(spots, MAX_COORD as int),
            f == place_excesses(spots, checked),
            m == 2 * ((2 * pin_limit()) * (2 * pin_limit())),
            0 <= m <= 2 * (3_200_000_000_000 * 3_200_000_000_000),
            total == sum(f, k as int),
            total <= k * m,
        decreases checked.place@.len() - k,
    {
        let spec = &checked.place[k];
        proof {
            assert((k + 1) * m == k * m + m) by (nonlinear_arith);
            assert(k * m <= 65536 * m) by (nonlinear_arith)
                requires
                    k <= 65536,
                    m >= 0,
            ;
            assert(pins_to_place_by(checked, checked.place@[k as int]));
        }
        let mut add: u128 = 0;
        let target = checked.element_index(spec.refdes.as_str());
        let anchor = checked.element_index(spec.anchor.as_str());
        if let (Some(t), Some(a)) = (target, anchor) {
            let (a_side, t_side) = match spec.relation {
                Relation::RightOf => (Side::Right, Side::Left),
                Relation::LeftOf => (Side::Left, Side::Right),
                Relation::Above => (Side::Top, Side::Bottom),
                Relation::Below => (Side::Bottom, Side::Top),
            };
            let (pa, pt) = (&placement.elements[a], &placement.elements[t]);
            proof {
                assert(spots[a as int] == (Spot {
                    origin: pa.origin,
                    orientation: pa.orientation,
                }));
                assert(spots[t as int] == (Spot {
                    origin: pt.origin,
                    orientation: pt.orientation,
                }));
                assert(spots[a as int].origin.within(MAX_COORD as int));
                assert(spots[t as int].origin.within(MAX_COORD as int));
                assert(checked.elements@[a as int].symbol.wf());
                assert(checked.elements@[t as int].symbol.wf());
                assert(checked.elements@[a as int].symbol.posed(pa.orientation).pins@.len() > 0);
                assert(checked.elements@[t as int].symbol.posed(pt.orientation).pins@.len() > 0);
            }
            let p: (i64, i64) = pick_pin(
                &checked.elements[a].symbol,
                pa.origin,
                pa.orientation,
                a_side,
            );
            let q: (i64, i64) = pick_pin(
                &checked.elements[t].symbol,
                pt.origin,
                pt.orientation,
                t_side,
            );
            add = place_residual(spec.relation, p, q);
        }
        assert(add == f(k as int));
        total = total + add;
        k = k + 1;
    }
    total
}

/// What the user's directives pay.
#[derive(Debug)]
pub struct ConstraintCost {
    /// One entry per cluster, in order.
    pub clusters: Vec<ClusterSpread>,
    /// What the `place` directives pay together.
    pub place: u128,
}

/// The spreads of all clusters and what the `place` directives pay.
pub open spec fn is_constraint_cost(
    spots: Seq<Spot>,
    checked: &CheckedNetlist,
    c: ConstraintCost,
) -> bool {
    &&& c.clusters@.len() == checked.align@.len()
    &&& forall|k: int|
        0 <= k < c.clusters@.len() ==> ((#[trigger] c.clusters@[k]).members as int,
        c.clusters@[k].numerator as int) == cluster_spread(spots, checked, checked.align@[k])
    &&& c.place == place_cost(spots, checked)
}

proof fn cluster_is_small(align: Seq<AlignSpec>, k: int, n: int)
    requires
        0 <= k < n,
    ensures
        align[k].refdes@.len() <= align_members(align, n),
        0 <= align_members(align, n),
    decreases n,
{
    if k < n - 1 {
        cluster_is_small(align, k, n - 1);
    } else {
        members_count(align, n - 1);
    }
}

proof fn members_count(align: Seq<AlignSpec>, n: int)
    ensures
        0 <= align_members(align, n),
    decreases n,
{
    if n > 0 {
        members_count(align, n - 1);
    }
}

/// What the user's directives pay.
pub fn constraint_violation(placement: &Placement, checked: &CheckedNetlist) -> (r: ConstraintCost)
    requires
        checked.drawable(),
        checked.directives_fit(),
        places(placement, checked),
        placement.within(MAX_COORD as int),
    ensures
        is_constraint_cost(placement.spots(), checked, r),
{
    let ghost spots = placement.spots();
    let mut clusters: Vec<ClusterSpread> = Vec::new();
    let mut k: usize = 0;
    while k < checked.align.len()
        invariant
            k <= checked.align@.len(),
            checked.drawable(),
            checked.directives_fit(),
            placement.elements@.len() == checked.elements@.len(),
            placement.within(MAX_COORD as int),
            spots == placement.spots(),
            clusters@.len() == k,
            forall|j: int|
                0 <= j < k ==> ((#[trigger] clusters@[j]).members as int,
                clusters@[j].numerator as int) == cluster_spread(spots, checked, checked.align@[j]),
        decreases checked.align@.len() - k,
    {
        proof {
            cluster_is_small(checked.align@, k as int, checked.align@.len() as int);
        }
        let spread = spread_of(placement, checked, &checked.align[k]);
        clusters.push(spread);
        k = k + 1;
    }
    ConstraintCost { clusters, place: place_residuals(placement, checked) }
}

// ---- Rails and ports -------------------------------------------------------------------

/// The positions of the first `n` pins of a placed symbol.
pub open spec fn symbol_pins(symbol: Symbol, spot: Spot, n: int) -> Seq<(int, int)>
    decreases n,
{
    if n <= 0 {
        seq![]
    } else {
        symbol_pins(symbol, spot, n - 1).push(
            pin_at(spot.origin, symbol.posed(spot.orientation).pins@[n - 1]),
        )
    }
}

/// The positions of all pins of the first `n` elements.
pub open spec fn all_pins(spots: Seq<Spot>, checked: &CheckedNetlist, n: int) -> Seq<(int, int)>
    decreases n,
{
    if n <= 0 {
        seq![]
    } else {
        let symbol = checked.elements@[n - 1].symbol;
        all_pins(spots, checked, n - 1) + symbol_pins(
            symbol,
            spots[n - 1],
            symbol.posed(spots[n - 1].orientation).pins@.len() as int,
        )
    }
}

/// The box around all pins of the layout; a point when there are none.
pub open spec fn frame(spots: Seq<Spot>, checked: &CheckedNetlist) -> Bounds {
    let pins = all_pins(spots, checked, checked.elements@.len() as int);
    if pins.len() == 0 {
        Bounds::origin()
    } else {
        pins_box(pins)
    }
}

/// A supply has the net's name for a rail.
pub open spec fn names_rail(checked: &CheckedNetlist, i: int, net: int) -> bool {
    checked.elements@[i].role matches ElementRole::Power(rail) && rail@ == checked.nets@[net]@
}

/// The net is a declared supply rail.
pub open spec fn is_rail_name(checked: &CheckedNetlist, net: int) -> bool {
    exists|i: int| 0 <= i < checked.elements@.len() && #[trigger] names_rail(checked, i, net)
}

/// What a terminal pays for its distance from its rail's edge: supply rails
/// belong to the top of the frame and net `0` to the bottom.
pub open spec fn rail_excess(
    spots: Seq<Spot>,
    checked: &CheckedNetlist,
    edge: Bounds,
    i: int,
    t: int,
) -> int {
    let net = checked.elements@[i].nodes@[t] as int;
    match terminal_at(spots[i], checked, i, t) {
        None => 0,
        Some(p) => if is_rail_name(checked, net) {
            square(hinge(p.1 - edge.min_y))
        } else if checked.is_reference(net) {
            square(hinge(edge.max_y - p.1))
        } else {
            0
        },
    }
}

/// The net is the first port of a subcircuit with two or more.
pub open spec fn enters_at(checked: &CheckedNetlist, k: int, net: int) -> bool {
    let ports = checked.subckts@[k].ports@;
    ports.len() >= 2 && ports[0] == net
}

/// The net is the last port of a subcircuit with two or more.
pub open spec fn leaves_at(checked: &CheckedNetlist, k: int, net: int) -> bool {
    let ports = checked.subckts@[k].ports@;
    ports.len() >= 2 && ports[ports.len() - 1] == net
}

/// The signal enters a subcircuit through the net.
pub open spec fn is_entry(checked: &CheckedNetlist, net: int) -> bool {
    exists|k: int| 0 <= k < checked.subckts@.len() && #[trigger] enters_at(checked, k, net)
}

/// The signal leaves a subcircuit through the net.
pub open spec fn is_exit(checked: &CheckedNetlist, net: int) -> bool {
    exists|k: int| 0 <= k < checked.subckts@.len() && #[trigger] leaves_at(checked, k, net)
}

/// What a terminal pays for its distance from the edge that the signal comes
/// from or goes to: entries belong to the left, exits to the right.
pub open spec fn port_excess(
    spots: Seq<Spot>,
    checked: &CheckedNetlist,
    edge: Bounds,
    i: int,
    t: int,
) -> int {
    let net = checked.elements@[i].nodes@[t] as int;
    match terminal_at(spots[i], checked, i, t) {
        None => 0,
        Some(p) => (if is_entry(checked, net) {
            square(hinge(p.0 - edge.min_x))
        } else {
            0
        }) + (if is_exit(checked, net) {
            square(hinge(edge.max_x - p.0))
        } else {
            0
        }),
    }
}

/// What each terminal of an element pays for its rail.
pub open spec fn rail_excesses(
    spots: Seq<Spot>,
    checked: &CheckedNetlist,
    edge: Bounds,
    i: int,
) -> spec_fn(int) -> int {
    |t: int| rail_excess(spots, checked, edge, i, t)
}

/// What each element pays for its rails.
pub open spec fn element_rail_excess(
    spots: Seq<Spot>,
    checked: &CheckedNetlist,
    edge: Bounds,
) -> spec_fn(int) -> int {
    |i: int|
        sum(
            rail_excesses(spots, checked, edge, i),
            checked.elements@[i].nodes@.len() as int,
        )
}

/// What the rail pins pay together.
pub open spec fn rail_cost(spots: Seq<Spot>, checked: &CheckedNetlist) -> int {
    sum(
        element_rail_excess(spots, checked, frame(spots, checked)),
        checked.elements@.len() as int,
    )
}

/// What each terminal of an element pays for its port.
pub open spec fn port_excesses(
    spots: Seq<Spot>,
    checked: &CheckedNetlist,
    edge: Bounds,
    i: int,
) -> spec_fn(int) -> int {
    |t: int| port_excess(spots, checked, edge, i, t)
}

/// What each element pays for its ports.
pub open spec fn element_port_excess(
    spots: Seq<Spot>,
    checked: &CheckedNetlist,
    edge: Bounds,
) -> spec_fn(int) -> int {
    |i: int|
        sum(
            port_excesses(spots, checked, edge, i),
            checked.elements@[i].nodes@.len() as int,
        )
}

/// What the port pins pay together.
pub open spec fn port_cost(spots: Seq<Spot>, checked: &CheckedNetlist) -> int {
    sum(
        element_port_excess(spots, checked, frame(spots, checked)),
        checked.elements@.len() as int,
    )
}

/// The positions of all pins.
fn collect_pin_world(placement: &Placement, checked: &CheckedNetlist) -> (r: Vec<(i64, i64)>)
    requires
        checked.drawable(),
        placement.elements@.len() == checked.elements@.len(),
        placement.within(MAX_COORD as int),
    ensures
        points(r@) == all_pins(placement.spots(), checked, checked.elements@.len() as int),
        points_on_sheet(points(r@)),
{
    let ghost spots = placement.spots();
    let mut out: Vec<(i64, i64)> = Vec::new();
    assert(points(out@) =~= all_pins(spots, checked, 0));
    let mut i: usize = 0;
    while i < checked.elements.len()
        invariant
            i <= checked.elements@.len(),
            checked.drawable(),
            placement.elements@.len() == checked.elements@.len(),
            spots == placement.spots(),
            spots_within(spots, MAX_COORD as int),
            points(out@) == all_pins(spots, checked, i as int),
            points_on_sheet(points(out@)),
        decreases checked.elements@.len() - i,
    {
        assert(checked.elements@[i as int].symbol.wf());
        assert(spots[i as int].origin.within(MAX_COORD as int));
        let o = placement.elements[i].orientation;
        let pose = checked.elements[i].symbol.pose(o);
        let (ox, oy): (i64, i64) = placement.elements[i].origin.to_um();
        let ghost before = all_pins(spots, checked, i as int);
        let ghost symbol = checked.elements@[i as int].symbol;
        assert(before + symbol_pins(symbol, spots[i as int], 0) =~= before);
        let mut k: usize = 0;
        while k < pose.pins.len()
            invariant
                k <= pose.pins@.len(),
                i < spots.len(),
                pose.wf(),
                *pose == symbol.posed(spots[i as int].orientation),
                spots[i as int].origin.within(MAX_COORD as int),
                ox == spots[i as int].origin.um().0,
                oy == spots[i as int].origin.um().1,
                points(out@) == before + symbol_pins(symbol, spots[i as int], k as int),
                points_on_sheet(points(out@)),
            decreases pose.pins@.len() - k,
        {
            assert(in_reach(pose.pins@[k as int].x as int));
            let p: (i64, i64) = (ox + pose.pins[k].x as i64, oy - pose.pins[k].y as i64);
            let ghost was = points(out@);
            out.push(p);
            proof {
                let at = (p.0 as int, p.1 as int);
                let rest = symbol_pins(symbol, spots[i as int], k as int);
                assert(points(out@) =~= was.push(at));
                assert(before + rest.push(at) =~= (before + rest).push(at));
                assert forall|j: int| 0 <= j < points(out@).len() implies -pin_limit() <= (
                #[trigger] points(out@)[j]).0 <= pin_limit() && -pin_limit() <= points(out@)[j].1
                    <= pin_limit() by {
                    if j < was.len() {
                        assert(points(out@)[j] == was[j]);
                    }
                }
            }
            k = k + 1;
        }
        i = i + 1;
    }
    out
}

/// The box around all pins.
fn find_frame(placement: &Placement, checked: &CheckedNetlist) -> (r: (i64, i64, i64, i64))
    requires
        checked.drawable(),
        placement.elements@.len() == checked.elements@.len(),
        placement.within(MAX_COORD as int),
    ensures
        ({
            let b = frame(placement.spots(), checked);
            &&& r.0 == b.min_x
            &&& r.1 == b.min_y
            &&& r.2 == b.max_x
            &&& r.3 == b.max_y
            &&& -pin_limit() <= r.0 <= r.2 <= pin_limit()
            &&& -pin_limit() <= r.1 <= r.3 <= pin_limit()
        }),
{
    let pins = collect_pin_world(placement, checked);
    if pins.len() == 0 {
        (0, 0, 0, 0)
    } else {
        box_around(&pins)
    }
}

fn is_named_rail(checked: &CheckedNetlist, net: usize) -> (r: bool)
    requires
        net < checked.nets@.len(),
    ensures
        r == is_rail_name(checked, net as int),
{
    let mut i: usize = 0;
    while i < checked.elements.len()
        invariant
            i <= checked.elements@.len(),
            net < checked.nets@.len(),
            forall|k: int| 0 <= k < i ==> !(#[trigger] names_rail(checked, k, net as int)),
        decreases checked.elements@.len() - i,
    {
        let named = match &checked.elements[i].role {
            ElementRole::Power(rail) => str_eq(rail.as_str(), checked.nets[net].as_str()),
            ElementRole::Normal => false,
        };
        assert(named == names_rail(checked, i as int, net as int));
        if named {
            return true;
        }
        i = i + 1;
    }
    false
}

fn enters_through(checked: &CheckedNetlist, net: usize) -> (r: bool)
    ensures
        r == is_entry(checked, net as int),
{
    let mut k: usize = 0;
    while k < checked.subckts.len()
        invariant
            k <= checked.subckts@.len(),
            forall|j: int| 0 <= j < k ==> !(#[trigger] enters_at(checked, j, net as int)),
        decreases checked.subckts@.len() - k,
    {
        let ports = &checked.subckts[k].ports;
        let hit = ports.len() >= 2 && ports[0] == net;
        assert(hit == enters_at(checked, k as int, net as int));
        if hit {
            return true;
        }
        k = k + 1;
    }
    false
}

fn leaves_through(checked: &CheckedNetlist, net: usize) -> (r: bool)
    ensures
        r == is_exit(checked, net as int),
{
    let mut k: usize = 0;
    while k < checked.subckts.len()
        invariant
            k <= checked.subckts@.len(),
            forall|j: int| 0 <= j < k ==> !(#[trigger] leaves_at(checked, j, net as int)),
        decreases checked.subckts@.len() - k,
    {
        let ports = &checked.subckts[k].ports;
        let n: usize = ports.len();
        let hit = n >= 2 && ports[n - 1] == net;
        assert(hit == leaves_at(checked, k as int, net as int));
        if hit {
            return true;
        }
        k = k + 1;
    }
    false
}

/// What one terminal can pay at most.
spec fn excess_limit() -> int {
    2 * ((2 * pin_limit()) * (2 * pin_limit()))
}

proof fn excess_limit_fits()
    ensures
        0 <= excess_limit() <= 20_480_000_000_000_000_000_000_000,
        (2 * pin_limit()) * (2 * pin_limit()) <= 10_240_000_000_000_000_000_000_000,
        0 <= (2 * pin_limit()) * (2 * pin_limit()),
{
    let w = 2 * pin_limit();
    assert(0 <= w * w <= 3_200_000_000_000 * 3_200_000_000_000) by (nonlinear_arith)
        requires
            0 <= w <= 3_200_000_000_000,
    ;
}

/// What the rail pins pay together, in square micrometres.
pub fn rail_direction(placement: &Placement, checked: &CheckedNetlist) -> (r: u128)
    requires
        checked.drawable(),
        places(placement, checked),
        placement.within(MAX_COORD as int),
    ensures
        r == rail_cost(placement.spots(), checked),
{
    let ghost spots = placement.spots();
    let ghost edge = frame(spots, checked);
    let ghost f = element_rail_excess(spots, checked, edge);
    let ghost m = 2 * pin_limit();
    let ghost w = excess_limit();
    let (_, y_top, _, y_bot): (i64, i64, i64, i64) = find_frame(placement, checked);
    proof {
        excess_limit_fits();
    }
    let mut total: u128 = 0;
    let mut i: usize = 0;
    while i < checked.elements.len()
        invariant
            i <= checked.elements@.len(),
            checked.drawable(),
            placement.elements@.len() == checked.elements@.len(),
            placement.within(MAX_COORD as int),
            spots == placement.spots(),
            edge == frame(spots, checked),
            f == element_rail_excess(spots, checked, edge),
            y_top == edge.min_y,
            y_bot == edge.max_y,
            -pin_limit() <= y_top <= y_bot <= pin_limit(),
            m == 2 * pin_limit(),
            w == excess_limit(),
            0 <= w <= 20_480_000_000_000_000_000_000_000,
            m * m <= 10_240_000_000_000_000_000_000_000,
            0 <= m * m,
            total == sum(f, i as int),
            total <= i * (100_000 * w),
        decreases checked.elements@.len() - i,
    {
        let ghost g = rail_excesses(spots, checked, edge, i as int);
        let nodes = &checked.elements[i].nodes;
        proof {
            assert(checked.elements@[i as int].symbol.wf());
            assert(nets_in_range(checked.elements@[i as int].nodes@, checked.nets@.len()));
        }
        let mut part: u128 = 0;
        let mut t: usize = 0;
        while t < nodes.len()
            invariant
                t <= nodes@.len(),
                i < checked.elements@.len(),
                nodes@ == checked.elements@[i as int].nodes@,
                nodes@.len() <= 100_000,
                nets_in_range(nodes@, checked.nets@.len()),
                checked.drawable(),
                placement.elements@.len() == checked.elements@.len(),
                placement.within(MAX_COORD as int),
                spots == placement.spots(),
                g == rail_excesses(spots, checked, edge, i as int),
                y_top == edge.min_y,
                y_bot == edge.max_y,
                -pin_limit() <= y_top <= y_bot <= pin_limit(),
                m == 2 * pin_limit(),
                w == 2 * (m * m),
                0 <= w <= 20_480_000_000_000_000_000_000_000,
                m * m <= 10_240_000_000_000_000_000_000_000,
                0 <= m * m,
                part == sum(g, t as int),
                part <= t * w,
            decreases nodes@.len() - t,
        {
            proof {
                assert((t + 1) * w == t * w + w) by (nonlinear_arith);
                assert(t * w <= 100_000 * w) by (nonlinear_arith)
                    requires
                        t <= 100_000,
                        w >= 0,
                ;
                assert(spots[i as int] == (Spot {
                    origin: spots[i as int].origin,
                    orientation: placement.elements@[i as int].orientation,
                }));
            }
            let net: usize = nodes[t];
            let at = terminal_point(placement, checked, i, placement.elements[i].orientation, t);
            let mut add: u128 = 0;
            if let Some(p) = at {
                if is_named_rail(checked, net) {
                    add = hinged(p.1 as i128 - y_top as i128, Ghost(m));
                } else if str_eq(checked.nets[net].as_str(), "0") {
                    add = hinged(y_bot as i128 - p.1 as i128, Ghost(m));
                }
            }
            assert(add == g(t as int));
            part = part + add;
            t = t + 1;
        }
        proof {
            assert(part == f(i as int));
            assert(t * w <= 100_000 * w) by (nonlinear_arith)
                requires
                    t <= 100_000,
                    w >= 0,
            ;
            let z = 100_000 * w;
            assert((i + 1) * z == i * z + z) by (nonlinear_arith);
            assert(i * z <= 65536 * z) by (nonlinear_arith)
                requires
                    i <= 65536,
                    z >= 0,
            ;
        }
        total = total + part;
        i = i + 1;
    }
    total
}

/// What the port pins pay together, in square micrometres.
pub fn signal_flow(placement: &Placement, checked: &CheckedNetlist) -> (r: u128)
    requires
        checked.drawable(),
        places(placement, checked),
        placement.within(MAX_COORD as int),
    ensures
        r == port_cost(placement.spots(), checked),
{
    let ghost spots = placement.spots();
    let ghost edge = frame(spots, checked);
    let ghost f = element_port_excess(spots, checked, edge);
    let ghost m = 2 * pin_limit();
    let ghost w = excess_limit();
    let (x_left, _, x_right, _): (i64, i64, i64, i64) = find_frame(placement, checked);
    proof {
        excess_limit_fits();
    }
    let mut total: u128 = 0;
    let mut i: usize = 0;
    while i < checked.elements.len()
        invariant
            i <= checked.elements@.len(),
            checked.drawable(),
            placement.elements@.len() == checked.elements@.len(),
            placement.within(MAX_COORD as int),
            spots == placement.spots(),
            edge == frame(spots, checked),
            f == element_port_excess(spots, checked, edge),
            x_left == edge.min_x,
            x_right == edge.max_x,
            -pin_limit() <= x_left <= x_right <= pin_limit(),
            m == 2 * pin_limit(),
            w == excess_limit(),
            0 <= w <= 20_480_000_000_000_000_000_000_000,
            m * m <= 10_240_000_000_000_000_000_000_000,
            0 <= m * m,
            total == sum(f, i as int),
            total <= i * (100_000 * w),
        decreases checked.elements@.len() - i,
    {
        let ghost g = port_excesses(spots, checked, edge, i as int);
        let nodes = &checked.elements[i].nodes;
        proof {
            assert(checked.elements@[i as int].symbol.wf());
        }
        let mut part: u128 = 0;
        let mut t: usize = 0;
        while t < nodes.len()
            invariant
                t <= nodes@.len(),
                i < checked.elements@.len(),
                nodes@ == checked.elements@[i as int].nodes@,
                nodes@.len() <= 100_000,
                checked.drawable(),
                placement.elements@.len() == checked.elements@.len(),
                placement.within(MAX_COORD as int),
                spots == placement.spots(),
                g == port_excesses(spots, checked, edge, i as int),
                x_left == edge.min_x,
                x_right == edge.max_x,
                -pin_limit() <= x_left <= x_right <= pin_limit(),
                m == 2 * pin_limit(),
                w == 2 * (m * m),
                0 <= w <= 20_480_000_000_000_000_000_000_000,
                m * m <= 10_240_000_000_000_000_000_000_000,
                0 <= m * m,
                part == sum(g, t as int),
                part <= t * w,
            decreases nodes@.len() - t,
        {
            proof {
                assert((t + 1) * w == t * w + w) by (nonlinear_arith);
                assert(t * w <= 100_000 * w) by (nonlinear_arith)
                    requires
                        t <= 100_000,
                        w >= 0,
                ;
                assert(spots[i as int] == (Spot {
                    origin: spots[i as int].origin,
                    orientation: placement.elements@[i as int].orientation,
                }));
            }
            let net: usize = nodes[t];
            let at = terminal_point(placement, checked, i, placement.elements[i].orientation, t);
            let mut add: u128 = 0;
            if let Some(p) = at {
                if enters_through(checked, net) {
                    add = hinged(p.0 as i128 - x_left as i128, Ghost(m));
                }
                if leaves_through(checked, net) {
                    add = add + hinged(x_right as i128 - p.0 as i128, Ghost(m));
                }
            }
            assert(add == g(t as int));
            part = part + add;
            t = t + 1;
        }
        proof {
            assert(part == f(i as int));
            assert(t * w <= 100_000 * w) by (nonlinear_arith)
                requires
                    t <= 100_000,
                    w >= 0,
            ;
            let z = 100_000 * w;
            assert((i + 1) * z == i * z + z) by (nonlinear_arith);
            assert(i * z <= 65536 * z) by (nonlinear_arith)
                requires
                    i <= 65536,
                    z >= 0,
            ;
        }
        total = total + part;
        i = i + 1;
    }
    total
}

/// A netlist without subcircuits has no ports to pay for.
pub proof fn top_level_ports_cost_nothing(spots: Seq<Spot>, checked: &CheckedNetlist)
    requires
        checked.subckts@.len() == 0,
    ensures
        port_cost(spots, checked) == 0,
{
    let edge = frame(spots, checked);
    let f = element_port_excess(spots, checked, edge);
    let zero = |i: int| 0int;
    assert forall|i: int| 0 <= i < checked.elements@.len() implies #[trigger] f(i) == zero(i) by {
        let g = port_excesses(spots, checked, edge, i);
        assert forall|t: int| 0 <= t < checked.elements@[i].nodes@.len() implies #[trigger] g(t)
            == zero(t) by {}
        sum_eq(g, zero, checked.elements@[i].nodes@.len() as int);
        sum_bound(zero, checked.elements@[i].nodes@.len() as int, 0);
    }
    sum_eq(f, zero, checked.elements@.len() as int);
    sum_bound(zero, checked.elements@.len() as int, 0);
}

// ---- All terms ---------------------------------------------------------------------------

/// The cost of a layout, term by term. Lengths are in micrometres and squares
/// in square micrometres, except where a field says otherwise.
#[derive(Debug)]
pub struct CostBreakdown {
    /// Half the perimeters of the boxes around the nets, in sum.
    pub hpwl: u128,
    /// The area that cells share.
    pub overlap: u128,
    /// Crossings of straight-line tree edges of different nets.
    pub crossings: u128,
    /// What the user's directives pay.
    pub constraint_violation: ConstraintCost,
    /// Squared distances of rail pins from their edge.
    pub rail_direction: u128,
    /// Squared distances of port pins from their edge.
    pub signal_flow: u128,
    /// Squared distances of elements from their bands.
    pub band_misalignment: u128,
    /// Squared distances from the heights aimed for, in thirty-sixths.
    pub soft_y_residual: u128,
    /// Squared distances of pairs that stand against the signal.
    pub layer_order: u128,
    /// Pairs of nets whose boxes share an area.
    pub net_bbox_crossings: u128,
    /// Squared distances of pairs that are drawn upside down.
    pub band_inversion: u128,
}

/// Every term of the cost of a layout.
#[must_use]
pub fn breakdown(placement: &Placement, checked: &CheckedNetlist) -> (r: CostBreakdown)
    requires
        checked.drawable(),
        checked.directives_fit(),
        places(placement, checked),
        placement.within(MAX_COORD as int),
    ensures
        ({
            let spots = placement.spots();
            let (n, m) = (checked.elements@.len() as int, checked.nets@.len() as int);
            &&& r.hpwl == wire_length(spots, checked, m)
            &&& r.overlap == cell_overlap(spots)
            &&& r.crossings == wire_crossings(spots, checked, m)
            &&& is_constraint_cost(spots, checked, r.constraint_violation)
            &&& r.rail_direction == rail_cost(spots, checked)
            &&& r.signal_flow == port_cost(spots, checked)
            &&& r.band_misalignment == sum(band_excesses(spots, band_list(checked)), n)
            &&& r.soft_y_residual == height_cost(spots, band_list(checked))
            &&& r.net_bbox_crossings == box_crossings(spots, checked, m)
            &&& r.band_inversion == inversion_cost(spots, band_list(checked))
            &&& exists|asg: LayerAssignment| #[trigger]
                is_assignment(checked, champion_placer(), asg) && r.layer_order == order_cost(
                    spots,
                    checked,
                    asg,
                )
        }),
{
    let nets = build_nets(placement, checked);
    let ghost spots = placement.spots();
    assert(nets_of(nets@, spots, checked));
    CostBreakdown {
        hpwl: hpwl(&nets, checked, Ghost(spots)),
        overlap: overlap(placement),
        crossings: crossings(&nets, checked, Ghost(spots)),
        constraint_violation: constraint_violation(placement, checked),
        rail_direction: rail_direction(placement, checked),
        signal_flow: signal_flow(placement, checked),
        band_misalignment: band_misalignment(placement, checked, None),
        soft_y_residual: soft_y_residual(placement, checked),
        layer_order: layer_order(placement, checked),
        net_bbox_crossings: net_bbox_crossings(&nets, checked, Ghost(spots)),
        band_inversion: band_inversion(placement, checked),
    }
}

// ---- What the terms ask for ---------------------------------------------------------------

proof fn areas_vanish(a: int, b: int)
    requires
        a >= 0,
        b >= 0,
    ensures
        a * b >= 0,
        a * b == 0 <==> a == 0 || b == 0,
{
    assert(a * b >= 0) by (nonlinear_arith)
        requires
            a >= 0,
            b >= 0,
    ;
    if a > 0 && b > 0 {
        assert(a * b > 0) by (nonlinear_arith)
            requires
                a > 0,
                b > 0,
        ;
    } else if a == 0 {
        assert(a * b == 0) by (nonlinear_arith)
            requires
                a == 0,
        ;
    } else {
        assert(a * b == 0) by (nonlinear_arith)
            requires
                b == 0,
        ;
    }
}

/// Cells do not overlap exactly if every two elements are six grid steps apart
/// along X or along Y. Two that are nearer share the area that is left.
pub proof fn spaced_cells_are_free(spots: Seq<Spot>)
    ensures
        cell_overlap(spots) >= 0,
        cell_overlap(spots) == 0 <==> forall|i: int, j: int|
            #![trigger spots[i], spots[j]]
            0 <= i < j < spots.len() ==> spots[i].origin.x - spots[j].origin.x >= 6
                || spots[j].origin.x - spots[i].origin.x >= 6 || spots[i].origin.y
                - spots[j].origin.y >= 6 || spots[j].origin.y - spots[i].origin.y >= 6,
        forall|i: int, j: int, dx: int, dy: int|
            0 <= dx < 6 && 0 <= dy < 6 && (spots[i].origin.x - spots[j].origin.x == dx
                || spots[j].origin.x - spots[i].origin.x == dx) && (spots[i].origin.y
                - spots[j].origin.y == dy || spots[j].origin.y - spots[i].origin.y == dy)
                ==> #[trigger] shared_cell(spots, i, j) == #[trigger] cell_rest(dx, dy),
{
    let n = spots.len() as int;
    let f = shared_below(spots);
    assert forall|i: int, j: int| #[trigger] shared_cell(spots, i, j) >= 0 && (shared_cell(
        spots,
        i,
        j,
    ) == 0 <==> spots[i].origin.x - spots[j].origin.x >= 6 || spots[j].origin.x - spots[i].origin.x
        >= 6 || spots[i].origin.y - spots[j].origin.y >= 6 || spots[j].origin.y - spots[i].origin.y
        >= 6) by {
        areas_vanish(
            hinge(CELL_UM - abs(x_at(spots, i) - x_at(spots, j))),
            hinge(CELL_UM - abs(y_at(spots, i) - y_at(spots, j))),
        );
    }
    assert forall|j: int| 0 <= j < n implies #[trigger] f(j) >= 0 && (f(j) == 0 <==> forall|i: int|
        0 <= i < j ==> #[trigger] shared_cell(spots, i, j) == 0) by {
        let g = shared_cells(spots, j);
        assert forall|i: int| 0 <= i < j implies #[trigger] g(i) >= 0 by {
            assert(shared_cell(spots, i, j) >= 0);
        }
        crate::counting::sum_zero_iff(g, j);
        if f(j) == 0 {
            assert forall|i: int| 0 <= i < j implies #[trigger] shared_cell(spots, i, j) == 0 by {
                assert(g(i) == 0);
            }
        }
        if forall|i: int| 0 <= i < j ==> #[trigger] shared_cell(spots, i, j) == 0 {
            assert forall|i: int| 0 <= i < j implies #[trigger] g(i) == 0 by {
                assert(shared_cell(spots, i, j) == 0);
            }
        }
    }
    crate::counting::sum_zero_iff(f, n);
    if cell_overlap(spots) == 0 {
        assert forall|i: int, j: int|
            #![trigger spots[i], spots[j]]
            0 <= i < j < n implies spots[i].origin.x - spots[j].origin.x >= 6 || spots[j].origin.x
            - spots[i].origin.x >= 6 || spots[i].origin.y - spots[j].origin.y >= 6
            || spots[j].origin.y - spots[i].origin.y >= 6 by {
            assert(f(j) == 0);
            assert(shared_cell(spots, i, j) == 0);
        }
    }
    if forall|i: int, j: int|
        #![trigger spots[i], spots[j]]
        0 <= i < j < n ==> spots[i].origin.x - spots[j].origin.x >= 6 || spots[j].origin.x
            - spots[i].origin.x >= 6 || spots[i].origin.y - spots[j].origin.y >= 6
            || spots[j].origin.y - spots[i].origin.y >= 6 {
        assert forall|j: int| 0 <= j < n implies #[trigger] f(j) == 0 by {
            assert forall|i: int| 0 <= i < j implies #[trigger] shared_cell(spots, i, j) == 0 by {
                let (a, b) = (spots[i], spots[j]);
            }
        }
    }
}

/// The area that two cells of six by six grid steps share, `dx` steps and `dy`
/// steps apart.
pub open spec fn cell_rest(dx: int, dy: int) -> int {
    ((6 - dx) * 1270) * ((6 - dy) * 1270)
}

/// A horizontal cluster costs nothing when its members share one Y and a
/// vertical one when they share one X. One of two members costs the square of
/// the distance across its line, and nothing for the distance along it.
pub proof fn lines_are_free(
    spots: Seq<Spot>,
    checked: &CheckedNetlist,
    spec: AlignSpec,
    i: int,
    j: int,
)
    requires
        spec.refdes@.len() == 2,
        checked.element_named(spec.refdes@[0]@) == Some(i),
        checked.element_named(spec.refdes@[1]@) == Some(j),
    ensures
        ({
            let d = match spec.axis {
                Axis::Horizontal => spots[i].origin.y - spots[j].origin.y,
                Axis::Vertical => spots[i].origin.x - spots[j].origin.x,
            };
            cluster_spread(spots, checked, spec) == (2int, (1270 * d) * (1270 * d))
        }),
{
    reveal_with_fuel(cluster_sums, 3);
    let (a, b) = (
        shared_coordinate(spots, spec.axis, i),
        shared_coordinate(spots, spec.axis, j),
    );
    assert(2 * (a * a + b * b) - (a + b) * (a + b) == (a - b) * (a - b)) by (nonlinear_arith);
    assert(cluster_sums(spots, checked, spec, 2) == (2int, a + b, a * a + b * b));
}

/// What a `place` directive costs. For an element to the right, let the facing
/// pins be the topmost of the anchor's rightmost and of the element's leftmost
/// pins: it costs the square of how far the element's lies left of the
/// anchor's, and the square of how far the two are out of line. The other
/// relations are alike; above and below it is the leftmost of the outermost
/// pins.
pub proof fn relations_cost_what_they_miss(
    spots: Seq<Spot>,
    checked: &CheckedNetlist,
    spec: PlaceSpec,
    a: int,
    b: int,
)
    requires
        checked.element_named(spec.anchor@) == Some(a),
        checked.element_named(spec.refdes@) == Some(b),
        checked.elements@[a].symbol.posed(spots[a].orientation).pins@.len() > 0,
        checked.elements@[b].symbol.posed(spots[b].orientation).pins@.len() > 0,
    ensures
        ({
            let p = checked.elements@[a].symbol.posed(spots[a].orientation).pins@;
            let q = checked.elements@[b].symbol.posed(spots[b].orientation).pins@;
            let a_x = |i: int| spots[a].origin.x * 1270 + p[i].x;
            let a_y = |i: int| spots[a].origin.y * 1270 - p[i].y;
            let b_x = |j: int| spots[b].origin.x * 1270 + q[j].x;
            let b_y = |j: int| spots[b].origin.y * 1270 - q[j].y;
            let over = |d: int|
                if d > 0 {
                    d * d
                } else {
                    0
                };
            exists|i: int, j: int|
                #![trigger p[i], q[j]]
                {
                    &&& 0 <= i < p.len()
                    &&& 0 <= j < q.len()
                    &&& forall|k: int|
                        #![trigger p[k]]
                        0 <= k < p.len() ==> match spec.relation {
                            Relation::RightOf => a_x(k) < a_x(i) || a_x(k) == a_x(i) && a_y(k)
                                >= a_y(i),
                            Relation::LeftOf => a_x(k) > a_x(i) || a_x(k) == a_x(i) && a_y(k)
                                >= a_y(i),
                            Relation::Above => a_y(k) > a_y(i) || a_y(k) == a_y(i) && a_x(k)
                                >= a_x(i),
                            Relation::Below => a_y(k) < a_y(i) || a_y(k) == a_y(i) && a_x(k)
                                >= a_x(i),
                        }
                    &&& forall|k: int|
                        #![trigger q[k]]
                        0 <= k < q.len() ==> match spec.relation {
                            Relation::RightOf => b_x(k) > b_x(j) || b_x(k) == b_x(j) && b_y(k)
                                >= b_y(j),
                            Relation::LeftOf => b_x(k) < b_x(j) || b_x(k) == b_x(j) && b_y(k)
                                >= b_y(j),
                            Relation::Above => b_y(k) < b_y(j) || b_y(k) == b_y(j) && b_x(k)
                                >= b_x(j),
                            Relation::Below => b_y(k) > b_y(j) || b_y(k) == b_y(j) && b_x(k)
                                >= b_x(j),
                        }
                    &&& place_excess(spots, checked, spec) == match spec.relation {
                        Relation::RightOf => over(a_x(i) - b_x(j)) + (a_y(i) - b_y(j)) * (a_y(i)
                            - b_y(j)),
                        Relation::LeftOf => over(b_x(j) - a_x(i)) + (a_y(i) - b_y(j)) * (a_y(i)
                            - b_y(j)),
                        Relation::Above => over(b_y(j) - a_y(i)) + (a_x(i) - b_x(j)) * (a_x(i)
                            - b_x(j)),
                        Relation::Below => over(a_y(i) - b_y(j)) + (a_x(i) - b_x(j)) * (a_x(i)
                            - b_x(j)),
                    }
                }
        }),
{
    let p = checked.elements@[a].symbol.posed(spots[a].orientation).pins@;
    let q = checked.elements@[b].symbol.posed(spots[b].orientation).pins@;
    let (sa, sb) = (anchor_side(spec.relation), facing_side(spec.relation));
    let i = outermost_um_is_extreme(p, sa, p.len() as int);
    let j = outermost_um_is_extreme(q, sb, q.len() as int);
    let (x, y) = (p[i], q[j]);
    assert(square(0) == 0);
}

proof fn outermost_um_is_extreme(pins: Seq<Pin>, side: Side, n: int) -> (i: int)
    requires
        1 <= n <= pins.len(),
    ensures
        0 <= i < n,
        outermost_um(pins, side, n) == pin_um(pins[i]),
        forall|k: int|
            0 <= k < n ==> !key_less(
                side_key(side, pin_um(#[trigger] pins[k])),
                side_key(side, pin_um(pins[i])),
            ),
    decreases n,
{
    if n > 1 {
        let i = outermost_um_is_extreme(pins, side, n - 1);
        if key_less(
            side_key(side, pin_um(pins[n - 1])),
            side_key(side, outermost_um(pins, side, n - 1)),
        ) {
            n - 1
        } else {
            i
        }
    } else {
        0
    }
}

proof fn symbol_pins_listed(symbol: Symbol, spot: Spot, n: int, p: (int, int))
    requires
        0 <= n <= symbol.posed(spot.orientation).pins@.len(),
    ensures
        symbol_pins(symbol, spot, n).contains(p) <==> exists|k: int|
            0 <= k < n && pin_at(
                spot.origin,
                #[trigger] symbol.posed(spot.orientation).pins@[k],
            ) == p,
    decreases n,
{
    if n > 0 {
        symbol_pins_listed(symbol, spot, n - 1, p);
        let rest = symbol_pins(symbol, spot, n - 1);
        let all = symbol_pins(symbol, spot, n);
        let last = pin_at(spot.origin, symbol.posed(spot.orientation).pins@[n - 1]);
        assert(all[rest.len() as int] == last);
        if rest.contains(p) {
            let k = choose|k: int| 0 <= k < rest.len() && rest[k] == p;
            assert(all[k] == p);
        }
        if all.contains(p) {
            let k = choose|k: int| 0 <= k < all.len() && all[k] == p;
            if k < rest.len() {
                assert(rest[k] == p);
            }
        }
    }
}

/// Pin `k` of element `i` is drawn at the point.
pub open spec fn pin_drawn_at(
    spots: Seq<Spot>,
    checked: &CheckedNetlist,
    i: int,
    k: int,
    p: (int, int),
) -> bool {
    let pins = checked.elements@[i].symbol.posed(spots[i].orientation).pins@;
    0 <= k < pins.len() && p == (
        spots[i].origin.x * 1270 + pins[k].x,
        spots[i].origin.y * 1270 - pins[k].y,
    )
}

proof fn all_pins_listed(spots: Seq<Spot>, checked: &CheckedNetlist, n: int, p: (int, int))
    ensures
        all_pins(spots, checked, n).contains(p) <==> exists|i: int, k: int|
            0 <= i < n && #[trigger] pin_drawn_at(spots, checked, i, k, p),
    decreases n,
{
    if n > 0 {
        all_pins_listed(spots, checked, n - 1, p);
        let i = n - 1;
        let symbol = checked.elements@[i].symbol;
        let pins = symbol.posed(spots[i].orientation).pins@;
        symbol_pins_listed(symbol, spots[i], pins.len() as int, p);
        let (a, b) = (
            all_pins(spots, checked, n - 1),
            symbol_pins(symbol, spots[i], pins.len() as int),
        );
        if a.contains(p) {
            let k = choose|k: int| 0 <= k < a.len() && a[k] == p;
            assert((a + b)[k] == p);
        }
        if b.contains(p) {
            let m = choose|k: int| 0 <= k < b.len() && b[k] == p;
            assert((a + b)[a.len() + m] == p);
            let k = choose|k: int|
                0 <= k < pins.len() && pin_at(spots[i].origin, #[trigger] pins[k]) == p;
            assert(pin_drawn_at(spots, checked, i, k, p));
        }
        if (a + b).contains(p) {
            let k = choose|k: int| 0 <= k < (a + b).len() && (a + b)[k] == p;
            if k < a.len() {
                assert(a[k] == p);
            } else {
                assert(b[k - a.len()] == p);
            }
        }
        assert forall|k: int| #[trigger] pin_drawn_at(spots, checked, i, k, p) implies b.contains(
            p,
        ) by {
            assert(pin_at(spots[i].origin, pins[k]) == p);
        }
    }
}

/// The frame is the least box around all pins of the layout.
proof fn frame_is_tight(spots: Seq<Spot>, checked: &CheckedNetlist, p: (int, int))
    requires
        exists|i: int, k: int|
            0 <= i < checked.elements@.len() && #[trigger] pin_drawn_at(spots, checked, i, k, p),
    ensures
        frame(spots, checked).holds(p),
        exists|i: int, k: int, q: (int, int)|
            0 <= i < checked.elements@.len() && #[trigger] pin_drawn_at(spots, checked, i, k, q)
                && q.1 == frame(spots, checked).min_y,
        exists|i: int, k: int, q: (int, int)|
            0 <= i < checked.elements@.len() && #[trigger] pin_drawn_at(spots, checked, i, k, q)
                && q.1 == frame(spots, checked).max_y,
        exists|i: int, k: int, q: (int, int)|
            0 <= i < checked.elements@.len() && #[trigger] pin_drawn_at(spots, checked, i, k, q)
                && q.0 == frame(spots, checked).min_x,
        exists|i: int, k: int, q: (int, int)|
            0 <= i < checked.elements@.len() && #[trigger] pin_drawn_at(spots, checked, i, k, q)
                && q.0 == frame(spots, checked).max_x,
{
    let n = checked.elements@.len() as int;
    let pins = all_pins(spots, checked, n);
    all_pins_listed(spots, checked, n, p);
    let m = choose|m: int| 0 <= m < pins.len() && pins[m] == p;
    crate::wires::boxes_are_tight(pins, pins.len() as int);
    let q = pins_box(pins);
    assert(q.holds(pins[m]));
    let a = choose|k: int| 0 <= k < pins.len() && (#[trigger] pins[k]).0 == q.min_x;
    let b = choose|k: int| 0 <= k < pins.len() && (#[trigger] pins[k]).0 == q.max_x;
    let c = choose|k: int| 0 <= k < pins.len() && (#[trigger] pins[k]).1 == q.min_y;
    let d = choose|k: int| 0 <= k < pins.len() && (#[trigger] pins[k]).1 == q.max_y;
    all_pins_listed(spots, checked, n, pins[a]);
    all_pins_listed(spots, checked, n, pins[b]);
    all_pins_listed(spots, checked, n, pins[c]);
    all_pins_listed(spots, checked, n, pins[d]);
    assert(pins.contains(pins[a]) && pins.contains(pins[b]) && pins.contains(pins[c])
        && pins.contains(pins[d]));
}

proof fn terminal_is_drawn(
    spots: Seq<Spot>,
    checked: &CheckedNetlist,
    i: int,
    t: int,
    p: (int, int),
)
    requires
        0 <= i < checked.elements@.len(),
        terminal_at(spots[i], checked, i, t) == Some(p),
    ensures
        exists|j: int, k: int|
            0 <= j < checked.elements@.len() && #[trigger] pin_drawn_at(spots, checked, j, k, p),
{
    let e = checked.elements@[i];
    let o = spots[i].orientation;
    crate::symbol::pin_from_is_first(e.symbol.posed(o).pins@, e.pin_mapping@[t]@, 0);
    let k = e.pin_of(o, t)->0;
    assert(pin_drawn_at(spots, checked, i, k, p));
}

/// Supplies belong to the top and node `0` to the bottom. A pin on a net that a
/// supply is named after costs nothing exactly if no pin of the layout is above
/// it, and one on node `0` exactly if none is below it. Pins on other nets are
/// free. Sheet Y grows down.
pub proof fn rails_are_free_at_their_edges(
    spots: Seq<Spot>,
    checked: &CheckedNetlist,
    i: int,
    t: int,
    p: (int, int),
)
    requires
        0 <= i < checked.elements@.len(),
        terminal_at(spots[i], checked, i, t) == Some(p),
    ensures
        ({
            let net = checked.elements@[i].nodes@[t] as int;
            let named = exists|s: int|
                0 <= s < checked.elements@.len() && ((#[trigger] checked.elements@[s]).role matches
                    ElementRole::Power(rail) && rail@ == checked.nets@[net]@);
            let cost = rail_excess(spots, checked, frame(spots, checked), i, t);
            let topmost = forall|j: int, k: int, q: (int, int)|
                0 <= j < checked.elements@.len() && #[trigger] pin_drawn_at(spots, checked, j, k, q)
                    ==> q.1 >= p.1;
            let bottommost = forall|j: int, k: int, q: (int, int)|
                0 <= j < checked.elements@.len() && #[trigger] pin_drawn_at(spots, checked, j, k, q)
                    ==> q.1 <= p.1;
            &&& cost >= 0
            &&& named ==> (cost == 0 <==> topmost)
            &&& !named && checked.nets@[net]@ == "0"@ ==> (cost == 0 <==> bottommost)
            &&& !named && checked.nets@[net]@ != "0"@ ==> cost == 0
        }),
{
    let net = checked.elements@[i].nodes@[t] as int;
    let f = frame(spots, checked);
    terminal_is_drawn(spots, checked, i, t, p);
    frame_is_tight(spots, checked, p);
    assert forall|j: int, k: int, q: (int, int)|
        0 <= j < checked.elements@.len() && #[trigger] pin_drawn_at(
            spots,
            checked,
            j,
            k,
            q,
        ) implies f.holds(q) by {
        frame_is_tight(spots, checked, q);
    }
    vanishing_square(hinge(p.1 - f.min_y));
    vanishing_square(hinge(f.max_y - p.1));
    if is_rail_name(checked, net) {
        let s = choose|s: int|
            0 <= s < checked.elements@.len() && #[trigger] names_rail(checked, s, net);
        let e = checked.elements@[s];
    }
    assert forall|s: int|
        0 <= s < checked.elements@.len() && ((#[trigger] checked.elements@[s]).role matches
            ElementRole::Power(rail) && rail@ == checked.nets@[net]@) implies is_rail_name(
        checked,
        net,
    ) by {
        assert(names_rail(checked, s, net));
    }
}

proof fn vanishing_square(x: int)
    ensures
        square(x) >= 0,
        square(x) == 0 <==> x == 0,
{
    assert(x * x >= 0) by (nonlinear_arith);
    if x != 0 {
        assert(x * x > 0) by (nonlinear_arith)
            requires
                x != 0,
        ;
    }
}

/// Subcircuits read from left to right. A pin on the first port of a
/// subcircuit costs nothing exactly if no pin of the layout is left of it, one
/// on the last port exactly if none is right of it, and pins on other nets are
/// free. A subcircuit with one port has no direction.
pub proof fn ports_are_free_at_their_edges(
    spots: Seq<Spot>,
    checked: &CheckedNetlist,
    i: int,
    t: int,
    p: (int, int),
)
    requires
        0 <= i < checked.elements@.len(),
        terminal_at(spots[i], checked, i, t) == Some(p),
    ensures
        ({
            let net = checked.elements@[i].nodes@[t] as int;
            let first = exists|s: int|
                0 <= s < checked.subckts@.len() && (#[trigger] checked.subckts@[s]).ports@.len()
                    >= 2 && checked.subckts@[s].ports@[0] == net;
            let last = exists|s: int|
                0 <= s < checked.subckts@.len() && (#[trigger] checked.subckts@[s]).ports@.len()
                    >= 2 && checked.subckts@[s].ports@.last() == net;
            let cost = port_excess(spots, checked, frame(spots, checked), i, t);
            let leftmost = forall|j: int, k: int, q: (int, int)|
                0 <= j < checked.elements@.len() && #[trigger] pin_drawn_at(spots, checked, j, k, q)
                    ==> q.0 >= p.0;
            let rightmost = forall|j: int, k: int, q: (int, int)|
                0 <= j < checked.elements@.len() && #[trigger] pin_drawn_at(spots, checked, j, k, q)
                    ==> q.0 <= p.0;
            &&& cost >= 0
            &&& cost == 0 <==> (first ==> leftmost) && (last ==> rightmost)
        }),
{
    let net = checked.elements@[i].nodes@[t] as int;
    let f = frame(spots, checked);
    terminal_is_drawn(spots, checked, i, t, p);
    frame_is_tight(spots, checked, p);
    assert forall|j: int, k: int, q: (int, int)|
        0 <= j < checked.elements@.len() && #[trigger] pin_drawn_at(
            spots,
            checked,
            j,
            k,
            q,
        ) implies f.holds(q) by {
        frame_is_tight(spots, checked, q);
    }
    vanishing_square(hinge(p.0 - f.min_x));
    vanishing_square(hinge(f.max_x - p.0));
    if is_entry(checked, net) {
        let s = choose|s: int|
            0 <= s < checked.subckts@.len() && #[trigger] enters_at(checked, s, net);
        let e = checked.subckts@[s];
    }
    if is_exit(checked, net) {
        let s = choose|s: int|
            0 <= s < checked.subckts@.len() && #[trigger] leaves_at(checked, s, net);
        let e = checked.subckts@[s];
    }
    assert forall|s: int|
        0 <= s < checked.subckts@.len() && (#[trigger] checked.subckts@[s]).ports@.len() >= 2
            && checked.subckts@[s].ports@[0] == net implies is_entry(checked, net) by {
        assert(enters_at(checked, s, net));
    }
    assert forall|s: int|
        0 <= s < checked.subckts@.len() && (#[trigger] checked.subckts@[s]).ports@.len() >= 2
            && checked.subckts@[s].ports@.last() == net implies is_exit(checked, net) by {
        assert(leaves_at(checked, s, net));
    }
}

/// A terminal on a declared rail pays the square of its distance from the
/// frame's upper edge, one on net `0` of that from its lower edge. The first
/// port of a subcircuit pays for the distance from the left edge and the last
/// for that from the right one.
pub proof fn edges_cost_the_square_of_the_distance(
    spots: Seq<Spot>,
    checked: &CheckedNetlist,
    edge: Bounds,
    i: int,
    t: int,
    s: int,
)
    requires
        terminal_at(spots[i], checked, i, t) is Some,
        ({
            let p = terminal_at(spots[i], checked, i, t)->0;
            edge.min_x <= p.0 <= edge.max_x && edge.min_y <= p.1 <= edge.max_y
        }),
    ensures
        ({
            let p = terminal_at(spots[i], checked, i, t)->0;
            let net = checked.elements@[i].nodes@[t] as int;
            let (up, down) = (p.1 - edge.min_y, edge.max_y - p.1);
            let (left, right) = (p.0 - edge.min_x, edge.max_x - p.0);
            let supply = 0 <= s < checked.elements@.len() && (
            checked.elements@[s].role matches ElementRole::Power(rail) && rail@
                == checked.nets@[net]@);
            let ports = checked.subckts@[s].ports@;
            let inner = 0 <= s < checked.subckts@.len() && ports.len() >= 2;
            &&& supply ==> rail_excess(spots, checked, edge, i, t) == up * up
            &&& !is_rail_name(checked, net) && checked.nets@[net]@ == "0"@ ==> rail_excess(
                spots,
                checked,
                edge,
                i,
                t,
            ) == down * down
            &&& inner && ports[0] == net && !is_exit(checked, net) ==> port_excess(
                spots,
                checked,
                edge,
                i,
                t,
            ) == left * left
            &&& inner && ports.last() == net && !is_entry(checked, net) ==> port_excess(
                spots,
                checked,
                edge,
                i,
                t,
            ) == right * right
        }),
{
    let net = checked.elements@[i].nodes@[t] as int;
    if 0 <= s < checked.elements@.len() && names_rail(checked, s, net) {
        assert(is_rail_name(checked, net));
    }
    if 0 <= s < checked.subckts@.len() {
        if enters_at(checked, s, net) {
            assert(is_entry(checked, net));
        }
        if leaves_at(checked, s, net) {
            assert(is_exit(checked, net));
        }
    }
}

} // verus!
