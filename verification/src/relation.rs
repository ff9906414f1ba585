//! Placing one element beside another: the pins that face each other end up
//! one cell apart and in line.

use vstd::prelude::*;

#[allow(unused_imports)]
use crate::extent::round_div;
use crate::netlist::Relation;
use crate::pins::round_quotient;
#[allow(unused_imports)]
use crate::pins::rounding_is_nearest;
use crate::placement::{GridPoint, GRID_STEP};
use crate::rail_stub::CELL_W;
#[allow(unused_imports)]
use crate::symbol::{in_reach, Pin};
use crate::symbol::{Orientation, Symbol};

verus! {

/// Height of the cell that every element takes up at least, in grid steps.
pub const CELL_H: i32 = 6;

/// No pin is farther from its origin than this many grid steps.
pub const PIN_STEPS: i32 = 800;

/// A side of a symbol.
#[derive(Debug, Clone, Copy, PartialEq, Eq, Structural)]
pub enum Side {
    Left,
    Right,
    Top,
    Bottom,
}

/// The sheet offset of a pin in grid steps, to the nearest step.
pub open spec fn pin_steps(pin: Pin) -> (int, int) {
    (round_div(pin.x as int, GRID_STEP as int), round_div(-pin.y, GRID_STEP as int))
}

/// What the pin on a side is least in: how far it lies from that side, then
/// its place along the side. Sheet Y grows down.
pub open spec fn side_key(side: Side, p: (int, int)) -> (int, int) {
    match side {
        Side::Left => (p.0, p.1),
        Side::Right => (-p.0, p.1),
        Side::Top => (p.1, p.0),
        Side::Bottom => (-p.1, p.0),
    }
}

/// The order of pins by two keys.
pub open spec fn key_less(a: (int, int), b: (int, int)) -> bool {
    a.0 < b.0 || (a.0 == b.0 && a.1 < b.1)
}

/// The offset of the outermost of the first `n` pins on a side.
pub open spec fn outermost(pins: Seq<Pin>, side: Side, n: int) -> (int, int)
    decreases n,
{
    if n <= 1 {
        pin_steps(pins[0])
    } else {
        let best = outermost(pins, side, n - 1);
        let p = pin_steps(pins[n - 1]);
        if key_less(side_key(side, p), side_key(side, best)) {
            p
        } else {
            best
        }
    }
}

/// The offset of the pin that a posed symbol has outermost on a side.
pub open spec fn edge_pin(symbol: Symbol, o: Orientation, side: Side) -> (int, int) {
    let pins = symbol.posed(o).pins@;
    outermost(pins, side, pins.len() as int)
}

/// The outermost pin is a pin, and none lies farther out.
pub proof fn outermost_is_extreme(pins: Seq<Pin>, side: Side, n: int)
    requires
        1 <= n <= pins.len(),
    ensures
        exists|k: int| 0 <= k < n && #[trigger] pin_steps(pins[k]) == outermost(pins, side, n),
        forall|k: int|
            0 <= k < n ==> !key_less(
                side_key(side, #[trigger] pin_steps(pins[k])),
                side_key(side, outermost(pins, side, n)),
            ),
    decreases n,
{
    if n > 1 {
        outermost_is_extreme(pins, side, n - 1);
        let k = choose|k: int|
            0 <= k < n - 1 && #[trigger] pin_steps(pins[k]) == outermost(pins, side, n - 1);
        if outermost(pins, side, n) == outermost(pins, side, n - 1) {
            assert(pin_steps(pins[k]) == outermost(pins, side, n));
        } else {
            assert(pin_steps(pins[n - 1]) == outermost(pins, side, n));
        }
    } else {
        assert(pin_steps(pins[0]) == outermost(pins, side, n));
    }
}

/// The pins of a posed symbol lie within [`PIN_STEPS`] of its origin.
pub proof fn edge_pin_in_reach(symbol: Symbol, o: Orientation, side: Side)
    requires
        symbol.wf(),
        symbol.posed(o).pins@.len() > 0,
    ensures
        -PIN_STEPS <= edge_pin(symbol, o, side).0 <= PIN_STEPS,
        -PIN_STEPS <= edge_pin(symbol, o, side).1 <= PIN_STEPS,
{
    let pins = symbol.posed(o).pins@;
    outermost_is_extreme(pins, side, pins.len() as int);
    let k = choose|k: int| 0 <= k < pins.len() && #[trigger] pin_steps(pins[k]) == edge_pin(
        symbol,
        o,
        side,
    );
    crate::symbol::orientation_index_inverse();
    assert(0 <= crate::symbol::orientation_index(o) < 8);
    assert(symbol.poses@[crate::symbol::orientation_index(o)].wf());
    assert(in_reach(pins[k].x as int));
    rounding_is_nearest(pins[k].x as int, 1270);
    rounding_is_nearest(-pins[k].y, 1270);
}

/// The offset of the pin that a posed symbol has outermost on a side, in grid
/// steps.
pub fn pick(symbol: &Symbol, o: Orientation, side: Side) -> (r: (i32, i32))
    requires
        symbol.wf(),
        symbol.posed(o).pins@.len() > 0,
    ensures
        (r.0 as int, r.1 as int) == edge_pin(*symbol, o, side),
        -PIN_STEPS <= r.0 <= PIN_STEPS,
        -PIN_STEPS <= r.1 <= PIN_STEPS,
{
    let pose = symbol.pose(o);
    let mut best: (i32, i32) = steps_of(&pose.pins[0]);
    let mut k: usize = 1;
    while k < pose.pins.len()
        invariant
            1 <= k <= pose.pins@.len(),
            pose.wf(),
            (best.0 as int, best.1 as int) == outermost(pose.pins@, side, k as int),
            -PIN_STEPS <= best.0 <= PIN_STEPS,
            -PIN_STEPS <= best.1 <= PIN_STEPS,
        decreases pose.pins@.len() - k,
    {
        assert(in_reach(pose.pins@[k as int].x as int));
        let p: (i32, i32) = steps_of(&pose.pins[k]);
        let (pa, pb): (i32, i32) = key_of(side, p);
        let (ba, bb): (i32, i32) = key_of(side, best);
        if pa < ba || (pa == ba && pb < bb) {
            best = p;
        }
        k = k + 1;
    }
    best
}

fn key_of(side: Side, p: (i32, i32)) -> (r: (i32, i32))
    requires
        -PIN_STEPS <= p.0 <= PIN_STEPS,
        -PIN_STEPS <= p.1 <= PIN_STEPS,
    ensures
        (r.0 as int, r.1 as int) == side_key(side, (p.0 as int, p.1 as int)),
{
    match side {
        Side::Left => (p.0, p.1),
        Side::Right => (-p.0, p.1),
        Side::Top => (p.1, p.0),
        Side::Bottom => (-p.1, p.0),
    }
}

fn steps_of(pin: &Pin) -> (r: (i32, i32))
    requires
        in_reach(pin.x as int),
        in_reach(pin.y as int),
    ensures
        (r.0 as int, r.1 as int) == pin_steps(*pin),
        -PIN_STEPS <= r.0 <= PIN_STEPS,
        -PIN_STEPS <= r.1 <= PIN_STEPS,
{
    proof {
        rounding_is_nearest(pin.x as int, 1270);
        rounding_is_nearest(-pin.y, 1270);
    }
    let x: i64 = round_quotient(pin.x as i64, GRID_STEP);
    let y: i64 = round_quotient(-(pin.y as i64), GRID_STEP);
    (x as i32, y as i32)
}

/// The side on which the anchor faces the element.
pub open spec fn anchor_side(relation: Relation) -> Side {
    match relation {
        Relation::RightOf => Side::Right,
        Relation::LeftOf => Side::Left,
        Relation::Above => Side::Top,
        Relation::Below => Side::Bottom,
    }
}

/// The side on which the element faces the anchor.
pub open spec fn facing_side(relation: Relation) -> Side {
    match relation {
        Relation::RightOf => Side::Left,
        Relation::LeftOf => Side::Right,
        Relation::Above => Side::Bottom,
        Relation::Below => Side::Top,
    }
}

/// The steps from the anchor's pin to the element's pin.
pub open spec fn relation_gap(relation: Relation) -> (int, int) {
    match relation {
        Relation::RightOf => (CELL_W as int, 0),
        Relation::LeftOf => (-CELL_W, 0),
        Relation::Above => (0, -CELL_H),
        Relation::Below => (0, CELL_H as int),
    }
}

/// The origin that brings the element's facing pin one cell away from the
/// anchor's, in line with it.
pub open spec fn related_origin(
    relation: Relation,
    a_origin: GridPoint,
    a_orient: Orientation,
    a_symbol: Symbol,
    b_orient: Orientation,
    b_symbol: Symbol,
) -> (int, int) {
    let a = edge_pin(a_symbol, a_orient, anchor_side(relation));
    let b = edge_pin(b_symbol, b_orient, facing_side(relation));
    let gap = relation_gap(relation);
    (a_origin.x + a.0 + gap.0 - b.0, a_origin.y + a.1 + gap.1 - b.1)
}

/// Solves for the origin of an element that is placed beside an anchor.
pub fn solve_place(
    relation: Relation,
    a_origin: GridPoint,
    a_orient: Orientation,
    a_symbol: &Symbol,
    b_orient: Orientation,
    b_symbol: &Symbol,
) -> (r: GridPoint)
    requires
        a_symbol.wf(),
        b_symbol.wf(),
        a_symbol.posed(a_orient).pins@.len() > 0,
        b_symbol.posed(b_orient).pins@.len() > 0,
        a_origin.within(i32::MAX - 2000),
    ensures
        (r.x as int, r.y as int) == related_origin(
            relation,
            a_origin,
            a_orient,
            *a_symbol,
            b_orient,
            *b_symbol,
        ),
        a_origin.x - 2000 <= r.x <= a_origin.x + 2000,
        a_origin.y - 2000 <= r.y <= a_origin.y + 2000,
{
    let (a_side, b_side) = match relation {
        Relation::RightOf => (Side::Right, Side::Left),
        Relation::LeftOf => (Side::Left, Side::Right),
        Relation::Above => (Side::Top, Side::Bottom),
        Relation::Below => (Side::Bottom, Side::Top),
    };
    let (ax, ay): (i32, i32) = pick(a_symbol, a_orient, a_side);
    let (bx, by): (i32, i32) = pick(b_symbol, b_orient, b_side);
    let (gx, gy): (i32, i32) = match relation {
        Relation::RightOf => (CELL_W, 0),
        Relation::LeftOf => (-CELL_W, 0),
        Relation::Above => (0, -CELL_H),
        Relation::Below => (0, CELL_H),
    };
    GridPoint::new(a_origin.x + (ax + gx - bx), a_origin.y + (ay + gy - by))
}

/// Placing beside an anchor turns round: seen from the placed element, the
/// anchor is where the opposite relation would put it.
pub proof fn relations_turn_round(
    relation: Relation,
    opposite: Relation,
    a_origin: GridPoint,
    a_orient: Orientation,
    a_symbol: Symbol,
    b_origin: GridPoint,
    b_orient: Orientation,
    b_symbol: Symbol,
)
    requires
        anchor_side(relation) == facing_side(opposite),
        facing_side(relation) == anchor_side(opposite),
        (b_origin.x as int, b_origin.y as int) == related_origin(
            relation,
            a_origin,
            a_orient,
            a_symbol,
            b_orient,
            b_symbol,
        ),
    ensures
        related_origin(opposite, b_origin, b_orient, b_symbol, a_orient, a_symbol) == (
            a_origin.x as int,
            a_origin.y as int,
        ),
{
}

/// The pins of a placed element stand clear of those of its anchor. Right of
/// the anchor, every pin of the element is at least six steps right of every
/// pin of the anchor, and the two that face each other are exactly six steps
/// apart on one row; they are the topmost of the outermost pins. To the left,
/// above and below it is the same, with the leftmost of the outermost pins for
/// the last two. Sheet Y grows down and symbol Y grows up.
pub proof fn placed_pins_clear_the_anchor(
    relation: Relation,
    a_origin: GridPoint,
    a_orient: Orientation,
    a_symbol: Symbol,
    b_origin: GridPoint,
    b_orient: Orientation,
    b_symbol: Symbol,
)
    requires
        a_symbol.posed(a_orient).pins@.len() > 0,
        b_symbol.posed(b_orient).pins@.len() > 0,
        (b_origin.x as int, b_origin.y as int) == related_origin(
            relation,
            a_origin,
            a_orient,
            a_symbol,
            b_orient,
            b_symbol,
        ),
    ensures
        ({
            let p = a_symbol.posed(a_orient).pins@;
            let q = b_symbol.posed(b_orient).pins@;
            let a_x = |i: int| a_origin.x + round_div(p[i].x as int, 1270);
            let a_y = |i: int| a_origin.y + round_div(-p[i].y, 1270);
            let b_x = |j: int| b_origin.x + round_div(q[j].x as int, 1270);
            let b_y = |j: int| b_origin.y + round_div(-q[j].y, 1270);
            &&& forall|i: int, j: int|
                #![trigger p[i], q[j]]
                0 <= i < p.len() && 0 <= j < q.len() ==> match relation {
                    Relation::RightOf => b_x(j) >= a_x(i) + 6,
                    Relation::LeftOf => b_x(j) <= a_x(i) - 6,
                    Relation::Above => b_y(j) <= a_y(i) - 6,
                    Relation::Below => b_y(j) >= a_y(i) + 6,
                }
            &&& exists|i: int, j: int|
                #![trigger p[i], q[j]]
                {
                    &&& 0 <= i < p.len()
                    &&& 0 <= j < q.len()
                    &&& match relation {
                        Relation::RightOf => b_x(j) == a_x(i) + 6 && b_y(j) == a_y(i),
                        Relation::LeftOf => b_x(j) == a_x(i) - 6 && b_y(j) == a_y(i),
                        Relation::Above => b_y(j) == a_y(i) - 6 && b_x(j) == a_x(i),
                        Relation::Below => b_y(j) == a_y(i) + 6 && b_x(j) == a_x(i),
                    }
                    &&& forall|k: int|
                        #![trigger p[k]]
                        0 <= k < p.len() ==> match relation {
                            Relation::RightOf | Relation::LeftOf => a_x(k) == a_x(i) ==> a_y(k)
                                >= a_y(i),
                            Relation::Above | Relation::Below => a_y(k) == a_y(i) ==> a_x(k) >= a_x(i),
                        }
                    &&& forall|k: int|
                        #![trigger q[k]]
                        0 <= k < q.len() ==> match relation {
                            Relation::RightOf | Relation::LeftOf => b_x(k) == b_x(j) ==> b_y(k)
                                >= b_y(j),
                            Relation::Above | Relation::Below => b_y(k) == b_y(j) ==> b_x(k) >= b_x(j),
                        }
                }
        }),
{
    let p = a_symbol.posed(a_orient).pins@;
    let q = b_symbol.posed(b_orient).pins@;
    outermost_is_extreme(p, anchor_side(relation), p.len() as int);
    outermost_is_extreme(q, facing_side(relation), q.len() as int);
    let (sa, sb) = (anchor_side(relation), facing_side(relation));
    let i = choose|i: int|
        0 <= i < p.len() && #[trigger] pin_steps(p[i]) == outermost(p, sa, p.len() as int);
    let j = choose|j: int|
        0 <= j < q.len() && #[trigger] pin_steps(q[j]) == outermost(q, sb, q.len() as int);
    assert forall|k: int| 0 <= k < p.len() implies !key_less(
        side_key(sa, pin_steps(#[trigger] p[k])),
        side_key(sa, pin_steps(p[i])),
    ) by {
        assert(pin_steps(p[k]) == pin_steps(p[k]));
    }
    assert forall|k: int| 0 <= k < q.len() implies !key_less(
        side_key(sb, pin_steps(#[trigger] q[k])),
        side_key(sb, pin_steps(q[j])),
    ) by {
        assert(pin_steps(q[k]) == pin_steps(q[k]));
    }
    let (x, y) = (p[i], q[j]);
}

} // verus!
