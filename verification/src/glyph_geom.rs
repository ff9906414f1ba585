//! The room that power glyphs take up beside rail pins.
//!
//! A pin on a rail net carries a power glyph, and the glyph carries the net's
//! name. Both lie outward of the pin, and the placer reserves that room.

use vstd::prelude::*;

use crate::net_class::{NetClass, VertPref};
#[allow(unused_imports)]
use crate::netlist::nets_in_range;
use crate::netlist::ResolvedElement;
use crate::symbol::Orientation;
#[allow(unused_imports)]
use crate::symbol::{in_reach, orientation_index, orientation_index_inverse, Pin};

verus! {

/// How far a glyph body reaches from its anchor: two grid steps.
pub const GLYPH_BODY_REACH: i64 = 2540;

/// How far out the glyph's net name sits: one step beyond the body.
pub const GLYPH_TEXT_OFFSET: i64 = 3810;

/// Steps by which a glyph on a hierarchical-sheet pin is pushed away from the
/// sheet.
pub const SHEET_EDGE_GLYPH_OFFSET_CELLS: i64 = 2;

/// No glyph reaches farther from the element's origin than this.
pub const GLYPH_LIMIT: i64 = 1_003_810;

/// The direction in which a rail glyph extends from its pin.
#[derive(Debug, Clone, Copy, PartialEq, Eq, Structural)]
pub enum GlyphAxis {
    Up,
    Down,
}

/// The direction of a rail glyph: down for a negative rail whatever its
/// class, up for power, down for the rest.
pub open spec fn axis_of(class: NetClass, negative_rail: bool) -> GlyphAxis {
    if !negative_rail && class == NetClass::Power {
        GlyphAxis::Up
    } else {
        GlyphAxis::Down
    }
}

/// The direction of a rail glyph.
#[must_use]
pub fn canonical_axis(class: NetClass, negative_rail: bool) -> (r: GlyphAxis)
    ensures
        r == axis_of(class, negative_rail),
{
    if negative_rail {
        return GlyphAxis::Down;
    }
    match class {
        NetClass::Power => GlyphAxis::Up,
        _ => GlyphAxis::Down,
    }
}

/// The unit step, in sheet coordinates, in which a pin of the given angle
/// points. There is none for an angle that is not a multiple of 90 degrees.
pub open spec fn outward(angle: int) -> Option<(int, int)> {
    if angle % 360 == 270 {
        Some((0, -1))
    } else if angle % 360 == 90 {
        Some((0, 1))
    } else if angle % 360 == 180 {
        Some((-1, 0))
    } else if angle % 360 == 0 {
        Some((1, 0))
    } else {
        None
    }
}

/// The far tip of the glyph at a pin, as a sheet offset from the element's
/// origin.
pub open spec fn glyph_tip(pin: Pin) -> Option<(int, int)> {
    match outward(pin.angle as int) {
        Some(u) => Some((pin.x + u.0 * GLYPH_TEXT_OFFSET, -pin.y + u.1 * GLYPH_TEXT_OFFSET)),
        None => None,
    }
}

/// The glyph tip at terminal `t`, when its net is a rail and its pin is drawn.
pub open spec fn terminal_glyph(
    e: ResolvedElement,
    o: Orientation,
    prefs: Seq<Option<VertPref>>,
    t: int,
) -> Option<(int, int)> {
    if prefs[e.nodes@[t] as int] is None {
        None
    } else {
        match e.pin_of(o, t) {
            Some(k) => glyph_tip(e.symbol.posed(o).pins@[k]),
            None => None,
        }
    }
}

/// The glyph tips of the first `n` terminals, in terminal order. A supply
/// element has none: its own body is drawn as a glyph.
pub open spec fn glyph_points(
    e: ResolvedElement,
    o: Orientation,
    prefs: Seq<Option<VertPref>>,
    n: int,
) -> Seq<(int, int)>
    decreases n,
{
    if n <= 0 || e.role.is_power() {
        seq![]
    } else {
        let rest = glyph_points(e, o, prefs, n - 1);
        match terminal_glyph(e, o, prefs, n - 1) {
            Some(p) => rest.push(p),
            None => rest,
        }
    }
}

/// No glyph tip lies farther out than [`GLYPH_LIMIT`].
pub proof fn glyph_points_in_reach(
    e: ResolvedElement,
    o: Orientation,
    prefs: Seq<Option<VertPref>>,
    n: int,
)
    requires
        e.symbol.wf(),
        n <= e.nodes@.len(),
    ensures
        forall|k: int|
            0 <= k < glyph_points(e, o, prefs, n).len() ==> {
                let p = #[trigger] glyph_points(e, o, prefs, n)[k];
                -GLYPH_LIMIT <= p.0 <= GLYPH_LIMIT && -GLYPH_LIMIT <= p.1 <= GLYPH_LIMIT
            },
    decreases n,
{
    if n > 0 && !e.role.is_power() {
        glyph_points_in_reach(e, o, prefs, n - 1);
        orientation_index_inverse();
        assert(0 <= orientation_index(o) < 8);
        assert(e.symbol.poses@[orientation_index(o)].wf());
        match e.pin_of(o, n - 1) {
            Some(k) => {
                let pins = e.symbol.posed(o).pins@;
                crate::symbol::pin_from_is_first(pins, e.pin_mapping@[n - 1]@, 0);
                assert(in_reach(pins[k].x as int));
            },
            None => {},
        }
        let rest = glyph_points(e, o, prefs, n - 1);
        let all = glyph_points(e, o, prefs, n);
        assert forall|k: int| 0 <= k < all.len() implies {
            let p = #[trigger] all[k];
            -GLYPH_LIMIT <= p.0 <= GLYPH_LIMIT && -GLYPH_LIMIT <= p.1 <= GLYPH_LIMIT
        } by {
            if k < rest.len() {
                assert(all[k] == rest[k]);
            }
        }
    }
}

/// The far tip of every power glyph that the element's rail pins carry, as
/// sheet offsets from its origin, in terminal order.
#[must_use]
pub fn glyph_reach(e: &ResolvedElement, o: Orientation, prefs: &Vec<Option<VertPref>>) -> (r: Vec<
    (i64, i64),
>)
    requires
        e.symbol.wf(),
        nets_in_range(e.nodes@, prefs@.len()),
    ensures
        r@.len() == glyph_points(*e, o, prefs@, e.nodes@.len() as int).len(),
        forall|k: int|
            0 <= k < r@.len() ==> ((#[trigger] r@[k]).0 as int, r@[k].1 as int) == glyph_points(
                *e,
                o,
                prefs@,
                e.nodes@.len() as int,
            )[k],
{
    let mut out: Vec<(i64, i64)> = Vec::new();
    if e.role.power() {
        return out;
    }
    let mut t: usize = 0;
    while t < e.nodes.len()
        invariant
            t <= e.nodes@.len(),
            e.symbol.wf(),
            !e.role.is_power(),
            nets_in_range(e.nodes@, prefs@.len()),
            out@.len() == glyph_points(*e, o, prefs@, t as int).len(),
            forall|k: int|
                0 <= k < out@.len() ==> ((#[trigger] out@[k]).0 as int, out@[k].1 as int)
                    == glyph_points(*e, o, prefs@, t as int)[k],
        decreases e.nodes@.len() - t,
    {
        let net: usize = e.nodes[t];
        if prefs[net].is_some() {
            match e.terminal_pin(o, t) {
                Some(k) => {
                    let pose = e.symbol.pose(o);
                    assert(in_reach(pose.pins@[k as int].x as int));
                    let p = &pose.pins[k];
                    let (x, y) = (p.x as i64, -(p.y as i64));
                    let a: u16 = p.angle % 360;
                    if a == 270 {
                        out.push((x, y - GLYPH_TEXT_OFFSET));
                    } else if a == 90 {
                        out.push((x, y + GLYPH_TEXT_OFFSET));
                    } else if a == 180 {
                        out.push((x - GLYPH_TEXT_OFFSET, y));
                    } else if a == 0 {
                        out.push((x + GLYPH_TEXT_OFFSET, y));
                    }
                },
                None => {},
            }
        }
        t = t + 1;
    }
    out
}

/// The glyph lies on the side to which its pin points: the tip is exactly one
/// text offset out from the pin along a cardinal direction, and the other
/// coordinate is the pin's own.
pub proof fn glyphs_lie_outward(pin: Pin)
    ensures
        glyph_tip(pin) is Some <==> pin.angle % 90 == 0,
        glyph_tip(pin) matches Some(p) ==> {
            let d = (p.0 - pin.x, p.1 + pin.y);
            outward(pin.angle as int) == Some((d.0 / GLYPH_TEXT_OFFSET as int, d.1
                / GLYPH_TEXT_OFFSET as int))
        },
{
}

/// A glyph stands beyond its pin's tip, three grid steps out: above a pin that
/// points up (270 degrees), below one that points down (90 degrees), left of
/// one that points left (180 degrees) and right of one that points right.
/// Sheet Y grows down and symbol Y grows up.
pub proof fn glyphs_stand_beyond_their_pins(pin: Pin)
    ensures
        pin.angle % 360 == 270 ==> glyph_tip(pin) == Some((pin.x as int, -pin.y - 3810)),
        pin.angle % 360 == 90 ==> glyph_tip(pin) == Some((pin.x as int, -pin.y + 3810)),
        pin.angle % 360 == 180 ==> glyph_tip(pin) == Some((pin.x - 3810, -pin.y)),
        pin.angle % 360 == 0 ==> glyph_tip(pin) == Some((pin.x + 3810, -pin.y)),
{
}

/// An element carries a glyph at each drawn pin on a rail, unless it is a
/// supply, and at no other.
pub proof fn rail_pins_carry_glyphs(
    e: ResolvedElement,
    o: Orientation,
    prefs: Seq<Option<VertPref>>,
    n: int,
    p: (int, int),
)
    requires
        0 <= n <= e.nodes@.len(),
    ensures
        glyph_points(e, o, prefs, n).contains(p) <==> !(e.role is Power) && exists|t: int|
            #![trigger e.nodes@[t]]
            0 <= t < n && prefs[e.nodes@[t] as int] is Some && (e.pin_of(o, t) matches Some(k)
                && glyph_tip(e.symbol.posed(o).pins@[k]) == Some(p)),
    decreases n,
{
    if n > 0 && !e.role.is_power() {
        rail_pins_carry_glyphs(e, o, prefs, n - 1, p);
        let rest = glyph_points(e, o, prefs, n - 1);
        let all = glyph_points(e, o, prefs, n);
        let net = e.nodes@[n - 1];
        match terminal_glyph(e, o, prefs, n - 1) {
            Some(q) => {
                assert(all == rest.push(q));
                assert(all[rest.len() as int] == q);
                if rest.contains(p) {
                    let k = choose|k: int| 0 <= k < rest.len() && rest[k] == p;
                    assert(all[k] == p);
                }
                if all.contains(p) {
                    let k = choose|k: int| 0 <= k < all.len() && all[k] == p;
                    if k < rest.len() {
                        assert(rest[k] == p);
                    }
                }
            },
            None => {},
        }
    }
}

/// A glyph for a positive supply extends up; one for ground, for a negative
/// rail or for any other net extends down.
pub proof fn only_positive_supplies_extend_up(class: NetClass, negative_rail: bool)
    ensures
        axis_of(class, negative_rail) == GlyphAxis::Up <==> class == NetClass::Power
            && !negative_rail,
{
}

} // verus!
