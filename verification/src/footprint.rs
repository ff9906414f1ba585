//! The space that an element's decorations take up, side by side.
//!
//! A footprint is a box of signed offsets from the element's origin, in
//! micrometres, with Y growing down. It reserves a side only where something is
//! drawn there, where a symmetric halo reserves both sides.

use vstd::prelude::*;

#[allow(unused_imports)]
use crate::extent::{
    hull, hull_is_least, hull_push, int_max, int_min, symbol_points, value_points, Bounds,
};
use crate::extent::world_extent;
use crate::glyph_geom::glyph_reach;
#[allow(unused_imports)]
use crate::glyph_geom::glyph_points;
use crate::net_class::VertPref;
#[allow(unused_imports)]
use crate::netlist::nets_in_range;
use crate::netlist::ResolvedElement;
use crate::symbol::{Orientation, Symbol};

verus! {

/// The box around a drawn text, as offsets from the element's origin.
#[derive(Debug, Clone, Copy, PartialEq, Eq, Structural)]
pub struct TextBox {
    pub x0: i64,
    pub y0: i64,
    pub x1: i64,
    pub y1: i64,
}

/// The footprint of an element. It always holds the origin.
#[derive(Debug, Clone, Copy, PartialEq, Eq, Structural)]
pub struct SignedFootprint {
    pub min_x: i64,
    pub max_x: i64,
    pub min_y: i64,
    pub max_y: i64,
}

impl View for SignedFootprint {
    type V = Bounds;

    open spec fn view(&self) -> Bounds {
        Bounds {
            min_x: self.min_x as int,
            max_x: self.max_x as int,
            min_y: self.min_y as int,
            max_y: self.max_y as int,
        }
    }
}

/// The least box around two boxes.
pub open spec fn joined(a: Bounds, b: Bounds) -> Bounds {
    Bounds {
        min_x: int_min(a.min_x, b.min_x),
        max_x: int_max(a.max_x, b.max_x),
        min_y: int_min(a.min_y, b.min_y),
        max_y: int_max(a.max_y, b.max_y),
    }
}

/// The half width and height of the least symmetric box around a box.
pub open spec fn halo_of(b: Bounds) -> (int, int) {
    (
        int_max(crate::pose_pick::abs(b.min_x), crate::pose_pick::abs(b.max_x)),
        int_max(crate::pose_pick::abs(b.min_y), crate::pose_pick::abs(b.max_y)),
    )
}

/// The box lies within a symmetric box.
pub open spec fn inside_halo(b: Bounds, hw: int, hh: int) -> bool {
    b.min_x >= -hw && b.max_x <= hw && b.min_y >= -hh && b.max_y <= hh
}

impl SignedFootprint {
    /// The footprint that holds only the origin.
    #[must_use]
    pub fn origin() -> (r: SignedFootprint)
        ensures
            r@ == Bounds::origin(),
    {
        SignedFootprint { min_x: 0, max_x: 0, min_y: 0, max_y: 0 }
    }

    fn grow(&mut self, dx: i64, dy: i64)
        ensures
            final(self)@ == old(self)@.grown((dx as int, dy as int)),
    {
        if dx < self.min_x {
            self.min_x = dx;
        }
        if dx > self.max_x {
            self.max_x = dx;
        }
        if dy < self.min_y {
            self.min_y = dy;
        }
        if dy > self.max_y {
            self.max_y = dy;
        }
    }

    /// The least footprint around two footprints.
    #[must_use]
    pub fn union(&self, other: &SignedFootprint) -> (r: SignedFootprint)
        ensures
            r@ == joined(self@, other@),
    {
        let mut r = *self;
        if other.min_x < r.min_x {
            r.min_x = other.min_x;
        }
        if other.max_x > r.max_x {
            r.max_x = other.max_x;
        }
        if other.min_y < r.min_y {
            r.min_y = other.min_y;
        }
        if other.max_y > r.max_y {
            r.max_y = other.max_y;
        }
        r
    }

    /// The half width and height of the symmetric halo around the footprint.
    #[must_use]
    pub fn halo_half_extents(&self) -> (r: (i64, i64))
        requires
            self.min_x > i64::MIN,
            self.max_x > i64::MIN,
            self.min_y > i64::MIN,
            self.max_y > i64::MIN,
        ensures
            (r.0 as int, r.1 as int) == halo_of(self@),
    {
        let (a, b): (i64, i64) = (magnitude(self.min_x), magnitude(self.max_x));
        let (c, d): (i64, i64) = (magnitude(self.min_y), magnitude(self.max_y));
        (
            if a >= b {
                a
            } else {
                b
            },
            if c >= d {
                c
            } else {
                d
            },
        )
    }

    /// Whether the footprint lies within the symmetric box of the given half
    /// width and height.
    #[must_use]
    pub fn within_halo(&self, hw: i64, hh: i64) -> (r: bool)
        requires
            hw > i64::MIN,
            hh > i64::MIN,
        ensures
            r == inside_halo(self@, hw as int, hh as int),
    {
        self.min_x >= -hw && self.max_x <= hw && self.min_y >= -hh && self.max_y <= hh
    }

    /// The area of the footprint, in square micrometres.
    #[must_use]
    pub fn area(&self) -> (r: i128)
        requires
            self.min_x <= self.max_x,
            self.min_y <= self.max_y,
            self.max_x - self.min_x <= i64::MAX,
            self.max_y - self.min_y <= i64::MAX,
        ensures
            r == (self.max_x - self.min_x) * (self.max_y - self.min_y),
    {
        let w: i128 = self.max_x as i128 - self.min_x as i128;
        let h: i128 = self.max_y as i128 - self.min_y as i128;
        assert(0 <= w * h <= 0x7fff_ffff_ffff_ffff * 0x7fff_ffff_ffff_ffff) by (nonlinear_arith)
            requires
                0 <= w <= 0x7fff_ffff_ffff_ffff,
                0 <= h <= 0x7fff_ffff_ffff_ffff,
        ;
        w * h
    }
}

fn magnitude(x: i64) -> (r: i64)
    requires
        x > i64::MIN,
    ensures
        r == crate::pose_pick::abs(x as int),
{
    if x < 0 {
        -x
    } else {
        x
    }
}

/// The halo holds the footprint: what it keeps, the footprint refines. Nothing
/// smaller that is symmetric does.
pub proof fn halos_hold_footprints(b: Bounds, hw: int, hh: int)
    requires
        b.holds((0, 0)),
    ensures
        inside_halo(b, halo_of(b).0, halo_of(b).1),
        inside_halo(b, hw, hh) ==> halo_of(b).0 <= hw && halo_of(b).1 <= hh,
{
}

/// The union holds both footprints, and every box that does holds it.
pub proof fn unions_are_least(a: Bounds, b: Bounds, c: Bounds)
    ensures
        joined(a, b).covers(a),
        joined(a, b).covers(b),
        c.covers(a) && c.covers(b) ==> c.covers(joined(a, b)),
{
}

/// The footprint of the body and the pins.
#[must_use]
pub fn body_and_pins(symbol: &Symbol, o: Orientation) -> (r: SignedFootprint)
    requires
        symbol.wf(),
    ensures
        r@ == hull(symbol_points(symbol.posed(o))),
{
    let ext = world_extent(symbol, o, &None);
    proof {
        let a = symbol_points(symbol.posed(o));
        assert(a + value_points(None) =~= a);
    }
    SignedFootprint { min_x: ext.min_x, max_x: ext.max_x, min_y: ext.min_y, max_y: ext.max_y }
}

/// Two opposite corners of a text's box; none for a text that is not drawn.
pub open spec fn text_points(text: Option<TextBox>) -> Seq<(int, int)> {
    match text {
        Some(b) => seq![(b.x0 as int, b.y0 as int), (b.x1 as int, b.y1 as int)],
        None => seq![],
    }
}

/// The footprint of the two property texts, each on the side where it is
/// drawn. A text that is empty or absent reserves nothing. The boxes are those
/// of the drawn texts: both are anchored 2.54 mm right of the origin, the
/// reference 2.54 mm above it and the value 2.54 mm below it, and the anchors
/// turn with the symbol.
#[must_use]
pub fn property_text(reference: Option<TextBox>, value: Option<TextBox>) -> (r: SignedFootprint)
    ensures
        r@ == hull(text_points(reference) + text_points(value)),
{
    let mut fp = SignedFootprint::origin();
    let ghost none: Seq<(int, int)> = seq![];
    let ghost a = text_points(reference);
    match reference {
        Some(b) => {
            fp.grow(b.x0, b.y0);
            fp.grow(b.x1, b.y1);
            proof {
                hull_push(none, a[0]);
                hull_push(none.push(a[0]), a[1]);
                assert(none.push(a[0]).push(a[1]) =~= a);
            }
        },
        None => {
            assert(a =~= none);
        },
    }
    let ghost c = text_points(value);
    match value {
        Some(b) => {
            fp.grow(b.x0, b.y0);
            fp.grow(b.x1, b.y1);
            proof {
                hull_push(a, c[0]);
                hull_push(a.push(c[0]), c[1]);
                assert(a.push(c[0]).push(c[1]) =~= a + c);
            }
        },
        None => {
            assert(a + c =~= a);
        },
    }
    fp
}

/// The footprint of the power glyphs at the rail pins.
#[must_use]
pub fn glyph(e: &ResolvedElement, o: Orientation, prefs: &Vec<Option<VertPref>>) -> (r:
    SignedFootprint)
    requires
        e.symbol.wf(),
        nets_in_range(e.nodes@, prefs@.len()),
    ensures
        r@ == hull(glyph_points(*e, o, prefs@, e.nodes@.len() as int)),
{
    let reach = glyph_reach(e, o, prefs);
    let ghost points = glyph_points(*e, o, prefs@, e.nodes@.len() as int);
    let mut fp = SignedFootprint::origin();
    assert(points.take(0) =~= seq![]);
    let mut k: usize = 0;
    while k < reach.len()
        invariant
            k <= reach@.len(),
            reach@.len() == points.len(),
            forall|j: int|
                0 <= j < points.len() ==> ((#[trigger] reach@[j]).0 as int, reach@[j].1 as int)
                    == points[j],
            fp@ == hull(points.take(k as int)),
        decreases reach@.len() - k,
    {
        let (dx, dy): (i64, i64) = reach[k];
        fp.grow(dx, dy);
        proof {
            assert((dx as int, dy as int) == points[k as int]);
            hull_push(points.take(k as int), points[k as int]);
            assert(points.take(k as int).push(points[k as int]) =~= points.take(k + 1));
        }
        k = k + 1;
    }
    assert(points.take(k as int) =~= points);
    fp
}

/// The footprint of an element: body, pins, glyphs and property texts.
pub open spec fn footprint_of(
    e: ResolvedElement,
    o: Orientation,
    reference: Option<TextBox>,
    value: Option<TextBox>,
    prefs: Seq<Option<VertPref>>,
) -> Bounds {
    joined(
        joined(
            hull(symbol_points(e.symbol.posed(o))),
            hull(text_points(reference) + text_points(value)),
        ),
        hull(glyph_points(e, o, prefs, e.nodes@.len() as int)),
    )
}

/// The footprint of an element, given the boxes of its property texts.
#[must_use]
pub fn element_footprint(
    e: &ResolvedElement,
    o: Orientation,
    reference: Option<TextBox>,
    value: Option<TextBox>,
    prefs: &Vec<Option<VertPref>>,
) -> (r: SignedFootprint)
    requires
        e.symbol.wf(),
        nets_in_range(e.nodes@, prefs@.len()),
    ensures
        r@ == footprint_of(*e, o, reference, value, prefs@),
{
    let body = body_and_pins(&e.symbol, o);
    let text = property_text(reference, value);
    let glyphs = glyph(e, o, prefs);
    body.union(&text).union(&glyphs)
}

/// Dropping a text never enlarges a footprint.
pub proof fn texts_only_add(
    e: ResolvedElement,
    o: Orientation,
    reference: Option<TextBox>,
    value: Option<TextBox>,
    prefs: Seq<Option<VertPref>>,
)
    ensures
        footprint_of(e, o, reference, value, prefs).covers(
            footprint_of(e, o, reference, None, prefs),
        ),
        footprint_of(e, o, reference, value, prefs).covers(
            footprint_of(e, o, None, value, prefs),
        ),
{
    let (a, b) = (text_points(reference), text_points(value));
    let none: Seq<(int, int)> = seq![];
    assert(text_points(None) =~= none);
    assert(a + text_points(None) =~= a);
    assert(text_points(None) + b =~= b);
    hull_is_least(a + b);
    hull_is_least(a);
    hull_is_least(b);
    let all = hull(a + b);
    assert forall|k: int| 0 <= k < a.len() implies all.holds(#[trigger] a[k]) by {
        assert((a + b)[k] == a[k]);
    }
    assert forall|k: int| 0 <= k < b.len() implies all.holds(#[trigger] b[k]) by {
        assert((a + b)[a.len() + k] == b[k]);
    }
    assert(all.covers(hull(a)));
    assert(all.covers(hull(b)));
}

} // verus!
