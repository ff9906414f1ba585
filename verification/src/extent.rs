//! The space that an element takes up on the sheet, and the grid strides that
//! keep two elements clear of each other.
//!
//! An extent is a box of signed offsets from the element's origin, in
//! micrometres, with X growing right and Y growing down.

use vstd::prelude::*;

use crate::glyph_geom::glyph_reach;
#[allow(unused_imports)]
use crate::glyph_geom::{glyph_points, glyph_points_in_reach};
use crate::net_class::VertPref;
#[allow(unused_imports)]
use crate::netlist::nets_in_range;
use crate::netlist::ResolvedElement;
use crate::placement::GRID_STEP;
use crate::symbol::{Orientation, Symbol};
#[allow(unused_imports)]
use crate::symbol::{in_reach, Pin, Pose, Rect, MAX_REACH};

verus! {

/// Clear gap that the placer keeps between two extents: one grid step.
pub const MIN_CLEARANCE: i64 = 1270;

/// Estimated advance of one character of value text.
pub const VALUE_CHAR: i64 = 760;

/// Offset from the origin at which the value text starts.
pub const VALUE_OFFSET: i64 = 2540;

/// Half the height of a line of property text.
pub const PROPERTY_HALF_HEIGHT: i64 = 900;

/// Longest value text that the sheet has room for.
pub const MAX_VALUE_CHARS: usize = 1000;

/// No extent reaches farther from its origin than this.
pub const EXTENT_LIMIT: i64 = 1_100_000;

/// A box of offsets from an origin.
pub struct Bounds {
    pub min_x: int,
    pub max_x: int,
    pub min_y: int,
    pub max_y: int,
}

/// The smaller of two numbers.
pub open spec fn int_min(a: int, b: int) -> int {
    if a <= b {
        a
    } else {
        b
    }
}

/// The larger of two numbers.
pub open spec fn int_max(a: int, b: int) -> int {
    if a >= b {
        a
    } else {
        b
    }
}

impl Bounds {
    /// The box that holds only the origin.
    pub open spec fn origin() -> Bounds {
        Bounds { min_x: 0, max_x: 0, min_y: 0, max_y: 0 }
    }

    /// The box holds the point.
    pub open spec fn holds(self, p: (int, int)) -> bool {
        self.min_x <= p.0 <= self.max_x && self.min_y <= p.1 <= self.max_y
    }

    /// The box holds the other box.
    pub open spec fn covers(self, b: Bounds) -> bool {
        self.min_x <= b.min_x && b.max_x <= self.max_x && self.min_y <= b.min_y && b.max_y
            <= self.max_y
    }

    /// The least box that holds this one and the point.
    pub open spec fn grown(self, p: (int, int)) -> Bounds {
        Bounds {
            min_x: int_min(self.min_x, p.0),
            max_x: int_max(self.max_x, p.0),
            min_y: int_min(self.min_y, p.1),
            max_y: int_max(self.max_y, p.1),
        }
    }

    /// The box holds the origin and no side is farther from it than `limit`.
    pub open spec fn within(self, limit: int) -> bool {
        -limit <= self.min_x <= 0 <= self.max_x <= limit && -limit <= self.min_y <= 0 <= self.max_y
            <= limit
    }
}

/// The least box that holds the origin and all the points.
pub open spec fn hull(points: Seq<(int, int)>) -> Bounds
    decreases points.len(),
{
    if points.len() == 0 {
        Bounds::origin()
    } else {
        hull(points.drop_last()).grown(points.last())
    }
}

/// The hull holds the origin and every point, and every other box that does
/// covers it.
pub proof fn hull_is_least(points: Seq<(int, int)>)
    ensures
        hull(points).holds((0, 0)),
        forall|k: int| 0 <= k < points.len() ==> hull(points).holds(#[trigger] points[k]),
        forall|b: Bounds|
            b.holds((0, 0)) && (forall|k: int| 0 <= k < points.len() ==> b.holds(#[trigger] points[k]))
                ==> #[trigger] b.covers(hull(points)),
    decreases points.len(),
{
    if points.len() > 0 {
        let rest = points.drop_last();
        hull_is_least(rest);
        assert forall|k: int| 0 <= k < points.len() implies hull(points).holds(
            #[trigger] points[k],
        ) by {
            if k < rest.len() {
                assert(hull(rest).holds(rest[k]));
            }
        }
        assert forall|b: Bounds|
            b.holds((0, 0)) && (forall|k: int|
                0 <= k < points.len() ==> b.holds(#[trigger] points[k]))
            implies #[trigger] b.covers(hull(points)) by {
            assert forall|k: int| 0 <= k < rest.len() implies b.holds(#[trigger] rest[k]) by {
                assert(rest[k] == points[k]);
            }
            assert(b.covers(hull(rest)));
            assert(b.holds(points[points.len() - 1]));
        }
    }
}

/// Growing a hull point by point is the hull of the longer list.
pub proof fn hull_push(points: Seq<(int, int)>, p: (int, int))
    ensures
        hull(points.push(p)) == hull(points).grown(p),
{
    assert(points.push(p).drop_last() =~= points);
}

/// Every point is within `limit` of the origin along both axes.
pub open spec fn points_within(points: Seq<(int, int)>, limit: int) -> bool {
    forall|k: int|
        0 <= k < points.len() ==> -limit <= (#[trigger] points[k]).0 <= limit && -limit
            <= points[k].1 <= limit
}

/// The hull of points near the origin is near the origin.
pub proof fn hull_within(points: Seq<(int, int)>, limit: int)
    requires
        0 <= limit,
        points_within(points, limit),
    ensures
        hull(points).within(limit),
    decreases points.len(),
{
    if points.len() > 0 {
        let rest = points.drop_last();
        assert forall|k: int| 0 <= k < rest.len() implies -limit <= (#[trigger] rest[k]).0 <= limit
            && -limit <= rest[k].1 <= limit by {
            assert(rest[k] == points[k]);
        }
        hull_within(rest, limit);
        assert(points[points.len() - 1] == points.last());
    }
}

/// The extent of an element on the sheet.
#[derive(Debug, Clone, Copy, PartialEq, Eq, Structural)]
pub struct WorldExtent {
    pub min_x: i64,
    pub max_x: i64,
    pub min_y: i64,
    pub max_y: i64,
}

impl View for WorldExtent {
    type V = Bounds;

    open spec fn view(&self) -> Bounds {
        Bounds {
            min_x: self.min_x as int,
            max_x: self.max_x as int,
            min_y: self.min_y as int,
            max_y: self.max_y as int,
        }
    }
}

impl WorldExtent {
    /// The extent that holds only the origin.
    pub fn origin() -> (r: WorldExtent)
        ensures
            r@ == Bounds::origin(),
    {
        WorldExtent { min_x: 0, max_x: 0, min_y: 0, max_y: 0 }
    }

    /// Grows the extent to hold a point.
    pub fn grow(&mut self, dx: i64, dy: i64)
        ensures
            final(self)@ == old(self)@.grown((dx as int, dy as int)),
    {
        if dx < self.min_x {
            self.min_x = dx;
        }
        if dx > self.max_x {
            self.max_x = dx;
        }
        if dy < self.min_y {
            self.min_y = dy;
        }
        if dy > self.max_y {
            self.max_y = dy;
        }
    }
}

/// The corners of the body box as sheet offsets.
pub open spec fn body_points(body: Option<Rect>) -> Seq<(int, int)> {
    match body {
        Some(b) => seq![
            (b.x0 as int, -b.y0),
            (b.x0 as int, -b.y1),
            (b.x1 as int, -b.y0),
            (b.x1 as int, -b.y1),
        ],
        None => seq![],
    }
}

/// The tips of the pins as sheet offsets.
pub open spec fn pin_points(pins: Seq<Pin>) -> Seq<(int, int)> {
    Seq::new(pins.len(), |k: int| (pins[k].x as int, -pins[k].y))
}

/// The text of a value.
pub open spec fn text_of(value: Option<String>) -> Option<Seq<char>> {
    match value {
        Some(v) => Some(v@),
        None => None,
    }
}

/// The far corners of the band that the property texts take up: right of the
/// origin by the value text's width, and a line above and below it. A symbol
/// without value text has no such band.
pub open spec fn value_points(value: Option<Seq<char>>) -> Seq<(int, int)> {
    match value {
        Some(v) => if v.len() > 0 {
            let w = VALUE_OFFSET + v.len() * VALUE_CHAR;
            let h = VALUE_OFFSET + PROPERTY_HALF_HEIGHT;
            seq![(w as int, h as int), (w as int, -h)]
        } else {
            seq![]
        },
        None => seq![],
    }
}

/// The points of the body and the pins.
pub open spec fn symbol_points(pose: Pose) -> Seq<(int, int)> {
    body_points(pose.body) + pin_points(pose.pins@)
}

/// The space of a posed symbol with value text: the body, the pins and the
/// property band.
pub open spec fn extent_of(symbol: Symbol, o: Orientation, value: Option<Seq<char>>) -> Bounds {
    hull(symbol_points(symbol.posed(o)) + value_points(value))
}

/// [`extent_of`] together with the room for the power glyphs at the rail pins.
pub open spec fn extent_with_glyphs(
    e: ResolvedElement,
    o: Orientation,
    value: Option<Seq<char>>,
    prefs: Seq<Option<VertPref>>,
) -> Bounds {
    hull(
        symbol_points(e.symbol.posed(o)) + value_points(value) + glyph_points(
            e,
            o,
            prefs,
            e.nodes@.len() as int,
        ),
    )
}

/// The value text is short enough for the sheet.
pub open spec fn value_fits(value: Option<String>) -> bool {
    value matches Some(v) ==> v@.len() <= MAX_VALUE_CHARS
}

/// The room for power glyphs only adds to an extent.
pub proof fn glyphs_only_add(
    e: ResolvedElement,
    o: Orientation,
    value: Option<Seq<char>>,
    prefs: Seq<Option<VertPref>>,
)
    ensures
        extent_with_glyphs(e, o, value, prefs).covers(extent_of(e.symbol, o, value)),
{
    let a = symbol_points(e.symbol.posed(o)) + value_points(value);
    let g = glyph_points(e, o, prefs, e.nodes@.len() as int);
    hull_is_least(a);
    hull_is_least(a + g);
    let b = hull(a + g);
    assert forall|k: int| 0 <= k < a.len() implies b.holds(#[trigger] a[k]) by {
        assert((a + g)[k] == a[k]);
    }
    assert(b.covers(hull(a)));
}

/// No extent reaches farther than [`EXTENT_LIMIT`].
pub proof fn extents_are_limited(
    e: ResolvedElement,
    o: Orientation,
    value: Option<String>,
    prefs: Seq<Option<VertPref>>,
)
    requires
        e.symbol.wf(),
        value_fits(value),
    ensures
        extent_of(e.symbol, o, text_of(value)).within(EXTENT_LIMIT as int),
        extent_with_glyphs(e, o, text_of(value), prefs).within(EXTENT_LIMIT as int),
{
    let pose = e.symbol.posed(o);
    crate::symbol::orientation_index_inverse();
    assert(0 <= crate::symbol::orientation_index(o) < 8);
    assert(e.symbol.poses@[crate::symbol::orientation_index(o)].wf());
    let a = symbol_points(pose);
    let v = value_points(text_of(value));
    let g = glyph_points(e, o, prefs, e.nodes@.len() as int);
    let limit = EXTENT_LIMIT as int;
    let bp = body_points(pose.body);
    let pp = pin_points(pose.pins@);
    assert(points_within(bp, limit));
    assert forall|k: int| 0 <= k < pp.len() implies -limit <= (#[trigger] pp[k]).0 <= limit && -limit
        <= pp[k].1 <= limit by {
        assert(in_reach(pose.pins@[k].x as int));
    }
    assert forall|k: int| 0 <= k < a.len() implies -limit <= (#[trigger] a[k]).0 <= limit && -limit
        <= a[k].1 <= limit by {
        if k < bp.len() {
            assert(a[k] == bp[k]);
        } else {
            assert(a[k] == pp[k - bp.len()]);
        }
    }
    assert(points_within(v, limit)) by {
        match value {
            Some(s) => {
                assert(s@.len() * VALUE_CHAR <= 1000 * 760) by (nonlinear_arith)
                    requires
                        s@.len() <= 1000,
                        VALUE_CHAR == 760,
                ;
            },
            None => {},
        }
    }
    assert forall|k: int| 0 <= k < (a + v).len() implies -limit <= (#[trigger] (a + v)[k]).0 <= limit
        && -limit <= (a + v)[k].1 <= limit by {
        if k < a.len() {
            assert((a + v)[k] == a[k]);
        } else {
            assert((a + v)[k] == v[k - a.len()]);
        }
    }
    hull_within(a + v, limit);
    glyph_points_in_reach(e, o, prefs, e.nodes@.len() as int);
    assert forall|k: int| 0 <= k < (a + v + g).len() implies -limit <= (#[trigger] (a + v + g)[k]).0
        <= limit && -limit <= (a + v + g)[k].1 <= limit by {
        if k < (a + v).len() {
            assert((a + v + g)[k] == (a + v)[k]);
        } else {
            assert((a + v + g)[k] == g[k - (a + v).len()]);
        }
    }
    hull_within(a + v + g, limit);
}

/// Grows an extent by the body and the pins of a posed symbol.
fn grow_symbol(ext: &mut WorldExtent, pose: &Pose, Ghost(seen): Ghost<Seq<(int, int)>>)
    requires
        pose.wf(),
        old(ext)@ == hull(seen),
    ensures
        final(ext)@ == hull(seen + symbol_points(*pose)),
{
    match &pose.body {
        Some(b) => {
            let (x0, y0, x1, y1) = (b.x0 as i64, b.y0 as i64, b.x1 as i64, b.y1 as i64);
            ext.grow(x0, -y0);
            ext.grow(x0, -y1);
            ext.grow(x1, -y0);
            ext.grow(x1, -y1);
            proof {
                let p = body_points(pose.body);
                hull_push(seen, p[0]);
                hull_push(seen.push(p[0]), p[1]);
                hull_push(seen.push(p[0]).push(p[1]), p[2]);
                hull_push(seen.push(p[0]).push(p[1]).push(p[2]), p[3]);
                assert(seen.push(p[0]).push(p[1]).push(p[2]).push(p[3]) =~= seen + p);
            }
        },
        None => {
            proof {
                assert(seen + body_points(pose.body) =~= seen);
            }
        },
    }
    let ghost before = seen + body_points(pose.body);
    let mut k: usize = 0;
    while k < pose.pins.len()
        invariant
            k <= pose.pins@.len(),
            pose.wf(),
            ext@ == hull(before + pin_points(pose.pins@).take(k as int)),
        decreases pose.pins@.len() - k,
    {
        let p = &pose.pins[k];
        assert(in_reach(pose.pins@[k as int].y as int));
        ext.grow(p.x as i64, -(p.y as i64));
        proof {
            let points = pin_points(pose.pins@);
            hull_push(before + points.take(k as int), points[k as int]);
            assert((before + points.take(k as int)).push(points[k as int]) =~= before + points.take(
                k + 1,
            ));
        }
        k = k + 1;
    }
    proof {
        let points = pin_points(pose.pins@);
        assert(before + points.take(k as int) =~= seen + symbol_points(*pose));
    }
}

/// The space of a posed symbol with value text.
pub fn world_extent(symbol: &Symbol, o: Orientation, value: &Option<String>) -> (r: WorldExtent)
    requires
        symbol.wf(),
        value_fits(*value),
    ensures
        r@ == extent_of(*symbol, o, text_of(*value)),
{
    let mut ext = WorldExtent::origin();
    let pose = symbol.pose(o);
    let ghost none: Seq<(int, int)> = seq![];
    grow_symbol(&mut ext, pose, Ghost(none));
    let ghost a = symbol_points(*pose);
    assert(none + a =~= a);
    match value {
        Some(v) => {
            let chars: usize = v.as_str().unicode_len();
            if chars > 0 {
                let w: i64 = VALUE_OFFSET + (chars as i64) * VALUE_CHAR;
                let h: i64 = VALUE_OFFSET + PROPERTY_HALF_HEIGHT;
                ext.grow(w, h);
                ext.grow(w, -h);
                proof {
                    let p = value_points(text_of(*value));
                    hull_push(a, p[0]);
                    hull_push(a.push(p[0]), p[1]);
                    assert(a.push(p[0]).push(p[1]) =~= a + p);
                }
            }
        },
        None => {},
    }
    assert(value_points(text_of(*value)).len() == 0 ==> a + value_points(text_of(*value)) =~= a);
    ext
}

/// The space of an element, with the room for the power glyphs that its rail
/// pins will carry.
pub fn world_extent_with_glyphs(
    e: &ResolvedElement,
    o: Orientation,
    value: &Option<String>,
    prefs: &Vec<Option<VertPref>>,
) -> (r: WorldExtent)
    requires
        e.symbol.wf(),
        value_fits(*value),
        nets_in_range(e.nodes@, prefs@.len()),
    ensures
        r@ == extent_with_glyphs(*e, o, text_of(*value), prefs@),
{
    let mut ext = world_extent(&e.symbol, o, value);
    let reach = glyph_reach(e, o, prefs);
    let ghost before = symbol_points(e.symbol.posed(o)) + value_points(text_of(*value));
    let ghost points = glyph_points(*e, o, prefs@, e.nodes@.len() as int);
    assert(before + points.take(0) =~= before);
    let mut k: usize = 0;
    while k < reach.len()
        invariant
            k <= reach@.len(),
            reach@.len() == points.len(),
            forall|j: int|
                0 <= j < points.len() ==> (#[trigger] reach@[j]).0 == points[j].0 && reach@[j].1
                    == points[j].1,
            ext@ == hull(before + points.take(k as int)),
        decreases reach@.len() - k,
    {
        let (dx, dy) = reach[k];
        ext.grow(dx, dy);
        proof {
            assert(points[k as int] == (dx as int, dy as int));
            hull_push(before + points.take(k as int), points[k as int]);
            assert((before + points.take(k as int)).push(points[k as int]) =~= before + points.take(
                k + 1,
            ));
        }
        k = k + 1;
    }
    assert(before + points.take(k as int) =~= before + points);
    ext
}

/// How far the body alone reaches left of the origin; zero for a symbol
/// without a body.
pub open spec fn body_left(symbol: Symbol, o: Orientation) -> int {
    match symbol.posed(o).body {
        Some(b) => int_max(0, -int_min(b.x0 as int, b.x1 as int)),
        None => 0,
    }
}

/// How far the body alone reaches left of the origin.
pub fn body_left_reach(symbol: &Symbol, o: Orientation) -> (r: i64)
    requires
        symbol.wf(),
    ensures
        r == body_left(*symbol, o),
        0 <= r <= MAX_REACH,
{
    let pose = symbol.pose(o);
    match &pose.body {
        Some(b) => {
            let (x0, x1) = (b.x0 as i64, b.x1 as i64);
            let x = if x0 <= x1 {
                x0
            } else {
                x1
            };
            if x < 0 {
                -x
            } else {
                0
            }
        },
        None => 0,
    }
}

/// A length in whole grid steps, rounded up.
pub open spec fn ceil_steps(um: int) -> int {
    (um + GRID_STEP - 1) / GRID_STEP as int
}

/// A length in whole grid steps, rounded up and at least one.
pub open spec fn stride_steps(um: int) -> int {
    int_max(1, ceil_steps(um))
}

/// A length in whole grid steps, rounded up. The result may be zero or
/// negative: two elements may abut.
pub fn ceil_cells(um: i64) -> (r: i32)
    requires
        -2_700_000_000_000 <= um <= 2_700_000_000_000,
    ensures
        r == ceil_steps(um as int),
{
    if um > 0 {
        ((um + (GRID_STEP - 1)) / GRID_STEP) as i32
    } else {
        let down: i64 = (-um) / GRID_STEP;
        (-down) as i32
    }
}

/// A length in whole grid steps, rounded up and at least one, so that the
/// result lies on the schematic grid.
pub fn up_to_cells(um: i64) -> (r: i32)
    requires
        -2_700_000_000_000 <= um <= 2_700_000_000_000,
    ensures
        r == stride_steps(um as int),
{
    let c: i32 = ceil_cells(um);
    if c > 1 {
        c
    } else {
        1
    }
}

/// The quotient rounded to the nearest integer, halves away from zero.
pub open spec fn round_div(n: int, d: int) -> int {
    if n >= 0 {
        (2 * n + d) / (2 * d)
    } else {
        -((2 * -n + d) / (2 * d))
    }
}

/// The steps between two origins in one column that keep the extents and the
/// clearance free of each other.
pub open spec fn vertical_steps(upper: Bounds, lower: Bounds) -> int {
    stride_steps(upper.max_y - lower.min_y + MIN_CLEARANCE)
}

/// The steps between two origins in one column. `upper` is the element with
/// the smaller sheet Y.
pub fn vertical_stride_cells(upper: &WorldExtent, lower: &WorldExtent) -> (r: i32)
    requires
        upper@.within(EXTENT_LIMIT as int),
        lower@.within(EXTENT_LIMIT as int),
    ensures
        r == vertical_steps(upper@, lower@),
        1 <= r <= 2000,
{
    up_to_cells(upper.max_y - lower.min_y + MIN_CLEARANCE)
}

/// At a stride of [`vertical_steps`] the upper extent ends a clearance above
/// the lower one, and one step less would not do.
pub proof fn vertical_steps_clear(upper: Bounds, lower: Bounds, y: int)
    ensures
        y * GRID_STEP + upper.max_y + MIN_CLEARANCE <= (y + vertical_steps(upper, lower))
            * GRID_STEP + lower.min_y,
        vertical_steps(upper, lower) > 1 ==> y * GRID_STEP + upper.max_y + MIN_CLEARANCE > (y
            + vertical_steps(upper, lower) - 1) * GRID_STEP + lower.min_y,
{
    let need = upper.max_y - lower.min_y + MIN_CLEARANCE;
    let s = vertical_steps(upper, lower);
    assert((y + s) * GRID_STEP == y * GRID_STEP + s * GRID_STEP) by (nonlinear_arith);
    assert((y + s - 1) * GRID_STEP == y * GRID_STEP + (s - 1) * GRID_STEP) by (nonlinear_arith);
    assert(ceil_steps(need) * 1270 >= need && (ceil_steps(need) - 1) * 1270 < need);
}

/// The extent of a posed symbol takes in every pin tip and body corner, and with
/// a value text a band that starts at the origin, reaches 2.54 mm and 0.76 mm
/// per character to the right, and 3.44 mm up and down. Sheet Y grows down and
/// symbol Y grows up.
pub proof fn extents_take_in_what_is_drawn(
    symbol: Symbol,
    o: Orientation,
    value: Option<Seq<char>>,
)
    ensures
        ({
            let b = extent_of(symbol, o, value);
            let pose = symbol.posed(o);
            &&& b.min_x <= 0 <= b.max_x && b.min_y <= 0 <= b.max_y
            &&& forall|k: int|
                0 <= k < pose.pins@.len() ==> b.min_x <= (#[trigger] pose.pins@[k]).x <= b.max_x
                    && b.min_y <= -pose.pins@[k].y <= b.max_y
            &&& pose.body matches Some(r) ==> b.min_x <= r.x0 <= b.max_x && b.min_x <= r.x1
                <= b.max_x && b.min_y <= -r.y0 <= b.max_y && b.min_y <= -r.y1 <= b.max_y
            &&& value matches Some(v) ==> v.len() > 0 ==> b.max_x >= 2540 + 760 * v.len()
                && b.min_y <= -3440 && b.max_y >= 3440
        }),
{
    let pose = symbol.posed(o);
    let (bp, pp, vp) = (body_points(pose.body), pin_points(pose.pins@), value_points(value));
    let all = symbol_points(pose) + vp;
    hull_is_least(all);
    assert forall|k: int| 0 <= k < bp.len() implies extent_of(symbol, o, value).holds(
        #[trigger] bp[k],
    ) by {
        assert(all[k] == bp[k]);
    }
    assert forall|k: int| 0 <= k < pp.len() implies extent_of(symbol, o, value).holds(
        #[trigger] pp[k],
    ) by {
        assert(all[bp.len() + k] == pp[k]);
    }
    assert forall|k: int| 0 <= k < vp.len() implies extent_of(symbol, o, value).holds(
        #[trigger] vp[k],
    ) by {
        assert(all[bp.len() + pp.len() + k] == vp[k]);
    }
    assert forall|k: int| 0 <= k < pose.pins@.len() implies extent_of(symbol, o, value).min_x <= (
    #[trigger] pose.pins@[k]).x <= extent_of(symbol, o, value).max_x && extent_of(
        symbol,
        o,
        value,
    ).min_y <= -pose.pins@[k].y <= extent_of(symbol, o, value).max_y by {
        assert(extent_of(symbol, o, value).holds(pp[k]));
    }
    match pose.body {
        Some(r) => {
            assert(extent_of(symbol, o, value).holds(bp[0]));
            assert(extent_of(symbol, o, value).holds(bp[3]));
        },
        None => {},
    }
    match value {
        Some(v) => {
            if v.len() > 0 {
                assert(extent_of(symbol, o, value).holds(vp[0]));
                assert(extent_of(symbol, o, value).holds(vp[1]));
            }
        },
        None => {},
    }
}

/// A length in grid steps is rounded up: that many steps of 1.27 mm cover it,
/// and one fewer does not.
pub proof fn lengths_round_up(um: int)
    ensures
        1270 * ceil_steps(um) >= um,
        1270 * (ceil_steps(um) - 1) < um,
        stride_steps(um) >= 1,
        stride_steps(um) >= ceil_steps(um),
        stride_steps(um) == 1 || stride_steps(um) == ceil_steps(um),
{
}

/// The extent is no larger than it must be: a box about the origin that takes
/// in the pin tips, the body and, with a value text, its band takes in the
/// extent.
pub proof fn extents_take_in_nothing_else(
    symbol: Symbol,
    o: Orientation,
    value: Option<Seq<char>>,
    left: int,
    right: int,
    top: int,
    bottom: int,
)
    requires
        left <= 0 <= right,
        top <= 0 <= bottom,
        forall|k: int|
            0 <= k < symbol.posed(o).pins@.len() ==> left <= (#[trigger] symbol.posed(o).pins@[k]).x
                <= right && top <= -symbol.posed(o).pins@[k].y <= bottom,
        symbol.posed(o).body matches Some(r) ==> left <= r.x0 <= right && left <= r.x1 <= right
            && top <= -r.y0 <= bottom && top <= -r.y1 <= bottom,
        value matches Some(v) ==> v.len() > 0 ==> 2540 + 760 * v.len() <= right && top <= -3440
            && 3440 <= bottom,
    ensures
        ({
            let b = extent_of(symbol, o, value);
            left <= b.min_x && b.max_x <= right && top <= b.min_y && b.max_y <= bottom
        }),
{
    let pose = symbol.posed(o);
    let (bp, pp, vp) = (body_points(pose.body), pin_points(pose.pins@), value_points(value));
    let all = symbol_points(pose) + vp;
    let frame = Bounds { min_x: left, max_x: right, min_y: top, max_y: bottom };
    assert forall|k: int| 0 <= k < all.len() implies frame.holds(#[trigger] all[k]) by {
        if k < bp.len() {
            assert(all[k] == bp[k]);
        } else if k < bp.len() + pp.len() {
            let j = k - bp.len();
            assert(all[k] == pp[j]);
            assert(left <= pose.pins@[j].x <= right);
        } else {
            assert(all[k] == vp[k - bp.len() - pp.len()]);
        }
    }
    hull_is_least(all);
    assert(frame.covers(hull(all)));
}

/// With power glyphs the extent takes in the bare extent and the glyphs' tips,
/// and is covered by every box that does.
pub proof fn glyphs_only_add_their_tips(
    e: ResolvedElement,
    o: Orientation,
    value: Option<Seq<char>>,
    prefs: Seq<Option<VertPref>>,
    frame: Bounds,
)
    ensures
        ({
            let tips = glyph_points(e, o, prefs, e.nodes@.len() as int);
            let (bare, full) = (
                extent_of(e.symbol, o, value),
                extent_with_glyphs(e, o, value, prefs),
            );
            &&& full.covers(bare)
            &&& forall|k: int| 0 <= k < tips.len() ==> full.holds(#[trigger] tips[k])
            &&& frame.covers(bare) && (forall|k: int|
                0 <= k < tips.len() ==> frame.holds(#[trigger] tips[k])) ==> frame.covers(full)
        }),
{
    let tips = glyph_points(e, o, prefs, e.nodes@.len() as int);
    let own = symbol_points(e.symbol.posed(o)) + value_points(value);
    let all = own + tips;
    hull_is_least(own);
    hull_is_least(all);
    let full = hull(all);
    assert forall|k: int| 0 <= k < own.len() implies full.holds(#[trigger] own[k]) by {
        assert(all[k] == own[k]);
    }
    assert(full.covers(hull(own)));
    assert forall|k: int| 0 <= k < tips.len() implies full.holds(#[trigger] tips[k]) by {
        assert(all[own.len() + k] == tips[k]);
    }
    if frame.covers(hull(own)) && (forall|k: int|
        0 <= k < tips.len() ==> frame.holds(#[trigger] tips[k])) {
        assert forall|k: int| 0 <= k < all.len() implies frame.holds(#[trigger] all[k]) by {
            if k < own.len() {
                assert(all[k] == own[k]);
                assert(hull(own).holds(own[k]));
            } else {
                assert(all[k] == tips[k - own.len()]);
            }
        }
        assert(frame.holds((0, 0)));
        assert(frame.covers(full));
    }
}

} // verus!
