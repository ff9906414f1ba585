//! Legalization: symbols that overlap are shoved apart.
//!
//! Elements settle in a fixed order, pinned ones first. An element that
//! overlaps a settled one is moved to the nearest place where it is clear of
//! all settled ones and shorts no pins. Pinned elements never move.

use vstd::prelude::*;

#[allow(unused_imports)]
use crate::counting::count;
#[allow(unused_imports)]
use crate::extent::{
    extent_of, extent_with_glyphs, extents_are_limited, text_of, Bounds, EXTENT_LIMIT,
};
use crate::extent::{world_extent, world_extent_with_glyphs, WorldExtent};
use crate::net_class::VertPref;
use crate::netlist::CheckedNetlist;
#[allow(unused_imports)]
use crate::netlist::nets_in_range;
use crate::pin_clash::foreign_pin_coincidences;
#[allow(unused_imports)]
use crate::pin_clash::{clashes, is_drawn};
use crate::placement::{put, GridPoint, Placement};
#[allow(unused_imports)]
use crate::placement::{
    same_parts, same_parts_trans, spots_within, Spot, GRID_STEP, MAX_COORD, MAX_ELEMENTS,
};
#[allow(unused_imports)]
use crate::pose_pick::abs;
#[allow(unused_imports)]
use crate::placement::{moving_keeps_the_netlist, places};

verus! {

/// Farthest that an element is shoved along either axis, in grid steps.
pub const MAX_SHOVE_CELLS: i32 = 12;

/// Overlaps up to this many micrometres are mere contact.
pub const CONTACT: i64 = 1;

// ---- Footprints ---------------------------------------------------------------

/// A rectangle on the sheet, in micrometres.
#[derive(Debug, Clone, Copy, PartialEq, Eq, Structural)]
pub struct Footprint {
    pub x0: i64,
    pub y0: i64,
    pub x1: i64,
    pub y1: i64,
}

impl View for Footprint {
    type V = Bounds;

    open spec fn view(&self) -> Bounds {
        Bounds {
            min_x: self.x0 as int,
            max_x: self.x1 as int,
            min_y: self.y0 as int,
            max_y: self.y1 as int,
        }
    }
}

/// Two rectangles share more than contact.
pub open spec fn overlapping(a: Bounds, b: Bounds) -> bool {
    &&& a.min_x + CONTACT < b.max_x
    &&& a.max_x > b.min_x + CONTACT
    &&& a.min_y + CONTACT < b.max_y
    &&& a.max_y > b.min_y + CONTACT
}

/// All sides of a footprint are on the sheet.
pub open spec fn on_sheet(b: Bounds) -> bool {
    let m = (MAX_COORD + 1000) * GRID_STEP + EXTENT_LIMIT;
    -m <= b.min_x <= m && -m <= b.max_x <= m && -m <= b.min_y <= m && -m <= b.max_y <= m
}

impl Footprint {
    /// Whether two footprints overlap. Footprints that merely touch do not.
    pub fn overlaps(self, other: Footprint) -> (r: bool)
        requires
            on_sheet(self@),
            on_sheet(other@),
        ensures
            r == overlapping(self@, other@),
    {
        self.x0 + CONTACT < other.x1 && self.x1 > other.x0 + CONTACT && self.y0 + CONTACT
            < other.y1 && self.y1 > other.y0 + CONTACT
    }
}

/// An extent moved to an origin.
pub open spec fn moved_to(ext: Bounds, at: GridPoint) -> Bounds {
    Bounds {
        min_x: at.um().0 + ext.min_x,
        max_x: at.um().0 + ext.max_x,
        min_y: at.um().1 + ext.min_y,
        max_y: at.um().1 + ext.max_y,
    }
}

/// Overlap is mutual.
pub proof fn overlap_is_mutual(a: Bounds, b: Bounds)
    ensures
        overlapping(a, b) == overlapping(b, a),
{
}

fn footprint_at(ext: &WorldExtent, at: GridPoint) -> (r: Footprint)
    requires
        ext@.within(EXTENT_LIMIT as int),
        at.within(MAX_COORD + 1000),
    ensures
        r@ == moved_to(ext@, at),
        on_sheet(r@),
{
    let (ox, oy): (i64, i64) = at.to_um();
    Footprint { x0: ox + ext.min_x, y0: oy + ext.min_y, x1: ox + ext.max_x, y1: oy + ext.max_y }
}

/// The body and pins of an element as posed.
pub open spec fn tight(spots: Seq<Spot>, checked: &CheckedNetlist, i: int) -> Bounds {
    extent_of(checked.elements@[i].symbol, spots[i].orientation, None)
}

/// The body, pins, texts and power glyphs of an element as posed.
pub open spec fn roomy(
    spots: Seq<Spot>,
    checked: &CheckedNetlist,
    prefs: Seq<Option<VertPref>>,
    i: int,
) -> Bounds {
    let e = checked.elements@[i];
    extent_with_glyphs(e, spots[i].orientation, text_of(e.value), prefs)
}

/// The place that an element takes up.
pub open spec fn footprint(spots: Seq<Spot>, checked: &CheckedNetlist, i: int) -> Bounds {
    moved_to(tight(spots, checked, i), spots[i].origin)
}

/// Two elements overlap as placed.
pub open spec fn elements_overlap(
    spots: Seq<Spot>,
    checked: &CheckedNetlist,
    i: int,
    j: int,
) -> bool {
    overlapping(footprint(spots, checked, i), footprint(spots, checked, j))
}

/// The element overlaps element `j`.
pub open spec fn overlaps_at(spots: Seq<Spot>, checked: &CheckedNetlist, j: int) -> spec_fn(
    int,
) -> bool {
    |i: int| elements_overlap(spots, checked, i, j)
}

/// The overlapping pairs among the first `n` elements.
pub open spec fn overlap_pairs(spots: Seq<Spot>, checked: &CheckedNetlist, n: int) -> int
    decreases n,
{
    if n <= 0 {
        0
    } else {
        overlap_pairs(spots, checked, n - 1) + count(overlaps_at(spots, checked, n - 1), n - 1)
    }
}

/// The element overlaps element `j`, and both are pinned.
pub open spec fn fixed_overlaps_at(
    spots: Seq<Spot>,
    checked: &CheckedNetlist,
    pinned: Seq<bool>,
    j: int,
) -> spec_fn(int) -> bool {
    |i: int| pinned[i] && pinned[j] && elements_overlap(spots, checked, i, j)
}

/// The overlapping pairs of pinned elements among the first `n` elements.
pub open spec fn fixed_overlap_pairs(
    spots: Seq<Spot>,
    checked: &CheckedNetlist,
    pinned: Seq<bool>,
    n: int,
) -> int
    decreases n,
{
    if n <= 0 {
        0
    } else {
        fixed_overlap_pairs(spots, checked, pinned, n - 1) + count(
            fixed_overlaps_at(spots, checked, pinned, n - 1),
            n - 1,
        )
    }
}

proof fn tight_limited(checked: &CheckedNetlist, spots: Seq<Spot>, i: int)
    requires
        checked.drawable(),
        0 <= i < checked.elements@.len(),
    ensures
        tight(spots, checked, i).within(EXTENT_LIMIT as int),
{
    assert(checked.elements@[i].symbol.wf());
    extents_are_limited(
        checked.elements@[i],
        spots[i].orientation,
        None,
        Seq::<Option<VertPref>>::empty(),
    );
}

/// No element takes up more than the limit of extents.
pub proof fn roomy_limited(
    checked: &CheckedNetlist,
    spots: Seq<Spot>,
    prefs: Seq<Option<VertPref>>,
    i: int,
)
    requires
        checked.drawable(),
        0 <= i < checked.elements@.len(),
    ensures
        roomy(spots, checked, prefs, i).within(EXTENT_LIMIT as int),
{
    let e = checked.elements@[i];
    assert(e.symbol.wf());
    extents_are_limited(e, spots[i].orientation, e.value, prefs);
}

/// The tight extent of every element.
fn tight_extents(placement: &Placement, checked: &CheckedNetlist) -> (r: Vec<WorldExtent>)
    requires
        checked.drawable(),
        placement.elements@.len() == checked.elements@.len(),
    ensures
        r@.len() == checked.elements@.len(),
        forall|i: int|
            0 <= i < r@.len() ==> (#[trigger] r@[i])@ == tight(placement.spots(), checked, i)
                && r@[i]@.within(EXTENT_LIMIT as int),
{
    let mut out: Vec<WorldExtent> = Vec::new();
    let mut i: usize = 0;
    while i < checked.elements.len()
        invariant
            i <= checked.elements@.len(),
            checked.drawable(),
            placement.elements@.len() == checked.elements@.len(),
            out@.len() == i,
            forall|k: int|
                0 <= k < i ==> (#[trigger] out@[k])@ == tight(placement.spots(), checked, k)
                    && out@[k]@.within(EXTENT_LIMIT as int),
        decreases checked.elements@.len() - i,
    {
        assert(checked.elements@[i as int].symbol.wf());
        proof {
            tight_limited(checked, placement.spots(), i as int);
        }
        let ext = world_extent(
            &checked.elements[i].symbol,
            placement.elements[i].orientation,
            &None,
        );
        out.push(ext);
        i = i + 1;
    }
    out
}

/// The number of overlapping pairs.
#[must_use]
pub fn overlap_count(placement: &Placement, checked: &CheckedNetlist) -> (r: u64)
    requires
        checked.drawable(),
        placement.elements@.len() == checked.elements@.len(),
        placement.within(MAX_COORD as int),
    ensures
        r == overlap_pairs(placement.spots(), checked, checked.elements@.len() as int),
{
    let ghost spots = placement.spots();
    let ext = tight_extents(placement, checked);
    let mut total: u64 = 0;
    let mut j: usize = 0;
    while j < checked.elements.len()
        invariant
            j <= checked.elements@.len(),
            checked.elements@.len() <= MAX_ELEMENTS,
            placement.elements@.len() == checked.elements@.len(),
            placement.within(MAX_COORD as int),
            spots == placement.spots(),
            ext@.len() == checked.elements@.len(),
            forall|k: int|
                0 <= k < ext@.len() ==> (#[trigger] ext@[k])@ == tight(spots, checked, k)
                    && ext@[k]@.within(EXTENT_LIMIT as int),
            total == overlap_pairs(spots, checked, j as int),
            total <= j * MAX_ELEMENTS,
        decreases checked.elements@.len() - j,
    {
        let ghost p = overlaps_at(spots, checked, j as int);
        assert(spots[j as int].origin.within(MAX_COORD as int));
        let theirs = footprint_at(&ext[j], placement.elements[j].origin);
        let mut part: u64 = 0;
        let mut i: usize = 0;
        while i < j
            invariant
                i <= j,
                j < checked.elements@.len(),
                checked.elements@.len() <= MAX_ELEMENTS,
                placement.elements@.len() == checked.elements@.len(),
                placement.within(MAX_COORD as int),
                spots == placement.spots(),
                ext@.len() == checked.elements@.len(),
                forall|k: int|
                    0 <= k < ext@.len() ==> (#[trigger] ext@[k])@ == tight(spots, checked, k)
                        && ext@[k]@.within(EXTENT_LIMIT as int),
                p == overlaps_at(spots, checked, j as int),
                theirs@ == footprint(spots, checked, j as int),
                on_sheet(theirs@),
                part == count(p, i as int),
                part <= i,
            decreases j - i,
        {
            assert(spots[i as int].origin.within(MAX_COORD as int));
            let mine = footprint_at(&ext[i], placement.elements[i].origin);
            if mine.overlaps(theirs) {
                part = part + 1;
            }
            i = i + 1;
        }
        total = total + part;
        j = j + 1;
    }
    total
}

/// The number of overlapping pairs that no pass may separate: both elements
/// are pinned.
pub fn immovable_overlap_count(
    placement: &Placement,
    checked: &CheckedNetlist,
    pinned: &Vec<bool>,
) -> (r: u64)
    requires
        checked.drawable(),
        placement.elements@.len() == checked.elements@.len(),
        pinned@.len() == checked.elements@.len(),
        placement.within(MAX_COORD as int),
    ensures
        r == fixed_overlap_pairs(
            placement.spots(),
            checked,
            pinned@,
            checked.elements@.len() as int,
        ),
{
    let ghost spots = placement.spots();
    let ext = tight_extents(placement, checked);
    let mut total: u64 = 0;
    let mut j: usize = 0;
    while j < checked.elements.len()
        invariant
            j <= checked.elements@.len(),
            checked.elements@.len() <= MAX_ELEMENTS,
            placement.elements@.len() == checked.elements@.len(),
            pinned@.len() == checked.elements@.len(),
            placement.within(MAX_COORD as int),
            spots == placement.spots(),
            ext@.len() == checked.elements@.len(),
            forall|k: int|
                0 <= k < ext@.len() ==> (#[trigger] ext@[k])@ == tight(spots, checked, k)
                    && ext@[k]@.within(EXTENT_LIMIT as int),
            total == fixed_overlap_pairs(spots, checked, pinned@, j as int),
            total <= j * MAX_ELEMENTS,
        decreases checked.elements@.len() - j,
    {
        let ghost p = fixed_overlaps_at(spots, checked, pinned@, j as int);
        assert(spots[j as int].origin.within(MAX_COORD as int));
        let theirs = footprint_at(&ext[j], placement.elements[j].origin);
        let mut part: u64 = 0;
        let mut i: usize = 0;
        while i < j
            invariant
                i <= j,
                j < checked.elements@.len(),
                checked.elements@.len() <= MAX_ELEMENTS,
                placement.elements@.len() == checked.elements@.len(),
                pinned@.len() == checked.elements@.len(),
                placement.within(MAX_COORD as int),
                spots == placement.spots(),
                ext@.len() == checked.elements@.len(),
                forall|k: int|
                    0 <= k < ext@.len() ==> (#[trigger] ext@[k])@ == tight(spots, checked, k)
                        && ext@[k]@.within(EXTENT_LIMIT as int),
                p == fixed_overlaps_at(spots, checked, pinned@, j as int),
                theirs@ == footprint(spots, checked, j as int),
                on_sheet(theirs@),
                part == count(p, i as int),
                part <= i,
            decreases j - i,
        {
            assert(spots[i as int].origin.within(MAX_COORD as int));
            let mine = footprint_at(&ext[i], placement.elements[i].origin);
            if pinned[i] && pinned[j] && mine.overlaps(theirs) {
                part = part + 1;
            }
            i = i + 1;
        }
        total = total + part;
        j = j + 1;
    }
    total
}

// ---- Displacements --------------------------------------------------------------

/// The displacement is at most `max` steps along both axes.
pub open spec fn in_square(max: int, d: (i32, i32)) -> bool {
    -max <= d.0 <= max && -max <= d.1 <= max
}

/// The length of a displacement along the grid.
pub open spec fn manhattan(d: (i32, i32)) -> int {
    abs(d.0 as int) + abs(d.1 as int)
}

/// The larger side of a displacement.
pub open spec fn chebyshev(d: (i32, i32)) -> int {
    if abs(d.0 as int) >= abs(d.1 as int) {
        abs(d.0 as int)
    } else {
        abs(d.1 as int)
    }
}

/// The order in which displacements are tried: the smallest first, rounder
/// before straight, sideways before up and down, then left before right and up
/// before down.
pub open spec fn tried_before(a: (i32, i32), b: (i32, i32)) -> bool {
    if manhattan(a) != manhattan(b) {
        manhattan(a) < manhattan(b)
    } else if chebyshev(a) != chebyshev(b) {
        chebyshev(a) < chebyshev(b)
    } else if abs(a.1 as int) != abs(b.1 as int) {
        abs(a.1 as int) < abs(b.1 as int)
    } else if a.0 != b.0 {
        a.0 < b.0
    } else {
        a.1 < b.1
    }
}

/// The list holds the displacements of the square, in the order in which they
/// are tried.
pub open spec fn is_ring(list: Seq<(i32, i32)>, max: int) -> bool {
    &&& forall|i: int, j: int|
        0 <= i < j < list.len() ==> tried_before(#[trigger] list[i], #[trigger] list[j])
    &&& forall|d: (i32, i32)| #[trigger] list.contains(d) <==> in_square(max, d)
}

/// Staying put is tried first, and no displacement is tried before a smaller
/// one.
pub proof fn rings_grow(list: Seq<(i32, i32)>, max: int)
    requires
        is_ring(list, max),
        0 <= max,
    ensures
        list.len() > 0,
        list[0] == (0i32, 0i32),
        forall|i: int, j: int|
            0 <= i <= j < list.len() ==> manhattan(#[trigger] list[i]) <= manhattan(
                #[trigger] list[j],
            ),
{
    let o = (0i32, 0i32);
    assert(list.contains(o));
    let k = choose|k: int| 0 <= k < list.len() && list[k] == o;
    if k > 0 {
        assert(tried_before(list[0], list[k]));
    }
}

/// There is one ring of each size.
pub proof fn rings_are_unique(a: Seq<(i32, i32)>, b: Seq<(i32, i32)>, max: int)
    requires
        is_ring(a, max),
        is_ring(b, max),
    ensures
        a == b,
    decreases a.len(),
{
    ring_prefix(a, b, max, a.len() as int);
    ring_prefix(b, a, max, b.len() as int);
    assert(a =~= b);
}

proof fn ring_prefix(a: Seq<(i32, i32)>, b: Seq<(i32, i32)>, max: int, n: int)
    requires
        is_ring(a, max),
        is_ring(b, max),
        0 <= n <= a.len(),
    ensures
        n <= b.len(),
        forall|i: int| 0 <= i < n ==> a[i] == b[i],
    decreases n,
{
    if n > 0 {
        ring_prefix(a, b, max, n - 1);
        let d = a[n - 1];
        assert(a.contains(d));
        assert(b.contains(d));
        let k = choose|k: int| 0 <= k < b.len() && b[k] == d;
        if k < n - 1 {
            assert(a[k] == d);
            assert(tried_before(a[k], a[n - 1]));
        } else if k > n - 1 {
            let e = b[n - 1];
            assert(b.contains(e));
            assert(a.contains(e));
            let m = choose|m: int| 0 <= m < a.len() && a[m] == e;
            assert(tried_before(b[n - 1], b[k]));
            if m < n - 1 {
                assert(b[m] == e);
                assert(tried_before(b[m], b[n - 1]));
            } else if m > n - 1 {
                assert(tried_before(a[n - 1], a[m]));
            }
        }
    }
}

fn comes_before(a: (i32, i32), b: (i32, i32)) -> (r: bool)
    requires
        in_square(0x3fff_ffff, a),
        in_square(0x3fff_ffff, b),
    ensures
        r == tried_before(a, b),
{
    let ax: i32 = if a.0 < 0 {
        -a.0
    } else {
        a.0
    };
    let ay: i32 = if a.1 < 0 {
        -a.1
    } else {
        a.1
    };
    let bx: i32 = if b.0 < 0 {
        -b.0
    } else {
        b.0
    };
    let by: i32 = if b.1 < 0 {
        -b.1
    } else {
        b.1
    };
    let ac: i32 = if ax >= ay {
        ax
    } else {
        ay
    };
    let bc: i32 = if bx >= by {
        bx
    } else {
        by
    };
    if ax + ay != bx + by {
        ax + ay < bx + by
    } else if ac != bc {
        ac < bc
    } else if ay != by {
        ay < by
    } else if a.0 != b.0 {
        a.0 < b.0
    } else {
        a.1 < b.1
    }
}

/// What has been listed when the column `dx` is done up to `dy`.
spec fn listed(max: int, dx: int, dy: int, d: (i32, i32)) -> bool {
    in_square(max, d) && (d.0 < dx || (d.0 == dx && d.1 < dy))
}

/// The displacements of up to `max_cells` steps along both axes, in the order
/// in which they are tried. Twice the size is an `i32`, so that every Manhattan
/// length is one.
#[must_use]
pub fn displacement_ring(max_cells: i32) -> (r: Vec<(i32, i32)>)
    requires
        2 * max_cells <= i32::MAX,
    ensures
        is_ring(
            r@,
            if max_cells >= 0 {
                max_cells as int
            } else {
                0
            },
        ),
{
    let max: i32 = if max_cells >= 0 {
        max_cells
    } else {
        0
    };
    let mut out: Vec<(i32, i32)> = Vec::new();
    let mut dx: i32 = -max;
    while dx <= max
        invariant
            0 <= max <= 0x3fff_ffff,
            -max <= dx <= max + 1,
            forall|i: int, j: int|
                0 <= i < j < out@.len() ==> tried_before(#[trigger] out@[i], #[trigger] out@[j]),
            forall|d: (i32, i32)| #[trigger]
                out@.contains(d) <==> listed(max as int, dx as int, -max, d),
        decreases max + 1 - dx,
    {
        let mut dy: i32 = -max;
        while dy <= max
            invariant
                0 <= max <= 0x3fff_ffff,
                -max <= dx <= max,
                -max <= dy <= max + 1,
                forall|i: int, j: int|
                    0 <= i < j < out@.len() ==> tried_before(#[trigger] out@[i], #[trigger] out@[j]),
                forall|d: (i32, i32)| #[trigger]
                    out@.contains(d) <==> listed(max as int, dx as int, dy as int, d),
            decreases max + 1 - dy,
        {
            let d: (i32, i32) = (dx, dy);
            let ghost before = out@;
            proof {
                assert(!before.contains(d));
                assert forall|i: int| 0 <= i < before.len() implies in_square(
                    max as int,
                    #[trigger] before[i],
                ) by {
                    assert(before.contains(before[i]));
                }
            }
            let mut k: usize = 0;
            while k < out.len() && comes_before(out[k], d)
                invariant
                    0 <= max <= 0x3fff_ffff,
                    in_square(max as int, d),
                    k <= out@.len(),
                    out@ == before,
                    forall|i: int, j: int|
                        0 <= i < j < out@.len() ==> tried_before(
                            #[trigger] out@[i],
                            #[trigger] out@[j],
                        ),
                    forall|i: int| 0 <= i < out@.len() ==> in_square(max as int, #[trigger] out@[i]),
                    forall|i: int| 0 <= i < k ==> tried_before(#[trigger] out@[i], d),
                decreases out@.len() - k,
            {
                k = k + 1;
            }
            out.insert(k, d);
            proof {
                crate::flow::insert_contains(before, k as int, d);
                assert(out@ == before.insert(k as int, d));
                assert forall|i: int, j: int| 0 <= i < j < out@.len() implies tried_before(
                    #[trigger] out@[i],
                    #[trigger] out@[j],
                ) by {
                    if k < before.len() {
                        assert(before.contains(before[k as int]));
                        assert(tried_before(d, before[k as int]));
                    }
                    if i == k && j > k + 1 {
                        assert(tried_before(before[k as int], before[j - 1]));
                    }
                    if j == k {
                        assert(tried_before(before[i], d));
                    }
                }
            }
            dy = dy + 1;
        }
        dx = dx + 1;
    }
    out
}

// ---- Shoving ---------------------------------------------------------------------

/// Element `j` has settled when the turn of `i` comes: it is drawn, and pinned
/// or earlier.
pub open spec fn settled_before(
    checked: &CheckedNetlist,
    pinned: Seq<bool>,
    i: int,
    j: int,
) -> bool {
    &&& 0 <= j < checked.elements@.len()
    &&& j != i
    &&& is_drawn(checked, j)
    &&& pinned[j] || j < i
}

/// At this origin, element `i` would overlap a settled one.
pub open spec fn blocked(
    spots: Seq<Spot>,
    checked: &CheckedNetlist,
    pinned: Seq<bool>,
    i: int,
    at: GridPoint,
) -> bool {
    exists|j: int| #[trigger]
        settled_before(checked, pinned, i, j) && overlapping(
            moved_to(tight(spots, checked, i), at),
            footprint(spots, checked, j),
        )
}

/// At this origin, the texts and glyphs of element `i` would be in the way of
/// a settled one.
pub open spec fn crowded(
    spots: Seq<Spot>,
    checked: &CheckedNetlist,
    prefs: Seq<Option<VertPref>>,
    pinned: Seq<bool>,
    i: int,
    at: GridPoint,
) -> bool {
    exists|j: int| #[trigger]
        settled_before(checked, pinned, i, j) && overlapping(
            moved_to(roomy(spots, checked, prefs, i), at),
            moved_to(roomy(spots, checked, prefs, j), spots[j].origin),
        )
}

/// The spots with element `i` displaced.
pub open spec fn displaced(spots: Seq<Spot>, i: int, d: (i32, i32)) -> Seq<Spot> {
    spots.update(
        i,
        Spot {
            origin: GridPoint {
                x: (spots[i].origin.x + d.0) as i32,
                y: (spots[i].origin.y + d.1) as i32,
            },
            orientation: spots[i].orientation,
        },
    )
}

/// A displacement is legal: the element is clear of all settled ones, and no
/// pins are shorted that were not before.
pub open spec fn legal_moves(
    spots: Seq<Spot>,
    checked: &CheckedNetlist,
    pinned: Seq<bool>,
    i: int,
) -> spec_fn((i32, i32)) -> bool {
    |d: (i32, i32)|
        !blocked(spots, checked, pinned, i, displaced(spots, i, d)[i].origin) && clashes(
            displaced(spots, i, d),
            checked,
        ) <= clashes(spots, checked)
}

/// A displacement is legal and leaves room for texts and glyphs.
pub open spec fn roomy_moves(
    spots: Seq<Spot>,
    checked: &CheckedNetlist,
    prefs: Seq<Option<VertPref>>,
    pinned: Seq<bool>,
    i: int,
) -> spec_fn((i32, i32)) -> bool {
    |d: (i32, i32)|
        legal_moves(spots, checked, pinned, i)(d) && !crowded(
            spots,
            checked,
            prefs,
            pinned,
            i,
            displaced(spots, i, d)[i].origin,
        )
}

/// Some displacement within reach is as asked.
pub open spec fn any_move(p: spec_fn((i32, i32)) -> bool) -> bool {
    exists|d: (i32, i32)| in_square(MAX_SHOVE_CELLS as int, d) && #[trigger] p(d)
}

/// The displacement is the first of those within reach that are as asked.
pub open spec fn is_nearest(p: spec_fn((i32, i32)) -> bool, d: (i32, i32)) -> bool {
    &&& in_square(MAX_SHOVE_CELLS as int, d)
    &&& p(d)
    &&& forall|e: (i32, i32)|
        in_square(MAX_SHOVE_CELLS as int, e) && #[trigger] p(e) ==> e == d || tried_before(d, e)
}

/// The displacement of an element that is in the way: the nearest roomy one,
/// failing that the nearest legal one.
pub open spec fn shove_of(
    spots: Seq<Spot>,
    checked: &CheckedNetlist,
    prefs: Seq<Option<VertPref>>,
    pinned: Seq<bool>,
    i: int,
) -> Option<(i32, i32)> {
    let (wide, legal) = (
        roomy_moves(spots, checked, prefs, pinned, i),
        legal_moves(spots, checked, pinned, i),
    );
    if any_move(wide) {
        Some(choose|d: (i32, i32)| is_nearest(wide, d))
    } else if any_move(legal) {
        Some(choose|d: (i32, i32)| is_nearest(legal, d))
    } else {
        None
    }
}

/// The spots after the turn of element `i`.
pub open spec fn settle(
    spots: Seq<Spot>,
    checked: &CheckedNetlist,
    prefs: Seq<Option<VertPref>>,
    pinned: Seq<bool>,
    i: int,
) -> Seq<Spot> {
    if !is_drawn(checked, i) || pinned[i] || !blocked(
        spots,
        checked,
        pinned,
        i,
        spots[i].origin,
    ) {
        spots
    } else {
        match shove_of(spots, checked, prefs, pinned, i) {
            Some(d) => displaced(spots, i, d),
            None => spots,
        }
    }
}

/// The spots after the turns of the first `n` elements.
pub open spec fn settled(
    spots: Seq<Spot>,
    checked: &CheckedNetlist,
    prefs: Seq<Option<VertPref>>,
    pinned: Seq<bool>,
    n: int,
) -> Seq<Spot>
    decreases n,
{
    if n <= 0 {
        spots
    } else {
        settle(settled(spots, checked, prefs, pinned, n - 1), checked, prefs, pinned, n - 1)
    }
}

/// The legalized spots. Should more pins be shorted in the end than in the
/// beginning, everything stays as it was.
pub open spec fn legalized(
    spots: Seq<Spot>,
    checked: &CheckedNetlist,
    prefs: Seq<Option<VertPref>>,
    pinned: Seq<bool>,
) -> Seq<Spot> {
    let after = settled(spots, checked, prefs, pinned, checked.elements@.len() as int);
    if clashes(after, checked) > clashes(spots, checked) {
        spots
    } else {
        after
    }
}

/// The element has another spot.
pub open spec fn differ(a: Seq<Spot>, b: Seq<Spot>) -> spec_fn(int) -> bool {
    |i: int| a[i] != b[i]
}

/// How many elements are at different spots.
pub open spec fn moved_count(a: Seq<Spot>, b: Seq<Spot>) -> int {
    count(differ(a, b), a.len() as int) as int
}

/// What shoving guarantees after the turns of the first `n` elements: poses
/// stay, pinned and later elements stay, and nothing goes farther than the
/// reach of a shove.
pub open spec fn only_shoved(a: Seq<Spot>, b: Seq<Spot>, pinned: Seq<bool>, n: int) -> bool {
    &&& a.len() == b.len()
    &&& forall|i: int|
        0 <= i < a.len() ==> {
            &&& (#[trigger] b[i]).orientation == a[i].orientation
            &&& pinned[i] || i >= n ==> b[i] == a[i]
            &&& a[i].origin.x - MAX_SHOVE_CELLS <= b[i].origin.x <= a[i].origin.x + MAX_SHOVE_CELLS
            &&& a[i].origin.y - MAX_SHOVE_CELLS <= b[i].origin.y <= a[i].origin.y + MAX_SHOVE_CELLS
        }
}

/// Of the displacements that are as asked, there is a first.
proof fn nearest_in(p: spec_fn((i32, i32)) -> bool, ring: Seq<(i32, i32)>, k: int)
    requires
        is_ring(ring, MAX_SHOVE_CELLS as int),
        0 <= k < ring.len(),
        p(ring[k]),
        forall|m: int| 0 <= m < k ==> !p(#[trigger] ring[m]),
    ensures
        any_move(p),
        is_nearest(p, ring[k]),
        (choose|d: (i32, i32)| is_nearest(p, d)) == ring[k],
{
    let d = ring[k];
    assert(ring.contains(d));
    assert forall|e: (i32, i32)|
        in_square(MAX_SHOVE_CELLS as int, e) && #[trigger] p(e) implies e == d || tried_before(
        d,
        e,
    ) by {
        assert(ring.contains(e));
        let m = choose|m: int| 0 <= m < ring.len() && ring[m] == e;
        if m > k {
            assert(tried_before(ring[k], ring[m]));
        }
    }
    assert(is_nearest(p, d));
    let c = choose|d: (i32, i32)| is_nearest(p, d);
    assert(is_nearest(p, c));
    assert(p(c) && p(d));
}

proof fn none_in(p: spec_fn((i32, i32)) -> bool, ring: Seq<(i32, i32)>)
    requires
        is_ring(ring, MAX_SHOVE_CELLS as int),
        forall|m: int| 0 <= m < ring.len() ==> !p(#[trigger] ring[m]),
    ensures
        !any_move(p),
{
    if any_move(p) {
        let d = choose|d: (i32, i32)| in_square(MAX_SHOVE_CELLS as int, d) && #[trigger] p(d);
        assert(ring.contains(d));
        let m = choose|m: int| 0 <= m < ring.len() && ring[m] == d;
    }
}

/// A number that grows in the order in which displacements are tried.
spec fn try_number(d: (i32, i32)) -> int {
    (((manhattan(d) * 13 + chebyshev(d)) * 13 + abs(d.1 as int)) * 25 + (d.0 + 12)) * 25 + (d.1
        + 12)
}

proof fn numbers_grow(a: (i32, i32), b: (i32, i32))
    requires
        in_square(MAX_SHOVE_CELLS as int, a),
        in_square(MAX_SHOVE_CELLS as int, b),
        tried_before(a, b),
    ensures
        0 <= try_number(a) < try_number(b),
{
}

/// Whenever some displacement is as asked, there is a nearest one.
proof fn nearest_exists(p: spec_fn((i32, i32)) -> bool, d: (i32, i32))
    requires
        in_square(MAX_SHOVE_CELLS as int, d),
        p(d),
    ensures
        exists|c: (i32, i32)| is_nearest(p, c),
    decreases try_number(d),
{
    if !is_nearest(p, d) {
        let e = choose|e: (i32, i32)|
            in_square(MAX_SHOVE_CELLS as int, e) && #[trigger] p(e) && e != d && !tried_before(
                d,
                e,
            );
        assert(tried_before(e, d));
        numbers_grow(e, d);
        nearest_exists(p, e);
    }
}

/// A shove is a legal displacement within reach, and a roomy one if there is
/// any. Only an element without a legal place stays where it is.
pub proof fn shoves_are_legal(
    spots: Seq<Spot>,
    checked: &CheckedNetlist,
    prefs: Seq<Option<VertPref>>,
    pinned: Seq<bool>,
    i: int,
)
    ensures
        match shove_of(spots, checked, prefs, pinned, i) {
            Some(d) => {
                &&& in_square(MAX_SHOVE_CELLS as int, d)
                &&& legal_moves(spots, checked, pinned, i)(d)
                &&& any_move(roomy_moves(spots, checked, prefs, pinned, i)) ==> is_nearest(
                    roomy_moves(spots, checked, prefs, pinned, i),
                    d,
                )
                &&& !any_move(roomy_moves(spots, checked, prefs, pinned, i)) ==> is_nearest(
                    legal_moves(spots, checked, pinned, i),
                    d,
                )
            },
            None => !any_move(legal_moves(spots, checked, pinned, i)),
        },
{
    let wide = roomy_moves(spots, checked, prefs, pinned, i);
    let legal = legal_moves(spots, checked, pinned, i);
    if any_move(wide) {
        let d = choose|d: (i32, i32)| in_square(MAX_SHOVE_CELLS as int, d) && #[trigger] wide(d);
        nearest_exists(wide, d);
    } else if any_move(legal) {
        let d = choose|d: (i32, i32)| in_square(MAX_SHOVE_CELLS as int, d) && #[trigger] legal(d);
        nearest_exists(legal, d);
    }
}

proof fn settling_only_shoves(
    spots: Seq<Spot>,
    checked: &CheckedNetlist,
    prefs: Seq<Option<VertPref>>,
    pinned: Seq<bool>,
    n: int,
)
    requires
        0 <= n <= spots.len(),
        spots_within(spots, MAX_COORD - MAX_SHOVE_CELLS),
    ensures
        only_shoved(spots, settled(spots, checked, prefs, pinned, n), pinned, n),
    decreases n,
{
    if n > 0 {
        settling_only_shoves(spots, checked, prefs, pinned, n - 1);
        let before = settled(spots, checked, prefs, pinned, n - 1);
        let after = settled(spots, checked, prefs, pinned, n);
        shoves_are_legal(before, checked, prefs, pinned, n - 1);
        assert(before[n - 1] == spots[n - 1]);
        assert(spots[n - 1].origin.within(MAX_COORD - MAX_SHOVE_CELLS));
        assert forall|i: int| 0 <= i < spots.len() implies {
            &&& (#[trigger] after[i]).orientation == spots[i].orientation
            &&& pinned[i] || i >= n ==> after[i] == spots[i]
            &&& spots[i].origin.x - MAX_SHOVE_CELLS <= after[i].origin.x <= spots[i].origin.x
                + MAX_SHOVE_CELLS
            &&& spots[i].origin.y - MAX_SHOVE_CELLS <= after[i].origin.y <= spots[i].origin.y
                + MAX_SHOVE_CELLS
        } by {
            assert(before[i].orientation == spots[i].orientation);
        }
    }
}

proof fn settling_stays_near(
    spots: Seq<Spot>,
    checked: &CheckedNetlist,
    prefs: Seq<Option<VertPref>>,
    pinned: Seq<bool>,
    n: int,
)
    requires
        0 <= n <= spots.len(),
        spots_within(spots, MAX_COORD - MAX_SHOVE_CELLS),
    ensures
        spots_within(settled(spots, checked, prefs, pinned, n), MAX_COORD as int),
        settled(spots, checked, prefs, pinned, n).len() == spots.len(),
{
    settling_only_shoves(spots, checked, prefs, pinned, n);
    let after = settled(spots, checked, prefs, pinned, n);
    assert forall|i: int| 0 <= i < after.len() implies (#[trigger] after[i]).origin.within(
        MAX_COORD as int,
    ) by {
        assert(spots[i].origin.within(MAX_COORD - MAX_SHOVE_CELLS));
    }
}

/// Legalization keeps every pose, moves no pinned element, moves nothing
/// farther than the reach of a shove, and shorts no more pins than were
/// shorted before.
pub proof fn legalizing_is_safe(
    spots: Seq<Spot>,
    checked: &CheckedNetlist,
    prefs: Seq<Option<VertPref>>,
    pinned: Seq<bool>,
)
    requires
        spots.len() == checked.elements@.len(),
        spots_within(spots, MAX_COORD - MAX_SHOVE_CELLS),
    ensures
        only_shoved(
            spots,
            legalized(spots, checked, prefs, pinned),
            pinned,
            spots.len() as int,
        ),
        clashes(legalized(spots, checked, prefs, pinned), checked) <= clashes(spots, checked),
{
    settling_only_shoves(spots, checked, prefs, pinned, spots.len() as int);
}

/// A layout in which no drawn element is in the way of another stays as it is.
pub proof fn legal_layouts_stay(
    spots: Seq<Spot>,
    checked: &CheckedNetlist,
    prefs: Seq<Option<VertPref>>,
    pinned: Seq<bool>,
    n: int,
)
    requires
        forall|i: int, j: int|
            0 <= i < checked.elements@.len() && 0 <= j < checked.elements@.len() && i != j
                && is_drawn(checked, i) && is_drawn(checked, j) ==> !(#[trigger] elements_overlap(
                spots,
                checked,
                i,
                j,
            )),
        n <= checked.elements@.len(),
    ensures
        settled(spots, checked, prefs, pinned, n) == spots,
        n == checked.elements@.len() ==> legalized(spots, checked, prefs, pinned) == spots,
    decreases n,
{
    if n > 0 {
        legal_layouts_stay(spots, checked, prefs, pinned, n - 1);
        let i = n - 1;
        if is_drawn(checked, i) && blocked(spots, checked, pinned, i, spots[i].origin) {
            let j = choose|j: int| #[trigger]
                settled_before(checked, pinned, i, j) && overlapping(
                    moved_to(tight(spots, checked, i), spots[i].origin),
                    footprint(spots, checked, j),
                );
            assert(elements_overlap(spots, checked, i, j));
        }
    }
}

/// An element that settling has moved overlaps none of the elements that had
/// settled before it.
pub proof fn shoved_elements_are_clear(
    spots: Seq<Spot>,
    checked: &CheckedNetlist,
    prefs: Seq<Option<VertPref>>,
    pinned: Seq<bool>,
    n: int,
    i: int,
    j: int,
)
    requires
        0 <= i < n <= spots.len(),
        spots.len() == checked.elements@.len(),
        spots_within(spots, MAX_COORD - MAX_SHOVE_CELLS),
        settled(spots, checked, prefs, pinned, n)[i] != spots[i],
        settled_before(checked, pinned, i, j),
    ensures
        !elements_overlap(settled(spots, checked, prefs, pinned, n), checked, i, j),
    decreases n,
{
    settling_only_shoves(spots, checked, prefs, pinned, n - 1);
    settling_only_shoves(spots, checked, prefs, pinned, n);
    let before = settled(spots, checked, prefs, pinned, n - 1);
    let after = settled(spots, checked, prefs, pinned, n);
    assert(before[i].orientation == spots[i].orientation);
    assert(before[j].orientation == spots[j].orientation);
    assert(before[n - 1] == spots[n - 1]);
    if i < n - 1 {
        assert(before[i] == after[i]);
        assert(before[j] == after[j]) by {
            if j == n - 1 {
                assert(pinned[j]);
            }
        }
        shoved_elements_are_clear(spots, checked, prefs, pinned, n - 1, i, j);
        assert(footprint(after, checked, i) == footprint(before, checked, i));
        assert(footprint(after, checked, j) == footprint(before, checked, j));
    } else {
        shoves_are_legal(before, checked, prefs, pinned, i);
        let d = shove_of(before, checked, prefs, pinned, i)->0;
        assert(after == displaced(before, i, d));
        assert(after[j] == before[j]);
        assert(!blocked(before, checked, pinned, i, after[i].origin));
        assert(tight(after, checked, i) == tight(before, checked, i));
        assert(footprint(after, checked, j) == footprint(before, checked, j));
    }
}

/// Element `i` is in the way when its turn comes, and there is no legal place
/// for it within reach.
pub open spec fn is_stuck(
    spots: Seq<Spot>,
    checked: &CheckedNetlist,
    prefs: Seq<Option<VertPref>>,
    pinned: Seq<bool>,
    i: int,
) -> bool {
    let before = settled(spots, checked, prefs, pinned, i);
    &&& blocked(before, checked, pinned, i, before[i].origin)
    &&& !any_move(legal_moves(before, checked, pinned, i))
}

proof fn overlaps_are_stuck(
    spots: Seq<Spot>,
    checked: &CheckedNetlist,
    prefs: Seq<Option<VertPref>>,
    pinned: Seq<bool>,
    n: int,
    i: int,
    j: int,
)
    requires
        0 <= i < n <= spots.len(),
        spots.len() == checked.elements@.len(),
        spots_within(spots, MAX_COORD - MAX_SHOVE_CELLS),
        is_drawn(checked, i),
        !pinned[i],
        settled_before(checked, pinned, i, j),
        elements_overlap(settled(spots, checked, prefs, pinned, n), checked, i, j),
    ensures
        is_stuck(spots, checked, prefs, pinned, i),
    decreases n,
{
    settling_only_shoves(spots, checked, prefs, pinned, n - 1);
    settling_only_shoves(spots, checked, prefs, pinned, n);
    let before = settled(spots, checked, prefs, pinned, n - 1);
    let after = settled(spots, checked, prefs, pinned, n);
    assert(before[i].orientation == spots[i].orientation);
    assert(before[j].orientation == spots[j].orientation);
    assert(before[n - 1] == spots[n - 1]);
    if i < n - 1 {
        assert(before[i] == after[i]);
        assert(before[j] == after[j]) by {
            if j == n - 1 {
                assert(pinned[j]);
            }
        }
        assert(footprint(after, checked, i) == footprint(before, checked, i));
        assert(footprint(after, checked, j) == footprint(before, checked, j));
        overlaps_are_stuck(spots, checked, prefs, pinned, n - 1, i, j);
    } else {
        shoves_are_legal(before, checked, prefs, pinned, i);
        if blocked(before, checked, pinned, i, before[i].origin) {
            match shove_of(before, checked, prefs, pinned, i) {
                Some(d) => {
                    assert(after == displaced(before, i, d));
                    assert(after[j] == before[j]);
                    assert(!blocked(before, checked, pinned, i, after[i].origin));
                    assert(tight(after, checked, i) == tight(before, checked, i));
                    assert(footprint(after, checked, j) == footprint(before, checked, j));
                },
                None => {},
            }
        } else {
            assert(after == before);
        }
    }
}

/// Where the pass is not abandoned, the only overlaps that are left among drawn
/// elements are those of two pinned ones and those of an element that no legal
/// place within reach could be found for.
pub proof fn legalized_layouts_are_clear(
    spots: Seq<Spot>,
    checked: &CheckedNetlist,
    prefs: Seq<Option<VertPref>>,
    pinned: Seq<bool>,
    i: int,
    j: int,
)
    requires
        spots.len() == checked.elements@.len(),
        spots_within(spots, MAX_COORD - MAX_SHOVE_CELLS),
        clashes(
            settled(spots, checked, prefs, pinned, spots.len() as int),
            checked,
        ) <= clashes(spots, checked),
        0 <= i < spots.len(),
        0 <= j < spots.len(),
        i != j,
        is_drawn(checked, i),
        is_drawn(checked, j),
        elements_overlap(legalized(spots, checked, prefs, pinned), checked, i, j),
    ensures
        pinned[i] && pinned[j] || (!pinned[i] && is_stuck(spots, checked, prefs, pinned, i)) || (
        !pinned[j] && is_stuck(spots, checked, prefs, pinned, j)),
{
    let n = spots.len() as int;
    let after = settled(spots, checked, prefs, pinned, n);
    overlap_is_mutual(footprint(after, checked, i), footprint(after, checked, j));
    if !(pinned[i] && pinned[j]) {
        if pinned[j] || (!pinned[i] && j < i) {
            overlaps_are_stuck(spots, checked, prefs, pinned, n, i, j);
        } else {
            overlaps_are_stuck(spots, checked, prefs, pinned, n, j, i);
        }
    }
}

/// What a shove has to know of the elements: their tight and roomy extents,
/// and the order in which displacements are tried.
struct ShoveCtx {
    extents: Vec<WorldExtent>,
    roomy: Vec<WorldExtent>,
    ring: Vec<(i32, i32)>,
}

impl ShoveCtx {
    spec fn of(&self, spots: Seq<Spot>, checked: &CheckedNetlist, prefs: Seq<Option<VertPref>>) -> bool {
        &&& self.extents@.len() == checked.elements@.len()
        &&& self.roomy@.len() == checked.elements@.len()
        &&& is_ring(self.ring@, MAX_SHOVE_CELLS as int)
        &&& forall|i: int|
            0 <= i < self.extents@.len() ==> (#[trigger] self.extents@[i])@ == tight(
                spots,
                checked,
                i,
            ) && self.extents@[i]@.within(EXTENT_LIMIT as int)
        &&& forall|i: int|
            0 <= i < self.roomy@.len() ==> (#[trigger] self.roomy@[i])@ == roomy(
                spots,
                checked,
                prefs,
                i,
            ) && self.roomy@[i]@.within(EXTENT_LIMIT as int)
    }
}

/// Extents depend on poses alone.
proof fn ctx_keeps(
    ctx: ShoveCtx,
    a: Seq<Spot>,
    b: Seq<Spot>,
    checked: &CheckedNetlist,
    prefs: Seq<Option<VertPref>>,
)
    requires
        ctx.of(a, checked, prefs),
        a.len() == checked.elements@.len(),
        b.len() == a.len(),
        forall|i: int| 0 <= i < a.len() ==> (#[trigger] b[i]).orientation == a[i].orientation,
    ensures
        ctx.of(b, checked, prefs),
{
    assert forall|i: int| 0 <= i < ctx.extents@.len() implies (#[trigger] ctx.extents@[i])@
        == tight(b, checked, i) && ctx.extents@[i]@.within(EXTENT_LIMIT as int) by {
        assert(b[i].orientation == a[i].orientation);
    }
    assert forall|i: int| 0 <= i < ctx.roomy@.len() implies (#[trigger] ctx.roomy@[i])@ == roomy(
        b,
        checked,
        prefs,
        i,
    ) && ctx.roomy@[i]@.within(EXTENT_LIMIT as int) by {
        assert(b[i].orientation == a[i].orientation);
    }
}

/// Whether element `i`, with the given extents, is in the way of a settled
/// one at an origin.
fn is_blocked(
    placement: &Placement,
    checked: &CheckedNetlist,
    pinned: &Vec<bool>,
    extents: &Vec<WorldExtent>,
    i: usize,
    at: GridPoint,
) -> (r: bool)
    requires
        placement.elements@.len() == checked.elements@.len(),
        pinned@.len() == checked.elements@.len(),
        placement.within(MAX_COORD as int),
        i < checked.elements@.len(),
        at.within(MAX_COORD as int),
        extents@.len() == checked.elements@.len(),
        forall|k: int|
            0 <= k < extents@.len() ==> (#[trigger] extents@[k])@.within(EXTENT_LIMIT as int),
    ensures
        r == exists|j: int| #[trigger]
            settled_before(checked, pinned@, i as int, j) && overlapping(
                moved_to(extents@[i as int]@, at),
                moved_to(extents@[j]@, placement.spots()[j].origin),
            ),
{
    assert(extents@[i as int]@.within(EXTENT_LIMIT as int));
    let mine = footprint_at(&extents[i], at);
    let mut j: usize = 0;
    while j < checked.elements.len()
        invariant
            j <= checked.elements@.len(),
            placement.elements@.len() == checked.elements@.len(),
            pinned@.len() == checked.elements@.len(),
            placement.within(MAX_COORD as int),
            i < checked.elements@.len(),
            extents@.len() == checked.elements@.len(),
            forall|k: int|
                0 <= k < extents@.len() ==> (#[trigger] extents@[k])@.within(EXTENT_LIMIT as int),
            mine@ == moved_to(extents@[i as int]@, at),
            on_sheet(mine@),
            forall|k: int|
                0 <= k < j && #[trigger] settled_before(checked, pinned@, i as int, k)
                    ==> !overlapping(
                    moved_to(extents@[i as int]@, at),
                    moved_to(extents@[k]@, placement.spots()[k].origin),
                ),
        decreases checked.elements@.len() - j,
    {
        if j != i && !checked.elements[j].role.power() && (pinned[j] || j < i) {
            assert(settled_before(checked, pinned@, i as int, j as int));
            assert(placement.spots()[j as int].origin.within(MAX_COORD as int));
            assert(extents@[j as int]@.within(EXTENT_LIMIT as int));
            let theirs = footprint_at(&extents[j], placement.elements[j].origin);
            if mine.overlaps(theirs) {
                return true;
            }
        }
        j = j + 1;
    }
    false
}

/// The nearest place for an element that is in the way of a settled one, as a
/// displacement.
fn shove_one(
    placement: &mut Placement,
    checked: &CheckedNetlist,
    pinned: &Vec<bool>,
    i: usize,
    ctx: &ShoveCtx,
    Ghost(prefs): Ghost<Seq<Option<VertPref>>>,
) -> (r: Option<(i32, i32)>)
    requires
        checked.drawable(),
        places(&*old(placement), checked),
        pinned@.len() == checked.elements@.len(),
        i < checked.elements@.len(),
        old(placement).within(MAX_COORD as int),
        old(placement).spots()[i as int].origin.within(MAX_COORD - MAX_SHOVE_CELLS),
        ctx.of(old(placement).spots(), checked, prefs),
    ensures
        same_parts(*old(placement), *final(placement)),
        final(placement).spots() == old(placement).spots(),
        r == shove_of(old(placement).spots(), checked, prefs, pinned@, i as int),
{
    let ghost spots = placement.spots();
    let ghost legal = legal_moves(spots, checked, pinned@, i as int);
    let ghost wide = roomy_moves(spots, checked, prefs, pinned@, i as int);
    let origin = placement.elements[i].origin;
    let turned = placement.elements[i].orientation;
    assert(spots[i as int] == (Spot { origin, orientation: turned }));
    let base: u128 = foreign_pin_coincidences(placement, checked);
    let mut fallback: Option<(i32, i32)> = None;
    let mut k: usize = 0;
    while k < ctx.ring.len()
        invariant
            k <= ctx.ring@.len(),
            checked.drawable(),
            places(&*old(placement), checked),
            same_parts(*old(placement), *placement),
            placement.elements@.len() == checked.elements@.len(),
            placement.spots() == spots,
            spots == old(placement).spots(),
            pinned@.len() == checked.elements@.len(),
            i < checked.elements@.len(),
            spots.len() == checked.elements@.len(),
            spots_within(spots, MAX_COORD as int),
            spots[i as int] == (Spot { origin, orientation: turned }),
            origin.within(MAX_COORD - MAX_SHOVE_CELLS),
            ctx.of(spots, checked, prefs),
            base == clashes(spots, checked),
            legal == legal_moves(spots, checked, pinned@, i as int),
            wide == roomy_moves(spots, checked, prefs, pinned@, i as int),
            forall|m: int| 0 <= m < k ==> !wide(#[trigger] ctx.ring@[m]),
            match fallback {
                Some(d) => exists|m: int|
                    0 <= m < k && #[trigger] ctx.ring@[m] == d && legal(d) && forall|l: int|
                        0 <= l < m ==> !legal(#[trigger] ctx.ring@[l]),
                None => forall|m: int| 0 <= m < k ==> !legal(#[trigger] ctx.ring@[m]),
            },
        decreases ctx.ring@.len() - k,
    {
        let d: (i32, i32) = ctx.ring[k];
        assert(ctx.ring@.contains(d));
        assert(in_square(MAX_SHOVE_CELLS as int, d));
        let at = GridPoint::new(origin.x + d.0, origin.y + d.1);
        let ghost trial = displaced(spots, i as int, d);
        assert(trial[i as int].origin == at);
        if !is_blocked(placement, checked, pinned, &ctx.extents, i, at) {
            proof {
                assert(!blocked(spots, checked, pinned@, i as int, at)) by {
                    if blocked(spots, checked, pinned@, i as int, at) {
                        let j = choose|j: int| #[trigger]
                            settled_before(checked, pinned@, i as int, j) && overlapping(
                                moved_to(tight(spots, checked, i as int), at),
                                footprint(spots, checked, j),
                            );
                        assert(ctx.extents@[i as int]@ == tight(spots, checked, i as int));
                        assert(ctx.extents@[j]@ == tight(spots, checked, j));
                        assert(settled_before(checked, pinned@, i as int, j));
                    }
                }
            }
            let ghost prior = *placement;
            put(placement, i, at, turned);
            proof {
                assert(placement.spots() =~= trial);
                same_parts_trans(*old(placement), prior, *placement);
                moving_keeps_the_netlist(*old(placement), *placement, checked);
                assert forall|j: int| 0 <= j < trial.len() implies (
                #[trigger] trial[j]).origin.within(MAX_COORD as int) by {
                    assert(spots[j].origin.within(MAX_COORD as int));
                }
            }
            let after: u128 = foreign_pin_coincidences(placement, checked);
            let ghost moved = *placement;
            put(placement, i, origin, turned);
            proof {
                assert(placement.spots() =~= spots);
                same_parts_trans(*old(placement), moved, *placement);
                assert(legal(d) == (after <= base));
            }
            if after <= base {
                let full = is_blocked(placement, checked, pinned, &ctx.roomy, i, at);
                proof {
                    assert(full == crowded(spots, checked, prefs, pinned@, i as int, at)) by {
                        assert(ctx.roomy@[i as int]@ == roomy(spots, checked, prefs, i as int));
                        if full {
                            let j = choose|j: int| #[trigger]
                                settled_before(checked, pinned@, i as int, j) && overlapping(
                                    moved_to(ctx.roomy@[i as int]@, at),
                                    moved_to(ctx.roomy@[j]@, spots[j].origin),
                                );
                            assert(ctx.roomy@[j]@ == roomy(spots, checked, prefs, j));
                        }
                        if crowded(spots, checked, prefs, pinned@, i as int, at) {
                            let j = choose|j: int| #[trigger]
                                settled_before(checked, pinned@, i as int, j) && overlapping(
                                    moved_to(roomy(spots, checked, prefs, i as int), at),
                                    moved_to(
                                        roomy(spots, checked, prefs, j),
                                        spots[j].origin,
                                    ),
                                );
                            assert(ctx.roomy@[j]@ == roomy(spots, checked, prefs, j));
                        }
                    }
                }
                if !full {
                    proof {
                        assert(wide(d));
                        nearest_in(wide, ctx.ring@, k as int);
                    }
                    return Some(d);
                }
                if fallback.is_none() {
                    assert(ctx.ring@[k as int] == d);
                    fallback = Some(d);
                }
            }
        } else {
            proof {
                assert(blocked(spots, checked, pinned@, i as int, at)) by {
                    let j = choose|j: int| #[trigger]
                        settled_before(checked, pinned@, i as int, j) && overlapping(
                            moved_to(ctx.extents@[i as int]@, at),
                            moved_to(ctx.extents@[j]@, spots[j].origin),
                        );
                    assert(ctx.extents@[i as int]@ == tight(spots, checked, i as int));
                    assert(ctx.extents@[j]@ == tight(spots, checked, j));
                    assert(settled_before(checked, pinned@, i as int, j));
                }
                assert(!legal(d));
            }
        }
        k = k + 1;
    }
    proof {
        none_in(wide, ctx.ring@);
        match fallback {
            Some(d) => {
                let m = choose|m: int|
                    0 <= m < ctx.ring@.len() && #[trigger] ctx.ring@[m] == d && legal(d)
                        && forall|l: int| 0 <= l < m ==> !legal(#[trigger] ctx.ring@[l]);
                nearest_in(legal, ctx.ring@, m);
            },
            None => {
                none_in(legal, ctx.ring@);
            },
        }
    }
    fallback
}

/// Shoves elements that overlap apart. Pinned elements stay. Returns how many
/// elements have moved.
pub fn legalize(
    placement: &mut Placement,
    pinned: &Vec<bool>,
    checked: &CheckedNetlist,
    prefs: &Vec<Option<VertPref>>,
) -> (r: usize)
    requires
        checked.drawable(),
        places(&*old(placement), checked),
        pinned@.len() == checked.elements@.len(),
        prefs@.len() == checked.nets@.len(),
        old(placement).within(MAX_COORD - MAX_SHOVE_CELLS),
    ensures
        same_parts(*old(placement), *final(placement)),
        final(placement).spots() == legalized(old(placement).spots(), checked, prefs@, pinned@),
        r == moved_count(old(placement).spots(), final(placement).spots()),
{
    let ghost start = placement.spots();
    let n: usize = checked.elements.len();
    proof {
        settling_stays_near(start, checked, prefs@, pinned@, 0);
    }
    let extents = tight_extents(placement, checked);
    let mut roomy_list: Vec<WorldExtent> = Vec::new();
    let mut origins: Vec<GridPoint> = Vec::new();
    let mut i: usize = 0;
    while i < n
        invariant
            i <= n,
            n == checked.elements@.len(),
            checked.drawable(),
            placement.elements@.len() == n,
            prefs@.len() == checked.nets@.len(),
            start == placement.spots(),
            roomy_list@.len() == i,
            origins@.len() == i,
            forall|k: int|
                0 <= k < i ==> (#[trigger] roomy_list@[k])@ == roomy(start, checked, prefs@, k)
                    && roomy_list@[k]@.within(EXTENT_LIMIT as int),
            forall|k: int| 0 <= k < i ==> #[trigger] origins@[k] == start[k].origin,
        decreases n - i,
    {
        let e = &checked.elements[i];
        assert(checked.elements@[i as int].symbol.wf());
        assert(nets_in_range(checked.elements@[i as int].nodes@, checked.nets@.len()));
        proof {
            roomy_limited(checked, start, prefs@, i as int);
        }
        let ext = world_extent_with_glyphs(e, placement.elements[i].orientation, &e.value, prefs);
        roomy_list.push(ext);
        origins.push(placement.elements[i].origin);
        i = i + 1;
    }
    let ctx = ShoveCtx { extents, roomy: roomy_list, ring: displacement_ring(MAX_SHOVE_CELLS) };
    assert(ctx.of(start, checked, prefs@));
    let before: u128 = foreign_pin_coincidences(placement, checked);
    let mut i: usize = 0;
    while i < n
        invariant
            i <= n,
            n == checked.elements@.len(),
            checked.drawable(),
            places(&*old(placement), checked),
            same_parts(*old(placement), *placement),
            placement.elements@.len() == n,
            pinned@.len() == n,
            prefs@.len() == checked.nets@.len(),
            start.len() == n,
            spots_within(start, MAX_COORD - MAX_SHOVE_CELLS),
            ctx.of(start, checked, prefs@),
            placement.spots() == settled(start, checked, prefs@, pinned@, i as int),
        decreases n - i,
    {
        let ghost now = placement.spots();
        proof {
            settling_only_shoves(start, checked, prefs@, pinned@, i as int);
            settling_stays_near(start, checked, prefs@, pinned@, i as int);
            settling_stays_near(start, checked, prefs@, pinned@, i + 1);
            ctx_keeps(ctx, start, now, checked, prefs@);
            assert(now[i as int] == start[i as int]);
            assert(start[i as int].origin.within(MAX_COORD - MAX_SHOVE_CELLS));
        }
        if !checked.elements[i].role.power() && !pinned[i] {
            let origin = placement.elements[i].origin;
            let turned = placement.elements[i].orientation;
            assert(now[i as int] == (Spot { origin, orientation: turned }));
            let here = is_blocked(placement, checked, pinned, &ctx.extents, i, origin);
            proof {
                assert(here == blocked(now, checked, pinned@, i as int, origin)) by {
                    assert(ctx.extents@[i as int]@ == tight(now, checked, i as int));
                    if here {
                        let j = choose|j: int| #[trigger]
                            settled_before(checked, pinned@, i as int, j) && overlapping(
                                moved_to(ctx.extents@[i as int]@, origin),
                                moved_to(ctx.extents@[j]@, now[j].origin),
                            );
                        assert(ctx.extents@[j]@ == tight(now, checked, j));
                    }
                    if blocked(now, checked, pinned@, i as int, origin) {
                        let j = choose|j: int| #[trigger]
                            settled_before(checked, pinned@, i as int, j) && overlapping(
                                moved_to(tight(now, checked, i as int), origin),
                                footprint(now, checked, j),
                            );
                        assert(ctx.extents@[j]@ == tight(now, checked, j));
                    }
                }
            }
            if here {
                let ghost prior = *placement;
                proof {
                    moving_keeps_the_netlist(*old(placement), *placement, checked);
                }
                let found = shove_one(placement, checked, pinned, i, &ctx, Ghost(prefs@));
                proof {
                    same_parts_trans(*old(placement), prior, *placement);
                    shoves_are_legal(now, checked, prefs@, pinned@, i as int);
                }
                if let Some(d) = found {
                    let ghost mid = *placement;
                    let at = GridPoint::new(origin.x + d.0, origin.y + d.1);
                    put(placement, i, at, turned);
                    proof {
                        same_parts_trans(*old(placement), mid, *placement);
                        assert(placement.spots() =~= displaced(now, i as int, d));
                    }
                }
            }
        }
        i = i + 1;
    }
    proof {
        settling_only_shoves(start, checked, prefs@, pinned@, n as int);
        settling_stays_near(start, checked, prefs@, pinned@, n as int);
        moving_keeps_the_netlist(*old(placement), *placement, checked);
    }
    let ghost after = placement.spots();
    let now: u128 = foreign_pin_coincidences(placement, checked);
    if now > before {
        let mut i: usize = 0;
        while i < n
            invariant
                i <= n,
                n == checked.elements@.len(),
                same_parts(*old(placement), *placement),
                placement.elements@.len() == n,
                start.len() == n,
                origins@.len() == n,
                forall|k: int| 0 <= k < n ==> #[trigger] origins@[k] == start[k].origin,
                after.len() == n,
                forall|k: int|
                    0 <= k < n ==> (#[trigger] after[k]).orientation == start[k].orientation,
                forall|k: int| 0 <= k < i ==> #[trigger] placement.spots()[k] == start[k],
                forall|k: int| i <= k < n ==> #[trigger] placement.spots()[k] == after[k],
            decreases n - i,
        {
            let turned = placement.elements[i].orientation;
            assert(placement.spots()[i as int].orientation == turned);
            assert(after[i as int].orientation == start[i as int].orientation);
            let ghost prior = *placement;
            put(placement, i, origins[i], turned);
            proof {
                same_parts_trans(*old(placement), prior, *placement);
                assert(start[i as int] == (Spot {
                    origin: origins@[i as int],
                    orientation: turned,
                }));
            }
            i = i + 1;
        }
        proof {
            assert(placement.spots() =~= start);
        }
    }
    let ghost end = placement.spots();
    let ghost p = differ(start, end);
    let mut moved: usize = 0;
    let mut i: usize = 0;
    while i < n
        invariant
            i <= n,
            n == checked.elements@.len(),
            placement.elements@.len() == n,
            end == placement.spots(),
            start.len() == n,
            origins@.len() == n,
            forall|k: int| 0 <= k < n ==> #[trigger] origins@[k] == start[k].origin,
            forall|k: int| 0 <= k < n ==> (#[trigger] end[k]).orientation == start[k].orientation,
            p == differ(start, end),
            moved <= i,
            moved == count(p, i as int),
        decreases n - i,
    {
        let at = placement.elements[i].origin;
        assert(end[i as int].origin == at);
        assert(end[i as int].orientation == start[i as int].orientation);
        if at.x != origins[i].x || at.y != origins[i].y {
            moved = moved + 1;
        }
        i = i + 1;
    }
    moved
}

/// Rectangles that share an area of two micrometres each way overlap, and
/// overlapping ones share a point inside both. Apart, edge to edge or a
/// micrometre into each other they do not overlap.
pub proof fn overlaps_share_an_area(a: Bounds, b: Bounds, x: int, y: int)
    requires
        a.min_x < a.max_x && a.min_y < a.max_y,
        b.min_x < b.max_x && b.min_y < b.max_y,
    ensures
        a.min_x <= x && x + 2 <= a.max_x && b.min_x <= x && x + 2 <= b.max_x && a.min_y <= y && y
            + 2 <= a.max_y && b.min_y <= y && y + 2 <= b.max_y ==> overlapping(a, b),
        a.max_x <= b.min_x + 1 || b.max_x <= a.min_x + 1 || a.max_y <= b.min_y + 1 || b.max_y
            <= a.min_y + 1 ==> !overlapping(a, b),
        a.max_x > b.min_x + 1 && b.max_x > a.min_x + 1 && a.max_y > b.min_y + 1 && b.max_y
            > a.min_y + 1 ==> overlapping(a, b),
{
}

/// A footprint is the extent about the element's origin, which is counted in
/// steps of 1.27 mm.
pub proof fn footprints_lie_about_the_origin(ext: Bounds, at: GridPoint)
    ensures
        moved_to(ext, at).min_x == at.x * 1270 + ext.min_x,
        moved_to(ext, at).max_x == at.x * 1270 + ext.max_x,
        moved_to(ext, at).min_y == at.y * 1270 + ext.min_y,
        moved_to(ext, at).max_y == at.y * 1270 + ext.max_y,
{
}

/// A shorter way is tried before a longer one whichever way they go, and of
/// ways equally long the more even one. Sideways comes before up and down,
/// left before right and up before down.
pub proof fn shoves_try_the_nearest_first(a: i32, b: i32, c: i32, d: i32)
    requires
        a >= 0,
        b >= 0,
        c > 0,
        d > 0,
    ensures
        forall|p: (i32, i32), q: (i32, i32)|
            #![trigger tried_before(p, q)]
            (p.0 == a || p.0 == -a) && (p.1 == b || p.1 == -b) && (q.0 == c || q.0 == -c) && (q.1
                == d || q.1 == -d) ==> {
                &&& a + b < c + d ==> tried_before(p, q)
                &&& c + d < a + b ==> !tried_before(p, q)
                &&& a + b == c + d && c < a && d < a ==> !tried_before(p, q)
                &&& a + b == c + d && a < c && b < c ==> tried_before(p, q)
                &&& a == d && b == c && b < a ==> tried_before(p, q)
                &&& a == c && b == d && p.0 < q.0 ==> tried_before(p, q)
                &&& a == c && b == d && p.0 == q.0 && p.1 < q.1 ==> tried_before(p, q)
            },
{
}

/// Nothing is shoved more than twelve steps along either axis, nothing that is
/// pinned is shoved, and no supply is.
pub proof fn shoves_stay_within_twelve_steps(
    spots: Seq<Spot>,
    checked: &CheckedNetlist,
    prefs: Seq<Option<VertPref>>,
    pinned: Seq<bool>,
    i: int,
)
    requires
        spots.len() == checked.elements@.len(),
        spots_within(spots, MAX_COORD - MAX_SHOVE_CELLS),
        0 <= i < spots.len(),
    ensures
        ({
            let after = legalized(spots, checked, prefs, pinned);
            &&& -12 <= after[i].origin.x - spots[i].origin.x <= 12
            &&& -12 <= after[i].origin.y - spots[i].origin.y <= 12
            &&& pinned[i] || checked.elements@[i].role is Power ==> after[i] == spots[i]
        }),
{
    legalizing_is_safe(spots, checked, prefs, pinned);
    let after = legalized(spots, checked, prefs, pinned);
    assert(after[i].orientation == spots[i].orientation);
    undrawn_stay(spots, checked, prefs, pinned, i, spots.len() as int);
}

proof fn undrawn_stay(
    spots: Seq<Spot>,
    checked: &CheckedNetlist,
    prefs: Seq<Option<VertPref>>,
    pinned: Seq<bool>,
    i: int,
    n: int,
)
    requires
        0 <= i < spots.len(),
        n <= spots.len(),
    ensures
        settled(spots, checked, prefs, pinned, n).len() == spots.len(),
        !is_drawn(checked, i) ==> settled(spots, checked, prefs, pinned, n)[i] == spots[i],
    decreases n,
{
    if n > 0 {
        undrawn_stay(spots, checked, prefs, pinned, i, n - 1);
    }
}

} // verus!
