//! The seed placement: layers give the columns, bands give the rows.
//!
//! Columns are as far apart as the extents of their elements need. Within a
//! column, elements of one slot are stacked, and alternate left and right of
//! the column's line.

use vstd::prelude::*;

use crate::bands::{assign_y_bands, Band, BandAssignment};
#[allow(unused_imports)]
use crate::bands::{band_of, has_class};
use crate::constraints::{apply_user_constraints, UnresolvedPlace};
#[allow(unused_imports)]
use crate::constraints::{
    blank, constrained, directives_move_what_they_pin, lists_unresolved, unresolved,
    work_ignores_positions,
};
#[allow(unused_imports)]
use crate::counting::{count, count_bound};
#[allow(unused_imports)]
use crate::extent::{
    body_points, extent_with_glyphs, extents_are_limited, hull, hull_push, hull_within, int_max,
    points_within, stride_steps, Bounds, EXTENT_LIMIT,
};
use crate::extent::{up_to_cells, world_extent_with_glyphs, WorldExtent, MIN_CLEARANCE};
use crate::glyph_geom::glyph_reach;
#[allow(unused_imports)]
use crate::glyph_geom::{glyph_points, glyph_points_in_reach};
use crate::layers::{assign_x_layers_with, LayerAssignment};
#[allow(unused_imports)]
use crate::layers::{fallback_of, has_source, layers_fit, source_layers_of};
use crate::net_class::{classify_nets, vertical_prefs, VertPref};
#[allow(unused_imports)]
use crate::net_class::NetClass;
use crate::netlist::{CheckedNetlist, ElementRole, ResolvedElement};
#[allow(unused_imports)]
use crate::netlist::nets_in_range;
#[allow(unused_imports)]
use crate::orient::prefs_of;
#[allow(unused_imports)]
use crate::placement::{
    layout_of, places, spots_within, stands_for, Layout, Spot, MAX_COORD, MAX_ELEMENTS,
};
use crate::placement::{GridPoint, PlacedElement, Placement, GRID_STEP};
use crate::placer::Placer;
use crate::symbol::Orientation;
#[allow(unused_imports)]
use crate::symbol::orientation_at;

verus! {

/// Steps between two elements of a stack.
pub const Y_RANK_STRIDE: i32 = 5;

/// Least distance between two columns, in grid steps.
pub const X_STRIDE_FLOOR: i32 = 12;

/// Farthest that an element stands beside its column's line, in grid steps.
pub const MAX_JITTER: i32 = 2;

/// Steps between a rail row and the middle band.
pub const Y_BAND_GAP: i32 = 6;

/// Half the height of a cell, in micrometres. A body that reaches farther than
/// this above or below its origin is oversized.
pub const CELL_HALF_HEIGHT: i64 = 3810;

/// The seed stays within this many grid steps of the sheet's origin.
pub const SEED_SPREAD: i32 = 140_000_000;

/// The row of a column that an element is stacked in.
#[derive(Debug, Clone, Copy, PartialEq, Eq, Structural)]
pub enum Slot {
    Top,
    MidUp,
    MidCtr,
    MidLo,
    Bot,
}

/// The slot of a band: the middle band is split by how high the element aims.
pub open spec fn slot_of(b: BandAssignment) -> Slot {
    match b.band {
        Band::Top => Slot::Top,
        Band::Bot => Slot::Bot,
        Band::Mid => if 10 * b.soft_y_target_sixths < 4 * 6 {
            Slot::MidUp
        } else if 10 * b.soft_y_target_sixths > 6 * 6 {
            Slot::MidLo
        } else {
            Slot::MidCtr
        },
    }
}

/// The class of every net.
pub open spec fn class_list(checked: &CheckedNetlist) -> Seq<Option<NetClass>> {
    Seq::new(checked.nets@.len(), |net: int| checked.class_of(net))
}

/// The slot of an element.
pub open spec fn slot_at(checked: &CheckedNetlist, i: int) -> Slot {
    slot_of(band_of(checked.elements@[i], class_list(checked)))
}

// ---- Columns ----------------------------------------------------------------

/// The room that an element needs in its column: body, pins and power glyphs.
pub open spec fn column_extent(checked: &CheckedNetlist, i: int) -> Bounds {
    extent_with_glyphs(checked.elements@[i], orientation_at(0), None, prefs_of(checked))
}

/// How far the first `n` elements reach right of the line of column `l`.
pub open spec fn reach_right(checked: &CheckedNetlist, layers: Seq<u32>, l: int, n: int) -> int
    decreases n,
{
    if n <= 0 {
        0
    } else {
        let rest = reach_right(checked, layers, l, n - 1);
        if layers[n - 1] == l {
            int_max(rest, column_extent(checked, n - 1).max_x)
        } else {
            rest
        }
    }
}

/// How far the first `n` elements reach left of the line of column `l`.
pub open spec fn reach_left(checked: &CheckedNetlist, layers: Seq<u32>, l: int, n: int) -> int
    decreases n,
{
    if n <= 0 {
        0
    } else {
        let rest = reach_left(checked, layers, l, n - 1);
        if layers[n - 1] == l {
            int_max(rest, -column_extent(checked, n - 1).min_x)
        } else {
            rest
        }
    }
}

/// The steps from column `l - 1` to column `l`: what both columns reach, the
/// clearance and the jitter on both sides.
pub open spec fn column_stride(checked: &CheckedNetlist, layers: Seq<u32>, l: int) -> int {
    let n = checked.elements@.len() as int;
    int_max(
        stride_steps(
            reach_right(checked, layers, l - 1, n) + reach_left(checked, layers, l, n)
                + MIN_CLEARANCE + 2 * (MAX_JITTER * GRID_STEP),
        ),
        X_STRIDE_FLOOR as int,
    )
}

/// The X of the line of column `l`.
pub open spec fn column_line(checked: &CheckedNetlist, layers: Seq<u32>, l: int) -> int
    decreases l,
{
    if l <= 0 {
        0
    } else {
        column_line(checked, layers, l - 1) + column_stride(checked, layers, l)
    }
}

proof fn column_extent_limited(checked: &CheckedNetlist, i: int)
    requires
        checked.drawable(),
        0 <= i < checked.elements@.len(),
    ensures
        column_extent(checked, i).within(EXTENT_LIMIT as int),
{
    assert(checked.elements@[i].symbol.wf());
    extents_are_limited(checked.elements@[i], orientation_at(0), None, prefs_of(checked));
}

proof fn reach_limited(checked: &CheckedNetlist, layers: Seq<u32>, l: int, n: int)
    requires
        checked.drawable(),
        n <= checked.elements@.len(),
    ensures
        0 <= reach_right(checked, layers, l, n) <= EXTENT_LIMIT,
        0 <= reach_left(checked, layers, l, n) <= EXTENT_LIMIT,
    decreases n,
{
    if n > 0 {
        reach_limited(checked, layers, l, n - 1);
        column_extent_limited(checked, n - 1);
    }
}

/// Every element of a column reaches no farther than the column does.
proof fn reach_covers(checked: &CheckedNetlist, layers: Seq<u32>, i: int, n: int)
    requires
        0 <= i < n,
    ensures
        column_extent(checked, i).max_x <= reach_right(checked, layers, layers[i] as int, n),
        -column_extent(checked, i).min_x <= reach_left(checked, layers, layers[i] as int, n),
    decreases n,
{
    if i < n - 1 {
        reach_covers(checked, layers, i, n - 1);
    }
}

proof fn column_line_limited(checked: &CheckedNetlist, layers: Seq<u32>, l: int)
    requires
        checked.drawable(),
        0 <= l,
    ensures
        0 <= column_line(checked, layers, l) <= 2000 * l,
    decreases l,
{
    if l > 0 {
        column_line_limited(checked, layers, l - 1);
        reach_limited(checked, layers, l - 1, checked.elements@.len() as int);
        reach_limited(checked, layers, l, checked.elements@.len() as int);
    }
}

// ---- Stacks -----------------------------------------------------------------

/// The room of the body alone.
pub open spec fn body_bounds(e: ResolvedElement) -> Bounds {
    hull(body_points(e.symbol.posed(orientation_at(0)).body))
}

/// The body is taller than the cell that stacks reserve.
pub open spec fn oversized(e: ResolvedElement) -> bool {
    let b = body_bounds(e);
    int_max(b.max_y, -b.min_y) > CELL_HALF_HEIGHT
}

/// The room of the body and the power glyphs.
pub open spec fn tall_bounds(e: ResolvedElement, prefs: Seq<Option<VertPref>>) -> Bounds {
    hull(
        body_points(e.symbol.posed(orientation_at(0)).body) + glyph_points(
            e,
            orientation_at(0),
            prefs,
            e.nodes@.len() as int,
        ),
    )
}

/// Element `j` is in the same column and slot as element `i`.
pub open spec fn same_bucket(
    checked: &CheckedNetlist,
    layers: Seq<u32>,
    i: int,
    j: int,
) -> bool {
    layers[j] == layers[i] && slot_at(checked, j) == slot_at(checked, i)
}

/// The oversized elements among the first `n` that share a bucket with `i`:
/// how many there are, and how far they reach down and up.
pub open spec fn bucket_reach(
    checked: &CheckedNetlist,
    layers: Seq<u32>,
    i: int,
    n: int,
) -> (int, int, int)
    decreases n,
{
    if n <= 0 {
        (0, 0, 0)
    } else {
        let rest = bucket_reach(checked, layers, i, n - 1);
        let e = checked.elements@[n - 1];
        if same_bucket(checked, layers, i, n - 1) && oversized(e) {
            let b = tall_bounds(e, prefs_of(checked));
            (rest.0 + 1, int_max(rest.1, b.max_y), int_max(rest.2, -b.min_y))
        } else {
            rest
        }
    }
}

/// The steps between neighbours in the bucket of element `i`. Two or more
/// oversized elements push the stack apart as far as they need.
pub open spec fn bucket_stride(checked: &CheckedNetlist, layers: Seq<u32>, i: int) -> int {
    let (many, down, up) = bucket_reach(checked, layers, i, checked.elements@.len() as int);
    if many >= 2 {
        int_max(stride_steps(down + up + MIN_CLEARANCE), Y_RANK_STRIDE as int)
    } else {
        Y_RANK_STRIDE as int
    }
}

/// The element shares column and slot with element `i`.
pub open spec fn in_bucket(checked: &CheckedNetlist, layers: Seq<u32>, i: int) -> spec_fn(
    int,
) -> bool {
    |j: int| same_bucket(checked, layers, i, j)
}

/// The place of element `i` in its stack.
pub open spec fn bucket_rank(checked: &CheckedNetlist, layers: Seq<u32>, i: int) -> int {
    count(in_bucket(checked, layers, i), i) as int
}

/// How far the element of a rank stands beside the line: left and right in
/// turn, and never farther than [`MAX_JITTER`].
pub open spec fn jitter(rank: int) -> int {
    let raw = if rank % 2 == 0 {
        -(rank / 2)
    } else {
        (rank + 1) / 2
    };
    if raw < -MAX_JITTER {
        -MAX_JITTER
    } else if raw > MAX_JITTER {
        MAX_JITTER as int
    } else {
        raw
    }
}

/// The row that the stacks of a slot start from, on a sheet with `n` elements.
pub open spec fn slot_row(slot: Slot, n: int) -> int {
    let bottom = (n + 4) * Y_RANK_STRIDE;
    let span = int_max(1, bottom - 2 * Y_BAND_GAP);
    match slot {
        Slot::Top => 0,
        Slot::MidUp => Y_BAND_GAP + span / 4,
        Slot::MidCtr => Y_BAND_GAP + span / 2,
        Slot::MidLo => Y_BAND_GAP + (3 * span) / 4,
        Slot::Bot => bottom,
    }
}

/// Where the seed puts element `i`. Stacks grow down, and the bottom stack
/// grows up.
pub open spec fn seed_at(checked: &CheckedNetlist, layers: Seq<u32>, i: int) -> (int, int) {
    let rank = bucket_rank(checked, layers, i);
    let row = slot_row(slot_at(checked, i), checked.elements@.len() as int);
    let drop = rank * bucket_stride(checked, layers, i);
    (
        column_line(checked, layers, layers[i] as int) + jitter(rank),
        if slot_at(checked, i) == Slot::Bot {
            row - drop
        } else {
            row + drop
        },
    )
}

/// The seed layout: every element upright at its place, nothing pinned.
pub open spec fn seeded(checked: &CheckedNetlist, layers: Seq<u32>) -> Layout {
    Layout {
        spots: Seq::new(
            checked.elements@.len(),
            |i: int|
                Spot {
                    origin: GridPoint {
                        x: seed_at(checked, layers, i).0 as i32,
                        y: seed_at(checked, layers, i).1 as i32,
                    },
                    orientation: orientation_at(0),
                },
        ),
        pinned: Seq::new(checked.elements@.len(), |i: int| false),
    }
}

/// The layers are a layer assignment of the netlist under the placer.
pub open spec fn is_assignment(checked: &CheckedNetlist, placer: Placer, asg: LayerAssignment) -> bool {
    &&& layers_fit(asg, checked.elements@.len())
    &&& has_source(checked) ==> source_layers_of(checked, class_list(checked), asg)
    &&& !has_source(checked) ==> fallback_of(
        checked,
        class_list(checked),
        placer.flow_seed_layering,
        asg,
    )
}

proof fn tall_limited(e: ResolvedElement, prefs: Seq<Option<VertPref>>)
    requires
        e.symbol.wf(),
    ensures
        tall_bounds(e, prefs).within(EXTENT_LIMIT as int),
        body_bounds(e).within(EXTENT_LIMIT as int),
{
    let o = orientation_at(0);
    assert(e.symbol.poses@[0].wf());
    let b = body_points(e.symbol.posed(o).body);
    let g = glyph_points(e, o, prefs, e.nodes@.len() as int);
    let limit = EXTENT_LIMIT as int;
    assert(points_within(b, limit));
    hull_within(b, limit);
    glyph_points_in_reach(e, o, prefs, e.nodes@.len() as int);
    assert forall|k: int| 0 <= k < (b + g).len() implies -limit <= (#[trigger] (b + g)[k]).0
        <= limit && -limit <= (b + g)[k].1 <= limit by {
        if k < b.len() {
            assert((b + g)[k] == b[k]);
        } else {
            assert((b + g)[k] == g[k - b.len()]);
        }
    }
    hull_within(b + g, limit);
}

proof fn bucket_reach_limited(checked: &CheckedNetlist, layers: Seq<u32>, i: int, n: int)
    requires
        checked.drawable(),
        n <= checked.elements@.len(),
    ensures
        ({
            let r = bucket_reach(checked, layers, i, n);
            &&& 0 <= r.0 <= int_max(n, 0)
            &&& 0 <= r.1 <= EXTENT_LIMIT
            &&& 0 <= r.2 <= EXTENT_LIMIT
        }),
    decreases n,
{
    if n > 0 {
        bucket_reach_limited(checked, layers, i, n - 1);
        assert(checked.elements@[n - 1].symbol.wf());
        tall_limited(checked.elements@[n - 1], prefs_of(checked));
    }
}

/// Every oversized element of a bucket reaches no farther than the bucket.
proof fn bucket_reach_covers(
    checked: &CheckedNetlist,
    layers: Seq<u32>,
    i: int,
    j: int,
    n: int,
)
    requires
        0 <= j < n,
        same_bucket(checked, layers, i, j),
        oversized(checked.elements@[j]),
    ensures
        bucket_reach(checked, layers, i, n).0 >= 1,
        tall_bounds(checked.elements@[j], prefs_of(checked)).max_y <= bucket_reach(
            checked,
            layers,
            i,
            n,
        ).1,
        -tall_bounds(checked.elements@[j], prefs_of(checked)).min_y <= bucket_reach(
            checked,
            layers,
            i,
            n,
        ).2,
    decreases n,
{
    bucket_count(checked, layers, i, n - 1);
    if j < n - 1 {
        bucket_reach_covers(checked, layers, i, j, n - 1);
    }
}

proof fn bucket_count(checked: &CheckedNetlist, layers: Seq<u32>, i: int, n: int)
    ensures
        bucket_reach(checked, layers, i, n).0 >= 0,
    decreases n,
{
    if n > 0 {
        bucket_count(checked, layers, i, n - 1);
    }
}

proof fn bucket_stride_limited(checked: &CheckedNetlist, layers: Seq<u32>, i: int)
    requires
        checked.drawable(),
    ensures
        Y_RANK_STRIDE <= bucket_stride(checked, layers, i) <= 2000,
{
    bucket_reach_limited(checked, layers, i, checked.elements@.len() as int);
}

proof fn rank_limited(checked: &CheckedNetlist, layers: Seq<u32>, i: int)
    requires
        0 <= i,
    ensures
        0 <= bucket_rank(checked, layers, i) <= i,
{
    count_bound(in_bucket(checked, layers, i), i);
}

proof fn seed_limited(checked: &CheckedNetlist, layers: Seq<u32>, i: int)
    requires
        checked.drawable(),
        0 <= i < checked.elements@.len(),
        layers[i] <= checked.elements@.len() + 1,
    ensures
        ({
            let p = seed_at(checked, layers, i);
            -SEED_SPREAD <= p.0 <= SEED_SPREAD && -SEED_SPREAD <= p.1 <= SEED_SPREAD
        }),
{
    column_line_limited(checked, layers, layers[i] as int);
    rank_limited(checked, layers, i);
    bucket_stride_limited(checked, layers, i);
    let rank = bucket_rank(checked, layers, i);
    let s = bucket_stride(checked, layers, i);
    assert(0 <= rank * s <= 65536 * 2000) by (nonlinear_arith)
        requires
            0 <= rank <= 65536,
            0 <= s <= 2000,
    ;
}

/// The seed is on the sheet.
pub proof fn seed_is_on_the_sheet(checked: &CheckedNetlist, asg: LayerAssignment)
    requires
        checked.drawable(),
        layers_fit(asg, checked.elements@.len()),
    ensures
        seeded(checked, asg.layers@).sized(checked.elements@.len() as int),
        spots_within(seeded(checked, asg.layers@).spots, SEED_SPREAD as int),
{
    let l = seeded(checked, asg.layers@);
    assert forall|i: int| 0 <= i < l.spots.len() implies (#[trigger] l.spots[i]).origin.within(
        SEED_SPREAD as int,
    ) by {
        seed_limited(checked, asg.layers@, i);
    }
}

/// In the seed, two elements of neighbouring columns keep their clearance
/// whatever their rows: jitter included, the extent on the left ends a
/// clearance before the one on the right begins.
pub proof fn seed_columns_keep_clear(
    checked: &CheckedNetlist,
    layers: Seq<u32>,
    i: int,
    j: int,
)
    requires
        0 <= i < checked.elements@.len(),
        0 <= j < checked.elements@.len(),
        layers[j] == layers[i] + 1,
    ensures
        seed_at(checked, layers, i).0 * GRID_STEP + column_extent(checked, i).max_x + MIN_CLEARANCE
            <= seed_at(checked, layers, j).0 * GRID_STEP + column_extent(checked, j).min_x,
{
    let n = checked.elements@.len() as int;
    reach_covers(checked, layers, i, n);
    reach_covers(checked, layers, j, n);
    let l = layers[j] as int;
    assert(column_line(checked, layers, l) == column_line(checked, layers, l - 1) + column_stride(
        checked,
        layers,
        l,
    ));
    let a = seed_at(checked, layers, i).0;
    let b = seed_at(checked, layers, j).0;
    let s = column_stride(checked, layers, l);
    assert(b - a >= s - 2 * MAX_JITTER);
    let need = reach_right(checked, layers, l - 1, n) + reach_left(checked, layers, l, n)
        + MIN_CLEARANCE + 2 * (MAX_JITTER * GRID_STEP);
    assert(s * 1270 >= need);
    assert(b * 1270 - a * 1270 >= (s - 4) * 1270);
}

/// In the seed, the stacks keep the rails outside: the top row starts above
/// every middle row, and these start above the bottom row, in the order of
/// what the elements aim for.
pub proof fn seed_rows_are_ordered(n: int)
    requires
        n >= 0,
    ensures
        slot_row(Slot::Top, n) < slot_row(Slot::MidUp, n),
        slot_row(Slot::MidUp, n) < slot_row(Slot::MidCtr, n),
        slot_row(Slot::MidCtr, n) < slot_row(Slot::MidLo, n),
        slot_row(Slot::MidLo, n) < slot_row(Slot::Bot, n),
{
}

/// Two oversized elements that follow each other in a stack keep their
/// clearance.
pub proof fn seed_stacks_keep_clear(
    checked: &CheckedNetlist,
    layers: Seq<u32>,
    i: int,
    j: int,
    at: int,
)
    requires
        0 <= i < j < checked.elements@.len(),
        same_bucket(checked, layers, i, j),
        oversized(checked.elements@[i]),
        oversized(checked.elements@[j]),
    ensures
        ({
            let a = tall_bounds(checked.elements@[i], prefs_of(checked));
            let b = tall_bounds(checked.elements@[j], prefs_of(checked));
            let below = (at + bucket_stride(checked, layers, i)) * GRID_STEP;
            &&& at * GRID_STEP + a.max_y + MIN_CLEARANCE <= below + b.min_y
            &&& at * GRID_STEP + b.max_y + MIN_CLEARANCE <= below + a.min_y
        }),
{
    let n = checked.elements@.len() as int;
    bucket_reach_covers(checked, layers, i, i, n);
    bucket_reach_covers(checked, layers, i, j, n);
    two_in_bucket(checked, layers, i, i, j, n);
    let s = bucket_stride(checked, layers, i);
    assert((at + s) * GRID_STEP == at * GRID_STEP + s * GRID_STEP) by (nonlinear_arith);
}

proof fn two_in_bucket(
    checked: &CheckedNetlist,
    layers: Seq<u32>,
    b: int,
    i: int,
    j: int,
    n: int,
)
    requires
        0 <= i < j < n,
        same_bucket(checked, layers, b, i),
        same_bucket(checked, layers, b, j),
        oversized(checked.elements@[i]),
        oversized(checked.elements@[j]),
    ensures
        bucket_reach(checked, layers, b, n).0 >= 2,
    decreases n,
{
    if j < n - 1 {
        two_in_bucket(checked, layers, b, i, j, n - 1);
    } else {
        bucket_reach_covers(checked, layers, b, i, n - 1);
    }
}

// ---- Placing the seed --------------------------------------------------------

/// How far an oversized element reaches below and above its origin, glyphs
/// included; nothing for an element that fits its cell.
fn tall_reach(e: &ResolvedElement, prefs: &Vec<Option<VertPref>>) -> (r: Option<(i64, i64)>)
    requires
        e.symbol.wf(),
        nets_in_range(e.nodes@, prefs@.len()),
    ensures
        match r {
            Some(p) => {
                &&& oversized(*e)
                &&& p.0 == tall_bounds(*e, prefs@).max_y
                &&& p.1 == -tall_bounds(*e, prefs@).min_y
                &&& 0 <= p.0 <= EXTENT_LIMIT
                &&& 0 <= p.1 <= EXTENT_LIMIT
            },
            None => !oversized(*e),
        },
{
    let up = Orientation::identity();
    let pose = e.symbol.pose(up);
    let ghost points = body_points(pose.body);
    proof {
        tall_limited(*e, prefs@);
    }
    let mut ext = WorldExtent::origin();
    if let Some(b) = &pose.body {
        let (x0, y0, x1, y1): (i64, i64, i64, i64) = (
            b.x0 as i64,
            b.y0 as i64,
            b.x1 as i64,
            b.y1 as i64,
        );
        ext.grow(x0, -y0);
        ext.grow(x0, -y1);
        ext.grow(x1, -y0);
        ext.grow(x1, -y1);
        proof {
            let none: Seq<(int, int)> = seq![];
            hull_push(none, points[0]);
            hull_push(none.push(points[0]), points[1]);
            hull_push(none.push(points[0]).push(points[1]), points[2]);
            hull_push(none.push(points[0]).push(points[1]).push(points[2]), points[3]);
            assert(none.push(points[0]).push(points[1]).push(points[2]).push(points[3]) =~= points);
        }
    }
    assert(ext@ == hull(points));
    if ext.max_y <= CELL_HALF_HEIGHT && -ext.min_y <= CELL_HALF_HEIGHT {
        return None;
    }
    let reach = glyph_reach(e, up, prefs);
    let ghost glyphs = glyph_points(*e, up, prefs@, e.nodes@.len() as int);
    assert(points + glyphs.take(0) =~= points);
    let mut k: usize = 0;
    while k < reach.len()
        invariant
            k <= reach@.len(),
            reach@.len() == glyphs.len(),
            forall|j: int|
                0 <= j < glyphs.len() ==> ((#[trigger] reach@[j]).0 as int, reach@[j].1 as int)
                    == glyphs[j],
            ext@ == hull(points + glyphs.take(k as int)),
        decreases reach@.len() - k,
    {
        let (dx, dy): (i64, i64) = reach[k];
        ext.grow(dx, dy);
        proof {
            assert((dx as int, dy as int) == glyphs[k as int]);
            hull_push(points + glyphs.take(k as int), glyphs[k as int]);
            assert((points + glyphs.take(k as int)).push(glyphs[k as int]) =~= points + glyphs.take(
                k + 1,
            ));
        }
        k = k + 1;
    }
    assert(points + glyphs.take(k as int) =~= points + glyphs);
    Some((ext.max_y, -ext.min_y))
}

/// The stride of every element's stack.
fn bucket_y_strides(
    checked: &CheckedNetlist,
    layers: &Vec<u32>,
    slots: &Vec<Slot>,
    prefs: &Vec<Option<VertPref>>,
) -> (r: Vec<i32>)
    requires
        checked.drawable(),
        layers@.len() == checked.elements@.len(),
        slots@.len() == checked.elements@.len(),
        forall|i: int| 0 <= i < slots@.len() ==> #[trigger] slots@[i] == slot_at(checked, i),
        prefs@ == prefs_of(checked),
    ensures
        r@.len() == checked.elements@.len(),
        forall|i: int|
            0 <= i < r@.len() ==> #[trigger] r@[i] == bucket_stride(checked, layers@, i),
{
    let n: usize = checked.elements.len();
    let mut tall: Vec<Option<(i64, i64)>> = Vec::new();
    let mut i: usize = 0;
    while i < n
        invariant
            i <= n,
            n == checked.elements@.len(),
            checked.drawable(),
            prefs@ == prefs_of(checked),
            tall@.len() == i,
            forall|j: int|
                0 <= j < i ==> match #[trigger] tall@[j] {
                    Some(p) => {
                        let b = tall_bounds(checked.elements@[j], prefs@);
                        &&& oversized(checked.elements@[j])
                        &&& p.0 == b.max_y
                        &&& p.1 == -b.min_y
                        &&& 0 <= p.0 <= EXTENT_LIMIT
                        &&& 0 <= p.1 <= EXTENT_LIMIT
                    },
                    None => !oversized(checked.elements@[j]),
                },
        decreases n - i,
    {
        assert(checked.elements@[i as int].symbol.wf());
        assert(nets_in_range(checked.elements@[i as int].nodes@, checked.nets@.len()));
        let reach = tall_reach(&checked.elements[i], prefs);
        tall.push(reach);
        i = i + 1;
    }
    let mut out: Vec<i32> = Vec::new();
    let mut i: usize = 0;
    while i < n
        invariant
            i <= n,
            n == checked.elements@.len(),
            checked.drawable(),
            layers@.len() == n,
            slots@.len() == n,
            forall|k: int| 0 <= k < slots@.len() ==> #[trigger] slots@[k] == slot_at(checked, k),
            prefs@ == prefs_of(checked),
            tall@.len() == n,
            forall|j: int|
                0 <= j < n ==> match #[trigger] tall@[j] {
                    Some(p) => {
                        let b = tall_bounds(checked.elements@[j], prefs@);
                        &&& oversized(checked.elements@[j])
                        &&& p.0 == b.max_y
                        &&& p.1 == -b.min_y
                        &&& 0 <= p.0 <= EXTENT_LIMIT
                        &&& 0 <= p.1 <= EXTENT_LIMIT
                    },
                    None => !oversized(checked.elements@[j]),
                },
            out@.len() == i,
            forall|j: int| 0 <= j < i ==> #[trigger] out@[j] == bucket_stride(checked, layers@, j),
        decreases n - i,
    {
        let mut many: usize = 0;
        let mut down: i64 = 0;
        let mut up: i64 = 0;
        let mut j: usize = 0;
        while j < n
            invariant
                i < n,
                j <= n,
                n == checked.elements@.len(),
                checked.drawable(),
                layers@.len() == n,
                slots@.len() == n,
                forall|k: int|
                    0 <= k < slots@.len() ==> #[trigger] slots@[k] == slot_at(checked, k),
                prefs@ == prefs_of(checked),
                tall@.len() == n,
                forall|k: int|
                    0 <= k < n ==> match #[trigger] tall@[k] {
                        Some(p) => {
                            let b = tall_bounds(checked.elements@[k], prefs@);
                            &&& oversized(checked.elements@[k])
                            &&& p.0 == b.max_y
                            &&& p.1 == -b.min_y
                            &&& 0 <= p.0 <= EXTENT_LIMIT
                            &&& 0 <= p.1 <= EXTENT_LIMIT
                        },
                        None => !oversized(checked.elements@[k]),
                    },
                many <= j,
                0 <= down <= EXTENT_LIMIT,
                0 <= up <= EXTENT_LIMIT,
                (many as int, down as int, up as int) == bucket_reach(
                    checked,
                    layers@,
                    i as int,
                    j as int,
                ),
            decreases n - j,
        {
            assert(slots@[j as int] == slot_at(checked, j as int));
            assert(slots@[i as int] == slot_at(checked, i as int));
            if layers[j] == layers[i] && slots[j] == slots[i] {
                assert(same_bucket(checked, layers@, i as int, j as int));
                if let Some((d, u)) = tall[j] {
                    many = many + 1;
                    if d > down {
                        down = d;
                    }
                    if u > up {
                        up = u;
                    }
                }
            }
            j = j + 1;
        }
        let mut stride: i32 = Y_RANK_STRIDE;
        if many >= 2 {
            let cells: i32 = up_to_cells(down + up + MIN_CLEARANCE);
            if cells > stride {
                stride = cells;
            }
        }
        out.push(stride);
        i = i + 1;
    }
    out
}

/// The line of every column up to the last one in use.
fn column_lines(
    checked: &CheckedNetlist,
    layers: &Vec<u32>,
    prefs: &Vec<Option<VertPref>>,
) -> (r: Vec<i32>)
    requires
        checked.drawable(),
        layers@.len() == checked.elements@.len(),
        forall|i: int| 0 <= i < layers@.len() ==> #[trigger] layers@[i] <= layers@.len() + 1,
        prefs@ == prefs_of(checked),
    ensures
        forall|i: int| 0 <= i < layers@.len() ==> #[trigger] layers@[i] < r@.len(),
        forall|l: int| 0 <= l < r@.len() ==> #[trigger] r@[l] == column_line(checked, layers@, l),
{
    let n: usize = checked.elements.len();
    let mut top: u32 = 0;
    let mut i: usize = 0;
    while i < n
        invariant
            i <= n,
            n == layers@.len(),
            forall|j: int| 0 <= j < layers@.len() ==> #[trigger] layers@[j] <= layers@.len() + 1,
            top <= n + 1,
            forall|j: int| 0 <= j < i ==> #[trigger] layers@[j] <= top,
        decreases n - i,
    {
        if layers[i] > top {
            top = layers[i];
        }
        i = i + 1;
    }
    let mut right: Vec<i64> = Vec::new();
    let mut left: Vec<i64> = Vec::new();
    let mut l: u32 = 0;
    while l <= top
        invariant
            l <= top + 1,
            top < u32::MAX,
            right@.len() == l,
            left@.len() == l,
            forall|k: int| 0 <= k < l ==> #[trigger] right@[k] == 0,
            forall|k: int| 0 <= k < l ==> #[trigger] left@[k] == 0,
        decreases top + 1 - l,
    {
        right.push(0);
        left.push(0);
        l = l + 1;
    }
    let mut i: usize = 0;
    while i < n
        invariant
            i <= n,
            n == layers@.len(),
            n == checked.elements@.len(),
            checked.drawable(),
            prefs@ == prefs_of(checked),
            top < u32::MAX,
            forall|j: int| 0 <= j < n ==> #[trigger] layers@[j] <= top,
            right@.len() == top + 1,
            left@.len() == top + 1,
            forall|k: int|
                0 <= k <= top ==> #[trigger] right@[k] == reach_right(
                    checked,
                    layers@,
                    k,
                    i as int,
                ),
            forall|k: int|
                0 <= k <= top ==> #[trigger] left@[k] == reach_left(checked, layers@, k, i as int),
        decreases n - i,
    {
        let e = &checked.elements[i];
        assert(checked.elements@[i as int].symbol.wf());
        assert(nets_in_range(checked.elements@[i as int].nodes@, checked.nets@.len()));
        let ext = world_extent_with_glyphs(e, Orientation::identity(), &None, prefs);
        proof {
            column_extent_limited(checked, i as int);
        }
        let at: usize = layers[i] as usize;
        if ext.max_x > right[at] {
            right.set(at, ext.max_x);
        }
        if -ext.min_x > left[at] {
            left.set(at, -ext.min_x);
        }
        i = i + 1;
    }
    let mut out: Vec<i32> = Vec::new();
    out.push(0);
    let mut l: u32 = 1;
    while l <= top
        invariant
            1 <= l <= top + 1,
            top < u32::MAX,
            top <= n + 1,
            n <= MAX_ELEMENTS,
            n == checked.elements@.len(),
            checked.drawable(),
            right@.len() == top + 1,
            left@.len() == top + 1,
            forall|k: int|
                0 <= k <= top ==> #[trigger] right@[k] == reach_right(
                    checked,
                    layers@,
                    k,
                    n as int,
                ),
            forall|k: int|
                0 <= k <= top ==> #[trigger] left@[k] == reach_left(checked, layers@, k, n as int),
            out@.len() == l,
            forall|k: int| 0 <= k < l ==> #[trigger] out@[k] == column_line(checked, layers@, k),
        decreases top + 1 - l,
    {
        proof {
            reach_limited(checked, layers@, l - 1, n as int);
            reach_limited(checked, layers@, l as int, n as int);
            column_line_limited(checked, layers@, l - 1);
            column_line_limited(checked, layers@, l as int);
            assert(right@[l - 1] == reach_right(checked, layers@, l - 1, n as int));
            assert(out@[l - 1] == column_line(checked, layers@, l - 1));
        }
        let gap: i64 = right[(l - 1) as usize] + left[l as usize] + MIN_CLEARANCE + 2 * (
        MAX_JITTER as i64 * GRID_STEP);
        let mut stride: i32 = up_to_cells(gap);
        if stride < X_STRIDE_FLOOR {
            stride = X_STRIDE_FLOOR;
        }
        let line: i32 = out[(l - 1) as usize] + stride;
        out.push(line);
        l = l + 1;
    }
    out
}

/// The slot of every element.
fn element_slots(checked: &CheckedNetlist, bands: &Vec<BandAssignment>) -> (r: Vec<Slot>)
    requires
        bands@.len() == checked.elements@.len(),
        forall|i: int|
            0 <= i < bands@.len() ==> #[trigger] bands@[i] == band_of(
                checked.elements@[i],
                class_list(checked),
            ),
    ensures
        r@.len() == checked.elements@.len(),
        forall|i: int| 0 <= i < r@.len() ==> #[trigger] r@[i] == slot_at(checked, i),
{
    let mut out: Vec<Slot> = Vec::new();
    let mut i: usize = 0;
    while i < bands.len()
        invariant
            i <= bands@.len(),
            bands@.len() == checked.elements@.len(),
            forall|k: int|
                0 <= k < bands@.len() ==> #[trigger] bands@[k] == band_of(
                    checked.elements@[k],
                    class_list(checked),
                ),
            out@.len() == i,
            forall|k: int| 0 <= k < i ==> #[trigger] out@[k] == slot_at(checked, k),
        decreases bands@.len() - i,
    {
        let b = bands[i];
        assert(b == band_of(checked.elements@[i as int], class_list(checked)));
        let slot = match b.band {
            Band::Top => Slot::Top,
            Band::Bot => Slot::Bot,
            Band::Mid => if b.soft_y_target_sixths < 3 {
                Slot::MidUp
            } else if b.soft_y_target_sixths > 3 {
                Slot::MidLo
            } else {
                Slot::MidCtr
            },
        };
        out.push(slot);
        i = i + 1;
    }
    out
}

/// The number of elements before `i` in its bucket.
fn rank_of(checked: &CheckedNetlist, layers: &Vec<u32>, slots: &Vec<Slot>, i: usize) -> (r: i32)
    requires
        checked.elements@.len() <= MAX_ELEMENTS,
        i < checked.elements@.len(),
        layers@.len() == checked.elements@.len(),
        slots@.len() == checked.elements@.len(),
        forall|k: int| 0 <= k < slots@.len() ==> #[trigger] slots@[k] == slot_at(checked, k),
    ensures
        r == bucket_rank(checked, layers@, i as int),
        0 <= r <= i,
{
    let ghost p = in_bucket(checked, layers@, i as int);
    let mut rank: i32 = 0;
    let mut j: usize = 0;
    while j < i
        invariant
            j <= i,
            i < checked.elements@.len(),
            checked.elements@.len() <= MAX_ELEMENTS,
            layers@.len() == checked.elements@.len(),
            slots@.len() == checked.elements@.len(),
            forall|k: int| 0 <= k < slots@.len() ==> #[trigger] slots@[k] == slot_at(checked, k),
            p == in_bucket(checked, layers@, i as int),
            0 <= rank <= j,
            rank == count(p, j as int),
        decreases i - j,
    {
        assert(slots@[j as int] == slot_at(checked, j as int));
        assert(slots@[i as int] == slot_at(checked, i as int));
        if layers[j] == layers[i] && slots[j] == slots[i] {
            rank = rank + 1;
        }
        j = j + 1;
    }
    rank
}

fn copy_names(names: &Vec<String>) -> (r: Vec<String>)
    ensures
        r@.len() == names@.len(),
        forall|i: int| 0 <= i < r@.len() ==> (#[trigger] r@[i])@ == names@[i]@,
{
    let mut out: Vec<String> = Vec::new();
    let mut i: usize = 0;
    while i < names.len()
        invariant
            i <= names@.len(),
            out@.len() == i,
            forall|k: int| 0 <= k < i ==> (#[trigger] out@[k])@ == names@[k]@,
        decreases names@.len() - i,
    {
        let name: String = names[i].clone();
        out.push(name);
        i = i + 1;
    }
    out
}

fn copy_nodes(nodes: &Vec<usize>) -> (r: Vec<usize>)
    ensures
        r@ == nodes@,
{
    let mut out: Vec<usize> = Vec::new();
    let mut i: usize = 0;
    while i < nodes.len()
        invariant
            i <= nodes@.len(),
            out@ == nodes@.take(i as int),
        decreases nodes@.len() - i,
    {
        out.push(nodes[i]);
        assert(out@ =~= nodes@.take(i + 1));
        i = i + 1;
    }
    assert(nodes@.take(i as int) =~= nodes@);
    out
}

/// The element upright at a point of the grid.
fn placed_at(e: &ResolvedElement, origin: GridPoint) -> (r: PlacedElement)
    ensures
        stands_for(r, *e),
        r.origin == origin,
        r.orientation == orientation_at(0),
{
    let refdes: String = e.refdes.clone();
    let lib_id: String = e.lib_id.clone();
    let value: Option<String> = match &e.value {
        Some(v) => {
            let text: String = v.clone();
            Some(text)
        },
        None => None,
    };
    let power_rail: Option<String> = match &e.role {
        ElementRole::Power(rail) => {
            let text: String = rail.clone();
            Some(text)
        },
        ElementRole::Normal => None,
    };
    PlacedElement {
        refdes,
        lib_id,
        origin,
        orientation: Orientation::identity(),
        nodes: copy_nodes(&e.nodes),
        pin_mapping: copy_names(&e.pin_mapping),
        value,
        is_power_source: e.role.power(),
        power_rail,
    }
}

/// Puts every element at its place in the columns and rows.
fn seed_elements(checked: &CheckedNetlist, layers: &Vec<u32>) -> (r: Placement)
    requires
        checked.drawable(),
        layers@.len() == checked.elements@.len(),
        forall|i: int| 0 <= i < layers@.len() ==> #[trigger] layers@[i] <= layers@.len() + 1,
    ensures
        places(&r, checked),
        r.spots() == seeded(checked, layers@).spots,
{
    let n: usize = checked.elements.len();
    let classes = classify_nets(checked);
    assert(classes.class@ =~= class_list(checked));
    let bands = assign_y_bands(checked, &classes);
    let prefs = vertical_prefs(checked);
    assert(prefs@ =~= prefs_of(checked));
    let slots = element_slots(checked, &bands);
    let lines = column_lines(checked, layers, &prefs);
    let strides = bucket_y_strides(checked, layers, &slots, &prefs);
    let bottom: i32 = (n as i32 + 4) * Y_RANK_STRIDE;
    let span: i32 = bottom - 2 * Y_BAND_GAP;
    let mut elements: Vec<PlacedElement> = Vec::new();
    let mut i: usize = 0;
    while i < n
        invariant
            i <= n,
            n == checked.elements@.len(),
            checked.drawable(),
            layers@.len() == n,
            forall|k: int| 0 <= k < n ==> #[trigger] layers@[k] <= n + 1,
            slots@.len() == n,
            forall|k: int| 0 <= k < n ==> #[trigger] slots@[k] == slot_at(checked, k),
            forall|k: int| 0 <= k < n ==> #[trigger] layers@[k] < lines@.len(),
            forall|l: int|
                0 <= l < lines@.len() ==> #[trigger] lines@[l] == column_line(checked, layers@, l),
            strides@.len() == n,
            forall|k: int|
                0 <= k < n ==> #[trigger] strides@[k] == bucket_stride(checked, layers@, k),
            bottom == (n + 4) * Y_RANK_STRIDE,
            span == bottom - 2 * Y_BAND_GAP,
            elements@.len() == i,
            forall|k: int|
                0 <= k < i ==> stands_for(#[trigger] elements@[k], checked.elements@[k])
                    && crate::placement::spot_of(elements@[k]) == seeded(
                    checked,
                    layers@,
                ).spots[k],
        decreases n - i,
    {
        let rank: i32 = rank_of(checked, layers, &slots, i);
        proof {
            column_line_limited(checked, layers@, layers@[i as int] as int);
            bucket_stride_limited(checked, layers@, i as int);
            seed_limited(checked, layers@, i as int);
            assert(slots@[i as int] == slot_at(checked, i as int));
            assert(strides@[i as int] == bucket_stride(checked, layers@, i as int));
            let s = strides@[i as int];
            assert(0 <= rank * s <= 65536 * 2000) by (nonlinear_arith)
                requires
                    0 <= rank <= 65536,
                    0 <= s <= 2000,
            ;
        }
        let raw: i32 = if rank % 2 == 0 {
            -(rank / 2)
        } else {
            (rank + 1) / 2
        };
        let aside: i32 = if raw < -MAX_JITTER {
            -MAX_JITTER
        } else if raw > MAX_JITTER {
            MAX_JITTER
        } else {
            raw
        };
        let x: i32 = lines[layers[i] as usize] + aside;
        let drop: i32 = rank * strides[i];
        let y: i32 = match slots[i] {
            Slot::Top => drop,
            Slot::MidUp => Y_BAND_GAP + span / 4 + drop,
            Slot::MidCtr => Y_BAND_GAP + span / 2 + drop,
            Slot::MidLo => Y_BAND_GAP + (3 * span) / 4 + drop,
            Slot::Bot => bottom - drop,
        };
        let e = placed_at(&checked.elements[i], GridPoint::new(x, y));
        elements.push(e);
        i = i + 1;
    }
    let r = Placement { elements };
    assert(r.spots() =~= seeded(checked, layers@).spots);
    r
}

/// The seed placement with the user's directives applied, and which elements
/// the directives have pinned. Fails with the `place` directives that could
/// not be worked off.
pub fn place_seed(checked: &CheckedNetlist, placer: Placer) -> (r: Result<
    (Placement, Vec<bool>),
    Vec<UnresolvedPlace>,
>)
    requires
        checked.drawable(),
        checked.directives_fit(),
    ensures
        match r {
            Ok((placement, pinned)) => {
                &&& unresolved(checked).len() == 0
                &&& places(&placement, checked)
                &&& exists|asg: LayerAssignment| #[trigger]
                    is_assignment(checked, placer, asg) && layout_of(placement, pinned)
                        == constrained(checked, seeded(checked, asg.layers@)).layout
            },
            Err(list) => {
                &&& unresolved(checked).len() > 0
                &&& lists_unresolved(checked, unresolved(checked), list@)
            },
        },
{
    let classes = classify_nets(checked);
    assert(classes.class@ =~= class_list(checked));
    let asg = assign_x_layers_with(checked, &classes, placer);
    assert(is_assignment(checked, placer, asg));
    let mut placement = seed_elements(checked, &asg.layers);
    let n: usize = checked.elements.len();
    let mut pinned: Vec<bool> = Vec::new();
    let mut i: usize = 0;
    while i < n
        invariant
            i <= n,
            pinned@.len() == i,
            forall|k: int| 0 <= k < i ==> !(#[trigger] pinned@[k]),
        decreases n - i,
    {
        pinned.push(false);
        i = i + 1;
    }
    let ghost start = layout_of(placement, pinned);
    proof {
        seed_is_on_the_sheet(checked, asg);
        assert(start.pinned =~= seeded(checked, asg.layers@).pinned);
        assert(start == seeded(checked, asg.layers@));
        assert forall|j: int| 0 <= j < start.spots.len() implies (
        #[trigger] start.spots[j]).origin.within(MAX_COORD as int) by {
            assert(start.spots[j].origin.within(SEED_SPREAD as int));
        }
        assert(start.pinned =~= blank(checked.elements@.len()).pinned);
        work_ignores_positions(checked, start, blank(checked.elements@.len()));
    }
    let ghost before = placement;
    match apply_user_constraints(&mut placement, &mut pinned, checked) {
        Ok(_) => {
            proof {
                crate::placement::moving_keeps_the_netlist(before, placement, checked);
            }
            Ok((placement, pinned))
        },
        Err(list) => Err(list),
    }
}

// ---- What the rows and columns mean ------------------------------------------

/// Where the rails pull an element, from the top of the sheet down: `0` when it
/// touches supplies only, `1` when it joins a supply to signals, `3` when it
/// joins ground to signals, `4` when it touches ground only, and `2` when
/// neither rail or both pull it.
pub open spec fn rail_pull(checked: &CheckedNetlist, i: int) -> int {
    let n = checked.elements@[i].nodes@;
    let supply = exists|t: int|
        0 <= t < n.len() && checked.class_of(#[trigger] n[t] as int) == Some(NetClass::Power);
    let ground = exists|t: int|
        0 <= t < n.len() && checked.class_of(#[trigger] n[t] as int) == Some(NetClass::Ground);
    let signal = exists|t: int|
        0 <= t < n.len() && checked.class_of(#[trigger] n[t] as int) == Some(NetClass::Signal);
    if supply && !ground {
        if signal {
            1
        } else {
            0
        }
    } else if ground && !supply {
        if signal {
            3
        } else {
            4
        }
    } else {
        2
    }
}

spec fn pulled_to(pull: int) -> Slot {
    if pull == 0 {
        Slot::Top
    } else if pull == 1 {
        Slot::MidUp
    } else if pull == 2 {
        Slot::MidCtr
    } else if pull == 3 {
        Slot::MidLo
    } else {
        Slot::Bot
    }
}

proof fn pulls_are_slots(checked: &CheckedNetlist, i: int)
    requires
        checked.wf(),
        0 <= i < checked.elements@.len(),
    ensures
        slot_at(checked, i) == pulled_to(rail_pull(checked, i)),
        0 <= rail_pull(checked, i) <= 4,
{
    let e = checked.elements@[i];
    let n = e.nodes@;
    let classes = class_list(checked);
    assert(nets_in_range(checked.elements@[i].nodes@, checked.nets@.len()));
    assert forall|t: int| 0 <= t < n.len() implies classes[#[trigger] n[t] as int]
        == checked.class_of(n[t] as int) by {}
    assert forall|class: NetClass| #[trigger] has_class(e, classes, class) <==> exists|t: int|
        0 <= t < n.len() && checked.class_of(#[trigger] n[t] as int) == Some(class) by {}
    assert(has_class(e, classes, NetClass::Power) || !has_class(e, classes, NetClass::Power));
    assert(has_class(e, classes, NetClass::Ground) || !has_class(e, classes, NetClass::Ground));
    assert(has_class(e, classes, NetClass::Signal) || !has_class(e, classes, NetClass::Signal));
}

/// The element is the first of its column that the rails pull to its row.
pub open spec fn heads_its_stack(checked: &CheckedNetlist, layers: Seq<u32>, i: int) -> bool {
    forall|k: int|
        0 <= k < i && layers[k] == layers[i] ==> #[trigger] rail_pull(checked, k) != rail_pull(
            checked,
            i,
        )
}

/// The seed draws the supply side above the ground side: of two elements that
/// head their stacks, the one that the rails pull higher has the smaller Y, and
/// those that they pull alike have the same.
pub proof fn seed_rows_follow_the_rails(
    checked: &CheckedNetlist,
    asg: LayerAssignment,
    i: int,
    j: int,
)
    requires
        checked.drawable(),
        layers_fit(asg, checked.elements@.len()),
        0 <= i < checked.elements@.len(),
        0 <= j < checked.elements@.len(),
        heads_its_stack(checked, asg.layers@, i),
        heads_its_stack(checked, asg.layers@, j),
    ensures
        ({
            let spots = seeded(checked, asg.layers@).spots;
            &&& rail_pull(checked, i) < rail_pull(checked, j) ==> spots[i].origin.y
                < spots[j].origin.y
            &&& rail_pull(checked, i) == rail_pull(checked, j) ==> spots[i].origin.y
                == spots[j].origin.y
        }),
{
    let layers = asg.layers@;
    pulls_are_slots(checked, i);
    pulls_are_slots(checked, j);
    heads_have_rank_zero(checked, layers, i);
    heads_have_rank_zero(checked, layers, j);
    seed_limited(checked, layers, i);
    seed_limited(checked, layers, j);
    seed_rows_are_ordered(checked.elements@.len() as int);
    assert(0 * bucket_stride(checked, layers, i) == 0) by (nonlinear_arith);
    assert(0 * bucket_stride(checked, layers, j) == 0) by (nonlinear_arith);
}

proof fn heads_have_rank_zero(checked: &CheckedNetlist, layers: Seq<u32>, i: int)
    requires
        checked.wf(),
        0 <= i < checked.elements@.len(),
        heads_its_stack(checked, layers, i),
    ensures
        bucket_rank(checked, layers, i) == 0,
{
    pulls_are_slots(checked, i);
    assert forall|k: int| 0 <= k < i implies !#[trigger] in_bucket(checked, layers, i)(k) by {
        pulls_are_slots(checked, k);
        assert(layers[k] == layers[i] ==> rail_pull(checked, k) != rail_pull(checked, i));
    }
    none_counted(in_bucket(checked, layers, i), i);
}

proof fn none_counted(p: spec_fn(int) -> bool, n: int)
    requires
        forall|k: int| 0 <= k < n ==> !#[trigger] p(k),
    ensures
        count(p, n) == 0,
    decreases n,
{
    if n > 0 {
        none_counted(p, n - 1);
        assert(!p(n - 1));
    }
}

/// Within a column the elements that the rails pull alike are stacked in
/// netlist order, at least five steps apart: downwards, and upwards from the
/// bottom row.
pub proof fn seed_stacks_grow_from_the_rails(
    checked: &CheckedNetlist,
    asg: LayerAssignment,
    i: int,
    j: int,
)
    requires
        checked.drawable(),
        layers_fit(asg, checked.elements@.len()),
        0 <= i < j < checked.elements@.len(),
        asg.layers@[i] == asg.layers@[j],
        rail_pull(checked, i) == rail_pull(checked, j),
    ensures
        ({
            let spots = seeded(checked, asg.layers@).spots;
            if rail_pull(checked, i) == 4 {
                spots[j].origin.y <= spots[i].origin.y - 5
            } else {
                spots[j].origin.y >= spots[i].origin.y + 5
            }
        }),
{
    let layers = asg.layers@;
    pulls_are_slots(checked, i);
    pulls_are_slots(checked, j);
    seed_limited(checked, layers, i);
    seed_limited(checked, layers, j);
    bucket_stride_limited(checked, layers, i);
    let p = in_bucket(checked, layers, i);
    let q = in_bucket(checked, layers, j);
    assert forall|k: int| 0 <= k < j implies #[trigger] p(k) == q(k) by {}
    crate::counting::count_eq(p, q, j);
    crate::counting::count_monotone(p, i + 1, j);
    assert(p(i));
    let (a, b) = (bucket_rank(checked, layers, i), bucket_rank(checked, layers, j));
    assert(b >= a + 1);
    same_bucket_same_reach(checked, layers, i, j, checked.elements@.len() as int);
    let s = bucket_stride(checked, layers, i);
    assert(s == bucket_stride(checked, layers, j));
    assert(b * s >= a * s + s) by (nonlinear_arith)
        requires
            b >= a + 1,
            s >= 0,
    ;
}

proof fn same_bucket_same_reach(
    checked: &CheckedNetlist,
    layers: Seq<u32>,
    i: int,
    j: int,
    n: int,
)
    requires
        same_bucket(checked, layers, i, j),
    ensures
        bucket_reach(checked, layers, i, n) == bucket_reach(checked, layers, j, n),
    decreases n,
{
    if n > 0 {
        same_bucket_same_reach(checked, layers, i, j, n - 1);
    }
}

/// The columns of the seed run left to right: of two elements in different
/// layers, the one in the later layer stands at least eight steps right of the
/// other.
pub proof fn seed_columns_run_rightward(
    checked: &CheckedNetlist,
    asg: LayerAssignment,
    i: int,
    j: int,
)
    requires
        checked.drawable(),
        layers_fit(asg, checked.elements@.len()),
        0 <= i < checked.elements@.len(),
        0 <= j < checked.elements@.len(),
        asg.layers@[i] < asg.layers@[j],
    ensures
        seeded(checked, asg.layers@).spots[j].origin.x >= seeded(
            checked,
            asg.layers@,
        ).spots[i].origin.x + 8,
{
    seed_limited(checked, asg.layers@, i);
    seed_limited(checked, asg.layers@, j);
    lines_run_rightward(checked, asg.layers@, asg.layers@[i] as int, asg.layers@[j] as int);
}

proof fn lines_run_rightward(checked: &CheckedNetlist, layers: Seq<u32>, a: int, b: int)
    requires
        0 <= a < b,
    ensures
        column_line(checked, layers, b) >= column_line(checked, layers, a) + 12,
    decreases b,
{
    if a < b - 1 {
        lines_run_rightward(checked, layers, a, b - 1);
    }
}

/// The seed placement draws the supply side above the ground side. Of two
/// elements that no directive pins and that head their stacks, the one that the
/// rails pull higher has the smaller Y: one on a supply and a signal stands
/// above one on signals only, and that one above one on ground and a signal.
pub proof fn placed_seeds_follow_the_rails(
    checked: &CheckedNetlist,
    asg: LayerAssignment,
    placement: Placement,
    pinned: Vec<bool>,
    i: int,
    j: int,
)
    requires
        checked.drawable(),
        checked.directives_fit(),
        layers_fit(asg, checked.elements@.len()),
        places(&placement, checked),
        layout_of(placement, pinned) == constrained(checked, seeded(checked, asg.layers@)).layout,
        0 <= i < checked.elements@.len(),
        0 <= j < checked.elements@.len(),
        !pinned@[i],
        !pinned@[j],
        heads_its_stack(checked, asg.layers@, i),
        heads_its_stack(checked, asg.layers@, j),
        rail_pull(checked, i) < rail_pull(checked, j),
    ensures
        placement.elements@[i].origin.y < placement.elements@[j].origin.y,
{
    let start = seeded(checked, asg.layers@);
    seed_is_on_the_sheet(checked, asg);
    seed_rows_follow_the_rails(checked, asg, i, j);
    let end = constrained(checked, start).layout;
    assert(layout_of(placement, pinned).pinned[i] == pinned@[i]);
    directives_move_what_they_pin(checked, start, SEED_SPREAD as int, i);
    directives_move_what_they_pin(checked, start, SEED_SPREAD as int, j);
    assert(placement.spots()[i] == start.spots[i]);
    assert(placement.spots()[j] == start.spots[j]);
}

/// The members of a stack stand beside its line by turns, the first on it, the
/// next to the right and the next to the left, a step farther each round but
/// never more than two.
pub proof fn stacks_step_aside_by_turns(rank: int)
    requires
        rank >= 0,
    ensures
        rank % 2 == 0 && rank <= 4 ==> jitter(rank) * 2 == -rank,
        rank % 2 == 1 && rank <= 3 ==> jitter(rank) * 2 == rank + 1,
        rank % 2 == 0 && rank >= 4 ==> jitter(rank) == -2,
        rank % 2 == 1 && rank >= 3 ==> jitter(rank) == 2,
{
}

/// The top stacks start at the sheet's upper edge and the bottom ones five
/// steps down for every element and four more. The middle ones start a
/// quarter, half and three quarters of the way between, six steps off either.
pub proof fn rows_divide_the_sheet(n: int)
    requires
        n >= 0,
    ensures
        ({
            let bottom = 5 * (n + 4);
            &&& slot_row(Slot::Top, n) == 0
            &&& slot_row(Slot::Bot, n) == bottom
            &&& -4 < 4 * (slot_row(Slot::MidUp, n) - 6) - (bottom - 12) <= 0
            &&& -2 < 2 * (slot_row(Slot::MidCtr, n) - 6) - (bottom - 12) <= 0
            &&& -4 < 4 * (slot_row(Slot::MidLo, n) - 6) - 3 * (bottom - 12) <= 0
        }),
{
}

/// Neighbouring columns are at least twelve steps apart, and far enough that
/// an element of the one and an element of the other, both two steps off their
/// lines towards each other, keep a clearance of 1.27 mm.
pub proof fn columns_leave_room_for_the_steps_aside(
    checked: &CheckedNetlist,
    layers: Seq<u32>,
    i: int,
    j: int,
)
    requires
        0 <= i < checked.elements@.len(),
        0 <= j < checked.elements@.len(),
        layers[j] == layers[i] + 1,
    ensures
        ({
            let l = layers[i] as int;
            let apart = column_line(checked, layers, l + 1) - column_line(checked, layers, l);
            &&& apart >= 12
            &&& column_extent(checked, i).max_x + 2 * 1270 + 1270 <= apart * 1270 - 2 * 1270
                + column_extent(checked, j).min_x
        }),
{
    let n = checked.elements@.len() as int;
    let l = layers[i] as int;
    reaches_hold(checked, layers, l, i, n);
    reaches_hold(checked, layers, l + 1, j, n);
    crate::extent::lengths_round_up(
        reach_right(checked, layers, l, n) + reach_left(checked, layers, l + 1, n) + MIN_CLEARANCE
            + 2 * (MAX_JITTER * GRID_STEP),
    );
}

proof fn reaches_hold(checked: &CheckedNetlist, layers: Seq<u32>, l: int, i: int, n: int)
    requires
        0 <= i < n,
        layers[i] == l,
    ensures
        reach_right(checked, layers, l, n) >= column_extent(checked, i).max_x,
        reach_left(checked, layers, l, n) >= -column_extent(checked, i).min_x,
    decreases n,
{
    if i < n - 1 {
        reaches_hold(checked, layers, l, i, n - 1);
    }
}

} // verus!
