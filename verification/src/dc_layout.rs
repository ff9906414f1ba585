//! Laying out DC-series columns: the members of a column stand on one vertical
//! line through the pins they share, in order of potential, and the rail
//! stubs on the shared nets stand beside it.

use vstd::prelude::*;

#[allow(unused_imports)]
use crate::counting::count;
#[allow(unused_imports)]
use crate::dc_column::{
    best_pose, carried_by, carried_ok, carried_upto_ok, carried_views, lines_up, member_offset,
    shaped, shared_cells, view_of, Carried,
};
use crate::dc_column::{column_pin_offsets, column_pose, plan_carried_stubs, CarriedStub};
use crate::dc_rank::device_facings;
#[allow(unused_imports)]
use crate::dc_rank::facing_of;
#[allow(unused_imports)]
use crate::dc_series::{
    column_views, columns_are_chains, columns_are_disjoint, columns_of, ColumnView,
};
use crate::dc_series::{detect_dc_columns, DcColumn};
#[allow(unused_imports)]
use crate::extent::{
    extent_of, extent_with_glyphs, extents_are_limited, int_max, int_min, round_div, stride_steps,
    vertical_steps, vertical_steps_clear, Bounds, EXTENT_LIMIT,
};
use crate::extent::{
    up_to_cells, vertical_stride_cells, world_extent, world_extent_with_glyphs, WorldExtent,
    MIN_CLEARANCE,
};
use crate::net_class::{vertical_prefs, VertPref};
use crate::netlist::CheckedNetlist;
#[allow(unused_imports)]
use crate::netlist::nets_in_range;
#[allow(unused_imports)]
use crate::orient::prefs_of;
use crate::pins::round_quotient;
#[allow(unused_imports)]
use crate::pins::{exact_quotients_stay, rounding_is_nearest};
use crate::placement::{put, put_pinned, GridPoint, Placement, GRID_STEP};
#[allow(unused_imports)]
use crate::placement::{
    layout_of, pins_hold, same_parts, same_parts_trans, spots_within, Layout, Spot, MAX_COORD,
    MAX_ELEMENTS,
};
use crate::placer::Placer;
use crate::rail_stub::detect_rail_stubs;
#[allow(unused_imports)]
use crate::rail_stub::all_stubs;
use crate::symbol::Orientation;
#[allow(unused_imports)]
use crate::symbol::in_reach;

verus! {

/// Steps added to a clear stride between two members, so that the label of
/// the node between them has room.
pub const COLUMN_LABEL_MARGIN: i32 = 1;

/// Farthest that the pass moves an element beyond where the elements were.
pub const COLUMN_SPREAD: i32 = 480_000_000;

/// The space of member `k` in its pose.
pub open spec fn member_extent(
    checked: &CheckedNetlist,
    c: ColumnView,
    poses: Seq<Orientation>,
    k: int,
) -> Bounds {
    extent_of(checked.elements@[c.0[k] as int].symbol, poses[k], None)
}

/// The spaces of the members.
pub open spec fn member_extents(
    checked: &CheckedNetlist,
    c: ColumnView,
    poses: Seq<Orientation>,
) -> Seq<Bounds> {
    Seq::new(c.0.len(), |k: int| member_extent(checked, c, poses, k))
}

/// The Y span, about the member's origin, of the first `n` stubs that are
/// level with it.
pub open spec fn carried_span(carried: Seq<Carried>, member: int, n: int) -> Option<(int, int)>
    decreases n,
{
    if n <= 0 {
        None
    } else {
        let rest = carried_span(carried, member, n - 1);
        let s = carried[n - 1];
        if s.member != member {
            rest
        } else {
            let d = s.anchor_dy - s.pin.1;
            let (lo, hi) = (s.ext.min_y + d, s.ext.max_y + d);
            match rest {
                None => Some((lo, hi)),
                Some((a, b)) => Some((int_min(a, lo), int_max(b, hi))),
            }
        }
    }
}

/// The steps from member `k` to the next: their bodies are clear of each
/// other, and so are the stubs beside them, with room for a label.
pub open spec fn member_stride(exts: Seq<Bounds>, carried: Seq<Carried>, k: int) -> int {
    let n = carried.len() as int;
    let need = match (carried_span(carried, k, n), carried_span(carried, k + 1, n)) {
        (Some(a), Some(b)) => stride_steps(a.1 - b.0 + MIN_CLEARANCE),
        _ => 0,
    };
    int_max(vertical_steps(exts[k], exts[k + 1]), need) + COLUMN_LABEL_MARGIN
}

/// The steps from the first member to member `k`.
pub open spec fn member_drop(exts: Seq<Bounds>, carried: Seq<Carried>, k: int) -> int
    decreases k,
{
    if k <= 0 {
        0
    } else {
        member_drop(exts, carried, k - 1) + member_stride(exts, carried, k - 1)
    }
}

/// The sum of the line X and of the Y of the first `n` members, as placed.
pub open spec fn member_sums(
    spots: Seq<Spot>,
    c: ColumnView,
    offsets: Seq<int>,
    n: int,
) -> (int, int)
    decreases n,
{
    if n <= 0 {
        (0, 0)
    } else {
        let rest = member_sums(spots, c, offsets, n - 1);
        let at = spots[c.0[n - 1] as int].origin;
        (rest.0 + at.x + offsets[n - 1], rest.1 + at.y)
    }
}

/// The X of the column's line and the Y of every member: the line goes through
/// the mean of the shared pins, and the stack is centred on the mean Y.
pub open spec fn column_frame(
    spots: Seq<Spot>,
    c: ColumnView,
    offsets: Seq<int>,
    exts: Seq<Bounds>,
    carried: Seq<Carried>,
) -> (int, Seq<int>) {
    let n = c.0.len() as int;
    let (sx, sy) = member_sums(spots, c, offsets, n);
    let top = sy / n - member_drop(exts, carried, n - 1) / 2;
    (sx / n, Seq::new(c.0.len(), |k: int| top + member_drop(exts, carried, k)))
}

/// The layout after the first `n` members have been put on the line. Without
/// `pin_it` they keep their poses and are not pinned.
pub open spec fn members_placed(
    layout: Layout,
    c: ColumnView,
    poses: Seq<Orientation>,
    offsets: Seq<int>,
    frame: (int, Seq<int>),
    pin_it: bool,
    n: int,
) -> Layout
    decreases n,
{
    if n <= 0 {
        layout
    } else {
        let rest = members_placed(layout, c, poses, offsets, frame, pin_it, n - 1);
        let i = c.0[n - 1] as int;
        let origin = GridPoint {
            x: (frame.0 - offsets[n - 1]) as i32,
            y: frame.1[n - 1] as i32,
        };
        if pin_it {
            rest.pin_at(i, Spot { origin, orientation: poses[n - 1] })
        } else {
            rest.put_at(i, Spot { origin, orientation: rest.spots[i].orientation })
        }
    }
}

/// The steps from a member's origin to the stub's, so that their pins are
/// level.
pub open spec fn level_steps(s: Carried) -> int {
    round_div(s.anchor_dy - s.pin.1, GRID_STEP as int)
}

/// The origin of a carried stub on a side of the line.
pub open spec fn stub_origin(s: Carried, frame: (int, Seq<int>), side: int, gap: int) -> (
    int,
    int,
) {
    (
        frame.0 + side * (gap + s.slot * s.row_stride) - round_div(s.pin.0, GRID_STEP as int),
        frame.1[s.member] + level_steps(s),
    )
}

/// The Y range that a stub takes up on the sheet.
pub open spec fn stub_rows(s: Carried, frame: (int, Seq<int>)) -> (int, int) {
    let oy = (frame.1[s.member] + level_steps(s)) * GRID_STEP;
    (oy + s.ext.min_y, oy + s.ext.max_y)
}

/// The farthest that one of the first `n` members beside the stub reaches
/// towards the side.
pub open spec fn member_reach(
    s: Carried,
    exts: Seq<Bounds>,
    frame: (int, Seq<int>),
    right: bool,
    n: int,
) -> int
    decreases n,
{
    if n <= 0 {
        0
    } else {
        let rest = member_reach(s, exts, frame, right, n - 1);
        let e = exts[n - 1];
        let my = frame.1[n - 1] * GRID_STEP;
        let (lo, hi) = stub_rows(s, frame);
        if my + e.max_y + MIN_CLEARANCE <= lo || hi + MIN_CLEARANCE <= my + e.min_y {
            rest
        } else {
            int_max(
                rest,
                if right {
                    e.max_x
                } else {
                    -e.min_x
                },
            )
        }
    }
}

/// The steps from the line to the nearest stub: the first `n` stubs are clear
/// of the members beside them.
pub open spec fn carried_gap(
    carried: Seq<Carried>,
    exts: Seq<Bounds>,
    frame: (int, Seq<int>),
    right: bool,
    n: int,
) -> int
    decreases n,
{
    if n <= 0 {
        1
    } else {
        let s = carried[n - 1];
        let back = if right {
            -s.ext.min_x
        } else {
            s.ext.max_x
        };
        int_max(
            carried_gap(carried, exts, frame, right, n - 1),
            stride_steps(
                member_reach(s, exts, frame, right, exts.len() as int) + back + MIN_CLEARANCE,
            ),
        )
    }
}

/// The element is a member of the column or one of the carried stubs.
pub open spec fn is_own(c: ColumnView, carried: Seq<Carried>, i: int) -> bool {
    ||| exists|k: int| 0 <= k < c.0.len() && #[trigger] c.0[k] == i
    ||| exists|k: int| 0 <= k < carried.len() && (#[trigger] carried[k]).element == i
}

/// On the side, the stub would land on element `i`, which is not the column's
/// own.
pub open spec fn lands_on(
    spots: Seq<Spot>,
    checked: &CheckedNetlist,
    c: ColumnView,
    carried: Seq<Carried>,
    frame: (int, Seq<int>),
    side: int,
    gap: int,
    s: Carried,
) -> spec_fn(int) -> bool {
    |i: int|
        {
            let o = stub_origin(s, frame, side, gap);
            let b = extent_with_glyphs(
                checked.elements@[i],
                spots[i].orientation,
                None,
                prefs_of(checked),
            );
            let at = spots[i].origin.um();
            &&& !is_own(c, carried, i)
            &&& o.0 * GRID_STEP + s.ext.min_x < at.0 + b.max_x
            &&& at.0 + b.min_x < o.0 * GRID_STEP + s.ext.max_x
            &&& o.1 * GRID_STEP + s.ext.min_y < at.1 + b.max_y
            &&& at.1 + b.min_y < o.1 * GRID_STEP + s.ext.max_y
        }
}

/// How many foreign elements the first `n` stubs would land on.
pub open spec fn landings(
    spots: Seq<Spot>,
    checked: &CheckedNetlist,
    c: ColumnView,
    carried: Seq<Carried>,
    frame: (int, Seq<int>),
    side: int,
    gap: int,
    n: int,
) -> int
    decreases n,
{
    if n <= 0 {
        0
    } else {
        landings(spots, checked, c, carried, frame, side, gap, n - 1) + crate::counting::count(
            lands_on(spots, checked, c, carried, frame, side, gap, carried[n - 1]),
            checked.elements@.len() as int,
        )
    }
}

/// How far the first `n` stubs lie right of the line, in sum.
pub open spec fn lean(spots: Seq<Spot>, carried: Seq<Carried>, x: int, n: int) -> int
    decreases n,
{
    if n <= 0 {
        0
    } else {
        lean(spots, carried, x, n - 1) + (spots[carried[n - 1].element].origin.x - x)
    }
}

/// The side on which all stubs of the column stand, and their distance: the
/// side with fewer landings or, on a tie, the one they lean to already.
pub open spec fn chosen_side(
    spots: Seq<Spot>,
    checked: &CheckedNetlist,
    c: ColumnView,
    carried: Seq<Carried>,
    exts: Seq<Bounds>,
    frame: (int, Seq<int>),
) -> (int, int) {
    let n = carried.len() as int;
    let right = carried_gap(carried, exts, frame, true, n);
    let left = carried_gap(carried, exts, frame, false, n);
    let hr = landings(spots, checked, c, carried, frame, 1, right, n);
    let hl = landings(spots, checked, c, carried, frame, -1, left, n);
    if hl < hr || (hl == hr && lean(spots, carried, frame.0, n) < 0) {
        (-1, left)
    } else {
        (1, right)
    }
}

/// The layout after the first `n` stubs have been seated.
pub open spec fn seated(
    layout: Layout,
    carried: Seq<Carried>,
    frame: (int, Seq<int>),
    side: int,
    gap: int,
    pin_it: bool,
    n: int,
) -> Layout
    decreases n,
{
    if n <= 0 {
        layout
    } else {
        let rest = seated(layout, carried, frame, side, gap, pin_it, n - 1);
        let s = carried[n - 1];
        let at = stub_origin(s, frame, side, gap);
        let origin = GridPoint { x: at.0 as i32, y: at.1 as i32 };
        if pin_it {
            rest.pin_at(s.element, Spot { origin, orientation: s.pose })
        } else {
            rest.put_at(
                s.element,
                Spot { origin, orientation: rest.spots[s.element].orientation },
            )
        }
    }
}

/// The poses that an element may take.
pub open spec fn allowed_set(allowed: Seq<Vec<Orientation>>, i: int) -> Seq<Orientation> {
    if 0 <= i < allowed.len() {
        allowed[i]@
    } else {
        seq![]
    }
}

/// The pose of member `k`.
pub open spec fn member_pose(
    checked: &CheckedNetlist,
    allowed: Seq<Vec<Orientation>>,
    c: ColumnView,
    k: int,
) -> Option<Orientation> {
    let i = c.0[k] as int;
    let set = allowed_set(allowed, i);
    best_pose(
        checked.elements@[i],
        facing_of(checked, i),
        prefs_of(checked),
        set,
        set.len() as int,
    )
}

/// The poses of the members.
pub open spec fn member_poses(
    checked: &CheckedNetlist,
    allowed: Seq<Vec<Orientation>>,
    c: ColumnView,
) -> Seq<Orientation> {
    Seq::new(c.0.len(), |k: int| member_pose(checked, allowed, c, k)->0)
}

/// The offsets of the members from the line.
pub open spec fn member_offsets(
    checked: &CheckedNetlist,
    c: ColumnView,
    poses: Seq<Orientation>,
) -> Seq<int> {
    Seq::new(c.0.len(), |k: int| member_offset(checked, c, poses, k)->0)
}

/// The column can be drawn: no member is pinned, every member has a pose, and
/// the members line up in these poses.
pub open spec fn drawable_column(
    layout: Layout,
    checked: &CheckedNetlist,
    allowed: Seq<Vec<Orientation>>,
    c: ColumnView,
) -> bool {
    &&& forall|k: int| 0 <= k < c.0.len() ==> !layout.pinned[#[trigger] c.0[k] as int]
    &&& forall|k: int| 0 <= k < c.0.len() ==> #[trigger] member_pose(checked, allowed, c, k) is Some
    &&& lines_up(checked, c, member_poses(checked, allowed, c))
}

/// The layout after one column has been drawn; a column that cannot be drawn
/// changes nothing.
pub open spec fn column_step(
    layout: Layout,
    checked: &CheckedNetlist,
    allowed: Seq<Vec<Orientation>>,
    columned: Seq<bool>,
    placer: Placer,
    c: ColumnView,
) -> Layout {
    if !drawable_column(layout, checked, allowed, c) {
        layout
    } else {
        let pin_it = placer.dc_series_columns_pinned;
        let poses = member_poses(checked, allowed, c);
        let offsets = member_offsets(checked, c, poses);
        let exts = member_extents(checked, c, poses);
        let carried = carried_by(checked, layout.pinned, allowed, columned, c, poses, placer);
        let frame = column_frame(layout.spots, c, offsets, exts, carried);
        let after = members_placed(layout, c, poses, offsets, frame, pin_it, c.0.len() as int);
        let (side, gap) = chosen_side(after.spots, checked, c, carried, exts, frame);
        seated(after, carried, frame, side, gap, pin_it, carried.len() as int)
    }
}

/// The elements that are members of a column.
pub open spec fn members_of(cols: Seq<ColumnView>, n: nat) -> Seq<bool> {
    Seq::new(n, |i: int| in_some_column(cols, i))
}

/// The element is a member of one of the columns.
pub open spec fn in_some_column(cols: Seq<ColumnView>, i: int) -> bool {
    exists|k: int, m: int|
        0 <= k < cols.len() && 0 <= m < cols[k].0.len() && #[trigger] cols[k].0[m] == i
}

/// The layout after the first `n` columns have been drawn.
pub open spec fn columns_drawn(
    layout: Layout,
    checked: &CheckedNetlist,
    allowed: Seq<Vec<Orientation>>,
    placer: Placer,
    cols: Seq<ColumnView>,
    n: int,
) -> Layout
    decreases n,
{
    if n <= 0 {
        layout
    } else {
        column_step(
            columns_drawn(layout, checked, allowed, placer, cols, n - 1),
            checked,
            allowed,
            members_of(cols, checked.elements@.len()),
            placer,
            cols[n - 1],
        )
    }
}

// Bounds.

/// A list of different elements is no longer than the netlist.
proof fn distinct_are_few(ids: Seq<usize>, n: nat)
    requires
        ids.no_duplicates(),
        forall|k: int| 0 <= k < ids.len() ==> (#[trigger] ids[k]) < n,
    ensures
        ids.len() <= n,
{
    let ints = Seq::new(ids.len(), |k: int| ids[k] as int);
    assert forall|a: int, b: int| 0 <= a < ints.len() && 0 <= b < ints.len() && a != b implies ints[a]
        != ints[b] by {
        assert(ids[a] != ids[b]);
    }
    ints.unique_seq_to_set();
    let all = vstd::set_lib::set_int_range(0, n as int);
    vstd::set_lib::lemma_int_range(0, n as int);
    assert forall|x: int| ints.to_set().contains(x) implies all.contains(x) by {
        let k = choose|k: int| 0 <= k < ints.len() && ints[k] == x;
        assert(ids[k] < n);
    }
    vstd::set_lib::lemma_len_subset(ints.to_set(), all);
}

/// Every stub of the list is in order for a column of `members` members.
pub open spec fn all_carried_ok(
    checked: &CheckedNetlist,
    pinned: Seq<bool>,
    columned: Seq<bool>,
    members: int,
    carried: Seq<Carried>,
) -> bool {
    &&& carried.len() <= 0x2_0000_0000
    &&& forall|k: int|
        0 <= k < carried.len() ==> carried_ok(
            checked,
            pinned,
            columned,
            members,
            #[trigger] carried[k],
        )
}

proof fn carried_by_ok(
    checked: &CheckedNetlist,
    pinned: Seq<bool>,
    allowed: Seq<Vec<Orientation>>,
    columned: Seq<bool>,
    c: ColumnView,
    poses: Seq<Orientation>,
    placer: Placer,
)
    requires
        checked.drawable(),
        shaped(checked, c),
        c.0.len() <= MAX_ELEMENTS,
    ensures
        all_carried_ok(
            checked,
            pinned,
            columned,
            c.0.len() as int,
            carried_by(checked, pinned, allowed, columned, c, poses, placer),
        ),
{
    carried_upto_ok(checked, pinned, allowed, columned, c, poses, c.1.len() as int);
}

proof fn span_bound(
    checked: &CheckedNetlist,
    pinned: Seq<bool>,
    columned: Seq<bool>,
    members: int,
    carried: Seq<Carried>,
    member: int,
    n: int,
)
    requires
        all_carried_ok(checked, pinned, columned, members, carried),
        n <= carried.len(),
    ensures
        carried_span(carried, member, n) matches Some(s) ==> -3_200_000 <= s.0 <= 3_200_000
            && -3_200_000 <= s.1 <= 3_200_000,
    decreases n,
{
    if n > 0 {
        span_bound(checked, pinned, columned, members, carried, member, n - 1);
        assert(carried_ok(checked, pinned, columned, members, carried[n - 1]));
    }
}

/// Every box of the list is an extent.
pub open spec fn boxes_within(exts: Seq<Bounds>) -> bool {
    forall|k: int| 0 <= k < exts.len() ==> (#[trigger] exts[k]).within(EXTENT_LIMIT as int)
}

proof fn member_extents_within(checked: &CheckedNetlist, c: ColumnView, poses: Seq<Orientation>)
    requires
        checked.drawable(),
        shaped(checked, c),
    ensures
        boxes_within(member_extents(checked, c, poses)),
{
    let exts = member_extents(checked, c, poses);
    assert forall|k: int| 0 <= k < exts.len() implies (#[trigger] exts[k]).within(
        EXTENT_LIMIT as int,
    ) by {
        let e = checked.elements@[c.0[k] as int];
        assert(e.symbol.wf());
        extents_are_limited(e, poses[k], None, seq![]);
    }
}

proof fn stride_bound(
    checked: &CheckedNetlist,
    pinned: Seq<bool>,
    columned: Seq<bool>,
    exts: Seq<Bounds>,
    carried: Seq<Carried>,
    k: int,
)
    requires
        all_carried_ok(checked, pinned, columned, exts.len() as int, carried),
        boxes_within(exts),
        0 <= k < exts.len() - 1,
    ensures
        2 <= member_stride(exts, carried, k) <= 5100,
{
    let n = carried.len() as int;
    span_bound(checked, pinned, columned, exts.len() as int, carried, k, n);
    span_bound(checked, pinned, columned, exts.len() as int, carried, k + 1, n);
    assert(exts[k].within(EXTENT_LIMIT as int) && exts[k + 1].within(EXTENT_LIMIT as int));
}

proof fn drop_bound(
    checked: &CheckedNetlist,
    pinned: Seq<bool>,
    columned: Seq<bool>,
    exts: Seq<Bounds>,
    carried: Seq<Carried>,
    k: int,
)
    requires
        all_carried_ok(checked, pinned, columned, exts.len() as int, carried),
        boxes_within(exts),
        0 <= k < exts.len(),
    ensures
        0 <= member_drop(exts, carried, k) <= 5100 * k,
    decreases k,
{
    if k > 0 {
        drop_bound(checked, pinned, columned, exts, carried, k - 1);
        stride_bound(checked, pinned, columned, exts, carried, k - 1);
    }
}

proof fn sums_bound(
    spots: Seq<Spot>,
    c: ColumnView,
    offsets: Seq<int>,
    n: int,
    limit: int,
)
    requires
        0 <= n <= c.0.len(),
        forall|k: int|
            0 <= k < c.0.len() ==> spots[#[trigger] c.0[k] as int].origin.within(limit),
        offsets.len() == c.0.len(),
        forall|k: int| 0 <= k < offsets.len() ==> -800 <= #[trigger] offsets[k] <= 800,
        0 <= limit,
    ensures
        ({
            let (sx, sy) = member_sums(spots, c, offsets, n);
            &&& -(n * (limit + 800)) <= sx <= n * (limit + 800)
            &&& -(n * limit) <= sy <= n * limit
        }),
    decreases n,
{
    if n > 0 {
        sums_bound(spots, c, offsets, n - 1, limit);
        assert(spots[c.0[n - 1] as int].origin.within(limit));
        assert(-800 <= offsets[n - 1] <= 800);
        assert(n * (limit + 800) == (n - 1) * (limit + 800) + (limit + 800)) by (nonlinear_arith);
        assert(n * limit == (n - 1) * limit + limit) by (nonlinear_arith);
    }
}

/// A mean of bounded values is bounded.
proof fn mean_bound(s: int, n: int, m: int)
    requires
        n > 0,
        0 <= m,
        -(n * m) <= s <= n * m,
    ensures
        -m <= s / n <= m,
{
    vstd::arithmetic::div_mod::lemma_fundamental_div_mod(s, n);
    let q = s / n;
    let r = s % n;
    assert(-m <= q <= m) by (nonlinear_arith)
        requires
            s == n * q + r,
            0 <= r < n,
            -(n * m) <= s <= n * m,
            n > 0,
    ;
}

/// The frame of a column is not far from its members.
pub open spec fn frame_within(frame: (int, Seq<int>), limit: int) -> bool {
    &&& -(limit + 800) <= frame.0 <= limit + 800
    &&& forall|k: int|
        0 <= k < frame.1.len() ==> -(limit + 336_000_000) <= #[trigger] frame.1[k] <= limit
            + 336_000_000
}

proof fn frame_bound(
    spots: Seq<Spot>,
    checked: &CheckedNetlist,
    pinned: Seq<bool>,
    columned: Seq<bool>,
    c: ColumnView,
    offsets: Seq<int>,
    exts: Seq<Bounds>,
    carried: Seq<Carried>,
    limit: int,
)
    requires
        shaped(checked, c),
        c.0.len() <= MAX_ELEMENTS,
        exts.len() == c.0.len(),
        offsets.len() == c.0.len(),
        all_carried_ok(checked, pinned, columned, exts.len() as int, carried),
        boxes_within(exts),
        forall|k: int|
            0 <= k < c.0.len() ==> spots[#[trigger] c.0[k] as int].origin.within(limit),
        forall|k: int| 0 <= k < offsets.len() ==> -800 <= #[trigger] offsets[k] <= 800,
        0 <= limit,
    ensures
        frame_within(column_frame(spots, c, offsets, exts, carried), limit),
        column_frame(spots, c, offsets, exts, carried).1.len() == c.0.len(),
{
    let n = c.0.len() as int;
    sums_bound(spots, c, offsets, n, limit);
    let (sx, sy) = member_sums(spots, c, offsets, n);
    mean_bound(sx, n, limit + 800);
    mean_bound(sy, n, limit);
    drop_bound(checked, pinned, columned, exts, carried, n - 1);
    let frame = column_frame(spots, c, offsets, exts, carried);
    assert forall|k: int| 0 <= k < frame.1.len() implies -(limit + 336_000_000)
        <= #[trigger] frame.1[k] <= limit + 336_000_000 by {
        drop_bound(checked, pinned, columned, exts, carried, k);
    }
}

proof fn reach_bound(
    s: Carried,
    exts: Seq<Bounds>,
    frame: (int, Seq<int>),
    right: bool,
    n: int,
)
    requires
        boxes_within(exts),
        n <= exts.len(),
    ensures
        0 <= member_reach(s, exts, frame, right, n) <= EXTENT_LIMIT,
    decreases n,
{
    if n > 0 {
        reach_bound(s, exts, frame, right, n - 1);
        assert(exts[n - 1].within(EXTENT_LIMIT as int));
    }
}

proof fn gap_bound(
    checked: &CheckedNetlist,
    pinned: Seq<bool>,
    columned: Seq<bool>,
    carried: Seq<Carried>,
    exts: Seq<Bounds>,
    frame: (int, Seq<int>),
    right: bool,
    n: int,
)
    requires
        all_carried_ok(checked, pinned, columned, exts.len() as int, carried),
        boxes_within(exts),
        n <= carried.len(),
    ensures
        1 <= carried_gap(carried, exts, frame, right, n) <= 1740,
    decreases n,
{
    if n > 0 {
        gap_bound(checked, pinned, columned, carried, exts, frame, right, n - 1);
        reach_bound(carried[n - 1], exts, frame, right, exts.len() as int);
        assert(carried_ok(checked, pinned, columned, exts.len() as int, carried[n - 1]));
    }
}

/// The origin of a carried stub is not far from the frame.
proof fn stub_origin_bound(
    checked: &CheckedNetlist,
    pinned: Seq<bool>,
    columned: Seq<bool>,
    s: Carried,
    frame: (int, Seq<int>),
    side: int,
    gap: int,
    limit: int,
)
    requires
        carried_ok(checked, pinned, columned, frame.1.len() as int, s),
        frame_within(frame, limit),
        side == 1 || side == -1,
        0 <= gap <= 1740,
    ensures
        ({
            let at = stub_origin(s, frame, side, gap);
            &&& -(limit + COLUMN_SPREAD) <= at.0 <= limit + COLUMN_SPREAD
            &&& -(limit + COLUMN_SPREAD) <= at.1 <= limit + COLUMN_SPREAD
        }),
        0 <= s.slot * s.row_stride <= 114_000_000,
        -1600 <= level_steps(s) <= 1600,
        -800 <= round_div(s.pin.0, GRID_STEP as int) <= 800,
{
    assert(0 <= s.slot * s.row_stride <= 114_000_000) by (nonlinear_arith)
        requires
            0 <= s.slot <= 65536,
            0 <= s.row_stride <= 1735,
    ;
    rounding_is_nearest(s.pin.0, 1270);
    rounding_is_nearest(s.anchor_dy - s.pin.1, 1270);
    let w = gap + s.slot * s.row_stride;
    assert(side * w == w || side * w == -w) by (nonlinear_arith)
        requires
            side == 1 || side == -1,
    ;
    assert(-(limit + 336_000_000) <= frame.1[s.member] <= limit + 336_000_000);
}

// States of the pass.

/// What every state of the pass keeps, relative to the layout it started
/// from, when the first `n` columns have been handled: pins hold, all
/// elements stay in range, and members of columns to come have not moved.
pub open spec fn column_state(
    start: Layout,
    now: Layout,
    checked: &CheckedNetlist,
    cols: Seq<ColumnView>,
    n: int,
    limit: int,
) -> bool {
    &&& now.sized(checked.elements@.len() as int)
    &&& pins_hold(start, now)
    &&& spots_within(now.spots, limit + COLUMN_SPREAD)
    &&& forall|k: int, m: int|
        n <= k < cols.len() && 0 <= m < cols[k].0.len() ==> now.spots[#[trigger] cols[k].0[m] as int]
            == start.spots[cols[k].0[m] as int]
}

/// Placing the members changes only them, and they stay in range.
proof fn members_placed_keeps(
    layout: Layout,
    checked: &CheckedNetlist,
    c: ColumnView,
    poses: Seq<Orientation>,
    offsets: Seq<int>,
    frame: (int, Seq<int>),
    pin_it: bool,
    n: int,
    limit: int,
)
    requires
        shaped(checked, c),
        layout.sized(checked.elements@.len() as int),
        0 <= limit <= MAX_COORD,
        0 <= n <= c.0.len(),
        frame.1.len() == c.0.len(),
        offsets.len() == c.0.len(),
        frame_within(frame, limit),
        forall|k: int| 0 <= k < offsets.len() ==> -800 <= #[trigger] offsets[k] <= 800,
        spots_within(layout.spots, limit + COLUMN_SPREAD),
        forall|k: int| 0 <= k < c.0.len() ==> !layout.pinned[#[trigger] c.0[k] as int],
    ensures
        ({
            let after = members_placed(layout, c, poses, offsets, frame, pin_it, n);
            &&& after.sized(checked.elements@.len() as int)
            &&& pins_hold(layout, after)
            &&& spots_within(after.spots, limit + COLUMN_SPREAD)
            &&& forall|i: int|
                0 <= i < after.spots.len() ==> (#[trigger] after.spots[i]) == layout.spots[i]
                    || exists|k: int| 0 <= k < c.0.len() && c.0[k] == i
        }),
    decreases n,
{
    if n > 0 {
        members_placed_keeps(
            layout,
            checked,
            c,
            poses,
            offsets,
            frame,
            pin_it,
            n - 1,
            limit,
        );
        let rest = members_placed(layout, c, poses, offsets, frame, pin_it, n - 1);
        let after = members_placed(layout, c, poses, offsets, frame, pin_it, n);
        let j = c.0[n - 1] as int;
        assert(!layout.pinned[j]);
        assert(-800 <= offsets[n - 1] <= 800);
        assert(-(limit + 336_000_000) <= frame.1[n - 1] <= limit + 336_000_000);
        assert forall|i: int| 0 <= i < after.spots.len() implies (
        #[trigger] after.spots[i]).origin.within(limit + COLUMN_SPREAD) by {
            assert(rest.spots[i].origin.within(limit + COLUMN_SPREAD));
        }
        assert forall|i: int| 0 <= i < after.spots.len() implies (#[trigger] after.spots[i])
            == layout.spots[i] || exists|k: int| 0 <= k < c.0.len() && c.0[k] == i by {
            if i == j {
                assert(c.0[n - 1] == i);
            } else {
                assert(after.spots[i] == rest.spots[i]);
            }
        }
    }
}

/// Seating the stubs changes only them, and they stay in range.
proof fn seated_keeps(
    base: Layout,
    layout: Layout,
    checked: &CheckedNetlist,
    columned: Seq<bool>,
    carried: Seq<Carried>,
    frame: (int, Seq<int>),
    side: int,
    gap: int,
    pin_it: bool,
    n: int,
    limit: int,
)
    requires
        base.sized(checked.elements@.len() as int),
        layout.sized(checked.elements@.len() as int),
        0 <= limit <= MAX_COORD,
        0 <= n <= carried.len(),
        all_carried_ok(checked, base.pinned, columned, frame.1.len() as int, carried),
        frame_within(frame, limit),
        side == 1 || side == -1,
        0 <= gap <= 1740,
        pins_hold(base, layout),
        spots_within(layout.spots, limit + COLUMN_SPREAD),
    ensures
        ({
            let after = seated(layout, carried, frame, side, gap, pin_it, n);
            &&& after.sized(checked.elements@.len() as int)
            &&& pins_hold(base, after)
            &&& spots_within(after.spots, limit + COLUMN_SPREAD)
            &&& forall|i: int|
                0 <= i < after.spots.len() && columned[i] ==> (#[trigger] after.spots[i])
                    == layout.spots[i]
        }),
    decreases n,
{
    if n > 0 {
        seated_keeps(
            base,
            layout,
            checked,
            columned,
            carried,
            frame,
            side,
            gap,
            pin_it,
            n - 1,
            limit,
        );
        let rest = seated(layout, carried, frame, side, gap, pin_it, n - 1);
        let after = seated(layout, carried, frame, side, gap, pin_it, n);
        let s = carried[n - 1];
        assert(carried_ok(checked, base.pinned, columned, frame.1.len() as int, s));
        stub_origin_bound(checked, base.pinned, columned, s, frame, side, gap, limit);
        assert forall|i: int| 0 <= i < after.spots.len() implies (
        #[trigger] after.spots[i]).origin.within(limit + COLUMN_SPREAD) by {
            assert(rest.spots[i].origin.within(limit + COLUMN_SPREAD));
        }
        assert forall|i: int| 0 <= i < after.spots.len() && columned[i] implies (
        #[trigger] after.spots[i]) == layout.spots[i] by {
            assert(rest.spots[i] == layout.spots[i]);
        }
    }
}

/// What the pass relies on of a column: its members are elements, each once.
pub open spec fn sound_column(checked: &CheckedNetlist, c: ColumnView) -> bool {
    &&& shaped(checked, c)
    &&& c.0.no_duplicates()
}

/// The columns are sound and share no member.
pub open spec fn sound_columns(checked: &CheckedNetlist, cols: Seq<ColumnView>) -> bool {
    &&& forall|k: int| 0 <= k < cols.len() ==> sound_column(checked, #[trigger] cols[k])
    &&& forall|k: int, l: int, i: int, j: int|
        0 <= k < l < cols.len() && 0 <= i < cols[k].0.len() && 0 <= j < cols[l].0.len()
            ==> #[trigger] cols[k].0[i] != #[trigger] cols[l].0[j]
}

/// The detected columns are sound.
proof fn detected_columns_are_sound(checked: &CheckedNetlist, cols: Seq<ColumnView>)
    requires
        columns_of(checked, cols),
        checked.nets@.len() <= usize::MAX,
        checked.elements@.len() <= usize::MAX,
    ensures
        sound_columns(checked, cols),
{
    assert forall|k: int| 0 <= k < cols.len() implies sound_column(checked, #[trigger] cols[k]) by {
        columns_are_chains(checked, cols, k);
    }
    assert forall|k: int, l: int, i: int, j: int|
        0 <= k < l < cols.len() && 0 <= i < cols[k].0.len() && 0 <= j < cols[l].0.len()
        implies #[trigger] cols[k].0[i] != #[trigger] cols[l].0[j] by {
        columns_are_disjoint(checked, cols, k, l, i, j);
    }
}

/// The parts of drawing one column, for a column whose members have not moved.
proof fn column_parts(
    start: Layout,
    now: Layout,
    checked: &CheckedNetlist,
    allowed: Seq<Vec<Orientation>>,
    placer: Placer,
    cols: Seq<ColumnView>,
    n: int,
    limit: int,
)
    requires
        checked.drawable(),
        start.sized(checked.elements@.len() as int),
        spots_within(start.spots, limit),
        0 <= limit <= MAX_COORD,
        sound_columns(checked, cols),
        0 <= n < cols.len(),
        column_state(start, now, checked, cols, n, limit),
        drawable_column(now, checked, allowed, cols[n]),
    ensures
        ({
            let c = cols[n];
            let columned = members_of(cols, checked.elements@.len());
            let poses = member_poses(checked, allowed, c);
            let offsets = member_offsets(checked, c, poses);
            let exts = member_extents(checked, c, poses);
            let carried = carried_by(checked, now.pinned, allowed, columned, c, poses, placer);
            let frame = column_frame(now.spots, c, offsets, exts, carried);
            &&& c.0.len() <= MAX_ELEMENTS
            &&& all_carried_ok(checked, now.pinned, columned, c.0.len() as int, carried)
            &&& boxes_within(exts)
            &&& forall|k: int| 0 <= k < offsets.len() ==> -800 <= #[trigger] offsets[k] <= 800
            &&& forall|k: int|
                0 <= k < c.0.len() ==> now.spots[#[trigger] c.0[k] as int].origin.within(limit)
            &&& frame_within(frame, limit)
            &&& frame.1.len() == c.0.len()
        }),
{
    let c = cols[n];
    let columned = members_of(cols, checked.elements@.len());
    let poses = member_poses(checked, allowed, c);
    let offsets = member_offsets(checked, c, poses);
    let exts = member_extents(checked, c, poses);
    let carried = carried_by(checked, now.pinned, allowed, columned, c, poses, placer);
    assert(sound_column(checked, c));
    distinct_are_few(c.0, checked.elements@.len());
    carried_by_ok(checked, now.pinned, allowed, columned, c, poses, placer);
    member_extents_within(checked, c, poses);
    assert forall|k: int| 0 <= k < offsets.len() implies -800 <= #[trigger] offsets[k] <= 800 by {
        let e = checked.elements@[c.0[k] as int];
        assert(e.symbol.wf());
        assert(member_offset(checked, c, poses, k) is Some);
        if k < c.1.len() {
            crate::pins::pin_offset_in_reach(e, poses[k], c.1[k] as int);
        }
        if k > 0 {
            crate::pins::pin_offset_in_reach(e, poses[k], c.1[k - 1] as int);
        }
    }
    assert forall|k: int| 0 <= k < c.0.len() implies now.spots[#[trigger] c.0[k] as int].origin.within(
        limit,
    ) by {
        assert(now.spots[cols[n].0[k] as int] == start.spots[cols[n].0[k] as int]);
        assert(start.spots[c.0[k] as int].origin.within(limit));
    }
    frame_bound(
        now.spots,
        checked,
        now.pinned,
        columned,
        c,
        offsets,
        exts,
        carried,
        limit,
    );
}

/// Drawing one column keeps the state.
proof fn column_keeps(
    start: Layout,
    now: Layout,
    checked: &CheckedNetlist,
    allowed: Seq<Vec<Orientation>>,
    placer: Placer,
    cols: Seq<ColumnView>,
    n: int,
    limit: int,
)
    requires
        checked.drawable(),
        start.sized(checked.elements@.len() as int),
        spots_within(start.spots, limit),
        0 <= limit <= MAX_COORD,
        sound_columns(checked, cols),
        0 <= n < cols.len(),
        column_state(start, now, checked, cols, n, limit),
    ensures
        column_state(
            start,
            column_step(
                now,
                checked,
                allowed,
                members_of(cols, checked.elements@.len()),
                placer,
                cols[n],
            ),
            checked,
            cols,
            n + 1,
            limit,
        ),
{
    let c = cols[n];
    let columned = members_of(cols, checked.elements@.len());
    if drawable_column(now, checked, allowed, c) {
        column_parts(start, now, checked, allowed, placer, cols, n, limit);
        let pin_it = placer.dc_series_columns_pinned;
        let poses = member_poses(checked, allowed, c);
        let offsets = member_offsets(checked, c, poses);
        let exts = member_extents(checked, c, poses);
        let carried = carried_by(checked, now.pinned, allowed, columned, c, poses, placer);
        let frame = column_frame(now.spots, c, offsets, exts, carried);
        let mid = members_placed(now, c, poses, offsets, frame, pin_it, c.0.len() as int);
        members_placed_keeps(
            now,
            checked,
            c,
            poses,
            offsets,
            frame,
            pin_it,
            c.0.len() as int,
            limit,
        );
        let (side, gap) = chosen_side(mid.spots, checked, c, carried, exts, frame);
        gap_bound(
            checked,
            now.pinned,
            columned,
            carried,
            exts,
            frame,
            true,
            carried.len() as int,
        );
        gap_bound(
            checked,
            now.pinned,
            columned,
            carried,
            exts,
            frame,
            false,
            carried.len() as int,
        );
        seated_keeps(
            now,
            mid,
            checked,
            columned,
            carried,
            frame,
            side,
            gap,
            pin_it,
            carried.len() as int,
            limit,
        );
        let after = seated(mid, carried, frame, side, gap, pin_it, carried.len() as int);
        assert forall|k: int, m: int|
            n + 1 <= k < cols.len() && 0 <= m < cols[k].0.len() implies after.spots[
            #[trigger] cols[k].0[m] as int] == start.spots[cols[k].0[m] as int] by {
            let i = cols[k].0[m] as int;
            assert(sound_column(checked, cols[k]));
            assert(in_some_column(cols, i));
            assert(columned[i]);
            assert(after.spots[i] == mid.spots[i]);
            if mid.spots[i] != now.spots[i] {
                let b = choose|b: int| 0 <= b < c.0.len() && c.0[b] == i;
                assert(cols[n].0[b] != cols[k].0[m]);
            }
            assert(now.spots[cols[k].0[m] as int] == start.spots[cols[k].0[m] as int]);
        }
    }
}

/// The pass moves no pinned element, and moves none far.
pub proof fn columns_respect_pins(
    layout: Layout,
    checked: &CheckedNetlist,
    allowed: Seq<Vec<Orientation>>,
    placer: Placer,
    cols: Seq<ColumnView>,
    n: int,
    limit: int,
)
    requires
        checked.drawable(),
        layout.sized(checked.elements@.len() as int),
        spots_within(layout.spots, limit),
        0 <= limit <= MAX_COORD,
        columns_of(checked, cols),
        checked.nets@.len() <= usize::MAX,
        0 <= n <= cols.len(),
    ensures
        column_state(
            layout,
            columns_drawn(layout, checked, allowed, placer, cols, n),
            checked,
            cols,
            n,
            limit,
        ),
    decreases n,
{
    detected_columns_are_sound(checked, cols);
    if n > 0 {
        columns_respect_pins(layout, checked, allowed, placer, cols, n - 1, limit);
        column_keeps(
            layout,
            columns_drawn(layout, checked, allowed, placer, cols, n - 1),
            checked,
            allowed,
            placer,
            cols,
            n - 1,
            limit,
        );
    } else {
        assert forall|i: int| 0 <= i < layout.spots.len() implies (
        #[trigger] layout.spots[i]).origin.within(limit + COLUMN_SPREAD) by {
            assert(layout.spots[i].origin.within(limit));
        }
    }
}

/// A carried stub is level with its member: the pins by which they are joined
/// are at most half a grid step apart in height, and exactly level where the
/// pins are on the grid.
pub proof fn carried_stubs_are_level(s: Carried, frame: (int, Seq<int>), side: int, gap: int)
    ensures
        ({
            let stub = stub_origin(s, frame, side, gap).1 * GRID_STEP + s.pin.1;
            let member = frame.1[s.member] * GRID_STEP + s.anchor_dy;
            &&& -GRID_STEP <= 2 * (stub - member) <= GRID_STEP
            &&& (s.anchor_dy - s.pin.1) % (GRID_STEP as int) == 0 ==> stub == member
        }),
{
    let d = s.anchor_dy - s.pin.1;
    let r = level_steps(s);
    let y = frame.1[s.member];
    rounding_is_nearest(d, GRID_STEP as int);
    assert((y + r) * GRID_STEP == y * GRID_STEP + r * GRID_STEP) by (nonlinear_arith);
    if d % (GRID_STEP as int) == 0 {
        exact_quotients_stay(d / (GRID_STEP as int), GRID_STEP as int);
    }
}

// What a drawn column looks like.

proof fn members_land(
    layout: Layout,
    checked: &CheckedNetlist,
    c: ColumnView,
    poses: Seq<Orientation>,
    offsets: Seq<int>,
    frame: (int, Seq<int>),
    pin_it: bool,
    n: int,
    k: int,
)
    requires
        sound_column(checked, c),
        layout.sized(checked.elements@.len() as int),
        0 <= k < n <= c.0.len(),
    ensures
        ({
            let after = members_placed(layout, c, poses, offsets, frame, pin_it, n);
            &&& after.sized(checked.elements@.len() as int)
            &&& after.spots[c.0[k] as int].origin == (GridPoint {
                x: (frame.0 - offsets[k]) as i32,
                y: frame.1[k] as i32,
            })
        }),
    decreases n,
{
    if n > 1 {
        let rest = members_placed(layout, c, poses, offsets, frame, pin_it, n - 1);
        if k < n - 1 {
            members_land(layout, checked, c, poses, offsets, frame, pin_it, n - 1, k);
            assert(c.0[k] != c.0[n - 1]);
        } else {
            members_land(layout, checked, c, poses, offsets, frame, pin_it, n - 1, 0);
        }
        assert(rest.spots.len() == checked.elements@.len());
    } else {
        assert(members_placed(layout, c, poses, offsets, frame, pin_it, 0) == layout);
    }
}

/// Drawing a column leaves the members of all columns where placing its own
/// members has put them.
proof fn stubs_spare_members(
    start: Layout,
    now: Layout,
    checked: &CheckedNetlist,
    allowed: Seq<Vec<Orientation>>,
    placer: Placer,
    cols: Seq<ColumnView>,
    n: int,
    limit: int,
)
    requires
        checked.drawable(),
        start.sized(checked.elements@.len() as int),
        spots_within(start.spots, limit),
        0 <= limit <= MAX_COORD,
        sound_columns(checked, cols),
        0 <= n < cols.len(),
        column_state(start, now, checked, cols, n, limit),
        drawable_column(now, checked, allowed, cols[n]),
    ensures
        ({
            let c = cols[n];
            let columned = members_of(cols, checked.elements@.len());
            let poses = member_poses(checked, allowed, c);
            let offsets = member_offsets(checked, c, poses);
            let exts = member_extents(checked, c, poses);
            let carried = carried_by(checked, now.pinned, allowed, columned, c, poses, placer);
            let frame = column_frame(now.spots, c, offsets, exts, carried);
            let pin_it = placer.dc_series_columns_pinned;
            let mid = members_placed(now, c, poses, offsets, frame, pin_it, c.0.len() as int);
            let after = column_step(now, checked, allowed, columned, placer, c);
            &&& frame_within(frame, limit)
            &&& mid.sized(checked.elements@.len() as int)
            &&& after.sized(checked.elements@.len() as int)
            &&& forall|k: int| 0 <= k < offsets.len() ==> -800 <= #[trigger] offsets[k] <= 800
            &&& forall|i: int|
                0 <= i < after.spots.len() && columned[i] ==> (#[trigger] after.spots[i])
                    == mid.spots[i]
            &&& forall|i: int|
                0 <= i < mid.spots.len() ==> (#[trigger] mid.spots[i]) == now.spots[i] || exists|
                    k: int,
                | 0 <= k < c.0.len() && c.0[k] == i
        }),
{
    let c = cols[n];
    let columned = members_of(cols, checked.elements@.len());
    column_parts(start, now, checked, allowed, placer, cols, n, limit);
    let pin_it = placer.dc_series_columns_pinned;
    let poses = member_poses(checked, allowed, c);
    let offsets = member_offsets(checked, c, poses);
    let exts = member_extents(checked, c, poses);
    let carried = carried_by(checked, now.pinned, allowed, columned, c, poses, placer);
    let frame = column_frame(now.spots, c, offsets, exts, carried);
    let mid = members_placed(now, c, poses, offsets, frame, pin_it, c.0.len() as int);
    members_placed_keeps(
        now,
        checked,
        c,
        poses,
        offsets,
        frame,
        pin_it,
        c.0.len() as int,
        limit,
    );
    let (side, gap) = chosen_side(mid.spots, checked, c, carried, exts, frame);
    let m = carried.len() as int;
    gap_bound(checked, now.pinned, columned, carried, exts, frame, true, m);
    gap_bound(checked, now.pinned, columned, carried, exts, frame, false, m);
    seated_keeps(now, mid, checked, columned, carried, frame, side, gap, pin_it, m, limit);
}

/// The members of column `n` stay where they are while later columns are drawn.
proof fn drawn_columns_stay(
    layout: Layout,
    checked: &CheckedNetlist,
    allowed: Seq<Vec<Orientation>>,
    placer: Placer,
    cols: Seq<ColumnView>,
    n: int,
    last: int,
    limit: int,
    k: int,
)
    requires
        checked.drawable(),
        layout.sized(checked.elements@.len() as int),
        spots_within(layout.spots, limit),
        0 <= limit <= MAX_COORD,
        columns_of(checked, cols),
        checked.nets@.len() <= usize::MAX,
        0 <= n < last <= cols.len(),
        0 <= k < cols[n].0.len(),
    ensures
        columns_drawn(layout, checked, allowed, placer, cols, last).spots[cols[n].0[k] as int]
            == columns_drawn(layout, checked, allowed, placer, cols, n + 1).spots[cols[n].0[
            k] as int],
    decreases last,
{
    detected_columns_are_sound(checked, cols);
    if n + 1 < last {
        drawn_columns_stay(layout, checked, allowed, placer, cols, n, last - 1, limit, k);
        columns_respect_pins(layout, checked, allowed, placer, cols, last - 1, limit);
        let now = columns_drawn(layout, checked, allowed, placer, cols, last - 1);
        let i = cols[n].0[k] as int;
        assert(sound_column(checked, cols[n]));
        assert(in_some_column(cols, i));
        if drawable_column(now, checked, allowed, cols[last - 1]) {
            stubs_spare_members(
                layout,
                now,
                checked,
                allowed,
                placer,
                cols,
                last - 1,
                limit,
            );
            let after = columns_drawn(layout, checked, allowed, placer, cols, last);
            assert(members_of(cols, checked.elements@.len())[i]);
            assert(after.spots[i] == now.spots[i]) by {
                if after.spots[i] != now.spots[i] {
                    let c = cols[last - 1];
                    let b = choose|b: int| 0 <= b < c.0.len() && c.0[b] == i;
                    assert(cols[n].0[k] != cols[last - 1].0[b]);
                }
            }
        }
    }
}

/// A drawn column is a straight stack: the pins by which neighbours are joined
/// are on one vertical line, and every member stands below the one before it,
/// far enough for their bodies to be clear of each other.
pub proof fn drawn_columns_line_up(
    layout: Layout,
    checked: &CheckedNetlist,
    allowed: Seq<Vec<Orientation>>,
    placer: Placer,
    cols: Seq<ColumnView>,
    n: int,
    limit: int,
    k: int,
)
    requires
        checked.drawable(),
        layout.sized(checked.elements@.len() as int),
        spots_within(layout.spots, limit),
        0 <= limit <= MAX_COORD,
        columns_of(checked, cols),
        checked.nets@.len() <= usize::MAX,
        0 <= n < cols.len(),
        0 <= k < cols[n].0.len() - 1,
        drawable_column(
            columns_drawn(layout, checked, allowed, placer, cols, n),
            checked,
            allowed,
            cols[n],
        ),
    ensures
        ({
            let c = cols[n];
            let after = columns_drawn(layout, checked, allowed, placer, cols, cols.len() as int);
            let poses = member_poses(checked, allowed, c);
            let (a, b) = (after.spots[c.0[k] as int].origin, after.spots[c.0[k + 1] as int].origin);
            let (upper, lower) = (
                member_extent(checked, c, poses, k),
                member_extent(checked, c, poses, k + 1),
            );
            &&& shared_cells(checked.elements@[c.0[k] as int], poses[k], c.1[k] as int) matches Some(
                p,
            )
            &&& shared_cells(
                checked.elements@[c.0[k + 1] as int],
                poses[k + 1],
                c.1[k] as int,
            ) matches Some(q)
            &&& a.x + p == b.x + q
            &&& a.y < b.y
            &&& a.y * GRID_STEP + upper.max_y + MIN_CLEARANCE <= b.y * GRID_STEP + lower.min_y
        }),
{
    let c = cols[n];
    let now = columns_drawn(layout, checked, allowed, placer, cols, n);
    let columned = members_of(cols, checked.elements@.len());
    let poses = member_poses(checked, allowed, c);
    let offsets = member_offsets(checked, c, poses);
    let exts = member_extents(checked, c, poses);
    let carried = carried_by(checked, now.pinned, allowed, columned, c, poses, placer);
    let frame = column_frame(now.spots, c, offsets, exts, carried);
    let pin_it = placer.dc_series_columns_pinned;
    let last = cols.len() as int;
    detected_columns_are_sound(checked, cols);
    assert(sound_column(checked, c));
    columns_respect_pins(layout, checked, allowed, placer, cols, n, limit);
    stubs_spare_members(layout, now, checked, allowed, placer, cols, n, limit);
    members_land(now, checked, c, poses, offsets, frame, pin_it, c.0.len() as int, k);
    members_land(now, checked, c, poses, offsets, frame, pin_it, c.0.len() as int, k + 1);
    drawn_columns_stay(layout, checked, allowed, placer, cols, n, last, limit, k);
    drawn_columns_stay(layout, checked, allowed, placer, cols, n, last, limit, k + 1);
    assert(in_some_column(cols, cols[n].0[k] as int));
    assert(in_some_column(cols, cols[n].0[k + 1] as int));
    let after = columns_drawn(layout, checked, allowed, placer, cols, last);
    let (a, b) = (after.spots[c.0[k] as int].origin, after.spots[c.0[k + 1] as int].origin);
    assert(member_offset(checked, c, poses, k) is Some);
    assert(member_offset(checked, c, poses, k + 1) is Some);
    assert(-800 <= offsets[k] <= 800 && -800 <= offsets[k + 1] <= 800);
    assert(-(limit + 336_000_000) <= frame.1[k] <= limit + 336_000_000);
    assert(-(limit + 336_000_000) <= frame.1[k + 1] <= limit + 336_000_000);
    assert(a.x == frame.0 - offsets[k] && b.x == frame.0 - offsets[k + 1]);
    assert(a.y == frame.1[k] && b.y == frame.1[k + 1]);
    assert(b.y == a.y + member_stride(exts, carried, k));
    let steps = vertical_steps(exts[k], exts[k + 1]);
    vertical_steps_clear(exts[k], exts[k + 1], a.y as int);
    assert((a.y + steps) * GRID_STEP <= b.y * GRID_STEP) by (nonlinear_arith)
        requires
            a.y + steps <= b.y,
            GRID_STEP == 1270,
    ;
}

// The pass.

/// The Y span of the stubs that are level with a member.
fn span_of(carried: &Vec<CarriedStub>, member: usize) -> (r: Option<(i64, i64)>)
    requires
        forall|k: int|
            0 <= k < carried@.len() ==> {
                let s = (#[trigger] carried@[k])@;
                in_reach(s.pin.1) && in_reach(s.anchor_dy) && s.ext.within(EXTENT_LIMIT as int)
            },
    ensures
        match r {
            Some(s) => {
                &&& carried_span(
                    carried_views(carried@),
                    member as int,
                    carried@.len() as int,
                ) == Some((s.0 as int, s.1 as int))
                &&& -3_200_000 <= s.0 <= 3_200_000 && -3_200_000 <= s.1 <= 3_200_000
            },
            None => carried_span(
                carried_views(carried@),
                member as int,
                carried@.len() as int,
            ) is None,
        },
{
    let ghost views = carried_views(carried@);
    let mut span: Option<(i64, i64)> = None;
    let mut k: usize = 0;
    while k < carried.len()
        invariant
            k <= carried@.len(),
            views == carried_views(carried@),
            forall|k: int|
                0 <= k < carried@.len() ==> {
                    let s = (#[trigger] carried@[k])@;
                    in_reach(s.pin.1) && in_reach(s.anchor_dy) && s.ext.within(EXTENT_LIMIT as int)
                },
            match span {
                Some(s) => {
                    &&& carried_span(views, member as int, k as int) == Some(
                        (s.0 as int, s.1 as int),
                    )
                    &&& -3_200_000 <= s.0 <= 3_200_000 && -3_200_000 <= s.1 <= 3_200_000
                },
                None => carried_span(views, member as int, k as int) is None,
            },
        decreases carried@.len() - k,
    {
        let s = &carried[k];
        assert(views[k as int] == carried@[k as int]@);
        assert(carried@[k as int]@.ext.within(EXTENT_LIMIT as int));
        if s.member == member {
            let d: i64 = s.anchor_dy - s.pin.1;
            let (lo, hi) = (s.ext.min_y + d, s.ext.max_y + d);
            span = match span {
                None => Some((lo, hi)),
                Some((a, b)) => Some(
                    (
                        if a <= lo {
                            a
                        } else {
                            lo
                        },
                        if b >= hi {
                            b
                        } else {
                            hi
                        },
                    ),
                ),
            };
        }
        k = k + 1;
    }
    span
}

/// The views of extents.
pub open spec fn boxes(exts: Seq<WorldExtent>) -> Seq<Bounds> {
    Seq::new(exts.len(), |k: int| exts[k]@)
}

/// The steps from the first member to each.
fn drops_of(
    exts: &Vec<WorldExtent>,
    carried: &Vec<CarriedStub>,
    Ghost(checked): Ghost<&CheckedNetlist>,
    Ghost(pinned): Ghost<Seq<bool>>,
    Ghost(columned): Ghost<Seq<bool>>,
) -> (r: Vec<i32>)
    requires
        0 < exts@.len() <= MAX_ELEMENTS,
        boxes_within(boxes(exts@)),
        all_carried_ok(
            checked,
            pinned,
            columned,
            exts@.len() as int,
            carried_views(carried@),
        ),
    ensures
        r@.len() == exts@.len(),
        forall|k: int|
            0 <= k < r@.len() ==> (#[trigger] r@[k]) == member_drop(
                boxes(exts@),
                carried_views(carried@),
                k,
            ) && 0 <= r@[k] <= 5100 * k,
{
    let ghost bs = boxes(exts@);
    let ghost views = carried_views(carried@);
    let mut out: Vec<i32> = Vec::new();
    out.push(0);
    let mut k: usize = 1;
    while k < exts.len()
        invariant
            1 <= k <= exts@.len(),
            exts@.len() <= MAX_ELEMENTS,
            bs == boxes(exts@),
            views == carried_views(carried@),
            boxes_within(bs),
            all_carried_ok(checked, pinned, columned, exts@.len() as int, views),
            out@.len() == k,
            forall|j: int|
                0 <= j < k ==> (#[trigger] out@[j]) == member_drop(bs, views, j) && 0 <= out@[j]
                    <= 5100 * j,
        decreases exts@.len() - k,
    {
        proof {
            assert(bs[k - 1].within(EXTENT_LIMIT as int) && bs[k as int].within(
                EXTENT_LIMIT as int,
            ));
            stride_bound(checked, pinned, columned, bs, views, k - 1);
            assert forall|j: int| 0 <= j < carried@.len() implies {
                let s = (#[trigger] carried@[j])@;
                in_reach(s.pin.1) && in_reach(s.anchor_dy) && s.ext.within(EXTENT_LIMIT as int)
            } by {
                assert(carried_ok(checked, pinned, columned, exts@.len() as int, views[j]));
            }
        }
        let body: i32 = vertical_stride_cells(&exts[k - 1], &exts[k]);
        let need: i32 = match (span_of(carried, k - 1), span_of(carried, k)) {
            (Some(a), Some(b)) => up_to_cells(a.1 - b.0 + MIN_CLEARANCE),
            _ => 0,
        };
        let step: i32 = if body >= need {
            body
        } else {
            need
        };
        assert(step + COLUMN_LABEL_MARGIN == member_stride(bs, views, k - 1));
        let last: i32 = out[k - 1];
        out.push(last + step + COLUMN_LABEL_MARGIN);
        k = k + 1;
    }
    out
}

/// The executable frame of a column.
struct Frame {
    x: i32,
    ys: Vec<i32>,
}

spec fn frame_view(f: Frame) -> (int, Seq<int>) {
    (f.x as int, Seq::new(f.ys@.len(), |k: int| f.ys@[k] as int))
}

fn floor_mean(s: i64, n: i64) -> (r: i64)
    requires
        0 < n <= MAX_ELEMENTS,
        -0x1_0000_0000_0000 <= s <= 0x1_0000_0000_0000,
    ensures
        r == s as int / n as int,
{
    if s >= 0 {
        s / n
    } else {
        let m: i64 = -s;
        let q: i64 = m / n;
        let rem: i64 = m % n;
        proof {
            vstd::arithmetic::div_mod::lemma_fundamental_div_mod(m as int, n as int);
            assert(m == n * q + rem);
            if rem == 0 {
                assert(s == n * (-q)) by (nonlinear_arith)
                    requires
                        m == n * q + rem,
                        rem == 0,
                        s == -m,
                ;
                vstd::arithmetic::div_mod::lemma_fundamental_div_mod_converse(
                    s as int,
                    n as int,
                    -q as int,
                    0,
                );
            } else {
                assert(s == (-q - 1) * n + (n - rem)) by (nonlinear_arith)
                    requires
                        m == n * q + rem,
                        s == -m,
                ;
                assert(0 < rem < n);
                vstd::arithmetic::div_mod::lemma_fundamental_div_mod_converse(
                    s as int,
                    n as int,
                    -q - 1,
                    n - rem,
                );
            }
        }
        if rem == 0 {
            -q
        } else {
            -q - 1
        }
    }
}

/// The frame of a column.
fn frame_of(
    placement: &Placement,
    col: &DcColumn,
    offsets: &Vec<i32>,
    drops: &Vec<i32>,
    Ghost(checked): Ghost<&CheckedNetlist>,
    Ghost(exts): Ghost<Seq<Bounds>>,
    Ghost(carried): Ghost<Seq<Carried>>,
    Ghost(spec_offsets): Ghost<Seq<int>>,
) -> (r: Frame)
    requires
        shaped(checked, view_of(*col)),
        placement.elements@.len() == checked.elements@.len(),
        col.members@.len() <= MAX_ELEMENTS,
        offsets@.len() == col.members@.len(),
        spec_offsets.len() == offsets@.len(),
        forall|k: int|
            0 <= k < offsets@.len() ==> (#[trigger] offsets@[k]) == spec_offsets[k] && -800
                <= offsets@[k] <= 800,
        drops@.len() == col.members@.len(),
        forall|k: int|
            0 <= k < drops@.len() ==> (#[trigger] drops@[k]) == member_drop(exts, carried, k) && 0
                <= drops@[k] <= 5100 * k,
        forall|k: int|
            0 <= k < col.members@.len() ==> placement.spots()[#[trigger] col.members@[k] as int]
                .origin.within(MAX_COORD as int),
    ensures
        frame_view(r) == column_frame(
            placement.spots(),
            view_of(*col),
            spec_offsets,
            exts,
            carried,
        ),
        r.ys@.len() == col.members@.len(),
{
    let ghost spots = placement.spots();
    let ghost c = view_of(*col);
    let n: usize = col.members.len();
    let (mut sx, mut sy): (i64, i64) = (0, 0);
    let mut k: usize = 0;
    proof {
        assert forall|k: int| 0 <= k < spec_offsets.len() implies -800 <= #[trigger] spec_offsets[k]
            <= 800 by {
            assert(offsets@[k] == spec_offsets[k]);
        }
    }
    while k < n
        invariant
            k <= n,
            n == col.members@.len(),
            n <= MAX_ELEMENTS,
            c == view_of(*col),
            spots == placement.spots(),
            shaped(checked, c),
            placement.elements@.len() == checked.elements@.len(),
            offsets@.len() == n,
            spec_offsets.len() == n,
            forall|k: int|
                0 <= k < offsets@.len() ==> (#[trigger] offsets@[k]) == spec_offsets[k] && -800
                    <= offsets@[k] <= 800,
            forall|k: int|
                0 <= k < c.0.len() ==> spots[#[trigger] c.0[k] as int].origin.within(
                    MAX_COORD as int,
                ),
            forall|k: int| 0 <= k < spec_offsets.len() ==> -800 <= #[trigger] spec_offsets[k]
                <= 800,
            (sx as int, sy as int) == member_sums(spots, c, spec_offsets, k as int),
        decreases n - k,
    {
        proof {
            sums_bound(spots, c, spec_offsets, k as int, MAX_COORD as int);
            assert(k * (MAX_COORD + 800) <= 65536 * (MAX_COORD + 800)) by (nonlinear_arith)
                requires
                    0 <= k <= 65536,
            ;
            assert(k * MAX_COORD <= 65536 * MAX_COORD) by (nonlinear_arith)
                requires
                    0 <= k <= 65536,
            ;
            assert(spots[c.0[k as int] as int].origin.within(MAX_COORD as int));
        }
        let i: usize = col.members[k];
        assert(c.0[k as int] == i);
        let at = placement.elements[i].origin;
        assert(spots[i as int].origin == at);
        sx = sx + at.x as i64 + offsets[k] as i64;
        sy = sy + at.y as i64;
        k = k + 1;
    }
    proof {
        sums_bound(spots, c, spec_offsets, n as int, MAX_COORD as int);
        assert(n * (MAX_COORD + 800) <= 65536 * (MAX_COORD + 800)) by (nonlinear_arith)
            requires
                0 <= n <= 65536,
        ;
        assert(n * MAX_COORD <= 65536 * MAX_COORD) by (nonlinear_arith)
            requires
                0 <= n <= 65536,
        ;
        mean_bound(sx as int, n as int, MAX_COORD + 800);
        mean_bound(sy as int, n as int, MAX_COORD as int);
    }
    let x: i64 = floor_mean(sx, n as i64);
    let mean_y: i64 = floor_mean(sy, n as i64);
    let total: i32 = drops[n - 1];
    let top: i32 = mean_y as i32 - total / 2;
    let mut ys: Vec<i32> = Vec::new();
    let mut k: usize = 0;
    while k < n
        invariant
            k <= n,
            n <= MAX_ELEMENTS,
            drops@.len() == n,
            forall|k: int|
                0 <= k < drops@.len() ==> (#[trigger] drops@[k]) == member_drop(exts, carried, k)
                    && 0 <= drops@[k] <= 5100 * k,
            -(MAX_COORD + 336_000_000) <= top <= MAX_COORD,
            ys@.len() == k,
            forall|j: int|
                0 <= j < k ==> (#[trigger] ys@[j]) == top + member_drop(exts, carried, j),
        decreases n - k,
    {
        let d: i32 = drops[k];
        ys.push(top + d);
        k = k + 1;
    }
    let f = Frame { x: x as i32, ys };
    proof {
        let want = column_frame(spots, c, spec_offsets, exts, carried);
        assert(frame_view(f).1 =~= want.1);
    }
    f
}

/// The steps from the line to the nearest stub on a side.
fn carried_gap_cells(
    carried: &Vec<CarriedStub>,
    exts: &Vec<WorldExtent>,
    frame: &Frame,
    right: bool,
    Ghost(checked): Ghost<&CheckedNetlist>,
    Ghost(pinned): Ghost<Seq<bool>>,
    Ghost(columned): Ghost<Seq<bool>>,
) -> (r: i32)
    requires
        boxes_within(boxes(exts@)),
        all_carried_ok(
            checked,
            pinned,
            columned,
            exts@.len() as int,
            carried_views(carried@),
        ),
        frame.ys@.len() == exts@.len(),
        frame_within(frame_view(*frame), MAX_COORD as int),
    ensures
        r == carried_gap(
            carried_views(carried@),
            boxes(exts@),
            frame_view(*frame),
            right,
            carried@.len() as int,
        ),
        1 <= r <= 1740,
{
    let ghost bs = boxes(exts@);
    let ghost views = carried_views(carried@);
    let ghost f = frame_view(*frame);
    let mut gap: i32 = 1;
    let mut k: usize = 0;
    while k < carried.len()
        invariant
            k <= carried@.len(),
            bs == boxes(exts@),
            views == carried_views(carried@),
            f == frame_view(*frame),
            boxes_within(bs),
            all_carried_ok(checked, pinned, columned, exts@.len() as int, views),
            frame.ys@.len() == exts@.len(),
            frame_within(f, MAX_COORD as int),
            gap == carried_gap(views, bs, f, right, k as int),
            1 <= gap <= 1740,
        decreases carried@.len() - k,
    {
        let s = &carried[k];
        let ghost v = views[k as int];
        assert(v == s@);
        assert(carried_ok(checked, pinned, columned, exts@.len() as int, v));
        let level: i64 = round_quotient(s.anchor_dy - s.pin.1, GRID_STEP);
        assert(level == level_steps(v));
        proof {
            rounding_is_nearest(s.anchor_dy - s.pin.1, 1270);
            assert(f.1[s.member as int] == frame.ys@[s.member as int]);
        }
        let oy: i64 = (frame.ys[s.member] as i64 + level) * GRID_STEP;
        let (lo, hi) = (oy + s.ext.min_y, oy + s.ext.max_y);
        assert((lo as int, hi as int) == stub_rows(v, f));
        let mut reach: i64 = 0;
        let mut m: usize = 0;
        while m < exts.len()
            invariant
                m <= exts@.len(),
                bs == boxes(exts@),
                f == frame_view(*frame),
                boxes_within(bs),
                frame.ys@.len() == exts@.len(),
                frame_within(f, MAX_COORD as int),
                (lo as int, hi as int) == stub_rows(v, f),
                -2_700_000_000_000 <= lo <= 2_700_000_000_000,
                -2_700_000_000_000 <= hi <= 2_700_000_000_000,
                reach == member_reach(v, bs, f, right, m as int),
                0 <= reach <= EXTENT_LIMIT,
            decreases exts@.len() - m,
        {
            let e = &exts[m];
            assert(bs[m as int].within(EXTENT_LIMIT as int));
            assert(f.1[m as int] == frame.ys@[m as int]);
            let my: i64 = frame.ys[m] as i64 * GRID_STEP;
            if !(my + e.max_y + MIN_CLEARANCE <= lo || hi + MIN_CLEARANCE <= my + e.min_y) {
                let toward: i64 = if right {
                    e.max_x
                } else {
                    -e.min_x
                };
                if toward > reach {
                    reach = toward;
                }
            }
            m = m + 1;
        }
        let back: i64 = if right {
            -s.ext.min_x
        } else {
            s.ext.max_x
        };
        let need: i32 = up_to_cells(reach + back + MIN_CLEARANCE);
        if need > gap {
            gap = need;
        }
        k = k + 1;
    }
    gap
}

/// A box on the sheet, and whether it is the column's own.
struct SheetBox {
    own: bool,
    min_x: i64,
    max_x: i64,
    min_y: i64,
    max_y: i64,
}

spec fn boxes_of(
    v: Seq<SheetBox>,
    spots: Seq<Spot>,
    checked: &CheckedNetlist,
    c: ColumnView,
    carried: Seq<Carried>,
    n: int,
) -> bool {
    &&& v.len() == n
    &&& forall|i: int|
        0 <= i < n ==> {
            let b = extent_with_glyphs(
                checked.elements@[i],
                spots[i].orientation,
                None,
                prefs_of(checked),
            );
            let at = spots[i].origin.um();
            let s = #[trigger] v[i];
            &&& s.own == is_own(c, carried, i)
            &&& s.min_x == at.0 + b.min_x && s.max_x == at.0 + b.max_x
            &&& s.min_y == at.1 + b.min_y && s.max_y == at.1 + b.max_y
        }
}

/// The boxes of all elements.
fn sheet_boxes(
    placement: &Placement,
    checked: &CheckedNetlist,
    prefs: &Vec<Option<VertPref>>,
    col: &DcColumn,
    carried: &Vec<CarriedStub>,
) -> (r: Vec<SheetBox>)
    requires
        checked.drawable(),
        placement.elements@.len() == checked.elements@.len(),
        prefs@ == prefs_of(checked),
    ensures
        boxes_of(
            r@,
            placement.spots(),
            checked,
            view_of(*col),
            carried_views(carried@),
            checked.elements@.len() as int,
        ),
{
    let ghost spots = placement.spots();
    let ghost c = view_of(*col);
    let ghost views = carried_views(carried@);
    let mut out: Vec<SheetBox> = Vec::new();
    let mut i: usize = 0;
    while i < checked.elements.len()
        invariant
            i <= checked.elements@.len(),
            checked.drawable(),
            placement.elements@.len() == checked.elements@.len(),
            prefs@ == prefs_of(checked),
            spots == placement.spots(),
            c == view_of(*col),
            views == carried_views(carried@),
            boxes_of(out@, spots, checked, c, views, i as int),
        decreases checked.elements@.len() - i,
    {
        let mut own = false;
        let mut k: usize = 0;
        while k < col.members.len()
            invariant
                k <= col.members@.len(),
                c == view_of(*col),
                own == exists|j: int| 0 <= j < k && #[trigger] c.0[j] == i,
            decreases col.members@.len() - k,
        {
            if col.members[k] == i {
                assert(c.0[k as int] == i);
                own = true;
            }
            k = k + 1;
        }
        let ghost member = own;
        let mut k: usize = 0;
        while k < carried.len()
            invariant
                k <= carried@.len(),
                views == carried_views(carried@),
                own == (member || exists|j: int| 0 <= j < k && (#[trigger] views[j]).element == i),
            decreases carried@.len() - k,
        {
            assert(views[k as int] == carried@[k as int]@);
            if carried[k].element == i {
                assert(views[k as int].element == i);
                own = true;
            }
            k = k + 1;
        }
        assert(checked.elements@[i as int].symbol.wf());
        assert(nets_in_range(checked.elements@[i as int].nodes@, checked.nets@.len()));
        let o = placement.elements[i].orientation;
        assert(spots[i as int].orientation == o);
        let b = world_extent_with_glyphs(&checked.elements[i], o, &None, prefs);
        proof {
            extents_are_limited(checked.elements@[i as int], o, None, prefs@);
        }
        let (x, y) = placement.elements[i].origin.to_um();
        assert(spots[i as int].origin.um() == (x as int, y as int));
        let ghost before = out@;
        out.push(
            SheetBox {
                own,
                min_x: x + b.min_x,
                max_x: x + b.max_x,
                min_y: y + b.min_y,
                max_y: y + b.max_y,
            },
        );
        assert forall|j: int| 0 <= j < i implies out@[j] == before[j] by {}
        i = i + 1;
    }
    out
}

/// The origin of a carried stub on a side.
fn stub_point(
    s: &CarriedStub,
    frame: &Frame,
    right: bool,
    gap: i32,
    Ghost(checked): Ghost<&CheckedNetlist>,
    Ghost(pinned): Ghost<Seq<bool>>,
    Ghost(columned): Ghost<Seq<bool>>,
) -> (r: (i32, i32))
    requires
        carried_ok(checked, pinned, columned, frame.ys@.len() as int, s@),
        frame_within(frame_view(*frame), MAX_COORD as int),
        0 <= gap <= 1740,
    ensures
        (r.0 as int, r.1 as int) == stub_origin(
            s@,
            frame_view(*frame),
            if right {
                1
            } else {
                -1
            },
            gap as int,
        ),
        -(MAX_COORD + COLUMN_SPREAD) <= r.0 <= MAX_COORD + COLUMN_SPREAD,
        -(MAX_COORD + COLUMN_SPREAD) <= r.1 <= MAX_COORD + COLUMN_SPREAD,
{
    let ghost f = frame_view(*frame);
    let ghost side: int = if right {
        1
    } else {
        -1
    };
    proof {
        stub_origin_bound(
            checked,
            pinned,
            columned,
            s@,
            f,
            side,
            gap as int,
            MAX_COORD as int,
        );
        assert(f.1[s.member as int] == frame.ys@[s.member as int]);
    }
    let level: i64 = round_quotient(s.anchor_dy - s.pin.1, GRID_STEP);
    let dx: i64 = round_quotient(s.pin.0, GRID_STEP);
    let out: i64 = gap as i64 + s.slot as i64 * s.row_stride as i64;
    assert(out == gap + s@.slot * s@.row_stride);
    let x: i64 = if right {
        frame.x as i64 + out - dx
    } else {
        frame.x as i64 - out - dx
    };
    assert(side * out == if right {
        out as int
    } else {
        -out
    }) by (nonlinear_arith)
        requires
            side == if right {
                1int
            } else {
                -1
            },
    ;
    let y: i64 = frame.ys[s.member] as i64 + level;
    (x as i32, y as i32)
}

/// How many foreign elements the stubs would land on, on a side.
fn count_landings(
    foreign: &Vec<SheetBox>,
    carried: &Vec<CarriedStub>,
    frame: &Frame,
    right: bool,
    gap: i32,
    Ghost(checked): Ghost<&CheckedNetlist>,
    Ghost(pinned): Ghost<Seq<bool>>,
    Ghost(columned): Ghost<Seq<bool>>,
    Ghost(spots): Ghost<Seq<Spot>>,
    Ghost(c): Ghost<ColumnView>,
) -> (r: u64)
    requires
        checked.elements@.len() <= MAX_ELEMENTS,
        all_carried_ok(
            checked,
            pinned,
            columned,
            frame.ys@.len() as int,
            carried_views(carried@),
        ),
        frame_within(frame_view(*frame), MAX_COORD as int),
        0 <= gap <= 1740,
        boxes_of(
            foreign@,
            spots,
            checked,
            c,
            carried_views(carried@),
            checked.elements@.len() as int,
        ),
    ensures
        r == landings(
            spots,
            checked,
            c,
            carried_views(carried@),
            frame_view(*frame),
            if right {
                1
            } else {
                -1
            },
            gap as int,
            carried@.len() as int,
        ),
{
    let ghost views = carried_views(carried@);
    let ghost f = frame_view(*frame);
    let ghost side: int = if right {
        1
    } else {
        -1
    };
    let mut hits: u64 = 0;
    let mut k: usize = 0;
    while k < carried.len()
        invariant
            k <= carried@.len(),
            views == carried_views(carried@),
            f == frame_view(*frame),
            side == if right {
                1int
            } else {
                -1
            },
            checked.elements@.len() <= MAX_ELEMENTS,
            all_carried_ok(checked, pinned, columned, frame.ys@.len() as int, views),
            frame_within(f, MAX_COORD as int),
            0 <= gap <= 1740,
            boxes_of(foreign@, spots, checked, c, views, checked.elements@.len() as int),
            hits == landings(spots, checked, c, views, f, side, gap as int, k as int),
            hits <= k * 65536,
        decreases carried@.len() - k,
    {
        let s = &carried[k];
        let ghost v = views[k as int];
        assert(v == s@);
        assert(carried_ok(checked, pinned, columned, frame.ys@.len() as int, v));
        let (x, y) = stub_point(
            s,
            frame,
            right,
            gap,
            Ghost(checked),
            Ghost(pinned),
            Ghost(columned),
        );
        let (ox, oy) = (x as i64 * GRID_STEP, y as i64 * GRID_STEP);
        let (lo_x, hi_x) = (ox + s.ext.min_x, ox + s.ext.max_x);
        let (lo_y, hi_y) = (oy + s.ext.min_y, oy + s.ext.max_y);
        let ghost p = lands_on(spots, checked, c, views, f, side, gap as int, v);
        let ghost base = hits;
        let mut i: usize = 0;
        while i < foreign.len()
            invariant
                i <= foreign@.len(),
                foreign@.len() == checked.elements@.len(),
                checked.elements@.len() <= MAX_ELEMENTS,
                boxes_of(foreign@, spots, checked, c, views, checked.elements@.len() as int),
                p == lands_on(spots, checked, c, views, f, side, gap as int, v),
                (x as int, y as int) == stub_origin(v, f, side, gap as int),
                lo_x == x * GRID_STEP + v.ext.min_x,
                hi_x == x * GRID_STEP + v.ext.max_x,
                lo_y == y * GRID_STEP + v.ext.min_y,
                hi_y == y * GRID_STEP + v.ext.max_y,
                base <= 0x2_0000_0000 * 65536,
                hits == base + count(p, i as int),
                hits <= base + i,
            decreases foreign@.len() - i,
        {
            let b = &foreign[i];
            assert(foreign@[i as int] == *b);
            let hit = !b.own && lo_x < b.max_x && b.min_x < hi_x && lo_y < b.max_y && b.min_y
                < hi_y;
            assert(hit == p(i as int));
            if hit {
                hits = hits + 1;
            }
            i = i + 1;
        }
        proof {
            assert((k + 1) * 65536 == k * 65536 + 65536) by (nonlinear_arith);
        }
        k = k + 1;
    }
    hits
}

/// Seats the stubs that a column carries: all on one side of it, each level
/// with its member.
fn seat_carried_stubs(
    placement: &mut Placement,
    pinned: &mut Vec<bool>,
    checked: &CheckedNetlist,
    prefs: &Vec<Option<VertPref>>,
    carried: &Vec<CarriedStub>,
    col: &DcColumn,
    exts: &Vec<WorldExtent>,
    frame: &Frame,
    pin_it: bool,
    Ghost(base): Ghost<Layout>,
    Ghost(columned): Ghost<Seq<bool>>,
)
    requires
        checked.drawable(),
        old(placement).elements@.len() == checked.elements@.len(),
        old(pinned)@.len() == checked.elements@.len(),
        prefs@ == prefs_of(checked),
        boxes_within(boxes(exts@)),
        frame.ys@.len() == exts@.len(),
        frame_within(frame_view(*frame), MAX_COORD as int),
        all_carried_ok(
            checked,
            base.pinned,
            columned,
            exts@.len() as int,
            carried_views(carried@),
        ),
        base.sized(checked.elements@.len() as int),
        pins_hold(base, layout_of(*old(placement), *old(pinned))),
        old(placement).within(MAX_COORD + COLUMN_SPREAD),
    ensures
        same_parts(*old(placement), *final(placement)),
        ({
            let views = carried_views(carried@);
            let f = frame_view(*frame);
            let (side, gap) = chosen_side(
                old(placement).spots(),
                checked,
                view_of(*col),
                views,
                boxes(exts@),
                f,
            );
            layout_of(*final(placement), *final(pinned)) == seated(
                layout_of(*old(placement), *old(pinned)),
                views,
                f,
                side,
                gap,
                pin_it,
                carried@.len() as int,
            )
        }),
{
    let ghost views = carried_views(carried@);
    let ghost f = frame_view(*frame);
    let ghost bs = boxes(exts@);
    let ghost c = view_of(*col);
    let ghost start = layout_of(*placement, *pinned);
    if carried.len() == 0 {
        return ;
    }
    let mut leaning: i128 = 0;
    let mut k: usize = 0;
    while k < carried.len()
        invariant
            k <= carried@.len(),
            views == carried_views(carried@),
            all_carried_ok(checked, base.pinned, columned, exts@.len() as int, views),
            start == layout_of(*placement, *pinned),
            placement.elements@.len() == checked.elements@.len(),
            spots_within(start.spots, MAX_COORD + COLUMN_SPREAD),
            frame_within(f, MAX_COORD as int),
            f == frame_view(*frame),
            leaning == lean(start.spots, views, f.0, k as int),
            -(k * 4_000_000_000) <= leaning <= k * 4_000_000_000,
        decreases carried@.len() - k,
    {
        assert(carried_ok(checked, base.pinned, columned, exts@.len() as int, views[k as int]));
        assert(views[k as int] == carried@[k as int]@);
        let i: usize = carried[k].element;
        let x: i32 = placement.elements[i].origin.x;
        assert(start.spots[i as int].origin.x == x);
        assert(start.spots[i as int].origin.within(MAX_COORD + COLUMN_SPREAD));
        leaning = leaning + (x as i128 - frame.x as i128);
        k = k + 1;
    }
    let foreign = sheet_boxes(placement, checked, prefs, col, carried);
    let right: i32 = carried_gap_cells(
        carried,
        exts,
        frame,
        true,
        Ghost(checked),
        Ghost(base.pinned),
        Ghost(columned),
    );
    let left: i32 = carried_gap_cells(
        carried,
        exts,
        frame,
        false,
        Ghost(checked),
        Ghost(base.pinned),
        Ghost(columned),
    );
    let hits_right: u64 = count_landings(
        &foreign,
        carried,
        frame,
        true,
        right,
        Ghost(checked),
        Ghost(base.pinned),
        Ghost(columned),
        Ghost(start.spots),
        Ghost(c),
    );
    let hits_left: u64 = count_landings(
        &foreign,
        carried,
        frame,
        false,
        left,
        Ghost(checked),
        Ghost(base.pinned),
        Ghost(columned),
        Ghost(start.spots),
        Ghost(c),
    );
    let go_left = hits_left < hits_right || (hits_left == hits_right && leaning < 0);
    let gap: i32 = if go_left {
        left
    } else {
        right
    };
    let ghost side: int = if go_left {
        -1
    } else {
        1
    };
    assert((side, gap as int) == chosen_side(start.spots, checked, c, views, bs, f));
    let mut k: usize = 0;
    while k < carried.len()
        invariant
            k <= carried@.len(),
            checked.drawable(),
            views == carried_views(carried@),
            all_carried_ok(checked, base.pinned, columned, exts@.len() as int, views),
            frame.ys@.len() == exts@.len(),
            f == frame_view(*frame),
            frame_within(f, MAX_COORD as int),
            1 <= gap <= 1740,
            side == if go_left {
                -1int
            } else {
                1
            },
            same_parts(*old(placement), *placement),
            placement.elements@.len() == checked.elements@.len(),
            pinned@.len() == checked.elements@.len(),
            base.sized(checked.elements@.len() as int),
            start.sized(checked.elements@.len() as int),
            pins_hold(base, start),
            spots_within(start.spots, MAX_COORD + COLUMN_SPREAD),
            layout_of(*placement, *pinned) == seated(
                start,
                views,
                f,
                side,
                gap as int,
                pin_it,
                k as int,
            ),
        decreases carried@.len() - k,
    {
        let s = &carried[k];
        assert(views[k as int] == s@);
        assert(carried_ok(checked, base.pinned, columned, exts@.len() as int, views[k as int]));
        let (x, y) = stub_point(
            s,
            frame,
            !go_left,
            gap,
            Ghost(checked),
            Ghost(base.pinned),
            Ghost(columned),
        );
        let ghost prior = *placement;
        if pin_it {
            put_pinned(placement, pinned, s.element, GridPoint::new(x, y), s.pose);
        } else {
            let o = placement.elements[s.element].orientation;
            assert(placement.spots()[s.element as int].orientation == o);
            put(placement, s.element, GridPoint::new(x, y), o);
        }
        proof {
            same_parts_trans(*old(placement), prior, *placement);
        }
        k = k + 1;
    }
}

/// The poses of the members; none when some member has none.
fn choose_poses(
    checked: &CheckedNetlist,
    allowed: &Vec<Vec<Orientation>>,
    prefs: &Vec<Option<VertPref>>,
    facings: &Vec<Option<(usize, usize)>>,
    col: &DcColumn,
) -> (r: Option<Vec<Orientation>>)
    requires
        checked.drawable(),
        prefs@ == prefs_of(checked),
        facings@.len() == checked.elements@.len(),
        forall|i: int| 0 <= i < facings@.len() ==> #[trigger] facings@[i] == facing_of(checked, i),
        shaped(checked, view_of(*col)),
    ensures
        match r {
            Some(v) => {
                &&& v@ == member_poses(checked, allowed@, view_of(*col))
                &&& forall|k: int|
                    0 <= k < col.members@.len() ==> #[trigger] member_pose(
                        checked,
                        allowed@,
                        view_of(*col),
                        k,
                    ) is Some
            },
            None => exists|k: int|
                0 <= k < col.members@.len() && #[trigger] member_pose(
                    checked,
                    allowed@,
                    view_of(*col),
                    k,
                ) is None,
        },
{
    let ghost c = view_of(*col);
    let mut out: Vec<Orientation> = Vec::new();
    let mut k: usize = 0;
    while k < col.members.len()
        invariant
            k <= col.members@.len(),
            checked.drawable(),
            prefs@ == prefs_of(checked),
            facings@.len() == checked.elements@.len(),
            forall|i: int|
                0 <= i < facings@.len() ==> #[trigger] facings@[i] == facing_of(checked, i),
            c == view_of(*col),
            shaped(checked, c),
            out@.len() == k,
            forall|j: int|
                0 <= j < k ==> #[trigger] member_pose(checked, allowed@, c, j) == Some(out@[j]),
        decreases col.members@.len() - k,
    {
        let i: usize = col.members[k];
        assert(c.0[k as int] == i);
        assert(checked.elements@[i as int].symbol.wf());
        assert(nets_in_range(checked.elements@[i as int].nodes@, checked.nets@.len()));
        let pose = if i < allowed.len() {
            column_pose(&checked.elements[i], facings[i], prefs, &allowed[i])
        } else {
            None
        };
        assert(pose == member_pose(checked, allowed@, c, k as int));
        match pose {
            Some(o) => {
                out.push(o);
            },
            None => {
                return None;
            },
        }
        k = k + 1;
    }
    assert(out@ =~= member_poses(checked, allowed@, c)) by {
        assert forall|j: int| 0 <= j < c.0.len() implies out@[j] == member_poses(
            checked,
            allowed@,
            c,
        )[j] by {
            assert(member_pose(checked, allowed@, c, j) == Some(out@[j]));
        }
    }
    Some(out)
}

/// Draws one column, or leaves everything as it is when it cannot be drawn.
fn draw_column(
    placement: &mut Placement,
    pinned: &mut Vec<bool>,
    checked: &CheckedNetlist,
    allowed: &Vec<Vec<Orientation>>,
    prefs: &Vec<Option<VertPref>>,
    facings: &Vec<Option<(usize, usize)>>,
    stubs: &Vec<crate::rail_stub::RailStub>,
    columned: &Vec<bool>,
    placer: Placer,
    col: &DcColumn,
    Ghost(start): Ghost<Layout>,
    Ghost(cols): Ghost<Seq<ColumnView>>,
    Ghost(n): Ghost<int>,
)
    requires
        checked.drawable(),
        old(placement).elements@.len() == checked.elements@.len(),
        old(pinned)@.len() == checked.elements@.len(),
        prefs@ == prefs_of(checked),
        facings@.len() == checked.elements@.len(),
        forall|i: int| 0 <= i < facings@.len() ==> #[trigger] facings@[i] == facing_of(checked, i),
        stubs@ == all_stubs(checked),
        columned@ == members_of(cols, checked.elements@.len()),
        sound_columns(checked, cols),
        0 <= n < cols.len(),
        view_of(*col) == cols[n],
        start.sized(checked.elements@.len() as int),
        spots_within(start.spots, MAX_COORD as int),
        column_state(
            start,
            layout_of(*old(placement), *old(pinned)),
            checked,
            cols,
            n,
            MAX_COORD as int,
        ),
    ensures
        same_parts(*old(placement), *final(placement)),
        layout_of(*final(placement), *final(pinned)) == column_step(
            layout_of(*old(placement), *old(pinned)),
            checked,
            allowed@,
            columned@,
            placer,
            view_of(*col),
        ),
{
    let ghost c = view_of(*col);
    let ghost now = layout_of(*placement, *pinned);
    assert(sound_column(checked, cols[n]));
    let mut k: usize = 0;
    while k < col.members.len()
        invariant
            k <= col.members@.len(),
            c == view_of(*col),
            shaped(checked, c),
            pinned@.len() == checked.elements@.len(),
            now.pinned == pinned@,
            forall|j: int| 0 <= j < k ==> !now.pinned[#[trigger] c.0[j] as int],
        decreases col.members@.len() - k,
    {
        let i: usize = col.members[k];
        assert(c.0[k as int] == i);
        if pinned[i] {
            assert(!drawable_column(now, checked, allowed@, c)) by {
                assert(now.pinned[c.0[k as int] as int]);
            }
            return ;
        }
        k = k + 1;
    }
    let poses = match choose_poses(checked, allowed, prefs, facings, col) {
        Some(p) => p,
        None => {
            return ;
        },
    };
    let offsets = match column_pin_offsets(checked, col, &poses) {
        Some(o) => o,
        None => {
            return ;
        },
    };
    let pin_it = placer.dc_series_columns_pinned;
    assert(drawable_column(now, checked, allowed@, c));
    proof {
        column_parts(start, now, checked, allowed@, placer, cols, n, MAX_COORD as int);
    }
    let carried = plan_carried_stubs(
        pinned,
        checked,
        allowed,
        prefs,
        col,
        &poses,
        stubs,
        columned,
        placer,
    );
    let ghost views = carried_views(carried@);
    let ghost spec_exts = member_extents(checked, c, poses@);
    let ghost spec_offsets = member_offsets(checked, c, poses@);
    let mut exts: Vec<WorldExtent> = Vec::new();
    let mut k: usize = 0;
    while k < col.members.len()
        invariant
            k <= col.members@.len(),
            checked.drawable(),
            c == view_of(*col),
            shaped(checked, c),
            poses@.len() == col.members@.len(),
            spec_exts == member_extents(checked, c, poses@),
            exts@.len() == k,
            forall|j: int| 0 <= j < k ==> (#[trigger] exts@[j])@ == spec_exts[j],
        decreases col.members@.len() - k,
    {
        let i: usize = col.members[k];
        assert(c.0[k as int] == i);
        assert(checked.elements@[i as int].symbol.wf());
        let ext = world_extent(&checked.elements[i].symbol, poses[k], &None);
        exts.push(ext);
        k = k + 1;
    }
    assert(boxes(exts@) =~= spec_exts);
    let drops = drops_of(
        &exts,
        &carried,
        Ghost(checked),
        Ghost(now.pinned),
        Ghost(columned@),
    );
    proof {
        assert forall|k: int| 0 <= k < offsets@.len() implies (#[trigger] offsets@[k])
            == spec_offsets[k] && -800 <= offsets@[k] <= 800 by {
            assert(member_offset(checked, c, poses@, k) == Some(offsets@[k] as int));
        }
    }
    let frame = frame_of(
        placement,
        col,
        &offsets,
        &drops,
        Ghost(checked),
        Ghost(spec_exts),
        Ghost(views),
        Ghost(spec_offsets),
    );
    let ghost f = frame_view(frame);
    assert(f == column_frame(now.spots, c, spec_offsets, spec_exts, views));
    let mut k: usize = 0;
    while k < col.members.len()
        invariant
            k <= col.members@.len(),
            c == view_of(*col),
            shaped(checked, c),
            f == frame_view(frame),
            frame.ys@.len() == col.members@.len(),
            frame_within(f, MAX_COORD as int),
            poses@.len() == col.members@.len(),
            offsets@.len() == col.members@.len(),
            spec_offsets.len() == offsets@.len(),
            forall|k: int|
                0 <= k < offsets@.len() ==> (#[trigger] offsets@[k]) == spec_offsets[k] && -800
                    <= offsets@[k] <= 800,
            same_parts(*old(placement), *placement),
            placement.elements@.len() == checked.elements@.len(),
            pinned@.len() == checked.elements@.len(),
            layout_of(*placement, *pinned) == members_placed(
                now,
                c,
                poses@,
                spec_offsets,
                f,
                pin_it,
                k as int,
            ),
        decreases col.members@.len() - k,
    {
        let i: usize = col.members[k];
        assert(c.0[k as int] == i);
        assert(f.1[k as int] == frame.ys@[k as int]);
        let off: i32 = offsets[k];
        let at = GridPoint::new(frame.x - off, frame.ys[k]);
        let ghost prior = *placement;
        if pin_it {
            put_pinned(placement, pinned, i, at, poses[k]);
        } else {
            let o = placement.elements[i].orientation;
            assert(placement.spots()[i as int].orientation == o);
            put(placement, i, at, o);
        }
        proof {
            same_parts_trans(*old(placement), prior, *placement);
        }
        k = k + 1;
    }
    proof {
        members_placed_keeps(
            now,
            checked,
            c,
            poses@,
            spec_offsets,
            f,
            pin_it,
            c.0.len() as int,
            MAX_COORD as int,
        );
    }
    let ghost prior = *placement;
    seat_carried_stubs(
        placement,
        pinned,
        checked,
        prefs,
        &carried,
        col,
        &exts,
        &frame,
        pin_it,
        Ghost(now),
        Ghost(columned@),
    );
    proof {
        same_parts_trans(*old(placement), prior, *placement);
    }
}

/// Draws every DC-series column of the netlist: the shared pins of its members
/// on one vertical line, the members in order of potential, and the rail
/// stubs of its nodes beside it. A column with a pinned member stays as it
/// is.
pub fn apply_dc_columns(
    placement: &mut Placement,
    pinned: &mut Vec<bool>,
    checked: &CheckedNetlist,
    allowed: &Vec<Vec<Orientation>>,
    placer: Placer,
)
    requires
        checked.drawable(),
        checked.nets@.len() < u32::MAX,
        old(placement).elements@.len() == checked.elements@.len(),
        old(pinned)@.len() == checked.elements@.len(),
        old(placement).within(MAX_COORD as int),
    ensures
        same_parts(*old(placement), *final(placement)),
        !placer.dc_series_columns ==> layout_of(*final(placement), *final(pinned)) == layout_of(
            *old(placement),
            *old(pinned),
        ),
        placer.dc_series_columns ==> exists|cols: Seq<ColumnView>| #[trigger]
            columns_of(checked, cols) && layout_of(*final(placement), *final(pinned))
                == columns_drawn(
                layout_of(*old(placement), *old(pinned)),
                checked,
                allowed@,
                placer,
                cols,
                cols.len() as int,
            ),
{
    if !placer.dc_series_columns {
        return ;
    }
    let ghost start = layout_of(*placement, *pinned);
    let prefs = vertical_prefs(checked);
    assert(prefs@ =~= prefs_of(checked));
    let facings = device_facings(checked);
    let stubs = detect_rail_stubs(checked);
    let columns = detect_dc_columns(checked);
    let ghost cols = column_views(columns@);
    proof {
        assert(checked.nets@.len() == checked.nets.len());
        detected_columns_are_sound(checked, cols);
    }
    let mut columned: Vec<bool> = Vec::new();
    let mut i: usize = 0;
    while i < checked.elements.len()
        invariant
            i <= checked.elements@.len(),
            cols == column_views(columns@),
            columned@.len() == i,
            forall|j: int| 0 <= j < i ==> #[trigger] columned@[j] == in_some_column(cols, j),
        decreases checked.elements@.len() - i,
    {
        let flag = column_member(&columns, i);
        columned.push(flag);
        i = i + 1;
    }
    assert(columned@ =~= members_of(cols, checked.elements@.len()));
    let mut k: usize = 0;
    while k < columns.len()
        invariant
            k <= columns@.len(),
            checked.drawable(),
            checked.nets@.len() < u32::MAX,
            cols == column_views(columns@),
            columns_of(checked, cols),
            sound_columns(checked, cols),
            prefs@ == prefs_of(checked),
            facings@.len() == checked.elements@.len(),
            forall|i: int|
                0 <= i < facings@.len() ==> #[trigger] facings@[i] == facing_of(checked, i),
            stubs@ == all_stubs(checked),
            columned@ == members_of(cols, checked.elements@.len()),
            same_parts(*old(placement), *placement),
            placement.elements@.len() == checked.elements@.len(),
            pinned@.len() == checked.elements@.len(),
            start.sized(checked.elements@.len() as int),
            spots_within(start.spots, MAX_COORD as int),
            layout_of(*placement, *pinned) == columns_drawn(
                start,
                checked,
                allowed@,
                placer,
                cols,
                k as int,
            ),
        decreases columns@.len() - k,
    {
        proof {
            columns_respect_pins(
                start,
                checked,
                allowed@,
                placer,
                cols,
                k as int,
                MAX_COORD as int,
            );
            columns_respect_pins(
                start,
                checked,
                allowed@,
                placer,
                cols,
                k + 1,
                MAX_COORD as int,
            );
            assert(cols[k as int] == view_of(columns@[k as int]));
        }
        let ghost prior = *placement;
        draw_column(
            placement,
            pinned,
            checked,
            allowed,
            &prefs,
            &facings,
            &stubs,
            &columned,
            placer,
            &columns[k],
            Ghost(start),
            Ghost(cols),
            Ghost(k as int),
        );
        proof {
            same_parts_trans(*old(placement), prior, *placement);
        }
        k = k + 1;
    }
    assert(columns_of(checked, cols));
}

/// Whether an element is a member of a column.
fn column_member(columns: &Vec<DcColumn>, i: usize) -> (r: bool)
    ensures
        r == in_some_column(column_views(columns@), i as int),
{
    let ghost cols = column_views(columns@);
    let mut k: usize = 0;
    while k < columns.len()
        invariant
            k <= columns@.len(),
            cols == column_views(columns@),
            forall|a: int, m: int|
                0 <= a < k && 0 <= m < cols[a].0.len() ==> #[trigger] cols[a].0[m] != i,
        decreases columns@.len() - k,
    {
        let col = &columns[k];
        assert(cols[k as int].0 == col.members@);
        let mut m: usize = 0;
        while m < col.members.len()
            invariant
                m <= col.members@.len(),
                k < columns@.len(),
                cols.len() == columns@.len(),
                cols[k as int].0 == col.members@,
                cols == column_views(columns@),
                forall|b: int| 0 <= b < m ==> #[trigger] cols[k as int].0[b] != i,
            decreases col.members@.len() - m,
        {
            if col.members[m] == i {
                assert(cols[k as int].0[m as int] == i);
                return true;
            }
            m = m + 1;
        }
        k = k + 1;
    }
    false
}

/// Neighbours in a column are clear of each other by 1.27 mm, with a step more
/// for a label, and so are the stubs that are level with the one from those
/// level with the other.
pub proof fn members_keep_clear(exts: Seq<Bounds>, carried: Seq<Carried>, k: int, a: int, b: int)
    requires
        0 <= a < carried.len() && carried[a].member == k,
        0 <= b < carried.len() && carried[b].member == k + 1,
    ensures
        ({
            let step = (member_stride(exts, carried, k) - 1) * 1270;
            let (s, t) = (carried[a], carried[b]);
            &&& exts[k].max_y + 1270 <= step + exts[k + 1].min_y
            &&& s.anchor_dy - s.pin.1 + s.ext.max_y + 1270 <= step + t.anchor_dy - t.pin.1
                + t.ext.min_y
        }),
{
    let n = carried.len() as int;
    vertical_steps_clear(exts[k], exts[k + 1], 0);
    spans_hold(carried, k, a, n);
    spans_hold(carried, k + 1, b, n);
    let need = (carried_span(carried, k, n)->0).1 - (carried_span(carried, k + 1, n)->0).0
        + MIN_CLEARANCE;
    crate::extent::lengths_round_up(need);
}

proof fn spans_hold(carried: Seq<Carried>, member: int, j: int, n: int)
    requires
        0 <= j < n <= carried.len(),
        carried[j].member == member,
    ensures
        carried_span(carried, member, n) matches Some((lo, hi)) && {
            let s = carried[j];
            lo <= s.ext.min_y + s.anchor_dy - s.pin.1 && s.ext.max_y + s.anchor_dy - s.pin.1 <= hi
        },
    decreases n,
{
    if j < n - 1 {
        spans_hold(carried, member, j, n - 1);
    }
}

/// The steps down a column are those between its neighbours, from the top.
pub proof fn columns_stack_downward(
    spots: Seq<Spot>,
    c: ColumnView,
    offsets: Seq<int>,
    exts: Seq<Bounds>,
    carried: Seq<Carried>,
    k: int,
)
    requires
        0 <= k < c.0.len() - 1,
    ensures
        ({
            let ys = column_frame(spots, c, offsets, exts, carried).1;
            &&& ys[k + 1] - ys[k] == member_stride(exts, carried, k)
            &&& (ys[k + 1] - ys[k] - 1) * 1270 >= exts[k].max_y - exts[k + 1].min_y + 1270
            &&& ys[k] < ys[k + 1]
        }),
{
    vertical_steps_clear(exts[k], exts[k + 1], 0);
}

/// Members whose shared pins are in line already keep that line, and members
/// of one height are stacked about it: the first as far above as the last is
/// below, to a step.
pub proof fn columns_stand_where_they_were(
    spots: Seq<Spot>,
    c: ColumnView,
    offsets: Seq<int>,
    exts: Seq<Bounds>,
    carried: Seq<Carried>,
    x: int,
    y: int,
)
    requires
        c.0.len() > 0,
        forall|k: int|
            0 <= k < c.0.len() ==> spots[#[trigger] c.0[k] as int].origin.x + offsets[k] == x,
        forall|k: int| 0 <= k < c.0.len() ==> spots[#[trigger] c.0[k] as int].origin.y == y,
    ensures
        ({
            let (line, ys) = column_frame(spots, c, offsets, exts, carried);
            &&& line == x
            &&& -1 <= ys[0] + ys[c.0.len() - 1] - 2 * y <= 1
        }),
{
    let n = c.0.len() as int;
    sums_of_equals(spots, c, offsets, x, y, n);
    let (sx, sy) = member_sums(spots, c, offsets, n);
    assert(sx / n == x) by (nonlinear_arith)
        requires
            sx == x * n,
            n > 0,
    ;
    assert(sy / n == y) by (nonlinear_arith)
        requires
            sy == y * n,
            n > 0,
    ;
    assert(member_drop(exts, carried, 0) == 0);
}

proof fn sums_of_equals(
    spots: Seq<Spot>,
    c: ColumnView,
    offsets: Seq<int>,
    x: int,
    y: int,
    n: int,
)
    requires
        0 <= n <= c.0.len(),
        forall|k: int| 0 <= k < n ==> spots[#[trigger] c.0[k] as int].origin.x + offsets[k] == x,
        forall|k: int| 0 <= k < n ==> spots[#[trigger] c.0[k] as int].origin.y == y,
    ensures
        member_sums(spots, c, offsets, n) == (x * n, y * n),
    decreases n,
{
    if n > 0 {
        sums_of_equals(spots, c, offsets, x, y, n - 1);
        assert(spots[c.0[n - 1] as int].origin.x + offsets[n - 1] == x);
        assert(x * n == x * (n - 1) + x && y * n == y * (n - 1) + y) by (nonlinear_arith);
    } else {
        assert(x * n == 0 && y * n == 0) by (nonlinear_arith)
            requires
                n == 0,
        ;
    }
}

/// On the right a carried stub has its pin right of the line, on the left left
/// of it: the gap and a stride for each stub before it, to half a step.
pub proof fn carried_stubs_stand_aside(s: Carried, frame: (int, Seq<int>), side: int, gap: int)
    requires
        side == 1 || side == -1,
    ensures
        ({
            let aside = gap + s.slot * s.row_stride;
            let pin = stub_origin(s, frame, side, gap).0 * 1270 + s.pin.0;
            let want = if side == 1 {
                (frame.0 + aside) * 1270
            } else {
                (frame.0 - aside) * 1270
            };
            -635 <= pin - want <= 635
        }),
{
    let aside = gap + s.slot * s.row_stride;
    rounding_is_nearest(s.pin.0, 1270);
    assert(side == 1 ==> side * aside == aside) by (nonlinear_arith);
    assert(side == -1 ==> side * aside == -aside) by (nonlinear_arith);
}

/// The gap of a side keeps every carried stub, at its own origin that far from
/// the line, 1.27 mm clear of the members that are beside it.
pub proof fn gaps_keep_stubs_clear(
    carried: Seq<Carried>,
    exts: Seq<Bounds>,
    frame: (int, Seq<int>),
    right: bool,
    n: int,
    j: int,
    m: int,
)
    requires
        0 <= j < n <= carried.len(),
        0 <= m < exts.len(),
        ({
            let (lo, hi) = stub_rows(carried[j], frame);
            let my = frame.1[m] * 1270;
            lo < my + exts[m].max_y + 1270 && my + exts[m].min_y < hi + 1270
        }),
    ensures
        ({
            let g = carried_gap(carried, exts, frame, right, n) * 1270;
            &&& g >= 1270
            &&& right ==> exts[m].max_x + 1270 <= g + carried[j].ext.min_x
            &&& !right ==> -g + carried[j].ext.max_x + 1270 <= exts[m].min_x
        }),
    decreases n,
{
    if j < n - 1 {
        gaps_keep_stubs_clear(carried, exts, frame, right, n - 1, j, m);
    } else {
        let s = carried[j];
        let back = if right {
            -s.ext.min_x
        } else {
            s.ext.max_x
        };
        reach_holds(s, exts, frame, right, m, exts.len() as int);
        crate::extent::lengths_round_up(
            member_reach(s, exts, frame, right, exts.len() as int) + back + MIN_CLEARANCE,
        );
    }
}

proof fn reach_holds(
    s: Carried,
    exts: Seq<Bounds>,
    frame: (int, Seq<int>),
    right: bool,
    m: int,
    n: int,
)
    requires
        0 <= m < n <= exts.len(),
        ({
            let (lo, hi) = stub_rows(s, frame);
            let my = frame.1[m] * 1270;
            lo < my + exts[m].max_y + 1270 && my + exts[m].min_y < hi + 1270
        }),
    ensures
        member_reach(s, exts, frame, right, n) >= (if right {
            exts[m].max_x
        } else {
            -exts[m].min_x
        }),
    decreases n,
{
    if m < n - 1 {
        reach_holds(s, exts, frame, right, m, n - 1);
    }
}

/// A stub lands on an element that is not the column's own when their boxes,
/// the one about the stub's new origin and the other where it is, share an
/// area.
pub proof fn landings_share_an_area(
    spots: Seq<Spot>,
    checked: &CheckedNetlist,
    c: ColumnView,
    carried: Seq<Carried>,
    frame: (int, Seq<int>),
    side: int,
    gap: int,
    s: Carried,
    i: int,
)
    ensures
        ({
            let o = stub_origin(s, frame, side, gap);
            let b = extent_with_glyphs(
                checked.elements@[i],
                spots[i].orientation,
                None,
                prefs_of(checked),
            );
            let (x, y) = (spots[i].origin.x * 1270, spots[i].origin.y * 1270);
            let own = (exists|k: int| 0 <= k < c.0.len() && #[trigger] c.0[k] == i) || (exists|k: int|
                0 <= k < carried.len() && (#[trigger] carried[k]).element == i);
            lands_on(spots, checked, c, carried, frame, side, gap, s)(i) <==> !own && {
                &&& o.0 * 1270 + s.ext.max_x > x + b.min_x
                &&& x + b.max_x > o.0 * 1270 + s.ext.min_x
                &&& o.1 * 1270 + s.ext.max_y > y + b.min_y
                &&& y + b.max_y > o.1 * 1270 + s.ext.min_y
            }
        }),
{
}

/// The stubs go to the side on which they land on fewer foreign elements. On a
/// tie they go left only if they lean there.
pub proof fn stubs_go_to_the_free_side(
    spots: Seq<Spot>,
    checked: &CheckedNetlist,
    c: ColumnView,
    carried: Seq<Carried>,
    exts: Seq<Bounds>,
    frame: (int, Seq<int>),
)
    ensures
        ({
            let n = carried.len() as int;
            let (side, gap) = chosen_side(spots, checked, c, carried, exts, frame);
            let r = carried_gap(carried, exts, frame, true, n);
            let l = carried_gap(carried, exts, frame, false, n);
            let on_right = landings(spots, checked, c, carried, frame, 1, r, n);
            let on_left = landings(spots, checked, c, carried, frame, -1, l, n);
            &&& side == 1 && gap == r || side == -1 && gap == l
            &&& on_right < on_left ==> side == 1
            &&& on_left < on_right ==> side == -1
            &&& on_left == on_right && n > 0 && (forall|k: int|
                0 <= k < n ==> spots[(#[trigger] carried[k]).element].origin.x < frame.0) ==> side
                == -1
            &&& on_left == on_right && (forall|k: int|
                0 <= k < n ==> spots[(#[trigger] carried[k]).element].origin.x >= frame.0) ==> side
                == 1
        }),
{
    leans_by_side(spots, carried, frame.0, carried.len() as int);
}

proof fn leans_by_side(spots: Seq<Spot>, carried: Seq<Carried>, x: int, n: int)
    requires
        0 <= n <= carried.len(),
    ensures
        (forall|k: int| 0 <= k < n ==> spots[(#[trigger] carried[k]).element].origin.x < x) && n > 0
            ==> lean(spots, carried, x, n) < 0,
        (forall|k: int| 0 <= k < n ==> spots[(#[trigger] carried[k]).element].origin.x >= x)
            ==> lean(spots, carried, x, n) >= 0,
    decreases n,
{
    if n > 0 {
        leans_by_side(spots, carried, x, n - 1);
        assert(carried[n - 1] == carried[n - 1]);
    }
}

} // verus!
