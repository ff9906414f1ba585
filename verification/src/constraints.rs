//! The user's `align` and `place` directives, applied over a seed placement.
//!
//! An aligned cluster shares its first member's row or column and is spread
//! along the other axis. A placed element is solved against its anchor, once
//! the anchor's own position is settled. Every element that a directive moves
//! is pinned.

use vstd::prelude::*;

#[allow(unused_imports)]
use crate::extent::{
    body_left, extent_with_glyphs, extents_are_limited, int_max, round_div, stride_steps, text_of,
    vertical_steps, Bounds, EXTENT_LIMIT,
};
use crate::extent::{
    body_left_reach, up_to_cells, vertical_stride_cells, world_extent_with_glyphs, WorldExtent,
    MIN_CLEARANCE,
};
use crate::names::str_eq;
use crate::net_class::{vertical_prefs, VertPref};
#[allow(unused_imports)]
use crate::netlist::{has_name, last_named_is_last, nets_in_range, Relation};
use crate::netlist::{AlignSpec, Axis, CheckedNetlist, PlaceSpec};
#[allow(unused_imports)]
use crate::orient::prefs_of;
use crate::placement::{put_pinned, GridPoint, Placement};
#[allow(unused_imports)]
use crate::placement::{
    layout_of, GRID_STEP, pins_hold, same_parts, same_parts_trans, spots_within, Layout, Spot, MAX_COORD,
    MAX_ELEMENTS,
};
#[allow(unused_imports)]
use crate::relation::{
    anchor_side, edge_pin_in_reach, facing_side, placed_pins_clear_the_anchor, related_origin,
};
use crate::relation::solve_place;
use crate::symbol::Orientation;
#[allow(unused_imports)]
use crate::symbol::{orientation_at, Symbol};
#[allow(unused_imports)]
use crate::placement::places;

verus! {

/// Gap between two cells of a cluster, in grid steps.
pub const CLUSTER_GAP: i32 = 1;

/// Least distance between two neighbours in a cluster: a cell and the gap.
pub const CLUSTER_STRIDE: i32 = 7;

/// Clear gap between a value text and the body to the right of it, in
/// micrometres: two grid steps.
pub const ALIGN_TEXT_GAP: i64 = 2540;

/// Most clusters that the sheet has room for.
pub const MAX_CLUSTERS: usize = 2048;

/// Farthest that the directives move an element beyond the seed.
pub const DIRECTIVE_SPREAD: i32 = 300_000_000;

/// The members of the first `n` clusters, counted together.
pub open spec fn align_members(align: Seq<AlignSpec>, n: int) -> int
    decreases n,
{
    if n <= 0 {
        0
    } else {
        align_members(align, n - 1) + align[n - 1].refdes@.len()
    }
}

/// The symbol has a pin in every pose.
pub open spec fn has_pins(symbol: Symbol) -> bool {
    forall|o: Orientation| (#[trigger] symbol.posed(o)).pins@.len() > 0
}

/// The elements that a `place` directive names have pins to be placed by.
pub open spec fn pins_to_place_by(checked: &CheckedNetlist, spec: PlaceSpec) -> bool {
    match (checked.element_named(spec.refdes@), checked.element_named(spec.anchor@)) {
        (Some(b), Some(a)) => has_pins(checked.elements@[a].symbol) && has_pins(
            checked.elements@[b].symbol,
        ),
        _ => true,
    }
}

impl CheckedNetlist {
    /// The sheet has room for the directives, and elements that are placed
    /// have pins.
    pub open spec fn directives_fit(&self) -> bool {
        &&& self.align@.len() <= MAX_CLUSTERS
        &&& align_members(self.align@, self.align@.len() as int) <= MAX_ELEMENTS
        &&& self.place@.len() <= MAX_ELEMENTS
        &&& forall|k: int|
            0 <= k < self.place@.len() ==> pins_to_place_by(self, #[trigger] self.place@[k])
    }
}

/// The extent of a cluster member. Aligned elements stand upright.
pub open spec fn member_extent(checked: &CheckedNetlist, i: int) -> Bounds {
    let e = checked.elements@[i];
    extent_with_glyphs(e, orientation_at(0), text_of(e.value), prefs_of(checked))
}

/// The steps from a cluster member to the next. In a row the extents keep
/// their clearance and the left value text keeps a gap to the right body; in
/// a column the extents keep their clearance.
pub open spec fn align_stride(checked: &CheckedNetlist, axis: Axis, prev: Bounds, i: int) -> int {
    let ext = member_extent(checked, i);
    let clear = match axis {
        Axis::Horizontal => stride_steps(
            int_max(
                prev.max_x - ext.min_x + MIN_CLEARANCE,
                prev.max_x + body_left(checked.elements@[i].symbol, orientation_at(0))
                    + ALIGN_TEXT_GAP,
            ),
        ),
        Axis::Vertical => vertical_steps(prev, ext),
    };
    int_max(clear, CLUSTER_STRIDE as int)
}

/// A cluster while it is laid out: the layout so far, the distance of the last
/// member from the anchor and its extent.
pub struct Row {
    pub layout: Layout,
    pub cursor: int,
    pub last: Option<Bounds>,
}

/// Where a member goes: along the anchor's row, or along a column that is
/// `bias` steps right of the anchor.
pub open spec fn member_origin(axis: Axis, anchor: GridPoint, bias: int, cursor: int) -> GridPoint {
    match axis {
        Axis::Horizontal => GridPoint { x: (anchor.x + cursor) as i32, y: anchor.y },
        Axis::Vertical => GridPoint { x: (anchor.x + bias) as i32, y: (anchor.y + cursor) as i32 },
    }
}

/// The cluster after one more name. Unknown names are skipped, and a pinned
/// element keeps its place but takes up its room.
pub open spec fn row_extended(
    checked: &CheckedNetlist,
    axis: Axis,
    anchor: GridPoint,
    bias: int,
    row: Row,
    name: Seq<char>,
) -> Row {
    match checked.element_named(name) {
        None => row,
        Some(i) => {
            let cursor = match row.last {
                Some(prev) => row.cursor + align_stride(checked, axis, prev, i),
                None => row.cursor,
            };
            let layout = if row.layout.pinned[i] {
                row.layout
            } else {
                row.layout.pin_at(
                    i,
                    Spot {
                        origin: member_origin(axis, anchor, bias, cursor),
                        orientation: row.layout.spots[i].orientation,
                    },
                )
            };
            Row { layout, cursor, last: Some(member_extent(checked, i)) }
        },
    }
}

/// The cluster after its first `n` names.
pub open spec fn row_of(
    checked: &CheckedNetlist,
    spec: AlignSpec,
    anchor: GridPoint,
    bias: int,
    layout: Layout,
    n: int,
) -> Row
    decreases n,
{
    if n <= 0 {
        Row { layout, cursor: 0, last: None }
    } else {
        row_extended(
            checked,
            spec.axis,
            anchor,
            bias,
            row_of(checked, spec, anchor, bias, layout, n - 1),
            spec.refdes@[n - 1]@,
        )
    }
}

/// The first of the names from `k` on that an element carries.
pub open spec fn first_member(checked: &CheckedNetlist, names: Seq<String>, k: int) -> Option<int>
    decreases names.len() - k,
{
    if k < 0 || k >= names.len() {
        None
    } else {
        match checked.element_named(names[k]@) {
            Some(i) => Some(i),
            None => first_member(checked, names, k + 1),
        }
    }
}

/// The layout after the first `n` clusters. A cluster is anchored where its
/// first member is when its turn comes.
pub open spec fn aligned(checked: &CheckedNetlist, layout: Layout, n: int) -> Layout
    decreases n,
{
    if n <= 0 {
        layout
    } else {
        let before = aligned(checked, layout, n - 1);
        let spec = checked.align@[n - 1];
        match first_member(checked, spec.refdes@, 0) {
            Some(a) => row_of(
                checked,
                spec,
                before.spots[a].origin,
                n * CLUSTER_STRIDE,
                before,
                spec.refdes@.len() as int,
            ).layout,
            None => before,
        }
    }
}

/// The name is the target of a `place` directive.
pub open spec fn is_target(place: Seq<PlaceSpec>, name: Seq<char>) -> bool {
    exists|k: int| 0 <= k < place.len() && (#[trigger] place[k]).refdes@ == name
}

/// The `place` directives while they are worked off: the layout so far, how
/// many free anchors have been given a column, and the directives that wait
/// for their anchor.
pub struct Worklist {
    pub layout: Layout,
    pub columns: int,
    pub waiting: Seq<usize>,
}

/// The layout with a free anchor given the next column of the top row.
pub open spec fn anchored(layout: Layout, a: int, columns: int) -> Layout {
    layout.pin_at(
        a,
        Spot {
            origin: GridPoint { x: (columns * CLUSTER_STRIDE) as i32, y: 0 },
            orientation: layout.spots[a].orientation,
        },
    )
}

/// The layout with an element solved against its anchor.
pub open spec fn beside(
    checked: &CheckedNetlist,
    layout: Layout,
    spec: PlaceSpec,
    a: int,
    b: int,
) -> Layout {
    let at = related_origin(
        spec.relation,
        layout.spots[a].origin,
        layout.spots[a].orientation,
        checked.elements@[a].symbol,
        layout.spots[b].orientation,
        checked.elements@[b].symbol,
    );
    layout.pin_at(
        b,
        Spot {
            origin: GridPoint { x: at.0 as i32, y: at.1 as i32 },
            orientation: layout.spots[b].orientation,
        },
    )
}

/// The worklist after one directive. A directive with an unknown name is
/// dropped. One whose anchor is itself still to be placed waits; an anchor
/// that nothing places is given a column of its own.
pub open spec fn place_step(checked: &CheckedNetlist, work: Worklist, k: usize) -> Worklist {
    let spec = checked.place@[k as int];
    match (checked.element_named(spec.refdes@), checked.element_named(spec.anchor@)) {
        (Some(b), Some(a)) => if work.layout.pinned[a] {
            Worklist {
                layout: beside(checked, work.layout, spec, a, b),
                columns: work.columns,
                waiting: work.waiting,
            }
        } else if is_target(checked.place@, spec.anchor@) {
            Worklist {
                layout: work.layout,
                columns: work.columns,
                waiting: work.waiting.push(k),
            }
        } else {
            Worklist {
                layout: beside(checked, anchored(work.layout, a, work.columns), spec, a, b),
                columns: work.columns + 1,
                waiting: work.waiting,
            }
        },
        _ => work,
    }
}

/// One pass over the first `n` pending directives.
pub open spec fn place_pass(
    checked: &CheckedNetlist,
    layout: Layout,
    columns: int,
    pending: Seq<usize>,
    n: int,
) -> Worklist
    decreases n,
{
    if n <= 0 {
        Worklist { layout, columns, waiting: seq![] }
    } else {
        place_step(checked, place_pass(checked, layout, columns, pending, n - 1), pending[n - 1])
    }
}

/// Passes over the pending directives until none waits or a pass settles
/// nothing.
pub open spec fn place_all(
    checked: &CheckedNetlist,
    layout: Layout,
    columns: int,
    pending: Seq<usize>,
) -> Worklist
    decreases pending.len(),
{
    let after = place_pass(checked, layout, columns, pending, pending.len() as int);
    if after.waiting.len() == 0 || after.waiting.len() >= pending.len() {
        after
    } else {
        place_all(checked, after.layout, after.columns, after.waiting)
    }
}

/// The numbers below `n`.
pub open spec fn numbers(n: nat) -> Seq<usize> {
    Seq::new(n, |i: int| i as usize)
}

/// What the directives make of a layout: clusters first, then placed elements.
pub open spec fn constrained(checked: &CheckedNetlist, layout: Layout) -> Worklist {
    place_all(
        checked,
        aligned(checked, layout, checked.align@.len() as int),
        0,
        numbers(checked.place@.len()),
    )
}

// ---- Bounds ----------------------------------------------------------------

proof fn named_in_range(checked: &CheckedNetlist, name: Seq<char>)
    ensures
        checked.element_named(name) matches Some(i) ==> 0 <= i < checked.elements@.len()
            && checked.elements@[i].refdes@ == name,
{
    last_named_is_last(checked.elements@, name, checked.elements@.len() as int);
}

proof fn first_member_in_range(checked: &CheckedNetlist, names: Seq<String>, k: int)
    ensures
        first_member(checked, names, k) matches Some(i) ==> 0 <= i < checked.elements@.len(),
    decreases names.len() - k,
{
    if 0 <= k < names.len() {
        named_in_range(checked, names[k]@);
        first_member_in_range(checked, names, k + 1);
    }
}

proof fn member_extent_limited(checked: &CheckedNetlist, i: int)
    requires
        checked.drawable(),
        0 <= i < checked.elements@.len(),
    ensures
        member_extent(checked, i).within(EXTENT_LIMIT as int),
{
    let e = checked.elements@[i];
    assert(e.symbol.wf());
    extents_are_limited(e, orientation_at(0), e.value, prefs_of(checked));
}

proof fn align_stride_limited(checked: &CheckedNetlist, axis: Axis, prev: Bounds, i: int)
    requires
        checked.drawable(),
        0 <= i < checked.elements@.len(),
        prev.within(EXTENT_LIMIT as int),
    ensures
        CLUSTER_STRIDE <= align_stride(checked, axis, prev, i) <= 2000,
{
    member_extent_limited(checked, i);
    assert(checked.elements@[i].symbol.wf());
    assert(checked.elements@[i].symbol.poses@[0].wf());
}

/// What holds of a cluster that began at `start` after `n` names.
pub open spec fn row_state(start: Layout, row: Row, len: int, n: int, bias: int, limit: int) -> bool {
    &&& row.layout.sized(len)
    &&& pins_hold(start, row.layout)
    &&& spots_within(row.layout.spots, limit + 2000 * n + bias)
    &&& 0 <= row.cursor <= 2000 * n
    &&& row.last matches Some(b) ==> b.within(EXTENT_LIMIT as int)
    &&& forall|i: int|
        0 <= i < len && !(#[trigger] row.layout.pinned[i]) ==> row.layout.spots[i]
            == start.spots[i]
    &&& forall|i: int|
        0 <= i < len ==> (#[trigger] row.layout.spots[i]).orientation == start.spots[i].orientation
}

proof fn row_keeps(
    checked: &CheckedNetlist,
    axis: Axis,
    anchor: GridPoint,
    bias: int,
    start: Layout,
    row: Row,
    name: Seq<char>,
    n: int,
    limit: int,
)
    requires
        checked.drawable(),
        0 <= n,
        0 <= bias,
        0 <= limit,
        limit + 2000 * (n + 1) + bias <= i32::MAX,
        anchor.within(limit),
        start.sized(checked.elements@.len() as int),
        row_state(start, row, checked.elements@.len() as int, n, bias, limit),
    ensures
        row_state(
            start,
            row_extended(checked, axis, anchor, bias, row, name),
            checked.elements@.len() as int,
            n + 1,
            bias,
            limit,
        ),
{
    let next = row_extended(checked, axis, anchor, bias, row, name);
    let len = checked.elements@.len() as int;
    named_in_range(checked, name);
    match checked.element_named(name) {
        None => {
            assert forall|j: int| 0 <= j < len implies (
            #[trigger] next.layout.spots[j]).origin.within(limit + 2000 * (n + 1) + bias) by {
                assert(row.layout.spots[j].origin.within(limit + 2000 * n + bias));
            }
        },
        Some(i) => {
            member_extent_limited(checked, i);
            match row.last {
                Some(prev) => {
                    align_stride_limited(checked, axis, prev, i);
                },
                None => {},
            }
            assert forall|j: int| 0 <= j < len implies (
            #[trigger] next.layout.spots[j]).origin.within(limit + 2000 * (n + 1) + bias) by {
                assert(row.layout.spots[j].origin.within(limit + 2000 * n + bias));
            }
            assert forall|j: int| 0 <= j < len implies (
            #[trigger] next.layout.spots[j]).orientation == start.spots[j].orientation by {
                assert(row.layout.spots[j].orientation == start.spots[j].orientation);
            }
            assert forall|j: int| 0 <= j < len && !(#[trigger] next.layout.pinned[j])
                implies next.layout.spots[j] == start.spots[j] by {
                assert(!row.layout.pinned[j]);
            }
            assert forall|j: int|
                #![trigger next.layout.spots[j]]
                #![trigger next.layout.pinned[j]]
                0 <= j < len && start.pinned[j] implies next.layout.pinned[j]
                && next.layout.spots[j] == start.spots[j] by {
                assert(row.layout.pinned[j] && row.layout.spots[j] == start.spots[j]);
            }
        },
    }
}

proof fn row_within(
    checked: &CheckedNetlist,
    spec: AlignSpec,
    anchor: GridPoint,
    bias: int,
    layout: Layout,
    n: int,
    limit: int,
)
    requires
        checked.drawable(),
        0 <= n <= spec.refdes@.len(),
        0 <= bias,
        0 <= limit,
        limit + 2000 * n + bias <= i32::MAX,
        anchor.within(limit),
        layout.sized(checked.elements@.len() as int),
        spots_within(layout.spots, limit),
    ensures
        row_state(
            layout,
            row_of(checked, spec, anchor, bias, layout, n),
            checked.elements@.len() as int,
            n,
            bias,
            limit,
        ),
    decreases n,
{
    if n > 0 {
        row_within(checked, spec, anchor, bias, layout, n - 1, limit);
        row_keeps(
            checked,
            spec.axis,
            anchor,
            bias,
            layout,
            row_of(checked, spec, anchor, bias, layout, n - 1),
            spec.refdes@[n - 1]@,
            n - 1,
            limit,
        );
    } else {
        assert forall|j: int| 0 <= j < layout.spots.len() implies (
        #[trigger] layout.spots[j]).origin.within(limit + bias) by {
            assert(layout.spots[j].origin.within(limit));
        }
    }
}

proof fn members_grow(align: Seq<AlignSpec>, m: int, n: int)
    requires
        0 <= m <= n,
    ensures
        align_members(align, m) <= align_members(align, n),
        0 <= align_members(align, m),
    decreases n,
{
    if m < n {
        members_grow(align, m, n - 1);
    } else if m > 0 {
        members_grow(align, m - 1, n - 1);
    }
}

/// Alignment never moves a pinned element and turns none, moves only elements
/// that it pins, and stays on the sheet.
pub proof fn alignment_respects_pins(checked: &CheckedNetlist, layout: Layout, n: int, limit: int)
    requires
        checked.drawable(),
        checked.directives_fit(),
        layout.sized(checked.elements@.len() as int),
        spots_within(layout.spots, limit),
        0 <= limit <= MAX_COORD,
        0 <= n <= checked.align@.len(),
    ensures
        ({
            let after = aligned(checked, layout, n);
            &&& after.sized(checked.elements@.len() as int)
            &&& pins_hold(layout, after)
            &&& spots_within(
                after.spots,
                limit + 2000 * align_members(checked.align@, n) + n * 14336,
            )
            &&& forall|i: int|
                0 <= i < after.spots.len() && !(#[trigger] after.pinned[i]) ==> after.spots[i]
                    == layout.spots[i]
            &&& forall|i: int|
                0 <= i < after.spots.len() ==> (#[trigger] after.spots[i]).orientation
                    == layout.spots[i].orientation
        }),
    decreases n,
{
    if n > 0 {
        alignment_respects_pins(checked, layout, n - 1, limit);
        members_grow(checked.align@, n - 1, checked.align@.len() as int);
        members_grow(checked.align@, n, checked.align@.len() as int);
        let before = aligned(checked, layout, n - 1);
        let after = aligned(checked, layout, n);
        let spec = checked.align@[n - 1];
        let l = limit + 2000 * align_members(checked.align@, n - 1) + (n - 1) * 14336;
        let len = checked.elements@.len() as int;
        first_member_in_range(checked, spec.refdes@, 0);
        match first_member(checked, spec.refdes@, 0) {
            Some(a) => {
                assert(before.spots[a].origin.within(l));
                let m = spec.refdes@.len() as int;
                row_within(
                    checked,
                    spec,
                    before.spots[a].origin,
                    n * CLUSTER_STRIDE,
                    before,
                    m,
                    l,
                );
                assert forall|j: int| 0 <= j < len implies (
                #[trigger] after.spots[j]).orientation == layout.spots[j].orientation by {
                    assert(before.spots[j].orientation == layout.spots[j].orientation);
                }
                assert forall|j: int| 0 <= j < len && !(#[trigger] after.pinned[j])
                    implies after.spots[j] == layout.spots[j] by {
                    assert(!before.pinned[j]) by {
                        if before.pinned[j] {
                            assert(after.pinned[j]);
                        }
                    }
                }
                assert forall|j: int|
                    #![trigger after.spots[j]]
                    #![trigger after.pinned[j]]
                    0 <= j < len && layout.pinned[j] implies after.pinned[j] && after.spots[j]
                    == layout.spots[j] by {
                    assert(before.pinned[j] && before.spots[j] == layout.spots[j]);
                }
            },
            None => {
                assert(after == before);
            },
        }
        assert forall|j: int| 0 <= j < len implies (#[trigger] after.spots[j]).origin.within(
            limit + 2000 * align_members(checked.align@, n) + n * 14336,
        ) by {
            if first_member(checked, spec.refdes@, 0) is None {
                assert(before.spots[j].origin.within(l));
            }
        }
    }
}

/// What holds of the worklist when `done` directives have been settled:
/// positions are on the sheet and no pin is lost.
pub open spec fn work_state(work: Worklist, len: int, done: int, limit: int) -> bool {
    &&& work.layout.sized(len)
    &&& 0 <= work.columns <= done
    &&& spots_within(work.layout.spots, limit + 2000 * done)
}

proof fn step_keeps(checked: &CheckedNetlist, work: Worklist, k: usize, done: int, limit: int)
    requires
        checked.drawable(),
        checked.directives_fit(),
        k < checked.place@.len(),
        0 <= done <= MAX_ELEMENTS,
        200_000 <= limit,
        limit + 2000 * (done + 1) <= i32::MAX,
        work_state(work, checked.elements@.len() as int, done, limit),
    ensures
        ({
            let after = place_step(checked, work, k);
            &&& work_state(
                after,
                checked.elements@.len() as int,
                if after.waiting.len() > work.waiting.len() {
                    done
                } else {
                    done + 1
                },
                limit,
            )
            &&& work.waiting.len() <= after.waiting.len() <= work.waiting.len() + 1
        }),
{
    let spec = checked.place@[k as int];
    let after = place_step(checked, work, k);
    named_in_range(checked, spec.refdes@);
    named_in_range(checked, spec.anchor@);
    let len = checked.elements@.len() as int;
    match (checked.element_named(spec.refdes@), checked.element_named(spec.anchor@)) {
        (Some(b), Some(a)) => {
            assert(pins_to_place_by(checked, spec));
            let l1 = if work.layout.pinned[a] {
                work.layout
            } else {
                anchored(work.layout, a, work.columns)
            };
            assert(work.layout.spots[a].origin.within(limit + 2000 * done));
            assert(l1.spots[a].origin.within(limit + 2000 * done));
            let (oa, ob) = (l1.spots[a].orientation, l1.spots[b].orientation);
            let (sa, sb) = (checked.elements@[a].symbol, checked.elements@[b].symbol);
            assert(sa.wf() && sb.wf());
            assert(sa.posed(oa).pins@.len() > 0 && sb.posed(ob).pins@.len() > 0);
            edge_pin_in_reach(sa, oa, anchor_side(spec.relation));
            edge_pin_in_reach(sb, ob, facing_side(spec.relation));
            assert forall|j: int| 0 <= j < len implies (
            #[trigger] after.layout.spots[j]).origin.within(
                limit + 2000 * if after.waiting.len() > work.waiting.len() {
                    done
                } else {
                    done + 1
                },
            ) by {
                assert(work.layout.spots[j].origin.within(limit + 2000 * done));
                assert(l1.spots[j].origin.within(limit + 2000 * done));
            }
        },
        _ => {
            assert forall|j: int| 0 <= j < len implies (
            #[trigger] after.layout.spots[j]).origin.within(limit + 2000 * (done + 1)) by {
                assert(work.layout.spots[j].origin.within(limit + 2000 * done));
            }
        },
    }
}

/// All the numbers are directives.
pub open spec fn directives(checked: &CheckedNetlist, list: Seq<usize>) -> bool {
    forall|i: int| 0 <= i < list.len() ==> #[trigger] list[i] < checked.place@.len()
}

proof fn pass_keeps(
    checked: &CheckedNetlist,
    layout: Layout,
    columns: int,
    pending: Seq<usize>,
    n: int,
    done: int,
    limit: int,
)
    requires
        checked.drawable(),
        checked.directives_fit(),
        directives(checked, pending),
        0 <= n <= pending.len(),
        0 <= done,
        done + pending.len() <= MAX_ELEMENTS,
        200_000 <= limit,
        limit + 2000 * MAX_ELEMENTS <= i32::MAX,
        layout.sized(checked.elements@.len() as int),
        0 <= columns <= done,
        spots_within(layout.spots, limit + 2000 * done),
    ensures
        ({
            let work = place_pass(checked, layout, columns, pending, n);
            &&& work.waiting.len() <= n
            &&& directives(checked, work.waiting)
            &&& work_state(
                work,
                checked.elements@.len() as int,
                done + n - work.waiting.len(),
                limit,
            )
        }),
    decreases n,
{
    if n > 0 {
        pass_keeps(checked, layout, columns, pending, n - 1, done, limit);
        let before = place_pass(checked, layout, columns, pending, n - 1);
        assert(pending[n - 1] < checked.place@.len());
        step_keeps(
            checked,
            before,
            pending[n - 1],
            done + (n - 1) - before.waiting.len(),
            limit,
        );
    }
}

proof fn place_all_keeps(
    checked: &CheckedNetlist,
    layout: Layout,
    columns: int,
    pending: Seq<usize>,
    done: int,
    limit: int,
)
    requires
        checked.drawable(),
        checked.directives_fit(),
        directives(checked, pending),
        0 <= done,
        done + pending.len() <= MAX_ELEMENTS,
        200_000 <= limit,
        limit + 2000 * MAX_ELEMENTS <= i32::MAX,
        layout.sized(checked.elements@.len() as int),
        0 <= columns <= done,
        spots_within(layout.spots, limit + 2000 * done),
    ensures
        ({
            let work = place_all(checked, layout, columns, pending);
            &&& work.layout.sized(checked.elements@.len() as int)
            &&& spots_within(work.layout.spots, limit + 2000 * MAX_ELEMENTS)
            &&& directives(checked, work.waiting)
        }),
    decreases pending.len(),
{
    let n = pending.len() as int;
    pass_keeps(checked, layout, columns, pending, n, done, limit);
    let after = place_pass(checked, layout, columns, pending, n);
    if after.waiting.len() == 0 || after.waiting.len() >= pending.len() {
        let work = place_all(checked, layout, columns, pending);
        assert forall|j: int| 0 <= j < work.layout.spots.len() implies (
        #[trigger] work.layout.spots[j]).origin.within(limit + 2000 * MAX_ELEMENTS) by {
            assert(work.layout.spots[j].origin.within(
                limit + 2000 * (done + n - after.waiting.len()),
            ));
        }
    } else {
        place_all_keeps(
            checked,
            after.layout,
            after.columns,
            after.waiting,
            done + n - after.waiting.len(),
            limit,
        );
    }
}

/// The directives move nothing farther than [`DIRECTIVE_SPREAD`] beyond the
/// seed.
pub proof fn constraints_stay_on_the_sheet(checked: &CheckedNetlist, layout: Layout, limit: int)
    requires
        checked.drawable(),
        checked.directives_fit(),
        layout.sized(checked.elements@.len() as int),
        spots_within(layout.spots, limit),
        200_000 <= limit <= MAX_COORD,
    ensures
        ({
            let work = constrained(checked, layout);
            &&& work.layout.sized(checked.elements@.len() as int)
            &&& spots_within(work.layout.spots, limit + DIRECTIVE_SPREAD)
            &&& directives(checked, work.waiting)
        }),
{
    let n = checked.align@.len() as int;
    alignment_respects_pins(checked, layout, n, limit);
    let mid = aligned(checked, layout, n);
    let l = limit + 2000 * MAX_ELEMENTS + 2048 * 14336;
    assert forall|j: int| 0 <= j < mid.spots.len() implies (#[trigger] mid.spots[j]).origin.within(
        l,
    ) by {
        assert(mid.spots[j].origin.within(
            limit + 2000 * align_members(checked.align@, n) + n * 14336,
        ));
    }
    let all = numbers(checked.place@.len());
    assert(checked.place@.len() == checked.place.len());
    assert(directives(checked, all));
    place_all_keeps(checked, mid, 0, all, 0, l);
    let work = constrained(checked, layout);
    assert forall|j: int| 0 <= j < work.layout.spots.len() implies (
    #[trigger] work.layout.spots[j]).origin.within(limit + DIRECTIVE_SPREAD) by {
        assert(work.layout.spots[j].origin.within(l + 2000 * MAX_ELEMENTS));
    }
}

// ---- Settled relations -----------------------------------------------------

/// The element of a directive stands where its relation to the anchor puts it.
/// A directive with an unknown name asks for nothing.
pub open spec fn relation_holds(checked: &CheckedNetlist, spots: Seq<Spot>, spec: PlaceSpec) -> bool {
    match (checked.element_named(spec.refdes@), checked.element_named(spec.anchor@)) {
        (Some(b), Some(a)) => (spots[b].origin.x as int, spots[b].origin.y as int)
            == related_origin(
            spec.relation,
            spots[a].origin,
            spots[a].orientation,
            checked.elements@[a].symbol,
            spots[b].orientation,
            checked.elements@[b].symbol,
        ),
        _ => true,
    }
}

/// No two directives place the same element.
pub open spec fn distinct_targets(place: Seq<PlaceSpec>) -> bool {
    forall|i: int, j: int|
        0 <= i < j < place.len() ==> (#[trigger] place[i]).refdes@ != (#[trigger] place[j]).refdes@
}

/// The element that a directive places is not pinned.
pub open spec fn target_free(checked: &CheckedNetlist, layout: Layout, spec: PlaceSpec) -> bool {
    checked.element_named(spec.refdes@) matches Some(b) ==> !layout.pinned[b]
}

/// A directive is settled: its relation holds between two pinned elements.
pub open spec fn is_settled(checked: &CheckedNetlist, layout: Layout, spec: PlaceSpec) -> bool {
    &&& relation_holds(checked, layout.spots, spec)
    &&& match (checked.element_named(spec.refdes@), checked.element_named(spec.anchor@)) {
        (Some(b), Some(a)) => layout.pinned[a] && layout.pinned[b],
        _ => true,
    }
}

/// The directive waits, or is among the pending ones from `n` on.
pub open spec fn is_open(waiting: Seq<usize>, pending: Seq<usize>, n: int, k: usize) -> bool {
    waiting.contains(k) || exists|m: int| n <= m < pending.len() && #[trigger] pending[m] == k
}

/// Every directive is either settled or open with its target free.
pub open spec fn all_accounted(
    checked: &CheckedNetlist,
    layout: Layout,
    waiting: Seq<usize>,
    pending: Seq<usize>,
    n: int,
) -> bool {
    &&& waiting.no_duplicates()
    &&& forall|x: usize|
        #[trigger] waiting.contains(x) ==> exists|m: int|
            0 <= m < n && #[trigger] pending[m] == x
    &&& forall|k: usize|
        k < checked.place@.len() ==> if #[trigger] is_open(waiting, pending, n, k) {
            target_free(checked, layout, checked.place@[k as int])
        } else {
            is_settled(checked, layout, checked.place@[k as int])
        }
}

proof fn step_settles(
    checked: &CheckedNetlist,
    work: Worklist,
    pending: Seq<usize>,
    n: int,
    done: int,
    limit: int,
)
    requires
        checked.drawable(),
        checked.directives_fit(),
        distinct_targets(checked.place@),
        directives(checked, pending),
        pending.no_duplicates(),
        0 <= n < pending.len(),
        0 <= done <= MAX_ELEMENTS,
        200_000 <= limit,
        limit + 2000 * (done + 1) <= i32::MAX,
        work_state(work, checked.elements@.len() as int, done, limit),
        all_accounted(checked, work.layout, work.waiting, pending, n),
    ensures
        ({
            let after = place_step(checked, work, pending[n]);
            all_accounted(checked, after.layout, after.waiting, pending, n + 1)
        }),
{
    let k = pending[n];
    let after = place_step(checked, work, k);
    let spec = checked.place@[k as int];
    assert(k < checked.place@.len());
    named_in_range(checked, spec.refdes@);
    named_in_range(checked, spec.anchor@);
    assert(is_open(work.waiting, pending, n, k));
    assert(target_free(checked, work.layout, spec));
    let waits = after.waiting.len() > work.waiting.len();
    // The directive is nowhere else in the lists.
    assert(!work.waiting.contains(k)) by {
        if work.waiting.contains(k) {
            let m = choose|m: int| 0 <= m < n && #[trigger] pending[m] == k;
            assert(pending[m] == pending[n]);
        }
    }
    if waits {
        assert(after.waiting =~= work.waiting.push(k));
    }
    assert forall|x: usize| #[trigger] after.waiting.contains(x) == (work.waiting.contains(x) || (
    waits && x == k)) by {
        if waits {
            if work.waiting.contains(x) {
                let i = choose|i: int| 0 <= i < work.waiting.len() && work.waiting[i] == x;
                assert(after.waiting[i] == x);
            }
            if x == k {
                assert(after.waiting[work.waiting.len() as int] == x);
            }
            if after.waiting.contains(x) {
                let i = choose|i: int| 0 <= i < after.waiting.len() && after.waiting[i] == x;
                if i < work.waiting.len() {
                    assert(work.waiting[i] == x);
                }
            }
        }
    }
    assert(after.waiting.no_duplicates()) by {
        if waits {
            assert forall|i: int, j: int|
                0 <= i < after.waiting.len() && 0 <= j < after.waiting.len() && i
                    != j implies after.waiting[i] != after.waiting[j] by {
                if i < work.waiting.len() {
                    assert(work.waiting.contains(work.waiting[i]));
                }
                if j < work.waiting.len() {
                    assert(work.waiting.contains(work.waiting[j]));
                }
            }
        }
    }
    assert forall|x: usize| #[trigger] after.waiting.contains(x) implies exists|m: int|
        0 <= m < n + 1 && #[trigger] pending[m] == x by {
        if work.waiting.contains(x) {
            let m = choose|m: int| 0 <= m < n && #[trigger] pending[m] == x;
            assert(pending[m] == x);
        } else {
            assert(pending[n] == x);
        }
    }
    assert forall|x: usize| x < checked.place@.len() implies if #[trigger] is_open(
        after.waiting,
        pending,
        n + 1,
        x,
    ) {
        target_free(checked, after.layout, checked.place@[x as int])
    } else {
        is_settled(checked, after.layout, checked.place@[x as int])
    } by {
        let other = checked.place@[x as int];
        named_in_range(checked, other.refdes@);
        named_in_range(checked, other.anchor@);
        // Whether it was open before.
        if x == k {
            assert(is_open(after.waiting, pending, n + 1, x) == waits) by {
                if is_open(after.waiting, pending, n + 1, x) && !waits {
                    let m = choose|m: int|
                        n + 1 <= m < pending.len() && #[trigger] pending[m] == x;
                    assert(pending[m] == pending[n]);
                }
            }
        } else {
            assert(is_open(after.waiting, pending, n + 1, x) == is_open(
                work.waiting,
                pending,
                n,
                x,
            )) by {
                if is_open(work.waiting, pending, n, x) && !work.waiting.contains(x) {
                    let m = choose|m: int| n <= m < pending.len() && #[trigger] pending[m] == x;
                    assert(m != n);
                    assert(pending[m] == x);
                }
                if is_open(after.waiting, pending, n + 1, x) && !after.waiting.contains(x) {
                    let m = choose|m: int|
                        n + 1 <= m < pending.len() && #[trigger] pending[m] == x;
                    assert(pending[m] == x);
                }
            }
            assert(other.refdes@ != spec.refdes@) by {
                if x < k {
                    assert(checked.place@[x as int].refdes@ != checked.place@[k as int].refdes@);
                } else {
                    assert(checked.place@[k as int].refdes@ != checked.place@[x as int].refdes@);
                }
            }
        }
        match (checked.element_named(spec.refdes@), checked.element_named(spec.anchor@)) {
            (Some(b), Some(a)) => {
                if !waits {
                    if !work.layout.pinned[a] {
                        // The anchor is no target, so it is not an open one.
                        assert(!is_target(checked.place@, spec.anchor@));
                        assert(other.refdes@ != spec.anchor@);
                        assert(spec.refdes@ != spec.anchor@);
                    }
                    assert(a != b);
                    assert(pins_to_place_by(checked, spec));
                    let l1 = if work.layout.pinned[a] {
                        work.layout
                    } else {
                        anchored(work.layout, a, work.columns)
                    };
                    assert(work.layout.spots[a].origin.within(limit + 2000 * done));
                    assert(l1.spots[a].origin.within(limit + 2000 * done));
                    let (oa, ob) = (l1.spots[a].orientation, l1.spots[b].orientation);
                    let (sa, sb) = (checked.elements@[a].symbol, checked.elements@[b].symbol);
                    assert(sa.wf() && sb.wf());
                    assert(sa.posed(oa).pins@.len() > 0 && sb.posed(ob).pins@.len() > 0);
                    edge_pin_in_reach(sa, oa, anchor_side(spec.relation));
                    edge_pin_in_reach(sb, ob, facing_side(spec.relation));
                    assert(after.layout.spots[a] == l1.spots[a]);
                    assert(relation_holds(checked, after.layout.spots, spec));
                }
            },
            _ => {},
        }
    }
}

proof fn pass_settles(
    checked: &CheckedNetlist,
    layout: Layout,
    columns: int,
    pending: Seq<usize>,
    n: int,
    done: int,
    limit: int,
)
    requires
        checked.drawable(),
        checked.directives_fit(),
        distinct_targets(checked.place@),
        directives(checked, pending),
        pending.no_duplicates(),
        0 <= n <= pending.len(),
        0 <= done,
        done + pending.len() <= MAX_ELEMENTS,
        200_000 <= limit,
        limit + 2000 * (MAX_ELEMENTS + 1) <= i32::MAX,
        layout.sized(checked.elements@.len() as int),
        0 <= columns <= done,
        spots_within(layout.spots, limit + 2000 * done),
        all_accounted(checked, layout, seq![], pending, 0),
    ensures
        ({
            let work = place_pass(checked, layout, columns, pending, n);
            all_accounted(checked, work.layout, work.waiting, pending, n)
        }),
    decreases n,
{
    if n > 0 {
        pass_settles(checked, layout, columns, pending, n - 1, done, limit);
        pass_keeps(checked, layout, columns, pending, n - 1, done, limit);
        let before = place_pass(checked, layout, columns, pending, n - 1);
        step_settles(
            checked,
            before,
            pending,
            n - 1,
            done + (n - 1) - before.waiting.len(),
            limit,
        );
    }
}

proof fn all_settle(
    checked: &CheckedNetlist,
    layout: Layout,
    columns: int,
    pending: Seq<usize>,
    done: int,
    limit: int,
)
    requires
        checked.drawable(),
        checked.directives_fit(),
        distinct_targets(checked.place@),
        directives(checked, pending),
        pending.no_duplicates(),
        0 <= done,
        done + pending.len() <= MAX_ELEMENTS,
        200_000 <= limit,
        limit + 2000 * (MAX_ELEMENTS + 1) <= i32::MAX,
        layout.sized(checked.elements@.len() as int),
        0 <= columns <= done,
        spots_within(layout.spots, limit + 2000 * done),
        all_accounted(checked, layout, seq![], pending, 0),
    ensures
        ({
            let work = place_all(checked, layout, columns, pending);
            forall|k: int|
                0 <= k < checked.place@.len() && !work.waiting.contains(k as usize) ==> is_settled(
                    checked,
                    work.layout,
                    #[trigger] checked.place@[k],
                )
        }),
    decreases pending.len(),
{
    assert(checked.place@.len() == checked.place.len());
    let n = pending.len() as int;
    pass_settles(checked, layout, columns, pending, n, done, limit);
    pass_keeps(checked, layout, columns, pending, n, done, limit);
    let after = place_pass(checked, layout, columns, pending, n);
    if after.waiting.len() == 0 || after.waiting.len() >= pending.len() {
        let work = place_all(checked, layout, columns, pending);
        assert forall|k: int|
            0 <= k < checked.place@.len() && !work.waiting.contains(k as usize) implies is_settled(
            checked,
            work.layout,
            #[trigger] checked.place@[k],
        ) by {
            assert(!is_open(work.waiting, pending, n, k as usize));
        }
    } else {
        let next = after.waiting;
        let none: Seq<usize> = seq![];
        assert forall|k: usize| k < checked.place@.len() implies if #[trigger] is_open(
            none,
            next,
            0,
            k,
        ) {
            target_free(checked, after.layout, checked.place@[k as int])
        } else {
            is_settled(checked, after.layout, checked.place@[k as int])
        } by {
            assert(is_open(none, next, 0, k) == is_open(after.waiting, pending, n, k)) by {
                if is_open(none, next, 0, k) {
                    let m = choose|m: int| 0 <= m < next.len() && #[trigger] next[m] == k;
                    assert(after.waiting.contains(k));
                }
                if after.waiting.contains(k) {
                    let m = choose|m: int| 0 <= m < next.len() && next[m] == k;
                    assert(next[m] == k);
                }
            }
        }
        all_settle(
            checked,
            after.layout,
            after.columns,
            next,
            done + n - next.len(),
            limit,
        );
    }
}

/// When no element is placed twice and no placed element is pinned or aligned
/// as well, every `place` directive that has been worked off holds in the end:
/// the facing pins are one cell apart and in line.
pub proof fn placed_relations_hold(checked: &CheckedNetlist, layout: Layout, limit: int)
    requires
        checked.drawable(),
        checked.directives_fit(),
        distinct_targets(checked.place@),
        layout.sized(checked.elements@.len() as int),
        spots_within(layout.spots, limit),
        200_000 <= limit <= MAX_COORD,
        forall|k: int|
            0 <= k < checked.place@.len() ==> target_free(
                checked,
                aligned(checked, layout, checked.align@.len() as int),
                #[trigger] checked.place@[k],
            ),
    ensures
        ({
            let work = constrained(checked, layout);
            forall|k: int|
                0 <= k < checked.place@.len() && !work.waiting.contains(k as usize)
                    ==> relation_holds(
                    checked,
                    work.layout.spots,
                    #[trigger] checked.place@[k],
                )
        }),
{
    let n = checked.align@.len() as int;
    alignment_respects_pins(checked, layout, n, limit);
    let mid = aligned(checked, layout, n);
    let l = limit + 2000 * MAX_ELEMENTS + 2048 * 14336;
    assert forall|j: int| 0 <= j < mid.spots.len() implies (#[trigger] mid.spots[j]).origin.within(
        l,
    ) by {
        assert(mid.spots[j].origin.within(
            limit + 2000 * align_members(checked.align@, n) + n * 14336,
        ));
    }
    let all = numbers(checked.place@.len());
    let none: Seq<usize> = seq![];
    assert(checked.place@.len() == checked.place.len());
    assert(directives(checked, all));
    assert forall|k: usize| k < checked.place@.len() implies if #[trigger] is_open(
        none,
        all,
        0,
        k,
    ) {
        target_free(checked, mid, checked.place@[k as int])
    } else {
        is_settled(checked, mid, checked.place@[k as int])
    } by {
        assert(all[k as int] == k);
        assert(is_open(none, all, 0, k));
        assert(target_free(checked, mid, checked.place@[k as int]));
    }
    all_settle(checked, mid, 0, all, 0, l);
    let work = constrained(checked, layout);
    assert forall|k: int|
        0 <= k < checked.place@.len() && !work.waiting.contains(k as usize) implies relation_holds(
        checked,
        work.layout.spots,
        #[trigger] checked.place@[k],
    ) by {
        assert(is_settled(checked, work.layout, checked.place@[k]));
    }
}

/// What a cluster spread along an axis guarantees of an element that it has
/// moved: in a row it stands on the anchor's Y, in a column on the cluster's X.
pub open spec fn on_line(axis: Axis, anchor: GridPoint, bias: int, at: GridPoint) -> bool {
    match axis {
        Axis::Horizontal => at.y == anchor.y,
        Axis::Vertical => at.x == anchor.x + bias,
    }
}

/// The elements that a cluster moves end up on one line.
pub proof fn clusters_are_straight(
    checked: &CheckedNetlist,
    spec: AlignSpec,
    anchor: GridPoint,
    bias: int,
    layout: Layout,
    n: int,
)
    requires
        layout.sized(checked.elements@.len() as int),
        anchor.x + bias <= i32::MAX,
        0 <= bias,
    ensures
        row_of(checked, spec, anchor, bias, layout, n).layout.sized(
            checked.elements@.len() as int,
        ),
        forall|i: int|
            0 <= i < checked.elements@.len() && !layout.pinned[i] && (#[trigger] row_of(
                checked,
                spec,
                anchor,
                bias,
                layout,
                n,
            ).layout.pinned[i]) ==> on_line(
                spec.axis,
                anchor,
                bias,
                row_of(checked, spec, anchor, bias, layout, n).layout.spots[i].origin,
            ),
    decreases n,
{
    if n > 0 {
        clusters_are_straight(checked, spec, anchor, bias, layout, n - 1);
        named_in_range(checked, spec.refdes@[n - 1]@);
    }
}

/// Neighbours in a cluster keep their clearance: the second extent starts a
/// clearance after the first one ends, and in a row the first value text keeps
/// its gap to the second body.
pub proof fn clusters_keep_clear(
    checked: &CheckedNetlist,
    axis: Axis,
    prev: Bounds,
    i: int,
    at: int,
)
    ensures
        ({
            let next = (at + align_stride(checked, axis, prev, i)) * GRID_STEP;
            let ext = member_extent(checked, i);
            match axis {
                Axis::Horizontal => {
                    &&& at * GRID_STEP + prev.max_x + MIN_CLEARANCE <= next + ext.min_x
                    &&& at * GRID_STEP + prev.max_x + ALIGN_TEXT_GAP <= next - body_left(
                        checked.elements@[i].symbol,
                        orientation_at(0),
                    )
                },
                Axis::Vertical => at * GRID_STEP + prev.max_y + MIN_CLEARANCE <= next + ext.min_y,
            }
        }),
{
    let s = align_stride(checked, axis, prev, i);
    assert((at + s) * GRID_STEP == at * GRID_STEP + s * GRID_STEP) by (nonlinear_arith);
}

// ---- The directives at work -------------------------------------------------

/// A `place` directive that could not be worked off because its anchor never
/// got a position.
#[derive(Debug)]
pub struct UnresolvedPlace {
    pub refdes: String,
    pub anchor: String,
}

/// The list names the directives, in order.
pub open spec fn lists_unresolved(
    checked: &CheckedNetlist,
    waiting: Seq<usize>,
    list: Seq<UnresolvedPlace>,
) -> bool {
    &&& list.len() == waiting.len()
    &&& forall|i: int|
        0 <= i < list.len() ==> {
            let spec = checked.place@[waiting[i] as int];
            &&& (#[trigger] list[i]).refdes@ == spec.refdes@
            &&& list[i].anchor@ == spec.anchor@
        }
}

/// Lays out one cluster.
fn apply_cluster(
    placement: &mut Placement,
    pinned: &mut Vec<bool>,
    checked: &CheckedNetlist,
    prefs: &Vec<Option<VertPref>>,
    spec: &AlignSpec,
    anchor: GridPoint,
    bias: i32,
    Ghost(limit): Ghost<int>,
)
    requires
        checked.drawable(),
        old(placement).elements@.len() == checked.elements@.len(),
        old(pinned)@.len() == checked.elements@.len(),
        prefs@ == prefs_of(checked),
        0 <= bias,
        0 <= limit,
        limit + 2000 * spec.refdes@.len() + bias <= i32::MAX,
        anchor.within(limit),
        old(placement).within(limit),
    ensures
        same_parts(*old(placement), *final(placement)),
        layout_of(*final(placement), *final(pinned)) == row_of(
            checked,
            *spec,
            anchor,
            bias as int,
            layout_of(*old(placement), *old(pinned)),
            spec.refdes@.len() as int,
        ).layout,
{
    let ghost start = layout_of(*placement, *pinned);
    let ghost len = checked.elements@.len() as int;
    let mut cursor: i32 = 0;
    let mut last: Option<WorldExtent> = None;
    let mut m: usize = 0;
    while m < spec.refdes.len()
        invariant
            m <= spec.refdes@.len(),
            checked.drawable(),
            len == checked.elements@.len(),
            same_parts(*old(placement), *placement),
            placement.elements@.len() == checked.elements@.len(),
            pinned@.len() == checked.elements@.len(),
            prefs@ == prefs_of(checked),
            0 <= bias,
            0 <= limit,
            limit + 2000 * spec.refdes@.len() + bias <= i32::MAX,
            anchor.within(limit),
            start.sized(len),
            spots_within(start.spots, limit),
            ({
                let row = row_of(checked, *spec, anchor, bias as int, start, m as int);
                &&& layout_of(*placement, *pinned) == row.layout
                &&& cursor == row.cursor
                &&& match last {
                    Some(b) => row.last == Some(b@),
                    None => row.last is None,
                }
            }),
        decreases spec.refdes@.len() - m,
    {
        let ghost row = row_of(checked, *spec, anchor, bias as int, start, m as int);
        let ghost next = row_of(checked, *spec, anchor, bias as int, start, m + 1);
        proof {
            row_within(checked, *spec, anchor, bias as int, start, m as int, limit);
            row_within(checked, *spec, anchor, bias as int, start, m + 1, limit);
        }
        match checked.element_index(spec.refdes[m].as_str()) {
            None => {},
            Some(i) => {
                let e = &checked.elements[i];
                let up = Orientation::identity();
                assert(checked.elements@[i as int].symbol.wf());
                assert(nets_in_range(
                    checked.elements@[i as int].nodes@,
                    checked.nets@.len(),
                ));
                proof {
                    member_extent_limited(checked, i as int);
                }
                let extent = world_extent_with_glyphs(e, up, &e.value, prefs);
                assert(extent@ == member_extent(checked, i as int));
                if let Some(prev) = last {
                    proof {
                        align_stride_limited(checked, spec.axis, prev@, i as int);
                    }
                    let clear: i32 = match spec.axis {
                        Axis::Horizontal => {
                            let apart: i64 = prev.max_x - extent.min_x + MIN_CLEARANCE;
                            let text: i64 = prev.max_x + body_left_reach(&e.symbol, up)
                                + ALIGN_TEXT_GAP;
                            if apart >= text {
                                up_to_cells(apart)
                            } else {
                                up_to_cells(text)
                            }
                        },
                        Axis::Vertical => vertical_stride_cells(&prev, &extent),
                    };
                    let step: i32 = if clear >= CLUSTER_STRIDE {
                        clear
                    } else {
                        CLUSTER_STRIDE
                    };
                    assert(step == align_stride(checked, spec.axis, prev@, i as int));
                    cursor = cursor + step;
                }
                last = Some(extent);
                if !pinned[i] {
                    let origin = match spec.axis {
                        Axis::Horizontal => GridPoint::new(anchor.x + cursor, anchor.y),
                        Axis::Vertical => GridPoint::new(anchor.x + bias, anchor.y + cursor),
                    };
                    let turned = placement.elements[i].orientation;
                    assert(layout_of(*placement, *pinned).spots[i as int].orientation == turned);
                    let ghost before = *placement;
                    put_pinned(placement, pinned, i, origin, turned);
                    proof {
                        same_parts_trans(*old(placement), before, *placement);
                    }
                }
            },
        }
        m = m + 1;
    }
}

/// Lays out the clusters, one after the other.
fn apply_align(placement: &mut Placement, pinned: &mut Vec<bool>, checked: &CheckedNetlist)
    requires
        checked.drawable(),
        checked.directives_fit(),
        old(placement).elements@.len() == checked.elements@.len(),
        old(pinned)@.len() == checked.elements@.len(),
        old(placement).within(MAX_COORD as int),
    ensures
        same_parts(*old(placement), *final(placement)),
        layout_of(*final(placement), *final(pinned)) == aligned(
            checked,
            layout_of(*old(placement), *old(pinned)),
            checked.align@.len() as int,
        ),
{
    let prefs = vertical_prefs(checked);
    assert(prefs@ =~= prefs_of(checked));
    let ghost start = layout_of(*placement, *pinned);
    let mut k: usize = 0;
    while k < checked.align.len()
        invariant
            k <= checked.align@.len(),
            checked.drawable(),
            checked.directives_fit(),
            same_parts(*old(placement), *placement),
            placement.elements@.len() == checked.elements@.len(),
            pinned@.len() == checked.elements@.len(),
            prefs@ == prefs_of(checked),
            start.sized(checked.elements@.len() as int),
            spots_within(start.spots, MAX_COORD as int),
            layout_of(*placement, *pinned) == aligned(checked, start, k as int),
        decreases checked.align@.len() - k,
    {
        let ghost limit = MAX_COORD + 2000 * align_members(checked.align@, k as int) + k * 14336;
        proof {
            alignment_respects_pins(checked, start, k as int, MAX_COORD as int);
            alignment_respects_pins(checked, start, k + 1, MAX_COORD as int);
            members_grow(checked.align@, k as int, checked.align@.len() as int);
            members_grow(checked.align@, k + 1, checked.align@.len() as int);
            first_member_in_range(checked, checked.align@[k as int].refdes@, 0);
        }
        let spec = &checked.align[k];
        match leading_member(checked, &spec.refdes) {
            Some(a) => {
                let anchor = placement.elements[a].origin;
                assert(layout_of(*placement, *pinned).spots[a as int].origin == anchor);
                let bias: i32 = (k as i32 + 1) * CLUSTER_STRIDE;
                let ghost before = *placement;
                apply_cluster(
                    placement,
                    pinned,
                    checked,
                    &prefs,
                    spec,
                    anchor,
                    bias,
                    Ghost(limit),
                );
                proof {
                    same_parts_trans(*old(placement), before, *placement);
                }
            },
            None => {},
        }
        k = k + 1;
    }
}

fn leading_member(checked: &CheckedNetlist, names: &Vec<String>) -> (r: Option<usize>)
    ensures
        match r {
            Some(i) => first_member(checked, names@, 0) == Some(i as int),
            None => first_member(checked, names@, 0) is None,
        },
{
    let mut k: usize = 0;
    while k < names.len()
        invariant
            k <= names@.len(),
            first_member(checked, names@, 0) == first_member(checked, names@, k as int),
        decreases names@.len() - k,
    {
        match checked.element_index(names[k].as_str()) {
            Some(i) => {
                return Some(i);
            },
            None => {},
        }
        k = k + 1;
    }
    None
}

fn names_target(place: &Vec<PlaceSpec>, name: &str) -> (r: bool)
    ensures
        r == is_target(place@, name@),
{
    let mut k: usize = 0;
    while k < place.len()
        invariant
            k <= place@.len(),
            forall|j: int| 0 <= j < k ==> (#[trigger] place@[j]).refdes@ != name@,
        decreases place@.len() - k,
    {
        if str_eq(place[k].refdes.as_str(), name) {
            assert(place@[k as int].refdes@ == name@);
            return true;
        }
        k = k + 1;
    }
    false
}

/// Works off one `place` directive, or puts it back on the list.
fn place_one(
    placement: &mut Placement,
    pinned: &mut Vec<bool>,
    checked: &CheckedNetlist,
    columns: &mut i32,
    waiting: &mut Vec<usize>,
    k: usize,
    Ghost(done): Ghost<int>,
    Ghost(limit): Ghost<int>,
)
    requires
        checked.drawable(),
        checked.directives_fit(),
        k < checked.place@.len(),
        old(placement).elements@.len() == checked.elements@.len(),
        old(pinned)@.len() == checked.elements@.len(),
        0 <= done <= MAX_ELEMENTS,
        200_000 <= limit,
        limit + 2000 * (done + 1) <= i32::MAX,
        work_state(
            (Worklist {
                layout: layout_of(*old(placement), *old(pinned)),
                columns: *old(columns) as int,
                waiting: old(waiting)@,
            }),
            checked.elements@.len() as int,
            done,
            limit,
        ),
    ensures
        same_parts(*old(placement), *final(placement)),
        (Worklist {
            layout: layout_of(*final(placement), *final(pinned)),
            columns: *final(columns) as int,
            waiting: final(waiting)@,
        }) == place_step(
            checked,
            (Worklist {
                layout: layout_of(*old(placement), *old(pinned)),
                columns: *old(columns) as int,
                waiting: old(waiting)@,
            }),
            k,
        ),
{
    let spec = &checked.place[k];
    let ghost start = layout_of(*placement, *pinned);
    proof {
        named_in_range(checked, spec.refdes@);
        named_in_range(checked, spec.anchor@);
    }
    let target = checked.element_index(spec.refdes.as_str());
    let anchor = checked.element_index(spec.anchor.as_str());
    if let (Some(b), Some(a)) = (target, anchor) {
        assert(pins_to_place_by(checked, checked.place@[k as int]));
        if !pinned[a] {
            if names_target(&checked.place, spec.anchor.as_str()) {
                waiting.push(k);
                return ;
            }
            let turned = placement.elements[a].orientation;
            assert(start.spots[a as int].orientation == turned);
            put_pinned(placement, pinned, a, GridPoint::new(*columns * CLUSTER_STRIDE, 0), turned);
            *columns = *columns + 1;
        }
        let ghost mid = *placement;
        let ghost l1 = layout_of(*placement, *pinned);
        proof {
            assert(start.spots[a as int].origin.within(limit + 2000 * done));
            assert(l1.spots[a as int].origin.within(limit + 2000 * done));
            assert(checked.elements@[a as int].symbol.wf());
            assert(checked.elements@[b as int].symbol.wf());
            let (oa, ob) = (l1.spots[a as int].orientation, l1.spots[b as int].orientation);
            assert(checked.elements@[a as int].symbol.posed(oa).pins@.len() > 0);
            assert(checked.elements@[b as int].symbol.posed(ob).pins@.len() > 0);
        }
        let at = solve_place(
            spec.relation,
            placement.elements[a].origin,
            placement.elements[a].orientation,
            &checked.elements[a].symbol,
            placement.elements[b].orientation,
            &checked.elements[b].symbol,
        );
        let turned = placement.elements[b].orientation;
        assert(l1.spots[b as int].orientation == turned);
        put_pinned(placement, pinned, b, at, turned);
        proof {
            same_parts_trans(*old(placement), mid, *placement);
        }
    }
}

/// Applies the user's directives: first the clusters, in order, then the
/// placed elements, each as soon as its anchor has a position. Fails with the
/// directives whose anchor never got one.
pub fn apply_user_constraints(
    placement: &mut Placement,
    pinned: &mut Vec<bool>,
    checked: &CheckedNetlist,
) -> (r: Result<(), Vec<UnresolvedPlace>>)
    requires
        checked.drawable(),
        checked.directives_fit(),
        places(&*old(placement), checked),
        old(pinned)@.len() == checked.elements@.len(),
        old(placement).within(MAX_COORD as int),
    ensures
        same_parts(*old(placement), *final(placement)),
        ({
            let end = constrained(checked, layout_of(*old(placement), *old(pinned)));
            &&& layout_of(*final(placement), *final(pinned)) == end.layout
            &&& match r {
                Ok(_) => end.waiting.len() == 0,
                Err(list) => end.waiting.len() > 0 && lists_unresolved(
                    checked,
                    end.waiting,
                    list@,
                ),
            }
        }),
{
    let ghost start = layout_of(*placement, *pinned);
    let ghost end = constrained(checked, start);
    let ghost limit = MAX_COORD + 2000 * MAX_ELEMENTS + 2048 * 14336;
    let ghost len = checked.elements@.len() as int;
    proof {
        constraints_stay_on_the_sheet(checked, start, MAX_COORD as int);
        alignment_respects_pins(
            checked,
            start,
            checked.align@.len() as int,
            MAX_COORD as int,
        );
    }
    apply_align(placement, pinned, checked);
    let mut pending: Vec<usize> = Vec::new();
    let mut i: usize = 0;
    while i < checked.place.len()
        invariant
            i <= checked.place@.len(),
            pending@ =~= numbers(i as nat),
        decreases checked.place@.len() - i,
    {
        pending.push(i);
        i = i + 1;
    }
    let mut columns: i32 = 0;
    let ghost mut done: int = 0;
    proof {
        let mid = layout_of(*placement, *pinned);
        assert forall|j: int| 0 <= j < mid.spots.len() implies (
        #[trigger] mid.spots[j]).origin.within(limit) by {
            assert(mid.spots[j].origin.within(
                MAX_COORD + 2000 * align_members(checked.align@, checked.align@.len() as int)
                    + checked.align@.len() * 14336,
            ));
        }
        assert(directives(checked, pending@));
    }
    let mut stuck = false;
    while pending.len() > 0 && !stuck
        invariant
            checked.drawable(),
            checked.directives_fit(),
            limit == MAX_COORD + 2000 * MAX_ELEMENTS + 2048 * 14336,
            len == checked.elements@.len(),
            same_parts(*old(placement), *placement),
            placement.elements@.len() == len,
            pinned@.len() == len,
            directives(checked, pending@),
            0 <= done,
            done + pending@.len() <= MAX_ELEMENTS,
            0 <= columns <= done,
            spots_within(placement.spots(), limit + 2000 * done),
            !stuck ==> place_all(
                checked,
                layout_of(*placement, *pinned),
                columns as int,
                pending@,
            ) == end,
            stuck ==> pending@.len() > 0 && end == (Worklist {
                layout: layout_of(*placement, *pinned),
                columns: columns as int,
                waiting: pending@,
            }),
        decreases
                pending@.len(),
                if stuck {
                    0int
                } else {
                    1
                },
    {
        let mut waiting: Vec<usize> = Vec::new();
        let ghost before = layout_of(*placement, *pinned);
        let ghost first = columns as int;
        let mut m: usize = 0;
        while m < pending.len()
            invariant
                m <= pending@.len(),
                checked.drawable(),
                checked.directives_fit(),
                limit == MAX_COORD + 2000 * MAX_ELEMENTS + 2048 * 14336,
                len == checked.elements@.len(),
                same_parts(*old(placement), *placement),
                placement.elements@.len() == len,
                pinned@.len() == len,
                directives(checked, pending@),
                0 <= done,
                done + pending@.len() <= MAX_ELEMENTS,
                0 <= first <= done,
                before.sized(len),
                spots_within(before.spots, limit + 2000 * done),
                (Worklist {
                    layout: layout_of(*placement, *pinned),
                    columns: columns as int,
                    waiting: waiting@,
                }) == place_pass(checked, before, first, pending@, m as int),
            decreases pending@.len() - m,
        {
            proof {
                pass_keeps(checked, before, first, pending@, m as int, done, limit);
                pass_keeps(checked, before, first, pending@, m + 1, done, limit);
                assert(pending@[m as int] < checked.place@.len());
            }
            let ghost prior = *placement;
            let ghost settled = done + m - waiting@.len();
            place_one(
                placement,
                pinned,
                checked,
                &mut columns,
                &mut waiting,
                pending[m],
                Ghost(settled),
                Ghost(limit),
            );
            proof {
                same_parts_trans(*old(placement), prior, *placement);
            }
            m = m + 1;
        }
        proof {
            pass_keeps(checked, before, first, pending@, m as int, done, limit);
            done = done + m - waiting@.len();
        }
        if waiting.len() == pending.len() {
            stuck = true;
        }
        let ghost was = pending@;
        pending = waiting;
        proof {
            if pending@.len() == 0 {
                let none: Seq<usize> = seq![];
                assert(pending@ =~= none);
                let here = layout_of(*placement, *pinned);
                assert(place_pass(checked, here, columns as int, none, 0) == (Worklist {
                    layout: here,
                    columns: columns as int,
                    waiting: none,
                }));
            }
        }
    }
    if !stuck {
        proof {
            let none: Seq<usize> = seq![];
            assert(pending@ =~= none);
        }
        return Ok(());
    }
    let mut list: Vec<UnresolvedPlace> = Vec::new();
    let mut w: usize = 0;
    while w < pending.len()
        invariant
            w <= pending@.len(),
            list@.len() == w,
            directives(checked, pending@),
            forall|j: int|
                0 <= j < list@.len() ==> {
                    let spec = checked.place@[pending@[j] as int];
                    &&& (#[trigger] list@[j]).refdes@ == spec.refdes@
                    &&& list@[j].anchor@ == spec.anchor@
                },
        decreases pending@.len() - w,
    {
        assert(pending@[w as int] < checked.place@.len());
        let spec = &checked.place[pending[w]];
        let refdes: String = spec.refdes.clone();
        let anchor: String = spec.anchor.clone();
        list.push(UnresolvedPlace { refdes, anchor });
        w = w + 1;
    }
    Err(list)
}

// ---- What is worked off does not depend on positions -------------------------------

proof fn rows_pin_alike(
    checked: &CheckedNetlist,
    spec: AlignSpec,
    at: GridPoint,
    bt: GridPoint,
    bias: int,
    a: Layout,
    b: Layout,
    n: int,
)
    requires
        a.pinned == b.pinned,
    ensures
        row_of(checked, spec, at, bias, a, n).layout.pinned == row_of(
            checked,
            spec,
            bt,
            bias,
            b,
            n,
        ).layout.pinned,
    decreases n,
{
    if n > 0 {
        rows_pin_alike(checked, spec, at, bt, bias, a, b, n - 1);
    }
}

proof fn clusters_pin_alike(checked: &CheckedNetlist, a: Layout, b: Layout, n: int)
    requires
        a.pinned == b.pinned,
    ensures
        aligned(checked, a, n).pinned == aligned(checked, b, n).pinned,
    decreases n,
{
    if n > 0 {
        clusters_pin_alike(checked, a, b, n - 1);
        let spec = checked.align@[n - 1];
        let x = aligned(checked, a, n - 1);
        let y = aligned(checked, b, n - 1);
        match first_member(checked, spec.refdes@, 0) {
            Some(i) => {
                rows_pin_alike(
                    checked,
                    spec,
                    x.spots[i].origin,
                    y.spots[i].origin,
                    n * CLUSTER_STRIDE,
                    x,
                    y,
                    spec.refdes@.len() as int,
                );
            },
            None => {},
        }
    }
}

proof fn passes_wait_alike(
    checked: &CheckedNetlist,
    a: Layout,
    b: Layout,
    columns: int,
    pending: Seq<usize>,
    n: int,
)
    requires
        a.pinned == b.pinned,
    ensures
        ({
            let x = place_pass(checked, a, columns, pending, n);
            let y = place_pass(checked, b, columns, pending, n);
            x.layout.pinned == y.layout.pinned && x.columns == y.columns && x.waiting == y.waiting
        }),
    decreases n,
{
    if n > 0 {
        passes_wait_alike(checked, a, b, columns, pending, n - 1);
    }
}

proof fn work_waits_alike(
    checked: &CheckedNetlist,
    a: Layout,
    b: Layout,
    columns: int,
    pending: Seq<usize>,
)
    requires
        a.pinned == b.pinned,
    ensures
        ({
            let x = place_all(checked, a, columns, pending);
            let y = place_all(checked, b, columns, pending);
            x.layout.pinned == y.layout.pinned && x.waiting == y.waiting
        }),
    decreases pending.len(),
{
    passes_wait_alike(checked, a, b, columns, pending, pending.len() as int);
    let x = place_pass(checked, a, columns, pending, pending.len() as int);
    let y = place_pass(checked, b, columns, pending, pending.len() as int);
    if !(x.waiting.len() == 0 || x.waiting.len() >= pending.len()) {
        work_waits_alike(checked, x.layout, y.layout, x.columns, x.waiting);
    }
}

/// Which directives are worked off, and which elements they pin, does not
/// depend on where the elements stand.
pub proof fn work_ignores_positions(checked: &CheckedNetlist, a: Layout, b: Layout)
    requires
        a.pinned == b.pinned,
    ensures
        constrained(checked, a).waiting == constrained(checked, b).waiting,
        constrained(checked, a).layout.pinned == constrained(checked, b).layout.pinned,
{
    let n = checked.align@.len() as int;
    clusters_pin_alike(checked, a, b, n);
    work_waits_alike(
        checked,
        aligned(checked, a, n),
        aligned(checked, b, n),
        0,
        numbers(checked.place@.len()),
    );
}

/// No element pinned, all at the corner of the sheet.
pub open spec fn blank(n: nat) -> Layout {
    Layout {
        spots: Seq::new(
            n,
            |i: int|
                Spot {
                    origin: GridPoint { x: 0, y: 0 },
                    orientation: crate::symbol::orientation_at(0),
                },
        ),
        pinned: Seq::new(n, |i: int| false),
    }
}

/// The `place` directives of the netlist that are never worked off.
pub open spec fn unresolved(checked: &CheckedNetlist) -> Seq<usize> {
    constrained(checked, blank(checked.elements@.len())).waiting
}

proof fn pass_moves_what_it_pins(
    checked: &CheckedNetlist,
    layout: Layout,
    columns: int,
    pending: Seq<usize>,
    n: int,
)
    requires
        layout.sized(checked.elements@.len() as int),
    ensures
        ({
            let work = place_pass(checked, layout, columns, pending, n);
            &&& work.layout.sized(checked.elements@.len() as int)
            &&& forall|i: int|
                0 <= i < layout.spots.len() ==> (layout.pinned[i]
                    ==> #[trigger] work.layout.pinned[i]) && (!work.layout.pinned[i]
                    ==> work.layout.spots[i] == layout.spots[i])
        }),
    decreases n,
{
    if n > 0 {
        pass_moves_what_it_pins(checked, layout, columns, pending, n - 1);
        let spec = checked.place@[pending[n - 1] as int];
        named_in_range(checked, spec.refdes@);
        named_in_range(checked, spec.anchor@);
    }
}

proof fn work_moves_what_it_pins(
    checked: &CheckedNetlist,
    layout: Layout,
    columns: int,
    pending: Seq<usize>,
)
    requires
        layout.sized(checked.elements@.len() as int),
    ensures
        ({
            let work = place_all(checked, layout, columns, pending);
            &&& work.layout.sized(checked.elements@.len() as int)
            &&& forall|i: int|
                0 <= i < layout.spots.len() ==> (layout.pinned[i]
                    ==> #[trigger] work.layout.pinned[i]) && (!work.layout.pinned[i]
                    ==> work.layout.spots[i] == layout.spots[i])
        }),
    decreases pending.len(),
{
    pass_moves_what_it_pins(checked, layout, columns, pending, pending.len() as int);
    let after = place_pass(checked, layout, columns, pending, pending.len() as int);
    if !(after.waiting.len() == 0 || after.waiting.len() >= pending.len()) {
        work_moves_what_it_pins(checked, after.layout, after.columns, after.waiting);
    }
}

/// What no directive pins stays where it was.
pub proof fn directives_move_what_they_pin(
    checked: &CheckedNetlist,
    layout: Layout,
    limit: int,
    i: int,
)
    requires
        checked.drawable(),
        checked.directives_fit(),
        layout.sized(checked.elements@.len() as int),
        spots_within(layout.spots, limit),
        0 <= limit <= MAX_COORD,
        0 <= i < checked.elements@.len(),
        !constrained(checked, layout).layout.pinned[i],
    ensures
        constrained(checked, layout).layout.spots[i] == layout.spots[i],
{
    let n = checked.align@.len() as int;
    alignment_respects_pins(checked, layout, n, limit);
    let mid = aligned(checked, layout, n);
    work_moves_what_it_pins(checked, mid, 0, numbers(checked.place@.len()));
    assert(!mid.pinned[i]);
}

/// A settled `place` directive keeps the pins of the two elements apart: right
/// of the anchor, every pin of the element is at least six grid steps right of
/// every pin of the anchor; and likewise to the left, above and below.
pub proof fn placed_elements_stand_beside_their_anchors(
    checked: &CheckedNetlist,
    spots: Seq<Spot>,
    spec: PlaceSpec,
    a: int,
    b: int,
)
    requires
        relation_holds(checked, spots, spec),
        checked.element_named(spec.anchor@) == Some(a),
        checked.element_named(spec.refdes@) == Some(b),
        checked.elements@[a].symbol.posed(spots[a].orientation).pins@.len() > 0,
        checked.elements@[b].symbol.posed(spots[b].orientation).pins@.len() > 0,
    ensures
        ({
            let p = checked.elements@[a].symbol.posed(spots[a].orientation).pins@;
            let q = checked.elements@[b].symbol.posed(spots[b].orientation).pins@;
            let (s, t) = (spots[a].origin, spots[b].origin);
            forall|i: int, j: int|
                #![trigger p[i], q[j]]
                0 <= i < p.len() && 0 <= j < q.len() ==> match spec.relation {
                    Relation::RightOf => t.x + round_div(q[j].x as int, 1270) >= s.x + round_div(
                        p[i].x as int,
                        1270,
                    ) + 6,
                    Relation::LeftOf => t.x + round_div(q[j].x as int, 1270) <= s.x + round_div(
                        p[i].x as int,
                        1270,
                    ) - 6,
                    Relation::Above => t.y + round_div(-q[j].y, 1270) <= s.y + round_div(
                        -p[i].y,
                        1270,
                    ) - 6,
                    Relation::Below => t.y + round_div(-q[j].y, 1270) >= s.y + round_div(
                        -p[i].y,
                        1270,
                    ) + 6,
                }
        }),
{
    placed_pins_clear_the_anchor(
        spec.relation,
        spots[a].origin,
        spots[a].orientation,
        checked.elements@[a].symbol,
        spots[b].origin,
        spots[b].orientation,
        checked.elements@[b].symbol,
    );
}

/// The `k`-th name of a cluster is that of element `j`, which is not pinned and
/// has not been named before.
pub open spec fn names_free_element(
    checked: &CheckedNetlist,
    spec: AlignSpec,
    layout: Layout,
    k: int,
    j: int,
) -> bool {
    &&& checked.element_named(spec.refdes@[k]@) == Some(j)
    &&& !layout.pinned[j]
    &&& forall|l: int| 0 <= l < k ==> (#[trigger] spec.refdes@[l])@ != spec.refdes@[k]@
}

/// What a laid-out cluster holds on to: each element it has moved is on the
/// line, no farther along than the cursor, and beyond those named before it.
spec fn in_order(
    checked: &CheckedNetlist,
    spec: AlignSpec,
    anchor: GridPoint,
    bias: int,
    layout: Layout,
    row: Row,
    n: int,
) -> bool {
    &&& forall|j: int|
        0 <= j < layout.pinned.len() && !layout.pinned[j] && #[trigger] row.layout.pinned[j]
            ==> has_name(spec.refdes@.take(n), checked.elements@[j].refdes@)
    &&& forall|k: int, j: int| #[trigger]
        names_free_element(checked, spec, layout, k, j) && 0 <= k < n ==> {
            let at = row.layout.spots[j].origin;
            &&& row.layout.pinned[j]
            &&& row.last is Some
            &&& match spec.axis {
                Axis::Horizontal => at.y == anchor.y && at.x <= anchor.x + row.cursor,
                Axis::Vertical => at.x == anchor.x + bias && at.y <= anchor.y + row.cursor,
            }
        }
    &&& forall|k: int, l: int, i: int, j: int|
        #![trigger names_free_element(checked, spec, layout, k, i), names_free_element(checked, spec, layout, l, j)]
        names_free_element(checked, spec, layout, k, i) && names_free_element(
            checked,
            spec,
            layout,
            l,
            j,
        ) && 0 <= k < l < n ==> {
            let (a, b) = (row.layout.spots[i].origin, row.layout.spots[j].origin);
            match spec.axis {
                Axis::Horizontal => b.x >= a.x + 7,
                Axis::Vertical => b.y >= a.y + 7,
            }
        }
}

proof fn rows_stay_in_order(
    checked: &CheckedNetlist,
    spec: AlignSpec,
    anchor: GridPoint,
    bias: int,
    layout: Layout,
    n: int,
    limit: int,
)
    requires
        checked.drawable(),
        layout.sized(checked.elements@.len() as int),
        spots_within(layout.spots, limit),
        anchor.within(limit),
        0 <= bias,
        0 <= n <= spec.refdes@.len(),
        limit + 2000 * n + bias <= i32::MAX,
        0 <= limit,
    ensures
        in_order(
            checked,
            spec,
            anchor,
            bias,
            layout,
            row_of(checked, spec, anchor, bias, layout, n),
            n,
        ),
    decreases n,
{
    if n > 0 {
        rows_stay_in_order(checked, spec, anchor, bias, layout, n - 1, limit);
        row_within(checked, spec, anchor, bias, layout, n - 1, limit);
        row_within(checked, spec, anchor, bias, layout, n, limit);
        let before = row_of(checked, spec, anchor, bias, layout, n - 1);
        let after = row_of(checked, spec, anchor, bias, layout, n);
        let name = spec.refdes@[n - 1]@;
        let (short, long) = (spec.refdes@.take(n - 1), spec.refdes@.take(n));
        named_in_range(checked, name);
        assert(long[n - 1]@ == name);
        assert forall|s: Seq<char>| #[trigger] has_name(short, s) implies has_name(long, s) by {
            let k = choose|k: int| 0 <= k < short.len() && #[trigger] short[k]@ == s;
            assert(long[k]@ == s);
        }
        assert forall|k: int, j: int| #[trigger]
            names_free_element(checked, spec, layout, k, j) && 0 <= k < n implies 0 <= j
            < checked.elements@.len() && checked.elements@[j].refdes@ == spec.refdes@[k]@ by {
            named_in_range(checked, spec.refdes@[k]@);
        }
        match checked.element_named(name) {
            Some(i) => {
                match before.last {
                    Some(prev) => {
                        align_stride_limited(checked, spec.axis, prev, i);
                    },
                    None => {},
                }
                if names_free_element(checked, spec, layout, n - 1, i) {
                    if before.layout.pinned[i] {
                        let k = choose|k: int| 0 <= k < short.len() && #[trigger] short[k]@
                            == checked.elements@[i].refdes@;
                        assert(spec.refdes@[k]@ == name);
                    }
                }
                assert forall|k: int, j: int| #[trigger]
                    names_free_element(checked, spec, layout, k, j) && 0 <= k < n - 1 implies
                    after.layout.spots[j] == before.layout.spots[j] by {
                    assert(before.layout.pinned[j]);
                    if j == i {
                        assert(spec.refdes@[k]@ == name);
                    }
                }
            },
            None => {},
        }
    }
}

/// A cluster is a row or a column. In a horizontal one the elements that it
/// moves stand on the anchor's Y, and each at least seven steps right of those
/// named before it; in a vertical one they share one X, and each stands at
/// least seven steps below those named before it.
pub proof fn clusters_run_along_their_axis(
    checked: &CheckedNetlist,
    spec: AlignSpec,
    anchor: GridPoint,
    bias: int,
    layout: Layout,
    limit: int,
    k: int,
    i: int,
    l: int,
    j: int,
)
    requires
        checked.drawable(),
        layout.sized(checked.elements@.len() as int),
        spots_within(layout.spots, limit),
        anchor.within(limit),
        0 <= bias,
        limit + 2000 * spec.refdes@.len() + bias <= i32::MAX,
        0 <= limit,
        0 <= k < l < spec.refdes@.len(),
        names_free_element(checked, spec, layout, k, i),
        names_free_element(checked, spec, layout, l, j),
    ensures
        ({
            let after = row_of(checked, spec, anchor, bias, layout, spec.refdes@.len() as int);
            let (a, b) = (after.layout.spots[i].origin, after.layout.spots[j].origin);
            match spec.axis {
                Axis::Horizontal => a.y == anchor.y && b.y == anchor.y && b.x >= a.x + 7,
                Axis::Vertical => a.x == b.x && a.x == anchor.x + bias && b.y >= a.y + 7,
            }
        }),
{
    rows_stay_in_order(checked, spec, anchor, bias, layout, spec.refdes@.len() as int, limit);
}

} // verus!
