//! How a DC-series column is drawn: the pose of each member, the line through
//! the pins that the members share, and the rail stubs that the column carries
//! beside it.

use vstd::prelude::*;

use crate::dc_rank::Facing;
#[allow(unused_imports)]
use crate::dc_series::ColumnView;
use crate::dc_series::DcColumn;
#[allow(unused_imports)]
use crate::extent::{
    extent_with_glyphs, extents_are_limited, int_max, stride_steps, Bounds, EXTENT_LIMIT,
};
use crate::extent::{up_to_cells, world_extent_with_glyphs, WorldExtent, MIN_CLEARANCE};
use crate::net_class::VertPref;
use crate::netlist::{CheckedNetlist, ResolvedElement};
#[allow(unused_imports)]
use crate::netlist::nets_in_range;
#[allow(unused_imports)]
use crate::orient::prefs_of;
use crate::pins::pin_offset_world;
#[allow(unused_imports)]
use crate::pins::{pin_offset, pin_offset_in_reach};
use crate::placement::GRID_STEP;
#[allow(unused_imports)]
use crate::placement::MAX_ELEMENTS;
use crate::placer::Placer;
use crate::rail_stub::{RailStub, CELL_W};
#[allow(unused_imports)]
use crate::rail_stub::{all_stubs, stubs_listed};
#[allow(unused_imports)]
use crate::series::{is_sideways, permits, rail_facing};
use crate::series::{rail_facing_orientation, v14_permits};
#[allow(unused_imports)]
use crate::symbol::{in_reach, orientation_at, orientation_index};
use crate::symbol::{Orientation, Rotation};

verus! {

// Poses.

/// The sheet Y offset of a terminal's pin in a pose.
pub open spec fn pin_y(e: ResolvedElement, o: Orientation, t: int) -> Option<int> {
    match e.pin_of(o, t) {
        Some(k) => Some(-e.symbol.posed(o).pins@[k].y),
        None => None,
    }
}

/// The rail terminal of a two-terminal element with exactly one terminal on a
/// rail, and the rail's side.
pub open spec fn rail_side(e: ResolvedElement, prefs: Seq<Option<VertPref>>) -> Option<
    (int, VertPref),
> {
    if e.nodes@.len() != 2 {
        None
    } else {
        match (prefs[e.nodes@[0] as int], prefs[e.nodes@[1] as int]) {
            (Some(p), None) => Some((0, p)),
            (None, Some(p)) => Some((1, p)),
            _ => None,
        }
    }
}

/// The pose does not meet the drawing convention of the element: a device
/// with a DC facing has its higher terminal above the lower one, and a rail
/// element has its rail pin on the rail's side.
pub open spec fn unconventional(
    e: ResolvedElement,
    facing: Option<Facing>,
    prefs: Seq<Option<VertPref>>,
    o: Orientation,
) -> bool {
    match facing {
        Some((hi, lo)) => match (pin_y(e, o, hi as int), pin_y(e, o, lo as int)) {
            (Some(a), Some(b)) => a >= b,
            _ => true,
        },
        None => match rail_side(e, prefs) {
            Some((t, pref)) => match (pin_y(e, o, t), pin_y(e, o, 1 - t)) {
                (Some(a), Some(b)) => (a < b) != (pref == VertPref::Up),
                _ => true,
            },
            None => true,
        },
    }
}

/// How little a pose suits a column member: first the convention, then being
/// laid on its side, then not being the upright pose, then pose order.
pub open spec fn pose_key(
    e: ResolvedElement,
    facing: Option<Facing>,
    prefs: Seq<Option<VertPref>>,
    o: Orientation,
) -> int {
    (if unconventional(e, facing, prefs, o) {
        32int
    } else {
        0
    }) + (if is_sideways(o) {
        16int
    } else {
        0
    }) + (if o != orientation_at(0) {
        8int
    } else {
        0
    }) + orientation_index(o)
}

/// The best pose among the first `n` of a list.
pub open spec fn best_pose(
    e: ResolvedElement,
    facing: Option<Facing>,
    prefs: Seq<Option<VertPref>>,
    poses: Seq<Orientation>,
    n: int,
) -> Option<Orientation>
    decreases n,
{
    if n <= 0 {
        None
    } else {
        match best_pose(e, facing, prefs, poses, n - 1) {
            Some(b) => if pose_key(e, facing, prefs, poses[n - 1]) < pose_key(
                e,
                facing,
                prefs,
                b,
            ) {
                Some(poses[n - 1])
            } else {
                Some(b)
            },
            None => Some(poses[n - 1]),
        }
    }
}

/// The best pose is one of the list, and none of the list is better.
pub proof fn best_pose_is_best(
    e: ResolvedElement,
    facing: Option<Facing>,
    prefs: Seq<Option<VertPref>>,
    poses: Seq<Orientation>,
    n: int,
)
    requires
        0 <= n <= poses.len(),
    ensures
        best_pose(e, facing, prefs, poses, n) is None <==> n == 0,
        best_pose(e, facing, prefs, poses, n) matches Some(b) ==> {
            &&& exists|k: int| 0 <= k < n && poses[k] == b
            &&& forall|k: int|
                0 <= k < n ==> pose_key(e, facing, prefs, b) <= pose_key(
                    e,
                    facing,
                    prefs,
                    #[trigger] poses[k],
                )
        },
    decreases n,
{
    if n > 0 {
        best_pose_is_best(e, facing, prefs, poses, n - 1);
        match best_pose(e, facing, prefs, poses, n - 1) {
            Some(b) => {
                let k = choose|k: int| 0 <= k < n - 1 && poses[k] == b;
                assert(poses[k] == b);
            },
            None => {},
        }
        assert(poses[n - 1] == poses[n - 1]);
    }
}

fn terminal_y(e: &ResolvedElement, o: Orientation, t: usize) -> (r: Option<i64>)
    requires
        e.symbol.wf(),
    ensures
        match r {
            Some(y) => pin_y(*e, o, t as int) == Some(y as int),
            None => pin_y(*e, o, t as int) is None,
        },
{
    match e.terminal_pin(o, t) {
        Some(k) => Some(-(e.symbol.pins_in(o)[k].y as i64)),
        None => None,
    }
}

fn key_of(
    e: &ResolvedElement,
    facing: Option<Facing>,
    prefs: &Vec<Option<VertPref>>,
    o: Orientation,
) -> (r: usize)
    requires
        e.symbol.wf(),
        nets_in_range(e.nodes@, prefs@.len()),
    ensures
        r == pose_key(*e, facing, prefs@, o),
{
    let odd = match facing {
        Some((hi, lo)) => match (terminal_y(e, o, hi), terminal_y(e, o, lo)) {
            (Some(a), Some(b)) => a >= b,
            _ => true,
        },
        None => {
            let mut side: Option<(usize, VertPref)> = None;
            if e.nodes.len() == 2 {
                let (a, b) = (e.nodes[0], e.nodes[1]);
                match (prefs[a], prefs[b]) {
                    (Some(p), None) => {
                        side = Some((0, p));
                    },
                    (None, Some(p)) => {
                        side = Some((1, p));
                    },
                    _ => {},
                }
            }
            match side {
                Some((t, pref)) => match (terminal_y(e, o, t), terminal_y(e, o, 1 - t)) {
                    (Some(a), Some(b)) => (a < b) != (pref == VertPref::Up),
                    _ => true,
                },
                None => true,
            }
        },
    };
    let mut key: usize = o.index();
    if odd {
        key = key + 32;
    }
    if o.rotation == Rotation::R90 || o.rotation == Rotation::R270 {
        key = key + 16;
    }
    if o != Orientation::identity() {
        key = key + 8;
    }
    key
}

/// The pose in which a column draws a member: the allowed pose that suits the
/// column best, or none when no pose is allowed.
pub fn column_pose(
    e: &ResolvedElement,
    facing: Option<Facing>,
    prefs: &Vec<Option<VertPref>>,
    allowed: &Vec<Orientation>,
) -> (r: Option<Orientation>)
    requires
        e.symbol.wf(),
        nets_in_range(e.nodes@, prefs@.len()),
    ensures
        r == best_pose(*e, facing, prefs@, allowed@, allowed@.len() as int),
{
    let mut best: Option<(Orientation, usize)> = None;
    let mut k: usize = 0;
    while k < allowed.len()
        invariant
            k <= allowed@.len(),
            e.symbol.wf(),
            nets_in_range(e.nodes@, prefs@.len()),
            match best {
                Some(b) => {
                    &&& best_pose(*e, facing, prefs@, allowed@, k as int) == Some(b.0)
                    &&& b.1 == pose_key(*e, facing, prefs@, b.0)
                },
                None => best_pose(*e, facing, prefs@, allowed@, k as int) is None,
            },
        decreases allowed@.len() - k,
    {
        let o = allowed[k];
        let key: usize = key_of(e, facing, prefs, o);
        let better = match best {
            Some((_, b)) => key < b,
            None => true,
        };
        if better {
            best = Some((o, key));
        }
        k = k + 1;
    }
    match best {
        Some((o, _)) => Some(o),
        None => None,
    }
}

// The column line.

/// The X offset, in grid steps, from the origin to the pin on the net; none
/// when there is no such pin or it is off the grid.
pub open spec fn shared_cells(e: ResolvedElement, o: Orientation, net: int) -> Option<int> {
    match pin_offset(e, o, net) {
        Some(d) => if d.0 % (GRID_STEP as int) == 0 {
            Some(d.0 / GRID_STEP as int)
        } else {
            None
        },
        None => None,
    }
}

/// The X offset, in grid steps, from the origin to the pin on the net.
pub fn shared_pin_x_cells(e: &ResolvedElement, o: Orientation, net: usize) -> (r: Option<i32>)
    requires
        e.symbol.wf(),
    ensures
        match r {
            Some(c) => shared_cells(*e, o, net as int) == Some(c as int) && -800 <= c <= 800,
            None => shared_cells(*e, o, net as int) is None,
        },
{
    match pin_offset_world(e, o, net) {
        Some((dx, _)) => {
            if dx >= 0 {
                if dx % GRID_STEP == 0 {
                    Some((dx / GRID_STEP) as i32)
                } else {
                    None
                }
            } else {
                let m: i64 = -dx;
                if m % GRID_STEP == 0 {
                    let q: i64 = m / GRID_STEP;
                    assert(dx % 1270 == 0 && dx / 1270 == -q);
                    Some(-(q as i32))
                } else {
                    assert(dx % 1270 != 0);
                    None
                }
            }
        },
        None => None,
    }
}

/// The offset that puts member `k` on the column's line. A member in the
/// middle shares a pin with each neighbour, and the two must agree.
pub open spec fn member_offset(
    checked: &CheckedNetlist,
    c: ColumnView,
    poses: Seq<Orientation>,
    k: int,
) -> Option<int> {
    let e = checked.elements@[c.0[k] as int];
    let below = shared_cells(e, poses[k], c.1[k] as int);
    let above = shared_cells(e, poses[k], c.1[k - 1] as int);
    if k > 0 && k < c.1.len() {
        if above == below {
            above
        } else {
            None
        }
    } else if k < c.1.len() {
        below
    } else if k > 0 {
        above
    } else {
        None
    }
}

/// Every member has a place on the column's line.
pub open spec fn lines_up(
    checked: &CheckedNetlist,
    c: ColumnView,
    poses: Seq<Orientation>,
) -> bool {
    &&& c.1.len() + 1 == c.0.len()
    &&& poses.len() == c.0.len()
    &&& forall|k: int|
        0 <= k < c.0.len() ==> #[trigger] member_offset(checked, c, poses, k) is Some
}

/// The view of a column.
pub open spec fn view_of(col: DcColumn) -> ColumnView {
    (col.members@, col.shared@)
}

/// The offsets that put every member's shared pins on the column's line; none
/// when some member has no place on one line.
pub fn column_pin_offsets(
    checked: &CheckedNetlist,
    col: &DcColumn,
    poses: &Vec<Orientation>,
) -> (r: Option<Vec<i32>>)
    requires
        checked.drawable(),
        forall|k: int|
            0 <= k < col.members@.len() ==> (#[trigger] col.members@[k]) < checked.elements@.len(),
    ensures
        match r {
            Some(v) => {
                &&& lines_up(checked, view_of(*col), poses@)
                &&& v@.len() == col.members@.len()
                &&& forall|k: int|
                    0 <= k < v@.len() ==> member_offset(checked, view_of(*col), poses@, k) == Some(
                        #[trigger] v@[k] as int,
                    ) && -800 <= v@[k] <= 800
            },
            None => !lines_up(checked, view_of(*col), poses@),
        },
{
    let n: usize = col.members.len();
    if n == 0 || col.shared.len() != n - 1 || poses.len() != n {
        return None;
    }
    let ghost c = view_of(*col);
    let mut out: Vec<i32> = Vec::new();
    let mut k: usize = 0;
    while k < n
        invariant
            k <= n,
            n == col.members@.len(),
            col.shared@.len() + 1 == n,
            poses@.len() == n,
            c == view_of(*col),
            checked.drawable(),
            forall|k: int|
                0 <= k < col.members@.len() ==> (#[trigger] col.members@[k])
                    < checked.elements@.len(),
            out@.len() == k,
            forall|j: int|
                0 <= j < k ==> member_offset(checked, c, poses@, j) == Some(
                    #[trigger] out@[j] as int,
                ) && -800 <= out@[j] <= 800,
        decreases n - k,
    {
        let i: usize = col.members[k];
        assert(checked.elements@[i as int].symbol.wf());
        let e = &checked.elements[i];
        let o = poses[k];
        let offset: Option<i32> = if k > 0 && k < n - 1 {
            match (
                shared_pin_x_cells(e, o, col.shared[k - 1]),
                shared_pin_x_cells(e, o, col.shared[k]),
            ) {
                (Some(a), Some(b)) => {
                    if a == b {
                        Some(a)
                    } else {
                        None
                    }
                },
                _ => None,
            }
        } else if k < n - 1 {
            shared_pin_x_cells(e, o, col.shared[k])
        } else if k > 0 {
            shared_pin_x_cells(e, o, col.shared[k - 1])
        } else {
            None
        };
        match offset {
            Some(d) => {
                out.push(d);
            },
            None => {
                assert(member_offset(checked, c, poses@, k as int) is None);
                return None;
            },
        }
        k = k + 1;
    }
    assert forall|j: int| 0 <= j < c.0.len() implies #[trigger] member_offset(
        checked,
        c,
        poses@,
        j,
    ) is Some by {
        let d = out@[j];
        assert(member_offset(checked, c, poses@, j) == Some(d as int));
    }
    Some(out)
}

// Carried stubs.

/// A rail stub that a column carries beside it.
#[derive(Debug, Clone, Copy)]
pub struct CarriedStub {
    pub element: usize,
    /// The slot of the member that the stub is drawn level with.
    pub member: usize,
    /// The stub's pin offset on the shared net, in micrometres.
    pub pin: (i64, i64),
    /// The Y offset of the member's pin on the same net.
    pub anchor_dy: i64,
    pub pose: Orientation,
    /// Place in the row of stubs; the first is nearest the column.
    pub slot: usize,
    /// Steps between the stubs of the row.
    pub row_stride: i32,
    pub ext: WorldExtent,
}

/// What a carried stub is.
pub struct Carried {
    pub element: int,
    pub member: int,
    pub pin: (int, int),
    pub anchor_dy: int,
    pub pose: Orientation,
    pub slot: int,
    pub row_stride: int,
    pub ext: Bounds,
}

impl View for CarriedStub {
    type V = Carried;

    open spec fn view(&self) -> Carried {
        Carried {
            element: self.element as int,
            member: self.member as int,
            pin: (self.pin.0 as int, self.pin.1 as int),
            anchor_dy: self.anchor_dy as int,
            pose: self.pose,
            slot: self.slot as int,
            row_stride: self.row_stride as int,
            ext: self.ext@,
        }
    }
}

/// The stubs on the net that run to the side and are no column members, among
/// the first `n` stubs.
pub open spec fn free_group(
    checked: &CheckedNetlist,
    columned: Seq<bool>,
    net: int,
    side: VertPref,
    n: int,
) -> Seq<usize>
    decreases n,
{
    if n <= 0 {
        seq![]
    } else {
        let rest = free_group(checked, columned, net, side, n - 1);
        let s = all_stubs(checked)[n - 1];
        if s.signal_net == net && s.side == side && !columned[s.element as int] {
            rest.push(s.element)
        } else {
            rest
        }
    }
}

/// The stub can be drawn facing its rail in a pose that it may take.
pub open spec fn posable(
    checked: &CheckedNetlist,
    allowed: Seq<Vec<Orientation>>,
    net: int,
    side: VertPref,
    i: int,
) -> bool {
    let e = checked.elements@[i];
    rail_facing(e, net, side) matches Some(o) && permits(allowed, i, o) && pin_offset(
        e,
        o,
        net,
    ) is Some
}

/// The stride of a row of boxes: at least a cell, and wide enough for every
/// two neighbours among the first `n`.
pub open spec fn row_of(exts: Seq<Bounds>, n: int) -> int
    decreases n,
{
    if n <= 1 {
        CELL_W as int
    } else {
        int_max(
            row_of(exts, n - 1),
            stride_steps(exts[n - 2].max_x - exts[n - 1].min_x + MIN_CLEARANCE),
        )
    }
}

/// The boxes of a group of stubs, each in the pose that faces its rail, with
/// the room for its glyph.
pub open spec fn group_extents(
    checked: &CheckedNetlist,
    ids: Seq<usize>,
    net: int,
    side: VertPref,
) -> Seq<Bounds> {
    Seq::new(
        ids.len(),
        |k: int|
            extent_with_glyphs(
                checked.elements@[ids[k] as int],
                rail_facing(checked.elements@[ids[k] as int], net, side)->0,
                None,
                prefs_of(checked),
            ),
    )
}

/// The member that stubs on shared net `k` are drawn level with: the one
/// below the node for a lower rail, the one above for an upper.
pub open spec fn level_member(k: int, side: VertPref) -> int {
    if side == VertPref::Down {
        k + 1
    } else {
        k
    }
}

/// The stubs that the column carries on shared net `k` and one side: all of
/// the group or, when a member of it is pinned or cannot be posed, none.
pub open spec fn carried_group(
    checked: &CheckedNetlist,
    pinned: Seq<bool>,
    allowed: Seq<Vec<Orientation>>,
    columned: Seq<bool>,
    c: ColumnView,
    poses: Seq<Orientation>,
    k: int,
    side: VertPref,
) -> Seq<Carried> {
    let net = c.1[k] as int;
    let member = level_member(k, side);
    let ids = free_group(checked, columned, net, side, all_stubs(checked).len() as int);
    let exts = group_extents(checked, ids, net, side);
    match pin_offset(checked.elements@[c.0[member] as int], poses[member], net) {
        None => seq![],
        Some(anchor) => if (exists|j: int| 0 <= j < ids.len() && pinned[#[trigger] ids[j] as int])
            || !(forall|j: int|
            0 <= j < ids.len() ==> posable(
                checked,
                allowed,
                net,
                side,
                #[trigger] ids[j] as int,
            )) {
            seq![]
        } else {
            Seq::new(
                ids.len(),
                |j: int|
                    {
                        let e = checked.elements@[ids[j] as int];
                        let o = rail_facing(e, net, side)->0;
                        Carried {
                            element: ids[j] as int,
                            member,
                            pin: pin_offset(e, o, net)->0,
                            anchor_dy: anchor.1,
                            pose: o,
                            slot: j,
                            row_stride: row_of(exts, ids.len() as int),
                            ext: exts[j],
                        }
                    },
            )
        },
    }
}

/// The stubs that the column carries on its first `k` shared nets.
pub open spec fn carried_upto(
    checked: &CheckedNetlist,
    pinned: Seq<bool>,
    allowed: Seq<Vec<Orientation>>,
    columned: Seq<bool>,
    c: ColumnView,
    poses: Seq<Orientation>,
    k: int,
) -> Seq<Carried>
    decreases k,
{
    if k <= 0 {
        seq![]
    } else {
        carried_upto(checked, pinned, allowed, columned, c, poses, k - 1) + carried_group(
            checked,
            pinned,
            allowed,
            columned,
            c,
            poses,
            k - 1,
            VertPref::Up,
        ) + carried_group(
            checked,
            pinned,
            allowed,
            columned,
            c,
            poses,
            k - 1,
            VertPref::Down,
        )
    }
}

/// The stubs that the column carries.
pub open spec fn carried_by(
    checked: &CheckedNetlist,
    pinned: Seq<bool>,
    allowed: Seq<Vec<Orientation>>,
    columned: Seq<bool>,
    c: ColumnView,
    poses: Seq<Orientation>,
    placer: Placer,
) -> Seq<Carried> {
    if placer.dc_column_node_stubs {
        carried_upto(checked, pinned, allowed, columned, c, poses, c.1.len() as int)
    } else {
        seq![]
    }
}

/// The views of carried stubs.
pub open spec fn carried_views(v: Seq<CarriedStub>) -> Seq<Carried> {
    Seq::new(v.len(), |k: int| v[k]@)
}

/// What holds of every carried stub: it is an unpinned element of the netlist
/// and no column member, its numbers are small, and its member is one of the
/// column.
pub open spec fn carried_ok(
    checked: &CheckedNetlist,
    pinned: Seq<bool>,
    columned: Seq<bool>,
    members: int,
    s: Carried,
) -> bool {
    &&& 0 <= s.element < checked.elements@.len()
    &&& !columned[s.element]
    &&& !pinned[s.element]
    &&& 0 <= s.member < members
    &&& in_reach(s.pin.0) && in_reach(s.pin.1) && in_reach(s.anchor_dy)
    &&& 0 <= s.slot < MAX_ELEMENTS
    &&& 6 <= s.row_stride <= 1735
    &&& s.ext.within(EXTENT_LIMIT as int)
}

/// The column has the shape of one: members and shared nets of the netlist.
pub open spec fn shaped(checked: &CheckedNetlist, c: ColumnView) -> bool {
    &&& c.0.len() >= 2
    &&& c.1.len() + 1 == c.0.len()
    &&& forall|k: int| 0 <= k < c.0.len() ==> (#[trigger] c.0[k]) < checked.elements@.len()
}

proof fn row_of_bound(exts: Seq<Bounds>, n: int)
    requires
        n <= exts.len(),
        forall|k: int| 0 <= k < exts.len() ==> (#[trigger] exts[k]).within(EXTENT_LIMIT as int),
    ensures
        6 <= row_of(exts, n) <= 1735,
    decreases n,
{
    if n > 1 {
        row_of_bound(exts, n - 1);
        assert(exts[n - 2].within(EXTENT_LIMIT as int) && exts[n - 1].within(EXTENT_LIMIT as int));
    }
}

proof fn free_group_listed(
    checked: &CheckedNetlist,
    columned: Seq<bool>,
    net: int,
    side: VertPref,
    n: int,
)
    requires
        checked.drawable(),
        0 <= n <= all_stubs(checked).len(),
    ensures
        ({
            let ids = free_group(checked, columned, net, side, n);
            &&& ids.len() <= n
            &&& n <= checked.elements@.len()
            &&& forall|k: int|
                0 <= k < ids.len() ==> (#[trigger] ids[k]) < checked.elements@.len()
                    && !columned[ids[k] as int]
        }),
    decreases n,
{
    stubs_listed(checked, checked.elements@.len() as int);
    if n > 0 {
        free_group_listed(checked, columned, net, side, n - 1);
        let rest = free_group(checked, columned, net, side, n - 1);
        let ids = free_group(checked, columned, net, side, n);
        assert forall|k: int| 0 <= k < ids.len() implies (#[trigger] ids[k])
            < checked.elements@.len() && !columned[ids[k] as int] by {
            if k < rest.len() {
                assert(ids[k] == rest[k]);
            } else {
                assert(all_stubs(checked)[n - 1].element == ids[k]);
            }
        }
    }
}

proof fn carried_group_ok(
    checked: &CheckedNetlist,
    pinned: Seq<bool>,
    allowed: Seq<Vec<Orientation>>,
    columned: Seq<bool>,
    c: ColumnView,
    poses: Seq<Orientation>,
    k: int,
    side: VertPref,
)
    requires
        checked.drawable(),
        shaped(checked, c),
        0 <= k < c.1.len(),
    ensures
        ({
            let g = carried_group(checked, pinned, allowed, columned, c, poses, k, side);
            &&& g.len() <= MAX_ELEMENTS
            &&& forall|j: int|
                0 <= j < g.len() ==> carried_ok(
                    checked,
                    pinned,
                    columned,
                    c.0.len() as int,
                    #[trigger] g[j],
                )
        }),
{
    let net = c.1[k] as int;
    let member = level_member(k, side);
    let n = all_stubs(checked).len() as int;
    let ids = free_group(checked, columned, net, side, n);
    let exts = group_extents(checked, ids, net, side);
    let g = carried_group(checked, pinned, allowed, columned, c, poses, k, side);
    free_group_listed(checked, columned, net, side, n);
    let m = checked.elements@[c.0[member] as int];
    assert(m.symbol.wf());
    pin_offset_in_reach(m, poses[member], net);
    assert forall|j: int| 0 <= j < exts.len() implies (#[trigger] exts[j]).within(
        EXTENT_LIMIT as int,
    ) by {
        let e = checked.elements@[ids[j] as int];
        assert(e.symbol.wf());
        extents_are_limited(e, rail_facing(e, net, side)->0, None, prefs_of(checked));
    }
    row_of_bound(exts, ids.len() as int);
    assert forall|j: int| 0 <= j < g.len() implies carried_ok(
        checked,
        pinned,
        columned,
        c.0.len() as int,
        #[trigger] g[j],
    ) by {
        let e = checked.elements@[ids[j] as int];
        assert(e.symbol.wf());
        assert(posable(checked, allowed, net, side, ids[j] as int));
        pin_offset_in_reach(e, rail_facing(e, net, side)->0, net);
        assert(exts[j].within(EXTENT_LIMIT as int));
    }
}

/// What holds of every stub that a column carries.
pub proof fn carried_upto_ok(
    checked: &CheckedNetlist,
    pinned: Seq<bool>,
    allowed: Seq<Vec<Orientation>>,
    columned: Seq<bool>,
    c: ColumnView,
    poses: Seq<Orientation>,
    k: int,
)
    requires
        checked.drawable(),
        shaped(checked, c),
        0 <= k <= c.1.len(),
    ensures
        ({
            let g = carried_upto(checked, pinned, allowed, columned, c, poses, k);
            &&& g.len() <= 2 * k * MAX_ELEMENTS
            &&& forall|j: int|
                0 <= j < g.len() ==> carried_ok(
                    checked,
                    pinned,
                    columned,
                    c.0.len() as int,
                    #[trigger] g[j],
                )
        }),
    decreases k,
{
    if k > 0 {
        carried_upto_ok(checked, pinned, allowed, columned, c, poses, k - 1);
        carried_group_ok(checked, pinned, allowed, columned, c, poses, k - 1, VertPref::Up);
        carried_group_ok(checked, pinned, allowed, columned, c, poses, k - 1, VertPref::Down);
        let a = carried_upto(checked, pinned, allowed, columned, c, poses, k - 1);
        let u = carried_group(checked, pinned, allowed, columned, c, poses, k - 1, VertPref::Up);
        let d = carried_group(checked, pinned, allowed, columned, c, poses, k - 1, VertPref::Down);
        let g = a + u + d;
        assert(2 * k * MAX_ELEMENTS == 2 * (k - 1) * MAX_ELEMENTS + 2 * MAX_ELEMENTS)
            by (nonlinear_arith);
        assert forall|j: int| 0 <= j < g.len() implies carried_ok(
            checked,
            pinned,
            columned,
            c.0.len() as int,
            #[trigger] g[j],
        ) by {
            if j < a.len() {
                assert(g[j] == a[j]);
            } else if j < a.len() + u.len() {
                assert(g[j] == u[j - a.len()]);
            } else {
                assert(g[j] == d[j - a.len() - u.len()]);
            }
        }
    }
}

/// Plans the stubs that the column carries on one shared net and side.
fn plan_group(
    pinned: &Vec<bool>,
    checked: &CheckedNetlist,
    allowed: &Vec<Vec<Orientation>>,
    prefs: &Vec<Option<VertPref>>,
    col: &DcColumn,
    poses: &Vec<Orientation>,
    stubs: &Vec<RailStub>,
    columned: &Vec<bool>,
    k: usize,
    side: VertPref,
) -> (r: Vec<CarriedStub>)
    requires
        checked.drawable(),
        stubs@ == all_stubs(checked),
        prefs@ == prefs_of(checked),
        pinned@.len() == checked.elements@.len(),
        columned@.len() == checked.elements@.len(),
        shaped(checked, view_of(*col)),
        poses@.len() == col.members@.len(),
        k < col.shared@.len(),
    ensures
        carried_views(r@) == carried_group(
            checked,
            pinned@,
            allowed@,
            columned@,
            view_of(*col),
            poses@,
            k as int,
            side,
        ),
{
    let joints: usize = col.shared.len();
    assert(k < joints);
    let net: usize = col.shared[k];
    let member: usize = if side == VertPref::Down {
        k + 1
    } else {
        k
    };
    let mut out: Vec<CarriedStub> = Vec::new();
    let mut ids: Vec<usize> = Vec::new();
    let mut blocked = false;
    let mut j: usize = 0;
    proof {
        stubs_listed(checked, checked.elements@.len() as int);
    }
    while j < stubs.len()
        invariant
            j <= stubs@.len(),
            checked.drawable(),
            stubs@ == all_stubs(checked),
            pinned@.len() == checked.elements@.len(),
            columned@.len() == checked.elements@.len(),
            forall|a: int|
                0 <= a < stubs@.len() ==> (#[trigger] stubs@[a]).element < checked.elements@.len(),
            ids@ == free_group(checked, columned@, net as int, side, j as int),
            blocked == exists|a: int| 0 <= a < ids@.len() && pinned@[#[trigger] ids@[a] as int],
        decreases stubs@.len() - j,
    {
        let s = stubs[j];
        if s.signal_net == net && s.side == side && !columned[s.element] {
            let ghost before = ids@;
            ids.push(s.element);
            proof {
                if blocked {
                    let a = choose|a: int|
                        0 <= a < before.len() && pinned@[#[trigger] before[a] as int];
                    assert(ids@[a] == before[a]);
                }
                assert(ids@[before.len() as int] == s.element);
                assert forall|a: int| 0 <= a < ids@.len() && pinned@[#[trigger] ids@[a] as int]
                    && !blocked implies a == before.len() by {
                    if a < before.len() {
                        assert(before[a] == ids@[a]);
                    }
                }
            }
            if pinned[s.element] {
                blocked = true;
            }
        }
        j = j + 1;
    }
    proof {
        free_group_listed(checked, columned@, net as int, side, stubs@.len() as int);
    }
    let m: usize = col.members[member];
    assert(checked.elements@[m as int].symbol.wf());
    let anchor = pin_offset_world(&checked.elements[m], poses[member], net);
    if blocked || anchor.is_none() || ids.len() == 0 {
        assert(carried_views(out@) =~= seq![]);
        proof {
            let g = carried_group(
                checked,
                pinned@,
                allowed@,
                columned@,
                view_of(*col),
                poses@,
                k as int,
                side,
            );
            assert(g =~= seq![]);
        }
        return out;
    }
    let anchor_dy: i64 = match anchor {
        Some((_, dy)) => dy,
        None => 0,
    };
    let ghost exts = group_extents(checked, ids@, net as int, side);
    let mut stride: i32 = CELL_W;
    let mut j: usize = 0;
    while j < ids.len()
        invariant
            j <= ids@.len(),
            checked.drawable(),
            ids@.len() <= MAX_ELEMENTS,
            prefs@ == prefs_of(checked),
            forall|a: int| 0 <= a < ids@.len() ==> (#[trigger] ids@[a]) < checked.elements@.len(),
            exts == group_extents(checked, ids@, net as int, side),
            in_reach(anchor_dy as int),
            out@.len() == j,
            stride == row_of(exts, j as int),
            6 <= stride <= 1735,
            k < col.shared@.len(),
            net == col.shared@[k as int],
            ids@ == free_group(
                checked,
                columned@,
                net as int,
                side,
                all_stubs(checked).len() as int,
            ),
            forall|a: int|
                0 <= a < j ==> {
                    let e = checked.elements@[ids@[a] as int];
                    let s = #[trigger] out@[a];
                    &&& posable(checked, allowed@, net as int, side, ids@[a] as int)
                    &&& s.element == ids@[a]
                    &&& s.member == member
                    &&& s.anchor_dy == anchor_dy
                    &&& Some(s.pose) == rail_facing(e, net as int, side)
                    &&& Some((s.pin.0 as int, s.pin.1 as int)) == pin_offset(
                        e,
                        s.pose,
                        net as int,
                    )
                    &&& s.slot == a
                    &&& s.ext@ == exts[a]
                    &&& s.ext@.within(EXTENT_LIMIT as int)
                },
        decreases ids@.len() - j,
    {
        let i: usize = ids[j];
        assert(checked.elements@[i as int].symbol.wf());
        assert(nets_in_range(checked.elements@[i as int].nodes@, checked.nets@.len()));
        let e = &checked.elements[i];
        let pose = match rail_facing_orientation(e, net, side) {
            Some(o) => o,
            None => {
                assert(!posable(checked, allowed@, net as int, side, ids@[j as int] as int));
                let none: Vec<CarriedStub> = Vec::new();
                assert(carried_views(none@) =~= seq![]);
                return none;
            },
        };
        let pin = pin_offset_world(e, pose, net);
        if !v14_permits(allowed, i, pose) || pin.is_none() {
            assert(!posable(checked, allowed@, net as int, side, ids@[j as int] as int));
            let none: Vec<CarriedStub> = Vec::new();
            assert(carried_views(none@) =~= seq![]);
            return none;
        }
        let at: (i64, i64) = match pin {
            Some(p) => p,
            None => (0, 0),
        };
        let ext = world_extent_with_glyphs(e, pose, &None, prefs);
        proof {
            extents_are_limited(*e, pose, None, prefs@);
            assert(exts[j as int] == ext@);
        }
        if j > 0 {
            let prev = out[j - 1].ext;
            assert(out@[j - 1].ext@ == exts[j - 1]);
            let need: i32 = up_to_cells(prev.max_x - ext.min_x + MIN_CLEARANCE);
            if need > stride {
                stride = need;
            }
        }
        out.push(
            CarriedStub {
                element: i,
                member,
                pin: at,
                anchor_dy,
                pose,
                slot: j,
                row_stride: 0,
                ext,
            },
        );
        j = j + 1;
    }
    let ghost planned = out@;
    let mut done: Vec<CarriedStub> = Vec::new();
    let mut j: usize = 0;
    while j < out.len()
        invariant
            j <= out@.len(),
            out@ == planned,
            done@.len() == j,
            forall|a: int|
                0 <= a < j ==> #[trigger] done@[a] == (CarriedStub {
                    row_stride: stride,
                    ..planned[a]
                }),
        decreases out@.len() - j,
    {
        let mut s = out[j];
        s.row_stride = stride;
        done.push(s);
        j = j + 1;
    }
    proof {
        let g = carried_group(
            checked,
            pinned@,
            allowed@,
            columned@,
            view_of(*col),
            poses@,
            k as int,
            side,
        );
        assert forall|a: int| 0 <= a < ids@.len() implies posable(
            checked,
            allowed@,
            net as int,
            side,
            #[trigger] ids@[a] as int,
        ) by {
            let s = planned[a];
            assert(s.slot == a);
        }
        assert(g.len() == ids@.len());
        assert forall|a: int| 0 <= a < g.len() implies carried_views(done@)[a] == #[trigger] g[a] by {
            let s = planned[a];
            assert(s.slot == a);
            assert(done@[a] == (CarriedStub { row_stride: stride, ..planned[a] }));
        }
        assert(carried_views(done@) =~= g);
    }
    done
}

/// Plans every stub that the column carries, without moving anything. A group
/// of stubs on one net and side with a pinned member, or with a member that
/// cannot be drawn facing its rail, is left out whole.
pub fn plan_carried_stubs(
    pinned: &Vec<bool>,
    checked: &CheckedNetlist,
    allowed: &Vec<Vec<Orientation>>,
    prefs: &Vec<Option<VertPref>>,
    col: &DcColumn,
    poses: &Vec<Orientation>,
    stubs: &Vec<RailStub>,
    columned: &Vec<bool>,
    placer: Placer,
) -> (r: Vec<CarriedStub>)
    requires
        checked.drawable(),
        stubs@ == all_stubs(checked),
        prefs@ == prefs_of(checked),
        pinned@.len() == checked.elements@.len(),
        columned@.len() == checked.elements@.len(),
        shaped(checked, view_of(*col)),
        poses@.len() == col.members@.len(),
    ensures
        carried_views(r@) == carried_by(
            checked,
            pinned@,
            allowed@,
            columned@,
            view_of(*col),
            poses@,
            placer,
        ),
{
    let mut out: Vec<CarriedStub> = Vec::new();
    assert(carried_views(out@) =~= seq![]);
    if !placer.dc_column_node_stubs {
        return out;
    }
    let ghost c = view_of(*col);
    let mut k: usize = 0;
    while k < col.shared.len()
        invariant
            k <= col.shared@.len(),
            checked.drawable(),
            stubs@ == all_stubs(checked),
            prefs@ == prefs_of(checked),
            pinned@.len() == checked.elements@.len(),
            columned@.len() == checked.elements@.len(),
            c == view_of(*col),
            shaped(checked, c),
            poses@.len() == col.members@.len(),
            carried_views(out@) == carried_upto(
                checked,
                pinned@,
                allowed@,
                columned@,
                c,
                poses@,
                k as int,
            ),
        decreases col.shared@.len() - k,
    {
        let up = plan_group(
            pinned,
            checked,
            allowed,
            prefs,
            col,
            poses,
            stubs,
            columned,
            k,
            VertPref::Up,
        );
        let down = plan_group(
            pinned,
            checked,
            allowed,
            prefs,
            col,
            poses,
            stubs,
            columned,
            k,
            VertPref::Down,
        );
        append_stubs(&mut out, &up);
        append_stubs(&mut out, &down);
        k = k + 1;
    }
    out
}

fn append_stubs(out: &mut Vec<CarriedStub>, more: &Vec<CarriedStub>)
    ensures
        carried_views(final(out)@) == carried_views(old(out)@) + carried_views(more@),
{
    let ghost before = out@;
    let mut k: usize = 0;
    while k < more.len()
        invariant
            k <= more@.len(),
            out@ == before + more@.take(k as int),
        decreases more@.len() - k,
    {
        out.push(more[k]);
        assert(more@.take(k + 1) =~= more@.take(k as int).push(more@[k as int]));
        k = k + 1;
    }
    assert(more@.take(k as int) =~= more@);
    assert(carried_views(out@) =~= carried_views(before) + carried_views(more@));
}

/// In a pose the pin of terminal `a` is drawn above that of terminal `b`.
pub open spec fn drawn_above(e: ResolvedElement, o: Orientation, a: int, b: int) -> bool {
    &&& e.pin_of(o, a) matches Some(k)
    &&& e.pin_of(o, b) matches Some(l)
    &&& e.symbol.posed(o).pins@[k].y > e.symbol.posed(o).pins@[l].y
}

/// A column member with a facing is drawn with its higher terminal above its
/// lower one wherever one of its poses has it so, and of those poses it takes
/// an upright one where there is one.
pub proof fn higher_terminals_are_drawn_above(
    e: ResolvedElement,
    hi: usize,
    lo: usize,
    prefs: Seq<Option<VertPref>>,
    poses: Seq<Orientation>,
    k: int,
)
    requires
        0 <= k < poses.len(),
        drawn_above(e, poses[k], hi as int, lo as int),
    ensures
        best_pose(e, Some((hi, lo)), prefs, poses, poses.len() as int) matches Some(o) && {
            &&& drawn_above(e, o, hi as int, lo as int)
            &&& poses[k].rotation == crate::symbol::Rotation::R0 || poses[k].rotation
                == crate::symbol::Rotation::R180 ==> o.rotation == crate::symbol::Rotation::R0
                || o.rotation == crate::symbol::Rotation::R180
            &&& poses[k].rotation == crate::symbol::Rotation::R0 && !poses[k].mirror_y ==> o
                == poses[k]
        },
{
    best_pose_is_best(e, Some((hi, lo)), prefs, poses, poses.len() as int);
    crate::symbol::orientation_index_inverse();
    let o = best_pose(e, Some((hi, lo)), prefs, poses, poses.len() as int)->0;
    assert(pose_key(e, Some((hi, lo)), prefs, o) <= pose_key(e, Some((hi, lo)), prefs, poses[k]));
}

/// A two-terminal member without a facing and with one end on a rail is drawn
/// with that end on the rail's side wherever one of its poses has it so.
pub proof fn rail_ends_are_drawn_on_their_side(
    e: ResolvedElement,
    prefs: Seq<Option<VertPref>>,
    poses: Seq<Orientation>,
    t: int,
    side: VertPref,
    k: int,
)
    requires
        e.nodes@.len() == 2,
        t == 0 || t == 1,
        prefs[e.nodes@[t] as int] == Some(side),
        prefs[e.nodes@[1 - t] as int] is None,
        0 <= k < poses.len(),
        side == VertPref::Up ==> drawn_above(e, poses[k], t, 1 - t),
        side == VertPref::Down ==> drawn_above(e, poses[k], 1 - t, t),
    ensures
        best_pose(e, None, prefs, poses, poses.len() as int) matches Some(o) && {
            &&& side == VertPref::Up ==> drawn_above(e, o, t, 1 - t)
            &&& side == VertPref::Down ==> !drawn_above(e, o, t, 1 - t) && e.pin_of(o, t) is Some
        },
{
    best_pose_is_best(e, None, prefs, poses, poses.len() as int);
    crate::symbol::orientation_index_inverse();
    let o = best_pose(e, None, prefs, poses, poses.len() as int)->0;
    assert(side == VertPref::Up || side == VertPref::Down);
    assert(!unconventional(e, None, prefs, poses[k]));
    assert(pose_key(e, None, prefs, o) <= pose_key(e, None, prefs, poses[k]));
}

/// The offset of a shared pin is exact: so many steps of 1.27 mm. A pin off
/// the grid has none.
pub proof fn shared_pins_are_on_the_grid(e: ResolvedElement, o: Orientation, net: int, c: int)
    ensures
        pin_offset(e, o, net) matches Some(d) ==> (shared_cells(e, o, net) == Some(c) <==> d.0 == c
            * 1270),
        pin_offset(e, o, net) is None ==> shared_cells(e, o, net) is None,
{
    if pin_offset(e, o, net) is Some {
        let x = (pin_offset(e, o, net)->0).0;
        assert((c * 1270) % 1270 == 0);
        assert((c * 1270) / 1270 == c);
    }
}

/// In a row of boxes at a common stride, neighbours keep their clearance, and
/// the stride is at least a cell.
pub proof fn rows_keep_neighbours_clear(exts: Seq<Bounds>, n: int, k: int)
    requires
        0 < k < n,
    ensures
        row_of(exts, n) >= CELL_W,
        exts[k - 1].max_x + MIN_CLEARANCE <= row_of(exts, n) * 1270 + exts[k].min_x,
    decreases n,
{
    if k < n - 1 {
        rows_keep_neighbours_clear(exts, n - 1, k);
    } else {
        row_is_a_cell(exts, n);
    }
}

proof fn row_is_a_cell(exts: Seq<Bounds>, n: int)
    ensures
        row_of(exts, n) >= CELL_W,
    decreases n,
{
    if n > 1 {
        row_is_a_cell(exts, n - 1);
    }
}

/// What a column carries on a node are stubs on that node and side that are no
/// members themselves. They face their rail, and are level with the member
/// below the node for a rail below and with the one above for a rail above.
pub proof fn carried_stubs_hang_on_the_node(
    checked: &CheckedNetlist,
    pinned: Seq<bool>,
    allowed: Seq<Vec<Orientation>>,
    columned: Seq<bool>,
    c: ColumnView,
    poses: Seq<Orientation>,
    k: int,
    side: VertPref,
    j: int,
)
    requires
        0 <= j < carried_group(checked, pinned, allowed, columned, c, poses, k, side).len(),
    ensures
        ({
            let s = carried_group(checked, pinned, allowed, columned, c, poses, k, side)[j];
            let net = c.1[k] as int;
            &&& exists|x: int|
                0 <= x < all_stubs(checked).len() && (#[trigger] all_stubs(checked)[x]).element
                    == s.element && all_stubs(checked)[x].signal_net == net && all_stubs(
                    checked,
                )[x].side == side
            &&& !columned[s.element] && !pinned[s.element]
            &&& s.member == (match side {
                VertPref::Up => k,
                VertPref::Down => k + 1,
            })
            &&& rail_facing(checked.elements@[s.element], net, side) == Some(s.pose)
            &&& permits(allowed, s.element, s.pose)
            &&& pin_offset(checked.elements@[s.element], s.pose, net) == Some(s.pin)
            &&& pin_offset(checked.elements@[c.0[s.member] as int], poses[s.member], net) matches Some(
                a,
            )
            &&& s.anchor_dy == a.1
            &&& s.slot == j
        }),
{
    let net = c.1[k] as int;
    let n = all_stubs(checked).len() as int;
    let ids = free_group(checked, columned, net, side, n);
    free_group_holds(checked, columned, net, side, n, j);
    assert(posable(checked, allowed, net, side, ids[j] as int));
}

proof fn free_group_holds(
    checked: &CheckedNetlist,
    columned: Seq<bool>,
    net: int,
    side: VertPref,
    n: int,
    j: int,
)
    requires
        n <= all_stubs(checked).len(),
        0 <= j < free_group(checked, columned, net, side, n).len(),
    ensures
        !columned[free_group(checked, columned, net, side, n)[j] as int],
        exists|x: int|
            0 <= x < n && (#[trigger] all_stubs(checked)[x]).element == free_group(
                checked,
                columned,
                net,
                side,
                n,
            )[j] && all_stubs(checked)[x].signal_net == net && all_stubs(checked)[x].side == side,
    decreases n,
{
    if n > 0 {
        let rest = free_group(checked, columned, net, side, n - 1);
        if j < rest.len() {
            free_group_holds(checked, columned, net, side, n - 1, j);
        } else {
            assert(all_stubs(checked)[n - 1].element == free_group(checked, columned, net, side, n)[j]);
        }
    }
}

} // verus!
