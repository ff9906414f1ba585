//! The poses that an element may take.
//!
//! Two hard filters apply. A pin on a positive supply must face up on the
//! sheet and a pin on ground or a negative supply must face down. A symbol
//! with both input and output pins must, when that filter is on, be posed
//! with its outputs right of its inputs.

use vstd::prelude::*;

#[allow(unused_imports)]
use crate::counting::{count, sum};
use crate::net_class::{vertical_prefs, VertPref};
#[allow(unused_imports)]
use crate::netlist::nets_in_range;
use crate::netlist::{CheckedNetlist, ResolvedElement};
use crate::placer::Placer;
#[allow(unused_imports)]
use crate::symbol::{
    in_reach, orientation_at, orientation_index, orientation_index_inverse, Pin, MAX_PINS,
};
use crate::symbol::{Orientation, PinElectrical};

verus! {

/// The vertical direction in which a posed pin faces on the sheet.
#[derive(Debug, Clone, Copy, PartialEq, Eq, Structural)]
pub enum ScreenFacing {
    Up,
    Down,
    Horizontal,
}

/// The vertical facing of a pin angle: 270 degrees is up on the sheet, 90 is
/// down, and anything else counts as horizontal.
pub open spec fn facing_of(angle: int) -> ScreenFacing {
    if angle % 360 == 270 {
        ScreenFacing::Up
    } else if angle % 360 == 90 {
        ScreenFacing::Down
    } else {
        ScreenFacing::Horizontal
    }
}

/// The vertical facing of a posed pin.
pub fn screen_facing(transformed_angle: u16) -> (r: ScreenFacing)
    ensures
        r == facing_of(transformed_angle as int),
{
    let a: u16 = transformed_angle % 360;
    if a == 270 {
        ScreenFacing::Up
    } else if a == 90 {
        ScreenFacing::Down
    } else {
        ScreenFacing::Horizontal
    }
}

/// The facing that a rail of the given side asks of its pins.
pub open spec fn wanted_facing(pref: VertPref) -> ScreenFacing {
    match pref {
        VertPref::Up => ScreenFacing::Up,
        VertPref::Down => ScreenFacing::Down,
    }
}

/// The terminal's pin is drawn vertically in the upright pose. Only such pins
/// are supply pins: an input that happens to be wired to a rail is not.
pub open spec fn native_vertical(e: ResolvedElement, t: int) -> bool {
    let upright = orientation_at(0);
    match e.pin_of(upright, t) {
        Some(k) => facing_of(e.symbol.posed(upright).pins@[k].angle as int)
            != ScreenFacing::Horizontal,
        None => false,
    }
}

/// In pose `o` terminal `t` does not face away from its rail.
pub open spec fn terminal_faces_rail(
    e: ResolvedElement,
    prefs: Seq<Option<VertPref>>,
    o: Orientation,
    t: int,
) -> bool {
    match prefs[e.nodes@[t] as int] {
        None => true,
        Some(pref) => native_vertical(e, t) ==> match e.pin_of(o, t) {
            Some(k) => facing_of(e.symbol.posed(o).pins@[k].angle as int) == wanted_facing(pref),
            None => true,
        },
    }
}

/// In pose `o` every supply pin faces its rail.
pub open spec fn faces_rails(
    e: ResolvedElement,
    prefs: Seq<Option<VertPref>>,
    o: Orientation,
) -> bool {
    forall|t: int| 0 <= t < e.nodes@.len() ==> #[trigger] terminal_faces_rail(e, prefs, o, t)
}

/// Whether every supply pin faces its rail in the pose.
pub fn satisfies_v14(e: &ResolvedElement, prefs: &Vec<Option<VertPref>>, o: Orientation) -> (r:
    bool)
    requires
        e.symbol.wf(),
        nets_in_range(e.nodes@, prefs@.len()),
    ensures
        r == faces_rails(*e, prefs@, o),
{
    let mut t: usize = 0;
    while t < e.nodes.len()
        invariant
            t <= e.nodes@.len(),
            e.symbol.wf(),
            nets_in_range(e.nodes@, prefs@.len()),
            forall|s: int| 0 <= s < t ==> #[trigger] terminal_faces_rail(*e, prefs@, o, s),
        decreases e.nodes@.len() - t,
    {
        let net: usize = e.nodes[t];
        match prefs[net] {
            Some(pref) => {
                let upright = Orientation::identity();
                let native = match e.terminal_pin(upright, t) {
                    Some(k) => screen_facing(e.symbol.pins_in(upright)[k].angle)
                        != ScreenFacing::Horizontal,
                    None => false,
                };
                if native {
                    match e.terminal_pin(o, t) {
                        Some(k) => {
                            let facing = screen_facing(e.symbol.pins_in(o)[k].angle);
                            let want = match pref {
                                VertPref::Up => ScreenFacing::Up,
                                VertPref::Down => ScreenFacing::Down,
                            };
                            if facing != want {
                                assert(!terminal_faces_rail(*e, prefs@, o, t as int));
                                return false;
                            }
                        },
                        None => {},
                    }
                }
            },
            None => {},
        }
        t = t + 1;
    }
    true
}

/// The pins of one electrical type.
pub open spec fn of_type(pins: Seq<Pin>, kind: PinElectrical) -> spec_fn(int) -> bool {
    |k: int| pins[k].electrical == kind
}

/// The X of a pin of the type, zero for any other pin.
pub open spec fn typed_x(pins: Seq<Pin>, kind: PinElectrical) -> spec_fn(int) -> int {
    |k: int|
        if pins[k].electrical == kind {
            pins[k].x as int
        } else {
            0
        }
}

/// The number of pins of a type and the sum of their X.
pub open spec fn group(pins: Seq<Pin>, kind: PinElectrical) -> (int, int) {
    (
        sum(typed_x(pins, kind), pins.len() as int),
        count(of_type(pins, kind), pins.len() as int) as int,
    )
}

/// The mean X of the input pins and of the output pins, each as a sum and a
/// count; none when the symbol lacks one of the groups.
#[derive(Debug, Clone, Copy, PartialEq, Eq, Structural)]
pub struct PinMeans {
    pub in_sum: i64,
    pub in_count: i64,
    pub out_sum: i64,
    pub out_count: i64,
}

/// The sum and the number of the pins of one type.
fn typed_group(pins: &Vec<Pin>, kind: PinElectrical) -> (r: (i64, i64))
    requires
        pins@.len() <= MAX_PINS,
        forall|k: int| 0 <= k < pins@.len() ==> in_reach((#[trigger] pins@[k]).x as int),
    ensures
        (r.0 as int, r.1 as int) == group(pins@, kind),
        -1_000_000 * r.1 <= r.0 <= 1_000_000 * r.1,
        0 <= r.1 <= MAX_PINS,
{
    let mut total: i64 = 0;
    let mut n: i64 = 0;
    let mut k: usize = 0;
    while k < pins.len()
        invariant
            k <= pins@.len(),
            pins@.len() <= MAX_PINS,
            forall|j: int| 0 <= j < pins@.len() ==> in_reach((#[trigger] pins@[j]).x as int),
            total == sum(typed_x(pins@, kind), k as int),
            n == count(of_type(pins@, kind), k as int),
            0 <= n <= k,
            -1_000_000 * n <= total <= 1_000_000 * n,
        decreases pins@.len() - k,
    {
        assert(in_reach(pins@[k as int].x as int));
        if pins[k].electrical == kind {
            total = total + pins[k].x as i64;
            n = n + 1;
        }
        k = k + 1;
    }
    (total, n)
}

/// The means of the input and output pins in a pose.
pub fn directional_pin_means(e: &ResolvedElement, o: Orientation) -> (r: Option<PinMeans>)
    requires
        e.symbol.wf(),
    ensures
        ({
            let pins = e.symbol.posed(o).pins@;
            let ins = group(pins, PinElectrical::Input);
            let outs = group(pins, PinElectrical::Output);
            match r {
                Some(m) => {
                    &&& ins.1 > 0 && outs.1 > 0
                    &&& (m.in_sum as int, m.in_count as int) == ins
                    &&& (m.out_sum as int, m.out_count as int) == outs
                    &&& m.in_count <= MAX_PINS && m.out_count <= MAX_PINS
                    &&& -1_000_000 * m.in_count <= m.in_sum <= 1_000_000 * m.in_count
                    &&& -1_000_000 * m.out_count <= m.out_sum <= 1_000_000 * m.out_count
                },
                None => ins.1 == 0 || outs.1 == 0,
            }
        }),
{
    let pose = e.symbol.pose(o);
    let (in_sum, in_count) = typed_group(&pose.pins, PinElectrical::Input);
    let (out_sum, out_count) = typed_group(&pose.pins, PinElectrical::Output);
    if in_count == 0 || out_count == 0 {
        return None;
    }
    Some(PinMeans { in_sum, in_count, out_sum, out_count })
}

/// In pose `o` the mean X of the output pins is greater than that of the
/// input pins. A symbol that lacks either group has no reading direction and
/// satisfies this in every pose.
pub open spec fn reads_rightward(e: ResolvedElement, o: Orientation) -> bool {
    let pins = e.symbol.posed(o).pins@;
    let ins = group(pins, PinElectrical::Input);
    let outs = group(pins, PinElectrical::Output);
    ins.1 == 0 || outs.1 == 0 || outs.0 * ins.1 > ins.0 * outs.1
}

/// Whether the outputs lie right of the inputs in the pose.
pub fn satisfies_signal_direction(e: &ResolvedElement, o: Orientation) -> (r: bool)
    requires
        e.symbol.wf(),
    ensures
        r == reads_rightward(*e, o),
{
    match directional_pin_means(e, o) {
        None => true,
        Some(m) => {
            let limit: i64 = 100_000_000_000;
            assert(-limit * 100_000 <= m.out_sum * m.in_count <= limit * 100_000)
                by (nonlinear_arith)
                requires
                    -limit <= m.out_sum <= limit,
                    0 <= m.in_count <= 100_000,
                    limit == 100_000_000_000,
            ;
            assert(-limit * 100_000 <= m.in_sum * m.out_count <= limit * 100_000)
                by (nonlinear_arith)
                requires
                    -limit <= m.in_sum <= limit,
                    0 <= m.out_count <= 100_000,
                    limit == 100_000_000_000,
            ;
            m.out_sum * m.in_count > m.in_sum * m.out_count
        },
    }
}

/// The poses among the first `n` that satisfy a predicate, in pose order.
pub open spec fn poses_where(p: spec_fn(Orientation) -> bool, n: int) -> Seq<Orientation>
    decreases n,
{
    if n <= 0 {
        seq![]
    } else if p(orientation_at(n - 1)) {
        poses_where(p, n - 1).push(orientation_at(n - 1))
    } else {
        poses_where(p, n - 1)
    }
}

/// What [`poses_where`] holds.
pub proof fn poses_where_holds(p: spec_fn(Orientation) -> bool, n: int, o: Orientation)
    requires
        0 <= n <= 8,
    ensures
        poses_where(p, n).contains(o) <==> p(o) && orientation_index(o) < n,
    decreases n,
{
    orientation_index_inverse();
    assert(0 <= orientation_index(o) && orientation_at(orientation_index(o)) == o);
    if n > 0 {
        poses_where_holds(p, n - 1, o);
        let last = orientation_at(n - 1);
        assert(orientation_index(last) == n - 1);
        let s = poses_where(p, n - 1);
        if p(last) {
            if s.contains(o) {
                let k = choose|k: int| 0 <= k < s.len() && s[k] == o;
                assert(s.push(last)[k] == o);
            }
            assert(s.push(last)[s.len() as int] == last);
            if s.push(last).contains(o) {
                let k = choose|k: int| 0 <= k < s.push(last).len() && s.push(last)[k] == o;
                if k < s.len() {
                    assert(s[k] == o);
                }
            }
        }
    }
}

/// [`poses_where`] follows the pose order.
pub proof fn poses_where_ordered(p: spec_fn(Orientation) -> bool, n: int, i: int, j: int)
    requires
        0 <= n <= 8,
        0 <= i < j < poses_where(p, n).len(),
    ensures
        orientation_index(poses_where(p, n)[i]) < orientation_index(poses_where(p, n)[j]),
    decreases n,
{
    orientation_index_inverse();
    if n > 0 {
        let s = poses_where(p, n - 1);
        if p(orientation_at(n - 1)) && j == s.len() {
            poses_where_holds(p, n - 1, s[i]);
            assert(s.contains(s[i]));
            assert(orientation_index(orientation_at(n - 1)) == n - 1);
        } else {
            poses_where_ordered(p, n - 1, i, j);
        }
    }
}

/// Every pose.
pub open spec fn any_pose() -> spec_fn(Orientation) -> bool {
    |o: Orientation| true
}

/// The poses in which every supply pin faces its rail.
pub open spec fn rail_pose(e: ResolvedElement, prefs: Seq<Option<VertPref>>) -> spec_fn(
    Orientation,
) -> bool {
    |o: Orientation| faces_rails(e, prefs, o)
}

/// Some terminal is on a rail.
pub open spec fn on_rail(e: ResolvedElement, prefs: Seq<Option<VertPref>>) -> bool {
    exists|t: int| 0 <= t < e.nodes@.len() && prefs[#[trigger] e.nodes@[t] as int] is Some
}

/// The rail filter does not apply to the element: it has at most two
/// terminals and is a supply, or no terminal of it is on a rail.
pub open spec fn exempt(e: ResolvedElement, prefs: Seq<Option<VertPref>>) -> bool {
    e.nodes@.len() <= 2 && (e.role.is_power() || !on_rail(e, prefs))
}

/// The poses that the rails allow: all for an exempt element, else those in
/// which every supply pin faces its rail, or all when there are none.
pub open spec fn rail_poses(e: ResolvedElement, prefs: Seq<Option<VertPref>>) -> Seq<Orientation> {
    let facing = poses_where(rail_pose(e, prefs), 8);
    if exempt(e, prefs) || facing.len() == 0 {
        poses_where(any_pose(), 8)
    } else {
        facing
    }
}

/// The poses of a list in which the outputs lie right of the inputs.
pub open spec fn directed(e: ResolvedElement, poses: Seq<Orientation>) -> Seq<Orientation>
    decreases poses.len(),
{
    if poses.len() == 0 {
        seq![]
    } else {
        let rest = directed(e, poses.drop_last());
        if reads_rightward(e, poses.last()) {
            rest.push(poses.last())
        } else {
            rest
        }
    }
}

/// The poses that an element may take: those that the rails allow, narrowed
/// to the rightward ones when the filter is on and that leaves any.
pub open spec fn allowed_of(
    e: ResolvedElement,
    prefs: Seq<Option<VertPref>>,
    direction_filter: bool,
) -> Seq<Orientation> {
    let rail = rail_poses(e, prefs);
    let narrow = directed(e, rail);
    if direction_filter && narrow.len() > 0 {
        narrow
    } else {
        rail
    }
}

/// The preferred sides of the nets.
pub open spec fn prefs_of(checked: &CheckedNetlist) -> Seq<Option<VertPref>> {
    Seq::new(checked.nets@.len(), |net: int| checked.vert_pref_of(net))
}

/// Every pose, in pose order.
fn all_poses() -> (r: Vec<Orientation>)
    ensures
        r@ == poses_where(any_pose(), 8),
{
    let mut out: Vec<Orientation> = Vec::new();
    let mut i: usize = 0;
    while i < 8
        invariant
            i <= 8,
            out@ == poses_where(any_pose(), i as int),
        decreases 8 - i,
    {
        out.push(Orientation::nth(i));
        i = i + 1;
    }
    out
}

/// The poses that the rails allow.
pub fn v14_allowed(e: &ResolvedElement, prefs: &Vec<Option<VertPref>>) -> (r: Vec<Orientation>)
    requires
        e.symbol.wf(),
        nets_in_range(e.nodes@, prefs@.len()),
    ensures
        r@ == rail_poses(*e, prefs@),
{
    let mut railed = false;
    let mut t: usize = 0;
    while t < e.nodes.len()
        invariant
            t <= e.nodes@.len(),
            nets_in_range(e.nodes@, prefs@.len()),
            railed == exists|s: int|
                0 <= s < t && prefs@[#[trigger] e.nodes@[s] as int] is Some,
        decreases e.nodes@.len() - t,
    {
        let net: usize = e.nodes[t];
        if prefs[net].is_some() {
            assert(prefs@[e.nodes@[t as int] as int] is Some);
            railed = true;
        }
        t = t + 1;
    }
    if e.nodes.len() <= 2 && (e.role.power() || !railed) {
        return all_poses();
    }
    let mut out: Vec<Orientation> = Vec::new();
    let mut i: usize = 0;
    while i < 8
        invariant
            i <= 8,
            e.symbol.wf(),
            nets_in_range(e.nodes@, prefs@.len()),
            out@ == poses_where(rail_pose(*e, prefs@), i as int),
        decreases 8 - i,
    {
        let o = Orientation::nth(i);
        if satisfies_v14(e, prefs, o) {
            out.push(o);
        }
        i = i + 1;
    }
    if out.len() == 0 {
        all_poses()
    } else {
        out
    }
}

/// A copy of a pose list.
pub fn copy_poses(poses: &Vec<Orientation>) -> (r: Vec<Orientation>)
    ensures
        r@ == poses@,
{
    let mut out: Vec<Orientation> = Vec::new();
    let mut i: usize = 0;
    while i < poses.len()
        invariant
            i <= poses@.len(),
            out@ == poses@.take(i as int),
        decreases poses@.len() - i,
    {
        out.push(poses[i]);
        assert(poses@.take(i + 1) =~= poses@.take(i as int).push(poses@[i as int]));
        i = i + 1;
    }
    assert(poses@.take(i as int) =~= poses@);
    out
}

/// Narrows a pose list to the rightward ones, unless that leaves none.
fn narrowed(e: &ResolvedElement, rail: &Vec<Orientation>, filter: bool) -> (r: Vec<Orientation>)
    requires
        e.symbol.wf(),
    ensures
        r@ == (if filter && directed(*e, rail@).len() > 0 {
            directed(*e, rail@)
        } else {
            rail@
        }),
{
    if filter {
        let mut out: Vec<Orientation> = Vec::new();
        let mut i: usize = 0;
        while i < rail.len()
            invariant
                i <= rail@.len(),
                e.symbol.wf(),
                out@ == directed(*e, rail@.take(i as int)),
            decreases rail@.len() - i,
        {
            let o = rail[i];
            assert(rail@.take(i + 1).drop_last() =~= rail@.take(i as int));
            if satisfies_signal_direction(e, o) {
                out.push(o);
            }
            i = i + 1;
        }
        assert(rail@.take(i as int) =~= rail@);
        if out.len() > 0 {
            return out;
        }
    }
    copy_poses(rail)
}

/// The poses that each element may take, and those that it may take while a
/// broken connection is being repaired: the latter are not narrowed by the
/// reading direction.
#[must_use]
pub fn allowed_and_repair_orientations(checked: &CheckedNetlist, placer: Placer) -> (r: (
    Vec<Vec<Orientation>>,
    Vec<Vec<Orientation>>,
))
    requires
        checked.drawable(),
    ensures
        r.0@.len() == checked.elements@.len(),
        r.1@.len() == checked.elements@.len(),
        forall|i: int|
            0 <= i < r.0@.len() ==> (#[trigger] r.0@[i])@ == allowed_of(
                checked.elements@[i],
                prefs_of(checked),
                placer.signal_direction_filter,
            ),
        forall|i: int|
            0 <= i < r.1@.len() ==> (#[trigger] r.1@[i])@ == rail_poses(
                checked.elements@[i],
                prefs_of(checked),
            ),
{
    let prefs = vertical_prefs(checked);
    assert(prefs@ =~= prefs_of(checked));
    let mut allowed: Vec<Vec<Orientation>> = Vec::new();
    let mut repair: Vec<Vec<Orientation>> = Vec::new();
    let mut i: usize = 0;
    while i < checked.elements.len()
        invariant
            i <= checked.elements@.len(),
            checked.drawable(),
            prefs@ == prefs_of(checked),
            allowed@.len() == i,
            repair@.len() == i,
            forall|j: int|
                0 <= j < i ==> (#[trigger] allowed@[j])@ == allowed_of(
                    checked.elements@[j],
                    prefs_of(checked),
                    placer.signal_direction_filter,
                ),
            forall|j: int|
                0 <= j < i ==> (#[trigger] repair@[j])@ == rail_poses(
                    checked.elements@[j],
                    prefs_of(checked),
                ),
        decreases checked.elements@.len() - i,
    {
        assert(checked.elements@[i as int].symbol.wf());
        assert(nets_in_range(checked.elements@[i as int].nodes@, checked.nets@.len()));
        let e = &checked.elements[i];
        let rail = v14_allowed(e, &prefs);
        allowed.push(narrowed(e, &rail, placer.signal_direction_filter));
        repair.push(rail);
        i = i + 1;
    }
    (allowed, repair)
}

/// The poses that each element may take.
#[must_use]
pub fn allowed_orientations(checked: &CheckedNetlist, placer: Placer) -> (r: Vec<Vec<Orientation>>)
    requires
        checked.drawable(),
    ensures
        r@.len() == checked.elements@.len(),
        forall|i: int|
            0 <= i < r@.len() ==> (#[trigger] r@[i])@ == allowed_of(
                checked.elements@[i],
                prefs_of(checked),
                placer.signal_direction_filter,
            ),
{
    allowed_and_repair_orientations(checked, placer).0
}

proof fn directed_holds(e: ResolvedElement, poses: Seq<Orientation>, o: Orientation)
    ensures
        directed(e, poses).contains(o) <==> poses.contains(o) && reads_rightward(e, o),
    decreases poses.len(),
{
    if poses.len() > 0 {
        let init = poses.drop_last();
        let last = poses.last();
        directed_holds(e, init, o);
        let s = directed(e, init);
        if init.contains(o) {
            let k = choose|k: int| 0 <= k < init.len() && init[k] == o;
            assert(poses[k] == o);
        }
        assert(poses[poses.len() - 1] == last);
        if poses.contains(o) {
            let k = choose|k: int| 0 <= k < poses.len() && poses[k] == o;
            if k < init.len() {
                assert(init[k] == o);
            }
        }
        if reads_rightward(e, last) {
            if s.contains(o) {
                let k = choose|k: int| 0 <= k < s.len() && s[k] == o;
                assert(s.push(last)[k] == o);
            }
            assert(s.push(last)[s.len() as int] == last);
            if s.push(last).contains(o) {
                let k = choose|k: int| 0 <= k < s.push(last).len() && s.push(last)[k] == o;
                if k < s.len() {
                    assert(s[k] == o);
                }
            }
        }
    }
}

/// No element is left without a pose, and what the reading direction leaves
/// is among what the rails allow.
pub proof fn some_pose_is_always_allowed(
    e: ResolvedElement,
    prefs: Seq<Option<VertPref>>,
    direction_filter: bool,
)
    ensures
        rail_poses(e, prefs).len() > 0,
        allowed_of(e, prefs, direction_filter).len() > 0,
        forall|o: Orientation|
            #[trigger] allowed_of(e, prefs, direction_filter).contains(o) ==> rail_poses(
                e,
                prefs,
            ).contains(o),
        !direction_filter ==> allowed_of(e, prefs, direction_filter) == rail_poses(e, prefs),
{
    poses_where_holds(any_pose(), 8, orientation_at(0));
    assert(any_pose()(orientation_at(0)));
    assert(poses_where(any_pose(), 8).contains(orientation_at(0)));
    assert forall|o: Orientation| #[trigger]
        allowed_of(e, prefs, direction_filter).contains(o) implies rail_poses(
        e,
        prefs,
    ).contains(o) by {
        directed_holds(e, rail_poses(e, prefs), o);
    }
}

/// What the filters guarantee of an allowed pose: unless the element is
/// exempt or no pose at all faces its rails, an allowed pose faces them; and
/// with the direction filter on it reads rightward, unless no pose that the
/// rails allow does.
pub proof fn allowed_poses_pass_the_filters(
    e: ResolvedElement,
    prefs: Seq<Option<VertPref>>,
    direction_filter: bool,
    o: Orientation,
)
    requires
        allowed_of(e, prefs, direction_filter).contains(o),
    ensures
        !exempt(e, prefs) && (exists|q: Orientation| #[trigger] faces_rails(e, prefs, q))
            ==> faces_rails(e, prefs, o),
        direction_filter && (exists|q: Orientation|
            #[trigger] rail_poses(e, prefs).contains(q) && reads_rightward(e, q))
            ==> reads_rightward(e, o),
{
    let rail = rail_poses(e, prefs);
    directed_holds(e, rail, o);
    orientation_index_inverse();
    assert(orientation_index(o) < 8);
    if !exempt(e, prefs) && (exists|q: Orientation| #[trigger] faces_rails(e, prefs, q)) {
        let q = choose|q: Orientation| #[trigger] faces_rails(e, prefs, q);
        assert(orientation_index(q) < 8);
        poses_where_holds(rail_pose(e, prefs), 8, q);
        assert(rail_pose(e, prefs)(q));
        assert(poses_where(rail_pose(e, prefs), 8).contains(q));
        poses_where_holds(rail_pose(e, prefs), 8, o);
        assert(rail.contains(o));
        assert(rail_pose(e, prefs)(o));
    }
    if direction_filter && (exists|q: Orientation|
        #[trigger] rail.contains(q) && reads_rightward(e, q)) {
        let q = choose|q: Orientation| #[trigger] rail.contains(q) && reads_rightward(e, q);
        directed_holds(e, rail, q);
        assert(directed(e, rail).contains(q));
    }
}

/// In pose `o` every supply pin points at its rail: a pin on an upper rail that
/// is drawn vertically in the upright pose points up (270 degrees), and one on a
/// lower rail points down (90 degrees).
pub open spec fn pins_point_at_rails(
    e: ResolvedElement,
    prefs: Seq<Option<VertPref>>,
    o: Orientation,
) -> bool {
    let upright = Orientation { rotation: crate::symbol::Rotation::R0, mirror_y: false };
    forall|t: int|
        0 <= t < e.nodes@.len() ==> match (
            prefs[#[trigger] e.nodes@[t] as int],
            e.pin_of(upright, t),
            e.pin_of(o, t),
        ) {
            (Some(side), Some(k), Some(l)) => {
                let drawn = e.symbol.posed(upright).pins@[k].angle as int % 360;
                let turned = e.symbol.posed(o).pins@[l].angle as int % 360;
                drawn == 90 || drawn == 270 ==> turned == match side {
                    VertPref::Up => 270int,
                    VertPref::Down => 90int,
                }
            },
            _ => true,
        }
}

/// The poses that an element may take point its supply pins at their rails, if
/// any pose does. Only an element of one or two terminals that is a supply or
/// on no rail may take every pose.
pub proof fn allowed_poses_point_at_the_rails(
    e: ResolvedElement,
    prefs: Seq<Option<VertPref>>,
    direction_filter: bool,
    o: Orientation,
)
    ensures
        ({
            let on_rail = exists|t: int|
                0 <= t < e.nodes@.len() && prefs[#[trigger] e.nodes@[t] as int] is Some;
            let free = e.nodes@.len() <= 2 && (e.role is Power || !on_rail);
            let some = exists|q: Orientation| #[trigger] pins_point_at_rails(e, prefs, q);
            &&& !free && some && allowed_of(e, prefs, direction_filter).contains(o)
                ==> pins_point_at_rails(e, prefs, o)
            &&& !direction_filter && (free || !some || pins_point_at_rails(e, prefs, o))
                ==> allowed_of(e, prefs, direction_filter).contains(o)
        }),
{
    assert forall|q: Orientation| #[trigger] pins_point_at_rails(e, prefs, q) <==> faces_rails(
        e,
        prefs,
        q,
    ) by {
        pointing_is_facing(e, prefs, q);
    }
    assert forall|q: Orientation| #[trigger] faces_rails(e, prefs, q) <==> pins_point_at_rails(
        e,
        prefs,
        q,
    ) by {
        pointing_is_facing(e, prefs, q);
    }
    assert(on_rail(e, prefs) || !on_rail(e, prefs));
    if allowed_of(e, prefs, direction_filter).contains(o) {
        allowed_poses_pass_the_filters(e, prefs, direction_filter, o);
    }
    orientation_index_inverse();
    assert(orientation_index(o) < 8);
    let p = rail_pose(e, prefs);
    poses_where_holds(any_pose(), 8, o);
    poses_where_holds(p, 8, o);
    assert(p(o) == faces_rails(e, prefs, o));
    if poses_where(p, 8).len() > 0 {
        let q = poses_where(p, 8)[0];
        assert(poses_where(p, 8).contains(q));
        poses_where_holds(p, 8, q);
        assert(p(q) == faces_rails(e, prefs, q));
    }
}

proof fn pointing_is_facing(e: ResolvedElement, prefs: Seq<Option<VertPref>>, o: Orientation)
    ensures
        pins_point_at_rails(e, prefs, o) <==> faces_rails(e, prefs, o),
{
    let upright = orientation_at(0);
    if faces_rails(e, prefs, o) {
        assert forall|t: int| 0 <= t < e.nodes@.len() implies match (
            prefs[#[trigger] e.nodes@[t] as int],
            e.pin_of(upright, t),
            e.pin_of(o, t),
        ) {
            (Some(side), Some(k), Some(l)) => {
                let drawn = e.symbol.posed(upright).pins@[k].angle as int % 360;
                let turned = e.symbol.posed(o).pins@[l].angle as int % 360;
                drawn == 90 || drawn == 270 ==> turned == match side {
                    VertPref::Up => 270int,
                    VertPref::Down => 90int,
                }
            },
            _ => true,
        } by {
            assert(terminal_faces_rail(e, prefs, o, t));
        }
    }
    if pins_point_at_rails(e, prefs, o) {
        assert forall|t: int| 0 <= t < e.nodes@.len() implies #[trigger] terminal_faces_rail(
            e,
            prefs,
            o,
            t,
        ) by {
            let net = e.nodes@[t];
        }
    }
}

/// A pin at 270 degrees points up on the sheet, one at 90 degrees down, and
/// every other one neither.
pub proof fn pins_point_up_at_270(angle: int)
    ensures
        facing_of(angle) == ScreenFacing::Up <==> angle % 360 == 270,
        facing_of(angle) == ScreenFacing::Down <==> angle % 360 == 90,
{
}

/// A symbol reads rightward when its outputs lie right of its inputs: always
/// if every output pin is right of every input pin, and never if every output
/// pin is left of every input pin.
pub proof fn outputs_read_right_of_inputs(e: ResolvedElement, o: Orientation, x: int)
    requires
        exists|k: int|
            0 <= k < e.symbol.posed(o).pins@.len() && (#[trigger] e.symbol.posed(
                o,
            ).pins@[k]).electrical == PinElectrical::Input,
        exists|k: int|
            0 <= k < e.symbol.posed(o).pins@.len() && (#[trigger] e.symbol.posed(
                o,
            ).pins@[k]).electrical == PinElectrical::Output,
    ensures
        (forall|k: int|
            0 <= k < e.symbol.posed(o).pins@.len() ==> match (#[trigger] e.symbol.posed(
                o,
            ).pins@[k]).electrical {
                PinElectrical::Input => e.symbol.posed(o).pins@[k].x <= x,
                PinElectrical::Output => e.symbol.posed(o).pins@[k].x > x,
                _ => true,
            }) ==> reads_rightward(e, o),
        (forall|k: int|
            0 <= k < e.symbol.posed(o).pins@.len() ==> match (#[trigger] e.symbol.posed(
                o,
            ).pins@[k]).electrical {
                PinElectrical::Input => e.symbol.posed(o).pins@[k].x >= x,
                PinElectrical::Output => e.symbol.posed(o).pins@[k].x <= x,
                _ => true,
            }) ==> !reads_rightward(e, o),
{
    let pins = e.symbol.posed(o).pins@;
    let n = pins.len() as int;
    let i = choose|k: int|
        0 <= k < pins.len() && (#[trigger] pins[k]).electrical == PinElectrical::Input;
    let j = choose|k: int|
        0 <= k < pins.len() && (#[trigger] pins[k]).electrical == PinElectrical::Output;
    crate::counting::count_positive(of_type(pins, PinElectrical::Input), n, i);
    crate::counting::count_positive(of_type(pins, PinElectrical::Output), n, j);
    let (a, b) = (group(pins, PinElectrical::Input), group(pins, PinElectrical::Output));
    if forall|k: int|
        0 <= k < pins.len() ==> match (#[trigger] pins[k]).electrical {
            PinElectrical::Input => pins[k].x <= x,
            PinElectrical::Output => pins[k].x > x,
            _ => true,
        } {
        typed_sum_bounds(pins, PinElectrical::Input, n, x);
        typed_sum_bounds(pins, PinElectrical::Output, n, x + 1);
        assert(a.0 <= x * a.1 && b.0 >= (x + 1) * b.1);
        assert(b.0 * a.1 > a.0 * b.1) by (nonlinear_arith)
            requires
                a.0 <= x * a.1,
                b.0 >= (x + 1) * b.1,
                a.1 > 0,
                b.1 > 0,
        {
            assert(b.0 * a.1 >= (x + 1) * b.1 * a.1);
            assert(a.0 * b.1 <= x * a.1 * b.1);
        }
    }
    if forall|k: int|
        0 <= k < pins.len() ==> match (#[trigger] pins[k]).electrical {
            PinElectrical::Input => pins[k].x >= x,
            PinElectrical::Output => pins[k].x <= x,
            _ => true,
        } {
        typed_sum_bounds(pins, PinElectrical::Input, n, x);
        typed_sum_bounds(pins, PinElectrical::Output, n, x);
        assert(a.0 >= x * a.1 && b.0 <= x * b.1);
        assert(b.0 * a.1 <= a.0 * b.1) by (nonlinear_arith)
            requires
                a.0 >= x * a.1,
                b.0 <= x * b.1,
                a.1 > 0,
                b.1 > 0,
        {
            assert(b.0 * a.1 <= x * b.1 * a.1);
            assert(a.0 * b.1 >= x * a.1 * b.1);
        }
    }
}

proof fn typed_sum_bounds(pins: Seq<Pin>, kind: PinElectrical, n: int, x: int)
    requires
        0 <= n <= pins.len(),
    ensures
        (forall|k: int|
            0 <= k < n && (#[trigger] pins[k]).electrical == kind ==> pins[k].x <= x) ==> sum(
            typed_x(pins, kind),
            n,
        ) <= x * count(of_type(pins, kind), n),
        (forall|k: int|
            0 <= k < n && (#[trigger] pins[k]).electrical == kind ==> pins[k].x >= x) ==> sum(
            typed_x(pins, kind),
            n,
        ) >= x * count(of_type(pins, kind), n),
    decreases n,
{
    if n > 0 {
        typed_sum_bounds(pins, kind, n - 1, x);
        let c = count(of_type(pins, kind), n - 1) as int;
        assert(x * (c + 1) == x * c + x) by (nonlinear_arith);
        assert(typed_x(pins, kind)(n - 1) == if pins[n - 1].electrical == kind {
            pins[n - 1].x as int
        } else {
            0
        });
        if of_type(pins, kind)(n - 1) {
            assert(count(of_type(pins, kind), n) as int == c + 1);
        }
    } else {
        assert(x * 0 == 0) by (nonlinear_arith);
    }
}

/// With the direction filter on, a pose that the rails allow is kept exactly
/// when it reads rightward, or when none of those poses does.
pub proof fn the_filter_keeps_what_reads_rightward(
    e: ResolvedElement,
    prefs: Seq<Option<VertPref>>,
    o: Orientation,
)
    ensures
        ({
            let rail = allowed_of(e, prefs, false);
            let some = exists|q: Orientation| #[trigger] rail.contains(q) && reads_rightward(e, q);
            allowed_of(e, prefs, true).contains(o) <==> rail.contains(o) && (!some
                || reads_rightward(e, o))
        }),
{
    let rail = rail_poses(e, prefs);
    directed_holds(e, rail, o);
    if exists|q: Orientation| #[trigger] rail.contains(q) && reads_rightward(e, q) {
        let q = choose|q: Orientation| #[trigger] rail.contains(q) && reads_rightward(e, q);
        directed_holds(e, rail, q);
        assert(directed(e, rail).contains(q));
    } else if directed(e, rail).len() > 0 {
        let q = directed(e, rail)[0];
        assert(directed(e, rail).contains(q));
        directed_holds(e, rail, q);
    }
}

} // verus!
