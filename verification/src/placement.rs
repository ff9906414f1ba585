//! Placements: where each element sits on the sheet and how it is turned.
//!
//! Positions are whole steps of the schematic grid, so every placement is
//! snapped to it. Distances that involve symbol geometry are micrometres.
//! Sheet Y grows downward.

use vstd::prelude::*;

#[allow(unused_imports)]
use crate::extent::value_fits;
#[allow(unused_imports)]
use crate::names::{ascii_lower, begins_negative};
use crate::names::{rail_is_negative, str_eq};
use crate::net_class::matches_negative_rail_name;
#[allow(unused_imports)]
use crate::net_class::is_negative_rail_name;
use crate::netlist::{CheckedNetlist, ResolvedElement};
use crate::symbol::{Orientation, Symbol};
#[allow(unused_imports)]
use crate::symbol::{Pin, MAX_PINS};

verus! {

/// One step of the schematic grid, in micrometres (50 mil).
pub const GRID_STEP: i64 = 1270;

/// Most elements a sheet may hold. With as many of the widest symbols in a row,
/// and room for every pass to move them, grid coordinates fill their 32 bits.
pub const MAX_ELEMENTS: usize = 65536;

/// Farthest that an origin may lie from the sheet's origin along either axis,
/// in grid steps, when a pass starts. What the passes add to it still fits in
/// 32 bits.
pub const MAX_COORD: i32 = 0x4000_0000;

/// A point on the schematic grid.
#[derive(Debug, Clone, Copy, PartialEq, Eq, Hash, Structural)]
pub struct GridPoint {
    pub x: i32,
    pub y: i32,
}

impl GridPoint {
    /// The point with the given coordinates.
    #[must_use]
    pub fn new(x: i32, y: i32) -> (r: GridPoint)
        ensures
            r.x == x,
            r.y == y,
    {
        GridPoint { x, y }
    }

    /// The point in micrometres.
    pub open spec fn um(self) -> (int, int) {
        (self.x * GRID_STEP, self.y * GRID_STEP)
    }

    /// The point in micrometres.
    #[must_use]
    pub fn to_um(self) -> (r: (i64, i64))
        ensures
            r.0 == self.um().0,
            r.1 == self.um().1,
    {
        (self.x as i64 * GRID_STEP, self.y as i64 * GRID_STEP)
    }

    /// Both coordinates are within `limit` of the sheet's origin.
    pub open spec fn within(self, limit: int) -> bool {
        -limit <= self.x <= limit && -limit <= self.y <= limit
    }
}

/// An element with its position and pose.
#[derive(Debug)]
pub struct PlacedElement {
    pub refdes: String,
    pub lib_id: String,
    pub origin: GridPoint,
    pub orientation: Orientation,
    /// Net indices in terminal order.
    pub nodes: Vec<usize>,
    /// The pin number that each terminal connects to.
    pub pin_mapping: Vec<String>,
    /// The value as it is printed beside the symbol.
    pub value: Option<String>,
    /// The element is a supply rail, which is placed but not drawn.
    pub is_power_source: bool,
    /// The rail string of a supply rail.
    pub power_rail: Option<String>,
}

/// A placed pin in sheet micrometres.
#[derive(Debug)]
pub struct WorldPin {
    pub number: String,
    pub x: i64,
    pub y: i64,
}

/// The sheet position of a pin of an element that sits at `origin`.
pub open spec fn pin_at(origin: GridPoint, pin: Pin) -> (int, int) {
    (origin.um().0 + pin.x, origin.um().1 - pin.y)
}

impl PlacedElement {
    /// Every pin of the element in sheet micrometres, in the symbol's pin
    /// order. Symbol Y grows up and sheet Y grows down.
    #[must_use]
    pub fn world_pins(&self, symbol: &Symbol) -> (r: Vec<WorldPin>)
        requires
            symbol.wf(),
        ensures
            r@.len() == symbol.posed(self.orientation).pins@.len(),
            forall|k: int|
                0 <= k < r@.len() ==> {
                    let pin = symbol.posed(self.orientation).pins@[k];
                    &&& (#[trigger] r@[k]).number@ == pin.number@
                    &&& (r@[k].x as int, r@[k].y as int) == pin_at(self.origin, pin)
                },
    {
        let (ox, oy) = self.origin.to_um();
        let pins = symbol.pins_in(self.orientation);
        let mut out: Vec<WorldPin> = Vec::new();
        let mut k: usize = 0;
        while k < pins.len()
            invariant
                k <= pins@.len(),
                out@.len() == k,
                pins@ == symbol.posed(self.orientation).pins@,
                ox == self.origin.um().0,
                oy == self.origin.um().1,
                forall|j: int|
                    0 <= j < k ==> {
                        let pin = symbol.posed(self.orientation).pins@[j];
                        &&& (#[trigger] out@[j]).number@ == pin.number@
                        &&& (out@[j].x as int, out@[j].y as int) == pin_at(self.origin, pin)
                    },
            decreases pins@.len() - k,
        {
            let number: String = pins[k].number.clone();
            out.push(WorldPin { number, x: ox + pins[k].x as i64, y: oy - pins[k].y as i64 });
            k = k + 1;
        }
        out
    }
}

/// The output of the placer: one placed element per netlist element, in the
/// same order.
#[derive(Debug)]
pub struct Placement {
    pub elements: Vec<PlacedElement>,
}

/// Where an element sits and how it is turned.
pub struct Spot {
    pub origin: GridPoint,
    pub orientation: Orientation,
}

/// The spot of a placed element.
pub open spec fn spot_of(e: PlacedElement) -> Spot {
    Spot { origin: e.origin, orientation: e.orientation }
}

impl Placement {
    /// The spot of every element.
    pub open spec fn spots(&self) -> Seq<Spot> {
        Seq::new(self.elements@.len(), |i: int| spot_of(self.elements@[i]))
    }

    /// Every origin is within `limit` of the sheet's origin.
    pub open spec fn within(&self, limit: int) -> bool {
        spots_within(self.spots(), limit)
    }
}

/// Every origin is within `limit` of the sheet's origin.
pub open spec fn spots_within(spots: Seq<Spot>, limit: int) -> bool {
    forall|i: int| 0 <= i < spots.len() ==> (#[trigger] spots[i]).origin.within(limit)
}

/// The two placed elements differ at most in their spots.
pub open spec fn same_part(a: PlacedElement, b: PlacedElement) -> bool {
    &&& a.refdes == b.refdes
    &&& a.lib_id == b.lib_id
    &&& a.nodes == b.nodes
    &&& a.pin_mapping == b.pin_mapping
    &&& a.value == b.value
    &&& a.is_power_source == b.is_power_source
    &&& a.power_rail == b.power_rail
}

/// The two placements hold the same elements in the same order, at possibly
/// different spots.
pub open spec fn same_parts(a: Placement, b: Placement) -> bool {
    &&& a.elements@.len() == b.elements@.len()
    &&& forall|i: int|
        0 <= i < a.elements@.len() ==> same_part(#[trigger] a.elements@[i], b.elements@[i])
}

/// Moving elements about twice is moving them about.
pub proof fn same_parts_trans(a: Placement, b: Placement, c: Placement)
    requires
        same_parts(a, b),
        same_parts(b, c),
    ensures
        same_parts(a, c),
{
    assert forall|i: int| 0 <= i < a.elements@.len() implies same_part(
        #[trigger] a.elements@[i],
        c.elements@[i],
    ) by {
        assert(same_part(a.elements@[i], b.elements@[i]));
        assert(same_part(b.elements@[i], c.elements@[i]));
    }
}

/// Puts an element at a spot.
pub fn put(placement: &mut Placement, i: usize, origin: GridPoint, orientation: Orientation)
    requires
        i < old(placement).elements@.len(),
    ensures
        same_parts(*old(placement), *final(placement)),
        final(placement).spots() == old(placement).spots().update(
            i as int,
            (Spot { origin, orientation }),
        ),
{
    placement.elements[i].origin = origin;
    placement.elements[i].orientation = orientation;
    assert(placement.spots() =~= old(placement).spots().update(
        i as int,
        Spot { origin, orientation },
    ));
}

/// Where every element sits, and which elements are pinned there.
pub struct Layout {
    pub spots: Seq<Spot>,
    pub pinned: Seq<bool>,
}

impl Layout {
    /// The layout with an element put at a spot and pinned.
    pub open spec fn pin_at(self, i: int, spot: Spot) -> Layout {
        Layout { spots: self.spots.update(i, spot), pinned: self.pinned.update(i, true) }
    }

    /// The layout with an element put at a spot.
    pub open spec fn put_at(self, i: int, spot: Spot) -> Layout {
        Layout { spots: self.spots.update(i, spot), pinned: self.pinned }
    }

    /// Spots and pins are for the same `n` elements.
    pub open spec fn sized(self, n: int) -> bool {
        self.spots.len() == n && self.pinned.len() == n
    }
}

/// The layout of a placement and its pins.
pub open spec fn layout_of(placement: Placement, pinned: Vec<bool>) -> Layout {
    Layout { spots: placement.spots(), pinned: pinned@ }
}

/// From `a` to `b` no pinned element has moved or lost its pin.
pub open spec fn pins_hold(a: Layout, b: Layout) -> bool {
    &&& a.spots.len() == b.spots.len()
    &&& a.pinned.len() == b.pinned.len()
    &&& forall|i: int|
        #![trigger b.spots[i]]
        #![trigger b.pinned[i]]
        0 <= i < a.spots.len() && i < a.pinned.len() && a.pinned[i] ==> b.pinned[i] && b.spots[i]
            == a.spots[i]
}

/// Puts an element at a spot and pins it.
pub fn put_pinned(
    placement: &mut Placement,
    pinned: &mut Vec<bool>,
    i: usize,
    origin: GridPoint,
    orientation: Orientation,
)
    requires
        i < old(placement).elements@.len(),
        i < old(pinned)@.len(),
    ensures
        same_parts(*old(placement), *final(placement)),
        layout_of(*final(placement), *final(pinned)) == layout_of(
            *old(placement),
            *old(pinned),
        ).pin_at(i as int, (Spot { origin, orientation })),
{
    put(placement, i, origin, orientation);
    pinned.set(i, true);
}

/// The placed element stands for the netlist element.
pub open spec fn stands_for(p: PlacedElement, e: ResolvedElement) -> bool {
    &&& p.refdes@ == e.refdes@
    &&& p.lib_id@ == e.lib_id@
    &&& p.nodes@ == e.nodes@
    &&& p.pin_mapping@.len() == e.pin_mapping@.len()
    &&& forall|t: int|
        0 <= t < p.pin_mapping@.len() ==> (#[trigger] p.pin_mapping@[t])@ == e.pin_mapping@[t]@
    &&& match (p.value, e.value) {
        (Some(a), Some(b)) => a@ == b@,
        (None, None) => true,
        _ => false,
    }
    &&& p.is_power_source == e.role.is_power()
    &&& match (p.power_rail, e.role) {
        (Some(a), crate::netlist::ElementRole::Power(b)) => a@ == b@,
        (None, crate::netlist::ElementRole::Normal) => true,
        _ => false,
    }
}

/// The placement places the elements of the netlist.
pub open spec fn places(placement: &Placement, checked: &CheckedNetlist) -> bool {
    &&& placement.elements@.len() == checked.elements@.len()
    &&& forall|i: int|
        0 <= i < placement.elements@.len() ==> stands_for(
            #[trigger] placement.elements@[i],
            checked.elements@[i],
        )
}

/// Moving elements about leaves the placement one of the same netlist.
pub proof fn moving_keeps_the_netlist(a: Placement, b: Placement, checked: &CheckedNetlist)
    requires
        same_parts(a, b),
        places(&a, checked),
    ensures
        places(&b, checked),
{
    assert forall|i: int| 0 <= i < b.elements@.len() implies stands_for(
        #[trigger] b.elements@[i],
        checked.elements@[i],
    ) by {
        assert(same_part(a.elements@[i], b.elements@[i]));
        assert(stands_for(a.elements@[i], checked.elements@[i]));
    }
}

impl CheckedNetlist {
    /// The netlist is well formed, every symbol has its drawings and the
    /// sheet can hold all elements and their texts.
    pub open spec fn drawable(&self) -> bool {
        &&& self.wf()
        &&& self.elements@.len() <= MAX_ELEMENTS
        &&& self.nets@.len() <= i32::MAX
        &&& forall|i: int|
            0 <= i < self.elements@.len() ==> (#[trigger] self.elements@[i]).symbol.wf()
                && self.elements@[i].nodes@.len() <= MAX_PINS && value_fits(
                self.elements@[i].value,
            )
    }
}

/// A saved position.
#[derive(Debug)]
pub struct HintPin {
    pub refdes: String,
    pub origin: GridPoint,
    pub orientation: Orientation,
}

/// Positions to start from, by reference designator. A hint is a seed, not a
/// constraint: it never moves an element that a directive has fixed.
#[derive(Debug)]
pub struct Hint {
    pub pins: Vec<HintPin>,
}

/// The saved spot for a designator: the first entry that carries it.
pub open spec fn hint_from(pins: Seq<HintPin>, refdes: Seq<char>, k: int) -> Option<Spot>
    decreases pins.len() - k,
{
    if k < 0 || k >= pins.len() {
        None
    } else if pins[k].refdes@ == refdes {
        Some(Spot { origin: pins[k].origin, orientation: pins[k].orientation })
    } else {
        hint_from(pins, refdes, k + 1)
    }
}

impl Default for Hint {
    /// A hint that saves nothing.
    fn default() -> (r: Hint)
        ensures
            r.pins@.len() == 0,
    {
        Hint { pins: Vec::new() }
    }
}

impl Hint {
    /// The saved spot for a designator.
    pub open spec fn spot(&self, refdes: Seq<char>) -> Option<Spot> {
        hint_from(self.pins@, refdes, 0)
    }

    /// The saved origin and pose for a designator.
    pub fn lookup(&self, refdes: &str) -> (r: Option<(GridPoint, Orientation)>)
        ensures
            match r {
                Some(s) => self.spot(refdes@) == Some(Spot { origin: s.0, orientation: s.1 }),
                None => self.spot(refdes@) is None,
            },
    {
        let mut k: usize = 0;
        while k < self.pins.len()
            invariant
                k <= self.pins@.len(),
                self.spot(refdes@) == hint_from(self.pins@, refdes@, k as int),
            decreases self.pins@.len() - k,
        {
            if str_eq(self.pins[k].refdes.as_str(), refdes) {
                return Some((self.pins[k].origin, self.pins[k].orientation));
            }
            k = k + 1;
        }
        None
    }
}

/// What a hint does to one element.
pub open spec fn hinted(e: PlacedElement, pinned: bool, hint: Hint) -> (Spot, bool) {
    if pinned {
        (spot_of(e), true)
    } else {
        match hint.spot(e.refdes@) {
            Some(s) => (s, true),
            None => (spot_of(e), false),
        }
    }
}

/// Puts every unpinned element that the hint knows at its saved spot and pins
/// it. Elements that are pinned already, and elements that the hint does not
/// know, stay as they are.
pub fn apply_hint(placement: &mut Placement, pinned: &mut Vec<bool>, hint: &Hint)
    requires
        old(pinned)@.len() == old(placement).elements@.len(),
    ensures
        same_parts(*old(placement), *final(placement)),
        final(pinned)@.len() == old(pinned)@.len(),
        forall|i: int|
            #![trigger final(placement).spots()[i]]
            #![trigger final(pinned)@[i]]
            0 <= i < final(pinned)@.len() ==> (final(placement).spots()[i], final(pinned)@[i])
                == hinted(old(placement).elements@[i], old(pinned)@[i], *hint),
{
    let mut i: usize = 0;
    while i < placement.elements.len()
        invariant
            i <= placement.elements@.len(),
            same_parts(*old(placement), *placement),
            pinned@.len() == old(pinned)@.len(),
            pinned@.len() == placement.elements@.len(),
            forall|j: int|
                #![trigger placement.spots()[j]]
                #![trigger pinned@[j]]
                0 <= j < i ==> (placement.spots()[j], pinned@[j]) == hinted(
                    old(placement).elements@[j],
                    old(pinned)@[j],
                    *hint,
                ),
            forall|j: int|
                #![trigger placement.spots()[j]]
                #![trigger pinned@[j]]
                i <= j < pinned@.len() ==> placement.spots()[j] == spot_of(
                    old(placement).elements@[j],
                ) && pinned@[j] == old(pinned)@[j],
        decreases placement.elements@.len() - i,
    {
        assert(same_part(old(placement).elements@[i as int], placement.elements@[i as int]));
        assert(placement.spots()[i as int] == spot_of(old(placement).elements@[i as int]));
        if !pinned[i] {
            match hint.lookup(placement.elements[i].refdes.as_str()) {
                Some((origin, orientation)) => {
                    put(placement, i, origin, orientation);
                    pinned.set(i, true);
                },
                None => {},
            }
        }
        i = i + 1;
    }
}

/// A hint never overrides a pin, and it pins exactly the elements it moves.
pub proof fn hints_respect_pins(e: PlacedElement, pinned: bool, hint: Hint)
    ensures
        pinned ==> hinted(e, pinned, hint).0 == spot_of(e),
        !pinned && hint.spot(e.refdes@) is None ==> hinted(e, pinned, hint) == (spot_of(e), false),
        hint.spot(e.refdes@) is Some ==> hinted(e, pinned, hint).1,
{
}

/// The net is the positive terminal of a placed supply with a negative rail
/// string. The other terminals do not count: the second one of a supply between
/// `vee` and `0` is on the true ground.
pub open spec fn feeds_negative(placement: &Placement, i: int, net: int) -> bool {
    &&& placement.elements@[i].power_rail matches Some(rail) && begins_negative(rail@)
    &&& placement.elements@[i].nodes@.len() > 0
    &&& placement.elements@[i].nodes@[0] == net
}

/// Some terminal of the placed element is on the net.
pub open spec fn placed_on(e: PlacedElement, net: int) -> bool {
    exists|k: int| 0 <= k < e.nodes@.len() && #[trigger] e.nodes@[k] == net
}

/// The net is a negative supply: a placed supply with a negative rail string
/// has its positive terminal on it, or an element touches it and it carries a
/// canonical negative-supply name. The reference node `0` never is one.
pub open spec fn is_negative_net(placement: &Placement, nets: Seq<String>, net: int) -> bool {
    &&& nets[net]@ != "0"@
    &&& exists|i: int|
        0 <= i < placement.elements@.len() && (feeds_negative(placement, i, net) || (
        is_negative_rail_name(ascii_lower(nets[net]@)) && placed_on(
            #[trigger] placement.elements@[i],
            net,
        )))
}

/// The negative supply nets of a placement, in name order.
#[must_use]
pub fn negative_rail_nets(placement: &Placement, nets: &Vec<String>) -> (r: Vec<usize>)
    ensures
        forall|a: int, b: int| 0 <= a < b < r@.len() ==> r@[a] < r@[b],
        forall|net: usize|
            #[trigger] r@.contains(net) <==> net < nets@.len() && is_negative_net(
                placement,
                nets@,
                net as int,
            ),
{
    let mut out: Vec<usize> = Vec::new();
    let mut net: usize = 0;
    while net < nets.len()
        invariant
            net <= nets@.len(),
            forall|a: int, b: int| 0 <= a < b < out@.len() ==> out@[a] < out@[b],
            forall|a: int| 0 <= a < out@.len() ==> #[trigger] out@[a] < net,
            forall|m: usize|
                #[trigger] out@.contains(m) <==> m < net && is_negative_net(
                    placement,
                    nets@,
                    m as int,
                ),
        decreases nets@.len() - net,
    {
        let hit = negative_net(placement, nets, net);
        let ghost before = out@;
        if hit {
            out.push(net);
            proof {
                assert forall|m: usize| #[trigger] out@.contains(m) <==> before.contains(m) || m
                    == net by {
                    if before.contains(m) {
                        let k = choose|k: int| 0 <= k < before.len() && before[k] == m;
                        assert(out@[k] == m);
                    }
                    if m == net {
                        assert(out@[before.len() as int] == m);
                    }
                    if out@.contains(m) {
                        let k = choose|k: int| 0 <= k < out@.len() && out@[k] == m;
                        if k < before.len() {
                            assert(before[k] == m);
                        }
                    }
                }
            }
        }
        net = net + 1;
    }
    out
}

fn negative_net(placement: &Placement, nets: &Vec<String>, net: usize) -> (r: bool)
    requires
        net < nets@.len(),
    ensures
        r == is_negative_net(placement, nets@, net as int),
{
    if str_eq(nets[net].as_str(), "0") {
        return false;
    }
    let lower = nets[net].as_str().to_ascii_lowercase();
    let named = matches_negative_rail_name(lower.as_str());
    let mut i: usize = 0;
    while i < placement.elements.len()
        invariant
            net < nets@.len(),
            nets@[net as int]@ != "0"@,
            named == is_negative_rail_name(ascii_lower(nets@[net as int]@)),
            i <= placement.elements@.len(),
            forall|j: int|
                0 <= j < i ==> !feeds_negative(placement, j, net as int) && !(named && placed_on(
                    #[trigger] placement.elements@[j],
                    net as int,
                )),
        decreases placement.elements@.len() - i,
    {
        let e = &placement.elements[i];
        let fed = match &e.power_rail {
            Some(rail) => rail_is_negative(rail.as_str()) && e.nodes.len() > 0 && e.nodes[0] == net,
            None => false,
        };
        if fed {
            assert(feeds_negative(placement, i as int, net as int));
            return true;
        }
        assert(!feeds_negative(placement, i as int, net as int));
        if named {
            match crate::netlist::first_terminal(&e.nodes, net) {
                Some(k) => {
                    assert(placement.elements@[i as int].nodes@[k as int] == net);
                    assert(placed_on(placement.elements@[i as int], net as int));
                    return true;
                },
                None => {
                    proof {
                        crate::netlist::terminal_from_is_first(e.nodes@, net as int, 0);
                    }
                },
            }
        }
        i = i + 1;
    }
    false
}

/// A pin is drawn where its symbol puts it, seen from the element's origin: a
/// grid step is 1.27 mm, symbol Y grows up and sheet Y grows down.
pub proof fn pins_are_drawn_at_their_offsets(origin: GridPoint, pin: Pin)
    ensures
        pin_at(origin, pin).0 == origin.x * 1270 + pin.x,
        pin_at(origin, pin).1 == origin.y * 1270 - pin.y,
{
}

/// An element that is not pinned goes to the first saved spot with its
/// designator, pose and all, and is pinned there. One without a saved spot
/// stays, unpinned.
pub proof fn saved_spots_are_taken(e: PlacedElement, hint: Hint, k: int)
    requires
        0 <= k <= hint.pins@.len(),
        forall|j: int| 0 <= j < k ==> (#[trigger] hint.pins@[j]).refdes@ != e.refdes@,
        k < hint.pins@.len() ==> hint.pins@[k].refdes@ == e.refdes@,
    ensures
        ({
            let (spot, pinned) = hinted(e, false, hint);
            if k < hint.pins@.len() {
                spot.origin == hint.pins@[k].origin && spot.orientation == hint.pins@[k].orientation
                    && pinned
            } else {
                spot.origin == e.origin && spot.orientation == e.orientation && !pinned
            }
        }),
{
    first_hint(hint.pins@, e.refdes@, 0, k);
}

/// The first saved spot with the designator counts.
pub proof fn first_hint(pins: Seq<HintPin>, refdes: Seq<char>, j: int, k: int)
    requires
        0 <= j <= k <= pins.len(),
        forall|i: int| j <= i < k ==> (#[trigger] pins[i]).refdes@ != refdes,
        k < pins.len() ==> pins[k].refdes@ == refdes,
    ensures
        hint_from(pins, refdes, j) == (if k < pins.len() {
            Some(Spot { origin: pins[k].origin, orientation: pins[k].orientation })
        } else {
            None
        }),
    decreases k - j,
{
    if j < k {
        first_hint(pins, refdes, j + 1, k);
    }
}

/// The first terminal of a placed supply whose rail string begins with a minus
/// sign is on a negative net, whatever its name but `0`; so is every terminal
/// on a net with a negative supply's name. No other net is one.
pub proof fn negative_nets_are_fed_or_named(
    placement: &Placement,
    nets: Seq<String>,
    i: int,
    t: int,
)
    requires
        0 <= i < placement.elements@.len(),
        0 <= t < placement.elements@[i].nodes@.len(),
    ensures
        ({
            let net = placement.elements@[i].nodes@[t] as int;
            let rail = placement.elements@[i].power_rail;
            let named = is_negative_rail_name(ascii_lower(nets[net]@));
            &&& nets[net]@ == "0"@ ==> !is_negative_net(placement, nets, net)
            &&& nets[net]@ != "0"@ && named ==> is_negative_net(placement, nets, net)
            &&& nets[net]@ != "0"@ && t == 0 && (rail matches Some(r) && begins_negative(r@))
                ==> is_negative_net(placement, nets, net)
            &&& !named && (forall|j: int|
                0 <= j < placement.elements@.len() && (#[trigger] placement.elements@[j]).nodes@.len()
                    > 0 && placement.elements@[j].nodes@[0] == net
                    ==> placement.elements@[j].power_rail is None) ==> !is_negative_net(
                placement,
                nets,
                net,
            )
        }),
{
    let net = placement.elements@[i].nodes@[t] as int;
    assert(placed_on(placement.elements@[i], net));
}

} // verus!
