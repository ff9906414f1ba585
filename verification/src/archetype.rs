//! Topology templates: circuits that are always drawn the same way.
//!
//! The common-emitter stage is recognised by what its parts are connected to,
//! and its parts are seeded on the seats of a fixed drawing.

use vstd::prelude::*;

#[allow(unused_imports)]
use crate::names::ascii_lower;
use crate::names::str_eq;
#[allow(unused_imports)]
use crate::netlist::nets_in_range;
use crate::netlist::{CheckedNetlist, ElementKind};
use crate::placement::{put_pinned, GridPoint, Placement};
#[allow(unused_imports)]
use crate::placement::{
    layout_of, same_part, same_parts, same_parts_trans, spot_of, PlacedElement, Spot,
};

verus! {

/// A seat for an element.
#[derive(Debug)]
pub struct ArchetypeSeed {
    pub refdes: String,
    pub at: GridPoint,
}

/// The element is the only bipolar transistor.
pub open spec fn is_sole_bjt(checked: &CheckedNetlist, q: int) -> bool {
    &&& 0 <= q < checked.elements@.len()
    &&& checked.elements@[q].kind == ElementKind::Bjt
    &&& forall|i: int|
        0 <= i < checked.elements@.len() && #[trigger] checked.elements@[i].kind
            == ElementKind::Bjt ==> i == q
}

/// A supply has the net, other than net `0`, among its terminals.
pub open spec fn is_fed(checked: &CheckedNetlist, net: int) -> bool {
    !checked.is_reference(net) && exists|i: int|
        0 <= i < checked.elements@.len() && checked.elements@[i].role.is_power()
            && #[trigger] checked.touches(i, net)
}

/// The name is one that positive supplies go by.
pub open spec fn is_supply_name(name: Seq<char>) -> bool {
    name == "vcc"@ || name == "vdd"@ || name == "v+"@ || name == "vplus"@
}

/// The net is a supply: a declared one, or one by name.
pub open spec fn is_supply(checked: &CheckedNetlist, net: int) -> bool {
    is_fed(checked, net) || is_supply_name(ascii_lower(checked.nets@[net]@))
}

/// What the far end of a part has to be.
#[derive(Debug, Clone, Copy, PartialEq, Eq, Structural)]
pub enum FarEnd {
    /// On a supply.
    Supply,
    /// On net `0`.
    Ground,
    /// On any other net.
    Signal,
}

/// The far end of a part is as asked.
pub open spec fn far_fits(checked: &CheckedNetlist, far: FarEnd, near: int, net: int) -> bool {
    match far {
        FarEnd::Supply => is_supply(checked, net),
        FarEnd::Ground => checked.is_reference(net),
        FarEnd::Signal => net != near && !is_supply(checked, net) && !checked.is_reference(net),
    }
}

/// The element is a two-terminal part of the kind with one end on the net and
/// the other as asked.
pub open spec fn part_fits(
    checked: &CheckedNetlist,
    i: int,
    near: int,
    far: FarEnd,
    kind: ElementKind,
) -> bool {
    let e = checked.elements@[i];
    &&& e.kind == kind
    &&& e.nodes@.len() == 2
    &&& {
        let (a, b) = (e.nodes@[0] as int, e.nodes@[1] as int);
        (a == near && far_fits(checked, far, near, b)) || (b == near && far_fits(
            checked,
            far,
            near,
            a,
        ))
    }
}

/// The first such element from `k` on.
pub open spec fn first_part(
    checked: &CheckedNetlist,
    near: int,
    far: FarEnd,
    kind: ElementKind,
    k: int,
) -> Option<int>
    decreases checked.elements@.len() - k,
{
    if k < 0 || k >= checked.elements@.len() {
        None
    } else if part_fits(checked, k, near, far, kind) {
        Some(k)
    } else {
        first_part(checked, near, far, kind, k + 1)
    }
}

/// The parts of a common-emitter stage.
pub struct Stage {
    pub q: int,
    pub rc: int,
    pub re: int,
    pub ce: Option<int>,
    pub r1: int,
    pub r2: Option<int>,
    pub cin: int,
    pub cout: Option<int>,
}

/// Some net but net `0` is on a supply.
pub open spec fn has_supply(checked: &CheckedNetlist) -> bool {
    exists|net: int| 0 <= net < checked.nets@.len() && #[trigger] is_fed(checked, net)
}

/// The stage around a transistor: collector load to a supply, emitter resistor
/// to ground, bias resistor from the supply to the base and input capacitor are
/// required; emitter bypass, lower bias resistor and output capacitor are not.
pub open spec fn stage_at(checked: &CheckedNetlist, q: int) -> Option<Stage> {
    let e = checked.elements@[q];
    if e.nodes@.len() < 3 {
        None
    } else {
        let (c, b, m) = (e.nodes@[0] as int, e.nodes@[1] as int, e.nodes@[2] as int);
        if checked.is_reference(c) || checked.is_reference(b) || checked.is_reference(m) || c == b
            || b == m || c == m || !has_supply(checked) {
            None
        } else {
            match (
                first_part(checked, c, FarEnd::Supply, ElementKind::Resistor, 0),
                first_part(checked, m, FarEnd::Ground, ElementKind::Resistor, 0),
                first_part(checked, b, FarEnd::Supply, ElementKind::Resistor, 0),
                first_part(checked, b, FarEnd::Signal, ElementKind::Capacitor, 0),
            ) {
                (Some(rc), Some(re), Some(r1), Some(cin)) => Some(
                    Stage {
                        q,
                        rc,
                        re,
                        ce: first_part(checked, m, FarEnd::Ground, ElementKind::Capacitor, 0),
                        r1,
                        r2: first_part(checked, b, FarEnd::Ground, ElementKind::Resistor, 0),
                        cin,
                        cout: first_part(checked, c, FarEnd::Signal, ElementKind::Capacitor, 0),
                    },
                ),
                _ => None,
            }
        }
    }
}

/// One step of the template: a cell and a gap.
pub const SEAT: i32 = 7;

/// The grid point of a seat.
pub open spec fn seat(x: int, y: int) -> GridPoint {
    GridPoint { x: (x * SEAT) as i32, y: (y * SEAT) as i32 }
}

/// The seat of an optional part.
pub open spec fn maybe(part: Option<int>, at: GridPoint) -> Seq<(int, GridPoint)> {
    match part {
        Some(i) => seq![(i, at)],
        None => seq![],
    }
}

/// The seats of a stage: the transistor in the middle, loads above, emitter
/// parts below, bias and input to the left and output to the right.
pub open spec fn seats_of(s: Stage) -> Seq<(int, GridPoint)> {
    seq![(s.q, seat(0, 0)), (s.rc, seat(1, -2)), (s.re, seat(-1, 2))] + maybe(s.ce, seat(0, 2))
        + seq![(s.r1, seat(-1, -1))] + maybe(s.r2, seat(-1, 1)) + seq![(s.cin, seat(-2, 0))]
        + maybe(s.cout, seat(2, 0))
}

/// The seeds give the seats to the elements, by name.
pub open spec fn seeds_seats(
    checked: &CheckedNetlist,
    seats: Seq<(int, GridPoint)>,
    seeds: Seq<ArchetypeSeed>,
) -> bool {
    &&& seeds.len() == seats.len()
    &&& forall|k: int|
        0 <= k < seeds.len() ==> (#[trigger] seeds[k]).refdes@
            == checked.elements@[seats[k].0].refdes@ && seeds[k].at == seats[k].1
}

/// The stage of the netlist, if it is one around a sole transistor.
pub open spec fn stage_of(checked: &CheckedNetlist) -> Option<Stage> {
    if exists|q: int| is_sole_bjt(checked, q) {
        stage_at(checked, choose|q: int| is_sole_bjt(checked, q))
    } else {
        None
    }
}

/// No two seats of the template are the same.
pub proof fn seats_are_distinct(s: Stage, j: int, k: int)
    requires
        0 <= j < k < seats_of(s).len(),
    ensures
        seats_of(s)[j].1 != seats_of(s)[k].1,
{
    let a = seq![(s.q, seat(0, 0)), (s.rc, seat(1, -2)), (s.re, seat(-1, 2))];
    let b = maybe(s.ce, seat(0, 2));
    let c = seq![(s.r1, seat(-1, -1))];
    let d = maybe(s.r2, seat(-1, 1));
    let e = seq![(s.cin, seat(-2, 0))];
    let f = maybe(s.cout, seat(2, 0));
    let ab = a + b;
    let abc = ab + c;
    let abcd = abc + d;
    let abcde = abcd + e;
    assert(seats_of(s) == abcde + f);
    assert forall|m: int| 0 <= m < seats_of(s).len() implies #[trigger] seats_of(s)[m].1 == (if m
        < 3 {
        a[m].1
    } else if m < ab.len() {
        seat(0, 2)
    } else if m < abc.len() {
        seat(-1, -1)
    } else if m < abcd.len() {
        seat(-1, 1)
    } else if m < abcde.len() {
        seat(-2, 0)
    } else {
        seat(2, 0)
    }) by {
        if m < abcde.len() {
            assert(seats_of(s)[m] == abcde[m]);
            if m < abcd.len() {
                assert(abcde[m] == abcd[m]);
                if m < abc.len() {
                    assert(abcd[m] == abc[m]);
                    if m < ab.len() {
                        assert(abc[m] == ab[m]);
                        if m < 3 {
                            assert(ab[m] == a[m]);
                        } else {
                            assert(ab[m] == b[m - 3]);
                        }
                    } else {
                        assert(abc[m] == c[m - ab.len()]);
                    }
                } else {
                    assert(abcd[m] == d[m - abc.len()]);
                }
            } else {
                assert(abcde[m] == e[m - abcd.len()]);
            }
        } else {
            assert(seats_of(s)[m] == f[m - abcde.len()]);
        }
    }
    assert(seats_of(s)[j].1 != seats_of(s)[k].1) by {
        assert(a[0].1 == seat(0, 0) && a[1].1 == seat(1, -2) && a[2].1 == seat(-1, 2));
    }
}

/// Whether a supply feeds the net.
fn fed(checked: &CheckedNetlist, net: usize) -> (r: bool)
    requires
        net < checked.nets@.len(),
    ensures
        r == is_fed(checked, net as int),
{
    if str_eq(checked.nets[net].as_str(), "0") {
        return false;
    }
    let mut i: usize = 0;
    while i < checked.elements.len()
        invariant
            i <= checked.elements@.len(),
            net < checked.nets@.len(),
            !checked.is_reference(net as int),
            forall|k: int|
                0 <= k < i ==> !(checked.elements@[k].role.is_power() && #[trigger] checked.touches(
                    k,
                    net as int,
                )),
        decreases checked.elements@.len() - i,
    {
        if checked.elements[i].role.power() && crate::net_class::element_touches(checked, i, net) {
            assert(checked.touches(i as int, net as int));
            return true;
        }
        i = i + 1;
    }
    false
}

fn supply_net(checked: &CheckedNetlist, net: usize) -> (r: bool)
    requires
        net < checked.nets@.len(),
    ensures
        r == is_supply(checked, net as int),
{
    if fed(checked, net) {
        return true;
    }
    let lower = checked.nets[net].as_str().to_ascii_lowercase();
    let name = lower.as_str();
    str_eq(name, "vcc") || str_eq(name, "vdd") || str_eq(name, "v+") || str_eq(name, "vplus")
}

fn far_end_fits(checked: &CheckedNetlist, far: FarEnd, near: usize, net: usize) -> (r: bool)
    requires
        net < checked.nets@.len(),
    ensures
        r == far_fits(checked, far, near as int, net as int),
{
    match far {
        FarEnd::Supply => supply_net(checked, net),
        FarEnd::Ground => str_eq(checked.nets[net].as_str(), "0"),
        FarEnd::Signal => net != near && !supply_net(checked, net) && !str_eq(
            checked.nets[net].as_str(),
            "0",
        ),
    }
}

/// The first two-terminal part of a kind with one end on a net and the other
/// as asked.
fn find_two_terminal(
    checked: &CheckedNetlist,
    near: usize,
    far: FarEnd,
    kind: ElementKind,
) -> (r: Option<usize>)
    requires
        checked.wf(),
    ensures
        match r {
            Some(i) => first_part(checked, near as int, far, kind, 0) == Some(i as int) && i
                < checked.elements@.len(),
            None => first_part(checked, near as int, far, kind, 0) is None,
        },
{
    let mut i: usize = 0;
    while i < checked.elements.len()
        invariant
            i <= checked.elements@.len(),
            checked.wf(),
            first_part(checked, near as int, far, kind, 0) == first_part(
                checked,
                near as int,
                far,
                kind,
                i as int,
            ),
        decreases checked.elements@.len() - i,
    {
        let e = &checked.elements[i];
        assert(nets_in_range(checked.elements@[i as int].nodes@, checked.nets@.len()));
        if e.kind == kind && e.nodes.len() == 2 {
            let (a, b): (usize, usize) = (e.nodes[0], e.nodes[1]);
            if (a == near && far_end_fits(checked, far, near, b)) || (b == near && far_end_fits(
                checked,
                far,
                near,
                a,
            )) {
                return Some(i);
            }
        }
        i = i + 1;
    }
    None
}

/// The only bipolar transistor.
fn sole_bjt(checked: &CheckedNetlist) -> (r: Option<usize>)
    ensures
        match r {
            Some(q) => is_sole_bjt(checked, q as int),
            None => forall|q: int| !is_sole_bjt(checked, q),
        },
{
    let mut found: Option<usize> = None;
    let mut i: usize = 0;
    while i < checked.elements.len()
        invariant
            i <= checked.elements@.len(),
            match found {
                Some(q) => {
                    &&& q < i
                    &&& checked.elements@[q as int].kind == ElementKind::Bjt
                    &&& forall|k: int|
                        0 <= k < i && #[trigger] checked.elements@[k].kind == ElementKind::Bjt
                            ==> k == q
                },
                None => forall|k: int|
                    0 <= k < i ==> #[trigger] checked.elements@[k].kind != ElementKind::Bjt,
            },
        decreases checked.elements@.len() - i,
    {
        if checked.elements[i].kind == ElementKind::Bjt {
            match found {
                Some(q) => {
                    proof {
                        assert(checked.elements@[i as int].kind == ElementKind::Bjt);
                        assert(checked.elements@[q as int].kind == ElementKind::Bjt);
                        assert forall|p: int| !is_sole_bjt(checked, p) by {
                            if is_sole_bjt(checked, p) {
                                assert(i == p && q == p);
                            }
                        }
                    }
                    return None;
                },
                None => {
                    found = Some(i);
                },
            }
        }
        i = i + 1;
    }
    found
}

fn any_supply(checked: &CheckedNetlist) -> (r: bool)
    ensures
        r == has_supply(checked),
{
    let mut net: usize = 0;
    while net < checked.nets.len()
        invariant
            net <= checked.nets@.len(),
            forall|k: int| 0 <= k < net ==> !(#[trigger] is_fed(checked, k)),
        decreases checked.nets@.len() - net,
    {
        if fed(checked, net) {
            assert(is_fed(checked, net as int));
            return true;
        }
        net = net + 1;
    }
    false
}

fn give_seat(
    checked: &CheckedNetlist,
    seeds: &mut Vec<ArchetypeSeed>,
    i: usize,
    x: i32,
    y: i32,
    Ghost(seats): Ghost<Seq<(int, GridPoint)>>,
)
    requires
        i < checked.elements@.len(),
        -3 <= x <= 3,
        -3 <= y <= 3,
        seeds_seats(checked, seats, old(seeds)@),
    ensures
        seeds_seats(
            checked,
            seats.push((i as int, seat(x as int, y as int))),
            final(seeds)@,
        ),
{
    let refdes: String = checked.elements[i].refdes.clone();
    seeds.push(ArchetypeSeed { refdes, at: GridPoint::new(x * SEAT, y * SEAT) });
}

/// The seats of the common-emitter stage around a transistor.
fn match_and_seed(checked: &CheckedNetlist, q: usize) -> (r: Option<Vec<ArchetypeSeed>>)
    requires
        checked.wf(),
        q < checked.elements@.len(),
    ensures
        match r {
            Some(seeds) => stage_at(checked, q as int) matches Some(s) && seeds_seats(
                checked,
                seats_of(s),
                seeds@,
            ),
            None => stage_at(checked, q as int) is None,
        },
{
    let nodes = &checked.elements[q].nodes;
    assert(nets_in_range(checked.elements@[q as int].nodes@, checked.nets@.len()));
    if nodes.len() < 3 {
        return None;
    }
    let (c, b, m): (usize, usize, usize) = (nodes[0], nodes[1], nodes[2]);
    if str_eq(checked.nets[c].as_str(), "0") || str_eq(checked.nets[b].as_str(), "0") || str_eq(
        checked.nets[m].as_str(),
        "0",
    ) {
        return None;
    }
    if c == b || b == m || c == m || !any_supply(checked) {
        return None;
    }
    let rc = find_two_terminal(checked, c, FarEnd::Supply, ElementKind::Resistor);
    let re = find_two_terminal(checked, m, FarEnd::Ground, ElementKind::Resistor);
    let ce = find_two_terminal(checked, m, FarEnd::Ground, ElementKind::Capacitor);
    let r1 = find_two_terminal(checked, b, FarEnd::Supply, ElementKind::Resistor);
    let r2 = find_two_terminal(checked, b, FarEnd::Ground, ElementKind::Resistor);
    let cin = find_two_terminal(checked, b, FarEnd::Signal, ElementKind::Capacitor);
    let cout = find_two_terminal(checked, c, FarEnd::Signal, ElementKind::Capacitor);
    let (rc, re, r1, cin) = match (rc, re, r1, cin) {
        (Some(rc), Some(re), Some(r1), Some(cin)) => (rc, re, r1, cin),
        _ => {
            return None;
        },
    };
    let mut seeds: Vec<ArchetypeSeed> = Vec::new();
    let ghost mut seats: Seq<(int, GridPoint)> = seq![];
    give_seat(checked, &mut seeds, q, 0, 0, Ghost(seats));
    proof {
        seats = seats.push((q as int, seat(0, 0)));
    }
    give_seat(checked, &mut seeds, rc, 1, -2, Ghost(seats));
    proof {
        seats = seats.push((rc as int, seat(1, -2)));
    }
    give_seat(checked, &mut seeds, re, -1, 2, Ghost(seats));
    proof {
        seats = seats.push((re as int, seat(-1, 2)));
    }
    if let Some(ce) = ce {
        give_seat(checked, &mut seeds, ce, 0, 2, Ghost(seats));
        proof {
            seats = seats.push((ce as int, seat(0, 2)));
        }
    }
    give_seat(checked, &mut seeds, r1, -1, -1, Ghost(seats));
    proof {
        seats = seats.push((r1 as int, seat(-1, -1)));
    }
    if let Some(r2) = r2 {
        give_seat(checked, &mut seeds, r2, -1, 1, Ghost(seats));
        proof {
            seats = seats.push((r2 as int, seat(-1, 1)));
        }
    }
    give_seat(checked, &mut seeds, cin, -2, 0, Ghost(seats));
    proof {
        seats = seats.push((cin as int, seat(-2, 0)));
    }
    if let Some(cout) = cout {
        give_seat(checked, &mut seeds, cout, 2, 0, Ghost(seats));
        proof {
            seats = seats.push((cout as int, seat(2, 0)));
        }
    }
    proof {
        let s = stage_at(checked, q as int)->0;
        assert(seats =~= seats_of(s));
    }
    Some(seeds)
}

/// The seats of the first template that the netlist matches; none when it
/// matches no template.
pub fn detect_and_seed(checked: &CheckedNetlist) -> (r: Vec<ArchetypeSeed>)
    requires
        checked.wf(),
    ensures
        match stage_of(checked) {
            Some(s) => seeds_seats(checked, seats_of(s), r@),
            None => r@.len() == 0,
        },
{
    match sole_bjt(checked) {
        Some(q) => {
            proof {
                let p = choose|p: int| is_sole_bjt(checked, p);
                assert(is_sole_bjt(checked, q as int));
                assert(checked.elements@[q as int].kind == ElementKind::Bjt);
                assert(p == q);
            }
            match match_and_seed(checked, q) {
                Some(seeds) => seeds,
                None => Vec::new(),
            }
        },
        None => Vec::new(),
    }
}

/// The last of the first `n` seeds for a designator.
pub open spec fn last_seed(seeds: Seq<ArchetypeSeed>, refdes: Seq<char>, n: int) -> Option<GridPoint>
    decreases n,
{
    if n <= 0 {
        None
    } else if seeds[n - 1].refdes@ == refdes {
        Some(seeds[n - 1].at)
    } else {
        last_seed(seeds, refdes, n - 1)
    }
}

/// What the seeds do to one element.
pub open spec fn seeded(
    e: PlacedElement,
    pinned: bool,
    seeds: Seq<ArchetypeSeed>,
) -> (Spot, bool) {
    if pinned {
        (spot_of(e), true)
    } else {
        match last_seed(seeds, e.refdes@, seeds.len() as int) {
            Some(at) => (Spot { origin: at, orientation: e.orientation }, true),
            None => (spot_of(e), false),
        }
    }
}

/// Seeds never override a pin, never turn an element, and pin exactly what
/// they place.
pub proof fn seeds_respect_pins(e: PlacedElement, pinned: bool, seeds: Seq<ArchetypeSeed>)
    ensures
        pinned ==> seeded(e, pinned, seeds).0 == spot_of(e),
        seeded(e, pinned, seeds).0.orientation == e.orientation,
        !seeded(e, pinned, seeds).1 ==> seeded(e, pinned, seeds).0 == spot_of(e),
{
}

fn find_seed(seeds: &Vec<ArchetypeSeed>, refdes: &str) -> (r: Option<GridPoint>)
    ensures
        r == last_seed(seeds@, refdes@, seeds@.len() as int),
{
    let mut n: usize = seeds.len();
    while n > 0
        invariant
            n <= seeds@.len(),
            last_seed(seeds@, refdes@, seeds@.len() as int) == last_seed(
                seeds@,
                refdes@,
                n as int,
            ),
        decreases n,
    {
        if str_eq(seeds[n - 1].refdes.as_str(), refdes) {
            return Some(seeds[n - 1].at);
        }
        n = n - 1;
    }
    None
}

/// Gives the unpinned elements their seats and pins them there.
pub fn apply_seeds(placement: &mut Placement, pinned: &mut Vec<bool>, seeds: &Vec<ArchetypeSeed>)
    requires
        old(pinned)@.len() == old(placement).elements@.len(),
    ensures
        same_parts(*old(placement), *final(placement)),
        final(pinned)@.len() == old(pinned)@.len(),
        forall|i: int|
            #![trigger final(placement).spots()[i]]
            #![trigger final(pinned)@[i]]
            0 <= i < final(pinned)@.len() ==> (final(placement).spots()[i], final(pinned)@[i])
                == seeded(old(placement).elements@[i], old(pinned)@[i], seeds@),
{
    let mut i: usize = 0;
    while i < placement.elements.len()
        invariant
            i <= placement.elements@.len(),
            same_parts(*old(placement), *placement),
            pinned@.len() == old(pinned)@.len(),
            pinned@.len() == placement.elements@.len(),
            forall|j: int|
                #![trigger placement.spots()[j]]
                #![trigger pinned@[j]]
                0 <= j < i ==> (placement.spots()[j], pinned@[j]) == seeded(
                    old(placement).elements@[j],
                    old(pinned)@[j],
                    seeds@,
                ),
            forall|j: int|
                #![trigger placement.spots()[j]]
                #![trigger pinned@[j]]
                i <= j < pinned@.len() ==> placement.spots()[j] == spot_of(
                    old(placement).elements@[j],
                ) && pinned@[j] == old(pinned)@[j],
        decreases placement.elements@.len() - i,
    {
        assert(same_part(old(placement).elements@[i as int], placement.elements@[i as int]));
        assert(placement.spots()[i as int] == spot_of(old(placement).elements@[i as int]));
        if !pinned[i] {
            if let Some(at) = find_seed(seeds, placement.elements[i].refdes.as_str()) {
                let turned = placement.elements[i].orientation;
                let ghost prior = *placement;
                put_pinned(placement, pinned, i, at, turned);
                proof {
                    same_parts_trans(*old(placement), prior, *placement);
                    let l = layout_of(*placement, *pinned);
                    assert(l.pinned == pinned@ && l.spots == placement.spots());
                }
            }
        }
        i = i + 1;
    }
}

/// Element `i` is of the kind and joins exactly the two nets.
pub open spec fn joins_nets(
    checked: &CheckedNetlist,
    i: int,
    kind: ElementKind,
    a: int,
    b: int,
) -> bool {
    let e = checked.elements@[i];
    &&& 0 <= i < checked.elements@.len()
    &&& e.kind == kind
    &&& e.nodes@.len() == 2
    &&& e.nodes@[0] == a && e.nodes@[1] == b || e.nodes@[0] == b && e.nodes@[1] == a
}

/// The net is a supply: one of its names says so, or a supply element other
/// than the reference's is on it.
pub open spec fn carries_supply(checked: &CheckedNetlist, net: int) -> bool {
    ||| ascii_lower(checked.nets@[net]@) == "vcc"@
    ||| ascii_lower(checked.nets@[net]@) == "vdd"@
    ||| ascii_lower(checked.nets@[net]@) == "v+"@
    ||| ascii_lower(checked.nets@[net]@) == "vplus"@
    ||| checked.nets@[net]@ != "0"@ && exists|i: int|
        0 <= i < checked.elements@.len() && checked.elements@[i].role is Power
            && #[trigger] checked.touches(i, net)
}

proof fn first_part_joins(
    checked: &CheckedNetlist,
    near: int,
    far: FarEnd,
    kind: ElementKind,
    k: int,
    i: int,
    net: int,
)
    requires
        0 <= k,
    ensures
        first_part(checked, near, far, kind, k) matches Some(j) ==> k <= j && exists|x: int|
            #[trigger] joins_nets(checked, j, kind, near, x) && far_fits(checked, far, near, x),
        k <= i && joins_nets(checked, i, kind, near, net) && far_fits(checked, far, near, net)
            ==> (first_part(checked, near, far, kind, k) matches Some(j) && j <= i),
    decreases checked.elements@.len() - k,
{
    if k < checked.elements@.len() {
        first_part_joins(checked, near, far, kind, k + 1, i, net);
        if part_fits(checked, k, near, far, kind) {
            let e = checked.elements@[k];
            let (a, b) = (e.nodes@[0] as int, e.nodes@[1] as int);
            if a == near && far_fits(checked, far, near, b) {
                assert(joins_nets(checked, k, kind, near, b));
            } else {
                assert(joins_nets(checked, k, kind, near, a));
            }
            assert(first_part(checked, near, far, kind, k) == Some(k));
        } else {
            assert(first_part(checked, near, far, kind, k) == first_part(
                checked,
                near,
                far,
                kind,
                k + 1,
            ));
        }
    }
}

/// In a stage the load joins the collector to a supply, the emitter resistor
/// and its bypass join the emitter to net `0`, the bias resistors join the base
/// to a supply and to net `0`, and the capacitors join base and collector to
/// nets that are neither.
pub proof fn stages_surround_the_transistor(checked: &CheckedNetlist, q: int, s: Stage)
    requires
        stage_at(checked, q) == Some(s),
    ensures
        ({
            let n = checked.elements@[q].nodes@;
            let (c, b, m) = (n[0] as int, n[1] as int, n[2] as int);
            let to_supply = |i: int, near: int, kind: ElementKind|
                exists|x: int| #[trigger]
                    joins_nets(checked, i, kind, near, x) && carries_supply(checked, x);
            let to_ground = |i: int, near: int, kind: ElementKind|
                exists|x: int| #[trigger]
                    joins_nets(checked, i, kind, near, x) && checked.nets@[x]@ == "0"@;
            let to_signal = |i: int, near: int, kind: ElementKind|
                exists|x: int| #[trigger]
                    joins_nets(checked, i, kind, near, x) && x != near && checked.nets@[x]@ != "0"@
                        && !carries_supply(checked, x);
            &&& s.q == q
            &&& n.len() >= 3 && c != b && b != m && c != m
            &&& to_supply(s.rc, c, ElementKind::Resistor)
            &&& to_ground(s.re, m, ElementKind::Resistor)
            &&& to_supply(s.r1, b, ElementKind::Resistor)
            &&& to_signal(s.cin, b, ElementKind::Capacitor)
            &&& s.ce matches Some(i) ==> to_ground(i, m, ElementKind::Capacitor)
            &&& s.r2 matches Some(i) ==> to_ground(i, b, ElementKind::Resistor)
            &&& s.cout matches Some(i) ==> to_signal(i, c, ElementKind::Capacitor)
        }),
{
    let n = checked.elements@[q].nodes@;
    let (c, b, m) = (n[0] as int, n[1] as int, n[2] as int);
    assert forall|net: int| is_supply(checked, net) == #[trigger] carries_supply(checked, net) by {}
    first_part_joins(checked, c, FarEnd::Supply, ElementKind::Resistor, 0, 0, 0);
    first_part_joins(checked, m, FarEnd::Ground, ElementKind::Resistor, 0, 0, 0);
    first_part_joins(checked, b, FarEnd::Supply, ElementKind::Resistor, 0, 0, 0);
    first_part_joins(checked, b, FarEnd::Signal, ElementKind::Capacitor, 0, 0, 0);
    first_part_joins(checked, m, FarEnd::Ground, ElementKind::Capacitor, 0, 0, 0);
    first_part_joins(checked, b, FarEnd::Ground, ElementKind::Resistor, 0, 0, 0);
    first_part_joins(checked, c, FarEnd::Signal, ElementKind::Capacitor, 0, 0, 0);
}

/// A sole transistor with a load from collector to supply, a resistor from
/// emitter to net `0`, one from the base to a supply and a capacitor from the
/// base to a signal is a stage.
pub proof fn surrounded_transistors_are_stages(
    checked: &CheckedNetlist,
    q: int,
    fed: int,
    rc: (int, int),
    re: (int, int),
    r1: (int, int),
    cin: (int, int),
)
    requires
        is_sole_bjt(checked, q),
        checked.elements@[q].nodes@.len() >= 3,
        checked.elements@[q].nodes@[0] != checked.elements@[q].nodes@[1],
        checked.elements@[q].nodes@[1] != checked.elements@[q].nodes@[2],
        checked.elements@[q].nodes@[0] != checked.elements@[q].nodes@[2],
        forall|t: int|
            0 <= t < 3 ==> checked.nets@[#[trigger] checked.elements@[q].nodes@[t] as int]@ != "0"@,
        0 <= fed < checked.nets@.len() && is_fed(checked, fed),
        joins_nets(checked, rc.0, ElementKind::Resistor, checked.elements@[q].nodes@[0] as int, rc.1),
        carries_supply(checked, rc.1),
        joins_nets(checked, re.0, ElementKind::Resistor, checked.elements@[q].nodes@[2] as int, re.1),
        checked.nets@[re.1]@ == "0"@,
        joins_nets(checked, r1.0, ElementKind::Resistor, checked.elements@[q].nodes@[1] as int, r1.1),
        carries_supply(checked, r1.1),
        joins_nets(
            checked,
            cin.0,
            ElementKind::Capacitor,
            checked.elements@[q].nodes@[1] as int,
            cin.1,
        ),
        cin.1 != checked.elements@[q].nodes@[1],
        checked.nets@[cin.1]@ != "0"@,
        !carries_supply(checked, cin.1),
    ensures
        stage_of(checked) is Some,
        stage_of(checked)->0.q == q,
{
    let n = checked.elements@[q].nodes@;
    let (c, b, m) = (n[0] as int, n[1] as int, n[2] as int);
    assert forall|net: int| is_supply(checked, net) == #[trigger] carries_supply(checked, net) by {}
    let chosen = choose|x: int| is_sole_bjt(checked, x);
    assert(checked.elements@[chosen].kind == ElementKind::Bjt);
    assert(chosen == q);
    first_part_joins(checked, c, FarEnd::Supply, ElementKind::Resistor, 0, rc.0, rc.1);
    first_part_joins(checked, m, FarEnd::Ground, ElementKind::Resistor, 0, re.0, re.1);
    first_part_joins(checked, b, FarEnd::Supply, ElementKind::Resistor, 0, r1.0, r1.1);
    first_part_joins(checked, b, FarEnd::Signal, ElementKind::Capacitor, 0, cin.0, cin.1);
}

/// Element `i` has the seat at the given grid steps from the transistor.
pub open spec fn sits_at(seats: Seq<(int, GridPoint)>, i: int, x: int, y: int) -> bool {
    exists|k: int|
        0 <= k < seats.len() && (#[trigger] seats[k]).0 == i && seats[k].1.x == x && seats[k].1.y
            == y
}

/// The transistor sits at the origin, its load above, the emitter parts below,
/// the bias resistors to its left above and below one another, the input
/// farther left on its row and the output to its right.
pub proof fn stages_read_left_to_right(s: Stage)
    ensures
        sits_at(seats_of(s), s.q, 0, 0),
        sits_at(seats_of(s), s.rc, 7, -14),
        sits_at(seats_of(s), s.re, -7, 14),
        sits_at(seats_of(s), s.r1, -7, -7),
        sits_at(seats_of(s), s.cin, -14, 0),
        s.ce matches Some(i) ==> sits_at(seats_of(s), i, 0, 14),
        s.r2 matches Some(i) ==> sits_at(seats_of(s), i, -7, 7),
        s.cout matches Some(i) ==> sits_at(seats_of(s), i, 14, 0),
{
    let all = seats_of(s);
    let ce: int = if s.ce is Some { 1 } else { 0 };
    let r2: int = if s.r2 is Some { 1 } else { 0 };
    assert(all[0].0 == s.q && all[0].1.x == 0 && all[0].1.y == 0);
    assert(all[1].0 == s.rc && all[1].1.x == 7 && all[1].1.y == -14);
    assert(all[2].0 == s.re && all[2].1.x == -7 && all[2].1.y == 14);
    if s.ce is Some {
        assert(all[3].0 == s.ce->0 && all[3].1.x == 0 && all[3].1.y == 14);
    }
    assert(all[3 + ce].0 == s.r1 && all[3 + ce].1.x == -7 && all[3 + ce].1.y == -7);
    if s.r2 is Some {
        assert(all[4 + ce].0 == s.r2->0 && all[4 + ce].1.x == -7 && all[4 + ce].1.y == 7);
    }
    assert(all[4 + ce + r2].0 == s.cin && all[4 + ce + r2].1.x == -14 && all[4 + ce + r2].1.y == 0);
    if s.cout is Some {
        assert(all[5 + ce + r2].0 == s.cout->0 && all[5 + ce + r2].1.x == 14 && all[5 + ce + r2].1.y == 0);
    }
}

/// An element that is not pinned goes to the last seed with its designator,
/// and stays where there is none.
pub proof fn elements_go_to_their_seeds(
    e: PlacedElement,
    seeds: Seq<ArchetypeSeed>,
    k: int,
)
    requires
        0 <= k < seeds.len(),
        seeds[k].refdes@ == e.refdes@,
        forall|j: int| k < j < seeds.len() ==> (#[trigger] seeds[j]).refdes@ != e.refdes@,
    ensures
        seeded(e, false, seeds).0.origin == seeds[k].at,
        seeded(e, false, seeds).1,
{
    last_seed_found(seeds, e.refdes@, k, seeds.len() as int);
}

proof fn last_seed_found(seeds: Seq<ArchetypeSeed>, refdes: Seq<char>, k: int, n: int)
    requires
        0 <= k < n <= seeds.len(),
        seeds[k].refdes@ == refdes,
        forall|j: int| k < j < n ==> (#[trigger] seeds[j]).refdes@ != refdes,
    ensures
        last_seed(seeds, refdes, n) == Some(seeds[k].at),
    decreases n,
{
    if k < n - 1 {
        last_seed_found(seeds, refdes, k, n - 1);
    }
}

} // verus!
