//! What the wires of a layout cost: how long they are and how often they
//! cross, estimated from the positions of the pins on each net.

use vstd::prelude::*;

#[allow(unused_imports)]
use crate::extent::Bounds;
use crate::names::str_eq;
use crate::netlist::CheckedNetlist;
use crate::placement::Placement;
#[allow(unused_imports)]
use crate::placement::{spots_within, Spot, GRID_STEP, MAX_COORD, MAX_ELEMENTS};
use crate::pose_pick::terminal_point;
#[allow(unused_imports)]
use crate::pose_pick::{terminal_at, terminal_bound};
#[allow(unused_imports)]
use crate::symbol::{MAX_PINS, MAX_REACH};
#[allow(unused_imports)]
use crate::placement::places;

verus! {

// ---- Pins of a net ---------------------------------------------------------------

/// The pins that the first `n` terminals of element `i` have on a net.
pub open spec fn element_pins(
    spots: Seq<Spot>,
    checked: &CheckedNetlist,
    net: int,
    i: int,
    n: int,
) -> Seq<(int, int)>
    decreases n,
{
    if n <= 0 {
        seq![]
    } else {
        let rest = element_pins(spots, checked, net, i, n - 1);
        if checked.elements@[i].nodes@[n - 1] == net {
            match terminal_at(spots[i], checked, i, n - 1) {
                Some(p) => rest.push(p),
                None => rest,
            }
        } else {
            rest
        }
    }
}

/// The pins that the first `n` elements have on a net.
pub open spec fn pins_on(spots: Seq<Spot>, checked: &CheckedNetlist, net: int, n: int) -> Seq<
    (int, int),
>
    decreases n,
{
    if n <= 0 {
        seq![]
    } else {
        pins_on(spots, checked, net, n - 1) + element_pins(
            spots,
            checked,
            net,
            n - 1,
            checked.elements@[n - 1].nodes@.len() as int,
        )
    }
}

/// The pins that are wired together by a net, in element and terminal order.
/// Net `0` is drawn as symbols and wires nothing.
pub open spec fn net_pins(spots: Seq<Spot>, checked: &CheckedNetlist, net: int) -> Seq<(int, int)> {
    if checked.is_reference(net) {
        seq![]
    } else {
        pins_on(spots, checked, net, checked.elements@.len() as int)
    }
}

/// Farthest that a pin can be from the sheet's origin.
pub open spec fn pin_limit() -> int {
    MAX_COORD * GRID_STEP + MAX_REACH
}

/// All points are on the sheet.
pub open spec fn points_on_sheet(pins: Seq<(int, int)>) -> bool {
    forall|k: int|
        0 <= k < pins.len() ==> -pin_limit() <= (#[trigger] pins[k]).0 <= pin_limit()
            && -pin_limit() <= pins[k].1 <= pin_limit()
}

/// Most pins that a net can have.
pub open spec fn net_limit() -> int {
    MAX_ELEMENTS * MAX_PINS
}

/// The points of an executable list.
pub open spec fn points(list: Seq<(i64, i64)>) -> Seq<(int, int)> {
    Seq::new(list.len(), |k: int| (list[k].0 as int, list[k].1 as int))
}

proof fn element_pins_fit(
    spots: Seq<Spot>,
    checked: &CheckedNetlist,
    net: int,
    i: int,
    n: int,
)
    requires
        checked.drawable(),
        spots.len() == checked.elements@.len(),
        spots_within(spots, MAX_COORD as int),
        0 <= i < spots.len(),
        0 <= n,
    ensures
        element_pins(spots, checked, net, i, n).len() <= n,
        points_on_sheet(element_pins(spots, checked, net, i, n)),
    decreases n,
{
    if n > 0 {
        element_pins_fit(spots, checked, net, i, n - 1);
        assert(spots[i].origin.within(MAX_COORD as int));
        terminal_bound(spots[i], checked, i, n - 1);
    }
}

proof fn pins_on_fit(spots: Seq<Spot>, checked: &CheckedNetlist, net: int, n: int)
    requires
        checked.drawable(),
        spots.len() == checked.elements@.len(),
        spots_within(spots, MAX_COORD as int),
        0 <= n <= spots.len(),
    ensures
        pins_on(spots, checked, net, n).len() <= n * MAX_PINS,
        points_on_sheet(pins_on(spots, checked, net, n)),
    decreases n,
{
    if n > 0 {
        pins_on_fit(spots, checked, net, n - 1);
        assert(checked.elements@[n - 1].symbol.wf());
        let m = checked.elements@[n - 1].nodes@.len() as int;
        element_pins_fit(spots, checked, net, n - 1, m);
        let a = pins_on(spots, checked, net, n - 1);
        let b = element_pins(spots, checked, net, n - 1, m);
        assert forall|k: int| 0 <= k < (a + b).len() implies -pin_limit() <= (#[trigger] (a
            + b)[k]).0 <= pin_limit() && -pin_limit() <= (a + b)[k].1 <= pin_limit() by {
            if k < a.len() {
                assert((a + b)[k] == a[k]);
            } else {
                assert((a + b)[k] == b[k - a.len()]);
            }
        }
    }
}

/// The pins of a net are on the sheet, and there are not too many of them.
pub proof fn net_pins_fit(spots: Seq<Spot>, checked: &CheckedNetlist, net: int)
    requires
        checked.drawable(),
        spots.len() == checked.elements@.len(),
        spots_within(spots, MAX_COORD as int),
    ensures
        net_pins(spots, checked, net).len() <= net_limit(),
        points_on_sheet(net_pins(spots, checked, net)),
{
    pins_on_fit(spots, checked, net, spots.len() as int);
}

/// The pins of one net.
fn collect_pins(placement: &Placement, checked: &CheckedNetlist, net: usize) -> (r: Vec<(i64, i64)>)
    requires
        checked.drawable(),
        placement.elements@.len() == checked.elements@.len(),
        placement.within(MAX_COORD as int),
        net < checked.nets@.len(),
    ensures
        points(r@) == net_pins(placement.spots(), checked, net as int),
{
    let ghost spots = placement.spots();
    let mut out: Vec<(i64, i64)> = Vec::new();
    if str_eq(checked.nets[net].as_str(), "0") {
        assert(points(out@) =~= seq![]);
        return out;
    }
    let mut i: usize = 0;
    assert(points(out@) =~= pins_on(spots, checked, net as int, 0));
    while i < checked.elements.len()
        invariant
            i <= checked.elements@.len(),
            checked.drawable(),
            placement.elements@.len() == checked.elements@.len(),
            placement.within(MAX_COORD as int),
            spots == placement.spots(),
            points(out@) == pins_on(spots, checked, net as int, i as int),
        decreases checked.elements@.len() - i,
    {
        let nodes = &checked.elements[i].nodes;
        let ghost before = pins_on(spots, checked, net as int, i as int);
        let mut t: usize = 0;
        assert(before + element_pins(spots, checked, net as int, i as int, 0) =~= before);
        while t < nodes.len()
            invariant
                t <= nodes@.len(),
                i < checked.elements@.len(),
                nodes@ == checked.elements@[i as int].nodes@,
                checked.drawable(),
                placement.elements@.len() == checked.elements@.len(),
                placement.within(MAX_COORD as int),
                spots == placement.spots(),
                points(out@) == before + element_pins(
                    spots,
                    checked,
                    net as int,
                    i as int,
                    t as int,
                ),
            decreases nodes@.len() - t,
        {
            assert(spots[i as int] == (Spot {
                origin: spots[i as int].origin,
                orientation: placement.elements@[i as int].orientation,
            }));
            let ghost was = out@;
            if nodes[t] == net {
                let at = terminal_point(
                    placement,
                    checked,
                    i,
                    placement.elements[i].orientation,
                    t,
                );
                if let Some(p) = at {
                    out.push(p);
                    proof {
                        let rest = element_pins(spots, checked, net as int, i as int, t as int);
                        assert(points(out@) =~= points(was).push((p.0 as int, p.1 as int)));
                        assert(before + rest.push((p.0 as int, p.1 as int)) =~= (before
                            + rest).push((p.0 as int, p.1 as int)));
                    }
                }
            }
            t = t + 1;
        }
        i = i + 1;
    }
    out
}

/// The pins of every net.
pub fn build_nets(placement: &Placement, checked: &CheckedNetlist) -> (r: Vec<Vec<(i64, i64)>>)
    requires
        checked.drawable(),
        places(placement, checked),
        placement.within(MAX_COORD as int),
    ensures
        r@.len() == checked.nets@.len(),
        forall|net: int|
            0 <= net < r@.len() ==> points((#[trigger] r@[net])@) == net_pins(
                placement.spots(),
                checked,
                net,
            ),
{
    let mut out: Vec<Vec<(i64, i64)>> = Vec::new();
    let mut net: usize = 0;
    while net < checked.nets.len()
        invariant
            net <= checked.nets@.len(),
            checked.drawable(),
            placement.elements@.len() == checked.elements@.len(),
            placement.within(MAX_COORD as int),
            out@.len() == net,
            forall|k: int|
                0 <= k < net ==> points((#[trigger] out@[k])@) == net_pins(
                    placement.spots(),
                    checked,
                    k,
                ),
        decreases checked.nets@.len() - net,
    {
        let pins = collect_pins(placement, checked, net);
        out.push(pins);
        net = net + 1;
    }
    out
}

/// The lists hold the pins of the nets of a layout.
pub open spec fn nets_of(
    nets: Seq<Vec<(i64, i64)>>,
    spots: Seq<Spot>,
    checked: &CheckedNetlist,
) -> bool {
    &&& nets.len() == checked.nets@.len()
    &&& forall|net: int|
        0 <= net < nets.len() ==> points((#[trigger] nets[net])@) == net_pins(spots, checked, net)
}

// ---- Length ----------------------------------------------------------------------

/// The least box around one or more points.
pub open spec fn box_of(pins: Seq<(int, int)>, n: int) -> Bounds
    decreases n,
{
    if n <= 1 {
        Bounds { min_x: pins[0].0, max_x: pins[0].0, min_y: pins[0].1, max_y: pins[0].1 }
    } else {
        box_of(pins, n - 1).grown(pins[n - 1])
    }
}

/// The box around the pins of a net.
pub open spec fn pins_box(pins: Seq<(int, int)>) -> Bounds {
    box_of(pins, pins.len() as int)
}

/// The box holds every point, and each side touches one.
pub proof fn boxes_are_tight(pins: Seq<(int, int)>, n: int)
    requires
        1 <= n <= pins.len(),
    ensures
        forall|k: int| 0 <= k < n ==> box_of(pins, n).holds(#[trigger] pins[k]),
        exists|k: int| 0 <= k < n && (#[trigger] pins[k]).0 == box_of(pins, n).min_x,
        exists|k: int| 0 <= k < n && (#[trigger] pins[k]).0 == box_of(pins, n).max_x,
        exists|k: int| 0 <= k < n && (#[trigger] pins[k]).1 == box_of(pins, n).min_y,
        exists|k: int| 0 <= k < n && (#[trigger] pins[k]).1 == box_of(pins, n).max_y,
    decreases n,
{
    if n > 1 {
        boxes_are_tight(pins, n - 1);
        let b = box_of(pins, n - 1);
        let a = choose|k: int| 0 <= k < n - 1 && (#[trigger] pins[k]).0 == b.min_x;
        let c = choose|k: int| 0 <= k < n - 1 && (#[trigger] pins[k]).0 == b.max_x;
        let d = choose|k: int| 0 <= k < n - 1 && (#[trigger] pins[k]).1 == b.min_y;
        let e = choose|k: int| 0 <= k < n - 1 && (#[trigger] pins[k]).1 == b.max_y;
        let l = pins[n - 1];
        assert(pins[a].0 == box_of(pins, n).min_x || l.0 == box_of(pins, n).min_x);
        assert(pins[c].0 == box_of(pins, n).max_x || l.0 == box_of(pins, n).max_x);
        assert(pins[d].1 == box_of(pins, n).min_y || l.1 == box_of(pins, n).min_y);
        assert(pins[e].1 == box_of(pins, n).max_y || l.1 == box_of(pins, n).max_y);
    } else {
        assert(pins[0].0 == box_of(pins, n).min_x);
    }
}

/// Half the perimeter of the box around the pins; zero for fewer than two.
pub open spec fn half_perimeter(pins: Seq<(int, int)>) -> int {
    if pins.len() < 2 {
        0
    } else {
        let b = pins_box(pins);
        (b.max_x - b.min_x) + (b.max_y - b.min_y)
    }
}

/// The half perimeters of the first `n` nets, in sum.
pub open spec fn wire_length(spots: Seq<Spot>, checked: &CheckedNetlist, n: int) -> int
    decreases n,
{
    if n <= 0 {
        0
    } else {
        wire_length(spots, checked, n - 1) + half_perimeter(net_pins(spots, checked, n - 1))
    }
}

/// The box around the pins of a net.
pub(crate) fn box_around(pins: &Vec<(i64, i64)>) -> (r: (i64, i64, i64, i64))
    requires
        pins@.len() > 0,
        points_on_sheet(points(pins@)),
    ensures
        ({
            let b = pins_box(points(pins@));
            &&& r.0 == b.min_x
            &&& r.1 == b.min_y
            &&& r.2 == b.max_x
            &&& r.3 == b.max_y
            &&& -pin_limit() <= r.0 <= r.2 <= pin_limit()
            &&& -pin_limit() <= r.1 <= r.3 <= pin_limit()
        }),
{
    let ghost p = points(pins@);
    assert(p[0] == (pins@[0].0 as int, pins@[0].1 as int));
    let (mut x0, mut y0, mut x1, mut y1): (i64, i64, i64, i64) = (
        pins[0].0,
        pins[0].1,
        pins[0].0,
        pins[0].1,
    );
    let mut k: usize = 1;
    while k < pins.len()
        invariant
            1 <= k <= pins@.len(),
            p == points(pins@),
            points_on_sheet(p),
            x0 == box_of(p, k as int).min_x,
            y0 == box_of(p, k as int).min_y,
            x1 == box_of(p, k as int).max_x,
            y1 == box_of(p, k as int).max_y,
            -pin_limit() <= x0 <= x1 <= pin_limit(),
            -pin_limit() <= y0 <= y1 <= pin_limit(),
        decreases pins@.len() - k,
    {
        let (x, y): (i64, i64) = pins[k];
        assert(p[k as int] == (x as int, y as int));
        if x < x0 {
            x0 = x;
        }
        if x > x1 {
            x1 = x;
        }
        if y < y0 {
            y0 = y;
        }
        if y > y1 {
            y1 = y;
        }
        k = k + 1;
    }
    (x0, y0, x1, y1)
}

/// The estimated length of all wires, in micrometres.
pub(crate) fn hpwl(
    nets: &Vec<Vec<(i64, i64)>>,
    checked: &CheckedNetlist,
    Ghost(spots): Ghost<Seq<Spot>>,
) -> (r: u128)
    requires
        checked.drawable(),
        spots.len() == checked.elements@.len(),
        spots_within(spots, MAX_COORD as int),
        nets_of(nets@, spots, checked),
    ensures
        r == wire_length(spots, checked, checked.nets@.len() as int),
{
    let mut total: u128 = 0;
    let mut net: usize = 0;
    while net < nets.len()
        invariant
            net <= nets@.len(),
            checked.drawable(),
            spots.len() == checked.elements@.len(),
            spots_within(spots, MAX_COORD as int),
            nets_of(nets@, spots, checked),
            total == wire_length(spots, checked, net as int),
            total <= net * (4 * pin_limit()),
        decreases nets@.len() - net,
    {
        let pins = &nets[net];
        proof {
            net_pins_fit(spots, checked, net as int);
            assert(points(nets@[net as int]@) == net_pins(spots, checked, net as int));
            assert(net * (4 * pin_limit()) <= 0xffff_ffff * (4 * pin_limit())) by (nonlinear_arith)
                requires
                    net <= 0xffff_ffff,
                    pin_limit() >= 0,
            ;
            assert((net + 1) * (4 * pin_limit()) == net * (4 * pin_limit()) + 4 * pin_limit())
                by (nonlinear_arith);
        }
        if pins.len() >= 2 {
            let (x0, y0, x1, y1): (i64, i64, i64, i64) = box_around(pins);
            total = total + ((x1 - x0) + (y1 - y0)) as u128;
        }
        net = net + 1;
    }
    total
}

// ---- Boxes that overlap ------------------------------------------------------------

/// The boxes of two nets with two or more pins each share an area.
pub open spec fn boxes_cross(a: Seq<(int, int)>, b: Seq<(int, int)>) -> bool {
    let (p, q) = (pins_box(a), pins_box(b));
    &&& a.len() >= 2
    &&& b.len() >= 2
    &&& p.min_x < q.max_x
    &&& q.min_x < p.max_x
    &&& p.min_y < q.max_y
    &&& q.min_y < p.max_y
}

/// The first `n` nets whose box shares an area with that of net `j`.
pub open spec fn boxes_crossing(spots: Seq<Spot>, checked: &CheckedNetlist, j: int, n: int) -> int
    decreases n,
{
    if n <= 0 {
        0
    } else {
        boxes_crossing(spots, checked, j, n - 1) + (if boxes_cross(
            net_pins(spots, checked, n - 1),
            net_pins(spots, checked, j),
        ) {
            1int
        } else {
            0
        })
    }
}

/// The pairs among the first `n` nets whose boxes share an area.
pub open spec fn box_crossings(spots: Seq<Spot>, checked: &CheckedNetlist, n: int) -> int
    decreases n,
{
    if n <= 0 {
        0
    } else {
        box_crossings(spots, checked, n - 1) + boxes_crossing(spots, checked, n - 1, n - 1)
    }
}

/// The number of pairs of nets whose boxes share an area.
pub(crate) fn net_bbox_crossings(
    nets: &Vec<Vec<(i64, i64)>>,
    checked: &CheckedNetlist,
    Ghost(spots): Ghost<Seq<Spot>>,
) -> (r: u128)
    requires
        checked.drawable(),
        spots.len() == checked.elements@.len(),
        spots_within(spots, MAX_COORD as int),
        nets_of(nets@, spots, checked),
    ensures
        r == box_crossings(spots, checked, checked.nets@.len() as int),
{
    let mut total: u128 = 0;
    let mut j: usize = 0;
    while j < nets.len()
        invariant
            j <= nets@.len(),
            checked.drawable(),
            spots.len() == checked.elements@.len(),
            spots_within(spots, MAX_COORD as int),
            nets_of(nets@, spots, checked),
            total == box_crossings(spots, checked, j as int),
            total <= j * 0x1_0000_0000,
        decreases nets@.len() - j,
    {
        proof {
            net_pins_fit(spots, checked, j as int);
            assert(points(nets@[j as int]@) == net_pins(spots, checked, j as int));
        }
        let mut part: u128 = 0;
        if nets[j].len() >= 2 {
            let b: (i64, i64, i64, i64) = box_around(&nets[j]);
            let mut i: usize = 0;
            while i < j
                invariant
                    i <= j,
                    j < nets@.len(),
                    nets@.len() == checked.nets@.len(),
                    checked.drawable(),
                    spots.len() == checked.elements@.len(),
                    spots_within(spots, MAX_COORD as int),
                    nets_of(nets@, spots, checked),
                    net_pins(spots, checked, j as int).len() >= 2,
                    ({
                        let q = pins_box(net_pins(spots, checked, j as int));
                        b.0 == q.min_x && b.1 == q.min_y && b.2 == q.max_x && b.3 == q.max_y
                    }),
                    part == boxes_crossing(spots, checked, j as int, i as int),
                    part <= i,
                decreases j - i,
            {
                proof {
                    net_pins_fit(spots, checked, i as int);
                    assert(points(nets@[i as int]@) == net_pins(spots, checked, i as int));
                }
                if nets[i].len() >= 2 {
                    let a: (i64, i64, i64, i64) = box_around(&nets[i]);
                    if a.0 < b.2 && b.0 < a.2 && a.1 < b.3 && b.1 < a.3 {
                        part = part + 1;
                    }
                }
                i = i + 1;
            }
        } else {
            proof {
                no_box_no_crossing(spots, checked, j as int, j as int);
            }
        }
        total = total + part;
        j = j + 1;
    }
    total
}

proof fn no_box_no_crossing(spots: Seq<Spot>, checked: &CheckedNetlist, j: int, n: int)
    requires
        net_pins(spots, checked, j).len() < 2,
    ensures
        boxes_crossing(spots, checked, j, n) == 0,
    decreases n,
{
    if n > 0 {
        no_box_no_crossing(spots, checked, j, n - 1);
    }
}

/// The number of pairs of nets whose pins span boxes that share an area.
#[must_use]
pub fn net_bbox_crossings_for(placement: &Placement, checked: &CheckedNetlist) -> (r: u128)
    requires
        checked.drawable(),
        places(placement, checked),
        placement.within(MAX_COORD as int),
    ensures
        r == box_crossings(placement.spots(), checked, checked.nets@.len() as int),
{
    let nets = build_nets(placement, checked);
    net_bbox_crossings(&nets, checked, Ghost(placement.spots()))
}

/// The length of a net is half the perimeter of the box around its pins: it is
/// the largest distance of two pins along X and the largest along Y together.
pub proof fn net_length_spans_the_pins(
    pins: Seq<(int, int)>,
    left: int,
    right: int,
    top: int,
    bottom: int,
)
    requires
        pins.len() >= 2,
        0 <= left < pins.len(),
        0 <= right < pins.len(),
        0 <= top < pins.len(),
        0 <= bottom < pins.len(),
        forall|k: int|
            0 <= k < pins.len() ==> pins[left].0 <= (#[trigger] pins[k]).0 <= pins[right].0
                && pins[top].1 <= pins[k].1 <= pins[bottom].1,
    ensures
        half_perimeter(pins) == (pins[right].0 - pins[left].0) + (pins[bottom].1 - pins[top].1),
{
    let n = pins.len() as int;
    let q = pins_box(pins);
    boxes_are_tight(pins, n);
    assert(q.holds(pins[left]) && q.holds(pins[right]) && q.holds(pins[top]) && q.holds(
        pins[bottom],
    ));
}

/// Two nets of two or more pins cross exactly if neither lies wholly to one
/// side of the other: some pin of each is left of some pin of the other, and
/// some pin of each is above some pin of the other.
pub proof fn crossing_nets_interleave(a: Seq<(int, int)>, b: Seq<(int, int)>)
    requires
        a.len() >= 2,
        b.len() >= 2,
    ensures
        boxes_cross(a, b) <==> {
            &&& exists|i: int, j: int|
                #![trigger a[i], b[j]]
                0 <= i < a.len() && 0 <= j < b.len() && a[i].0 < b[j].0
            &&& exists|i: int, j: int|
                #![trigger a[i], b[j]]
                0 <= i < a.len() && 0 <= j < b.len() && b[j].0 < a[i].0
            &&& exists|i: int, j: int|
                #![trigger a[i], b[j]]
                0 <= i < a.len() && 0 <= j < b.len() && a[i].1 < b[j].1
            &&& exists|i: int, j: int|
                #![trigger a[i], b[j]]
                0 <= i < a.len() && 0 <= j < b.len() && b[j].1 < a[i].1
        },
{
    let (m, n) = (a.len() as int, b.len() as int);
    boxes_are_tight(a, m);
    boxes_are_tight(b, n);
    let (p, q) = (pins_box(a), pins_box(b));
    let al = choose|k: int| 0 <= k < m && (#[trigger] a[k]).0 == box_of(a, m).min_x;
    let ar = choose|k: int| 0 <= k < m && (#[trigger] a[k]).0 == box_of(a, m).max_x;
    let at = choose|k: int| 0 <= k < m && (#[trigger] a[k]).1 == box_of(a, m).min_y;
    let ab = choose|k: int| 0 <= k < m && (#[trigger] a[k]).1 == box_of(a, m).max_y;
    let bl = choose|k: int| 0 <= k < n && (#[trigger] b[k]).0 == box_of(b, n).min_x;
    let br = choose|k: int| 0 <= k < n && (#[trigger] b[k]).0 == box_of(b, n).max_x;
    let bt = choose|k: int| 0 <= k < n && (#[trigger] b[k]).1 == box_of(b, n).min_y;
    let bb = choose|k: int| 0 <= k < n && (#[trigger] b[k]).1 == box_of(b, n).max_y;
    assert forall|k: int| 0 <= k < m implies p.min_x <= (#[trigger] a[k]).0 <= p.max_x && p.min_y
        <= a[k].1 <= p.max_y by {
        assert(p.holds(a[k]));
    }
    assert forall|k: int| 0 <= k < n implies q.min_x <= (#[trigger] b[k]).0 <= q.max_x && q.min_y
        <= b[k].1 <= q.max_y by {
        assert(q.holds(b[k]));
    }
    if boxes_cross(a, b) {
        assert(a[al].0 < b[br].0);
        assert(b[bl].0 < a[ar].0);
        assert(a[at].1 < b[bb].1);
        assert(b[bt].1 < a[ab].1);
    }
}

proof fn element_pins_are_listed(
    spots: Seq<Spot>,
    checked: &CheckedNetlist,
    net: int,
    i: int,
    n: int,
    p: (int, int),
)
    ensures
        element_pins(spots, checked, net, i, n).contains(p) <==> exists|t: int|
            #![trigger checked.elements@[i].nodes@[t]]
            0 <= t < n && checked.elements@[i].nodes@[t] == net && terminal_at(
                spots[i],
                checked,
                i,
                t,
            ) == Some(p),
    decreases n,
{
    if n > 0 {
        element_pins_are_listed(spots, checked, net, i, n - 1, p);
        let rest = element_pins(spots, checked, net, i, n - 1);
        let all = element_pins(spots, checked, net, i, n);
        let last = checked.elements@[i].nodes@[n - 1];
        if all != rest {
            let q = terminal_at(spots[i], checked, i, n - 1)->0;
            assert(all == rest.push(q));
            assert(all[rest.len() as int] == q);
            if rest.contains(p) {
                let k = choose|k: int| 0 <= k < rest.len() && rest[k] == p;
                assert(all[k] == p);
            }
            if all.contains(p) {
                let k = choose|k: int| 0 <= k < all.len() && all[k] == p;
                if k < rest.len() {
                    assert(rest[k] == p);
                }
            }
        }
    }
}

proof fn pins_on_are_listed(
    spots: Seq<Spot>,
    checked: &CheckedNetlist,
    net: int,
    n: int,
    p: (int, int),
)
    ensures
        pins_on(spots, checked, net, n).contains(p) <==> exists|i: int, t: int|
            #![trigger checked.elements@[i].nodes@[t]]
            0 <= i < n && 0 <= t < checked.elements@[i].nodes@.len()
                && checked.elements@[i].nodes@[t] == net && terminal_at(spots[i], checked, i, t)
                == Some(p),
    decreases n,
{
    if n > 0 {
        pins_on_are_listed(spots, checked, net, n - 1, p);
        let m = checked.elements@[n - 1].nodes@.len() as int;
        element_pins_are_listed(spots, checked, net, n - 1, m, p);
        let (a, b) = (
            pins_on(spots, checked, net, n - 1),
            element_pins(spots, checked, net, n - 1, m),
        );
        if a.contains(p) {
            let k = choose|k: int| 0 <= k < a.len() && a[k] == p;
            assert((a + b)[k] == p);
        }
        if b.contains(p) {
            let k = choose|k: int| 0 <= k < b.len() && b[k] == p;
            assert((a + b)[a.len() + k] == p);
        }
        if (a + b).contains(p) {
            let k = choose|k: int| 0 <= k < (a + b).len() && (a + b)[k] == p;
            if k < a.len() {
                assert(a[k] == p);
            } else {
                assert(b[k - a.len()] == p);
            }
        }
    }
}

/// The pins of a net are those of the terminals on it, and net `0` has none.
pub proof fn nets_wire_their_terminals(
    spots: Seq<Spot>,
    checked: &CheckedNetlist,
    net: int,
    p: (int, int),
)
    ensures
        net_pins(spots, checked, net).contains(p) <==> checked.nets@[net]@ != "0"@ && exists|
            i: int,
            t: int,
        |
            #![trigger checked.elements@[i].nodes@[t]]
            0 <= i < checked.elements@.len() && 0 <= t < checked.elements@[i].nodes@.len()
                && checked.elements@[i].nodes@[t] == net && terminal_at(spots[i], checked, i, t)
                == Some(p),
{
    pins_on_are_listed(spots, checked, net, checked.elements@.len() as int, p);
}

/// Two nets whose boxes share an area are counted, and counted once: where they
/// are the only such pair the count is one, and without any it is zero.
pub proof fn crossing_boxes_are_counted_once(
    spots: Seq<Spot>,
    checked: &CheckedNetlist,
    a: int,
    b: int,
)
    requires
        0 <= a < b < checked.nets@.len(),
    ensures
        ({
            let n = checked.nets@.len() as int;
            let meet = |i: int, j: int|
                boxes_cross(net_pins(spots, checked, i), net_pins(spots, checked, j));
            let sole = forall|i: int, j: int|
                0 <= i < j < n && #[trigger] meet(i, j) ==> i == a && j == b;
            &&& meet(a, b) ==> box_crossings(spots, checked, n) >= 1
            &&& meet(a, b) && sole ==> box_crossings(spots, checked, n) == 1
            &&& !meet(a, b) && sole ==> box_crossings(spots, checked, n) == 0
        }),
{
    let n = checked.nets@.len() as int;
    let meet = |i: int, j: int|
        boxes_cross(net_pins(spots, checked, i), net_pins(spots, checked, j));
    let sole = forall|i: int, j: int| 0 <= i < j < n && #[trigger] meet(i, j) ==> i == a && j == b;
    pairs_of_boxes(spots, checked, a, b, meet, sole, n);
}

proof fn pairs_of_boxes(
    spots: Seq<Spot>,
    checked: &CheckedNetlist,
    a: int,
    b: int,
    meet: spec_fn(int, int) -> bool,
    sole: bool,
    n: int,
)
    requires
        0 <= a < b,
        n <= checked.nets@.len(),
        forall|i: int, j: int|
            #![trigger meet(i, j)]
            meet(i, j) == boxes_cross(net_pins(spots, checked, i), net_pins(spots, checked, j)),
        sole ==> forall|i: int, j: int|
            0 <= i < j < checked.nets@.len() && #[trigger] meet(i, j) ==> i == a && j == b,
    ensures
        box_crossings(spots, checked, n) >= (if b < n && meet(a, b) {
            1int
        } else {
            0
        }),
        sole ==> box_crossings(spots, checked, n) == (if b < n && meet(a, b) {
            1int
        } else {
            0
        }),
    decreases n,
{
    if n > 0 {
        pairs_of_boxes(spots, checked, a, b, meet, sole, n - 1);
        boxes_with(spots, checked, a, b, meet, sole, n - 1, n - 1);
    }
}

proof fn boxes_with(
    spots: Seq<Spot>,
    checked: &CheckedNetlist,
    a: int,
    b: int,
    meet: spec_fn(int, int) -> bool,
    sole: bool,
    j: int,
    n: int,
)
    requires
        0 <= a < b,
        n <= j < checked.nets@.len(),
        forall|i: int, j: int|
            #![trigger meet(i, j)]
            meet(i, j) == boxes_cross(net_pins(spots, checked, i), net_pins(spots, checked, j)),
        sole ==> forall|i: int, j: int|
            0 <= i < j < checked.nets@.len() && #[trigger] meet(i, j) ==> i == a && j == b,
    ensures
        boxes_crossing(spots, checked, j, n) >= (if b == j && a < n && meet(a, b) {
            1int
        } else {
            0
        }),
        sole ==> boxes_crossing(spots, checked, j, n) == (if b == j && a < n && meet(a, b) {
            1int
        } else {
            0
        }),
    decreases n,
{
    if n > 0 {
        boxes_with(spots, checked, a, b, meet, sole, j, n - 1);
        assert(meet(n - 1, j) == boxes_cross(
            net_pins(spots, checked, n - 1),
            net_pins(spots, checked, j),
        ));
    }
}

/// The length of the wires is at least that of each net, and where only one
/// net has any it is the length of that net.
pub proof fn lengths_add_up(spots: Seq<Spot>, checked: &CheckedNetlist, a: int)
    requires
        0 <= a < checked.nets@.len(),
    ensures
        ({
            let n = checked.nets@.len() as int;
            let own = half_perimeter(net_pins(spots, checked, a));
            &&& wire_length(spots, checked, n) >= own
            &&& (forall|i: int|
                0 <= i < n && i != a ==> half_perimeter(#[trigger] net_pins(spots, checked, i))
                    == 0) ==> wire_length(spots, checked, n) == own
        }),
{
    let n = checked.nets@.len() as int;
    let sole = forall|i: int|
        0 <= i < n && i != a ==> half_perimeter(#[trigger] net_pins(spots, checked, i)) == 0;
    length_of_one(spots, checked, a, sole, n);
}

proof fn length_of_one(
    spots: Seq<Spot>,
    checked: &CheckedNetlist,
    a: int,
    sole: bool,
    n: int,
)
    requires
        0 <= a,
        n <= checked.nets@.len(),
        sole ==> forall|i: int|
            0 <= i < checked.nets@.len() && i != a ==> half_perimeter(
                #[trigger] net_pins(spots, checked, i),
            ) == 0,
    ensures
        ({
            let own = if a < n {
                half_perimeter(net_pins(spots, checked, a))
            } else {
                0
            };
            &&& own >= 0
            &&& wire_length(spots, checked, n) >= own
            &&& sole ==> wire_length(spots, checked, n) == own
        }),
    decreases n,
{
    if n > 0 {
        length_of_one(spots, checked, a, sole, n - 1);
        let pins = net_pins(spots, checked, n - 1);
        if pins.len() > 0 {
            boxes_are_tight(pins, pins.len() as int);
            assert(pins_box(pins).holds(pins[0]));
        }
    }
}

} // verus!
