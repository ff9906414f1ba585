//! Net labels: which nets carry one, of what kind, and where on an element it
//! is anchored.

use vstd::prelude::*;

#[allow(unused_imports)]
use crate::counting::sum;
use crate::footprint::TextBox;
#[allow(unused_imports)]
use crate::layering::{holds_at, occurrences};
use crate::names::str_eq;
use crate::net_class::{classify_nets, NetClass};
use crate::netlist::{CheckedNetlist, PortDir, ResolvedElement};
#[allow(unused_imports)]
use crate::netlist::nets_in_range;
#[allow(unused_imports)]
use crate::pin_clash::is_drawn;
#[allow(unused_imports)]
use crate::symbol::in_reach;
use crate::symbol::Orientation;
use crate::words::list_has_word;
#[allow(unused_imports)]
use crate::words::lists_word;

verus! {

/// What is planted for a net.
#[derive(Debug, Clone, Copy, PartialEq, Eq)]
pub enum LabelKind {
    /// A plain label.
    Plain,
    /// A global label in a tag of the given shape.
    Global { shape: &'static str },
}

/// The label that a net carries.
#[derive(Debug, Clone)]
pub struct LabelPlan {
    /// The net's name.
    pub text: String,
    pub kind: LabelKind,
    /// There is only one pin that can carry the label.
    pub anchor_determined: bool,
}

/// The shape of the tag for a port direction.
pub open spec fn shape_of(dir: PortDir) -> Seq<char> {
    match dir {
        PortDir::Input => "input"@,
        PortDir::Output => "output"@,
        PortDir::Bidir => "bidirectional"@,
    }
}

/// The shape of the tag for a port direction.
pub fn port_shape_token(dir: PortDir) -> (r: &'static str)
    ensures
        r@ == shape_of(dir),
{
    match dir {
        PortDir::Input => "input",
        PortDir::Output => "output",
        PortDir::Bidir => "bidirectional",
    }
}

/// The direction that the last of the first `n` port declarations of a net
/// gives it.
pub open spec fn declared_dir(checked: &CheckedNetlist, net: int, n: int) -> Option<PortDir>
    decreases n,
{
    if n <= 0 {
        None
    } else if checked.ports@[n - 1].net == net {
        Some(checked.ports@[n - 1].dir)
    } else {
        declared_dir(checked, net, n - 1)
    }
}

/// The terminals that a drawn element has on a net.
pub open spec fn drawn_terminals(checked: &CheckedNetlist, net: int) -> spec_fn(int) -> int {
    |i: int|
        if is_drawn(checked, i) {
            occurrences(checked.elements@[i].nodes@, net) as int
        } else {
            0
        }
}

/// The drawn terminals on a net.
pub open spec fn label_terminals(checked: &CheckedNetlist, net: int) -> int {
    sum(drawn_terminals(checked, net), checked.elements@.len() as int)
}

/// The net carries a label: it is a signal net and a drawn element is on it.
/// Rails carry power glyphs instead.
pub open spec fn is_labelled(checked: &CheckedNetlist, net: int) -> bool {
    checked.class_of(net) == Some(NetClass::Signal) && label_terminals(checked, net) > 0
}

/// The shape of the net's tag, if its label is a global one: that of a declared
/// port, or an input for a net with a single terminal.
pub open spec fn tag_shape(checked: &CheckedNetlist, net: int) -> Option<Seq<char>> {
    match declared_dir(checked, net, checked.ports@.len() as int) {
        Some(dir) => Some(shape_of(dir)),
        None => if label_terminals(checked, net) == 1 {
            Some("input"@)
        } else {
            None
        },
    }
}

/// The plan is that of the net.
pub open spec fn plans_net(checked: &CheckedNetlist, net: int, plan: LabelPlan) -> bool {
    &&& plan.text@ == checked.nets@[net]@
    &&& match plan.kind {
        LabelKind::Plain => tag_shape(checked, net) is None,
        LabelKind::Global { shape } => tag_shape(checked, net) == Some(shape@),
    }
    &&& plan.anchor_determined == (label_terminals(checked, net) == 1)
}

proof fn terminals_grow(checked: &CheckedNetlist, net: int, m: int, n: int)
    requires
        0 <= m <= n,
    ensures
        0 <= sum(drawn_terminals(checked, net), m) <= sum(drawn_terminals(checked, net), n),
    decreases n,
{
    if m < n {
        terminals_grow(checked, net, m, n - 1);
    } else if m > 0 {
        terminals_grow(checked, net, m - 1, n - 1);
    }
}

/// The drawn terminals on a net, counted up to two.
fn count_terminals(checked: &CheckedNetlist, net: usize) -> (r: u8)
    ensures
        r <= 2,
        r < 2 ==> r == label_terminals(checked, net as int),
        r == 2 ==> label_terminals(checked, net as int) >= 2,
{
    let ghost f = drawn_terminals(checked, net as int);
    let mut total: u8 = 0;
    let mut i: usize = 0;
    while i < checked.elements.len()
        invariant
            f == drawn_terminals(checked, net as int),
            i <= checked.elements@.len(),
            total <= 2,
            total < 2 ==> total == sum(f, i as int),
            total == 2 ==> sum(f, i as int) >= 2,
        decreases checked.elements@.len() - i,
    {
        proof {
            terminals_grow(checked, net as int, i as int, i + 1);
        }
        if !checked.elements[i].role.power() {
            let nodes = &checked.elements[i].nodes;
            let ghost p = holds_at(nodes@, net as int);
            let ghost base = sum(f, i as int);
            let mut t: usize = 0;
            while t < nodes.len()
                invariant
                    t <= nodes@.len(),
                    p == holds_at(nodes@, net as int),
                    total <= 2,
                    base >= 0,
                    total < 2 ==> total == base + crate::counting::count(p, t as int),
                    total == 2 ==> base + crate::counting::count(p, t as int) >= 2,
                decreases nodes@.len() - t,
            {
                if nodes[t] == net && total < 2 {
                    total = total + 1;
                }
                t = t + 1;
            }
        }
        i = i + 1;
    }
    total
}

/// The direction that a net is declared with.
fn find_dir(checked: &CheckedNetlist, net: usize) -> (r: Option<PortDir>)
    ensures
        r == declared_dir(checked, net as int, checked.ports@.len() as int),
{
    let mut n: usize = checked.ports.len();
    while n > 0
        invariant
            n <= checked.ports@.len(),
            declared_dir(checked, net as int, checked.ports@.len() as int) == declared_dir(
                checked,
                net as int,
                n as int,
            ),
        decreases n,
    {
        if checked.ports[n - 1].net == net {
            return Some(checked.ports[n - 1].dir);
        }
        n = n - 1;
    }
    None
}

/// The labels of all nets, in net order; nets without a label have none.
#[must_use]
pub fn label_plans(checked: &CheckedNetlist) -> (r: Vec<Option<LabelPlan>>)
    requires
        checked.wf(),
    ensures
        r@.len() == checked.nets@.len(),
        forall|net: int|
            0 <= net < r@.len() ==> match #[trigger] r@[net] {
                Some(plan) => is_labelled(checked, net) && plans_net(checked, net, plan),
                None => !is_labelled(checked, net),
            },
{
    let classes = classify_nets(checked);
    let mut out: Vec<Option<LabelPlan>> = Vec::new();
    let mut net: usize = 0;
    while net < checked.nets.len()
        invariant
            net <= checked.nets@.len(),
            crate::net_class::classes_of(checked, &classes),
            out@.len() == net,
            forall|k: int|
                0 <= k < net ==> match #[trigger] out@[k] {
                    Some(plan) => is_labelled(checked, k) && plans_net(checked, k, plan),
                    None => !is_labelled(checked, k),
                },
        decreases checked.nets@.len() - net,
    {
        assert(classes.class@[net as int] == checked.class_of(net as int));
        let signal = match classes.class[net] {
            Some(c) => c == NetClass::Signal,
            None => false,
        };
        let terminals: u8 = count_terminals(checked, net);
        proof {
            terminals_grow(checked, net as int, 0, checked.elements@.len() as int);
        }
        if signal && terminals > 0 {
            let kind = match find_dir(checked, net) {
                Some(dir) => LabelKind::Global { shape: port_shape_token(dir) },
                None => if terminals == 1 {
                    LabelKind::Global { shape: "input" }
                } else {
                    LabelKind::Plain
                },
            };
            let text: String = checked.nets[net].clone();
            out.push(Some(LabelPlan { text, kind, anchor_determined: terminals == 1 }));
        } else {
            out.push(None);
        }
        net = net + 1;
    }
    out
}

/// The scope that narrows the reservation to labels whose anchor is determined.
pub open spec fn is_narrow(scope: Seq<char>) -> bool {
    scope == "global"@
}

/// The labels that a stage reserves room for. `reserve` is the comma-separated
/// list of the stages that reserve any; under the scope `global` only labels
/// whose anchor is determined have room reserved.
#[must_use]
pub fn plans_for(
    checked: &CheckedNetlist,
    stage: &str,
    reserve: &str,
    scope: &str,
) -> (r: Vec<Option<LabelPlan>>)
    requires
        checked.wf(),
    ensures
        r@.len() == checked.nets@.len(),
        forall|net: int|
            0 <= net < r@.len() ==> {
                let kept = lists_word(reserve@, stage@) && is_labelled(checked, net) && (!is_narrow(
                    scope@,
                ) || label_terminals(checked, net) == 1);
                match #[trigger] r@[net] {
                    Some(plan) => kept && plans_net(checked, net, plan),
                    None => !kept,
                }
            },
{
    let reserves = list_has_word(reserve, stage);
    let determined_only = str_eq(scope, "global");
    let plans = label_plans(checked);
    let mut out: Vec<Option<LabelPlan>> = Vec::new();
    let mut net: usize = 0;
    while net < plans.len()
        invariant
            net <= plans@.len(),
            plans@.len() == checked.nets@.len(),
            reserves == lists_word(reserve@, stage@),
            determined_only == is_narrow(scope@),
            forall|k: int|
                0 <= k < plans@.len() ==> match #[trigger] plans@[k] {
                    Some(plan) => is_labelled(checked, k) && plans_net(checked, k, plan),
                    None => !is_labelled(checked, k),
                },
            out@.len() == net,
            forall|k: int|
                0 <= k < net ==> {
                    let kept = reserves && is_labelled(checked, k) && (!determined_only
                        || label_terminals(checked, k) == 1);
                    match #[trigger] out@[k] {
                        Some(plan) => kept && plans_net(checked, k, plan),
                        None => !kept,
                    }
                },
        decreases plans@.len() - net,
    {
        match &plans[net] {
            Some(plan) => {
                if reserves && (!determined_only || plan.anchor_determined) {
                    let text: String = plan.text.clone();
                    out.push(
                        Some(
                            LabelPlan {
                                text,
                                kind: plan.kind,
                                anchor_determined: plan.anchor_determined,
                            },
                        ),
                    );
                } else {
                    out.push(None);
                }
            },
            None => {
                out.push(None);
            },
        }
        net = net + 1;
    }
    out
}

/// The rotation at which a label reads away from a pin of the given angle.
pub open spec fn outward_rotation(angle: int) -> int {
    (360 - angle % 360) % 360
}

/// The rotation at which a label reads away from a pin of the given angle, in
/// degrees.
#[must_use]
pub fn outward_label_rot(pin_angle: u16) -> (r: u16)
    ensures
        r == outward_rotation(pin_angle as int),
        r < 360,
{
    (360 - pin_angle % 360) % 360
}

/// The rotation is a reflection: done twice it gives the angle back, it keeps
/// sideways pins and swaps pins that point up and down.
pub proof fn outward_rotation_is_a_reflection(angle: int)
    requires
        0 <= angle,
    ensures
        outward_rotation(outward_rotation(angle)) == angle % 360,
        outward_rotation(angle) == angle % 360 <==> angle % 180 == 0,
{
}

/// Where a label is anchored on an element: the net, the sheet offset of the
/// pin's tip, and the rotation of the text.
#[derive(Debug, Clone, Copy, PartialEq, Eq, Structural)]
pub struct LabelAnchor {
    pub net: usize,
    pub x: i64,
    pub y: i64,
    pub rotation: u16,
}

/// The anchor of terminal `t`, when its net carries a label and its pin is
/// drawn.
pub open spec fn anchor_of(
    e: ResolvedElement,
    o: Orientation,
    plans: Seq<Option<LabelPlan>>,
    t: int,
) -> Option<LabelAnchor> {
    let net = e.nodes@[t];
    if plans[net as int] is None {
        None
    } else {
        match e.pin_of(o, t) {
            Some(k) => {
                let p = e.symbol.posed(o).pins@[k];
                Some(
                    LabelAnchor {
                        net,
                        x: p.x as i64,
                        y: (-p.y) as i64,
                        rotation: outward_rotation(p.angle as int) as u16,
                    },
                )
            },
            None => None,
        }
    }
}

/// The anchors of the first `n` terminals. A supply is not drawn and has none.
pub open spec fn anchors_of(
    e: ResolvedElement,
    o: Orientation,
    plans: Seq<Option<LabelPlan>>,
    n: int,
) -> Seq<LabelAnchor>
    decreases n,
{
    if n <= 0 || e.role.is_power() {
        seq![]
    } else {
        let rest = anchors_of(e, o, plans, n - 1);
        match anchor_of(e, o, plans, n - 1) {
            Some(a) => rest.push(a),
            None => rest,
        }
    }
}

/// Every place on an element where a label may be anchored, in terminal order.
#[must_use]
pub fn label_anchors(
    e: &ResolvedElement,
    o: Orientation,
    plans: &Vec<Option<LabelPlan>>,
) -> (r: Vec<LabelAnchor>)
    requires
        e.symbol.wf(),
        nets_in_range(e.nodes@, plans@.len()),
    ensures
        r@ == anchors_of(*e, o, plans@, e.nodes@.len() as int),
{
    let mut out: Vec<LabelAnchor> = Vec::new();
    if e.role.power() {
        assert(out@ =~= anchors_of(*e, o, plans@, e.nodes@.len() as int));
        return out;
    }
    assert(out@ =~= anchors_of(*e, o, plans@, 0));
    let mut t: usize = 0;
    while t < e.nodes.len()
        invariant
            t <= e.nodes@.len(),
            e.symbol.wf(),
            nets_in_range(e.nodes@, plans@.len()),
            !e.role.is_power(),
            out@ == anchors_of(*e, o, plans@, t as int),
        decreases e.nodes@.len() - t,
    {
        let net: usize = e.nodes[t];
        if plans[net].is_some() {
            match e.terminal_pin(o, t) {
                Some(k) => {
                    let pose = e.symbol.pose(o);
                    assert(in_reach(pose.pins@[k as int].y as int));
                    let p = &pose.pins[k];
                    out.push(
                        LabelAnchor {
                            net,
                            x: p.x as i64,
                            y: -(p.y as i64),
                            rotation: outward_label_rot(p.angle),
                        },
                    );
                },
                None => {},
            }
        }
        t = t + 1;
    }
    out
}

/// Two opposite corners of each label's box, in the order of the boxes.
#[must_use]
pub fn label_reach(boxes: &Vec<TextBox>) -> (r: Vec<(i64, i64)>)
    requires
        2 * boxes@.len() <= usize::MAX,
    ensures
        r@.len() == 2 * boxes@.len(),
        forall|k: int|
            0 <= k < boxes@.len() ==> r@[2 * k] == ((#[trigger] boxes@[k]).x0, boxes@[k].y0)
                && r@[2 * k + 1] == (boxes@[k].x1, boxes@[k].y1),
{
    let mut out: Vec<(i64, i64)> = Vec::new();
    let mut k: usize = 0;
    while k < boxes.len()
        invariant
            k <= boxes@.len(),
            out@.len() == 2 * k,
            forall|j: int|
                0 <= j < k ==> out@[2 * j] == ((#[trigger] boxes@[j]).x0, boxes@[j].y0) && out@[2
                    * j + 1] == (boxes@[j].x1, boxes@[j].y1),
        decreases boxes@.len() - k,
    {
        out.push((boxes[k].x0, boxes[k].y0));
        out.push((boxes[k].x1, boxes[k].y1));
        k = k + 1;
    }
    out
}

/// A label reads away from its pin: straight on at a pin that points right,
/// backwards at one that points left, upwards (90 degrees) at one that points
/// up (270 degrees) and downwards (270 degrees) at one that points down.
pub proof fn labels_read_away_from_their_pins(angle: int)
    requires
        0 <= angle,
    ensures
        angle % 360 == 0 ==> outward_rotation(angle) == 0,
        angle % 360 == 180 ==> outward_rotation(angle) == 180,
        angle % 360 == 270 ==> outward_rotation(angle) == 90,
        angle % 360 == 90 ==> outward_rotation(angle) == 270,
        (outward_rotation(angle) + angle) % 360 == 0,
{
}

/// What a label looks like. A net with a declared port has a tag that tells the
/// direction of the last declaration; one with a single drawn terminal and no
/// port has an input's tag; any other has a plain label.
pub proof fn tags_tell_the_direction(checked: &CheckedNetlist, net: int, plan: LabelPlan)
    requires
        plans_net(checked, net, plan),
    ensures
        plan.text@ == checked.nets@[net]@,
        forall|p: int|
            0 <= p < checked.ports@.len() && (#[trigger] checked.ports@[p]).net == net && (forall|
                q: int,
            |
                p < q < checked.ports@.len() ==> (#[trigger] checked.ports@[q]).net != net)
                ==> (plan.kind matches LabelKind::Global { shape } && match checked.ports@[p].dir {
                PortDir::Input => shape@ == "input"@,
                PortDir::Output => shape@ == "output"@,
                PortDir::Bidir => shape@ == "bidirectional"@,
            }),
        (forall|p: int| 0 <= p < checked.ports@.len() ==> (#[trigger] checked.ports@[p]).net != net)
            ==> if label_terminals(checked, net) == 1 {
            plan.kind matches LabelKind::Global { shape } && shape@ == "input"@
        } else {
            plan.kind is Plain
        },
{
    last_declaration_counts(checked, net, checked.ports@.len() as int);
}

proof fn last_declaration_counts(checked: &CheckedNetlist, net: int, n: int)
    requires
        0 <= n <= checked.ports@.len(),
    ensures
        match declared_dir(checked, net, n) {
            Some(dir) => exists|p: int|
                0 <= p < n && (#[trigger] checked.ports@[p]).net == net && checked.ports@[p].dir
                    == dir && forall|q: int|
                    p < q < n ==> (#[trigger] checked.ports@[q]).net != net,
            None => forall|p: int| 0 <= p < n ==> (#[trigger] checked.ports@[p]).net != net,
        },
    decreases n,
{
    if n > 0 {
        last_declaration_counts(checked, net, n - 1);
        if checked.ports@[n - 1].net == net {
            assert(checked.ports@[n - 1].net == net);
        } else if declared_dir(checked, net, n - 1) is Some {
            let dir = declared_dir(checked, net, n - 1)->0;
            let p = choose|p: int|
                0 <= p < n - 1 && (#[trigger] checked.ports@[p]).net == net && checked.ports@[p].dir
                    == dir && forall|q: int|
                    p < q < n - 1 ==> (#[trigger] checked.ports@[q]).net != net;
            assert(checked.ports@[p].net == net);
        }
    }
}

/// A net carries a label exactly when it is a signal net and a drawn element
/// has a terminal on it.
pub proof fn drawn_signals_are_labelled(checked: &CheckedNetlist, net: int)
    ensures
        is_labelled(checked, net) <==> checked.class_of(net) == Some(NetClass::Signal) && exists|
            i: int,
        |
            0 <= i < checked.elements@.len() && checked.elements@[i].role is Normal
                && #[trigger] checked.touches(i, net),
{
    let n = checked.elements@.len() as int;
    let f = drawn_terminals(checked, net);
    assert forall|i: int| 0 <= i < n implies (#[trigger] f(i) > 0 <==> checked.elements@[i].role is
        Normal && checked.touches(i, net)) && f(i) >= 0 by {
        let nodes = checked.elements@[i].nodes@;
        let p = crate::layering::holds_at(nodes, net);
        if checked.touches(i, net) {
            let k = choose|k: int| 0 <= k < nodes.len() && #[trigger] nodes[k] == net;
            crate::counting::count_positive(p, nodes.len() as int, k);
        }
        if crate::layering::occurrences(nodes, net) > 0 {
            let k = crate::counting::count_witness(p, nodes.len() as int);
            assert(nodes[k] == net);
        }
    }
    crate::counting::sum_zero_iff(f, n);
    terminals_grow(checked, net, 0, n);
    if exists|i: int|
        0 <= i < n && checked.elements@[i].role is Normal && #[trigger] checked.touches(i, net) {
        let i = choose|i: int|
            0 <= i < n && checked.elements@[i].role is Normal && #[trigger] checked.touches(i, net);
        assert(f(i) > 0);
    }
    if label_terminals(checked, net) > 0 {
        let i = choose|i: int| 0 <= i < n && #[trigger] f(i) != 0;
        assert(checked.touches(i, net));
    }
}

/// The label of a terminal is anchored at its pin, at the pin's X and at its Y
/// counted downward, and only terminals on nets with a planned label have one.
pub proof fn labels_are_anchored_at_pins(
    e: ResolvedElement,
    o: Orientation,
    plans: Seq<Option<LabelPlan>>,
    t: int,
    k: int,
)
    requires
        e.symbol.wf(),
        e.pin_of(o, t) == Some(k),
        0 <= t < e.nodes@.len(),
    ensures
        match anchor_of(e, o, plans, t) {
            Some(a) => {
                let pin = e.symbol.posed(o).pins@[k];
                &&& plans[e.nodes@[t] as int] is Some
                &&& a.net == e.nodes@[t]
                &&& a.x == pin.x
                &&& a.y + pin.y == 0
                &&& (a.rotation + pin.angle) % 360 == 0
            },
            None => plans[e.nodes@[t] as int] is None,
        },
{
}

/// The scope named `global`, and no other, narrows the reservation.
pub proof fn only_the_global_scope_narrows(a: Seq<char>, b: Seq<char>)
    ensures
        is_narrow(a) && is_narrow(b) ==> a == b,
        a == "global"@ ==> is_narrow(a),
{
}

} // verus!
