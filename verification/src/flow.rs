//! Signal-flow direction.
//!
//! The nodes are signal nets. Active devices contribute edges in the direction
//! of their current and control paths; passives are oriented from driven nets
//! to control nets, or else along the distance from the circuit's inputs.
//! Edges that run backward in a greedy order of the nets are marked as
//! feedback and keep their direction.

use vstd::prelude::*;

use crate::distance::bfs_distances;
#[allow(unused_imports)]
use crate::distance::{
    distance_unique, distances, distances_are_short, distances_are_shortest_walks, is_distance,
    reached, reached_by_walks, reached_has_a_distance, walks_to,
};
use crate::layers::{boundary_net_role, single_terminal};
#[allow(unused_imports)]
use crate::layers::{boundary_role, signal_source_at, terminals};
use crate::net_class::{element_touches, NetClass, NetClassMap};
use crate::netlist::{CheckedNetlist, ElementKind, PortDir, ResolvedElement};
#[allow(unused_imports)]
use crate::netlist::nets_in_range;
use crate::ordering::{greedy_fas_sequence, ready_sequence};
#[allow(unused_imports)]
use crate::ordering::{
    all_arcs, backward_arcs, greedy_order, greedy_order_lists, half_run_forward, has_loop,
    is_relation, lists_exactly, only_loops_run_backward, ready_order, ready_order_lists,
    ready_order_respects, rows, where_list, where_list_contains, where_list_sorted,
};
use crate::signal_graph::signal_net;
#[allow(unused_imports)]
use crate::signal_graph::is_signal;
#[allow(unused_imports)]
use crate::tarjan::{graph_wf, has_edge, lists};

verus! {

/// Whether an edge is a device's own path or an oriented passive.
#[derive(Debug, Clone, Copy, PartialEq, Eq, Structural)]
pub enum EdgeKind {
    /// A fixed active-device edge.
    Device,
    /// A passive whose direction was imposed.
    Passive,
}

/// One directed edge of the signal-flow graph.
#[derive(Debug, Clone, Copy, PartialEq, Eq, Structural)]
pub struct FlowEdge {
    /// The element that carries the edge.
    pub element: usize,
    /// Upstream net.
    pub from: usize,
    /// Downstream net.
    pub to: usize,
    pub kind: EdgeKind,
    /// The edge is a feedback arc. It is marked, not reversed.
    pub feedback: bool,
}

/// The directed signal-flow graph.
#[derive(Debug)]
pub struct SignalFlow {
    /// All edges, sorted by `(from, to, element)`.
    pub edges: Vec<FlowEdge>,
    /// The signal nets that elements touch, in order.
    pub signal_nets: Vec<usize>,
    /// A topological order of the signal nets with feedback edges left out.
    /// Nets without forward edges come last, in order.
    pub net_order: Vec<usize>,
}

// ---------------------------------------------------------------------------
// What an element contributes
// ---------------------------------------------------------------------------

/// The control and current paths of an active device, by terminal.
pub open spec fn device_paths(e: ResolvedElement) -> Seq<(usize, usize)> {
    let n = e.nodes@;
    match e.kind {
        ElementKind::Bjt | ElementKind::Mosfet | ElementKind::Jfet => if n.len() >= 3 {
            seq![(n[1], n[0]), (n[0], n[2])]
        } else {
            Seq::empty()
        },
        ElementKind::Diode => if n.len() >= 2 {
            seq![(n[0], n[1])]
        } else {
            Seq::empty()
        },
        ElementKind::Vcvs | ElementKind::Vccs => if n.len() >= 3 {
            seq![(n[2], n[0])]
        } else {
            Seq::empty()
        },
        ElementKind::VoltageSrc | ElementKind::CurrentSrc => if !e.role.is_power() && n.len() >= 2 {
            seq![(n[0], n[1])]
        } else {
            Seq::empty()
        },
        _ => Seq::empty(),
    }
}

/// The nets a device drives.
pub open spec fn driven_nets(e: ResolvedElement) -> Seq<usize> {
    let n = e.nodes@;
    match e.kind {
        ElementKind::Bjt | ElementKind::Mosfet | ElementKind::Jfet => if n.len() >= 3 {
            seq![n[0], n[2]]
        } else {
            Seq::empty()
        },
        ElementKind::Diode => if n.len() >= 2 {
            seq![n[1]]
        } else {
            Seq::empty()
        },
        ElementKind::Vcvs | ElementKind::Vccs => if n.len() >= 3 {
            seq![n[0]]
        } else {
            Seq::empty()
        },
        ElementKind::VoltageSrc | ElementKind::CurrentSrc => if !e.role.is_power() && n.len() >= 2 {
            seq![n[0]]
        } else {
            Seq::empty()
        },
        _ => Seq::empty(),
    }
}

/// The nets a device is controlled by.
pub open spec fn control_nets(e: ResolvedElement) -> Seq<usize> {
    let n = e.nodes@;
    match e.kind {
        ElementKind::Bjt | ElementKind::Mosfet | ElementKind::Jfet => if n.len() >= 3 {
            seq![n[1]]
        } else {
            Seq::empty()
        },
        ElementKind::Vcvs | ElementKind::Vccs => if n.len() >= 4 {
            seq![n[2], n[3]]
        } else if n.len() == 3 {
            seq![n[2]]
        } else {
            Seq::empty()
        },
        _ => Seq::empty(),
    }
}

/// The two nets that a passive bridges.
pub open spec fn bridged_nets(e: ResolvedElement) -> Option<(usize, usize)> {
    match e.kind {
        ElementKind::Resistor | ElementKind::Capacitor | ElementKind::Inductor => if e.nodes@.len()
            >= 2 {
            Some((e.nodes@[0], e.nodes@[1]))
        } else {
            None
        },
        _ => None,
    }
}

/// Two different signal nets.
pub open spec fn live(classes: Seq<Option<NetClass>>, a: int, b: int) -> bool {
    a != b && is_signal(classes[a]) && is_signal(classes[b])
}

/// Element `i` is a device with a path from `a` to `b`.
pub open spec fn device_edge(
    checked: &CheckedNetlist,
    classes: Seq<Option<NetClass>>,
    i: int,
    a: usize,
    b: usize,
) -> bool {
    &&& 0 <= i < checked.elements@.len()
    &&& device_paths(checked.elements@[i]).contains((a, b))
    &&& live(classes, a as int, b as int)
}

/// Element `i` is a passive that bridges `a` and `b`.
pub open spec fn passive_pair(
    checked: &CheckedNetlist,
    classes: Seq<Option<NetClass>>,
    i: int,
    a: usize,
    b: usize,
) -> bool {
    &&& 0 <= i < checked.elements@.len()
    &&& bridged_nets(checked.elements@[i]) == Some((a, b))
    &&& live(classes, a as int, b as int)
}

/// Some device drives the net.
pub open spec fn is_driver(checked: &CheckedNetlist, net: usize) -> bool {
    exists|i: int|
        0 <= i < checked.elements@.len() && driven_nets(#[trigger] checked.elements@[i]).contains(
            net,
        )
}

/// Some device is controlled by the net.
pub open spec fn is_control(checked: &CheckedNetlist, net: usize) -> bool {
    exists|i: int|
        0 <= i < checked.elements@.len() && control_nets(#[trigger] checked.elements@[i]).contains(
            net,
        )
}

/// A signal net that an element touches.
pub open spec fn is_flow_net(
    checked: &CheckedNetlist,
    classes: Seq<Option<NetClass>>,
    net: int,
) -> bool {
    is_signal(classes[net]) && checked.touched(net)
}

/// The net is an input of the circuit: it carries a declared input, is the
/// positive terminal of a drawn source, or has one terminal and an input name.
pub open spec fn is_seed(
    checked: &CheckedNetlist,
    classes: Seq<Option<NetClass>>,
    net: int,
) -> bool {
    &&& is_flow_net(checked, classes, net)
    &&& {
        ||| exists|p: int|
            0 <= p < checked.ports@.len() && (#[trigger] checked.ports@[p]).net == net
                && checked.ports@[p].dir == PortDir::Input
        ||| exists|i: int|
            0 <= i < checked.elements@.len() && #[trigger] signal_source_at(checked, i)
                && checked.elements@[i].nodes@.len() > 0 && checked.elements@[i].nodes@[0] == net
        ||| terminals(checked, net) == 1 && boundary_role(checked.nets@[net]@) == Some(
            PortDir::Input,
        )
    }
}

/// Some net is an input of the circuit.
pub open spec fn has_seed(checked: &CheckedNetlist, classes: Seq<Option<NetClass>>) -> bool {
    exists|net: int| 0 <= net < checked.nets@.len() && #[trigger] is_seed(checked, classes, net)
}

/// The nets that distances start from: the inputs, or the first signal net
/// where there are none.
pub open spec fn flow_roots(checked: &CheckedNetlist, classes: Seq<Option<NetClass>>) -> Seq<bool> {
    Seq::new(
        checked.nets@.len(),
        |net: int|
            if has_seed(checked, classes) {
                is_seed(checked, classes, net)
            } else {
                is_flow_net(checked, classes, net) && forall|m: int|
                    0 <= m < net ==> !#[trigger] is_flow_net(checked, classes, m)
            },
    )
}

/// Some element joins the two nets, in either direction.
pub open spec fn nets_joined(
    checked: &CheckedNetlist,
    classes: Seq<Option<NetClass>>,
    a: usize,
    b: usize,
) -> bool {
    exists|i: int|
        {
            ||| #[trigger] device_edge(checked, classes, i, a, b)
            ||| device_edge(checked, classes, i, b, a)
            ||| passive_pair(checked, classes, i, a, b)
            ||| passive_pair(checked, classes, i, b, a)
        }
}

/// The undirected graph of nets.
pub open spec fn net_graph(checked: &CheckedNetlist, classes: Seq<Option<NetClass>>) -> Seq<
    Seq<usize>,
> {
    Seq::new(
        checked.nets@.len(),
        |a: int| where_list(joined_to(checked, classes, a as usize), checked.nets@.len() as int),
    )
}

/// The nets joined to `a`.
pub open spec fn joined_to(
    checked: &CheckedNetlist,
    classes: Seq<Option<NetClass>>,
    a: usize,
) -> spec_fn(int) -> bool {
    |b: int| nets_joined(checked, classes, a, b as usize)
}

/// The distance of a net from the roots, or the largest number where none
/// reaches it.
pub open spec fn flow_rank(
    checked: &CheckedNetlist,
    classes: Seq<Option<NetClass>>,
    net: int,
) -> int {
    let g = net_graph(checked, classes);
    let roots = flow_roots(checked, classes);
    if reached(g, roots, net) {
        (choose|d: nat| is_distance(g, roots, net, d)) as int
    } else {
        u32::MAX as int
    }
}

/// A passive between `a` and `b` points from `a` to `b`: `a` is only driven and
/// `b` only controls, or else neither way round is so and `a` is nearer the
/// roots, with the earlier name first where both are as near.
pub open spec fn points_forward(
    checked: &CheckedNetlist,
    classes: Seq<Option<NetClass>>,
    a: usize,
    b: usize,
) -> bool {
    let a_drv = is_driver(checked, a) && !is_control(checked, a);
    let a_ctl = is_control(checked, a) && !is_driver(checked, a);
    let b_drv = is_driver(checked, b) && !is_control(checked, b);
    let b_ctl = is_control(checked, b) && !is_driver(checked, b);
    let ra = flow_rank(checked, classes, a as int);
    let rb = flow_rank(checked, classes, b as int);
    if a_drv && b_ctl {
        true
    } else if b_drv && a_ctl {
        false
    } else {
        ra < rb || ra == rb && a <= b
    }
}

/// Element `i` contributes an edge from `a` to `b`.
pub open spec fn contributes(
    checked: &CheckedNetlist,
    classes: Seq<Option<NetClass>>,
    i: int,
    a: usize,
    b: usize,
    kind: EdgeKind,
) -> bool {
    match kind {
        EdgeKind::Device => device_edge(checked, classes, i, a, b),
        EdgeKind::Passive => {
            ||| passive_pair(checked, classes, i, a, b) && points_forward(checked, classes, a, b)
            ||| passive_pair(checked, classes, i, b, a) && !points_forward(checked, classes, b, a)
        },
    }
}

/// Some element contributes an edge from `a` to `b`.
pub open spec fn flows(
    checked: &CheckedNetlist,
    classes: Seq<Option<NetClass>>,
    a: usize,
    b: usize,
) -> bool {
    exists|i: int, kind: EdgeKind| #[trigger] contributes(checked, classes, i, a, b, kind)
}

/// The relation of [`flows`].
pub open spec fn flow_relation(checked: &CheckedNetlist, classes: Seq<Option<NetClass>>) -> Seq<
    Seq<bool>,
> {
    let n = checked.nets@.len();
    Seq::new(n, |a: int| Seq::new(n, |b: int| flows(checked, classes, a as usize, b as usize)))
}

/// The signal nets as flags.
pub open spec fn flow_nets(checked: &CheckedNetlist, classes: Seq<Option<NetClass>>) -> Seq<bool> {
    Seq::new(checked.nets@.len(), |net: int| is_flow_net(checked, classes, net))
}

/// The greedy order of the signal nets.
pub open spec fn flow_sequence(checked: &CheckedNetlist, classes: Seq<Option<NetClass>>) -> Seq<
    usize,
> {
    greedy_order(flow_relation(checked, classes), flow_nets(checked, classes), 0)
}

/// The position of a net in the greedy order.
pub open spec fn flow_position(
    checked: &CheckedNetlist,
    classes: Seq<Option<NetClass>>,
    net: usize,
) -> int {
    flow_sequence(checked, classes).index_of(net)
}

/// Edges from `a` to `b` run backward in the greedy order.
pub open spec fn runs_backward(
    checked: &CheckedNetlist,
    classes: Seq<Option<NetClass>>,
    a: usize,
    b: usize,
) -> bool {
    flow_position(checked, classes, a) > flow_position(checked, classes, b)
}

/// A forward edge leads from `a` to `b`.
pub open spec fn flows_forward(
    checked: &CheckedNetlist,
    classes: Seq<Option<NetClass>>,
    a: usize,
    b: usize,
) -> bool {
    flows(checked, classes, a, b) && !runs_backward(checked, classes, a, b)
}

/// The relation of [`flows_forward`].
pub open spec fn forward_relation(checked: &CheckedNetlist, classes: Seq<Option<NetClass>>) -> Seq<
    Seq<bool>,
> {
    let n = checked.nets@.len();
    Seq::new(
        n,
        |a: int| Seq::new(n, |b: int| flows_forward(checked, classes, a as usize, b as usize)),
    )
}

/// A forward edge joins the two nets.
pub open spec fn joined_forward(
    checked: &CheckedNetlist,
    classes: Seq<Option<NetClass>>,
    a: usize,
    b: usize,
) -> bool {
    flows_forward(checked, classes, a, b) || flows_forward(checked, classes, b, a)
}

/// The net has a forward edge.
pub open spec fn has_forward(
    checked: &CheckedNetlist,
    classes: Seq<Option<NetClass>>,
    net: usize,
) -> bool {
    exists|m: int|
        0 <= m < checked.nets@.len() && #[trigger] joined_forward(
            checked,
            classes,
            net,
            m as usize,
        )
}

/// The signal nets with a forward edge, as flags.
pub open spec fn forward_nets(checked: &CheckedNetlist, classes: Seq<Option<NetClass>>) -> Seq<
    bool,
> {
    Seq::new(
        checked.nets@.len(),
        |net: int|
            is_flow_net(checked, classes, net) && has_forward(checked, classes, net as usize),
    )
}

/// The signal nets without a forward edge.
pub open spec fn idle_net(
    checked: &CheckedNetlist,
    classes: Seq<Option<NetClass>>,
) -> spec_fn(int) -> bool {
    |net: int|
        is_flow_net(checked, classes, net) && !has_forward(checked, classes, net as usize)
}

/// The signal nets.
pub open spec fn flow_net(
    checked: &CheckedNetlist,
    classes: Seq<Option<NetClass>>,
) -> spec_fn(int) -> bool {
    |net: int| is_flow_net(checked, classes, net)
}

/// `x` sorts before `y` by source, target and element.
pub open spec fn edge_before(x: FlowEdge, y: FlowEdge) -> bool {
    x.from < y.from || x.from == y.from && (x.to < y.to || x.to == y.to && x.element < y.element)
}

/// The edge belongs to the graph, marked if it runs backward.
pub open spec fn is_flow_edge(
    checked: &CheckedNetlist,
    classes: Seq<Option<NetClass>>,
    e: FlowEdge,
) -> bool {
    &&& contributes(checked, classes, e.element as int, e.from, e.to, e.kind)
    &&& e.feedback == runs_backward(checked, classes, e.from, e.to)
}

/// The signal-flow graph of a netlist.
pub open spec fn flow_of(
    checked: &CheckedNetlist,
    classes: Seq<Option<NetClass>>,
    r: SignalFlow,
) -> bool {
    let n = checked.nets@.len() as int;
    &&& forall|x: int, y: int|
        0 <= x < y < r.edges@.len() ==> edge_before(#[trigger] r.edges@[x], #[trigger] r.edges@[y])
    &&& forall|e: FlowEdge| #[trigger] r.edges@.contains(e) <==> is_flow_edge(checked, classes, e)
    &&& r.signal_nets@ == where_list(flow_net(checked, classes), n)
    &&& r.net_order@ == ready_order(
        forward_relation(checked, classes),
        forward_nets(checked, classes),
    ) + where_list(idle_net(checked, classes), n)
}

// ---------------------------------------------------------------------------
// Executable contributions
// ---------------------------------------------------------------------------

/// The control and current paths of an active device.
fn paths_of(e: &ResolvedElement) -> (r: Vec<(usize, usize)>)
    ensures
        r@ == device_paths(*e),
{
    let n = &e.nodes;
    let mut r: Vec<(usize, usize)> = Vec::new();
    match e.kind {
        ElementKind::Bjt | ElementKind::Mosfet | ElementKind::Jfet => {
            if n.len() >= 3 {
                r.push((n[1], n[0]));
                r.push((n[0], n[2]));
            }
        },
        ElementKind::Diode => {
            if n.len() >= 2 {
                r.push((n[0], n[1]));
            }
        },
        ElementKind::Vcvs | ElementKind::Vccs => {
            if n.len() >= 3 {
                r.push((n[2], n[0]));
            }
        },
        ElementKind::VoltageSrc | ElementKind::CurrentSrc => {
            if !e.role.power() && n.len() >= 2 {
                r.push((n[0], n[1]));
            }
        },
        _ => {},
    }
    assert(r@ =~= device_paths(*e));
    r
}

fn driven_by(e: &ResolvedElement) -> (r: Vec<usize>)
    ensures
        r@ == driven_nets(*e),
{
    let n = &e.nodes;
    let mut r: Vec<usize> = Vec::new();
    match e.kind {
        ElementKind::Bjt | ElementKind::Mosfet | ElementKind::Jfet => {
            if n.len() >= 3 {
                r.push(n[0]);
                r.push(n[2]);
            }
        },
        ElementKind::Diode => {
            if n.len() >= 2 {
                r.push(n[1]);
            }
        },
        ElementKind::Vcvs | ElementKind::Vccs => {
            if n.len() >= 3 {
                r.push(n[0]);
            }
        },
        ElementKind::VoltageSrc | ElementKind::CurrentSrc => {
            if !e.role.power() && n.len() >= 2 {
                r.push(n[0]);
            }
        },
        _ => {},
    }
    assert(r@ =~= driven_nets(*e));
    r
}

fn controls_of(e: &ResolvedElement) -> (r: Vec<usize>)
    ensures
        r@ == control_nets(*e),
{
    let n = &e.nodes;
    let mut r: Vec<usize> = Vec::new();
    match e.kind {
        ElementKind::Bjt | ElementKind::Mosfet | ElementKind::Jfet => {
            if n.len() >= 3 {
                r.push(n[1]);
            }
        },
        ElementKind::Vcvs | ElementKind::Vccs => {
            if n.len() >= 3 {
                r.push(n[2]);
                if n.len() >= 4 {
                    r.push(n[3]);
                }
            }
        },
        _ => {},
    }
    assert(r@ =~= control_nets(*e));
    r
}

fn bridge_of(e: &ResolvedElement) -> (r: Option<(usize, usize)>)
    ensures
        r == bridged_nets(*e),
{
    match e.kind {
        ElementKind::Resistor | ElementKind::Capacitor | ElementKind::Inductor => {
            if e.nodes.len() >= 2 {
                Some((e.nodes[0], e.nodes[1]))
            } else {
                None
            }
        },
        _ => None,
    }
}

proof fn paths_in_range(checked: &CheckedNetlist, i: int)
    requires
        checked.wf(),
        0 <= i < checked.elements@.len(),
    ensures
        forall|k: int|
            0 <= k < device_paths(checked.elements@[i]).len() ==> {
                let (a, b) = #[trigger] device_paths(checked.elements@[i])[k];
                a < checked.nets@.len() && b < checked.nets@.len()
            },
        forall|k: int|
            0 <= k < driven_nets(checked.elements@[i]).len() ==> (
            #[trigger] driven_nets(checked.elements@[i])[k]) < checked.nets@.len(),
        forall|k: int|
            0 <= k < control_nets(checked.elements@[i]).len() ==> (
            #[trigger] control_nets(checked.elements@[i])[k]) < checked.nets@.len(),
        bridged_nets(checked.elements@[i]) matches Some((a, b)) ==> a < checked.nets@.len() && b
            < checked.nets@.len(),
{
    assert(nets_in_range(checked.elements@[i].nodes@, checked.nets@.len()));
}

fn live_pair(classes: &NetClassMap, a: usize, b: usize) -> (r: bool)
    requires
        a < classes.class@.len(),
        b < classes.class@.len(),
    ensures
        r == live(classes.class@, a as int, b as int),
{
    a != b && signal_net(classes, a) && signal_net(classes, b)
}

/// The live device edges and passive pairs, with their elements.
struct Contributions {
    device: Vec<(usize, usize, usize)>,
    passive: Vec<(usize, usize, usize)>,
}

spec fn device_listed(
    checked: &CheckedNetlist,
    classes: Seq<Option<NetClass>>,
    list: Seq<(usize, usize, usize)>,
) -> bool {
    forall|i: usize, a: usize, b: usize|
        #[trigger] list.contains((i, a, b)) <==> device_edge(checked, classes, i as int, a, b)
}

spec fn passive_listed(
    checked: &CheckedNetlist,
    classes: Seq<Option<NetClass>>,
    list: Seq<(usize, usize, usize)>,
) -> bool {
    forall|i: usize, a: usize, b: usize|
        #[trigger] list.contains((i, a, b)) <==> passive_pair(checked, classes, i as int, a, b)
}

proof fn push_contains<T>(s: Seq<T>, x: T, y: T)
    ensures
        s.push(x).contains(y) <==> s.contains(y) || y == x,
{
    if s.contains(y) {
        let i = choose|i: int| 0 <= i < s.len() && s[i] == y;
        assert(s.push(x)[i] == y);
    }
    assert(s.push(x)[s.len() as int] == x);
    if s.push(x).contains(y) {
        let i = choose|i: int| 0 <= i < s.push(x).len() && s.push(x)[i] == y;
        if i < s.len() {
            assert(s[i] == y);
        }
    }
}

fn gather(checked: &CheckedNetlist, classes: &NetClassMap) -> (r: Contributions)
    requires
        checked.wf(),
        classes.class@.len() == checked.nets@.len(),
    ensures
        device_listed(checked, classes.class@, r.device@),
        passive_listed(checked, classes.class@, r.passive@),
        forall|k: int|
            0 <= k < r.device@.len() ==> {
                let (i, a, b) = #[trigger] r.device@[k];
                a < checked.nets@.len() && b < checked.nets@.len()
            },
        forall|k: int|
            0 <= k < r.passive@.len() ==> {
                let (i, a, b) = #[trigger] r.passive@[k];
                a < checked.nets@.len() && b < checked.nets@.len()
            },
{
    let ghost cl = classes.class@;
    let mut device: Vec<(usize, usize, usize)> = Vec::new();
    let mut passive: Vec<(usize, usize, usize)> = Vec::new();
    let mut i: usize = 0;
    while i < checked.elements.len()
        invariant
            checked.wf(),
            cl == classes.class@,
            cl.len() == checked.nets@.len(),
            i <= checked.elements@.len(),
            forall|j: usize, a: usize, b: usize|
                #[trigger] device@.contains((j, a, b)) <==> j < i && device_edge(
                    checked,
                    cl,
                    j as int,
                    a,
                    b,
                ),
            forall|j: usize, a: usize, b: usize|
                #[trigger] passive@.contains((j, a, b)) <==> j < i && passive_pair(
                    checked,
                    cl,
                    j as int,
                    a,
                    b,
                ),
            forall|k: int|
                0 <= k < device@.len() ==> {
                    let (i, a, b) = #[trigger] device@[k];
                    a < checked.nets@.len() && b < checked.nets@.len()
                },
            forall|k: int|
                0 <= k < passive@.len() ==> {
                    let (i, a, b) = #[trigger] passive@[k];
                    a < checked.nets@.len() && b < checked.nets@.len()
                },
        decreases checked.elements@.len() - i,
    {
        let e = &checked.elements[i];
        proof {
            paths_in_range(checked, i as int);
        }
        let paths: Vec<(usize, usize)> = paths_of(e);
        let ghost all = paths@;
        let mut k: usize = 0;
        while k < paths.len()
            invariant
                checked.wf(),
                cl == classes.class@,
                cl.len() == checked.nets@.len(),
                i < checked.elements@.len(),
                paths@ == all,
                all == device_paths(checked.elements@[i as int]),
                forall|k: int|
                    0 <= k < all.len() ==> {
                        let (a, b) = #[trigger] all[k];
                        a < checked.nets@.len() && b < checked.nets@.len()
                    },
                k <= all.len(),
                forall|j: usize, a: usize, b: usize|
                    #[trigger] device@.contains((j, a, b)) <==> (j < i && device_edge(
                        checked,
                        cl,
                        j as int,
                        a,
                        b,
                    )) || (j == i && all.take(k as int).contains((a, b)) && live(
                        cl,
                        a as int,
                        b as int,
                    )),
                forall|k: int|
                    0 <= k < device@.len() ==> {
                        let (i, a, b) = #[trigger] device@[k];
                        a < checked.nets@.len() && b < checked.nets@.len()
                    },
            decreases all.len() - k,
        {
            let (a, b): (usize, usize) = paths[k];
            let ghost before = device@;
            assert(all[k as int] == (a, b));
            if live_pair(classes, a, b) {
                device.push((i, a, b));
            }
            proof {
                assert(all.take(k + 1) =~= all.take(k as int).push((a, b)));
                assert forall|j: usize, x: usize, y: usize|
                    #[trigger] device@.contains((j, x, y)) <==> (j < i && device_edge(
                        checked,
                        cl,
                        j as int,
                        x,
                        y,
                    )) || (j == i && all.take(k + 1).contains((x, y)) && live(
                        cl,
                        x as int,
                        y as int,
                    )) by {
                    push_contains(before, (i, a, b), (j, x, y));
                    push_contains(all.take(k as int), (a, b), (x, y));
                    assert(before.contains((j, x, y)) <==> (j < i && device_edge(
                        checked,
                        cl,
                        j as int,
                        x,
                        y,
                    )) || (j == i && all.take(k as int).contains((x, y)) && live(
                        cl,
                        x as int,
                        y as int,
                    )));
                }
            }
            k = k + 1;
        }
        assert(all.take(all.len() as int) =~= all);
        let ghost before = passive@;
        let bridge: Option<(usize, usize)> = bridge_of(e);
        match bridge {
            Some((a, b)) => {
                if live_pair(classes, a, b) {
                    passive.push((i, a, b));
                    proof {
                        assert forall|j: usize, x: usize, y: usize|
                            #[trigger] passive@.contains((j, x, y)) <==> j < i + 1
                                && passive_pair(checked, cl, j as int, x, y) by {
                            push_contains(before, (i, a, b), (j, x, y));
                            assert(before.contains((j, x, y)) <==> j < i && passive_pair(
                                checked,
                                cl,
                                j as int,
                                x,
                                y,
                            ));
                        }
                    }
                } else {
                    assert(!passive_pair(checked, cl, i as int, a, b));
                }
            },
            None => {},
        }
        i = i + 1;
    }
    Contributions { device, passive }
}

/// Flags the nets that devices drive, and those they are controlled by.
fn mark_roles(checked: &CheckedNetlist) -> (r: (Vec<bool>, Vec<bool>))
    requires
        checked.wf(),
    ensures
        r.0@.len() == checked.nets@.len(),
        r.1@.len() == checked.nets@.len(),
        forall|net: int|
            0 <= net < checked.nets@.len() ==> #[trigger] r.0@[net] == is_driver(
                checked,
                net as usize,
            ),
        forall|net: int|
            0 <= net < checked.nets@.len() ==> #[trigger] r.1@[net] == is_control(
                checked,
                net as usize,
            ),
{
    let n: usize = checked.nets.len();
    let mut driver: Vec<bool> = Vec::new();
    let mut control: Vec<bool> = Vec::new();
    let mut net: usize = 0;
    while net < n
        invariant
            n == checked.nets@.len(),
            net <= n,
            driver@.len() == net,
            control@.len() == net,
            forall|m: int| 0 <= m < net ==> #[trigger] driver@[m] == is_driver(checked, m as usize),
            forall|m: int|
                0 <= m < net ==> #[trigger] control@[m] == is_control(checked, m as usize),
        decreases n - net,
    {
        let mut d = false;
        let mut c = false;
        let mut i: usize = 0;
        while i < checked.elements.len()
            invariant
                i <= checked.elements@.len(),
                d == exists|j: int|
                    0 <= j < i && driven_nets(#[trigger] checked.elements@[j]).contains(net),
                c == exists|j: int|
                    0 <= j < i && control_nets(#[trigger] checked.elements@[j]).contains(net),
            decreases checked.elements@.len() - i,
        {
            let e = &checked.elements[i];
            let drives: Vec<usize> = driven_by(e);
            let ctrls: Vec<usize> = controls_of(e);
            assert(*e == checked.elements@[i as int]);
            if crate::cycles::list_contains(&drives, net) {
                d = true;
            }
            if crate::cycles::list_contains(&ctrls, net) {
                c = true;
            }
            i = i + 1;
        }
        driver.push(d);
        control.push(c);
        net = net + 1;
    }
    (driver, control)
}

fn net_touched(checked: &CheckedNetlist, net: usize) -> (r: bool)
    ensures
        r == checked.touched(net as int),
{
    let mut i: usize = 0;
    while i < checked.elements.len()
        invariant
            i <= checked.elements@.len(),
            forall|j: int| 0 <= j < i ==> !#[trigger] checked.touches(j, net as int),
        decreases checked.elements@.len() - i,
    {
        if element_touches(checked, i, net) {
            return true;
        }
        i = i + 1;
    }
    false
}

/// Flags the signal nets that elements touch.
fn mark_flow_nets(checked: &CheckedNetlist, classes: &NetClassMap) -> (r: Vec<bool>)
    requires
        classes.class@.len() == checked.nets@.len(),
    ensures
        r@ == flow_nets(checked, classes.class@),
{
    let mut r: Vec<bool> = Vec::new();
    let mut net: usize = 0;
    while net < checked.nets.len()
        invariant
            classes.class@.len() == checked.nets@.len(),
            net <= checked.nets@.len(),
            r@ == Seq::new(net as nat, |m: int| is_flow_net(checked, classes.class@, m)),
        decreases checked.nets@.len() - net,
    {
        let flag = signal_net(classes, net) && net_touched(checked, net);
        r.push(flag);
        assert(r@ =~= Seq::new((net + 1) as nat, |m: int| is_flow_net(checked, classes.class@, m)));
        net = net + 1;
    }
    r
}

/// Whether a net is an input of the circuit.
fn seed_net(checked: &CheckedNetlist, classes: &NetClassMap, flow: &Vec<bool>, net: usize) -> (r: bool)
    requires
        classes.class@.len() == checked.nets@.len(),
        flow@ == flow_nets(checked, classes.class@),
        net < checked.nets@.len(),
    ensures
        r == is_seed(checked, classes.class@, net as int),
{
    assert(flow@[net as int] == is_flow_net(checked, classes.class@, net as int));
    if !flow[net] {
        return false;
    }
    let mut p: usize = 0;
    while p < checked.ports.len()
        invariant
            is_flow_net(checked, classes.class@, net as int),
            p <= checked.ports@.len(),
            forall|q: int|
                0 <= q < p ==> !((#[trigger] checked.ports@[q]).net == net && checked.ports@[q].dir
                    == PortDir::Input),
        decreases checked.ports@.len() - p,
    {
        if checked.ports[p].net == net && checked.ports[p].dir == PortDir::Input {
            assert(checked.ports@[p as int].net == net);
            return true;
        }
        p = p + 1;
    }
    let mut i: usize = 0;
    while i < checked.elements.len()
        invariant
            is_flow_net(checked, classes.class@, net as int),
            i <= checked.elements@.len(),
            forall|j: int|
                0 <= j < i ==> !(#[trigger] signal_source_at(checked, j)
                    && checked.elements@[j].nodes@.len() > 0 && checked.elements@[j].nodes@[0]
                    == net),
        decreases checked.elements@.len() - i,
    {
        let source = crate::layers::is_signal_source(checked, i);
        let nodes = &checked.elements[i].nodes;
        if source && nodes.len() > 0 && nodes[0] == net {
            assert(signal_source_at(checked, i as int));
            return true;
        }
        i = i + 1;
    }
    let named = match boundary_net_role(checked.nets[net].as_str()) {
        Some(d) => d == PortDir::Input,
        None => false,
    };
    named && single_terminal(checked, net)
}

/// Flags the nets that distances start from.
fn mark_roots(checked: &CheckedNetlist, classes: &NetClassMap, flow: &Vec<bool>) -> (r: Vec<bool>)
    requires
        classes.class@.len() == checked.nets@.len(),
        flow@ == flow_nets(checked, classes.class@),
    ensures
        r@ == flow_roots(checked, classes.class@),
{
    let ghost cl = classes.class@;
    let n: usize = checked.nets.len();
    let mut seeds: Vec<bool> = Vec::new();
    let mut any = false;
    let mut net: usize = 0;
    while net < n
        invariant
            n == checked.nets@.len(),
            cl == classes.class@,
            cl.len() == n,
            flow@ == flow_nets(checked, cl),
            net <= n,
            seeds@.len() == net,
            forall|m: int| 0 <= m < net ==> #[trigger] seeds@[m] == is_seed(checked, cl, m),
            any == exists|m: int| 0 <= m < net && #[trigger] is_seed(checked, cl, m),
        decreases n - net,
    {
        let s = seed_net(checked, classes, flow, net);
        seeds.push(s);
        if s {
            any = true;
        }
        net = net + 1;
    }
    if any {
        assert(seeds@ =~= flow_roots(checked, cl));
        return seeds;
    }
    let mut r: Vec<bool> = Vec::new();
    let mut found = false;
    let mut net: usize = 0;
    while net < n
        invariant
            n == checked.nets@.len(),
            flow@ == flow_nets(checked, cl),
            net <= n,
            r@.len() == net,
            found == exists|m: int| 0 <= m < net && #[trigger] is_flow_net(checked, cl, m),
            forall|m: int|
                0 <= m < net ==> #[trigger] r@[m] == (is_flow_net(checked, cl, m) && forall|k: int|
                    0 <= k < m ==> !#[trigger] is_flow_net(checked, cl, k)),
        decreases n - net,
    {
        assert(flow@[net as int] == is_flow_net(checked, cl, net as int));
        let f = flow[net];
        r.push(f && !found);
        if f {
            found = true;
        }
        net = net + 1;
    }
    assert(r@ =~= flow_roots(checked, cl));
    r
}

/// The entry joins the two nets.
spec fn entry_joins(t: (usize, usize, usize), a: usize, b: usize) -> bool {
    t.1 == a && t.2 == b || t.1 == b && t.2 == a
}

/// Whether some listed element joins the two nets.
fn listed_join(list: &Vec<(usize, usize, usize)>, a: usize, b: usize) -> (r: bool)
    ensures
        r == exists|k: int| 0 <= k < list@.len() && entry_joins(#[trigger] list@[k], a, b),
{
    let mut k: usize = 0;
    while k < list.len()
        invariant
            k <= list@.len(),
            forall|j: int| 0 <= j < k ==> !entry_joins(#[trigger] list@[j], a, b),
        decreases list@.len() - k,
    {
        let (i, x, y): (usize, usize, usize) = list[k];
        assert(list@[k as int] == (i, x, y));
        if x == a && y == b || x == b && y == a {
            return true;
        }
        k = k + 1;
    }
    false
}

/// The lists of contributions decide which nets are joined.
proof fn lists_decide_joins(
    checked: &CheckedNetlist,
    classes: Seq<Option<NetClass>>,
    device: Seq<(usize, usize, usize)>,
    passive: Seq<(usize, usize, usize)>,
    a: usize,
    b: usize,
)
    requires
        checked.elements@.len() <= usize::MAX,
        device_listed(checked, classes, device),
        passive_listed(checked, classes, passive),
    ensures
        nets_joined(checked, classes, a, b) <==> (exists|k: int|
            0 <= k < device.len() && entry_joins(#[trigger] device[k], a, b)) || (exists|k: int|
            0 <= k < passive.len() && entry_joins(#[trigger] passive[k], a, b)),
{
    if exists|k: int| 0 <= k < device.len() && entry_joins(#[trigger] device[k], a, b) {
        let k = choose|k: int| 0 <= k < device.len() && entry_joins(#[trigger] device[k], a, b);
        let (i, x, y) = device[k];
        assert(device.contains((i, x, y)));
        assert(device_edge(checked, classes, i as int, x, y));
        assert(device_edge(checked, classes, i as int, a, b) || device_edge(
            checked,
            classes,
            i as int,
            b,
            a,
        ));
    }
    if exists|k: int| 0 <= k < passive.len() && entry_joins(#[trigger] passive[k], a, b) {
        let k = choose|k: int| 0 <= k < passive.len() && entry_joins(#[trigger] passive[k], a, b);
        let (i, x, y) = passive[k];
        assert(passive.contains((i, x, y)));
        assert(passive_pair(checked, classes, i as int, x, y));
        assert(device_edge(checked, classes, i as int, a, b) || passive_pair(
            checked,
            classes,
            i as int,
            a,
            b,
        ) || passive_pair(checked, classes, i as int, b, a));
    }
    if nets_joined(checked, classes, a, b) {
        let i = choose|i: int|
            {
                ||| #[trigger] device_edge(checked, classes, i, a, b)
                ||| device_edge(checked, classes, i, b, a)
                ||| passive_pair(checked, classes, i, a, b)
                ||| passive_pair(checked, classes, i, b, a)
            };
        let iu = i as usize;
        assert(iu as int == i);
        if device_edge(checked, classes, i, a, b) {
            assert(device.contains((iu, a, b)));
            let k = choose|k: int| 0 <= k < device.len() && device[k] == (iu, a, b);
            assert(entry_joins(device[k], a, b));
        } else if device_edge(checked, classes, i, b, a) {
            assert(device.contains((iu, b, a)));
            let k = choose|k: int| 0 <= k < device.len() && device[k] == (iu, b, a);
            assert(entry_joins(device[k], a, b));
        } else if passive_pair(checked, classes, i, a, b) {
            assert(passive.contains((iu, a, b)));
            let k = choose|k: int| 0 <= k < passive.len() && passive[k] == (iu, a, b);
            assert(entry_joins(passive[k], a, b));
        } else {
            assert(passive.contains((iu, b, a)));
            let k = choose|k: int| 0 <= k < passive.len() && passive[k] == (iu, b, a);
            assert(entry_joins(passive[k], a, b));
        }
    }
}

/// The undirected graph of nets.
fn build_net_graph(checked: &CheckedNetlist, classes: &NetClassMap, c: &Contributions) -> (adj: Vec<
    Vec<usize>,
>)
    requires
        checked.nets@.len() == classes.class@.len(),
        device_listed(checked, classes.class@, c.device@),
        passive_listed(checked, classes.class@, c.passive@),
        checked.elements@.len() <= usize::MAX,
    ensures
        lists(adj@) == net_graph(checked, classes.class@),
        graph_wf(lists(adj@)),
{
    let ghost cl = classes.class@;
    let n: usize = checked.nets.len();
    let mut adj: Vec<Vec<usize>> = Vec::new();
    let mut a: usize = 0;
    while a < n
        invariant
            n == checked.nets@.len(),
            checked.elements@.len() <= usize::MAX,
            device_listed(checked, cl, c.device@),
            passive_listed(checked, cl, c.passive@),
            a <= n,
            adj@.len() == a,
            forall|x: int|
                0 <= x < a ==> (#[trigger] adj@[x])@ == where_list(
                    joined_to(checked, cl, x as usize),
                    n as int,
                ),
        decreases n - a,
    {
        let ghost p = joined_to(checked, cl, a);
        let mut row: Vec<usize> = Vec::new();
        let mut b: usize = 0;
        while b < n
            invariant
                n == checked.nets@.len(),
                checked.elements@.len() <= usize::MAX,
                device_listed(checked, cl, c.device@),
                passive_listed(checked, cl, c.passive@),
                p == joined_to(checked, cl, a),
                b <= n,
                row@ == where_list(p, b as int),
            decreases n - b,
        {
            let by_device = listed_join(&c.device, a, b);
            let by_passive = listed_join(&c.passive, a, b);
            proof {
                lists_decide_joins(checked, cl, c.device@, c.passive@, a, b);
                assert(p(b as int) == nets_joined(checked, cl, a, b));
            }
            if by_device || by_passive {
                row.push(b);
            }
            b = b + 1;
        }
        adj.push(row);
        a = a + 1;
    }
    proof {
        let g = lists(adj@);
        assert(g =~= net_graph(checked, cl)) by {
            assert forall|x: int| 0 <= x < n implies g[x] == net_graph(checked, cl)[x] by {
                assert(adj@[x]@ == where_list(joined_to(checked, cl, x as usize), n as int));
            }
        }
        assert forall|x: int| 0 <= x < g.len() implies (#[trigger] g[x]).len() <= usize::MAX by {
            assert(adj@[x]@.len() == adj@[x].len());
        }
        assert forall|x: int, j: int| 0 <= x < g.len() && 0 <= j < g[x].len() implies (
        #[trigger] g[x][j]) < g.len() by {
            where_list_contains(joined_to(checked, cl, x as usize), n as int, g[x][j]);
            assert(g[x].contains(g[x][j]));
        }
    }
    adj
}

/// Distances of the nets from the roots, as ranks.
fn bfs_rank(
    checked: &CheckedNetlist,
    classes: &NetClassMap,
    c: &Contributions,
    flow: &Vec<bool>,
) -> (r: Vec<u32>)
    requires
        checked.wf(),
        classes.class@.len() == checked.nets@.len(),
        checked.nets@.len() < u32::MAX,
        device_listed(checked, classes.class@, c.device@),
        passive_listed(checked, classes.class@, c.passive@),
        flow@ == flow_nets(checked, classes.class@),
    ensures
        r@.len() == checked.nets@.len(),
        forall|net: int|
            0 <= net < r@.len() ==> #[trigger] r@[net] == flow_rank(checked, classes.class@, net),
{
    let ghost cl = classes.class@;
    let total: usize = checked.elements.len();
    let roots: Vec<bool> = mark_roots(checked, classes, flow);
    let adj: Vec<Vec<usize>> = build_net_graph(checked, classes, c);
    let dist: Vec<Option<u32>> = bfs_distances(&adj, &roots);
    let mut r: Vec<u32> = Vec::new();
    let mut net: usize = 0;
    while net < dist.len()
        invariant
            lists(adj@) == net_graph(checked, cl),
            roots@ == flow_roots(checked, cl),
            distances(lists(adj@), roots@, dist@),
            net <= dist@.len(),
            r@.len() == net,
            forall|m: int| 0 <= m < net ==> #[trigger] r@[m] == flow_rank(checked, cl, m),
        decreases dist@.len() - net,
    {
        let ghost g = net_graph(checked, cl);
        match dist[net] {
            Some(d) => {
                proof {
                    assert(is_distance(g, roots@, net as int, d as nat));
                    assert(reached(g, roots@, net as int));
                    let e = choose|e: nat| is_distance(g, roots@, net as int, e);
                    distance_unique(g, roots@, net as int, d as nat, e);
                }
                r.push(d);
            },
            None => {
                r.push(u32::MAX);
            },
        }
        net = net + 1;
    }
    r
}

/// Whether a passive between `a` and `b` points from `a` to `b`.
fn forward_passive(
    checked: &CheckedNetlist,
    classes: &NetClassMap,
    driver: &Vec<bool>,
    control: &Vec<bool>,
    rank: &Vec<u32>,
    a: usize,
    b: usize,
) -> (r: bool)
    requires
        a < checked.nets@.len(),
        b < checked.nets@.len(),
        driver@.len() == checked.nets@.len(),
        control@.len() == checked.nets@.len(),
        rank@.len() == checked.nets@.len(),
        forall|net: int|
            0 <= net < checked.nets@.len() ==> #[trigger] driver@[net] == is_driver(
                checked,
                net as usize,
            ),
        forall|net: int|
            0 <= net < checked.nets@.len() ==> #[trigger] control@[net] == is_control(
                checked,
                net as usize,
            ),
        forall|net: int|
            0 <= net < checked.nets@.len() ==> #[trigger] rank@[net] == flow_rank(
                checked,
                classes.class@,
                net,
            ),
    ensures
        r == points_forward(checked, classes.class@, a, b),
{
    assert(driver@[a as int] == is_driver(checked, a as int as usize));
    assert(driver@[b as int] == is_driver(checked, b as int as usize));
    assert(control@[a as int] == is_control(checked, a as int as usize));
    assert(control@[b as int] == is_control(checked, b as int as usize));
    assert(rank@[a as int] == flow_rank(checked, classes.class@, a as int));
    assert(rank@[b as int] == flow_rank(checked, classes.class@, b as int));
    let a_drv = driver[a] && !control[a];
    let a_ctl = control[a] && !driver[a];
    let b_drv = driver[b] && !control[b];
    let b_ctl = control[b] && !driver[b];
    if a_drv && b_ctl {
        true
    } else if b_drv && a_ctl {
        false
    } else {
        rank[a] < rank[b] || rank[a] == rank[b] && a <= b
    }
}

/// Adds an edge to a sorted list, unless it is there already.
fn insert_edge(edges: &mut Vec<FlowEdge>, e: FlowEdge)
    requires
        forall|x: int, y: int|
            0 <= x < y < old(edges)@.len() ==> edge_before(
                #[trigger] old(edges)@[x],
                #[trigger] old(edges)@[y],
            ),
        forall|x: int|
            0 <= x < old(edges)@.len() && (#[trigger] old(edges)@[x]).from == e.from
                && old(edges)@[x].to == e.to && old(edges)@[x].element == e.element
                ==> old(edges)@[x] == e,
    ensures
        forall|x: int, y: int|
            0 <= x < y < final(edges)@.len() ==> edge_before(
                #[trigger] final(edges)@[x],
                #[trigger] final(edges)@[y],
            ),
        forall|f: FlowEdge|
            #[trigger] final(edges)@.contains(f) <==> old(edges)@.contains(f) || f == e,
{
    let ghost before = edges@;
    let n: usize = edges.len();
    let mut k: usize = 0;
    while k < n && (edges[k].from < e.from || edges[k].from == e.from && (edges[k].to < e.to
        || edges[k].to == e.to && edges[k].element < e.element))
        invariant
            n == before.len(),
            edges@ == before,
            k <= n,
            forall|x: int| 0 <= x < k ==> edge_before(#[trigger] before[x], e),
        decreases n - k,
    {
        k = k + 1;
    }
    if k < n && edges[k].from == e.from && edges[k].to == e.to && edges[k].element == e.element {
        assert(before[k as int] == e);
        assert(edges@.contains(e));
        return ;
    }
    edges.insert(k, e);
    proof {
        let after = edges@;
        assert(after[k as int] == e);
        assert forall|x: int| k <= x < before.len() implies edge_before(e, #[trigger] before[x]) by {
            if x > k {
                assert(edge_before(before[k as int], before[x]));
            }
        }
        assert forall|x: int, y: int| 0 <= x < y < after.len() implies edge_before(
            #[trigger] after[x],
            #[trigger] after[y],
        ) by {
            if x < k {
                assert(after[x] == before[x]);
            } else if x > k {
                assert(after[x] == before[x - 1]);
            }
            if y < k {
                assert(after[y] == before[y]);
            } else if y > k {
                assert(after[y] == before[y - 1]);
            }
        }
        assert forall|f: FlowEdge| #[trigger] after.contains(f) <==> before.contains(f) || f
            == e by {
            if before.contains(f) {
                let x = choose|x: int| 0 <= x < before.len() && before[x] == f;
                if x < k {
                    assert(after[x] == f);
                } else {
                    assert(after[x + 1] == f);
                }
            }
            if after.contains(f) {
                let x = choose|x: int| 0 <= x < after.len() && after[x] == f;
                if x < k {
                    assert(before[x] == f);
                } else if x > k {
                    assert(before[x - 1] == f);
                }
            }
        }
    }
}

/// An element's kind decides whether its edges are device or passive edges.
proof fn kind_is_decided(
    checked: &CheckedNetlist,
    classes: Seq<Option<NetClass>>,
    i: int,
    a: usize,
    b: usize,
    x: EdgeKind,
    y: EdgeKind,
)
    requires
        contributes(checked, classes, i, a, b, x),
        contributes(checked, classes, i, a, b, y),
    ensures
        x == y,
{
    if x != y {
        let e = checked.elements@[i];
        assert(device_paths(e).contains((a, b)));
        assert(bridged_nets(e) is Some);
        assert(device_paths(e).len() == 0);
    }
}

/// All edges, unmarked, sorted.
fn collect_edges(
    checked: &CheckedNetlist,
    classes: &NetClassMap,
    c: &Contributions,
    driver: &Vec<bool>,
    control: &Vec<bool>,
    rank: &Vec<u32>,
) -> (edges: Vec<FlowEdge>)
    requires
        checked.elements@.len() <= usize::MAX,
        device_listed(checked, classes.class@, c.device@),
        passive_listed(checked, classes.class@, c.passive@),
        forall|k: int|
            0 <= k < c.passive@.len() ==> {
                let (i, a, b) = #[trigger] c.passive@[k];
                a < checked.nets@.len() && b < checked.nets@.len()
            },
        driver@.len() == checked.nets@.len(),
        control@.len() == checked.nets@.len(),
        rank@.len() == checked.nets@.len(),
        forall|net: int|
            0 <= net < checked.nets@.len() ==> #[trigger] driver@[net] == is_driver(
                checked,
                net as usize,
            ),
        forall|net: int|
            0 <= net < checked.nets@.len() ==> #[trigger] control@[net] == is_control(
                checked,
                net as usize,
            ),
        forall|net: int|
            0 <= net < checked.nets@.len() ==> #[trigger] rank@[net] == flow_rank(
                checked,
                classes.class@,
                net,
            ),
    ensures
        forall|x: int, y: int|
            0 <= x < y < edges@.len() ==> edge_before(#[trigger] edges@[x], #[trigger] edges@[y]),
        forall|e: FlowEdge|
            #[trigger] edges@.contains(e) <==> !e.feedback && contributes(
                checked,
                classes.class@,
                e.element as int,
                e.from,
                e.to,
                e.kind,
            ),
{
    let ghost cl = classes.class@;
    let mut edges: Vec<FlowEdge> = Vec::new();
    let mut k: usize = 0;
    while k < c.device.len()
        invariant
            device_listed(checked, cl, c.device@),
            k <= c.device@.len(),
            forall|x: int, y: int|
                0 <= x < y < edges@.len() ==> edge_before(
                    #[trigger] edges@[x],
                    #[trigger] edges@[y],
                ),
            forall|e: FlowEdge|
                #[trigger] edges@.contains(e) <==> !e.feedback && e.kind == EdgeKind::Device
                    && c.device@.take(k as int).contains((e.element, e.from, e.to)),
        decreases c.device@.len() - k,
    {
        let (i, a, b): (usize, usize, usize) = c.device[k];
        let ghost before = edges@;
        let e = FlowEdge { element: i, from: a, to: b, kind: EdgeKind::Device, feedback: false };
        proof {
            assert(c.device@.take(k + 1) =~= c.device@.take(k as int).push((i, a, b)));
            assert forall|x: int|
                0 <= x < before.len() && (#[trigger] before[x]).from == e.from && before[x].to
                    == e.to && before[x].element == e.element implies before[x] == e by {
                assert(before.contains(before[x]));
            }
        }
        insert_edge(&mut edges, e);
        proof {
            assert forall|f: FlowEdge|
                #[trigger] edges@.contains(f) <==> !f.feedback && f.kind == EdgeKind::Device
                    && c.device@.take(k + 1).contains((f.element, f.from, f.to)) by {
                push_contains(c.device@.take(k as int), (i, a, b), (f.element, f.from, f.to));
                assert(before.contains(f) <==> !f.feedback && f.kind == EdgeKind::Device
                    && c.device@.take(k as int).contains((f.element, f.from, f.to)));
            }
        }
        k = k + 1;
    }
    assert(c.device@.take(c.device@.len() as int) =~= c.device@);
    let mut k: usize = 0;
    while k < c.passive.len()
        invariant
            checked.elements@.len() <= usize::MAX,
            cl == classes.class@,
            device_listed(checked, cl, c.device@),
            passive_listed(checked, cl, c.passive@),
            forall|k: int|
                0 <= k < c.passive@.len() ==> {
                    let (i, a, b) = #[trigger] c.passive@[k];
                    a < checked.nets@.len() && b < checked.nets@.len()
                },
            driver@.len() == checked.nets@.len(),
            control@.len() == checked.nets@.len(),
            rank@.len() == checked.nets@.len(),
            forall|net: int|
                0 <= net < checked.nets@.len() ==> #[trigger] driver@[net] == is_driver(
                    checked,
                    net as usize,
                ),
            forall|net: int|
                0 <= net < checked.nets@.len() ==> #[trigger] control@[net] == is_control(
                    checked,
                    net as usize,
                ),
            forall|net: int|
                0 <= net < checked.nets@.len() ==> #[trigger] rank@[net] == flow_rank(
                    checked,
                    cl,
                    net,
                ),
            k <= c.passive@.len(),
            forall|x: int, y: int|
                0 <= x < y < edges@.len() ==> edge_before(
                    #[trigger] edges@[x],
                    #[trigger] edges@[y],
                ),
            forall|e: FlowEdge|
                #[trigger] edges@.contains(e) <==> !e.feedback && {
                    ||| e.kind == EdgeKind::Device && c.device@.contains((e.element, e.from, e.to))
                    ||| e.kind == EdgeKind::Passive && oriented(checked, cl, c.passive@.take(k as int), e)
                },
        decreases c.passive@.len() - k,
    {
        let (i, a, b): (usize, usize, usize) = c.passive[k];
        let ghost before = edges@;
        assert(c.passive@[k as int] == (i, a, b));
        let forward = forward_passive(checked, classes, driver, control, rank, a, b);
        let e = if forward {
            FlowEdge { element: i, from: a, to: b, kind: EdgeKind::Passive, feedback: false }
        } else {
            FlowEdge { element: i, from: b, to: a, kind: EdgeKind::Passive, feedback: false }
        };
        let ghost taken = c.passive@.take(k as int);
        proof {
            assert(c.passive@.take(k + 1) =~= taken.push((i, a, b)));
            assert(c.passive@.contains((i, a, b)));
            assert(passive_pair(checked, cl, i as int, a, b));
            assert forall|x: int|
                0 <= x < before.len() && (#[trigger] before[x]).from == e.from && before[x].to
                    == e.to && before[x].element == e.element implies before[x] == e by {
                assert(before.contains(before[x]));
                if before[x].kind == EdgeKind::Device {
                    let f = before[x];
                    assert(c.device@.contains((f.element, f.from, f.to)));
                    assert(contributes(
                        checked,
                        cl,
                        i as int,
                        e.from,
                        e.to,
                        EdgeKind::Device,
                    ));
                    assert(contributes(
                        checked,
                        cl,
                        i as int,
                        e.from,
                        e.to,
                        EdgeKind::Passive,
                    ));
                    kind_is_decided(
                        checked,
                        cl,
                        i as int,
                        e.from,
                        e.to,
                        EdgeKind::Device,
                        EdgeKind::Passive,
                    );
                }
            }
        }
        insert_edge(&mut edges, e);
        proof {
            assert forall|f: FlowEdge|
                #[trigger] edges@.contains(f) <==> !f.feedback && {
                    ||| f.kind == EdgeKind::Device && c.device@.contains((f.element, f.from, f.to))
                    ||| f.kind == EdgeKind::Passive && oriented(checked, cl, c.passive@.take(k + 1), f)
                } by {
                push_contains(taken, (i, a, b), (f.element, f.from, f.to));
                push_contains(taken, (i, a, b), (f.element, f.to, f.from));
                assert(before.contains(f) <==> !f.feedback && {
                    ||| f.kind == EdgeKind::Device && c.device@.contains((f.element, f.from, f.to))
                    ||| f.kind == EdgeKind::Passive && oriented(checked, cl, taken, f)
                });
            }
        }
        k = k + 1;
    }
    assert(c.passive@.take(c.passive@.len() as int) =~= c.passive@);
    proof {
        assert forall|e: FlowEdge|
            #[trigger] edges@.contains(e) <==> !e.feedback && contributes(
                checked,
                cl,
                e.element as int,
                e.from,
                e.to,
                e.kind,
            ) by {
            assert(c.device@.contains((e.element, e.from, e.to)) <==> device_edge(
                checked,
                cl,
                e.element as int,
                e.from,
                e.to,
            ));
            assert(c.passive@.contains((e.element, e.from, e.to)) <==> passive_pair(
                checked,
                cl,
                e.element as int,
                e.from,
                e.to,
            ));
            assert(c.passive@.contains((e.element, e.to, e.from)) <==> passive_pair(
                checked,
                cl,
                e.element as int,
                e.to,
                e.from,
            ));
        }
    }
    edges
}

/// The edge is a listed passive, oriented.
spec fn oriented(
    checked: &CheckedNetlist,
    classes: Seq<Option<NetClass>>,
    list: Seq<(usize, usize, usize)>,
    e: FlowEdge,
) -> bool {
    ||| list.contains((e.element, e.from, e.to)) && points_forward(checked, classes, e.from, e.to)
    ||| list.contains((e.element, e.to, e.from)) && !points_forward(checked, classes, e.to, e.from)
}

/// A contributed edge joins two different signal nets of the table.
pub proof fn contributed_nets(
    checked: &CheckedNetlist,
    classes: Seq<Option<NetClass>>,
    i: int,
    a: usize,
    b: usize,
    kind: EdgeKind,
)
    requires
        checked.wf(),
        contributes(checked, classes, i, a, b, kind),
    ensures
        a < checked.nets@.len(),
        b < checked.nets@.len(),
        a != b,
        is_flow_net(checked, classes, a as int),
        is_flow_net(checked, classes, b as int),
{
    let e = checked.elements@[i];
    let n = e.nodes@;
    assert(nets_in_range(checked.elements@[i].nodes@, checked.nets@.len()));
    assert forall|k: int| 0 <= k < n.len() implies checked.touched(#[trigger] n[k] as int) by {
        assert(checked.elements@[i].nodes@[k] == n[k]);
        assert(checked.touches(i, n[k] as int));
    }
    if kind == EdgeKind::Device {
        let paths = device_paths(e);
        let k = choose|k: int| 0 <= k < paths.len() && paths[k] == (a, b);
        assert(paths[k] == (a, b));
        assert(n.contains(a) && n.contains(b)) by {
            assert(n.len() >= 2);
            match e.kind {
                ElementKind::Bjt | ElementKind::Mosfet | ElementKind::Jfet => {
                    assert(n.contains(n[0]) && n.contains(n[1]) && n.contains(n[2]));
                },
                ElementKind::Vcvs | ElementKind::Vccs => {
                    assert(n.contains(n[0]) && n.contains(n[2]));
                },
                _ => {
                    assert(n.contains(n[0]) && n.contains(n[1]));
                },
            }
        }
        let x = choose|x: int| 0 <= x < n.len() && n[x] == a;
        let y = choose|y: int| 0 <= y < n.len() && n[y] == b;
        assert(n[x] < checked.nets@.len() && n[y] < checked.nets@.len());
    } else {
        assert(n[0] < checked.nets@.len() && n[1] < checked.nets@.len());
    }
}

fn blank_relation(n: usize) -> (m: Vec<Vec<bool>>)
    ensures
        is_relation(rows(m@), n as nat),
        forall|a: int, b: int|
            #![trigger m@[a]@[b]]
            0 <= a < n && 0 <= b < n ==> !m@[a]@[b],
{
    let mut m: Vec<Vec<bool>> = Vec::new();
    let mut a: usize = 0;
    while a < n
        invariant
            a <= n,
            m@.len() == a,
            forall|x: int| 0 <= x < a ==> (#[trigger] m@[x])@.len() == n,
            forall|x: int, y: int|
                #![trigger m@[x]@[y]]
                0 <= x < a && 0 <= y < n ==> !m@[x]@[y],
        decreases n - a,
    {
        let mut row: Vec<bool> = Vec::new();
        let mut b: usize = 0;
        while b < n
            invariant
                b <= n,
                row@.len() == b,
                forall|y: int| 0 <= y < b ==> !(#[trigger] row@[y]),
            decreases n - b,
        {
            row.push(false);
            b = b + 1;
        }
        m.push(row);
        a = a + 1;
    }
    m
}

/// The relation of the edges.
fn relate(checked: &CheckedNetlist, classes: &NetClassMap, edges: &Vec<FlowEdge>) -> (m: Vec<
    Vec<bool>,
>)
    requires
        checked.wf(),
        checked.elements@.len() <= usize::MAX,
        forall|e: FlowEdge|
            #[trigger] edges@.contains(e) <==> !e.feedback && contributes(
                checked,
                classes.class@,
                e.element as int,
                e.from,
                e.to,
                e.kind,
            ),
    ensures
        rows(m@) == flow_relation(checked, classes.class@),
        is_relation(rows(m@), checked.nets@.len()),
{
    let ghost cl = classes.class@;
    let n: usize = checked.nets.len();
    let mut m: Vec<Vec<bool>> = blank_relation(n);
    assert forall|a: int| 0 <= a < n implies (#[trigger] m@[a])@.len() == n by {
        assert(rows(m@)[a].len() == n);
    }
    let mut k: usize = 0;
    while k < edges.len()
        invariant
            checked.wf(),
            n == checked.nets@.len(),
            forall|e: FlowEdge|
                #[trigger] edges@.contains(e) ==> contributes(
                    checked,
                    cl,
                    e.element as int,
                    e.from,
                    e.to,
                    e.kind,
                ),
            k <= edges@.len(),
            m@.len() == n,
            forall|a: int| 0 <= a < n ==> (#[trigger] m@[a])@.len() == n,
            forall|a: int, b: int|
                #![trigger m@[a]@[b]]
                0 <= a < n && 0 <= b < n ==> m@[a]@[b] == exists|j: int|
                    0 <= j < k && (#[trigger] edges@[j]).from == a && edges@[j].to == b,
        decreases edges@.len() - k,
    {
        let e: FlowEdge = edges[k];
        proof {
            assert(edges@.contains(e));
            contributed_nets(checked, cl, e.element as int, e.from, e.to, e.kind);
        }
        let ghost before = m@;
        assert(before[e.from as int]@.len() == n);
        m[e.from].set(e.to, true);
        proof {
            assert forall|a: int| 0 <= a < n implies (#[trigger] m@[a])@.len() == n by {
                assert(before[a]@.len() == n);
            }
            assert forall|a: int, b: int|
                #![trigger m@[a]@[b]]
                0 <= a < n && 0 <= b < n implies m@[a]@[b] == exists|j: int|
                0 <= j < k + 1 && (#[trigger] edges@[j]).from == a && edges@[j].to == b by {
                assert(before[a]@[b] == exists|j: int|
                    0 <= j < k && (#[trigger] edges@[j]).from == a && edges@[j].to == b);
                if a == e.from && b == e.to {
                    assert(edges@[k as int].from == a);
                } else {
                    assert(m@[a]@[b] == before[a]@[b]);
                }
            }
        }
        k = k + 1;
    }
    proof {
        let r = rows(m@);
        let f = flow_relation(checked, cl);
        assert forall|a: int| 0 <= a < n implies r[a] == f[a] by {
            assert(m@[a]@.len() == n);
            assert forall|b: int| 0 <= b < n implies r[a][b] == f[a][b] by {
                assert(r[a][b] == m@[a]@[b]);
                if m@[a]@[b] {
                    let j = choose|j: int|
                        0 <= j < edges@.len() && (#[trigger] edges@[j]).from == a && edges@[j].to
                            == b;
                    let e = edges@[j];
                    assert(edges@.contains(e));
                    assert(contributes(
                        checked,
                        cl,
                        e.element as int,
                        a as usize,
                        b as usize,
                        e.kind,
                    ));
                }
                if flows(checked, cl, a as usize, b as usize) {
                    let (i, kind) = choose|i: int, kind: EdgeKind| #[trigger]
                        contributes(checked, cl, i, a as usize, b as usize, kind);
                    let e = FlowEdge {
                        element: i as usize,
                        from: a as usize,
                        to: b as usize,
                        kind,
                        feedback: false,
                    };
                    assert(edges@.contains(e));
                    let j = choose|j: int| 0 <= j < edges@.len() && edges@[j] == e;
                    assert(edges@[j].from == a && edges@[j].to == b);
                }
            }
            assert(r[a] =~= f[a]);
        }
        assert(r =~= f);
        assert forall|a: int| 0 <= a < n implies (#[trigger] r[a]).len() == n by {}
    }
    m
}

/// The position of every net in the sequence.
fn positions(seq: &Vec<usize>, n: usize) -> (pos: Vec<usize>)
    requires
        seq@.no_duplicates(),
        forall|p: int| 0 <= p < seq@.len() ==> (#[trigger] seq@[p]) < n,
    ensures
        pos@.len() == n,
        forall|p: int| 0 <= p < seq@.len() ==> pos@[#[trigger] seq@[p] as int] == p,
{
    let mut pos: Vec<usize> = Vec::new();
    let mut i: usize = 0;
    while i < n
        invariant
            i <= n,
            pos@.len() == i,
        decreases n - i,
    {
        pos.push(0);
        i = i + 1;
    }
    let mut p: usize = 0;
    while p < seq.len()
        invariant
            seq@.no_duplicates(),
            forall|p: int| 0 <= p < seq@.len() ==> (#[trigger] seq@[p]) < n,
            pos@.len() == n,
            p <= seq@.len(),
            forall|q: int| 0 <= q < p ==> pos@[#[trigger] seq@[q] as int] == q,
        decreases seq@.len() - p,
    {
        let ghost before = pos@;
        pos.set(seq[p], p);
        proof {
            assert forall|q: int| 0 <= q < p + 1 implies pos@[#[trigger] seq@[q] as int] == q by {
                if q < p {
                    assert(seq@[q] != seq@[p as int]);
                    assert(before[seq@[q] as int] == q);
                }
            }
        }
        p = p + 1;
    }
    pos
}

/// What a position vector says of two nets of the greedy order.
proof fn positions_decide(
    checked: &CheckedNetlist,
    classes: Seq<Option<NetClass>>,
    pos: Seq<usize>,
    a: usize,
)
    requires
        checked.nets@.len() <= usize::MAX,
        a < checked.nets@.len(),
        is_flow_net(checked, classes, a as int),
        forall|p: int|
            0 <= p < flow_sequence(checked, classes).len() ==> pos[#[trigger] flow_sequence(
                checked,
                classes,
            )[p] as int] == p,
    ensures
        pos[a as int] == flow_position(checked, classes, a),
        0 <= flow_position(checked, classes, a) < flow_sequence(checked, classes).len(),
        flow_sequence(checked, classes)[flow_position(checked, classes, a)] == a,
{
    let s = flow_sequence(checked, classes);
    greedy_order_lists(flow_relation(checked, classes), flow_nets(checked, classes), 0);
    assert(flow_nets(checked, classes)[a as int]);
    assert(s.contains(a as int as usize));
    let p = s.index_of(a);
    assert(0 <= p < s.len() && s[p] == a);
}

/// Marks the edges that run backward.
fn mark_feedback(
    checked: &CheckedNetlist,
    classes: &NetClassMap,
    edges: Vec<FlowEdge>,
    pos: &Vec<usize>,
) -> (r: Vec<FlowEdge>)
    requires
        checked.wf(),
        checked.nets@.len() <= usize::MAX,
        pos@.len() == checked.nets@.len(),
        forall|p: int|
            0 <= p < flow_sequence(checked, classes.class@).len()
                ==> pos@[#[trigger] flow_sequence(checked, classes.class@)[p] as int] == p,
        forall|x: int, y: int|
            0 <= x < y < edges@.len() ==> edge_before(#[trigger] edges@[x], #[trigger] edges@[y]),
        forall|e: FlowEdge|
            #[trigger] edges@.contains(e) <==> !e.feedback && contributes(
                checked,
                classes.class@,
                e.element as int,
                e.from,
                e.to,
                e.kind,
            ),
    ensures
        forall|x: int, y: int|
            0 <= x < y < r@.len() ==> edge_before(#[trigger] r@[x], #[trigger] r@[y]),
        forall|e: FlowEdge|
            #[trigger] r@.contains(e) <==> is_flow_edge(checked, classes.class@, e),
{
    let ghost cl = classes.class@;
    let mut r: Vec<FlowEdge> = Vec::new();
    let mut k: usize = 0;
    while k < edges.len()
        invariant
            checked.wf(),
            checked.nets@.len() <= usize::MAX,
            pos@.len() == checked.nets@.len(),
            forall|p: int|
                0 <= p < flow_sequence(checked, cl).len() ==> pos@[#[trigger] flow_sequence(
                    checked,
                    cl,
                )[p] as int] == p,
            forall|e: FlowEdge|
                #[trigger] edges@.contains(e) ==> contributes(
                    checked,
                    cl,
                    e.element as int,
                    e.from,
                    e.to,
                    e.kind,
                ),
            k <= edges@.len(),
            r@.len() == k,
            forall|j: int|
                0 <= j < k ==> #[trigger] r@[j] == (FlowEdge {
                    feedback: runs_backward(checked, cl, edges@[j].from, edges@[j].to),
                    ..edges@[j]
                }),
        decreases edges@.len() - k,
    {
        let e: FlowEdge = edges[k];
        proof {
            assert(edges@.contains(e));
            contributed_nets(checked, cl, e.element as int, e.from, e.to, e.kind);
            positions_decide(checked, cl, pos@, e.from);
            positions_decide(checked, cl, pos@, e.to);
        }
        let feedback = pos[e.from] > pos[e.to];
        r.push(
            FlowEdge { element: e.element, from: e.from, to: e.to, kind: e.kind, feedback },
        );
        k = k + 1;
    }
    proof {
        assert forall|x: int, y: int| 0 <= x < y < r@.len() implies edge_before(
            #[trigger] r@[x],
            #[trigger] r@[y],
        ) by {
            assert(edge_before(edges@[x], edges@[y]));
        }
        assert forall|e: FlowEdge| #[trigger] r@.contains(e) <==> is_flow_edge(checked, cl, e) by {
            if r@.contains(e) {
                let j = choose|j: int| 0 <= j < r@.len() && r@[j] == e;
                assert(edges@.contains(edges@[j]));
            }
            if is_flow_edge(checked, cl, e) {
                let plain = FlowEdge { feedback: false, ..e };
                assert(edges@.contains(plain));
                let j = choose|j: int| 0 <= j < edges@.len() && edges@[j] == plain;
                assert(r@[j] == e);
            }
        }
    }
    r
}

/// The relation of the forward edges.
fn relate_forward(
    checked: &CheckedNetlist,
    classes: &NetClassMap,
    m: &Vec<Vec<bool>>,
    pos: &Vec<usize>,
) -> (r: Vec<Vec<bool>>)
    requires
        checked.wf(),
        checked.nets@.len() <= usize::MAX,
        rows(m@) == flow_relation(checked, classes.class@),
        is_relation(rows(m@), checked.nets@.len()),
        pos@.len() == checked.nets@.len(),
        forall|p: int|
            0 <= p < flow_sequence(checked, classes.class@).len()
                ==> pos@[#[trigger] flow_sequence(checked, classes.class@)[p] as int] == p,
    ensures
        rows(r@) == forward_relation(checked, classes.class@),
        is_relation(rows(r@), checked.nets@.len()),
{
    let ghost cl = classes.class@;
    let n: usize = checked.nets.len();
    let mut r: Vec<Vec<bool>> = Vec::new();
    let mut a: usize = 0;
    while a < n
        invariant
            checked.wf(),
            n == checked.nets@.len(),
            rows(m@) == flow_relation(checked, cl),
            m@.len() == n,
            pos@.len() == n,
            forall|p: int|
                0 <= p < flow_sequence(checked, cl).len() ==> pos@[#[trigger] flow_sequence(
                    checked,
                    cl,
                )[p] as int] == p,
            a <= n,
            r@.len() == a,
            forall|x: int|
                0 <= x < a ==> (#[trigger] r@[x])@ == Seq::new(
                    n as nat,
                    |b: int| flows_forward(checked, cl, x as usize, b as usize),
                ),
        decreases n - a,
    {
        let mut row: Vec<bool> = Vec::new();
        let mut b: usize = 0;
        assert(rows(m@)[a as int] == m@[a as int]@);
        while b < n
            invariant
                checked.wf(),
                n == checked.nets@.len(),
                rows(m@) == flow_relation(checked, cl),
                m@.len() == n,
                a < n,
                rows(m@)[a as int] == m@[a as int]@,
                m@[a as int]@.len() == n,
                pos@.len() == n,
                forall|p: int|
                    0 <= p < flow_sequence(checked, cl).len() ==> pos@[#[trigger] flow_sequence(
                        checked,
                        cl,
                    )[p] as int] == p,
                b <= n,
                row@ == Seq::new(
                    b as nat,
                    |y: int| flows_forward(checked, cl, a, y as usize),
                ),
            decreases n - b,
        {
            proof {
                assert(flow_relation(checked, cl)[a as int][b as int] == flows(checked, cl, a, b));
                if flows(checked, cl, a, b) {
                    let (i, kind) = choose|i: int, kind: EdgeKind| #[trigger]
                        contributes(checked, cl, i, a, b, kind);
                    contributed_nets(checked, cl, i, a, b, kind);
                    positions_decide(checked, cl, pos@, a);
                    positions_decide(checked, cl, pos@, b);
                }
            }
            row.push(m[a][b] && !(pos[a] > pos[b]));
            assert(row@ =~= Seq::new(
                (b + 1) as nat,
                |y: int| flows_forward(checked, cl, a, y as usize),
            ));
            b = b + 1;
        }
        r.push(row);
        a = a + 1;
    }
    proof {
        let f = forward_relation(checked, cl);
        assert forall|x: int| 0 <= x < n implies rows(r@)[x] == f[x] by {
            assert(r@[x]@ =~= f[x]);
        }
        assert(rows(r@) =~= f);
        assert forall|x: int| 0 <= x < n implies (#[trigger] rows(r@)[x]).len() == n by {}
    }
    r
}

/// A topological order of the signal nets over forward edges, nets without
/// forward edges last.
fn topo_order(
    checked: &CheckedNetlist,
    classes: &NetClassMap,
    forward: &Vec<Vec<bool>>,
    flow: &Vec<bool>,
) -> (r: Vec<usize>)
    requires
        rows(forward@) == forward_relation(checked, classes.class@),
        is_relation(rows(forward@), checked.nets@.len()),
        flow@ == flow_nets(checked, classes.class@),
    ensures
        r@ == ready_order(
            forward_relation(checked, classes.class@),
            forward_nets(checked, classes.class@),
        ) + where_list(idle_net(checked, classes.class@), checked.nets@.len() as int),
{
    let ghost cl = classes.class@;
    let n: usize = checked.nets.len();
    let mut active: Vec<bool> = Vec::new();
    let mut idle: Vec<usize> = Vec::new();
    let ghost p = idle_net(checked, cl);
    let mut a: usize = 0;
    while a < n
        invariant
            n == checked.nets@.len(),
            rows(forward@) == forward_relation(checked, cl),
            is_relation(rows(forward@), n as nat),
            forward@.len() == n,
            flow@ == flow_nets(checked, cl),
            p == idle_net(checked, cl),
            a <= n,
            active@ == Seq::new(
                a as nat,
                |net: int| is_flow_net(checked, cl, net) && has_forward(checked, cl, net as usize),
            ),
            idle@ == where_list(p, a as int),
        decreases n - a,
    {
        let mut any = false;
        let mut b: usize = 0;
        while b < n
            invariant
                n == checked.nets@.len(),
                rows(forward@) == forward_relation(checked, cl),
                is_relation(rows(forward@), n as nat),
                forward@.len() == n,
                a < n,
                b <= n,
                any == exists|m: int|
                    0 <= m < b && #[trigger] joined_forward(checked, cl, a, m as usize),
            decreases n - b,
        {
            proof {
                assert(rows(forward@)[a as int] == forward@[a as int]@);
                assert(rows(forward@)[b as int] == forward@[b as int]@);
                assert(forward_relation(checked, cl)[a as int][b as int] == flows_forward(
                    checked,
                    cl,
                    a,
                    b,
                ));
                assert(forward_relation(checked, cl)[b as int][a as int] == flows_forward(
                    checked,
                    cl,
                    b,
                    a,
                ));
                assert(rows(forward@)[a as int].len() == n);
                assert(rows(forward@)[b as int].len() == n);
            }
            if forward[a][b] || forward[b][a] {
                assert(joined_forward(checked, cl, a, b as int as usize));
                any = true;
            }
            b = b + 1;
        }
        assert(any == has_forward(checked, cl, a));
        assert(flow@[a as int] == is_flow_net(checked, cl, a as int));
        active.push(flow[a] && any);
        proof {
            assert(active@ =~= Seq::new(
                (a + 1) as nat,
                |net: int| is_flow_net(checked, cl, net) && has_forward(checked, cl, net as usize),
            ));
            assert(p(a as int) == (flow@[a as int] && !any));
        }
        if flow[a] && !any {
            idle.push(a);
        }
        a = a + 1;
    }
    assert(active@ =~= forward_nets(checked, cl));
    let mut r: Vec<usize> = ready_sequence(forward, active);
    r.append(&mut idle);
    r
}

/// The directed signal-flow graph of a netlist. Rails never enter it.
#[must_use]
pub fn signal_flow(checked: &CheckedNetlist, classes: &NetClassMap) -> (r: SignalFlow)
    requires
        checked.wf(),
        classes.class@.len() == checked.nets@.len(),
        checked.nets@.len() < u32::MAX,
    ensures
        flow_of(checked, classes.class@, r),
{
    let ghost cl = classes.class@;
    let total: usize = checked.elements.len();
    let n: usize = checked.nets.len();
    let flow: Vec<bool> = mark_flow_nets(checked, classes);
    let c: Contributions = gather(checked, classes);
    let (driver, control): (Vec<bool>, Vec<bool>) = mark_roles(checked);
    let rank: Vec<u32> = bfs_rank(checked, classes, &c, &flow);
    let plain: Vec<FlowEdge> = collect_edges(checked, classes, &c, &driver, &control, &rank);
    let m: Vec<Vec<bool>> = relate(checked, classes, &plain);
    let mut signal_nets: Vec<usize> = Vec::new();
    let mut all: Vec<bool> = Vec::new();
    let ghost p = flow_net(checked, cl);
    let mut net: usize = 0;
    while net < n
        invariant
            n == checked.nets@.len(),
            flow@ == flow_nets(checked, cl),
            p == flow_net(checked, cl),
            net <= n,
            signal_nets@ == where_list(p, net as int),
            all@ == flow@.take(net as int),
        decreases n - net,
    {
        assert(flow@[net as int] == p(net as int));
        assert(flow@.take(net + 1) =~= flow@.take(net as int).push(flow@[net as int]));
        all.push(flow[net]);
        if flow[net] {
            signal_nets.push(net);
        }
        net = net + 1;
    }
    assert(flow@.take(n as int) =~= flow@);
    let seq: Vec<usize> = greedy_fas_sequence(&m, all);
    let pos: Vec<usize> = positions(&seq, n);
    let edges: Vec<FlowEdge> = mark_feedback(checked, classes, plain, &pos);
    let forward: Vec<Vec<bool>> = relate_forward(checked, classes, &m, &pos);
    let net_order: Vec<usize> = topo_order(checked, classes, &forward, &flow);
    SignalFlow { edges, signal_nets, net_order }
}

// ---------------------------------------------------------------------------
// Reading the graph
// ---------------------------------------------------------------------------

/// Lexicographic order of pairs.
pub open spec fn pair_before(x: (usize, usize), y: (usize, usize)) -> bool {
    x.0 < y.0 || x.0 == y.0 && x.1 < y.1
}

impl SignalFlow {
    /// The feedback arcs as `(from, to)` pairs, in order, each once.
    #[must_use]
    pub fn feedback_pairs(&self) -> (r: Vec<(usize, usize)>)
        ensures
            forall|x: int, y: int|
                0 <= x < y < r@.len() ==> pair_before(#[trigger] r@[x], #[trigger] r@[y]),
            forall|a: usize, b: usize|
                #[trigger] r@.contains((a, b)) <==> exists|k: int|
                    0 <= k < self.edges@.len() && (#[trigger] self.edges@[k]).feedback
                        && self.edges@[k].from == a && self.edges@[k].to == b,
    {
        let mut r: Vec<(usize, usize)> = Vec::new();
        let mut k: usize = 0;
        while k < self.edges.len()
            invariant
                k <= self.edges@.len(),
                forall|x: int, y: int|
                    0 <= x < y < r@.len() ==> pair_before(#[trigger] r@[x], #[trigger] r@[y]),
                forall|a: usize, b: usize|
                    #[trigger] r@.contains((a, b)) <==> exists|j: int|
                        0 <= j < k && (#[trigger] self.edges@[j]).feedback && self.edges@[j].from
                            == a && self.edges@[j].to == b,
            decreases self.edges@.len() - k,
        {
            let e: FlowEdge = self.edges[k];
            let ghost before = r@;
            if e.feedback {
                insert_pair(&mut r, (e.from, e.to));
            }
            proof {
                assert forall|a: usize, b: usize|
                    #[trigger] r@.contains((a, b)) <==> exists|j: int|
                        0 <= j < k + 1 && (#[trigger] self.edges@[j]).feedback
                            && self.edges@[j].from == a && self.edges@[j].to == b by {
                    assert(before.contains((a, b)) <==> exists|j: int|
                        0 <= j < k && (#[trigger] self.edges@[j]).feedback && self.edges@[j].from
                            == a && self.edges@[j].to == b);
                    if e.feedback {
                        assert(self.edges@[k as int].feedback);
                    }
                }
            }
            k = k + 1;
        }
        r
    }

    /// The elements whose edge is a feedback arc, in order, each once.
    #[must_use]
    pub fn feedback_elements(&self) -> (r: Vec<usize>)
        ensures
            forall|x: int, y: int|
                0 <= x < y < r@.len() ==> #[trigger] r@[x] < #[trigger] r@[y],
            forall|i: usize|
                #[trigger] r@.contains(i) <==> exists|k: int|
                    0 <= k < self.edges@.len() && (#[trigger] self.edges@[k]).feedback
                        && self.edges@[k].element == i,
    {
        let mut r: Vec<usize> = Vec::new();
        let mut k: usize = 0;
        while k < self.edges.len()
            invariant
                k <= self.edges@.len(),
                forall|x: int, y: int|
                    0 <= x < y < r@.len() ==> #[trigger] r@[x] < #[trigger] r@[y],
                forall|i: usize|
                    #[trigger] r@.contains(i) <==> exists|j: int|
                        0 <= j < k && (#[trigger] self.edges@[j]).feedback
                            && self.edges@[j].element == i,
            decreases self.edges@.len() - k,
        {
            let e: FlowEdge = self.edges[k];
            let ghost before = r@;
            if e.feedback {
                insert_index(&mut r, e.element);
            }
            proof {
                assert forall|i: usize|
                    #[trigger] r@.contains(i) <==> exists|j: int|
                        0 <= j < k + 1 && (#[trigger] self.edges@[j]).feedback
                            && self.edges@[j].element == i by {
                    assert(before.contains(i) <==> exists|j: int|
                        0 <= j < k && (#[trigger] self.edges@[j]).feedback
                            && self.edges@[j].element == i);
                    if e.feedback {
                        assert(self.edges@[k as int].feedback);
                    }
                }
            }
            k = k + 1;
        }
        r
    }
}

/// Adds a pair to a sorted list, unless it is there already.
fn insert_pair(list: &mut Vec<(usize, usize)>, e: (usize, usize))
    requires
        forall|x: int, y: int|
            0 <= x < y < old(list)@.len() ==> pair_before(
                #[trigger] old(list)@[x],
                #[trigger] old(list)@[y],
            ),
    ensures
        forall|x: int, y: int|
            0 <= x < y < final(list)@.len() ==> pair_before(
                #[trigger] final(list)@[x],
                #[trigger] final(list)@[y],
            ),
        forall|f: (usize, usize)|
            #[trigger] final(list)@.contains(f) <==> old(list)@.contains(f) || f == e,
{
    let ghost before = list@;
    let n: usize = list.len();
    let mut k: usize = 0;
    while k < n && (list[k].0 < e.0 || list[k].0 == e.0 && list[k].1 < e.1)
        invariant
            n == before.len(),
            list@ == before,
            k <= n,
            forall|x: int| 0 <= x < k ==> pair_before(#[trigger] before[x], e),
        decreases n - k,
    {
        k = k + 1;
    }
    if k < n && list[k].0 == e.0 && list[k].1 == e.1 {
        assert(before[k as int] == e);
        return ;
    }
    list.insert(k, e);
    proof {
        let after = list@;
        assert forall|x: int| k <= x < before.len() implies pair_before(e, #[trigger] before[x]) by {
            if x > k {
                assert(pair_before(before[k as int], before[x]));
            }
        }
        assert forall|x: int, y: int| 0 <= x < y < after.len() implies pair_before(
            #[trigger] after[x],
            #[trigger] after[y],
        ) by {
            if x < k {
                assert(after[x] == before[x]);
            } else if x > k {
                assert(after[x] == before[x - 1]);
            }
            if y < k {
                assert(after[y] == before[y]);
            } else if y > k {
                assert(after[y] == before[y - 1]);
            }
        }
        insert_contains(before, k as int, e);
    }
}

/// Adds an index to a sorted list, unless it is there already.
pub fn insert_index(list: &mut Vec<usize>, e: usize)
    requires
        forall|x: int, y: int|
            0 <= x < y < old(list)@.len() ==> #[trigger] old(list)@[x] < #[trigger] old(list)@[y],
    ensures
        forall|x: int, y: int|
            0 <= x < y < final(list)@.len() ==> #[trigger] final(list)@[x]
                < #[trigger] final(list)@[y],
        forall|f: usize|
            #[trigger] final(list)@.contains(f) <==> old(list)@.contains(f) || f == e,
{
    let ghost before = list@;
    let n: usize = list.len();
    let mut k: usize = 0;
    while k < n && list[k] < e
        invariant
            n == before.len(),
            list@ == before,
            k <= n,
            forall|x: int| 0 <= x < k ==> #[trigger] before[x] < e,
        decreases n - k,
    {
        k = k + 1;
    }
    if k < n && list[k] == e {
        assert(before[k as int] == e);
        return ;
    }
    list.insert(k, e);
    proof {
        let after = list@;
        assert forall|x: int| k <= x < before.len() implies e < #[trigger] before[x] by {
            if x > k {
                assert(before[k as int] < before[x]);
            }
        }
        assert forall|x: int, y: int| 0 <= x < y < after.len() implies #[trigger] after[x]
            < #[trigger] after[y] by {
            if x < k {
                assert(after[x] == before[x]);
            } else if x > k {
                assert(after[x] == before[x - 1]);
            }
            if y < k {
                assert(after[y] == before[y]);
            } else if y > k {
                assert(after[y] == before[y - 1]);
            }
        }
        insert_contains(before, k as int, e);
    }
}

/// What a sequence holds after an insertion.
pub proof fn insert_contains<T>(s: Seq<T>, k: int, e: T)
    requires
        0 <= k <= s.len(),
    ensures
        forall|f: T| #[trigger] s.insert(k, e).contains(f) <==> s.contains(f) || f == e,
{
    let t = s.insert(k, e);
    assert(t[k] == e);
    assert forall|f: T| #[trigger] t.contains(f) <==> s.contains(f) || f == e by {
        if s.contains(f) {
            let x = choose|x: int| 0 <= x < s.len() && s[x] == f;
            if x < k {
                assert(t[x] == f);
            } else {
                assert(t[x + 1] == f);
            }
        }
        if t.contains(f) {
            let x = choose|x: int| 0 <= x < t.len() && t[x] == f;
            if x < k {
                assert(s[x] == f);
            } else if x > k {
                assert(s[x - 1] == f);
            }
        }
    }
}

// ---------------------------------------------------------------------------
// Laws
// ---------------------------------------------------------------------------

/// Feedback is marked, never reversed: a device edge keeps the direction of
/// its device, and a passive is listed in one direction only.
pub proof fn feedback_is_marked_not_reversed(
    checked: &CheckedNetlist,
    classes: Seq<Option<NetClass>>,
    r: SignalFlow,
    e: FlowEdge,
)
    requires
        checked.wf(),
        flow_of(checked, classes, r),
        r.edges@.contains(e),
    ensures
        e.kind == EdgeKind::Device ==> device_edge(
            checked,
            classes,
            e.element as int,
            e.from,
            e.to,
        ),
        e.kind == EdgeKind::Passive ==> forall|f: FlowEdge|
            #[trigger] r.edges@.contains(f) && f.element == e.element ==> f == e,
{
    assert(is_flow_edge(checked, classes, e));
    if e.kind == EdgeKind::Passive {
        assert forall|f: FlowEdge| #[trigger] r.edges@.contains(f) && f.element
            == e.element implies f == e by {
            assert(is_flow_edge(checked, classes, f));
            let i = e.element as int;
            if f.kind == EdgeKind::Device {
                let el = checked.elements@[i];
                assert(device_paths(el).contains((f.from, f.to)));
                assert(bridged_nets(el) is Some);
                assert(device_paths(el).len() == 0);
            }
        }
    }
}

/// The flow order lists each signal net once.
pub proof fn net_order_lists_signal_nets(
    checked: &CheckedNetlist,
    classes: Seq<Option<NetClass>>,
    r: SignalFlow,
)
    requires
        checked.nets@.len() <= usize::MAX,
        flow_of(checked, classes, r),
    ensures
        lists_exactly(r.net_order@, flow_nets(checked, classes)),
        lists_exactly(r.signal_nets@, flow_nets(checked, classes)),
{
    let n = checked.nets@.len() as int;
    let flow = flow_nets(checked, classes);
    let active = forward_nets(checked, classes);
    let rel = forward_relation(checked, classes);
    let head = ready_order(rel, active);
    let p = idle_net(checked, classes);
    let tail = where_list(p, n);
    ready_order_lists(rel, active);
    let s = r.net_order@;
    assert forall|x: int| 0 <= x < tail.len() implies (#[trigger] tail[x]) < n && p(
        tail[x] as int,
    ) by {
        where_list_contains(p, n, tail[x]);
        assert(tail.contains(tail[x]));
    }
    assert forall|x: int, y: int| 0 <= x < y < s.len() implies s[x] != s[y] by {
        if y < head.len() {
            assert(s[x] == head[x] && s[y] == head[y]);
        } else if x >= head.len() {
            where_list_sorted(p, n, x - head.len(), y - head.len());
        } else {
            assert(s[x] == head[x]);
            assert(active[head[x] as int]);
            let t = tail[y - head.len()];
            assert(p(t as int));
        }
    }
    assert forall|x: int| 0 <= x < s.len() implies (#[trigger] s[x]) < flow.len()
        && flow[s[x] as int] by {
        if x < head.len() {
            assert(s[x] == head[x]);
            assert(active[head[x] as int]);
        } else {
            let t = tail[x - head.len()];
            assert(p(t as int));
        }
    }
    assert forall|v: int| 0 <= v < flow.len() && flow[v] implies #[trigger] s.contains(
        v as usize,
    ) by {
        if has_forward(checked, classes, v as usize) {
            assert(active[v]);
            assert(head.contains(v as usize));
            let x = choose|x: int| 0 <= x < head.len() && head[x] == v as usize;
            assert(s[x] == v as usize);
        } else {
            where_list_contains(p, n, v as usize);
            let x = choose|x: int| 0 <= x < tail.len() && tail[x] == v as usize;
            assert(s[head.len() + x] == v as usize);
        }
    }
    let q = flow_net(checked, classes);
    let all = where_list(q, n);
    assert forall|x: int, y: int| 0 <= x < y < all.len() implies all[x] != all[y] by {
        where_list_sorted(q, n, x, y);
    }
    assert forall|x: int| 0 <= x < all.len() implies (#[trigger] all[x]) < flow.len()
        && flow[all[x] as int] by {
        where_list_contains(q, n, all[x]);
        assert(all.contains(all[x]));
    }
    assert forall|v: int| 0 <= v < flow.len() && flow[v] implies #[trigger] all.contains(
        v as usize,
    ) by {
        where_list_contains(q, n, v as usize);
    }
}

/// Every edge that is not marked as feedback leads forward in the flow order.
pub proof fn forward_edges_follow_the_order(
    checked: &CheckedNetlist,
    classes: Seq<Option<NetClass>>,
    r: SignalFlow,
    e: FlowEdge,
)
    requires
        checked.wf(),
        checked.nets@.len() <= usize::MAX,
        flow_of(checked, classes, r),
        r.edges@.contains(e),
        !e.feedback,
    ensures
        exists|x: int, y: int|
            #![trigger r.net_order@[x], r.net_order@[y]]
            0 <= x < y < r.net_order@.len() && r.net_order@[x] == e.from && r.net_order@[y] == e.to,
{
    let n = checked.nets@.len();
    let active = forward_nets(checked, classes);
    let rel = forward_relation(checked, classes);
    let head = ready_order(rel, active);
    assert(is_flow_edge(checked, classes, e));
    contributed_nets(checked, classes, e.element as int, e.from, e.to, e.kind);
    assert(flows_forward(checked, classes, e.from, e.to));
    let rank = Seq::new(n, |v: int| flow_position(checked, classes, v as usize));
    let a = e.from as int;
    let b = e.to as int;
    assert(joined_forward(checked, classes, e.from, b as usize));
    assert(joined_forward(checked, classes, e.to, a as usize));
    assert(active[a] && active[b]);
    assert(rel[a][b]);
    assert(is_relation(rel, n));
    assert forall|u: int, v: int|
        0 <= u < n && 0 <= v < n && #[trigger] rel[u][v] && active[u] && active[v] implies rank[u]
        < rank[v] by {
        assert(flows_forward(checked, classes, u as usize, v as usize));
        let (i, kind) = choose|i: int, kind: EdgeKind| #[trigger]
            contributes(checked, classes, i, u as usize, v as usize, kind);
        contributed_nets(checked, classes, i, u as usize, v as usize, kind);
        let s = flow_sequence(checked, classes);
        greedy_order_lists(flow_relation(checked, classes), flow_nets(checked, classes), 0);
        assert(flow_nets(checked, classes)[u] && flow_nets(checked, classes)[v]);
        assert(s.contains(u as usize) && s.contains(v as usize));
        let pu = s.index_of(u as usize);
        let pv = s.index_of(v as usize);
        assert(s[pu] == u as usize && s[pv] == v as usize);
    }
    ready_order_respects(rel, active, rank, a, b);
    let (x, y) = choose|x: int, y: int|
        #![trigger head[x], head[y]]
        0 <= x < y < head.len() && head[x] == a && head[y] == b;
    assert(r.net_order@[x] == head[x] && r.net_order@[y] == head[y]);
}

/// The places of two joined nets in the greedy order.
proof fn joined_places(checked: &CheckedNetlist, classes: Seq<Option<NetClass>>, a: usize, b: usize)
    requires
        checked.wf(),
        checked.nets@.len() <= usize::MAX,
        flows(checked, classes, a, b),
    ensures
        ({
            let s = flow_sequence(checked, classes);
            let (p, q) = (flow_position(checked, classes, a), flow_position(checked, classes, b));
            &&& a < checked.nets@.len() && b < checked.nets@.len() && a != b
            &&& 0 <= p < s.len() && s[p] == a
            &&& 0 <= q < s.len() && s[q] == b
            &&& p != q
        }),
{
    let (i, kind) = choose|i: int, kind: EdgeKind| #[trigger]
        contributes(checked, classes, i, a, b, kind);
    contributed_nets(checked, classes, i, a, b, kind);
    let s = flow_sequence(checked, classes);
    let nets = flow_nets(checked, classes);
    greedy_order_lists(flow_relation(checked, classes), nets, 0);
    assert(nets[a as int] && nets[b as int]);
    assert(s.contains(a as int as usize) && s.contains(b as int as usize));
}

/// Feedback is there exactly when signals can loop: no edge of a circuit
/// without a loop of signal flow is marked, and one of every loop is.
pub proof fn feedback_means_a_loop(
    checked: &CheckedNetlist,
    classes: Seq<Option<NetClass>>,
    r: SignalFlow,
)
    requires
        checked.wf(),
        checked.nets@.len() <= usize::MAX,
        flow_of(checked, classes, r),
    ensures
        (exists|e: FlowEdge| #[trigger] r.edges@.contains(e) && e.feedback) <==> has_loop(
            flow_relation(checked, classes),
            flow_nets(checked, classes),
        ),
{
    let m = flow_relation(checked, classes);
    let nets = flow_nets(checked, classes);
    let s = flow_sequence(checked, classes);
    only_loops_run_backward(m, nets);
    greedy_order_lists(m, nets, 0);
    if exists|e: FlowEdge| #[trigger] r.edges@.contains(e) && e.feedback {
        let e = choose|e: FlowEdge| #[trigger] r.edges@.contains(e) && e.feedback;
        assert(is_flow_edge(checked, classes, e));
        assert(flows(checked, classes, e.from, e.to));
        joined_places(checked, classes, e.from, e.to);
        let (p, q) = (
            flow_position(checked, classes, e.from),
            flow_position(checked, classes, e.to),
        );
        assert(m[s[p] as int][s[q] as int]);
    }
    if has_loop(m, nets) {
        let (p, q) = choose|p: int, q: int|
            0 <= p < s.len() && 0 <= q < s.len() && m[#[trigger] s[p] as int][#[trigger] s[q] as int]
                && q <= p;
        let (a, b) = (s[p], s[q]);
        assert(flows(checked, classes, a, b));
        joined_places(checked, classes, a, b);
        let (i, kind) = choose|i: int, kind: EdgeKind| #[trigger]
            contributes(checked, classes, i, a, b, kind);
        let e = FlowEdge { element: i as usize, from: a, to: b, kind, feedback: true };
        assert(runs_backward(checked, classes, a, b));
        assert(checked.elements@.len() == checked.elements.len());
        assert(is_flow_edge(checked, classes, e));
        assert(r.edges@.contains(e));
    }
}

/// Feedback is kept small: of the pairs of nets that signals flow between, at
/// most half are joined backward.
pub proof fn feedback_is_at_most_half(checked: &CheckedNetlist, classes: Seq<Option<NetClass>>)
    requires
        checked.wf(),
        checked.nets@.len() <= usize::MAX,
    ensures
        2 * backward_arcs(
            flow_relation(checked, classes),
            flow_nets(checked, classes),
            flow_sequence(checked, classes),
        ) <= all_arcs(flow_relation(checked, classes), flow_nets(checked, classes)),
{
    let m = flow_relation(checked, classes);
    let nets = flow_nets(checked, classes);
    assert forall|u: int| 0 <= u < nets.len() && nets[u] implies !#[trigger] m[u][u] by {
        if m[u][u] {
            joined_places(checked, classes, u as usize, u as usize);
        }
    }
    half_run_forward(m, nets, 0);
}

/// The graph has an edge of element `i` from net `a` to net `b`.
pub open spec fn lists_edge(r: SignalFlow, i: int, a: int, b: int, kind: EdgeKind) -> bool {
    exists|e: FlowEdge| #[trigger]
        r.edges@.contains(e) && e.element == i && e.from == a && e.to == b && e.kind == kind
}

proof fn listed_is_contributed(
    checked: &CheckedNetlist,
    classes: Seq<Option<NetClass>>,
    r: SignalFlow,
    i: usize,
    a: usize,
    b: usize,
    kind: EdgeKind,
)
    requires
        flow_of(checked, classes, r),
    ensures
        lists_edge(r, i as int, a as int, b as int, kind) <==> contributes(
            checked,
            classes,
            i as int,
            a,
            b,
            kind,
        ),
{
    if lists_edge(r, i as int, a as int, b as int, kind) {
        let e = choose|e: FlowEdge| #[trigger]
            r.edges@.contains(e) && e.element == i && e.from == a && e.to == b && e.kind == kind;
        assert(is_flow_edge(checked, classes, e));
    }
    if contributes(checked, classes, i as int, a, b, kind) {
        let e = FlowEdge {
            element: i,
            from: a,
            to: b,
            kind,
            feedback: runs_backward(checked, classes, a, b),
        };
        assert(is_flow_edge(checked, classes, e));
        assert(r.edges@.contains(e));
    }
}

/// The signal runs through a device from control to output and along its
/// current. Between two different signal nets, a transistor has an edge from
/// its base or gate to its collector or drain, and from there to its emitter
/// or source; a diode has one from anode to cathode; a controlled source one
/// from its control input to its output; a drawn source one from its positive
/// to its negative terminal. No device has any other edge.
pub proof fn devices_pass_the_signal_on(
    checked: &CheckedNetlist,
    classes: Seq<Option<NetClass>>,
    r: SignalFlow,
    i: usize,
    a: usize,
    b: usize,
)
    requires
        checked.wf(),
        flow_of(checked, classes, r),
        i < checked.elements@.len(),
    ensures
        ({
            let e = checked.elements@[i as int];
            let n = e.nodes@;
            let carries = |net: usize|
                classes[net as int] is None || classes[net as int] == Some(NetClass::Signal);
            let step = |s: int, t: int|
                s < n.len() && t < n.len() && n[s] == a && n[t] == b && a != b && carries(a)
                    && carries(b);
            lists_edge(r, i as int, a as int, b as int, EdgeKind::Device) <==> match e.kind {
                ElementKind::Bjt => n.len() >= 3 && (step(1, 0) || step(0, 2)),
                ElementKind::Mosfet => n.len() >= 3 && (step(1, 0) || step(0, 2)),
                ElementKind::Jfet => n.len() >= 3 && (step(1, 0) || step(0, 2)),
                ElementKind::Diode => step(0, 1),
                ElementKind::Vcvs => step(2, 0),
                ElementKind::Vccs => step(2, 0),
                ElementKind::VoltageSrc => !(e.role is Power) && step(0, 1),
                ElementKind::CurrentSrc => !(e.role is Power) && step(0, 1),
                ElementKind::Resistor => false,
                ElementKind::Capacitor => false,
                ElementKind::Inductor => false,
                ElementKind::Other => false,
            }
        }),
{
    let e = checked.elements@[i as int];
    let n = e.nodes@;
    let paths = device_paths(e);
    listed_is_contributed(checked, classes, r, i, a, b, EdgeKind::Device);
    if paths.contains((a, b)) {
        let k = choose|k: int| 0 <= k < paths.len() && paths[k] == (a, b);
        assert(paths[k] == (a, b));
    }
    if paths.len() > 0 {
        assert(paths.contains(paths[0]));
    }
    if paths.len() > 1 {
        assert(paths.contains(paths[1]));
    }
}

/// Some device drives the net: it is the collector, drain, emitter or source of
/// a transistor, the cathode of a diode, the output of a controlled source or
/// the positive terminal of a drawn source.
pub proof fn driven_nets_are_outputs(checked: &CheckedNetlist, net: usize)
    ensures
        is_driver(checked, net) <==> exists|i: int|
            0 <= i < checked.elements@.len() && ({
                let e = #[trigger] checked.elements@[i];
                let n = e.nodes@;
                match e.kind {
                    ElementKind::Bjt | ElementKind::Mosfet | ElementKind::Jfet => n.len() >= 3 && (
                    n[0] == net || n[2] == net),
                    ElementKind::Diode => n.len() >= 2 && n[1] == net,
                    ElementKind::Vcvs | ElementKind::Vccs => n.len() >= 3 && n[0] == net,
                    ElementKind::VoltageSrc | ElementKind::CurrentSrc => !(e.role is Power)
                        && n.len() >= 2 && n[0] == net,
                    _ => false,
                }
            }),
{
    assert forall|i: int| 0 <= i < checked.elements@.len() implies (driven_nets(
        #[trigger] checked.elements@[i],
    ).contains(net) <==> ({
        let e = checked.elements@[i];
        let n = e.nodes@;
        match e.kind {
            ElementKind::Bjt | ElementKind::Mosfet | ElementKind::Jfet => n.len() >= 3 && (n[0]
                == net || n[2] == net),
            ElementKind::Diode => n.len() >= 2 && n[1] == net,
            ElementKind::Vcvs | ElementKind::Vccs => n.len() >= 3 && n[0] == net,
            ElementKind::VoltageSrc | ElementKind::CurrentSrc => !(e.role is Power) && n.len() >= 2
                && n[0] == net,
            _ => false,
        }
    })) by {
        let s = driven_nets(checked.elements@[i]);
        if s.len() > 0 {
            assert(s.contains(s[0]));
        }
        if s.len() > 1 {
            assert(s.contains(s[1]));
        }
    }
}

/// Some device is controlled by the net: it is the base or gate of a
/// transistor or a control input of a controlled source.
pub proof fn control_nets_are_inputs(checked: &CheckedNetlist, net: usize)
    ensures
        is_control(checked, net) <==> exists|i: int|
            0 <= i < checked.elements@.len() && ({
                let e = #[trigger] checked.elements@[i];
                let n = e.nodes@;
                match e.kind {
                    ElementKind::Bjt | ElementKind::Mosfet | ElementKind::Jfet => n.len() >= 3
                        && n[1] == net,
                    ElementKind::Vcvs | ElementKind::Vccs => n.len() >= 3 && n[2] == net || n.len()
                        >= 4 && n[3] == net,
                    _ => false,
                }
            }),
{
    assert forall|i: int| 0 <= i < checked.elements@.len() implies (control_nets(
        #[trigger] checked.elements@[i],
    ).contains(net) <==> ({
        let e = checked.elements@[i];
        let n = e.nodes@;
        match e.kind {
            ElementKind::Bjt | ElementKind::Mosfet | ElementKind::Jfet => n.len() >= 3 && n[1]
                == net,
            ElementKind::Vcvs | ElementKind::Vccs => n.len() >= 3 && n[2] == net || n.len() >= 4
                && n[3] == net,
            _ => false,
        }
    })) by {
        let s = control_nets(checked.elements@[i]);
        if s.len() > 0 {
            assert(s.contains(s[0]));
        }
        if s.len() > 1 {
            assert(s.contains(s[1]));
        }
    }
}

/// The net is where the signal enters the circuit: it carries a declared input,
/// is the positive terminal of a drawn source, or has one terminal in the whole
/// netlist and the name of an input.
pub open spec fn enters_here(
    checked: &CheckedNetlist,
    classes: Seq<Option<NetClass>>,
    net: int,
) -> bool {
    &&& classes[net] is None || classes[net] == Some(NetClass::Signal)
    &&& exists|i: int, k: int|
        0 <= i < checked.elements@.len() && 0 <= k < checked.elements@[i].nodes@.len()
            && #[trigger] checked.elements@[i].nodes@[k] == net
    &&& {
        ||| exists|p: int|
            0 <= p < checked.ports@.len() && (#[trigger] checked.ports@[p]).net == net
                && checked.ports@[p].dir == PortDir::Input
        ||| exists|i: int|
            0 <= i < checked.elements@.len() && ({
                let e = #[trigger] checked.elements@[i];
                (e.kind == ElementKind::VoltageSrc || e.kind == ElementKind::CurrentSrc) && !(
                e.role is Power) && e.nodes@.len() > 0 && e.nodes@[0] == net
            })
        ||| terminals(checked, net) == 1 && boundary_role(checked.nets@[net]@) == Some(
            PortDir::Input,
        )
    }
}

proof fn seeds_are_entries(checked: &CheckedNetlist, classes: Seq<Option<NetClass>>, net: int)
    ensures
        is_seed(checked, classes, net) <==> enters_here(checked, classes, net),
{
    assert(checked.touched(net) <==> exists|i: int, k: int|
        0 <= i < checked.elements@.len() && 0 <= k < checked.elements@[i].nodes@.len()
            && #[trigger] checked.elements@[i].nodes@[k] == net) by {
        if checked.touched(net) {
            let i = choose|i: int|
                0 <= i < checked.elements@.len() && #[trigger] checked.touches(i, net);
            let k = choose|k: int|
                0 <= k < checked.elements@[i].nodes@.len()
                    && #[trigger] checked.elements@[i].nodes@[k] == net;
            assert(checked.elements@[i].nodes@[k] == net);
        }
        if exists|i: int, k: int|
            0 <= i < checked.elements@.len() && 0 <= k < checked.elements@[i].nodes@.len()
                && #[trigger] checked.elements@[i].nodes@[k] == net {
            let (i, k) = choose|i: int, k: int|
                0 <= i < checked.elements@.len() && 0 <= k < checked.elements@[i].nodes@.len()
                    && #[trigger] checked.elements@[i].nodes@[k] == net;
            assert(checked.touches(i, net));
        }
    }
    if is_seed(checked, classes, net) {
        if exists|i: int|
            0 <= i < checked.elements@.len() && #[trigger] signal_source_at(checked, i)
                && checked.elements@[i].nodes@.len() > 0 && checked.elements@[i].nodes@[0] == net {
            let i = choose|i: int|
                0 <= i < checked.elements@.len() && #[trigger] signal_source_at(checked, i)
                    && checked.elements@[i].nodes@.len() > 0 && checked.elements@[i].nodes@[0]
                    == net;
            let e = checked.elements@[i];
        }
    }
    if enters_here(checked, classes, net) {
        if exists|i: int|
            0 <= i < checked.elements@.len() && ({
                let e = #[trigger] checked.elements@[i];
                (e.kind == ElementKind::VoltageSrc || e.kind == ElementKind::CurrentSrc) && !(
                e.role is Power) && e.nodes@.len() > 0 && e.nodes@[0] == net
            }) {
            let i = choose|i: int|
                0 <= i < checked.elements@.len() && ({
                    let e = #[trigger] checked.elements@[i];
                    (e.kind == ElementKind::VoltageSrc || e.kind == ElementKind::CurrentSrc) && !(
                    e.role is Power) && e.nodes@.len() > 0 && e.nodes@[0] == net
                });
            assert(signal_source_at(checked, i));
        }
    }
}

/// The net is where the signal enters the circuit or, where it enters nowhere,
/// the first signal net that an element touches.
pub open spec fn starts_here(
    checked: &CheckedNetlist,
    classes: Seq<Option<NetClass>>,
    net: int,
) -> bool {
    ||| enters_here(checked, classes, net)
    ||| {
        &&& forall|m: int|
            0 <= m < checked.nets@.len() ==> !#[trigger] enters_here(checked, classes, m)
        &&& is_signal(classes[net]) && checked.touched(net)
        &&& forall|m: int|
            0 <= m < net ==> !(#[trigger] checked.touched(m) && is_signal(classes[m]))
    }
}

/// `w` is a walk from where the signal starts to a net, one listed edge at a
/// time and in either direction.
pub open spec fn signal_walk(
    checked: &CheckedNetlist,
    classes: Seq<Option<NetClass>>,
    r: SignalFlow,
    w: Seq<int>,
    net: int,
) -> bool {
    &&& w.len() >= 1
    &&& w.last() == net
    &&& starts_here(checked, classes, w[0])
    &&& forall|k: int| 0 <= k < w.len() ==> 0 <= #[trigger] w[k] < checked.nets@.len()
    &&& forall|k: int|
        0 <= k < w.len() - 1 ==> exists|e: FlowEdge| #[trigger]
            r.edges@.contains(e) && (e.from == #[trigger] w[k] && e.to == w[k + 1] || e.from == w[k
                + 1] && e.to == w[k])
}

proof fn roots_start_here(checked: &CheckedNetlist, classes: Seq<Option<NetClass>>, net: int)
    requires
        0 <= net < checked.nets@.len(),
    ensures
        flow_roots(checked, classes)[net] <==> starts_here(checked, classes, net),
{
    assert forall|m: int| #[trigger] is_seed(checked, classes, m) <==> enters_here(
        checked,
        classes,
        m,
    ) by {
        seeds_are_entries(checked, classes, m);
    }
    assert forall|m: int| #[trigger] enters_here(checked, classes, m) <==> is_seed(
        checked,
        classes,
        m,
    ) by {
        seeds_are_entries(checked, classes, m);
    }
    if !has_seed(checked, classes) && is_flow_net(checked, classes, net) {
        assert((forall|m: int| 0 <= m < net ==> !#[trigger] is_flow_net(checked, classes, m))
            <==> forall|m: int|
            0 <= m < net ==> !(#[trigger] checked.touched(m) && is_signal(classes[m]))) by {
            if forall|m: int| 0 <= m < net ==> !#[trigger] is_flow_net(checked, classes, m) {
                assert forall|m: int| 0 <= m < net implies !(#[trigger] checked.touched(m)
                    && is_signal(classes[m])) by {
                    assert(!is_flow_net(checked, classes, m));
                }
            }
            if forall|m: int|
                0 <= m < net ==> !(#[trigger] checked.touched(m) && is_signal(classes[m])) {
                assert forall|m: int| 0 <= m < net implies !#[trigger] is_flow_net(
                    checked,
                    classes,
                    m,
                ) by {
                    assert(checked.touched(m) ==> !is_signal(classes[m]));
                }
            }
        }
    }
}

/// Two nets are joined exactly if an edge is listed between them.
proof fn joined_is_listed(
    checked: &CheckedNetlist,
    classes: Seq<Option<NetClass>>,
    r: SignalFlow,
    a: usize,
    b: usize,
)
    requires
        checked.wf(),
        checked.elements@.len() <= usize::MAX,
        flow_of(checked, classes, r),
    ensures
        nets_joined(checked, classes, a, b) <==> exists|e: FlowEdge| #[trigger]
            r.edges@.contains(e) && (e.from == a && e.to == b || e.from == b && e.to == a),
{
    if nets_joined(checked, classes, a, b) {
        let i = choose|i: int|
            {
                ||| #[trigger] device_edge(checked, classes, i, a, b)
                ||| device_edge(checked, classes, i, b, a)
                ||| passive_pair(checked, classes, i, a, b)
                ||| passive_pair(checked, classes, i, b, a)
            };
        let (s, t, kind) = if device_edge(checked, classes, i, a, b) {
            (a, b, EdgeKind::Device)
        } else if device_edge(checked, classes, i, b, a) {
            (b, a, EdgeKind::Device)
        } else if passive_pair(checked, classes, i, a, b) {
            if points_forward(checked, classes, a, b) {
                (a, b, EdgeKind::Passive)
            } else {
                (b, a, EdgeKind::Passive)
            }
        } else {
            if points_forward(checked, classes, b, a) {
                (b, a, EdgeKind::Passive)
            } else {
                (a, b, EdgeKind::Passive)
            }
        };
        assert(contributes(checked, classes, i, s, t, kind));
        let e = FlowEdge {
            element: i as usize,
            from: s,
            to: t,
            kind,
            feedback: runs_backward(checked, classes, s, t),
        };
        assert(is_flow_edge(checked, classes, e));
        assert(r.edges@.contains(e));
    }
    if exists|e: FlowEdge| #[trigger]
        r.edges@.contains(e) && (e.from == a && e.to == b || e.from == b && e.to == a) {
        let e = choose|e: FlowEdge| #[trigger]
            r.edges@.contains(e) && (e.from == a && e.to == b || e.from == b && e.to == a);
        assert(is_flow_edge(checked, classes, e));
        let i = e.element as int;
        assert(contributes(checked, classes, i, e.from, e.to, e.kind));
        assert(device_edge(checked, classes, i, a, b) || device_edge(checked, classes, i, b, a)
            || passive_pair(checked, classes, i, a, b) || passive_pair(checked, classes, i, b, a));
    }
}

proof fn net_graph_edges(checked: &CheckedNetlist, classes: Seq<Option<NetClass>>, a: int, b: int)
    requires
        checked.nets@.len() <= usize::MAX,
    ensures
        has_edge(net_graph(checked, classes), a, b) <==> 0 <= a < checked.nets@.len() && 0 <= b
            < checked.nets@.len() && nets_joined(checked, classes, a as usize, b as usize),
{
    let n = checked.nets@.len() as int;
    let g = net_graph(checked, classes);
    if 0 <= a < n {
        let p = joined_to(checked, classes, a as usize);
        if has_edge(g, a, b) {
            let k = choose|k: int| 0 <= k < g[a].len() && #[trigger] g[a][k] == b;
            where_list_contains(p, n, g[a][k]);
            assert(g[a].contains(g[a][k]));
        }
        if 0 <= b < n && nets_joined(checked, classes, a as usize, b as usize) {
            where_list_contains(p, n, b as usize);
            let k = choose|k: int| 0 <= k < g[a].len() && g[a][k] == b as usize;
            assert(g[a][k] == b);
        }
    }
}

proof fn signal_walks_are_walks(
    checked: &CheckedNetlist,
    classes: Seq<Option<NetClass>>,
    r: SignalFlow,
    w: Seq<int>,
    net: int,
)
    requires
        checked.wf(),
        checked.nets@.len() <= usize::MAX,
        checked.elements@.len() <= usize::MAX,
        flow_of(checked, classes, r),
        0 <= net < checked.nets@.len(),
        w.len() > 0 ==> 0 <= w[0] < checked.nets@.len(),
    ensures
        signal_walk(checked, classes, r, w, net) <==> walks_to(
            net_graph(checked, classes),
            flow_roots(checked, classes),
            w,
            net,
        ),
{
    let n = checked.nets@.len();
    let g = net_graph(checked, classes);
    if w.len() > 0 {
        roots_start_here(checked, classes, w[0]);
    }
    if signal_walk(checked, classes, r, w, net) {
        assert forall|k: int| 0 <= k < w.len() - 1 implies has_edge(g, #[trigger] w[k], w[k + 1]) by {
            assert(0 <= w[k] < n && 0 <= w[k + 1] < n);
            joined_is_listed(checked, classes, r, w[k] as usize, w[k + 1] as usize);
            net_graph_edges(checked, classes, w[k], w[k + 1]);
        }
    }
    if walks_to(g, flow_roots(checked, classes), w, net) {
        assert forall|k: int| 0 <= k < w.len() implies 0 <= #[trigger] w[k] < n by {
            if k > 0 {
                assert(has_edge(g, w[k - 1], w[k - 1 + 1]));
                net_graph_edges(checked, classes, w[k - 1], w[k]);
            }
        }
        assert forall|k: int| 0 <= k < w.len() - 1 implies exists|e: FlowEdge| #[trigger]
            r.edges@.contains(e) && (e.from == #[trigger] w[k] && e.to == w[k + 1] || e.from == w[k
                + 1] && e.to == w[k]) by {
            assert(has_edge(g, w[k], w[k + 1]));
            net_graph_edges(checked, classes, w[k], w[k + 1]);
            joined_is_listed(checked, classes, r, w[k] as usize, w[k + 1] as usize);
        }
    }
}

/// Some walk leads from where the signal starts to `a` that is shorter than
/// every one to `b`.
pub open spec fn hears_sooner(
    checked: &CheckedNetlist,
    classes: Seq<Option<NetClass>>,
    r: SignalFlow,
    a: int,
    b: int,
) -> bool {
    exists|w: Seq<int>| #[trigger]
        signal_walk(checked, classes, r, w, a) && forall|x: Seq<int>| #[trigger]
            signal_walk(checked, classes, r, x, b) ==> w.len() < x.len()
}

proof fn flow_rank_is_a_walk(
    checked: &CheckedNetlist,
    classes: Seq<Option<NetClass>>,
    r: SignalFlow,
    net: int,
)
    requires
        checked.wf(),
        checked.nets@.len() < u32::MAX,
        checked.elements@.len() <= usize::MAX,
        flow_of(checked, classes, r),
        0 <= net < checked.nets@.len(),
    ensures
        ({
            let d = flow_rank(checked, classes, net);
            if d < u32::MAX {
                &&& exists|w: Seq<int>| #[trigger]
                    signal_walk(checked, classes, r, w, net) && w.len() == d + 1
                &&& forall|w: Seq<int>| #[trigger]
                    signal_walk(checked, classes, r, w, net) ==> w.len() >= d + 1
            } else {
                &&& d == u32::MAX
                &&& forall|w: Seq<int>| !#[trigger] signal_walk(checked, classes, r, w, net)
            }
        }),
{
    let g = net_graph(checked, classes);
    let roots = flow_roots(checked, classes);
    assert forall|w: Seq<int>| #[trigger] signal_walk(checked, classes, r, w, net) implies walks_to(
        g,
        roots,
        w,
        net,
    ) by {
        assert(0 <= w[0] < checked.nets@.len());
        signal_walks_are_walks(checked, classes, r, w, net);
    }
    reached_by_walks(g, roots, net);
    if reached(g, roots, net) {
        let e = reached_has_a_distance(g, roots, net);
        let d = choose|d: nat| is_distance(g, roots, net, d);
        assert(is_distance(g, roots, net, e));
        distances_are_short(g, roots, net, d);
        distances_are_shortest_walks(g, roots, net, d);
        let w = choose|w: Seq<int>| #[trigger] walks_to(g, roots, w, net) && w.len() == d + 1;
        if w.len() > 1 {
            assert(has_edge(g, w[0], w[0int + 1]));
            net_graph_edges(checked, classes, w[0], w[1]);
        }
        signal_walks_are_walks(checked, classes, r, w, net);
        assert(signal_walk(checked, classes, r, w, net));
    }
}

proof fn nearer_hears_sooner(
    checked: &CheckedNetlist,
    classes: Seq<Option<NetClass>>,
    r: SignalFlow,
    a: int,
    b: int,
)
    requires
        checked.wf(),
        checked.nets@.len() < u32::MAX,
        checked.elements@.len() <= usize::MAX,
        flow_of(checked, classes, r),
        0 <= a < checked.nets@.len(),
        0 <= b < checked.nets@.len(),
    ensures
        flow_rank(checked, classes, a) < flow_rank(checked, classes, b) <==> hears_sooner(
            checked,
            classes,
            r,
            a,
            b,
        ),
{
    flow_rank_is_a_walk(checked, classes, r, a);
    flow_rank_is_a_walk(checked, classes, r, b);
    let (da, db) = (flow_rank(checked, classes, a), flow_rank(checked, classes, b));
    if da < db {
        let w = choose|w: Seq<int>| #[trigger]
            signal_walk(checked, classes, r, w, a) && w.len() == da + 1;
        assert(signal_walk(checked, classes, r, w, a));
        assert forall|x: Seq<int>| #[trigger] signal_walk(checked, classes, r, x, b) implies w.len()
            < x.len() by {}
    }
    if hears_sooner(checked, classes, r, a, b) {
        let w = choose|w: Seq<int>| #[trigger]
            signal_walk(checked, classes, r, w, a) && forall|x: Seq<int>| #[trigger]
                signal_walk(checked, classes, r, x, b) ==> w.len() < x.len();
        assert(signal_walk(checked, classes, r, w, a));
        if db < u32::MAX {
            let x = choose|x: Seq<int>| #[trigger]
                signal_walk(checked, classes, r, x, b) && x.len() == db + 1;
            assert(w.len() < x.len());
        }
    }
}

/// A resistor, capacitor or inductor between two different signal nets carries
/// one edge. It runs from a net that devices only drive to one that only
/// controls devices; failing that, away from where the signal starts; and
/// between nets at the same distance from there, from the earlier name to the
/// later. Nothing else carries such an edge.
pub proof fn passives_point_away_from_the_start(
    checked: &CheckedNetlist,
    classes: Seq<Option<NetClass>>,
    r: SignalFlow,
    i: usize,
    a: usize,
    b: usize,
)
    requires
        checked.wf(),
        checked.nets@.len() < u32::MAX,
        checked.elements@.len() <= usize::MAX,
        flow_of(checked, classes, r),
        i < checked.elements@.len(),
    ensures
        ({
            let e = checked.elements@[i as int];
            let n = e.nodes@;
            let passive = e.kind == ElementKind::Resistor || e.kind == ElementKind::Capacitor
                || e.kind == ElementKind::Inductor;
            let carries = |net: usize|
                classes[net as int] is None || classes[net as int] == Some(NetClass::Signal);
            let bridges = passive && n.len() >= 2 && a != b && carries(a) && carries(b) && (n[0] == a
                && n[1] == b || n[0] == b && n[1] == a);
            let output = |net: usize| is_driver(checked, net) && !is_control(checked, net);
            let input = |net: usize| is_control(checked, net) && !is_driver(checked, net);
            let sooner = |s: usize, t: usize|
                hears_sooner(checked, classes, r, s as int, t as int);
            let runs = |s: usize, t: usize|
                lists_edge(r, i as int, s as int, t as int, EdgeKind::Passive);
            &&& !bridges ==> !runs(a, b)
            &&& bridges ==> runs(a, b) != runs(b, a)
            &&& bridges && output(a) && input(b) ==> runs(a, b)
            &&& bridges && !(output(a) && input(b)) && !(output(b) && input(a)) ==> {
                &&& sooner(a, b) ==> runs(a, b)
                &&& !sooner(a, b) && !sooner(b, a) && a < b ==> runs(a, b)
            }
        }),
{
    let e = checked.elements@[i as int];
    let n = e.nodes@;
    assert(nets_in_range(checked.elements@[i as int].nodes@, checked.nets@.len()));
    listed_is_contributed(checked, classes, r, i, a, b, EdgeKind::Passive);
    listed_is_contributed(checked, classes, r, i, b, a, EdgeKind::Passive);
    if n.len() >= 2 && (n[0] == a && n[1] == b || n[0] == b && n[1] == a) {
        nearer_hears_sooner(checked, classes, r, a as int, b as int);
        nearer_hears_sooner(checked, classes, r, b as int, a as int);
    }
}

} // verus!
