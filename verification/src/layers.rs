//! Horizontal layers: which column of the sheet an element belongs to.
//!
//! A netlist with signal sources is layered by longest paths from them, after
//! the cycles of its signal graph are broken. A netlist without is layered by
//! distance from its left edge: declared or named inputs and rail stubs.

use vstd::prelude::*;


#[allow(unused_imports)]
use crate::bands::has_class;

#[allow(unused_imports)]
use crate::counting::{count, count_bound, sum};
use crate::cycles::break_cycles;
#[allow(unused_imports)]
use crate::cycles::{acyclic, ranked, replay, same_neighbours, valid_reversals};
use crate::distance::bfs_distances;
#[allow(unused_imports)]
use crate::distance::{
    distances, distances_are_short, distances_are_shortest_walks, is_distance, reached,
    reached_by_walks, walks_to,
};
use crate::layering::{
    barycenter_order, compact_layers, identity_order, longest_path_layers, rank_by_layer,
};
#[allow(unused_imports)]
use crate::layering::{
    barycenter_positions, compacted, holds_at, is_layering, occurrences, rank_in,
};
#[allow(unused_imports)]
use crate::names::{ascii_lower, ascii_lower_char};
use crate::names::str_eq;
use crate::net_class::{element_touches, NetClass, NetClassMap};
use crate::netlist::{CheckedNetlist, ElementKind, PortDir};
#[allow(unused_imports)]
use crate::netlist::nets_in_range;
use crate::placer::Placer;
#[allow(unused_imports)]
use crate::placer::champion_placer;
use crate::signal_graph::{signal_adjacency, signal_net};
#[allow(unused_imports)]
use crate::signal_graph::{is_signal, share_signal, signal_graph};
#[allow(unused_imports)]
use crate::tarjan::{graph_wf, has_edge, lists};

verus! {

/// Result of X-layer assignment for the full netlist.
#[derive(Debug)]
pub struct LayerAssignment {
    /// Layer index per element; 0 is leftmost.
    pub layers: Vec<u32>,
    /// Rank within each layer, in element order.
    pub rank_in_layer: Vec<u32>,
    /// Within-layer ordering key.
    pub order_key: Vec<u32>,
    /// Edges that were reversed to break cycles, as element indices.
    pub feedback_edges: Vec<(usize, usize)>,
    /// True when the netlist has no signal source.
    pub no_source_fallback: bool,
}

// ---------------------------------------------------------------------------
// Boundary nets by name
// ---------------------------------------------------------------------------

/// An ASCII digit.
pub open spec fn is_digit(c: char) -> bool {
    '0' <= c && c <= '9'
}

/// A channel-number separator.
pub open spec fn is_separator(c: char) -> bool {
    c == '_' || c == '-' || c == '.'
}

/// The name without its trailing digits.
pub open spec fn undigited(s: Seq<char>) -> Seq<char>
    decreases s.len(),
{
    if s.len() > 0 && is_digit(s.last()) {
        undigited(s.drop_last())
    } else {
        s
    }
}

/// The name without its channel number: trailing digits go, and where there
/// were any, one separator before them.
pub open spec fn channel_stem(s: Seq<char>) -> Seq<char> {
    let stem = undigited(s);
    if stem.len() < s.len() && stem.len() > 0 && is_separator(stem.last()) {
        stem.drop_last()
    } else {
        stem
    }
}

/// What a net's name says of its place at the circuit's boundary.
pub open spec fn boundary_role(name: Seq<char>) -> Option<PortDir> {
    let stem = channel_stem(ascii_lower(name));
    if stem == "in"@ || stem == "input"@ || stem == "vin"@ {
        Some(PortDir::Input)
    } else if stem == "out"@ || stem == "output"@ || stem == "vout"@ {
        Some(PortDir::Output)
    } else {
        None
    }
}

proof fn undigited_at(s: Seq<char>, n: int)
    requires
        0 <= n <= s.len(),
        forall|j: int| n <= j < s.len() ==> is_digit(#[trigger] s[j]),
        n == 0 || !is_digit(s[n - 1]),
    ensures
        undigited(s) == s.take(n),
    decreases s.len(),
{
    if n == s.len() {
        assert(s.take(n) =~= s);
    } else {
        assert(is_digit(s[s.len() - 1]));
        let r = s.drop_last();
        assert forall|j: int| n <= j < r.len() implies is_digit(#[trigger] r[j]) by {
            assert(is_digit(s[j]));
        }
        undigited_at(r, n);
        assert(r.take(n) =~= s.take(n));
    }
}

/// Classifies a net name as a circuit input or output: the bare words `in`,
/// `input`, `vin`, `out`, `output` and `vout`, with an optional channel number.
pub fn boundary_net_role(net: &str) -> (r: Option<PortDir>)
    ensures
        r == boundary_role(net@),
{
    let lower = net.to_ascii_lowercase();
    let lo = lower.as_str();
    let n: usize = lo.unicode_len();
    let mut m: usize = n;
    while m > 0 && '0' <= lo.get_char(m - 1) && lo.get_char(m - 1) <= '9'
        invariant
            n == lo@.len(),
            m <= n,
            forall|j: int| m <= j < n ==> is_digit(#[trigger] lo@[j]),
        decreases m,
    {
        m = m - 1;
    }
    proof {
        undigited_at(lo@, m as int);
    }
    if m < n && m > 0 {
        let c: char = lo.get_char(m - 1);
        if c == '_' || c == '-' || c == '.' {
            m = m - 1;
            assert(channel_stem(lo@) =~= lo@.subrange(0, m as int));
        } else {
            assert(channel_stem(lo@) =~= lo@.subrange(0, m as int));
        }
    } else {
        assert(channel_stem(lo@) =~= lo@.subrange(0, m as int));
    }
    let stem = lo.substring_char(0, m);
    if str_eq(stem, "in") || str_eq(stem, "input") || str_eq(stem, "vin") {
        Some(PortDir::Input)
    } else if str_eq(stem, "out") || str_eq(stem, "output") || str_eq(stem, "vout") {
        Some(PortDir::Output)
    } else {
        None
    }
}

/// A channel number does not change what a name says.
pub proof fn channel_numbers_are_ignored(name: Seq<char>, digit: char)
    requires
        is_digit(digit),
        name.len() > 0,
        !is_digit(name.last()),
        !is_separator(name.last()),
    ensures
        boundary_role(name.push(digit)) == boundary_role(name),
{
    let lo = ascii_lower(name);
    let lod = ascii_lower(name.push(digit));
    assert(lod =~= lo.push(digit));
    assert(lo.last() == ascii_lower_char(name.last()));
    assert(!is_digit(lo.last()) && !is_separator(lo.last()));
    undigited_at(lo, lo.len() as int);
    assert(lod.drop_last() =~= lo);
    assert(lo.take(lo.len() as int) =~= lo);
}

// ---------------------------------------------------------------------------
// Structure of the signal graph's boundary
// ---------------------------------------------------------------------------

/// The element is a drawn voltage or current source.
pub open spec fn signal_source_at(checked: &CheckedNetlist, i: int) -> bool {
    let e = checked.elements@[i];
    (e.kind == ElementKind::VoltageSrc || e.kind == ElementKind::CurrentSrc) && !e.role.is_power()
}

/// Whether the element is a drawn voltage or current source.
pub fn is_signal_source(checked: &CheckedNetlist, idx: usize) -> (r: bool)
    requires
        idx < checked.elements@.len(),
    ensures
        r == signal_source_at(checked, idx as int),
{
    let e = &checked.elements[idx];
    (e.kind == ElementKind::VoltageSrc || e.kind == ElementKind::CurrentSrc) && !e.role.power()
}

/// The number of terminals on the net.
pub open spec fn terminals(checked: &CheckedNetlist, net: int) -> int {
    sum(
        |i: int| occurrences(checked.elements@[i].nodes@, net) as int,
        checked.elements@.len() as int,
    )
}

/// The net is a circuit boundary in the given direction: a signal net that
/// either has one terminal and a name that says so, or carries a port.
pub open spec fn boundary_net(
    checked: &CheckedNetlist,
    classes: Seq<Option<NetClass>>,
    dir: PortDir,
    net: int,
) -> bool {
    &&& is_signal(classes[net])
    &&& {
        ||| terminals(checked, net) == 1 && boundary_role(checked.nets@[net]@) == Some(dir)
        ||| exists|p: int|
            0 <= p < checked.ports@.len() && (#[trigger] checked.ports@[p]).net == net
                && checked.ports@[p].dir == dir
    }
}

/// The element is on a boundary net of the given direction.
pub open spec fn on_boundary(
    checked: &CheckedNetlist,
    classes: Seq<Option<NetClass>>,
    dir: PortDir,
    i: int,
) -> bool {
    exists|net: int|
        0 <= net < checked.nets@.len() && #[trigger] checked.touches(i, net) && boundary_net(
            checked,
            classes,
            dir,
            net,
        )
}

/// The number of different signal nets on the element.
pub open spec fn signal_degree(
    checked: &CheckedNetlist,
    classes: Seq<Option<NetClass>>,
    i: int,
) -> nat {
    count(|net: int| is_signal(classes[net]) && checked.touches(i, net), checked.nets@.len() as int)
}

/// Some terminal of the element is on a supply.
pub open spec fn touches_power(
    checked: &CheckedNetlist,
    classes: Seq<Option<NetClass>>,
    i: int,
) -> bool {
    has_class(checked.elements@[i], classes, NetClass::Power)
}

/// Some terminal of the element is on a supply or on ground.
pub open spec fn touches_rail(
    checked: &CheckedNetlist,
    classes: Seq<Option<NetClass>>,
    i: int,
) -> bool {
    has_class(checked.elements@[i], classes, NetClass::Power) || has_class(
        checked.elements@[i],
        classes,
        NetClass::Ground,
    )
}

/// The element is on an input and passes the signal through.
pub open spec fn input_root(
    checked: &CheckedNetlist,
    classes: Seq<Option<NetClass>>,
    i: int,
) -> bool {
    on_boundary(checked, classes, PortDir::Input, i) && signal_degree(checked, classes, i) <= 2
}

/// The element hangs off one signal net from a rail.
pub open spec fn rail_stub(checked: &CheckedNetlist, classes: Seq<Option<NetClass>>, i: int) -> bool {
    touches_rail(checked, classes, i) && signal_degree(checked, classes, i) <= 1
}

/// The layering is rooted at signal-flow inputs: the policy asks for it and
/// some input reaches the signal graph.
pub open spec fn flow_rooted(
    checked: &CheckedNetlist,
    classes: Seq<Option<NetClass>>,
    flow: bool,
) -> bool {
    flow && exists|i: int|
        0 <= i < checked.elements@.len() && #[trigger] input_root(checked, classes, i)
            && signal_degree(checked, classes, i) >= 1
}

/// An input or an element on a supply.
pub open spec fn coarse_root(
    checked: &CheckedNetlist,
    classes: Seq<Option<NetClass>>,
    i: int,
) -> bool {
    input_root(checked, classes, i) || touches_power(checked, classes, i)
}

/// A coarse root that is an input or a stub.
pub open spec fn refined_root(
    checked: &CheckedNetlist,
    classes: Seq<Option<NetClass>>,
    i: int,
) -> bool {
    coarse_root(checked, classes, i) && (input_root(checked, classes, i) || signal_degree(
        checked,
        classes,
        i,
    ) <= 1)
}

/// Some refined root reaches the signal graph.
pub open spec fn refined_spans(checked: &CheckedNetlist, classes: Seq<Option<NetClass>>) -> bool {
    exists|i: int|
        0 <= i < checked.elements@.len() && #[trigger] refined_root(checked, classes, i)
            && signal_degree(checked, classes, i) >= 1
}

/// Some coarse root reaches the signal graph.
pub open spec fn coarse_spans(checked: &CheckedNetlist, classes: Seq<Option<NetClass>>) -> bool {
    exists|i: int|
        0 <= i < checked.elements@.len() && #[trigger] coarse_root(checked, classes, i)
            && signal_degree(checked, classes, i) >= 1
}

/// `i` is a coarse root that reaches the signal graph with the fewest nets.
pub open spec fn least_coarse(
    checked: &CheckedNetlist,
    classes: Seq<Option<NetClass>>,
    i: int,
) -> bool {
    &&& coarse_root(checked, classes, i)
    &&& signal_degree(checked, classes, i) >= 1
    &&& forall|j: int|
        0 <= j < checked.elements@.len() && #[trigger] coarse_root(checked, classes, j)
            && signal_degree(checked, classes, j) >= 1 ==> signal_degree(checked, classes, i)
            <= signal_degree(checked, classes, j)
}

/// The element is at the left edge.
pub open spec fn is_root(
    checked: &CheckedNetlist,
    classes: Seq<Option<NetClass>>,
    flow: bool,
    i: int,
) -> bool {
    if flow_rooted(checked, classes, flow) {
        input_root(checked, classes, i)
    } else if refined_spans(checked, classes) {
        refined_root(checked, classes, i)
    } else if coarse_spans(checked, classes) {
        least_coarse(checked, classes, i)
    } else {
        refined_root(checked, classes, i)
    }
}

/// The roots as flags.
pub open spec fn root_flags(
    checked: &CheckedNetlist,
    classes: Seq<Option<NetClass>>,
    flow: bool,
) -> Seq<bool> {
    Seq::new(checked.elements@.len(), |i: int| is_root(checked, classes, flow, i))
}

/// `layer` holds the distances from the roots through signal nets, and zero
/// where no root reaches.
pub open spec fn distance_layers(
    checked: &CheckedNetlist,
    classes: Seq<Option<NetClass>>,
    flow: bool,
    layer: Seq<u32>,
) -> bool {
    let g = signal_graph(checked, classes);
    let roots = root_flags(checked, classes, flow);
    &&& layer.len() == checked.elements@.len()
    &&& forall|i: int|
        0 <= i < layer.len() ==> {
            ||| is_distance(g, roots, i, #[trigger] layer[i] as nat)
            ||| layer[i] == 0 && !reached(g, roots, i)
        }
}

/// `j` shares a signal net with the stub `i` and is no stub itself.
pub open spec fn in_company(
    checked: &CheckedNetlist,
    classes: Seq<Option<NetClass>>,
    i: int,
    j: int,
) -> bool {
    &&& 0 <= j < checked.elements@.len()
    &&& has_edge(signal_graph(checked, classes), i, j)
    &&& !rail_stub(checked, classes, j)
}

/// The stub's node is interior: two elements other than stubs meet there, or
/// one with three or more signal nets.
pub open spec fn interior_stub(
    checked: &CheckedNetlist,
    classes: Seq<Option<NetClass>>,
    i: int,
) -> bool {
    ||| count(|j: int| in_company(checked, classes, i, j), checked.elements@.len() as int) >= 2
    ||| exists|j: int| #[trigger]
        in_company(checked, classes, i, j) && signal_degree(checked, classes, j) >= 3
}

/// The stub follows its neighbours' column.
pub open spec fn is_follower(
    checked: &CheckedNetlist,
    classes: Seq<Option<NetClass>>,
    flow: bool,
    i: int,
) -> bool {
    &&& flow_rooted(checked, classes, flow)
    &&& rail_stub(checked, classes, i)
    &&& !is_root(checked, classes, flow, i)
    &&& interior_stub(checked, classes, i)
}

/// `l` is the smallest layer among the stub's company.
pub open spec fn least_company_layer(
    checked: &CheckedNetlist,
    classes: Seq<Option<NetClass>>,
    layer: Seq<u32>,
    i: int,
    l: u32,
) -> bool {
    &&& exists|j: int| #[trigger] in_company(checked, classes, i, j) && layer[j] == l
    &&& forall|j: int| #[trigger] in_company(checked, classes, i, j) ==> l <= layer[j]
}

/// Followers take the smallest layer of their company; the others keep theirs.
pub open spec fn follows(
    checked: &CheckedNetlist,
    classes: Seq<Option<NetClass>>,
    flow: bool,
    layer: Seq<u32>,
    next: Seq<u32>,
) -> bool {
    &&& next.len() == layer.len()
    &&& forall|i: int|
        0 <= i < layer.len() ==> if is_follower(checked, classes, flow, i) {
            least_company_layer(checked, classes, layer, i, #[trigger] next[i])
        } else {
            next[i] == layer[i]
        }
}

/// The largest of the first `n` layers.
pub open spec fn largest_layer(layer: Seq<u32>, n: int) -> u32
    decreases n,
{
    if n <= 0 {
        0
    } else {
        let m = largest_layer(layer, n - 1);
        if layer[n - 1] > m {
            layer[n - 1]
        } else {
            m
        }
    }
}

/// Output elements move one layer past the last.
pub open spec fn outputs_pushed(
    checked: &CheckedNetlist,
    classes: Seq<Option<NetClass>>,
    layer: Seq<u32>,
) -> Seq<u32> {
    let top = largest_layer(layer, layer.len() as int);
    Seq::new(
        layer.len(),
        |i: int|
            if on_boundary(checked, classes, PortDir::Output, i) {
                (top + 1) as u32
            } else {
                layer[i]
            },
    )
}

/// Some element is a root.
pub open spec fn has_roots(
    checked: &CheckedNetlist,
    classes: Seq<Option<NetClass>>,
    flow: bool,
) -> bool {
    exists|i: int| 0 <= i < checked.elements@.len() && #[trigger] is_root(checked, classes, flow, i)
}

/// The layering of a netlist without signal sources. Without roots everything
/// is in layer 0. Otherwise layers are distances from the roots; under
/// flow-rooted layering stubs at interior nodes follow their company; outputs
/// move past the last layer; and under flow-rooted layering empty layers are
/// closed up and layers are ordered by barycenter.
pub open spec fn fallback_of(
    checked: &CheckedNetlist,
    classes: Seq<Option<NetClass>>,
    flow: bool,
    r: LayerAssignment,
) -> bool {
    let n = checked.elements@.len();
    &&& r.no_source_fallback
    &&& r.feedback_edges@.len() == 0
    &&& r.layers@.len() == n
    &&& r.rank_in_layer@ == Seq::new(n, |i: int| rank_in(r.layers@, i) as u32)
    &&& !has_roots(checked, classes, flow) ==> r.layers@ == Seq::new(n, |i: int| 0u32)
        && r.order_key@ == Seq::new(n, |i: int| i as u32)
    &&& has_roots(checked, classes, flow) ==> exists|near: Seq<u32>, next: Seq<u32>|
        #![trigger follows(checked, classes, flow, near, next)]
        {
            let pushed = outputs_pushed(checked, classes, next);
            &&& distance_layers(checked, classes, flow, near)
            &&& follows(checked, classes, flow, near, next)
            &&& if flow_rooted(checked, classes, flow) {
                &&& r.layers@ == compacted(pushed)
                &&& r.order_key@ == barycenter_positions(
                    signal_graph(checked, classes),
                    r.layers@,
                )
            } else {
                &&& r.layers@ == pushed
                &&& r.order_key@ == Seq::new(n, |i: int| i as u32)
            }
        }
}

/// Whether a net has one terminal.
pub fn single_terminal(checked: &CheckedNetlist, net: usize) -> (r: bool)
    ensures
        r == (terminals(checked, net as int) == 1),
{
    let ghost f = |i: int| occurrences(checked.elements@[i].nodes@, net as int) as int;
    let mut total: u8 = 0;
    let mut i: usize = 0;
    while i < checked.elements.len()
        invariant
            f == (|i: int| occurrences(checked.elements@[i].nodes@, net as int) as int),
            i <= checked.elements@.len(),
            total <= 2,
            total < 2 ==> total == sum(f, i as int),
            total == 2 ==> sum(f, i as int) >= 2,
        decreases checked.elements@.len() - i,
    {
        let nodes = &checked.elements[i].nodes;
        let ghost p = holds_at(nodes@, net as int);
        let ghost base = sum(f, i as int);
        let mut k: usize = 0;
        while k < nodes.len()
            invariant
                nodes@ == checked.elements@[i as int].nodes@,
                p == holds_at(nodes@, net as int),
                k <= nodes@.len(),
                total <= 2,
                total < 2 ==> total == base + count(p, k as int),
                total == 2 ==> base + count(p, k as int) >= 2,
            decreases nodes@.len() - k,
        {
            if nodes[k] == net && total < 2 {
                total = total + 1;
            }
            k = k + 1;
        }
        assert(f(i as int) == count(p, nodes@.len() as int));
        i = i + 1;
    }
    total == 1
}

/// Flags the nets that are boundaries in the given direction.
fn boundary_nets(checked: &CheckedNetlist, classes: &NetClassMap, dir: PortDir) -> (r: Vec<bool>)
    requires
        classes.class@.len() == checked.nets@.len(),
    ensures
        r@.len() == checked.nets@.len(),
        forall|net: int|
            0 <= net < r@.len() ==> #[trigger] r@[net] == boundary_net(
                checked,
                classes.class@,
                dir,
                net,
            ),
{
    let mut r: Vec<bool> = Vec::new();
    let mut net: usize = 0;
    while net < checked.nets.len()
        invariant
            classes.class@.len() == checked.nets@.len(),
            net <= checked.nets@.len(),
            r@.len() == net,
            forall|m: int|
                0 <= m < net ==> #[trigger] r@[m] == boundary_net(checked, classes.class@, dir, m),
        decreases checked.nets@.len() - net,
    {
        let mut flag = false;
        if signal_net(classes, net) {
            let named = match boundary_net_role(checked.nets[net].as_str()) {
                Some(d) => d == dir,
                None => false,
            };
            flag = named && single_terminal(checked, net);
            let ghost by_name = flag;
            let mut p: usize = 0;
            while p < checked.ports.len()
                invariant
                    p <= checked.ports@.len(),
                    flag == (by_name || exists|q: int|
                        0 <= q < p && (#[trigger] checked.ports@[q]).net == net
                            && checked.ports@[q].dir == dir),
                decreases checked.ports@.len() - p,
            {
                if checked.ports[p].net == net && checked.ports[p].dir == dir {
                    flag = true;
                }
                p = p + 1;
            }
        }
        r.push(flag);
        net = net + 1;
    }
    r
}

/// Flags the elements on boundary nets of the given direction.
fn boundary_elements(checked: &CheckedNetlist, classes: &NetClassMap, dir: PortDir) -> (r: Vec<bool>)
    requires
        checked.wf(),
        classes.class@.len() == checked.nets@.len(),
    ensures
        r@.len() == checked.elements@.len(),
        forall|i: int|
            0 <= i < r@.len() ==> #[trigger] r@[i] == on_boundary(checked, classes.class@, dir, i),
{
    let nets: Vec<bool> = boundary_nets(checked, classes, dir);
    let mut r: Vec<bool> = Vec::new();
    let mut i: usize = 0;
    while i < checked.elements.len()
        invariant
            checked.wf(),
            nets@.len() == checked.nets@.len(),
            forall|net: int|
                0 <= net < nets@.len() ==> #[trigger] nets@[net] == boundary_net(
                    checked,
                    classes.class@,
                    dir,
                    net,
                ),
            i <= checked.elements@.len(),
            r@.len() == i,
            forall|j: int|
                0 <= j < i ==> #[trigger] r@[j] == on_boundary(checked, classes.class@, dir, j),
        decreases checked.elements@.len() - i,
    {
        let nodes = &checked.elements[i].nodes;
        assert(nets_in_range(checked.elements@[i as int].nodes@, checked.nets@.len()));
        let mut flag = false;
        let mut k: usize = 0;
        while k < nodes.len()
            invariant
                i < checked.elements@.len(),
                nodes@ == checked.elements@[i as int].nodes@,
                nets_in_range(nodes@, checked.nets@.len()),
                nets@.len() == checked.nets@.len(),
                k <= nodes@.len(),
                flag == exists|a: int| 0 <= a < k && nets@[#[trigger] nodes@[a] as int],
            decreases nodes@.len() - k,
        {
            if nets[nodes[k]] {
                flag = true;
            }
            k = k + 1;
        }
        proof {
            if flag {
                let a = choose|a: int| 0 <= a < nodes@.len() && nets@[#[trigger] nodes@[a] as int];
                let net = nodes@[a] as int;
                assert(checked.elements@[i as int].nodes@[a] == net);
                assert(checked.touches(i as int, net));
                assert(boundary_net(checked, classes.class@, dir, net));
            }
            if on_boundary(checked, classes.class@, dir, i as int) {
                let net = choose|net: int|
                    0 <= net < checked.nets@.len() && #[trigger] checked.touches(i as int, net)
                        && boundary_net(checked, classes.class@, dir, net);
                let a = choose|a: int|
                    0 <= a < checked.elements@[i as int].nodes@.len()
                        && #[trigger] checked.elements@[i as int].nodes@[a] == net;
                assert(nets@[nodes@[a] as int]);
            }
        }
        r.push(flag);
        i = i + 1;
    }
    r
}

/// The number of different signal nets on an element.
fn count_signal_nets(checked: &CheckedNetlist, classes: &NetClassMap, i: usize) -> (r: usize)
    requires
        classes.class@.len() == checked.nets@.len(),
        i < checked.elements@.len(),
    ensures
        r == signal_degree(checked, classes.class@, i as int),
{
    let ghost p = |net: int| is_signal(classes.class@[net]) && checked.touches(i as int, net);
    let mut r: usize = 0;
    let mut net: usize = 0;
    while net < checked.nets.len()
        invariant
            classes.class@.len() == checked.nets@.len(),
            i < checked.elements@.len(),
            p == (|net: int| is_signal(classes.class@[net]) && checked.touches(i as int, net)),
            net <= checked.nets@.len(),
            r <= net,
            r == count(p, net as int),
        decreases checked.nets@.len() - net,
    {
        if signal_net(classes, net) && element_touches(checked, i, net) {
            r = r + 1;
        }
        net = net + 1;
    }
    r
}

fn on_class(checked: &CheckedNetlist, classes: &NetClassMap, i: usize, class: NetClass) -> (r: bool)
    requires
        checked.wf(),
        classes.class@.len() == checked.nets@.len(),
        i < checked.elements@.len(),
    ensures
        r == has_class(checked.elements@[i as int], classes.class@, class),
{
    assert(nets_in_range(checked.elements@[i as int].nodes@, checked.nets@.len()));
    crate::bands::touches_class(&checked.elements[i], classes, class)
}

/// What the choice of roots depends on, per element.
struct Boundary {
    input: Vec<bool>,
    degree: Vec<usize>,
    power: Vec<bool>,
    stub: Vec<bool>,
}

impl Boundary {
    spec fn of(&self, checked: &CheckedNetlist, classes: Seq<Option<NetClass>>) -> bool {
        let n = checked.elements@.len();
        &&& self.input@.len() == n
        &&& self.degree@.len() == n
        &&& self.power@.len() == n
        &&& self.stub@.len() == n
        &&& forall|i: int| 0 <= i < n ==> #[trigger] self.input@[i] == input_root(checked, classes, i)
        &&& forall|i: int|
            0 <= i < n ==> #[trigger] self.degree@[i] == signal_degree(checked, classes, i)
        &&& forall|i: int|
            0 <= i < n ==> #[trigger] self.power@[i] == touches_power(checked, classes, i)
        &&& forall|i: int| 0 <= i < n ==> #[trigger] self.stub@[i] == rail_stub(checked, classes, i)
    }
}

fn find_boundary(checked: &CheckedNetlist, classes: &NetClassMap) -> (r: Boundary)
    requires
        checked.wf(),
        classes.class@.len() == checked.nets@.len(),
    ensures
        r.of(checked, classes.class@),
{
    let inputs: Vec<bool> = boundary_elements(checked, classes, PortDir::Input);
    let mut r = Boundary {
        input: Vec::new(),
        degree: Vec::new(),
        power: Vec::new(),
        stub: Vec::new(),
    };
    let ghost cl = classes.class@;
    let mut i: usize = 0;
    while i < checked.elements.len()
        invariant
            checked.wf(),
            cl == classes.class@,
            cl.len() == checked.nets@.len(),
            inputs@.len() == checked.elements@.len(),
            forall|j: int|
                0 <= j < inputs@.len() ==> #[trigger] inputs@[j] == on_boundary(
                    checked,
                    cl,
                    PortDir::Input,
                    j,
                ),
            i <= checked.elements@.len(),
            r.input@.len() == i,
            r.degree@.len() == i,
            r.power@.len() == i,
            r.stub@.len() == i,
            forall|j: int| 0 <= j < i ==> #[trigger] r.input@[j] == input_root(checked, cl, j),
            forall|j: int| 0 <= j < i ==> #[trigger] r.degree@[j] == signal_degree(checked, cl, j),
            forall|j: int| 0 <= j < i ==> #[trigger] r.power@[j] == touches_power(checked, cl, j),
            forall|j: int| 0 <= j < i ==> #[trigger] r.stub@[j] == rail_stub(checked, cl, j),
        decreases checked.elements@.len() - i,
    {
        let d: usize = count_signal_nets(checked, classes, i);
        let power = on_class(checked, classes, i, NetClass::Power);
        let ground = on_class(checked, classes, i, NetClass::Ground);
        r.input.push(inputs[i] && d <= 2);
        r.degree.push(d);
        r.power.push(power);
        r.stub.push((power || ground) && d <= 1);
        i = i + 1;
    }
    r
}

/// Whether some element of the set reaches the signal graph.
fn any_spans(set: &Vec<bool>, degree: &Vec<usize>) -> (r: bool)
    requires
        set@.len() == degree@.len(),
    ensures
        r == exists|i: int| 0 <= i < set@.len() && #[trigger] set@[i] && degree@[i] >= 1,
{
    let mut i: usize = 0;
    while i < set.len()
        invariant
            set@.len() == degree@.len(),
            i <= set@.len(),
            forall|j: int| 0 <= j < i ==> !(#[trigger] set@[j] && degree@[j] >= 1),
        decreases set@.len() - i,
    {
        if set[i] && degree[i] >= 1 {
            return true;
        }
        i = i + 1;
    }
    false
}

/// The root flags, and whether the layering is flow-rooted.
fn choose_roots(
    checked: &CheckedNetlist,
    classes: &NetClassMap,
    b: &Boundary,
    flow: bool,
) -> (r: (Vec<bool>, bool))
    requires
        b.of(checked, classes.class@),
    ensures
        r.0@ == root_flags(checked, classes.class@, flow),
        r.1 == flow_rooted(checked, classes.class@, flow),
{
    let ghost cl = classes.class@;
    let n: usize = checked.elements.len();
    let mut coarse: Vec<bool> = Vec::new();
    let mut refined: Vec<bool> = Vec::new();
    let mut i: usize = 0;
    while i < n
        invariant
            n == checked.elements@.len(),
            b.of(checked, cl),
            i <= n,
            coarse@.len() == i,
            refined@.len() == i,
            forall|j: int| 0 <= j < i ==> #[trigger] coarse@[j] == coarse_root(checked, cl, j),
            forall|j: int| 0 <= j < i ==> #[trigger] refined@[j] == refined_root(checked, cl, j),
        decreases n - i,
    {
        assert(b.input@[i as int] == input_root(checked, cl, i as int));
        assert(b.degree@[i as int] == signal_degree(checked, cl, i as int));
        assert(b.power@[i as int] == touches_power(checked, cl, i as int));
        let c = b.input[i] || b.power[i];
        coarse.push(c);
        refined.push(c && (b.input[i] || b.degree[i] <= 1));
        i = i + 1;
    }
    let inputs_span = any_spans(&b.input, &b.degree);
    let flow_rooted_here = flow && inputs_span;
    proof {
        assert(flow_rooted_here == flow_rooted(checked, cl, flow)) by {
            if flow_rooted_here {
                let i = choose|i: int|
                    0 <= i < b.input@.len() && #[trigger] b.input@[i] && b.degree@[i] >= 1;
                assert(input_root(checked, cl, i));
                assert(b.degree@[i] == signal_degree(checked, cl, i));
            }
            if flow_rooted(checked, cl, flow) {
                let i = choose|i: int|
                    0 <= i < checked.elements@.len() && #[trigger] input_root(checked, cl, i)
                        && signal_degree(checked, cl, i) >= 1;
                assert(b.input@[i] && b.degree@[i] >= 1);
            }
        }
    }
    let refined_here = any_spans(&refined, &b.degree);
    let coarse_here = any_spans(&coarse, &b.degree);
    proof {
        assert(refined_here == refined_spans(checked, cl)) by {
            if refined_here {
                let i = choose|i: int|
                    0 <= i < refined@.len() && #[trigger] refined@[i] && b.degree@[i] >= 1;
                assert(refined_root(checked, cl, i));
                assert(b.degree@[i] == signal_degree(checked, cl, i));
            }
            if refined_spans(checked, cl) {
                let i = choose|i: int|
                    0 <= i < checked.elements@.len() && #[trigger] refined_root(checked, cl, i)
                        && signal_degree(checked, cl, i) >= 1;
                assert(refined@[i] && b.degree@[i] >= 1);
            }
        }
        assert(coarse_here == coarse_spans(checked, cl)) by {
            if coarse_here {
                let i = choose|i: int|
                    0 <= i < coarse@.len() && #[trigger] coarse@[i] && b.degree@[i] >= 1;
                assert(coarse_root(checked, cl, i));
                assert(b.degree@[i] == signal_degree(checked, cl, i));
            }
            if coarse_spans(checked, cl) {
                let i = choose|i: int|
                    0 <= i < checked.elements@.len() && #[trigger] coarse_root(checked, cl, i)
                        && signal_degree(checked, cl, i) >= 1;
                assert(coarse@[i] && b.degree@[i] >= 1);
            }
        }
    }
    if flow_rooted_here {
        let mut roots: Vec<bool> = Vec::new();
        let mut i: usize = 0;
        while i < n
            invariant
                n == checked.elements@.len(),
                b.of(checked, cl),
                i <= n,
                roots@.len() == i,
                forall|j: int| 0 <= j < i ==> #[trigger] roots@[j] == input_root(checked, cl, j),
            decreases n - i,
        {
            assert(b.input@[i as int] == input_root(checked, cl, i as int));
            roots.push(b.input[i]);
            i = i + 1;
        }
        assert(roots@ =~= root_flags(checked, cl, flow));
        return (roots, true);
    }
    if refined_here || !coarse_here {
        assert(refined@ =~= root_flags(checked, cl, flow));
        return (refined, false);
    }
    let mut least: usize = usize::MAX;
    let mut i: usize = 0;
    while i < n
        invariant
            n == checked.elements@.len(),
            b.of(checked, cl),
            coarse@.len() == n,
            forall|j: int| 0 <= j < n ==> #[trigger] coarse@[j] == coarse_root(checked, cl, j),
            i <= n,
            forall|j: int|
                0 <= j < i && #[trigger] coarse@[j] && b.degree@[j] >= 1 ==> least <= b.degree@[j],
            least == usize::MAX || exists|j: int|
                0 <= j < i && #[trigger] coarse@[j] && b.degree@[j] >= 1 && b.degree@[j] == least,
        decreases n - i,
    {
        if coarse[i] && b.degree[i] >= 1 && b.degree[i] < least {
            assert(coarse@[i as int]);
            least = b.degree[i];
        }
        i = i + 1;
    }
    proof {
        let i = choose|i: int|
            0 <= i < coarse@.len() && #[trigger] coarse@[i] && b.degree@[i] >= 1;
        assert(least <= b.degree@[i]);
        if least == usize::MAX {
            assert(b.degree@[i] == usize::MAX);
        }
    }
    let ghost best = choose|j: int|
        0 <= j < n && #[trigger] coarse@[j] && b.degree@[j] >= 1 && b.degree@[j] == least;
    let mut roots: Vec<bool> = Vec::new();
    let mut i: usize = 0;
    while i < n
        invariant
            n == checked.elements@.len(),
            b.of(checked, cl),
            coarse@.len() == n,
            forall|j: int| 0 <= j < n ==> #[trigger] coarse@[j] == coarse_root(checked, cl, j),
            forall|j: int|
                0 <= j < n && #[trigger] coarse@[j] && b.degree@[j] >= 1 ==> least <= b.degree@[j],
            0 <= best < n,
            coarse@[best],
            b.degree@[best] >= 1,
            b.degree@[best] == least,
            i <= n,
            roots@.len() == i,
            forall|j: int| 0 <= j < i ==> #[trigger] roots@[j] == least_coarse(checked, cl, j),
        decreases n - i,
    {
        let root = coarse[i] && b.degree[i] == least;
        proof {
            let x = i as int;
            assert(b.degree@[x] == signal_degree(checked, cl, x));
            if root {
                assert forall|j: int|
                    0 <= j < checked.elements@.len() && #[trigger] coarse_root(checked, cl, j)
                        && signal_degree(checked, cl, j) >= 1 implies signal_degree(checked, cl, x)
                    <= signal_degree(checked, cl, j) by {
                    assert(coarse@[j] && b.degree@[j] >= 1);
                }
            }
            if least_coarse(checked, cl, x) {
                assert(coarse@[x]);
                assert(b.degree@[best] == signal_degree(checked, cl, best));
                assert(coarse_root(checked, cl, best));
            }
        }
        roots.push(root);
        i = i + 1;
    }
    assert(roots@ =~= root_flags(checked, cl, flow));
    (roots, false)
}

/// The layer a follower takes, if the element is one.
fn follower_layer(
    checked: &CheckedNetlist,
    classes: &NetClassMap,
    adj: &Vec<Vec<usize>>,
    b: &Boundary,
    layer: &Vec<u32>,
    i: usize,
) -> (r: Option<u32>)
    requires
        b.of(checked, classes.class@),
        lists(adj@) == signal_graph(checked, classes.class@),
        layer@.len() == checked.elements@.len(),
        i < checked.elements@.len(),
    ensures
        match r {
            Some(l) => interior_stub(checked, classes.class@, i as int) && least_company_layer(
                checked,
                classes.class@,
                layer@,
                i as int,
                l,
            ),
            None => !interior_stub(checked, classes.class@, i as int),
        },
{
    let ghost cl = classes.class@;
    let ghost g = lists(adj@);
    let ghost p = |j: int| in_company(checked, cl, i as int, j);
    let n: usize = checked.elements.len();
    let mut met: usize = 0;
    let mut active = false;
    let mut least: u32 = u32::MAX;
    let mut j: usize = 0;
    while j < n
        invariant
            n == checked.elements@.len(),
            b.of(checked, cl),
            g == lists(adj@),
            g == signal_graph(checked, cl),
            layer@.len() == n,
            i < n,
            p == (|j: int| in_company(checked, cl, i as int, j)),
            j <= n,
            met <= j,
            met == count(p, j as int),
            active == exists|k: int|
                0 <= k < j && #[trigger] in_company(checked, cl, i as int, k) && signal_degree(
                    checked,
                    cl,
                    k,
                ) >= 3,
            forall|k: int|
                0 <= k < j && #[trigger] in_company(checked, cl, i as int, k) ==> least
                    <= layer@[k],
            met > 0 ==> exists|k: int|
                0 <= k < j && #[trigger] in_company(checked, cl, i as int, k) && layer@[k]
                    == least,
            met == 0 ==> least == u32::MAX,
        decreases n - j,
    {
        let edge = crate::cycles::list_contains(&adj[i], j);
        proof {
            let s = g[i as int];
            assert(s == adj@[i as int]@);
            if edge {
                let k = choose|k: int| 0 <= k < s.len() && s[k] == j;
                assert(g[i as int][k] == j as int);
            } else if has_edge(g, i as int, j as int) {
                let k = choose|k: int| 0 <= k < s.len() && #[trigger] g[i as int][k] == j as int;
                assert(s[k] == j);
            }
            assert(b.stub@[j as int] == rail_stub(checked, cl, j as int));
            assert(b.degree@[j as int] == signal_degree(checked, cl, j as int));
        }
        if edge && !b.stub[j] {
            assert(in_company(checked, cl, i as int, j as int));
            met = met + 1;
            if b.degree[j] >= 3 {
                active = true;
            }
            if layer[j] < least || met == 1 {
                least = layer[j];
            }
        }
        j = j + 1;
    }
    if met >= 2 || active {
        proof {
            if met == 0 {
                let k = choose|k: int|
                    0 <= k < n && #[trigger] in_company(checked, cl, i as int, k)
                        && signal_degree(checked, cl, k) >= 3;
                crate::counting::count_positive(p, n as int, k);
            }
        }
        Some(least)
    } else {
        None
    }
}

/// Distances from the roots, as layers.
fn layers_by_distance(
    checked: &CheckedNetlist,
    classes: &NetClassMap,
    adj: &Vec<Vec<usize>>,
    roots: &Vec<bool>,
    Ghost(flow): Ghost<bool>,
) -> (r: Vec<u32>)
    requires
        lists(adj@) == signal_graph(checked, classes.class@),
        graph_wf(lists(adj@)),
        roots@ == root_flags(checked, classes.class@, flow),
        checked.elements@.len() < u32::MAX,
    ensures
        distance_layers(checked, classes.class@, flow, r@),
        forall|i: int| 0 <= i < r@.len() ==> #[trigger] r@[i] <= checked.elements@.len(),
{
    let dist: Vec<Option<u32>> = bfs_distances(adj, roots);
    let mut r: Vec<u32> = Vec::new();
    let mut i: usize = 0;
    while i < dist.len()
        invariant
            lists(adj@) == signal_graph(checked, classes.class@),
            roots@ == root_flags(checked, classes.class@, flow),
            distances(lists(adj@), roots@, dist@),
            adj@.len() == checked.elements@.len(),
            forall|v: int|
                0 <= v < dist@.len() ==> ((#[trigger] dist@[v]) matches Some(d) ==> d
                    <= adj@.len()),
            i <= dist@.len(),
            r@.len() == i,
            forall|j: int|
                0 <= j < i ==> (is_distance(
                    lists(adj@),
                    roots@,
                    j,
                    #[trigger] r@[j] as nat,
                ) || r@[j] == 0 && !reached(lists(adj@), roots@, j)) && r@[j]
                    <= checked.elements@.len(),
        decreases dist@.len() - i,
    {
        match dist[i] {
            Some(d) => {
                r.push(d);
            },
            None => {
                r.push(0);
            },
        }
        i = i + 1;
    }
    r
}

/// Layering of a netlist that has no signal source.
fn no_source_fallback(
    checked: &CheckedNetlist,
    classes: &NetClassMap,
    adj: &Vec<Vec<usize>>,
    flow: bool,
) -> (r: LayerAssignment)
    requires
        checked.wf(),
        classes.class@.len() == checked.nets@.len(),
        lists(adj@) == signal_graph(checked, classes.class@),
        graph_wf(lists(adj@)),
        checked.elements@.len() < u32::MAX - 2,
    ensures
        fallback_of(checked, classes.class@, flow, r),
        layers_fit(r, checked.elements@.len()),
{
    let ghost cl = classes.class@;
    let n: usize = checked.elements.len();
    let outputs: Vec<bool> = boundary_elements(checked, classes, PortDir::Output);
    let b: Boundary = find_boundary(checked, classes);
    let (roots, flow_here): (Vec<bool>, bool) = choose_roots(checked, classes, &b, flow);
    let mut any = false;
    let mut i: usize = 0;
    while i < n
        invariant
            n == roots@.len(),
            i <= n,
            any == exists|j: int| 0 <= j < i && #[trigger] roots@[j],
        decreases n - i,
    {
        if roots[i] {
            any = true;
        }
        i = i + 1;
    }
    proof {
        assert(any == has_roots(checked, cl, flow)) by {
            if any {
                let j = choose|j: int| 0 <= j < n && #[trigger] roots@[j];
                assert(is_root(checked, cl, flow, j));
            }
            if has_roots(checked, cl, flow) {
                let j = choose|j: int|
                    0 <= j < checked.elements@.len() && #[trigger] is_root(checked, cl, flow, j);
                assert(roots@[j]);
            }
        }
    }
    if !any {
        let mut layers: Vec<u32> = Vec::new();
        let mut i: usize = 0;
        while i < n
            invariant
                i <= n,
                layers@ == Seq::new(i as nat, |j: int| 0u32),
            decreases n - i,
        {
            layers.push(0);
            i = i + 1;
        }
        let ranks: Vec<u32> = rank_by_layer(&layers);
        assert(ranks@ =~= Seq::new(n as nat, |i: int| rank_in(layers@, i) as u32));
        return LayerAssignment {
            layers,
            rank_in_layer: ranks,
            order_key: identity_order(n),
            feedback_edges: Vec::new(),
            no_source_fallback: true,
        };
    }
    let near: Vec<u32> = layers_by_distance(checked, classes, adj, &roots, Ghost(flow));
    let mut next: Vec<u32> = Vec::new();
    let mut top: u32 = 0;
    let mut i: usize = 0;
    while i < n
        invariant
            n == checked.elements@.len(),
            cl == classes.class@,
            b.of(checked, cl),
            lists(adj@) == signal_graph(checked, cl),
            near@.len() == n,
            forall|i: int| 0 <= i < near@.len() ==> #[trigger] near@[i] <= n,
            roots@ == root_flags(checked, cl, flow),
            flow_here == flow_rooted(checked, cl, flow),
            i <= n,
            next@.len() == i,
            top <= n,
            top == largest_layer(next@, i as int),
            forall|j: int|
                0 <= j < i ==> if is_follower(checked, cl, flow, j) {
                    least_company_layer(checked, cl, near@, j, #[trigger] next@[j])
                } else {
                    next@[j] == near@[j]
                },
            forall|j: int| 0 <= j < i ==> #[trigger] next@[j] <= n,
        decreases n - i,
    {
        let mut l: u32 = near[i];
        assert(roots@[i as int] == is_root(checked, cl, flow, i as int));
        assert(b.stub@[i as int] == rail_stub(checked, cl, i as int));
        if flow_here && b.stub[i] && !roots[i] {
            match follower_layer(checked, classes, adj, &b, &near, i) {
                Some(f) => {
                    l = f;
                },
                None => {},
            }
        }
        let ghost before = next@;
        next.push(l);
        proof {
            largest_layer_prefix(before, next@, i as int);
        }
        if l > top {
            top = l;
        }
        i = i + 1;
    }
    let ghost followed = next@;
    assert(follows(checked, cl, flow, near@, followed));
    let mut layers: Vec<u32> = Vec::new();
    let mut i: usize = 0;
    while i < n
        invariant
            n == checked.elements@.len(),
            n < u32::MAX - 2,
            outputs@.len() == n,
            forall|j: int|
                0 <= j < n ==> #[trigger] outputs@[j] == on_boundary(
                    checked,
                    cl,
                    PortDir::Output,
                    j,
                ),
            next@ == followed,
            followed.len() == n,
            top <= n,
            top == largest_layer(followed, n as int),
            forall|j: int| 0 <= j < n ==> #[trigger] next@[j] <= n,
            i <= n,
            layers@.len() == i,
            forall|j: int|
                0 <= j < i ==> #[trigger] layers@[j] == outputs_pushed(checked, cl, followed)[j]
                    && layers@[j] <= n + 1,
        decreases n - i,
    {
        assert(outputs@[i as int] == on_boundary(checked, cl, PortDir::Output, i as int));
        if outputs[i] {
            layers.push(top + 1);
        } else {
            layers.push(next[i]);
        }
        i = i + 1;
    }
    let ghost pushed = layers@;
    assert(pushed =~= outputs_pushed(checked, cl, followed));
    if flow_here {
        compact_layers(&mut layers);
        proof {
            assert forall|j: int| 0 <= j < layers@.len() implies #[trigger] layers@[j] <= n + 1 by {
                count_bound(
                    |k: int|
                        pushed[k] < pushed[j] && crate::layering::first_of_value(pushed, k),
                    n as int,
                );
            }
        }
    }
    let order_key: Vec<u32> = if flow_here {
        barycenter_order(adj, &layers)
    } else {
        identity_order(n)
    };
    let rank_in_layer: Vec<u32> = rank_by_layer(&layers);
    proof {
        assert(rank_in_layer@ =~= Seq::new(n as nat, |i: int| rank_in(layers@, i) as u32));
        assert(follows(checked, cl, flow, near@, followed));
    }
    LayerAssignment {
        layers,
        rank_in_layer,
        order_key,
        feedback_edges: Vec::new(),
        no_source_fallback: true,
    }
}

proof fn largest_layer_prefix(a: Seq<u32>, b: Seq<u32>, n: int)
    requires
        0 <= n <= a.len(),
        n <= b.len(),
        forall|i: int| 0 <= i < n ==> a[i] == b[i],
    ensures
        largest_layer(a, n) == largest_layer(b, n),
    decreases n,
{
    if n > 0 {
        largest_layer_prefix(a, b, n - 1);
    }
}

/// The layering of a netlist with signal sources: cycles of the signal graph
/// are broken by reversing edges, and layers are longest paths from the
/// sources.
pub open spec fn source_layers_of(
    checked: &CheckedNetlist,
    classes: Seq<Option<NetClass>>,
    r: LayerAssignment,
) -> bool {
    let n = checked.elements@.len();
    let g = signal_graph(checked, classes);
    let dag = replay(g, r.feedback_edges@);
    &&& !r.no_source_fallback
    &&& valid_reversals(g, r.feedback_edges@)
    &&& acyclic(dag)
    &&& ranked(dag)
    &&& same_neighbours(g, dag)
    &&& is_layering(dag, Seq::new(n, |i: int| signal_source_at(checked, i)), r.layers@)
    &&& r.rank_in_layer@ == Seq::new(n, |i: int| rank_in(r.layers@, i) as u32)
    &&& r.order_key@ == Seq::new(n, |i: int| i as u32)
}

/// There is one layer per element, and no more layers than that and two.
pub open spec fn layers_fit(r: LayerAssignment, n: nat) -> bool {
    &&& r.layers@.len() == n
    &&& forall|i: int| 0 <= i < n ==> #[trigger] r.layers@[i] <= n + 1
}

/// Some element is a signal source.
pub open spec fn has_source(checked: &CheckedNetlist) -> bool {
    exists|i: int| 0 <= i < checked.elements@.len() && #[trigger] signal_source_at(checked, i)
}

/// Assigns every element a layer under the given placer.
#[must_use]
pub fn assign_x_layers_with(checked: &CheckedNetlist, classes: &NetClassMap, variant: Placer) -> (r:
    LayerAssignment)
    requires
        checked.wf(),
        classes.class@.len() == checked.nets@.len(),
        checked.elements@.len() < u32::MAX - 2,
    ensures
        has_source(checked) ==> source_layers_of(checked, classes.class@, r),
        !has_source(checked) ==> fallback_of(
            checked,
            classes.class@,
            variant.flow_seed_layering,
            r,
        ),
        layers_fit(r, checked.elements@.len()),
{
    let n: usize = checked.elements.len();
    let adj: Vec<Vec<usize>> = signal_adjacency(checked, classes);
    let mut sources: Vec<bool> = Vec::new();
    let mut any = false;
    let mut i: usize = 0;
    while i < n
        invariant
            n == checked.elements@.len(),
            i <= n,
            sources@ == Seq::new(i as nat, |j: int| signal_source_at(checked, j)),
            any == exists|j: int| 0 <= j < i && #[trigger] signal_source_at(checked, j),
        decreases n - i,
    {
        let s = is_signal_source(checked, i);
        sources.push(s);
        if s {
            any = true;
        }
        i = i + 1;
    }
    if !any {
        return no_source_fallback(checked, classes, &adj, variant.flow_seed_layering);
    }
    let (dag, feedback_edges): (Vec<Vec<usize>>, Vec<(usize, usize)>) = break_cycles(adj);
    let layers: Vec<u32> = longest_path_layers(&dag, &sources);
    let rank_in_layer: Vec<u32> = rank_by_layer(&layers);
    assert(rank_in_layer@ =~= Seq::new(n as nat, |i: int| rank_in(layers@, i) as u32));
    LayerAssignment {
        layers,
        rank_in_layer,
        order_key: identity_order(n),
        feedback_edges,
        no_source_fallback: false,
    }
}

/// Assigns every element a layer under the champion placer.
#[must_use]
pub fn assign_x_layers(checked: &CheckedNetlist, classes: &NetClassMap) -> (r: LayerAssignment)
    requires
        checked.wf(),
        classes.class@.len() == checked.nets@.len(),
        checked.elements@.len() < u32::MAX - 2,
    ensures
        has_source(checked) ==> source_layers_of(checked, classes.class@, r),
        !has_source(checked) ==> fallback_of(
            checked,
            classes.class@,
            champion_placer().flow_seed_layering,
            r,
        ),
        layers_fit(r, checked.elements@.len()),
{
    assign_x_layers_with(checked, classes, Placer::champion())
}

/// With signal sources, elements that share a signal net are in different
/// layers unless a source is one of them, and sources are in layer 0.
pub proof fn neighbours_are_layered(
    checked: &CheckedNetlist,
    classes: Seq<Option<NetClass>>,
    r: LayerAssignment,
    i: int,
    j: int,
)
    requires
        checked.elements@.len() <= usize::MAX,
        source_layers_of(checked, classes, r),
        has_edge(signal_graph(checked, classes), i, j),
    ensures
        signal_source_at(checked, i) ==> r.layers@[i] == 0,
        !signal_source_at(checked, i) && !signal_source_at(checked, j) ==> r.layers@[i]
            != r.layers@[j],
{
    let g = signal_graph(checked, classes);
    let dag = replay(g, r.feedback_edges@);
    let sources = Seq::new(checked.elements@.len(), |i: int| signal_source_at(checked, i));
    crate::signal_graph::signal_graph_edges(checked, classes, i, j);
    assert(crate::cycles::joined(dag, i, j) == crate::cycles::joined(g, i, j));
    assert(crate::layering::layer_at(dag, sources, r.layers@, i));
    assert(crate::layering::layer_at(dag, sources, r.layers@, j));
}

// ---------------------------------------------------------------------------
// What the columns mean
// ---------------------------------------------------------------------------

/// The element has a terminal on a net where the signal crosses the circuit's
/// boundary in the given direction: a net that is neither a supply nor ground
/// and that carries a port of that direction, or has one terminal in the whole
/// netlist and a name that says so.
pub proof fn boundary_elements_touch_a_port(
    checked: &CheckedNetlist,
    classes: Seq<Option<NetClass>>,
    dir: PortDir,
    i: int,
)
    requires
        checked.wf(),
        0 <= i < checked.elements@.len(),
    ensures
        on_boundary(checked, classes, dir, i) <==> exists|t: int|
            0 <= t < checked.elements@[i].nodes@.len() && ({
                let net = #[trigger] checked.elements@[i].nodes@[t] as int;
                &&& classes[net] != Some(NetClass::Power)
                &&& classes[net] != Some(NetClass::Ground)
                &&& {
                    ||| exists|p: int|
                        0 <= p < checked.ports@.len() && (#[trigger] checked.ports@[p]).net == net
                            && checked.ports@[p].dir == dir
                    ||| terminals(checked, net) == 1 && boundary_role(checked.nets@[net]@) == Some(
                        dir,
                    )
                }
            }),
{
    let n = checked.elements@[i].nodes@;
    assert(nets_in_range(checked.elements@[i].nodes@, checked.nets@.len()));
    if on_boundary(checked, classes, dir, i) {
        let net = choose|net: int|
            0 <= net < checked.nets@.len() && #[trigger] checked.touches(i, net) && boundary_net(
                checked,
                classes,
                dir,
                net,
            );
        let t = choose|t: int|
            0 <= t < checked.elements@[i].nodes@.len() && #[trigger] checked.elements@[i].nodes@[t]
                == net;
        assert(checked.elements@[i].nodes@[t] == net);
    }
    assert forall|t: int| 0 <= t < n.len() implies checked.touches(
        i,
        #[trigger] n[t] as int,
    ) && (boundary_net(checked, classes, dir, n[t] as int) ==> on_boundary(
        checked,
        classes,
        dir,
        i,
    )) && (is_signal(classes[n[t] as int]) <==> classes[n[t] as int] != Some(NetClass::Power)
        && classes[n[t] as int] != Some(NetClass::Ground)) by {
        assert(checked.elements@[i].nodes@[t] == n[t]);
        assert(checked.touches(i, n[t] as int));
        crate::signal_graph::class_is_signal(classes[n[t] as int]);
    }
}

/// Elements at the left edge: those on an input that touch no more than two
/// signal nets, and those on a supply that touch no more than one.
pub open spec fn opens_the_sheet(
    checked: &CheckedNetlist,
    classes: Seq<Option<NetClass>>,
    i: int,
) -> bool {
    ||| on_boundary(checked, classes, PortDir::Input, i) && signal_degree(checked, classes, i) <= 2
    ||| signal_degree(checked, classes, i) <= 1 && exists|t: int|
        0 <= t < checked.elements@[i].nodes@.len()
            && classes[#[trigger] checked.elements@[i].nodes@[t] as int] == Some(NetClass::Power)
}

/// `w` is a walk from a starting element to element `i`, in which each element
/// shares a signal net with the next.
pub open spec fn column_walk(
    checked: &CheckedNetlist,
    classes: Seq<Option<NetClass>>,
    starts: spec_fn(int) -> bool,
    w: Seq<int>,
    i: int,
) -> bool {
    &&& w.len() >= 1
    &&& w.last() == i
    &&& starts(w[0])
    &&& forall|k: int| 0 <= k < w.len() ==> 0 <= #[trigger] w[k] < checked.elements@.len()
    &&& forall|k: int|
        0 <= k < w.len() - 1 ==> w[k] != w[k + 1] && share_signal(
            checked,
            classes,
            #[trigger] w[k],
            w[k + 1],
        )
}

/// `layer` is the number of steps of the shortest walk from a starting element
/// to element `i`, and zero where there is no such walk.
pub open spec fn steps_from(
    checked: &CheckedNetlist,
    classes: Seq<Option<NetClass>>,
    starts: spec_fn(int) -> bool,
    i: int,
    layer: int,
) -> bool {
    ||| {
        &&& exists|w: Seq<int>| #[trigger]
            column_walk(checked, classes, starts, w, i) && w.len() == layer + 1
        &&& forall|w: Seq<int>| #[trigger]
            column_walk(checked, classes, starts, w, i) ==> w.len() >= layer + 1
    }
    ||| {
        &&& layer == 0
        &&& forall|w: Seq<int>| !#[trigger] column_walk(checked, classes, starts, w, i)
    }
}

proof fn column_walks_are_walks(
    checked: &CheckedNetlist,
    classes: Seq<Option<NetClass>>,
    flow: bool,
    starts: spec_fn(int) -> bool,
    w: Seq<int>,
    i: int,
)
    requires
        checked.elements@.len() <= usize::MAX,
        0 <= i < checked.elements@.len(),
        w.len() > 0 ==> 0 <= w[0] < checked.elements@.len(),
        forall|k: int|
            0 <= k < checked.elements@.len() ==> #[trigger] starts(k) == is_root(
                checked,
                classes,
                flow,
                k,
            ),
    ensures
        column_walk(checked, classes, starts, w, i) <==> walks_to(
            signal_graph(checked, classes),
            root_flags(checked, classes, flow),
            w,
            i,
        ),
{
    let n = checked.elements@.len();
    let g = signal_graph(checked, classes);
    let roots = root_flags(checked, classes, flow);
    if column_walk(checked, classes, starts, w, i) {
        assert(starts(w[0]) == is_root(checked, classes, flow, w[0]));
        assert forall|k: int| 0 <= k < w.len() - 1 implies has_edge(g, #[trigger] w[k], w[k + 1]) by {
            assert(0 <= w[k] < n && 0 <= w[k + 1] < n);
            crate::signal_graph::signal_graph_edges(checked, classes, w[k], w[k + 1]);
        }
    }
    if walks_to(g, roots, w, i) {
        assert(starts(w[0]) == is_root(checked, classes, flow, w[0]));
        assert forall|k: int| 0 <= k < w.len() implies 0 <= #[trigger] w[k] < n by {
            if k > 0 {
                assert(has_edge(g, w[k - 1], w[k - 1 + 1]));
                crate::signal_graph::signal_graph_edges(checked, classes, w[k - 1], w[k]);
            }
        }
        assert forall|k: int| 0 <= k < w.len() - 1 implies w[k] != w[k + 1] && share_signal(
            checked,
            classes,
            #[trigger] w[k],
            w[k + 1],
        ) by {
            assert(has_edge(g, w[k], w[k + 1]));
            crate::signal_graph::signal_graph_edges(checked, classes, w[k], w[k + 1]);
        }
    }
}

proof fn near_layers_are_steps(
    checked: &CheckedNetlist,
    classes: Seq<Option<NetClass>>,
    flow: bool,
    starts: spec_fn(int) -> bool,
    near: Seq<u32>,
    i: int,
)
    requires
        checked.elements@.len() <= usize::MAX,
        0 <= i < checked.elements@.len(),
        distance_layers(checked, classes, flow, near),
        forall|k: int|
            0 <= k < checked.elements@.len() ==> #[trigger] starts(k) == is_root(
                checked,
                classes,
                flow,
                k,
            ),
    ensures
        steps_from(checked, classes, starts, i, near[i] as int),
{
    let g = signal_graph(checked, classes);
    let roots = root_flags(checked, classes, flow);
    assert forall|w: Seq<int>| #[trigger] column_walk(
        checked,
        classes,
        starts,
        w,
        i,
    ) implies walks_to(g, roots, w, i) by {
        assert(0 <= w[0] < checked.elements@.len());
        column_walks_are_walks(checked, classes, flow, starts, w, i);
    }
    reached_by_walks(g, roots, i);
    if is_distance(g, roots, i, near[i] as nat) {
        let d = near[i] as nat;
        distances_are_shortest_walks(g, roots, i, d);
        let w = choose|w: Seq<int>| #[trigger] walks_to(g, roots, w, i) && w.len() == d + 1;
        if w.len() > 1 {
            assert(has_edge(g, w[0], w[0int + 1]));
        }
        column_walks_are_walks(checked, classes, flow, starts, w, i);
        assert(column_walk(checked, classes, starts, w, i));
    }
}

proof fn largest_layer_bounds(layer: Seq<u32>, n: int)
    requires
        0 <= n <= layer.len(),
    ensures
        forall|k: int| 0 <= k < n ==> #[trigger] layer[k] <= largest_layer(layer, n),
    decreases n,
{
    if n > 0 {
        largest_layer_bounds(layer, n - 1);
    }
}

/// Without signal sources and without flow rooting, columns count from the left
/// edge: an element that is on no output stands as many columns from the left
/// as the shortest walk through shared signal nets has steps, from the elements
/// that open the sheet. Where none of these touches a signal net, the walks
/// start at those elements on an input or a supply that touch the fewest signal
/// nets, but at least one. What is on an output stands right of everything
/// else, in one column.
pub proof fn columns_count_from_the_left_edge(
    checked: &CheckedNetlist,
    classes: Seq<Option<NetClass>>,
    r: LayerAssignment,
    i: int,
)
    requires
        checked.elements@.len() < u32::MAX,
        checked.elements@.len() <= usize::MAX,
        layers_fit(r, checked.elements@.len()),
        fallback_of(checked, classes, false, r),
        0 <= i < checked.elements@.len(),
        exists|k: int| 0 <= k < checked.elements@.len() && #[trigger] first_column(checked, classes, k),
    ensures
        !on_boundary(checked, classes, PortDir::Output, i) ==> steps_from(
            checked,
            classes,
            |k: int| first_column(checked, classes, k),
            i,
            r.layers@[i] as int,
        ),
        on_boundary(checked, classes, PortDir::Output, i) ==> forall|j: int|
            0 <= j < checked.elements@.len() ==> if on_boundary(
                checked,
                classes,
                PortDir::Output,
                j,
            ) {
                #[trigger] r.layers@[j] == r.layers@[i]
            } else {
                r.layers@[j] < r.layers@[i]
            },
{
    let starts = |k: int| first_column(checked, classes, k);
    assert forall|k: int| 0 <= k < checked.elements@.len() implies #[trigger] starts(k) == is_root(
        checked,
        classes,
        false,
        k,
    ) by {
        first_columns_are_roots(checked, classes, k);
    }
    let k = choose|k: int|
        0 <= k < checked.elements@.len() && #[trigger] first_column(checked, classes, k);
    assert(starts(k) == is_root(checked, classes, false, k));
    assert(has_roots(checked, classes, false));
    let (near, next) = choose|near: Seq<u32>, next: Seq<u32>|
        #![trigger follows(checked, classes, false, near, next)]
        distance_layers(checked, classes, false, near) && follows(
            checked,
            classes,
            false,
            near,
            next,
        ) && r.layers@ == outputs_pushed(checked, classes, next);
    near_layers_are_steps(checked, classes, false, starts, near, i);
    assert(next[i] == near[i]);
    largest_layer_bounds(next, next.len() as int);
    assert forall|j: int| 0 <= j < next.len() implies #[trigger] r.layers@[j] == outputs_pushed(
        checked,
        classes,
        next,
    )[j] && next[j] <= largest_layer(next, next.len() as int) by {}
    if on_boundary(checked, classes, PortDir::Output, i) {
        let top = largest_layer(next, next.len() as int);
        largest_is_one(next, next.len() as int);
        let j = choose|j: int| 0 <= j < next.len() && #[trigger] next[j] == top;
        near_is_short(checked, classes, near, j);
        assert(next[j] == near[j]);
    }
}

proof fn near_is_short(
    checked: &CheckedNetlist,
    classes: Seq<Option<NetClass>>,
    near: Seq<u32>,
    j: int,
)
    requires
        checked.elements@.len() <= usize::MAX,
        0 <= j < checked.elements@.len(),
        distance_layers(checked, classes, false, near),
    ensures
        near[j] < checked.elements@.len(),
{
    let g = signal_graph(checked, classes);
    let roots = root_flags(checked, classes, false);
    if is_distance(g, roots, j, near[j] as nat) {
        distances_are_short(g, roots, j, near[j] as nat);
    }
}

proof fn largest_is_one(layer: Seq<u32>, n: int)
    requires
        0 < n <= layer.len(),
    ensures
        exists|k: int| 0 <= k < n && #[trigger] layer[k] == largest_layer(layer, n),
    decreases n,
{
    if n > 1 {
        largest_is_one(layer, n - 1);
        if layer[n - 1] <= largest_layer(layer, n - 1) {
            let k = choose|k: int|
                0 <= k < n - 1 && #[trigger] layer[k] == largest_layer(layer, n - 1);
            assert(layer[k] == largest_layer(layer, n));
        } else {
            assert(layer[n - 1] == largest_layer(layer, n));
        }
    } else {
        assert(layer[0] == largest_layer(layer, n)) by {
            assert(largest_layer(layer, 0) == 0);
        }
    }
}

/// The element is on an input with no more than two signal nets, or on a
/// supply.
pub open spec fn could_open_the_sheet(
    checked: &CheckedNetlist,
    classes: Seq<Option<NetClass>>,
    i: int,
) -> bool {
    ||| on_boundary(checked, classes, PortDir::Input, i) && signal_degree(checked, classes, i) <= 2
    ||| exists|t: int|
        0 <= t < checked.elements@[i].nodes@.len()
            && classes[#[trigger] checked.elements@[i].nodes@[t] as int] == Some(NetClass::Power)
}

/// The elements that walks start at: those that open the sheet, if any of them
/// touches a signal net or no other element could; otherwise those that could,
/// with the fewest signal nets above none.
pub open spec fn first_column(
    checked: &CheckedNetlist,
    classes: Seq<Option<NetClass>>,
    i: int,
) -> bool {
    let n = checked.elements@.len();
    if (exists|k: int|
        0 <= k < n && #[trigger] opens_the_sheet(checked, classes, k) && signal_degree(
            checked,
            classes,
            k,
        ) >= 1) || (forall|k: int|
        0 <= k < n && #[trigger] could_open_the_sheet(checked, classes, k) ==> signal_degree(
            checked,
            classes,
            k,
        ) == 0) {
        opens_the_sheet(checked, classes, i)
    } else {
        &&& could_open_the_sheet(checked, classes, i)
        &&& signal_degree(checked, classes, i) >= 1
        &&& forall|k: int|
            0 <= k < n && #[trigger] could_open_the_sheet(checked, classes, k) && signal_degree(
                checked,
                classes,
                k,
            ) >= 1 ==> signal_degree(checked, classes, i) <= signal_degree(checked, classes, k)
    }
}

proof fn first_columns_are_roots(
    checked: &CheckedNetlist,
    classes: Seq<Option<NetClass>>,
    i: int,
)
    requires
        0 <= i < checked.elements@.len(),
    ensures
        first_column(checked, classes, i) == is_root(checked, classes, false, i),
{
    assert forall|k: int| #[trigger] opens_the_sheet(checked, classes, k) <==> refined_root(
        checked,
        classes,
        k,
    ) by {}
    assert forall|k: int| #[trigger] refined_root(checked, classes, k) <==> opens_the_sheet(
        checked,
        classes,
        k,
    ) by {}
    assert forall|k: int| #[trigger] could_open_the_sheet(checked, classes, k) <==> coarse_root(
        checked,
        classes,
        k,
    ) by {}
    assert forall|k: int| #[trigger] coarse_root(checked, classes, k) <==> could_open_the_sheet(
        checked,
        classes,
        k,
    ) by {}
}

/// An element that passes a signal on stands right of what feeds it: without
/// signal sources and without flow rooting, where some element that opens the
/// sheet touches a signal net, an element with two or more signal nets that is
/// on no input and that a walk from the left edge reaches is never in the first
/// column.
pub proof fn interior_elements_leave_the_left_edge(
    checked: &CheckedNetlist,
    classes: Seq<Option<NetClass>>,
    r: LayerAssignment,
    i: int,
    w: Seq<int>,
    k: int,
)
    requires
        checked.elements@.len() < u32::MAX,
        checked.elements@.len() <= usize::MAX,
        layers_fit(r, checked.elements@.len()),
        fallback_of(checked, classes, false, r),
        0 <= i < checked.elements@.len(),
        0 <= k < checked.elements@.len(),
        opens_the_sheet(checked, classes, k),
        signal_degree(checked, classes, k) >= 1,
        signal_degree(checked, classes, i) >= 2,
        !on_boundary(checked, classes, PortDir::Input, i),
        column_walk(checked, classes, |j: int| opens_the_sheet(checked, classes, j), w, i),
    ensures
        r.layers@[i] > 0,
{
    assert(first_column(checked, classes, k));
    columns_count_from_the_left_edge(checked, classes, r, i);
    let starts = |j: int| first_column(checked, classes, j);
    assert forall|j: int| #[trigger] first_column(checked, classes, j) == opens_the_sheet(
        checked,
        classes,
        j,
    ) by {}
    assert(column_walk(checked, classes, starts, w, i)) by {
        let opens = |j: int| opens_the_sheet(checked, classes, j);
        assert(opens(w[0]));
        assert(starts(w[0]));
    }
    if on_boundary(checked, classes, PortDir::Output, i) {
        if on_boundary(checked, classes, PortDir::Output, k) {
            output_past_zero(checked, classes, r, i);
        } else {
            assert(r.layers@[k] < r.layers@[i]);
        }
    } else if r.layers@[i] == 0 {
        let x = choose|x: Seq<int>| #[trigger]
            column_walk(checked, classes, starts, x, i) && x.len() == 1;
        assert(starts(x[0]) && x[0] == i);
    }
}

proof fn output_past_zero(
    checked: &CheckedNetlist,
    classes: Seq<Option<NetClass>>,
    r: LayerAssignment,
    i: int,
)
    requires
        checked.elements@.len() < u32::MAX,
        checked.elements@.len() <= usize::MAX,
        fallback_of(checked, classes, false, r),
        0 <= i < checked.elements@.len(),
        on_boundary(checked, classes, PortDir::Output, i),
        exists|k: int| 0 <= k < checked.elements@.len() && #[trigger] first_column(checked, classes, k),
    ensures
        r.layers@[i] > 0,
{
    let k = choose|k: int|
        0 <= k < checked.elements@.len() && #[trigger] first_column(checked, classes, k);
    first_columns_are_roots(checked, classes, k);
    assert(has_roots(checked, classes, false));
    let (near, next) = choose|near: Seq<u32>, next: Seq<u32>|
        #![trigger follows(checked, classes, false, near, next)]
        distance_layers(checked, classes, false, near) && follows(
            checked,
            classes,
            false,
            near,
            next,
        ) && r.layers@ == outputs_pushed(checked, classes, next);
    let top = largest_layer(next, next.len() as int);
    largest_is_one(next, next.len() as int);
    let j = choose|j: int| 0 <= j < next.len() && #[trigger] next[j] == top;
    near_is_short(checked, classes, near, j);
    assert(next[j] == near[j]);
    assert(r.layers@[i] == outputs_pushed(checked, classes, next)[i]);
}

/// The element is on an input and touches no more than two signal nets.
pub open spec fn feeds_the_flow(
    checked: &CheckedNetlist,
    classes: Seq<Option<NetClass>>,
    i: int,
) -> bool {
    on_boundary(checked, classes, PortDir::Input, i) && signal_degree(checked, classes, i) <= 2
}

/// The element hangs from a supply or ground by no more than one signal net.
pub open spec fn hangs_from_a_rail(
    checked: &CheckedNetlist,
    classes: Seq<Option<NetClass>>,
    i: int,
) -> bool {
    signal_degree(checked, classes, i) <= 1 && exists|t: int|
        0 <= t < checked.elements@[i].nodes@.len() && (
        classes[#[trigger] checked.elements@[i].nodes@[t] as int] == Some(NetClass::Power)
            || classes[checked.elements@[i].nodes@[t] as int] == Some(NetClass::Ground))
}

proof fn flow_parts(
    checked: &CheckedNetlist,
    classes: Seq<Option<NetClass>>,
    r: LayerAssignment,
    s: int,
) -> (parts: (Seq<u32>, Seq<u32>))
    requires
        checked.elements@.len() < u32::MAX,
        checked.elements@.len() <= usize::MAX,
        fallback_of(checked, classes, true, r),
        0 <= s < checked.elements@.len(),
        feeds_the_flow(checked, classes, s),
        signal_degree(checked, classes, s) >= 1,
    ensures
        ({
            let (near, next) = parts;
            &&& flow_rooted(checked, classes, true)
            &&& distance_layers(checked, classes, true, near)
            &&& follows(checked, classes, true, near, next)
            &&& next.len() == checked.elements@.len()
            &&& r.layers@ == compacted(outputs_pushed(checked, classes, next))
            &&& largest_layer(next, next.len() as int) < u32::MAX
        }),
{
    assert(input_root(checked, classes, s));
    assert(is_root(checked, classes, true, s));
    let (near, next) = choose|near: Seq<u32>, next: Seq<u32>|
        #![trigger follows(checked, classes, true, near, next)]
        distance_layers(checked, classes, true, near) && follows(
            checked,
            classes,
            true,
            near,
            next,
        ) && r.layers@ == compacted(outputs_pushed(checked, classes, next));
    assert forall|j: int| 0 <= j < near.len() implies #[trigger] near[j] < checked.elements@.len() by {
        let g = signal_graph(checked, classes);
        let roots = root_flags(checked, classes, true);
        if is_distance(g, roots, j, near[j] as nat) {
            distances_are_short(g, roots, j, near[j] as nat);
        }
    }
    largest_is_one(next, next.len() as int);
    let j = choose|j: int|
        0 <= j < next.len() && #[trigger] next[j] == largest_layer(next, next.len() as int);
    if is_follower(checked, classes, true, j) {
        let c = choose|c: int| #[trigger]
            in_company(checked, classes, j, c) && near[c] == next[j];
        assert(near[c] < checked.elements@.len());
    } else {
        assert(near[j] < checked.elements@.len());
    }
    (near, next)
}

proof fn steps_are_unique(
    checked: &CheckedNetlist,
    classes: Seq<Option<NetClass>>,
    starts: spec_fn(int) -> bool,
    i: int,
    a: int,
    b: int,
)
    requires
        steps_from(checked, classes, starts, i, a),
        steps_from(checked, classes, starts, i, b),
    ensures
        a == b,
{
    if exists|w: Seq<int>| #[trigger] column_walk(checked, classes, starts, w, i) {
        let w = choose|w: Seq<int>| #[trigger]
            column_walk(checked, classes, starts, w, i) && w.len() == a + 1;
        let x = choose|x: Seq<int>| #[trigger]
            column_walk(checked, classes, starts, x, i) && x.len() == b + 1;
        assert(w.len() >= b + 1);
        assert(x.len() >= a + 1);
    }
}

/// With flow rooting and without signal sources, the inputs are in the first
/// column, the outputs right of everything else, and between them columns run
/// with the number of steps from the inputs. Stubs are left out here.
pub proof fn columns_follow_the_flow(
    checked: &CheckedNetlist,
    classes: Seq<Option<NetClass>>,
    r: LayerAssignment,
    s: int,
    i: int,
    j: int,
    di: int,
    dj: int,
)
    requires
        checked.elements@.len() < u32::MAX,
        checked.elements@.len() <= usize::MAX,
        fallback_of(checked, classes, true, r),
        0 <= s < checked.elements@.len(),
        feeds_the_flow(checked, classes, s),
        signal_degree(checked, classes, s) >= 1,
        0 <= i < checked.elements@.len(),
        0 <= j < checked.elements@.len(),
        !on_boundary(checked, classes, PortDir::Output, i),
    ensures
        feeds_the_flow(checked, classes, i) ==> r.layers@[i] == 0,
        on_boundary(checked, classes, PortDir::Output, j) ==> r.layers@[i] < r.layers@[j],
        ({
            let starts = |k: int| feeds_the_flow(checked, classes, k);
            &&& steps_from(checked, classes, starts, i, di)
            &&& steps_from(checked, classes, starts, j, dj)
            &&& !hangs_from_a_rail(checked, classes, i)
            &&& !hangs_from_a_rail(checked, classes, j)
            &&& !on_boundary(checked, classes, PortDir::Output, j)
        }) ==> (r.layers@[i] < r.layers@[j] <==> di < dj) && (r.layers@[i] == r.layers@[j] <==> di
            == dj),
{
    let (near, next) = flow_parts(checked, classes, r, s);
    let pushed = outputs_pushed(checked, classes, next);
    let starts = |k: int| feeds_the_flow(checked, classes, k);
    assert forall|k: int| 0 <= k < checked.elements@.len() implies #[trigger] starts(k) == is_root(
        checked,
        classes,
        true,
        k,
    ) by {}
    near_layers_are_steps(checked, classes, true, starts, near, i);
    near_layers_are_steps(checked, classes, true, starts, near, j);
    largest_layer_bounds(next, next.len() as int);
    crate::layering::compacting_keeps_order(pushed, i, j);
    assert(pushed[i] == next[i]);
    assert(next[i] <= largest_layer(next, next.len() as int));
    if feeds_the_flow(checked, classes, i) {
        assert(starts(i));
        let w = seq![i];
        assert(column_walk(checked, classes, starts, w, i));
        assert(steps_from(checked, classes, starts, i, 0));
        steps_are_unique(checked, classes, starts, i, 0, near[i] as int);
        assert(!is_follower(checked, classes, true, i));
        assert(next[i] == near[i]);
        if compacted(pushed)[i] > 0 {
            let k = crate::layering::compacting_leaves_no_gap(pushed, i);
            crate::layering::compacting_keeps_order(pushed, k, i);
        }
    }
    if steps_from(checked, classes, starts, i, di) && steps_from(checked, classes, starts, j, dj)
        && !hangs_from_a_rail(checked, classes, i) && !hangs_from_a_rail(checked, classes, j)
        && !on_boundary(checked, classes, PortDir::Output, j) {
        stubs_hang_from_rails(checked, classes, i);
        stubs_hang_from_rails(checked, classes, j);
        steps_are_unique(checked, classes, starts, i, di, near[i] as int);
        steps_are_unique(checked, classes, starts, j, dj, near[j] as int);
        assert(next[i] == near[i] && next[j] == near[j]);
        assert(pushed[j] == next[j]);
    }
}

proof fn stubs_hang_from_rails(checked: &CheckedNetlist, classes: Seq<Option<NetClass>>, i: int)
    ensures
        rail_stub(checked, classes, i) == hangs_from_a_rail(checked, classes, i),
{
    if hangs_from_a_rail(checked, classes, i) {
        let t = choose|t: int|
            0 <= t < checked.elements@[i].nodes@.len() && (
            classes[#[trigger] checked.elements@[i].nodes@[t] as int] == Some(NetClass::Power)
                || classes[checked.elements@[i].nodes@[t] as int] == Some(NetClass::Ground));
        assert(checked.elements@[i].nodes@[t] == checked.elements@[i].nodes@[t]);
    }
}

/// With flow rooting, a stub on a node at which two parts meet that are no
/// stubs stands no farther right than either of them, and in the column of one
/// such part unless that one is on an output.
pub proof fn stubs_stand_with_their_company(
    checked: &CheckedNetlist,
    classes: Seq<Option<NetClass>>,
    r: LayerAssignment,
    s: int,
    i: int,
    j: int,
    k: int,
)
    requires
        checked.elements@.len() < u32::MAX,
        checked.elements@.len() <= usize::MAX,
        fallback_of(checked, classes, true, r),
        0 <= s < checked.elements@.len(),
        feeds_the_flow(checked, classes, s),
        signal_degree(checked, classes, s) >= 1,
        0 <= i < checked.elements@.len(),
        0 <= j < checked.elements@.len(),
        0 <= k < checked.elements@.len(),
        i != j,
        i != k,
        j != k,
        share_signal(checked, classes, i, j),
        share_signal(checked, classes, i, k),
        hangs_from_a_rail(checked, classes, i),
        !hangs_from_a_rail(checked, classes, j),
        !hangs_from_a_rail(checked, classes, k),
        !feeds_the_flow(checked, classes, i),
        !on_boundary(checked, classes, PortDir::Output, i),
    ensures
        r.layers@[i] <= r.layers@[j],
        r.layers@[i] <= r.layers@[k],
        exists|c: int|
            0 <= c < checked.elements@.len() && c != i && #[trigger] share_signal(
                checked,
                classes,
                i,
                c,
            ) && !hangs_from_a_rail(checked, classes, c) && (r.layers@[c] == r.layers@[i]
                || on_boundary(checked, classes, PortDir::Output, c)),
{
    let (near, next) = flow_parts(checked, classes, r, s);
    let pushed = outputs_pushed(checked, classes, next);
    let n = checked.elements@.len() as int;
    stubs_hang_from_rails(checked, classes, i);
    stubs_hang_from_rails(checked, classes, j);
    stubs_hang_from_rails(checked, classes, k);
    crate::signal_graph::signal_graph_edges(checked, classes, i, j);
    crate::signal_graph::signal_graph_edges(checked, classes, i, k);
    let p = |x: int| in_company(checked, classes, i, x);
    assert(p(j) && p(k));
    crate::counting::two_are_counted(p, n, j, k);
    assert(is_follower(checked, classes, true, i));
    assert(least_company_layer(checked, classes, near, i, next[i]));
    largest_layer_bounds(next, next.len() as int);
    assert(next[j] <= largest_layer(next, n) && next[k] <= largest_layer(next, n) && next[i]
        <= largest_layer(next, n));
    assert(!is_follower(checked, classes, true, j) && !is_follower(checked, classes, true, k));
    assert(next[j] == near[j] && next[k] == near[k]);
    crate::layering::compacting_keeps_order(pushed, i, j);
    crate::layering::compacting_keeps_order(pushed, i, k);
    let c = choose|c: int| #[trigger] in_company(checked, classes, i, c) && near[c] == next[i];
    crate::signal_graph::signal_graph_edges(checked, classes, i, c);
    stubs_hang_from_rails(checked, classes, c);
    assert(!is_follower(checked, classes, true, c));
    assert(next[c] == near[c]);
    crate::layering::compacting_keeps_order(pushed, i, c);
}

/// Drawn voltage and current sources, and only they, are signal sources; with
/// one on the sheet they are all in the first column.
pub proof fn sources_open_the_sheet(
    checked: &CheckedNetlist,
    classes: Seq<Option<NetClass>>,
    r: LayerAssignment,
    i: int,
    j: int,
)
    requires
        checked.elements@.len() <= usize::MAX,
        0 <= i < checked.elements@.len(),
        0 <= j < checked.elements@.len(),
        i != j,
        share_signal(checked, classes, i, j),
        has_source(checked) ==> source_layers_of(checked, classes, r),
        checked.elements@[i].role is Normal,
        checked.elements@[i].kind == ElementKind::VoltageSrc || checked.elements@[i].kind
            == ElementKind::CurrentSrc,
    ensures
        has_source(checked),
        r.layers@[i] == 0,
{
    assert(signal_source_at(checked, i));
    crate::signal_graph::signal_graph_edges(checked, classes, i, j);
    neighbours_are_layered(checked, classes, r, i, j);
}

/// A net whose name is that of an input or output, whatever the case and with
/// or without a channel number behind it, is one at the boundary.
pub proof fn boundary_names_may_be_numbered(name: Seq<char>, base: Seq<char>, tail: Seq<char>)
    requires
        ascii_lower(name) == base + tail,
        base.len() > 0,
        !is_digit(base.last()),
        tail.len() > 0,
        forall|k: int| 0 < k < tail.len() ==> '0' <= #[trigger] tail[k] <= '9',
        '0' <= tail[0] <= '9' && base.last() != '_' && base.last() != '-' && base.last() != '.' || (
        tail[0] == '_' || tail[0] == '-' || tail[0] == '.') && tail.len() > 1,
    ensures
        base == "in"@ || base == "input"@ || base == "vin"@ ==> boundary_role(name) == Some(
            PortDir::Input,
        ),
        base == "out"@ || base == "output"@ || base == "vout"@ ==> boundary_role(name) == Some(
            PortDir::Output,
        ),
        base != "in"@ && base != "input"@ && base != "vin"@ && base != "out"@ && base != "output"@
            && base != "vout"@ ==> boundary_role(name) is None,
{
    let s = ascii_lower(name);
    if '0' <= tail[0] && tail[0] <= '9' {
        assert forall|j: int| base.len() <= j < s.len() implies is_digit(#[trigger] s[j]) by {
            assert(s[j] == tail[j - base.len()]);
        }
        assert(s[base.len() - 1] == base.last());
        undigited_at(s, base.len() as int);
        assert(s.take(base.len() as int) =~= base);
    } else {
        let m = base.len() + 1;
        assert forall|j: int| m <= j < s.len() implies is_digit(#[trigger] s[j]) by {
            assert(s[j] == tail[j - base.len()]);
        }
        assert(s[m - 1] == tail[0]);
        undigited_at(s, m as int);
        assert(s.take(m as int).drop_last() =~= base);
    }
    assert(channel_stem(s) == base);
    names_differ();
}

proof fn names_differ()
    ensures
        "in"@ != "out"@ && "in"@ != "output"@ && "in"@ != "vout"@,
        "input"@ != "out"@ && "input"@ != "output"@ && "input"@ != "vout"@,
        "vin"@ != "out"@ && "vin"@ != "output"@ && "vin"@ != "vout"@,
{
    reveal_strlit("in");
    reveal_strlit("input");
    reveal_strlit("vin");
    reveal_strlit("out");
    reveal_strlit("output");
    reveal_strlit("vout");
    assert("in"@[0] == 'i' && "input"@[0] == 'i' && "vin"@[0] == 'v' && "vin"@[1] == 'i');
    assert("out"@[0] == 'o' && "output"@[0] == 'o' && "vout"@[0] == 'v' && "vout"@[1] == 'o');
}

} // verus!
