//! How far each signal net lies from the circuit's inputs.

use vstd::prelude::*;

#[allow(unused_imports)]
use crate::counting::count;
use crate::cycles::list_contains;
use crate::distance::bfs_distances;
#[allow(unused_imports)]
use crate::distance::{distance_unique, is_distance, reached, within};
use crate::layers::{boundary_net_role, is_signal_source};
#[allow(unused_imports)]
use crate::layers::{boundary_role, signal_source_at};
use crate::net_class::{element_touches, NetClassMap};
#[allow(unused_imports)]
use crate::net_class::classes_of;
use crate::netlist::{CheckedNetlist, PortDir};
#[allow(unused_imports)]
use crate::ordering::{where_list, where_list_contains};
use crate::placer::Placer;
#[allow(unused_imports)]
use crate::tarjan::{graph_wf, has_edge, lists};

verus! {

/// One step of signal flow from net `u`: some element connects it to another
/// net that is no rail.
pub open spec fn flow_step(checked: &CheckedNetlist, u: int) -> spec_fn(int) -> bool {
    |v: int|
        u != v && !checked.is_rail(v) && exists|i: int|
            0 <= i < checked.elements@.len() && #[trigger] checked.touches(i, u)
                && checked.touches(i, v)
}

/// The nets, each with the nets that are one step of signal flow away.
pub open spec fn flow_graph(checked: &CheckedNetlist) -> Seq<Seq<usize>> {
    Seq::new(
        checked.nets@.len(),
        |u: int| where_list(flow_step(checked, u), checked.nets@.len() as int),
    )
}

/// A declared input port is on the net.
pub open spec fn input_port(checked: &CheckedNetlist, net: int) -> bool {
    exists|p: int|
        0 <= p < checked.ports@.len() && (#[trigger] checked.ports@[p]).net == net
            && checked.ports@[p].dir == PortDir::Input
}

/// The elements on the net.
pub open spec fn touching(checked: &CheckedNetlist, net: int) -> spec_fn(int) -> bool {
    |i: int| checked.touches(i, net)
}

/// The number of elements on the net.
pub open spec fn touch_count(checked: &CheckedNetlist, net: int) -> nat {
    count(touching(checked, net), checked.elements@.len() as int)
}

/// The net is the open end of the signal chain and its name says input.
pub open spec fn leaf_input(checked: &CheckedNetlist, net: int) -> bool {
    &&& !checked.is_rail(net)
    &&& touch_count(checked, net) == 1
    &&& boundary_role(checked.nets@[net]@) == Some(PortDir::Input)
}

/// A drawn source feeds the net, which is no rail.
pub open spec fn source_net(checked: &CheckedNetlist, net: int) -> bool {
    !checked.is_rail(net) && exists|i: int|
        0 <= i < checked.elements@.len() && #[trigger] checked.touches(i, net) && signal_source_at(
            checked,
            i,
        )
}

/// Some net of the table has the property.
pub open spec fn some_net(checked: &CheckedNetlist, p: spec_fn(int) -> bool) -> bool {
    exists|net: int| 0 <= net < checked.nets@.len() && #[trigger] p(net)
}

/// The net is a declared input.
pub open spec fn is_input_port(checked: &CheckedNetlist) -> spec_fn(int) -> bool {
    |net: int| input_port(checked, net)
}

/// The net is named as an input and one element touches it.
pub open spec fn is_leaf_input(checked: &CheckedNetlist) -> spec_fn(int) -> bool {
    |net: int| leaf_input(checked, net)
}


/// The nets at depth zero, by the first rule that yields any: declared
/// inputs, then open nets named as inputs, then, where the policy asks for
/// it, the nets that drawn sources feed.
pub open spec fn is_depth_root(checked: &CheckedNetlist, placer: Placer, net: int) -> bool {
    if some_net(checked, is_input_port(checked)) {
        input_port(checked, net)
    } else if some_net(checked, is_leaf_input(checked)) || !placer.unified_depth_roots {
        leaf_input(checked, net)
    } else {
        source_net(checked, net)
    }
}

/// The nets at depth zero.
pub open spec fn depth_roots(checked: &CheckedNetlist, placer: Placer) -> Seq<bool> {
    Seq::new(checked.nets@.len(), |net: int| is_depth_root(checked, placer, net))
}

/// The number of steps of signal flow from the nearest of the given roots to
/// the net; none when no root leads to it.
pub open spec fn depth_from(checked: &CheckedNetlist, roots: Seq<bool>, net: int) -> Option<nat> {
    let g = flow_graph(checked);
    if reached(g, roots, net) {
        Some(choose|d: nat| is_distance(g, roots, net, d))
    } else {
        None
    }
}

/// The number of steps of signal flow from a root to the net; none when no
/// root leads to it.
pub open spec fn net_depth(checked: &CheckedNetlist, placer: Placer, net: int) -> Option<nat> {
    depth_from(checked, depth_roots(checked, placer), net)
}

/// The listed nets, as flags.
pub open spec fn listed_roots(checked: &CheckedNetlist, nets: Seq<usize>) -> Seq<bool> {
    Seq::new(checked.nets@.len(), |net: int| nets.contains(net as usize))
}

fn on_both(checked: &CheckedNetlist, u: usize, v: usize) -> (r: bool)
    ensures
        r == exists|i: int|
            0 <= i < checked.elements@.len() && #[trigger] checked.touches(i, u as int)
                && checked.touches(i, v as int),
{
    let mut i: usize = 0;
    while i < checked.elements.len()
        invariant
            i <= checked.elements@.len(),
            forall|j: int|
                0 <= j < i ==> !(#[trigger] checked.touches(j, u as int) && checked.touches(
                    j,
                    v as int,
                )),
        decreases checked.elements@.len() - i,
    {
        if element_touches(checked, i, u) && element_touches(checked, i, v) {
            return true;
        }
        i = i + 1;
    }
    false
}

/// Whether exactly one element is on the net.
fn one_touch(checked: &CheckedNetlist, net: usize) -> (r: bool)
    ensures
        r == (touch_count(checked, net as int) == 1),
{
    let n: u8 = capped_touches(checked, net);
    n == 1
}

/// The number of elements on the net, or two if there are more.
pub fn capped_touches(checked: &CheckedNetlist, net: usize) -> (r: u8)
    ensures
        r <= 2,
        r == if touch_count(checked, net as int) < 2 {
            touch_count(checked, net as int) as int
        } else {
            2
        },
{
    let mut n: u8 = 0;
    let mut i: usize = 0;
    while i < checked.elements.len()
        invariant
            i <= checked.elements@.len(),
            n <= 2,
            n == if count(touching(checked, net as int), i as int) < 2 {
                count(touching(checked, net as int), i as int) as int
            } else {
                2
            },
        decreases checked.elements@.len() - i,
    {
        if element_touches(checked, i, net) && n < 2 {
            n = n + 1;
        }
        i = i + 1;
    }
    n
}

fn has_input_port(checked: &CheckedNetlist, net: usize) -> (r: bool)
    ensures
        r == input_port(checked, net as int),
{
    let mut p: usize = 0;
    while p < checked.ports.len()
        invariant
            p <= checked.ports@.len(),
            forall|q: int|
                0 <= q < p ==> !((#[trigger] checked.ports@[q]).net == net && checked.ports@[q].dir
                    == PortDir::Input),
        decreases checked.ports@.len() - p,
    {
        if checked.ports[p].net == net && checked.ports[p].dir == PortDir::Input {
            assert(checked.ports@[p as int].net == net);
            return true;
        }
        p = p + 1;
    }
    false
}

fn fed_by_source(checked: &CheckedNetlist, net: usize) -> (r: bool)
    ensures
        r == exists|i: int|
            0 <= i < checked.elements@.len() && #[trigger] checked.touches(i, net as int)
                && signal_source_at(checked, i),
{
    let mut i: usize = 0;
    while i < checked.elements.len()
        invariant
            i <= checked.elements@.len(),
            forall|j: int|
                0 <= j < i ==> !(#[trigger] checked.touches(j, net as int) && signal_source_at(
                    checked,
                    j,
                )),
        decreases checked.elements@.len() - i,
    {
        if element_touches(checked, i, net) && is_signal_source(checked, i) {
            return true;
        }
        i = i + 1;
    }
    false
}

/// The nets at depth zero.
fn find_roots(checked: &CheckedNetlist, classes: &NetClassMap, placer: Placer) -> (r: Vec<bool>)
    requires
        classes_of(checked, classes),
    ensures
        r@ == depth_roots(checked, placer),
{
    let n: usize = checked.nets.len();
    let mut ports: Vec<bool> = Vec::new();
    let mut leaves: Vec<bool> = Vec::new();
    let mut sources: Vec<bool> = Vec::new();
    let mut any_port = false;
    let mut any_leaf = false;
    let mut net: usize = 0;
    while net < n
        invariant
            net <= n,
            n == checked.nets@.len(),
            classes_of(checked, classes),
            ports@.len() == net,
            leaves@.len() == net,
            sources@.len() == net,
            forall|m: int| 0 <= m < net ==> #[trigger] ports@[m] == input_port(checked, m),
            forall|m: int| 0 <= m < net ==> #[trigger] leaves@[m] == leaf_input(checked, m),
            forall|m: int| 0 <= m < net ==> #[trigger] sources@[m] == source_net(checked, m),
            any_port == exists|m: int| 0 <= m < net && #[trigger] is_input_port(checked)(m),
            any_leaf == exists|m: int| 0 <= m < net && #[trigger] is_leaf_input(checked)(m),
        decreases n - net,
    {
        let port = has_input_port(checked, net);
        let rail = classes.is_rail_net(net);
        let named = match boundary_net_role(checked.nets[net].as_str()) {
            Some(d) => d == PortDir::Input,
            None => false,
        };
        let leaf = !rail && named && one_touch(checked, net);
        let source = !rail && fed_by_source(checked, net);
        assert(is_input_port(checked)(net as int) == port);
        assert(is_leaf_input(checked)(net as int) == leaf);
        ports.push(port);
        leaves.push(leaf);
        sources.push(source);
        any_port = any_port || port;
        any_leaf = any_leaf || leaf;
        net = net + 1;
    }
    if any_port {
        assert(ports@ =~= depth_roots(checked, placer));
        ports
    } else if any_leaf || !placer.unified_depth_roots {
        assert(leaves@ =~= depth_roots(checked, placer));
        leaves
    } else {
        assert(sources@ =~= depth_roots(checked, placer));
        sources
    }
}

fn walk_from(checked: &CheckedNetlist, classes: &NetClassMap, roots: &Vec<bool>) -> (r: Vec<
    Option<u32>,
>)
    requires
        checked.wf(),
        classes_of(checked, classes),
        checked.nets@.len() < u32::MAX,
        roots@.len() == checked.nets@.len(),
    ensures
        r@.len() == checked.nets@.len(),
        forall|net: int|
            0 <= net < r@.len() ==> match #[trigger] r@[net] {
                Some(d) => depth_from(checked, roots@, net) == Some(d as nat),
                None => depth_from(checked, roots@, net) is None,
            },
{
    let n: usize = checked.nets.len();
    let mut adj: Vec<Vec<usize>> = Vec::new();
    let mut u: usize = 0;
    while u < n
        invariant
            u <= n,
            n == checked.nets@.len(),
            classes_of(checked, classes),
            adj@.len() == u,
            forall|w: int|
                0 <= w < u ==> (#[trigger] adj@[w])@ == where_list(flow_step(checked, w), n as int),
        decreases n - u,
    {
        let mut row: Vec<usize> = Vec::new();
        let mut v: usize = 0;
        while v < n
            invariant
                v <= n,
                u < n,
                n == checked.nets@.len(),
                classes_of(checked, classes),
                row@ == where_list(flow_step(checked, u as int), v as int),
            decreases n - v,
        {
            if u != v && !classes.is_rail_net(v) && on_both(checked, u, v) {
                row.push(v);
            }
            v = v + 1;
        }
        adj.push(row);
        u = u + 1;
    }
    let ghost g = flow_graph(checked);
    proof {
        assert(lists(adj@) =~= g);
        assert forall|a: int, k: int|
            0 <= a < g.len() && 0 <= k < g[a].len() implies #[trigger] g[a][k] < g.len() by {
            where_list_contains(flow_step(checked, a), n as int, g[a][k]);
            assert(g[a].contains(g[a][k]));
        }
        assert forall|a: int| 0 <= a < g.len() implies (#[trigger] g[a]).len() <= usize::MAX by {
            assert(adj@[a]@.len() == adj@[a].len());
        }
        assert(graph_wf(g));
    }
    let dist = bfs_distances(&adj, roots);
    proof {
        let src = roots@;
        assert forall|net: int| 0 <= net < dist@.len() implies match #[trigger] dist@[net] {
            Some(d) => depth_from(checked, roots@, net) == Some(d as nat),
            None => depth_from(checked, roots@, net) is None,
        } by {
            match dist@[net] {
                Some(d) => {
                    assert(within(g, src, d as nat, net));
                    let c = choose|c: nat| is_distance(g, src, net, c);
                    assert(is_distance(g, src, net, d as nat));
                    distance_unique(g, src, net, c, d as nat);
                },
                None => {},
            }
        }
    }
    dist
}

/// The depth of every net: the number of steps of signal flow from the
/// nearest root.
pub fn signal_net_depth(checked: &CheckedNetlist, classes: &NetClassMap, placer: Placer) -> (r: Vec<
    Option<u32>,
>)
    requires
        checked.wf(),
        classes_of(checked, classes),
        checked.nets@.len() < u32::MAX,
    ensures
        r@.len() == checked.nets@.len(),
        forall|net: int|
            0 <= net < r@.len() ==> match #[trigger] r@[net] {
                Some(d) => net_depth(checked, placer, net) == Some(d as nat),
                None => net_depth(checked, placer, net) is None,
            },
{
    let roots = find_roots(checked, classes, placer);
    walk_from(checked, classes, &roots)
}

/// The depth of every net from root nets that the caller has chosen, in place
/// of those that [`is_depth_root`] finds.
pub fn signal_net_depth_from(
    checked: &CheckedNetlist,
    classes: &NetClassMap,
    root_nets: &Vec<usize>,
) -> (r: Vec<Option<u32>>)
    requires
        checked.wf(),
        classes_of(checked, classes),
        checked.nets@.len() < u32::MAX,
    ensures
        r@.len() == checked.nets@.len(),
        forall|net: int|
            0 <= net < r@.len() ==> match #[trigger] r@[net] {
                Some(d) => depth_from(checked, listed_roots(checked, root_nets@), net) == Some(
                    d as nat,
                ),
                None => depth_from(checked, listed_roots(checked, root_nets@), net) is None,
            },
{
    let n: usize = checked.nets.len();
    let mut roots: Vec<bool> = Vec::new();
    let mut net: usize = 0;
    while net < n
        invariant
            net <= n,
            roots@ == Seq::new(net as nat, |m: int| root_nets@.contains(m as usize)),
        decreases n - net,
    {
        roots.push(list_contains(root_nets, net));
        net = net + 1;
    }
    assert(roots@ =~= listed_roots(checked, root_nets@));
    walk_from(checked, classes, &roots)
}

/// Roots have depth zero and no other net has, and a net one step from a net
/// of some depth is at most one deeper.
pub proof fn depth_follows_the_flow(checked: &CheckedNetlist, placer: Placer, u: int, v: int)
    requires
        0 <= u < checked.nets@.len(),
        0 <= v < checked.nets@.len(),
        net_depth(checked, placer, u) matches Some(_),
    ensures
        net_depth(checked, placer, u) == Some(0nat) <==> is_depth_root(checked, placer, u),
        flow_step(checked, u)(v) ==> (net_depth(checked, placer, v) matches Some(b) && b
            <= net_depth(checked, placer, u)->0 + 1),
{
    let g = flow_graph(checked);
    let roots = depth_roots(checked, placer);
    assert(checked.nets@.len() == checked.nets.len());
    least_distance(g, roots, u);
    let a = net_depth(checked, placer, u)->0;
    assert(is_distance(g, roots, u, a));
    if is_depth_root(checked, placer, u) {
        assert(within(g, roots, 0, u));
        if a > 0 {
            crate::distance::within_monotone(g, roots, 0, (a - 1) as nat, u);
        }
    }
    if flow_step(checked, u)(v) {
        let n = checked.nets@.len() as int;
        where_list_contains(flow_step(checked, u), n, v as usize);
        assert(g[u].contains(v as usize));
        assert(has_edge(g, u, v));
        assert(within(g, roots, a + 1, v));
        assert(reached(g, roots, v));
        least_distance(g, roots, v);
        let b = net_depth(checked, placer, v)->0;
        if b > a + 1 {
            crate::distance::within_monotone(g, roots, a + 1, (b - 1) as nat, v);
        }
    }
}

/// A reached vertex has a distance.
proof fn least_distance(g: Seq<Seq<usize>>, sources: Seq<bool>, v: int)
    requires
        reached(g, sources, v),
    ensures
        exists|d: nat| is_distance(g, sources, v, d),
{
    let k = choose|k: nat| #[trigger] within(g, sources, k, v);
    least_below(g, sources, v, k);
}

proof fn least_below(g: Seq<Seq<usize>>, sources: Seq<bool>, v: int, k: nat)
    requires
        within(g, sources, k, v),
    ensures
        exists|d: nat| is_distance(g, sources, v, d),
    decreases k,
{
    if k > 0 && within(g, sources, (k - 1) as nat, v) {
        least_below(g, sources, v, (k - 1) as nat);
    } else {
        assert(is_distance(g, sources, v, k));
    }
}

/// A declared input opens the circuit. Only where there is none does an open
/// net named as an input, and only where there is none of those either, and
/// the policy has it so, a net that a drawn source feeds.
pub proof fn inputs_are_at_depth_zero(checked: &CheckedNetlist, placer: Placer, net: int, p: int)
    requires
        0 <= net < checked.nets@.len(),
        0 <= p < checked.ports@.len() ==> checked.ports@[p].net < checked.nets@.len(),
    ensures
        0 <= p < checked.ports@.len() && checked.ports@[p].dir == PortDir::Input ==> {
            &&& checked.ports@[p].net == net ==> is_depth_root(checked, placer, net)
            &&& is_depth_root(checked, placer, net) ==> exists|q: int|
                0 <= q < checked.ports@.len() && (#[trigger] checked.ports@[q]).net == net
                    && checked.ports@[q].dir == PortDir::Input
        },
        (forall|q: int|
            0 <= q < checked.ports@.len() ==> (#[trigger] checked.ports@[q]).dir
                != PortDir::Input) ==> {
            let open = |v: int|
                !checked.is_rail(v) && boundary_role(checked.nets@[v]@) == Some(PortDir::Input)
                    && touch_count(checked, v) == 1;
            let fed = !checked.is_rail(net) && exists|i: int|
                0 <= i < checked.elements@.len() && #[trigger] checked.touches(i, net)
                    && checked.elements@[i].role is Normal && (checked.elements@[i].kind
                    == crate::netlist::ElementKind::VoltageSrc || checked.elements@[i].kind
                    == crate::netlist::ElementKind::CurrentSrc);
            &&& open(net) ==> is_depth_root(checked, placer, net)
            &&& is_depth_root(checked, placer, net) ==> open(net) || fed
                && placer.unified_depth_roots
            &&& (forall|v: int| 0 <= v < checked.nets@.len() ==> !#[trigger] open(v))
                && placer.unified_depth_roots ==> (is_depth_root(checked, placer, net) <==> fed)
        },
{
    if 0 <= p < checked.ports@.len() && checked.ports@[p].dir == PortDir::Input {
        let v = checked.ports@[p].net as int;
        assert(input_port(checked, v));
        assert(is_input_port(checked)(v));
    }
    if leaf_input(checked, net) {
        assert(is_leaf_input(checked)(net));
    }
    let open = |v: int|
        !checked.is_rail(v) && boundary_role(checked.nets@[v]@) == Some(PortDir::Input)
            && touch_count(checked, v) == 1;
    if (forall|v: int| 0 <= v < checked.nets@.len() ==> !#[trigger] open(v)) && some_net(
        checked,
        is_leaf_input(checked),
    ) {
        let v = choose|v: int| 0 <= v < checked.nets@.len() && #[trigger] is_leaf_input(checked)(v);
        assert(!open(v));
    }
    if some_net(checked, is_input_port(checked)) {
        let v = choose|v: int| 0 <= v < checked.nets@.len() && #[trigger] is_input_port(checked)(v);
        assert(input_port(checked, v));
    }
}

/// `w` leads from an opening net to the given one, each net on an element with
/// the one before, and enters no rail.
pub open spec fn inward_walk(
    checked: &CheckedNetlist,
    placer: Placer,
    w: Seq<int>,
    net: int,
) -> bool {
    let n = checked.nets@.len();
    &&& w.len() >= 1
    &&& w.last() == net
    &&& is_depth_root(checked, placer, w[0])
    &&& forall|k: int| 0 <= k < w.len() ==> 0 <= #[trigger] w[k] < n
    &&& forall|k: int|
        0 <= k < w.len() - 1 ==> #[trigger] w[k] != w[k + 1] && !checked.is_rail(w[k + 1])
            && exists|i: int|
            0 <= i < checked.elements@.len() && #[trigger] checked.touches(i, w[k])
                && checked.touches(i, w[k + 1])
}

proof fn inward_walks_are_walks(checked: &CheckedNetlist, placer: Placer, w: Seq<int>, net: int)
    requires
        0 <= net < checked.nets@.len() <= usize::MAX,
        w.len() > 0 ==> 0 <= w[0] < checked.nets@.len(),
    ensures
        inward_walk(checked, placer, w, net) <==> crate::distance::walks_to(
            flow_graph(checked),
            depth_roots(checked, placer),
            w,
            net,
        ),
{
    let n = checked.nets@.len();
    let g = flow_graph(checked);
    let roots = depth_roots(checked, placer);
    assert forall|a: int, b: int| 0 <= a < n && 0 <= b < n implies (#[trigger] has_edge(g, a, b)
        <==> flow_step(checked, a)(b)) by {
        flow_edges(checked, a, b);
    }
    assert forall|a: int, b: int| #[trigger] has_edge(g, a, b) implies 0 <= a < n && 0 <= b < n by {
        let k = choose|k: int| 0 <= k < g[a].len() && #[trigger] g[a][k] == b;
        where_list_contains(flow_step(checked, a), n as int, g[a][k]);
        assert(g[a].contains(g[a][k]));
    }
    if inward_walk(checked, placer, w, net) {
        assert forall|k: int| 0 <= k < w.len() - 1 implies has_edge(g, #[trigger] w[k], w[k + 1]) by {
            assert(0 <= w[k] < n && 0 <= w[k + 1] < n);
            assert(flow_step(checked, w[k])(w[k + 1]));
        }
    }
    if crate::distance::walks_to(g, roots, w, net) {
        assert forall|k: int| 0 <= k < w.len() implies 0 <= #[trigger] w[k] < n by {
            if k < w.len() - 1 {
                assert(has_edge(g, w[k], w[k + 1]));
            } else if k > 0 {
                assert(has_edge(g, w[k - 1], w[k - 1 + 1]));
            }
        }
        assert forall|k: int| 0 <= k < w.len() - 1 implies #[trigger] w[k] != w[k + 1]
            && !checked.is_rail(w[k + 1]) && exists|i: int|
            0 <= i < checked.elements@.len() && #[trigger] checked.touches(i, w[k])
                && checked.touches(i, w[k + 1]) by {
            assert(has_edge(g, w[k], w[k + 1]));
            assert(flow_step(checked, w[k])(w[k + 1]));
        }
    }
}

proof fn flow_edges(checked: &CheckedNetlist, a: int, b: int)
    requires
        0 <= a < checked.nets@.len() <= usize::MAX,
        0 <= b < checked.nets@.len(),
    ensures
        has_edge(flow_graph(checked), a, b) <==> flow_step(checked, a)(b),
{
    let n = checked.nets@.len() as int;
    let g = flow_graph(checked);
    where_list_contains(flow_step(checked, a), n, b as usize);
    if has_edge(g, a, b) {
        let k = choose|k: int| 0 <= k < g[a].len() && #[trigger] g[a][k] == b;
        assert(g[a][k] == b as usize);
        assert(g[a].contains(b as usize));
    }
    if flow_step(checked, a)(b) {
        let k = choose|k: int| 0 <= k < g[a].len() && g[a][k] == b as usize;
        assert(g[a][k] == b);
    }
}

/// The depth of a net is the length of the shortest way to it from an opening
/// net, and a net has none exactly where no way leads.
pub proof fn depth_is_the_shortest_way_in(checked: &CheckedNetlist, placer: Placer, net: int)
    requires
        0 <= net < checked.nets@.len() <= usize::MAX,
    ensures
        match net_depth(checked, placer, net) {
            Some(d) => {
                &&& exists|w: Seq<int>| #[trigger]
                    inward_walk(checked, placer, w, net) && w.len() == d + 1
                &&& forall|w: Seq<int>| #[trigger]
                    inward_walk(checked, placer, w, net) ==> w.len() >= d + 1
            },
            None => forall|w: Seq<int>| !#[trigger] inward_walk(checked, placer, w, net),
        },
{
    let g = flow_graph(checked);
    let roots = depth_roots(checked, placer);
    crate::distance::reached_by_walks(g, roots, net);
    assert forall|w: Seq<int>| #[trigger] inward_walk(checked, placer, w, net) implies
        crate::distance::walks_to(g, roots, w, net) by {
        inward_walks_are_walks(checked, placer, w, net);
    }
    if reached(g, roots, net) {
        least_distance(g, roots, net);
        let d = net_depth(checked, placer, net)->0;
        crate::distance::distances_are_shortest_walks(g, roots, net, d);
        let w = choose|w: Seq<int>| #[trigger]
            crate::distance::walks_to(g, roots, w, net) && w.len() == d + 1;
        assert(0 <= w[0] < checked.nets@.len()) by {
            if w.len() > 1 {
                assert(has_edge(g, w[0], w[0int + 1]));
            }
        }
        inward_walks_are_walks(checked, placer, w, net);
    }
}

} // verus!
