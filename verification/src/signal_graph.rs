//! The graph of elements that share signal nets.

use vstd::prelude::*;

#[allow(unused_imports)]
use crate::counting::{count, count_positive, count_witness};
#[allow(unused_imports)]
use crate::cycles::{no_loops, without};
#[allow(unused_imports)]
use crate::layering::{holds_at, occurrences};
use crate::net_class::{NetClass, NetClassMap};
use crate::netlist::CheckedNetlist;
#[allow(unused_imports)]
use crate::netlist::nets_in_range;
#[allow(unused_imports)]
use crate::tarjan::{graph_wf, has_edge, lists};

verus! {

/// The net carries a signal: it is classed as one, or not classed at all.
pub open spec fn is_signal(class: Option<NetClass>) -> bool {
    class is None || class == Some(NetClass::Signal)
}

/// Whether the net carries a signal.
pub fn signal_net(classes: &NetClassMap, net: usize) -> (r: bool)
    requires
        net < classes.class@.len(),
    ensures
        r == is_signal(classes.class@[net as int]),
{
    match classes.class[net] {
        None => true,
        Some(NetClass::Signal) => true,
        _ => false,
    }
}

/// The elements with terminals on the net, once per terminal, among the first
/// `i`.
pub open spec fn members(checked: &CheckedNetlist, net: int, i: int) -> Seq<usize>
    decreases i,
{
    if i <= 0 {
        Seq::empty()
    } else {
        members(checked, net, i - 1) + Seq::new(
            occurrences(checked.elements@[i - 1].nodes@, net),
            |k: int| (i - 1) as usize,
        )
    }
}

/// Every element with a terminal on the net, once per terminal.
pub open spec fn all_members(checked: &CheckedNetlist, net: int) -> Seq<usize> {
    members(checked, net, checked.elements@.len() as int)
}

/// What a net adds to the neighbours of `u`: for each of its first `t` member
/// slots that is `u`, the other members.
pub open spec fn net_neighbours(ms: Seq<usize>, u: usize, t: int) -> Seq<usize>
    decreases t,
{
    if t <= 0 {
        Seq::empty()
    } else if ms[t - 1] == u {
        net_neighbours(ms, u, t - 1) + without(ms, u)
    } else {
        net_neighbours(ms, u, t - 1)
    }
}

/// The neighbours of `u` through the signal nets below `m`, by net name.
pub open spec fn neighbours(
    checked: &CheckedNetlist,
    classes: Seq<Option<NetClass>>,
    u: usize,
    m: int,
) -> Seq<usize>
    decreases m,
{
    if m <= 0 {
        Seq::empty()
    } else if is_signal(classes[m - 1]) {
        let ms = all_members(checked, m - 1);
        neighbours(checked, classes, u, m - 1) + net_neighbours(ms, u, ms.len() as int)
    } else {
        neighbours(checked, classes, u, m - 1)
    }
}

/// The signal graph: every ordered pair of distinct elements on a signal net
/// is an edge.
pub open spec fn signal_graph(checked: &CheckedNetlist, classes: Seq<Option<NetClass>>) -> Seq<
    Seq<usize>,
> {
    Seq::new(
        checked.elements@.len(),
        |u: int| neighbours(checked, classes, u as usize, checked.nets@.len() as int),
    )
}

/// The two elements share a signal net.
pub open spec fn share_signal(
    checked: &CheckedNetlist,
    classes: Seq<Option<NetClass>>,
    i: int,
    j: int,
) -> bool {
    exists|net: int|
        0 <= net < checked.nets@.len() && is_signal(classes[net]) && #[trigger] checked.touches(
            i,
            net,
        ) && checked.touches(j, net)
}

proof fn occurrences_touch(checked: &CheckedNetlist, i: int, net: int)
    ensures
        occurrences(checked.elements@[i].nodes@, net) > 0 <==> checked.touches(i, net),
{
    let nodes = checked.elements@[i].nodes@;
    let p = holds_at(nodes, net);
    if occurrences(nodes, net) > 0 {
        let k = count_witness(p, nodes.len() as int);
        assert(checked.elements@[i].nodes@[k] == net);
    }
    if checked.touches(i, net) {
        let k = choose|k: int|
            0 <= k < checked.elements@[i].nodes@.len() && #[trigger] checked.elements@[i].nodes@[k]
                == net;
        count_positive(p, nodes.len() as int, k);
    }
}

/// A net's members are the elements that touch it.
pub proof fn members_touch(checked: &CheckedNetlist, net: int, n: int, i: usize)
    requires
        0 <= n <= checked.elements@.len(),
        checked.elements@.len() <= usize::MAX,
    ensures
        members(checked, net, n).contains(i) <==> i < n && checked.touches(i as int, net),
    decreases n,
{
    if n > 0 {
        members_touch(checked, net, n - 1, i);
        occurrences_touch(checked, n - 1, net);
        let a = members(checked, net, n - 1);
        let c = occurrences(checked.elements@[n - 1].nodes@, net);
        let b = Seq::new(c, |k: int| (n - 1) as usize);
        append_contains(a, b, i);
        if c > 0 {
            assert(b[0] == (n - 1) as usize);
        }
        if b.contains(i) {
            let k = choose|k: int| 0 <= k < b.len() && b[k] == i;
            assert(b[k] == (n - 1) as usize);
        }
    }
}

proof fn append_contains(a: Seq<usize>, b: Seq<usize>, x: usize)
    ensures
        (a + b).contains(x) <==> a.contains(x) || b.contains(x),
{
    let c = a + b;
    if a.contains(x) {
        let k = choose|k: int| 0 <= k < a.len() && a[k] == x;
        assert(c[k] == x);
    }
    if b.contains(x) {
        let k = choose|k: int| 0 <= k < b.len() && b[k] == x;
        assert(c[a.len() + k] == x);
    }
    if c.contains(x) {
        let k = choose|k: int| 0 <= k < c.len() && c[k] == x;
        if k < a.len() {
            assert(a[k] == x);
        } else {
            assert(b[k - a.len()] == x);
        }
    }
}

proof fn net_neighbours_contains(ms: Seq<usize>, u: usize, t: int, v: usize)
    requires
        0 <= t <= ms.len(),
    ensures
        net_neighbours(ms, u, t).contains(v) <==> ms.take(t).contains(u) && ms.contains(v) && u
            != v,
    decreases t,
{
    if t > 0 {
        net_neighbours_contains(ms, u, t - 1, v);
        crate::cycles::without_contains(ms, u, v);
        append_contains(net_neighbours(ms, u, t - 1), without(ms, u), v);
        let s = ms.take(t);
        let r = ms.take(t - 1);
        if r.contains(u) {
            let k = choose|k: int| 0 <= k < r.len() && r[k] == u;
            assert(s[k] == u);
        }
        if ms[t - 1] == u {
            assert(s[t - 1] == u);
        }
        if s.contains(u) {
            let k = choose|k: int| 0 <= k < s.len() && s[k] == u;
            if k < t - 1 {
                assert(r[k] == u);
            }
        }
    }
}

proof fn neighbours_contains(
    checked: &CheckedNetlist,
    classes: Seq<Option<NetClass>>,
    u: usize,
    m: int,
    v: usize,
)
    requires
        checked.elements@.len() <= usize::MAX,
        0 <= m,
    ensures
        neighbours(checked, classes, u, m).contains(v) <==> u != v && u < checked.elements@.len()
            && v < checked.elements@.len() && exists|net: int|
            0 <= net < m && is_signal(classes[net]) && #[trigger] checked.touches(u as int, net)
                && checked.touches(v as int, net),
    decreases m,
{
    if m > 0 {
        neighbours_contains(checked, classes, u, m - 1, v);
        if is_signal(classes[m - 1]) {
            let ms = all_members(checked, m - 1);
            let n = checked.elements@.len() as int;
            append_contains(
                neighbours(checked, classes, u, m - 1),
                net_neighbours(ms, u, ms.len() as int),
                v,
            );
            net_neighbours_contains(ms, u, ms.len() as int, v);
            assert(ms.take(ms.len() as int) =~= ms);
            members_touch(checked, m - 1, n, u);
            members_touch(checked, m - 1, n, v);
        }
    }
}

/// The edges of the signal graph join the distinct elements that share a
/// signal net.
pub proof fn signal_graph_edges(
    checked: &CheckedNetlist,
    classes: Seq<Option<NetClass>>,
    i: int,
    j: int,
)
    requires
        checked.elements@.len() <= usize::MAX,
    ensures
        has_edge(signal_graph(checked, classes), i, j) <==> i != j && 0 <= i
            < checked.elements@.len() && 0 <= j < checked.elements@.len() && share_signal(
            checked,
            classes,
            i,
            j,
        ),
{
    let g = signal_graph(checked, classes);
    let m = checked.nets@.len() as int;
    if 0 <= i < checked.elements@.len() {
        if has_edge(g, i, j) {
            let k = choose|k: int| 0 <= k < g[i].len() && #[trigger] g[i][k] == j;
            let s = neighbours(checked, classes, i as usize, m);
            assert(s[k] == j as usize);
            neighbours_contains(checked, classes, i as usize, m, j as usize);
        }
        if i != j && 0 <= j < checked.elements@.len() && share_signal(checked, classes, i, j) {
            neighbours_contains(checked, classes, i as usize, m, j as usize);
            let s = neighbours(checked, classes, i as usize, m);
            let k = choose|k: int| 0 <= k < s.len() && s[k] == j as usize;
            assert(g[i][k] == j);
        }
    }
}

/// The signal graph has no loops and joins elements both ways.
pub proof fn signal_graph_symmetric(
    checked: &CheckedNetlist,
    classes: Seq<Option<NetClass>>,
    i: int,
    j: int,
)
    requires
        checked.elements@.len() <= usize::MAX,
    ensures
        has_edge(signal_graph(checked, classes), i, j) == has_edge(
            signal_graph(checked, classes),
            j,
            i,
        ),
        !has_edge(signal_graph(checked, classes), i, i),
{
    signal_graph_edges(checked, classes, i, j);
    signal_graph_edges(checked, classes, j, i);
    signal_graph_edges(checked, classes, i, i);
    if share_signal(checked, classes, i, j) {
        let net = choose|net: int|
            0 <= net < checked.nets@.len() && is_signal(classes[net]) && #[trigger] checked.touches(
                i,
                net,
            ) && checked.touches(j, net);
        assert(checked.touches(j, net));
    }
    if share_signal(checked, classes, j, i) {
        let net = choose|net: int|
            0 <= net < checked.nets@.len() && is_signal(classes[net]) && #[trigger] checked.touches(
                j,
                net,
            ) && checked.touches(i, net);
        assert(checked.touches(i, net));
    }
}

/// The elements with terminals on the net, once per terminal.
pub fn net_members(checked: &CheckedNetlist, net: usize) -> (r: Vec<usize>)
    ensures
        r@ == all_members(checked, net as int),
{
    let mut r: Vec<usize> = Vec::new();
    let mut i: usize = 0;
    while i < checked.elements.len()
        invariant
            i <= checked.elements@.len(),
            r@ == members(checked, net as int, i as int),
        decreases checked.elements@.len() - i,
    {
        let nodes = &checked.elements[i].nodes;
        let ghost before = r@;
        let ghost p = holds_at(nodes@, net as int);
        let mut k: usize = 0;
        proof {
            assert(before + Seq::new(0, |x: int| i) =~= before);
        }
        while k < nodes.len()
            invariant
                nodes@ == checked.elements@[i as int].nodes@,
                i < checked.elements@.len(),
                p == holds_at(nodes@, net as int),
                k <= nodes@.len(),
                r@ == before + Seq::new(count(p, k as int), |x: int| i),
            decreases nodes@.len() - k,
        {
            let ghost now = r@;
            if nodes[k] == net {
                r.push(i);
                proof {
                    assert(r@ =~= before + Seq::new(count(p, k as int + 1), |x: int| i));
                }
            }
            k = k + 1;
        }
        assert(r@ =~= members(checked, net as int, i + 1));
        i = i + 1;
    }
    r
}

/// Builds the signal graph.
pub fn signal_adjacency(checked: &CheckedNetlist, classes: &NetClassMap) -> (adj: Vec<Vec<usize>>)
    requires
        classes.class@.len() == checked.nets@.len(),
    ensures
        lists(adj@) == signal_graph(checked, classes.class@),
        graph_wf(lists(adj@)),
        no_loops(lists(adj@)),
{
    let n: usize = checked.elements.len();
    let ghost cl = classes.class@;
    let mut adj: Vec<Vec<usize>> = Vec::new();
    let mut i: usize = 0;
    while i < n
        invariant
            i <= n,
            adj@.len() == i,
            forall|u: int| 0 <= u < i ==> (#[trigger] adj@[u])@ == Seq::<usize>::empty(),
        decreases n - i,
    {
        adj.push(Vec::new());
        i = i + 1;
    }
    let mut net: usize = 0;
    while net < checked.nets.len()
        invariant
            n == checked.elements@.len(),
            cl == classes.class@,
            cl.len() == checked.nets@.len(),
            net <= checked.nets@.len(),
            adj@.len() == n,
            forall|u: int|
                0 <= u < n ==> (#[trigger] adj@[u])@ == neighbours(
                    checked,
                    cl,
                    u as usize,
                    net as int,
                ),
        decreases checked.nets@.len() - net,
    {
        if signal_net(classes, net) {
            let ms: Vec<usize> = net_members(checked, net);
            let mut t: usize = 0;
            proof {
                assert forall|u: int| 0 <= u < n implies (#[trigger] adj@[u])@ == neighbours(
                    checked,
                    cl,
                    u as usize,
                    net as int,
                ) + net_neighbours(ms@, u as usize, 0) by {
                    assert(adj@[u]@ =~= adj@[u]@ + Seq::<usize>::empty());
                }
                assert forall|k: int| 0 <= k < ms@.len() implies (#[trigger] ms@[k]) < n by {
                    members_touch(checked, net as int, n as int, ms@[k]);
                    assert(ms@.contains(ms@[k]));
                }
            }
            while t < ms.len()
                invariant
                    n == checked.elements@.len(),
                    adj@.len() == n,
                    t <= ms@.len(),
                    forall|k: int| 0 <= k < ms@.len() ==> (#[trigger] ms@[k]) < n,
                    forall|u: int|
                        0 <= u < n ==> (#[trigger] adj@[u])@ == neighbours(
                            checked,
                            cl,
                            u as usize,
                            net as int,
                        ) + net_neighbours(ms@, u as usize, t as int),
                decreases ms@.len() - t,
            {
                let u: usize = ms[t];
                let mut others: Vec<usize> = crate::cycles::list_without(&ms, u);
                let ghost before = adj@;
                let ghost added = others@;
                adj[u].append(&mut others);
                proof {
                    assert forall|w: int| 0 <= w < n implies (#[trigger] adj@[w])@ == neighbours(
                        checked,
                        cl,
                        w as usize,
                        net as int,
                    ) + net_neighbours(ms@, w as usize, t + 1) by {
                        if w == u {
                            assert(adj@[w]@ =~= before[w]@ + added);
                            assert(adj@[w]@ =~= neighbours(checked, cl, w as usize, net as int) + (
                            net_neighbours(ms@, w as usize, t as int) + added));
                        } else {
                            assert(adj@[w] == before[w]);
                        }
                    }
                }
                t = t + 1;
            }
        }
        net = net + 1;
    }
    proof {
        let g = lists(adj@);
        assert(g =~= signal_graph(checked, cl)) by {
            assert forall|u: int| 0 <= u < n implies g[u] == signal_graph(checked, cl)[u] by {
                assert(adj@[u]@ == neighbours(checked, cl, u as usize, checked.nets@.len() as int));
            }
        }
        assert forall|u: int| 0 <= u < g.len() implies (#[trigger] g[u]).len() <= usize::MAX by {
            assert(adj@[u]@.len() == adj@[u].len());
        }
        assert forall|u: int, j: int| 0 <= u < g.len() && 0 <= j < g[u].len() implies (
        #[trigger] g[u][j]) < g.len() && g[u][j] != u by {
            assert(has_edge(g, u, g[u][j] as int));
            signal_graph_edges(checked, cl, u, g[u][j] as int);
        }
    }
    adj
}

/// Two different elements are neighbours exactly if each has a terminal on some
/// net that is neither a supply nor ground.
pub proof fn neighbours_meet_on_a_signal(
    checked: &CheckedNetlist,
    classes: Seq<Option<NetClass>>,
    i: int,
    j: int,
)
    requires
        checked.wf(),
        checked.elements@.len() <= usize::MAX,
        0 <= i < checked.elements@.len(),
        0 <= j < checked.elements@.len(),
        i != j,
    ensures
        has_edge(signal_graph(checked, classes), i, j) <==> exists|s: int, t: int|
            #![trigger checked.elements@[i].nodes@[s], checked.elements@[j].nodes@[t]]
            {
                &&& 0 <= s < checked.elements@[i].nodes@.len()
                &&& 0 <= t < checked.elements@[j].nodes@.len()
                &&& checked.elements@[i].nodes@[s] == checked.elements@[j].nodes@[t]
                &&& classes[checked.elements@[i].nodes@[s] as int] != Some(NetClass::Power)
                &&& classes[checked.elements@[i].nodes@[s] as int] != Some(NetClass::Ground)
            },
{
    let (a, b) = (checked.elements@[i].nodes@, checked.elements@[j].nodes@);
    signal_graph_edges(checked, classes, i, j);
    assert(nets_in_range(checked.elements@[i].nodes@, checked.nets@.len()));
    if share_signal(checked, classes, i, j) {
        let net = choose|net: int|
            0 <= net < checked.nets@.len() && is_signal(classes[net]) && #[trigger] checked.touches(
                i,
                net,
            ) && checked.touches(j, net);
        let s = choose|s: int|
            0 <= s < checked.elements@[i].nodes@.len() && #[trigger] checked.elements@[i].nodes@[s]
                == net;
        let t = choose|t: int|
            0 <= t < checked.elements@[j].nodes@.len() && #[trigger] checked.elements@[j].nodes@[t]
                == net;
        assert(checked.elements@[i].nodes@[s] == checked.elements@[j].nodes@[t]);
    }
    if exists|s: int, t: int|
        #![trigger checked.elements@[i].nodes@[s], checked.elements@[j].nodes@[t]]
        {
            &&& 0 <= s < checked.elements@[i].nodes@.len()
            &&& 0 <= t < checked.elements@[j].nodes@.len()
            &&& checked.elements@[i].nodes@[s] == checked.elements@[j].nodes@[t]
            &&& classes[checked.elements@[i].nodes@[s] as int] != Some(NetClass::Power)
            &&& classes[checked.elements@[i].nodes@[s] as int] != Some(NetClass::Ground)
        } {
        let (s, t) = choose|s: int, t: int|
            #![trigger checked.elements@[i].nodes@[s], checked.elements@[j].nodes@[t]]
            {
                &&& 0 <= s < checked.elements@[i].nodes@.len()
                &&& 0 <= t < checked.elements@[j].nodes@.len()
                &&& checked.elements@[i].nodes@[s] == checked.elements@[j].nodes@[t]
                &&& classes[checked.elements@[i].nodes@[s] as int] != Some(NetClass::Power)
                &&& classes[checked.elements@[i].nodes@[s] as int] != Some(NetClass::Ground)
            };
        let net = a[s] as int;
        assert(checked.touches(i, net) && checked.touches(j, net));
        class_is_signal(classes[net]);
    }
}

/// A net carries a signal exactly if it is neither a supply nor ground.
pub proof fn class_is_signal(class: Option<NetClass>)
    ensures
        is_signal(class) <==> class != Some(NetClass::Power) && class != Some(NetClass::Ground),
{
    match class {
        Some(NetClass::Power) => {},
        Some(NetClass::Ground) => {},
        Some(NetClass::Signal) => {},
        None => {},
    }
}

} // verus!
