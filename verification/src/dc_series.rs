//! DC-series pairs and columns: drawn elements that carry one supply-to-ground
//! current, in order of potential.

use vstd::prelude::*;

#[allow(unused_imports)]
use crate::counting::{count, count_insert};
use crate::dc_rank::{conduction_terminals, higher_net};
#[allow(unused_imports)]
use crate::dc_rank::{conduction_of, conducts, higher_of, sits_higher};
use crate::distance::bfs_distances;
#[allow(unused_imports)]
use crate::distance::{distances, is_distance, reached};
#[allow(unused_imports)]
use crate::names::ascii_lower;
use crate::net_class::{
    classify_nets, matches_ground_name, matches_power_name, vertical_prefs, NetClass, NetClassMap,
    VertPref,
};
#[allow(unused_imports)]
use crate::net_class::{classes_of, is_ground_name, is_power_name};
use crate::netlist::{CheckedNetlist, ElementKind, ResolvedElement};
#[allow(unused_imports)]
use crate::netlist::nets_in_range;
#[allow(unused_imports)]
use crate::ordering::{first_where, first_where_is_first, where_list, where_list_contains};
#[allow(unused_imports)]
use crate::tarjan::{graph_wf, lists};

verus! {

// ---------------------------------------------------------------------------
// Pairs
// ---------------------------------------------------------------------------

/// A DC current can enter or leave the element at terminal `k`.
pub open spec fn dc_terminal(e: ResolvedElement, k: int) -> bool {
    &&& 0 <= k < e.nodes@.len()
    &&& !e.role.is_power()
    &&& e.kind != ElementKind::Capacitor
    &&& (e.kind == ElementKind::Bjt || e.kind == ElementKind::Mosfet || e.kind == ElementKind::Jfet)
        ==> k != 1
}

/// The element has a DC terminal on the net.
pub open spec fn dc_on(e: ResolvedElement, net: int) -> bool {
    exists|k: int| #[trigger] dc_terminal(e, k) && e.nodes@[k] == net
}

/// Whether the element has a DC terminal on the net.
pub fn dc_terminal_on(e: &ResolvedElement, net: usize) -> (r: bool)
    ensures
        r == dc_on(*e, net as int),
{
    let transistor = e.kind == ElementKind::Bjt || e.kind == ElementKind::Mosfet || e.kind
        == ElementKind::Jfet;
    if e.role.power() || e.kind == ElementKind::Capacitor {
        return false;
    }
    let mut k: usize = 0;
    while k < e.nodes.len()
        invariant
            transistor == (e.kind == ElementKind::Bjt || e.kind == ElementKind::Mosfet || e.kind
                == ElementKind::Jfet),
            !e.role.is_power(),
            e.kind != ElementKind::Capacitor,
            k <= e.nodes@.len(),
            forall|j: int| 0 <= j < k && #[trigger] dc_terminal(*e, j) ==> e.nodes@[j] != net,
        decreases e.nodes@.len() - k,
    {
        if (!transistor || k != 1) && e.nodes[k] == net {
            assert(dc_terminal(*e, k as int));
            return true;
        }
        k = k + 1;
    }
    false
}

impl CheckedNetlist {
    /// The net is a supply, ground or a negative supply; a net that no element
    /// touches goes by its name.
    pub open spec fn is_dc_rail(&self, net: int) -> bool {
        match self.class_of(net) {
            Some(NetClass::Power) => true,
            Some(NetClass::Ground) => true,
            Some(NetClass::Signal) => false,
            None => is_ground_name(ascii_lower(self.nets@[net]@)) || is_power_name(
                ascii_lower(self.nets@[net]@),
            ),
        }
    }

    /// A hierarchical sheet has a port on the net.
    pub open spec fn sheet_on(&self, net: int) -> bool {
        exists|k: int, j: int|
            #![trigger self.sheet_instances@[k].nodes@[j]]
            0 <= k < self.sheet_instances@.len() && 0 <= j < self.sheet_instances@[k].nodes@.len()
                && self.sheet_instances@[k].nodes@[j] == net
    }
}

/// Whether the net is a rail.
pub fn is_rail_net(checked: &CheckedNetlist, classes: &NetClassMap, net: usize) -> (r: bool)
    requires
        classes_of(checked, classes),
        net < checked.nets@.len(),
    ensures
        r == checked.is_dc_rail(net as int),
{
    assert(classes.class@[net as int] == checked.class_of(net as int));
    match classes.class[net] {
        Some(NetClass::Power) => true,
        Some(NetClass::Ground) => true,
        Some(NetClass::Signal) => false,
        None => {
            let lower = checked.nets[net].as_str().to_ascii_lowercase();
            matches_ground_name(lower.as_str()) || matches_power_name(lower.as_str())
        },
    }
}

/// Whether a hierarchical sheet has a port on the net.
pub fn sheet_touches(checked: &CheckedNetlist, net: usize) -> (r: bool)
    ensures
        r == checked.sheet_on(net as int),
{
    let mut k: usize = 0;
    while k < checked.sheet_instances.len()
        invariant
            k <= checked.sheet_instances@.len(),
            forall|a: int, j: int|
                #![trigger checked.sheet_instances@[a].nodes@[j]]
                0 <= a < k && 0 <= j < checked.sheet_instances@[a].nodes@.len()
                    ==> checked.sheet_instances@[a].nodes@[j] != net,
        decreases checked.sheet_instances@.len() - k,
    {
        let nodes = &checked.sheet_instances[k].nodes;
        let mut j: usize = 0;
        while j < nodes.len()
            invariant
                k < checked.sheet_instances@.len(),
                nodes@ == checked.sheet_instances@[k as int].nodes@,
                j <= nodes@.len(),
                forall|b: int| 0 <= b < j ==> #[trigger] nodes@[b] != net,
            decreases nodes@.len() - j,
        {
            if nodes[j] == net {
                assert(checked.sheet_instances@[k as int].nodes@[j as int] == net);
                return true;
            }
            j = j + 1;
        }
        k = k + 1;
    }
    false
}

/// A step of a DC walk that ends at rails, with the edge of element `skip`
/// removed.
pub open spec fn walk_step(checked: &CheckedNetlist, skip: int, a: int) -> spec_fn(int) -> bool {
    |b: int|
        !checked.is_dc_rail(a) && exists|i: int| i != skip && #[trigger] conducts(checked, i, a, b)
}

/// The graph of such steps.
pub open spec fn walk_graph(checked: &CheckedNetlist, skip: int) -> Seq<Seq<usize>> {
    let n = checked.nets@.len();
    Seq::new(n, |a: int| where_list(walk_step(checked, skip, a), n as int))
}

/// Only the net `a`.
pub open spec fn only(n: nat, a: int) -> Seq<bool> {
    Seq::new(n, |x: int| x == a)
}

/// A DC path past element `skip` leads from the net to the rail.
pub open spec fn reaches_rail(checked: &CheckedNetlist, skip: int, from: int, rail: int) -> bool {
    checked.is_dc_rail(rail) && reached(
        walk_graph(checked, skip),
        only(checked.nets@.len(), from),
        rail,
    )
}

/// Element `i` lies on a DC path between two different rails.
pub open spec fn bridges_rails(checked: &CheckedNetlist, i: int) -> bool {
    match conduction_of(checked.elements@[i]) {
        Some((x, y)) => {
            let n = checked.elements@[i].nodes@;
            exists|p: int, q: int|
                0 <= p < checked.nets@.len() && 0 <= q < checked.nets@.len() && p != q
                    && #[trigger] reaches_rail(checked, i, n[x as int] as int, p)
                    && #[trigger] reaches_rail(checked, i, n[y as int] as int, q)
        },
        None => false,
    }
}

/// The elements that conduct DC onto the net are exactly `u` and `v`.
pub open spec fn sole_conductors(checked: &CheckedNetlist, u: int, v: int, net: int) -> bool {
    forall|i: int|
        0 <= i < checked.elements@.len() ==> (dc_on(#[trigger] checked.elements@[i], net) <==> i == u || i == v)
}

/// Elements `u < v` are in DC series at the net: it is no rail, they alone
/// conduct onto it, no sheet is on it, and each lies on a path between rails.
pub open spec fn series_pair(checked: &CheckedNetlist, u: int, v: int, net: int) -> bool {
    &&& 0 <= u < v < checked.elements@.len()
    &&& 0 <= net < checked.nets@.len()
    &&& !checked.is_dc_rail(net)
    &&& sole_conductors(checked, u, v, net)
    &&& !checked.sheet_on(net)
    &&& bridges_rails(checked, u)
    &&& bridges_rails(checked, v)
}

/// Whether a step leads from `a` to `b`.
fn walk_steps(
    checked: &CheckedNetlist,
    classes: &NetClassMap,
    skip: usize,
    a: usize,
    b: usize,
) -> (r: bool)
    requires
        checked.wf(),
        classes_of(checked, classes),
        a < checked.nets@.len(),
    ensures
        r == walk_step(checked, skip as int, a as int)(b as int),
{
    if is_rail_net(checked, classes, a) {
        return false;
    }
    let mut i: usize = 0;
    while i < checked.elements.len()
        invariant
            checked.wf(),
            !checked.is_dc_rail(a as int),
            i <= checked.elements@.len(),
            forall|j: int|
                0 <= j < i && j != skip ==> !#[trigger] conducts(checked, j, a as int, b as int),
        decreases checked.elements@.len() - i,
    {
        if i != skip {
            let e = &checked.elements[i];
            match conduction_terminals(e) {
                Some((x, y)) => {
                    if e.nodes[x] == a && e.nodes[y] == b || e.nodes[x] == b && e.nodes[y] == a {
                        assert(conducts(checked, i as int, a as int, b as int));
                        return true;
                    }
                },
                None => {},
            }
        }
        i = i + 1;
    }
    assert forall|j: int| j != skip implies !#[trigger] conducts(
        checked,
        j,
        a as int,
        b as int,
    ) by {
        if 0 <= j < checked.elements@.len() {
            assert(!conducts(checked, j, a as int, b as int));
        }
    }
    false
}

/// The graph of DC steps past one element.
fn walk_adjacency(checked: &CheckedNetlist, classes: &NetClassMap, skip: usize) -> (adj: Vec<
    Vec<usize>,
>)
    requires
        checked.wf(),
        classes_of(checked, classes),
    ensures
        lists(adj@) == walk_graph(checked, skip as int),
        graph_wf(lists(adj@)),
{
    let n: usize = checked.nets.len();
    let mut adj: Vec<Vec<usize>> = Vec::new();
    let mut a: usize = 0;
    while a < n
        invariant
            checked.wf(),
            classes_of(checked, classes),
            n == checked.nets@.len(),
            a <= n,
            adj@.len() == a,
            forall|x: int|
                0 <= x < a ==> (#[trigger] adj@[x])@ == where_list(
                    walk_step(checked, skip as int, x),
                    n as int,
                ),
        decreases n - a,
    {
        let ghost p = walk_step(checked, skip as int, a as int);
        let mut row: Vec<usize> = Vec::new();
        let mut b: usize = 0;
        while b < n
            invariant
                checked.wf(),
                classes_of(checked, classes),
                n == checked.nets@.len(),
                a < n,
                p == walk_step(checked, skip as int, a as int),
                b <= n,
                row@ == where_list(p, b as int),
            decreases n - b,
        {
            if walk_steps(checked, classes, skip, a, b) {
                row.push(b);
            }
            b = b + 1;
        }
        adj.push(row);
        a = a + 1;
    }
    proof {
        let g = lists(adj@);
        let h = walk_graph(checked, skip as int);
        assert forall|x: int| 0 <= x < n implies g[x] == h[x] by {
            assert(adj@[x]@ == where_list(walk_step(checked, skip as int, x), n as int));
        }
        assert(g =~= h);
        assert forall|x: int| 0 <= x < g.len() implies (#[trigger] g[x]).len() <= usize::MAX by {
            assert(adj@[x]@.len() == adj@[x].len());
        }
        assert forall|x: int, j: int| 0 <= x < g.len() && 0 <= j < g[x].len() implies (
        #[trigger] g[x][j]) < g.len() by {
            where_list_contains(walk_step(checked, skip as int, x), n as int, g[x][j]);
            assert(g[x].contains(g[x][j]));
        }
    }
    adj
}

/// Flags the rails that DC paths past one element lead to from a net.
pub fn rails_reachable(checked: &CheckedNetlist, classes: &NetClassMap, from: usize, skip: usize) -> (r:
    Vec<bool>)
    requires
        checked.wf(),
        classes_of(checked, classes),
        checked.nets@.len() < u32::MAX,
        from < checked.nets@.len(),
    ensures
        r@.len() == checked.nets@.len(),
        forall|rail: int|
            0 <= rail < r@.len() ==> #[trigger] r@[rail] == reaches_rail(
                checked,
                skip as int,
                from as int,
                rail,
            ),
{
    let n: usize = checked.nets.len();
    let adj: Vec<Vec<usize>> = walk_adjacency(checked, classes, skip);
    let mut roots: Vec<bool> = Vec::new();
    let mut a: usize = 0;
    while a < n
        invariant
            a <= n,
            roots@ == only(a as nat, from as int),
        decreases n - a,
    {
        roots.push(a == from);
        assert(roots@ =~= only((a + 1) as nat, from as int));
        a = a + 1;
    }
    let dist: Vec<Option<u32>> = bfs_distances(&adj, &roots);
    let mut r: Vec<bool> = Vec::new();
    let mut a: usize = 0;
    while a < n
        invariant
            n == checked.nets@.len(),
            classes_of(checked, classes),
            lists(adj@) == walk_graph(checked, skip as int),
            roots@ == only(n as nat, from as int),
            distances(lists(adj@), roots@, dist@),
            a <= n,
            r@.len() == a,
            forall|rail: int|
                0 <= rail < a ==> #[trigger] r@[rail] == reaches_rail(
                    checked,
                    skip as int,
                    from as int,
                    rail,
                ),
        decreases n - a,
    {
        let hit = dist[a].is_some();
        proof {
            let g = walk_graph(checked, skip as int);
            match dist@[a as int] {
                Some(d) => {
                    assert(is_distance(g, roots@, a as int, d as nat));
                    assert(reached(g, roots@, a as int));
                },
                None => {},
            }
        }
        r.push(hit && is_rail_net(checked, classes, a));
        a = a + 1;
    }
    r
}

/// Whether an element lies on a DC path between two different rails.
fn spans_rails(checked: &CheckedNetlist, classes: &NetClassMap, i: usize) -> (r: bool)
    requires
        checked.wf(),
        classes_of(checked, classes),
        checked.nets@.len() < u32::MAX,
        i < checked.elements@.len(),
    ensures
        r == bridges_rails(checked, i as int),
{
    let e = &checked.elements[i];
    match conduction_terminals(e) {
        Some((x, y)) => {
            assert(nets_in_range(checked.elements@[i as int].nodes@, checked.nets@.len()));
            let n: usize = checked.nets.len();
            let left: Vec<bool> = rails_reachable(checked, classes, e.nodes[x], i);
            let right: Vec<bool> = rails_reachable(checked, classes, e.nodes[y], i);
            let ghost na = e.nodes@[x as int] as int;
            let ghost nb = e.nodes@[y as int] as int;
            let mut p: usize = 0;
            while p < n
                invariant
                    n == checked.nets@.len(),
                    left@.len() == n,
                    right@.len() == n,
                    i < checked.elements@.len(),
                    *e == checked.elements@[i as int],
                    conduction_of(checked.elements@[i as int]) == Some((x, y)),
                    na == e.nodes@[x as int],
                    nb == e.nodes@[y as int],
                    forall|rail: int|
                        0 <= rail < n ==> #[trigger] left@[rail] == reaches_rail(
                            checked,
                            i as int,
                            na,
                            rail,
                        ),
                    forall|rail: int|
                        0 <= rail < n ==> #[trigger] right@[rail] == reaches_rail(
                            checked,
                            i as int,
                            nb,
                            rail,
                        ),
                    p <= n,
                    forall|a: int, b: int|
                        0 <= a < p && 0 <= b < n && a != b ==> !(#[trigger] reaches_rail(
                            checked,
                            i as int,
                            na,
                            a,
                        ) && #[trigger] reaches_rail(checked, i as int, nb, b)),
                decreases n - p,
            {
                let mut q: usize = 0;
                while q < n
                    invariant
                        n == checked.nets@.len(),
                        left@.len() == n,
                        right@.len() == n,
                        i < checked.elements@.len(),
                        *e == checked.elements@[i as int],
                        conduction_of(checked.elements@[i as int]) == Some((x, y)),
                        na == e.nodes@[x as int],
                        nb == e.nodes@[y as int],
                        p < n,
                        forall|rail: int|
                            0 <= rail < n ==> #[trigger] left@[rail] == reaches_rail(
                                checked,
                                i as int,
                                na,
                                rail,
                            ),
                        forall|rail: int|
                            0 <= rail < n ==> #[trigger] right@[rail] == reaches_rail(
                                checked,
                                i as int,
                                nb,
                                rail,
                            ),
                        q <= n,
                        forall|b: int|
                            0 <= b < q && p != b ==> !(reaches_rail(checked, i as int, na, p as int)
                                && #[trigger] reaches_rail(checked, i as int, nb, b)),
                    decreases n - q,
                {
                    assert(left@[p as int] == reaches_rail(checked, i as int, na, p as int));
                    assert(right@[q as int] == reaches_rail(checked, i as int, nb, q as int));
                    if p != q && left[p] && right[q] {
                        return true;
                    }
                    q = q + 1;
                }
                p = p + 1;
            }
            false
        },
        None => false,
    }
}

/// Lexicographic order of pairs with their net.
pub open spec fn triple_before(x: (usize, usize, usize), y: (usize, usize, usize)) -> bool {
    x.0 < y.0 || x.0 == y.0 && (x.1 < y.1 || x.1 == y.1 && x.2 < y.2)
}

/// Adds a triple to a sorted list, unless it is there already.
fn insert_triple(list: &mut Vec<(usize, usize, usize)>, e: (usize, usize, usize))
    requires
        forall|x: int, y: int|
            0 <= x < y < old(list)@.len() ==> triple_before(
                #[trigger] old(list)@[x],
                #[trigger] old(list)@[y],
            ),
    ensures
        forall|x: int, y: int|
            0 <= x < y < final(list)@.len() ==> triple_before(
                #[trigger] final(list)@[x],
                #[trigger] final(list)@[y],
            ),
        forall|f: (usize, usize, usize)|
            #[trigger] final(list)@.contains(f) <==> old(list)@.contains(f) || f == e,
{
    let ghost before = list@;
    let n: usize = list.len();
    let mut k: usize = 0;
    while k < n && (list[k].0 < e.0 || list[k].0 == e.0 && (list[k].1 < e.1 || list[k].1 == e.1
        && list[k].2 < e.2))
        invariant
            n == before.len(),
            list@ == before,
            k <= n,
            forall|x: int| 0 <= x < k ==> triple_before(#[trigger] before[x], e),
        decreases n - k,
    {
        k = k + 1;
    }
    if k < n && list[k].0 == e.0 && list[k].1 == e.1 && list[k].2 == e.2 {
        assert(before[k as int] == e);
        return ;
    }
    list.insert(k, e);
    proof {
        let after = list@;
        assert forall|x: int| k <= x < before.len() implies triple_before(
            e,
            #[trigger] before[x],
        ) by {
            if x > k {
                assert(triple_before(before[k as int], before[x]));
            }
        }
        assert forall|x: int, y: int| 0 <= x < y < after.len() implies triple_before(
            #[trigger] after[x],
            #[trigger] after[y],
        ) by {
            if x < k {
                assert(after[x] == before[x]);
            } else if x > k {
                assert(after[x] == before[x - 1]);
            }
            if y < k {
                assert(after[y] == before[y]);
            } else if y > k {
                assert(after[y] == before[y - 1]);
            }
        }
        crate::flow::insert_contains(before, k as int, e);
    }
}

/// The two elements that alone conduct DC onto the net, if there are two.
fn two_conductors(checked: &CheckedNetlist, net: usize) -> (r: Option<(usize, usize)>)
    ensures
        match r {
            Some((u, v)) => u < v < checked.elements@.len() && sole_conductors(
                checked,
                u as int,
                v as int,
                net as int,
            ),
            None => forall|u: int, v: int|
                0 <= u < v < checked.elements@.len() ==> !#[trigger] sole_conductors(
                    checked,
                    u,
                    v,
                    net as int,
                ),
        },
{
    let mut first: Option<usize> = None;
    let mut second: Option<usize> = None;
    let mut third: Option<usize> = None;
    let mut i: usize = 0;
    while i < checked.elements.len()
        invariant
            i <= checked.elements@.len(),
            first matches Some(a) ==> a < i && dc_on(checked.elements@[a as int], net as int),
            second matches Some(b) ==> b < i && dc_on(checked.elements@[b as int], net as int)
                && first is Some && first->0 < b,
            third matches Some(c) ==> c < i && dc_on(checked.elements@[c as int], net as int)
                && second is Some && second->0 < c,
            third is None ==> forall|j: int|
                0 <= j < i && dc_on(#[trigger] checked.elements@[j], net as int) ==> first == Some(
                    j as usize,
                ) || second == Some(j as usize),
        decreases checked.elements@.len() - i,
    {
        if dc_terminal_on(&checked.elements[i], net) {
            if first.is_none() {
                first = Some(i);
            } else if second.is_none() {
                second = Some(i);
            } else if third.is_none() {
                third = Some(i);
            }
        }
        i = i + 1;
    }
    proof {
        assert forall|u: int, v: int|
            0 <= u < v < checked.elements@.len() && #[trigger] sole_conductors(
                checked,
                u,
                v,
                net as int,
            ) implies first == Some(u as usize) && second == Some(v as usize) && third is None by {
            assert(dc_on(checked.elements@[u], net as int));
            assert(dc_on(checked.elements@[v], net as int));
            if third is Some {
                let a = first->0 as int;
                let b = second->0 as int;
                let c = third->0 as int;
                assert(dc_on(checked.elements@[a], net as int));
                assert(dc_on(checked.elements@[b], net as int));
                assert(dc_on(checked.elements@[c], net as int));
            }
            if first is Some {
                let a = first->0 as int;
                assert(dc_on(checked.elements@[a], net as int));
            }
            if second is Some {
                let b = second->0 as int;
                assert(dc_on(checked.elements@[b], net as int));
            }
        }
    }
    match (first, second, third) {
        (Some(u), Some(v), None) => {
            assert(sole_conductors(checked, u as int, v as int, net as int)) by {
                assert forall|j: int| 0 <= j < checked.elements@.len() implies (dc_on(
                    #[trigger] checked.elements@[j],
                    net as int,
                ) <==> j == u || j == v) by {}
            }
            Some((u, v))
        },
        _ => None,
    }
}

/// Every DC-series pair with its shared net, in order.
#[must_use]
pub fn dc_series_pairs(checked: &CheckedNetlist) -> (r: Vec<(usize, usize, usize)>)
    requires
        checked.wf(),
        checked.nets@.len() < u32::MAX,
    ensures
        forall|x: int, y: int|
            0 <= x < y < r@.len() ==> triple_before(#[trigger] r@[x], #[trigger] r@[y]),
        forall|u: usize, v: usize, net: usize|
            #[trigger] r@.contains((u, v, net)) <==> series_pair(
                checked,
                u as int,
                v as int,
                net as int,
            ),
{
    let classes: NetClassMap = classify_nets(checked);
    let mut out: Vec<(usize, usize, usize)> = Vec::new();
    let mut net: usize = 0;
    while net < checked.nets.len()
        invariant
            checked.wf(),
            checked.nets@.len() < u32::MAX,
            classes_of(checked, &classes),
            net <= checked.nets@.len(),
            forall|x: int, y: int|
                0 <= x < y < out@.len() ==> triple_before(#[trigger] out@[x], #[trigger] out@[y]),
            forall|u: usize, v: usize, m: usize|
                #[trigger] out@.contains((u, v, m)) <==> m < net && series_pair(
                    checked,
                    u as int,
                    v as int,
                    m as int,
                ),
        decreases checked.nets@.len() - net,
    {
        let ghost before = out@;
        let pair: Option<(usize, usize)> = two_conductors(checked, net);
        match pair {
            Some((u, v)) => {
                let ok = !is_rail_net(checked, &classes, net) && !sheet_touches(checked, net)
                    && spans_rails(checked, &classes, u) && spans_rails(checked, &classes, v);
                if ok {
                    assert(series_pair(checked, u as int, v as int, net as int));
                    insert_triple(&mut out, (u, v, net));
                }
                proof {
                    assert forall|a: usize, b: usize, m: usize|
                        #[trigger] out@.contains((a, b, m)) <==> m < net + 1 && series_pair(
                            checked,
                            a as int,
                            b as int,
                            m as int,
                        ) by {
                        assert(before.contains((a, b, m)) <==> m < net && series_pair(
                            checked,
                            a as int,
                            b as int,
                            m as int,
                        ));
                        if m == net && series_pair(checked, a as int, b as int, m as int) {
                            assert(dc_on(checked.elements@[a as int], net as int));
                            assert(dc_on(checked.elements@[b as int], net as int));
                            assert(dc_on(checked.elements@[u as int], net as int));
                            assert(dc_on(checked.elements@[v as int], net as int));
                            assert(a == u && b == v);
                        }
                    }
                }
            },
            None => {
                proof {
                    assert forall|a: usize, b: usize, m: usize|
                        #[trigger] out@.contains((a, b, m)) <==> m < net + 1 && series_pair(
                            checked,
                            a as int,
                            b as int,
                            m as int,
                        ) by {
                        assert(before.contains((a, b, m)) <==> m < net && series_pair(
                            checked,
                            a as int,
                            b as int,
                            m as int,
                        ));
                        if m == net && series_pair(checked, a as int, b as int, m as int) {
                            assert(sole_conductors(checked, a as int, b as int, net as int));
                        }
                    }
                }
            },
        }
        net = net + 1;
    }
    out
}

/// Every DC node joins one pair: where two pairs share a net they are the same
/// pair.
pub proof fn a_node_joins_one_pair(
    checked: &CheckedNetlist,
    u: int,
    v: int,
    a: int,
    b: int,
    net: int,
)
    requires
        series_pair(checked, u, v, net),
        series_pair(checked, a, b, net),
    ensures
        u == a && v == b,
{
    assert(dc_on(checked.elements@[a], net));
    assert(dc_on(checked.elements@[b], net));
    assert(dc_on(checked.elements@[u], net));
    assert(dc_on(checked.elements@[v], net));
}

// ---------------------------------------------------------------------------
// Columns
// ---------------------------------------------------------------------------

/// A DC-series column: element indices from the highest potential down, and
/// the net that each joins to the next.
#[derive(Debug)]
pub struct DcColumn {
    /// At least two members.
    pub members: Vec<usize>,
    /// `shared[k]` joins `members[k]` to `members[k + 1]`.
    pub shared: Vec<usize>,
}

/// The members and shared nets of a column.
pub type ColumnView = (Seq<usize>, Seq<usize>);

/// The two elements are in DC series at the net, in either order.
pub open spec fn joined_at(checked: &CheckedNetlist, u: int, v: int, net: int) -> bool {
    series_pair(checked, u, v, net) || series_pair(checked, v, u, net)
}

/// The two elements are in DC series.
pub open spec fn paired(checked: &CheckedNetlist, u: int, v: int) -> bool {
    exists|net: int| #[trigger] joined_at(checked, u, v, net)
}

/// The last net below `n` at which the two elements are in series, or `-1`.
pub open spec fn last_joint(checked: &CheckedNetlist, u: int, v: int, n: int) -> int
    decreases n,
{
    if n <= 0 {
        -1
    } else if joined_at(checked, u, v, n - 1) {
        n - 1
    } else {
        last_joint(checked, u, v, n - 1)
    }
}

/// The net that joins the two elements, the last by name where there are two.
pub open spec fn joint(checked: &CheckedNetlist, u: int, v: int) -> int {
    last_joint(checked, u, v, checked.nets@.len() as int)
}

/// The elements in series with `u`.
pub open spec fn partner_of(checked: &CheckedNetlist, u: int) -> spec_fn(int) -> bool {
    |v: int| paired(checked, u, v)
}

/// The elements in series with `u` that are not seen yet.
pub open spec fn fresh_partner(
    checked: &CheckedNetlist,
    seen: Seq<bool>,
    u: int,
) -> spec_fn(int) -> bool {
    |v: int| paired(checked, u, v) && !seen[v]
}

/// How many elements are not seen yet.
pub open spec fn unseen(seen: Seq<bool>) -> nat {
    count(|v: int| !seen[v], seen.len() as int)
}

/// Seeing an element.
pub proof fn unseen_drops(seen: Seq<bool>, u: int)
    requires
        0 <= u < seen.len(),
        !seen[u],
    ensures
        unseen(seen.update(u, true)) == unseen(seen) - 1,
{
    let p = |v: int| !seen[v];
    let q = |v: int| !seen.update(u, true)[v];
    count_insert(q, p, seen.len() as int, u);
}

/// The walk on from `cur`, each time to the first partner not seen yet.
pub open spec fn trace(checked: &CheckedNetlist, seen: Seq<bool>, cur: int) -> Seq<usize>
    decreases unseen(seen),
{
    let n = seen.len() as int;
    let next = first_where(fresh_partner(checked, seen, cur), 0, n);
    if 0 <= next < n && !seen[next] {
        proof {
            unseen_drops(seen, next);
        }
        seq![next as usize] + trace(checked, seen.update(next, true), next)
    } else {
        Seq::empty()
    }
}

/// The walk that starts at `start`.
pub open spec fn walk_from(checked: &CheckedNetlist, seen: Seq<bool>, start: int) -> Seq<usize> {
    seq![start as usize] + trace(checked, seen.update(start, true), start)
}

/// The flags with the walk's elements seen too.
pub open spec fn mark_walk(seen: Seq<bool>, walk: Seq<usize>) -> Seq<bool> {
    Seq::new(seen.len(), |v: int| seen[v] || walk.contains(v as usize))
}

/// The conduction net of an element other than the given one.
pub open spec fn far_net(e: ResolvedElement, net: int) -> Option<int> {
    match conduction_of(e) {
        Some((x, y)) => if e.nodes@[x as int] == net {
            Some(e.nodes@[y as int] as int)
        } else if e.nodes@[y as int] == net {
            Some(e.nodes@[x as int] as int)
        } else {
            None
        },
        None => None,
    }
}

/// Whether `u` sits above `v`, by the potential of their far nets.
pub open spec fn sits_above(checked: &CheckedNetlist, u: int, v: int) -> Option<bool> {
    let net = joint(checked, u, v);
    match (far_net(checked.elements@[u], net), far_net(checked.elements@[v], net)) {
        (Some(a), Some(b)) => higher_of(checked, (u, v), a, b),
        _ => None,
    }
}

/// Every step of the walk goes the given way.
pub open spec fn all_steps(checked: &CheckedNetlist, walk: Seq<usize>, down: bool) -> bool {
    forall|k: int|
        #![trigger walk[k]]
        0 <= k < walk.len() - 1 ==> sits_above(checked, walk[k] as int, walk[k + 1] as int) == Some(
            down,
        )
}

/// The nets between the elements of the walk.
pub open spec fn joints(checked: &CheckedNetlist, walk: Seq<usize>) -> Seq<usize> {
    Seq::new(
        (walk.len() - 1) as nat,
        |k: int| joint(checked, walk[k] as int, walk[k + 1] as int) as usize,
    )
}

/// The column that a walk makes: top down where every step goes down,
/// reversed where every step goes up, and none otherwise.
pub open spec fn column_from(checked: &CheckedNetlist, walk: Seq<usize>) -> Option<ColumnView> {
    if walk.len() < 2 {
        None
    } else if all_steps(checked, walk, true) {
        Some((walk, joints(checked, walk)))
    } else if all_steps(checked, walk, false) {
        Some((walk.reverse(), joints(checked, walk).reverse()))
    } else {
        None
    }
}

/// `start` is the end of a chain that is not walked yet.
pub open spec fn starts_walk(checked: &CheckedNetlist, seen: Seq<bool>, start: int) -> bool {
    !seen[start] && count(partner_of(checked, start), seen.len() as int) == 1
}

/// The columns found from `start` on, in order of the walks' starts.
pub open spec fn columns_from(checked: &CheckedNetlist, seen: Seq<bool>, start: int) -> Seq<
    ColumnView,
>
    decreases seen.len() - start,
{
    if start < 0 || start >= seen.len() {
        Seq::empty()
    } else if starts_walk(checked, seen, start) {
        let walk = walk_from(checked, seen, start);
        let rest = columns_from(checked, mark_walk(seen, walk), start + 1);
        match column_from(checked, walk) {
            Some(c) => seq![c] + rest,
            None => rest,
        }
    } else {
        columns_from(checked, seen, start + 1)
    }
}

/// Nothing seen.
pub open spec fn none_seen(n: nat) -> Seq<bool> {
    Seq::new(n, |v: int| false)
}

/// The views of columns.
pub open spec fn column_views(r: Seq<DcColumn>) -> Seq<ColumnView> {
    Seq::new(r.len(), |k: int| (r[k].members@, r[k].shared@))
}

/// The columns of a netlist, ordered by their first members.
pub open spec fn columns_of(checked: &CheckedNetlist, r: Seq<ColumnView>) -> bool {
    &&& forall|x: int| 0 <= x < r.len() ==> (#[trigger] r[x]).0.len() >= 2
    &&& forall|x: int, y: int|
        0 <= x < y < r.len() ==> (#[trigger] r[x]).0[0] < (#[trigger] r[y]).0[0]
    &&& forall|c: ColumnView|
        #[trigger] r.contains(c) <==> columns_from(
            checked,
            none_seen(checked.elements@.len()),
            0,
        ).contains(c)
}

// -- facts about walks ------------------------------------------------------

proof fn joint_found(checked: &CheckedNetlist, u: int, v: int, n: int)
    requires
        0 <= n,
    ensures
        -1 <= last_joint(checked, u, v, n) < n || n == 0 && last_joint(checked, u, v, n) == -1,
        last_joint(checked, u, v, n) >= 0 ==> joined_at(
            checked,
            u,
            v,
            last_joint(checked, u, v, n),
        ),
        forall|net: int|
            last_joint(checked, u, v, n) < net < n ==> !#[trigger] joined_at(checked, u, v, net),
    decreases n,
{
    if n > 0 {
        joint_found(checked, u, v, n - 1);
    }
}

/// The walk visits new elements only, each once, and steps between partners.
pub proof fn trace_facts(checked: &CheckedNetlist, seen: Seq<bool>, cur: int)
    requires
        seen.len() <= usize::MAX,
    ensures
        ({
            let t = trace(checked, seen, cur);
            &&& t.no_duplicates()
            &&& forall|k: int|
                0 <= k < t.len() ==> (#[trigger] t[k]) < seen.len() && !seen[t[k] as int]
            &&& t.len() > 0 ==> paired(checked, cur, t[0] as int)
            &&& forall|k: int|
                #![trigger t[k]]
                0 <= k < t.len() - 1 ==> paired(checked, t[k] as int, t[k + 1] as int)
        }),
    decreases unseen(seen),
{
    let n = seen.len() as int;
    let p = fresh_partner(checked, seen, cur);
    first_where_is_first(p, 0, n);
    let next = first_where(p, 0, n);
    if next < n && !seen[next] {
        unseen_drops(seen, next);
        let more = seen.update(next, true);
        trace_facts(checked, more, next);
        let r = trace(checked, more, next);
        let t = trace(checked, seen, cur);
        assert(t == seq![next as usize] + r);
        assert forall|i: int, j: int| 0 <= i < j < t.len() implies t[i] != t[j] by {
            assert(t[j] == r[j - 1]);
            assert(!more[r[j - 1] as int]);
            if i > 0 {
                assert(t[i] == r[i - 1]);
            }
        }
        assert forall|k: int| 0 <= k < t.len() implies (#[trigger] t[k]) < seen.len()
            && !seen[t[k] as int] by {
            if k > 0 {
                assert(t[k] == r[k - 1]);
                assert(!more[r[k - 1] as int]);
            }
        }
        assert forall|k: int|
            #![trigger t[k]]
            0 <= k < t.len() - 1 implies paired(checked, t[k] as int, t[k + 1] as int) by {
            assert(t[k + 1] == r[k]);
            if k > 0 {
                assert(t[k] == r[k - 1]);
                assert(paired(checked, r[k - 1] as int, r[k - 1 + 1] as int));
            }
        }
    }
}

/// The facts about a walk from its start.
pub proof fn walk_facts(checked: &CheckedNetlist, seen: Seq<bool>, start: int)
    requires
        seen.len() <= usize::MAX,
        0 <= start < seen.len(),
        !seen[start],
    ensures
        ({
            let w = walk_from(checked, seen, start);
            &&& w.len() > 0
            &&& w[0] == start
            &&& w.no_duplicates()
            &&& forall|k: int|
                0 <= k < w.len() ==> (#[trigger] w[k]) < seen.len() && !seen[w[k] as int]
            &&& forall|k: int|
                #![trigger w[k]]
                0 <= k < w.len() - 1 ==> paired(checked, w[k] as int, w[k + 1] as int)
        }),
{
    let more = seen.update(start, true);
    trace_facts(checked, more, start);
    let t = trace(checked, more, start);
    let w = walk_from(checked, seen, start);
    assert forall|i: int, j: int| 0 <= i < j < w.len() implies w[i] != w[j] by {
        assert(w[j] == t[j - 1]);
        assert(!more[t[j - 1] as int]);
        if i > 0 {
            assert(w[i] == t[i - 1]);
        }
    }
    assert forall|k: int| 0 <= k < w.len() implies (#[trigger] w[k]) < seen.len()
        && !seen[w[k] as int] by {
        if k > 0 {
            assert(w[k] == t[k - 1]);
            assert(!more[t[k - 1] as int]);
        }
    }
    assert forall|k: int|
        #![trigger w[k]]
        0 <= k < w.len() - 1 implies paired(checked, w[k] as int, w[k + 1] as int) by {
        assert(w[k + 1] == t[k]);
        if k > 0 {
            assert(w[k] == t[k - 1]);
            assert(paired(checked, t[k - 1] as int, t[k - 1 + 1] as int));
        }
    }
}

/// What every column satisfies: two or more members, each once, each joined to
/// the next at the shared net and sitting above it.
pub open spec fn is_column(checked: &CheckedNetlist, c: ColumnView) -> bool {
    let (m, s) = c;
    &&& m.len() >= 2
    &&& s.len() == m.len() - 1
    &&& m.no_duplicates()
    &&& forall|k: int| 0 <= k < m.len() ==> (#[trigger] m[k]) < checked.elements@.len()
    &&& forall|k: int|
        #![trigger s[k]]
        0 <= k < s.len() ==> s[k] < checked.nets@.len() && joined_at(
            checked,
            m[k] as int,
            m[k + 1] as int,
            s[k] as int,
        ) && sits_above(checked, m[k] as int, m[k + 1] as int) == Some(true)
}

proof fn joined_symmetric(checked: &CheckedNetlist, u: int, v: int, n: int)
    ensures
        last_joint(checked, u, v, n) == last_joint(checked, v, u, n),
        paired(checked, u, v) ==> paired(checked, v, u),
    decreases n,
{
    if n > 0 {
        joined_symmetric(checked, u, v, n - 1);
    }
    if paired(checked, u, v) {
        let net = choose|net: int| #[trigger] joined_at(checked, u, v, net);
        assert(joined_at(checked, v, u, net));
    }
}

/// Seen from the other side a step goes the other way.
proof fn sits_above_flips(checked: &CheckedNetlist, u: int, v: int)
    ensures
        sits_above(checked, u, v) == Some(false) ==> sits_above(checked, v, u) == Some(true),
{
    joined_symmetric(checked, u, v, checked.nets@.len() as int);
    let net = joint(checked, u, v);
    match (far_net(checked.elements@[u], net), far_net(checked.elements@[v], net)) {
        (Some(a), Some(b)) => {
            skip_order_is_free(checked, u, v, a, b);
        },
        _ => {},
    }
}

proof fn skip_order_is_free(checked: &CheckedNetlist, u: int, v: int, a: int, b: int)
    ensures
        sits_higher(checked, (u, v), b, a) == sits_higher(checked, (v, u), b, a),
        sits_higher(checked, (u, v), a, b) == sits_higher(checked, (v, u), a, b),
{
    same_rank_graph(checked, VertPref::Up, u, v);
    same_rank_graph(checked, VertPref::Down, u, v);
}

proof fn same_rank_graph(checked: &CheckedNetlist, polarity: VertPref, u: int, v: int)
    ensures
        crate::dc_rank::rank_graph(checked, polarity, (u, v)) == crate::dc_rank::rank_graph(
            checked,
            polarity,
            (v, u),
        ),
{
    let g = crate::dc_rank::rank_graph(checked, polarity, (u, v));
    let h = crate::dc_rank::rank_graph(checked, polarity, (v, u));
    assert forall|a: int| 0 <= a < g.len() implies g[a] == h[a] by {
        let p = crate::dc_rank::rank_step(checked, polarity, (u, v), a);
        let q = crate::dc_rank::rank_step(checked, polarity, (v, u), a);
        assert forall|b: int| #[trigger] p(b) == q(b) by {}
        crate::ordering::where_list_eq(p, q, checked.nets@.len() as int);
    }
    assert(g =~= h);
}

/// A walk makes a proper column.
proof fn walk_column(checked: &CheckedNetlist, walk: Seq<usize>)
    requires
        checked.nets@.len() <= usize::MAX,
        walk.no_duplicates(),
        forall|k: int| 0 <= k < walk.len() ==> (#[trigger] walk[k]) < checked.elements@.len(),
        forall|k: int|
            #![trigger walk[k]]
            0 <= k < walk.len() - 1 ==> paired(checked, walk[k] as int, walk[k + 1] as int),
    ensures
        column_from(checked, walk) matches Some(c) ==> is_column(checked, c) && (forall|x: usize|
            #[trigger] c.0.contains(x) <==> walk.contains(x)),
{
    let n = checked.nets@.len() as int;
    let js = joints(checked, walk);
    assert forall|k: int| 0 <= k < walk.len() - 1 implies {
        let j = joint(checked, walk[k] as int, walk[k + 1] as int);
        0 <= j < n && joined_at(checked, #[trigger] walk[k] as int, walk[k + 1] as int, j)
    } by {
        let u = walk[k] as int;
        let v = walk[k + 1] as int;
        assert(paired(checked, u, v));
        let net = choose|net: int| #[trigger] joined_at(checked, u, v, net);
        joint_found(checked, u, v, n);
    }
    if walk.len() >= 2 {
        if all_steps(checked, walk, true) {
            assert forall|k: int|
                #![trigger js[k]]
                0 <= k < js.len() implies js[k] < n && joined_at(
                checked,
                walk[k] as int,
                walk[k + 1] as int,
                js[k] as int,
            ) && sits_above(checked, walk[k] as int, walk[k + 1] as int) == Some(true) by {
                let u = walk[k];
            }
        } else if all_steps(checked, walk, false) {
            let m = walk.reverse();
            let s = js.reverse();
            let l = walk.len() as int;
            assert forall|k: int|
                #![trigger s[k]]
                0 <= k < s.len() implies s[k] < n && joined_at(
                checked,
                m[k] as int,
                m[k + 1] as int,
                s[k] as int,
            ) && sits_above(checked, m[k] as int, m[k + 1] as int) == Some(true) by {
                let i = l - 2 - k;
                assert(s[k] == js[i]);
                assert(m[k] == walk[i + 1]);
                assert(m[k + 1] == walk[i]);
                let u = walk[i];
                assert(sits_above(checked, walk[i] as int, walk[i + 1] as int) == Some(false));
                sits_above_flips(checked, walk[i] as int, walk[i + 1] as int);
            }
            assert forall|k: int| 0 <= k < m.len() implies (#[trigger] m[k])
                < checked.elements@.len() by {
                assert(m[k] == walk[l - 1 - k]);
            }
            assert forall|i: int, j: int| 0 <= i < j < m.len() implies m[i] != m[j] by {
                assert(m[i] == walk[l - 1 - i] && m[j] == walk[l - 1 - j]);
            }
            assert forall|x: usize| #[trigger] m.contains(x) <==> walk.contains(x) by {
                if m.contains(x) {
                    let i = choose|i: int| 0 <= i < m.len() && m[i] == x;
                    assert(walk[l - 1 - i] == x);
                }
                if walk.contains(x) {
                    let i = choose|i: int| 0 <= i < walk.len() && walk[i] == x;
                    assert(m[l - 1 - i] == x);
                }
            }
        }
    }
}

/// Columns found from some point on hold only elements not seen before it.
proof fn columns_are_fresh(checked: &CheckedNetlist, seen: Seq<bool>, start: int, k: int)
    requires
        checked.nets@.len() <= usize::MAX,
        checked.elements@.len() <= usize::MAX,
        seen.len() == checked.elements@.len(),
        0 <= start,
        0 <= k < columns_from(checked, seen, start).len(),
    ensures
        is_column(checked, columns_from(checked, seen, start)[k]),
        forall|i: int|
            0 <= i < columns_from(checked, seen, start)[k].0.len() ==> !seen[(
            #[trigger] columns_from(checked, seen, start)[k].0[i]) as int],
    decreases seen.len() - start,
{
    if start < seen.len() {
        if starts_walk(checked, seen, start) {
            let walk = walk_from(checked, seen, start);
            walk_facts(checked, seen, start);
            walk_column(checked, walk);
            let more = mark_walk(seen, walk);
            let rest = columns_from(checked, more, start + 1);
            let all = columns_from(checked, seen, start);
            match column_from(checked, walk) {
                Some(c) => {
                    if k == 0 {
                        assert(all[0] == c);
                        assert forall|i: int| 0 <= i < c.0.len() implies !seen[(
                        #[trigger] c.0[i]) as int] by {
                            assert(c.0.contains(c.0[i]));
                            let j = choose|j: int| 0 <= j < walk.len() && walk[j] == c.0[i];
                            assert(!seen[walk[j] as int]);
                        }
                    } else {
                        assert(all[k] == rest[k - 1]);
                        columns_are_fresh(checked, more, start + 1, k - 1);
                        assert forall|i: int| 0 <= i < all[k].0.len() implies !seen[(
                        #[trigger] all[k].0[i]) as int] by {
                            assert(!more[rest[k - 1].0[i] as int]);
                        }
                    }
                },
                None => {
                    assert(all == rest);
                    columns_are_fresh(checked, more, start + 1, k);
                    assert forall|i: int| 0 <= i < all[k].0.len() implies !seen[(
                    #[trigger] all[k].0[i]) as int] by {
                        assert(!more[rest[k].0[i] as int]);
                    }
                },
            }
        } else {
            columns_are_fresh(checked, seen, start + 1, k);
        }
    }
}

/// Two columns found from some point on have no member in common.
proof fn columns_are_apart(
    checked: &CheckedNetlist,
    seen: Seq<bool>,
    start: int,
    x: int,
    y: int,
    i: int,
    j: int,
)
    requires
        checked.nets@.len() <= usize::MAX,
        checked.elements@.len() <= usize::MAX,
        seen.len() == checked.elements@.len(),
        0 <= start,
        0 <= x < y < columns_from(checked, seen, start).len(),
        0 <= i < columns_from(checked, seen, start)[x].0.len(),
        0 <= j < columns_from(checked, seen, start)[y].0.len(),
    ensures
        columns_from(checked, seen, start)[x].0[i] != columns_from(checked, seen, start)[y].0[j],
    decreases seen.len() - start,
{
    if start < seen.len() {
        if starts_walk(checked, seen, start) {
            let walk = walk_from(checked, seen, start);
            walk_facts(checked, seen, start);
            walk_column(checked, walk);
            let more = mark_walk(seen, walk);
            let rest = columns_from(checked, more, start + 1);
            let all = columns_from(checked, seen, start);
            match column_from(checked, walk) {
                Some(c) => {
                    assert(all[y] == rest[y - 1]);
                    if x == 0 {
                        assert(all[0] == c);
                        columns_are_fresh(checked, more, start + 1, y - 1);
                        assert(!more[rest[y - 1].0[j] as int]);
                        assert(c.0.contains(c.0[i]));
                        assert(walk.contains(c.0[i]));
                        if c.0[i] == rest[y - 1].0[j] {
                            assert(more[c.0[i] as int]) by {
                                assert(c.0[i] as int as usize == c.0[i]);
                                assert(walk.contains(c.0[i] as int as usize));
                            }
                        }
                    } else {
                        assert(all[x] == rest[x - 1]);
                        columns_are_apart(checked, more, start + 1, x - 1, y - 1, i, j);
                    }
                },
                None => {
                    assert(all == rest);
                    columns_are_apart(checked, more, start + 1, x, y, i, j);
                },
            }
        } else {
            columns_are_apart(checked, seen, start + 1, x, y, i, j);
        }
    }
}

/// Every column found is a chain of series pairs from the top down.
pub proof fn columns_are_chains(checked: &CheckedNetlist, r: Seq<ColumnView>, k: int)
    requires
        checked.nets@.len() <= usize::MAX,
        checked.elements@.len() <= usize::MAX,
        columns_of(checked, r),
        0 <= k < r.len(),
    ensures
        is_column(checked, r[k]),
{
    let seen = none_seen(checked.elements@.len());
    let all = columns_from(checked, seen, 0);
    assert(r.contains(r[k]));
    assert(all.contains(r[k]));
    let x = choose|x: int| 0 <= x < all.len() && all[x] == r[k];
    columns_are_fresh(checked, seen, 0, x);
}

/// No element is in two columns.
pub proof fn columns_are_disjoint(
    checked: &CheckedNetlist,
    r: Seq<ColumnView>,
    k: int,
    l: int,
    i: int,
    j: int,
)
    requires
        checked.nets@.len() <= usize::MAX,
        checked.elements@.len() <= usize::MAX,
        columns_of(checked, r),
        0 <= k < l < r.len(),
        0 <= i < r[k].0.len(),
        0 <= j < r[l].0.len(),
    ensures
        r[k].0[i] != r[l].0[j],
{
    let seen = none_seen(checked.elements@.len());
    let all = columns_from(checked, seen, 0);
    assert(r.contains(r[k]) && r.contains(r[l]));
    assert(all.contains(r[k]) && all.contains(r[l]));
    let x = choose|x: int| 0 <= x < all.len() && all[x] == r[k];
    let y = choose|y: int| 0 <= y < all.len() && all[y] == r[l];
    assert(r[k].0[0] < r[l].0[0]);
    assert(x != y);
    if x < y {
        columns_are_apart(checked, seen, 0, x, y, i, j);
    } else {
        columns_are_apart(checked, seen, 0, y, x, j, i);
    }
}

// -- detection --------------------------------------------------------------

/// The list holds the series pairs of the netlist.
spec fn pairs_listed(checked: &CheckedNetlist, pairs: Seq<(usize, usize, usize)>) -> bool {
    forall|u: usize, v: usize, net: usize|
        #[trigger] pairs.contains((u, v, net)) <==> series_pair(
            checked,
            u as int,
            v as int,
            net as int,
        )
}

/// The joint of two elements, if they are in series.
fn find_joint(
    checked: &CheckedNetlist,
    pairs: &Vec<(usize, usize, usize)>,
    u: usize,
    v: usize,
) -> (r: Option<usize>)
    requires
        pairs_listed(checked, pairs@),
        checked.nets@.len() <= usize::MAX,
    ensures
        match r {
            Some(net) => paired(checked, u as int, v as int) && joint(checked, u as int, v as int)
                == net && net < checked.nets@.len(),
            None => !paired(checked, u as int, v as int),
        },
{
    let mut best: Option<usize> = None;
    let mut k: usize = 0;
    while k < pairs.len()
        invariant
            pairs_listed(checked, pairs@),
            k <= pairs@.len(),
            forall|j: int|
                0 <= j < k && ((#[trigger] pairs@[j]).0 == u && pairs@[j].1 == v || pairs@[j].0 == v
                    && pairs@[j].1 == u) ==> best is Some && pairs@[j].2 <= best->0,
            best matches Some(net) ==> joined_at(checked, u as int, v as int, net as int),
        decreases pairs@.len() - k,
    {
        let (a, b, net): (usize, usize, usize) = pairs[k];
        assert(pairs@[k as int] == (a, b, net));
        assert(pairs@.contains((a, b, net)));
        if a == u && b == v || a == v && b == u {
            let larger = match best {
                None => true,
                Some(m) => net > m,
            };
            if larger {
                best = Some(net);
            }
        }
        k = k + 1;
    }
    proof {
        let n = checked.nets@.len() as int;
        joint_found(checked, u as int, v as int, n);
        assert forall|net: int| #[trigger] joined_at(
            checked,
            u as int,
            v as int,
            net,
        ) implies best is Some && net <= best->0 by {
            let m = net as usize;
            if series_pair(checked, u as int, v as int, net) {
                assert(pairs@.contains((u, v, m)));
                let j = choose|j: int| 0 <= j < pairs@.len() && pairs@[j] == (u, v, m);
                assert(pairs@[j].2 == m);
            } else {
                assert(pairs@.contains((v, u, m)));
                let j = choose|j: int| 0 <= j < pairs@.len() && pairs@[j] == (v, u, m);
                assert(pairs@[j].2 == m);
            }
        }
    }
    best
}

fn count_partners(checked: &CheckedNetlist, pairs: &Vec<(usize, usize, usize)>, u: usize) -> (r: usize)
    requires
        pairs_listed(checked, pairs@),
        checked.nets@.len() <= usize::MAX,
    ensures
        r == count(partner_of(checked, u as int), checked.elements@.len() as int),
{
    let ghost p = partner_of(checked, u as int);
    let mut r: usize = 0;
    let mut v: usize = 0;
    while v < checked.elements.len()
        invariant
            pairs_listed(checked, pairs@),
            checked.nets@.len() <= usize::MAX,
            p == partner_of(checked, u as int),
            v <= checked.elements@.len(),
            r <= v,
            r == count(p, v as int),
        decreases checked.elements@.len() - v,
    {
        if find_joint(checked, pairs, u, v).is_some() {
            r = r + 1;
        }
        v = v + 1;
    }
    r
}

/// The first partner not seen yet, or the number of elements.
fn next_partner(
    checked: &CheckedNetlist,
    pairs: &Vec<(usize, usize, usize)>,
    seen: &Vec<bool>,
    u: usize,
) -> (r: usize)
    requires
        pairs_listed(checked, pairs@),
        checked.nets@.len() <= usize::MAX,
        seen@.len() == checked.elements@.len(),
    ensures
        r == first_where(fresh_partner(checked, seen@, u as int), 0, seen@.len() as int),
        r <= seen@.len(),
        r < seen@.len() ==> !seen@[r as int],
{
    let ghost p = fresh_partner(checked, seen@, u as int);
    let n: usize = seen.len();
    let mut v: usize = 0;
    while v < n
        invariant
            pairs_listed(checked, pairs@),
            checked.nets@.len() <= usize::MAX,
            n == seen@.len(),
            n == checked.elements@.len(),
            p == fresh_partner(checked, seen@, u as int),
            v <= n,
            first_where(p, 0, n as int) == first_where(p, v as int, n as int),
        decreases n - v,
    {
        if !seen[v] && find_joint(checked, pairs, u, v).is_some() {
            return v;
        }
        v = v + 1;
    }
    n
}

/// Walks from `start`, marking what it visits.
fn walk_chain(
    checked: &CheckedNetlist,
    pairs: &Vec<(usize, usize, usize)>,
    seen: &mut Vec<bool>,
    start: usize,
) -> (walk: Vec<usize>)
    requires
        pairs_listed(checked, pairs@),
        checked.nets@.len() <= usize::MAX,
        old(seen)@.len() == checked.elements@.len(),
        start < old(seen)@.len(),
        !old(seen)@[start as int],
    ensures
        walk@ == walk_from(checked, old(seen)@, start as int),
        final(seen)@ == mark_walk(old(seen)@, walk@),
{
    let ghost seen0 = seen@;
    let ghost full = walk_from(checked, seen0, start as int);
    let n: usize = seen.len();
    let mut walk: Vec<usize> = Vec::new();
    walk.push(start);
    seen.set(start, true);
    let mut cur: usize = start;
    let mut more = true;
    proof {
        assert(walk@ + trace(checked, seen@, cur as int) =~= full);
        assert forall|v: int| 0 <= v < n implies #[trigger] seen@[v] == (seen0[v]
            || walk@.contains(v as usize)) by {
            assert(walk@[0] == start);
        }
    }
    while more
        invariant
            pairs_listed(checked, pairs@),
            checked.nets@.len() <= usize::MAX,
            n == seen@.len(),
            n == checked.elements@.len(),
            seen0.len() == n,
            more ==> full == walk@ + trace(checked, seen@, cur as int),
            !more ==> full == walk@,
            forall|v: int|
                0 <= v < n ==> #[trigger] seen@[v] == (seen0[v] || walk@.contains(v as usize)),
        decreases
            unseen(seen@),
            (if more {
                1int
            } else {
                0
            }),
    {
        let next: usize = next_partner(checked, pairs, seen, cur);
        if next < n {
            let ghost before = walk@;
            let ghost s0 = seen@;
            proof {
                unseen_drops(seen@, next as int);
            }
            seen.set(next, true);
            walk.push(next);
            cur = next;
            proof {
                assert(before + (seq![next] + trace(checked, seen@, next as int)) =~= walk@
                    + trace(checked, seen@, next as int));
                assert forall|v: int| 0 <= v < n implies #[trigger] seen@[v] == (seen0[v]
                    || walk@.contains(v as usize)) by {
                    assert(s0[v] == (seen0[v] || before.contains(v as usize)));
                    if before.contains(v as usize) {
                        let i = choose|i: int| 0 <= i < before.len() && before[i] == v as usize;
                        assert(walk@[i] == v as usize);
                    }
                    if v == next {
                        assert(walk@[before.len() as int] == v as usize);
                    }
                    if walk@.contains(v as usize) {
                        let i = choose|i: int| 0 <= i < walk@.len() && walk@[i] == v as usize;
                        if i < before.len() {
                            assert(before[i] == v as usize);
                        }
                    }
                }
            }
        } else {
            more = false;
            assert(full =~= walk@);
        }
    }
    assert(seen@ =~= mark_walk(seen0, walk@));
    walk
}

/// The far conduction net.
fn far_of(e: &ResolvedElement, net: usize) -> (r: Option<usize>)
    ensures
        match r {
            Some(m) => far_net(*e, net as int) == Some(m as int) && e.nodes@.contains(m),
            None => far_net(*e, net as int) is None,
        },
{
    match conduction_terminals(e) {
        Some((x, y)) => {
            if e.nodes[x] == net {
                assert(e.nodes@[y as int] == e.nodes@[y as int]);
                Some(e.nodes[y])
            } else if e.nodes[y] == net {
                assert(e.nodes@[x as int] == e.nodes@[x as int]);
                Some(e.nodes[x])
            } else {
                None
            }
        },
        None => None,
    }
}

/// Which way a step of a walk goes, and the net it goes through.
fn step_down(
    checked: &CheckedNetlist,
    pairs: &Vec<(usize, usize, usize)>,
    prefs: &Vec<Option<VertPref>>,
    u: usize,
    v: usize,
) -> (r: (Option<bool>, usize))
    requires
        checked.wf(),
        checked.nets@.len() < u32::MAX,
        pairs_listed(checked, pairs@),
        prefs@.len() == checked.nets@.len(),
        forall|net: int|
            0 <= net < prefs@.len() ==> #[trigger] prefs@[net] == checked.vert_pref_of(net),
        u < checked.elements@.len(),
        v < checked.elements@.len(),
        paired(checked, u as int, v as int),
    ensures
        r.0 == sits_above(checked, u as int, v as int),
        r.1 == joint(checked, u as int, v as int),
{
    match find_joint(checked, pairs, u, v) {
        Some(net) => {
            let a: Option<usize> = far_of(&checked.elements[u], net);
            let b: Option<usize> = far_of(&checked.elements[v], net);
            match (a, b) {
                (Some(x), Some(y)) => {
                    proof {
                        let nu = checked.elements@[u as int].nodes@;
                        let nv = checked.elements@[v as int].nodes@;
                        assert(nets_in_range(nu, checked.nets@.len()));
                        assert(nets_in_range(nv, checked.nets@.len()));
                        let i = choose|i: int| 0 <= i < nu.len() && nu[i] == x;
                        let j = choose|j: int| 0 <= j < nv.len() && nv[j] == y;
                        assert(nu[i] < checked.nets@.len() && nv[j] < checked.nets@.len());
                    }
                    (higher_net(checked, prefs, x, y, (u, v)), net)
                },
                _ => (None, net),
            }
        },
        None => (None, 0),
    }
}

fn reversed(list: &Vec<usize>) -> (r: Vec<usize>)
    ensures
        r@ == list@.reverse(),
{
    let n: usize = list.len();
    let mut r: Vec<usize> = Vec::new();
    let mut i: usize = 0;
    while i < n
        invariant
            n == list@.len(),
            i <= n,
            r@.len() == i,
            forall|j: int| 0 <= j < i ==> #[trigger] r@[j] == list@[n - 1 - j],
        decreases n - i,
    {
        r.push(list[n - 1 - i]);
        i = i + 1;
    }
    assert(r@ =~= list@.reverse());
    r
}

/// The column that a walk makes.
fn make_column(
    checked: &CheckedNetlist,
    pairs: &Vec<(usize, usize, usize)>,
    prefs: &Vec<Option<VertPref>>,
    walk: Vec<usize>,
) -> (r: Option<DcColumn>)
    requires
        checked.wf(),
        checked.nets@.len() < u32::MAX,
        pairs_listed(checked, pairs@),
        prefs@.len() == checked.nets@.len(),
        forall|net: int|
            0 <= net < prefs@.len() ==> #[trigger] prefs@[net] == checked.vert_pref_of(net),
        forall|k: int| 0 <= k < walk@.len() ==> (#[trigger] walk@[k]) < checked.elements@.len(),
        forall|k: int|
            #![trigger walk@[k]]
            0 <= k < walk@.len() - 1 ==> paired(checked, walk@[k] as int, walk@[k + 1] as int),
    ensures
        match r {
            Some(c) => column_from(checked, walk@) == Some((c.members@, c.shared@)),
            None => column_from(checked, walk@) is None,
        },
{
    if walk.len() < 2 {
        return None;
    }
    let mut shared: Vec<usize> = Vec::new();
    let mut down = true;
    let mut up = true;
    let mut k: usize = 0;
    while k < walk.len() - 1
        invariant
            checked.wf(),
            checked.nets@.len() < u32::MAX,
            pairs_listed(checked, pairs@),
            prefs@.len() == checked.nets@.len(),
            forall|net: int|
                0 <= net < prefs@.len() ==> #[trigger] prefs@[net] == checked.vert_pref_of(net),
            walk@.len() >= 2,
            forall|k: int|
                0 <= k < walk@.len() ==> (#[trigger] walk@[k]) < checked.elements@.len(),
            forall|k: int|
                #![trigger walk@[k]]
                0 <= k < walk@.len() - 1 ==> paired(
                    checked,
                    walk@[k] as int,
                    walk@[k + 1] as int,
                ),
            k <= walk@.len() - 1,
            shared@.len() == k,
            forall|j: int|
                0 <= j < k ==> #[trigger] shared@[j] == joint(
                    checked,
                    walk@[j] as int,
                    walk@[j + 1] as int,
                ),
            down == forall|j: int|
                #![trigger walk@[j]]
                0 <= j < k ==> sits_above(checked, walk@[j] as int, walk@[j + 1] as int) == Some(
                    true,
                ),
            up == forall|j: int|
                #![trigger walk@[j]]
                0 <= j < k ==> sits_above(checked, walk@[j] as int, walk@[j + 1] as int) == Some(
                    false,
                ),
        decreases walk@.len() - 1 - k,
    {
        let u: usize = walk[k];
        let v: usize = walk[k + 1];
        let (way, net): (Option<bool>, usize) = step_down(checked, pairs, prefs, u, v);
        match way {
            Some(true) => {
                up = false;
            },
            Some(false) => {
                down = false;
            },
            None => {
                up = false;
                down = false;
            },
        }
        assert(sits_above(checked, walk@[k as int] as int, walk@[k + 1] as int) == way);
        shared.push(net);
        k = k + 1;
    }
    assert(down == all_steps(checked, walk@, true));
    assert(up == all_steps(checked, walk@, false));
    assert(shared@ =~= joints(checked, walk@));
    if down {
        Some(DcColumn { members: walk, shared })
    } else if up {
        Some(DcColumn { members: reversed(&walk), shared: reversed(&shared) })
    } else {
        None
    }
}

/// Adds a column to a list ordered by first members.
fn insert_column(list: &mut Vec<DcColumn>, c: DcColumn)
    requires
        c.members@.len() >= 2,
        forall|x: int| 0 <= x < old(list)@.len() ==> (#[trigger] old(list)@[x]).members@.len() >= 2,
        forall|x: int, y: int|
            0 <= x < y < old(list)@.len() ==> (#[trigger] old(list)@[x]).members@[0] < (
            #[trigger] old(list)@[y]).members@[0],
        forall|x: int|
            0 <= x < old(list)@.len() ==> (#[trigger] old(list)@[x]).members@[0] != c.members@[0],
    ensures
        forall|x: int|
            0 <= x < final(list)@.len() ==> (#[trigger] final(list)@[x]).members@.len() >= 2,
        forall|x: int, y: int|
            0 <= x < y < final(list)@.len() ==> (#[trigger] final(list)@[x]).members@[0] < (
            #[trigger] final(list)@[y]).members@[0],
        forall|f: DcColumn|
            #[trigger] final(list)@.contains(f) <==> old(list)@.contains(f) || f == c,
{
    let ghost before = list@;
    let n: usize = list.len();
    let mut k: usize = 0;
    while k < n && list[k].members[0] < c.members[0]
        invariant
            n == before.len(),
            list@ == before,
            c.members@.len() >= 2,
            forall|x: int| 0 <= x < before.len() ==> (#[trigger] before[x]).members@.len() >= 2,
            k <= n,
            forall|x: int| 0 <= x < k ==> (#[trigger] before[x]).members@[0] < c.members@[0],
        decreases n - k,
    {
        k = k + 1;
    }
    let ghost col = c;
    list.insert(k, c);
    proof {
        let after = list@;
        assert(after[k as int] == col);
        assert forall|x: int| k <= x < before.len() implies col.members@[0] < (
        #[trigger] before[x]).members@[0] by {
            if x > k {
                assert(before[k as int].members@[0] < before[x].members@[0]);
            }
        }
        assert forall|x: int| 0 <= x < after.len() implies (#[trigger] after[x]).members@.len()
            >= 2 by {
            if x < k {
                assert(after[x] == before[x]);
            } else if x > k {
                assert(after[x] == before[x - 1]);
            }
        }
        assert forall|x: int, y: int| 0 <= x < y < after.len() implies (
        #[trigger] after[x]).members@[0] < (#[trigger] after[y]).members@[0] by {
            if x < k {
                assert(after[x] == before[x]);
            } else if x > k {
                assert(after[x] == before[x - 1]);
            }
            if y < k {
                assert(after[y] == before[y]);
            } else if y > k {
                assert(after[y] == before[y - 1]);
            }
        }
        crate::flow::insert_contains(before, k as int, col);
    }
}

/// Some column of the list has the given view.
spec fn has_view(list: Seq<DcColumn>, c: ColumnView) -> bool {
    exists|k: int| 0 <= k < list.len() && ((#[trigger] list[k]).members@, list[k].shared@) == c
}

/// The columns of the netlist, ordered by their first members.
#[must_use]
pub fn detect_dc_columns(checked: &CheckedNetlist) -> (r: Vec<DcColumn>)
    requires
        checked.wf(),
        checked.nets@.len() < u32::MAX,
    ensures
        columns_of(checked, column_views(r@)),
{
    let pairs: Vec<(usize, usize, usize)> = dc_series_pairs(checked);
    let prefs: Vec<Option<VertPref>> = vertical_prefs(checked);
    let n: usize = checked.elements.len();
    let nets: usize = checked.nets.len();
    let mut seen: Vec<bool> = Vec::new();
    let mut i: usize = 0;
    while i < n
        invariant
            i <= n,
            seen@ == none_seen(i as nat),
        decreases n - i,
    {
        seen.push(false);
        assert(seen@ =~= none_seen((i + 1) as nat));
        i = i + 1;
    }
    let ghost all = columns_from(checked, none_seen(n as nat), 0);
    let mut out: Vec<DcColumn> = Vec::new();
    let mut start: usize = 0;
    while start < n
        invariant
            checked.wf(),
            checked.nets@.len() < u32::MAX,
            n == checked.elements@.len(),
            nets == checked.nets@.len(),
            pairs_listed(checked, pairs@),
            prefs@.len() == checked.nets@.len(),
            forall|net: int|
                0 <= net < prefs@.len() ==> #[trigger] prefs@[net] == checked.vert_pref_of(net),
            start <= n,
            seen@.len() == n,
            forall|x: int| 0 <= x < out@.len() ==> (#[trigger] out@[x]).members@.len() >= 2,
            forall|x: int, y: int|
                0 <= x < y < out@.len() ==> (#[trigger] out@[x]).members@[0] < (
                #[trigger] out@[y]).members@[0],
            forall|x: int|
                0 <= x < out@.len() ==> (#[trigger] out@[x]).members@[0] < n
                    && seen@[out@[x].members@[0] as int],
            forall|c: ColumnView|
                #[trigger] all.contains(c) <==> has_view(out@, c) || columns_from(
                    checked,
                    seen@,
                    start as int,
                ).contains(c),
        decreases n - start,
    {
        let ghost rest0 = columns_from(checked, seen@, start as int);
        let ghost seen0 = seen@;
        let ghost out0 = out@;
        let begins = !seen[start] && count_partners(checked, &pairs, start) == 1;
        if begins {
            let walk: Vec<usize> = walk_chain(checked, &pairs, &mut seen, start);
            proof {
                walk_facts(checked, seen0, start as int);
                walk_column(checked, walk@);
            }
            let ghost w = walk@;
            let ghost rest1 = columns_from(checked, seen@, start + 1);
            match make_column(checked, &pairs, &prefs, walk) {
                Some(c) => {
                    let ghost view = (c.members@, c.shared@);
                    proof {
                        assert(rest0 == seq![view] + rest1);
                        let first = c.members@[0];
                        assert(c.members@.contains(first));
                        assert(w.contains(first));
                        let j = choose|j: int| 0 <= j < w.len() && w[j] == first;
                        assert(!seen0[w[j] as int]);
                        assert(w.contains(first as int as usize));
                        assert(seen@[first as int]);
                        assert forall|x: int| 0 <= x < out@.len() implies (
                        #[trigger] out@[x]).members@[0] != first by {}
                    }
                    let ghost col = c;
                    insert_column(&mut out, c);
                    proof {
                        assert forall|x: int| 0 <= x < out@.len() implies (
                        #[trigger] out@[x]).members@[0] < n && seen@[out@[x].members@[0] as int] by {
                            assert(out@.contains(out@[x]));
                            if out0.contains(out@[x]) {
                                let y = choose|y: int| 0 <= y < out0.len() && out0[y] == out@[x];
                                assert(seen0[out0[y].members@[0] as int]);
                            }
                        }
                        assert forall|v: ColumnView| #[trigger] all.contains(v) <==> has_view(
                            out@,
                            v,
                        ) || rest1.contains(v) by {
                            assert(all.contains(v) <==> has_view(out0, v) || rest0.contains(v));
                            front_contains(view, rest1, v);
                            if has_view(out0, v) {
                                let y = choose|y: int|
                                    0 <= y < out0.len() && ((#[trigger] out0[y]).members@,
                                        out0[y].shared@) == v;
                                assert(out0.contains(out0[y]));
                                assert(out@.contains(out0[y]));
                                let x = choose|x: int| 0 <= x < out@.len() && out@[x] == out0[y];
                                assert((out@[x].members@, out@[x].shared@) == v);
                            }
                            if v == view {
                                assert(out@.contains(col));
                                let x = choose|x: int| 0 <= x < out@.len() && out@[x] == col;
                                assert((out@[x].members@, out@[x].shared@) == v);
                            }
                            if has_view(out@, v) {
                                let x = choose|x: int|
                                    0 <= x < out@.len() && ((#[trigger] out@[x]).members@,
                                        out@[x].shared@) == v;
                                assert(out@.contains(out@[x]));
                                if out0.contains(out@[x]) {
                                    let y = choose|y: int| 0 <= y < out0.len() && out0[y] == out@[x];
                                    assert((out0[y].members@, out0[y].shared@) == v);
                                }
                            }
                        }
                    }
                },
                None => {
                    proof {
                        assert(rest0 == rest1);
                    }
                },
            }
        }
        start = start + 1;
    }
    proof {
        let views = column_views(out@);
        assert forall|c: ColumnView| #[trigger] views.contains(c) <==> all.contains(c) by {
            assert(columns_from(checked, seen@, n as int) =~= Seq::<ColumnView>::empty());
            if views.contains(c) {
                let k = choose|k: int| 0 <= k < views.len() && views[k] == c;
                assert((out@[k].members@, out@[k].shared@) == c);
                assert(has_view(out@, c));
            }
            if all.contains(c) {
                assert(has_view(out@, c));
                let k = choose|k: int|
                    0 <= k < out@.len() && ((#[trigger] out@[k]).members@, out@[k].shared@) == c;
                assert(views[k] == c);
            }
        }
        assert forall|x: int, y: int| 0 <= x < y < views.len() implies (#[trigger] views[x]).0[0]
            < (#[trigger] views[y]).0[0] by {
            assert(out@[x].members@[0] < out@[y].members@[0]);
        }
        assert forall|x: int| 0 <= x < views.len() implies (#[trigger] views[x]).0.len() >= 2 by {
            assert(out@[x].members@.len() >= 2);
        }
    }
    out
}

proof fn front_contains(a: ColumnView, s: Seq<ColumnView>, c: ColumnView)
    ensures
        (seq![a] + s).contains(c) <==> c == a || s.contains(c),
{
    let t = seq![a] + s;
    assert(t[0] == a);
    if s.contains(c) {
        let i = choose|i: int| 0 <= i < s.len() && s[i] == c;
        assert(t[i + 1] == c);
    }
    if t.contains(c) {
        let i = choose|i: int| 0 <= i < t.len() && t[i] == c;
        if i > 0 {
            assert(s[i - 1] == c);
        }
    }
}

/// DC enters a drawn part at every terminal, but a capacitor at none and a
/// transistor not at its control terminal, the second.
pub proof fn dc_enters_at_the_ends(e: ResolvedElement, net: int, k: int)
    requires
        0 <= k < e.nodes@.len(),
        forall|j: int| 0 <= j < e.nodes@.len() && #[trigger] e.nodes@[j] == net ==> j == k,
    ensures
        dc_on(e, net) <==> e.nodes@[k] == net && e.role is Normal && match e.kind {
            ElementKind::Capacitor => false,
            ElementKind::Bjt => k != 1,
            ElementKind::Mosfet => k != 1,
            ElementKind::Jfet => k != 1,
            _ => true,
        },
{
    if e.nodes@[k] == net && dc_terminal(e, k) {
        assert(dc_on(e, net));
    }
}

/// Neighbours in a column share a node that is no rail, that no sheet is on
/// and onto which no third element conducts.
pub proof fn column_nodes_join_two(
    checked: &CheckedNetlist,
    r: Seq<ColumnView>,
    k: int,
    x: int,
    i: int,
)
    requires
        checked.nets@.len() <= usize::MAX,
        checked.elements@.len() <= usize::MAX,
        columns_of(checked, r),
        0 <= k < r.len(),
        0 <= x < r[k].1.len(),
        0 <= i < checked.elements@.len(),
    ensures
        ({
            let net = r[k].1[x] as int;
            &&& r[k].0.len() == r[k].1.len() + 1
            &&& r[k].0[x] != r[k].0[x + 1]
            &&& 0 <= net < checked.nets@.len()
            &&& !checked.is_rail(net)
            &&& forall|s: int, j: int|
                #![trigger checked.sheet_instances@[s].nodes@[j]]
                0 <= s < checked.sheet_instances@.len() && 0 <= j
                    < checked.sheet_instances@[s].nodes@.len()
                    ==> checked.sheet_instances@[s].nodes@[j] != net
            &&& dc_on(checked.elements@[i], net) <==> i == r[k].0[x] || i == r[k].0[x + 1]
        }),
{
    columns_are_chains(checked, r, k);
    let (m, s) = r[k];
    let net = s[x] as int;
    assert(joined_at(checked, m[x] as int, m[x + 1] as int, net));
    assert(checked.elements@[i] == checked.elements@[i]);
}

/// Of two neighbours in a column the upper one leads from their node to a net
/// that DC reaches sooner from an upper rail, and later from a lower one, than
/// the net that the lower one leads to.
pub proof fn columns_run_from_the_upper_rail(
    checked: &CheckedNetlist,
    r: Seq<ColumnView>,
    k: int,
    x: int,
)
    requires
        checked.wf(),
        columns_of(checked, r),
        0 <= k < r.len(),
        0 <= x < r[k].1.len(),
    ensures
        ({
            let (u, v) = (r[k].0[x] as int, r[k].0[x + 1] as int);
            exists|net: int, a: int, b: int|
                #![trigger conducts(checked, u, net, a), conducts(checked, v, net, b)]
                {
                    &&& joined_at(checked, u, v, net)
                    &&& conducts(checked, u, net, a)
                    &&& conducts(checked, v, net, b)
                    &&& crate::dc_rank::reaches_sooner(checked, VertPref::Up, (u, v), a, b)
                    &&& crate::dc_rank::reaches_sooner(checked, VertPref::Down, (u, v), b, a)
                }
        }),
{
    assert(checked.nets@.len() == checked.nets.len());
    assert(checked.elements@.len() == checked.elements.len());
    columns_are_chains(checked, r, k);
    let (m, s) = r[k];
    let (u, v) = (m[x] as int, m[x + 1] as int);
    let n = checked.nets@.len() as int;
    assert(joined_at(checked, u, v, s[x] as int));
    assert(sits_above(checked, u, v) == Some(true));
    let net = joint(checked, u, v);
    joint_found(checked, u, v, n);
    let a = far_net(checked.elements@[u], net)->0;
    let b = far_net(checked.elements@[v], net)->0;
    assert(conducts(checked, u, net, a) && conducts(checked, v, net, b));
    crate::dc_rank::higher_nets_are_between_the_rails(checked, (u, v), a, b);
}

/// `w` leads from a net to a rail along DC conductors other than element
/// `skip`, and passes no rail on the way.
pub open spec fn way_to_rail(
    checked: &CheckedNetlist,
    skip: int,
    w: Seq<int>,
    from: int,
    rail: int,
) -> bool {
    &&& w.len() >= 1
    &&& w[0] == from
    &&& w.last() == rail
    &&& checked.is_dc_rail(rail)
    &&& forall|k: int| 0 <= k < w.len() ==> 0 <= #[trigger] w[k] < checked.nets@.len()
    &&& forall|k: int|
        0 <= k < w.len() - 1 ==> !checked.is_dc_rail(#[trigger] w[k]) && exists|i: int|
            i != skip && #[trigger] conducts(checked, i, w[k], w[k + 1])
}

/// A rail is reached exactly where a way leads to it.
pub proof fn rails_are_reached_by_ways(
    checked: &CheckedNetlist,
    skip: int,
    from: int,
    rail: int,
)
    requires
        0 <= from < checked.nets@.len() <= usize::MAX,
        0 <= rail < checked.nets@.len(),
    ensures
        reaches_rail(checked, skip, from, rail) <==> exists|w: Seq<int>| #[trigger]
            way_to_rail(checked, skip, w, from, rail),
{
    let n = checked.nets@.len();
    let g = walk_graph(checked, skip);
    let start = only(n, from);
    crate::distance::reached_by_walks(g, start, rail);
    assert forall|a: int, b: int| 0 <= a < n && 0 <= b < n implies (
    #[trigger] crate::tarjan::has_edge(g, a, b) <==> walk_step(checked, skip, a)(b)) by {
        where_list_contains(walk_step(checked, skip, a), n as int, b as usize);
        if crate::tarjan::has_edge(g, a, b) {
            let k = choose|k: int| 0 <= k < g[a].len() && #[trigger] g[a][k] == b;
            assert(g[a][k] == b as usize);
            assert(g[a].contains(b as usize));
        }
        if walk_step(checked, skip, a)(b) {
            let k = choose|k: int| 0 <= k < g[a].len() && g[a][k] == b as usize;
            assert(g[a][k] == b);
        }
    }
    assert forall|a: int, b: int| #[trigger] crate::tarjan::has_edge(g, a, b) implies 0 <= a < n
        && 0 <= b < n by {
        let k = choose|k: int| 0 <= k < g[a].len() && #[trigger] g[a][k] == b;
        where_list_contains(walk_step(checked, skip, a), n as int, g[a][k]);
        assert(g[a].contains(g[a][k]));
    }
    if reaches_rail(checked, skip, from, rail) {
        let w = choose|w: Seq<int>| #[trigger] crate::distance::walks_to(g, start, w, rail);
        assert forall|k: int| 0 <= k < w.len() - 1 implies !checked.is_dc_rail(#[trigger] w[k])
            && exists|i: int| i != skip && #[trigger] conducts(checked, i, w[k], w[k + 1]) by {
            assert(crate::tarjan::has_edge(g, w[k], w[k + 1]));
            assert(walk_step(checked, skip, w[k])(w[k + 1]));
        }
        assert forall|k: int| 0 <= k < w.len() implies 0 <= #[trigger] w[k] < n by {
            if k < w.len() - 1 {
                assert(crate::tarjan::has_edge(g, w[k], w[k + 1]));
            }
        }
        if w.len() > 1 {
            assert(crate::tarjan::has_edge(g, w[0], w[0int + 1]));
        }
        assert(way_to_rail(checked, skip, w, from, rail));
    }
    if exists|w: Seq<int>| #[trigger] way_to_rail(checked, skip, w, from, rail) {
        let w = choose|w: Seq<int>| #[trigger] way_to_rail(checked, skip, w, from, rail);
        assert forall|k: int| 0 <= k < w.len() - 1 implies crate::tarjan::has_edge(
            g,
            #[trigger] w[k],
            w[k + 1],
        ) by {
            assert(0 <= w[k] < n && 0 <= w[k + 1] < n);
            assert(walk_step(checked, skip, w[k])(w[k + 1]));
        }
        assert(crate::distance::walks_to(g, start, w, rail));
    }
}

/// Both members of a pair lie between two different rails: without the member
/// itself, a way leads from one of its ends to the one and from its other end
/// to the other.
pub proof fn pairs_lie_between_rails(
    checked: &CheckedNetlist,
    u: int,
    v: int,
    net: int,
    i: int,
)
    requires
        checked.wf(),
        joined_at(checked, u, v, net),
        i == u || i == v,
    ensures
        exists|a: int, b: int, p: int, q: int, w: Seq<int>, x: Seq<int>|
            #![trigger way_to_rail(checked, i, w, a, p), way_to_rail(checked, i, x, b, q)]
            {
                &&& conducts(checked, i, a, b)
                &&& p != q
                &&& way_to_rail(checked, i, w, a, p)
                &&& way_to_rail(checked, i, x, b, q)
            },
{
    assert(checked.nets@.len() == checked.nets.len());
    assert(bridges_rails(checked, i));
    let e = checked.elements@[i];
    let (s, t) = conduction_of(e)->0;
    let (a, b) = (e.nodes@[s as int] as int, e.nodes@[t as int] as int);
    assert(conducts(checked, i, a, b));
    assert(nets_in_range(e.nodes@, checked.nets@.len()));
    let (p, q) = choose|p: int, q: int|
        0 <= p < checked.nets@.len() && 0 <= q < checked.nets@.len() && p != q
            && #[trigger] reaches_rail(checked, i, a, p) && #[trigger] reaches_rail(checked, i, b, q);
    rails_are_reached_by_ways(checked, i, a, p);
    rails_are_reached_by_ways(checked, i, b, q);
    let w = choose|w: Seq<int>| #[trigger] way_to_rail(checked, i, w, a, p);
    let x = choose|x: Seq<int>| #[trigger] way_to_rail(checked, i, x, b, q);
    assert(way_to_rail(checked, i, w, a, p) && way_to_rail(checked, i, x, b, q));
}

/// A net that an element touches is a rail when it is a supply or ground. One
/// that none touches is a rail by its name alone.
pub proof fn rails_are_supplies_grounds_and_named_nets(checked: &CheckedNetlist, net: int)
    requires
        0 <= net < checked.nets@.len(),
    ensures
        ({
            let name = ascii_lower(checked.nets@[net]@);
            let named = name == "vcc"@ || name == "vdd"@ || name == "v+"@ || name == "vplus"@ || name
                == "gnd"@ || name == "vee"@ || name == "vss"@ || name == "v-"@ || name == "vminus"@;
            match checked.class_of(net) {
                Some(c) => checked.is_dc_rail(net) <==> c == NetClass::Power || c
                    == NetClass::Ground,
                None => checked.is_dc_rail(net) <==> named,
            }
        }),
{
}

} // verus!
