//! Rows: independent sub-circuits, which share nothing but supplies, get
//! horizontal rows of their own.

use vstd::prelude::*;

use crate::bands::Band;
#[allow(unused_imports)]
use crate::graph::{reach, reach_edge, reach_preserves, reach_refl, reach_symmetric, reach_trans};
use crate::net_class::{NetClass, NetClassMap};
use crate::netlist::CheckedNetlist;
#[allow(unused_imports)]
use crate::netlist::nets_in_range;

verus! {

/// Per-element row assignment plus the number of rows in play.
#[derive(Debug)]
pub struct Rows {
    /// Row index per element; `None` for an element that belongs to no
    /// channel.
    pub row: Vec<Option<usize>>,
    /// Number of distinct rows. `1` means that there is no row structure.
    pub count: usize,
}

impl Rows {
    /// True when no row structure was detected.
    #[must_use]
    pub fn is_trivial(&self) -> (r: bool)
        ensures
            r == (self.count <= 1),
    {
        self.count <= 1
    }
}

/// The class is a supply or ground.
pub open spec fn rail_class(class: Option<NetClass>) -> bool {
    class == Some(NetClass::Power) || class == Some(NetClass::Ground)
}

/// Elements `i` and `j` share a net that is not a rail.
pub open spec fn linked(
    checked: &CheckedNetlist,
    classes: Seq<Option<NetClass>>,
    i: int,
    j: int,
) -> bool {
    &&& 0 <= i < checked.elements@.len()
    &&& 0 <= j < checked.elements@.len()
    &&& exists|a: int, b: int|
        #![trigger checked.elements@[i].nodes@[a], checked.elements@[j].nodes@[b]]
        {
            &&& 0 <= a < checked.elements@[i].nodes@.len()
            &&& 0 <= b < checked.elements@[j].nodes@.len()
            &&& checked.elements@[i].nodes@[a] == checked.elements@[j].nodes@[b]
            &&& !rail_class(classes[checked.elements@[i].nodes@[a] as int])
        }
}

/// [`linked`] as an edge relation.
pub open spec fn link_rel(
    checked: &CheckedNetlist,
    classes: Seq<Option<NetClass>>,
) -> spec_fn(int, int) -> bool {
    |i: int, j: int| linked(checked, classes, i, j)
}

/// A chain of signal nets joins the two elements.
pub open spec fn connected(
    checked: &CheckedNetlist,
    classes: Seq<Option<NetClass>>,
    i: int,
    j: int,
) -> bool {
    reach(link_rel(checked, classes), i, j)
}

/// The element is joined to some other element.
pub open spec fn in_channel(checked: &CheckedNetlist, classes: Seq<Option<NetClass>>, i: int) -> bool {
    exists|j: int|
        0 <= j < checked.elements@.len() && j != i && #[trigger] connected(checked, classes, i, j)
}

/// No element before `i` is joined to it.
pub open spec fn is_first(checked: &CheckedNetlist, classes: Seq<Option<NetClass>>, i: int) -> bool {
    forall|j: int| 0 <= j < i ==> !#[trigger] connected(checked, classes, i, j)
}

/// The number of channels whose first member is before `n`.
pub open spec fn channels_before(
    checked: &CheckedNetlist,
    classes: Seq<Option<NetClass>>,
    n: int,
) -> nat
    decreases n,
{
    if n <= 0 {
        0
    } else {
        channels_before(checked, classes, n - 1) + (if is_first(checked, classes, n - 1)
            && in_channel(checked, classes, n - 1) {
            1nat
        } else {
            0nat
        })
    }
}

/// The row assignment that [`assign_rows`] returns: with fewer than two
/// channels there is one row and no element is in it; otherwise the channels
/// are numbered by their first members.
pub open spec fn rows_of(checked: &CheckedNetlist, classes: Seq<Option<NetClass>>, r: Rows) -> bool {
    let n = checked.elements@.len() as int;
    let total = channels_before(checked, classes, n);
    &&& r.row@.len() == n
    &&& total < 2 ==> r.count == 1 && forall|i: int| 0 <= i < n ==> (#[trigger] r.row@[i]) is None
    &&& total >= 2 ==> {
        &&& r.count == total
        &&& forall|i: int|
            0 <= i < n && !in_channel(checked, classes, i) ==> (#[trigger] r.row@[i]) is None
        &&& forall|i: int, first: int|
            #![trigger r.row@[i], is_first(checked, classes, first)]
            0 <= i < n && in_channel(checked, classes, i) && 0 <= first < n && is_first(
                checked,
                classes,
                first,
            ) && connected(checked, classes, i, first) ==> r.row@[i] == Some(
                channels_before(checked, classes, first) as usize,
            ) && channels_before(checked, classes, first) < total
    }
}

proof fn linked_symmetric(checked: &CheckedNetlist, classes: Seq<Option<NetClass>>)
    ensures
        forall|x: int, y: int| #[trigger]
            link_rel(checked, classes)(x, y) ==> link_rel(checked, classes)(y, x),
{
    assert forall|x: int, y: int| #[trigger] link_rel(checked, classes)(x, y) implies link_rel(
        checked,
        classes,
    )(y, x) by {
        let (a, b) = choose|a: int, b: int|
            #![trigger checked.elements@[x].nodes@[a], checked.elements@[y].nodes@[b]]
            {
                &&& 0 <= a < checked.elements@[x].nodes@.len()
                &&& 0 <= b < checked.elements@[y].nodes@.len()
                &&& checked.elements@[x].nodes@[a] == checked.elements@[y].nodes@[b]
                &&& !rail_class(classes[checked.elements@[x].nodes@[a] as int])
            };
        assert(checked.elements@[y].nodes@[b] == checked.elements@[x].nodes@[a]);
    }
}

/// Being joined is an equivalence.
pub proof fn connected_equivalence(
    checked: &CheckedNetlist,
    classes: Seq<Option<NetClass>>,
    i: int,
    j: int,
    k: int,
)
    ensures
        connected(checked, classes, i, i),
        connected(checked, classes, i, j) ==> connected(checked, classes, j, i),
        connected(checked, classes, i, j) && connected(checked, classes, j, k) ==> connected(
            checked,
            classes,
            i,
            k,
        ),
{
    let rel = link_rel(checked, classes);
    reach_refl(rel, i);
    linked_symmetric(checked, classes);
    if connected(checked, classes, i, j) {
        reach_symmetric(rel, i, j);
        if connected(checked, classes, j, k) {
            reach_trans(rel, i, j, k);
        }
    }
}

/// Labels partition the elements; equal labels are joined elements, and the
/// label of a class is its smallest member.
spec fn labels_sound(
    checked: &CheckedNetlist,
    classes: Seq<Option<NetClass>>,
    label: Seq<usize>,
) -> bool {
    &&& label.len() == checked.elements@.len()
    &&& forall|i: int| 0 <= i < label.len() ==> (#[trigger] label[i]) <= i && label[label[i] as int] == label[i]
    &&& forall|i: int, j: int|
        0 <= i < label.len() && 0 <= j < label.len() && #[trigger] label[i] == #[trigger] label[j]
            ==> connected(checked, classes, i, j)
}

/// Replaces the larger of two labels by the smaller.
fn merge(
    label: &mut Vec<usize>,
    a: usize,
    b: usize,
    checked: &CheckedNetlist,
    classes: &NetClassMap,
)
    requires
        labels_sound(checked, classes.class@, old(label)@),
        a < old(label)@.len(),
        b < old(label)@.len(),
        connected(checked, classes.class@, a as int, b as int),
    ensures
        labels_sound(checked, classes.class@, final(label)@),
        final(label)@[a as int] == final(label)@[b as int],
        forall|i: int, j: int|
            0 <= i < final(label)@.len() && 0 <= j < final(label)@.len() && old(label)@[i]
                == old(label)@[j] ==> #[trigger] final(label)@[i] == #[trigger] final(label)@[j],
{
    let la: usize = label[a];
    let lb: usize = label[b];
    if la == lb {
        return ;
    }
    let (low, high): (usize, usize) = if la < lb {
        (la, lb)
    } else {
        (lb, la)
    };
    let ghost before = label@;
    let n: usize = label.len();
    let mut i: usize = 0;
    while i < n
        invariant
            n == before.len(),
            n == label@.len(),
            i <= n,
            low < high,
            forall|j: int|
                0 <= j < i ==> #[trigger] label@[j] == (if before[j] == high {
                    low
                } else {
                    before[j]
                }),
            forall|j: int| i <= j < n ==> #[trigger] label@[j] == before[j],
        decreases n - i,
    {
        if label[i] == high {
            label.set(i, low);
        }
        i = i + 1;
    }
    proof {
        assert(before[la as int] == la && before[lb as int] == lb);
        assert forall|i: int| 0 <= i < label@.len() implies (#[trigger] label@[i]) <= i
            && label@[label@[i] as int] == label@[i] by {
            assert(before[i] <= i && before[before[i] as int] == before[i]);
        }
        assert forall|i: int, j: int|
            0 <= i < label@.len() && 0 <= j < label@.len() && #[trigger] label@[i]
                == #[trigger] label@[j] implies connected(checked, classes.class@, i, j) by {
            if before[i] != before[j] {
                if before[i] == la {
                    assert(before[i] == before[a as int] && before[j] == before[b as int]);
                    connected_equivalence(checked, classes.class@, i, a as int, b as int);
                    connected_equivalence(checked, classes.class@, i, b as int, j);
                    assert(connected(checked, classes.class@, b as int, j));
                } else {
                    assert(before[i] == before[b as int] && before[j] == before[a as int]);
                    connected_equivalence(checked, classes.class@, a as int, b as int, b as int);
                    connected_equivalence(checked, classes.class@, i, b as int, a as int);
                    connected_equivalence(checked, classes.class@, i, a as int, j);
                    assert(connected(checked, classes.class@, a as int, j));
                }
            }
        }
    }
}

/// Every element with a terminal, before position `(i, k)`, on a signal net
/// has the label of the net's first element.
spec fn first_seen(
    checked: &CheckedNetlist,
    classes: Seq<Option<NetClass>>,
    label: Seq<usize>,
    first: Seq<Option<usize>>,
    i: int,
    k: int,
) -> bool {
    &&& first.len() == checked.nets@.len()
    &&& forall|net: int|
        0 <= net < first.len() && (#[trigger] first[net]) is Some ==> first[net]->0 < label.len()
            && checked.touches(first[net]->0 as int, net) && !rail_class(classes[net])
    &&& forall|j: int, a: int|
        #![trigger checked.elements@[j].nodes@[a]]
        0 <= j < checked.elements@.len() && 0 <= a < checked.elements@[j].nodes@.len() && (j < i
            || j == i && a < k) && !rail_class(classes[checked.elements@[j].nodes@[a] as int])
            ==> first[checked.elements@[j].nodes@[a] as int] is Some
            && label[first[checked.elements@[j].nodes@[a] as int]->0 as int] == label[j]
}

/// The smallest member of every element's connected component.
fn component_labels(checked: &CheckedNetlist, classes: &NetClassMap) -> (label: Vec<usize>)
    requires
        checked.wf(),
        classes.class@.len() == checked.nets@.len(),
    ensures
        labels_sound(checked, classes.class@, label@),
        forall|i: int, j: int|
            0 <= i < label@.len() && 0 <= j < label@.len() && connected(
                checked,
                classes.class@,
                i,
                j,
            ) ==> #[trigger] label@[i] == #[trigger] label@[j],
{
    let n: usize = checked.elements.len();
    let mut label: Vec<usize> = Vec::new();
    let mut i: usize = 0;
    while i < n
        invariant
            i <= n,
            label@.len() == i,
            forall|j: int| 0 <= j < i ==> #[trigger] label@[j] == j,
        decreases n - i,
    {
        label.push(i);
        i = i + 1;
    }
    let mut first: Vec<Option<usize>> = Vec::new();
    let m: usize = checked.nets.len();
    let mut i: usize = 0;
    while i < m
        invariant
            i <= m,
            first@.len() == i,
            forall|j: int| 0 <= j < i ==> (#[trigger] first@[j]) is None,
        decreases m - i,
    {
        first.push(None);
        i = i + 1;
    }
    proof {
        assert forall|i: int, j: int|
            0 <= i < label@.len() && 0 <= j < label@.len() && #[trigger] label@[i]
                == #[trigger] label@[j] implies connected(checked, classes.class@, i, j) by {
            connected_equivalence(checked, classes.class@, i, i, i);
        }
    }
    let mut i: usize = 0;
    while i < n
        invariant
            checked.wf(),
            classes.class@.len() == checked.nets@.len(),
            n == checked.elements@.len(),
            i <= n,
            labels_sound(checked, classes.class@, label@),
            first_seen(checked, classes.class@, label@, first@, i as int, 0),
        decreases n - i,
    {
        let nodes = &checked.elements[i].nodes;
        let mut k: usize = 0;
        while k < nodes.len()
            invariant
                checked.wf(),
                classes.class@.len() == checked.nets@.len(),
                n == checked.elements@.len(),
                i < n,
                nodes@ == checked.elements@[i as int].nodes@,
                k <= nodes@.len(),
                labels_sound(checked, classes.class@, label@),
                first_seen(checked, classes.class@, label@, first@, i as int, k as int),
            decreases nodes@.len() - k,
        {
            let net: usize = nodes[k];
            assert(nets_in_range(checked.elements@[i as int].nodes@, checked.nets@.len()));
            assert(checked.elements@[i as int].nodes@[k as int] == net);
            if !classes.is_rail_net(net) {
                match first[net] {
                    Some(f) => {
                        proof {
                            let b = choose|b: int|
                                0 <= b < checked.elements@[f as int].nodes@.len()
                                    && #[trigger] checked.elements@[f as int].nodes@[b] == net;
                            assert(checked.elements@[f as int].nodes@[b]
                                == checked.elements@[i as int].nodes@[k as int]);
                            assert(link_rel(checked, classes.class@)(f as int, i as int));
                            reach_edge(link_rel(checked, classes.class@), f as int, i as int);
                        }
                        merge(&mut label, f, i, checked, classes);
                    },
                    None => {
                        first.set(net, Some(i));
                        assert(checked.touches(i as int, net as int));
                    },
                }
            }
            k = k + 1;
        }
        i = i + 1;
    }
    proof {
        let rel = link_rel(checked, classes.class@);
        assert forall|i: int, j: int|
            0 <= i < label@.len() && 0 <= j < label@.len() && connected(
                checked,
                classes.class@,
                i,
                j,
            ) implies #[trigger] label@[i] == #[trigger] label@[j] by {
            let prop = |x: int| 0 <= x < label@.len() && label@[x] == label@[i];
            assert forall|x: int, y: int| prop(x) && #[trigger] rel(x, y) implies prop(y) by {
                let (a, b) = choose|a: int, b: int|
                    #![trigger checked.elements@[x].nodes@[a], checked.elements@[y].nodes@[b]]
                    {
                        &&& 0 <= a < checked.elements@[x].nodes@.len()
                        &&& 0 <= b < checked.elements@[y].nodes@.len()
                        &&& checked.elements@[x].nodes@[a] == checked.elements@[y].nodes@[b]
                        &&& !rail_class(classes.class@[checked.elements@[x].nodes@[a] as int])
                    };
                assert(checked.elements@[x].nodes@[a] == checked.elements@[y].nodes@[b]);
            }
            reach_preserves(rel, prop, i, j);
        }
    }
    label
}

/// The entry of element `l` is its channel's number if it is the first member
/// of one.
spec fn number_at(
    checked: &CheckedNetlist,
    classes: Seq<Option<NetClass>>,
    row: Option<usize>,
    l: int,
    count: int,
) -> bool {
    if is_first(checked, classes, l) && in_channel(checked, classes, l) {
        &&& row == Some(channels_before(checked, classes, l) as usize)
        &&& channels_before(checked, classes, l) < count
    } else {
        row is None
    }
}

spec fn numbered(
    checked: &CheckedNetlist,
    classes: Seq<Option<NetClass>>,
    row_of: Seq<Option<usize>>,
    n: int,
    count: int,
) -> bool {
    forall|l: int| 0 <= l < n ==> number_at(checked, classes, #[trigger] row_of[l], l, count)
}

/// Decomposes the netlist into signal-connected components and numbers those
/// that hold two or more elements.
#[must_use]
pub fn assign_rows(checked: &CheckedNetlist, classes: &NetClassMap) -> (r: Rows)
    requires
        checked.wf(),
        classes.class@.len() == checked.nets@.len(),
    ensures
        rows_of(checked, classes.class@, r),
{
    let n: usize = checked.elements.len();
    let label: Vec<usize> = component_labels(checked, classes);
    let ghost cl = classes.class@;
    // Row number of each channel, at the index of its first member.
    let mut row_of: Vec<Option<usize>> = Vec::new();
    let mut count: usize = 0;
    let mut i: usize = 0;
    while i < n
        invariant
            n == checked.elements@.len(),
            cl == classes.class@,
            labels_sound(checked, cl, label@),
            forall|i: int, j: int|
                0 <= i < label@.len() && 0 <= j < label@.len() && connected(checked, cl, i, j)
                    ==> #[trigger] label@[i] == #[trigger] label@[j],
            i <= n,
            row_of@.len() == i,
            count <= i,
            count == channels_before(checked, cl, i as int),
            numbered(checked, cl, row_of@, i as int, count as int),
        decreases n - i,
    {
        let mut partner = false;
        let mut j: usize = 0;
        while j < n
            invariant
                n == label@.len(),
                i < n,
                j <= n,
                partner == exists|k: int|
                    0 <= k < j && k != i && #[trigger] label@[k] == label@[i as int],
            decreases n - j,
        {
            if j != i && label[j] == label[i] {
                partner = true;
            }
            j = j + 1;
        }
        proof {
            assert(partner == in_channel(checked, cl, i as int)) by {
                if partner {
                    let k = choose|k: int|
                        0 <= k < n && k != i && #[trigger] label@[k] == label@[i as int];
                    assert(connected(checked, cl, i as int, k));
                }
                if in_channel(checked, cl, i as int) {
                    let k = choose|k: int|
                        0 <= k < checked.elements@.len() && k != i && #[trigger] connected(
                            checked,
                            cl,
                            i as int,
                            k,
                        );
                    assert(label@[i as int] == label@[k]);
                }
            }
            assert((label@[i as int] == i) == is_first(checked, cl, i as int)) by {
                if label@[i as int] == i {
                    assert forall|k: int| 0 <= k < i implies !#[trigger] connected(
                        checked,
                        cl,
                        i as int,
                        k,
                    ) by {
                        assert(label@[k] <= k);
                    }
                } else {
                    let l = label@[i as int] as int;
                    assert(label@[l] == label@[i as int]);
                    assert(connected(checked, cl, i as int, l));
                }
            }
        }
        let ghost before = row_of@;
        let ghost count_before = count;
        if partner && label[i] == i {
            row_of.push(Some(count));
            count = count + 1;
        } else {
            row_of.push(None);
        }
        proof {
            assert forall|l: int| 0 <= l < i + 1 implies number_at(
                checked,
                cl,
                #[trigger] row_of@[l],
                l,
                count as int,
            ) by {
                if l < i {
                    assert(row_of@[l] == before[l]);
                    assert(number_at(checked, cl, before[l], l, count_before as int));
                }
            }
        }
        i = i + 1;
    }
    if count < 2 {
        let mut row: Vec<Option<usize>> = Vec::new();
        let mut i: usize = 0;
        while i < n
            invariant
                i <= n,
                row@.len() == i,
                forall|j: int| 0 <= j < i ==> (#[trigger] row@[j]) is None,
            decreases n - i,
        {
            row.push(None);
            i = i + 1;
        }
        return Rows { row, count: 1 };
    }
    let mut row: Vec<Option<usize>> = Vec::new();
    let mut i: usize = 0;
    while i < n
        invariant
            n == label@.len(),
            labels_sound(checked, cl, label@),
            row_of@.len() == n,
            i <= n,
            row@.len() == i,
            forall|j: int| 0 <= j < i ==> #[trigger] row@[j] == row_of@[label@[j] as int],
        decreases n - i,
    {
        row.push(row_of[label[i]]);
        i = i + 1;
    }
    proof {
        assert forall|i: int| 0 <= i < n && !in_channel(checked, cl, i) implies (
        #[trigger] row@[i]) is None by {
            let l = label@[i] as int;
            assert(label@[l] == label@[i]);
            if l != i {
                assert(connected(checked, cl, i, l));
            }
            assert(number_at(checked, cl, row_of@[l], l, count as int));
        }
        assert forall|i: int, first: int|
            #![trigger row@[i], is_first(checked, cl, first)]
            0 <= i < n && in_channel(checked, cl, i) && 0 <= first < n && is_first(
                checked,
                cl,
                first,
            ) && connected(checked, cl, i, first) implies row@[i] == Some(
            channels_before(checked, cl, first) as usize,
        ) && channels_before(checked, cl, first) < count by {
            let l = label@[i] as int;
            assert(label@[first] == label@[i]);
            assert(label@[l] == label@[i]);
            assert(connected(checked, cl, first, l));
            assert(l == first);
            let k = choose|k: int|
                0 <= k < checked.elements@.len() && k != i && #[trigger] connected(
                    checked,
                    cl,
                    i,
                    k,
                );
            connected_equivalence(checked, cl, i, first, k);
            connected_equivalence(checked, cl, first, i, k);
            if first == k {
                assert(connected(checked, cl, first, i));
            } else {
                assert(connected(checked, cl, first, k));
            }
            assert(in_channel(checked, cl, first));
            assert(number_at(checked, cl, row_of@[first], first, count as int));
        }
    }
    Rows { row, count }
}

/// A fraction of the sheet height.
#[derive(Debug, Clone, Copy, PartialEq, Eq, Structural)]
pub struct Fraction {
    pub num: u64,
    pub den: u64,
}

/// The vertical target of an element in a row: each row owns an equal slice of
/// the span and the element's own target positions it inside the slice. Rail
/// bands and elements in no row keep their own target.
pub open spec fn adjusted_frac(band: Band, sixths: int, row: Option<usize>, count: int) -> (int, int) {
    match row {
        Some(r) => if band == Band::Mid && count > 1 {
            (6 * r + sixths, 6 * count)
        } else {
            (sixths, 6)
        },
        None => (sixths, 6),
    }
}

/// Folds an element's row into its vertical target.
#[must_use]
pub fn row_adjusted_frac(band: Band, sixths: u32, row: Option<usize>, count: usize) -> (r: Fraction)
    requires
        row matches Some(i) ==> 6 * i + sixths <= u64::MAX,
        6 * count <= u64::MAX,
    ensures
        (r.num as int, r.den as int) == adjusted_frac(band, sixths as int, row, count as int),
{
    match row {
        Some(i) => {
            if band == Band::Mid && count > 1 {
                return Fraction { num: 6 * (i as u64) + sixths as u64, den: 6 * (count as u64) };
            }
        },
        None => {},
    }
    Fraction { num: sixths as u64, den: 6 }
}

/// The smallest element joined to `i`.
proof fn first_exists(checked: &CheckedNetlist, classes: Seq<Option<NetClass>>, i: int) -> (first: int)
    requires
        0 <= i < checked.elements@.len(),
    ensures
        0 <= first <= i,
        connected(checked, classes, i, first),
        is_first(checked, classes, first),
    decreases i,
{
    if is_first(checked, classes, i) {
        connected_equivalence(checked, classes, i, i, i);
        i
    } else {
        let j = choose|j: int| 0 <= j < i && #[trigger] connected(checked, classes, i, j);
        let first = first_exists(checked, classes, j);
        connected_equivalence(checked, classes, i, j, first);
        first
    }
}

proof fn channels_monotone(
    checked: &CheckedNetlist,
    classes: Seq<Option<NetClass>>,
    a: int,
    b: int,
)
    requires
        0 <= a < b,
        is_first(checked, classes, a),
        in_channel(checked, classes, a),
    ensures
        channels_before(checked, classes, a) < channels_before(checked, classes, b),
    decreases b,
{
    if b > a + 1 {
        channels_monotone(checked, classes, a, b - 1);
    }
}

/// Where there are rows, two elements of channels are in the same row exactly
/// when a chain of signal nets joins them.
pub proof fn same_row_iff_connected(
    checked: &CheckedNetlist,
    classes: Seq<Option<NetClass>>,
    r: Rows,
    i: int,
    j: int,
)
    requires
        rows_of(checked, classes, r),
        r.count > 1,
        0 <= i < checked.elements@.len(),
        0 <= j < checked.elements@.len(),
        in_channel(checked, classes, i),
        in_channel(checked, classes, j),
    ensures
        r.row@[i] == r.row@[j] <==> connected(checked, classes, i, j),
{
    let fi = first_exists(checked, classes, i);
    let fj = first_exists(checked, classes, j);
    connected_equivalence(checked, classes, i, fi, fj);
    connected_equivalence(checked, classes, fi, i, j);
    connected_equivalence(checked, classes, fi, j, fj);
    connected_equivalence(checked, classes, i, j, fj);
    connected_equivalence(checked, classes, fj, fi, fi);
    connected_equivalence(checked, classes, fi, fj, fj);
    connected_equivalence(checked, classes, j, fj, fi);
    connected_equivalence(checked, classes, j, fj, i);
    connected_equivalence(checked, classes, i, fi, j);
    let n = checked.elements@.len() as int;
    if connected(checked, classes, i, j) {
        assert(connected(checked, classes, fi, fj));
        assert(connected(checked, classes, fj, fi));
        assert(fi == fj);
    } else {
        assert(fi != fj) by {
            if fi == fj {
                assert(connected(checked, classes, i, fj));
                connected_equivalence(checked, classes, i, fj, j);
                assert(connected(checked, classes, fj, j));
            }
        }
        member_first_in_channel(checked, classes, i, fi);
        member_first_in_channel(checked, classes, j, fj);
        if fi < fj {
            channels_monotone(checked, classes, fi, fj);
        } else {
            channels_monotone(checked, classes, fj, fi);
        }
        assert(is_first(checked, classes, fi));
        assert(is_first(checked, classes, fj));
        assert(r.row@[i] == Some(channels_before(checked, classes, fi) as usize));
        assert(r.row@[j] == Some(channels_before(checked, classes, fj) as usize));
    }
}

proof fn member_first_in_channel(
    checked: &CheckedNetlist,
    classes: Seq<Option<NetClass>>,
    i: int,
    first: int,
)
    requires
        0 <= i < checked.elements@.len(),
        in_channel(checked, classes, i),
        connected(checked, classes, i, first),
    ensures
        in_channel(checked, classes, first),
{
    let k = choose|k: int|
        0 <= k < checked.elements@.len() && k != i && #[trigger] connected(checked, classes, i, k);
    connected_equivalence(checked, classes, i, first, first);
    connected_equivalence(checked, classes, first, i, k);
    if first == k {
        assert(connected(checked, classes, first, i));
    } else {
        assert(connected(checked, classes, first, k));
    }
}

/// An element that shares only rails with the others is in no row.
pub proof fn rails_join_nothing(
    checked: &CheckedNetlist,
    classes: Seq<Option<NetClass>>,
    r: Rows,
    i: int,
)
    requires
        rows_of(checked, classes, r),
        0 <= i < checked.elements@.len(),
        forall|j: int|
            0 <= j < checked.elements@.len() && j != i ==> !#[trigger] linked(
                checked,
                classes,
                i,
                j,
            ),
    ensures
        r.row@[i] is None,
{
    assert(!in_channel(checked, classes, i)) by {
        if in_channel(checked, classes, i) {
            let k = choose|k: int|
                0 <= k < checked.elements@.len() && k != i && #[trigger] connected(
                    checked,
                    classes,
                    i,
                    k,
                );
            let prop = |x: int| x == i;
            assert forall|x: int, y: int| prop(x) && #[trigger] link_rel(checked, classes)(
                x,
                y,
            ) implies prop(y) by {
                assert(linked(checked, classes, x, y));
            }
            reach_preserves(link_rel(checked, classes), prop, i, k);
        }
    }
}

/// Without row structure every element keeps its own vertical target.
pub proof fn trivial_rows_are_inert(
    checked: &CheckedNetlist,
    classes: Seq<Option<NetClass>>,
    r: Rows,
    band: Band,
    sixths: int,
    i: int,
)
    requires
        rows_of(checked, classes, r),
        r.count <= 1,
        0 <= i < checked.elements@.len(),
    ensures
        adjusted_frac(band, sixths, r.row@[i], r.count as int) == (sixths, 6int),
{
}

/// Rows slice the span in order: a target in row `a` is above every target in
/// a later row `b` and stays within the sheet.
pub proof fn rows_slice_the_span(
    a: usize,
    b: usize,
    count: usize,
    sixths_a: int,
    sixths_b: int,
)
    requires
        a < b < count,
        0 <= sixths_a <= 6,
        0 <= sixths_b <= 6,
    ensures
        ({
            let (na, da) = adjusted_frac(Band::Mid, sixths_a, Some(a), count as int);
            let (nb, db) = adjusted_frac(Band::Mid, sixths_b, Some(b), count as int);
            da == db && 0 <= na <= nb <= db
        }),
{
}

/// Elements on one signal net are in one row, and an element with none of its
/// nets on another element but supplies and ground is in no row.
pub proof fn signal_nets_hold_rows_together(
    checked: &CheckedNetlist,
    classes: Seq<Option<NetClass>>,
    r: Rows,
    i: int,
    j: int,
    a: int,
    b: int,
)
    requires
        rows_of(checked, classes, r),
        0 <= i < checked.elements@.len(),
        0 <= j < checked.elements@.len(),
        i != j,
        0 <= a < checked.elements@[i].nodes@.len(),
        0 <= b < checked.elements@[j].nodes@.len(),
        checked.elements@[i].nodes@[a] == checked.elements@[j].nodes@[b],
        classes[checked.elements@[i].nodes@[a] as int] != Some(NetClass::Power),
        classes[checked.elements@[i].nodes@[a] as int] != Some(NetClass::Ground),
    ensures
        r.row@[i] == r.row@[j],
        r.count > 1 ==> r.row@[i] is Some,
{
    assert(linked(checked, classes, i, j));
    let rel = link_rel(checked, classes);
    assert(rel(i, j));
    crate::graph::reach_edge(rel, i, j);
    connected_equivalence(checked, classes, i, j, i);
    assert(connected(checked, classes, i, j) && connected(checked, classes, j, i));
    assert(in_channel(checked, classes, i) && in_channel(checked, classes, j));
    if r.count > 1 {
        same_row_iff_connected(checked, classes, r, i, j);
        let first = first_exists(checked, classes, i);
        assert(r.row@[i] is Some);
    }
}

/// Where there are rows, an element is in one of them exactly when it shares a
/// signal net with another element.
pub proof fn lone_elements_are_in_no_row(
    checked: &CheckedNetlist,
    classes: Seq<Option<NetClass>>,
    r: Rows,
    i: int,
)
    requires
        rows_of(checked, classes, r),
        0 <= i < checked.elements@.len(),
        forall|a: int, j: int, b: int|
            #![trigger checked.elements@[i].nodes@[a], checked.elements@[j].nodes@[b]]
            0 <= a < checked.elements@[i].nodes@.len() && 0 <= j < checked.elements@.len() && j != i
                && 0 <= b < checked.elements@[j].nodes@.len() && checked.elements@[i].nodes@[a]
                == checked.elements@[j].nodes@[b] ==> classes[checked.elements@[i].nodes@[a] as int]
                == Some(NetClass::Power) || classes[checked.elements@[i].nodes@[a] as int] == Some(
                NetClass::Ground,
            ),
    ensures
        r.row@[i] is None,
{
    rails_join_nothing(checked, classes, r, i);
}

/// The channel whose first element comes first is the upper row, and rows are
/// numbered from zero.
pub proof fn rows_follow_the_netlist(
    checked: &CheckedNetlist,
    classes: Seq<Option<NetClass>>,
    r: Rows,
    i: int,
    j: int,
)
    requires
        rows_of(checked, classes, r),
        r.count > 1,
        0 <= i < j < checked.elements@.len(),
        in_channel(checked, classes, i),
        in_channel(checked, classes, j),
        is_first(checked, classes, i),
        is_first(checked, classes, j),
    ensures
        r.row@[i] matches Some(x) && r.row@[j] matches Some(y) && x < y < r.count,
        (forall|k: int| 0 <= k < i ==> !#[trigger] in_channel(checked, classes, k)) ==> r.row@[i]
            == Some(0usize),
{
    connected_equivalence(checked, classes, i, i, i);
    connected_equivalence(checked, classes, j, j, j);
    channels_monotone(checked, classes, i, j);
    assert(r.row@[i] == Some(channels_before(checked, classes, i) as usize));
    assert(r.row@[j] == Some(channels_before(checked, classes, j) as usize));
    if forall|k: int| 0 <= k < i ==> !#[trigger] in_channel(checked, classes, k) {
        no_channels_before(checked, classes, i);
    }
}

proof fn no_channels_before(checked: &CheckedNetlist, classes: Seq<Option<NetClass>>, n: int)
    requires
        forall|k: int| 0 <= k < n ==> !#[trigger] in_channel(checked, classes, k),
    ensures
        channels_before(checked, classes, n) == 0,
    decreases n,
{
    if n > 0 {
        no_channels_before(checked, classes, n - 1);
    }
}

/// With rows, a middle target is moved into its row's slice of the sheet, a
/// sixth of the sheet becoming a sixth of the slice; targets at the rails stay.
pub proof fn rows_scale_their_targets(band: Band, sixths: int, row: usize, count: int)
    requires
        count > 1,
        row < count,
    ensures
        ({
            let (n, d) = adjusted_frac(band, sixths, Some(row), count);
            if band == Band::Mid {
                d == count * 6 && n - row * 6 == sixths
            } else {
                (n, d) == (sixths, 6int)
            }
        }),
{
}

} // verus!
