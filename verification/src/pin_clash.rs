//! Pins of different nets that land on one another.
//!
//! Coincident pins are joined electrically, so two pins of different nets at
//! one position are a short. Passes that move elements count them before and
//! after. Supplies are not drawn, so their pins join nothing.

use vstd::prelude::*;

use crate::netlist::CheckedNetlist;
use crate::placement::Placement;
#[allow(unused_imports)]
use crate::placement::{Spot, MAX_COORD, MAX_ELEMENTS};
use crate::pose_pick::terminal_point;
#[allow(unused_imports)]
use crate::pose_pick::terminal_at;
#[allow(unused_imports)]
use crate::symbol::MAX_PINS;
#[allow(unused_imports)]
use crate::placement::places;

verus! {

/// The element is drawn.
pub open spec fn is_drawn(checked: &CheckedNetlist, i: int) -> bool {
    !checked.elements@[i].role.is_power()
}

/// Terminal `t` of element `i` and terminal `u` of element `j` are on
/// different nets and their pins are at one position.
pub open spec fn pins_clash(
    spots: Seq<Spot>,
    checked: &CheckedNetlist,
    i: int,
    t: int,
    j: int,
    u: int,
) -> bool {
    &&& checked.elements@[i].nodes@[t] != checked.elements@[j].nodes@[u]
    &&& terminal_at(spots[i], checked, i, t) is Some
    &&& terminal_at(spots[i], checked, i, t) == terminal_at(spots[j], checked, j, u)
}

/// The clashes of a terminal with the first `n` terminals of element `j`.
pub open spec fn clashes_with(
    spots: Seq<Spot>,
    checked: &CheckedNetlist,
    i: int,
    t: int,
    j: int,
    n: int,
) -> int
    decreases n,
{
    if n <= 0 {
        0
    } else {
        clashes_with(spots, checked, i, t, j, n - 1) + (if pins_clash(
            spots,
            checked,
            i,
            t,
            j,
            n - 1,
        ) {
            1int
        } else {
            0
        })
    }
}

/// The clashes of a terminal with the first `n` elements.
pub open spec fn clashes_below(
    spots: Seq<Spot>,
    checked: &CheckedNetlist,
    i: int,
    t: int,
    n: int,
) -> int
    decreases n,
{
    if n <= 0 {
        0
    } else {
        clashes_below(spots, checked, i, t, n - 1) + (if is_drawn(checked, n - 1) {
            clashes_with(
                spots,
                checked,
                i,
                t,
                n - 1,
                checked.elements@[n - 1].nodes@.len() as int,
            )
        } else {
            0
        })
    }
}

/// The clashes of the first `n` terminals of element `i` with the elements
/// before it.
pub open spec fn clashes_of(spots: Seq<Spot>, checked: &CheckedNetlist, i: int, n: int) -> int
    decreases n,
{
    if n <= 0 {
        0
    } else {
        clashes_of(spots, checked, i, n - 1) + clashes_below(spots, checked, i, n - 1, i)
    }
}

/// The clashes among the first `n` elements: pairs of pins of two elements, on
/// different nets and at one position.
pub open spec fn clash_total(spots: Seq<Spot>, checked: &CheckedNetlist, n: int) -> int
    decreases n,
{
    if n <= 0 {
        0
    } else {
        clash_total(spots, checked, n - 1) + (if is_drawn(checked, n - 1) {
            clashes_of(
                spots,
                checked,
                n - 1,
                checked.elements@[n - 1].nodes@.len() as int,
            )
        } else {
            0
        })
    }
}

/// The clashes of a layout.
pub open spec fn clashes(spots: Seq<Spot>, checked: &CheckedNetlist) -> int {
    clash_total(spots, checked, checked.elements@.len() as int)
}

proof fn clashes_with_bound(
    spots: Seq<Spot>,
    checked: &CheckedNetlist,
    i: int,
    t: int,
    j: int,
    n: int,
)
    requires
        0 <= n,
    ensures
        0 <= clashes_with(spots, checked, i, t, j, n) <= n,
    decreases n,
{
    if n > 0 {
        clashes_with_bound(spots, checked, i, t, j, n - 1);
    }
}

proof fn clashes_below_bound(
    spots: Seq<Spot>,
    checked: &CheckedNetlist,
    i: int,
    t: int,
    n: int,
)
    requires
        checked.drawable(),
        0 <= n <= checked.elements@.len(),
    ensures
        0 <= clashes_below(spots, checked, i, t, n) <= n * MAX_PINS,
    decreases n,
{
    if n > 0 {
        clashes_below_bound(spots, checked, i, t, n - 1);
        assert(checked.elements@[n - 1].symbol.wf());
        clashes_with_bound(
            spots,
            checked,
            i,
            t,
            n - 1,
            checked.elements@[n - 1].nodes@.len() as int,
        );
    }
}

/// The clashes that one terminal can have.
spec fn terminal_limit() -> int {
    MAX_ELEMENTS * MAX_PINS
}

proof fn clashes_of_bound(spots: Seq<Spot>, checked: &CheckedNetlist, i: int, n: int)
    requires
        checked.drawable(),
        0 <= i < checked.elements@.len(),
        0 <= n <= MAX_PINS,
    ensures
        0 <= clashes_of(spots, checked, i, n) <= n * terminal_limit(),
    decreases n,
{
    if n > 0 {
        clashes_of_bound(spots, checked, i, n - 1);
        clashes_below_bound(spots, checked, i, n - 1, i);
        assert(n * terminal_limit() == (n - 1) * terminal_limit() + terminal_limit())
            by (nonlinear_arith);
    }
}

proof fn clash_total_bound(spots: Seq<Spot>, checked: &CheckedNetlist, n: int)
    requires
        checked.drawable(),
        0 <= n <= checked.elements@.len(),
    ensures
        0 <= clash_total(spots, checked, n) <= n * (MAX_PINS * terminal_limit()),
    decreases n,
{
    if n > 0 {
        clash_total_bound(spots, checked, n - 1);
        assert(checked.elements@[n - 1].symbol.wf());
        let m = checked.elements@[n - 1].nodes@.len() as int;
        clashes_of_bound(spots, checked, n - 1, m);
        assert(m * terminal_limit() <= MAX_PINS * terminal_limit()) by (nonlinear_arith)
            requires
                m <= MAX_PINS,
                terminal_limit() >= 0,
        ;
        assert(n * (MAX_PINS * terminal_limit()) == (n - 1) * (MAX_PINS * terminal_limit())
            + MAX_PINS * terminal_limit()) by (nonlinear_arith);
    }
}

/// The clashes of one terminal with the elements before its own.
fn terminal_clashes(
    placement: &Placement,
    checked: &CheckedNetlist,
    i: usize,
    t: usize,
) -> (r: u128)
    requires
        checked.drawable(),
        placement.elements@.len() == checked.elements@.len(),
        i < checked.elements@.len(),
        t < checked.elements@[i as int].nodes@.len(),
        placement.within(MAX_COORD as int),
    ensures
        r == clashes_below(placement.spots(), checked, i as int, t as int, i as int),
        r <= MAX_ELEMENTS * MAX_PINS,
{
    let ghost spots = placement.spots();
    let here = terminal_point(placement, checked, i, placement.elements[i].orientation, t);
    let net: usize = checked.elements[i].nodes[t];
    let ghost place = terminal_at(spots[i as int], checked, i as int, t as int);
    assert(spots[i as int] == (Spot {
        origin: spots[i as int].origin,
        orientation: placement.elements@[i as int].orientation,
    }));
    let mut total: u128 = 0;
    let mut j: usize = 0;
    while j < i
        invariant
            j <= i,
            i < checked.elements@.len(),
            t < checked.elements@[i as int].nodes@.len(),
            checked.drawable(),
            placement.elements@.len() == checked.elements@.len(),
            placement.within(MAX_COORD as int),
            spots == placement.spots(),
            place == terminal_at(spots[i as int], checked, i as int, t as int),
            net == checked.elements@[i as int].nodes@[t as int],
            match here {
                Some(p) => place == Some((p.0 as int, p.1 as int)),
                None => place is None,
            },
            total == clashes_below(spots, checked, i as int, t as int, j as int),
            total <= j * MAX_PINS,
        decreases i - j,
    {
        if !checked.elements[j].role.power() {
            let nodes = &checked.elements[j].nodes;
            assert(checked.elements@[j as int].symbol.wf());
            let mut part: u128 = 0;
            let mut u: usize = 0;
            while u < nodes.len()
                invariant
                    u <= nodes@.len(),
                    j < i,
                    i < checked.elements@.len(),
                    t < checked.elements@[i as int].nodes@.len(),
                    nodes@ == checked.elements@[j as int].nodes@,
                    checked.drawable(),
                    placement.elements@.len() == checked.elements@.len(),
                    placement.within(MAX_COORD as int),
                    spots == placement.spots(),
                    place == terminal_at(spots[i as int], checked, i as int, t as int),
                    net == checked.elements@[i as int].nodes@[t as int],
                    match here {
                        Some(p) => place == Some((p.0 as int, p.1 as int)),
                        None => place is None,
                    },
                    part == clashes_with(
                        spots,
                        checked,
                        i as int,
                        t as int,
                        j as int,
                        u as int,
                    ),
                    part <= u,
                decreases nodes@.len() - u,
            {
                assert(spots[j as int] == (Spot {
                    origin: spots[j as int].origin,
                    orientation: placement.elements@[j as int].orientation,
                }));
                if nodes[u] != net {
                    let there = terminal_point(
                        placement,
                        checked,
                        j,
                        placement.elements[j].orientation,
                        u,
                    );
                    if let (Some(p), Some(q)) = (here, there) {
                        if p.0 == q.0 && p.1 == q.1 {
                            part = part + 1;
                        }
                    }
                }
                u = u + 1;
            }
            total = total + part;
        }
        j = j + 1;
    }
    total
}

/// How many pairs of pins of different nets are at one position.
pub fn foreign_pin_coincidences(placement: &Placement, checked: &CheckedNetlist) -> (r: u128)
    requires
        checked.drawable(),
        places(placement, checked),
        placement.within(MAX_COORD as int),
    ensures
        r == clashes(placement.spots(), checked),
{
    let ghost spots = placement.spots();
    let mut total: u128 = 0;
    let mut i: usize = 0;
    while i < checked.elements.len()
        invariant
            i <= checked.elements@.len(),
            checked.drawable(),
            placement.elements@.len() == checked.elements@.len(),
            placement.within(MAX_COORD as int),
            spots == placement.spots(),
            total == clash_total(spots, checked, i as int),
        decreases checked.elements@.len() - i,
    {
        proof {
            clash_total_bound(spots, checked, i as int);
            let w = MAX_PINS * terminal_limit();
            assert(i * w <= MAX_ELEMENTS * w) by (nonlinear_arith)
                requires
                    i <= MAX_ELEMENTS,
                    w >= 0,
            ;
            assert(checked.elements@[i as int].symbol.wf());
        }
        if !checked.elements[i].role.power() {
            let n: usize = checked.elements[i].nodes.len();
            let mut part: u128 = 0;
            let mut t: usize = 0;
            while t < n
                invariant
                    t <= n,
                    i < checked.elements@.len(),
                    n == checked.elements@[i as int].nodes@.len(),
                    n <= MAX_PINS,
                    checked.drawable(),
                    placement.elements@.len() == checked.elements@.len(),
                    placement.within(MAX_COORD as int),
                    spots == placement.spots(),
                    part == clashes_of(spots, checked, i as int, t as int),
                decreases n - t,
            {
                proof {
                    clashes_of_bound(spots, checked, i as int, t as int);
                    assert(t * terminal_limit() <= MAX_PINS * terminal_limit())
                        by (nonlinear_arith)
                        requires
                            t <= MAX_PINS,
                            terminal_limit() >= 0,
                    ;
                }
                part = part + terminal_clashes(placement, checked, i, t);
                t = t + 1;
            }
            proof {
                clashes_of_bound(spots, checked, i as int, t as int);
                assert(t * terminal_limit() <= MAX_PINS * terminal_limit()) by (nonlinear_arith)
                    requires
                        t <= MAX_PINS,
                        terminal_limit() >= 0,
                ;
            }
            total = total + part;
        }
        i = i + 1;
    }
    total
}

proof fn no_clash_with(
    spots: Seq<Spot>,
    checked: &CheckedNetlist,
    i: int,
    t: int,
    j: int,
    u: int,
    n: int,
)
    requires
        0 <= u < n,
        clashes_with(spots, checked, i, t, j, n) == 0,
    ensures
        !pins_clash(spots, checked, i, t, j, u),
    decreases n,
{
    clashes_with_bound(spots, checked, i, t, j, n - 1);
    if u < n - 1 {
        no_clash_with(spots, checked, i, t, j, u, n - 1);
    }
}

proof fn no_clash_below(
    spots: Seq<Spot>,
    checked: &CheckedNetlist,
    i: int,
    t: int,
    j: int,
    n: int,
)
    requires
        checked.drawable(),
        0 <= j < n <= checked.elements@.len(),
        is_drawn(checked, j),
        clashes_below(spots, checked, i, t, n) == 0,
    ensures
        clashes_with(spots, checked, i, t, j, checked.elements@[j].nodes@.len() as int) == 0,
    decreases n,
{
    clashes_below_bound(spots, checked, i, t, n - 1);
    clashes_with_bound(
        spots,
        checked,
        i,
        t,
        n - 1,
        checked.elements@[n - 1].nodes@.len() as int,
    );
    if j < n - 1 {
        no_clash_below(spots, checked, i, t, j, n - 1);
    }
}

proof fn no_clash_of(spots: Seq<Spot>, checked: &CheckedNetlist, i: int, t: int, n: int)
    requires
        checked.drawable(),
        0 <= i < checked.elements@.len(),
        0 <= t < n <= MAX_PINS,
        clashes_of(spots, checked, i, n) == 0,
    ensures
        clashes_below(spots, checked, i, t, i) == 0,
    decreases n,
{
    clashes_of_bound(spots, checked, i, n - 1);
    clashes_below_bound(spots, checked, i, n - 1, i);
    if t < n - 1 {
        no_clash_of(spots, checked, i, t, n - 1);
    }
}

proof fn no_clash_total(spots: Seq<Spot>, checked: &CheckedNetlist, i: int, n: int)
    requires
        checked.drawable(),
        0 <= i < n <= checked.elements@.len(),
        is_drawn(checked, i),
        clash_total(spots, checked, n) == 0,
    ensures
        clashes_of(spots, checked, i, checked.elements@[i].nodes@.len() as int) == 0,
    decreases n,
{
    clash_total_bound(spots, checked, n - 1);
    assert(checked.elements@[n - 1].symbol.wf());
    clashes_of_bound(spots, checked, n - 1, checked.elements@[n - 1].nodes@.len() as int);
    if i < n - 1 {
        no_clash_total(spots, checked, i, n - 1);
    }
}

/// A layout without clashes shorts nothing: pins of two drawn elements that
/// are at one position are on one net.
pub proof fn no_clashes_no_shorts(
    spots: Seq<Spot>,
    checked: &CheckedNetlist,
    i: int,
    t: int,
    j: int,
    u: int,
)
    requires
        checked.drawable(),
        clashes(spots, checked) == 0,
        0 <= j < i < checked.elements@.len(),
        is_drawn(checked, i),
        is_drawn(checked, j),
        0 <= t < checked.elements@[i].nodes@.len(),
        0 <= u < checked.elements@[j].nodes@.len(),
        terminal_at(spots[i], checked, i, t) is Some,
        terminal_at(spots[i], checked, i, t) == terminal_at(spots[j], checked, j, u),
    ensures
        checked.elements@[i].nodes@[t] == checked.elements@[j].nodes@[u],
{
    assert(checked.elements@[i].symbol.wf());
    no_clash_total(spots, checked, i, checked.elements@.len() as int);
    no_clash_of(spots, checked, i, t, checked.elements@[i].nodes@.len() as int);
    no_clash_below(spots, checked, i, t, j, i);
    no_clash_with(spots, checked, i, t, j, u, checked.elements@[j].nodes@.len() as int);
}

/// A layout that shorts nothing has no clashes: where no two drawn elements
/// have pins of different nets at one position, the count is zero.
pub proof fn no_shorts_no_clashes(spots: Seq<Spot>, checked: &CheckedNetlist)
    requires
        forall|i: int, t: int, j: int, u: int|
            #![trigger terminal_at(spots[i], checked, i, t), terminal_at(spots[j], checked, j, u)]
            0 <= j < i < checked.elements@.len() && checked.elements@[i].role is Normal
                && checked.elements@[j].role is Normal && 0 <= t < checked.elements@[i].nodes@.len()
                && 0 <= u < checked.elements@[j].nodes@.len() && terminal_at(
                spots[i],
                checked,
                i,
                t,
            ) is Some && terminal_at(spots[i], checked, i, t) == terminal_at(
                spots[j],
                checked,
                j,
                u,
            ) ==> checked.elements@[i].nodes@[t] == checked.elements@[j].nodes@[u],
    ensures
        clashes(spots, checked) == 0,
{
    assert forall|i: int, t: int, j: int, u: int|
        0 <= j < i < checked.elements@.len() && is_drawn(checked, i) && is_drawn(checked, j) && 0
            <= t < checked.elements@[i].nodes@.len() && 0 <= u
            < checked.elements@[j].nodes@.len() implies !#[trigger] pins_clash(
        spots,
        checked,
        i,
        t,
        j,
        u,
    ) by {
        let (a, b) = (
            terminal_at(spots[i], checked, i, t),
            terminal_at(spots[j], checked, j, u),
        );
        assert(checked.elements@[i].role is Normal && checked.elements@[j].role is Normal);
    }
    nothing_clashes(spots, checked, checked.elements@.len() as int);
}

proof fn nothing_clashes(spots: Seq<Spot>, checked: &CheckedNetlist, n: int)
    requires
        n <= checked.elements@.len(),
        forall|i: int, t: int, j: int, u: int|
            0 <= j < i < checked.elements@.len() && is_drawn(checked, i) && is_drawn(checked, j)
                && 0 <= t < checked.elements@[i].nodes@.len() && 0 <= u
                < checked.elements@[j].nodes@.len() ==> !#[trigger] pins_clash(
                spots,
                checked,
                i,
                t,
                j,
                u,
            ),
    ensures
        clash_total(spots, checked, n) == 0,
    decreases n,
{
    if n > 0 {
        nothing_clashes(spots, checked, n - 1);
        if is_drawn(checked, n - 1) {
            nothing_clashes_of(spots, checked, n - 1, checked.elements@[n - 1].nodes@.len() as int);
        }
    }
}

proof fn nothing_clashes_of(spots: Seq<Spot>, checked: &CheckedNetlist, i: int, n: int)
    requires
        0 <= i < checked.elements@.len(),
        is_drawn(checked, i),
        n <= checked.elements@[i].nodes@.len(),
        forall|t: int, j: int, u: int|
            0 <= j < i && is_drawn(checked, j) && 0 <= t < checked.elements@[i].nodes@.len() && 0
                <= u < checked.elements@[j].nodes@.len() ==> !#[trigger] pins_clash(
                spots,
                checked,
                i,
                t,
                j,
                u,
            ),
    ensures
        clashes_of(spots, checked, i, n) == 0,
    decreases n,
{
    if n > 0 {
        nothing_clashes_of(spots, checked, i, n - 1);
        nothing_clashes_below(spots, checked, i, n - 1, i);
    }
}

proof fn nothing_clashes_below(
    spots: Seq<Spot>,
    checked: &CheckedNetlist,
    i: int,
    t: int,
    n: int,
)
    requires
        n <= i,
        forall|j: int, u: int|
            0 <= j < i && is_drawn(checked, j) && 0 <= u < checked.elements@[j].nodes@.len()
                ==> !#[trigger] pins_clash(spots, checked, i, t, j, u),
    ensures
        clashes_below(spots, checked, i, t, n) == 0,
    decreases n,
{
    if n > 0 {
        nothing_clashes_below(spots, checked, i, t, n - 1);
        if is_drawn(checked, n - 1) {
            nothing_clashes_with(
                spots,
                checked,
                i,
                t,
                n - 1,
                checked.elements@[n - 1].nodes@.len() as int,
            );
        }
    }
}

proof fn nothing_clashes_with(
    spots: Seq<Spot>,
    checked: &CheckedNetlist,
    i: int,
    t: int,
    j: int,
    n: int,
)
    requires
        n <= checked.elements@[j].nodes@.len(),
        forall|u: int|
            0 <= u < checked.elements@[j].nodes@.len() ==> !#[trigger] pins_clash(
                spots,
                checked,
                i,
                t,
                j,
                u,
            ),
    ensures
        clashes_with(spots, checked, i, t, j, n) == 0,
    decreases n,
{
    if n > 0 {
        nothing_clashes_with(spots, checked, i, t, j, n - 1);
    }
}

} // verus!
