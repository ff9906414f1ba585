//! Compaction: columns are pulled tight, in order.
//!
//! A column is the elements with one X. Columns slide left as far as the
//! elements that have already settled allow, and stop where the most pins of
//! one net line up. Columns never swap, nothing moves right, and a column with
//! a pinned element stays. Only X is swept: the rows carry meaning.

use vstd::prelude::*;

#[allow(unused_imports)]
use crate::counting::count;
#[allow(unused_imports)]
use crate::extent::{ceil_steps, int_max, int_min, Bounds, EXTENT_LIMIT};
use crate::extent::{ceil_cells, world_extent_with_glyphs, WorldExtent};
use crate::legalize::CONTACT;
#[allow(unused_imports)]
use crate::legalize::{differ, moved_count, roomy, roomy_limited};
use crate::names::str_eq;
use crate::net_class::VertPref;
use crate::netlist::CheckedNetlist;
#[allow(unused_imports)]
use crate::netlist::nets_in_range;
use crate::pin_clash::foreign_pin_coincidences;
#[allow(unused_imports)]
use crate::pin_clash::{clashes, is_drawn};
use crate::placement::{put, GridPoint, Placement, GRID_STEP};
#[allow(unused_imports)]
use crate::placement::{
    same_parts, same_parts_trans, spots_within, Spot, MAX_COORD, MAX_ELEMENTS,
};
#[allow(unused_imports)]
use crate::symbol::{in_reach, MAX_PINS, MAX_REACH};
#[allow(unused_imports)]
use crate::placement::{moving_keeps_the_netlist, places};

verus! {

/// Sweeps over the columns. The second one picks up what the first has freed.
pub const SWEEPS: usize = 2;

// ---- Clearance ------------------------------------------------------------------

/// The room of an element. Supplies are not drawn and take up none.
pub open spec fn room(
    spots: Seq<Spot>,
    checked: &CheckedNetlist,
    prefs: Seq<Option<VertPref>>,
    i: int,
) -> Bounds {
    if is_drawn(checked, i) {
        roomy(spots, checked, prefs, i)
    } else {
        Bounds::origin()
    }
}

/// Two elements share rows, so that they could collide sideways. An element
/// without height collides with nothing.
pub open spec fn share_rows(a: Bounds, ay: int, b: Bounds, by: int) -> bool {
    let (a_lo, a_hi) = (ay * GRID_STEP + a.min_y, ay * GRID_STEP + a.max_y);
    let (b_lo, b_hi) = (by * GRID_STEP + b.min_y, by * GRID_STEP + b.max_y);
    &&& a_hi - a_lo >= CONTACT
    &&& b_hi - b_lo >= CONTACT
    &&& a_lo + CONTACT < b_hi
    &&& b_lo + CONTACT < a_hi
}

/// Elements `i` and `j` share rows as placed.
pub open spec fn spans_overlap(
    spots: Seq<Spot>,
    checked: &CheckedNetlist,
    prefs: Seq<Option<VertPref>>,
    i: int,
    j: int,
) -> bool {
    share_rows(
        room(spots, checked, prefs, i),
        spots[i].origin.y as int,
        room(spots, checked, prefs, j),
        spots[j].origin.y as int,
    )
}

/// The steps that the origin of `right` needs from the origin of `left`, for
/// their rooms not to intersect.
pub open spec fn steps_apart(
    spots: Seq<Spot>,
    checked: &CheckedNetlist,
    prefs: Seq<Option<VertPref>>,
    left: int,
    right: int,
) -> int {
    ceil_steps(
        room(spots, checked, prefs, left).max_x - room(spots, checked, prefs, right).min_x,
    )
}

/// The largest X left of `key` among the first `n` elements.
pub open spec fn last_left_of(spots: Seq<Spot>, key: int, n: int) -> Option<int>
    decreases n,
{
    if n <= 0 {
        None
    } else {
        let x = spots[n - 1].origin.x as int;
        match last_left_of(spots, key, n - 1) {
            Some(best) => Some(
                if x < key && x > best {
                    x
                } else {
                    best
                },
            ),
            None => if x < key {
                Some(x)
            } else {
                None
            },
        }
    }
}

/// `base`, or as far right as the first `n` elements left of `key` push
/// element `i`.
pub open spec fn pushed_by(
    spots: Seq<Spot>,
    checked: &CheckedNetlist,
    prefs: Seq<Option<VertPref>>,
    key: int,
    base: int,
    i: int,
    n: int,
) -> int
    decreases n,
{
    if n <= 0 {
        base
    } else {
        let rest = pushed_by(spots, checked, prefs, key, base, i, n - 1);
        let j = n - 1;
        if spots[j].origin.x < key && spans_overlap(spots, checked, prefs, i, j) {
            int_max(rest, spots[j].origin.x + steps_apart(spots, checked, prefs, j, i))
        } else {
            rest
        }
    }
}

/// `base`, or as far right as those of the first `n` elements that are in the
/// column are pushed.
pub open spec fn column_floor(
    spots: Seq<Spot>,
    checked: &CheckedNetlist,
    prefs: Seq<Option<VertPref>>,
    key: int,
    base: int,
    n: int,
) -> int
    decreases n,
{
    if n <= 0 {
        base
    } else {
        let rest = column_floor(spots, checked, prefs, key, base, n - 1);
        if spots[n - 1].origin.x == key {
            pushed_by(spots, checked, prefs, key, rest, n - 1, spots.len() as int)
        } else {
            rest
        }
    }
}

// ---- Alignment ------------------------------------------------------------------

/// Terminal `t` is drawn as a wire: its element is drawn and its net is no
/// rail.
pub open spec fn is_wired(
    checked: &CheckedNetlist,
    prefs: Seq<Option<VertPref>>,
    i: int,
    t: int,
) -> bool {
    let net = checked.elements@[i].nodes@[t] as int;
    is_drawn(checked, i) && !checked.is_reference(net) && prefs[net] is None
}

/// The sideways offset of a wired terminal's pin.
pub open spec fn wire_offset(
    spots: Seq<Spot>,
    checked: &CheckedNetlist,
    prefs: Seq<Option<VertPref>>,
    i: int,
    t: int,
) -> Option<int> {
    if !is_wired(checked, prefs, i, t) {
        None
    } else {
        match checked.elements@[i].pin_of(spots[i].orientation, t) {
            Some(k) => Some(
                checked.elements@[i].symbol.posed(spots[i].orientation).pins@[k].x as int,
            ),
            None => None,
        }
    }
}

/// With its column at `cand`, terminal `t` of element `i` is in line with
/// terminal `u` of element `j`.
pub open spec fn in_line(
    spots: Seq<Spot>,
    checked: &CheckedNetlist,
    prefs: Seq<Option<VertPref>>,
    cand: int,
    i: int,
    t: int,
    j: int,
    u: int,
) -> bool {
    &&& checked.elements@[i].nodes@[t] == checked.elements@[j].nodes@[u]
    &&& wire_offset(spots, checked, prefs, i, t) matches Some(a)
    &&& wire_offset(spots, checked, prefs, j, u) matches Some(b)
    &&& cand * GRID_STEP + a == spots[j].origin.x * GRID_STEP + b
}

/// The first `n` terminals of element `j` in line with a terminal.
pub open spec fn lined_terminals(
    spots: Seq<Spot>,
    checked: &CheckedNetlist,
    prefs: Seq<Option<VertPref>>,
    cand: int,
    i: int,
    t: int,
    j: int,
    n: int,
) -> int
    decreases n,
{
    if n <= 0 {
        0
    } else {
        lined_terminals(spots, checked, prefs, cand, i, t, j, n - 1) + (if in_line(
            spots,
            checked,
            prefs,
            cand,
            i,
            t,
            j,
            n - 1,
        ) {
            1int
        } else {
            0
        })
    }
}

/// The terminals of those of the first `n` elements left of `key` that are in
/// line with a terminal.
pub open spec fn lined_elements(
    spots: Seq<Spot>,
    checked: &CheckedNetlist,
    prefs: Seq<Option<VertPref>>,
    key: int,
    cand: int,
    i: int,
    t: int,
    n: int,
) -> int
    decreases n,
{
    if n <= 0 {
        0
    } else {
        lined_elements(spots, checked, prefs, key, cand, i, t, n - 1) + (if spots[n - 1].origin.x
            < key {
            lined_terminals(
                spots,
                checked,
                prefs,
                cand,
                i,
                t,
                n - 1,
                checked.elements@[n - 1].nodes@.len() as int,
            )
        } else {
            0
        })
    }
}

/// The pairs in line through the first `n` terminals of element `i`.
pub open spec fn element_score(
    spots: Seq<Spot>,
    checked: &CheckedNetlist,
    prefs: Seq<Option<VertPref>>,
    key: int,
    cand: int,
    i: int,
    n: int,
) -> int
    decreases n,
{
    if n <= 0 {
        0
    } else {
        element_score(spots, checked, prefs, key, cand, i, n - 1) + lined_elements(
            spots,
            checked,
            prefs,
            key,
            cand,
            i,
            n - 1,
            spots.len() as int,
        )
    }
}

/// The pairs of pins of one net that would line up with the column at `cand`,
/// through its members among the first `n` elements.
pub open spec fn column_score(
    spots: Seq<Spot>,
    checked: &CheckedNetlist,
    prefs: Seq<Option<VertPref>>,
    key: int,
    cand: int,
    n: int,
) -> int
    decreases n,
{
    if n <= 0 {
        0
    } else {
        column_score(spots, checked, prefs, key, cand, n - 1) + (if spots[n - 1].origin.x == key {
            element_score(
                spots,
                checked,
                prefs,
                key,
                cand,
                n - 1,
                checked.elements@[n - 1].nodes@.len() as int,
            )
        } else {
            0
        })
    }
}

// ---- Sweeping -------------------------------------------------------------------

/// The spots with the column at `key` moved to `cand`.
pub open spec fn column_at(spots: Seq<Spot>, key: int, cand: int) -> Seq<Spot> {
    Seq::new(
        spots.len(),
        |i: int|
            if spots[i].origin.x == key {
                Spot {
                    origin: GridPoint { x: cand as i32, y: spots[i].origin.y },
                    orientation: spots[i].orientation,
                }
            } else {
                spots[i]
            },
    )
}

/// With the column at `cand`, no more pins are shorted than now.
pub open spec fn is_safe(spots: Seq<Spot>, checked: &CheckedNetlist, key: int, cand: int) -> bool {
    clashes(column_at(spots, key, cand), checked) <= clashes(spots, checked)
}

/// The best of the first `n` safe places from `lower` on: the most pins in
/// line, then the tightest.
pub open spec fn best_place(
    spots: Seq<Spot>,
    checked: &CheckedNetlist,
    prefs: Seq<Option<VertPref>>,
    key: int,
    lower: int,
    n: int,
) -> Option<int>
    decreases n,
{
    if n <= 0 {
        None
    } else {
        let cand = lower + n - 1;
        let rest = best_place(spots, checked, prefs, key, lower, n - 1);
        if !is_safe(spots, checked, key, cand) {
            rest
        } else {
            match rest {
                None => Some(cand),
                Some(b) => if column_score(
                    spots,
                    checked,
                    prefs,
                    key,
                    cand,
                    spots.len() as int,
                ) > column_score(spots, checked, prefs, key, b, spots.len() as int) {
                    Some(cand)
                } else {
                    Some(b)
                },
            }
        }
    }
}

/// An element of the column is pinned.
pub open spec fn is_frozen(spots: Seq<Spot>, pinned: Seq<bool>, key: int) -> bool {
    exists|i: int| 0 <= i < spots.len() && (#[trigger] spots[i]).origin.x == key && pinned[i]
}

/// Where the column goes: a frozen one and the first one stay.
pub open spec fn new_place(
    spots: Seq<Spot>,
    checked: &CheckedNetlist,
    prefs: Seq<Option<VertPref>>,
    pinned: Seq<bool>,
    key: int,
) -> int {
    match last_left_of(spots, key, spots.len() as int) {
        None => key,
        Some(edge) => if is_frozen(spots, pinned, key) {
            key
        } else {
            let lower = int_min(
                column_floor(spots, checked, prefs, key, edge, spots.len() as int),
                key,
            );
            match best_place(spots, checked, prefs, key, lower, key - lower + 1) {
                Some(c) => c,
                None => key,
            }
        },
    }
}

/// The smallest X right of `key` among the first `n` elements.
pub open spec fn next_right_of(spots: Seq<Spot>, key: int, n: int) -> Option<int>
    decreases n,
{
    if n <= 0 {
        None
    } else {
        let x = spots[n - 1].origin.x as int;
        match next_right_of(spots, key, n - 1) {
            Some(best) => Some(
                if x > key && x < best {
                    x
                } else {
                    best
                },
            ),
            None => if x > key {
                Some(x)
            } else {
                None
            },
        }
    }
}

/// The spots after the turns of the next `k` columns right of `key`, from left
/// to right.
pub open spec fn columns_pulled(
    spots: Seq<Spot>,
    checked: &CheckedNetlist,
    prefs: Seq<Option<VertPref>>,
    pinned: Seq<bool>,
    key: int,
    k: nat,
) -> Seq<Spot>
    decreases k,
{
    if k == 0 {
        spots
    } else {
        match next_right_of(spots, key, spots.len() as int) {
            None => spots,
            Some(x) => columns_pulled(
                column_at(spots, x, new_place(spots, checked, prefs, pinned, x)),
                checked,
                prefs,
                pinned,
                x,
                (k - 1) as nat,
            ),
        }
    }
}

/// The spots after one sweep. There are at most as many columns as elements.
pub open spec fn swept(
    spots: Seq<Spot>,
    checked: &CheckedNetlist,
    prefs: Seq<Option<VertPref>>,
    pinned: Seq<bool>,
) -> Seq<Spot> {
    columns_pulled(spots, checked, prefs, pinned, i32::MIN - 1, spots.len())
}

/// The spots after `k` sweeps.
pub open spec fn compacted(
    spots: Seq<Spot>,
    checked: &CheckedNetlist,
    prefs: Seq<Option<VertPref>>,
    pinned: Seq<bool>,
    k: nat,
) -> Seq<Spot>
    decreases k,
{
    if k == 0 {
        spots
    } else {
        swept(
            compacted(spots, checked, prefs, pinned, (k - 1) as nat),
            checked,
            prefs,
            pinned,
        )
    }
}

// ---- What compaction keeps ------------------------------------------------------

/// What compaction guarantees from `a` to `b`: rows, poses and pinned elements
/// stay, nothing moves right, and no two elements change sides.
pub open spec fn only_pulled(a: Seq<Spot>, b: Seq<Spot>, pinned: Seq<bool>) -> bool {
    &&& a.len() == b.len()
    &&& forall|i: int|
        0 <= i < a.len() ==> {
            &&& (#[trigger] b[i]).orientation == a[i].orientation
            &&& b[i].origin.y == a[i].origin.y
            &&& b[i].origin.x <= a[i].origin.x
            &&& pinned[i] ==> b[i] == a[i]
        }
    &&& forall|i: int, j: int|
        0 <= i < a.len() && 0 <= j < a.len() && a[i].origin.x <= a[j].origin.x ==> (
        #[trigger] b[i]).origin.x <= (#[trigger] b[j]).origin.x
}

proof fn pulls_compose(a: Seq<Spot>, b: Seq<Spot>, c: Seq<Spot>, pinned: Seq<bool>)
    requires
        only_pulled(a, b, pinned),
        only_pulled(b, c, pinned),
    ensures
        only_pulled(a, c, pinned),
{
    assert forall|i: int| 0 <= i < a.len() implies {
        &&& (#[trigger] c[i]).orientation == a[i].orientation
        &&& c[i].origin.y == a[i].origin.y
        &&& c[i].origin.x <= a[i].origin.x
        &&& pinned[i] ==> c[i] == a[i]
    } by {
        assert(b[i].orientation == a[i].orientation);
    }
    assert forall|i: int, j: int|
        0 <= i < a.len() && 0 <= j < a.len() && a[i].origin.x <= a[j].origin.x implies (
    #[trigger] c[i]).origin.x <= (#[trigger] c[j]).origin.x by {
        assert(b[i].origin.x <= b[j].origin.x);
    }
}

proof fn last_left_is_largest(spots: Seq<Spot>, key: int, n: int)
    requires
        0 <= n <= spots.len(),
    ensures
        match last_left_of(spots, key, n) {
            Some(e) => {
                &&& e < key
                &&& exists|j: int| 0 <= j < n && (#[trigger] spots[j]).origin.x == e
                &&& forall|j: int|
                    0 <= j < n && (#[trigger] spots[j]).origin.x < key ==> spots[j].origin.x <= e
            },
            None => forall|j: int| 0 <= j < n ==> (#[trigger] spots[j]).origin.x >= key,
        },
    decreases n,
{
    if n > 0 {
        last_left_is_largest(spots, key, n - 1);
        match last_left_of(spots, key, n - 1) {
            Some(e) => {
                let j = choose|j: int| 0 <= j < n - 1 && (#[trigger] spots[j]).origin.x == e;
                assert(spots[j].origin.x == e);
            },
            None => {},
        }
        assert(spots[n - 1].origin.x == spots[n - 1].origin.x as int);
    }
}

proof fn next_right_is_least(spots: Seq<Spot>, key: int, n: int)
    requires
        0 <= n <= spots.len(),
    ensures
        match next_right_of(spots, key, n) {
            Some(e) => {
                &&& e > key
                &&& exists|j: int| 0 <= j < n && (#[trigger] spots[j]).origin.x == e
                &&& forall|j: int|
                    0 <= j < n && (#[trigger] spots[j]).origin.x > key ==> spots[j].origin.x >= e
            },
            None => forall|j: int| 0 <= j < n ==> (#[trigger] spots[j]).origin.x <= key,
        },
    decreases n,
{
    if n > 0 {
        next_right_is_least(spots, key, n - 1);
        match next_right_of(spots, key, n - 1) {
            Some(e) => {
                let j = choose|j: int| 0 <= j < n - 1 && (#[trigger] spots[j]).origin.x == e;
                assert(spots[j].origin.x == e);
            },
            None => {},
        }
        assert(spots[n - 1].origin.x == spots[n - 1].origin.x as int);
    }
}

proof fn pushed_is_at_least(
    spots: Seq<Spot>,
    checked: &CheckedNetlist,
    prefs: Seq<Option<VertPref>>,
    key: int,
    base: int,
    i: int,
    n: int,
)
    ensures
        pushed_by(spots, checked, prefs, key, base, i, n) >= base,
    decreases n,
{
    if n > 0 {
        pushed_is_at_least(spots, checked, prefs, key, base, i, n - 1);
    }
}

proof fn floor_is_at_least(
    spots: Seq<Spot>,
    checked: &CheckedNetlist,
    prefs: Seq<Option<VertPref>>,
    key: int,
    base: int,
    n: int,
)
    ensures
        column_floor(spots, checked, prefs, key, base, n) >= base,
    decreases n,
{
    if n > 0 {
        floor_is_at_least(spots, checked, prefs, key, base, n - 1);
        let rest = column_floor(spots, checked, prefs, key, base, n - 1);
        pushed_is_at_least(spots, checked, prefs, key, rest, n - 1, spots.len() as int);
    }
}

proof fn best_place_is_best(
    spots: Seq<Spot>,
    checked: &CheckedNetlist,
    prefs: Seq<Option<VertPref>>,
    key: int,
    lower: int,
    n: int,
)
    requires
        0 <= n,
    ensures
        match best_place(spots, checked, prefs, key, lower, n) {
            Some(c) => {
                &&& lower <= c < lower + n
                &&& is_safe(spots, checked, key, c)
                &&& forall|d: int|
                    lower <= d < lower + n && #[trigger] is_safe(spots, checked, key, d) ==> {
                        let (sc, sd) = (
                            column_score(spots, checked, prefs, key, c, spots.len() as int),
                            column_score(spots, checked, prefs, key, d, spots.len() as int),
                        );
                        sd < sc || (sd == sc && c <= d)
                    }
            },
            None => forall|d: int|
                lower <= d < lower + n ==> !(#[trigger] is_safe(spots, checked, key, d)),
        },
    decreases n,
{
    if n > 0 {
        best_place_is_best(spots, checked, prefs, key, lower, n - 1);
    }
}

/// A column goes to a place between the column before it and where it is.
proof fn new_place_in_window(
    spots: Seq<Spot>,
    checked: &CheckedNetlist,
    prefs: Seq<Option<VertPref>>,
    pinned: Seq<bool>,
    key: int,
)
    ensures
        new_place(spots, checked, prefs, pinned, key) <= key,
        last_left_of(spots, key, spots.len() as int) matches Some(e) ==> new_place(
            spots,
            checked,
            prefs,
            pinned,
            key,
        ) >= e,
        is_frozen(spots, pinned, key) ==> new_place(spots, checked, prefs, pinned, key) == key,
        last_left_of(spots, key, spots.len() as int) is None ==> new_place(
            spots,
            checked,
            prefs,
            pinned,
            key,
        ) == key,
        is_safe(spots, checked, key, new_place(spots, checked, prefs, pinned, key)),
{
    last_left_is_largest(spots, key, spots.len() as int);
    match last_left_of(spots, key, spots.len() as int) {
        None => {},
        Some(edge) => {
            floor_is_at_least(spots, checked, prefs, key, edge, spots.len() as int);
            let lower = int_min(
                column_floor(spots, checked, prefs, key, edge, spots.len() as int),
                key,
            );
            best_place_is_best(spots, checked, prefs, key, lower, key - lower + 1);
        },
    }
    if new_place(spots, checked, prefs, pinned, key) == key {
        assert(column_at(spots, key, key) =~= spots) by {
            assert forall|i: int| 0 <= i < spots.len() implies column_at(spots, key, key)[i]
                == spots[i] by {
                if spots[i].origin.x == key {
                    assert(column_at(spots, key, key)[i].origin == spots[i].origin);
                }
            }
        }
    }
}

proof fn column_turn_pulls(
    spots: Seq<Spot>,
    checked: &CheckedNetlist,
    prefs: Seq<Option<VertPref>>,
    pinned: Seq<bool>,
    key: int,
    limit: int,
)
    requires
        i32::MIN <= key <= i32::MAX,
        spots_within(spots, limit),
        0 <= limit <= i32::MAX,
    ensures
        ({
            let after = column_at(spots, key, new_place(spots, checked, prefs, pinned, key));
            &&& only_pulled(spots, after, pinned)
            &&& spots_within(after, limit)
            &&& clashes(after, checked) <= clashes(spots, checked)
        }),
{
    new_place_in_window(spots, checked, prefs, pinned, key);
    last_left_is_largest(spots, key, spots.len() as int);
    let c = new_place(spots, checked, prefs, pinned, key);
    let after = column_at(spots, key, c);
    match last_left_of(spots, key, spots.len() as int) {
        Some(e) => {
            let j = choose|j: int| 0 <= j < spots.len() && (#[trigger] spots[j]).origin.x == e;
            assert(spots[j].origin.within(limit));
        },
        None => {},
    }
    assert forall|i: int| 0 <= i < spots.len() implies {
        &&& (#[trigger] after[i]).orientation == spots[i].orientation
        &&& after[i].origin.y == spots[i].origin.y
        &&& after[i].origin.x <= spots[i].origin.x
        &&& pinned[i] ==> after[i] == spots[i]
        &&& after[i].origin.within(limit)
    } by {
        assert(spots[i].origin.within(limit));
        if pinned[i] && spots[i].origin.x == key {
            assert(is_frozen(spots, pinned, key));
            assert(after[i].origin == spots[i].origin);
        }
    }
    assert forall|i: int, j: int|
        0 <= i < spots.len() && 0 <= j < spots.len() && spots[i].origin.x
            <= spots[j].origin.x implies (#[trigger] after[i]).origin.x <= (
    #[trigger] after[j]).origin.x by {
        assert(spots[i].origin.within(limit));
        assert(spots[j].origin.within(limit));
    }
}

proof fn columns_are_pulled(
    spots: Seq<Spot>,
    checked: &CheckedNetlist,
    prefs: Seq<Option<VertPref>>,
    pinned: Seq<bool>,
    key: int,
    k: nat,
    limit: int,
)
    requires
        spots_within(spots, limit),
        0 <= limit <= i32::MAX,
    ensures
        ({
            let after = columns_pulled(spots, checked, prefs, pinned, key, k);
            &&& only_pulled(spots, after, pinned)
            &&& spots_within(after, limit)
            &&& clashes(after, checked) <= clashes(spots, checked)
        }),
    decreases k,
{
    if k > 0 {
        next_right_is_least(spots, key, spots.len() as int);
        match next_right_of(spots, key, spots.len() as int) {
            None => {},
            Some(x) => {
                let next = column_at(spots, x, new_place(spots, checked, prefs, pinned, x));
                column_turn_pulls(spots, checked, prefs, pinned, x, limit);
                columns_are_pulled(next, checked, prefs, pinned, x, (k - 1) as nat, limit);
                pulls_compose(
                    spots,
                    next,
                    columns_pulled(spots, checked, prefs, pinned, key, k),
                    pinned,
                );
            },
        }
    }
}

/// Compaction keeps the reading order, the rows, the poses and the pinned
/// elements, moves nothing to the right, and shorts no pins.
pub proof fn compacting_keeps_order(
    spots: Seq<Spot>,
    checked: &CheckedNetlist,
    prefs: Seq<Option<VertPref>>,
    pinned: Seq<bool>,
    k: nat,
    limit: int,
)
    requires
        spots_within(spots, limit),
        0 <= limit <= i32::MAX,
    ensures
        ({
            let after = compacted(spots, checked, prefs, pinned, k);
            &&& only_pulled(spots, after, pinned)
            &&& spots_within(after, limit)
            &&& clashes(after, checked) <= clashes(spots, checked)
        }),
    decreases k,
{
    if k > 0 {
        compacting_keeps_order(spots, checked, prefs, pinned, (k - 1) as nat, limit);
        let before = compacted(spots, checked, prefs, pinned, (k - 1) as nat);
        columns_are_pulled(
            before,
            checked,
            prefs,
            pinned,
            i32::MIN - 1,
            before.len(),
            limit,
        );
        pulls_compose(spots, before, compacted(spots, checked, prefs, pinned, k), pinned);
    }
}

// ---- Clearances -----------------------------------------------------------------

/// No two elements that share rows come closer than they may, or than they were.
pub open spec fn clear_kept(
    a: Seq<Spot>,
    b: Seq<Spot>,
    checked: &CheckedNetlist,
    prefs: Seq<Option<VertPref>>,
) -> bool {
    forall|i: int, j: int|
        #![trigger spans_overlap(a, checked, prefs, i, j)]
        0 <= i < a.len() && 0 <= j < a.len() && a[j].origin.x < a[i].origin.x && spans_overlap(
            a,
            checked,
            prefs,
            i,
            j,
        ) ==> b[i].origin.x - b[j].origin.x >= int_min(
            steps_apart(a, checked, prefs, j, i),
            a[i].origin.x - a[j].origin.x,
        )
}

proof fn pushed_clears(
    spots: Seq<Spot>,
    checked: &CheckedNetlist,
    prefs: Seq<Option<VertPref>>,
    key: int,
    base: int,
    i: int,
    j: int,
    n: int,
)
    requires
        0 <= j < n,
        spots[j].origin.x < key,
        spans_overlap(spots, checked, prefs, i, j),
    ensures
        pushed_by(spots, checked, prefs, key, base, i, n) >= spots[j].origin.x + steps_apart(
            spots,
            checked,
            prefs,
            j,
            i,
        ),
    decreases n,
{
    if j < n - 1 {
        pushed_clears(spots, checked, prefs, key, base, i, j, n - 1);
    }
}

proof fn floor_clears(
    spots: Seq<Spot>,
    checked: &CheckedNetlist,
    prefs: Seq<Option<VertPref>>,
    key: int,
    base: int,
    i: int,
    j: int,
    n: int,
)
    requires
        0 <= i < n,
        0 <= j < spots.len(),
        spots[i].origin.x == key,
        spots[j].origin.x < key,
        spans_overlap(spots, checked, prefs, i, j),
    ensures
        column_floor(spots, checked, prefs, key, base, n) >= spots[j].origin.x + steps_apart(
            spots,
            checked,
            prefs,
            j,
            i,
        ),
    decreases n,
{
    let rest = column_floor(spots, checked, prefs, key, base, n - 1);
    if i < n - 1 {
        floor_clears(spots, checked, prefs, key, base, i, j, n - 1);
        pushed_is_at_least(spots, checked, prefs, key, rest, n - 1, spots.len() as int);
    } else {
        pushed_clears(spots, checked, prefs, key, rest, i, j, spots.len() as int);
    }
}

proof fn column_turn_keeps_clear(
    spots: Seq<Spot>,
    checked: &CheckedNetlist,
    prefs: Seq<Option<VertPref>>,
    pinned: Seq<bool>,
    key: int,
    limit: int,
)
    requires
        i32::MIN <= key <= i32::MAX,
        spots_within(spots, limit),
        0 <= limit <= i32::MAX,
    ensures
        clear_kept(
            spots,
            column_at(spots, key, new_place(spots, checked, prefs, pinned, key)),
            checked,
            prefs,
        ),
{
    let n = spots.len() as int;
    let c = new_place(spots, checked, prefs, pinned, key);
    let after = column_at(spots, key, c);
    column_turn_pulls(spots, checked, prefs, pinned, key, limit);
    new_place_in_window(spots, checked, prefs, pinned, key);
    last_left_is_largest(spots, key, n);
    assert forall|i: int, j: int|
        #![trigger spans_overlap(spots, checked, prefs, i, j)]
        0 <= i < n && 0 <= j < n && spots[j].origin.x < spots[i].origin.x && spans_overlap(
            spots,
            checked,
            prefs,
            i,
            j,
        ) implies after[i].origin.x - after[j].origin.x >= int_min(
        steps_apart(spots, checked, prefs, j, i),
        spots[i].origin.x - spots[j].origin.x,
    ) by {
        assert(spots[i].origin.within(limit));
        assert(spots[j].origin.within(limit));
        assert(after[j].origin.x <= spots[j].origin.x);
        if spots[i].origin.x == key {
            match last_left_of(spots, key, n) {
                None => {
                    assert(spots[j].origin.x >= key);
                },
                Some(edge) => {
                    floor_clears(spots, checked, prefs, key, edge, i, j, n);
                    floor_is_at_least(spots, checked, prefs, key, edge, n);
                    let lower = int_min(column_floor(spots, checked, prefs, key, edge, n), key);
                    best_place_is_best(spots, checked, prefs, key, lower, key - lower + 1);
                    assert(c >= lower);
                    assert(after[i].origin.x == c);
                    assert(after[j] == spots[j]);
                },
            }
        }
    }
}

proof fn clear_composes(
    a: Seq<Spot>,
    b: Seq<Spot>,
    c: Seq<Spot>,
    checked: &CheckedNetlist,
    prefs: Seq<Option<VertPref>>,
    pinned: Seq<bool>,
)
    requires
        only_pulled(a, b, pinned),
        only_pulled(b, c, pinned),
        clear_kept(a, b, checked, prefs),
        clear_kept(b, c, checked, prefs),
    ensures
        clear_kept(a, c, checked, prefs),
{
    assert forall|i: int, j: int|
        #![trigger spans_overlap(a, checked, prefs, i, j)]
        0 <= i < a.len() && 0 <= j < a.len() && a[j].origin.x < a[i].origin.x && spans_overlap(
            a,
            checked,
            prefs,
            i,
            j,
        ) implies c[i].origin.x - c[j].origin.x >= int_min(
        steps_apart(a, checked, prefs, j, i),
        a[i].origin.x - a[j].origin.x,
    ) by {
        assert(b[i].orientation == a[i].orientation && b[i].origin.y == a[i].origin.y);
        assert(b[j].orientation == a[j].orientation && b[j].origin.y == a[j].origin.y);
        assert(room(b, checked, prefs, i) == room(a, checked, prefs, i));
        assert(room(b, checked, prefs, j) == room(a, checked, prefs, j));
        assert(spans_overlap(b, checked, prefs, i, j));
        assert(b[j].origin.x <= b[i].origin.x);
        if b[j].origin.x == b[i].origin.x {
            assert(c[j].origin.x <= c[i].origin.x);
            assert(c[i].origin.x <= c[j].origin.x);
        }
    }
}

proof fn columns_keep_clear(
    spots: Seq<Spot>,
    checked: &CheckedNetlist,
    prefs: Seq<Option<VertPref>>,
    pinned: Seq<bool>,
    key: int,
    k: nat,
    limit: int,
)
    requires
        spots_within(spots, limit),
        0 <= limit <= i32::MAX,
    ensures
        clear_kept(spots, columns_pulled(spots, checked, prefs, pinned, key, k), checked, prefs),
    decreases k,
{
    if k > 0 {
        next_right_is_least(spots, key, spots.len() as int);
        match next_right_of(spots, key, spots.len() as int) {
            None => {},
            Some(x) => {
                let next = column_at(spots, x, new_place(spots, checked, prefs, pinned, x));
                column_turn_pulls(spots, checked, prefs, pinned, x, limit);
                column_turn_keeps_clear(spots, checked, prefs, pinned, x, limit);
                columns_are_pulled(next, checked, prefs, pinned, x, (k - 1) as nat, limit);
                columns_keep_clear(next, checked, prefs, pinned, x, (k - 1) as nat, limit);
                clear_composes(
                    spots,
                    next,
                    columns_pulled(spots, checked, prefs, pinned, key, k),
                    checked,
                    prefs,
                    pinned,
                );
            },
        }
    }
}

/// Compaction squeezes nothing: two elements that share rows keep the room that
/// their bodies, texts and glyphs need, unless they were closer already, and
/// then they come no closer.
pub proof fn compacting_keeps_clear(
    spots: Seq<Spot>,
    checked: &CheckedNetlist,
    prefs: Seq<Option<VertPref>>,
    pinned: Seq<bool>,
    k: nat,
    limit: int,
)
    requires
        spots_within(spots, limit),
        0 <= limit <= i32::MAX,
    ensures
        clear_kept(spots, compacted(spots, checked, prefs, pinned, k), checked, prefs),
    decreases k,
{
    if k > 0 {
        compacting_keeps_clear(spots, checked, prefs, pinned, (k - 1) as nat, limit);
        compacting_keeps_order(spots, checked, prefs, pinned, (k - 1) as nat, limit);
        let before = compacted(spots, checked, prefs, pinned, (k - 1) as nat);
        columns_are_pulled(before, checked, prefs, pinned, i32::MIN - 1, before.len(), limit);
        columns_keep_clear(before, checked, prefs, pinned, i32::MIN - 1, before.len(), limit);
        clear_composes(
            spots,
            before,
            compacted(spots, checked, prefs, pinned, k),
            checked,
            prefs,
            pinned,
        );
    }
}

// ---- Compaction at work ---------------------------------------------------------

/// The rooms of all elements, by pose.
spec fn rooms_of(
    rooms: Seq<WorldExtent>,
    spots: Seq<Spot>,
    checked: &CheckedNetlist,
    prefs: Seq<Option<VertPref>>,
) -> bool {
    &&& rooms.len() == checked.elements@.len()
    &&& forall|i: int|
        0 <= i < rooms.len() ==> (#[trigger] rooms[i])@ == room(spots, checked, prefs, i)
            && rooms[i]@.within(EXTENT_LIMIT as int)
}

proof fn rooms_keep(
    rooms: Seq<WorldExtent>,
    a: Seq<Spot>,
    b: Seq<Spot>,
    checked: &CheckedNetlist,
    prefs: Seq<Option<VertPref>>,
    pinned: Seq<bool>,
)
    requires
        rooms_of(rooms, a, checked, prefs),
        a.len() == checked.elements@.len(),
        only_pulled(a, b, pinned),
    ensures
        rooms_of(rooms, b, checked, prefs),
{
    assert forall|i: int| 0 <= i < rooms.len() implies (#[trigger] rooms[i])@ == room(
        b,
        checked,
        prefs,
        i,
    ) && rooms[i]@.within(EXTENT_LIMIT as int) by {
        assert(b[i].orientation == a[i].orientation);
    }
}

/// The room of every element.
fn extents(
    placement: &Placement,
    checked: &CheckedNetlist,
    prefs: &Vec<Option<VertPref>>,
) -> (r: Vec<WorldExtent>)
    requires
        checked.drawable(),
        placement.elements@.len() == checked.elements@.len(),
        prefs@.len() == checked.nets@.len(),
    ensures
        rooms_of(r@, placement.spots(), checked, prefs@),
{
    let mut out: Vec<WorldExtent> = Vec::new();
    let mut i: usize = 0;
    while i < checked.elements.len()
        invariant
            i <= checked.elements@.len(),
            checked.drawable(),
            placement.elements@.len() == checked.elements@.len(),
            prefs@.len() == checked.nets@.len(),
            out@.len() == i,
            forall|k: int|
                0 <= k < i ==> (#[trigger] out@[k])@ == room(
                    placement.spots(),
                    checked,
                    prefs@,
                    k,
                ) && out@[k]@.within(EXTENT_LIMIT as int),
        decreases checked.elements@.len() - i,
    {
        let e = &checked.elements[i];
        assert(checked.elements@[i as int].symbol.wf());
        assert(nets_in_range(checked.elements@[i as int].nodes@, checked.nets@.len()));
        proof {
            roomy_limited(checked, placement.spots(), prefs@, i as int);
        }
        let ext = if e.role.power() {
            WorldExtent::origin()
        } else {
            world_extent_with_glyphs(e, placement.elements[i].orientation, &e.value, prefs)
        };
        out.push(ext);
        i = i + 1;
    }
    out
}

/// The largest X left of a column.
fn edge_left_of(placement: &Placement, key: i32) -> (r: Option<i32>)
    ensures
        match r {
            Some(e) => last_left_of(
                placement.spots(),
                key as int,
                placement.elements@.len() as int,
            ) == Some(e as int),
            None => last_left_of(
                placement.spots(),
                key as int,
                placement.elements@.len() as int,
            ) is None,
        },
{
    let mut best: Option<i32> = None;
    let mut j: usize = 0;
    while j < placement.elements.len()
        invariant
            j <= placement.elements@.len(),
            match best {
                Some(e) => last_left_of(placement.spots(), key as int, j as int) == Some(
                    e as int,
                ),
                None => last_left_of(placement.spots(), key as int, j as int) is None,
            },
        decreases placement.elements@.len() - j,
    {
        let x: i32 = placement.elements[j].origin.x;
        assert(placement.spots()[j as int].origin.x == x);
        if x < key {
            best = match best {
                Some(e) => if x > e {
                    Some(x)
                } else {
                    Some(e)
                },
                None => Some(x),
            };
        }
        j = j + 1;
    }
    best
}

/// The next column right of `key`.
fn next_column(placement: &Placement, key: i64) -> (r: Option<i32>)
    ensures
        match r {
            Some(e) => next_right_of(
                placement.spots(),
                key as int,
                placement.elements@.len() as int,
            ) == Some(e as int),
            None => next_right_of(
                placement.spots(),
                key as int,
                placement.elements@.len() as int,
            ) is None,
        },
{
    let mut best: Option<i32> = None;
    let mut j: usize = 0;
    while j < placement.elements.len()
        invariant
            j <= placement.elements@.len(),
            match best {
                Some(e) => next_right_of(placement.spots(), key as int, j as int) == Some(
                    e as int,
                ),
                None => next_right_of(placement.spots(), key as int, j as int) is None,
            },
        decreases placement.elements@.len() - j,
    {
        let x: i32 = placement.elements[j].origin.x;
        assert(placement.spots()[j as int].origin.x == x);
        if x as i64 > key {
            best = match best {
                Some(e) => if x < e {
                    Some(x)
                } else {
                    Some(e)
                },
                None => Some(x),
            };
        }
        j = j + 1;
    }
    best
}

fn rows_shared(a: &WorldExtent, ay: i32, b: &WorldExtent, by: i32) -> (r: bool)
    requires
        a@.within(EXTENT_LIMIT as int),
        b@.within(EXTENT_LIMIT as int),
        -MAX_COORD <= ay <= MAX_COORD,
        -MAX_COORD <= by <= MAX_COORD,
    ensures
        r == share_rows(a@, ay as int, b@, by as int),
{
    let a_lo: i64 = ay as i64 * GRID_STEP + a.min_y;
    let a_hi: i64 = ay as i64 * GRID_STEP + a.max_y;
    let b_lo: i64 = by as i64 * GRID_STEP + b.min_y;
    let b_hi: i64 = by as i64 * GRID_STEP + b.max_y;
    a_hi - a_lo >= CONTACT && b_hi - b_lo >= CONTACT && a_lo + CONTACT < b_hi && b_lo + CONTACT
        < a_hi
}

/// How far left a column may go.
fn floor_of_column(
    placement: &Placement,
    checked: &CheckedNetlist,
    rooms: &Vec<WorldExtent>,
    key: i32,
    edge: i32,
    Ghost(prefs): Ghost<Seq<Option<VertPref>>>,
) -> (r: i32)
    requires
        placement.elements@.len() == checked.elements@.len(),
        placement.within(MAX_COORD as int),
        rooms_of(rooms@, placement.spots(), checked, prefs),
        -MAX_COORD <= edge <= MAX_COORD,
    ensures
        r == column_floor(
            placement.spots(),
            checked,
            prefs,
            key as int,
            edge as int,
            placement.elements@.len() as int,
        ),
{
    let ghost spots = placement.spots();
    let n: usize = placement.elements.len();
    let mut floor: i32 = edge;
    let mut i: usize = 0;
    while i < n
        invariant
            i <= n,
            n == placement.elements@.len(),
            placement.elements@.len() == checked.elements@.len(),
            spots == placement.spots(),
            spots_within(spots, MAX_COORD as int),
            rooms_of(rooms@, spots, checked, prefs),
            floor == column_floor(spots, checked, prefs, key as int, edge as int, i as int),
            -MAX_COORD <= floor <= MAX_COORD + 2000,
        decreases n - i,
    {
        assert(spots[i as int].origin.within(MAX_COORD as int));
        if placement.elements[i].origin.x == key {
            let ghost base = floor as int;
            let mut j: usize = 0;
            while j < n
                invariant
                    i < n,
                    j <= n,
                    n == placement.elements@.len(),
                    placement.elements@.len() == checked.elements@.len(),
                    spots == placement.spots(),
                    spots_within(spots, MAX_COORD as int),
                    rooms_of(rooms@, spots, checked, prefs),
                    floor == pushed_by(
                        spots,
                        checked,
                        prefs,
                        key as int,
                        base,
                        i as int,
                        j as int,
                    ),
                    -MAX_COORD <= floor <= MAX_COORD + 2000,
                decreases n - j,
            {
                assert(spots[j as int].origin.within(MAX_COORD as int));
                assert(spots[i as int].origin.within(MAX_COORD as int));
                assert(rooms@[i as int]@ == room(spots, checked, prefs, i as int));
                assert(rooms@[j as int]@ == room(spots, checked, prefs, j as int));
                let left = placement.elements[j].origin;
                if left.x < key && rows_shared(
                    &rooms[i],
                    placement.elements[i].origin.y,
                    &rooms[j],
                    left.y,
                ) {
                    let push: i32 = left.x + ceil_cells(rooms[j].max_x - rooms[i].min_x);
                    if push > floor {
                        floor = push;
                    }
                }
                j = j + 1;
            }
        }
        i = i + 1;
    }
    floor
}

/// The sideways offset of a wired terminal's pin.
fn wire_offset_of(
    placement: &Placement,
    checked: &CheckedNetlist,
    prefs: &Vec<Option<VertPref>>,
    i: usize,
    t: usize,
) -> (r: Option<i64>)
    requires
        checked.drawable(),
        placement.elements@.len() == checked.elements@.len(),
        prefs@.len() == checked.nets@.len(),
        i < checked.elements@.len(),
        t < checked.elements@[i as int].nodes@.len(),
    ensures
        match r {
            Some(x) => wire_offset(placement.spots(), checked, prefs@, i as int, t as int) == Some(
                x as int,
            ) && -MAX_REACH <= x <= MAX_REACH,
            None => wire_offset(placement.spots(), checked, prefs@, i as int, t as int) is None,
        },
{
    let e = &checked.elements[i];
    assert(checked.elements@[i as int].symbol.wf());
    assert(nets_in_range(checked.elements@[i as int].nodes@, checked.nets@.len()));
    let net: usize = e.nodes[t];
    if e.role.power() || str_eq(checked.nets[net].as_str(), "0") || prefs[net].is_some() {
        return None;
    }
    let o = placement.elements[i].orientation;
    match e.terminal_pin(o, t) {
        Some(k) => {
            let pose = e.symbol.pose(o);
            assert(in_reach(pose.pins@[k as int].x as int));
            Some(pose.pins[k].x as i64)
        },
        None => None,
    }
}

proof fn lined_terminals_bound(
    spots: Seq<Spot>,
    checked: &CheckedNetlist,
    prefs: Seq<Option<VertPref>>,
    cand: int,
    i: int,
    t: int,
    j: int,
    n: int,
)
    requires
        0 <= n,
    ensures
        0 <= lined_terminals(spots, checked, prefs, cand, i, t, j, n) <= n,
    decreases n,
{
    if n > 0 {
        lined_terminals_bound(spots, checked, prefs, cand, i, t, j, n - 1);
    }
}

/// The most pairs that one terminal can be part of.
spec fn terminal_limit() -> int {
    MAX_ELEMENTS * MAX_PINS
}

proof fn lined_elements_bound(
    spots: Seq<Spot>,
    checked: &CheckedNetlist,
    prefs: Seq<Option<VertPref>>,
    key: int,
    cand: int,
    i: int,
    t: int,
    n: int,
)
    requires
        checked.drawable(),
        0 <= n <= checked.elements@.len(),
    ensures
        0 <= lined_elements(spots, checked, prefs, key, cand, i, t, n) <= n * MAX_PINS,
    decreases n,
{
    if n > 0 {
        lined_elements_bound(spots, checked, prefs, key, cand, i, t, n - 1);
        assert(checked.elements@[n - 1].symbol.wf());
        lined_terminals_bound(
            spots,
            checked,
            prefs,
            cand,
            i,
            t,
            n - 1,
            checked.elements@[n - 1].nodes@.len() as int,
        );
    }
}

proof fn element_score_bound(
    spots: Seq<Spot>,
    checked: &CheckedNetlist,
    prefs: Seq<Option<VertPref>>,
    key: int,
    cand: int,
    i: int,
    n: int,
)
    requires
        checked.drawable(),
        spots.len() == checked.elements@.len(),
        0 <= n <= MAX_PINS,
    ensures
        0 <= element_score(spots, checked, prefs, key, cand, i, n) <= n * terminal_limit(),
    decreases n,
{
    if n > 0 {
        element_score_bound(spots, checked, prefs, key, cand, i, n - 1);
        lined_elements_bound(spots, checked, prefs, key, cand, i, n - 1, spots.len() as int);
        assert(n * terminal_limit() == (n - 1) * terminal_limit() + terminal_limit())
            by (nonlinear_arith);
    }
}

proof fn column_score_bound(
    spots: Seq<Spot>,
    checked: &CheckedNetlist,
    prefs: Seq<Option<VertPref>>,
    key: int,
    cand: int,
    n: int,
)
    requires
        checked.drawable(),
        spots.len() == checked.elements@.len(),
        0 <= n <= checked.elements@.len(),
    ensures
        0 <= column_score(spots, checked, prefs, key, cand, n) <= n * (MAX_PINS
            * terminal_limit()),
    decreases n,
{
    if n > 0 {
        column_score_bound(spots, checked, prefs, key, cand, n - 1);
        assert(checked.elements@[n - 1].symbol.wf());
        let m = checked.elements@[n - 1].nodes@.len() as int;
        element_score_bound(spots, checked, prefs, key, cand, n - 1, m);
        assert(m * terminal_limit() <= MAX_PINS * terminal_limit()) by (nonlinear_arith)
            requires
                m <= MAX_PINS,
                terminal_limit() >= 0,
        ;
        assert(n * (MAX_PINS * terminal_limit()) == (n - 1) * (MAX_PINS * terminal_limit())
            + MAX_PINS * terminal_limit()) by (nonlinear_arith);
    }
}

/// The pairs in line through one terminal.
fn terminal_score(
    placement: &Placement,
    checked: &CheckedNetlist,
    prefs: &Vec<Option<VertPref>>,
    key: i32,
    cand: i32,
    i: usize,
    t: usize,
) -> (r: u128)
    requires
        checked.drawable(),
        placement.elements@.len() == checked.elements@.len(),
        prefs@.len() == checked.nets@.len(),
        i < checked.elements@.len(),
        t < checked.elements@[i as int].nodes@.len(),
    ensures
        r == lined_elements(
            placement.spots(),
            checked,
            prefs@,
            key as int,
            cand as int,
            i as int,
            t as int,
            checked.elements@.len() as int,
        ),
        r <= MAX_ELEMENTS * MAX_PINS,
{
    let ghost spots = placement.spots();
    let mine = wire_offset_of(placement, checked, prefs, i, t);
    let net: usize = checked.elements[i].nodes[t];
    let mut total: u128 = 0;
    let mut j: usize = 0;
    while j < checked.elements.len()
        invariant
            j <= checked.elements@.len(),
            checked.drawable(),
            placement.elements@.len() == checked.elements@.len(),
            prefs@.len() == checked.nets@.len(),
            i < checked.elements@.len(),
            t < checked.elements@[i as int].nodes@.len(),
            spots == placement.spots(),
            net == checked.elements@[i as int].nodes@[t as int],
            match mine {
                Some(x) => wire_offset(spots, checked, prefs@, i as int, t as int) == Some(
                    x as int,
                ) && -MAX_REACH <= x <= MAX_REACH,
                None => wire_offset(spots, checked, prefs@, i as int, t as int) is None,
            },
            total == lined_elements(
                spots,
                checked,
                prefs@,
                key as int,
                cand as int,
                i as int,
                t as int,
                j as int,
            ),
            total <= j * MAX_PINS,
        decreases checked.elements@.len() - j,
    {
        let x: i32 = placement.elements[j].origin.x;
        assert(spots[j as int].origin.x == x);
        if x < key {
            let nodes = &checked.elements[j].nodes;
            assert(checked.elements@[j as int].symbol.wf());
            let mut part: u128 = 0;
            let mut u: usize = 0;
            while u < nodes.len()
                invariant
                    u <= nodes@.len(),
                    j < checked.elements@.len(),
                    nodes@ == checked.elements@[j as int].nodes@,
                    checked.drawable(),
                    placement.elements@.len() == checked.elements@.len(),
                    prefs@.len() == checked.nets@.len(),
                    i < checked.elements@.len(),
                    t < checked.elements@[i as int].nodes@.len(),
                    spots == placement.spots(),
                    spots[j as int].origin.x == x,
                    net == checked.elements@[i as int].nodes@[t as int],
                    match mine {
                        Some(x) => wire_offset(spots, checked, prefs@, i as int, t as int)
                            == Some(x as int) && -MAX_REACH <= x <= MAX_REACH,
                        None => wire_offset(spots, checked, prefs@, i as int, t as int) is None,
                    },
                    part == lined_terminals(
                        spots,
                        checked,
                        prefs@,
                        cand as int,
                        i as int,
                        t as int,
                        j as int,
                        u as int,
                    ),
                    part <= u,
                decreases nodes@.len() - u,
            {
                if nodes[u] == net {
                    let theirs = wire_offset_of(placement, checked, prefs, j, u);
                    if let (Some(a), Some(b)) = (mine, theirs) {
                        if cand as i64 * GRID_STEP + a == x as i64 * GRID_STEP + b {
                            part = part + 1;
                        }
                    }
                }
                u = u + 1;
            }
            total = total + part;
        }
        j = j + 1;
    }
    total
}

/// The pairs of pins of one net that would line up with a column at `cand`.
fn alignment_score(
    placement: &Placement,
    checked: &CheckedNetlist,
    prefs: &Vec<Option<VertPref>>,
    key: i32,
    cand: i32,
) -> (r: u128)
    requires
        checked.drawable(),
        placement.elements@.len() == checked.elements@.len(),
        prefs@.len() == checked.nets@.len(),
    ensures
        r == column_score(
            placement.spots(),
            checked,
            prefs@,
            key as int,
            cand as int,
            placement.elements@.len() as int,
        ),
{
    let ghost spots = placement.spots();
    let mut total: u128 = 0;
    let mut i: usize = 0;
    while i < checked.elements.len()
        invariant
            i <= checked.elements@.len(),
            checked.drawable(),
            placement.elements@.len() == checked.elements@.len(),
            prefs@.len() == checked.nets@.len(),
            spots == placement.spots(),
            total == column_score(
                spots,
                checked,
                prefs@,
                key as int,
                cand as int,
                i as int,
            ),
        decreases checked.elements@.len() - i,
    {
        proof {
            column_score_bound(spots, checked, prefs@, key as int, cand as int, i as int);
            let w = MAX_PINS * terminal_limit();
            assert(i * w <= MAX_ELEMENTS * w) by (nonlinear_arith)
                requires
                    i <= MAX_ELEMENTS,
                    w >= 0,
            ;
            assert(checked.elements@[i as int].symbol.wf());
        }
        assert(spots[i as int].origin.x == placement.elements@[i as int].origin.x);
        if placement.elements[i].origin.x == key {
            let n: usize = checked.elements[i].nodes.len();
            let mut part: u128 = 0;
            let mut t: usize = 0;
            while t < n
                invariant
                    t <= n,
                    i < checked.elements@.len(),
                    n == checked.elements@[i as int].nodes@.len(),
                    n <= MAX_PINS,
                    checked.drawable(),
                    placement.elements@.len() == checked.elements@.len(),
                    prefs@.len() == checked.nets@.len(),
                    spots == placement.spots(),
                    part == element_score(
                        spots,
                        checked,
                        prefs@,
                        key as int,
                        cand as int,
                        i as int,
                        t as int,
                    ),
                decreases n - t,
            {
                proof {
                    element_score_bound(
                        spots,
                        checked,
                        prefs@,
                        key as int,
                        cand as int,
                        i as int,
                        t as int,
                    );
                    assert(t * terminal_limit() <= MAX_PINS * terminal_limit())
                        by (nonlinear_arith)
                        requires
                            t <= MAX_PINS,
                            terminal_limit() >= 0,
                    ;
                }
                part = part + terminal_score(placement, checked, prefs, key, cand, i, t);
                t = t + 1;
            }
            proof {
                element_score_bound(
                    spots,
                    checked,
                    prefs@,
                    key as int,
                    cand as int,
                    i as int,
                    t as int,
                );
                assert(t * terminal_limit() <= MAX_PINS * terminal_limit()) by (nonlinear_arith)
                    requires
                        t <= MAX_PINS,
                        terminal_limit() >= 0,
                ;
            }
            total = total + part;
        }
        i = i + 1;
    }
    total
}

/// The spots with some elements moved sideways.
spec fn members_at(spots: Seq<Spot>, members: Seq<bool>, x: i32) -> Seq<Spot> {
    Seq::new(
        spots.len(),
        |i: int|
            if members[i] {
                Spot {
                    origin: GridPoint { x, y: spots[i].origin.y },
                    orientation: spots[i].orientation,
                }
            } else {
                spots[i]
            },
    )
}

/// Moves some elements sideways.
fn move_members(placement: &mut Placement, members: &Vec<bool>, x: i32)
    requires
        members@.len() == old(placement).elements@.len(),
    ensures
        same_parts(*old(placement), *final(placement)),
        final(placement).spots() == members_at(old(placement).spots(), members@, x),
{
    let ghost start = placement.spots();
    let mut i: usize = 0;
    while i < placement.elements.len()
        invariant
            i <= placement.elements@.len(),
            members@.len() == placement.elements@.len(),
            same_parts(*old(placement), *placement),
            start == old(placement).spots(),
            start.len() == placement.elements@.len(),
            forall|k: int|
                0 <= k < i ==> #[trigger] placement.spots()[k] == members_at(start, members@, x)[k],
            forall|k: int|
                i <= k < start.len() ==> #[trigger] placement.spots()[k] == start[k],
        decreases placement.elements@.len() - i,
    {
        let at = placement.elements[i].origin;
        let turned = placement.elements[i].orientation;
        assert(placement.spots()[i as int] == start[i as int]);
        assert(start[i as int] == (Spot { origin: at, orientation: turned }));
        if members[i] {
            let ghost prior = *placement;
            put(placement, i, GridPoint::new(x, at.y), turned);
            proof {
                same_parts_trans(*old(placement), prior, *placement);
            }
        }
        i = i + 1;
    }
    assert(placement.spots() =~= members_at(start, members@, x));
}

/// The list marks the elements of a column.
spec fn marks_column(spots: Seq<Spot>, members: Seq<bool>, key: int) -> bool {
    &&& members.len() == spots.len()
    &&& forall|i: int|
        0 <= i < members.len() ==> #[trigger] members[i] == (spots[i].origin.x == key)
}

/// Whether no more pins are shorted with the column at `cand`. The column is
/// put there and back.
fn v11_safe(
    placement: &mut Placement,
    checked: &CheckedNetlist,
    members: &Vec<bool>,
    key: i32,
    cand: i32,
    base: u128,
) -> (r: bool)
    requires
        checked.drawable(),
        places(&*old(placement), checked),
        old(placement).within(MAX_COORD as int),
        -MAX_COORD <= cand <= MAX_COORD,
        marks_column(old(placement).spots(), members@, key as int),
        base == clashes(old(placement).spots(), checked),
    ensures
        same_parts(*old(placement), *final(placement)),
        final(placement).spots() == old(placement).spots(),
        r == is_safe(old(placement).spots(), checked, key as int, cand as int),
{
    let ghost start = placement.spots();
    move_members(placement, members, cand);
    let ghost mid = *placement;
    proof {
        let trial = column_at(start, key as int, cand as int);
        assert(placement.spots() =~= trial);
        assert forall|j: int| 0 <= j < trial.len() implies (#[trigger] trial[j]).origin.within(
            MAX_COORD as int,
        ) by {
            assert(start[j].origin.within(MAX_COORD as int));
        }
    }
    proof {
        moving_keeps_the_netlist(*old(placement), *placement, checked);
    }
    let after: u128 = foreign_pin_coincidences(placement, checked);
    move_members(placement, members, key);
    proof {
        assert(placement.spots() =~= start) by {
            assert forall|i: int| 0 <= i < start.len() implies placement.spots()[i] == start[i] by {
                if members@[i] {
                    assert(start[i].origin == GridPoint { x: key, y: start[i].origin.y });
                }
            }
        }
        same_parts_trans(*old(placement), mid, *placement);
    }
    after <= base
}

/// Gives one column its turn.
fn pull_column(
    placement: &mut Placement,
    pinned: &Vec<bool>,
    checked: &CheckedNetlist,
    prefs: &Vec<Option<VertPref>>,
    rooms: &Vec<WorldExtent>,
    key: i32,
)
    requires
        checked.drawable(),
        places(&*old(placement), checked),
        pinned@.len() == checked.elements@.len(),
        prefs@.len() == checked.nets@.len(),
        old(placement).within(MAX_COORD as int),
        -MAX_COORD <= key <= MAX_COORD,
        rooms_of(rooms@, old(placement).spots(), checked, prefs@),
    ensures
        same_parts(*old(placement), *final(placement)),
        final(placement).spots() == column_at(
            old(placement).spots(),
            key as int,
            new_place(old(placement).spots(), checked, prefs@, pinned@, key as int),
        ),
{
    let ghost start = placement.spots();
    let ghost k = key as int;
    let n: usize = placement.elements.len();
    let mut members: Vec<bool> = Vec::new();
    let mut frozen = false;
    let mut i: usize = 0;
    while i < n
        invariant
            i <= n,
            n == placement.elements@.len(),
            pinned@.len() == n,
            start == placement.spots(),
            k == key,
            members@.len() == i,
            forall|j: int| 0 <= j < i ==> #[trigger] members@[j] == (start[j].origin.x == key),
            frozen == exists|j: int|
                0 <= j < i && (#[trigger] start[j]).origin.x == k && pinned@[j],
        decreases n - i,
    {
        let x: i32 = placement.elements[i].origin.x;
        assert(start[i as int].origin.x == x);
        members.push(x == key);
        if x == key && pinned[i] {
            frozen = true;
        }
        i = i + 1;
    }
    proof {
        last_left_is_largest(start, k, n as int);
        new_place_in_window(start, checked, prefs@, pinned@, k);
        // A column that stays is where it was.
        assert(column_at(start, k, k) =~= start) by {
            assert forall|j: int| 0 <= j < start.len() implies column_at(start, k, k)[j]
                == start[j] by {
                if start[j].origin.x == k {
                    assert(column_at(start, k, k)[j].origin == start[j].origin);
                }
            }
        }
    }
    let edge = match edge_left_of(placement, key) {
        Some(e) => e,
        None => {
            return ;
        },
    };
    if frozen {
        return ;
    }
    proof {
        let j = choose|j: int| 0 <= j < start.len() && (#[trigger] start[j]).origin.x == edge;
        assert(start[j].origin.within(MAX_COORD as int));
        floor_is_at_least(start, checked, prefs@, k, edge as int, n as int);
    }
    let floor: i32 = floor_of_column(placement, checked, rooms, key, edge, Ghost(prefs@));
    let lower: i32 = if floor < key {
        floor
    } else {
        key
    };
    let base: u128 = foreign_pin_coincidences(placement, checked);
    let mut best: Option<(u128, i32)> = None;
    let mut cand: i32 = lower;
    while cand <= key
        invariant
            lower <= cand <= key + 1,
            -MAX_COORD <= lower,
            key <= MAX_COORD,
            k == key,
            n == checked.elements@.len(),
            checked.drawable(),
            places(&*old(placement), checked),
            same_parts(*old(placement), *placement),
            placement.elements@.len() == n,
            prefs@.len() == checked.nets@.len(),
            placement.spots() == start,
            start.len() == n,
            spots_within(start, MAX_COORD as int),
            marks_column(start, members@, k),
            base == clashes(start, checked),
            match best {
                Some((score, c)) => {
                    &&& best_place(start, checked, prefs@, k, lower as int, cand - lower) == Some(
                        c as int,
                    )
                    &&& score == column_score(start, checked, prefs@, k, c as int, n as int)
                },
                None => best_place(start, checked, prefs@, k, lower as int, cand - lower) is None,
            },
        decreases key + 1 - cand,
    {
        let ghost prior = *placement;
        proof {
            moving_keeps_the_netlist(*old(placement), *placement, checked);
        }
        let safe = v11_safe(placement, checked, &members, key, cand, base);
        proof {
            same_parts_trans(*old(placement), prior, *placement);
        }
        if safe {
            let score: u128 = alignment_score(placement, checked, prefs, key, cand);
            best = match best {
                None => Some((score, cand)),
                Some((s, c)) => if score > s {
                    Some((score, cand))
                } else {
                    Some((s, c))
                },
            };
        }
        cand = cand + 1;
    }
    if let Some((_, c)) = best {
        let ghost prior = *placement;
        move_members(placement, &members, c);
        proof {
            same_parts_trans(*old(placement), prior, *placement);
            assert(placement.spots() =~= column_at(start, k, c as int));
        }
    }
}

/// Gives every column its turn, from left to right.
fn compact_axis(
    placement: &mut Placement,
    pinned: &Vec<bool>,
    checked: &CheckedNetlist,
    prefs: &Vec<Option<VertPref>>,
)
    requires
        checked.drawable(),
        places(&*old(placement), checked),
        pinned@.len() == checked.elements@.len(),
        prefs@.len() == checked.nets@.len(),
        old(placement).within(MAX_COORD as int),
    ensures
        same_parts(*old(placement), *final(placement)),
        final(placement).spots() == swept(old(placement).spots(), checked, prefs@, pinned@),
{
    let ghost start = placement.spots();
    let n: usize = checked.elements.len();
    let rooms = extents(placement, checked, prefs);
    let mut key: i64 = i32::MIN as i64 - 1;
    let mut left: usize = n;
    while left > 0
        invariant
            left <= n,
            n == checked.elements@.len(),
            checked.drawable(),
            places(&*old(placement), checked),
            same_parts(*old(placement), *placement),
            placement.elements@.len() == n,
            pinned@.len() == n,
            prefs@.len() == checked.nets@.len(),
            start == old(placement).spots(),
            placement.within(MAX_COORD as int),
            rooms_of(rooms@, placement.spots(), checked, prefs@),
            swept(start, checked, prefs@, pinned@) == columns_pulled(
                placement.spots(),
                checked,
                prefs@,
                pinned@,
                key as int,
                left as nat,
            ),
        decreases left,
    {
        let ghost now = placement.spots();
        let x = match next_column(placement, key) {
            Some(x) => x,
            None => {
                return ;
            },
        };
        proof {
            next_right_is_least(now, key as int, n as int);
            let j = choose|j: int| 0 <= j < n && (#[trigger] now[j]).origin.x == x;
            assert(now[j].origin.within(MAX_COORD as int));
            column_turn_pulls(now, checked, prefs@, pinned@, x as int, MAX_COORD as int);
            rooms_keep(
                rooms@,
                now,
                column_at(now, x as int, new_place(now, checked, prefs@, pinned@, x as int)),
                checked,
                prefs@,
                pinned@,
            );
        }
        let ghost prior = *placement;
        proof {
            moving_keeps_the_netlist(*old(placement), *placement, checked);
        }
        pull_column(placement, pinned, checked, prefs, &rooms, x);
        proof {
            same_parts_trans(*old(placement), prior, *placement);
        }
        key = x as i64;
        left = left - 1;
    }
}

/// Pulls the columns tight. Returns how many elements have moved.
pub fn compact(
    placement: &mut Placement,
    pinned: &Vec<bool>,
    checked: &CheckedNetlist,
    prefs: &Vec<Option<VertPref>>,
) -> (r: usize)
    requires
        checked.drawable(),
        places(&*old(placement), checked),
        pinned@.len() == checked.elements@.len(),
        prefs@.len() == checked.nets@.len(),
        old(placement).within(MAX_COORD as int),
    ensures
        same_parts(*old(placement), *final(placement)),
        final(placement).spots() == compacted(
            old(placement).spots(),
            checked,
            prefs@,
            pinned@,
            SWEEPS as nat,
        ),
        r == moved_count(old(placement).spots(), final(placement).spots()),
{
    let ghost start = placement.spots();
    let n: usize = checked.elements.len();
    let mut origins: Vec<GridPoint> = Vec::new();
    let mut i: usize = 0;
    while i < n
        invariant
            i <= n,
            n == placement.elements@.len(),
            start == placement.spots(),
            origins@.len() == i,
            forall|k: int| 0 <= k < i ==> #[trigger] origins@[k] == start[k].origin,
        decreases n - i,
    {
        origins.push(placement.elements[i].origin);
        i = i + 1;
    }
    let mut sweep: usize = 0;
    while sweep < SWEEPS
        invariant
            sweep <= SWEEPS,
            n == checked.elements@.len(),
            checked.drawable(),
            places(&*old(placement), checked),
            same_parts(*old(placement), *placement),
            placement.elements@.len() == n,
            pinned@.len() == n,
            prefs@.len() == checked.nets@.len(),
            spots_within(start, MAX_COORD as int),
            placement.spots() == compacted(start, checked, prefs@, pinned@, sweep as nat),
        decreases SWEEPS - sweep,
    {
        proof {
            compacting_keeps_order(
                start,
                checked,
                prefs@,
                pinned@,
                sweep as nat,
                MAX_COORD as int,
            );
        }
        let ghost prior = *placement;
        proof {
            moving_keeps_the_netlist(*old(placement), *placement, checked);
        }
        compact_axis(placement, pinned, checked, prefs);
        proof {
            same_parts_trans(*old(placement), prior, *placement);
        }
        sweep = sweep + 1;
    }
    let ghost end = placement.spots();
    let ghost p = differ(start, end);
    proof {
        compacting_keeps_order(start, checked, prefs@, pinned@, SWEEPS as nat, MAX_COORD as int);
    }
    let mut moved: usize = 0;
    let mut i: usize = 0;
    while i < n
        invariant
            i <= n,
            n == placement.elements@.len(),
            end == placement.spots(),
            start.len() == n,
            origins@.len() == n,
            forall|k: int| 0 <= k < n ==> #[trigger] origins@[k] == start[k].origin,
            only_pulled(start, end, pinned@),
            p == differ(start, end),
            moved <= i,
            moved == count(p, i as int),
        decreases n - i,
    {
        let at = placement.elements[i].origin;
        assert(end[i as int].origin == at);
        assert(end[i as int].orientation == start[i as int].orientation);
        if at.x != origins[i].x || at.y != origins[i].y {
            moved = moved + 1;
        }
        i = i + 1;
    }
    moved
}

/// Two rooms share rows when, at their heights on a grid of 1.27 mm, they
/// overlap by more than a micrometre, and each has a height.
pub proof fn rows_are_shared_by_height(a: Bounds, ay: int, b: Bounds, below: int)
    ensures
        share_rows(a, ay, b, below) <==> {
            &&& a.max_y > a.min_y
            &&& b.max_y > b.min_y
            &&& ay * 1270 + a.max_y - (below * 1270 + b.min_y) > 1
            &&& below * 1270 + b.max_y - (ay * 1270 + a.min_y) > 1
        },
{
}

/// The steps between two elements are the fewest that keep their rooms apart
/// sideways. A supply takes up no room.
pub proof fn rooms_abut(
    spots: Seq<Spot>,
    checked: &CheckedNetlist,
    prefs: Seq<Option<VertPref>>,
    left: int,
    right: int,
)
    ensures
        ({
            let s = steps_apart(spots, checked, prefs, left, right);
            let (p, q) = (
                room(spots, checked, prefs, left),
                room(spots, checked, prefs, right),
            );
            &&& p.max_x <= s * 1270 + q.min_x
            &&& p.max_x > (s - 1) * 1270 + q.min_x
            &&& checked.elements@[left].role is Power ==> p.min_x == 0 && p.max_x == 0 && p.min_y
                == 0 && p.max_y == 0
        }),
{
}

/// Pins line up when they are of one net that is drawn as wires and stand at
/// one X, the first with its column at `cand`.
pub proof fn lined_pins_stand_at_one_x(
    spots: Seq<Spot>,
    checked: &CheckedNetlist,
    prefs: Seq<Option<VertPref>>,
    cand: int,
    i: int,
    t: int,
    j: int,
    u: int,
    k: int,
    l: int,
)
    requires
        checked.elements@[i].pin_of(spots[i].orientation, t) == Some(k),
        checked.elements@[j].pin_of(spots[j].orientation, u) == Some(l),
    ensures
        ({
            let net = checked.elements@[i].nodes@[t];
            let p = checked.elements@[i].symbol.posed(spots[i].orientation).pins@[k];
            let q = checked.elements@[j].symbol.posed(spots[j].orientation).pins@[l];
            in_line(spots, checked, prefs, cand, i, t, j, u) <==> {
                &&& net == checked.elements@[j].nodes@[u]
                &&& checked.nets@[net as int]@ != "0"@
                &&& prefs[net as int] is None
                &&& checked.elements@[i].role is Normal
                &&& checked.elements@[j].role is Normal
                &&& cand * 1270 + p.x == spots[j].origin.x * 1270 + q.x
            }
        }),
{
}

/// Of the places tried, a column takes one that shorts no more pins than now.
/// No such place lines up more pins, and none to the left of it as many.
pub proof fn columns_take_the_best_place(
    spots: Seq<Spot>,
    checked: &CheckedNetlist,
    prefs: Seq<Option<VertPref>>,
    key: int,
    lower: int,
    n: int,
    c: int,
)
    requires
        lower <= c < lower + n,
        clashes(column_at(spots, key, c), checked) <= clashes(spots, checked),
    ensures
        best_place(spots, checked, prefs, key, lower, n) matches Some(b) && {
            let m = spots.len() as int;
            let (sb, sc) = (
                column_score(spots, checked, prefs, key, b, m),
                column_score(spots, checked, prefs, key, c, m),
            );
            &&& lower <= b < lower + n
            &&& clashes(column_at(spots, key, b), checked) <= clashes(spots, checked)
            &&& sb >= sc
            &&& c < b ==> sb > sc
        },
    decreases n,
{
    best_place_is_tried(spots, checked, prefs, key, lower, n - 1);
    if c < lower + n - 1 {
        columns_take_the_best_place(spots, checked, prefs, key, lower, n - 1, c);
    }
}

proof fn best_place_is_tried(
    spots: Seq<Spot>,
    checked: &CheckedNetlist,
    prefs: Seq<Option<VertPref>>,
    key: int,
    lower: int,
    n: int,
)
    ensures
        best_place(spots, checked, prefs, key, lower, n) matches Some(b) ==> lower <= b < lower + n
            && is_safe(spots, checked, key, b),
    decreases n,
{
    if n > 0 {
        best_place_is_tried(spots, checked, prefs, key, lower, n - 1);
    }
}

/// The floor of a column is no farther right than it must be: it is that of
/// the column to its left, or as far as an element to the left that shares
/// rows with a member pushes the member.
pub proof fn floors_are_tight(
    spots: Seq<Spot>,
    checked: &CheckedNetlist,
    prefs: Seq<Option<VertPref>>,
    key: int,
    base: int,
    n: int,
)
    requires
        n <= spots.len(),
    ensures
        column_floor(spots, checked, prefs, key, base, n) == base || exists|i: int, j: int|
            #![trigger spans_overlap(spots, checked, prefs, i, j)]
            {
                &&& 0 <= i < n && spots[i].origin.x == key
                &&& 0 <= j < spots.len() && spots[j].origin.x < key
                &&& spans_overlap(spots, checked, prefs, i, j)
                &&& column_floor(spots, checked, prefs, key, base, n) == spots[j].origin.x
                    + steps_apart(spots, checked, prefs, j, i)
            },
    decreases n,
{
    if n > 0 {
        floors_are_tight(spots, checked, prefs, key, base, n - 1);
        let rest = column_floor(spots, checked, prefs, key, base, n - 1);
        if spots[n - 1].origin.x == key {
            push_is_tight(spots, checked, prefs, key, rest, n - 1, spots.len() as int);
        }
    }
}

proof fn push_is_tight(
    spots: Seq<Spot>,
    checked: &CheckedNetlist,
    prefs: Seq<Option<VertPref>>,
    key: int,
    base: int,
    i: int,
    n: int,
)
    ensures
        pushed_by(spots, checked, prefs, key, base, i, n) == base || exists|j: int|
            {
                &&& 0 <= j < n && spots[j].origin.x < key
                &&& #[trigger] spans_overlap(spots, checked, prefs, i, j)
                &&& pushed_by(spots, checked, prefs, key, base, i, n) == spots[j].origin.x
                    + steps_apart(spots, checked, prefs, j, i)
            },
    decreases n,
{
    if n > 0 {
        push_is_tight(spots, checked, prefs, key, base, i, n - 1);
    }
}

/// A column goes no farther left than the column left of it, and a pinned
/// member or a place at the left edge keeps it where it is. Else it goes to
/// the best place between its floor and where it stands.
pub proof fn columns_go_left_to_their_floor(
    spots: Seq<Spot>,
    checked: &CheckedNetlist,
    prefs: Seq<Option<VertPref>>,
    pinned: Seq<bool>,
    key: int,
    edge: int,
    w: int,
    c: int,
)
    requires
        0 <= w < spots.len(),
        spots[w].origin.x == edge,
        edge < key,
        forall|j: int|
            0 <= j < spots.len() && (#[trigger] spots[j]).origin.x < key ==> spots[j].origin.x
                <= edge,
        forall|j: int|
            0 <= j < spots.len() && (#[trigger] spots[j]).origin.x == key ==> !pinned[j],
        column_floor(spots, checked, prefs, key, edge, spots.len() as int) <= c <= key,
        clashes(column_at(spots, key, c), checked) <= clashes(spots, checked),
    ensures
        ({
            let b = new_place(spots, checked, prefs, pinned, key);
            let m = spots.len() as int;
            let (sb, sc) = (
                column_score(spots, checked, prefs, key, b, m),
                column_score(spots, checked, prefs, key, c, m),
            );
            &&& edge <= b <= key
            &&& sb >= sc
            &&& c < b ==> sb > sc
        }),
{
    last_left_is_largest(spots, key, spots.len() as int);
    assert(spots[w].origin.x < key);
    assert(last_left_of(spots, key, spots.len() as int) == Some(edge));
    new_place_in_window(spots, checked, prefs, pinned, key);
    let lower = int_min(
        column_floor(spots, checked, prefs, key, edge, spots.len() as int),
        key,
    );
    columns_take_the_best_place(spots, checked, prefs, key, lower, key - lower + 1, c);
}

/// Columns with a pinned member, and the leftmost one, stay.
pub proof fn fixed_columns_stay(
    spots: Seq<Spot>,
    checked: &CheckedNetlist,
    prefs: Seq<Option<VertPref>>,
    pinned: Seq<bool>,
    key: int,
    i: int,
)
    requires
        0 <= i < spots.len() && spots[i].origin.x == key && pinned[i] || forall|j: int|
            0 <= j < spots.len() ==> (#[trigger] spots[j]).origin.x >= key,
    ensures
        new_place(spots, checked, prefs, pinned, key) == key,
{
    last_left_is_largest(spots, key, spots.len() as int);
    new_place_in_window(spots, checked, prefs, pinned, key);
}

} // verus!
