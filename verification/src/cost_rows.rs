//! What the rows and columns of a layout cost: elements outside their band,
//! away from the height they aim for, or out of signal order.
//!
//! Squared distances are in square micrometres.

use vstd::prelude::*;

use crate::bands::{assign_y_bands, Band, BandAssignment};
#[allow(unused_imports)]
use crate::bands::band_of;
#[allow(unused_imports)]
use crate::counting::sum;
use crate::layers::{assign_x_layers, LayerAssignment};
use crate::net_class::{classify_nets, NetClass, NetClassMap};
use crate::netlist::CheckedNetlist;
#[allow(unused_imports)]
use crate::netlist::nets_in_range;
use crate::placement::{Placement, GRID_STEP};
#[allow(unused_imports)]
use crate::placement::{spots_within, Spot, MAX_COORD, MAX_ELEMENTS};
#[allow(unused_imports)]
use crate::placer::champion_placer;
#[allow(unused_imports)]
use crate::seed::{class_list, is_assignment};
#[allow(unused_imports)]
use crate::signal_graph::{is_signal, share_signal};

verus! {

/// Tolerance of the rail bands: one grid step.
pub const BAND_TOL: i64 = 1270;

/// Largest distance of two origins, in micrometres.
pub open spec fn origin_span() -> int {
    2 * (MAX_COORD * GRID_STEP)
}

/// The square of a number.
pub open spec fn square(x: int) -> int {
    x * x
}

/// The excess over zero.
pub open spec fn hinge(x: int) -> int {
    if x > 0 {
        x
    } else {
        0
    }
}

/// The sheet Y of an element's origin.
pub open spec fn y_at(spots: Seq<Spot>, i: int) -> int {
    spots[i].origin.um().1
}

/// The sheet X of an element's origin.
pub open spec fn x_at(spots: Seq<Spot>, i: int) -> int {
    spots[i].origin.um().0
}

pub(crate) proof fn squares_fit(x: int, m: int)
    requires
        -m <= x <= m,
    ensures
        0 <= square(x) <= m * m,
{
    assert(0 <= x * x <= m * m) by (nonlinear_arith)
        requires
            -m <= x <= m,
    ;
}

/// Six times the largest distance, squared, is small enough to be summed over
/// all pairs of elements.
pub(crate) proof fn spans_fit()
    ensures
        0 <= origin_span() <= 2_800_000_000_000,
        0 <= origin_span() * origin_span() <= 7_840_000_000_000_000_000_000_000,
        (12 * origin_span()) * (12 * origin_span()) <= 144 * 7_840_000_000_000_000_000_000_000,
{
    let m = origin_span();
    assert(m * m <= 2_800_000_000_000 * 2_800_000_000_000) by (nonlinear_arith)
        requires
            0 <= m <= 2_800_000_000_000,
    ;
    assert(0 <= m * m) by (nonlinear_arith);
    assert((12 * m) * (12 * m) == 144 * (m * m)) by (nonlinear_arith);
}

fn square_of(x: i128, Ghost(m): Ghost<int>) -> (r: u128)
    requires
        -m <= x <= m,
        m * m <= i128::MAX,
    ensures
        r == square(x as int),
        r <= m * m,
{
    proof {
        squares_fit(x as int, m);
    }
    (x * x) as u128
}

/// The squared excess.
pub(crate) fn hinged(x: i128, Ghost(m): Ghost<int>) -> (r: u128)
    requires
        -m <= x <= m,
        m * m <= i128::MAX,
    ensures
        r == square(hinge(x as int)),
        r <= m * m,
{
    if x > 0 {
        square_of(x, Ghost(m))
    } else {
        proof {
            squares_fit(x as int, m);
            assert(square(0) == 0);
        }
        0
    }
}

fn y_um(placement: &Placement, i: usize) -> (r: i64)
    requires
        i < placement.elements@.len(),
    ensures
        r == y_at(placement.spots(), i as int),
{
    placement.elements[i].origin.to_um().1
}

fn x_um(placement: &Placement, i: usize) -> (r: i64)
    requires
        i < placement.elements@.len(),
    ensures
        r == x_at(placement.spots(), i as int),
{
    placement.elements[i].origin.to_um().0
}

proof fn distance_fits(spots: Seq<Spot>, i: int, j: int)
    requires
        spots_within(spots, MAX_COORD as int),
        0 <= i < spots.len(),
        0 <= j < spots.len(),
    ensures
        -origin_span() <= y_at(spots, i) - y_at(spots, j) <= origin_span(),
        -origin_span() <= x_at(spots, i) - x_at(spots, j) <= origin_span(),
        -origin_span() <= 2 * y_at(spots, i) <= origin_span(),
{
    assert(spots[i].origin.within(MAX_COORD as int));
    assert(spots[j].origin.within(MAX_COORD as int));
}

// ---- Bands -------------------------------------------------------------------------

/// The bands of all elements.
pub open spec fn band_list(checked: &CheckedNetlist) -> Seq<BandAssignment> {
    Seq::new(
        checked.elements@.len(),
        |i: int| band_of(checked.elements@[i], class_list(checked)),
    )
}

/// The highest of the first `n` elements that are in the band.
pub open spec fn highest(spots: Seq<Spot>, bands: Seq<BandAssignment>, band: Band, n: int) -> Option<
    int,
>
    decreases n,
{
    if n <= 0 {
        None
    } else {
        let y = y_at(spots, n - 1);
        let rest = highest(spots, bands, band, n - 1);
        if bands[n - 1].band != band {
            rest
        } else {
            match rest {
                Some(b) => Some(
                    if y < b {
                        y
                    } else {
                        b
                    },
                ),
                None => Some(y),
            }
        }
    }
}

/// The lowest of the first `n` elements that are in the band.
pub open spec fn lowest(spots: Seq<Spot>, bands: Seq<BandAssignment>, band: Band, n: int) -> Option<
    int,
>
    decreases n,
{
    if n <= 0 {
        None
    } else {
        let y = y_at(spots, n - 1);
        let rest = lowest(spots, bands, band, n - 1);
        if bands[n - 1].band != band {
            rest
        } else {
            match rest {
                Some(b) => Some(
                    if y > b {
                        y
                    } else {
                        b
                    },
                ),
                None => Some(y),
            }
        }
    }
}

/// The least Y of the first `n` elements.
pub open spec fn least_y(spots: Seq<Spot>, n: int) -> int
    decreases n,
{
    if n <= 1 {
        y_at(spots, 0)
    } else {
        let rest = least_y(spots, n - 1);
        if y_at(spots, n - 1) < rest {
            y_at(spots, n - 1)
        } else {
            rest
        }
    }
}

/// The largest Y of the first `n` elements.
pub open spec fn largest_y(spots: Seq<Spot>, n: int) -> int
    decreases n,
{
    if n <= 1 {
        y_at(spots, 0)
    } else {
        let rest = largest_y(spots, n - 1);
        if y_at(spots, n - 1) > rest {
            y_at(spots, n - 1)
        } else {
            rest
        }
    }
}

/// How many elements have a band.
pub open spec fn banded(spots: Seq<Spot>, bands: Seq<BandAssignment>) -> int {
    if bands.len() < spots.len() {
        bands.len() as int
    } else {
        spots.len() as int
    }
}

/// The row of the top rail: the highest top-band element, or the top of the
/// layout when there is none.
pub open spec fn top_row(spots: Seq<Spot>, bands: Seq<BandAssignment>) -> int {
    match highest(spots, bands, Band::Top, banded(spots, bands)) {
        Some(y) => y,
        None => least_y(spots, spots.len() as int),
    }
}

/// The row of the bottom rail: the lowest bottom-band element, or the bottom
/// of the layout when there is none.
pub open spec fn bottom_row(spots: Seq<Spot>, bands: Seq<BandAssignment>) -> int {
    match lowest(spots, bands, Band::Bot, banded(spots, bands)) {
        Some(y) => y,
        None => largest_y(spots, spots.len() as int),
    }
}

/// What an element pays for being outside its band. Rail elements are to be on
/// their rail's row, give or take a step; the others between the rails.
pub open spec fn band_excess(spots: Seq<Spot>, bands: Seq<BandAssignment>, i: int) -> int {
    let y = y_at(spots, i);
    let (top, bottom) = (top_row(spots, bands), bottom_row(spots, bands));
    match bands[i].band {
        Band::Top => square(hinge(y - (top + BAND_TOL))),
        Band::Bot => square(hinge((bottom - BAND_TOL) - y)),
        Band::Mid => if y < top {
            square(top - y)
        } else {
            square(hinge(y - bottom))
        },
    }
}

/// What each element pays for being outside its band.
pub open spec fn band_excesses(spots: Seq<Spot>, bands: Seq<BandAssignment>) -> spec_fn(int) -> int {
    |i: int| band_excess(spots, bands, i)
}

proof fn rows_fit(spots: Seq<Spot>, bands: Seq<BandAssignment>, n: int)
    requires
        0 <= n <= spots.len(),
        spots_within(spots, MAX_COORD as int),
    ensures
        highest(spots, bands, Band::Top, n) matches Some(y) ==> -origin_span() <= 2 * y
            <= origin_span(),
        lowest(spots, bands, Band::Bot, n) matches Some(y) ==> -origin_span() <= 2 * y
            <= origin_span(),
        n > 0 ==> -origin_span() <= 2 * least_y(spots, n) <= origin_span(),
        n > 0 ==> -origin_span() <= 2 * largest_y(spots, n) <= origin_span(),
        n > 0 ==> least_y(spots, n) <= largest_y(spots, n),
        forall|i: int|
            0 <= i < n ==> least_y(spots, n) <= #[trigger] y_at(spots, i) <= largest_y(spots, n),
    decreases n,
{
    if n > 0 {
        rows_fit(spots, bands, n - 1);
        distance_fits(spots, n - 1, n - 1);
    }
}

/// The rows of the rails and of the layout.
struct Rows {
    top: Option<i64>,
    bottom: Option<i64>,
    least: i64,
    largest: i64,
}

/// Finds the rows of the rails.
fn find_rows(placement: &Placement, bands: &Vec<BandAssignment>) -> (r: Rows)
    requires
        placement.elements@.len() > 0,
    ensures
        ({
            let spots = placement.spots();
            let n = spots.len() as int;
            let m = banded(spots, bands@);
            &&& match r.top {
                Some(y) => highest(spots, bands@, Band::Top, m) == Some(y as int),
                None => highest(spots, bands@, Band::Top, m) is None,
            }
            &&& match r.bottom {
                Some(y) => lowest(spots, bands@, Band::Bot, m) == Some(y as int),
                None => lowest(spots, bands@, Band::Bot, m) is None,
            }
            &&& r.least == least_y(spots, n)
            &&& r.largest == largest_y(spots, n)
        }),
{
    let ghost spots = placement.spots();
    let first: i64 = y_um(placement, 0);
    let mut rows = Rows { top: None, bottom: None, least: first, largest: first };
    let mut i: usize = 0;
    while i < placement.elements.len()
        invariant
            i <= placement.elements@.len(),
            placement.elements@.len() > 0,
            spots == placement.spots(),
            match rows.top {
                Some(y) => highest(spots, bands@, Band::Top, banded(spots.take(i as int), bands@)) == Some(y as int),
                None => highest(spots, bands@, Band::Top, banded(spots.take(i as int), bands@)) is None,
            },
            match rows.bottom {
                Some(y) => lowest(spots, bands@, Band::Bot, banded(spots.take(i as int), bands@)) == Some(y as int),
                None => lowest(spots, bands@, Band::Bot, banded(spots.take(i as int), bands@)) is None,
            },
            rows.least == least_y(spots, i as int),
            rows.largest == largest_y(spots, i as int),
        decreases placement.elements@.len() - i,
    {
        let y: i64 = y_um(placement, i);
        if i < bands.len() {
            match bands[i].band {
                Band::Top => {
                    rows.top = match rows.top {
                        Some(b) => if y < b {
                            Some(y)
                        } else {
                            Some(b)
                        },
                        None => Some(y),
                    };
                },
                Band::Bot => {
                    rows.bottom = match rows.bottom {
                        Some(b) => if y > b {
                            Some(y)
                        } else {
                            Some(b)
                        },
                        None => Some(y),
                    };
                },
                Band::Mid => {},
            }
        }
        if i > 0 && y < rows.least {
            rows.least = y;
        }
        if i > 0 && y > rows.largest {
            rows.largest = y;
        }
        i = i + 1;
    }
    assert(spots.take(i as int) =~= spots);
    rows
}

proof fn band_excess_fits(spots: Seq<Spot>, bands: Seq<BandAssignment>, i: int)
    requires
        0 <= i < spots.len(),
        spots_within(spots, MAX_COORD as int),
    ensures
        0 <= band_excess(spots, bands, i) <= (2 * origin_span()) * (2 * origin_span()),
{
    rows_fit(spots, bands, spots.len() as int);
    rows_fit(spots, bands, banded(spots, bands));
    distance_fits(spots, i, i);
    let y = y_at(spots, i);
    let (top, bottom) = (top_row(spots, bands), bottom_row(spots, bands));
    let m = 2 * origin_span();
    squares_fit(hinge(y - (top + BAND_TOL)), m);
    squares_fit(hinge((bottom - BAND_TOL) - y), m);
    squares_fit(top - y, m);
    squares_fit(hinge(y - bottom), m);
}

/// What the elements pay together for being outside their bands.
fn band_cost(placement: &Placement, bands: &Vec<BandAssignment>) -> (r: u128)
    requires
        placement.elements@.len() <= MAX_ELEMENTS,
        placement.within(MAX_COORD as int),
    ensures
        r == sum(band_excesses(placement.spots(), bands@), banded(placement.spots(), bands@)),
{
    let ghost spots = placement.spots();
    let ghost f = band_excesses(spots, bands@);
    if placement.elements.len() == 0 {
        return 0;
    }
    let rows = find_rows(placement, bands);
    let top: i64 = match rows.top {
        Some(y) => y,
        None => rows.least,
    };
    let bottom: i64 = match rows.bottom {
        Some(y) => y,
        None => rows.largest,
    };
    let ghost m = 2 * origin_span();
    proof {
        rows_fit(spots, bands@, spots.len() as int);
        rows_fit(spots, bands@, banded(spots, bands@));
        spans_fit();
        assert(m * m == 4 * (origin_span() * origin_span())) by (nonlinear_arith)
            requires
                m == 2 * origin_span(),
        ;
    }
    let mut total: u128 = 0;
    let mut i: usize = 0;
    while i < bands.len() && i < placement.elements.len()
        invariant
            i <= banded(spots, bands@),
            placement.elements@.len() <= MAX_ELEMENTS,
            spots == placement.spots(),
            spots_within(spots, MAX_COORD as int),
            f == band_excesses(spots, bands@),
            top == top_row(spots, bands@),
            bottom == bottom_row(spots, bands@),
            -origin_span() <= 2 * top <= origin_span(),
            -origin_span() <= 2 * bottom <= origin_span(),
            m == 2 * origin_span(),
            0 <= origin_span() <= 2_800_000_000_000,
            0 <= m * m <= 4 * 7_840_000_000_000_000_000_000_000,
            total == sum(f, i as int),
            total <= i * (m * m),
        decreases bands@.len() - i,
    {
        let y: i64 = y_um(placement, i);
        proof {
            distance_fits(spots, i as int, i as int);
            band_excess_fits(spots, bands@, i as int);
            assert((i + 1) * (m * m) == i * (m * m) + m * m) by (nonlinear_arith);
            assert(i * (m * m) <= 65536 * (m * m)) by (nonlinear_arith)
                requires
                    i <= 65536,
                    m * m >= 0,
            ;
        }
        let part: u128 = match bands[i].band {
            Band::Top => hinged(y as i128 - (top as i128 + BAND_TOL as i128), Ghost(m)),
            Band::Bot => hinged((bottom as i128 - BAND_TOL as i128) - y as i128, Ghost(m)),
            Band::Mid => if y < top {
                hinged(top as i128 - y as i128, Ghost(m))
            } else {
                hinged(y as i128 - bottom as i128, Ghost(m))
            },
        };
        assert(part == f(i as int));
        total = total + part;
        i = i + 1;
    }
    total
}

/// What the elements pay together for being outside their bands, in square
/// micrometres. Without bands to go by, they are worked out from the netlist;
/// an element without a band pays nothing.
#[must_use]
pub fn band_misalignment(
    placement: &Placement,
    checked: &CheckedNetlist,
    bands: Option<&Vec<BandAssignment>>,
) -> (r: u128)
    requires
        checked.wf(),
        placement.elements@.len() <= MAX_ELEMENTS,
        placement.within(MAX_COORD as int),
    ensures
        ({
            let list = match bands {
                Some(b) => b@,
                None => band_list(checked),
            };
            r == sum(band_excesses(placement.spots(), list), banded(placement.spots(), list))
        }),
{
    match bands {
        Some(b) => band_cost(placement, b),
        None => {
            let classes = classify_nets(checked);
            assert(classes.class@ =~= class_list(checked));
            let owned = assign_y_bands(checked, &classes);
            assert(owned@ =~= band_list(checked));
            band_cost(placement, &owned)
        },
    }
}

// ---- Heights -----------------------------------------------------------------------

/// Six times the distance of an element from the height it aims for. The scale
/// is the full height of the layout, from its highest to its lowest element of
/// any band, and not that of the middle band alone.
pub open spec fn height_miss(spots: Seq<Spot>, bands: Seq<BandAssignment>, i: int) -> int {
    let n = spots.len() as int;
    let (low, high) = (least_y(spots, n), largest_y(spots, n));
    6 * (y_at(spots, i) - low) - bands[i].soft_y_target_sixths * (high - low)
}

/// The squared misses of the middle-band elements.
pub open spec fn height_misses(spots: Seq<Spot>, bands: Seq<BandAssignment>) -> spec_fn(int) -> int {
    |i: int|
        if bands[i].band == Band::Mid {
            square(height_miss(spots, bands, i))
        } else {
            0
        }
}

/// How far the middle-band elements are from the heights they aim for, in
/// thirty-sixths of square micrometres. A layout without height pays nothing,
/// nor does one with another number of elements than there are bands.
pub open spec fn height_cost(spots: Seq<Spot>, bands: Seq<BandAssignment>) -> int {
    let n = spots.len() as int;
    if n != bands.len() || n == 0 || least_y(spots, n) == largest_y(spots, n) {
        0
    } else {
        sum(height_misses(spots, bands), n)
    }
}

/// How far the middle-band elements are from the heights they aim for, in
/// thirty-sixths of square micrometres.
#[must_use]
pub fn soft_y_residual(placement: &Placement, checked: &CheckedNetlist) -> (r: u128)
    requires
        checked.wf(),
        placement.elements@.len() <= MAX_ELEMENTS,
        placement.within(MAX_COORD as int),
    ensures
        r == height_cost(placement.spots(), band_list(checked)),
{
    let ghost spots = placement.spots();
    let ghost f = height_misses(spots, band_list(checked));
    let classes = classify_nets(checked);
    assert(classes.class@ =~= class_list(checked));
    let bands = assign_y_bands(checked, &classes);
    assert(bands@ =~= band_list(checked));
    if placement.elements.len() != bands.len() || placement.elements.len() == 0 {
        return 0;
    }
    let rows = find_rows(placement, &bands);
    if rows.least == rows.largest {
        return 0;
    }
    let ghost m = 12 * origin_span();
    proof {
        rows_fit(spots, bands@, spots.len() as int);
        spans_fit();
    }
    let span: i128 = rows.largest as i128 - rows.least as i128;
    let mut total: u128 = 0;
    let mut i: usize = 0;
    while i < bands.len()
        invariant
            i <= bands@.len(),
            bands@ == band_list(checked),
            bands@.len() == placement.elements@.len(),
            placement.elements@.len() <= MAX_ELEMENTS,
            spots == placement.spots(),
            spots_within(spots, MAX_COORD as int),
            f == height_misses(spots, bands@),
            rows.least == least_y(spots, spots.len() as int),
            span == largest_y(spots, spots.len() as int) - rows.least,
            0 <= span <= origin_span(),
            forall|k: int|
                0 <= k < spots.len() ==> rows.least <= #[trigger] y_at(spots, k) <= rows.least
                    + span,
            m == 12 * origin_span(),
            0 <= origin_span() <= 2_800_000_000_000,
            m * m <= 144 * 7_840_000_000_000_000_000_000_000,
            0 <= m * m,
            total == sum(f, i as int),
            total <= i * (m * m),
        decreases bands@.len() - i,
    {
        let ghost b = band_of(checked.elements@[i as int], class_list(checked));
        proof {
            distance_fits(spots, i as int, i as int);
            crate::bands::rail_bands_are_pure(checked.elements@[i as int], class_list(checked));
            assert(bands@[i as int] == b);
            assert((i + 1) * (m * m) == i * (m * m) + m * m) by (nonlinear_arith);
            assert(i * (m * m) <= 65536 * (m * m)) by (nonlinear_arith)
                requires
                    i <= 65536,
                    m * m >= 0,
            ;
        }
        if bands[i].band == Band::Mid {
            let y: i64 = y_um(placement, i);
            let sixths: i128 = bands[i].soft_y_target_sixths as i128;
            assert(0 <= sixths * span <= 6 * span) by (nonlinear_arith)
                requires
                    0 <= sixths <= 6,
                    0 <= span,
            ;
            let miss: i128 = 6 * (y as i128 - rows.least as i128) - sixths * span;
            assert(miss == height_miss(spots, bands@, i as int));
            let part: u128 = square_of(miss, Ghost(m));
            assert(part == f(i as int));
            total = total + part;
        } else {
            assert(f(i as int) == 0);
        }
        i = i + 1;
    }
    total
}

/// What a pair pays for being upside down: the element that aims higher is
/// drawn lower.
pub open spec fn inversion(
    spots: Seq<Spot>,
    bands: Seq<BandAssignment>,
    i: int,
    j: int,
) -> int {
    let (a, b) = (bands[i].soft_y_target_sixths, bands[j].soft_y_target_sixths);
    if a < b {
        square(hinge(y_at(spots, i) - y_at(spots, j)))
    } else if b < a {
        square(hinge(y_at(spots, j) - y_at(spots, i)))
    } else {
        0
    }
}

/// What each element pays for being upside down with another one.
pub open spec fn inversions_with(
    spots: Seq<Spot>,
    bands: Seq<BandAssignment>,
    j: int,
) -> spec_fn(int) -> int {
    |i: int| inversion(spots, bands, i, j)
}

/// What each element pays for being upside down with those before it.
pub open spec fn inversions_below(spots: Seq<Spot>, bands: Seq<BandAssignment>) -> spec_fn(
    int,
) -> int {
    |j: int| sum(inversions_with(spots, bands, j), j)
}

/// What all pairs pay together for being upside down. A layout with another
/// number of elements than there are bands pays nothing.
pub open spec fn inversion_cost(spots: Seq<Spot>, bands: Seq<BandAssignment>) -> int {
    if spots.len() != bands.len() {
        0
    } else {
        sum(inversions_below(spots, bands), spots.len() as int)
    }
}

/// What pairs of elements pay for being drawn against the order of the heights
/// they aim for, in square micrometres.
#[must_use]
pub fn band_inversion(placement: &Placement, checked: &CheckedNetlist) -> (r: u128)
    requires
        checked.wf(),
        placement.elements@.len() <= MAX_ELEMENTS,
        placement.within(MAX_COORD as int),
    ensures
        r == inversion_cost(placement.spots(), band_list(checked)),
{
    let ghost spots = placement.spots();
    let classes = classify_nets(checked);
    assert(classes.class@ =~= class_list(checked));
    let bands = assign_y_bands(checked, &classes);
    assert(bands@ =~= band_list(checked));
    if placement.elements.len() != bands.len() {
        return 0;
    }
    let ghost m = origin_span();
    let ghost f = inversions_below(spots, bands@);
    proof {
        spans_fit();
    }
    let mut total: u128 = 0;
    let mut j: usize = 0;
    while j < bands.len()
        invariant
            j <= bands@.len(),
            bands@.len() == placement.elements@.len(),
            placement.elements@.len() <= MAX_ELEMENTS,
            spots == placement.spots(),
            spots_within(spots, MAX_COORD as int),
            f == inversions_below(spots, bands@),
            m == origin_span(),
            0 <= m <= 2_800_000_000_000,
            0 <= m * m <= 7_840_000_000_000_000_000_000_000,
            total == sum(f, j as int),
            total <= j * (65536 * (m * m)),
        decreases bands@.len() - j,
    {
        let ghost g = inversions_with(spots, bands@, j as int);
        let low: i64 = y_um(placement, j);
        let mut part: u128 = 0;
        let mut i: usize = 0;
        while i < j
            invariant
                i <= j,
                j < bands@.len(),
                bands@.len() == placement.elements@.len(),
                placement.elements@.len() <= MAX_ELEMENTS,
                spots == placement.spots(),
                spots_within(spots, MAX_COORD as int),
                g == inversions_with(spots, bands@, j as int),
                low == y_at(spots, j as int),
                m == origin_span(),
                0 <= m <= 2_800_000_000_000,
                0 <= m * m <= 7_840_000_000_000_000_000_000_000,
                part == sum(g, i as int),
                part <= i * (m * m),
            decreases j - i,
        {
            proof {
                distance_fits(spots, i as int, j as int);
                assert((i + 1) * (m * m) == i * (m * m) + m * m) by (nonlinear_arith);
                assert(i * (m * m) <= 65536 * (m * m)) by (nonlinear_arith)
                    requires
                        i <= 65536,
                        m * m >= 0,
                ;
            }
            let y: i64 = y_um(placement, i);
            let (a, b): (u32, u32) = (
                bands[i].soft_y_target_sixths,
                bands[j].soft_y_target_sixths,
            );
            let add: u128 = if a < b {
                hinged(y as i128 - low as i128, Ghost(m))
            } else if b < a {
                hinged(low as i128 - y as i128, Ghost(m))
            } else {
                0
            };
            assert(add == g(i as int));
            part = part + add;
            i = i + 1;
        }
        proof {
            assert(part == f(j as int));
            assert(i * (m * m) <= 65536 * (m * m)) by (nonlinear_arith)
                requires
                    i <= 65536,
                    m * m >= 0,
            ;
            let w = 65536 * (m * m);
            assert((j + 1) * w == j * w + w) by (nonlinear_arith);
            assert(j * w <= 65536 * w) by (nonlinear_arith)
                requires
                    j <= 65536,
                    w >= 0,
            ;
        }
        total = total + part;
        j = j + 1;
    }
    total
}

/// What upside-down pairs pay depends on the order of the rows alone: moving
/// the whole layout up or down changes nothing.
pub proof fn inversions_ignore_shifts(
    a: Seq<Spot>,
    b: Seq<Spot>,
    bands: Seq<BandAssignment>,
    d: int,
)
    requires
        a.len() == b.len(),
        forall|i: int| 0 <= i < a.len() ==> #[trigger] y_at(b, i) == y_at(a, i) + d,
    ensures
        inversion_cost(a, bands) == inversion_cost(b, bands),
{
    let (f, g) = (inversions_below(a, bands), inversions_below(b, bands));
    assert forall|j: int| 0 <= j < a.len() implies #[trigger] f(j) == g(j) by {
        let (p, q) = (inversions_with(a, bands, j), inversions_with(b, bands, j));
        assert(y_at(b, j) == y_at(a, j) + d);
        assert forall|i: int| 0 <= i < j implies #[trigger] p(i) == q(i) by {
            assert(y_at(b, i) == y_at(a, i) + d);
        }
        crate::counting::sum_eq(p, q, j);
    }
    crate::counting::sum_eq(f, g, a.len() as int);
}

// ---- Signal order --------------------------------------------------------------------

/// What a pair pays when `u` feeds `v` through a signal net from an earlier
/// layer and stands right of it.
pub open spec fn order_excess(
    spots: Seq<Spot>,
    checked: &CheckedNetlist,
    layers: Seq<u32>,
    u: int,
    v: int,
) -> int {
    if u != v && layers[u] < layers[v] && share_signal(checked, class_list(checked), u, v) {
        square(hinge(x_at(spots, u) - x_at(spots, v)))
    } else {
        0
    }
}

/// What each element pays for standing against the signal with another one.
pub open spec fn order_excesses(
    spots: Seq<Spot>,
    checked: &CheckedNetlist,
    layers: Seq<u32>,
    u: int,
) -> spec_fn(int) -> int {
    |v: int| order_excess(spots, checked, layers, u, v)
}

/// What each element pays for standing against the signal.
pub open spec fn order_rows(
    spots: Seq<Spot>,
    checked: &CheckedNetlist,
    layers: Seq<u32>,
) -> spec_fn(int) -> int {
    |u: int| sum(order_excesses(spots, checked, layers, u), spots.len() as int)
}

/// What all pairs pay together for being out of signal order. Layers without a
/// signal source say nothing of direction, nor do layers for another number of
/// elements.
pub open spec fn order_cost(
    spots: Seq<Spot>,
    checked: &CheckedNetlist,
    asg: LayerAssignment,
) -> int {
    if asg.no_source_fallback || asg.layers@.len() != spots.len() {
        0
    } else {
        sum(order_rows(spots, checked, asg.layers@), spots.len() as int)
    }
}

/// Whether two elements share a signal net.
fn shares_signal(checked: &CheckedNetlist, classes: &NetClassMap, i: usize, j: usize) -> (r: bool)
    requires
        checked.wf(),
        classes.class@ == class_list(checked),
        i < checked.elements@.len(),
        j < checked.elements@.len(),
    ensures
        r == share_signal(checked, class_list(checked), i as int, j as int),
{
    let nodes = &checked.elements[i].nodes;
    assert(nets_in_range(checked.elements@[i as int].nodes@, checked.nets@.len()));
    let mut t: usize = 0;
    while t < nodes.len()
        invariant
            t <= nodes@.len(),
            checked.wf(),
            classes.class@ == class_list(checked),
            i < checked.elements@.len(),
            j < checked.elements@.len(),
            nodes@ == checked.elements@[i as int].nodes@,
            nets_in_range(nodes@, checked.nets@.len()),
            forall|k: int|
                0 <= k < t ==> !(is_signal(class_list(checked)[#[trigger] nodes@[k] as int])
                    && checked.touches(j as int, nodes@[k] as int)),
        decreases nodes@.len() - t,
    {
        let net: usize = nodes[t];
        let signal = match classes.class[net] {
            Some(c) => c == NetClass::Signal,
            None => true,
        };
        if signal && crate::net_class::element_touches(checked, j, net) {
            assert(checked.elements@[i as int].nodes@[t as int] == net);
            assert(checked.touches(i as int, net as int));
            return true;
        }
        t = t + 1;
    }
    proof {
        if share_signal(checked, class_list(checked), i as int, j as int) {
            let net = choose|net: int|
                0 <= net < checked.nets@.len() && is_signal(class_list(checked)[net])
                    && #[trigger] checked.touches(i as int, net) && checked.touches(
                    j as int,
                    net,
                );
            let k = choose|k: int|
                0 <= k < nodes@.len() && #[trigger] checked.elements@[i as int].nodes@[k] == net;
            assert(nodes@[k] == net);
        }
    }
    false
}

/// What pairs of elements pay for standing against the signal, in square
/// micrometres.
#[must_use]
pub fn layer_order(placement: &Placement, checked: &CheckedNetlist) -> (r: u128)
    requires
        checked.wf(),
        checked.elements@.len() < u32::MAX - 2,
        placement.elements@.len() <= MAX_ELEMENTS,
        placement.within(MAX_COORD as int),
    ensures
        exists|asg: LayerAssignment| #[trigger]
            is_assignment(checked, champion_placer(), asg) && r == order_cost(
                placement.spots(),
                checked,
                asg,
            ),
{
    let ghost spots = placement.spots();
    let classes = classify_nets(checked);
    assert(classes.class@ =~= class_list(checked));
    let asg = assign_x_layers(checked, &classes);
    assert(is_assignment(checked, champion_placer(), asg));
    if asg.no_source_fallback || asg.layers.len() != placement.elements.len() {
        return 0;
    }
    let ghost layers = asg.layers@;
    let ghost m = origin_span();
    let ghost f = order_rows(spots, checked, layers);
    proof {
        spans_fit();
    }
    let n: usize = checked.elements.len();
    let mut total: u128 = 0;
    let mut u: usize = 0;
    while u < n
        invariant
            u <= n,
            n == checked.elements@.len(),
            n <= MAX_ELEMENTS,
            checked.wf(),
            classes.class@ == class_list(checked),
            placement.elements@.len() == n,
            spots == placement.spots(),
            spots_within(spots, MAX_COORD as int),
            layers == asg.layers@,
            layers.len() == n,
            f == order_rows(spots, checked, layers),
            m == origin_span(),
            0 <= m <= 2_800_000_000_000,
            0 <= m * m <= 7_840_000_000_000_000_000_000_000,
            total == sum(f, u as int),
            total <= u * (65536 * (m * m)),
        decreases n - u,
    {
        let ghost g = order_excesses(spots, checked, layers, u as int);
        let from: i64 = x_um(placement, u);
        let mut part: u128 = 0;
        let mut v: usize = 0;
        while v < n
            invariant
                v <= n,
                u < n,
                n == checked.elements@.len(),
                n <= MAX_ELEMENTS,
                checked.wf(),
                classes.class@ == class_list(checked),
                placement.elements@.len() == n,
                spots == placement.spots(),
                spots_within(spots, MAX_COORD as int),
                layers == asg.layers@,
                layers.len() == n,
                g == order_excesses(spots, checked, layers, u as int),
                from == x_at(spots, u as int),
                m == origin_span(),
                0 <= m <= 2_800_000_000_000,
                0 <= m * m <= 7_840_000_000_000_000_000_000_000,
                part == sum(g, v as int),
                part <= v * (m * m),
            decreases n - v,
        {
            proof {
                distance_fits(spots, u as int, v as int);
                assert((v + 1) * (m * m) == v * (m * m) + m * m) by (nonlinear_arith);
                assert(v * (m * m) <= 65536 * (m * m)) by (nonlinear_arith)
                    requires
                        v <= 65536,
                        m * m >= 0,
                ;
            }
            let mut add: u128 = 0;
            if u != v && asg.layers[u] < asg.layers[v] && shares_signal(checked, &classes, u, v) {
                let to: i64 = x_um(placement, v);
                add = hinged(from as i128 - to as i128, Ghost(m));
            }
            assert(add == g(v as int));
            part = part + add;
            v = v + 1;
        }
        proof {
            assert(part == f(u as int));
            assert(v * (m * m) <= 65536 * (m * m)) by (nonlinear_arith)
                requires
                    v <= 65536,
                    m * m >= 0,
            ;
            let w = 65536 * (m * m);
            assert((u + 1) * w == u * w + w) by (nonlinear_arith);
            assert(u * w <= 65536 * w) by (nonlinear_arith)
                requires
                    u <= 65536,
                    w >= 0,
            ;
        }
        total = total + part;
        u = u + 1;
    }
    total
}

// ---- What the rows and columns ask for -------------------------------------------------

proof fn squares_vanish(x: int)
    ensures
        square(x) >= 0,
        square(x) == 0 <==> x == 0,
{
    assert(x * x >= 0) by (nonlinear_arith);
    if x != 0 {
        assert(x * x > 0) by (nonlinear_arith)
            requires
                x != 0,
        ;
    }
}

/// The highest of some elements has the smallest Y.
proof fn highest_is_highest(spots: Seq<Spot>, bands: Seq<BandAssignment>, band: Band, n: int)
    requires
        0 <= n <= spots.len(),
        n <= bands.len(),
    ensures
        match highest(spots, bands, band, n) {
            Some(y) => {
                &&& exists|k: int| 0 <= k < n && (#[trigger] bands[k]).band == band && y_at(spots, k) == y
                &&& forall|k: int|
                    0 <= k < n && (#[trigger] bands[k]).band == band ==> y <= y_at(spots, k)
            },
            None => forall|k: int| 0 <= k < n ==> (#[trigger] bands[k]).band != band,
        },
        match lowest(spots, bands, band, n) {
            Some(y) => {
                &&& exists|k: int| 0 <= k < n && (#[trigger] bands[k]).band == band && y_at(spots, k) == y
                &&& forall|k: int|
                    0 <= k < n && (#[trigger] bands[k]).band == band ==> y >= y_at(spots, k)
            },
            None => forall|k: int| 0 <= k < n ==> (#[trigger] bands[k]).band != band,
        },
    decreases n,
{
    if n > 0 {
        highest_is_highest(spots, bands, band, n - 1);
        let last = bands[n - 1];
        match highest(spots, bands, band, n - 1) {
            Some(y) => {
                let k = choose|k: int|
                    0 <= k < n - 1 && (#[trigger] bands[k]).band == band && y_at(spots, k) == y;
                assert(bands[k].band == band);
            },
            None => {},
        }
        match lowest(spots, bands, band, n - 1) {
            Some(y) => {
                let k = choose|k: int|
                    0 <= k < n - 1 && (#[trigger] bands[k]).band == band && y_at(spots, k) == y;
                assert(bands[k].band == band);
            },
            None => {},
        }
    }
}

proof fn extremes_are_extreme(spots: Seq<Spot>, n: int)
    requires
        0 < n <= spots.len(),
    ensures
        exists|k: int| 0 <= k < n && #[trigger] y_at(spots, k) == least_y(spots, n),
        exists|k: int| 0 <= k < n && #[trigger] y_at(spots, k) == largest_y(spots, n),
        forall|k: int|
            0 <= k < n ==> least_y(spots, n) <= #[trigger] y_at(spots, k) <= largest_y(spots, n),
    decreases n,
{
    if n > 1 {
        extremes_are_extreme(spots, n - 1);
        let a = choose|k: int| 0 <= k < n - 1 && #[trigger] y_at(spots, k) == least_y(spots, n - 1);
        let b = choose|k: int|
            0 <= k < n - 1 && #[trigger] y_at(spots, k) == largest_y(spots, n - 1);
        assert(y_at(spots, a) == least_y(spots, n) || y_at(spots, n - 1) == least_y(spots, n));
        assert(y_at(spots, b) == largest_y(spots, n) || y_at(spots, n - 1) == largest_y(spots, n));
    } else {
        assert(y_at(spots, 0) == least_y(spots, n));
        assert(y_at(spots, 0) == largest_y(spots, n));
    }
}

/// What a band asks for. A top-band element pays nothing exactly if it is no
/// more than a grid step below any other of its band, and a bottom-band one if
/// it is no more than a step above any other of its band. A middle-band element
/// pays nothing exactly if some top-band element, or any element at all where
/// there is none, is not below it, and some bottom-band element, or any at all,
/// is not above it. Sheet Y grows down.
pub proof fn bands_are_kept_for_free(spots: Seq<Spot>, bands: Seq<BandAssignment>, i: int)
    requires
        spots.len() == bands.len(),
        0 <= i < spots.len(),
    ensures
        ({
            let y = |k: int| spots[k].origin.y;
            let any = |band: Band| exists|k: int|
                0 <= k < bands.len() && (#[trigger] bands[k]).band == band;
            let capped = exists|k: int|
                0 <= k < bands.len() && ((#[trigger] bands[k]).band == Band::Top || !any(Band::Top))
                    && y(k) <= y(i);
            let floored = exists|k: int|
                0 <= k < bands.len() && ((#[trigger] bands[k]).band == Band::Bot || !any(Band::Bot))
                    && y(k) >= y(i);
            &&& band_excess(spots, bands, i) >= 0
            &&& band_excess(spots, bands, i) == 0 <==> match bands[i].band {
                Band::Top => forall|k: int|
                    0 <= k < bands.len() && (#[trigger] bands[k]).band == Band::Top ==> y(i) <= y(k)
                        + 1,
                Band::Bot => forall|k: int|
                    0 <= k < bands.len() && (#[trigger] bands[k]).band == Band::Bot ==> y(i) >= y(k)
                        - 1,
                Band::Mid => capped && floored,
            }
        }),
{
    let n = spots.len() as int;
    assert(banded(spots, bands) == n);
    highest_is_highest(spots, bands, Band::Top, n);
    highest_is_highest(spots, bands, Band::Bot, n);
    extremes_are_extreme(spots, n);
    assert forall|k: int| 0 <= k < n implies #[trigger] y_at(spots, k) == spots[k].origin.y * 1270 by {}
    let (top, bottom) = (top_row(spots, bands), bottom_row(spots, bands));
    let y = y_at(spots, i);
    squares_vanish(hinge(y - (top + BAND_TOL)));
    squares_vanish(hinge((bottom - BAND_TOL) - y));
    squares_vanish(top - y);
    squares_vanish(hinge(y - bottom));
    let me = bands[i];
    assert(y_at(spots, i) == spots[i].origin.y * 1270);
    let a = choose|k: int| 0 <= k < n && #[trigger] y_at(spots, k) == least_y(spots, n);
    let b = choose|k: int| 0 <= k < n && #[trigger] y_at(spots, k) == largest_y(spots, n);
    assert(y_at(spots, a) == spots[a].origin.y * 1270 && y_at(spots, b) == spots[b].origin.y
        * 1270);
    let (ba, bb) = (bands[a], bands[b]);
    assert forall|k: int| 0 <= k < n implies least_y(spots, n) <= spots[k].origin.y * 1270
        <= largest_y(spots, n) && (#[trigger] bands[k]) == bands[k] by {
        assert(y_at(spots, k) == spots[k].origin.y * 1270);
    }
    match highest(spots, bands, Band::Top, n) {
        Some(t) => {
            let k = choose|k: int|
                0 <= k < n && (#[trigger] bands[k]).band == Band::Top && y_at(spots, k) == t;
            assert(bands[k].band == Band::Top);
            assert(y_at(spots, k) == spots[k].origin.y * 1270);
            assert forall|j: int| 0 <= j < n && (#[trigger] bands[j]).band == Band::Top implies
                spots[k].origin.y <= spots[j].origin.y by {
                assert(y_at(spots, j) == spots[j].origin.y * 1270);
            }
        },
        None => {},
    }
    match lowest(spots, bands, Band::Bot, n) {
        Some(t) => {
            let k = choose|k: int|
                0 <= k < n && (#[trigger] bands[k]).band == Band::Bot && y_at(spots, k) == t;
            assert(bands[k].band == Band::Bot);
            assert(y_at(spots, k) == spots[k].origin.y * 1270);
            assert forall|j: int| 0 <= j < n && (#[trigger] bands[j]).band == Band::Bot implies
                spots[k].origin.y >= spots[j].origin.y by {
                assert(y_at(spots, j) == spots[j].origin.y * 1270);
            }
        },
        None => {},
    }
}

/// What a height aims for. With `lo` the highest and `hi` the lowest element, a
/// layout pays nothing exactly if every middle-band element stands at its
/// target: so many sixths of the way from the highest to the lowest.
pub proof fn heights_are_met_for_free(
    spots: Seq<Spot>,
    bands: Seq<BandAssignment>,
    lo: int,
    hi: int,
)
    requires
        spots.len() == bands.len(),
        0 <= lo < spots.len(),
        0 <= hi < spots.len(),
        forall|k: int|
            0 <= k < spots.len() ==> spots[lo].origin.y <= (#[trigger] spots[k]).origin.y
                <= spots[hi].origin.y,
    ensures
        height_cost(spots, bands) >= 0,
        height_cost(spots, bands) == 0 <==> spots[lo].origin.y == spots[hi].origin.y || forall|k: int|
            0 <= k < spots.len() && (#[trigger] bands[k]).band == Band::Mid ==> 6 * (
            spots[k].origin.y - spots[lo].origin.y) == bands[k].soft_y_target_sixths * (
            spots[hi].origin.y - spots[lo].origin.y),
{
    let n = spots.len() as int;
    extremes_are_extreme(spots, n);
    let a = choose|k: int| 0 <= k < n && #[trigger] y_at(spots, k) == least_y(spots, n);
    let b = choose|k: int| 0 <= k < n && #[trigger] y_at(spots, k) == largest_y(spots, n);
    let (sa, sb) = (spots[a], spots[b]);
    assert(y_at(spots, lo) == spots[lo].origin.y * 1270);
    assert(y_at(spots, hi) == spots[hi].origin.y * 1270);
    assert(least_y(spots, n) == spots[lo].origin.y * 1270);
    assert(largest_y(spots, n) == spots[hi].origin.y * 1270);
    let f = height_misses(spots, bands);
    let (low, span) = (spots[lo].origin.y, spots[hi].origin.y - spots[lo].origin.y);
    assert forall|k: int| 0 <= k < n implies #[trigger] f(k) >= 0 && (f(k) == 0 <==> bands[k].band
        != Band::Mid || 6 * (spots[k].origin.y - low) == bands[k].soft_y_target_sixths * span) by {
        let t = bands[k].soft_y_target_sixths as int;
        squares_vanish(height_miss(spots, bands, k));
        assert(t * (largest_y(spots, n) - least_y(spots, n)) == (t * span) * 1270)
            by (nonlinear_arith)
            requires
                largest_y(spots, n) - least_y(spots, n) == span * 1270,
        ;
    }
    crate::counting::sum_zero_iff(f, n);
    if n > 0 && span != 0 {
        if height_cost(spots, bands) == 0 {
            assert forall|k: int| 0 <= k < n && (#[trigger] bands[k]).band == Band::Mid implies 6 * (
            spots[k].origin.y - low) == bands[k].soft_y_target_sixths * span by {
                assert(f(k) == 0);
            }
        }
        if forall|k: int|
            0 <= k < n && (#[trigger] bands[k]).band == Band::Mid ==> 6 * (spots[k].origin.y - low)
                == bands[k].soft_y_target_sixths * span {
            assert forall|k: int| 0 <= k < n implies #[trigger] f(k) == 0 by {
                let m = bands[k];
            }
        }
    }
}

/// What the order of heights asks for: a layout pays nothing exactly if no
/// element that aims higher than another is drawn below it. A pair that is
/// upside down pays the square of its distance.
pub proof fn upright_pairs_are_free(spots: Seq<Spot>, bands: Seq<BandAssignment>)
    requires
        spots.len() == bands.len(),
    ensures
        inversion_cost(spots, bands) >= 0,
        inversion_cost(spots, bands) == 0 <==> forall|i: int, j: int|
            #![trigger bands[i], bands[j]]
            0 <= i < spots.len() && 0 <= j < spots.len() && bands[i].soft_y_target_sixths
                < bands[j].soft_y_target_sixths ==> spots[i].origin.y <= spots[j].origin.y,
        forall|i: int, j: int|
            0 <= i < spots.len() && 0 <= j < spots.len() && bands[i].soft_y_target_sixths
                < bands[j].soft_y_target_sixths && spots[i].origin.y > spots[j].origin.y
                ==> #[trigger] inversion(spots, bands, i, j) == (1270 * (spots[i].origin.y
                - spots[j].origin.y)) * (1270 * (spots[i].origin.y - spots[j].origin.y)),
{
    let n = spots.len() as int;
    let f = inversions_below(spots, bands);
    assert forall|i: int, j: int| 0 <= i < n && 0 <= j < n implies #[trigger] inversion(
        spots,
        bands,
        i,
        j,
    ) >= 0 && (inversion(spots, bands, i, j) == 0 <==> !(bands[i].soft_y_target_sixths
        < bands[j].soft_y_target_sixths && spots[i].origin.y > spots[j].origin.y) && !(
    bands[j].soft_y_target_sixths < bands[i].soft_y_target_sixths && spots[j].origin.y
        > spots[i].origin.y)) && inversion(spots, bands, i, j) == inversion(spots, bands, j, i) by {
        squares_vanish(hinge(y_at(spots, i) - y_at(spots, j)));
        squares_vanish(hinge(y_at(spots, j) - y_at(spots, i)));
    }
    assert forall|j: int| 0 <= j < n implies #[trigger] f(j) >= 0 && (f(j) == 0 <==> forall|i: int|
        0 <= i < j ==> #[trigger] inversion(spots, bands, i, j) == 0) by {
        let g = inversions_with(spots, bands, j);
        assert forall|i: int| 0 <= i < j implies #[trigger] g(i) >= 0 by {
            assert(inversion(spots, bands, i, j) >= 0);
        }
        crate::counting::sum_zero_iff(g, j);
        if f(j) == 0 {
            assert forall|i: int| 0 <= i < j implies #[trigger] inversion(spots, bands, i, j) == 0 by {
                assert(g(i) == 0);
            }
        }
        if forall|i: int| 0 <= i < j ==> #[trigger] inversion(spots, bands, i, j) == 0 {
            assert forall|i: int| 0 <= i < j implies #[trigger] g(i) == 0 by {
                assert(inversion(spots, bands, i, j) == 0);
            }
        }
    }
    crate::counting::sum_zero_iff(f, n);
    if inversion_cost(spots, bands) == 0 {
        assert forall|i: int, j: int|
            #![trigger bands[i], bands[j]]
            0 <= i < n && 0 <= j < n && bands[i].soft_y_target_sixths
                < bands[j].soft_y_target_sixths implies spots[i].origin.y <= spots[j].origin.y by {
            let (a, b) = if i < j {
                (i, j)
            } else {
                (j, i)
            };
            assert(f(b) == 0);
            assert(inversion(spots, bands, a, b) == 0);
        }
    }
    if forall|i: int, j: int|
        #![trigger bands[i], bands[j]]
        0 <= i < n && 0 <= j < n && bands[i].soft_y_target_sixths < bands[j].soft_y_target_sixths
            ==> spots[i].origin.y <= spots[j].origin.y {
        assert forall|j: int| 0 <= j < n implies #[trigger] f(j) == 0 by {
            assert forall|i: int| 0 <= i < j implies #[trigger] inversion(spots, bands, i, j) == 0 by {
                let (a, b) = (bands[i], bands[j]);
            }
        }
    }
}

/// What the signal's direction asks for: a layout pays nothing exactly if no
/// element stands right of one in a later column that it shares a signal net
/// with. A pair that stands the wrong way round pays the square of its
/// distance.
pub proof fn rightward_pairs_are_free(
    spots: Seq<Spot>,
    checked: &CheckedNetlist,
    asg: LayerAssignment,
)
    requires
        !asg.no_source_fallback,
        asg.layers@.len() == spots.len(),
    ensures
        order_cost(spots, checked, asg) >= 0,
        order_cost(spots, checked, asg) == 0 <==> forall|u: int, v: int|
            0 <= u < spots.len() && 0 <= v < spots.len() && asg.layers@[u] < asg.layers@[v]
                && #[trigger] share_signal(checked, class_list(checked), u, v) ==> spots[u].origin.x
                <= spots[v].origin.x,
        forall|u: int, v: int|
            0 <= u < spots.len() && 0 <= v < spots.len() && asg.layers@[u] < asg.layers@[v]
                && share_signal(checked, class_list(checked), u, v) && spots[u].origin.x
                > spots[v].origin.x ==> #[trigger] order_excess(
                spots,
                checked,
                asg.layers@,
                u,
                v,
            ) == (1270 * (spots[u].origin.x - spots[v].origin.x)) * (1270 * (spots[u].origin.x
                - spots[v].origin.x)),
{
    let n = spots.len() as int;
    let layers = asg.layers@;
    let f = order_rows(spots, checked, layers);
    assert forall|u: int, v: int| 0 <= u < n && 0 <= v < n implies #[trigger] order_excess(
        spots,
        checked,
        layers,
        u,
        v,
    ) >= 0 && (order_excess(spots, checked, layers, u, v) == 0 <==> !(layers[u] < layers[v]
        && share_signal(checked, class_list(checked), u, v) && spots[u].origin.x
        > spots[v].origin.x)) by {
        squares_vanish(hinge(x_at(spots, u) - x_at(spots, v)));
    }
    assert forall|u: int| 0 <= u < n implies #[trigger] f(u) >= 0 && (f(u) == 0 <==> forall|v: int|
        0 <= v < n ==> #[trigger] order_excess(spots, checked, layers, u, v) == 0) by {
        let g = order_excesses(spots, checked, layers, u);
        assert forall|v: int| 0 <= v < n implies #[trigger] g(v) >= 0 by {
            assert(order_excess(spots, checked, layers, u, v) >= 0);
        }
        crate::counting::sum_zero_iff(g, n);
        if f(u) == 0 {
            assert forall|v: int| 0 <= v < n implies #[trigger] order_excess(
                spots,
                checked,
                layers,
                u,
                v,
            ) == 0 by {
                assert(g(v) == 0);
            }
        }
        if forall|v: int| 0 <= v < n ==> #[trigger] order_excess(spots, checked, layers, u, v) == 0 {
            assert forall|v: int| 0 <= v < n implies #[trigger] g(v) == 0 by {
                assert(order_excess(spots, checked, layers, u, v) == 0);
            }
        }
    }
    crate::counting::sum_zero_iff(f, n);
    if order_cost(spots, checked, asg) == 0 {
        assert forall|u: int, v: int|
            0 <= u < n && 0 <= v < n && layers[u] < layers[v] && #[trigger] share_signal(
                checked,
                class_list(checked),
                u,
                v,
            ) implies spots[u].origin.x <= spots[v].origin.x by {
            assert(f(u) == 0);
            assert(order_excess(spots, checked, layers, u, v) == 0);
        }
    }
    if forall|u: int, v: int|
        0 <= u < n && 0 <= v < n && layers[u] < layers[v] && #[trigger] share_signal(
            checked,
            class_list(checked),
            u,
            v,
        ) ==> spots[u].origin.x <= spots[v].origin.x {
        assert forall|u: int| 0 <= u < n implies #[trigger] f(u) == 0 by {
            assert forall|v: int| 0 <= v < n implies #[trigger] order_excess(
                spots,
                checked,
                layers,
                u,
                v,
            ) == 0 by {}
        }
    }
}

/// Element `i` is the extreme one in the band: none of the band is above it,
/// or with `low` none is below it.
pub open spec fn heads_band(
    spots: Seq<Spot>,
    bands: Seq<BandAssignment>,
    band: Band,
    low: bool,
    i: int,
) -> bool {
    &&& 0 <= i < bands.len()
    &&& bands[i].band == band
    &&& forall|j: int|
        0 <= j < bands.len() && (#[trigger] bands[j]).band == band ==> if low {
            spots[j].origin.y <= spots[i].origin.y
        } else {
            spots[j].origin.y >= spots[i].origin.y
        }
}

/// With `t` heading the top band and `b` ending the bottom band, an element of
/// the top band pays the square of what it is more than a step below `t`, one
/// of the bottom band of what it is more than a step above `b`, and one
/// between of what it is above `t` or below `b`.
pub proof fn bands_cost_the_square_of_the_miss(
    spots: Seq<Spot>,
    bands: Seq<BandAssignment>,
    t: int,
    b: int,
    i: int,
)
    requires
        spots.len() == bands.len(),
        heads_band(spots, bands, Band::Top, false, t),
        heads_band(spots, bands, Band::Bot, true, b),
        0 <= i < spots.len(),
    ensures
        ({
            let below_top = 1270 * (spots[i].origin.y - spots[t].origin.y);
            let above_bottom = 1270 * (spots[b].origin.y - spots[i].origin.y);
            let miss = match bands[i].band {
                Band::Top => if below_top > 1270 {
                    below_top - 1270
                } else {
                    0
                },
                Band::Bot => if above_bottom > 1270 {
                    above_bottom - 1270
                } else {
                    0
                },
                Band::Mid => if below_top < 0 {
                    -below_top
                } else if above_bottom < 0 {
                    -above_bottom
                } else {
                    0
                },
            };
            band_excess(spots, bands, i) == miss * miss
        }),
{
    highest_heads(spots, bands, t, bands.len() as int);
    lowest_ends(spots, bands, b, bands.len() as int);
}

proof fn highest_heads(spots: Seq<Spot>, bands: Seq<BandAssignment>, t: int, n: int)
    requires
        heads_band(spots, bands, Band::Top, false, t),
        n <= bands.len(),
    ensures
        t < n ==> highest(spots, bands, Band::Top, n) == Some(y_at(spots, t)),
        highest(spots, bands, Band::Top, n) matches Some(y) ==> y >= y_at(spots, t),
    decreases n,
{
    if n > 0 {
        highest_heads(spots, bands, t, n - 1);
        assert(bands[n - 1].band == Band::Top ==> spots[n - 1].origin.y >= spots[t].origin.y);
    }
}

proof fn lowest_ends(spots: Seq<Spot>, bands: Seq<BandAssignment>, b: int, n: int)
    requires
        heads_band(spots, bands, Band::Bot, true, b),
        n <= bands.len(),
    ensures
        b < n ==> lowest(spots, bands, Band::Bot, n) == Some(y_at(spots, b)),
        lowest(spots, bands, Band::Bot, n) matches Some(y) ==> y <= y_at(spots, b),
    decreases n,
{
    if n > 0 {
        lowest_ends(spots, bands, b, n - 1);
        assert(bands[n - 1].band == Band::Bot ==> spots[n - 1].origin.y <= spots[b].origin.y);
    }
}

/// With `t` the highest and `b` the lowest of all elements, an element that
/// aims for so many sixths of the height between them misses by six times the
/// distance from that height.
pub proof fn heights_are_missed_by_the_distance(
    spots: Seq<Spot>,
    bands: Seq<BandAssignment>,
    t: int,
    b: int,
    i: int,
)
    requires
        0 <= t < spots.len(),
        0 <= b < spots.len(),
        0 <= i < spots.len(),
        forall|j: int|
            0 <= j < spots.len() ==> spots[t].origin.y <= (#[trigger] spots[j]).origin.y
                <= spots[b].origin.y,
    ensures
        ({
            let height = spots[b].origin.y - spots[t].origin.y;
            let down = spots[i].origin.y - spots[t].origin.y;
            height_miss(spots, bands, i) == 1270 * (6 * down - bands[i].soft_y_target_sixths
                * height)
        }),
{
    let n = spots.len() as int;
    extremes_are_met(spots, t, b, n);
    let s = bands[i].soft_y_target_sixths as int;
    let height = spots[b].origin.y - spots[t].origin.y;
    let down = spots[i].origin.y - spots[t].origin.y;
    assert(spots[t].origin.y <= spots[i].origin.y);
    assert(s * (1270 * height) == 1270 * (s * height)) by (nonlinear_arith);
}

proof fn extremes_are_met(spots: Seq<Spot>, t: int, b: int, n: int)
    requires
        0 <= t < spots.len(),
        0 <= b < spots.len(),
        0 < n <= spots.len(),
        forall|j: int|
            0 <= j < spots.len() ==> spots[t].origin.y <= (#[trigger] spots[j]).origin.y
                <= spots[b].origin.y,
    ensures
        least_y(spots, n) >= 1270 * spots[t].origin.y,
        t < n ==> least_y(spots, n) == 1270 * spots[t].origin.y,
        largest_y(spots, n) <= 1270 * spots[b].origin.y,
        b < n ==> largest_y(spots, n) == 1270 * spots[b].origin.y,
    decreases n,
{
    assert(spots[0].origin.y >= spots[t].origin.y && spots[0].origin.y <= spots[b].origin.y);
    if n > 1 {
        extremes_are_met(spots, t, b, n - 1);
        assert(spots[n - 1].origin.y >= spots[t].origin.y && spots[n - 1].origin.y
            <= spots[b].origin.y);
    }
}

/// A pair drawn against the order it aims for pays the square of its distance
/// in height, and a pair that stands against the signal the square of its
/// distance sideways.
pub proof fn pairs_pay_the_square_of_the_distance(
    spots: Seq<Spot>,
    bands: Seq<BandAssignment>,
    checked: &CheckedNetlist,
    layers: Seq<u32>,
    i: int,
    j: int,
)
    ensures
        ({
            let dy = 1270 * (spots[i].origin.y - spots[j].origin.y);
            let dx = 1270 * (spots[i].origin.x - spots[j].origin.x);
            let higher = bands[i].soft_y_target_sixths < bands[j].soft_y_target_sixths;
            let feeds = i != j && layers[i] < layers[j] && share_signal(
                checked,
                class_list(checked),
                i,
                j,
            );
            &&& higher ==> inversion(spots, bands, i, j) == (if dy > 0 {
                dy * dy
            } else {
                0
            })
            &&& inversion(spots, bands, i, j) == inversion(spots, bands, j, i)
            &&& feeds ==> order_excess(spots, checked, layers, i, j) == (if dx > 0 {
                dx * dx
            } else {
                0
            })
            &&& !feeds ==> order_excess(spots, checked, layers, i, j) == 0
        }),
{
}

} // verus!
