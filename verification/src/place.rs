//! The placer: from a checked netlist to a placement.
//!
//! The seed and the user's directives come first, then saved positions, then
//! the idioms, each of which leaves pinned elements alone. Poses are chosen
//! last, and symbols that still overlap are shoved apart.
//!
//! Mirroring structurally paired elements and refining a layout by annealing
//! are not part of this library, and [`place_with_hint`] does neither. A caller
//! that does runs the passes itself, each of which is public:
//!
//! 1. [`start_layout`]; after it, paired elements are mirrored and pinned.
//! 2. [`apply_position_idioms`], which leaves those pins alone.
//! 3. [`slide_stubs`], which is told which pins are mirror pins; after it, the
//!    pairs are mirrored again. [`keep_or_revert`] then judges the outcome.
//! 4. [`apply_dc_columns`], [`apply_series_horizontal`] and
//!    [`pick_orientations`]; after them, the layout is refined.
//! 5. [`legalize_if_needed`].

use vstd::prelude::*;

use crate::constraints::UnresolvedPlace;
#[allow(unused_imports)]
use crate::constraints::{constrained, constraints_stay_on_the_sheet, lists_unresolved, unresolved};
use crate::cost::place_residuals;
#[allow(unused_imports)]
use crate::cost::{cluster_spread, cluster_sums, place_cost, shared_coordinate};
use crate::dc_layout::apply_dc_columns;
#[allow(unused_imports)]
use crate::dc_layout::{columns_drawn, columns_respect_pins, COLUMN_SPREAD};
#[allow(unused_imports)]
use crate::dc_series::{columns_of, ColumnView};
use crate::idioms::{apply, detect_dividers};
#[allow(unused_imports)]
use crate::idioms::{lists_dividers, stacked_all, stacking_respects_pins, DividerPair};
use crate::layers::LayerAssignment;
use crate::legalize::{immovable_overlap_count, legalize, overlap_count};
#[allow(unused_imports)]
use crate::legalize::{
    fixed_overlap_pairs, legalized, legalizing_is_safe, overlap_pairs, MAX_SHOVE_CELLS,
};
use crate::net_class::vertical_prefs;
use crate::netlist::{Axis, CheckedNetlist};
#[allow(unused_imports)]
use crate::netlist::last_named_is_last;
use crate::orient::allowed_orientations;
#[allow(unused_imports)]
use crate::orient::{allowed_of, prefs_of};
#[allow(unused_imports)]
use crate::ordering::where_list;
use crate::placement::{apply_hint, put, GridPoint, Hint, HintPin, Placement};
#[allow(unused_imports)]
use crate::placement::{
    hint_from, layout_of, moving_keeps_the_netlist, pins_hold, places, same_parts, same_parts_trans,
    spot_of, spots_within, stands_for, Layout, Spot, MAX_COORD,
};
use crate::placer::Placer;
#[allow(unused_imports)]
use crate::placer::champion_placer;
use crate::pose_pick::pick_orientations;
#[allow(unused_imports)]
use crate::pose_pick::{only_turned, picking_only_turns, MAX_PASSES};
use crate::rail_stub::{apply_rail_stub_columns, detect_rail_stubs};
#[allow(unused_imports)]
use crate::rail_stub::{
    all_stubs, columned, columns_slide_only_stubs, detected_stubs_stay, is_listed, only_stubs_slid,
    stub_of, stubs_listed, STUB_SPREAD,
};
use crate::seed::place_seed;
#[allow(unused_imports)]
use crate::seed::{is_assignment, seed_is_on_the_sheet, seeded, SEED_SPREAD};
use crate::series::{apply_series_horizontal, v14_permits};
#[allow(unused_imports)]
use crate::series::{permits, series_item, series_laid, series_pass_is_safe};
use crate::shared_center::{apply_shared_centers, detect_shared_node_centers};
#[allow(unused_imports)]
use crate::shared_center::{
    centered_all, centering_respects_pins, describes, detected_hits_in_range, hits_in_range,
    shared_nodes, SharedNodeCenter,
};
use crate::symbol::Orientation;

verus! {

/// Farthest that the seed, the directives and saved positions reach.
pub const SHEET_LIMIT: i32 = 440_000_000;

/// What the placer is asked for.
#[derive(Debug, Clone, Copy, PartialEq, Eq, Structural)]
pub struct LayoutOptions {
    pub placer: Placer,
}

impl Default for LayoutOptions {
    /// The champion placer.
    fn default() -> (r: LayoutOptions)
        ensures
            r.placer == champion_placer(),
    {
        LayoutOptions { placer: Placer::champion() }
    }
}

/// All saved positions are on the sheet.
pub open spec fn saved_on_sheet(saved: Seq<HintPin>) -> bool {
    forall|k: int|
        0 <= k < saved.len() ==> (#[trigger] saved[k]).origin.within(SHEET_LIMIT as int)
}

/// The saved position of an element, if there is one.
pub open spec fn saved_spot(saved: Seq<HintPin>, refdes: Seq<char>) -> Option<Spot> {
    hint_from(saved, refdes, 0)
}

// ---- The passes, one by one -----------------------------------------------------

/// The layout with the saved positions applied to the unpinned elements.
pub open spec fn hint_applied(checked: &CheckedNetlist, layout: Layout, saved: Seq<HintPin>) -> Layout {
    Layout {
        spots: Seq::new(
            layout.spots.len(),
            |i: int|
                match saved_spot(saved, checked.elements@[i].refdes@) {
                    Some(s) => if layout.pinned[i] {
                        layout.spots[i]
                    } else {
                        s
                    },
                    None => layout.spots[i],
                },
        ),
        pinned: Seq::new(
            layout.pinned.len(),
            |i: int| layout.pinned[i] || saved_spot(saved, checked.elements@[i].refdes@) is Some,
        ),
    }
}

/// Cluster `k` is a vertical one and its `m`th name is element `i`.
pub open spec fn in_column_at(checked: &CheckedNetlist, k: int, m: int, i: int) -> bool {
    &&& checked.align@[k].axis == Axis::Vertical
    &&& checked.element_named(checked.align@[k].refdes@[m]@) == Some(i)
}

/// The element is a member of a vertical cluster.
pub open spec fn in_vertical_cluster(checked: &CheckedNetlist, i: int) -> bool {
    exists|k: int, m: int|
        0 <= k < checked.align@.len() && 0 <= m < checked.align@[k].refdes@.len()
            && #[trigger] in_column_at(checked, k, m, i)
}

/// The elements whose X belongs to something stronger than the stub columns:
/// those that a pass has pinned, and the members of vertical clusters.
pub open spec fn x_locked(
    checked: &CheckedNetlist,
    pinned: Seq<bool>,
    user_pinned: Seq<bool>,
) -> Seq<bool> {
    Seq::new(
        pinned.len(),
        |i: int| (pinned[i] && !user_pinned[i]) || in_vertical_cluster(checked, i),
    )
}

/// The elements whose X belongs to something stronger than the stub columns,
/// when a mirror pass has pinned the elements `mirrored`. Such a pin owns the
/// relation between the two of a pair, not the column of either.
pub open spec fn x_locked_beside(
    checked: &CheckedNetlist,
    pinned: Seq<bool>,
    user_pinned: Seq<bool>,
    mirrored: Seq<bool>,
) -> Seq<bool> {
    Seq::new(
        pinned.len(),
        |i: int|
            (pinned[i] && !user_pinned[i] && !mirrored[i]) || in_vertical_cluster(checked, i),
    )
}

/// The elements that are free of a mirror pin.
pub open spec fn released_from(user_pinned: Seq<bool>, mirrored: Seq<bool>) -> Seq<bool> {
    Seq::new(mirrored.len(), |i: int| mirrored[i] && !user_pinned[i])
}

/// No element has been released from a pin.
pub open spec fn nothing_released(n: nat) -> Seq<bool> {
    Seq::new(n, |i: int| false)
}

/// The new spots, or the old ones if a `place` directive is worse off with the
/// new ones, or if two pinned elements overlap that did not before.
pub open spec fn kept(
    before: Seq<Spot>,
    after: Seq<Spot>,
    checked: &CheckedNetlist,
    user_pinned: Seq<bool>,
) -> Seq<Spot> {
    let n = checked.elements@.len() as int;
    if place_cost(after, checked) > place_cost(before, checked) || fixed_overlap_pairs(
        after,
        checked,
        user_pinned,
        n,
    ) > fixed_overlap_pairs(before, checked, user_pinned, n) {
        before
    } else {
        after
    }
}

/// The spots with the stubs in their columns. If a `place` directive is worse
/// off, or two pinned elements overlap that did not before, nothing moves.
pub open spec fn stubs_columned(
    spots: Seq<Spot>,
    checked: &CheckedNetlist,
    pinned: Seq<bool>,
    user_pinned: Seq<bool>,
) -> Seq<Spot> {
    kept(
        spots,
        columned(
            spots,
            checked,
            all_stubs(checked),
            x_locked(checked, pinned, user_pinned),
            nothing_released(checked.elements@.len()),
            checked.nets@.len() as int,
        ),
        checked,
        user_pinned,
    )
}

/// The allowed poses of all elements.
pub open spec fn allows(
    checked: &CheckedNetlist,
    placer: Placer,
    allowed: Seq<Vec<Orientation>>,
) -> bool {
    &&& allowed.len() == checked.elements@.len()
    &&& forall|i: int|
        0 <= i < allowed.len() ==> (#[trigger] allowed[i])@ == allowed_of(
            checked.elements@[i],
            prefs_of(checked),
            placer.signal_direction_filter,
        )
}

/// The list holds the shared nodes of the netlist.
pub open spec fn lists_centers(checked: &CheckedNetlist, hits: Seq<SharedNodeCenter>) -> bool {
    let nodes = shared_nodes(checked, checked.nets@.len() as int);
    &&& hits.len() == nodes.len()
    &&& forall|k: int|
        0 <= k < hits.len() ==> describes(checked, #[trigger] hits[k], nodes[k] as int)
}

/// What the passes have found in the netlist.
pub struct Findings {
    pub layers: LayerAssignment,
    pub dividers: Seq<DividerPair>,
    pub centers: Seq<SharedNodeCenter>,
    pub columns: Seq<ColumnView>,
    pub allowed: Seq<Vec<Orientation>>,
}

/// The findings are those of the netlist.
pub open spec fn found_in(checked: &CheckedNetlist, placer: Placer, f: Findings) -> bool {
    &&& is_assignment(checked, placer, f.layers)
    &&& lists_dividers(checked, placer, f.dividers)
    &&& forall|k: int|
        0 <= k < f.dividers.len() ==> (#[trigger] f.dividers[k]).upper < checked.elements@.len()
            && f.dividers[k].lower < checked.elements@.len()
    &&& lists_centers(checked, f.centers)
    &&& placer.dc_series_columns ==> columns_of(checked, f.columns)
    &&& allows(checked, placer, f.allowed)
}

/// The layout after the user's directives.
pub open spec fn directed(checked: &CheckedNetlist, f: Findings) -> Layout {
    constrained(checked, seeded(checked, f.layers.layers@)).layout
}

/// The layout after the position idioms: saved positions, dividers and shared
/// nodes.
pub open spec fn positioned(checked: &CheckedNetlist, saved: Seq<HintPin>, f: Findings) -> Layout {
    centered_all(
        stacked_all(
            hint_applied(checked, directed(checked, f), saved),
            checked,
            f.dividers,
            f.dividers.len() as int,
        ),
        checked,
        f.centers,
        f.centers.len() as int,
    )
}

/// The layout after the stub columns.
pub open spec fn stubbed(checked: &CheckedNetlist, saved: Seq<HintPin>, f: Findings) -> Layout {
    let l = positioned(checked, saved, f);
    Layout {
        spots: stubs_columned(l.spots, checked, l.pinned, directed(checked, f).pinned),
        pinned: l.pinned,
    }
}

/// The layout after the series columns and the horizontal series elements.
pub open spec fn constructed(
    checked: &CheckedNetlist,
    placer: Placer,
    saved: Seq<HintPin>,
    f: Findings,
) -> Layout {
    let l = stubbed(checked, saved, f);
    let drawn = if placer.dc_series_columns {
        columns_drawn(l, checked, f.allowed, placer, f.columns, f.columns.len() as int)
    } else {
        l
    };
    series_laid(drawn, checked, f.allowed, placer, checked.elements@.len() as int)
}

/// The spots after the choice of poses.
pub open spec fn turned(
    checked: &CheckedNetlist,
    placer: Placer,
    saved: Seq<HintPin>,
    f: Findings,
) -> Seq<Spot> {
    let l = constructed(checked, placer, saved, f);
    crate::pose_pick::settled(l.spots, l.pinned, checked, f.allowed, MAX_PASSES as nat)
}

/// The spots with overlapping symbols shoved apart; a layout without overlaps
/// stays as it is.
pub open spec fn legal_spots(
    spots: Seq<Spot>,
    checked: &CheckedNetlist,
    user_pinned: Seq<bool>,
) -> Seq<Spot> {
    if overlap_pairs(spots, checked, checked.elements@.len() as int) == 0 {
        spots
    } else {
        legalized(spots, checked, prefs_of(checked), user_pinned)
    }
}

/// The final spots.
pub open spec fn final_spots(
    checked: &CheckedNetlist,
    placer: Placer,
    saved: Seq<HintPin>,
    f: Findings,
) -> Seq<Spot> {
    legal_spots(turned(checked, placer, saved, f), checked, directed(checked, f).pinned)
}

/// Every cluster is as spread out in one layout as in the other.
pub open spec fn same_spreads(a: Seq<Spot>, b: Seq<Spot>, checked: &CheckedNetlist) -> bool {
    forall|k: int|
        0 <= k < checked.align@.len() ==> cluster_spread(a, checked, #[trigger] checked.align@[k])
            == cluster_spread(b, checked, checked.align@[k])
}

/// A list of origins and poses, as spots.
pub open spec fn listed_spots(list: Seq<(GridPoint, Orientation)>) -> Seq<Spot> {
    Seq::new(list.len(), |i: int| Spot { origin: list[i].0, orientation: list[i].1 })
}

// ---- What the passes keep ----------------------------------------------------------

proof fn centers_in_range(checked: &CheckedNetlist, hits: Seq<SharedNodeCenter>)
    requires
        checked.drawable(),
        lists_centers(checked, hits),
    ensures
        hits_in_range(checked, hits),
{
    let n = checked.nets@.len() as int;
    let nodes = shared_nodes(checked, n);
    assert forall|k: int| 0 <= k < nodes.len() implies crate::shared_center::is_shared_node(
        checked,
        #[trigger] nodes[k] as int,
    ) by {
        crate::ordering::where_list_contains(
            crate::shared_center::shared_node(checked),
            n,
            nodes[k],
        );
        assert(nodes.contains(nodes[k]));
    }
    detected_hits_in_range(checked, hits, nodes);
}

proof fn within_grows(spots: Seq<Spot>, a: int, b: int)
    requires
        spots_within(spots, a),
        a <= b,
    ensures
        spots_within(spots, b),
{
    assert forall|i: int| 0 <= i < spots.len() implies (#[trigger] spots[i]).origin.within(b) by {
        assert(spots[i].origin.within(a));
    }
}

proof fn pins_hold_on(a: Layout, b: Layout, c: Layout)
    requires
        pins_hold(a, b),
        pins_hold(b, c),
        a.spots.len() == a.pinned.len(),
    ensures
        pins_hold(a, c),
{
    assert forall|i: int|
        #![trigger c.spots[i]]
        #![trigger c.pinned[i]]
        0 <= i < a.spots.len() && i < a.pinned.len() && a.pinned[i] implies c.pinned[i]
        && c.spots[i] == a.spots[i] by {
        assert(b.pinned[i] && b.spots[i] == a.spots[i]);
    }
}

proof fn directed_fits(checked: &CheckedNetlist, placer: Placer, f: Findings)
    requires
        checked.drawable(),
        checked.directives_fit(),
        found_in(checked, placer, f),
    ensures
        directed(checked, f).sized(checked.elements@.len() as int),
        spots_within(directed(checked, f).spots, SHEET_LIMIT as int),
{
    seed_is_on_the_sheet(checked, f.layers);
    constraints_stay_on_the_sheet(
        checked,
        seeded(checked, f.layers.layers@),
        SEED_SPREAD as int,
    );
}

proof fn hint_spot_fits(saved: Seq<HintPin>, refdes: Seq<char>, k: int)
    requires
        saved_on_sheet(saved),
        0 <= k,
    ensures
        hint_from(saved, refdes, k) matches Some(s) ==> s.origin.within(
            SHEET_LIMIT as int,
        ),
    decreases saved.len() - k,
{
    if k < saved.len() {
        assert(saved[k].origin.within(SHEET_LIMIT as int));
        hint_spot_fits(saved, refdes, k + 1);
    }
}

proof fn hint_applied_fits(checked: &CheckedNetlist, layout: Layout, saved: Seq<HintPin>)
    requires
        layout.sized(checked.elements@.len() as int),
        spots_within(layout.spots, SHEET_LIMIT as int),
        saved_on_sheet(saved),
    ensures
        hint_applied(checked, layout, saved).sized(checked.elements@.len() as int),
        spots_within(hint_applied(checked, layout, saved).spots, SHEET_LIMIT as int),
        pins_hold(layout, hint_applied(checked, layout, saved)),
{
    let after = hint_applied(checked, layout, saved);
    assert forall|i: int| 0 <= i < after.spots.len() implies (
    #[trigger] after.spots[i]).origin.within(SHEET_LIMIT as int) by {
        assert(layout.spots[i].origin.within(SHEET_LIMIT as int));
        hint_spot_fits(saved, checked.elements@[i].refdes@, 0);
    }
}

/// What is known of the layout after the position idioms.
proof fn positioned_fits(checked: &CheckedNetlist, placer: Placer, saved: Seq<HintPin>, f: Findings)
    requires
        checked.drawable(),
        checked.directives_fit(),
        found_in(checked, placer, f),
        saved_on_sheet(saved),
    ensures
        positioned(checked, saved, f).sized(checked.elements@.len() as int),
        spots_within(positioned(checked, saved, f).spots, SHEET_LIMIT + 5000),
        pins_hold(hint_applied(checked, directed(checked, f), saved), positioned(checked, saved, f)),
        pins_hold(directed(checked, f), positioned(checked, saved, f)),
{
    directed_fits(checked, placer, f);
    let l0 = directed(checked, f);
    hint_applied_fits(checked, l0, saved);
    let l1 = hint_applied(checked, l0, saved);
    let n = f.dividers.len() as int;
    stacking_respects_pins(l1, checked, f.dividers, n, SHEET_LIMIT as int);
    let l2 = stacked_all(l1, checked, f.dividers, n);
    centers_in_range(checked, f.centers);
    let m = f.centers.len() as int;
    centering_respects_pins(l2, checked, f.centers, m, SHEET_LIMIT + 2000);
    let l3 = centered_all(l2, checked, f.centers, m);
    within_grows(l3.spots, SHEET_LIMIT + 2000 + 2100, SHEET_LIMIT + 5000);
    pins_hold_on(l1, l2, l3);
    pins_hold_on(l0, l1, l3);
}

/// What the stub columns keep: rows, poses and everything that is locked.
proof fn stubs_fit(
    spots: Seq<Spot>,
    checked: &CheckedNetlist,
    pinned: Seq<bool>,
    user_pinned: Seq<bool>,
    limit: int,
)
    requires
        checked.drawable(),
        spots.len() == checked.elements@.len(),
        spots_within(spots, limit),
        0 <= limit <= MAX_COORD,
    ensures
        only_stubs_slid(
            spots,
            stubs_columned(spots, checked, pinned, user_pinned),
            all_stubs(checked),
            x_locked(checked, pinned, user_pinned),
            limit,
        ),
        spots_within(stubs_columned(spots, checked, pinned, user_pinned), limit + STUB_SPREAD),
        stubs_columned(spots, checked, pinned, user_pinned).len() == spots.len(),
{
    let locked = x_locked(checked, pinned, user_pinned);
    let none = nothing_released(checked.elements@.len());
    let stubs = all_stubs(checked);
    stubs_listed(checked, checked.elements@.len() as int);
    detected_stubs_stay(checked, stubs);
    columns_slide_only_stubs(
        spots,
        checked,
        stubs,
        locked,
        none,
        checked.nets@.len() as int,
        limit,
    );
    let after = stubs_columned(spots, checked, pinned, user_pinned);
    assert forall|i: int| 0 <= i < spots.len() implies (#[trigger] spots[i]).origin.within(
        limit + STUB_SPREAD,
    ) by {
        assert(spots[i].origin.within(limit));
    }
    assert forall|i: int| 0 <= i < after.len() implies (#[trigger] after[i]).origin.within(
        limit + STUB_SPREAD,
    ) by {
        assert(spots[i].origin.within(limit));
        assert(after[i].origin.y == spots[i].origin.y);
    }
}

proof fn slid_clusters(
    a: Seq<Spot>,
    b: Seq<Spot>,
    checked: &CheckedNetlist,
    pinned: Seq<bool>,
    user_pinned: Seq<bool>,
    limit: int,
    k: int,
    n: int,
)
    requires
        a.len() == checked.elements@.len(),
        pinned.len() == checked.elements@.len(),
        only_stubs_slid(a, b, all_stubs(checked), x_locked(checked, pinned, user_pinned), limit),
        0 <= k < checked.align@.len(),
        n <= checked.align@[k].refdes@.len(),
    ensures
        cluster_sums(a, checked, checked.align@[k], n) == cluster_sums(
            b,
            checked,
            checked.align@[k],
            n,
        ),
    decreases n,
{
    if n > 0 {
        slid_clusters(a, b, checked, pinned, user_pinned, limit, k, n - 1);
        let spec = checked.align@[k];
        let name = spec.refdes@[n - 1]@;
        last_named_is_last(checked.elements@, name, checked.elements@.len() as int);
        match checked.element_named(name) {
            Some(i) => {
                assert(b[i].origin.y == a[i].origin.y);
                if spec.axis == Axis::Vertical {
                    assert(in_column_at(checked, k, n - 1, i));
                    assert(in_vertical_cluster(checked, i));
                    assert(x_locked(checked, pinned, user_pinned)[i]);
                    assert(b[i] == a[i]);
                }
                assert(shared_coordinate(a, spec.axis, i) == shared_coordinate(b, spec.axis, i));
            },
            None => {},
        }
    }
}

/// The stub columns leave the user's directives as well off as they were: no
/// `place` directive costs more, no cluster is spread, and no two pinned
/// elements come to overlap.
pub proof fn stub_columns_respect_directives(
    spots: Seq<Spot>,
    checked: &CheckedNetlist,
    pinned: Seq<bool>,
    user_pinned: Seq<bool>,
    limit: int,
    k: int,
)
    requires
        checked.drawable(),
        spots.len() == checked.elements@.len(),
        pinned.len() == checked.elements@.len(),
        spots_within(spots, limit),
        0 <= limit <= MAX_COORD,
        0 <= k < checked.align@.len(),
    ensures
        ({
            let after = stubs_columned(spots, checked, pinned, user_pinned);
            let n = checked.elements@.len() as int;
            &&& place_cost(after, checked) <= place_cost(spots, checked)
            &&& fixed_overlap_pairs(after, checked, user_pinned, n) <= fixed_overlap_pairs(
                spots,
                checked,
                user_pinned,
                n,
            )
            &&& cluster_spread(after, checked, checked.align@[k]) == cluster_spread(
                spots,
                checked,
                checked.align@[k],
            )
        }),
{
    stubs_fit(spots, checked, pinned, user_pinned, limit);
    slid_clusters(
        spots,
        stubs_columned(spots, checked, pinned, user_pinned),
        checked,
        pinned,
        user_pinned,
        limit,
        k,
        checked.align@[k].refdes@.len() as int,
    );
}

proof fn stubbed_fits(checked: &CheckedNetlist, placer: Placer, saved: Seq<HintPin>, f: Findings)
    requires
        checked.drawable(),
        checked.directives_fit(),
        found_in(checked, placer, f),
        saved_on_sheet(saved),
    ensures
        stubbed(checked, saved, f).sized(checked.elements@.len() as int),
        spots_within(stubbed(checked, saved, f).spots, SHEET_LIMIT + 5000 + STUB_SPREAD),
{
    positioned_fits(checked, placer, saved, f);
    let l = positioned(checked, saved, f);
    stubs_fit(l.spots, checked, l.pinned, directed(checked, f).pinned, SHEET_LIMIT + 5000);
}

/// The layout after the series columns.
pub open spec fn series_columned(
    checked: &CheckedNetlist,
    placer: Placer,
    saved: Seq<HintPin>,
    f: Findings,
) -> Layout {
    let l = stubbed(checked, saved, f);
    if placer.dc_series_columns {
        columns_drawn(l, checked, f.allowed, placer, f.columns, f.columns.len() as int)
    } else {
        l
    }
}

proof fn series_columned_fits(checked: &CheckedNetlist, placer: Placer, saved: Seq<HintPin>, f: Findings)
    requires
        checked.drawable(),
        checked.directives_fit(),
        found_in(checked, placer, f),
        saved_on_sheet(saved),
    ensures
        ({
            let l = series_columned(checked, placer, saved, f);
            &&& l.sized(checked.elements@.len() as int)
            &&& spots_within(l.spots, SHEET_LIMIT + 5000 + STUB_SPREAD + COLUMN_SPREAD)
            &&& pins_hold(stubbed(checked, saved, f), l)
        }),
{
    stubbed_fits(checked, placer, saved, f);
    let l = stubbed(checked, saved, f);
    let limit = SHEET_LIMIT + 5000 + STUB_SPREAD;
    assert(checked.nets@.len() == checked.nets.len());
    if placer.dc_series_columns {
        columns_respect_pins(
            l,
            checked,
            f.allowed,
            placer,
            f.columns,
            f.columns.len() as int,
            limit,
        );
    } else {
        within_grows(l.spots, limit, limit + COLUMN_SPREAD);
    }
}

/// All that the passes lay out is on the sheet, with room left to shove.
proof fn constructed_fits(checked: &CheckedNetlist, placer: Placer, saved: Seq<HintPin>, f: Findings)
    requires
        checked.drawable(),
        checked.directives_fit(),
        found_in(checked, placer, f),
        saved_on_sheet(saved),
    ensures
        ({
            let l = constructed(checked, placer, saved, f);
            &&& l.sized(checked.elements@.len() as int)
            &&& spots_within(l.spots, MAX_COORD - MAX_SHOVE_CELLS)
            &&& pins_hold(stubbed(checked, saved, f), l)
            &&& l == series_laid(
                series_columned(checked, placer, saved, f),
                checked,
                f.allowed,
                placer,
                checked.elements@.len() as int,
            )
        }),
{
    stubbed_fits(checked, placer, saved, f);
    series_columned_fits(checked, placer, saved, f);
    let l = series_columned(checked, placer, saved, f);
    let limit = SHEET_LIMIT + 5000 + STUB_SPREAD + COLUMN_SPREAD;
    let n = checked.elements@.len() as int;
    series_pass_is_safe(l, checked, f.allowed, placer, n, limit);
    let after = series_laid(l, checked, f.allowed, placer, n);
    assert forall|i: int| 0 <= i < after.spots.len() implies (
    #[trigger] after.spots[i]).origin.within(MAX_COORD - MAX_SHOVE_CELLS) by {
        assert(series_item(l, after, checked, f.allowed, limit, i));
    }
    pins_hold_on(stubbed(checked, saved, f), l, after);
}

proof fn turned_fits(checked: &CheckedNetlist, placer: Placer, saved: Seq<HintPin>, f: Findings)
    requires
        checked.drawable(),
        checked.directives_fit(),
        found_in(checked, placer, f),
        saved_on_sheet(saved),
    ensures
        ({
            let l = constructed(checked, placer, saved, f);
            let after = turned(checked, placer, saved, f);
            &&& only_turned(l.spots, after, l.pinned, f.allowed)
            &&& after.len() == checked.elements@.len()
            &&& spots_within(after, MAX_COORD - MAX_SHOVE_CELLS)
        }),
{
    constructed_fits(checked, placer, saved, f);
    let l = constructed(checked, placer, saved, f);
    picking_only_turns(l.spots, l.pinned, checked, f.allowed, MAX_PASSES as nat);
    let after = turned(checked, placer, saved, f);
    assert forall|i: int| 0 <= i < after.len() implies (#[trigger] after[i]).origin.within(
        MAX_COORD - MAX_SHOVE_CELLS,
    ) by {
        assert(after[i].origin == l.spots[i].origin);
        assert(l.spots[i].origin.within(MAX_COORD - MAX_SHOVE_CELLS));
    }
}

/// What the user's directives have settled, the placer keeps: a pinned element
/// stays in its row and pose to the end, and in its column too unless it is a
/// rail stub outside all vertical clusters.
pub proof fn directives_survive(
    checked: &CheckedNetlist,
    placer: Placer,
    saved: Seq<HintPin>,
    f: Findings,
    i: int,
)
    requires
        checked.drawable(),
        checked.directives_fit(),
        found_in(checked, placer, f),
        saved_on_sheet(saved),
        0 <= i < checked.elements@.len(),
        directed(checked, f).pinned[i],
    ensures
        ({
            let before = directed(checked, f).spots[i];
            let after = final_spots(checked, placer, saved, f)[i];
            &&& after.orientation == before.orientation
            &&& after.origin.y == before.origin.y
            &&& crate::rail_stub::stub_of(checked, i) is None || in_vertical_cluster(checked, i)
                ==> after == before
        }),
{
    directed_fits(checked, placer, f);
    positioned_fits(checked, placer, saved, f);
    stubbed_fits(checked, placer, saved, f);
    constructed_fits(checked, placer, saved, f);
    turned_fits(checked, placer, saved, f);
    let l0 = directed(checked, f);
    let l3 = positioned(checked, saved, f);
    let l4 = stubbed(checked, saved, f);
    let l6 = constructed(checked, placer, saved, f);
    let l7 = turned(checked, placer, saved, f);
    assert(l3.pinned[i] && l3.spots[i] == l0.spots[i]);
    stubs_fit(l3.spots, checked, l3.pinned, l0.pinned, SHEET_LIMIT + 5000);
    assert(l4.spots[i].orientation == l3.spots[i].orientation);
    if stub_of(checked, i) is None {
        let stubs = all_stubs(checked);
        stubs_listed(checked, checked.elements@.len() as int);
        if is_listed(stubs, i) {
            let k = choose|k: int| 0 <= k < stubs.len() && (#[trigger] stubs[k]).element == i;
            assert(stub_of(checked, stubs[k].element as int) == Some(stubs[k]));
        }
    }
    assert(l6.pinned[i] && l6.spots[i] == l4.spots[i]);
    assert(l7[i] == l6.spots[i]);
    legalizing_is_safe(l7, checked, prefs_of(checked), l0.pinned);
    let end = legalized(l7, checked, prefs_of(checked), l0.pinned);
    assert(end[i] == l7[i]);
}

/// A saved position holds through all passes up to the choice of poses; only
/// the legalizer may still move the element.
pub proof fn saved_positions_hold(
    checked: &CheckedNetlist,
    placer: Placer,
    saved: Seq<HintPin>,
    f: Findings,
    i: int,
)
    requires
        checked.drawable(),
        checked.directives_fit(),
        found_in(checked, placer, f),
        saved_on_sheet(saved),
        0 <= i < checked.elements@.len(),
        !directed(checked, f).pinned[i],
        saved_spot(saved, checked.elements@[i].refdes@) is Some,
    ensures
        turned(checked, placer, saved, f)[i] == saved_spot(saved, checked.elements@[i].refdes@)->0,
{
    directed_fits(checked, placer, f);
    hint_applied_fits(checked, directed(checked, f), saved);
    positioned_fits(checked, placer, saved, f);
    stubbed_fits(checked, placer, saved, f);
    constructed_fits(checked, placer, saved, f);
    turned_fits(checked, placer, saved, f);
    let l0 = directed(checked, f);
    let l1 = hint_applied(checked, l0, saved);
    let l3 = positioned(checked, saved, f);
    let l4 = stubbed(checked, saved, f);
    let l6 = constructed(checked, placer, saved, f);
    assert(l1.pinned[i] && l1.spots[i] == saved_spot(saved, checked.elements@[i].refdes@)->0);
    assert(l3.pinned[i] && l3.spots[i] == l1.spots[i]);
    stubs_fit(l3.spots, checked, l3.pinned, l0.pinned, SHEET_LIMIT + 5000);
    assert(x_locked(checked, l3.pinned, l0.pinned)[i]);
    assert(l4.spots[i] == l3.spots[i]);
    assert(l6.pinned[i] && l6.spots[i] == l4.spots[i]);
    assert(turned(checked, placer, saved, f)[i] == l6.spots[i]);
}

/// The legalizer's turn shorts no pins, and leaves a layout without overlaps
/// alone.
pub proof fn last_step_is_safe(
    checked: &CheckedNetlist,
    placer: Placer,
    saved: Seq<HintPin>,
    f: Findings,
)
    requires
        checked.drawable(),
        checked.directives_fit(),
        found_in(checked, placer, f),
        saved_on_sheet(saved),
    ensures
        crate::pin_clash::clashes(final_spots(checked, placer, saved, f), checked)
            <= crate::pin_clash::clashes(turned(checked, placer, saved, f), checked),
        overlap_pairs(
            turned(checked, placer, saved, f),
            checked,
            checked.elements@.len() as int,
        ) == 0 ==> final_spots(checked, placer, saved, f) == turned(checked, placer, saved, f),
{
    turned_fits(checked, placer, saved, f);
    legalizing_is_safe(
        turned(checked, placer, saved, f),
        checked,
        prefs_of(checked),
        directed(checked, f).pinned,
    );
}

// ---- The executable placer -----------------------------------------------------------

/// Which elements are members of vertical clusters.
fn vertical_members(checked: &CheckedNetlist) -> (r: Vec<bool>)
    ensures
        r@.len() == checked.elements@.len(),
        forall|i: int| 0 <= i < r@.len() ==> #[trigger] r@[i] == in_vertical_cluster(checked, i),
{
    let n: usize = checked.elements.len();
    let mut out: Vec<bool> = Vec::new();
    let mut j: usize = 0;
    while j < n
        invariant
            j <= n,
            out@.len() == j,
            forall|i: int| 0 <= i < j ==> !(#[trigger] out@[i]),
        decreases n - j,
    {
        out.push(false);
        j = j + 1;
    }
    let mut k: usize = 0;
    while k < checked.align.len()
        invariant
            k <= checked.align@.len(),
            n == checked.elements@.len(),
            out@.len() == n,
            forall|i: int|
                0 <= i < n ==> (#[trigger] out@[i] <==> exists|c: int, m: int|
                    0 <= c < k && 0 <= m < checked.align@[c].refdes@.len()
                        && #[trigger] in_column_at(checked, c, m, i)),
        decreases checked.align@.len() - k,
    {
        if checked.align[k].axis == Axis::Vertical {
            let names = &checked.align[k].refdes;
            let mut m: usize = 0;
            while m < names.len()
                invariant
                    k < checked.align@.len(),
                    checked.align@[k as int].axis == Axis::Vertical,
                    names@ == checked.align@[k as int].refdes@,
                    m <= names@.len(),
                    n == checked.elements@.len(),
                    out@.len() == n,
                    forall|i: int|
                        0 <= i < n ==> (#[trigger] out@[i] <==> exists|c: int, q: int|
                            0 <= c <= k && 0 <= q < checked.align@[c].refdes@.len() && (c < k || q
                                < m) && #[trigger] in_column_at(checked, c, q, i)),
                decreases names@.len() - m,
            {
                let ghost before = out@;
                match checked.element_index(names[m].as_str()) {
                    Some(i) => {
                        out.set(i, true);
                        assert(in_column_at(checked, k as int, m as int, i as int));
                    },
                    None => {},
                }
                proof {
                    assert forall|i: int| 0 <= i < n implies (#[trigger] out@[i] <==> exists|
                        c: int,
                        q: int,
                    |
                        0 <= c <= k && 0 <= q < checked.align@[c].refdes@.len() && (c < k || q < m
                            + 1) && #[trigger] in_column_at(checked, c, q, i)) by {
                        if out@[i] && before[i] {
                            let (c, q) = choose|c: int, q: int|
                                0 <= c <= k && 0 <= q < checked.align@[c].refdes@.len() && (c < k
                                    || q < m) && #[trigger] in_column_at(checked, c, q, i);
                            assert(in_column_at(checked, c, q, i));
                        }
                    }
                }
                m = m + 1;
            }
        }
        k = k + 1;
    }
    out
}

/// The origins and poses of a placement.
pub fn saved_spots(placement: &Placement) -> (r: Vec<(GridPoint, Orientation)>)
    ensures
        r@.len() == placement.elements@.len(),
        forall|i: int|
            0 <= i < r@.len() ==> (#[trigger] r@[i]).0 == placement.spots()[i].origin && r@[i].1
                == placement.spots()[i].orientation,
{
    let mut out: Vec<(GridPoint, Orientation)> = Vec::new();
    let mut i: usize = 0;
    while i < placement.elements.len()
        invariant
            i <= placement.elements@.len(),
            out@.len() == i,
            forall|j: int|
                0 <= j < i ==> (#[trigger] out@[j]).0 == placement.spots()[j].origin && out@[j].1
                    == placement.spots()[j].orientation,
        decreases placement.elements@.len() - i,
    {
        out.push((placement.elements[i].origin, placement.elements[i].orientation));
        i = i + 1;
    }
    out
}

fn restore_spots(placement: &mut Placement, saved: &Vec<(GridPoint, Orientation)>)
    requires
        saved@.len() == old(placement).elements@.len(),
    ensures
        same_parts(*old(placement), *final(placement)),
        forall|i: int|
            #![trigger final(placement).spots()[i]]
            0 <= i < saved@.len() ==> final(placement).spots()[i].origin == saved@[i].0
                && final(placement).spots()[i].orientation == saved@[i].1,
{
    let mut i: usize = 0;
    while i < saved.len()
        invariant
            i <= saved@.len(),
            saved@.len() == placement.elements@.len(),
            same_parts(*old(placement), *placement),
            forall|j: int|
                #![trigger placement.spots()[j]]
                0 <= j < i ==> placement.spots()[j].origin == saved@[j].0
                    && placement.spots()[j].orientation == saved@[j].1,
        decreases saved@.len() - i,
    {
        let ghost prev = *placement;
        put(placement, i, saved[i].0, saved[i].1);
        proof {
            same_parts_trans(*old(placement), prev, *placement);
        }
        i = i + 1;
    }
}

/// Pulls the rail stubs into the columns of the nodes that they end on. An
/// element that only a mirror pass has pinned may move, but its group moves
/// towards an active device alone.
pub fn slide_stubs(
    placement: &mut Placement,
    pinned: &Vec<bool>,
    user_pinned: &Vec<bool>,
    mirrored: &Vec<bool>,
    checked: &CheckedNetlist,
)
    requires
        checked.drawable(),
        places(&*old(placement), checked),
        pinned@.len() == checked.elements@.len(),
        user_pinned@.len() == checked.elements@.len(),
        mirrored@.len() == checked.elements@.len(),
        old(placement).within(MAX_COORD - STUB_SPREAD),
    ensures
        same_parts(*old(placement), *final(placement)),
        final(placement).within(MAX_COORD as int),
        final(placement).spots() == columned(
            old(placement).spots(),
            checked,
            all_stubs(checked),
            x_locked_beside(checked, pinned@, user_pinned@, mirrored@),
            released_from(user_pinned@, mirrored@),
            checked.nets@.len() as int,
        ),
{
    let stubs = detect_rail_stubs(checked);
    let mut locked = vertical_members(checked);
    let mut released: Vec<bool> = Vec::new();
    let n: usize = checked.elements.len();
    let mut i: usize = 0;
    while i < n
        invariant
            i <= n,
            n == checked.elements@.len(),
            pinned@.len() == n,
            user_pinned@.len() == n,
            mirrored@.len() == n,
            locked@.len() == n,
            released@.len() == i,
            forall|j: int|
                0 <= j < i ==> #[trigger] released@[j] == (mirrored@[j] && !user_pinned@[j]),
            forall|j: int|
                0 <= j < i ==> #[trigger] locked@[j] == ((pinned@[j] && !user_pinned@[j]
                    && !mirrored@[j]) || in_vertical_cluster(checked, j)),
            forall|j: int|
                i <= j < n ==> #[trigger] locked@[j] == in_vertical_cluster(checked, j),
        decreases n - i,
    {
        if pinned[i] && !user_pinned[i] && !mirrored[i] {
            locked.set(i, true);
        }
        released.push(mirrored[i] && !user_pinned[i]);
        i = i + 1;
    }
    let ghost start = placement.spots();
    let ghost limit = MAX_COORD - STUB_SPREAD;
    proof {
        within_grows(start, limit, MAX_COORD as int);
        stubs_listed(checked, checked.elements@.len() as int);
        detected_stubs_stay(checked, stubs@);
    }
    apply_rail_stub_columns(placement, &locked, &released, checked, &stubs);
    proof {
        assert(locked@ =~= x_locked_beside(checked, pinned@, user_pinned@, mirrored@));
        assert(released@ =~= released_from(user_pinned@, mirrored@));
        columns_slide_only_stubs(
            start,
            checked,
            stubs@,
            locked@,
            released@,
            checked.nets@.len() as int,
            limit,
        );
        assert forall|j: int| 0 <= j < placement.spots().len() implies (
        #[trigger] placement.spots()[j]).origin.within(MAX_COORD as int) by {
            assert(start[j].origin.within(limit));
        }
    }
}

/// Goes back to the spots `before` if the `place` directives are worse off than
/// with them, or if pinned elements overlap that did not before. Clusters are to
/// be as straight as before, so that the `place` directives decide.
pub fn keep_or_revert(
    placement: &mut Placement,
    before: &Vec<(GridPoint, Orientation)>,
    user_pinned: &Vec<bool>,
    checked: &CheckedNetlist,
)
    requires
        checked.drawable(),
        checked.directives_fit(),
        places(&*old(placement), checked),
        before@.len() == checked.elements@.len(),
        user_pinned@.len() == checked.elements@.len(),
        old(placement).within(MAX_COORD as int),
        spots_within(listed_spots(before@), MAX_COORD as int),
        same_spreads(listed_spots(before@), old(placement).spots(), checked),
    ensures
        same_parts(*old(placement), *final(placement)),
        final(placement).spots() == kept(
            listed_spots(before@),
            old(placement).spots(),
            checked,
            user_pinned@,
        ),
{
    let ghost whole = *placement;
    let ghost after = placement.spots();
    let moved = saved_spots(placement);
    let residual_after: u128 = place_residuals(placement, checked);
    let overlaps_after: u64 = immovable_overlap_count(placement, checked, user_pinned);
    restore_spots(placement, before);
    let ghost back = *placement;
    assert(placement.spots() =~= listed_spots(before@));
    proof {
        moving_keeps_the_netlist(whole, back, checked);
    }
    let residual_before: u128 = place_residuals(placement, checked);
    let overlaps_before: u64 = immovable_overlap_count(placement, checked, user_pinned);
    if residual_after <= residual_before && overlaps_after <= overlaps_before {
        restore_spots(placement, &moved);
        proof {
            same_parts_trans(whole, back, *placement);
            assert(placement.spots() =~= after);
        }
    }
}

/// Pulls the rail stubs into the columns of the nodes that they end on, unless
/// that makes a `place` directive worse off or stacks two pinned elements.
pub fn stub_columns(
    placement: &mut Placement,
    pinned: &Vec<bool>,
    user_pinned: &Vec<bool>,
    checked: &CheckedNetlist,
)
    requires
        checked.drawable(),
        checked.directives_fit(),
        places(&*old(placement), checked),
        pinned@.len() == checked.elements@.len(),
        user_pinned@.len() == checked.elements@.len(),
        old(placement).within(MAX_COORD - STUB_SPREAD),
    ensures
        same_parts(*old(placement), *final(placement)),
        final(placement).spots() == stubs_columned(
            old(placement).spots(),
            checked,
            pinned@,
            user_pinned@,
        ),
{
    let mut mirrored: Vec<bool> = Vec::new();
    let n: usize = checked.elements.len();
    let mut i: usize = 0;
    while i < n
        invariant
            i <= n,
            mirrored@.len() == i,
            forall|j: int| 0 <= j < i ==> !(#[trigger] mirrored@[j]),
        decreases n - i,
    {
        mirrored.push(false);
        i = i + 1;
    }
    let ghost whole = *placement;
    let before = saved_spots(placement);
    proof {
        assert(listed_spots(before@) =~= placement.spots());
        within_grows(placement.spots(), MAX_COORD - STUB_SPREAD, MAX_COORD as int);
        assert(x_locked_beside(checked, pinned@, user_pinned@, mirrored@) =~= x_locked(
            checked,
            pinned@,
            user_pinned@,
        ));
        assert(released_from(user_pinned@, mirrored@) =~= nothing_released(
            checked.elements@.len(),
        ));
    }
    slide_stubs(placement, pinned, user_pinned, &mirrored, checked);
    let ghost slid = *placement;
    proof {
        moving_keeps_the_netlist(whole, slid, checked);
        let (a, b) = (whole.spots(), slid.spots());
        let limit = MAX_COORD - STUB_SPREAD;
        stubs_listed(checked, checked.elements@.len() as int);
        detected_stubs_stay(checked, all_stubs(checked));
        columns_slide_only_stubs(
            a,
            checked,
            all_stubs(checked),
            x_locked(checked, pinned@, user_pinned@),
            nothing_released(checked.elements@.len()),
            checked.nets@.len() as int,
            limit,
        );
        assert forall|k: int| 0 <= k < checked.align@.len() implies cluster_spread(
            a,
            checked,
            #[trigger] checked.align@[k],
        ) == cluster_spread(b, checked, checked.align@[k]) by {
            slid_clusters(
                a,
                b,
                checked,
                pinned@,
                user_pinned@,
                limit,
                k,
                checked.align@[k].refdes@.len() as int,
            );
        }
    }
    keep_or_revert(placement, &before, user_pinned, checked);
    proof {
        same_parts_trans(whole, slid, *placement);
    }
}

/// Shoves overlapping symbols apart, if there are any.
pub fn legalize_if_needed(
    placement: &mut Placement,
    user_pinned: &Vec<bool>,
    checked: &CheckedNetlist,
)
    requires
        checked.drawable(),
        places(&*old(placement), checked),
        user_pinned@.len() == checked.elements@.len(),
        old(placement).within(MAX_COORD - MAX_SHOVE_CELLS),
    ensures
        same_parts(*old(placement), *final(placement)),
        final(placement).spots() == legal_spots(old(placement).spots(), checked, user_pinned@),
{
    proof {
        within_grows(placement.spots(), MAX_COORD - MAX_SHOVE_CELLS, MAX_COORD as int);
    }
    if overlap_count(placement, checked) == 0 {
        return ;
    }
    let prefs = vertical_prefs(checked);
    assert(prefs@ =~= prefs_of(checked));
    let _moved: usize = legalize(placement, user_pinned, checked, &prefs);
}

/// The placement after all passes that construct it.
struct Draft {
    placement: Placement,
    pinned: Vec<bool>,
    user_pinned: Vec<bool>,
    allowed: Vec<Vec<Orientation>>,
}

/// The draft is what the passes make of the findings.
spec fn drafted(
    checked: &CheckedNetlist,
    placer: Placer,
    saved: Seq<HintPin>,
    f: Findings,
    draft: Draft,
) -> bool {
    &&& places(&draft.placement, checked)
    &&& layout_of(draft.placement, draft.pinned) == constructed(checked, placer, saved, f)
    &&& draft.user_pinned@ == directed(checked, f).pinned
    &&& draft.allowed@ == f.allowed
}

/// Dividers, then shared nodes.
pub fn apply_position_idioms(
    placement: &mut Placement,
    pinned: &mut Vec<bool>,
    checked: &CheckedNetlist,
    dividers: &Vec<DividerPair>,
    centers: &Vec<SharedNodeCenter>,
)
    requires
        checked.drawable(),
        places(&*old(placement), checked),
        layout_of(*old(placement), *old(pinned)).sized(checked.elements@.len() as int),
        old(placement).within(SHEET_LIMIT as int),
        forall|k: int|
            0 <= k < dividers@.len() ==> (#[trigger] dividers@[k]).upper < checked.elements@.len()
                && dividers@[k].lower < checked.elements@.len(),
        hits_in_range(checked, centers@),
    ensures
        same_parts(*old(placement), *final(placement)),
        layout_of(*final(placement), *final(pinned)) == centered_all(
            stacked_all(
                layout_of(*old(placement), *old(pinned)),
                checked,
                dividers@,
                dividers@.len() as int,
            ),
            checked,
            centers@,
            centers@.len() as int,
        ),
{
    let ghost l1 = layout_of(*placement, *pinned);
    let ghost p1 = *placement;
    proof {
        within_grows(l1.spots, SHEET_LIMIT as int, MAX_COORD as int);
        stacking_respects_pins(
            l1,
            checked,
            dividers@,
            dividers@.len() as int,
            SHEET_LIMIT as int,
        );
    }
    apply(placement, pinned, checked, dividers);
    let ghost p2 = *placement;
    proof {
        within_grows(placement.spots(), SHEET_LIMIT + 2000, MAX_COORD as int);
    }
    proof {
        moving_keeps_the_netlist(p1, p2, checked);
    }
    apply_shared_centers(placement, pinned, checked, centers);
    proof {
        same_parts_trans(p1, p2, *placement);
    }
}

/// The layout that the passes start from.
#[derive(Debug)]
pub struct Start {
    pub placement: Placement,
    /// The elements that directives or saved positions hold.
    pub pinned: Vec<bool>,
    /// The elements that directives hold.
    pub user_pinned: Vec<bool>,
}

/// The start is the seed, under the directives and the saved positions.
pub open spec fn starts(
    checked: &CheckedNetlist,
    placer: Placer,
    saved: Seq<HintPin>,
    layers: LayerAssignment,
    start: Start,
) -> bool {
    let l0 = constrained(checked, seeded(checked, layers.layers@)).layout;
    &&& is_assignment(checked, placer, layers)
    &&& places(&start.placement, checked)
    &&& layout_of(start.placement, start.pinned) == hint_applied(checked, l0, saved)
    &&& start.user_pinned@ == l0.pinned
}

/// Seeds the layout and applies the directives and the saved positions.
pub fn start_layout(checked: &CheckedNetlist, placer: Placer, hint: &Hint) -> (r: Result<
    Start,
    Vec<UnresolvedPlace>,
>)
    requires
        checked.drawable(),
        checked.directives_fit(),
        saved_on_sheet(hint.pins@),
    ensures
        match r {
            Ok(start) => {
                &&& unresolved(checked).len() == 0
                &&& start.placement.within(SHEET_LIMIT as int)
                &&& exists|layers: LayerAssignment| #[trigger]
                    starts(checked, placer, hint.pins@, layers, start)
            },
            Err(list) => {
                &&& unresolved(checked).len() > 0
                &&& lists_unresolved(checked, unresolved(checked), list@)
            },
        },
{
    match place_seed(checked, placer) {
        Err(list) => Err(list),
        Ok((seed_placement, seed_pinned)) => {
            let mut placement = seed_placement;
            let mut pinned = seed_pinned;
            let user_pinned = copy_mask(&pinned);
            let ghost p0 = placement;
            let ghost l0 = layout_of(placement, pinned);
            let ghost asg = choose|asg: LayerAssignment| #[trigger]
                is_assignment(checked, placer, asg) && l0 == constrained(
                    checked,
                    seeded(checked, asg.layers@),
                ).layout;
            proof {
                seed_is_on_the_sheet(checked, asg);
                constraints_stay_on_the_sheet(
                    checked,
                    seeded(checked, asg.layers@),
                    SEED_SPREAD as int,
                );
            }
            apply_hint(&mut placement, &mut pinned, hint);
            proof {
                let l1 = hint_applied(checked, l0, hint.pins@);
                hint_applied_fits(checked, l0, hint.pins@);
                assert forall|i: int| 0 <= i < l1.spots.len() implies placement.spots()[i]
                    == l1.spots[i] && pinned@[i] == l1.pinned[i] by {
                    assert(stands_for(p0.elements@[i], checked.elements@[i]));
                    assert(p0.spots()[i] == spot_of(p0.elements@[i]));
                }
                assert(placement.spots() =~= l1.spots);
                assert(pinned@ =~= l1.pinned);
                moving_keeps_the_netlist(p0, placement, checked);
            }
            let start = Start { placement, pinned, user_pinned };
            assert(starts(checked, placer, hint.pins@, asg, start));
            Ok(start)
        },
    }
}

/// Runs the passes up to the choice of poses.
fn draft(checked: &CheckedNetlist, placer: Placer, hint: &Hint) -> (r: Result<
    Draft,
    Vec<UnresolvedPlace>,
>)
    requires
        checked.drawable(),
        checked.directives_fit(),
        saved_on_sheet(hint.pins@),
    ensures
        match r {
            Ok(d) => {
                &&& unresolved(checked).len() == 0
                &&& exists|f: Findings| #[trigger]
                    found_in(checked, placer, f) && drafted(checked, placer, hint.pins@, f, d)
            },
            Err(list) => {
                &&& unresolved(checked).len() > 0
                &&& lists_unresolved(checked, unresolved(checked), list@)
            },
        },
{
    let dividers = detect_dividers(checked, placer);
    let centers = detect_shared_node_centers(checked);
    let allowed = allowed_orientations(checked, placer);
    match start_layout(checked, placer, hint) {
        Err(list) => Err(list),
        Ok(start) => {
            let ghost asg = choose|asg: LayerAssignment| #[trigger]
                starts(checked, placer, hint.pins@, asg, start);
            let ghost l0 = constrained(checked, seeded(checked, asg.layers@)).layout;
            let mut placement = start.placement;
            let mut pinned = start.pinned;
            let user_pinned = start.user_pinned;
            let ghost p0 = placement;
            let ghost f0 = Findings {
                layers: asg,
                dividers: dividers@,
                centers: centers@,
                columns: Seq::empty(),
                allowed: allowed@,
            };
            proof {
                seed_is_on_the_sheet(checked, asg);
                constraints_stay_on_the_sheet(
                    checked,
                    seeded(checked, asg.layers@),
                    SEED_SPREAD as int,
                );
                hint_applied_fits(checked, l0, hint.pins@);
                centers_in_range(checked, centers@);
            }
            apply_position_idioms(&mut placement, &mut pinned, checked, &dividers, &centers);
            let ghost p3 = placement;
            proof {
                moving_keeps_the_netlist(p0, p3, checked);
                assert(layout_of(placement, pinned) == positioned(checked, hint.pins@, f0));
                let l2 = stacked_all(
                    hint_applied(checked, l0, hint.pins@),
                    checked,
                    dividers@,
                    dividers@.len() as int,
                );
                stacking_respects_pins(
                    hint_applied(checked, l0, hint.pins@),
                    checked,
                    dividers@,
                    dividers@.len() as int,
                    SHEET_LIMIT as int,
                );
                centers_in_range(checked, centers@);
                centering_respects_pins(
                    l2,
                    checked,
                    centers@,
                    centers@.len() as int,
                    SHEET_LIMIT + 2000,
                );
                within_grows(
                    placement.spots(),
                    SHEET_LIMIT + 2000 + 2100,
                    MAX_COORD - STUB_SPREAD,
                );
                within_grows(placement.spots(), SHEET_LIMIT + 2000 + 2100, SHEET_LIMIT + 5000);
            }
            stub_columns(&mut placement, &pinned, &user_pinned, checked);
            let ghost p4 = placement;
            let ghost l4 = layout_of(placement, pinned);
            proof {
                same_parts_trans(p0, p3, p4);
                assert(l4 == stubbed(checked, hint.pins@, f0));
                stubs_fit(p3.spots(), checked, pinned@, user_pinned@, SHEET_LIMIT + 5000);
                within_grows(
                    p4.spots(),
                    SHEET_LIMIT + 5000 + STUB_SPREAD,
                    MAX_COORD as int,
                );
            }
            apply_dc_columns(&mut placement, &mut pinned, checked, &allowed, placer);
            let ghost p5 = placement;
            let ghost cols = if placer.dc_series_columns {
                choose|cols: Seq<ColumnView>| #[trigger]
                    columns_of(checked, cols) && layout_of(placement, pinned) == columns_drawn(
                        l4,
                        checked,
                        allowed@,
                        placer,
                        cols,
                        cols.len() as int,
                    )
            } else {
                Seq::empty()
            };
            let ghost f = Findings {
                layers: asg,
                dividers: dividers@,
                centers: centers@,
                columns: cols,
                allowed: allowed@,
            };
            proof {
                same_parts_trans(p0, p4, p5);
                moving_keeps_the_netlist(p0, p5, checked);
                assert(found_in(checked, placer, f));
                assert(directed(checked, f) == l0);
                assert(stubbed(checked, hint.pins@, f) == l4);
                series_columned_fits(checked, placer, hint.pins@, f);
                within_grows(
                    p5.spots(),
                    SHEET_LIMIT + 5000 + STUB_SPREAD + COLUMN_SPREAD,
                    MAX_COORD as int,
                );
            }
            apply_series_horizontal(&mut placement, &mut pinned, checked, &allowed, placer);
            let d = Draft { placement, pinned, user_pinned, allowed };
            proof {
                same_parts_trans(p0, p5, d.placement);
                moving_keeps_the_netlist(p0, d.placement, checked);
                assert(drafted(checked, placer, hint.pins@, f, d));
            }
            Ok(d)
        },
    }
}

fn copy_mask(mask: &Vec<bool>) -> (r: Vec<bool>)
    ensures
        r@ == mask@,
{
    let mut out: Vec<bool> = Vec::new();
    let mut i: usize = 0;
    while i < mask.len()
        invariant
            i <= mask@.len(),
            out@.len() == i,
            forall|j: int| 0 <= j < i ==> #[trigger] out@[j] == mask@[j],
        decreases mask@.len() - i,
    {
        out.push(mask[i]);
        i = i + 1;
    }
    assert(out@ =~= mask@);
    out
}

/// Places the netlist, with saved positions.
///
/// A saved position never overrules an `align` or `place` directive. The result
/// is an error exactly when some `place` directive never found its anchor
/// placed; all such directives are listed.
pub fn place_with_hint(checked: &CheckedNetlist, opts: &LayoutOptions, hint: &Hint) -> (r: Result<
    Placement,
    Vec<UnresolvedPlace>,
>)
    requires
        checked.drawable(),
        checked.directives_fit(),
        saved_on_sheet(hint.pins@),
    ensures
        match r {
            Ok(p) => {
                &&& unresolved(checked).len() == 0
                &&& places(&p, checked)
                &&& exists|f: Findings| #[trigger]
                    found_in(checked, opts.placer, f) && p.spots() == final_spots(
                        checked,
                        opts.placer,
                        hint.pins@,
                        f,
                    )
            },
            Err(list) => {
                &&& unresolved(checked).len() > 0
                &&& lists_unresolved(checked, unresolved(checked), list@)
            },
        },
{
    let placer = opts.placer;
    match draft(checked, placer, hint) {
        Err(list) => Err(list),
        Ok(d) => {
            let ghost f = choose|f: Findings| #[trigger]
                found_in(checked, placer, f) && drafted(checked, placer, hint.pins@, f, d);
            let mut placement = d.placement;
            let ghost p6 = placement;
            proof {
                directed_fits(checked, placer, f);
                constructed_fits(checked, placer, hint.pins@, f);
                turned_fits(checked, placer, hint.pins@, f);
                within_grows(p6.spots(), MAX_COORD - MAX_SHOVE_CELLS, MAX_COORD as int);
            }
            pick_orientations(&mut placement, &d.pinned, checked, &d.allowed);
            let ghost p7 = placement;
            proof {
                moving_keeps_the_netlist(p6, p7, checked);
            }
            legalize_if_needed(&mut placement, &d.user_pinned, checked);
            proof {
                same_parts_trans(p6, p7, placement);
                moving_keeps_the_netlist(p6, placement, checked);
                assert(found_in(checked, placer, f));
            }
            Ok(placement)
        },
    }
}

/// Places the netlist without saved positions.
pub fn place_with(checked: &CheckedNetlist, opts: &LayoutOptions) -> (r: Result<
    Placement,
    Vec<UnresolvedPlace>,
>)
    requires
        checked.drawable(),
        checked.directives_fit(),
    ensures
        match r {
            Ok(p) => {
                &&& unresolved(checked).len() == 0
                &&& places(&p, checked)
                &&& exists|f: Findings| #[trigger]
                    found_in(checked, opts.placer, f) && p.spots() == final_spots(
                        checked,
                        opts.placer,
                        seq![],
                        f,
                    )
            },
            Err(list) => {
                &&& unresolved(checked).len() > 0
                &&& lists_unresolved(checked, unresolved(checked), list@)
            },
        },
{
    let hint = Hint { pins: Vec::new() };
    assert(hint.pins@ =~= seq![]);
    place_with_hint(checked, opts, &hint)
}

/// Places the netlist with the champion placer.
pub fn place(checked: &CheckedNetlist) -> (r: Result<Placement, Vec<UnresolvedPlace>>)
    requires
        checked.drawable(),
        checked.directives_fit(),
    ensures
        match r {
            Ok(p) => {
                &&& unresolved(checked).len() == 0
                &&& places(&p, checked)
                &&& exists|f: Findings| #[trigger]
                    found_in(checked, champion_placer(), f) && p.spots() == final_spots(
                        checked,
                        champion_placer(),
                        seq![],
                        f,
                    )
            },
            Err(list) => {
                &&& unresolved(checked).len() > 0
                &&& lists_unresolved(checked, unresolved(checked), list@)
            },
        },
{
    let opts = LayoutOptions { placer: Placer::champion() };
    place_with(checked, &opts)
}

/// What a later choice of poses must respect.
#[derive(Debug, Clone)]
pub struct RefinementMeta {
    /// The elements that must stay as they are.
    pub pinned: Vec<bool>,
    /// The poses that each element may take.
    pub allowed: Vec<Vec<Orientation>>,
}

/// The pins and allowed poses that the placer itself goes by.
pub fn refinement_meta(checked: &CheckedNetlist, hint: &Hint, placer: Placer) -> (r: Result<
    RefinementMeta,
    Vec<UnresolvedPlace>,
>)
    requires
        checked.drawable(),
        checked.directives_fit(),
        saved_on_sheet(hint.pins@),
    ensures
        match r {
            Ok(meta) => {
                &&& unresolved(checked).len() == 0
                &&& exists|f: Findings| #[trigger]
                    found_in(checked, placer, f) && meta.pinned@ == constructed(
                        checked,
                        placer,
                        hint.pins@,
                        f,
                    ).pinned && meta.allowed@ == f.allowed
            },
            Err(list) => {
                &&& unresolved(checked).len() > 0
                &&& lists_unresolved(checked, unresolved(checked), list@)
            },
        },
{
    match draft(checked, placer, hint) {
        Err(list) => Err(list),
        Ok(d) => Ok(RefinementMeta { pinned: d.pinned, allowed: d.allowed }),
    }
}

/// The element was pinned by a pass, in a pose that it must not take.
pub open spec fn pinned_outside(
    spots: Seq<Spot>,
    pinned: Seq<bool>,
    externally_pinned: Seq<bool>,
    allowed: Seq<Vec<Orientation>>,
) -> spec_fn(int) -> bool {
    |i: int|
        pinned[i] && !externally_pinned[i] && allowed[i]@.len() > 0 && !permits(
            allowed,
            i,
            spots[i].orientation,
        )
}

/// Lists the elements that a pass has pinned in a pose that they must not take.
/// A pinned pose is never chosen again, so the list should be empty. Pins of
/// directives and saved positions are the caller's own and are not listed.
pub fn seed_pins_outside_allowed(
    placement: &Placement,
    pinned: &Vec<bool>,
    externally_pinned: &Vec<bool>,
    allowed: &Vec<Vec<Orientation>>,
) -> (r: Vec<usize>)
    requires
        pinned@.len() == placement.elements@.len(),
        externally_pinned@.len() == placement.elements@.len(),
        allowed@.len() == placement.elements@.len(),
    ensures
        r@ == where_list(
            pinned_outside(placement.spots(), pinned@, externally_pinned@, allowed@),
            placement.elements@.len() as int,
        ),
{
    let mut out: Vec<usize> = Vec::new();
    let mut i: usize = 0;
    while i < pinned.len()
        invariant
            i <= pinned@.len(),
            pinned@.len() == placement.elements@.len(),
            externally_pinned@.len() == placement.elements@.len(),
            allowed@.len() == placement.elements@.len(),
            out@ == where_list(
                pinned_outside(placement.spots(), pinned@, externally_pinned@, allowed@),
                i as int,
            ),
        decreases pinned@.len() - i,
    {
        if pinned[i] && !externally_pinned[i] && allowed[i].len() > 0 && !v14_permits(
            allowed,
            i,
            placement.elements[i].orientation,
        ) {
            out.push(i);
        }
        i = i + 1;
    }
    out
}

/// A saved position is taken by the unpinned element of that designator, and
/// the element is pinned there; what is pinned already stays, and so does what
/// has no saved position.
pub proof fn saved_positions_are_taken(
    checked: &CheckedNetlist,
    layout: Layout,
    saved: Seq<HintPin>,
    i: int,
    k: int,
)
    requires
        0 <= i < layout.spots.len(),
        layout.pinned.len() == layout.spots.len(),
        0 <= k <= saved.len(),
        forall|j: int|
            0 <= j < k ==> (#[trigger] saved[j]).refdes@ != checked.elements@[i].refdes@,
        k < saved.len() ==> saved[k].refdes@ == checked.elements@[i].refdes@,
    ensures
        ({
            let after = hint_applied(checked, layout, saved);
            &&& layout.pinned[i] || k == saved.len() ==> after.spots[i] == layout.spots[i]
                && after.pinned[i] == layout.pinned[i]
            &&& !layout.pinned[i] && k < saved.len() ==> after.pinned[i]
                && after.spots[i].origin == saved[k].origin && after.spots[i].orientation
                == saved[k].orientation
        }),
{
    crate::placement::first_hint(saved, checked.elements@[i].refdes@, 0, k);
}

/// What a pass has pinned keeps its X in the stub columns, unless the user had
/// pinned it before; so do the members of a vertical cluster, and nothing else.
pub proof fn columns_leave_pinned_lines_alone(
    checked: &CheckedNetlist,
    pinned: Seq<bool>,
    user_pinned: Seq<bool>,
    i: int,
    k: int,
    m: int,
)
    requires
        0 <= i < pinned.len(),
    ensures
        pinned[i] && !user_pinned[i] ==> x_locked(checked, pinned, user_pinned)[i],
        0 <= k < checked.align@.len() && 0 <= m < checked.align@[k].refdes@.len()
            && checked.align@[k].axis == Axis::Vertical && checked.element_named(
            checked.align@[k].refdes@[m]@,
        ) == Some(i) ==> x_locked(checked, pinned, user_pinned)[i],
        (!pinned[i] || user_pinned[i]) && (forall|a: int, b: int|
            #![trigger checked.align@[a].refdes@[b]]
            0 <= a < checked.align@.len() && 0 <= b < checked.align@[a].refdes@.len()
                && checked.element_named(checked.align@[a].refdes@[b]@) == Some(i)
                ==> checked.align@[a].axis == Axis::Horizontal) ==> !x_locked(
            checked,
            pinned,
            user_pinned,
        )[i],
{
    if 0 <= k < checked.align@.len() && 0 <= m < checked.align@[k].refdes@.len() && in_column_at(
        checked,
        k,
        m,
        i,
    ) {
        assert(in_vertical_cluster(checked, i));
    }
    if in_vertical_cluster(checked, i) {
        let (a, b) = choose|a: int, b: int|
            0 <= a < checked.align@.len() && 0 <= b < checked.align@[a].refdes@.len()
                && #[trigger] in_column_at(checked, a, b, i);
        assert(checked.align@[a].refdes@[b] == checked.align@[a].refdes@[b]);
    }
}

/// The final step shoves only where elements overlap: a layout in which no two
/// do is final.
pub proof fn clear_layouts_are_final(
    spots: Seq<Spot>,
    checked: &CheckedNetlist,
    user_pinned: Seq<bool>,
)
    requires
        forall|i: int, j: int|
            0 <= i < j < checked.elements@.len() ==> !#[trigger] crate::legalize::elements_overlap(
                spots,
                checked,
                i,
                j,
            ),
    ensures
        legal_spots(spots, checked, user_pinned) == spots,
{
    no_pairs_overlap(spots, checked, checked.elements@.len() as int);
}

proof fn no_pairs_overlap(spots: Seq<Spot>, checked: &CheckedNetlist, n: int)
    requires
        n <= checked.elements@.len(),
        forall|i: int, j: int|
            0 <= i < j < checked.elements@.len() ==> !#[trigger] crate::legalize::elements_overlap(
                spots,
                checked,
                i,
                j,
            ),
    ensures
        overlap_pairs(spots, checked, n) == 0,
    decreases n,
{
    if n > 0 {
        no_pairs_overlap(spots, checked, n - 1);
        let p = crate::legalize::overlaps_at(spots, checked, n - 1);
        if crate::counting::count(p, n - 1) > 0 {
            let k = crate::counting::count_witness(p, n - 1);
            assert(!crate::legalize::elements_overlap(spots, checked, k, n - 1));
        }
    }
}

} // verus!
