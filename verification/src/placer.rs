//! The switches that select between placement policies.

use vstd::prelude::*;

verus! {

/// Which placement policies are on. With every switch off the placer behaves
/// as the champion placer.
#[derive(Debug, Clone, Copy, PartialEq, Eq, Structural)]
pub struct Placer {
    /// Root the layering at signal-flow inputs instead of at rails.
    pub flow_seed_layering: bool,
    /// Accept a divider only between opposite rails.
    pub rail_gated_dividers: bool,
    /// Under rail gating, also require that nothing but the divider is on the
    /// tap.
    pub divider_tap_must_be_unloaded: bool,
    /// Exclude poses that draw an output left of the inputs.
    pub signal_direction_filter: bool,
    /// Lay a series element that ends on a divider node horizontally.
    pub divider_node_series: bool,
    /// Lay a series element that ends on a terminal net horizontally.
    pub terminal_net_series: bool,
    /// Root the signal depth at declared inputs, then at drawn sources.
    pub unified_depth_roots: bool,
    /// Line up devices that carry one DC current.
    pub dc_series_columns: bool,
    /// Pin the members of such columns.
    pub dc_series_columns_pinned: bool,
    /// Seat one-pin stubs beside the column they tap.
    pub dc_column_node_stubs: bool,
}

impl Placer {
    /// The champion placer.
    pub fn champion() -> (r: Placer)
        ensures
            r == champion_placer(),
    {
        Placer {
            flow_seed_layering: false,
            rail_gated_dividers: false,
            divider_tap_must_be_unloaded: false,
            signal_direction_filter: false,
            divider_node_series: false,
            terminal_net_series: false,
            unified_depth_roots: false,
            dc_series_columns: false,
            dc_series_columns_pinned: false,
            dc_column_node_stubs: false,
        }
    }
}

/// Every switch off.
pub open spec fn champion_placer() -> Placer {
    Placer {
        flow_seed_layering: false,
        rail_gated_dividers: false,
        divider_tap_must_be_unloaded: false,
        signal_direction_filter: false,
        divider_node_series: false,
        terminal_net_series: false,
        unified_depth_roots: false,
        dc_series_columns: false,
        dc_series_columns_pinned: false,
        dc_column_node_stubs: false,
    }
}

/// The champion placer has none of the policies on: whatever a policy allows,
/// it does without.
pub proof fn champions_have_no_policy_on(p: Placer)
    ensures
        p == champion_placer() <==> !(p.flow_seed_layering || p.rail_gated_dividers
            || p.divider_tap_must_be_unloaded || p.signal_direction_filter || p.divider_node_series
            || p.terminal_net_series || p.unified_depth_roots || p.dc_series_columns
            || p.dc_series_columns_pinned || p.dc_column_node_stubs),
{
}

} // verus!
