//! Schematic auto-placement: net classification, banding, layering and
//! grid-snapped placement of a checked netlist.

pub mod archetype;
pub mod bands;
pub mod channels;
pub mod compact;
pub mod constraints;
pub mod cost;
pub mod cost_rows;
pub mod counting;
pub mod crossing;
pub mod cycles;
pub mod dc_column;
pub mod dc_layout;
pub mod dc_rank;
pub mod dc_series;
pub mod depth;
pub mod distance;
pub mod extent;
pub mod flow;
pub mod footprint;
pub mod glyph_geom;
pub mod graph;
pub mod idioms;
pub mod label_geom;
pub mod layering;
pub mod layers;
pub mod legalize;
pub mod limits;
pub mod minimal_trees;
pub mod names;
pub mod net_class;
pub mod netlist;
pub mod ordering;
pub mod orient;
pub mod pin_clash;
pub mod pins;
pub mod place;
pub mod placement;
pub mod placer;
pub mod pose_pick;
pub mod rail_stub;
pub mod relation;
pub mod seed;
pub mod series;
pub mod shared_center;
pub mod signal_graph;
pub mod symbol;
pub mod tarjan;
pub mod values;
pub mod wires;
pub mod words;
