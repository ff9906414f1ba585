//! Circuits read by the topology passes.

use spice_layout::bands::{assign_y_bands, Band};
use spice_layout::channels::{assign_rows, row_adjusted_frac, Rows};
use spice_layout::cycles::break_cycles;
use spice_layout::dc_column::{column_pin_offsets, plan_carried_stubs};
use spice_layout::dc_rank::device_facings;
use spice_layout::dc_series::{dc_series_pairs, detect_dc_columns};
use spice_layout::depth::{signal_net_depth, signal_net_depth_from};
use spice_layout::flow::{signal_flow, SignalFlow};
use spice_layout::idioms::{
    detect_collector_loads, detect_dividers, detect_parallel_pairs, DividerPair,
};
use spice_layout::layering::{
    barycenter_order, compact_layers, identity_order, longest_path_layers, rank_by_layer, topo_order,
};
use spice_layout::layers::{
    assign_x_layers, assign_x_layers_with, boundary_net_role, LayerAssignment,
};
use spice_layout::net_class::{
    classify_nets, matches_negative_rail_name, vertical_prefs, NetClass, VertPref,
};
use spice_layout::netlist::{
    resolve_netlist, AlignSpec, Axis, CheckedNetlist, ElementDecl, ElementKind, ElementRole,
    NetlistDecl, PlaceSpec, PortDecl, PortDir, Relation,
};
use spice_layout::orient::{
    allowed_and_repair_orientations, allowed_orientations, satisfies_v14, screen_facing,
    ScreenFacing,
};
use spice_layout::place::place;
use spice_layout::placement::negative_rail_nets;
use spice_layout::placer::Placer;
use spice_layout::rail_stub::detect_rail_stubs;
use spice_layout::shared_center::detect_shared_node_centers;
use spice_layout::symbol::{Orientation, Pin, PinElectrical, Pose, Rect, Rotation, Symbol};
use spice_layout::tarjan::tarjan_sccs;

// ---- A small circuit reader for the tests ----------------------------------

/// Turns a point about the origin as pose number `i` does.
#[allow(dead_code)]
fn turned(i: usize, x: i32, y: i32) -> (i32, i32) {
    let (mut a, mut b) = if i >= 4 { (-x, y) } else { (x, y) };
    for _ in 0..(i % 4) {
        let (c, d) = (-b, a);
        a = c;
        b = d;
    }
    (a, b)
}

type PinRow = (&'static str, i32, i32, i32, i32, PinElectrical);

/// A symbol from its upright pins (number, position, outward direction) and
/// its upright body box.
#[allow(dead_code)]
fn symbol(pins: &[PinRow], body: (i32, i32, i32, i32)) -> Symbol {
    let mut poses = Vec::new();
    for i in 0..8 {
        let mut drawn = Vec::new();
        for &(number, x, y, dx, dy, electrical) in pins {
            let (px, py) = turned(i, x, y);
            let angle = match turned(i, dx, dy) {
                (0, 1) => 270,
                (0, -1) => 90,
                (1, 0) => 0,
                _ => 180,
            };
            drawn.push(Pin { number: number.to_string(), x: px, y: py, angle, electrical });
        }
        let (x0, y0) = turned(i, body.0, body.1);
        let (x1, y1) = turned(i, body.2, body.3);
        let rect = Rect { x0: x0.min(x1), y0: y0.min(y1), x1: x0.max(x1), y1: y0.max(y1) };
        poses.push(Pose { pins: drawn, body: Some(rect) });
    }
    Symbol { poses }
}

#[allow(dead_code)]
fn resistor() -> Symbol {
    symbol(
        &[
            ("1", 0, 3810, 0, 1, PinElectrical::Passive),
            ("2", 0, -3810, 0, -1, PinElectrical::Passive),
        ],
        (-1016, -2540, 1016, 2540),
    )
}

#[allow(dead_code)]
fn capacitor() -> Symbol {
    symbol(
        &[
            ("1", 0, 3810, 0, 1, PinElectrical::Passive),
            ("2", 0, -3810, 0, -1, PinElectrical::Passive),
        ],
        (-2032, -762, 2032, 762),
    )
}

#[allow(dead_code)]
fn source() -> Symbol {
    symbol(
        &[
            ("1", 0, 5080, 0, 1, PinElectrical::Passive),
            ("2", 0, -5080, 0, -1, PinElectrical::Passive),
        ],
        (-2540, -2540, 2540, 2540),
    )
}

#[allow(dead_code)]
fn npn() -> Symbol {
    symbol(
        &[
            ("1", -5080, 0, -1, 0, PinElectrical::Input),
            ("2", 2540, 5080, 0, 1, PinElectrical::Passive),
            ("3", 2540, -5080, 0, -1, PinElectrical::Passive),
        ],
        (-1524, -2794, 4064, 2794),
    )
}

#[allow(dead_code)]
fn controlled_source() -> Symbol {
    symbol(
        &[
            ("1", 2540, 5080, 0, 1, PinElectrical::Passive),
            ("2", 2540, -5080, 0, -1, PinElectrical::Passive),
            ("3", -5080, 2540, -1, 0, PinElectrical::Input),
            ("4", -5080, -2540, -1, 0, PinElectrical::Input),
        ],
        (-2540, -3810, 5080, 3810),
    )
}

#[allow(dead_code)]
fn opamp() -> Symbol {
    symbol(
        &[
            ("1", 7620, 0, 1, 0, PinElectrical::Output),
            ("2", -7620, -2540, -1, 0, PinElectrical::Input),
            ("3", -7620, 2540, -1, 0, PinElectrical::Input),
            ("4", -2540, -7620, 0, -1, PinElectrical::PowerIn),
            ("8", -2540, 7620, 0, 1, PinElectrical::PowerIn),
        ],
        (-5080, -5080, 5080, 5080),
    )
}

#[allow(dead_code)]
fn strings(list: &[&str]) -> Vec<String> {
    list.iter().map(|s| s.to_string()).collect()
}

/// Reads a circuit: a title line, then one element per line. `;@ power=..`
/// marks a supply, `;@ ignore` drops the element, `;@ place=right-of R1` places
/// it, and `*@symbol Amplifier_Operational:OPAMP for=X1` draws `X1` as an
/// operational amplifier instead of a sheet.
#[allow(dead_code)]
fn circuit(src: &str) -> CheckedNetlist {
    let mut decl = NetlistDecl {
        elements: Vec::new(),
        align: Vec::new(),
        place: Vec::new(),
        ports: Vec::new(),
        sheet_instances: Vec::new(),
        subckts: Vec::new(),
    };
    let mut drawn_blocks: Vec<String> = Vec::new();
    let mut inside = false;
    for line in src.lines().skip(1) {
        let line = line.trim();
        if let Some(rest) = line.strip_prefix("*@symbol Amplifier_Operational:OPAMP for=") {
            drawn_blocks.push(rest.split_whitespace().next().unwrap().to_string());
            continue;
        }
        if let Some(rest) = line.strip_prefix("*@port ") {
            let (net, dir) = rest.split_once('=').unwrap();
            let dir = match dir {
                "input" => PortDir::Input,
                "output" => PortDir::Output,
                _ => PortDir::Bidir,
            };
            decl.ports.push(PortDecl { net: net.to_string(), dir });
            continue;
        }
        if let Some(rest) = line.strip_prefix("*@align ") {
            let mut words = rest.split_whitespace();
            let axis = match words.next().unwrap() {
                "horizontal" => Axis::Horizontal,
                _ => Axis::Vertical,
            };
            decl.align.push(AlignSpec { axis, refdes: words.map(|w| w.to_string()).collect() });
            continue;
        }
        if let Some(rest) = line.strip_prefix(".subckt ") {
            decl.subckts.push(rest.split_whitespace().skip(1).map(|w| w.to_string()).collect());
            inside = true;
            continue;
        }
        if line.starts_with(".ends") {
            inside = false;
            continue;
        }
        if inside || line.is_empty() || line.starts_with('.') || line.starts_with('*') {
            continue;
        }
        let (text, tag) = match line.split_once(";@") {
            Some((a, b)) => (a, b.trim()),
            None => (line, ""),
        };
        if tag == "ignore" {
            continue;
        }
        let words: Vec<&str> = text.split_whitespace().collect();
        let refdes = words[0];
        let (kind, count, pins, shape): (ElementKind, usize, Vec<&str>, Symbol) =
            match refdes.chars().next().unwrap() {
                'R' => (ElementKind::Resistor, 2, vec!["1", "2"], resistor()),
                'C' => (ElementKind::Capacitor, 2, vec!["1", "2"], capacitor()),
                'Q' => (ElementKind::Bjt, 3, vec!["2", "1", "3"], npn()),
                'E' => (ElementKind::Vcvs, 4, vec!["1", "2", "3", "4"], controlled_source()),
                'V' => (ElementKind::VoltageSrc, 2, vec!["1", "2"], source()),
                'X' => (ElementKind::Other, 5, vec!["3", "2", "1", "8", "4"], opamp()),
                _ => panic!("cannot read {line}"),
            };
        if refdes.starts_with('X') && !drawn_blocks.iter().any(|b| b == refdes) {
            let last = words.len() - 1;
            decl.sheet_instances.push(strings(&words[1..last]));
            continue;
        }
        let role = match tag.strip_prefix("power=") {
            Some(rail) => ElementRole::Power(rail.to_string()),
            None => ElementRole::Normal,
        };
        if let Some(rest) = tag.strip_prefix("place=") {
            let (how, anchor) = rest.split_once(' ').unwrap();
            let relation = match how {
                "right-of" => Relation::RightOf,
                "left-of" => Relation::LeftOf,
                "above" => Relation::Above,
                _ => Relation::Below,
            };
            decl.place.push(PlaceSpec {
                refdes: refdes.to_string(),
                anchor: anchor.to_string(),
                relation,
            });
        }
        let value = match kind {
            ElementKind::Resistor | ElementKind::Capacitor => Some(words[3].to_string()),
            _ => None,
        };
        decl.elements.push(ElementDecl {
            refdes: refdes.to_string(),
            lib_id: "Device:Part".to_string(),
            kind,
            role,
            nodes: strings(&words[1..1 + count]),
            pin_mapping: strings(&pins),
            value,
            symbol: shape,
        });
    }
    let checked = resolve_netlist(decl);
    assert!(checked.is_drawable());
    assert!(checked.directives_in_limits());
    checked
}

#[allow(dead_code)]
fn at(checked: &CheckedNetlist, refdes: &str) -> usize {
    checked.element_index(refdes).unwrap_or_else(|| panic!("no element {refdes}"))
}

#[allow(dead_code)]
fn net(checked: &CheckedNetlist, name: &str) -> usize {
    checked.net_id(name).unwrap_or_else(|| panic!("no net {name}"))
}

#[allow(dead_code)]
fn champion() -> Placer {
    Placer::champion()
}

#[allow(dead_code)]
fn flow_seed() -> Placer {
    Placer { flow_seed_layering: true, ..champion() }
}

#[allow(dead_code)]
fn flow_seed_v2() -> Placer {
    Placer { unified_depth_roots: true, ..flow_seed() }
}

#[allow(dead_code)]
fn terminal_series() -> Placer {
    Placer { terminal_net_series: true, ..flow_seed_v2() }
}

#[allow(dead_code)]
fn terminal_series_divider() -> Placer {
    Placer { divider_node_series: true, ..terminal_series() }
}

#[allow(dead_code)]
fn divider_rails() -> Placer {
    Placer { rail_gated_dividers: true, ..champion() }
}

#[allow(dead_code)]
fn divider_rails_strict() -> Placer {
    Placer { divider_tap_must_be_unloaded: true, ..divider_rails() }
}

#[allow(dead_code)]
fn signal_direction() -> Placer {
    Placer { signal_direction_filter: true, ..champion() }
}

#[allow(dead_code)]
fn dc_column_node_stubs() -> Placer {
    Placer {
        dc_series_columns: true,
        dc_column_node_stubs: true,
        rail_gated_dividers: true,
        ..flow_seed_v2()
    }
}

// ---- Facing of transistors ---------------------------------------------------

fn facings(src: &str) -> Vec<(String, Option<(usize, usize)>)> {
    let checked = circuit(src);
    let f = device_facings(&checked);
    checked.elements.iter().zip(f).map(|(el, x)| (el.refdes.clone(), x)).collect()
}

fn facing_of(src: &str, refdes: &str) -> Option<(usize, usize)> {
    facings(src).into_iter().find(|(r, _)| r == refdes).unwrap_or_else(|| panic!("no {refdes}")).1
}

#[test]
fn common_emitter_resolves_collector_up() {
    let src = "test\nVCC vcc 0 DC 12 ;@ power=+12V\n\
         R1 vcc b 47k\nR2 b 0 10k\nRC vcc c 3k3\nRE e 0 1k\n\
         Q1 c b e QGENERIC\n.model QGENERIC NPN\n.end\n";
    assert_eq!(facing_of(src, "Q1"), Some((0, 2)));
}

#[test]
fn cascode_resolves_both_devices_collector_up() {
    let src = "test\nVCC vcc 0 DC 12 ;@ power=+12V\n\
         RB1 vcc b2 47k\nRB2 b2 b1 22k\nRB3 b1 0 10k\n\
         RC vcc c2 4k7\nQ2 c2 b2 c1 QGENERIC\nQ1 c1 b1 e1 QGENERIC\nRE e1 0 470\n\
         .model QGENERIC NPN\n.end\n";
    assert_eq!(facing_of(src, "Q2"), Some((0, 2)));
    assert_eq!(facing_of(src, "Q1"), Some((0, 2)));
}

#[test]
fn diff_pair_resolves_against_a_negative_rail() {
    let src = "test\nVCC vcc 0 DC 12 ;@ power=+12V\nVEE vee 0 DC -12 ;@ power=-12V\n\
         RC1 vcc c1 4k7\nRC2 vcc c2 4k7\nRTAIL tail vee 2k2\n\
         Q1 c1 in1 tail QGENERIC\nQ2 c2 in2 tail QGENERIC\n.model QGENERIC NPN\n.end\n";
    assert_eq!(facing_of(src, "Q1"), Some((0, 2)));
    assert_eq!(facing_of(src, "Q2"), Some((0, 2)));
}

#[test]
fn pnp_topology_puts_the_emitter_up_with_no_model_lookup() {
    let src = "test\nVCC vcc 0 DC 12 ;@ power=+12V\n\
         RE vcc e 1k\nRC c 0 4k7\nRB1 vcc b 47k\nRB2 b 0 22k\n\
         Q1 c b e QGENERIC\n.model QGENERIC PNP\n.end\n";
    assert_eq!(facing_of(src, "Q1"), Some((2, 0)));
}

#[test]
fn folded_pnp_branch_resolves_emitter_up() {
    let src = "test\nVCC vcc 0 DC 12 ;@ power=+12V\n\
         REP vcc ep 1k\nRB1 vcc bp 47k\nRB2 bp 0 22k\n\
         QP cp bp ep QGENERIC\nQN cp bn en QGENERIC\nRE en 0 470\n\
         RBN vcc bn 100k\nRBN2 bn 0 22k\n.model QGENERIC PNP\n.end\n";
    assert_eq!(facing_of(src, "QP"), Some((2, 0)));
    assert_eq!(facing_of(src, "QN"), Some((0, 2)));
}

#[test]
fn a_floating_pass_transistor_declines() {
    let src = "test\nVCC vcc 0 DC 12 ;@ power=+12V\n\
         C1 na 0 1u\nC2 nb 0 1u\nRG vcc g 100k\n\
         Q1 na g nb QGENERIC\n.model QGENERIC NPN\n.end\n";
    assert_eq!(facing_of(src, "Q1"), None);
}

#[test]
fn a_symmetric_tie_declines() {
    let src = "test\nVCC vcc 0 DC 12 ;@ power=+12V\n\
         RA vcc na 1k\nRB na 0 1k\nRC vcc nb 1k\nRD nb 0 1k\nRG vcc g 100k\n\
         Q1 na g nb QGENERIC\n.model QGENERIC NPN\n.end\n";
    assert_eq!(facing_of(src, "Q1"), None);
}

#[test]
fn coupling_capacitors_keep_stage_ranks_independent() {
    let src = "test\nVCC vcc 0 DC 12 ;@ power=+12V\n\
         RB1 vcc b1 100k\nRB2 b1 0 22k\nRC1 vcc c1 4k7\nRE1 e1 0 1k\n\
         Q1 c1 b1 e1 QGENERIC\nCC c1 b2 1u\n\
         RB3 vcc b2 100k\nRB4 b2 0 22k\nRC2 vcc c2 4k7\nRE2 e2 0 1k\n\
         Q2 c2 b2 e2 QGENERIC\n.model QGENERIC NPN\n.end\n";
    assert_eq!(facing_of(src, "Q1"), Some((0, 2)));
    assert_eq!(facing_of(src, "Q2"), Some((0, 2)));
}

#[test]
fn only_three_terminal_devices_get_a_facing() {
    let src = "test\nVCC vcc 0 DC 12 ;@ power=+12V\n\
         RC vcc c 3k3\nRE e 0 1k\nCE e 0 100u\nRB vcc b 47k\nRB2 b 0 10k\n\
         Q1 c b e QGENERIC\n.model QGENERIC NPN\n.end\n";
    for (refdes, f) in facings(src) {
        if refdes == "Q1" {
            assert!(f.is_some(), "Q1 must resolve");
        } else {
            assert_eq!(f, None, "{refdes} must have no facing");
        }
    }
}

#[test]
fn the_result_is_parallel_to_the_element_list() {
    let src = "test\nVCC vcc 0 DC 12 ;@ power=+12V\nRC vcc c 3k3\nRE e 0 1k\n\
         RB vcc b 47k\nQ1 c b e QGENERIC\n.model QGENERIC NPN\n.end\n";
    let checked = circuit(src);
    assert_eq!(device_facings(&checked).len(), checked.elements.len());
}

#[test]
fn a_rewired_transistor_faces_the_other_way() {
    let src = |q: &str| {
        format!(
            "test\nVCC vcc 0 DC 12 ;@ power=+12V\nRC vcc c 3k3\nRE e 0 1k\n{q} QGENERIC\n.end\n"
        )
    };
    assert_eq!(facing_of(&src("Q1 c b e"), "Q1"), Some((0, 2)));
    assert_eq!(facing_of(&src("Q1 e b c"), "Q1"), Some((2, 0)));
}

#[test]
fn the_others_face_as_they_did() {
    let src = |q: &str| {
        format!(
            "test\nVCC vcc 0 DC 12 ;@ power=+12V\nRB1 vcc b2 47k\nRB2 b2 b1 22k\nRB3 b1 0 10k\n\
             RC vcc c2 4k7\nQ2 c2 b2 c1 QGENERIC\n{q} QGENERIC\nRE e1 0 470\n.end\n"
        )
    };
    let (one, two) = (src("Q1 c1 b1 e1"), src("Q1 e1 b1 c1"));
    assert_eq!(facing_of(&one, "Q1"), Some((0, 2)));
    assert_eq!(facing_of(&two, "Q1"), Some((2, 0)));
    assert_eq!(facing_of(&one, "Q2"), facing_of(&two, "Q2"));
}

#[test]
fn the_net_table_holds_what_is_used() {
    let c = circuit("test\nV1 in 0 AC 1\nR1 in out 1k\nC1 out 0 100n\n.end\n");
    assert_eq!(c.nets, strings(&["0", "in", "out"]));
}

// ---- Bands -------------------------------------------------------------------

fn band_of(src: &str, refdes: &str) -> (Band, f64) {
    let checked = circuit(src);
    let classes = classify_nets(&checked);
    let bands = assign_y_bands(&checked, &classes);
    let b = bands[at(&checked, refdes)];
    (b.band, f64::from(b.soft_y_target_sixths) / 6.0)
}

#[test]
fn power_to_signal_resistor_is_mid_top_biased() {
    let (band, frac) = band_of("test\nV1 vcc 0 12 ;@ power=vcc\nR1 vcc out 1k\n.end\n", "R1");
    assert_eq!(band, Band::Mid, "R1 should be in Mid band");
    assert!(frac < 0.5, "R1 frac should be < 0.5, got {frac}");
}

#[test]
fn signal_to_ground_resistor_is_mid_bot_biased() {
    let (band, frac) = band_of("test\nV1 vcc 0 12 ;@ power=vcc\nR1 emit 0 1k\n.end\n", "R1");
    assert_eq!(band, Band::Mid, "R1 should be in Mid band");
    assert!(frac > 0.5, "R1 frac should be > 0.5, got {frac}");
}

#[test]
fn signal_only_resistor_has_no_bias() {
    let (band, frac) =
        band_of("test\nV1 in 0 AC 1\nR1 in mid 1k\nC1 mid 0 1u\n.end\n", "R1");
    assert_eq!(band, Band::Mid, "R1 should be in Mid band");
    assert!((frac - 0.5).abs() < 1e-6, "R1 frac should be 0.5, got {frac}");
}

#[test]
fn the_rails_own_the_ends_of_the_sheet() {
    let src = "test\nV1 vcc 0 12 ;@ power=vcc\nR1 vcc vdd 1k\nR2 gnd 0 1k\n.end\n";
    assert_eq!(band_of(src, "R1"), (Band::Top, 0.0));
    assert_eq!(band_of(src, "R2"), (Band::Bot, 1.0));
    assert_eq!(band_of(src, "V1").0, Band::Mid, "a source spans both rails");
}

// ---- Channels ------------------------------------------------------------------

fn rows_of(src: &str) -> (Vec<(String, Option<usize>)>, usize) {
    let checked = circuit(src);
    let classes = classify_nets(&checked);
    let rows = assign_rows(&checked, &classes);
    let count = rows.count;
    (checked.elements.iter().map(|e| e.refdes.clone()).zip(rows.row).collect(), count)
}

#[test]
fn single_component_circuit_gets_no_rows() {
    let (rows, count) = rows_of("test\nV1 in 0 AC 1\nR1 in mid 1k\nC1 mid 0 1u\n.end\n");
    assert_eq!(count, 1, "one component must yield one row");
    assert!(
        rows.iter().all(|(_, r)| r.is_none()),
        "no element may be assigned a row in a single-component circuit"
    );
}

#[test]
fn uncoupled_repeated_channels_get_distinct_rows() {
    let src = "test\nR1 in1 mid1 1k\nC1 mid1 0 1u\nR2 in2 mid2 1k\nC2 mid2 0 1u\n.end\n";
    let (rows, count) = rows_of(src);
    assert_eq!(count, 2, "two uncoupled chains are two rows");
    let get = |r: &str| {
        rows.iter()
            .find(|(x, _)| x == r)
            .and_then(|(_, v)| *v)
            .unwrap_or_else(|| panic!("{r} has no row"))
    };
    assert_eq!(get("R1"), get("C1"), "one chain is one row");
    assert_eq!(get("R2"), get("C2"), "one chain is one row");
    assert_ne!(get("R1"), get("R2"), "distinct chains are distinct rows");
}

#[test]
fn sharing_only_a_supply_rail_does_not_merge_rows() {
    let src = "test\nV1 vcc 0 12 ;@ power=vcc\n\
         R1 vcc mid1 1k\nC1 mid1 in1 1u\n\
         R2 vcc mid2 1k\nC2 mid2 in2 1u\n.end\n";
    assert_eq!(rows_of(src).1, 2, "a shared rail must not merge channels");
}

#[test]
fn a_signal_path_between_halves_keeps_one_row() {
    let src = "test\nR1 in1 mid1 1k\nC1 mid1 0 1u\nR2 mid1 mid2 1k\nC2 mid2 0 1u\n.end\n";
    assert_eq!(rows_of(src).1, 1, "coupled halves are a single component");
}

#[test]
fn an_isolated_element_is_not_a_channel() {
    let src = "test\nR1 in1 mid1 1k\nC1 mid1 0 1u\nR2 in2 0 1k\n.end\n";
    assert_eq!(rows_of(src).1, 1, "one chain plus a stub is one channel");
}

fn frac_of(band: Band, sixths: u32, row: Option<usize>, count: usize) -> f64 {
    let f = row_adjusted_frac(band, sixths, row, count);
    f.num as f64 / f.den as f64
}

#[test]
fn row_adjusted_frac_is_identity_without_rows() {
    for band in [Band::Top, Band::Mid, Band::Bot] {
        for sixths in [0, 2, 3, 4, 6] {
            assert!(
                (frac_of(band, sixths, None, 1) - f64::from(sixths) / 6.0).abs() < 1e-12,
                "must be the identity with no rows"
            );
        }
    }
}

#[test]
fn rails_keep_their_fraction_under_rows() {
    assert!((frac_of(Band::Top, 0, Some(1), 2) - 0.0).abs() < 1e-12);
    assert!((frac_of(Band::Bot, 6, Some(0), 2) - 1.0).abs() < 1e-12);
}

#[test]
fn rows_slice_the_span_in_order() {
    assert!((frac_of(Band::Mid, 3, Some(0), 2) - 0.25).abs() < 1e-12);
    assert!((frac_of(Band::Mid, 3, Some(1), 2) - 0.75).abs() < 1e-12);
    assert!(
        frac_of(Band::Mid, 2, Some(0), 2) < frac_of(Band::Mid, 4, Some(0), 2),
        "frac still orders elements inside a row"
    );
    assert!(
        frac_of(Band::Mid, 6, Some(0), 2) <= frac_of(Band::Mid, 0, Some(1), 2),
        "rows never interleave"
    );
}

#[test]
fn one_row_is_no_row_structure() {
    assert!(Rows { row: vec![None, None], count: 1 }.is_trivial());
    assert!(!Rows { row: vec![Some(0), Some(1)], count: 2 }.is_trivial());
}

// ---- Net classes -----------------------------------------------------------------

fn class_of(src: &str, name: &str) -> Option<NetClass> {
    let checked = circuit(src);
    let m = classify_nets(&checked);
    m.class[net(&checked, name)]
}

#[test]
fn ground_net_zero_classifies_as_ground() {
    assert_eq!(class_of("test\nR1 a 0 1k\n.end\n", "0"), Some(NetClass::Ground));
}

#[test]
fn power_tagged_source_positive_terminal_is_power() {
    let src = "test\nV1 vcc 0 12 ;@ power=vcc\nR1 vcc out 1k\n.end\n";
    assert_eq!(class_of(src, "vcc"), Some(NetClass::Power));
    assert_eq!(class_of(src, "out"), Some(NetClass::Signal));
}

#[test]
fn untagged_source_does_not_create_power() {
    let src = "test\nV1 in 0 AC 1\nR1 in out 1k\n.end\n";
    assert_eq!(class_of(src, "in"), Some(NetClass::Signal));
    assert_eq!(class_of(src, "out"), Some(NetClass::Signal));
}

#[test]
fn signal_net_default() {
    let src = "test\nV1 in 0 AC 1\nR1 in mid 1k\nC1 mid 0 1u\n.end\n";
    assert_eq!(class_of(src, "mid"), Some(NetClass::Signal));
}

fn pref_of(src: &str, name: &str) -> Option<VertPref> {
    let checked = circuit(src);
    vertical_prefs(&checked)[net(&checked, name)]
}

#[test]
fn positive_rail_prefers_up_ground_prefers_down() {
    let src = "test\nV1 vcc 0 12 ;@ power=vcc\nR1 vcc out 1k\n.end\n";
    assert_eq!(pref_of(src, "vcc"), Some(VertPref::Up));
    assert_eq!(pref_of(src, "0"), Some(VertPref::Down));
    assert_eq!(pref_of(src, "out"), None);
}

#[test]
fn negative_power_rail_prefers_down() {
    let src = "test\nVEE vee 0 DC -15 ;@ power=-15V\nR1 vee out 1k\n.end\n";
    assert_eq!(pref_of(src, "vee"), Some(VertPref::Down));
}

#[test]
fn name_based_negative_rail_prefers_down() {
    let src = "test\nVEE vee 0 DC 15 ;@ power=vee\nR1 vee out 1k\n.end\n";
    assert_eq!(pref_of(src, "vee"), Some(VertPref::Down));
}

fn negative_rails(src: &str) -> Vec<String> {
    let checked = circuit(src);
    let p = place(&checked).expect("placement");
    negative_rail_nets(&p, &checked.nets).into_iter().map(|n| checked.nets[n].clone()).collect()
}

#[test]
fn negative_power_tag_marks_positive_terminal_not_ground() {
    let neg = negative_rails("test\nVEE vee 0 DC -12 ;@ power=-12V\nRT tail vee 2k\n.end\n");
    assert!(neg.contains(&"vee".to_string()), "vee should be a negative rail");
    assert!(!neg.contains(&"0".to_string()), "ground `0` must not be a negative rail");
}

#[test]
fn positive_power_tag_is_not_negative_rail() {
    let neg = negative_rails("test\nVCC vcc 0 DC 12 ;@ power=+12V\nR1 vcc out 1k\n.end\n");
    assert!(neg.is_empty(), "no negative rail expected, got {neg:?}");
}

#[test]
fn vss_is_not_negative_rail_by_name() {
    let neg = negative_rails("test\nV1 vss 0 DC 0 ;@ power=vss\nR1 vss out 1k\n.end\n");
    assert!(!neg.contains(&"vss".to_string()), "vss must not be negative by name");
}

#[test]
fn canonical_vee_name_is_negative_rail() {
    let neg = negative_rails("test\nV1 vee 0 DC 5 ;@ power=vee\nR1 vee out 1k\n.end\n");
    assert!(neg.contains(&"vee".to_string()), "canonical vee name is a negative rail");
}

#[test]
fn rail_names_ignore_case_only_through_classification() {
    assert!(matches_negative_rail_name("vee"));
    assert!(!matches_negative_rail_name("vss"));
    let src = "test\nR1 VCC out 1k\nR2 GND out 1k\n.end\n";
    assert_eq!(class_of(src, "VCC"), Some(NetClass::Power));
    assert_eq!(class_of(src, "GND"), Some(NetClass::Ground));
}

// ---- Layers ------------------------------------------------------------------------

fn layer_of(checked: &CheckedNetlist, asg: &LayerAssignment, refdes: &str) -> u32 {
    asg.layers[at(checked, refdes)]
}

#[test]
fn rc_lowpass_layers_strict_left_to_right() {
    let checked = circuit("test\nV1 in 0 AC 1\nR1 in mid 1k\nC1 mid 0 1u\n.end\n");
    let asg = assign_x_layers(&checked, &classify_nets(&checked));
    let (v, r, c) =
        (layer_of(&checked, &asg, "V1"), layer_of(&checked, &asg, "R1"), layer_of(&checked, &asg, "C1"));
    assert!(v < r, "V1 (layer {v}) should be left of R1 (layer {r})");
    assert!(r <= c, "R1 (layer {r}) should not be right of C1 (layer {c})");
}

#[test]
fn channel_numbered_ports_are_boundary_nets() {
    for n in ["in", "in1", "in2", "IN3", "input", "input2", "vin", "vin1"] {
        assert_eq!(boundary_net_role(n), Some(PortDir::Input), "{n} should read as an input");
    }
    for n in ["out", "out1", "out2", "OUT12", "output", "vout", "vout2"] {
        assert_eq!(boundary_net_role(n), Some(PortDir::Output), "{n} should read as an output");
    }
}

#[test]
fn interior_nets_are_not_boundary_nets() {
    for n in [
        "in_amp",
        "input_stage",
        "inverting",
        "inv1",
        "inn",
        "inp",
        "outer",
        "vintage",
        "in_",
    ] {
        assert_eq!(boundary_net_role(n), None, "{n} is an interior net, not a boundary");
    }
}

#[test]
fn multi_channel_numbered_ports_layer_left_to_right() {
    let src = "dual channel\nVCC vcc 0 DC 15 ;@ power=+15V\n\
               R1 in1 mid1 1k\nR2 in2 mid2 1k\n\
               Q1 c1 mid1 0 QGENERIC\nQ2 c2 mid2 0 QGENERIC\n\
               RC1 vcc c1 4k7\nRC2 vcc c2 4k7\n\
               .model QGENERIC NPN (BF=200 IS=1e-15)\n.end\n";
    let checked = circuit(src);
    let asg = assign_x_layers(&checked, &classify_nets(&checked));
    assert!(layer_of(&checked, &asg, "R1") < layer_of(&checked, &asg, "Q1"), "channel 1 runs backwards");
    assert!(layer_of(&checked, &asg, "R2") < layer_of(&checked, &asg, "Q2"), "channel 2 runs backwards");
}

#[test]
fn cycle_is_broken() {
    let src = "test\nV1 vcc 0 12 ;@ power=vcc\n\
               Q1 c1 b2 0 QGENERIC\nQ2 c2 b1 0 QGENERIC\n\
               R1 vcc c1 1k\nR2 vcc c2 1k\nR3 vcc b1 10k\nR4 vcc b2 10k\n\
               C1 c1 b2 1n\nC2 c2 b1 1n\n.end\n";
    let checked = circuit(src);
    let asg = assign_x_layers(&checked, &classify_nets(&checked));
    assert_eq!(asg.layers.len(), checked.elements.len());
    let n = checked.elements.len() as u32;
    assert!(layer_of(&checked, &asg, "Q1") <= n, "Q1 must have a layer");
    assert!(layer_of(&checked, &asg, "Q2") <= n, "Q2 must have a layer");
}

#[test]
fn sources_open_the_layering() {
    let checked = circuit("test\nV1 in 0 AC 1\nR1 in mid 1k\nR2 mid out 1k\n.end\n");
    let asg = assign_x_layers_with(&checked, &classify_nets(&checked), champion());
    assert_eq!(layer_of(&checked, &asg, "V1"), 0);
    assert_eq!(layer_of(&checked, &asg, "R1"), 1);
    assert_eq!(layer_of(&checked, &asg, "R2"), 2);
}

#[test]
fn a_broken_cycle_has_a_reversed_edge() {
    let (dag, cut) = break_cycles(vec![vec![1], vec![2], vec![0]]);
    assert_eq!(cut.len(), 1);
    let (u, v) = cut[0];
    assert!(dag[v].contains(&u) && !dag[u].contains(&v));
    assert_eq!(topo_order(&dag).len(), 3);
}

#[test]
fn the_newest_ready_vertex_comes_first() {
    assert_eq!(topo_order(&vec![vec![2], vec![2, 3], vec![], vec![]]), vec![1, 3, 0, 2]);
    assert_eq!(topo_order(&vec![vec![1, 1, 2], vec![], vec![]]), vec![0, 2, 1]);
    assert_eq!(topo_order(&vec![vec![1], vec![0], vec![]]), vec![2, 0, 1]);
}

#[test]
fn compacting_layers_twice_changes_nothing() {
    let mut layers = vec![7, 0, u32::MAX, 7, 3];
    compact_layers(&mut layers);
    assert_eq!(layers, vec![2, 0, 3, 2, 1]);
    let once = layers.clone();
    compact_layers(&mut layers);
    assert_eq!(layers, once);
}

#[test]
fn components_of_a_graph() {
    let mut sccs = tarjan_sccs(&vec![vec![1], vec![0], vec![1]]);
    for c in &mut sccs {
        c.sort();
    }
    sccs.sort();
    assert_eq!(sccs, vec![vec![0, 1], vec![2]]);
}

#[test]
fn barycenter_keys_number_each_layer() {
    let adj = vec![vec![3, 4], vec![2], vec![1], vec![0], vec![0]];
    let layers = vec![0, 0, 1, 1, 1];
    assert_eq!(barycenter_order(&adj, &layers), vec![0, 1, 2, 0, 1]);
    let tied = vec![vec![2, 3], vec![2, 3], vec![0, 1], vec![0, 1]];
    assert_eq!(barycenter_order(&tied, &vec![0, 0, 1, 1]), vec![0, 1, 0, 1]);
}

#[test]
fn layers_are_longest_paths_and_leave_no_gap() {
    let dag = vec![vec![1, 2], vec![2], vec![]];
    assert_eq!(longest_path_layers(&dag, &vec![true, false, false]), vec![0, 1, 2]);
    let mut layers = vec![0, 4, 9, 4];
    compact_layers(&mut layers);
    assert_eq!(layers, vec![0, 1, 2, 1]);
    assert_eq!(rank_by_layer(&layers), vec![0, 0, 0, 1]);
    assert_eq!(identity_order(3), vec![0, 1, 2]);
}

// ---- Signal flow ---------------------------------------------------------------------

fn flow_of(src: &str) -> (CheckedNetlist, SignalFlow) {
    let checked = circuit(src);
    let classes = classify_nets(&checked);
    let f = signal_flow(&checked, &classes);
    (checked, f)
}

fn has_edge(c: &CheckedNetlist, f: &SignalFlow, from: &str, to: &str) -> bool {
    f.edges.iter().any(|e| e.from == net(c, from) && e.to == net(c, to))
}

fn before(c: &CheckedNetlist, f: &SignalFlow, a: &str, b: &str) -> bool {
    let pa = f.net_order.iter().position(|n| *n == net(c, a));
    let pb = f.net_order.iter().position(|n| *n == net(c, b));
    matches!((pa, pb), (Some(pa), Some(pb)) if pa < pb)
}

#[test]
fn rc_lowpass_simple_chain() {
    let (c, f) = flow_of("test\nV1 in 0 AC 1\nR1 in out 1k\nC1 out 0 1u\n.end\n");
    assert!(has_edge(&c, &f, "in", "out"), "R1 should lead from in to out: {:?}", f.edges);
    assert!(before(&c, &f, "in", "out"), "flow order must be in before out");
    assert!(f.feedback_pairs().is_empty(), "no feedback expected");
}

#[test]
fn common_emitter_flows_forward_no_feedback() {
    let src = "test\nVCC vcc 0 DC 12 ;@ power=+12V\n\
               R1 vcc b 47k\nR2 b 0 10k\nRC vcc c 3k3\nRE e 0 1k\nCE e 0 100u\n\
               CIN in b 1u\nCOUT c out 1u\nQ1 c b e QGENERIC\n\
               .model QGENERIC NPN (BF=200 IS=1e-15)\n.end\n";
    let (c, f) = flow_of(src);
    assert!(has_edge(&c, &f, "b", "c"), "base to collector missing: {:?}", f.edges);
    assert!(has_edge(&c, &f, "c", "e"), "collector to emitter missing: {:?}", f.edges);
    assert!(has_edge(&c, &f, "in", "b"), "CIN should lead from in to b: {:?}", f.edges);
    assert!(has_edge(&c, &f, "c", "out"), "COUT should lead from c to out: {:?}", f.edges);
    assert!(f.feedback_pairs().is_empty(), "no feedback: {:?}", f.feedback_pairs());
    assert!(before(&c, &f, "in", "b"));
    assert!(before(&c, &f, "b", "c"));
    assert!(before(&c, &f, "c", "out"));
}

#[test]
fn inverting_opamp_feedback_is_marked_not_reversed() {
    let src = "test\nVin in 0 AC 1\nRIN in inv 1k\nRF inv out 10k\nE1 out 0 inv 0 100000\n.end\n";
    let (c, f) = flow_of(src);
    assert!(has_edge(&c, &f, "inv", "out"), "E1 should drive out: {:?}", f.edges);
    assert!(has_edge(&c, &f, "out", "inv"), "RF should lead from out to inv: {:?}", f.edges);
    let fb = f.feedback_pairs();
    assert_eq!(fb.len(), 1, "exactly one feedback arc expected, got {fb:?}");
    let (inv, out) = (net(&c, "inv"), net(&c, "out"));
    let marked = fb[0];
    assert!(
        marked == (inv, out) || marked == (out, inv),
        "feedback arc must be one leg of the loop, got {marked:?}"
    );
    assert!(
        f.edges.iter().any(|e| e.from == marked.0 && e.to == marked.1),
        "marked feedback edge must remain"
    );
    assert!(!f.feedback_elements().is_empty());
}

#[test]
fn multivibrator_cycle_is_marked() {
    let src = "test\nVCC vcc 0 12 ;@ power=vcc\n\
               Q1 c1 b1 0 QGENERIC\nQ2 c2 b2 0 QGENERIC\n\
               R1 vcc c1 1k\nR2 vcc c2 1k\nR3 vcc b1 10k\nR4 vcc b2 10k\n\
               C1 c1 b2 1n\nC2 c2 b1 1n\n\
               .model QGENERIC NPN (BF=200 IS=1e-15)\n.end\n";
    let (c, f) = flow_of(src);
    assert!(!f.feedback_pairs().is_empty(), "cross-coupled cycle must yield a feedback arc");
    assert_eq!(f.net_order.len(), f.signal_nets.len());
    for name in ["c1", "c2", "b1", "b2"] {
        assert!(f.signal_nets.contains(&net(&c, name)), "{name} should be a signal net");
    }
    for e in f.edges.iter().filter(|e| !e.feedback) {
        let pa = f.net_order.iter().position(|n| *n == e.from).unwrap();
        let pb = f.net_order.iter().position(|n| *n == e.to).unwrap();
        assert!(pa < pb, "a forward edge must follow the order");
    }
}

// ---- Allowed poses ---------------------------------------------------------------------

const OPAMP_SRC: &str = "test\n\
    *@symbol Amplifier_Operational:OPAMP for=X1 pinmap=1:3,2:2,3:1,4:8,5:4\n\
    VCC vcc 0 DC 15 ;@ power=+15V\n\
    VEE vee 0 DC -15 ;@ power=-15V\n\
    .subckt OPAMP inp inn out vcc vee\n\
    E1 out 0 inp inn 1e5\n\
    .ends\n\
    RIN in inv 1k\n\
    RF inv out 10k\n\
    X1 0 inv out vcc vee OPAMP\n\
    .end\n";

fn allowed_for(src: &str, placer: Placer, refdes: &str) -> Vec<Orientation> {
    let checked = circuit(src);
    let i = at(&checked, refdes);
    allowed_orientations(&checked, placer).swap_remove(i)
}

#[test]
fn signal_only_element_allows_all_eight() {
    let src = "test\nV1 in 0 AC 1\nR1 in out 1k\n.end\n";
    assert_eq!(allowed_for(src, champion(), "R1").len(), 8);
}

#[test]
fn two_pin_rail_consumer_is_orientation_filtered() {
    let src = "test\nV1 vcc 0 12 ;@ power=vcc\nR1 vcc out 1k\n.end\n";
    let checked = circuit(src);
    let prefs = vertical_prefs(&checked);
    let i = at(&checked, "R1");
    let allowed = allowed_orientations(&checked, champion());
    assert!(
        allowed[i].len() < 8 && !allowed[i].is_empty(),
        "a 2-pin rail consumer must be filtered to a non-empty subset, got {}",
        allowed[i].len()
    );
    for &o in &allowed[i] {
        assert!(satisfies_v14(&checked.elements[i], &prefs, o), "{o:?} does not face its rail");
    }
}

#[test]
fn two_pin_signal_only_element_keeps_full_set() {
    let src = "test\nV1 in 0 AC 1\nR1 in out 1k\nC1 out mid 1u\n.end\n";
    assert_eq!(allowed_for(src, champion(), "C1").len(), 8);
}

#[test]
fn two_pin_power_source_keeps_full_set() {
    let src = "test\nV1 vcc 0 12 ;@ power=vcc\nR1 vcc out 1k\n.end\n";
    assert_eq!(allowed_for(src, champion(), "V1").len(), 8);
}

#[test]
fn opamp_identity_is_v14_feasible() {
    let allowed = allowed_for(OPAMP_SRC, champion(), "X1");
    assert!(allowed.contains(&Orientation::identity()));
    assert!(
        allowed.iter().all(|o| matches!(o.rotation, Rotation::R0 | Rotation::R180)),
        "allowed opamp poses had a quarter turn: {allowed:?}"
    );
    assert!(allowed.iter().all(|o| o.rotation != Rotation::R180));
}

#[test]
fn the_default_filter_still_admits_a_mirrored_opamp() {
    let allowed = allowed_for(OPAMP_SRC, flow_seed_v2(), "X1");
    assert!(allowed.iter().any(|o| o.mirror_y), "a mirrored opamp is admitted: {allowed:?}");
}

#[test]
fn signal_direction_excludes_every_mirrored_opamp_pose() {
    let allowed = allowed_for(OPAMP_SRC, signal_direction(), "X1");
    assert_eq!(allowed, vec![Orientation::identity()]);
    assert!(allowed.iter().all(|o| !o.mirror_y));
}

#[test]
fn the_repair_set_is_v14_and_matches_allowed_off_the_v17_filter() {
    let checked = circuit(OPAMP_SRC);
    let i = at(&checked, "X1");
    for placer in [flow_seed_v2(), flow_seed(), champion(), terminal_series_divider()] {
        let (allowed, repair) = allowed_and_repair_orientations(&checked, placer);
        assert_eq!(allowed, repair, "the sets must be equal when the filter is off");
        assert!(allowed[i].len() < 8, "{:?}", allowed[i]);
    }
    let (allowed, repair) = allowed_and_repair_orientations(&checked, signal_direction());
    assert_eq!(allowed[i], vec![Orientation::identity()]);
    assert!(repair[i].len() > allowed[i].len(), "the repair set must be wider: {:?}", repair[i]);
    assert!(repair[i].iter().any(|o| o.mirror_y), "{:?}", repair[i]);
    assert!(repair[i].iter().all(|o| o.rotation == Rotation::R0), "{:?}", repair[i]);
}

#[test]
fn signal_direction_is_inert_for_a_symbol_with_no_output_pin() {
    let src = "test\nVCC vcc 0 DC 12 ;@ power=vcc\nRC vcc c 4k7\nRB vcc b 100k\nRE e 0 1k\n\
        Q1 c b e QGENERIC\n.end\n";
    let base = allowed_for(src, champion(), "Q1");
    let narrowed = allowed_for(src, signal_direction(), "Q1");
    assert_eq!(base, narrowed);
    assert!(base.iter().any(|o| o.mirror_y), "{base:?}");
}

#[test]
fn angles_read_as_facings() {
    assert_eq!(screen_facing(270), ScreenFacing::Up);
    assert_eq!(screen_facing(450), ScreenFacing::Down);
    assert_eq!(screen_facing(180), ScreenFacing::Horizontal);
}

// ---- Dividers and other idioms -----------------------------------------------------------

fn sorted_pairs(c: &CheckedNetlist, pairs: &[DividerPair]) -> Vec<(String, String)> {
    let mut out: Vec<(String, String)> = ordered_pairs(c, pairs)
        .into_iter()
        .map(|(a, b)| if a <= b { (a, b) } else { (b, a) })
        .collect();
    out.sort();
    out
}

fn ordered_pairs(c: &CheckedNetlist, pairs: &[DividerPair]) -> Vec<(String, String)> {
    pairs
        .iter()
        .map(|p| (c.elements[p.upper].refdes.clone(), c.elements[p.lower].refdes.clone()))
        .collect()
}

fn pair(a: &str, b: &str) -> (String, String) {
    (a.to_string(), b.to_string())
}

#[test]
fn detects_simple_divider() {
    let c = circuit("divider\nV1 in 0 DC 5 ;@ power=+5V\nR1 in mid 10k\nR2 mid 0 10k\n.end\n");
    assert_eq!(sorted_pairs(&c, &detect_dividers(&c, champion())), vec![pair("R1", "R2")]);
}

#[test]
fn loaded_tap_is_not_a_divider() {
    let c = circuit(
        "loaded\nV1 in 0 DC 5 ;@ power=+5V\nR1 in mid 10k\nR2 mid 0 10k\nC1 mid 0 100n\n.end\n",
    );
    assert!(detect_dividers(&c, champion()).is_empty());
}

#[test]
fn parallel_resistors_not_a_divider() {
    let c = circuit("parallel\nR1 a b 1k\nR2 a b 1k\n.end\n");
    assert!(detect_dividers(&c, champion()).is_empty());
}

#[test]
fn three_resistor_chain_one_pair() {
    let c = circuit("three\nR1 in a 1k\nR2 a b 1k\nR3 b 0 1k\n.end\n");
    let pairs = detect_dividers(&c, champion());
    assert_eq!(pairs.len(), 1, "expected exactly one pair, got {pairs:?}");
    assert_eq!(sorted_pairs(&c, &pairs), vec![pair("R1", "R2")]);
}

const INVERTING: &str = "opamp inverting\n.subckt OPAMP inp inn out vcc vee\n\
    E1 out 0 inp inn 1e5\n.ends\n\
    VCC vcc 0 DC 15 ;@ power=+15V\nVEE vee 0 DC -15 ;@ power=-15V\n\
    RIN in inv 1k\nRF inv out 10k\nX1 0 inv out vcc vee OPAMP\n.end\n";

#[test]
fn tap_into_sheet_instance_is_not_a_divider() {
    let c = circuit(INVERTING);
    assert!(detect_dividers(&c, champion()).is_empty());
}

#[test]
fn rc_series_not_a_divider() {
    let c = circuit("rc\nR1 in mid 1k\nC1 mid 0 100n\n.end\n");
    assert!(detect_dividers(&c, champion()).is_empty());
}

const CHAIN: &str = "four\nR1 src ni 1k\nR2 ni no 1k\nR3 no nb 1k\nR4 nb nz 1k\n.end\n";

const LOADED: &str = "bias\nVCC vcc 0 DC 12 ;@ power=+12V\nRB1 vcc b 100k\nRB2 b 0 22k\n\
    Q1 c b 0 QMOD\n.model QMOD NPN\n.end\n";

#[test]
fn rail_gate_declines_a_plain_series_chain() {
    let c = circuit(CHAIN);
    assert_eq!(detect_dividers(&c, champion()).len(), 2);
    assert!(detect_dividers(&c, divider_rails()).is_empty());
}

#[test]
fn rail_gate_accepts_a_loaded_bias_divider() {
    let c = circuit(LOADED);
    assert!(detect_dividers(&c, champion()).is_empty());
    assert_eq!(ordered_pairs(&c, &detect_dividers(&c, divider_rails())), vec![pair("RB1", "RB2")]);
}

#[test]
fn rail_gate_orders_the_stack_by_polarity_not_index() {
    let c = circuit(
        "written upside down\nVCC vcc 0 DC 12 ;@ power=+12V\nRLO b 0 22k\nRHI vcc b 100k\n.end\n",
    );
    assert_eq!(ordered_pairs(&c, &detect_dividers(&c, divider_rails())), vec![pair("RHI", "RLO")]);
}

#[test]
fn rail_gate_requires_opposite_rails() {
    let c = circuit(
        "grounds\nVCC vcc 0 DC 12 ;@ power=+12V\nRA 0 mid 1k\nRB mid gnd 1k\nRL vcc 0 1k\n.end\n",
    );
    assert!(detect_dividers(&c, divider_rails()).is_empty());
}

#[test]
fn rail_gate_still_declines_the_opamp_feedback_pair() {
    let c = circuit(INVERTING);
    assert!(detect_dividers(&c, divider_rails()).is_empty());
}

#[test]
fn rail_gate_declines_a_three_resistor_ladder() {
    let c = circuit(
        "ladder\nVCC vcc 0 DC 12 ;@ power=+12V\nRB1 vcc b1 10k\nRB2 b1 b2 10k\nRB3 b2 0 10k\n.end\n",
    );
    assert!(detect_dividers(&c, divider_rails()).is_empty());
}

#[test]
fn the_strict_arm_narrows_only() {
    let c = circuit(LOADED);
    assert!(detect_dividers(&c, divider_rails_strict()).is_empty());
    assert_eq!(detect_dividers(&c, divider_rails()).len(), 1);
    let c = circuit(
        "unloaded\nVCC vcc 0 DC 12 ;@ power=+12V\nRA vcc mid 10k\nRB mid 0 10k\n.end\n",
    );
    assert_eq!(detect_dividers(&c, divider_rails_strict()).len(), 1);
    assert_eq!(detect_dividers(&c, divider_rails()).len(), 1);
    let c = circuit(CHAIN);
    assert!(detect_dividers(&c, divider_rails_strict()).is_empty());
    assert!(detect_dividers(&c, divider_rails()).is_empty());
}

#[test]
fn rail_gate_accepts_a_split_supply_divider() {
    let c = circuit(
        "split\nVCC vcc 0 DC 15 ;@ power=+15V\nVEE vee 0 DC -15 ;@ power=-15V\n\
         RA vcc mid 10k\nRB mid vee 10k\n.end\n",
    );
    assert_eq!(ordered_pairs(&c, &detect_dividers(&c, divider_rails())), vec![pair("RA", "RB")]);
}

fn parallel_names(c: &CheckedNetlist) -> Vec<(String, String)> {
    let mut out: Vec<(String, String)> = detect_parallel_pairs(c)
        .iter()
        .map(|p| {
            let (a, b) = (c.elements[p.a].refdes.clone(), c.elements[p.b].refdes.clone());
            if a <= b { (a, b) } else { (b, a) }
        })
        .collect();
    out.sort();
    out
}

#[test]
fn detects_parallel_r_and_c() {
    let c = circuit("parallel\nRE e 0 1k\nCE e 0 100u\n.end\n");
    assert_eq!(parallel_names(&c), vec![pair("CE", "RE")]);
}

#[test]
fn detects_parallel_r_and_r() {
    let c = circuit("parallel\nR1 a b 1k\nR2 a b 2k\n.end\n");
    assert_eq!(parallel_names(&c), vec![pair("R1", "R2")]);
}

#[test]
fn series_pair_is_not_parallel() {
    let c = circuit("series\nR1 in mid 1k\nC1 mid 0 100n\n.end\n");
    assert!(detect_parallel_pairs(&c).is_empty());
}

fn collector_names(c: &CheckedNetlist) -> Vec<(String, String)> {
    let mut out: Vec<(String, String)> = detect_collector_loads(c)
        .iter()
        .map(|h| (c.elements[h.resistor].refdes.clone(), c.elements[h.transistor].refdes.clone()))
        .collect();
    out.sort();
    out
}

#[test]
fn detects_collector_load_only() {
    let c = circuit(
        "load\nQ1 c b e QMOD\nRC vcc c 3k3\nRB vcc b 47k\nRE e 0 1k\n.model QMOD NPN\n.end\n",
    );
    assert_eq!(collector_names(&c), vec![pair("RC", "Q1")]);
}

#[test]
fn emitter_resistor_is_not_a_collector_load() {
    let c = circuit("emitter\nQ1 c b e QMOD\nRE e 0 1k\n.model QMOD NPN\n.end\n");
    assert!(collector_names(&c).is_empty());
}

fn shared_names(c: &CheckedNetlist) -> Vec<(String, Vec<String>)> {
    let mut out: Vec<(String, Vec<String>)> = detect_shared_node_centers(c)
        .iter()
        .map(|h| {
            let mut ts: Vec<String> =
                h.transistors.iter().map(|&i| c.elements[i].refdes.clone()).collect();
            ts.sort();
            (c.elements[h.element].refdes.clone(), ts)
        })
        .collect();
    out.sort();
    out
}

#[test]
fn detects_shared_tail_node() {
    let c = circuit(
        "tail\nQ1 c1 in1 tail QMOD\nQ2 c2 in2 tail QMOD\nRTAIL tail vee 2k2\n.model QMOD NPN\n.end\n",
    );
    assert_eq!(
        shared_names(&c),
        vec![("RTAIL".to_string(), vec!["Q1".to_string(), "Q2".to_string()])]
    );
}

#[test]
fn single_transistor_node_is_not_shared() {
    let c = circuit(
        "single\nQ1 c b e QMOD\nRE e 0 1k\nCE e 0 100u\n.model QMOD NPN\n.end\n",
    );
    assert!(shared_names(&c).is_empty());
}

#[test]
fn feedback_needs_a_loop_and_is_at_most_half() {
    let (_, open) = flow_of("open\nV1 in 0 AC 1\nR1 in b 1k\nQ1 c b 0 QMOD\nR2 c d 1k\n.end\n");
    assert!(!open.edges.is_empty());
    assert!(open.edges.iter().all(|e| !e.feedback));
    let (_, ring) = flow_of("ring\nQ1 a b 0 QMOD\nQ2 b c 0 QMOD\nQ3 c a 0 QMOD\n.end\n");
    let back = ring.edges.iter().filter(|e| e.feedback).count();
    assert_eq!(ring.edges.len(), 3);
    assert_eq!(back, 1);
}

// ---- Depth ---------------------------------------------------------------------------------

#[test]
fn drawn_source_roots_the_depth_map_only_under_stage_one() {
    let src = "roots\nVIN src 0 DC 0 AC 1\nRS src n1 1k\nC1 n1 0 1n\nR2 n1 n2 1k\nC2 n2 0 1n\n.end\n";
    let c = circuit(src);
    let classes = classify_nets(&c);
    assert!(signal_net_depth(&c, &classes, flow_seed()).iter().all(|d| d.is_none()));
    let depth = signal_net_depth(&c, &classes, flow_seed_v2());
    assert_eq!(depth[net(&c, "src")], Some(0), "{depth:?}");
    assert_eq!(depth[net(&c, "n1")], Some(1), "{depth:?}");
    assert_eq!(depth[net(&c, "n2")], Some(2), "{depth:?}");
    assert_eq!(depth[net(&c, "0")], None, "the search must never cross a rail");
}

#[test]
fn a_declared_input_port_outranks_the_drawn_source_tier() {
    let src = "port\n*@port n1=input\nVIN src 0 DC 0 AC 1\nRS src n1 1k\nC1 n1 0 1n\n\
        R2 n1 n2 1k\nC2 n2 0 1n\n.end\n";
    let c = circuit(src);
    let classes = classify_nets(&c);
    let base = signal_net_depth(&c, &classes, flow_seed());
    let stage1 = signal_net_depth(&c, &classes, flow_seed_v2());
    assert_eq!(base, stage1);
    assert_eq!(base[net(&c, "n1")], Some(0), "{base:?}");
    assert_eq!(base[net(&c, "src")], Some(1), "{base:?}");
}

#[test]
fn depths_count_from_given_roots() {
    let c = circuit("roots\nRS src n1 1k\nC1 n1 0 1n\nR2 n1 n2 1k\n.end\n");
    let classes = classify_nets(&c);
    let depth = signal_net_depth_from(&c, &classes, &vec![net(&c, "n2")]);
    assert_eq!(depth[net(&c, "n2")], Some(0));
    assert_eq!(depth[net(&c, "n1")], Some(1));
    assert_eq!(depth[net(&c, "src")], Some(2));
    assert_eq!(depth[net(&c, "0")], None);
    assert!(signal_net_depth_from(&c, &classes, &vec![]).iter().all(|d| d.is_none()));
}

// ---- Series columns ------------------------------------------------------------------------

fn column_names(c: &CheckedNetlist) -> Vec<Vec<String>> {
    detect_dc_columns(c)
        .iter()
        .map(|col| col.members.iter().map(|&i| c.elements[i].refdes.clone()).collect())
        .collect()
}

const CASCODE: &str = "test\nVCC vcc 0 DC 12 ;@ power=+12V\n\
    RB1 vcc b2 47k\nRB2 b2 b1 22k\nRB3 b1 0 10k\nCB2 b2 0 10u\n\
    RC vcc c2 4k7\nQ2 c2 b2 c1 QGENERIC\nQ1 c1 b1 e1 QGENERIC\n\
    RE e1 0 470\nCE e1 0 100u\n.model QGENERIC NPN\n.end\n";

#[test]
fn cascode_yields_the_bias_ladder_and_the_device_stack() {
    let cols = column_names(&circuit(CASCODE));
    assert!(cols.contains(&strings(&["RC", "Q2", "Q1", "RE"])), "{cols:?}");
    assert!(cols.contains(&strings(&["RB1", "RB2", "RB3"])), "{cols:?}");
    assert_eq!(cols.len(), 2, "{cols:?}");
}

#[test]
fn a_differential_pair_is_not_a_column() {
    let src = "test\nVCC vcc 0 DC 12 ;@ power=+12V\nVEE vee 0 DC -12 ;@ power=-12V\n\
        RC1 vcc c1 4k7\nRC2 vcc c2 4k7\nRTAIL tail vee 2k2\n\
        Q1 c1 in1 tail QGENERIC\nQ2 c2 in2 tail QGENERIC\n.model QGENERIC NPN\n.end\n";
    let cols = column_names(&circuit(src));
    for c in &cols {
        assert!(
            !(c.contains(&"Q1".to_string()) && c.contains(&"Q2".to_string())),
            "the pair was columned: {cols:?}"
        );
    }
}

#[test]
fn a_resistor_string_is_one_column_in_supply_to_ground_order() {
    let src = "test\nVDD vdd 0 DC 12 ;@ power=+12V\n\
        R1 vdd t1 10k\nR2 t1 t2 10k\nR3 t2 t3 10k\nR4 t3 t4 10k\n\
        R5 t4 t5 10k\nR6 t5 0 10k\nCB2 t2 0 100n\nCB3 t3 0 100n\n.end\n";
    assert_eq!(
        column_names(&circuit(src)),
        vec![strings(&["R1", "R2", "R3", "R4", "R5", "R6"])]
    );
}

#[test]
fn a_coupling_capacitor_breaks_the_column() {
    let c = circuit("test\nVCC vcc 0 DC 12 ;@ power=+12V\nR1 in out 1k\nC1 out 0 1u\n.end\n");
    assert!(dc_series_pairs(&c).is_empty());
    assert!(column_names(&c).is_empty());
}

#[test]
fn a_floating_series_pair_declines() {
    assert!(column_names(&circuit("test\nR1 na nb 1k\nR2 nb nc 1k\n.end\n")).is_empty());
}

#[test]
fn columns_are_disjoint_and_deterministic() {
    let c = circuit(CASCODE);
    assert_eq!(column_names(&c), column_names(&c));
    let mut seen = Vec::new();
    for col in detect_dc_columns(&c) {
        assert_eq!(col.shared.len() + 1, col.members.len());
        for m in col.members {
            assert!(!seen.contains(&m), "member {m} in two columns");
            seen.push(m);
        }
    }
}

const STACK: &str = "test\nVCC vcc 0 DC 12 ;@ power=+12V\n\
    RB vcc b 100k\nRC vcc c 4k7\nQ1 c b e QGENERIC\n\
    RE e 0 470\n.model QGENERIC NPN\n.end\n";

#[test]
fn a_column_is_anchored_on_its_shared_pins_not_its_origins() {
    let c = circuit(STACK);
    let cols = detect_dc_columns(&c);
    assert_eq!(cols.len(), 1, "{cols:?}");
    assert_eq!(column_names(&c), vec![strings(&["RC", "Q1", "RE"])]);
    let poses = vec![Orientation::identity(); 3];
    assert_eq!(column_pin_offsets(&c, &cols[0], &poses), Some(vec![0, 2, 0]));
}

#[test]
fn a_member_whose_two_shared_pins_disagree_declines_the_column() {
    let c = circuit(STACK);
    let cols = detect_dc_columns(&c);
    let sideways = Orientation { rotation: Rotation::R90, mirror_y: false };
    let poses = vec![Orientation::identity(), sideways, Orientation::identity()];
    assert_eq!(column_pin_offsets(&c, &cols[0], &poses), None);
}

#[test]
fn an_end_member_with_one_shared_pin_still_anchors() {
    let c = circuit(STACK);
    let cols = detect_dc_columns(&c);
    let sideways = Orientation { rotation: Rotation::R90, mirror_y: false };
    let poses = vec![sideways, Orientation::identity(), Orientation::identity()];
    let offs = column_pin_offsets(&c, &cols[0], &poses).expect("an end member cannot disagree");
    assert_eq!(offs.len(), 3);
    assert_ne!(offs[0], 0, "a sideways resistor's pin is off its origin's x");
    assert_eq!(&offs[1..], &[2, 0]);
}

#[test]
fn one_pinned_member_declines_the_whole_carried_group() {
    let src = "test\nVCC vcc 0 DC 12 ;@ power=+12V\n\
        RB vcc b 100k\nRC vcc c 4k7\nQ1 c b e QGENERIC\n\
        RE e 0 470\nCE e 0 100u\nCE2 e 0 10u\n.model QGENERIC NPN\n.end\n";
    let c = circuit(src);
    let cols = detect_dc_columns(&c);
    let e = net(&c, "e");
    let col = cols.iter().find(|col| col.shared.contains(&e)).expect("the stack");
    let prefs = vertical_prefs(&c);
    let allowed = allowed_orientations(&c, champion());
    let stubs = detect_rail_stubs(&c);
    let mut columned = vec![false; c.elements.len()];
    for x in &cols {
        for &m in &x.members {
            columned[m] = true;
        }
    }
    let poses = vec![Orientation::identity(); col.members.len()];
    let free = vec![false; c.elements.len()];
    let carried = plan_carried_stubs(
        &free, &c, &allowed, &prefs, col, &poses, &stubs, &columned, dc_column_node_stubs(),
    );
    assert_eq!(carried.len(), 2, "both bypass capacitors on `e` are carried");
    let mut pinned = free.clone();
    pinned[at(&c, "CE2")] = true;
    let carried = plan_carried_stubs(
        &pinned, &c, &allowed, &prefs, col, &poses, &stubs, &columned, dc_column_node_stubs(),
    );
    assert!(carried.is_empty(), "one pinned member must decline the whole group");
}
