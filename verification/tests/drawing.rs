//! Placed circuits: positions, poses, texts and costs.

use spice_layout::archetype::{apply_seeds, detect_and_seed};
use spice_layout::bands::{Band, BandAssignment};
use spice_layout::compact::compact;
use spice_layout::cost::{breakdown, constraint_violation, place_residual};
use spice_layout::cost_rows::{
    band_inversion, band_misalignment, layer_order, soft_y_residual,
};
use spice_layout::crossing::{net_mst_edges, Segment};
use spice_layout::dc_layout::apply_dc_columns;
use spice_layout::extent::{
    ceil_cells, up_to_cells, world_extent, world_extent_with_glyphs, MIN_CLEARANCE,
    PROPERTY_HALF_HEIGHT, VALUE_OFFSET,
};
use spice_layout::footprint::{
    body_and_pins, element_footprint, glyph, property_text, SignedFootprint, TextBox,
};
use spice_layout::glyph_geom::{canonical_axis, glyph_reach, GlyphAxis};
use spice_layout::idioms::{apply, detect_dividers};
use spice_layout::label_geom::{
    label_anchors, label_plans, label_reach, outward_label_rot, plans_for, LabelKind,
};
use spice_layout::legalize::{
    displacement_ring, immovable_overlap_count, legalize, overlap_count, Footprint,
};
use spice_layout::limits::{try_place, PlaceError};
use spice_layout::net_class::{vertical_prefs, NetClass, VertPref};
use spice_layout::netlist::{
    resolve_netlist, AlignSpec, Axis, CheckedNetlist, ElementDecl, ElementKind, ElementRole,
    NetlistDecl, PlaceSpec, PortDecl, PortDir, Relation,
};
use spice_layout::orient::allowed_orientations;
use spice_layout::pin_clash::foreign_pin_coincidences;
use spice_layout::pins::{origin_placing_pin_at, placed_pin_xy, world_pin_xy};
use spice_layout::place::{
    apply_position_idioms, keep_or_revert, legalize_if_needed, place, place_with, place_with_hint,
    refinement_meta, saved_spots, seed_pins_outside_allowed, slide_stubs, start_layout,
    LayoutOptions, SHEET_LIMIT,
};
use spice_layout::placement::{GridPoint, Hint, HintPin, PlacedElement, Placement, GRID_STEP};
use spice_layout::placer::Placer;
use spice_layout::pose_pick::pick_orientations;
use spice_layout::rail_stub::{apply_rail_stub_columns, detect_rail_stubs};
use spice_layout::relation::solve_place;
use spice_layout::series::{apply_series_horizontal, rail_facing_orientation};
use spice_layout::shared_center::{
    apply_shared_centers, detect_shared_node_centers, SharedNodeCenter,
};
use spice_layout::symbol::{Orientation, Pin, PinElectrical, Pose, Rect, Rotation, Symbol};
use spice_layout::wires::net_bbox_crossings_for;
use spice_layout::words::list_has_word;

// ---- A small circuit reader for the tests ----------------------------------

/// Turns a point about the origin as pose number `i` does.
#[allow(dead_code)]
fn turned(i: usize, x: i32, y: i32) -> (i32, i32) {
    let (mut a, mut b) = if i >= 4 { (-x, y) } else { (x, y) };
    for _ in 0..(i % 4) {
        let (c, d) = (-b, a);
        a = c;
        b = d;
    }
    (a, b)
}

type PinRow = (&'static str, i32, i32, i32, i32, PinElectrical);

/// A symbol from its upright pins (number, position, outward direction) and
/// its upright body box.
#[allow(dead_code)]
fn symbol(pins: &[PinRow], body: (i32, i32, i32, i32)) -> Symbol {
    let mut poses = Vec::new();
    for i in 0..8 {
        let mut drawn = Vec::new();
        for &(number, x, y, dx, dy, electrical) in pins {
            let (px, py) = turned(i, x, y);
            let angle = match turned(i, dx, dy) {
                (0, 1) => 270,
                (0, -1) => 90,
                (1, 0) => 0,
                _ => 180,
            };
            drawn.push(Pin { number: number.to_string(), x: px, y: py, angle, electrical });
        }
        let (x0, y0) = turned(i, body.0, body.1);
        let (x1, y1) = turned(i, body.2, body.3);
        let rect = Rect { x0: x0.min(x1), y0: y0.min(y1), x1: x0.max(x1), y1: y0.max(y1) };
        poses.push(Pose { pins: drawn, body: Some(rect) });
    }
    Symbol { poses }
}

#[allow(dead_code)]
fn resistor() -> Symbol {
    symbol(
        &[
            ("1", 0, 3810, 0, 1, PinElectrical::Passive),
            ("2", 0, -3810, 0, -1, PinElectrical::Passive),
        ],
        (-1016, -2540, 1016, 2540),
    )
}

#[allow(dead_code)]
fn capacitor() -> Symbol {
    symbol(
        &[
            ("1", 0, 3810, 0, 1, PinElectrical::Passive),
            ("2", 0, -3810, 0, -1, PinElectrical::Passive),
        ],
        (-2032, -762, 2032, 762),
    )
}

#[allow(dead_code)]
fn source() -> Symbol {
    symbol(
        &[
            ("1", 0, 5080, 0, 1, PinElectrical::Passive),
            ("2", 0, -5080, 0, -1, PinElectrical::Passive),
        ],
        (-2540, -2540, 2540, 2540),
    )
}

#[allow(dead_code)]
fn npn() -> Symbol {
    symbol(
        &[
            ("1", -5080, 0, -1, 0, PinElectrical::Input),
            ("2", 2540, 5080, 0, 1, PinElectrical::Passive),
            ("3", 2540, -5080, 0, -1, PinElectrical::Passive),
        ],
        (-1524, -2794, 4064, 2794),
    )
}

#[allow(dead_code)]
fn controlled_source() -> Symbol {
    symbol(
        &[
            ("1", 2540, 5080, 0, 1, PinElectrical::Passive),
            ("2", 2540, -5080, 0, -1, PinElectrical::Passive),
            ("3", -5080, 2540, -1, 0, PinElectrical::Input),
            ("4", -5080, -2540, -1, 0, PinElectrical::Input),
        ],
        (-2540, -3810, 5080, 3810),
    )
}

#[allow(dead_code)]
fn opamp() -> Symbol {
    symbol(
        &[
            ("1", 7620, 0, 1, 0, PinElectrical::Output),
            ("2", -7620, -2540, -1, 0, PinElectrical::Input),
            ("3", -7620, 2540, -1, 0, PinElectrical::Input),
            ("4", -2540, -7620, 0, -1, PinElectrical::PowerIn),
            ("8", -2540, 7620, 0, 1, PinElectrical::PowerIn),
        ],
        (-5080, -5080, 5080, 5080),
    )
}

#[allow(dead_code)]
fn strings(list: &[&str]) -> Vec<String> {
    list.iter().map(|s| s.to_string()).collect()
}

/// Reads a circuit: a title line, then one element per line. `;@ power=..`
/// marks a supply, `;@ ignore` drops the element, `;@ place=right-of R1` places
/// it, and `*@symbol Amplifier_Operational:OPAMP for=X1` draws `X1` as an
/// operational amplifier instead of a sheet.
#[allow(dead_code)]
fn circuit(src: &str) -> CheckedNetlist {
    let mut decl = NetlistDecl {
        elements: Vec::new(),
        align: Vec::new(),
        place: Vec::new(),
        ports: Vec::new(),
        sheet_instances: Vec::new(),
        subckts: Vec::new(),
    };
    let mut drawn_blocks: Vec<String> = Vec::new();
    let mut inside = false;
    for line in src.lines().skip(1) {
        let line = line.trim();
        if let Some(rest) = line.strip_prefix("*@symbol Amplifier_Operational:OPAMP for=") {
            drawn_blocks.push(rest.split_whitespace().next().unwrap().to_string());
            continue;
        }
        if let Some(rest) = line.strip_prefix("*@port ") {
            let (net, dir) = rest.split_once('=').unwrap();
            let dir = match dir {
                "input" => PortDir::Input,
                "output" => PortDir::Output,
                _ => PortDir::Bidir,
            };
            decl.ports.push(PortDecl { net: net.to_string(), dir });
            continue;
        }
        if let Some(rest) = line.strip_prefix("*@align ") {
            let mut words = rest.split_whitespace();
            let axis = match words.next().unwrap() {
                "horizontal" => Axis::Horizontal,
                _ => Axis::Vertical,
            };
            decl.align.push(AlignSpec { axis, refdes: words.map(|w| w.to_string()).collect() });
            continue;
        }
        if let Some(rest) = line.strip_prefix(".subckt ") {
            decl.subckts.push(rest.split_whitespace().skip(1).map(|w| w.to_string()).collect());
            inside = true;
            continue;
        }
        if line.starts_with(".ends") {
            inside = false;
            continue;
        }
        if inside || line.is_empty() || line.starts_with('.') || line.starts_with('*') {
            continue;
        }
        let (text, tag) = match line.split_once(";@") {
            Some((a, b)) => (a, b.trim()),
            None => (line, ""),
        };
        if tag == "ignore" {
            continue;
        }
        let words: Vec<&str> = text.split_whitespace().collect();
        let refdes = words[0];
        let (kind, count, pins, shape): (ElementKind, usize, Vec<&str>, Symbol) =
            match refdes.chars().next().unwrap() {
                'R' => (ElementKind::Resistor, 2, vec!["1", "2"], resistor()),
                'C' => (ElementKind::Capacitor, 2, vec!["1", "2"], capacitor()),
                'Q' => (ElementKind::Bjt, 3, vec!["2", "1", "3"], npn()),
                'E' => (ElementKind::Vcvs, 4, vec!["1", "2", "3", "4"], controlled_source()),
                'V' => (ElementKind::VoltageSrc, 2, vec!["1", "2"], source()),
                'X' => (ElementKind::Other, 5, vec!["3", "2", "1", "8", "4"], opamp()),
                _ => panic!("cannot read {line}"),
            };
        if refdes.starts_with('X') && !drawn_blocks.iter().any(|b| b == refdes) {
            let last = words.len() - 1;
            decl.sheet_instances.push(strings(&words[1..last]));
            continue;
        }
        let role = match tag.strip_prefix("power=") {
            Some(rail) => ElementRole::Power(rail.to_string()),
            None => ElementRole::Normal,
        };
        if let Some(rest) = tag.strip_prefix("place=") {
            let (how, anchor) = rest.split_once(' ').unwrap();
            let relation = match how {
                "right-of" => Relation::RightOf,
                "left-of" => Relation::LeftOf,
                "above" => Relation::Above,
                _ => Relation::Below,
            };
            decl.place.push(PlaceSpec {
                refdes: refdes.to_string(),
                anchor: anchor.to_string(),
                relation,
            });
        }
        let value = match kind {
            ElementKind::Resistor | ElementKind::Capacitor => Some(words[3].to_string()),
            _ => None,
        };
        decl.elements.push(ElementDecl {
            refdes: refdes.to_string(),
            lib_id: "Device:Part".to_string(),
            kind,
            role,
            nodes: strings(&words[1..1 + count]),
            pin_mapping: strings(&pins),
            value,
            symbol: shape,
        });
    }
    let checked = resolve_netlist(decl);
    assert!(checked.is_drawable());
    assert!(checked.directives_in_limits());
    checked
}

#[allow(dead_code)]
fn at(checked: &CheckedNetlist, refdes: &str) -> usize {
    checked.element_index(refdes).unwrap_or_else(|| panic!("no element {refdes}"))
}

#[allow(dead_code)]
fn net(checked: &CheckedNetlist, name: &str) -> usize {
    checked.net_id(name).unwrap_or_else(|| panic!("no net {name}"))
}

#[allow(dead_code)]
fn champion() -> Placer {
    Placer::champion()
}

#[allow(dead_code)]
fn flow_seed() -> Placer {
    Placer { flow_seed_layering: true, ..champion() }
}

#[allow(dead_code)]
fn flow_seed_v2() -> Placer {
    Placer { unified_depth_roots: true, ..flow_seed() }
}

#[allow(dead_code)]
fn terminal_series() -> Placer {
    Placer { terminal_net_series: true, ..flow_seed_v2() }
}

#[allow(dead_code)]
fn terminal_series_divider() -> Placer {
    Placer { divider_node_series: true, ..terminal_series() }
}

#[allow(dead_code)]
fn divider_rails() -> Placer {
    Placer { rail_gated_dividers: true, ..champion() }
}

#[allow(dead_code)]
fn divider_rails_strict() -> Placer {
    Placer { divider_tap_must_be_unloaded: true, ..divider_rails() }
}

#[allow(dead_code)]
fn signal_direction() -> Placer {
    Placer { signal_direction_filter: true, ..champion() }
}

#[allow(dead_code)]
fn dc_column_node_stubs() -> Placer {
    Placer {
        dc_series_columns: true,
        dc_column_node_stubs: true,
        rail_gated_dividers: true,
        ..flow_seed_v2()
    }
}

// ---- Helpers -------------------------------------------------------------------

fn no_hint() -> Hint {
    Hint { pins: Vec::new() }
}

fn seed_with(checked: &CheckedNetlist, placer: Placer) -> Placement {
    place_with(checked, &LayoutOptions { placer }).expect("place")
}

fn pin_at(checked: &CheckedNetlist, p: &Placement, refdes: &str, name: &str) -> (i64, i64) {
    placed_pin_xy(p, checked, at(checked, refdes), net(checked, name)).expect("pin on net")
}

fn manual_placement(checked: &CheckedNetlist, origins: &[(i32, i32)]) -> Placement {
    let elements = checked
        .elements
        .iter()
        .zip(origins)
        .map(|(e, &(x, y))| PlacedElement {
            refdes: e.refdes.clone(),
            lib_id: e.lib_id.clone(),
            origin: GridPoint::new(x, y),
            orientation: Orientation::identity(),
            nodes: e.nodes.clone(),
            pin_mapping: e.pin_mapping.clone(),
            value: None,
            is_power_source: matches!(e.role, ElementRole::Power(_)),
            power_rail: match &e.role {
                ElementRole::Power(rail) => Some(rail.clone()),
                ElementRole::Normal => None,
            },
        })
        .collect();
    Placement { elements }
}

fn spots(p: &Placement) -> Vec<(i32, i32, Orientation)> {
    p.elements.iter().map(|e| (e.origin.x, e.origin.y, e.orientation)).collect()
}

/// The overlapping pairs among the elements that are drawn.
fn drawn_overlaps(c: &CheckedNetlist, p: &Placement) -> usize {
    let boxes: Vec<Footprint> = c
        .elements
        .iter()
        .zip(&p.elements)
        .filter(|(_, q)| !q.is_power_source)
        .map(|(e, q)| {
            let x = world_extent(&e.symbol, q.orientation, &None);
            let (ox, oy) = q.origin.to_um();
            Footprint { x0: ox + x.min_x, y0: oy + x.min_y, x1: ox + x.max_x, y1: oy + x.max_y }
        })
        .collect();
    let mut n = 0;
    for i in 0..boxes.len() {
        n += boxes[..i].iter().filter(|b| b.overlaps(boxes[i])).count();
    }
    n
}

fn is_horizontal(o: Orientation) -> bool {
    matches!(o.rotation, Rotation::R90 | Rotation::R270)
}

// ---- Rail facing and series elements -------------------------------------------

#[test]
fn rail_facing_orientation_follows_stub_side() {
    let c = circuit("stubs\nVCC vcc 0 DC 12 ;@ power=+12V\nRUP vcc n 100k\nRDN n 0 10k\n.end\n");
    let n = net(&c, "n");
    let (rup, rdn) = (&c.elements[at(&c, "RUP")], &c.elements[at(&c, "RDN")]);
    let up = rail_facing_orientation(rup, n, VertPref::Up).expect("up orientation");
    let dn = rail_facing_orientation(rdn, n, VertPref::Down).expect("down orientation");
    let flipped = rail_facing_orientation(rup, n, VertPref::Down).expect("down orientation");
    assert_ne!(up, flipped, "`side` must change the chosen pose");
    let facing = |refdes: &str, o: Orientation| {
        let e = &c.elements[at(&c, refdes)];
        let t = e.nodes.iter().position(|x| *x != n).expect("rail terminal");
        let pins = e.symbol.pins_in(o);
        pins.iter().find(|p| p.number == e.pin_mapping[t]).expect("pin present").angle % 360
    };
    assert_eq!(facing("RUP", up), 270, "positive-rail pin must face up");
    assert_eq!(facing("RDN", dn), 90, "ground pin must face down");
}

#[test]
fn up_side_shunt_re_columns_above_the_series_element() {
    let c = circuit(
        "up side\n*@port in=input\nVCC vcc 0 DC 12 ;@ power=+12V\nR1 in mid 10k\n\
         CIN mid out 1u\nRB vcc out 100k\n.end\n",
    );
    let allowed = allowed_orientations(&c, champion());
    let (rb, cin) = (at(&c, "RB"), at(&c, "CIN"));
    let p = place(&c).expect("place");
    assert!(
        p.elements[rb].origin.y < p.elements[cin].origin.y,
        "the supply stub must sit above its node ({} vs {})",
        p.elements[rb].origin.y,
        p.elements[cin].origin.y
    );
    assert!(
        allowed[rb].contains(&p.elements[rb].orientation),
        "RB was placed in a forbidden pose {:?}",
        p.elements[rb].orientation
    );
}

#[test]
fn a_terminal_net_series_element_goes_horizontal_only_under_f1() {
    let c = circuit(
        "terminal net\n*@port in=input\n*@port out=output\nVCC vcc 0 DC 12 ;@ power=+12V\n\
         R1 in mid 10k\nRL vcc mid 47k\nCOUT mid out 1u\n.end\n",
    );
    let cout = at(&c, "COUT");
    let pinned_under =
        |placer: Placer| refinement_meta(&c, &no_hint(), placer).expect("meta").pinned[cout];
    assert!(!pinned_under(flow_seed_v2()), "the default must leave COUT unpinned here");
    assert!(pinned_under(terminal_series()), "the constructed pose must be pinned");
    let p = seed_with(&c, terminal_series());
    let o = p.elements[cout].orientation;
    assert!(is_horizontal(o), "COUT must be drawn horizontal, got {o:?}");
    let (up_x, _) = pin_at(&c, &p, "COUT", "mid");
    let (down_x, _) = pin_at(&c, &p, "COUT", "out");
    assert!(up_x < down_x, "upstream pin must sit left: {up_x} vs {down_x}");
}

#[test]
fn re_seating_holds_the_anchored_pin_still() {
    let c = circuit("re-seat\n*@port in=input\n*@port out=output\nCIN in out 1u\n.end\n");
    let p = seed_with(&c, flow_seed_v2());
    let (e, pe, n) = (&c.elements[0], &p.elements[0], net(&c, "in"));
    let before = world_pin_xy(e, pe.origin, pe.orientation, n).expect("pin on `in`");
    for i in 0..8 {
        let o = Orientation::nth(i);
        let origin = origin_placing_pin_at(e, o, n, before).expect("re-seat");
        let after = world_pin_xy(e, origin, o, n).expect("pin on `in`");
        assert_eq!(before, after, "{o:?}: the anchored pin moved");
    }
}

#[test]
fn the_divider_node_case_orients_onto_the_column_without_moving_the_divider() {
    let c = circuit(
        "divider node\n*@port in=input\nVCC vcc 0 DC 12 ;@ power=+12V\n\
         CIN in b 1u\nRB1 vcc b 100k\nRB2 b 0 22k\nRC vcc c 4k7\nRE e 0 1k\n\
         Q1 c b e QGENERIC\n.model QGENERIC NPN\n.end\n",
    );
    let terminal_only = seed_with(&c, terminal_series());
    let f1 = seed_with(&c, terminal_series_divider());
    let cin = at(&c, "CIN");
    assert_ne!(
        spots(&terminal_only)[cin],
        spots(&f1)[cin],
        "the two policies are no longer separable"
    );
    let o = f1.elements[cin].orientation;
    assert!(is_horizontal(o), "CIN must be drawn horizontal, got {o:?}");
    let (cin_x, cin_y) = pin_at(&c, &f1, "CIN", "b");
    let (rb1_x, _) = pin_at(&c, &f1, "RB1", "b");
    let (rb2_x, _) = pin_at(&c, &f1, "RB2", "b");
    let column = (rb1_x + rb2_x) as f64 / 2.0;
    assert!(
        (cin_x as f64 - column).abs() <= GRID_STEP as f64 / 2.0,
        "CIN's `b` pin must sit on the divider column {column}, got {cin_x}"
    );
    let (_, base_y) = pin_at(&c, &f1, "Q1", "b");
    assert!(
        (cin_y - base_y).abs() <= GRID_STEP / 2,
        "CIN's `b` pin must sit at the base wire {base_y}, got {cin_y}"
    );
    for r in ["RB1", "RB2"] {
        let i = at(&c, r);
        assert_eq!(spots(&terminal_only)[i], spots(&f1)[i], "{r} belongs to the divider");
    }
}

// ---- Carried stubs ----------------------------------------------------------------

const LADDER: &str = "test\nVDD vdd 0 DC 12 ;@ power=+12V\n\
    R1 vdd t1 10k\nR2 t1 t2 10k\nR3 t2 t3 10k\nR4 t3 t4 10k\nR5 t4 0 10k\n\
    CB2 t2 0 100n\nCB3 t3 0 100n\n.end\n";

#[test]
fn a_carried_stub_lands_on_its_tap_pin_line() {
    let c = circuit(LADDER);
    let p = seed_with(&c, dc_column_node_stubs());
    for (cap, leg, name) in [("CB2", "R3", "t2"), ("CB3", "R4", "t3")] {
        let (cx, cy) = pin_at(&c, &p, cap, name);
        let (lx, ly) = pin_at(&c, &p, leg, name);
        assert_eq!(cy, ly, "{cap}'s pin must sit on {leg}'s line");
        assert!((cx - lx).abs() > GRID_STEP / 2, "{cap} must sit beside the column");
    }
}

#[test]
fn a_carried_stub_sits_one_geometry_derived_stride_from_the_column() {
    let c = circuit(LADDER);
    let p = seed_with(&c, dc_column_node_stubs());
    let (cx, _) = pin_at(&c, &p, "CB2", "t2");
    let (lx, _) = pin_at(&c, &p, "R3", "t2");
    let widest = |r: &str| {
        let i = at(&c, r);
        world_extent(&c.elements[i].symbol, p.elements[i].orientation, &None)
    };
    let need = widest("R3").max_x - widest("CB2").min_x + MIN_CLEARANCE;
    let run = (cx - lx).abs();
    assert!(run >= need, "the run ({run}) must clear both bodies ({need})");
    assert!(run <= need + GRID_STEP, "the run ({run}) must be the smallest such stride ({need})");
    let (c3x, _) = pin_at(&c, &p, "CB3", "t3");
    let (l4x, _) = pin_at(&c, &p, "R4", "t3");
    assert!((cx - lx) * (c3x - l4x) > 0, "the stubs took opposite sides of the column");
    assert_eq!(cx, c3x, "and they share one column");
}

#[test]
fn consecutive_carried_stubs_clear_each_other() {
    let c = circuit(LADDER);
    let p = seed_with(&c, dc_column_node_stubs());
    let prefs = vertical_prefs(&c);
    let span = |r: &str| {
        let i = at(&c, r);
        let e = world_extent_with_glyphs(&c.elements[i], p.elements[i].orientation, &None, &prefs);
        let oy = p.elements[i].origin.to_um().1;
        (oy + e.min_y, oy + e.max_y)
    };
    let (a_lo, a_hi) = span("CB2");
    let (b_lo, b_hi) = span("CB3");
    assert!(
        a_hi + MIN_CLEARANCE <= b_lo || b_hi + MIN_CLEARANCE <= a_lo,
        "CB2 [{a_lo}, {a_hi}] and CB3 [{b_lo}, {b_hi}] overlap, glyphs counted"
    );
}

#[test]
fn a_column_member_is_not_carried_beside_itself() {
    let c = circuit(LADDER);
    let p = seed_with(&c, dc_column_node_stubs());
    assert_eq!(
        pin_at(&c, &p, "R4", "t3").0,
        pin_at(&c, &p, "R5", "t4").0,
        "R5 is a column member and must stay on the column"
    );
}

// ---- Costs --------------------------------------------------------------------------

#[test]
fn band_misalignment_zero_when_aligned() {
    let c = circuit("test\nV1 vcc 0 12 ;@ power=vcc\nR1 vcc out 1k\nR2 out 0 1k\n.end\n");
    let p = manual_placement(&c, &[(0, 0), (5, 5), (10, 10)]);
    assert_eq!(band_misalignment(&p, &c, None), 0);
}

#[test]
fn band_misalignment_nonzero_when_offset() {
    let c = circuit(
        "test\nV1 vcc 0 12 ;@ power=vcc\nR1 vcc vdd 1k\nR2 vcc vdd 1k\nR3 vdd 0 1k\n.end\n",
    );
    let p = manual_placement(&c, &[(0, 0), (5, 0), (10, 30), (15, 10)]);
    assert!(band_misalignment(&p, &c, None) > 0);
}

#[test]
fn soft_y_residual_zero_at_target() {
    let c = circuit("test\nV1 in 0 AC 1\nR1 in mid 1k\nR2 mid out 1k\n.end\n");
    let p = manual_placement(&c, &[(0, 5), (5, 5), (10, 5)]);
    assert_eq!(soft_y_residual(&p, &c), 0);
}

#[test]
fn layer_order_zero_when_left_to_right() {
    let c = circuit("test\nV1 in 0 AC 1\nR1 in mid 1k\nR2 mid out 1k\n.end\n");
    let p = manual_placement(&c, &[(0, 0), (0, 5), (0, 10)]);
    assert_eq!(layer_order(&p, &c), 0);
}

#[test]
fn layer_order_positive_when_inverted() {
    let c = circuit("test\nV1 in 0 AC 1\nR1 in mid 1k\nR2 mid out 1k\n.end\n");
    let p = manual_placement(&c, &[(20, 0), (5, 0), (10, 0)]);
    assert!(layer_order(&p, &c) > 0);
}

#[test]
fn a_placement_of_other_elements_has_no_rows_to_keep() {
    let c = circuit("test\nV1 in 0 AC 1\nR1 in mid 1k\nR2 mid out 1k\n.end\n");
    let mut p = manual_placement(&c, &[(20, 0), (5, 9), (10, 30)]);
    assert!(layer_order(&p, &c) > 0 && soft_y_residual(&p, &c) > 0);
    let _ = p.elements.pop();
    assert_eq!(soft_y_residual(&p, &c), 0);
    assert_eq!(band_inversion(&p, &c), 0);
    assert_eq!(layer_order(&p, &c), 0);
}

#[test]
fn elements_without_a_band_pay_nothing() {
    let c = circuit("test\nV1 vcc 0 12 ;@ power=vcc\nR1 vcc vdd 1k\nR2 vcc vdd 1k\n.end\n");
    let p = manual_placement(&c, &[(0, 0), (5, 0), (10, 30)]);
    let top = BandAssignment { band: Band::Top, soft_y_target_sixths: 0 };
    let all = vec![top, top, top];
    assert_eq!(band_misalignment(&p, &c, Some(&all)), (30 * 1270 - 1270) * (30 * 1270 - 1270));
    assert_eq!(band_misalignment(&p, &c, Some(&vec![top, top])), 0);
    assert_eq!(band_misalignment(&p, &c, Some(&vec![])), 0);
}

#[test]
fn net_bbox_crossings_zero_for_isolated_nets() {
    let c = circuit("test\nR1 a b 1k\nR2 a b 1k\nR3 c d 1k\nR4 c d 1k\n.end\n");
    let p = manual_placement(&c, &[(0, 0), (0, 5), (100, 0), (100, 5)]);
    assert_eq!(net_bbox_crossings_for(&p, &c), 0);
}

#[test]
fn net_bbox_crossings_positive_when_overlap() {
    let c = circuit("test\nR1 a x 1k\nR2 a y 1k\nR3 b p 1k\nR4 b q 1k\n.end\n");
    let p = manual_placement(&c, &[(0, 0), (10, 10), (0, 10), (10, 0)]);
    assert!(net_bbox_crossings_for(&p, &c) > 0);
}

#[test]
fn inversions_depend_on_the_order_of_rows_alone() {
    let c = circuit("test\nV1 vcc 0 12 ;@ power=vcc\nR1 vcc out 1k\nR2 out 0 1k\n.end\n");
    let upright = manual_placement(&c, &[(0, 5), (5, 0), (10, 10)]);
    let inverted = manual_placement(&c, &[(0, 5), (5, 10), (10, 0)]);
    let shifted = manual_placement(&c, &[(0, 45), (5, 50), (10, 40)]);
    assert_eq!(band_inversion(&upright, &c), 0);
    assert!(band_inversion(&inverted, &c) > 0);
    assert_eq!(band_inversion(&inverted, &c), band_inversion(&shifted, &c));
}

#[test]
fn wire_length_is_half_the_perimeters() {
    let c = circuit("test\nR1 a b 1k\nR2 a b 1k\n.end\n");
    let p = manual_placement(&c, &[(0, 0), (10, 3)]);
    let cost = breakdown(&p, &c);
    assert_eq!(cost.hpwl, 2 * (10 + 3) * 1270);
    assert_eq!(cost.overlap, 0);
    assert_eq!(cost.crossings, 0);
    assert_eq!(cost.signal_flow, 0);
    assert!(cost.constraint_violation.clusters.is_empty());
    assert_eq!(cost.constraint_violation.place, 0);
}

#[test]
fn trees_join_nearest_pins() {
    let edges = net_mst_edges(&vec![(0, 0), (10, 0), (3, 0)]);
    assert_eq!(edges.len(), 2);
    let length: i64 = edges.iter().map(|e: &Segment| (e.ax - e.bx).abs() + (e.ay - e.by).abs()).sum();
    assert_eq!(length, 10);
    assert!(net_mst_edges(&vec![(5, 5)]).is_empty());
}

#[test]
fn straight_clusters_and_settled_relations_cost_nothing() {
    let c = circuit(
        "test\n*@align horizontal R1 R2\nR1 a b 1k\nR2 b c 1k\nR3 c d 1k ;@ place=right-of R2\n.end\n",
    );
    let p = place(&c).expect("place");
    let cost = constraint_violation(&p, &c);
    assert_eq!(cost.clusters.len(), 1);
    assert_eq!(cost.clusters[0].numerator, 0);
    assert_eq!(cost.place, 0);
    let crooked = manual_placement(&c, &[(0, 0), (10, 4), (-20, 9)]);
    let cost = constraint_violation(&crooked, &c);
    assert_ne!(cost.clusters[0].numerator, 0);
    assert!(cost.place > 0);
}

#[test]
fn relations_pay_for_the_wrong_side() {
    assert_eq!(place_residual(Relation::RightOf, (0, 0), (0, 0)), 0);
    assert!(place_residual(Relation::RightOf, (5000, 0), (0, 0)) > 0);
    assert!(place_residual(Relation::RightOf, (0, 0), (9000, 2540)) > 0);
    assert_eq!(place_residual(Relation::Below, (0, 0), (0, 9000)), 0);
}

// ---- Footprints and texts --------------------------------------------------------------

fn text(chars: i64, x: i64, y: i64) -> Option<TextBox> {
    Some(TextBox { x0: x, y0: y - 900, x1: x + 760 * chars, y1: y + 900 })
}

const GROUNDED: &str = "test\nV1 in 0 AC 1 ;@ ignore\nR1 in out 1k\nC1 out 0 100n\n.end\n";

#[test]
fn directional_is_a_subset_of_the_symmetric_halo() {
    let c = circuit(GROUNDED);
    let prefs = vertical_prefs(&c);
    let o = Orientation::identity();
    for e in &c.elements {
        let shared = body_and_pins(&e.symbol, o).union(&glyph(e, o, &prefs));
        let room = world_extent_with_glyphs(e, o, &None, &prefs);
        let hw = room.max_x.max(-room.min_x);
        let hh = room.max_y.max(-room.min_y);
        assert!(shared.within_halo(hw, hh), "{}: {shared:?} escapes the halo", e.refdes);
    }
}

#[test]
fn property_text_reserves_beyond_the_symmetric_halo() {
    let c = circuit(GROUNDED);
    let prefs = vertical_prefs(&c);
    let o = Orientation::identity();
    let r1 = &c.elements[at(&c, "R1")];
    let full = element_footprint(r1, o, text(2, 2540, -2540), text(2, 2540, 2540), &prefs);
    let (hw, hh) = body_and_pins(&r1.symbol, o).union(&glyph(r1, o, &prefs)).halo_half_extents();
    assert!(!full.within_halo(hw, hh), "{full:?} should escape the halo ({hw}, {hh})");
}

#[test]
fn ground_glyph_reach_is_one_sided() {
    let c = circuit(GROUNDED);
    let prefs = vertical_prefs(&c);
    let g = glyph(&c.elements[at(&c, "C1")], Orientation::identity(), &prefs);
    assert!(
        (g.min_y == 0) != (g.max_y == 0),
        "the ground glyph must extend on exactly one side, got {g:?}"
    );
    let (_, hh) = g.halo_half_extents();
    assert!(hh > 1000, "glyph reach should be a real distance, got {hh}");
}

#[test]
fn absent_value_reserves_no_value_box() {
    let with = property_text(text(2, 2540, -2540), text(2, 2540, 2540));
    let without = property_text(text(2, 2540, -2540), None);
    assert!(
        without.max_x < with.max_x || without.min_y > with.min_y || without.max_y < with.max_y,
        "dropping the value must shrink the box: {with:?} {without:?}"
    );
    assert_eq!(property_text(None, None), SignedFootprint::origin());
}

#[test]
fn unions_hold_both_footprints() {
    let a = SignedFootprint { min_x: -3, max_x: 5, min_y: 0, max_y: 7 };
    let b = SignedFootprint { min_x: -1, max_x: 9, min_y: -2, max_y: 1 };
    assert_eq!(a.union(&b), SignedFootprint { min_x: -3, max_x: 9, min_y: -2, max_y: 7 });
    assert_eq!(a.area(), 56);
    assert_eq!(a.halo_half_extents(), (5, 7));
    assert!(a.within_halo(5, 7) && !a.within_halo(4, 7));
}

#[test]
fn property_text_reserves_height_not_just_width() {
    let bare = world_extent(&resistor(), Orientation::identity(), &None);
    let texted = world_extent(&resistor(), Orientation::identity(), &Some("4.7k".to_string()));
    assert!(texted.max_x > bare.max_x, "the value text must reserve its width");
    let reach = VALUE_OFFSET + PROPERTY_HALF_HEIGHT;
    assert!(
        texted.max_y >= reach && texted.min_y <= -reach,
        "property text must reserve its band on both sides: {texted:?}"
    );
}

#[test]
fn no_value_text_reserves_no_property_band() {
    let bare = world_extent(&resistor(), Orientation::identity(), &None);
    let empty = world_extent(&resistor(), Orientation::identity(), &Some(String::new()));
    assert_eq!((bare.min_y, bare.max_y), (empty.min_y, empty.max_y));
}

#[test]
fn ceil_cells_allows_negative_and_does_not_clamp() {
    assert_eq!(ceil_cells(0), 0);
    assert_eq!(ceil_cells(1270), 1);
    assert_eq!(ceil_cells(1280), 2);
    assert_eq!(ceil_cells(-1270), -1);
    assert_eq!(ceil_cells(-1000), 0);
    assert_eq!(up_to_cells(-1000), 1);
}

#[test]
fn outward_rot_is_the_reflection_not_the_opposite() {
    assert_eq!(outward_label_rot(90), 270);
    assert_eq!(outward_label_rot(270), 90);
    assert_eq!(outward_label_rot(0), 0);
    assert_eq!(outward_label_rot(180), 180);
}

#[test]
fn glyphs_stand_outward_of_their_pins() {
    assert_eq!(canonical_axis(NetClass::Power, false), GlyphAxis::Up);
    assert_eq!(canonical_axis(NetClass::Power, true), GlyphAxis::Down);
    assert_eq!(canonical_axis(NetClass::Ground, false), GlyphAxis::Down);
    let c = circuit(GROUNDED);
    let prefs = vertical_prefs(&c);
    let tips = glyph_reach(&c.elements[at(&c, "C1")], Orientation::identity(), &prefs);
    assert_eq!(tips, vec![(0, 3810 + 3810)]);
}

#[test]
fn declared_ports_are_labelled() {
    let c = circuit("test\n*@port in=input\n*@port out=output\nR1 in mid 1k\nC1 mid out 1u\n.end\n");
    let plans = label_plans(&c);
    let plan = plans[net(&c, "in")].as_ref().expect("`in` is labelled");
    assert_eq!(plan.text, "in");
    assert!(matches!(plan.kind, LabelKind::Global { shape: "input" }), "{plan:?}");
    assert!(plan.anchor_determined);
    let r1 = &c.elements[at(&c, "R1")];
    let anchors = label_anchors(r1, Orientation::identity(), &plans);
    assert_eq!(anchors.len(), 2);
    assert_eq!((anchors[0].net, anchors[0].x, anchors[0].y), (net(&c, "in"), 0, -3810));
    assert_eq!(anchors[0].rotation, outward_label_rot(270));
    let (seed, narrow) = (plans_for(&c, "seed", "sa, seed", ""), plans_for(&c, "seed", "seed", "global"));
    assert!(seed[net(&c, "in")].is_some() && seed[net(&c, "mid")].is_some());
    assert!(narrow[net(&c, "in")].is_some() && narrow[net(&c, "mid")].is_none());
    assert!(plans_for(&c, "legalize", "sa, seed", "").iter().all(|p| p.is_none()));
    let boxes = vec![TextBox { x0: 1, y0: 2, x1: 3, y1: 4 }];
    assert_eq!(label_reach(&boxes), vec![(1, 2), (3, 4)]);
}

// ---- Legalizing and compacting -----------------------------------------------------------

fn fp(x0: i64, y0: i64, x1: i64, y1: i64) -> Footprint {
    Footprint { x0: x0 * 1000, y0: y0 * 1000, x1: x1 * 1000, y1: y1 * 1000 }
}

#[test]
fn touching_footprints_are_legal() {
    assert!(!fp(0, 0, 2, 2).overlaps(fp(2, 0, 4, 2)));
}

#[test]
fn straddling_footprints_overlap() {
    assert!(fp(0, 0, 2, 2).overlaps(fp(1, 1, 3, 3)));
    assert!(fp(1, 1, 3, 3).overlaps(fp(0, 0, 2, 2)));
}

#[test]
fn displacement_ring_starts_at_no_move_and_grows() {
    let ring = displacement_ring(2);
    assert_eq!(ring[0], (0, 0));
    let dists: Vec<i32> = ring.iter().map(|&(x, y)| x.abs() + y.abs()).collect();
    assert!(dists.windows(2).all(|w| w[0] <= w[1]), "{dists:?}");
}

#[test]
fn displacement_ring_is_deterministic() {
    assert_eq!(displacement_ring(3), displacement_ring(3));
}

#[test]
fn overlapping_elements_are_shoved_apart() {
    let c = circuit("test\nR1 a b 1k\nR2 c d 1k\nR3 e f 1k\n.end\n");
    let mut p = manual_placement(&c, &[(0, 0), (1, 0), (40, 0)]);
    assert_eq!(overlap_count(&p, &c), 1);
    let prefs = vertical_prefs(&c);
    let moved = legalize(&mut p, &vec![true, false, false], &c, &prefs);
    assert_eq!(moved, 1);
    assert_eq!(overlap_count(&p, &c), 0);
    assert_eq!(foreign_pin_coincidences(&p, &c), 0);
    assert_eq!(p.elements[0].origin, GridPoint::new(0, 0), "a pinned element stays");
    assert_eq!(p.elements[2].origin, GridPoint::new(40, 0), "a clear element stays");
    let before = spots(&p);
    assert_eq!(legalize(&mut p, &vec![true, false, false], &c, &prefs), 0);
    assert_eq!(before, spots(&p), "a legal layout stays");
}

#[test]
fn pinned_overlaps_are_counted_apart() {
    let c = circuit("test\nR1 a b 1k\nR2 c d 1k\n.end\n");
    let p = manual_placement(&c, &[(0, 0), (0, 0)]);
    assert_eq!(immovable_overlap_count(&p, &c, &vec![true, true]), 1);
    assert_eq!(immovable_overlap_count(&p, &c, &vec![true, false]), 0);
    assert_eq!(foreign_pin_coincidences(&p, &c), 2);
}

#[test]
fn sweeps_x_only_by_design() {
    let c = circuit("test\nR1 a b 1k\nR2 b c 1k\nR3 c d 1k\nR4 d e 1k\n.end\n");
    let mut p = manual_placement(&c, &[(0, 0), (60, 7), (120, -9), (200, 30)]);
    let before = spots(&p);
    let prefs = vertical_prefs(&c);
    let moved = compact(&mut p, &vec![false; 4], &c, &prefs);
    let after = spots(&p);
    assert!(moved > 0, "the sweep over X must stay");
    for (a, b) in before.iter().zip(&after) {
        assert_eq!(a.1, b.1, "a row has changed");
        assert_eq!(a.2, b.2, "a pose has changed");
        assert!(b.0 <= a.0, "an element has moved right");
    }
    assert!(after[3].0 < before[3].0);
    assert!(after.windows(2).all(|w| w[0].0 <= w[1].0), "the reading order has changed");
}

// ---- The placer as a whole ------------------------------------------------------------------

const STAGE: &str = "common emitter\nVCC vcc 0 DC 12 ;@ power=+12V\n\
    R1 vcc b 47k\nR2 b 0 10k\nRC vcc c 3k3\nRE e 0 1k\nCE e 0 100u\n\
    CIN in b 1u\nCOUT c out 1u\nQ1 c b e QGENERIC\n.model QGENERIC NPN\n.end\n";

#[test]
fn a_stage_is_placed_without_overlaps_or_shorts() {
    let c = circuit(STAGE);
    for placer in [champion(), flow_seed_v2(), terminal_series_divider(), dc_column_node_stubs()] {
        let p = seed_with(&c, placer);
        assert_eq!(p.elements.len(), c.elements.len());
        assert_eq!(drawn_overlaps(&c, &p), 0);
        assert_eq!(foreign_pin_coincidences(&p, &c), 0);
        for (e, q) in c.elements.iter().zip(&p.elements) {
            assert_eq!(e.refdes, q.refdes);
        }
    }
}

#[test]
fn the_default_options_are_the_champion_placer() {
    let c = circuit(STAGE);
    let a = place(&c).expect("place");
    let b = place_with(&c, &LayoutOptions::default()).expect("place");
    let d = place_with_hint(&c, &LayoutOptions::default(), &no_hint()).expect("place");
    assert_eq!(spots(&a), spots(&b));
    assert_eq!(spots(&a), spots(&d));
    assert_eq!(LayoutOptions::default().placer, Placer::champion());
}

#[test]
fn directives_survive_to_the_end() {
    let c = circuit(
        "test\n*@align vertical R1 R2\nVCC vcc 0 DC 12 ;@ power=+12V\nR1 vcc a 1k\nR2 a b 1k\n\
         R3 b out 1k ;@ place=right-of R2\nC1 out 0 1u\n.end\n",
    );
    let p = place(&c).expect("place");
    let (r1, r2, r3) = (at(&c, "R1"), at(&c, "R2"), at(&c, "R3"));
    assert_eq!(p.elements[r1].origin.x, p.elements[r2].origin.x, "a column stays straight");
    assert!(p.elements[r3].origin.x > p.elements[r2].origin.x, "R3 stays right of R2");
    let meta = refinement_meta(&c, &no_hint(), champion()).expect("meta");
    assert!(meta.pinned[r1] && meta.pinned[r2] && meta.pinned[r3]);
    assert_eq!(meta.allowed.len(), c.elements.len());
}

#[test]
fn saved_positions_are_kept_unless_a_directive_rules() {
    let c = circuit("test\nR1 a b 1k\nR2 b c 1k\nR3 c d 1k ;@ place=right-of R2\n.end\n");
    let turned = Orientation { rotation: Rotation::R90, mirror_y: false };
    let pin = |r: &str, x: i32, y: i32| HintPin {
        refdes: r.to_string(),
        origin: GridPoint::new(x, y),
        orientation: turned,
    };
    let hint = Hint { pins: vec![pin("R1", 100, 120), pin("R3", 200, 200), pin("R9", 1, 1)] };
    let p = place_with_hint(&c, &LayoutOptions::default(), &hint).expect("place");
    let (r1, r3) = (at(&c, "R1"), at(&c, "R3"));
    assert_eq!(p.elements[r1].origin, GridPoint::new(100, 120));
    assert_eq!(p.elements[r1].orientation, turned);
    assert_ne!(p.elements[r3].origin, GridPoint::new(200, 200), "a directive wins");
    assert_eq!(hint.lookup("R1"), Some((GridPoint::new(100, 120), turned)));
    assert_eq!(hint.lookup("R2"), None);
}

#[test]
fn circular_directives_are_reported() {
    let c = circuit(
        "test\nR1 a b 1k ;@ place=right-of R2\nR2 b c 1k ;@ place=right-of R1\n.end\n",
    );
    match try_place(&c, &LayoutOptions::default(), &no_hint()) {
        Err(PlaceError::Unresolved(list)) => {
            assert_eq!(list.len(), 2);
            assert_eq!((list[0].refdes.as_str(), list[0].anchor.as_str()), ("R1", "R2"));
            assert_eq!((list[1].refdes.as_str(), list[1].anchor.as_str()), ("R2", "R1"));
        }
        _ => panic!("circular directives cannot be worked off"),
    }
    assert_eq!(place(&c).expect_err("circular").len(), 2);
    assert_eq!(refinement_meta(&c, &no_hint(), champion()).expect_err("circular").len(), 2);
}

#[test]
fn what_does_not_fit_on_a_sheet_is_refused() {
    let mut c = circuit("test\nR1 a b 1k\n.end\n");
    let far = Hint {
        pins: vec![HintPin {
            refdes: "R1".to_string(),
            origin: GridPoint::new(SHEET_LIMIT + 1, 0),
            orientation: Orientation::identity(),
        }],
    };
    assert!(!far.is_on_sheet());
    let opts = LayoutOptions::default();
    assert!(matches!(try_place(&c, &opts, &far), Err(PlaceError::OutsideLimits)));
    assert!(try_place(&c, &opts, &no_hint()).is_ok());
    c.elements[0].nodes[0] = 7;
    assert!(!c.is_drawable());
    assert!(matches!(try_place(&c, &opts, &no_hint()), Err(PlaceError::OutsideLimits)));
    c.elements[0].nodes[0] = 0;
    c.elements[0].symbol.poses.pop();
    assert!(matches!(try_place(&c, &opts, &no_hint()), Err(PlaceError::OutsideLimits)));
}

#[test]
fn relations_turn_round() {
    let (r, o) = (resistor(), Orientation::identity());
    let a = GridPoint::new(10, 20);
    for (there, back) in
        [(Relation::RightOf, Relation::LeftOf), (Relation::Above, Relation::Below)]
    {
        let b = solve_place(there, a, o, &r, o, &r);
        assert_ne!(a, b);
        assert_eq!(solve_place(back, b, o, &r, o, &r), a);
    }
    assert!(solve_place(Relation::Above, a, o, &r, o, &r).y < a.y, "above is a smaller Y");
    assert!(solve_place(Relation::RightOf, a, o, &r, o, &r).x > a.x);
}

#[test]
fn a_common_emitter_stage_takes_its_seats() {
    let c = circuit(STAGE);
    let seeds = detect_and_seed(&c);
    assert!(!seeds.is_empty());
    for (k, s) in seeds.iter().enumerate() {
        assert!(seeds[..k].iter().all(|t| t.at != s.at), "two elements share a seat");
    }
    let mut p = manual_placement(&c, &vec![(500, 500); c.elements.len()]);
    let mut pinned = vec![false; c.elements.len()];
    pinned[at(&c, "RC")] = true;
    apply_seeds(&mut p, &mut pinned, &seeds);
    let seat = |r: &str| seeds.iter().find(|s| s.refdes == r).expect("seat").at;
    assert_eq!(p.elements[at(&c, "Q1")].origin, seat("Q1"));
    assert_eq!(p.elements[at(&c, "RC")].origin, GridPoint::new(500, 500), "pins win");
    assert!(pinned[at(&c, "Q1")] && !pinned[at(&c, "VCC")]);
    assert!(detect_and_seed(&circuit("test\nR1 a b 1k\n.end\n")).is_empty());
}

#[test]
fn forbidden_seed_pins_are_listed() {
    let c = circuit("test\nV1 vcc 0 12 ;@ power=vcc\nR1 vcc out 1k\n.end\n");
    let allowed = allowed_orientations(&c, champion());
    let mut p = manual_placement(&c, &[(0, 0), (10, 0)]);
    p.elements[1].orientation = Orientation { rotation: Rotation::R180, mirror_y: false };
    let (on, off) = (vec![true, true], vec![false, false]);
    assert_eq!(seed_pins_outside_allowed(&p, &on, &off, &allowed), vec![1]);
    assert!(seed_pins_outside_allowed(&p, &on, &on, &allowed).is_empty());
    assert!(seed_pins_outside_allowed(&p, &off, &off, &allowed).is_empty());
}

#[test]
fn pins_are_drawn_upside_up() {
    let c = circuit("test\nR1 a b 1k\n.end\n");
    let p = manual_placement(&c, &[(2, 3)]);
    let pins = p.elements[0].world_pins(&c.elements[0].symbol);
    assert_eq!((pins[0].x, pins[0].y), (2540, 3810 - 3810));
    assert_eq!((pins[1].x, pins[1].y), (2540, 3810 + 3810));
}

#[test]
fn words_are_listed_between_commas() {
    assert!(list_has_word("seed", "seed"));
    assert!(list_has_word("sa,\t seed ,legalize", "seed"));
    assert!(list_has_word("a,,b", ""));
    assert!(!list_has_word("seeds,sa", "seed"));
    assert!(!list_has_word("", "seed"));
}

#[test]
fn a_divider_is_stacked_in_one_column() {
    let c = circuit("divider\nV1 in 0 DC 5 ;@ power=+5V\nR1 in mid 10k\nR2 mid 0 10k\n.end\n");
    let pairs = detect_dividers(&c, champion());
    let mut p = manual_placement(&c, &[(0, 0), (5, 3), (20, 9)]);
    let mut pinned = vec![false; 3];
    apply(&mut p, &mut pinned, &c, &pairs);
    assert_eq!(pinned, vec![false, true, true]);
    assert_eq!(p.elements[1].origin, GridPoint::new(5, 3));
    assert_eq!(p.elements[2].origin.x, 5);
    let gap = (p.elements[2].origin.y - 3) as i64 * GRID_STEP;
    assert!(gap >= 2 * 3810 + MIN_CLEARANCE, "the bodies must be clear, got {gap}");
    assert!(gap < 2 * 3810 + MIN_CLEARANCE + GRID_STEP, "and no farther apart than that");
}

#[test]
fn a_shared_tail_is_centred_below_its_transistors() {
    let c = circuit(
        "tail\nQ1 c1 in1 tail QMOD\nQ2 c2 in2 tail QMOD\nRTAIL tail vee 2k2\n.model QMOD NPN\n.end\n",
    );
    let hits = detect_shared_node_centers(&c);
    let mut p = manual_placement(&c, &[(0, 0), (21, 4), (50, -30)]);
    let mut pinned = vec![false; 3];
    apply_shared_centers(&mut p, &mut pinned, &c, &hits);
    let tail = pin_at(&c, &p, "RTAIL", "tail").0;
    let (a, b) = (pin_at(&c, &p, "Q1", "tail").0, pin_at(&c, &p, "Q2", "tail").0);
    assert!((2 * tail - (a + b)).abs() <= GRID_STEP, "{tail} is not between {a} and {b}");
    assert!(p.elements[2].origin.y > 4, "RTAIL must sit below both");
    assert!(pinned[2] && !pinned[0] && !pinned[1]);
}

#[test]
fn any_element_can_be_centred_below_others() {
    let c = circuit("test\nR1 a b 1k\nR2 a c 1k\nC1 a d 1n\n.end\n");
    let a = net(&c, "a");
    let mut p = manual_placement(&c, &[(0, 0), (20, 0), (90, -30)]);
    let mut pinned = vec![false; 3];
    let hit = SharedNodeCenter { element: 2, transistors: vec![0, 1], net: a };
    apply_shared_centers(&mut p, &mut pinned, &c, &vec![hit]);
    let (x, y) = (pin_at(&c, &p, "R1", "a").0, pin_at(&c, &p, "R2", "a").0);
    assert_eq!(2 * pin_at(&c, &p, "C1", "a").0, x + y);
    assert_eq!(pinned, vec![false, false, true]);
}

#[test]
fn only_listed_stubs_slide() {
    let c = circuit(
        "stub\nVCC vcc 0 DC 12 ;@ power=+12V\nRC vcc c 3k3\nQ1 c b e QMOD\nRE e 0 1k\n\
         .model QMOD NPN\n.end\n",
    );
    let stubs = vec![detect_rail_stubs(&c)[0]];
    assert_eq!(stubs[0].element, at(&c, "RC"));
    let mut p = manual_placement(&c, &[(0, 0), (30, 0), (5, 10), (-9, 20)]);
    let free = vec![false; 4];
    apply_rail_stub_columns(&mut p, &free, &free, &c, &stubs);
    assert_eq!(pin_at(&c, &p, "RC", "c").0, pin_at(&c, &p, "Q1", "c").0);
    assert_eq!(p.elements[3].origin, GridPoint::new(-9, 20));
}

#[test]
fn a_rail_stub_hangs_from_its_node() {
    let c = circuit(
        "stub\nVCC vcc 0 DC 12 ;@ power=+12V\nRC vcc c 3k3\nQ1 c b e QMOD\nRE e 0 1k\n\
         .model QMOD NPN\n.end\n",
    );
    let stubs = detect_rail_stubs(&c);
    assert_eq!(stubs.len(), 2);
    let mut p = manual_placement(&c, &[(0, 0), (30, 0), (5, 10), (-9, 20)]);
    let free = vec![false; 4];
    apply_rail_stub_columns(&mut p, &free, &free, &c, &stubs);
    assert_eq!(pin_at(&c, &p, "RC", "c").0, pin_at(&c, &p, "Q1", "c").0);
    assert_eq!(pin_at(&c, &p, "RE", "e").0, pin_at(&c, &p, "Q1", "e").0);
    assert_eq!(p.elements[1].origin.y, 0, "a stub slides sideways only");
    let mut q = manual_placement(&c, &[(0, 0), (30, 0), (5, 10), (-9, 20)]);
    apply_rail_stub_columns(&mut q, &vec![true; 4], &free, &c, &stubs);
    assert_eq!(q.elements[1].origin, GridPoint::new(30, 0), "a locked stub stays");
}

#[test]
fn compaction_keeps_the_room_of_neighbours() {
    let c = circuit("test\nR1 a b 1k\nR2 c d 1k\n.end\n");
    let mut p = manual_placement(&c, &[(0, 0), (90, 0)]);
    let prefs = vertical_prefs(&c);
    assert_eq!(compact(&mut p, &vec![false; 2], &c, &prefs), 1);
    let room = |i: usize| {
        let e = &c.elements[i];
        world_extent_with_glyphs(e, p.elements[i].orientation, &e.value, &prefs)
    };
    let need = room(0).max_x - room(1).min_x;
    let gap = (p.elements[1].origin.x - p.elements[0].origin.x) as i64 * GRID_STEP;
    assert!(gap >= need && gap < need + GRID_STEP, "{gap} for {need}");
}

#[test]
fn poses_are_chosen_by_the_distance_of_their_pins() {
    let c = circuit("test\nR1 a b 1k\nR2 b c 1k\n.end\n");
    let allowed = allowed_orientations(&c, champion());
    let mut p = manual_placement(&c, &[(0, 0), (0, 20)]);
    pick_orientations(&mut p, &vec![true, false], &c, &allowed);
    assert_eq!(p.elements[0].orientation, Orientation::identity(), "a pinned pose stays");
    let near = pin_at(&c, &p, "R2", "b");
    let node = pin_at(&c, &p, "R1", "b");
    assert_eq!((near.0 - node.0, near.1 - node.1), (0, 20 * GRID_STEP - 7620));
}

fn amplifier() -> CheckedNetlist {
    circuit(
        "amp\nVCC vcc 0 DC 12 ;@ power=+12V\nR1 vcc b 47k\nR2 b 0 10k\nRC vcc c 3k3\n\
         RE e 0 1k\nCIN in b 10u\nQ1 c b e QMOD\n.model QMOD NPN\n.end\n",
    )
}

#[test]
fn the_passes_one_by_one_are_the_placer() {
    let c = amplifier();
    for placer in [champion(), flow_seed_v2(), dc_column_node_stubs()] {
        let start = start_layout(&c, placer, &Hint::default()).unwrap();
        let (mut p, mut pinned) = (start.placement, start.pinned);
        let dividers = detect_dividers(&c, placer);
        let centers = detect_shared_node_centers(&c);
        apply_position_idioms(&mut p, &mut pinned, &c, &dividers, &centers);
        let before = saved_spots(&p);
        let none = vec![false; pinned.len()];
        slide_stubs(&mut p, &pinned, &start.user_pinned, &none, &c);
        keep_or_revert(&mut p, &before, &start.user_pinned, &c);
        let allowed = allowed_orientations(&c, placer);
        apply_dc_columns(&mut p, &mut pinned, &c, &allowed, placer);
        apply_series_horizontal(&mut p, &mut pinned, &c, &allowed, placer);
        pick_orientations(&mut p, &pinned, &c, &allowed);
        legalize_if_needed(&mut p, &start.user_pinned, &c);
        let whole = place_with(&c, &LayoutOptions { placer }).unwrap();
        assert_eq!(saved_spots(&p), saved_spots(&whole));
    }
}

#[test]
fn a_mirror_pin_yields_to_a_stub_column() {
    let c = circuit(
        "stub\nVCC vcc 0 DC 12 ;@ power=+12V\nRC vcc c 3k3\nQ1 c b e QMOD\nRE e 0 1k\n\
         .model QMOD NPN\n.end\n",
    );
    let spots = [(0, 0), (30, 0), (5, 10), (-9, 20)];
    let (all, none) = (vec![true; 4], vec![false; 4]);
    let mut held = manual_placement(&c, &spots);
    slide_stubs(&mut held, &all, &none, &none, &c);
    assert_eq!(held.elements[1].origin, GridPoint::new(30, 0));
    let mut free = manual_placement(&c, &spots);
    slide_stubs(&mut free, &all, &none, &all, &c);
    assert_eq!(pin_at(&c, &free, "RC", "c").0, pin_at(&c, &free, "Q1", "c").0);
    assert_eq!(free.elements[1].origin.y, 0);
}

#[test]
fn pinned_elements_are_not_stacked() {
    let c = circuit("test\nR1 a b 1k\nR2 c d 1k\n.end\n");
    let before = saved_spots(&manual_placement(&c, &[(0, 0), (20, 0)]));
    let mut stacked = manual_placement(&c, &[(0, 0), (0, 0)]);
    keep_or_revert(&mut stacked, &before, &vec![true; 2], &c);
    assert_eq!(stacked.elements[1].origin, GridPoint::new(20, 0));
    let mut moved = manual_placement(&c, &[(0, 0), (40, 0)]);
    keep_or_revert(&mut moved, &before, &vec![true; 2], &c);
    assert_eq!(moved.elements[1].origin, GridPoint::new(40, 0));
}

#[test]
fn large_rings_grow_too() {
    let ring = displacement_ring(20);
    assert_eq!(ring.len(), 41 * 41);
    assert_eq!(ring[0], (0, 0));
    assert!(ring.windows(2).all(|w| w[0].0.abs() + w[0].1.abs() <= w[1].0.abs() + w[1].1.abs()));
    assert_eq!(displacement_ring(-1), vec![(0, 0)]);
}
