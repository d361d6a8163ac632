use konnect_core::annotate::annotate_schematic;
use konnect_core::geometry::{Label, Point, Wire};
use konnect_core::orphans::{find_orphan_items, OrphanItem};
use konnect_core::reports::ErcViolation;
use konnect_core::sch_export::{filter_erc, fix_connectivity, netlist_summary, shown_net};
use konnect_core::sch_queries::{
    check_overlaps, find_shorted_nets, find_single_pin_nets, get_component_nets,
    get_connected_items, get_net_components, get_net_connections, get_net_connectivity, list_nets,
    net_at_point, trace_from_point,
};
use konnect_core::schematic::{PlacedPin, Sheet, Symbol};

fn at(x: i64, y: i64) -> Point {
    Point { x: x * 1_000_000, y: y * 1_000_000 }
}

fn pin(number: &str, name: &str, kind: &str, p: Point) -> PlacedPin {
    PlacedPin {
        number: number.to_string(),
        name: name.to_string(),
        electrical_type: kind.to_string(),
        at: p,
    }
}

fn symbol(reference: &str, unit: u32, p: Point, pins: Vec<PlacedPin>) -> Symbol {
    Symbol {
        reference: reference.to_string(),
        value: "DUAL".to_string(),
        footprint: String::new(),
        lib_id: "Test:DUAL".to_string(),
        library_symbol: "Test:DUAL".to_string(),
        unit,
        at: p,
        definition_pins: 2,
        pins: Some(pins),
    }
}

fn label(net: &str, p: Point) -> Label {
    Label { net: net.to_string(), at: p, kind: "Label".to_string() }
}

fn wire(start: Point, end: Point, uuid: &str) -> Wire {
    Wire { start, end, uuid: Some(uuid.to_string()) }
}

fn sheet(wires: Vec<Wire>, labels: Vec<Label>, symbols: Vec<Symbol>) -> Sheet {
    Sheet {
        wires,
        labels,
        junctions: vec![],
        no_connects: vec![],
        sheet_pins: vec![],
        symbols,
    }
}

// ─── Units ────────────────────────────────────────────────────────────────

fn dual() -> Sheet {
    sheet(
        vec![],
        vec![label("UNIT1", at(100, 100)), label("UNIT2", at(100, 120))],
        vec![
            symbol("U1", 1, at(100, 100), vec![pin("1", "A", "input", at(100, 100))]),
            symbol("U1", 2, at(100, 120), vec![pin("2", "Y", "output", at(100, 120))]),
            symbol("U2", 1, at(200, 100), vec![pin("1", "A", "input", at(200, 100))]),
            symbol("U2", 2, at(100, 120), vec![pin("2", "Y", "output", at(100, 120))]),
        ],
    )
}

#[test]
fn pin_query_finds_the_unit_that_owns_the_pin() {
    let sheet = dual();
    let owner = sheet
        .symbols
        .iter()
        .filter(|s| s.reference == "U1")
        .flat_map(|s| s.pins.as_ref().unwrap())
        .find(|p| p.number == "2")
        .unwrap();
    assert_eq!(owner.at.y, 120_000_000);
    assert_eq!(net_at_point(&sheet, owner.at).as_deref(), Some("UNIT2"));
}

#[test]
fn component_query_reports_each_units_real_pin_and_net() {
    let pins = get_component_nets(&dual(), "U1").ok().unwrap();
    assert_eq!(pins.len(), 2, "one pin per placed unit");
    assert!(pins
        .iter()
        .any(|p| p.number == "1" && p.unit == 1 && p.net.as_deref() == Some("UNIT1")));
    assert!(pins
        .iter()
        .any(|p| p.number == "2" && p.unit == 2 && p.net.as_deref() == Some("UNIT2")));
    assert_eq!(get_component_nets(&dual(), "U9").err().unwrap(), "Component 'U9' not found");
}

#[test]
fn net_query_never_reports_another_units_phantom_pin() {
    let sheet = dual();
    let components = get_net_components(&sheet, "UNIT2");
    let u1 = components.iter().find(|c| sheet.symbols[c.symbol].reference == "U1").unwrap();
    assert_eq!(sheet.symbols[u1.symbol].unit, 2);
    assert_eq!(u1.pins, [0]);
    assert_eq!(sheet.symbols[u1.symbol].pins.as_ref().unwrap()[0].number, "2");
}

#[test]
fn connected_items_traces_every_unit_and_classifies_peers_by_unit() {
    let sheet = dual();
    let items = get_connected_items(&sheet, "U1").ok().unwrap();
    assert!(items.nets.contains(&"UNIT1".to_string()));
    assert!(items.nets.contains(&"UNIT2".to_string()));
    assert_eq!(items.labels, [0, 1]);
    let peer = items
        .components
        .iter()
        .find(|c| sheet.symbols[c.symbol].reference == "U2")
        .unwrap();
    assert_eq!(sheet.symbols[peer.symbol].unit, 2);
    assert_eq!(peer.pins.len(), 1);
    assert_eq!(sheet.symbols[peer.symbol].pins.as_ref().unwrap()[peer.pins[0]].number, "2");
    assert!(get_connected_items(&sheet, "U9").is_err());
}

#[test]
fn netlist_summary_reports_only_each_placed_units_pins() {
    let mut sheet = dual();
    sheet.symbols.truncate(2);
    let summary = netlist_summary(&sheet);
    assert_eq!(summary.nets, ["UNIT1", "UNIT2"]);
    assert_eq!(summary.components.len(), 2);
    for (component, number, net) in
        [(&summary.components[0], "1", "UNIT1"), (&summary.components[1], "2", "UNIT2")]
    {
        let pins = component.pins.as_ref().unwrap();
        assert_eq!(pins.len(), 1);
        assert_eq!(pins[0].number, number);
        assert_eq!(shown_net(&pins[0].net), net);
    }
    assert_eq!(shown_net(&None), "~");
}

// ─── Orphans ──────────────────────────────────────────────────────────────

fn wired() -> Sheet {
    sheet(
        vec![wire(at(90, 100), at(100, 100), "w1")],
        vec![label("SIG", at(95, 100)), label("ORPHAN", at(200, 200))],
        vec![
            symbol("U1", 1, at(100, 100), vec![pin("1", "A", "passive", at(100, 100))]),
            symbol("U2", 1, at(150, 150), vec![pin("1", "A", "passive", at(150, 150))]),
        ],
    )
}

fn orphans(sheet: &Sheet) -> Vec<OrphanItem> {
    find_orphan_items(sheet, Some(50_000)).ok().unwrap()
}

fn dangling(items: &[OrphanItem]) -> Vec<(i64, Option<String>)> {
    items
        .iter()
        .filter_map(|item| match item {
            OrphanItem::DanglingWireEnd { at, wire_uuid } => Some((at.x, wire_uuid.clone())),
            _ => None,
        })
        .collect()
}

fn floating(items: &[OrphanItem]) -> Vec<String> {
    items
        .iter()
        .filter_map(|item| match item {
            OrphanItem::FloatingLabel { net, .. } => Some(net.clone()),
            _ => None,
        })
        .collect()
}

fn unconnected(items: &[OrphanItem]) -> Vec<(String, String, String)> {
    items
        .iter()
        .filter_map(|item| match item {
            OrphanItem::UnconnectedPin { reference, pin, pin_name, .. } => {
                Some((reference.clone(), pin.clone(), pin_name.clone()))
            }
            _ => None,
        })
        .collect()
}

#[test]
fn a_wire_ending_on_a_pin_is_not_dangling() {
    assert_eq!(dangling(&orphans(&wired())), [(90_000_000, Some("w1".to_string()))]);
}

#[test]
fn a_label_mid_segment_is_not_floating() {
    assert_eq!(floating(&orphans(&wired())), ["ORPHAN"]);
}

#[test]
fn a_pin_with_nothing_on_it_is_reported() {
    assert_eq!(
        unconnected(&orphans(&wired())),
        [("U2".to_string(), "1".to_string(), "A".to_string())]
    );
}

#[test]
fn a_label_on_a_bare_pin_connects_both_items() {
    let mut sheet = wired();
    sheet.labels.push(label("NC_SIG", at(150, 150)));
    let items = orphans(&sheet);
    assert_eq!(floating(&items), ["ORPHAN"]);
    assert!(unconnected(&items).is_empty(), "the label connects U2");
}

#[test]
fn a_no_connect_flag_exempts_its_pin() {
    let mut sheet = wired();
    sheet.no_connects.push(at(150, 150));
    assert!(unconnected(&orphans(&sheet)).is_empty(), "no-connect covers U2");
}

#[test]
fn an_intrinsically_no_connect_pin_is_exempt() {
    let mut sheet = wired();
    for s in sheet.symbols.iter_mut() {
        s.pins.as_mut().unwrap()[0].electrical_type = "no_connect".to_string();
    }
    assert!(unconnected(&orphans(&sheet)).is_empty(), "library no-connect pins are intentional");
}

#[test]
fn another_unit_does_not_contribute_a_phantom_pin() {
    let sheet = sheet(
        vec![wire(at(90, 100), at(100, 100), "w1")],
        vec![label("SIG", at(90, 100))],
        vec![symbol("U1", 1, at(100, 100), vec![pin("1", "A", "passive", at(100, 100))])],
    );
    assert!(orphans(&sheet).is_empty(), "unit 2 is not placed here");
}

#[test]
fn a_wire_ending_on_a_sheet_pin_is_not_dangling() {
    let mut sheet = wired();
    sheet.sheet_pins.push(at(90, 100));
    assert!(dangling(&orphans(&sheet)).is_empty(), "both ends terminate");
}

#[test]
fn tolerance_must_be_positive() {
    for tolerance in [Some(0), Some(-50_000), None] {
        assert_eq!(
            find_orphan_items(&wired(), tolerance).err().unwrap(),
            "Invalid argument 'tolerance': must be finite and positive"
        );
    }
}

// ─── Queries ──────────────────────────────────────────────────────────────

fn routed() -> Sheet {
    sheet(
        vec![
            wire(at(0, 0), at(10, 0), "a"),
            wire(at(10, 0), at(10, 10), "b"),
            wire(at(50, 50), at(60, 50), "c"),
        ],
        vec![
            label("SDA", at(0, 0)),
            label("SCL", at(10, 10)),
            label("VCC", at(55, 50)),
            label("SDA", at(70, 70)),
        ],
        vec![
            symbol("R1", 1, at(0, 0), vec![pin("1", "~", "passive", at(10, 0))]),
            symbol("R2", 1, at(0, 0), vec![pin("1", "~", "passive", at(60, 50))]),
        ],
    )
}

#[test]
fn nets_are_listed_once_and_in_order() {
    assert_eq!(list_nets(&routed()), ["SCL", "SDA", "VCC"]);
}

#[test]
fn power_symbols_are_listed_as_nets() {
    let mut sheet = routed();
    let mut ground = symbol("#PWR01", 1, at(0, 0), vec![]);
    ground.value = "GND".to_string();
    sheet.symbols.push(ground);
    assert_eq!(list_nets(&sheet), ["GND", "SCL", "SDA", "VCC"]);
    assert_eq!(netlist_summary(&sheet).nets, ["SCL", "SDA", "VCC"]);
}

#[test]
fn a_net_has_its_labels_wires_and_points() {
    let sheet = routed();
    let vcc = get_net_connections(&sheet, "VCC");
    assert_eq!(vcc.labels, [2]);
    assert_eq!(vcc.connected_points, 3);
    let sda = get_net_connectivity(&sheet, "SDA");
    assert_eq!(sda.wires, [0, 1]);
    assert_eq!(sda.labels, [0, 3]);
    assert!(get_net_connectivity(&sheet, "GND").wires.is_empty());
}

#[test]
fn a_point_has_its_net_wires_and_labels() {
    let sheet = routed();
    let trace = trace_from_point(&sheet, at(55, 50), 50_000);
    assert_eq!(trace.net.as_deref(), Some("VCC"));
    assert_eq!(trace.wires, [2]);
    assert_eq!(trace.labels, [2]);
    let nowhere = trace_from_point(&sheet, at(30, 30), 50_000);
    assert_eq!(nowhere.net, None);
    assert!(nowhere.wires.is_empty() && nowhere.labels.is_empty());
}

#[test]
fn joined_names_are_a_short() {
    let shorts = find_shorted_nets(&routed());
    assert_eq!(shorts.len(), 1);
    assert_eq!(shorts[0].label, 0);
    assert_eq!(shorts[0].nets, ["SCL", "SDA"]);
}

#[test]
fn names_on_one_label_are_single() {
    assert_eq!(find_single_pin_nets(&routed()), [1, 2]);
}

#[test]
fn overlaps_are_pairs() {
    let mut sheet = routed();
    sheet.labels.push(label("SCL", at(70, 70)));
    let overlaps = check_overlaps(&sheet, 500_000);
    assert_eq!(overlaps.components, [(0, 1)]);
    assert_eq!(overlaps.labels, [(3, 4)]);
}

#[test]
fn violations_are_filtered_and_counted() {
    let violation = |severity: &str| ErcViolation {
        severity: severity.to_string(),
        description: String::new(),
        sheet: None,
        pos: None,
    };
    let list = vec![violation("error"), violation("exclusion"), violation("warning")];
    let kept = filter_erc(&list, "warning");
    assert_eq!(kept.violations, [0, 2]);
    assert_eq!((kept.errors, kept.warnings), (1, 1));
    let errors = filter_erc(&list, "error");
    assert_eq!((errors.violations.len(), errors.errors, errors.warnings), (1, 1, 0));
}

// ─── Near misses ──────────────────────────────────────────────────────────

#[test]
fn connectivity_fix_does_not_snap_to_another_units_phantom_pin() {
    let near = Point { x: 110_030_000, y: 100_000_000 };
    let sheet = sheet(
        vec![wire(near, at(120, 100), "near-phantom")],
        vec![],
        vec![
            symbol("U1", 1, at(100, 100), vec![pin("1", "A", "input", at(100, 100))]),
            symbol("U1", 2, at(200, 200), vec![pin("2", "Y", "output", at(210, 200))]),
        ],
    );
    let fix = fix_connectivity(&sheet, "", 50_000, true);
    assert!(fix.fixes.is_empty());
    assert!(!fix.applied);
}

#[test]
fn a_near_miss_is_moved_onto_its_target() {
    let content = "(kicad_sch\n  (wire\n    (start 110.03 100)\n    (end 120 100)\n    (uuid \"w\")\n  )\n)";
    let near = Point { x: 110_030_000, y: 100_000_000 };
    let sheet = sheet(
        vec![wire(near, at(120, 100), "w")],
        vec![],
        vec![symbol("U1", 1, at(110, 100), vec![pin("1", "A", "input", at(110, 100))])],
    );
    let fix = fix_connectivity(&sheet, content, 50_000, false);
    assert_eq!(fix.fixes.len(), 1);
    assert!(fix.fixes[0].is_start && fix.applied);
    assert_eq!((fix.fixes[0].from, fix.fixes[0].to), (near, at(110, 100)));
    assert_eq!(fix.edits, 1);
    assert_eq!(fix.content, content.replace("110.03 100", "110 100"));
    assert!(fix_connectivity(&sheet, content, 20_000, false).fixes.is_empty());
    let dry = fix_connectivity(&sheet, content, 50_000, true);
    assert_eq!((dry.fixes.len(), dry.edits, dry.applied), (1, 0, false));
    assert_eq!(dry.content, content);
}

/// A wire from 90/100 to just before a label at 100/100.
fn short_of_a_label() -> Sheet {
    let near = Point { x: 99_970_000, y: 100_000_000 };
    sheet(vec![wire(at(90, 100), near, "w1")], vec![label("SIG", at(100, 100))], vec![])
}

#[test]
fn the_points_of_a_wire_are_its_ends() {
    let content = "(kicad_sch\n  (version 20260306)\n  (uuid \"root\")\n  (lib_symbols)\n  (label \"SIG\" (at 100 100 0))\n  (wire (pts (xy 90 100) (xy 99.97 100)) (uuid \"w1\"))\n)\n";
    let fix = fix_connectivity(&short_of_a_label(), content, 50_000, false);
    assert_eq!((fix.fixes.len(), fix.edits, fix.applied), (1, 1, true));
    assert!(!fix.fixes[0].is_start);
    assert_eq!(fix.fixes[0].to, at(100, 100));
    assert_eq!(fix.content, content.replace("(xy 99.97 100)", "(xy 100 100)"));
}

#[test]
fn the_indent_of_a_wire_does_not_matter() {
    let content = "(kicad_sch\n\t(text \"(wire (uuid \\\"w1\\\"))\" (at 0 0 0))\n\t(wire\n\t\t(pts\n\t\t\t(xy 1 2) (xy 3 4)\n\t\t)\n\t\t(uuid \"w0\")\n\t)\n\t(wire\n\t\t(pts\n\t\t\t(xy 90 100) (xy 99.97 100)\n\t\t)\n\t\t(stroke\n\t\t\t(width 0)\n\t\t)\n\t\t(uuid w1)\n\t)\n)\n";
    let fix = fix_connectivity(&short_of_a_label(), content, 50_000, false);
    assert_eq!(fix.edits, 1);
    assert_eq!(fix.content, content.replace("(xy 99.97 100)", "(xy 100 100)"));
}

#[test]
fn both_ends_of_a_wire_can_move() {
    let content = "(kicad_sch (wire (pts (xy 90.02 100) (xy 99.97 100)) (uuid \"w1\")))";
    let ends = [Point { x: 90_020_000, y: 100_000_000 }, Point { x: 99_970_000, y: 100_000_000 }];
    let sheet = sheet(
        vec![wire(ends[0], ends[1], "w1")],
        vec![label("A", at(90, 100)), label("B", at(100, 100))],
        vec![],
    );
    let fix = fix_connectivity(&sheet, content, 50_000, false);
    assert_eq!((fix.fixes.len(), fix.edits), (2, 2));
    assert_eq!(fix.content, "(kicad_sch (wire (pts (xy 90 100) (xy 100 100)) (uuid \"w1\")))");
}

#[test]
fn a_wire_that_the_text_does_not_hold_is_left_alone() {
    let fix = fix_connectivity(&short_of_a_label(), "(kicad_sch)", 50_000, false);
    assert_eq!((fix.fixes.len(), fix.edits), (1, 0));
    assert_eq!(fix.content, "(kicad_sch)");
}

// ─── Annotation ───────────────────────────────────────────────────────────

#[test]
fn unannotated_references_get_the_next_numbers() {
    let content = "(reference \"R?\") (reference \"R2\") (reference \"R?\") (reference \"C?\")";
    let done = annotate_schematic(content);
    assert!(!done.contains('?'), "{done}");
    assert!(done.contains("(reference \"R2\")"), "{done}");
    assert!(done.contains("(reference \"C1\")"), "{done}");
}

#[test]
fn letters_of_any_alphabet_are_passed_over() {
    let done = annotate_schematic("(reference \"Ω1\") (reference \"Ω?\")");
    assert_eq!(done, "(reference \"Ω1\") (reference \"Ω2\")");
}
