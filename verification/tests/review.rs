use konnect_core::audits::{
    audit_connections, audit_decoupling, audit_power_rails, collect_power_nets, is_power_net_name,
    is_power_pin, is_power_pin_name, rail_requires_bulk_capacitance, Severity,
};
use konnect_core::bom_health::{check_bom_health, Part, PartProperty};
use konnect_core::capacitance::is_bulk_value;
use konnect_core::design_review::{
    collect_hierarchy_paths, extract_findings, findings_outcome, inspect_schematic_coverage,
    outcome_of, review_sheet, run_design_review, AuditAggregate, AuditOutcome, BoardOutcome,
    BoardReviewCoverage, CallToolResult, LoadedSheet, ReviewInput, ReviewReport, ReviewStatus,
    SheetOutcome, Verdict,
};
use konnect_core::dfm::{
    audit_manufacturing, check_silkscreen_overlap, find_design_rule_text, BoardFacts,
    PlacedFootprint,
};
use konnect_core::geometry::{Label, Point};
use konnect_core::hierarchy::HierarchyNode;
use konnect_core::reports::{read_drc_report, DrcReport};
use konnect_core::sch_analysis::{name_symbols, NetPin, NetSymbol};
use konnect_core::schematic::{PlacedPin, Sheet, Symbol};

fn at(x: i64, y: i64) -> Point {
    Point { x: x * 1_000_000, y: y * 1_000_000 }
}

fn test_pin(name: &str, electrical_type: &str) -> NetPin {
    NetPin {
        number: "1".to_string(),
        name: name.to_string(),
        electrical_type: electrical_type.to_string(),
        at: at(0, 0),
        net: None,
    }
}

// ─── Names ────────────────────────────────────────────────────────────────

#[test]
fn decoupling_audit_uses_pin_type_not_powerish_substrings() {
    assert!(!is_power_pin(&test_pin("Vin+", "input")));
    assert!(!is_power_pin(&test_pin("SD_PWR_ON", "output")));
    assert!(!is_power_pin(&test_pin("nPI_LED_PWR", "output")));
    assert!(!is_power_pin(&test_pin("GND", "power_in")));
    assert!(is_power_pin(&test_pin("+5v_(Input)", "power_in")));
    assert!(is_power_pin(&test_pin("GPIO_VREF(1.8v/3.3v_Input)", "power_in")));
}

#[test]
fn generic_bulk_warning_is_limited_to_explicit_five_volt_and_higher_rails() {
    assert!(rail_requires_bulk_capacitance("+5V_SYS"));
    assert!(rail_requires_bulk_capacitance("+12V_PD"));
    assert!(rail_requires_bulk_capacitance("24V0_RAW"));
    assert!(!rail_requires_bulk_capacitance("+3V3_CM4"));
    assert!(!rail_requires_bulk_capacitance("+1V8"));
    assert!(!rail_requires_bulk_capacitance("VCC"));
    assert!(!rail_requires_bulk_capacitance("GPIO_VREF"));
}

#[test]
fn power_names_are_known_in_either_case() {
    assert!(is_power_pin_name("vdd"));
    assert!(is_power_net_name("+3v3"));
    assert!(!is_power_net_name("SDA"));
    let nets = collect_power_nets("(label \"+3V3\" (at 0 0 0)) (label \"SDA\" (at 0 0 0)) (label \"+3V3\" (at 1 0 0))");
    assert_eq!(nets, ["+3V3"]);
}

#[test]
fn power_symbols_name_their_nets() {
    let placed = r##"(symbol (lib_id "power:+3V3") (property "Reference" "#PWR01") (property "Value" "+3V3"))"##;
    assert_eq!(collect_power_nets(placed), ["+3V3"]);
    let sheet = r##"(kicad_sch
	(lib_symbols
		(symbol "power:VBUS" (property "Reference" "#PWR") (property "Value" "VBUS"))
	)
	(text "(symbol (property \"Reference\" \"#PWR9\") (property \"Value\" \"NO\"))")
	(symbol
		(lib_id "Device:R")
		(property "Reference" "R1")
		(property "Value" "10k")
	)
	(symbol
		(lib_id "power:PWR_FLAG")
		(property "Reference" "#FLG01")
		(property "Value" "PWR_FLAG")
	)
	(symbol
		(lib_id "power:GND")
		(property "Reference" "#PWR02")
		(property "Value" "GND")
	)
)"##;
    assert_eq!(collect_power_nets(sheet), ["GND"]);
}

// ─── Results of audits ────────────────────────────────────────────────────

#[test]
fn audit_errors_and_shape_mismatches_are_not_empty_successes() {
    assert!(extract_findings(&CallToolResult::error("boom")).is_err());
    assert!(extract_findings(&CallToolResult::text("{}"))
        .err()
        .unwrap()
        .contains("findings array"));
    assert!(extract_findings(&CallToolResult::text(r#"{"findings":["not an object"]}"#))
        .err()
        .unwrap()
        .contains("JSON objects"));
    let good = extract_findings(&CallToolResult::text(r#"{"findings":[{"issue":"x"}]}"#));
    assert_eq!(good.ok().unwrap()[0].get_text("issue").unwrap(), "x");
}

#[test]
fn an_audit_counts_what_was_asked_and_what_failed() {
    let mut audit = AuditAggregate::new("decoupling");
    let mut diagnostics = Vec::new();
    audit.record("a.kicad_sch", &AuditOutcome::Findings(vec![]), &mut diagnostics);
    audit.record("b.kicad_sch", &outcome_of(&Err("unreadable".to_string())), &mut diagnostics);
    let summary = audit.summary();
    assert_eq!((summary.requested, summary.completed, summary.failed), (2, 1, 1));
    assert_eq!(diagnostics.len(), 1);
    assert_eq!(diagnostics[0].source, "b.kicad_sch");
}

// ─── Reviews ──────────────────────────────────────────────────────────────

fn resistor(reference: &str, footprint: &str, pins: Option<Vec<PlacedPin>>) -> Symbol {
    Symbol {
        reference: reference.to_string(),
        value: "10k".to_string(),
        footprint: footprint.to_string(),
        lib_id: "Device:R".to_string(),
        library_symbol: "Device:R".to_string(),
        unit: 1,
        at: at(20, 20),
        definition_pins: 1,
        pins,
    }
}

fn one_pin() -> Option<Vec<PlacedPin>> {
    Some(vec![PlacedPin {
        number: "1".to_string(),
        name: "~".to_string(),
        electrical_type: "passive".to_string(),
        at: at(20, 20),
    }])
}

fn loaded(symbols: Vec<Symbol>, nets: &[&str]) -> Result<LoadedSheet, String> {
    let labels = nets
        .iter()
        .map(|n| Label { net: n.to_string(), at: at(20, 20), kind: "Label".to_string() })
        .collect();
    Ok(LoadedSheet {
        content: nets.iter().map(|n| format!("(label \"{n}\" (at 20 20 0))")).collect(),
        sheet: Sheet {
            wires: vec![],
            labels,
            junctions: vec![],
            no_connects: vec![],
            sheet_pins: vec![],
            symbols,
        },
    })
}

fn part(footprint: &str) -> Part {
    Part {
        reference: Some("R1".to_string()),
        value: Some("10k".to_string()),
        footprint: Some(footprint.to_string()),
        properties: vec![PartProperty { name: "MPN".to_string(), value: "RC0603".to_string() }],
    }
}

const FOOTPRINT: &str = "Resistor_SMD:R_0603_1608Metric";

fn clean(path: &str) -> SheetOutcome {
    review_sheet(
        path,
        &loaded(vec![resistor("R1", FOOTPRINT, one_pin())], &["SIG"]),
        &Ok(vec![part(FOOTPRINT)]),
    )
}

fn node(sheet: usize, path: &str, children: Vec<HierarchyNode>) -> HierarchyNode {
    HierarchyNode { sheet, path: path.to_string(), key: path.to_string(), error: None, children }
}

fn review(
    tree: HierarchyNode,
    sheets: Vec<SheetOutcome>,
    board: Option<BoardOutcome>,
) -> ReviewReport {
    let walk = collect_hierarchy_paths(&tree).unwrap();
    let input = ReviewInput { root: tree.path.clone(), walk, sheets, board };
    run_design_review(&input, "info")
}

fn alone(outcome: SheetOutcome, board: Option<BoardOutcome>) -> ReviewReport {
    review(node(0, "root.kicad_sch", vec![]), vec![outcome], board)
}

fn has(report: &ReviewReport, code: &str) -> bool {
    report.diagnostics.iter().any(|d| d.code == code)
}

#[test]
fn blank_schematic_is_incomplete_instead_of_looking_good() {
    let blank = review_sheet("root.kicad_sch", &loaded(vec![], &[]), &Ok(vec![]));
    let report = alone(blank, None);
    assert_eq!(report.status.name(), "partial");
    assert_eq!(
        report.verdict.words(),
        "INCOMPLETE — review could not evaluate the full design"
    );
    assert_eq!(report.coverage.symbol_instances, 0);
    assert!(has(&report, "zero_symbol_instances"));
    assert!(has(&report, "zero_named_nets"));
}

#[test]
fn hierarchical_child_is_included_in_coverage_and_audits() {
    let tree = node(0, "root.kicad_sch", vec![node(0, "power.kicad_sch", vec![])]);
    let child = review_sheet(
        "power.kicad_sch",
        &loaded(vec![resistor("R1", "", one_pin())], &["SIG"]),
        &Ok(vec![part("")]),
    );
    let root = review_sheet("root.kicad_sch", &loaded(vec![], &[]), &Ok(vec![]));
    let report = review(tree, vec![root, child], None);
    assert_eq!(report.coverage.sheet_instances, 2);
    assert_eq!(report.coverage.schematic_files, 2);
    assert_eq!(report.coverage.symbol_instances, 1);
    assert_ne!(report.verdict, Verdict::LooksGood);
    assert!(report
        .findings
        .iter()
        .any(|f| f.get_text("source").map(String::as_str) == Some("power.kicad_sch")));
}

#[test]
fn clean_single_sheet_can_still_look_good() {
    let report = alone(clean("root.kicad_sch"), None);
    assert_eq!(report.status.name(), "complete");
    assert_eq!(report.verdict.words(), "LOOKS GOOD — no critical issues found");
    assert_eq!(report.coverage.symbol_instances, 1);
    assert_eq!(report.coverage.named_nets, 1);
}

#[test]
fn multi_unit_symbol_is_fully_reviewed() {
    let mut dual = resistor("U1", "Package_DIP:DIP-8_W7.62mm", one_pin());
    dual.definition_pins = 2;
    let outcome = review_sheet(
        "root.kicad_sch",
        &loaded(vec![dual], &["SIG"]),
        &Ok(vec![part("Package_DIP:DIP-8_W7.62mm")]),
    );
    let report = alone(outcome, None);
    assert_eq!(report.status, ReviewStatus::Complete);
    assert_eq!(report.coverage.multi_unit_symbols, 1);
    assert!(!has(&report, "multi_unit_review_incomplete"));
}

#[test]
fn unresolved_library_symbol_is_reported_as_partial_coverage() {
    let outcome = review_sheet(
        "root.kicad_sch",
        &loaded(vec![resistor("R1", FOOTPRINT, None)], &["SIG"]),
        &Ok(vec![part(FOOTPRINT)]),
    );
    let report = alone(outcome, None);
    assert_eq!(report.status, ReviewStatus::Partial);
    assert_eq!(report.coverage.unresolved_symbols, 1);
    assert!(has(&report, "unresolved_library_symbol"));
}

#[test]
fn an_unreadable_sheet_fails_its_audits() {
    let outcome = review_sheet(
        "root.kicad_sch",
        &Err("no such file".to_string()),
        &Err("no such file".to_string()),
    );
    let report = alone(outcome, None);
    assert_eq!(report.status, ReviewStatus::Failed);
    assert_eq!(report.verdict, Verdict::Incomplete);
}

fn clean_drc() -> Result<DrcReport, String> {
    read_drc_report(r#"{"violations": [], "unconnected_items": [], "schematic_parity": []}"#)
}

fn board(footprints: usize, pads: usize, drc: Result<DrcReport, String>) -> Option<BoardOutcome> {
    Some(BoardOutcome {
        path: "board.kicad_pcb".to_string(),
        coverage: Ok(BoardReviewCoverage { footprints, pads, named_nets: 1 }),
        manufacturing: findings_outcome(&vec![]),
        drc,
    })
}

#[test]
fn supplied_board_with_zero_footprints_is_incomplete() {
    let report = alone(clean("root.kicad_sch"), board(0, 0, clean_drc()));
    assert_eq!(report.status, ReviewStatus::Partial);
    assert_eq!(report.board.unwrap().footprints, 0);
    assert!(has(&report, "zero_footprints"));
}

#[test]
fn a_board_review_without_drc_evidence_cannot_look_good() {
    let report = alone(clean("root.kicad_sch"), board(1, 2, Err("no kicad-cli".to_string())));
    assert_eq!(report.status, ReviewStatus::Partial);
    assert_eq!(
        report.verdict.words(),
        "INCOMPLETE — review could not evaluate the full design"
    );
    assert!(report.drc.is_none(), "no DRC ran, so no DRC summary");
    assert!(has(&report, "drc_unavailable"));
}

#[test]
fn a_schematic_only_review_does_not_need_drc() {
    let report = alone(clean("root.kicad_sch"), None);
    assert_eq!(report.status, ReviewStatus::Complete);
    assert!(!has(&report, "drc_unavailable"));
}

#[test]
fn a_board_with_pads_is_reviewed() {
    let report = alone(clean("root.kicad_sch"), board(1, 2, clean_drc()));
    assert_eq!(report.board.unwrap(), BoardReviewCoverage { footprints: 1, pads: 2, named_nets: 1 });
    assert!(!has(&report, "zero_pads"), "a board with pads must not be flagged as unread");
    assert_eq!(report.verdict, Verdict::LooksGood);
}

#[test]
fn a_board_whose_footprints_have_no_pads_cannot_be_reviewed() {
    let report = alone(clean("root.kicad_sch"), board(1, 0, clean_drc()));
    assert_eq!(report.board.unwrap().pads, 0);
    assert_eq!(report.status, ReviewStatus::Partial);
    assert_ne!(report.verdict, Verdict::LooksGood);
    assert!(has(&report, "zero_pads"));
}

#[test]
fn errors_of_the_design_rules_keep_a_board_back() {
    let drc = read_drc_report(
        r#"{"violations": [], "schematic_parity": [], "unconnected_items": [
            {"description": "Missing connection", "severity": "error", "type": "unconnected_items", "items": []}
        ]}"#,
    );
    let report = alone(clean("root.kicad_sch"), board(1, 2, drc));
    assert_eq!(report.verdict, Verdict::NotReady);
    assert_eq!(report.drc.unwrap().errors, 1);
}

#[test]
fn coverage_counts_symbols_and_nets() {
    let sheet = loaded(vec![resistor("R1", FOOTPRINT, one_pin())], &["SIG", "SIG"]).ok().unwrap();
    let coverage = inspect_schematic_coverage("s", &sheet.sheet);
    assert_eq!((coverage.symbol_instances, coverage.resolved_symbols), (1, 1));
    assert_eq!(coverage.named_nets, 1);
    assert!(coverage.diagnostics.is_empty());
}

// ─── Audits ───────────────────────────────────────────────────────────────

fn chip(net: &str) -> NetSymbol {
    let mut pin = test_pin("VCC", "power_in");
    pin.net = Some(net.to_string());
    NetSymbol {
        reference: "U1".to_string(),
        value: "MCU".to_string(),
        footprint: String::new(),
        lib_id: "MCU:X".to_string(),
        unit: 1,
        pins: Some(vec![pin]),
    }
}

fn capacitor(value: &str, net: &str) -> NetSymbol {
    let mut pin = test_pin("~", "passive");
    pin.net = Some(net.to_string());
    NetSymbol {
        reference: "C1".to_string(),
        value: value.to_string(),
        footprint: String::new(),
        lib_id: "Device:C".to_string(),
        unit: 1,
        pins: Some(vec![pin]),
    }
}

#[test]
fn a_supply_pin_wants_a_capacitor_on_its_net() {
    let bare = audit_decoupling(&vec![chip("+3V3")]);
    assert_eq!((bare.total_power_pins, bare.pass_count), (1, 0));
    assert_eq!(bare.findings.len(), 1);
    let decoupled = audit_decoupling(&vec![chip("+3V3"), capacitor("100n", "+3V3")]);
    assert_eq!((decoupled.total_power_pins, decoupled.pass_count), (1, 1));
    assert!(decoupled.findings.is_empty());
}

#[test]
fn a_bus_without_a_pull_up_is_found() {
    let on = |name: &str, net: &str| NetPin {
        net: Some(net.to_string()),
        ..test_pin(name, "bidirectional")
    };
    let mut mcu = chip("+3V3");
    mcu.pins = Some(vec![on("SDA", "SDA"), on("SCL", "SCL")]);
    let audit = audit_connections(&vec![mcu]);
    assert_eq!(audit.findings.len(), 2);
    assert_eq!(audit.findings[0].component.as_deref(), Some("U1"));
    assert_eq!(audit.findings[0].issue, "I2C SDA pin on U1 (net: SDA) has no pull-up resistor");
}

#[test]
fn a_five_volt_rail_wants_bulk_capacitance() {
    let content = "(label \"+5V\" (at 0 0 0))";
    let small = audit_power_rails(content, &vec![capacitor("100n", "+5V")]);
    assert!(small.findings.iter().any(|f| f.severity == Severity::Warning));
    let bulk = audit_power_rails(content, &vec![capacitor("10uF", "+5V")]);
    assert!(bulk.findings.len() < small.findings.len());
}

#[test]
fn ten_microfarads_are_bulk() {
    for value in [
        "10uF", "33 uF/25V", "47µF", "22μ", "1000U", "10.5uF", "10000nF", "C 100u 0805", "1mF",
        "0.01 mF", "4m7", "1F", "0.47F/5V", "0.00001F",
    ] {
        assert!(is_bulk_value(value), "{value}");
    }
    for value in [
        "9.9uF", "0.22uF", "4u7", "4,7uF", "100nF", "1000p", "10k", "10", "u10", "", "0.009mF",
        "0F", "100nF 10mm", "0.000009F",
    ] {
        assert!(!is_bulk_value(value), "{value}");
    }
}

#[test]
fn a_part_without_a_footprint_or_number_is_found() {
    let mut bare = part("");
    bare.reference = Some("U1".to_string());
    bare.properties.clear();
    let audit = check_bom_health(&vec![bare, part(FOOTPRINT)]);
    assert_eq!((audit.total_components, audit.missing_footprint, audit.missing_mpn), (2, 1, 1));
    assert_eq!(audit.missing_value, 0);
}

#[test]
fn crowded_footprints_and_missing_outlines_are_found() {
    let fp = |reference: &str, x: i64| PlacedFootprint {
        reference: reference.to_string(),
        at: Point { x, y: 0 },
    };
    assert_eq!(check_silkscreen_overlap(&vec![fp("R1", 0), fp("R2", 100_000)]).len(), 1);
    assert!(check_silkscreen_overlap(&vec![fp("R1", 0), fp("R2", 50_000_000)]).is_empty());
    assert_eq!(
        find_design_rule_text("(setup (min_trace_width 0.15 ))", "min_trace_width").as_deref(),
        Some("0.15")
    );
    let apart = |nm: i64| {
        let pair = vec![
            PlacedFootprint { reference: "A".to_string(), at: Point { x: 0, y: 0 } },
            PlacedFootprint { reference: "B".to_string(), at: Point { x: nm, y: 0 } },
        ];
        check_silkscreen_overlap(&pair)[0].issue.clone()
    };
    assert!(apart(125_000).contains("0.12mm"), "a half goes to the even hundredth");
    assert!(apart(375_000).contains("0.38mm"));
    assert!(apart(126_000).contains("0.13mm"));
    let facts = BoardFacts {
        content: "(kicad_pcb)".to_string(),
        layers: vec!["F.Cu".to_string(), "B.Cu".to_string()],
        footprints: vec![],
        has_setup: false,
        min_trace_width: None,
    };
    let audit = audit_manufacturing(&facts, "jlcpcb");
    assert_eq!((audit.front, audit.back), (1, 1));
    assert!(audit.findings.iter().any(|f| f.issue.contains("outline")));
}

#[test]
fn symbols_are_named_by_the_labels_on_their_pins() {
    let sheet = loaded(vec![resistor("R1", FOOTPRINT, one_pin())], &["SIG"]).ok().unwrap();
    let named = name_symbols(&sheet.sheet);
    assert_eq!(named[0].pins.as_ref().unwrap()[0].net.as_deref(), Some("SIG"));
}
