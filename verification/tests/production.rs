use konnect_core::cost::{
    estimate_board_dimensions, estimate_cost, outline_lines, priced_layers, Estimate, OutlineSpan,
};
use konnect_core::dfm::Length;
use konnect_core::geometry::Point;
use konnect_core::json::{Entry, Json};
use konnect_core::manufacturing::{
    assemble_package, count_copper_layers, count_nets_and_tracks, invalid_manufacturing_argument,
    validate_for_manufacturing, validate_package_positions, Artifact, AssemblyInput, PackageInput,
    Readiness, ReadinessInput,
};
use konnect_core::netclasses::{
    assign_net_to_class, create_netclass, load_project_settings, project_settings_path, Assignment,
    NetclassChange, NetclassValues,
};
use konnect_core::pcb_export::{
    choose_layers, invalid_export_argument, optional_string_array, standard_gerber_layers,
    validate_bom_format, validate_position_values, BoardLayer,
};
use konnect_core::pcb_routing::{
    add_net, find_pad_place, greatest_net_id, route_between, AddedNet, TrackPiece,
};
use konnect_core::reports::{read_drc_report, DrcReport};
use konnect_core::sexp::SexpNode;

fn read_node(chars: &[char], at: &mut usize) -> SexpNode {
    while chars[*at].is_whitespace() {
        *at += 1;
    }
    if chars[*at] == '(' {
        *at += 1;
        let mut items = Vec::new();
        loop {
            while chars[*at].is_whitespace() {
                *at += 1;
            }
            if chars[*at] == ')' {
                *at += 1;
                return SexpNode::List(items);
            }
            items.push(read_node(chars, at));
        }
    }
    let mut text = String::new();
    if chars[*at] == '"' {
        *at += 1;
        while chars[*at] != '"' {
            text.push(chars[*at]);
            *at += 1;
        }
        *at += 1;
        return SexpNode::Str(text);
    }
    while !chars[*at].is_whitespace() && chars[*at] != '(' && chars[*at] != ')' {
        text.push(chars[*at]);
        *at += 1;
    }
    SexpNode::Atom(text)
}

fn parse(text: &str) -> SexpNode {
    let chars: Vec<char> = text.chars().collect();
    let mut at = 0;
    read_node(&chars, &mut at)
}

// ─── Nets and tracks ──────────────────────────────────────────────────────

const KICAD_10_BOARD: &str = "(kicad_pcb\n\
    \t(version 20260206)\n\
    \t(generator \"pcbnew\")\n\
    \t(segment\n\t\t(start 110 110)\n\t\t(end 120 110)\n\t\t(width 0.2)\n\t\t(layer \"F.Cu\")\n\t\t(net \"GND\")\n\t)\n\
    \t(segment\n\t\t(start 120 110)\n\t\t(end 130 120)\n\t\t(width 0.2)\n\t\t(layer \"F.Cu\")\n\t\t(net \"GND\")\n\t)\n\
    \t(via\n\t\t(at 130 120)\n\t\t(size 0.6)\n\t\t(drill 0.3)\n\t\t(net \"GND\")\n\t)\n\
    \t(segment\n\t\t(start 110 130)\n\t\t(end 120 130)\n\t\t(width 0.2)\n\t\t(layer \"B.Cu\")\n\t\t(net \"VCC\")\n\t)\n\
    )\n";

const KICAD_9_BOARD: &str = "(kicad_pcb\n\
    \t(version 20241229)\n\
    \t(net 0 \"\")\n\
    \t(net 1 \"GND\")\n\
    \t(net 2 \"VCC\")\n\
    \t(segment (start 110 110) (end 120 110) (width 0.2) (layer \"F.Cu\") (net 1))\n\
    \t(segment (start 120 110) (end 130 120) (width 0.2) (layer \"F.Cu\") (net 1))\n\
    \t(via (at 130 120) (size 0.6) (drill 0.3) (layers \"F.Cu\" \"B.Cu\") (net 1))\n\
    \t(segment (start 110 130) (end 120 130) (width 0.2) (layer \"B.Cu\") (net 2))\n\
    )\n";

#[test]
fn counts_a_kicad_10_board_with_no_top_level_net_table() {
    assert_eq!(count_nets_and_tracks(&parse(KICAD_10_BOARD)), (2, 4));
}

#[test]
fn counts_a_kicad_9_board_without_double_counting_declarations() {
    assert_eq!(count_nets_and_tracks(&parse(KICAD_9_BOARD)), (2, 4));
}

#[test]
fn the_unconnected_pseudo_net_does_not_count() {
    assert_eq!(count_nets_and_tracks(&parse("(kicad_pcb\n\t(net 0 \"\")\n)\n")), (0, 0));
}

#[test]
fn zone_outline_arcs_are_not_routed_copper() {
    let board = "(kicad_pcb\n\
        \t(zone\n\t\t(net \"GND\")\n\t\t(polygon\n\t\t\t(pts\n\t\t\t\t(xy 0 0)\n\t\t\t\t(arc (start 1 0) (mid 2 1) (end 1 2))\n\t\t\t)\n\t\t)\n\t)\n\
        )\n";
    assert_eq!(count_nets_and_tracks(&parse(board)), (1, 0));
}

#[test]
fn numbered_references_count_where_nothing_is_named() {
    let board = "(kicad_pcb (segment (net 3)) (segment (net 3)) (via (net 4)) (via (net 0)))";
    assert_eq!(count_nets_and_tracks(&parse(board)), (2, 4));
}

// ─── Readiness ────────────────────────────────────────────────────────────

fn clean_drc() -> DrcReport {
    read_drc_report(r#"{"violations": [], "unconnected_items": [], "schematic_parity": []}"#)
        .unwrap()
}

fn input(board: &str, footprints: usize, drc: Result<DrcReport, String>) -> ReadinessInput {
    let (nets, tracks) = count_nets_and_tracks(&parse(board));
    ReadinessInput {
        content: board.to_string(),
        footprints,
        nets,
        tracks,
        min_trace_width: None,
        drc,
    }
}

#[test]
fn a_routed_kicad_10_board_reports_its_nets_and_tracks() {
    let board = input(KICAD_10_BOARD, 0, Err(String::new()));
    assert_eq!(board.nets, 2);
    assert_eq!(board.tracks, 4);
}

#[test]
fn an_unrouted_kicad_10_board_is_flagged_not_ready() {
    let board = "(kicad_pcb\n\
        \t(version 20260206)\n\
        \t(gr_line (start 0 0) (end 10 0) (layer \"Edge.Cuts\"))\n\
        \t(footprint \"R:R_0402\"\n\
        \t\t(pad \"1\" smd rect (at 0 0) (size 1 1) (net \"GND\"))\n\
        \t\t(pad \"2\" smd rect (at 1 0) (size 1 1) (net \"VCC\"))\n\
        \t)\n\
        \t(footprint \"R:R_0402\"\n\
        \t\t(pad \"1\" smd rect (at 5 0) (size 1 1) (net \"SDA\"))\n\
        \t\t(pad \"2\" smd rect (at 6 0) (size 1 1) (net \"SCL\"))\n\
        \t)\n\
        )\n";
    let board = input(board, 2, Ok(clean_drc()));
    assert_eq!((board.nets, board.tracks), (4, 0));
    let report = validate_for_manufacturing(&board, "jlcpcb");
    assert_eq!(report.verdict.words(), "NOT READY");
    assert_eq!(report.issues.len(), 1);
    assert_eq!(report.issues[0].issue, "4 nets defined but no traces routed");
}

const CLEAN_LOOKING_BOARD: &str = "(kicad_pcb\n\
    \t(version 20260206)\n\
    \t(generator \"pcbnew\")\n\
    \t(layers\n\t\t(0 \"F.Cu\" signal)\n\t\t(31 \"B.Cu\" signal)\n\t)\n\
    \t(gr_line (start 0 0) (end 50 0) (layer \"Edge.Cuts\") (width 0.1))\n\
    \t(footprint \"R:R_0402\"\n\
    \t\t(pad \"1\" smd rect (at 5 0) (size 1 1) (net \"SDA\"))\n\
    \t)\n\
    \t(segment (start 0 0) (end 5 0) (width 0.25) (layer \"F.Cu\") (net \"SDA\"))\n\
    )\n";

#[test]
fn readiness_needs_drc_evidence_not_just_an_absence_of_findings() {
    let board = input(CLEAN_LOOKING_BOARD, 1, Err("no kicad-cli".to_string()));
    let report = validate_for_manufacturing(&board, "jlcpcb");
    assert_ne!(report.verdict, Readiness::Ready);
    assert!(report.issues.iter().any(|i| i.issue.contains("DRC could not run")));

    let report = validate_for_manufacturing(&input(CLEAN_LOOKING_BOARD, 1, Ok(clean_drc())), "jlcpcb");
    assert_eq!(report.verdict, Readiness::Ready);
    assert_eq!(report.summary, "READY: 0 issues found. 1 footprints, 2 copper layers.");
}

#[test]
fn every_shortcoming_of_a_board_is_an_issue() {
    let drc = read_drc_report(
        r#"{"violations": [
            {"description": "Clearance", "type": "clearance", "severity": "error", "items": []},
            {"description": "Silk", "type": "silk_overlap", "severity": "warning", "items": []}
        ], "unconnected_items": []}"#,
    )
    .unwrap();
    let mut board = input("(kicad_pcb)", 0, Ok(drc));
    board.min_trace_width = Some(Length { nm: 50_000, shown: "0.05".to_string() });
    let report = validate_for_manufacturing(&board, "jlcpcb");
    let issues: Vec<&str> = report.issues.iter().map(|i| i.issue.as_str()).collect();
    assert_eq!(issues.len(), 5);
    assert_eq!(issues[0], "No board outline found on Edge.Cuts layer");
    assert_eq!(issues[1], "No footprints found on the board");
    assert!(issues[2].starts_with("Trace width 0.05mm is below jlcpcb's minimum ("));
    assert_eq!(issues[3], "DRC [clearance]: Clearance");
    assert_eq!(issues[4], "kicad-cli did not report DRC 'schematic_parity'");
    assert_eq!(count_copper_layers("(0 \"F.Cu\" signal) (2 \"B.Cu\" signal \"back\")"), 2);
}

// ─── Packages ─────────────────────────────────────────────────────────────

fn artifact(relative: &str) -> Artifact {
    Artifact { path: format!("/out/{relative}"), relative: relative.to_string() }
}

#[test]
fn package_is_an_error_when_cli_success_produces_no_artifacts() {
    let package = PackageInput {
        fab_house: "jlcpcb".to_string(),
        output_dir: "/out".to_string(),
        gerbers: Err("produced 0 plots".to_string()),
        drills: Err("produced no .drl files".to_string()),
        assembly: None,
    };
    let report = assemble_package(&package);
    assert!(!report.complete);
    assert!(report.files.is_empty());
    assert!(report.warnings.len() >= 2);
    assert!(report.next_steps.starts_with("Do not upload"));
}

#[test]
fn a_package_lists_its_files_once_and_in_order() {
    let package = PackageInput {
        fab_house: "jlcpcb".to_string(),
        output_dir: "/out".to_string(),
        gerbers: Ok(vec![artifact("gerbers\\b.gtl"), artifact("gerbers/a.gbl")]),
        drills: Ok(vec![artifact("gerbers/b.gtl"), artifact("gerbers/h.drl")]),
        assembly: Some(AssemblyInput {
            positions: Ok(artifact("positions.csv")),
            bom: Some(Ok(artifact("bom.csv"))),
        }),
    };
    let report = assemble_package(&package);
    assert!(report.complete);
    assert_eq!(
        report.files,
        ["bom.csv", "gerbers/a.gbl", "gerbers/b.gtl", "gerbers/h.drl", "positions.csv"]
    );
    assert_eq!(
        report.summary,
        "Complete package for JLCPCB. 5 verified non-empty files. No warnings."
    );
    assert!(report.next_steps.starts_with("Upload the contents of /out to JLCPCB's order page."));
}

#[test]
fn a_package_for_assembly_needs_a_bom() {
    let package = PackageInput {
        fab_house: "ßhop".to_string(),
        output_dir: "/out".to_string(),
        gerbers: Ok(vec![]),
        drills: Ok(vec![]),
        assembly: Some(AssemblyInput { positions: Err("failed".to_string()), bom: None }),
    };
    let report = assemble_package(&package);
    assert!(!report.complete);
    assert_eq!(report.warnings[0], "Position file export failed: failed");
    assert!(report.warnings[1].starts_with("No schematic provided"));
    assert_eq!(
        report.summary,
        "INCOMPLETE package for SSHOP. 0 verified non-empty files. 2 warnings."
    );
}

#[test]
fn package_arguments_are_named_as_the_package_names_them() {
    let error = validate_package_positions("sideways", "mm").err().unwrap();
    assert_eq!(error.field, "position_side");
    let error = validate_package_positions("both", "ell").err().unwrap();
    assert_eq!(error.field, "position_units");
    assert!(validate_package_positions("both", "mm").is_ok());
    let error = invalid_manufacturing_argument("fab_house", "unknown");
    assert_eq!(error.message, "Argument 'fab_house' is invalid: unknown");
}

// ─── Prices ───────────────────────────────────────────────────────────────

#[test]
fn prices_follow_layers_quantity_and_parts() {
    assert_eq!(
        estimate_cost("jlcpcb", 2, 10, 100),
        Estimate { pcb: 4_000, assembly: 11_000, components: 50_000 }
    );
    assert_eq!(
        estimate_cost("jlcpcb", 6, 5, 0),
        Estimate { pcb: 15_000, assembly: 0, components: 0 }
    );
    assert_eq!(
        estimate_cost("pcbway", 4, 6, 10),
        Estimate { pcb: 14_000, assembly: 300, components: 4_800 }
    );
    assert_eq!(
        estimate_cost("elsewhere", 2, 5, 10),
        Estimate { pcb: 20_000, assembly: 0, components: 0 }
    );
    assert_eq!(priced_layers(None, "(kicad_pcb)"), 2);
    assert_eq!(priced_layers(None, "signal) signal) signal) signal)"), 4);
    assert_eq!(priced_layers(Some(1), "signal)"), 1);
}

#[test]
fn the_outline_gives_the_size() {
    let board = "(gr_line (start 0 0) (end 50 0) (layer \"Edge.Cuts\"))\n(gr_line (start 1 2) (end 3 4) (layer \"F.SilkS\"))\n(gr_line (start 50 0.5) (layer \"Edge.Cuts\"))\n";
    let lines = outline_lines(board);
    assert_eq!(lines.len(), 2);
    assert_eq!(lines[0].start, Some(("0".to_string(), "0".to_string())));
    assert_eq!(lines[0].end, Some(("50".to_string(), "0".to_string())));
    assert_eq!(lines[1].start, Some(("50".to_string(), "0.5".to_string())));
    assert_eq!(lines[1].end, None);

    let at = |x: i64, y: i64| Some(Point { x, y });
    let spans = vec![
        OutlineSpan { start: at(0, 0), end: at(50, 0) },
        OutlineSpan { start: at(50, -7), end: None },
    ];
    assert_eq!(estimate_board_dimensions(&spans), (50, 7));
    assert_eq!(
        estimate_board_dimensions(&vec![OutlineSpan { start: None, end: at(3, 4) }]),
        (0, 0)
    );
}

#[test]
fn the_outline_may_be_written_over_several_rows() {
    let board = "(kicad_pcb\n  (gr_line\n    (start 0 0)\n    (end 50 0)\n    (layer \"Edge.Cuts\")\n  )\n  (gr_line\n    (start 50 0)\n    (end 50 30)\n    (layer \"Edge.Cuts\")\n  )\n)";
    let lines = outline_lines(board);
    assert_eq!(lines.len(), 2);
    let point = |words: &Option<(String, String)>| {
        words.as_ref().map(|(x, y)| Point { x: x.parse().unwrap(), y: y.parse().unwrap() })
    };
    let spans: Vec<OutlineSpan> = lines
        .iter()
        .map(|l| OutlineSpan { start: point(&l.start), end: point(&l.end) })
        .collect();
    assert_eq!(estimate_board_dimensions(&spans), (50, 30));
}

// ─── Export arguments ─────────────────────────────────────────────────────

fn layer(name: &str, copper: bool) -> BoardLayer {
    BoardLayer { name: name.to_string(), copper }
}

#[test]
fn default_gerbers_include_only_manufacturing_layers() {
    let layers = vec![
        layer("F.Cu", true),
        layer("B.Cu", true),
        layer("F.Adhes", false),
        layer("B.Adhes", false),
        layer("F.Paste", false),
        layer("B.Paste", false),
        layer("F.SilkS", false),
        layer("B.SilkS", false),
        layer("F.Mask", false),
        layer("B.Mask", false),
        layer("Dwgs.User", false),
        layer("Cmts.User", false),
        layer("Edge.Cuts", false),
        layer("Margin", false),
        layer("F.CrtYd", false),
        layer("F.Fab", false),
    ];
    assert_eq!(
        standard_gerber_layers(&layers).unwrap(),
        ["F.Cu", "B.Cu", "F.SilkS", "B.SilkS", "F.Mask", "B.Mask", "Edge.Cuts"]
    );
    assert!(standard_gerber_layers(&vec![layer("Margin", false)]).is_err());
    assert_eq!(choose_layers(vec!["F.Fab".to_string()], &layers).unwrap(), ["F.Fab"]);
    assert_eq!(choose_layers(vec![], &layers).unwrap().len(), 7);
}

#[test]
fn malformed_layer_items_name_their_index() {
    let args = Json::Object(vec![Entry {
        name: "layers".to_string(),
        value: Json::Array(vec![Json::Text("F.Cu".to_string()), Json::Number("7".to_string())]),
    }]);
    let error = optional_string_array(&args, "layers").err().expect("numeric layer must be rejected");
    assert_eq!(error.field, "layers[1]");
    assert!(optional_string_array(&Json::Object(vec![]), "layers").ok().unwrap().is_empty());
}

#[test]
fn impossible_gerber_side_is_rejected_before_running_kicad() {
    let (field, _) = validate_position_values("gerber", "both", "mm").unwrap_err();
    assert_eq!(field, "side");
    assert!(validate_position_values("gerber", "front", "mm").is_ok());
    assert!(validate_position_values("csv", "both", "mm").is_ok());
}

#[test]
fn export_bom_rejects_a_format_kicad_cannot_produce() {
    let error = validate_bom_format("xlsx").err().unwrap();
    assert_eq!(error.field, "format");
    assert_eq!(error.reason, "only 'csv' is supported, got 'xlsx'");
    assert!(validate_bom_format("csv").is_ok());
    assert_eq!(invalid_export_argument("a", "b").message, "Argument 'a' is invalid: b");
}

// ─── Nets ─────────────────────────────────────────────────────────────────

fn add(board: &str, names_in_place: bool) -> Result<AddedNet, String> {
    add_net(board, &parse(board), names_in_place, "NEWNET")
}

#[test]
fn a_kicad_10_board_is_refused_rather_than_silently_edited() {
    let board = "(kicad_pcb\n\t(version 20260206)\n\
        \t(segment (start 0 0) (end 1 0) (net \"GND\"))\n)\n";
    let msg = add(board, true).err().expect("must fail closed");
    assert!(msg.contains("KiCad 10"), "{msg}");
    assert!(msg.contains("route_trace"), "must point somewhere: {msg}");
}

#[test]
fn a_blank_board_that_names_nets_in_place_is_refused() {
    let board = "(kicad_pcb\n\t(version 20260306)\n\t(generator \"pcbnew\")\n)\n";
    assert!(add(board, true).is_err());
}

#[test]
fn a_legacy_board_still_gets_its_net() {
    let board = "(kicad_pcb\n  (version 20241229)\n  (net 0 \"\")\n  (net 1 \"GND\")\n)\n";
    let added = add(board, false).ok().unwrap();
    assert!(added.content.contains("(net 2 \"NEWNET\")"), "{}", added.content);
}

#[test]
fn the_next_id_is_one_past_the_highest_not_a_count_of_occurrences() {
    let board = "(kicad_pcb\n  (version 20241229)\n  (net 0 \"\")\n  (net 1 \"GND\")\n  \
        (net 7 \"VCC\")\n  (segment (start 0 0) (end 1 0) (net 7))\n  \
        (segment (start 1 0) (end 2 0) (net 7))\n)\n";
    let added = add(board, false).ok().unwrap();
    assert!(added.content.contains("(net 8 \"NEWNET\")"), "{}", added.content);
    assert_eq!(added.id, 8);
    assert_eq!(greatest_net_id(&parse(board)), Some(7));
}

#[test]
fn a_board_that_declares_the_empty_net_alone_gets_its_first_one() {
    let board = "(kicad_pcb\n  (version 20250610)\n  (net 0 \"\")\n)\n";
    let added = add(board, false).ok().unwrap();
    assert!(added.content.contains("(net 1 \"NEWNET\")"), "{}", added.content);
}

#[test]
fn pads_are_found_by_reference_and_number() {
    let board = parse(
        "(kicad_pcb (footprint \"R\" (at 10 20 90) (property \"Reference\" \"R1\") \
         (pad \"1\" smd rect (at 1.5 0)) (pad \"2\" smd rect)))",
    );
    let place = find_pad_place(&board, "R1", "1").ok().unwrap();
    assert_eq!(place.footprint_x.as_deref(), Some("10"));
    assert_eq!(place.rotation.as_deref(), Some("90"));
    assert_eq!(place.local_x.as_deref(), Some("1.5"));
    let error = |reference: &str, pad: &str| find_pad_place(&board, reference, pad).err().unwrap();
    assert_eq!(error("R2", "1"), "Footprint 'R2' not found on board");
    assert_eq!(error("R1", "3"), "Pad '3' not found on 'R1'");
    assert_eq!(error("R1", "2"), "Pad has no (at) node");
}

#[test]
fn tracks_bend_once_unless_the_pads_are_in_line() {
    let p = |x: i64, y: i64| Point { x, y };
    assert_eq!(
        route_between(p(0, 0), p(1_000_000, 9_999)),
        [TrackPiece { start: p(0, 0), end: p(1_000_000, 9_999) }]
    );
    assert_eq!(
        route_between(p(0, 0), p(50_000, 10_000)),
        [
            TrackPiece { start: p(0, 0), end: p(50_000, 0) },
            TrackPiece { start: p(50_000, 0), end: p(50_000, 10_000) },
        ]
    );
}

// ─── Net classes ──────────────────────────────────────────────────────────

const PROJECT: &str = r#"{
    "board": { "design_settings": {} },
    "meta": { "filename": "demo.kicad_pro", "version": 3 }
}"#;

fn project() -> Json {
    load_project_settings("demo.kicad_pro", &Some(PROJECT.to_string())).ok().unwrap()
}

fn values(clearance: Option<&str>, trace_width: Option<&str>) -> NetclassValues {
    NetclassValues {
        clearance: clearance.map(String::from),
        trace_width: trace_width.map(String::from),
        via_drill: None,
        via_diameter: None,
    }
}

fn create(settings: &Json, name: &str, v: NetclassValues) -> NetclassChange {
    create_netclass(settings, "demo.kicad_pro", name, &v).ok().unwrap()
}

fn field<'a>(class: &'a Json, name: &str) -> &'a str {
    match class.get(name) {
        Some(Json::Number(t)) | Some(Json::Text(t)) => t,
        _ => panic!("no {name}"),
    }
}

fn classes(settings: &Json) -> &Vec<Json> {
    settings.get("net_settings").unwrap().get_items("classes").unwrap()
}

fn patterns(settings: &Json) -> &Vec<Json> {
    settings.get("net_settings").unwrap().get_items("netclass_patterns").unwrap()
}

#[test]
fn create_netclass_writes_the_project_file_and_leaves_the_board_alone() {
    let made = create(&project(), "HV", values(Some("0.5"), Some("0.3")));
    let hv = &classes(&made.settings)[0];
    assert_eq!(field(hv, "name"), "HV");
    assert_eq!(field(hv, "clearance"), "0.5");
    assert_eq!(field(hv, "track_width"), "0.3");
    assert_eq!(field(hv, "via_diameter"), "0.8");
    assert_eq!(field(hv, "via_drill"), "0.4");
    assert_eq!(
        made.settings.get("meta").unwrap().get_text("filename").unwrap(),
        "demo.kicad_pro"
    );
    assert!(!made.updated && made.changed);
}

#[test]
fn create_netclass_without_a_project_file_refuses_and_writes_nothing() {
    let error = load_project_settings("demo.kicad_pro", &None).err().unwrap();
    assert!(error.contains("kicad_pro"), "{error}");
    let error = load_project_settings("demo.kicad_pro", &Some("{".to_string())).err().unwrap();
    assert!(error.starts_with("demo.kicad_pro is not valid JSON: "), "{error}");
    assert_eq!(project_settings_path("/p/demo.kicad_pcb"), "/p/demo.kicad_pro");
    assert_eq!(project_settings_path("...kicad_pcb"), "...kicad_pro");
}

#[test]
fn create_netclass_updates_an_existing_class_in_place() {
    let first = create(&project(), "HV", values(Some("0.3"), None));
    let second = create(&first.settings, "HV", values(Some("0.6"), None));
    let list = classes(&second.settings);
    assert_eq!(list.len(), 1);
    assert_eq!(field(&list[0], "clearance"), "0.6");
    assert!(second.updated);
}

#[test]
fn create_netclass_leaves_settings_the_caller_did_not_name_alone() {
    let tuned = NetclassValues {
        clearance: Some("1.5".to_string()),
        trace_width: Some("0.5".to_string()),
        via_drill: Some("0.45".to_string()),
        via_diameter: Some("0.85".to_string()),
    };
    let first = create(&project(), "HV", tuned);
    let second = create(&first.settings, "HV", values(None, Some("0.9")));
    let hv = &classes(&second.settings)[0];
    assert_eq!(field(hv, "track_width"), "0.9", "the named value changes");
    assert_eq!(field(hv, "clearance"), "1.5");
    assert_eq!(field(hv, "via_drill"), "0.45");
    assert_eq!(field(hv, "via_diameter"), "0.85");
    assert_eq!(field(&second.stored, "clearance"), "1.5");
    assert_eq!(field(&second.stored, "track_width"), "0.9");
}

#[test]
fn a_call_that_changes_nothing_leaves_the_project_file_untouched() {
    let first = create(&project(), "HV", values(Some("1.5"), None));
    let read = create(&first.settings, "HV", values(None, None));
    assert!(!read.changed && read.updated);
    assert_eq!(field(&read.stored, "clearance"), "1.5");
    assert!(!create(&first.settings, "HV", values(Some("1.5"), None)).changed);
    assert!(create(&first.settings, "HV", values(Some("0.9"), None)).changed);
}

#[test]
fn a_new_class_is_still_created_with_the_documented_defaults() {
    let made = create(&project(), "HV", values(None, None));
    let hv = &classes(&made.settings)[0];
    assert_eq!(field(hv, "clearance"), "0.2");
    assert_eq!(field(hv, "track_width"), "0.25");
    assert_eq!(field(hv, "via_drill"), "0.4");
    assert_eq!(field(hv, "via_diameter"), "0.8");
}

#[test]
fn assign_net_adds_a_pattern_once_and_can_move_it() {
    let hv = create(&project(), "HV", values(None, None)).settings;
    let both = create(&hv, "LV", values(None, None)).settings;
    let assign = |settings: &Json, class: &str| {
        assign_net_to_class(settings, "demo.kicad_pro", "GND", class).ok().unwrap()
    };
    let Assignment::Assigned { settings, previous } = assign(&both, "HV") else {
        panic!("expected an assignment")
    };
    assert_eq!(previous, None);
    assert_eq!(patterns(&settings).len(), 1);
    assert_eq!(field(&patterns(&settings)[0], "netclass"), "HV");
    assert_eq!(field(&patterns(&settings)[0], "pattern"), "GND");

    assert!(matches!(assign(&settings, "HV"), Assignment::Already));

    let Assignment::Assigned { settings, previous } = assign(&settings, "LV") else {
        panic!("expected an assignment")
    };
    assert_eq!(previous.as_deref(), Some("HV"));
    assert_eq!(patterns(&settings).len(), 1);
    assert_eq!(field(&patterns(&settings)[0], "netclass"), "LV");
}

#[test]
fn assign_net_to_a_missing_class_errors_naming_the_available_ones() {
    let hv = create(&project(), "HV", values(None, None)).settings;
    let msg = assign_net_to_class(&hv, "demo.kicad_pro", "GND", "NOPE").err().unwrap();
    assert!(msg.contains("HV"), "{msg}");
    let none = assign_net_to_class(&project(), "demo.kicad_pro", "GND", "NOPE").err().unwrap();
    assert!(none.contains("available: (none)"), "{none}");
}

#[test]
fn settings_of_another_shape_are_refused() {
    let load = |t: &str| load_project_settings("p", &Some(t.to_string())).ok().unwrap();
    let error = |t: &str| create_netclass(&load(t), "p", "HV", &values(None, None)).err().unwrap();
    assert_eq!(error("[]"), "p: top level is not a JSON object");
    assert_eq!(error(r#"{"net_settings": 3}"#), "p: net_settings is not an object");
    assert_eq!(
        error(r#"{"net_settings": {"classes": 3}}"#),
        "p: net_settings.classes is not an array"
    );
    let odd = load(r#"{"net_settings": {"classes": [{"name": "HV"}], "netclass_patterns": 3}}"#);
    assert_eq!(
        assign_net_to_class(&odd, "p", "GND", "HV").err().unwrap(),
        "p: net_settings.netclass_patterns is not an array"
    );
}
