use konnect_core::autorouting::{
    accept_board, check_args, command_text, existing_file, export_args, import_args, log_tail,
    next_stage, parse_u64, plan_autoroute, resolve_freerouting, resolve_kicad_python, route_args,
    route_settings, run_files, Candidate, CommandEnd, RoutePlan, Stage, StageReport,
    EXPORT_DSN_SCRIPT, IMPORT_SES_SCRIPT,
};
use konnect_core::artifacts::FileStatus;
use konnect_core::board_edit::{
    add_layer, append_item, close_of_block, entry_indent, set_active_layer,
};
use konnect_core::board_gate::{
    attempt_ipc_write, refuse_if_board_open_in_kicad, BoardWrite, IpcFailure,
};
use konnect_core::board_info::{
    board_extents, board_title, measurable, paper_from_file, PlacedObject,
};
use konnect_core::board_items::{
    add_zone, escape, format_gr_arc, format_gr_line, format_gr_poly, format_gr_text,
    format_npth_footprint, format_outline, mounting_hole_pad, rect_outline_items,
    rounded_rectangle_outline, unknown_net_error, MountingHole, NetRef, OutlineItem, OutlinePrimitive, PointText, ZoneRequest,
};
use konnect_core::board_objects::{board_objects, footprint_facts};
use konnect_core::geometry::Point;
use konnect_core::json::{Entry, Json};
use konnect_core::live_update::{
    board_text_mirrored, board_text_size, check_request, copper_zone_settings, list_zones,
    plan_board_text_update, plan_zone_min_thickness, set_board_text_mirrored_value,
    set_board_text_uniform_size, set_copper_zone_min_thickness, verify_board_text_update,
    verify_zone_min_thickness, BoardText, BoardTextUpdate, BoardZone, CopperZoneSettings,
    FontSize, LiveText, LiveZone, TextAttributes, TextBody, UpdateStatus, ZoneSettings,
};
use konnect_core::manufacturing::count_nets_and_tracks;
use konnect_core::revision::sha256_text;
use konnect_core::sexp::SexpNode;

// ─── A reader of S-expressions ────────────────────────────────────────────

fn read_node(chars: &[char], at: &mut usize) -> SexpNode {
    while chars[*at].is_whitespace() {
        *at += 1;
    }
    if chars[*at] == '(' {
        *at += 1;
        let mut items = Vec::new();
        loop {
            while chars[*at].is_whitespace() {
                *at += 1;
            }
            if chars[*at] == ')' {
                *at += 1;
                return SexpNode::List(items);
            }
            items.push(read_node(chars, at));
        }
    }
    let mut text = String::new();
    if chars[*at] == '"' {
        *at += 1;
        while chars[*at] != '"' {
            if chars[*at] == '\\' {
                *at += 1;
            }
            text.push(chars[*at]);
            *at += 1;
        }
        *at += 1;
        return SexpNode::Str(text);
    }
    while !chars[*at].is_whitespace() && chars[*at] != '(' && chars[*at] != ')' {
        text.push(chars[*at]);
        *at += 1;
    }
    SexpNode::Atom(text)
}

fn parse(text: &str) -> SexpNode {
    let chars: Vec<char> = text.chars().collect();
    let mut at = 0;
    read_node(&chars, &mut at)
}

fn entry(name: &str, value: Json) -> Entry {
    Entry { name: name.to_string(), value }
}

fn number(n: &str) -> Json {
    Json::Number(n.to_string())
}

// ─── Autorouting ──────────────────────────────────────────────────────────

#[test]
fn bounded_integer_parser_rejects_out_of_range_values() {
    let low = Json::Object(vec![entry("passes", number("0"))]);
    assert!(parse_u64(&low, "passes", 40, 1, 200).is_err());
    let good = Json::Object(vec![entry("passes", number("12"))]);
    assert_eq!(parse_u64(&good, "passes", 40, 1, 200).unwrap(), 12);
    let none = Json::Object(vec![]);
    assert_eq!(parse_u64(&none, "passes", 40, 1, 200).unwrap(), 40);
    let high = Json::Object(vec![entry("passes", number("201"))]);
    assert_eq!(
        parse_u64(&high, "passes", 40, 1, 200).unwrap_err(),
        "Argument 'passes' must be between 1 and 200"
    );
    let fraction = Json::Object(vec![entry("passes", number("12.5"))]);
    assert_eq!(parse_u64(&fraction, "passes", 40, 1, 200).unwrap(), 40);
}

#[test]
fn python_readback_avoids_kicads_broken_swig_list_helpers() {
    assert!(!EXPORT_DSN_SCRIPT.contains("GetTracks"));
    assert!(!EXPORT_DSN_SCRIPT.contains("GetFootprints"));
    assert!(!IMPORT_SES_SCRIPT.contains("GetTracks"));
    assert!(!IMPORT_SES_SCRIPT.contains("GetFootprints"));
}

#[test]
fn digests_are_those_of_the_standard() {
    assert_eq!(
        sha256_text("abc"),
        "ba7816bf8f01cfea414140de5dae2223b00361a396177a9cb410ff61f20015ad"
    );
}

const PCB: &str = "(kicad_pcb (version 20260206))";

fn plan(args: Vec<Entry>) -> RoutePlan {
    plan_autoroute(
        &Json::Object(args),
        PCB,
        &parse(PCB),
        Ok("/usr/bin/python3".to_string()),
        Ok("/opt/freerouting".to_string()),
    )
}

#[test]
fn a_request_is_a_dry_run_unless_it_says_otherwise() {
    let RoutePlan::Preview(job) = plan(vec![]) else { panic!("expected a preview") };
    assert_eq!(job.board_sha256, sha256_text(PCB));
    assert_eq!(job.settings.max_passes, 40);
    assert_eq!(job.settings.threads, 4);
    assert_eq!(job.settings.timeout_seconds, 1800);
    assert_eq!(job.settings.copper_to_edge_clearance_um, 500);
    assert!(job.settings.strict_drc);
}

#[test]
fn an_apply_needs_the_digest_of_the_very_board() {
    let RoutePlan::Refused(e) = plan(vec![entry("dry_run", Json::Bool(false))]) else {
        panic!("expected a refusal")
    };
    assert_eq!(e, "dry_run=false requires expected_board_sha256 from a dry run");

    let RoutePlan::Refused(e) = plan(vec![
        entry("dry_run", Json::Bool(false)),
        entry("expected_board_sha256", Json::Text("0000".to_string())),
    ]) else {
        panic!("expected a refusal")
    };
    assert!(e.starts_with("Board revision changed: expected 0000, current "));
    assert!(e.ends_with("nothing was modified."));

    let RoutePlan::Approved(job) = plan(vec![
        entry("dry_run", Json::Bool(false)),
        entry("expected_board_sha256", Json::Text(sha256_text(PCB))),
    ]) else {
        panic!("expected an approval")
    };
    assert_eq!(job.kicad_python, "/usr/bin/python3");
}

#[test]
fn what_is_no_board_is_refused_before_anything_else() {
    let args = Json::Object(vec![entry("threads", number("65"))]);
    let other = parse("(kicad_sch)");
    let missing = || Err("no program".to_string());
    let RoutePlan::Refused(e) = plan_autoroute(&args, PCB, &other, missing(), missing()) else {
        panic!("expected a refusal")
    };
    assert_eq!(e, "The requested file is not one complete KiCad PCB document");
    let RoutePlan::Refused(e) = plan_autoroute(&args, PCB, &parse(PCB), missing(), missing()) else {
        panic!("expected a refusal")
    };
    assert_eq!(e, "Argument 'threads' must be between 0 and 64");
    let none = Json::Object(vec![]);
    let RoutePlan::Refused(e) = plan_autoroute(&none, PCB, &parse(PCB), missing(), missing()) else {
        panic!("expected a refusal")
    };
    assert_eq!(e, "no program");
    assert_eq!(
        accept_board("b.txt", Some("txt"), true).unwrap_err(),
        "board must end in .kicad_pcb"
    );
    assert_eq!(
        accept_board("b.kicad_pcb", Some("kicad_pcb"), false).unwrap_err(),
        "Board not found: b.kicad_pcb"
    );
    assert!(accept_board("b.kicad_pcb", Some("kicad_pcb"), true).is_ok());
}

#[test]
fn programs_are_where_the_caller_says_or_at_a_known_place() {
    assert_eq!(
        existing_file("/x", false, "KiCad Python").unwrap_err(),
        "KiCad Python was not found at /x"
    );
    assert_eq!(existing_file("/x", true, "KiCad Python").unwrap(), "/x");
    let place = |path: &str, is_file: bool| Candidate { path: path.to_string(), is_file };
    let known = vec![place("/a", false), place("/b", true), place("/c", true)];
    assert_eq!(resolve_kicad_python(&None, &known).unwrap(), "/b");
    assert_eq!(resolve_kicad_python(&Some(place("/z", true)), &known).unwrap(), "/z");
    assert!(resolve_freerouting(&Some(place("/z", false)), &known)
        .unwrap_err()
        .contains("was not found at /z"));
    assert!(resolve_freerouting(&None, &vec![]).unwrap_err().contains("pass freerouting_executable"));
}

#[test]
fn commands_carry_the_settings() {
    let settings = route_settings(&Json::Object(vec![
        entry("max_passes", number("7")),
        entry("strict_drc", Json::Bool(false)),
    ]))
    .unwrap();
    let args = route_args(&settings, "/r/b.dsn", "/r/b.ses", "/r/data");
    assert_eq!(
        args,
        [
            "--gui.enabled=false",
            "--api_server.enabled=false",
            "-da",
            "-de",
            "/r/b.dsn",
            "-do",
            "/r/b.ses",
            "-mp",
            "7",
            "-mt",
            "4",
            "--router.strict_drc=false",
            "--router.copper_to_edge_clearance_um=500",
            "--user_data_path=/r/data",
            "--logging.console.enabled=true",
            "--logging.console.level=INFO",
        ]
    );
    let args = check_args(&settings, "/r/b.dsn", "/r/b.ses", "/r/drc.json", "/r/data");
    assert_eq!(&args[4..7], ["/r/b.dsn+/r/b.ses", "-drc", "/r/drc.json"]);
    assert!(!args.contains(&"-do".to_string()));
    assert_eq!(export_args("/b", "/d"), ["-c", EXPORT_DSN_SCRIPT, "/b", "/d"]);
    assert_eq!(import_args("/b", "/s", "/r"), ["-c", IMPORT_SES_SCRIPT, "/b", "/s", "/r"]);
    assert_eq!(run_files(None).dsn, "board.dsn");
    assert_eq!(run_files(Some("x")).routed_board, "x.routed.kicad_pcb");
}

#[test]
fn outputs_and_logs_are_trimmed() {
    assert_eq!(command_text(b" out \n", b"\n"), "out");
    assert_eq!(command_text(b"out", b" err"), "out\nerr");
    let long: Vec<String> = (0..100).map(|i| format!("line {i}")).collect();
    let tail = log_tail(&long.join("\r\n"));
    assert!(tail.starts_with("line 20\nline 21\n"));
    assert!(tail.ends_with("\nline 99"));
    assert_eq!(log_tail("a\nb\n"), "a\nb");
}

#[test]
fn a_run_ends_at_the_first_stage_that_fails() {
    let good = |size: u64| StageReport::Command(CommandEnd::Succeeded, FileStatus::Size(size));
    assert_eq!(next_stage(Stage::Export, &good(3), 60).unwrap(), Stage::Route);
    assert_eq!(
        next_stage(Stage::Export, &good(0), 60).unwrap_err(),
        "KiCad reported success but produced no Specctra DSN"
    );
    assert_eq!(
        next_stage(
            Stage::Route,
            &StageReport::Command(CommandEnd::TimedOut, FileStatus::Missing),
            60
        )
        .unwrap_err(),
        "Freerouting timed out after 60 seconds"
    );
    assert_eq!(
        next_stage(
            Stage::Check,
            &StageReport::Command(CommandEnd::Failed("boom".to_string()), FileStatus::Missing),
            60
        )
        .unwrap_err(),
        "Freerouting DRC failed: boom"
    );
    assert_eq!(
        next_stage(Stage::Import, &StageReport::Routed(CommandEnd::Succeeded, true), 60).unwrap(),
        Stage::Replace
    );
    assert!(next_stage(Stage::Import, &StageReport::Routed(CommandEnd::Succeeded, false), 60)
        .is_err());
    assert_eq!(
        next_stage(Stage::Replace, &StageReport::Replaced(Err("changed".to_string())), 60)
            .unwrap_err(),
        "changed"
    );
    assert_eq!(
        next_stage(Stage::Replace, &StageReport::Replaced(Ok(())), 60).unwrap(),
        Stage::ReadBack
    );
    assert_eq!(next_stage(Stage::ReadBack, &StageReport::Read(true), 60).unwrap(), Stage::Done);
    assert!(next_stage(Stage::ReadBack, &StageReport::Read(false), 60).is_err());
}

// ─── Blocks and layers ────────────────────────────────────────────────────

const SPACES: &str =
    "(kicad_pcb\n  (layers\n    (0 \"F.Cu\" signal)\n    (2 \"B.Cu\" signal)\n  )\n)";
const TABS: &str =
    "(kicad_pcb\n\t(layers\n\t\t(0 \"F.Cu\" signal)\n\t\t(2 \"B.Cu\" signal)\n\t)\n)";

fn layers_close(content: &str) -> usize {
    close_of_block(content, content.find("(layers").unwrap()).unwrap()
}

#[test]
fn close_of_block_finds_the_same_close_under_either_indent() {
    for content in [SPACES, TABS] {
        let close = layers_close(content);
        assert_eq!(&content[close..close + 1], ")");
        assert!(content[..close].contains("B.Cu"));
    }
}

#[test]
fn close_of_block_is_not_the_first_paren_in_the_block() {
    let content = TABS;
    let start = content.find("(layers").unwrap();
    let first = start + content[start..].find(')').unwrap();
    assert_ne!(layers_close(content), first);
}

#[test]
fn close_of_block_ignores_parens_inside_strings() {
    let content = "(kicad_pcb\n\t(layers\n\t\t(0 \"F.Cu)(\" signal)\n\t)\n)";
    let close = layers_close(content);
    assert!(content[..close].contains("F.Cu)("));
}

#[test]
fn close_of_block_refuses_an_unbalanced_block() {
    assert_eq!(close_of_block("(layers\n\t(0 \"F.Cu\" signal)", 0), None);
}

#[test]
fn entry_indent_matches_the_file() {
    assert_eq!(
        entry_indent(SPACES, SPACES.find("(layers").unwrap()).as_deref(),
        Some("    ")
    );
    assert_eq!(entry_indent(TABS, TABS.find("(layers").unwrap()).as_deref(), Some("\t\t"));
}

#[test]
fn entry_indent_declines_an_empty_block_rather_than_guessing() {
    let empty = "(kicad_pcb\n\t(layers\n\t)\n)";
    assert_eq!(entry_indent(empty, empty.find("(layers").unwrap()), None);
}

#[test]
fn ids_in_use_are_seen_so_a_new_layer_does_not_collide() {
    let four_layer = "(kicad_pcb\n\t(layers\n\t\t(0 \"F.Cu\" signal)\n\t\t(1 \"In1.Cu\" signal)\n\t\t(2 \"B.Cu\" signal)\n\t)\n)";
    let added = add_layer(four_layer, "In2.Cu", "signal", true, &vec![0, 1, 2]).unwrap();
    assert_eq!(added.id, 3);
    assert_eq!(
        added.content,
        "(kicad_pcb\n\t(layers\n\t\t(0 \"F.Cu\" signal)\n\t\t(1 \"In1.Cu\" signal)\n\t\t(2 \"B.Cu\" signal)\n\t\t(3 \"In2.Cu\" signal)\n\t)\n)"
    );
}

#[test]
fn an_added_layer_stays_in_its_block_under_either_indent() {
    for content in [SPACES, TABS] {
        let added = add_layer(content, "In1.Cu", "signal", true, &vec![0, 2]).unwrap();
        let grown = added.content.len() - content.len();
        assert_eq!(layers_close(&added.content), layers_close(content) + grown);
        assert_eq!(added.content.find("(layers"), content.find("(layers"));
    }
}

#[test]
fn a_layer_that_cannot_be_added_is_refused() {
    let refused = |content: &str, canonical: bool, used: Vec<i32>| {
        add_layer(content, "TestLayer", "user", canonical, &used).err().unwrap()
    };
    assert!(refused(TABS, false, vec![]).starts_with("'TestLayer' is not a KiCAD layer name"));
    assert!(refused(TABS, false, vec![]).contains("(53 \"User.8\" user \"TestLayer\")"));
    assert_eq!(refused("(kicad_pcb)", true, vec![]), "No (layers) section found");
    assert_eq!(
        refused(TABS, true, (1..=30).collect()),
        "No free inner copper layer id: 1-30 are all in use"
    );
    assert_eq!(
        refused("(kicad_pcb (layers (0 \"F.Cu\" signal)", true, vec![]),
        "Unbalanced (layers) block; refusing to write"
    );
    let empty = add_layer("(layers\n)", "In1.Cu", "signal", true, &vec![]).unwrap();
    assert_eq!(empty.content, "(layers\n    (1 \"In1.Cu\" signal)\n)");
}

#[test]
fn the_active_layer_is_replaced_or_inserted() {
    let set = set_active_layer("(kicad_pcb\n  (setup\n    (x 1)\n  )\n)", "B.Cu");
    assert_eq!(set, "(kicad_pcb\n  (setup\n    (active_layer \"B.Cu\")\n    (x 1)\n  )\n)");
    assert_eq!(set_active_layer(&set, "B.Cu"), set);
    assert!(set_active_layer(&set, "F.Cu").contains("(active_layer \"F.Cu\")"));
    assert_eq!(
        set_active_layer("(kicad_pcb)", "F.Cu"),
        "(kicad_pcb\n    (active_layer \"F.Cu\"))"
    );
}

#[test]
fn items_are_appended_inside_the_document() {
    assert_eq!(append_item("(a\n)\n", "\n  (b)"), "(a\n\n  (b))\n");
    assert_eq!(append_item("", "(b)"), "(b)");
}

// ─── Live boards ──────────────────────────────────────────────────────────

#[test]
fn a_reachable_kicad_that_rejects_never_touches_the_file() {
    let attempt: Result<(), IpcFailure> = Err(IpcFailure::Rejected("read-only".to_string()));
    let BoardWrite::Refused(text) = attempt_ipc_write(attempt, "mounting hole") else {
        panic!("a rejection must not be reported as success")
    };
    assert!(text.contains("rejected the mounting hole") && text.contains("not modified"));
}

#[test]
fn an_unreachable_kicad_still_falls_back_to_the_board_file() {
    let attempt: Result<(), IpcFailure> = Err(IpcFailure::Unreachable(String::new()));
    assert!(matches!(attempt_ipc_write(attempt, "mounting hole"), BoardWrite::File));
    let point = |x: &str, y: &str| PointText { x: x.to_string(), y: y.to_string() };
    let hole = MountingHole {
        lib_id: "MountingHole:MountingHole_3.5mm".to_string(),
        at: point("5", "6"),
        drill: 3_450_000,
        reference: "H1".to_string(),
        footprint_uuid: "f".to_string(),
        reference_uuid: "r".to_string(),
        value_uuid: "v".to_string(),
        pad_uuid: "p".to_string(),
    };
    let updated = append_item("(kicad_pcb\n)\n", &format_npth_footprint(&hole));
    assert!(updated.contains("(pad \"\" np_thru_hole circle"), "{updated}");
    assert!(updated.contains("(drill 3.45)"), "{updated}");
    assert!(updated.contains("(size 3.95 3.95)"), "{updated}");
    assert!(updated.contains("(at 0 -4.95 0)"), "{updated}");
    assert!(updated.contains("\"H1\""), "{updated}");
    parse(&updated);
}

#[test]
fn mounting_hole_pad_is_an_unplated_hole_with_drill_and_annulus() {
    let pad = mounting_hole_pad(3_450_000);
    assert_eq!(pad.pad_type, "np_thru_hole");
    assert_eq!(pad.shape, "circle");
    assert_eq!(pad.drill_x, Some(3_450_000));
    assert_eq!(pad.drill_y, Some(3_450_000));
    assert!(!pad.drill_oval);
    assert_eq!(pad.size_x, 3_950_000);
    assert_eq!(pad.size_y, 3_950_000);
    assert_eq!(pad.layers, ["*.Cu", "*.Mask"]);
    assert_eq!(pad.x, 0);
    assert_eq!(pad.y, 0);
}

/// What becomes of a board whose KiCad answers with a refusal.
fn after_rejection(board: &str, what: &str, item: &str) -> (String, String) {
    let attempt: Result<(), IpcFailure> = Err(IpcFailure::Rejected("busy".to_string()));
    match attempt_ipc_write(attempt, what) {
        BoardWrite::Ipc(()) => panic!("a rejection must not be reported as success"),
        BoardWrite::File => (append_item(board, item), String::new()),
        BoardWrite::Refused(message) => (board.to_string(), message),
    }
}

const BLANK: &str = "(kicad_pcb\n\t(version 20260206)\n)\n";

#[test]
fn outline_on_a_rejecting_kicad_never_touches_the_file() {
    let (after, message) = after_rejection(BLANK, "board outline", "(gr_line)");
    assert!(message.contains("board file was not modified"), "{message}");
    assert_eq!(after, BLANK);
}

#[test]
fn board_text_on_a_rejecting_kicad_never_touches_the_file() {
    assert_eq!(after_rejection(BLANK, "board text", "(gr_text)").0, BLANK);
}

#[test]
fn set_board_size_on_a_rejecting_kicad_never_touches_the_file() {
    assert_eq!(after_rejection(BLANK, "board size", "(gr_line)").0, BLANK);
}

/// A board with the outline that falls back to the file, with arcs bent at
/// their corners.
fn outlined(radius: i64) -> String {
    let attempt: Result<(), IpcFailure> = Err(IpcFailure::Unreachable(String::new()));
    assert!(matches!(attempt_ipc_write(attempt, "board outline"), BoardWrite::File));
    let text = |p: &Point| at(&format!("{}", p.x / 1_000_000), &format!("{}", p.y / 1_000_000));
    let items: Vec<OutlineItem> = rounded_rectangle_outline(mm(10, 10), mm(30, 25), radius)
        .unwrap()
        .iter()
        .map(|p| match p {
            OutlinePrimitive::Line { start, end } => OutlineItem::Line {
                start: text(start),
                end: text(end),
                uuid: "u".to_string(),
            },
            OutlinePrimitive::Arc { start, corner, end } => OutlineItem::Arc {
                start: text(start),
                mid: text(corner),
                end: text(end),
                uuid: "u".to_string(),
            },
        })
        .collect();
    append_item(BLANK, &format_outline(&items, "Edge.Cuts", "0.05"))
}

#[test]
fn outline_on_an_unreachable_kicad_edits_the_file() {
    let updated = outlined(0);
    assert_eq!(updated.matches("Edge.Cuts").count(), 4, "expected four outline segments: {updated}");
}

#[test]
fn rounded_outline_file_fallback_writes_real_kicad_arcs() {
    let updated = outlined(3_000_000);
    assert_eq!(updated.matches("(gr_line").count(), 4, "{updated}");
    assert_eq!(updated.matches("(gr_arc").count(), 4, "{updated}");
    parse(&updated);
}

#[test]
fn an_offline_session_still_reads_the_file() {
    let board = parse("(kicad_pcb\n\t(version 20260206)\n\t(paper \"A3\")\n)\n");
    assert_eq!(count_nets_and_tracks(&board).0, 0);
    assert_eq!(board_title(&board).paper, "A3");
}

#[test]
fn import_svg_logo_file_fallback_places_polygon() {
    let square = vec![at("0", "0"), at("10", "0"), at("10", "10"), at("0", "10")];
    let updated = append_item(BLANK, &format_gr_poly(&square, "F.SilkS", "u"));
    assert!(updated.contains("(gr_poly"));
    assert!(updated.contains("(layer \"F.SilkS\")"));
    parse(&updated);
}

#[test]
fn an_applied_change_is_reported() {
    let attempt: Result<u8, IpcFailure> = Ok(7);
    assert!(matches!(attempt_ipc_write(attempt, "board text"), BoardWrite::Ipc(7)));
}

#[test]
fn a_board_that_kicad_holds_open_is_not_edited() {
    assert!(refuse_if_board_open_in_kicad(&Ok(()), "zone").unwrap().contains("a zone written"));
    let other = Err(IpcFailure::Rejected("another board".to_string()));
    assert!(refuse_if_board_open_in_kicad(&other, "zone").is_none());
}

// ─── Items ────────────────────────────────────────────────────────────────

fn at(x: &str, y: &str) -> PointText {
    PointText { x: x.to_string(), y: y.to_string() }
}

#[test]
fn format_gr_poly_contains_layer_fill_and_points() {
    let points = vec![at("0", "0"), at("1", "0"), at("1", "1")];
    let sexp = format_gr_poly(&points, "F.SilkS", "id");
    assert!(sexp.contains("(gr_poly"));
    assert!(sexp.contains("(fill solid)"));
    assert!(sexp.contains("(layer \"F.SilkS\")"));
    assert!(sexp.contains("(xy 1 0)"));
}

#[test]
fn texts_are_escaped() {
    assert_eq!(escape(r#"a "b" \c"#), r#"a \"b\" \\c"#);
    let sexp = format_gr_text("say \"hi\"", &at("1", "2"), "90", "F.SilkS", "1.5", "id");
    let SexpNode::List(items) = parse(&sexp) else { panic!("expected a list") };
    assert!(matches!(&items[1], SexpNode::Str(t) if t == "say \"hi\""));
}

#[test]
fn outlines_are_written_piece_by_piece() {
    let line = format_gr_line(&at("0", "0"), &at("10", "0"), "Edge.Cuts", "0.05", "a");
    assert_eq!(
        line,
        "\n  (gr_line\n    (start 0 0)\n    (end 10 0)\n    (stroke (width 0.05) (type solid))\n    (layer \"Edge.Cuts\")\n    (uuid \"a\")\n  )"
    );
    let arc = format_gr_arc(&at("0", "0"), &at("1", "1"), &at("2", "2"), "Edge.Cuts", "0.05", "b");
    assert!(arc.contains("(mid 1 1)"));
    let both = format_outline(
        &vec![
            OutlineItem::Line { start: at("0", "0"), end: at("10", "0"), uuid: "a".to_string() },
            OutlineItem::Arc {
                start: at("0", "0"),
                mid: at("1", "1"),
                end: at("2", "2"),
                uuid: "b".to_string(),
            },
        ],
        "Edge.Cuts",
        "0.05",
    );
    assert_eq!(both, format!("{line}{arc}"));
}

fn mm(x: i64, y: i64) -> Point {
    Point { x: x * 1_000_000, y: y * 1_000_000 }
}

fn endpoints(primitive: &OutlinePrimitive) -> (Point, Point) {
    match primitive {
        OutlinePrimitive::Line { start, end } | OutlinePrimitive::Arc { start, end, .. } => {
            (*start, *end)
        }
    }
}

#[test]
fn rounded_rectangle_is_a_closed_four_line_four_arc_path() {
    let outline = rounded_rectangle_outline(mm(10, 20), mm(50, 60), 5_000_000).unwrap();
    assert_eq!(
        outline.iter().filter(|item| matches!(item, OutlinePrimitive::Line { .. })).count(),
        4
    );
    assert_eq!(
        outline.iter().filter(|item| matches!(item, OutlinePrimitive::Arc { .. })).count(),
        4
    );
    for index in 0..outline.len() {
        let (_, end) = endpoints(&outline[index]);
        let (next_start, _) = endpoints(&outline[(index + 1) % outline.len()]);
        assert_eq!(end, next_start, "outline gap after primitive {index}");
    }
    let OutlinePrimitive::Arc { start, corner, end } = &outline[1] else {
        panic!("top-right primitive should be an arc");
    };
    assert_eq!(*start, mm(45, 20));
    assert_eq!(*end, mm(50, 25));
    assert_eq!(*corner, mm(50, 20));
    let center = (45.0_f64, 25.0_f64);
    let offset = 5.0 * (1.0 - std::f64::consts::FRAC_1_SQRT_2);
    let mid = (50.0 - offset, 20.0 + offset);
    let mid_radius = ((mid.0 - center.0).powi(2) + (mid.1 - center.1).powi(2)).sqrt();
    assert!((mid_radius - 5.0).abs() < 1e-9);
}

#[test]
fn capsule_outline_omits_zero_length_sides() {
    let outline = rounded_rectangle_outline(mm(0, 0), mm(30, 10), 5_000_000).unwrap();
    assert_eq!(
        outline.iter().filter(|item| matches!(item, OutlinePrimitive::Line { .. })).count(),
        2
    );
    assert_eq!(outline.len(), 6);
}

#[test]
fn corner_radius_cannot_overlap_itself() {
    let error = rounded_rectangle_outline(mm(0, 0), mm(20, 10), 5_100_000).unwrap_err();
    assert_eq!(error.0, "corner_radius");
    assert_eq!(error.1, "5.1 mm exceeds half the shorter side (5 mm)");
}

#[test]
fn outlines_without_an_area_are_refused() {
    assert_eq!(rounded_rectangle_outline(mm(1, 0), mm(1, 9), 0).unwrap_err().0, "x2");
    assert_eq!(rounded_rectangle_outline(mm(0, 9), mm(5, 9), 0).unwrap_err().0, "y2");
    assert_eq!(
        rounded_rectangle_outline(mm(0, 0), mm(5, 9), -1).unwrap_err(),
        ("corner_radius", "must be zero or greater".to_string())
    );
    assert_eq!(rounded_rectangle_outline(mm(5, 9), mm(0, 0), 0).unwrap().len(), 4);
}

// ─── Zones ────────────────────────────────────────────────────────────────

const KICAD_10: &str = "(kicad_pcb\n\t(version 20260206)\n\t(generator \"pcbnew\")\n\t(segment\n\t\t(start 10 10)\n\t\t(end 20 10)\n\t\t(width 0.2)\n\t\t(layer \"F.Cu\")\n\t\t(net \"GND\")\n\t)\n)\n";
const LEGACY: &str = "(kicad_pcb\n  (version 20240108)\n  (generator \"pcbnew\")\n  (net 0 \"\")\n  (net 7 \"GND\")\n  (segment (start 10 10) (end 20 10) (width 0.2) (layer \"F.Cu\") (net 7))\n)\n";

fn zone(board: &str, net: &str, layer: &str, thermal: bool, to: Option<NetRef>) -> Result<String, String> {
    let request = ZoneRequest {
        net_name: net.to_string(),
        layer: layer.to_string(),
        clearance: "0.2".to_string(),
        min_width: "0.25".to_string(),
        points: vec![at("0", "0"), at("10", "0"), at("10", "10")],
        thermal,
        uuid: "z".to_string(),
    };
    let closed = Err(IpcFailure::Unreachable(String::new()));
    add_zone(board, "board.kicad_pcb", &request, &closed, &to)
}

fn named() -> Option<NetRef> {
    Some(NetRef::Named("GND".to_string()))
}

fn declared() -> Option<NetRef> {
    Some(NetRef::Declared { id: "7".to_string(), name: "GND".to_string() })
}

#[test]
fn pcb_board_a_kicad_10_zone_references_the_net_by_name() {
    let after = zone(KICAD_10, "GND", "B.Cu", true, named()).unwrap();
    let z = &after[after.find("(zone").expect("zone written")..];
    assert!(z.contains("(net \"GND\")"), "{z}");
    assert!(!z.contains("(net 0)"), "{z}");
    assert!(!z.contains("net_name"), "{z}");
    assert!(z.contains("(layers \"B.Cu\")"), "{z}");
    assert!(z.contains("(fill yes (thermal_gap 0.5) (thermal_bridge_width 0.5))"), "{z}");
}

#[test]
fn pcb_board_a_legacy_zone_keeps_the_declared_id_and_net_name_pair() {
    let after = zone(LEGACY, "GND", "B.Cu", true, declared()).unwrap();
    let z = &after[after.find("(zone").unwrap()..];
    assert!(z.contains("(net 7) (net_name \"GND\")"), "{z}");
    assert!(z.contains("(layer \"B.Cu\")"), "{z}");
}

#[test]
fn pcb_board_an_undeclared_net_on_a_legacy_board_is_refused_not_zeroed() {
    assert!(zone(LEGACY, "PWR", "B.Cu", true, None).is_err());
}

#[test]
fn pcb_routing_a_kicad_10_zone_references_the_net_by_name() {
    let after = zone(KICAD_10, "GND", "F.Cu", false, named()).unwrap();
    let z = &after[after.find("(zone").expect("zone written")..];
    assert!(z.contains("(net \"GND\")"), "{z}");
    assert!(!z.contains("(net 0)"), "{z}");
    assert!(!z.contains("net_name"), "no net_name token in KiCad 10: {z}");
    assert!(z.contains("(layers \"F.Cu\")"), "plural layers: {z}");
    assert!(z.contains("(fill yes)"), "{z}");
    assert_eq!(count_nets_and_tracks(&parse(&after)).0, 1);
}

#[test]
fn pcb_routing_a_legacy_zone_keeps_the_declared_id_and_net_name_pair() {
    let after = zone(LEGACY, "GND", "F.Cu", false, declared()).unwrap();
    let z = &after[after.find("(zone").expect("zone written")..];
    assert!(z.contains("(net 7) (net_name \"GND\")"), "{z}");
    assert!(z.contains("(layer \"F.Cu\")"), "singular layer: {z}");
    parse(&after);
}

#[test]
fn pcb_routing_an_undeclared_net_on_a_legacy_board_is_refused_not_zeroed() {
    let error = zone(LEGACY, "PWR", "F.Cu", false, None).unwrap_err();
    assert!(error.contains("add_net"), "{error}");
    assert_eq!(error, unknown_net_error("PWR", "board.kicad_pcb"));
}

#[test]
fn a_zone_needs_points_and_a_closed_board() {
    let request = |n: usize| ZoneRequest {
        net_name: "GND".to_string(),
        layer: "F.Cu".to_string(),
        clearance: "0.2".to_string(),
        min_width: "0.2".to_string(),
        points: (0..n).map(|i| at(&i.to_string(), "0")).collect(),
        thermal: false,
        uuid: "z".to_string(),
    };
    assert_eq!(
        add_zone(LEGACY, "b", &request(2), &Ok(()), &declared()).unwrap_err(),
        "Zone requires at least 3 points"
    );
    assert!(add_zone(LEGACY, "b", &request(3), &Ok(()), &declared())
        .unwrap_err()
        .contains("a copper pour written"));
}

// ─── Live texts and zones ─────────────────────────────────────────────────

fn text(label: &str, width: i64, height: i64, mirrored: bool) -> BoardText {
    BoardText {
        id: Some("text-1".to_string()),
        text: Some(TextBody {
            text: label.to_string(),
            position: None,
            attributes: Some(TextAttributes {
                size: Some(FontSize { width, height }),
                stroke_width: Some(120_000),
                mirrored,
            }),
        }),
        layer: "F.SilkS".to_string(),
    }
}

#[test]
fn uniform_size_update_changes_only_the_size() {
    let mut text = text("REV A", 700_000, 700_000, true);
    let (previous, changed) = set_board_text_uniform_size(&mut text, 800_000);
    assert_eq!(previous, Some(FontSize { width: 700_000, height: 700_000 }));
    assert!(changed);
    assert_eq!(board_text_size(&text), Some(FontSize { width: 800_000, height: 800_000 }));
    let attributes = text.text.as_ref().unwrap().attributes.as_ref().unwrap();
    assert_eq!(attributes.stroke_width, Some(120_000));
    assert!(attributes.mirrored);

    let (_, repeated) = set_board_text_uniform_size(&mut text, 800_000);
    assert!(!repeated, "reapplying the same size must be a no-op");
}

#[test]
fn mirrored_update_changes_only_the_mirrored_flag() {
    let mut text = text("BACK", 700_000, 800_000, false);
    let before_size = board_text_size(&text);
    let (previous, changed) = set_board_text_mirrored_value(&mut text, true);
    assert!(!previous);
    assert!(changed);
    assert!(board_text_mirrored(&text));
    assert_eq!(board_text_size(&text), before_size);
    assert_eq!(
        text.text.as_ref().unwrap().attributes.as_ref().unwrap().stroke_width,
        Some(120_000)
    );

    let (_, repeated) = set_board_text_mirrored_value(&mut text, true);
    assert!(!repeated, "reapplying the same flag must be a no-op");
}

#[test]
fn a_bare_text_gets_a_size() {
    let mut bare = BoardText { id: None, text: None, layer: "F.SilkS".to_string() };
    assert_eq!(set_board_text_uniform_size(&mut bare, 5), (None, true));
    assert_eq!(board_text_size(&bare), Some(FontSize { width: 5, height: 5 }));
    assert!(!board_text_mirrored(&bare));
}

#[test]
fn a_text_update_is_shown_before_it_is_made() {
    let items = vec![LiveText { text: text("REV A", 700_000, 700_000, false), raw: vec![1, 2, 3] }];
    let size = BoardTextUpdate::UniformSize { size: 800_000, bits: 0.8_f64.to_bits() };
    let plan = |update: BoardTextUpdate, dry_run: bool, expected: Option<String>| {
        plan_board_text_update(&items, b"/b.kicad_pcb", "text-1", update, dry_run, &expected)
    };
    let shown = plan(size, true, None).ok().unwrap();
    assert_eq!(shown.status, UpdateStatus::Ready);
    assert_eq!(shown.revision.len(), 64);
    let made = plan(size, false, Some(shown.revision.clone())).ok().unwrap();
    assert_eq!(made.status, UpdateStatus::Apply);
    assert!(verify_board_text_update(&made.text, size).is_ok());
    assert_eq!(
        verify_board_text_update(&items[0].text, size).unwrap_err(),
        "KiCad accepted the board-text update but read back 0.7 x 0.7 mm instead of 0.8 x 0.8 mm; use Ctrl-Z and inspect the text"
    );
    let stale = plan(size, false, Some("0".repeat(64))).ok().unwrap();
    assert_eq!(stale.status, UpdateStatus::Conflict);
    let other = plan(BoardTextUpdate::Mirrored(true), true, None).ok().unwrap();
    assert_ne!(other.revision, shown.revision);
    let same = plan(BoardTextUpdate::Mirrored(false), false, None).ok().unwrap();
    assert_eq!(same.status, UpdateStatus::Noop);
    assert_eq!(size.tool_name(), "set_board_text_size");
    assert_eq!(size.operation(), "board text size");
    assert!(verify_board_text_update(&items[0].text, BoardTextUpdate::Mirrored(true))
        .unwrap_err()
        .contains("read back mirrored=false instead of mirrored=true"));
}

#[test]
fn an_update_needs_one_item_of_that_id() {
    let one = || LiveText { text: text("A", 1, 1, false), raw: vec![] };
    let mirror = BoardTextUpdate::Mirrored(true);
    let missing = plan_board_text_update(&vec![one()], b"", "other", mirror, true, &None);
    assert_eq!(missing.err().unwrap(), "board text UUID 'other' was not found");
    let twice = plan_board_text_update(&vec![one(), one()], b"", "text-1", mirror, true, &None);
    assert_eq!(twice.err().unwrap(), "board text UUID 'text-1' is not unique");
    assert_eq!(check_request("", true, &None).unwrap_err(), "Argument 'uuid' must not be empty");
    assert!(check_request("x", false, &None).unwrap_err().contains("current dry run"));
    assert!(check_request("x", true, &None).is_ok());
}

fn copper(id: &str, layer: &str) -> BoardZone {
    BoardZone {
        id: Some(id.to_string()),
        name: String::new(),
        layers: vec![layer.to_string()],
        settings: ZoneSettings::Copper(CopperZoneSettings {
            clearance: Some(200_000),
            min_thickness: Some(250_000),
            net: Some("GND".to_string()),
            island_mode: 2,
        }),
        priority: 7,
        filled: true,
        filled_layer_count: 1,
    }
}

#[test]
fn minimum_thickness_update_preserves_every_other_zone_setting() {
    let mut zone = copper("zone-1", "F.Cu");
    let (previous, changed) = set_copper_zone_min_thickness(&mut zone, 300_000).unwrap();
    assert_eq!(previous, Some(250_000));
    assert!(changed);
    let updated = copper_zone_settings(&zone).ok().unwrap();
    assert_eq!(updated.min_thickness, Some(300_000));
    assert_eq!(updated.clearance, Some(200_000));
    assert_eq!(updated.net.as_deref(), Some("GND"));
    assert_eq!(updated.island_mode, 2);
    assert_eq!(zone.priority, 7);
    assert_eq!(zone.layers, ["F.Cu"]);

    let (_, repeated) = set_copper_zone_min_thickness(&mut zone, 300_000).unwrap();
    assert!(!repeated, "the same minimum must be a no-op");
}

#[test]
fn a_rule_area_is_refused_instead_of_becoming_copper() {
    let mut zone = copper("zone-1", "F.Cu");
    zone.settings = ZoneSettings::RuleArea;
    assert!(set_copper_zone_min_thickness(&mut zone, 300_000)
        .unwrap_err()
        .contains("not a copper zone"));
    assert!(matches!(zone.settings, ZoneSettings::RuleArea));
}

#[test]
fn a_zone_update_is_shown_before_it_is_made() {
    let items = vec![LiveZone { zone: copper("zone-1", "F.Cu"), raw: vec![9] }];
    let bits = 0.3_f64.to_bits();
    let plan = |nm: i64, dry_run: bool, expected: Option<String>| {
        plan_zone_min_thickness(&items, b"/b", "zone-1", nm, bits, dry_run, &expected).ok().unwrap()
    };
    let shown = plan(300_000, true, None);
    assert_eq!((shown.status, shown.previous), (UpdateStatus::Ready, Some(250_000)));
    assert_eq!(plan(300_000, false, Some(shown.revision)).status, UpdateStatus::Apply);
    assert_eq!(plan(300_000, false, None).status, UpdateStatus::Conflict);
    assert_eq!(plan(250_000, true, None).status, UpdateStatus::Noop);
    assert!(verify_zone_min_thickness(&items[0].zone, 250_000).is_ok());
    assert!(verify_zone_min_thickness(&items[0].zone, 300_000)
        .unwrap_err()
        .contains("read back 0.25 mm instead of 0.3 mm"));
    let mut rule = copper("zone-1", "F.Cu");
    rule.settings = ZoneSettings::RuleArea;
    let refused = plan_zone_min_thickness(
        &vec![LiveZone { zone: rule, raw: vec![] }],
        b"/b",
        "zone-1",
        1,
        0,
        true,
        &None,
    );
    assert_eq!(refused.err().unwrap(), "zone is not a copper zone");
}

#[test]
fn zones_are_listed_by_id_and_layer() {
    let mut rule = copper("a", "F.Cu");
    rule.settings = ZoneSettings::Unset;
    let zones = vec![copper("c", "F.Cu"), copper("b", "B.Cu"), rule, copper("b", "F.Cu")];
    assert_eq!(list_zones(&zones, None), [1, 3, 0]);
    assert_eq!(list_zones(&zones, Some("F.Cu")), [3, 0]);
    assert!(list_zones(&zones, Some("In1.Cu")).is_empty());
}

// ─── Information ──────────────────────────────────────────────────────────

fn net_count_of(board: &str) -> usize {
    count_nets_and_tracks(&parse(board)).0
}

#[test]
fn a_kicad_10_board_with_no_net_table_still_counts_its_nets() {
    let board = "(kicad_pcb\n\
        \t(version 20260206)\n\
        \t(footprint \"R\"\n\t\t(pad \"1\" smd rect (at 0 0) (net \"GND\"))\n\
        \t\t(pad \"2\" smd rect (at 1 0) (net \"VCC\"))\n\t)\n\
        \t(segment (start 0 0) (end 1 0) (net \"GND\"))\n\
        )\n";
    assert_eq!(net_count_of(board), 2);
}

#[test]
fn a_kicad_9_board_counts_each_net_once() {
    let board = "(kicad_pcb\n\
        \t(version 20241229)\n\
        \t(net 0 \"\")\n\t(net 1 \"GND\")\n\t(net 2 \"VCC\")\n\
        \t(segment (start 0 0) (end 1 0) (net 1))\n\
        \t(via (at 1 0) (net 1))\n\
        )\n";
    assert_eq!(net_count_of(board), 2);
}

#[test]
fn a_board_with_only_the_unconnected_pseudo_net_counts_zero() {
    assert_eq!(net_count_of("(kicad_pcb\n  (version 20250610)\n  (net 0 \"\")\n)\n"), 0);
}

#[test]
fn a_title_block_is_read_field_by_field() {
    let board = parse(
        "(kicad_pcb (paper \"A3\") (title_block (title \"Amp\") (date \"2026-01-02\") (rev \"B\")))",
    );
    let title = board_title(&board);
    assert_eq!(
        (title.title.as_str(), title.date.as_str(), title.revision.as_str()),
        ("Amp", "2026-01-02", "B")
    );
    assert_eq!((title.company.as_str(), title.paper.as_str()), ("", "A3"));
    assert_eq!(paper_from_file(None), "A4");
    assert_eq!(paper_from_file(Some(&parse("(kicad_pcb)"))), "A4");
}

fn placed(circle: bool, points: Option<Vec<Point>>) -> PlacedObject {
    PlacedObject { circle, points }
}

#[test]
fn a_board_reaches_over_its_objects() {
    let objects = vec![
        placed(false, Some(vec![mm(1, 2), mm(-3, 9)])),
        placed(false, None),
        placed(false, Some(vec![mm(5, -1)])),
    ];
    let e = board_extents(&objects).unwrap();
    let m = 1_000_000;
    assert_eq!((e.x_min, e.y_min, e.x_max, e.y_max), (-3 * m, -m, 5 * m, 9 * m));
    assert!(board_extents(&vec![placed(false, None)]).is_none());
    let round = board_extents(&vec![placed(true, Some(vec![mm(10, 10), mm(13, 14)]))]).unwrap();
    assert_eq!((round.x_min, round.y_min, round.x_max, round.y_max), (5 * m, 5 * m, 15 * m, 15 * m));
    let far = placed(true, Some(vec![
        Point { x: i64::MIN, y: 0 },
        Point { x: i64::MAX, y: 0 },
    ]));
    assert!(!measurable(&far));
}

#[test]
fn the_objects_of_a_board_are_read_from_its_file() {
    let board = parse(
        "(kicad_pcb (version 1) (setup (aux_axis_origin 9 9)) \
         (footprint \"R\" (layer \"F.Cu\") (at 1 2 90) (property \"Reference\" \"R1\") \
         (pad \"1\" smd rect (at -1 0)) (fp_circle (center 0 0) (end 2 0))) \
         (gr_line (start 0 0) (end 5 0)) (gr_line (start 0 0)) \
         (gr_arc (start 1 0) (mid 2 1) (end 3 0)) (gr_circle (center 4 4) (end 6 4)) \
         (gr_poly (pts (xy 7 7) (xy 8 9))) (segment (start 1 1) (end 2 2) (net 1)) \
         (via (at 3 3) (size 1)) (gr_text \"T\" (at 0 -4)) \
         (zone (net 1) (polygon (pts (xy -1 0) (xy 20 30))) (filled_polygon (pts (xy 99 99)))) \
         (footprint \"X\" (at 4)))",
    );
    let objects = board_objects(&board);
    let pairs: Vec<Vec<(&str, &str)>> = objects
        .iter()
        .map(|o| o.pairs.iter().map(|(x, y)| (x.as_str(), y.as_str())).collect())
        .collect();
    assert_eq!(
        pairs,
        [
            vec![("1", "2")],
            vec![("0", "0"), ("5", "0")],
            vec![("1", "0"), ("2", "1"), ("3", "0")],
            vec![("4", "4"), ("6", "4")],
            vec![("7", "7"), ("8", "9")],
            vec![("1", "1"), ("2", "2")],
            vec![("3", "3")],
            vec![("0", "-4")],
            vec![("-1", "0"), ("20", "30")],
            vec![("-1", "0")],
            vec![("0", "0"), ("2", "0")],
        ]
    );
    assert_eq!(objects.iter().filter(|o| o.circle).count(), 2);
    assert_eq!(objects.iter().filter(|o| o.frame.is_some()).count(), 2);
    let frame = objects[9].frame.as_ref().unwrap();
    assert_eq!((frame.x.as_str(), frame.y.as_str()), ("1", "2"));
    assert_eq!(frame.rotation.as_deref(), Some("90"));
    let facts = footprint_facts(&board);
    assert_eq!(facts.len(), 2);
    assert_eq!(facts[0].reference.as_deref(), Some("R1"));
    assert_eq!(facts[0].layer.as_deref(), Some("F.Cu"));
    assert_eq!((facts[0].x.as_deref(), facts[0].y.as_deref()), (Some("1"), Some("2")));
    assert_eq!((facts[1].reference.as_deref(), facts[1].y.as_deref()), (None, None));
}

#[test]
fn a_rectangle_has_four_sides() {
    let sides = rect_outline_items(mm(0, 0), mm(3, 2));
    assert_eq!(sides.len(), 4);
    assert!(matches!(sides[0], OutlinePrimitive::Line { start, end } if start == mm(0, 0) && end == mm(3, 0)));
    assert!(matches!(sides[3], OutlinePrimitive::Line { start, end } if start == mm(0, 2) && end == mm(0, 0)));
}
