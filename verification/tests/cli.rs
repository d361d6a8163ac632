use konnect_core::artifacts::{
    drill_files_in, gerber_outputs, verify_drill_files, verify_dxf_files, verify_nonempty_file,
    DirFile, FileStatus,
};
use konnect_core::cli::{
    bom_args, cli_failure_diagnostics, drc_args, drill_args, drill_output_dir_arg, dxf_args,
    erc_args, exit_failure, export_3d_args, gerber_args, ipc2581_args, netlist_args, odb_args,
    plain_export_args, position_args, render_args, schematic_pdf_args, schematic_svg_args,
    single_file_pcb_export_args, BomOptions, SchematicPdfOptions, SchematicSvgOptions,
};
use konnect_core::json::{Entry, Json};
use konnect_core::pcb_export::filter_violations;
use konnect_core::reports::{
    parse_drc_report, parse_erc_json, read_drc_report, read_erc_report, DrcReport,
};

// ─── Schematic export ─────────────────────────────────────────────────────

#[test]
fn svg_theme_and_monochrome_flags_reach_kicad() {
    let options = SchematicSvgOptions { black_and_white: true, theme: Some("Solarized Dark") };
    let args = schematic_svg_args("/out", "/tmp/design.kicad_sch", &options);
    assert!(args.contains(&"--black-and-white"));
    let theme = args
        .iter()
        .position(|argument| *argument == "--theme")
        .map(|index| args[index + 1]);
    assert_eq!(theme, Some("Solarized Dark"));
    assert_eq!(args.last().copied(), Some("/tmp/design.kicad_sch"));
}

#[test]
fn pdf_can_limit_the_export_to_the_root_sheet() {
    let options = SchematicPdfOptions { black_and_white: true, all_sheets: false };
    let args = schematic_pdf_args("/out/design.pdf", "/tmp/design.kicad_sch", &options);
    assert!(args.contains(&"--black-and-white"));
    let pages = args
        .iter()
        .position(|argument| *argument == "--pages")
        .map(|index| args[index + 1]);
    assert_eq!(pages, Some("1"));
}

#[test]
fn schematic_defaults_leave_kicad_theme_and_page_selection_alone() {
    let svg_options = SchematicSvgOptions::default();
    let svg = schematic_svg_args("/out", "/tmp/design.kicad_sch", &svg_options);
    assert!(!svg.contains(&"--black-and-white"));
    assert!(!svg.contains(&"--theme"));

    let pdf_options = SchematicPdfOptions::default();
    let pdf = schematic_pdf_args("/out/design.pdf", "/tmp/design.kicad_sch", &pdf_options);
    assert!(!pdf.contains(&"--black-and-white"));
    assert!(!pdf.contains(&"--pages"));
}

#[test]
fn netlist_formats_have_friendly_names() {
    let args = netlist_args("/out/n.net", "/s.kicad_sch", "KiCad");
    assert_eq!(
        args,
        ["sch", "export", "netlist", "--output", "/out/n.net", "--format", "kicadsexpr", "/s.kicad_sch"]
    );
    assert_eq!(netlist_args("o", "s", "XML")[6], "kicadxml");
    assert_eq!(netlist_args("o", "s", "orcad")[6], "orcadpcb2");
    assert_eq!(netlist_args("o", "s", "Éclair")[6], "éclair");
}

// ─── Models ───────────────────────────────────────────────────────────────

#[test]
fn unspecified_models_are_excluded_by_default() {
    let args = export_3d_args("/tmp/board.kicad_pcb", "/out/board.step", "step", false).unwrap();
    assert!(args.contains(&"--no-unspecified"));
}

#[test]
fn including_unspecified_models_omits_the_exclusion_flag() {
    let args = export_3d_args("/tmp/board.kicad_pcb", "/out/board.wrl", "vrml", true).unwrap();
    assert!(!args.contains(&"--no-unspecified"));
}

#[test]
fn unknown_model_formats_are_refused() {
    assert!(export_3d_args("/tmp/board.kicad_pcb", "/out/board.obj", "obj", true).is_err());
    assert!(export_3d_args("/tmp/board.kicad_pcb", "/out/board.stp", "STP", true).is_ok());
}

// ─── Plots ────────────────────────────────────────────────────────────────

#[test]
fn layers_are_one_comma_separated_argument_for_kicad_10() {
    let args = single_file_pcb_export_args(
        "svg",
        "/out/board.svg",
        &["F.Cu", "F.Paste", "F.SilkS", "Edge.Cuts"],
        false,
        "/tmp/board.kicad_pcb",
    );
    assert_eq!(args.iter().filter(|arg| *arg == "--layers").count(), 1);
    let layers = args
        .iter()
        .position(|arg| arg == "--layers")
        .map(|index| args[index + 1].as_str());
    assert_eq!(layers, Some("F.Cu,F.Paste,F.SilkS,Edge.Cuts"));
}

#[test]
fn file_output_uses_single_mode_and_empty_layers_are_omitted() {
    let args =
        single_file_pcb_export_args("pdf", "/out/board.pdf", &[], false, "/tmp/board.kicad_pcb");
    assert!(args.iter().any(|arg| arg == "--mode-single"));
    assert!(!args.iter().any(|arg| arg == "--layers"));
    assert_eq!(args.last().map(String::as_str), Some("/tmp/board.kicad_pcb"));
}

#[test]
fn black_and_white_reaches_both_single_file_plotters() {
    for format in ["pdf", "svg"] {
        let args = single_file_pcb_export_args(
            format,
            "/out/board.plot",
            &["F.Cu"],
            true,
            "/tmp/board.kicad_pcb",
        );
        assert!(args.iter().any(|argument| argument == "--black-and-white"));
    }
}

#[test]
fn cli_failures_include_stdout_and_stderr_diagnostics() {
    assert_eq!(
        cli_failure_diagnostics(b"Duplicate argument --layers\n", b""),
        "stdout:\nDuplicate argument --layers"
    );
    assert_eq!(
        cli_failure_diagnostics(b"usage text", b"fatal detail"),
        "stdout:\nusage text\nstderr:\nfatal detail"
    );
    assert_eq!(cli_failure_diagnostics(b"", b""), "no diagnostic output");
}

#[test]
fn exit_codes_come_with_the_diagnostics() {
    assert_eq!(
        exit_failure(Some(3), b"", b"fatal \xff"),
        "kicad-cli exited with 3:\nstderr:\nfatal \u{fffd}"
    );
    assert_eq!(exit_failure(None, b"", b""), "kicad-cli exited with -1:\nno diagnostic output");
}

#[test]
fn pcb_pdf_uses_one_csv_layer_argument_and_one_file_mode() {
    let args = single_file_pcb_export_args(
        "pdf",
        "/out/board.pdf",
        &["F.Cu", "B.Cu", "F.SilkS", "B.SilkS", "Edge.Cuts"],
        false,
        "/tmp/board.kicad_pcb",
    );
    assert_eq!(args.iter().filter(|argument| argument.as_str() == "--layers").count(), 1);
    let layers = args
        .iter()
        .position(|argument| argument == "--layers")
        .map(|index| args[index + 1].as_str());
    assert_eq!(layers, Some("F.Cu,B.Cu,F.SilkS,B.SilkS,Edge.Cuts"));
    assert!(args.iter().any(|argument| argument == "--mode-single"));
    assert_eq!(args.last().map(String::as_str), Some("/tmp/board.kicad_pcb"));
}

#[test]
fn requested_layers_reach_kicad_as_one_csv_argument() {
    let args = gerber_args(
        "/out/gerbers",
        "/tmp/board.kicad_pcb",
        "F.Cu,In1.Cu,B.Cu,F.Mask,B.Mask,Edge.Cuts",
    );
    let layers = args
        .iter()
        .position(|argument| *argument == "--layers")
        .map(|index| args[index + 1]);
    assert_eq!(layers, Some("F.Cu,In1.Cu,B.Cu,F.Mask,B.Mask,Edge.Cuts"));
    assert_eq!(args.last().copied(), Some("/tmp/board.kicad_pcb"));
}

#[test]
fn empty_layer_selection_keeps_the_flag_absent() {
    let args = gerber_args("/out", "/tmp/board.kicad_pcb", "");
    assert!(!args.contains(&"--layers"));
}

fn flag<'a>(args: &'a [&str], name: &str) -> Option<&'a str> {
    args.iter().position(|argument| *argument == name).map(|index| args[index + 1])
}

#[test]
fn csv_units_and_side_reach_kicad_cli() {
    let args = position_args("/out/positions.csv", "/tmp/board.kicad_pcb", "csv", "mm", "back");
    assert_eq!(flag(&args, "--format"), Some("csv"));
    assert_eq!(flag(&args, "--units"), Some("mm"));
    assert_eq!(flag(&args, "--side"), Some("back"));
    assert_eq!(args.last().copied(), Some("/tmp/board.kicad_pcb"));
}

#[test]
fn gerber_position_export_does_not_claim_a_units_flag() {
    let args =
        position_args("/out/positions.gbr", "/tmp/board.kicad_pcb", "gerber", "mm", "front");
    assert_eq!(flag(&args, "--format"), Some("gerber"));
    assert_eq!(flag(&args, "--side"), Some("front"));
    assert_eq!(flag(&args, "--units"), None);
}

#[test]
fn drill_export_separates_plated_from_non_plated_holes() {
    let args = drill_args("/out/gerbers", "/tmp/board.kicad_pcb");
    assert!(args.contains(&"--excellon-separate-th"), "NPTH holes need their own file: {args:?}");
}

#[test]
fn drill_export_output_is_the_directory_it_was_given() {
    let args = drill_args("/out/gerbers", "/tmp/board.kicad_pcb");
    let output =
        args.iter().position(|a| *a == "--output").map(|i| args[i + 1]).expect("--output");
    assert_eq!(output, "/out/gerbers");
    assert_eq!(args.last().copied(), Some("/tmp/board.kicad_pcb"));
}

#[test]
fn drill_output_directory_argument_ends_in_a_separator() {
    let sep = std::path::MAIN_SEPARATOR;
    assert_eq!(drill_output_dir_arg("/out/gerbers"), format!("/out/gerbers{sep}"));
}

#[test]
fn drill_output_directory_argument_is_idempotent_and_skips_empty() {
    assert_eq!(drill_output_dir_arg("/out/gerbers/"), "/out/gerbers/");
    assert_eq!(drill_output_dir_arg(r"C:\out\gerbers\"), r"C:\out\gerbers\");
    assert_eq!(drill_output_dir_arg(""), "");
}

#[test]
fn requested_fields_and_labels_reach_kicad_cli() {
    let options = BomOptions {
        fields: Some("Reference,Value,Footprint,MPN,${QUANTITY}"),
        labels: Some("Refs,Value,Footprint,MPN,Qty"),
        group_by: Some("Value,Footprint"),
        exclude_dnp: false,
    };
    let args = bom_args("/out/bom.csv", "/tmp/board.kicad_sch", &options);
    let flag = |name: &str| {
        args.iter()
            .position(|a| *a == name)
            .map(|i| args[i + 1])
            .unwrap_or_else(|| panic!("{name} missing from {args:?}"))
    };
    assert_eq!(flag("--fields"), "Reference,Value,Footprint,MPN,${QUANTITY}");
    assert_eq!(flag("--labels"), "Refs,Value,Footprint,MPN,Qty");
    assert_eq!(flag("--group-by"), "Value,Footprint");
    assert_eq!(flag("--output"), "/out/bom.csv");
    assert_eq!(args.last().copied(), Some("/tmp/board.kicad_sch"));
}

#[test]
fn exclude_dnp_is_passed_only_when_asked_for() {
    let on = BomOptions { exclude_dnp: true, ..Default::default() };
    assert!(bom_args("/out/bom.csv", "/s.kicad_sch", &on).contains(&"--exclude-dnp"));

    let off = BomOptions::default();
    assert!(!bom_args("/out/bom.csv", "/s.kicad_sch", &off).contains(&"--exclude-dnp"));
}

#[test]
fn default_options_are_the_bare_kicad_cli_invocation() {
    let args = bom_args("/out/bom.csv", "/s.kicad_sch", &BomOptions::default());
    assert_eq!(args, ["sch", "export", "bom", "--output", "/out/bom.csv", "/s.kicad_sch"]);
}

#[test]
fn plain_exports_name_their_format_output_and_board() {
    assert_eq!(
        plain_export_args("gencad", "/o.cad", "/b.kicad_pcb"),
        ["pcb", "export", "gencad", "--output", "/o.cad", "/b.kicad_pcb"]
    );
    assert_eq!(
        dxf_args("/out", "/b.kicad_pcb", "F.Cu"),
        ["pcb", "export", "dxf", "--output", "/out", "--layers", "F.Cu", "--mode-multi", "/b.kicad_pcb"]
    );
    assert_eq!(flag(&ipc2581_args("/o.xml", "/b.kicad_pcb", "mm", true), "--units"), Some("mm"));
    assert_eq!(flag(&odb_args("/o.zip", "/b.kicad_pcb", "mm", "zip"), "--units"), Some("mm"));
    let render = render_args("/o.png", "/b.kicad_pcb", 800, 600);
    assert!(render.contains(&"800".to_string()) && render.contains(&"600".to_string()));
}

#[test]
fn rule_checks_report_in_json() {
    assert_eq!(flag(&erc_args("/o.json", "/s.kicad_sch"), "--format"), Some("json"));
    assert!(drc_args("/o.json", "/b.kicad_pcb", true).contains(&"--refill-zones"));
    assert!(!drc_args("/o.json", "/b.kicad_pcb", false).contains(&"--refill-zones"));
}

// ─── Design rules reports ─────────────────────────────────────────────────

fn report() -> DrcReport {
    read_drc_report(
        r#"{
        "source": "ecc83-pp.kicad_pcb",
        "violations": [
            {
                "description": "Silkscreen overlap",
                "items": [
                    { "description": "Text of U1", "pos": { "x": 122.5, "y": 96.7 }, "uuid": "b6" },
                    { "description": "Pad 1 of R1", "pos": { "x": 121.9, "y": 96.1 }, "uuid": "c7" }
                ],
                "severity": "warning",
                "type": "silk_overlap"
            },
            {
                "description": "Library footprint differs",
                "items": [
                    { "description": "Footprint U1", "pos": { "x": 120.0, "y": 90.0 }, "uuid": "d8" }
                ],
                "severity": "warning",
                "type": "lib_footprint_mismatch"
            }
        ],
        "unconnected_items": [
            {
                "description": "Missing connection between items",
                "items": [
                    { "description": "Pad 1 [GND] of C1", "pos": { "x": 100.0, "y": 80.0 }, "uuid": "e9" }
                ],
                "severity": "error",
                "type": "unconnected_items"
            },
            {
                "description": "Missing connection between items",
                "items": [
                    { "description": "Pad 2 [GND] of C2", "pos": { "x": 101.0, "y": 80.0 }, "uuid": "f0" }
                ],
                "severity": "error",
                "type": "unconnected_items"
            }
        ],
        "schematic_parity": []
    }"#,
    )
    .unwrap()
}

#[test]
fn unconnected_items_are_part_of_the_result() {
    let report = report();
    assert_eq!(report.violations.len(), 2);
    assert_eq!(report.unconnected_items.as_ref().unwrap().len(), 2);
    assert_eq!(report.schematic_parity.as_ref().unwrap().len(), 0);
    assert_eq!(report.all().len(), 4);
    assert_eq!(report.error_count(), 2);
    assert!(report.unconnected_items.as_ref().unwrap().iter().all(|v| v.severity == "error"));
}

#[test]
fn a_violation_carries_its_rule_key_and_a_real_position() {
    let report = report();
    let first = &report.violations[0];
    assert!(!first.rule.is_empty(), "the rule key is what you fix or waive");
    let pos = first.pos.as_ref().expect("position comes from items[0].pos");
    assert_eq!((pos.x.as_str(), pos.y.as_str()), ("122.5", "96.7"));
    assert!(!first.items.is_empty());
    assert!(first.items.iter().any(|item| !item.uuid.is_empty()));
    assert!(first.items.iter().any(|item| !item.description.is_empty()));

    let unconnected = &report.unconnected_items.as_ref().unwrap()[0];
    assert_eq!(unconnected.rule, "unconnected_items");
    assert!(unconnected.pos.is_some());
}

#[test]
fn an_itemless_violation_uses_the_exact_marker_position_and_layer() {
    let report = read_drc_report(
        r#"{
        "violations": [
            {
                "description": "Copper sliver (F.Cu)",
                "items": [],
                "layer": "F.Cu",
                "pos": { "x": 123.456, "y": 78.9 },
                "severity": "warning",
                "type": "copper_sliver"
            }
        ],
        "unconnected_items": [],
        "schematic_parity": []
    }"#,
    )
    .unwrap();
    let sliver = &report.violations[0];
    assert!(sliver.items.is_empty());
    assert_eq!(sliver.layer.as_deref(), Some("F.Cu"));
    assert_eq!(
        sliver.pos.as_ref().map(|pos| (pos.x.as_str(), pos.y.as_str())),
        Some(("123.456", "78.9"))
    );
}

#[test]
fn a_report_without_violations_is_an_error_not_a_clean_board() {
    let raw = Json::Object(vec![Entry {
        name: "source".to_string(),
        value: Json::Text("x.kicad_pcb".to_string()),
    }]);
    let error = match parse_drc_report(&raw) {
        Ok(_) => panic!("a report with no violations array is not a result"),
        Err(e) => e,
    };
    assert!(error.contains("violations"));
}

#[test]
fn an_unreported_category_is_absent_not_zero() {
    let report = read_drc_report(r#"{ "violations": [] }"#).unwrap();
    assert!(report.unconnected_items.is_none());
    assert!(report.schematic_parity.is_none());
    assert_eq!(report.missing_categories(), vec!["unconnected_items", "schematic_parity"]);
}

#[test]
fn a_text_that_is_no_json_is_no_report() {
    assert!(read_drc_report("not json").is_err());
    assert!(read_erc_report("{").is_err());
}

#[test]
fn a_filter_keeps_what_is_severe_enough() {
    let report = report();
    let errors = filter_violations(&report, "error");
    assert_eq!((errors.total, errors.violations.len()), (4, 2));
    assert_eq!(errors.unconnected_items, Some(2));
    assert_eq!(errors.schematic_parity, Some(0));
    assert_eq!(filter_violations(&report, "warning").violations.len(), 4);
}

// ─── Electrical rules reports ─────────────────────────────────────────────

#[test]
fn parses_violations_nested_under_sheets() {
    let violations = read_erc_report(
        r#"{
        "$schema": "https://schemas.kicad.org/erc.v1.json",
        "coordinate_units": "mm",
        "kicad_version": "10.0.3",
        "sheets": [
            {
                "path": "/",
                "uuid_path": "/14ad3364-2bf7-4e0f-ab6e-27bd0021e859",
                "violations": [
                    {
                        "description": "Pin not connected",
                        "items": [
                            {
                                "description": "Symbol R1 Pin 1 [Passive, Line]",
                                "pos": { "x": 1.0033, "y": 0.762 },
                                "uuid": "bf26e4e8-972e-4f6c-8144-fe6b3fdd68ad"
                            }
                        ],
                        "severity": "error",
                        "type": "pin_not_connected"
                    },
                    {
                        "description": "Pin not connected",
                        "items": [
                            {
                                "description": "Symbol R2 Pin 2 [Passive, Line]",
                                "pos": { "x": 1.0033, "y": 1.143 },
                                "uuid": "da98d3c5-aa74-4df3-8151-0d6e1e166975"
                            }
                        ],
                        "severity": "warning",
                        "type": "pin_not_connected"
                    }
                ]
            }
        ]
    }"#,
    )
    .unwrap();
    assert_eq!(violations.len(), 2);
    assert_eq!(violations[0].severity, "error");
    assert!(violations[0].description.contains("Pin not connected"));
    assert!(violations[0].description.contains("R1"), "description should name the offending item");
    assert_eq!(violations[0].sheet.as_deref(), Some("/"));
    let pos = violations[0].pos.as_ref().expect("position from items[0]");
    assert_eq!(pos.x, "1.0033");
    assert_eq!(violations[1].severity, "warning");
}

#[test]
fn empty_or_alien_reports_yield_no_violations() {
    assert!(parse_erc_json(&Json::Object(Vec::new())).is_empty());
    assert!(read_erc_report(r#"{ "sheets": [] }"#).unwrap().is_empty());
    assert!(read_erc_report(r#"{ "violations": [{ "severity": "error" }] }"#).unwrap().is_empty());
}

// ─── Artifacts ────────────────────────────────────────────────────────────

#[test]
fn missing_and_empty_artifacts_are_not_successes() {
    let error = verify_nonempty_file("missing.pdf", "test PDF", FileStatus::Missing)
        .expect_err("missing file must fail");
    assert!(error.contains("did not create"));
    let error = verify_nonempty_file("empty.pdf", "test PDF", FileStatus::Size(0))
        .expect_err("empty file must fail");
    assert!(error.contains("empty file"));
    assert_eq!(verify_nonempty_file("real.pdf", "test PDF", FileStatus::Size(9)).unwrap(), 9);
    let error = verify_nonempty_file("dir.pdf", "test PDF", FileStatus::NotAFile)
        .expect_err("a directory must fail");
    assert!(error.contains("is not a file"));
}

#[test]
fn drill_files_are_collected_sorted_and_filtered_by_extension() {
    let names: Vec<String> =
        ["board-PTH.drl", "board-NPTH.drl", "board-drl_map.pdf"].map(String::from).to_vec();
    assert_eq!(drill_files_in(&names), ["board-NPTH.drl", "board-PTH.drl"]);
}

fn file(name: &str, size: u64) -> DirFile {
    DirFile { name: name.to_string(), path: format!("/out/{name}"), status: FileStatus::Size(size) }
}

#[test]
fn a_drill_export_needs_files_with_content() {
    assert!(verify_drill_files(&vec![], "/out").unwrap_err().contains("no .drl files"));
    assert!(verify_drill_files(&vec![file("a.drl", 3)], "/out").is_ok());
    assert!(verify_drill_files(&vec![file("a.drl", 3), file("b.drl", 0)], "/out")
        .unwrap_err()
        .contains("empty file"));
}

#[test]
fn a_gerber_export_needs_plots_with_content() {
    let plots = vec![file("board-F_Cu.gtl", 12), file("board-Edge_Cuts.gm1", 7)];
    assert_eq!(gerber_outputs(&plots, "board", 2, "/out").unwrap().len(), 2);
    assert!(gerber_outputs(&vec![], "board", 2, "/out").is_err());
}

#[test]
fn a_drawing_export_leaves_drawings() {
    let file = |name: &str, size: u64| DirFile {
        name: name.to_string(),
        path: format!("out/{name}"),
        status: FileStatus::Size(size),
    };
    assert!(verify_dxf_files(&vec![file("b-F_Cu.dxf", 9), file("log", 0)], "out").is_ok());
    assert_eq!(
        verify_dxf_files(&vec![file("log", 3)], "out").unwrap_err(),
        "DXF export reported success but produced no .dxf files in out"
    );
    assert_eq!(
        verify_dxf_files(&vec![file("a.dxf", 1), file("b.dxf", 0)], "out").unwrap_err(),
        "DXF export reported success but created an empty file at out/b.dxf"
    );
}
