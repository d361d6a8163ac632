use konnect_core::artifacts::FileStatus;
use konnect_core::hierarchy::{
    build_hierarchy_node, collect_pin_mismatches, find_sheet, renumber_sheet_pages,
    HierarchicalLabel, PinIssue, Project, SchematicDoc, SchematicFile, SheetBox, SheetPin,
};
use konnect_core::paths::PathPart;
use konnect_core::root_uuid::{ensure_source_root_uuid, replace_source_root_uuid, Block};
use konnect_core::sch_hierarchy::{
    accepts_shape, add_hierarchical_sheet, add_sheet_pin, add_sheet_transitions, delete_sheet, delete_sheet_pin,
    dir_or_here, duplicate_sheet, duplicate_transitions, edit_sheet, edit_sheet_pin, fits_import, import_sheet_pins,
    import_transitions,
    instance_path, is_child_path, move_sheet, next_free_page, parent_dir, plan_add_sheet,
    require_sheet, validate_pin_type, ChildFacts, ChildFile, CopyFacts, FileTransition,
    PathShape, PinEdit, SheetEdit,
};

const MM: i64 = 1_000_000;

fn sheet(name: &str, file: &str, x: i64, y: i64, page: Option<&str>) -> SheetBox {
    SheetBox {
        name: name.to_string(),
        file: file.to_string(),
        uuid: format!("uuid-{name}"),
        x: x * MM,
        y: y * MM,
        width: 80 * MM,
        height: 50 * MM,
        page: page.map(String::from),
        pins: vec![],
        child: None,
        child_path: file.to_string(),
        child_key: file.to_string(),
    }
}

fn new_file() -> ChildFacts {
    ChildFacts { dir_exists: true, is_parent: false, status: FileStatus::Missing }
}

fn edit() -> SheetEdit {
    SheetEdit { new_name: None, new_file: None, x: None, y: None, width: None, height: None }
}

fn pin_edit() -> PinEdit {
    PinEdit { new_name: None, pin_type: None, x: None, y: None }
}

// ─── Sheets ───────────────────────────────────────────────────────────────

#[test]
fn add_hierarchical_sheet_creates_child_file_and_links_it() {
    let plan = add_hierarchical_sheet(&vec![], "Power Supply", "power.kicad_sch", &new_file())
        .ok()
        .unwrap();
    assert!(!plan.reuse, "the child file is new");
    assert_eq!(plan.page, "2");
}

#[test]
fn edit_sheet_accepts_the_position_the_sheet_already_has() {
    let mut power = sheet("Power", "power.kicad_sch", 20, 20, None);
    let again = SheetEdit { x: Some(20 * MM), y: Some(20 * MM), ..edit() };
    let outcome = edit_sheet(&mut power, &again).ok().expect("an idempotent edit is not an error");
    assert!(outcome.changed.is_empty());
    assert_eq!(outcome.requested, ["position"]);
}

#[test]
fn edit_sheet_reports_only_the_fields_that_differ() {
    let mut power = sheet("Power", "power.kicad_sch", 20, 20, None);
    let change = SheetEdit {
        new_name: Some("Power Supply".to_string()),
        x: Some(20 * MM),
        y: Some(20 * MM),
        ..edit()
    };
    let outcome = edit_sheet(&mut power, &change).ok().unwrap();
    assert_eq!(outcome.changed, ["name"]);
    assert_eq!(outcome.requested, ["name", "position"]);
}

#[test]
fn move_sheet_accepts_the_position_the_sheet_already_has() {
    let mut power = sheet("Power", "power.kicad_sch", 20, 20, None);
    assert!(!move_sheet(&mut power, 20 * MM, 20 * MM));
}

#[test]
fn edit_sheet_is_idempotent_on_a_sheet_konnect_already_wrote() {
    let mut power = sheet("Power", "power.kicad_sch", 20, 20, None);
    let moved = SheetEdit { x: Some(30 * MM), y: Some(30 * MM), ..edit() };
    assert_eq!(edit_sheet(&mut power, &moved).ok().unwrap().changed, ["position"]);
    assert!(edit_sheet(&mut power, &moved).ok().unwrap().changed.is_empty());
    assert_eq!((power.x, power.y), (30 * MM, 30 * MM));
}

#[test]
fn edit_sheet_still_rejects_a_call_with_no_fields() {
    let mut power = sheet("Power", "power.kicad_sch", 20, 20, None);
    assert!(edit_sheet(&mut power, &edit()).is_err(), "asking for nothing is still an error");
}

#[test]
fn add_hierarchical_sheet_rejects_duplicate_name() {
    let sheets = vec![sheet("A", "a.kicad_sch", 0, 0, Some("2"))];
    assert!(add_hierarchical_sheet(&sheets, "A", "b.kicad_sch", &new_file()).is_err());
}

#[test]
fn second_sheet_gets_next_free_page() {
    let sheets = vec![sheet("A", "a.kicad_sch", 0, 0, Some("2"))];
    let plan = add_hierarchical_sheet(&sheets, "B", "b.kicad_sch", &new_file()).ok().unwrap();
    assert_eq!(plan.page, "3");
    assert_eq!(next_free_page(&vec![]), 2);
    assert_eq!(next_free_page(&vec![sheet("A", "a", 0, 0, Some("7")), sheet("B", "b", 0, 0, None)]), 8);
}

#[test]
fn edit_sheet_renames_and_resizes() {
    let mut a = sheet("A", "a.kicad_sch", 0, 0, None);
    let change = SheetEdit {
        new_name: Some("Renamed".to_string()),
        width: Some(100 * MM),
        height: Some(60 * MM),
        ..edit()
    };
    edit_sheet(&mut a, &change).ok().unwrap();
    assert_eq!(a.name, "Renamed");
    assert_eq!((a.width, a.height), (100 * MM, 60 * MM));
    assert_eq!(find_sheet(&vec![a], "A"), None);
}

#[test]
fn edit_sheet_with_no_fields_errors() {
    let mut a = sheet("A", "a.kicad_sch", 0, 0, None);
    let lone = SheetEdit { x: Some(5), ..edit() };
    assert!(edit_sheet(&mut a, &edit()).is_err());
    assert!(edit_sheet(&mut a, &lone).is_err(), "a position takes both coordinates");
}

#[test]
fn move_sheet_updates_position_only() {
    let mut a = sheet("A", "a.kicad_sch", 10, 10, None);
    assert!(move_sheet(&mut a, 99 * MM, 88 * MM));
    assert_eq!((a.x, a.y), (99 * MM, 88 * MM));
    assert_eq!((a.width, a.height), (80 * MM, 50 * MM));
}

#[test]
fn delete_sheet_removes_reference_but_keeps_child_file() {
    let sheets = vec![sheet("A", "a.kicad_sch", 0, 0, None)];
    assert_eq!(delete_sheet(&sheets, "A").unwrap().0, 0);
}

#[test]
fn delete_sheet_not_found_errors() {
    assert!(delete_sheet(&vec![], "Nope").is_err());
    assert!(require_sheet(&vec![], "Nope").is_err());
}

#[test]
fn duplicate_sheet_copies_file_independently() {
    let sheets = vec![sheet("Amp1", "amp.kicad_sch", 10, 10, Some("2"))];
    let free = CopyFacts { dir_exists: true, copy_exists: false, source_exists: true };
    let plan = duplicate_sheet(&sheets, "Amp1", "Amp2", "amp2.kicad_sch", &free).ok().unwrap();
    assert_eq!((plan.x, plan.y), (30 * MM, 30 * MM));
    assert_eq!(plan.page, "3");
    assert_eq!(plan.source, 0);
    let original = "(kicad_sch\n  (version 20260306)\n  (uuid \"amp-root\")\n  (paper \"A4\")\n)\n";
    let at = original.find("(uuid").unwrap();
    let blocks = vec![block(at, at + 17, "uuid")];
    let copy = replace_source_root_uuid(original, &blocks, "amp2-root").ok().unwrap();
    assert_eq!(copy, original.replace("amp-root", "amp2-root"));
    assert_ne!(copy, original);
}

#[test]
fn duplicate_sheet_refuses_to_overwrite_existing_file() {
    let sheets = vec![
        sheet("A", "a.kicad_sch", 0, 0, Some("2")),
        sheet("B", "b.kicad_sch", 0, 0, Some("3")),
    ];
    let taken = CopyFacts { dir_exists: true, copy_exists: true, source_exists: true };
    assert!(duplicate_sheet(&sheets, "A", "A-copy", "b.kicad_sch", &taken).is_err());
}

#[test]
fn linking_existing_file_with_symbols_patches_instance_paths() {
    let existing = ChildFacts { dir_exists: true, is_parent: false, status: FileStatus::Size(40) };
    let plan = add_hierarchical_sheet(&vec![], "Reused", "reused.kicad_sch", &existing).ok().unwrap();
    assert!(plan.reuse);
    assert_eq!(instance_path("root-uuid", "sheet-uuid"), "/root-uuid/sheet-uuid");
}

#[test]
fn only_a_missing_child_file_is_created() {
    let text = |t: &str| t.to_string();
    let list = |child: ChildFile| {
        add_sheet_transitions("root", text("old"), text("new"), "sub", child, text("blank"))
    };
    let created = list(ChildFile::Missing);
    assert!(matches!(&created[0], FileTransition::Replace { path, after, .. } if path == "root" && after == "new"));
    assert!(matches!(&created[1], FileTransition::Create { path, content } if path == "sub" && content == "blank"));
    let linked = list(ChildFile::Present { before: text("was"), linked: Some(text("is")) });
    assert!(matches!(&linked[1], FileTransition::Replace { before, after, .. } if before == "was" && after == "is"));
    assert_eq!(list(ChildFile::Present { before: text("was"), linked: None }).len(), 1);
    let copied = duplicate_transitions("root", text("old"), text("new"), "copy", text("text"));
    assert!(matches!(&copied[1], FileTransition::Create { path, .. } if path == "copy"));
}

#[test]
fn child_paths_are_relative_names_of_schematics() {
    assert!(is_child_path("sub/power.kicad_sch"));
    assert!(!is_child_path("../power.kicad_sch"));
    assert!(!is_child_path("/abs/power.kicad_sch"));
    assert!(!is_child_path("power.kicad_pcb"));
    let shape = |absolute: bool, part: PathPart, extension: Option<&str>| PathShape {
        absolute,
        parts: vec![part],
        extension: extension.map(String::from),
    };
    assert!(accepts_shape(&shape(false, PathPart::Name, Some("kicad_sch"))));
    assert!(!accepts_shape(&shape(true, PathPart::Name, Some("kicad_sch"))));
    assert!(!accepts_shape(&shape(false, PathPart::Name, None)));
    let parent = ChildFacts { dir_exists: true, is_parent: true, status: FileStatus::Size(1) };
    let good = shape(false, PathPart::Name, Some("kicad_sch"));
    assert!(plan_add_sheet(&vec![], "A", &good, &parent).is_err());
    assert_eq!(parent_dir("/p/root.kicad_sch"), "/p");
    assert_eq!(parent_dir("root.kicad_sch"), "");
    assert_eq!(parent_dir("/root.kicad_sch"), "/");
    assert_eq!(parent_dir("/"), ".");
    assert_eq!(parent_dir(""), ".");
    assert_eq!(dir_or_here(None), ".");
}

// ─── Pins ─────────────────────────────────────────────────────────────────

fn power(labels: &[(&str, &str)]) -> (SheetBox, Vec<HierarchicalLabel>) {
    let labels = labels
        .iter()
        .map(|(text, shape)| HierarchicalLabel {
            text: text.to_string(),
            shape: Some(shape.to_string()),
        })
        .collect();
    (sheet("Power", "power.kicad_sch", 20, 20, Some("2")), labels)
}

fn pin_type<'a>(sheet: &'a SheetBox, name: &str) -> Option<&'a str> {
    sheet.pins.iter().find(|p| p.name == name).map(|p| p.pin_type.as_str())
}

#[test]
fn edit_sheet_pin_accepts_the_position_the_pin_already_has() {
    let mut power = sheet("Power", "power.kicad_sch", 20, 20, None);
    add_sheet_pin(&mut power, "VCC", "input", 20 * MM, 25 * MM).unwrap();
    let again = PinEdit { x: Some(20 * MM), y: Some(25 * MM), ..pin_edit() };
    assert!(edit_sheet_pin(&mut power, "VCC", &again).is_ok());
    assert!(edit_sheet_pin(&mut power, "VCC", &again).is_ok());
}

#[test]
fn import_sheet_pins_creates_matching_pins_from_labels() {
    let (mut power, labels) = power(&[("VIN", "input"), ("GND", "passive")]);
    assert!(fits_import(&power, &labels, "right"));
    import_sheet_pins(&mut power, &labels, "right").ok().unwrap();
    assert_eq!(power.pins.len(), 2);
    assert_eq!(pin_type(&power, "VIN"), Some("input"));
    assert_eq!(pin_type(&power, "GND"), Some("passive"));
}

#[test]
fn import_sheet_pins_skips_already_imported_names() {
    let (mut power, labels) = power(&[("VIN", "input")]);
    import_sheet_pins(&mut power, &labels, "right").ok().unwrap();
    let again = import_sheet_pins(&mut power, &labels, "right").ok().unwrap();
    assert_eq!(power.pins.len(), 1);
    assert_eq!(again.skipped_existing, ["VIN"]);
    assert!(again.imported.is_empty());
    let text = |t: &str| t.to_string();
    assert!(import_transitions("root", text("old"), text("new"), &again).is_empty());
}

#[test]
fn an_import_rewrites_the_parent_alone() {
    let (mut power, labels) = power(&[("VIN", "input"), ("VIN", "output")]);
    power.y = i64::MAX - 3 * MM;
    assert!(fits_import(&power, &labels, "left"), "the labels share one pin");
    let first = import_sheet_pins(&mut power, &labels, "left").ok().unwrap();
    assert_eq!((first.imported.len(), first.skipped_existing.len()), (1, 1));
    let files = import_transitions("root", "old".to_string(), "new".to_string(), &first);
    assert_eq!(files.len(), 1);
    assert!(matches!(&files[0], FileTransition::Replace { path, .. } if path == "root"));
    assert!(fits_import(&power, &labels, "right"), "nothing is left to import");
}

#[test]
fn add_sheet_pin_rejects_duplicate_name() {
    let mut a = sheet("A", "a.kicad_sch", 0, 0, None);
    assert!(add_sheet_pin(&mut a, "VCC", "input", 90 * MM, 55 * MM).is_ok());
    assert!(add_sheet_pin(&mut a, "VCC", "input", 90 * MM, 55 * MM).is_err());
    assert_eq!(a.pins.len(), 1);
}

#[test]
fn add_sheet_pin_rejects_invalid_pin_type() {
    let mut a = sheet("A", "a.kicad_sch", 0, 0, None);
    assert!(add_sheet_pin(&mut a, "VCC", "not_a_type", 90 * MM, 55 * MM).is_err());
    assert!(validate_pin_type("tri_state").is_ok());
    assert!(validate_pin_type("not_a_type").unwrap_err().contains("must be one of"));
}

#[test]
fn edit_sheet_pin_renames_and_retypes() {
    let mut a = sheet("A", "a.kicad_sch", 0, 0, None);
    add_sheet_pin(&mut a, "VCC", "input", 90 * MM, 55 * MM).unwrap();
    let change = PinEdit {
        new_name: Some("VDD".to_string()),
        pin_type: Some("output".to_string()),
        ..pin_edit()
    };
    assert!(edit_sheet_pin(&mut a, "VCC", &change).is_ok());
    assert_eq!(pin_type(&a, "VCC"), None);
    assert_eq!(pin_type(&a, "VDD"), Some("output"));
}

#[test]
fn edit_sheet_pin_with_no_fields_errors() {
    let mut a = sheet("A", "a.kicad_sch", 0, 0, None);
    add_sheet_pin(&mut a, "VCC", "input", 90 * MM, 55 * MM).unwrap();
    assert!(edit_sheet_pin(&mut a, "VCC", &pin_edit()).is_err());
}

#[test]
fn delete_sheet_pin_removes_it() {
    let mut a = sheet("A", "a.kicad_sch", 0, 0, None);
    add_sheet_pin(&mut a, "VCC", "input", 90 * MM, 55 * MM).unwrap();
    assert!(delete_sheet_pin(&mut a, "VCC").is_ok());
    assert!(a.pins.is_empty());
}

#[test]
fn delete_sheet_pin_not_found_errors() {
    let mut a = sheet("A", "a.kicad_sch", 0, 0, None);
    assert!(delete_sheet_pin(&mut a, "Nope").is_err());
}

// ─── Projects ─────────────────────────────────────────────────────────────

fn file(path: &str, sheets: Vec<SheetBox>, labels: Vec<HierarchicalLabel>) -> SchematicFile {
    SchematicFile {
        path: path.to_string(),
        key: path.to_string(),
        doc: Ok(SchematicDoc { sheets, labels }),
    }
}

fn linked(mut s: SheetBox, child: usize) -> SheetBox {
    s.child = Some(child);
    s
}

#[test]
fn get_sheet_hierarchy_returns_nested_tree() {
    let project = Project {
        files: vec![
            file("root", vec![linked(sheet("Mid", "mid.kicad_sch", 0, 0, None), 1)], vec![]),
            file("mid", vec![linked(sheet("Leaf", "leaf.kicad_sch", 0, 0, None), 2)], vec![]),
            file("leaf", vec![], vec![]),
        ],
    };
    let tree = build_hierarchy_node(&project, 0);
    let mid = &tree.children[0];
    assert_eq!((mid.path.as_str(), mid.sheet), ("mid.kicad_sch", 0));
    assert_eq!(mid.children[0].path, "leaf.kicad_sch");
    assert!(mid.children[0].children.is_empty());
}

#[test]
fn get_sheet_hierarchy_reports_missing_child_file() {
    let project = Project {
        files: vec![file("root", vec![sheet("Gone", "gone.kicad_sch", 0, 0, None)], vec![])],
    };
    let tree = build_hierarchy_node(&project, 0);
    assert_eq!(tree.children[0].error.as_deref(), Some("child file not found on disk"));
}

#[test]
fn a_hierarchy_that_holds_itself_ends() {
    let project = Project {
        files: vec![file("root", vec![linked(sheet("Self", "root", 0, 0, None), 0)], vec![])],
    };
    let tree = build_hierarchy_node(&project, 0);
    assert!(tree.children[0].error.is_some());
    assert!(tree.children[0].children.is_empty());
}

#[test]
fn renumber_sheet_pages_closes_gap_after_delete() {
    let project = Project {
        files: vec![
            file(
                "root",
                vec![
                    linked(sheet("A", "a.kicad_sch", 0, 0, Some("2")), 1),
                    linked(sheet("C", "c.kicad_sch", 0, 0, Some("4")), 2),
                ],
                vec![],
            ),
            file("a", vec![], vec![]),
            file("c", vec![], vec![]),
        ],
    };
    let plan = renumber_sheet_pages(&project, 0).ok().unwrap();
    let pages: Vec<(usize, &str)> = plan.pages.iter().map(|p| (p.sheet, p.page.as_str())).collect();
    assert_eq!(pages, [(0, "2"), (1, "3")]);
    assert_eq!(plan.changes.len(), 1);
    assert_eq!(plan.changes[0].sheets, [1]);
}

#[test]
fn sheets_of_one_name_each_get_their_page() {
    let twins = vec![
        sheet("A", "a.kicad_sch", 0, 0, Some("2")),
        sheet("A", "b.kicad_sch", 0, 0, Some("2")),
    ];
    let project = Project { files: vec![file("root", twins, vec![])] };
    let plan = renumber_sheet_pages(&project, 0).ok().unwrap();
    assert_eq!(plan.pages[1].page, "3");
    assert_eq!(plan.changes[0].sheets, [1]);
}

fn vin() -> Vec<HierarchicalLabel> {
    vec![HierarchicalLabel { text: "VIN".to_string(), shape: Some("input".to_string()) }]
}

#[test]
fn validate_sheet_pins_reports_mismatches() {
    let mut power = linked(sheet("Power", "power.kicad_sch", 0, 0, None), 1);
    power.pins.push(SheetPin {
        name: "GND".to_string(),
        pin_type: "passive".to_string(),
        x: 90 * MM,
        y: 55 * MM,
        rotation: None,
    });
    let project =
        Project { files: vec![file("root", vec![power], vec![]), file("power", vec![], vin())] };
    let issues = collect_pin_mismatches(&project, 0).ok().unwrap();
    assert_eq!(issues.len(), 1);
    let PinIssue::Mismatch { sheet, labels_without_pins, pins_without_labels, .. } = &issues[0]
    else {
        panic!("expected a mismatch")
    };
    assert_eq!(*sheet, 0);
    assert_eq!(*labels_without_pins, ["VIN"]);
    assert_eq!(*pins_without_labels, ["GND"]);
}

#[test]
fn validate_sheet_pins_reports_no_issues_when_synced() {
    let mut power = linked(sheet("Power", "power.kicad_sch", 0, 0, None), 1);
    import_sheet_pins(&mut power, &vin(), "right").ok().unwrap();
    let project =
        Project { files: vec![file("root", vec![power], vec![]), file("power", vec![], vin())] };
    assert!(collect_pin_mismatches(&project, 0).ok().unwrap().is_empty());
}

// ─── Ids of schematics ────────────────────────────────────────────────────

fn block(start: usize, end: usize, head: &str) -> Block {
    Block { start, end, readable: true, head: Some(head.to_string()) }
}

#[test]
fn a_schematic_without_an_id_gets_one_behind_its_opening_lines() {
    let source = "(kicad_sch\n  (version 1)\n  (paper \"A4\")\n)";
    let version = source.find("(version").unwrap();
    let paper = source.find("(paper").unwrap();
    let blocks = vec![block(version, version + 11, "version"), block(paper, paper + 12, "paper")];
    let (text, uuid) = ensure_source_root_uuid(source, &None, &blocks, "fresh").ok().unwrap();
    assert_eq!(uuid, "fresh");
    assert_eq!(text, "(kicad_sch\n  (version 1)\n  (uuid \"fresh\")\n  (paper \"A4\")\n)");
    let (kept, uuid) =
        ensure_source_root_uuid(source, &Some("old".to_string()), &blocks, "fresh").ok().unwrap();
    assert_eq!((kept.as_str(), uuid.as_str()), (source, "old"));
    assert!(ensure_source_root_uuid(source, &None, &vec![], "fresh").is_err());
}

#[test]
fn the_id_of_a_schematic_can_be_replaced() {
    let source = "(kicad_sch\n  (uuid \"old\")\n)";
    let at = source.find("(uuid").unwrap();
    let blocks = vec![block(at, at + 12, "uuid")];
    let text = replace_source_root_uuid(source, &blocks, "new").ok().unwrap();
    assert_eq!(text, "(kicad_sch\n  (uuid \"new\")\n)");
}

#[test]
fn a_schematic_without_an_id_gets_the_new_one() {
    let source = "(kicad_sch\n  (version 1)\n  (paper \"A4\")\n)";
    let paper = source.find("(paper").unwrap();
    let blocks = vec![block(paper, paper + 12, "paper")];
    let text = replace_source_root_uuid(source, &blocks, "new").ok().unwrap();
    assert_eq!(text, "(kicad_sch\n  (version 1)\n  (uuid \"new\")\n  (paper \"A4\")\n)");
    assert_eq!(
        replace_source_root_uuid(source, &vec![], "new").err().unwrap(),
        "parent schematic has no UUID insertion anchor"
    );
}
