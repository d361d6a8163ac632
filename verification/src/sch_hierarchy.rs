//! Sheets and their pins: adding, editing, moving, deleting, duplicating.
use crate::artifacts::FileStatus;
use crate::hierarchy::{find_sheet, sheet_named, HierarchicalLabel, SheetBox, SheetPin};
use crate::paths::{
    all_names, directory, has_plain_directory, is_name, is_portable, last_segment, leads_down,
    path_extension, path_is_absolute, path_parent, path_parts, PathPart,
};
use crate::schematic::text_option;
use crate::seqs::{lemma_contains_push, models, push_model};
use crate::text::{self, decimal, numeral_value};
use vstd::prelude::*;

verus! {

/// Distance between imported pins, in nanometres.
pub const SHEET_PIN_SPACING_NM: i64 = 2540000;

/// Offset of a duplicated sheet from its source, in nanometres.
pub const DUPLICATE_OFFSET_NM: i64 = 20000000;

// ─── Paths ────────────────────────────────────────────────────────────────

/// The directory, or the current one where there is none.
pub fn dir_or_here(parent: Option<String>) -> (r: String)
    ensures
        r@ == match parent {
            Some(p) => p@,
            None => "."@,
        },
{
    match parent {
        Some(p) => p,
        None => ".".to_owned(),
    }
}

/// The directory that a schematic lies in.
pub fn parent_dir(sch_path: &str) -> (r: String)
    ensures
        sch_path@.len() == 0 ==> r@ == "."@,
        sch_path@ == "/"@ ==> r@ == "."@,
        has_plain_directory(sch_path@) ==> r@ == directory(sch_path@),
{
    let parent = path_parent(sch_path);
    dir_or_here(parent)
}

/// What is asked of the path of a child schematic.
pub struct PathShape {
    pub absolute: bool,
    pub parts: Vec<PathPart>,
    pub extension: Option<String>,
}

/// Whether the shape is that of a path that every machine reads alike, and that
/// ends in a name.
pub open spec fn is_shape_of(shape: PathShape, path: Seq<char>) -> bool {
    is_portable(path) && is_name(last_segment(path)) ==> {
        &&& leads_down(path) ==> !shape.absolute
        &&& all_names(shape.parts@) <==> leads_down(path)
        &&& text_option(shape.extension) == text::extension(last_segment(path))
    }
}

fn path_shape(path: &str) -> (shape: PathShape)
    ensures
        is_shape_of(shape, path@),
{
    PathShape {
        absolute: path_is_absolute(path),
        parts: path_parts(path),
        extension: path_extension(path),
    }
}

/// Whether a child schematic may have such a path: a relative one of names
/// only, with the extension of schematics.
pub open spec fn is_child_shape(shape: PathShape) -> bool {
    &&& !shape.absolute
    &&& all_names(shape.parts@)
    &&& text_option(shape.extension) == Some("kicad_sch"@)
}

/// Whether a child schematic may have such a path.
pub fn accepts_shape(shape: &PathShape) -> (r: bool)
    ensures
        r == is_child_shape(*shape),
{
    let mut i: usize = 0;
    while i < shape.parts.len()
        invariant
            i <= shape.parts@.len(),
            forall|j: int| 0 <= j < i ==> #[trigger] shape.parts@[j] == PathPart::Name,
        decreases shape.parts@.len() - i,
    {
        if shape.parts[i] != PathPart::Name {
            return false;
        }
        i += 1;
    }
    !shape.absolute && match &shape.extension {
        Some(e) => text::same(e.as_str(), "kicad_sch"),
        None => false,
    }
}

/// Whether a child schematic may have the path: it leads down by names, and
/// the last has the extension of schematics.
pub open spec fn leads_to_schematic(path: Seq<char>) -> bool {
    leads_down(path) && text::extension(last_segment(path)) == Some("kicad_sch"@)
}

/// Whether a child schematic may have the path. What a path with backslashes
/// or colons means depends on the machine.
pub fn is_child_path(path: &str) -> (r: bool)
    ensures
        is_portable(path@) && is_name(last_segment(path@)) ==> r == leads_to_schematic(path@),
{
    let shape = path_shape(path);
    accepts_shape(&shape)
}

// ─── Pin types ────────────────────────────────────────────────────────────

/// Whether KiCad has such a sheet pin type.
pub open spec fn is_pin_type(t: Seq<char>) -> bool {
    t == "input"@ || t == "output"@ || t == "bidirectional"@ || t == "tri_state"@ || t
        == "passive"@
}

fn known_pin_type(t: &str) -> (r: bool)
    ensures
        r == is_pin_type(t@),
{
    text::same(t, "input") || text::same(t, "output") || text::same(t, "bidirectional")
        || text::same(t, "tri_state") || text::same(t, "passive")
}

/// What is told of a pin type that there is none of.
pub open spec fn pin_type_error(t: Seq<char>) -> Seq<char> {
    "Invalid pin_type '"@ + t
        + "' — must be one of: input, output, bidirectional, tri_state, passive"@
}

/// Whether the pin type is one that KiCad has.
pub fn validate_pin_type(pin_type: &str) -> (r: Result<(), String>)
    ensures
        r is Ok <==> is_pin_type(pin_type@),
        r matches Err(e) ==> e@ == pin_type_error(pin_type@),
{
    if known_pin_type(pin_type) {
        Ok(())
    } else {
        Err(
            text::cat3(
                "Invalid pin_type '",
                pin_type,
                "' — must be one of: input, output, bidirectional, tri_state, passive",
            ),
        )
    }
}

// ─── Pages ────────────────────────────────────────────────────────────────

/// The page number of a sheet, if its page is one.
pub open spec fn page_number(s: SheetBox) -> Option<nat> {
    match s.page {
        Some(p) => numeral_value(p@, u32::MAX as nat),
        None => None,
    }
}

/// The highest page of the first `n` sheets; the root has page one.
pub open spec fn highest_page(sheets: Seq<SheetBox>, n: nat) -> nat
    decreases n,
{
    if n == 0 {
        1
    } else {
        let rest = highest_page(sheets, (n - 1) as nat);
        match page_number(sheets[n - 1]) {
            Some(p) => if p > rest {
                p
            } else {
                rest
            },
            None => rest,
        }
    }
}

/// The page after the highest one in use.
pub fn next_free_page(sheets: &Vec<SheetBox>) -> (page: u64)
    ensures
        page == highest_page(sheets@, sheets@.len()) + 1,
{
    let mut max: u64 = 1;
    let mut i: usize = 0;
    while i < sheets.len()
        invariant
            i <= sheets@.len(),
            max <= u32::MAX,
            max == highest_page(sheets@, i as nat),
        decreases sheets@.len() - i,
    {
        if let Some(p) = &sheets[i].page {
            if let Some(n) = text::parse_numeral(p.as_str(), u32::MAX as u64) {
                proof {
                    assert(n <= u32::MAX);
                }
                if n > max {
                    max = n;
                }
            }
        }
        i += 1;
    }
    max + 1
}

/// The next free page is no sheet's page.
pub proof fn law_next_page_is_free(sheets: Seq<SheetBox>, k: int, n: nat)
    requires
        0 <= k < n <= sheets.len(),
    ensures
        page_number(sheets[k]) != Some(highest_page(sheets, n) + 1),
        page_number(sheets[k]) matches Some(p) ==> p <= highest_page(sheets, n),
        highest_page(sheets, n) >= 1,
    decreases n,
{
    if k < n - 1 {
        law_next_page_is_free(sheets, k, (n - 1) as nat);
    } else {
        lemma_highest_page(sheets, (n - 1) as nat);
    }
}

proof fn lemma_highest_page(sheets: Seq<SheetBox>, n: nat)
    ensures
        highest_page(sheets, n) >= 1,
    decreases n,
{
    if n > 0 {
        lemma_highest_page(sheets, (n - 1) as nat);
    }
}

// ─── Adding ───────────────────────────────────────────────────────────────

/// What stands where a new sheet's file is to be: whether its directory
/// exists, whether it is the parent schematic itself, and what is at its path.
pub struct ChildFacts {
    pub dir_exists: bool,
    pub is_parent: bool,
    pub status: FileStatus,
}

/// How a sheet is added: its page, and whether its file is there already.
pub struct AddSheetPlan {
    pub page: String,
    pub reuse: bool,
}

/// Why a sheet cannot be added.
pub open spec fn add_sheet_error(
    sheets: Seq<SheetBox>,
    name: Seq<char>,
    shape: PathShape,
    child: ChildFacts,
) -> Option<Seq<char>> {
    if !is_child_shape(shape) {
        Some("sheet_file must be a relative .kicad_sch path without parent traversal"@)
    } else if !child.dir_exists {
        Some("The child sheet directory does not exist"@)
    } else if child.is_parent {
        Some("A hierarchical sheet cannot reference its parent file"@)
    } else if sheet_named(sheets, name) is Some {
        Some(
            "Sheet named '"@ + name
                + "' already exists in this schematic — use edit_sheet to modify it or pick a different name"@,
        )
    } else if child.status is NotAFile {
        Some("The child schematic path exists but is not a regular file"@)
    } else {
        None
    }
}

/// What adding a sheet comes to: it gets the next page, and links a file that
/// is there already.
pub open spec fn is_add_outcome(
    sheets: Seq<SheetBox>,
    name: Seq<char>,
    shape: PathShape,
    child: ChildFacts,
    r: Result<AddSheetPlan, String>,
) -> bool {
    match r {
        Ok(plan) => {
            &&& add_sheet_error(sheets, name, shape, child) is None
            &&& plan.page@ == decimal(highest_page(sheets, sheets.len()) + 1)
            &&& plan.reuse == (child.status is Size)
        },
        Err(e) => add_sheet_error(sheets, name, shape, child) == Some(e@),
    }
}

/// How a sheet of that name is added to a schematic with these sheets. A file
/// that is there already is linked as it is; a missing one is to be created.
pub fn plan_add_sheet(
    sheets: &Vec<SheetBox>,
    name: &str,
    shape: &PathShape,
    child: &ChildFacts,
) -> (r: Result<AddSheetPlan, String>)
    ensures
        is_add_outcome(sheets@, name@, *shape, *child, r),
{
    if !accepts_shape(shape) {
        return Err(
            "sheet_file must be a relative .kicad_sch path without parent traversal".to_owned(),
        );
    }
    if !child.dir_exists {
        return Err("The child sheet directory does not exist".to_owned());
    }
    if child.is_parent {
        return Err("A hierarchical sheet cannot reference its parent file".to_owned());
    }
    if find_sheet(sheets, name).is_some() {
        return Err(
            text::cat3(
                "Sheet named '",
                name,
                "' already exists in this schematic — use edit_sheet to modify it or pick a different name",
            ),
        );
    }
    if matches!(child.status, FileStatus::NotAFile) {
        return Err("The child schematic path exists but is not a regular file".to_owned());
    }
    Ok(
        AddSheetPlan {
            page: text::decimal_text(next_free_page(sheets)),
            reuse: matches!(child.status, FileStatus::Size(_)),
        },
    )
}

/// How the sheet is added at the path that a caller names.
pub fn add_hierarchical_sheet(
    sheets: &Vec<SheetBox>,
    name: &str,
    sheet_file: &str,
    child: &ChildFacts,
) -> (r: Result<AddSheetPlan, String>)
    ensures
        exists|shape: PathShape| #[trigger]
            is_add_outcome(sheets@, name@, shape, *child, r) && is_shape_of(shape, sheet_file@),
{
    let shape = path_shape(sheet_file);
    plan_add_sheet(sheets, name, &shape, child)
}

/// The path of a sheet instance below the root.
pub fn instance_path(root_uuid: &str, sheet_uuid: &str) -> (r: String)
    ensures
        r@ == "/"@ + root_uuid@ + "/"@ + sheet_uuid@,
{
    text::cat4("/", root_uuid, "/", sheet_uuid)
}

// ─── Editing ──────────────────────────────────────────────────────────────

/// What is to be set on a sheet. A position counts only with both of its
/// coordinates, and a size only with both of its lengths.
pub struct SheetEdit {
    pub new_name: Option<String>,
    pub new_file: Option<String>,
    pub x: Option<i64>,
    pub y: Option<i64>,
    pub width: Option<i64>,
    pub height: Option<i64>,
}

/// Which fields were asked for, and which of them differ.
pub struct EditOutcome {
    pub requested: Vec<&'static str>,
    pub changed: Vec<&'static str>,
}

/// The name, if the condition holds.
pub open spec fn named_if(c: bool, name: Seq<char>) -> Seq<Seq<char>> {
    if c {
        seq![name]
    } else {
        Seq::empty()
    }
}

/// Whether a position is asked for.
pub open spec fn asks_position(e: SheetEdit) -> bool {
    e.x is Some && e.y is Some
}

/// Whether a size is asked for.
pub open spec fn asks_size(e: SheetEdit) -> bool {
    e.width is Some && e.height is Some
}

/// The fields that are asked for.
pub open spec fn requested_fields(e: SheetEdit) -> Seq<Seq<char>> {
    named_if(e.new_name is Some, "name"@) + named_if(e.new_file is Some, "file"@) + named_if(
        asks_position(e),
        "position"@,
    ) + named_if(asks_size(e), "size"@)
}

/// The fields that are asked for and differ from what the sheet has.
pub open spec fn changed_fields(s: SheetBox, e: SheetEdit) -> Seq<Seq<char>> {
    named_if(e.new_name matches Some(n) && n@ != s.name@, "name"@) + named_if(
        e.new_file matches Some(f) && f@ != s.file@,
        "file"@,
    ) + named_if(asks_position(e) && (e.x->0 != s.x || e.y->0 != s.y), "position"@) + named_if(
        asks_size(e) && (e.width->0 != s.width || e.height->0 != s.height),
        "size"@,
    )
}

/// Whether the sheet is the old one with the edit made.
pub open spec fn is_edited(s: SheetBox, e: SheetEdit, new: SheetBox) -> bool {
    &&& new.name@ == match e.new_name {
        Some(n) => n@,
        None => s.name@,
    }
    &&& new.file@ == match e.new_file {
        Some(f) => f@,
        None => s.file@,
    }
    &&& new.x == if asks_position(e) {
        e.x->0
    } else {
        s.x
    }
    &&& new.y == if asks_position(e) {
        e.y->0
    } else {
        s.y
    }
    &&& new.width == if asks_size(e) {
        e.width->0
    } else {
        s.width
    }
    &&& new.height == if asks_size(e) {
        e.height->0
    } else {
        s.height
    }
    &&& new.uuid == s.uuid
    &&& new.page == s.page
    &&& new.pins == s.pins
    &&& new.child == s.child
    &&& new.child_path == s.child_path
    &&& new.child_key == s.child_key
}

/// Edits a sheet. Asking for what the sheet has already is honoured and
/// changes nothing; asking for nothing is refused.
pub fn edit_sheet(sheet: &mut SheetBox, edit: &SheetEdit) -> (r: Result<EditOutcome, String>)
    ensures
        r is Ok <==> requested_fields(*edit).len() > 0,
        r matches Ok(o) ==> {
            &&& models(o.requested@) == requested_fields(*edit)
            &&& models(o.changed@) == changed_fields(*old(sheet), *edit)
            &&& is_edited(*old(sheet), *edit, *final(sheet))
        },
        r matches Err(e) ==> *final(sheet) == *old(sheet) && e@
            == "No fields to change — provide at least one of: new_name, new_file, x+y, width+height"@,
{
    let mut requested: Vec<&'static str> = Vec::new();
    let mut changed: Vec<&'static str> = Vec::new();
    if let Some(n) = &edit.new_name {
        push_model(&mut requested, "name");
        if !text::same(sheet.name.as_str(), n.as_str()) {
            sheet.name = n.clone();
            push_model(&mut changed, "name");
        }
    }
    let ghost r1 = named_if(edit.new_name is Some, "name"@);
    let ghost c1 = named_if(edit.new_name is Some && edit.new_name->0@ != old(sheet).name@, "name"@);
    proof {
        assert(models(requested@) =~= r1);
        assert(models(changed@) =~= c1);
    }
    if let Some(f) = &edit.new_file {
        push_model(&mut requested, "file");
        if !text::same(sheet.file.as_str(), f.as_str()) {
            sheet.file = f.clone();
            push_model(&mut changed, "file");
        }
    }
    let ghost r2 = r1 + named_if(edit.new_file is Some, "file"@);
    let ghost c2 = c1 + named_if(edit.new_file is Some && edit.new_file->0@ != old(sheet).file@, "file"@);
    proof {
        assert(models(requested@) =~= r2);
        assert(models(changed@) =~= c2);
    }
    if let (Some(x), Some(y)) = (edit.x, edit.y) {
        push_model(&mut requested, "position");
        if sheet.x != x || sheet.y != y {
            sheet.x = x;
            sheet.y = y;
            push_model(&mut changed, "position");
        }
    }
    let ghost r3 = r2 + named_if(asks_position(*edit), "position"@);
    let ghost c3 = c2 + named_if(
        asks_position(*edit) && (edit.x->0 != old(sheet).x || edit.y->0 != old(sheet).y),
        "position"@,
    );
    proof {
        assert(models(requested@) =~= r3);
        assert(models(changed@) =~= c3);
    }
    if let (Some(w), Some(h)) = (edit.width, edit.height) {
        push_model(&mut requested, "size");
        if sheet.width != w || sheet.height != h {
            sheet.width = w;
            sheet.height = h;
            push_model(&mut changed, "size");
        }
    }
    proof {
        assert(models(requested@) =~= requested_fields(*edit));
        assert(models(changed@) =~= changed_fields(*old(sheet), *edit));
    }
    if requested.len() == 0 {
        return Err(
            "No fields to change — provide at least one of: new_name, new_file, x+y, width+height".to_owned(),
        );
    }
    Ok(EditOutcome { requested, changed })
}

/// Making the same edit again changes nothing.
pub proof fn law_edit_is_idempotent(s: SheetBox, e: SheetEdit, once: SheetBox)
    requires
        is_edited(s, e, once),
    ensures
        changed_fields(once, e) == Seq::<Seq<char>>::empty(),
{
    assert(changed_fields(once, e) =~= Seq::<Seq<char>>::empty());
}

/// What is told of a sheet that is not there.
pub open spec fn sheet_not_found(name: Seq<char>) -> Seq<char> {
    "Sheet '"@ + name + "' not found"@
}

/// The sheet of that name.
pub fn require_sheet(sheets: &Vec<SheetBox>, name: &str) -> (r: Result<usize, String>)
    ensures
        match r {
            Ok(i) => sheet_named(sheets@, name@) == Some(i as int) && i < sheets@.len(),
            Err(e) => sheet_named(sheets@, name@) is None && e@ == sheet_not_found(name@),
        },
{
    match find_sheet(sheets, name) {
        Some(i) => Ok(i),
        None => Err(text::cat3("Sheet '", name, "' not found")),
    }
}

/// Moves a sheet, and says whether that changed its position.
pub fn move_sheet(sheet: &mut SheetBox, x: i64, y: i64) -> (changed: bool)
    ensures
        changed == (old(sheet).x != x || old(sheet).y != y),
        *final(sheet) == (SheetBox { x, y, ..*old(sheet) }),
{
    let changed = sheet.x != x || sheet.y != y;
    sheet.x = x;
    sheet.y = y;
    changed
}

/// The file of the sheet that a deletion leaves behind, and the position of
/// the sheet that it removes.
pub fn delete_sheet(sheets: &Vec<SheetBox>, name: &str) -> (r: Result<(usize, String), String>)
    ensures
        match r {
            Ok(d) => sheet_named(sheets@, name@) == Some(d.0 as int) && d.1@
                == sheets@[d.0 as int].file@,
            Err(e) => sheet_named(sheets@, name@) is None && e@ == sheet_not_found(name@),
        },
{
    match require_sheet(sheets, name) {
        Ok(i) => Ok((i, sheets[i].file.clone())),
        Err(e) => Err(e),
    }
}

// ─── Duplicating ──────────────────────────────────────────────────────────

/// What stands where the copy and the source are: whether the copy's directory
/// exists, whether something is at its path already, and whether the source is
/// there.
pub struct CopyFacts {
    pub dir_exists: bool,
    pub copy_exists: bool,
    pub source_exists: bool,
}

/// Where the copy of a sheet goes and what it looks like.
pub struct DuplicatePlan {
    pub source: usize,
    pub x: i64,
    pub y: i64,
    pub width: i64,
    pub height: i64,
    pub page: String,
}

/// Why a sheet cannot be duplicated.
pub open spec fn duplicate_error(
    sheets: Seq<SheetBox>,
    source: Seq<char>,
    new_name: Seq<char>,
    new_file: Seq<char>,
    shape: PathShape,
    facts: CopyFacts,
) -> Option<Seq<char>> {
    if sheet_named(sheets, new_name) is Some {
        Some("Sheet named '"@ + new_name + "' already exists"@)
    } else {
        match sheet_named(sheets, source) {
            None => Some(sheet_not_found(source)),
            Some(i) => if !is_child_shape(shape) || !facts.dir_exists {
                Some(
                    "new_file must be a relative .kicad_sch path in an existing project directory"@,
                )
            } else if facts.copy_exists {
                Some(
                    "'"@ + new_file
                        + "' already exists — pick a different file name, or use add_hierarchical_sheet to link the existing file instead of duplicating"@,
                )
            } else if !facts.source_exists {
                Some(
                    "Source sheet's file '"@ + sheets[i].file@
                        + "' was not found on disk — cannot duplicate"@,
                )
            } else {
                None
            },
        }
    }
}

/// Whether a copy of the sheet stays on the canvas.
pub open spec fn copy_fits(s: SheetBox) -> bool {
    s.x + DUPLICATE_OFFSET_NM <= i64::MAX && s.y + DUPLICATE_OFFSET_NM <= i64::MAX
}

/// What the duplication of a sheet comes to: its copy is offset, of the same
/// size, and on a page of its own.
pub open spec fn is_duplicate_outcome(
    sheets: Seq<SheetBox>,
    source: Seq<char>,
    new_name: Seq<char>,
    new_file: Seq<char>,
    shape: PathShape,
    facts: CopyFacts,
    r: Result<DuplicatePlan, String>,
) -> bool {
    match r {
        Ok(p) => {
            &&& duplicate_error(sheets, source, new_name, new_file, shape, facts) is None
            &&& sheet_named(sheets, source) == Some(p.source as int)
            &&& p.x == sheets[p.source as int].x + DUPLICATE_OFFSET_NM
            &&& p.y == sheets[p.source as int].y + DUPLICATE_OFFSET_NM
            &&& p.width == sheets[p.source as int].width
            &&& p.height == sheets[p.source as int].height
            &&& p.page@ == decimal(highest_page(sheets, sheets.len()) + 1)
        },
        Err(e) => duplicate_error(sheets, source, new_name, new_file, shape, facts) == Some(e@),
    }
}

/// How a sheet is duplicated.
pub fn plan_duplicate_sheet(
    sheets: &Vec<SheetBox>,
    source: &str,
    new_name: &str,
    new_file: &str,
    shape: &PathShape,
    facts: &CopyFacts,
) -> (r: Result<DuplicatePlan, String>)
    requires
        sheet_named(sheets@, source@) matches Some(i) ==> copy_fits(sheets@[i]),
    ensures
        is_duplicate_outcome(sheets@, source@, new_name@, new_file@, *shape, *facts, r),
{
    if find_sheet(sheets, new_name).is_some() {
        return Err(text::cat3("Sheet named '", new_name, "' already exists"));
    }
    let i: usize = match require_sheet(sheets, source) {
        Ok(i) => i,
        Err(e) => {
            return Err(e);
        },
    };
    if !accepts_shape(shape) || !facts.dir_exists {
        return Err(
            "new_file must be a relative .kicad_sch path in an existing project directory".to_owned(),
        );
    }
    if facts.copy_exists {
        return Err(
            text::cat3(
                "'",
                new_file,
                "' already exists — pick a different file name, or use add_hierarchical_sheet to link the existing file instead of duplicating",
            ),
        );
    }
    if !facts.source_exists {
        return Err(
            text::cat3(
                "Source sheet's file '",
                sheets[i].file.as_str(),
                "' was not found on disk — cannot duplicate",
            ),
        );
    }
    let s = &sheets[i];
    Ok(
        DuplicatePlan {
            source: i,
            x: s.x + DUPLICATE_OFFSET_NM,
            y: s.y + DUPLICATE_OFFSET_NM,
            width: s.width,
            height: s.height,
            page: text::decimal_text(next_free_page(sheets)),
        },
    )
}

/// How a sheet is duplicated to the path that a caller names.
pub fn duplicate_sheet(
    sheets: &Vec<SheetBox>,
    source: &str,
    new_name: &str,
    new_file: &str,
    facts: &CopyFacts,
) -> (r: Result<DuplicatePlan, String>)
    requires
        sheet_named(sheets@, source@) matches Some(i) ==> copy_fits(sheets@[i]),
    ensures
        exists|shape: PathShape| #[trigger]
            is_duplicate_outcome(sheets@, source@, new_name@, new_file@, shape, *facts, r)
                && is_shape_of(shape, new_file@),
{
    let shape = path_shape(new_file);
    plan_duplicate_sheet(sheets, source, new_name, new_file, &shape, facts)
}

// ─── Files ────────────────────────────────────────────────────────────────

/// A change of a file: one that holds what was read is replaced, or one that is
/// not there is created.
pub enum FileTransition {
    Replace { path: String, before: String, after: String },
    Create { path: String, content: String },
}

/// The model of a change of a file.
pub ghost enum TransitionView {
    Replace { path: Seq<char>, before: Seq<char>, after: Seq<char> },
    Create { path: Seq<char>, content: Seq<char> },
}

impl View for FileTransition {
    type V = TransitionView;

    open spec fn view(&self) -> TransitionView {
        match self {
            FileTransition::Replace { path, before, after } => TransitionView::Replace {
                path: path@,
                before: before@,
                after: after@,
            },
            FileTransition::Create { path, content } => TransitionView::Create {
                path: path@,
                content: content@,
            },
        }
    }
}

/// The file of a child sheet: not there, or there with that text. `linked` is
/// the text with its symbols linked to the sheet, where any was not.
pub enum ChildFile {
    Missing,
    Present { before: String, linked: Option<String> },
}

/// What becomes of the file of a child sheet: a missing one is created blank,
/// and one that is there changes only where a symbol of it is linked.
pub open spec fn child_transition(
    path: Seq<char>,
    child: ChildFile,
    blank: Seq<char>,
) -> Seq<TransitionView> {
    match child {
        ChildFile::Missing => seq![TransitionView::Create { path, content: blank }],
        ChildFile::Present { before, linked } => match linked {
            Some(after) => seq![
                TransitionView::Replace { path, before: before@, after: after@ },
            ],
            None => Seq::empty(),
        },
    }
}

/// The files that change where a sheet is added: the schematic, and then the
/// file of the sheet.
pub fn add_sheet_transitions(
    parent: &str,
    before: String,
    after: String,
    child_path: &str,
    child: ChildFile,
    blank: String,
) -> (list: Vec<FileTransition>)
    ensures
        models(list@) == seq![
            TransitionView::Replace { path: parent@, before: before@, after: after@ },
        ] + child_transition(child_path@, child, blank@),
{
    let ghost first = TransitionView::Replace { path: parent@, before: before@, after: after@ };
    let ghost rest = child_transition(child_path@, child, blank@);
    let mut list: Vec<FileTransition> = Vec::new();
    push_model(&mut list, FileTransition::Replace { path: parent.to_owned(), before, after });
    proof {
        assert(models(list@) =~= seq![first]);
    }
    match child {
        ChildFile::Missing => {
            push_model(
                &mut list,
                FileTransition::Create { path: child_path.to_owned(), content: blank },
            );
        },
        ChildFile::Present { before, linked } => {
            if let Some(after) = linked {
                push_model(
                    &mut list,
                    FileTransition::Replace { path: child_path.to_owned(), before, after },
                );
            }
        },
    }
    proof {
        assert(models(list@) =~= seq![first] + rest);
    }
    list
}

/// The files that change where a sheet is duplicated: the schematic, and the
/// copy of the sheet's file.
pub fn duplicate_transitions(
    parent: &str,
    before: String,
    after: String,
    copy_path: &str,
    copy: String,
) -> (list: Vec<FileTransition>)
    ensures
        models(list@) == seq![
            TransitionView::Replace { path: parent@, before: before@, after: after@ },
            TransitionView::Create { path: copy_path@, content: copy@ },
        ],
{
    let ghost all = seq![
        TransitionView::Replace { path: parent@, before: before@, after: after@ },
        TransitionView::Create { path: copy_path@, content: copy@ },
    ];
    let mut list: Vec<FileTransition> = Vec::new();
    push_model(&mut list, FileTransition::Replace { path: parent.to_owned(), before, after });
    push_model(&mut list, FileTransition::Create { path: copy_path.to_owned(), content: copy });
    proof {
        assert(models(list@) =~= all);
    }
    list
}

/// A file that is there is never created anew: its text is replaced only where
/// a symbol of it is linked, and only while it is what was read.
pub proof fn law_existing_child_is_kept(path: Seq<char>, child: ChildFile, blank: Seq<char>, i: int)
    requires
        child is Present,
        0 <= i < child_transition(path, child, blank).len(),
    ensures
        child_transition(path, child, blank)[i] is Replace,
        child_transition(path, child, blank)[i]->Replace_before == child->before@,
{
}

// ─── Pins ─────────────────────────────────────────────────────────────────

/// Position of the first pin of that name.
pub open spec fn pin_named(pins: Seq<SheetPin>, name: Seq<char>) -> Option<int>
    decreases pins.len(),
{
    if pins.len() == 0 {
        None
    } else {
        match pin_named(pins.drop_last(), name) {
            Some(i) => Some(i),
            None => if pins.last().name@ == name {
                Some(pins.len() - 1)
            } else {
                None
            },
        }
    }
}

/// The first pin of a name is within the list and has that name.
pub proof fn lemma_pin_named(pins: Seq<SheetPin>, name: Seq<char>)
    ensures
        match pin_named(pins, name) {
            Some(i) => 0 <= i < pins.len() && pins[i].name@ == name && forall|j: int|
                0 <= j < i ==> (#[trigger] pins[j]).name@ != name,
            None => forall|j: int| 0 <= j < pins.len() ==> (#[trigger] pins[j]).name@ != name,
        },
    decreases pins.len(),
{
    if pins.len() > 0 {
        let rest = pins.drop_last();
        lemma_pin_named(rest, name);
        assert forall|j: int| 0 <= j < rest.len() implies (#[trigger] pins[j]) == rest[j] by {}
    }
}

fn find_pin(pins: &Vec<SheetPin>, name: &str) -> (r: Option<usize>)
    ensures
        match r {
            Some(i) => i < pins@.len() && pin_named(pins@, name@) == Some(i as int),
            None => pin_named(pins@, name@) is None,
        },
{
    let mut i: usize = 0;
    while i < pins.len()
        invariant
            i <= pins@.len(),
            forall|j: int| 0 <= j < i ==> (#[trigger] pins@[j]).name@ != name@,
        decreases pins@.len() - i,
    {
        if text::same(pins[i].name.as_str(), name) {
            proof {
                lemma_pin_named(pins@, name@);
            }
            return Some(i);
        }
        i += 1;
    }
    proof {
        lemma_pin_named(pins@, name@);
    }
    None
}

/// The model of a pin.
pub ghost struct SheetPinView {
    pub name: Seq<char>,
    pub pin_type: Seq<char>,
    pub x: int,
    pub y: int,
    pub rotation: Option<i64>,
}

impl View for SheetPin {
    type V = SheetPinView;

    open spec fn view(&self) -> SheetPinView {
        SheetPinView {
            name: self.name@,
            pin_type: self.pin_type@,
            x: self.x as int,
            y: self.y as int,
            rotation: self.rotation,
        }
    }
}

/// Adds a pin to a sheet that has none of that name.
pub fn add_sheet_pin(
    sheet: &mut SheetBox,
    pin_name: &str,
    pin_type: &str,
    x: i64,
    y: i64,
) -> (r: Result<(), String>)
    ensures
        r is Ok <==> is_pin_type(pin_type@) && pin_named(old(sheet).pins@, pin_name@) is None,
        r is Ok ==> models(final(sheet).pins@) == models(old(sheet).pins@).push(
            SheetPinView { name: pin_name@, pin_type: pin_type@, x: x as int, y: y as int, rotation: None },
        ),
        r is Ok ==> *final(sheet) == (SheetBox { pins: final(sheet).pins, ..*old(sheet) }),
        r matches Err(e) ==> *final(sheet) == *old(sheet) && e@ == if !is_pin_type(pin_type@) {
            pin_type_error(pin_type@)
        } else {
            "Sheet '"@ + old(sheet).name@ + "' already has a pin named '"@ + pin_name@ + "'"@
        },
{
    match validate_pin_type(pin_type) {
        Ok(_) => {},
        Err(e) => {
            return Err(e);
        },
    }
    if find_pin(&sheet.pins, pin_name).is_some() {
        return Err(
            text::cat5(
                "Sheet '",
                sheet.name.as_str(),
                "' already has a pin named '",
                pin_name,
                "'",
            ),
        );
    }
    push_model(
        &mut sheet.pins,
        SheetPin {
            name: pin_name.to_owned(),
            pin_type: pin_type.to_owned(),
            x,
            y,
            rotation: None,
        },
    );
    Ok(())
}

/// What is told of a pin that is not there.
pub open spec fn pin_not_found(pin: Seq<char>, sheet: Seq<char>) -> Seq<char> {
    "Pin '"@ + pin + "' not found on sheet '"@ + sheet + "'"@
}

/// What is to be set on a pin. A position counts only with both coordinates.
pub struct PinEdit {
    pub new_name: Option<String>,
    pub pin_type: Option<String>,
    pub x: Option<i64>,
    pub y: Option<i64>,
}

/// The fields that a pin edit sets.
pub open spec fn pin_fields(e: PinEdit) -> Seq<Seq<char>> {
    named_if(e.new_name is Some, "name"@) + named_if(e.pin_type is Some, "pin_type"@) + named_if(
        e.x is Some && e.y is Some,
        "position"@,
    )
}

/// The pin with the edit made.
pub open spec fn edited_pin(p: SheetPinView, e: PinEdit) -> SheetPinView {
    SheetPinView {
        name: match e.new_name {
            Some(n) => n@,
            None => p.name,
        },
        pin_type: match e.pin_type {
            Some(t) => t@,
            None => p.pin_type,
        },
        x: if e.x is Some && e.y is Some {
            e.x->0 as int
        } else {
            p.x
        },
        y: if e.x is Some && e.y is Some {
            e.y->0 as int
        } else {
            p.y
        },
        rotation: p.rotation,
    }
}

/// Why a pin cannot be edited.
pub open spec fn pin_edit_error(s: SheetBox, pin: Seq<char>, e: PinEdit) -> Option<Seq<char>> {
    if e.pin_type is Some && !is_pin_type(e.pin_type->0@) {
        Some(pin_type_error(e.pin_type->0@))
    } else if pin_named(s.pins@, pin) is None {
        Some(pin_not_found(pin, s.name@))
    } else if pin_fields(e).len() == 0 {
        Some("No fields to change — provide at least one of: new_name, pin_type, x+y"@)
    } else {
        None
    }
}

/// Edits a pin of a sheet. Asking for what the pin has already is honoured.
pub fn edit_sheet_pin(sheet: &mut SheetBox, pin_name: &str, edit: &PinEdit) -> (r: Result<
    Vec<&'static str>,
    String,
>)
    ensures
        match r {
            Ok(fields) => {
                &&& pin_edit_error(*old(sheet), pin_name@, *edit) is None
                &&& models(fields@) == pin_fields(*edit)
                &&& pin_named(old(sheet).pins@, pin_name@) matches Some(i) && models(
                    final(sheet).pins@,
                ) == models(old(sheet).pins@).update(
                    i,
                    edited_pin(old(sheet).pins@[i]@, *edit),
                )
                &&& *final(sheet) == (SheetBox { pins: final(sheet).pins, ..*old(sheet) })
            },
            Err(e) => pin_edit_error(*old(sheet), pin_name@, *edit) == Some(e@) && *final(sheet)
                == *old(sheet),
        },
{
    if let Some(t) = &edit.pin_type {
        match validate_pin_type(t.as_str()) {
            Ok(_) => {},
            Err(e) => {
                return Err(e);
            },
        }
    }
    let i: usize = match find_pin(&sheet.pins, pin_name) {
        Some(i) => i,
        None => {
            return Err(
                text::cat5(
                    "Pin '",
                    pin_name,
                    "' not found on sheet '",
                    sheet.name.as_str(),
                    "'",
                ),
            );
        },
    };
    let mut fields: Vec<&'static str> = Vec::new();
    let old_pin = &sheet.pins[i];
    let mut pin = SheetPin {
        name: old_pin.name.clone(),
        pin_type: old_pin.pin_type.clone(),
        x: old_pin.x,
        y: old_pin.y,
        rotation: old_pin.rotation,
    };
    if let Some(n) = &edit.new_name {
        pin.name = n.clone();
        push_model(&mut fields, "name");
    }
    if let Some(t) = &edit.pin_type {
        pin.pin_type = t.clone();
        push_model(&mut fields, "pin_type");
    }
    if let (Some(x), Some(y)) = (edit.x, edit.y) {
        pin.x = x;
        pin.y = y;
        push_model(&mut fields, "position");
    }
    proof {
        assert(models(fields@) =~= pin_fields(*edit));
    }
    if fields.len() == 0 {
        return Err(
            "No fields to change — provide at least one of: new_name, pin_type, x+y".to_owned(),
        );
    }
    let ghost made = pin@;
    sheet.pins.set(i, pin);
    proof {
        assert(models(sheet.pins@) =~= models(old(sheet).pins@).update(i as int, made));
    }
    Ok(fields)
}

/// Making the same pin edit again changes nothing more.
pub proof fn law_pin_edit_is_idempotent(p: SheetPinView, e: PinEdit)
    ensures
        edited_pin(edited_pin(p, e), e) == edited_pin(p, e),
{
}

/// Removes the first pin of that name and nothing else.
pub fn delete_sheet_pin(sheet: &mut SheetBox, pin_name: &str) -> (r: Result<(), String>)
    ensures
        match r {
            Ok(_) => {
                &&& pin_named(old(sheet).pins@, pin_name@) matches Some(i) && final(sheet).pins@
                    == old(sheet).pins@.remove(i)
                &&& *final(sheet) == (SheetBox { pins: final(sheet).pins, ..*old(sheet) })
            },
            Err(e) => pin_named(old(sheet).pins@, pin_name@) is None && *final(sheet)
                == *old(sheet) && e@ == pin_not_found(pin_name@, old(sheet).name@),
        },
{
    match find_pin(&sheet.pins, pin_name) {
        Some(i) => {
            let _gone = sheet.pins.remove(i);
            Ok(())
        },
        None => Err(
            text::cat5("Pin '", pin_name, "' not found on sheet '", sheet.name.as_str(), "'"),
        ),
    }
}

// ─── Importing pins ───────────────────────────────────────────────────────

/// The pin type for a label: its shape, if that is a pin type, and else
/// passive.
pub open spec fn imported_type(l: HierarchicalLabel) -> Seq<char> {
    match l.shape {
        Some(s) => if is_pin_type(s@) {
            s@
        } else {
            "passive"@
        },
        None => "passive"@,
    }
}

/// Where a sheet's right or left edge is.
pub open spec fn edge_x(s: SheetBox, right: bool) -> int {
    if right {
        s.x + s.width
    } else {
        s.x as int
    }
}

/// The pins of a sheet after the first `n` labels have been imported. A label
/// whose name has a pin already is passed over; the others are stacked on the
/// edge, below as many slots as there were pins.
pub open spec fn imported_pins(
    s: SheetBox,
    labels: Seq<HierarchicalLabel>,
    right: bool,
    n: nat,
) -> Seq<SheetPinView>
    decreases n,
{
    if n == 0 {
        models(s.pins@)
    } else {
        let rest = imported_pins(s, labels, right, (n - 1) as nat);
        let l = labels[n - 1];
        if has_pin(rest, l.text@) {
            rest
        } else {
            rest.push(
                SheetPinView {
                    name: l.text@,
                    pin_type: imported_type(l),
                    x: edge_x(s, right),
                    y: s.y + SHEET_PIN_SPACING_NM * (rest.len() + 1),
                    rotation: Some(
                        if right {
                            0i64
                        } else {
                            180i64
                        },
                    ),
                },
            )
        }
    }
}

/// Whether one of the pins has the name.
pub open spec fn has_pin(pins: Seq<SheetPinView>, name: Seq<char>) -> bool {
    exists|i: int| 0 <= i < pins.len() && (#[trigger] pins[i]).name == name
}

/// The names of the first `n` labels that were imported, or those that were
/// passed over.
pub open spec fn label_names(
    s: SheetBox,
    labels: Seq<HierarchicalLabel>,
    right: bool,
    imported: bool,
    n: nat,
) -> Seq<Seq<char>>
    decreases n,
{
    if n == 0 {
        Seq::empty()
    } else {
        let rest = label_names(s, labels, right, imported, (n - 1) as nat);
        let l = labels[n - 1];
        if has_pin(imported_pins(s, labels, right, (n - 1) as nat), l.text@) != imported {
            rest.push(l.text@)
        } else {
            rest
        }
    }
}

/// Which labels were imported, and which were passed over.
pub struct ImportOutcome {
    pub imported: Vec<String>,
    pub skipped_existing: Vec<String>,
}

/// Whether the sheet is so placed that no pin that it gets leaves the canvas.
pub open spec fn import_fits(
    s: SheetBox,
    labels: Seq<HierarchicalLabel>,
    side: Seq<char>,
) -> bool {
    let right = side == "right"@;
    let after = imported_pins(s, labels, right, labels.len());
    (right || side == "left"@) && after.len() > s.pins@.len() ==> {
        &&& i64::MIN <= edge_x(s, right) <= i64::MAX
        &&& s.y + SHEET_PIN_SPACING_NM * after.len() <= i64::MAX
    }
}

/// Whether the sheet is so placed that no pin that it gets leaves the canvas.
pub fn fits_import(s: &SheetBox, labels: &Vec<HierarchicalLabel>, side: &str) -> (r: bool)
    ensures
        r == import_fits(*s, labels@, side@),
{
    let right: bool = text::same(side, "right");
    if !right && !text::same(side, "left") {
        return true;
    }
    let mut names: Vec<String> = Vec::new();
    let mut i: usize = 0;
    proof {
        assert(models(names@) =~= Seq::empty());
    }
    while i < labels.len()
        invariant
            i <= labels@.len(),
            names@.len() <= i,
            models(names@).len() == names@.len(),
            imported_pins(*s, labels@, right, i as nat).len() == s.pins@.len() + names@.len(),
            forall|t: Seq<char>| #[trigger]
                has_pin(imported_pins(*s, labels@, right, i as nat), t) <==> has_pin(
                    models(s.pins@),
                    t,
                ) || models(names@).contains(t),
        decreases labels@.len() - i,
    {
        let name = labels[i].text.as_str();
        let ghost had = models(names@);
        let ghost rest = imported_pins(*s, labels@, right, i as nat);
        let ghost now = imported_pins(*s, labels@, right, (i + 1) as nat);
        if !has_pin_named(&s.pins, name) && !text::list_contains(&names, name) {
            push_model(&mut names, labels[i].text.clone());
            proof {
                assert(now.drop_last() =~= rest);
                assert forall|t: Seq<char>| #[trigger] has_pin(now, t) <==> has_pin(
                    models(s.pins@),
                    t,
                ) || models(names@).contains(t) by {
                    lemma_contains_push(had, name@, t);
                    lemma_pin_pushed(rest, now.last(), t);
                }
            }
        }
        i += 1;
    }
    if names.len() == 0 {
        return true;
    }
    let edge: i128 = if right { s.x as i128 + s.width as i128 } else { s.x as i128 };
    let slots: i128 = s.pins.len() as i128 + names.len() as i128;
    let low: i128 = s.y as i128 + 2540000 * slots;
    -0x8000_0000_0000_0000 <= edge && edge <= 0x7fff_ffff_ffff_ffff && low
        <= 0x7fff_ffff_ffff_ffff
}

proof fn lemma_pin_pushed(rest: Seq<SheetPinView>, p: SheetPinView, t: Seq<char>)
    ensures
        has_pin(rest.push(p), t) <==> has_pin(rest, t) || p.name == t,
{
    let now = rest.push(p);
    if has_pin(rest, t) {
        let i = choose|i: int| 0 <= i < rest.len() && (#[trigger] rest[i]).name == t;
        assert(now[i].name == t);
    }
    if p.name == t {
        assert(now[rest.len() as int].name == t);
    }
    if has_pin(now, t) && p.name != t {
        let i = choose|i: int| 0 <= i < now.len() && (#[trigger] now[i]).name == t;
        assert(rest[i].name == t);
    }
}

/// An import never has fewer pins after more labels.
proof fn lemma_import_grows(
    s: SheetBox,
    labels: Seq<HierarchicalLabel>,
    right: bool,
    n: nat,
    m: nat,
)
    requires
        n <= m,
    ensures
        s.pins@.len() <= imported_pins(s, labels, right, n).len() <= imported_pins(
            s,
            labels,
            right,
            m,
        ).len(),
    decreases m,
{
    if n < m {
        lemma_import_grows(s, labels, right, n, (m - 1) as nat);
    } else if n > 0 {
        lemma_import_grows(s, labels, right, (n - 1) as nat, (n - 1) as nat);
    }
}

fn has_pin_named(pins: &Vec<SheetPin>, name: &str) -> (r: bool)
    ensures
        r == has_pin(models(pins@), name@),
{
    let ghost all = models(pins@);
    let mut i: usize = 0;
    while i < pins.len()
        invariant
            i <= pins@.len(),
            all == models(pins@),
            forall|j: int| 0 <= j < i ==> (#[trigger] all[j]).name != name@,
        decreases pins@.len() - i,
    {
        proof {
            assert(all[i as int] == pins@[i as int]@);
        }
        if text::same(pins[i].name.as_str(), name) {
            return true;
        }
        i += 1;
    }
    false
}

fn type_for(l: &HierarchicalLabel) -> (r: String)
    ensures
        r@ == imported_type(*l),
{
    match &l.shape {
        Some(s) => if known_pin_type(s.as_str()) {
            s.clone()
        } else {
            "passive".to_owned()
        },
        None => "passive".to_owned(),
    }
}

/// Gives a sheet a pin for each label of its file that has none. `side` is
/// `right` or `left`.
pub fn import_sheet_pins(sheet: &mut SheetBox, labels: &Vec<HierarchicalLabel>, side: &str) -> (r:
    Result<ImportOutcome, String>)
    requires
        import_fits(*old(sheet), labels@, side@),
    ensures
        r is Ok <==> side@ == "right"@ || side@ == "left"@,
        r matches Ok(o) ==> {
            let right = side@ == "right"@;
            &&& models(final(sheet).pins@) == imported_pins(
                *old(sheet),
                labels@,
                right,
                labels@.len(),
            )
            &&& models(o.imported@) == label_names(
                *old(sheet),
                labels@,
                right,
                true,
                labels@.len(),
            )
            &&& models(o.skipped_existing@) == label_names(
                *old(sheet),
                labels@,
                right,
                false,
                labels@.len(),
            )
            &&& *final(sheet) == (SheetBox { pins: final(sheet).pins, ..*old(sheet) })
        },
        r matches Err(e) ==> *final(sheet) == *old(sheet) && e@ == "Invalid side '"@ + side@
            + "' — must be 'right' or 'left'"@,
{
    let right: bool = text::same(side, "right");
    if !right && !text::same(side, "left") {
        return Err(text::cat3("Invalid side '", side, "' — must be 'right' or 'left'"));
    }
    let ghost s0 = *sheet;
    let rotation: i64 = if right { 0 } else { 180 };
    let mut imported: Vec<String> = Vec::new();
    let mut skipped_existing: Vec<String> = Vec::new();
    proof {
        assert(models(imported@) =~= Seq::empty());
        assert(models(skipped_existing@) =~= Seq::empty());
    }
    let mut i: usize = 0;
    while i < labels.len()
        invariant
            i <= labels@.len(),
            s0 == *old(sheet),
            *sheet == (SheetBox { pins: sheet.pins, ..s0 }),
            import_fits(s0, labels@, side@),
            right == (side@ == "right"@),
            right || side@ == "left"@,
            rotation == (if right {
                0i64
            } else {
                180i64
            }),
            sheet.pins@.len() <= s0.pins@.len() + i,
            models(sheet.pins@) == imported_pins(s0, labels@, right, i as nat),
            models(imported@) == label_names(s0, labels@, right, true, i as nat),
            models(skipped_existing@) == label_names(s0, labels@, right, false, i as nat),
        decreases labels@.len() - i,
    {
        let l = &labels[i];
        if has_pin_named(&sheet.pins, l.text.as_str()) {
            push_model(&mut skipped_existing, l.text.clone());
        } else {
            proof {
                lemma_import_grows(s0, labels@, right, (i + 1) as nat, labels@.len());
                lemma_import_grows(s0, labels@, right, i as nat, i as nat);
            }
            let x: i64 = if right { sheet.x + sheet.width } else { sheet.x };
            let slots: i128 = sheet.pins.len() as i128 + 1;
            let low: i128 = sheet.y as i128 + 2540000 * slots;
            let y: i64 = low as i64;
            push_model(
                &mut sheet.pins,
                SheetPin {
                    name: l.text.clone(),
                    pin_type: type_for(l),
                    x,
                    y,
                    rotation: Some(rotation),
                },
            );
            push_model(&mut imported, l.text.clone());
        }
        i += 1;
    }
    Ok(ImportOutcome { imported, skipped_existing })
}

/// After an import every label has a pin of its name, and no pin is lost.
pub proof fn law_import_covers_labels(
    s: SheetBox,
    labels: Seq<HierarchicalLabel>,
    right: bool,
    n: nat,
    k: int,
)
    requires
        0 <= k < n <= labels.len(),
    ensures
        has_pin(imported_pins(s, labels, right, n), labels[k].text@),
        models(s.pins@).is_prefix_of(imported_pins(s, labels, right, n)),
    decreases n,
{
    let rest = imported_pins(s, labels, right, (n - 1) as nat);
    let now = imported_pins(s, labels, right, n);
    if k < n - 1 {
        law_import_covers_labels(s, labels, right, (n - 1) as nat, k);
        let i = choose|i: int| 0 <= i < rest.len() && (#[trigger] rest[i]).name == labels[k].text@;
        assert(now[i].name == labels[k].text@);
    } else {
        lemma_import_keeps(s, labels, right, (n - 1) as nat);
        if !has_pin(rest, labels[k].text@) {
            assert(now[rest.len() as int].name == labels[k].text@);
        }
    }
}

proof fn lemma_import_keeps(
    s: SheetBox,
    labels: Seq<HierarchicalLabel>,
    right: bool,
    n: nat,
)
    requires
        n <= labels.len(),
    ensures
        models(s.pins@).is_prefix_of(imported_pins(s, labels, right, n)),
    decreases n,
{
    if n > 0 {
        lemma_import_keeps(s, labels, right, (n - 1) as nat);
    } else {
        assert(models(s.pins@).is_prefix_of(models(s.pins@)));
    }
}

/// Importing labels that all have a pin changes nothing and passes every label
/// over.
proof fn lemma_covered_import(
    s: SheetBox,
    labels: Seq<HierarchicalLabel>,
    right: bool,
    n: nat,
)
    requires
        n <= labels.len(),
        forall|k: int|
            0 <= k < labels.len() ==> has_pin(models(s.pins@), (#[trigger] labels[k]).text@),
    ensures
        imported_pins(s, labels, right, n) == models(s.pins@),
        label_names(s, labels, right, true, n) == Seq::<Seq<char>>::empty(),
        label_names(s, labels, right, false, n) == texts_of(labels).take(n as int),
    decreases n,
{
    let all = texts_of(labels);
    if n > 0 {
        lemma_covered_import(s, labels, right, (n - 1) as nat);
        assert(has_pin(models(s.pins@), labels[n - 1].text@));
        assert(all.take(n as int) =~= all.take(n - 1).push(all[n - 1]));
    } else {
        assert(all.take(0) =~= Seq::empty());
    }
}

/// The texts of the labels.
pub open spec fn texts_of(labels: Seq<HierarchicalLabel>) -> Seq<Seq<char>> {
    labels.map_values(|l: HierarchicalLabel| l.text@)
}

/// How many pins have the name.
pub open spec fn count_pins(pins: Seq<SheetPinView>, name: Seq<char>) -> nat
    decreases pins.len(),
{
    if pins.len() == 0 {
        0
    } else {
        count_pins(pins.drop_last(), name) + (if pins.last().name == name {
            1nat
        } else {
            0
        })
    }
}

proof fn lemma_count_pins(pins: Seq<SheetPinView>, name: Seq<char>)
    ensures
        has_pin(pins, name) <==> count_pins(pins, name) > 0,
    decreases pins.len(),
{
    if pins.len() > 0 {
        lemma_count_pins(pins.drop_last(), name);
        lemma_pin_pushed(pins.drop_last(), pins.last(), name);
        assert(pins.drop_last().push(pins.last()) =~= pins);
    }
}

/// A name that has pins keeps their number; one that has none gets one pin or
/// none.
proof fn lemma_import_counts(
    s: SheetBox,
    labels: Seq<HierarchicalLabel>,
    right: bool,
    n: nat,
    name: Seq<char>,
)
    requires
        n <= labels.len(),
    ensures
        count_pins(imported_pins(s, labels, right, n), name) == (if count_pins(
            models(s.pins@),
            name,
        ) > 0 || !has_pin(imported_pins(s, labels, right, n), name) {
            count_pins(models(s.pins@), name)
        } else {
            1
        }),
    decreases n,
{
    let now = imported_pins(s, labels, right, n);
    lemma_count_pins(now, name);
    if n > 0 {
        let rest = imported_pins(s, labels, right, (n - 1) as nat);
        lemma_import_counts(s, labels, right, (n - 1) as nat, name);
        lemma_count_pins(rest, name);
        if !has_pin(rest, labels[n - 1].text@) {
            assert(now.drop_last() =~= rest);
        }
    }
}

/// What the file of the parent becomes by an import: it is rewritten where a
/// label was imported. No other file changes.
pub open spec fn import_files(
    path: Seq<char>,
    before: Seq<char>,
    after: Seq<char>,
    imported: Seq<Seq<char>>,
) -> Seq<TransitionView> {
    if imported.len() == 0 {
        Seq::empty()
    } else {
        seq![TransitionView::Replace { path, before, after }]
    }
}

/// The files that change by an import.
pub fn import_transitions(
    path: &str,
    before: String,
    after: String,
    outcome: &ImportOutcome,
) -> (list: Vec<FileTransition>)
    ensures
        models(list@) == import_files(path@, before@, after@, models(outcome.imported@)),
{
    let ghost only = TransitionView::Replace { path: path@, before: before@, after: after@ };
    let mut list: Vec<FileTransition> = Vec::new();
    proof {
        assert(models(outcome.imported@).len() == outcome.imported@.len());
        assert(models(list@) =~= Seq::empty());
    }
    if outcome.imported.len() > 0 {
        push_model(&mut list, FileTransition::Replace { path: path.to_owned(), before, after });
        proof {
            assert(models(list@) =~= seq![only]);
        }
    }
    list
}

/// What the import of the labels leaves: every label has a pin of its name,
/// exactly one where there was none and as many as there were otherwise, and the
/// pins that were there stay as they were. A second import of the same labels,
/// on whichever side, is always possible; it imports nothing, passes every label
/// over, leaves the pins as they are and rewrites no file.
pub proof fn law_second_import_adds_nothing(
    s: SheetBox,
    labels: Seq<HierarchicalLabel>,
    right: bool,
    once: SheetBox,
    side: Seq<char>,
    path: Seq<char>,
    before: Seq<char>,
    after: Seq<char>,
)
    requires
        models(once.pins@) == imported_pins(s, labels, right, labels.len()),
    ensures
        models(s.pins@).is_prefix_of(models(once.pins@)),
        forall|k: int|
            0 <= k < labels.len() ==> count_pins(
                models(once.pins@),
                (#[trigger] labels[k]).text@,
            ) == (if count_pins(models(s.pins@), labels[k].text@) > 0 {
                count_pins(models(s.pins@), labels[k].text@)
            } else {
                1
            }),
        import_fits(once, labels, side),
        imported_pins(once, labels, side == "right"@, labels.len()) == models(once.pins@),
        label_names(once, labels, side == "right"@, true, labels.len()) == Seq::<
            Seq<char>,
        >::empty(),
        label_names(once, labels, side == "right"@, false, labels.len()) == texts_of(labels),
        import_files(
            path,
            before,
            after,
            label_names(once, labels, side == "right"@, true, labels.len()),
        ) == Seq::<TransitionView>::empty(),
{
    let n = labels.len();
    lemma_import_keeps(s, labels, right, n);
    assert forall|k: int| 0 <= k < labels.len() implies has_pin(
        models(once.pins@),
        (#[trigger] labels[k]).text@,
    ) && count_pins(models(once.pins@), labels[k].text@) == (if count_pins(
        models(s.pins@),
        labels[k].text@,
    ) > 0 {
        count_pins(models(s.pins@), labels[k].text@)
    } else {
        1
    }) by {
        law_import_covers_labels(s, labels, right, n, k);
        lemma_import_counts(s, labels, right, n, labels[k].text@);
    }
    lemma_covered_import(once, labels, side == "right"@, n);
    assert(texts_of(labels).take(n as int) =~= texts_of(labels));
    assert(models(once.pins@).len() == once.pins@.len());
}

// ─── Laws on sheets and pins ──────────────────────────────────────────────

/// The highest page is that of a sheet, or that of the root where no sheet has a
/// page beyond it: a new sheet leaves no gap.
pub proof fn law_highest_page_is_a_page(sheets: Seq<SheetBox>, n: nat)
    requires
        n <= sheets.len(),
    ensures
        highest_page(sheets, n) == 1 || exists|k: int|
            0 <= k < n && page_number(#[trigger] sheets[k]) == Some(highest_page(sheets, n)),
    decreases n,
{
    if n > 0 {
        law_highest_page_is_a_page(sheets, (n - 1) as nat);
        let rest = highest_page(sheets, (n - 1) as nat);
        if highest_page(sheets, n) == rest && rest != 1 {
            let k = choose|k: int|
                0 <= k < n - 1 && page_number(#[trigger] sheets[k]) == Some(rest);
            assert(page_number(sheets[k]) == Some(highest_page(sheets, n)));
        } else if highest_page(sheets, n) != rest {
            assert(page_number(sheets[n - 1]) == Some(highest_page(sheets, n)));
        }
    }
}

/// A sheet is added exactly if its path is a relative one of names that ends in
/// a schematic, its directory is there, its file is not the parent, its name is
/// not taken, and nothing but a file is at its path.
pub proof fn law_sheets_that_can_be_added(
    sheets: Seq<SheetBox>,
    name: Seq<char>,
    shape: PathShape,
    child: ChildFacts,
)
    ensures
        add_sheet_error(sheets, name, shape, child) is None <==> {
            &&& !shape.absolute
            &&& forall|i: int|
                0 <= i < shape.parts@.len() ==> #[trigger] shape.parts@[i] == PathPart::Name
            &&& shape.extension matches Some(e) && e@ == "kicad_sch"@
            &&& child.dir_exists
            &&& !child.is_parent
            &&& forall|j: int| 0 <= j < sheets.len() ==> (#[trigger] sheets[j]).name@ != name
            &&& !(child.status is NotAFile)
        },
{
    crate::hierarchy::lemma_sheet_named(sheets, name);
}

/// A copy of a sheet stands twenty millimetres to the right of and below its
/// source, is of the same size, and is made only under a name that is free and
/// to a place where nothing is.
pub proof fn law_copies_are_offset(
    sheets: Seq<SheetBox>,
    source: Seq<char>,
    new_name: Seq<char>,
    new_file: Seq<char>,
    shape: PathShape,
    facts: CopyFacts,
    r: Result<DuplicatePlan, String>,
)
    requires
        is_duplicate_outcome(sheets, source, new_name, new_file, shape, facts, r),
    ensures
        r matches Ok(p) ==> {
            let s = sheets[p.source as int];
            &&& p.source < sheets.len()
            &&& s.name@ == source
            &&& p.x == s.x + 20_000_000
            &&& p.y == s.y + 20_000_000
            &&& p.width == s.width
            &&& p.height == s.height
            &&& forall|j: int| 0 <= j < sheets.len() ==> (#[trigger] sheets[j]).name@ != new_name
            &&& !facts.copy_exists
            &&& facts.source_exists
            &&& facts.dir_exists
        },
{
    crate::hierarchy::lemma_sheet_named(sheets, source);
    crate::hierarchy::lemma_sheet_named(sheets, new_name);
}

/// Imported pins are stacked along the edge of the sheet that was asked for, 2.54
/// millimetres apart, and point away from it; the pins that were there stay as
/// they were.
pub proof fn law_imported_pins_are_stacked(
    s: SheetBox,
    labels: Seq<HierarchicalLabel>,
    right: bool,
    n: nat,
    m: int,
)
    requires
        n <= labels.len(),
        0 <= m < imported_pins(s, labels, right, n).len(),
    ensures
        m < s.pins@.len() ==> imported_pins(s, labels, right, n)[m] == s.pins@[m]@,
        m >= s.pins@.len() ==> ({
            let p = imported_pins(s, labels, right, n)[m];
            &&& p.y == s.y + 2_540_000 * (m + 1)
            &&& p.x == (if right {
                s.x + s.width
            } else {
                s.x as int
            })
            &&& p.rotation == Some(
                if right {
                    0i64
                } else {
                    180i64
                },
            )
            &&& exists|k: int|
                0 <= k < n && (#[trigger] labels[k]).text@ == p.name && (p.pin_type == "passive"@
                    || (labels[k].shape matches Some(t) && t@ == p.pin_type))
        }),
    decreases n,
{
    if n > 0 {
        let rest = imported_pins(s, labels, right, (n - 1) as nat);
        if m < rest.len() {
            law_imported_pins_are_stacked(s, labels, right, (n - 1) as nat, m);
            if m >= s.pins@.len() {
                let p = rest[m];
                let k = choose|k: int|
                    0 <= k < n - 1 && (#[trigger] labels[k]).text@ == p.name && (p.pin_type
                        == "passive"@ || (labels[k].shape matches Some(t) && t@ == p.pin_type));
                assert(labels[k].text@ == p.name);
            }
        } else {
            lemma_import_keeps_pins(s, labels, right, (n - 1) as nat);
            assert(labels[n - 1].text@ == imported_pins(s, labels, right, n)[m].name);
        }
    }
}

proof fn lemma_import_keeps_pins(
    s: SheetBox,
    labels: Seq<HierarchicalLabel>,
    right: bool,
    n: nat,
)
    requires
        n <= labels.len(),
    ensures
        imported_pins(s, labels, right, n).len() >= s.pins@.len(),
    decreases n,
{
    if n > 0 {
        lemma_import_keeps_pins(s, labels, right, (n - 1) as nat);
    }
}

/// A label whose shape is a pin type gives a pin of that type, and any other
/// label a passive one.
pub proof fn law_imported_types(l: HierarchicalLabel)
    ensures
        l.shape is None ==> imported_type(l) == "passive"@,
        l.shape matches Some(t) ==> (t@ == "input"@ || t@ == "output"@ || t@ == "bidirectional"@
            || t@ == "tri_state"@ || t@ == "passive"@ ==> imported_type(l) == t@),
        is_pin_type(imported_type(l)),
{
}

/// An edit sets what it asks for and nothing else: a position or a size only with
/// both of its numbers, and never the id, the page or the pins of the sheet.
pub proof fn law_edits_set_what_is_asked(s: SheetBox, e: SheetEdit, new: SheetBox)
    requires
        is_edited(s, e, new),
    ensures
        e.new_name matches Some(n) ==> new.name@ == n@,
        e.new_name is None ==> new.name@ == s.name@,
        e.new_file matches Some(f) ==> new.file@ == f@,
        e.new_file is None ==> new.file@ == s.file@,
        e.x is Some && e.y is Some ==> new.x == e.x->0 && new.y == e.y->0,
        e.x is None || e.y is None ==> new.x == s.x && new.y == s.y,
        e.width is Some && e.height is Some ==> new.width == e.width->0 && new.height
            == e.height->0,
        e.width is None || e.height is None ==> new.width == s.width && new.height == s.height,
        new.uuid == s.uuid && new.page == s.page && new.pins == s.pins && new.child == s.child,
        requested_fields(e).len() == 0 <==> e.new_name is None && e.new_file is None && (e.x is None
            || e.y is None) && (e.width is None || e.height is None),
{
}

/// A pin can be edited exactly if it is there, something is asked for, and its
/// new type, if any, is a pin type.
pub proof fn law_pins_that_can_be_edited(s: SheetBox, pin: Seq<char>, e: PinEdit)
    ensures
        pin_edit_error(s, pin, e) is None <==> {
            &&& exists|i: int| 0 <= i < s.pins@.len() && (#[trigger] s.pins@[i]).name@ == pin
            &&& e.new_name is Some || e.pin_type is Some || (e.x is Some && e.y is Some)
            &&& e.pin_type matches Some(t) ==> (t@ == "input"@ || t@ == "output"@ || t@
                == "bidirectional"@ || t@ == "tri_state"@ || t@ == "passive"@)
        },
{
    lemma_pin_named(s.pins@, pin);
    if let Some(i) = pin_named(s.pins@, pin) {
        assert(s.pins@[i].name@ == pin);
    }
}

/// A sheet that is added has a name and a page that no other sheet has, and takes
/// over its file exactly if that is there.
pub proof fn law_added_sheets_are_new(
    sheets: Seq<SheetBox>,
    name: Seq<char>,
    shape: PathShape,
    child: ChildFacts,
    plan: AddSheetPlan,
    k: int,
)
    requires
        is_add_outcome(sheets, name, shape, child, Ok(plan)),
        0 <= k < sheets.len(),
    ensures
        sheets[k].name@ != name,
        page_number(sheets[k]) matches Some(p) ==> decimal(p) != plan.page@,
        plan.reuse <==> child.status is Size,
{
    law_next_page_is_free(sheets, k, sheets.len());
    crate::hierarchy::lemma_sheet_named(sheets, name);
    if let Some(p) = page_number(sheets[k]) {
        if decimal(p) == plan.page@ {
            text::law_decimal_is_injective(p, highest_page(sheets, sheets.len()) + 1);
        }
    }
}

/// The file of a child sheet lies below its parent and is named as schematics
/// are: neither an absolute path nor one through a parent directory will do.
pub proof fn law_child_files_lie_below(a: Seq<char>, b: Seq<char>)
    ensures
        !leads_to_schematic(seq!['/'] + a),
        !leads_to_schematic(".."@ + seq!['/'] + a),
        a.len() > 0 ==> !leads_to_schematic(a + seq!['/'] + (".."@ + seq!['/'] + b)),
        a.len() > 0 && !a.contains('/') && !a.contains('.') ==> leads_to_schematic(
            a + seq!['.'] + "kicad_sch"@,
        ),
{
    reveal_strlit("..");
    reveal_strlit(".");
    reveal_strlit("kicad_sch");
    crate::paths::law_paths_that_lead_down(a, b);
    crate::paths::law_segments_of_joined_paths(".."@, a);
    crate::paths::law_segments_of_joined_paths(".."@, b);
    let (x, y) = (".."@ + seq!['/'] + a, ".."@ + seq!['/'] + b);
    assert(!".."@.contains('/'));
    assert(crate::paths::segments(x)[0] == ".."@);
    assert(crate::paths::segments(y)[0] == ".."@);
    crate::paths::law_paths_that_lead_down(x, b);
    crate::paths::law_paths_that_lead_down(a, y);
    if a.len() > 0 && !a.contains('/') && !a.contains('.') {
        let f = a + seq!['.'] + "kicad_sch"@;
        assert forall|i: int| 0 <= i < f.len() implies #[trigger] f[i] != '/' by {
            if i < a.len() {
                assert(a.contains(a[i]));
            }
        }
        assert(f.len() > 2);
        crate::paths::law_paths_that_lead_down(f, b);
        crate::paths::law_files_have_their_directory(a, f);
        text::law_extension_is_behind_the_last_dot(a, "kicad_sch"@);
    }
}

} // verus!
