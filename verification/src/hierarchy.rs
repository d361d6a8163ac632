//! Walks over the sheet tree of a project.
use crate::schematic::{copy_text_option, text_option};
use crate::seqs::{lemma_contains_add, lemma_contains_push, models, push_model};
use crate::text::{self, decimal};
use vstd::prelude::*;

verus! {

/// How deep a sheet tree is followed.
pub const MAX_HIERARCHY_DEPTH: usize = 20;

/// A pin on the border of a sheet. Positions are nanometres, rotations whole
/// degrees.
pub struct SheetPin {
    pub name: String,
    pub pin_type: String,
    pub x: i64,
    pub y: i64,
    pub rotation: Option<i64>,
}

/// A sheet on the canvas of its parent. `page` is its page in the project at
/// hand. `child` is the position of its file among the project's files, or
/// `None` where there is no such file.
pub struct SheetBox {
    pub name: String,
    pub file: String,
    pub uuid: String,
    pub x: i64,
    pub y: i64,
    pub width: i64,
    pub height: i64,
    pub page: Option<String>,
    pub pins: Vec<SheetPin>,
    pub child: Option<usize>,
    pub child_path: String,
    pub child_key: String,
}

/// A label through which a sheet is connected to its parent.
pub struct HierarchicalLabel {
    pub text: String,
    pub shape: Option<String>,
}

/// What the walks read of a schematic.
pub struct SchematicDoc {
    pub sheets: Vec<SheetBox>,
    pub labels: Vec<HierarchicalLabel>,
}

/// A schematic file: its content, or why it could not be loaded.
pub struct SchematicFile {
    pub path: String,
    pub key: String,
    pub doc: Result<SchematicDoc, String>,
}

/// The schematic files of a project. Each file stands here once.
pub struct Project {
    pub files: Vec<SchematicFile>,
}

/// The file of a sheet, if there is one.
pub open spec fn child_file(project: Project, s: SheetBox) -> Option<usize> {
    match s.child {
        Some(c) => if c < project.files@.len() {
            Some(c)
        } else {
            None
        },
        None => None,
    }
}

fn child_of(project: &Project, s: &SheetBox) -> (r: Option<usize>)
    ensures
        r == child_file(*project, *s),
        r matches Some(c) ==> c < project.files@.len(),
{
    match s.child {
        Some(c) => if c < project.files.len() {
            Some(c)
        } else {
            None
        },
        None => None,
    }
}

/// Whether the list holds the number.
pub fn holds(list: &Vec<usize>, n: usize) -> (r: bool)
    ensures
        r == list@.contains(n),
{
    let mut i: usize = 0;
    while i < list.len()
        invariant
            i <= list@.len(),
            forall|j: int| 0 <= j < i ==> list@[j] != n,
        decreases list@.len() - i,
    {
        if list[i] == n {
            return true;
        }
        i += 1;
    }
    false
}

/// The list with one more number.
fn extended(list: &Vec<usize>, n: usize) -> (out: Vec<usize>)
    ensures
        out@ == list@.push(n),
{
    let mut out: Vec<usize> = Vec::new();
    let mut i: usize = 0;
    while i < list.len()
        invariant
            i <= list@.len(),
            out@ == list@.take(i as int),
        decreases list@.len() - i,
    {
        out.push(list[i]);
        i += 1;
    }
    proof {
        assert(list@.take(list@.len() as int) =~= list@);
    }
    out.push(n);
    out
}

// ─── The tree ─────────────────────────────────────────────────────────────

/// A node of the sheet tree. `sheet` is the position of its sheet in the
/// parent's schematic.
pub struct HierarchyNode {
    pub sheet: usize,
    pub path: String,
    pub key: String,
    pub error: Option<String>,
    pub children: Vec<HierarchyNode>,
}

/// Whether a node could be followed, or what is wrong with it.
pub ghost enum Fault {
    Sound,
    Told(Seq<char>),
}

/// The model of an optional error.
pub open spec fn fault_of(e: Option<String>) -> Fault {
    match e {
        Some(t) => Fault::Told(t@),
        None => Fault::Sound,
    }
}

/// The model of a node.
pub ghost struct NodeView {
    pub sheet: int,
    pub path: Seq<char>,
    pub key: Seq<char>,
    pub fault: Fault,
    pub children: Seq<NodeView>,
}

impl View for HierarchyNode {
    type V = NodeView;

    open spec fn view(&self) -> NodeView
        decreases self,
    {
        NodeView {
            sheet: self.sheet as int,
            path: self.path@,
            key: self.key@,
            fault: fault_of(self.error),
            children: Seq::new(
                self.children@.len(),
                |i: int|
                    if 0 <= i < self.children@.len() {
                        self.children@[i].view()
                    } else {
                        NodeView {
                            sheet: 0,
                            path: Seq::empty(),
                            key: Seq::empty(),
                            fault: Fault::Sound,
                            children: Seq::empty(),
                        }
                    },
            ),
        }
    }
}

/// The children of a node's model are the models of its children.
pub broadcast proof fn lemma_node_children(n: HierarchyNode)
    ensures
        (#[trigger] n@).children == models(n.children@),
{
    assert(n@.children =~= models(n.children@));
}

/// What a file contributes to the tree: why it could not be followed, or its
/// sheets.
pub ghost struct BodyView {
    pub fault: Fault,
    pub children: Seq<NodeView>,
}

/// What a file contributes to the tree at a depth, below the given ancestors.
pub open spec fn body(project: Project, i: usize, depth: nat, ancestors: Seq<usize>) -> BodyView
    decreases MAX_HIERARCHY_DEPTH + 1 - depth, 0int,
{
    if depth > MAX_HIERARCHY_DEPTH {
        BodyView {
            fault: Fault::Told("max hierarchy depth exceeded — possible reference cycle"@),
            children: Seq::empty(),
        }
    } else if ancestors.contains(i) {
        BodyView {
            fault: Fault::Told("cycle detected — this file is already an ancestor in this tree"@),
            children: Seq::empty(),
        }
    } else {
        match project.files@[i as int].doc {
            Err(e) => BodyView {
                fault: Fault::Told("failed to load: "@ + e@),
                children: Seq::empty(),
            },
            Ok(doc) => BodyView {
                fault: Fault::Sound,
                children: Seq::new(
                    doc.sheets@.len(),
                    |k: int| node(project, doc.sheets@[k], k, depth + 1, ancestors.push(i)),
                ),
            },
        }
    }
}

/// The node of a sheet.
pub open spec fn node(
    project: Project,
    s: SheetBox,
    k: int,
    depth: nat,
    ancestors: Seq<usize>,
) -> NodeView
    decreases MAX_HIERARCHY_DEPTH + 1 - depth, 1int,
{
    match child_file(project, s) {
        Some(c) => {
            let b = body(project, c, depth, ancestors);
            NodeView {
                sheet: k,
                path: s.child_path@,
                key: s.child_key@,
                fault: b.fault,
                children: b.children,
            }
        },
        None => NodeView {
            sheet: k,
            path: s.child_path@,
            key: s.child_key@,
            fault: Fault::Told("child file not found on disk"@),
            children: Seq::empty(),
        },
    }
}

/// What a file contributes to the tree.
struct Body {
    error: Option<String>,
    children: Vec<HierarchyNode>,
}

fn build_body(project: &Project, i: usize, depth: usize, ancestors: &Vec<usize>) -> (b: Body)
    requires
        i < project.files@.len(),
        depth <= MAX_HIERARCHY_DEPTH + 1,
    ensures
        fault_of(b.error) == body(*project, i, depth as nat, ancestors@).fault,
        models(b.children@) == body(*project, i, depth as nat, ancestors@).children,
    decreases MAX_HIERARCHY_DEPTH + 1 - depth,
{
    let mut children: Vec<HierarchyNode> = Vec::new();
    proof {
        assert(models(children@) =~= Seq::empty());
    }
    if depth > MAX_HIERARCHY_DEPTH {
        return Body {
            error: Some("max hierarchy depth exceeded — possible reference cycle".to_owned()),
            children,
        };
    }
    if holds(ancestors, i) {
        return Body {
            error: Some(
                "cycle detected — this file is already an ancestor in this tree".to_owned(),
            ),
            children,
        };
    }
    match &project.files[i].doc {
        Err(e) => Body { error: Some(text::cat2("failed to load: ", e.as_str())), children },
        Ok(doc) => {
            let below = extended(ancestors, i);
            let ghost want = body(*project, i, depth as nat, ancestors@).children;
            let mut k: usize = 0;
            while k < doc.sheets.len()
                invariant
                    k <= doc.sheets@.len(),
                    i < project.files@.len(),
                    project.files@[i as int].doc == Ok::<SchematicDoc, String>(*doc),
                    depth <= MAX_HIERARCHY_DEPTH,
                    !ancestors@.contains(i),
                    below@ == ancestors@.push(i),
                    want == body(*project, i, depth as nat, ancestors@).children,
                    models(children@) == want.take(k as int),
                decreases doc.sheets@.len() - k,
            {
                let s = &doc.sheets[k];
                let made = match child_of(project, s) {
                    Some(c) => {
                        let b = build_body(project, c, depth + 1, &below);
                        HierarchyNode {
                            sheet: k,
                            path: s.child_path.clone(),
                            key: s.child_key.clone(),
                            error: b.error,
                            children: b.children,
                        }
                    },
                    None => {
                        let none: Vec<HierarchyNode> = Vec::new();
                        proof {
                            assert(models(none@) =~= Seq::empty());
                        }
                        HierarchyNode {
                            sheet: k,
                            path: s.child_path.clone(),
                            key: s.child_key.clone(),
                            error: Some("child file not found on disk".to_owned()),
                            children: none,
                        }
                    },
                };
                proof {
                    lemma_node_children(made);
                    assert(want[k as int] == node(
                        *project,
                        *s,
                        k as int,
                        (depth + 1) as nat,
                        below@,
                    ));
                    assert(made@ == want[k as int]);
                }
                push_model(&mut children, made);
                k += 1;
            }
            proof {
                assert(want.take(want.len() as int) =~= want);
            }
            Body { error: None, children }
        },
    }
}

/// The sheet tree below a file. Files that are missing, cannot be loaded or
/// lead back to an ancestor are marked and not followed.
pub fn build_hierarchy_node(project: &Project, root: usize) -> (r: HierarchyNode)
    requires
        root < project.files@.len(),
    ensures
        r@ == (NodeView {
            sheet: 0,
            path: project.files@[root as int].path@,
            key: project.files@[root as int].key@,
            fault: body(*project, root, 0, Seq::empty()).fault,
            children: body(*project, root, 0, Seq::empty()).children,
        }),
{
    let ancestors: Vec<usize> = Vec::new();
    let b = build_body(project, root, 0, &ancestors);
    let r = HierarchyNode {
        sheet: 0,
        path: project.files[root].path.clone(),
        key: project.files[root].key.clone(),
        error: b.error,
        children: b.children,
    };
    proof {
        assert(ancestors@ =~= Seq::empty());
        lemma_node_children(r);
    }
    r
}

// ─── Pins and labels ──────────────────────────────────────────────────────

/// The texts of the first `n` of `a` that are not in `b`, each once.
pub open spec fn only_in(a: Seq<Seq<char>>, b: Seq<Seq<char>>, n: nat) -> Seq<Seq<char>>
    decreases n,
{
    if n == 0 {
        Seq::empty()
    } else {
        let rest = only_in(a, b, (n - 1) as nat);
        let t = a[n - 1];
        if b.contains(t) || rest.contains(t) {
            rest
        } else {
            rest.push(t)
        }
    }
}

/// What `only_in` lists: each text of `a` that is not in `b`, once.
pub proof fn lemma_only_in(a: Seq<Seq<char>>, b: Seq<Seq<char>>, n: nat)
    requires
        n <= a.len(),
    ensures
        only_in(a, b, n).no_duplicates(),
        forall|t: Seq<char>| #[trigger]
            only_in(a, b, n).contains(t) <==> a.take(n as int).contains(t) && !b.contains(t),
    decreases n,
{
    if n > 0 {
        lemma_only_in(a, b, (n - 1) as nat);
        let rest = only_in(a, b, (n - 1) as nat);
        let x = a[n - 1];
        assert(a.take(n as int) =~= a.take(n - 1).push(x));
        assert forall|t: Seq<char>| #[trigger] only_in(a, b, n).contains(t) <==> a.take(
            n as int,
        ).contains(t) && !b.contains(t) by {
            lemma_contains_push(a.take(n - 1), x, t);
            lemma_contains_push(rest, x, t);
            assert(rest.contains(t) <==> a.take(n - 1).contains(t) && !b.contains(t));
            assert(rest.contains(x) <==> a.take(n - 1).contains(x) && !b.contains(x));
        }
    }
}

fn difference(a: &Vec<String>, b: &Vec<String>) -> (out: Vec<String>)
    ensures
        models(out@) == only_in(models(a@), models(b@), a@.len()),
{
    let mut out: Vec<String> = Vec::new();
    proof {
        assert(models(out@) =~= Seq::empty());
    }
    let mut i: usize = 0;
    while i < a.len()
        invariant
            i <= a@.len(),
            models(out@) == only_in(models(a@), models(b@), i as nat),
        decreases a@.len() - i,
    {
        proof {
            assert(models(a@)[i as int] == a@[i as int]@);
        }
        if !text::list_contains(b, a[i].as_str()) && !text::list_contains(&out, a[i].as_str()) {
            push_model(&mut out, a[i].clone());
        }
        i += 1;
    }
    out
}

/// How many different texts the list holds.
pub fn count_distinct(names: &Vec<String>) -> (n: usize)
    ensures
        n == only_in(models(names@), Seq::empty(), names@.len()).len(),
{
    let mut seen: Vec<String> = Vec::new();
    proof {
        assert(models(seen@) =~= Seq::empty());
    }
    let mut i: usize = 0;
    while i < names.len()
        invariant
            i <= names@.len(),
            models(seen@) == only_in(models(names@), Seq::empty(), i as nat),
        decreases names@.len() - i,
    {
        proof {
            assert(models(names@)[i as int] == names@[i as int]@);
        }
        if !text::list_contains(&seen, names[i].as_str()) {
            push_model(&mut seen, names[i].clone());
        }
        i += 1;
    }
    proof {
        assert(models(seen@).len() == seen@.len());
    }
    seen.len()
}

/// The texts of labels.
pub open spec fn label_texts(labels: Seq<HierarchicalLabel>) -> Seq<Seq<char>> {
    labels.map_values(|l: HierarchicalLabel| l.text@)
}

/// The names of pins.
pub open spec fn pin_names(pins: Seq<SheetPin>) -> Seq<Seq<char>> {
    pins.map_values(|p: SheetPin| p.name@)
}

fn collect_label_texts(labels: &Vec<HierarchicalLabel>) -> (out: Vec<String>)
    ensures
        models(out@) == label_texts(labels@),
{
    let mut out: Vec<String> = Vec::new();
    let mut i: usize = 0;
    while i < labels.len()
        invariant
            i <= labels@.len(),
            models(out@) == label_texts(labels@).take(i as int),
        decreases labels@.len() - i,
    {
        push_model(&mut out, labels[i].text.clone());
        i += 1;
    }
    proof {
        assert(label_texts(labels@).take(labels@.len() as int) =~= label_texts(labels@));
    }
    out
}

fn collect_pin_names(pins: &Vec<SheetPin>) -> (out: Vec<String>)
    ensures
        models(out@) == pin_names(pins@),
{
    let mut out: Vec<String> = Vec::new();
    let mut i: usize = 0;
    while i < pins.len()
        invariant
            i <= pins@.len(),
            models(out@) == pin_names(pins@).take(i as int),
        decreases pins@.len() - i,
    {
        push_model(&mut out, pins[i].name.clone());
        i += 1;
    }
    proof {
        assert(pin_names(pins@).take(pins@.len() as int) =~= pin_names(pins@));
    }
    out
}

/// A sheet whose pins and labels do not match, or whose file is missing.
pub enum PinIssue {
    MissingFile { file: usize, sheet: usize },
    Mismatch {
        file: usize,
        sheet: usize,
        labels_without_pins: Vec<String>,
        pins_without_labels: Vec<String>,
    },
}

/// The model of an issue.
pub ghost enum PinIssueView {
    MissingFile { file: int, sheet: int },
    Mismatch {
        file: int,
        sheet: int,
        labels_without_pins: Seq<Seq<char>>,
        pins_without_labels: Seq<Seq<char>>,
    },
}

impl View for PinIssue {
    type V = PinIssueView;

    open spec fn view(&self) -> PinIssueView {
        match self {
            PinIssue::MissingFile { file, sheet } => PinIssueView::MissingFile {
                file: *file as int,
                sheet: *sheet as int,
            },
            PinIssue::Mismatch { file, sheet, labels_without_pins, pins_without_labels } =>
                PinIssueView::Mismatch {
                file: *file as int,
                sheet: *sheet as int,
                labels_without_pins: models(labels_without_pins@),
                pins_without_labels: models(pins_without_labels@),
            },
        }
    }
}

/// What is reported of a sheet whose file has these labels.
pub open spec fn sheet_issues(
    i: usize,
    k: int,
    pins: Seq<Seq<char>>,
    labels: Seq<Seq<char>>,
) -> Seq<PinIssueView> {
    let lonely_labels = only_in(labels, pins, labels.len());
    let lonely_pins = only_in(pins, labels, pins.len());
    if lonely_labels.len() > 0 || lonely_pins.len() > 0 {
        seq![
            PinIssueView::Mismatch {
                file: i as int,
                sheet: k,
                labels_without_pins: lonely_labels,
                pins_without_labels: lonely_pins,
            },
        ]
    } else {
        Seq::empty()
    }
}

/// The issues of a file and of the files below it; the error of a child that
/// cannot be loaded.
pub open spec fn mismatches(
    project: Project,
    i: usize,
    depth: nat,
    ancestors: Seq<usize>,
) -> Result<Seq<PinIssueView>, Seq<char>>
    decreases MAX_HIERARCHY_DEPTH + 1 - depth, 2int, 0nat,
{
    if depth > MAX_HIERARCHY_DEPTH || ancestors.contains(i) {
        Ok(Seq::empty())
    } else {
        match project.files@[i as int].doc {
            Err(_) => Ok(Seq::empty()),
            Ok(doc) => sheets_mismatches(project, i, depth, ancestors, doc, doc.sheets@.len()),
        }
    }
}

/// The issues of the first `n` sheets of a file and of the files below them.
pub open spec fn sheets_mismatches(
    project: Project,
    i: usize,
    depth: nat,
    ancestors: Seq<usize>,
    doc: SchematicDoc,
    n: nat,
) -> Result<Seq<PinIssueView>, Seq<char>>
    decreases MAX_HIERARCHY_DEPTH + 1 - depth, 1int, n,
    when depth <= MAX_HIERARCHY_DEPTH
{
    if n == 0 {
        Ok(Seq::empty())
    } else {
        match sheets_mismatches(project, i, depth, ancestors, doc, (n - 1) as nat) {
            Err(e) => Err(e),
            Ok(rest) => {
                let s = doc.sheets@[n - 1];
                match child_file(project, s) {
                    None => Ok(
                        rest.push(PinIssueView::MissingFile { file: i as int, sheet: n - 1 }),
                    ),
                    Some(c) => match project.files@[c as int].doc {
                        Err(e) => Err(e@),
                        Ok(child) => {
                            let here = sheet_issues(
                                i,
                                n - 1,
                                pin_names(s.pins@),
                                label_texts(child.labels@),
                            );
                            match mismatches(project, c, depth + 1, ancestors.push(i)) {
                                Err(e) => Err(e),
                                Ok(below) => Ok(rest + here + below),
                            }
                        },
                    },
                }
            },
        }
    }
}

/// The model of a list of issues, or of the error in its place.
pub open spec fn issues_result(r: Result<Vec<PinIssue>, String>) -> Result<
    Seq<PinIssueView>,
    Seq<char>,
> {
    match r {
        Ok(list) => Ok(models(list@)),
        Err(e) => Err(e@),
    }
}

fn collect_mismatches(project: &Project, i: usize, depth: usize, ancestors: &Vec<usize>) -> (r:
    Result<Vec<PinIssue>, String>)
    requires
        i < project.files@.len(),
        depth <= MAX_HIERARCHY_DEPTH + 1,
    ensures
        issues_result(r) == mismatches(*project, i, depth as nat, ancestors@),
    decreases MAX_HIERARCHY_DEPTH + 1 - depth,
{
    let mut issues: Vec<PinIssue> = Vec::new();
    proof {
        assert(models(issues@) =~= Seq::empty());
    }
    if depth > MAX_HIERARCHY_DEPTH || holds(ancestors, i) {
        return Ok(issues);
    }
    match &project.files[i].doc {
        Err(_) => Ok(issues),
        Ok(doc) => {
            let below = extended(ancestors, i);
            let mut k: usize = 0;
            while k < doc.sheets.len()
                invariant
                    k <= doc.sheets@.len(),
                    i < project.files@.len(),
                    project.files@[i as int].doc == Ok::<SchematicDoc, String>(*doc),
                    depth <= MAX_HIERARCHY_DEPTH,
                    !ancestors@.contains(i),
                    below@ == ancestors@.push(i),
                    Ok::<Seq<PinIssueView>, Seq<char>>(models(issues@)) == sheets_mismatches(
                        *project,
                        i,
                        depth as nat,
                        ancestors@,
                        *doc,
                        k as nat,
                    ),
                decreases doc.sheets@.len() - k,
            {
                let s = &doc.sheets[k];
                let ghost rest = models(issues@);
                let ghost next = sheets_mismatches(
                    *project,
                    i,
                    depth as nat,
                    ancestors@,
                    *doc,
                    (k + 1) as nat,
                );
                match child_of(project, s) {
                    None => {
                        push_model(&mut issues, PinIssue::MissingFile { file: i, sheet: k });
                    },
                    Some(c) => match &project.files[c].doc {
                        Err(e) => {
                            proof {
                                lemma_error_stays(
                                    *project,
                                    i,
                                    depth as nat,
                                    ancestors@,
                                    *doc,
                                    (k + 1) as nat,
                                    doc.sheets@.len(),
                                );
                            }
                            return Err(e.clone());
                        },
                        Ok(child) => {
                            let labels = collect_label_texts(&child.labels);
                            let pins = collect_pin_names(&s.pins);
                            let labels_without_pins = difference(&labels, &pins);
                            let pins_without_labels = difference(&pins, &labels);
                            let ghost here = sheet_issues(i, k as int, models(pins@), models(labels@));
                            if labels_without_pins.len() > 0 || pins_without_labels.len() > 0 {
                                push_model(
                                    &mut issues,
                                    PinIssue::Mismatch {
                                        file: i,
                                        sheet: k,
                                        labels_without_pins,
                                        pins_without_labels,
                                    },
                                );
                            }
                            proof {
                                assert(models(issues@) =~= rest + here);
                            }
                            match collect_mismatches(project, c, depth + 1, &below) {
                                Err(e) => {
                                    proof {
                                        lemma_error_stays(
                                            *project,
                                            i,
                                            depth as nat,
                                            ancestors@,
                                            *doc,
                                            (k + 1) as nat,
                                            doc.sheets@.len(),
                                        );
                                    }
                                    return Err(e);
                                },
                                Ok(mut deeper) => {
                                    let ghost had = issues@;
                                    let ghost more = deeper@;
                                    issues.append(&mut deeper);
                                    proof {
                                        assert(models(had + more) =~= models(had) + models(more));
                                    }
                                },
                            }
                        },
                    },
                }
                k += 1;
            }
            Ok(issues)
        },
    }
}

/// An error among the first sheets is the error of all.
proof fn lemma_error_stays(
    project: Project,
    i: usize,
    depth: nat,
    ancestors: Seq<usize>,
    doc: SchematicDoc,
    n: nat,
    m: nat,
)
    requires
        n <= m,
        depth <= MAX_HIERARCHY_DEPTH,
        sheets_mismatches(project, i, depth, ancestors, doc, n) is Err,
    ensures
        sheets_mismatches(project, i, depth, ancestors, doc, m) == sheets_mismatches(
            project,
            i,
            depth,
            ancestors,
            doc,
            n,
        ),
    decreases m,
{
    if n < m {
        lemma_error_stays(project, i, depth, ancestors, doc, n, (m - 1) as nat);
    }
}

/// The sheets of the tree below a file whose pins do not match the labels of
/// their files.
pub fn collect_pin_mismatches(project: &Project, root: usize) -> (r: Result<Vec<PinIssue>, String>)
    requires
        root < project.files@.len(),
    ensures
        issues_result(r) == mismatches(*project, root, 0, Seq::empty()),
{
    let ancestors: Vec<usize> = Vec::new();
    proof {
        assert(ancestors@ =~= Seq::empty());
    }
    collect_mismatches(project, root, 0, &ancestors)
}

/// A sheet is reported exactly if some name stands on one side only.
pub proof fn law_mismatch_is_one_sided(
    i: usize,
    k: int,
    pins: Seq<Seq<char>>,
    labels: Seq<Seq<char>>,
)
    ensures
        sheet_issues(i, k, pins, labels).len() == 0 <==> forall|t: Seq<char>| #[trigger]
            pins.contains(t) <==> labels.contains(t),
{
    let a = only_in(labels, pins, labels.len());
    let b = only_in(pins, labels, pins.len());
    lemma_only_in(labels, pins, labels.len());
    lemma_only_in(pins, labels, pins.len());
    assert(labels.take(labels.len() as int) =~= labels);
    assert(pins.take(pins.len() as int) =~= pins);
    if a.len() == 0 && b.len() == 0 {
        assert forall|t: Seq<char>| #[trigger] pins.contains(t) <==> labels.contains(t) by {
            assert(!a.contains(t));
            assert(!b.contains(t));
        }
    } else if a.len() > 0 {
        assert(a.contains(a[0]));
        assert(labels.contains(a[0]) && !pins.contains(a[0]));
    } else {
        assert(b.contains(b[0]));
    }
}

// ─── Page numbers ─────────────────────────────────────────────────────────

/// A page number that a sheet gets.
pub struct PageAssignment {
    pub file: usize,
    pub sheet: usize,
    pub page: String,
}

/// A file in which the pages of some sheets changed. `sheets` are their
/// positions.
pub struct PageChange {
    pub file: usize,
    pub sheets: Vec<usize>,
}

/// The page numbers of a tree, and the files to rewrite for them.
pub struct Renumbering {
    pub pages: Vec<PageAssignment>,
    pub changes: Vec<PageChange>,
}

/// The model of an assignment.
pub ghost struct PageView {
    pub file: int,
    pub sheet: int,
    pub page: Seq<char>,
}

impl View for PageAssignment {
    type V = PageView;

    open spec fn view(&self) -> PageView {
        PageView { file: self.file as int, sheet: self.sheet as int, page: self.page@ }
    }
}

/// The model of a change.
pub ghost struct ChangeView {
    pub file: int,
    pub sheets: Seq<usize>,
}

impl View for PageChange {
    type V = ChangeView;

    open spec fn view(&self) -> ChangeView {
        ChangeView { file: self.file as int, sheets: self.sheets@ }
    }
}

/// The model of a renumbering.
pub ghost struct RenumberingView {
    pub pages: Seq<PageView>,
    pub changes: Seq<ChangeView>,
}

impl View for Renumbering {
    type V = RenumberingView;

    open spec fn view(&self) -> RenumberingView {
        RenumberingView { pages: models(self.pages@), changes: models(self.changes@) }
    }
}

/// Position of the first sheet of that name.
pub open spec fn sheet_named(sheets: Seq<SheetBox>, name: Seq<char>) -> Option<int>
    decreases sheets.len(),
{
    if sheets.len() == 0 {
        None
    } else {
        match sheet_named(sheets.drop_last(), name) {
            Some(i) => Some(i),
            None => if sheets.last().name@ == name {
                Some(sheets.len() - 1)
            } else {
                None
            },
        }
    }
}

/// The first sheet of a name is within the list and has that name.
pub proof fn lemma_sheet_named(sheets: Seq<SheetBox>, name: Seq<char>)
    ensures
        match sheet_named(sheets, name) {
            Some(i) => 0 <= i < sheets.len() && sheets[i].name@ == name && forall|j: int|
                0 <= j < i ==> (#[trigger] sheets[j]).name@ != name,
            None => forall|j: int| 0 <= j < sheets.len() ==> (#[trigger] sheets[j]).name@ != name,
        },
    decreases sheets.len(),
{
    if sheets.len() > 0 {
        let rest = sheets.drop_last();
        lemma_sheet_named(rest, name);
        assert forall|j: int| 0 <= j < rest.len() implies (#[trigger] sheets[j]) == rest[j] by {}
    }
}

/// Position of the first sheet of that name.
pub fn find_sheet(sheets: &Vec<SheetBox>, name: &str) -> (r: Option<usize>)
    ensures
        match r {
            Some(i) => i < sheets@.len() && sheet_named(sheets@, name@) == Some(i as int),
            None => sheet_named(sheets@, name@) is None,
        },
{
    let mut i: usize = 0;
    while i < sheets.len()
        invariant
            i <= sheets@.len(),
            forall|j: int| 0 <= j < i ==> (#[trigger] sheets@[j]).name@ != name@,
        decreases sheets@.len() - i,
    {
        if text::same(sheets[i].name.as_str(), name) {
            proof {
                lemma_sheet_named(sheets@, name@);
            }
            return Some(i);
        }
        i += 1;
    }
    proof {
        lemma_sheet_named(sheets@, name@);
    }
    None
}

/// The state of a renumbering inside one file: the tree so far, and which of
/// the file's sheets changed.
pub ghost struct FileState {
    pub tree: RenumberingView,
    pub changed: Seq<usize>,
}

/// The next sheet gets the next page: pages count from two. It is noted as
/// changed if it had another page.
pub open spec fn paged(st: FileState, sheets: Seq<SheetBox>, i: usize, k: int) -> FileState {
    let page = decimal(st.tree.pages.len() + 2);
    FileState {
        tree: RenumberingView {
            pages: st.tree.pages.push(PageView { file: i as int, sheet: k, page }),
            changes: st.tree.changes,
        },
        changed: if text_option(sheets[k].page) == Some(page) {
            st.changed
        } else {
            st.changed.push(k as usize)
        },
    }
}

/// The renumbering of the tree below a file, added to what there is; the error
/// of a file that cannot be loaded. A file is not followed below itself, and a
/// list of ancestors is never longer than that of the files.
pub open spec fn renumbered(
    project: Project,
    i: usize,
    ancestors: Seq<usize>,
    start: RenumberingView,
) -> Result<RenumberingView, Seq<char>>
    decreases project.files@.len() + 1 - ancestors.len(), 1int, 0nat,
{
    if ancestors.contains(i) || ancestors.len() > project.files@.len() {
        Ok(start)
    } else {
        match project.files@[i as int].doc {
            Err(e) => Err(e@),
            Ok(doc) => {
                let st = FileState { tree: start, changed: Seq::empty() };
                match renumbered_sheets(project, i, ancestors, doc, st, doc.sheets@.len()) {
                    Err(e) => Err(e),
                    Ok(end) => if end.changed.len() == 0 {
                        Ok(end.tree)
                    } else {
                        Ok(
                            RenumberingView {
                                pages: end.tree.pages,
                                changes: end.tree.changes.push(
                                    ChangeView { file: i as int, sheets: end.changed },
                                ),
                            },
                        )
                    },
                }
            },
        }
    }
}

/// The state after the first `n` sheets of a file and the files below them.
pub open spec fn renumbered_sheets(
    project: Project,
    i: usize,
    ancestors: Seq<usize>,
    doc: SchematicDoc,
    start: FileState,
    n: nat,
) -> Result<FileState, Seq<char>>
    decreases project.files@.len() + 1 - ancestors.len(), 0int, n,
    when ancestors.len() <= project.files@.len()
{
    if n == 0 {
        Ok(start)
    } else {
        match renumbered_sheets(project, i, ancestors, doc, start, (n - 1) as nat) {
            Err(e) => Err(e),
            Ok(st) => {
                let now = paged(st, doc.sheets@, i, n - 1);
                match child_file(project, doc.sheets@[n - 1]) {
                    None => Ok(now),
                    Some(c) => match renumbered(project, c, ancestors.push(i), now.tree) {
                        Err(e) => Err(e),
                        Ok(tree) => Ok(FileState { tree, changed: now.changed }),
                    },
                }
            },
        }
    }
}

proof fn lemma_renumber_error_stays(
    project: Project,
    i: usize,
    ancestors: Seq<usize>,
    doc: SchematicDoc,
    start: FileState,
    n: nat,
    m: nat,
)
    requires
        n <= m,
        ancestors.len() <= project.files@.len(),
        renumbered_sheets(project, i, ancestors, doc, start, n) is Err,
    ensures
        renumbered_sheets(project, i, ancestors, doc, start, m) == renumbered_sheets(
            project,
            i,
            ancestors,
            doc,
            start,
            n,
        ),
    decreases m,
{
    if n < m {
        lemma_renumber_error_stays(project, i, ancestors, doc, start, n, (m - 1) as nat);
    }
}

fn page_is(current: &Option<String>, page: &str) -> (r: bool)
    ensures
        r == (text_option(*current) == Some(page@)),
{
    match current {
        Some(p) => text::same(p.as_str(), page),
        None => false,
    }
}

fn renumber_file(
    project: &Project,
    i: usize,
    ancestors: &Vec<usize>,
    out: &mut Renumbering,
) -> (r: Result<(), String>)
    requires
        i < project.files@.len(),
        ancestors@.len() <= project.files@.len() + 1,
    ensures
        match r {
            Ok(_) => renumbered(*project, i, ancestors@, old(out)@) == Ok::<
                RenumberingView,
                Seq<char>,
            >(final(out)@),
            Err(e) => renumbered(*project, i, ancestors@, old(out)@) == Err::<
                RenumberingView,
                Seq<char>,
            >(e@),
        },
    decreases project.files@.len() + 1 - ancestors@.len(),
{
    if holds(ancestors, i) || ancestors.len() > project.files.len() {
        return Ok(());
    }
    match &project.files[i].doc {
        Err(e) => Err(e.clone()),
        Ok(doc) => {
            let below = extended(ancestors, i);
            let mut changed: Vec<usize> = Vec::new();
            let ghost start = FileState { tree: out@, changed: Seq::empty() };
            proof {
                assert(changed@ =~= Seq::empty());
            }
            let mut k: usize = 0;
            while k < doc.sheets.len()
                invariant
                    k <= doc.sheets@.len(),
                    i < project.files@.len(),
                    project.files@[i as int].doc == Ok::<SchematicDoc, String>(*doc),
                    !ancestors@.contains(i),
                    ancestors@.len() <= project.files@.len(),
                    below@ == ancestors@.push(i),
                    start == (FileState { tree: old(out)@, changed: Seq::empty() }),
                    renumbered_sheets(
                        *project,
                        i,
                        ancestors@,
                        *doc,
                        start,
                        k as nat,
                    ) == Ok::<FileState, Seq<char>>(
                        FileState { tree: out@, changed: changed@ },
                    ),
                decreases doc.sheets@.len() - k,
            {
                let s = &doc.sheets[k];
                let ghost st = FileState { tree: out@, changed: changed@ };
                let ghost now = paged(st, doc.sheets@, i, k as int);
                let page = text::wide_decimal_text(out.pages.len() as u128 + 2);
                if !page_is(&s.page, page.as_str()) {
                    changed.push(k);
                }
                push_model(&mut out.pages, PageAssignment { file: i, sheet: k, page });
                proof {
                    assert(now.tree == out@);
                    assert(now.changed == changed@);
                }
                if let Some(c) = child_of(project, s) {
                    match renumber_file(project, c, &below, out) {
                        Ok(_) => {},
                        Err(e) => {
                            proof {
                                lemma_renumber_error_stays(
                                    *project,
                                    i,
                                    ancestors@,
                                    *doc,
                                    start,
                                    (k + 1) as nat,
                                    doc.sheets@.len(),
                                );
                            }
                            return Err(e);
                        },
                    }
                }
                k += 1;
            }
            if changed.len() > 0 {
                push_model(&mut out.changes, PageChange { file: i, sheets: changed });
            }
            Ok(())
        },
    }
}

/// Reassigns the pages of the tree below a file, depth first. Only the files
/// whose pages changed are listed for rewriting.
pub fn renumber_sheet_pages(project: &Project, root: usize) -> (r: Result<Renumbering, String>)
    requires
        root < project.files@.len(),
    ensures
        match r {
            Ok(n) => renumbered(
                *project,
                root,
                Seq::empty(),
                RenumberingView { pages: Seq::empty(), changes: Seq::empty() },
            ) == Ok::<RenumberingView, Seq<char>>(n@),
            Err(e) => renumbered(
                *project,
                root,
                Seq::empty(),
                RenumberingView { pages: Seq::empty(), changes: Seq::empty() },
            ) == Err::<RenumberingView, Seq<char>>(e@),
        },
{
    let ancestors: Vec<usize> = Vec::new();
    let mut out = Renumbering { pages: Vec::new(), changes: Vec::new() };
    proof {
        assert(ancestors@ =~= Seq::empty());
        assert(models(out.pages@) =~= Seq::empty());
        assert(models(out.changes@) =~= Seq::empty());
    }
    match renumber_file(project, root, &ancestors, &mut out) {
        Ok(_) => Ok(out),
        Err(e) => Err(e),
    }
}

/// Whether the pages are numbered from two without a gap.
pub open spec fn is_consecutive(pages: Seq<PageView>) -> bool {
    forall|k: int| 0 <= k < pages.len() ==> (#[trigger] pages[k]).page == decimal((k + 2) as nat)
}

/// The pages of a renumbered tree count from two without a gap: the first page
/// stays that of the root.
pub proof fn law_pages_are_consecutive(
    project: Project,
    i: usize,
    ancestors: Seq<usize>,
    start: RenumberingView,
)
    requires
        is_consecutive(start.pages),
        renumbered(project, i, ancestors, start) is Ok,
    ensures
        is_consecutive(renumbered(project, i, ancestors, start)->Ok_0.pages),
    decreases project.files@.len() + 1 - ancestors.len(), 1int, 0nat,
{
    if !(ancestors.contains(i) || ancestors.len() > project.files@.len()) {
        match project.files@[i as int].doc {
            Err(_) => {},
            Ok(doc) => {
                let st = FileState { tree: start, changed: Seq::empty() };
                lemma_sheets_consecutive(project, i, ancestors, doc, st, doc.sheets@.len());
            },
        }
    }
}

proof fn lemma_sheets_consecutive(
    project: Project,
    i: usize,
    ancestors: Seq<usize>,
    doc: SchematicDoc,
    start: FileState,
    n: nat,
)
    requires
        ancestors.len() <= project.files@.len(),
        is_consecutive(start.tree.pages),
        renumbered_sheets(project, i, ancestors, doc, start, n) is Ok,
    ensures
        is_consecutive(
            renumbered_sheets(project, i, ancestors, doc, start, n)->Ok_0.tree.pages,
        ),
    decreases project.files@.len() + 1 - ancestors.len(), 0int, n,
{
    if n > 0 {
        lemma_sheets_consecutive(project, i, ancestors, doc, start, (n - 1) as nat);
        let st = renumbered_sheets(project, i, ancestors, doc, start, (n - 1) as nat)->Ok_0;
        let now = paged(st, doc.sheets@, i, n - 1);
        assert(is_consecutive(now.tree.pages));
        match child_file(project, doc.sheets@[n - 1]) {
            None => {},
            Some(c) => {
                law_pages_are_consecutive(project, c, ancestors.push(i), now.tree);
            },
        }
    }
}

// ─── Laws ─────────────────────────────────────────────────────────────────

/// A file that could be loaded stands in the tree with every one of its sheets,
/// in order, each with the path and key of its own file. A sheet without a file
/// says so, a sheet that leads back to a file above it is not followed, and the
/// tree has a bottom: nothing is below the twentieth level.
pub proof fn law_tree_holds_every_sheet(
    project: Project,
    i: usize,
    depth: nat,
    ancestors: Seq<usize>,
    k: int,
)
    requires
        i < project.files@.len(),
        depth <= 20,
        !ancestors.contains(i),
        project.files@[i as int].doc matches Ok(doc) && 0 <= k < doc.sheets@.len(),
    ensures
        ({
            let doc = project.files@[i as int].doc->Ok_0;
            let b = body(project, i, depth, ancestors);
            let s = doc.sheets@[k];
            let n = b.children[k];
            &&& b.fault == Fault::Sound
            &&& b.children.len() == doc.sheets@.len()
            &&& n.sheet == k
            &&& n.path == s.child_path@
            &&& n.key == s.child_key@
            &&& s.child is None ==> n.fault == Fault::Told("child file not found on disk"@)
                && n.children.len() == 0
            &&& s.child matches Some(c) ==> (c < project.files@.len() && (c == i
                || ancestors.contains(c) || depth == 20) ==> n.fault != Fault::Sound
                && n.children.len() == 0)
            &&& s.child matches Some(c) ==> (c < project.files@.len() && depth < 20 && c != i
                && !ancestors.contains(c) ==> (project.files@[c as int].doc matches Ok(child)
                ==> n.fault == Fault::Sound && n.children.len() == child.sheets@.len()))
        }),
{
    let doc = project.files@[i as int].doc->Ok_0;
    let s = doc.sheets@[k];
    let below = ancestors.push(i);
    assert(body(project, i, depth, ancestors).children[k] == node(project, s, k, depth + 1, below));
    if let Some(c) = s.child {
        lemma_contains_push(ancestors, i, c);
    }
}

proof fn lemma_sheet_is_checked(
    project: Project,
    i: usize,
    depth: nat,
    ancestors: Seq<usize>,
    doc: SchematicDoc,
    n: nat,
    k: int,
)
    requires
        depth <= MAX_HIERARCHY_DEPTH,
        0 <= k < n <= doc.sheets@.len(),
        sheets_mismatches(project, i, depth, ancestors, doc, n) is Ok,
    ensures
        ({
            let all = sheets_mismatches(project, i, depth, ancestors, doc, n)->Ok_0;
            let s = doc.sheets@[k];
            match child_file(project, s) {
                None => all.contains(PinIssueView::MissingFile { file: i as int, sheet: k }),
                Some(c) => project.files@[c as int].doc matches Ok(child) && forall|
                    x: PinIssueView,
                |
                    sheet_issues(
                        i,
                        k,
                        pin_names(s.pins@),
                        label_texts(child.labels@),
                    ).contains(x) ==> #[trigger] all.contains(x),
            }
        }),
    decreases n,
{
    let rest = sheets_mismatches(project, i, depth, ancestors, doc, (n - 1) as nat)->Ok_0;
    let all = sheets_mismatches(project, i, depth, ancestors, doc, n)->Ok_0;
    let last = doc.sheets@[n - 1];
    if k < n - 1 {
        lemma_sheet_is_checked(project, i, depth, ancestors, doc, (n - 1) as nat, k);
    }
    assert forall|x: PinIssueView| rest.contains(x) implies #[trigger] all.contains(x) by {
        match child_file(project, last) {
            None => {
                lemma_contains_push(
                    rest,
                    PinIssueView::MissingFile { file: i as int, sheet: n - 1 },
                    x,
                );
            },
            Some(c) => {
                let child = project.files@[c as int].doc->Ok_0;
                let here = sheet_issues(
                    i,
                    n - 1,
                    pin_names(last.pins@),
                    label_texts(child.labels@),
                );
                let below = mismatches(project, c, depth + 1, ancestors.push(i))->Ok_0;
                lemma_contains_add(rest + here, below, x);
                lemma_contains_add(rest, here, x);
            },
        }
    }
    if k == n - 1 {
        match child_file(project, last) {
            None => {
                let x = PinIssueView::MissingFile { file: i as int, sheet: n - 1 };
                lemma_contains_push(rest, x, x);
            },
            Some(c) => {
                let child = project.files@[c as int].doc->Ok_0;
                let here = sheet_issues(
                    i,
                    n - 1,
                    pin_names(last.pins@),
                    label_texts(child.labels@),
                );
                let below = mismatches(project, c, depth + 1, ancestors.push(i))->Ok_0;
                assert forall|x: PinIssueView| here.contains(x) implies #[trigger] all.contains(
                    x,
                ) by {
                    lemma_contains_add(rest + here, below, x);
                    lemma_contains_add(rest, here, x);
                }
            },
        }
    }
}

/// Every sheet of a schematic is checked: one without a file is reported as
/// such, one with a label in its file that no pin has is reported with that
/// label, and one with a pin that no label has is reported with that pin.
pub proof fn law_every_mismatch_is_reported(project: Project, root: usize, k: int, t: Seq<char>)
    requires
        root < project.files@.len(),
        project.files@[root as int].doc matches Ok(doc) && 0 <= k < doc.sheets@.len(),
        mismatches(project, root, 0, Seq::empty()) is Ok,
    ensures
        ({
            let s = project.files@[root as int].doc->Ok_0.sheets@[k];
            let all = mismatches(project, root, 0, Seq::empty())->Ok_0;
            &&& s.child is None ==> all.contains(
                PinIssueView::MissingFile { file: root as int, sheet: k },
            )
            &&& s.child matches Some(c) ==> (c < project.files@.len() ==> (
            project.files@[c as int].doc matches Ok(child) && {
                &&& label_texts(child.labels@).contains(t) && !pin_names(s.pins@).contains(t)
                    ==> exists|x: PinIssueView| #[trigger]
                    all.contains(x) && (x matches PinIssueView::Mismatch {
                        file,
                        sheet,
                        labels_without_pins,
                        ..
                    } && file == root && sheet == k && labels_without_pins.contains(t))
                &&& pin_names(s.pins@).contains(t) && !label_texts(child.labels@).contains(t)
                    ==> exists|x: PinIssueView| #[trigger]
                    all.contains(x) && (x matches PinIssueView::Mismatch {
                        file,
                        sheet,
                        pins_without_labels,
                        ..
                    } && file == root && sheet == k && pins_without_labels.contains(t))
            }))
        }),
{
    let doc = project.files@[root as int].doc->Ok_0;
    let s = doc.sheets@[k];
    let none = Seq::<usize>::empty();
    let all = mismatches(project, root, 0, none)->Ok_0;
    assert(!none.contains(root));
    lemma_sheet_is_checked(project, root, 0, none, doc, doc.sheets@.len(), k);
    if let Some(c) = child_file(project, s) {
        let child = project.files@[c as int].doc->Ok_0;
        let pins = pin_names(s.pins@);
        let labels = label_texts(child.labels@);
        let here = sheet_issues(root, k, pins, labels);
        lemma_only_in(labels, pins, labels.len());
        lemma_only_in(pins, labels, pins.len());
        assert(labels.take(labels.len() as int) =~= labels);
        assert(pins.take(pins.len() as int) =~= pins);
        if labels.contains(t) && !pins.contains(t) {
            assert(only_in(labels, pins, labels.len()).contains(t));
            assert(here.contains(here[0]));
            assert(all.contains(here[0]));
        }
        if pins.contains(t) && !labels.contains(t) {
            assert(only_in(pins, labels, pins.len()).contains(t));
            assert(here.contains(here[0]));
            assert(all.contains(here[0]));
        }
    }
}

proof fn lemma_pages_grow(
    project: Project,
    i: usize,
    ancestors: Seq<usize>,
    start: RenumberingView,
)
    requires
        renumbered(project, i, ancestors, start) is Ok,
    ensures
        start.pages.is_prefix_of(renumbered(project, i, ancestors, start)->Ok_0.pages),
    decreases project.files@.len() + 1 - ancestors.len(), 1int, 0nat,
{
    if !(ancestors.contains(i) || ancestors.len() > project.files@.len()) {
        let doc = project.files@[i as int].doc->Ok_0;
        let st = FileState { tree: start, changed: Seq::empty() };
        lemma_sheet_pages_grow(project, i, ancestors, doc, st, doc.sheets@.len());
    } else {
        assert(start.pages.subrange(0, start.pages.len() as int) =~= start.pages);
    }
}

proof fn lemma_sheet_pages_grow(
    project: Project,
    i: usize,
    ancestors: Seq<usize>,
    doc: SchematicDoc,
    start: FileState,
    n: nat,
)
    requires
        ancestors.len() <= project.files@.len(),
        renumbered_sheets(project, i, ancestors, doc, start, n) is Ok,
    ensures
        start.tree.pages.is_prefix_of(
            renumbered_sheets(project, i, ancestors, doc, start, n)->Ok_0.tree.pages,
        ),
    decreases project.files@.len() + 1 - ancestors.len(), 0int, n,
{
    let first = start.tree.pages;
    if n > 0 {
        lemma_sheet_pages_grow(project, i, ancestors, doc, start, (n - 1) as nat);
        let st = renumbered_sheets(project, i, ancestors, doc, start, (n - 1) as nat)->Ok_0;
        let now = paged(st, doc.sheets@, i, n - 1);
        let all = renumbered_sheets(project, i, ancestors, doc, start, n)->Ok_0.tree.pages;
        match child_file(project, doc.sheets@[n - 1]) {
            None => {},
            Some(c) => {
                lemma_pages_grow(project, c, ancestors.push(i), now.tree);
            },
        }
        lemma_prefix_index(first, st.tree.pages);
        assert(now.tree.pages =~= st.tree.pages.push(now.tree.pages.last()));
        if child_file(project, doc.sheets@[n - 1]) is Some {
            lemma_prefix_index(now.tree.pages, all);
        }
        assert(first =~= all.subrange(0, first.len() as int));
    } else {
        assert(first.subrange(0, first.len() as int) =~= first);
    }
}

proof fn lemma_prefix_index<A>(a: Seq<A>, b: Seq<A>)
    requires
        a.is_prefix_of(b),
    ensures
        a.len() <= b.len(),
        forall|k: int| 0 <= k < a.len() ==> #[trigger] a[k] == b[k],
{
    assert forall|k: int| 0 <= k < a.len() implies #[trigger] a[k] == b[k] by {
        assert(b.subrange(0, a.len() as int)[k] == b[k]);
    }
}

/// Whether sheet `k` of the file has a page among the pages, and is among those
/// that changed exactly if it had another page before.
pub open spec fn is_numbered(
    pages: Seq<PageView>,
    changed: Seq<usize>,
    sheets: Seq<SheetBox>,
    i: usize,
    k: int,
) -> bool {
    exists|m: int|
        0 <= m < pages.len() && (#[trigger] pages[m]).file == i && pages[m].sheet == k && (
        changed.contains(k as usize) <==> text_option(sheets[k].page) != Some(pages[m].page))
}

proof fn lemma_changed_places(
    project: Project,
    i: usize,
    ancestors: Seq<usize>,
    doc: SchematicDoc,
    start: FileState,
    n: nat,
    u: usize,
)
    requires
        ancestors.len() <= project.files@.len(),
        n <= doc.sheets@.len() <= usize::MAX,
        start.changed.len() == 0,
        renumbered_sheets(project, i, ancestors, doc, start, n) is Ok,
        renumbered_sheets(project, i, ancestors, doc, start, n)->Ok_0.changed.contains(u),
    ensures
        u < n,
    decreases n,
{
    if n > 0 {
        let st = renumbered_sheets(project, i, ancestors, doc, start, (n - 1) as nat)->Ok_0;
        lemma_contains_push(st.changed, (n - 1) as usize, u);
        if st.changed.contains(u) {
            lemma_changed_places(project, i, ancestors, doc, start, (n - 1) as nat, u);
        }
    }
}

proof fn lemma_sheets_numbered(
    project: Project,
    i: usize,
    ancestors: Seq<usize>,
    doc: SchematicDoc,
    start: FileState,
    n: nat,
    k: int,
)
    requires
        ancestors.len() <= project.files@.len(),
        0 <= k < n <= doc.sheets@.len() <= usize::MAX,
        start.changed.len() == 0,
        renumbered_sheets(project, i, ancestors, doc, start, n) is Ok,
    ensures
        is_numbered(
            renumbered_sheets(project, i, ancestors, doc, start, n)->Ok_0.tree.pages,
            renumbered_sheets(project, i, ancestors, doc, start, n)->Ok_0.changed,
            doc.sheets@,
            i,
            k,
        ),
    decreases n,
{
    let st = renumbered_sheets(project, i, ancestors, doc, start, (n - 1) as nat)->Ok_0;
    let now = paged(st, doc.sheets@, i, n - 1);
    let end = renumbered_sheets(project, i, ancestors, doc, start, n)->Ok_0;
    match child_file(project, doc.sheets@[n - 1]) {
        None => {},
        Some(c) => {
            lemma_pages_grow(project, c, ancestors.push(i), now.tree);
            lemma_prefix_index(now.tree.pages, end.tree.pages);
        },
    }
    assert forall|m: int| 0 <= m < now.tree.pages.len() implies #[trigger] end.tree.pages[m]
        == now.tree.pages[m] by {
        assert(now.tree.pages[m] == now.tree.pages[m]);
    }
    assert(end.changed == now.changed);
    lemma_contains_push(st.changed, (n - 1) as usize, k as usize);
    if k < n - 1 {
        lemma_sheets_numbered(project, i, ancestors, doc, start, (n - 1) as nat, k);
        let m = choose|m: int|
            0 <= m < st.tree.pages.len() && (#[trigger] st.tree.pages[m]).file == i
                && st.tree.pages[m].sheet == k && (st.changed.contains(k as usize) <==> text_option(
                doc.sheets@[k].page,
            ) != Some(st.tree.pages[m].page));
        assert(now.tree.pages[m] == st.tree.pages[m]);
        assert(end.tree.pages[m].file == i);
    } else {
        let m = st.tree.pages.len() as int;
        assert(end.tree.pages[m].sheet == k);
        if st.changed.contains(k as usize) {
            lemma_changed_places(project, i, ancestors, doc, start, (n - 1) as nat, k as usize);
        }
    }
}

/// Every sheet of the root gets a page, and the root is rewritten for exactly
/// those of its sheets that had another page before, or not at all if every
/// sheet had its page.
pub proof fn law_every_sheet_gets_its_page(
    project: Project,
    root: usize,
    end: RenumberingView,
    k: int,
)
    requires
        root < project.files@.len(),
        project.files@[root as int].doc matches Ok(doc) && 0 <= k < doc.sheets@.len()
            <= usize::MAX,
        renumbered(
            project,
            root,
            Seq::empty(),
            RenumberingView { pages: Seq::empty(), changes: Seq::empty() },
        ) == Ok::<RenumberingView, Seq<char>>(end),
    ensures
        exists|m: int|
            0 <= m < end.pages.len() && (#[trigger] end.pages[m]).file == root
                && end.pages[m].sheet == k && (text_option(
                project.files@[root as int].doc->Ok_0.sheets@[k].page,
            ) != Some(end.pages[m].page) ==> end.changes.len() > 0 && end.changes.last().file
                == root && end.changes.last().sheets.contains(k as usize)),
{
    let none = Seq::<usize>::empty();
    assert(!none.contains(root));
    let doc = project.files@[root as int].doc->Ok_0;
    let start = RenumberingView { pages: Seq::empty(), changes: Seq::empty() };
    let st = FileState { tree: start, changed: Seq::empty() };
    let last = renumbered_sheets(project, root, none, doc, st, doc.sheets@.len())->Ok_0;
    lemma_sheets_numbered(project, root, none, doc, st, doc.sheets@.len(), k);
    let m = choose|m: int|
        0 <= m < last.tree.pages.len() && (#[trigger] last.tree.pages[m]).file == root
            && last.tree.pages[m].sheet == k && (last.changed.contains(k as usize) <==> text_option(
            doc.sheets@[k].page,
        ) != Some(last.tree.pages[m].page));
    assert(end.pages == last.tree.pages);
    assert(end.pages[m].file == root);
}

} // verus!
