//! Manufacturing packages, readiness and prices.
use crate::dfm::{capability, capability_nm, capability_text, Length};
use crate::hierarchy::{count_distinct, only_in};
use crate::pcb_export::{
    invalid, invalid_export_argument, position_error, validate_position_values, InvalidArgument,
};
use crate::reports::{count_errors, missing, DrcReport, DrcView};
use crate::seqs::{lemma_contains_push, models, push_model};
use crate::sexp::{nets_below, nets_of, SexpNode, SexpView};
use crate::text::{
    self, contains_text, count_text, decimal, replaced, strictly_ascending, uppercase,
};
use vstd::prelude::*;

verus! {

// ─── Arguments ────────────────────────────────────────────────────────────

/// An argument of a package that is refused for that reason.
pub fn invalid_manufacturing_argument(field: &str, reason: &str) -> (r: InvalidArgument)
    ensures
        r@ == invalid(field@, reason@),
{
    invalid_export_argument(field, reason)
}

/// The name that a package has for an argument of the position export.
pub open spec fn package_field(field: Seq<char>) -> Seq<char> {
    if field == "side"@ {
        "position_side"@
    } else if field == "units"@ {
        "position_units"@
    } else {
        field
    }
}

/// Whether a package can have its positions on that side and in those units.
pub fn validate_package_positions(side: &str, units: &str) -> (r: Result<(), InvalidArgument>)
    ensures
        match r {
            Ok(_) => position_error("csv"@, side@, units@) is None,
            Err(e) => position_error("csv"@, side@, units@) matches Some(p) && e@ == invalid(
                package_field(p.0),
                p.1,
            ),
        },
{
    match validate_position_values("csv", side, units) {
        Ok(_) => Ok(()),
        Err((field, reason)) => {
            let public: &'static str = if text::same(field, "side") {
                "position_side"
            } else if text::same(field, "units") {
                "position_units"
            } else {
                field
            };
            Err(invalid_manufacturing_argument(public, reason.as_str()))
        },
    }
}

// ─── Packages ─────────────────────────────────────────────────────────────

/// A file that was verified: its path, and its path below the package.
pub struct Artifact {
    pub path: String,
    pub relative: String,
}

/// What the exports of a package came to. Without assembly files there are no
/// positions and no BOM; `bom` is `None` where no schematic was given.
pub struct PackageInput {
    pub fab_house: String,
    pub output_dir: String,
    pub gerbers: Result<Vec<Artifact>, String>,
    pub drills: Result<Vec<Artifact>, String>,
    pub assembly: Option<AssemblyInput>,
}

/// What the exports of assembly files came to.
pub struct AssemblyInput {
    pub positions: Result<Artifact, String>,
    pub bom: Option<Result<Artifact, String>>,
}

/// What a package consists of.
pub struct PackageReport {
    pub complete: bool,
    pub files: Vec<String>,
    pub warnings: Vec<String>,
    pub summary: String,
    pub next_steps: String,
}

/// A failed step as a warning.
pub open spec fn step_warning(step: Seq<char>, failed: Option<Seq<char>>) -> Seq<Seq<char>> {
    match failed {
        Some(e) => seq![step + e],
        None => Seq::empty(),
    }
}

/// Why a list of artifacts is missing.
pub open spec fn list_failure(r: Result<Vec<Artifact>, String>) -> Option<Seq<char>> {
    match r {
        Ok(_) => None,
        Err(e) => Some(e@),
    }
}

/// Why an artifact is missing.
pub open spec fn single_failure(r: Result<Artifact, String>) -> Option<Seq<char>> {
    match r {
        Ok(_) => None,
        Err(e) => Some(e@),
    }
}

/// The warnings about assembly files.
pub open spec fn assembly_warnings(a: AssemblyInput) -> Seq<Seq<char>> {
    step_warning("Position file export failed: "@, single_failure(a.positions)) + (match a.bom {
        None => seq![
            "No schematic provided — BOM not generated. Pass 'schematic' for full assembly package."@,
        ],
        Some(b) => step_warning("BOM export failed: "@, single_failure(b)),
    })
}

/// The warnings of a package, in order of the steps.
pub open spec fn package_warnings(p: PackageInput) -> Seq<Seq<char>> {
    step_warning("Gerber export failed: "@, list_failure(p.gerbers)) + step_warning(
        "Drill export failed: "@,
        list_failure(p.drills),
    ) + (match p.assembly {
        None => Seq::empty(),
        Some(a) => assembly_warnings(a),
    })
}

/// The paths of artifacts as a package names them: below it, with slashes.
pub open spec fn listed(files: Seq<Artifact>) -> Seq<Seq<char>> {
    files.map_values(|f: Artifact| replaced(f.relative@, '\\', '/'))
}

/// Whether the package lists the path: it is that of an artifact.
pub open spec fn is_listed(p: PackageInput, t: Seq<char>) -> bool {
    ||| p.gerbers matches Ok(l) && listed(l@).contains(t)
    ||| p.drills matches Ok(l) && listed(l@).contains(t)
    ||| p.assembly matches Some(a) && (a.positions matches Ok(f) && t == replaced(
        f.relative@,
        '\\',
        '/',
    ))
    ||| p.assembly matches Some(a) && (a.bom matches Some(b) && (b matches Ok(f) && t == replaced(
        f.relative@,
        '\\',
        '/',
    )))
}

/// What is told of a package for the fab house, which is shown under that name.
pub open spec fn package_summary(shown: Seq<char>, files: nat, warnings: nat) -> Seq<char> {
    (if warnings == 0 {
        "Complete package"@
    } else {
        "INCOMPLETE package"@
    }) + " for "@ + shown + ". "@ + decimal(files) + " verified non-empty files. "@ + (
    if warnings == 0 {
        "No warnings."@
    } else {
        decimal(warnings) + " warnings."@
    })
}

/// What is to be done with a package for the fab house, which is shown under
/// that name.
pub open spec fn package_next_steps(shown: Seq<char>, dir: Seq<char>, warnings: nat) -> Seq<char> {
    if warnings == 0 {
        "Upload the contents of "@ + dir + " to "@ + shown
            + "'s order page. Gerbers go in the PCB order, BOM + positions go in the assembly order."@
    } else {
        "Do not upload this package. Resolve every warning and export again."@
    }
}

fn list_paths(files: &Vec<Artifact>, out: &mut Vec<String>)
    ensures
        forall|t: Seq<char>| #[trigger]
            models(final(out)@).contains(t) <==> models(old(out)@).contains(t) || listed(
                files@,
            ).contains(t),
{
    let ghost had = models(out@);
    let ghost all = listed(files@);
    let mut i: usize = 0;
    while i < files.len()
        invariant
            i <= files@.len(),
            all == listed(files@),
            forall|t: Seq<char>| #[trigger]
                models(out@).contains(t) <==> had.contains(t) || all.take(i as int).contains(t),
        decreases files@.len() - i,
    {
        let ghost before = models(out@);
        let name = text::replace_char(files[i].relative.as_str(), '\\', '/');
        let ghost n = name@;
        push_model(out, name);
        proof {
            assert(all.take(i + 1) =~= all.take(i as int).push(n));
            assert forall|t: Seq<char>| #[trigger] models(out@).contains(t) <==> had.contains(t)
                || all.take(i + 1).contains(t) by {
                lemma_contains_push(before, n, t);
                lemma_contains_push(all.take(i as int), n, t);
                assert(before.contains(t) <==> had.contains(t) || all.take(i as int).contains(t));
            }
        }
        i += 1;
    }
    proof {
        assert(all.take(all.len() as int) =~= all);
    }
}

fn list_path(file: &Artifact, out: &mut Vec<String>)
    ensures
        forall|t: Seq<char>| #[trigger]
            models(final(out)@).contains(t) <==> models(old(out)@).contains(t) || t == replaced(
                file.relative@,
                '\\',
                '/',
            ),
{
    let ghost had = models(out@);
    let name = text::replace_char(file.relative.as_str(), '\\', '/');
    let ghost n = name@;
    push_model(out, name);
    proof {
        assert forall|t: Seq<char>| #[trigger] models(out@).contains(t) <==> had.contains(t) || t
            == n by {
            lemma_contains_push(had, n, t);
        }
    }
}

/// Whether the report is that of the package, with the fab house shown under
/// that name.
pub open spec fn is_report_of(r: PackageReport, p: PackageInput, shown: Seq<char>) -> bool {
    &&& r.complete <==> package_warnings(p).len() == 0
    &&& models(r.warnings@) == package_warnings(p)
    &&& strictly_ascending(models(r.files@))
    &&& forall|t: Seq<char>| #[trigger] models(r.files@).contains(t) <==> is_listed(p, t)
    &&& r.summary@ == package_summary(shown, r.files@.len(), r.warnings@.len())
    &&& r.next_steps@ == package_next_steps(shown, p.output_dir@, r.warnings@.len())
}

/// The file list, the warnings and the advice of a package. Only artifacts
/// that were verified are listed, and a package with a warning is incomplete.
pub fn assemble_package(p: &PackageInput) -> (r: PackageReport)
    ensures
        is_report_of(r, *p, uppercase(p.fab_house@)),
{
    let shown = text::to_upper(p.fab_house.as_str());
    assemble_shown_package(p, shown.as_str())
}

/// The report of a package, with the fab house shown under that name.
pub fn assemble_shown_package(p: &PackageInput, fab: &str) -> (r: PackageReport)
    ensures
        is_report_of(r, *p, fab@),
{
    let mut warnings: Vec<String> = Vec::new();
    let mut found: Vec<String> = Vec::new();
    match &p.gerbers {
        Ok(files) => {
            list_paths(files, &mut found);
        },
        Err(e) => {
            push_model(&mut warnings, text::cat2("Gerber export failed: ", e.as_str()));
        },
    }
    let ghost w1 = step_warning("Gerber export failed: "@, list_failure(p.gerbers));
    proof {
        assert(models(warnings@) =~= w1);
    }
    match &p.drills {
        Ok(files) => {
            list_paths(files, &mut found);
        },
        Err(e) => {
            push_model(&mut warnings, text::cat2("Drill export failed: ", e.as_str()));
        },
    }
    let ghost w2 = w1 + step_warning("Drill export failed: "@, list_failure(p.drills));
    proof {
        assert(models(warnings@) =~= w2);
    }
    if let Some(a) = &p.assembly {
        match &a.positions {
            Ok(f) => {
                list_path(f, &mut found);
            },
            Err(e) => {
                push_model(&mut warnings, text::cat2("Position file export failed: ", e.as_str()));
            },
        }
        let ghost w3 = step_warning("Position file export failed: "@, single_failure(a.positions));
        proof {
            assert(models(warnings@) =~= w2 + w3);
        }
        match &a.bom {
            None => {
                push_model(
                    &mut warnings,
                    "No schematic provided — BOM not generated. Pass 'schematic' for full assembly package.".to_owned(),
                );
            },
            Some(b) => match b {
                Ok(f) => {
                    list_path(f, &mut found);
                },
                Err(e) => {
                    push_model(&mut warnings, text::cat2("BOM export failed: ", e.as_str()));
                },
            },
        }
        proof {
            assert(models(warnings@) =~= w2 + assembly_warnings(*a));
        }
    }
    proof {
        assert(models(warnings@) =~= package_warnings(*p));
        assert(models(warnings@).len() == warnings@.len());
        assert forall|t: Seq<char>| #[trigger] models(found@).contains(t) <==> is_listed(
            *p,
            t,
        ) by {}
    }
    let files = text::sorted_distinct(&found);
    proof {
        assert forall|t: Seq<char>| #[trigger] models(files@).contains(t) <==> is_listed(
            *p,
            t,
        ) by {
            assert(models(files@).contains(t) <==> models(found@).contains(t));
        }
    }
    let complete: bool = warnings.len() == 0;
    let count = text::decimal_text(files.len() as u64);
    let mut summary = text::cat5(
        if complete {
            "Complete package"
        } else {
            "INCOMPLETE package"
        },
        " for ",
        fab,
        ". ",
        count.as_str(),
    );
    summary.append(" verified non-empty files. ");
    if complete {
        summary.append("No warnings.");
    } else {
        let n = text::decimal_text(warnings.len() as u64);
        summary.append(text::cat2(n.as_str(), " warnings.").as_str());
    }
    let next_steps = if complete {
        text::cat5(
            "Upload the contents of ",
            p.output_dir.as_str(),
            " to ",
            fab,
            "'s order page. Gerbers go in the PCB order, BOM + positions go in the assembly order.",
        )
    } else {
        "Do not upload this package. Resolve every warning and export again.".to_owned()
    };
    PackageReport { complete, files, warnings, summary, next_steps }
}

/// A package is complete exactly if every export that it needs succeeded: with
/// assembly files that includes the positions and the BOM, for which a
/// schematic must be given.
pub proof fn law_complete_needs_every_export(p: PackageInput)
    ensures
        package_warnings(p).len() == 0 <==> {
            &&& p.gerbers is Ok
            &&& p.drills is Ok
            &&& p.assembly matches Some(a) ==> a.positions is Ok && (a.bom matches Some(b)
                && b is Ok)
        },
{
}

// ─── Nets and tracks ──────────────────────────────────────────────────────

/// How many different texts the list holds.
pub open spec fn distinct_count(list: Seq<Seq<char>>) -> nat {
    only_in(list, Seq::empty(), list.len()).len()
}

/// The number of nets of a board. Where any are named, the names count, so
/// that a net is not counted by its declaration and again by its references.
pub open spec fn net_count(tree: SexpView) -> nat {
    if nets_below(tree, false).len() == 0 {
        distinct_count(nets_below(tree, true))
    } else {
        distinct_count(nets_below(tree, false))
    }
}

/// The number of tracks of a board: its direct segments, vias and arcs. Arcs
/// deeper down are corners of zone outlines.
pub open spec fn track_count(tree: SexpView) -> nat {
    tree.count_children("segment"@) + tree.count_children("via"@) + tree.count_children("arc"@)
}

/// The number of different items that the first `n` items with distinct heads
/// can have is at most `n`.
proof fn lemma_heads_disjoint(tree: SexpView, n: nat)
    requires
        tree is List,
        n <= tree->List_0.len(),
    ensures
        tree.count_headed("segment"@, n) + tree.count_headed("via"@, n) + tree.count_headed(
            "arc"@,
            n,
        ) <= n,
    decreases n,
{
    if n > 0 {
        lemma_heads_disjoint(tree, (n - 1) as nat);
        reveal_strlit("segment");
        reveal_strlit("via");
        reveal_strlit("arc");
        assert("segment"@.len() == 7 && "via"@.len() == 3 && "arc"@.len() == 3);
        assert("via"@[0] == 'v' && "arc"@[0] == 'a');
    }
}

/// The nets and the tracks of a board.
pub fn count_nets_and_tracks(tree: &SexpNode) -> (r: (usize, usize))
    ensures
        r.0 == net_count(tree@),
        r.1 == track_count(tree@),
{
    broadcast use crate::sexp::lemma_list_view;

    let names = nets_of(tree, false);
    proof {
        assert(models(names@).len() == names@.len());
    }
    let nets: usize = if names.len() == 0 {
        let ids = nets_of(tree, true);
        proof {
            assert(models(ids@).len() == ids@.len());
        }
        count_distinct(&ids)
    } else {
        count_distinct(&names)
    };
    let segments: usize = tree.count_children("segment");
    let vias: usize = tree.count_children("via");
    let arcs: usize = tree.count_children("arc");
    match tree {
        SexpNode::List(items) => {
            let len: usize = items.len();
            proof {
                assert(tree@ == SexpView::List(models(items@)));
                assert(models(items@).len() == len);
                lemma_heads_disjoint(tree@, len as nat);
            }
            (nets, segments + vias + arcs)
        },
        _ => (nets, 0),
    }
}

/// The copper layers that the text of a board declares.
pub open spec fn copper_layers(content: Seq<char>) -> nat {
    count_text(content, "signal)"@, 0) + count_text(content, "signal \""@, 0)
}

/// The copper layers that the text of a board declares.
pub fn count_copper_layers(content: &str) -> (n: u128)
    ensures
        n == copper_layers(content@),
{
    proof {
        reveal_strlit("signal)");
        reveal_strlit("signal \"");
    }
    let a: usize = text::count_matches(content, "signal)");
    let b: usize = text::count_matches(content, "signal \"");
    a as u128 + b as u128
}

// ─── Readiness ────────────────────────────────────────────────────────────

/// Something that keeps a board from being manufactured.
pub struct ReadinessIssue {
    pub issue: String,
    pub fix: String,
}

/// The model of an issue.
pub ghost struct IssueView {
    pub issue: Seq<char>,
    pub fix: Seq<char>,
}

impl View for ReadinessIssue {
    type V = IssueView;

    open spec fn view(&self) -> IssueView {
        IssueView { issue: self.issue@, fix: self.fix@ }
    }
}

/// What readiness is judged by: the text of the board, its footprints, nets
/// and tracks, the minimum trace width that it states, and the design rules
/// report.
pub struct ReadinessInput {
    pub content: String,
    pub footprints: usize,
    pub nets: usize,
    pub tracks: usize,
    pub min_trace_width: Option<Length>,
    pub drc: Result<DrcReport, String>,
}

/// The issue, if there is one.
pub open spec fn issue_if(found: bool, issue: Seq<char>, fix: Seq<char>) -> Seq<IssueView> {
    if found {
        seq![IssueView { issue, fix }]
    } else {
        Seq::empty()
    }
}

/// The issues of the errors among the first `n` violations.
pub open spec fn error_issues(list: Seq<DrcView>, n: nat) -> Seq<IssueView>
    decreases n,
{
    if n == 0 {
        Seq::empty()
    } else {
        let rest = error_issues(list, (n - 1) as nat);
        let v = list[n - 1];
        if v.severity == "error"@ {
            rest.push(
                IssueView {
                    issue: "DRC ["@ + v.rule + "]: "@ + v.description,
                    fix: "Fix in the PCB editor, or waive the rule deliberately; run_drc lists every violation with its location"@,
                },
            )
        } else {
            rest
        }
    }
}

/// The issues of categories that were not reported.
pub open spec fn category_issues(names: Seq<Seq<char>>) -> Seq<IssueView> {
    names.map_values(
        |m: Seq<char>|
            IssueView {
                issue: "kicad-cli did not report DRC '"@ + m + "'"@,
                fix: "Readiness cannot be established without it; check the kicad-cli version"@,
            },
    )
}

/// The issues of a design rules report, or of its absence.
pub open spec fn drc_issues(drc: Result<DrcReport, String>) -> Seq<IssueView> {
    match drc {
        Ok(r) => error_issues(r@.all(), r@.all().len()) + category_issues(missing(r@)),
        Err(e) => seq![
            IssueView {
                issue: "DRC could not run: "@ + e@,
                fix: "Without DRC this tool cannot tell a clean board from a broken one; fix the kicad-cli path and re-run"@,
            },
        ],
    }
}

/// Whether the stated minimum trace width is below what the fab house makes.
pub open spec fn is_too_thin(w: Option<Length>, fab: Seq<char>) -> bool {
    w matches Some(l) && l.nm < capability_nm(fab)
}

/// What keeps a board from being manufactured, in order.
pub open spec fn readiness_issues(b: ReadinessInput, fab: Seq<char>) -> Seq<IssueView> {
    issue_if(
        !contains_text(b.content@, "Edge.Cuts"@),
        "No board outline found on Edge.Cuts layer"@,
        "Add a board outline using add_board_outline before ordering"@,
    ) + issue_if(
        b.footprints == 0,
        "No footprints found on the board"@,
        "Open the PCB in KiCAD and run Tools > Update PCB from Schematic (kicad-cli has no 'pcb sync' command)"@,
    ) + issue_if(
        is_too_thin(b.min_trace_width, fab),
        "Trace width "@ + b.min_trace_width->0.shown@ + "mm is below "@ + fab + "'s minimum ("@
            + capability_text(fab) + "mm)"@,
        "Increase minimum trace width to "@ + capability_text(fab) + "mm in design rules"@,
    ) + issue_if(
        b.nets > 3 && b.tracks == 0,
        decimal(b.nets as nat) + " nets defined but no traces routed"@,
        "Route traces using route_trace before manufacturing"@,
    ) + drc_issues(b.drc)
}

/// Whether a board can be manufactured.
#[derive(Clone, Copy, PartialEq, Eq, Structural, Debug)]
pub enum Readiness {
    Ready,
    NotReady,
}

impl Readiness {
    /// The words of the verdict.
    pub fn words(&self) -> (r: &'static str)
        ensures
            r@ == readiness_words(*self),
    {
        match self {
            Readiness::Ready => "READY",
            Readiness::NotReady => "NOT READY",
        }
    }
}

/// The words of the verdict.
pub open spec fn readiness_words(r: Readiness) -> Seq<char> {
    match r {
        Readiness::Ready => "READY"@,
        Readiness::NotReady => "NOT READY"@,
    }
}

/// A board is ready exactly if nothing keeps it: every issue is an error.
pub open spec fn readiness(b: ReadinessInput, fab: Seq<char>) -> Readiness {
    if readiness_issues(b, fab).len() == 0 {
        Readiness::Ready
    } else {
        Readiness::NotReady
    }
}

/// The verdict on a board.
pub struct ReadinessReport {
    pub verdict: Readiness,
    pub copper_layers: u128,
    pub issues: Vec<ReadinessIssue>,
    pub summary: String,
}

fn push_issue(issues: &mut Vec<ReadinessIssue>, issue: String, fix: &str)
    ensures
        models(final(issues)@) == models(old(issues)@) + seq![
            IssueView { issue: issue@, fix: fix@ },
        ],
{
    let ghost had = models(issues@);
    let ghost i = issue@;
    push_model(issues, ReadinessIssue { issue, fix: fix.to_owned() });
    proof {
        assert(models(issues@) =~= had + seq![IssueView { issue: i, fix: fix@ }]);
    }
}

fn push_drc_issues(drc: &Result<DrcReport, String>, issues: &mut Vec<ReadinessIssue>)
    ensures
        models(final(issues)@) == models(old(issues)@) + drc_issues(*drc),
{
    let ghost had = models(issues@);
    match drc {
        Ok(r) => {
            let all = r.all();
            let ghost list = r@.all();
            let mut i: usize = 0;
            proof {
                assert(models(all@).len() == all@.len());
                assert(had + error_issues(list, 0) =~= had);
            }
            while i < all.len()
                invariant
                    i <= all@.len(),
                    list == models(all@),
                    models(issues@) == had + error_issues(list, i as nat),
                decreases all@.len() - i,
            {
                let v = all[i];
                let ghost e0 = error_issues(list, i as nat);
                proof {
                    assert(list[i as int] == v@);
                }
                if text::same(v.severity.as_str(), "error") {
                    let issue = text::cat4(
                        "DRC [",
                        v.rule.as_str(),
                        "]: ",
                        v.description.as_str(),
                    );
                    push_issue(
                        issues,
                        issue,
                        "Fix in the PCB editor, or waive the rule deliberately; run_drc lists every violation with its location",
                    );
                    proof {
                        assert(models(issues@) =~= had + error_issues(list, (i + 1) as nat));
                    }
                }
                i += 1;
            }
            let names = r.missing_categories();
            let ghost had2 = models(issues@);
            let ghost want = category_issues(models(names@));
            let mut k: usize = 0;
            proof {
                assert(had2 + want.take(0) =~= had2);
            }
            while k < names.len()
                invariant
                    k <= names@.len(),
                    want == category_issues(models(names@)),
                    models(issues@) == had2 + want.take(k as int),
                decreases names@.len() - k,
            {
                let issue = text::cat3("kicad-cli did not report DRC '", names[k], "'");
                let ghost i = issue@;
                push_issue(
                    issues,
                    issue,
                    "Readiness cannot be established without it; check the kicad-cli version",
                );
                proof {
                    assert(models(names@)[k as int] == names@[k as int]@);
                    assert(want[k as int].issue == i);
                    assert(models(issues@) =~= had2 + want.take(k + 1));
                }
                k += 1;
            }
            proof {
                assert(want.take(want.len() as int) =~= want);
                assert(models(issues@) =~= had + drc_issues(*drc));
            }
        },
        Err(e) => {
            push_issue(
                issues,
                text::cat2("DRC could not run: ", e.as_str()),
                "Without DRC this tool cannot tell a clean board from a broken one; fix the kicad-cli path and re-run",
            );
        },
    }
}

/// Whether a board can be manufactured, and what keeps it. A verdict needs the
/// evidence of a design rules report.
pub fn validate_for_manufacturing(b: &ReadinessInput, fab_house: &str) -> (r: ReadinessReport)
    ensures
        r.verdict == readiness(*b, fab_house@),
        r.copper_layers == copper_layers(b.content@),
        models(r.issues@) == readiness_issues(*b, fab_house@),
        r.summary@ == readiness_words(r.verdict) + ": "@ + decimal(r.issues@.len())
            + " issues found. "@ + decimal(b.footprints as nat) + " footprints, "@ + decimal(
            r.copper_layers as nat,
        ) + " copper layers."@,
{
    let (min_nm, min_shown) = capability(fab_house);
    let mut issues: Vec<ReadinessIssue> = Vec::new();
    let outlined = text::contains(b.content.as_str(), "Edge.Cuts");
    if !outlined {
        push_issue(
            &mut issues,
            "No board outline found on Edge.Cuts layer".to_owned(),
            "Add a board outline using add_board_outline before ordering",
        );
    }
    let ghost i1 = issue_if(
        !outlined,
        "No board outline found on Edge.Cuts layer"@,
        "Add a board outline using add_board_outline before ordering"@,
    );
    proof {
        assert(models(issues@) =~= i1);
    }
    if b.footprints == 0 {
        push_issue(
            &mut issues,
            "No footprints found on the board".to_owned(),
            "Open the PCB in KiCAD and run Tools > Update PCB from Schematic (kicad-cli has no 'pcb sync' command)",
        );
    }
    let ghost i2 = issue_if(
        b.footprints == 0,
        "No footprints found on the board"@,
        "Open the PCB in KiCAD and run Tools > Update PCB from Schematic (kicad-cli has no 'pcb sync' command)"@,
    );
    proof {
        assert(models(issues@) =~= i1 + i2);
    }
    if let Some(w) = &b.min_trace_width {
        if w.nm < min_nm {
            let mut issue = text::cat5(
                "Trace width ",
                w.shown.as_str(),
                "mm is below ",
                fab_house,
                "'s minimum (",
            );
            issue.append(min_shown);
            issue.append("mm)");
            let fix = text::cat3(
                "Increase minimum trace width to ",
                min_shown,
                "mm in design rules",
            );
            push_issue(&mut issues, issue, fix.as_str());
        }
    }
    let ghost i3 = issue_if(
        is_too_thin(b.min_trace_width, fab_house@),
        "Trace width "@ + b.min_trace_width->0.shown@ + "mm is below "@ + fab_house@
            + "'s minimum ("@ + capability_text(fab_house@) + "mm)"@,
        "Increase minimum trace width to "@ + capability_text(fab_house@)
            + "mm in design rules"@,
    );
    proof {
        assert(models(issues@) =~= i1 + i2 + i3);
    }
    if b.nets > 3 && b.tracks == 0 {
        let n = text::decimal_text(b.nets as u64);
        push_issue(
            &mut issues,
            text::cat2(n.as_str(), " nets defined but no traces routed"),
            "Route traces using route_trace before manufacturing",
        );
    }
    let ghost i4 = issue_if(
        b.nets > 3 && b.tracks == 0,
        decimal(b.nets as nat) + " nets defined but no traces routed"@,
        "Route traces using route_trace before manufacturing"@,
    );
    proof {
        assert(models(issues@) =~= i1 + i2 + i3 + i4);
    }
    push_drc_issues(&b.drc, &mut issues);
    proof {
        assert(models(issues@).len() == issues@.len());
    }
    let verdict = if issues.len() == 0 { Readiness::Ready } else { Readiness::NotReady };
    let layers: u128 = count_copper_layers(b.content.as_str());
    let count = text::decimal_text(issues.len() as u64);
    let fps = text::decimal_text(b.footprints as u64);
    let cu = text::wide_decimal_text(layers);
    let mut summary = text::cat5(
        verdict.words(),
        ": ",
        count.as_str(),
        " issues found. ",
        fps.as_str(),
    );
    summary.append(" footprints, ");
    summary.append(cu.as_str());
    summary.append(" copper layers.");
    ReadinessReport { verdict, copper_layers: layers, issues, summary }
}

/// A board is ready only on evidence: its design rules report is there, with
/// every category and without an error, and it has an outline, footprints and
/// routed nets.
pub proof fn law_ready_needs_evidence(b: ReadinessInput, fab: Seq<char>)
    requires
        readiness(b, fab) == Readiness::Ready,
    ensures
        b.drc is Ok,
        missing((b.drc->Ok_0)@).len() == 0,
        count_errors((b.drc->Ok_0)@.all()) == 0,
        contains_text(b.content@, "Edge.Cuts"@),
        b.footprints > 0,
        b.nets > 3 ==> b.tracks > 0,
        !is_too_thin(b.min_trace_width, fab),
{
    assert(drc_issues(b.drc).len() == 0);
    let r = (b.drc->Ok_0)@;
    assert(category_issues(missing(r)).len() == missing(r).len());
    lemma_error_issues(r.all(), r.all().len());
    assert(r.all().take(r.all().len() as int) =~= r.all());
}

proof fn lemma_error_issues(list: Seq<DrcView>, n: nat)
    requires
        n <= list.len(),
    ensures
        error_issues(list, n).len() == count_errors(list.take(n as int)),
    decreases n,
{
    if n > 0 {
        lemma_error_issues(list, (n - 1) as nat);
        assert(list.take(n as int).drop_last() =~= list.take(n - 1));
    }
}

proof fn lemma_no_error_issues(list: Seq<DrcView>, n: nat)
    requires
        n <= list.len(),
    ensures
        error_issues(list, n).len() == 0 <==> forall|i: int|
            0 <= i < n ==> (#[trigger] list[i]).severity != "error"@,
    decreases n,
{
    if n > 0 {
        lemma_no_error_issues(list, (n - 1) as nat);
    }
}

/// A board is ready exactly if it has an outline and footprints, its stated trace
/// width is one that the fab house makes, its nets are routed where there are
/// more than three, and its design rules report is there with every category and
/// without an error in any.
pub proof fn law_ready_boards(b: ReadinessInput, fab: Seq<char>)
    ensures
        ({
            let least = if fab == "jlcpcb"@ {
                127_000int
            } else if fab == "pcbway"@ {
                100_000
            } else if fab == "oshpark"@ {
                152_000
            } else {
                150_000
            };
            readiness(b, fab) == Readiness::Ready <==> {
                &&& contains_text(b.content@, "Edge.Cuts"@)
                &&& b.footprints > 0
                &&& b.min_trace_width matches Some(w) ==> w.nm >= least
                &&& b.nets > 3 ==> b.tracks > 0
                &&& b.drc matches Ok(r) && r@.unconnected_items is Some && r@.schematic_parity
                    is Some && (forall|i: int|
                    0 <= i < r@.violations.len() ==> (#[trigger] r@.violations[i]).severity
                        != "error"@) && (forall|i: int|
                    0 <= i < r@.unconnected_items->0.len() ==> (
                    #[trigger] r@.unconnected_items->0[i]).severity != "error"@) && (forall|i: int|
                    0 <= i < r@.schematic_parity->0.len() ==> (
                    #[trigger] r@.schematic_parity->0[i]).severity != "error"@)
            }
        }),
{
    match b.drc {
        Ok(r) => {
            let v = r@;
            let all = v.all();
            lemma_no_error_issues(all, all.len());
            assert(category_issues(missing(v)).len() == missing(v).len());
            assert(drc_issues(b.drc).len() == error_issues(all, all.len()).len() + missing(
                v,
            ).len());
            if v.unconnected_items is Some && v.schematic_parity is Some {
                let (x, y, z) = (v.violations, v.unconnected_items->0, v.schematic_parity->0);
                assert(all == x + y + z);
                assert(missing(v).len() == 0);
                if forall|i: int| 0 <= i < all.len() ==> (#[trigger] all[i]).severity != "error"@ {
                    assert forall|i: int| 0 <= i < x.len() implies (#[trigger] x[i]).severity
                        != "error"@ by {
                        assert(all[i] == x[i]);
                    }
                    assert forall|i: int| 0 <= i < y.len() implies (#[trigger] y[i]).severity
                        != "error"@ by {
                        assert(all[x.len() + i] == y[i]);
                    }
                    assert forall|i: int| 0 <= i < z.len() implies (#[trigger] z[i]).severity
                        != "error"@ by {
                        assert(all[x.len() + y.len() + i] == z[i]);
                    }
                }
                if (forall|i: int| 0 <= i < x.len() ==> (#[trigger] x[i]).severity != "error"@) && (
                forall|i: int| 0 <= i < y.len() ==> (#[trigger] y[i]).severity != "error"@) && (
                forall|i: int| 0 <= i < z.len() ==> (#[trigger] z[i]).severity != "error"@) {
                    assert forall|i: int| 0 <= i < all.len() implies (#[trigger] all[i]).severity
                        != "error"@ by {
                        if i < x.len() {
                            assert(all[i] == x[i]);
                        } else if i < x.len() + y.len() {
                            assert(all[i] == y[i - x.len()]);
                        } else {
                            assert(all[i] == z[i - x.len() - y.len()]);
                        }
                    }
                }
            } else {
                assert(missing(v).len() > 0);
            }
        },
        Err(_) => {},
    }
}

/// A package is complete, and told to be uploaded, exactly if it has no warning;
/// one with a warning is told not to be.
pub proof fn law_incomplete_packages_are_not_uploaded(
    r: PackageReport,
    p: PackageInput,
    shown: Seq<char>,
)
    requires
        is_report_of(r, p, shown),
    ensures
        r.complete <==> r.warnings@.len() == 0,
        r.complete ==> r.next_steps@[0] == 'U' && p.gerbers is Ok && p.drills is Ok,
        !r.complete ==> r.next_steps@
            == "Do not upload this package. Resolve every warning and export again."@,
        p.gerbers is Err ==> !r.complete,
        p.drills is Err ==> !r.complete,
        p.assembly matches Some(a) ==> (a.positions is Err || a.bom is None || a.bom->0 is Err)
            ==> !r.complete,
{
    law_complete_needs_every_export(p);
    assert(models(r.warnings@).len() == r.warnings@.len());
    reveal_strlit("Upload the contents of ");
    if r.complete {
        let t = package_next_steps(shown, p.output_dir@, 0);
        assert(t[0] == "Upload the contents of "@[0]);
    }
}

/// The direct segments, vias and arcs of a board are its tracks: it has none
/// exactly if none of its items has one of these heads.
pub proof fn law_boards_without_tracks(tree: SexpView)
    ensures
        track_count(tree) == 0 <==> forall|i: int|
            0 <= i < tree.items().len() ==> (#[trigger] tree.items()[i]).head() != Some("segment"@)
                && tree.items()[i].head() != Some("via"@) && tree.items()[i].head() != Some(
                "arc"@,
            ),
{
    let n = tree.items().len();
    lemma_count_headed(tree, "segment"@, n);
    lemma_count_headed(tree, "via"@, n);
    lemma_count_headed(tree, "arc"@, n);
}

proof fn lemma_count_headed(tree: SexpView, head: Seq<char>, n: nat)
    requires
        n <= tree.items().len(),
    ensures
        tree.count_headed(head, n) == 0 <==> forall|i: int|
            0 <= i < n ==> (#[trigger] tree.items()[i]).head() != Some(head),
    decreases n,
{
    if n > 0 {
        lemma_count_headed(tree, head, (n - 1) as nat);
    }
}

/// A net counts once, however often a board names it: there are no more nets than
/// names, as many where no name comes twice, and none only where there is none.
pub proof fn law_nets_count_once(list: Seq<Seq<char>>)
    ensures
        distinct_count(list) <= list.len(),
        list.no_duplicates() ==> distinct_count(list) == list.len(),
        distinct_count(list) == 0 <==> list.len() == 0,
{
    lemma_distinct(list, list.len());
    if list.len() > 0 {
        crate::hierarchy::lemma_only_in(list, Seq::empty(), list.len());
        assert(list.take(list.len() as int) =~= list);
        assert(list.contains(list[0]));
        assert(only_in(list, Seq::empty(), list.len()).contains(list[0]));
    }
}

proof fn lemma_distinct(list: Seq<Seq<char>>, n: nat)
    requires
        n <= list.len(),
    ensures
        only_in(list, Seq::empty(), n).len() <= n,
        list.no_duplicates() ==> only_in(list, Seq::empty(), n).len() == n,
    decreases n,
{
    if n > 0 {
        lemma_distinct(list, (n - 1) as nat);
        crate::hierarchy::lemma_only_in(list, Seq::empty(), (n - 1) as nat);
        let before = list.take(n - 1);
        if list.no_duplicates() && before.contains(list[n - 1]) {
            let i = before.index_of(list[n - 1]);
            assert(list[i] == list[n - 1]);
        }
    }
}

/// The nets of a board are counted by name where it names any, and by number
/// only where it names none.
pub proof fn law_nets_are_counted_by_name(tree: SexpView)
    ensures
        nets_below(tree, false).len() > 0 ==> net_count(tree) == distinct_count(
            nets_below(tree, false),
        ),
        nets_below(tree, false).len() == 0 ==> net_count(tree) == distinct_count(
            nets_below(tree, true),
        ),
        net_count(tree) == 0 <==> nets_below(tree, false).len() == 0 && nets_below(tree, true).len()
            == 0,
{
    law_nets_count_once(nets_below(tree, false));
    law_nets_count_once(nets_below(tree, true));
}

/// A board declares copper layers exactly if its text names a layer of signals,
/// closed at once or with a name behind it.
pub proof fn law_boards_with_copper(content: Seq<char>)
    ensures
        copper_layers(content) > 0 <==> contains_text(content, "signal)"@) || contains_text(
            content,
            "signal \""@,
        ),
{
    reveal_strlit("signal)");
    reveal_strlit("signal \"");
    text::law_counting_texts(content, "signal)"@);
    text::law_counting_texts(content, "signal \""@);
}

} // verus!
