//! The consolidated design review.
use crate::audits::{
    audit_connections, audit_decoupling, audit_power_rails, capacitance_findings,
    connection_findings, decoupling_findings, is_power_net, test_point_findings, AuditFinding,
    FindingView, Severity,
};
use crate::bom_health::{bom_findings, check_bom_health, Part};
use crate::hierarchy::{count_distinct, lemma_node_children, only_in, Fault, HierarchyNode, NodeView};
use crate::json::{
    copy_json, json_document, lemma_object_view, parse_json, set_field, text_entry,
    text_field, text_or_null, text_value, Entry, EntryView, Json, JsonView,
};
use crate::reports::{count_errors, missing, DrcReport, DrcView, DrcViolation, ReportView};
use crate::sch_analysis::{name_symbols, symbols_named, NetSymbolView};
use crate::schematic::{pins_of, text_option, Sheet, Symbol};
use crate::seqs::{
    lemma_contains_add, lemma_contains_push, lemma_models_add, models, push_model,
};
use crate::text::{self, decimal};
use vstd::prelude::*;

verus! {

// ─── Results of audits ────────────────────────────────────────────────────

/// A piece of a tool's answer.
pub enum ToolContent {
    Text(String),
    Other,
}

/// A tool's answer.
pub struct CallToolResult {
    pub content: Vec<ToolContent>,
    pub is_error: bool,
}

impl CallToolResult {
    /// An answer of one text.
    pub fn text(t: &str) -> (r: CallToolResult)
        ensures
            !r.is_error,
            r.content@.len() == 1,
            r.content@[0] matches ToolContent::Text(s) && s@ == t@,
    {
        CallToolResult { content: vec![ToolContent::Text(t.to_owned())], is_error: false }
    }

    /// An answer that is an error with that message.
    pub fn error(t: &str) -> (r: CallToolResult)
        ensures
            r.is_error,
            r.content@.len() == 1,
            r.content@[0] matches ToolContent::Text(s) && s@ == t@,
    {
        CallToolResult { content: vec![ToolContent::Text(t.to_owned())], is_error: true }
    }
}

/// Whether every value is an object.
pub open spec fn all_objects(items: Seq<JsonView>) -> bool {
    forall|i: int| 0 <= i < items.len() ==> (#[trigger] items[i]) is Object
}

/// The findings that a document holds under `findings`, or why it holds none.
pub open spec fn document_findings(d: JsonView) -> Result<Seq<JsonView>, Seq<char>> {
    match d.field_items("findings"@) {
        None => Err("audit result did not contain a findings array"@),
        Some(items) => if all_objects(items) {
            Ok(items)
        } else {
            Err("audit findings must be JSON objects"@)
        },
    }
}

/// The findings of an answer, or why it has none.
pub open spec fn result_findings(r: CallToolResult) -> Result<Seq<JsonView>, Seq<char>> {
    if r.content@.len() == 0 {
        Err("audit returned no content"@)
    } else {
        match r.content@[0] {
            ToolContent::Other => Err("audit returned non-text content"@),
            ToolContent::Text(t) => if r.is_error {
                Err("audit returned an error result: "@ + t@)
            } else {
                match json_document(t@) {
                    Err(e) => Err("audit result was not valid JSON: "@ + e),
                    Ok(d) => document_findings(d),
                }
            },
        }
    }
}

/// The findings that a document holds.
pub fn findings_in_document(d: &Json) -> (r: Result<Vec<Json>, String>)
    ensures
        match r {
            Ok(f) => document_findings(d@) == Ok::<Seq<JsonView>, Seq<char>>(models(f@)),
            Err(e) => document_findings(d@) == Err::<Seq<JsonView>, Seq<char>>(e@),
        },
{
    match d.get_items("findings") {
        None => Err("audit result did not contain a findings array".to_owned()),
        Some(items) => {
            let mut out: Vec<Json> = Vec::new();
            let ghost all = models(items@);
            let mut i: usize = 0;
            proof {
                assert(models(out@) =~= all.take(0));
            }
            while i < items.len()
                invariant
                    i <= items@.len(),
                    all == models(items@),
                    d@.field_items("findings"@) == Some(all),
                    models(out@) == all.take(i as int),
                    forall|j: int| 0 <= j < i ==> (#[trigger] all[j]) is Object,
                decreases items@.len() - i,
            {
                proof {
                    assert(all[i as int] == items@[i as int]@);
                }
                if !items[i].is_object() {
                    return Err("audit findings must be JSON objects".to_owned());
                }
                push_model(&mut out, copy_json(&items[i]));
                i += 1;
            }
            proof {
                assert(all.take(all.len() as int) =~= all);
            }
            Ok(out)
        },
    }
}

/// The findings of an answer. An error, an answer of another shape, and a
/// document without findings are not the same as no findings.
pub fn extract_findings(result: &CallToolResult) -> (r: Result<Vec<Json>, String>)
    ensures
        match r {
            Ok(f) => result_findings(*result) == Ok::<Seq<JsonView>, Seq<char>>(models(f@)),
            Err(e) => result_findings(*result) == Err::<Seq<JsonView>, Seq<char>>(e@),
        },
{
    if result.content.len() == 0 {
        return Err("audit returned no content".to_owned());
    }
    match &result.content[0] {
        ToolContent::Other => Err("audit returned non-text content".to_owned()),
        ToolContent::Text(t) => {
            if result.is_error {
                return Err(text::cat2("audit returned an error result: ", t.as_str()));
            }
            match parse_json(t.as_str()) {
                Err(e) => Err(text::cat2("audit result was not valid JSON: ", e.as_str())),
                Ok(d) => findings_in_document(&d),
            }
        },
    }
}

/// What an audit came to: findings, an answer of no use, or a failure.
pub enum AuditOutcome {
    Findings(Vec<Json>),
    Invalid(String),
    Failed(String),
}

/// The model of an outcome.
pub ghost enum OutcomeView {
    Findings(Seq<JsonView>),
    Invalid(Seq<char>),
    Failed(Seq<char>),
}

impl View for AuditOutcome {
    type V = OutcomeView;

    open spec fn view(&self) -> OutcomeView {
        match self {
            AuditOutcome::Findings(f) => OutcomeView::Findings(models(f@)),
            AuditOutcome::Invalid(m) => OutcomeView::Invalid(m@),
            AuditOutcome::Failed(m) => OutcomeView::Failed(m@),
        }
    }
}

/// What an audit with that answer, or that failure, came to.
pub fn outcome_of(result: &Result<CallToolResult, String>) -> (o: AuditOutcome)
    ensures
        o@ == match *result {
            Err(e) => OutcomeView::Failed(e@),
            Ok(r) => match result_findings(r) {
                Ok(f) => OutcomeView::Findings(f),
                Err(m) => OutcomeView::Invalid(m),
            },
        },
{
    match result {
        Err(e) => AuditOutcome::Failed(e.clone()),
        Ok(r) => match extract_findings(r) {
            Ok(f) => AuditOutcome::Findings(f),
            Err(m) => AuditOutcome::Invalid(m),
        },
    }
}

/// The name of a severity.
pub open spec fn severity_name(s: Severity) -> Seq<char> {
    match s {
        Severity::Error => "error"@,
        Severity::Warning => "warning"@,
        Severity::Info => "info"@,
    }
}

/// A finding as a value.
pub open spec fn finding_value(f: FindingView) -> JsonView {
    JsonView::Object(
        seq![
            text_entry("severity"@, severity_name(f.severity)),
            text_entry("category"@, f.category),
            EntryView { name: "component"@, value: text_or_null(f.component) },
            text_entry("issue"@, f.issue),
            text_entry("recommendation"@, f.recommendation),
        ],
    )
}

fn severity_text(s: Severity) -> (r: &'static str)
    ensures
        r@ == severity_name(s),
{
    match s {
        Severity::Error => "error",
        Severity::Warning => "warning",
        Severity::Info => "info",
    }
}

/// A finding as a value.
pub fn finding_json(f: &AuditFinding) -> (j: Json)
    ensures
        j@ == finding_value(f@),
{
    broadcast use lemma_object_view;

    let mut entries: Vec<Entry> = Vec::new();
    push_model(&mut entries, text_field("severity", severity_text(f.severity)));
    push_model(&mut entries, text_field("category", f.category));
    push_model(
        &mut entries,
        Entry { name: "component".to_owned(), value: text_value(&f.component) },
    );
    push_model(&mut entries, text_field("issue", f.issue.as_str()));
    push_model(&mut entries, text_field("recommendation", f.recommendation.as_str()));
    proof {
        assert(models(entries@) =~= finding_value(f@)->Object_0);
    }
    Json::Object(entries)
}

/// The findings of an audit as its outcome.
pub fn findings_outcome(findings: &Vec<AuditFinding>) -> (o: AuditOutcome)
    ensures
        o@ == OutcomeView::Findings(models(findings@).map_values(|f: FindingView| finding_value(f))),
{
    let mut out: Vec<Json> = Vec::new();
    let ghost told = models(findings@).map_values(|f: FindingView| finding_value(f));
    let mut i: usize = 0;
    proof {
        assert(models(out@) =~= told.take(0));
    }
    while i < findings.len()
        invariant
            i <= findings@.len(),
            told == models(findings@).map_values(|f: FindingView| finding_value(f)),
            models(out@) == told.take(i as int),
        decreases findings@.len() - i,
    {
        let j = finding_json(&findings[i]);
        proof {
            assert(told[i as int] == j@);
        }
        push_model(&mut out, j);
        i += 1;
    }
    proof {
        assert(told.take(told.len() as int) =~= told);
    }
    AuditOutcome::Findings(out)
}

// ─── Diagnostics ──────────────────────────────────────────────────────────

/// Why the review could not evaluate some part of the design.
pub struct Diagnostic {
    pub code: &'static str,
    pub audit: Option<String>,
    pub source: String,
    pub reference: Option<String>,
    pub library_symbol: Option<String>,
    pub message: String,
}

/// The model of a diagnostic.
pub ghost struct DiagnosticView {
    pub code: Seq<char>,
    pub audit: Option<Seq<char>>,
    pub source: Seq<char>,
    pub reference: Option<Seq<char>>,
    pub library_symbol: Option<Seq<char>>,
    pub message: Seq<char>,
}

impl View for Diagnostic {
    type V = DiagnosticView;

    open spec fn view(&self) -> DiagnosticView {
        DiagnosticView {
            code: self.code@,
            audit: text_option(self.audit),
            source: self.source@,
            reference: text_option(self.reference),
            library_symbol: text_option(self.library_symbol),
            message: self.message@,
        }
    }
}

/// A diagnostic of a source.
pub open spec fn told(code: Seq<char>, source: Seq<char>, message: Seq<char>) -> DiagnosticView {
    DiagnosticView {
        code,
        audit: None,
        source,
        reference: None,
        library_symbol: None,
        message,
    }
}

fn tell(code: &'static str, source: &str, message: String) -> (d: Diagnostic)
    ensures
        d@ == told(code@, source@, message@),
{
    Diagnostic {
        code,
        audit: None,
        source: source.to_owned(),
        reference: None,
        library_symbol: None,
        message,
    }
}

/// A diagnostic, if there is reason for one.
pub open spec fn told_if(reason: bool, d: DiagnosticView) -> Seq<DiagnosticView> {
    if reason {
        seq![d]
    } else {
        Seq::empty()
    }
}

// ─── One audit over many files ────────────────────────────────────────────

/// What one audit found over all files.
pub struct AuditAggregate {
    pub name: &'static str,
    pub requested: usize,
    pub completed: usize,
    pub failed: usize,
    pub findings: Vec<Json>,
}

/// The model of what one audit found.
pub ghost struct AggregateView {
    pub name: Seq<char>,
    pub requested: nat,
    pub completed: nat,
    pub failed: nat,
    pub findings: Seq<JsonView>,
}

impl View for AuditAggregate {
    type V = AggregateView;

    open spec fn view(&self) -> AggregateView {
        AggregateView {
            name: self.name@,
            requested: self.requested as nat,
            completed: self.completed as nat,
            failed: self.failed as nat,
            findings: models(self.findings@),
        }
    }
}

/// A finding marked with the audit and the file that it comes from.
pub open spec fn marked(f: JsonView, audit: Seq<char>, source: Seq<char>) -> JsonView {
    f.with_field("audit"@, JsonView::Text(audit)).with_field("source"@, JsonView::Text(source))
}

/// The aggregate with one more outcome.
pub open spec fn recorded(a: AggregateView, source: Seq<char>, o: OutcomeView) -> AggregateView {
    match o {
        OutcomeView::Findings(f) => AggregateView {
            requested: a.requested + 1,
            completed: a.completed + 1,
            findings: a.findings + f.map_values(|j: JsonView| marked(j, a.name, source)),
            ..a
        },
        _ => AggregateView { requested: a.requested + 1, failed: a.failed + 1, ..a },
    }
}

/// What an outcome adds to the diagnostics.
pub open spec fn outcome_diagnostics(
    audit: Seq<char>,
    source: Seq<char>,
    o: OutcomeView,
) -> Seq<DiagnosticView> {
    match o {
        OutcomeView::Findings(_) => Seq::empty(),
        OutcomeView::Invalid(m) => seq![
            DiagnosticView {
                audit: Some(audit),
                ..told("invalid_audit_result"@, source, m)
            },
        ],
        OutcomeView::Failed(m) => seq![
            DiagnosticView { audit: Some(audit), ..told("audit_failed"@, source, m) },
        ],
    }
}

/// The status of an aggregate.
pub open spec fn aggregate_status(a: AggregateView) -> Seq<char> {
    if a.failed == 0 {
        "complete"@
    } else if a.completed > 0 {
        "partial"@
    } else {
        "failed"@
    }
}

/// The counts of an aggregate.
pub struct AuditSummary {
    pub status: &'static str,
    pub requested: usize,
    pub completed: usize,
    pub failed: usize,
    pub findings: usize,
}

impl AuditAggregate {
    /// An aggregate without outcomes.
    pub fn new(name: &'static str) -> (r: AuditAggregate)
        ensures
            r@ == empty_aggregate(name@),
    {
        let r = AuditAggregate {
            name,
            requested: 0,
            completed: 0,
            failed: 0,
            findings: Vec::new(),
        };
        proof {
            assert(models(r.findings@) =~= Seq::empty());
        }
        r
    }

    /// Adds an outcome.
    pub fn record(&mut self, source: &str, outcome: &AuditOutcome, diagnostics: &mut Vec<Diagnostic>)
        requires
            old(self).requested < usize::MAX,
            old(self).completed < usize::MAX,
            old(self).failed < usize::MAX,
        ensures
            final(self)@ == recorded(old(self)@, source@, outcome@),
            models(final(diagnostics)@) == models(old(diagnostics)@) + outcome_diagnostics(
                old(self).name@,
                source@,
                outcome@,
            ),
    {
        self.requested += 1;
        let ghost had = models(self.findings@);
        proof {
            assert(models(diagnostics@) + Seq::<DiagnosticView>::empty() =~= models(diagnostics@));
        }
        match outcome {
            AuditOutcome::Findings(f) => {
                self.completed += 1;
                let ghost name = self.name@;
                let ghost new = models(f@).map_values(|j: JsonView| marked(j, name, source@));
                let mut i: usize = 0;
                proof {
                    assert(had + new.take(0) =~= had);
                }
                while i < f.len()
                    invariant
                        i <= f@.len(),
                        name == self.name@,
                        self.name == old(self).name,
                        self.requested == old(self).requested + 1,
                        self.completed == old(self).completed + 1,
                        self.failed == old(self).failed,
                        new == models(f@).map_values(|j: JsonView| marked(j, name, source@)),
                        models(self.findings@) == had + new.take(i as int),
                    decreases f@.len() - i,
                {
                    let copy = copy_json(&f[i]);
                    let with_audit = set_field(copy, "audit", Json::Text(self.name.to_owned()));
                    let with_source = set_field(
                        with_audit,
                        "source",
                        Json::Text(source.to_owned()),
                    );
                    proof {
                        assert(new[i as int] == with_source@);
                        assert((had + new.take(i as int)).push(with_source@) =~= had + new.take(
                            i + 1,
                        ));
                    }
                    push_model(&mut self.findings, with_source);
                    i += 1;
                }
                proof {
                    assert(new.take(new.len() as int) =~= new);
                }
            },
            AuditOutcome::Invalid(m) => {
                self.failed += 1;
                let mut d = tell("invalid_audit_result", source, m.clone());
                d.audit = Some(self.name.to_owned());
                push_model(diagnostics, d);
                proof {
                    assert(models(diagnostics@) =~= models(old(diagnostics)@)
                        + outcome_diagnostics(old(self).name@, source@, outcome@));
                }
            },
            AuditOutcome::Failed(m) => {
                self.failed += 1;
                let mut d = tell("audit_failed", source, m.clone());
                d.audit = Some(self.name.to_owned());
                push_model(diagnostics, d);
                proof {
                    assert(models(diagnostics@) =~= models(old(diagnostics)@)
                        + outcome_diagnostics(old(self).name@, source@, outcome@));
                }
            },
        }
    }

    /// The status of the aggregate.
    pub fn status(&self) -> (r: &'static str)
        ensures
            r@ == aggregate_status(self@),
    {
        if self.failed == 0 {
            "complete"
        } else if self.completed > 0 {
            "partial"
        } else {
            "failed"
        }
    }

    /// The counts of the aggregate.
    pub fn summary(&self) -> (r: AuditSummary)
        ensures
            r.status@ == aggregate_status(self@),
            r.requested == self.requested,
            r.completed == self.completed,
            r.failed == self.failed,
            r.findings == self@.findings.len(),
    {
        AuditSummary {
            status: self.status(),
            requested: self.requested,
            completed: self.completed,
            failed: self.failed,
            findings: self.findings.len(),
        }
    }
}

/// An aggregate without outcomes.
pub open spec fn empty_aggregate(name: Seq<char>) -> AggregateView {
    AggregateView { name, requested: 0, completed: 0, failed: 0, findings: Seq::empty() }
}

// ─── Files of the hierarchy ───────────────────────────────────────────────

/// A file of the hierarchy: its path, and the key under which it counts as one
/// file.
pub ghost struct VisitView {
    pub path: Seq<char>,
    pub key: Seq<char>,
}

/// The nodes of a tree, each before its children.
pub open spec fn visits(n: NodeView) -> Seq<VisitView>
    decreases n, 0nat,
{
    seq![VisitView { path: n.path, key: n.key }] + forest_visits(n.children, n.children.len())
}

/// The nodes of the first `k` trees.
pub open spec fn forest_visits(nodes: Seq<NodeView>, k: nat) -> Seq<VisitView>
    decreases nodes, k,
{
    if k == 0 || k > nodes.len() {
        Seq::empty()
    } else {
        forest_visits(nodes, (k - 1) as nat) + visits(nodes[k - 1])
    }
}

/// What is wrong with the nodes of a tree, each before its children.
pub open spec fn node_diagnostics(n: NodeView) -> Seq<DiagnosticView>
    decreases n, 0nat,
{
    (match n.fault {
        Fault::Told(m) => seq![told("hierarchy_error"@, n.path, m)],
        Fault::Sound => Seq::empty(),
    }) + forest_diagnostics(n.children, n.children.len())
}

/// What is wrong with the nodes of the first `k` trees.
pub open spec fn forest_diagnostics(nodes: Seq<NodeView>, k: nat) -> Seq<DiagnosticView>
    decreases nodes, k,
{
    if k == 0 || k > nodes.len() {
        Seq::empty()
    } else {
        forest_diagnostics(nodes, (k - 1) as nat) + node_diagnostics(nodes[k - 1])
    }
}

/// The keys of the visited files.
pub open spec fn visit_keys(v: Seq<VisitView>) -> Seq<Seq<char>> {
    v.map_values(|x: VisitView| x.key)
}

/// The paths of the first `n` visits, each file once.
pub open spec fn distinct_files(v: Seq<VisitView>, n: nat) -> Seq<Seq<char>>
    decreases n,
{
    if n == 0 {
        Seq::empty()
    } else {
        let rest = distinct_files(v, (n - 1) as nat);
        if visit_keys(v).take(n - 1).contains(v[n - 1].key) {
            rest
        } else {
            rest.push(v[n - 1].path)
        }
    }
}

/// What a walk over the sheet tree gathers.
pub struct HierarchyWalk {
    pub sheet_instances: u128,
    pub keys: Vec<String>,
    pub files: Vec<String>,
    pub diagnostics: Vec<Diagnostic>,
}

impl HierarchyWalk {
    /// Whether this is what the visits and the diagnostics come to.
    pub open spec fn gathers(&self, v: Seq<VisitView>, d: Seq<DiagnosticView>) -> bool {
        &&& self.sheet_instances == v.len()
        &&& models(self.files@) == distinct_files(v, v.len())
        &&& forall|t: Seq<char>| #[trigger]
            models(self.keys@).contains(t) <==> visit_keys(v).contains(t)
        &&& models(self.diagnostics@) == d
    }
}

proof fn lemma_distinct_prefix(a: Seq<VisitView>, b: Seq<VisitView>, n: nat)
    requires
        n <= a.len(),
    ensures
        distinct_files(a + b, n) == distinct_files(a, n),
    decreases n,
{
    if n > 0 {
        lemma_distinct_prefix(a, b, (n - 1) as nat);
        assert(visit_keys(a + b).take(n - 1) =~= visit_keys(a).take(n - 1));
    }
}

fn collect_node(
    n: &HierarchyNode,
    walk: &mut HierarchyWalk,
    Ghost(v): Ghost<Seq<VisitView>>,
    Ghost(d): Ghost<Seq<DiagnosticView>>,
) -> (r: Result<(), ()>)
    requires
        old(walk).gathers(v, d),
    ensures
        r is Ok ==> final(walk).gathers(v + visits(n@), d + node_diagnostics(n@)),
        r is Err ==> v.len() + visits(n@).len() > u128::MAX,
    decreases n,
{
    proof {
        lemma_node_children(*n);
    }
    let ghost here = VisitView { path: n@.path, key: n@.key };
    if walk.sheet_instances == u128::MAX {
        proof {
            assert(visits(n@).len() >= 1);
        }
        return Err(());
    }
    walk.sheet_instances += 1;
    let ghost had_keys = models(walk.keys@);
    let known = text::list_contains(&walk.keys, n.key.as_str());
    if !known {
        push_model(&mut walk.keys, n.key.clone());
        push_model(&mut walk.files, n.path.clone());
    }
    let ghost v1 = v.push(here);
    proof {
        assert(visit_keys(v1).take(v.len() as int) =~= visit_keys(v));
        assert(v1 =~= v + seq![here]);
        lemma_distinct_prefix(v, seq![here], v.len());
        assert(visit_keys(v1) =~= visit_keys(v).push(here.key));
        assert forall|t: Seq<char>| #[trigger] models(walk.keys@).contains(t) <==> visit_keys(
            v1,
        ).contains(t) by {
            lemma_contains_push(visit_keys(v), here.key, t);
            lemma_contains_push(had_keys, here.key, t);
            assert(had_keys.contains(t) <==> visit_keys(v).contains(t));
            assert(had_keys.contains(here.key) <==> visit_keys(v).contains(here.key));
        }
    }
    if let Some(e) = &n.error {
        push_model(
            &mut walk.diagnostics,
            tell("hierarchy_error", n.path.as_str(), e.clone()),
        );
    }
    let ghost own: Seq<DiagnosticView> = match n@.fault {
        Fault::Told(m) => seq![told("hierarchy_error"@, n@.path, m)],
        Fault::Sound => Seq::empty(),
    };
    let ghost d1 = d + own;
    let ghost kids = models(n.children@);
    proof {
        assert(models(walk.diagnostics@) =~= d1);
        assert(v1 + forest_visits(kids, 0) =~= v1);
        assert(d1 + forest_diagnostics(kids, 0) =~= d1);
    }
    let mut k: usize = 0;
    while k < n.children.len()
        invariant
            k <= n.children@.len(),
            kids == models(n.children@),
            kids == n@.children,
            v1 == v.push(here),
            here == (VisitView { path: n@.path, key: n@.key }),
            walk.gathers(v1 + forest_visits(kids, k as nat), d1 + forest_diagnostics(kids, k as nat)),
        decreases n.children@.len() - k,
    {
        let ghost vk = v1 + forest_visits(kids, k as nat);
        let ghost dk = d1 + forest_diagnostics(kids, k as nat);
        proof {
            assert(kids[k as int] == n.children@[k as int]@);
            lemma_forest_grows(kids, (k + 1) as nat, kids.len());
        }
        match collect_node(&n.children[k], walk, Ghost(vk), Ghost(dk)) {
            Ok(_) => {},
            Err(_) => {
                return Err(());
            },
        }
        proof {
            assert(vk + visits(kids[k as int]) =~= v1 + forest_visits(kids, (k + 1) as nat));
            assert(dk + node_diagnostics(kids[k as int]) =~= d1 + forest_diagnostics(
                kids,
                (k + 1) as nat,
            ));
        }
        k += 1;
    }
    proof {
        assert(v1 + forest_visits(kids, kids.len()) =~= v + visits(n@));
        assert(d1 + forest_diagnostics(kids, kids.len()) =~= d + node_diagnostics(n@));
    }
    Ok(())
}

proof fn lemma_forest_grows(nodes: Seq<NodeView>, a: nat, b: nat)
    requires
        a <= b <= nodes.len(),
    ensures
        forest_visits(nodes, a).len() <= forest_visits(nodes, b).len(),
    decreases b,
{
    if a < b {
        lemma_forest_grows(nodes, a, (b - 1) as nat);
    }
}

/// The files of a sheet tree, each once, with what is wrong with its nodes. A
/// tree of more nodes than can be counted has no walk.
pub fn collect_hierarchy_paths(root: &HierarchyNode) -> (r: Option<HierarchyWalk>)
    ensures
        r is Some <==> visits(root@).len() <= u128::MAX,
        r matches Some(w) ==> w.gathers(visits(root@), node_diagnostics(root@)),
{
    let mut walk = HierarchyWalk {
        sheet_instances: 0,
        keys: Vec::new(),
        files: Vec::new(),
        diagnostics: Vec::new(),
    };
    proof {
        assert(models(walk.files@) =~= Seq::empty());
        assert(models(walk.keys@) =~= Seq::empty());
        assert(visit_keys(Seq::empty()) =~= Seq::empty());
        assert(models(walk.diagnostics@) =~= Seq::empty());
        assert(Seq::<VisitView>::empty() + visits(root@) =~= visits(root@));
        assert(Seq::<DiagnosticView>::empty() + node_diagnostics(root@) =~= node_diagnostics(
            root@,
        ));
    }
    match collect_node(root, &mut walk, Ghost(Seq::empty()), Ghost(Seq::empty())) {
        Ok(_) => Some(walk),
        Err(_) => None,
    }
}

// ─── Coverage ─────────────────────────────────────────────────────────────

/// The net names of labels.
pub open spec fn label_nets(labels: Seq<crate::geometry::Label>) -> Seq<Seq<char>> {
    labels.map_values(|l: crate::geometry::Label| l.net@)
}

/// The references of those of the first `n` symbols whose definition has more
/// pins than the placed unit.
pub open spec fn multi_unit_references(symbols: Seq<Symbol>, n: nat) -> Seq<Seq<char>>
    decreases n,
{
    if n == 0 {
        Seq::empty()
    } else {
        let rest = multi_unit_references(symbols, (n - 1) as nat);
        let s = symbols[n - 1];
        if s.pins is Some && s.definition_pins > pins_of(s).len() {
            rest.push(s.reference@)
        } else {
            rest
        }
    }
}

/// What is told of those of the first `n` symbols whose library symbol is
/// missing.
pub open spec fn unresolved_diagnostics(source: Seq<char>, symbols: Seq<Symbol>, n: nat) -> Seq<
    DiagnosticView,
>
    decreases n,
{
    if n == 0 {
        Seq::empty()
    } else {
        let rest = unresolved_diagnostics(source, symbols, (n - 1) as nat);
        let s = symbols[n - 1];
        if s.pins is None {
            rest.push(
                DiagnosticView {
                    reference: Some(s.reference@),
                    library_symbol: Some(s.library_symbol@),
                    ..told(
                        "unresolved_library_symbol"@,
                        source,
                        "symbol was skipped by one or more design-review audits"@,
                    )
                },
            )
        } else {
            rest
        }
    }
}

/// How much of a sheet the audits can see.
pub struct SheetCoverage {
    pub symbol_instances: usize,
    pub resolved_symbols: usize,
    pub named_nets: usize,
    pub multi_unit_symbols: usize,
    pub diagnostics: Vec<Diagnostic>,
}

impl SheetCoverage {
    /// Whether this is the coverage of the sheet.
    pub open spec fn covers(&self, source: Seq<char>, sheet: Sheet) -> bool {
        let symbols = sheet.symbols@;
        let nets = label_nets(sheet.labels@);
        let refs = multi_unit_references(symbols, symbols.len());
        &&& self.symbol_instances == symbols.len()
        &&& models(self.diagnostics@) == unresolved_diagnostics(source, symbols, symbols.len())
        &&& self.resolved_symbols == symbols.len() - self.diagnostics@.len()
        &&& self.named_nets == only_in(nets, Seq::empty(), nets.len()).len()
        &&& self.multi_unit_symbols == only_in(refs, Seq::empty(), refs.len()).len()
    }
}

/// How much of a sheet the audits can see.
pub fn inspect_schematic_coverage(source: &str, sheet: &Sheet) -> (c: SheetCoverage)
    ensures
        c.covers(source@, *sheet),
{
    let mut nets: Vec<String> = Vec::new();
    let ghost all_nets = label_nets(sheet.labels@);
    let mut i: usize = 0;
    proof {
        assert(models(nets@) =~= all_nets.take(0));
    }
    while i < sheet.labels.len()
        invariant
            i <= sheet.labels@.len(),
            all_nets == label_nets(sheet.labels@),
            models(nets@) == all_nets.take(i as int),
        decreases sheet.labels@.len() - i,
    {
        push_model(&mut nets, sheet.labels[i].net.clone());
        i += 1;
    }
    proof {
        assert(all_nets.take(all_nets.len() as int) =~= all_nets);
        assert(models(nets@).len() == nets@.len());
    }
    let mut refs: Vec<String> = Vec::new();
    let mut diagnostics: Vec<Diagnostic> = Vec::new();
    proof {
        assert(models(refs@) =~= Seq::empty());
        assert(models(diagnostics@) =~= Seq::empty());
    }
    i = 0;
    while i < sheet.symbols.len()
        invariant
            i <= sheet.symbols@.len(),
            diagnostics@.len() <= i,
            models(refs@) == multi_unit_references(sheet.symbols@, i as nat),
            models(diagnostics@) == unresolved_diagnostics(source@, sheet.symbols@, i as nat),
        decreases sheet.symbols@.len() - i,
    {
        let s = &sheet.symbols[i];
        match &s.pins {
            None => {
                let mut d = tell(
                    "unresolved_library_symbol",
                    source,
                    "symbol was skipped by one or more design-review audits".to_owned(),
                );
                d.reference = Some(s.reference.clone());
                d.library_symbol = Some(s.library_symbol.clone());
                push_model(&mut diagnostics, d);
            },
            Some(pins) => {
                if s.definition_pins > pins.len() {
                    push_model(&mut refs, s.reference.clone());
                }
            },
        }
        i += 1;
    }
    proof {
        assert(models(refs@).len() == refs@.len());
        assert(models(diagnostics@).len() == diagnostics@.len());
    }
    SheetCoverage {
        symbol_instances: sheet.symbols.len(),
        resolved_symbols: sheet.symbols.len() - diagnostics.len(),
        named_nets: count_distinct(&nets),
        multi_unit_symbols: count_distinct(&refs),
        diagnostics,
    }
}

// ─── The review ───────────────────────────────────────────────────────────

/// What one schematic file came to: its coverage, or why it could not be read,
/// and the outcome of each audit.
pub struct SheetOutcome {
    pub path: String,
    pub coverage: Result<SheetCoverage, String>,
    pub decoupling: AuditOutcome,
    pub connections: AuditOutcome,
    pub power_rails: AuditOutcome,
    pub bom_health: AuditOutcome,
}

/// How much of a board can be seen.
#[derive(Clone, Copy, PartialEq, Eq, Structural, Debug)]
pub struct BoardReviewCoverage {
    pub footprints: usize,
    pub pads: usize,
    pub named_nets: usize,
}

/// What a board came to: its coverage, the outcome of the manufacturability
/// audit, and the design rules report.
pub struct BoardOutcome {
    pub path: String,
    pub coverage: Result<BoardReviewCoverage, String>,
    pub manufacturing: AuditOutcome,
    pub drc: Result<DrcReport, String>,
}

/// Everything that a review rests on.
pub struct ReviewInput {
    pub root: String,
    pub walk: HierarchyWalk,
    pub sheets: Vec<SheetOutcome>,
    pub board: Option<BoardOutcome>,
}

/// What the coverage of a file adds to the diagnostics.
pub open spec fn coverage_diagnostics(s: SheetOutcome) -> Seq<DiagnosticView> {
    match s.coverage {
        Ok(c) => models(c.diagnostics@),
        Err(e) => seq![told("schematic_parse_failed"@, s.path@, e@)],
    }
}

/// What a file adds to the diagnostics.
pub open spec fn sheet_diagnostics(s: SheetOutcome) -> Seq<DiagnosticView> {
    coverage_diagnostics(s) + outcome_diagnostics("decoupling"@, s.path@, s.decoupling@)
        + outcome_diagnostics("connections"@, s.path@, s.connections@) + outcome_diagnostics(
        "power_rails"@,
        s.path@,
        s.power_rails@,
    ) + outcome_diagnostics("bom_health"@, s.path@, s.bom_health@)
}

/// What the first `n` files add to the diagnostics.
pub open spec fn sheets_diagnostics(sheets: Seq<SheetOutcome>, n: nat) -> Seq<DiagnosticView>
    decreases n,
{
    if n == 0 {
        Seq::empty()
    } else {
        sheets_diagnostics(sheets, (n - 1) as nat) + sheet_diagnostics(sheets[n - 1])
    }
}

/// The audits of a schematic.
pub enum SheetAudit {
    Decoupling,
    Connections,
    PowerRails,
    BomHealth,
}

/// The name of an audit.
pub open spec fn audit_name(a: SheetAudit) -> Seq<char> {
    match a {
        SheetAudit::Decoupling => "decoupling"@,
        SheetAudit::Connections => "connections"@,
        SheetAudit::PowerRails => "power_rails"@,
        SheetAudit::BomHealth => "bom_health"@,
    }
}

/// The outcome of an audit of a file.
pub open spec fn audit_outcome(s: SheetOutcome, a: SheetAudit) -> OutcomeView {
    match a {
        SheetAudit::Decoupling => s.decoupling@,
        SheetAudit::Connections => s.connections@,
        SheetAudit::PowerRails => s.power_rails@,
        SheetAudit::BomHealth => s.bom_health@,
    }
}

/// What an audit found in the first `n` files.
pub open spec fn aggregated(sheets: Seq<SheetOutcome>, a: SheetAudit, n: nat) -> AggregateView
    decreases n,
{
    if n == 0 {
        empty_aggregate(audit_name(a))
    } else {
        recorded(
            aggregated(sheets, a, (n - 1) as nat),
            sheets[n - 1].path@,
            audit_outcome(sheets[n - 1], a),
        )
    }
}

/// The sums of the coverage of the first `n` files.
pub ghost struct CoverageView {
    pub symbol_instances: nat,
    pub resolved_symbols: nat,
    pub unresolved_symbols: nat,
    pub named_nets: nat,
    pub multi_unit_symbols: nat,
}

/// The sums of the coverage of the first `n` files.
pub open spec fn covered(sheets: Seq<SheetOutcome>, n: nat) -> CoverageView
    decreases n,
{
    if n == 0 {
        CoverageView {
            symbol_instances: 0,
            resolved_symbols: 0,
            unresolved_symbols: 0,
            named_nets: 0,
            multi_unit_symbols: 0,
        }
    } else {
        let rest = covered(sheets, (n - 1) as nat);
        match sheets[n - 1].coverage {
            Ok(c) => CoverageView {
                symbol_instances: rest.symbol_instances + c.symbol_instances as nat,
                resolved_symbols: rest.resolved_symbols + c.resolved_symbols as nat,
                unresolved_symbols: rest.unresolved_symbols + c.diagnostics@.len(),
                named_nets: rest.named_nets + c.named_nets as nat,
                multi_unit_symbols: rest.multi_unit_symbols + c.multi_unit_symbols as nat,
            },
            Err(_) => rest,
        }
    }
}

/// What the coverage of a board adds to the diagnostics. A board with
/// footprints and no pads is a failed read.
pub open spec fn board_coverage_diagnostics(b: BoardOutcome) -> Seq<DiagnosticView> {
    match b.coverage {
        Ok(c) => if c.footprints == 0 {
            seq![
                told(
                    "zero_footprints"@,
                    b.path@,
                    "the supplied board contains no footprints"@,
                ),
            ]
        } else if c.pads == 0 {
            seq![
                told(
                    "zero_pads"@,
                    b.path@,
                    "the supplied board has "@ + decimal(c.footprints as nat)
                        + " footprints but no pads; the board was not read correctly, so this review cannot speak for it"@,
                ),
            ]
        } else {
            Seq::empty()
        },
        Err(e) => seq![told("board_parse_failed"@, b.path@, e@)],
    }
}

/// What is told of categories that were not reported.
pub open spec fn missing_diagnostics(path: Seq<char>, names: Seq<Seq<char>>) -> Seq<
    DiagnosticView,
> {
    names.map_values(
        |m: Seq<char>|
            told(
                "drc_category_not_reported"@,
                path,
                "kicad-cli did not report '"@ + m
                    + "', so this review cannot speak to that class of problem"@,
            ),
    )
}

/// What the design rules report of a board, or its absence, adds to the
/// diagnostics.
pub open spec fn drc_diagnostics(b: BoardOutcome) -> Seq<DiagnosticView> {
    match b.drc {
        Ok(r) => missing_diagnostics(b.path@, missing(r@)),
        Err(e) => seq![
            told(
                "drc_unavailable"@,
                b.path@,
                "DRC could not run, so no verdict here accounts for design rule violations or unrouted nets: "@
                    + e@,
            ),
        ],
    }
}

/// What a board adds to the diagnostics.
pub open spec fn board_diagnostics(b: BoardOutcome) -> Seq<DiagnosticView> {
    board_coverage_diagnostics(b) + outcome_diagnostics(
        "manufacturing"@,
        b.path@,
        b.manufacturing@,
    ) + drc_diagnostics(b)
}

/// A violation of the design rules as a finding.
pub open spec fn violation_value(v: DrcView) -> JsonView {
    JsonView::Object(
        seq![
            text_entry("severity"@, v.severity),
            text_entry("category"@, "drc"@),
            text_entry("rule"@, v.rule),
            text_entry("message"@, v.description),
            EntryView {
                name: "location"@,
                value: match v.pos {
                    Some(p) => JsonView::Object(
                        seq![
                            EntryView { name: "x"@, value: JsonView::Number(p.x) },
                            EntryView { name: "y"@, value: JsonView::Number(p.y) },
                        ],
                    ),
                    None => JsonView::Null,
                },
            },
        ],
    )
}

/// The aggregate of a design rules report.
pub open spec fn drc_aggregate(r: ReportView) -> AggregateView {
    AggregateView {
        completed: 1,
        findings: r.all().map_values(|v: DrcView| violation_value(v)),
        ..empty_aggregate("drc"@)
    }
}

/// The audits of a review, in order.
pub open spec fn review_audits(input: ReviewInput) -> Seq<AggregateView> {
    let n = input.sheets@.len();
    let base = seq![
        aggregated(input.sheets@, SheetAudit::Decoupling, n),
        aggregated(input.sheets@, SheetAudit::Connections, n),
        aggregated(input.sheets@, SheetAudit::PowerRails, n),
        aggregated(input.sheets@, SheetAudit::BomHealth, n),
    ];
    match input.board {
        None => base,
        Some(b) => {
            let with_dfm = base.push(
                recorded(empty_aggregate("manufacturing"@), b.path@, b.manufacturing@),
            );
            match b.drc {
                Ok(r) => with_dfm.push(drc_aggregate(r@)),
                Err(_) => with_dfm,
            }
        },
    }
}

/// The diagnostics of a review, in order.
pub open spec fn review_diagnostics(input: ReviewInput) -> Seq<DiagnosticView> {
    let c = covered(input.sheets@, input.sheets@.len());
    models(input.walk.diagnostics@) + sheets_diagnostics(input.sheets@, input.sheets@.len())
        + told_if(
        c.symbol_instances == 0,
        told(
            "zero_symbol_instances"@,
            input.root@,
            "no symbol instances were found in the schematic hierarchy"@,
        ),
    ) + told_if(
        c.named_nets == 0,
        told(
            "zero_named_nets"@,
            input.root@,
            "no named nets were found in the schematic hierarchy"@,
        ),
    ) + (match input.board {
        Some(b) => board_diagnostics(b),
        None => Seq::empty(),
    })
}

/// The findings of all audits, in order.
pub open spec fn all_findings(audits: Seq<AggregateView>, n: nat) -> Seq<JsonView>
    decreases n,
{
    if n == 0 {
        Seq::empty()
    } else {
        all_findings(audits, (n - 1) as nat) + audits[n - 1].findings
    }
}

/// How many runs of audits came to an end.
pub open spec fn total_completed(audits: Seq<AggregateView>, n: nat) -> nat
    decreases n,
{
    if n == 0 {
        0
    } else {
        total_completed(audits, (n - 1) as nat) + audits[n - 1].completed
    }
}

/// How many runs of audits failed.
pub open spec fn total_failed(audits: Seq<AggregateView>, n: nat) -> nat
    decreases n,
{
    if n == 0 {
        0
    } else {
        total_failed(audits, (n - 1) as nat) + audits[n - 1].failed
    }
}

/// The rank of a finding: two for an error, one for a warning, zero for
/// anything else.
pub open spec fn finding_rank(f: JsonView) -> int {
    match f.field_text("severity"@) {
        Some(s) => if s == "error"@ {
            2
        } else if s == "warning"@ {
            1
        } else {
            0
        },
        None => 0,
    }
}

/// The least rank that a filter lets through.
pub open spec fn filter_rank(filter: Seq<char>) -> int {
    if filter == "error"@ {
        2
    } else if filter == "warning"@ {
        1
    } else {
        0
    }
}

/// The findings of one rank, in order.
pub open spec fn of_rank(findings: Seq<JsonView>, rank: int) -> Seq<JsonView>
    decreases findings.len(),
{
    if findings.len() == 0 {
        Seq::empty()
    } else {
        let rest = of_rank(findings.drop_last(), rank);
        if finding_rank(findings.last()) == rank {
            rest.push(findings.last())
        } else {
            rest
        }
    }
}

/// The findings that a filter lets through, errors first, then warnings, then
/// the others; within a rank in order.
pub open spec fn shown_findings(findings: Seq<JsonView>, filter: Seq<char>) -> Seq<JsonView> {
    of_rank(findings, 2) + (if filter_rank(filter) <= 1 {
        of_rank(findings, 1)
    } else {
        Seq::empty()
    }) + (if filter_rank(filter) <= 0 {
        of_rank(findings, 0)
    } else {
        Seq::empty()
    })
}

/// How complete a review is.
#[derive(Clone, Copy, PartialEq, Eq, Structural, Debug)]
pub enum ReviewStatus {
    Complete,
    Partial,
    Failed,
}

/// What a review concludes.
#[derive(Clone, Copy, PartialEq, Eq, Structural, Debug)]
pub enum Verdict {
    Incomplete,
    NotReady,
    NeedsAttention,
    LooksGood,
}

impl ReviewStatus {
    /// The name of the status.
    pub fn name(&self) -> (r: &'static str)
        ensures
            r@ == match *self {
                ReviewStatus::Complete => "complete"@,
                ReviewStatus::Partial => "partial"@,
                ReviewStatus::Failed => "failed"@,
            },
    {
        match self {
            ReviewStatus::Complete => "complete",
            ReviewStatus::Partial => "partial",
            ReviewStatus::Failed => "failed",
        }
    }
}

impl Verdict {
    /// The words of the verdict.
    pub fn words(&self) -> (r: &'static str)
        ensures
            r@ == match *self {
                Verdict::Incomplete => "INCOMPLETE — review could not evaluate the full design"@,
                Verdict::NotReady =>
                    "NOT READY — critical issues must be fixed before manufacturing"@,
                Verdict::NeedsAttention =>
                    "NEEDS ATTENTION — review warnings before manufacturing"@,
                Verdict::LooksGood => "LOOKS GOOD — no critical issues found"@,
            },
    {
        match self {
            Verdict::Incomplete => "INCOMPLETE — review could not evaluate the full design",
            Verdict::NotReady => "NOT READY — critical issues must be fixed before manufacturing",
            Verdict::NeedsAttention => "NEEDS ATTENTION — review warnings before manufacturing",
            Verdict::LooksGood => "LOOKS GOOD — no critical issues found",
        }
    }
}

/// The status of a review.
pub open spec fn review_status(input: ReviewInput) -> ReviewStatus {
    let audits = review_audits(input);
    if total_completed(audits, audits.len()) == 0 {
        ReviewStatus::Failed
    } else if total_failed(audits, audits.len()) > 0 || review_diagnostics(input).len() > 0 {
        ReviewStatus::Partial
    } else {
        ReviewStatus::Complete
    }
}

/// The verdict of a review.
pub open spec fn review_verdict(input: ReviewInput) -> Verdict {
    let audits = review_audits(input);
    let findings = all_findings(audits, audits.len());
    if review_status(input) != ReviewStatus::Complete {
        Verdict::Incomplete
    } else if of_rank(findings, 2).len() > 0 {
        Verdict::NotReady
    } else if of_rank(findings, 1).len() > 0 {
        Verdict::NeedsAttention
    } else {
        Verdict::LooksGood
    }
}

/// The sums of the coverage of all files.
pub struct SchematicReviewCoverage {
    pub sheet_instances: u128,
    pub schematic_files: usize,
    pub symbol_instances: u128,
    pub resolved_symbols: u128,
    pub unresolved_symbols: u128,
    pub named_nets: u128,
    pub multi_unit_symbols: u128,
}

/// The counts of a design rules report. A category that was not reported has
/// no count.
pub struct DrcSummary {
    pub errors: usize,
    pub design_rule_violations: usize,
    pub unconnected_items: Option<usize>,
    pub schematic_parity: Option<usize>,
}

/// What a review reports.
pub struct ReviewReport {
    pub status: ReviewStatus,
    pub verdict: Verdict,
    pub errors: usize,
    pub warnings: usize,
    pub info: usize,
    pub findings: Vec<Json>,
    pub audits: Vec<AuditAggregate>,
    pub coverage: SchematicReviewCoverage,
    pub board: Option<BoardReviewCoverage>,
    pub drc: Option<DrcSummary>,
    pub diagnostics: Vec<Diagnostic>,
}

/// Whether the counts are those of the report.
pub open spec fn is_drc_summary(s: DrcSummary, r: ReportView) -> bool {
    &&& s.errors == count_errors(r.all())
    &&& s.design_rule_violations == r.violations.len()
    &&& s.unconnected_items is Some <==> r.unconnected_items is Some
    &&& s.unconnected_items matches Some(n) ==> n == r.unconnected_items->0.len()
    &&& s.schematic_parity is Some <==> r.schematic_parity is Some
    &&& s.schematic_parity matches Some(n) ==> n == r.schematic_parity->0.len()
}

/// Whether the sums are those of the files.
pub open spec fn is_coverage(c: SchematicReviewCoverage, input: ReviewInput) -> bool {
    let v = covered(input.sheets@, input.sheets@.len());
    &&& c.sheet_instances == input.walk.sheet_instances
    &&& c.schematic_files == input.sheets@.len()
    &&& c.symbol_instances == v.symbol_instances
    &&& c.resolved_symbols == v.resolved_symbols
    &&& c.unresolved_symbols == v.unresolved_symbols
    &&& c.named_nets == v.named_nets
    &&& c.multi_unit_symbols == v.multi_unit_symbols
}

/// Whether the report is that of the input, with the findings that the filter
/// lets through.
pub open spec fn is_review(r: ReviewReport, input: ReviewInput, filter: Seq<char>) -> bool {
    let audits = review_audits(input);
    let findings = all_findings(audits, audits.len());
    &&& r.status == review_status(input)
    &&& r.verdict == review_verdict(input)
    &&& r.errors == of_rank(findings, 2).len()
    &&& r.warnings == of_rank(findings, 1).len()
    &&& r.info == of_rank(findings, 0).len()
    &&& models(r.findings@) == shown_findings(findings, filter)
    &&& models(r.audits@) == audits
    &&& is_coverage(r.coverage, input)
    &&& r.board == match input.board {
        Some(b) => match b.coverage {
            Ok(c) => Some(c),
            Err(_) => None,
        },
        None => None,
    }
    &&& (r.drc is Some <==> (input.board matches Some(b) && b.drc is Ok))
    &&& (r.drc matches Some(s) ==> is_drc_summary(s, (input.board->0.drc->Ok_0)@))
    &&& models(r.diagnostics@) == review_diagnostics(input)
}

proof fn lemma_aggregated_counts(sheets: Seq<SheetOutcome>, a: SheetAudit, n: nat)
    requires
        n <= sheets.len(),
    ensures
        aggregated(sheets, a, n).requested == n,
        aggregated(sheets, a, n).completed + aggregated(sheets, a, n).failed == n,
        aggregated(sheets, a, n).name == audit_name(a),
    decreases n,
{
    if n > 0 {
        lemma_aggregated_counts(sheets, a, (n - 1) as nat);
    }
}

/// Copies of diagnostics, added to a list.
fn copy_diagnostics(list: &Vec<Diagnostic>, out: &mut Vec<Diagnostic>)
    ensures
        models(final(out)@) == models(old(out)@) + models(list@),
{
    let ghost had = models(out@);
    let ghost all = models(list@);
    let mut i: usize = 0;
    proof {
        assert(had + all.take(0) =~= had);
    }
    while i < list.len()
        invariant
            i <= list@.len(),
            all == models(list@),
            models(out@) == had + all.take(i as int),
        decreases list@.len() - i,
    {
        let x = &list[i];
        let d = Diagnostic {
            code: x.code,
            audit: crate::schematic::copy_text_option(&x.audit),
            source: x.source.clone(),
            reference: crate::schematic::copy_text_option(&x.reference),
            library_symbol: crate::schematic::copy_text_option(&x.library_symbol),
            message: x.message.clone(),
        };
        proof {
            assert(d@ == all[i as int]);
            assert((had + all.take(i as int)).push(d@) =~= had + all.take(i + 1));
        }
        push_model(out, d);
        i += 1;
    }
    proof {
        assert(all.take(all.len() as int) =~= all);
    }
}

/// The four audits of the schematic files.
struct SheetAudits {
    decoupling: AuditAggregate,
    connections: AuditAggregate,
    power_rails: AuditAggregate,
    bom_health: AuditAggregate,
}

#[verifier::rlimit(60)]
fn record_sheets(sheets: &Vec<SheetOutcome>, diagnostics: &mut Vec<Diagnostic>) -> (r: SheetAudits)
    ensures
        r.decoupling@ == aggregated(sheets@, SheetAudit::Decoupling, sheets@.len()),
        r.connections@ == aggregated(sheets@, SheetAudit::Connections, sheets@.len()),
        r.power_rails@ == aggregated(sheets@, SheetAudit::PowerRails, sheets@.len()),
        r.bom_health@ == aggregated(sheets@, SheetAudit::BomHealth, sheets@.len()),
        models(final(diagnostics)@) == models(old(diagnostics)@) + sheets_diagnostics(
            sheets@,
            sheets@.len(),
        ),
{
    let mut r = SheetAudits {
        decoupling: AuditAggregate::new("decoupling"),
        connections: AuditAggregate::new("connections"),
        power_rails: AuditAggregate::new("power_rails"),
        bom_health: AuditAggregate::new("bom_health"),
    };
    let ghost had = models(diagnostics@);
    proof {
        assert(had + sheets_diagnostics(sheets@, 0) =~= had);
    }
    let mut i: usize = 0;
    while i < sheets.len()
        invariant
            i <= sheets@.len(),
            r.decoupling@ == aggregated(sheets@, SheetAudit::Decoupling, i as nat),
            r.connections@ == aggregated(sheets@, SheetAudit::Connections, i as nat),
            r.power_rails@ == aggregated(sheets@, SheetAudit::PowerRails, i as nat),
            r.bom_health@ == aggregated(sheets@, SheetAudit::BomHealth, i as nat),
            models(diagnostics@) == had + sheets_diagnostics(sheets@, i as nat),
        decreases sheets@.len() - i,
    {
        let s = &sheets[i];
        let path = s.path.as_str();
        let ghost so_far = models(diagnostics@);
        proof {
            lemma_aggregated_counts(sheets@, SheetAudit::Decoupling, i as nat);
            lemma_aggregated_counts(sheets@, SheetAudit::Connections, i as nat);
            lemma_aggregated_counts(sheets@, SheetAudit::PowerRails, i as nat);
            lemma_aggregated_counts(sheets@, SheetAudit::BomHealth, i as nat);
        }
        match &s.coverage {
            Ok(c) => {
                copy_diagnostics(&c.diagnostics, diagnostics);
            },
            Err(e) => {
                push_model(diagnostics, tell("schematic_parse_failed", path, e.clone()));
            },
        }
        proof {
            assert(models(diagnostics@) =~= so_far + coverage_diagnostics(*s));
        }
        r.decoupling.record(path, &s.decoupling, diagnostics);
        r.connections.record(path, &s.connections, diagnostics);
        r.power_rails.record(path, &s.power_rails, diagnostics);
        r.bom_health.record(path, &s.bom_health, diagnostics);
        proof {
            assert(models(diagnostics@) =~= so_far + sheet_diagnostics(*s));
            assert(models(diagnostics@) =~= had + sheets_diagnostics(sheets@, (i + 1) as nat));
        }
        i += 1;
    }
    r
}

fn sum_coverage(sheets: &Vec<SheetOutcome>, sheet_instances: u128) -> (c: SchematicReviewCoverage)
    ensures
        ({
            let v = covered(sheets@, sheets@.len());
            &&& c.sheet_instances == sheet_instances
            &&& c.schematic_files == sheets@.len()
            &&& c.symbol_instances == v.symbol_instances
            &&& c.resolved_symbols == v.resolved_symbols
            &&& c.unresolved_symbols == v.unresolved_symbols
            &&& c.named_nets == v.named_nets
            &&& c.multi_unit_symbols == v.multi_unit_symbols
        }),
{
    let mut c = SchematicReviewCoverage {
        sheet_instances,
        schematic_files: sheets.len(),
        symbol_instances: 0,
        resolved_symbols: 0,
        unresolved_symbols: 0,
        named_nets: 0,
        multi_unit_symbols: 0,
    };
    let mut i: usize = 0;
    while i < sheets.len()
        invariant
            i <= sheets@.len(),
            c.sheet_instances == sheet_instances,
            c.schematic_files == sheets@.len(),
            c.symbol_instances == covered(sheets@, i as nat).symbol_instances,
            c.resolved_symbols == covered(sheets@, i as nat).resolved_symbols,
            c.unresolved_symbols == covered(sheets@, i as nat).unresolved_symbols,
            c.named_nets == covered(sheets@, i as nat).named_nets,
            c.multi_unit_symbols == covered(sheets@, i as nat).multi_unit_symbols,
            c.symbol_instances <= i * 0x1_0000_0000_0000_0000,
            c.resolved_symbols <= i * 0x1_0000_0000_0000_0000,
            c.unresolved_symbols <= i * 0x1_0000_0000_0000_0000,
            c.named_nets <= i * 0x1_0000_0000_0000_0000,
            c.multi_unit_symbols <= i * 0x1_0000_0000_0000_0000,
        decreases sheets@.len() - i,
    {
        if let Ok(k) = &sheets[i].coverage {
            c.symbol_instances += k.symbol_instances as u128;
            c.resolved_symbols += k.resolved_symbols as u128;
            c.unresolved_symbols += k.diagnostics.len() as u128;
            c.named_nets += k.named_nets as u128;
            c.multi_unit_symbols += k.multi_unit_symbols as u128;
        }
        i += 1;
    }
    c
}

fn violation_json(v: &DrcViolation) -> (j: Json)
    ensures
        j@ == violation_value(v@),
{
    broadcast use lemma_object_view;

    let location: Json = match &v.pos {
        Some(p) => {
            let mut at: Vec<Entry> = Vec::new();
            push_model(
                &mut at,
                Entry { name: "x".to_owned(), value: Json::Number(p.x.clone()) },
            );
            push_model(
                &mut at,
                Entry { name: "y".to_owned(), value: Json::Number(p.y.clone()) },
            );
            proof {
                assert(models(at@) =~= seq![
                    EntryView { name: "x"@, value: JsonView::Number(p.x@) },
                    EntryView { name: "y"@, value: JsonView::Number(p.y@) },
                ]);
                lemma_object_view(at);
            }
            Json::Object(at)
        },
        None => Json::Null,
    };
    let mut entries: Vec<Entry> = Vec::new();
    push_model(&mut entries, text_field("severity", v.severity.as_str()));
    push_model(&mut entries, text_field("category", "drc"));
    push_model(&mut entries, text_field("rule", v.rule.as_str()));
    push_model(&mut entries, text_field("message", v.description.as_str()));
    proof {
        assert(location@ == violation_value(v@)->Object_0[4].value);
    }
    push_model(&mut entries, Entry { name: "location".to_owned(), value: location });
    proof {
        assert(models(entries@) =~= violation_value(v@)->Object_0);
    }
    Json::Object(entries)
}

fn aggregate_drc(r: &DrcReport) -> (a: AuditAggregate)
    ensures
        a@ == drc_aggregate(r@),
{
    let mut a = AuditAggregate::new("drc");
    a.completed = 1;
    let all = r.all();
    let ghost want = r@.all().map_values(|v: DrcView| violation_value(v));
    let mut i: usize = 0;
    proof {
        assert(models(a.findings@) =~= want.take(0));
    }
    while i < all.len()
        invariant
            i <= all@.len(),
            models(all@) == r@.all(),
            want == r@.all().map_values(|v: DrcView| violation_value(v)),
            a.name@ == "drc"@,
            a.requested == 0,
            a.completed == 1,
            a.failed == 0,
            models(a.findings@) == want.take(i as int),
        decreases all@.len() - i,
    {
        let j = violation_json(all[i]);
        proof {
            assert(models(all@)[i as int] == all@[i as int]@);
            assert(want[i as int] == j@);
        }
        push_model(&mut a.findings, j);
        i += 1;
    }
    proof {
        assert(models(all@).len() == all@.len());
        assert(want.take(want.len() as int) =~= want);
    }
    a
}

fn summarize_drc(r: &DrcReport) -> (s: DrcSummary)
    ensures
        is_drc_summary(s, r@),
{
    let unconnected_items: Option<usize> = match &r.unconnected_items {
        Some(list) => Some(list.len()),
        None => None,
    };
    let schematic_parity: Option<usize> = match &r.schematic_parity {
        Some(list) => Some(list.len()),
        None => None,
    };
    DrcSummary {
        errors: r.error_count(),
        design_rule_violations: r.violations.len(),
        unconnected_items,
        schematic_parity,
    }
}

fn diagnose_board_coverage(b: &BoardOutcome, diagnostics: &mut Vec<Diagnostic>)
    ensures
        models(final(diagnostics)@) == models(old(diagnostics)@) + board_coverage_diagnostics(*b),
{
    match &b.coverage {
        Ok(c) => {
            if c.footprints == 0 {
                push_model(
                    diagnostics,
                    tell(
                        "zero_footprints",
                        b.path.as_str(),
                        "the supplied board contains no footprints".to_owned(),
                    ),
                );
            } else if c.pads == 0 {
                let n = text::decimal_text(c.footprints as u64);
                push_model(
                    diagnostics,
                    tell(
                        "zero_pads",
                        b.path.as_str(),
                        text::cat3(
                            "the supplied board has ",
                            n.as_str(),
                            " footprints but no pads; the board was not read correctly, so this review cannot speak for it",
                        ),
                    ),
                );
            }
        },
        Err(e) => {
            push_model(diagnostics, tell("board_parse_failed", b.path.as_str(), e.clone()));
        },
    }
    proof {
        assert(models(diagnostics@) =~= models(old(diagnostics)@) + board_coverage_diagnostics(*b));
    }
}

fn diagnose_drc(b: &BoardOutcome, diagnostics: &mut Vec<Diagnostic>)
    ensures
        models(final(diagnostics)@) == models(old(diagnostics)@) + drc_diagnostics(*b),
{
    let ghost had = models(diagnostics@);
    match &b.drc {
        Ok(r) => {
            let names = r.missing_categories();
            let ghost want = missing_diagnostics(b.path@, models(names@));
            let mut i: usize = 0;
            proof {
                assert(had + want.take(0) =~= had);
            }
            while i < names.len()
                invariant
                    i <= names@.len(),
                    want == missing_diagnostics(b.path@, models(names@)),
                    models(diagnostics@) == had + want.take(i as int),
                decreases names@.len() - i,
            {
                let d = tell(
                    "drc_category_not_reported",
                    b.path.as_str(),
                    text::cat3(
                        "kicad-cli did not report '",
                        names[i],
                        "', so this review cannot speak to that class of problem",
                    ),
                );
                proof {
                    assert(models(names@)[i as int] == names@[i as int]@);
                    assert(want[i as int] == d@);
                    assert((had + want.take(i as int)).push(d@) =~= had + want.take(i + 1));
                }
                push_model(diagnostics, d);
                i += 1;
            }
            proof {
                assert(want.take(want.len() as int) =~= want);
            }
        },
        Err(e) => {
            push_model(
                diagnostics,
                tell(
                    "drc_unavailable",
                    b.path.as_str(),
                    text::cat2(
                        "DRC could not run, so no verdict here accounts for design rule violations or unrouted nets: ",
                        e.as_str(),
                    ),
                ),
            );
            proof {
                assert(models(diagnostics@) =~= had + drc_diagnostics(*b));
            }
        },
    }
}

fn rank_of(f: &Json) -> (r: u8)
    ensures
        r == finding_rank(f@),
{
    match f.get_text("severity") {
        Some(s) => if text::same(s.as_str(), "error") {
            2
        } else if text::same(s.as_str(), "warning") {
            1
        } else {
            0
        },
        None => 0,
    }
}

/// Copies of the findings of one rank.
fn pick_rank(findings: &Vec<Json>, rank: u8) -> (out: Vec<Json>)
    ensures
        models(out@) == of_rank(models(findings@), rank as int),
{
    let mut out: Vec<Json> = Vec::new();
    let ghost all = models(findings@);
    let mut i: usize = 0;
    proof {
        assert(models(out@) =~= Seq::empty());
    }
    while i < findings.len()
        invariant
            i <= findings@.len(),
            all == models(findings@),
            models(out@) == of_rank(all.take(i as int), rank as int),
        decreases findings@.len() - i,
    {
        proof {
            assert(all.take(i + 1).drop_last() =~= all.take(i as int));
            assert(all.take(i + 1).last() == findings@[i as int]@);
        }
        if rank_of(&findings[i]) == rank {
            push_model(&mut out, copy_json(&findings[i]));
        }
        i += 1;
    }
    proof {
        assert(all.take(all.len() as int) =~= all);
    }
    out
}

fn gather_findings(audits: &Vec<AuditAggregate>) -> (out: Vec<Json>)
    ensures
        models(out@) == all_findings(models(audits@), audits@.len()),
{
    let mut out: Vec<Json> = Vec::new();
    let ghost all = models(audits@);
    let mut i: usize = 0;
    proof {
        assert(models(out@) =~= Seq::empty());
    }
    while i < audits.len()
        invariant
            i <= audits@.len(),
            all == models(audits@),
            models(out@) == all_findings(all, i as nat),
        decreases audits@.len() - i,
    {
        let list = &audits[i].findings;
        let ghost had = models(out@);
        let ghost new = models(list@);
        proof {
            assert(all[i as int].findings == new);
            assert(had + new.take(0) =~= had);
        }
        let mut j: usize = 0;
        while j < list.len()
            invariant
                j <= list@.len(),
                new == models(list@),
                models(out@) == had + new.take(j as int),
            decreases list@.len() - j,
        {
            let c = copy_json(&list[j]);
            proof {
                assert((had + new.take(j as int)).push(c@) =~= had + new.take(j + 1));
            }
            push_model(&mut out, c);
            j += 1;
        }
        proof {
            assert(new.take(new.len() as int) =~= new);
        }
        i += 1;
    }
    out
}

/// Whether any run of an audit came to an end, and whether any failed.
fn progress(audits: &Vec<AuditAggregate>) -> (r: (bool, bool))
    ensures
        r.0 == (total_completed(models(audits@), audits@.len()) > 0),
        r.1 == (total_failed(models(audits@), audits@.len()) > 0),
{
    let mut completed: bool = false;
    let mut failed: bool = false;
    let ghost all = models(audits@);
    let mut i: usize = 0;
    while i < audits.len()
        invariant
            i <= audits@.len(),
            all == models(audits@),
            completed == (total_completed(all, i as nat) > 0),
            failed == (total_failed(all, i as nat) > 0),
        decreases audits@.len() - i,
    {
        proof {
            assert(all[i as int] == audits@[i as int]@);
        }
        if audits[i].completed > 0 {
            completed = true;
        }
        if audits[i].failed > 0 {
            failed = true;
        }
        i += 1;
    }
    (completed, failed)
}

/// The audits and the report counts of a board, with what it adds to the
/// diagnostics.
fn review_board(
    b: &BoardOutcome,
    audits: &mut Vec<AuditAggregate>,
    diagnostics: &mut Vec<Diagnostic>,
) -> (drc: Option<DrcSummary>)
    ensures
        models(final(diagnostics)@) == models(old(diagnostics)@) + board_diagnostics(*b),
        models(final(audits)@) == match b.drc {
            Ok(r) => models(old(audits)@).push(
                recorded(empty_aggregate("manufacturing"@), b.path@, b.manufacturing@),
            ).push(drc_aggregate(r@)),
            Err(_) => models(old(audits)@).push(
                recorded(empty_aggregate("manufacturing"@), b.path@, b.manufacturing@),
            ),
        },
        drc is Some <==> b.drc is Ok,
        drc matches Some(s) ==> is_drc_summary(s, (b.drc->Ok_0)@),
{
    diagnose_board_coverage(b, diagnostics);
    let mut dfm = AuditAggregate::new("manufacturing");
    dfm.record(b.path.as_str(), &b.manufacturing, diagnostics);
    push_model(audits, dfm);
    diagnose_drc(b, diagnostics);
    proof {
        assert(models(diagnostics@) =~= models(old(diagnostics)@) + board_diagnostics(*b));
    }
    match &b.drc {
        Ok(r) => {
            push_model(audits, aggregate_drc(r));
            Some(summarize_drc(r))
        },
        Err(_) => None,
    }
}

/// Consolidates what the audits of all files, and of a board, came to.
pub fn run_design_review(input: &ReviewInput, severity_filter: &str) -> (r: ReviewReport)
    ensures
        is_review(r, *input, severity_filter@),
{
    broadcast use lemma_models_add;

    let mut diagnostics: Vec<Diagnostic> = Vec::new();
    copy_diagnostics(&input.walk.diagnostics, &mut diagnostics);
    proof {
        assert(models(diagnostics@) =~= models(input.walk.diagnostics@));
    }
    let sheet_audits = record_sheets(&input.sheets, &mut diagnostics);
    let coverage = sum_coverage(&input.sheets, input.walk.sheet_instances);
    let ghost d0 = models(diagnostics@);
    if coverage.symbol_instances == 0 {
        push_model(
            &mut diagnostics,
            tell(
                "zero_symbol_instances",
                input.root.as_str(),
                "no symbol instances were found in the schematic hierarchy".to_owned(),
            ),
        );
    }
    let ghost t1 = told_if(
        coverage.symbol_instances == 0,
        told(
            "zero_symbol_instances"@,
            input.root@,
            "no symbol instances were found in the schematic hierarchy"@,
        ),
    );
    proof {
        assert(models(diagnostics@) =~= d0 + t1);
    }
    if coverage.named_nets == 0 {
        push_model(
            &mut diagnostics,
            tell(
                "zero_named_nets",
                input.root.as_str(),
                "no named nets were found in the schematic hierarchy".to_owned(),
            ),
        );
    }
    let ghost t2 = told_if(
        coverage.named_nets == 0,
        told(
            "zero_named_nets"@,
            input.root@,
            "no named nets were found in the schematic hierarchy"@,
        ),
    );
    proof {
        assert(models(diagnostics@) =~= d0 + t1 + t2);
    }
    let SheetAudits { decoupling, connections, power_rails, bom_health } = sheet_audits;
    let mut audits: Vec<AuditAggregate> = Vec::new();
    push_model(&mut audits, decoupling);
    push_model(&mut audits, connections);
    push_model(&mut audits, power_rails);
    push_model(&mut audits, bom_health);
    let mut board: Option<BoardReviewCoverage> = None;
    let mut drc: Option<DrcSummary> = None;
    if let Some(b) = &input.board {
        if let Ok(c) = &b.coverage {
            board = Some(*c);
        }
        drc = review_board(b, &mut audits, &mut diagnostics);
    }
    proof {
        assert(models(audits@) =~= review_audits(*input));
        assert(models(diagnostics@) =~= review_diagnostics(*input));
        assert(models(audits@).len() == audits@.len());
        assert(models(diagnostics@).len() == diagnostics@.len());
    }
    let (completed, failed) = progress(&audits);
    let all = gather_findings(&audits);
    let mut shown = pick_rank(&all, 2);
    let mut warnings_list = pick_rank(&all, 1);
    let mut info_list = pick_rank(&all, 0);
    let ghost found = all_findings(review_audits(*input), review_audits(*input).len());
    let errors: usize = shown.len();
    let warnings: usize = warnings_list.len();
    let info: usize = info_list.len();
    proof {
        assert(models(shown@).len() == shown@.len());
        assert(models(warnings_list@).len() == warnings_list@.len());
        assert(models(info_list@).len() == info_list@.len());
    }
    let ghost ws = models(warnings_list@);
    let ghost is = models(info_list@);
    let ghost es = models(shown@);
    let only_errors: bool = text::same(severity_filter, "error");
    let no_info: bool = only_errors || text::same(severity_filter, "warning");
    if !only_errors {
        shown.append(&mut warnings_list);
    }
    if !no_info {
        shown.append(&mut info_list);
    }
    proof {
        assert(models(shown@) =~= shown_findings(found, severity_filter@));
    }
    let status = if !completed {
        ReviewStatus::Failed
    } else if failed || diagnostics.len() > 0 {
        ReviewStatus::Partial
    } else {
        ReviewStatus::Complete
    };
    let verdict = if status != ReviewStatus::Complete {
        Verdict::Incomplete
    } else if errors > 0 {
        Verdict::NotReady
    } else if warnings > 0 {
        Verdict::NeedsAttention
    } else {
        Verdict::LooksGood
    };
    ReviewReport {
        status,
        verdict,
        errors,
        warnings,
        info,
        findings: shown,
        audits,
        coverage,
        board,
        drc,
        diagnostics,
    }
}

// ─── One file ─────────────────────────────────────────────────────────────

/// A schematic file as it was read: its text and what it holds.
pub struct LoadedSheet {
    pub content: String,
    pub sheet: Sheet,
}

/// The findings as an outcome.
pub open spec fn found(f: Seq<FindingView>) -> OutcomeView {
    OutcomeView::Findings(f.map_values(|x: FindingView| finding_value(x)))
}

/// Whether the outcomes are those of the audits of a sheet whose symbols have
/// these nets, and whose power nets are walked in this order.
pub open spec fn is_audited(
    o: SheetOutcome,
    loaded: LoadedSheet,
    symbols: Seq<NetSymbolView>,
    nets: Seq<Seq<char>>,
) -> bool {
    &&& symbols_named(loaded.sheet, loaded.sheet.symbols@, symbols)
    &&& o.decoupling@ == found(decoupling_findings(symbols, symbols.len()))
    &&& o.connections@ == found(connection_findings(symbols, symbols.len()))
    &&& nets.no_duplicates()
    &&& forall|t: Seq<char>| #[trigger] nets.contains(t) <==> is_power_net(loaded.content@, t)
    &&& o.power_rails@ == found(
        capacitance_findings(symbols, nets, nets.len()) + test_point_findings(
            symbols,
            nets,
            nets.len(),
        ),
    )
}

/// Audits one schematic file. A file that could not be read fails every audit
/// of its connections; a file whose parts could not be read fails that of its
/// parts.
pub fn review_sheet(
    path: &str,
    loaded: &Result<LoadedSheet, String>,
    parts: &Result<Vec<Part>, String>,
) -> (o: SheetOutcome)
    ensures
        o.path@ == path@,
        loaded matches Ok(l) ==> {
            &&& o.coverage matches Ok(c) && c.covers(path@, l.sheet)
            &&& exists|symbols: Seq<NetSymbolView>, nets: Seq<Seq<char>>| #[trigger]
                is_audited(o, *l, symbols, nets)
        },
        loaded matches Err(e) ==> {
            &&& o.coverage matches Err(c) && c@ == e@
            &&& o.decoupling@ == OutcomeView::Failed(e@)
            &&& o.connections@ == OutcomeView::Failed(e@)
            &&& o.power_rails@ == OutcomeView::Failed(e@)
        },
        o.bom_health@ == match *parts {
            Ok(p) => found(bom_findings(p@, p@.len())),
            Err(e) => OutcomeView::Failed("Failed to load schematic: "@ + e@),
        },
{
    let bom_health = match parts {
        Ok(p) => {
            let audit = check_bom_health(p);
            findings_outcome(&audit.findings)
        },
        Err(e) => AuditOutcome::Failed(text::cat2("Failed to load schematic: ", e.as_str())),
    };
    match loaded {
        Ok(l) => {
            let symbols = name_symbols(&l.sheet);
            let decoupling = audit_decoupling(&symbols);
            let connections = audit_connections(&symbols);
            let power = audit_power_rails(l.content.as_str(), &symbols);
            let coverage = inspect_schematic_coverage(path, &l.sheet);
            let o = SheetOutcome {
                path: path.to_owned(),
                coverage: Ok(coverage),
                decoupling: findings_outcome(&decoupling.findings),
                connections: findings_outcome(&connections.findings),
                power_rails: findings_outcome(&power.findings),
                bom_health,
            };
            proof {
                assert(models(symbols@).len() == symbols@.len());
                assert(models(power.power_nets@).len() == power.power_nets@.len());
                assert(is_audited(o, *l, models(symbols@), models(power.power_nets@)));
            }
            o
        },
        Err(e) => SheetOutcome {
            path: path.to_owned(),
            coverage: Err(e.clone()),
            decoupling: AuditOutcome::Failed(e.clone()),
            connections: AuditOutcome::Failed(e.clone()),
            power_rails: AuditOutcome::Failed(e.clone()),
            bom_health,
        },
    }
}

// ─── Laws ─────────────────────────────────────────────────────────────────

/// A review that looks good has evaluated everything: nothing is diagnosed,
/// every audit of every file came to an end, there are symbols and nets, and
/// nothing was found that is an error or a warning.
pub proof fn law_looks_good_is_complete(input: ReviewInput)
    requires
        review_verdict(input) == Verdict::LooksGood,
    ensures
        review_status(input) == ReviewStatus::Complete,
        review_diagnostics(input).len() == 0,
        total_failed(review_audits(input), review_audits(input).len()) == 0,
        of_rank(all_findings(review_audits(input), review_audits(input).len()), 2).len() == 0,
        of_rank(all_findings(review_audits(input), review_audits(input).len()), 1).len() == 0,
        covered(input.sheets@, input.sheets@.len()).symbol_instances > 0,
        covered(input.sheets@, input.sheets@.len()).named_nets > 0,
{
}

/// A board cannot look good without evidence: its design rules report must be
/// there with every category and without an error, its pads must have been
/// read, and its manufacturability audit must have come to an end.
pub proof fn law_board_needs_evidence(input: ReviewInput)
    requires
        review_verdict(input) == Verdict::LooksGood,
        input.board is Some,
    ensures
        input.board->0.drc is Ok,
        missing((input.board->0.drc->Ok_0)@).len() == 0,
        count_errors((input.board->0.drc->Ok_0)@.all()) == 0,
        input.board->0.coverage is Ok,
        input.board->0.coverage->Ok_0.footprints > 0,
        input.board->0.coverage->Ok_0.pads > 0,
        input.board->0.manufacturing@ is Findings,
{
    let b = input.board->0;
    let d = review_diagnostics(input);
    assert(board_diagnostics(b).len() == 0);
    assert(b.drc is Ok);
    let r = (b.drc->Ok_0)@;
    assert(missing_diagnostics(b.path@, missing(r)).len() == missing(r).len());
    let audits = review_audits(input);
    assert(audits.last() == drc_aggregate(r));
    let n = audits.len();
    let rest = all_findings(audits, (n - 1) as nat);
    let last = drc_aggregate(r).findings;
    assert(all_findings(audits, n) == rest + last);
    lemma_of_rank_add(rest, last, 2);
    lemma_errors_have_rank(r.all());
}

proof fn lemma_of_rank_add(a: Seq<JsonView>, b: Seq<JsonView>, rank: int)
    ensures
        of_rank(a + b, rank) == of_rank(a, rank) + of_rank(b, rank),
    decreases b.len(),
{
    if b.len() == 0 {
        assert(a + b =~= a);
        assert(of_rank(a, rank) + of_rank(b, rank) =~= of_rank(a, rank));
    } else {
        assert((a + b).drop_last() =~= a + b.drop_last());
        lemma_of_rank_add(a, b.drop_last(), rank);
        assert(of_rank(a + b, rank) =~= of_rank(a, rank) + of_rank(b, rank));
    }
}

/// Every error of a report has the rank of an error among the findings.
proof fn lemma_errors_have_rank(list: Seq<DrcView>)
    ensures
        of_rank(list.map_values(|v: DrcView| violation_value(v)), 2).len() == count_errors(list),
    decreases list.len(),
{
    let values = list.map_values(|v: DrcView| violation_value(v));
    if list.len() > 0 {
        let before = list.drop_last();
        lemma_errors_have_rank(before);
        assert(values.drop_last() =~= before.map_values(|v: DrcView| violation_value(v)));
        let v = list.last();
        let entries = violation_value(v)->Object_0;
        crate::json::lemma_entry_index(entries, "severity"@);
        assert(entries[0].name == "severity"@);
        assert(crate::json::entry_index(entries, "severity"@) == Some(0int));
        assert(violation_value(v).field_text("severity"@) == Some(v.severity));
    }
}

/// A review of a schematic alone needs no design rules report: without a board
/// nothing is diagnosed about one.
pub proof fn law_schematic_alone_needs_no_drc(input: ReviewInput)
    requires
        input.board is None,
        input.walk.diagnostics@.len() == 0,
        sheets_diagnostics(input.sheets@, input.sheets@.len()).len() == 0,
        covered(input.sheets@, input.sheets@.len()).symbol_instances > 0,
        covered(input.sheets@, input.sheets@.len()).named_nets > 0,
    ensures
        review_diagnostics(input).len() == 0,
{
}

// ─── Laws on verdicts ─────────────────────────────────────────────────────

/// Whether an outcome holds a finding of that severity.
pub open spec fn outcome_has(o: OutcomeView, severity: Seq<char>) -> bool {
    o matches OutcomeView::Findings(f) && exists|k: int|
        0 <= k < f.len() && (#[trigger] f[k]).field_text("severity"@) == Some(severity)
}

/// Whether a design rules report holds a violation of that severity, in any of
/// its categories.
pub open spec fn report_has(r: ReportView, severity: Seq<char>) -> bool {
    ||| exists|k: int|
        0 <= k < r.violations.len() && (#[trigger] r.violations[k]).severity == severity
    ||| (r.unconnected_items matches Some(list) && exists|k: int|
        0 <= k < list.len() && (#[trigger] list[k]).severity == severity)
    ||| (r.schematic_parity matches Some(list) && exists|k: int|
        0 <= k < list.len() && (#[trigger] list[k]).severity == severity)
}

/// Whether anything that a review rests on holds a finding of that severity.
pub open spec fn review_has(input: ReviewInput, severity: Seq<char>) -> bool {
    ||| exists|i: int|
        0 <= i < input.sheets@.len() && (outcome_has(
            (#[trigger] input.sheets@[i]).decoupling@,
            severity,
        ) || outcome_has(input.sheets@[i].connections@, severity) || outcome_has(
            input.sheets@[i].power_rails@,
            severity,
        ) || outcome_has(input.sheets@[i].bom_health@, severity))
    ||| (input.board matches Some(b) && outcome_has(b.manufacturing@, severity))
    ||| (input.board matches Some(b) && b.drc matches Ok(r) && report_has(r@, severity))
}

/// Marking a finding changes what it says of its audit and its file only.
pub proof fn law_marking_keeps_the_finding(
    f: JsonView,
    audit: Seq<char>,
    source: Seq<char>,
    name: Seq<char>,
)
    requires
        f is Object,
    ensures
        marked(f, audit, source) is Object,
        marked(f, audit, source).field_text("audit"@) == Some(audit),
        marked(f, audit, source).field_text("source"@) == Some(source),
        name != "audit"@ && name != "source"@ ==> marked(f, audit, source).field(name) == f.field(
            name,
        ),
{
    reveal_strlit("audit");
    reveal_strlit("source");
    assert("audit"@.len() != "source"@.len());
    let once = f.with_field("audit"@, JsonView::Text(audit));
    crate::json::law_set_field_is_read_back(f, "audit"@, JsonView::Text(audit), name);
    crate::json::law_set_field_is_read_back(once, "source"@, JsonView::Text(source), name);
    crate::json::law_set_field_is_read_back(once, "source"@, JsonView::Text(source), "audit"@);
}

proof fn lemma_marked_severity(f: JsonView, audit: Seq<char>, source: Seq<char>)
    ensures
        marked(f, audit, source).field_text("severity"@) == f.field_text("severity"@),
{
    if f is Object {
        reveal_strlit("audit");
        reveal_strlit("source");
        reveal_strlit("severity");
        assert("severity"@.len() == 8 && "audit"@.len() == 5 && "source"@.len() == 6);
        law_marking_keeps_the_finding(f, audit, source, "severity"@);
    }
}

proof fn lemma_violation_severity(v: DrcView)
    ensures
        violation_value(v).field_text("severity"@) == Some(v.severity),
{
    let entries = violation_value(v)->Object_0;
    crate::json::lemma_entry_index(entries, "severity"@);
    assert(entries[0].name == "severity"@);
    assert(crate::json::entry_index(entries, "severity"@) == Some(0int));
}

/// Whether the list holds a finding of that severity.
spec fn list_has(list: Seq<JsonView>, severity: Seq<char>) -> bool {
    exists|k: int| 0 <= k < list.len() && (#[trigger] list[k]).field_text("severity"@) == Some(
        severity,
    )
}

proof fn lemma_list_has_add(a: Seq<JsonView>, b: Seq<JsonView>, severity: Seq<char>)
    ensures
        list_has(a + b, severity) <==> list_has(a, severity) || list_has(b, severity),
{
    let all = a + b;
    if list_has(a, severity) {
        let k = choose|k: int|
            0 <= k < a.len() && (#[trigger] a[k]).field_text("severity"@) == Some(severity);
        assert(all[k] == a[k]);
    }
    if list_has(b, severity) {
        let k = choose|k: int|
            0 <= k < b.len() && (#[trigger] b[k]).field_text("severity"@) == Some(severity);
        assert(all[a.len() + k] == b[k]);
    }
    if list_has(all, severity) {
        let k = choose|k: int|
            0 <= k < all.len() && (#[trigger] all[k]).field_text("severity"@) == Some(severity);
        if k < a.len() {
            assert(a[k] == all[k]);
        } else {
            assert(b[k - a.len()] == all[k]);
        }
    }
}

proof fn lemma_recorded_has(
    a: AggregateView,
    source: Seq<char>,
    o: OutcomeView,
    severity: Seq<char>,
)
    ensures
        list_has(recorded(a, source, o).findings, severity) <==> list_has(a.findings, severity)
            || outcome_has(o, severity),
{
    match o {
        OutcomeView::Findings(f) => {
            let added = f.map_values(|j: JsonView| marked(j, a.name, source));
            lemma_list_has_add(a.findings, added, severity);
            assert forall|k: int| 0 <= k < f.len() implies (#[trigger] added[k]).field_text(
                "severity"@,
            ) == f[k].field_text("severity"@) by {
                lemma_marked_severity(f[k], a.name, source);
            }
            if list_has(added, severity) {
                let k = choose|k: int|
                    0 <= k < added.len() && (#[trigger] added[k]).field_text("severity"@) == Some(
                        severity,
                    );
                assert(f[k].field_text("severity"@) == Some(severity));
            }
            if outcome_has(o, severity) {
                let k = choose|k: int|
                    0 <= k < f.len() && (#[trigger] f[k]).field_text("severity"@) == Some(severity);
                assert(added[k].field_text("severity"@) == Some(severity));
            }
        },
        _ => {},
    }
}

proof fn lemma_aggregated_has(
    sheets: Seq<SheetOutcome>,
    a: SheetAudit,
    n: nat,
    severity: Seq<char>,
)
    requires
        n <= sheets.len(),
    ensures
        list_has(aggregated(sheets, a, n).findings, severity) <==> exists|i: int|
            0 <= i < n && outcome_has(audit_outcome(#[trigger] sheets[i], a), severity),
    decreases n,
{
    if n > 0 {
        lemma_aggregated_has(sheets, a, (n - 1) as nat, severity);
        lemma_recorded_has(
            aggregated(sheets, a, (n - 1) as nat),
            sheets[n - 1].path@,
            audit_outcome(sheets[n - 1], a),
            severity,
        );
    }
}

proof fn lemma_report_has(r: ReportView, severity: Seq<char>)
    ensures
        list_has(drc_aggregate(r).findings, severity) <==> report_has(r, severity),
{
    let all = r.all();
    let values = drc_aggregate(r).findings;
    let second = match r.unconnected_items {
        Some(list) => list,
        None => Seq::empty(),
    };
    let third = match r.schematic_parity {
        Some(list) => list,
        None => Seq::empty(),
    };
    let n = r.violations.len() as int;
    assert(all == r.violations + second + third);
    assert forall|k: int| 0 <= k < all.len() implies (#[trigger] values[k]).field_text(
        "severity"@,
    ) == Some(all[k].severity) by {
        lemma_violation_severity(all[k]);
    }
    if list_has(values, severity) {
        let k = choose|k: int|
            0 <= k < values.len() && (#[trigger] values[k]).field_text("severity"@) == Some(
                severity,
            );
        assert(all[k].severity == severity);
        if k < n {
            assert(r.violations[k] == all[k]);
        } else if k < n + second.len() {
            assert(second[k - n] == all[k]);
        } else {
            assert(third[k - n - second.len()] == all[k]);
        }
    }
    if exists|k: int| 0 <= k < n && (#[trigger] r.violations[k]).severity == severity {
        let k = choose|k: int| 0 <= k < n && (#[trigger] r.violations[k]).severity == severity;
        assert(all[k] == r.violations[k]);
        assert(values[k].field_text("severity"@) == Some(severity));
    }
    if exists|k: int| 0 <= k < second.len() && (#[trigger] second[k]).severity == severity {
        let k = choose|k: int|
            0 <= k < second.len() && (#[trigger] second[k]).severity == severity;
        assert(all[n + k] == second[k]);
        assert(values[n + k].field_text("severity"@) == Some(severity));
    }
    if exists|k: int| 0 <= k < third.len() && (#[trigger] third[k]).severity == severity {
        let k = choose|k: int| 0 <= k < third.len() && (#[trigger] third[k]).severity == severity;
        assert(all[n + second.len() + k] == third[k]);
        assert(values[n + second.len() + k].field_text("severity"@) == Some(severity));
    }
}

proof fn lemma_all_findings_has(audits: Seq<AggregateView>, n: nat, severity: Seq<char>)
    requires
        n <= audits.len(),
    ensures
        list_has(all_findings(audits, n), severity) <==> exists|i: int|
            0 <= i < n && list_has((#[trigger] audits[i]).findings, severity),
    decreases n,
{
    if n > 0 {
        lemma_all_findings_has(audits, (n - 1) as nat, severity);
        lemma_list_has_add(
            all_findings(audits, (n - 1) as nat),
            audits[n - 1].findings,
            severity,
        );
    }
}

/// The findings of a review are those of what it rests on.
proof fn lemma_review_has(input: ReviewInput, severity: Seq<char>)
    ensures
        list_has(all_findings(review_audits(input), review_audits(input).len()), severity)
            <==> review_has(input, severity),
{
    let audits = review_audits(input);
    let sheets = input.sheets@;
    let n = sheets.len();
    lemma_all_findings_has(audits, audits.len(), severity);
    lemma_aggregated_has(sheets, SheetAudit::Decoupling, n, severity);
    lemma_aggregated_has(sheets, SheetAudit::Connections, n, severity);
    lemma_aggregated_has(sheets, SheetAudit::PowerRails, n, severity);
    lemma_aggregated_has(sheets, SheetAudit::BomHealth, n, severity);
    assert(audits[0] == aggregated(sheets, SheetAudit::Decoupling, n));
    assert(audits[1] == aggregated(sheets, SheetAudit::Connections, n));
    assert(audits[2] == aggregated(sheets, SheetAudit::PowerRails, n));
    assert(audits[3] == aggregated(sheets, SheetAudit::BomHealth, n));
    match input.board {
        Some(b) => {
            let empty = empty_aggregate("manufacturing"@);
            lemma_recorded_has(empty, b.path@, b.manufacturing@, severity);
            assert(audits[4] == recorded(empty, b.path@, b.manufacturing@));
            match b.drc {
                Ok(r) => {
                    lemma_report_has(r@, severity);
                    assert(audits[5] == drc_aggregate(r@));
                },
                Err(_) => {},
            }
        },
        None => {},
    }
    if review_has(input, severity) {
        if exists|i: int|
            0 <= i < n && outcome_has((#[trigger] sheets[i]).decoupling@, severity) {
            let i = choose|i: int|
                0 <= i < n && outcome_has((#[trigger] sheets[i]).decoupling@, severity);
            assert(outcome_has(audit_outcome(sheets[i], SheetAudit::Decoupling), severity));
        } else if exists|i: int|
            0 <= i < n && outcome_has((#[trigger] sheets[i]).connections@, severity) {
            let i = choose|i: int|
                0 <= i < n && outcome_has((#[trigger] sheets[i]).connections@, severity);
            assert(outcome_has(audit_outcome(sheets[i], SheetAudit::Connections), severity));
        } else if exists|i: int|
            0 <= i < n && outcome_has((#[trigger] sheets[i]).power_rails@, severity) {
            let i = choose|i: int|
                0 <= i < n && outcome_has((#[trigger] sheets[i]).power_rails@, severity);
            assert(outcome_has(audit_outcome(sheets[i], SheetAudit::PowerRails), severity));
        } else if exists|i: int|
            0 <= i < n && outcome_has((#[trigger] sheets[i]).bom_health@, severity) {
            let i = choose|i: int|
                0 <= i < n && outcome_has((#[trigger] sheets[i]).bom_health@, severity);
            assert(outcome_has(audit_outcome(sheets[i], SheetAudit::BomHealth), severity));
        }
    }
}

proof fn lemma_of_rank_member(list: Seq<JsonView>, rank: int, x: JsonView)
    ensures
        of_rank(list, rank).contains(x) <==> list.contains(x) && finding_rank(x) == rank,
    decreases list.len(),
{
    if list.len() > 0 {
        let rest = list.drop_last();
        lemma_of_rank_member(rest, rank, x);
        lemma_contains_push(of_rank(rest, rank), list.last(), x);
        lemma_contains_push(rest, list.last(), x);
        assert(rest.push(list.last()) =~= list);
    }
}

proof fn lemma_counts(list: Seq<JsonView>)
    ensures
        of_rank(list, 2).len() > 0 <==> list_has(list, "error"@),
        of_rank(list, 1).len() > 0 <==> list_has(list, "warning"@),
{
    reveal_strlit("error");
    reveal_strlit("warning");
    assert("error"@.len() != "warning"@.len());
    if of_rank(list, 2).len() > 0 {
        let x = of_rank(list, 2)[0];
        lemma_of_rank_member(list, 2, x);
        assert(of_rank(list, 2).contains(x));
        let k = list.index_of(x);
        assert(list[k].field_text("severity"@) == Some("error"@));
    }
    if of_rank(list, 1).len() > 0 {
        let x = of_rank(list, 1)[0];
        lemma_of_rank_member(list, 1, x);
        assert(of_rank(list, 1).contains(x));
        let k = list.index_of(x);
        assert(list[k].field_text("severity"@) == Some("warning"@));
    }
    if list_has(list, "error"@) {
        let k = choose|k: int|
            0 <= k < list.len() && (#[trigger] list[k]).field_text("severity"@) == Some("error"@);
        lemma_of_rank_member(list, 2, list[k]);
        assert(list.contains(list[k]));
        assert(of_rank(list, 2).contains(list[k]));
    }
    if list_has(list, "warning"@) {
        let k = choose|k: int|
            0 <= k < list.len() && (#[trigger] list[k]).field_text("severity"@) == Some("warning"@);
        lemma_of_rank_member(list, 1, list[k]);
        assert(list.contains(list[k]));
        assert(of_rank(list, 1).contains(list[k]));
    }
}

/// An error outweighs any number of warnings. A complete review with an error
/// anywhere, in an audit of a file, in the manufacturability audit or in the
/// design rules report, says that the design is not ready; it needs attention
/// only without an error and with a warning, and looks good only without
/// either. A review that is not complete has no such verdict.
pub proof fn law_verdict_follows_the_worst_finding(
    r: ReviewReport,
    input: ReviewInput,
    filter: Seq<char>,
)
    requires
        is_review(r, input, filter),
    ensures
        r.status == ReviewStatus::Complete && review_has(input, "error"@) ==> r.verdict
            == Verdict::NotReady,
        r.status == ReviewStatus::Complete && !review_has(input, "error"@) && review_has(
            input,
            "warning"@,
        ) ==> r.verdict == Verdict::NeedsAttention,
        r.status == ReviewStatus::Complete && !review_has(input, "error"@) && !review_has(
            input,
            "warning"@,
        ) ==> r.verdict == Verdict::LooksGood,
        r.status != ReviewStatus::Complete ==> r.verdict == Verdict::Incomplete,
        r.verdict == Verdict::NeedsAttention ==> !review_has(input, "error"@),
        r.errors > 0 <==> review_has(input, "error"@),
        r.warnings > 0 <==> review_has(input, "warning"@),
{
    let audits = review_audits(input);
    let findings = all_findings(audits, audits.len());
    lemma_counts(findings);
    lemma_review_has(input, "error"@);
    lemma_review_has(input, "warning"@);
}

proof fn lemma_shortfall(sheets: Seq<SheetOutcome>, n: nat, i: int)
    requires
        0 <= i < n <= sheets.len(),
        !(sheets[i].decoupling@ is Findings && sheets[i].connections@ is Findings
            && sheets[i].power_rails@ is Findings && sheets[i].bom_health@ is Findings && (
        sheets[i].coverage matches Ok(c) && c.diagnostics@.len() == 0)),
    ensures
        sheets_diagnostics(sheets, n).len() > 0,
    decreases n,
{
    if i < n - 1 {
        lemma_shortfall(sheets, (n - 1) as nat, i);
    }
}

/// A review speaks only for what was done: where an audit of a file failed or
/// gave no findings that could be read, where a file could not be read or holds
/// symbols that were not resolved, where the hierarchy was not walked to its
/// end, or where the board, its manufacturability audit or its design rules
/// report is not there in full, the review is not complete.
pub proof fn law_shortfall_leaves_the_review_incomplete(
    r: ReviewReport,
    input: ReviewInput,
    filter: Seq<char>,
    i: int,
)
    requires
        is_review(r, input, filter),
        ({
            ||| input.walk.diagnostics@.len() > 0
            ||| input.sheets@.len() == 0
            ||| 0 <= i < input.sheets@.len() && !(input.sheets@[i].decoupling@ is Findings
                && input.sheets@[i].connections@ is Findings && input.sheets@[i].power_rails@
                is Findings && input.sheets@[i].bom_health@ is Findings && (
            input.sheets@[i].coverage matches Ok(c) && c.diagnostics@.len() == 0))
            ||| (input.board matches Some(b) && !(b.manufacturing@ is Findings && (
            b.coverage matches Ok(c) && c.footprints > 0 && c.pads > 0) && (b.drc matches Ok(d)
                && d@.unconnected_items is Some && d@.schematic_parity is Some)))
        }),
    ensures
        r.status != ReviewStatus::Complete,
        r.verdict == Verdict::Incomplete,
{
    let n = input.sheets@.len();
    let all = review_diagnostics(input);
    if input.walk.diagnostics@.len() > 0 {
        assert(models(input.walk.diagnostics@).len() > 0);
    } else if n == 0 {
        assert(covered(input.sheets@, n).symbol_instances == 0);
    } else if 0 <= i < n && !(input.sheets@[i].decoupling@ is Findings
        && input.sheets@[i].connections@ is Findings && input.sheets@[i].power_rails@ is Findings
        && input.sheets@[i].bom_health@ is Findings && (input.sheets@[i].coverage matches Ok(c)
        && c.diagnostics@.len() == 0)) {
        lemma_shortfall(input.sheets@, n, i);
    } else {
        let b = input.board->0;
        match b.drc {
            Ok(d) => {
                assert(missing_diagnostics(b.path@, missing(d@)).len() == missing(d@).len());
            },
            Err(_) => {},
        }
        assert(board_diagnostics(b).len() > 0);
    }
    assert(all.len() > 0);
}

/// Errors come first in the list of a review, then warnings, and then the rest;
/// a filter for errors leaves errors only, one for warnings nothing below them.
pub proof fn law_findings_are_shown_worst_first(
    r: ReviewReport,
    input: ReviewInput,
    filter: Seq<char>,
    i: int,
    j: int,
)
    requires
        is_review(r, input, filter),
        0 <= i <= j < r.findings@.len(),
    ensures
        r.findings@[j]@.field_text("severity"@) == Some("error"@) ==> r.findings@[i]@.field_text(
            "severity"@,
        ) == Some("error"@),
        r.findings@[j]@.field_text("severity"@) == Some("warning"@) ==> r.findings@[i]@.field_text(
            "severity"@,
        ) == Some("error"@) || r.findings@[i]@.field_text("severity"@) == Some("warning"@),
        filter == "error"@ ==> r.findings@[i]@.field_text("severity"@) == Some("error"@),
        filter == "warning"@ ==> r.findings@[i]@.field_text("severity"@) == Some("error"@)
            || r.findings@[i]@.field_text("severity"@) == Some("warning"@),
{
    reveal_strlit("error");
    reveal_strlit("warning");
    assert("error"@.len() != "warning"@.len());
    let audits = review_audits(input);
    let findings = all_findings(audits, audits.len());
    let shown = models(r.findings@);
    assert(shown[i] == r.findings@[i]@);
    assert(shown[j] == r.findings@[j]@);
    let (first, second, third) = (of_rank(findings, 2), of_rank(findings, 1), of_rank(findings, 0));
    assert forall|k: int| 0 <= k < shown.len() implies finding_rank(#[trigger] shown[k]) == (if k
        < first.len() {
        2int
    } else if filter_rank(filter) <= 1 && k < first.len() + second.len() {
        1
    } else {
        0
    }) by {
        if k < first.len() {
            assert(shown[k] == first[k]);
            lemma_of_rank_member(findings, 2, first[k]);
            assert(first.contains(first[k]));
        } else if filter_rank(filter) <= 1 && k < first.len() + second.len() {
            assert(shown[k] == second[k - first.len()]);
            lemma_of_rank_member(findings, 1, shown[k]);
            assert(second.contains(second[k - first.len()]));
        } else {
            let x = third[k - first.len() - second.len()];
            assert(shown[k] == x);
            lemma_of_rank_member(findings, 0, x);
            assert(third.contains(x));
        }
    }
}

proof fn lemma_aggregated_holds(
    sheets: Seq<SheetOutcome>,
    a: SheetAudit,
    n: nat,
    i: int,
    k: int,
)
    requires
        0 <= i < n <= sheets.len(),
        audit_outcome(sheets[i], a) matches OutcomeView::Findings(f) && 0 <= k < f.len(),
    ensures
        aggregated(sheets, a, n).findings.contains(
            marked(
                audit_outcome(sheets[i], a)->Findings_0[k],
                audit_name(a),
                sheets[i].path@,
            ),
        ),
    decreases n,
{
    let before = aggregated(sheets, a, (n - 1) as nat);
    lemma_aggregated_counts(sheets, a, (n - 1) as nat);
    let x = marked(audit_outcome(sheets[i], a)->Findings_0[k], audit_name(a), sheets[i].path@);
    let all = aggregated(sheets, a, n).findings;
    if i < n - 1 {
        lemma_aggregated_holds(sheets, a, (n - 1) as nat, i, k);
        let m = before.findings.index_of(x);
        match audit_outcome(sheets[n - 1], a) {
            OutcomeView::Findings(f) => {
                assert(all[m] == x);
            },
            _ => {},
        }
    } else {
        let f = audit_outcome(sheets[i], a)->Findings_0;
        assert(all[before.findings.len() + k] == x);
    }
}

proof fn lemma_all_findings_holds(audits: Seq<AggregateView>, n: nat, i: int, x: JsonView)
    requires
        0 <= i < n <= audits.len(),
        audits[i].findings.contains(x),
    ensures
        all_findings(audits, n).contains(x),
    decreases n,
{
    let before = all_findings(audits, (n - 1) as nat);
    let all = all_findings(audits, n);
    if i < n - 1 {
        lemma_all_findings_holds(audits, (n - 1) as nat, i, x);
        let k = before.index_of(x);
        assert(all[k] == x);
    } else {
        let k = audits[i].findings.index_of(x);
        assert(all[before.len() + k] == x);
    }
}

/// Every error of an audit of a file is shown, whatever the filter, under the
/// name of its audit and the path of its file; warnings are shown unless the
/// filter is for errors, and anything else unless it is for either.
pub proof fn law_findings_of_files_are_shown(
    r: ReviewReport,
    input: ReviewInput,
    filter: Seq<char>,
    a: SheetAudit,
    i: int,
    k: int,
)
    requires
        is_review(r, input, filter),
        0 <= i < input.sheets@.len(),
        audit_outcome(input.sheets@[i], a) matches OutcomeView::Findings(f) && 0 <= k < f.len()
            && f[k] is Object,
        ({
            let severity = audit_outcome(input.sheets@[i], a)->Findings_0[k].field_text(
                "severity"@,
            );
            ||| severity == Some("error"@)
            ||| severity == Some("warning"@) && filter != "error"@
            ||| filter != "error"@ && filter != "warning"@
        }),
    ensures
        exists|m: int|
            0 <= m < r.findings@.len() && ({
                let shown = (#[trigger] r.findings@[m])@;
                &&& shown.field_text("audit"@) == Some(audit_name(a))
                &&& shown.field_text("source"@) == Some(input.sheets@[i].path@)
                &&& forall|name: Seq<char>|
                    name != "audit"@ && name != "source"@ ==> #[trigger] shown.field(name)
                        == audit_outcome(input.sheets@[i], a)->Findings_0[k].field(name)
            }),
{
    let f = audit_outcome(input.sheets@[i], a)->Findings_0[k];
    let path = input.sheets@[i].path@;
    let x = marked(f, audit_name(a), path);
    let audits = review_audits(input);
    let n = input.sheets@.len();
    let findings = all_findings(audits, audits.len());
    lemma_aggregated_holds(input.sheets@, a, n, i, k);
    let at = match a {
        SheetAudit::Decoupling => 0int,
        SheetAudit::Connections => 1,
        SheetAudit::PowerRails => 2,
        SheetAudit::BomHealth => 3,
    };
    assert(audits[at] == aggregated(input.sheets@, a, n));
    lemma_all_findings_holds(audits, audits.len(), at, x);
    lemma_marked_severity(f, audit_name(a), path);
    let rank = finding_rank(x);
    lemma_of_rank_member(findings, rank, x);
    assert(of_rank(findings, rank).contains(x));
    let (first, second, third) = (of_rank(findings, 2), of_rank(findings, 1), of_rank(findings, 0));
    let shown = models(r.findings@);
    let m = of_rank(findings, rank).index_of(x);
    let place = if rank == 2 {
        m
    } else if rank == 1 {
        first.len() + m
    } else {
        first.len() + second.len() + m
    };
    reveal_strlit("error");
    reveal_strlit("warning");
    assert("error"@.len() != "warning"@.len());
    assert(shown[place] == x);
    assert(r.findings@[place]@ == x);
    law_marking_keeps_the_finding(f, audit_name(a), path, "audit"@);
    assert forall|name: Seq<char>| name != "audit"@ && name != "source"@ implies #[trigger] x.field(
        name,
    ) == f.field(name) by {
        law_marking_keeps_the_finding(f, audit_name(a), path, name);
    }
}

// ─── Laws on coverage ─────────────────────────────────────────────────────

/// A finding of an audit keeps its severity as a value of the review.
pub proof fn law_findings_keep_their_severity(f: FindingView)
    ensures
        f.severity == Severity::Error ==> finding_value(f).field_text("severity"@) == Some(
            "error"@,
        ),
        f.severity == Severity::Warning ==> finding_value(f).field_text("severity"@) == Some(
            "warning"@,
        ),
        f.severity == Severity::Info ==> finding_value(f).field_text("severity"@) == Some(
            "info"@,
        ),
{
    let entries = finding_value(f)->Object_0;
    crate::json::lemma_entry_index(entries, "severity"@);
    assert(entries[0].name == "severity"@);
    assert(crate::json::entry_index(entries, "severity"@) == Some(0int));
}

/// A supply input without a capacitor on its net, on any schematic file of a
/// review that is complete, makes the design not ready.
pub proof fn law_undecoupled_supply_pin_is_not_ready(
    r: ReviewReport,
    input: ReviewInput,
    filter: Seq<char>,
    i: int,
    loaded: LoadedSheet,
    symbols: Seq<NetSymbolView>,
    nets: Seq<Seq<char>>,
    a: int,
    b: int,
)
    requires
        is_review(r, input, filter),
        r.status == ReviewStatus::Complete,
        0 <= i < input.sheets@.len(),
        is_audited(input.sheets@[i], loaded, symbols, nets),
        0 <= a < symbols.len(),
        0 <= b < symbols[a].pins.len(),
        !crate::audits::is_left_out(symbols[a].lib_id),
        crate::audits::is_supply_pin(symbols[a].pins[b]),
        symbols[a].pins[b].net matches Some(net) ==> !crate::audits::has_capacitor_on(symbols, net),
    ensures
        r.verdict == Verdict::NotReady,
{
    crate::audits::law_supply_pins_without_capacitor_are_reported(symbols, a, b);
    let list = decoupling_findings(symbols, symbols.len());
    let f = choose|f: FindingView| #[trigger]
        list.contains(f) && f.severity == Severity::Error && f.component == Some(
            symbols[a].reference,
        );
    let k = list.index_of(f);
    let values = list.map_values(|x: FindingView| finding_value(x));
    law_findings_keep_their_severity(f);
    assert(values[k] == finding_value(f));
    assert(outcome_has(input.sheets@[i].decoupling@, "error"@));
    law_verdict_follows_the_worst_finding(r, input, filter);
}

/// An answer of an audit has findings exactly if its document holds an array of
/// objects under that name; nothing is made of any other answer.
pub proof fn law_findings_are_objects(d: JsonView)
    ensures
        document_findings(d) is Ok <==> (d.field_items("findings"@) matches Some(items) && forall|
            i: int,
        |
            0 <= i < items.len() ==> (#[trigger] items[i]) is Object),
        document_findings(d) matches Ok(items) ==> d.field_items("findings"@) == Some(items),
{
}

/// Every audit of the schematic counts every file: as requested, and as completed
/// or failed by whether it came to findings.
pub proof fn law_audits_count_every_file(
    sheets: Seq<SheetOutcome>,
    a: SheetAudit,
    n: nat,
)
    requires
        n <= sheets.len(),
    ensures
        aggregated(sheets, a, n).requested == n,
        aggregated(sheets, a, n).completed + aggregated(sheets, a, n).failed == n,
        aggregated(sheets, a, n).failed == 0 <==> forall|i: int|
            0 <= i < n ==> audit_outcome(#[trigger] sheets[i], a) is Findings,
        aggregated(sheets, a, n).completed == 0 <==> forall|i: int|
            0 <= i < n ==> !(audit_outcome(#[trigger] sheets[i], a) is Findings),
    decreases n,
{
    if n > 0 {
        law_audits_count_every_file(sheets, a, (n - 1) as nat);
    }
}

/// The walk over a tree visits its root first and then every node below every
/// one of its children, and each once.
pub proof fn law_walk_visits_every_node(n: NodeView, k: int, v: VisitView)
    requires
        0 <= k < n.children.len(),
    ensures
        visits(n).len() >= 1,
        visits(n)[0].path == n.path && visits(n)[0].key == n.key,
        visits(n.children[k]).contains(v) ==> visits(n).contains(v),
        visits(n).len() > visits(n.children[k]).len(),
{
    let below = forest_visits(n.children, n.children.len());
    lemma_forest_holds(n.children, n.children.len(), k, v);
    lemma_contains_add(seq![VisitView { path: n.path, key: n.key }], below, v);
}

proof fn lemma_forest_holds(nodes: Seq<NodeView>, n: nat, k: int, v: VisitView)
    requires
        0 <= k < n <= nodes.len(),
    ensures
        visits(nodes[k]).contains(v) ==> forest_visits(nodes, n).contains(v),
        forest_visits(nodes, n).len() >= visits(nodes[k]).len(),
    decreases n,
{
    lemma_contains_add(forest_visits(nodes, (n - 1) as nat), visits(nodes[n - 1]), v);
    if k < n - 1 {
        lemma_forest_holds(nodes, (n - 1) as nat, k, v);
    }
}

/// A node that could not be followed is told of, wherever it is in the tree, and
/// a tree of which every node could be is told nothing of.
pub proof fn law_faults_are_told(n: NodeView, k: int, d: DiagnosticView)
    ensures
        n.fault matches Fault::Told(m) ==> node_diagnostics(n).len() > 0
            && node_diagnostics(n)[0].source == n.path && node_diagnostics(n)[0].message == m,
        0 <= k < n.children.len() && node_diagnostics(n.children[k]).contains(d)
            ==> node_diagnostics(n).contains(d),
{
    let own = match n.fault {
        Fault::Told(m) => seq![told("hierarchy_error"@, n.path, m)],
        Fault::Sound => Seq::empty(),
    };
    let below = forest_diagnostics(n.children, n.children.len());
    lemma_contains_add(own, below, d);
    if 0 <= k < n.children.len() {
        lemma_forest_tells(n.children, n.children.len(), k, d);
    }
}

proof fn lemma_forest_tells(nodes: Seq<NodeView>, n: nat, k: int, d: DiagnosticView)
    requires
        0 <= k < n <= nodes.len(),
    ensures
        node_diagnostics(nodes[k]).contains(d) ==> forest_diagnostics(nodes, n).contains(d),
    decreases n,
{
    lemma_contains_add(
        forest_diagnostics(nodes, (n - 1) as nat),
        node_diagnostics(nodes[n - 1]),
        d,
    );
    if k < n - 1 {
        lemma_forest_tells(nodes, (n - 1) as nat, k, d);
    }
}

/// A file that is visited again counts once: there are as many files as there are
/// different keys among the visits.
pub proof fn law_files_count_once(v: Seq<VisitView>, n: nat)
    requires
        n <= v.len(),
    ensures
        distinct_files(v, n).len() == only_in(visit_keys(v), Seq::empty(), n).len(),
        forall|i: int|
            #![trigger v[i]]
            0 <= i < n && (forall|m: int| #![trigger v[m]] 0 <= m < i ==> v[m].key != v[i].key)
                ==> distinct_files(v, n).contains(v[i].path),
    decreases n,
{
    let keys = visit_keys(v);
    if n > 0 {
        law_files_count_once(v, (n - 1) as nat);
        crate::hierarchy::lemma_only_in(keys, Seq::empty(), (n - 1) as nat);
        assert(keys[n - 1] == v[n - 1].key);
    }
    assert forall|i: int|
        #![trigger v[i]]
        0 <= i < n && (forall|m: int|
            #![trigger v[m]]
            0 <= m < i ==> v[m].key != v[i].key) implies distinct_files(v, n).contains(
        v[i].path,
    ) by {
        lemma_first_visit_counts(v, n, i);
    }
}

proof fn lemma_first_visit_counts(v: Seq<VisitView>, n: nat, i: int)
    requires
        0 <= i < n <= v.len(),
        forall|m: int| #![trigger v[m]] 0 <= m < i ==> v[m].key != v[i].key,
    ensures
        distinct_files(v, n).contains(v[i].path),
    decreases n,
{
    let rest = distinct_files(v, (n - 1) as nat);
    lemma_contains_push(rest, v[n - 1].path, v[i].path);
    if i < n - 1 {
        lemma_first_visit_counts(v, (n - 1) as nat, i);
    } else {
        let before = visit_keys(v).take(n - 1);
        if before.contains(v[n - 1].key) {
            let m = before.index_of(v[n - 1].key);
            assert(before[m] == v[m].key);
        }
    }
}

/// A symbol whose library symbol is missing is told of under its reference, and
/// no other symbol is.
pub proof fn law_unresolved_symbols_are_told(
    source: Seq<char>,
    symbols: Seq<Symbol>,
    n: nat,
    d: DiagnosticView,
)
    requires
        n <= symbols.len(),
    ensures
        unresolved_diagnostics(source, symbols, n).contains(d) ==> exists|i: int|
            0 <= i < n && (#[trigger] symbols[i]).pins is None && d.reference == Some(
                symbols[i].reference@,
            ),
        forall|i: int|
            0 <= i < n && (#[trigger] symbols[i]).pins is None ==> exists|e: DiagnosticView|
                #[trigger]
                unresolved_diagnostics(source, symbols, n).contains(e) && e.reference == Some(
                    symbols[i].reference@,
                ) && e.source == source,
        unresolved_diagnostics(source, symbols, n).len() == 0 <==> forall|i: int|
            0 <= i < n ==> (#[trigger] symbols[i]).pins is Some,
    decreases n,
{
    if n > 0 {
        law_unresolved_symbols_are_told(source, symbols, (n - 1) as nat, d);
        let rest = unresolved_diagnostics(source, symbols, (n - 1) as nat);
        let all = unresolved_diagnostics(source, symbols, n);
        let s = symbols[n - 1];
        let x = DiagnosticView {
            reference: Some(s.reference@),
            library_symbol: Some(s.library_symbol@),
            ..told(
                "unresolved_library_symbol"@,
                source,
                "symbol was skipped by one or more design-review audits"@,
            )
        };
        lemma_contains_push(rest, x, d);
        lemma_contains_push(rest, x, x);
        assert forall|i: int| 0 <= i < n && (#[trigger] symbols[i]).pins is None implies exists|
            e: DiagnosticView,
        | #[trigger]
            all.contains(e) && e.reference == Some(symbols[i].reference@) && e.source == source by {
            if i == n - 1 {
                assert(all.contains(x));
            } else {
                let e = choose|e: DiagnosticView| #[trigger]
                    rest.contains(e) && e.reference == Some(symbols[i].reference@) && e.source
                        == source;
                lemma_contains_push(rest, x, e);
                assert(all.contains(e));
            }
        }
    }
}

/// The sums of the coverage are those of the files that could be read: no file
/// lowers them, and each adds what it has.
pub proof fn law_coverage_adds_up(sheets: Seq<SheetOutcome>, n: nat)
    requires
        0 < n <= sheets.len(),
    ensures
        ({
            let before = covered(sheets, (n - 1) as nat);
            let all = covered(sheets, n);
            match sheets[n - 1].coverage {
                Ok(c) => all.symbol_instances == before.symbol_instances + c.symbol_instances
                    && all.named_nets == before.named_nets + c.named_nets && all.resolved_symbols
                    == before.resolved_symbols + c.resolved_symbols && all.unresolved_symbols
                    == before.unresolved_symbols + c.diagnostics@.len() && all.multi_unit_symbols
                    == before.multi_unit_symbols + c.multi_unit_symbols,
                Err(_) => all == before,
            }
        }),
        covered(sheets, 0).symbol_instances == 0 && covered(sheets, 0).named_nets == 0,
{
}

/// An answer comes to findings exactly if it begins with a text, is no error, and
/// the text is a document with an array of objects under that name.
pub proof fn law_answers_with_findings(r: CallToolResult)
    ensures
        result_findings(r) is Ok <==> r.content@.len() > 0 && !r.is_error && (
        r.content@[0] matches ToolContent::Text(t) && json_document(t@) matches Ok(d)
            && document_findings(d) is Ok),
        r.is_error ==> result_findings(r) is Err,
{
}

/// An audit is complete exactly if none of its files failed, and failed only if
/// none of them was completed.
pub proof fn law_status_of_an_audit(a: AggregateView)
    ensures
        aggregate_status(a) == "complete"@ <==> a.failed == 0,
        aggregate_status(a) == "failed"@ <==> a.failed > 0 && a.completed == 0,
{
    reveal_strlit("complete");
    reveal_strlit("partial");
    reveal_strlit("failed");
    assert("complete"@.len() == 8 && "partial"@.len() == 7 && "failed"@.len() == 6);
}

/// The coverage of a sheet counts its symbols whole, its named nets by their
/// names, and sees everything exactly if every library symbol is there.
pub proof fn law_coverage_of_a_sheet(c: SheetCoverage, source: Seq<char>, sheet: Sheet)
    requires
        c.covers(source, sheet),
    ensures
        c.symbol_instances == sheet.symbols@.len(),
        c.resolved_symbols == c.symbol_instances <==> forall|i: int|
            0 <= i < sheet.symbols@.len() ==> (#[trigger] sheet.symbols@[i]).pins is Some,
        c.diagnostics@.len() == 0 <==> forall|i: int|
            0 <= i < sheet.symbols@.len() ==> (#[trigger] sheet.symbols@[i]).pins is Some,
        c.named_nets == 0 <==> sheet.labels@.len() == 0,
        c.named_nets <= sheet.labels@.len(),
        c.multi_unit_symbols == 0 <==> forall|i: int|
            0 <= i < sheet.symbols@.len() ==> !((#[trigger] sheet.symbols@[i]).pins matches Some(
                pins,
            ) && sheet.symbols@[i].definition_pins > pins@.len()),
{
    law_unresolved_symbols_are_told(
        source,
        sheet.symbols@,
        sheet.symbols@.len(),
        told(source, source, source),
    );
    assert(models(c.diagnostics@).len() == c.diagnostics@.len());
    crate::manufacturing::law_nets_count_once(label_nets(sheet.labels@));
    let symbols = sheet.symbols@;
    let refs = multi_unit_references(symbols, symbols.len());
    crate::manufacturing::law_nets_count_once(refs);
    assert forall|i: int| 0 <= i < symbols.len() && refs.len() == 0 implies !((
    #[trigger] symbols[i]).pins matches Some(pins) && symbols[i].definition_pins
        > pins@.len()) by {
        law_symbols_of_several_units(symbols, symbols.len(), symbols[i].reference@);
    }
    if refs.len() > 0 {
        law_symbols_of_several_units(symbols, symbols.len(), refs[0]);
        assert(refs.contains(refs[0]));
    }
}

/// A symbol whose definition has more pins than the placed unit counts as one of
/// several units.
pub proof fn law_symbols_of_several_units(symbols: Seq<Symbol>, n: nat, t: Seq<char>)
    requires
        n <= symbols.len(),
    ensures
        multi_unit_references(symbols, n).contains(t) <==> exists|i: int|
            0 <= i < n && (#[trigger] symbols[i]).reference@ == t && (
            symbols[i].pins matches Some(pins) && symbols[i].definition_pins > pins@.len()),
    decreases n,
{
    if n > 0 {
        law_symbols_of_several_units(symbols, (n - 1) as nat, t);
        lemma_contains_push(
            multi_unit_references(symbols, (n - 1) as nat),
            symbols[n - 1].reference@,
            t,
        );
    }
}

} // verus!
