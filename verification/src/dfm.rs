//! Manufacturability audit of a board.
use crate::audits::{AuditFinding, FindingView, Severity};
use crate::board_objects::{FootprintFacts, FootprintView};
use crate::geometry::Point;
use crate::seqs::{lemma_contains_add, lemma_contains_push, models, push_model};
use crate::text::{self, contains_text, decimal, find_text, trimmed};
use vstd::prelude::*;

verus! {

/// A length with the text that shows it in millimetres.
pub struct Length {
    pub nm: i64,
    pub shown: String,
}

/// A footprint with a reference and a position.
pub struct PlacedFootprint {
    pub reference: String,
    pub at: Point,
}

/// What the audit reads of a board: its text, the layer of each footprint that
/// names one, the footprints with reference and position, whether it has a
/// setup section, and the minimum trace width that its rules state.
pub struct BoardFacts {
    pub content: String,
    pub layers: Vec<String>,
    pub footprints: Vec<PlacedFootprint>,
    pub has_setup: bool,
    pub min_trace_width: Option<Length>,
}

/// The layers of the first `n` footprints that name one.
pub open spec fn layers_of(facts: Seq<FootprintView>, n: nat) -> Seq<Seq<char>>
    decreases n,
{
    if n == 0 {
        Seq::empty()
    } else {
        let rest = layers_of(facts, (n - 1) as nat);
        match facts[n - 1].layer {
            Some(l) => rest.push(l),
            None => rest,
        }
    }
}

/// The references and positions of the first `n` footprints that have both.
pub open spec fn placed_of(
    facts: Seq<FootprintView>,
    places: Seq<Option<Point>>,
    n: nat,
) -> Seq<(Seq<char>, Point)>
    decreases n,
{
    if n == 0 {
        Seq::empty()
    } else {
        let rest = placed_of(facts, places, (n - 1) as nat);
        match facts[n - 1].reference {
            Some(r) => if n <= places.len() && places[n - 1] is Some {
                rest.push((r, places[n - 1]->0))
            } else {
                rest
            },
            None => rest,
        }
    }
}

impl View for PlacedFootprint {
    type V = (Seq<char>, Point);

    open spec fn view(&self) -> (Seq<char>, Point) {
        (self.reference@, self.at)
    }
}

/// What the audit reads of a board, from what its file says of the footprints
/// and where those stand whose places are numbers.
pub fn board_facts(
    content: &str,
    facts: &Vec<FootprintFacts>,
    places: &Vec<Option<Point>>,
    has_setup: bool,
    min_trace_width: Option<Length>,
) -> (r: BoardFacts)
    ensures
        r.content@ == content@,
        models(r.layers@) == layers_of(models(facts@), facts@.len()),
        models(r.footprints@) == placed_of(models(facts@), places@, facts@.len()),
        r.has_setup == has_setup,
        r.min_trace_width == min_trace_width,
{
    let mut layers: Vec<String> = Vec::new();
    let mut footprints: Vec<PlacedFootprint> = Vec::new();
    let mut i: usize = 0;
    proof {
        assert(models(layers@) =~= Seq::empty());
        assert(models(footprints@) =~= Seq::empty());
    }
    while i < facts.len()
        invariant
            i <= facts@.len(),
            models(layers@) == layers_of(models(facts@), i as nat),
            models(footprints@) == placed_of(models(facts@), places@, i as nat),
        decreases facts@.len() - i,
    {
        proof {
            assert(models(facts@)[i as int] == facts@[i as int]@);
        }
        if let Some(l) = &facts[i].layer {
            push_model(&mut layers, l.clone());
        }
        if let Some(r) = &facts[i].reference {
            if i < places.len() {
                if let Some(at) = places[i] {
                    push_model(&mut footprints, PlacedFootprint { reference: r.clone(), at });
                }
            }
        }
        i += 1;
    }
    BoardFacts { content: content.to_owned(), layers, footprints, has_setup, min_trace_width }
}

/// The least trace width that a fab house makes, in nanometres.
pub open spec fn capability_nm(fab_house: Seq<char>) -> int {
    if fab_house == "jlcpcb"@ {
        127000
    } else if fab_house == "pcbway"@ {
        100000
    } else if fab_house == "oshpark"@ {
        152000
    } else {
        150000
    }
}

/// The least trace width that a fab house makes, as shown in millimetres.
pub open spec fn capability_text(fab_house: Seq<char>) -> Seq<char> {
    if fab_house == "jlcpcb"@ {
        "0.127"@
    } else if fab_house == "pcbway"@ {
        "0.100"@
    } else if fab_house == "oshpark"@ {
        "0.152"@
    } else {
        "0.150"@
    }
}

/// The least trace width that a fab house makes.
pub fn capability(fab_house: &str) -> (r: (i64, &'static str))
    ensures
        r.0 == capability_nm(fab_house@),
        r.1@ == capability_text(fab_house@),
{
    if text::same(fab_house, "jlcpcb") {
        (127000, "0.127")
    } else if text::same(fab_house, "pcbway") {
        (100000, "0.100")
    } else if text::same(fab_house, "oshpark") {
        (152000, "0.152")
    } else {
        (150000, "0.150")
    }
}

/// How many of the first `n` layers are the given one.
pub open spec fn count_layer(layers: Seq<String>, layer: Seq<char>, n: nat) -> nat
    decreases n,
{
    if n == 0 {
        0
    } else {
        count_layer(layers, layer, (n - 1) as nat) + (if layers[n - 1]@ == layer {
            1nat
        } else {
            0
        })
    }
}

fn count_on(layers: &Vec<String>, layer: &str) -> (n: usize)
    ensures
        n == count_layer(layers@, layer@, layers@.len()),
{
    let mut n: usize = 0;
    let mut i: usize = 0;
    while i < layers.len()
        invariant
            i <= layers@.len(),
            n <= i,
            n == count_layer(layers@, layer@, i as nat),
        decreases layers@.len() - i,
    {
        if text::same(layers[i].as_str(), layer) {
            n += 1;
        }
        i += 1;
    }
    n
}

/// The square of the distance of two points.
pub open spec fn squared_distance(a: Point, b: Point) -> int {
    (a.x - b.x) * (a.x - b.x) + (a.y - b.y) * (a.y - b.y)
}

/// Whether two points are less than a millimetre apart.
pub open spec fn is_crowded(a: Point, b: Point) -> bool {
    squared_distance(a, b) < 1_000_000_000_000
}

/// The nearest number of hundredths of a millimetre, from `h` on: the first one
/// whose upper rounding bound the distance does not reach. A distance half-way
/// between two goes to the even one.
pub open spec fn hundredths_from(squared: int, h: nat) -> nat
    decreases 100 - h,
{
    let bound = (2 * h + 1) * (2 * h + 1) * 25_000_000;
    if h >= 100 || squared < bound || (squared == bound && h % 2 == 0) {
        h
    } else {
        hundredths_from(squared, h + 1)
    }
}

/// A distance of at most a millimetre with two decimals.
pub open spec fn distance_text(squared: int) -> Seq<char> {
    let h = hundredths_from(squared, 0);
    decimal(h / 100) + "."@ + decimal((h / 10) % 10) + decimal(h % 10)
}

/// The squared distance of two points that are less than a millimetre apart.
fn crowded(a: Point, b: Point) -> (r: Option<u64>)
    ensures
        r is Some <==> is_crowded(a, b),
        r matches Some(s) ==> s == squared_distance(a, b),
{
    let dx: i128 = a.x as i128 - b.x as i128;
    let dy: i128 = a.y as i128 - b.y as i128;
    let limit: i128 = 1_000_000;
    if dx >= limit || dx <= -limit || dy >= limit || dy <= -limit {
        proof {
            let x = a.x - b.x;
            let y = a.y - b.y;
            assert(x * x + y * y >= 1_000_000_000_000) by (nonlinear_arith)
                requires
                    x >= 1_000_000 || x <= -1_000_000 || y >= 1_000_000 || y <= -1_000_000,
            ;
        }
        return None;
    }
    let ux: u64 = if dx >= 0 { dx as u64 } else { (-dx) as u64 };
    let uy: u64 = if dy >= 0 { dy as u64 } else { (-dy) as u64 };
    proof {
        assert(ux * ux <= 1_000_000_000_000 && uy * uy <= 1_000_000_000_000) by (nonlinear_arith)
            requires
                0 <= ux < 1_000_000,
                0 <= uy < 1_000_000,
        ;
        let x = a.x - b.x;
        let y = a.y - b.y;
        assert(ux * ux == x * x) by (nonlinear_arith)
            requires
                ux == x || ux == -x,
        ;
        assert(uy * uy == y * y) by (nonlinear_arith)
            requires
                uy == y || uy == -y,
        ;
    }
    let squared: u64 = ux * ux + uy * uy;
    if squared < 1_000_000_000_000 {
        Some(squared)
    } else {
        None
    }
}

fn rounding_bound(h: u64) -> (r: u64)
    requires
        h < 100,
    ensures
        r == (2 * h + 1) * (2 * h + 1) * 25_000_000,
{
    let odd: u64 = 2 * h + 1;
    proof {
        assert(odd * odd <= 40_000) by (nonlinear_arith)
            requires
                0 <= odd <= 200,
        ;
    }
    odd * odd * 25_000_000
}

fn show_distance(squared: u64) -> (out: String)
    requires
        squared < 1_000_000_000_000,
    ensures
        out@ == distance_text(squared as int),
{
    let mut h: u64 = 0;
    let mut more: bool = true;
    while more && h < 100
        invariant
            h <= 100,
            more ==> hundredths_from(squared as int, 0) == hundredths_from(squared as int, h as nat),
            !more ==> hundredths_from(squared as int, 0) == h,
        decreases 100 - h, (if more { 1int } else { 0 }),
    {
        let bound: u64 = rounding_bound(h);
        if squared < bound || (squared == bound && h % 2 == 0) {
            more = false;
        } else {
            h += 1;
        }
    }
    let whole = text::decimal_text(h / 100);
    let tenths = text::decimal_text((h / 10) % 10);
    let last = text::decimal_text(h % 10);
    text::cat4(whole.as_str(), ".", tenths.as_str(), last.as_str())
}

/// What is reported of two footprints that are less than a millimetre apart.
pub open spec fn crowding_finding(a: PlacedFootprint, b: PlacedFootprint) -> FindingView {
    FindingView {
        severity: Severity::Warning,
        category: "dfm"@,
        component: Some(a.reference@ + ", "@ + b.reference@),
        issue: a.reference@ + " and "@ + b.reference@ + " are only "@ + distance_text(
            squared_distance(a.at, b.at),
        ) + "mm apart — possible silkscreen overlap or assembly issue"@,
        recommendation:
            "Increase spacing between components to at least 1mm for reliable assembly"@,
    }
}

/// What is reported of footprint `i` with those from `i + 1` up to `n`.
pub open spec fn crowding_with(fps: Seq<PlacedFootprint>, i: int, n: int) -> Seq<FindingView>
    decreases n - i,
{
    if n <= i + 1 {
        Seq::empty()
    } else {
        let rest = crowding_with(fps, i, n - 1);
        if is_crowded(fps[i].at, fps[n - 1].at) {
            rest.push(crowding_finding(fps[i], fps[n - 1]))
        } else {
            rest
        }
    }
}

/// What is reported of the first `n` footprints with those behind them.
pub open spec fn crowding_findings(fps: Seq<PlacedFootprint>, n: nat) -> Seq<FindingView>
    decreases n,
{
    if n == 0 {
        Seq::empty()
    } else {
        crowding_findings(fps, (n - 1) as nat) + crowding_with(fps, n - 1, fps.len() as int)
    }
}

/// Reports every pair of footprints that are less than a millimetre apart.
pub fn check_silkscreen_overlap(fps: &Vec<PlacedFootprint>) -> (findings: Vec<AuditFinding>)
    ensures
        models(findings@) == crowding_findings(fps@, fps@.len()),
{
    let mut findings: Vec<AuditFinding> = Vec::new();
    proof {
        assert(models(findings@) =~= Seq::empty());
    }
    let mut i: usize = 0;
    while i < fps.len()
        invariant
            i <= fps@.len(),
            models(findings@) == crowding_findings(fps@, i as nat),
        decreases fps@.len() - i,
    {
        let ghost so_far = models(findings@);
        let mut j: usize = i + 1;
        proof {
            assert(so_far + crowding_with(fps@, i as int, j as int) =~= so_far);
        }
        while j < fps.len()
            invariant
                i < j <= fps@.len(),
                models(findings@) == so_far + crowding_with(fps@, i as int, j as int),
            decreases fps@.len() - j,
        {
            let a = &fps[i];
            let b = &fps[j];
            let ghost had = crowding_with(fps@, i as int, j as int);
            if let Some(squared) = crowded(a.at, b.at) {
                let shown = show_distance(squared);
                let mut issue = text::cat5(
                    a.reference.as_str(),
                    " and ",
                    b.reference.as_str(),
                    " are only ",
                    shown.as_str(),
                );
                issue.append("mm apart — possible silkscreen overlap or assembly issue");
                let f = AuditFinding {
                    severity: Severity::Warning,
                    category: "dfm",
                    component: Some(text::cat3(a.reference.as_str(), ", ", b.reference.as_str())),
                    issue,
                    recommendation:
                        "Increase spacing between components to at least 1mm for reliable assembly".to_owned(),
                };
                proof {
                    assert((so_far + had).push(f@) =~= so_far + had.push(f@));
                }
                push_model(&mut findings, f);
            }
            j += 1;
        }
        i += 1;
    }
    findings
}

/// The text between `(rule ` and the next closing parenthesis, trimmed: what a
/// board's text states for the rule.
pub open spec fn rule_text(content: Seq<char>, rule: Seq<char>) -> Option<Seq<char>> {
    let mark = "("@ + rule + " "@;
    match find_text(content, mark, 0) {
        Some(i) => match find_text(content, seq![')'], i + mark.len()) {
            Some(end) => Some(trimmed(content.subrange(i + mark.len(), end))),
            None => None,
        },
        None => None,
    }
}

/// What a board's text states for a rule.
pub fn find_design_rule_text(content: &str, rule: &str) -> (r: Option<String>)
    ensures
        match r {
            Some(t) => rule_text(content@, rule@) == Some(t@),
            None => rule_text(content@, rule@) is None,
        },
{
    let chars = text::chars_of(content);
    let mark = text::chars_of(text::cat3("(", rule, " ").as_str());
    let close: [char; 1] = [')'];
    proof {
        assert(close@ =~= seq![')']);
    }
    match text::find_from(&chars, &mark, 0) {
        None => None,
        Some(i) => {
            let len: usize = chars.len();
            let from: usize = i + mark.len();
            match text::find_from(&chars, &close, from) {
                None => None,
                Some(end) => {
                    let inside = text::slice_text(&chars, from, end);
                    Some(text::trim(inside.as_str()))
                },
            }
        },
    }
}

/// What is reported of a board without an outline.
pub open spec fn outline_finding() -> FindingView {
    FindingView {
        severity: Severity::Error,
        category: "dfm"@,
        component: None,
        issue: "No board outline found (Edge.Cuts layer is empty)"@,
        recommendation: "Add a board outline on the Edge.Cuts layer using add_board_outline"@,
    }
}

/// What is reported of a board with footprints on both sides.
pub open spec fn both_sides_finding(front: nat, back: nat) -> FindingView {
    FindingView {
        severity: Severity::Info,
        category: "dfm"@,
        component: None,
        issue: "Components on both sides: "@ + decimal(front) + " front, "@ + decimal(back)
            + " back. This requires dual-side assembly."@,
        recommendation:
            "Verify your fab house supports dual-side assembly. JLCPCB charges extra for back-side SMT."@,
    }
}

/// What is reported of a minimum trace width that the fab house cannot make.
pub open spec fn trace_finding(fab_house: Seq<char>, shown: Seq<char>) -> FindingView {
    FindingView {
        severity: Severity::Error,
        category: "dfm"@,
        component: None,
        issue: "Minimum trace width ("@ + shown + "mm) is below "@ + fab_house + " capability ("@
            + capability_text(fab_house) + "mm)"@,
        recommendation: "Increase minimum trace width to at least "@ + capability_text(fab_house)
            + "mm"@,
    }
}

/// The finding, if there is one.
pub open spec fn dfm_if(found: bool, f: FindingView) -> Seq<FindingView> {
    if found {
        seq![f]
    } else {
        Seq::empty()
    }
}

/// Whether the stated minimum trace width is below what the fab house makes.
pub open spec fn trace_too_thin(board: BoardFacts, fab_house: Seq<char>) -> bool {
    board.has_setup && (board.min_trace_width matches Some(w) && w.nm < capability_nm(fab_house))
}

/// What is reported of a board, in order: outline, sides, crowding, traces.
pub open spec fn dfm_findings(board: BoardFacts, fab_house: Seq<char>) -> Seq<FindingView> {
    let front = count_layer(board.layers@, "F.Cu"@, board.layers@.len());
    let back = count_layer(board.layers@, "B.Cu"@, board.layers@.len());
    dfm_if(!contains_text(board.content@, "Edge.Cuts"@), outline_finding()) + dfm_if(
        back > 0 && front > 0,
        both_sides_finding(front, back),
    ) + crowding_findings(board.footprints@, board.footprints@.len()) + dfm_if(
        trace_too_thin(board, fab_house),
        trace_finding(fab_house, board.min_trace_width->0.shown@),
    )
}

/// The outcome of the manufacturability audit.
pub struct DfmAudit {
    pub front: usize,
    pub back: usize,
    pub findings: Vec<AuditFinding>,
    pub summary: String,
}

/// Audits a board against what a fab house makes.
pub fn audit_manufacturing(board: &BoardFacts, fab_house: &str) -> (r: DfmAudit)
    ensures
        r.front == count_layer(board.layers@, "F.Cu"@, board.layers@.len()),
        r.back == count_layer(board.layers@, "B.Cu"@, board.layers@.len()),
        models(r.findings@) == dfm_findings(*board, fab_house@),
        r.summary@ == decimal(r.findings@.len()) + " DFM issues found for "@ + fab_house@ + "."@,
{
    let (min_nm, min_shown) = capability(fab_house);
    let front: usize = count_on(&board.layers, "F.Cu");
    let back: usize = count_on(&board.layers, "B.Cu");
    let mut findings: Vec<AuditFinding> = Vec::new();
    let outlined = text::contains(board.content.as_str(), "Edge.Cuts");
    if !outlined {
        push_model(
            &mut findings,
            AuditFinding {
                severity: Severity::Error,
                category: "dfm",
                component: None,
                issue: "No board outline found (Edge.Cuts layer is empty)".to_owned(),
                recommendation:
                    "Add a board outline on the Edge.Cuts layer using add_board_outline".to_owned(),
            },
        );
    }
    let ghost f1 = dfm_if(!outlined, outline_finding());
    proof {
        assert(models(findings@) =~= f1);
    }
    if back > 0 && front > 0 {
        let nf = text::decimal_text(front as u64);
        let nb = text::decimal_text(back as u64);
        push_model(
            &mut findings,
            AuditFinding {
                severity: Severity::Info,
                category: "dfm",
                component: None,
                issue: text::cat5(
                    "Components on both sides: ",
                    nf.as_str(),
                    " front, ",
                    nb.as_str(),
                    " back. This requires dual-side assembly.",
                ),
                recommendation:
                    "Verify your fab house supports dual-side assembly. JLCPCB charges extra for back-side SMT.".to_owned(),
            },
        );
    }
    let ghost f2 = dfm_if(back > 0 && front > 0, both_sides_finding(front as nat, back as nat));
    proof {
        assert(models(findings@) =~= f1 + f2);
    }
    let mut crowding = check_silkscreen_overlap(&board.footprints);
    let ghost f3 = models(crowding@);
    let ghost had = findings@;
    let ghost more = crowding@;
    findings.append(&mut crowding);
    proof {
        assert(models(had + more) =~= models(had) + models(more));
    }
    let ghost thin = trace_too_thin(*board, fab_house@);
    if board.has_setup {
        if let Some(w) = &board.min_trace_width {
            if w.nm < min_nm {
                let mut issue = text::cat5(
                    "Minimum trace width (",
                    w.shown.as_str(),
                    "mm) is below ",
                    fab_house,
                    " capability (",
                );
                issue.append(min_shown);
                issue.append("mm)");
                push_model(
                    &mut findings,
                    AuditFinding {
                        severity: Severity::Error,
                        category: "dfm",
                        component: None,
                        issue,
                        recommendation: text::cat3(
                            "Increase minimum trace width to at least ",
                            min_shown,
                            "mm",
                        ),
                    },
                );
            }
        }
    }
    proof {
        let f4 = dfm_if(thin, trace_finding(fab_house@, board.min_trace_width->0.shown@));
        assert(models(findings@) =~= f1 + f2 + f3 + f4);
    }
    let count = text::decimal_text(findings.len() as u64);
    let summary = text::cat4(count.as_str(), " DFM issues found for ", fab_house, ".");
    DfmAudit { front, back, findings, summary }
}

// ─── Laws ─────────────────────────────────────────────────────────────────

proof fn lemma_crowding_with(fps: Seq<PlacedFootprint>, i: int, n: int, f: FindingView)
    requires
        0 <= i < n <= fps.len(),
    ensures
        crowding_with(fps, i, n).contains(f) <==> exists|j: int|
            i < j < n && is_crowded(fps[i].at, (#[trigger] fps[j]).at) && f == crowding_finding(
                fps[i],
                fps[j],
            ),
    decreases n - i,
{
    if n > i + 1 {
        lemma_crowding_with(fps, i, n - 1, f);
        lemma_contains_push(
            crowding_with(fps, i, n - 1),
            crowding_finding(fps[i], fps[n - 1]),
            f,
        );
    }
}

proof fn lemma_crowding(fps: Seq<PlacedFootprint>, n: nat, f: FindingView)
    requires
        n <= fps.len(),
    ensures
        crowding_findings(fps, n).contains(f) <==> exists|i: int, j: int|
            #![trigger fps[i], fps[j]]
            0 <= i < n && i < j < fps.len() && is_crowded(fps[i].at, fps[j].at) && f
                == crowding_finding(fps[i], fps[j]),
    decreases n,
{
    if n > 0 {
        lemma_crowding(fps, (n - 1) as nat, f);
        lemma_crowding_with(fps, n - 1, fps.len() as int, f);
        lemma_contains_add(
            crowding_findings(fps, (n - 1) as nat),
            crowding_with(fps, n - 1, fps.len() as int),
            f,
        );
        if crowding_with(fps, n - 1, fps.len() as int).contains(f) {
            let j = choose|j: int|
                n - 1 < j < fps.len() && is_crowded(fps[n - 1].at, (#[trigger] fps[j]).at) && f
                    == crowding_finding(fps[n - 1], fps[j]);
            assert(fps[n - 1] == fps[n - 1] && fps[j] == fps[j]);
        }
    }
}

/// Two footprints less than a millimetre apart are reported by a warning that
/// names both, and a report of that kind is always about two such footprints.
pub proof fn law_crowded_footprints_are_reported(
    board: BoardFacts,
    fab_house: Seq<char>,
    i: int,
    j: int,
    f: FindingView,
)
    requires
        0 <= i < j < board.footprints@.len(),
    ensures
        ({
            let a = board.footprints@[i];
            let b = board.footprints@[j];
            (a.at.x - b.at.x) * (a.at.x - b.at.x) + (a.at.y - b.at.y) * (a.at.y - b.at.y)
                < 1_000_000 * 1_000_000 ==> exists|g: FindingView| #[trigger]
                dfm_findings(board, fab_house).contains(g) && g.severity == Severity::Warning
                    && g.component == Some(a.reference@ + ", "@ + b.reference@)
        }),
        dfm_findings(board, fab_house).contains(f) && f.severity == Severity::Warning
            ==> exists|k: int, l: int|
            #![trigger board.footprints@[k], board.footprints@[l]]
            0 <= k < l < board.footprints@.len() && f.component == Some(
                board.footprints@[k].reference@ + ", "@ + board.footprints@[l].reference@,
            ) && squared_distance(board.footprints@[k].at, board.footprints@[l].at)
                < 1_000_000 * 1_000_000,
{
    let fps = board.footprints@;
    let (a, b) = (fps[i], fps[j]);
    let g = crowding_finding(a, b);
    lemma_crowding(fps, fps.len(), g);
    lemma_crowding(fps, fps.len(), f);
    lemma_dfm(board, fab_house, g);
    lemma_dfm(board, fab_house, f);
}

proof fn lemma_dfm(board: BoardFacts, fab_house: Seq<char>, f: FindingView)
    ensures
        dfm_findings(board, fab_house).contains(f) <==> {
            ||| !contains_text(board.content@, "Edge.Cuts"@) && f == outline_finding()
            ||| count_layer(board.layers@, "B.Cu"@, board.layers@.len()) > 0 && count_layer(
                board.layers@,
                "F.Cu"@,
                board.layers@.len(),
            ) > 0 && f == both_sides_finding(
                count_layer(board.layers@, "F.Cu"@, board.layers@.len()),
                count_layer(board.layers@, "B.Cu"@, board.layers@.len()),
            )
            ||| crowding_findings(board.footprints@, board.footprints@.len()).contains(f)
            ||| trace_too_thin(board, fab_house) && f == trace_finding(
                fab_house,
                board.min_trace_width->0.shown@,
            )
        },
{
    let front = count_layer(board.layers@, "F.Cu"@, board.layers@.len());
    let back = count_layer(board.layers@, "B.Cu"@, board.layers@.len());
    let no_outline = !contains_text(board.content@, "Edge.Cuts"@);
    let thin = trace_too_thin(board, fab_house);
    let a = dfm_if(no_outline, outline_finding());
    let b = dfm_if(back > 0 && front > 0, both_sides_finding(front, back));
    let c = crowding_findings(board.footprints@, board.footprints@.len());
    let d = dfm_if(thin, trace_finding(fab_house, board.min_trace_width->0.shown@));
    lemma_contains_add(a + b + c, d, f);
    lemma_contains_add(a + b, c, f);
    lemma_contains_add(a, b, f);
    assert(no_outline ==> a[0] == outline_finding());
    assert(back > 0 && front > 0 ==> b[0] == both_sides_finding(front, back));
    assert(thin ==> d[0] == trace_finding(fab_house, board.min_trace_width->0.shown@));
}

proof fn lemma_count_layer(layers: Seq<String>, layer: Seq<char>, n: nat)
    requires
        n <= layers.len(),
    ensures
        count_layer(layers, layer, n) > 0 <==> exists|i: int|
            0 <= i < n && (#[trigger] layers[i])@ == layer,
    decreases n,
{
    if n > 0 {
        lemma_count_layer(layers, layer, (n - 1) as nat);
    }
}

/// A board without an outline is an error, and so is one whose stated minimum
/// trace width the fab house does not make: 0.127 mm at jlcpcb, 0.100 mm at
/// pcbway, 0.152 mm at oshpark and 0.150 mm elsewhere. Nothing else is an error.
pub proof fn law_errors_of_a_board(board: BoardFacts, fab_house: Seq<char>)
    ensures
        ({
            let least = if fab_house == "jlcpcb"@ {
                127_000int
            } else if fab_house == "pcbway"@ {
                100_000
            } else if fab_house == "oshpark"@ {
                152_000
            } else {
                150_000
            };
            (exists|f: FindingView| #[trigger]
                dfm_findings(board, fab_house).contains(f) && f.severity == Severity::Error) <==> {
                ||| !contains_text(board.content@, "Edge.Cuts"@)
                ||| board.has_setup && (board.min_trace_width matches Some(w) && w.nm < least)
            }
        }),
{
    let shown = board.min_trace_width->0.shown@;
    lemma_dfm(board, fab_house, outline_finding());
    lemma_dfm(board, fab_house, trace_finding(fab_house, shown));
    assert forall|f: FindingView| #[trigger]
        dfm_findings(board, fab_house).contains(f) && f.severity == Severity::Error implies (
    !contains_text(board.content@, "Edge.Cuts"@) || trace_too_thin(board, fab_house)) by {
        lemma_dfm(board, fab_house, f);
        lemma_crowding(board.footprints@, board.footprints@.len(), f);
    }
}

/// A board with footprints on the front and on the back is noted as such, with
/// how many there are of each, and no other board is.
pub proof fn law_two_sided_boards_are_noted(board: BoardFacts, fab_house: Seq<char>)
    ensures
        (exists|f: FindingView| #[trigger]
            dfm_findings(board, fab_house).contains(f) && f.severity == Severity::Info) <==> (
        exists|i: int| 0 <= i < board.layers@.len() && (#[trigger] board.layers@[i])@ == "F.Cu"@)
            && (exists|i: int|
            0 <= i < board.layers@.len() && (#[trigger] board.layers@[i])@ == "B.Cu"@),
{
    let front = count_layer(board.layers@, "F.Cu"@, board.layers@.len());
    let back = count_layer(board.layers@, "B.Cu"@, board.layers@.len());
    lemma_count_layer(board.layers@, "F.Cu"@, board.layers@.len());
    lemma_count_layer(board.layers@, "B.Cu"@, board.layers@.len());
    lemma_dfm(board, fab_house, both_sides_finding(front, back));
    assert forall|f: FindingView| #[trigger]
        dfm_findings(board, fab_house).contains(f) && f.severity == Severity::Info implies back > 0
        && front > 0 by {
        lemma_dfm(board, fab_house, f);
        lemma_crowding(board.footprints@, board.footprints@.len(), f);
    }
}

proof fn lemma_hundredths(squared: int, h: nat)
    requires
        h <= 100,
        squared <= 1_000_000_000_000,
        h > 0 ==> squared >= (2 * h - 1) * (2 * h - 1) * 25_000_000,
    ensures
        ({
            let r = hundredths_from(squared, h);
            &&& h <= r <= 100
            &&& squared <= (2 * r + 1) * (2 * r + 1) * 25_000_000
            &&& r > 0 ==> squared >= (2 * r - 1) * (2 * r - 1) * 25_000_000
        }),
    decreases 100 - h,
{
    let bound = (2 * h + 1) * (2 * h + 1) * 25_000_000;
    if h >= 100 {
        assert(201 * 201 * 25_000_000 >= 1_000_000_000_000int);
    } else if squared < bound || (squared == bound && h % 2 == 0) {
    } else {
        assert((2 * (h + 1) - 1) * (2 * (h + 1) - 1) * 25_000_000 == bound) by (nonlinear_arith)
            requires
                bound == (2 * h + 1) * (2 * h + 1) * 25_000_000,
        ;
        lemma_hundredths(squared, h + 1);
    }
}

/// A distance is shown to the nearest hundredth of a millimetre: it is no
/// farther from what is shown than half a hundredth.
pub proof fn law_distance_is_shown_to_the_nearest_hundredth(squared: int)
    requires
        0 <= squared <= 1_000_000_000_000,
    ensures
        exists|h: nat|
            h <= 100 && distance_text(squared) == #[trigger] decimal(h / 100) + "."@ + decimal(
                (h / 10) % 10,
            ) + decimal(h % 10) && squared <= (2 * h + 1) * (2 * h + 1) * 25_000_000 && (h > 0
                ==> squared >= (2 * h - 1) * (2 * h - 1) * 25_000_000),
{
    lemma_hundredths(squared, 0);
    let h = hundredths_from(squared, 0);
    assert(distance_text(squared) == decimal(h / 100) + "."@ + decimal((h / 10) % 10) + decimal(
        h % 10,
    ));
}

proof fn lemma_first_close(s: Seq<char>, a: int, e: int)
    requires
        0 <= a <= e < s.len(),
        s[e] == ')',
        forall|m: int| a <= m < e ==> #[trigger] s[m] != ')',
    ensures
        find_text(s, seq![')'], a) == Some(e),
{
    let close = seq![')'];
    text::lemma_find_text(s, close, a);
    assert(s.subrange(e, e + 1) =~= close);
    assert(text::occurs_at(s, close, e));
    match find_text(s, close, a) {
        Some(x) => {
            assert(s.subrange(x, x + 1)[0] == ')');
        },
        None => {},
    }
}

/// What a board states for a rule is what stands in its block, trimmed; the first
/// such block counts.
pub proof fn law_stated_rules_are_read(
    before: Seq<char>,
    rule: Seq<char>,
    value: Seq<char>,
    rest: Seq<char>,
)
    requires
        !value.contains(')'),
        find_text(
            before + ("("@ + rule + " "@) + value + seq![')'] + rest,
            "("@ + rule + " "@,
            0,
        ) == Some(before.len() as int),
    ensures
        rule_text(before + ("("@ + rule + " "@) + value + seq![')'] + rest, rule) == Some(
            trimmed(value),
        ),
{
    let mark = "("@ + rule + " "@;
    let s = before + mark + value + seq![')'] + rest;
    let a = before.len() + mark.len();
    let e = a + value.len();
    assert forall|m: int| a <= m < e implies #[trigger] s[m] != ')' by {
        assert(s[m] == value[m - a]);
        if value[m - a] == ')' {
            assert(value.contains(')'));
        }
    }
    assert(s[e as int] == ')');
    lemma_first_close(s, a as int, e as int);
    assert(s.subrange(a as int, e as int) =~= value);
}

/// A footprint is placed with its reference exactly if it has one and its
/// position is known.
pub proof fn law_placed_footprints(
    facts: Seq<FootprintView>,
    places: Seq<Option<Point>>,
    n: nat,
    r: Seq<char>,
    p: Point,
)
    requires
        n <= facts.len(),
    ensures
        placed_of(facts, places, n).contains((r, p)) <==> exists|i: int|
            0 <= i < n && i < places.len() && (#[trigger] facts[i]).reference == Some(r)
                && places[i] == Some(p),
    decreases n,
{
    if n > 0 {
        law_placed_footprints(facts, places, (n - 1) as nat, r, p);
        let rest = placed_of(facts, places, (n - 1) as nat);
        if facts[n - 1].reference is Some && n <= places.len() && places[n - 1] is Some {
            lemma_contains_push(rest, (facts[n - 1].reference->0, places[n - 1]->0), (r, p));
        }
    }
}

/// The layers of a board's footprints are those that its footprints name.
pub proof fn law_layers_of_footprints(facts: Seq<FootprintView>, n: nat, l: Seq<char>)
    requires
        n <= facts.len(),
    ensures
        layers_of(facts, n).contains(l) <==> exists|i: int|
            0 <= i < n && (#[trigger] facts[i]).layer == Some(l),
    decreases n,
{
    if n > 0 {
        law_layers_of_footprints(facts, (n - 1) as nat, l);
        if facts[n - 1].layer is Some {
            lemma_contains_push(layers_of(facts, (n - 1) as nat), facts[n - 1].layer->0, l);
        }
    }
}

} // verus!
