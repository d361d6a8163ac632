//! Rule check reports of `kicad-cli`.
use crate::json::{json_document, parse_json, Json, JsonView};
use crate::schematic::{copy_text_option, text_option};
use crate::seqs::{models, push_model};
use crate::text;
use vstd::prelude::*;

verus! {

/// A position in a report. Coordinates are kept as the numerals that the
/// report has for them.
pub struct ErcPos {
    pub x: String,
    pub y: String,
}

/// A violation in an electrical rules report.
pub struct ErcViolation {
    pub severity: String,
    pub description: String,
    pub sheet: Option<String>,
    pub pos: Option<ErcPos>,
}

/// A board item that a violation involves.
pub struct DrcItem {
    pub description: String,
    pub uuid: String,
    pub pos: Option<ErcPos>,
}

/// A violation in a design rules report.
pub struct DrcViolation {
    pub severity: String,
    pub description: String,
    /// The key by which the rule is fixed or waived.
    pub rule: String,
    /// The marker's position, else that of the first item that has one.
    pub pos: Option<ErcPos>,
    pub layer: Option<String>,
    pub items: Vec<DrcItem>,
}

/// A design rules report. A category of `None` was not reported at all, which
/// is not the same as one without violations.
pub struct DrcReport {
    pub violations: Vec<DrcViolation>,
    pub unconnected_items: Option<Vec<DrcViolation>>,
    pub schematic_parity: Option<Vec<DrcViolation>>,
}

/// The model of a position.
pub ghost struct PosView {
    pub x: Seq<char>,
    pub y: Seq<char>,
}

/// The model of an electrical violation.
pub ghost struct ErcView {
    pub severity: Seq<char>,
    pub description: Seq<char>,
    pub sheet: Option<Seq<char>>,
    pub pos: Option<PosView>,
}

/// The model of an involved item.
pub ghost struct DrcItemView {
    pub description: Seq<char>,
    pub uuid: Seq<char>,
    pub pos: Option<PosView>,
}

/// The model of a design rule violation.
pub ghost struct DrcView {
    pub severity: Seq<char>,
    pub description: Seq<char>,
    pub rule: Seq<char>,
    pub pos: Option<PosView>,
    pub layer: Option<Seq<char>>,
    pub items: Seq<DrcItemView>,
}

/// The model of a design rules report.
pub ghost struct ReportView {
    pub violations: Seq<DrcView>,
    pub unconnected_items: Option<Seq<DrcView>>,
    pub schematic_parity: Option<Seq<DrcView>>,
}

impl View for ErcPos {
    type V = PosView;

    open spec fn view(&self) -> PosView {
        PosView { x: self.x@, y: self.y@ }
    }
}

/// The model of an optional position.
pub open spec fn pos_option(p: Option<ErcPos>) -> Option<PosView> {
    match p {
        Some(p) => Some(p@),
        None => None,
    }
}

impl View for ErcViolation {
    type V = ErcView;

    open spec fn view(&self) -> ErcView {
        ErcView {
            severity: self.severity@,
            description: self.description@,
            sheet: text_option(self.sheet),
            pos: pos_option(self.pos),
        }
    }
}

impl View for DrcItem {
    type V = DrcItemView;

    open spec fn view(&self) -> DrcItemView {
        DrcItemView {
            description: self.description@,
            uuid: self.uuid@,
            pos: pos_option(self.pos),
        }
    }
}

impl View for DrcViolation {
    type V = DrcView;

    open spec fn view(&self) -> DrcView {
        DrcView {
            severity: self.severity@,
            description: self.description@,
            rule: self.rule@,
            pos: pos_option(self.pos),
            layer: text_option(self.layer),
            items: models(self.items@),
        }
    }
}

/// The model of an optional category.
pub open spec fn category_option(c: Option<Vec<DrcViolation>>) -> Option<Seq<DrcView>> {
    match c {
        Some(list) => Some(models(list@)),
        None => None,
    }
}

impl View for DrcReport {
    type V = ReportView;

    open spec fn view(&self) -> ReportView {
        ReportView {
            violations: models(self.violations@),
            unconnected_items: category_option(self.unconnected_items),
            schematic_parity: category_option(self.schematic_parity),
        }
    }
}

impl ReportView {
    /// The violations of every category.
    pub open spec fn all(self) -> Seq<DrcView> {
        self.violations + (match self.unconnected_items {
            Some(list) => list,
            None => Seq::empty(),
        }) + (match self.schematic_parity {
            Some(list) => list,
            None => Seq::empty(),
        })
    }
}

/// How many of the violations are errors.
pub open spec fn count_errors(list: Seq<DrcView>) -> nat
    decreases list.len(),
{
    if list.len() == 0 {
        0
    } else {
        count_errors(list.drop_last()) + (if list.last().severity == "error"@ {
            1nat
        } else {
            0
        })
    }
}

/// The errors of two lists together.
pub proof fn lemma_count_errors_add(a: Seq<DrcView>, b: Seq<DrcView>)
    ensures
        count_errors(a + b) == count_errors(a) + count_errors(b),
    decreases b.len(),
{
    if b.len() == 0 {
        assert(a + b =~= a);
    } else {
        assert((a + b).drop_last() =~= a + b.drop_last());
        lemma_count_errors_add(a, b.drop_last());
    }
}

fn push_all<'a>(out: &mut Vec<&'a DrcViolation>, list: &'a Vec<DrcViolation>)
    ensures
        models(final(out)@) == models(old(out)@) + models(list@),
{
    let ghost had = models(out@);
    let mut i: usize = 0;
    proof {
        assert(had + models(list@).take(0) =~= had);
    }
    while i < list.len()
        invariant
            i <= list@.len(),
            models(out@) == had + models(list@).take(i as int),
        decreases list@.len() - i,
    {
        push_model(out, &list[i]);
        proof {
            assert((had + models(list@).take(i as int)).push(list@[i as int]@) =~= had + models(
                list@,
            ).take(i + 1));
        }
        i += 1;
    }
    proof {
        assert(models(list@).take(list@.len() as int) =~= models(list@));
    }
}

impl DrcReport {
    /// The violations of every category: a board is clean only if there are
    /// none at all.
    pub fn all(&self) -> (out: Vec<&DrcViolation>)
        ensures
            models(out@) == self@.all(),
    {
        let mut out: Vec<&DrcViolation> = Vec::new();
        push_all(&mut out, &self.violations);
        if let Some(list) = &self.unconnected_items {
            push_all(&mut out, list);
        }
        if let Some(list) = &self.schematic_parity {
            push_all(&mut out, list);
        }
        proof {
            assert(models(out@) =~= self@.all());
        }
        out
    }

    /// How many violations, of whatever category, are errors.
    pub fn error_count(&self) -> (n: usize)
        ensures
            n == count_errors(self@.all()),
    {
        let all = self.all();
        let mut n: usize = 0;
        let mut i: usize = 0;
        while i < all.len()
            invariant
                i <= all@.len(),
                n <= i,
                n == count_errors(models(all@).take(i as int)),
            decreases all@.len() - i,
        {
            proof {
                assert(models(all@).take(i + 1).drop_last() =~= models(all@).take(i as int));
                assert(models(all@).take(i + 1).last() == all@[i as int]@);
            }
            if text::same(all[i].severity.as_str(), "error") {
                n += 1;
            }
            i += 1;
        }
        proof {
            assert(models(all@).take(all@.len() as int) =~= models(all@));
        }
        n
    }

    /// The categories that were not reported, by name.
    pub fn missing_categories(&self) -> (out: Vec<&'static str>)
        ensures
            models(out@) == missing(self@),
    {
        let mut out: Vec<&'static str> = Vec::new();
        if self.unconnected_items.is_none() {
            push_model(&mut out, "unconnected_items");
        }
        if self.schematic_parity.is_none() {
            push_model(&mut out, "schematic_parity");
        }
        proof {
            assert(models(out@) =~= missing(self@));
        }
        out
    }
}

/// The categories that were not reported, by name.
pub open spec fn missing(r: ReportView) -> Seq<Seq<char>> {
    (if r.unconnected_items is None {
        seq!["unconnected_items"@]
    } else {
        Seq::empty()
    }) + (if r.schematic_parity is None {
        seq!["schematic_parity"@]
    } else {
        Seq::empty()
    })
}

// ─── Reading ──────────────────────────────────────────────────────────────

/// The numeral of an entry.
pub open spec fn numeral(v: JsonView, name: Seq<char>) -> Option<Seq<char>> {
    match v.field(name) {
        Some(JsonView::Number(t)) => Some(t),
        _ => None,
    }
}

/// The position that a value has under `pos`, if both coordinates are numbers.
pub open spec fn position(v: JsonView) -> Option<PosView> {
    match v.field("pos"@) {
        Some(p) => match (numeral(p, "x"@), numeral(p, "y"@)) {
            (Some(x), Some(y)) => Some(PosView { x, y }),
            _ => None,
        },
        None => None,
    }
}

/// The text of an entry, or else the given one.
pub open spec fn text_or(v: JsonView, name: Seq<char>, default: Seq<char>) -> Seq<char> {
    match v.field_text(name) {
        Some(t) => t,
        None => default,
    }
}

fn read_numeral(v: &Json, name: &str) -> (r: Option<String>)
    ensures
        text_option(r) == numeral(v@, name@),
{
    match v.get(name) {
        Some(Json::Number(t)) => Some(t.clone()),
        _ => None,
    }
}

fn read_position(v: &Json) -> (r: Option<ErcPos>)
    ensures
        pos_option(r) == position(v@),
{
    match v.get("pos") {
        Some(p) => match (read_numeral(p, "x"), read_numeral(p, "y")) {
            (Some(x), Some(y)) => Some(ErcPos { x, y }),
            _ => None,
        },
        None => None,
    }
}

fn read_text_or(v: &Json, name: &str, default: &str) -> (r: String)
    ensures
        r@ == text_or(v@, name@, default@),
{
    match v.get_text(name) {
        Some(t) => t.clone(),
        None => default.to_owned(),
    }
}

fn read_text(v: &Json, name: &str) -> (r: Option<String>)
    ensures
        text_option(r) == v@.field_text(name@),
{
    match v.get_text(name) {
        Some(t) => Some(t.clone()),
        None => None,
    }
}

/// The first item of a violation.
pub open spec fn first_item(v: JsonView) -> Option<JsonView> {
    match v.field_items("items"@) {
        Some(items) => if items.len() > 0 {
            Some(items[0])
        } else {
            None
        },
        None => None,
    }
}

/// What an electrical violation of a sheet says. The description of its first
/// item names the offender and is added to that of the violation.
pub open spec fn erc_violation(v: JsonView, sheet: Option<Seq<char>>) -> ErcView {
    let base = text_or(v, "description"@, Seq::empty());
    ErcView {
        severity: text_or(v, "severity"@, "error"@),
        description: match first_item(v) {
            Some(item) => match item.field_text("description"@) {
                Some(d) => if d.len() > 0 {
                    base + ": "@ + d
                } else {
                    base
                },
                None => base,
            },
            None => base,
        },
        sheet,
        pos: match first_item(v) {
            Some(item) => position(item),
            None => None,
        },
    }
}

/// The violations of the first `n` sheets.
pub open spec fn erc_violations(sheets: Seq<JsonView>, n: nat) -> Seq<ErcView>
    decreases n,
{
    if n == 0 {
        Seq::empty()
    } else {
        let rest = erc_violations(sheets, (n - 1) as nat);
        let sheet = sheets[n - 1];
        match sheet.field_items("violations"@) {
            Some(list) => rest + list.map_values(
                |v: JsonView| erc_violation(v, sheet.field_text("path"@)),
            ),
            None => rest,
        }
    }
}

/// The violations of an electrical rules report, sheet by sheet. A report
/// without sheets has none.
pub open spec fn erc_report(raw: JsonView) -> Seq<ErcView> {
    match raw.field_items("sheets"@) {
        Some(sheets) => erc_violations(sheets, sheets.len()),
        None => Seq::empty(),
    }
}

fn read_first_item(v: &Json) -> (r: Option<&Json>)
    ensures
        match r {
            Some(i) => first_item(v@) == Some(i@),
            None => first_item(v@) is None,
        },
{
    match v.get_items("items") {
        Some(items) => if items.len() > 0 {
            proof {
                assert(models(items@)[0] == items@[0]@);
            }
            Some(&items[0])
        } else {
            None
        },
        None => None,
    }
}

fn read_erc_violation(v: &Json, sheet: &Option<String>) -> (r: ErcViolation)
    ensures
        r@ == erc_violation(v@, text_option(*sheet)),
{
    let first = read_first_item(v);
    let empty = String::new();
    let mut description = read_text_or(v, "description", empty.as_str());
    if let Some(item) = first {
        if let Some(detail) = item.get_text("description") {
            if !detail.as_str().is_empty() {
                description = text::cat3(description.as_str(), ": ", detail.as_str());
            }
        }
    }
    let pos = match first {
        Some(item) => read_position(item),
        None => None,
    };
    ErcViolation {
        severity: read_text_or(v, "severity", "error"),
        description,
        sheet: copy_text_option(sheet),
        pos,
    }
}

/// The violations of an electrical rules report, which nests them under its
/// sheets.
pub fn parse_erc_json(raw: &Json) -> (out: Vec<ErcViolation>)
    ensures
        models(out@) == erc_report(raw@),
{
    let mut out: Vec<ErcViolation> = Vec::new();
    proof {
        assert(models(out@) =~= Seq::empty());
    }
    if let Some(sheets) = raw.get_items("sheets") {
        let mut i: usize = 0;
        let ghost all = models(sheets@);
        while i < sheets.len()
            invariant
                i <= sheets@.len(),
                all == models(sheets@),
                models(out@) == erc_violations(all, i as nat),
            decreases sheets@.len() - i,
        {
            let sheet = &sheets[i];
            let ghost had = models(out@);
            proof {
                assert(all[i as int] == sheet@);
            }
            let path = read_text(sheet, "path");
            if let Some(list) = sheet.get_items("violations") {
                let ghost told = models(list@).map_values(
                    |v: JsonView| erc_violation(v, text_option(path)),
                );
                let mut j: usize = 0;
                proof {
                    assert(had + told.take(0) =~= had);
                }
                while j < list.len()
                    invariant
                        j <= list@.len(),
                        told == models(list@).map_values(
                            |v: JsonView| erc_violation(v, text_option(path)),
                        ),
                        models(out@) == had + told.take(j as int),
                    decreases list@.len() - j,
                {
                    let v = read_erc_violation(&list[j], &path);
                    proof {
                        assert(told[j as int] == v@);
                        assert((had + told.take(j as int)).push(v@) =~= had + told.take(j + 1));
                    }
                    push_model(&mut out, v);
                    j += 1;
                }
                proof {
                    assert(told.take(list@.len() as int) =~= told);
                }
            }
            i += 1;
        }
    }
    out
}

/// What an involved item says.
pub open spec fn drc_item(v: JsonView) -> DrcItemView {
    DrcItemView {
        description: text_or(v, "description"@, Seq::empty()),
        uuid: text_or(v, "uuid"@, Seq::empty()),
        pos: position(v),
    }
}

/// The items that a violation involves.
pub open spec fn drc_items(v: JsonView) -> Seq<DrcItemView> {
    match v.field_items("items"@) {
        Some(items) => items.map_values(|i: JsonView| drc_item(i)),
        None => Seq::empty(),
    }
}

/// The position of the first item that has one.
pub open spec fn first_position(items: Seq<DrcItemView>) -> Option<PosView>
    decreases items.len(),
{
    if items.len() == 0 {
        None
    } else if items[0].pos is Some {
        items[0].pos
    } else {
        first_position(items.drop_first())
    }
}

/// What a violation of the design rules says.
pub open spec fn drc_violation(v: JsonView) -> DrcView {
    DrcView {
        severity: text_or(v, "severity"@, "error"@),
        description: text_or(v, "description"@, Seq::empty()),
        rule: text_or(v, "type"@, Seq::empty()),
        pos: match position(v) {
            Some(p) => Some(p),
            None => first_position(drc_items(v)),
        },
        layer: v.field_text("layer"@),
        items: drc_items(v),
    }
}

/// The violations of a category, if the report has it.
pub open spec fn category(raw: JsonView, key: Seq<char>) -> Option<Seq<DrcView>> {
    match raw.field_items(key) {
        Some(list) => Some(list.map_values(|v: JsonView| drc_violation(v))),
        None => None,
    }
}

fn copy_pos(p: &Option<ErcPos>) -> (r: Option<ErcPos>)
    ensures
        pos_option(r) == pos_option(*p),
{
    match p {
        Some(p) => Some(ErcPos { x: p.x.clone(), y: p.y.clone() }),
        None => None,
    }
}

fn read_items(v: &Json) -> (out: Vec<DrcItem>)
    ensures
        models(out@) == drc_items(v@),
{
    let mut out: Vec<DrcItem> = Vec::new();
    proof {
        assert(models(out@) =~= Seq::empty());
    }
    if let Some(items) = v.get_items("items") {
        let ghost told = models(items@).map_values(|i: JsonView| drc_item(i));
        let mut i: usize = 0;
        while i < items.len()
            invariant
                i <= items@.len(),
                told == models(items@).map_values(|i: JsonView| drc_item(i)),
                models(out@) == told.take(i as int),
            decreases items@.len() - i,
        {
            let empty = String::new();
            let item = DrcItem {
                description: read_text_or(&items[i], "description", empty.as_str()),
                uuid: read_text_or(&items[i], "uuid", empty.as_str()),
                pos: read_position(&items[i]),
            };
            proof {
                assert(told[i as int] == item@);
            }
            push_model(&mut out, item);
            i += 1;
        }
        proof {
            assert(told.take(items@.len() as int) =~= told);
        }
    }
    out
}

fn find_position(items: &Vec<DrcItem>) -> (r: Option<ErcPos>)
    ensures
        pos_option(r) == first_position(models(items@)),
{
    let ghost all = models(items@);
    let mut i: usize = 0;
    proof {
        assert(all.skip(0) =~= all);
    }
    while i < items.len()
        invariant
            i <= items@.len(),
            all == models(items@),
            first_position(all) == first_position(all.skip(i as int)),
        decreases items@.len() - i,
    {
        proof {
            assert(all.skip(i as int)[0] == items@[i as int]@);
            assert(all.skip(i as int).drop_first() =~= all.skip(i + 1));
        }
        if items[i].pos.is_some() {
            return copy_pos(&items[i].pos);
        }
        i += 1;
    }
    None
}

fn read_drc_violation(v: &Json) -> (r: DrcViolation)
    ensures
        r@ == drc_violation(v@),
{
    let items = read_items(v);
    let pos = match read_position(v) {
        Some(p) => Some(p),
        None => find_position(&items),
    };
    let empty = String::new();
    DrcViolation {
        severity: read_text_or(v, "severity", "error"),
        description: read_text_or(v, "description", empty.as_str()),
        rule: read_text_or(v, "type", empty.as_str()),
        pos,
        layer: read_text(v, "layer"),
        items,
    }
}

fn read_category(raw: &Json, key: &str) -> (r: Option<Vec<DrcViolation>>)
    ensures
        category_option(r) == category(raw@, key@),
{
    match raw.get_items(key) {
        None => None,
        Some(list) => {
            let mut out: Vec<DrcViolation> = Vec::new();
            let ghost told = models(list@).map_values(|v: JsonView| drc_violation(v));
            let mut i: usize = 0;
            proof {
                assert(models(out@) =~= told.take(0));
            }
            while i < list.len()
                invariant
                    i <= list@.len(),
                    told == models(list@).map_values(|v: JsonView| drc_violation(v)),
                    models(out@) == told.take(i as int),
                decreases list@.len() - i,
            {
                let v = read_drc_violation(&list[i]);
                proof {
                    assert(told[i as int] == v@);
                }
                push_model(&mut out, v);
                i += 1;
            }
            proof {
                assert(told.take(list@.len() as int) =~= told);
            }
            Some(out)
        },
    }
}

/// The design rules report that a document holds. A document without a
/// `violations` array is no report: reading it as an empty one would show a
/// clean board.
pub fn parse_drc_report(raw: &Json) -> (r: Result<DrcReport, String>)
    ensures
        r is Ok <==> category(raw@, "violations"@) is Some,
        r matches Ok(report) ==> report@ == (ReportView {
            violations: category(raw@, "violations"@)->0,
            unconnected_items: category(raw@, "unconnected_items"@),
            schematic_parity: category(raw@, "schematic_parity"@),
        }),
        r matches Err(e) ==> e@
            == "DRC report has no 'violations' array; kicad-cli did not produce a report"@,
{
    match read_category(raw, "violations") {
        Some(violations) => Ok(
            DrcReport {
                violations,
                unconnected_items: read_category(raw, "unconnected_items"),
                schematic_parity: read_category(raw, "schematic_parity"),
            },
        ),
        None => Err(
            "DRC report has no 'violations' array; kicad-cli did not produce a report".to_owned(),
        ),
    }
}

/// An unrouted net is reported among the unconnected items, and an error there
/// counts like one among the violations.
pub proof fn law_unconnected_errors_count(r: ReportView)
    requires
        r.unconnected_items is Some,
    ensures
        count_errors(r.all()) >= count_errors(r.violations) + count_errors(r.unconnected_items->0),
        missing(r).len() == 0 ==> count_errors(r.all()) == count_errors(r.violations)
            + count_errors(r.unconnected_items->0) + count_errors(r.schematic_parity->0),
{
    let parity = match r.schematic_parity {
        Some(list) => list,
        None => Seq::empty(),
    };
    lemma_count_errors_add(r.violations, r.unconnected_items->0);
    lemma_count_errors_add(r.violations + r.unconnected_items->0, parity);
}

/// A category that the document does not have is reported missing, never as
/// one without violations.
pub proof fn law_unreported_is_not_zero(raw: JsonView, r: ReportView)
    requires
        r.unconnected_items == category(raw, "unconnected_items"@),
        r.schematic_parity == category(raw, "schematic_parity"@),
    ensures
        missing(r).contains("unconnected_items"@) <==> raw.field_items("unconnected_items"@) is None,
        missing(r).contains("schematic_parity"@) <==> raw.field_items("schematic_parity"@) is None,
{
    reveal_strlit("unconnected_items");
    reveal_strlit("schematic_parity");
    assert("unconnected_items"@.len() != "schematic_parity"@.len());
    let m = missing(r);
    if r.unconnected_items is None {
        assert(m[0] == "unconnected_items"@);
    }
    if r.schematic_parity is None {
        assert(m.last() == "schematic_parity"@);
        assert(m[m.len() - 1] == "schematic_parity"@);
    }
}

// ─── Files ────────────────────────────────────────────────────────────────

/// The violations that the text of an electrical rules report lists; an error
/// where the text is no JSON.
pub fn read_erc_report(text: &str) -> (r: Result<Vec<ErcViolation>, String>)
    ensures
        match json_document(text@) {
            Ok(raw) => r matches Ok(list) && models(list@) == erc_report(raw),
            Err(e) => r matches Err(m) && m@ == e,
        },
{
    match parse_json(text) {
        Ok(raw) => Ok(parse_erc_json(&raw)),
        Err(e) => Err(e),
    }
}

/// The report that the text of a design rules report holds; an error where the
/// text is no JSON, or no such report.
pub fn read_drc_report(text: &str) -> (r: Result<DrcReport, String>)
    ensures
        match json_document(text@) {
            Ok(raw) => match category(raw, "violations"@) {
                Some(violations) => r matches Ok(report) && report@ == (ReportView {
                    violations,
                    unconnected_items: category(raw, "unconnected_items"@),
                    schematic_parity: category(raw, "schematic_parity"@),
                }),
                None => r matches Err(m) && m@
                    == "DRC report has no 'violations' array; kicad-cli did not produce a report"@,
            },
            Err(e) => r matches Err(m) && m@ == e,
        },
{
    match parse_json(text) {
        Ok(raw) => parse_drc_report(&raw),
        Err(e) => Err(e),
    }
}

/// An error anywhere in a report is counted, and nothing else is: the count is
/// zero exactly if no violation of any category has the severity of an error.
pub proof fn law_errors_are_counted(list: Seq<DrcView>)
    ensures
        count_errors(list) == 0 <==> forall|i: int|
            0 <= i < list.len() ==> (#[trigger] list[i]).severity != "error"@,
        count_errors(list) <= list.len(),
        (forall|i: int| 0 <= i < list.len() ==> (#[trigger] list[i]).severity == "error"@)
            ==> count_errors(list) == list.len(),
    decreases list.len(),
{
    if list.len() > 0 {
        let before = list.drop_last();
        law_errors_are_counted(before);
        assert forall|i: int| 0 <= i < before.len() implies (#[trigger] list[i]) == before[i] by {}
        assert(list[list.len() - 1] == list.last());
        if forall|i: int| 0 <= i < list.len() ==> (#[trigger] list[i]).severity != "error"@ {
            assert forall|i: int| 0 <= i < before.len() implies (#[trigger] before[i]).severity
                != "error"@ by {
                assert(list[i] == before[i]);
            }
        }
        if forall|i: int| 0 <= i < list.len() ==> (#[trigger] list[i]).severity == "error"@ {
            assert forall|i: int| 0 <= i < before.len() implies (#[trigger] before[i]).severity
                == "error"@ by {
                assert(list[i] == before[i]);
            }
        }
    }
}

/// A violation without a severity is an error, so that nothing is played down
/// for want of a word; one with a severity keeps it.
pub proof fn law_unstated_severity_is_error(v: JsonView, sheet: Option<Seq<char>>)
    ensures
        v.field_text("severity"@) is None ==> drc_violation(v).severity == "error"@
            && erc_violation(v, sheet).severity == "error"@,
        v.field_text("severity"@) matches Some(s) ==> drc_violation(v).severity == s
            && erc_violation(v, sheet).severity == s,
        v.field_text("type"@) matches Some(t) ==> drc_violation(v).rule == t,
        v.field_text("description"@) matches Some(t) ==> drc_violation(v).description == t,
{
}

/// Every violation of every sheet of an electrical rules report is reported, with
/// the path of its sheet.
pub proof fn law_every_electrical_violation_is_reported(raw: JsonView, i: int, k: int)
    requires
        raw.field_items("sheets"@) matches Some(sheets) && 0 <= i < sheets.len() && (
        sheets[i].field_items("violations"@) matches Some(list) && 0 <= k < list.len()),
    ensures
        exists|m: int|
            0 <= m < erc_report(raw).len() && (#[trigger] erc_report(raw)[m]).sheet
                == raw.field_items("sheets"@)->0[i].field_text("path"@) && (raw.field_items(
                "sheets"@,
            )->0[i].field_items("violations"@)->0[k].field_text("severity"@) matches Some(s)
                ==> erc_report(raw)[m].severity == s),
{
    let sheets = raw.field_items("sheets"@)->0;
    lemma_erc_violation(sheets, sheets.len(), i, k);
    let x = erc_violation(
        sheets[i].field_items("violations"@)->0[k],
        sheets[i].field_text("path"@),
    );
    let m = erc_report(raw).index_of(x);
    assert(erc_report(raw)[m] == x);
}

proof fn lemma_erc_violation(sheets: Seq<JsonView>, n: nat, i: int, k: int)
    requires
        0 <= i < n <= sheets.len(),
        sheets[i].field_items("violations"@) matches Some(list) && 0 <= k < list.len(),
    ensures
        erc_violations(sheets, n).contains(
            erc_violation(
                sheets[i].field_items("violations"@)->0[k],
                sheets[i].field_text("path"@),
            ),
        ),
    decreases n,
{
    let x = erc_violation(
        sheets[i].field_items("violations"@)->0[k],
        sheets[i].field_text("path"@),
    );
    let rest = erc_violations(sheets, (n - 1) as nat);
    let all = erc_violations(sheets, n);
    let sheet = sheets[n - 1];
    if i < n - 1 {
        lemma_erc_violation(sheets, (n - 1) as nat, i, k);
        let m = rest.index_of(x);
        match sheet.field_items("violations"@) {
            Some(list) => {
                assert(all[m] == x);
            },
            None => {},
        }
    } else {
        let list = sheet.field_items("violations"@)->0;
        let added = list.map_values(|v: JsonView| erc_violation(v, sheet.field_text("path"@)));
        assert(added[k] == x);
        assert(all[rest.len() + k] == x);
    }
}

/// The position of a violation is its own, or else that of the first of its items
/// that has one; without either it has none.
pub proof fn law_positions_of_violations(v: JsonView)
    ensures
        position(v) matches Some(p) ==> drc_violation(v).pos == Some(p),
        position(v) is None ==> match drc_violation(v).pos {
            Some(p) => exists|i: int|
                0 <= i < drc_items(v).len() && (#[trigger] drc_items(v)[i]).pos == Some(p)
                    && forall|j: int| 0 <= j < i ==> (#[trigger] drc_items(v)[j]).pos is None,
            None => forall|i: int|
                0 <= i < drc_items(v).len() ==> (#[trigger] drc_items(v)[i]).pos is None,
        },
        v.field_items("items"@) matches Some(items) ==> drc_items(v).len() == items.len(),
{
    lemma_first_position(drc_items(v));
}

proof fn lemma_first_position(items: Seq<DrcItemView>)
    ensures
        match first_position(items) {
            Some(p) => exists|i: int|
                0 <= i < items.len() && (#[trigger] items[i]).pos == Some(p) && forall|j: int|
                    0 <= j < i ==> (#[trigger] items[j]).pos is None,
            None => forall|i: int| 0 <= i < items.len() ==> (#[trigger] items[i]).pos is None,
        },
    decreases items.len(),
{
    if items.len() > 0 {
        if items[0].pos is Some {
            assert(items[0].pos == first_position(items));
        } else {
            let rest = items.drop_first();
            lemma_first_position(rest);
            match first_position(rest) {
                Some(p) => {
                    let i = choose|i: int|
                        0 <= i < rest.len() && (#[trigger] rest[i]).pos == Some(p) && forall|
                            j: int,
                        |
                            0 <= j < i ==> (#[trigger] rest[j]).pos is None;
                    assert(items[i + 1] == rest[i]);
                    assert forall|j: int| 0 <= j < i + 1 implies (#[trigger] items[j]).pos
                        is None by {
                        if j > 0 {
                            assert(rest[j - 1] == items[j]);
                        }
                    }
                    assert(items[i + 1].pos == Some(p));
                },
                None => {
                    assert forall|i: int| 0 <= i < items.len() implies (#[trigger] items[i]).pos
                        is None by {
                        if i > 0 {
                            assert(rest[i - 1] == items[i]);
                        }
                    }
                },
            }
        }
    }
}

/// A position counts only with both coordinates as numbers.
pub proof fn law_positions_have_both_coordinates(v: JsonView)
    ensures
        position(v) matches Some(p) ==> (v.field("pos"@) matches Some(at) && at.field("x"@) == Some(
            JsonView::Number(p.x),
        ) && at.field("y"@) == Some(JsonView::Number(p.y))),
        v.field("pos"@) is None ==> position(v) is None,
{
}

} // verus!
