//! Arguments and filters of board exports.
use crate::json::{Json, JsonView};
use crate::reports::{missing, DrcReport, DrcView, DrcViolation};
use crate::seqs::{models, push_model};
use crate::text::{self, decimal};
use vstd::prelude::*;

verus! {

/// An argument that is refused: which one, why, and in words.
pub struct InvalidArgument {
    pub field: String,
    pub reason: String,
    pub message: String,
}

/// The model of a refused argument.
pub ghost struct InvalidView {
    pub field: Seq<char>,
    pub reason: Seq<char>,
    pub message: Seq<char>,
}

impl View for InvalidArgument {
    type V = InvalidView;

    open spec fn view(&self) -> InvalidView {
        InvalidView { field: self.field@, reason: self.reason@, message: self.message@ }
    }
}

/// An argument that is refused for that reason.
pub open spec fn invalid(field: Seq<char>, reason: Seq<char>) -> InvalidView {
    InvalidView {
        field,
        reason,
        message: "Argument '"@ + field + "' is invalid: "@ + reason,
    }
}

/// An argument of an export that is refused for that reason.
pub fn invalid_export_argument(field: &str, reason: &str) -> (r: InvalidArgument)
    ensures
        r@ == invalid(field@, reason@),
{
    InvalidArgument {
        field: field.to_owned(),
        reason: reason.to_owned(),
        message: text::cat4("Argument '", field, "' is invalid: ", reason),
    }
}

/// The rank of a severity: two for an error, one for a warning, zero for
/// anything else.
pub open spec fn rank(s: Seq<char>) -> int {
    if s == "error"@ {
        2
    } else if s == "warning"@ {
        1
    } else {
        0
    }
}

/// The rank of a severity.
pub fn severity_rank(s: &str) -> (r: u8)
    ensures
        r == rank(s@),
{
    if text::same(s, "error") {
        2
    } else if text::same(s, "warning") {
        1
    } else {
        0
    }
}

// ─── Layers ───────────────────────────────────────────────────────────────

/// Position of the first value that is no text.
pub open spec fn first_non_text(items: Seq<JsonView>, from: int) -> Option<int>
    decreases items.len() - from,
{
    if from < 0 || from >= items.len() {
        None
    } else if items[from].text() is None {
        Some(from)
    } else {
        first_non_text(items, from + 1)
    }
}

/// The texts of an optional array argument. One that is missing is empty; one
/// that is no array, or an item that is no text, is refused by name.
pub open spec fn string_array(args: JsonView, field: Seq<char>) -> Result<
    Seq<Seq<char>>,
    InvalidView,
> {
    match args.field(field) {
        None => Ok(Seq::empty()),
        Some(JsonView::Array(items)) => match first_non_text(items, 0) {
            Some(i) => Err(
                invalid(
                    field + "["@ + decimal(i as nat) + "]"@,
                    "must be a layer name string"@,
                ),
            ),
            None => Ok(items.map_values(|v: JsonView| v->Text_0)),
        },
        Some(_) => Err(invalid(field, "must be an array"@)),
    }
}

/// The texts of an optional array argument.
pub fn optional_string_array(args: &Json, field: &str) -> (r: Result<Vec<String>, InvalidArgument>)
    ensures
        match r {
            Ok(list) => string_array(args@, field@) == Ok::<Seq<Seq<char>>, InvalidView>(
                models(list@),
            ),
            Err(e) => string_array(args@, field@) == Err::<Seq<Seq<char>>, InvalidView>(e@),
        },
{
    broadcast use crate::json::lemma_array_view;

    let mut out: Vec<String> = Vec::new();
    proof {
        assert(models(out@) =~= Seq::empty());
    }
    match args.get(field) {
        None => Ok(out),
        Some(Json::Array(items)) => {
            let ghost all = models(items@);
            let ghost want = all.map_values(|v: JsonView| v->Text_0);
            let mut i: usize = 0;
            while i < items.len()
                invariant
                    i <= items@.len(),
                    all == models(items@),
                    args@.field(field@) == Some(JsonView::Array(all)),
                    want == all.map_values(|v: JsonView| v->Text_0),
                    first_non_text(all, 0) == first_non_text(all, i as int),
                    models(out@) == want.take(i as int),
                decreases items@.len() - i,
            {
                proof {
                    assert(all[i as int] == items@[i as int]@);
                }
                match items[i].as_text() {
                    Some(t) => {
                        proof {
                            assert(want[i as int] == t@);
                        }
                        push_model(&mut out, t.clone());
                    },
                    None => {
                        let n = text::decimal_text(i as u64);
                        let name = text::cat4(field, "[", n.as_str(), "]");
                        return Err(
                            invalid_export_argument(name.as_str(), "must be a layer name string"),
                        );
                    },
                }
                i += 1;
            }
            proof {
                assert(want.take(want.len() as int) =~= want);
            }
            Ok(out)
        },
        Some(_) => Err(invalid_export_argument(field, "must be an array")),
    }
}

/// A layer of a board.
pub struct BoardLayer {
    pub name: String,
    pub copper: bool,
}

/// Whether a fab needs the layer: copper, solder mask, silkscreen and outline.
pub open spec fn is_fabrication_layer(l: BoardLayer) -> bool {
    l.copper || l.name@ == "F.Mask"@ || l.name@ == "B.Mask"@ || l.name@ == "F.SilkS"@ || l.name@
        == "B.SilkS"@ || l.name@ == "Edge.Cuts"@
}

/// The names of those of the first `n` layers that a fab needs, in order.
pub open spec fn fabrication_layers(layers: Seq<BoardLayer>, n: nat) -> Seq<Seq<char>>
    decreases n,
{
    if n == 0 {
        Seq::empty()
    } else {
        let rest = fabrication_layers(layers, (n - 1) as nat);
        if is_fabrication_layer(layers[n - 1]) {
            rest.push(layers[n - 1].name@)
        } else {
            rest
        }
    }
}

/// The layers of a fabrication package. Drawings, comments, adhesive,
/// courtyard, fab and margin layers are left out.
pub fn standard_gerber_layers(layers: &Vec<BoardLayer>) -> (r: Result<Vec<String>, String>)
    ensures
        r is Ok <==> fabrication_layers(layers@, layers@.len()).len() > 0,
        r matches Ok(list) ==> models(list@) == fabrication_layers(layers@, layers@.len()),
        r matches Err(e) ==> e@ == "board declares no standard fabrication layers"@,
{
    let mut out: Vec<String> = Vec::new();
    proof {
        assert(models(out@) =~= Seq::empty());
    }
    let mut i: usize = 0;
    while i < layers.len()
        invariant
            i <= layers@.len(),
            models(out@) == fabrication_layers(layers@, i as nat),
        decreases layers@.len() - i,
    {
        let l = &layers[i];
        let name = l.name.as_str();
        if l.copper || text::same(name, "F.Mask") || text::same(name, "B.Mask") || text::same(
            name,
            "F.SilkS",
        ) || text::same(name, "B.SilkS") || text::same(name, "Edge.Cuts") {
            push_model(&mut out, l.name.clone());
        }
        i += 1;
    }
    proof {
        assert(models(out@).len() == out@.len());
    }
    if out.len() == 0 {
        Err("board declares no standard fabrication layers".to_owned())
    } else {
        Ok(out)
    }
}

/// The layers to plot: those asked for, or else those of a fabrication
/// package.
pub fn choose_layers(requested: Vec<String>, layers: &Vec<BoardLayer>) -> (r: Result<
    Vec<String>,
    String,
>)
    ensures
        requested@.len() > 0 ==> (r matches Ok(list) && list@ == requested@),
        requested@.len() == 0 ==> (r is Ok <==> fabrication_layers(layers@, layers@.len()).len()
            > 0),
        requested@.len() == 0 ==> (r matches Ok(list) ==> models(list@) == fabrication_layers(
            layers@,
            layers@.len(),
        )),
        r matches Err(e) ==> e@ == "board declares no standard fabrication layers"@,
{
    if requested.len() > 0 {
        Ok(requested)
    } else {
        standard_gerber_layers(layers)
    }
}

// ─── Positions ────────────────────────────────────────────────────────────

/// Why the values of a position export are refused: the argument and the
/// reason.
pub open spec fn position_error(format: Seq<char>, side: Seq<char>, units: Seq<char>) -> Option<
    (Seq<char>, Seq<char>),
> {
    if format != "csv"@ && format != "gerber"@ {
        Some(("format"@, "must be 'csv' or 'gerber', got '"@ + format + "'"@))
    } else if side != "front"@ && side != "back"@ && side != "both"@ {
        Some(("side"@, "must be 'front', 'back', or 'both', got '"@ + side + "'"@))
    } else if units != "mm"@ && units != "in"@ {
        Some(("units"@, "must be 'mm' or 'in', got '"@ + units + "'"@))
    } else if format == "gerber"@ && side == "both"@ {
        Some(("side"@, "Gerber position output supports only 'front' or 'back'"@))
    } else {
        None
    }
}

/// Whether the values of a position export go together.
pub fn validate_position_values(format: &str, side: &str, units: &str) -> (r: Result<
    (),
    (&'static str, String),
>)
    ensures
        match r {
            Ok(_) => position_error(format@, side@, units@) is None,
            Err(e) => position_error(format@, side@, units@) == Some((e.0@, e.1@)),
        },
{
    if !text::same(format, "csv") && !text::same(format, "gerber") {
        return Err(("format", text::cat3("must be 'csv' or 'gerber', got '", format, "'")));
    }
    if !text::same(side, "front") && !text::same(side, "back") && !text::same(side, "both") {
        return Err(
            ("side", text::cat3("must be 'front', 'back', or 'both', got '", side, "'")),
        );
    }
    if !text::same(units, "mm") && !text::same(units, "in") {
        return Err(("units", text::cat3("must be 'mm' or 'in', got '", units, "'")));
    }
    if text::same(format, "gerber") && text::same(side, "both") {
        return Err(
            ("side", "Gerber position output supports only 'front' or 'back'".to_owned()),
        );
    }
    Ok(())
}

/// Whether the format is one that a BOM export can produce.
pub fn validate_bom_format(format: &str) -> (r: Result<(), InvalidArgument>)
    ensures
        r is Ok <==> format@ == "csv"@,
        r matches Err(e) ==> e@ == invalid(
            "format"@,
            "only 'csv' is supported, got '"@ + format@ + "'"@,
        ),
{
    if text::same(format, "csv") {
        Ok(())
    } else {
        let reason = text::cat3("only 'csv' is supported, got '", format, "'");
        Err(invalid_export_argument("format", reason.as_str()))
    }
}

// ─── Violations ───────────────────────────────────────────────────────────

/// Those of the violations that are at least of that rank, in order.
pub open spec fn at_least(list: Seq<DrcView>, least: int) -> Seq<DrcView>
    decreases list.len(),
{
    if list.len() == 0 {
        Seq::empty()
    } else {
        let rest = at_least(list.drop_last(), least);
        if rank(list.last().severity) >= least {
            rest.push(list.last())
        } else {
            rest
        }
    }
}

/// The counts of a report, and the violations that a filter lets through.
pub struct FilteredReport<'a> {
    pub total: usize,
    pub design_rule_violations: usize,
    pub unconnected_items: Option<usize>,
    pub schematic_parity: Option<usize>,
    pub categories_not_reported: Vec<&'static str>,
    pub violations: Vec<&'a DrcViolation>,
}

/// How many violations a category has, if it was reported.
pub open spec fn category_count(c: Option<Seq<DrcView>>, n: Option<usize>) -> bool {
    match c {
        Some(list) => n matches Some(k) && k == list.len(),
        None => n is None,
    }
}

/// The counts of a report, and the violations that are at least as severe as
/// the filter says.
pub fn filter_violations<'a>(report: &'a DrcReport, severity: &str) -> (r: FilteredReport<'a>)
    ensures
        r.total == report@.all().len(),
        r.design_rule_violations == report@.violations.len(),
        category_count(report@.unconnected_items, r.unconnected_items),
        category_count(report@.schematic_parity, r.schematic_parity),
        models(r.categories_not_reported@) == missing(report@),
        models(r.violations@) == at_least(report@.all(), rank(severity@)),
{
    let least: u8 = severity_rank(severity);
    let all = report.all();
    let ghost list = report@.all();
    let mut violations: Vec<&'a DrcViolation> = Vec::new();
    proof {
        assert(models(violations@) =~= Seq::empty());
        assert(models(all@).len() == all@.len());
    }
    let mut i: usize = 0;
    while i < all.len()
        invariant
            i <= all@.len(),
            list == models(all@),
            least == rank(severity@),
            models(violations@) == at_least(list.take(i as int), rank(severity@)),
        decreases all@.len() - i,
    {
        proof {
            assert(list.take(i + 1).drop_last() =~= list.take(i as int));
            assert(list.take(i + 1).last() == all@[i as int]@);
        }
        if severity_rank(all[i].severity.as_str()) >= least {
            push_model(&mut violations, all[i]);
        }
        i += 1;
    }
    proof {
        assert(list.take(list.len() as int) =~= list);
    }
    FilteredReport {
        total: all.len(),
        design_rule_violations: report.violations.len(),
        unconnected_items: match &report.unconnected_items {
            Some(l) => Some(l.len()),
            None => None,
        },
        schematic_parity: match &report.schematic_parity {
            Some(l) => Some(l.len()),
            None => None,
        },
        categories_not_reported: report.missing_categories(),
        violations,
    }
}

// ─── Laws ─────────────────────────────────────────────────────────────────

/// Errors rank above warnings, and warnings above everything else.
pub proof fn law_severities_are_ranked(s: Seq<char>)
    ensures
        rank("error"@) > rank("warning"@) > rank(s) || s == "error"@ || s == "warning"@,
        rank(s) >= rank("error"@) ==> s == "error"@,
        rank(s) >= rank("warning"@) ==> s == "error"@ || s == "warning"@,
{
    reveal_strlit("error");
    reveal_strlit("warning");
    assert("error"@.len() != "warning"@.len());
}

proof fn lemma_at_least(list: Seq<DrcView>, least: int, v: DrcView)
    ensures
        at_least(list, least).contains(v) <==> list.contains(v) && rank(v.severity) >= least,
    decreases list.len(),
{
    if list.len() > 0 {
        let before = list.drop_last();
        lemma_at_least(before, least, v);
        crate::seqs::lemma_contains_push(at_least(before, least), list.last(), v);
        crate::seqs::lemma_contains_push(before, list.last(), v);
        assert(before.push(list.last()) =~= list);
    }
}

/// A filter for errors lets errors through and nothing else, one for warnings
/// warnings too, and any other filter everything.
pub proof fn law_filter_keeps_the_severe(list: Seq<DrcView>, severity: Seq<char>, v: DrcView)
    ensures
        at_least(list, rank("error"@)).contains(v) <==> list.contains(v) && v.severity == "error"@,
        at_least(list, rank("warning"@)).contains(v) <==> list.contains(v) && (v.severity
            == "error"@ || v.severity == "warning"@),
        severity != "error"@ && severity != "warning"@ ==> (at_least(
            list,
            rank(severity),
        ).contains(v) <==> list.contains(v)),
{
    law_severities_are_ranked(v.severity);
    law_severities_are_ranked(severity);
    lemma_at_least(list, rank("error"@), v);
    lemma_at_least(list, rank("warning"@), v);
    lemma_at_least(list, rank(severity), v);
}

/// The layers for fabrication are those of copper, the two masks, the two silk
/// screens and the outline, and no others.
pub proof fn law_fabrication_layers(layers: Seq<BoardLayer>, n: nat, t: Seq<char>)
    requires
        n <= layers.len(),
    ensures
        fabrication_layers(layers, n).contains(t) <==> exists|i: int|
            0 <= i < n && (#[trigger] layers[i]).name@ == t && (layers[i].copper || t == "F.Mask"@
                || t == "B.Mask"@ || t == "F.SilkS"@ || t == "B.SilkS"@ || t == "Edge.Cuts"@),
    decreases n,
{
    if n > 0 {
        law_fabrication_layers(layers, (n - 1) as nat, t);
        crate::seqs::lemma_contains_push(
            fabrication_layers(layers, (n - 1) as nat),
            layers[n - 1].name@,
            t,
        );
    }
}

/// Positions are exported for these formats, sides and units, and for no others;
/// both sides at once only as a table.
pub proof fn law_position_exports(format: Seq<char>, side: Seq<char>, units: Seq<char>)
    ensures
        position_error(format, side, units) is None <==> {
            &&& units == "mm"@ || units == "in"@
            &&& {
                ||| format == "csv"@ && (side == "front"@ || side == "back"@ || side == "both"@)
                ||| format == "gerber"@ && (side == "front"@ || side == "back"@)
            }
        },
{
    reveal_strlit("csv");
    reveal_strlit("gerber");
    reveal_strlit("front");
    reveal_strlit("back");
    reveal_strlit("both");
    assert("csv"@.len() != "gerber"@.len());
    assert("both"@[1] != "back"@[1]);
    assert("both"@.len() != "front"@.len());
}

/// An array argument is read whole: either every item is a text, and the texts
/// come out in order, or the first that is none is named.
pub proof fn law_text_arrays_are_read_whole(
    args: JsonView,
    field: Seq<char>,
    items: Seq<JsonView>,
)
    requires
        args.field(field) == Some(JsonView::Array(items)),
    ensures
        string_array(args, field) matches Ok(texts) ==> texts.len() == items.len() && forall|i: int|
            0 <= i < items.len() ==> #[trigger] items[i] == JsonView::Text(texts[i]),
        string_array(args, field) is Err <==> exists|i: int|
            0 <= i < items.len() && !((#[trigger] items[i]) is Text),
{
    lemma_first_non_text(items, 0);
    match first_non_text(items, 0) {
        Some(i) => {
            assert(!(items[i] is Text));
        },
        None => {
            let texts = items.map_values(|v: JsonView| v->Text_0);
            assert forall|i: int| 0 <= i < items.len() implies #[trigger] items[i]
                == JsonView::Text(texts[i]) by {
                assert(items[i].text() is Some);
            }
        },
    }
}

proof fn lemma_first_non_text(items: Seq<JsonView>, from: int)
    requires
        0 <= from,
    ensures
        match first_non_text(items, from) {
            Some(i) => from <= i < items.len() && items[i].text() is None,
            None => forall|i: int|
                from <= i < items.len() ==> (#[trigger] items[i]).text() is Some,
        },
    decreases items.len() - from,
{
    if from < items.len() && items[from].text() is Some {
        lemma_first_non_text(items, from + 1);
    }
}

} // verus!
