//! Dangling wire ends, floating labels and unconnected pins.
use crate::geometry::{coincident, on_segment, Label, Point, Wire};
use crate::net_graph::{label_points, passes_through};
use crate::schematic::{
    collect_label_points, collect_pin_points, collect_wire_ends, copy_text_option, pin_points, pins_of,
    symbol_points, text_option, wire_ends, PlacedPin, Sheet, Symbol,
};
use crate::seqs::{lemma_contains_add, lemma_contains_push, lemma_models_push, models};
use crate::spatial_index::{
    count_coincident, far, inside_a_wire, law_near_points_are_counted,
    law_only_near_points_are_counted, lemma_count_add, near, on_a_wire, PointIndex, WireIndex,
};
use crate::text;
use vstd::prelude::*;

verus! {

/// An item that nothing connects.
pub enum OrphanItem {
    DanglingWireEnd { at: Point, wire_uuid: Option<String> },
    FloatingLabel { net: String, at: Point },
    UnconnectedPin { reference: String, pin: String, pin_name: String, at: Point },
}

/// The model of an item that nothing connects.
pub ghost enum OrphanView {
    DanglingWireEnd { at: Point, wire_uuid: Option<Seq<char>> },
    FloatingLabel { net: Seq<char>, at: Point },
    UnconnectedPin { reference: Seq<char>, pin: Seq<char>, pin_name: Seq<char>, at: Point },
}

impl View for OrphanItem {
    type V = OrphanView;

    open spec fn view(&self) -> OrphanView {
        match self {
            OrphanItem::DanglingWireEnd { at, wire_uuid } => OrphanView::DanglingWireEnd {
                at: *at,
                wire_uuid: text_option(*wire_uuid),
            },
            OrphanItem::FloatingLabel { net, at } => OrphanView::FloatingLabel {
                net: net@,
                at: *at,
            },
            OrphanItem::UnconnectedPin { reference, pin, pin_name, at } =>
                OrphanView::UnconnectedPin {
                reference: reference@,
                pin: pin@,
                pin_name: pin_name@,
                at: *at,
            },
        }
    }
}

/// Whether one of the points coincides with `p`.
pub open spec fn meets(points: Seq<Point>, p: Point, t: int) -> bool {
    count_coincident(points, p, t) > 0
}

/// Whether something terminates a wire end: a pin, a label, a sheet pin, a
/// junction, a no-connect flag, the end of another wire, or the interior of a
/// wire. The end itself counts among the wire ends.
pub open spec fn end_connected(sheet: Sheet, p: Point, t: int) -> bool {
    ||| meets(symbol_points(sheet.symbols@), p, t)
    ||| meets(label_points(sheet.labels@), p, t)
    ||| meets(sheet.sheet_pins@, p, t)
    ||| meets(sheet.junctions@, p, t)
    ||| meets(sheet.no_connects@, p, t)
    ||| count_coincident(wire_ends(sheet.wires@), p, t) >= 2
    ||| inside_a_wire(sheet.wires@, p, t)
}

/// Whether a label sits on a wire or on a pin.
pub open spec fn label_connected(sheet: Sheet, p: Point, t: int) -> bool {
    on_a_wire(sheet.wires@, p, t) || meets(symbol_points(sheet.symbols@), p, t)
}

/// Whether a pin is connected: to a wire end, a label, another pin, or through
/// a junction dot to a wire. The pin itself counts among the pins.
pub open spec fn pin_connected(sheet: Sheet, p: Point, t: int) -> bool {
    ||| meets(wire_ends(sheet.wires@), p, t)
    ||| meets(label_points(sheet.labels@), p, t)
    ||| count_coincident(symbol_points(sheet.symbols@), p, t) >= 2
    ||| meets(sheet.junctions@, p, t) && on_a_wire(sheet.wires@, p, t)
}

/// Whether a pin is meant to stay unconnected.
pub open spec fn pin_exempt(sheet: Sheet, pin: PlacedPin, t: int) -> bool {
    pin.electrical_type@ == "no_connect"@ || meets(sheet.no_connects@, pin.at, t)
}

/// The dangling ends of the first `n` wires, start before end.
pub open spec fn dangling_ends(sheet: Sheet, t: int, n: nat) -> Seq<OrphanView>
    decreases n,
{
    if n == 0 {
        Seq::empty()
    } else {
        let w = sheet.wires@[n - 1];
        let rest = dangling_ends(sheet, t, (n - 1) as nat);
        let with_start = if end_connected(sheet, w.start, t) {
            rest
        } else {
            rest.push(
                OrphanView::DanglingWireEnd { at: w.start, wire_uuid: text_option(w.uuid) },
            )
        };
        if end_connected(sheet, w.end, t) {
            with_start
        } else {
            with_start.push(
                OrphanView::DanglingWireEnd { at: w.end, wire_uuid: text_option(w.uuid) },
            )
        }
    }
}

/// The floating ones of the first `n` labels.
pub open spec fn floating_labels(sheet: Sheet, t: int, n: nat) -> Seq<OrphanView>
    decreases n,
{
    if n == 0 {
        Seq::empty()
    } else {
        let l = sheet.labels@[n - 1];
        let rest = floating_labels(sheet, t, (n - 1) as nat);
        if label_connected(sheet, l.at, t) {
            rest
        } else {
            rest.push(OrphanView::FloatingLabel { net: l.net@, at: l.at })
        }
    }
}

/// The unconnected ones of the first `n` pins of a symbol.
pub open spec fn unconnected_of(sheet: Sheet, s: Symbol, t: int, n: nat) -> Seq<OrphanView>
    decreases n,
{
    if n == 0 {
        Seq::empty()
    } else {
        let pin = pins_of(s)[n - 1];
        let rest = unconnected_of(sheet, s, t, (n - 1) as nat);
        if pin_exempt(sheet, pin, t) || pin_connected(sheet, pin.at, t) {
            rest
        } else {
            rest.push(
                OrphanView::UnconnectedPin {
                    reference: s.reference@,
                    pin: pin.number@,
                    pin_name: pin.name@,
                    at: pin.at,
                },
            )
        }
    }
}

/// The unconnected pins of the first `n` symbols.
pub open spec fn unconnected_pins(sheet: Sheet, t: int, n: nat) -> Seq<OrphanView>
    decreases n,
{
    if n == 0 {
        Seq::empty()
    } else {
        let s = sheet.symbols@[n - 1];
        unconnected_pins(sheet, t, (n - 1) as nat) + unconnected_of(sheet, s, t, pins_of(s).len())
    }
}

/// Everything on the sheet that nothing connects: wire ends, then labels,
/// then pins.
pub open spec fn orphan_items(sheet: Sheet, t: int) -> Seq<OrphanView> {
    dangling_ends(sheet, t, sheet.wires@.len()) + floating_labels(sheet, t, sheet.labels@.len())
        + unconnected_pins(sheet, t, sheet.symbols@.len())
}

/// The indexes that the checks look points up in.
struct Indexes<'a> {
    on_wire: WireIndex<'a>,
    wire_ends: PointIndex,
    label_points: PointIndex,
    pin_points: PointIndex,
    junctions: PointIndex,
    no_connects: PointIndex,
    sheet_pins: PointIndex,
}

impl<'a> Indexes<'a> {
    spec fn of(&self, sheet: Sheet, t: int) -> bool {
        &&& self.on_wire.wf() && self.on_wire.wires() == sheet.wires@ && self.on_wire.tolerance()
            == t
        &&& self.wire_ends.wf() && self.wire_ends@ == wire_ends(sheet.wires@)
            && self.wire_ends.tolerance() == t
        &&& self.label_points.wf() && self.label_points@ == label_points(sheet.labels@)
            && self.label_points.tolerance() == t
        &&& self.pin_points.wf() && self.pin_points@ == symbol_points(sheet.symbols@)
            && self.pin_points.tolerance() == t
        &&& self.junctions.wf() && self.junctions@ == sheet.junctions@
            && self.junctions.tolerance() == t
        &&& self.no_connects.wf() && self.no_connects@ == sheet.no_connects@
            && self.no_connects.tolerance() == t
        &&& self.sheet_pins.wf() && self.sheet_pins@ == sheet.sheet_pins@
            && self.sheet_pins.tolerance() == t
    }

    fn build(sheet: &'a Sheet, t: i64) -> (r: Indexes<'a>)
        requires
            t > 0,
        ensures
            r.of(*sheet, t as int),
    {
        let ends = collect_wire_ends(&sheet.wires);
        let labels = collect_label_points(&sheet.labels);
        let pins = collect_pin_points(&sheet.symbols);
        Indexes {
            on_wire: WireIndex::build(&sheet.wires, t),
            wire_ends: PointIndex::build(&ends, t),
            label_points: PointIndex::build(&labels, t),
            pin_points: PointIndex::build(&pins, t),
            junctions: PointIndex::build(&sheet.junctions, t),
            no_connects: PointIndex::build(&sheet.no_connects, t),
            sheet_pins: PointIndex::build(&sheet.sheet_pins, t),
        }
    }

    fn end_connected(&self, p: Point, Ghost(sheet): Ghost<Sheet>, Ghost(t): Ghost<int>) -> (r: bool)
        requires
            self.of(sheet, t),
        ensures
            r == end_connected(sheet, p, t),
    {
        self.pin_points.contains(p) || self.label_points.contains(p) || self.sheet_pins.contains(p)
            || self.junctions.contains(p) || self.no_connects.contains(p)
            || self.wire_ends.count_at(p) >= 2 || self.on_wire.covers_interior(p)
    }

    fn pin_connected(&self, p: Point, Ghost(sheet): Ghost<Sheet>, Ghost(t): Ghost<int>) -> (r: bool)
        requires
            self.of(sheet, t),
        ensures
            r == pin_connected(sheet, p, t),
    {
        self.wire_ends.contains(p) || self.label_points.contains(p) || self.pin_points.count_at(p)
            >= 2 || (self.junctions.contains(p) && self.on_wire.covers(p))
    }
}

/// Everything on the sheet that nothing connects within the tolerance, in
/// nanometres. A tolerance of `None` stands for one that is not a finite
/// number.
pub fn find_orphan_items(sheet: &Sheet, tolerance: Option<i64>) -> (r: Result<
    Vec<OrphanItem>,
    String,
>)
    ensures
        r is Ok <==> (tolerance matches Some(t) && t > 0),
        r matches Ok(items) ==> models(items@) == orphan_items(
            *sheet,
            tolerance->0 as int,
        ),
        r matches Err(e) ==> e@
            == "Invalid argument 'tolerance': must be finite and positive"@,
{
    broadcast use lemma_models_push;

    let t: i64 = match tolerance {
        Some(t) => t,
        None => 0,
    };
    if t <= 0 {
        return Err("Invalid argument 'tolerance': must be finite and positive".to_owned());
    }
    let ix = Indexes::build(sheet, t);
    let mut all: Vec<OrphanItem> = Vec::new();
    let mut i: usize = 0;
    proof {
        assert(models(all@) =~= Seq::empty());
    }
    while i < sheet.wires.len()
        invariant
            i <= sheet.wires@.len(),
            ix.of(*sheet, t as int),
            models(all@) == dangling_ends(*sheet, t as int, i as nat),
        decreases sheet.wires@.len() - i,
    {
        let w = &sheet.wires[i];
        if !ix.end_connected(w.start, Ghost(*sheet), Ghost(t as int)) {
            let wire_uuid = copy_text_option(&w.uuid);
            all.push(OrphanItem::DanglingWireEnd { at: w.start, wire_uuid });
        }
        if !ix.end_connected(w.end, Ghost(*sheet), Ghost(t as int)) {
            let wire_uuid = copy_text_option(&w.uuid);
            all.push(OrphanItem::DanglingWireEnd { at: w.end, wire_uuid });
        }
        i += 1;
    }
    let ghost ends = dangling_ends(*sheet, t as int, sheet.wires@.len());
    proof {
        assert(ends + floating_labels(*sheet, t as int, 0) =~= ends);
    }
    i = 0;
    while i < sheet.labels.len()
        invariant
            i <= sheet.labels@.len(),
            ix.of(*sheet, t as int),
            models(all@) == ends + floating_labels(*sheet, t as int, i as nat),
        decreases sheet.labels@.len() - i,
    {
        let l = &sheet.labels[i];
        if !ix.on_wire.covers(l.at) && !ix.pin_points.contains(l.at) {
            all.push(OrphanItem::FloatingLabel { net: l.net.clone(), at: l.at });
            proof {
                let had = floating_labels(*sheet, t as int, i as nat);
                let x = OrphanView::FloatingLabel { net: l.net@, at: l.at };
                assert(models(all@) == (ends + had).push(x));
                assert((ends + had).push(x) =~= ends + had.push(x));
            }
        }
        i += 1;
    }
    let ghost before = ends + floating_labels(*sheet, t as int, sheet.labels@.len());
    proof {
        assert(before + unconnected_pins(*sheet, t as int, 0) =~= before);
    }
    i = 0;
    while i < sheet.symbols.len()
        invariant
            i <= sheet.symbols@.len(),
            ix.of(*sheet, t as int),
            models(all@) == before + unconnected_pins(*sheet, t as int, i as nat),
        decreases sheet.symbols@.len() - i,
    {
        let s = &sheet.symbols[i];
        let ghost so_far = before + unconnected_pins(*sheet, t as int, i as nat);
        proof {
            assert(so_far + unconnected_of(*sheet, *s, t as int, 0) =~= so_far);
        }
        if let Some(pins) = &s.pins {
            let mut j: usize = 0;
            while j < pins.len()
                invariant
                    j <= pins@.len(),
                    pins@ == pins_of(*s),
                    ix.of(*sheet, t as int),
                    models(all@) == so_far + unconnected_of(*sheet, *s, t as int, j as nat),
                decreases pins@.len() - j,
            {
                let pin = &pins[j];
                if text::same(pin.electrical_type.as_str(), "no_connect")
                    || ix.no_connects.contains(pin.at) {
                } else if !ix.pin_connected(pin.at, Ghost(*sheet), Ghost(t as int)) {
                    all.push(
                        OrphanItem::UnconnectedPin {
                            reference: s.reference.clone(),
                            pin: pin.number.clone(),
                            pin_name: pin.name.clone(),
                            at: pin.at,
                        },
                    );
                    proof {
                        let had = unconnected_of(*sheet, *s, t as int, j as nat);
                        let x = OrphanView::UnconnectedPin {
                            reference: s.reference@,
                            pin: pin.number@,
                            pin_name: pin.name@,
                            at: pin.at,
                        };
                        assert(models(all@) == (so_far + had).push(x));
                        assert((so_far + had).push(x) =~= so_far + had.push(x));
                    }
                }
                j += 1;
            }
        }
        proof {
            assert(so_far + unconnected_of(*sheet, *s, t as int, pins_of(*s).len()) =~= before
                + unconnected_pins(*sheet, t as int, (i + 1) as nat));
        }
        i += 1;
    }
    Ok(all)
}

// ─── Laws ─────────────────────────────────────────────────────────────────

/// The ends of a wire among those of all wires.
pub proof fn lemma_wire_ends(wires: Seq<Wire>, i: int)
    requires
        0 <= i < wires.len(),
    ensures
        wire_ends(wires).len() == 2 * wires.len(),
        wire_ends(wires)[2 * i] == wires[i].start,
        wire_ends(wires)[2 * i + 1] == wires[i].end,
    decreases wires.len(),
{
    let before = wires.drop_last();
    if i < before.len() {
        assert(before[i] == wires[i]);
        lemma_wire_ends(before, i);
    } else {
        lemma_wire_end_count(before);
    }
}

/// There are two ends for every wire.
pub proof fn lemma_wire_end_count(wires: Seq<Wire>)
    ensures
        wire_ends(wires).len() == 2 * wires.len(),
    decreases wires.len(),
{
    if wires.len() > 0 {
        lemma_wire_end_count(wires.drop_last());
    }
}

/// Every wire end is the start or the end of a wire.
pub proof fn lemma_wire_end_is(wires: Seq<Wire>, k: int)
    requires
        0 <= k < 2 * wires.len(),
    ensures
        wire_ends(wires).len() == 2 * wires.len(),
        k % 2 == 0 ==> wire_ends(wires)[k] == wires[k / 2].start,
        k % 2 == 1 ==> wire_ends(wires)[k] == wires[k / 2].end,
{
    lemma_wire_ends(wires, k / 2);
}

proof fn lemma_pin_counted(symbols: Seq<Symbol>, p: Point, t: int, i: int, j: int)
    requires
        0 <= i < symbols.len(),
        0 <= j < pins_of(symbols[i]).len(),
        near(p, pins_of(symbols[i])[j].at, t),
    ensures
        count_coincident(symbol_points(symbols), p, t) >= 1,
    decreases symbols.len(),
{
    let before = symbols.drop_last();
    let pins = pins_of(symbols.last());
    let points = pin_points(pins);
    lemma_count_add(symbol_points(before), points, p, t);
    if i < before.len() {
        assert(before[i] == symbols[i]);
        lemma_pin_counted(before, p, t, i, j);
    } else {
        assert(points[j] == pins[j].at);
        law_near_points_are_counted(points, p, t, j);
    }
}

proof fn lemma_pins_counted(
    symbols: Seq<Symbol>,
    p: Point,
    t: int,
    i: int,
    j: int,
    k: int,
    l: int,
)
    requires
        0 <= i < symbols.len(),
        0 <= j < pins_of(symbols[i]).len(),
        near(p, pins_of(symbols[i])[j].at, t),
        0 <= k < symbols.len(),
        0 <= l < pins_of(symbols[k]).len(),
        near(p, pins_of(symbols[k])[l].at, t),
        i != k || j != l,
    ensures
        count_coincident(symbol_points(symbols), p, t) >= 2,
    decreases symbols.len(),
{
    let before = symbols.drop_last();
    let pins = pins_of(symbols.last());
    let points = pin_points(pins);
    lemma_count_add(symbol_points(before), points, p, t);
    let n = before.len();
    if i < n && k < n {
        assert(before[i] == symbols[i]);
        assert(before[k] == symbols[k]);
        lemma_pins_counted(before, p, t, i, j, k, l);
    } else if i < n {
        assert(before[i] == symbols[i]);
        lemma_pin_counted(before, p, t, i, j);
        assert(points[l] == pins[l].at);
        law_near_points_are_counted(points, p, t, l);
    } else if k < n {
        assert(before[k] == symbols[k]);
        lemma_pin_counted(before, p, t, k, l);
        assert(points[j] == pins[j].at);
        law_near_points_are_counted(points, p, t, j);
    } else {
        assert(points[j] == pins[j].at);
        assert(points[l] == pins[l].at);
        law_near_points_are_counted(points, p, t, j);
    }
}

proof fn lemma_only_pin_counted(symbols: Seq<Symbol>, p: Point, t: int, i: int, j: int)
    requires
        forall|k: int, l: int|
            #![trigger pins_of(symbols[k])[l]]
            0 <= k < symbols.len() && 0 <= l < pins_of(symbols[k]).len() && (k != i || l != j)
                ==> !near(p, pins_of(symbols[k])[l].at, t),
    ensures
        count_coincident(symbol_points(symbols), p, t) <= 1,
        !(0 <= i < symbols.len()) ==> count_coincident(symbol_points(symbols), p, t) == 0,
    decreases symbols.len(),
{
    if symbols.len() > 0 {
        let before = symbols.drop_last();
        let n = before.len();
        let pins = pins_of(symbols.last());
        let points = pin_points(pins);
        lemma_count_add(symbol_points(before), points, p, t);
        assert forall|k: int, l: int|
            #![trigger pins_of(before[k])[l]]
            0 <= k < before.len() && 0 <= l < pins_of(before[k]).len() && (k != i || l
                != j) implies !near(p, pins_of(before[k])[l].at, t) by {
            assert(before[k] == symbols[k]);
            assert(!near(p, pins_of(symbols[k])[l].at, t));
        }
        lemma_only_pin_counted(before, p, t, i, j);
        let only = if i == n {
            j
        } else {
            -1
        };
        assert forall|l: int| 0 <= l < points.len() && l != only implies !near(
            p,
            #[trigger] points[l],
            t,
        ) by {
            assert(symbols[n as int] == symbols.last());
            assert(!near(p, pins_of(symbols[n as int])[l].at, t));
        }
        law_only_near_points_are_counted(points, p, t, only);
    }
}

proof fn lemma_dangling(sheet: Sheet, t: int, n: nat, x: OrphanView)
    requires
        n <= sheet.wires@.len(),
    ensures
        dangling_ends(sheet, t, n).contains(x) <==> exists|i: int|
            0 <= i < n && (x == (OrphanView::DanglingWireEnd {
                at: (#[trigger] sheet.wires@[i]).start,
                wire_uuid: text_option(sheet.wires@[i].uuid),
            }) && !end_connected(sheet, sheet.wires@[i].start, t) || x == (
            OrphanView::DanglingWireEnd {
                at: sheet.wires@[i].end,
                wire_uuid: text_option(sheet.wires@[i].uuid),
            }) && !end_connected(sheet, sheet.wires@[i].end, t)),
    decreases n,
{
    if n > 0 {
        lemma_dangling(sheet, t, (n - 1) as nat, x);
        let w = sheet.wires@[n - 1];
        let rest = dangling_ends(sheet, t, (n - 1) as nat);
        let first = OrphanView::DanglingWireEnd { at: w.start, wire_uuid: text_option(w.uuid) };
        let second = OrphanView::DanglingWireEnd { at: w.end, wire_uuid: text_option(w.uuid) };
        let with_start = if end_connected(sheet, w.start, t) {
            rest
        } else {
            rest.push(first)
        };
        lemma_contains_push(rest, first, x);
        lemma_contains_push(with_start, second, x);
    }
}

proof fn lemma_floating(sheet: Sheet, t: int, n: nat, x: OrphanView)
    requires
        n <= sheet.labels@.len(),
    ensures
        floating_labels(sheet, t, n).contains(x) <==> exists|i: int|
            0 <= i < n && x == (OrphanView::FloatingLabel {
                net: (#[trigger] sheet.labels@[i]).net@,
                at: sheet.labels@[i].at,
            }) && !label_connected(sheet, sheet.labels@[i].at, t),
    decreases n,
{
    if n > 0 {
        lemma_floating(sheet, t, (n - 1) as nat, x);
        let l = sheet.labels@[n - 1];
        lemma_contains_push(
            floating_labels(sheet, t, (n - 1) as nat),
            OrphanView::FloatingLabel { net: l.net@, at: l.at },
            x,
        );
    }
}

proof fn lemma_unconnected_of(sheet: Sheet, s: Symbol, t: int, n: nat, x: OrphanView)
    requires
        n <= pins_of(s).len(),
    ensures
        unconnected_of(sheet, s, t, n).contains(x) <==> exists|j: int|
            0 <= j < n && x == (OrphanView::UnconnectedPin {
                reference: s.reference@,
                pin: (#[trigger] pins_of(s)[j]).number@,
                pin_name: pins_of(s)[j].name@,
                at: pins_of(s)[j].at,
            }) && !pin_exempt(sheet, pins_of(s)[j], t) && !pin_connected(
                sheet,
                pins_of(s)[j].at,
                t,
            ),
    decreases n,
{
    if n > 0 {
        lemma_unconnected_of(sheet, s, t, (n - 1) as nat, x);
        let pin = pins_of(s)[n - 1];
        lemma_contains_push(
            unconnected_of(sheet, s, t, (n - 1) as nat),
            OrphanView::UnconnectedPin {
                reference: s.reference@,
                pin: pin.number@,
                pin_name: pin.name@,
                at: pin.at,
            },
            x,
        );
    }
}

proof fn lemma_unconnected(sheet: Sheet, t: int, n: nat, x: OrphanView)
    requires
        n <= sheet.symbols@.len(),
    ensures
        unconnected_pins(sheet, t, n).contains(x) <==> exists|i: int|
            0 <= i < n && unconnected_of(
                sheet,
                #[trigger] sheet.symbols@[i],
                t,
                pins_of(sheet.symbols@[i]).len(),
            ).contains(x),
    decreases n,
{
    if n > 0 {
        lemma_unconnected(sheet, t, (n - 1) as nat, x);
        let s = sheet.symbols@[n - 1];
        lemma_contains_add(
            unconnected_pins(sheet, t, (n - 1) as nat),
            unconnected_of(sheet, s, t, pins_of(s).len()),
            x,
        );
    }
}

proof fn lemma_reported(sheet: Sheet, t: int, x: OrphanView)
    ensures
        orphan_items(sheet, t).contains(x) <==> match x {
            OrphanView::DanglingWireEnd { .. } => dangling_ends(
                sheet,
                t,
                sheet.wires@.len(),
            ).contains(x),
            OrphanView::FloatingLabel { .. } => floating_labels(
                sheet,
                t,
                sheet.labels@.len(),
            ).contains(x),
            OrphanView::UnconnectedPin { .. } => unconnected_pins(
                sheet,
                t,
                sheet.symbols@.len(),
            ).contains(x),
        },
{
    let a = dangling_ends(sheet, t, sheet.wires@.len());
    let b = floating_labels(sheet, t, sheet.labels@.len());
    let c = unconnected_pins(sheet, t, sheet.symbols@.len());
    lemma_contains_add(a + b, c, x);
    lemma_contains_add(a, b, x);
    lemma_dangling(sheet, t, sheet.wires@.len(), x);
    lemma_floating(sheet, t, sheet.labels@.len(), x);
    lemma_unconnected(sheet, t, sheet.symbols@.len(), x);
    assert forall|i: int| 0 <= i < sheet.symbols@.len() && unconnected_of(
        sheet,
        #[trigger] sheet.symbols@[i],
        t,
        pins_of(sheet.symbols@[i]).len(),
    ).contains(x) implies x is UnconnectedPin by {
        let s = sheet.symbols@[i];
        lemma_unconnected_of(sheet, s, t, pins_of(s).len(), x);
    }
}

/// A wire end that coincides with an end of another wire does not dangle: no
/// item of the report is a dangling wire end at that point.
pub proof fn law_joined_wire_ends_do_not_dangle(
    sheet: Sheet,
    t: int,
    a: int,
    b: int,
    p: Point,
    q: Point,
    x: OrphanView,
)
    requires
        0 <= a < sheet.wires@.len(),
        0 <= b < sheet.wires@.len(),
        a != b,
        p == sheet.wires@[a].start || p == sheet.wires@[a].end,
        q == sheet.wires@[b].start || q == sheet.wires@[b].end,
        -t < p.x - q.x < t,
        -t < p.y - q.y < t,
    ensures
        orphan_items(sheet, t).contains(x) ==> !(x matches OrphanView::DanglingWireEnd { at, .. }
            && at == p),
{
    let wires = sheet.wires@;
    let ends = wire_ends(wires);
    lemma_wire_ends(wires, a);
    lemma_wire_ends(wires, b);
    let i = if p == wires[a].start {
        2 * a
    } else {
        2 * a + 1
    };
    let j = if q == wires[b].start {
        2 * b
    } else {
        2 * b + 1
    };
    assert(ends[i] == p && ends[j] == q);
    assert(near(p, ends[i], t) && near(p, ends[j], t));
    law_near_points_are_counted(ends, p, t, i);
    lemma_reported(sheet, t, x);
    lemma_dangling(sheet, t, wires.len(), x);
}

/// Whether a pin, a label, a sheet pin, a junction or a no-connect flag of the
/// sheet is near the point.
pub open spec fn is_met(sheet: Sheet, p: Point, t: int) -> bool {
    ||| exists|i: int, j: int|
        #![trigger pins_of(sheet.symbols@[i])[j]]
        0 <= i < sheet.symbols@.len() && 0 <= j < pins_of(sheet.symbols@[i]).len() && near(
            p,
            pins_of(sheet.symbols@[i])[j].at,
            t,
        )
    ||| exists|i: int| 0 <= i < sheet.labels@.len() && near(p, (#[trigger] sheet.labels@[i]).at, t)
    ||| exists|i: int| 0 <= i < sheet.sheet_pins@.len() && near(p, #[trigger] sheet.sheet_pins@[i], t)
    ||| exists|i: int| 0 <= i < sheet.junctions@.len() && near(p, #[trigger] sheet.junctions@[i], t)
    ||| exists|i: int|
        0 <= i < sheet.no_connects@.len() && near(p, #[trigger] sheet.no_connects@[i], t)
}

proof fn lemma_met(sheet: Sheet, p: Point, t: int)
    ensures
        is_met(sheet, p, t) <==> meets(symbol_points(sheet.symbols@), p, t) || meets(
            label_points(sheet.labels@),
            p,
            t,
        ) || meets(sheet.sheet_pins@, p, t) || meets(sheet.junctions@, p, t) || meets(
            sheet.no_connects@,
            p,
            t,
        ),
{
    lemma_meets_pin(sheet.symbols@, p, t);
    lemma_meets_label(sheet.labels@, p, t);
    lemma_meets(sheet.sheet_pins@, p, t);
    lemma_meets(sheet.junctions@, p, t);
    lemma_meets(sheet.no_connects@, p, t);
}

proof fn lemma_meets(points: Seq<Point>, p: Point, t: int)
    ensures
        meets(points, p, t) <==> exists|i: int|
            0 <= i < points.len() && near(p, #[trigger] points[i], t),
{
    if exists|i: int| 0 <= i < points.len() && near(p, #[trigger] points[i], t) {
        let i = choose|i: int| 0 <= i < points.len() && near(p, #[trigger] points[i], t);
        law_near_points_are_counted(points, p, t, i);
    } else {
        law_only_near_points_are_counted(points, p, t, -1);
    }
}

/// A label is met exactly if one is near.
pub proof fn lemma_meets_label(labels: Seq<Label>, p: Point, t: int)
    ensures
        meets(label_points(labels), p, t) <==> exists|i: int|
            0 <= i < labels.len() && near(p, (#[trigger] labels[i]).at, t),
{
    let points = label_points(labels);
    lemma_meets(points, p, t);
    if exists|i: int| 0 <= i < labels.len() && near(p, (#[trigger] labels[i]).at, t) {
        let i = choose|i: int| 0 <= i < labels.len() && near(p, (#[trigger] labels[i]).at, t);
        assert(points[i] == labels[i].at);
    }
    if meets(points, p, t) {
        let i = choose|i: int| 0 <= i < points.len() && near(p, #[trigger] points[i], t);
        assert(points[i] == labels[i].at);
    }
}

/// A pin is met exactly if one is near.
pub proof fn lemma_meets_pin(symbols: Seq<Symbol>, p: Point, t: int)
    ensures
        meets(symbol_points(symbols), p, t) <==> exists|i: int, j: int|
            #![trigger pins_of(symbols[i])[j]]
            0 <= i < symbols.len() && 0 <= j < pins_of(symbols[i]).len() && near(
                p,
                pins_of(symbols[i])[j].at,
                t,
            ),
{
    if exists|i: int, j: int|
        #![trigger pins_of(symbols[i])[j]]
        0 <= i < symbols.len() && 0 <= j < pins_of(symbols[i]).len() && near(
            p,
            pins_of(symbols[i])[j].at,
            t,
        ) {
        let (i, j) = choose|i: int, j: int|
            #![trigger pins_of(symbols[i])[j]]
            0 <= i < symbols.len() && 0 <= j < pins_of(symbols[i]).len() && near(
                p,
                pins_of(symbols[i])[j].at,
                t,
            );
        lemma_pin_counted(symbols, p, t, i, j);
    } else {
        lemma_only_pin_counted(symbols, p, t, -1, 0);
    }
}

/// A wire end on which a pin, a label, a sheet pin, a junction or a no-connect
/// flag sits does not dangle, nor does one that meets a wire along its way.
pub proof fn law_terminated_wire_ends_do_not_dangle(
    sheet: Sheet,
    t: int,
    p: Point,
    w: int,
    x: OrphanView,
)
    requires
        t > 0,
        is_met(sheet, p, t) || 0 <= w < sheet.wires@.len() && passes_through(sheet.wires@[w], p)
            && !near(p, sheet.wires@[w].start, t) && !near(p, sheet.wires@[w].end, t),
    ensures
        orphan_items(sheet, t).contains(x) ==> !(x matches OrphanView::DanglingWireEnd { at, .. }
            && at == p),
{
    lemma_met(sheet, p, t);
    if !is_met(sheet, p, t) {
        let wire = sheet.wires@[w];
        crate::geometry::law_point_on_wire(p, wire.start, wire.end, t);
        assert(inside_a_wire(sheet.wires@, p, t));
    }
    lemma_reported(sheet, t, x);
    lemma_dangling(sheet, t, sheet.wires@.len(), x);
}

/// An end of a wire that nothing is near, and that no other wire comes near,
/// is reported.
pub proof fn law_loose_wire_end_dangles(sheet: Sheet, t: int, i: int, at_start: bool)
    requires
        t > 0,
        0 <= i < sheet.wires@.len(),
        !near(sheet.wires@[i].start, sheet.wires@[i].end, t),
        !is_met(
            sheet,
            if at_start {
                sheet.wires@[i].start
            } else {
                sheet.wires@[i].end
            },
            t,
        ),
        forall|j: int|
            0 <= j < sheet.wires@.len() && j != i ==> far(
                #[trigger] sheet.wires@[j],
                if at_start {
                    sheet.wires@[i].start
                } else {
                    sheet.wires@[i].end
                },
                t,
            ),
    ensures
        orphan_items(sheet, t).contains(
            OrphanView::DanglingWireEnd {
                at: if at_start {
                    sheet.wires@[i].start
                } else {
                    sheet.wires@[i].end
                },
                wire_uuid: text_option(sheet.wires@[i].uuid),
            },
        ),
{
    let wires = sheet.wires@;
    let p = if at_start {
        wires[i].start
    } else {
        wires[i].end
    };
    let ends = wire_ends(wires);
    lemma_met(sheet, p, t);
    lemma_wire_ends(wires, i);
    let own = if at_start {
        2 * i
    } else {
        2 * i + 1
    };
    assert forall|k: int| 0 <= k < ends.len() && k != own implies !near(
        p,
        #[trigger] ends[k],
        t,
    ) by {
        lemma_wire_end_is(wires, k);
        let j = k / 2;
        if j != i {
            assert(far(wires[j], p, t));
        }
    }
    law_only_near_points_are_counted(ends, p, t, own);
    assert forall|j: int| 0 <= j < wires.len() implies !(on_segment(
        p,
        (#[trigger] wires[j]).start,
        wires[j].end,
        t,
    ) && !coincident(p, wires[j].start, t) && !coincident(p, wires[j].end, t)) by {
        if j != i {
            assert(far(wires[j], p, t));
            crate::geometry::law_point_on_wire(p, wires[j].start, wires[j].end, t);
        }
    }
    assert(!inside_a_wire(wires, p, t));
    let x = OrphanView::DanglingWireEnd { at: p, wire_uuid: text_option(wires[i].uuid) };
    lemma_reported(sheet, t, x);
    lemma_dangling(sheet, t, wires.len(), x);
}

/// A label through which a wire passes, or on which a pin sits, does not float;
/// one that no wire comes near and no pin is near does.
pub proof fn law_labels_float_without_wire_and_pin(sheet: Sheet, t: int, i: int)
    requires
        t > 0,
        0 <= i < sheet.labels@.len(),
    ensures
        (exists|j: int|
            0 <= j < sheet.wires@.len() && passes_through(
                #[trigger] sheet.wires@[j],
                sheet.labels@[i].at,
            )) ==> forall|x: OrphanView| #[trigger]
            orphan_items(sheet, t).contains(x) ==> !(x matches OrphanView::FloatingLabel { at, .. }
                && at == sheet.labels@[i].at),
        (exists|j: int, k: int|
            #![trigger pins_of(sheet.symbols@[j])[k]]
            0 <= j < sheet.symbols@.len() && 0 <= k < pins_of(sheet.symbols@[j]).len() && near(
                sheet.labels@[i].at,
                pins_of(sheet.symbols@[j])[k].at,
                t,
            )) ==> forall|x: OrphanView| #[trigger]
            orphan_items(sheet, t).contains(x) ==> !(x matches OrphanView::FloatingLabel { at, .. }
                && at == sheet.labels@[i].at),
        (forall|j: int|
            0 <= j < sheet.wires@.len() ==> far(
                #[trigger] sheet.wires@[j],
                sheet.labels@[i].at,
                t,
            )) && (forall|j: int, k: int|
            #![trigger pins_of(sheet.symbols@[j])[k]]
            0 <= j < sheet.symbols@.len() && 0 <= k < pins_of(sheet.symbols@[j]).len() ==> !near(
                sheet.labels@[i].at,
                pins_of(sheet.symbols@[j])[k].at,
                t,
            )) ==> orphan_items(sheet, t).contains(
            OrphanView::FloatingLabel { net: sheet.labels@[i].net@, at: sheet.labels@[i].at },
        ),
{
    let p = sheet.labels@[i].at;
    lemma_meets_pin(sheet.symbols@, p, t);
    assert forall|j: int| 0 <= j < sheet.wires@.len() implies (passes_through(
        #[trigger] sheet.wires@[j],
        p,
    ) ==> on_a_wire(sheet.wires@, p, t)) && (far(sheet.wires@[j], p, t) ==> !on_segment(
        p,
        sheet.wires@[j].start,
        sheet.wires@[j].end,
        t,
    )) by {
        crate::geometry::law_point_on_wire(p, sheet.wires@[j].start, sheet.wires@[j].end, t);
    }
    assert forall|x: OrphanView| #[trigger] orphan_items(sheet, t).contains(x) && label_connected(
        sheet,
        p,
        t,
    ) implies !(x matches OrphanView::FloatingLabel { at, .. } && at == p) by {
        lemma_reported(sheet, t, x);
        lemma_floating(sheet, t, sheet.labels@.len(), x);
    }
    let x = OrphanView::FloatingLabel { net: sheet.labels@[i].net@, at: p };
    lemma_reported(sheet, t, x);
    lemma_floating(sheet, t, sheet.labels@.len(), x);
}

/// A pin that a wire end, a label or another pin is near is connected, as is
/// one on a junction dot that sits on a wire: it is not reported.
pub proof fn law_wired_pins_are_connected(
    sheet: Sheet,
    t: int,
    i: int,
    j: int,
    k: int,
    l: int,
    x: OrphanView,
)
    requires
        t > 0,
        0 <= i < sheet.symbols@.len(),
        0 <= j < pins_of(sheet.symbols@[i]).len(),
        ({
            let p = pins_of(sheet.symbols@[i])[j].at;
            ||| 0 <= k < sheet.wires@.len() && (near(p, sheet.wires@[k].start, t) || near(
                p,
                sheet.wires@[k].end,
                t,
            ))
            ||| 0 <= k < sheet.labels@.len() && near(p, sheet.labels@[k].at, t)
            ||| 0 <= k < sheet.symbols@.len() && 0 <= l < pins_of(sheet.symbols@[k]).len() && (k
                != i || l != j) && near(p, pins_of(sheet.symbols@[k])[l].at, t)
            ||| 0 <= k < sheet.junctions@.len() && near(p, sheet.junctions@[k], t) && 0 <= l
                < sheet.wires@.len() && passes_through(sheet.wires@[l], p)
        }),
    ensures
        orphan_items(sheet, t).contains(x) ==> !(x matches OrphanView::UnconnectedPin { at, .. }
            && at == pins_of(sheet.symbols@[i])[j].at),
{
    let p = pins_of(sheet.symbols@[i])[j].at;
    if 0 <= k < sheet.wires@.len() {
        let ends = wire_ends(sheet.wires@);
        lemma_wire_ends(sheet.wires@, k);
        if near(p, sheet.wires@[k].start, t) {
            law_near_points_are_counted(ends, p, t, 2 * k);
        } else if near(p, sheet.wires@[k].end, t) {
            law_near_points_are_counted(ends, p, t, 2 * k + 1);
        }
    }
    lemma_meets_label(sheet.labels@, p, t);
    if 0 <= k < sheet.symbols@.len() && 0 <= l < pins_of(sheet.symbols@[k]).len() && (k != i || l
        != j) && near(p, pins_of(sheet.symbols@[k])[l].at, t) {
        lemma_pins_counted(sheet.symbols@, p, t, i, j, k, l);
    }
    lemma_meets(sheet.junctions@, p, t);
    if 0 <= l < sheet.wires@.len() {
        crate::geometry::law_point_on_wire(p, sheet.wires@[l].start, sheet.wires@[l].end, t);
        assert(passes_through(sheet.wires@[l], p) ==> on_a_wire(sheet.wires@, p, t));
    }
    assert(pin_connected(sheet, p, t));
    lemma_no_pin_at(sheet, t, p, x);
}

proof fn lemma_no_pin_at(sheet: Sheet, t: int, p: Point, x: OrphanView)
    requires
        pin_connected(sheet, p, t) || meets(sheet.no_connects@, p, t),
    ensures
        orphan_items(sheet, t).contains(x) ==> !(x matches OrphanView::UnconnectedPin { at, .. }
            && at == p),
{
    lemma_reported(sheet, t, x);
    lemma_unconnected(sheet, t, sheet.symbols@.len(), x);
    assert forall|m: int| 0 <= m < sheet.symbols@.len() && unconnected_of(
        sheet,
        #[trigger] sheet.symbols@[m],
        t,
        pins_of(sheet.symbols@[m]).len(),
    ).contains(x) implies !(x matches OrphanView::UnconnectedPin { at, .. } && at == p) by {
        let s = sheet.symbols@[m];
        lemma_unconnected_of(sheet, s, t, pins_of(s).len(), x);
    }
}

/// A pin that a no-connect flag is near is not reported, whatever its type.
pub proof fn law_flagged_pins_are_not_reported(
    sheet: Sheet,
    t: int,
    p: Point,
    k: int,
    x: OrphanView,
)
    requires
        0 <= k < sheet.no_connects@.len(),
        near(p, sheet.no_connects@[k], t),
    ensures
        orphan_items(sheet, t).contains(x) ==> !(x matches OrphanView::UnconnectedPin { at, .. }
            && at == p),
{
    lemma_meets(sheet.no_connects@, p, t);
    lemma_no_pin_at(sheet, t, p, x);
}

/// A pin that is meant to be connected and that nothing is near is reported.
pub proof fn law_lone_pins_are_reported(sheet: Sheet, t: int, i: int, j: int)
    requires
        t > 0,
        0 <= i < sheet.symbols@.len(),
        0 <= j < pins_of(sheet.symbols@[i]).len(),
        pins_of(sheet.symbols@[i])[j].electrical_type@ != "no_connect"@,
        forall|k: int|
            0 <= k < sheet.no_connects@.len() ==> !near(
                pins_of(sheet.symbols@[i])[j].at,
                #[trigger] sheet.no_connects@[k],
                t,
            ),
        forall|k: int|
            0 <= k < sheet.wires@.len() ==> far(
                #[trigger] sheet.wires@[k],
                pins_of(sheet.symbols@[i])[j].at,
                t,
            ),
        forall|k: int|
            0 <= k < sheet.labels@.len() ==> !near(
                pins_of(sheet.symbols@[i])[j].at,
                (#[trigger] sheet.labels@[k]).at,
                t,
            ),
        forall|k: int, l: int|
            #![trigger pins_of(sheet.symbols@[k])[l]]
            0 <= k < sheet.symbols@.len() && 0 <= l < pins_of(sheet.symbols@[k]).len() && (k != i
                || l != j) ==> !near(
                pins_of(sheet.symbols@[i])[j].at,
                pins_of(sheet.symbols@[k])[l].at,
                t,
            ),
    ensures
        orphan_items(sheet, t).contains(
            OrphanView::UnconnectedPin {
                reference: sheet.symbols@[i].reference@,
                pin: pins_of(sheet.symbols@[i])[j].number@,
                pin_name: pins_of(sheet.symbols@[i])[j].name@,
                at: pins_of(sheet.symbols@[i])[j].at,
            },
        ),
{
    let s = sheet.symbols@[i];
    let pin = pins_of(s)[j];
    let p = pin.at;
    let wires = sheet.wires@;
    let ends = wire_ends(wires);
    lemma_wire_end_count(wires);
    assert forall|k: int| 0 <= k < ends.len() && k != -1 implies !near(
        p,
        #[trigger] ends[k],
        t,
    ) by {
        lemma_wire_end_is(wires, k);
        assert(far(wires[k / 2], p, t));
    }
    law_only_near_points_are_counted(ends, p, t, -1);
    lemma_meets_label(sheet.labels@, p, t);
    lemma_meets(sheet.no_connects@, p, t);
    lemma_only_pin_counted(sheet.symbols@, p, t, i, j);
    assert forall|k: int| 0 <= k < wires.len() implies !on_segment(
        p,
        (#[trigger] wires[k]).start,
        wires[k].end,
        t,
    ) by {
        assert(far(wires[k], p, t));
        crate::geometry::law_point_on_wire(p, wires[k].start, wires[k].end, t);
    }
    assert(!on_a_wire(wires, p, t));
    let x = OrphanView::UnconnectedPin {
        reference: s.reference@,
        pin: pin.number@,
        pin_name: pin.name@,
        at: p,
    };
    lemma_reported(sheet, t, x);
    lemma_unconnected_of(sheet, s, t, pins_of(s).len(), x);
    lemma_unconnected(sheet, t, sheet.symbols@.len(), x);
}

/// Whatever is reported is on the sheet: an end of a wire, with the wire's
/// identifier, a label, or a pin that is not of the no-connect type.
pub proof fn law_reported_items_are_on_the_sheet(sheet: Sheet, t: int, x: OrphanView)
    requires
        orphan_items(sheet, t).contains(x),
    ensures
        match x {
            OrphanView::DanglingWireEnd { at, wire_uuid } => exists|i: int|
                0 <= i < sheet.wires@.len() && ((#[trigger] sheet.wires@[i]).start == at
                    || sheet.wires@[i].end == at) && wire_uuid == text_option(sheet.wires@[i].uuid),
            OrphanView::FloatingLabel { net, at } => exists|i: int|
                0 <= i < sheet.labels@.len() && (#[trigger] sheet.labels@[i]).net@ == net
                    && sheet.labels@[i].at == at,
            OrphanView::UnconnectedPin { reference, pin, pin_name, at } => exists|i: int, j: int|
                #![trigger pins_of(sheet.symbols@[i])[j]]
                0 <= i < sheet.symbols@.len() && 0 <= j < pins_of(sheet.symbols@[i]).len()
                    && sheet.symbols@[i].reference@ == reference && pins_of(
                    sheet.symbols@[i],
                )[j].number@ == pin && pins_of(sheet.symbols@[i])[j].name@ == pin_name && pins_of(
                    sheet.symbols@[i],
                )[j].at == at && pins_of(sheet.symbols@[i])[j].electrical_type@ != "no_connect"@,
        },
{
    lemma_reported(sheet, t, x);
    lemma_dangling(sheet, t, sheet.wires@.len(), x);
    lemma_floating(sheet, t, sheet.labels@.len(), x);
    lemma_unconnected(sheet, t, sheet.symbols@.len(), x);
    if x is UnconnectedPin {
        let i = choose|i: int|
            0 <= i < sheet.symbols@.len() && unconnected_of(
                sheet,
                #[trigger] sheet.symbols@[i],
                t,
                pins_of(sheet.symbols@[i]).len(),
            ).contains(x);
        let s = sheet.symbols@[i];
        lemma_unconnected_of(sheet, s, t, pins_of(s).len(), x);
        let j = choose|j: int|
            0 <= j < pins_of(s).len() && x == (OrphanView::UnconnectedPin {
                reference: s.reference@,
                pin: (#[trigger] pins_of(s)[j]).number@,
                pin_name: pins_of(s)[j].name@,
                at: pins_of(s)[j].at,
            }) && !pin_exempt(sheet, pins_of(s)[j], t) && !pin_connected(
                sheet,
                pins_of(s)[j].at,
                t,
            );
        assert(pins_of(sheet.symbols@[i])[j] == pins_of(s)[j]);
    }
}

} // verus!
