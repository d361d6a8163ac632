//! Queries on the connections of a schematic sheet.
//!
//! Wires, labels and symbols are named by their places in the sheet.
use crate::geometry::{
    coincident, key_of, on_segment, point_on_segment, points_coincident, pt_key, same_key, Point,
};
use crate::net_graph::{
    law_label_joins_the_wires_it_sits_on, law_linked_is_equivalence, linked, passes_through,
    sheet_edges, NetGraph,
};
use crate::power_symbols::{is_power_reference, names_power_symbol};
use crate::sch_analysis::{
    carries, graph, graph_of, has_key, lemma_graph_of_ensured, name_symbols, names_net, net_name,
    net_points, symbols_named, NetPinView, NetSymbol, NetSymbolView,
};
use crate::schematic::{copy_text_option, pins_of, text_option, PlacedPin, Sheet, Symbol};
use crate::selections::{lemma_selects_next, selects};
use crate::seqs::{lemma_contains_push, models, push_model};
use crate::text::{self, strictly_ascending};
use vstd::prelude::*;

verus! {

// ─── Names ────────────────────────────────────────────────────────────────

/// Whether a label of the sheet has that name.
pub open spec fn is_labelled(sheet: Sheet, net: Seq<char>) -> bool {
    exists|i: int| 0 <= i < sheet.labels@.len() && (#[trigger] sheet.labels@[i]).net@ == net
}

/// Whether a power symbol of the sheet has that net: it is the symbol's value.
pub open spec fn is_power_named(sheet: Sheet, net: Seq<char>) -> bool {
    exists|i: int|
        0 <= i < sheet.symbols@.len() && (#[trigger] sheet.symbols@[i]).value@ == net
            && is_power_reference(sheet.symbols@[i].reference@)
}

/// The names of the sheet's labels, in their order.
fn label_texts(sheet: &Sheet) -> (names: Vec<String>)
    ensures
        forall|t: Seq<char>| #[trigger] models(names@).contains(t) <==> is_labelled(*sheet, t),
{
    let mut names: Vec<String> = Vec::new();
    let mut i: usize = 0;
    while i < sheet.labels.len()
        invariant
            i <= sheet.labels@.len(),
            names@.len() == i,
            forall|k: int| 0 <= k < i ==> (#[trigger] models(names@)[k]) == sheet.labels@[k].net@,
        decreases sheet.labels@.len() - i,
    {
        push_model(&mut names, sheet.labels[i].net.clone());
        i += 1;
    }
    proof {
        assert(models(names@).len() == names@.len());
        assert forall|t: Seq<char>| #[trigger] models(names@).contains(t) <==> is_labelled(
            *sheet,
            t,
        ) by {
            if models(names@).contains(t) {
                let k = choose|k: int| 0 <= k < models(names@).len() && models(names@)[k] == t;
                assert(sheet.labels@[k].net@ == t);
            }
            if is_labelled(*sheet, t) {
                let k = choose|k: int|
                    0 <= k < sheet.labels@.len() && (#[trigger] sheet.labels@[k]).net@ == t;
                assert(models(names@)[k] == t);
            }
        }
    }
    names
}

/// The names of the sheet's labels, each once, in ascending order.
pub fn label_names(sheet: &Sheet) -> (nets: Vec<String>)
    ensures
        strictly_ascending(models(nets@)),
        forall|t: Seq<char>| #[trigger] models(nets@).contains(t) <==> is_labelled(*sheet, t),
{
    let names = label_texts(sheet);
    text::sorted_distinct(&names)
}

/// Whether one of the first `n` symbols is a power symbol with that net.
spec fn is_power_named_before(sheet: Sheet, n: int, net: Seq<char>) -> bool {
    exists|i: int|
        0 <= i < n && (#[trigger] sheet.symbols@[i]).value@ == net && is_power_reference(
            sheet.symbols@[i].reference@,
        )
}

/// The names of the sheet's labels and the nets of its power symbols, each
/// once, in ascending order.
pub fn list_nets(sheet: &Sheet) -> (nets: Vec<String>)
    ensures
        strictly_ascending(models(nets@)),
        forall|t: Seq<char>| #[trigger]
            models(nets@).contains(t) <==> is_labelled(*sheet, t) || is_power_named(*sheet, t),
{
    let mut names = label_texts(sheet);
    let mut i: usize = 0;
    while i < sheet.symbols.len()
        invariant
            i <= sheet.symbols@.len(),
            forall|t: Seq<char>| #[trigger]
                models(names@).contains(t) <==> is_labelled(*sheet, t) || is_power_named_before(
                    *sheet,
                    i as int,
                    t,
                ),
        decreases sheet.symbols@.len() - i,
    {
        let s = &sheet.symbols[i];
        let ghost had = models(names@);
        if names_power_symbol(s.reference.as_str()) {
            push_model(&mut names, s.value.clone());
        }
        proof {
            assert forall|t: Seq<char>| #[trigger] models(names@).contains(t) <==> is_labelled(
                *sheet,
                t,
            ) || is_power_named_before(*sheet, i + 1, t) by {
                lemma_contains_push(had, s.value@, t);
                assert(had.contains(t) <==> is_labelled(*sheet, t) || is_power_named_before(
                    *sheet,
                    i as int,
                    t,
                ));
                if is_power_named_before(*sheet, i + 1, t) {
                    let k = choose|k: int|
                        0 <= k < i + 1 && (#[trigger] sheet.symbols@[k]).value@ == t
                            && is_power_reference(sheet.symbols@[k].reference@);
                    assert(k == i || is_power_named_before(*sheet, i as int, t));
                }
                if is_power_reference(s.reference@) && s.value@ == t {
                    assert(sheet.symbols@[i as int].value@ == t);
                }
            }
        }
        i += 1;
    }
    text::sorted_distinct(&names)
}

fn labels_named(sheet: &Sheet, net: &str) -> (places: Vec<usize>)
    ensures
        selects(places@, sheet.labels@.len(), |i: int| sheet.labels@[i].net@ == net@),
{
    let mut places: Vec<usize> = Vec::new();
    let ghost keep = |i: int| sheet.labels@[i].net@ == net@;
    let mut i: usize = 0;
    while i < sheet.labels.len()
        invariant
            i <= sheet.labels@.len(),
            keep == (|i: int| sheet.labels@[i].net@ == net@),
            selects(places@, i as nat, keep),
        decreases sheet.labels@.len() - i,
    {
        let ghost before = places@;
        if text::same(sheet.labels[i].net.as_str(), net) {
            places.push(i);
        }
        proof {
            lemma_selects_next(before, places@, i, keep);
        }
        i += 1;
    }
    places
}

// ─── Nets ─────────────────────────────────────────────────────────────────

/// The labels of a net, and how many points of the sheet are on it.
pub struct NetConnections {
    pub labels: Vec<usize>,
    pub connected_points: usize,
}

/// Whether the list holds the points that are on the net, each once.
pub open spec fn lists_net(sheet: Sheet, net: Seq<char>, points: Seq<(i64, i64)>) -> bool {
    &&& points.no_duplicates()
    &&& forall|k: (i64, i64)| #[trigger] points.contains(k) <==> carries(sheet, net, k)
}

/// The labels of a net, and how many points of the sheet are on it.
pub fn get_net_connections(sheet: &Sheet, net: &str) -> (r: NetConnections)
    ensures
        selects(r.labels@, sheet.labels@.len(), |i: int| sheet.labels@[i].net@ == net@),
        exists|points: Seq<(i64, i64)>| #[trigger]
            lists_net(*sheet, net@, points) && points.len() == r.connected_points,
{
    let labels = labels_named(sheet, net);
    let mut g = graph(sheet);
    let points = net_points(&mut g, net, Ghost(*sheet));
    proof {
        assert(lists_net(*sheet, net@, points@));
    }
    NetConnections { labels, connected_points: points.len() }
}

fn wires_touching(sheet: &Sheet, keys: &Vec<(i64, i64)>) -> (places: Vec<usize>)
    ensures
        selects(
            places@,
            sheet.wires@.len(),
            |i: int|
                keys@.contains(key_of(sheet.wires@[i].start)) || keys@.contains(
                    key_of(sheet.wires@[i].end),
                ),
        ),
{
    let mut places: Vec<usize> = Vec::new();
    let ghost keep = |i: int|
        keys@.contains(key_of(sheet.wires@[i].start)) || keys@.contains(
            key_of(sheet.wires@[i].end),
        );
    let mut i: usize = 0;
    while i < sheet.wires.len()
        invariant
            i <= sheet.wires@.len(),
            keep == (|i: int|
                keys@.contains(key_of(sheet.wires@[i].start)) || keys@.contains(
                    key_of(sheet.wires@[i].end),
                )),
            selects(places@, i as nat, keep),
        decreases sheet.wires@.len() - i,
    {
        let ghost before = places@;
        let w = &sheet.wires[i];
        if has_key(keys, pt_key(w.start)) || has_key(keys, pt_key(w.end)) {
            places.push(i);
        }
        proof {
            lemma_selects_next(before, places@, i, keep);
        }
        i += 1;
    }
    places
}

/// A selection by a condition is one by any condition that says the same.
proof fn lemma_selects_same(
    places: Seq<usize>,
    n: nat,
    a: spec_fn(int) -> bool,
    b: spec_fn(int) -> bool,
)
    requires
        selects(places, n, a),
        forall|i: int| 0 <= i < n ==> #[trigger] a(i) == b(i),
    ensures
        selects(places, n, b),
{
    assert forall|i: usize| #[trigger] places.contains(i) <==> i < n && b(i as int) by {
        if i < n {
            assert(a(i as int) == b(i as int));
        }
    }
}

/// The wires and the labels of a net.
pub struct NetConnectivity {
    pub wires: Vec<usize>,
    pub labels: Vec<usize>,
}

/// The wires of which an end is on the net, and the labels of its name.
pub fn get_net_connectivity(sheet: &Sheet, net: &str) -> (r: NetConnectivity)
    ensures
        selects(
            r.wires@,
            sheet.wires@.len(),
            |i: int|
                carries(*sheet, net@, key_of(sheet.wires@[i].start)) || carries(
                    *sheet,
                    net@,
                    key_of(sheet.wires@[i].end),
                ),
        ),
        selects(r.labels@, sheet.labels@.len(), |i: int| sheet.labels@[i].net@ == net@),
{
    let mut g = graph(sheet);
    let points = net_points(&mut g, net, Ghost(*sheet));
    let wires = wires_touching(sheet, &points);
    proof {
        lemma_selects_same(
            wires@,
            sheet.wires@.len(),
            |i: int|
                points@.contains(key_of(sheet.wires@[i].start)) || points@.contains(
                    key_of(sheet.wires@[i].end),
                ),
            |i: int|
                carries(*sheet, net@, key_of(sheet.wires@[i].start)) || carries(
                    *sheet,
                    net@,
                    key_of(sheet.wires@[i].end),
                ),
        );
    }
    let labels = labels_named(sheet, net);
    NetConnectivity { wires, labels }
}

/// The name of a net on the point.
pub fn net_at_point(sheet: &Sheet, p: Point) -> (r: Option<String>)
    ensures
        names_net(*sheet, p, text_option(r)),
{
    let mut g = graph(sheet);
    net_name(&mut g, p, Ghost(*sheet))
}

/// What stands at a point.
pub struct PointTrace {
    pub net: Option<String>,
    pub wires: Vec<usize>,
    pub labels: Vec<usize>,
}

/// What stands at a point: a net on it, the wires that pass there, and the
/// labels, within a tolerance.
pub fn trace_from_point(sheet: &Sheet, p: Point, tolerance: u64) -> (r: PointTrace)
    ensures
        names_net(*sheet, p, text_option(r.net)),
        selects(
            r.wires@,
            sheet.wires@.len(),
            |i: int|
                {
                    let w = sheet.wires@[i];
                    coincident(p, w.start, tolerance as int) || coincident(
                        p,
                        w.end,
                        tolerance as int,
                    ) || on_segment(p, w.start, w.end, tolerance as int)
                },
        ),
        selects(
            r.labels@,
            sheet.labels@.len(),
            |i: int| coincident(p, sheet.labels@[i].at, tolerance as int),
        ),
{
    let net = net_at_point(sheet, p);
    let ghost on_wire = |i: int|
        {
            let w = sheet.wires@[i];
            coincident(p, w.start, tolerance as int) || coincident(p, w.end, tolerance as int)
                || on_segment(p, w.start, w.end, tolerance as int)
        };
    let mut wires: Vec<usize> = Vec::new();
    let mut i: usize = 0;
    while i < sheet.wires.len()
        invariant
            i <= sheet.wires@.len(),
            on_wire == (|i: int|
                {
                    let w = sheet.wires@[i];
                    coincident(p, w.start, tolerance as int) || coincident(
                        p,
                        w.end,
                        tolerance as int,
                    ) || on_segment(p, w.start, w.end, tolerance as int)
                }),
            selects(wires@, i as nat, on_wire),
        decreases sheet.wires@.len() - i,
    {
        let ghost before = wires@;
        let w = &sheet.wires[i];
        if points_coincident(p, w.start, tolerance) || points_coincident(p, w.end, tolerance)
            || point_on_segment(p, w.start, w.end, tolerance) {
            wires.push(i);
        }
        proof {
            lemma_selects_next(before, wires@, i, on_wire);
        }
        i += 1;
    }
    let ghost at_label = |i: int| coincident(p, sheet.labels@[i].at, tolerance as int);
    let mut labels: Vec<usize> = Vec::new();
    let mut k: usize = 0;
    while k < sheet.labels.len()
        invariant
            k <= sheet.labels@.len(),
            at_label == (|i: int| coincident(p, sheet.labels@[i].at, tolerance as int)),
            selects(labels@, k as nat, at_label),
        decreases sheet.labels@.len() - k,
    {
        let ghost before = labels@;
        if points_coincident(p, sheet.labels[k].at, tolerance) {
            labels.push(k);
        }
        proof {
            lemma_selects_next(before, labels@, k, at_label);
        }
        k += 1;
    }
    PointTrace { net, wires, labels }
}

// ─── Components ───────────────────────────────────────────────────────────

/// Whether a symbol of the sheet has that reference.
pub open spec fn is_placed(sheet: Sheet, reference: Seq<char>) -> bool {
    exists|i: int|
        0 <= i < sheet.symbols@.len() && (#[trigger] sheet.symbols@[i]).reference@ == reference
}

/// What is told of a reference that no symbol has.
pub open spec fn not_placed(reference: Seq<char>) -> Seq<char> {
    "Component '"@ + reference + "' not found"@
}

fn check_placed(sheet: &Sheet, reference: &str) -> (r: bool)
    ensures
        r == is_placed(*sheet, reference@),
{
    let mut i: usize = 0;
    while i < sheet.symbols.len()
        invariant
            i <= sheet.symbols@.len(),
            forall|k: int|
                0 <= k < i ==> (#[trigger] sheet.symbols@[k]).reference@ != reference@,
        decreases sheet.symbols@.len() - i,
    {
        if text::same(sheet.symbols[i].reference.as_str(), reference) {
            proof {
                assert(sheet.symbols@[i as int].reference@ == reference@);
            }
            return true;
        }
        i += 1;
    }
    false
}

/// A pin of a placed unit, with a net on it.
pub struct UnitPin {
    pub number: String,
    pub name: String,
    pub unit: u32,
    pub at: Point,
    pub net: Option<String>,
}

/// The model of a pin of a placed unit.
pub ghost struct UnitPinView {
    pub number: Seq<char>,
    pub name: Seq<char>,
    pub unit: u32,
    pub at: Point,
    pub net: Option<Seq<char>>,
}

impl View for UnitPin {
    type V = UnitPinView;

    open spec fn view(&self) -> UnitPinView {
        UnitPinView {
            number: self.number@,
            name: self.name@,
            unit: self.unit,
            at: self.at,
            net: text_option(self.net),
        }
    }
}

/// The pins of a unit.
pub open spec fn unit_pins(s: NetSymbolView) -> Seq<UnitPinView> {
    s.pins.map_values(
        |p: NetPinView|
            UnitPinView { number: p.number, name: p.name, unit: s.unit, at: p.at, net: p.net },
    )
}

/// The pins of the units of that reference among the first `n` symbols: each
/// unit's own, and no other's.
pub open spec fn component_pins(
    symbols: Seq<NetSymbolView>,
    reference: Seq<char>,
    n: nat,
) -> Seq<UnitPinView>
    decreases n,
{
    if n == 0 {
        Seq::empty()
    } else {
        let rest = component_pins(symbols, reference, (n - 1) as nat);
        if symbols[n - 1].reference == reference {
            rest + unit_pins(symbols[n - 1])
        } else {
            rest
        }
    }
}

/// Whether the pins are those of the component, with the nets on them.
pub open spec fn is_component_nets(
    sheet: Sheet,
    reference: Seq<char>,
    pins: Seq<UnitPinView>,
    named: Seq<NetSymbolView>,
) -> bool {
    symbols_named(sheet, sheet.symbols@, named) && pins == component_pins(
        named,
        reference,
        named.len(),
    )
}

/// Whether the pins are those of the component, each with a net on it.
pub open spec fn gives_component_nets(
    sheet: Sheet,
    reference: Seq<char>,
    pins: Seq<UnitPinView>,
) -> bool {
    exists|named: Seq<NetSymbolView>| #[trigger]
        is_component_nets(sheet, reference, pins, named)
}

/// The pins of the component, unit by unit, with the nets on them.
pub fn get_component_nets(sheet: &Sheet, reference: &str) -> (r: Result<Vec<UnitPin>, String>)
    ensures
        r is Ok <==> is_placed(*sheet, reference@),
        r matches Ok(pins) ==> gives_component_nets(*sheet, reference@, models(pins@)),
        r matches Err(e) ==> e@ == not_placed(reference@),
{
    if !check_placed(sheet, reference) {
        return Err(text::cat3("Component '", reference, "' not found"));
    }
    let named = name_symbols(sheet);
    let ghost views = models(named@);
    let mut out: Vec<UnitPin> = Vec::new();
    let mut i: usize = 0;
    proof {
        assert(models(out@) =~= component_pins(views, reference@, 0));
        assert(views.len() == named@.len());
    }
    while i < named.len()
        invariant
            i <= named@.len(),
            views == models(named@),
            views.len() == named@.len(),
            models(out@) == component_pins(views, reference@, i as nat),
        decreases named@.len() - i,
    {
        let s = &named[i];
        let ghost had = models(out@);
        proof {
            assert(views[i as int] == s@);
            assert(had + Seq::<UnitPinView>::empty() =~= had);
        }
        if text::same(s.reference.as_str(), reference) {
            let ghost mine = unit_pins(s@);
            if let Some(pins) = &s.pins {
                let mut j: usize = 0;
                proof {
                    assert(s@.pins == models(pins@));
                    assert(had + mine.take(0) =~= had);
                }
                while j < pins.len()
                    invariant
                        j <= pins@.len(),
                        s@.pins == models(pins@),
                        mine == unit_pins(s@),
                        models(out@) == had + mine.take(j as int),
                    decreases pins@.len() - j,
                {
                    let p = &pins[j];
                    let pin = UnitPin {
                        number: p.number.clone(),
                        name: p.name.clone(),
                        unit: s.unit,
                        at: p.at,
                        net: copy_text_option(&p.net),
                    };
                    proof {
                        assert(models(pins@)[j as int] == p@);
                        assert(pin@ == mine[j as int]);
                        assert((had + mine.take(j as int)).push(pin@) =~= had + mine.take(j + 1));
                    }
                    push_model(&mut out, pin);
                    j += 1;
                }
                proof {
                    assert(mine.len() == pins@.len());
                    assert(mine.take(mine.len() as int) =~= mine);
                }
            } else {
                proof {
                    assert(mine =~= Seq::<UnitPinView>::empty());
                }
            }
        }
        i += 1;
    }
    proof {
        assert(is_component_nets(*sheet, reference@, models(out@), views));
    }
    Ok(out)
}

/// A component on a net: a placed unit, and those of its pins that are on it.
pub struct NetComponent {
    pub symbol: usize,
    pub pins: Vec<usize>,
}

/// Whether the places are those of the pins that meet the keys.
pub open spec fn meeting_pins(
    places: Seq<usize>,
    pins: Seq<PlacedPin>,
    on: spec_fn((i64, i64)) -> bool,
) -> bool {
    selects(places, pins.len(), |j: int| on(key_of(pins[j].at)))
}

/// Whether a unit has a pin that meets the keys.
pub open spec fn meets(s: Symbol, on: spec_fn((i64, i64)) -> bool) -> bool {
    exists|j: int| 0 <= j < pins_of(s).len() && on(key_of((#[trigger] pins_of(s)[j]).at))
}

/// The places of the units in a list of components.
pub open spec fn component_places(list: Seq<NetComponent>) -> Seq<usize> {
    list.map_values(|c: NetComponent| c.symbol)
}

/// Whether the list is that of the units with a pin that meets the keys, in
/// order, each with those pins. Units of the excluded reference are left out.
pub open spec fn lists_components(
    list: Seq<NetComponent>,
    symbols: Seq<Symbol>,
    n: nat,
    on: spec_fn((i64, i64)) -> bool,
    excluded: Option<Seq<char>>,
) -> bool {
    &&& selects(
        component_places(list),
        n,
        |i: int| meets(symbols[i], on) && Some(symbols[i].reference@) != excluded,
    )
    &&& forall|c: int|
        0 <= c < list.len() ==> meeting_pins(
            (#[trigger] list[c]).pins@,
            pins_of(symbols[list[c].symbol as int]),
            on,
        )
}

fn pins_meeting(s: &Symbol, keys: &Vec<(i64, i64)>) -> (places: Vec<usize>)
    ensures
        meeting_pins(places@, pins_of(*s), |k: (i64, i64)| keys@.contains(k)),
{
    let mut places: Vec<usize> = Vec::new();
    let ghost on = |k: (i64, i64)| keys@.contains(k);
    if let Some(pins) = &s.pins {
        let ghost keep = |j: int| on(key_of(pins_of(*s)[j].at));
        let mut j: usize = 0;
        while j < pins.len()
            invariant
                j <= pins@.len(),
                pins@ == pins_of(*s),
                on == (|k: (i64, i64)| keys@.contains(k)),
                keep == (|j: int| on(key_of(pins_of(*s)[j].at))),
                selects(places@, j as nat, keep),
            decreases pins@.len() - j,
        {
            let ghost before = places@;
            if has_key(keys, pt_key(pins[j].at)) {
                places.push(j);
            }
            proof {
                lemma_selects_next(before, places@, j, keep);
            }
            j += 1;
        }
    }
    places
}

fn components_meeting(symbols: &Vec<Symbol>, keys: &Vec<(i64, i64)>, excluded: Option<&str>) -> (
    list: Vec<NetComponent>)
    ensures
        lists_components(
            list@,
            symbols@,
            symbols@.len(),
            |k: (i64, i64)| keys@.contains(k),
            match excluded {
                Some(e) => Some(e@),
                None => None,
            },
        ),
{
    let ghost on = |k: (i64, i64)| keys@.contains(k);
    let ghost left_out = match excluded {
        Some(e) => Some(e@),
        None => None,
    };
    let ghost keep = |i: int| meets(symbols@[i], on) && Some(symbols@[i].reference@) != left_out;
    let mut list: Vec<NetComponent> = Vec::new();
    let mut i: usize = 0;
    while i < symbols.len()
        invariant
            i <= symbols@.len(),
            on == (|k: (i64, i64)| keys@.contains(k)),
            left_out == (match excluded {
                Some(e) => Some(e@),
                None => None,
            }),
            keep == (|i: int|
                meets(symbols@[i], on) && Some(symbols@[i].reference@) != left_out),
            selects(component_places(list@), i as nat, keep),
            forall|c: int|
                0 <= c < list@.len() ==> meeting_pins(
                    (#[trigger] list@[c]).pins@,
                    pins_of(symbols@[list@[c].symbol as int]),
                    on,
                ),
        decreases symbols@.len() - i,
    {
        let s = &symbols[i];
        let ghost before = component_places(list@);
        let other = match excluded {
            Some(e) => !text::same(s.reference.as_str(), e),
            None => true,
        };
        let pins = pins_meeting(s, keys);
        proof {
            if pins@.len() > 0 {
                assert(pins@.contains(pins@[0]));
                assert(on(key_of(pins_of(*s)[pins@[0] as int].at)));
            }
            if meets(*s, on) {
                let j = choose|j: int|
                    0 <= j < pins_of(*s).len() && on(key_of((#[trigger] pins_of(*s)[j]).at));
                assert(pins_of(*s).len() <= usize::MAX) by {
                    assert(s.pins is Some);
                    assert(s.pins->0.len() == pins_of(*s).len());
                }
                assert(pins@.contains(j as usize));
            }
        }
        if other && pins.len() > 0 {
            list.push(NetComponent { symbol: i, pins });
            proof {
                assert(component_places(list@) =~= before.push(i));
            }
        }
        proof {
            assert(keep(i as int) <==> other && meets(*s, on));
            lemma_selects_next(before, component_places(list@), i, keep);
        }
        i += 1;
    }
    list
}

/// The components on a net.
pub fn get_net_components(sheet: &Sheet, net: &str) -> (list: Vec<NetComponent>)
    ensures
        lists_components(
            list@,
            sheet.symbols@,
            sheet.symbols@.len(),
            |k: (i64, i64)| carries(*sheet, net@, k),
            None,
        ),
{
    let mut g = graph(sheet);
    let points = net_points(&mut g, net, Ghost(*sheet));
    let list = components_meeting(&sheet.symbols, &points, None);
    proof {
        assert((|k: (i64, i64)| points@.contains(k)) =~= (|k: (i64, i64)|
            carries(*sheet, net@, k)));
    }
    list
}

// ─── Connected items ──────────────────────────────────────────────────────

/// Whether a pin of a unit of that reference is on the net.
pub open spec fn pin_is_on(
    symbols: Seq<NetSymbolView>,
    reference: Seq<char>,
    net: Seq<char>,
) -> bool {
    exists|i: int, j: int|
        #![trigger symbols[i].pins[j]]
        0 <= i < symbols.len() && symbols[i].reference == reference && 0 <= j
            < symbols[i].pins.len() && symbols[i].pins[j].net == Some(net)
}

/// Whether the nets are those that the pins of the component are on, each
/// once.
pub open spec fn is_nets_of(
    sheet: Sheet,
    reference: Seq<char>,
    nets: Seq<Seq<char>>,
    named: Seq<NetSymbolView>,
) -> bool {
    &&& symbols_named(sheet, sheet.symbols@, named)
    &&& nets.no_duplicates()
    &&& forall|t: Seq<char>| #[trigger] nets.contains(t) <==> pin_is_on(named, reference, t)
}

/// Whether the point is on one of the nets.
pub open spec fn on_any(sheet: Sheet, nets: Seq<Seq<char>>, k: (i64, i64)) -> bool {
    exists|i: int| 0 <= i < nets.len() && carries(sheet, #[trigger] nets[i], k)
}

/// What a component is connected to: the nets, and the wires, labels and other
/// components on them.
pub struct ConnectedItems {
    pub nets: Vec<String>,
    pub wires: Vec<usize>,
    pub labels: Vec<usize>,
    pub components: Vec<NetComponent>,
}

/// Whether a pin of the first `n` symbols that has the reference is on the net.
spec fn pin_is_on_first(
    symbols: Seq<NetSymbolView>,
    reference: Seq<char>,
    net: Seq<char>,
    n: int,
) -> bool {
    exists|i: int, j: int|
        #![trigger symbols[i].pins[j]]
        0 <= i < n && symbols[i].reference == reference && 0 <= j < symbols[i].pins.len()
            && symbols[i].pins[j].net == Some(net)
}

fn component_net_names(named: &Vec<NetSymbol>, reference: &str) -> (nets: Vec<String>)
    ensures
        models(nets@).no_duplicates(),
        forall|t: Seq<char>| #[trigger]
            models(nets@).contains(t) <==> pin_is_on(models(named@), reference@, t),
{
    let mut nets: Vec<String> = Vec::new();
    let ghost views = models(named@);
    let mut i: usize = 0;
    proof {
        assert(views.len() == named@.len());
    }
    while i < named.len()
        invariant
            i <= named@.len(),
            views == models(named@),
            views.len() == named@.len(),
            models(nets@).no_duplicates(),
            forall|t: Seq<char>| #[trigger]
                models(nets@).contains(t) <==> pin_is_on_first(views, reference@, t, i as int),
        decreases named@.len() - i,
    {
        let s = &named[i];
        let ghost had = models(nets@);
        proof {
            assert(views[i as int] == s@);
        }
        if text::same(s.reference.as_str(), reference) {
            if let Some(pins) = &s.pins {
                let mut j: usize = 0;
                while j < pins.len()
                    invariant
                        j <= pins@.len(),
                        s@.pins == models(pins@),
                        models(nets@).no_duplicates(),
                        forall|t: Seq<char>| #[trigger]
                            models(nets@).contains(t) <==> had.contains(t) || exists|m: int|
                                0 <= m < j && (#[trigger] s@.pins[m]).net == Some(t),
                    decreases pins@.len() - j,
                {
                    let ghost before = models(nets@);
                    proof {
                        assert(s@.pins[j as int] == pins@[j as int]@);
                    }
                    if let Some(n) = &pins[j].net {
                        text::add_once(&mut nets, n.as_str());
                    }
                    proof {
                        assert forall|t: Seq<char>| #[trigger] models(nets@).contains(t) <==>
                            had.contains(t) || exists|m: int|
                            0 <= m < j + 1 && (#[trigger] s@.pins[m]).net == Some(t) by {
                            assert(before.contains(t) <==> had.contains(t) || exists|m: int|
                                0 <= m < j && (#[trigger] s@.pins[m]).net == Some(t));
                            if s@.pins[j as int].net == Some(t) {
                                assert(models(nets@).contains(t));
                            }
                        }
                    }
                    j += 1;
                }
            }
        }
        proof {
            assert forall|t: Seq<char>| #[trigger] models(nets@).contains(t) <==> pin_is_on_first(
                views,
                reference@,
                t,
                i + 1,
            ) by {
                assert(had.contains(t) <==> pin_is_on_first(views, reference@, t, i as int));
                if pin_is_on_first(views, reference@, t, i as int) {
                    let (a, b) = choose|a: int, b: int|
                        #![trigger views[a].pins[b]]
                        0 <= a < i && views[a].reference == reference@ && 0 <= b
                            < views[a].pins.len() && views[a].pins[b].net == Some(t);
                    assert(views[a].pins[b].net == Some(t));
                }
                if pin_is_on_first(views, reference@, t, i + 1) {
                    let (a, b) = choose|a: int, b: int|
                        #![trigger views[a].pins[b]]
                        0 <= a < i + 1 && views[a].reference == reference@ && 0 <= b
                            < views[a].pins.len() && views[a].pins[b].net == Some(t);
                    if a < i {
                        assert(views[a].pins[b].net == Some(t));
                    } else {
                        assert(s@.pins[b].net == Some(t));
                    }
                }
                if models(nets@).contains(t) && !had.contains(t) {
                    let m = choose|m: int|
                        0 <= m < s@.pins.len() && (#[trigger] s@.pins[m]).net == Some(t);
                    assert(views[i as int].pins[m].net == Some(t));
                }
            }
        }
        i += 1;
    }
    proof {
        assert forall|t: Seq<char>| #[trigger] models(nets@).contains(t) <==> pin_is_on(
            views,
            reference@,
            t,
        ) by {
            assert(pin_is_on_first(views, reference@, t, views.len() as int) <==> pin_is_on(
                views,
                reference@,
                t,
            ));
        }
    }
    nets
}

fn points_of_nets(sheet: &Sheet, nets: &Vec<String>) -> (keys: Vec<(i64, i64)>)
    ensures
        forall|k: (i64, i64)| #[trigger]
            keys@.contains(k) <==> on_any(*sheet, models(nets@), k),
{
    let mut g = graph(sheet);
    let mut keys: Vec<(i64, i64)> = Vec::new();
    let ghost names = models(nets@);
    let mut i: usize = 0;
    proof {
        assert(names.len() == nets@.len());
    }
    while i < nets.len()
        invariant
            i <= nets@.len(),
            names == models(nets@),
            names.len() == nets@.len(),
            g.wf(),
            graph_of(g@, *sheet),
            forall|k: (i64, i64)| #[trigger]
                keys@.contains(k) <==> on_any(*sheet, names.take(i as int), k),
        decreases nets@.len() - i,
    {
        let ghost had = keys@;
        let points = net_points(&mut g, nets[i].as_str(), Ghost(*sheet));
        let mut j: usize = 0;
        while j < points.len()
            invariant
                j <= points@.len(),
                keys@ == had + points@.take(j as int),
            decreases points@.len() - j,
        {
            keys.push(points[j]);
            proof {
                assert((had + points@.take(j as int)).push(points@[j as int]) =~= had
                    + points@.take(j + 1));
            }
            j += 1;
        }
        proof {
            assert(points@.take(points@.len() as int) =~= points@);
            assert forall|k: (i64, i64)| #[trigger] keys@.contains(k) <==> on_any(
                *sheet,
                names.take(i + 1),
                k,
            ) by {
                assert(names[i as int] == nets@[i as int]@);
                assert(had.contains(k) <==> on_any(*sheet, names.take(i as int), k));
                assert(points@.contains(k) <==> carries(*sheet, names[i as int], k));
                assert(keys@.contains(k) <==> had.contains(k) || points@.contains(k)) by {
                    if had.contains(k) {
                        let m = choose|m: int| 0 <= m < had.len() && had[m] == k;
                        assert(keys@[m] == k);
                    }
                    if points@.contains(k) {
                        let m = choose|m: int| 0 <= m < points@.len() && points@[m] == k;
                        assert(keys@[had.len() + m] == k);
                    }
                    if keys@.contains(k) {
                        let m = choose|m: int| 0 <= m < keys@.len() && keys@[m] == k;
                        if m < had.len() {
                            assert(had[m] == k);
                        } else {
                            assert(points@[m - had.len()] == k);
                        }
                    }
                }
                if on_any(*sheet, names.take(i as int), k) {
                    let m = choose|m: int|
                        0 <= m < i && carries(*sheet, #[trigger] names.take(i as int)[m], k);
                    assert(names.take(i + 1)[m] == names.take(i as int)[m]);
                }
                if on_any(*sheet, names.take(i + 1), k) {
                    let m = choose|m: int|
                        0 <= m < i + 1 && carries(*sheet, #[trigger] names.take(i + 1)[m], k);
                    if m < i {
                        assert(names.take(i as int)[m] == names.take(i + 1)[m]);
                    }
                }
                if carries(*sheet, names[i as int], k) {
                    assert(names.take(i + 1)[i as int] == names[i as int]);
                }
            }
        }
        i += 1;
    }
    proof {
        assert(names.take(names.len() as int) =~= names);
    }
    keys
}

fn labels_of_nets(sheet: &Sheet, nets: &Vec<String>) -> (places: Vec<usize>)
    ensures
        selects(
            places@,
            sheet.labels@.len(),
            |i: int| models(nets@).contains(sheet.labels@[i].net@),
        ),
{
    let mut places: Vec<usize> = Vec::new();
    let ghost keep = |i: int| models(nets@).contains(sheet.labels@[i].net@);
    let mut i: usize = 0;
    while i < sheet.labels.len()
        invariant
            i <= sheet.labels@.len(),
            keep == (|i: int| models(nets@).contains(sheet.labels@[i].net@)),
            selects(places@, i as nat, keep),
        decreases sheet.labels@.len() - i,
    {
        let ghost before = places@;
        if text::list_contains(nets, sheet.labels[i].net.as_str()) {
            places.push(i);
        }
        proof {
            lemma_selects_next(before, places@, i, keep);
        }
        i += 1;
    }
    places
}

/// What a component is connected to, through the pins of all its placed units.
pub fn get_connected_items(sheet: &Sheet, reference: &str) -> (r: Result<ConnectedItems, String>)
    ensures
        match r {
            Err(e) => !is_placed(*sheet, reference@) && e@ == not_placed(reference@),
            Ok(c) => {
                let nets = models(c.nets@);
                &&& is_placed(*sheet, reference@)
                &&& exists|named: Seq<NetSymbolView>| #[trigger]
                    is_nets_of(*sheet, reference@, nets, named)
                &&& selects(
                    c.wires@,
                    sheet.wires@.len(),
                    |i: int|
                        on_any(*sheet, nets, key_of(sheet.wires@[i].start)) || on_any(
                            *sheet,
                            nets,
                            key_of(sheet.wires@[i].end),
                        ),
                )
                &&& selects(
                    c.labels@,
                    sheet.labels@.len(),
                    |i: int| nets.contains(sheet.labels@[i].net@),
                )
                &&& lists_components(
                    c.components@,
                    sheet.symbols@,
                    sheet.symbols@.len(),
                    |k: (i64, i64)| on_any(*sheet, nets, k),
                    Some(reference@),
                )
            },
        },
{
    if !check_placed(sheet, reference) {
        return Err(text::cat3("Component '", reference, "' not found"));
    }
    let named = name_symbols(sheet);
    let nets = component_net_names(&named, reference);
    let ghost names = models(nets@);
    let keys = points_of_nets(sheet, &nets);
    let wires = wires_touching(sheet, &keys);
    let labels = labels_of_nets(sheet, &nets);
    let components = components_meeting(&sheet.symbols, &keys, Some(reference));
    proof {
        assert(is_nets_of(*sheet, reference@, names, models(named@)));
        lemma_selects_same(
            wires@,
            sheet.wires@.len(),
            |i: int|
                keys@.contains(key_of(sheet.wires@[i].start)) || keys@.contains(
                    key_of(sheet.wires@[i].end),
                ),
            |i: int|
                on_any(*sheet, names, key_of(sheet.wires@[i].start)) || on_any(
                    *sheet,
                    names,
                    key_of(sheet.wires@[i].end),
                ),
        );
        assert((|k: (i64, i64)| keys@.contains(k)) =~= (|k: (i64, i64)|
            on_any(*sheet, names, k)));
    }
    Ok(ConnectedItems { nets, wires, labels, components })
}

// ─── Shorts ───────────────────────────────────────────────────────────────

/// Whether two labels are joined.
pub open spec fn labels_joined(sheet: Sheet, i: int, j: int) -> bool {
    linked(
        sheet_edges(sheet.wires@, sheet.labels@, sheet.junctions@),
        key_of(sheet.labels@[i].at),
        key_of(sheet.labels@[j].at),
    )
}

/// Whether a label is the first of those that it is joined to.
pub open spec fn is_first_label(sheet: Sheet, i: int) -> bool {
    forall|j: int| 0 <= j < i ==> !#[trigger] labels_joined(sheet, i, j)
}

/// Whether a label of that name is joined to the label.
pub open spec fn joins_name(sheet: Sheet, i: int, net: Seq<char>) -> bool {
    exists|j: int|
        0 <= j < sheet.labels@.len() && #[trigger] labels_joined(sheet, i, j)
            && sheet.labels@[j].net@ == net
}

/// Whether differently named labels are joined to the label.
pub open spec fn is_shorted(sheet: Sheet, i: int) -> bool {
    exists|t: Seq<char>|
        t != sheet.labels@[i].net@ && #[trigger] joins_name(sheet, i, t)
}

/// Nets that are joined: the first of their labels, and their names.
pub struct Short {
    pub label: usize,
    pub nets: Vec<String>,
}

/// The first labels of a list of shorts.
pub open spec fn short_labels(list: Seq<Short>) -> Seq<usize> {
    list.map_values(|s: Short| s.label)
}

/// Whether the names are those of the labels that are joined to the label,
/// each once, in ascending order.
pub open spec fn is_joined_names(sheet: Sheet, i: int, nets: Seq<Seq<char>>) -> bool {
    &&& strictly_ascending(nets)
    &&& forall|t: Seq<char>| #[trigger] nets.contains(t) <==> joins_name(sheet, i, t)
}

fn joined_names(g: &mut NetGraph, sheet: &Sheet, i: usize) -> (r: (bool, Vec<String>))
    requires
        old(g).wf(),
        graph_of(old(g)@, *sheet),
        i < sheet.labels@.len(),
    ensures
        final(g).wf(),
        graph_of(final(g)@, *sheet),
        r.0 == is_first_label(*sheet, i as int),
        is_joined_names(*sheet, i as int, models(r.1@)),
{
    let mut names: Vec<String> = Vec::new();
    let mut first = true;
    let ghost ki = key_of(sheet.labels@[i as int].at);
    let ghost start = g@;
    let here = g.find(pt_key(sheet.labels[i].at));
    proof {
        lemma_graph_of_ensured(start, *sheet, ki);
        assert(g@.root(ki) == start.root(ki));
    }
    let mut j: usize = 0;
    while j < sheet.labels.len()
        invariant
            i < sheet.labels@.len(),
            j <= sheet.labels@.len(),
            g.wf(),
            graph_of(g@, *sheet),
            ki == key_of(sheet.labels@[i as int].at),
            here == g@.root(ki),
            first <==> forall|k: int| 0 <= k < j && k < i ==> !#[trigger] labels_joined(*sheet, i as int, k),
            forall|t: Seq<char>| #[trigger]
                models(names@).contains(t) <==> exists|k: int|
                    0 <= k < j && #[trigger] labels_joined(*sheet, i as int, k)
                        && sheet.labels@[k].net@ == t,
        decreases sheet.labels@.len() - j,
    {
        let ghost before = g@;
        let ghost had = models(names@);
        let kj = pt_key(sheet.labels[j].at);
        let there = g.find(kj);
        let joined = same_key(here, there);
        proof {
            lemma_graph_of_ensured(before, *sheet, kj);
            assert(g@.root(ki) == before.root(ki));
            assert(before.connected(ki, kj) <==> joined);
            assert(labels_joined(*sheet, i as int, j as int) <==> joined);
        }
        if joined {
            if j < i {
                first = false;
            }
            push_model(&mut names, sheet.labels[j].net.clone());
        }
        proof {
            let nj = sheet.labels@[j as int].net@;
            assert forall|t: Seq<char>| #[trigger] models(names@).contains(t) <==> exists|k: int|
                0 <= k < j + 1 && #[trigger] labels_joined(*sheet, i as int, k)
                    && sheet.labels@[k].net@ == t by {
                assert(had.contains(t) <==> exists|k: int|
                    0 <= k < j && #[trigger] labels_joined(*sheet, i as int, k)
                        && sheet.labels@[k].net@ == t);
                if joined {
                    lemma_contains_push(had, nj, t);
                    if t == nj {
                        assert(labels_joined(*sheet, i as int, j as int));
                    }
                }
            }
        }
        j += 1;
    }
    let sorted = text::sorted_distinct(&names);
    proof {
        assert forall|t: Seq<char>| #[trigger] models(sorted@).contains(t) <==> joins_name(
            *sheet,
            i as int,
            t,
        ) by {
            assert(models(sorted@).contains(t) <==> models(names@).contains(t));
        }
    }
    (first, sorted)
}

/// The nets that are joined although their labels have different names: one
/// entry for each group of joined labels, under the first of them.
pub fn find_shorted_nets(sheet: &Sheet) -> (list: Vec<Short>)
    ensures
        selects(
            short_labels(list@),
            sheet.labels@.len(),
            |i: int| is_first_label(*sheet, i) && is_shorted(*sheet, i),
        ),
        forall|c: int|
            0 <= c < list@.len() ==> is_joined_names(
                *sheet,
                (#[trigger] list@[c]).label as int,
                models(list@[c].nets@),
            ),
{
    let mut g = graph(sheet);
    let mut list: Vec<Short> = Vec::new();
    let ghost keep = |i: int| is_first_label(*sheet, i) && is_shorted(*sheet, i);
    let mut i: usize = 0;
    while i < sheet.labels.len()
        invariant
            i <= sheet.labels@.len(),
            g.wf(),
            graph_of(g@, *sheet),
            keep == (|i: int| is_first_label(*sheet, i) && is_shorted(*sheet, i)),
            selects(short_labels(list@), i as nat, keep),
            forall|c: int|
                0 <= c < list@.len() ==> is_joined_names(
                    *sheet,
                    (#[trigger] list@[c]).label as int,
                    models(list@[c].nets@),
                ),
        decreases sheet.labels@.len() - i,
    {
        let ghost before = short_labels(list@);
        let (first, nets) = joined_names(&mut g, sheet, i);
        let ghost names = models(nets@);
        let many: bool = nets.len() > 1;
        proof {
            let own = sheet.labels@[i as int].net@;
            let k = key_of(sheet.labels@[i as int].at);
            law_linked_is_equivalence(
                sheet_edges(sheet.wires@, sheet.labels@, sheet.junctions@),
                k,
                k,
                k,
            );
            assert(labels_joined(*sheet, i as int, i as int));
            assert(joins_name(*sheet, i as int, own));
            assert(names.contains(own));
            assert(names.len() == nets@.len());
            if many {
                let other = if names[0] == own {
                    names[1]
                } else {
                    names[0]
                };
                assert(names.contains(names[0]) && names.contains(names[1]));
                text::lemma_precedes_irreflexive(names[0]);
                assert(text::precedes(names[0], names[1]));
                assert(other != own);
                assert(joins_name(*sheet, i as int, other));
            }
            if is_shorted(*sheet, i as int) {
                let t = choose|t: Seq<char>|
                    t != own && #[trigger] joins_name(*sheet, i as int, t);
                assert(names.contains(t));
                let a = choose|a: int| 0 <= a < names.len() && names[a] == own;
                let b = choose|b: int| 0 <= b < names.len() && names[b] == t;
                assert(a != b);
            }
            assert(many <==> is_shorted(*sheet, i as int));
        }
        if first && many {
            list.push(Short { label: i, nets });
            proof {
                assert(short_labels(list@) =~= before.push(i));
            }
        }
        proof {
            lemma_selects_next(before, short_labels(list@), i, keep);
        }
        i += 1;
    }
    list
}

/// Whether no other label has the name of the label.
pub open spec fn is_single(sheet: Sheet, i: int) -> bool {
    forall|j: int|
        0 <= j < sheet.labels@.len() && j != i ==> (#[trigger] sheet.labels@[j]).net@
            != sheet.labels@[i].net@
}

/// The labels whose names no other label has.
pub fn find_single_pin_nets(sheet: &Sheet) -> (places: Vec<usize>)
    ensures
        selects(places@, sheet.labels@.len(), |i: int| is_single(*sheet, i)),
{
    let mut places: Vec<usize> = Vec::new();
    let ghost keep = |i: int| is_single(*sheet, i);
    let mut i: usize = 0;
    while i < sheet.labels.len()
        invariant
            i <= sheet.labels@.len(),
            keep == (|i: int| is_single(*sheet, i)),
            selects(places@, i as nat, keep),
        decreases sheet.labels@.len() - i,
    {
        let ghost before = places@;
        let mut single = true;
        let mut j: usize = 0;
        while j < sheet.labels.len()
            invariant
                i < sheet.labels@.len(),
                j <= sheet.labels@.len(),
                single <==> forall|k: int|
                    0 <= k < j && k != i ==> (#[trigger] sheet.labels@[k]).net@
                        != sheet.labels@[i as int].net@,
            decreases sheet.labels@.len() - j,
        {
            if j != i && text::same(
                sheet.labels[j].net.as_str(),
                sheet.labels[i].net.as_str(),
            ) {
                proof {
                    assert(sheet.labels@[j as int].net@ == sheet.labels@[i as int].net@);
                }
                single = false;
            }
            j += 1;
        }
        if single {
            places.push(i);
        }
        proof {
            lemma_selects_next(before, places@, i, keep);
        }
        i += 1;
    }
    places
}

// ─── Overlaps ─────────────────────────────────────────────────────────────

/// What lies on something else: the places of both.
pub struct Overlaps {
    pub components: Vec<(usize, usize)>,
    pub labels: Vec<(usize, usize)>,
}

/// Whether the pairs, in order of their first and then of their second place,
/// are those of which both places are below `n`, the first lower, and that
/// overlap.
pub open spec fn lists_pairs(
    pairs: Seq<(usize, usize)>,
    n: nat,
    overlap: spec_fn(int, int) -> bool,
) -> bool {
    &&& forall|a: int, b: int|
        0 <= a < b < pairs.len() ==> pair_before(#[trigger] pairs[a], #[trigger] pairs[b])
    &&& forall|p: (usize, usize)| #[trigger]
        pairs.contains(p) <==> p.0 < p.1 && p.1 < n && overlap(p.0 as int, p.1 as int)
}

/// The order of pairs.
pub open spec fn pair_before(p: (usize, usize), q: (usize, usize)) -> bool {
    p.0 < q.0 || (p.0 == q.0 && p.1 < q.1)
}

/// Whether the pairs are those found once the places before `(i, j)` are done.
spec fn found_pairs(
    pairs: Seq<(usize, usize)>,
    n: nat,
    overlap: spec_fn(int, int) -> bool,
    i: int,
    j: int,
) -> bool {
    &&& forall|a: int, b: int|
        0 <= a < b < pairs.len() ==> pair_before(#[trigger] pairs[a], #[trigger] pairs[b])
    &&& forall|p: (usize, usize)| #[trigger]
        pairs.contains(p) <==> p.0 < p.1 && p.1 < n && overlap(p.0 as int, p.1 as int) && (p.0 < i
            || (p.0 == i && p.1 < j))
}

proof fn lemma_next_pair(
    before: Seq<(usize, usize)>,
    after: Seq<(usize, usize)>,
    n: nat,
    overlap: spec_fn(int, int) -> bool,
    i: usize,
    j: usize,
)
    requires
        found_pairs(before, n, overlap, i as int, j as int),
        i < j < n,
        after == (if overlap(i as int, j as int) {
            before.push((i, j))
        } else {
            before
        }),
    ensures
        found_pairs(after, n, overlap, i as int, j + 1),
{
    assert forall|p: (usize, usize)| #[trigger] after.contains(p) <==> p.0 < p.1 && p.1 < n
        && overlap(p.0 as int, p.1 as int) && (p.0 < i || (p.0 == i && p.1 < j + 1)) by {
        assert(before.contains(p) <==> p.0 < p.1 && p.1 < n && overlap(p.0 as int, p.1 as int) && (
        p.0 < i || (p.0 == i && p.1 < j)));
        if overlap(i as int, j as int) {
            lemma_contains_push(before, (i, j), p);
        }
    }
    assert forall|a: int, b: int| 0 <= a < b < after.len() implies pair_before(
        #[trigger] after[a],
        #[trigger] after[b],
    ) by {
        if b == before.len() {
            assert(before.contains(before[a]));
        }
    }
}

proof fn lemma_next_row(
    pairs: Seq<(usize, usize)>,
    n: nat,
    overlap: spec_fn(int, int) -> bool,
    i: int,
)
    requires
        found_pairs(pairs, n, overlap, i, n as int),
        i < n,
    ensures
        found_pairs(pairs, n, overlap, i + 1, i + 2),
{
    assert forall|p: (usize, usize)| #[trigger] pairs.contains(p) <==> p.0 < p.1 && p.1 < n
        && overlap(p.0 as int, p.1 as int) && (p.0 < i + 1 || (p.0 == i + 1 && p.1 < i + 2)) by {
        assert(pairs.contains(p) <==> p.0 < p.1 && p.1 < n && overlap(p.0 as int, p.1 as int) && (
        p.0 < i || (p.0 == i && p.1 < n)));
    }
}

/// Whether two symbols lie on each other.
pub open spec fn symbols_overlap(sheet: Sheet, tolerance: int, i: int, j: int) -> bool {
    coincident(sheet.symbols@[i].at, sheet.symbols@[j].at, tolerance)
}

/// Whether two labels of different names lie on each other.
pub open spec fn labels_overlap(sheet: Sheet, tolerance: int, i: int, j: int) -> bool {
    coincident(sheet.labels@[i].at, sheet.labels@[j].at, tolerance) && sheet.labels@[i].net@
        != sheet.labels@[j].net@
}

/// The symbols that lie on each other, and the labels of different names that
/// do.
pub fn check_overlaps(sheet: &Sheet, tolerance: u64) -> (r: Overlaps)
    ensures
        lists_pairs(
            r.components@,
            sheet.symbols@.len(),
            |i: int, j: int| symbols_overlap(*sheet, tolerance as int, i, j),
        ),
        lists_pairs(
            r.labels@,
            sheet.labels@.len(),
            |i: int, j: int| labels_overlap(*sheet, tolerance as int, i, j),
        ),
{
    let mut components: Vec<(usize, usize)> = Vec::new();
    let ghost on_symbol = |i: int, j: int| symbols_overlap(*sheet, tolerance as int, i, j);
    let n: usize = sheet.symbols.len();
    let mut i: usize = 0;
    while i < n
        invariant
            n == sheet.symbols@.len(),
            i <= n,
            on_symbol == (|i: int, j: int| symbols_overlap(*sheet, tolerance as int, i, j)),
            found_pairs(components@, n as nat, on_symbol, i as int, i + 1),
        decreases n - i,
    {
        let mut j: usize = i + 1;
        while j < n
            invariant
                n == sheet.symbols@.len(),
                i < j <= n,
                on_symbol == (|i: int, j: int| symbols_overlap(*sheet, tolerance as int, i, j)),
                found_pairs(components@, n as nat, on_symbol, i as int, j as int),
            decreases n - j,
        {
            let ghost before = components@;
            if points_coincident(sheet.symbols[i].at, sheet.symbols[j].at, tolerance) {
                components.push((i, j));
            }
            proof {
                lemma_next_pair(before, components@, n as nat, on_symbol, i, j);
            }
            j += 1;
        }
        proof {
            lemma_next_row(components@, n as nat, on_symbol, i as int);
        }
        i += 1;
    }
    let mut labels: Vec<(usize, usize)> = Vec::new();
    let ghost on_label = |i: int, j: int| labels_overlap(*sheet, tolerance as int, i, j);
    let m: usize = sheet.labels.len();
    let mut a: usize = 0;
    while a < m
        invariant
            m == sheet.labels@.len(),
            a <= m,
            on_label == (|i: int, j: int| labels_overlap(*sheet, tolerance as int, i, j)),
            found_pairs(labels@, m as nat, on_label, a as int, a + 1),
        decreases m - a,
    {
        let mut b: usize = a + 1;
        while b < m
            invariant
                m == sheet.labels@.len(),
                a < b <= m,
                on_label == (|i: int, j: int| labels_overlap(*sheet, tolerance as int, i, j)),
                found_pairs(labels@, m as nat, on_label, a as int, b as int),
            decreases m - b,
        {
            let ghost before = labels@;
            if points_coincident(sheet.labels[a].at, sheet.labels[b].at, tolerance) && !text::same(
                sheet.labels[a].net.as_str(),
                sheet.labels[b].net.as_str(),
            ) {
                labels.push((a, b));
            }
            proof {
                lemma_next_pair(before, labels@, m as nat, on_label, a, b);
            }
            b += 1;
        }
        proof {
            lemma_next_row(labels@, m as nat, on_label, a as int);
        }
        a += 1;
    }
    Overlaps { components, labels }
}

// ─── Laws ─────────────────────────────────────────────────────────────────

/// Two labels of different names on one wire are a short: the first of the
/// labels that are joined to them is reported, and both names with it.
pub proof fn law_names_on_one_wire_are_shorted(sheet: Sheet, i: int, j: int, w: int) -> (first: int)
    requires
        0 <= i < sheet.labels@.len(),
        0 <= j < sheet.labels@.len(),
        0 <= w < sheet.wires@.len(),
        passes_through(sheet.wires@[w], sheet.labels@[i].at),
        passes_through(sheet.wires@[w], sheet.labels@[j].at),
        sheet.labels@[i].net@ != sheet.labels@[j].net@,
    ensures
        0 <= first < sheet.labels@.len(),
        is_first_label(sheet, first),
        is_shorted(sheet, first),
        joins_name(sheet, first, sheet.labels@[i].net@),
        joins_name(sheet, first, sheet.labels@[j].net@),
{
    let (wires, labels, dots) = (sheet.wires@, sheet.labels@, sheet.junctions@);
    let edges = sheet_edges(wires, labels, dots);
    law_label_joins_the_wires_it_sits_on(wires, labels, dots, i, w, w);
    law_label_joins_the_wires_it_sits_on(wires, labels, dots, j, w, w);
    let start = key_of(wires[w].start);
    law_linked_is_equivalence(edges, key_of(labels[j].at), start, start);
    law_linked_is_equivalence(edges, key_of(labels[i].at), start, key_of(labels[j].at));
    assert(labels_joined(sheet, i, j));
    let first = lemma_first_joined(sheet, i, i);
    law_linked_is_equivalence(
        edges,
        key_of(labels[first].at),
        key_of(labels[i].at),
        key_of(labels[j].at),
    );
    assert(labels_joined(sheet, first, i));
    assert(labels_joined(sheet, first, j));
    if labels[first].net@ == labels[i].net@ {
        assert(joins_name(sheet, first, labels[j].net@));
    } else {
        assert(joins_name(sheet, first, labels[i].net@));
    }
    first
}

/// The first of the labels that a label is joined to.
proof fn lemma_first_joined(sheet: Sheet, i: int, k: int) -> (first: int)
    requires
        0 <= k < sheet.labels@.len(),
        0 <= i < sheet.labels@.len(),
        labels_joined(sheet, k, i),
    ensures
        0 <= first <= k,
        is_first_label(sheet, first),
        labels_joined(sheet, first, i),
    decreases k,
{
    let edges = sheet_edges(sheet.wires@, sheet.labels@, sheet.junctions@);
    if is_first_label(sheet, k) {
        k
    } else {
        let j = choose|j: int| 0 <= j < k && #[trigger] labels_joined(sheet, k, j);
        let (a, b, c) = (
            key_of(sheet.labels@[k].at),
            key_of(sheet.labels@[j].at),
            key_of(sheet.labels@[i].at),
        );
        law_linked_is_equivalence(edges, a, b, a);
        law_linked_is_equivalence(edges, b, a, c);
        assert(labels_joined(sheet, j, i));
        lemma_first_joined(sheet, i, j)
    }
}

/// Labels lie on each other exactly if they are nearer than the tolerance along
/// both axes and differ in name, and symbols exactly if they are that near.
pub proof fn law_overlaps_are_near(sheet: Sheet, t: int, i: int, j: int)
    ensures
        symbols_overlap(sheet, t, i, j) <==> {
            &&& -t < sheet.symbols@[i].at.x - sheet.symbols@[j].at.x < t
            &&& -t < sheet.symbols@[i].at.y - sheet.symbols@[j].at.y < t
        },
        labels_overlap(sheet, t, i, j) <==> {
            &&& -t < sheet.labels@[i].at.x - sheet.labels@[j].at.x < t
            &&& -t < sheet.labels@[i].at.y - sheet.labels@[j].at.y < t
            &&& sheet.labels@[i].net@ != sheet.labels@[j].net@
        },
        symbols_overlap(sheet, t, i, j) == symbols_overlap(sheet, t, j, i),
        labels_overlap(sheet, t, i, j) == labels_overlap(sheet, t, j, i),
{
}

proof fn lemma_component_pins(
    symbols: Seq<NetSymbolView>,
    reference: Seq<char>,
    n: nat,
    p: UnitPinView,
)
    requires
        n <= symbols.len(),
    ensures
        component_pins(symbols, reference, n).contains(p) <==> exists|i: int|
            0 <= i < n && (#[trigger] symbols[i]).reference == reference && unit_pins(
                symbols[i],
            ).contains(p),
    decreases n,
{
    if n > 0 {
        lemma_component_pins(symbols, reference, (n - 1) as nat, p);
        crate::seqs::lemma_contains_add(
            component_pins(symbols, reference, (n - 1) as nat),
            unit_pins(symbols[n - 1]),
            p,
        );
    }
}

/// The pins of a component are those of all of its units, each with the number
/// of its own unit, and no pin of another component.
pub proof fn law_component_pins_are_those_of_its_units(
    symbols: Seq<NetSymbolView>,
    reference: Seq<char>,
    i: int,
    j: int,
    p: UnitPinView,
)
    requires
        0 <= i < symbols.len(),
        0 <= j < symbols[i].pins.len(),
    ensures
        symbols[i].reference == reference ==> component_pins(
            symbols,
            reference,
            symbols.len(),
        ).contains(
            (UnitPinView {
                number: symbols[i].pins[j].number,
                name: symbols[i].pins[j].name,
                unit: symbols[i].unit,
                at: symbols[i].pins[j].at,
                net: symbols[i].pins[j].net,
            }),
        ),
        component_pins(symbols, reference, symbols.len()).contains(p) ==> exists|k: int, l: int|
            #![trigger symbols[k].pins[l]]
            0 <= k < symbols.len() && symbols[k].reference == reference && 0 <= l
                < symbols[k].pins.len() && p.unit == symbols[k].unit && p.number
                == symbols[k].pins[l].number && p.net == symbols[k].pins[l].net,
{
    let q = UnitPinView {
        number: symbols[i].pins[j].number,
        name: symbols[i].pins[j].name,
        unit: symbols[i].unit,
        at: symbols[i].pins[j].at,
        net: symbols[i].pins[j].net,
    };
    lemma_component_pins(symbols, reference, symbols.len(), q);
    lemma_component_pins(symbols, reference, symbols.len(), p);
    assert(unit_pins(symbols[i])[j] == q);
    if component_pins(symbols, reference, symbols.len()).contains(p) {
        let k = choose|k: int|
            0 <= k < symbols.len() && (#[trigger] symbols[k]).reference == reference && unit_pins(
                symbols[k],
            ).contains(p);
        let l = unit_pins(symbols[k]).index_of(p);
        assert(symbols[k].pins[l].number == p.number);
    }
}

/// What is reported as a short is one: some label of another name is joined to
/// the label.
pub proof fn law_shorted_labels_differ_in_name(sheet: Sheet, i: int)
    requires
        is_shorted(sheet, i),
    ensures
        exists|j: int|
            0 <= j < sheet.labels@.len() && (#[trigger] sheet.labels@[j]).net@
                != sheet.labels@[i].net@ && linked(
                sheet_edges(sheet.wires@, sheet.labels@, sheet.junctions@),
                key_of(sheet.labels@[i].at),
                key_of(sheet.labels@[j].at),
            ),
{
    let t = choose|t: Seq<char>|
        t != sheet.labels@[i].net@ && #[trigger] joins_name(sheet, i, t);
    let j = choose|j: int|
        0 <= j < sheet.labels@.len() && #[trigger] labels_joined(sheet, i, j)
            && sheet.labels@[j].net@ == t;
    assert(sheet.labels@[j].net@ == t);
}

/// A name that two labels have is not that of a single one, and a name that one
/// label alone has is.
pub proof fn law_single_labels(sheet: Sheet, i: int, j: int)
    requires
        0 <= i < sheet.labels@.len(),
        0 <= j < sheet.labels@.len(),
    ensures
        i != j && sheet.labels@[i].net@ == sheet.labels@[j].net@ ==> !is_single(sheet, i)
            && !is_single(sheet, j),
        (forall|k: int|
            0 <= k < sheet.labels@.len() && k != i ==> (#[trigger] sheet.labels@[k]).net@
                != sheet.labels@[i].net@) ==> is_single(sheet, i),
{
    assert(sheet.labels@[i].net@ == sheet.labels@[i].net@);
    assert(sheet.labels@[j].net@ == sheet.labels@[j].net@);
}

/// The nets of a sheet are the names of its labels and the values of its power
/// symbols, whose references begin with #PWR.
pub proof fn law_nets_of_a_sheet(sheet: Sheet, i: int)
    ensures
        0 <= i < sheet.labels@.len() ==> is_labelled(sheet, sheet.labels@[i].net@),
        0 <= i < sheet.symbols@.len() && sheet.symbols@[i].reference@.len() >= 4
            && sheet.symbols@[i].reference@.take(4) == "#PWR"@ ==> is_power_named(
            sheet,
            sheet.symbols@[i].value@,
        ),
        is_power_named(sheet, Seq::empty()) ==> exists|k: int|
            0 <= k < sheet.symbols@.len() && (#[trigger] sheet.symbols@[k]).value@.len() == 0,
{
    reveal_strlit("#PWR");
    if 0 <= i < sheet.symbols@.len() {
        let r = sheet.symbols@[i].reference@;
        if r.len() >= 4 {
            assert(r.subrange(0, 4) =~= r.take(4));
        }
        assert(sheet.symbols@[i].value@ == sheet.symbols@[i].value@);
    }
    if 0 <= i < sheet.labels@.len() {
        assert(sheet.labels@[i].net@ == sheet.labels@[i].net@);
    }
}

/// Pairs that overlap are listed once, with the lower place first.
pub proof fn law_pairs_are_listed_once(
    pairs: Seq<(usize, usize)>,
    n: nat,
    overlap: spec_fn(int, int) -> bool,
    i: usize,
    j: usize,
)
    requires
        lists_pairs(pairs, n, overlap),
        n <= usize::MAX,
    ensures
        i < j && j < n && overlap(i as int, j as int) ==> pairs.contains((i, j)),
        pairs.contains((i, j)) ==> i < j && j < n && overlap(i as int, j as int),
        pairs.no_duplicates(),
        !(pairs.contains((i, j)) && pairs.contains((j, i))),
{
    assert forall|a: int, b: int| 0 <= a < pairs.len() && 0 <= b < pairs.len() && a != b implies
        pairs[a] != pairs[b] by {
        if a < b {
            assert(pair_before(pairs[a], pairs[b]));
        } else {
            assert(pair_before(pairs[b], pairs[a]));
        }
    }
}

/// A component is listed with each of its pins that is on the net, unless it is
/// the one left out; a component without such a pin is not listed.
pub proof fn law_components_are_listed_by_their_pins(
    list: Seq<NetComponent>,
    symbols: Seq<Symbol>,
    on: spec_fn((i64, i64)) -> bool,
    excluded: Option<Seq<char>>,
    i: usize,
    j: usize,
)
    requires
        lists_components(list, symbols, symbols.len(), on, excluded),
        i < symbols.len(),
    ensures
        j < pins_of(symbols[i as int]).len() && on(key_of(pins_of(symbols[i as int])[j as int].at))
            && excluded != Some(symbols[i as int].reference@) ==> exists|c: int|
            0 <= c < list.len() && (#[trigger] list[c]).symbol == i && list[c].pins@.contains(j),
        forall|c: int|
            0 <= c < list.len() && (#[trigger] list[c]).symbol == i ==> {
                &&& excluded != Some(symbols[i as int].reference@)
                &&& list[c].pins@.len() > 0
                &&& list[c].pins@.contains(j) ==> j < pins_of(symbols[i as int]).len() && on(
                    key_of(pins_of(symbols[i as int])[j as int].at),
                )
            },
{
    let places = component_places(list);
    if j < pins_of(symbols[i as int]).len() && on(key_of(pins_of(symbols[i as int])[j as int].at))
        && excluded != Some(symbols[i as int].reference@) {
        assert(meets(symbols[i as int], on));
        assert(places.contains(i));
        let c = places.index_of(i);
        assert(list[c].symbol == i);
        assert(list[c].pins@.contains(j));
    }
    assert forall|c: int| 0 <= c < list.len() && (#[trigger] list[c]).symbol == i implies {
        &&& excluded != Some(symbols[i as int].reference@)
        &&& list[c].pins@.len() > 0
        &&& list[c].pins@.contains(j) ==> j < pins_of(symbols[i as int]).len() && on(
            key_of(pins_of(symbols[i as int])[j as int].at),
        )
    } by {
        assert(places[c] == i);
        assert(places.contains(i));
        assert(meets(symbols[i as int], on));
        let pins = pins_of(symbols[i as int]);
        let m = choose|m: int| 0 <= m < pins.len() && on(key_of((#[trigger] pins[m]).at));
        assert(symbols[i as int].pins is Some);
        assert(pins.len() <= usize::MAX) by {
            vstd::std_specs::vec::axiom_spec_len(&symbols[i as int].pins->0);
        }
        assert(list[c].pins@.contains(m as usize));
    }
}

/// The points of a net are joined to a label of its name, and with a point all
/// that are joined to it are points of the net.
pub proof fn law_points_of_a_net(sheet: Sheet, net: Seq<char>, points: Seq<(i64, i64)>, p: Point)
    requires
        lists_net(sheet, net, points),
        points.contains(key_of(p)),
    ensures
        exists|i: int|
            0 <= i < sheet.labels@.len() && (#[trigger] sheet.labels@[i]).net@ == net && linked(
                sheet_edges(sheet.wires@, sheet.labels@, sheet.junctions@),
                key_of(sheet.labels@[i].at),
                key_of(p),
            ),
        forall|q: Point| #[trigger]
            linked(
                sheet_edges(sheet.wires@, sheet.labels@, sheet.junctions@),
                key_of(p),
                key_of(q),
            ) ==> points.contains(key_of(q)),
{
    crate::sch_analysis::law_net_comes_from_a_joined_label(sheet, p, Some(net));
    assert forall|q: Point| #[trigger]
        linked(
            sheet_edges(sheet.wires@, sheet.labels@, sheet.junctions@),
            key_of(p),
            key_of(q),
        ) implies points.contains(key_of(q)) by {
        crate::sch_analysis::law_joined_points_share_their_nets(sheet, net, p, q);
        assert(carries(sheet, net, key_of(q)));
    }
}

/// The nets of a component are those of its pins, all of them, each once.
pub proof fn law_nets_of_a_component(
    sheet: Sheet,
    reference: Seq<char>,
    nets: Seq<Seq<char>>,
    named: Seq<NetSymbolView>,
    t: Seq<char>,
    i: int,
    j: int,
)
    requires
        is_nets_of(sheet, reference, nets, named),
    ensures
        0 <= i < sheet.symbols@.len() && named[i].reference == reference && 0 <= j
            < named[i].pins.len() && named[i].pins[j].net == Some(t) ==> nets.contains(t),
        nets.contains(t) ==> exists|a: int, b: int|
            #![trigger named[a].pins[b]]
            0 <= a < sheet.symbols@.len() && named[a].reference == reference && 0 <= b
                < named[a].pins.len() && named[a].pins[b].net == Some(t),
        nets.no_duplicates(),
{
}

/// The names that a short lists are those of the labels joined to it, its own
/// among them, in ascending order.
pub proof fn law_shorts_list_the_joined_names(sheet: Sheet, i: int, j: int, nets: Seq<Seq<char>>)
    requires
        is_joined_names(sheet, i, nets),
        0 <= i < sheet.labels@.len(),
        0 <= j < sheet.labels@.len(),
    ensures
        linked(
            sheet_edges(sheet.wires@, sheet.labels@, sheet.junctions@),
            key_of(sheet.labels@[i].at),
            key_of(sheet.labels@[j].at),
        ) ==> nets.contains(sheet.labels@[j].net@),
        nets.contains(sheet.labels@[i].net@),
        is_shorted(sheet, i) ==> nets.len() >= 2,
{
    let edges = sheet_edges(sheet.wires@, sheet.labels@, sheet.junctions@);
    let (a, b) = (key_of(sheet.labels@[i].at), key_of(sheet.labels@[j].at));
    law_linked_is_equivalence(edges, a, a, a);
    assert(labels_joined(sheet, i, i));
    assert(joins_name(sheet, i, sheet.labels@[i].net@));
    if linked(edges, a, b) {
        assert(labels_joined(sheet, i, j));
        assert(joins_name(sheet, i, sheet.labels@[j].net@));
    }
    if is_shorted(sheet, i) {
        let t = choose|t: Seq<char>|
            t != sheet.labels@[i].net@ && #[trigger] joins_name(sheet, i, t);
        assert(nets.contains(t));
        assert(nets.contains(sheet.labels@[i].net@));
        let x = nets.index_of(t);
        let y = nets.index_of(sheet.labels@[i].net@);
        assert(nets[x] != nets[y]);
    }
}

} // verus!
