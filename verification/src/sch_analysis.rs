//! Connectivity queries on a schematic sheet.
use crate::geometry::{key_of, pt_key, same_key, Point};
use crate::net_graph::{
    build_net_graph, label_names, law_junction_joins_the_wires_it_sits_on,
    law_label_joins_the_wires_it_sits_on, law_linked_is_equivalence, law_wire_joins_its_ends,
    lemma_label_names, linked, passes_through, sheet_edges, NetGraph, NetView,
};
use crate::schematic::{pins_of, text_option, PlacedPin, Sheet, Symbol};
use crate::seqs::{models, push_model};
use vstd::prelude::*;

verus! {

// ─── Nets of points ───────────────────────────────────────────────────────

/// Whether the point is joined to a label of that net.
pub open spec fn carries(sheet: Sheet, net: Seq<char>, k: (i64, i64)) -> bool {
    exists|l: (i64, i64)|
        #![trigger label_names(sheet.labels@)[l]]
        label_names(sheet.labels@).dom().contains(l) && label_names(sheet.labels@)[l] == net
            && linked(sheet_edges(sheet.wires@, sheet.labels@, sheet.junctions@), l, k)
}

/// Whether the name is that of a net on the point, or there is none. Where
/// differently named labels are joined, each of their names is one.
pub open spec fn names_net(sheet: Sheet, p: Point, net: Option<Seq<char>>) -> bool {
    match net {
        Some(n) => carries(sheet, n, key_of(p)),
        None => forall|n: Seq<char>| !#[trigger] carries(sheet, n, key_of(p)),
    }
}

/// Whether the graph has the connections and labels of the sheet.
pub open spec fn graph_of(g: NetView, sheet: Sheet) -> bool {
    &&& g.wf()
    &&& g.labels == label_names(sheet.labels@)
    &&& forall|x: (i64, i64), y: (i64, i64)| #[trigger]
        g.connected(x, y) <==> linked(
            sheet_edges(sheet.wires@, sheet.labels@, sheet.junctions@),
            x,
            y,
        )
}

/// In the graph of a sheet, a point is on a net exactly if the sheet says so.
pub proof fn lemma_on_net(g: NetView, sheet: Sheet, net: Seq<char>, k: (i64, i64))
    requires
        graph_of(g, sheet),
    ensures
        g.on_net(net, k) <==> carries(sheet, net, k),
        g.on_net(net, k) ==> g.roots.dom().contains(k),
{
    let names = label_names(sheet.labels@);
    let edges = sheet_edges(sheet.wires@, sheet.labels@, sheet.junctions@);
    if g.on_net(net, k) {
        let l = choose|l: (i64, i64)|
            #![trigger g.labels[l]]
            g.labels.dom().contains(l) && g.labels[l] == net && g.connected(l, k);
        assert(names[l] == net);
        assert(linked(edges, l, k));
        assert(g.roots.dom().contains(l));
        assert(g.roots.dom().contains(g.roots[l]));
    }
    if carries(sheet, net, k) {
        let l = choose|l: (i64, i64)|
            #![trigger names[l]]
            names.dom().contains(l) && names[l] == net && linked(edges, l, k);
        assert(g.labels[l] == net);
        assert(g.connected(l, k));
    }
}

/// A graph in which one more point is known still stands for the sheet.
pub proof fn lemma_graph_of_ensured(g: NetView, sheet: Sheet, k: (i64, i64))
    requires
        graph_of(g, sheet),
    ensures
        graph_of(g.ensured(k), sheet),
{
    let h = g.ensured(k);
    assert forall|x: (i64, i64), y: (i64, i64)| #[trigger] h.connected(x, y) <==> linked(
        sheet_edges(sheet.wires@, sheet.labels@, sheet.junctions@),
        x,
        y,
    ) by {
        assert(h.root(x) == g.root(x));
        assert(h.root(y) == g.root(y));
        assert(g.connected(x, y) == h.connected(x, y));
    }
    assert forall|q: (i64, i64)| #![trigger h.roots[q]] h.roots.dom().contains(q) implies
        h.roots.dom().contains(h.roots[q]) && h.roots[h.roots[q]] == h.roots[q] by {
        if q != k || g.roots.dom().contains(k) {
            assert(g.roots.dom().contains(g.roots[q]));
        }
    }
}

/// The graph of the sheet.
pub fn graph(sheet: &Sheet) -> (g: NetGraph)
    ensures
        g.wf(),
        graph_of(g@, *sheet),
{
    build_net_graph(&sheet.wires, &sheet.labels, &sheet.junctions)
}

/// The name of a net on the point.
pub fn net_name(g: &mut NetGraph, p: Point, Ghost(sheet): Ghost<Sheet>) -> (r: Option<String>)
    requires
        old(g).wf(),
        graph_of(old(g)@, sheet),
    ensures
        final(g).wf(),
        graph_of(final(g)@, sheet),
        names_net(sheet, p, text_option(r)),
{
    let k = pt_key(p);
    let ghost before = g@;
    let r = g.net_at(k);
    proof {
        lemma_graph_of_ensured(before, sheet, k);
        if r is Some {
            lemma_on_net(before, sheet, r->0@, k);
        } else {
            assert forall|n: Seq<char>| !#[trigger] carries(sheet, n, key_of(p)) by {
                lemma_on_net(before, sheet, n, k);
            }
        }
    }
    r
}

/// The points of the sheet's connections that are on the net, each once.
pub fn net_points(g: &mut NetGraph, net: &str, Ghost(sheet): Ghost<Sheet>) -> (out: Vec<
    (i64, i64),
>)
    requires
        old(g).wf(),
        graph_of(old(g)@, sheet),
    ensures
        final(g).wf(),
        final(g)@ == old(g)@,
        out@.no_duplicates(),
        forall|k: (i64, i64)| #[trigger] out@.contains(k) <==> carries(sheet, net@, k),
{
    let out = g.points_on_net(net);
    proof {
        assert forall|k: (i64, i64)| #[trigger] out@.contains(k) <==> carries(sheet, net@, k) by {
            lemma_on_net(old(g)@, sheet, net@, k);
        }
    }
    out
}

/// Whether the list holds the key.
pub fn has_key(list: &Vec<(i64, i64)>, k: (i64, i64)) -> (r: bool)
    ensures
        r == list@.contains(k),
{
    let mut i: usize = 0;
    while i < list.len()
        invariant
            i <= list@.len(),
            forall|j: int| 0 <= j < i ==> list@[j] != k,
        decreases list@.len() - i,
    {
        if same_key(list[i], k) {
            return true;
        }
        i += 1;
    }
    false
}

// ─── Symbols with the nets of their pins ──────────────────────────────────

/// A pin with the net it is on.
pub struct NetPin {
    pub number: String,
    pub name: String,
    pub electrical_type: String,
    pub at: Point,
    pub net: Option<String>,
}

/// A placed symbol unit with the nets of its pins.
pub struct NetSymbol {
    pub reference: String,
    pub value: String,
    pub footprint: String,
    pub lib_id: String,
    pub unit: u32,
    pub pins: Option<Vec<NetPin>>,
}

/// The model of a pin with its net.
pub ghost struct NetPinView {
    pub number: Seq<char>,
    pub name: Seq<char>,
    pub electrical_type: Seq<char>,
    pub at: Point,
    pub net: Option<Seq<char>>,
}

/// The model of a symbol with the nets of its pins. A symbol whose library
/// symbol is missing is not `resolved`, and has no pins.
pub ghost struct NetSymbolView {
    pub reference: Seq<char>,
    pub value: Seq<char>,
    pub footprint: Seq<char>,
    pub lib_id: Seq<char>,
    pub unit: u32,
    pub resolved: bool,
    pub pins: Seq<NetPinView>,
}

impl View for NetPin {
    type V = NetPinView;

    open spec fn view(&self) -> NetPinView {
        NetPinView {
            number: self.number@,
            name: self.name@,
            electrical_type: self.electrical_type@,
            at: self.at,
            net: text_option(self.net),
        }
    }
}

impl View for NetSymbol {
    type V = NetSymbolView;

    open spec fn view(&self) -> NetSymbolView {
        NetSymbolView {
            reference: self.reference@,
            value: self.value@,
            footprint: self.footprint@,
            lib_id: self.lib_id@,
            unit: self.unit,
            resolved: self.pins is Some,
            pins: match self.pins {
                Some(pins) => models(pins@),
                None => Seq::empty(),
            },
        }
    }
}

/// Whether the model is that of the pin, with one of its nets.
pub open spec fn pin_named(sheet: Sheet, pin: PlacedPin, v: NetPinView) -> bool {
    &&& v.number == pin.number@
    &&& v.name == pin.name@
    &&& v.electrical_type == pin.electrical_type@
    &&& v.at == pin.at
    &&& names_net(sheet, pin.at, v.net)
}

/// Whether the models are those of the pins, one for one, with their nets.
pub open spec fn pins_named(sheet: Sheet, pins: Seq<PlacedPin>, v: Seq<NetPinView>) -> bool {
    &&& v.len() == pins.len()
    &&& forall|j: int| 0 <= j < pins.len() ==> pin_named(sheet, pins[j], #[trigger] v[j])
}

/// Whether the model is that of the symbol, with the nets of its pins.
pub open spec fn symbol_named(sheet: Sheet, s: Symbol, v: NetSymbolView) -> bool {
    &&& v.reference == s.reference@
    &&& v.value == s.value@
    &&& v.footprint == s.footprint@
    &&& v.lib_id == s.lib_id@
    &&& v.unit == s.unit
    &&& v.resolved == (s.pins is Some)
    &&& pins_named(sheet, pins_of(s), v.pins)
}

/// Whether the models are those of the symbols, one for one.
pub open spec fn symbols_named(sheet: Sheet, symbols: Seq<Symbol>, v: Seq<NetSymbolView>) -> bool {
    &&& v.len() == symbols.len()
    &&& forall|i: int| 0 <= i < symbols.len() ==> symbol_named(sheet, symbols[i], #[trigger] v[i])
}

/// The pins with their nets.
fn name_pins(g: &mut NetGraph, pins: &Vec<PlacedPin>, Ghost(sheet): Ghost<Sheet>) -> (out: Vec<
    NetPin,
>)
    requires
        old(g).wf(),
        graph_of(old(g)@, sheet),
    ensures
        final(g).wf(),
        graph_of(final(g)@, sheet),
        pins_named(sheet, pins@, models(out@)),
{
    let mut out: Vec<NetPin> = Vec::new();
    let mut j: usize = 0;
    while j < pins.len()
        invariant
            j <= pins@.len(),
            g.wf(),
            graph_of(g@, sheet),
            pins_named(sheet, pins@.take(j as int), models(out@)),
        decreases pins@.len() - j,
    {
        let pin = &pins[j];
        let net = net_name(g, pin.at, Ghost(sheet));
        let ghost before = models(out@);
        let named = NetPin {
            number: pin.number.clone(),
            name: pin.name.clone(),
            electrical_type: pin.electrical_type.clone(),
            at: pin.at,
            net,
        };
        let ghost v = named@;
        push_model(&mut out, named);
        proof {
            assert forall|i: int| 0 <= i < j + 1 implies pin_named(
                sheet,
                pins@.take(j + 1)[i],
                #[trigger] models(out@)[i],
            ) by {
                if i < j {
                    assert(pin_named(sheet, pins@.take(j as int)[i], before[i]));
                }
            }
        }
        j += 1;
    }
    proof {
        assert(pins@.take(pins@.len() as int) =~= pins@);
    }
    out
}

/// The symbols of the sheet with the nets of their pins.
pub fn name_symbols(sheet: &Sheet) -> (out: Vec<NetSymbol>)
    ensures
        symbols_named(*sheet, sheet.symbols@, models(out@)),
{
    let mut g = graph(sheet);
    let mut out: Vec<NetSymbol> = Vec::new();
    let mut i: usize = 0;
    while i < sheet.symbols.len()
        invariant
            i <= sheet.symbols@.len(),
            g.wf(),
            graph_of(g@, *sheet),
            symbols_named(*sheet, sheet.symbols@.take(i as int), models(out@)),
        decreases sheet.symbols@.len() - i,
    {
        let s = &sheet.symbols[i];
        let pins: Option<Vec<NetPin>> = match &s.pins {
            Some(pins) => Some(name_pins(&mut g, pins, Ghost(*sheet))),
            None => None,
        };
        let named = NetSymbol {
            reference: s.reference.clone(),
            value: s.value.clone(),
            footprint: s.footprint.clone(),
            lib_id: s.lib_id.clone(),
            unit: s.unit,
            pins,
        };
        let ghost before = models(out@);
        push_model(&mut out, named);
        proof {
            assert forall|j: int| 0 <= j < i + 1 implies symbol_named(
                *sheet,
                sheet.symbols@.take(i + 1)[j],
                #[trigger] models(out@)[j],
            ) by {
                if j < i {
                    assert(symbol_named(*sheet, sheet.symbols@.take(i as int)[j], before[j]));
                }
            }
        }
        i += 1;
    }
    proof {
        assert(sheet.symbols@.take(sheet.symbols@.len() as int) =~= sheet.symbols@);
    }
    out
}

// ─── Laws ─────────────────────────────────────────────────────────────────

/// The net of a point is that of a label which the wires, labels and dots of
/// the sheet join to it, and a point has none only if no label is joined to it.
pub proof fn law_net_comes_from_a_joined_label(sheet: Sheet, p: Point, net: Option<Seq<char>>)
    requires
        names_net(sheet, p, net),
    ensures
        net matches Some(n) ==> exists|i: int|
            0 <= i < sheet.labels@.len() && (#[trigger] sheet.labels@[i]).net@ == n && linked(
                sheet_edges(sheet.wires@, sheet.labels@, sheet.junctions@),
                key_of(sheet.labels@[i].at),
                key_of(p),
            ),
        net is None ==> forall|i: int|
            0 <= i < sheet.labels@.len() ==> !linked(
                sheet_edges(sheet.wires@, sheet.labels@, sheet.junctions@),
                key_of((#[trigger] sheet.labels@[i]).at),
                key_of(p),
            ),
{
    let names = label_names(sheet.labels@);
    let edges = sheet_edges(sheet.wires@, sheet.labels@, sheet.junctions@);
    match net {
        Some(n) => {
            let l = choose|l: (i64, i64)|
                #![trigger names[l]]
                names.dom().contains(l) && names[l] == n && linked(edges, l, key_of(p));
            lemma_label_names(sheet.labels@, l);
        },
        None => {
            assert forall|i: int| 0 <= i < sheet.labels@.len() implies !linked(
                edges,
                key_of((#[trigger] sheet.labels@[i]).at),
                key_of(p),
            ) by {
                let l = key_of(sheet.labels@[i].at);
                lemma_label_names(sheet.labels@, l);
                assert(!carries(sheet, names[l], key_of(p)));
                assert(names.dom().contains(l));
            }
        },
    }
}

/// A branch of a net is on the net: where a label sits on one wire and a dot
/// joins another wire to it, both ends of the other wire have the name of the
/// label, if no other name is on the sheet.
pub proof fn law_branch_has_the_name_of_the_net(
    sheet: Sheet,
    l: int,
    j: int,
    a: int,
    b: int,
    p: Point,
    net: Option<Seq<char>>,
)
    requires
        0 <= l < sheet.labels@.len(),
        0 <= j < sheet.junctions@.len(),
        0 <= a < sheet.wires@.len(),
        0 <= b < sheet.wires@.len(),
        passes_through(sheet.wires@[a], sheet.labels@[l].at),
        passes_through(sheet.wires@[a], sheet.junctions@[j]),
        passes_through(sheet.wires@[b], sheet.junctions@[j]),
        p == sheet.wires@[b].start || p == sheet.wires@[b].end,
        names_net(sheet, p, net),
    ensures
        net is Some,
        (forall|i: int|
            0 <= i < sheet.labels@.len() ==> (#[trigger] sheet.labels@[i]).net@
                == sheet.labels@[l].net@) ==> net == Some(sheet.labels@[l].net@),
{
    let (wires, labels, dots) = (sheet.wires@, sheet.labels@, sheet.junctions@);
    let edges = sheet_edges(wires, labels, dots);
    law_label_joins_the_wires_it_sits_on(wires, labels, dots, l, a, a);
    law_junction_joins_the_wires_it_sits_on(wires, labels, dots, j, a, b);
    law_wire_joins_its_ends(wires, labels, dots, b);
    let from = key_of(labels[l].at);
    law_linked_is_equivalence(
        edges,
        from,
        key_of(wires[a].start),
        key_of(wires[b].start),
    );
    law_linked_is_equivalence(edges, from, key_of(wires[a].start), key_of(wires[b].end));
    assert(linked(edges, from, key_of(p)));
    law_net_comes_from_a_joined_label(sheet, p, net);
}

/// Points that the sheet joins are on the same nets.
pub proof fn law_joined_points_share_their_nets(sheet: Sheet, net: Seq<char>, p: Point, q: Point)
    requires
        linked(
            sheet_edges(sheet.wires@, sheet.labels@, sheet.junctions@),
            key_of(p),
            key_of(q),
        ),
    ensures
        names_net(sheet, p, Some(net)) <==> names_net(sheet, q, Some(net)),
        names_net(sheet, p, None) <==> names_net(sheet, q, None),
{
    assert forall|n: Seq<char>|
        #![trigger carries(sheet, n, key_of(p))]
        #![trigger carries(sheet, n, key_of(q))]
        carries(sheet, n, key_of(p)) == carries(sheet, n, key_of(q)) by {
        let names = label_names(sheet.labels@);
        let edges = sheet_edges(sheet.wires@, sheet.labels@, sheet.junctions@);
        law_linked_is_equivalence(edges, key_of(p), key_of(q), key_of(p));
        if carries(sheet, n, key_of(p)) {
            let l = choose|l: (i64, i64)|
                #![trigger names[l]]
                names.dom().contains(l) && names[l] == n && linked(edges, l, key_of(p));
            law_linked_is_equivalence(edges, l, key_of(p), key_of(q));
            assert(names[l] == n);
        }
        if carries(sheet, n, key_of(q)) {
            let l = choose|l: (i64, i64)|
                #![trigger names[l]]
                names.dom().contains(l) && names[l] == n && linked(edges, l, key_of(q));
            law_linked_is_equivalence(edges, l, key_of(q), key_of(p));
            assert(names[l] == n);
        }
    }
}

} // verus!
