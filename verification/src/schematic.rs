//! What the tools read of a schematic sheet.
use crate::geometry::{Label, Point, Wire};
use vstd::prelude::*;

verus! {

/// A pin of a placed symbol unit, at the point where a wire meets it.
pub struct PlacedPin {
    pub number: String,
    pub name: String,
    pub electrical_type: String,
    pub at: Point,
}

/// A placed symbol unit. `pins` are those of the placed unit alone; it is
/// `None` where the library symbol is missing from the sheet.
/// `definition_pins` counts the pins of all units, and `library_symbol` is the
/// name under which the sheet would hold the library symbol.
pub struct Symbol {
    pub reference: String,
    pub value: String,
    pub footprint: String,
    pub lib_id: String,
    pub library_symbol: String,
    pub unit: u32,
    pub at: Point,
    pub definition_pins: usize,
    pub pins: Option<Vec<PlacedPin>>,
}

/// A schematic sheet.
pub struct Sheet {
    pub wires: Vec<Wire>,
    pub labels: Vec<Label>,
    pub junctions: Vec<Point>,
    pub no_connects: Vec<Point>,
    pub sheet_pins: Vec<Point>,
    pub symbols: Vec<Symbol>,
}

/// The model of an optional text.
pub open spec fn text_option(o: Option<String>) -> Option<Seq<char>> {
    match o {
        Some(t) => Some(t@),
        None => None,
    }
}

/// A copy of an optional text.
pub fn copy_text_option(o: &Option<String>) -> (r: Option<String>)
    ensures
        text_option(r) == text_option(*o),
{
    match o {
        Some(t) => Some(t.clone()),
        None => None,
    }
}

/// The pins of a symbol; a symbol whose library symbol is missing has none.
pub open spec fn pins_of(s: Symbol) -> Seq<PlacedPin> {
    match s.pins {
        Some(pins) => pins@,
        None => Seq::empty(),
    }
}

/// The points of a list of pins.
pub open spec fn pin_points(pins: Seq<PlacedPin>) -> Seq<Point> {
    pins.map_values(|p: PlacedPin| p.at)
}

/// The points of all pins of a list of symbols, symbol by symbol.
pub open spec fn symbol_points(symbols: Seq<Symbol>) -> Seq<Point>
    decreases symbols.len(),
{
    if symbols.len() == 0 {
        Seq::empty()
    } else {
        symbol_points(symbols.drop_last()) + pin_points(pins_of(symbols.last()))
    }
}

/// The points of all pins of a list of symbols, symbol by symbol.
pub fn collect_pin_points(symbols: &Vec<Symbol>) -> (out: Vec<Point>)
    ensures
        out@ == symbol_points(symbols@),
{
    let mut out: Vec<Point> = Vec::new();
    let mut i: usize = 0;
    while i < symbols.len()
        invariant
            i <= symbols@.len(),
            out@ == symbol_points(symbols@.take(i as int)),
        decreases symbols@.len() - i,
    {
        let ghost before = out@;
        proof {
            assert(symbols@.take(i + 1).drop_last() =~= symbols@.take(i as int));
            assert(symbols@.take(i + 1).last() == symbols@[i as int]);
        }
        if let Some(pins) = &symbols[i].pins {
            let mut j: usize = 0;
            while j < pins.len()
                invariant
                    j <= pins@.len(),
                    out@ == before + pin_points(pins@).take(j as int),
                decreases pins@.len() - j,
            {
                out.push(pins[j].at);
                proof {
                    assert(before + pin_points(pins@).take(j + 1) =~= (before + pin_points(
                        pins@,
                    ).take(j as int)).push(pins@[j as int].at));
                }
                j += 1;
            }
            proof {
                assert(pin_points(pins@).take(pins@.len() as int) =~= pin_points(pins@));
            }
        } else {
            proof {
                assert(before + pin_points(Seq::<PlacedPin>::empty()) =~= before);
            }
        }
        i += 1;
    }
    proof {
        assert(symbols@.take(symbols@.len() as int) =~= symbols@);
    }
    out
}

/// The two ends of every wire, wire by wire.
pub open spec fn wire_ends(wires: Seq<Wire>) -> Seq<Point>
    decreases wires.len(),
{
    if wires.len() == 0 {
        Seq::empty()
    } else {
        wire_ends(wires.drop_last()).push(wires.last().start).push(wires.last().end)
    }
}

/// The two ends of every wire, wire by wire.
pub fn collect_wire_ends(wires: &Vec<Wire>) -> (out: Vec<Point>)
    ensures
        out@ == wire_ends(wires@),
{
    let mut out: Vec<Point> = Vec::new();
    let mut i: usize = 0;
    while i < wires.len()
        invariant
            i <= wires@.len(),
            out@ == wire_ends(wires@.take(i as int)),
        decreases wires@.len() - i,
    {
        proof {
            assert(wires@.take(i + 1).drop_last() =~= wires@.take(i as int));
        }
        out.push(wires[i].start);
        out.push(wires[i].end);
        i += 1;
    }
    proof {
        assert(wires@.take(wires@.len() as int) =~= wires@);
    }
    out
}

/// Where the labels stand.
pub fn collect_label_points(labels: &Vec<Label>) -> (out: Vec<Point>)
    ensures
        out@ == crate::net_graph::label_points(labels@),
{
    let mut out: Vec<Point> = Vec::new();
    let mut i: usize = 0;
    while i < labels.len()
        invariant
            i <= labels@.len(),
            out@ == crate::net_graph::label_points(labels@).take(i as int),
        decreases labels@.len() - i,
    {
        out.push(labels[i].at);
        i += 1;
    }
    proof {
        assert(crate::net_graph::label_points(labels@).take(labels@.len() as int)
            =~= crate::net_graph::label_points(labels@));
    }
    out
}

} // verus!
