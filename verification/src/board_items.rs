//! Items of a board, as its file writes them, and board outlines.
//!
//! Numbers come as the numerals that the file is to hold.
use crate::board_edit::{append_item, append_position, inserted};
use crate::board_gate::{held_open, refuse_if_board_open_in_kicad, IpcFailure};
use crate::geometry::{greater, lesser, Point};
use crate::seqs::models;
use crate::text::{self, fixed, millimetres};
use vstd::prelude::*;

verus! {

// ─── Quoted text ──────────────────────────────────────────────────────────

/// A character as a quoted text holds it.
pub open spec fn escaped_char(c: char) -> Seq<char> {
    if c == '\\' || c == '"' {
        seq!['\\', c]
    } else {
        seq![c]
    }
}

/// A text as a quoted text holds it: with a backslash before each backslash
/// and each quotation mark.
pub open spec fn escaped(s: Seq<char>) -> Seq<char>
    decreases s.len(),
{
    if s.len() == 0 {
        Seq::empty()
    } else {
        escaped(s.drop_last()) + escaped_char(s.last())
    }
}

/// What a reader makes of a quoted text from `i` on: what it holds, and where
/// its closing quotation mark stands.
pub open spec fn quoted_text(s: Seq<char>, i: int) -> Option<(Seq<char>, int)>
    decreases s.len() - i,
{
    if i < 0 || i >= s.len() {
        None
    } else if s[i] == '"' {
        Some((Seq::empty(), i))
    } else if s[i] == '\\' {
        if i + 1 >= s.len() {
            None
        } else {
            match quoted_text(s, i + 2) {
                Some(r) => Some((seq![s[i + 1]] + r.0, r.1)),
                None => None,
            }
        }
    } else {
        match quoted_text(s, i + 1) {
            Some(r) => Some((seq![s[i]] + r.0, r.1)),
            None => None,
        }
    }
}

/// A text with its quotation marks and backslashes escaped.
pub fn escape(s: &str) -> (out: String)
    ensures
        out@ == escaped(s@),
{
    let chars = text::chars_of(s);
    let mut out = String::new();
    let mut i: usize = 0;
    proof {
        assert(out@ =~= escaped(s@.take(0)));
    }
    while i < chars.len()
        invariant
            chars@ == s@,
            i <= chars@.len(),
            out@ == escaped(s@.take(i as int)),
        decreases chars@.len() - i,
    {
        let c: char = chars[i];
        let ghost before = out@;
        if c == '\\' || c == '"' {
            out.push('\\');
        }
        out.push(c);
        proof {
            assert(s@.take(i + 1).drop_last() =~= s@.take(i as int));
            assert(out@ =~= before + escaped_char(c));
        }
        i += 1;
    }
    proof {
        assert(s@.take(s@.len() as int) =~= s@);
    }
    out
}

/// What was escaped is what a reader finds between the quotation marks,
/// whatever follows: no text ends its own quotation.
pub proof fn law_escaped_text_is_read_back(s: Seq<char>, rest: Seq<char>)
    ensures
        quoted_text(escaped(s) + seq!['"'] + rest, 0) == Some((s, escaped(s).len() as int)),
{
    lemma_quoted_suffix(Seq::empty(), s, rest);
    assert(Seq::<char>::empty() + escaped(s) + seq!['"'] + rest =~= escaped(s) + seq!['"'] + rest);
}

proof fn lemma_escaped_first(s: Seq<char>)
    requires
        s.len() > 0,
    ensures
        escaped(s) == escaped_char(s[0]) + escaped(s.drop_first()),
    decreases s.len(),
{
    if s.len() == 1 {
        assert(s.drop_last() =~= Seq::<char>::empty());
        assert(s.drop_first() =~= Seq::<char>::empty());
        assert(escaped(s) =~= escaped_char(s[0]) + escaped(s.drop_first()));
    } else {
        lemma_escaped_first(s.drop_last());
        assert(s.drop_last().drop_first() =~= s.drop_first().drop_last());
        assert(escaped(s) =~= escaped_char(s[0]) + escaped(s.drop_first()));
    }
}

proof fn lemma_quoted_suffix(pre: Seq<char>, s: Seq<char>, rest: Seq<char>)
    ensures
        quoted_text(pre + escaped(s) + seq!['"'] + rest, pre.len() as int) == Some(
            (s, (pre.len() + escaped(s).len()) as int),
        ),
    decreases s.len(),
{
    let t = pre + escaped(s) + seq!['"'] + rest;
    let i = pre.len() as int;
    if s.len() == 0 {
        assert(t[i] == '"');
        assert(s =~= Seq::<char>::empty());
    } else {
        lemma_escaped_first(s);
        let c = s[0];
        let tail = s.drop_first();
        let pre2 = pre + escaped_char(c);
        lemma_quoted_suffix(pre2, tail, rest);
        assert(pre2 + escaped(tail) + seq!['"'] + rest =~= t);
        assert(seq![c] + tail =~= s);
        assert(escaped_char(c).len() == 1 || escaped_char(c).len() == 2);
        if c == '\\' || c == '"' {
            assert(t[i] == '\\' && t[i + 1] == c);
        } else {
            assert(t[i] == c);
        }
    }
}

// ─── Graphics ─────────────────────────────────────────────────────────────

/// A point, by its numerals.
pub struct PointText {
    pub x: String,
    pub y: String,
}

/// The model of a point.
pub ghost struct PointTextView {
    pub x: Seq<char>,
    pub y: Seq<char>,
}

impl View for PointText {
    type V = PointTextView;

    open spec fn view(&self) -> PointTextView {
        PointTextView { x: self.x@, y: self.y@ }
    }
}

/// A piece of an outline, with the id it is to have.
pub enum OutlineItem {
    Line { start: PointText, end: PointText, uuid: String },
    Arc { start: PointText, mid: PointText, end: PointText, uuid: String },
}

/// The model of a piece of an outline.
pub ghost enum OutlineItemView {
    Line { start: PointTextView, end: PointTextView, uuid: Seq<char> },
    Arc { start: PointTextView, mid: PointTextView, end: PointTextView, uuid: Seq<char> },
}

impl View for OutlineItem {
    type V = OutlineItemView;

    open spec fn view(&self) -> OutlineItemView {
        match self {
            OutlineItem::Line { start, end, uuid } => OutlineItemView::Line {
                start: start@,
                end: end@,
                uuid: uuid@,
            },
            OutlineItem::Arc { start, mid, end, uuid } => OutlineItemView::Arc {
                start: start@,
                mid: mid@,
                end: end@,
                uuid: uuid@,
            },
        }
    }
}

/// The two numerals of a point.
pub open spec fn point_words(p: PointTextView) -> Seq<char> {
    p.x + " "@ + p.y
}

/// The end of a graphic with a stroke.
pub open spec fn stroke_end(layer: Seq<char>, width: Seq<char>, uuid: Seq<char>) -> Seq<char> {
    ")\n    (stroke (width "@ + width + ") (type solid))\n    (layer \""@ + layer
        + "\")\n    (uuid \""@ + uuid + "\")\n  )"@
}

/// A graphic line.
pub open spec fn gr_line(
    start: PointTextView,
    end: PointTextView,
    layer: Seq<char>,
    width: Seq<char>,
    uuid: Seq<char>,
) -> Seq<char> {
    "\n  (gr_line\n    (start "@ + point_words(start) + ")\n    (end "@ + point_words(end)
        + stroke_end(layer, width, uuid)
}

/// A graphic arc.
pub open spec fn gr_arc(
    start: PointTextView,
    mid: PointTextView,
    end: PointTextView,
    layer: Seq<char>,
    width: Seq<char>,
    uuid: Seq<char>,
) -> Seq<char> {
    "\n  (gr_arc\n    (start "@ + point_words(start) + ")\n    (mid "@ + point_words(mid)
        + ")\n    (end "@ + point_words(end) + stroke_end(layer, width, uuid)
}

fn words_of(p: &PointText) -> (r: String)
    ensures
        r@ == point_words(p@),
{
    text::cat3(p.x.as_str(), " ", p.y.as_str())
}

fn stroke_text(layer: &str, width: &str, uuid: &str) -> (r: String)
    ensures
        r@ == stroke_end(layer@, width@, uuid@),
{
    let mut r = text::cat5(
        ")\n    (stroke (width ",
        width,
        ") (type solid))\n    (layer \"",
        layer,
        "\")\n    (uuid \"",
    );
    r.append(uuid);
    r.append("\")\n  )");
    r
}

/// A graphic line.
pub fn format_gr_line(start: &PointText, end: &PointText, layer: &str, width: &str, uuid: &str) -> (
    r: String)
    ensures
        r@ == gr_line(start@, end@, layer@, width@, uuid@),
{
    let a = words_of(start);
    let b = words_of(end);
    let close = stroke_text(layer, width, uuid);
    text::cat5(
        "\n  (gr_line\n    (start ",
        a.as_str(),
        ")\n    (end ",
        b.as_str(),
        close.as_str(),
    )
}

/// A graphic arc.
pub fn format_gr_arc(
    start: &PointText,
    mid: &PointText,
    end: &PointText,
    layer: &str,
    width: &str,
    uuid: &str,
) -> (r: String)
    ensures
        r@ == gr_arc(start@, mid@, end@, layer@, width@, uuid@),
{
    let a = words_of(start);
    let m = words_of(mid);
    let b = words_of(end);
    let close = stroke_text(layer, width, uuid);
    let mut r = text::cat5(
        "\n  (gr_arc\n    (start ",
        a.as_str(),
        ")\n    (mid ",
        m.as_str(),
        ")\n    (end ",
    );
    r.append(b.as_str());
    r.append(close.as_str());
    r
}

/// A piece of an outline.
pub open spec fn outline_item(item: OutlineItemView, layer: Seq<char>, width: Seq<char>) -> Seq<
    char,
> {
    match item {
        OutlineItemView::Line { start, end, uuid } => gr_line(start, end, layer, width, uuid),
        OutlineItemView::Arc { start, mid, end, uuid } => gr_arc(
            start,
            mid,
            end,
            layer,
            width,
            uuid,
        ),
    }
}

/// The first `n` pieces of an outline.
pub open spec fn outline_items(
    items: Seq<OutlineItemView>,
    layer: Seq<char>,
    width: Seq<char>,
    n: nat,
) -> Seq<char>
    decreases n,
{
    if n == 0 {
        Seq::empty()
    } else {
        outline_items(items, layer, width, (n - 1) as nat) + outline_item(
            items[n - 1],
            layer,
            width,
        )
    }
}

/// The pieces of an outline.
pub fn format_outline(items: &Vec<OutlineItem>, layer: &str, width: &str) -> (r: String)
    ensures
        r@ == outline_items(models(items@), layer@, width@, items@.len()),
{
    let mut r = String::new();
    let mut i: usize = 0;
    proof {
        assert(r@ =~= outline_items(models(items@), layer@, width@, 0));
    }
    while i < items.len()
        invariant
            i <= items@.len(),
            r@ == outline_items(models(items@), layer@, width@, i as nat),
        decreases items@.len() - i,
    {
        proof {
            assert(models(items@)[i as int] == items@[i as int]@);
        }
        let t = match &items[i] {
            OutlineItem::Line { start, end, uuid } => format_gr_line(
                start,
                end,
                layer,
                width,
                uuid.as_str(),
            ),
            OutlineItem::Arc { start, mid, end, uuid } => format_gr_arc(
                start,
                mid,
                end,
                layer,
                width,
                uuid.as_str(),
            ),
        };
        r.append(t.as_str());
        i += 1;
    }
    r
}

/// A text on a board.
pub open spec fn gr_text(
    label: Seq<char>,
    at: PointTextView,
    rotation: Seq<char>,
    layer: Seq<char>,
    size: Seq<char>,
    uuid: Seq<char>,
) -> Seq<char> {
    "\n  (gr_text \""@ + escaped(label) + "\"\n    (at "@ + point_words(at) + " "@ + rotation
        + ")\n    (layer \""@ + layer + "\")\n    (effects (font (size "@ + size + " "@ + size
        + ") (thickness 0.15)))\n    (uuid \""@ + uuid + "\")\n  )"@
}

/// A text on a board.
pub fn format_gr_text(
    label: &str,
    at: &PointText,
    rotation: &str,
    layer: &str,
    size: &str,
    uuid: &str,
) -> (r: String)
    ensures
        r@ == gr_text(label@, at@, rotation@, layer@, size@, uuid@),
{
    let e = escape(label);
    let p = words_of(at);
    let mut r = text::cat5("\n  (gr_text \"", e.as_str(), "\"\n    (at ", p.as_str(), " ");
    r.append(rotation);
    r.append(")\n    (layer \"");
    r.append(layer);
    r.append("\")\n    (effects (font (size ");
    r.append(size);
    r.append(" ");
    r.append(size);
    r.append(") (thickness 0.15)))\n    (uuid \"");
    r.append(uuid);
    r.append("\")\n  )");
    r
}

/// The first `n` points of a polygon.
pub open spec fn polygon_points(points: Seq<PointTextView>, n: nat) -> Seq<char>
    decreases n,
{
    if n == 0 {
        Seq::empty()
    } else {
        polygon_points(points, (n - 1) as nat) + ("\n      (xy "@ + point_words(points[n - 1])
            + ")"@)
    }
}

fn polygon_text(points: &Vec<PointText>) -> (r: String)
    ensures
        r@ == polygon_points(models(points@), points@.len()),
{
    let mut r = String::new();
    let mut i: usize = 0;
    proof {
        assert(r@ =~= polygon_points(models(points@), 0));
    }
    while i < points.len()
        invariant
            i <= points@.len(),
            r@ == polygon_points(models(points@), i as nat),
        decreases points@.len() - i,
    {
        proof {
            assert(models(points@)[i as int] == points@[i as int]@);
        }
        let w = words_of(&points[i]);
        let t = text::cat3("\n      (xy ", w.as_str(), ")");
        r.append(t.as_str());
        i += 1;
    }
    r
}

/// A filled polygon that belongs to no net.
pub open spec fn gr_poly(points: Seq<PointTextView>, layer: Seq<char>, uuid: Seq<char>) -> Seq<
    char,
> {
    "\n  (gr_poly\n    (pts"@ + polygon_points(points, points.len())
        + "\n    )\n    (stroke (width 0) (type solid))\n    (fill solid)\n    (layer \""@ + layer
        + "\")\n    (uuid \""@ + uuid + "\")\n  )"@
}

/// A filled polygon that belongs to no net.
pub fn format_gr_poly(points: &Vec<PointText>, layer: &str, uuid: &str) -> (r: String)
    ensures
        r@ == gr_poly(models(points@), layer@, uuid@),
{
    proof {
        assert(models(points@).len() == points@.len());
    }
    let p = polygon_text(points);
    let mut r = text::cat5(
        "\n  (gr_poly\n    (pts",
        p.as_str(),
        "\n    )\n    (stroke (width 0) (type solid))\n    (fill solid)\n    (layer \"",
        layer,
        "\")\n    (uuid \"",
    );
    r.append(uuid);
    r.append("\")\n  )");
    r
}

/// How much wider than its hole the copper and mask of a mounting hole are, in
/// nanometres.
pub const HOLE_ANNULUS_NM: i64 = 500_000;

/// How much farther than its diameter the texts of a mounting hole stand off,
/// in nanometres.
pub const HOLE_TEXT_NM: i64 = 1_500_000;

/// Whether the parts of a hole of that diameter have sizes that can be held.
pub open spec fn hole_fits(drill: i64) -> bool {
    drill + HOLE_TEXT_NM <= i64::MAX
}

/// The diameter of the copper and mask round a hole of that diameter.
pub fn mounting_hole_pad_size(drill: i64) -> (r: i64)
    requires
        hole_fits(drill),
    ensures
        r == drill + HOLE_ANNULUS_NM,
{
    drill + HOLE_ANNULUS_NM
}

/// How far the texts of a mounting hole stand from its middle.
pub fn mounting_hole_text_offset(drill: i64) -> (r: i64)
    requires
        hole_fits(drill),
    ensures
        r == drill + HOLE_TEXT_NM,
{
    drill + HOLE_TEXT_NM
}

/// A pad of a footprint, in nanometres.
pub struct PadDefinition {
    pub number: String,
    pub pad_type: &'static str,
    pub shape: &'static str,
    pub x: i64,
    pub y: i64,
    pub rotation: i64,
    pub size_x: i64,
    pub size_y: i64,
    pub drill_x: Option<i64>,
    pub drill_y: Option<i64>,
    pub drill_oval: bool,
    pub layers: Vec<&'static str>,
}

/// The one pad of a mounting hole: a round hole without plating, in the middle
/// of its footprint.
pub fn mounting_hole_pad(drill: i64) -> (r: PadDefinition)
    requires
        hole_fits(drill),
    ensures
        r.number@.len() == 0,
        r.pad_type@ == "np_thru_hole"@,
        r.shape@ == "circle"@,
        r.x == 0 && r.y == 0 && r.rotation == 0,
        r.size_x == drill + HOLE_ANNULUS_NM && r.size_y == drill + HOLE_ANNULUS_NM,
        r.drill_x == Some(drill) && r.drill_y == Some(drill),
        !r.drill_oval,
        models(r.layers@) == seq!["*.Cu"@, "*.Mask"@],
{
    let size: i64 = mounting_hole_pad_size(drill);
    let layers: Vec<&'static str> = vec!["*.Cu", "*.Mask"];
    proof {
        assert(models(layers@) =~= seq!["*.Cu"@, "*.Mask"@]);
    }
    PadDefinition {
        number: String::new(),
        pad_type: "np_thru_hole",
        shape: "circle",
        x: 0,
        y: 0,
        rotation: 0,
        size_x: size,
        size_y: size,
        drill_x: Some(drill),
        drill_y: Some(drill),
        drill_oval: false,
        layers,
    }
}

/// A mounting hole: where it is, its diameter in nanometres, and the ids of its
/// parts.
pub struct MountingHole {
    pub lib_id: String,
    pub at: PointText,
    pub drill: i64,
    pub reference: String,
    pub footprint_uuid: String,
    pub reference_uuid: String,
    pub value_uuid: String,
    pub pad_uuid: String,
}

/// A mounting hole: a footprint of one hole without plating, as wide as the pad
/// that a live board gets.
pub open spec fn npth_footprint(h: MountingHole) -> Seq<char> {
    let pad_size = millimetres(h.drill + HOLE_ANNULUS_NM);
    let text_offset = millimetres(h.drill + HOLE_TEXT_NM);
    "\n  (footprint \""@ + h.lib_id@ + "\"\n    (layer \"F.Cu\")\n    (at "@ + point_words(h.at@)
        + ")\n    (attr exclude_from_pos_files)\n    (property \"Reference\" \""@ + h.reference@
        + "\"\n      (at 0 "@ + text_offset + " 0)\n      (layer \"F.SilkS\")\n      (uuid \""@
        + h.reference_uuid@
        + "\")\n    )\n    (property \"Value\" \"MountingHole\"\n      (at 0 -"@ + text_offset
        + " 0)\n      (layer \"F.Fab\")\n      (uuid \""@ + h.value_uuid@
        + "\")\n    )\n    (pad \"\" np_thru_hole circle (at 0 0) (size "@ + pad_size + " "@
        + pad_size + ")\n      (drill "@ + millimetres(h.drill as int)
        + ")\n      (layers \"*.Cu\" \"*.Mask\")\n      (uuid \""@ + h.pad_uuid@
        + "\")\n    )\n    (uuid \""@ + h.footprint_uuid@ + "\")\n  )"@
}

/// A mounting hole.
pub fn format_npth_footprint(h: &MountingHole) -> (r: String)
    requires
        hole_fits(h.drill),
    ensures
        r@ == npth_footprint(*h),
{
    let p = words_of(&h.at);
    let pad_size = text::millimetre_text(mounting_hole_pad_size(h.drill));
    let text_offset = text::millimetre_text(mounting_hole_text_offset(h.drill));
    let drill = text::millimetre_text(h.drill);
    let mut r = text::cat5(
        "\n  (footprint \"",
        h.lib_id.as_str(),
        "\"\n    (layer \"F.Cu\")\n    (at ",
        p.as_str(),
        ")\n    (attr exclude_from_pos_files)\n    (property \"Reference\" \"",
    );
    r.append(h.reference.as_str());
    r.append("\"\n      (at 0 ");
    r.append(text_offset.as_str());
    r.append(" 0)\n      (layer \"F.SilkS\")\n      (uuid \"");
    r.append(h.reference_uuid.as_str());
    r.append("\")\n    )\n    (property \"Value\" \"MountingHole\"\n      (at 0 -");
    r.append(text_offset.as_str());
    r.append(" 0)\n      (layer \"F.Fab\")\n      (uuid \"");
    r.append(h.value_uuid.as_str());
    r.append("\")\n    )\n    (pad \"\" np_thru_hole circle (at 0 0) (size ");
    r.append(pad_size.as_str());
    r.append(" ");
    r.append(pad_size.as_str());
    r.append(")\n      (drill ");
    r.append(drill.as_str());
    r.append(")\n      (layers \"*.Cu\" \"*.Mask\")\n      (uuid \"");
    r.append(h.pad_uuid.as_str());
    r.append("\")\n    )\n    (uuid \"");
    r.append(h.footprint_uuid.as_str());
    r.append("\")\n  )");
    r
}

// ─── Zones ────────────────────────────────────────────────────────────────

/// How a board refers to a net: by its name, or by the number and the name
/// under which it declares it.
pub enum NetRef {
    Named(String),
    Declared { id: String, name: String },
}

impl NetRef {
    /// The nodes by which a zone refers to the net.
    pub open spec fn net_nodes(self) -> Seq<char> {
        match self {
            NetRef::Named(name) => "(net \""@ + name@ + "\")"@,
            NetRef::Declared { id, name } => "(net "@ + id@ + ") (net_name \""@ + name@ + "\")"@,
        }
    }

    /// The node by which a zone refers to its layer, in the same format.
    pub open spec fn layer_node(self, layer: Seq<char>) -> Seq<char> {
        match self {
            NetRef::Named(_) => "(layers \""@ + layer + "\")"@,
            NetRef::Declared { .. } => "(layer \""@ + layer + "\")"@,
        }
    }

    /// The nodes by which a zone refers to the net.
    pub fn zone_net_nodes(&self) -> (r: String)
        ensures
            r@ == self.net_nodes(),
    {
        match self {
            NetRef::Named(name) => text::cat3("(net \"", name.as_str(), "\")"),
            NetRef::Declared { id, name } => text::cat5(
                "(net ",
                id.as_str(),
                ") (net_name \"",
                name.as_str(),
                "\")",
            ),
        }
    }

    /// The node by which a zone refers to its layer.
    pub fn zone_layer_node(&self, layer: &str) -> (r: String)
        ensures
            r@ == self.layer_node(layer@),
    {
        match self {
            NetRef::Named(_) => text::cat3("(layers \"", layer, "\")"),
            NetRef::Declared { .. } => text::cat3("(layer \"", layer, "\")"),
        }
    }
}

/// A zone that is asked for. `thermal` says whether its fill spells out its
/// thermal reliefs.
pub struct ZoneRequest {
    pub net_name: String,
    pub layer: String,
    pub clearance: String,
    pub min_width: String,
    pub points: Vec<PointText>,
    pub thermal: bool,
    pub uuid: String,
}

/// A zone, in the format of the board.
pub open spec fn zone_text(net: NetRef, z: ZoneRequest) -> Seq<char> {
    "\n  (zone "@ + net.net_nodes() + " "@ + net.layer_node(z.layer@) + " (uuid \""@ + z.uuid@
        + "\")\n    (hatch edge 0.508)\n    (connect_pads (clearance "@ + z.clearance@
        + "))\n    (min_thickness "@ + z.min_width@ + ")\n    (fill yes"@ + (if z.thermal {
        " (thermal_gap 0.5) (thermal_bridge_width 0.5)"@
    } else {
        Seq::empty()
    }) + ")\n    (polygon (pts"@ + polygon_points(models(z.points@), z.points@.len())
        + "\n    ))\n  )"@
}

/// A zone, in the format of the board.
pub fn format_zone(net: &NetRef, z: &ZoneRequest) -> (r: String)
    ensures
        r@ == zone_text(*net, *z),
{
    let nodes = net.zone_net_nodes();
    let layer = net.zone_layer_node(z.layer.as_str());
    let p = polygon_text(&z.points);
    let mut r = text::cat5("\n  (zone ", nodes.as_str(), " ", layer.as_str(), " (uuid \"");
    r.append(z.uuid.as_str());
    r.append("\")\n    (hatch edge 0.508)\n    (connect_pads (clearance ");
    r.append(z.clearance.as_str());
    r.append("))\n    (min_thickness ");
    r.append(z.min_width.as_str());
    r.append(")\n    (fill yes");
    if z.thermal {
        r.append(" (thermal_gap 0.5) (thermal_bridge_width 0.5)");
    } else {
        proof {
            assert(r@ + Seq::<char>::empty() =~= r@);
        }
    }
    r.append(")\n    (polygon (pts");
    r.append(p.as_str());
    r.append("\n    ))\n  )");
    r
}

/// What is told of a net that a board with a net table does not declare.
pub open spec fn unknown_net(net: Seq<char>, board: Seq<char>) -> Seq<char> {
    "Net '"@ + net + "' is not declared in "@ + board
        + "'s net table. On this legacy-format board a zone must reference a declared net id — writing it anyway would attach the copper to net 0, the unconnected pseudo-net (#192). Declare it first with add_net, or check the name with get_nets_list."@
}

/// What is told of a net that a board with a net table does not declare.
pub fn unknown_net_error(net_name: &str, board: &str) -> (r: String)
    ensures
        r@ == unknown_net(net_name@, board@),
{
    text::cat5(
        "Net '",
        net_name,
        "' is not declared in ",
        board,
        "'s net table. On this legacy-format board a zone must reference a declared net id — writing it anyway would attach the copper to net 0, the unconnected pseudo-net (#192). Declare it first with add_net, or check the name with get_nets_list.",
    )
}

/// What a zone is called where it is refused.
pub open spec fn zone_word(z: ZoneRequest) -> Seq<char> {
    if z.thermal {
        "zone"@
    } else {
        "copper pour"@
    }
}

/// A board with a zone, or why it cannot have it: too few points, a KiCad that
/// holds the board open, or a net that the board cannot refer to.
pub open spec fn with_zone(
    content: Seq<char>,
    board: Seq<char>,
    z: ZoneRequest,
    open_in_kicad: bool,
    net: Option<NetRef>,
) -> Result<Seq<char>, Seq<char>> {
    if z.points@.len() < 3 {
        Err("Zone requires at least 3 points"@)
    } else if open_in_kicad {
        Err(held_open(zone_word(z)))
    } else {
        match net {
            None => Err(unknown_net(z.net_name@, board)),
            Some(n) => Ok(inserted(content, append_position(content), zone_text(n, z))),
        }
    }
}

/// Adds a zone to the text of a board. `active` is what KiCad answers where it
/// is asked for the board, and `net` how the board refers to the net.
pub fn add_zone(
    content: &str,
    board: &str,
    z: &ZoneRequest,
    active: &Result<(), IpcFailure>,
    net: &Option<NetRef>,
) -> (r: Result<String, String>)
    ensures
        match r {
            Ok(t) => with_zone(content@, board@, *z, active is Ok, *net) == Ok::<
                Seq<char>,
                Seq<char>,
            >(t@),
            Err(e) => with_zone(content@, board@, *z, active is Ok, *net) == Err::<
                Seq<char>,
                Seq<char>,
            >(e@),
        },
{
    if z.points.len() < 3 {
        return Err("Zone requires at least 3 points".to_owned());
    }
    let word = if z.thermal {
        "zone"
    } else {
        "copper pour"
    };
    if let Some(e) = refuse_if_board_open_in_kicad(active, word) {
        return Err(e);
    }
    match net {
        None => Err(unknown_net_error(z.net_name.as_str(), board)),
        Some(n) => {
            let item = format_zone(n, z);
            Ok(append_item(content, item.as_str()))
        },
    }
}

// ─── Outlines ─────────────────────────────────────────────────────────────

/// A piece of an outline, in nanometres. An arc rounds the corner at which the
/// sides would meet: its middle lies on the diagonal of that corner.
#[derive(Clone, Copy, PartialEq, Eq, Structural, Debug)]
pub enum OutlinePrimitive {
    Line { start: Point, end: Point },
    Arc { start: Point, corner: Point, end: Point },
}

impl OutlinePrimitive {
    /// Where the piece begins.
    pub open spec fn begins(self) -> Point {
        match self {
            OutlinePrimitive::Line { start, .. } => start,
            OutlinePrimitive::Arc { start, .. } => start,
        }
    }

    /// Where the piece ends.
    pub open spec fn ends(self) -> Point {
        match self {
            OutlinePrimitive::Line { end, .. } => end,
            OutlinePrimitive::Arc { end, .. } => end,
        }
    }
}

/// Why there is no such outline: the argument at fault, and what is wrong.
pub open spec fn outline_error(a: Point, b: Point, radius: int) -> Option<(Seq<char>, Seq<char>)> {
    let width = greater(a.x as int, b.x as int) - lesser(a.x as int, b.x as int);
    let height = greater(a.y as int, b.y as int) - lesser(a.y as int, b.y as int);
    if width == 0 {
        Some(("x2"@, "must differ from x1"@))
    } else if height == 0 {
        Some(("y2"@, "must differ from y1"@))
    } else if radius < 0 {
        Some(("corner_radius"@, "must be zero or greater"@))
    } else if 2 * radius > lesser(width, height) {
        Some(
            (
                "corner_radius"@,
                millimetres(radius) + " mm exceeds half the shorter side ("@ + fixed(
                    (5 * lesser(width, height)) as nat,
                    7,
                ) + " mm)"@,
            ),
        )
    } else {
        None
    }
}

/// A point from coordinates.
pub open spec fn at(x: int, y: int) -> Point {
    Point { x: x as i64, y: y as i64 }
}

/// The side, if it has a length.
pub open spec fn side(start: Point, end: Point) -> Seq<OutlinePrimitive> {
    if start == end {
        Seq::empty()
    } else {
        seq![OutlinePrimitive::Line { start, end }]
    }
}

/// The corner, if it is rounded.
pub open spec fn corner(start: Point, corner: Point, end: Point) -> Seq<OutlinePrimitive> {
    if start == end {
        Seq::empty()
    } else {
        seq![OutlinePrimitive::Arc { start, corner, end }]
    }
}

/// The outline of a rectangle with rounded corners: from the left end of its
/// top, round it side by side and corner by corner. A side that the corners use
/// up is left out.
pub open spec fn rounded_outline(
    left: int,
    top: int,
    right: int,
    bottom: int,
    r: int,
) -> Seq<OutlinePrimitive> {
    side(at(left + r, top), at(right - r, top)) + corner(
        at(right - r, top),
        at(right, top),
        at(right, top + r),
    ) + side(at(right, top + r), at(right, bottom - r)) + corner(
        at(right, bottom - r),
        at(right, bottom),
        at(right - r, bottom),
    ) + side(at(right - r, bottom), at(left + r, bottom)) + corner(
        at(left + r, bottom),
        at(left, bottom),
        at(left, bottom - r),
    ) + side(at(left, bottom - r), at(left, top + r)) + corner(
        at(left, top + r),
        at(left, top),
        at(left + r, top),
    )
}

fn push_outline_line(primitives: &mut Vec<OutlinePrimitive>, start: Point, end: Point)
    ensures
        final(primitives)@ == old(primitives)@ + side(start, end),
{
    let ghost had = primitives@;
    if start.x != end.x || start.y != end.y {
        primitives.push(OutlinePrimitive::Line { start, end });
        proof {
            assert(primitives@ =~= had + side(start, end));
        }
    } else {
        proof {
            assert(primitives@ =~= had + side(start, end));
        }
    }
}

fn push_outline_arc(primitives: &mut Vec<OutlinePrimitive>, start: Point, corner: Point, end: Point)
    ensures
        final(primitives)@ == old(primitives)@ + self::corner(start, corner, end),
{
    let ghost had = primitives@;
    if start.x != end.x || start.y != end.y {
        primitives.push(OutlinePrimitive::Arc { start, corner, end });
        proof {
            assert(primitives@ =~= had + self::corner(start, corner, end));
        }
    } else {
        proof {
            assert(primitives@ =~= had + self::corner(start, corner, end));
        }
    }
}

/// The four sides of the rectangle between two opposite corners, from the first
/// of them round.
pub fn rect_outline_items(a: Point, b: Point) -> (sides: Vec<OutlinePrimitive>)
    ensures
        sides@ == seq![
            (OutlinePrimitive::Line { start: a, end: Point { x: b.x, y: a.y } }),
            (OutlinePrimitive::Line { start: Point { x: b.x, y: a.y }, end: b }),
            (OutlinePrimitive::Line { start: b, end: Point { x: a.x, y: b.y } }),
            (OutlinePrimitive::Line { start: Point { x: a.x, y: b.y }, end: a }),
        ],
{
    let c = Point { x: b.x, y: a.y };
    let d = Point { x: a.x, y: b.y };
    let mut sides: Vec<OutlinePrimitive> = Vec::new();
    sides.push(OutlinePrimitive::Line { start: a, end: c });
    sides.push(OutlinePrimitive::Line { start: c, end: b });
    sides.push(OutlinePrimitive::Line { start: b, end: d });
    sides.push(OutlinePrimitive::Line { start: d, end: a });
    sides
}

/// The outline of a rectangle with rounded corners between two opposite
/// corners, in whatever order they come, or the argument that is at fault.
pub fn rounded_rectangle_outline(a: Point, b: Point, radius: i64) -> (r: Result<
    Vec<OutlinePrimitive>,
    (&'static str, String),
>)
    ensures
        match r {
            Ok(list) => outline_error(a, b, radius as int) is None && list@ == rounded_outline(
                lesser(a.x as int, b.x as int),
                lesser(a.y as int, b.y as int),
                greater(a.x as int, b.x as int),
                greater(a.y as int, b.y as int),
                radius as int,
            ),
            Err(e) => outline_error(a, b, radius as int) == Some((e.0@, e.1@)),
        },
{
    let left: i64 = if a.x < b.x { a.x } else { b.x };
    let right: i64 = if a.x < b.x { b.x } else { a.x };
    let top: i64 = if a.y < b.y { a.y } else { b.y };
    let bottom: i64 = if a.y < b.y { b.y } else { a.y };
    let width: i128 = right as i128 - left as i128;
    let height: i128 = bottom as i128 - top as i128;
    if width == 0 {
        return Err(("x2", "must differ from x1".to_owned()));
    }
    if height == 0 {
        return Err(("y2", "must differ from y1".to_owned()));
    }
    if radius < 0 {
        return Err(("corner_radius", "must be zero or greater".to_owned()));
    }
    let shorter: i128 = if width < height { width } else { height };
    if 2 * (radius as i128) > shorter {
        let shown = text::millimetre_text(radius);
        let maximum = text::fixed_text(5 * shorter as u128, 7);
        return Err(
            (
                "corner_radius",
                text::cat4(
                    shown.as_str(),
                    " mm exceeds half the shorter side (",
                    maximum.as_str(),
                    " mm)",
                ),
            ),
        );
    }
    let r: i64 = radius;
    let mut list: Vec<OutlinePrimitive> = Vec::new();
    push_outline_line(
        &mut list,
        Point { x: left + r, y: top },
        Point { x: right - r, y: top },
    );
    push_outline_arc(
        &mut list,
        Point { x: right - r, y: top },
        Point { x: right, y: top },
        Point { x: right, y: top + r },
    );
    push_outline_line(
        &mut list,
        Point { x: right, y: top + r },
        Point { x: right, y: bottom - r },
    );
    push_outline_arc(
        &mut list,
        Point { x: right, y: bottom - r },
        Point { x: right, y: bottom },
        Point { x: right - r, y: bottom },
    );
    push_outline_line(
        &mut list,
        Point { x: right - r, y: bottom },
        Point { x: left + r, y: bottom },
    );
    push_outline_arc(
        &mut list,
        Point { x: left + r, y: bottom },
        Point { x: left, y: bottom },
        Point { x: left, y: bottom - r },
    );
    push_outline_line(
        &mut list,
        Point { x: left, y: bottom - r },
        Point { x: left, y: top + r },
    );
    push_outline_arc(
        &mut list,
        Point { x: left, y: top + r },
        Point { x: left, y: top },
        Point { x: left + r, y: top },
    );
    proof {
        assert(list@ =~= rounded_outline(
            left as int,
            top as int,
            right as int,
            bottom as int,
            r as int,
        ));
    }
    Ok(list)
}

/// Whether the pieces lead from a point to a point without a gap.
pub open spec fn is_path(list: Seq<OutlinePrimitive>, from: Point, to: Point) -> bool {
    if list.len() == 0 {
        from == to
    } else {
        &&& list[0].begins() == from
        &&& list.last().ends() == to
        &&& forall|i: int|
            #![trigger list[i].ends()]
            0 <= i < list.len() - 1 ==> list[i].ends() == list[i + 1].begins()
    }
}

proof fn lemma_paths_join(
    a: Seq<OutlinePrimitive>,
    b: Seq<OutlinePrimitive>,
    from: Point,
    via: Point,
    to: Point,
)
    requires
        is_path(a, from, via),
        is_path(b, via, to),
    ensures
        is_path(a + b, from, to),
{
    let all = a + b;
    if a.len() == 0 {
        assert(all =~= b);
    } else if b.len() == 0 {
        assert(all =~= a);
    } else {
        assert(all[0] == a[0]);
        assert(all.last() == b.last());
        assert forall|i: int|
            #![trigger all[i].ends()]
            0 <= i < all.len() - 1 implies all[i].ends() == all[i + 1].begins() by {
            if i < a.len() - 1 {
                assert(all[i] == a[i] && all[i + 1] == a[i + 1]);
                assert(a[i].ends() == a[i + 1].begins());
            } else if i == a.len() - 1 {
                assert(all[i] == a.last() && all[i + 1] == b[0]);
            } else {
                let k = i - a.len();
                assert(all[i] == b[k] && all[i + 1] == b[k + 1]);
                assert(b[k].ends() == b[k + 1].begins());
            }
        }
    }
}

/// An outline is a closed path: each piece begins where the one before it
/// ends, and the last ends where the first begins.
pub proof fn law_outline_is_closed(left: int, top: int, right: int, bottom: int, r: int)
    ensures
        is_path(
            rounded_outline(left, top, right, bottom, r),
            at(left + r, top),
            at(left + r, top),
        ),
{
    let p0 = at(left + r, top);
    let p1 = at(right - r, top);
    let p2 = at(right, top + r);
    let p3 = at(right, bottom - r);
    let p4 = at(right - r, bottom);
    let p5 = at(left + r, bottom);
    let p6 = at(left, bottom - r);
    let p7 = at(left, top + r);
    let s1 = side(p0, p1);
    let s2 = s1 + corner(p1, at(right, top), p2);
    let s3 = s2 + side(p2, p3);
    let s4 = s3 + corner(p3, at(right, bottom), p4);
    let s5 = s4 + side(p4, p5);
    let s6 = s5 + corner(p5, at(left, bottom), p6);
    let s7 = s6 + side(p6, p7);
    lemma_paths_join(s1, corner(p1, at(right, top), p2), p0, p1, p2);
    lemma_paths_join(s2, side(p2, p3), p0, p2, p3);
    lemma_paths_join(s3, corner(p3, at(right, bottom), p4), p0, p3, p4);
    lemma_paths_join(s4, side(p4, p5), p0, p4, p5);
    lemma_paths_join(s5, corner(p5, at(left, bottom), p6), p0, p5, p6);
    lemma_paths_join(s6, side(p6, p7), p0, p6, p7);
    lemma_paths_join(s7, corner(p7, at(left, top), p0), p0, p7, p0);
}

/// The outline of a rectangle stays within it: every piece begins and ends
/// between its sides, on one of them.
pub proof fn law_outline_stays_in_its_rectangle(a: Point, b: Point, radius: int, k: int)
    requires
        outline_error(a, b, radius) is None,
        0 <= k < rounded_outline(
            lesser(a.x as int, b.x as int),
            lesser(a.y as int, b.y as int),
            greater(a.x as int, b.x as int),
            greater(a.y as int, b.y as int),
            radius,
        ).len(),
    ensures
        ({
            let left = lesser(a.x as int, b.x as int);
            let top = lesser(a.y as int, b.y as int);
            let right = greater(a.x as int, b.x as int);
            let bottom = greater(a.y as int, b.y as int);
            let piece = rounded_outline(left, top, right, bottom, radius)[k];
            &&& left <= piece.begins().x <= right && top <= piece.begins().y <= bottom
            &&& left <= piece.ends().x <= right && top <= piece.ends().y <= bottom
            &&& piece.begins().x == left || piece.begins().x == right || piece.begins().y == top
                || piece.begins().y == bottom
            &&& piece matches OutlinePrimitive::Arc { corner, .. } ==> (corner.x == left
                || corner.x == right) && (corner.y == top || corner.y == bottom)
        }),
{
}

/// Without rounding, the outline of a rectangle is its four sides.
pub proof fn law_square_outline_has_four_sides(left: int, top: int, right: int, bottom: int)
    requires
        i64::MIN <= left < right <= i64::MAX,
        i64::MIN <= top < bottom <= i64::MAX,
    ensures
        rounded_outline(left, top, right, bottom, 0) == seq![
            (OutlinePrimitive::Line { start: at(left, top), end: at(right, top) }),
            (OutlinePrimitive::Line { start: at(right, top), end: at(right, bottom) }),
            (OutlinePrimitive::Line { start: at(right, bottom), end: at(left, bottom) }),
            (OutlinePrimitive::Line { start: at(left, bottom), end: at(left, top) }),
        ],
{
    assert(rounded_outline(left, top, right, bottom, 0) =~= seq![
        (OutlinePrimitive::Line { start: at(left, top), end: at(right, top) }),
        (OutlinePrimitive::Line { start: at(right, top), end: at(right, bottom) }),
        (OutlinePrimitive::Line { start: at(right, bottom), end: at(left, bottom) }),
        (OutlinePrimitive::Line { start: at(left, bottom), end: at(left, top) }),
    ]);
}

/// There is an outline exactly for two different columns and rows and a radius
/// that is not negative and at most half the shorter side.
pub proof fn law_outlines_there_are(a: Point, b: Point, radius: int)
    ensures
        outline_error(a, b, radius) is None <==> {
            &&& a.x != b.x
            &&& a.y != b.y
            &&& radius >= 0
            &&& 2 * radius <= a.x - b.x || 2 * radius <= b.x - a.x
            &&& 2 * radius <= a.y - b.y || 2 * radius <= b.y - a.y
        },
{
}

/// A zone is added exactly if it has three points or more, no KiCad holds the
/// board open, and the board can refer to its net; the rest of the board stays
/// as it is.
pub proof fn law_zones_that_can_be_added(
    content: Seq<char>,
    board: Seq<char>,
    z: ZoneRequest,
    open_in_kicad: bool,
    net: Option<NetRef>,
)
    ensures
        with_zone(content, board, z, open_in_kicad, net) is Ok <==> z.points@.len() >= 3
            && !open_in_kicad && net is Some,
        with_zone(content, board, z, open_in_kicad, net) matches Ok(t) ==> t.take(
            append_position(content),
        ) == content.take(append_position(content)) && t.skip(
            append_position(content) + t.len() - content.len(),
        ) == content.skip(append_position(content)),
{
    let at = append_position(content);
    text::lemma_last_of_range(content, ')');
    if let Ok(t) = with_zone(content, board, z, open_in_kicad, net) {
        crate::board_edit::law_insertion_keeps_the_text(content, at, zone_text(net->0, z));
    }
}

proof fn lemma_mentions(a: Seq<char>, p: Seq<char>, b: Seq<char>)
    ensures
        text::contains_text(a + p + b, p),
{
    let s = a + p + b;
    assert(s.subrange(a.len() as int, (a.len() + p.len()) as int) =~= p);
    assert(text::occurs_at(s, p, a.len() as int));
}

proof fn lemma_mentions_more(s: Seq<char>, a: Seq<char>, b: Seq<char>, p: Seq<char>)
    requires
        text::contains_text(s, p),
    ensures
        text::contains_text(a + s + b, p),
{
    let i = choose|i: int| #[trigger] text::occurs_at(s, p, i);
    let t = a + s + b;
    assert(t.subrange(a.len() + i, a.len() + i + p.len()) =~= s.subrange(i, i + p.len()));
    assert(text::occurs_at(t, p, a.len() + i));
}

proof fn lemma_stroke_end(layer: Seq<char>, width: Seq<char>, uuid: Seq<char>)
    ensures
        text::contains_text(stroke_end(layer, width, uuid), "(width "@ + width + ")"@),
        text::contains_text(stroke_end(layer, width, uuid), "(layer \""@ + layer + "\")"@),
        text::contains_text(stroke_end(layer, width, uuid), "(uuid \""@ + uuid + "\")"@),
{
    reveal_strlit(")\n    (stroke (width ");
    reveal_strlit(") (type solid))\n    (layer \"");
    reveal_strlit("\")\n    (uuid \"");
    reveal_strlit("\")\n  )");
    reveal_strlit("(width ");
    reveal_strlit(")");
    reveal_strlit("(layer \"");
    reveal_strlit("\")");
    reveal_strlit("(uuid \"");
    let s = stroke_end(layer, width, uuid);
    let l0 = ")\n    (stroke (width "@;
    let l1 = ") (type solid))\n    (layer \""@;
    let l2 = "\")\n    (uuid \""@;
    let p = "(width "@ + width + ")"@;
    let i = (l0.len() - 7) as int;
    assert(s.subrange(i, i + p.len()) =~= p);
    assert(text::occurs_at(s, p, i));
    let q = "(layer \""@ + layer + "\")"@;
    let j = (l0.len() + width.len() + l1.len() - 8) as int;
    assert(s.subrange(j, j + q.len()) =~= q);
    assert(text::occurs_at(s, q, j));
    let r = "(uuid \""@ + uuid + "\")"@;
    let k = (l0.len() + width.len() + l1.len() + layer.len() + l2.len() - 7) as int;
    assert(s.subrange(k, k + r.len()) =~= r);
    assert(text::occurs_at(s, r, k));
}

/// A graphic line is written with its start, its end, its layer, its width and
/// its id, each under the head that the file has for it.
pub proof fn law_lines_are_written_with_their_ends(
    start: PointTextView,
    end: PointTextView,
    layer: Seq<char>,
    width: Seq<char>,
    uuid: Seq<char>,
)
    ensures
        ({
            let s = gr_line(start, end, layer, width, uuid);
            &&& text::contains_text(s, "(start "@ + (start.x + " "@ + start.y))
            &&& text::contains_text(s, "(end "@ + (end.x + " "@ + end.y))
            &&& text::contains_text(s, "(layer \""@ + layer + "\")"@)
            &&& text::contains_text(s, "(width "@ + width + ")"@)
            &&& text::contains_text(s, "(uuid \""@ + uuid + "\")"@)
        }),
{
    reveal_strlit("\n  (gr_line\n    (start ");
    reveal_strlit(")\n    (end ");
    reveal_strlit("(start ");
    reveal_strlit("(end ");
    let s = gr_line(start, end, layer, width, uuid);
    let tail = stroke_end(layer, width, uuid);
    lemma_stroke_end(layer, width, uuid);
    let l0 = "\n  (gr_line\n    (start "@;
    let l1 = ")\n    (end "@;
    let p = "(start "@ + point_words(start);
    let i = (l0.len() - 7) as int;
    assert(s.subrange(i, i + p.len()) =~= p);
    assert(text::occurs_at(s, p, i));
    let q = "(end "@ + point_words(end);
    let j = (l0.len() + point_words(start).len() + l1.len() - 5) as int;
    assert(s.subrange(j, j + q.len()) =~= q);
    assert(text::occurs_at(s, q, j));
    let head = l0 + point_words(start) + l1 + point_words(end);
    assert(s =~= head + tail + Seq::<char>::empty());
    lemma_mentions_more(tail, head, Seq::empty(), "(layer \""@ + layer + "\")"@);
    lemma_mentions_more(tail, head, Seq::empty(), "(width "@ + width + ")"@);
    lemma_mentions_more(tail, head, Seq::empty(), "(uuid \""@ + uuid + "\")"@);
}

/// A graphic arc is written with its start, its middle, its end, its layer, its
/// width and its id, each under the head that the file has for it.
pub proof fn law_arcs_are_written_with_their_points(
    start: PointTextView,
    mid: PointTextView,
    end: PointTextView,
    layer: Seq<char>,
    width: Seq<char>,
    uuid: Seq<char>,
)
    ensures
        ({
            let s = gr_arc(start, mid, end, layer, width, uuid);
            &&& text::contains_text(s, "(start "@ + (start.x + " "@ + start.y))
            &&& text::contains_text(s, "(mid "@ + (mid.x + " "@ + mid.y))
            &&& text::contains_text(s, "(end "@ + (end.x + " "@ + end.y))
            &&& text::contains_text(s, "(layer \""@ + layer + "\")"@)
            &&& text::contains_text(s, "(width "@ + width + ")"@)
            &&& text::contains_text(s, "(uuid \""@ + uuid + "\")"@)
        }),
{
    reveal_strlit("\n  (gr_arc\n    (start ");
    reveal_strlit(")\n    (mid ");
    reveal_strlit(")\n    (end ");
    reveal_strlit("(start ");
    reveal_strlit("(mid ");
    reveal_strlit("(end ");
    let s = gr_arc(start, mid, end, layer, width, uuid);
    let tail = stroke_end(layer, width, uuid);
    lemma_stroke_end(layer, width, uuid);
    let l0 = "\n  (gr_arc\n    (start "@;
    let l1 = ")\n    (mid "@;
    let l2 = ")\n    (end "@;
    let p = "(start "@ + point_words(start);
    let i = (l0.len() - 7) as int;
    assert(s.subrange(i, i + p.len()) =~= p);
    assert(text::occurs_at(s, p, i));
    let m = "(mid "@ + point_words(mid);
    let k = (l0.len() + point_words(start).len() + l1.len() - 5) as int;
    assert(s.subrange(k, k + m.len()) =~= m);
    assert(text::occurs_at(s, m, k));
    let q = "(end "@ + point_words(end);
    let j = (l0.len() + point_words(start).len() + l1.len() + point_words(mid).len() + l2.len()
        - 5) as int;
    assert(s.subrange(j, j + q.len()) =~= q);
    assert(text::occurs_at(s, q, j));
    let head = l0 + point_words(start) + l1 + point_words(mid) + l2 + point_words(end);
    assert(s =~= head + tail + Seq::<char>::empty());
    lemma_mentions_more(tail, head, Seq::empty(), "(layer \""@ + layer + "\")"@);
    lemma_mentions_more(tail, head, Seq::empty(), "(width "@ + width + ")"@);
    lemma_mentions_more(tail, head, Seq::empty(), "(uuid \""@ + uuid + "\")"@);
}

/// Every side and every corner of an outline is written, on the layer and with
/// the width of the outline.
pub proof fn law_every_outline_item_is_written(
    items: Seq<OutlineItemView>,
    layer: Seq<char>,
    width: Seq<char>,
    n: nat,
    k: int,
)
    requires
        0 <= k < n <= items.len(),
    ensures
        match items[k] {
            OutlineItemView::Line { start, end, uuid } => text::contains_text(
                outline_items(items, layer, width, n),
                gr_line(start, end, layer, width, uuid),
            ),
            OutlineItemView::Arc { start, mid, end, uuid } => text::contains_text(
                outline_items(items, layer, width, n),
                gr_arc(start, mid, end, layer, width, uuid),
            ),
        },
    decreases n,
{
    let rest = outline_items(items, layer, width, (n - 1) as nat);
    let own = outline_item(items[n - 1], layer, width);
    let p = outline_item(items[k], layer, width);
    if k == n - 1 {
        lemma_mentions(rest, own, Seq::empty());
        assert(rest + own + Seq::<char>::empty() =~= rest + own);
    } else {
        law_every_outline_item_is_written(items, layer, width, (n - 1) as nat, k);
        lemma_mentions_more(rest, Seq::empty(), own, p);
        assert(Seq::<char>::empty() + rest + own =~= rest + own);
    }
}

proof fn lemma_polygon_points(points: Seq<PointTextView>, n: nat, k: int)
    requires
        0 <= k < n <= points.len(),
    ensures
        text::contains_text(
            polygon_points(points, n),
            "(xy "@ + (points[k].x + " "@ + points[k].y) + ")"@,
        ),
    decreases n,
{
    reveal_strlit("\n      (xy ");
    reveal_strlit("(xy ");
    reveal_strlit(")");
    let rest = polygon_points(points, (n - 1) as nat);
    let own = "\n      (xy "@ + point_words(points[n - 1]) + ")"@;
    let p = "(xy "@ + point_words(points[k]) + ")"@;
    if k == n - 1 {
        assert(own.subrange(7, 7 + p.len() as int) =~= p);
        assert(text::occurs_at(own, p, 7));
        lemma_mentions_more(own, rest, Seq::empty(), p);
        assert(rest + own + Seq::<char>::empty() =~= rest + own);
    } else {
        lemma_polygon_points(points, (n - 1) as nat, k);
        lemma_mentions_more(rest, Seq::empty(), own, p);
        assert(Seq::<char>::empty() + rest + own =~= rest + own);
    }
}

/// A polygon is written with every one of its points, its layer and its id.
pub proof fn law_polygons_are_written_with_their_points(
    points: Seq<PointTextView>,
    layer: Seq<char>,
    uuid: Seq<char>,
    k: int,
)
    requires
        0 <= k < points.len(),
    ensures
        text::contains_text(
            gr_poly(points, layer, uuid),
            "(xy "@ + (points[k].x + " "@ + points[k].y) + ")"@,
        ),
        text::contains_text(gr_poly(points, layer, uuid), layer),
        text::contains_text(gr_poly(points, layer, uuid), uuid),
{
    let l0 = "\n  (gr_poly\n    (pts"@;
    let l1 = "\n    )\n    (stroke (width 0) (type solid))\n    (fill solid)\n    (layer \""@;
    let l2 = "\")\n    (uuid \""@;
    let l3 = "\")\n  )"@;
    let body = polygon_points(points, points.len());
    let s = gr_poly(points, layer, uuid);
    lemma_polygon_points(points, points.len(), k);
    lemma_mentions_more(
        body,
        l0,
        l1 + layer + l2 + uuid + l3,
        "(xy "@ + point_words(points[k]) + ")"@,
    );
    assert(s =~= l0 + body + (l1 + layer + l2 + uuid + l3));
    lemma_mentions(l0 + body + l1, layer, l2 + uuid + l3);
    assert(s =~= l0 + body + l1 + layer + (l2 + uuid + l3));
    lemma_mentions(l0 + body + l1 + layer + l2, uuid, l3);
}

/// A text is written escaped, at its place, on its layer and in its size.
pub proof fn law_texts_are_written_where_they_stand(
    label: Seq<char>,
    at: PointTextView,
    rotation: Seq<char>,
    layer: Seq<char>,
    size: Seq<char>,
    uuid: Seq<char>,
)
    ensures
        ({
            let s = gr_text(label, at, rotation, layer, size, uuid);
            &&& text::contains_text(s, "\""@ + escaped(label) + "\""@)
            &&& text::contains_text(s, "(at "@ + (at.x + " "@ + at.y) + " "@ + rotation + ")"@)
            &&& text::contains_text(s, layer)
            &&& text::contains_text(s, "(size "@ + size + " "@ + size + ")"@)
            &&& text::contains_text(s, uuid)
        }),
{
    reveal_strlit("\n  (gr_text \"");
    reveal_strlit("\"\n    (at ");
    reveal_strlit(" ");
    reveal_strlit(")\n    (layer \"");
    reveal_strlit("\")\n    (effects (font (size ");
    reveal_strlit(") (thickness 0.15)))\n    (uuid \"");
    reveal_strlit("\"");
    reveal_strlit("(at ");
    reveal_strlit(")");
    reveal_strlit("(size ");
    let s = gr_text(label, at, rotation, layer, size, uuid);
    let l0 = "\n  (gr_text \""@;
    let l1 = "\"\n    (at "@;
    let l3 = ")\n    (layer \""@;
    let l4 = "\")\n    (effects (font (size "@;
    let l5 = ") (thickness 0.15)))\n    (uuid \""@;
    let e = escaped(label);
    let w = point_words(at);
    let p = "\""@ + e + "\""@;
    let i = (l0.len() - 1) as int;
    assert(s.subrange(i, i + p.len()) =~= p);
    assert(text::occurs_at(s, p, i));
    let q = "(at "@ + w + " "@ + rotation + ")"@;
    let j = (l0.len() + e.len() + l1.len() - 4) as int;
    assert(s.subrange(j, j + q.len()) =~= q);
    assert(text::occurs_at(s, q, j));
    let k = (l0.len() + e.len() + l1.len() + w.len() + 1 + rotation.len() + l3.len()) as int;
    assert(s.subrange(k, k + layer.len()) =~= layer);
    assert(text::occurs_at(s, layer, k));
    let r = "(size "@ + size + " "@ + size + ")"@;
    let m = (k + layer.len() + l4.len() - 6) as int;
    assert(s.subrange(m, m + r.len()) =~= r);
    assert(text::occurs_at(s, r, m));
    let o = (k + layer.len() + l4.len() + size.len() + 1 + size.len() + l5.len()) as int;
    assert(s.subrange(o, o + uuid.len()) =~= uuid);
    assert(text::occurs_at(s, uuid, o));
}

} // verus!
