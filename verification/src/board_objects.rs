//! The objects on a board, as its file places them.
use crate::schematic::{copy_text_option, text_option};
use crate::seqs::{models, push_model};
use crate::sexp::{SexpNode, SexpView};
use crate::text;
use vstd::prelude::*;

verus! {

// ─── Places ───────────────────────────────────────────────────────────────

/// The numerals of the place of a footprint, and of its rotation if it has one.
pub struct Frame {
    pub x: String,
    pub y: String,
    pub rotation: Option<String>,
}

/// The model of the place of a footprint.
pub ghost struct FrameView {
    pub x: Seq<char>,
    pub y: Seq<char>,
    pub rotation: Option<Seq<char>>,
}

impl View for Frame {
    type V = FrameView;

    open spec fn view(&self) -> FrameView {
        FrameView { x: self.x@, y: self.y@, rotation: text_option(self.rotation) }
    }
}

/// The numerals that place an object: pairs of coordinates. Those of a circle
/// are its centre and a point on it. Those of a part of a footprint count from
/// the place of the footprint, along with its rotation.
pub struct ObjectNumerals {
    pub circle: bool,
    pub pairs: Vec<(String, String)>,
    pub frame: Option<Frame>,
}

/// The model of the numerals of an object.
pub ghost struct ObjectView {
    pub circle: bool,
    pub pairs: Seq<(Seq<char>, Seq<char>)>,
    pub frame: Option<FrameView>,
}

/// The model of a frame, if there is one.
pub open spec fn frame_model(f: Option<Frame>) -> Option<FrameView> {
    match f {
        Some(f) => Some(f@),
        None => None,
    }
}

impl View for ObjectNumerals {
    type V = ObjectView;

    open spec fn view(&self) -> ObjectView {
        ObjectView {
            circle: self.circle,
            pairs: models(self.pairs@),
            frame: frame_model(self.frame),
        }
    }
}

/// The pair of numerals in a block, behind its head.
pub open spec fn pair_in(n: SexpView) -> Option<(Seq<char>, Seq<char>)> {
    match (n.item_text(1), n.item_text(2)) {
        (Some(x), Some(y)) => Some((x, y)),
        _ => None,
    }
}

/// Whether an item of that head is drawn at a single point, along with the board
/// or, for `part`, with a footprint.
pub open spec fn is_spot(head: Seq<char>, part: bool) -> bool {
    if part {
        head == "pad"@
    } else {
        head == "footprint"@ || head == "via"@ || head == "gr_text"@ || head == "image"@ || head
            == "target"@
    }
}

/// Whether an item of that head is drawn between two points.
pub open spec fn is_span(head: Seq<char>, part: bool) -> bool {
    if part {
        head == "fp_line"@ || head == "fp_rect"@
    } else {
        head == "gr_line"@ || head == "segment"@ || head == "gr_rect"@ || head == "gr_text_box"@
    }
}

/// Whether an item of that head is an arc.
pub open spec fn is_arc(head: Seq<char>, part: bool) -> bool {
    if part {
        head == "fp_arc"@
    } else {
        head == "gr_arc"@ || head == "arc"@
    }
}

/// Whether an item of that head is a circle.
pub open spec fn is_circle(head: Seq<char>, part: bool) -> bool {
    head == if part {
        "fp_circle"@
    } else {
        "gr_circle"@
    }
}

/// Whether an item of that head is drawn through a list of points.
pub open spec fn is_outline(head: Seq<char>, part: bool) -> bool {
    if part {
        head == "fp_poly"@ || head == "fp_curve"@
    } else {
        head == "gr_poly"@ || head == "gr_curve"@ || head == "dimension"@
    }
}

/// Under which names an item of that head has its coordinates. Items of other
/// heads have none, or have a list of points.
pub open spec fn place_names(head: Seq<char>, part: bool) -> Seq<Seq<char>> {
    if is_spot(head, part) {
        seq!["at"@]
    } else if is_span(head, part) {
        seq!["start"@, "end"@]
    } else if is_arc(head, part) {
        seq!["start"@, "mid"@, "end"@]
    } else if is_circle(head, part) {
        seq!["center"@, "end"@]
    } else {
        Seq::empty()
    }
}

/// The coordinates of an object under the first `n` names, if it has them all.
pub open spec fn named_pairs(object: SexpView, names: Seq<Seq<char>>, n: nat) -> Option<
    Seq<(Seq<char>, Seq<char>)>,
>
    decreases n,
{
    if n == 0 {
        Some(Seq::empty())
    } else {
        match named_pairs(object, names, (n - 1) as nat) {
            None => None,
            Some(rest) => match object.child(names[n - 1]) {
                None => None,
                Some(c) => match pair_in(c) {
                    None => None,
                    Some(p) => Some(rest.push(p)),
                },
            },
        }
    }
}

/// The points among the first `n` items of a list of points.
pub open spec fn listed_pairs(points: SexpView, n: nat) -> Seq<(Seq<char>, Seq<char>)>
    decreases n,
{
    if n == 0 {
        Seq::empty()
    } else {
        let rest = listed_pairs(points, (n - 1) as nat);
        let item = points.items()[n - 1];
        match pair_in(item) {
            Some(p) => if item.head() == Some("xy"@) {
                rest.push(p)
            } else {
                rest
            },
            None => rest,
        }
    }
}

/// The points of an outline.
pub open spec fn outline_pairs(outline: SexpView) -> Seq<(Seq<char>, Seq<char>)> {
    match outline.child("pts"@) {
        Some(points) => listed_pairs(points, points.items().len()),
        None => Seq::empty(),
    }
}

/// The points of the outlines among the first `n` items of a zone.
pub open spec fn zone_pairs(zone: SexpView, n: nat) -> Seq<(Seq<char>, Seq<char>)>
    decreases n,
{
    if n == 0 {
        Seq::empty()
    } else {
        let rest = zone_pairs(zone, (n - 1) as nat);
        let item = zone.items()[n - 1];
        if item.head() == Some("polygon"@) {
            rest + outline_pairs(item)
        } else {
            rest
        }
    }
}

/// What places an item of a board, if it is an object: a footprint, a graphic,
/// a text, a dimension, a track, a via or a zone; for `part` an item of a
/// footprint, if it is a pad or a graphic.
pub open spec fn object_of(item: SexpView, part: bool, frame: Option<FrameView>) -> Option<
    ObjectView,
> {
    match item.head() {
        None => None,
        Some(head) => {
            let names = place_names(head, part);
            if names.len() > 0 {
                match named_pairs(item, names, names.len()) {
                    Some(pairs) => Some(
                        ObjectView { circle: is_circle(head, part), pairs, frame },
                    ),
                    None => None,
                }
            } else if is_outline(head, part) {
                Some(ObjectView { circle: false, pairs: outline_pairs(item), frame })
            } else if !part && head == "zone"@ {
                Some(
                    ObjectView {
                        circle: false,
                        pairs: zone_pairs(item, item.items().len()),
                        frame,
                    },
                )
            } else {
                None
            }
        },
    }
}

/// What places the objects among the first `n` items of a board, or the parts
/// among those of a footprint.
pub open spec fn objects_of(
    tree: SexpView,
    part: bool,
    frame: Option<FrameView>,
    n: nat,
) -> Seq<ObjectView>
    decreases n,
{
    if n == 0 {
        Seq::empty()
    } else {
        let rest = objects_of(tree, part, frame, (n - 1) as nat);
        match object_of(tree.items()[n - 1], part, frame) {
            Some(o) => rest.push(o),
            None => rest,
        }
    }
}

/// The place of a footprint that has one.
pub open spec fn frame_of(footprint: SexpView) -> Option<FrameView> {
    match footprint.child("at"@) {
        None => None,
        Some(at) => match pair_in(at) {
            None => None,
            Some(p) => Some(FrameView { x: p.0, y: p.1, rotation: at.item_text(3) }),
        },
    }
}

/// What places the parts of the footprints among the first `n` items of a board
/// that have a place.
pub open spec fn parts_of(tree: SexpView, n: nat) -> Seq<ObjectView>
    decreases n,
{
    if n == 0 {
        Seq::empty()
    } else {
        let rest = parts_of(tree, (n - 1) as nat);
        let item = tree.items()[n - 1];
        if item.head() == Some("footprint"@) && frame_of(item) is Some {
            rest + objects_of(item, true, frame_of(item), item.items().len())
        } else {
            rest
        }
    }
}

/// The model of a pair, if there is one.
spec fn pair_model(p: Option<(String, String)>) -> Option<(Seq<char>, Seq<char>)> {
    match p {
        Some(w) => Some((w.0@, w.1@)),
        None => None,
    }
}

fn read_pair(n: &SexpNode) -> (r: Option<(String, String)>)
    ensures
        pair_model(r) == pair_in(n@),
{
    match (n.item_text(1), n.item_text(2)) {
        (Some(x), Some(y)) => Some((x.clone(), y.clone())),
        _ => None,
    }
}

/// The names under which an item of that head has its coordinates.
fn names_for(head: &str, part: bool) -> (names: Vec<&'static str>)
    ensures
        models(names@) == place_names(head@, part),
{
    let spot = if part {
        text::same(head, "pad")
    } else {
        text::same(head, "footprint") || text::same(head, "via") || text::same(head, "gr_text")
            || text::same(head, "image") || text::same(head, "target")
    };
    let span = if part {
        text::same(head, "fp_line") || text::same(head, "fp_rect")
    } else {
        text::same(head, "gr_line") || text::same(head, "segment") || text::same(head, "gr_rect")
            || text::same(head, "gr_text_box")
    };
    let arc = if part {
        text::same(head, "fp_arc")
    } else {
        text::same(head, "gr_arc") || text::same(head, "arc")
    };
    let mut names: Vec<&'static str> = Vec::new();
    if spot {
        names.push("at");
    } else if span {
        names.push("start");
        names.push("end");
    } else if arc {
        names.push("start");
        names.push("mid");
        names.push("end");
    } else if circle_here(head, part) {
        names.push("center");
        names.push("end");
    }
    proof {
        assert(models(names@) =~= place_names(head@, part));
    }
    names
}

fn circle_here(head: &str, part: bool) -> (r: bool)
    ensures
        r == is_circle(head@, part),
{
    if part {
        text::same(head, "fp_circle")
    } else {
        text::same(head, "gr_circle")
    }
}

fn outline_here(head: &str, part: bool) -> (r: bool)
    ensures
        r == is_outline(head@, part),
{
    if part {
        text::same(head, "fp_poly") || text::same(head, "fp_curve")
    } else {
        text::same(head, "gr_poly") || text::same(head, "gr_curve") || text::same(
            head,
            "dimension",
        )
    }
}

fn read_named(object: &SexpNode, names: &Vec<&'static str>) -> (r: Option<Vec<(String, String)>>)
    ensures
        match r {
            Some(pairs) => named_pairs(object@, models(names@), names@.len()) == Some(
                models(pairs@),
            ),
            None => named_pairs(object@, models(names@), names@.len()) is None,
        },
{
    let mut pairs: Vec<(String, String)> = Vec::new();
    let mut i: usize = 0;
    proof {
        assert(models(pairs@) =~= Seq::empty());
    }
    while i < names.len()
        invariant
            i <= names@.len(),
            named_pairs(object@, models(names@), i as nat) == Some(models(pairs@)),
        decreases names@.len() - i,
    {
        proof {
            assert(models(names@)[i as int] == names@[i as int]@);
        }
        let pair = match object.child(names[i]) {
            Some(c) => read_pair(c),
            None => None,
        };
        match pair {
            Some(p) => {
                push_model(&mut pairs, p);
            },
            None => {
                proof {
                    lemma_missing_stays(object@, models(names@), (i + 1) as nat, names@.len());
                }
                return None;
            },
        }
        i += 1;
    }
    Some(pairs)
}

proof fn lemma_missing_stays(object: SexpView, names: Seq<Seq<char>>, n: nat, m: nat)
    requires
        n <= m,
        named_pairs(object, names, n) is None,
    ensures
        named_pairs(object, names, m) is None,
    decreases m,
{
    if n < m {
        lemma_missing_stays(object, names, n, (m - 1) as nat);
    }
}

fn read_outline(outline: &SexpNode, pairs: &mut Vec<(String, String)>)
    ensures
        models(final(pairs)@) == models(old(pairs)@) + outline_pairs(outline@),
{
    let ghost had = models(pairs@);
    proof {
        assert(had + Seq::<(Seq<char>, Seq<char>)>::empty() =~= had);
    }
    if let Some(points) = outline.child("pts") {
        let count: usize = points.item_count();
        let mut i: usize = 0;
        while i < count
            invariant
                count == points@.items().len(),
                i <= count,
                models(pairs@) == had + listed_pairs(points@, i as nat),
            decreases count - i,
        {
            if let Some(item) = points.item(i) {
                if item.is_headed("xy") {
                    if let Some(p) = read_pair(item) {
                        let ghost v = p@;
                        push_model(pairs, p);
                        proof {
                            assert((had + listed_pairs(points@, i as nat)).push(v) =~= had
                                + listed_pairs(points@, i as nat).push(v));
                        }
                    }
                }
            }
            i += 1;
        }
    }
}

fn read_zone(zone: &SexpNode) -> (pairs: Vec<(String, String)>)
    ensures
        models(pairs@) == zone_pairs(zone@, zone@.items().len()),
{
    let mut pairs: Vec<(String, String)> = Vec::new();
    let count: usize = zone.item_count();
    let mut i: usize = 0;
    proof {
        assert(models(pairs@) =~= Seq::empty());
    }
    while i < count
        invariant
            count == zone@.items().len(),
            i <= count,
            models(pairs@) == zone_pairs(zone@, i as nat),
        decreases count - i,
    {
        if let Some(item) = zone.item(i) {
            if item.is_headed("polygon") {
                read_outline(item, &mut pairs);
            }
        }
        i += 1;
    }
    pairs
}

fn copy_frame(f: &Option<Frame>) -> (r: Option<Frame>)
    ensures
        frame_model(r) == frame_model(*f),
{
    match f {
        Some(f) => Some(
            Frame { x: f.x.clone(), y: f.y.clone(), rotation: copy_text_option(&f.rotation) },
        ),
        None => None,
    }
}

fn read_object(item: &SexpNode, part: bool, frame: &Option<Frame>) -> (r: Option<ObjectNumerals>)
    ensures
        match r {
            Some(o) => object_of(item@, part, frame_model(*frame)) == Some(o@),
            None => object_of(item@, part, frame_model(*frame)) is None,
        },
{
    let head = match item.head() {
        Some(head) => head.as_str(),
        None => {
            return None;
        },
    };
    let names = names_for(head, part);
    proof {
        assert(models(names@).len() == names@.len());
    }
    if names.len() > 0 {
        return match read_named(item, &names) {
            Some(pairs) => Some(
                ObjectNumerals {
                    circle: circle_here(head, part),
                    pairs,
                    frame: copy_frame(frame),
                },
            ),
            None => None,
        };
    }
    if outline_here(head, part) {
        let mut pairs: Vec<(String, String)> = Vec::new();
        read_outline(item, &mut pairs);
        proof {
            assert(models(pairs@) =~= outline_pairs(item@));
        }
        return Some(ObjectNumerals { circle: false, pairs, frame: copy_frame(frame) });
    }
    if !part && text::same(head, "zone") {
        return Some(
            ObjectNumerals { circle: false, pairs: read_zone(item), frame: copy_frame(frame) },
        );
    }
    None
}

fn read_objects(
    tree: &SexpNode,
    part: bool,
    frame: &Option<Frame>,
    objects: &mut Vec<ObjectNumerals>,
)
    ensures
        models(final(objects)@) == models(old(objects)@) + objects_of(
            tree@,
            part,
            frame_model(*frame),
            tree@.items().len(),
        ),
{
    let ghost had = models(objects@);
    let ghost fv = frame_model(*frame);
    let count: usize = tree.item_count();
    let mut i: usize = 0;
    proof {
        assert(had + objects_of(tree@, part, fv, 0) =~= had);
    }
    while i < count
        invariant
            count == tree@.items().len(),
            i <= count,
            fv == frame_model(*frame),
            models(objects@) == had + objects_of(tree@, part, fv, i as nat),
        decreases count - i,
    {
        if let Some(item) = tree.item(i) {
            if let Some(o) = read_object(item, part, frame) {
                let ghost v = o@;
                push_model(objects, o);
                proof {
                    assert((had + objects_of(tree@, part, fv, i as nat)).push(v) =~= had
                        + objects_of(tree@, part, fv, i as nat).push(v));
                }
            }
        }
        i += 1;
    }
}

fn read_frame(footprint: &SexpNode) -> (r: Option<Frame>)
    ensures
        frame_model(r) == frame_of(footprint@),
{
    match footprint.child("at") {
        None => None,
        Some(at) => match read_pair(at) {
            None => None,
            Some((x, y)) => Some(Frame { x, y, rotation: owned(at.item_text(3)) }),
        },
    }
}

/// What places the objects of a board, in their order, and then the parts of its
/// footprints.
pub fn board_objects(tree: &SexpNode) -> (objects: Vec<ObjectNumerals>)
    ensures
        models(objects@) == objects_of(tree@, false, None, tree@.items().len()) + parts_of(
            tree@,
            tree@.items().len(),
        ),
{
    let mut objects: Vec<ObjectNumerals> = Vec::new();
    let none: Option<Frame> = None;
    let ghost whole = objects_of(tree@, false, None, tree@.items().len());
    read_objects(tree, false, &none, &mut objects);
    let count: usize = tree.item_count();
    let mut i: usize = 0;
    proof {
        assert(models(objects@) =~= whole + parts_of(tree@, 0));
    }
    while i < count
        invariant
            count == tree@.items().len(),
            i <= count,
            models(objects@) == whole + parts_of(tree@, i as nat),
        decreases count - i,
    {
        if let Some(item) = tree.item(i) {
            if item.is_headed("footprint") {
                let frame = read_frame(item);
                if frame.is_some() {
                    read_objects(item, true, &frame, &mut objects);
                    proof {
                        assert(models(objects@) =~= whole + parts_of(tree@, (i + 1) as nat));
                    }
                }
            }
        }
        i += 1;
    }
    objects
}

// ─── Footprints ───────────────────────────────────────────────────────────

/// What a file says of a footprint: its layer, its reference, and the numerals
/// of its place.
pub struct FootprintFacts {
    pub layer: Option<String>,
    pub reference: Option<String>,
    pub x: Option<String>,
    pub y: Option<String>,
}

/// The model of what a file says of a footprint.
pub ghost struct FootprintView {
    pub layer: Option<Seq<char>>,
    pub reference: Option<Seq<char>>,
    pub x: Option<Seq<char>>,
    pub y: Option<Seq<char>>,
}

impl View for FootprintFacts {
    type V = FootprintView;

    open spec fn view(&self) -> FootprintView {
        FootprintView {
            layer: text_option(self.layer),
            reference: text_option(self.reference),
            x: text_option(self.x),
            y: text_option(self.y),
        }
    }
}

/// The text of the first property of that name among the items from `from` on.
pub open spec fn property_from(n: SexpView, name: Seq<char>, from: int) -> Option<Seq<char>>
    decreases n.items().len() - from,
{
    if from < 0 || from >= n.items().len() {
        None
    } else if n.items()[from].head() == Some("property"@) && n.items()[from].item_text(1) == Some(
        name,
    ) {
        n.items()[from].item_text(2)
    } else {
        property_from(n, name, from + 1)
    }
}

/// What a file says of a footprint.
pub open spec fn facts_of(footprint: SexpView) -> FootprintView {
    FootprintView {
        layer: footprint.child_text("layer"@, 1),
        reference: property_from(footprint, "Reference"@, 0),
        x: footprint.child_text("at"@, 1),
        y: footprint.child_text("at"@, 2),
    }
}

/// What a file says of the footprints among the first `n` items of a board.
pub open spec fn facts_among(tree: SexpView, n: nat) -> Seq<FootprintView>
    decreases n,
{
    if n == 0 {
        Seq::empty()
    } else {
        let rest = facts_among(tree, (n - 1) as nat);
        if tree.items()[n - 1].head() == Some("footprint"@) {
            rest.push(facts_of(tree.items()[n - 1]))
        } else {
            rest
        }
    }
}

fn owned(t: Option<&String>) -> (r: Option<String>)
    ensures
        text_option(r) == match t {
            Some(x) => Some(x@),
            None => None,
        },
{
    match t {
        Some(x) => Some(x.clone()),
        None => None,
    }
}

fn find_property(n: &SexpNode, name: &str) -> (r: Option<String>)
    ensures
        text_option(r) == property_from(n@, name@, 0),
{
    let count: usize = n.item_count();
    let mut i: usize = 0;
    while i < count
        invariant
            count == n@.items().len(),
            i <= count,
            property_from(n@, name@, 0) == property_from(n@, name@, i as int),
        decreases count - i,
    {
        if let Some(p) = n.item(i) {
            if p.is_headed("property") {
                if let Some(t) = p.item_text(1) {
                    if text::same(t.as_str(), name) {
                        return owned(p.item_text(2));
                    }
                }
            }
        }
        i += 1;
    }
    None
}

/// What a file says of the footprints of a board, in their order.
pub fn footprint_facts(tree: &SexpNode) -> (facts: Vec<FootprintFacts>)
    ensures
        models(facts@) == facts_among(tree@, tree@.items().len()),
{
    let mut facts: Vec<FootprintFacts> = Vec::new();
    let count: usize = tree.item_count();
    let mut i: usize = 0;
    proof {
        assert(models(facts@) =~= Seq::empty());
    }
    while i < count
        invariant
            count == tree@.items().len(),
            i <= count,
            models(facts@) == facts_among(tree@, i as nat),
        decreases count - i,
    {
        if let Some(n) = tree.item(i) {
            if n.is_headed("footprint") {
                push_model(
                    &mut facts,
                    FootprintFacts {
                        layer: owned(n.child_text("layer", 1)),
                        reference: find_property(n, "Reference"),
                        x: owned(n.child_text("at", 1)),
                        y: owned(n.child_text("at", 2)),
                    },
                );
            }
        }
        i += 1;
    }
    facts
}

// ─── Laws ─────────────────────────────────────────────────────────────────

proof fn lemma_listed_object(
    tree: SexpView,
    part: bool,
    frame: Option<FrameView>,
    n: nat,
    k: int,
    o: ObjectView,
)
    requires
        0 <= k < n <= tree.items().len(),
        object_of(tree.items()[k], part, frame) == Some(o),
    ensures
        objects_of(tree, part, frame, n).contains(o),
    decreases n,
{
    let rest = objects_of(tree, part, frame, (n - 1) as nat);
    if let Some(x) = object_of(tree.items()[n - 1], part, frame) {
        crate::seqs::lemma_contains_push(rest, x, o);
    }
    if k < n - 1 {
        lemma_listed_object(tree, part, frame, (n - 1) as nat, k, o);
    }
}

proof fn lemma_two_pairs(item: SexpView, a: Seq<char>, b: Seq<char>)
    requires
        item.child(a) matches Some(x) && pair_in(x) is Some,
        item.child(b) matches Some(y) && pair_in(y) is Some,
    ensures
        named_pairs(item, seq![a, b], 2) == Some(
            seq![pair_in(item.child(a)->0)->0, pair_in(item.child(b)->0)->0],
        ),
{
    reveal_with_fuel(named_pairs, 3);
    let (p, q) = (pair_in(item.child(a)->0)->0, pair_in(item.child(b)->0)->0);
    assert(named_pairs(item, seq![a, b], 0) == Some(Seq::<(Seq<char>, Seq<char>)>::empty()));
    assert(Seq::<(Seq<char>, Seq<char>)>::empty().push(p).push(q) =~= seq![p, q]);
}

/// Lines, tracks, rectangles and boxes of a board are objects between their start
/// and their end, with the numerals that the file has for them.
pub proof fn law_lines_are_objects(tree: SexpView, k: int, head: Seq<char>)
    requires
        0 <= k < tree.items().len(),
        head == "gr_line"@ || head == "segment"@ || head == "gr_rect"@ || head == "gr_text_box"@,
        tree.items()[k].head() == Some(head),
        tree.items()[k].child("start"@) matches Some(x) && pair_in(x) is Some,
        tree.items()[k].child("end"@) matches Some(y) && pair_in(y) is Some,
    ensures
        objects_of(tree, false, None, tree.items().len()).contains(
            ObjectView {
                circle: false,
                pairs: seq![
                    pair_in(tree.items()[k].child("start"@)->0)->0,
                    pair_in(tree.items()[k].child("end"@)->0)->0,
                ],
                frame: None,
            },
        ),
{
    lemma_heads();
    let item = tree.items()[k];
    lemma_two_pairs(item, "start"@, "end"@);
    assert(place_names(head, false) =~= seq!["start"@, "end"@]);
    let o = ObjectView {
        circle: false,
        pairs: seq![
            pair_in(item.child("start"@)->0)->0,
            pair_in(item.child("end"@)->0)->0,
        ],
        frame: None,
    };
    assert(object_of(item, false, None) == Some(o));
    lemma_listed_object(tree, false, None, tree.items().len(), k, o);
}

/// Circles of a board are objects of their centre and a point on them, and known
/// to be circles.
pub proof fn law_circles_are_objects(tree: SexpView, k: int)
    requires
        0 <= k < tree.items().len(),
        tree.items()[k].head() == Some("gr_circle"@),
        tree.items()[k].child("center"@) matches Some(x) && pair_in(x) is Some,
        tree.items()[k].child("end"@) matches Some(y) && pair_in(y) is Some,
    ensures
        objects_of(tree, false, None, tree.items().len()).contains(
            ObjectView {
                circle: true,
                pairs: seq![
                    pair_in(tree.items()[k].child("center"@)->0)->0,
                    pair_in(tree.items()[k].child("end"@)->0)->0,
                ],
                frame: None,
            },
        ),
{
    lemma_heads();
    let item = tree.items()[k];
    lemma_two_pairs(item, "center"@, "end"@);
    assert(place_names("gr_circle"@, false) =~= seq!["center"@, "end"@]);
    let o = ObjectView {
        circle: true,
        pairs: seq![
            pair_in(item.child("center"@)->0)->0,
            pair_in(item.child("end"@)->0)->0,
        ],
        frame: None,
    };
    assert(object_of(item, false, None) == Some(o));
    lemma_listed_object(tree, false, None, tree.items().len(), k, o);
}

/// Footprints, vias, texts, images and targets of a board are objects at their
/// place.
pub proof fn law_spots_are_objects(tree: SexpView, k: int, head: Seq<char>)
    requires
        0 <= k < tree.items().len(),
        head == "footprint"@ || head == "via"@ || head == "gr_text"@ || head == "image"@ || head
            == "target"@,
        tree.items()[k].head() == Some(head),
        tree.items()[k].child("at"@) matches Some(x) && pair_in(x) is Some,
    ensures
        objects_of(tree, false, None, tree.items().len()).contains(
            ObjectView {
                circle: false,
                pairs: seq![pair_in(tree.items()[k].child("at"@)->0)->0],
                frame: None,
            },
        ),
{
    lemma_heads();
    let item = tree.items()[k];
    let p = pair_in(item.child("at"@)->0)->0;
    reveal_with_fuel(named_pairs, 2);
    assert(place_names(head, false) =~= seq!["at"@]);
    assert(named_pairs(item, seq!["at"@], 0) == Some(Seq::<(Seq<char>, Seq<char>)>::empty()));
    assert(Seq::<(Seq<char>, Seq<char>)>::empty().push(p) =~= seq![p]);
    let o = ObjectView { circle: false, pairs: seq![p], frame: None };
    assert(object_of(item, false, None) == Some(o));
    lemma_listed_object(tree, false, None, tree.items().len(), k, o);
}

/// The heads of the circles are those of nothing else.
proof fn lemma_heads()
    ensures
        "gr_circle"@ != "footprint"@,
        "gr_circle"@ != "via"@,
        "gr_circle"@ != "gr_text"@,
        "gr_circle"@ != "image"@,
        "gr_circle"@ != "target"@,
        "gr_circle"@ != "gr_line"@,
        "gr_circle"@ != "segment"@,
        "gr_circle"@ != "gr_rect"@,
        "gr_circle"@ != "gr_text_box"@,
        "gr_circle"@ != "gr_arc"@,
        "gr_circle"@ != "arc"@,
        "gr_line"@ != "footprint"@ && "gr_line"@ != "via"@ && "gr_line"@ != "gr_text"@
            && "gr_line"@ != "image"@ && "gr_line"@ != "target"@,
        "segment"@ != "footprint"@ && "segment"@ != "via"@ && "segment"@ != "gr_text"@
            && "segment"@ != "image"@ && "segment"@ != "target"@,
        "gr_rect"@ != "footprint"@ && "gr_rect"@ != "via"@ && "gr_rect"@ != "gr_text"@
            && "gr_rect"@ != "image"@ && "gr_rect"@ != "target"@,
        "gr_text_box"@ != "footprint"@ && "gr_text_box"@ != "via"@ && "gr_text_box"@ != "gr_text"@
            && "gr_text_box"@ != "image"@ && "gr_text_box"@ != "target"@,
{
    reveal_strlit("gr_circle");
    reveal_strlit("footprint");
    reveal_strlit("via");
    reveal_strlit("gr_text");
    reveal_strlit("image");
    reveal_strlit("target");
    reveal_strlit("gr_line");
    reveal_strlit("segment");
    reveal_strlit("gr_rect");
    reveal_strlit("gr_text_box");
    reveal_strlit("gr_arc");
    reveal_strlit("arc");
    assert("gr_circle"@[0] == 'g' && "footprint"@[0] == 'f' && "via"@[0] == 'v' && "image"@[0]
        == 'i' && "target"@[0] == 't' && "segment"@[0] == 's');
    assert("gr_circle"@.len() == 9 && "gr_text"@.len() == 7 && "gr_line"@.len() == 7
        && "gr_rect"@.len() == 7 && "gr_text_box"@.len() == 11 && "gr_arc"@.len() == 6
        && "arc"@.len() == 3);
    assert("gr_text"@[3] == 't' && "gr_line"@[3] == 'l' && "gr_rect"@[3] == 'r');
}

proof fn lemma_listed_part(tree: SexpView, n: nat, k: int, o: ObjectView)
    requires
        0 <= k < n <= tree.items().len(),
        tree.items()[k].head() == Some("footprint"@),
        frame_of(tree.items()[k]) is Some,
        objects_of(
            tree.items()[k],
            true,
            frame_of(tree.items()[k]),
            tree.items()[k].items().len(),
        ).contains(o),
    ensures
        parts_of(tree, n).contains(o),
    decreases n,
{
    let item = tree.items()[n - 1];
    crate::seqs::lemma_contains_add(
        parts_of(tree, (n - 1) as nat),
        objects_of(item, true, frame_of(item), item.items().len()),
        o,
    );
    if k < n - 1 {
        lemma_listed_part(tree, (n - 1) as nat, k, o);
    }
}

/// The pads of a footprint that has a place are objects at their own places,
/// within the frame of the footprint.
pub proof fn law_pads_are_objects(tree: SexpView, k: int, m: int)
    requires
        0 <= k < tree.items().len(),
        tree.items()[k].head() == Some("footprint"@),
        frame_of(tree.items()[k]) is Some,
        0 <= m < tree.items()[k].items().len(),
        tree.items()[k].items()[m].head() == Some("pad"@),
        tree.items()[k].items()[m].child("at"@) matches Some(x) && pair_in(x) is Some,
    ensures
        parts_of(tree, tree.items().len()).contains(
            ObjectView {
                circle: false,
                pairs: seq![pair_in(tree.items()[k].items()[m].child("at"@)->0)->0],
                frame: frame_of(tree.items()[k]),
            },
        ),
{
    reveal_strlit("pad");
    reveal_strlit("fp_circle");
    assert("pad"@.len() != "fp_circle"@.len());
    let fp = tree.items()[k];
    let item = fp.items()[m];
    let p = pair_in(item.child("at"@)->0)->0;
    reveal_with_fuel(named_pairs, 2);
    assert(place_names("pad"@, true) =~= seq!["at"@]);
    assert(named_pairs(item, seq!["at"@], 0) == Some(Seq::<(Seq<char>, Seq<char>)>::empty()));
    assert(Seq::<(Seq<char>, Seq<char>)>::empty().push(p) =~= seq![p]);
    let o = ObjectView { circle: false, pairs: seq![p], frame: frame_of(fp) };
    assert(object_of(item, true, frame_of(fp)) == Some(o));
    lemma_listed_object(fp, true, frame_of(fp), fp.items().len(), m, o);
    lemma_listed_part(tree, tree.items().len(), k, o);
}

/// What a file says of its footprints is listed for every footprint, and for
/// nothing else.
pub proof fn law_every_footprint_has_its_facts(tree: SexpView, n: nat, f: FootprintView)
    requires
        n <= tree.items().len(),
    ensures
        facts_among(tree, n).contains(f) <==> exists|k: int|
            0 <= k < n && (#[trigger] tree.items()[k]).head() == Some("footprint"@) && f.layer
                == tree.items()[k].child_text("layer"@, 1) && f.x == tree.items()[k].child_text(
                "at"@,
                1,
            ) && f.y == tree.items()[k].child_text("at"@, 2) && f.reference == property_from(
                tree.items()[k],
                "Reference"@,
                0,
            ),
        facts_among(tree, n).len() == tree.count_headed("footprint"@, n),
    decreases n,
{
    if n > 0 {
        law_every_footprint_has_its_facts(tree, (n - 1) as nat, f);
        crate::seqs::lemma_contains_push(
            facts_among(tree, (n - 1) as nat),
            facts_of(tree.items()[n - 1]),
            f,
        );
    }
}

/// Whether an item is a property of that name.
pub open spec fn is_property_named(item: SexpView, name: Seq<char>) -> bool {
    item.head() == Some("property"@) && item.item_text(1) == Some(name)
}

proof fn lemma_first_property(n: SexpView, name: Seq<char>, from: int) -> (at: int)
    requires
        0 <= from <= n.items().len(),
    ensures
        from <= at <= n.items().len(),
        forall|j: int| from <= j < at ==> !is_property_named(#[trigger] n.items()[j], name),
        at < n.items().len() ==> is_property_named(n.items()[at], name) && property_from(
            n,
            name,
            from,
        ) == n.items()[at].item_text(2),
        at == n.items().len() ==> property_from(n, name, from) is None,
    decreases n.items().len() - from,
{
    if from >= n.items().len() || is_property_named(n.items()[from], name) {
        from
    } else {
        lemma_first_property(n, name, from + 1)
    }
}

/// A property is the first of its name.
pub proof fn law_property_is_the_first(n: SexpView, name: Seq<char>, i: int)
    requires
        0 <= i < n.items().len(),
        n.items()[i].head() == Some("property"@),
        n.items()[i].item_text(1) == Some(name),
        forall|j: int| 0 <= j < i ==> !is_property_named(#[trigger] n.items()[j], name),
    ensures
        property_from(n, name, 0) == n.items()[i].item_text(2),
{
    let at = lemma_first_property(n, name, 0);
    assert(is_property_named(n.items()[i], name));
}

/// What has no property of that name gives none.
pub proof fn law_missing_properties(n: SexpView, name: Seq<char>)
    requires
        forall|j: int|
            0 <= j < n.items().len() ==> !is_property_named(#[trigger] n.items()[j], name),
    ensures
        property_from(n, name, 0) is None,
{
    let at = lemma_first_property(n, name, 0);
}

// ─── Outlines ─────────────────────────────────────────────────────────────

/// Polygons, curves and dimensions of a board are read by their points.
pub proof fn law_heads_of_outlines(head: Seq<char>, part: bool)
    ensures
        !part && (head == "gr_poly"@ || head == "gr_curve"@ || head == "dimension"@) ==> is_outline(
            head,
            part,
        ),
        part && (head == "fp_poly"@ || head == "fp_curve"@) ==> is_outline(head, part),
        is_outline(head, true) ==> !(head == "gr_poly"@ || head == "gr_curve"@),
        head == "gr_line"@ || head == "segment"@ || head == "via"@ || head == "pad"@
            ==> !is_outline(head, part),
{
    reveal_strlit("gr_poly");
    reveal_strlit("gr_curve");
    reveal_strlit("dimension");
    reveal_strlit("fp_poly");
    reveal_strlit("fp_curve");
    reveal_strlit("gr_line");
    reveal_strlit("segment");
    reveal_strlit("via");
    reveal_strlit("pad");
    assert("gr_poly"@[0] == 'g' && "gr_curve"@[0] == 'g' && "dimension"@[0] == 'd' && "fp_poly"@[0]
        == 'f' && "fp_curve"@[0] == 'f' && "segment"@[0] == 's' && "via"@[0] == 'v' && "pad"@[0]
        == 'p');
    assert("gr_line"@[3] == 'l' && "gr_poly"@[3] == 'p' && "gr_curve"@[3] == 'c');
    assert("gr_line"@[0] == 'g');
}

} // verus!
