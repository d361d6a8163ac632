//! Nets and routes of a board.
use crate::board_edit::{append_item, append_position, inserted};
use crate::geometry::Point;
use crate::sexp::{SexpNode, SexpView};
use crate::text::{self, signed_decimal, signed_value};
use vstd::prelude::*;

verus! {

// ─── Nets ─────────────────────────────────────────────────────────────────

/// The number under which a node of the net table declares a net.
pub open spec fn table_id(n: SexpView) -> Option<int> {
    if n.head() == Some("net"@) && n.items().len() > 1 {
        match n.items()[1] {
            SexpView::Atom(t) => signed_value(t),
            _ => None,
        }
    } else {
        None
    }
}

/// The greatest number among the first `n` nodes.
pub open spec fn greatest_id(tree: SexpView, n: nat) -> Option<int>
    decreases n,
{
    if n == 0 {
        None
    } else {
        let rest = greatest_id(tree, (n - 1) as nat);
        match table_id(tree.items()[n - 1]) {
            None => rest,
            Some(i) => match rest {
                Some(m) if m >= i => Some(m),
                _ => Some(i),
            },
        }
    }
}

/// The number that the next net gets: one past the greatest.
pub open spec fn next_net_id(tree: SexpView) -> int {
    match greatest_id(tree, tree.items().len()) {
        Some(m) => m + 1,
        None => 1,
    }
}

/// What is told where a board has no net table.
pub open spec fn no_net_table(net: Seq<char>) -> Seq<char> {
    "Cannot add net '"@ + net
        + "' to this board: it is in the KiCad 10 format, which has no top-level net table. A net exists only by being named on an item — (net \""@
        + net
        + "\") on a pad, segment, via or zone — so there is nothing for a file-level insert to add, and appending a net node would report success while KiCad discarded it on load. Create the net by naming it on copper instead: route_trace / add_via / add_copper_pour take a net_name, as does assigning a pad in KiCad. get_nets_list reads the live net list over IPC."@
}

/// A board with one more net, or why it cannot have it.
pub open spec fn with_net(
    content: Seq<char>,
    tree: SexpView,
    names_in_place: bool,
    net: Seq<char>,
) -> Result<(int, Seq<char>), Seq<char>> {
    if names_in_place {
        Err(no_net_table(net))
    } else {
        let id = next_net_id(tree);
        Ok(
            (
                id,
                inserted(
                    content,
                    append_position(content),
                    "\n  (net "@ + signed_decimal(id) + " \""@ + net + "\")"@,
                ),
            ),
        )
    }
}

/// A net that was added: its number, and the text of the board with it.
pub struct AddedNet {
    pub id: i32,
    pub content: String,
}

fn id_in_table(n: &SexpNode) -> (r: Option<i32>)
    ensures
        match r {
            Some(i) => table_id(n@) == Some(i as int),
            None => table_id(n@) is None,
        },
{
    if !n.is_headed("net") {
        return None;
    }
    match n.item(1) {
        Some(SexpNode::Atom(t)) => text::parse_signed(t.as_str()),
        _ => None,
    }
}

/// The greatest number under which the net table declares a net.
pub fn greatest_net_id(tree: &SexpNode) -> (r: Option<i32>)
    ensures
        match r {
            Some(g) => greatest_id(tree@, tree@.items().len()) == Some(g as int),
            None => greatest_id(tree@, tree@.items().len()) is None,
        },
{
    let n: usize = tree.item_count();
    let mut greatest: Option<i32> = None;
    let mut i: usize = 0;
    while i < n
        invariant
            n == tree@.items().len(),
            i <= n,
            match greatest {
                Some(g) => greatest_id(tree@, i as nat) == Some(g as int),
                None => greatest_id(tree@, i as nat) is None,
            },
        decreases n - i,
    {
        if let Some(c) = tree.item(i) {
            if let Some(id) = id_in_table(c) {
                match greatest {
                    Some(g) => {
                        if g < id {
                            greatest = Some(id);
                        }
                    },
                    None => {
                        greatest = Some(id);
                    },
                }
            }
        }
        i += 1;
    }
    greatest
}

/// Adds a net to the net table of a board. `names_in_place` says whether the
/// board names its nets on its items and so has no table.
pub fn add_net(content: &str, tree: &SexpNode, names_in_place: bool, net_name: &str) -> (r: Result<
    AddedNet,
    String,
>)
    requires
        next_net_id(tree@) <= i32::MAX,
    ensures
        match r {
            Ok(a) => with_net(content@, tree@, names_in_place, net_name@) == Ok::<
                (int, Seq<char>),
                Seq<char>,
            >((a.id as int, a.content@)),
            Err(e) => with_net(content@, tree@, names_in_place, net_name@) == Err::<
                (int, Seq<char>),
                Seq<char>,
            >(e@),
        },
{
    if names_in_place {
        return Err(
            text::cat5(
                "Cannot add net '",
                net_name,
                "' to this board: it is in the KiCad 10 format, which has no top-level net table. A net exists only by being named on an item — (net \"",
                net_name,
                "\") on a pad, segment, via or zone — so there is nothing for a file-level insert to add, and appending a net node would report success while KiCad discarded it on load. Create the net by naming it on copper instead: route_trace / add_via / add_copper_pour take a net_name, as does assigning a pad in KiCad. get_nets_list reads the live net list over IPC.",
            ),
        );
    }
    let greatest = greatest_net_id(tree);
    let id: i32 = match greatest {
        Some(g) => g + 1,
        None => 1,
    };
    let number = text::signed_text(id);
    let item = text::cat5("\n  (net ", number.as_str(), " \"", net_name, "\")");
    Ok(AddedNet { id, content: append_item(content, item.as_str()) })
}

/// The number of a new net is not that of a net which the table declares.
pub proof fn law_new_net_id_is_fresh(tree: SexpView, k: int)
    requires
        0 <= k < tree.items().len(),
        table_id(tree.items()[k]) is Some,
    ensures
        table_id(tree.items()[k])->0 < next_net_id(tree),
{
    lemma_greatest(tree, tree.items().len(), k);
}

proof fn lemma_greatest(tree: SexpView, n: nat, k: int)
    requires
        0 <= k < n <= tree.items().len(),
        table_id(tree.items()[k]) is Some,
    ensures
        greatest_id(tree, n) is Some,
        table_id(tree.items()[k])->0 <= greatest_id(tree, n)->0,
    decreases n,
{
    if k < n - 1 {
        lemma_greatest(tree, (n - 1) as nat, k);
    }
}

// ─── Pads ─────────────────────────────────────────────────────────────────

/// Where a pad stands: the numerals of its footprint's place and rotation, and
/// of its own place within it. A numeral that the board leaves out is `None`.
pub struct PadPlace {
    pub footprint_x: Option<String>,
    pub footprint_y: Option<String>,
    pub rotation: Option<String>,
    pub local_x: Option<String>,
    pub local_y: Option<String>,
}

/// The model of where a pad stands.
pub ghost struct PadPlaceView {
    pub footprint_x: Option<Seq<char>>,
    pub footprint_y: Option<Seq<char>>,
    pub rotation: Option<Seq<char>>,
    pub local_x: Option<Seq<char>>,
    pub local_y: Option<Seq<char>>,
}

impl View for PadPlace {
    type V = PadPlaceView;

    open spec fn view(&self) -> PadPlaceView {
        PadPlaceView {
            footprint_x: crate::schematic::text_option(self.footprint_x),
            footprint_y: crate::schematic::text_option(self.footprint_y),
            rotation: crate::schematic::text_option(self.rotation),
            local_x: crate::schematic::text_option(self.local_x),
            local_y: crate::schematic::text_option(self.local_y),
        }
    }
}

/// Whether the node is the property that gives the reference.
pub open spec fn gives_reference(n: SexpView, reference: Seq<char>) -> bool {
    n.head() == Some("property"@) && n.item_text(1) == Some("Reference"@) && n.item_text(2)
        == Some(reference)
}

/// Whether the node is the footprint of that reference.
pub open spec fn is_footprint_of(n: SexpView, reference: Seq<char>) -> bool {
    n.head() == Some("footprint"@) && exists|i: int|
        0 <= i < n.items().len() && gives_reference(#[trigger] n.items()[i], reference)
}

/// Whether the node is the pad of that number.
pub open spec fn is_pad_of(n: SexpView, number: Seq<char>) -> bool {
    n.head() == Some("pad"@) && n.item_text(1) == Some(number)
}

/// Position of the first footprint of that reference at `from` or later.
pub open spec fn footprint_at(tree: SexpView, reference: Seq<char>, from: int) -> Option<int>
    decreases tree.items().len() - from,
{
    if from < 0 || from >= tree.items().len() {
        None
    } else if is_footprint_of(tree.items()[from], reference) {
        Some(from)
    } else {
        footprint_at(tree, reference, from + 1)
    }
}

/// Position of the first pad of that number at `from` or later.
pub open spec fn pad_at(footprint: SexpView, number: Seq<char>, from: int) -> Option<int>
    decreases footprint.items().len() - from,
{
    if from < 0 || from >= footprint.items().len() {
        None
    } else if is_pad_of(footprint.items()[from], number) {
        Some(from)
    } else {
        pad_at(footprint, number, from + 1)
    }
}

/// Where the pad of that number stands on the footprint of that reference, or
/// what is not there.
pub open spec fn pad_place(tree: SexpView, reference: Seq<char>, number: Seq<char>) -> Result<
    PadPlaceView,
    Seq<char>,
> {
    match footprint_at(tree, reference, 0) {
        None => Err("Footprint '"@ + reference + "' not found on board"@),
        Some(f) => {
            let fp = tree.items()[f];
            match pad_at(fp, number, 0) {
                None => Err("Pad '"@ + number + "' not found on '"@ + reference + "'"@),
                Some(p) => {
                    let pad = fp.items()[p];
                    match pad.child("at"@) {
                        None => Err("Pad has no (at) node"@),
                        Some(at) => Ok(
                            PadPlaceView {
                                footprint_x: fp.child_text("at"@, 1),
                                footprint_y: fp.child_text("at"@, 2),
                                rotation: fp.child_text("at"@, 3),
                                local_x: at.item_text(1),
                                local_y: at.item_text(2),
                            },
                        ),
                    }
                },
            }
        },
    }
}

fn text_is(t: Option<&String>, s: &str) -> (r: bool)
    ensures
        r == (t matches Some(x) && x@ == s@),
{
    match t {
        Some(x) => text::same(x.as_str(), s),
        None => false,
    }
}

fn owned_option(t: Option<&String>) -> (r: Option<String>)
    ensures
        match t {
            Some(x) => crate::schematic::text_option(r) == Some(x@),
            None => crate::schematic::text_option(r) is None,
        },
{
    match t {
        Some(x) => Some(x.clone()),
        None => None,
    }
}

fn has_reference(n: &SexpNode, reference: &str) -> (r: bool)
    ensures
        r == is_footprint_of(n@, reference@),
{
    if !n.is_headed("footprint") {
        return false;
    }
    let count: usize = n.item_count();
    let mut i: usize = 0;
    while i < count
        invariant
            count == n@.items().len(),
            i <= count,
            n@.head() == Some("footprint"@),
            forall|k: int|
                0 <= k < i ==> !gives_reference(#[trigger] n@.items()[k], reference@),
        decreases count - i,
    {
        if let Some(p) = n.item(i) {
            if p.is_headed("property") && text_is(p.item_text(1), "Reference") && text_is(
                p.item_text(2),
                reference,
            ) {
                proof {
                    assert(gives_reference(n@.items()[i as int], reference@));
                }
                return true;
            }
        }
        i += 1;
    }
    false
}

fn find_footprint<'a>(tree: &'a SexpNode, reference: &str) -> (r: Option<&'a SexpNode>)
    ensures
        match r {
            Some(f) => footprint_at(tree@, reference@, 0) matches Some(i) && tree@.items()[i]
                == f@,
            None => footprint_at(tree@, reference@, 0) is None,
        },
{
    let count: usize = tree.item_count();
    let mut i: usize = 0;
    while i < count
        invariant
            count == tree@.items().len(),
            i <= count,
            footprint_at(tree@, reference@, 0) == footprint_at(tree@, reference@, i as int),
        decreases count - i,
    {
        if let Some(f) = tree.item(i) {
            if has_reference(f, reference) {
                return Some(f);
            }
        }
        i += 1;
    }
    None
}

fn find_pad<'a>(footprint: &'a SexpNode, number: &str) -> (r: Option<&'a SexpNode>)
    ensures
        match r {
            Some(p) => pad_at(footprint@, number@, 0) matches Some(i) && footprint@.items()[i]
                == p@,
            None => pad_at(footprint@, number@, 0) is None,
        },
{
    let count: usize = footprint.item_count();
    let mut i: usize = 0;
    while i < count
        invariant
            count == footprint@.items().len(),
            i <= count,
            pad_at(footprint@, number@, 0) == pad_at(footprint@, number@, i as int),
        decreases count - i,
    {
        if let Some(p) = footprint.item(i) {
            if p.is_headed("pad") && text_is(p.item_text(1), number) {
                return Some(p);
            }
        }
        i += 1;
    }
    None
}

/// Where the pad of that number stands on the footprint of that reference.
pub fn find_pad_place(tree: &SexpNode, reference: &str, pad_number: &str) -> (r: Result<
    PadPlace,
    String,
>)
    ensures
        match r {
            Ok(p) => pad_place(tree@, reference@, pad_number@) == Ok::<PadPlaceView, Seq<char>>(
                p@,
            ),
            Err(e) => pad_place(tree@, reference@, pad_number@) == Err::<PadPlaceView, Seq<char>>(
                e@,
            ),
        },
{
    let fp = match find_footprint(tree, reference) {
        Some(f) => f,
        None => return Err(text::cat3("Footprint '", reference, "' not found on board")),
    };
    let pad = match find_pad(fp, pad_number) {
        Some(p) => p,
        None => {
            return Err(text::cat5("Pad '", pad_number, "' not found on '", reference, "'"));
        },
    };
    let at = match pad.child("at") {
        Some(a) => a,
        None => return Err("Pad has no (at) node".to_owned()),
    };
    Ok(
        PadPlace {
            footprint_x: owned_option(fp.child_text("at", 1)),
            footprint_y: owned_option(fp.child_text("at", 2)),
            rotation: owned_option(fp.child_text("at", 3)),
            local_x: owned_option(at.item_text(1)),
            local_y: owned_option(at.item_text(2)),
        },
    )
}

// ─── Routes ───────────────────────────────────────────────────────────────

/// Two points closer than this along an axis are in line, in nanometres.
pub const IN_LINE_NM: i64 = 10_000;

/// A straight piece of a track.
#[derive(Clone, Copy, PartialEq, Eq, Structural, Debug)]
pub struct TrackPiece {
    pub start: Point,
    pub end: Point,
}

/// Whether two coordinates are in line.
pub open spec fn in_line(a: int, b: int) -> bool {
    -IN_LINE_NM < a - b < IN_LINE_NM
}

/// The track between two pads: straight where they are in line, and else first
/// along and then across.
pub open spec fn track_between(a: Point, b: Point) -> Seq<TrackPiece> {
    if in_line(a.x as int, b.x as int) || in_line(a.y as int, b.y as int) {
        seq![TrackPiece { start: a, end: b }]
    } else {
        let bend = Point { x: b.x, y: a.y };
        seq![TrackPiece { start: a, end: bend }, TrackPiece { start: bend, end: b }]
    }
}

fn close_along(a: i64, b: i64) -> (r: bool)
    ensures
        r == in_line(a as int, b as int),
{
    let d: i128 = a as i128 - b as i128;
    -(IN_LINE_NM as i128) < d && d < IN_LINE_NM as i128
}

/// The track between two pads.
pub fn route_between(a: Point, b: Point) -> (r: Vec<TrackPiece>)
    ensures
        r@ == track_between(a, b),
{
    let mut r: Vec<TrackPiece> = Vec::new();
    if close_along(a.x, b.x) || close_along(a.y, b.y) {
        r.push(TrackPiece { start: a, end: b });
    } else {
        let bend = Point { x: b.x, y: a.y };
        r.push(TrackPiece { start: a, end: bend });
        r.push(TrackPiece { start: bend, end: b });
    }
    proof {
        assert(r@ =~= track_between(a, b));
    }
    r
}

/// A track begins at the one pad and ends at the other without a gap, and one
/// of more than a single piece has only pieces along an axis.
pub proof fn law_track_joins_the_pads(a: Point, b: Point)
    ensures
        track_between(a, b).len() >= 1,
        track_between(a, b)[0].start == a,
        track_between(a, b).last().end == b,
        forall|i: int|
            0 <= i < track_between(a, b).len() - 1 ==> (#[trigger] track_between(a, b)[i]).end
                == track_between(a, b)[i + 1].start,
        track_between(a, b).len() > 1 ==> forall|i: int|
            0 <= i < track_between(a, b).len() ==> (#[trigger] track_between(a, b)[i]).start.x
                == track_between(a, b)[i].end.x || track_between(a, b)[i].start.y
                == track_between(a, b)[i].end.y,
{
}

// ─── Laws on nets and pads ────────────────────────────────────────────────

proof fn lemma_greatest_is_one(tree: SexpView, n: nat)
    requires
        n <= tree.items().len(),
    ensures
        match greatest_id(tree, n) {
            Some(g) => exists|k: int|
                0 <= k < n && table_id(#[trigger] tree.items()[k]) == Some(g),
            None => forall|k: int| 0 <= k < n ==> table_id(#[trigger] tree.items()[k]) is None,
        },
    decreases n,
{
    if n > 0 {
        lemma_greatest_is_one(tree, (n - 1) as nat);
        let rest = greatest_id(tree, (n - 1) as nat);
        if greatest_id(tree, n) == rest && rest is Some {
            let k = choose|k: int|
                0 <= k < n - 1 && table_id(#[trigger] tree.items()[k]) == Some(rest->0);
            assert(table_id(tree.items()[k]) == greatest_id(tree, n));
        }
    }
}

/// A new net gets the number behind the greatest that the table has, and the
/// number one where the table has none.
pub proof fn law_new_nets_follow_the_greatest(tree: SexpView)
    ensures
        (forall|k: int| 0 <= k < tree.items().len() ==> table_id(#[trigger] tree.items()[k]) is None)
            ==> next_net_id(tree) == 1,
        (exists|k: int| 0 <= k < tree.items().len() && table_id(#[trigger] tree.items()[k]) is Some)
            ==> exists|k: int|
            0 <= k < tree.items().len() && table_id(#[trigger] tree.items()[k]) == Some(
                next_net_id(tree) - 1,
            ),
{
    lemma_greatest_is_one(tree, tree.items().len());
}

proof fn lemma_first_footprint(tree: SexpView, reference: Seq<char>, from: int)
    requires
        0 <= from,
    ensures
        match footprint_at(tree, reference, from) {
            Some(i) => from <= i < tree.items().len() && is_footprint_of(
                tree.items()[i],
                reference,
            ),
            None => forall|i: int|
                from <= i < tree.items().len() ==> !is_footprint_of(
                    #[trigger] tree.items()[i],
                    reference,
                ),
        },
    decreases tree.items().len() - from,
{
    if from < tree.items().len() && !is_footprint_of(tree.items()[from], reference) {
        lemma_first_footprint(tree, reference, from + 1);
    }
}

proof fn lemma_first_pad(footprint: SexpView, number: Seq<char>, from: int)
    requires
        0 <= from,
    ensures
        match pad_at(footprint, number, from) {
            Some(i) => from <= i < footprint.items().len() && is_pad_of(
                footprint.items()[i],
                number,
            ),
            None => forall|i: int|
                from <= i < footprint.items().len() ==> !is_pad_of(
                    #[trigger] footprint.items()[i],
                    number,
                ),
        },
    decreases footprint.items().len() - from,
{
    if from < footprint.items().len() && !is_pad_of(footprint.items()[from], number) {
        lemma_first_pad(footprint, number, from + 1);
    }
}

/// A pad is placed by a footprint of that reference and a pad of that number on
/// it; where the board has no such footprint, there is no place.
pub proof fn law_pads_are_placed_by_their_footprint(
    tree: SexpView,
    reference: Seq<char>,
    number: Seq<char>,
)
    ensures
        pad_place(tree, reference, number) matches Ok(p) ==> exists|f: int, k: int|
            #![trigger tree.items()[f].items()[k]]
            0 <= f < tree.items().len() && is_footprint_of(tree.items()[f], reference) && 0 <= k
                < tree.items()[f].items().len() && is_pad_of(tree.items()[f].items()[k], number)
                && p.footprint_x == tree.items()[f].child_text("at"@, 1) && p.footprint_y
                == tree.items()[f].child_text("at"@, 2) && p.rotation
                == tree.items()[f].child_text("at"@, 3) && p.local_x
                == tree.items()[f].items()[k].child_text("at"@, 1) && p.local_y
                == tree.items()[f].items()[k].child_text("at"@, 2),
        (forall|f: int|
            0 <= f < tree.items().len() ==> !is_footprint_of(#[trigger] tree.items()[f], reference))
            ==> pad_place(tree, reference, number) is Err,
{
    lemma_first_footprint(tree, reference, 0);
    if let Some(f) = footprint_at(tree, reference, 0) {
        lemma_first_pad(tree.items()[f], number, 0);
        if let Some(k) = pad_at(tree.items()[f], number, 0) {
            assert(is_pad_of(tree.items()[f].items()[k], number));
        }
    }
}

/// Pads less than ten micrometres out of line along either axis are joined by one
/// straight piece, and others by two.
pub proof fn law_pads_in_line_are_joined_straight(a: Point, b: Point)
    ensures
        track_between(a, b).len() == 1 <==> (-10_000 < a.x - b.x < 10_000 || -10_000 < a.y - b.y
            < 10_000),
        track_between(a, b).len() <= 2,
{
}

/// A footprint is known by its property that gives the reference.
pub proof fn law_footprints_are_known_by_reference(n: SexpView, reference: Seq<char>)
    ensures
        is_footprint_of(n, reference) <==> n.head() == Some("footprint"@) && exists|i: int|
            0 <= i < n.items().len() && (#[trigger] n.items()[i]).head() == Some("property"@)
                && n.items()[i].item_text(1) == Some("Reference"@) && n.items()[i].item_text(2)
                == Some(reference),
{
    if exists|i: int|
        0 <= i < n.items().len() && (#[trigger] n.items()[i]).head() == Some("property"@)
            && n.items()[i].item_text(1) == Some("Reference"@) && n.items()[i].item_text(2) == Some(
            reference,
        ) {
        let i = choose|i: int|
            0 <= i < n.items().len() && (#[trigger] n.items()[i]).head() == Some("property"@)
                && n.items()[i].item_text(1) == Some("Reference"@) && n.items()[i].item_text(2)
                == Some(reference);
        assert(gives_reference(n.items()[i], reference));
    }
}

/// A net is added to a board exactly if the board has a net table; it is appended
/// under its number and name, and the rest of the board stays as it is.
pub proof fn law_nets_are_added_to_tables(
    content: Seq<char>,
    tree: SexpView,
    names_in_place: bool,
    net: Seq<char>,
)
    ensures
        with_net(content, tree, names_in_place, net) is Ok <==> !names_in_place,
        with_net(content, tree, names_in_place, net) matches Ok(p) ==> p.0 == next_net_id(tree)
            && p.1 == content.take(append_position(content)) + ("\n  (net "@ + signed_decimal(p.0)
            + " \""@ + net + "\")"@) + content.skip(append_position(content)),
{
}

/// A pad that is found is the first pad of that number on the first footprint of
/// that reference, and its place is that of the file.
pub proof fn law_pads_are_found_by_number(
    tree: SexpView,
    reference: Seq<char>,
    number: Seq<char>,
    f: int,
    p: int,
)
    requires
        0 <= f < tree.items().len(),
        is_footprint_of(tree.items()[f], reference),
        forall|j: int| 0 <= j < f ==> !is_footprint_of(#[trigger] tree.items()[j], reference),
        0 <= p < tree.items()[f].items().len(),
        tree.items()[f].items()[p].head() == Some("pad"@),
        tree.items()[f].items()[p].item_text(1) == Some(number),
        forall|j: int|
            0 <= j < p ==> !((#[trigger] tree.items()[f].items()[j]).head() == Some("pad"@)
                && tree.items()[f].items()[j].item_text(1) == Some(number)),
        tree.items()[f].items()[p].child("at"@) is Some,
    ensures
        pad_place(tree, reference, number) matches Ok(place) && {
            &&& place.local_x == tree.items()[f].items()[p].child("at"@)->0.item_text(1)
            &&& place.local_y == tree.items()[f].items()[p].child("at"@)->0.item_text(2)
            &&& place.footprint_x == tree.items()[f].child_text("at"@, 1)
            &&& place.footprint_y == tree.items()[f].child_text("at"@, 2)
            &&& place.rotation == tree.items()[f].child_text("at"@, 3)
        },
{
    lemma_footprint_is_at(tree, reference, 0, f);
    let fp = tree.items()[f];
    assert forall|j: int| 0 <= j < p implies !is_pad_of(#[trigger] fp.items()[j], number) by {}
    lemma_pad_is_at(fp, number, 0, p);
}

proof fn lemma_footprint_is_at(tree: SexpView, reference: Seq<char>, from: int, f: int)
    requires
        0 <= from <= f < tree.items().len(),
        is_footprint_of(tree.items()[f], reference),
        forall|j: int| from <= j < f ==> !is_footprint_of(#[trigger] tree.items()[j], reference),
    ensures
        footprint_at(tree, reference, from) == Some(f),
    decreases f - from,
{
    if from < f {
        lemma_footprint_is_at(tree, reference, from + 1, f);
    }
}

proof fn lemma_pad_is_at(fp: SexpView, number: Seq<char>, from: int, p: int)
    requires
        0 <= from <= p < fp.items().len(),
        is_pad_of(fp.items()[p], number),
        forall|j: int| from <= j < p ==> !is_pad_of(#[trigger] fp.items()[j], number),
    ensures
        pad_at(fp, number, from) == Some(p),
    decreases p - from,
{
    if from < p {
        lemma_pad_is_at(fp, number, from + 1, p);
    }
}

} // verus!
