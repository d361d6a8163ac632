//! What a board costs to manufacture, roughly, and how large it is.
use crate::blocks::{block_close, close_in, lemma_open_block_is_not_stray, Closing};
use crate::geometry::Point;
use crate::manufacturing::{copper_layers, count_copper_layers};
use crate::seqs::{models, push_model};
use crate::text::{self, contains_text, find_text};
use vstd::prelude::*;

verus! {

// ─── Prices ───────────────────────────────────────────────────────────────

/// The parts of a price, in thousandths of a dollar.
#[derive(Clone, Copy, PartialEq, Eq, Structural, Debug)]
pub struct Estimate {
    pub pcb: u128,
    pub assembly: u128,
    pub components: u128,
}

/// The price of the first five boards and of each further one.
pub open spec fn board_price(fab: Seq<char>, layers: nat) -> (nat, nat) {
    if fab == "jlcpcb"@ {
        if layers == 2 {
            (2000, 400)
        } else if layers == 4 {
            (7000, 1400)
        } else if layers == 6 {
            (15000, 3000)
        } else {
            (30000, 5000)
        }
    } else {
        if layers == 2 {
            (5000, 500)
        } else if layers == 4 {
            (12000, 2000)
        } else {
            (25000, 4000)
        }
    }
}

/// Boards beyond the first five.
pub open spec fn further_boards(quantity: nat) -> nat {
    if quantity > 5 {
        (quantity - 5) as nat
    } else {
        0
    }
}

/// What the boards cost at that fab house: one whose prices are not known
/// makes no assembly.
pub open spec fn is_estimate(
    e: Estimate,
    fab: Seq<char>,
    layers: nat,
    quantity: nat,
    components: nat,
) -> bool {
    if fab == "jlcpcb"@ {
        &&& e.pcb == board_price(fab, layers).0 + further_boards(quantity) * board_price(
            fab,
            layers,
        ).1
        &&& e.assembly == (if components > 0 {
            8000nat
        } else {
            0
        }) + components * quantity * 3
        &&& e.components == components * quantity * 50
    } else if fab == "pcbway"@ {
        &&& e.pcb == board_price(fab, layers).0 + further_boards(quantity) * board_price(
            fab,
            layers,
        ).1
        &&& e.assembly == components * quantity * 5
        &&& e.components == components * quantity * 80
    } else {
        &&& e.pcb == 10000 + quantity * 2000
        &&& e.assembly == 0
        &&& e.components == 0
    }
}

fn board_price_of(jlcpcb: bool, layers: u128) -> (r: (u64, u64))
    ensures
        r.0 <= 30000 && r.1 <= 5000,
        forall|fab: Seq<char>|
            (fab == "jlcpcb"@) == jlcpcb ==> #[trigger] board_price(fab, layers as nat) == (
                r.0 as nat,
                r.1 as nat,
            ),
{
    if jlcpcb {
        match layers {
            2 => (2000, 400),
            4 => (7000, 1400),
            6 => (15000, 3000),
            _ => (30000, 5000),
        }
    } else {
        match layers {
            2 => (5000, 500),
            4 => (12000, 2000),
            _ => (25000, 4000),
        }
    }
}

/// What the boards cost at that fab house.
pub fn estimate_cost(fab_house: &str, layers: u128, quantity: u64, components: u32) -> (e: Estimate)
    ensures
        is_estimate(e, fab_house@, layers as nat, quantity as nat, components as nat),
{
    let jlcpcb = text::same(fab_house, "jlcpcb");
    if !jlcpcb && !text::same(fab_house, "pcbway") {
        return Estimate { pcb: 10000 + quantity as u128 * 2000, assembly: 0, components: 0 };
    }
    let more: u64 = if quantity > 5 { quantity - 5 } else { 0 };
    let (base, each) = board_price_of(jlcpcb, layers);
    proof {
        assert(more * each <= 0xffff_ffff_ffff_ffff * 5000) by (nonlinear_arith)
            requires
                0 <= more <= 0xffff_ffff_ffff_ffff,
                0 <= each <= 5000,
        ;
        assert(components * quantity <= 0xffff_ffff * 0xffff_ffff_ffff_ffff) by (nonlinear_arith)
            requires
                0 <= components <= 0xffff_ffff,
                0 <= quantity <= 0xffff_ffff_ffff_ffff,
        ;
    }
    let pcb: u128 = base as u128 + more as u128 * each as u128;
    let placed: u128 = components as u128 * quantity as u128;
    if jlcpcb {
        let setup: u128 = if components > 0 { 8000 } else { 0 };
        Estimate { pcb, assembly: setup + placed * 3, components: placed * 50 }
    } else {
        Estimate { pcb, assembly: placed * 5, components: placed * 80 }
    }
}

/// The copper layers that a price goes by: those asked for, or those that the
/// board declares, and then at least two.
pub fn priced_layers(asked: Option<u64>, content: &str) -> (n: u128)
    ensures
        n == match asked {
            Some(l) => l as nat,
            None => if copper_layers(content@) < 2 {
                2
            } else {
                copper_layers(content@)
            },
        },
{
    match asked {
        Some(l) => l as u128,
        None => {
            let n: u128 = count_copper_layers(content);
            if n < 2 {
                2
            } else {
                n
            }
        },
    }
}

// ─── Outline ──────────────────────────────────────────────────────────────

/// Where the text of a graphic line that begins at `i` ends: where its block
/// closes, or with the board where it does not.
pub open spec fn line_end(content: Seq<char>, i: int) -> int {
    match block_close(content, i) {
        Closing::At(c) => c,
        _ => content.len() as int,
    }
}

/// The end of the word at `i`: the next space or closing parenthesis.
pub open spec fn word_end(s: Seq<char>, i: int) -> int
    decreases s.len() - i,
{
    if i < 0 || i >= s.len() || s[i] == ' ' || s[i] == ')' {
        i
    } else {
        word_end(s, i + 1)
    }
}

/// The two words behind `(keyword `, if both are there.
pub open spec fn word_pair(block: Seq<char>, opening: Seq<char>) -> Option<
    (Seq<char>, Seq<char>),
> {
    match find_text(block, opening, 0) {
        None => None,
        Some(i) => {
            let p = i + opening.len();
            let a = word_end(block, p);
            if a >= block.len() {
                None
            } else {
                Some((block.subrange(p, a), block.subrange(a + 1, word_end(block, a + 1))))
            }
        },
    }
}

/// The ends of a line of the outline, as the board writes their coordinates.
pub struct OutlineLine {
    pub start: Option<(String, String)>,
    pub end: Option<(String, String)>,
}

/// The model of a line of the outline.
pub ghost struct OutlineLineView {
    pub start: Option<(Seq<char>, Seq<char>)>,
    pub end: Option<(Seq<char>, Seq<char>)>,
}

/// The model of a pair of words.
pub open spec fn words(p: Option<(String, String)>) -> Option<(Seq<char>, Seq<char>)> {
    match p {
        None => None,
        Some(w) => Some((w.0@, w.1@)),
    }
}

impl View for OutlineLine {
    type V = OutlineLineView;

    open spec fn view(&self) -> OutlineLineView {
        OutlineLineView { start: words(self.start), end: words(self.end) }
    }
}

/// The lines on the Edge.Cuts layer that begin at `from` or later.
pub open spec fn outline_from(content: Seq<char>, from: int) -> Seq<OutlineLineView>
    decreases content.len() - from,
{
    match find_text(content, "(gr_line"@, from) {
        None => Seq::empty(),
        Some(i) => if i < from || i >= content.len() {
            Seq::empty()
        } else {
            let block = content.subrange(i, line_end(content, i));
            let rest = outline_from(content, i + 1);
            if contains_text(block, "Edge.Cuts"@) {
                seq![
                    OutlineLineView {
                        start: word_pair(block, "(start "@),
                        end: word_pair(block, "(end "@),
                    },
                ] + rest
            } else {
                rest
            }
        },
    }
}

fn end_of_word(chars: &Vec<char>, from: usize) -> (r: usize)
    requires
        from <= chars@.len(),
    ensures
        r == word_end(chars@, from as int),
        from <= r <= chars@.len(),
{
    let mut i: usize = from;
    while i < chars.len() && chars[i] != ' ' && chars[i] != ')'
        invariant
            from <= i <= chars@.len(),
            word_end(chars@, from as int) == word_end(chars@, i as int),
        decreases chars@.len() - i,
    {
        i += 1;
    }
    i
}

fn pair_after(block: &Vec<char>, opening: &str) -> (r: Option<(String, String)>)
    ensures
        words(r) == word_pair(block@, opening@),
{
    let pat = text::chars_of(opening);
    let len: usize = block.len();
    proof {
        text::lemma_find_text(block@, pat@, 0);
        assert(len == block@.len());
    }
    match text::find_from(block, &pat, 0) {
        None => None,
        Some(i) => {
            let p: usize = i + pat.len();
            let a: usize = end_of_word(block, p);
            if a >= len {
                return None;
            }
            let b: usize = end_of_word(block, a + 1);
            let x = text::slice_text(block, p, a);
            let y = text::slice_text(block, a + 1, b);
            Some((x, y))
        },
    }
}

/// The lines of the board's outline.
pub fn outline_lines(content: &str) -> (lines: Vec<OutlineLine>)
    ensures
        models(lines@) == outline_from(content@, 0),
{
    let chars = text::chars_of(content);
    let opening = text::chars_of("(gr_line");
    let mut lines: Vec<OutlineLine> = Vec::new();
    let mut pos: usize = 0;
    let mut more = true;
    let len: usize = chars.len();
    proof {
        reveal_strlit("(gr_line");
        assert(models(lines@) =~= Seq::empty());
        assert(Seq::<OutlineLineView>::empty() + outline_from(content@, 0) =~= outline_from(
            content@,
            0,
        ));
    }
    while more
        invariant
            chars@ == content@,
            opening@ == "(gr_line"@,
            opening@.len() == 8,
            opening@[0] == '(',
            len == chars@.len(),
            pos <= len,
            more ==> models(lines@) + outline_from(content@, pos as int) == outline_from(
                content@,
                0,
            ),
            !more ==> models(lines@) == outline_from(content@, 0),
        decreases len - pos, (if more { 1int } else { 0 }),
    {
        let ghost had = models(lines@);
        proof {
            text::lemma_find_text(content@, opening@, pos as int);
        }
        match text::find_from(&chars, &opening, pos) {
            None => {
                more = false;
                proof {
                    assert(had + Seq::<OutlineLineView>::empty() =~= had);
                }
            },
            Some(i) => {
                proof {
                    assert(content@.subrange(i as int, i + 8)[0] == opening@[0]);
                    lemma_open_block_is_not_stray(content@, i as int);
                }
                let end: usize = match close_in(&chars, i) {
                    Some(c) => c,
                    None => len,
                };
                let block_text = text::slice_text(&chars, i, end);
                let block = text::chars_of(block_text.as_str());
                if text::contains(block_text.as_str(), "Edge.Cuts") {
                    let start = pair_after(&block, "(start ");
                    let stop = pair_after(&block, "(end ");
                    push_model(&mut lines, OutlineLine { start, end: stop });
                    proof {
                        assert(models(lines@) + outline_from(content@, i + 1) =~= had
                            + outline_from(content@, pos as int));
                    }
                }
                pos = i + 1;
            },
        }
    }
    lines
}

/// The ends of a line of the outline that are numbers, in nanometres.
#[derive(Clone, Copy)]
pub struct OutlineSpan {
    pub start: Option<Point>,
    pub end: Option<Point>,
}

/// Whether the extent reaches from `low` to `high` along one axis: both are
/// coordinates of an end, and every end is between them.
pub open spec fn spans(ends: Seq<int>, low: int, high: int) -> bool {
    &&& ends.contains(low)
    &&& ends.contains(high)
    &&& forall|i: int| 0 <= i < ends.len() ==> low <= #[trigger] ends[i] <= high
}

/// The ends of the first `n` lines, along the horizontal or the vertical axis.
pub open spec fn ends_along(lines: Seq<OutlineSpan>, n: nat, horizontal: bool) -> Seq<int>
    decreases n,
{
    if n == 0 {
        Seq::empty()
    } else {
        let l = lines[n - 1];
        ends_along(lines, (n - 1) as nat, horizontal) + end_along(l.start, horizontal)
            + end_along(l.end, horizontal)
    }
}

/// The coordinate of an end that is there.
pub open spec fn end_along(p: Option<Point>, horizontal: bool) -> Seq<int> {
    match p {
        None => Seq::empty(),
        Some(q) => seq![
            if horizontal {
                q.x as int
            } else {
                q.y as int
            },
        ],
    }
}

/// Whether any of the first `n` lines has a start that is a number.
pub open spec fn any_start(lines: Seq<OutlineSpan>, n: nat) -> bool {
    exists|i: int| 0 <= i < n && (#[trigger] lines[i]).start is Some
}

/// The extent of a board along an axis: zero where it is not known.
pub open spec fn is_extent(e: u64, lines: Seq<OutlineSpan>, horizontal: bool) -> bool {
    if any_start(lines, lines.len()) {
        exists|low: int, high: int| #[trigger]
            spans(ends_along(lines, lines.len(), horizontal), low, high) && e == high - low
    } else {
        e == 0
    }
}

/// The least and the greatest coordinate so far.
struct Reach {
    low: i64,
    high: i64,
    any: bool,
}

impl Reach {
    spec fn of(&self, ends: Seq<int>) -> bool {
        if self.any {
            spans(ends, self.low as int, self.high as int)
        } else {
            ends.len() == 0
        }
    }

    fn take(&mut self, v: i64, Ghost(ends): Ghost<Seq<int>>)
        requires
            old(self).of(ends),
        ensures
            final(self).of(ends + seq![v as int]),
            final(self).any,
    {
        let ghost before = (self.low, self.high);
        if !self.any {
            self.any = true;
            self.low = v;
            self.high = v;
            proof {
                assert((ends + seq![v as int])[0] == v);
            }
        } else {
            if v < self.low {
                self.low = v;
            }
            if v > self.high {
                self.high = v;
            }
            proof {
                let all = ends + seq![v as int];
                assert(all[ends.len() as int] == v);
                let a = choose|i: int| 0 <= i < ends.len() && ends[i] == before.0;
                let b = choose|i: int| 0 <= i < ends.len() && ends[i] == before.1;
                assert(all[a] == before.0 && all[b] == before.1);
            }
        }
    }
}

fn extent_along(lines: &Vec<OutlineSpan>, horizontal: bool) -> (r: Reach)
    ensures
        r.of(ends_along(lines@, lines@.len(), horizontal)),
{
    let mut reach = Reach { low: 0, high: 0, any: false };
    let mut i: usize = 0;
    while i < lines.len()
        invariant
            i <= lines@.len(),
            reach.of(ends_along(lines@, i as nat, horizontal)),
        decreases lines@.len() - i,
    {
        let l = lines[i];
        let ghost had = ends_along(lines@, i as nat, horizontal);
        if let Some(p) = l.start {
            let v: i64 = if horizontal { p.x } else { p.y };
            reach.take(v, Ghost(had));
        }
        let ghost had2 = had + end_along(l.start, horizontal);
        proof {
            assert(l.start is None ==> had2 =~= had);
        }
        if let Some(p) = l.end {
            let v: i64 = if horizontal { p.x } else { p.y };
            reach.take(v, Ghost(had2));
        }
        proof {
            assert(l.end is None ==> had2 + end_along(l.end, horizontal) =~= had2);
        }
        i += 1;
    }
    reach
}

proof fn lemma_start_is_an_end(lines: Seq<OutlineSpan>, n: nat, i: int, horizontal: bool)
    requires
        0 <= i < n <= lines.len(),
        lines[i].start is Some,
    ensures
        ends_along(lines, n, horizontal).len() > 0,
    decreases n,
{
    if i < n - 1 {
        lemma_start_is_an_end(lines, (n - 1) as nat, i, horizontal);
    }
}

/// The width and the height of a board, from the lines of its outline. They
/// are known where a line has a start.
pub fn estimate_board_dimensions(lines: &Vec<OutlineSpan>) -> (r: (u64, u64))
    ensures
        is_extent(r.0, lines@, true),
        is_extent(r.1, lines@, false),
{
    let mut found = false;
    let mut i: usize = 0;
    while i < lines.len()
        invariant
            i <= lines@.len(),
            found <==> any_start(lines@, i as nat),
        decreases lines@.len() - i,
    {
        if lines[i].start.is_some() {
            found = true;
        }
        proof {
            assert(lines@[i as int].start is Some ==> any_start(lines@, (i + 1) as nat));
            if any_start(lines@, i as nat) {
                let k = choose|k: int| 0 <= k < i && (#[trigger] lines@[k]).start is Some;
                assert(lines@[k].start is Some);
            }
        }
        i += 1;
    }
    if !found {
        return (0, 0);
    }
    let across = extent_along(lines, true);
    let down = extent_along(lines, false);
    proof {
        let k = choose|k: int| 0 <= k < lines@.len() && (#[trigger] lines@[k]).start is Some;
        lemma_start_is_an_end(lines@, lines@.len(), k, true);
        lemma_start_is_an_end(lines@, lines@.len(), k, false);
        let h = ends_along(lines@, lines@.len(), true);
        let v = ends_along(lines@, lines@.len(), false);
        assert(spans(h, across.low as int, across.high as int));
        assert(spans(v, down.low as int, down.high as int));
        assert(across.low <= h[0] <= across.high);
        assert(down.low <= v[0] <= down.high);
    }
    let width: u64 = (across.high as i128 - across.low as i128) as u64;
    let height: u64 = (down.high as i128 - down.low as i128) as u64;
    (width, height)
}

// ─── Laws ─────────────────────────────────────────────────────────────────

/// The first five boards cost the same however many of them are ordered, and
/// from then on every board adds the price of one, in cents: at jlcpcb 4.00 for
/// two layers, 14.00 for four, 30.00 for six and 50.00 for others, at pcbway 5.00
/// for two, 20.00 for four and 40.00 for others.
pub proof fn law_boards_beyond_five_add_up(
    a: Estimate,
    b: Estimate,
    fab: Seq<char>,
    layers: nat,
    quantity: nat,
    components: nat,
)
    requires
        fab == "jlcpcb"@ || fab == "pcbway"@,
        is_estimate(a, fab, layers, quantity, components),
        is_estimate(b, fab, layers, quantity + 1, components),
    ensures
        quantity < 5 ==> b.pcb == a.pcb,
        quantity >= 5 && fab == "jlcpcb"@ ==> b.pcb == a.pcb + (if layers == 2 {
            400
        } else if layers == 4 {
            1400
        } else if layers == 6 {
            3000int
        } else {
            5000
        }),
        quantity >= 5 && fab == "pcbway"@ ==> b.pcb == a.pcb + (if layers == 2 {
            500
        } else if layers == 4 {
            2000int
        } else {
            4000
        }),
{
    reveal_strlit("jlcpcb");
    reveal_strlit("pcbway");
    assert("jlcpcb"@[0] != "pcbway"@[0]);
    let each = board_price(fab, layers).1;
    if quantity >= 5 {
        let f = further_boards(quantity);
        assert(further_boards(quantity + 1) == f + 1);
        assert((f + 1) * each == f * each + each) by (nonlinear_arith);
    }
}

/// Parts and their assembly cost the same on every board: each part adds 0.50
/// and 0.03 at jlcpcb, which charges 80.00 for setting up an assembly with any
/// parts, and 0.80 and 0.05 at pcbway. A board without parts has no such costs.
pub proof fn law_parts_cost_the_same_on_every_board(
    e: Estimate,
    fab: Seq<char>,
    layers: nat,
    quantity: nat,
    components: nat,
)
    requires
        is_estimate(e, fab, layers, quantity, components),
    ensures
        components == 0 ==> e.assembly == 0 && e.components == 0,
        fab == "jlcpcb"@ && components > 0 ==> e.components == 50 * (components * quantity)
            && e.assembly == 8000 + 3 * (components * quantity),
        fab == "pcbway"@ ==> e.components == 80 * (components * quantity) && e.assembly == 5 * (
        components * quantity),
        fab != "jlcpcb"@ && fab != "pcbway"@ ==> e.assembly == 0 && e.components == 0,
        fab == "jlcpcb"@ && quantity <= 5 && layers == 2 ==> e.pcb == 2000,
        fab == "jlcpcb"@ && quantity <= 5 && layers == 4 ==> e.pcb == 7000,
        fab == "jlcpcb"@ && quantity <= 5 && layers == 6 ==> e.pcb == 15000,
        fab == "pcbway"@ && quantity <= 5 && layers == 2 ==> e.pcb == 5000,
        fab == "pcbway"@ && quantity <= 5 && layers == 4 ==> e.pcb == 12000,
        fab != "jlcpcb"@ && fab != "pcbway"@ ==> e.pcb == 10000 + 2000 * quantity,
{
    reveal_strlit("jlcpcb");
    reveal_strlit("pcbway");
    assert("jlcpcb"@[0] != "pcbway"@[0]);
    assert(0 * quantity == 0) by (nonlinear_arith);
    if quantity <= 5 {
        assert(further_boards(quantity) == 0);
        let each = board_price(fab, layers).1;
        assert(0 * each == 0) by (nonlinear_arith);
    }
}

proof fn lemma_end_is_counted(lines: Seq<OutlineSpan>, n: nat, i: int, p: Point, horizontal: bool)
    requires
        0 <= i < n <= lines.len(),
        lines[i].start == Some(p) || lines[i].end == Some(p),
    ensures
        ends_along(lines, n, horizontal).contains(
            if horizontal {
                p.x as int
            } else {
                p.y as int
            },
        ),
    decreases n,
{
    let v = if horizontal {
        p.x as int
    } else {
        p.y as int
    };
    let before = ends_along(lines, (n - 1) as nat, horizontal);
    let a = end_along(lines[n - 1].start, horizontal);
    let b = end_along(lines[n - 1].end, horizontal);
    crate::seqs::lemma_contains_add(before + a, b, v);
    crate::seqs::lemma_contains_add(before, a, v);
    if i < n - 1 {
        lemma_end_is_counted(lines, (n - 1) as nat, i, p, horizontal);
    } else if lines[i].start == Some(p) {
        assert(a[0] == v);
    } else {
        assert(b[0] == v);
    }
}

/// The extent of an outline reaches over any two of its ends.
pub proof fn law_extent_reaches_over_all_ends(
    e: u64,
    lines: Seq<OutlineSpan>,
    horizontal: bool,
    i: int,
    j: int,
    p: Point,
    q: Point,
)
    requires
        is_extent(e, lines, horizontal),
        0 <= i < lines.len(),
        0 <= j < lines.len(),
        lines[i].start == Some(p),
        lines[j].start == Some(q) || lines[j].end == Some(q),
    ensures
        horizontal ==> e >= p.x - q.x && e >= q.x - p.x,
        !horizontal ==> e >= p.y - q.y && e >= q.y - p.y,
{
    let ends = ends_along(lines, lines.len(), horizontal);
    lemma_end_is_counted(lines, lines.len(), i, p, horizontal);
    lemma_end_is_counted(lines, lines.len(), j, q, horizontal);
    assert(any_start(lines, lines.len()));
    let (low, high) = choose|low: int, high: int| #[trigger]
        spans(ends, low, high) && e == high - low;
    let v = if horizontal {
        p.x as int
    } else {
        p.y as int
    };
    let w = if horizontal {
        q.x as int
    } else {
        q.y as int
    };
    assert(ends[ends.index_of(v)] == v);
    assert(ends[ends.index_of(w)] == w);
}

/// Every graphic line of a board whose block is on the Edge.Cuts layer is a line
/// of its outline.
pub proof fn law_every_outline_line_is_read(content: Seq<char>, from: int, i: int)
    requires
        0 <= from <= i,
        text::occurs_at(content, "(gr_line"@, i),
        contains_text(content.subrange(i, line_end(content, i)), "Edge.Cuts"@),
    ensures
        outline_from(content, from).contains(
            OutlineLineView {
                start: word_pair(content.subrange(i, line_end(content, i)), "(start "@),
                end: word_pair(content.subrange(i, line_end(content, i)), "(end "@),
            },
        ),
    decreases content.len() - from,
{
    reveal_strlit("(gr_line");
    text::lemma_find_text(content, "(gr_line"@, from);
    let j = find_text(content, "(gr_line"@, from)->0;
    let x = OutlineLineView {
        start: word_pair(content.subrange(i, line_end(content, i)), "(start "@),
        end: word_pair(content.subrange(i, line_end(content, i)), "(end "@),
    };
    let rest = outline_from(content, j + 1);
    let block = content.subrange(j, line_end(content, j));
    let head = OutlineLineView {
        start: word_pair(block, "(start "@),
        end: word_pair(block, "(end "@),
    };
    crate::seqs::lemma_contains_cons(head, rest, x);
    if j < i {
        law_every_outline_line_is_read(content, j + 1, i);
    }
}

/// An outline has one extent along each axis, and none where none of its lines
/// has a start.
pub proof fn law_extents_are_determined(
    a: u64,
    b: u64,
    lines: Seq<OutlineSpan>,
    horizontal: bool,
)
    requires
        is_extent(a, lines, horizontal),
        is_extent(b, lines, horizontal),
    ensures
        a == b,
        (forall|i: int| 0 <= i < lines.len() ==> (#[trigger] lines[i]).start is None) ==> a == 0,
{
    if any_start(lines, lines.len()) {
        let ends = ends_along(lines, lines.len(), horizontal);
        let (low, high) = choose|low: int, high: int| #[trigger]
            spans(ends, low, high) && a == high - low;
        let (least, most) = choose|least: int, most: int| #[trigger]
            spans(ends, least, most) && b == most - least;
        assert(ends[ends.index_of(low)] == low);
        assert(ends[ends.index_of(high)] == high);
        assert(ends[ends.index_of(least)] == least);
        assert(ends[ends.index_of(most)] == most);
    }
}

} // verus!
