//! The ends of wires in the text of a schematic.
use crate::blocks::{
    block_close, close_in, closing, in_string, is_in_string, lemma_closing,
    lemma_open_block_is_not_stray, lemma_scan_plain, opens_block, opens_here, step, stepped,
    string_state, Closing,
};
use crate::geometry::Point;
use crate::text::{self, find_text, millimetres, next_of, occurs_at};
use vstd::prelude::*;

verus! {

// ─── Places ───────────────────────────────────────────────────────────────

/// Whether a text holds neither parentheses nor quotation marks.
pub open spec fn is_plain(s: Seq<char>) -> bool {
    forall|i: int| 0 <= i < s.len() ==> #[trigger] s[i] != '(' && s[i] != ')' && s[i] != '"'
}

/// The block of an id, with it in quotation marks.
pub open spec fn quoted_id(uuid: Seq<char>) -> Seq<char> {
    "(uuid \""@ + uuid + "\")"@
}

/// The block of an id, with it as it is.
pub open spec fn bare_id(uuid: Seq<char>) -> Seq<char> {
    "(uuid "@ + uuid + ")"@
}

/// Where the wire with that id closes, if it opens at `i`.
pub open spec fn wire_close(s: Seq<char>, uuid: Seq<char>, i: int) -> Option<int> {
    if opens_block(s, "(wire"@, i) {
        match block_close(s, i) {
            Closing::At(c) => if find_text(s.take(c + 1), quoted_id(uuid), i) is Some || find_text(
                s.take(c + 1),
                bare_id(uuid),
                i,
            ) is Some {
                Some(c)
            } else {
                None
            },
            _ => None,
        }
    } else {
        None
    }
}

/// Where the first wire with that id opens, from `from` on, and where it closes.
pub open spec fn wire_block(s: Seq<char>, uuid: Seq<char>, from: int) -> Option<(int, int)>
    decreases s.len() - from,
{
    if from < 0 || from >= s.len() {
        None
    } else {
        match wire_close(s, uuid, from) {
            Some(c) => Some((from, c)),
            None => wire_block(s, uuid, from + 1),
        }
    }
}

/// What an end of a wire that is named stands behind.
pub open spec fn end_name(is_start: bool) -> Seq<char> {
    if is_start {
        "(start "@
    } else {
        "(end "@
    }
}

/// Where the numerals of an end of a wire begin, in a text that ends with the
/// wire: behind the name of the end or, without a name, behind the first point
/// of the wire for its start and behind the second one for its end.
pub open spec fn end_position(s: Seq<char>, open: int, is_start: bool) -> Option<int> {
    match find_text(s, end_name(is_start), open) {
        Some(p) => Some(p + end_name(is_start).len()),
        None => match find_text(s, "(xy "@, open) {
            None => None,
            Some(first) => if is_start {
                Some(first + "(xy "@.len())
            } else {
                match find_text(s, "(xy "@, first + 1) {
                    None => None,
                    Some(second) => Some(second + "(xy "@.len()),
                }
            },
        },
    }
}

/// Where the numerals of an end of the wire with that id begin and end.
pub open spec fn end_numerals(s: Seq<char>, uuid: Seq<char>, is_start: bool) -> Option<
    (int, int),
> {
    match wire_block(s, uuid, 0) {
        None => None,
        Some((open, close)) => match end_position(s.take(close + 1), open, is_start) {
            None => None,
            Some(a) => {
                let b = next_of(s, ')', a);
                if b < s.len() && !in_string(s, a) && is_plain(s.subrange(a, b)) {
                    Some((a, b))
                } else {
                    None
                }
            },
        },
    }
}

/// The numerals of an end of the wire with that id.
pub open spec fn end_text(s: Seq<char>, uuid: Seq<char>, is_start: bool) -> Option<Seq<char>> {
    match end_numerals(s, uuid, is_start) {
        Some((a, b)) => Some(s.subrange(a, b)),
        None => None,
    }
}

/// The numerals of a point.
pub open spec fn point_text(p: Point) -> Seq<char> {
    millimetres(p.x as int) + " "@ + millimetres(p.y as int)
}

/// The text with another one in place of the characters from `a` to `b`.
pub open spec fn patched(s: Seq<char>, a: int, b: int, x: Seq<char>) -> Seq<char> {
    s.take(a) + x + s.skip(b)
}

/// The text in which an end of the wire with that id is at the point; `None`
/// where the text does not hold that end.
pub open spec fn with_end_at(s: Seq<char>, uuid: Seq<char>, is_start: bool, to: Point) -> Option<
    Seq<char>,
> {
    match end_numerals(s, uuid, is_start) {
        Some((a, b)) => Some(patched(s, a, b, point_text(to))),
        None => None,
    }
}

// ─── Search ───────────────────────────────────────────────────────────────

/// Where the first wire with that id opens and closes.
fn find_wire_block(chars: &Vec<char>, uuid: &str) -> (r: Option<(usize, usize)>)
    ensures
        match r {
            Some(p) => wire_block(chars@, uuid@, 0) == Some((p.0 as int, p.1 as int)) && p.0 <= p.1
                < chars@.len(),
            None => wire_block(chars@, uuid@, 0) is None,
        },
{
    let head = text::chars_of("(wire");
    let quoted_text = text::cat3("(uuid \"", uuid, "\")");
    let bare_text = text::cat3("(uuid ", uuid, ")");
    let quoted_pat = text::chars_of(quoted_text.as_str());
    let bare_pat = text::chars_of(bare_text.as_str());
    let mut quoted = false;
    let mut escaped = false;
    let mut i: usize = 0;
    while i < chars.len()
        invariant
            i <= chars@.len(),
            head@ == "(wire"@,
            quoted_pat@ == quoted_id(uuid@),
            bare_pat@ == bare_id(uuid@),
            (quoted, escaped) == string_state(chars@, i as int),
            wire_block(chars@, uuid@, 0) == wire_block(chars@, uuid@, i as int),
        decreases chars@.len() - i,
    {
        if opens_here(chars, &head, i, quoted) {
            proof {
                reveal_strlit("(wire");
                assert(chars@.subrange(i as int, i + 5)[0] == head@[0]);
                lemma_open_block_is_not_stray(chars@, i as int);
            }
            if let Some(c) = close_in(chars, i) {
                if text::find_within(chars, &quoted_pat, i, c + 1).is_some() || text::find_within(
                    chars,
                    &bare_pat,
                    i,
                    c + 1,
                ).is_some() {
                    return Some((i, c));
                }
            }
        }
        let (q, e) = step(quoted, escaped, chars[i]);
        quoted = q;
        escaped = e;
        i += 1;
    }
    None
}

/// Where the numerals of an end of the wire from `open` to `close` begin.
fn find_end_position(chars: &Vec<char>, open: usize, close: usize, is_start: bool) -> (r: Option<
    usize,
>)
    requires
        close < chars@.len(),
    ensures
        match r {
            Some(a) => end_position(chars@.take(close + 1), open as int, is_start) == Some(a as int)
                && a <= close + 1,
            None => end_position(chars@.take(close + 1), open as int, is_start) is None,
        },
{
    let len: usize = chars.len();
    proof {
        assert(close < len);
    }
    let name = if is_start {
        text::chars_of("(start ")
    } else {
        text::chars_of("(end ")
    };
    if let Some(p) = text::find_within(chars, &name, open, close + 1) {
        return Some(p + name.len());
    }
    let point = text::chars_of("(xy ");
    proof {
        reveal_strlit("(xy ");
    }
    let first: usize = match text::find_within(chars, &point, open, close + 1) {
        Some(p) => p,
        None => {
            return None;
        },
    };
    if is_start {
        return Some(first + point.len());
    }
    match text::find_within(chars, &point, first + 1, close + 1) {
        Some(p) => Some(p + point.len()),
        None => None,
    }
}

fn plain_range(chars: &Vec<char>, a: usize, b: usize) -> (r: bool)
    requires
        a <= b <= chars@.len(),
    ensures
        r == is_plain(chars@.subrange(a as int, b as int)),
{
    let ghost part = chars@.subrange(a as int, b as int);
    let mut i: usize = a;
    while i < b
        invariant
            a <= i <= b <= chars@.len(),
            part == chars@.subrange(a as int, b as int),
            forall|k: int|
                0 <= k < i - a ==> #[trigger] part[k] != '(' && part[k] != ')' && part[k] != '"',
        decreases b - i,
    {
        proof {
            assert(part[i - a] == chars@[i as int]);
        }
        if chars[i] == '(' || chars[i] == ')' || chars[i] == '"' {
            return false;
        }
        i += 1;
    }
    true
}

/// Where the numerals of an end of the wire with that id begin and end.
fn find_end_numerals(chars: &Vec<char>, uuid: &str, is_start: bool) -> (r: Option<(usize, usize)>)
    ensures
        match r {
            Some(p) => end_numerals(chars@, uuid@, is_start) == Some((p.0 as int, p.1 as int))
                && p.0 <= p.1 < chars@.len(),
            None => end_numerals(chars@, uuid@, is_start) is None,
        },
{
    let (open, close) = match find_wire_block(chars, uuid) {
        Some(p) => p,
        None => {
            return None;
        },
    };
    let a: usize = match find_end_position(chars, open, close, is_start) {
        Some(a) => a,
        None => {
            return None;
        },
    };
    let b: usize = text::find_char(chars, ')', a);
    if b < chars.len() && !is_in_string(chars, a) && plain_range(chars, a, b) {
        Some((a, b))
    } else {
        None
    }
}

/// The text in which an end of the wire with that id is at the point.
pub fn move_end(content: &str, uuid: &str, is_start: bool, to: Point) -> (r: Option<String>)
    ensures
        match r {
            Some(t) => with_end_at(content@, uuid@, is_start, to) == Some(t@),
            None => with_end_at(content@, uuid@, is_start, to) is None,
        },
{
    let chars = text::chars_of(content);
    let (a, b) = match find_end_numerals(&chars, uuid, is_start) {
        Some(p) => p,
        None => {
            return None;
        },
    };
    let x = text::millimetre_text(to.x);
    let y = text::millimetre_text(to.y);
    let mut out = text::slice_text(&chars, 0, a);
    out.append(x.as_str());
    out.append(" ");
    out.append(y.as_str());
    out.append(text::slice_text(&chars, b, chars.len()).as_str());
    proof {
        assert(out@ =~= patched(content@, a as int, b as int, point_text(to)));
    }
    Some(out)
}

// ─── Moves ────────────────────────────────────────────────────────────────

/// Whether `p` is what numerals of an end stand behind.
spec fn is_opening(p: Seq<char>) -> bool {
    p == "(xy "@ || p == "(start "@ || p == "(end "@
}

/// Whether the characters from `a` to `b` are numerals behind the opening at
/// `o`, outside strings.
spec fn is_place(s: Seq<char>, o: int, a: int, b: int) -> bool {
    &&& 0 <= o < a <= b < s.len()
    &&& is_opening(s.subrange(o, a))
    &&& s[b] == ')'
    &&& is_plain(s.subrange(a, b))
    &&& !in_string(s, a)
}

/// Where a position is once the characters before `a` have stayed and those
/// behind have moved by `d`.
spec fn moved(a: int, d: int, i: int) -> int {
    if i < a {
        i
    } else {
        i + d
    }
}

spec fn moved_option(a: int, d: int, r: Option<int>) -> Option<int> {
    match r {
        Some(i) => Some(moved(a, d, i)),
        None => None,
    }
}

spec fn moved_closing(a: int, d: int, r: Closing) -> Closing {
    match r {
        Closing::At(i) => Closing::At(moved(a, d, i)),
        _ => r,
    }
}

/// Whether a parenthesis opens the pattern and none opens in it.
spec fn is_block_start(p: Seq<char>) -> bool {
    &&& p.len() >= 2
    &&& p[0] == '('
    &&& forall|k: int| 0 < k < p.len() ==> #[trigger] p[k] != '('
}

/// Whether the pattern is the opening or has another letter first.
spec fn stands_apart(p: Seq<char>, opening: Seq<char>) -> bool {
    is_block_start(p) && (p == opening || p[1] != opening[1])
}

proof fn lemma_opening(p: Seq<char>)
    requires
        is_opening(p),
    ensures
        is_block_start(p),
        p.len() >= 4,
        p.last() == ' ',
        is_plain(p.skip(1)),
        stands_apart("(xy "@, p),
        stands_apart("(start "@, p),
        stands_apart("(end "@, p),
        stands_apart("(wire"@, p),
        forall|q: Seq<char>| is_block_start(q) && q[1] == 'u' ==> #[trigger] stands_apart(q, p),
        "(wire"@.len() == 5,
        "(wire"@[4] == 'e',
        "(xy "@.len() == 4,
{
    reveal_strlit("(xy ");
    reveal_strlit("(start ");
    reveal_strlit("(end ");
    reveal_strlit("(wire");
}

proof fn lemma_ids(uuid: Seq<char>)
    requires
        !uuid.contains('('),
    ensures
        is_block_start(quoted_id(uuid)),
        is_block_start(bare_id(uuid)),
        quoted_id(uuid)[1] == 'u',
        bare_id(uuid)[1] == 'u',
{
    reveal_strlit("(uuid \"");
    reveal_strlit("\")");
    reveal_strlit("(uuid ");
    reveal_strlit(")");
    assert forall|k: int| 0 < k < quoted_id(uuid).len() implies #[trigger] quoted_id(uuid)[k]
        != '(' by {
        if 7 <= k < 7 + uuid.len() {
            assert(quoted_id(uuid)[k] == uuid[k - 7]);
        }
    }
    assert forall|k: int| 0 < k < bare_id(uuid).len() implies #[trigger] bare_id(uuid)[k]
        != '(' by {
        if 6 <= k < 6 + uuid.len() {
            assert(bare_id(uuid)[k] == uuid[k - 6]);
        }
    }
}

/// The facts that a place has character by character.
proof fn lemma_place(s: Seq<char>, o: int, a: int, b: int)
    requires
        is_place(s, o, a, b),
    ensures
        s[o] == '(',
        s[a - 1] == ' ',
        o + 4 <= a,
        s[o + 1] == s.subrange(o, a)[1],
        forall|k: int| o < k < b ==> #[trigger] s[k] != '(' && s[k] != ')' && s[k] != '"',
{
    let p = s.subrange(o, a);
    lemma_opening(p);
    assert(p[0] == s[o]);
    assert(p.last() == s[a - 1]);
    assert forall|k: int| o < k < b implies #[trigger] s[k] != '(' && s[k] != ')' && s[k]
        != '"' by {
        if k < a {
            assert(p.skip(1)[k - o - 1] == s[k]);
        } else {
            assert(s.subrange(a, b)[k - a] == s[k]);
        }
    }
}

/// The text with other numerals has them in the same place.
proof fn lemma_patched_place(s: Seq<char>, o: int, a: int, b: int, x: Seq<char>)
    requires
        is_place(s, o, a, b),
        is_plain(x),
    ensures
        is_place(patched(s, a, b, x), o, a, a + x.len()),
        patched(s, a, b, x).subrange(o, a) == s.subrange(o, a),
        patched(s, a, b, x).subrange(a, a + x.len()) == x,
        patched(s, a, b, x).len() == s.len() + x.len() - (b - a),
        forall|k: int| 0 <= k < a ==> #[trigger] patched(s, a, b, x)[k] == s[k],
        forall|k: int|
            b <= k < s.len() ==> patched(s, a, b, x)[k + x.len() - (b - a)] == #[trigger] s[k],
{
    let t = patched(s, a, b, x);
    assert(t.subrange(o, a) =~= s.subrange(o, a));
    assert(t.subrange(a, a + x.len()) =~= x);
    lemma_same_state(s, t, a);
    assert(t[a + x.len()] == s[b]);
}

/// Texts that begin alike are in a string alike.
proof fn lemma_same_state(s: Seq<char>, t: Seq<char>, i: int)
    requires
        0 <= i <= s.len(),
        i <= t.len(),
        forall|k: int| 0 <= k < i ==> s[k] == t[k],
    ensures
        string_state(s, i) == string_state(t, i),
    decreases i,
{
    if i > 0 {
        lemma_same_state(s, t, i - 1);
    }
}

/// Outside strings nothing is escaped.
proof fn lemma_unquoted_state(s: Seq<char>, i: int)
    requires
        !in_string(s, i),
    ensures
        string_state(s, i) == (false, false),
    decreases i,
{
    if i > 0 {
        let before = string_state(s, i - 1);
        assert(string_state(s, i) == stepped(before.0, before.1, s[i - 1]));
    }
}

/// Numerals do not begin a string.
proof fn lemma_plain_state(s: Seq<char>, a: int, i: int)
    requires
        0 <= a <= i <= s.len(),
        !in_string(s, a),
        forall|k: int| a <= k < i ==> #[trigger] s[k] != '"',
    ensures
        string_state(s, i) == (false, false),
    decreases i - a,
{
    if i > a {
        lemma_plain_state(s, a, i - 1);
        assert(s[i - 1] != '"');
    } else {
        lemma_unquoted_state(s, a);
    }
}

/// Behind other numerals the text is in a string where it was.
proof fn lemma_moved_state(s: Seq<char>, o: int, a: int, b: int, x: Seq<char>, i: int)
    requires
        is_place(s, o, a, b),
        is_plain(x),
        b <= i <= s.len(),
    ensures
        string_state(patched(s, a, b, x), i + x.len() - (b - a)) == string_state(s, i),
    decreases i - b,
{
    let t = patched(s, a, b, x);
    let d = x.len() - (b - a);
    lemma_patched_place(s, o, a, b, x);
    lemma_place(s, o, a, b);
    lemma_place(t, o, a, a + x.len());
    if i == b {
        lemma_plain_state(s, a, b);
        lemma_plain_state(t, a, a + x.len());
    } else {
        lemma_moved_state(s, o, a, b, x, i - 1);
        assert(t[i - 1 + d] == s[i - 1]);
    }
}

/// A block that is open behind the numerals closes where it closed.
proof fn lemma_tail_closing(
    s: Seq<char>,
    o: int,
    a: int,
    b: int,
    x: Seq<char>,
    i: int,
    depth: nat,
    quoted: bool,
    escaped: bool,
)
    requires
        is_place(s, o, a, b),
        is_plain(x),
        b <= i,
    ensures
        closing(patched(s, a, b, x), i + x.len() - (b - a), depth, quoted, escaped)
            == moved_closing(a, x.len() - (b - a), closing(s, i, depth, quoted, escaped)),
    decreases s.len() - i,
{
    let t = patched(s, a, b, x);
    let d = x.len() - (b - a);
    lemma_patched_place(s, o, a, b, x);
    if i < s.len() {
        assert(t[i + d] == s[i]);
        if quoted {
            if escaped {
                lemma_tail_closing(s, o, a, b, x, i + 1, depth, true, false);
            } else if s[i] == '\\' {
                lemma_tail_closing(s, o, a, b, x, i + 1, depth, true, true);
            } else {
                lemma_tail_closing(s, o, a, b, x, i + 1, depth, s[i] != '"', false);
            }
        } else if s[i] == '"' {
            lemma_tail_closing(s, o, a, b, x, i + 1, depth, true, false);
        } else if s[i] == '(' {
            lemma_tail_closing(s, o, a, b, x, i + 1, depth + 1, false, false);
        } else if s[i] == ')' {
            if depth > 1 {
                lemma_tail_closing(s, o, a, b, x, i + 1, (depth - 1) as nat, false, false);
            }
        } else {
            lemma_tail_closing(s, o, a, b, x, i + 1, depth, false, false);
        }
    }
}

/// A block that is open before the numerals closes where it closed.
proof fn lemma_head_closing(
    s: Seq<char>,
    o: int,
    a: int,
    b: int,
    x: Seq<char>,
    i: int,
    depth: nat,
)
    requires
        is_place(s, o, a, b),
        is_plain(x),
        0 <= i <= a,
    ensures
        ({
            let st = string_state(s, i);
            closing(patched(s, a, b, x), i, depth, st.0, st.1) == moved_closing(
                a,
                x.len() - (b - a),
                closing(s, i, depth, st.0, st.1),
            )
        }),
    decreases a - i,
{
    let t = patched(s, a, b, x);
    let st = string_state(s, i);
    lemma_patched_place(s, o, a, b, x);
    lemma_place(s, o, a, b);
    lemma_place(t, o, a, a + x.len());
    if i == a {
        lemma_unquoted_state(s, a);
        lemma_scan_plain(s, a, b, depth);
        lemma_scan_plain(t, a, a + x.len(), depth);
        lemma_tail_closing(s, o, a, b, x, b, depth, false, false);
    } else {
        assert(t[i] == s[i]);
        assert(string_state(s, i + 1) == stepped(st.0, st.1, s[i]));
        if !st.0 && s[i] == '(' {
            lemma_head_closing(s, o, a, b, x, i + 1, depth + 1);
        } else if !st.0 && s[i] == ')' {
            if depth > 1 {
                lemma_head_closing(s, o, a, b, x, i + 1, (depth - 1) as nat);
            }
        } else {
            lemma_head_closing(s, o, a, b, x, i + 1, depth);
        }
    }
}

/// A pattern that begins before the numerals ends before them.
proof fn lemma_ends_before(s: Seq<char>, o: int, a: int, b: int, p: Seq<char>, i: int)
    requires
        is_place(s, o, a, b),
        stands_apart(p, s.subrange(o, a)),
        occurs_at(s, p, i),
        i < b,
    ensures
        i <= o,
        i + p.len() <= a,
        i < o ==> i + p.len() <= o,
{
    lemma_place(s, o, a, b);
    assert(s.subrange(i, i + p.len())[0] == s[i]);
    assert(i <= o);
    if i < o && i + p.len() > o {
        assert(s.subrange(i, i + p.len())[o - i] == s[o]);
    }
    if i == o {
        assert(s.subrange(i, i + p.len())[1] == s[o + 1]);
    }
}

/// A pattern occurs in the text with other numerals where it occurred.
proof fn lemma_moved_occurs(
    s: Seq<char>,
    o: int,
    a: int,
    b: int,
    x: Seq<char>,
    p: Seq<char>,
    i: int,
)
    requires
        is_place(s, o, a, b),
        is_plain(x),
        stands_apart(p, s.subrange(o, a)),
    ensures
        i < a ==> occurs_at(patched(s, a, b, x), p, i) == occurs_at(s, p, i),
        a <= i < a + x.len() ==> !occurs_at(patched(s, a, b, x), p, i),
        a <= i < b ==> !occurs_at(s, p, i),
        b <= i ==> occurs_at(patched(s, a, b, x), p, i + x.len() - (b - a)) == occurs_at(s, p, i),
{
    let t = patched(s, a, b, x);
    let d = x.len() - (b - a);
    lemma_patched_place(s, o, a, b, x);
    if occurs_at(s, p, i) && i < b {
        lemma_ends_before(s, o, a, b, p, i);
        assert(t.subrange(i, i + p.len()) =~= p);
    }
    if occurs_at(t, p, i) && i < a + x.len() {
        lemma_ends_before(t, o, a, a + x.len(), p, i);
        assert(s.subrange(i, i + p.len()) =~= p);
    }
    if b <= i {
        if i + p.len() <= s.len() {
            assert(t.subrange(i + d, i + d + p.len()) =~= s.subrange(i, i + p.len()));
        }
    }
}

/// A pattern is found in the text with other numerals where it was found.
proof fn lemma_moved_find(
    s: Seq<char>,
    o: int,
    a: int,
    b: int,
    x: Seq<char>,
    p: Seq<char>,
    from: int,
)
    requires
        is_place(s, o, a, b),
        is_plain(x),
        stands_apart(p, s.subrange(o, a)),
        0 <= from < a || b <= from,
    ensures
        find_text(patched(s, a, b, x), p, moved(a, x.len() - (b - a), from)) == moved_option(
            a,
            x.len() - (b - a),
            find_text(s, p, from),
        ),
        find_text(s, p, from) matches Some(i) ==> from <= i && occurs_at(s, p, i) && (i <= o || b
            <= i),
{
    let t = patched(s, a, b, x);
    let d = x.len() - (b - a);
    let start = moved(a, d, from);
    text::lemma_find_text(s, p, from);
    text::lemma_find_text(t, p, start);
    if let Some(i) = find_text(s, p, from) {
        lemma_moved_occurs(s, o, a, b, x, p, i);
        if i < b {
            lemma_ends_before(s, o, a, b, p, i);
        }
        assert(occurs_at(t, p, moved(a, d, i)));
    }
    if let Some(j) = find_text(t, p, start) {
        lemma_moved_occurs(s, o, a, b, x, p, j);
        lemma_moved_occurs(s, o, a, b, x, p, j - d);
        if j < a {
            assert(occurs_at(s, p, j));
        } else {
            assert(a + x.len() <= j);
            assert(occurs_at(s, p, j - d));
        }
    }
}

/// A pattern is found in a block of the text with other numerals where it was
/// found.
proof fn lemma_moved_find_within(
    s: Seq<char>,
    o: int,
    a: int,
    b: int,
    x: Seq<char>,
    p: Seq<char>,
    from: int,
    c: int,
)
    requires
        is_place(s, o, a, b),
        is_plain(x),
        stands_apart(p, s.subrange(o, a)),
        0 <= from < a || b <= from,
        0 <= c < a || b <= c < s.len(),
    ensures
        find_text(
            patched(s, a, b, x).take(moved(a, x.len() - (b - a), c) + 1),
            p,
            moved(a, x.len() - (b - a), from),
        ) == moved_option(a, x.len() - (b - a), find_text(s.take(c + 1), p, from)),
        find_text(s.take(c + 1), p, from) matches Some(i) ==> from <= i && occurs_at(s, p, i) && i
            + p.len() <= c + 1 && (i <= o || b <= i),
{
    let t = patched(s, a, b, x);
    let d = x.len() - (b - a);
    let part = s.take(c + 1);
    lemma_patched_place(s, o, a, b, x);
    text::lemma_find_text(part, p, from);
    if let Some(i) = find_text(part, p, from) {
        assert(part.subrange(i, i + p.len()) =~= s.subrange(i, i + p.len()));
        if i < b {
            lemma_ends_before(s, o, a, b, p, i);
        }
    }
    if c < a {
        assert(part =~= t.take(c + 1));
    } else {
        assert(part.subrange(o, a) =~= s.subrange(o, a));
        assert(part.subrange(a, b) =~= s.subrange(a, b));
        lemma_same_state(s, part, a);
        assert(is_place(part, o, a, b));
        assert(t.take(c + d + 1) =~= patched(part, a, b, x));
        lemma_moved_find(part, o, a, b, x, p, from);
    }
}

/// A wire opens and closes in the text with other numerals where it did.
#[verifier::rlimit(80)]
#[verifier::spinoff_prover]
proof fn lemma_moved_wire_close(
    s: Seq<char>,
    o: int,
    a: int,
    b: int,
    x: Seq<char>,
    uuid: Seq<char>,
    i: int,
)
    requires
        is_place(s, o, a, b),
        is_plain(x),
        !uuid.contains('('),
        0 <= i,
    ensures
        i < a ==> wire_close(patched(s, a, b, x), uuid, i) == moved_option(
            a,
            x.len() - (b - a),
            wire_close(s, uuid, i),
        ),
        a <= i < a + x.len() ==> wire_close(patched(s, a, b, x), uuid, i) is None,
        a <= i < b ==> wire_close(s, uuid, i) is None,
        b <= i ==> wire_close(patched(s, a, b, x), uuid, i + x.len() - (b - a)) == moved_option(
            a,
            x.len() - (b - a),
            wire_close(s, uuid, i),
        ),
        wire_close(s, uuid, i) matches Some(c) ==> i <= c < s.len() && (c < a || b <= c),
{
    let t = patched(s, a, b, x);
    let d = x.len() - (b - a);
    let head = "(wire"@;
    lemma_patched_place(s, o, a, b, x);
    lemma_place(s, o, a, b);
    lemma_opening(s.subrange(o, a));
    lemma_ids(uuid);
    lemma_moved_occurs(s, o, a, b, x, head, i);
    lemma_closing(s, i, 0, false, false);
    if i < a {
        lemma_same_state(s, t, i);
        if occurs_at(s, head, i) {
            lemma_ends_before(s, o, a, b, head, i);
            assert(i < o);
            assert(s[i + 5] == t[i + 5]);
        }
        if !in_string(s, i) {
            lemma_unquoted_state(s, i);
            lemma_head_closing(s, o, a, b, x, i, 0);
            if let Closing::At(c) = block_close(s, i) {
                lemma_moved_find_within(s, o, a, b, x, quoted_id(uuid), i, c);
                lemma_moved_find_within(s, o, a, b, x, bare_id(uuid), i, c);
            }
        }
    }
    if b <= i < s.len() {
        lemma_moved_state(s, o, a, b, x, i);
        lemma_tail_closing(s, o, a, b, x, i, 0, false, false);
        if i + 5 < s.len() {
            assert(t[i + 5 + d] == s[i + 5]);
        }
        if let Closing::At(c) = block_close(s, i) {
            lemma_moved_find_within(s, o, a, b, x, quoted_id(uuid), i, c);
            lemma_moved_find_within(s, o, a, b, x, bare_id(uuid), i, c);
        }
    }
}

/// The wire that is found is the first one with that id.
proof fn lemma_wire_block(s: Seq<char>, uuid: Seq<char>, from: int)
    requires
        0 <= from,
    ensures
        match wire_block(s, uuid, from) {
            Some((w, c)) => from <= w < s.len() && wire_close(s, uuid, w) == Some(c) && forall|j: int|
                from <= j < w ==> #[trigger] wire_close(s, uuid, j) is None,
            None => forall|j: int| from <= j < s.len() ==> #[trigger] wire_close(s, uuid, j) is None,
        },
    decreases s.len() - from,
{
    if from < s.len() && wire_close(s, uuid, from) is None {
        lemma_wire_block(s, uuid, from + 1);
    }
}

/// A wire is found in the text with other numerals where it was found.
proof fn lemma_moved_wire_block(
    s: Seq<char>,
    o: int,
    a: int,
    b: int,
    x: Seq<char>,
    uuid: Seq<char>,
)
    requires
        is_place(s, o, a, b),
        is_plain(x),
        !uuid.contains('('),
    ensures
        match wire_block(s, uuid, 0) {
            Some((w, c)) => wire_block(patched(s, a, b, x), uuid, 0) == Some(
                (moved(a, x.len() - (b - a), w), moved(a, x.len() - (b - a), c)),
            ) && 0 <= w <= c < s.len() && (w < a || b <= w) && (c < a || b <= c),
            None => wire_block(patched(s, a, b, x), uuid, 0) is None,
        },
{
    let t = patched(s, a, b, x);
    let d = x.len() - (b - a);
    assert(t.len() == s.len() + d && a <= b < s.len()) by {
        lemma_patched_place(s, o, a, b, x);
    }
    lemma_wire_block(s, uuid, 0);
    lemma_wire_block(t, uuid, 0);
    match wire_block(s, uuid, 0) {
        Some((w, c)) => {
            lemma_moved_wire_close(s, o, a, b, x, uuid, w);
            assert(w < a || b <= w);
            assert forall|j: int| 0 <= j < moved(a, d, w) implies #[trigger] wire_close(
                t,
                uuid,
                j,
            ) is None by {
                lemma_moved_wire_close(s, o, a, b, x, uuid, j);
                if a + x.len() <= j {
                    lemma_moved_wire_close(s, o, a, b, x, uuid, j - d);
                    assert(wire_close(s, uuid, j - d) is None);
                } else if j < a {
                    assert(wire_close(s, uuid, j) is None);
                }
            }
            lemma_first_wire(t, uuid, 0, moved(a, d, w));
        },
        None => {
            assert forall|j: int| 0 <= j < t.len() implies #[trigger] wire_close(
                t,
                uuid,
                j,
            ) is None by {
                lemma_moved_wire_close(s, o, a, b, x, uuid, j);
                if a + x.len() <= j {
                    lemma_moved_wire_close(s, o, a, b, x, uuid, j - d);
                    assert(wire_close(s, uuid, j - d) is None);
                } else if j < a {
                    assert(wire_close(s, uuid, j) is None);
                }
            }
        },
    }
}

/// The first wire with that id is the one that is found.
proof fn lemma_first_wire(s: Seq<char>, uuid: Seq<char>, from: int, w: int)
    requires
        0 <= from <= w < s.len(),
        wire_close(s, uuid, w) is Some,
        forall|j: int| from <= j < w ==> #[trigger] wire_close(s, uuid, j) is None,
    ensures
        wire_block(s, uuid, from) == Some((w, wire_close(s, uuid, w)->0)),
    decreases w - from,
{
    if from < w {
        assert(wire_close(s, uuid, from) is None);
        lemma_first_wire(s, uuid, from + 1, w);
    }
}

/// The numerals of an end stand behind an opening.
proof fn lemma_end_opening(s: Seq<char>, open: int, is_start: bool) -> (p: int)
    requires
        0 <= open,
        end_position(s, open, is_start) is Some,
    ensures
        0 <= p < end_position(s, open, is_start)->0 <= s.len(),
        is_opening(s.subrange(p, end_position(s, open, is_start)->0)),
{
    lemma_opening("(xy "@);
    lemma_opening("(start "@);
    lemma_opening("(end "@);
    text::lemma_find_text(s, end_name(is_start), open);
    text::lemma_find_text(s, "(xy "@, open);
    match find_text(s, end_name(is_start), open) {
        Some(p) => p,
        None => {
            let first = find_text(s, "(xy "@, open)->0;
            text::lemma_find_text(s, "(xy "@, first + 1);
            if is_start {
                first
            } else {
                find_text(s, "(xy "@, first + 1)->0
            }
        },
    }
}

/// The numerals of an end are a place.
proof fn lemma_end_place(s: Seq<char>, uuid: Seq<char>, is_start: bool) -> (o: int)
    requires
        end_numerals(s, uuid, is_start) is Some,
    ensures
        ({
            let (a, b) = end_numerals(s, uuid, is_start)->0;
            is_place(s, o, a, b)
        }),
{
    let (w, c) = wire_block(s, uuid, 0)->0;
    let (a, b) = end_numerals(s, uuid, is_start)->0;
    lemma_wire_block(s, uuid, 0);
    lemma_closing(s, w, 0, false, false);
    let o = lemma_end_opening(s.take(c + 1), w, is_start);
    assert(s.take(c + 1).subrange(o, a) =~= s.subrange(o, a));
    lemma_next(s, a);
    o
}

/// The next closing parenthesis.
proof fn lemma_next(s: Seq<char>, from: int)
    requires
        0 <= from <= s.len(),
    ensures
        from <= next_of(s, ')', from) <= s.len(),
        next_of(s, ')', from) < s.len() ==> s[next_of(s, ')', from)] == ')',
        forall|k: int| from <= k < next_of(s, ')', from) ==> #[trigger] s[k] != ')',
    decreases s.len() - from,
{
    if from < s.len() && s[from] != ')' {
        lemma_next(s, from + 1);
    }
}

/// An end begins in the text with other numerals where it began.
proof fn lemma_moved_end_position(
    s: Seq<char>,
    o: int,
    a: int,
    b: int,
    x: Seq<char>,
    open: int,
    c: int,
    is_start: bool,
)
    requires
        is_place(s, o, a, b),
        is_plain(x),
        0 <= open < a || b <= open,
        0 <= c < a || b <= c < s.len(),
    ensures
        ({
            let d = x.len() - (b - a);
            let moved_to = end_position(
                patched(s, a, b, x).take(moved(a, d, c) + 1),
                moved(a, d, open),
                is_start,
            );
            match end_position(s.take(c + 1), open, is_start) {
                Some(q) => {
                    &&& 0 <= q <= c + 1
                    &&& q <= o || q == a || b < q
                    &&& moved_to == Some(
                        if q <= a {
                            q
                        } else {
                            q + d
                        },
                    )
                },
                None => moved_to is None,
            }
        }),
{
    let name = end_name(is_start);
    let point = "(xy "@;
    lemma_place(s, o, a, b);
    lemma_opening(s.subrange(o, a));
    lemma_opening(name);
    lemma_moved_find_within(s, o, a, b, x, name, open, c);
    lemma_moved_find_within(s, o, a, b, x, point, open, c);
    match find_text(s.take(c + 1), name, open) {
        Some(p) => {
            if p < b {
                lemma_ends_before(s, o, a, b, name, p);
                lemma_at_opening(s, o, a, b, name, p);
            }
        },
        None => {
            if let Some(first) = find_text(s.take(c + 1), point, open) {
                if first < b {
                    lemma_ends_before(s, o, a, b, point, first);
                    lemma_at_opening(s, o, a, b, point, first);
                }
                lemma_moved_find_within(s, o, a, b, x, point, first + 1, c);
                if let Some(second) = find_text(s.take(c + 1), point, first + 1) {
                    if second < b {
                        lemma_ends_before(s, o, a, b, point, second);
                        lemma_at_opening(s, o, a, b, point, second);
                    }
                }
            }
        },
    }
}

/// What occurs where numerals have their opening is that opening.
proof fn lemma_at_opening(s: Seq<char>, o: int, a: int, b: int, p: Seq<char>, i: int)
    requires
        is_place(s, o, a, b),
        stands_apart(p, s.subrange(o, a)),
        occurs_at(s, p, i),
    ensures
        i == o ==> i + p.len() == a,
{
    if i == o {
        lemma_place(s, o, a, b);
        assert(s.subrange(i, i + p.len())[1] == s[o + 1]);
    }
}

/// Behind other numerals the next parenthesis is where it was.
proof fn lemma_moved_next(s: Seq<char>, o: int, a: int, b: int, x: Seq<char>, from: int)
    requires
        is_place(s, o, a, b),
        is_plain(x),
        b <= from <= s.len(),
    ensures
        next_of(patched(s, a, b, x), ')', from + x.len() - (b - a)) == next_of(s, ')', from)
            + x.len() - (b - a),
    decreases s.len() - from,
{
    lemma_patched_place(s, o, a, b, x);
    if from < s.len() {
        assert(patched(s, a, b, x)[from + x.len() - (b - a)] == s[from]);
        if s[from] != ')' {
            lemma_moved_next(s, o, a, b, x, from + 1);
        }
    }
}

/// Texts that are alike up to the next parenthesis have it alike.
proof fn lemma_same_next(s: Seq<char>, t: Seq<char>, from: int, n: int)
    requires
        0 <= from <= n < s.len(),
        n < t.len(),
        forall|k: int| from <= k <= n ==> s[k] == t[k],
        next_of(s, ')', from) == n,
    ensures
        next_of(t, ')', from) == n,
    decreases n - from,
{
    lemma_next(s, from);
    if from < n {
        assert(s[from] != ')');
        lemma_same_next(s, t, from + 1, n);
    }
}

/// Ends stand in the text with other numerals where they stood, and the one
/// that has them has them alone.
#[verifier::rlimit(80)]
#[verifier::spinoff_prover]
proof fn lemma_moved_numerals(
    s: Seq<char>,
    o: int,
    a: int,
    b: int,
    x: Seq<char>,
    uuid: Seq<char>,
    is_start: bool,
)
    requires
        is_place(s, o, a, b),
        is_plain(x),
        !uuid.contains('('),
    ensures
        ({
            let t = patched(s, a, b, x);
            let d = x.len() - (b - a);
            match end_numerals(s, uuid, is_start) {
                Some((p, q)) => {
                    ||| p <= q < a && end_numerals(t, uuid, is_start) == Some((p, q)) && t.subrange(
                        p,
                        q,
                    ) == s.subrange(p, q)
                    ||| p == a && q == b && end_numerals(t, uuid, is_start) == Some(
                        (a, a + x.len()),
                    ) && t.subrange(a, a + x.len()) == x
                    ||| b < p && end_numerals(t, uuid, is_start) == Some((p + d, q + d))
                        && t.subrange(p + d, q + d) == s.subrange(p, q)
                },
                None => end_numerals(t, uuid, is_start) is None,
            }
        }),
{
    let t = patched(s, a, b, x);
    let d = x.len() - (b - a);
    lemma_patched_place(s, o, a, b, x);
    lemma_place(s, o, a, b);
    lemma_place(t, o, a, a + x.len());
    lemma_moved_wire_block(s, o, a, b, x, uuid);
    if let Some((w, c)) = wire_block(s, uuid, 0) {
        lemma_moved_end_position(s, o, a, b, x, w, c, is_start);
        if let Some(p) = end_position(s.take(c + 1), w, is_start) {
            let q = next_of(s, ')', p);
            lemma_next(s, p);
            if p == a {
                lemma_next(t, a);
                assert(q == b);
                assert(next_of(t, ')', a) == a + x.len());
            } else if p <= o {
                lemma_same_state(s, t, p);
                if q < a {
                    lemma_same_next(s, t, p, q);
                    assert(t.subrange(p, q) =~= s.subrange(p, q));
                } else {
                    assert(q == b);
                    assert(s.subrange(p, q)[o - p] == '(');
                    lemma_next(t, p);
                    let r = next_of(t, ')', p);
                    assert(r > o) by {
                        if r <= o {
                            assert(s[r] == t[r]);
                        }
                    }
                    assert(t.subrange(p, r)[o - p] == '(');
                }
            } else {
                lemma_moved_next(s, o, a, b, x, p);
                lemma_moved_state(s, o, a, b, x, p);
                if q < s.len() {
                    assert(t.subrange(p + d, q + d) =~= s.subrange(p, q));
                }
            }
        }
    }
}

// ─── Laws ─────────────────────────────────────────────────────────────────

proof fn lemma_decimal_is_plain(n: nat)
    ensures
        is_plain(text::decimal(n)),
    decreases n,
{
    if n >= 10 {
        lemma_decimal_is_plain(n / 10);
    }
}

proof fn lemma_fraction_is_plain(n: nat, places: nat)
    requires
        n < text::power_of_ten(places),
    ensures
        is_plain(text::fraction_digits(n, places)),
    decreases places,
{
    if n > 0 && places > 0 {
        let unit = text::power_of_ten((places - 1) as nat);
        assert(n < 10 * unit);
        assert(unit > 0 && n / unit < 10 && n % unit < unit) by (nonlinear_arith)
            requires
                n < 10 * unit,
        ;
        lemma_fraction_is_plain(n % unit, (places - 1) as nat);
    }
}

proof fn lemma_millimetres_are_plain(nm: int)
    ensures
        is_plain(millimetres(nm)),
{
    reveal_strlit("-");
    reveal_strlit(".");
    let n = if nm < 0 {
        (-nm) as nat
    } else {
        nm as nat
    };
    reveal_with_fuel(text::power_of_ten, 7);
    let unit = text::power_of_ten(6);
    lemma_decimal_is_plain(n / unit);
    lemma_fraction_is_plain(n % unit, 6);
}

proof fn lemma_point_is_plain(p: Point)
    ensures
        is_plain(point_text(p)),
{
    reveal_strlit(" ");
    lemma_millimetres_are_plain(p.x as int);
    lemma_millimetres_are_plain(p.y as int);
}

/// An end that was moved is read back where it was moved to.
pub proof fn law_moved_end_is_read_back(
    s: Seq<char>,
    uuid: Seq<char>,
    is_start: bool,
    to: Point,
)
    requires
        with_end_at(s, uuid, is_start, to) is Some,
        !uuid.contains('('),
    ensures
        end_text(with_end_at(s, uuid, is_start, to)->0, uuid, is_start) == Some(point_text(to)),
{
    let (a, b) = end_numerals(s, uuid, is_start)->0;
    let o = lemma_end_place(s, uuid, is_start);
    lemma_point_is_plain(to);
    lemma_moved_numerals(s, o, a, b, point_text(to), uuid, is_start);
}

/// Where an end is moved, the ends that stand elsewhere keep their numerals.
pub proof fn law_other_ends_stay(
    s: Seq<char>,
    uuid: Seq<char>,
    is_start: bool,
    to: Point,
    other: Seq<char>,
    other_is_start: bool,
)
    requires
        with_end_at(s, uuid, is_start, to) is Some,
        !other.contains('('),
        end_numerals(s, other, other_is_start) != end_numerals(s, uuid, is_start),
    ensures
        end_text(with_end_at(s, uuid, is_start, to)->0, other, other_is_start) == end_text(
            s,
            other,
            other_is_start,
        ),
{
    let (a, b) = end_numerals(s, uuid, is_start)->0;
    let o = lemma_end_place(s, uuid, is_start);
    lemma_point_is_plain(to);
    lemma_moved_numerals(s, o, a, b, point_text(to), other, other_is_start);
}

/// The two ends of a wire stand in different places.
pub proof fn law_ends_of_a_wire_differ(s: Seq<char>, uuid: Seq<char>)
    requires
        end_numerals(s, uuid, true) is Some,
    ensures
        end_numerals(s, uuid, true) != end_numerals(s, uuid, false),
{
    let (w, c) = wire_block(s, uuid, 0)->0;
    let part = s.take(c + 1);
    lemma_wire_block(s, uuid, 0);
    lemma_closing(s, w, 0, false, false);
    reveal_strlit("(xy ");
    reveal_strlit("(start ");
    reveal_strlit("(end ");
    text::lemma_find_text(part, "(start "@, w);
    text::lemma_find_text(part, "(end "@, w);
    text::lemma_find_text(part, "(xy "@, w);
    if let Some(p) = find_text(part, "(start "@, w) {
        assert(part.subrange(p, p + 7)[5] == part[p + 5]);
    }
    if let Some(p) = find_text(part, "(end "@, w) {
        assert(part.subrange(p, p + 5)[3] == part[p + 3]);
    }
    if let Some(p) = find_text(part, "(xy "@, w) {
        assert(part.subrange(p, p + 4)[2] == part[p + 2]);
        text::lemma_find_text(part, "(xy "@, p + 1);
        if let Some(q) = find_text(part, "(xy "@, p + 1) {
            assert(part.subrange(q, q + 4)[2] == part[q + 2]);
        }
    }
}

/// How the places of two ends come out where one of them, or a third one, is
/// moved: those that were different stay different.
pub(crate) proof fn lemma_places_stay_apart(
    s: Seq<char>,
    uuid: Seq<char>,
    is_start: bool,
    to: Point,
    first: (Seq<char>, bool),
    second: (Seq<char>, bool),
)
    requires
        with_end_at(s, uuid, is_start, to) is Some,
        !first.0.contains('('),
        !second.0.contains('('),
        end_numerals(s, first.0, first.1) is Some,
        end_numerals(s, second.0, second.1) is Some,
    ensures
        ({
            let t = with_end_at(s, uuid, is_start, to)->0;
            &&& end_numerals(t, first.0, first.1) is Some
            &&& end_numerals(s, first.0, first.1) != end_numerals(s, second.0, second.1)
                ==> end_numerals(t, first.0, first.1) != end_numerals(t, second.0, second.1)
        }),
{
    let (a, b) = end_numerals(s, uuid, is_start)->0;
    let o = lemma_end_place(s, uuid, is_start);
    lemma_point_is_plain(to);
    lemma_moved_numerals(s, o, a, b, point_text(to), first.0, first.1);
    lemma_moved_numerals(s, o, a, b, point_text(to), second.0, second.1);
}

} // verus!
