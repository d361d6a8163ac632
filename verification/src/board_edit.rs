//! Edits of a board's text.
use crate::blocks::{block_close, close_in, closing, lemma_closing, lemma_scan_plain, Closing};
use crate::text::{
    self, decimal, find_text, last_of, next_of, occurs_at, replaced, trimmed_end,
};
use vstd::prelude::*;

verus! {

// ─── Blocks ───────────────────────────────────────────────────────────────

/// Position of the parenthesis that closes the block that opens at `open_pos`;
/// `None` where the text ends first. Positions count characters. Balancing
/// parentheses makes the result independent of how the text is indented.
pub fn close_of_block(content: &str, open_pos: usize) -> (r: Option<usize>)
    requires
        open_pos <= content@.len(),
        !(block_close(content@, open_pos as int) is Stray),
    ensures
        match r {
            Some(c) => block_close(content@, open_pos as int) == Closing::At(c as int)
                && open_pos <= c < content@.len() && content@[c as int] == ')',
            None => block_close(content@, open_pos as int) == Closing::Never,
        },
{
    let chars = text::chars_of(content);
    close_in(&chars, open_pos)
}

/// Where a block closes does not depend on whether its text is indented with
/// spaces or with tabs.
pub proof fn law_close_ignores_indent_style(s: Seq<char>, open_pos: int)
    requires
        0 <= open_pos,
    ensures
        block_close(replaced(s, '\t', ' '), open_pos) == block_close(s, open_pos),
{
    lemma_blanks_do_not_matter(s, open_pos, 0, false, false);
}

proof fn lemma_blanks_do_not_matter(s: Seq<char>, i: int, depth: nat, quoted: bool, escaped: bool)
    requires
        0 <= i,
    ensures
        closing(replaced(s, '\t', ' '), i, depth, quoted, escaped) == closing(
            s,
            i,
            depth,
            quoted,
            escaped,
        ),
    decreases s.len() - i,
{
    let t = replaced(s, '\t', ' ');
    assert(t.len() == s.len());
    if i < s.len() {
        assert(t[i] == (if s[i] == '\t' {
            ' '
        } else {
            s[i]
        }));
        if quoted {
            if escaped {
                lemma_blanks_do_not_matter(s, i + 1, depth, true, false);
            } else if s[i] == '\\' {
                lemma_blanks_do_not_matter(s, i + 1, depth, true, true);
            } else {
                lemma_blanks_do_not_matter(s, i + 1, depth, s[i] != '"', false);
            }
        } else if s[i] == '"' {
            lemma_blanks_do_not_matter(s, i + 1, depth, true, false);
        } else if s[i] == '(' {
            lemma_blanks_do_not_matter(s, i + 1, depth + 1, false, false);
        } else if s[i] == ')' {
            if depth > 1 {
                lemma_blanks_do_not_matter(s, i + 1, (depth - 1) as nat, false, false);
            }
        } else {
            lemma_blanks_do_not_matter(s, i + 1, depth, false, false);
        }
    }
}

/// The end of the spaces and tabs at `i`.
pub open spec fn blanks_end(s: Seq<char>, i: int) -> int
    decreases s.len() - i,
{
    if i < 0 || i >= s.len() || !(s[i] == ' ' || s[i] == '\t') {
        i
    } else {
        blanks_end(s, i + 1)
    }
}

/// The indent of the first entry of the block at `open_pos`: the spaces and
/// tabs at the start of the next line, where an entry opens behind them.
pub open spec fn indent_of_entry(s: Seq<char>, open_pos: int) -> Option<Seq<char>> {
    let nl = next_of(s, '\n', open_pos);
    if nl >= s.len() {
        None
    } else {
        let e = blanks_end(s, nl + 1);
        if e > nl + 1 && e < s.len() && s[e] == '(' {
            Some(s.subrange(nl + 1, e))
        } else {
            None
        }
    }
}

/// The indent of the first entry of the block at `open_pos`, so that a sibling
/// of it can be written in the style of the text.
pub fn entry_indent(content: &str, open_pos: usize) -> (r: Option<String>)
    requires
        open_pos <= content@.len(),
    ensures
        match r {
            Some(t) => indent_of_entry(content@, open_pos as int) == Some(t@),
            None => indent_of_entry(content@, open_pos as int) is None,
        },
{
    let chars = text::chars_of(content);
    let len: usize = chars.len();
    let nl: usize = text::find_char(&chars, '\n', open_pos);
    if nl >= len {
        return None;
    }
    let mut e: usize = nl + 1;
    while e < len && (chars[e] == ' ' || chars[e] == '\t')
        invariant
            chars@ == content@,
            len == chars@.len(),
            nl + 1 <= e <= len,
            blanks_end(content@, nl + 1) == blanks_end(content@, e as int),
        decreases len - e,
    {
        e += 1;
    }
    if e > nl + 1 && e < len && chars[e] == '(' {
        Some(text::slice_text(&chars, nl + 1, e))
    } else {
        None
    }
}

// ─── Insertion ────────────────────────────────────────────────────────────

/// The text with an insertion at `at`.
pub open spec fn inserted(s: Seq<char>, at: int, t: Seq<char>) -> Seq<char> {
    s.take(at) + t + s.skip(at)
}

/// Inserts into a text.
pub fn insert_at(content: &str, at: usize, item: &str) -> (r: String)
    requires
        at <= content@.len(),
    ensures
        r@ == inserted(content@, at as int, item@),
{
    let chars = text::chars_of(content);
    let len: usize = chars.len();
    let before = text::slice_text(&chars, 0, at);
    let after = text::slice_text(&chars, at, len);
    proof {
        assert(content@.subrange(0, at as int) =~= content@.take(at as int));
        assert(content@.subrange(at as int, len as int) =~= content@.skip(at as int));
    }
    text::cat3(before.as_str(), item, after.as_str())
}

/// Where an item is appended to a document: before its last closing
/// parenthesis, or at its end without one.
pub open spec fn append_position(s: Seq<char>) -> int {
    match last_of(s, ')') {
        Some(i) => i,
        None => s.len() as int,
    }
}

fn append_at(content: &str) -> (r: usize)
    ensures
        r == append_position(content@),
        r <= content@.len(),
{
    let chars = text::chars_of(content);
    match text::rfind_char(&chars, ')') {
        Some(i) => i,
        None => chars.len(),
    }
}

/// Appends an item to a document.
pub fn append_item(content: &str, item: &str) -> (r: String)
    ensures
        r@ == inserted(content@, append_position(content@), item@),
{
    let at: usize = append_at(content);
    insert_at(content, at, item)
}

// ─── Layers ───────────────────────────────────────────────────────────────

/// A layer that was added: its id, and the text of the board with it.
pub struct AddedLayer {
    pub id: i32,
    pub content: String,
}

/// The first id from `from` to the last of the inner copper layers that is
/// not in use.
pub open spec fn free_id(used: Seq<i32>, from: i32) -> Option<i32>
    decreases 31 - from,
{
    if from > 30 {
        None
    } else if used.contains(from) {
        free_id(used, (from + 1) as i32)
    } else {
        Some(from)
    }
}

/// What is told of a name that no layer can have.
pub open spec fn unknown_layer(name: Seq<char>) -> Seq<char> {
    "'"@ + name
        + "' is not a KiCAD layer name, and a board containing one cannot be opened. Names are fixed: F.Cu, B.Cu, In1.Cu..In30.Cu, User.1..User.45, and the technical layers (Edge.Cuts, F.Mask, …). To give a layer your own label, add the canonical layer and set its user name — `(53 \"User.8\" user \""@
        + name + "\")`."@
}

/// The entry of a layer.
pub open spec fn layer_entry(
    indent: Option<Seq<char>>,
    id: i32,
    name: Seq<char>,
    kind: Seq<char>,
) -> Seq<char> {
    "\n"@ + (match indent {
        Some(t) => t,
        None => "    "@,
    }) + "("@ + decimal(id as nat) + " \""@ + name + "\" "@ + kind + ")"@
}

/// A board with one more layer, or why it cannot have it.
pub open spec fn with_layer(
    s: Seq<char>,
    name: Seq<char>,
    kind: Seq<char>,
    canonical: bool,
    used: Seq<i32>,
) -> Result<(i32, Seq<char>), Seq<char>> {
    if !canonical {
        Err(unknown_layer(name))
    } else {
        match find_text(s, "(layers"@, 0) {
            None => Err("No (layers) section found"@),
            Some(open) => match free_id(used, 1) {
                None => Err("No free inner copper layer id: 1-30 are all in use"@),
                Some(id) => match block_close(s, open) {
                    Closing::At(close) => Ok(
                        (
                            id,
                            inserted(
                                s,
                                trimmed_end(s.take(close)).len() as int,
                                layer_entry(indent_of_entry(s, open), id, name, kind),
                            ),
                        ),
                    ),
                    _ => Err("Unbalanced (layers) block; refusing to write"@),
                },
            },
        }
    }
}

fn find_free_id(used: &Vec<i32>) -> (r: Option<i32>)
    ensures
        r == free_id(used@, 1),
        r matches Some(id) ==> 1 <= id <= 30 && !used@.contains(id),
{
    let mut id: i32 = 1;
    while id <= 30
        invariant
            1 <= id <= 31,
            free_id(used@, 1) == free_id(used@, id),
        decreases 31 - id,
    {
        let mut taken = false;
        let mut i: usize = 0;
        while i < used.len()
            invariant
                i <= used@.len(),
                taken <==> used@.take(i as int).contains(id),
            decreases used@.len() - i,
        {
            if used[i] == id {
                taken = true;
            }
            proof {
                assert(used@.take(i + 1) =~= used@.take(i as int).push(used@[i as int]));
                crate::seqs::lemma_contains_push(used@.take(i as int), used@[i as int], id);
            }
            i += 1;
        }
        proof {
            assert(used@.take(used@.len() as int) =~= used@);
        }
        if !taken {
            return Some(id);
        }
        id += 1;
    }
    None
}

proof fn lemma_trimmed_end_len(s: Seq<char>)
    ensures
        trimmed_end(s).len() <= s.len(),
        trimmed_end(s) == s.take(trimmed_end(s).len() as int),
    decreases s.len(),
{
    if s.len() > 0 && crate::text::is_space(s.last()) {
        lemma_trimmed_end_len(s.drop_last());
        assert(s.drop_last().take(trimmed_end(s).len() as int) =~= s.take(
            trimmed_end(s).len() as int,
        ));
    } else {
        assert(s.take(s.len() as int) =~= s);
    }
}

/// Adds a layer to the board. The entry stands behind the last one of the
/// block, in the style of the first. `canonical` says whether the name is one
/// of KiCad's, and `used` which ids the board has.
pub fn add_layer(
    content: &str,
    layer_name: &str,
    layer_type: &str,
    canonical: bool,
    used: &Vec<i32>,
) -> (r: Result<AddedLayer, String>)
    ensures
        match r {
            Ok(a) => with_layer(content@, layer_name@, layer_type@, canonical, used@) == Ok::<
                (i32, Seq<char>),
                Seq<char>,
            >((a.id, a.content@)) && 1 <= a.id <= 30 && !used@.contains(a.id),
            Err(e) => with_layer(content@, layer_name@, layer_type@, canonical, used@) == Err::<
                (i32, Seq<char>),
                Seq<char>,
            >(e@),
        },
{
    if !canonical {
        return Err(
            text::cat5(
                "'",
                layer_name,
                "' is not a KiCAD layer name, and a board containing one cannot be opened. Names are fixed: F.Cu, B.Cu, In1.Cu..In30.Cu, User.1..User.45, and the technical layers (Edge.Cuts, F.Mask, …). To give a layer your own label, add the canonical layer and set its user name — `(53 \"User.8\" user \"",
                layer_name,
                "\")`.",
            ),
        );
    }
    let chars = text::chars_of(content);
    let pat = text::chars_of("(layers");
    proof {
        reveal_strlit("(layers");
        text::lemma_find_text(content@, pat@, 0);
    }
    let open: usize = match text::find_from(&chars, &pat, 0) {
        Some(p) => p,
        None => return Err("No (layers) section found".to_owned()),
    };
    proof {
        assert(pat@[0] == '(');
        assert(content@.subrange(open as int, open + pat@.len())[0] == content@[open as int]);
        lemma_closing(content@, open + 1, 1, false, false);
    }
    let id: i32 = match find_free_id(used) {
        Some(id) => id,
        None => return Err("No free inner copper layer id: 1-30 are all in use".to_owned()),
    };
    let close: usize = match close_of_block(content, open) {
        Some(p) => p,
        None => return Err("Unbalanced (layers) block; refusing to write".to_owned()),
    };
    let head = text::slice_text(&chars, 0, close);
    proof {
        assert(head@ =~= content@.take(close as int));
        lemma_trimmed_end_len(head@);
    }
    let kept = text::trim_end(head.as_str());
    let at: usize = text::length(kept.as_str());
    let indent = match entry_indent(content, open) {
        Some(t) => t,
        None => "    ".to_owned(),
    };
    let number = text::decimal_text(id as u64);
    let mut entry = text::cat5("\n", indent.as_str(), "(", number.as_str(), " \"");
    entry.append(layer_name);
    entry.append("\" ");
    entry.append(layer_type);
    entry.append(")");
    let new_content = insert_at(content, at, entry.as_str());
    Ok(AddedLayer { id, content: new_content })
}

/// Where the scan of a block stands after the characters from `i` to `j`: how
/// deep it is, whether in a string, and whether behind a backslash there.
spec fn scanned(s: Seq<char>, i: int, j: int, depth: int, quoted: bool, escaped: bool) -> (
    int,
    bool,
    bool,
)
    decreases j - i,
{
    if i >= j {
        (depth, quoted, escaped)
    } else if quoted {
        if escaped {
            scanned(s, i + 1, j, depth, true, false)
        } else if s[i] == '\\' {
            scanned(s, i + 1, j, depth, true, true)
        } else {
            scanned(s, i + 1, j, depth, s[i] != '"', false)
        }
    } else if s[i] == '"' {
        scanned(s, i + 1, j, depth, true, false)
    } else if s[i] == '(' {
        scanned(s, i + 1, j, depth + 1, false, false)
    } else if s[i] == ')' {
        scanned(s, i + 1, j, depth - 1, false, false)
    } else {
        scanned(s, i + 1, j, depth, false, false)
    }
}

/// A block that does not close before `j` is scanned from there on, and a text
/// that begins alike is scanned alike.
proof fn lemma_scan_from(
    s: Seq<char>,
    t: Seq<char>,
    i: int,
    j: int,
    depth: nat,
    quoted: bool,
    escaped: bool,
    close: int,
)
    requires
        0 <= i <= j <= close,
        j <= t.len(),
        forall|k: int| i <= k < j ==> s[k] == t[k],
        closing(s, i, depth, quoted, escaped) == Closing::At(close),
    ensures
        ({
            let (d, q, e) = scanned(s, i, j, depth as int, quoted, escaped);
            &&& d >= 0
            &&& closing(s, j, d as nat, q, e) == Closing::At(close)
            &&& closing(t, i, depth, quoted, escaped) == closing(t, j, d as nat, q, e)
        }),
    decreases j - i,
{
    lemma_closing(s, i, depth, quoted, escaped);
    if i < j {
        if quoted {
            if escaped {
                lemma_scan_from(s, t, i + 1, j, depth, true, false, close);
            } else if s[i] == '\\' {
                lemma_scan_from(s, t, i + 1, j, depth, true, true, close);
            } else {
                lemma_scan_from(s, t, i + 1, j, depth, s[i] != '"', false, close);
            }
        } else if s[i] == '"' {
            lemma_scan_from(s, t, i + 1, j, depth, true, false, close);
        } else if s[i] == '(' {
            lemma_scan_from(s, t, i + 1, j, depth + 1, false, false, close);
        } else if s[i] == ')' {
            lemma_scan_from(s, t, i + 1, j, (depth - 1) as nat, false, false, close);
        } else {
            lemma_scan_from(s, t, i + 1, j, depth, false, false, close);
        }
    }
}

/// A run of characters in a string that neither end it nor escape anything
/// stays in the string.
proof fn lemma_scan_quoted(s: Seq<char>, i: int, j: int, depth: nat)
    requires
        0 <= i <= j <= s.len(),
        forall|k: int| i <= k < j ==> s[k] != '"' && s[k] != '\\',
    ensures
        closing(s, i, depth, true, false) == closing(s, j, depth, true, false),
    decreases j - i,
{
    if i < j {
        lemma_scan_quoted(s, i + 1, j, depth);
    }
}

/// Blanks before a closing parenthesis: where a block closes there, it was one
/// deep and in no string before them.
proof fn lemma_before_close(
    s: Seq<char>,
    at: int,
    close: int,
    depth: nat,
    quoted: bool,
    escaped: bool,
)
    requires
        0 <= at <= close < s.len(),
        s[close] == ')',
        forall|k: int| at <= k < close ==> crate::text::is_space(#[trigger] s[k]),
        closing(s, at, depth, quoted, escaped) == Closing::At(close),
    ensures
        depth == 1 && !quoted,
    decreases close - at,
{
    if at < close {
        assert(crate::text::is_space(s[at]));
        if quoted {
            if escaped {
                lemma_before_close(s, at + 1, close, depth, true, false);
            } else {
                lemma_before_close(s, at + 1, close, depth, true, false);
            }
        } else {
            lemma_before_close(s, at + 1, close, depth, false, false);
        }
    } else if quoted {
        lemma_closing(s, at + 1, depth, true, false);
    } else {
        if depth > 1 {
            lemma_closing(s, at + 1, (depth - 1) as nat, false, false);
        }
    }
}

/// What a trimmed end leaves off is white space.
proof fn lemma_trimmed_off(s: Seq<char>, k: int)
    requires
        trimmed_end(s).len() <= k < s.len(),
    ensures
        crate::text::is_space(s[k]),
    decreases s.len(),
{
    if s.len() > 0 && crate::text::is_space(s.last()) && k < s.len() - 1 {
        lemma_trimmed_off(s.drop_last(), k);
    }
}

proof fn lemma_decimal_is_plain(n: nat, k: int)
    requires
        0 <= k < decimal(n).len(),
    ensures
        decimal(n)[k] != '(' && decimal(n)[k] != ')' && decimal(n)[k] != '"',
    decreases n,
{
    if n >= 10 && k < decimal(n).len() - 1 {
        lemma_decimal_is_plain(n / 10, k);
    }
}

proof fn lemma_indent_is_blank(s: Seq<char>, open: int, k: int)
    requires
        0 <= open <= s.len(),
        indent_of_entry(s, open) matches Some(t) && 0 <= k < t.len(),
    ensures
        ({
            let c = indent_of_entry(s, open)->0[k];
            c == ' ' || c == '\t'
        }),
{
    let nl = next_of(s, '\n', open);
    lemma_next_of_range(s, '\n', open);
    lemma_blanks(s, nl + 1, nl + 1 + k);
}

proof fn lemma_blanks(s: Seq<char>, i: int, k: int)
    requires
        0 <= i <= k < blanks_end(s, i),
    ensures
        k < s.len(),
        s[k] == ' ' || s[k] == '\t',
    decreases s.len() - i,
{
    if i < k {
        lemma_blanks(s, i + 1, k);
    }
}

/// The entry of a layer is a block of its own: behind it the scan stands where
/// it stood before it.
#[verifier::rlimit(60)]
proof fn lemma_entry_is_balanced(
    t: Seq<char>,
    at: int,
    lead: Seq<char>,
    id: i32,
    name: Seq<char>,
    kind: Seq<char>,
)
    requires
        0 <= at,
        id >= 0,
        forall|k: int| 0 <= k < lead.len() ==> lead[k] == ' ' || lead[k] == '\t',
        !name.contains('"') && !name.contains('\\'),
        !kind.contains('(') && !kind.contains(')') && !kind.contains('"'),
        at + layer_entry(Some(lead), id, name, kind).len() <= t.len(),
        t.subrange(at, at + layer_entry(Some(lead), id, name, kind).len()) == layer_entry(
            Some(lead),
            id,
            name,
            kind,
        ),
    ensures
        closing(t, at, 1, false, false) == closing(
            t,
            at + layer_entry(Some(lead), id, name, kind).len(),
            1,
            false,
            false,
        ),
{
    let entry = layer_entry(Some(lead), id, name, kind);
    let number = decimal(id as nat);
    reveal_strlit("\n");
    reveal_strlit("(");
    reveal_strlit(" \"");
    reveal_strlit("\" ");
    reveal_strlit(")");
    let a = at + 1 + lead.len();
    let b = a + 1 + number.len() + 1;
    let c = b + 1 + name.len();
    let d = c + 2 + kind.len();
    assert(entry.len() == d + 1 - at);
    assert forall|k: int| at <= k < at + entry.len() implies t[k] == entry[k - at] by {
        assert(t.subrange(at, at + entry.len())[k - at] == t[k]);
    }
    assert forall|k: int| at <= k < a implies t[k] != '(' && t[k] != ')' && t[k] != '"' by {
        if k > at {
            assert(t[k] == lead[k - at - 1]);
        }
    }
    lemma_scan_plain(t, at, a, 1);
    assert(t[a] == '(');
    assert forall|k: int| a + 1 <= k < b implies t[k] != '(' && t[k] != ')' && t[k] != '"' by {
        if k < b - 1 {
            assert(t[k] == number[k - a - 1]);
            lemma_decimal_is_plain(id as nat, k - a - 1);
        } else {
            assert(t[k] == ' ');
        }
    }
    lemma_scan_plain(t, a + 1, b, 2);
    assert(t[b] == '"');
    assert forall|k: int| b + 1 <= k < c implies t[k] != '"' && t[k] != '\\' by {
        assert(t[k] == name[k - b - 1]);
    }
    lemma_scan_quoted(t, b + 1, c, 2);
    assert(t[c] == '"');
    assert forall|k: int| c + 1 <= k < d implies t[k] != '(' && t[k] != ')' && t[k] != '"' by {
        if k == c + 1 {
            assert(t[k] == ' ');
        } else {
            assert(t[k] == kind[k - c - 2]);
        }
    }
    lemma_scan_plain(t, c + 1, d, 2);
    assert(t[d] == ')');
}

/// A layer is added inside its block: the block opens where it opened, and
/// closes as much later as the entry is long. So no entry ends up within
/// another, however the text is indented.
pub proof fn law_new_layer_stays_in_its_block(
    s: Seq<char>,
    name: Seq<char>,
    kind: Seq<char>,
    used: Seq<i32>,
)
    requires
        !name.contains('"') && !name.contains('\\'),
        !kind.contains('(') && !kind.contains(')') && !kind.contains('"'),
        with_layer(s, name, kind, true, used) is Ok,
    ensures
        ({
            let t = with_layer(s, name, kind, true, used)->Ok_0.1;
            let open = find_text(s, "(layers"@, 0)->0;
            &&& find_text(t, "(layers"@, 0) == Some(open)
            &&& block_close(s, open) matches Closing::At(close) && block_close(t, open)
                == Closing::At(close + (t.len() - s.len()))
        }),
{
    let pat = "(layers"@;
    let (id, t) = with_layer(s, name, kind, true, used)->Ok_0;
    let open = find_text(s, pat, 0)->0;
    let close = block_close(s, open)->At_0;
    let head = s.take(close);
    let at = trimmed_end(head).len() as int;
    let entry = layer_entry(indent_of_entry(s, open), id, name, kind);
    reveal_strlit("(layers");
    text::lemma_find_text(s, pat, 0);
    lemma_free_id(used, 1);
    let found = s.subrange(open, open + pat.len());
    assert(found[0] == '(' && found[1] == 'l' && found[2] == 'a' && found[3] == 'y' && found[4]
        == 'e' && found[5] == 'r' && found[6] == 's');
    lemma_closing(s, open + 1, 1, false, false);
    assert(block_close(s, open) == closing(s, open + 1, 1, false, false));
    assert forall|k: int| open + 1 <= k < open + 7 implies s[k] != '(' && s[k] != ')' && s[k]
        != '"' by {
        assert(s[k] == found[k - open]);
    }
    lemma_scan_plain(s, open + 1, open + 7, 1);
    lemma_closing(s, open + 7, 1, false, false);
    assert(open + 7 <= close);
    lemma_trimmed_end_len(head);
    if at <= open + 6 {
        lemma_trimmed_off(head, open + 6);
        assert(head[open + 6] == found[6]);
    }
    assert(t == inserted(s, at, entry));
    assert forall|k: int| 0 <= k < at implies s[k] == t[k] by {}
    // The name of the block stands where it stood.
    assert(t.subrange(open, open + pat.len()) =~= pat) by {
        assert(found =~= t.subrange(open, open + pat.len()));
    }
    assert forall|j: int| 0 <= j < open implies !#[trigger] occurs_at(t, pat, j) by {
        if occurs_at(t, pat, j) {
            assert(t.subrange(j, j + pat.len()) =~= s.subrange(j, j + pat.len()));
            assert(occurs_at(s, pat, j));
        }
    }
    assert(occurs_at(t, pat, open));
    lemma_first_found(t, pat, 0, open);
    // The scan reaches the insertion one deep, and leaves it so.
    lemma_scan_from(s, t, open, at, 0, false, false, close);
    let (d, q, e) = scanned(s, open, at, 0, false, false);
    assert forall|k: int| at <= k < close implies crate::text::is_space(#[trigger] s[k]) by {
        lemma_trimmed_off(head, k);
        assert(head[k] == s[k]);
    }
    lemma_before_close(s, at, close, d as nat, q, e);
    let lead = match indent_of_entry(s, open) {
        Some(l) => l,
        None => "    "@,
    };
    assert forall|k: int| 0 <= k < lead.len() implies lead[k] == ' ' || lead[k] == '\t' by {
        if indent_of_entry(s, open) is Some {
            lemma_indent_is_blank(s, open, k);
        } else {
            reveal_strlit("    ");
        }
    }
    assert(entry == layer_entry(Some(lead), id, name, kind));
    assert(t.subrange(at, at + entry.len()) =~= entry);
    lemma_entry_is_balanced(t, at, lead, id, name, kind);
    assert(closing(t, at, 1, q, e) == closing(t, at, 1, false, false));
    // Behind it come the blanks and the parenthesis.
    let n = entry.len() as int;
    assert forall|k: int| at + n <= k < close + n implies t[k] != '(' && t[k] != ')' && t[k]
        != '"' by {
        assert(t[k] == s[k - n]);
        assert(crate::text::is_space(s[k - n]));
    }
    assert(t[close + n] == s[close]);
    lemma_scan_plain(t, at + n, close + n, 1);
}

proof fn lemma_free_id(used: Seq<i32>, from: i32)
    requires
        1 <= from,
    ensures
        free_id(used, from) matches Some(id) ==> from <= id <= 30 && !used.contains(id),
    decreases 31 - from,
{
    if from <= 30 && used.contains(from) {
        lemma_free_id(used, (from + 1) as i32);
    }
}

// ─── Active layer ─────────────────────────────────────────────────────────

/// Where the active layer is inserted: at the end of the line of the setup
/// block, or else where an item is appended.
pub open spec fn setup_position(s: Seq<char>) -> int {
    match find_text(s, "(setup"@, 0) {
        Some(p) => if next_of(s, '\n', p) < s.len() {
            next_of(s, '\n', p)
        } else {
            append_position(s)
        },
        None => append_position(s),
    }
}

/// The end of what is replaced at `after`: the next closing parenthesis.
pub open spec fn value_end(s: Seq<char>, after: int) -> int {
    if next_of(s, ')', after) < s.len() {
        next_of(s, ')', after)
    } else {
        after
    }
}

/// A board with that active layer.
pub open spec fn with_active_layer(s: Seq<char>, layer: Seq<char>) -> Seq<char> {
    match find_text(s, "(active_layer "@, 0) {
        Some(p) => {
            let after = p + "(active_layer "@.len();
            s.take(after) + ("\""@ + layer + "\""@) + s.skip(value_end(s, after))
        },
        None => inserted(
            s,
            setup_position(s),
            "\n    (active_layer \""@ + layer + "\")"@,
        ),
    }
}

/// The board's active layer: what stands behind its name, up to the next
/// closing parenthesis.
pub open spec fn active_layer(s: Seq<char>) -> Option<Seq<char>> {
    match find_text(s, "(active_layer "@, 0) {
        Some(p) => {
            let after = p + "(active_layer "@.len();
            Some(s.subrange(after, value_end(s, after)))
        },
        None => None,
    }
}

/// Sets the board's active layer.
pub fn set_active_layer(content: &str, layer: &str) -> (r: String)
    ensures
        r@ == with_active_layer(content@, layer@),
{
    let chars = text::chars_of(content);
    let len: usize = chars.len();
    let pat = text::chars_of("(active_layer ");
    proof {
        text::lemma_find_text(content@, pat@, 0);
    }
    if let Some(p) = text::find_from(&chars, &pat, 0) {
        let after: usize = p + pat.len();
        let close: usize = text::find_char(&chars, ')', after);
        let end: usize = if close < len { close } else { after };
        let before = text::slice_text(&chars, 0, after);
        let rest = text::slice_text(&chars, end, len);
        let value = text::cat3("\"", layer, "\"");
        proof {
            assert(content@.subrange(0, after as int) =~= content@.take(after as int));
            assert(content@.subrange(end as int, len as int) =~= content@.skip(end as int));
        }
        return text::cat3(before.as_str(), value.as_str(), rest.as_str());
    }
    let setup = text::chars_of("(setup");
    proof {
        text::lemma_find_text(content@, setup@, 0);
    }
    let fallback: usize = append_at(content);
    let at: usize = match text::find_from(&chars, &setup, 0) {
        Some(p) => {
            let nl: usize = text::find_char(&chars, '\n', p);
            if nl < len {
                nl
            } else {
                fallback
            }
        },
        None => fallback,
    };
    let entry = text::cat3("\n    (active_layer \"", layer, "\")");
    insert_at(content, at, entry.as_str())
}

proof fn lemma_next_of(s: Seq<char>, c: char, from: int, at: int)
    requires
        0 <= from <= at < s.len(),
        s[at] == c,
        forall|k: int| from <= k < at ==> s[k] != c,
    ensures
        next_of(s, c, from) == at,
    decreases at - from,
{
    if from < at {
        lemma_next_of(s, c, from + 1, at);
    }
}

proof fn lemma_next_of_range(s: Seq<char>, c: char, from: int)
    requires
        0 <= from <= s.len(),
    ensures
        from <= next_of(s, c, from) <= s.len(),
    decreases s.len() - from,
{
    if from < s.len() && s[from] != c {
        lemma_next_of_range(s, c, from + 1);
    }
}

proof fn lemma_next_of_found(s: Seq<char>, c: char, from: int)
    requires
        0 <= from,
        next_of(s, c, from) < s.len(),
    ensures
        from <= next_of(s, c, from),
        s[next_of(s, c, from)] == c,
    decreases s.len() - from,
{
    if from < s.len() && s[from] != c {
        lemma_next_of_found(s, c, from + 1);
    }
}

proof fn lemma_first_found(s: Seq<char>, p: Seq<char>, from: int, at: int)
    requires
        0 <= from <= at,
        occurs_at(s, p, at),
        forall|j: int| from <= j < at ==> !#[trigger] occurs_at(s, p, j),
    ensures
        find_text(s, p, from) == Some(at),
    decreases at - from,
{
    if from < at {
        assert(!occurs_at(s, p, from));
        lemma_first_found(s, p, from + 1, at);
    }
}

/// A text in which the name first stands behind `pre`, and behind it a quoted
/// layer and a closing parenthesis, has that active layer.
proof fn lemma_active_layer_reads(pre: Seq<char>, layer: Seq<char>, rest: Seq<char>)
    requires
        !layer.contains(')'),
        rest.len() > 0 && rest[0] == ')',
        forall|j: int|
            0 <= j < pre.len() ==> !#[trigger] occurs_at(
                pre + "(active_layer "@ + ("\""@ + layer + "\""@) + rest,
                "(active_layer "@,
                j,
            ),
    ensures
        ({
            let t = pre + "(active_layer "@ + ("\""@ + layer + "\""@) + rest;
            &&& active_layer(t) == Some("\""@ + layer + "\""@)
            &&& with_active_layer(t, layer) == t
        }),
{
    let pat = "(active_layer "@;
    let value = "\""@ + layer + "\""@;
    let t = pre + pat + value + rest;
    let after = pre.len() + pat.len();
    let close = after + value.len();
    reveal_strlit("\"");
    assert(t.subrange(pre.len() as int, after as int) =~= pat);
    assert(occurs_at(t, pat, pre.len() as int));
    lemma_first_found(t, pat, 0, pre.len() as int);
    assert(t[close as int] == rest[0]);
    assert forall|k: int| after <= k < close implies t[k] != ')' by {
        assert(t[k] == value[k - after]);
        if 0 < k - after < value.len() - 1 {
            assert(value[k - after] == layer[k - after - 1]);
        }
    }
    lemma_next_of(t, ')', after as int, close as int);
    assert(t.subrange(after as int, close as int) =~= value);
    assert(t.take(after as int) + value + t.skip(close as int) =~= t);
}

/// The active layer that was set is the one that the board then has, and
/// setting it once more changes nothing.
pub proof fn law_active_layer_is_read_back(s: Seq<char>, layer: Seq<char>)
    requires
        !layer.contains(')'),
        find_text(s, "(active_layer "@, 0) matches Some(p) ==> next_of(
            s,
            ')',
            p + "(active_layer "@.len(),
        ) < s.len(),
    ensures
        active_layer(with_active_layer(s, layer)) == Some("\""@ + layer + "\""@),
        with_active_layer(with_active_layer(s, layer), layer) == with_active_layer(s, layer),
{
    let pat = "(active_layer "@;
    text::lemma_find_text(s, pat, 0);
    match find_text(s, pat, 0) {
        Some(p) => lemma_active_layer_replaced(s, layer, p),
        None => lemma_active_layer_inserted(s, layer),
    }
}

proof fn lemma_active_layer_replaced(s: Seq<char>, layer: Seq<char>, p: int)
    requires
        !layer.contains(')'),
        find_text(s, "(active_layer "@, 0) == Some(p),
        next_of(s, ')', p + "(active_layer "@.len()) < s.len(),
    ensures
        active_layer(with_active_layer(s, layer)) == Some("\""@ + layer + "\""@),
        with_active_layer(with_active_layer(s, layer), layer) == with_active_layer(s, layer),
{
    let pat = "(active_layer "@;
    let value = "\""@ + layer + "\""@;
    text::lemma_find_text(s, pat, 0);
    let after = p + pat.len();
    let rest = s.skip(value_end(s, after));
    lemma_next_of_found(s, ')', after);
    let pre = s.take(p);
    let t = with_active_layer(s, layer);
    assert(s.take(after) =~= pre + pat);
    assert(t =~= pre + pat + value + rest);
    assert forall|j: int| 0 <= j < pre.len() implies !#[trigger] occurs_at(t, pat, j) by {
        if occurs_at(t, pat, j) {
            assert(s.subrange(j, j + pat.len()) =~= t.subrange(j, j + pat.len()));
            assert(occurs_at(s, pat, j));
        }
    }
    lemma_active_layer_reads(pre, layer, rest);
}

proof fn lemma_active_layer_inserted(s: Seq<char>, layer: Seq<char>)
    requires
        !layer.contains(')'),
        find_text(s, "(active_layer "@, 0) is None,
    ensures
        active_layer(with_active_layer(s, layer)) == Some("\""@ + layer + "\""@),
        with_active_layer(with_active_layer(s, layer), layer) == with_active_layer(s, layer),
{
    let pat = "(active_layer "@;
    let value = "\""@ + layer + "\""@;
    text::lemma_find_text(s, pat, 0);
    text::lemma_find_text(s, "(setup"@, 0);
    text::lemma_last_of_range(s, ')');
    if let Some(q) = find_text(s, "(setup"@, 0) {
        lemma_next_of_range(s, '\n', q);
    }
    let b = setup_position(s);
    let pre = s.take(b) + seq!['\n', ' ', ' ', ' ', ' '];
    let rest = seq![')'] + s.skip(b);
    let t = with_active_layer(s, layer);
    assert("\n    (active_layer \""@ + layer + "\")"@ =~= seq!['\n', ' ', ' ', ' ', ' '] + pat
        + value + seq![')']) by {
        reveal_strlit("\n    (active_layer \"");
        reveal_strlit("(active_layer ");
        reveal_strlit("\"");
        reveal_strlit("\")");
    }
    assert(t =~= pre + pat + value + rest);
    assert forall|j: int| 0 <= j < pre.len() implies !#[trigger] occurs_at(t, pat, j) by {
        reveal_strlit("(active_layer ");
        if occurs_at(t, pat, j) {
            let found = t.subrange(j, j + pat.len());
            if j + pat.len() <= b {
                assert(s.subrange(j, j + pat.len()) =~= found);
                assert(occurs_at(s, pat, j));
            } else if j <= b {
                assert(t[b] == '\n');
                assert(found[b - j] == '\n');
                assert(pat[b - j] != '\n');
            } else {
                assert(t[j] == ' ');
                assert(found[0] == ' ');
            }
        }
    }
    lemma_active_layer_reads(pre, layer, rest);
}

// ─── Laws on insertions ───────────────────────────────────────────────────

/// An insertion adds a text at its place and changes nothing before or behind
/// it.
pub proof fn law_insertion_keeps_the_text(s: Seq<char>, at: int, t: Seq<char>)
    requires
        0 <= at <= s.len(),
    ensures
        inserted(s, at, t).len() == s.len() + t.len(),
        inserted(s, at, t).take(at) == s.take(at),
        inserted(s, at, t).subrange(at, at + t.len()) == t,
        inserted(s, at, t).skip(at + t.len()) == s.skip(at),
{
    assert(inserted(s, at, t).take(at) =~= s.take(at));
    assert(inserted(s, at, t).subrange(at, at + t.len()) =~= t);
    assert(inserted(s, at, t).skip(at + t.len()) =~= s.skip(at));
}

proof fn lemma_last_close(s: Seq<char>)
    ensures
        match last_of(s, ')') {
            Some(i) => 0 <= i < s.len() && s[i] == ')' && forall|k: int|
                i < k < s.len() ==> #[trigger] s[k] != ')',
            None => forall|k: int| 0 <= k < s.len() ==> #[trigger] s[k] != ')',
        },
    decreases s.len(),
{
    if s.len() > 0 && s.last() != ')' {
        let rest = s.drop_last();
        lemma_last_close(rest);
        assert forall|k: int| 0 <= k < rest.len() implies #[trigger] s[k] == rest[k] by {}
    }
}

/// An item is appended inside the document: what was its last closing
/// parenthesis stands right behind the item, and no other follows it.
pub proof fn law_items_are_appended_inside(s: Seq<char>, item: Seq<char>)
    requires
        s.contains(')'),
    ensures
        ({
            let t = inserted(s, append_position(s), item);
            let after = append_position(s) + item.len();
            &&& 0 <= append_position(s) < s.len()
            &&& t[after] == ')'
            &&& forall|k: int| after < k < t.len() ==> #[trigger] t[k] != ')'
        }),
{
    lemma_last_close(s);
    let i = s.index_of(')');
    assert(s[i] == ')');
    let at = append_position(s);
    let t = inserted(s, at, item);
    assert forall|k: int| at + item.len() < k < t.len() implies #[trigger] t[k] != ')' by {
        assert(t[k] == s[k - item.len()]);
    }
}

proof fn lemma_first_free_id(used: Seq<i32>, from: i32)
    requires
        1 <= from <= 31,
    ensures
        match free_id(used, from) {
            Some(id) => from <= id <= 30 && !used.contains(id) && forall|k: i32|
                from <= k < id ==> #[trigger] used.contains(k),
            None => forall|k: i32| from <= k <= 30 ==> #[trigger] used.contains(k),
        },
    decreases 31 - from,
{
    if from <= 30 && used.contains(from) {
        lemma_first_free_id(used, (from + 1) as i32);
    }
}

/// A new layer gets the lowest id from 1 to 30 that no layer has, and is refused
/// where all of them are taken.
pub proof fn law_new_layers_get_the_lowest_free_id(used: Seq<i32>)
    ensures
        match free_id(used, 1) {
            Some(id) => 1 <= id <= 30 && !used.contains(id) && forall|k: i32|
                1 <= k < id ==> #[trigger] used.contains(k),
            None => forall|k: i32| 1 <= k <= 30 ==> #[trigger] used.contains(k),
        },
{
    lemma_first_free_id(used, 1);
}

/// A layer is added exactly under a name that layers have, to a board whose
/// layers section closes, while an id is free.
pub proof fn law_layers_that_can_be_added(
    s: Seq<char>,
    name: Seq<char>,
    kind: Seq<char>,
    canonical: bool,
    used: Seq<i32>,
)
    ensures
        with_layer(s, name, kind, canonical, used) is Ok <==> {
            &&& canonical
            &&& find_text(s, "(layers"@, 0) matches Some(open) && block_close(s, open) is At
            &&& exists|k: i32| 1 <= k <= 30 && !#[trigger] used.contains(k)
        },
{
    lemma_first_free_id(used, 1);
    match free_id(used, 1) {
        Some(id) => {
            assert(!used.contains(id));
        },
        None => {},
    }
}

} // verus!
