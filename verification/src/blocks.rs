//! Blocks in the text of a document: what stands in parentheses, where those in
//! strings do not count.
use crate::text::{self, occurs_at};
use vstd::prelude::*;

verus! {

// ─── Closes ───────────────────────────────────────────────────────────────

/// Where a block closes: at a position, never, or before it has opened.
pub ghost enum Closing {
    At(int),
    Never,
    Stray,
}

/// Where the block that is `depth` parentheses deep at `i` closes. Parentheses
/// in quoted strings do not count, and a backslash in a string takes the next
/// character with it.
pub open spec fn closing(
    s: Seq<char>,
    i: int,
    depth: nat,
    quoted: bool,
    escaped: bool,
) -> Closing
    decreases s.len() - i,
{
    if i < 0 || i >= s.len() {
        Closing::Never
    } else if quoted {
        if escaped {
            closing(s, i + 1, depth, true, false)
        } else if s[i] == '\\' {
            closing(s, i + 1, depth, true, true)
        } else {
            closing(s, i + 1, depth, s[i] != '"', false)
        }
    } else if s[i] == '"' {
        closing(s, i + 1, depth, true, false)
    } else if s[i] == '(' {
        closing(s, i + 1, depth + 1, false, false)
    } else if s[i] == ')' {
        if depth == 0 {
            Closing::Stray
        } else if depth == 1 {
            Closing::At(i)
        } else {
            closing(s, i + 1, (depth - 1) as nat, false, false)
        }
    } else {
        closing(s, i + 1, depth, false, false)
    }
}

/// Where the block that opens at `open_pos` closes.
pub open spec fn block_close(s: Seq<char>, open_pos: int) -> Closing {
    closing(s, open_pos, 0, false, false)
}

/// A block that has opened is not closed before it opens, and its close is a
/// parenthesis further on.
pub proof fn lemma_closing(s: Seq<char>, i: int, depth: nat, quoted: bool, escaped: bool)
    requires
        0 <= i,
    ensures
        depth > 0 ==> !(closing(s, i, depth, quoted, escaped) is Stray),
        closing(s, i, depth, quoted, escaped) matches Closing::At(c) ==> i <= c < s.len() && s[c]
            == ')',
    decreases s.len() - i,
{
    if i < s.len() {
        if quoted {
            if escaped {
                lemma_closing(s, i + 1, depth, true, false);
            } else if s[i] == '\\' {
                lemma_closing(s, i + 1, depth, true, true);
            } else {
                lemma_closing(s, i + 1, depth, s[i] != '"', false);
            }
        } else if s[i] == '"' {
            lemma_closing(s, i + 1, depth, true, false);
        } else if s[i] == '(' {
            lemma_closing(s, i + 1, depth + 1, false, false);
        } else if s[i] == ')' {
            if depth > 1 {
                lemma_closing(s, i + 1, (depth - 1) as nat, false, false);
            }
        } else {
            lemma_closing(s, i + 1, depth, false, false);
        }
    }
}

/// A block at whose position a parenthesis opens closes no earlier.
pub proof fn lemma_open_block_is_not_stray(s: Seq<char>, at: int)
    requires
        0 <= at < s.len(),
        s[at] == '(',
    ensures
        !(block_close(s, at) is Stray),
{
    lemma_closing(s, at + 1, 1, false, false);
}

/// A run of characters that are neither parentheses nor quotation marks does
/// not change where a block stands.
pub(crate) proof fn lemma_scan_plain(s: Seq<char>, i: int, j: int, depth: nat)
    requires
        0 <= i <= j <= s.len(),
        forall|k: int| i <= k < j ==> s[k] != '(' && s[k] != ')' && s[k] != '"',
    ensures
        closing(s, i, depth, false, false) == closing(s, j, depth, false, false),
    decreases j - i,
{
    if i < j {
        lemma_scan_plain(s, i + 1, j, depth);
    }
}

/// Position of the parenthesis that closes the block that opens at `open_pos`;
/// `None` where the text ends first.
pub fn close_in(chars: &Vec<char>, open_pos: usize) -> (r: Option<usize>)
    requires
        open_pos <= chars@.len(),
        !(block_close(chars@, open_pos as int) is Stray),
    ensures
        match r {
            Some(c) => block_close(chars@, open_pos as int) == Closing::At(c as int) && open_pos
                <= c < chars@.len() && chars@[c as int] == ')',
            None => block_close(chars@, open_pos as int) == Closing::Never,
        },
{
    let len: usize = chars.len();
    let mut depth: usize = 0;
    let mut quoted = false;
    let mut escaped = false;
    let mut i: usize = open_pos;
    while i < len
        invariant
            len == chars@.len(),
            open_pos <= i <= len,
            depth <= i - open_pos,
            !(block_close(chars@, open_pos as int) is Stray),
            block_close(chars@, open_pos as int) == closing(
                chars@,
                i as int,
                depth as nat,
                quoted,
                escaped,
            ),
        decreases len - i,
    {
        let c: char = chars[i];
        if quoted {
            if escaped {
                escaped = false;
            } else if c == '\\' {
                escaped = true;
            } else if c == '"' {
                quoted = false;
            }
        } else if c == '"' {
            quoted = true;
            escaped = false;
        } else if c == '(' {
            depth += 1;
            escaped = false;
        } else if c == ')' {
            escaped = false;
            depth -= 1;
            if depth == 0 {
                return Some(i);
            }
        } else {
            escaped = false;
        }
        i += 1;
    }
    None
}

// ─── Strings ──────────────────────────────────────────────────────────────

/// Whether the text is in a string behind a character, and whether the next one
/// is escaped there.
pub open spec fn stepped(quoted: bool, escaped: bool, c: char) -> (bool, bool) {
    if !quoted {
        (c == '"', false)
    } else if escaped {
        (true, false)
    } else if c == '\\' {
        (true, true)
    } else {
        (c != '"', false)
    }
}

/// Whether the text is in a string before `i`, and whether the character at `i`
/// is escaped there.
pub open spec fn string_state(s: Seq<char>, i: int) -> (bool, bool)
    decreases i,
{
    if i <= 0 {
        (false, false)
    } else {
        let before = string_state(s, i - 1);
        stepped(before.0, before.1, s[i - 1])
    }
}

/// Whether the text is in a string before `i`.
pub open spec fn in_string(s: Seq<char>, i: int) -> bool {
    string_state(s, i).0
}

pub(crate) fn step(quoted: bool, escaped: bool, c: char) -> (r: (bool, bool))
    ensures
        r == stepped(quoted, escaped, c),
{
    if !quoted {
        (c == '"', false)
    } else if escaped {
        (true, false)
    } else if c == '\\' {
        (true, true)
    } else {
        (c != '"', false)
    }
}

/// Whether the text is in a string before `at`.
pub(crate) fn is_in_string(chars: &Vec<char>, at: usize) -> (r: bool)
    requires
        at <= chars@.len(),
    ensures
        r == in_string(chars@, at as int),
{
    let mut quoted = false;
    let mut escaped = false;
    let mut i: usize = 0;
    while i < at
        invariant
            i <= at <= chars@.len(),
            (quoted, escaped) == string_state(chars@, i as int),
        decreases at - i,
    {
        let (q, e) = step(quoted, escaped, chars[i]);
        quoted = q;
        escaped = e;
        i += 1;
    }
    quoted
}

// ─── Heads ────────────────────────────────────────────────────────────────

/// Whether the head of a block ends before the character.
pub open spec fn ends_head(c: char) -> bool {
    c == ' ' || c == '\t' || c == '\n' || c == '\r' || c == '('
}

/// Whether a block with that head, the opening parenthesis with it, opens at
/// `i`.
pub open spec fn opens_block(s: Seq<char>, head: Seq<char>, i: int) -> bool {
    &&& occurs_at(s, head, i)
    &&& !in_string(s, i)
    &&& i + head.len() < s.len()
    &&& ends_head(s[i + head.len()])
}

/// Whether a block with that head opens at `i`, which is in a string or not.
pub(crate) fn opens_here(chars: &Vec<char>, head: &Vec<char>, i: usize, quoted: bool) -> (r: bool)
    requires
        quoted == in_string(chars@, i as int),
    ensures
        r == opens_block(chars@, head@, i as int),
        r ==> i + head@.len() < chars@.len(),
{
    let len: usize = chars.len();
    if quoted || !text::matches_at(chars, head, i) {
        return false;
    }
    proof {
        assert(i + head@.len() <= len);
    }
    let end: usize = i + head.len();
    if end >= len {
        return false;
    }
    let c: char = chars[end];
    c == ' ' || c == '\t' || c == '\n' || c == '\r' || c == '('
}

/// How many more parentheses open than close from `i` on and before `j`.
pub open spec fn open_parens(s: Seq<char>, i: int, j: int) -> int
    decreases j - i,
{
    if i >= j {
        0
    } else {
        open_parens(s, i, j - 1) + (if s[j - 1] == '(' {
            1int
        } else if s[j - 1] == ')' {
            -1
        } else {
            0
        })
    }
}

proof fn lemma_parens_step(s: Seq<char>, i: int, j: int)
    requires
        i < j,
    ensures
        open_parens(s, i, j) == open_parens(s, i + 1, j) + (if s[i] == '(' {
            1int
        } else if s[i] == ')' {
            -1
        } else {
            0
        }),
    decreases j - i,
{
    if i + 1 < j {
        lemma_parens_step(s, i, j - 1);
    } else {
        assert(open_parens(s, i, i) == 0);
        assert(open_parens(s, i + 1, i + 1) == 0);
    }
}

proof fn lemma_closing_is_balanced(s: Seq<char>, i: int, depth: nat)
    requires
        0 <= i,
        forall|k: int| i <= k < s.len() ==> #[trigger] s[k] != '"',
    ensures
        closing(s, i, depth, false, false) matches Closing::At(c) ==> {
            &&& i <= c < s.len()
            &&& s[c] == ')'
            &&& depth + open_parens(s, i, c + 1) == 0
            &&& forall|k: int|
                i < k <= c && (depth > 0 || s[i] == '(') ==> depth + #[trigger] open_parens(s, i, k)
                    > 0
        },
    decreases s.len() - i,
{
    if i < s.len() {
        let next = if s[i] == '(' {
            depth as int + 1
        } else if s[i] == ')' {
            depth - 1
        } else {
            depth as int
        };
        if closing(s, i, depth, false, false) is At {
            let c = closing(s, i, depth, false, false)->At_0;
            if s[i] == ')' && depth == 1 {
                assert(open_parens(s, i, i) == 0);
                assert(open_parens(s, i, i + 1) == -1);
            } else {
                lemma_closing_is_balanced(s, i + 1, next as nat);
                assert forall|k: int|
                    i < k <= c && (depth > 0 || s[i] == '(') implies depth + #[trigger] open_parens(
                    s,
                    i,
                    k,
                ) > 0 by {
                    lemma_parens_step(s, i, k);
                    if k > i + 1 {
                        assert(next as nat + open_parens(s, i + 1, k) > 0);
                    } else {
                        assert(open_parens(s, i + 1, i + 1) == 0);
                    }
                }
                lemma_parens_step(s, i, c + 1);
            }
        }
    }
}

/// A block closes where its parentheses balance for the first time.
pub proof fn law_blocks_close_where_they_balance(s: Seq<char>, open_pos: int, c: int)
    requires
        0 <= open_pos < s.len(),
        s[open_pos] == '(',
        forall|k: int| open_pos <= k < s.len() ==> #[trigger] s[k] != '"',
        block_close(s, open_pos) == Closing::At(c),
    ensures
        open_pos < c < s.len(),
        s[c] == ')',
        open_parens(s, open_pos, c + 1) == 0,
        forall|k: int| open_pos < k <= c ==> #[trigger] open_parens(s, open_pos, k) > 0,
{
    lemma_closing_is_balanced(s, open_pos, 0);
}

} // verus!
