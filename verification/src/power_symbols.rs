//! Power symbols in the text of a schematic.
use crate::blocks::{
    block_close, close_in, lemma_open_block_is_not_stray, opens_block, opens_here, step,
    string_state, Closing,
};
use crate::schematic::text_option;
use crate::seqs::models;
use crate::text::{self, find_text, next_of, occurs_at};
use vstd::prelude::*;

verus! {

/// Whether a reference is that of a power symbol.
pub open spec fn is_power_reference(reference: Seq<char>) -> bool {
    occurs_at(reference, "#PWR"@, 0)
}

/// Whether a reference is that of a power symbol.
pub fn names_power_symbol(reference: &str) -> (r: bool)
    ensures
        r == is_power_reference(reference@),
{
    let name = text::chars_of(reference);
    let mark = text::chars_of("#PWR");
    text::matches_at(&name, &mark, 0)
}

/// The next character at or after `i` that is not white space.
pub open spec fn after_blanks(s: Seq<char>, i: int) -> int
    decreases s.len() - i,
{
    if i < 0 || i >= s.len() || !(s[i] == ' ' || s[i] == '\t' || s[i] == '\n' || s[i] == '\r') {
        i
    } else {
        after_blanks(s, i + 1)
    }
}

/// Whether a placed symbol opens at `i`. The symbols of the library that a sheet
/// carries along have their name right behind the head, placed ones a block.
pub open spec fn is_placed_symbol(s: Seq<char>, i: int) -> bool {
    &&& opens_block(s, "(symbol"@, i)
    &&& after_blanks(s, i + "(symbol"@.len()) < s.len()
    &&& s[after_blanks(s, i + "(symbol"@.len())] == '('
}

/// What stands in quotation marks behind the tag, from `from` on and before
/// `to`.
pub open spec fn quoted_behind(s: Seq<char>, tag: Seq<char>, from: int, to: int) -> Option<
    Seq<char>,
> {
    match find_text(s.take(to), tag, from) {
        None => None,
        Some(p) => {
            let q = next_of(s, '"', p + tag.len());
            if q < to {
                Some(s.subrange(p + tag.len(), q))
            } else {
                None
            }
        },
    }
}

/// The net of the power symbol that opens at `i`: the value of a placed symbol
/// whose reference begins with `#PWR`.
pub open spec fn power_symbol(s: Seq<char>, i: int) -> Option<Seq<char>> {
    if !is_placed_symbol(s, i) {
        None
    } else {
        match block_close(s, i) {
            Closing::At(c) => match quoted_behind(s, "(property \"Reference\" \""@, i, c) {
                Some(r) => if is_power_reference(r) {
                    quoted_behind(s, "(property \"Value\" \""@, i, c)
                } else {
                    None
                },
                None => None,
            },
            _ => None,
        }
    }
}

/// Whether a power symbol that opens before `n` has that net.
pub open spec fn has_power_symbol(s: Seq<char>, n: int, t: Seq<char>) -> bool {
    exists|i: int| 0 <= i < n && #[trigger] power_symbol(s, i) == Some(t)
}

fn find_after_blanks(chars: &Vec<char>, from: usize) -> (r: usize)
    requires
        from <= chars@.len(),
    ensures
        r == after_blanks(chars@, from as int),
        from <= r <= chars@.len(),
{
    let mut i: usize = from;
    while i < chars.len() && (chars[i] == ' ' || chars[i] == '\t' || chars[i] == '\n' || chars[i]
        == '\r')
        invariant
            from <= i <= chars@.len(),
            after_blanks(chars@, from as int) == after_blanks(chars@, i as int),
        decreases chars@.len() - i,
    {
        i += 1;
    }
    i
}

fn find_quoted(chars: &Vec<char>, tag: &str, from: usize, to: usize) -> (r: Option<String>)
    requires
        to <= chars@.len(),
    ensures
        text_option(r) == quoted_behind(chars@, tag@, from as int, to as int),
{
    let pat = text::chars_of(tag);
    match text::find_within(chars, &pat, from, to) {
        None => None,
        Some(p) => {
            let at: usize = p + pat.len();
            let q: usize = text::find_char(chars, '"', at);
            if q < to {
                Some(text::slice_text(chars, at, q))
            } else {
                None
            }
        },
    }
}

/// The net of the power symbol that opens at `i`, which is in a string or not.
fn power_symbol_at(chars: &Vec<char>, head: &Vec<char>, i: usize, quoted: bool) -> (r: Option<
    String,
>)
    requires
        head@ == "(symbol"@,
        quoted == string_state(chars@, i as int).0,
    ensures
        text_option(r) == power_symbol(chars@, i as int),
{
    let len: usize = chars.len();
    if !opens_here(chars, head, i, quoted) {
        return None;
    }
    proof {
        assert(i + head@.len() < len);
        reveal_strlit("(symbol");
        assert(chars@.subrange(i as int, i + 7)[0] == head@[0]);
        lemma_open_block_is_not_stray(chars@, i as int);
    }
    let p: usize = find_after_blanks(chars, i + head.len());
    if p >= len || chars[p] != '(' {
        return None;
    }
    let c: usize = match close_in(chars, i) {
        Some(c) => c,
        None => {
            return None;
        },
    };
    match find_quoted(chars, "(property \"Reference\" \"", i, c) {
        None => None,
        Some(reference) => {
            if names_power_symbol(reference.as_str()) {
                find_quoted(chars, "(property \"Value\" \"", i, c)
            } else {
                None
            }
        },
    }
}

/// Adds the nets of the power symbols to a list that holds each name once.
pub fn add_power_symbols(nets: &mut Vec<String>, chars: &Vec<char>)
    requires
        models(old(nets)@).no_duplicates(),
    ensures
        models(final(nets)@).no_duplicates(),
        forall|t: Seq<char>| #[trigger]
            models(final(nets)@).contains(t) <==> models(old(nets)@).contains(t)
                || has_power_symbol(chars@, chars@.len() as int, t),
{
    let ghost had = models(nets@);
    let head = text::chars_of("(symbol");
    let mut quoted = false;
    let mut escaped = false;
    let mut i: usize = 0;
    while i < chars.len()
        invariant
            i <= chars@.len(),
            head@ == "(symbol"@,
            (quoted, escaped) == string_state(chars@, i as int),
            models(nets@).no_duplicates(),
            forall|t: Seq<char>| #[trigger]
                models(nets@).contains(t) <==> had.contains(t) || has_power_symbol(
                    chars@,
                    i as int,
                    t,
                ),
        decreases chars@.len() - i,
    {
        let ghost before = models(nets@);
        let found = power_symbol_at(chars, &head, i, quoted);
        if let Some(net) = &found {
            text::add_once(nets, net.as_str());
        }
        proof {
            assert forall|t: Seq<char>| #[trigger] models(nets@).contains(t) <==> had.contains(t)
                || has_power_symbol(chars@, i + 1, t) by {
                assert(before.contains(t) <==> had.contains(t) || has_power_symbol(
                    chars@,
                    i as int,
                    t,
                ));
                if has_power_symbol(chars@, i as int, t) {
                    let j = choose|j: int|
                        0 <= j < i && #[trigger] power_symbol(chars@, j) == Some(t);
                    assert(0 <= j < i + 1 && power_symbol(chars@, j) == Some(t));
                }
                if text_option(found) == Some(t) {
                    assert(power_symbol(chars@, i as int) == Some(t));
                }
                if has_power_symbol(chars@, i + 1, t) && text_option(found) != Some(t) {
                    let j = choose|j: int|
                        0 <= j < i + 1 && #[trigger] power_symbol(chars@, j) == Some(t);
                    assert(0 <= j < i && power_symbol(chars@, j) == Some(t));
                }
            }
        }
        let (q, e) = step(quoted, escaped, chars[i]);
        quoted = q;
        escaped = e;
        i += 1;
    }
}

} // verus!
