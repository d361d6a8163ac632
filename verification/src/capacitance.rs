//! Capacitances, as the values of capacitors give them.
use crate::text::{self, digits_value, is_digit};
use vstd::prelude::*;

verus! {

/// The end of the digits at `i`.
pub open spec fn digits_end(s: Seq<char>, i: int) -> int
    decreases s.len() - i,
{
    if i < 0 || i >= s.len() || !is_digit(s[i]) {
        i
    } else {
        digits_end(s, i + 1)
    }
}

/// The end of the spaces at `i`.
pub open spec fn spaces_end(s: Seq<char>, i: int) -> int
    decreases s.len() - i,
{
    if i < 0 || i >= s.len() || s[i] != ' ' {
        i
    } else {
        spaces_end(s, i + 1)
    }
}

/// Whether a numeral begins at `i`: its first digit stands behind neither a
/// digit nor a decimal sign.
pub open spec fn begins_numeral(s: Seq<char>, i: int) -> bool {
    &&& 0 <= i < s.len()
    &&& is_digit(s[i])
    &&& i > 0 ==> !is_digit(s[i - 1]) && s[i - 1] != '.' && s[i - 1] != ','
}

/// The end of the numeral whose whole part ends at `e`: behind a decimal sign
/// its other digits follow.
pub open spec fn numeral_end(s: Seq<char>, e: int) -> int {
    if 0 <= e < s.len() && (s[e] == '.' || s[e] == ',') {
        digits_end(s, e + 1)
    } else {
        e
    }
}

/// How many microfarads, nanofarads or picofarads make ten microfarads.
pub open spec fn ten_microfarads(unit: char) -> Option<nat> {
    if unit == 'u' || unit == 'U' || unit == 'µ' || unit == 'μ' {
        Some(10)
    } else if unit == 'n' || unit == 'N' {
        Some(10_000)
    } else if unit == 'p' || unit == 'P' {
        Some(10_000_000)
    } else {
        None
    }
}

/// How many digits behind the decimal sign ten microfarads have in millifarads
/// or farads, of which the last is a one and the others are zeros.
pub open spec fn places_of_ten_microfarads(unit: char) -> Option<int> {
    if unit == 'm' || unit == 'M' {
        Some(2)
    } else if unit == 'f' || unit == 'F' {
        Some(5)
    } else {
        None
    }
}

/// Whether a digit from `i` on and before `to` is not zero.
pub open spec fn has_nonzero(s: Seq<char>, i: int, to: int) -> bool {
    exists|k: int| i <= k < to && #[trigger] s[k] != '0'
}

/// Whether the unit at `u` ends there: no letter follows but that of the farad.
pub open spec fn ends_unit(s: Seq<char>, u: int) -> bool {
    u + 1 >= s.len() || !is_letter(s[u + 1]) || ((s[u] == 'm' || s[u] == 'M') && (s[u + 1] == 'f'
        || s[u + 1] == 'F') && (u + 2 >= s.len() || !is_letter(s[u + 2])))
}

/// Whether the character is a letter of the alphabet.
pub open spec fn is_letter(c: char) -> bool {
    'a' <= c <= 'z' || 'A' <= c <= 'Z'
}

/// Whether the numeral at `i` with its unit gives ten microfarads or more.
pub open spec fn is_bulk_at(s: Seq<char>, i: int) -> bool {
    let e = digits_end(s, i);
    let f = numeral_end(s, e);
    let u = spaces_end(s, f);
    &&& begins_numeral(s, i)
    &&& u < s.len()
    &&& {
        ||| ten_microfarads(s[u]) matches Some(least) && digits_value(s.subrange(i, e)) >= least
        ||| places_of_ten_microfarads(s[u]) matches Some(places) && ends_unit(s, u) && (has_nonzero(
            s,
            i,
            e,
        ) || has_nonzero(
            s,
            e + 1,
            if e + 1 + places < f {
                e + 1 + places
            } else {
                f
            },
        ))
    }
}

/// Whether a value gives ten microfarads or more.
pub open spec fn bulk_value(s: Seq<char>) -> bool {
    exists|i: int| #[trigger] is_bulk_at(s, i)
}

fn letter_here(c: char) -> (r: bool)
    ensures
        r == is_letter(c),
{
    ('a' <= c && c <= 'z') || ('A' <= c && c <= 'Z')
}

fn nonzero_between(chars: &Vec<char>, from: usize, to: usize) -> (r: bool)
    requires
        to <= chars@.len(),
    ensures
        r == has_nonzero(chars@, from as int, to as int),
{
    let mut k: usize = from;
    while k < to
        invariant
            from <= k,
            to <= chars@.len(),
            forall|j: int| from <= j < k ==> #[trigger] chars@[j] == '0',
        decreases to - k,
    {
        if chars[k] != '0' {
            proof {
                assert(chars@[k as int] != '0');
            }
            return true;
        }
        k += 1;
    }
    false
}

fn unit_ends(chars: &Vec<char>, u: usize) -> (r: bool)
    requires
        u < chars@.len(),
    ensures
        r == ends_unit(chars@, u as int),
{
    let len: usize = chars.len();
    if u + 1 >= len || !letter_here(chars[u + 1]) {
        return true;
    }
    let milli = chars[u] == 'm' || chars[u] == 'M';
    let farad = chars[u + 1] == 'f' || chars[u + 1] == 'F';
    milli && farad && (len - u <= 2 || !letter_here(chars[u + 2]))
}

fn digit_here(c: char) -> (r: bool)
    ensures
        r == is_digit(c),
{
    '0' <= c && c <= '9'
}

fn find_spaces_end(chars: &Vec<char>, from: usize) -> (r: usize)
    requires
        from <= chars@.len(),
    ensures
        r == spaces_end(chars@, from as int),
        from <= r <= chars@.len(),
{
    let mut i: usize = from;
    while i < chars.len() && chars[i] == ' '
        invariant
            from <= i <= chars@.len(),
            spaces_end(chars@, from as int) == spaces_end(chars@, i as int),
        decreases chars@.len() - i,
    {
        i += 1;
    }
    i
}

/// The end of the digits at `from` and the number that they denote, or the
/// bound where it is greater.
fn read_digits(chars: &Vec<char>, from: usize, bound: u64) -> (r: (usize, u64))
    requires
        from <= chars@.len(),
        bound <= 1_000_000_000,
    ensures
        r.0 == digits_end(chars@, from as int),
        from <= r.0 <= chars@.len(),
        r.1 == ({
            let n = digits_value(chars@.subrange(from as int, r.0 as int));
            if n < bound {
                n
            } else {
                bound as nat
            }
        }),
{
    let mut i: usize = from;
    let mut n: u64 = 0;
    proof {
        assert(chars@.subrange(from as int, from as int).len() == 0);
    }
    while i < chars.len() && digit_here(chars[i])
        invariant
            from <= i <= chars@.len(),
            bound <= 1_000_000_000,
            n <= bound,
            digits_end(chars@, from as int) == digits_end(chars@, i as int),
            n == ({
                let m = digits_value(chars@.subrange(from as int, i as int));
                if m < bound {
                    m
                } else {
                    bound as nat
                }
            }),
        decreases chars@.len() - i,
    {
        let d: u64 = (chars[i] as u32 - 48) as u64;
        let next: u64 = n * 10 + d;
        n = if next < bound { next } else { bound };
        proof {
            let longer = chars@.subrange(from as int, i + 1);
            assert(longer.drop_last() =~= chars@.subrange(from as int, i as int));
            assert(longer.last() == chars@[i as int]);
        }
        i += 1;
    }
    (i, n)
}

fn bulk_at(chars: &Vec<char>, i: usize) -> (r: bool)
    requires
        i < chars@.len(),
    ensures
        r == is_bulk_at(chars@, i as int),
{
    let len: usize = chars.len();
    if !digit_here(chars[i]) {
        return false;
    }
    if i > 0 && (digit_here(chars[i - 1]) || chars[i - 1] == '.' || chars[i - 1] == ',') {
        return false;
    }
    let (e, whole) = read_digits(chars, i, 10_000_000);
    let end: usize = if e < len && (chars[e] == '.' || chars[e] == ',') {
        read_digits(chars, e + 1, 0).0
    } else {
        e
    };
    let u: usize = find_spaces_end(chars, end);
    if u >= len {
        return false;
    }
    let unit: char = chars[u];
    if unit == 'u' || unit == 'U' || unit == 'µ' || unit == 'μ' {
        return whole >= 10;
    }
    if unit == 'n' || unit == 'N' {
        return whole >= 10_000;
    }
    if unit == 'p' || unit == 'P' {
        return whole >= 10_000_000;
    }
    let places: usize = if unit == 'm' || unit == 'M' {
        2
    } else if unit == 'f' || unit == 'F' {
        5
    } else {
        return false;
    };
    if !unit_ends(chars, u) {
        return false;
    }
    if nonzero_between(chars, i, e) {
        return true;
    }
    if end <= e {
        return false;
    }
    let to: usize = if end - (e + 1) > places { e + 1 + places } else { end };
    nonzero_between(chars, e + 1, to)
}

/// Whether a value gives ten microfarads or more.
pub fn is_bulk_value(value: &str) -> (r: bool)
    ensures
        r == bulk_value(value@),
{
    let chars = text::chars_of(value);
    let mut i: usize = 0;
    while i < chars.len()
        invariant
            i <= chars@.len(),
            chars@ == value@,
            forall|j: int| 0 <= j < i ==> !#[trigger] is_bulk_at(value@, j),
        decreases chars@.len() - i,
    {
        if bulk_at(&chars, i) {
            return true;
        }
        i += 1;
    }
    proof {
        assert forall|j: int| !#[trigger] is_bulk_at(value@, j) by {}
    }
    false
}

// ─── Laws ─────────────────────────────────────────────────────────────────

proof fn lemma_digits_end(s: Seq<char>, i: int, e: int)
    requires
        0 <= i <= e <= s.len(),
        forall|k: int| i <= k < e ==> is_digit(#[trigger] s[k]),
        e < s.len() ==> !is_digit(s[e]),
    ensures
        digits_end(s, i) == e,
    decreases e - i,
{
    if i < e {
        lemma_digits_end(s, i + 1, e);
    }
}

proof fn lemma_spaces_end(s: Seq<char>, i: int, e: int)
    requires
        0 <= i <= e <= s.len(),
        forall|k: int| i <= k < e ==> #[trigger] s[k] == ' ',
        e < s.len() ==> s[e] != ' ',
    ensures
        spaces_end(s, i) == e,
    decreases e - i,
{
    if i < e {
        lemma_spaces_end(s, i + 1, e);
    }
}

/// A whole number with a unit, with or without blanks between them, gives bulk
/// capacitance exactly if it is ten microfarads or more: from 10 on in
/// microfarads, from 10,000 on in nanofarads, from 10,000,000 on in picofarads,
/// and from 1 on in millifarads.
pub proof fn law_ten_microfarads_are_bulk(
    n: nat,
    gap: Seq<char>,
    unit: char,
    rest: Seq<char>,
)
    requires
        forall|k: int| 0 <= k < gap.len() ==> #[trigger] gap[k] == ' ',
        forall|k: int| 0 <= k < rest.len() ==> !is_digit(#[trigger] rest[k]),
    ensures
        unit == 'u' || unit == 'U' || unit == 'µ' || unit == 'μ' ==> (bulk_value(
            crate::text::decimal(n) + gap + seq![unit] + rest,
        ) <==> n >= 10),
        unit == 'n' || unit == 'N' ==> (bulk_value(
            crate::text::decimal(n) + gap + seq![unit] + rest,
        ) <==> n >= 10_000),
        unit == 'p' || unit == 'P' ==> (bulk_value(
            crate::text::decimal(n) + gap + seq![unit] + rest,
        ) <==> n >= 10_000_000),
        unit == 'm' && (rest.len() == 0 || rest == seq!['F']) ==> (bulk_value(
            crate::text::decimal(n) + gap + seq![unit] + rest,
        ) <==> n >= 1),
{
    let digits = crate::text::decimal(n);
    let s = digits + gap + seq![unit] + rest;
    let e = digits.len() as int;
    let u = e + gap.len();
    crate::text::lemma_decimal_digits(n);
    crate::text::lemma_decimal_value(n);
    crate::text::lemma_decimal_first(n);
    if unit == 'u' || unit == 'U' || unit == 'µ' || unit == 'μ' || unit == 'n' || unit == 'N'
        || unit == 'p' || unit == 'P' || unit == 'm' {
        assert(s[u] == unit);
        assert forall|k: int| 0 <= k < e implies is_digit(#[trigger] s[k]) by {
            assert(is_digit(digits[k]));
        }
        assert forall|k: int| e <= k < u implies #[trigger] s[k] == ' ' by {
            assert(gap[k - e] == ' ');
        }
        assert forall|k: int| e <= k < s.len() implies !is_digit(#[trigger] s[k]) by {
            if k > u {
                assert(s[k] == rest[k - u - 1]);
            }
        }
        lemma_digits_end(s, 0, e);
        assert(numeral_end(s, e) == e);
        lemma_spaces_end(s, e, u);
        assert(s.subrange(0, e) =~= digits);
        assert(begins_numeral(s, 0));
        assert forall|i: int| #[trigger] is_bulk_at(s, i) implies i == 0 by {
            if 0 < i < e {
                assert(is_digit(s[i - 1]));
            }
        }
        if unit == 'm' {
            assert(s[0] == digits[0]);
            assert(has_nonzero(s, 0, e) <==> n > 0) by {
                if n > 0 {
                    assert(s[0] != '0');
                } else {
                    assert(digits =~= seq!['0']);
                    assert forall|k: int| 0 <= k < e implies #[trigger] s[k] == '0' by {}
                }
            }
            if rest.len() > 0 {
                assert(s[u + 1] == rest[0]);
            }
        }
        assert(bulk_value(s) <==> is_bulk_at(s, 0));
    }
}

} // verus!
