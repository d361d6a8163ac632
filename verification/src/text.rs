//! Text primitives: building, comparing, searching and converting.
//!
//! A text is modelled by the sequence of its characters. Every function here
//! states its result over that model.
use crate::seqs::{models, push_model};
use vstd::prelude::*;
use vstd::utf8::{decode_utf8, encode_utf8, encode_utf8_decode_utf8};

verus! {

/// `String::push` appends the given character to the end of the string.
pub assume_specification[ String::push ](s: &mut String, c: char)
    ensures
        final(s)@ == old(s)@.push(c),
;

/// The characters of a text, in order.
pub fn chars_of(s: &str) -> (out: Vec<char>)
    ensures
        out@ == s@,
{
    let mut out: Vec<char> = Vec::new();
    for c in it: s.chars()
        invariant
            out@ == it.seq().take(it.index()),
            it.seq() == s@,
    {
        out.push(c);
    }
    out
}

/// The text made of `chars[from..to]`.
pub fn slice_text(chars: &[char], from: usize, to: usize) -> (out: String)
    requires
        from <= to <= chars@.len(),
    ensures
        out@ == chars@.subrange(from as int, to as int),
{
    let mut out = String::new();
    let mut i: usize = from;
    while i < to
        invariant
            from <= i <= to <= chars@.len(),
            out@ == chars@.subrange(from as int, i as int),
        decreases to - i,
    {
        out.push(chars[i]);
        i += 1;
    }
    out
}

/// Concatenation of two texts.
pub fn cat2(a: &str, b: &str) -> (out: String)
    ensures
        out@ == a@ + b@,
{
    let mut out = a.to_owned();
    out.append(b);
    out
}

/// Concatenation of three texts.
pub fn cat3(a: &str, b: &str, c: &str) -> (out: String)
    ensures
        out@ == a@ + b@ + c@,
{
    let mut out = a.to_owned();
    out.append(b);
    out.append(c);
    out
}

/// Concatenation of four texts.
pub fn cat4(a: &str, b: &str, c: &str, d: &str) -> (out: String)
    ensures
        out@ == a@ + b@ + c@ + d@,
{
    let mut out = cat3(a, b, c);
    out.append(d);
    out
}

/// Concatenation of five texts.
pub fn cat5(a: &str, b: &str, c: &str, d: &str, e: &str) -> (out: String)
    ensures
        out@ == a@ + b@ + c@ + d@ + e@,
{
    let mut out = cat4(a, b, c, d);
    out.append(e);
    out
}

/// Whether two texts hold the same characters.
pub fn same(a: &str, b: &str) -> (r: bool)
    ensures
        r == (a@ == b@),
{
    let x = a.as_bytes();
    let y = b.as_bytes();
    if x.len() != y.len() {
        return false;
    }
    let mut i: usize = 0;
    while i < x.len()
        invariant
            i <= x.len(),
            x@.len() == y@.len(),
            x@ == encode_utf8(a@),
            y@ == encode_utf8(b@),
            forall|j: int| 0 <= j < i ==> x@[j] == y@[j],
        decreases x.len() - i,
    {
        if x[i] != y[i] {
            return false;
        }
        i += 1;
    }
    proof {
        assert(x@ =~= y@);
        encode_utf8_decode_utf8(a@);
        encode_utf8_decode_utf8(b@);
    }
    true
}

/// Whether `p` stands in `s` at position `i`.
pub open spec fn occurs_at(s: Seq<char>, p: Seq<char>, i: int) -> bool {
    0 <= i && i + p.len() <= s.len() && s.subrange(i, i + p.len()) == p
}

/// Whether `p` stands anywhere in `s`.
pub open spec fn contains_text(s: Seq<char>, p: Seq<char>) -> bool {
    exists|i: int| #[trigger] occurs_at(s, p, i)
}

/// Position of the first occurrence of `p` in `s` at or after `from`.
pub open spec fn find_text(s: Seq<char>, p: Seq<char>, from: int) -> Option<int>
    decreases s.len() + 1 - from,
{
    if from < 0 || from + p.len() > s.len() {
        None
    } else if occurs_at(s, p, from) {
        Some(from)
    } else {
        find_text(s, p, from + 1)
    }
}

/// A found position is an occurrence at or after `from` with none in between;
/// where nothing is found, there is no occurrence at or after `from`.
pub proof fn lemma_find_text(s: Seq<char>, p: Seq<char>, from: int)
    requires
        0 <= from,
    ensures
        match find_text(s, p, from) {
            Some(i) => from <= i && occurs_at(s, p, i) && forall|j: int|
                from <= j < i ==> !#[trigger] occurs_at(s, p, j),
            None => forall|j: int| from <= j ==> !#[trigger] occurs_at(s, p, j),
        },
    decreases s.len() + 1 - from,
{
    if from + p.len() <= s.len() && !occurs_at(s, p, from) {
        lemma_find_text(s, p, from + 1);
    }
}

/// Whether `pat` stands in `chars` at position `i`.
pub fn matches_at(chars: &[char], pat: &[char], i: usize) -> (r: bool)
    ensures
        r == occurs_at(chars@, pat@, i as int),
{
    let n: usize = chars.len();
    let m: usize = pat.len();
    if i > n || m > n - i {
        return false;
    }
    let mut k: usize = 0;
    while k < m
        invariant
            n == chars@.len(),
            m == pat@.len(),
            i + m <= n,
            k <= m,
            forall|j: int| 0 <= j < k ==> chars@[i + j] == pat@[j],
        decreases m - k,
    {
        if chars[i + k] != pat[k] {
            proof {
                assert(chars@.subrange(i as int, i + m)[k as int] != pat@[k as int]);
            }
            return false;
        }
        k += 1;
    }
    proof {
        assert(chars@.subrange(i as int, i + m) =~= pat@);
    }
    true
}

/// First occurrence of `pat` at or after `from` that ends at `to` or before it.
pub fn find_within(chars: &[char], pat: &[char], from: usize, to: usize) -> (r: Option<usize>)
    requires
        to <= chars@.len(),
    ensures
        match r {
            Some(i) => find_text(chars@.take(to as int), pat@, from as int) == Some(i as int)
                && from <= i && i + pat@.len() <= to && occurs_at(chars@, pat@, i as int),
            None => find_text(chars@.take(to as int), pat@, from as int) is None,
        },
{
    let m: usize = pat.len();
    let ghost part = chars@.take(to as int);
    let mut i: usize = from;
    while i <= to && m <= to - i
        invariant
            part == chars@.take(to as int),
            part.len() == to,
            to <= chars@.len(),
            m == pat@.len(),
            from <= i,
            find_text(part, pat@, from as int) == find_text(part, pat@, i as int),
        decreases to + 1 - i,
    {
        proof {
            assert(part.subrange(i as int, i + m) =~= chars@.subrange(i as int, i + m));
        }
        if matches_at(chars, pat, i) {
            return Some(i);
        }
        if i == to {
            proof {
                assert(find_text(part, pat@, to + 1) is None);
            }
            return None;
        }
        i += 1;
    }
    None
}

/// First occurrence of `pat` in `chars` at or after `from`.
pub fn find_from(chars: &[char], pat: &[char], from: usize) -> (r: Option<usize>)
    ensures
        match r {
            Some(i) => find_text(chars@, pat@, from as int) == Some(i as int),
            None => find_text(chars@, pat@, from as int) is None,
        },
        r matches Some(i) ==> from <= i && i + pat@.len() <= chars@.len(),
{
    let n: usize = chars.len();
    let m: usize = pat.len();
    let mut i: usize = from;
    while i <= n && m <= n - i
        invariant
            n == chars@.len(),
            m == pat@.len(),
            from <= i,
            i <= n + 1 || i == from,
            find_text(chars@, pat@, from as int) == find_text(chars@, pat@, i as int),
        decreases n + 1 - i,
    {
        if matches_at(chars, pat, i) {
            return Some(i);
        }
        if i == n {
            proof {
                assert(find_text(chars@, pat@, n + 1) is None);
            }
            return None;
        }
        i += 1;
    }
    None
}

/// Whether `s` contains `p`.
pub fn contains(s: &str, p: &str) -> (r: bool)
    ensures
        r == contains_text(s@, p@),
{
    let a = chars_of(s);
    let b = chars_of(p);
    let r = find_from(&a, &b, 0);
    proof {
        lemma_find_text(s@, p@, 0);
    }
    r.is_some()
}

/// Whether `s` begins with `p`.
pub fn has_prefix(s: &str, p: &str) -> (r: bool)
    ensures
        r == p@.is_prefix_of(s@),
{
    let a = chars_of(s);
    let b = chars_of(p);
    proof {
        assert(s@.subrange(0, p@.len() as int) == p@ && p@.len() <= s@.len() <==> p@.is_prefix_of(
            s@,
        ));
    }
    matches_at(&a, &b, 0)
}

/// Number of characters in `s`.
pub fn length(s: &str) -> (n: usize)
    ensures
        n == s@.len(),
{
    chars_of(s).len()
}

// ─── Order ────────────────────────────────────────────────────────────────

/// Lexicographic order of texts by code point, the order in which `String`
/// sorts.
pub open spec fn precedes(a: Seq<char>, b: Seq<char>) -> bool
    decreases a.len(),
{
    if b.len() == 0 {
        false
    } else if a.len() == 0 {
        true
    } else if a[0] != b[0] {
        (a[0] as int) < (b[0] as int)
    } else {
        precedes(a.drop_first(), b.drop_first())
    }
}

/// No text precedes itself.
pub proof fn lemma_precedes_irreflexive(a: Seq<char>)
    ensures
        !precedes(a, a),
    decreases a.len(),
{
    if a.len() > 0 {
        lemma_precedes_irreflexive(a.drop_first());
    }
}

/// The order of texts is transitive.
pub proof fn lemma_precedes_transitive(a: Seq<char>, b: Seq<char>, c: Seq<char>)
    requires
        precedes(a, b),
        precedes(b, c),
    ensures
        precedes(a, c),
    decreases a.len(),
{
    if a.len() > 0 && a[0] == b[0] && b[0] == c[0] {
        lemma_precedes_transitive(a.drop_first(), b.drop_first(), c.drop_first());
    }
}

/// Of two different texts one precedes the other.
pub proof fn lemma_precedes_total(a: Seq<char>, b: Seq<char>)
    ensures
        a == b || precedes(a, b) || precedes(b, a),
    decreases a.len(),
{
    if a.len() > 0 && b.len() > 0 && a[0] == b[0] {
        lemma_precedes_total(a.drop_first(), b.drop_first());
        if a.drop_first() == b.drop_first() {
            assert(a =~= seq![a[0]] + a.drop_first());
            assert(b =~= seq![b[0]] + b.drop_first());
        }
    } else if a.len() == 0 && b.len() == 0 {
        assert(a =~= b);
    }
}

/// Whether `a` precedes `b`.
pub fn comes_before(a: &str, b: &str) -> (r: bool)
    ensures
        r == precedes(a@, b@),
{
    let x = chars_of(a);
    let y = chars_of(b);
    let mut i: usize = 0;
    proof {
        assert(a@.skip(0) =~= a@);
        assert(b@.skip(0) =~= b@);
    }
    while i < x.len() && i < y.len()
        invariant
            x@ == a@,
            y@ == b@,
            i <= x.len(),
            i <= y.len(),
            precedes(a@, b@) == precedes(a@.skip(i as int), b@.skip(i as int)),
        decreases x.len() - i,
    {
        proof {
            assert(a@.skip(i as int).drop_first() =~= a@.skip(i + 1));
            assert(b@.skip(i as int).drop_first() =~= b@.skip(i + 1));
        }
        if x[i] != y[i] {
            return x[i] < y[i];
        }
        i += 1;
    }
    i < y.len()
}

/// Each text precedes all that follow it.
pub open spec fn strictly_ascending(s: Seq<Seq<char>>) -> bool {
    forall|i: int, j: int| 0 <= i < j < s.len() ==> precedes(#[trigger] s[i], #[trigger] s[j])
}

/// Whether the list holds the text.
pub fn list_contains(list: &Vec<String>, s: &str) -> (r: bool)
    ensures
        r == models(list@).contains(s@),
{
    let mut i: usize = 0;
    while i < list.len()
        invariant
            i <= list.len(),
            forall|j: int| 0 <= j < i ==> list@[j]@ != s@,
        decreases list.len() - i,
    {
        if same(list[i].as_str(), s) {
            proof {
                assert(models(list@)[i as int] == s@);
            }
            return true;
        }
        i += 1;
    }
    proof {
        assert forall|j: int| 0 <= j < models(list@).len() implies models(list@)[j] != s@ by {
            assert(models(list@)[j] == list@[j]@);
        }
    }
    false
}

/// Puts `name` into its place in an ascending list that does not hold it yet.
fn insert_sorted(list: &mut Vec<String>, name: String)
    requires
        strictly_ascending(models(old(list)@)),
    ensures
        strictly_ascending(models(final(list)@)),
        forall|t: Seq<char>| #[trigger]
            models(final(list)@).contains(t) <==> models(old(list)@).contains(t) || t == name@,
{
    let ghost before = models(list@);
    let mut at: usize = 0;
    while at < list.len() && comes_before(list[at].as_str(), name.as_str())
        invariant
            at <= list.len(),
            models(list@) == before,
            forall|j: int| 0 <= j < at ==> precedes(#[trigger] before[j], name@),
        decreases list.len() - at,
    {
        proof {
            assert(before[at as int] == list@[at as int]@);
        }
        at += 1;
    }
    if at < list.len() {
        proof {
            assert(before[at as int] == list@[at as int]@);
        }
        if same(list[at].as_str(), name.as_str()) {
            return;
        }
        proof {
            lemma_precedes_total(before[at as int], name@);
        }
    }
    let ghost had = list@;
    let ghost at0: int = at as int;
    let ghost nm = name@;
    list.insert(at, name);
    proof {
        let after = models(list@);
        assert(after =~= before.insert(at0, nm));
        assert forall|j: int| at0 <= j < before.len() implies precedes(nm, #[trigger] before[j]) by {
            if j > at0 {
                lemma_precedes_transitive(nm, before[at0], before[j]);
            }
        }
        assert forall|i: int, j: int| 0 <= i < j < after.len() implies precedes(
            #[trigger] after[i],
            #[trigger] after[j],
        ) by {
            let bi = if i < at0 { i } else { i - 1 };
            let bj = if j < at0 { j } else { j - 1 };
            if i != at0 && j != at0 {
                assert(after[i] == before[bi]);
                assert(after[j] == before[bj]);
            } else if i == at0 {
                assert(after[j] == before[bj]);
            } else {
                assert(after[i] == before[bi]);
            }
        }
        assert forall|t: Seq<char>| #[trigger] after.contains(t) <==> before.contains(t) || t
            == nm by {
            if before.contains(t) {
                let i = choose|i: int| 0 <= i < before.len() && before[i] == t;
                let k = if i < at0 { i } else { i + 1 };
                assert(after[k] == t);
            }
            if t == nm {
                assert(after[at0] == t);
            }
            if after.contains(t) && t != nm {
                let k = choose|k: int| 0 <= k < after.len() && after[k] == t;
                let i = if k < at0 { k } else { k - 1 };
                assert(before[i] == t);
            }
        }
    }
}

/// The texts of `names` in ascending order, each once.
pub fn sorted_distinct(names: &Vec<String>) -> (out: Vec<String>)
    ensures
        strictly_ascending(models(out@)),
        forall|t: Seq<char>| #[trigger]
            models(out@).contains(t) <==> models(names@).contains(t),
{
    let mut out: Vec<String> = Vec::new();
    let mut i: usize = 0;
    while i < names.len()
        invariant
            i <= names.len(),
            strictly_ascending(models(out@)),
            forall|t: Seq<char>| #[trigger]
                models(out@).contains(t) <==> models(names@).take(i as int).contains(t),
        decreases names.len() - i,
    {
        insert_sorted(&mut out, names[i].clone());
        proof {
            let all = models(names@);
            assert(all[i as int] == names@[i as int]@);
            assert(all.take(i + 1) =~= all.take(i as int).push(all[i as int]));
            assert forall|t: Seq<char>| #[trigger] models(out@).contains(t) <==> all.take(
                i + 1,
            ).contains(t) by {
                let s = all.take(i as int);
                let x = all[i as int];
                assert(s.push(x)[s.len() as int] == x);
                if s.contains(t) {
                    let k = choose|k: int| 0 <= k < s.len() && s[k] == t;
                    assert(s.push(x)[k] == t);
                }
                if s.push(x).contains(t) && t != x {
                    let k = choose|k: int| 0 <= k < s.push(x).len() && s.push(x)[k] == t;
                    assert(s[k] == t);
                }
            }
        }
        i += 1;
    }
    proof {
        assert(models(names@).take(names@.len() as int) =~= models(names@));
    }
    out
}

/// An ascending list is determined by the texts that it holds.
pub proof fn lemma_ascending_unique(a: Seq<Seq<char>>, b: Seq<Seq<char>>)
    requires
        strictly_ascending(a),
        strictly_ascending(b),
        forall|t: Seq<char>| #[trigger] a.contains(t) <==> b.contains(t),
    ensures
        a == b,
    decreases a.len(),
{
    if a.len() == 0 {
        if b.len() > 0 {
            assert(b.contains(b[0]));
            assert(a.contains(b[0]));
        }
        assert(a =~= b);
    } else if b.len() == 0 {
        assert(a.contains(a[0]));
        assert(b.contains(a[0]));
    } else {
        assert(a[0] == b[0]) by {
            assert(a.contains(a[0]));
            assert(b.contains(b[0]));
            assert(b.contains(a[0]));
            assert(a.contains(b[0]));
            let i = choose|i: int| 0 <= i < b.len() && b[i] == a[0];
            let j = choose|j: int| 0 <= j < a.len() && a[j] == b[0];
            if a[0] != b[0] {
                assert(precedes(b[0], b[i]));
                assert(precedes(a[0], a[j]));
                lemma_precedes_transitive(a[0], b[0], a[0]);
                lemma_precedes_irreflexive(a[0]);
            }
        }
        let ta = a.drop_first();
        let tb = b.drop_first();
        assert(strictly_ascending(ta)) by {
            assert forall|i: int, j: int| 0 <= i < j < ta.len() implies precedes(
                #[trigger] ta[i],
                #[trigger] ta[j],
            ) by {
                assert(ta[i] == a[i + 1] && ta[j] == a[j + 1]);
            }
        }
        assert(strictly_ascending(tb)) by {
            assert forall|i: int, j: int| 0 <= i < j < tb.len() implies precedes(
                #[trigger] tb[i],
                #[trigger] tb[j],
            ) by {
                assert(tb[i] == b[i + 1] && tb[j] == b[j + 1]);
            }
        }
        assert forall|t: Seq<char>| #[trigger] ta.contains(t) <==> tb.contains(t) by {
            lemma_precedes_irreflexive(a[0]);
            if ta.contains(t) {
                let k = choose|k: int| 0 <= k < ta.len() && ta[k] == t;
                assert(a[k + 1] == t);
                assert(a.contains(t));
                assert(b.contains(t));
                assert(precedes(a[0], a[k + 1]));
                let m = choose|m: int| 0 <= m < b.len() && b[m] == t;
                assert(m > 0);
                assert(tb[m - 1] == t);
            }
            if tb.contains(t) {
                let k = choose|k: int| 0 <= k < tb.len() && tb[k] == t;
                assert(b[k + 1] == t);
                assert(b.contains(t));
                assert(a.contains(t));
                assert(precedes(b[0], b[k + 1]));
                let m = choose|m: int| 0 <= m < a.len() && a[m] == t;
                assert(m > 0);
                assert(ta[m - 1] == t);
            }
        }
        lemma_ascending_unique(ta, tb);
        assert(a =~= seq![a[0]] + ta);
        assert(b =~= seq![b[0]] + tb);
    }
}

// ─── Lists ────────────────────────────────────────────────────────────────

/// The texts of a list with `sep` between neighbours.
pub open spec fn joined(parts: Seq<Seq<char>>, sep: Seq<char>) -> Seq<char>
    decreases parts.len(),
{
    if parts.len() == 0 {
        Seq::empty()
    } else if parts.len() == 1 {
        parts[0]
    } else {
        joined(parts.drop_last(), sep) + sep + parts.last()
    }
}

/// The texts of a list with `sep` between neighbours.
pub fn join(parts: &Vec<String>, sep: &str) -> (out: String)
    ensures
        out@ == joined(models(parts@), sep@),
{
    let mut out = String::new();
    let mut i: usize = 0;
    while i < parts.len()
        invariant
            i <= parts.len(),
            out@ == joined(models(parts@).take(i as int), sep@),
        decreases parts.len() - i,
    {
        let ghost all = models(parts@);
        proof {
            assert(all.take(i + 1).drop_last() =~= all.take(i as int));
            assert(all.take(i + 1).last() == parts@[i as int]@);
        }
        if i > 0 {
            out.append(sep);
        } else {
            proof {
                assert(Seq::<char>::empty() + parts@[0]@ =~= parts@[0]@);
            }
        }
        out.append(parts[i].as_str());
        i += 1;
    }
    proof {
        assert(models(parts@).take(parts@.len() as int) =~= models(parts@));
    }
    out
}

// ─── Numbers ──────────────────────────────────────────────────────────────

/// The decimal digit of value `d`.
pub open spec fn digit_char(d: nat) -> char {
    (48 + d) as char
}

/// Whether the character is one of `0` to `9`.
pub open spec fn is_digit(c: char) -> bool {
    '0' <= c <= '9'
}

/// The decimal notation of a number.
pub open spec fn decimal(n: nat) -> Seq<char>
    decreases n,
{
    if n < 10 {
        seq![digit_char(n)]
    } else {
        decimal(n / 10).push(digit_char(n % 10))
    }
}

fn digit(d: u64) -> (c: char)
    requires
        d < 10,
    ensures
        c == digit_char(d as nat),
{
    match d {
        0 => '0',
        1 => '1',
        2 => '2',
        3 => '3',
        4 => '4',
        5 => '5',
        6 => '6',
        7 => '7',
        8 => '8',
        _ => '9',
    }
}

/// The decimal notation of a number.
pub fn decimal_text(n: u64) -> (out: String)
    ensures
        out@ == decimal(n as nat),
    decreases n,
{
    if n < 10 {
        let mut out = String::new();
        out.push(digit(n));
        proof {
            assert(out@ =~= decimal(n as nat));
        }
        out
    } else {
        let mut out = decimal_text(n / 10);
        out.push(digit(n % 10));
        out
    }
}

/// The number that a run of decimal digits denotes.
pub open spec fn digits_value(s: Seq<char>) -> nat
    decreases s.len(),
{
    if s.len() == 0 {
        0
    } else {
        10 * digits_value(s.drop_last()) + (s.last() as nat - 48) as nat
    }
}

/// Whether every character is a decimal digit.
pub open spec fn all_digits(s: Seq<char>) -> bool {
    forall|i: int| 0 <= i < s.len() ==> is_digit(#[trigger] s[i])
}

/// The value of a numeral of at most `max`: decimal digits, at least one,
/// after an optional plus sign.
pub open spec fn numeral_value(s: Seq<char>, max: nat) -> Option<nat> {
    let digits = if s.len() > 0 && s[0] == '+' { s.drop_first() } else { s };
    if digits.len() > 0 && all_digits(digits) && digits_value(digits) <= max {
        Some(digits_value(digits))
    } else {
        None
    }
}

/// A prefix denotes no more than the whole run of digits.
proof fn lemma_digits_value_prefix(s: Seq<char>, n: int)
    requires
        0 <= n <= s.len(),
        all_digits(s),
    ensures
        digits_value(s.take(n)) <= digits_value(s),
    decreases s.len() - n,
{
    if n < s.len() {
        let t = s.take(n + 1);
        assert(t.drop_last() =~= s.take(n));
        assert(digits_value(s.take(n)) <= digits_value(t));
        lemma_digits_value_prefix(s, n + 1);
    } else {
        assert(s.take(n) =~= s);
    }
}

/// The value of a numeral of at most `max`.
pub fn parse_numeral(s: &str, max: u64) -> (r: Option<u64>)
    ensures
        match r {
            Some(n) => numeral_value(s@, max as nat) == Some(n as nat),
            None => numeral_value(s@, max as nat) is None,
        },
{
    let chars = chars_of(s);
    let start: usize = if chars.len() > 0 && chars[0] == '+' { 1 } else { 0 };
    let ghost digits = if s@.len() > 0 && s@[0] == '+' { s@.drop_first() } else { s@ };
    proof {
        assert(digits =~= s@.skip(start as int));
    }
    if start == chars.len() {
        return None;
    }
    let mut value: u64 = 0;
    let mut i: usize = start;
    while i < chars.len()
        invariant
            chars@ == s@,
            start <= i <= chars.len(),
            digits == s@.skip(start as int),
            digits == (if s@.len() > 0 && s@[0] == '+' { s@.drop_first() } else { s@ }),
            digits.len() > 0,
            value <= max,
            value == digits_value(digits.take(i - start)),
            forall|j: int| 0 <= j < i - start ==> is_digit(#[trigger] digits[j]),
        decreases chars.len() - i,
    {
        let c: char = chars[i];
        proof {
            assert(digits[i - start] == c);
        }
        if c < '0' || c > '9' {
            return None;
        }
        let d: u64 = c as u64 - 48;
        proof {
            let t = digits.take(i + 1 - start);
            assert(t.drop_last() =~= digits.take(i - start));
            assert(t.last() == c);
            assert(digits_value(t) == 10 * value + d);
            if 10 * value + d > max && all_digits(digits) {
                lemma_digits_value_prefix(digits, i + 1 - start);
            }
        }
        if value > max / 10 {
            proof {
                assert(10 * value > max);
            }
            return None;
        }
        let tens: u64 = value * 10;
        if d > max - tens {
            return None;
        }
        value = tens + d;
        i += 1;
    }
    proof {
        assert(digits.take(digits.len() as int) =~= digits);
    }
    Some(value)
}

// ─── Case ─────────────────────────────────────────────────────────────────

/// The upper-case form of an ASCII letter; other characters stay.
pub open spec fn ascii_upper(c: char) -> char {
    if 'a' <= c <= 'z' {
        (c as u32 - 32) as char
    } else {
        c
    }
}

/// The text with its ASCII letters in upper case.
pub open spec fn ascii_uppercase(s: Seq<char>) -> Seq<char> {
    s.map_values(|c: char| ascii_upper(c))
}

/// Whether every character is ASCII.
pub open spec fn is_ascii_text(s: Seq<char>) -> bool {
    forall|i: int| 0 <= i < s.len() ==> (#[trigger] s[i]) as u32 <= 127
}

/// What `str::to_uppercase` makes of a text: its upper-case form by the rules
/// of Unicode.
pub uninterp spec fn uppercase(s: Seq<char>) -> Seq<char>;

/// `str::to_uppercase`. The claim is that the result depends on the text
/// alone, and that of an ASCII text it is the text with its ASCII letters in
/// upper case.
#[verifier::external_body]
pub(crate) fn to_upper(s: &str) -> (out: String)
    ensures
        out@ == uppercase(s@),
        is_ascii_text(s@) ==> out@ == ascii_uppercase(s@),
{
    s.to_uppercase()
}

fn upper_char(c: char) -> (r: char)
    ensures
        r == ascii_upper(c),
{
    if 'a' <= c && c <= 'z' {
        let n: u8 = c as u8;
        (n - 32) as char
    } else {
        c
    }
}

/// The text with its ASCII letters in upper case.
pub fn to_ascii_upper(s: &str) -> (out: String)
    ensures
        out@ == ascii_uppercase(s@),
{
    let chars = chars_of(s);
    let mut out = String::new();
    let mut i: usize = 0;
    while i < chars.len()
        invariant
            i <= chars@.len(),
            chars@ == s@,
            out@ == ascii_uppercase(s@).take(i as int),
        decreases chars@.len() - i,
    {
        out.push(upper_char(chars[i]));
        i += 1;
    }
    proof {
        assert(ascii_uppercase(s@).take(s@.len() as int) =~= ascii_uppercase(s@));
    }
    out
}

// ─── White space ──────────────────────────────────────────────────────────

/// The characters that Unicode counts as white space.
pub open spec fn is_space(c: char) -> bool {
    let n = c as u32;
    ||| 9 <= n <= 13
    ||| n == 0x20
    ||| n == 0x85
    ||| n == 0xa0
    ||| n == 0x1680
    ||| 0x2000 <= n <= 0x200a
    ||| n == 0x2028
    ||| n == 0x2029
    ||| n == 0x202f
    ||| n == 0x205f
    ||| n == 0x3000
}

/// Whether Unicode counts the character as white space.
pub fn space(c: char) -> (r: bool)
    ensures
        r == is_space(c),
{
    let n: u32 = c as u32;
    (9 <= n && n <= 13) || n == 0x20 || n == 0x85 || n == 0xa0 || n == 0x1680 || (0x2000 <= n && n
        <= 0x200a) || n == 0x2028 || n == 0x2029 || n == 0x202f || n == 0x205f || n == 0x3000
}

/// The text without the white space at its start.
pub open spec fn trimmed_start(s: Seq<char>) -> Seq<char>
    decreases s.len(),
{
    if s.len() > 0 && is_space(s[0]) {
        trimmed_start(s.drop_first())
    } else {
        s
    }
}

/// The text without the white space at its end.
pub open spec fn trimmed_end(s: Seq<char>) -> Seq<char>
    decreases s.len(),
{
    if s.len() > 0 && is_space(s.last()) {
        trimmed_end(s.drop_last())
    } else {
        s
    }
}

/// The text without the white space at its start and end.
pub open spec fn trimmed(s: Seq<char>) -> Seq<char> {
    trimmed_end(trimmed_start(s))
}

/// The text without the white space at its end.
pub fn trim_end(s: &str) -> (out: String)
    ensures
        out@ == trimmed_end(s@),
{
    let chars = chars_of(s);
    let mut to: usize = chars.len();
    proof {
        assert(s@.take(s@.len() as int) =~= s@);
    }
    while to > 0 && space(chars[to - 1])
        invariant
            chars@ == s@,
            to <= s@.len(),
            trimmed_end(s@) == trimmed_end(s@.take(to as int)),
        decreases to,
    {
        proof {
            assert(s@.take(to as int).drop_last() =~= s@.take(to - 1));
        }
        to -= 1;
    }
    proof {
        assert(s@.subrange(0, to as int) =~= s@.take(to as int));
    }
    slice_text(&chars, 0, to)
}

/// The text without the white space at its start.
pub fn trim_start(s: &str) -> (out: String)
    ensures
        out@ == trimmed_start(s@),
{
    let chars = chars_of(s);
    let mut from: usize = 0;
    proof {
        assert(s@.skip(0) =~= s@);
    }
    while from < chars.len() && space(chars[from])
        invariant
            chars@ == s@,
            from <= s@.len(),
            trimmed_start(s@) == trimmed_start(s@.skip(from as int)),
        decreases s@.len() - from,
    {
        proof {
            assert(s@.skip(from as int).drop_first() =~= s@.skip(from + 1));
        }
        from += 1;
    }
    proof {
        assert(s@.subrange(from as int, s@.len() as int) =~= s@.skip(from as int));
    }
    slice_text(&chars, from, chars.len())
}

/// The text without the white space at its start and end.
pub fn trim(s: &str) -> (out: String)
    ensures
        out@ == trimmed(s@),
{
    let tail = trim_start(s);
    trim_end(tail.as_str())
}

// ─── Lists of names ───────────────────────────────────────────────────────

/// Adds a text to a list that holds each text once.
pub fn add_once(list: &mut Vec<String>, s: &str)
    requires
        models(old(list)@).no_duplicates(),
    ensures
        models(final(list)@).no_duplicates(),
        models(final(list)@) == if models(old(list)@).contains(s@) {
            models(old(list)@)
        } else {
            models(old(list)@).push(s@)
        },
        forall|t: Seq<char>| #[trigger]
            models(final(list)@).contains(t) <==> models(old(list)@).contains(t) || t == s@,
{
    let ghost had = models(list@);
    if !list_contains(list, s) {
        push_model(list, s.to_owned());
        proof {
            let has = models(list@);
            assert(has[had.len() as int] == s@);
            assert forall|t: Seq<char>| #[trigger] has.contains(t) <==> had.contains(t) || t
                == s@ by {
                if had.contains(t) {
                    let i = choose|i: int| 0 <= i < had.len() && had[i] == t;
                    assert(has[i] == t);
                }
                if has.contains(t) && t != s@ {
                    let i = choose|i: int| 0 <= i < has.len() && has[i] == t;
                    assert(had[i] == t);
                }
            }
        }
    }
}

// ─── More of case ─────────────────────────────────────────────────────────

/// The lower-case form of an ASCII letter; other characters stay.
pub open spec fn ascii_lower(c: char) -> char {
    if 'A' <= c <= 'Z' {
        (c as u32 + 32) as char
    } else {
        c
    }
}

/// The text with its ASCII letters in lower case.
pub open spec fn ascii_lowercase(s: Seq<char>) -> Seq<char> {
    s.map_values(|c: char| ascii_lower(c))
}

/// What `str::to_lowercase` makes of a text: its lower-case form by the rules
/// of Unicode.
pub uninterp spec fn lowercase(s: Seq<char>) -> Seq<char>;

/// `str::to_lowercase`. The claim is that the result depends on the text
/// alone, and that of an ASCII text it is the text with its ASCII letters in
/// lower case.
#[verifier::external_body]
pub(crate) fn to_lower(s: &str) -> (out: String)
    ensures
        out@ == lowercase(s@),
        is_ascii_text(s@) ==> out@ == ascii_lowercase(s@),
{
    s.to_lowercase()
}

/// The lower-case form of an ASCII letter; other characters stay.
pub fn lower_char(c: char) -> (r: char)
    ensures
        r == ascii_lower(c),
{
    if 'A' <= c && c <= 'Z' {
        let n: u8 = c as u8;
        (n + 32) as char
    } else {
        c
    }
}

/// What `char::is_alphabetic` says of a character.
pub uninterp spec fn alphabetic(c: char) -> bool;

/// Whether the character is one of `A` to `Z` or `a` to `z`.
pub open spec fn is_ascii_letter(c: char) -> bool {
    'A' <= c <= 'Z' || 'a' <= c <= 'z'
}

/// `char::is_alphabetic`. The claim is that the result depends on the
/// character alone, and that of the ASCII characters the letters are
/// alphabetic and no others.
#[verifier::external_body]
pub(crate) fn is_alphabetic(c: char) -> (r: bool)
    ensures
        r == alphabetic(c),
        c as u32 <= 127 ==> r == is_ascii_letter(c),
{
    c.is_alphabetic()
}

/// What `String::from_utf8_lossy` reads in a sequence of bytes.
pub uninterp spec fn lossy(bytes: Seq<u8>) -> Seq<char>;

/// `String::from_utf8_lossy`. The claim is that the result depends on the
/// bytes alone, and that valid UTF-8 is read as it stands.
#[verifier::external_body]
pub(crate) fn from_lossy(bytes: &[u8]) -> (out: String)
    ensures
        out@ == lossy(bytes@),
        vstd::utf8::valid_utf8(bytes@) ==> out@ == decode_utf8(bytes@),
{
    String::from_utf8_lossy(bytes).into_owned()
}

// ─── Wide numbers ─────────────────────────────────────────────────────────

/// The decimal notation of a wide number.
pub fn wide_decimal_text(n: u128) -> (out: String)
    ensures
        out@ == decimal(n as nat),
    decreases n,
{
    if n < 10 {
        decimal_text(n as u64)
    } else {
        let mut out = wide_decimal_text(n / 10);
        out.push(digit((n % 10) as u64));
        out
    }
}

// ─── File names ───────────────────────────────────────────────────────────

/// Position of the last occurrence of the character.
pub open spec fn last_of(s: Seq<char>, c: char) -> Option<int>
    decreases s.len(),
{
    if s.len() == 0 {
        None
    } else if s.last() == c {
        Some(s.len() - 1)
    } else {
        last_of(s.drop_last(), c)
    }
}

/// The last position of a character lies within the text.
pub proof fn lemma_last_of_range(s: Seq<char>, c: char)
    ensures
        last_of(s, c) matches Some(i) ==> 0 <= i < s.len(),
    decreases s.len(),
{
    if s.len() > 0 {
        lemma_last_of_range(s.drop_last(), c);
    }
}

/// The extension of a file name: what follows its last dot, unless that dot
/// is its first character.
pub open spec fn extension(name: Seq<char>) -> Option<Seq<char>> {
    match last_of(name, '.') {
        Some(i) => if i > 0 && name != seq!['.', '.'] {
            Some(name.skip(i + 1))
        } else {
            None
        },
        None => None,
    }
}

/// Position of the last occurrence of the character.
pub fn rfind_char(chars: &[char], c: char) -> (r: Option<usize>)
    ensures
        match r {
            Some(i) => last_of(chars@, c) == Some(i as int) && i < chars@.len(),
            None => last_of(chars@, c) is None,
        },
{
    let mut n: usize = chars.len();
    proof {
        assert(chars@.take(n as int) =~= chars@);
    }
    while n > 0
        invariant
            n <= chars@.len(),
            last_of(chars@, c) == last_of(chars@.take(n as int), c),
        decreases n,
    {
        proof {
            assert(chars@.take(n as int).drop_last() =~= chars@.take(n - 1));
        }
        if chars[n - 1] == c {
            return Some(n - 1);
        }
        n -= 1;
    }
    None
}

/// The extension of a file name.
pub fn extension_of(name: &str) -> (r: Option<String>)
    ensures
        match r {
            Some(e) => extension(name@) == Some(e@),
            None => extension(name@) is None,
        },
{
    let chars = chars_of(name);
    if chars.len() == 2 && chars[0] == '.' && chars[1] == '.' {
        proof {
            assert(name@ =~= seq!['.', '.']);
        }
        return None;
    }
    match rfind_char(&chars, '.') {
        Some(i) => {
            if i == 0 {
                None
            } else {
                proof {
                    assert(name@.subrange(i + 1, name@.len() as int) =~= name@.skip(i + 1));
                }
                Some(slice_text(&chars, i + 1, chars.len()))
            }
        },
        None => None,
    }
}

// ─── Counting ─────────────────────────────────────────────────────────────

/// How often `p` stands in `s` from a position on, counted without overlap.
pub open spec fn count_text(s: Seq<char>, p: Seq<char>, from: int) -> nat
    decreases s.len() + 1 - from,
{
    if from < 0 || p.len() == 0 {
        0
    } else {
        match find_text(s, p, from) {
            Some(i) => {
                proof {
                    lemma_find_text(s, p, from);
                }
                1 + count_text(s, p, i + p.len())
            },
            None => 0,
        }
    }
}

/// How often `p`, which is not empty, stands in `s`, counted without overlap.
pub fn count_matches(s: &str, p: &str) -> (n: usize)
    requires
        p@.len() > 0,
    ensures
        n == count_text(s@, p@, 0),
{
    let chars = chars_of(s);
    let pat = chars_of(p);
    let len: usize = chars.len();
    let mut n: usize = 0;
    let mut pos: usize = 0;
    let mut more: bool = true;
    while more
        invariant
            len == chars@.len(),
            chars@ == s@,
            pat@ == p@,
            p@.len() > 0,
            pos <= chars@.len(),
            n <= pos,
            more ==> count_text(s@, p@, 0) == n + count_text(s@, p@, pos as int),
            !more ==> count_text(s@, p@, 0) == n,
        decreases chars@.len() - pos + (if more {
            1int
        } else {
            0
        }),
    {
        match find_from(&chars, &pat, pos) {
            Some(i) => {
                proof {
                    lemma_find_text(s@, p@, pos as int);
                }
                n += 1;
                pos = i + pat.len();
            },
            None => {
                more = false;
            },
        }
    }
    n
}

/// The text with one character in place of another.
pub open spec fn replaced(s: Seq<char>, from: char, to: char) -> Seq<char> {
    s.map_values(
        |c: char|
            if c == from {
                to
            } else {
                c
            },
    )
}

/// The text with one character in place of another.
pub fn replace_char(s: &str, from: char, to: char) -> (out: String)
    ensures
        out@ == replaced(s@, from, to),
{
    let chars = chars_of(s);
    let mut out = String::new();
    let mut i: usize = 0;
    while i < chars.len()
        invariant
            chars@ == s@,
            i <= chars@.len(),
            out@ == replaced(s@, from, to).take(i as int),
        decreases chars@.len() - i,
    {
        let c: char = chars[i];
        if c == from {
            out.push(to);
        } else {
            out.push(c);
        }
        i += 1;
    }
    proof {
        assert(replaced(s@, from, to).take(s@.len() as int) =~= replaced(s@, from, to));
    }
    out
}

// ─── Lines ────────────────────────────────────────────────────────────────

/// Position of the first `c` in `s` at or after `from`; the length without one.
pub open spec fn next_of(s: Seq<char>, c: char, from: int) -> int
    decreases s.len() - from,
{
    if from < 0 || from >= s.len() || s[from] == c {
        from
    } else {
        next_of(s, c, from + 1)
    }
}

/// A line without the carriage return before its end.
pub open spec fn without_return(s: Seq<char>) -> Seq<char> {
    if s.len() > 0 && s.last() == '\r' {
        s.drop_last()
    } else {
        s
    }
}

/// The lines of `s` from `from` on. A line ends in a line feed, or in a
/// carriage return and one; the last line need not end.
pub open spec fn lines_from(s: Seq<char>, from: int) -> Seq<Seq<char>>
    decreases s.len() - from,
{
    if from < 0 || from >= s.len() {
        Seq::empty()
    } else {
        let e = next_of(s, '\n', from);
        if e < from || e >= s.len() {
            seq![s.subrange(from, s.len() as int)]
        } else {
            seq![without_return(s.subrange(from, e))] + lines_from(s, e + 1)
        }
    }
}

/// Position of the first `c` at or after `from`; the length without one.
pub fn find_char(chars: &[char], c: char, from: usize) -> (r: usize)
    requires
        from <= chars@.len(),
    ensures
        r == next_of(chars@, c, from as int),
        from <= r <= chars@.len(),
        r < chars@.len() ==> chars@[r as int] == c,
        forall|i: int| from <= i < r ==> chars@[i] != c,
{
    let mut i: usize = from;
    while i < chars.len() && chars[i] != c
        invariant
            from <= i <= chars@.len(),
            next_of(chars@, c, from as int) == next_of(chars@, c, i as int),
            forall|k: int| from <= k < i ==> chars@[k] != c,
        decreases chars@.len() - i,
    {
        i += 1;
    }
    i
}

/// The lines of a text.
pub fn lines(s: &str) -> (out: Vec<String>)
    ensures
        models(out@) == lines_from(s@, 0),
{
    let chars = chars_of(s);
    let len: usize = chars.len();
    let mut out: Vec<String> = Vec::new();
    let mut pos: usize = 0;
    proof {
        assert(models(out@) + lines_from(s@, 0) =~= lines_from(s@, 0));
    }
    while pos < len
        invariant
            chars@ == s@,
            len == chars@.len(),
            pos <= len,
            models(out@) + lines_from(s@, pos as int) == lines_from(s@, 0),
        decreases len - pos,
    {
        let ghost had = models(out@);
        let e: usize = find_char(&chars, '\n', pos);
        if e == len {
            push_model(&mut out, slice_text(&chars, pos, len));
            proof {
                assert(models(out@) + lines_from(s@, len as int) =~= had + lines_from(
                    s@,
                    pos as int,
                ));
            }
            pos = len;
        } else {
            let end: usize = if e > pos && chars[e - 1] == '\r' {
                e - 1
            } else {
                e
            };
            proof {
                let line = s@.subrange(pos as int, e as int);
                if e > pos {
                    assert(line.last() == s@[e - 1]);
                    assert(line.drop_last() =~= s@.subrange(pos as int, e - 1));
                }
            }
            push_model(&mut out, slice_text(&chars, pos, end));
            proof {
                assert(models(out@) + lines_from(s@, e + 1) =~= had + lines_from(s@, pos as int));
            }
            pos = e + 1;
        }
    }
    proof {
        assert(models(out@) + lines_from(s@, pos as int) =~= models(out@));
    }
    out
}

// ─── Decimal fractions ────────────────────────────────────────────────────

/// Ten to the power of `k`.
pub open spec fn power_of_ten(k: nat) -> nat
    decreases k,
{
    if k == 0 {
        1
    } else {
        10 * power_of_ten((k - 1) as nat)
    }
}

/// The digits of `f` behind the decimal point, where it counts units of
/// the `places`-th place, without zeros at their end.
pub open spec fn fraction_digits(f: nat, places: nat) -> Seq<char>
    decreases places,
{
    if f == 0 || places == 0 {
        Seq::empty()
    } else {
        let unit = power_of_ten((places - 1) as nat);
        seq![digit_char(f / unit)] + fraction_digits(f % unit, (places - 1) as nat)
    }
}

/// The shortest decimal text of `n` units of the `places`-th place.
pub open spec fn fixed(n: nat, places: nat) -> Seq<char> {
    let unit = power_of_ten(places);
    decimal(n / unit) + (if n % unit == 0 {
        Seq::empty()
    } else {
        "."@ + fraction_digits(n % unit, places)
    })
}

proof fn lemma_power_of_ten(k: nat)
    requires
        k <= 9,
    ensures
        1 <= power_of_ten(k) <= 1_000_000_000,
        k > 0 ==> power_of_ten(k) == 10 * power_of_ten((k - 1) as nat),
{
    reveal_with_fuel(power_of_ten, 10);
}

fn power10(k: u32) -> (r: u64)
    requires
        k <= 9,
    ensures
        r == power_of_ten(k as nat),
        1 <= r <= 1_000_000_000,
{
    let mut r: u64 = 1;
    let mut i: u32 = 0;
    while i < k
        invariant
            i <= k <= 9,
            r == power_of_ten(i as nat),
            1 <= r <= 1_000_000_000,
        decreases k - i,
    {
        proof {
            lemma_power_of_ten((i + 1) as nat);
        }
        r = r * 10;
        i += 1;
    }
    r
}

/// The shortest decimal text of `n` units of the `places`-th place.
#[verifier::spinoff_prover]
#[verifier::rlimit(60)]
pub fn fixed_text(n: u128, places: u32) -> (out: String)
    requires
        places <= 9,
    ensures
        out@ == fixed(n as nat, places as nat),
{
    let unit: u64 = power10(places);
    let mut out = wide_decimal_text(n / unit as u128);
    let mut f: u64 = (n % unit as u128) as u64;
    if f == 0 {
        proof {
            assert(out@ + Seq::<char>::empty() =~= out@);
        }
        return out;
    }
    out.append(".");
    let ghost had = out@;
    let ghost start = f as nat;
    let mut k: u32 = places;
    let mut u: u64 = unit;
    proof {
        assert(had + fraction_digits(start, places as nat) =~= out@ + fraction_digits(
            f as nat,
            k as nat,
        ));
    }
    while f != 0 && k > 0
        invariant
            k <= places <= 9,
            u == power_of_ten(k as nat),
            u <= 1_000_000_000,
            f < u,
            had + fraction_digits(start, places as nat) == out@ + fraction_digits(
                f as nat,
                k as nat,
            ),
        decreases k,
    {
        proof {
            lemma_power_of_ten(k as nat);
            lemma_power_of_ten((k - 1) as nat);
        }
        u = u / 10;
        let d: u64 = f / u;
        proof {
            assert(f / u < 10) by (nonlinear_arith)
                requires
                    f < 10 * u,
                    u > 0,
            ;
            assert(f % u < u) by (nonlinear_arith)
                requires
                    u > 0,
            ;
        }
        let ghost before = out@;
        out.push(digit(d));
        proof {
            assert(before + fraction_digits(f as nat, k as nat) =~= out@ + fraction_digits(
                (f % u) as nat,
                (k - 1) as nat,
            ));
        }
        f = f % u;
        k -= 1;
    }
    proof {
        if k == 0 {
            assert(u == 1);
        }
        assert(out@ + fraction_digits(f as nat, k as nat) =~= out@);
    }
    out
}

/// A length in nanometres as a text in millimetres.
pub open spec fn millimetres(nm: int) -> Seq<char> {
    if nm < 0 {
        "-"@ + fixed((-nm) as nat, 6)
    } else {
        fixed(nm as nat, 6)
    }
}

/// A length in nanometres as a text in millimetres.
pub fn millimetre_text(nm: i64) -> (out: String)
    ensures
        out@ == millimetres(nm as int),
{
    if nm < 0 {
        let magnitude: u128 = (0 - nm as i128) as u128;
        let t = fixed_text(magnitude, 6);
        cat2("-", t.as_str())
    } else {
        fixed_text(nm as u128, 6)
    }
}

// ─── Signed numerals ──────────────────────────────────────────────────────

/// The value of a numeral that may have a minus sign, if it fits in 32 bits.
pub open spec fn signed_value(s: Seq<char>) -> Option<int> {
    if s.len() > 0 && s[0] == '-' {
        let digits = s.drop_first();
        if digits.len() > 0 && digits[0] == '+' {
            None
        } else {
            match numeral_value(digits, 0x8000_0000) {
                Some(n) => Some(-(n as int)),
                None => None,
            }
        }
    } else {
        match numeral_value(s, 0x7fff_ffff) {
            Some(n) => Some(n as int),
            None => None,
        }
    }
}

/// The value of a numeral that may have a minus sign, if it fits in 32 bits.
pub fn parse_signed(s: &str) -> (r: Option<i32>)
    ensures
        match r {
            Some(n) => signed_value(s@) == Some(n as int),
            None => signed_value(s@) is None,
        },
{
    let chars = chars_of(s);
    let len: usize = chars.len();
    if len > 0 && chars[0] == '-' {
        if len > 1 && chars[1] == '+' {
            return None;
        }
        let digits = slice_text(&chars, 1, len);
        proof {
            assert(digits@ =~= s@.drop_first());
        }
        match parse_numeral(digits.as_str(), 0x8000_0000) {
            Some(n) => Some((0 - n as i64) as i32),
            None => None,
        }
    } else {
        match parse_numeral(s, 0x7fff_ffff) {
            Some(n) => Some(n as i32),
            None => None,
        }
    }
}

/// The decimal notation of a number that may be negative.
pub open spec fn signed_decimal(n: int) -> Seq<char> {
    if n < 0 {
        "-"@ + decimal((-n) as nat)
    } else {
        decimal(n as nat)
    }
}

/// The decimal notation of a number that may be negative.
pub fn signed_text(n: i32) -> (out: String)
    ensures
        out@ == signed_decimal(n as int),
{
    if n < 0 {
        let t = decimal_text((0 - n as i64) as u64);
        cat2("-", t.as_str())
    } else {
        decimal_text(n as u64)
    }
}

/// Decimal notation is made of digits, at least one.
pub proof fn lemma_decimal_digits(n: nat)
    ensures
        decimal(n).len() > 0,
        all_digits(decimal(n)),
    decreases n,
{
    if n >= 10 {
        lemma_decimal_digits(n / 10);
    }
}

/// Different numbers are written differently.
pub proof fn law_decimal_is_injective(a: nat, b: nat)
    requires
        decimal(a) == decimal(b),
    ensures
        a == b,
    decreases a,
{
    lemma_decimal_digits(a / 10);
    lemma_decimal_digits(b / 10);
    if a >= 10 && b >= 10 {
        let (x, y) = (decimal(a), decimal(b));
        assert(x.drop_last() =~= decimal(a / 10));
        assert(y.drop_last() =~= decimal(b / 10));
        law_decimal_is_injective(a / 10, b / 10);
        assert(x.last() == digit_char(a % 10));
        assert(y.last() == digit_char(b % 10));
    } else if a < 10 && b < 10 {
        assert(decimal(a)[0] == digit_char(a));
        assert(decimal(b)[0] == digit_char(b));
    } else if a < 10 {
        assert(decimal(b).len() == decimal(b / 10).len() + 1);
    } else {
        assert(decimal(a).len() == decimal(a / 10).len() + 1);
    }
}

/// Reading a number back from its decimal notation gives the number.
pub proof fn law_decimal_is_read_back(n: nat, max: nat)
    ensures
        n <= max ==> numeral_value(decimal(n), max) == Some(n),
        n > max ==> numeral_value(decimal(n), max) is None,
{
    lemma_decimal_digits(n);
    lemma_decimal_value(n);
    assert(is_digit(decimal(n)[0]));
}

/// The digits of a number denote it.
pub proof fn lemma_decimal_value(n: nat)
    ensures
        digits_value(decimal(n)) == n,
    decreases n,
{
    if n >= 10 {
        lemma_decimal_value(n / 10);
        assert(decimal(n).drop_last() =~= decimal(n / 10));
    } else {
        let s = decimal(n);
        assert(s.drop_last() =~= Seq::empty());
        assert(s.last() == digit_char(n));
        assert(digits_value(s.drop_last()) == 0);
    }
}

/// Searching starts anywhere before which nothing is to be found.
pub proof fn lemma_find_from(s: Seq<char>, p: Seq<char>, from: int, to: int)
    requires
        0 <= from <= to,
        forall|j: int| from <= j < to ==> !#[trigger] occurs_at(s, p, j),
    ensures
        find_text(s, p, from) == find_text(s, p, to),
{
    lemma_find_text(s, p, from);
    lemma_find_text(s, p, to);
    match find_text(s, p, from) {
        Some(x) => {
            assert(occurs_at(s, p, x));
        },
        None => {},
    }
    match find_text(s, p, to) {
        Some(x) => {
            assert(occurs_at(s, p, x));
        },
        None => {},
    }
}

/// In a text that holds the same characters further on, the search finds the
/// same place further on.
pub proof fn lemma_find_shift(
    s: Seq<char>,
    t: Seq<char>,
    p: Seq<char>,
    from: int,
    d: int,
    end: int,
)
    requires
        0 <= from,
        0 <= from + d,
        find_text(s, p, from) matches Some(i) && i + p.len() <= end,
        end <= s.len(),
        end + d <= t.len(),
        forall|m: int| #![trigger s[m]] from <= m < end ==> t[m + d] == s[m],
    ensures
        find_text(t, p, from + d) == Some(find_text(s, p, from)->0 + d),
{
    let i = find_text(s, p, from)->0;
    lemma_find_text(s, p, from);
    lemma_find_text(t, p, from + d);
    assert(t.subrange(i + d, i + d + p.len()) =~= s.subrange(i, i + p.len()));
    assert(occurs_at(t, p, i + d));
    match find_text(t, p, from + d) {
        Some(x) => {
            if x < i + d {
                assert(t.subrange(x, x + p.len()) =~= s.subrange(x - d, x - d + p.len()));
                assert(occurs_at(s, p, x - d));
            }
        },
        None => {},
    }
}

/// In a text that ends in the same characters, nothing is found where nothing
/// was.
pub proof fn lemma_find_none_shift(s: Seq<char>, t: Seq<char>, p: Seq<char>, from: int, d: int)
    requires
        0 <= from,
        0 <= from + d,
        find_text(s, p, from) is None,
        t.len() == s.len() + d,
        forall|m: int| #![trigger s[m]] from <= m < s.len() ==> t[m + d] == s[m],
    ensures
        find_text(t, p, from + d) is None,
{
    lemma_find_text(s, p, from);
    lemma_find_text(t, p, from + d);
    match find_text(t, p, from + d) {
        Some(x) => {
            assert(t.subrange(x, x + p.len()) =~= s.subrange(x - d, x - d + p.len()));
            assert(occurs_at(s, p, x - d));
        },
        None => {},
    }
}

/// The decimal notation of a number that is not zero begins with another digit
/// than zero.
pub proof fn lemma_decimal_first(n: nat)
    ensures
        n > 0 ==> decimal(n)[0] != '0',
        n == 0 ==> decimal(n) == seq!['0'],
    decreases n,
{
    if n >= 10 {
        lemma_decimal_first(n / 10);
        lemma_decimal_digits(n / 10);
        assert(decimal(n)[0] == decimal(n / 10)[0]);
    }
}

/// Trimming takes white space off both ends and nothing else: what is left is
/// the part of the text between, and neither begins nor ends in white space.
pub proof fn law_trimming(s: Seq<char>) -> (bounds: (int, int))
    ensures
        0 <= bounds.0 <= bounds.1 <= s.len(),
        trimmed(s) == s.subrange(bounds.0, bounds.1),
        forall|i: int| 0 <= i < bounds.0 ==> is_space(#[trigger] s[i]),
        forall|i: int| bounds.1 <= i < s.len() ==> is_space(#[trigger] s[i]),
        trimmed(s).len() > 0 ==> !is_space(trimmed(s)[0]) && !is_space(trimmed(s).last()),
{
    let a = lemma_trimmed_start(s);
    let t = s.skip(a);
    let b = lemma_trimmed_end(t);
    assert(t.take(b) =~= s.subrange(a, a + b));
    assert forall|i: int| a + b <= i < s.len() implies is_space(#[trigger] s[i]) by {
        assert(t[i - a] == s[i]);
    }
    if b > 0 {
        assert(t.take(b)[0] == t[0]);
    }
    (a, a + b)
}

proof fn lemma_trimmed_start(s: Seq<char>) -> (a: int)
    ensures
        0 <= a <= s.len(),
        trimmed_start(s) == s.skip(a),
        forall|i: int| 0 <= i < a ==> is_space(#[trigger] s[i]),
        a < s.len() ==> !is_space(s[a]),
    decreases s.len(),
{
    if s.len() > 0 && is_space(s[0]) {
        let rest = s.drop_first();
        let a = lemma_trimmed_start(rest);
        assert(rest.skip(a) =~= s.skip(a + 1));
        assert forall|i: int| 0 <= i < a + 1 implies is_space(#[trigger] s[i]) by {
            if i > 0 {
                assert(rest[i - 1] == s[i]);
            }
        }
        if a + 1 < s.len() {
            assert(rest[a] == s[a + 1]);
        }
        a + 1
    } else {
        assert(s.skip(0) =~= s);
        0
    }
}

proof fn lemma_trimmed_end(s: Seq<char>) -> (b: int)
    ensures
        0 <= b <= s.len(),
        trimmed_end(s) == s.take(b),
        forall|i: int| b <= i < s.len() ==> is_space(#[trigger] s[i]),
        b > 0 ==> !is_space(s[b - 1]),
    decreases s.len(),
{
    if s.len() > 0 && is_space(s.last()) {
        let rest = s.drop_last();
        let b = lemma_trimmed_end(rest);
        assert(rest.take(b) =~= s.take(b));
        assert forall|i: int| b <= i < s.len() implies is_space(#[trigger] s[i]) by {
            if i < rest.len() {
                assert(rest[i] == s[i]);
            }
        }
        if b > 0 {
            assert(rest[b - 1] == s[b - 1]);
        }
        b
    } else {
        assert(s.take(s.len() as int) =~= s);
        s.len() as int
    }
}

/// A text without white space at its ends is its own trimming.
pub proof fn lemma_trimmed_itself(s: Seq<char>)
    requires
        s.len() > 0,
        !is_space(s[0]),
        !is_space(s.last()),
    ensures
        trimmed(s) == s,
{
}

/// The extension of a name is what stands behind its last dot; a name whose only
/// dot comes first has none.
pub proof fn law_extension_is_behind_the_last_dot(base: Seq<char>, ext: Seq<char>)
    requires
        base.len() > 0,
        !ext.contains('.'),
        ext.len() > 0,
    ensures
        extension(base + seq!['.'] + ext) == Some(ext),
        !base.contains('.') ==> extension(base) is None,
        extension(seq!['.'] + ext) is None,
{
    lemma_last_dot(base, ext);
    lemma_last_dot(Seq::empty(), ext);
    let s = base + seq!['.'] + ext;
    assert(s.skip(base.len() as int + 1) =~= ext);
    assert(s != seq!['.', '.']) by {
        assert(s.last() == ext.last());
        if s.last() == '.' {
            assert(ext[ext.len() - 1] == '.');
            assert(ext.contains('.'));
        }
        assert(seq!['.', '.'].last() == '.');
    }
    assert(Seq::<char>::empty() + seq!['.'] + ext =~= seq!['.'] + ext);
    if !base.contains('.') {
        lemma_no_last(base, '.');
    }
}

proof fn lemma_no_last(s: Seq<char>, c: char)
    requires
        !s.contains(c),
    ensures
        last_of(s, c) is None,
    decreases s.len(),
{
    if s.len() > 0 {
        assert(s[s.len() - 1] != c) by {
            if s[s.len() - 1] == c {
                assert(s.contains(c));
            }
        }
        let rest = s.drop_last();
        assert(!rest.contains(c)) by {
            if rest.contains(c) {
                let i = rest.index_of(c);
                assert(s[i] == c);
            }
        }
        lemma_no_last(rest, c);
    }
}

proof fn lemma_last_dot(base: Seq<char>, ext: Seq<char>)
    requires
        !ext.contains('.'),
    ensures
        last_of(base + seq!['.'] + ext, '.') == Some(base.len() as int),
    decreases ext.len(),
{
    let s = base + seq!['.'] + ext;
    if ext.len() > 0 {
        let rest = ext.drop_last();
        assert(!rest.contains('.')) by {
            if rest.contains('.') {
                let i = rest.index_of('.');
                assert(ext[i] == '.');
            }
        }
        assert(s.last() == ext[ext.len() - 1]);
        assert(s.last() != '.') by {
            if ext[ext.len() - 1] == '.' {
                assert(ext.contains('.'));
            }
        }
        assert(s.drop_last() =~= base + seq!['.'] + rest);
        lemma_last_dot(base, rest);
    } else {
        assert(s.last() == '.');
    }
}

/// The value of digits, of which the first counts for the most.
proof fn lemma_digits_cons(d: char, rest: Seq<char>)
    requires
        is_digit(d),
        all_digits(rest),
    ensures
        digits_value(seq![d] + rest) == (d as nat - 48) * power_of_ten(rest.len()) + digits_value(
            rest,
        ),
    decreases rest.len(),
{
    let s = seq![d] + rest;
    if rest.len() == 0 {
        assert(s =~= seq![d]);
        assert(s.drop_last() =~= Seq::empty());
        assert(digits_value(s.drop_last()) == 0);
        assert(power_of_ten(0) == 1);
    } else {
        let before = rest.drop_last();
        assert(s.drop_last() =~= seq![d] + before);
        lemma_digits_cons(d, before);
        let v = d as nat - 48;
        let p = power_of_ten(before.len());
        assert(power_of_ten(rest.len()) == 10 * p);
        assert(v * (10 * p) == 10 * (v * p)) by (nonlinear_arith);
    }
}

/// The digits behind the decimal point are the shortest that denote the fraction:
/// filled up with zeros to the number of places they are its value, and they do
/// not end in a zero.
pub proof fn law_fraction_digits(f: nat, places: nat)
    requires
        places <= 9,
        f < power_of_ten(places),
    ensures
        fraction_digits(f, places).len() <= places,
        all_digits(fraction_digits(f, places)),
        digits_value(fraction_digits(f, places)) * power_of_ten(
            (places - fraction_digits(f, places).len()) as nat,
        ) == f,
        f > 0 ==> fraction_digits(f, places).len() > 0 && fraction_digits(f, places).last() != '0',
    decreases places,
{
    let s = fraction_digits(f, places);
    lemma_power_of_ten(places);
    if f == 0 || places == 0 {
        assert(digits_value(s) == 0);
        assert(0 * power_of_ten(places) == 0) by (nonlinear_arith);
    } else {
        lemma_power_of_ten((places - 1) as nat);
        let unit = power_of_ten((places - 1) as nat);
        let d = f / unit;
        let rest = fraction_digits(f % unit, (places - 1) as nat);
        assert(d < 10 && f % unit < unit && f == unit * d + f % unit) by (nonlinear_arith)
            requires
                unit > 0,
                f < 10 * unit,
                d == f / unit,
        ;
        law_fraction_digits(f % unit, (places - 1) as nat);
        assert(is_digit(digit_char(d)));
        lemma_digits_cons(digit_char(d), rest);
        let left = (places - s.len()) as nat;
        assert(left == places - 1 - rest.len());
        lemma_powers_multiply(rest.len(), left);
        let (p, q, v) = (power_of_ten(rest.len()), power_of_ten(left), digits_value(rest));
        assert(p * q == unit);
        assert((d * p + v) * q == d * (p * q) + v * q) by (nonlinear_arith);
        assert(d * unit == unit * d) by (nonlinear_arith);
        if rest.len() > 0 {
            assert(s.last() == rest.last());
        } else {
            assert(s.last() == digit_char(d));
            assert(f % unit == 0) by {
                if f % unit > 0 {
                    assert(rest.len() > 0);
                }
            }
            if d == 0 {
                assert(unit * d == 0) by (nonlinear_arith)
                    requires
                        d == 0,
                ;
            }
        }
    }
}

proof fn lemma_powers_multiply(a: nat, b: nat)
    ensures
        power_of_ten(a) * power_of_ten(b) == power_of_ten(a + b),
    decreases a,
{
    if a > 0 {
        lemma_powers_multiply((a - 1) as nat, b);
        let (p, q) = (power_of_ten((a - 1) as nat), power_of_ten(b));
        assert((10 * p) * q == 10 * (p * q)) by (nonlinear_arith);
        assert(power_of_ten(a) == 10 * p);
        assert((a + b - 1) as nat == (a - 1) as nat + b);
        assert(power_of_ten(a + b) == 10 * power_of_ten((a + b - 1) as nat));
    } else {
        let (one, q) = (power_of_ten(0), power_of_ten(b));
        assert(one * q == q) by (nonlinear_arith)
            requires
                one == 1,
        ;
    }
}

/// Whole millimetres are shown as whole numbers, with their sign.
pub proof fn law_whole_millimetres(k: int)
    ensures
        millimetres(1_000_000 * k) == signed_decimal(k),
{
    reveal_with_fuel(power_of_ten, 7);
    assert(power_of_ten(6) == 1_000_000);
    let n = if k < 0 {
        (-k) as nat
    } else {
        k as nat
    };
    let m = (1_000_000 * n) as nat;
    assert(m / 1_000_000 == n && m % 1_000_000 == 0);
    assert(fixed(m, 6) =~= decimal(n));
}

/// Texts are counted from left to right: there is none exactly if the pattern
/// does not occur, and a text in which it occurs has one more than what follows
/// the first of them.
pub proof fn law_counting_texts(s: Seq<char>, p: Seq<char>)
    requires
        p.len() > 0,
    ensures
        count_text(s, p, 0) == 0 <==> !contains_text(s, p),
        count_text(s, p, 0) * p.len() <= s.len(),
{
    lemma_find_text(s, p, 0);
    lemma_count_bound(s, p, 0);
    match find_text(s, p, 0) {
        Some(i) => {
            assert(occurs_at(s, p, i));
        },
        None => {},
    }
}

proof fn lemma_count_bound(s: Seq<char>, p: Seq<char>, from: int)
    requires
        p.len() > 0,
        0 <= from <= s.len(),
    ensures
        count_text(s, p, from) * p.len() <= s.len() - from,
    decreases s.len() + 1 - from,
{
    lemma_find_text(s, p, from);
    match find_text(s, p, from) {
        Some(i) => {
            lemma_count_bound(s, p, i + p.len());
            let (c, l) = (count_text(s, p, i + p.len()), p.len());
            assert((1 + c) * l == l + c * l) by (nonlinear_arith);
        },
        None => {
            assert(0 * p.len() == 0) by (nonlinear_arith);
        },
    }
}

/// Letters change their case and come back; nothing else changes.
pub proof fn law_ascii_case(s: Seq<char>)
    ensures
        ascii_lowercase(ascii_uppercase(s)) == ascii_lowercase(s),
        ascii_uppercase(ascii_uppercase(s)) == ascii_uppercase(s),
        ascii_uppercase(s).len() == s.len(),
        forall|i: int|
            0 <= i < s.len() ==> !('a' <= #[trigger] ascii_uppercase(s)[i] <= 'z') && (!('a' <= s[i]
                <= 'z') ==> ascii_uppercase(s)[i] == s[i]),
{
    assert(ascii_lowercase(ascii_uppercase(s)) =~= ascii_lowercase(s));
    assert(ascii_uppercase(ascii_uppercase(s)) =~= ascii_uppercase(s));
}

} // verus!
