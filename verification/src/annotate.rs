//! Reference designators for the symbols of a schematic that have none yet.
use crate::audits::tagged_names;
use crate::seqs::lemma_contains_cons;
use crate::text::{self, alphabetic, decimal, find_text, numeral_value};
use vstd::prelude::*;

verus! {

/// What stands before the name of a reference.
pub open spec fn tag() -> Seq<char> {
    "(reference \""@
}

/// The letters and hash signs at the start of a reference.
pub open spec fn letters(r: Seq<char>) -> Seq<char>
    decreases r.len(),
{
    if r.len() > 0 && (alphabetic(r[0]) || r[0] == '#') {
        seq![r[0]] + letters(r.drop_first())
    } else {
        Seq::empty()
    }
}

/// The number of a reference: what stands behind its letters.
pub open spec fn number(r: Seq<char>) -> Option<nat> {
    numeral_value(r.skip(letters(r).len() as int), usize::MAX as nat)
}

/// The counters after one more reference: the counter of its letters is above
/// its number.
pub open spec fn noted(counters: Map<Seq<char>, nat>, r: Seq<char>) -> Map<Seq<char>, nat> {
    match number(r) {
        Some(n) => {
            let had = if counters.dom().contains(letters(r)) {
                counters[letters(r)]
            } else {
                0
            };
            counters.insert(
                letters(r),
                if n >= had {
                    n + 1
                } else {
                    had
                },
            )
        },
        None => counters,
    }
}

/// The counters after the references from a position on.
pub open spec fn counted(s: Seq<char>, from: int, counters: Map<Seq<char>, nat>) -> Map<
    Seq<char>,
    nat,
>
    decreases s.len() + 1 - from,
{
    if from < 0 {
        counters
    } else {
        match find_text(s, tag(), from) {
            Some(i) => {
                proof {
                    text::lemma_find_text(s, tag(), from);
                }
                let at = i + tag().len();
                match find_text(s, seq!['"'], at) {
                    Some(q) => counted(s, at + 1, noted(counters, s.subrange(at, q))),
                    None => counted(s, at + 1, counters),
                }
            },
            None => counters,
        }
    }
}

/// The reference without the question marks at its end.
pub open spec fn without_marks(r: Seq<char>) -> Seq<char>
    decreases r.len(),
{
    if r.len() > 0 && r.last() == '?' {
        without_marks(r.drop_last())
    } else {
        r
    }
}

/// The next number for a prefix.
pub open spec fn next_number(counters: Map<Seq<char>, nat>, prefix: Seq<char>) -> nat {
    if counters.dom().contains(prefix) {
        counters[prefix]
    } else {
        1
    }
}

/// The text from `copied` on, with every reference from `from` on that ends in
/// a question mark replaced by its prefix and the next number for that prefix.
pub open spec fn numbered(
    s: Seq<char>,
    copied: int,
    from: int,
    counters: Map<Seq<char>, nat>,
) -> Seq<char>
    decreases s.len() + 1 - from,
{
    if from < 0 {
        s.skip(copied)
    } else {
        match find_text(s, tag(), from) {
            Some(i) => {
                proof {
                    text::lemma_find_text(s, tag(), from);
                }
                let at = i + tag().len();
                match find_text(s, seq!['"'], at) {
                    Some(q) => {
                        let r = s.subrange(at, q);
                        if r.len() > 0 && r.last() == '?' {
                            let prefix = without_marks(r);
                            let n = next_number(counters, prefix);
                            s.subrange(copied, at) + prefix + decimal(n) + numbered(
                                s,
                                q,
                                at + 1,
                                counters.insert(prefix, n + 1),
                            )
                        } else {
                            numbered(s, copied, at + 1, counters)
                        }
                    },
                    None => numbered(s, copied, at + 1, counters),
                }
            },
            None => s.skip(copied),
        }
    }
}

/// The schematic in which every unannotated reference has a number: numbers
/// that are there already are counted first.
pub open spec fn annotated(s: Seq<char>) -> Seq<char> {
    numbered(s, 0, 0, counted(s, 0, Map::empty()))
}

/// Counting more references lowers no counter.
proof fn lemma_counted_ascends(s: Seq<char>, from: int, counters: Map<Seq<char>, nat>, k: Seq<char>)
    requires
        counters.dom().contains(k),
    ensures
        counted(s, from, counters).dom().contains(k),
        counted(s, from, counters)[k] >= counters[k],
    decreases s.len() + 1 - from,
{
    if from >= 0 {
        match find_text(s, tag(), from) {
            Some(i) => {
                text::lemma_find_text(s, tag(), from);
                let at = i + tag().len();
                match find_text(s, seq!['"'], at) {
                    Some(q) => {
                        lemma_counted_ascends(s, at + 1, noted(counters, s.subrange(at, q)), k);
                    },
                    None => {
                        lemma_counted_ascends(s, at + 1, counters, k);
                    },
                }
            },
            None => {},
        }
    }
}

/// A number that is handed out is above every number that a reference with the
/// same letters has already.
pub proof fn law_numbers_are_fresh(
    s: Seq<char>,
    from: int,
    counters: Map<Seq<char>, nat>,
    r: Seq<char>,
)
    requires
        tagged_names(s, tag(), from).contains(r),
        number(r) is Some,
    ensures
        next_number(counted(s, from, counters), letters(r)) > number(r)->0,
    decreases s.len() + 1 - from,
{
    match find_text(s, tag(), from) {
        Some(i) => {
            text::lemma_find_text(s, tag(), from);
            let at = i + tag().len();
            let rest = tagged_names(s, tag(), at + 1);
            match find_text(s, seq!['"'], at) {
                Some(q) => {
                    let name = s.subrange(at, q);
                    let now = noted(counters, name);
                    lemma_contains_cons(name, rest, r);
                    if r == name {
                        lemma_counted_ascends(s, at + 1, now, letters(r));
                    } else {
                        law_numbers_are_fresh(s, at + 1, now, r);
                    }
                },
                None => {
                    law_numbers_are_fresh(s, at + 1, counters, r);
                },
            }
        },
        None => {},
    }
}

/// The counter of each prefix.
struct Counters {
    names: Vec<String>,
    values: Vec<u128>,
}

impl Counters {
    spec fn wf(&self) -> bool {
        &&& self.names@.len() == self.values@.len()
        &&& forall|i: int, j: int|
            0 <= i < j < self.names@.len() ==> (#[trigger] self.names@[i])@ != (
            #[trigger] self.names@[j])@
    }

    spec fn has(&self, k: Seq<char>) -> bool {
        exists|i: int| 0 <= i < self.names@.len() && (#[trigger] self.names@[i])@ == k
    }

    spec fn position_of(&self, k: Seq<char>) -> int {
        choose|i: int| 0 <= i < self.names@.len() && (#[trigger] self.names@[i])@ == k
    }

    spec fn map(&self) -> Map<Seq<char>, nat> {
        Map::new(
            |k: Seq<char>| self.has(k),
            |k: Seq<char>| self.values@[self.position_of(k)] as nat,
        )
    }

    proof fn lemma_position(&self, i: int)
        requires
            self.wf(),
            0 <= i < self.names@.len(),
        ensures
            self.has(self.names@[i]@),
            self.position_of(self.names@[i]@) == i,
    {
        let p = self.position_of(self.names@[i]@);
        assert(0 <= p < self.names@.len() && self.names@[p]@ == self.names@[i]@);
        if p < i {
            assert(self.names@[p]@ != self.names@[i]@);
        } else if i < p {
            assert(self.names@[i]@ != self.names@[p]@);
        }
    }

    fn lookup(&self, k: &str) -> (r: Option<usize>)
        requires
            self.wf(),
        ensures
            match r {
                Some(i) => i < self.names@.len() && self.names@[i as int]@ == k@ && self.has(k@)
                    && self.position_of(k@) == i,
                None => !self.has(k@),
            },
    {
        let mut i: usize = 0;
        while i < self.names.len()
            invariant
                i <= self.names@.len(),
                self.wf(),
                forall|j: int| 0 <= j < i ==> (#[trigger] self.names@[j])@ != k@,
            decreases self.names@.len() - i,
        {
            if text::same(self.names[i].as_str(), k) {
                proof {
                    self.lemma_position(i as int);
                }
                return Some(i);
            }
            i += 1;
        }
        None
    }

    fn get(&self, k: &str) -> (r: Option<u128>)
        requires
            self.wf(),
        ensures
            r is Some <==> self.map().dom().contains(k@),
            r matches Some(n) ==> n == self.map()[k@],
    {
        match self.lookup(k) {
            Some(i) => Some(self.values[i]),
            None => None,
        }
    }

    fn set(&mut self, k: &str, v: u128)
        requires
            old(self).wf(),
        ensures
            final(self).wf(),
            final(self).map() == old(self).map().insert(k@, v as nat),
    {
        let ghost before = *self;
        match self.lookup(k) {
            Some(i) => {
                self.values.set(i, v);
                proof {
                    assert(self.names@ == before.names@);
                    assert forall|q: Seq<char>| #[trigger] self.has(q) == before.has(q) by {
                        if before.has(q) {
                            let p = before.position_of(q);
                            assert(self.names@[p]@ == q);
                        }
                        if self.has(q) {
                            let p = self.position_of(q);
                            assert(before.names@[p]@ == q);
                        }
                    }
                    assert forall|q: Seq<char>| #[trigger] self.position_of(q)
                        == before.position_of(q) by {}
                    assert(self.map() =~= before.map().insert(k@, v as nat));
                }
            },
            None => {
                self.names.push(k.to_owned());
                self.values.push(v);
                proof {
                    let n = before.names@.len() as int;
                    assert(self.names@[n]@ == k@);
                    assert forall|i: int, j: int| 0 <= i < j < self.names@.len() implies (
                    #[trigger] self.names@[i])@ != (#[trigger] self.names@[j])@ by {
                        assert(self.names@[i] == before.names@[i]);
                        if j < n {
                            assert(self.names@[j] == before.names@[j]);
                        }
                    }
                    assert(self.wf());
                    self.lemma_position(n);
                    assert forall|q: Seq<char>| #[trigger] self.has(q) <==> before.has(q) || q
                        == k@ by {
                        if before.has(q) {
                            let p = before.position_of(q);
                            assert(self.names@[p]@ == q);
                        }
                        if self.has(q) && q != k@ {
                            let p = self.position_of(q);
                            assert(before.names@[p]@ == q);
                        }
                    }
                    assert forall|q: Seq<char>| before.has(q) implies #[trigger] self.position_of(q)
                        == before.position_of(q) by {
                        let p = before.position_of(q);
                        assert(self.names@[p]@ == q);
                        self.lemma_position(p);
                    }
                    assert(self.map() =~= before.map().insert(k@, v as nat));
                }
            },
        }
    }
}

/// The letters of a reference, and its number.
fn letters_and_number(chars: &Vec<char>) -> (r: (String, Option<u64>))
    ensures
        r.0@ == letters(chars@),
        match r.1 {
            Some(n) => number(chars@) == Some(n as nat) && n <= usize::MAX,
            None => number(chars@) is None,
        },
{
    let mut out = String::new();
    let mut i: usize = 0;
    proof {
        assert(chars@.skip(0) =~= chars@);
        assert(out@ + letters(chars@) =~= letters(chars@));
    }
    while i < chars.len() && (text::is_alphabetic(chars[i]) || chars[i] == '#')
        invariant
            i <= chars@.len(),
            out@.len() == i,
            letters(chars@) == out@ + letters(chars@.skip(i as int)),
        decreases chars@.len() - i,
    {
        let ghost had = out@;
        out.push(chars[i]);
        proof {
            let c = chars@[i as int];
            assert(chars@.skip(i as int)[0] == c);
            assert(chars@.skip(i as int).drop_first() =~= chars@.skip(i + 1));
            assert(had + (seq![c] + letters(chars@.skip(i + 1))) =~= had.push(c) + letters(
                chars@.skip(i + 1),
            ));
        }
        i += 1;
    }
    proof {
        assert(out@ + Seq::<char>::empty() =~= out@);
        assert(chars@.subrange(i as int, chars@.len() as int) =~= chars@.skip(i as int));
    }
    let digits = text::slice_text(chars, i, chars.len());
    (out, text::parse_numeral(digits.as_str(), usize::MAX as u64))
}

/// Whether no counter is above the bound.
spec fn bounded(counters: Map<Seq<char>, nat>, bound: nat) -> bool {
    forall|k: Seq<char>| #[trigger] counters.dom().contains(k) ==> counters[k] <= bound
}

fn note(counters: &mut Counters, chars: &Vec<char>, at: usize, q: usize)
    requires
        old(counters).wf(),
        at <= q <= chars@.len(),
        bounded(old(counters).map(), usize::MAX as nat + 1),
    ensures
        final(counters).wf(),
        final(counters).map() == noted(
            old(counters).map(),
            chars@.subrange(at as int, q as int),
        ),
        bounded(final(counters).map(), usize::MAX as nat + 1),
{
    let r = text::chars_of(text::slice_text(chars, at, q).as_str());
    let (prefix, number) = letters_and_number(&r);
    if let Some(n) = number {
        let had: u128 = match counters.get(prefix.as_str()) {
            Some(c) => c,
            None => 0,
        };
        let next: u128 = if n as u128 >= had { n as u128 + 1 } else { had };
        counters.set(prefix.as_str(), next);
    }
}

/// The schematic in which every unannotated reference has a number.
pub fn annotate_schematic(content: &str) -> (out: String)
    ensures
        out@ == annotated(content@),
{
    let chars = text::chars_of(content);
    let pat = text::chars_of("(reference \"");
    let quote: [char; 1] = ['"'];
    let len: usize = chars.len();
    proof {
        assert(quote@ =~= seq!['"']);
    }
    let mut counters = Counters { names: Vec::new(), values: Vec::new() };
    proof {
        assert(counters.map() =~= Map::<Seq<char>, nat>::empty());
    }
    let ghost total = counted(content@, 0, Map::empty());
    let mut pos: usize = 0;
    let mut more: bool = true;
    while more
        invariant
            len == chars@.len(),
            chars@ == content@,
            pat@ == tag(),
            quote@ == seq!['"'],
            pos <= len,
            counters.wf(),
            bounded(counters.map(), usize::MAX as nat + 1),
            more ==> total == counted(content@, pos as int, counters.map()),
            !more ==> total == counters.map(),
        decreases len - pos + (if more {
            1int
        } else {
            0
        }),
    {
        match text::find_from(&chars, &pat, pos) {
            None => {
                more = false;
            },
            Some(i) => {
                let at: usize = i + pat.len();
                if let Some(q) = text::find_from(&chars, &quote, at) {
                    note(&mut counters, &chars, at, q);
                }
                if at == len {
                    proof {
                        assert(counted(content@, at + 1, counters.map()) == counters.map());
                    }
                    more = false;
                } else {
                    pos = at + 1;
                }
            },
        }
    }
    let ghost start = counters.map();
    let mut out = String::new();
    let mut copied: usize = 0;
    pos = 0;
    more = true;
    let ghost mut bound: nat = usize::MAX as nat + 1;
    proof {
        assert(out@ + numbered(content@, 0, 0, start) =~= numbered(content@, 0, 0, start));
    }
    while more
        invariant
            len == chars@.len(),
            chars@ == content@,
            pat@ == tag(),
            quote@ == seq!['"'],
            pos <= len,
            copied <= len,
            copied <= pos || copied == 0 || forall|m: int|
                #![trigger chars@[m]]
                pos <= m < copied ==> chars@[m] != '"',
            counters.wf(),
            bounded(counters.map(), bound),
            1 <= bound,
            bound <= usize::MAX as nat + 1 + pos,
            more ==> annotated(content@) == out@ + numbered(
                content@,
                copied as int,
                pos as int,
                counters.map(),
            ),
            !more ==> annotated(content@) == out@ + content@.skip(copied as int),
        decreases len - pos + (if more {
            1int
        } else {
            0
        }),
    {
        match text::find_from(&chars, &pat, pos) {
            None => {
                more = false;
            },
            Some(i) => {
                let at: usize = i + pat.len();
                proof {
                    text::lemma_find_text(chars@, pat@, pos as int);
                    reveal_strlit("(reference \"");
                    assert(pat@.len() == 12 && pat@[11] == '"');
                    assert(chars@.subrange(i as int, i + 12)[11] == pat@[11]);
                    assert(chars@[i + 11] == '"');
                    assert(copied <= at);
                }
                if let Some(q) = text::find_from(&chars, &quote, at) {
                    if q > at && chars[q - 1] == '?' {
                        let mut end: usize = q;
                        let ghost r = content@.subrange(at as int, q as int);
                        proof {
                            assert(r.take(q - at) =~= r);
                            assert(r.last() == chars@[q - 1]);
                        }
                        while end > at && chars[end - 1] == '?'
                            invariant
                                at <= end <= q <= len,
                                len == chars@.len(),
                                chars@ == content@,
                                r == content@.subrange(at as int, q as int),
                                without_marks(r) == without_marks(r.take(end - at)),
                            decreases end,
                        {
                            proof {
                                assert(r.take(end - at).last() == chars@[end - 1]);
                                assert(r.take(end - at).drop_last() =~= r.take(end - at - 1));
                            }
                            end -= 1;
                        }
                        let prefix = text::slice_text(&chars, at, end);
                        proof {
                            assert(prefix@ =~= r.take(end - at));
                            if end > at {
                                assert(r.take(end - at).last() == chars@[end - 1]);
                            }
                        }
                        let n: u128 = match counters.get(prefix.as_str()) {
                            Some(n) => n,
                            None => 1,
                        };
                        let ghost had = out@;
                        let ghost before = counters.map();
                        out.append(text::slice_text(&chars, copied, at).as_str());
                        out.append(prefix.as_str());
                        out.append(text::wide_decimal_text(n).as_str());
                        counters.set(prefix.as_str(), n + 1);
                        proof {
                            let rest = numbered(
                                content@,
                                q as int,
                                at + 1,
                                before.insert(prefix@, (n + 1) as nat),
                            );
                            assert(had + (content@.subrange(copied as int, at as int) + prefix@
                                + decimal(n as nat) + rest) =~= out@ + rest);
                            assert(n <= bound);
                            assert forall|k: Seq<char>| #[trigger]
                                counters.map().dom().contains(k) implies counters.map()[k] <= bound
                                + 1 by {
                                if k != prefix@ {
                                    assert(before.dom().contains(k));
                                }
                            }
                            bound = bound + 1;
                            text::lemma_find_text(chars@, quote@, at as int);
                            assert forall|m: int|
                                #![trigger chars@[m]]
                                at <= m < q implies chars@[m] != '"' by {
                                assert(!text::occurs_at(chars@, quote@, m));
                                if chars@[m] == '"' {
                                    assert(chars@.subrange(m, m + 1) =~= quote@);
                                }
                            }
                        }
                        copied = q;
                    }
                }
                if at == len {
                    proof {
                        assert(numbered(content@, copied as int, at + 1, counters.map())
                            == content@.skip(copied as int));
                    }
                    more = false;
                } else {
                    pos = at + 1;
                }
            },
        }
    }
    out.append(text::slice_text(&chars, copied, len).as_str());
    proof {
        assert(content@.subrange(copied as int, len as int) =~= content@.skip(copied as int));
    }
    out
}

// ─── Laws ─────────────────────────────────────────────────────────────────

/// The letters are the longest run of letters and hash signs that the
/// reference starts with.
pub proof fn law_letters(r: Seq<char>)
    ensures
        letters(r).len() <= r.len(),
        letters(r) == r.take(letters(r).len() as int),
        forall|i: int|
            0 <= i < letters(r).len() ==> alphabetic(#[trigger] r[i]) || r[i] == '#',
        letters(r).len() < r.len() ==> !alphabetic(r[letters(r).len() as int])
            && r[letters(r).len() as int] != '#',
    decreases r.len(),
{
    if r.len() > 0 && (alphabetic(r[0]) || r[0] == '#') {
        let rest = r.drop_first();
        let l = letters(rest);
        law_letters(rest);
        assert(letters(r).len() == l.len() + 1);
        assert(letters(r) =~= r.take(letters(r).len() as int)) by {
            assert forall|i: int| 0 <= i < l.len() implies l[i] == r[i + 1] by {
                assert(rest.take(l.len() as int)[i] == rest[i]);
            }
        }
        assert forall|i: int| 0 <= i < letters(r).len() implies alphabetic(#[trigger] r[i]) || r[i]
            == '#' by {
            if i > 0 {
                assert(rest[i - 1] == r[i]);
            }
        }
        if letters(r).len() < r.len() {
            assert(rest[l.len() as int] == r[l.len() as int + 1]);
        }
    } else {
        assert(letters(r) =~= r.take(0));
    }
}

/// Taking the marks off leaves what stands before the question marks at the end
/// of the reference.
pub proof fn law_without_marks(r: Seq<char>)
    ensures
        without_marks(r).len() <= r.len(),
        without_marks(r) == r.take(without_marks(r).len() as int),
        forall|i: int| without_marks(r).len() <= i < r.len() ==> #[trigger] r[i] == '?',
        without_marks(r).len() > 0 ==> without_marks(r).last() != '?',
    decreases r.len(),
{
    if r.len() > 0 && r.last() == '?' {
        let rest = r.drop_last();
        law_without_marks(rest);
        let n = without_marks(rest).len() as int;
        assert(rest.take(n) =~= r.take(n));
        assert forall|i: int| n <= i < r.len() implies #[trigger] r[i] == '?' by {
            if i < r.len() - 1 {
                assert(rest[i] == r[i]);
            }
        }
    } else {
        assert(r.take(r.len() as int) =~= r);
    }
}

/// Whether a reference is still to be annotated: it ends in a question mark.
pub open spec fn is_open(r: Seq<char>) -> bool {
    r.len() > 0 && r[r.len() - 1] == '?'
}

/// How many of the first `n` references are still to be annotated with that
/// prefix.
pub open spec fn open_before(names: Seq<Seq<char>>, n: int, prefix: Seq<char>) -> nat
    decreases names.len(),
{
    if n <= 0 || names.len() == 0 {
        0
    } else {
        open_before(names.drop_first(), n - 1, prefix) + (if is_open(names[0]) && without_marks(
            names[0],
        ) == prefix {
            1nat
        } else {
            0
        })
    }
}

proof fn lemma_tag()
    ensures
        tag().len() == 12,
        tag()[11] == '"',
        tag()[10] == ' ',
        forall|m: int| 0 <= m < 11 ==> #[trigger] tag()[m] != '"',
{
    reveal_strlit("(reference \"");
}

proof fn lemma_tag_chars(s: Seq<char>, i: int)
    requires
        text::occurs_at(s, tag(), i),
    ensures
        0 <= i && i + 12 <= s.len(),
        forall|m: int| #![trigger tag()[m]] 0 <= m < 12 ==> s[i + m] == tag()[m],
        s[i + 11] == '"',
{
    lemma_tag();
    assert forall|m: int| #![trigger tag()[m]] 0 <= m < 12 implies s[i + m] == tag()[m] by {
        assert(s.subrange(i, i + 12)[m] == s[i + m]);
    }
    assert(s[i + 11] == tag()[11]);
}

/// The first quote from a position on.
proof fn lemma_quote(s: Seq<char>, from: int)
    requires
        0 <= from,
    ensures
        match find_text(s, seq!['"'], from) {
            Some(q) => from <= q < s.len() && s[q] == '"' && forall|m: int|
                #![trigger s[m]]
                from <= m < q ==> s[m] != '"',
            None => forall|m: int| #![trigger s[m]] from <= m < s.len() ==> s[m] != '"',
        },
{
    let quote = seq!['"'];
    text::lemma_find_text(s, quote, from);
    match find_text(s, quote, from) {
        Some(q) => {
            assert(s.subrange(q, q + 1)[0] == quote[0]);
            assert forall|m: int| #![trigger s[m]] from <= m < q implies s[m] != '"' by {
                if s[m] == '"' {
                    assert(s.subrange(m, m + 1) =~= quote);
                    assert(text::occurs_at(s, quote, m));
                }
            }
        },
        None => {
            assert forall|m: int| #![trigger s[m]] from <= m < s.len() implies s[m] != '"' by {
                if s[m] == '"' {
                    assert(s.subrange(m, m + 1) =~= quote);
                    assert(text::occurs_at(s, quote, m));
                }
            }
        },
    }
}

/// A tag that starts inside a name would have to end at its closing quote, and
/// so the name in a blank.
proof fn lemma_no_tag_inside(s: Seq<char>, at: int, q: int, i: int)
    requires
        0 <= at <= i < q < s.len(),
        forall|m: int| #![trigger s[m]] at <= m < q ==> s[m] != '"',
        s[q] == '"',
        s[q - 1] != ' ',
    ensures
        !text::occurs_at(s, tag(), i),
{
    if text::occurs_at(s, tag(), i) {
        lemma_tag();
        lemma_tag_chars(s, i);
        assert(i + 11 >= q);
        let m = q - i;
        assert(s[i + m] == tag()[m]);
        assert(m == 11);
        assert(s[i + 10] == tag()[10]);
    }
}

/// The result starts as the text does, up to the next reference, and over it
/// where it keeps its name.
proof fn lemma_numbered_start(
    s: Seq<char>,
    copied: int,
    from: int,
    counters: Map<Seq<char>, nat>,
    end: int,
)
    requires
        0 <= copied <= from,
        find_text(s, tag(), from) matches Some(i) && {
            ||| end == i + 12
            ||| find_text(s, seq!['"'], i + 12) matches Some(q) && end == q + 1 && !is_open(
                s.subrange(i + 12, q),
            )
        },
    ensures
        copied <= end <= s.len(),
        numbered(s, copied, from, counters).len() >= end - copied,
        forall|m: int|
            #![trigger s[m]]
            copied <= m < end ==> numbered(s, copied, from, counters)[m - copied] == s[m],
    decreases s.len() + 1 - from,
{
    lemma_tag();
    let i = find_text(s, tag(), from)->0;
    text::lemma_find_text(s, tag(), from);
    lemma_tag_chars(s, i);
    let at = i + 12;
    lemma_quote(s, at);
    let t = numbered(s, copied, from, counters);
    let kept = match find_text(s, seq!['"'], at) {
        Some(q) => !is_open(s.subrange(at, q)),
        None => true,
    };
    if !kept {
        let q = find_text(s, seq!['"'], at)->0;
        let r = s.subrange(at, q);
        assert(r.last() == '?');
        assert(t.len() >= at - copied);
        assert forall|m: int| #![trigger s[m]] copied <= m < end implies t[m - copied] == s[m] by {
            assert(s.subrange(copied, at)[m - copied] == s[m]);
        }
    } else {
        assert(t == numbered(s, copied, at + 1, counters));
        match find_text(s, tag(), at + 1) {
            Some(j) => {
                text::lemma_find_text(s, tag(), at + 1);
                lemma_tag_chars(s, j);
                lemma_numbered_start(s, copied, at + 1, counters, j + 12);
                match find_text(s, seq!['"'], at) {
                    Some(q) => {
                        assert(q <= j + 11);
                    },
                    None => {},
                }
            },
            None => {
                assert(t == s.skip(copied));
            },
        }
    }
}

/// What the references of the result are: those that were still to be annotated
/// have their prefix with a number, and the others are unchanged.
#[verifier::rlimit(60)]
#[verifier::spinoff_prover]
proof fn lemma_renumbered(
    s: Seq<char>,
    head: Seq<char>,
    copied: int,
    from: int,
    counters: Map<Seq<char>, nat>,
)
    requires
        0 <= copied <= from,
        copied <= s.len(),
    ensures
        ({
            let t = head + numbered(s, copied, from, counters);
            let names = tagged_names(s, tag(), from);
            let after = tagged_names(t, tag(), from - copied + head.len());
            &&& after.len() == names.len()
            &&& forall|k: int|
                0 <= k < names.len() ==> (#[trigger] after[k]) == (if is_open(names[k]) {
                    without_marks(names[k]) + decimal(
                        next_number(counters, without_marks(names[k])) + open_before(
                            names,
                            k,
                            without_marks(names[k]),
                        ),
                    )
                } else {
                    names[k]
                })
        }),
    decreases s.len() + 1 - from,
{
    lemma_tag();
    let d = head.len() - copied;
    let t = head + numbered(s, copied, from, counters);
    let quote = seq!['"'];
    text::lemma_find_text(s, tag(), from);
    match find_text(s, tag(), from) {
        None => {
            assert(numbered(s, copied, from, counters) == s.skip(copied));
            text::lemma_find_none_shift(s, t, tag(), from, d);
        },
        Some(i) => {
            let at = i + 12;
            lemma_tag_chars(s, i);
            lemma_numbered_start(s, copied, from, counters, at);
            assert forall|m: int| #![trigger s[m]] from <= m < at implies t[m + d] == s[m] by {
                assert(numbered(s, copied, from, counters)[m - copied] == s[m]);
            }
            text::lemma_find_shift(s, t, tag(), from, d, at);
            lemma_quote(s, at);
            let names = tagged_names(s, tag(), from);
            let after = tagged_names(t, tag(), from + d);
            let rest = tagged_names(s, tag(), at + 1);
            let rest_after = tagged_names(t, tag(), at + d + 1);
            match find_text(s, quote, at) {
                None => {
                    match find_text(s, tag(), at + 1) {
                        Some(j) => {
                            text::lemma_find_text(s, tag(), at + 1);
                            lemma_tag_chars(s, j);
                            assert(s[j + 11] == '"');
                        },
                        None => {},
                    }
                    assert(numbered(s, copied, at + 1, counters) == s.skip(copied));
                    assert(t == head + s.skip(copied));
                    text::lemma_find_none_shift(s, t, quote, at, d);
                    lemma_renumbered(s, head, copied, at + 1, counters);
                    assert(names == rest);
                    assert(after == rest_after);
                },
                Some(q) => {
                    let r = s.subrange(at, q);
                    assert(names == seq![r] + rest);
                    assert(names.drop_first() =~= rest);
                    if !is_open(r) {
                        lemma_numbered_start(s, copied, from, counters, q + 1);
                        assert forall|m: int| #![trigger s[m]] at <= m < q + 1 implies t[m + d]
                            == s[m] by {
                            assert(numbered(s, copied, from, counters)[m - copied] == s[m]);
                        }
                        text::lemma_find_shift(s, t, quote, at, d, q + 1);
                        assert(t.subrange(at + d, q + d) =~= r);
                        lemma_renumbered(s, head, copied, at + 1, counters);
                        assert(after == seq![r] + rest_after);
                        assert forall|k: int| 0 <= k < names.len() implies (#[trigger] after[k])
                            == (if is_open(names[k]) {
                            without_marks(names[k]) + decimal(
                                next_number(counters, without_marks(names[k])) + open_before(
                                    names,
                                    k,
                                    without_marks(names[k]),
                                ),
                            )
                        } else {
                            names[k]
                        }) by {
                            if k > 0 {
                                assert(names[k] == rest[k - 1]);
                                assert(after[k] == rest_after[k - 1]);
                            }
                        }
                    } else {
                        lemma_renumbered_open(s, head, copied, from, counters);
                        let p = without_marks(r);
                        let n = next_number(counters, p);
                        let next = counters.insert(p, n + 1);
                        let long = head + s.subrange(copied, at) + p + decimal(n);
                        assert(long.len() >= at - copied + head.len() + 1);
                        lemma_renumbered(s, long, q, q, next);
                        assert(rest == tagged_names(s, tag(), q));
                        let rest_long = tagged_names(t, tag(), long.len() as int);
                        assert(after == seq![p + decimal(n)] + rest_long);
                        assert forall|k: int| 0 <= k < names.len() implies (#[trigger] after[k])
                            == (if is_open(names[k]) {
                            without_marks(names[k]) + decimal(
                                next_number(counters, without_marks(names[k])) + open_before(
                                    names,
                                    k,
                                    without_marks(names[k]),
                                ),
                            )
                        } else {
                            names[k]
                        }) by {
                            if k > 0 {
                                assert(names[k] == rest[k - 1]);
                                assert(after[k] == rest_long[k - 1]);
                                let w = without_marks(names[k]);
                                assert(open_before(names, k, w) == open_before(rest, k - 1, w) + (
                                if p == w {
                                    1nat
                                } else {
                                    0
                                }));
                            } else {
                                assert(after[0] == p + decimal(n));
                                assert(open_before(names, 0, p) == 0);
                            }
                        }
                    }
                },
            }
        },
    }
}

/// Where the next reference is still to be annotated, the result goes on with
/// its prefix and number, and both searches go on behind them.
#[verifier::spinoff_prover]
proof fn lemma_renumbered_open(
    s: Seq<char>,
    head: Seq<char>,
    copied: int,
    from: int,
    counters: Map<Seq<char>, nat>,
)
    requires
        0 <= copied <= from,
        copied <= s.len(),
        find_text(s, tag(), from) matches Some(i) && find_text(s, seq!['"'], i + 12) matches Some(
            q,
        ) && is_open(s.subrange(i + 12, q)) && find_text(
            head + numbered(s, copied, from, counters),
            tag(),
            from - copied + head.len(),
        ) == Some(i - copied + head.len()),
    ensures
        ({
            let i = find_text(s, tag(), from)->0;
            let at = i + 12;
            let q = find_text(s, seq!['"'], at)->0;
            let t = head + numbered(s, copied, from, counters);
            let p = without_marks(s.subrange(at, q));
            let n = next_number(counters, p);
            let long = head + s.subrange(copied, at) + p + decimal(n);
            &&& at < q <= s.len()
            &&& decimal(n).len() > 0
            &&& t == long + numbered(s, q, q, counters.insert(p, n + 1))
            &&& tagged_names(s, tag(), at + 1) == tagged_names(s, tag(), q)
            &&& tagged_names(t, tag(), from - copied + head.len()) == seq![p + decimal(n)]
                + tagged_names(t, tag(), long.len() as int)
        }),
{
    lemma_tag();
    let d = head.len() - copied;
    let quote = seq!['"'];
    text::lemma_find_text(s, tag(), from);
    let i = find_text(s, tag(), from)->0;
    lemma_tag_chars(s, i);
    let at = i + 12;
    lemma_quote(s, at);
    let q = find_text(s, quote, at)->0;
    let r = s.subrange(at, q);
    let p = without_marks(r);
    law_without_marks(r);
    let n = next_number(counters, p);
    let next = counters.insert(p, n + 1);
    let t = head + numbered(s, copied, from, counters);
    let long = head + s.subrange(copied, at) + p + decimal(n);
    text::lemma_decimal_digits(n);
    assert(r.last() == '?');
    assert(s[q - 1] == '?');
    assert forall|j: int| at + 1 <= j < q implies !#[trigger] text::occurs_at(s, tag(), j) by {
        lemma_no_tag_inside(s, at, q, j);
    }
    text::lemma_find_from(s, tag(), at + 1, q);
    let tail = numbered(s, q, q, next);
    assert(tail == numbered(s, q, at + 1, next));
    assert(t =~= long + tail);
    match find_text(s, tag(), q) {
        Some(j) => {
            text::lemma_find_text(s, tag(), q);
            lemma_numbered_start(s, q, q, next, j + 12);
            assert(tail[q - q] == s[q]);
        },
        None => {
            assert(tail == s.skip(q));
        },
    }
    let e = long.len() as int;
    assert(t[e] == tail[0]);
    assert(t[e] == '"');
    let body = p + decimal(n);
    assert(t.subrange(at + d, e) =~= body);
    assert forall|m: int| #![trigger t[m]] at + d <= m < e implies t[m] != '"' by {
        assert(t.subrange(at + d, e)[m - at - d] == t[m]);
        if m - at - d < p.len() {
            assert(p[m - at - d] == r.take(p.len() as int)[m - at - d]);
            assert(r[m - at - d] == s[m - d]);
        } else {
            assert(text::is_digit(decimal(n)[m - at - d - p.len()]));
        }
    }
    assert(t[e - 1] == decimal(n).last());
    assert(text::is_digit(decimal(n)[decimal(n).len() - 1]));
    assert forall|j: int| at + d + 1 <= j < e implies !#[trigger] text::occurs_at(t, tag(), j) by {
        lemma_no_tag_inside(t, at + d, e, j);
    }
    text::lemma_find_from(t, tag(), at + d + 1, e);
    lemma_quote(t, at + d);
    match find_text(t, quote, at + d) {
        Some(x) => {
            assert(t[x] == '"');
            if x > e {
                assert(t[e] != '"');
            }
        },
        None => {
            assert(t[e] != '"');
        },
    }
    assert(find_text(t, quote, at + d) == Some(e));
    assert(tagged_names(s, tag(), at + 1) == tagged_names(s, tag(), q));
    assert(tagged_names(t, tag(), at + d + 1) == tagged_names(t, tag(), e));
    assert(tagged_names(t, tag(), from + d) == seq![t.subrange(at + d, e)] + tagged_names(
        t,
        tag(),
        at + d + 1,
    ));
}

/// Annotating leaves every reference that has a number as it is, and gives
/// each of the others its prefix and a number: for the references of one prefix
/// the numbers follow one another in the order of the references.
pub proof fn law_annotation_numbers_the_open_references(s: Seq<char>, k: int)
    requires
        0 <= k < tagged_names(s, "(reference \""@, 0).len(),
    ensures
        ({
            let names = tagged_names(s, "(reference \""@, 0);
            let after = tagged_names(annotated(s), "(reference \""@, 0);
            let prefix = without_marks(names[k]);
            &&& after.len() == names.len()
            &&& !is_open(names[k]) ==> after[k] == names[k]
            &&& is_open(names[k]) ==> after[k] == prefix + decimal(
                next_number(counted(s, 0, Map::empty()), prefix) + open_before(names, k, prefix),
            )
        }),
{
    let c = counted(s, 0, Map::empty());
    lemma_renumbered(s, Seq::empty(), 0, 0, c);
    assert(Seq::<char>::empty() + annotated(s) =~= annotated(s));
    let after = tagged_names(annotated(s), tag(), 0);
    assert(after[k] == after[k]);
}

proof fn lemma_open_before_ascends(names: Seq<Seq<char>>, i: int, j: int, prefix: Seq<char>)
    requires
        0 <= i < j <= names.len(),
        is_open(names[i]),
        without_marks(names[i]) == prefix,
    ensures
        open_before(names, i, prefix) < open_before(names, j, prefix),
    decreases names.len(),
{
    if i > 0 {
        assert(names.drop_first()[i - 1] == names[i]);
        lemma_open_before_ascends(names.drop_first(), i - 1, j - 1, prefix);
    }
}

/// No number is handed out twice: two references that were still to be
/// annotated and share a prefix are different references in the result.
pub proof fn law_no_number_is_given_twice(s: Seq<char>, i: int, j: int)
    requires
        0 <= i < j < tagged_names(s, "(reference \""@, 0).len(),
        is_open(tagged_names(s, "(reference \""@, 0)[i]),
        is_open(tagged_names(s, "(reference \""@, 0)[j]),
        without_marks(tagged_names(s, "(reference \""@, 0)[i]) == without_marks(
            tagged_names(s, "(reference \""@, 0)[j],
        ),
    ensures
        tagged_names(annotated(s), "(reference \""@, 0)[i] != tagged_names(
            annotated(s),
            "(reference \""@,
            0,
        )[j],
{
    law_annotation_numbers_the_open_references(s, i);
    law_annotation_numbers_the_open_references(s, j);
    let names = tagged_names(s, tag(), 0);
    let after = tagged_names(annotated(s), tag(), 0);
    let p = without_marks(names[i]);
    lemma_open_before_ascends(names, i, j, p);
    let base = next_number(counted(s, 0, Map::empty()), p);
    let a = base + open_before(names, i, p);
    let b = base + open_before(names, j, p);
    if after[i] == after[j] {
        assert((p + decimal(a)).skip(p.len() as int) =~= decimal(a));
        assert((p + decimal(b)).skip(p.len() as int) =~= decimal(b));
        text::law_decimal_is_injective(a, b);
    }
}

/// A number that is handed out is not one that the schematic has already: it
/// is above that of every reference with the same letters.
pub proof fn law_given_numbers_are_new(s: Seq<char>, k: int, j: int)
    requires
        0 <= k < tagged_names(s, "(reference \""@, 0).len(),
        0 <= j < tagged_names(s, "(reference \""@, 0).len(),
        is_open(tagged_names(s, "(reference \""@, 0)[k]),
        letters(tagged_names(s, "(reference \""@, 0)[j]) == without_marks(
            tagged_names(s, "(reference \""@, 0)[k],
        ),
        number(tagged_names(s, "(reference \""@, 0)[j]) is Some,
    ensures
        exists|n: nat|
            n > number(tagged_names(s, "(reference \""@, 0)[j])->0 && tagged_names(
                annotated(s),
                "(reference \""@,
                0,
            )[k] == without_marks(tagged_names(s, "(reference \""@, 0)[k]) + #[trigger] decimal(n),
        tagged_names(annotated(s), "(reference \""@, 0)[k] != tagged_names(
            s,
            "(reference \""@,
            0,
        )[j],
{
    law_annotation_numbers_the_open_references(s, k);
    let names = tagged_names(s, tag(), 0);
    let p = without_marks(names[k]);
    law_numbers_are_fresh(s, 0, Map::empty(), names[j]);
    let n = next_number(counted(s, 0, Map::empty()), p) + open_before(names, k, p);
    let after = tagged_names(annotated(s), tag(), 0);
    assert(after[k] == p + decimal(n));
    if after[k] == names[j] {
        assert((p + decimal(n)).skip(p.len() as int) =~= decimal(n));
        text::law_decimal_is_read_back(n, usize::MAX as nat);
    }
}

proof fn lemma_counter_comes_from(
    s: Seq<char>,
    from: int,
    counters: Map<Seq<char>, nat>,
    k: Seq<char>,
)
    requires
        counted(s, from, counters).dom().contains(k),
    ensures
        counters.dom().contains(k) && counted(s, from, counters)[k] == counters[k] || exists|r: Seq<
            char,
        >| #[trigger]
            tagged_names(s, tag(), from).contains(r) && letters(r) == k && number(r) is Some
                && counted(s, from, counters)[k] == number(r)->0 + 1,
    decreases s.len() + 1 - from,
{
    if from >= 0 {
        match find_text(s, tag(), from) {
            Some(i) => {
                text::lemma_find_text(s, tag(), from);
                let at = i + tag().len();
                let rest = tagged_names(s, tag(), at + 1);
                match find_text(s, seq!['"'], at) {
                    Some(q) => {
                        let name = s.subrange(at, q);
                        let now = noted(counters, name);
                        lemma_counter_comes_from(s, at + 1, now, k);
                        lemma_contains_cons(name, rest, name);
                        let all = tagged_names(s, tag(), from);
                        assert(all == seq![name] + rest);
                        assert(counted(s, from, counters) == counted(s, at + 1, now));
                        if exists|r: Seq<char>| #[trigger]
                            rest.contains(r) && letters(r) == k && number(r) is Some
                                && counted(s, from, counters)[k] == number(r)->0 + 1 {
                            let r = choose|r: Seq<char>| #[trigger]
                                rest.contains(r) && letters(r) == k && number(r) is Some
                                    && counted(s, from, counters)[k] == number(r)->0 + 1;
                            lemma_contains_cons(name, rest, r);
                            assert(all.contains(r));
                        } else if now[k] != counters[k] || !counters.dom().contains(k) {
                            assert(counted(s, at + 1, now)[k] == now[k]);
                            assert(letters(name) == k && number(name) is Some);
                            assert(now[k] == number(name)->0 + 1);
                            assert(all.contains(name));
                        }
                    },
                    None => {
                        lemma_counter_comes_from(s, at + 1, counters, k);
                        assert(tagged_names(s, tag(), from) == rest);
                        assert(counted(s, from, counters) == counted(s, at + 1, counters));
                    },
                }
            },
            None => {},
        }
    }
}

/// Numbering starts at 1 where no reference with those letters has a number,
/// and behind the highest number where one has.
pub proof fn law_numbering_starts_behind_the_highest(s: Seq<char>, prefix: Seq<char>)
    ensures
        (forall|r: Seq<char>| #[trigger]
            tagged_names(s, "(reference \""@, 0).contains(r) && letters(r) == prefix ==> number(
                r,
            ) is None) ==> next_number(counted(s, 0, Map::empty()), prefix) == 1,
        (exists|r: Seq<char>| #[trigger]
            tagged_names(s, "(reference \""@, 0).contains(r) && letters(r) == prefix && number(
                r,
            ) is Some) ==> exists|r: Seq<char>| #[trigger]
            tagged_names(s, "(reference \""@, 0).contains(r) && letters(r) == prefix && number(r)
                is Some && next_number(counted(s, 0, Map::empty()), prefix) == number(r)->0 + 1,
{
    let c = counted(s, 0, Map::empty());
    if c.dom().contains(prefix) {
        lemma_counter_comes_from(s, 0, Map::empty(), prefix);
    }
    if exists|r: Seq<char>| #[trigger]
        tagged_names(s, tag(), 0).contains(r) && letters(r) == prefix && number(r) is Some {
        let r = choose|r: Seq<char>| #[trigger]
            tagged_names(s, tag(), 0).contains(r) && letters(r) == prefix && number(r) is Some;
        law_numbers_are_fresh(s, 0, Map::empty(), r);
        lemma_counted_has(s, 0, Map::empty(), r);
    }
}

proof fn lemma_counted_has(s: Seq<char>, from: int, counters: Map<Seq<char>, nat>, r: Seq<char>)
    requires
        tagged_names(s, tag(), from).contains(r),
        number(r) is Some,
    ensures
        counted(s, from, counters).dom().contains(letters(r)),
    decreases s.len() + 1 - from,
{
    match find_text(s, tag(), from) {
        Some(i) => {
            text::lemma_find_text(s, tag(), from);
            let at = i + tag().len();
            let rest = tagged_names(s, tag(), at + 1);
            match find_text(s, seq!['"'], at) {
                Some(q) => {
                    let name = s.subrange(at, q);
                    let now = noted(counters, name);
                    lemma_contains_cons(name, rest, r);
                    if r == name {
                        lemma_counted_ascends(s, at + 1, now, letters(r));
                    } else {
                        lemma_counted_has(s, at + 1, now, r);
                    }
                },
                None => {
                    lemma_counted_has(s, at + 1, counters, r);
                },
            }
        },
        None => {},
    }
}

proof fn lemma_nothing_open(s: Seq<char>, copied: int, from: int, counters: Map<Seq<char>, nat>)
    requires
        forall|k: int|
            0 <= k < tagged_names(s, tag(), from).len() ==> !is_open(
                #[trigger] tagged_names(s, tag(), from)[k],
            ),
    ensures
        numbered(s, copied, from, counters) == s.skip(copied),
    decreases s.len() + 1 - from,
{
    if from >= 0 {
        match find_text(s, tag(), from) {
            Some(i) => {
                text::lemma_find_text(s, tag(), from);
                let at = i + tag().len();
                let all = tagged_names(s, tag(), from);
                let rest = tagged_names(s, tag(), at + 1);
                match find_text(s, seq!['"'], at) {
                    Some(q) => {
                        assert(all[0] == s.subrange(at, q));
                        assert forall|k: int| 0 <= k < rest.len() implies !is_open(
                            #[trigger] rest[k],
                        ) by {
                            assert(all[k + 1] == rest[k]);
                        }
                    },
                    None => {},
                }
                lemma_nothing_open(s, copied, at + 1, counters);
            },
            None => {},
        }
    }
}

/// A schematic without open references is left as it is, and so annotating a
/// second time changes nothing.
pub proof fn law_annotating_again_changes_nothing(s: Seq<char>)
    ensures
        annotated(annotated(s)) == annotated(s),
        (forall|k: int|
            0 <= k < tagged_names(s, "(reference \""@, 0).len() ==> !is_open(
                #[trigger] tagged_names(s, "(reference \""@, 0)[k],
            )) ==> annotated(s) == s,
{
    let t = annotated(s);
    let names = tagged_names(s, tag(), 0);
    let after = tagged_names(t, tag(), 0);
    lemma_renumbered(s, Seq::empty(), 0, 0, counted(s, 0, Map::empty()));
    assert(Seq::<char>::empty() + t =~= t);
    assert forall|k: int| 0 <= k < after.len() implies !is_open(#[trigger] after[k]) by {
        if is_open(names[k]) {
            let p = without_marks(names[k]);
            let n = next_number(counted(s, 0, Map::empty()), p) + open_before(names, k, p);
            assert(after[k] == p + decimal(n));
            text::lemma_decimal_digits(n);
            assert(after[k].last() == decimal(n)[decimal(n).len() - 1]);
            assert(text::is_digit(decimal(n)[decimal(n).len() - 1]));
        }
    }
    lemma_nothing_open(t, 0, 0, counted(t, 0, Map::empty()));
    assert(t.skip(0) =~= t);
    if forall|k: int| 0 <= k < names.len() ==> !is_open(#[trigger] names[k]) {
        lemma_nothing_open(s, 0, 0, counted(s, 0, Map::empty()));
        assert(s.skip(0) =~= s);
    }
}

} // verus!
