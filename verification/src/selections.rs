//! Selections from a list, as the places of what is selected.
use vstd::prelude::*;

verus! {

/// Whether the places, in ascending order, are those below `n` that are kept.
pub open spec fn selects(places: Seq<usize>, n: nat, keep: spec_fn(int) -> bool) -> bool {
    &&& forall|a: int, b: int|
        0 <= a < b < places.len() ==> #[trigger] places[a] < #[trigger] places[b]
    &&& forall|i: usize| #[trigger] places.contains(i) <==> i < n && keep(i as int)
}

/// One more place is kept, or not.
pub proof fn lemma_selects_next(
    before: Seq<usize>,
    after: Seq<usize>,
    n: usize,
    keep: spec_fn(int) -> bool,
)
    requires
        selects(before, n as nat, keep),
        after == (if keep(n as int) {
            before.push(n)
        } else {
            before
        }),
    ensures
        selects(after, (n + 1) as nat, keep),
{
    if keep(n as int) {
        assert forall|i: usize| #[trigger] after.contains(i) <==> i < n + 1 && keep(i as int) by {
            crate::seqs::lemma_contains_push(before, n, i);
            assert(before.contains(i) <==> i < n && keep(i as int));
        }
        assert forall|a: int, b: int| 0 <= a < b < after.len() implies #[trigger] after[a]
            < #[trigger] after[b] by {
            if b == before.len() {
                assert(before.contains(before[a]));
            }
        }
    } else {
        assert forall|i: usize| #[trigger] after.contains(i) <==> i < n + 1 && keep(i as int) by {
            assert(before.contains(i) <==> i < n && keep(i as int));
        }
    }
}

/// What is selected is determined: there is one list of places for what is kept,
/// each place once and in ascending order.
pub proof fn law_selections_are_determined(
    a: Seq<usize>,
    b: Seq<usize>,
    n: nat,
    keep: spec_fn(int) -> bool,
)
    requires
        selects(a, n, keep),
        selects(b, n, keep),
    ensures
        a == b,
        a.no_duplicates(),
        forall|i: usize| i < n && keep(i as int) ==> #[trigger] a.contains(i),
{
    assert forall|i: usize| #[trigger] a.contains(i) == b.contains(i) by {}
    lemma_ascending_places(a, b);
    assert forall|i: int, j: int| 0 <= i < a.len() && 0 <= j < a.len() && i != j implies a[i]
        != a[j] by {
        if i < j {
            assert(a[i] < a[j]);
        } else {
            assert(a[j] < a[i]);
        }
    }
}

proof fn lemma_ascending_places(a: Seq<usize>, b: Seq<usize>)
    requires
        forall|i: int, j: int| 0 <= i < j < a.len() ==> #[trigger] a[i] < #[trigger] a[j],
        forall|i: int, j: int| 0 <= i < j < b.len() ==> #[trigger] b[i] < #[trigger] b[j],
        forall|x: usize| #[trigger] a.contains(x) == b.contains(x),
    ensures
        a == b,
    decreases a.len(),
{
    if a.len() == 0 {
        if b.len() > 0 {
            assert(b.contains(b[0]));
            assert(a.contains(b[0]));
        }
        assert(a =~= b);
    } else {
        let x = a.last();
        assert(a[a.len() - 1] == x);
        assert(a.contains(x));
        assert(b.contains(x));
        let k = b.index_of(x);
        let y = b.last();
        assert(b[b.len() - 1] == y);
        assert(b.contains(y));
        assert(a.contains(y));
        let m = a.index_of(y);
        if k < b.len() - 1 {
            assert(b[k] < b[b.len() - 1]);
            if m < a.len() - 1 {
                assert(a[m] < a[a.len() - 1]);
            }
        }
        assert(x == y);
        let (c, d) = (a.drop_last(), b.drop_last());
        assert forall|z: usize| #[trigger] c.contains(z) == d.contains(z) by {
            if c.contains(z) {
                let i = c.index_of(z);
                assert(a[i] == z && a[i] < a[a.len() - 1]);
                assert(a.contains(z));
                let j = b.index_of(z);
                assert(b[j] == z);
                assert(d[j] == z);
            }
            if d.contains(z) {
                let i = d.index_of(z);
                assert(b[i] == z && b[i] < b[b.len() - 1]);
                assert(b.contains(z));
                assert(a.contains(z));
                let j = a.index_of(z);
                assert(a[j] == z);
                assert(c[j] == z);
            }
        }
        lemma_ascending_places(c, d);
        assert(a =~= c.push(x));
        assert(b =~= d.push(x));
    }
}

} // verus!
