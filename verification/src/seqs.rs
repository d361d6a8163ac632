//! The models of lists.
use vstd::prelude::*;

verus! {

/// The models of the items of a list, in order.
pub open spec fn models<T: View>(list: Seq<T>) -> Seq<T::V> {
    list.map_values(|x: T| x@)
}

/// Pushing an item pushes its model.
pub broadcast proof fn lemma_models_push<T: View>(list: Seq<T>, x: T)
    ensures
        #[trigger] models(list.push(x)) == models(list).push(x@),
{
    assert(models(list.push(x)) =~= models(list).push(x@));
}

/// Concatenating lists concatenates their models.
pub broadcast proof fn lemma_models_add<T: View>(a: Seq<T>, b: Seq<T>)
    ensures
        #[trigger] models(a + b) == models(a) + models(b),
{
    assert(models(a + b) =~= models(a) + models(b));
}

/// Adds an item at the end of a list.
pub fn push_model<T: View>(list: &mut Vec<T>, x: T)
    ensures
        models(final(list)@) == models(old(list)@).push(x@),
        final(list)@ == old(list)@.push(x),
{
    broadcast use lemma_models_push;

    list.push(x);
}

/// What a list with one more item in front contains.
pub proof fn lemma_contains_cons<A>(x: A, rest: Seq<A>, t: A)
    ensures
        (seq![x] + rest).contains(t) <==> rest.contains(t) || t == x,
{
    let all = seq![x] + rest;
    assert(all[0] == x);
    if rest.contains(t) {
        let m = choose|m: int| 0 <= m < rest.len() && rest[m] == t;
        assert(all[m + 1] == t);
    }
    if all.contains(t) && t != x {
        let m = choose|m: int| 0 <= m < all.len() && all[m] == t;
        assert(rest[m - 1] == t);
    }
}

/// What a list with one more item at its end contains.
pub proof fn lemma_contains_push<A>(rest: Seq<A>, x: A, t: A)
    ensures
        rest.push(x).contains(t) <==> rest.contains(t) || t == x,
{
    let all = rest.push(x);
    assert(all[rest.len() as int] == x);
    if rest.contains(t) {
        let m = choose|m: int| 0 <= m < rest.len() && rest[m] == t;
        assert(all[m] == t);
    }
    if all.contains(t) && t != x {
        let m = choose|m: int| 0 <= m < all.len() && all[m] == t;
        assert(rest[m] == t);
    }
}

/// What two lists hold together is what the one or the other holds.
pub proof fn lemma_contains_add<A>(a: Seq<A>, b: Seq<A>, x: A)
    ensures
        (a + b).contains(x) <==> a.contains(x) || b.contains(x),
{
    if a.contains(x) {
        let i = a.index_of(x);
        assert((a + b)[i] == x);
    }
    if b.contains(x) {
        let i = b.index_of(x);
        assert((a + b)[a.len() + i] == x);
    }
}

} // verus!
