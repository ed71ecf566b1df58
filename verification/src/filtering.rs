//! Keeping, in order, the items of a sequence that a function maps to `Some`.
use vstd::prelude::*;

verus! {

/// The values `f` gives to the items of `s` that it maps to `Some`, in order.
pub open spec fn filter_map<A, B>(s: Seq<A>, f: spec_fn(A) -> Option<B>) -> Seq<B>
    decreases s.len(),
{
    if s.len() == 0 {
        Seq::empty()
    } else {
        let prev = filter_map(s.drop_last(), f);
        match f(s.last()) {
            Some(b) => prev.push(b),
            None => prev,
        }
    }
}

pub proof fn lemma_filter_map_step<A, B>(s: Seq<A>, f: spec_fn(A) -> Option<B>, i: int)
    requires
        0 <= i < s.len(),
    ensures
        filter_map(s.take(i + 1), f) == (match f(s[i]) {
            Some(b) => filter_map(s.take(i), f).push(b),
            None => filter_map(s.take(i), f),
        }),
{
    assert(s.take(i + 1).drop_last() =~= s.take(i));
}

pub proof fn lemma_filter_map_append<A, B>(a: Seq<A>, b: Seq<A>, f: spec_fn(A) -> Option<B>)
    ensures
        filter_map(a + b, f) == filter_map(a, f) + filter_map(b, f),
    decreases b.len(),
{
    if b.len() == 0 {
        assert(a + b =~= a);
        assert(filter_map(a, f) + filter_map(b, f) =~= filter_map(a, f));
    } else {
        assert((a + b).drop_last() =~= a + b.drop_last());
        lemma_filter_map_append(a, b.drop_last(), f);
        match f(b.last()) {
            Some(x) => {
                assert(filter_map(a, f) + filter_map(b.drop_last(), f).push(x) =~= (filter_map(a, f)
                    + filter_map(b.drop_last(), f)).push(x));
            },
            None => {},
        }
    }
}

pub proof fn lemma_filter_map_len<A, B>(s: Seq<A>, f: spec_fn(A) -> Option<B>)
    ensures
        filter_map(s, f).len() <= s.len(),
    decreases s.len(),
{
    if s.len() > 0 {
        lemma_filter_map_len(s.drop_last(), f);
    }
}

/// The filtered items of a prefix are a prefix of the filtered items.
pub proof fn lemma_filter_map_prefix<A, B>(s: Seq<A>, f: spec_fn(A) -> Option<B>, i: int)
    requires
        0 <= i <= s.len(),
    ensures
        filter_map(s, f).take(filter_map(s.take(i), f).len() as int) == filter_map(s.take(i), f),
        filter_map(s.take(i), f).len() <= filter_map(s, f).len(),
{
    assert(s =~= s.take(i) + s.skip(i));
    lemma_filter_map_append(s.take(i), s.skip(i), f);
    assert((filter_map(s.take(i), f) + filter_map(s.skip(i), f)).take(
        filter_map(s.take(i), f).len() as int,
    ) =~= filter_map(s.take(i), f));
}

/// Filtering the prefix of full length is filtering the whole sequence.
pub proof fn lemma_filter_map_take_all<A, B>(s: Seq<A>, f: spec_fn(A) -> Option<B>)
    ensures
        filter_map(s.take(s.len() as int), f) == filter_map(s, f),
{
    assert(s.take(s.len() as int) =~= s);
}


/// Each kept value is what `f` gives to some item of `s`.
pub proof fn lemma_filter_map_member<A, B>(s: Seq<A>, f: spec_fn(A) -> Option<B>, i: int)
    requires
        0 <= i < filter_map(s, f).len(),
    ensures
        exists|k: int| 0 <= k < s.len() && #[trigger] f(s[k]) == Some(filter_map(s, f)[i]),
    decreases s.len(),
{
    let init = s.drop_last();
    let prev = filter_map(init, f);
    if i < prev.len() {
        lemma_filter_map_member(init, f, i);
        let k = choose|k: int| 0 <= k < init.len() && #[trigger] f(init[k]) == Some(prev[i]);
        assert(s[k] == init[k]);
        match f(s.last()) {
            Some(b) => assert(filter_map(s, f)[i] == prev.push(b)[i]),
            None => {},
        }
    } else {
        assert(f(s[s.len() - 1]) == Some(filter_map(s, f)[i]));
    }
}

} // verus!
