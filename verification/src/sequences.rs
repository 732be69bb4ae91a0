//! Facts about sequences that the loops of this crate maintain.

use vstd::prelude::*;
use crate::text::texts_of;

verus! {

/// Filtering a sequence that grew by one element keeps the element where the
/// predicate holds of it, and changes nothing else.
pub proof fn lemma_filter_push<A>(s: Seq<A>, last: A, keep: spec_fn(A) -> bool)
    ensures
        s.push(last).filter(keep) == if keep(last) {
            s.filter(keep).push(last)
        } else {
            s.filter(keep)
        },
{
    reveal(Seq::filter);
    assert(s.push(last).drop_last() =~= s);
}

/// Two predicates that agree on every element of a sequence filter it alike.
pub proof fn lemma_filter_agrees<A>(s: Seq<A>, first: spec_fn(A) -> bool, second: spec_fn(A) -> bool)
    requires
        forall|i: int| 0 <= i < s.len() ==> first(#[trigger] s[i]) == second(s[i]),
    ensures
        s.filter(first) == s.filter(second),
    decreases s.len(),
{
    reveal(Seq::filter);
    if s.len() > 0 {
        assert forall|i: int| 0 <= i < s.drop_last().len() implies first(
            #[trigger] s.drop_last()[i],
        ) == second(s.drop_last()[i]) by {
            assert(s.drop_last()[i] == s[i]);
        }
        lemma_filter_agrees(s.drop_last(), first, second);
    }
}

/// Filtering twice is filtering once by both predicates.
pub proof fn lemma_filter_twice<A>(s: Seq<A>, first: spec_fn(A) -> bool, second: spec_fn(A) -> bool)
    ensures
        s.filter(first).filter(second) == s.filter(|a: A| first(a) && second(a)),
    decreases s.len(),
{
    reveal(Seq::filter);
    let both = |a: A| first(a) && second(a);
    if s.len() > 0 {
        lemma_filter_twice(s.drop_last(), first, second);
        if first(s.last()) {
            lemma_filter_push(s.drop_last().filter(first), s.last(), second);
        }
    }
}

/// A sequence none of whose elements passes the predicate filters to nothing.
pub proof fn lemma_filter_none<A>(s: Seq<A>, keep: spec_fn(A) -> bool)
    requires
        forall|i: int| 0 <= i < s.len() ==> !keep(#[trigger] s[i]),
    ensures
        s.filter(keep) == Seq::<A>::empty(),
    decreases s.len(),
{
    reveal(Seq::filter);
    if s.len() > 0 {
        assert forall|i: int| 0 <= i < s.drop_last().len() implies !keep(
            #[trigger] s.drop_last()[i],
        ) by {
            assert(s.drop_last()[i] == s[i]);
        }
        lemma_filter_none(s.drop_last(), keep);
    }
}

/// The views of a list of strings that grew by one string.
pub proof fn lemma_texts_push(list: Seq<String>, last: String)
    ensures
        texts_of(list.push(last)) == texts_of(list).push(last@),
{
    assert(texts_of(list.push(last)) =~= texts_of(list).push(last@));
}

/// The views of two lists of strings, one after the other.
pub proof fn lemma_texts_add(first: Seq<String>, second: Seq<String>)
    ensures
        texts_of(first + second) == texts_of(first) + texts_of(second),
{
    assert(texts_of(first + second) =~= texts_of(first) + texts_of(second));
}

} // verus!
