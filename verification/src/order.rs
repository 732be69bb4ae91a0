//! Sorting names ascending by their bytes.

use vstd::prelude::*;
use vstd::seq_lib::{lemma_multiset_commutative, to_multiset_build};
use vstd::string::*;
use crate::sequences::lemma_texts_push;
use crate::symbol::{is_sorting_of, sorted};
use crate::text::{
    bytes_of, bytes_of_each, compare_bytes, lemma_lex_asymmetric, lemma_lex_total,
    lemma_lex_transitive, lex_lt, texts_of, Standing,
};

verus! {

/// A text that does not come after a second does not come after any third
/// that the second does not come after.
proof fn lemma_not_after_chains(a: Seq<u8>, b: Seq<u8>, c: Seq<u8>)
    requires
        !lex_lt(b, a),
        !lex_lt(c, b),
    ensures
        !lex_lt(c, a),
{
    if lex_lt(c, a) {
        if a != b {
            lemma_lex_total(a, b);
            lemma_lex_transitive(c, a, b);
        }
    }
}

/// Whether every text of a list comes no later than a bound.
spec fn all_before(texts: Seq<Seq<char>>, bound: Seq<char>) -> bool {
    forall|i: int| 0 <= i < texts.len() ==> !lex_lt(bytes_of(bound), bytes_of(#[trigger] texts[i]))
}

/// A sorted list that grows by a text that none of its own comes after stays
/// sorted.
proof fn lemma_sorted_push(texts: Seq<Seq<char>>, last: Seq<char>)
    requires
        sorted(texts),
        all_before(texts, last),
    ensures
        sorted(texts.push(last)),
{
    let grown = bytes_of_each(texts.push(last));
    assert forall|i: int, j: int| 0 <= i < j < grown.len() implies !lex_lt(grown[j], grown[i]) by {
        assert(grown[i] == bytes_of(texts[i]));
        if j < texts.len() {
            assert(grown[j] == bytes_of_each(texts)[j]);
            assert(grown[i] == bytes_of_each(texts)[i]);
        } else {
            assert(grown[j] == bytes_of(last));
        }
    }
}

/// Every text of a sorted list comes no later than those after it.
proof fn lemma_sorted_bounds(texts: Seq<Seq<char>>, at: int)
    requires
        sorted(texts),
        0 <= at < texts.len(),
    ensures
        all_before(texts.subrange(0, at), texts[at]),
        at + 1 < texts.len() ==> !lex_lt(bytes_of(texts[at + 1]), bytes_of(texts[at])),
{
    let all = bytes_of_each(texts);
    assert forall|i: int| 0 <= i < at implies !lex_lt(
        bytes_of(texts[at]),
        bytes_of(#[trigger] texts.subrange(0, at)[i]),
    ) by {
        assert(all[i] == bytes_of(texts[i]));
        assert(all[at] == bytes_of(texts[at]));
    }
    if at + 1 < texts.len() {
        assert(all[at] == bytes_of(texts[at]));
        assert(all[at + 1] == bytes_of(texts[at + 1]));
    }
}

/// Merges two sorted lists into one.
fn merge(left: &Vec<String>, right: &Vec<String>) -> (merged: Vec<String>)
    requires
        sorted(texts_of(left@)),
        sorted(texts_of(right@)),
    ensures
        sorted(texts_of(merged@)),
        texts_of(merged@).to_multiset() == texts_of(left@).to_multiset().add(
            texts_of(right@).to_multiset(),
        ),
{
    let ghost first = texts_of(left@);
    let ghost second = texts_of(right@);
    let mut merged: Vec<String> = Vec::new();
    let mut i: usize = 0;
    let mut j: usize = 0;
    proof {
        assert(texts_of(merged@) =~= Seq::<Seq<char>>::empty());
        assert(first.subrange(0, 0) =~= Seq::<Seq<char>>::empty());
        assert(second.subrange(0, 0) =~= Seq::<Seq<char>>::empty());
        assert(bytes_of_each(texts_of(merged@)) =~= Seq::<Seq<u8>>::empty());
        lemma_multiset_commutative(Seq::<Seq<char>>::empty(), Seq::<Seq<char>>::empty());
        assert(Seq::<Seq<char>>::empty() + Seq::<Seq<char>>::empty() =~= Seq::<
            Seq<char>,
        >::empty());
    }
    while i < left.len() || j < right.len()
        invariant
            i <= left.len(),
            j <= right.len(),
            first == texts_of(left@),
            second == texts_of(right@),
            sorted(first),
            sorted(second),
            sorted(texts_of(merged@)),
            i < left.len() ==> all_before(texts_of(merged@), first[i as int]),
            j < right.len() ==> all_before(texts_of(merged@), second[j as int]),
            texts_of(merged@).to_multiset() == first.subrange(0, i as int).to_multiset().add(
                second.subrange(0, j as int).to_multiset(),
            ),
        decreases left.len() - i + right.len() - j,
    {
        let ghost before = texts_of(merged@);
        let from_left = if i >= left.len() {
            false
        } else if j >= right.len() {
            true
        } else {
            compare_bytes(left[i].as_str().as_bytes(), right[j].as_str().as_bytes())
                != Standing::After
        };
        if from_left {
            let taken = left[i].clone();
            proof {
                assert(first[i as int] == taken@);
                lemma_texts_push(merged@, taken);
                lemma_sorted_push(before, taken@);
                lemma_sorted_bounds(first, i as int);
                to_multiset_build(first.subrange(0, i as int), taken@);
                to_multiset_build(before, taken@);
                assert(first.subrange(0, i + 1) =~= first.subrange(0, i as int).push(taken@));
                assert(before.push(taken@).to_multiset() =~= first.subrange(
                    0,
                    i + 1,
                ).to_multiset().add(second.subrange(0, j as int).to_multiset()));
                if j < right.len() {
                    if lex_lt(bytes_of(second[j as int]), bytes_of(taken@)) {
                        lemma_lex_asymmetric(bytes_of(second[j as int]), bytes_of(taken@));
                    }
                    assert(all_before(before.push(taken@), second[j as int])) by {
                        assert forall|k: int| 0 <= k < before.push(taken@).len() implies !lex_lt(
                            bytes_of(second[j as int]),
                            bytes_of(#[trigger] before.push(taken@)[k]),
                        ) by {
                            if k < before.len() {
                                assert(before.push(taken@)[k] == before[k]);
                            }
                        }
                    }
                }
                if i + 1 < left.len() {
                    assert(all_before(before.push(taken@), first[i + 1])) by {
                        assert forall|k: int| 0 <= k < before.push(taken@).len() implies !lex_lt(
                            bytes_of(first[i + 1]),
                            bytes_of(#[trigger] before.push(taken@)[k]),
                        ) by {
                            if k < before.len() {
                                assert(before.push(taken@)[k] == before[k]);
                                lemma_not_after_chains(
                                    bytes_of(before[k]),
                                    bytes_of(taken@),
                                    bytes_of(first[i + 1]),
                                );
                            }
                        }
                    }
                }
            }
            merged.push(taken);
            i += 1;
        } else {
            let taken = right[j].clone();
            proof {
                assert(second[j as int] == taken@);
                lemma_texts_push(merged@, taken);
                lemma_sorted_push(before, taken@);
                lemma_sorted_bounds(second, j as int);
                to_multiset_build(second.subrange(0, j as int), taken@);
                to_multiset_build(before, taken@);
                assert(second.subrange(0, j + 1) =~= second.subrange(0, j as int).push(taken@));
                assert(before.push(taken@).to_multiset() =~= first.subrange(
                    0,
                    i as int,
                ).to_multiset().add(second.subrange(0, j + 1).to_multiset()));
                if i < left.len() {
                    assert(all_before(before.push(taken@), first[i as int])) by {
                        assert forall|k: int| 0 <= k < before.push(taken@).len() implies !lex_lt(
                            bytes_of(first[i as int]),
                            bytes_of(#[trigger] before.push(taken@)[k]),
                        ) by {
                            if k < before.len() {
                                assert(before.push(taken@)[k] == before[k]);
                            }
                        }
                    }
                }
                if j + 1 < right.len() {
                    assert(all_before(before.push(taken@), second[j + 1])) by {
                        assert forall|k: int| 0 <= k < before.push(taken@).len() implies !lex_lt(
                            bytes_of(second[j + 1]),
                            bytes_of(#[trigger] before.push(taken@)[k]),
                        ) by {
                            if k < before.len() {
                                assert(before.push(taken@)[k] == before[k]);
                                lemma_not_after_chains(
                                    bytes_of(before[k]),
                                    bytes_of(taken@),
                                    bytes_of(second[j + 1]),
                                );
                            }
                        }
                    }
                }
            }
            merged.push(taken);
            j += 1;
        }
    }
    proof {
        assert(first.subrange(0, i as int) =~= first);
        assert(second.subrange(0, j as int) =~= second);
    }
    merged
}

/// A sorted copy of a stretch of a list.
fn sorted_copy(list: &Vec<String>, from: usize, to: usize) -> (copy: Vec<String>)
    requires
        from <= to <= list.len(),
    ensures
        sorted(texts_of(copy@)),
        texts_of(copy@).to_multiset() == texts_of(list@).subrange(
            from as int,
            to as int,
        ).to_multiset(),
    decreases to - from,
{
    let ghost stretch = texts_of(list@).subrange(from as int, to as int);
    if to - from <= 1 {
        let mut copy: Vec<String> = Vec::new();
        if to > from {
            copy.push(list[from].clone());
        }
        proof {
            assert(texts_of(copy@) =~= stretch);
            assert forall|i: int, j: int|
                0 <= i < j < bytes_of_each(texts_of(copy@)).len() implies !lex_lt(
                bytes_of_each(texts_of(copy@))[j],
                bytes_of_each(texts_of(copy@))[i],
            ) by {}
        }
        copy
    } else {
        let middle = from + (to - from) / 2;
        let left = sorted_copy(list, from, middle);
        let right = sorted_copy(list, middle, to);
        proof {
            let first = texts_of(list@).subrange(from as int, middle as int);
            let second = texts_of(list@).subrange(middle as int, to as int);
            assert(stretch =~= first + second);
            lemma_multiset_commutative(first, second);
        }
        merge(&left, &right)
    }
}

/// Sorts a list of names ascending by their bytes: afterwards the list is
/// sorted and holds the same names as before, each as often.
pub fn sort_texts(list: &mut Vec<String>)
    ensures
        is_sorting_of(texts_of(final(list)@), texts_of(old(list)@)),
{
    let copy = sorted_copy(list, 0, list.len());
    assert(texts_of(list@).subrange(0, list@.len() as int) =~= texts_of(list@));
    *list = copy;
}

} // verus!
