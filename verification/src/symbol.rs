//! The versioned-symbol model: when a defined symbol satisfies a request, and the
//! search that decides whether a sorted symbol list holds such a symbol.
//!
//! A symbol is either a bare name or `name@version`. The loader binds a request
//! without a version to whatever version a library exports, so a bare request is
//! satisfied by a versioned definition that begins with it.

use vstd::prelude::*;
use vstd::utf8::is_ascii_chars_encode_utf8;
use crate::names::qualified;
use crate::text::{
    bytes_of, bytes_of_each, compare_bytes, contains_byte, lemma_bytes_injective,
    lemma_lex_asymmetric, lemma_lex_total, lemma_lex_transitive, lemma_prefix_not_after, lex_lt,
    precedes_at, starts_with, texts_of, Standing, VERSION_MARK,
};

verus! {

/// Whether a symbol carries a version.
pub open spec fn is_versioned(symbol: Seq<u8>) -> bool {
    symbol.contains(VERSION_MARK)
}

/// Whether a defined symbol satisfies a request: it is the request itself, or it
/// carries a version, the request carries none, and it begins with the request.
pub open spec fn satisfies(defined: Seq<u8>, request: Seq<u8>) -> bool {
    defined == request || (is_versioned(defined) && !is_versioned(request)
        && request.is_prefix_of(defined))
}

/// Where a defined symbol stands for a search after a request: at the request
/// where it satisfies it, else before or after it as the byte order says.
pub open spec fn search_standing(defined: Seq<u8>, request: Seq<u8>) -> Standing {
    if satisfies(defined, request) {
        Standing::Same
    } else if lex_lt(defined, request) {
        Standing::Before
    } else {
        Standing::After
    }
}

/// The binary search for a request among `symbols[lo..hi]`: the middle symbol
/// either satisfies the request, or sends the search to the half after it or to
/// the half before it.
pub open spec fn probe(symbols: Seq<Seq<u8>>, request: Seq<u8>, lo: int, hi: int) -> bool
    decreases hi - lo,
{
    if lo >= hi {
        false
    } else {
        let mid = lo + (hi - lo) / 2;
        match search_standing(symbols[mid], request) {
            Standing::Same => true,
            Standing::Before => probe(symbols, request, mid + 1, hi),
            Standing::After => probe(symbols, request, lo, mid),
        }
    }
}

/// Whether a list of byte strings is in ascending order.
pub open spec fn ascending(symbols: Seq<Seq<u8>>) -> bool {
    forall|i: int, j: int| 0 <= i < j < symbols.len() ==> !lex_lt(symbols[j], symbols[i])
}

/// The position of a standing in the order before, same, after.
pub open spec fn rank(standing: Standing) -> int {
    match standing {
        Standing::Before => 0,
        Standing::Same => 1,
        Standing::After => 2,
    }
}

/// Whether the symbols that stand before a request all come first, and those
/// that stand after it all come last.
pub open spec fn partitioned(symbols: Seq<Seq<u8>>, request: Seq<u8>) -> bool {
    forall|i: int, j: int|
        0 <= i < j < symbols.len() ==> rank(search_standing(symbols[i], request)) <= rank(
            search_standing(symbols[j], request),
        )
}

/// Whether a symbol list provides a request: the search over the whole list
/// finds a symbol that satisfies it.
pub open spec fn provides(symbols: Seq<Seq<char>>, request: Seq<char>) -> bool {
    probe(bytes_of_each(symbols), bytes_of(request), 0, symbols.len() as int)
}

/// Whether a symbol list is sorted ascending by the bytes of its entries.
pub open spec fn sorted(symbols: Seq<Seq<char>>) -> bool {
    ascending(bytes_of_each(symbols))
}

/// Whatever the search finds satisfies the request.
pub proof fn lemma_probe_sound(symbols: Seq<Seq<u8>>, request: Seq<u8>, lo: int, hi: int)
    requires
        0 <= lo,
        hi <= symbols.len(),
        probe(symbols, request, lo, hi),
    ensures
        exists|i: int| lo <= i < hi && satisfies(#[trigger] symbols[i], request),
    decreases hi - lo,
{
    let mid = lo + (hi - lo) / 2;
    match search_standing(symbols[mid], request) {
        Standing::Same => {
            assert(satisfies(symbols[mid], request));
        },
        Standing::Before => {
            lemma_probe_sound(symbols, request, mid + 1, hi);
        },
        Standing::After => {
            lemma_probe_sound(symbols, request, lo, mid);
        },
    }
}

/// In a list that the request partitions, the search finds every satisfying
/// symbol's presence.
pub proof fn lemma_probe_complete(
    symbols: Seq<Seq<u8>>,
    request: Seq<u8>,
    lo: int,
    hi: int,
    at: int,
)
    requires
        partitioned(symbols, request),
        0 <= lo <= at < hi <= symbols.len(),
        satisfies(symbols[at], request),
    ensures
        probe(symbols, request, lo, hi),
    decreases hi - lo,
{
    let mid = lo + (hi - lo) / 2;
    match search_standing(symbols[mid], request) {
        Standing::Same => {},
        Standing::Before => {
            if mid >= at {
                assert(rank(search_standing(symbols[at], request)) <= rank(
                    search_standing(symbols[mid], request),
                ));
            }
            lemma_probe_complete(symbols, request, mid + 1, hi, at);
        },
        Standing::After => {
            if mid <= at {
                assert(rank(search_standing(symbols[mid], request)) <= rank(
                    search_standing(symbols[at], request),
                ));
            }
            lemma_probe_complete(symbols, request, lo, mid, at);
        },
    }
}

/// In an ascending list the search finds a request that is itself listed,
/// whatever else the list holds.
pub proof fn lemma_probe_finds_listed(
    symbols: Seq<Seq<u8>>,
    request: Seq<u8>,
    lo: int,
    hi: int,
    at: int,
)
    requires
        ascending(symbols),
        0 <= lo <= at < hi <= symbols.len(),
        symbols[at] == request,
    ensures
        probe(symbols, request, lo, hi),
    decreases hi - lo,
{
    let mid = lo + (hi - lo) / 2;
    match search_standing(symbols[mid], request) {
        Standing::Same => {},
        Standing::Before => {
            assert(mid < at);
            lemma_probe_finds_listed(symbols, request, mid + 1, hi, at);
        },
        Standing::After => {
            if mid < at {
                lemma_lex_total(symbols[mid], request);
            }
            lemma_probe_finds_listed(symbols, request, lo, mid, at);
        },
    }
}

/// A request that carries a version partitions every ascending list.
pub proof fn lemma_versioned_request_partitions(symbols: Seq<Seq<u8>>, request: Seq<u8>)
    requires
        ascending(symbols),
        is_versioned(request),
    ensures
        partitioned(symbols, request),
{
    assert forall|i: int, j: int| 0 <= i < j < symbols.len() implies rank(
        search_standing(symbols[i], request),
    ) <= rank(search_standing(symbols[j], request)) by {
        let a = symbols[i];
        let b = symbols[j];
        if a != b {
            lemma_lex_total(a, b);
        }
        if lex_lt(b, request) {
            if a != b {
                lemma_lex_transitive(a, b, request);
            }
            lemma_lex_asymmetric(b, request);
            lemma_lex_asymmetric(a, request);
        } else if b == request {
            if a != request {
                assert(lex_lt(a, request));
            }
        }
    }
}

/// A request without a version partitions an ascending list in which every
/// symbol that extends the request carries a version.
pub proof fn lemma_bare_request_partitions(symbols: Seq<Seq<u8>>, request: Seq<u8>)
    requires
        ascending(symbols),
        !is_versioned(request),
        forall|i: int|
            0 <= i < symbols.len() && request.is_prefix_of(#[trigger] symbols[i]) && symbols[i]
                != request ==> is_versioned(symbols[i]),
    ensures
        partitioned(symbols, request),
{
    assert forall|i: int, j: int| 0 <= i < j < symbols.len() implies rank(
        search_standing(symbols[i], request),
    ) <= rank(search_standing(symbols[j], request)) by {
        let a = symbols[i];
        let b = symbols[j];
        if a != b {
            lemma_lex_total(a, b);
        }
        if satisfies(b, request) {
            if !satisfies(a, request) && !lex_lt(a, request) {
                // `a` lies after the request and at or before `b`, which begins
                // with the request: then `a` begins with it too.
                lemma_lex_total(a, request);
                lemma_between_shares_prefix(request, a, b);
                assert(false);
            }
        } else if lex_lt(b, request) {
            if a != b {
                lemma_lex_transitive(a, b, request);
            }
            lemma_lex_asymmetric(a, request);
            if request.is_prefix_of(a) {
                lemma_prefix_not_after(request, a);
            }
        }
    }
}

/// A byte string that lies after `prefix` and not after `whole`, which begins
/// with `prefix`, begins with `prefix` too.
pub proof fn lemma_between_shares_prefix(prefix: Seq<u8>, between: Seq<u8>, whole: Seq<u8>)
    requires
        prefix.is_prefix_of(whole),
        lex_lt(prefix, between),
        !lex_lt(whole, between),
    ensures
        prefix.is_prefix_of(between),
{
    let k = choose|k: int| precedes_at(prefix, between, k);
    if k < prefix.len() {
        // `between` holds a larger byte than `prefix`, and so than `whole`, at `k`.
        assert forall|i: int| 0 <= i < k implies whole[i] == between[i] by {
            assert(whole.subrange(0, prefix.len() as int)[i] == whole[i]);
        }
        assert(whole.subrange(0, prefix.len() as int)[k] == whole[k]);
        assert(precedes_at(whole, between, k));
        assert(false);
    }
    assert(prefix =~= between.subrange(0, prefix.len() as int));
}

/// A sorted symbol list provides every request that is itself listed.
pub proof fn lemma_listed_symbol_is_provided(symbols: Seq<Seq<char>>, request: Seq<char>)
    requires
        sorted(symbols),
        symbols.contains(request),
    ensures
        provides(symbols, request),
{
    let at = choose|i: int| 0 <= i < symbols.len() && symbols[i] == request;
    lemma_probe_finds_listed(
        bytes_of_each(symbols),
        bytes_of(request),
        0,
        symbols.len() as int,
        at,
    );
}

/// Whatever a symbol list provides, one of its entries satisfies.
pub proof fn lemma_provided_symbol_is_satisfied(symbols: Seq<Seq<char>>, request: Seq<char>)
    requires
        provides(symbols, request),
    ensures
        exists|i: int|
            0 <= i < symbols.len() && satisfies(bytes_of(#[trigger] symbols[i]), bytes_of(request)),
{
    lemma_probe_sound(bytes_of_each(symbols), bytes_of(request), 0, symbols.len() as int);
    let i = choose|i: int|
        0 <= i < symbols.len() && satisfies(#[trigger] bytes_of_each(symbols)[i], bytes_of(request));
    assert(bytes_of_each(symbols)[i] == bytes_of(symbols[i]));
}

/// A sorted symbol list provides a request that carries a version exactly when
/// it lists that very symbol.
pub proof fn lemma_versioned_request_is_exact(symbols: Seq<Seq<char>>, request: Seq<char>)
    requires
        sorted(symbols),
        is_versioned(bytes_of(request)),
    ensures
        provides(symbols, request) <==> symbols.contains(request),
{
    if provides(symbols, request) {
        lemma_provided_symbol_is_satisfied(symbols, request);
        let i = choose|i: int|
            0 <= i < symbols.len() && satisfies(bytes_of(#[trigger] symbols[i]), bytes_of(request));
        lemma_bytes_injective(symbols[i], request);
    }
    if symbols.contains(request) {
        lemma_listed_symbol_is_provided(symbols, request);
    }
}

/// A sorted symbol list in which every symbol that extends a bare request
/// carries a version provides the request exactly when one of its entries
/// satisfies it.
pub proof fn lemma_bare_request_is_complete(symbols: Seq<Seq<char>>, request: Seq<char>)
    requires
        sorted(symbols),
        !is_versioned(bytes_of(request)),
        forall|i: int|
            0 <= i < symbols.len() && bytes_of(request).is_prefix_of(bytes_of(#[trigger] symbols[i]))
                && symbols[i] != request ==> is_versioned(bytes_of(symbols[i])),
    ensures
        provides(symbols, request) <==> exists|i: int|
            0 <= i < symbols.len() && satisfies(bytes_of(#[trigger] symbols[i]), bytes_of(request)),
{
    let all = bytes_of_each(symbols);
    let wanted = bytes_of(request);
    if provides(symbols, request) {
        lemma_provided_symbol_is_satisfied(symbols, request);
    }
    if exists|i: int| 0 <= i < symbols.len() && satisfies(bytes_of(#[trigger] symbols[i]), wanted) {
        let at = choose|i: int|
            0 <= i < symbols.len() && satisfies(bytes_of(#[trigger] symbols[i]), wanted);
        assert forall|i: int|
            0 <= i < all.len() && wanted.is_prefix_of(#[trigger] all[i]) && all[i]
                != wanted implies is_versioned(all[i]) by {
            assert(all[i] == bytes_of(symbols[i]));
        }
        lemma_bare_request_partitions(all, wanted);
        assert(all[at] == bytes_of(symbols[at]));
        lemma_probe_complete(all, wanted, 0, symbols.len() as int, at);
    }
}

/// The bytes of two texts, one after the other, are the bytes of the first
/// followed by the bytes of the second.
pub proof fn lemma_bytes_of_concat(first: Seq<char>, second: Seq<char>)
    ensures
        bytes_of(first + second) == bytes_of(first) + bytes_of(second),
    decreases first.len(),
{
    if first.len() == 0 {
        assert(first + second =~= second);
        assert(bytes_of(first) + bytes_of(second) =~= bytes_of(second));
    } else {
        lemma_bytes_of_concat(first.drop_first(), second);
        assert((first + second).drop_first() =~= first.drop_first() + second);
        assert((first + second)[0] == first[0]);
        assert(bytes_of(first + second) =~= bytes_of(first) + bytes_of(second));
    }
}

/// A definition of a name with a version satisfies the bare request for the
/// name: the loader binds a reference without a version to whatever version a
/// library exports.
pub proof fn lemma_versioned_definition_satisfies(name: Seq<char>, version: Seq<char>)
    requires
        !is_versioned(bytes_of(name)),
    ensures
        is_versioned(bytes_of(qualified(name, version))),
        satisfies(bytes_of(qualified(name, version)), bytes_of(name)),
        provides(seq![qualified(name, version)], name),
{
    let mark = seq!['@'];
    let defined = bytes_of(qualified(name, version));
    let wanted = bytes_of(name);
    assert(bytes_of(mark) =~= seq![VERSION_MARK]) by {
        is_ascii_chars_encode_utf8(mark);
        assert(mark[0] as u8 == VERSION_MARK);
    }
    lemma_bytes_of_concat(name + mark, version);
    lemma_bytes_of_concat(name, mark);
    assert(defined == wanted + seq![VERSION_MARK] + bytes_of(version));
    assert(defined[wanted.len() as int] == VERSION_MARK);
    assert(wanted =~= defined.subrange(0, wanted.len() as int));
    assert(bytes_of_each(seq![qualified(name, version)])[0] == defined);
}

/// Where a defined symbol stands for a search after a request.
pub fn classify(defined: &[u8], request: &[u8], request_versioned: bool) -> (standing: Standing)
    requires
        request_versioned == is_versioned(request@),
    ensures
        standing == search_standing(defined@, request@),
{
    let order = compare_bytes(defined, request);
    if order != Standing::Same && !request_versioned && contains_byte(defined, VERSION_MARK)
        && starts_with(defined, request) {
        return Standing::Same;
    }
    proof {
        if order == Standing::After {
            lemma_lex_asymmetric(request@, defined@);
        }
    }
    order
}

/// Searches a symbol list for a symbol that satisfies the request.
pub fn search_symbols(symbols: &Vec<String>, request: &str) -> (found: bool)
    ensures
        found == provides(texts_of(symbols@), request@),
{
    let wanted = request.as_bytes();
    let versioned = contains_byte(wanted, VERSION_MARK);
    let ghost all = bytes_of_each(texts_of(symbols@));
    let mut lo: usize = 0;
    let mut hi: usize = symbols.len();
    while lo < hi
        invariant
            lo <= hi <= symbols.len(),
            wanted@ == bytes_of(request@),
            versioned == is_versioned(wanted@),
            all == bytes_of_each(texts_of(symbols@)),
            provides(texts_of(symbols@), request@) == probe(all, wanted@, lo as int, hi as int),
        decreases hi - lo,
    {
        let mid = lo + (hi - lo) / 2;
        let defined = symbols[mid].as_str().as_bytes();
        assert(defined@ == all[mid as int]) by {
            assert(texts_of(symbols@)[mid as int] == symbols@[mid as int]@);
        }
        match classify(defined, wanted, versioned) {
            Standing::Same => {
                return true;
            },
            Standing::Before => {
                lo = mid + 1;
            },
            Standing::After => {
                hi = mid;
            },
        }
    }
    false
}

/// Whether one list is another put in ascending order: it is sorted, and it
/// holds the same entries as often.
pub open spec fn is_sorting_of(ordered: Seq<Seq<char>>, list: Seq<Seq<char>>) -> bool {
    sorted(ordered) && ordered.to_multiset() == list.to_multiset()
}

} // verus!
