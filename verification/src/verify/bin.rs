//! The resolution engine: which libraries a binary misses and which of its
//! symbols stay unresolved, by a walk through the libraries it needs, the
//! libraries those need, and so on.

use vstd::hash_set::StringHashSet;
use vstd::prelude::*;
use vstd::set_lib::lemma_len_subset;
use crate::binary::BinaryInfo;
use crate::library::LibraryInfo;
use crate::order::sort_texts;
use crate::lookup::{
    covered, dependencies, depended_on, is_chain, lemma_dependency_is_reached,
    lemma_root_is_reached, needs, offers, reaches, supplied, LibraryLookup,
};
use crate::sequences::{
    lemma_filter_agrees, lemma_filter_none, lemma_filter_push, lemma_filter_twice,
    lemma_texts_push,
};
use crate::symbol::sorted;
use crate::text::{copy_texts, texts_of};
use crate::verify::{Verify, VerifyResult};

verus! {

/// The verdict on one binary.
#[derive(Debug, PartialEq, Eq)]
pub struct BinVerifyResult {
    /// The binary's name.
    pub name: String,
    /// The needed libraries that no lookup finds.
    pub missing_lib: Vec<String>,
    /// The required symbols that no library reached provides.
    pub undefined_sym: Vec<String>,
}

/// The mathematical content of a [`BinVerifyResult`].
pub struct BinVerdict {
    pub name: Seq<char>,
    pub missing_lib: Seq<Seq<char>>,
    pub undefined_sym: Seq<Seq<char>>,
}

impl View for BinVerifyResult {
    type V = BinVerdict;

    open spec fn view(&self) -> BinVerdict {
        BinVerdict {
            name: self.name@,
            missing_lib: texts_of(self.missing_lib@),
            undefined_sym: texts_of(self.undefined_sym@),
        }
    }
}

impl BinVerdict {
    /// Whether nothing is missing and nothing unresolved.
    pub open spec fn good(self) -> bool {
        self.missing_lib.len() == 0 && self.undefined_sym.len() == 0
    }
}

impl BinVerifyResult {
    /// A verdict for the binary of this name, with nothing missing and nothing
    /// unresolved yet.
    pub fn new(name: String) -> (result: Self)
        ensures
            result@ == (BinVerdict {
                name: name@,
                missing_lib: Seq::empty(),
                undefined_sym: Seq::empty(),
            }),
    {
        let result = BinVerifyResult { name, missing_lib: Vec::new(), undefined_sym: Vec::new() };
        assert(texts_of(result.missing_lib@) =~= Seq::<Seq<char>>::empty());
        assert(texts_of(result.undefined_sym@) =~= Seq::<Seq<char>>::empty());
        result
    }
}

impl VerifyResult for BinVerifyResult {
    open spec fn good(&self) -> bool {
        self@.good()
    }

    fn is_good(&self) -> (good: bool) {
        assert(texts_of(self.missing_lib@).len() == self.missing_lib@.len());
        assert(texts_of(self.undefined_sym@).len() == self.undefined_sym@.len());
        self.missing_lib.len() == 0 && self.undefined_sym.len() == 0
    }
}

/// The needed libraries that the lookup does not find, in the order and as
/// often as they are needed.
pub open spec fn missing_libraries<L: LibraryLookup>(lookup: &L, needed: Seq<Seq<char>>) -> Seq<
    Seq<char>,
> {
    needed.filter(|name: Seq<char>| lookup.lookup(name) is None)
}

/// The required symbols that no library reached from the needed ones provides,
/// in the order and as often as they are required.
pub open spec fn unresolved_symbols<L: LibraryLookup>(
    lookup: &L,
    needed: Seq<Seq<char>>,
    undefined: Seq<Seq<char>>,
) -> Seq<Seq<char>> {
    undefined.filter(|symbol: Seq<char>| !supplied(lookup, needed, symbol))
}

/// Whether every visited name is depended on.
pub open spec fn all_depended<L: LibraryLookup>(
    lookup: &L,
    roots: Seq<Seq<char>>,
    visited: Set<Seq<char>>,
) -> bool {
    forall|name: Seq<char>| visited.contains(name) ==> depended_on(lookup, roots, name)
}

/// Whether a list holds the visited names, each once.
pub open spec fn lists(order: Seq<Seq<char>>, visited: Set<Seq<char>>) -> bool {
    &&& order.no_duplicates()
    &&& forall|name: Seq<char>| order.contains(name) <==> visited.contains(name)
}

/// Whether the visited names are closed under dependency, but for the pending
/// ones: what the library found under a visited name needs is visited too.
pub open spec fn closed_except<L: LibraryLookup>(
    lookup: &L,
    visited: Set<Seq<char>>,
    pending: Set<Seq<char>>,
) -> bool {
    forall|name: Seq<char>, i: int|
        visited.contains(name) && !pending.contains(name) && 0 <= i < dependencies(
            lookup,
            name,
        ).len() ==> visited.contains(#[trigger] dependencies(lookup, name)[i])
}

/// Whether one of the first roots is found to provide a symbol.
pub open spec fn covered_by_roots<L: LibraryLookup>(
    lookup: &L,
    roots: Seq<Seq<char>>,
    upto: int,
    symbol: Seq<char>,
) -> bool {
    exists|j: int| 0 <= j < upto && #[trigger] offers(lookup, roots[j], symbol)
}

/// A symbol is covered by a union of names where it is covered by either part.
proof fn lemma_covered_union<L: LibraryLookup>(
    lookup: &L,
    first: Set<Seq<char>>,
    second: Set<Seq<char>>,
    symbol: Seq<char>,
)
    ensures
        covered(lookup, first.union(second), symbol) <==> covered(lookup, first, symbol) || covered(
            lookup,
            second,
            symbol,
        ),
{
    if covered(lookup, first.union(second), symbol) {
        let name = choose|name: Seq<char>|
            first.union(second).contains(name) && #[trigger] offers(lookup, name, symbol);
        if first.contains(name) {
            assert(covered(lookup, first, symbol));
        } else {
            assert(covered(lookup, second, symbol));
        }
    }
    if covered(lookup, first, symbol) {
        let name = choose|name: Seq<char>|
            first.contains(name) && #[trigger] offers(lookup, name, symbol);
        assert(first.union(second).contains(name));
    }
    if covered(lookup, second, symbol) {
        let name = choose|name: Seq<char>|
            second.contains(name) && #[trigger] offers(lookup, name, symbol);
        assert(first.union(second).contains(name));
    }
}

/// A symbol is covered by a set grown by one name where the set covers it or
/// the library found under the name provides it.
proof fn lemma_covered_insert<L: LibraryLookup>(
    lookup: &L,
    names: Set<Seq<char>>,
    added: Seq<char>,
    symbol: Seq<char>,
)
    ensures
        covered(lookup, names.insert(added), symbol) <==> covered(lookup, names, symbol) || offers(
            lookup,
            added,
            symbol,
        ),
{
    if covered(lookup, names.insert(added), symbol) {
        let name = choose|name: Seq<char>|
            names.insert(added).contains(name) && #[trigger] offers(lookup, name, symbol);
        if name != added {
            assert(names.contains(name));
            assert(covered(lookup, names, symbol));
        }
    }
    if covered(lookup, names, symbol) {
        let name = choose|name: Seq<char>|
            names.contains(name) && #[trigger] offers(lookup, name, symbol);
        assert(names.insert(added).contains(name));
    }
    if offers(lookup, added, symbol) {
        assert(names.insert(added).contains(added));
    }
}

/// Every name of a chain from the roots, but the first, is visited, where the
/// visited names are closed under dependency and hold what the roots' libraries
/// need.
proof fn lemma_chain_is_walked<L: LibraryLookup>(
    lookup: &L,
    roots: Seq<Seq<char>>,
    visited: Set<Seq<char>>,
    chain: Seq<Seq<char>>,
    at: int,
)
    requires
        closed_except(lookup, visited, Set::empty()),
        forall|j: int, i: int|
            0 <= j < roots.len() && 0 <= i < dependencies(lookup, roots[j]).len()
                ==> visited.contains(#[trigger] dependencies(lookup, roots[j])[i]),
        is_chain(lookup, roots, chain),
        0 <= at < chain.len(),
    ensures
        at == 0 ==> roots.contains(chain[at]),
        at > 0 ==> visited.contains(chain[at]),
    decreases at,
{
    if at > 0 {
        lemma_chain_is_walked(lookup, roots, visited, chain, at - 1);
        let before = chain[at - 1];
        assert(dependencies(lookup, before).contains(chain[at]));
        let i = choose|i: int|
            0 <= i < dependencies(lookup, before).len() && dependencies(lookup, before)[i]
                == chain[at];
        if at == 1 {
            let j = choose|j: int| 0 <= j < roots.len() && roots[j] == before;
            assert(visited.contains(dependencies(lookup, roots[j])[i]));
        } else {
            assert(visited.contains(dependencies(lookup, before)[i]));
        }
    }
}

/// After a complete walk, the visited names are the names depended on.
proof fn lemma_walk_visits_dependencies<L: LibraryLookup>(
    lookup: &L,
    roots: Seq<Seq<char>>,
    visited: Set<Seq<char>>,
    name: Seq<char>,
)
    requires
        all_depended(lookup, roots, visited),
        closed_except(lookup, visited, Set::empty()),
        forall|j: int, i: int|
            0 <= j < roots.len() && 0 <= i < dependencies(lookup, roots[j]).len()
                ==> visited.contains(#[trigger] dependencies(lookup, roots[j])[i]),
    ensures
        visited.contains(name) <==> depended_on(lookup, roots, name),
{
    if depended_on(lookup, roots, name) {
        let chain = choose|chain: Seq<Seq<char>>|
            #[trigger] is_chain(lookup, roots, chain) && chain.len() >= 2 && chain.last() == name;
        lemma_chain_is_walked(lookup, roots, visited, chain, chain.len() - 1);
    }
}

/// After a complete walk, a symbol is supplied exactly where a root's library
/// or a visited name's library provides it.
proof fn lemma_walk_is_complete<L: LibraryLookup>(
    lookup: &L,
    roots: Seq<Seq<char>>,
    visited: Set<Seq<char>>,
    symbol: Seq<char>,
)
    requires
        all_depended(lookup, roots, visited),
        closed_except(lookup, visited, Set::empty()),
        forall|j: int, i: int|
            0 <= j < roots.len() && 0 <= i < dependencies(lookup, roots[j]).len()
                ==> visited.contains(#[trigger] dependencies(lookup, roots[j])[i]),
    ensures
        supplied(lookup, roots, symbol) <==> covered_by_roots(
            lookup,
            roots,
            roots.len() as int,
            symbol,
        ) || covered(lookup, visited, symbol),
{
    if supplied(lookup, roots, symbol) {
        let name = choose|name: Seq<char>|
            reaches(lookup, roots, name) && #[trigger] offers(lookup, name, symbol);
        let chain = choose|chain: Seq<Seq<char>>|
            #[trigger] is_chain(lookup, roots, chain) && chain.last() == name;
        lemma_chain_is_walked(lookup, roots, visited, chain, chain.len() - 1);
        if chain.len() == 1 {
            let j = choose|j: int| 0 <= j < roots.len() && roots[j] == name;
            assert(offers(lookup, roots[j], symbol));
        } else {
            assert(covered(lookup, visited, symbol));
        }
    }
    if covered_by_roots(lookup, roots, roots.len() as int, symbol) {
        let j = choose|j: int| 0 <= j < roots.len() && #[trigger] offers(lookup, roots[j], symbol);
        lemma_root_is_reached(lookup, roots, j);
        assert(supplied(lookup, roots, symbol));
    }
    if covered(lookup, visited, symbol) {
        let name = choose|name: Seq<char>|
            visited.contains(name) && #[trigger] offers(lookup, name, symbol);
        let chain = choose|chain: Seq<Seq<char>>|
            #[trigger] is_chain(lookup, roots, chain) && chain.len() >= 2 && chain.last() == name;
        assert(reaches(lookup, roots, name));
        assert(supplied(lookup, roots, symbol));
    }
}

/// Takes out of the symbols those that the library provides.
fn discard_provided(undefined: &mut Vec<String>, library: &LibraryInfo)
    ensures
        texts_of(final(undefined)@) == texts_of(old(undefined)@).filter(
            |symbol: Seq<char>| !library@.has_symbol(symbol),
        ),
{
    let ghost keep = |symbol: Seq<char>| !library@.has_symbol(symbol);
    let mut kept: Vec<String> = Vec::new();
    let mut at: usize = 0;
    assert(texts_of(undefined@).subrange(0, 0) =~= Seq::<Seq<char>>::empty());
    assert(texts_of(kept@) =~= Seq::<Seq<char>>::empty());
    while at < undefined.len()
        invariant
            at <= undefined.len(),
            keep == |symbol: Seq<char>| !library@.has_symbol(symbol),
            texts_of(kept@) == texts_of(undefined@).subrange(0, at as int).filter(keep),
        decreases undefined.len() - at,
    {
        proof {
            let before = texts_of(undefined@).subrange(0, at as int);
            assert(texts_of(undefined@).subrange(0, at + 1) =~= before.push(undefined@[at as int]@));
            lemma_filter_push(before, undefined@[at as int]@, keep);
        }
        if !library.has_symbol(undefined[at].as_str()) {
            let symbol = undefined[at].clone();
            proof {
                lemma_texts_push(kept@, symbol);
            }
            kept.push(symbol);
        }
        at += 1;
    }
    assert(texts_of(undefined@).subrange(0, at as int) =~= texts_of(undefined@));
    *undefined = kept;
}

/// Resolves against one library and everything it leads to: takes out of the
/// symbols those that the library provides, then visits each library it needs
/// that is not visited yet, and resolves against the one found.
///
/// `visited` is shared by the whole walk, so that a cycle of dependencies is
/// walked once; `order` lists the visited names as the walk comes to them.
pub(crate) fn recursive_resolve_symbols<L: LibraryLookup>(
    library: &LibraryInfo,
    undefined: &mut Vec<String>,
    visited: &mut StringHashSet,
    order: &mut Vec<String>,
    lookup: &L,
    Ghost(roots): Ghost<Seq<Seq<char>>>,
    Ghost(origin): Ghost<Seq<char>>,
    Ghost(pending): Ghost<Set<Seq<char>>>,
)
    requires
        lookup.lookup(origin) == Some(library@),
        reaches(lookup, roots, origin),
        all_depended(lookup, roots, old(visited)@),
        closed_except(lookup, old(visited)@, pending),
        lists(texts_of(old(order)@), old(visited)@),
    ensures
        old(visited)@.subset_of(final(visited)@),
        all_depended(lookup, roots, final(visited)@),
        lists(texts_of(final(order)@), final(visited)@),
        closed_except(lookup, final(visited)@, pending.remove(origin)),
        forall|i: int|
            0 <= i < library@.needed.len() ==> final(visited)@.contains(
                #[trigger] library@.needed[i],
            ),
        texts_of(final(undefined)@) == texts_of(old(undefined)@).filter(
            |symbol: Seq<char>|
                !library@.has_symbol(symbol) && !covered(
                    lookup,
                    final(visited)@.difference(old(visited)@),
                    symbol,
                ),
        ),
    decreases lookup.horizon().difference(old(visited)@).len(),
{
    let ghost start_undefined = texts_of(undefined@);
    let ghost start_visited = visited@;
    discard_provided(undefined, library);
    proof {
        let first = |symbol: Seq<char>| !library@.has_symbol(symbol);
        let second = |symbol: Seq<char>|
            !library@.has_symbol(symbol) && !covered(
                lookup,
                visited@.difference(start_visited),
                symbol,
            );
        assert forall|i: int| 0 <= i < start_undefined.len() implies first(
            #[trigger] start_undefined[i],
        ) == second(start_undefined[i]) by {
            let symbol = start_undefined[i];
            if covered(lookup, visited@.difference(start_visited), symbol) {
                let name = choose|name: Seq<char>|
                    visited@.difference(start_visited).contains(name) && #[trigger] offers(
                        lookup,
                        name,
                        symbol,
                    );
                assert(false);
            }
        }
        lemma_filter_agrees(start_undefined, first, second);
    }
    let mut at: usize = 0;
    while at < library.needed.len()
        invariant
            at <= library.needed.len(),
            lookup.lookup(origin) == Some(library@),
            reaches(lookup, roots, origin),
            start_visited.subset_of(visited@),
            all_depended(lookup, roots, visited@),
            closed_except(lookup, visited@, pending),
            lists(texts_of(order@), visited@),
            forall|i: int| 0 <= i < at ==> visited@.contains(#[trigger] library@.needed[i]),
            texts_of(undefined@) == start_undefined.filter(
                |symbol: Seq<char>|
                    !library@.has_symbol(symbol) && !covered(
                        lookup,
                        visited@.difference(start_visited),
                        symbol,
                    ),
            ),
            start_visited == old(visited)@,
        decreases library.needed.len() - at,
    {
        let needed = library.needed[at].as_str();
        assert(library@.needed[at as int] == needed@);
        assert(dependencies(lookup, origin)[at as int] == needed@);
        if !visited.contains(needed) {
            let ghost before = visited@;
            let ghost before_undefined = texts_of(undefined@);
            let ghost before_keep = |symbol: Seq<char>|
                !library@.has_symbol(symbol) && !covered(
                    lookup,
                    before.difference(start_visited),
                    symbol,
                );
            visited.insert(library.needed[at].clone());
            let ghost inserted = visited@;
            let ghost listed = texts_of(order@);
            let next_name = library.needed[at].clone();
            proof {
                lemma_texts_push(order@, next_name);
            }
            order.push(next_name);
            proof {
                assert forall|name: Seq<char>|
                    texts_of(order@).contains(name) <==> inserted.contains(name) by {
                    if name == needed@ {
                        assert(texts_of(order@)[listed.len() as int] == needed@);
                    } else if listed.contains(name) {
                        let i = choose|i: int| 0 <= i < listed.len() && listed[i] == name;
                        assert(texts_of(order@)[i] == name);
                    }
                }
                lemma_dependency_is_reached(lookup, roots, origin, at as int);
                assert(inserted.difference(start_visited) =~= before.difference(
                    start_visited,
                ).insert(needed@));
            }
            match lookup.find_library(needed) {
                Some(next) => {
                    proof {
                        lookup.horizon_bounds();
                        let horizon = lookup.horizon();
                        let outer = horizon.difference(start_visited);
                        let inner = horizon.difference(inserted);
                        assert(horizon.contains(needs(lookup.lookup(origin))[at as int]));
                        assert(outer.contains(needed@));
                        assert(inner.subset_of(outer.remove(needed@)));
                        lemma_len_subset(inner, outer.remove(needed@));
                    }
                    recursive_resolve_symbols(
                        &next,
                        undefined,
                        visited,
                        order,
                        lookup,
                        Ghost(roots),
                        Ghost(needed@),
                        Ghost(pending.insert(needed@)),
                    );
                    proof {
                        let after = visited@;
                        let next_keep = |symbol: Seq<char>|
                            !next@.has_symbol(symbol) && !covered(
                                lookup,
                                after.difference(inserted),
                                symbol,
                            );
                        let after_keep = |symbol: Seq<char>|
                            !library@.has_symbol(symbol) && !covered(
                                lookup,
                                after.difference(start_visited),
                                symbol,
                            );
                        let both = |symbol: Seq<char>| before_keep(symbol) && next_keep(symbol);
                        lemma_filter_twice(start_undefined, before_keep, next_keep);
                        assert(after.difference(start_visited) =~= inserted.difference(
                            start_visited,
                        ).union(after.difference(inserted)));
                        assert forall|i: int| 0 <= i < start_undefined.len() implies both(
                            #[trigger] start_undefined[i],
                        ) == after_keep(start_undefined[i]) by {
                            let symbol = start_undefined[i];
                            lemma_covered_union(
                                lookup,
                                inserted.difference(start_visited),
                                after.difference(inserted),
                                symbol,
                            );
                            lemma_covered_insert(
                                lookup,
                                before.difference(start_visited),
                                needed@,
                                symbol,
                            );
                        }
                        lemma_filter_agrees(start_undefined, both, after_keep);
                    }
                },
                None => {
                    proof {
                        let after_keep = |symbol: Seq<char>|
                            !library@.has_symbol(symbol) && !covered(
                                lookup,
                                inserted.difference(start_visited),
                                symbol,
                            );
                        assert forall|i: int| 0 <= i < start_undefined.len() implies before_keep(
                            #[trigger] start_undefined[i],
                        ) == after_keep(start_undefined[i]) by {
                            lemma_covered_insert(
                                lookup,
                                before.difference(start_visited),
                                needed@,
                                start_undefined[i],
                            );
                        }
                        lemma_filter_agrees(start_undefined, before_keep, after_keep);
                    }
                },
            }
        }
        at += 1;
    }
}

/// What a walk through the libraries that a binary needs brings: the verdict
/// on the binary, and the names that the walk visited.
#[derive(Debug)]
pub struct Walk {
    /// The verdict on the binary.
    pub result: BinVerifyResult,
    /// The names that libraries found on the way need, each once, sorted
    /// ascending.
    pub visited: Vec<String>,
}

impl BinaryInfo {
    /// Walks through the libraries that the binary needs, the libraries those
    /// need, and so on, visiting each name once, however the dependencies run.
    ///
    /// A needed library that the lookup does not find is missing. A required
    /// symbol is resolved where a library provides it that is found under a name
    /// reached from the needed ones; a library that one of those needs and that
    /// is not found is passed over. The names visited are those that a library
    /// found on the way needs.
    pub fn walk<L: LibraryLookup>(&self, lookup: &L) -> (walk: Walk)
        ensures
            walk.result@ == verdict_of(lookup, self@.name, self@.needed, self@.undefined),
            sorted(texts_of(walk.visited@)),
            texts_of(walk.visited@).no_duplicates(),
            forall|name: Seq<char>|
                texts_of(walk.visited@).contains(name) <==> depended_on(
                    lookup,
                    self@.needed,
                    name,
                ),
    {
        let ghost roots = self@.needed;
        let ghost required = self@.undefined;
        let ghost is_missing = |name: Seq<char>| lookup.lookup(name) is None;
        let mut missing: Vec<String> = Vec::new();
        let mut undefined = copy_texts(&self.undefined);
        let mut visited = StringHashSet::new();
        let mut order: Vec<String> = Vec::new();
        let mut at: usize = 0;
        proof {
            assert(roots.subrange(0, 0) =~= Seq::<Seq<char>>::empty());
            assert(texts_of(missing@) =~= Seq::<Seq<char>>::empty());
            let keep = |symbol: Seq<char>|
                !covered_by_roots(lookup, roots, 0, symbol) && !covered(lookup, visited@, symbol);
            let all = |symbol: Seq<char>| true;
            assert forall|i: int| 0 <= i < required.len() implies keep(#[trigger] required[i])
                == all(required[i]) by {
                let symbol = required[i];
                if covered(lookup, visited@, symbol) {
                    let name = choose|name: Seq<char>|
                        visited@.contains(name) && #[trigger] offers(lookup, name, symbol);
                    assert(false);
                }
            }
            lemma_filter_agrees(required, keep, all);
            lemma_filter_all(required);
        }
        while at < self.needed.len()
            invariant
                at <= self.needed.len(),
                roots == self@.needed,
                required == self@.undefined,
                is_missing == |name: Seq<char>| lookup.lookup(name) is None,
                texts_of(missing@) == roots.subrange(0, at as int).filter(is_missing),
                all_depended(lookup, roots, visited@),
                closed_except(lookup, visited@, Set::empty()),
                lists(texts_of(order@), visited@),
                forall|j: int, i: int|
                    0 <= j < at && 0 <= i < dependencies(lookup, roots[j]).len()
                        ==> visited@.contains(#[trigger] dependencies(lookup, roots[j])[i]),
                texts_of(undefined@) == required.filter(
                    |symbol: Seq<char>|
                        !covered_by_roots(lookup, roots, at as int, symbol) && !covered(
                            lookup,
                            visited@,
                            symbol,
                        ),
                ),
            decreases self.needed.len() - at,
        {
            let name = self.needed[at].as_str();
            let ghost before = visited@;
            let ghost before_keep = |symbol: Seq<char>|
                !covered_by_roots(lookup, roots, at as int, symbol) && !covered(
                    lookup,
                    before,
                    symbol,
                );
            proof {
                assert(roots[at as int] == name@);
                assert(roots.subrange(0, at + 1) =~= roots.subrange(0, at as int).push(name@));
                lemma_filter_push(roots.subrange(0, at as int), name@, is_missing);
                lemma_root_is_reached(lookup, roots, at as int);
            }
            match lookup.find_library(name) {
                Some(library) => {
                    recursive_resolve_symbols(
                        &library,
                        &mut undefined,
                        &mut visited,
                        &mut order,
                        lookup,
                        Ghost(roots),
                        Ghost(name@),
                        Ghost(Set::empty().insert(name@)),
                    );
                    proof {
                        let after = visited@;
                        let library_keep = |symbol: Seq<char>|
                            !library@.has_symbol(symbol) && !covered(
                                lookup,
                                after.difference(before),
                                symbol,
                            );
                        let after_keep = |symbol: Seq<char>|
                            !covered_by_roots(lookup, roots, at + 1, symbol) && !covered(
                                lookup,
                                after,
                                symbol,
                            );
                        let both = |symbol: Seq<char>| before_keep(symbol) && library_keep(symbol);
                        lemma_filter_twice(required, before_keep, library_keep);
                        assert(after =~= before.union(after.difference(before)));
                        assert forall|i: int| 0 <= i < required.len() implies both(
                            #[trigger] required[i],
                        ) == after_keep(required[i]) by {
                            let symbol = required[i];
                            lemma_covered_union(lookup, before, after.difference(before), symbol);
                            lemma_covered_by_next_root(lookup, roots, at as int, symbol);
                        }
                        lemma_filter_agrees(required, both, after_keep);
                        assert(Set::<Seq<char>>::empty().insert(name@).remove(name@)
                            =~= Set::<Seq<char>>::empty());
                        assert forall|j: int, i: int|
                            0 <= j < at + 1 && 0 <= i < dependencies(
                                lookup,
                                roots[j],
                            ).len() implies after.contains(
                            #[trigger] dependencies(lookup, roots[j])[i],
                        ) by {
                            if j == at {
                                assert(library@.needed[i] == dependencies(lookup, roots[j])[i]);
                            }
                        }
                    }
                },
                None => {
                    let absent = self.needed[at].clone();
                    proof {
                        lemma_texts_push(missing@, absent);
                        let after_keep = |symbol: Seq<char>|
                            !covered_by_roots(lookup, roots, at + 1, symbol) && !covered(
                                lookup,
                                before,
                                symbol,
                            );
                        assert forall|i: int| 0 <= i < required.len() implies before_keep(
                            #[trigger] required[i],
                        ) == after_keep(required[i]) by {
                            lemma_covered_by_next_root(lookup, roots, at as int, required[i]);
                        }
                        lemma_filter_agrees(required, before_keep, after_keep);
                    }
                    missing.push(absent);
                },
            }
            at += 1;
        }
        proof {
            assert(roots.subrange(0, at as int) =~= roots);
            let walked = |symbol: Seq<char>|
                !covered_by_roots(lookup, roots, at as int, symbol) && !covered(
                    lookup,
                    visited@,
                    symbol,
                );
            let unsupplied = |symbol: Seq<char>| !supplied(lookup, roots, symbol);
            assert forall|i: int| 0 <= i < required.len() implies walked(#[trigger] required[i])
                == unsupplied(required[i]) by {
                lemma_walk_is_complete(lookup, roots, visited@, required[i]);
            }
            lemma_filter_agrees(required, walked, unsupplied);
        }
        let ghost came = texts_of(order@);
        sort_texts(&mut order);
        proof {
            broadcast use vstd::seq_lib::group_to_multiset_ensures;

            came.lemma_multiset_has_no_duplicates();
            texts_of(order@).lemma_multiset_has_no_duplicates_conv();
            assert forall|name: Seq<char>|
                texts_of(order@).contains(name) <==> depended_on(lookup, roots, name) by {
                lemma_walk_visits_dependencies(lookup, roots, visited@, name);
                assert(came.contains(name) <==> came.to_multiset().count(name) > 0);
                assert(texts_of(order@).contains(name) <==> texts_of(order@).to_multiset().count(
                    name,
                ) > 0);
            }
        }
        Walk {
            result: BinVerifyResult {
                name: self.name.clone(),
                missing_lib: missing,
                undefined_sym: undefined,
            },
            visited: order,
        }
    }
}

impl Verify<BinVerifyResult> for BinaryInfo {
    /// Computes the libraries that the binary misses and the symbols that stay
    /// unresolved.
    ///
    /// A needed library that the lookup does not find is missing. A required
    /// symbol is resolved where a library provides it that is found under a name
    /// reached from the needed ones; a library that one of those needs and that
    /// is not found is passed over. The verdict is good where nothing is missing
    /// and nothing unresolved.
    fn verify<L: LibraryLookup>(&self, lookup: &L) -> (result: BinVerifyResult)
        ensures
            result@.name == self@.name,
            result@.missing_lib == missing_libraries(lookup, self@.needed),
            result@.undefined_sym == unresolved_symbols(lookup, self@.needed, self@.undefined),
    {
        self.walk(lookup).result
    }
}


/// One more root covers a symbol where the roots before it do, or where the
/// library found under it provides the symbol.
proof fn lemma_covered_by_next_root<L: LibraryLookup>(
    lookup: &L,
    roots: Seq<Seq<char>>,
    upto: int,
    symbol: Seq<char>,
)
    requires
        0 <= upto < roots.len(),
    ensures
        covered_by_roots(lookup, roots, upto + 1, symbol) <==> covered_by_roots(
            lookup,
            roots,
            upto,
            symbol,
        ) || offers(lookup, roots[upto], symbol),
{
    if covered_by_roots(lookup, roots, upto + 1, symbol) {
        let j = choose|j: int| 0 <= j < upto + 1 && #[trigger] offers(lookup, roots[j], symbol);
        if j < upto {
            assert(covered_by_roots(lookup, roots, upto, symbol));
        }
    }
    if covered_by_roots(lookup, roots, upto, symbol) {
        let j = choose|j: int| 0 <= j < upto && #[trigger] offers(lookup, roots[j], symbol);
        assert(0 <= j < upto + 1 && offers(lookup, roots[j], symbol));
    }
}

/// A sequence filtered by a predicate that holds of everything is unchanged.
proof fn lemma_filter_all<A>(s: Seq<A>)
    ensures
        s.filter(|a: A| true) == s,
    decreases s.len(),
{
    reveal(Seq::filter);
    if s.len() > 0 {
        lemma_filter_all(s.drop_last());
        assert(s.drop_last().push(s.last()) =~= s);
    }
}

/// The verdict on a binary that needs and requires the given names, against a
/// lookup.
pub open spec fn verdict_of<L: LibraryLookup>(
    lookup: &L,
    name: Seq<char>,
    needed: Seq<Seq<char>>,
    undefined: Seq<Seq<char>>,
) -> BinVerdict {
    BinVerdict {
        name,
        missing_lib: missing_libraries(lookup, needed),
        undefined_sym: unresolved_symbols(lookup, needed, undefined),
    }
}

/// A binary whose every needed library is found, and whose every required
/// symbol is supplied by a library reached from the needed ones, is good, with
/// nothing missing and nothing unresolved.
pub proof fn lemma_resolvable_binary_is_good<L: LibraryLookup>(
    lookup: &L,
    name: Seq<char>,
    needed: Seq<Seq<char>>,
    undefined: Seq<Seq<char>>,
)
    requires
        forall|i: int| 0 <= i < needed.len() ==> lookup.lookup(#[trigger] needed[i]) is Some,
        forall|i: int| 0 <= i < undefined.len() ==> supplied(lookup, needed, #[trigger] undefined[i]),
    ensures
        verdict_of(lookup, name, needed, undefined).good(),
        verdict_of(lookup, name, needed, undefined).missing_lib == Seq::<Seq<char>>::empty(),
        verdict_of(lookup, name, needed, undefined).undefined_sym == Seq::<Seq<char>>::empty(),
{
    lemma_filter_none(needed, |name: Seq<char>| lookup.lookup(name) is None);
    lemma_filter_none(undefined, |symbol: Seq<char>| !supplied(lookup, needed, symbol));
}

/// A needed library that the lookup does not find is reported missing, and
/// the verdict is not good.
pub proof fn lemma_unfound_library_is_missing<L: LibraryLookup>(
    lookup: &L,
    name: Seq<char>,
    needed: Seq<Seq<char>>,
    undefined: Seq<Seq<char>>,
    at: int,
)
    requires
        0 <= at < needed.len(),
        lookup.lookup(needed[at]) is None,
    ensures
        verdict_of(lookup, name, needed, undefined).missing_lib.contains(needed[at]),
        !verdict_of(lookup, name, needed, undefined).good(),
{
    let unfound = |name: Seq<char>| lookup.lookup(name) is None;
    needed.lemma_filter_contains(unfound, at);
}

/// A required symbol that no library reached from the needed ones supplies
/// stays unresolved, and the verdict is not good.
pub proof fn lemma_unsupplied_symbol_is_unresolved<L: LibraryLookup>(
    lookup: &L,
    name: Seq<char>,
    needed: Seq<Seq<char>>,
    undefined: Seq<Seq<char>>,
    at: int,
)
    requires
        0 <= at < undefined.len(),
        !supplied(lookup, needed, undefined[at]),
    ensures
        verdict_of(lookup, name, needed, undefined).undefined_sym.contains(undefined[at]),
        !verdict_of(lookup, name, needed, undefined).good(),
{
    let unsupplied = |symbol: Seq<char>| !supplied(lookup, needed, symbol);
    undefined.lemma_filter_contains(unsupplied, at);
}

/// A symbol that a needed library provides is supplied; so is one provided by
/// a library that a library reached needs, how far down the chain of
/// dependencies it may be, and whether or not the chain runs in a circle.
pub proof fn lemma_dependency_supplies<L: LibraryLookup>(
    lookup: &L,
    needed: Seq<Seq<char>>,
    name: Seq<char>,
    at: int,
    symbol: Seq<char>,
)
    requires
        reaches(lookup, needed, name),
        0 <= at < dependencies(lookup, name).len(),
        offers(lookup, dependencies(lookup, name)[at], symbol),
    ensures
        supplied(lookup, needed, symbol),
{
    lemma_dependency_is_reached(lookup, needed, name, at);
}

} // verus!
