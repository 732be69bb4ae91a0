//! Where libraries are looked up: the interface that the resolution engine
//! depends on, and ways to compose lookups by ordered fallback.

use vstd::prelude::*;
use vstd::seq_lib::seq_to_set_is_finite;
use crate::library::{LibraryInfo, LibraryModel};
use crate::text::text_equal;

verus! {

/// The content of a library that may be missing.
pub open spec fn library_view(library: Option<LibraryInfo>) -> Option<LibraryModel> {
    match library {
        Some(info) => Some(info@),
        None => None,
    }
}

/// The names that a library needs; none where there is no library.
pub open spec fn needs(library: Option<LibraryModel>) -> Seq<Seq<char>> {
    match library {
        Some(found) => found.needed,
        None => Seq::empty(),
    }
}

/// A source of libraries by name.
///
/// A lookup answers the same name with the same library, and the libraries it
/// can return need, between them, only finitely many names: this is what bounds
/// the walk through a dependency graph, cycles included.
pub trait LibraryLookup {
    /// The library that a name resolves to, if any.
    spec fn lookup(&self, name: Seq<char>) -> Option<LibraryModel>;

    /// A set of names that holds every name needed by a library that the lookup
    /// can return.
    spec fn horizon(&self) -> Set<Seq<char>>;

    /// The horizon is finite, and holds what every library found needs.
    proof fn horizon_bounds(&self)
        ensures
            self.horizon().finite(),
            forall|name: Seq<char>, i: int|
                0 <= i < needs(self.lookup(name)).len() ==> self.horizon().contains(
                    #[trigger] needs(self.lookup(name))[i],
                ),
    ;

    /// Looks a library up by name.
    fn find_library(&self, name: &str) -> (found: Option<LibraryInfo>)
        ensures
            library_view(found) == self.lookup(name@),
    ;
}

/// The names that the library found under a name needs; none where no library
/// is found.
pub open spec fn dependencies<L: LibraryLookup + ?Sized>(lookup: &L, name: Seq<char>) -> Seq<
    Seq<char>,
> {
    needs(lookup.lookup(name))
}

/// Whether the library found under a name provides a symbol.
pub open spec fn offers<L: LibraryLookup + ?Sized>(
    lookup: &L,
    name: Seq<char>,
    symbol: Seq<char>,
) -> bool {
    match lookup.lookup(name) {
        Some(library) => library.has_symbol(symbol),
        None => false,
    }
}

/// Whether a symbol is provided by a library found under one of the names.
pub open spec fn covered<L: LibraryLookup + ?Sized>(
    lookup: &L,
    names: Set<Seq<char>>,
    symbol: Seq<char>,
) -> bool {
    exists|name: Seq<char>| names.contains(name) && #[trigger] offers(lookup, name, symbol)
}

/// Whether a list of names is a chain of dependencies from one of the roots:
/// it starts at a root, and the library found under each name needs the next.
pub open spec fn is_chain<L: LibraryLookup + ?Sized>(
    lookup: &L,
    roots: Seq<Seq<char>>,
    chain: Seq<Seq<char>>,
) -> bool {
    &&& chain.len() > 0
    &&& roots.contains(chain[0])
    &&& forall|i: int|
        0 <= i < chain.len() - 1 ==> dependencies(lookup, #[trigger] chain[i]).contains(
            chain[i + 1],
        )
}

/// Whether a name is reached from the roots: it is a root, or a library found
/// under a reached name needs it.
pub open spec fn reaches<L: LibraryLookup + ?Sized>(
    lookup: &L,
    roots: Seq<Seq<char>>,
    name: Seq<char>,
) -> bool {
    exists|chain: Seq<Seq<char>>| #[trigger] is_chain(lookup, roots, chain) && chain.last() == name
}

/// Whether a name is depended on: a library found under a name reached from
/// the roots needs it. A root is depended on only where such a library needs
/// it too.
pub open spec fn depended_on<L: LibraryLookup + ?Sized>(
    lookup: &L,
    roots: Seq<Seq<char>>,
    name: Seq<char>,
) -> bool {
    exists|chain: Seq<Seq<char>>|
        #[trigger] is_chain(lookup, roots, chain) && chain.len() >= 2 && chain.last() == name
}

/// Whether a symbol is supplied to a binary that needs the roots: a library
/// found under a name reached from the roots provides it.
pub open spec fn supplied<L: LibraryLookup + ?Sized>(
    lookup: &L,
    roots: Seq<Seq<char>>,
    symbol: Seq<char>,
) -> bool {
    exists|name: Seq<char>| reaches(lookup, roots, name) && #[trigger] offers(lookup, name, symbol)
}

/// Every root is reached.
pub proof fn lemma_root_is_reached<L: LibraryLookup + ?Sized>(
    lookup: &L,
    roots: Seq<Seq<char>>,
    at: int,
)
    requires
        0 <= at < roots.len(),
    ensures
        reaches(lookup, roots, roots[at]),
{
    let chain = seq![roots[at]];
    assert(is_chain(lookup, roots, chain));
    assert(chain.last() == roots[at]);
}

/// What the library found under a reached name needs is reached, and depended
/// on.
pub proof fn lemma_dependency_is_reached<L: LibraryLookup + ?Sized>(
    lookup: &L,
    roots: Seq<Seq<char>>,
    name: Seq<char>,
    at: int,
)
    requires
        reaches(lookup, roots, name),
        0 <= at < dependencies(lookup, name).len(),
    ensures
        reaches(lookup, roots, dependencies(lookup, name)[at]),
        depended_on(lookup, roots, dependencies(lookup, name)[at]),
{
    let chain = choose|chain: Seq<Seq<char>>|
        #[trigger] is_chain(lookup, roots, chain) && chain.last() == name;
    let next = dependencies(lookup, name)[at];
    let longer = chain.push(next);
    assert forall|i: int| 0 <= i < longer.len() - 1 implies dependencies(
        lookup,
        #[trigger] longer[i],
    ).contains(longer[i + 1]) by {
        if i < chain.len() - 1 {
            assert(longer[i] == chain[i]);
            assert(longer[i + 1] == chain[i + 1]);
        } else {
            assert(longer[i] == name);
        }
    }
    assert(longer[0] == chain[0]);
    assert(is_chain(lookup, roots, longer));
    assert(longer.last() == next);
}

/// The names that the libraries need, taken together.
pub open spec fn needed_by_all(libs: Seq<LibraryModel>) -> Set<Seq<char>>
    decreases libs.len(),
{
    if libs.len() == 0 {
        Set::empty()
    } else {
        needed_by_all(libs.drop_last()).union(libs.last().needed.to_set())
    }
}

/// The names that the libraries need are finitely many, and hold what each of
/// them needs.
pub proof fn lemma_needed_by_all(libs: Seq<LibraryModel>)
    ensures
        needed_by_all(libs).finite(),
        forall|at: int, i: int|
            0 <= at < libs.len() && 0 <= i < libs[at].needed.len() ==> needed_by_all(
                libs,
            ).contains(#[trigger] libs[at].needed[i]),
    decreases libs.len(),
{
    if libs.len() > 0 {
        lemma_needed_by_all(libs.drop_last());
        seq_to_set_is_finite(libs.last().needed);
        assert forall|at: int, i: int|
            0 <= at < libs.len() && 0 <= i < libs[at].needed.len() implies needed_by_all(
            libs,
        ).contains(#[trigger] libs[at].needed[i]) by {
            if at < libs.len() - 1 {
                assert(libs.drop_last()[at] == libs[at]);
            } else {
                assert(libs.last().needed.to_set().contains(libs[at].needed[i]));
            }
        }
    }
}

/// Two lookups in order: a name resolves in the first, or else in the second.
pub struct Fallback<'a, A: LibraryLookup, B: LibraryLookup> {
    pub first: &'a A,
    pub second: &'a B,
}

impl<'a, A: LibraryLookup, B: LibraryLookup> LibraryLookup for Fallback<'a, A, B> {
    open spec fn lookup(&self, name: Seq<char>) -> Option<LibraryModel> {
        match self.first.lookup(name) {
            Some(library) => Some(library),
            None => self.second.lookup(name),
        }
    }

    open spec fn horizon(&self) -> Set<Seq<char>> {
        self.first.horizon().union(self.second.horizon())
    }

    proof fn horizon_bounds(&self) {
        self.first.horizon_bounds();
        self.second.horizon_bounds();
        assert forall|name: Seq<char>, i: int|
            0 <= i < needs(self.lookup(name)).len() implies self.horizon().contains(
            #[trigger] needs(self.lookup(name))[i],
        ) by {
            assert(0 <= i < needs(self.first.lookup(name)).len() ==> self.first.horizon().contains(
                needs(self.first.lookup(name))[i],
            ));
            assert(0 <= i < needs(self.second.lookup(name)).len()
                ==> self.second.horizon().contains(needs(self.second.lookup(name))[i]));
        }
    }

    fn find_library(&self, name: &str) -> (found: Option<LibraryInfo>) {
        match self.first.find_library(name) {
            Some(library) => Some(library),
            None => self.second.find_library(name),
        }
    }
}

/// A file found in a directory of a search path: its name, and the record
/// parsed from it, if it could be parsed.
#[derive(Debug)]
pub struct ShelfFile {
    pub name: String,
    pub library: Option<LibraryInfo>,
}

/// The files found along a binary's own search path, in the order of the
/// search. A name resolves to the first file of that name; where that file
/// could not be parsed the name does not resolve, whatever follows.
#[derive(Debug)]
pub struct Shelf {
    pub files: Vec<ShelfFile>,
}

/// The record of the first of the files that has a name.
pub open spec fn first_file(files: Seq<ShelfFile>, name: Seq<char>) -> Option<LibraryModel>
    decreases files.len(),
{
    if files.len() == 0 {
        None
    } else if files.first().name@ == name {
        library_view(files.first().library)
    } else {
        first_file(files.drop_first(), name)
    }
}

/// The names that the records of the files need, taken together.
pub open spec fn needed_by_files(files: Seq<ShelfFile>) -> Set<Seq<char>>
    decreases files.len(),
{
    if files.len() == 0 {
        Set::empty()
    } else {
        needed_by_files(files.drop_first()).union(needs(library_view(files.first().library)).to_set())
    }
}

/// The names that the files' records need are finitely many, and hold what the
/// record found under any name needs.
proof fn lemma_needed_by_files(files: Seq<ShelfFile>, name: Seq<char>)
    ensures
        needed_by_files(files).finite(),
        forall|i: int|
            0 <= i < needs(first_file(files, name)).len() ==> needed_by_files(files).contains(
                #[trigger] needs(first_file(files, name))[i],
            ),
    decreases files.len(),
{
    if files.len() > 0 {
        lemma_needed_by_files(files.drop_first(), name);
        let own = needs(library_view(files.first().library));
        seq_to_set_is_finite(own);
        assert forall|i: int| 0 <= i < needs(first_file(files, name)).len() implies needed_by_files(
            files,
        ).contains(#[trigger] needs(first_file(files, name))[i]) by {
            if files.first().name@ == name {
                assert(own.to_set().contains(own[i]));
            }
        }
    }
}

impl LibraryLookup for Shelf {
    open spec fn lookup(&self, name: Seq<char>) -> Option<LibraryModel> {
        first_file(self.files@, name)
    }

    open spec fn horizon(&self) -> Set<Seq<char>> {
        needed_by_files(self.files@)
    }

    proof fn horizon_bounds(&self) {
        lemma_needed_by_files(self.files@, Seq::empty());
        assert forall|name: Seq<char>, i: int|
            0 <= i < needs(self.lookup(name)).len() implies self.horizon().contains(
            #[trigger] needs(self.lookup(name))[i],
        ) by {
            lemma_needed_by_files(self.files@, name);
        }
    }

    fn find_library(&self, name: &str) -> (found: Option<LibraryInfo>) {
        let mut at: usize = 0;
        assert(self.files@.subrange(0, self.files@.len() as int) =~= self.files@);
        while at < self.files.len()
            invariant
                at <= self.files.len(),
                first_file(self.files@, name@) == first_file(
                    self.files@.subrange(at as int, self.files@.len() as int),
                    name@,
                ),
            decreases self.files.len() - at,
        {
            let ghost rest = self.files@.subrange(at as int, self.files@.len() as int);
            assert(rest.first() == self.files@[at as int]);
            assert(rest.drop_first() =~= self.files@.subrange(at + 1, self.files@.len() as int));
            if text_equal(self.files[at].name.as_str(), name) {
                return match &self.files[at].library {
                    Some(library) => Some(library.clone()),
                    None => None,
                };
            }
            at += 1;
        }
        None
    }
}

} // verus!
