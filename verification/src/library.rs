//! What a shared library offers: its identity, its aliases, the libraries it
//! needs, and the symbols it defines.

use vstd::prelude::*;
use crate::symbol::{
    lemma_listed_symbol_is_provided, lemma_provided_symbol_is_satisfied, provides, satisfies,
    search_symbols, sorted,
};
use crate::text::{bytes_of, contains_text, copy_texts, text_equal, texts_of};

verus! {

/// Where a library was found, which decides its precedence during lookup.
#[derive(Debug, Clone, Copy, PartialEq, Eq, Structural)]
pub enum LibraryPriority {
    /// Found in a directory that the executable names in its own search path.
    Rpath,
    /// Supplied by the firmware.
    System,
    /// Bundled in the package's `lib` directory.
    Package,
}

impl Default for LibraryPriority {
    fn default() -> (priority: Self)
        ensures
            priority == LibraryPriority::System,
    {
        LibraryPriority::System
    }
}

/// The record of one parsed shared object.
#[derive(Debug)]
pub struct LibraryInfo {
    /// The library's identity: its SONAME, or its file name where it has none.
    pub name: String,
    /// The libraries it needs, as the dynamic table names them.
    pub needed: Vec<String>,
    /// The symbols it defines, version-qualified where applicable, sorted
    /// ascending.
    pub symbols: Vec<String>,
    /// The file names under which it can be found.
    pub names: Vec<String>,
    /// The symbols it requires from others; filled only on request.
    pub undefined: Vec<String>,
    /// Where it was found.
    pub priority: LibraryPriority,
}

/// The mathematical content of a [`LibraryInfo`].
pub struct LibraryModel {
    pub name: Seq<char>,
    pub needed: Seq<Seq<char>>,
    pub symbols: Seq<Seq<char>>,
    pub names: Seq<Seq<char>>,
    pub undefined: Seq<Seq<char>>,
    pub priority: LibraryPriority,
}

impl LibraryModel {
    /// Whether the library answers to a name: it is its identity or one of its
    /// aliases.
    pub open spec fn has_name(self, name: Seq<char>) -> bool {
        self.name == name || self.names.contains(name)
    }

    /// Whether the library's symbols provide a request.
    pub open spec fn has_symbol(self, request: Seq<char>) -> bool {
        provides(self.symbols, request)
    }

    /// Whether the symbol list is sorted, as every parsed library's is.
    pub open spec fn well_formed(self) -> bool {
        sorted(self.symbols)
    }
}

impl View for LibraryInfo {
    type V = LibraryModel;

    open spec fn view(&self) -> LibraryModel {
        LibraryModel {
            name: self.name@,
            needed: texts_of(self.needed@),
            symbols: texts_of(self.symbols@),
            names: texts_of(self.names@),
            undefined: texts_of(self.undefined@),
            priority: self.priority,
        }
    }
}

impl Clone for LibraryInfo {
    fn clone(&self) -> (copy: Self)
        ensures
            copy@ == self@,
    {
        LibraryInfo {
            name: self.name.clone(),
            needed: copy_texts(&self.needed),
            symbols: copy_texts(&self.symbols),
            names: copy_texts(&self.names),
            undefined: copy_texts(&self.undefined),
            priority: self.priority,
        }
    }
}

impl LibraryInfo {
    /// Whether the library answers to `name`: it is its identity or one of its
    /// aliases.
    pub fn has_name(&self, name: &str) -> (answers: bool)
        ensures
            answers == self@.has_name(name@),
    {
        text_equal(self.name.as_str(), name) || contains_text(&self.names, name)
    }

    /// Whether the library's symbols provide `symbol`, by binary search over the
    /// sorted symbol list.
    ///
    /// A request without a version is satisfied by any versioned definition that
    /// begins with it. Whatever is found satisfies the request, and in a sorted
    /// list a request that is itself listed is always found.
    pub fn has_symbol(&self, symbol: &str) -> (found: bool)
        ensures
            found == self@.has_symbol(symbol@),
            found ==> exists|i: int|
                0 <= i < self@.symbols.len() && satisfies(
                    bytes_of(#[trigger] self@.symbols[i]),
                    bytes_of(symbol@),
                ),
            self@.well_formed() && self@.symbols.contains(symbol@) ==> found,
    {
        let found = search_symbols(&self.symbols, symbol);
        proof {
            if found {
                lemma_provided_symbol_is_satisfied(self@.symbols, symbol@);
            }
            if self@.well_formed() && self@.symbols.contains(symbol@) {
                lemma_listed_symbol_is_provided(self@.symbols, symbol@);
            }
        }
        found
    }
}

} // verus!
