//! What an executable asks of the loader: where to search, which libraries to
//! load, and which symbols to bind.

use vstd::prelude::*;
use crate::text::texts_of;

verus! {

/// The record of one parsed executable.
#[derive(Debug)]
pub struct BinaryInfo {
    /// The executable's file name.
    pub name: String,
    /// The directories of its own search path; an entry may hold `$ORIGIN`.
    pub rpath: Vec<String>,
    /// The libraries it needs, in the order of the dynamic table.
    pub needed: Vec<String>,
    /// The symbols it requires, bare or as `name@version`.
    pub undefined: Vec<String>,
}

/// The mathematical content of a [`BinaryInfo`].
pub struct BinaryModel {
    pub name: Seq<char>,
    pub rpath: Seq<Seq<char>>,
    pub needed: Seq<Seq<char>>,
    pub undefined: Seq<Seq<char>>,
}

impl View for BinaryInfo {
    type V = BinaryModel;

    open spec fn view(&self) -> BinaryModel {
        BinaryModel {
            name: self.name@,
            rpath: texts_of(self.rpath@),
            needed: texts_of(self.needed@),
            undefined: texts_of(self.undefined@),
        }
    }
}

} // verus!
