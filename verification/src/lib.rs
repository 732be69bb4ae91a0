//! Static prediction of whether a native application package will dynamic-link
//! on a given firmware image.
//!
//! Nothing is run. The metadata that a dynamic loader goes by is extracted
//! from the ELF images ([`extract`]): the libraries an image needs, the
//! directories it would have searched, and the symbols it requires or
//! defines, with their versions. The loader's decisions are then replayed
//! ([`verify`]): the closure of the needed libraries is walked, cycles
//! included, and each required symbol is looked for among the symbols that the
//! libraries on the way define ([`symbol`]). Where the libraries come from is
//! for a lookup to say ([`lookup`]): the catalog of a firmware release
//! ([`firmware`]), the files along a binary's own search path, or, for a
//! packaged component ([`package`], [`bundle`]), the bundled libraries and the
//! firmware's in the loader's order of precedence.
//!
//! Everything but the reading of the ELF tables themselves ([`image`]) is
//! verified against the contracts it states.

pub mod binary;
pub mod bundle;
pub mod extract;
pub mod firmware;
pub mod image;
pub mod library;
pub mod links;
pub mod lookup;
pub mod names;
pub mod order;
pub mod package;
pub mod report;
pub mod sequences;
pub mod symbol;
pub mod text;
pub mod verify;
