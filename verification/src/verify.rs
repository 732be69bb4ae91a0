//! Verdicts on whether binaries, components and packages will link.

use vstd::prelude::*;
use crate::lookup::LibraryLookup;

pub mod bin;
pub mod ipk;

verus! {

/// Something that can be verified against a source of libraries, with a verdict
/// of type `R`.
pub trait Verify<R> {
    /// Verifies against the libraries that the lookup finds.
    fn verify<L: LibraryLookup>(&self, lookup: &L) -> R;
}

/// A verdict that is either good or not.
pub trait VerifyResult {
    /// Whether the verdict is good.
    spec fn good(&self) -> bool;

    /// Whether the verdict is good.
    fn is_good(&self) -> (good: bool)
        ensures
            good == self.good(),
    ;
}

} // verus!
