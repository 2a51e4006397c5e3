//! Generators: first they generate, then they print what they generated.

use vstd::prelude::*;

verus! {

/// Something that generates code and prints it.
pub trait Generator: Sized {
    /// What can go wrong.
    type Error;

    /// The generator can generate.
    spec fn ready(&self) -> bool;

    /// Generating turns `self` into `after` and answers `r`.
    spec fn generates(&self, after: &Self, r: Result<(), Self::Error>) -> bool;

    /// What was generated can be printed.
    spec fn printable(&self) -> bool;

    /// What is printed, and whether printing succeeds.
    spec fn printed(&self) -> (Seq<char>, bool);

    /// Generates.
    fn generate(&mut self) -> (r: Result<(), Self::Error>)
        requires
            old(self).ready(),
        ensures
            old(self).generates(final(self), r),
    ;

    /// Prints what was generated behind what `out` holds.
    fn output(&self, out: &mut String) -> (r: Result<(), Self::Error>)
        requires
            self.printable(),
        ensures
            final(out)@ == old(out)@ + self.printed().0,
            r is Ok == self.printed().1,
    ;
}

} // verus!
