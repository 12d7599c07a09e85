//! Names.

use vstd::prelude::*;

verus! {

/// A name: the symbol that the interner gave to its text.
#[derive(Debug, Clone, Copy, PartialEq, Eq, Structural, Hash)]
pub struct Ident(pub u32);

impl Ident {
    /// The symbol of this name.
    pub open spec fn symbol(&self) -> u32 {
        self.0
    }

    /// The symbol of this name.
    #[verifier::when_used_as_spec(symbol)]
    pub fn to_symbol(&self) -> (r: u32)
        ensures
            r == self.0,
    {
        self.0
    }
}

} // verus!
