//! A sandbox for trying out the game outside a match.

use vstd::prelude::*;

verus! {

/// A sandbox for trying out the game outside a match.
pub struct Playground {}

impl Playground {
    /// An empty sandbox.
    pub fn new() -> (r: Self)
        ensures
            r == (Playground {}),
    {
        Playground {}
    }
}

} // verus!
