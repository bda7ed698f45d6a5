//! The preconstructed decks of the Beta edition.

use vstd::prelude::*;

verus! {

/// One of the four Beta preconstructed decks.
#[derive(Debug, Clone, Copy, PartialEq, Eq, Structural)]
pub enum PreconDeck {
    BetaFire,
    BetaAir,
    BetaEarth,
    BetaWater,
}

/// The name of a preconstructed deck shown to players.
pub open spec fn precon_name(p: PreconDeck) -> Seq<char> {
    match p {
        PreconDeck::BetaFire => "Beta - Fire"@,
        PreconDeck::BetaAir => "Beta - Air"@,
        PreconDeck::BetaEarth => "Beta - Earth"@,
        PreconDeck::BetaWater => "Beta - Water"@,
    }
}

impl PreconDeck {
    /// The name of this deck shown to players.
    pub fn name(&self) -> (r: &'static str)
        ensures
            r@ == precon_name(*self),
    {
        match self {
            PreconDeck::BetaFire => "Beta - Fire",
            PreconDeck::BetaAir => "Beta - Air",
            PreconDeck::BetaEarth => "Beta - Earth",
            PreconDeck::BetaWater => "Beta - Water",
        }
    }
}

} // verus!
