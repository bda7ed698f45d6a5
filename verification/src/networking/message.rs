//! Messages between the game server and its clients.

use crate::deck::precon::{precon_name, PreconDeck};
use crate::deck::DeckList;
use vstd::prelude::*;

verus! {

/// The deck a player chose: a preconstructed one or one they saved.
#[derive(Debug, Clone)]
pub enum DeckChoice {
    Precon(PreconDeck),
    Custom(DeckList),
}

/// The name of the chosen deck.
pub open spec fn deck_choice_name(d: DeckChoice) -> Seq<char> {
    match d {
        DeckChoice::Precon(p) => precon_name(p),
        DeckChoice::Custom(list) => list.name@,
    }
}

impl DeckChoice {
    /// The name of the chosen deck.
    pub fn name(&self) -> (r: String)
        ensures
            r@ == deck_choice_name(*self),
    {
        match self {
            DeckChoice::Precon(p) => String::from_str(p.name()),
            DeckChoice::Custom(d) => d.name.clone(),
        }
    }
}

/// The name and description of an effect in a debugging view of the effect
/// queue.
#[derive(Debug, Clone)]
pub struct EffectDebugData {
    pub name: String,
    pub description: String,
}

} // verus!
