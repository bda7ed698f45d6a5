//! The kinds of things that effects create, draw and fight over, and the
//! engine that runs effects.

use crate::ids::{same_id, PlayerId};
use crate::state::Player;
use crate::text::{trim, trimmed};
use vstd::prelude::*;

verus! {

/// A token card that effects can create.
#[derive(Debug, Clone, Copy, PartialEq, Eq, Structural)]
pub enum TokenType {
    Rubble,
    FootSoldier,
    Frog,
}

/// Which pile a draw takes from: the atlas, the spellbook, or the player's
/// choice.
#[derive(Debug, Clone, Copy, PartialEq, Eq, Structural)]
pub enum DrawKind {
    Site,
    Spell,
    Choice,
}

/// Why two units fight: an attack, or a fight without an attack.
#[derive(Debug, Clone, Copy, PartialEq, Eq, Structural)]
pub enum FightContext {
    Attack,
    FightOnly,
}


/// The position of the first player of `players` with identifier `id`.
pub open spec fn first_player_with(players: Seq<Player>, id: PlayerId, from: int) -> Option<int>
    decreases players.len() - from,
{
    if from < 0 || from >= players.len() {
        None
    } else if players[from].id == id {
        Some(from)
    } else {
        first_player_with(players, id, from + 1)
    }
}

/// The name by which effect descriptions call the player `id`: the
/// player's name, or "Player 1" or "Player 2" for the first or a later
/// player whose name is blank, or "Unknown Player" for one not in the game.
pub open spec fn displayed_player_name(players: Seq<Player>, id: PlayerId) -> Seq<char> {
    match first_player_with(players, id, 0) {
        Some(i) => if trimmed(players[i].name@).len() == 0 {
            if i == 0 {
                "Player 1"@
            } else {
                "Player 2"@
            }
        } else {
            players[i].name@
        },
        None => "Unknown Player"@,
    }
}

/// The name by which effect descriptions call the player `player_id`.
pub fn player_name<'a>(player_id: &PlayerId, players: &'a [Player]) -> (r: &'a str)
    ensures
        r@ == displayed_player_name(players@, *player_id),
{
    let mut i: usize = 0;
    while i < players.len()
        invariant
            i <= players.len(),
            first_player_with(players@, *player_id, 0) == first_player_with(
                players@,
                *player_id,
                i as int,
            ),
        decreases players.len() - i,
    {
        if same_id(&players[i].id, player_id) {
            let name = players[i].name.as_str();
            let t = trim(name);
            if t.unicode_len() == 0 {
                if i == 0 {
                    return "Player 1";
                } else {
                    return "Player 2";
                }
            }
            return name;
        }
        i += 1;
    }
    "Unknown Player"
}

} // verus!
