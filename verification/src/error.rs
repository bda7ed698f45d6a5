//! The errors of a running game.

use crate::ids::{uuid_debug_string, uuid_debug_text, PlayerId};
use vstd::prelude::*;

verus! {

/// Why a game could not go on.
#[derive(Debug, Clone, Copy)]
pub enum GameError {
    PlayerDisconnected(PlayerId),
}

impl GameError {
    /// The message shown for this error.
    pub fn message(&self) -> (r: String)
        ensures
            r@ == (match *self {
                GameError::PlayerDisconnected(id) => "Player "@ + uuid_debug_text(id)
                    + " disconnected"@,
            }),
    {
        match self {
            GameError::PlayerDisconnected(player_id) => {
                let mut msg = String::from_str("Player ");
                let id = uuid_debug_string(player_id);
                msg.append(id.as_str());
                msg.append(" disconnected");
                msg
            },
        }
    }
}

} // verus!
