//! Parts of the rules of a two-player online implementation of the Sorcery trading
//! card game: the board geometry of the realm, bodies of water and spans of
//! land, elemental thresholds, turn order and eliminated players, the
//! layering of continuous effects, ability removal, deck lists, card and
//! zone queries, the application of a set of game effects, the handling of
//! the players' messages, the effects of the units' actions, and fights.

pub mod actions;
pub mod board;
pub mod card;
pub mod card_query;
pub mod client;
pub mod combat;
pub mod deck;
pub mod effect;
pub mod error;
pub mod game;
pub mod ids;
pub mod layers;
pub mod networking;
pub mod playground;
pub mod query;
pub mod rules;
pub mod state;
pub mod terrain;
pub mod text;
pub mod thresholds;
pub mod zone;
pub mod zone_query;
