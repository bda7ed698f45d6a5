//! The data exchanged between the game server and its clients.

pub mod message;
