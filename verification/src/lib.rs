use vstd::prelude::*;

pub mod card;
pub mod client;
pub mod deck;
pub mod game;
pub mod games;
pub mod hand;
pub mod message;
pub mod player;
pub mod protocol;
pub mod session;
pub mod table;
pub mod text;

verus! {
} // verus!
