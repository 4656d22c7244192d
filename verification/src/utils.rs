//! Cards, the dictionary and small helpers over the player list.

pub mod cards;
pub mod general;
