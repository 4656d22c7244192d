//! Turn-based engine of a four-seat wagering word game.
//!
//! A session deals private hands and a shared river from a shuffled deck,
//! runs two betting phases, scores the words the players lay down and pays
//! the pot. Every transition is a function from the session and a command to
//! the next session and the effects the host has to carry out.

pub mod constants;
pub mod contract;
pub mod game_state;
pub mod query;
pub mod utils;

pub mod rounds;
pub mod settlement;
pub mod table;
pub mod turns;
pub mod wagers;
pub mod words;

pub mod limits;

pub mod funds;
pub mod laws;
pub mod runs;
pub mod wellformed;
