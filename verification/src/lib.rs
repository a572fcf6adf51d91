//! The rules of a patience game in which low cards are spent to defeat
//! face cards ("monsters"), kept apart from any user interface.

pub mod card;
pub mod board;
pub mod utils;
pub mod skin;
pub mod game;
pub mod laws;
pub mod rules;
