//! A Texas Hold'em engine: cards, a seedable deck, hand evaluation and the
//! No-Limit betting state machine with side pots.

pub mod cards;
pub mod rng;
pub mod deck;
pub mod hand;
pub mod game;
pub mod showdown;
pub mod betting;
pub mod laws;
pub mod equity;
pub mod progress;
pub mod table;
pub mod controls;
pub mod labels;
pub mod dealing;
