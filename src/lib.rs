//! A Texas Hold'em round engine: cards and decks, a seven-card hand
//! evaluator with an exact equity count, the betting-round state machine with
//! side pots, and the per-hand phase machine that drives them.

pub mod card;
pub mod deck;
pub mod betting_round;
pub mod hand;
pub mod evaluator;
pub mod game;
pub mod player;
pub mod protocol;
