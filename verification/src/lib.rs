//! A simplified two-party blackjack round: a deck of cards is built,
//! shuffled, cut and dealt, and each participant's hand is scored with
//! the usual soft/hard ace rule.

pub mod cards;
pub mod deck;
pub mod hand;
pub mod round;
