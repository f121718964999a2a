//! Poker hand ranking: classifies a 5-card hand into the standard hand
//! categories and finds the best-ranked 5-card hand inside a larger pool,
//! as community-card poker variants need.
//!
//! `cards` defines the card values, `hand_evaluator` the classifier and the
//! hand-rank order, and `best_hand` the exhaustive search over 5-card
//! combinations.

pub mod best_hand;
pub mod cards;
pub mod hand_evaluator;
