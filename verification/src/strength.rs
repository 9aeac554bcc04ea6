//! The hand-category detectors. Each inspects a pooled set of cards (board
//! plus one player's hole cards) and returns the best qualifying five-card
//! subset for its category, or nothing when the category is absent.

pub mod flush;
pub mod full_house;
pub mod one_pair;
pub mod quads;
pub mod straight;
pub mod straight_flush;
pub mod three_of_a_kind;
pub mod two_pairs;
pub mod high_cards;
