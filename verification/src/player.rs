//! A player, identified by their private hole cards.

use crate::card::Card;
use vstd::prelude::*;

verus! {

/// One player at the table, holding their hole cards.
#[derive(Debug, Clone)]
pub struct Player {
    pub hand: Vec<Card>,
}

impl Player {
    /// Wraps the given hole cards into a player.
    pub fn new(hand: Vec<Card>) -> (p: Player)
        ensures
            p.hand@ == hand@,
    {
        Player { hand }
    }
}

} // verus!
