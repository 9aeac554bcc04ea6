//! Poker equity calculator: computes win/tie/hand-category frequencies for a
//! set of players given partial or full community cards, for standard hold'em,
//! short-deck hold'em and Omaha.

use vstd::prelude::*;

mod card;
mod clock;
mod game;
mod player;
mod rng;
mod strength;
mod table;

pub use card::distinct_cards;
pub use card::lemma_cards_round_trip;
pub use card::format_cards_spec;
pub use card::parse_cards_spec;
pub use card::Card;
pub use card::Rank;
pub use card::Suit;
pub use game::calc_points;
pub use game::classify;
pub use game::get_hand_strength;
pub use game::get_results;
pub use game::group_by_rank;
pub use game::group_by_suit;
pub use game::lemma_exactly_one_best_category;
pub use game::lemma_score_monotonic;
pub use game::sort_by_rank_desc;
pub use game::strength_wf;
pub use game::HandCombination;
pub use game::HandStrength;
pub use game::RankGroups;
pub use game::SuitGroups;
pub use player::Player;
pub use rng::rng_from_entropy;
pub use rng::rng_from_seed;
pub use strength::flush::get_flush;
pub use strength::full_house::get_full_house;
pub use strength::high_cards::get_high_cards;
pub use strength::one_pair::get_one_pair;
pub use strength::quads::get_quads;
pub use strength::straight::get_straight;
pub use strength::straight_flush::get_straight_flush;
pub use strength::three_of_a_kind::get_three_of_a_kind;
pub use strength::two_pairs::get_two_pairs;
pub use table::lemma_merge_associative;
pub use table::lemma_merge_commutative;
pub use table::merge_player_results;
pub use table::PlayerResult;
pub use table::SimulationResult;
pub use table::Table;

verus! {

/// The game variant. It selects the deck composition, the category precedence
/// table and the hand-composition constraints, and is fixed for a whole run.
#[derive(Debug, PartialEq, Eq, Clone, Copy, Structural)]
pub enum GameType {
    TexasHoldem,
    ShortdeckHoldem,
    Omaha,
}

/// True when the two strings hold the same characters.
fn str_eq(a: &str, b: &str) -> (r: bool)
    ensures
        r == (a@ == b@),
{
    let la = a.unicode_len();
    let lb = b.unicode_len();
    if la != lb {
        return false;
    }
    let mut i: usize = 0;
    while i < la
        invariant
            i <= la,
            la == a@.len() && la == b@.len(),
            forall|j: int| 0 <= j < i ==> a@[j] == b@[j],
        decreases la - i,
    {
        if a.get_char(i) != b.get_char(i) {
            return false;
        }
        i += 1;
    }
    proof {
        assert(a@ =~= b@);
    }
    true
}

impl GameType {
    /// Parses one of the literal variant tokens `texas_holdem`,
    /// `shortdeck_holdem` and `omaha`; anything else is rejected.
    pub fn from_str(s: &str) -> (r: Result<GameType, &'static str>)
        ensures
            r == Result::<GameType, &'static str>::Ok(GameType::ShortdeckHoldem) <==> s@
                == "shortdeck_holdem"@,
            r == Result::<GameType, &'static str>::Ok(GameType::TexasHoldem) <==> s@
                == "texas_holdem"@,
            r == Result::<GameType, &'static str>::Ok(GameType::Omaha) <==> s@ == "omaha"@,
            r is Err <==> s@ != "shortdeck_holdem"@ && s@ != "texas_holdem"@ && s@ != "omaha"@,
    {
        proof {
            reveal_strlit("shortdeck_holdem");
            reveal_strlit("texas_holdem");
            reveal_strlit("omaha");
            assert("shortdeck_holdem"@.len() == 16);
            assert("texas_holdem"@.len() == 12);
            assert("omaha"@.len() == 5);
            assert("shortdeck_holdem"@ != "texas_holdem"@);
            assert("shortdeck_holdem"@ != "omaha"@);
            assert("texas_holdem"@ != "omaha"@);
        }
        if str_eq(s, "shortdeck_holdem") {
            Ok(GameType::ShortdeckHoldem)
        } else if str_eq(s, "texas_holdem") {
            Ok(GameType::TexasHoldem)
        } else if str_eq(s, "omaha") {
            Ok(GameType::Omaha)
        } else {
            Err("no match")
        }
    }
}

/// A parsed multi-card string.
#[derive(Debug, PartialEq)]
pub struct Cards {
    pub cards: Vec<Card>,
}

impl Cards {
    /// Parses a concatenation of two-character card tokens, as
    /// `Card::from_cards_str` does.
    pub fn from_str(s: &str) -> (r: Result<Cards, &'static str>)
        ensures
            r is Ok <==> parse_cards_spec(s@) is Some,
            r is Ok ==> Some(r->Ok_0.cards@) == parse_cards_spec(s@),
    {
        match Card::from_cards_str(s) {
            Ok(cards) => Ok(Cards { cards }),
            Err(e) => Err(e),
        }
    }
}

} // verus!
