//! Straight detection: five cards of consecutive rank values, with the wheel
//! (Ace played low above the deck's lowest rank) as a special case.

use crate::card::Card;
use crate::card::Rank;
use crate::game::find_card_of_rank;
use crate::game::hand_digits_ok;
use crate::game::has_rank;
use crate::game::lemma_rank_value_range;
use crate::game::lemma_top_rank_sat;
use crate::game::top_rank_sat;
use crate::GameType;
use vstd::prelude::*;

verus! {

broadcast use
    vstd::seq_lib::group_seq_properties,
;

/// The lowest rank value of the variant's deck: 6 in short-deck play, 2
/// otherwise.
pub open spec fn deck_low(game_type: GameType) -> int {
    if game_type == GameType::ShortdeckHoldem {
        6
    } else {
        2
    }
}

/// Every rank value from `hi - 4` up to `hi` is present in the pool.
pub open spec fn straight_at(pool: Seq<Card>, hi: int) -> bool {
    &&& has_rank(pool, hi)
    &&& has_rank(pool, hi - 1)
    &&& has_rank(pool, hi - 2)
    &&& has_rank(pool, hi - 3)
    &&& has_rank(pool, hi - 4)
}

/// The wheel: an Ace together with the four lowest deck ranks.
pub open spec fn wheel_at(pool: Seq<Card>, low: int) -> bool {
    &&& has_rank(pool, 14)
    &&& has_rank(pool, low)
    &&& has_rank(pool, low + 1)
    &&& has_rank(pool, low + 2)
    &&& has_rank(pool, low + 3)
}

/// The condition "a straight tops out at this rank value".
pub open spec fn straight_cond(pool: Seq<Card>, low: int) -> spec_fn(int) -> bool {
    |hi: int| hi >= low + 4 && straight_at(pool, hi)
}

/// Picks one card per rank value of the window `hi - 4 ..= hi`, descending,
/// exactly when all five are present.
pub fn straight_window(cards: &Vec<Card>, hi: u8) -> (r: Option<Vec<Card>>)
    requires
        5 <= hi <= 14,
    ensures
        r is Some <==> straight_at(cards@, hi as int),
        r is Some ==> r->0@.len() == 5 && forall|d: int|
            0 <= d < 5 ==> cards@.contains(#[trigger] r->0@[d]) && r->0@[d].rank.spec_value()
                == hi - d,
{
    let c0 = match find_card_of_rank(cards, hi) {
        Some(c) => c,
        None => {
            return None;
        },
    };
    let c1 = match find_card_of_rank(cards, hi - 1) {
        Some(c) => c,
        None => {
            return None;
        },
    };
    let c2 = match find_card_of_rank(cards, hi - 2) {
        Some(c) => c,
        None => {
            return None;
        },
    };
    let c3 = match find_card_of_rank(cards, hi - 3) {
        Some(c) => c,
        None => {
            return None;
        },
    };
    let c4 = match find_card_of_rank(cards, hi - 4) {
        Some(c) => c,
        None => {
            return None;
        },
    };
    let mut h: Vec<Card> = Vec::new();
    h.push(c0);
    h.push(c1);
    h.push(c2);
    h.push(c3);
    h.push(c4);
    Some(h)
}

/// Detects a straight: the five-card window with the highest top value whose
/// rank values are all present, one card per value, best first; failing that,
/// the wheel, where the Ace plays low and is reported as a synthetic low-Ace
/// card of the same suit as a pool Ace.
///
/// Deliberate choice for Omaha, where the composition rule is otherwise
/// applied per category: plain straights are detected over the whole pool,
/// without requiring that the window use exactly two hole cards. The straight
/// flush detector, by contrast, does enforce the rule.
pub fn get_straight(game_type: GameType, cards: &Vec<Card>) -> (r: Option<Vec<Card>>)
    ensures
        (r is Some) <==> (top_rank_sat(straight_cond(cards@, deck_low(game_type)), 15) != 0
            || wheel_at(cards@, deck_low(game_type))),
        r is Some && top_rank_sat(straight_cond(cards@, deck_low(game_type)), 15) != 0 ==> ({
            let hi = top_rank_sat(straight_cond(cards@, deck_low(game_type)), 15);
            forall|d: int|
                0 <= d < 5 ==> cards@.contains(#[trigger] r->0@[d]) && r->0@[d].rank.spec_value()
                    == hi - d
        }),
        r is Some && top_rank_sat(straight_cond(cards@, deck_low(game_type)), 15) == 0 ==> ({
            let low = deck_low(game_type);
            &&& forall|d: int|
                0 <= d < 4 ==> cards@.contains(#[trigger] r->0@[d]) && r->0@[d].rank.spec_value()
                    == low + 3 - d
            &&& r->0@[4].rank == Rank::LowAce
            &&& exists|c: Card|
                cards@.contains(c) && c.rank.spec_value() == 14 && c.suit == r->0@[4].suit
        }),
        r is Some ==> hand_digits_ok(r->0@),
{
    let low: u8 = match game_type {
        GameType::ShortdeckHoldem => 6,
        _ => 2,
    };
    let ghost scond = straight_cond(cards@, low as int);
    let mut hi: u8 = 14;
    while hi >= low + 4
        invariant
            low == deck_low(game_type),
            low + 3 <= hi <= 14,
            scond == straight_cond(cards@, low as int),
            top_rank_sat(scond, 15) == top_rank_sat(scond, hi + 1),
        decreases hi,
    {
        match straight_window(cards, hi) {
            Some(h) => {
                proof {
                    assert(scond(hi as int));
                    lemma_top_rank_sat(scond, 15);
                    lemma_rank_value_range();
                }
                return Some(h);
            },
            None => {
                proof {
                    assert(!scond(hi as int));
                }
            },
        }
        hi -= 1;
    }
    proof {
        lemma_top_rank_sat(scond, (low + 4) as int);
        assert forall|v: int| 2 <= v < low + 4 implies !(#[trigger] scond(v)) by {}
        assert(top_rank_sat(scond, 15) == 0);
    }
    // no plain straight: look for the wheel
    let ace = match find_card_of_rank(cards, 14) {
        Some(c) => c,
        None => {
            return None;
        },
    };
    let c0 = match find_card_of_rank(cards, low + 3) {
        Some(c) => c,
        None => {
            return None;
        },
    };
    let c1 = match find_card_of_rank(cards, low + 2) {
        Some(c) => c,
        None => {
            return None;
        },
    };
    let c2 = match find_card_of_rank(cards, low + 1) {
        Some(c) => c,
        None => {
            return None;
        },
    };
    let c3 = match find_card_of_rank(cards, low) {
        Some(c) => c,
        None => {
            return None;
        },
    };
    let mut h: Vec<Card> = Vec::new();
    h.push(c0);
    h.push(c1);
    h.push(c2);
    h.push(c3);
    h.push(Card { suit: ace.suit, rank: Rank::LowAce });
    proof {
        assert(wheel_at(cards@, low as int));
        lemma_rank_value_range();
    }
    Some(h)
}

} // verus!
