//! Straight-flush detection: a straight whose five cards share one suit,
//! reported lowest card first (the wheel with its Ace last).

use crate::card::distinct_cards;
use crate::card::lemma_rank_value_injective;
use crate::card::rank_of_value;
use crate::card::suit_of_index;
use crate::card::Card;
use crate::card::Suit;
use crate::game::contains_card;
use crate::game::count_suit;
use crate::game::find_card_of_rank;
use crate::game::lemma_rank_value_range;
use crate::game::lemma_top_rank_sat;
use crate::game::suit_group_ok;
use crate::game::suit_groups_ok;
use crate::game::top_rank_sat;
use crate::game::SuitGroups;
use crate::strength::straight::deck_low;
use crate::strength::straight::straight_at;
use crate::strength::straight::straight_window;
use crate::strength::straight::wheel_at;
use crate::GameType;
use vstd::prelude::*;

verus! {

broadcast use
    vstd::seq_lib::group_seq_properties,
;

/// The unique card a suited straight can use for a given rank value.
pub open spec fn sf_card(s: Suit, v: int) -> Card {
    Card { suit: s, rank: rank_of_value(v) }
}

/// 1 when the hole cards hold this very card, else 0.
pub open spec fn uses(hole: Seq<Card>, c: Card) -> int {
    if hole.contains(c) {
        1
    } else {
        0
    }
}

/// How many of the five suited window cards topping out at `hi` are the
/// player's.
pub open spec fn sf_window_hole_uses(s: Suit, hole: Seq<Card>, hi: int) -> int {
    uses(hole, sf_card(s, hi)) + uses(hole, sf_card(s, hi - 1)) + uses(hole, sf_card(s, hi - 2))
        + uses(hole, sf_card(s, hi - 3)) + uses(hole, sf_card(s, hi - 4))
}

/// How many of the five suited wheel cards are the player's.
pub open spec fn sf_wheel_hole_uses(s: Suit, hole: Seq<Card>, low: int) -> int {
    uses(hole, sf_card(s, low)) + uses(hole, sf_card(s, low + 1)) + uses(hole, sf_card(s, low + 2))
        + uses(hole, sf_card(s, low + 3)) + uses(hole, sf_card(s, 14))
}

/// The condition "this suit group carries a straight flush topping out at
/// this rank value", with the Omaha composition rule where it applies.
pub open spec fn sf_cond(grp: Seq<Card>, s: Suit, hole: Seq<Card>, omaha: bool, low: int)
    -> spec_fn(int) -> bool {
    |hi: int|
        {
            &&& hi >= low + 4
            &&& straight_at(grp, hi)
            &&& (omaha ==> sf_window_hole_uses(s, hole, hi) == 2)
        }
}

/// The condition "this suit group carries the wheel straight flush", with the
/// Omaha composition rule where it applies.
pub open spec fn sf_wheel_ok(grp: Seq<Card>, s: Suit, hole: Seq<Card>, omaha: bool, low: int)
    -> bool {
    &&& wheel_at(grp, low)
    &&& (omaha ==> sf_wheel_hole_uses(s, hole, low) == 2)
}

/// The whole qualifying condition for one suit group.
pub open spec fn group_has_sf(grp: Seq<Card>, s: Suit, hole: Seq<Card>, omaha: bool, low: int)
    -> bool {
    top_rank_sat(sf_cond(grp, s, hole, omaha, low), 15) != 0 || sf_wheel_ok(
        grp,
        s,
        hole,
        omaha,
        low,
    )
}

/// The pinned hand for one qualifying suit group: the highest suited window,
/// lowest card first, or the wheel with its Ace last.
pub open spec fn sf_hand_for(grp: Seq<Card>, s: Suit, hole: Seq<Card>, omaha: bool, low: int)
    -> Seq<Card> {
    let hi = top_rank_sat(sf_cond(grp, s, hole, omaha, low), 15);
    if hi != 0 {
        seq![
            sf_card(s, hi - 4),
            sf_card(s, hi - 3),
            sf_card(s, hi - 2),
            sf_card(s, hi - 1),
            sf_card(s, hi),
        ]
    } else {
        seq![
            sf_card(s, low),
            sf_card(s, low + 1),
            sf_card(s, low + 2),
            sf_card(s, low + 3),
            sf_card(s, 14),
        ]
    }
}

/// In a uniform-suit, duplicate-free group, a member card of rank value `v`
/// is exactly `sf_card(s, v)`.
proof fn lemma_group_card_determined(grp: Seq<Card>, s: Suit, c: Card, v: int)
    requires
        suit_group_ok(grp, s),
        grp.contains(c),
        c.rank.spec_value() == v,
        1 <= v <= 14,
    ensures
        c == sf_card(s, v),
{
    lemma_rank_value_injective();
    crate::card::lemma_rank_of_value_inverse();
    let i = choose|i: int| 0 <= i < grp.len() && grp[i] == c;
    assert(grp[i].suit == s);
    assert(rank_of_value(v).spec_value() == v);
}

/// Detects a straight flush: scans each suit group from the highest window
/// down (the wheel last) and returns the first window whose cards all sit in
/// the group — under Omaha, the first one that uses exactly two hole cards.
pub fn get_straight_flush(
    game_type: GameType,
    suit_map: &SuitGroups,
    player_cards: &Vec<Card>,
) -> (r: Option<Vec<Card>>)
    requires
        suit_groups_ok(suit_map),
    ensures
        (r is Some) <==> exists|i: int|
            0 <= i < 4 && group_has_sf(
                (#[trigger] suit_map.groups@[i])@,
                suit_of_index(i),
                player_cards@,
                game_type == GameType::Omaha,
                deck_low(game_type),
            ),
        r is Some ==> exists|i: int|
            0 <= i < 4 && group_has_sf(
                (#[trigger] suit_map.groups@[i])@,
                suit_of_index(i),
                player_cards@,
                game_type == GameType::Omaha,
                deck_low(game_type),
            ) && r->0@ == sf_hand_for(
                suit_map.groups@[i]@,
                suit_of_index(i),
                player_cards@,
                game_type == GameType::Omaha,
                deck_low(game_type),
            ) && (forall|d: int| 0 <= d < 5 ==> suit_map.groups@[i]@.contains(#[trigger] r->0@[d])),
{
    let is_omaha = match game_type {
        GameType::Omaha => true,
        _ => false,
    };
    let low: u8 = match game_type {
        GameType::ShortdeckHoldem => 6,
        _ => 2,
    };
    let ghost omaha = game_type == GameType::Omaha;
    let ghost lowi = deck_low(game_type);
    let mut i: usize = 0;
    while i < 4
        invariant
            i <= 4,
            suit_groups_ok(suit_map),
            is_omaha == omaha,
            omaha == (game_type == GameType::Omaha),
            low as int == lowi,
            lowi == deck_low(game_type),
            forall|u: int|
                0 <= u < i ==> !group_has_sf(
                    (#[trigger] suit_map.groups@[u])@,
                    suit_of_index(u),
                    player_cards@,
                    omaha,
                    lowi,
                ),
        decreases 4 - i,
    {
        let grp = &suit_map.groups[i];
        let ghost s = suit_of_index(i as int);
        let ghost cond = sf_cond(grp@, s, player_cards@, omaha, lowi);
        let mut hi: u8 = 14;
        while hi >= low + 4
            invariant
                low + 3 <= hi <= 14,
                2 <= low as int == lowi <= 6,
                is_omaha == omaha,
                omaha == (game_type == GameType::Omaha),
                lowi == deck_low(game_type),
                i < 4,
                suit_groups_ok(suit_map),
                grp@ == suit_map.groups@[i as int]@,
                s == suit_of_index(i as int),
                suit_group_ok(grp@, s),
                cond == sf_cond(grp@, s, player_cards@, omaha, lowi),
                top_rank_sat(cond, 15) == top_rank_sat(cond, hi + 1),
            decreases hi,
        {
            match straight_window(grp, hi) {
                Some(w) => {
                    proof {
                        lemma_rank_value_range();
                        assert forall|d: int| 0 <= d < 5 implies w@[d] == sf_card(
                            s,
                            hi - d,
                        ) by {
                            lemma_group_card_determined(grp@, s, w@[d], hi - d);
                        }
                    }
                    let take_it: bool;
                    if is_omaha {
                        let mut cnt: usize = 0;
                        if contains_card(player_cards, w[0]) {
                            cnt += 1;
                        }
                        if contains_card(player_cards, w[1]) {
                            cnt += 1;
                        }
                        if contains_card(player_cards, w[2]) {
                            cnt += 1;
                        }
                        if contains_card(player_cards, w[3]) {
                            cnt += 1;
                        }
                        if contains_card(player_cards, w[4]) {
                            cnt += 1;
                        }
                        take_it = cnt == 2;
                        proof {
                            assert(cnt as int == sf_window_hole_uses(s, player_cards@, hi as int));
                        }
                    } else {
                        take_it = true;
                    }
                    if take_it {
                        proof {
                            assert(cond(hi as int));
                            lemma_top_rank_sat(cond, 15);
                        }
                        // report it lowest card first
                        let mut h: Vec<Card> = Vec::new();
                        h.push(w[4]);
                        h.push(w[3]);
                        h.push(w[2]);
                        h.push(w[1]);
                        h.push(w[0]);
                        let res = Some(h);
                        proof {
                            assert(res->0@ =~= sf_hand_for(grp@, s, player_cards@, omaha, lowi));
                            assert(group_has_sf(grp@, s, player_cards@, omaha, lowi));
                            assert forall|d: int| 0 <= d < 5 implies grp@.contains(
                                #[trigger] res->0@[d],
                            ) by {
                                assert(res->0@[d] == w@[4 - d]);
                            }
                            sf_exists_witness(
                                suit_map,
                                i as int,
                                player_cards@,
                                omaha,
                                lowi,
                                res->0@,
                            );
                        }
                        return res;
                    }
                    proof {
                        assert(!cond(hi as int));
                    }
                },
                None => {
                    proof {
                        assert(!cond(hi as int));
                    }
                },
            }
            hi -= 1;
        }
        proof {
            lemma_top_rank_sat(cond, (low + 4) as int);
            assert forall|v: int| 2 <= v < low + 4 implies !(#[trigger] cond(v)) by {}
            assert(top_rank_sat(cond, 15) == 0);
        }
        // no plain window in this suit: look for the suited wheel
        let wheel = wheel_in_group(grp, low, Ghost(s));
        match wheel {
            Some(w) => {
                proof {
                    lemma_rank_value_range();
                    assert(w@[0] == sf_card(s, lowi) && w@[1] == sf_card(s, lowi + 1) && w@[2]
                        == sf_card(s, lowi + 2) && w@[3] == sf_card(s, lowi + 3) && w@[4]
                        == sf_card(s, 14)) by {
                        lemma_group_card_determined(grp@, s, w@[0], lowi);
                        lemma_group_card_determined(grp@, s, w@[1], lowi + 1);
                        lemma_group_card_determined(grp@, s, w@[2], lowi + 2);
                        lemma_group_card_determined(grp@, s, w@[3], lowi + 3);
                        lemma_group_card_determined(grp@, s, w@[4], 14);
                    }
                }
                let take_it: bool;
                if is_omaha {
                    let mut cnt: usize = 0;
                    if contains_card(player_cards, w[0]) {
                        cnt += 1;
                    }
                    if contains_card(player_cards, w[1]) {
                        cnt += 1;
                    }
                    if contains_card(player_cards, w[2]) {
                        cnt += 1;
                    }
                    if contains_card(player_cards, w[3]) {
                        cnt += 1;
                    }
                    if contains_card(player_cards, w[4]) {
                        cnt += 1;
                    }
                    take_it = cnt == 2;
                    proof {
                        assert(cnt as int == sf_wheel_hole_uses(s, player_cards@, lowi));
                    }
                } else {
                    take_it = true;
                }
                if take_it {
                    let res = Some(w);
                    proof {
                        assert(sf_wheel_ok(grp@, s, player_cards@, omaha, lowi));
                        assert(res->0@ =~= sf_hand_for(grp@, s, player_cards@, omaha, lowi));
                        assert(group_has_sf(grp@, s, player_cards@, omaha, lowi));
                        sf_exists_witness(suit_map, i as int, player_cards@, omaha, lowi, res->0@);
                    }
                    return res;
                }
                proof {
                    assert(!sf_wheel_ok(grp@, s, player_cards@, omaha, lowi));
                    assert(!group_has_sf(grp@, s, player_cards@, omaha, lowi));
                }
            },
            None => {
                proof {
                    assert(!sf_wheel_ok(grp@, s, player_cards@, omaha, lowi));
                    assert(!group_has_sf(grp@, s, player_cards@, omaha, lowi));
                }
            },
        }
        i += 1;
    }
    None
}

/// Exhibits one suit group as the witness for the detector's existential
/// postconditions.
proof fn sf_exists_witness(
    suit_map: &SuitGroups,
    i: int,
    hole: Seq<Card>,
    omaha: bool,
    low: int,
    h: Seq<Card>,
)
    requires
        0 <= i < 4,
        suit_map.groups@.len() == 4,
        group_has_sf((suit_map.groups@[i])@, suit_of_index(i), hole, omaha, low),
        h == sf_hand_for(suit_map.groups@[i]@, suit_of_index(i), hole, omaha, low),
        forall|d: int| 0 <= d < 5 ==> suit_map.groups@[i]@.contains(#[trigger] h[d]),
    ensures
        exists|u: int|
            0 <= u < 4 && group_has_sf(
                (#[trigger] suit_map.groups@[u])@,
                suit_of_index(u),
                hole,
                omaha,
                low,
            ),
        exists|u: int|
            0 <= u < 4 && group_has_sf(
                (#[trigger] suit_map.groups@[u])@,
                suit_of_index(u),
                hole,
                omaha,
                low,
            ) && h == sf_hand_for(suit_map.groups@[u]@, suit_of_index(u), hole, omaha, low) && (
            forall|d: int| 0 <= d < 5 ==> suit_map.groups@[u]@.contains(#[trigger] h[d])),
{
    assert(0 <= i < 4 && group_has_sf(
        (#[trigger] suit_map.groups@[i])@,
        suit_of_index(i),
        hole,
        omaha,
        low,
    ) && h == sf_hand_for(suit_map.groups@[i]@, suit_of_index(i), hole, omaha, low) && (forall|
        d: int,
    |
        0 <= d < 5 ==> suit_map.groups@[i]@.contains(#[trigger] h[d])));
}

/// Picks the five wheel cards from one suit group, lowest first and the Ace
/// last, exactly when all five ranks are present.
fn wheel_in_group(grp: &Vec<Card>, low: u8, s: Ghost<Suit>) -> (r: Option<Vec<Card>>)
    requires
        2 <= low <= 6,
    ensures
        r is Some <==> wheel_at(grp@, low as int),
        r is Some ==> r->0@.len() == 5 && (forall|d: int|
            0 <= d < 5 ==> grp@.contains(#[trigger] r->0@[d])) && r->0@[0].rank.spec_value()
            == low as int && r->0@[1].rank.spec_value() == low + 1 && r->0@[2].rank.spec_value()
            == low + 2 && r->0@[3].rank.spec_value() == low + 3 && r->0@[4].rank.spec_value() == 14,
{
    let ace = match find_card_of_rank(grp, 14) {
        Some(c) => c,
        None => {
            return None;
        },
    };
    let c0 = match find_card_of_rank(grp, low) {
        Some(c) => c,
        None => {
            return None;
        },
    };
    let c1 = match find_card_of_rank(grp, low + 1) {
        Some(c) => c,
        None => {
            return None;
        },
    };
    let c2 = match find_card_of_rank(grp, low + 2) {
        Some(c) => c,
        None => {
            return None;
        },
    };
    let c3 = match find_card_of_rank(grp, low + 3) {
        Some(c) => c,
        None => {
            return None;
        },
    };
    let mut h: Vec<Card> = Vec::new();
    h.push(c0);
    h.push(c1);
    h.push(c2);
    h.push(c3);
    h.push(ace);
    Some(h)
}

} // verus!
