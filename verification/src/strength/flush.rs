//! Flush detection: five cards of one suit.

use crate::card::distinct_cards;
use crate::card::suit_of_index;
use crate::card::Card;
use crate::card::Suit;
use crate::game::cards_of_suit;
use crate::game::copy_cards;
use crate::game::count_suit;
use crate::game::disjoint_cards;
use crate::game::filter_by_suit;
use crate::game::lemma_distinct_permutation;
use crate::game::lemma_filter_membership;
use crate::game::lemma_picks_top_permutation;
use crate::game::lemma_two_hole_three_board;
use crate::game::omaha_five;
use crate::game::picks_top;
use crate::game::sort_by_rank_desc;
use crate::game::sorted_desc;
use crate::game::suit_groups_ok;
use crate::game::take_cards;
use crate::game::SuitGroups;
use crate::GameType;
use vstd::prelude::*;

verus! {

broadcast use
    vstd::seq_lib::group_seq_properties,
    vstd::seq_lib::group_filter_ensures,
    Seq::lemma_filter_push,
    Seq::lemma_take_succ_push,
;

/// Five cards of one suit, best first.
pub open spec fn flush_hand(h: Seq<Card>, s: Suit) -> bool {
    &&& h.len() == 5
    &&& sorted_desc(h)
    &&& distinct_cards(h)
    &&& forall|k: int| 0 <= k < 5 ==> (#[trigger] h[k]).suit == s
}

/// Every suit sits at one of the four deck-generation positions.
proof fn lemma_suit_index_small()
    ensures
        forall|s: Suit| 0 <= #[trigger] crate::card::suit_index(s) < 4,
        forall|s: Suit| suit_of_index(#[trigger] crate::card::suit_index(s)) == s,
{
}

/// Detects a flush. Outside Omaha the hand is the five best cards of any
/// suit counting five or more. Under Omaha a suit qualifies exactly when the
/// player holds at least two cards of it and the board at least three; the
/// hand is then the two best such hole cards and the three best such board
/// cards, re-sorted.
pub fn get_flush(
    game_type: GameType,
    suit_map: &SuitGroups,
    player_cards: &Vec<Card>,
    board: &Vec<Card>,
) -> (r: Option<Vec<Card>>)
    requires
        suit_groups_ok(suit_map),
        game_type == GameType::Omaha ==> distinct_cards(player_cards@) && distinct_cards(board@)
            && disjoint_cards(player_cards@, board@),
    ensures
        game_type != GameType::Omaha ==> ((r is Some) <==> exists|i: int|
            0 <= i < 4 && (#[trigger] suit_map.groups@[i])@.len() >= 5),
        game_type != GameType::Omaha && r is Some ==> exists|i: int|
            0 <= i < 4 && (#[trigger] suit_map.groups@[i])@.len() >= 5 && r->0@
                == suit_map.groups@[i]@.take(5),
        game_type == GameType::Omaha ==> ((r is Some) <==> exists|s: Suit|
            count_suit(player_cards@, s) >= 2 && count_suit(board@, s) >= 3),
        game_type == GameType::Omaha && r is Some ==> omaha_five(r->0@, player_cards@, board@) && (
        exists|s: Suit|
            count_suit(player_cards@, s) >= 2 && count_suit(board@, s) >= 3 && flush_hand(
                r->0@,
                s,
            ) && picks_top(r->0@, cards_of_suit(player_cards@, s)) && picks_top(
                r->0@,
                cards_of_suit(board@, s),
            )),
        r is Some ==> exists|s: Suit| flush_hand(r->0@, s),
{
    let is_omaha = match game_type {
        GameType::Omaha => true,
        _ => false,
    };
    proof {
        assert(is_omaha <==> game_type == GameType::Omaha);
    }
    if !is_omaha {
        let mut i: usize = 0;
        while i < 4
            invariant
                game_type != GameType::Omaha,
                i <= 4,
                suit_groups_ok(suit_map),
                forall|u: int| 0 <= u < i ==> (#[trigger] suit_map.groups@[u])@.len() < 5,
            decreases 4 - i,
        {
            let grp = &suit_map.groups[i];
            if grp.len() >= 5 {
                let hand = take_cards(grp, 5);
                proof {
                    let s = suit_of_index(i as int);
                    assert(flush_hand(hand@, s)) by {
                        assert forall|k: int| 0 <= k < 5 implies (#[trigger] hand@[k]).suit
                            == s by {
                            assert(hand@[k] == grp@[k]);
                        }
                    }
                }
                let res = Some(hand);
                proof {
                    let s = suit_of_index(i as int);
                    assert(res->0@ == hand@);
                    assert(exists|ss: Suit| flush_hand(res->0@, ss)) by {
                        assert(flush_hand(res->0@, s));
                    }
                }
                return res;
            }
            i += 1;
        }
        return None;
    }
    // Omaha: scan the four suits for two hole cards and three board cards
    let mut si: usize = 0;
    while si < 4
        invariant
            game_type == GameType::Omaha,
            si <= 4,
            distinct_cards(player_cards@),
            distinct_cards(board@),
            disjoint_cards(player_cards@, board@),
            forall|u: int|
                0 <= u < si ==> !(count_suit(player_cards@, suit_of_index(u)) >= 2 && count_suit(
                    board@,
                    #[trigger] suit_of_index(u),
                ) >= 3),
        decreases 4 - si,
    {
        let s = crate::card::suit_from_index(si);
        let mut hole_s = filter_by_suit(player_cards, s);
        let mut board_s = filter_by_suit(board, s);
        if hole_s.len() >= 2 && board_s.len() >= 3 {
            proof {
                crate::game::lemma_distinct_filter(player_cards@, |c: Card| c.suit == s);
                crate::game::lemma_distinct_filter(board@, |c: Card| c.suit == s);
            }
            let ghost hole_suited = hole_s@;
            let ghost board_suited = board_s@;
            sort_by_rank_desc(&mut hole_s);
            sort_by_rank_desc(&mut board_s);
            proof {
                lemma_distinct_permutation(hole_suited, hole_s@);
                lemma_distinct_permutation(board_suited, board_s@);
                lemma_filter_membership(player_cards@, |c: Card| c.suit == s);
                lemma_filter_membership(board@, |c: Card| c.suit == s);
            }
            let mut h: Vec<Card> = Vec::new();
            h.push(hole_s[0]);
            h.push(hole_s[1]);
            h.push(board_s[0]);
            h.push(board_s[1]);
            h.push(board_s[2]);
            let ghost pre = h@;
            sort_by_rank_desc(&mut h);
            proof {
                assert(pre =~= seq![hole_s@[0], hole_s@[1], board_s@[0], board_s@[1], board_s@[2]]);
                lemma_two_hole_three_board(h@, pre, hole_s@, board_s@, player_cards@, board@);
                lemma_picks_top_permutation(h@, hole_s@, cards_of_suit(player_cards@, s));
                lemma_picks_top_permutation(h@, board_s@, cards_of_suit(board@, s));
                assert(flush_hand(h@, s)) by {
                    assert forall|k: int| 0 <= k < 5 implies (#[trigger] h@[k]).suit == s by {
                        assert(h@.contains(h@[k]));
                        assert(pre.contains(h@[k]));
                        let w = choose|w: int| 0 <= w < 5 && pre[w] == h@[k];
                    }
                }
                assert(exists|ss: Suit|
                    count_suit(player_cards@, ss) >= 2 && count_suit(board@, ss) >= 3
                        && flush_hand(h@, ss) && picks_top(h@, cards_of_suit(player_cards@, ss))
                        && picks_top(h@, cards_of_suit(board@, ss))) by {
                    assert(count_suit(player_cards@, s) >= 2 && count_suit(board@, s) >= 3
                        && flush_hand(h@, s) && picks_top(h@, cards_of_suit(player_cards@, s))
                        && picks_top(h@, cards_of_suit(board@, s)));
                }
            }
            return Some(h);
        }
        si += 1;
    }
    proof {
        lemma_suit_index_small();
        assert forall|s: Suit| !(count_suit(player_cards@, s) >= 2 && count_suit(board@, s)
            >= 3) by {
            let u = crate::card::suit_index(s);
            assert(suit_of_index(u) == s);
        }
    }
    None
}

} // verus!
