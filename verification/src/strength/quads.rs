//! Four-of-a-kind detection.

use crate::card::distinct_cards;
use crate::card::Card;
use crate::game::cards_of_rank;
use crate::game::copy_cards;
use crate::game::count_cards_of_rank;
use crate::game::count_eq_cond;
use crate::game::count_rank;
use crate::game::find_top_rank_with_count;
use crate::game::hand_digits_ok;
use crate::game::is_top_other;
use crate::game::kickers_excluding;
use crate::game::lemma_count_rank_split;
use crate::game::lemma_filter_len_permutation;
use crate::game::lemma_filter_membership;
use crate::game::lemma_filter_rank_split;
use crate::game::lemma_rank_value_range;
use crate::game::lemma_top_rank_sat;
use crate::game::rank_groups_wf;
use crate::game::sort_by_rank_desc;
use crate::game::sorted_desc;
use crate::game::top_other_card;
use crate::game::top_rank_sat;
use crate::game::RankGroups;
use crate::GameType;
use vstd::prelude::*;

verus! {

broadcast use
    vstd::seq_lib::group_seq_properties,
    vstd::seq_lib::group_filter_ensures,
    Seq::lemma_filter_push,
    Seq::lemma_take_succ_push,
;

/// An Omaha rank qualifies for quads when the pool holds all four cards of it
/// and the player holds one or two of them (the composition rule then leaves
/// room for a kicker from the other side).
pub open spec fn omaha_quads_cond(pool: Seq<Card>, hole: Seq<Card>) -> spec_fn(int) -> bool {
    |v: int| count_rank(pool, v) == 4 && 1 <= count_rank(hole, v) <= 2
}

/// Detects four of a kind. The hand is the four cards of the best qualifying
/// rank plus the best kicker: outside Omaha the best other pool card; under
/// Omaha the best other board card when the player holds two of the quads,
/// and the best other hole card when the player holds one.
pub fn get_quads(
    game_type: GameType,
    cards: &Vec<Card>,
    rank_map: &RankGroups,
    player_cards: &Vec<Card>,
    board: &Vec<Card>,
) -> (r: Option<Vec<Card>>)
    requires
        sorted_desc(cards@),
        distinct_cards(cards@),
        rank_groups_wf(rank_map, cards@),
        cards@.len() >= 5,
        game_type == GameType::Omaha ==> cards@.to_multiset() == board@.to_multiset().add(
            player_cards@.to_multiset(),
        ) && board@.len() == 5 && player_cards@.len() == 4,
    ensures
        game_type != GameType::Omaha ==> ((r is Some) <==> exists|v: int|
            2 <= v <= 14 && count_rank(cards@, v) == 4),
        game_type != GameType::Omaha && r is Some ==> ({
            let t = top_rank_sat(count_eq_cond(cards@, 4), 15);
            r->0@ == cards_of_rank(cards@, t).push(kickers_excluding(cards@, t)[0])
                && is_top_other(r->0@[4], cards@, t)
        }),
        game_type == GameType::Omaha ==> ((r is Some) <==> exists|v: int|
            2 <= v <= 14 && count_rank(cards@, v) == 4 && 1 <= count_rank(player_cards@, v) <= 2),
        game_type == GameType::Omaha && r is Some ==> ({
            let t = top_rank_sat(omaha_quads_cond(cards@, player_cards@), 15);
            r->0@.take(4) == cards_of_rank(cards@, t) && (count_rank(player_cards@, t) == 2
                ==> is_top_other(r->0@[4], board@, t)) && (count_rank(player_cards@, t) == 1
                ==> is_top_other(r->0@[4], player_cards@, t))
        }),
        r is Some ==> hand_digits_ok(r->0@),
{
    let is_omaha = match game_type {
        GameType::Omaha => true,
        _ => false,
    };
    if !is_omaha {
        let ghost cond = count_eq_cond(cards@, 4);
        let t = find_top_rank_with_count(rank_map, cards, 4, 15);
        proof {
            lemma_top_rank_sat(cond, 15);
            lemma_rank_value_range();
        }
        if t == 0 {
            proof {
                assert forall|v: int| 2 <= v <= 14 implies count_rank(cards@, v) != 4 by {
                    assert(!cond(v));
                }
            }
            return None;
        }
        proof {
            assert(cond(t as int));
        }
        let grp = &rank_map.groups[t as usize];
        proof {
            lemma_filter_rank_split(cards@, t as int);
        }
        let kick = top_other_card(cards, t);
        let mut hand = copy_cards(grp);
        hand.push(kick);
        let res = Some(hand);
        proof {
            assert(exists|v: int| 2 <= v <= 14 && count_rank(cards@, v) == 4) by {
                assert(count_rank(cards@, t as int) == 4);
            }
            assert(hand_digits_ok(res->0@)) by {
                assert forall|k: int| 0 <= k < 4 implies (#[trigger] hand@[k]).rank.spec_value()
                    == t as int by {
                    cards@.lemma_filter_pred(|c: Card| c.rank.spec_value() == t as int, k);
                }
            }
        }
        return res;
    }
    // Omaha: scan for the best rank whose quads the player shares in
    let ghost cond = omaha_quads_cond(cards@, player_cards@);
    let mut v: u8 = 14;
    while v >= 2
        invariant
            1 <= v <= 14,
            game_type == GameType::Omaha,
            sorted_desc(cards@),
            distinct_cards(cards@),
            rank_groups_wf(rank_map, cards@),
            cards@.len() >= 5,
            cards@.to_multiset() == board@.to_multiset().add(player_cards@.to_multiset()),
            board@.len() == 5,
            player_cards@.len() == 4,
            cond == omaha_quads_cond(cards@, player_cards@),
            top_rank_sat(cond, 15) == top_rank_sat(cond, v + 1),
        decreases v,
    {
        if rank_map.groups[v as usize].len() == 4 {
            let pc = count_cards_of_rank(player_cards, v);
            if pc == 1 || pc == 2 {
                proof {
                    assert(cond(v as int));
                    lemma_top_rank_sat(cond, 15);
                    lemma_rank_value_range();
                    lemma_count_rank_split(cards@, player_cards@, board@, v as int);
                }
                let grp = &rank_map.groups[v as usize];
                let mut hand = copy_cards(grp);
                let kick: Card;
                if pc == 2 {
                    let mut bs = copy_cards(board);
                    sort_by_rank_desc(&mut bs);
                    proof {
                        lemma_filter_len_permutation(
                            bs@,
                            board@,
                            |c: Card| c.rank.spec_value() != v as int,
                        );
                        lemma_filter_rank_split(board@, v as int);
                        lemma_filter_len_permutation(
                            bs@,
                            board@,
                            |c: Card| c.rank.spec_value() == v as int,
                        );
                    }
                    kick = top_other_card(&bs, v);
                    proof {
                        assert(is_top_other(kick, board@, v as int)) by {
                            lemma_filter_membership(bs@, |c: Card| c.rank.spec_value() != v as int);
                        }
                    }
                } else {
                    let mut ps = copy_cards(player_cards);
                    sort_by_rank_desc(&mut ps);
                    proof {
                        lemma_filter_len_permutation(
                            ps@,
                            player_cards@,
                            |c: Card| c.rank.spec_value() != v as int,
                        );
                        lemma_filter_rank_split(player_cards@, v as int);
                        lemma_filter_len_permutation(
                            ps@,
                            player_cards@,
                            |c: Card| c.rank.spec_value() == v as int,
                        );
                    }
                    kick = top_other_card(&ps, v);
                    proof {
                        assert(is_top_other(kick, player_cards@, v as int)) by {
                            lemma_filter_membership(ps@, |c: Card| c.rank.spec_value() != v as int);
                        }
                    }
                }
                hand.push(kick);
                let res = Some(hand);
                proof {
                    assert(exists|u: int|
                        2 <= u <= 14 && count_rank(cards@, u) == 4 && 1 <= count_rank(
                            player_cards@,
                            u,
                        ) <= 2) by {
                        assert(count_rank(cards@, v as int) == 4);
                    }
                    assert(res->0@.take(4) =~= cards_of_rank(cards@, v as int));
                    assert(hand_digits_ok(res->0@)) by {
                        assert forall|k: int|
                            0 <= k < 4 implies (#[trigger] hand@[k]).rank.spec_value()
                            == v as int by {
                            cards@.lemma_filter_pred(
                                |c: Card| c.rank.spec_value() == v as int,
                                k,
                            );
                        }
                    }
                }
                return res;
            }
            proof {
                assert(!cond(v as int));
            }
        } else {
            proof {
                assert(!cond(v as int));
            }
        }
        v -= 1;
    }
    proof {
        lemma_top_rank_sat(cond, 15);
        assert(top_rank_sat(cond, 2) == 0);
        assert forall|u: int|
            2 <= u <= 14 implies !(count_rank(cards@, u) == 4 && 1 <= count_rank(player_cards@, u)
            <= 2) by {
            assert(!cond(u));
        }
    }
    None
}

} // verus!
