//! Two-pair detection.

use crate::card::distinct_cards;
use crate::card::Card;
use crate::game::cards_of_rank;
use crate::game::copy_cards;
use crate::game::count_cards_of_rank;
use crate::game::count_eq_cond;
use crate::game::count_rank;
use crate::game::find_top_rank_with_count;
use crate::game::hand_digits_ok;
use crate::game::is_top_other2;
use crate::game::kickers_excluding2;
use crate::game::lemma_count_rank_split;
use crate::game::lemma_filter_len_permutation;
use crate::game::lemma_filter_membership;
use crate::game::lemma_filter_rank_split2;
use crate::game::lemma_rank_value_range;
use crate::game::lemma_top_rank_sat;
use crate::game::rank_groups_wf;
use crate::game::sort_by_rank_desc;
use crate::game::sorted_desc;
use crate::game::top_other2_card;
use crate::game::top_rank_sat;
use crate::game::RankGroups;
use crate::GameType;
use vstd::prelude::*;

verus! {

broadcast use
    vstd::seq_lib::group_seq_properties,
    vstd::seq_lib::group_filter_ensures,
    Seq::lemma_filter_push,
    Seq::lemma_take_succ_push,
;

/// An Omaha rank qualifies as the second pair under a fixed top pair `v1`
/// when the pool holds exactly two cards of it and the player holds one or
/// two cards of the four pair cards (the composition rule then leaves a legal
/// kicker on the matching side).
pub open spec fn omaha_second_pair_cond(pool: Seq<Card>, hole: Seq<Card>, v1: int) -> spec_fn(
    int,
) -> bool {
    |w: int|
        count_rank(pool, w) == 2 && 1 <= count_rank(hole, v1) + count_rank(hole, w) <= 2
}

/// Detects two pairs. The top pair is the best rank counting exactly two;
/// the second is the next such rank (under Omaha, the next one compatible
/// with the composition rule). The kicker is the best other pool card, or
/// under Omaha the best other board card when the player holds two of the
/// pair cards and the best other hole card when one.
pub fn get_two_pairs(
    game_type: GameType,
    cards: &Vec<Card>,
    rank_map: &RankGroups,
    player_cards: &Vec<Card>,
    board: &Vec<Card>,
) -> (r: Option<Vec<Card>>)
    requires
        sorted_desc(cards@),
        distinct_cards(cards@),
        rank_groups_wf(rank_map, cards@),
        cards@.len() >= 5,
        game_type == GameType::Omaha ==> cards@.to_multiset() == board@.to_multiset().add(
            player_cards@.to_multiset(),
        ) && board@.len() == 5 && player_cards@.len() == 4,
    ensures
        game_type != GameType::Omaha ==> ((r is Some) <==> ({
            let v1 = top_rank_sat(count_eq_cond(cards@, 2), 15);
            v1 != 0 && top_rank_sat(count_eq_cond(cards@, 2), v1) != 0
        })),
        game_type != GameType::Omaha && r is Some ==> ({
            let v1 = top_rank_sat(count_eq_cond(cards@, 2), 15);
            let v2 = top_rank_sat(count_eq_cond(cards@, 2), v1);
            r->0@ == cards_of_rank(cards@, v1) + cards_of_rank(cards@, v2) + kickers_excluding2(
                cards@,
                v1,
                v2,
            ).take(1)
        }),
        game_type == GameType::Omaha ==> ((r is Some) <==> ({
            let v1 = top_rank_sat(count_eq_cond(cards@, 2), 15);
            v1 != 0 && top_rank_sat(omaha_second_pair_cond(cards@, player_cards@, v1), v1) != 0
        })),
        game_type == GameType::Omaha && r is Some ==> ({
            let v1 = top_rank_sat(count_eq_cond(cards@, 2), 15);
            let v2 = top_rank_sat(omaha_second_pair_cond(cards@, player_cards@, v1), v1);
            let m = count_rank(player_cards@, v1) + count_rank(player_cards@, v2);
            &&& r->0@.take(4) == cards_of_rank(cards@, v1) + cards_of_rank(cards@, v2)
            &&& (m == 2 ==> is_top_other2(r->0@[4], board@, v1, v2))
            &&& (m == 1 ==> is_top_other2(r->0@[4], player_cards@, v1, v2))
        }),
        r is Some ==> hand_digits_ok(r->0@),
{
    let is_omaha = match game_type {
        GameType::Omaha => true,
        _ => false,
    };
    let ghost cond = count_eq_cond(cards@, 2);
    let v1 = find_top_rank_with_count(rank_map, cards, 2, 15);
    proof {
        lemma_top_rank_sat(cond, 15);
        lemma_rank_value_range();
    }
    if v1 == 0 {
        return None;
    }
    proof {
        assert(cond(v1 as int));
    }
    if !is_omaha {
        let v2 = find_top_rank_with_count(rank_map, cards, 2, v1);
        proof {
            lemma_top_rank_sat(cond, v1 as int);
        }
        if v2 == 0 {
            return None;
        }
        proof {
            assert(cond(v2 as int));
            lemma_filter_rank_split2(cards@, v1 as int, v2 as int);
        }
        let kick = top_other2_card(cards, v1, v2);
        let grp1 = &rank_map.groups[v1 as usize];
        let grp2 = &rank_map.groups[v2 as usize];
        let mut hand = copy_cards(grp1);
        let mut second = copy_cards(grp2);
        hand.append(&mut second);
        hand.push(kick);
        let res = Some(hand);
        proof {
            assert(res->0@ =~= cards_of_rank(cards@, v1 as int) + cards_of_rank(cards@, v2 as int)
                + kickers_excluding2(cards@, v1 as int, v2 as int).take(1));
            assert(hand_digits_ok(res->0@)) by {
                assert forall|k: int| 0 <= k < 2 implies (#[trigger] hand@[k]).rank.spec_value()
                    == v1 as int by {
                    cards@.lemma_filter_pred(|c: Card| c.rank.spec_value() == v1 as int, k);
                }
                assert forall|k: int| 2 <= k < 4 implies (#[trigger] hand@[k]).rank.spec_value()
                    == v2 as int by {
                    cards@.lemma_filter_pred(|c: Card| c.rank.spec_value() == v2 as int, k - 2);
                }
            }
        }
        return res;
    }
    // Omaha: search the next pair compatible with the composition rule
    let ghost cond2 = omaha_second_pair_cond(cards@, player_cards@, v1 as int);
    let h1 = count_cards_of_rank(player_cards, v1);
    let mut w: u8 = v1 - 1;
    if w < 2 {
        proof {
            assert(top_rank_sat(cond2, v1 as int) == 0) by {
                lemma_top_rank_sat(cond2, v1 as int);
            }
        }
        return None;
    }
    while w >= 2
        invariant
            1 <= w <= v1 - 1,
            2 <= v1 <= 14,
            game_type == GameType::Omaha,
            sorted_desc(cards@),
            distinct_cards(cards@),
            rank_groups_wf(rank_map, cards@),
            cards@.len() >= 5,
            cards@.to_multiset() == board@.to_multiset().add(player_cards@.to_multiset()),
            board@.len() == 5,
            player_cards@.len() == 4,
            h1 == count_rank(player_cards@, v1 as int),
            count_rank(cards@, v1 as int) == 2,
            v1 as int == top_rank_sat(count_eq_cond(cards@, 2), 15),
            cond2 == omaha_second_pair_cond(cards@, player_cards@, v1 as int),
            top_rank_sat(cond2, v1 as int) == top_rank_sat(cond2, w + 1),
        decreases w,
    {
        if rank_map.groups[w as usize].len() == 2 {
            let h2 = count_cards_of_rank(player_cards, w);
            if 1 <= h1 + h2 && h1 + h2 <= 2 {
                proof {
                    assert(cond2(w as int));
                    lemma_top_rank_sat(cond2, v1 as int);
                    lemma_rank_value_range();
                    lemma_count_rank_split(cards@, player_cards@, board@, v1 as int);
                    lemma_count_rank_split(cards@, player_cards@, board@, w as int);
                }
                let kick: Card;
                if h1 + h2 == 2 {
                    let mut bs = copy_cards(board);
                    sort_by_rank_desc(&mut bs);
                    proof {
                        let p = |c: Card|
                            c.rank.spec_value() != v1 as int && c.rank.spec_value() != w as int;
                        lemma_filter_len_permutation(bs@, board@, p);
                        lemma_filter_rank_split2(board@, v1 as int, w as int);
                        lemma_filter_len_permutation(
                            bs@,
                            board@,
                            |c: Card| c.rank.spec_value() == v1 as int,
                        );
                        lemma_filter_len_permutation(
                            bs@,
                            board@,
                            |c: Card| c.rank.spec_value() == w as int,
                        );
                    }
                    kick = top_other2_card(&bs, v1, w);
                    proof {
                        assert(is_top_other2(kick, board@, v1 as int, w as int)) by {
                            lemma_filter_membership(
                                bs@,
                                |c: Card|
                                    c.rank.spec_value() != v1 as int && c.rank.spec_value()
                                        != w as int,
                            );
                        }
                    }
                } else {
                    let mut ps = copy_cards(player_cards);
                    sort_by_rank_desc(&mut ps);
                    proof {
                        let p = |c: Card|
                            c.rank.spec_value() != v1 as int && c.rank.spec_value() != w as int;
                        lemma_filter_len_permutation(ps@, player_cards@, p);
                        lemma_filter_rank_split2(player_cards@, v1 as int, w as int);
                        lemma_filter_len_permutation(
                            ps@,
                            player_cards@,
                            |c: Card| c.rank.spec_value() == v1 as int,
                        );
                        lemma_filter_len_permutation(
                            ps@,
                            player_cards@,
                            |c: Card| c.rank.spec_value() == w as int,
                        );
                    }
                    kick = top_other2_card(&ps, v1, w);
                    proof {
                        assert(is_top_other2(kick, player_cards@, v1 as int, w as int)) by {
                            lemma_filter_membership(
                                ps@,
                                |c: Card|
                                    c.rank.spec_value() != v1 as int && c.rank.spec_value()
                                        != w as int,
                            );
                        }
                    }
                }
                let grp1 = &rank_map.groups[v1 as usize];
                let grp2 = &rank_map.groups[w as usize];
                let mut hand = copy_cards(grp1);
                let mut second = copy_cards(grp2);
                hand.append(&mut second);
                hand.push(kick);
                let res = Some(hand);
                proof {
                    assert(res->0@.take(4) =~= cards_of_rank(cards@, v1 as int) + cards_of_rank(
                        cards@,
                        w as int,
                    ));
                    assert(hand_digits_ok(res->0@)) by {
                        assert forall|k: int|
                            0 <= k < 2 implies (#[trigger] hand@[k]).rank.spec_value()
                            == v1 as int by {
                            cards@.lemma_filter_pred(
                                |c: Card| c.rank.spec_value() == v1 as int,
                                k,
                            );
                        }
                        assert forall|k: int|
                            2 <= k < 4 implies (#[trigger] hand@[k]).rank.spec_value()
                            == w as int by {
                            cards@.lemma_filter_pred(
                                |c: Card| c.rank.spec_value() == w as int,
                                k - 2,
                            );
                        }
                    }
                }
                return res;
            }
            proof {
                assert(!cond2(w as int));
            }
        } else {
            proof {
                assert(!cond2(w as int));
            }
        }
        w -= 1;
    }
    proof {
        lemma_top_rank_sat(cond2, v1 as int);
        assert(top_rank_sat(cond2, 2) == 0);
    }
    None
}

} // verus!
