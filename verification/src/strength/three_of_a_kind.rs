//! Three-of-a-kind detection.

use crate::card::distinct_cards;
use crate::card::Card;
use crate::game::cards_of_rank;
use crate::game::copy_cards;
use crate::game::count_cards_of_rank;
use crate::game::count_eq_cond;
use crate::game::count_rank;
use crate::game::filter_not_rank;
use crate::game::find_top_rank_with_count;
use crate::game::hand_digits_ok;
use crate::game::kickers_excluding;
use crate::game::lemma_count_rank_split;
use crate::game::lemma_filter_len_permutation;
use crate::game::lemma_filter_membership;
use crate::game::lemma_filter_rank_split;
use crate::game::lemma_pool_contains;
use crate::game::lemma_rank_value_range;
use crate::game::lemma_sorted_filter;
use crate::game::lemma_top_rank_sat;
use crate::game::rank_groups_wf;
use crate::game::sort_by_rank_desc;
use crate::game::sorted_desc;
use crate::game::top_rank_sat;
use crate::game::RankGroups;
use crate::GameType;
use vstd::prelude::*;

verus! {

broadcast use
    vstd::seq_lib::group_seq_properties,
    vstd::seq_lib::group_filter_ensures,
    Seq::lemma_filter_push,
    Seq::lemma_take_succ_push,
;

/// An Omaha rank qualifies for trips when the pool holds exactly three cards
/// of it and at most two of those sit in the player's hand (the composition
/// rule then leaves legal kickers on both sides).
pub open spec fn omaha_trips_cond(pool: Seq<Card>, hole: Seq<Card>) -> spec_fn(int) -> bool {
    |v: int| count_rank(pool, v) == 3 && count_rank(hole, v) <= 2
}

/// Detects three of a kind. The hand is the three cards of the best
/// qualifying rank plus two kickers: outside Omaha the two best other pool
/// cards; under Omaha as many hole kickers as the composition rule still
/// allows, the rest from the board, each side's best first.
pub fn get_three_of_a_kind(
    game_type: GameType,
    cards: &Vec<Card>,
    rank_map: &RankGroups,
    player_cards: &Vec<Card>,
    board: &Vec<Card>,
) -> (r: Option<Vec<Card>>)
    requires
        sorted_desc(cards@),
        distinct_cards(cards@),
        rank_groups_wf(rank_map, cards@),
        cards@.len() >= 5,
        game_type == GameType::Omaha ==> cards@.to_multiset() == board@.to_multiset().add(
            player_cards@.to_multiset(),
        ) && board@.len() == 5 && player_cards@.len() == 4,
    ensures
        game_type != GameType::Omaha ==> ((r is Some) <==> exists|v: int|
            2 <= v <= 14 && count_rank(cards@, v) == 3),
        game_type != GameType::Omaha && r is Some ==> ({
            let t = top_rank_sat(count_eq_cond(cards@, 3), 15);
            r->0@ == cards_of_rank(cards@, t) + kickers_excluding(cards@, t).take(2)
        }),
        game_type == GameType::Omaha ==> ((r is Some) <==> exists|v: int|
            2 <= v <= 14 && count_rank(cards@, v) == 3 && count_rank(player_cards@, v) <= 2),
        game_type == GameType::Omaha && r is Some ==> ({
            let t = top_rank_sat(omaha_trips_cond(cards@, player_cards@), 15);
            &&& r->0@.take(3) == cards_of_rank(cards@, t)
            &&& cards@.contains(r->0@[3]) && r->0@[3].rank.spec_value() != t
            &&& cards@.contains(r->0@[4]) && r->0@[4].rank.spec_value() != t
            &&& r->0@[3].rank.spec_value() >= r->0@[4].rank.spec_value()
        }),
        r is Some ==> hand_digits_ok(r->0@),
{
    let is_omaha = match game_type {
        GameType::Omaha => true,
        _ => false,
    };
    if !is_omaha {
        let ghost cond = count_eq_cond(cards@, 3);
        let t = find_top_rank_with_count(rank_map, cards, 3, 15);
        proof {
            lemma_top_rank_sat(cond, 15);
            lemma_rank_value_range();
        }
        if t == 0 {
            proof {
                assert forall|v: int| 2 <= v <= 14 implies count_rank(cards@, v) != 3 by {
                    assert(!cond(v));
                }
            }
            return None;
        }
        proof {
            assert(cond(t as int));
        }
        let grp = &rank_map.groups[t as usize];
        proof {
            lemma_filter_rank_split(cards@, t as int);
        }
        let ks = filter_not_rank(cards, t);
        let mut hand = copy_cards(grp);
        hand.push(ks[0]);
        hand.push(ks[1]);
        let res = Some(hand);
        proof {
            assert(exists|v: int| 2 <= v <= 14 && count_rank(cards@, v) == 3) by {
                assert(count_rank(cards@, t as int) == 3);
            }
            assert(res->0@ =~= cards_of_rank(cards@, t as int) + kickers_excluding(
                cards@,
                t as int,
            ).take(2));
            assert(hand_digits_ok(res->0@)) by {
                assert forall|k: int| 0 <= k < 3 implies (#[trigger] hand@[k]).rank.spec_value()
                    == t as int by {
                    cards@.lemma_filter_pred(|c: Card| c.rank.spec_value() == t as int, k);
                }
            }
        }
        return res;
    }
    // Omaha: scan for the best rank with exactly three cards, at most two of
    // them in the player's hand
    let ghost cond = omaha_trips_cond(cards@, player_cards@);
    let mut v: u8 = 14;
    while v >= 2
        invariant
            1 <= v <= 14,
            game_type == GameType::Omaha,
            sorted_desc(cards@),
            distinct_cards(cards@),
            rank_groups_wf(rank_map, cards@),
            cards@.len() >= 5,
            cards@.to_multiset() == board@.to_multiset().add(player_cards@.to_multiset()),
            board@.len() == 5,
            player_cards@.len() == 4,
            cond == omaha_trips_cond(cards@, player_cards@),
            top_rank_sat(cond, 15) == top_rank_sat(cond, v + 1),
        decreases v,
    {
        if rank_map.groups[v as usize].len() == 3 {
            let pc = count_cards_of_rank(player_cards, v);
            if pc <= 2 {
                proof {
                    assert(cond(v as int));
                    lemma_top_rank_sat(cond, 15);
                    lemma_rank_value_range();
                    lemma_count_rank_split(cards@, player_cards@, board@, v as int);
                    lemma_pool_contains(cards@, player_cards@, board@);
                }
                // kickers: (2 - pc) from the hole, pc from the board, so the
                // five cards use exactly two hole cards
                let mut ps = copy_cards(player_cards);
                sort_by_rank_desc(&mut ps);
                let mut bs = copy_cards(board);
                sort_by_rank_desc(&mut bs);
                proof {
                    let pnot = |c: Card| c.rank.spec_value() != v as int;
                    lemma_filter_len_permutation(ps@, player_cards@, pnot);
                    lemma_filter_len_permutation(
                        ps@,
                        player_cards@,
                        |c: Card| c.rank.spec_value() == v as int,
                    );
                    lemma_filter_rank_split(player_cards@, v as int);
                    lemma_filter_len_permutation(bs@, board@, pnot);
                    lemma_filter_len_permutation(
                        bs@,
                        board@,
                        |c: Card| c.rank.spec_value() == v as int,
                    );
                    lemma_filter_rank_split(board@, v as int);
                    lemma_sorted_filter(ps@, pnot);
                    lemma_sorted_filter(bs@, pnot);
                }
                let hole_others = filter_not_rank(&ps, v);
                let board_others = filter_not_rank(&bs, v);
                let mut op: Vec<Card> = Vec::new();
                let need_hole: usize = 2 - pc;
                let mut k: usize = 0;
                proof {
                    assert(hole_others@.take(0) =~= Seq::<Card>::empty());
                }
                while k < need_hole
                    invariant
                        need_hole <= 2,
                        k <= need_hole,
                        need_hole <= hole_others@.len(),
                        op@ == hole_others@.take(k as int),
                    decreases need_hole - k,
                {
                    op.push(hole_others[k]);
                    k += 1;
                }
                let mut k2: usize = 0;
                proof {
                    assert(board_others@.take(0) =~= Seq::<Card>::empty());
                    assert(op@ =~= hole_others@.take(need_hole as int) + board_others@.take(0));
                }
                while k2 < pc
                    invariant
                        pc <= 2,
                        k2 <= pc,
                        pc <= board_others@.len(),
                        need_hole <= hole_others@.len(),
                        op@ == hole_others@.take(need_hole as int) + board_others@.take(k2 as int),
                    decreases pc - k2,
                {
                    op.push(board_others[k2]);
                    proof {
                        assert(hole_others@.take(need_hole as int) + board_others@.take(
                            k2 as int,
                        ).push(board_others@[k2 as int]) =~= hole_others@.take(need_hole as int)
                            + board_others@.take(k2 + 1));
                    }
                    k2 += 1;
                }
                let ghost op_pre = op@;
                sort_by_rank_desc(&mut op);
                let grp = &rank_map.groups[v as usize];
                let mut hand = copy_cards(grp);
                hand.push(op[0]);
                hand.push(op[1]);
                let res = Some(hand);
                proof {
                    assert(exists|u: int|
                        2 <= u <= 14 && count_rank(cards@, u) == 3 && count_rank(player_cards@, u)
                            <= 2) by {
                        assert(count_rank(cards@, v as int) == 3);
                    }
                    assert(res->0@.take(3) =~= cards_of_rank(cards@, v as int));
                    let pnot = |c: Card| c.rank.spec_value() != v as int;
                    lemma_filter_membership(ps@, pnot);
                    lemma_filter_membership(bs@, pnot);
                    assert forall|j: int| 0 <= j < 2 implies cards@.contains(#[trigger] op@[j])
                        && op@[j].rank.spec_value() != v as int by {
                        assert(op@.contains(op@[j]));
                        assert(op_pre.contains(op@[j]));
                        let w = choose|w: int| 0 <= w < op_pre.len() && op_pre[w] == op@[j];
                        if w < op_pre.len() - pc {
                            assert(hole_others@.contains(op@[j])) by {
                                assert(hole_others@[w] == op@[j]);
                            }
                        } else {
                            assert(board_others@.contains(op@[j])) by {
                                assert(board_others@[w - (op_pre.len() - pc)] == op@[j]);
                            }
                        }
                    }
                    assert(hand_digits_ok(res->0@)) by {
                        assert forall|k3: int|
                            0 <= k3 < 3 implies (#[trigger] hand@[k3]).rank.spec_value()
                            == v as int by {
                            cards@.lemma_filter_pred(
                                |c: Card| c.rank.spec_value() == v as int,
                                k3,
                            );
                        }
                    }
                }
                return res;
            }
            proof {
                assert(!cond(v as int));
            }
        } else {
            proof {
                assert(!cond(v as int));
            }
        }
        v -= 1;
    }
    proof {
        lemma_top_rank_sat(cond, 15);
        assert(top_rank_sat(cond, 2) == 0);
        assert forall|u: int|
            2 <= u <= 14 implies !(count_rank(cards@, u) == 3 && count_rank(player_cards@, u)
            <= 2) by {
            assert(!cond(u));
        }
    }
    None
}

} // verus!
