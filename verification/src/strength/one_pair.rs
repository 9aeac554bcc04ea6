//! One-pair detection.

use crate::card::distinct_cards;
use crate::card::Card;
use crate::game::cards_of_rank;
use crate::game::copy_cards;
use crate::game::count_cards_of_rank;
use crate::game::count_eq_cond;
use crate::game::count_rank;
use crate::game::filter_not_rank;
use crate::game::find_top_rank_with_count;
use crate::game::hand_digits_ok;
use crate::game::kickers_excluding;
use crate::game::lemma_count_rank_split;
use crate::game::lemma_filter_len_permutation;
use crate::game::lemma_filter_membership;
use crate::game::lemma_filter_rank_split;
use crate::game::lemma_pool_contains;
use crate::game::lemma_rank_value_range;
use crate::game::lemma_sorted_filter;
use crate::game::lemma_top_rank_sat;
use crate::game::rank_groups_wf;
use crate::game::sort_by_rank_desc;
use crate::game::sorted_desc;
use crate::game::top_rank_sat;
use crate::game::RankGroups;
use crate::GameType;
use vstd::prelude::*;

verus! {

broadcast use
    vstd::seq_lib::group_seq_properties,
    vstd::seq_lib::group_filter_ensures,
    Seq::lemma_filter_push,
    Seq::lemma_take_succ_push,
;

/// Detects one pair: the best rank of which the pool holds exactly two cards.
/// The hand is the pair plus three kickers: outside Omaha the three best
/// other pool cards; under Omaha as many hole kickers as the composition rule
/// still allows, the rest from the board, re-sorted together.
pub fn get_one_pair(
    game_type: GameType,
    cards: &Vec<Card>,
    rank_map: &RankGroups,
    player_cards: &Vec<Card>,
    board: &Vec<Card>,
) -> (r: Option<Vec<Card>>)
    requires
        sorted_desc(cards@),
        distinct_cards(cards@),
        rank_groups_wf(rank_map, cards@),
        cards@.len() >= 5,
        game_type == GameType::Omaha ==> cards@.to_multiset() == board@.to_multiset().add(
            player_cards@.to_multiset(),
        ) && board@.len() == 5 && player_cards@.len() == 4,
    ensures
        (r is Some) <==> exists|v: int| 2 <= v <= 14 && count_rank(cards@, v) == 2,
        game_type != GameType::Omaha && r is Some ==> ({
            let t = top_rank_sat(count_eq_cond(cards@, 2), 15);
            r->0@ == cards_of_rank(cards@, t) + kickers_excluding(cards@, t).take(3)
        }),
        game_type == GameType::Omaha && r is Some ==> ({
            let t = top_rank_sat(count_eq_cond(cards@, 2), 15);
            &&& r->0@.take(2) == cards_of_rank(cards@, t)
            &&& forall|k: int|
                2 <= k < 5 ==> cards@.contains(#[trigger] r->0@[k]) && r->0@[k].rank.spec_value()
                    != t
            &&& sorted_desc(r->0@.skip(2))
        }),
        r is Some ==> hand_digits_ok(r->0@),
{
    let is_omaha = match game_type {
        GameType::Omaha => true,
        _ => false,
    };
    let ghost cond = count_eq_cond(cards@, 2);
    let t = find_top_rank_with_count(rank_map, cards, 2, 15);
    proof {
        lemma_top_rank_sat(cond, 15);
        lemma_rank_value_range();
    }
    if t == 0 {
        proof {
            assert forall|v: int| 2 <= v <= 14 implies count_rank(cards@, v) != 2 by {
                assert(!cond(v));
            }
        }
        return None;
    }
    proof {
        assert(cond(t as int));
        assert(exists|v: int| 2 <= v <= 14 && count_rank(cards@, v) == 2) by {
            assert(count_rank(cards@, t as int) == 2);
        }
    }
    let grp = &rank_map.groups[t as usize];
    if !is_omaha {
        proof {
            lemma_filter_rank_split(cards@, t as int);
        }
        let ks = filter_not_rank(cards, t);
        let mut hand = copy_cards(grp);
        hand.push(ks[0]);
        hand.push(ks[1]);
        hand.push(ks[2]);
        let res = Some(hand);
        proof {
            assert(res->0@ =~= cards_of_rank(cards@, t as int) + kickers_excluding(
                cards@,
                t as int,
            ).take(3));
            assert(hand_digits_ok(res->0@)) by {
                assert forall|k: int| 0 <= k < 2 implies (#[trigger] hand@[k]).rank.spec_value()
                    == t as int by {
                    cards@.lemma_filter_pred(|c: Card| c.rank.spec_value() == t as int, k);
                }
            }
        }
        return res;
    }
    // Omaha: (2 - pc) hole kickers and (1 + pc) board kickers, where pc is
    // how many of the pair the player holds; the hand then uses exactly two
    // hole cards
    let pc = count_cards_of_rank(player_cards, t);
    proof {
        lemma_count_rank_split(cards@, player_cards@, board@, t as int);
        lemma_pool_contains(cards@, player_cards@, board@);
    }
    let mut ps = copy_cards(player_cards);
    sort_by_rank_desc(&mut ps);
    let mut bs = copy_cards(board);
    sort_by_rank_desc(&mut bs);
    proof {
        let pnot = |c: Card| c.rank.spec_value() != t as int;
        lemma_filter_len_permutation(ps@, player_cards@, pnot);
        lemma_filter_len_permutation(ps@, player_cards@, |c: Card| c.rank.spec_value() == t as int);
        lemma_filter_rank_split(player_cards@, t as int);
        lemma_filter_len_permutation(bs@, board@, pnot);
        lemma_filter_len_permutation(bs@, board@, |c: Card| c.rank.spec_value() == t as int);
        lemma_filter_rank_split(board@, t as int);
        lemma_sorted_filter(ps@, pnot);
        lemma_sorted_filter(bs@, pnot);
    }
    let hole_others = filter_not_rank(&ps, t);
    let board_others = filter_not_rank(&bs, t);
    let need_hole: usize = 2 - pc;
    let need_board: usize = 1 + pc;
    let mut op: Vec<Card> = Vec::new();
    let mut k: usize = 0;
    proof {
        assert(hole_others@.take(0) =~= Seq::<Card>::empty());
    }
    while k < need_hole
        invariant
            need_hole <= 2,
            k <= need_hole,
            need_hole <= hole_others@.len(),
            op@ == hole_others@.take(k as int),
        decreases need_hole - k,
    {
        op.push(hole_others[k]);
        k += 1;
    }
    let mut k2: usize = 0;
    proof {
        assert(board_others@.take(0) =~= Seq::<Card>::empty());
        assert(op@ =~= hole_others@.take(need_hole as int) + board_others@.take(0));
    }
    while k2 < need_board
        invariant
            need_board <= 3,
            k2 <= need_board,
            need_board <= board_others@.len(),
            need_hole <= hole_others@.len(),
            op@ == hole_others@.take(need_hole as int) + board_others@.take(k2 as int),
        decreases need_board - k2,
    {
        op.push(board_others[k2]);
        proof {
            assert(hole_others@.take(need_hole as int) + board_others@.take(k2 as int).push(
                board_others@[k2 as int],
            ) =~= hole_others@.take(need_hole as int) + board_others@.take(k2 + 1));
        }
        k2 += 1;
    }
    let ghost op_pre = op@;
    sort_by_rank_desc(&mut op);
    let mut hand = copy_cards(grp);
    hand.push(op[0]);
    hand.push(op[1]);
    hand.push(op[2]);
    let res = Some(hand);
    proof {
        assert(res->0@.take(2) =~= cards_of_rank(cards@, t as int));
        let pnot = |c: Card| c.rank.spec_value() != t as int;
        lemma_filter_membership(ps@, pnot);
        lemma_filter_membership(bs@, pnot);
        assert forall|j: int| 0 <= j < 3 implies cards@.contains(#[trigger] op@[j])
            && op@[j].rank.spec_value() != t as int by {
            assert(op@.contains(op@[j]));
            assert(op_pre.contains(op@[j]));
            let w = choose|w: int| 0 <= w < op_pre.len() && op_pre[w] == op@[j];
            if w < op_pre.len() - need_board {
                assert(hole_others@.contains(op@[j])) by {
                    assert(hole_others@[w] == op@[j]);
                }
            } else {
                assert(board_others@.contains(op@[j])) by {
                    assert(board_others@[w - (op_pre.len() - need_board)] == op@[j]);
                }
            }
        }
        assert forall|j: int| 2 <= j < 5 implies cards@.contains(#[trigger] res->0@[j]) && res->0@[
            j].rank.spec_value() != t as int by {
            assert(res->0@[j] == op@[j - 2]);
        }
        assert(sorted_desc(res->0@.skip(2))) by {
            assert forall|a: int, b: int|
                0 <= a <= b < 3 implies res->0@.skip(2)[a].rank.spec_value() >= res->0@.skip(
                2,
            )[b].rank.spec_value() by {
                assert(res->0@.skip(2)[a] == op@[a] && res->0@.skip(2)[b] == op@[b]);
            }
        }
        assert(hand_digits_ok(res->0@)) by {
            assert forall|k3: int| 0 <= k3 < 2 implies (#[trigger] hand@[k3]).rank.spec_value()
                == t as int by {
                cards@.lemma_filter_pred(|c: Card| c.rank.spec_value() == t as int, k3);
            }
        }
    }
    res
}

} // verus!
