//! The guaranteed fallback category: the five best cards with no shape.

use crate::card::distinct_cards;
use crate::card::Card;
use crate::game::copy_cards;
use crate::game::disjoint_cards;
use crate::game::lemma_picks_top_permutation;
use crate::game::lemma_two_hole_three_board;
use crate::game::omaha_five;
use crate::game::picks_top;
use crate::game::sort_by_rank_desc;
use crate::game::sorted_desc;
use crate::game::take_cards;
use crate::GameType;
use vstd::prelude::*;

verus! {

broadcast use
    vstd::seq_lib::group_seq_properties,
    vstd::seq_lib::group_filter_ensures,
    Seq::lemma_filter_push,
    Seq::lemma_take_succ_push,
;

/// Picks the five highest cards. Outside Omaha that is the head of the
/// descending pool; under Omaha it is the two best hole cards followed by the
/// three best board cards, re-sorted. This category always succeeds.
pub fn get_high_cards(
    game_type: GameType,
    cards: &Vec<Card>,
    player_cards: &Vec<Card>,
    board: &Vec<Card>,
) -> (r: Vec<Card>)
    requires
        game_type != GameType::Omaha ==> cards@.len() >= 5,
        game_type == GameType::Omaha ==> player_cards@.len() >= 2 && board@.len() >= 3
            && distinct_cards(player_cards@) && distinct_cards(board@) && disjoint_cards(
            player_cards@,
            board@,
        ),
    ensures
        game_type != GameType::Omaha ==> r@ == cards@.take(5),
        game_type == GameType::Omaha ==> omaha_five(r@, player_cards@, board@) && sorted_desc(r@)
            && picks_top(r@, player_cards@) && picks_top(r@, board@),
{
    match game_type {
        GameType::Omaha => {
            let mut hole_sorted = copy_cards(player_cards);
            sort_by_rank_desc(&mut hole_sorted);
            let mut board_sorted = copy_cards(board);
            sort_by_rank_desc(&mut board_sorted);
            proof {
                crate::game::lemma_distinct_permutation(player_cards@, hole_sorted@);
                crate::game::lemma_distinct_permutation(board@, board_sorted@);
            }
            let mut h: Vec<Card> = Vec::new();
            h.push(hole_sorted[0]);
            h.push(hole_sorted[1]);
            h.push(board_sorted[0]);
            h.push(board_sorted[1]);
            h.push(board_sorted[2]);
            let ghost pre = h@;
            sort_by_rank_desc(&mut h);
            proof {
                assert(pre =~= seq![
                    hole_sorted@[0],
                    hole_sorted@[1],
                    board_sorted@[0],
                    board_sorted@[1],
                    board_sorted@[2],
                ]);
                lemma_two_hole_three_board(
                    h@,
                    pre,
                    hole_sorted@,
                    board_sorted@,
                    player_cards@,
                    board@,
                );
                lemma_picks_top_permutation(h@, hole_sorted@, player_cards@);
                lemma_picks_top_permutation(h@, board_sorted@, board@);
            }
            h
        },
        _ => take_cards(cards, 5),
    }
}

} // verus!
