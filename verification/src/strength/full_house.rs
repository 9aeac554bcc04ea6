//! Full-house detection: three of a kind plus a pair.

use crate::card::distinct_cards;
use crate::card::Card;
use crate::game::cards_of_rank;
use crate::game::copy_cards;
use crate::game::count_cards_of_rank;
use crate::game::count_eq_cond;
use crate::game::count_rank;
use crate::game::filter_rank;
use crate::game::find_top_rank_with_count;
use crate::game::hand_digits_ok;
use crate::game::lemma_count_rank_split;
use crate::game::lemma_pool_contains;
use crate::game::lemma_rank_value_range;
use crate::game::lemma_top_rank_sat;
use crate::game::rank_groups_wf;
use crate::game::sorted_desc;
use crate::game::take_cards;
use crate::game::top_rank_sat;
use crate::game::RankGroups;
use crate::GameType;
use vstd::prelude::*;

verus! {

broadcast use
    vstd::seq_lib::group_seq_properties,
    vstd::seq_lib::group_filter_ensures,
    Seq::lemma_filter_push,
    Seq::lemma_take_succ_push,
;

/// Under Omaha, rank `w` can complete a full house over trips of rank `v`:
/// the pool has a pair (or trips to borrow a pair from) of rank `w`, and a
/// two-card selection of rank `w` exists whose hole share brings the whole
/// hand to exactly two hole cards.
pub open spec fn omaha_fh_pair_cond(pool: Seq<Card>, hole: Seq<Card>, v: int) -> spec_fn(
    int,
) -> bool {
    |w: int|
        {
            &&& w != v
            &&& (count_rank(pool, w) == 2 || count_rank(pool, w) == 3)
            &&& count_rank(hole, w) + count_rank(hole, v) >= 2
            &&& count_rank(pool, w) - count_rank(hole, w) >= count_rank(hole, v)
        }
}

/// Under Omaha, rank `v` carries a full house: the pool holds exactly three
/// cards of it, at most two of them the player's, and some rank can complete
/// the pair under the composition rule.
pub open spec fn omaha_fh_cond(pool: Seq<Card>, hole: Seq<Card>) -> spec_fn(int) -> bool {
    |v: int|
        {
            &&& count_rank(pool, v) == 3
            &&& count_rank(hole, v) <= 2
            &&& top_rank_sat(omaha_fh_pair_cond(pool, hole, v), 15) != 0
        }
}

/// Detects a full house. Outside Omaha: the best rank counting exactly
/// three, completed by the next such rank's top two cards if there is one,
/// else by the best rank counting exactly two. Under Omaha: the best
/// qualifying trips rank, completed by the best rank that can supply a pair
/// while the whole hand keeps exactly two hole cards; the pair takes as many
/// hole cards as still allowed, the rest from the board.
pub fn get_full_house(
    game_type: GameType,
    rank_map: &RankGroups,
    cards: &Vec<Card>,
    player_cards: &Vec<Card>,
    board: &Vec<Card>,
) -> (r: Option<Vec<Card>>)
    requires
        sorted_desc(cards@),
        distinct_cards(cards@),
        rank_groups_wf(rank_map, cards@),
        cards@.len() >= 5,
        game_type == GameType::Omaha ==> cards@.to_multiset() == board@.to_multiset().add(
            player_cards@.to_multiset(),
        ) && board@.len() == 5 && player_cards@.len() == 4,
    ensures
        game_type != GameType::Omaha ==> ((r is Some) <==> ({
            let t = top_rank_sat(count_eq_cond(cards@, 3), 15);
            t != 0 && (top_rank_sat(count_eq_cond(cards@, 3), t) != 0 || top_rank_sat(
                count_eq_cond(cards@, 2),
                15,
            ) != 0)
        })),
        game_type != GameType::Omaha && r is Some ==> ({
            let t = top_rank_sat(count_eq_cond(cards@, 3), 15);
            let s3 = top_rank_sat(count_eq_cond(cards@, 3), t);
            let sp = top_rank_sat(count_eq_cond(cards@, 2), 15);
            r->0@ == cards_of_rank(cards@, t) + (if s3 != 0 {
                cards_of_rank(cards@, s3).take(2)
            } else {
                cards_of_rank(cards@, sp)
            })
        }),
        game_type == GameType::Omaha ==> ((r is Some) <==> top_rank_sat(
            omaha_fh_cond(cards@, player_cards@),
            15,
        ) != 0),
        game_type == GameType::Omaha && r is Some ==> ({
            let t = top_rank_sat(omaha_fh_cond(cards@, player_cards@), 15);
            let w = top_rank_sat(omaha_fh_pair_cond(cards@, player_cards@, t), 15);
            &&& r->0@.take(3) == cards_of_rank(cards@, t)
            &&& forall|k: int|
                3 <= k < 5 ==> cards@.contains(#[trigger] r->0@[k]) && r->0@[k].rank.spec_value()
                    == w
        }),
        r is Some ==> hand_digits_ok(r->0@),
{
    let is_omaha = match game_type {
        GameType::Omaha => true,
        _ => false,
    };
    if !is_omaha {
        let ghost cond3 = count_eq_cond(cards@, 3);
        let ghost cond2 = count_eq_cond(cards@, 2);
        let t = find_top_rank_with_count(rank_map, cards, 3, 15);
        proof {
            lemma_top_rank_sat(cond3, 15);
            lemma_rank_value_range();
        }
        if t == 0 {
            return None;
        }
        proof {
            assert(cond3(t as int));
        }
        let s3 = find_top_rank_with_count(rank_map, cards, 3, t);
        let sp = find_top_rank_with_count(rank_map, cards, 2, 15);
        proof {
            lemma_top_rank_sat(cond3, t as int);
            lemma_top_rank_sat(cond2, 15);
        }
        if s3 == 0 && sp == 0 {
            return None;
        }
        let grp = &rank_map.groups[t as usize];
        let mut hand = copy_cards(grp);
        if s3 != 0 {
            proof {
                assert(cond3(s3 as int));
            }
            let second = &rank_map.groups[s3 as usize];
            let mut two = take_cards(second, 2);
            hand.append(&mut two);
            let res = Some(hand);
            proof {
                fh_digits(res->0@, cards@, t as int, s3 as int);
            }
            return res;
        }
        proof {
            assert(cond2(sp as int));
        }
        let second = &rank_map.groups[sp as usize];
        let mut two = copy_cards(second);
        hand.append(&mut two);
        let res = Some(hand);
        proof {
            assert(cards_of_rank(cards@, sp as int).take(2) =~= cards_of_rank(cards@, sp as int));
            fh_digits(res->0@, cards@, t as int, sp as int);
        }
        return res;
    }
    // Omaha: best trips rank with a compatible pair rank
    let ghost ocond = omaha_fh_cond(cards@, player_cards@);
    let mut v: u8 = 14;
    while v >= 2
        invariant
            1 <= v <= 14,
            game_type == GameType::Omaha,
            sorted_desc(cards@),
            distinct_cards(cards@),
            rank_groups_wf(rank_map, cards@),
            cards@.len() >= 5,
            cards@.to_multiset() == board@.to_multiset().add(player_cards@.to_multiset()),
            board@.len() == 5,
            player_cards@.len() == 4,
            ocond == omaha_fh_cond(cards@, player_cards@),
            top_rank_sat(ocond, 15) == top_rank_sat(ocond, v + 1),
        decreases v,
    {
        let hv = count_cards_of_rank(player_cards, v);
        if rank_map.groups[v as usize].len() == 3 && hv <= 2 {
            let ghost pcond = omaha_fh_pair_cond(cards@, player_cards@, v as int);
            let mut w: u8 = 14;
            while w >= 2
                invariant
                    1 <= w <= 14,
                    2 <= v <= 14,
                    game_type == GameType::Omaha,
                    sorted_desc(cards@),
                    distinct_cards(cards@),
                    rank_groups_wf(rank_map, cards@),
                    cards@.len() >= 5,
                    cards@.to_multiset() == board@.to_multiset().add(player_cards@.to_multiset()),
                    board@.len() == 5,
                    player_cards@.len() == 4,
                    hv == count_rank(player_cards@, v as int),
                    count_rank(cards@, v as int) == 3,
                    hv <= 2,
                    pcond == omaha_fh_pair_cond(cards@, player_cards@, v as int),
                    ocond == omaha_fh_cond(cards@, player_cards@),
                    top_rank_sat(ocond, 15) == top_rank_sat(ocond, v + 1),
                    top_rank_sat(pcond, 15) == top_rank_sat(pcond, w + 1),
                decreases w,
            {
                let nw = rank_map.groups[w as usize].len();
                let hw = count_cards_of_rank(player_cards, w);
                if w != v && (nw == 2 || nw == 3) && hw + hv >= 2 && nw >= hw + hv {
                    proof {
                        assert(rank_map.groups@[w as int]@ == cards_of_rank(cards@, w as int));
                        assert(count_rank(cards@, w as int) == nw);
                        assert(count_rank(player_cards@, w as int) == hw);
                        assert(pcond(w as int));
                        lemma_top_rank_sat(pcond, 15);
                        assert(ocond(v as int)) by {
                            assert(top_rank_sat(pcond, 15) != 0);
                        }
                        lemma_top_rank_sat(ocond, 15);
                        lemma_rank_value_range();
                        lemma_count_rank_split(cards@, player_cards@, board@, w as int);
                        lemma_pool_contains(cards@, player_cards@, board@);
                    }
                    let grp = &rank_map.groups[v as usize];
                    let mut hand = copy_cards(grp);
                    let need_hole: usize = 2 - hv;
                    let hole_w = filter_rank(player_cards, w);
                    let board_w = filter_rank(board, w);
                    let mut k: usize = 0;
                    while k < need_hole
                        invariant
                            k <= need_hole <= 2,
                            need_hole <= hole_w@.len(),
                            hand@.len() == 3 + k,
                            forall|j: int| 3 <= j < hand@.len() ==> hand@[j] == hole_w@[j - 3],
                            forall|j: int| 0 <= j < 3 ==> hand@[j] == hand@.take(3)[j],
                            hand@.take(3) == cards_of_rank(cards@, v as int),
                        decreases need_hole - k,
                    {
                        hand.push(hole_w[k]);
                        proof {
                            assert(hand@.take(3) =~= hand@.drop_last().take(3));
                        }
                        k += 1;
                    }
                    let mut k2: usize = 0;
                    while k2 < 2 - need_hole
                        invariant
                            k2 <= 2 - need_hole,
                            need_hole <= 2,
                            need_hole <= hole_w@.len(),
                            2 - need_hole <= board_w@.len(),
                            hand@.len() == 3 + need_hole + k2,
                            forall|j: int|
                                3 <= j < 3 + need_hole ==> hand@[j] == hole_w@[j - 3],
                            forall|j: int|
                                3 + need_hole <= j < hand@.len() ==> hand@[j] == board_w@[j - 3
                                    - need_hole],
                            hand@.take(3) == cards_of_rank(cards@, v as int),
                        decreases 2 - need_hole - k2,
                    {
                        hand.push(board_w[k2]);
                        proof {
                            assert(hand@.take(3) =~= hand@.drop_last().take(3));
                        }
                        k2 += 1;
                    }
                    let res = Some(hand);
                    proof {
                        let pv = |c: Card| c.rank.spec_value() == v as int;
                        let pw = |c: Card| c.rank.spec_value() == w as int;
                        assert forall|j: int| 3 <= j < 5 implies cards@.contains(
                            #[trigger] res->0@[j],
                        ) && res->0@[j].rank.spec_value() == w as int by {
                            if j < 3 + need_hole {
                                player_cards@.lemma_filter_pred(pw, j - 3);
                                assert(hole_w@.contains(hole_w@[j - 3])) by {
                                    assert(hole_w@[j - 3] == hole_w@[j - 3]);
                                }
                                player_cards@.lemma_filter_contains_rev(pw, hole_w@[j - 3]);
                            } else {
                                board@.lemma_filter_pred(pw, j - 3 - need_hole);
                                assert(board_w@.contains(board_w@[j - 3 - need_hole])) by {
                                    assert(board_w@[j - 3 - need_hole] == board_w@[j - 3
                                        - need_hole]);
                                }
                                board@.lemma_filter_contains_rev(pw, board_w@[j - 3 - need_hole]);
                            }
                        }
                        assert(hand_digits_ok(res->0@)) by {
                            assert forall|k3: int|
                                0 <= k3 < 3 implies (#[trigger] res->0@[
                            k3]).rank.spec_value() == v as int by {
                                assert(res->0@[k3] == res->0@.take(3)[k3]);
                                cards@.lemma_filter_pred(pv, k3);
                            }
                        }
                    }
                    return res;
                }
                proof {
                    assert(!pcond(w as int));
                }
                w -= 1;
            }
            proof {
                lemma_top_rank_sat(pcond, 15);
                assert(top_rank_sat(pcond, 2) == 0);
                assert(!ocond(v as int));
            }
        } else {
            proof {
                assert(!ocond(v as int));
            }
        }
        v -= 1;
    }
    proof {
        lemma_top_rank_sat(ocond, 15);
        assert(top_rank_sat(ocond, 2) == 0);
    }
    None
}

/// The digits of a texas-style full house are in range.
proof fn fh_digits(h: Seq<Card>, pool: Seq<Card>, t: int, s: int)
    requires
        2 <= t <= 14,
        2 <= s <= 14,
        h.len() == 5,
        h.take(3) == cards_of_rank(pool, t) || h == cards_of_rank(pool, t) + cards_of_rank(
            pool,
            s,
        ).take(2) || h == cards_of_rank(pool, t) + cards_of_rank(pool, s),
        count_rank(pool, t) == 3,
        h == cards_of_rank(pool, t) + cards_of_rank(pool, s).take(2) || h == cards_of_rank(pool, t)
            + cards_of_rank(pool, s),
    ensures
        hand_digits_ok(h),
{
    broadcast use vstd::seq_lib::group_seq_properties;
    broadcast use vstd::seq_lib::group_filter_ensures;

    lemma_rank_value_range();
    assert forall|k: int| 0 <= k < 3 implies (#[trigger] h[k]).rank.spec_value() == t by {
        assert(h[k] == cards_of_rank(pool, t)[k]);
        pool.lemma_filter_pred(|c: Card| c.rank.spec_value() == t, k);
    }
}

} // verus!
