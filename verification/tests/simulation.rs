//! Simulation engine tests: exhaustive regressions, sampling behaviour and
//! aggregate invariants.

use poker_odds_calc::merge_player_results;
use poker_odds_calc::Card;
use poker_odds_calc::Cards;
use poker_odds_calc::GameType;
use poker_odds_calc::HandCombination;
use poker_odds_calc::Table;

fn hand(s: &str) -> Cards {
    Cards {
        cards: Card::from_cards_str(s).unwrap(),
    }
}

#[test]
fn can_get_result() {
    let table = Table::new(
        vec![hand("AcAd"), hand("AcAd")],
        Card::from_cards_str("As6s5s4s3s").unwrap(),
        vec![],
    );
    println!(
        "{:#?}",
        table.get_results(GameType::TexasHoldem, 10000, false, false)
    );
}

#[test]
fn can_get_correct_result() {
    let table = Table::new(
        vec![hand("AdKc"), hand("Ac7c")],
        Card::from_cards_str("2s3s4s5s").unwrap(),
        vec![],
    );
    let result = table.get_results(GameType::TexasHoldem, 10000, false, false);
    assert_eq!(
        result.player_results[0].rank_count(HandCombination::Straight),
        35u64
    );
}

#[test]
fn can_get_correct_result_2() {
    let table = Table::new(
        vec![hand("AdKc"), hand("Ac7c")],
        Card::from_cards_str("2s3s4s5s6c").unwrap(),
        vec![],
    );
    let result = table.get_results(GameType::TexasHoldem, 10000, false, false);
    assert_eq!(result.player_results[1].wins, 1);
}

#[test]
fn exhaustive_run_covers_all_completions() {
    // one missing card: 52 - 4 hole - 4 board = 44 boards
    let table = Table::new(
        vec![hand("AdKc"), hand("Ac7c")],
        Card::from_cards_str("2s3s4s5s").unwrap(),
        vec![],
    );
    let result = table.get_results(GameType::TexasHoldem, 10000, false, false);
    assert!(!result.approximate);
    assert_eq!(result.iterations, 44);
    for pr in &result.player_results {
        assert!(pr.wins + pr.ties <= result.iterations);
        let total: u64 = pr.ranks.iter().sum();
        assert_eq!(total, result.iterations);
    }
}

#[test]
fn approximate_run_respects_limit() {
    // an empty board leaves far more than 100 completions
    let table = Table::new(vec![hand("AdKc"), hand("Ac7c")], vec![], vec![]);
    let result = table.get_results(GameType::TexasHoldem, 100, false, false);
    assert!(result.approximate);
    assert_eq!(result.iterations, 100);
    for pr in &result.player_results {
        assert!(pr.wins + pr.ties <= result.iterations);
        let total: u64 = pr.ranks.iter().sum();
        assert_eq!(total, result.iterations);
    }
}

#[test]
fn seeded_runs_are_deterministic() {
    let table = Table::new(vec![hand("AdKc"), hand("Ac7c")], vec![], vec![]);
    let mut rng1 = poker_odds_calc::rng_from_seed(7);
    let mut rng2 = poker_odds_calc::rng_from_seed(7);
    let r1 = table.get_results_with_rng(GameType::TexasHoldem, 200, false, false, &mut rng1);
    let r2 = table.get_results_with_rng(GameType::TexasHoldem, 200, false, false, &mut rng2);
    assert_eq!(r1.player_results[0].wins, r2.player_results[0].wins);
    assert_eq!(r1.player_results[0].ties, r2.player_results[0].ties);
    assert_eq!(r1.player_results[1].wins, r2.player_results[1].wins);
}

#[test]
fn exhaustive_flag_forces_enumeration() {
    // 2 missing cards from 45: 990 completions, over the limit of 10
    let table = Table::new(
        vec![hand("AdKc"), hand("Ac7c")],
        Card::from_cards_str("2s3s4s").unwrap(),
        vec![],
    );
    let result = table.get_results(GameType::TexasHoldem, 10, false, true);
    assert!(!result.approximate);
    assert_eq!(result.iterations, 990);
}

#[test]
fn dead_cards_shrink_the_pool() {
    let table = Table::new(
        vec![hand("AdKc"), hand("Ac7c")],
        Card::from_cards_str("2s3s4s5s").unwrap(),
        Card::from_cards_str("6c6d").unwrap(),
    );
    let result = table.get_results(GameType::TexasHoldem, 10000, false, false);
    assert!(!result.approximate);
    assert_eq!(result.iterations, 42);
}

#[test]
fn validate_accepts_and_rejects() {
    let good = Table::new(
        vec![hand("AdKc"), hand("Ac7c")],
        Card::from_cards_str("2s3s4s5s").unwrap(),
        vec![],
    );
    assert!(good.validate(GameType::TexasHoldem));
    // a hole card repeated on the board
    let overlap = Table::new(
        vec![hand("AdKc")],
        Card::from_cards_str("Ad3s4s").unwrap(),
        vec![],
    );
    assert!(!overlap.validate(GameType::TexasHoldem));
    // wrong hand size for the variant
    let short_hand = Table::new(vec![hand("AdKc")], vec![], vec![]);
    assert!(!short_hand.validate(GameType::Omaha));
}

#[test]
fn shortdeck_trips_flag_swaps_precedence() {
    // player 1 holds trips, player 2 a straight, on a short-deck board
    let table = Table::new(
        vec![hand("9c9d"), hand("Td8d")],
        Card::from_cards_str("9s7h6hTsAh").unwrap(),
        vec![],
    );
    let plain = table.get_results(GameType::ShortdeckHoldem, 10, false, false);
    assert_eq!(plain.player_results[1].wins, 1);
    let flagged = table.get_results(GameType::ShortdeckHoldem, 10, true, false);
    assert_eq!(flagged.player_results[0].wins, 1);
}

#[test]
fn omaha_uses_two_hole_cards() {
    // four suited hole cards make a flush only when the board supplies three
    // of the suit
    let table = Table::new(
        vec![hand("AcKcQcJc"), hand("TdTh8d8h")],
        Card::from_cards_str("2c3c9c5d6s").unwrap(),
        vec![],
    );
    let result = table.get_results(GameType::Omaha, 10, false, false);
    assert_eq!(result.iterations, 1);
    assert_eq!(result.player_results[0].rank_count(HandCombination::Flush), 1);
    // and with only two clubs on the board, no flush
    let table2 = Table::new(
        vec![hand("AcKcQcJc"), hand("TdTh8d8h")],
        Card::from_cards_str("2c3c9d5d6s").unwrap(),
        vec![],
    );
    let r2 = table2.get_results(GameType::Omaha, 10, false, false);
    assert_eq!(r2.player_results[0].rank_count(HandCombination::Flush), 0);
}

#[test]
fn merge_adds_counterwise() {
    let table = Table::new(
        vec![hand("AdKc"), hand("Ac7c")],
        Card::from_cards_str("2s3s4s5s").unwrap(),
        vec![],
    );
    let a = table.get_results(GameType::TexasHoldem, 10000, false, false);
    let b = table.get_results(GameType::TexasHoldem, 10000, false, false);
    let m1 = merge_player_results(&a.player_results[0], &b.player_results[0]);
    let m2 = merge_player_results(&b.player_results[0], &a.player_results[0]);
    assert_eq!(m1.wins, a.player_results[0].wins + b.player_results[0].wins);
    assert_eq!(m1.ties, m2.ties);
    assert_eq!(m1.ranks, m2.ranks);
    let total: u64 = m1.ranks.iter().sum();
    assert_eq!(total, a.iterations + b.iterations);
}
