//! Hand-category detector tests.

use poker_odds_calc::get_flush;
use poker_odds_calc::get_full_house;
use poker_odds_calc::get_high_cards;
use poker_odds_calc::get_one_pair;
use poker_odds_calc::get_quads;
use poker_odds_calc::get_straight;
use poker_odds_calc::get_straight_flush;
use poker_odds_calc::get_three_of_a_kind;
use poker_odds_calc::get_two_pairs;
use poker_odds_calc::group_by_rank;
use poker_odds_calc::group_by_suit;
use poker_odds_calc::Card;
use poker_odds_calc::GameType;

fn cards(s: &str) -> Vec<Card> {
    Card::from_cards_str(s).unwrap()
}

#[test]
fn can_get_flush() {
    let pool = cards("9c7c6c5c4c");
    let suit_map = group_by_suit(&pool);
    assert_eq!(
        get_flush(GameType::TexasHoldem, &suit_map, &vec![], &vec![]),
        Some(cards("9c7c6c5c4c"))
    );
}

#[test]
fn cannot_get_flush_bad_cards() {
    let pool = cards("8c7c6c5c2h");
    let suit_map = group_by_suit(&pool);
    assert_eq!(
        get_flush(GameType::TexasHoldem, &suit_map, &vec![], &vec![]),
        None
    );
}

#[test]
fn can_get_full_house() {
    let pool = cards("AcAd2d2c2h");
    let rank_map = group_by_rank(&pool);
    assert_eq!(
        get_full_house(
            GameType::TexasHoldem,
            &rank_map,
            &pool,
            &cards("8h7c"),
            &vec![]
        ),
        Some(cards("2d2c2hAcAd"))
    );
}

#[test]
fn can_get_full_house_omaha() {
    let pool = cards("AcAd2d2c2h");
    let rank_map = group_by_rank(&pool);
    assert_eq!(
        get_full_house(
            GameType::Omaha,
            &rank_map,
            &pool,
            &cards("AcAd4d5d"),
            &vec![]
        ),
        Some(cards("2d2c2hAcAd"))
    );
}

#[test]
fn cannot_get_full_house_omaha() {
    let pool = cards("AcAd2d2c2h");
    let rank_map = group_by_rank(&pool);
    assert_eq!(
        get_full_house(GameType::Omaha, &rank_map, &pool, &cards("Ad4d5d"), &vec![]),
        None
    );
}

#[test]
fn cannot_get_full_bad_cards() {
    let pool = cards("AcAd3d2c2h");
    let rank_map = group_by_rank(&pool);
    assert_eq!(
        get_full_house(
            GameType::TexasHoldem,
            &rank_map,
            &pool,
            &cards("8h7c"),
            &vec![]
        ),
        None
    );
}

#[test]
fn can_get_high_cards() {
    assert_eq!(
        get_high_cards(
            GameType::TexasHoldem,
            &cards("8h7c6c5c4d4c2c"),
            &cards("8h7c"),
            &cards("4d4c2c")
        ),
        cards("8h7c6c5c4d")
    );
}

#[test]
fn can_get_high_cards_omaha() {
    assert_eq!(
        get_high_cards(
            GameType::Omaha,
            &cards("8h7c6c5c4d4c2c"),
            &cards("8h7c6c"),
            &cards("4d4c2c")
        ),
        cards("8h7c4d4c2c")
    );
}

#[test]
fn can_get_one_pair() {
    let pool = cards("AcAd7d6d3c2h");
    let rank_map = group_by_rank(&pool);
    assert_eq!(
        get_one_pair(
            GameType::TexasHoldem,
            &pool,
            &rank_map,
            &cards("AcAd"),
            &cards("6d3c2h")
        ),
        Some(cards("AcAd7d6d3c"))
    );
}

#[test]
fn can_get_quads() {
    let pool = cards("AcAd2h2c2d2s");
    let rank_map = group_by_rank(&pool);
    assert_eq!(
        get_quads(
            GameType::TexasHoldem,
            &pool,
            &rank_map,
            &cards("2h2c"),
            &cards("2d2sAcAd")
        ),
        Some(cards("2h2c2d2sAc"))
    );
}

#[test]
fn cannot_get_quads() {
    let pool = cards("AcAd6d3c2h");
    let rank_map = group_by_rank(&pool);
    assert_eq!(
        get_quads(
            GameType::TexasHoldem,
            &pool,
            &rank_map,
            &cards("AcAd"),
            &cards("6d3c2h")
        ),
        None
    );
}

#[test]
fn straight_can_get_straight_flush() {
    assert_eq!(
        get_straight(GameType::TexasHoldem, &cards("8h7c6c5c4d")),
        Some(cards("8h7c6c5c4d"))
    );
}

#[test]
fn straight_can_get_straight_flush_bad_cards() {
    assert_eq!(get_straight(GameType::TexasHoldem, &cards("Ac7c6c5c4c")), None);
}

#[test]
fn straight_flush_can_get_straight_flush() {
    let pool = cards("8c7c6c5c4c");
    let suit_map = group_by_suit(&pool);
    assert_eq!(
        get_straight_flush(GameType::TexasHoldem, &suit_map, &vec![]),
        Some(cards("4c5c6c7c8c"))
    );
}

#[test]
fn straight_flush_can_get_straight_flush_bad_cards() {
    let pool = cards("Tc8c7c6c5c");
    let suit_map = group_by_suit(&pool);
    assert_eq!(
        get_straight_flush(GameType::TexasHoldem, &suit_map, &vec![]),
        None
    );
}

#[test]
fn can_get_straight_flush_low_ace() {
    let pool = cards("Ac5c4c3c2c");
    let suit_map = group_by_suit(&pool);
    assert_eq!(
        get_straight_flush(GameType::TexasHoldem, &suit_map, &vec![]),
        Some(cards("2c3c4c5cAc"))
    );
}

#[test]
fn can_get_straight_flush_low_ace_short_deck() {
    let pool = cards("Ac9c8c7c6c");
    let suit_map = group_by_suit(&pool);
    assert_eq!(
        get_straight_flush(GameType::ShortdeckHoldem, &suit_map, &vec![]),
        Some(cards("6c7c8c9cAc"))
    );
}

#[test]
fn can_get_three_of_a_kind() {
    let pool = cards("AcAd3h2h2c2d");
    let rank_map = group_by_rank(&pool);
    assert_eq!(
        get_three_of_a_kind(
            GameType::TexasHoldem,
            &pool,
            &rank_map,
            &cards("2h2c"),
            &cards("AcAd3h2d2s")
        ),
        Some(cards("2h2c2dAcAd"))
    );
}

#[test]
fn cannot_get_three_of_a_kind() {
    let pool = cards("AcAd7d2d2c");
    let rank_map = group_by_rank(&pool);
    assert_eq!(
        get_three_of_a_kind(
            GameType::TexasHoldem,
            &pool,
            &rank_map,
            &cards("AcAd"),
            &cards("7d2d2c")
        ),
        None
    );
}

#[test]
fn can_get_two_pairs() {
    let pool = cards("AcAd6d5c2h2c");
    let rank_map = group_by_rank(&pool);
    assert_eq!(
        get_two_pairs(
            GameType::TexasHoldem,
            &pool,
            &rank_map,
            &cards("AcAd"),
            &cards("6d3c2h")
        ),
        Some(cards("AcAd2h2c6d"))
    );
}

#[test]
fn wheel_straight_uses_low_ace() {
    // the wheel scores below every other straight: its Ace plays low
    let wheel = get_straight(GameType::TexasHoldem, &cards("AdKc5s4s3s2s")).unwrap();
    assert_eq!(wheel.len(), 5);
    assert_eq!(wheel[0].rank.value(), 5);
    assert_eq!(wheel[4].rank.value(), 1);
    assert_eq!(wheel[4].suit, poker_odds_calc::Suit::Diamonds);
}

#[test]
fn higher_category_always_outscores() {
    // a flush against a straight: the flush must score higher whatever the
    // kickers
    let flush = poker_odds_calc::get_hand_strength(
        GameType::TexasHoldem,
        &cards("2c5c7c9cKs"),
        &cards("3c4d"),
        false,
    );
    let straight = poker_odds_calc::get_hand_strength(
        GameType::TexasHoldem,
        &cards("TsJdQcKsAh"),
        &cards("2c3d"),
        false,
    );
    assert_eq!(flush.hand_combination, poker_odds_calc::HandCombination::Flush);
    assert_eq!(
        straight.hand_combination,
        poker_odds_calc::HandCombination::Straight
    );
    assert!(flush.points > straight.points);
}

#[test]
fn high_cards_is_the_fallback() {
    let junk = poker_odds_calc::get_hand_strength(
        GameType::TexasHoldem,
        &cards("2c5d7h9sJc"),
        &cards("Kd3h"),
        false,
    );
    assert_eq!(
        junk.hand_combination,
        poker_odds_calc::HandCombination::HighCards
    );
    let royal = poker_odds_calc::get_hand_strength(
        GameType::TexasHoldem,
        &cards("TsJsQsKsAs"),
        &cards("2c3d"),
        false,
    );
    assert_eq!(
        royal.hand_combination,
        poker_odds_calc::HandCombination::RoyalFlush
    );
    assert!(royal.points > junk.points);
}
