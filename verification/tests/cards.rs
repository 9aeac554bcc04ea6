//! Card model tests: parsing, formatting and deck generation.

use poker_odds_calc::Card;
use poker_odds_calc::Cards;
use poker_odds_calc::GameType;
use poker_odds_calc::Rank;
use poker_odds_calc::Suit;

#[test]
fn can_parse_card() {
    assert_eq!(
        Card {
            rank: Rank::Ace,
            suit: Suit::Clubs
        },
        Card::from_str("Ac").unwrap()
    );
}

#[test]
fn can_get_rank_value() {
    assert_eq!(Rank::Ace.value(), 14);
}

#[test]
fn can_parse_cards() {
    let parsed = Cards::from_str("Ac2c").unwrap();
    assert_eq!(
        parsed.cards,
        vec![
            Card {
                rank: Rank::Ace,
                suit: Suit::Clubs
            },
            Card {
                rank: Rank::Two,
                suit: Suit::Clubs
            },
        ]
    );
}

#[test]
fn parse_is_case_insensitive() {
    assert_eq!(
        Card::from_str("aC").unwrap(),
        Card {
            rank: Rank::Ace,
            suit: Suit::Clubs
        }
    );
    assert_eq!(
        Card::from_cards_str("tHkS").unwrap(),
        Card::from_cards_str("Th").unwrap()
            .into_iter()
            .chain(Card::from_cards_str("Ks").unwrap())
            .collect::<Vec<Card>>()
    );
}

#[test]
fn parse_rejects_wrong_size() {
    assert_eq!(
        Card::from_str("Ac2"),
        Err("Wrong size! Expected to receive 2 chars")
    );
    assert_eq!(
        Card::from_cards_str("Ac2"),
        Err("Wrong size! Expected to receive 2 chars")
    );
}

#[test]
fn parse_rejects_unknown_rank() {
    assert_eq!(Card::from_str("Xc"), Err("No match for Rank found"));
}

#[test]
fn parse_rejects_unknown_suit() {
    assert_eq!(Card::from_str("Ax"), Err("No match for Suit found"));
}

#[test]
fn all_cards_is_52_unique() {
    let deck = Card::get_all_cards();
    assert_eq!(deck.len(), 52);
    for i in 0..deck.len() {
        for j in 0..i {
            assert_ne!(deck[i], deck[j]);
        }
    }
}

#[test]
fn short_deck_is_36_unique_above_five() {
    let deck = Card::get_short_deck_cards();
    assert_eq!(deck.len(), 36);
    for i in 0..deck.len() {
        assert!(deck[i].rank.value() > 5);
        for j in 0..i {
            assert_ne!(deck[i], deck[j]);
        }
    }
}

#[test]
fn cards_round_trip() {
    let deck = Card::get_all_cards();
    let text = Card::to_cards_str(&deck);
    assert_eq!(Card::from_cards_str(&text).unwrap(), deck);
    let some = Card::from_cards_str("Ac2c9dTs").unwrap();
    assert_eq!(Card::to_cards_str(&some), "Ac2c9dTs");
}

#[test]
fn game_type_tokens() {
    assert_eq!(GameType::from_str("texas_holdem"), Ok(GameType::TexasHoldem));
    assert_eq!(
        GameType::from_str("shortdeck_holdem"),
        Ok(GameType::ShortdeckHoldem)
    );
    assert_eq!(GameType::from_str("omaha"), Ok(GameType::Omaha));
    assert_eq!(GameType::from_str("stud"), Err("no match"));
}
