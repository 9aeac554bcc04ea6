//! The card model: suits, ranks, cards, deck generation and the compact
//! two-character card notation.

use vstd::arithmetic::div_mod::lemma_fundamental_div_mod;
use vstd::prelude::*;

verus! {

/// One of the four suits. Suits carry no ordering.
#[derive(Debug, PartialEq, Clone, Copy, Eq, Hash, Structural)]
pub enum Suit {
    Hearts,
    Clubs,
    Diamonds,
    Spades,
}

/// A card rank on the 2..14 scale, where 14 is the Ace. `LowAce` stands for an
/// Ace played low at the bottom of a wheel straight; it is never part of a deck
/// and never parsed, it only appears in scored five-card hands.
#[derive(Debug, PartialEq, Clone, Copy, Eq, Hash, Structural)]
pub enum Rank {
    LowAce,
    Two,
    Three,
    Four,
    Five,
    Six,
    Seven,
    Eight,
    Nine,
    Ten,
    Jack,
    Queen,
    King,
    Ace,
}

impl Rank {
    /// The numeric value of the rank, on the 1..14 scale used by the scorer.
    pub open spec fn spec_value(self) -> u8 {
        match self {
            Rank::LowAce => 1,
            Rank::Two => 2,
            Rank::Three => 3,
            Rank::Four => 4,
            Rank::Five => 5,
            Rank::Six => 6,
            Rank::Seven => 7,
            Rank::Eight => 8,
            Rank::Nine => 9,
            Rank::Ten => 10,
            Rank::Jack => 11,
            Rank::Queen => 12,
            Rank::King => 13,
            Rank::Ace => 14,
        }
    }

    /// Executable twin of `spec_value`.
    #[verifier::when_used_as_spec(spec_value)]
    pub fn value(self) -> (v: u8)
        ensures
            v == self.spec_value(),
    {
        match self {
            Rank::LowAce => 1,
            Rank::Two => 2,
            Rank::Three => 3,
            Rank::Four => 4,
            Rank::Five => 5,
            Rank::Six => 6,
            Rank::Seven => 7,
            Rank::Eight => 8,
            Rank::Nine => 9,
            Rank::Ten => 10,
            Rank::Jack => 11,
            Rank::Queen => 12,
            Rank::King => 13,
            Rank::Ace => 14,
        }
    }
}

/// The rank whose value is `v`, for `v` in 1..=14.
pub open spec fn rank_of_value(v: int) -> Rank {
    if v == 1 {
        Rank::LowAce
    } else if v == 2 {
        Rank::Two
    } else if v == 3 {
        Rank::Three
    } else if v == 4 {
        Rank::Four
    } else if v == 5 {
        Rank::Five
    } else if v == 6 {
        Rank::Six
    } else if v == 7 {
        Rank::Seven
    } else if v == 8 {
        Rank::Eight
    } else if v == 9 {
        Rank::Nine
    } else if v == 10 {
        Rank::Ten
    } else if v == 11 {
        Rank::Jack
    } else if v == 12 {
        Rank::Queen
    } else if v == 13 {
        Rank::King
    } else {
        Rank::Ace
    }
}

/// Executable twin of `rank_of_value`; out-of-range values fall back to Ace,
/// as in the spec.
pub fn rank_from_value(v: u8) -> (r: Rank)
    ensures
        r == rank_of_value(v as int),
{
    if v == 1 {
        Rank::LowAce
    } else if v == 2 {
        Rank::Two
    } else if v == 3 {
        Rank::Three
    } else if v == 4 {
        Rank::Four
    } else if v == 5 {
        Rank::Five
    } else if v == 6 {
        Rank::Six
    } else if v == 7 {
        Rank::Seven
    } else if v == 8 {
        Rank::Eight
    } else if v == 9 {
        Rank::Nine
    } else if v == 10 {
        Rank::Ten
    } else if v == 11 {
        Rank::Jack
    } else if v == 12 {
        Rank::Queen
    } else if v == 13 {
        Rank::King
    } else {
        Rank::Ace
    }
}

pub proof fn lemma_rank_of_value_inverse()
    ensures
        forall|v: int| 1 <= v <= 14 ==> rank_of_value(v).spec_value() == v,
        forall|r: Rank| rank_of_value(r.spec_value() as int) == r,
{
}

/// Distinct ranks have distinct values.
pub proof fn lemma_rank_value_injective()
    ensures
        forall|r1: Rank, r2: Rank|
            #[trigger] r1.spec_value() == #[trigger] r2.spec_value() ==> r1 == r2,
{
}

/// The position of a suit in the deck-generation order.
pub open spec fn suit_index(s: Suit) -> int {
    match s {
        Suit::Hearts => 0,
        Suit::Clubs => 1,
        Suit::Diamonds => 2,
        Suit::Spades => 3,
    }
}

/// The suit at position `i` of the deck-generation order, for `i` in 0..4.
pub open spec fn suit_of_index(i: int) -> Suit {
    if i == 0 {
        Suit::Hearts
    } else if i == 1 {
        Suit::Clubs
    } else if i == 2 {
        Suit::Diamonds
    } else {
        Suit::Spades
    }
}

/// Executable twin of `suit_of_index`; out-of-range values fall back to
/// Spades, as in the spec.
pub fn suit_from_index(i: usize) -> (s: Suit)
    ensures
        s == suit_of_index(i as int),
{
    if i == 0 {
        Suit::Hearts
    } else if i == 1 {
        Suit::Clubs
    } else if i == 2 {
        Suit::Diamonds
    } else {
        Suit::Spades
    }
}

/// A playing card: a (suit, rank) pair, immutable once constructed.
#[derive(Debug, PartialEq, Eq, Clone, Copy, Hash, Structural)]
pub struct Card {
    pub suit: Suit,
    pub rank: Rank,
}

/// A card that can be part of a deck: any rank but the synthetic low Ace.
pub open spec fn deck_card(c: Card) -> bool {
    c.rank != Rank::LowAce
}

/// No card occurs twice in the sequence.
pub open spec fn distinct_cards(s: Seq<Card>) -> bool {
    forall|i: int, j: int| 0 <= i < j < s.len() ==> s[i] != s[j]
}

/// The card at position `k` of the full 52-card deck.
pub open spec fn full_deck_card(k: int) -> Card {
    Card { suit: suit_of_index(k / 13), rank: rank_of_value(2 + k % 13) }
}

/// The card at position `k` of the 36-card short deck (ranks 6..14).
pub open spec fn short_deck_card(k: int) -> Card {
    Card { suit: suit_of_index(k / 9), rank: rank_of_value(6 + k % 9) }
}

impl Card {
    /// The full deck: exactly the 52 distinct cards, one per suit/rank pair.
    pub fn get_all_cards() -> (deck: Vec<Card>)
        ensures
            deck@.len() == 52,
            forall|k: int| 0 <= k < 52 ==> deck@[k] == full_deck_card(k),
            distinct_cards(deck@),
            forall|k: int| 0 <= k < 52 ==> deck_card(#[trigger] deck@[k]),
            forall|c: Card| deck_card(c) ==> deck@.contains(c),
    {
        let mut deck: Vec<Card> = Vec::new();
        let mut k: usize = 0;
        while k < 52
            invariant
                k <= 52,
                deck@.len() == k,
                forall|i: int| 0 <= i < k ==> deck@[i] == full_deck_card(i),
            decreases 52 - k,
        {
            let suit = suit_from_index(k / 13);
            let rank = rank_from_value(2 + (k % 13) as u8);
            deck.push(Card { suit, rank });
            k += 1;
        }
        proof {
            lemma_full_deck_distinct(deck@);
            lemma_full_deck_complete(deck@);
        }
        deck
    }

    /// The short deck: exactly the 36 distinct cards of rank greater than 5.
    pub fn get_short_deck_cards() -> (deck: Vec<Card>)
        ensures
            deck@.len() == 36,
            forall|k: int| 0 <= k < 36 ==> deck@[k] == short_deck_card(k),
            distinct_cards(deck@),
            forall|k: int| 0 <= k < 36 ==> deck_card(#[trigger] deck@[k]),
            forall|k: int| 0 <= k < 36 ==> (#[trigger] deck@[k]).rank.spec_value() > 5,
            forall|c: Card| deck_card(c) && c.rank.spec_value() > 5 ==> deck@.contains(c),
    {
        let mut deck: Vec<Card> = Vec::new();
        let mut k: usize = 0;
        while k < 36
            invariant
                k <= 36,
                deck@.len() == k,
                forall|i: int| 0 <= i < k ==> deck@[i] == short_deck_card(i),
            decreases 36 - k,
        {
            let suit = suit_from_index(k / 9);
            let rank = rank_from_value(6 + (k % 9) as u8);
            deck.push(Card { suit, rank });
            k += 1;
        }
        proof {
            lemma_short_deck_distinct(deck@);
            lemma_short_deck_complete(deck@);
        }
        deck
    }
}

/// The rank a notation character stands for; case-insensitive.
pub open spec fn rank_of_char(c: char) -> Option<Rank> {
    if c == '2' {
        Some(Rank::Two)
    } else if c == '3' {
        Some(Rank::Three)
    } else if c == '4' {
        Some(Rank::Four)
    } else if c == '5' {
        Some(Rank::Five)
    } else if c == '6' {
        Some(Rank::Six)
    } else if c == '7' {
        Some(Rank::Seven)
    } else if c == '8' {
        Some(Rank::Eight)
    } else if c == '9' {
        Some(Rank::Nine)
    } else if c == 't' || c == 'T' {
        Some(Rank::Ten)
    } else if c == 'j' || c == 'J' {
        Some(Rank::Jack)
    } else if c == 'q' || c == 'Q' {
        Some(Rank::Queen)
    } else if c == 'k' || c == 'K' {
        Some(Rank::King)
    } else if c == 'a' || c == 'A' {
        Some(Rank::Ace)
    } else {
        None
    }
}

/// The suit a notation character stands for; case-insensitive.
pub open spec fn suit_of_char(c: char) -> Option<Suit> {
    if c == 'h' || c == 'H' {
        Some(Suit::Hearts)
    } else if c == 'c' || c == 'C' {
        Some(Suit::Clubs)
    } else if c == 'd' || c == 'D' {
        Some(Suit::Diamonds)
    } else if c == 's' || c == 'S' {
        Some(Suit::Spades)
    } else {
        None
    }
}

/// The notation character for a rank. The low Ace prints as an Ace.
pub open spec fn rank_char(r: Rank) -> char {
    match r {
        Rank::LowAce => 'A',
        Rank::Two => '2',
        Rank::Three => '3',
        Rank::Four => '4',
        Rank::Five => '5',
        Rank::Six => '6',
        Rank::Seven => '7',
        Rank::Eight => '8',
        Rank::Nine => '9',
        Rank::Ten => 'T',
        Rank::Jack => 'J',
        Rank::Queen => 'Q',
        Rank::King => 'K',
        Rank::Ace => 'A',
    }
}

/// The notation character for a suit.
pub open spec fn suit_char(s: Suit) -> char {
    match s {
        Suit::Hearts => 'h',
        Suit::Clubs => 'c',
        Suit::Diamonds => 'd',
        Suit::Spades => 's',
    }
}

fn rank_from_char(c: char) -> (r: Option<Rank>)
    ensures
        r == rank_of_char(c),
{
    match c {
        '2' => Some(Rank::Two),
        '3' => Some(Rank::Three),
        '4' => Some(Rank::Four),
        '5' => Some(Rank::Five),
        '6' => Some(Rank::Six),
        '7' => Some(Rank::Seven),
        '8' => Some(Rank::Eight),
        '9' => Some(Rank::Nine),
        't' | 'T' => Some(Rank::Ten),
        'j' | 'J' => Some(Rank::Jack),
        'q' | 'Q' => Some(Rank::Queen),
        'k' | 'K' => Some(Rank::King),
        'a' | 'A' => Some(Rank::Ace),
        _ => None,
    }
}

fn suit_from_char(c: char) -> (r: Option<Suit>)
    ensures
        r == suit_of_char(c),
{
    match c {
        'h' | 'H' => Some(Suit::Hearts),
        'c' | 'C' => Some(Suit::Clubs),
        'd' | 'D' => Some(Suit::Diamonds),
        's' | 'S' => Some(Suit::Spades),
        _ => None,
    }
}

/// The card a two-character token stands for, if any.
pub open spec fn card_of_token(rc: char, sc: char) -> Option<Card> {
    match (rank_of_char(rc), suit_of_char(sc)) {
        (Some(rank), Some(suit)) => Some(Card { suit, rank }),
        _ => None,
    }
}

/// The card sequence a notation string stands for: two characters per card,
/// nothing if any token is malformed or a lone character is left over.
pub open spec fn parse_cards_spec(s: Seq<char>) -> Option<Seq<Card>>
    decreases s.len(),
{
    if s.len() == 0 {
        Some(Seq::empty())
    } else if s.len() == 1 {
        None
    } else {
        match (card_of_token(s[0], s[1]), parse_cards_spec(s.skip(2))) {
            (Some(c), Some(rest)) => Some(seq![c] + rest),
            _ => None,
        }
    }
}

/// The notation string for a card sequence: two characters per card.
pub open spec fn format_cards_spec(cards: Seq<Card>) -> Seq<char>
    decreases cards.len(),
{
    if cards.len() == 0 {
        Seq::empty()
    } else {
        seq![rank_char(cards[0].rank), suit_char(cards[0].suit)] + format_cards_spec(
            cards.skip(1),
        )
    }
}

impl Card {
    /// Parses one two-character token, rank character then suit character,
    /// case-insensitive. Returns exactly the card the token stands for, the
    /// wrong-size error when the token is not two characters long, and the
    /// rank or suit error when the respective character matches nothing.
    pub fn from_str(s: &str) -> (r: Result<Card, &'static str>)
        ensures
            r is Ok <==> s@.len() == 2 && card_of_token(s@[0], s@[1]) is Some,
            r is Ok ==> Some(r->Ok_0) == card_of_token(s@[0], s@[1]),
            s@.len() != 2 ==> r == Result::<Card, &'static str>::Err(
                "Wrong size! Expected to receive 2 chars",
            ),
            s@.len() == 2 && rank_of_char(s@[0]) is None ==> r == Result::<
                Card,
                &'static str,
            >::Err("No match for Rank found"),
            s@.len() == 2 && rank_of_char(s@[0]) is Some && suit_of_char(s@[1]) is None ==> r
                == Result::<Card, &'static str>::Err("No match for Suit found"),
    {
        if s.unicode_len() != 2 {
            return Err("Wrong size! Expected to receive 2 chars");
        }
        let rank = match rank_from_char(s.get_char(0)) {
            Some(rank) => rank,
            None => {
                return Err("No match for Rank found");
            },
        };
        let suit = match suit_from_char(s.get_char(1)) {
            Some(suit) => suit,
            None => {
                return Err("No match for Suit found");
            },
        };
        Ok(Card { suit, rank })
    }

    /// Parses a concatenation of two-character card tokens. Returns the card
    /// sequence the string stands for, or the error of the first offending
    /// token.
    pub fn from_cards_str(s: &str) -> (r: Result<Vec<Card>, &'static str>)
        ensures
            r is Ok <==> parse_cards_spec(s@) is Some,
            r is Ok ==> Some(r->Ok_0@) == parse_cards_spec(s@),
    {
        let len = s.unicode_len();
        let mut cards: Vec<Card> = Vec::new();
        let mut i: usize = 0;
        proof {
            assert(s@.skip(0) == s@);
        }
        while i < len
            invariant
                i <= len,
                len == s@.len(),
                parse_cards_spec(s@) == match parse_cards_spec(s@.skip(i as int)) {
                    Some(rest) => Some(cards@ + rest),
                    None => None::<Seq<Card>>,
                },
            decreases len - i,
        {
            if i + 1 >= len {
                // a lone trailing character: a token of the wrong size
                proof {
                    assert(s@.skip(i as int).len() == 1);
                }
                return Err("Wrong size! Expected to receive 2 chars");
            }
            let rank = match rank_from_char(s.get_char(i)) {
                Some(rank) => rank,
                None => {
                    return Err("No match for Rank found");
                },
            };
            let suit = match suit_from_char(s.get_char(i + 1)) {
                Some(suit) => suit,
                None => {
                    return Err("No match for Suit found");
                },
            };
            let card = Card { suit, rank };
            proof {
                assert(s@.skip(i as int).skip(2) == s@.skip(i + 2));
                assert(s@.skip(i as int)[0] == s@[i as int]);
                assert(s@.skip(i as int)[1] == s@[i as int + 1]);
                if parse_cards_spec(s@.skip(i + 2)) is Some {
                    assert(cards@ + (seq![card] + parse_cards_spec(s@.skip(i + 2))->0)
                        == cards@.push(card) + parse_cards_spec(s@.skip(i + 2))->0);
                }
            }
            cards.push(card);
            i += 2;
        }
        proof {
            assert(s@.skip(i as int) =~= Seq::<char>::empty());
            assert(cards@ + Seq::<Card>::empty() == cards@);
        }
        Ok(cards)
    }

    /// Formats a card sequence in the two-character notation, rank character
    /// upper-case and suit character lower-case, e.g. "Ac2c".
    pub fn to_cards_str(cards: &Vec<Card>) -> (r: String)
        ensures
            r@ == format_cards_spec(cards@),
    {
        let mut out = String::new();
        let mut i: usize = 0;
        proof {
            assert(cards@.skip(0) == cards@);
        }
        while i < cards.len()
            invariant
                i <= cards@.len(),
                format_cards_spec(cards@) == out@ + format_cards_spec(cards@.skip(i as int)),
            decreases cards@.len() - i,
        {
            let c = cards[i];
            push_rank_char(&mut out, c.rank);
            push_suit_char(&mut out, c.suit);
            proof {
                assert(cards@.skip(i as int).skip(1) == cards@.skip(i + 1));
                assert(cards@.skip(i as int)[0] == cards@[i as int]);
                assert(format_cards_spec(cards@) == out@ + format_cards_spec(cards@.skip(i + 1)));
            }
            i += 1;
        }
        proof {
            assert(out@ + format_cards_spec(cards@.skip(i as int)) == out@);
        }
        out
    }
}

fn push_rank_char(out: &mut String, r: Rank)
    ensures
        final(out)@ == old(out)@.push(rank_char(r)),
{
    match r {
        Rank::LowAce => {
            proof {
                reveal_strlit("A");
            }
            out.append("A");
        },
        Rank::Two => {
            proof {
                reveal_strlit("2");
            }
            out.append("2");
        },
        Rank::Three => {
            proof {
                reveal_strlit("3");
            }
            out.append("3");
        },
        Rank::Four => {
            proof {
                reveal_strlit("4");
            }
            out.append("4");
        },
        Rank::Five => {
            proof {
                reveal_strlit("5");
            }
            out.append("5");
        },
        Rank::Six => {
            proof {
                reveal_strlit("6");
            }
            out.append("6");
        },
        Rank::Seven => {
            proof {
                reveal_strlit("7");
            }
            out.append("7");
        },
        Rank::Eight => {
            proof {
                reveal_strlit("8");
            }
            out.append("8");
        },
        Rank::Nine => {
            proof {
                reveal_strlit("9");
            }
            out.append("9");
        },
        Rank::Ten => {
            proof {
                reveal_strlit("T");
            }
            out.append("T");
        },
        Rank::Jack => {
            proof {
                reveal_strlit("J");
            }
            out.append("J");
        },
        Rank::Queen => {
            proof {
                reveal_strlit("Q");
            }
            out.append("Q");
        },
        Rank::King => {
            proof {
                reveal_strlit("K");
            }
            out.append("K");
        },
        Rank::Ace => {
            proof {
                reveal_strlit("A");
            }
            out.append("A");
        },
    }
    proof {
        assert(out@ =~= old(out)@.push(rank_char(r)));
    }
}

fn push_suit_char(out: &mut String, s: Suit)
    ensures
        final(out)@ == old(out)@.push(suit_char(s)),
{
    match s {
        Suit::Hearts => {
            proof {
                reveal_strlit("h");
            }
            out.append("h");
        },
        Suit::Clubs => {
            proof {
                reveal_strlit("c");
            }
            out.append("c");
        },
        Suit::Diamonds => {
            proof {
                reveal_strlit("d");
            }
            out.append("d");
        },
        Suit::Spades => {
            proof {
                reveal_strlit("s");
            }
            out.append("s");
        },
    }
    proof {
        assert(out@ =~= old(out)@.push(suit_char(s)));
    }
}

/// Round trip of the card notation: formatting any sequence of deck cards and
/// parsing the result gives the sequence back.
pub proof fn lemma_cards_round_trip(cards: Seq<Card>)
    requires
        forall|i: int| 0 <= i < cards.len() ==> deck_card(#[trigger] cards[i]),
    ensures
        parse_cards_spec(format_cards_spec(cards)) == Some(cards),
    decreases cards.len(),
{
    if cards.len() == 0 {
        assert(format_cards_spec(cards).len() == 0);
    } else {
        let c = cards[0];
        let rest = cards.skip(1);
        lemma_cards_round_trip(rest);
        let f = format_cards_spec(cards);
        assert(f == seq![rank_char(c.rank), suit_char(c.suit)] + format_cards_spec(rest));
        assert(f.len() >= 2);
        assert(f[0] == rank_char(c.rank) && f[1] == suit_char(c.suit));
        assert(rank_of_char(rank_char(c.rank)) == Some(c.rank));
        assert(suit_of_char(suit_char(c.suit)) == Some(c.suit));
        assert(card_of_token(f[0], f[1]) == Some(c));
        assert(f.skip(2) =~= format_cards_spec(rest));
        assert(seq![c] + rest =~= cards);
    }
}

proof fn lemma_full_deck_distinct(deck: Seq<Card>)
    requires
        deck.len() == 52,
        forall|k: int| 0 <= k < 52 ==> deck[k] == full_deck_card(k),
    ensures
        distinct_cards(deck),
        forall|k: int| 0 <= k < 52 ==> deck_card(#[trigger] deck[k]),
{
    lemma_rank_of_value_inverse();
    assert forall|i: int, j: int| 0 <= i < j < 52 implies deck[i] != deck[j] by {
        lemma_fundamental_div_mod(i, 13);
        lemma_fundamental_div_mod(j, 13);
        assert(deck[i] == full_deck_card(i));
        assert(deck[j] == full_deck_card(j));
        if i / 13 == j / 13 {
            assert(i % 13 != j % 13);
            assert(rank_of_value(2 + i % 13).spec_value() == 2 + i % 13);
            assert(rank_of_value(2 + j % 13).spec_value() == 2 + j % 13);
        } else {
            assert(0 <= i / 13 < 4 && 0 <= j / 13 < 4);
            assert(suit_of_index(i / 13) != suit_of_index(j / 13));
        }
    }
    assert forall|k: int| 0 <= k < 52 implies deck_card(#[trigger] deck[k]) by {
        assert(deck[k] == full_deck_card(k));
        assert(rank_of_value(2 + k % 13).spec_value() == 2 + k % 13);
    }
}

proof fn lemma_full_deck_complete(deck: Seq<Card>)
    requires
        deck.len() == 52,
        forall|k: int| 0 <= k < 52 ==> deck[k] == full_deck_card(k),
    ensures
        forall|c: Card| deck_card(c) ==> deck.contains(c),
{
    lemma_rank_of_value_inverse();
    assert forall|c: Card| deck_card(c) implies deck.contains(c) by {
        let k = suit_index(c.suit) * 13 + (c.rank.spec_value() - 2);
        assert(0 <= k < 52);
        assert(deck[k] == full_deck_card(k));
        assert(k / 13 == suit_index(c.suit) && k % 13 == c.rank.spec_value() - 2)
            by (nonlinear_arith)
            requires
                k == suit_index(c.suit) * 13 + (c.rank.spec_value() - 2),
                0 <= suit_index(c.suit) < 4,
                0 <= c.rank.spec_value() - 2 < 13,
        ;
        assert(deck[k] == c);
    }
}

proof fn lemma_short_deck_distinct(deck: Seq<Card>)
    requires
        deck.len() == 36,
        forall|k: int| 0 <= k < 36 ==> deck[k] == short_deck_card(k),
    ensures
        distinct_cards(deck),
        forall|k: int| 0 <= k < 36 ==> deck_card(#[trigger] deck[k]),
        forall|k: int| 0 <= k < 36 ==> (#[trigger] deck[k]).rank.spec_value() > 5,
{
    lemma_rank_of_value_inverse();
    assert forall|i: int, j: int| 0 <= i < j < 36 implies deck[i] != deck[j] by {
        lemma_fundamental_div_mod(i, 9);
        lemma_fundamental_div_mod(j, 9);
        assert(deck[i] == short_deck_card(i));
        assert(deck[j] == short_deck_card(j));
        if i / 9 == j / 9 {
            assert(i % 9 != j % 9);
            assert(rank_of_value(6 + i % 9).spec_value() == 6 + i % 9);
            assert(rank_of_value(6 + j % 9).spec_value() == 6 + j % 9);
        } else {
            assert(0 <= i / 9 < 4 && 0 <= j / 9 < 4);
            assert(suit_of_index(i / 9) != suit_of_index(j / 9));
        }
    }
    assert forall|k: int| 0 <= k < 36 implies deck_card(#[trigger] deck[k])
        && deck[k].rank.spec_value() > 5 by {
        assert(deck[k] == short_deck_card(k));
        assert(rank_of_value(6 + k % 9).spec_value() == 6 + k % 9);
    }
}

proof fn lemma_short_deck_complete(deck: Seq<Card>)
    requires
        deck.len() == 36,
        forall|k: int| 0 <= k < 36 ==> deck[k] == short_deck_card(k),
    ensures
        forall|c: Card| deck_card(c) && c.rank.spec_value() > 5 ==> deck.contains(c),
{
    lemma_rank_of_value_inverse();
    assert forall|c: Card| deck_card(c) && c.rank.spec_value() > 5 implies deck.contains(c) by {
        let k = suit_index(c.suit) * 9 + (c.rank.spec_value() - 6);
        assert(0 <= k < 36);
        assert(deck[k] == short_deck_card(k));
        assert(k / 9 == suit_index(c.suit) && k % 9 == c.rank.spec_value() - 6)
            by (nonlinear_arith)
            requires
                k == suit_index(c.suit) * 9 + (c.rank.spec_value() - 6),
                0 <= suit_index(c.suit) < 4,
                0 <= c.rank.spec_value() - 6 < 9,
        ;
        assert(deck[k] == c);
    }
}

} // verus!
