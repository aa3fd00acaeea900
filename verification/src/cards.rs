//! Suits, ranks and cards, and the canonical ordering of a fresh deck.

use vstd::prelude::*;

verus! {

/// One of the four French suits. Suits carry no scoring meaning; they are
/// kept only for card identity and display.
#[derive(Clone, Copy, PartialEq, Eq, Structural, Debug)]
pub enum Suit {
    Clubs,
    Diamonds,
    Hearts,
    Spades,
}

/// One of the thirteen face values of a card.
#[derive(Clone, Copy, PartialEq, Eq, Structural, Debug)]
pub enum Rank {
    Ace,
    Two,
    Three,
    Four,
    Five,
    Six,
    Seven,
    Eight,
    Nine,
    Ten,
    Jack,
    Queen,
    King,
}

/// An immutable playing card: a suit paired with a rank.
#[derive(Clone, Copy, PartialEq, Eq, Structural, Debug)]
pub struct Card {
    pub suit: Suit,
    pub rank: Rank,
}

/// The "hard" point value of a rank: an ace counts 1, the faces 2 to 10
/// count their number, and jack, queen, king count 10 each.
pub open spec fn rank_low_points(r: Rank) -> int {
    match r {
        Rank::Ace => 1,
        Rank::Two => 2,
        Rank::Three => 3,
        Rank::Four => 4,
        Rank::Five => 5,
        Rank::Six => 6,
        Rank::Seven => 7,
        Rank::Eight => 8,
        Rank::Nine => 9,
        Rank::Ten => 10,
        Rank::Jack => 10,
        Rank::Queen => 10,
        Rank::King => 10,
    }
}

/// Position of a suit in the canonical suit order.
pub open spec fn suit_index(s: Suit) -> int {
    match s {
        Suit::Clubs => 0,
        Suit::Diamonds => 1,
        Suit::Hearts => 2,
        Suit::Spades => 3,
    }
}

/// Position of a rank in the canonical rank order (ace first, king last).
pub open spec fn rank_index(r: Rank) -> int {
    match r {
        Rank::Ace => 0,
        Rank::Two => 1,
        Rank::Three => 2,
        Rank::Four => 3,
        Rank::Five => 4,
        Rank::Six => 5,
        Rank::Seven => 6,
        Rank::Eight => 7,
        Rank::Nine => 8,
        Rank::Ten => 9,
        Rank::Jack => 10,
        Rank::Queen => 11,
        Rank::King => 12,
    }
}

/// The suit at a given position of the canonical suit order.
pub open spec fn suit_of_index(i: int) -> Suit {
    if i == 0 {
        Suit::Clubs
    } else if i == 1 {
        Suit::Diamonds
    } else if i == 2 {
        Suit::Hearts
    } else {
        Suit::Spades
    }
}

/// The rank at a given position of the canonical rank order.
pub open spec fn rank_of_index(i: int) -> Rank {
    if i == 0 {
        Rank::Ace
    } else if i == 1 {
        Rank::Two
    } else if i == 2 {
        Rank::Three
    } else if i == 3 {
        Rank::Four
    } else if i == 4 {
        Rank::Five
    } else if i == 5 {
        Rank::Six
    } else if i == 6 {
        Rank::Seven
    } else if i == 7 {
        Rank::Eight
    } else if i == 8 {
        Rank::Nine
    } else if i == 9 {
        Rank::Ten
    } else if i == 10 {
        Rank::Jack
    } else if i == 11 {
        Rank::Queen
    } else {
        Rank::King
    }
}

/// The card at a given position of a fresh deck: rank-major, suit-minor.
pub open spec fn card_at(i: int) -> Card {
    Card { suit: suit_of_index(i % 4), rank: rank_of_index(i / 4) }
}

/// The position in a fresh deck at which a card stands.
pub open spec fn card_index(c: Card) -> int {
    4 * rank_index(c.rank) + suit_index(c.suit)
}

/// One fresh 52-card deck in canonical order: all four aces, then all four
/// twos, and so on up to the kings; within a rank, clubs, diamonds, hearts,
/// spades.
pub open spec fn fresh_deck() -> Seq<Card> {
    Seq::new(52, |i: int| card_at(i))
}

/// `d` fresh decks stacked one after the other.
pub open spec fn stacked_decks(d: int) -> Seq<Card>
    decreases d,
{
    if d <= 0 {
        Seq::empty()
    } else {
        stacked_decks(d - 1) + fresh_deck()
    }
}

/// Every card stands in a fresh deck exactly where `card_index` says.
pub proof fn lemma_card_index_in_range(c: Card)
    ensures
        0 <= card_index(c) < 52,
        card_at(card_index(c)) == c,
{
    assert(0 <= rank_index(c.rank) < 13);
    assert(0 <= suit_index(c.suit) < 4);
}

/// Distinct positions of a fresh deck hold distinct cards.
pub proof fn lemma_card_at_injective(i: int)
    requires
        0 <= i < 52,
    ensures
        card_index(card_at(i)) == i,
{
}

/// The exec counterpart of `suit_of_index`.
pub fn suit_from_index(i: usize) -> (s: Suit)
    requires
        i < 4,
    ensures
        s == suit_of_index(i as int),
{
    if i == 0 {
        Suit::Clubs
    } else if i == 1 {
        Suit::Diamonds
    } else if i == 2 {
        Suit::Hearts
    } else {
        Suit::Spades
    }
}

/// The exec counterpart of `rank_of_index`.
pub fn rank_from_index(i: usize) -> (r: Rank)
    requires
        i < 13,
    ensures
        r == rank_of_index(i as int),
{
    if i == 0 {
        Rank::Ace
    } else if i == 1 {
        Rank::Two
    } else if i == 2 {
        Rank::Three
    } else if i == 3 {
        Rank::Four
    } else if i == 4 {
        Rank::Five
    } else if i == 5 {
        Rank::Six
    } else if i == 6 {
        Rank::Seven
    } else if i == 7 {
        Rank::Eight
    } else if i == 8 {
        Rank::Nine
    } else if i == 9 {
        Rank::Ten
    } else if i == 10 {
        Rank::Jack
    } else if i == 11 {
        Rank::Queen
    } else {
        Rank::King
    }
}

/// The exec counterpart of `card_at`.
pub fn card_from_index(i: usize) -> (c: Card)
    requires
        i < 52,
    ensures
        c == card_at(i as int),
{
    Card { suit: suit_from_index(i % 4), rank: rank_from_index(i / 4) }
}

} // verus!
