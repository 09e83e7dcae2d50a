//! The card model: ranks in climbing order (Three lowest, Two highest),
//! suits with a fixed tie-break order, and the total order on cards given
//! by rank first, then suit.

use vstd::prelude::*;

verus! {

/// Ranks in the game's climbing order: Three is the lowest, Two the highest.
#[derive(Copy, Clone, PartialEq, Eq, Structural, Debug, Hash)]
pub enum Rank {
    Three,
    Four,
    Five,
    Six,
    Seven,
    Eight,
    Nine,
    Ten,
    Jack,
    Queen,
    King,
    Ace,
    Two,
}

/// Suits in the game's tie-break order: Clubs lowest, Diamonds highest.
#[derive(Copy, Clone, PartialEq, Eq, Structural, Debug, Hash)]
pub enum Suit {
    Clubs,
    Spades,
    Hearts,
    Diamonds,
}

/// The position of a rank in the climbing order, from 0 (Three) to 12 (Two).
pub open spec fn rank_index_spec(r: Rank) -> int {
    match r {
        Rank::Three => 0,
        Rank::Four => 1,
        Rank::Five => 2,
        Rank::Six => 3,
        Rank::Seven => 4,
        Rank::Eight => 5,
        Rank::Nine => 6,
        Rank::Ten => 7,
        Rank::Jack => 8,
        Rank::Queen => 9,
        Rank::King => 10,
        Rank::Ace => 11,
        Rank::Two => 12,
    }
}

/// The position of a suit in the tie-break order, from 0 (Clubs) to 3 (Diamonds).
pub open spec fn suit_index_spec(s: Suit) -> int {
    match s {
        Suit::Clubs => 0,
        Suit::Spades => 1,
        Suit::Hearts => 2,
        Suit::Diamonds => 3,
    }
}

impl Rank {
    /// The position of this rank in the climbing order.
    pub fn index(self) -> (i: u8)
        ensures
            i as int == rank_index_spec(self),
    {
        match self {
            Rank::Three => 0,
            Rank::Four => 1,
            Rank::Five => 2,
            Rank::Six => 3,
            Rank::Seven => 4,
            Rank::Eight => 5,
            Rank::Nine => 6,
            Rank::Ten => 7,
            Rank::Jack => 8,
            Rank::Queen => 9,
            Rank::King => 10,
            Rank::Ace => 11,
            Rank::Two => 12,
        }
    }

    /// The rank at a given position of the climbing order.
    pub fn from_index(i: u8) -> (r: Rank)
        requires
            i < 13,
        ensures
            rank_index_spec(r) == i as int,
    {
        match i {
            0 => Rank::Three,
            1 => Rank::Four,
            2 => Rank::Five,
            3 => Rank::Six,
            4 => Rank::Seven,
            5 => Rank::Eight,
            6 => Rank::Nine,
            7 => Rank::Ten,
            8 => Rank::Jack,
            9 => Rank::Queen,
            10 => Rank::King,
            11 => Rank::Ace,
            _ => Rank::Two,
        }
    }
}

impl Suit {
    /// The position of this suit in the tie-break order.
    pub fn index(self) -> (i: u8)
        ensures
            i as int == suit_index_spec(self),
    {
        match self {
            Suit::Clubs => 0,
            Suit::Spades => 1,
            Suit::Hearts => 2,
            Suit::Diamonds => 3,
        }
    }

    /// The suit at a given position of the tie-break order.
    pub fn from_index(i: u8) -> (s: Suit)
        requires
            i < 4,
        ensures
            suit_index_spec(s) == i as int,
    {
        match i {
            0 => Suit::Clubs,
            1 => Suit::Spades,
            2 => Suit::Hearts,
            _ => Suit::Diamonds,
        }
    }
}

/// A playing card. The order on cards compares rank first, then suit,
/// which is how cards are ranked in this game.
#[derive(Copy, Clone, PartialEq, Eq, Structural, Debug, Hash)]
pub struct Card {
    pub rank: Rank,
    pub suit: Suit,
}

/// A card's position in the 52-card total order: 4 * rank position + suit
/// position, a value between 0 and 51. Distinct cards get distinct values.
pub open spec fn card_value_spec(c: Card) -> int {
    4 * rank_index_spec(c.rank) + suit_index_spec(c.suit)
}

impl Card {
    /// This card's position in the 52-card total order, between 0 and 51.
    pub fn numeric_value(self) -> (v: usize)
        ensures
            v as int == card_value_spec(self),
            v < 52,
    {
        4 * (self.rank.index() as usize) + (self.suit.index() as usize)
    }
}

/// The designated opening card: the lowest club, which must appear in the
/// very first play of a game.
pub open spec fn three_of_clubs_spec() -> Card {
    Card { rank: Rank::Three, suit: Suit::Clubs }
}

/// The designated opening card, as a runtime value.
pub fn three_of_clubs() -> (c: Card)
    ensures
        c == three_of_clubs_spec(),
{
    Card { rank: Rank::Three, suit: Suit::Clubs }
}

/// The card order is total: two cards are equal exactly when their numeric
/// values are equal.
pub proof fn lemma_card_value_injective(a: Card, b: Card)
    ensures
        (card_value_spec(a) == card_value_spec(b)) <==> a == b,
{
}

/// The rank order is total: two ranks are equal exactly when their
/// positions in the climbing order are equal.
pub proof fn lemma_rank_index_injective(a: Rank, b: Rank)
    ensures
        (rank_index_spec(a) == rank_index_spec(b)) <==> a == b,
{
}

/// The suit order is total: two suits are equal exactly when their
/// positions in the tie-break order are equal.
pub proof fn lemma_suit_index_injective(a: Suit, b: Suit)
    ensures
        (suit_index_spec(a) == suit_index_spec(b)) <==> a == b,
{
}

/// The full 52-card deck, in rank-major order: the card at position k has
/// numeric value k, so every (rank, suit) pair appears exactly once.
pub fn entire_deck() -> (deck: Vec<Card>)
    ensures
        deck@.len() == 52,
        forall|k: int| 0 <= k < 52 ==> card_value_spec(#[trigger] deck@[k]) == k,
{
    let mut deck: Vec<Card> = Vec::new();
    for i in 0..13u8
        invariant
            deck@.len() == 4 * i as int,
            forall|k: int| 0 <= k < deck@.len() ==> card_value_spec(#[trigger] deck@[k]) == k,
    {
        for j in 0..4u8
            invariant
                i < 13,
                deck@.len() == 4 * i as int + j as int,
                forall|k: int| 0 <= k < deck@.len() ==> card_value_spec(#[trigger] deck@[k]) == k,
        {
            deck.push(Card { rank: Rank::from_index(i), suit: Suit::from_index(j) });
        }
    }
    deck
}

} // verus!
