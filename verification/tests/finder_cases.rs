//! The combinatorial finder on concrete hands: category inference,
//! enumeration soundness, and the thirteen-card boundary.

use pusoy::card::{entire_deck, three_of_clubs, Card, Rank, Suit};
use pusoy::finder::Finder;
use pusoy::play::{Play, PlayKind};
use pusoy::util::{counter, windows2};

fn card(rank: Rank, suit: Suit) -> Card {
    Card { rank, suit }
}

#[test]
fn deck_has_every_card_once() {
    let deck = entire_deck();
    assert_eq!(deck.len(), 52);
    for (k, c) in deck.iter().enumerate() {
        assert_eq!(c.numeric_value(), k);
    }
    assert_eq!(deck[0], three_of_clubs());
}

#[test]
fn numeric_value_orders_rank_then_suit() {
    let low = card(Rank::Three, Suit::Diamonds);
    let high = card(Rank::Four, Suit::Clubs);
    assert!(low.numeric_value() < high.numeric_value());
    let a = card(Rank::Seven, Suit::Clubs);
    let b = card(Rank::Seven, Suit::Spades);
    assert!(a.numeric_value() < b.numeric_value());
}

#[test]
fn infer_empty_is_pass() {
    let play = Play::infer_from_cards(vec![]).unwrap();
    assert_eq!(play.kind(), PlayKind::Pass);
    assert!(play.is_pass());
    assert_eq!(play.ranking_card(), None);
    assert!(play.cards().is_empty());
}

#[test]
fn infer_single() {
    let c = card(Rank::Jack, Suit::Hearts);
    let play = Play::infer_from_cards(vec![c]).unwrap();
    assert_eq!(play.kind(), PlayKind::Single);
    assert_eq!(play.ranking_card(), Some(c));
}

#[test]
fn infer_pair_ranked_by_higher_card() {
    let low = card(Rank::Nine, Suit::Clubs);
    let high = card(Rank::Nine, Suit::Diamonds);
    let play = Play::infer_from_cards(vec![high, low]).unwrap();
    assert_eq!(play.kind(), PlayKind::Pair);
    assert_eq!(play.ranking_card(), Some(high));
}

#[test]
fn infer_mismatched_two_cards_is_nothing() {
    let r = Play::infer_from_cards(vec![
        card(Rank::Nine, Suit::Clubs),
        card(Rank::Ten, Suit::Clubs),
    ]);
    assert!(r.is_none());
}

#[test]
fn infer_strait() {
    let cards = vec![
        card(Rank::Five, Suit::Clubs),
        card(Rank::Three, Suit::Spades),
        card(Rank::Four, Suit::Hearts),
        card(Rank::Seven, Suit::Diamonds),
        card(Rank::Six, Suit::Clubs),
    ];
    let play = Play::infer_from_cards(cards).unwrap();
    assert_eq!(play.kind(), PlayKind::Strait);
    assert_eq!(play.ranking_card(), Some(card(Rank::Seven, Suit::Diamonds)));
}

#[test]
fn infer_flush() {
    let cards = vec![
        card(Rank::Three, Suit::Hearts),
        card(Rank::Nine, Suit::Hearts),
        card(Rank::Jack, Suit::Hearts),
        card(Rank::Five, Suit::Hearts),
        card(Rank::King, Suit::Hearts),
    ];
    let play = Play::infer_from_cards(cards).unwrap();
    assert_eq!(play.kind(), PlayKind::Flush);
    assert_eq!(play.ranking_card(), Some(card(Rank::King, Suit::Hearts)));
}

#[test]
fn infer_full_house_ranked_by_triple() {
    let cards = vec![
        card(Rank::Queen, Suit::Clubs),
        card(Rank::Four, Suit::Spades),
        card(Rank::Queen, Suit::Hearts),
        card(Rank::Four, Suit::Diamonds),
        card(Rank::Four, Suit::Hearts),
    ];
    let play = Play::infer_from_cards(cards).unwrap();
    assert_eq!(play.kind(), PlayKind::FullHouse);
    // the triple is the fours; its highest card ranks the play
    assert_eq!(play.ranking_card(), Some(card(Rank::Four, Suit::Diamonds)));
}

#[test]
fn infer_four_of_a_kind_ranked_by_quad() {
    let cards = vec![
        card(Rank::Eight, Suit::Clubs),
        card(Rank::Eight, Suit::Spades),
        card(Rank::Two, Suit::Hearts),
        card(Rank::Eight, Suit::Hearts),
        card(Rank::Eight, Suit::Diamonds),
    ];
    let play = Play::infer_from_cards(cards).unwrap();
    assert_eq!(play.kind(), PlayKind::FourOfAKind);
    assert_eq!(play.ranking_card(), Some(card(Rank::Eight, Suit::Diamonds)));
}

#[test]
fn infer_strait_flush_outranks_other_readings() {
    let cards = vec![
        card(Rank::Five, Suit::Spades),
        card(Rank::Six, Suit::Spades),
        card(Rank::Seven, Suit::Spades),
        card(Rank::Eight, Suit::Spades),
        card(Rank::Nine, Suit::Spades),
    ];
    let play = Play::infer_from_cards(cards).unwrap();
    assert_eq!(play.kind(), PlayKind::StraitFlush);
    assert_eq!(play.ranking_card(), Some(card(Rank::Nine, Suit::Spades)));
}

#[test]
fn infer_unrecognized_five_cards_is_nothing() {
    let cards = vec![
        card(Rank::Three, Suit::Clubs),
        card(Rank::Five, Suit::Spades),
        card(Rank::Nine, Suit::Hearts),
        card(Rank::Jack, Suit::Diamonds),
        card(Rank::King, Suit::Clubs),
    ];
    assert!(Play::infer_from_cards(cards).is_none());
}

#[test]
fn infer_wrapping_window_extends_past_two() {
    // the strait search generates start offsets modulo 13, so a window
    // may run queen, king, ace, two and wrap to three
    let cards = vec![
        card(Rank::Queen, Suit::Clubs),
        card(Rank::King, Suit::Spades),
        card(Rank::Ace, Suit::Hearts),
        card(Rank::Two, Suit::Diamonds),
        card(Rank::Three, Suit::Clubs),
    ];
    let play = Play::infer_from_cards(cards).unwrap();
    assert_eq!(play.kind(), PlayKind::Strait);
    assert_eq!(play.ranking_card(), Some(card(Rank::Two, Suit::Diamonds)));
}

/// For all hands: every play produced has a card count matching its
/// kind's fixed length, and all its cards are members of the input hand
/// (here checked on one thirteen-card hand).
#[test]
fn all_plays_sound_on_a_full_hand() {
    let deck = entire_deck();
    let hand: Vec<Card> = deck[0..13].to_vec();
    let finder = Finder::new(hand.clone());
    let plays = finder.all_plays();
    assert!(!plays.is_empty());
    for play in &plays {
        assert_eq!(play.cards().len(), play.kind().len());
        for c in play.cards() {
            assert!(hand.contains(c));
        }
        assert!(!play.is_pass());
    }
}

/// The exhaustiveness boundary: a full thirteen-card selection reads as
/// no play, in agreement with the enumeration, which yields no
/// thirteen-card play.
#[test]
fn thirteen_cards_match_no_category() {
    let deck = entire_deck();
    let hand: Vec<Card> = deck[0..13].to_vec();
    let finder = Finder::new(hand.clone());
    assert!(finder.infer().is_none());
    let thirteen_long: Vec<Play> = finder
        .all_plays()
        .into_iter()
        .filter(|p| p.cards().len() == 13)
        .collect();
    assert!(thirteen_long.is_empty());
    assert!(Play::infer_from_cards(hand).is_none());
}

#[test]
fn pairs_enumerates_every_suit_combination() {
    // four cards of one rank give six distinct pairs
    let hand = vec![
        card(Rank::Six, Suit::Clubs),
        card(Rank::Six, Suit::Spades),
        card(Rank::Six, Suit::Hearts),
        card(Rank::Six, Suit::Diamonds),
    ];
    let finder = Finder::new(hand);
    assert_eq!(finder.pairs().len(), 6);
    assert_eq!(finder.n_of_a_kinds(3).len(), 4);
    assert_eq!(finder.n_of_a_kinds(4).len(), 1);
}

#[test]
fn counter_runs_through_the_mixed_radix() {
    let vals = counter(&vec![2, 3]);
    let expected: Vec<Vec<usize>> = vec![
        vec![0, 0],
        vec![1, 0],
        vec![0, 1],
        vec![1, 1],
        vec![0, 2],
        vec![1, 2],
    ];
    assert_eq!(vals, expected);
    assert_eq!(counter(&vec![2, 0]).len(), 0);
    assert_eq!(counter(&vec![]).len(), 1);
}

#[test]
fn windows2_yields_adjacent_pairs() {
    let out = windows2(&vec![1, 2, 3, 4]);
    assert_eq!(out, vec![(1, 2), (2, 3), (3, 4)]);
}

#[test]
fn concat_appends() {
    assert_eq!(pusoy::util::concat(vec![1, 2], vec![3]), vec![1, 2, 3]);
}
