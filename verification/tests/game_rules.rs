//! The turn-legality state machine on concrete games: the opening rule,
//! control, length and rank comparisons, hand bookkeeping, and the end
//! of the game.

use pusoy::card::{entire_deck, three_of_clubs, Card, Rank, Suit};
use pusoy::game::{deal, GameError, GameState, SafeGameInterface};
use pusoy::play::{Play, PlayKind};

fn card(rank: Rank, suit: Suit) -> Card {
    Card { rank, suit }
}

fn pair(a: Card, b: Card) -> Play {
    Play::infer_from_cards(vec![a, b]).unwrap()
}

/// A mid-game state: the acting seat does not have control and a pair
/// ranked by the seven of hearts lies on the table.
fn state_with_pair_of_sevens_down(hand: Vec<Card>) -> GameState {
    let table = pair(
        card(Rank::Seven, Suit::Clubs),
        card(Rank::Seven, Suit::Hearts),
    );
    GameState {
        hands: vec![
            hand,
            vec![card(Rank::Three, Suit::Spades)],
            vec![
                card(Rank::Seven, Suit::Clubs),
                card(Rank::Seven, Suit::Hearts),
            ],
            vec![card(Rank::Four, Suit::Spades)],
        ],
        current_player: 0,
        cards_down: Some(table),
        turn_index: 3,
        last_player_to_not_pass: 2,
        n_players: 4,
        winning_player: None,
        record: vec![
            Play::infer_from_cards(vec![three_of_clubs()]).unwrap(),
            Play::infer_from_cards(vec![]).unwrap(),
            pair(
                card(Rank::Seven, Suit::Clubs),
                card(Rank::Seven, Suit::Hearts),
            ),
        ],
    }
}

#[test]
fn deal_splits_round_robin() {
    let deck = entire_deck();
    let groups = deal(&deck, 4);
    assert_eq!(groups.len(), 4);
    for (g, group) in groups.iter().enumerate() {
        assert_eq!(group.len(), 13);
        for (k, c) in group.iter().enumerate() {
            assert_eq!(*c, deck[k * 4 + g]);
        }
    }
}

/// Scenario: the seat holding the opening card starts, the first turn
/// is marked, a single of the opening card is accepted, and a first
/// proposal omitting it is rejected.
#[test]
fn opening_turn_requires_the_three_of_clubs() {
    let mut deck = entire_deck();
    // move the three of clubs to position 2, so seat 2 receives it
    deck.swap(0, 2);
    let game = GameState::new(4, deck);
    assert_eq!(game.current_player, 2);
    assert!(game.is_first_turn());
    assert!(game.winning_player().is_none());

    // seat 2 proposing a single of some other card it holds is rejected
    let other = game.my_hand()[1];
    assert_ne!(other, three_of_clubs());
    assert_eq!(game.can_play(vec![other]), Err(GameError::IsntPlayingThreeOfClubs));

    // the opening single is accepted
    let play = game.can_play(vec![three_of_clubs()]).unwrap();
    assert_eq!(play.kind(), PlayKind::Single);
    assert_eq!(play.ranking_card(), Some(three_of_clubs()));
}

/// Scenario: a seat with control proposes no cards and is rejected —
/// the seat in control must lead.
#[test]
fn control_cannot_pass() {
    let mut game = state_with_pair_of_sevens_down(vec![card(Rank::Nine, Suit::Clubs)]);
    game.current_player = 2;
    assert!(game.have_control());
    assert_eq!(game.can_play(vec![]), Err(GameError::CannotPass));
}

/// Scenario: against a pair on the table, a single is the wrong length,
/// a lower pair is too low, and a higher pair is accepted; a pass is
/// always available without control.
#[test]
fn table_comparison_by_length_then_rank() {
    let hand = vec![
        card(Rank::Five, Suit::Clubs),
        card(Rank::Five, Suit::Spades),
        card(Rank::Nine, Suit::Clubs),
        card(Rank::Nine, Suit::Spades),
    ];
    let game = state_with_pair_of_sevens_down(hand);
    assert!(!game.have_control());
    assert!(!game.is_first_turn());

    // wrong length
    assert_eq!(
        game.can_play(vec![card(Rank::Nine, Suit::Clubs)]),
        Err(GameError::WrongLength)
    );
    // lower pair
    assert_eq!(
        game.can_play(vec![card(Rank::Five, Suit::Clubs), card(Rank::Five, Suit::Spades)]),
        Err(GameError::TooLow)
    );
    // higher pair
    let play = game
        .can_play(vec![card(Rank::Nine, Suit::Clubs), card(Rank::Nine, Suit::Spades)])
        .unwrap();
    assert_eq!(play.kind(), PlayKind::Pair);
    // pass is fine without control
    assert!(game.can_play(vec![]).is_ok());
    // a card the seat does not hold is caught last
    assert_eq!(
        game.can_play(vec![card(Rank::Ten, Suit::Clubs), card(Rank::Ten, Suit::Spades)]),
        Err(GameError::DontHaveCard)
    );
    // cards that form no play at all
    assert_eq!(
        game.can_play(vec![
            card(Rank::Five, Suit::Clubs),
            card(Rank::Nine, Suit::Clubs),
            card(Rank::Nine, Suit::Spades),
        ]),
        Err(GameError::PlayDoesntExist)
    );
}

/// Round-trip: applying a legal play removes exactly its cards from the
/// acting seat's hand and leaves every other hand untouched.
#[test]
fn apply_removes_exactly_the_played_cards() {
    let hand = vec![
        card(Rank::Five, Suit::Clubs),
        card(Rank::Nine, Suit::Clubs),
        card(Rank::Nine, Suit::Spades),
    ];
    let mut game = state_with_pair_of_sevens_down(hand);
    let before_others: Vec<Vec<Card>> = game.hands[1..].to_vec();
    let play = game
        .can_play(vec![card(Rank::Nine, Suit::Clubs), card(Rank::Nine, Suit::Spades)])
        .unwrap();
    game.play(play.clone());
    assert_eq!(game.hands[0], vec![card(Rank::Five, Suit::Clubs)]);
    assert_eq!(&game.hands[1..], &before_others[..]);
    assert_eq!(game.current_player, 1);
    assert_eq!(game.last_player_to_not_pass, 0);
    assert_eq!(game.get_record().last().unwrap(), &play);
    assert!(game.winning_player().is_none());
}

/// Idempotence of validation: asking twice without applying leaves the
/// state untouched and returns the same verdict.
#[test]
fn validation_never_changes_the_state() {
    let hand = vec![
        card(Rank::Nine, Suit::Clubs),
        card(Rank::Nine, Suit::Spades),
    ];
    let game = state_with_pair_of_sevens_down(hand);
    let hand_before = game.my_hand().clone();
    let table_before = game.get_play_on_table().cloned();
    let record_before = game.get_record().clone();

    let proposal = vec![card(Rank::Nine, Suit::Clubs), card(Rank::Nine, Suit::Spades)];
    let first = game.can_play(proposal.clone());
    let second = game.can_play(proposal);
    assert_eq!(first, second);

    assert_eq!(game.my_hand(), &hand_before);
    assert_eq!(game.get_play_on_table().cloned(), table_before);
    assert_eq!(game.get_record(), &record_before);
    assert_eq!(game.turn_index, 3);
    assert!(game.winning_player().is_none());
}

/// Scenario: a hand emptying on apply ends the game, naming that seat
/// the winner.
#[test]
fn emptied_hand_wins() {
    let deck = vec![
        three_of_clubs(),
        card(Rank::Four, Suit::Clubs),
        card(Rank::Five, Suit::Clubs),
        card(Rank::Six, Suit::Clubs),
    ];
    let mut game = GameState::new(4, deck);
    assert_eq!(game.current_player, 0);
    let play = game.can_play(vec![three_of_clubs()]).unwrap();
    game.play(play);
    assert_eq!(game.winning_player(), Some(0));
}

/// The restricted view exposes only the acting seat's own hand, the
/// table, and validation.
#[test]
fn safe_interface_delegates() {
    let hand = vec![
        card(Rank::Nine, Suit::Clubs),
        card(Rank::Nine, Suit::Spades),
    ];
    let game = state_with_pair_of_sevens_down(hand.clone());
    let view = SafeGameInterface::from_game(&game);
    assert_eq!(view.my_hand(), &hand);
    assert!(view.get_play_on_table().is_some());
    assert!(view
        .can_play(vec![card(Rank::Nine, Suit::Clubs), card(Rank::Nine, Suit::Spades)])
        .is_ok());
}
