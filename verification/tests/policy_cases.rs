//! The ordering law on plays, the cost-term tables, the lookahead
//! search, the fallback chain, and sample extraction, on concrete data.

use ordered_float::OrderedFloat;
use pusoy::bot::{
    cost_term, first_analysis_cost_term, rank_first_plays, select_first_legal, would_get_control,
    CostTerm, PlayEval,
};
use pusoy::card::{three_of_clubs, Card, Rank, Suit};
use pusoy::game::{GameState, SafeGameInterface};
use pusoy::play::{Play, PlayKind};
use pusoy::train::samples_from_record;

fn card(rank: Rank, suit: Suit) -> Card {
    Card { rank, suit }
}

fn single(c: Card) -> Play {
    Play::infer_from_cards(vec![c]).unwrap()
}

/// Exactly one of "A beats B", "B beats A", "A and B agree in kind and
/// rank" holds for plays of equal card count.
#[test]
fn play_order_is_a_trichotomy() {
    let plays = vec![
        single(card(Rank::Three, Suit::Clubs)),
        single(card(Rank::Three, Suit::Clubs)),
        single(card(Rank::Nine, Suit::Hearts)),
        single(card(Rank::Two, Suit::Diamonds)),
    ];
    for a in &plays {
        for b in &plays {
            let a_beats = a.can_play_on(b);
            let b_beats = b.can_play_on(a);
            let same = a.kind() == b.kind() && a.ranking_card() == b.ranking_card();
            let outcomes = [a_beats && !same, b_beats && !same, same];
            assert_eq!(outcomes.iter().filter(|o| **o).count(), 1);
        }
    }
    // across kinds of the same length the kind order decides
    let strait = Play::infer_from_cards(vec![
        card(Rank::Five, Suit::Clubs),
        card(Rank::Six, Suit::Spades),
        card(Rank::Seven, Suit::Hearts),
        card(Rank::Eight, Suit::Diamonds),
        card(Rank::Nine, Suit::Clubs),
    ])
    .unwrap();
    let flush = Play::infer_from_cards(vec![
        card(Rank::Three, Suit::Hearts),
        card(Rank::Four, Suit::Hearts),
        card(Rank::Six, Suit::Hearts),
        card(Rank::Nine, Suit::Hearts),
        card(Rank::Jack, Suit::Hearts),
    ])
    .unwrap();
    assert!(flush.can_play_on(&strait));
    assert!(!strait.can_play_on(&flush));
}

#[test]
fn control_heuristic_by_rank_and_kind() {
    assert!(would_get_control(&single(card(Rank::Two, Suit::Clubs))));
    assert!(would_get_control(&single(card(Rank::Ace, Suit::Clubs))));
    assert!(!would_get_control(&single(card(Rank::King, Suit::Diamonds))));
    let full_house = Play::infer_from_cards(vec![
        card(Rank::Four, Suit::Clubs),
        card(Rank::Four, Suit::Spades),
        card(Rank::Four, Suit::Hearts),
        card(Rank::Nine, Suit::Clubs),
        card(Rank::Nine, Suit::Spades),
    ])
    .unwrap();
    assert!(would_get_control(&full_house));
}

#[test]
fn cost_terms_follow_the_charge_table() {
    let low = single(card(Rank::Three, Suit::Clubs));
    let high = single(card(Rank::Nine, Suit::Diamonds));
    let jack = single(card(Rank::Jack, Suit::Hearts));
    let two = single(card(Rank::Two, Suit::Diamonds));

    // previous play keeps control
    assert_eq!(cost_term(&two, &low), CostTerm::Weight(0));
    // big gap up: rank 9 of diamonds sits more than twenty steps above three of clubs
    assert_eq!(cost_term(&low, &high), CostTerm::Weight(1));
    // small gap: jack of hearts sits only seven steps above nine of diamonds
    assert_eq!(cost_term(&high, &jack), CostTerm::Weight(2));

    let full_house = Play::infer_from_cards(vec![
        card(Rank::Four, Suit::Clubs),
        card(Rank::Four, Suit::Spades),
        card(Rank::Four, Suit::Hearts),
        card(Rank::Nine, Suit::Clubs),
        card(Rank::Nine, Suit::Spades),
    ])
    .unwrap();
    assert_eq!(cost_term(&low, &full_house), CostTerm::Weight(4));

    // the lead-in table uses the shifted weights
    assert_eq!(first_analysis_cost_term(&two, &low), CostTerm::Weight(5));
    assert_eq!(first_analysis_cost_term(&low, &high), CostTerm::Weight(6));
    assert_eq!(first_analysis_cost_term(&high, &jack), CostTerm::Weight(7));
    assert_eq!(first_analysis_cost_term(&low, &full_house), CostTerm::Weight(9));
}

fn two_card_game() -> GameState {
    // seat 0 to act without control; a single three of spades on the table
    GameState {
        hands: vec![
            vec![card(Rank::Nine, Suit::Clubs), card(Rank::Five, Suit::Clubs)],
            vec![card(Rank::Four, Suit::Clubs)],
            vec![card(Rank::Three, Suit::Spades)],
            vec![card(Rank::Six, Suit::Clubs)],
        ],
        current_player: 0,
        cards_down: Some(single(card(Rank::Three, Suit::Spades))),
        turn_index: 1,
        last_player_to_not_pass: 2,
        n_players: 4,
        winning_player: None,
        record: vec![single(card(Rank::Three, Suit::Spades))],
    }
}

#[test]
fn search_counts_leaves_and_charges() {
    let game = two_card_game();
    let view = SafeGameInterface::from_game(&game);
    let evals = rank_first_plays(&view);
    // two singles in hand, each fits the two-card budget
    assert_eq!(evals.len(), 2);
    for e in &evals {
        // after one single the other remains: exactly one full sequence
        assert_eq!(e.leaves, 1);
        assert!(!e.infinite);
        assert_eq!(e.weight_leaves.len(), 10);
        // both singles are immediately legal on the table, so no lead-in
        // charge is recorded
        for w in 5..10 {
            assert_eq!(e.weight_leaves[w], 0);
        }
        // the second single of the simulated sequence is charged once
        let in_sequence: u64 = e.weight_leaves[0..5].iter().sum();
        assert_eq!(in_sequence, 1);
    }
}

#[test]
fn search_prices_non_opening_branches_prohibitively() {
    let deck = vec![
        three_of_clubs(),
        card(Rank::Four, Suit::Clubs),
        card(Rank::Five, Suit::Clubs),
        card(Rank::Six, Suit::Clubs),
        card(Rank::Nine, Suit::Clubs),
        card(Rank::Nine, Suit::Spades),
        card(Rank::Ten, Suit::Hearts),
        card(Rank::Jack, Suit::Diamonds),
    ];
    let game = GameState::new(4, deck);
    assert!(game.is_first_turn());
    assert_eq!(game.current_player, 0);
    let view = SafeGameInterface::from_game(&game);
    let evals = rank_first_plays(&view);
    assert!(!evals.is_empty());
    for e in &evals {
        let opens = e.play.cards().contains(&three_of_clubs());
        assert_eq!(e.infinite, !opens);
    }
}

#[test]
fn fallback_chain_finds_a_legal_move() {
    let game = two_card_game();
    let view = SafeGameInterface::from_game(&game);
    // the best-ranked move is legal and taken directly
    let ranked = vec![single(card(Rank::Five, Suit::Clubs)), single(card(Rank::Nine, Suit::Clubs))];
    let picked = select_first_legal(&view, &ranked).unwrap();
    assert_eq!(picked.kind(), PlayKind::Single);
    assert_eq!(picked.ranking_card(), Some(card(Rank::Five, Suit::Clubs)));

    // an impossible first choice falls back to the pass
    let ranked = vec![single(card(Rank::Four, Suit::Diamonds))];
    let picked = select_first_legal(&view, &ranked).unwrap();
    assert!(picked.is_pass());
}

#[test]
fn fallback_chain_walks_the_ranked_list_when_passing_is_illegal() {
    let mut game = two_card_game();
    // give seat 0 control: it must lead, so a pass is not available
    game.last_player_to_not_pass = 0;
    let view = SafeGameInterface::from_game(&game);
    let ranked = vec![
        single(card(Rank::Ten, Suit::Hearts)),  // not in hand
        single(card(Rank::Jack, Suit::Clubs)),  // not in hand
        single(card(Rank::Nine, Suit::Clubs)),  // held: accepted
    ];
    let picked = select_first_legal(&view, &ranked).unwrap();
    assert_eq!(picked.ranking_card(), Some(card(Rank::Nine, Suit::Clubs)));
}

#[test]
fn samples_pair_same_seat_plays_by_round() {
    let record = vec![
        single(card(Rank::Four, Suit::Clubs)),   // seat a, round 0
        single(card(Rank::Five, Suit::Clubs)),   // seat b
        Play::infer_from_cards(vec![]).unwrap(), // seat c passes
        single(card(Rank::Six, Suit::Clubs)),    // seat d
        single(card(Rank::Seven, Suit::Clubs)),  // seat a, round 1
        single(card(Rank::Eight, Suit::Clubs)),  // seat b
        single(card(Rank::Nine, Suit::Clubs)),   // seat c
        single(card(Rank::Ten, Suit::Clubs)),    // seat d
        single(card(Rank::Jack, Suit::Clubs)),   // seat a, round 2
    ];
    let samples = samples_from_record(&record);
    // seat a: (4,7,1), (4,J,2), (7,J,1); seats b,d: one each; seat c passed first
    assert_eq!(samples.len(), 5);
    for s in &samples {
        assert!(!s.before.is_pass());
        assert!(!s.after.is_pass());
        assert!(s.rounds >= 1);
    }
    let a_pairs: Vec<(Card, Card, usize)> = samples
        .iter()
        .filter(|s| s.before.ranking_card() == Some(card(Rank::Four, Suit::Clubs)))
        .map(|s| {
            (
                s.before.ranking_card().unwrap(),
                s.after.ranking_card().unwrap(),
                s.rounds,
            )
        })
        .collect();
    assert_eq!(
        a_pairs,
        vec![
            (card(Rank::Four, Suit::Clubs), card(Rank::Seven, Suit::Clubs), 1),
            (card(Rank::Four, Suit::Clubs), card(Rank::Jack, Suit::Clubs), 2),
        ]
    );
}

/// A whole small game of self-play: four seats, three cards each, all
/// driven by the search policy with one weight vector, runs to a winner
/// with a coherent record.
#[test]
fn self_play_runs_to_a_winner() {
    let weights: [f64; 10] = [0.0, 1.0, 10.0, 5.0, 0.5, 0.0, 0.0, 3.0, 0.0, 0.0];

    fn average_cost(eval: &PlayEval, weights: &[f64]) -> f64 {
        if eval.infinite {
            return f64::INFINITY;
        }
        let mut total = 0.0;
        for (w, count) in eval.weight_leaves.iter().enumerate() {
            total += weights[w] * (*count as f64);
        }
        total / (eval.leaves as f64)
    }

    let deck = vec![
        card(Rank::Five, Suit::Hearts),
        card(Rank::Nine, Suit::Spades),
        card(Rank::Three, Suit::Clubs),
        card(Rank::Two, Suit::Diamonds),
        card(Rank::Seven, Suit::Clubs),
        card(Rank::Seven, Suit::Diamonds),
        card(Rank::Jack, Suit::Hearts),
        card(Rank::Four, Suit::Spades),
        card(Rank::King, Suit::Clubs),
        card(Rank::Ace, Suit::Hearts),
        card(Rank::Six, Suit::Diamonds),
        card(Rank::Ten, Suit::Clubs),
    ];
    let mut game = GameState::new(4, deck);
    let mut turns = 0;
    let winner = loop {
        assert!(turns < 200, "the game must end");
        let play = {
            let view = SafeGameInterface::from_game(&game);
            let evals = pusoy::bot::rank_first_plays(&view);
            let mut priced: Vec<(OrderedFloat<f64>, usize)> = evals
                .iter()
                .enumerate()
                .filter(|(_, e)| e.leaves > 0)
                .map(|(i, e)| (OrderedFloat(average_cost(e, &weights)), i))
                .collect();
            priced.sort();
            let ranked: Vec<Play> = priced.iter().map(|&(_, i)| evals[i].play.clone()).collect();
            select_first_legal(&view, &ranked).expect("some move is always available")
        };
        game.play(play);
        turns += 1;
        if let Some(w) = game.winning_player() {
            break w;
        }
    };
    assert!(winner < 4);
    assert!(game.hands[winner].is_empty());
    assert_eq!(game.get_record().len(), game.turn_index);
    assert_eq!(game.get_record().len(), turns);
    // every recorded play is of a recognized shape
    for p in game.get_record() {
        assert_eq!(p.cards().len(), p.kind().len());
    }
}
