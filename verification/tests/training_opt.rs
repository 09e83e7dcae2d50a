//! The calibration property on the swarm optimizer: run for zero rounds,
//! the best-known candidate is no worse, by fitness, than any single
//! freshly generated candidate of the initial population.

use abc::{Candidate, Context, HiveBuilder};
use pusoy::bot::{cost_term, CostTerm};
use pusoy::card::{Card, Rank, Suit};
use pusoy::play::Play;
use pusoy::train::{samples_from_record, TrainingSample};

fn card(rank: Rank, suit: Suit) -> Card {
    Card { rank, suit }
}

fn single(c: Card) -> Play {
    Play::infer_from_cards(vec![c]).unwrap()
}

/// The cost a weight vector predicts for one sample's transition.
fn predicted_cost(sample: &TrainingSample, weights: &[f64]) -> f64 {
    match cost_term(&sample.before, &sample.after) {
        CostTerm::Weight(w) => weights[w],
        _ => 0.0,
    }
}

struct SolutionFinder {
    experimental_data: Vec<TrainingSample>,
}

impl Context for SolutionFinder {
    type Solution = Vec<f64>;

    // deterministic on purpose: every initial candidate is this vector,
    // so the zero-round best must be at least as fit as it
    fn make(&self) -> Vec<f64> {
        vec![1.5; 10]
    }

    fn evaluate_fitness(&self, solution: &Vec<f64>) -> f64 {
        let mut total_error = 0.0;
        let len = self.experimental_data.len() as f64;
        for sample in &self.experimental_data {
            let diff = sample.rounds as f64 - predicted_cost(sample, solution);
            total_error += diff * diff;
        }
        (total_error / len).recip()
    }

    fn explore(&self, field: &[Candidate<Vec<f64>>], index: usize) -> Vec<f64> {
        let mut modified = field[index].solution.clone();
        modified[0] += 0.25;
        modified
    }
}

#[test]
fn zero_rounds_returns_no_worse_than_a_fresh_candidate() {
    let record = vec![
        single(card(Rank::Four, Suit::Clubs)),
        single(card(Rank::Five, Suit::Clubs)),
        single(card(Rank::Six, Suit::Clubs)),
        single(card(Rank::Seven, Suit::Clubs)),
        single(card(Rank::Nine, Suit::Clubs)),
        single(card(Rank::Ten, Suit::Clubs)),
        single(card(Rank::Jack, Suit::Clubs)),
        single(card(Rank::Queen, Suit::Clubs)),
    ];
    let experimental_data = samples_from_record(&record);
    assert!(!experimental_data.is_empty());

    let ctx = SolutionFinder { experimental_data };
    let baseline = ctx.evaluate_fitness(&ctx.make());

    let hive = HiveBuilder::new(ctx, 5).build().unwrap();
    let best = hive.run_for_rounds(0).unwrap();
    assert!(best.fitness >= baseline);
}
