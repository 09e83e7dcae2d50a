//! A four-player climbing card game (rank-ordered trick shedding with a
//! "control" rule) together with the decision logic of an automated player.
//!
//! The crate is organised leaf to root:
//! - `card`: the typed card model and its total order;
//! - `play`: a played grouping of cards with its category and ranking card;
//! - `finder`: the combinatorial engine that enumerates every legally
//!   shaped grouping a collection of cards can produce, and reads an exact
//!   selection as a single play;
//! - `game`: the turn-legality state machine owning hands and table state;
//! - `bot`: the lookahead search a machine player uses to rank its moves;
//! - `train`: extraction of training samples from finished game records;
//! - `util`: small combinatorial helpers.
//!
//! The cost model's ten numeric weights, the random dealing, the optimizer
//! and all input and output live outside this crate; everything here is
//! pure logic on plain values.

pub mod bot;
pub mod card;
pub mod finder;
pub mod game;
pub mod play;
pub mod train;
pub mod util;
