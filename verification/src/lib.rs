//! The rules engine for long nardy (длинные нарды) as standardised by the
//! Russian sports nardy federation, with its proofs: board model, legal move
//! generation, scoring, the doubling cube, match play and the plain-text
//! notations used by the tooling around the engine.

pub mod player;
pub mod board;
pub mod moves;
pub mod cube;
pub mod game;
pub mod matchplay;
pub mod phase;
pub mod ai;
pub mod train;
pub mod bearoff;
pub mod features;
pub mod text;
pub mod notation;
pub mod cli;
pub mod logasai;
pub mod analysis;
pub mod dto;

pub use ai::{best_turn, best_turn_for, evaluate_halves, Heuristic};
pub use board::{phys, pos_of_phys, Board, HEAD_POS, HOME_HIGH, N_CHECKERS, N_POINTS, START_PIP};
pub use cube::{Cube, CubeError, MAX_CUBE};
pub use game::{outcome, GameState, Outcome, Rules, Variant};
pub use matchplay::{MatchState, MoneyGame, STANDARD_MATCH_LENGTHS};
pub use moves::{creates_illegal_prime, generate_turns, generate_turns_cfg, legal_sequences, CheckerMove, Turn};
pub use phase::{contact_for, has_contact};
pub use player::Player;
