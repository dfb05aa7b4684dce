//! A verified backgammon analysis engine.
//!
//! The crate models board positions, dice, legal-move generation, the
//! canonical position identifier, the hypergammon perfect hash, rollouts and
//! the duel harness. Contracts state what each operation returns; the laws of
//! the domain (identifier round-trip, flip involution, checker conservation,
//! hash injectivity) are proved as theorems over the same specifications.

use vstd::prelude::*;

pub mod position;
pub mod encoding;
pub mod ids;
pub mod dice;
pub mod moves;
pub mod probabilities;
pub mod evaluator;
pub mod duel;
pub mod hyper;
pub mod finder;
pub mod inputs;

verus! {

/// The ways an operation of this crate can fail.
#[derive(Clone, Copy, Debug, PartialEq, Eq, Structural)]
pub enum Error {
    /// A position identifier failed to parse: wrong length, a character
    /// outside the alphabet, or a bit stream that breaks the grammar.
    InvalidPositionId,
    /// A requested move is not a legal half-move in the given position.
    InvalidMove,
    /// An equity table's length does not match the slot count.
    DatabaseShapeMismatch,
    /// The neural-net runtime refused the weights file.
    ModelLoadFailure,
}

} // verus!
