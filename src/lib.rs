//! Reversi on an 8x8 bitboard: move generation, capture resolution,
//! a positional evaluator and an alpha-beta search player.
pub mod bits;
pub mod bitboard;
pub mod rules;
pub mod rand;
pub mod player;
pub mod util;
pub mod asciiboard;
pub mod gm;


use vstd::prelude::*;

verus! {

/// Height of board.
pub const H: usize = 8;

/// Width of board.
pub const W: usize = 8;

} // verus!
