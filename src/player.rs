//! Players: each chooses a move for the side to move, or passes.
pub mod alphabeta;
pub mod cli;
pub mod random;

use crate::bitboard::{Board, Mask};
use crate::rules::{has_move, is_legal_move, wf};
use vstd::prelude::*;

verus! {

/// A reversi player: it decides the next move and says its name.
pub trait Player {
    /// Selects a move for the mover of `board`. `None` is a pass, which is allowed only
    /// when there is no legal move.
    fn next(&mut self, board: &Board) -> (r: Option<Mask>)
        requires
            wf(*board),
        ensures
            r is None <==> !has_move(*board),
            r matches Some(m) ==> is_legal_move(*board, m),
    ;

    fn name(&self) -> &'static str;
}

} // verus!
