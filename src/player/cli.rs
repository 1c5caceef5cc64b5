//! The player whose moves a person types in.
use vstd::prelude::*;

verus! {

/// Player by a person's input; the prompting and reading are the program's.
pub struct HumanPlayer;

impl HumanPlayer {
    pub fn new() -> HumanPlayer {
        HumanPlayer
    }
}

} // verus!
