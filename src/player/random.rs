//! A player that picks one of its legal moves at random.
use crate::bitboard::{lemma_mask_moves, Board, Mask};
use crate::rules::{has_move, is_legal_move, legal, move_at, wf};
use crate::player::alphabeta::{legal_moves, legal_seq, lemma_legal_seq};
use crate::player::Player;
use crate::rand::{drawn, seeded, xor_steps, Xor128, XorState};
use vstd::prelude::*;

verus! {

/// Player who always makes random moves.
pub struct RandomPlayer {
    rand: Xor128,
}

impl RandomPlayer {
    /// A player drawing from a generator seeded with `seed`.
    pub fn new(seed: u32) -> (p: RandomPlayer)
        ensures
            p.rng() == xor_steps(seeded(seed), 16),
    {
        RandomPlayer { rand: Xor128::from_seed(seed) }
    }

    /// State of the player's generator.
    pub closed spec fn rng(&self) -> XorState {
        self.rand@
    }
}

/// Among the first `k` of `moves`, the greatest (draw, move mask), where move `j` gets draw
/// `j + 1` of a generator in state `s`, plus one; (0, 0) when `k` is 0.
pub open spec fn random_best(s: XorState, moves: Seq<u64>, k: nat) -> (u32, u64)
    decreases k,
{
    if k == 0 {
        (0, 0)
    } else {
        let prev = random_best(s, moves, (k - 1) as nat);
        let draw = (drawn(xor_steps(s, k)) + 1) as u32;
        let mov = moves[k - 1];
        if draw > prev.0 || (draw == prev.0 && mov > prev.1) {
            (draw, mov)
        } else {
            prev
        }
    }
}

impl RandomPlayer {
    /// Draws a number for each legal move in order of index and takes the move with the
    /// greatest (draw, move mask); `None` when there is no legal move.
    pub fn pick(&mut self, board: &Board) -> (r: Option<Mask>)
        requires
            wf(*board),
        ensures
            r is None <==> !has_move(*board),
            r matches Some(m) ==> is_legal_move(*board, m),
            legal_seq(*board, 64).len() == 0 ==> r is None && final(self).rng() == old(self).rng(),
            legal_seq(*board, 64).len() > 0 ==> r == Some(
                random_best(old(self).rng(), legal_seq(*board, 64), legal_seq(*board, 64).len()).1,
            ) && final(self).rng() == xor_steps(old(self).rng(), legal_seq(*board, 64).len()),
    {
        let ghost b = *board;
        let ghost s0 = self.rand@;
        let (black_moves, _) = board.get_valid_mask();
        proof {
            lemma_mask_moves(b, black_moves);
        }
        if black_moves == 0 {
            proof {
                lemma_legal_seq(b, 64);
                if legal_seq(b, 64).len() > 0 {
                    let m = legal_seq(b, 64)[0];
                    assert(is_legal_move(b, m));
                    let (r0, c0) = choose|r: int, c: int| move_at(m, r, c) && #[trigger] legal(b, r, c);
                }
            }
            None
        } else {
            let moves = legal_moves(black_moves, Ghost(b));
            let n = moves.len();
            let mut best: (u32, Mask) = (0, 0);
            let mut t: usize = 0;
            while t < n
                invariant
                    moves@.len() == n,
                    moves@ == legal_seq(b, 64),
                    t <= n,
                    forall|q: int| 0 <= q < n ==> is_legal_move(b, #[trigger] moves@[q]),
                    self.rand@ == xor_steps(s0, t as nat),
                    best == random_best(s0, moves@, t as nat),
                    t == 0 ==> best.0 == 0,
                    t > 0 ==> best.0 >= 1 && is_legal_move(b, best.1),
                decreases n - t,
            {
                let mov = moves[t];
                assert(is_legal_move(b, moves@[t as int]));
                let draw = self.rand.next() + 1;
                if draw > best.0 || (draw == best.0 && mov > best.1) {
                    best = (draw, mov);
                }
                t = t + 1;
            }
            proof {
                let (r0, c0) = choose|r: int, c: int| #[trigger] legal(b, r, c);
                assert(n > 0);
            }
            Some(best.1)
        }
    }
}

impl Player for RandomPlayer {
    /// Draws a number for each legal move in order of index and takes the move with the
    /// greatest (draw, move mask); see `pick`.
    fn next(&mut self, board: &Board) -> (r: Option<Mask>)
        ensures
            legal_seq(*board, 64).len() == 0 ==> r is None && final(self).rng() == old(self).rng(),
            legal_seq(*board, 64).len() > 0 ==> r == Some(
                random_best(old(self).rng(), legal_seq(*board, 64), legal_seq(*board, 64).len()).1,
            ) && final(self).rng() == xor_steps(old(self).rng(), legal_seq(*board, 64).len()),
    {
        self.pick(board)
    }

    fn name(&self) -> &'static str {
        "Random"
    }
}

} // verus!
