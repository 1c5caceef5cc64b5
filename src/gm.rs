//! Turn bookkeeping of a game between two players.
use crate::bitboard::{Board, Mask};
use crate::rules::{has_move, is_legal_move, is_start, move_at, placed, wf};
use crate::bits::popcount;
use crate::player::Player;
use vstd::prelude::*;

verus! {

/// Player who will take the next move.
#[derive(Clone, Copy, Debug, PartialEq, Eq, Structural)]
pub enum Turn {
    Black,
    White,
}

/// The other side.
pub open spec fn other(t: Turn) -> Turn {
    match t {
        Turn::Black => Turn::White,
        Turn::White => Turn::Black,
    }
}

/// The board as the side `t` sees it: its own disks first.
pub open spec fn view_for(b: Board, t: Turn) -> Board {
    match t {
        Turn::Black => b,
        Turn::White => Board(b.1, b.0),
    }
}

impl Turn {
    pub fn switch(&self) -> (r: Turn)
        ensures
            r == other(*self),
    {
        match self {
            Turn::Black => Turn::White,
            Turn::White => Turn::Black,
        }
    }
}

/// The result of a game.
#[derive(Clone, Copy, Debug)]
pub struct GameResult {
    pub winner: Turn,
    /// The final board, black's disks first.
    pub board: Board,
    /// Numbers of black and white disks.
    pub disks: (u32, u32),
}

/// A game between `black`, who moves first, and `white`.
pub struct GameManager<B: Player, W: Player> {
    black: B,
    white: W,
    /// Current state of the board, black's disks first.
    board: Board,
    /// Which player moves next.
    next_player: Turn,
    /// Result of the game: `None` while it goes on.
    pub result: Option<GameResult>,
    /// Whether the program reports the game as it goes on.
    pub verbose: bool,
}

impl<B: Player, W: Player> GameManager<B, W> {
    pub closed spec fn board_view(&self) -> Board {
        self.board
    }

    pub closed spec fn turn(&self) -> Turn {
        self.next_player
    }

    /// The black player.
    pub closed spec fn black_view(&self) -> B {
        self.black
    }

    /// The white player.
    pub closed spec fn white_view(&self) -> W {
        self.white
    }

    pub closed spec fn result_view(&self) -> Option<GameResult> {
        self.result
    }

    pub closed spec fn verbose_view(&self) -> bool {
        self.verbose
    }

    /// The two colours never share a cell.
    pub open spec fn well_formed(&self) -> bool {
        wf(self.board_view())
    }

    /// A game at the starting position with black to move.
    pub fn new(black: B, white: W) -> (g: GameManager<B, W>)
        ensures
            g.well_formed(),
            is_start(g.board_view()),
            g.turn() == Turn::Black,
            g.result_view() is None,
            g.verbose_view(),
            g.black_view() == black,
            g.white_view() == white,
    {
        GameManager {
            black,
            white,
            // Black is first to move.
            board: Board::new(),
            next_player: Turn::Black,
            result: None,
            verbose: true,
        }
    }

    /// The current board, black's disks first.
    pub fn board(&self) -> (b: Board)
        ensures
            b == self.board_view(),
    {
        self.board
    }

    /// The side to move.
    pub fn next_player(&self) -> (t: Turn)
        ensures
            t == self.turn(),
    {
        self.next_player
    }

    /// Names of the black and the white player.
    pub fn names(&self) -> (&'static str, &'static str) {
        (self.black.name(), self.white.name())
    }

    /// Fills in the result from the current board.
    pub fn finalize(&mut self)
        requires
            old(self).result_view() is None,
        ensures
            final(self).board_view() == old(self).board_view(),
            final(self).turn() == old(self).turn(),
            final(self).verbose_view() == old(self).verbose_view(),
            final(self).black_view() == old(self).black_view(),
            final(self).white_view() == old(self).white_view(),
            final(self).result_view() == Some(
                GameResult {
                    winner: if popcount(old(self).board_view().0) > popcount(old(self).board_view().1) {
                        Turn::Black
                    } else {
                        Turn::White
                    },
                    board: old(self).board_view(),
                    disks: (popcount(old(self).board_view().0) as u32, popcount(old(self).board_view().1) as u32),
                },
            ),
    {
        let (black, white) = self.board.count();
        let winner = if black > white {
            Turn::Black
        } else {
            Turn::White
        };
        self.result = Some(GameResult { winner: winner, board: self.board, disks: (black, white) });
    }

    /// Lets the next player choose a move and applies it; `None` is a pass, which happens
    /// only when that player has no legal move.
    pub fn next(&mut self) -> (r: Option<Mask>)
        requires
            old(self).well_formed(),
        ensures
            final(self).well_formed(),
            final(self).turn() == other(old(self).turn()),
            final(self).result_view() == old(self).result_view(),
            final(self).verbose_view() == old(self).verbose_view(),
            old(self).turn() == Turn::Black ==> final(self).white_view() == old(self).white_view(),
            old(self).turn() == Turn::White ==> final(self).black_view() == old(self).black_view(),
            r is None <==> !has_move(view_for(old(self).board_view(), old(self).turn())),
            r is None ==> final(self).board_view() == old(self).board_view(),
            r matches Some(m) ==> is_legal_move(view_for(old(self).board_view(), old(self).turn()), m)
                && forall|rr: int, cc: int|
                #[trigger] move_at(m, rr, cc) ==> placed(
                    view_for(old(self).board_view(), old(self).turn()),
                    rr,
                    cc,
                    view_for(final(self).board_view(), old(self).turn()),
                ),
    {
        let res = match self.next_player {
            Turn::Black => self.black.next(&self.board),
            Turn::White => self.white.next(&self.board.switch()),
        };
        self.apply(res);
        res
    }

    /// Applies a move of the side to move, or its pass, and hands the turn over.
    pub fn apply(&mut self, mov: Option<Mask>)
        requires
            old(self).well_formed(),
            mov matches Some(m) ==> is_legal_move(view_for(old(self).board_view(), old(self).turn()), m),
        ensures
            final(self).well_formed(),
            final(self).turn() == other(old(self).turn()),
            final(self).result_view() == old(self).result_view(),
            final(self).verbose_view() == old(self).verbose_view(),
            final(self).black_view() == old(self).black_view(),
            final(self).white_view() == old(self).white_view(),
            mov is None ==> final(self).board_view() == old(self).board_view(),
            mov matches Some(m) ==> forall|rr: int, cc: int|
                #[trigger] move_at(m, rr, cc) ==> placed(
                    view_for(old(self).board_view(), old(self).turn()),
                    rr,
                    cc,
                    view_for(final(self).board_view(), old(self).turn()),
                ),
    {
        match self.next_player {
            Turn::Black => {
                if let Some(mov) = mov {
                    self.board = self.board.flip(mov);
                }
            },
            Turn::White => {
                if let Some(mov) = mov {
                    self.board = self.board.switch().flip(mov).switch();
                }
            },
        }
        self.next_player = self.next_player.switch();
    }
}

} // verus!
