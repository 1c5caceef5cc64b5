//! The rules of the game, stated cell by cell: where the mover may put a disk and which
//! disks then flip.
use crate::bitboard::Board;
use crate::bits::{bit_at, idx, in_board};
use vstd::prelude::*;

verus! {

/// A disk of mask `m` stands on cell (r, c), which lies on the board.
pub open spec fn disk(m: u64, r: int, c: int) -> bool {
    in_board(r, c) && bit_at(m, idx(r, c))
}

/// The cell `j` steps away from (r, c) in direction (dr, dc) holds a disk of `m`.
pub open spec fn disk_along(m: u64, r: int, c: int, dr: int, dc: int, j: int) -> bool {
    disk(m, r + j * dr, c + j * dc)
}

/// Cell (r, c) lies on the board and holds no disk.
pub open spec fn is_empty(b: Board, r: int, c: int) -> bool {
    in_board(r, c) && !bit_at(b.0, idx(r, c)) && !bit_at(b.1, idx(r, c))
}

/// From (r, c) in direction (dr, dc), the next `k` cells hold opponent disks
/// and the cell after them a disk of the mover.
pub open spec fn bracket(b: Board, r: int, c: int, dr: int, dc: int, k: int) -> bool {
    &&& k >= 1
    &&& forall|j: int| 1 <= j <= k ==> #[trigger] disk_along(b.1, r, c, dr, dc, j)
    &&& disk_along(b.0, r, c, dr, dc, k + 1)
}

/// Placing at (r, c) captures in direction (dr, dc).
pub open spec fn captures(b: Board, r: int, c: int, dr: int, dc: int) -> bool {
    exists|k: int| bracket(b, r, c, dr, dc, k)
}

/// Row step of the `d`-th of the eight compass directions. In order they are (0, 1), (1, 1),
/// (1, 0), (1, -1), (0, -1), (-1, -1), (-1, 0), (-1, 1): directions `2q` and `2q + 1` are
/// (0, 1) and (1, 1) turned by `q` quarter turns.
pub open spec fn dir_r(d: int) -> int {
    if d == 0 || d == 4 {
        0
    } else if 1 <= d <= 3 {
        1
    } else {
        -1
    }
}

/// Column step of the `d`-th of the eight compass directions.
pub open spec fn dir_c(d: int) -> int {
    if d == 2 || d == 6 {
        0
    } else if d <= 1 || d == 7 {
        1
    } else {
        -1
    }
}

/// The mover may place a disk on (r, c): it is empty and captures in some direction.
pub open spec fn legal(b: Board, r: int, c: int) -> bool {
    &&& is_empty(b, r, c)
    &&& exists|d: int| 0 <= d < 8 && #[trigger] captures(b, r, c, dir_r(d), dir_c(d))
}

/// The two colours never share a cell.
pub open spec fn wf(b: Board) -> bool {
    forall|i: int| !(#[trigger] bit_at(b.0, i) && bit_at(b.1, i))
}

/// The cell (rr, cc) lies `j` steps from (r, c) in direction (dr, dc).
pub open spec fn on_line(r: int, c: int, dr: int, dc: int, j: int, rr: int, cc: int) -> bool {
    rr == r + j * dr && cc == c + j * dc
}

/// Placing at (r, c) flips the opponent disk on (rr, cc), which lies in direction (dr, dc).
pub open spec fn flips_along(b: Board, r: int, c: int, dr: int, dc: int, rr: int, cc: int) -> bool {
    &&& captures(b, r, c, dr, dc)
    &&& exists|j: int|
        j >= 1 && #[trigger] on_line(r, c, dr, dc, j, rr, cc) && forall|l: int|
            1 <= l <= j ==> #[trigger] disk_along(b.1, r, c, dr, dc, l)
}

/// Placing at (r, c) flips the opponent disk on (rr, cc).
pub open spec fn flips(b: Board, r: int, c: int, rr: int, cc: int) -> bool {
    exists|d: int| 0 <= d < 8 && #[trigger] flips_along(b, r, c, dir_r(d), dir_c(d), rr, cc)
}

/// `mov` is a single cell where the mover may legally put a disk.
pub open spec fn is_legal_move(b: Board, mov: u64) -> bool {
    exists|r: int, c: int| move_at(mov, r, c) && #[trigger] legal(b, r, c)
}

/// The disk of `mov` is placed on (r, c).
pub open spec fn move_at(mov: u64, r: int, c: int) -> bool {
    in_board(r, c) && mov == 1u64 << (idx(r, c) as u64)
}

/// The starting position: the mover on (3, 4) and (4, 3), the opponent on (3, 3) and (4, 4).
pub open spec fn is_start(b: Board) -> bool {
    &&& wf(b)
    &&& forall|r: int, c: int|
        in_board(r, c) ==> #[trigger] bit_at(b.0, idx(r, c)) == ((r == 3 && c == 4) || (r == 4 && c
            == 3))
    &&& forall|r: int, c: int|
        in_board(r, c) ==> #[trigger] bit_at(b.1, idx(r, c)) == ((r == 3 && c == 3) || (r == 4 && c
            == 4))
}

/// `nb` is `b` after the mover put a disk on (r, c): that cell and every flipped disk become
/// the mover's, and nothing else changes.
pub open spec fn placed(b: Board, r: int, c: int, nb: Board) -> bool {
    forall|rr: int, cc: int|
        #![trigger bit_at(nb.0, idx(rr, cc))]
        #![trigger bit_at(nb.1, idx(rr, cc))]
        in_board(rr, cc) ==> {
            &&& bit_at(nb.0, idx(rr, cc)) == (bit_at(b.0, idx(rr, cc)) || (rr == r && cc == c)
                || flips(b, r, c, rr, cc))
            &&& bit_at(nb.1, idx(rr, cc)) == (bit_at(b.1, idx(rr, cc)) && !flips(b, r, c, rr, cc))
        }
}

/// Number of flipped cells among cells `0 .. n` when the mover puts a disk on (r, c).
pub open spec fn flips_below(b: Board, r: int, c: int, n: nat) -> nat
    decreases n,
{
    if n == 0 {
        0
    } else {
        flips_below(b, r, c, (n - 1) as nat) + if flips(b, r, c, (n - 1) / 8, (n - 1) % 8) {
            1nat
        } else {
            0nat
        }
    }
}

/// Number of disks that flip when the mover puts a disk on (r, c).
pub open spec fn flip_count(b: Board, r: int, c: int) -> nat {
    flips_below(b, r, c, 64)
}

/// The mover has a legal move.
pub open spec fn has_move(b: Board) -> bool {
    exists|r: int, c: int| #[trigger] legal(b, r, c)
}

/// The board after the mover puts a disk on (r, c).
pub open spec fn after(b: Board, r: int, c: int) -> Board {
    choose|nb: Board| placed(b, r, c, nb)
}

/// Number of legal cells among cells `0 .. n`.
pub open spec fn legal_below(b: Board, n: nat) -> nat
    decreases n,
{
    if n == 0 {
        0
    } else {
        legal_below(b, (n - 1) as nat) + if legal(b, (n - 1) / 8, (n - 1) % 8) {
            1nat
        } else {
            0nat
        }
    }
}

/// Number of legal moves of the mover.
pub open spec fn legal_count(b: Board) -> nat {
    legal_below(b, 64)
}

} // verus!
