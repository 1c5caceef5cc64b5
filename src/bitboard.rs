//! The board as two 64-bit masks, move generation and capture resolution.
use crate::bits::{
    bit_at, count_below, count_ones, idx, in_board, lemma_and, lemma_count_disjoint_union,
    lemma_count_single, lemma_nonzero_has_bit, lemma_not, lemma_or, lemma_shr, lemma_single,
    lemma_single_tests, lemma_xor, lemma_zero, popcount,
};
use crate::rules::{
    after, bracket, captures, dir_c, dir_r, disk, disk_along, flip_count, flips, flips_along,
    flips_below, has_move, is_empty, is_legal_move, is_start, legal, legal_below, move_at, on_line,
    placed, wf,
};
use vstd::prelude::*;

verus! {

/// Bitmask of the 8 x 8 board. The cell in row `r`, column `c` is bit `8 * r + c`.
pub type Mask = u64;

/// State of the board from the view of the side to move:
/// `self.0` holds the mover's disks and `self.1` the opponent's.
#[derive(Clone, Copy, Debug, PartialEq, Eq, Structural)]
pub struct Board(pub Mask, pub Mask);

/// The mover's and the opponent's directional move masks for each of the four rotations.
pub type ValidMaskParts = [(Mask, Mask); 4];

/// First round of the rotation: swaps bits within 2 x 2 blocks.
pub open spec fn rotate_step1(x: u64) -> u64 {
    ((x << 1u64) & 0xAA00AA00AA00AA00u64) | ((x >> 1u64) & 0x0055005500550055u64) | ((x >> 8u64)
        & 0x00AA00AA00AA00AAu64) | ((x << 8u64) & 0x5500550055005500u64)
}

/// Second round of the rotation: moves 2 x 2 blocks within 4 x 4 blocks.
pub open spec fn rotate_step2(x: u64) -> u64 {
    ((x << 2u64) & 0xCCCC0000CCCC0000u64) | ((x >> 2u64) & 0x0000333300003333u64) | ((x >> 16u64)
        & 0x0000CCCC0000CCCCu64) | ((x << 16u64) & 0x3333000033330000u64)
}

/// Third round of the rotation: moves 4 x 4 blocks within the board.
pub open spec fn rotate_step3(x: u64) -> u64 {
    ((x << 4u64) & 0xF0F0F0F000000000u64) | ((x >> 4u64) & 0x000000000F0F0F0Fu64) | ((x >> 32u64)
        & 0x00000000F0F0F0F0u64) | ((x << 32u64) & 0x0F0F0F0F00000000u64)
}

/// The 90 degree counter-clockwise rotation of a mask, as three rounds of bit interleaving.
pub open spec fn rotated(x: u64) -> u64 {
    rotate_step3(rotate_step2(rotate_step1(x)))
}

/// `rotated` applied `n` times.
pub open spec fn rotated_n(x: u64, n: nat) -> u64
    decreases n,
{
    if n == 0 {
        x
    } else {
        rotated(rotated_n(x, (n - 1) as nat))
    }
}

pub open spec fn rotated_board(b: Board) -> Board {
    Board(rotated(b.0), rotated(b.1))
}

/// Rotation moves the disk of cell (c, 7 - r) to cell (r, c).
pub proof fn lemma_rotated_bits(x: u64)
    ensures
        forall|r: int, c: int|
            in_board(r, c) ==> #[trigger] bit_at(rotated(x), idx(r, c)) == bit_at(x, idx(c, 7 - r)),
{
    assert forall|r: int, c: int| in_board(r, c) implies #[trigger] bit_at(rotated(x), idx(r, c))
        == bit_at(x, idx(c, 7 - r)) by {
        let rr = r as u64;
        let cc = c as u64;
        let y1 = rotate_step1(x);
        let y2 = rotate_step2(y1);
        let y = rotate_step3(y2);
        let p = (8 * rr + cc) as u64;
        let q = (8 * cc + 7 - rr) as u64;
        assert((y >> p) & 1u64 == (x >> q) & 1u64) by (bit_vector)
            requires
                p == 8 * rr + cc,
                q == 8 * cc + 7 - rr,
                y1 == rotate_step1(x),
                y2 == rotate_step2(y1),
                y == rotate_step3(y2),
                rr < 8,
                cc < 8,
        ;
    }
}

/// Rotation commutes with union.
pub proof fn lemma_rotated_or(a: u64, b: u64)
    ensures
        rotated(a | b) == rotated(a) | rotated(b),
        rotated(0) == 0,
{
    assert forall|x: u64, y: u64| #[trigger] rotate_step1(x | y) == rotate_step1(x) | rotate_step1(y)
        by {
        assert(rotate_step1(x | y) == rotate_step1(x) | rotate_step1(y)) by (bit_vector);
    }
    assert forall|x: u64, y: u64| #[trigger] rotate_step2(x | y) == rotate_step2(x) | rotate_step2(y)
        by {
        assert(rotate_step2(x | y) == rotate_step2(x) | rotate_step2(y)) by (bit_vector);
    }
    assert forall|x: u64, y: u64| #[trigger] rotate_step3(x | y) == rotate_step3(x) | rotate_step3(y)
        by {
        assert(rotate_step3(x | y) == rotate_step3(x) | rotate_step3(y)) by (bit_vector);
    }
    assert(rotate_step1(0) == 0 && rotate_step2(0) == 0 && rotate_step3(0) == 0) by (bit_vector);
}

/// Four quarter turns bring every mask back to itself.
pub proof fn lemma_rotate_four_times(x: u64)
    ensures
        rotated(rotated(rotated(rotated(x)))) == x,
        rotated_n(x, 4) == x,
{
    let x1 = rotated(x);
    let x2 = rotated(x1);
    let x3 = rotated(x2);
    let x4 = rotated(x3);
    lemma_rotated_bits(x);
    lemma_rotated_bits(x1);
    lemma_rotated_bits(x2);
    lemma_rotated_bits(x3);
    assert forall|i: int| 0 <= i < 64 implies #[trigger] bit_at(x4, i) == bit_at(x, i) by {
        let r = i / 8;
        let c = i % 8;
        assert(i == idx(r, c));
        assert(bit_at(x4, idx(r, c)) == bit_at(x3, idx(c, 7 - r)));
        assert(bit_at(x3, idx(c, 7 - r)) == bit_at(x2, idx(7 - r, 7 - c)));
        assert(bit_at(x2, idx(7 - r, 7 - c)) == bit_at(x1, idx(7 - c, r)));
    }
    crate::bits::lemma_ext(x4, x);
    reveal_with_fuel(rotated_n, 5);
}

/// Rotation moves the disk of cell (c, 7 - r) to cell (r, c).
pub proof fn lemma_rotated_disk(m: u64)
    ensures
        forall|r: int, c: int| #[trigger] disk(rotated(m), r, c) == disk(m, c, 7 - r),
{
    lemma_rotated_bits(m);
}

/// Captures on the rotated board are captures on the board, turned by a quarter.
pub proof fn lemma_rotated_captures(b: Board, r: int, c: int, dr: int, dc: int)
    ensures
        captures(rotated_board(b), r, c, dr, dc) == captures(b, c, 7 - r, dc, -dr),
        is_empty(rotated_board(b), r, c) == is_empty(b, c, 7 - r),
{
    let rb = rotated_board(b);
    assert(rb.0 == rotated(b.0) && rb.1 == rotated(b.1));
    let r2 = 7 - r;
    let dr2 = -dr;
    lemma_rotated_disk(b.0);
    lemma_rotated_disk(b.1);
    lemma_rotated_bits(b.0);
    lemma_rotated_bits(b.1);
    assert forall|m: u64, j: int|
        #![trigger disk_along(rotated(m), r, c, dr, dc, j)]
        #![trigger disk_along(m, c, r2, dc, dr2, j)]
        disk_along(rotated(m), r, c, dr, dc, j) == disk_along(m, c, r2, dc, dr2, j) by {
        lemma_rotated_disk(m);
        assert(7 - (r + j * dr) == r2 + j * dr2) by (nonlinear_arith)
            requires
                r2 == 7 - r,
                dr2 == -dr,
        ;
        assert(disk(rotated(m), r + j * dr, c + j * dc) == disk(m, c + j * dc, 7 - (r + j * dr)));
    }
    if captures(rb, r, c, dr, dc) {
        let k = choose|k: int| bracket(rb, r, c, dr, dc, k);
        assert forall|j: int| 1 <= j <= k implies #[trigger] disk_along(b.1, c, r2, dc, dr2, j) by {
            assert(disk_along(rb.1, r, c, dr, dc, j));
        }
        assert(disk_along(rb.0, r, c, dr, dc, k + 1));
        assert(bracket(b, c, r2, dc, dr2, k));
    }
    if captures(b, c, r2, dc, dr2) {
        let k = choose|k: int| bracket(b, c, r2, dc, dr2, k);
        assert(bracket(rb, r, c, dr, dc, k));
    }
}

/// Rotates a mask by 90 degrees counter-clockwise: the disk on (r, c) moves to (7 - c, r).
pub fn rotate_mask(x: Mask) -> (r: Mask)
    ensures
        r == rotated(x),
        forall|i: int, j: int|
            in_board(i, j) ==> #[trigger] bit_at(r, idx(i, j)) == bit_at(x, idx(j, 7 - i)),
{
    let y = ((x << 1) & 0xAA00AA00AA00AA00) | ((x >> 1) & 0x0055005500550055) | ((x >> 8)
        & 0x00AA00AA00AA00AA) | ((x << 8) & 0x5500550055005500);
    let y = ((y << 2) & 0xCCCC0000CCCC0000) | ((y >> 2) & 0x0000333300003333) | ((y >> 16)
        & 0x0000CCCC0000CCCC) | ((y << 16) & 0x3333000033330000);
    let y = ((y << 4) & 0xF0F0F0F000000000) | ((y >> 4) & 0x000000000F0F0F0F) | ((y >> 32)
        & 0x00000000F0F0F0F0) | ((y << 32) & 0x0F0F0F0F00000000);
    proof {
        assert(y == rotated(x));
        lemma_rotated_bits(x);
    }
    y
}

/// Columns 1 to 6: a run of opponent disks in a row lies within them.
pub const EDGE_COLS: u64 = 0x7e7e7e7e7e7e7e7e;

/// Rows and columns 1 to 6: a diagonal run of opponent disks lies within them.
pub const EDGE_INNER: u64 = 0x007e7e7e7e7e7e00;

/// Starting at bit `i` and stepping by `s` bits, `k` bits of `w` are followed by a bit of `me`.
pub open spec fn tail_run(w: u64, me: u64, i: int, s: int, k: nat) -> bool
    decreases k,
{
    if k == 0 {
        bit_at(me, i)
    } else {
        bit_at(w, i) && tail_run(w, me, i + s, s, (k - 1) as nat)
    }
}

/// From the cell after bit `i`, `k` bits of `w` are followed by a bit of `me`.
pub open spec fn run_after(w: u64, me: u64, i: int, s: int, k: nat) -> bool {
    tail_run(w, me, i + s, s, k)
}

/// From (r, c) on, `k` cells in direction (dr, dc) hold opponent disks, then a mover's disk.
pub open spec fn run_cells(b: Board, r: int, c: int, dr: int, dc: int, k: nat) -> bool {
    &&& forall|j: int| 0 <= j < k ==> #[trigger] disk_along(b.1, r, c, dr, dc, j)
    &&& disk_along(b.0, r, c, dr, dc, k as int)
}

/// Which cells the two edge masks hold.
proof fn lemma_edge_masks()
    ensures
        forall|r: int, c: int|
            in_board(r, c) ==> #[trigger] bit_at(EDGE_COLS, idx(r, c)) == (1 <= c <= 6),
        forall|r: int, c: int|
            in_board(r, c) ==> #[trigger] bit_at(EDGE_INNER, idx(r, c)) == (1 <= r <= 6 && 1
                <= c <= 6),
{
    assert forall|r: int, c: int|
        #![trigger bit_at(EDGE_COLS, idx(r, c))]
        #![trigger bit_at(EDGE_INNER, idx(r, c))]
        in_board(r, c) implies bit_at(EDGE_COLS, idx(r, c)) == (1 <= c <= 6) && bit_at(
        EDGE_INNER,
        idx(r, c),
    ) == (1 <= r <= 6 && 1 <= c <= 6) by {
        let rr = r as u64;
        let cc = c as u64;
        let p = (8 * rr + cc) as u64;
        assert(((0x7e7e7e7e7e7e7e7eu64 >> p) & 1u64 == 1u64) == (1 <= cc && cc <= 6)
            && ((0x007e7e7e7e7e7e00u64 >> p) & 1u64 == 1u64) == (1 <= rr && rr <= 6 && 1 <= cc
            && cc <= 6)) by (bit_vector)
            requires
                p == 8 * rr + cc,
                rr < 8,
                cc < 8,
        ;
    }
}

/// Stepping once more along a line from its next cell.
proof fn lemma_along_shift(m: u64, r: int, c: int, dr: int, dc: int, j: int)
    ensures
        disk_along(m, r + dr, c + dc, dr, dc, j) == disk_along(m, r, c, dr, dc, j + 1),
{
    assert(r + dr + j * dr == r + (j + 1) * dr && c + dc + j * dc == c + (j + 1) * dc)
        by (nonlinear_arith);
}

/// A bit-level run inside the edge mask of direction (dr, 1) is a run of cells on the board.
proof fn lemma_tail_run_cells(b: Board, edge: u64, dr: int, r: int, c: int, k: nat)
    requires
        dr == 0 || dr == 1,
        edge == if dr == 0 {
            EDGE_COLS
        } else {
            EDGE_INNER
        },
        in_board(r, c),
        1 <= c,
        dr == 1 ==> 1 <= r,
        k >= 1,
    ensures
        tail_run(b.1 & edge, b.0, idx(r, c), 8 * dr + 1, k) == run_cells(b, r, c, dr, 1, k),
    decreases k,
{
    let w = b.1 & edge;
    let s = 8 * dr + 1;
    lemma_and(b.1, edge);
    lemma_edge_masks();
    assert(disk_along(b.1, r, c, dr, 1, 0) == bit_at(b.1, idx(r, c)));
    let inside = c <= 6 && (dr == 1 ==> r <= 6);
    assert(bit_at(w, idx(r, c)) == (bit_at(b.1, idx(r, c)) && inside));
    if !inside {
        assert(!tail_run(w, b.0, idx(r, c), s, k));
        if k == 1 {
            assert(!disk_along(b.0, r, c, dr, 1, 1));
        } else {
            assert(!disk_along(b.1, r, c, dr, 1, 1));
        }
    } else {
        assert(idx(r, c) + s == idx(r + dr, c + 1));
        if k == 1 {
            reveal_with_fuel(tail_run, 2);
            assert(disk_along(b.0, r, c, dr, 1, 1) == bit_at(b.0, idx(r + dr, c + 1)));
        } else {
            lemma_tail_run_cells(b, edge, dr, r + dr, c + 1, (k - 1) as nat);
            assert forall|j: int| #[trigger] disk_along(b.1, r + dr, c + 1, dr, 1, j)
                == disk_along(b.1, r, c, dr, 1, j + 1) by {
                lemma_along_shift(b.1, r, c, dr, 1, j);
            }
            lemma_along_shift(b.0, r, c, dr, 1, (k - 1) as int);
            if run_cells(b, r, c, dr, 1, k) {
                assert forall|j: int| 0 <= j < k - 1 implies #[trigger] disk_along(
                    b.1,
                    r + dr,
                    c + 1,
                    dr,
                    1,
                    j,
                ) by {
                    assert(disk_along(b.1, r, c, dr, 1, j + 1));
                }
                assert(run_cells(b, r + dr, c + 1, dr, 1, (k - 1) as nat));
            }
            if tail_run(w, b.0, idx(r, c), s, k) {
                assert(run_cells(b, r + dr, c + 1, dr, 1, (k - 1) as nat));
                assert forall|j: int| 0 <= j < k implies #[trigger] disk_along(b.1, r, c, dr, 1, j)
                    by {
                    if j > 0 {
                        assert(disk_along(b.1, r + dr, c + 1, dr, 1, j - 1));
                    }
                }
            }
        }
    }
}

/// Empty cells from which one to six bits of `opp & edge`, stepping by `shift` bits,
/// are followed by a bit of `me`.
fn scan(me: u64, opp: u64, shift: u64, edge: u64) -> (r: u64)
    requires
        1 <= shift < 64,
    ensures
        forall|i: int|
            0 <= i < 64 ==> #[trigger] bit_at(r, i) == (!bit_at(me, i) && !bit_at(opp, i) && exists|
                k: nat,
            |
                1 <= k <= 6 && #[trigger] run_after(opp & edge, me, i, shift as int, k)),
{
    let w = opp & edge;
    let mut t = w & (me >> shift);
    let mut n: u64 = 1;
    let ghost s = shift as int;
    proof {
        lemma_and(w, me >> shift);
        lemma_shr(me, shift);
        assert forall|i: int| 0 <= i < 64 implies #[trigger] bit_at(t, i) == exists|k: nat|
            1 <= k <= n && #[trigger] tail_run(w, me, i, s, k) by {
            reveal_with_fuel(tail_run, 2);
            if bit_at(t, i) {
                assert(tail_run(w, me, i, s, 1));
            }
            if exists|k: nat| 1 <= k <= n && #[trigger] tail_run(w, me, i, s, k) {
                assert(tail_run(w, me, i, s, 1));
            }
        }
    }
    while n < 6
        invariant
            1 <= n <= 6,
            w == opp & edge,
            s == shift,
            1 <= shift < 64,
            forall|i: int|
                0 <= i < 64 ==> #[trigger] bit_at(t, i) == exists|k: nat|
                    1 <= k <= n && #[trigger] tail_run(w, me, i, s, k),
        decreases 6 - n,
    {
        let ghost t0 = t;
        let ghost n0 = n;
        t = t | (w & (t >> shift));
        n = n + 1;
        proof {
            lemma_or(t0, w & (t0 >> shift));
            lemma_and(w, t0 >> shift);
            lemma_shr(t0, shift);
            assert forall|i: int| 0 <= i < 64 implies #[trigger] bit_at(t, i) == exists|k: nat|
                1 <= k <= n && #[trigger] tail_run(w, me, i, s, k) by {
                if bit_at(t0, i) {
                    let k = choose|k: nat| 1 <= k <= n0 && #[trigger] tail_run(w, me, i, s, k);
                    assert(tail_run(w, me, i, s, k));
                } else if bit_at(t, i) {
                    assert(bit_at(w, i) && bit_at(t0, i + s));
                    let k = choose|k: nat| 1 <= k <= n0 && #[trigger] tail_run(w, me, i + s, s, k);
                    assert(tail_run(w, me, i, s, k + 1));
                }
                if exists|k: nat| 1 <= k <= n && #[trigger] tail_run(w, me, i, s, k) {
                    let k = choose|k: nat| 1 <= k <= n && #[trigger] tail_run(w, me, i, s, k);
                    if k > 1 {
                        assert(tail_run(w, me, i + s, s, (k - 1) as nat));
                        assert(bit_at(t0, i + s));
                    } else {
                        assert(bit_at(t0, i));
                    }
                }
            }
        }
    }
    let blank = !(me | opp);
    let r = blank & (t >> shift);
    proof {
        lemma_and(blank, t >> shift);
        lemma_shr(t, shift);
        lemma_not(me | opp);
        lemma_or(me, opp);
        assert forall|i: int| 0 <= i < 64 implies #[trigger] bit_at(r, i) == (!bit_at(me, i)
            && !bit_at(opp, i) && exists|k: nat|
            1 <= k <= 6 && #[trigger] run_after(opp & edge, me, i, shift as int, k)) by {
            if bit_at(t, i + s) {
                let k = choose|k: nat| 1 <= k <= n && #[trigger] tail_run(w, me, i + s, s, k);
                assert(run_after(w, me, i, s, k));
            }
            if exists|k: nat| 1 <= k <= 6 && #[trigger] run_after(w, me, i, s, k) {
                let k = choose|k: nat| 1 <= k <= 6 && #[trigger] run_after(w, me, i, s, k);
                assert(tail_run(w, me, i + s, s, k));
                assert(bit_at(w, i + s));
            }
        }
    }
    r
}

/// What `scan` finds along direction (dr, 1) are the empty cells that capture in that direction.
proof fn lemma_scan_captures(b: Board, res: u64, dr: int, s: int, edge: u64)
    requires
        dr == 0 || dr == 1,
        s == 8 * dr + 1,
        edge == if dr == 0 {
            EDGE_COLS
        } else {
            EDGE_INNER
        },
        forall|i: int|
            0 <= i < 64 ==> #[trigger] bit_at(res, i) == (!bit_at(b.0, i) && !bit_at(b.1, i)
                && exists|k: nat| 1 <= k <= 6 && #[trigger] run_after(b.1 & edge, b.0, i, s, k)),
    ensures
        forall|r: int, c: int|
            in_board(r, c) ==> #[trigger] bit_at(res, idx(r, c)) == (is_empty(b, r, c) && captures(
                b,
                r,
                c,
                dr,
                1,
            )),
{
    let w = b.1 & edge;
    lemma_and(b.1, edge);
    lemma_edge_masks();
    assert forall|r: int, c: int| in_board(r, c) implies #[trigger] bit_at(res, idx(r, c)) == (
    is_empty(b, r, c) && captures(b, r, c, dr, 1)) by {
        let i = idx(r, c);
        let on = c <= 6 && r + dr <= 7;
        if on {
            assert(i + s == idx(r + dr, c + 1));
            assert forall|k: nat| k >= 1 implies #[trigger] run_after(w, b.0, i, s, k) == bracket(
                b,
                r,
                c,
                dr,
                1,
                k as int,
            ) by {
                lemma_tail_run_cells(b, edge, dr, r + dr, c + 1, k);
                assert forall|j: int| #[trigger] disk_along(b.1, r + dr, c + 1, dr, 1, j)
                    == disk_along(b.1, r, c, dr, 1, j + 1) by {
                    lemma_along_shift(b.1, r, c, dr, 1, j);
                }
                lemma_along_shift(b.0, r, c, dr, 1, k as int);
                if run_cells(b, r + dr, c + 1, dr, 1, k) {
                    assert forall|j: int| 1 <= j <= k implies #[trigger] disk_along(
                        b.1,
                        r,
                        c,
                        dr,
                        1,
                        j,
                    ) by {
                        assert(disk_along(b.1, r + dr, c + 1, dr, 1, j - 1));
                    }
                }
                if bracket(b, r, c, dr, 1, k as int) {
                    assert forall|j: int| 0 <= j < k implies #[trigger] disk_along(
                        b.1,
                        r + dr,
                        c + 1,
                        dr,
                        1,
                        j,
                    ) by {
                        assert(disk_along(b.1, r, c, dr, 1, j + 1));
                    }
                }
            }
            if captures(b, r, c, dr, 1) {
                let k = choose|k: int| bracket(b, r, c, dr, 1, k);
                assert(disk_along(b.0, r, c, dr, 1, k + 1));
                assert(run_after(w, b.0, i, s, k as nat));
            }
            if exists|k: nat| 1 <= k <= 6 && #[trigger] run_after(w, b.0, i, s, k) {
                let k = choose|k: nat| 1 <= k <= 6 && #[trigger] run_after(w, b.0, i, s, k);
                assert(bracket(b, r, c, dr, 1, k as int));
            }
        } else {
            if c == 7 && r + dr <= 6 {
                assert(i + s == idx(r + dr + 1, 0));
            }
            assert forall|k: nat| k >= 1 implies !#[trigger] run_after(w, b.0, i, s, k) by {
                assert(!bit_at(w, i + s));
            }
            if captures(b, r, c, dr, 1) {
                let k = choose|k: int| bracket(b, r, c, dr, 1, k);
                assert(disk_along(b.1, r, c, dr, 1, 1));
            }
        }
    }
}

/// Empty cells from which the mover captures along a row, towards higher columns.
fn valid_mask_left(board: &Board) -> (r: Mask)
    ensures
        forall|rr: int, cc: int|
            in_board(rr, cc) ==> #[trigger] bit_at(r, idx(rr, cc)) == (is_empty(*board, rr, cc)
                && captures(*board, rr, cc, 0, 1)),
{
    let r = scan(board.0, board.1, 1, EDGE_COLS);
    proof {
        lemma_scan_captures(*board, r, 0, 1, EDGE_COLS);
    }
    r
}

/// Empty cells from which the mover captures along the diagonal towards higher rows and columns.
fn valid_mask_top_left(board: &Board) -> (r: Mask)
    ensures
        forall|rr: int, cc: int|
            in_board(rr, cc) ==> #[trigger] bit_at(r, idx(rr, cc)) == (is_empty(*board, rr, cc)
                && captures(*board, rr, cc, 1, 1)),
{
    let r = scan(board.0, board.1, 9, EDGE_INNER);
    proof {
        lemma_scan_captures(*board, r, 1, 9, EDGE_INNER);
    }
    r
}

/// `rotated_board` applied `q` times.
pub open spec fn rotated_board_n(b: Board, q: nat) -> Board
    decreases q,
{
    if q == 0 {
        b
    } else {
        rotated_board(rotated_board_n(b, (q - 1) as nat))
    }
}

/// Row of the cell of the board that lands on (r, c) after `q` quarter turns.
pub open spec fn turn_r(q: nat, r: int, c: int) -> int
    decreases q,
{
    if q == 0 {
        r
    } else {
        turn_r((q - 1) as nat, c, 7 - r)
    }
}

/// Column of the cell of the board that lands on (r, c) after `q` quarter turns.
pub open spec fn turn_c(q: nat, r: int, c: int) -> int
    decreases q,
{
    if q == 0 {
        c
    } else {
        turn_c((q - 1) as nat, c, 7 - r)
    }
}

/// Row step on the board of direction (dr, dc) after `q` quarter turns.
pub open spec fn turn_dr(q: nat, dr: int, dc: int) -> int
    decreases q,
{
    if q == 0 {
        dr
    } else {
        turn_dr((q - 1) as nat, dc, -dr)
    }
}

/// Column step on the board of direction (dr, dc) after `q` quarter turns.
pub open spec fn turn_dc(q: nat, dr: int, dc: int) -> int
    decreases q,
{
    if q == 0 {
        dc
    } else {
        turn_dc((q - 1) as nat, dc, -dr)
    }
}

/// Cells and captures of the board turned `q` times are those of the board at the turned cell.
pub proof fn lemma_turned_captures(b: Board, q: nat, r: int, c: int, dr: int, dc: int)
    ensures
        captures(rotated_board_n(b, q), r, c, dr, dc) == captures(
            b,
            turn_r(q, r, c),
            turn_c(q, r, c),
            turn_dr(q, dr, dc),
            turn_dc(q, dr, dc),
        ),
        is_empty(rotated_board_n(b, q), r, c) == is_empty(b, turn_r(q, r, c), turn_c(q, r, c)),
        in_board(r, c) ==> in_board(turn_r(q, r, c), turn_c(q, r, c)),
    decreases q,
{
    if q > 0 {
        lemma_rotated_captures(rotated_board_n(b, (q - 1) as nat), r, c, dr, dc);
        lemma_turned_captures(b, (q - 1) as nat, c, 7 - r, dc, -dr);
    }
}

/// The two scanned directions, turned `q` times, are compass directions `2q` and `2q + 1`.
proof fn lemma_turned_dirs(q: nat)
    requires
        q < 4,
    ensures
        turn_dr(q, 0, 1) == dir_r(2 * q as int),
        turn_dc(q, 0, 1) == dir_c(2 * q as int),
        turn_dr(q, 1, 1) == dir_r(2 * q as int + 1),
        turn_dc(q, 1, 1) == dir_c(2 * q as int + 1),
{
    reveal_with_fuel(turn_dr, 4);
    reveal_with_fuel(turn_dc, 4);
}

/// Four quarter turns bring each cell back.
proof fn lemma_turn_four(r: int, c: int)
    ensures
        turn_r(4, r, c) == r,
        turn_c(4, r, c) == c,
{
    reveal_with_fuel(turn_r, 5);
    reveal_with_fuel(turn_c, 5);
}

/// The mover's legal cells among those that capture in one of the first `n` directions.
pub open spec fn legal_upto(b: Board, r: int, c: int, n: int) -> bool {
    &&& is_empty(b, r, c)
    &&& exists|d: int| 0 <= d < n && #[trigger] captures(b, r, c, dir_r(d), dir_c(d))
}

/// Union of the directional masks, each turned back in step with the scan.
pub open spec fn folded(parts: Seq<(u64, u64)>, q: nat) -> u64
    decreases q,
{
    if q == 0 {
        0
    } else {
        rotated(folded(parts, (q - 1) as nat) | parts[q - 1].0 | parts[q - 1].1)
    }
}

/// The pair of directional masks of the board turned `q` times, read at its cell (r, c).
pub open spec fn hint_pair_ok(b: Board, q: nat, h: (u64, u64)) -> bool {
    forall|r: int, c: int|
        #![trigger bit_at(h.0, idx(r, c))]
        #![trigger bit_at(h.1, idx(r, c))]
        in_board(r, c) ==> {
            let tr = turn_r(q, r, c);
            let tc = turn_c(q, r, c);
            &&& bit_at(h.0, idx(r, c)) == (is_empty(b, tr, tc) && captures(
                b,
                tr,
                tc,
                dir_r(2 * q as int),
                dir_c(2 * q as int),
            ))
            &&& bit_at(h.1, idx(r, c)) == (is_empty(b, tr, tc) && captures(
                b,
                tr,
                tc,
                dir_r(2 * q as int + 1),
                dir_c(2 * q as int + 1),
            ))
        }
}

/// The four hint pairs are those of board `b`.
pub open spec fn hints_of(b: Board, parts: ValidMaskParts) -> bool {
    forall|q: int| 0 <= q < 4 ==> #[trigger] hint_pair_ok(b, q as nat, parts[q])
}

impl Board {
    /// The board rotated 90 degrees counter-clockwise.
    fn rotate(&self) -> (r: Board)
        ensures
            r == rotated_board(*self),
    {
        Board(rotate_mask(self.0), rotate_mask(self.1))
    }

    /// Calculates the cells in which the mover can put a disk, and the directional
    /// masks of each rotation of the board that capture resolution reuses.
    pub fn get_valid_mask(&self) -> (res: (Mask, ValidMaskParts))
        ensures
            forall|r: int, c: int|
                in_board(r, c) ==> #[trigger] bit_at(res.0, idx(r, c)) == legal(*self, r, c),
            hints_of(*self, res.1),
            res.0 == rotated_n(res.1[0].0 | res.1[0].1, 4) | rotated_n(res.1[1].0 | res.1[1].1, 3)
                | rotated_n(res.1[2].0 | res.1[2].1, 2) | rotated_n(res.1[3].0 | res.1[3].1, 1),
    {
        let b = *self;
        let mut acc: Mask = 0;
        let mut parts: Vec<(Mask, Mask)> = Vec::new();
        let mut rotated_board = *self;
        let mut q: usize = 0;
        proof {
            lemma_zero();
        }
        while q < 4
            invariant
                q <= 4,
                parts@.len() == q,
                rotated_board == rotated_board_n(b, q as nat),
                acc == folded(parts@, q as nat),
                forall|i: int| 0 <= i < q ==> #[trigger] hint_pair_ok(b, i as nat, parts@[i]),
                forall|r: int, c: int|
                    in_board(r, c) ==> #[trigger] bit_at(acc, idx(r, c)) == legal_upto(
                        b,
                        turn_r(q as nat, r, c),
                        turn_c(q as nat, r, c),
                        2 * q,
                    ),
            decreases 4 - q,
        {
            let left = valid_mask_left(&rotated_board);
            let top_left = valid_mask_top_left(&rotated_board);
            let ghost acc0 = acc;
            let ghost qq: int = q as int;
            let ghost parts0 = parts@;
            parts.push((left, top_left));
            acc = rotate_mask(acc | left | top_left);
            proof {
                lemma_turned_dirs(qq as nat);
                assert forall|r: int, c: int| in_board(r, c) implies {
                    let tr = turn_r(qq as nat, r, c);
                    let tc = turn_c(qq as nat, r, c);
                    &&& bit_at(left, idx(r, c)) == (is_empty(b, tr, tc) && captures(
                        b,
                        tr,
                        tc,
                        dir_r(2 * qq),
                        dir_c(2 * qq),
                    ))
                    &&& bit_at(top_left, idx(r, c)) == (is_empty(b, tr, tc) && captures(
                        b,
                        tr,
                        tc,
                        dir_r(2 * qq + 1),
                        dir_c(2 * qq + 1),
                    ))
                } by {
                    lemma_turned_captures(b, qq as nat, r, c, 0, 1);
                    lemma_turned_captures(b, qq as nat, r, c, 1, 1);
                }
                assert(hint_pair_ok(b, qq as nat, (left, top_left)));
                assert(parts@[q as int] == (left, top_left));
                assert forall|i: int| 0 <= i < q + 1 implies #[trigger] hint_pair_ok(
                    b,
                    i as nat,
                    parts@[i],
                ) by {
                    if i < q {
                        assert(parts@[i] == parts0[i]);
                    }
                }
                assert(folded(parts@, qq as nat) == folded(parts0, qq as nat)) by {
                    lemma_folded_prefix(parts0, parts@, qq as nat);
                }
                lemma_or(acc0, left);
                lemma_or(acc0 | left, top_left);
                assert forall|r: int, c: int| in_board(r, c) implies #[trigger] bit_at(acc, idx(r, c))
                    == legal_upto(b, turn_r((qq + 1) as nat, r, c), turn_c((qq + 1) as nat, r, c), 2 * (qq + 1)) by {
                    let r1 = c;
                    let c1 = 7 - r;
                    assert(turn_r((qq + 1) as nat, r, c) == turn_r(qq as nat, r1, c1));
                    assert(turn_c((qq + 1) as nat, r, c) == turn_c(qq as nat, r1, c1));
                    let tr = turn_r(qq as nat, r1, c1);
                    let tc = turn_c(qq as nat, r1, c1);
                    assert(bit_at(acc, idx(r, c)) == bit_at(acc0 | left | top_left, idx(r1, c1)));
                    assert(in_board(r1, c1));
                    assert(bit_at(acc0, idx(r1, c1)) == legal_upto(b, tr, tc, 2 * qq));
                    if bit_at(left, idx(r1, c1)) {
                        assert(captures(b, tr, tc, dir_r(2 * qq), dir_c(2 * qq)));
                        assert(legal_upto(b, tr, tc, 2 * (qq + 1)));
                    }
                    if bit_at(top_left, idx(r1, c1)) {
                        assert(captures(b, tr, tc, dir_r(2 * qq + 1), dir_c(2 * qq + 1)));
                        assert(legal_upto(b, tr, tc, 2 * (qq + 1)));
                    }
                    if legal_upto(b, tr, tc, 2 * (qq + 1)) {
                        let d = choose|d: int|
                            0 <= d < 2 * (qq + 1) && #[trigger] captures(b, tr, tc, dir_r(d), dir_c(d));
                        if d < 2 * qq {
                            assert(legal_upto(b, tr, tc, 2 * qq));
                        }
                    }
                    if legal_upto(b, tr, tc, 2 * qq) {
                        let d = choose|d: int|
                            0 <= d < 2 * qq && #[trigger] captures(b, tr, tc, dir_r(d), dir_c(d));
                        assert(0 <= d < 2 * (qq + 1) && captures(b, tr, tc, dir_r(d), dir_c(d)));
                    }
                }
            }
            rotated_board = rotated_board.rotate();
            q = q + 1;
        }
        let res = [parts[0], parts[1], parts[2], parts[3]];
        proof {
            assert forall|r: int, c: int| in_board(r, c) implies #[trigger] bit_at(acc, idx(r, c))
                == legal(b, r, c) by {
                lemma_turn_four(r, c);
                if legal(b, r, c) {
                    let d = choose|d: int|
                        0 <= d < 8 && #[trigger] captures(b, r, c, dir_r(d), dir_c(d));
                    assert(legal_upto(b, r, c, 8));
                }
            }
            assert forall|i: int| 0 <= i < 4 implies #[trigger] hint_pair_ok(b, i as nat, res[i]) by {
                assert(res[i] == parts@[i]);
            }
            lemma_folded_four(parts@);
            assert(parts@[0] == res[0] && parts@[1] == res[1] && parts@[2] == res[2] && parts@[3]
                == res[3]);
        }
        (acc, res)
    }
}

/// The union depends only on the pairs it has taken in.
proof fn lemma_folded_prefix(a: Seq<(u64, u64)>, b: Seq<(u64, u64)>, q: nat)
    requires
        q <= a.len(),
        q <= b.len(),
        forall|i: int| 0 <= i < q ==> a[i] == b[i],
    ensures
        folded(a, q) == folded(b, q),
    decreases q,
{
    if q > 0 {
        lemma_folded_prefix(a, b, (q - 1) as nat);
    }
}

/// The accumulated union is each directional pair turned back to the board's orientation.
proof fn lemma_folded_four(p: Seq<(u64, u64)>)
    requires
        p.len() == 4,
    ensures
        folded(p, 4) == rotated_n(p[0].0 | p[0].1, 4) | rotated_n(p[1].0 | p[1].1, 3) | rotated_n(
            p[2].0 | p[2].1,
            2,
        ) | rotated_n(p[3].0 | p[3].1, 1),
{
    let u0 = p[0].0 | p[0].1;
    let u1 = p[1].0 | p[1].1;
    let u2 = p[2].0 | p[2].1;
    let u3 = p[3].0 | p[3].1;
    reveal_with_fuel(folded, 5);
    reveal_with_fuel(rotated_n, 5);
    lemma_rotated_or(0, u0);
    assert(0u64 | u0 == u0) by (bit_vector);
    assert forall|a: u64, b: u64, c: u64| #[trigger] (a | b | c) == a | (b | c) by {
        assert((a | b | c) == a | (b | c)) by (bit_vector);
    }
    let f1 = rotated(u0);
    assert(folded(p, 1) == f1);
    lemma_rotated_or(f1, u1);
    let f2 = rotated(f1 | u1);
    assert(folded(p, 2) == f2);
    lemma_rotated_or(rotated(f1), rotated(u1));
    lemma_rotated_or(f2, u2);
    let f3 = rotated(f2 | u2);
    assert(folded(p, 3) == f3);
    lemma_rotated_or(rotated(f2), rotated(u2));
    lemma_rotated_or(f3, u3);
    lemma_rotated_or(rotated(rotated(f1)), rotated(rotated(u1)));
    lemma_rotated_or(rotated(rotated(f2)), rotated(rotated(u2)));
    lemma_rotated_or(rotated(rotated(rotated(f1))), rotated(rotated(rotated(u1))));
    assert(folded(p, 4) == rotated(f3 | u3));
}

/// Columns 1 to 7: where a disk moved one column up may land.
pub const SHIFT_COLS: u64 = 0xfefefefefefefefe;

/// Rows and columns 1 to 7: where a disk moved one row and one column up may land.
pub const SHIFT_INNER: u64 = 0xfefefefefefefe00;

/// Moving the disk of a single-cell mask one step in direction (dr, 1).
proof fn lemma_transfer(dr: int, r: int, c: int)
    requires
        dr == 0 || dr == 1,
        in_board(r, c),
    ensures
        ((1u64 << (idx(r, c) as u64)) << ((8 * dr + 1) as u64)) & (if dr == 0 {
            SHIFT_COLS
        } else {
            SHIFT_INNER
        }) == if in_board(r + dr, c + 1) {
            1u64 << (idx(r + dr, c + 1) as u64)
        } else {
            0
        },
{
    let rr = r as u64;
    let cc = c as u64;
    let p = idx(r, c) as u64;
    if dr == 0 {
        assert(((1u64 << p) << 1u64) & 0xfefefefefefefefeu64 == if cc < 7 {
            1u64 << (p + 1)
        } else {
            0
        }) by (bit_vector)
            requires
                p == 8 * rr + cc,
                rr < 8,
                cc < 8,
        ;
    } else {
        assert(((1u64 << p) << 9u64) & 0xfefefefefefefe00u64 == if cc < 7 && rr < 7 {
            1u64 << (p + 9)
        } else {
            0
        }) by (bit_vector)
            requires
                p == 8 * rr + cc,
                rr < 8,
                cc < 8,
        ;
    }
}

/// The opponent disks that placing the single disk `mov` on (r, c) flips along direction (dr, 1);
/// `valid` tells whether that direction captures at all.
fn flip_mask_along(
    board: &Board,
    mov: Mask,
    valid: Mask,
    shift: u64,
    edge: u64,
    Ghost(dr): Ghost<int>,
    Ghost(r): Ghost<int>,
    Ghost(c): Ghost<int>,
) -> (res: Mask)
    requires
        dr == 0 || dr == 1,
        shift == 8 * dr + 1,
        edge == if dr == 0 {
            SHIFT_COLS
        } else {
            SHIFT_INNER
        },
        wf(*board),
        in_board(r, c),
        mov == 1u64 << (idx(r, c) as u64),
        bit_at(valid, idx(r, c)) == (is_empty(*board, r, c) && captures(*board, r, c, dr, 1)),
        is_empty(*board, r, c),
    ensures
        forall|rr: int, cc: int|
            in_board(rr, cc) ==> #[trigger] bit_at(res, idx(rr, cc)) == flips_along(
                *board,
                r,
                c,
                dr,
                1,
                rr,
                cc,
            ),
{
    let Board(black, white) = *board;
    proof {
        lemma_single_tests(idx(r, c) as u64, valid);
        lemma_zero();
    }
    if (valid & mov) == mov {
        proof {
            lemma_transfer(dr, r, c);
        }
        let mut m = (mov << shift) & edge;
        let mut rev: Mask = 0;
        let ghost mut j: int = 1;
        while m != 0 && (m & white) != 0
            invariant
                dr == 0 || dr == 1,
                shift == 8 * dr + 1,
                edge == if dr == 0 {
                    SHIFT_COLS
                } else {
                    SHIFT_INNER
                },
                in_board(r, c),
                *board == Board(black, white),
                1 <= j <= 8,
                c + j <= 8,
                m == if in_board(r + j * dr, c + j) {
                    1u64 << (idx(r + j * dr, c + j) as u64)
                } else {
                    0
                },
                forall|l: int| 1 <= l < j ==> #[trigger] disk_along(white, r, c, dr, 1, l),
                forall|rr: int, cc: int|
                    in_board(rr, cc) ==> #[trigger] bit_at(rev, idx(rr, cc)) == exists|l: int|
                        1 <= l < j && #[trigger] on_line(r, c, dr, 1, l, rr, cc),
            decreases 8 - j,
        {
            let ghost rj = r + j * dr;
            let ghost cj = c + j;
            proof {
                if in_board(rj, cj) {
                    lemma_single_tests(idx(rj, cj) as u64, white);
                    lemma_single(idx(rj, cj) as u64);
                    lemma_transfer(dr, rj, cj);
                }
                lemma_or(rev, m);
            }
            let ghost rev0 = rev;
            rev = rev | m;
            m = (m << shift) & edge;
            proof {
                assert(in_board(rj, cj));
                assert(disk_along(white, r, c, dr, 1, j));
                assert(rj + dr == r + (j + 1) * dr && cj + 1 == c + (j + 1)) by (nonlinear_arith)
                    requires
                        rj == r + j * dr,
                        cj == c + j,
                ;
                assert forall|rr: int, cc: int| in_board(rr, cc) implies #[trigger] bit_at(
                    rev,
                    idx(rr, cc),
                ) == exists|l: int| 1 <= l < j + 1 && #[trigger] on_line(r, c, dr, 1, l, rr, cc) by {
                    if bit_at(rev0, idx(rr, cc)) {
                        let l = choose|l: int| 1 <= l < j && #[trigger] on_line(r, c, dr, 1, l, rr, cc);
                        assert(on_line(r, c, dr, 1, l, rr, cc));
                    } else if bit_at(rev, idx(rr, cc)) {
                        assert(rr == rj && cc == cj);
                        assert(on_line(r, c, dr, 1, j, rr, cc));
                    }
                    if exists|l: int| 1 <= l < j + 1 && #[trigger] on_line(r, c, dr, 1, l, rr, cc) {
                        let l = choose|l: int| 1 <= l < j + 1 && #[trigger] on_line(r, c, dr, 1, l, rr, cc);
                        if l == j {
                            assert(idx(rr, cc) == idx(rj, cj));
                        } else {
                            assert(bit_at(rev0, idx(rr, cc)));
                        }
                    }
                }
                j = j + 1;
            }
        }
        let ghost rj = r + j * dr;
        let ghost cj = c + j;
        proof {
            if in_board(rj, cj) {
                lemma_single_tests(idx(rj, cj) as u64, white);
                lemma_single_tests(idx(rj, cj) as u64, black);
            }
            assert(!disk_along(white, r, c, dr, 1, j));
            assert(0u64 & black == 0) by (bit_vector);
        }
        if (m & black) == 0 {
            proof {
                assert(!disk_along(black, r, c, dr, 1, j));
                if captures(*board, r, c, dr, 1) {
                    let k = choose|k: int| bracket(*board, r, c, dr, 1, k);
                    if k < j - 1 {
                        assert(disk_along(white, r, c, dr, 1, k + 1));
                        assert(bit_at(black, idx(r + (k + 1) * dr, c + k + 1)));
                    } else if k >= j {
                        assert(disk_along(white, r, c, dr, 1, j));
                    }
                }
            }
            0
        } else {
            proof {
                assert(in_board(rj, cj));
                assert(disk_along(black, r, c, dr, 1, j));
                assert forall|rr: int, cc: int| in_board(rr, cc) implies #[trigger] bit_at(
                    rev,
                    idx(rr, cc),
                ) == flips_along(*board, r, c, dr, 1, rr, cc) by {
                    if bit_at(rev, idx(rr, cc)) {
                        let l = choose|l: int| 1 <= l < j && #[trigger] on_line(r, c, dr, 1, l, rr, cc);
                        assert(bracket(*board, r, c, dr, 1, j - 1));
                        assert(forall|l2: int| 1 <= l2 <= l ==> #[trigger] disk_along(white, r, c, dr, 1, l2));
                    }
                    if flips_along(*board, r, c, dr, 1, rr, cc) {
                        let l = choose|l: int|
                            l >= 1 && #[trigger] on_line(r, c, dr, 1, l, rr, cc) && forall|l2: int|
                                1 <= l2 <= l ==> #[trigger] disk_along(white, r, c, dr, 1, l2);
                        if l >= j {
                            assert(disk_along(white, r, c, dr, 1, j));
                        }
                        assert(on_line(r, c, dr, 1, l, rr, cc));
                    }
                }
            }
            rev
        }
    } else {
        proof {
            assert(!captures(*board, r, c, dr, 1));
        }
        0
    }
}

/// Rotation of a line: steps from (r, c) on the rotated mask are steps from (c, 7 - r) on the mask.
proof fn lemma_rotated_along(m: u64, r: int, c: int, dr: int, dc: int, j: int)
    ensures
        disk_along(rotated(m), r, c, dr, dc, j) == disk_along(m, c, 7 - r, dc, -dr, j),
        on_line(r, c, dr, dc, j, r + j * dr, c + j * dc),
{
    lemma_rotated_disk(m);
    assert(7 - (r + j * dr) == 7 - r + j * (-dr)) by (nonlinear_arith);
}

/// Flips on the rotated board are flips on the board, turned by a quarter.
proof fn lemma_rotated_flips(b: Board, r: int, c: int, dr: int, dc: int, rr: int, cc: int)
    ensures
        flips_along(rotated_board(b), r, c, dr, dc, rr, cc) == flips_along(
            b,
            c,
            7 - r,
            dc,
            -dr,
            cc,
            7 - rr,
        ),
{
    let rb = rotated_board(b);
    assert(rb.0 == rotated(b.0) && rb.1 == rotated(b.1));
    let r2 = 7 - r;
    let dr2 = -dr;
    let rr2 = 7 - rr;
    lemma_rotated_captures(b, r, c, dr, dc);
    assert forall|j: int|
        #![trigger on_line(r, c, dr, dc, j, rr, cc)]
        #![trigger on_line(c, r2, dc, dr2, j, cc, rr2)]
        on_line(r, c, dr, dc, j, rr, cc) == on_line(c, r2, dc, dr2, j, cc, rr2) by {
        assert(7 - (r + j * dr) == r2 + j * dr2) by (nonlinear_arith)
            requires
                r2 == 7 - r,
                dr2 == -dr,
        ;
    }
    assert forall|l: int|
        #![trigger disk_along(rb.1, r, c, dr, dc, l)]
        #![trigger disk_along(b.1, c, r2, dc, dr2, l)]
        disk_along(rb.1, r, c, dr, dc, l) == disk_along(b.1, c, r2, dc, dr2, l) by {
        lemma_rotated_along(b.1, r, c, dr, dc, l);
    }
    if flips_along(rb, r, c, dr, dc, rr, cc) {
        let j = choose|j: int|
            j >= 1 && #[trigger] on_line(r, c, dr, dc, j, rr, cc) && forall|l: int|
                1 <= l <= j ==> #[trigger] disk_along(rb.1, r, c, dr, dc, l);
        assert(on_line(c, r2, dc, dr2, j, cc, rr2));
        assert forall|l: int| 1 <= l <= j implies #[trigger] disk_along(b.1, c, r2, dc, dr2, l) by {
            assert(disk_along(rb.1, r, c, dr, dc, l));
        }
    }
    if flips_along(b, c, r2, dc, dr2, cc, rr2) {
        let j = choose|j: int|
            j >= 1 && #[trigger] on_line(c, r2, dc, dr2, j, cc, rr2) && forall|l: int|
                1 <= l <= j ==> #[trigger] disk_along(b.1, c, r2, dc, dr2, l);
        assert(on_line(r, c, dr, dc, j, rr, cc));
        assert forall|l: int| 1 <= l <= j implies #[trigger] disk_along(rb.1, r, c, dr, dc, l) by {
            assert(disk_along(b.1, c, r2, dc, dr2, l));
        }
    }
}

/// Flips on the board turned `q` times are flips on the board between the turned cells.
proof fn lemma_turned_flips(b: Board, q: nat, r: int, c: int, dr: int, dc: int, rr: int, cc: int)
    ensures
        flips_along(rotated_board_n(b, q), r, c, dr, dc, rr, cc) == flips_along(
            b,
            turn_r(q, r, c),
            turn_c(q, r, c),
            turn_dr(q, dr, dc),
            turn_dc(q, dr, dc),
            turn_r(q, rr, cc),
            turn_c(q, rr, cc),
        ),
    decreases q,
{
    if q > 0 {
        lemma_rotated_flips(rotated_board_n(b, (q - 1) as nat), r, c, dr, dc, rr, cc);
        lemma_turned_flips(b, (q - 1) as nat, c, 7 - r, dc, -dr, cc, 7 - rr);
    }
}

/// Rotation keeps the colours apart.
proof fn lemma_rotated_wf(b: Board)
    requires
        wf(b),
    ensures
        wf(rotated_board(b)),
{
    lemma_rotated_bits(b.0);
    lemma_rotated_bits(b.1);
    assert forall|i: int| !(#[trigger] bit_at(rotated(b.0), i) && bit_at(rotated(b.1), i)) by {
        if 0 <= i < 64 {
            let r = i / 8;
            let c = i % 8;
            assert(i == idx(r, c));
            assert(!(bit_at(b.0, idx(c, 7 - r)) && bit_at(b.1, idx(c, 7 - r))));
        }
    }
}

/// Rotating a single-cell mask moves its cell from (r, c) to (7 - c, r).
proof fn lemma_rotated_single(r: int, c: int)
    requires
        in_board(r, c),
    ensures
        rotated(1u64 << (idx(r, c) as u64)) == 1u64 << (idx(7 - c, r) as u64),
{
    let m = 1u64 << (idx(r, c) as u64);
    let n = 1u64 << (idx(7 - c, r) as u64);
    lemma_single(idx(r, c) as u64);
    lemma_single(idx(7 - c, r) as u64);
    lemma_rotated_bits(m);
    assert forall|i: int| 0 <= i < 64 implies #[trigger] bit_at(rotated(m), i) == bit_at(n, i) by {
        let rr = i / 8;
        let cc = i % 8;
        assert(i == idx(rr, cc));
        assert(bit_at(rotated(m), idx(rr, cc)) == bit_at(m, idx(cc, 7 - rr)));
    }
    crate::bits::lemma_ext(rotated(m), n);
}

/// Placing at (r, c) flips (rr, cc) along one of the first `n` compass directions.
pub open spec fn flips_upto(b: Board, r: int, c: int, rr: int, cc: int, n: int) -> bool {
    exists|d: int| 0 <= d < n && #[trigger] flips_along(b, r, c, dir_r(d), dir_c(d), rr, cc)
}

impl Board {
    /// Returns the mask of opponent disks that flip when the mover puts a disk on `mov`,
    /// the single cell (r, c).
    fn get_flip_mask(&self, parts: &ValidMaskParts, mov: Mask, Ghost(r): Ghost<int>, Ghost(c): Ghost<int>) -> (res: Mask)
        requires
            wf(*self),
            hints_of(*self, *parts),
            move_at(mov, r, c),
            legal(*self, r, c),
        ensures
            forall|rr: int, cc: int|
                in_board(rr, cc) ==> #[trigger] bit_at(res, idx(rr, cc)) == flips(*self, r, c, rr, cc),
    {
        let b = *self;
        let mut res: Mask = 0;
        let mut rotated_board = *self;
        let mut mov = mov;
        let mut q: usize = 0;
        let ghost mut rq = r;
        let ghost mut cq = c;
        proof {
            lemma_zero();
        }
        while q < 4
            invariant
                q <= 4,
                wf(b),
                hints_of(b, *parts),
                rotated_board == rotated_board_n(b, q as nat),
                wf(rotated_board),
                in_board(rq, cq),
                turn_r(q as nat, rq, cq) == r,
                turn_c(q as nat, rq, cq) == c,
                move_at(mov, rq, cq),
                is_empty(b, r, c),
                forall|rr: int, cc: int|
                    in_board(rr, cc) ==> #[trigger] bit_at(res, idx(rr, cc)) == flips_upto(
                        b,
                        r,
                        c,
                        turn_r(q as nat, rr, cc),
                        turn_c(q as nat, rr, cc),
                        2 * q,
                    ),
            decreases 4 - q,
        {
            let ghost qq: int = q as int;
            let (valid_left, valid_top_left) = parts[q];
            proof {
                assert(hint_pair_ok(b, qq as nat, parts[qq]));
                lemma_turned_dirs(qq as nat);
                lemma_turned_captures(b, qq as nat, rq, cq, 0, 1);
                lemma_turned_captures(b, qq as nat, rq, cq, 1, 1);
            }
            let fl = flip_mask_along(&rotated_board, mov, valid_left, 1, SHIFT_COLS, Ghost(0), Ghost(rq), Ghost(cq));
            let ft = flip_mask_along(&rotated_board, mov, valid_top_left, 9, SHIFT_INNER, Ghost(1), Ghost(rq), Ghost(cq));
            let ghost res0 = res;
            res = rotate_mask(res | fl | ft);
            proof {
                lemma_or(res0, fl);
                lemma_or(res0 | fl, ft);
                assert forall|rr: int, cc: int| in_board(rr, cc) implies #[trigger] bit_at(res, idx(rr, cc))
                    == flips_upto(b, r, c, turn_r((qq + 1) as nat, rr, cc), turn_c((qq + 1) as nat, rr, cc), 2 * (qq + 1)) by {
                    let r1 = cc;
                    let c1 = 7 - rr;
                    assert(turn_r((qq + 1) as nat, rr, cc) == turn_r(qq as nat, r1, c1));
                    assert(turn_c((qq + 1) as nat, rr, cc) == turn_c(qq as nat, r1, c1));
                    let tr = turn_r(qq as nat, r1, c1);
                    let tc = turn_c(qq as nat, r1, c1);
                    assert(bit_at(res, idx(rr, cc)) == bit_at(res0 | fl | ft, idx(r1, c1)));
                    assert(in_board(r1, c1));
                    lemma_turned_flips(b, qq as nat, rq, cq, 0, 1, r1, c1);
                    lemma_turned_flips(b, qq as nat, rq, cq, 1, 1, r1, c1);
                    assert(bit_at(fl, idx(r1, c1)) == flips_along(b, r, c, dir_r(2 * qq), dir_c(2 * qq), tr, tc));
                    assert(bit_at(ft, idx(r1, c1)) == flips_along(b, r, c, dir_r(2 * qq + 1), dir_c(2 * qq + 1), tr, tc));
                    if flips_upto(b, r, c, tr, tc, 2 * (qq + 1)) {
                        let d = choose|d: int|
                            0 <= d < 2 * (qq + 1) && #[trigger] flips_along(b, r, c, dir_r(d), dir_c(d), tr, tc);
                        if d < 2 * qq {
                            assert(flips_upto(b, r, c, tr, tc, 2 * qq));
                        }
                    }
                    if flips_upto(b, r, c, tr, tc, 2 * qq) {
                        let d = choose|d: int|
                            0 <= d < 2 * qq && #[trigger] flips_along(b, r, c, dir_r(d), dir_c(d), tr, tc);
                        assert(0 <= d < 2 * (qq + 1));
                    }
                }
                lemma_rotated_wf(rotated_board);
                lemma_rotated_single(rq, cq);
            }
            rotated_board = rotated_board.rotate();
            mov = rotate_mask(mov);
            proof {
                let nr = 7 - cq;
                let nc = rq;
                assert(turn_r((qq + 1) as nat, nr, nc) == turn_r(qq as nat, nc, 7 - nr));
                assert(turn_c((qq + 1) as nat, nr, nc) == turn_c(qq as nat, nc, 7 - nr));
                rq = nr;
                cq = nc;
            }
            q = q + 1;
        }
        proof {
            assert forall|rr: int, cc: int| in_board(rr, cc) implies #[trigger] bit_at(res, idx(rr, cc))
                == flips(b, r, c, rr, cc) by {
                lemma_turn_four(rr, cc);
                if flips(b, r, c, rr, cc) {
                    let d = choose|d: int|
                        0 <= d < 8 && #[trigger] flips_along(b, r, c, dir_r(d), dir_c(d), rr, cc);
                    assert(flips_upto(b, r, c, rr, cc, 8));
                }
            }
        }
        res
    }
}

/// The number of set bits of the flip mask is the number of flipped disks.
proof fn lemma_count_flips(b: Board, r: int, c: int, f: u64, n: nat)
    requires
        n <= 64,
        forall|rr: int, cc: int|
            in_board(rr, cc) ==> #[trigger] bit_at(f, idx(rr, cc)) == flips(b, r, c, rr, cc),
    ensures
        count_below(f, n) == flips_below(b, r, c, n),
    decreases n,
{
    if n > 0 {
        lemma_count_flips(b, r, c, f, (n - 1) as nat);
        let i = n - 1;
        assert(i == idx(i / 8, i % 8));
        assert(bit_at(f, idx(i / 8, i % 8)) == flips(b, r, c, i / 8, i % 8));
    }
}

/// A single-cell mask names one cell.
pub proof fn lemma_move_unique(mov: u64, r: int, c: int, r2: int, c2: int)
    requires
        move_at(mov, r, c),
        move_at(mov, r2, c2),
    ensures
        r == r2 && c == c2,
{
    lemma_single(idx(r, c) as u64);
    lemma_single(idx(r2, c2) as u64);
    assert(bit_at(mov, idx(r, c)));
}

/// A flipped disk was the opponent's.
pub proof fn lemma_flips_opponent(b: Board, r: int, c: int, rr: int, cc: int)
    requires
        flips(b, r, c, rr, cc),
    ensures
        disk(b.1, rr, cc),
{
    let d = choose|d: int| 0 <= d < 8 && #[trigger] flips_along(b, r, c, dir_r(d), dir_c(d), rr, cc);
    let dr = dir_r(d);
    let dc = dir_c(d);
    let j = choose|j: int|
        j >= 1 && #[trigger] on_line(r, c, dr, dc, j, rr, cc) && forall|l: int|
            1 <= l <= j ==> #[trigger] disk_along(b.1, r, c, dr, dc, l);
    assert(disk_along(b.1, r, c, dr, dc, j));
}

/// A legal-move mask is nonzero exactly when the mover has a legal move.
pub proof fn lemma_mask_moves(b: Board, mask: u64)
    requires
        forall|r: int, c: int| in_board(r, c) ==> #[trigger] bit_at(mask, idx(r, c)) == legal(b, r, c),
    ensures
        (mask != 0) == has_move(b),
{
    lemma_nonzero_has_bit(mask);
    if mask != 0 {
        let i = choose|i: int| 0 <= i < 64 && #[trigger] bit_at(mask, i);
        assert(i == idx(i / 8, i % 8));
        assert(legal(b, i / 8, i % 8));
    }
    if has_move(b) {
        let (r, c) = choose|r: int, c: int| #[trigger] legal(b, r, c);
        assert(bit_at(mask, idx(r, c)));
    }
}

impl Board {
    /// Returns the beginning of games with four disks.
    pub fn new() -> (b: Board)
        ensures
            is_start(b),
    {
        let black = put(put(0, 3, 4), 4, 3);
        let white = put(put(0, 3, 3), 4, 4);
        proof {
            lemma_zero();
            assert forall|i: int| !(#[trigger] bit_at(black, i) && bit_at(white, i)) by {
                if 0 <= i < 64 {
                    assert(i == idx(i / 8, i % 8));
                }
            }
        }
        Board(black, white)
    }

    /// Returns the board with the two colours swapped.
    pub fn switch(&self) -> (r: Board)
        ensures
            r == Board(self.1, self.0),
    {
        Board(self.1, self.0)
    }

    /// Returns the number of disks of the mover and of the opponent.
    pub fn count(&self) -> (r: (u32, u32))
        ensures
            r == (popcount(self.0) as u32, popcount(self.1) as u32),
            r.0 == popcount(self.0),
            r.1 == popcount(self.1),
    {
        (count_ones(self.0), count_ones(self.1))
    }

    /// Returns true iff either side can place a disk; false means the end of the game.
    pub fn continues(&self) -> (r: bool)
        ensures
            r == (has_move(*self) || has_move(Board(self.1, self.0))),
    {
        let (a, _) = self.get_valid_mask();
        let (b, _) = self.switch().get_valid_mask();
        proof {
            lemma_mask_moves(*self, a);
            lemma_mask_moves(Board(self.1, self.0), b);
        }
        a != 0 || b != 0
    }

    /// Returns the board after the mover puts a disk on `mov` and the opponent disks it
    /// brackets flip. `hints` are the directional masks of this board.
    pub fn flip_with_hints(&self, mov: Mask, hints: &ValidMaskParts) -> (nb: Board)
        requires
            wf(*self),
            hints_of(*self, *hints),
            is_legal_move(*self, mov),
        ensures
            wf(nb),
            forall|r: int, c: int|
                #[trigger] move_at(mov, r, c) ==> {
                    &&& placed(*self, r, c, nb)
                    &&& forall|rr: int, cc: int| #[trigger] flips(*self, r, c, rr, cc) ==> disk(self.1, rr, cc)
                    &&& popcount(nb.0) == popcount(self.0) + 1 + flip_count(*self, r, c)
                    &&& popcount(nb.1) + flip_count(*self, r, c) == popcount(self.1)
                    &&& popcount(nb.0) + popcount(nb.1) == popcount(self.0) + popcount(self.1) + 1
                },
    {
        let ghost (r, c) = choose|r: int, c: int| move_at(mov, r, c) && #[trigger] legal(*self, r, c);
        let flip = self.get_flip_mask(hints, mov, Ghost(r), Ghost(c));
        let nb = Board(self.0 | mov | flip, self.1 ^ flip);
        proof {
            let b = *self;
            let p = idx(r, c);
            lemma_single(p as u64);
            lemma_or(b.0, mov);
            lemma_or(b.0 | mov, flip);
            lemma_xor(b.1, flip);
            lemma_zero();
            assert forall|rr: int, cc: int| in_board(rr, cc) && #[trigger] bit_at(flip, idx(rr, cc)) implies bit_at(b.1, idx(rr, cc)) by {
                lemma_flips_opponent(b, r, c, rr, cc);
            }
            assert(placed(b, r, c, nb));
            assert forall|i: int| !(#[trigger] bit_at(nb.0, i) && bit_at(nb.1, i)) by {
                if 0 <= i < 64 {
                    assert(i == idx(i / 8, i % 8));
                }
            }
            // The mover's new disks: old ones, the placed one and the flipped ones, all apart.
            let u = b.0 | mov;
            assert forall|i: int| 0 <= i < 64 implies !(#[trigger] bit_at(b.0, i) && bit_at(mov, i)) by {}
            lemma_count_disjoint_union(b.0, mov, u, 64);
            assert forall|i: int| 0 <= i < 64 implies !(#[trigger] bit_at(u, i) && bit_at(flip, i)) by {
                assert(i == idx(i / 8, i % 8));
            }
            lemma_count_disjoint_union(u, flip, nb.0, 64);
            lemma_count_single(mov, p, 64);
            lemma_count_flips(b, r, c, flip, 64);
            assert forall|i: int| 0 <= i < 64 implies #[trigger] bit_at(b.1, i) == (bit_at(nb.1, i) || bit_at(flip, i)) by {
                assert(i == idx(i / 8, i % 8));
            }
            lemma_count_disjoint_union(nb.1, flip, b.1, 64);
            assert forall|r2: int, c2: int| #[trigger] move_at(mov, r2, c2) implies r2 == r && c2 == c by {
                lemma_move_unique(mov, r, c, r2, c2);
            }
            assert forall|rr: int, cc: int| #[trigger] flips(b, r, c, rr, cc) implies disk(b.1, rr, cc) by {
                lemma_flips_opponent(b, r, c, rr, cc);
            }
        }
        nb
    }

    /// Returns the board after the mover puts a disk on `mov` and the opponent disks it
    /// brackets flip.
    pub fn flip(&self, mov: Mask) -> (nb: Board)
        requires
            wf(*self),
            is_legal_move(*self, mov),
        ensures
            wf(nb),
            forall|r: int, c: int|
                #[trigger] move_at(mov, r, c) ==> {
                    &&& placed(*self, r, c, nb)
                    &&& forall|rr: int, cc: int| #[trigger] flips(*self, r, c, rr, cc) ==> disk(self.1, rr, cc)
                    &&& popcount(nb.0) == popcount(self.0) + 1 + flip_count(*self, r, c)
                    &&& popcount(nb.1) + flip_count(*self, r, c) == popcount(self.1)
                    &&& popcount(nb.0) + popcount(nb.1) == popcount(self.0) + popcount(self.1) + 1
                },
    {
        let (_, hints) = self.get_valid_mask();
        self.flip_with_hints(mov, &hints)
    }
}

/// Puts a disk on the cell (r, c).
pub fn put(mask: Mask, r: usize, c: usize) -> (res: Mask)
    requires
        r < 8,
        c < 8,
    ensures
        res == mask | (1u64 << (idx(r as int, c as int) as u64)),
        forall|i: int, j: int|
            in_board(i, j) ==> #[trigger] bit_at(res, idx(i, j)) == (bit_at(mask, idx(i, j)) || (i
                == r && j == c)),
{
    let p = (r * 8 + c) as u64;
    proof {
        lemma_single(p);
        lemma_or(mask, 1u64 << p);
    }
    mask | (1u64 << p)
}

/// Checks if the cell (r, c) has a disk.
pub fn get(mask: Mask, r: usize, c: usize) -> (res: bool)
    requires
        r < 8,
        c < 8,
    ensures
        res == bit_at(mask, idx(r as int, c as int)),
{
    mask >> ((r * 8 + c) as u64) & 1 == 1
}

/// Returns the mask whose only disk is on the cell (r, c).
pub fn position_to_mask(r: usize, c: usize) -> (res: Mask)
    requires
        r < 8,
        c < 8,
    ensures
        move_at(res, r as int, c as int),
{
    proof {
        lemma_zero();
        assert(0u64 | (1u64 << (idx(r as int, c as int) as u64)) == 1u64 << (idx(r as int, c as int) as u64)) by (bit_vector);
    }
    put(0, r, c)
}

/// Returns the cell of the disk of `mask` with the lowest index: the smallest (r, c) in
/// row-major order. An empty mask gives (8, 0).
pub fn coordinate(mask: Mask) -> (res: (usize, usize))
    ensures
        mask != 0 ==> in_board(res.0 as int, res.1 as int) && bit_at(mask, idx(res.0 as int, res.1 as int))
            && forall|i: int| 0 <= i < idx(res.0 as int, res.1 as int) ==> !#[trigger] bit_at(mask, i),
        mask == 0 ==> res == (8usize, 0usize),
{
    let n = mask.trailing_zeros() as usize;
    proof {
        vstd::std_specs::bits::axiom_u64_trailing_zeros(mask);
    }
    (n / 8, n % 8)
}

/// A move leads to one board only.
pub proof fn lemma_after(b: Board, r: int, c: int, nb: Board)
    requires
        placed(b, r, c, nb),
    ensures
        after(b, r, c) == nb,
{
    let a = after(b, r, c);
    assert forall|i: int|
        #![trigger bit_at(a.0, i)]
        #![trigger bit_at(a.1, i)]
        0 <= i < 64 implies bit_at(a.0, i) == bit_at(nb.0, i) && bit_at(a.1, i) == bit_at(nb.1, i) by {
        assert(i == idx(i / 8, i % 8));
        assert(bit_at(a.0, idx(i / 8, i % 8)) == bit_at(nb.0, idx(i / 8, i % 8)));
        assert(bit_at(a.1, idx(i / 8, i % 8)) == bit_at(nb.1, idx(i / 8, i % 8)));
    }
    crate::bits::lemma_ext(a.0, nb.0);
    crate::bits::lemma_ext(a.1, nb.1);
}

/// The number of set bits of a legal-move mask is the number of legal moves.
pub proof fn lemma_count_legal(b: Board, mask: u64, n: nat)
    requires
        n <= 64,
        forall|r: int, c: int| in_board(r, c) ==> #[trigger] bit_at(mask, idx(r, c)) == legal(b, r, c),
    ensures
        count_below(mask, n) == legal_below(b, n),
    decreases n,
{
    if n > 0 {
        lemma_count_legal(b, mask, (n - 1) as nat);
        let i = n - 1;
        assert(i == idx(i / 8, i % 8));
        assert(bit_at(mask, idx(i / 8, i % 8)) == legal(b, i / 8, i % 8));
    }
}

} // verus!
