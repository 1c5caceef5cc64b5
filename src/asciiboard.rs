//! A text grid of the board: cells at odd rows and columns, lines in between.
use crate::bitboard::{get, Mask};
use crate::bits::{bit_at, idx};
use vstd::prelude::*;

verus! {

pub const BLACK_MARK: char = 'x';

pub const WHITE_MARK: char = 'o';

pub const VALID_MOVE_MARK: char = '.';

pub const EMPTY_MARK: char = ' ';

/// Side of the grid: a line around and between the eight cells of each row and column.
pub const GRID: usize = 17;

/// The character at row `i`, column `j` of an empty grid.
pub open spec fn frame_char(i: int, j: int) -> char {
    if i % 2 == 1 && j % 2 == 1 {
        EMPTY_MARK
    } else if i % 2 == 0 && j % 2 == 0 {
        '+'
    } else if i % 2 == 0 {
        '-'
    } else {
        '|'
    }
}

/// A square grid of side `GRID`.
pub open spec fn is_grid(g: Seq<Vec<char>>) -> bool {
    g.len() == GRID && forall|i: int| 0 <= i < GRID ==> (#[trigger] g[i])@.len() == GRID
}

/// Returns a new empty grid.
pub fn empty() -> (grid: Vec<Vec<char>>)
    ensures
        is_grid(grid@),
        forall|i: int, j: int| 0 <= i < GRID && 0 <= j < GRID ==> #[trigger] grid@[i]@[j] == frame_char(i, j),
{
    let mut grid: Vec<Vec<char>> = Vec::new();
    let mut i: usize = 0;
    while i < GRID
        invariant
            i <= GRID,
            grid@.len() == i,
            forall|k: int| 0 <= k < i ==> (#[trigger] grid@[k])@.len() == GRID,
            forall|k: int, j: int| 0 <= k < i && 0 <= j < GRID ==> #[trigger] grid@[k]@[j] == frame_char(k, j),
        decreases GRID - i,
    {
        let mut row: Vec<char> = Vec::new();
        let mut j: usize = 0;
        while j < GRID
            invariant
                j <= GRID,
                row@.len() == j,
                forall|l: int| 0 <= l < j ==> #[trigger] row@[l] == frame_char(i as int, l),
            decreases GRID - j,
        {
            let ch = if i % 2 == 1 && j % 2 == 1 {
                EMPTY_MARK
            } else if i % 2 == 0 && j % 2 == 0 {
                '+'
            } else if i % 2 == 0 {
                '-'
            } else {
                '|'
            };
            row.push(ch);
            j = j + 1;
        }
        grid.push(row);
        i = i + 1;
    }
    grid
}

/// Writes `c` into the grid at each cell that `mask` holds.
pub fn write_mask(grid: &mut Vec<Vec<char>>, mask: Mask, c: char)
    requires
        is_grid(old(grid)@),
    ensures
        is_grid(final(grid)@),
        forall|i: int, j: int|
            0 <= i < GRID && 0 <= j < GRID ==> #[trigger] final(grid)@[i]@[j] == if i % 2 == 1 && j
                % 2 == 1 && bit_at(mask, idx(i / 2, j / 2)) {
                c
            } else {
                old(grid)@[i]@[j]
            },
{
    let ghost start = grid@;
    let mut i: usize = 0;
    while i < GRID
        invariant
            i <= GRID,
            is_grid(grid@),
            is_grid(start),
            forall|k: int, j: int|
                0 <= k < GRID && 0 <= j < GRID ==> #[trigger] grid@[k]@[j] == if k < i && k % 2 == 1 && j % 2 == 1
                    && bit_at(mask, idx(k / 2, j / 2)) {
                    c
                } else {
                    start[k]@[j]
                },
        decreases GRID - i,
    {
        let mut j: usize = 0;
        while j < GRID
            invariant
                i < GRID,
                j <= GRID,
                is_grid(grid@),
                is_grid(start),
                forall|k: int, l: int|
                    0 <= k < GRID && 0 <= l < GRID ==> #[trigger] grid@[k]@[l] == if (k < i || (k == i
                        && l < j)) && k % 2 == 1 && l % 2 == 1 && bit_at(mask, idx(k / 2, l / 2)) {
                        c
                    } else {
                        start[k]@[l]
                    },
            decreases GRID - j,
        {
            if i % 2 == 1 && j % 2 == 1 && get(mask, i / 2, j / 2) {
                grid[i][j] = c;
            }
            j = j + 1;
        }
        i = i + 1;
    }
}

} // verus!
