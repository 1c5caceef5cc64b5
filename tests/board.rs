use reversi::bitboard::{coordinate, get, position_to_mask, put, rotate_mask, Board, Mask};

fn cells(mask: Mask) -> Vec<(usize, usize)> {
    let mut out = Vec::new();
    for i in 0..64 {
        if mask >> i & 1 == 1 {
            out.push((i / 8, i % 8));
        }
    }
    out
}

#[test]
fn rotate_four_times_is_identity() {
    let samples: [Mask; 6] = [
        0,
        1,
        0x8000_0000_0000_0000,
        0x0123_4567_89ab_cdef,
        0xffff_ffff_ffff_ffff,
        0x0000_0010_0800_0000,
    ];
    for &m in samples.iter() {
        assert_eq!(rotate_mask(rotate_mask(rotate_mask(rotate_mask(m)))), m);
    }
}

#[test]
fn rotate_moves_cells_counter_clockwise() {
    // (r, c) goes to (7 - c, r).
    assert_eq!(rotate_mask(position_to_mask(0, 0)), position_to_mask(7, 0));
    assert_eq!(rotate_mask(position_to_mask(0, 7)), position_to_mask(0, 0));
    assert_eq!(rotate_mask(position_to_mask(7, 7)), position_to_mask(0, 7));
    assert_eq!(rotate_mask(position_to_mask(1, 2)), position_to_mask(5, 1));
}

#[test]
fn starting_position() {
    let b = Board::new();
    assert!(get(b.0, 3, 4) && get(b.0, 4, 3));
    assert!(get(b.1, 3, 3) && get(b.1, 4, 4));
    assert_eq!(b.count(), (2, 2));
    let (valid, _) = b.get_valid_mask();
    assert_eq!(valid.count_ones(), 4);
    assert_eq!(cells(valid), vec![(2, 3), (3, 2), (4, 5), (5, 4)]);
}

fn union_of_hints(valid_parts: &[(Mask, Mask); 4]) -> Mask {
    let mut acc = 0;
    for (q, &(left, diag)) in valid_parts.iter().enumerate() {
        let mut m = left | diag;
        for _ in 0..(4 - q) {
            m = rotate_mask(m);
        }
        acc |= m;
    }
    acc
}

#[test]
fn hints_make_up_the_legal_mask() {
    let mut b = Board::new();
    for _ in 0..12 {
        let (valid, parts) = b.get_valid_mask();
        assert_eq!(union_of_hints(&parts), valid);
        if valid == 0 {
            b = b.switch();
            continue;
        }
        let mov = 1u64 << valid.trailing_zeros();
        b = b.flip_with_hints(mov, &parts).switch();
    }
}

#[test]
fn flip_places_and_flips() {
    let b = Board::new();
    let mov = position_to_mask(2, 3);
    let nb = b.flip(mov);
    // The placed disk and the bracketed (3, 3) become the mover's.
    assert_eq!(nb.0, b.0 | mov | position_to_mask(3, 3));
    assert_eq!(nb.1, position_to_mask(4, 4));
    assert_eq!(nb.count(), (4, 1));
    assert_eq!(nb.count().0 + nb.count().1, b.count().0 + b.count().1 + 1);
}

#[test]
fn flip_in_several_directions() {
    // Mover at (0, 0), (0, 4), (4, 0), (4, 4); opponent between them and (2, 2).
    let mover = position_to_mask(0, 0) | position_to_mask(0, 4) | position_to_mask(4, 0)
        | position_to_mask(4, 4);
    let opp = position_to_mask(1, 1) | position_to_mask(0, 3) | position_to_mask(0, 2)
        | position_to_mask(3, 0) | position_to_mask(1, 0);
    let b = Board(mover, opp);
    let mov = position_to_mask(0, 1);
    let (valid, hints) = b.get_valid_mask();
    assert!(valid & mov != 0);
    let nb = b.flip_with_hints(mov, &hints);
    // Only the row run (0, 2), (0, 3) is bracketed from (0, 1).
    let flipped = position_to_mask(0, 2) | position_to_mask(0, 3);
    assert_eq!(nb.0, mover | mov | flipped);
    assert_eq!(nb.1, opp ^ flipped);
    assert_eq!(nb.count().0, b.count().0 + 1 + flipped.count_ones());
}

#[test]
fn runs_do_not_wrap_around_edges() {
    // A run reaching column 7 must not continue into column 0 of the next row.
    let mover = position_to_mask(1, 0);
    let opp = position_to_mask(0, 6) | position_to_mask(0, 7);
    let b = Board(mover, opp);
    let (valid, _) = b.get_valid_mask();
    assert_eq!(valid, 0);
    let mover = position_to_mask(0, 7);
    let opp = position_to_mask(0, 6);
    let (valid, _) = Board(mover, opp).get_valid_mask();
    assert_eq!(cells(valid), vec![(0, 5)]);
}

#[test]
fn continues_on_near_full_boards() {
    let full = Board(0xffff_ffff_0000_0000, 0x0000_0000_ffff_ffff);
    assert!(!full.continues());
    // One empty cell that the mover can take.
    let hole = position_to_mask(0, 0);
    let b = Board(!hole & !position_to_mask(0, 1), position_to_mask(0, 1));
    assert!(b.continues());
    // One empty cell, but a single colour on the board.
    let b = Board(!hole, 0);
    assert!(!b.continues());
    // Only the opponent can move.
    let b = Board(position_to_mask(0, 1), !hole & !position_to_mask(0, 1));
    let (mine, _) = b.get_valid_mask();
    assert_eq!(mine, 0);
    assert!(b.continues());
    // Two empty cells, neither side brackets anything.
    let holes = position_to_mask(0, 0) | position_to_mask(7, 7);
    let b = Board(0x00ff_ff00_ff00_ff00 & !holes, !0x00ff_ff00_ff00_ff00 & !holes);
    let (a, _) = b.get_valid_mask();
    let (c, _) = b.switch().get_valid_mask();
    assert_eq!(b.continues(), a != 0 || c != 0);
}

#[test]
fn switch_swaps_colours() {
    let b = Board(5, 10);
    assert_eq!(b.switch(), Board(10, 5));
}

#[test]
fn put_get_and_positions() {
    let m = put(0, 2, 5);
    assert_eq!(m, 1 << 21);
    assert!(get(m, 2, 5));
    assert!(!get(m, 5, 2));
    assert_eq!(position_to_mask(7, 7), 1 << 63);
    assert_eq!(coordinate(position_to_mask(6, 1)), (6, 1));
    assert_eq!(coordinate(position_to_mask(6, 1) | position_to_mask(7, 0)), (6, 1));
    assert_eq!(coordinate(0), (8, 0));
}

