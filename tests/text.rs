use reversi::asciiboard::{empty, write_mask, BLACK_MARK, WHITE_MARK};
use reversi::bitboard::{position_to_mask, Board};
use reversi::player::cli::HumanPlayer;
use reversi::util::position_to_name;

#[test]
fn cell_names() {
    assert_eq!(position_to_name(0, 0), "A1");
    assert_eq!(position_to_name(7, 2), "C8");
    assert_eq!(position_to_name(3, 7), "H4");
}

#[test]
fn empty_grid_frame() {
    let g = empty();
    assert_eq!(g.len(), 17);
    assert!(g.iter().all(|row| row.len() == 17));
    assert_eq!(g[0].iter().collect::<String>(), "+-+-+-+-+-+-+-+-+");
    assert_eq!(g[1].iter().collect::<String>(), "| | | | | | | | |");
}

#[test]
fn write_mask_marks_cells() {
    let b = Board::new();
    let mut g = empty();
    write_mask(&mut g, b.0, BLACK_MARK);
    write_mask(&mut g, b.1, WHITE_MARK);
    assert_eq!(g[7].iter().collect::<String>(), "| | | |o|x| | | |");
    assert_eq!(g[9].iter().collect::<String>(), "| | | |x|o| | | |");
    write_mask(&mut g, position_to_mask(0, 0), '.');
    assert_eq!(g[1][1], '.');
    let _h = HumanPlayer::new();
}
