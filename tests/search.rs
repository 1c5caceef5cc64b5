use reversi::bitboard::{position_to_mask, Board, Mask};
use reversi::gm::{GameManager, Turn};
use reversi::player::alphabeta::{AlphaBetaSearchPlayer, INF, SEARCH_DEPTH};
use reversi::player::random::RandomPlayer;
use reversi::player::Player;
use reversi::rand::Xor128;

#[test]
fn evaluate_sentinels() {
    assert_eq!(AlphaBetaSearchPlayer::evaluate(&Board(0x81, 0), &(0, 0)), INF);
    assert_eq!(AlphaBetaSearchPlayer::evaluate(&Board(0, 0x81), &(0, 0)), -INF);
    assert_eq!(INF, 100_000_000);
}

#[test]
fn evaluate_opening_and_ending() {
    let b = Board::new();
    let (mine, _) = b.get_valid_mask();
    let (theirs, _) = b.switch().get_valid_mask();
    assert_eq!(AlphaBetaSearchPlayer::evaluate(&b, &(mine, theirs)), 0);
    // A corner for the mover (+32), an edge cell next to a corner for the opponent (-8).
    assert_eq!(AlphaBetaSearchPlayer::evaluate(&Board(1, 2), &(0, 0)), 400);
    assert_eq!(AlphaBetaSearchPlayer::evaluate(&Board(1, 2), &(0b111, 0b1)), 410);
    // Four empty cells: disk difference only.
    assert_eq!(AlphaBetaSearchPlayer::evaluate(&Board(0xffff_ffff_ffff_ff00, 0xf0), &(0, 0)), 52);
}

fn full_negamax(b: &Board, depth: usize, passed: bool) -> i32 {
    let (mine, _) = b.get_valid_mask();
    let (theirs, _) = b.switch().get_valid_mask();
    if depth == 0 || (mine == 0 && passed) {
        return AlphaBetaSearchPlayer::evaluate(b, &(mine, theirs));
    }
    if mine == 0 {
        return -full_negamax(&b.switch(), depth, true);
    }
    let mut best = i32::MIN;
    for i in 0..64 {
        let m: Mask = 1 << i;
        if mine & m != 0 {
            best = best.max(-full_negamax(&b.flip(m).switch(), depth - 1, false));
        }
    }
    best
}

#[test]
fn pruning_keeps_the_full_width_value() {
    let mut player = AlphaBetaSearchPlayer::with_depth(3, 2);
    let mut mover = RandomPlayer::new(11);
    let mut b = Board::new();
    for ply in 0..16 {
        for depth in 0..4 {
            let v = player.search(&b, -INF, INF, depth, false);
            assert_eq!(v, full_negamax(&b, depth, false), "ply {} depth {}", ply, depth);
        }
        match mover.next(&b) {
            Some(m) => b = b.flip(m).switch(),
            None => b = b.switch(),
        }
    }
}

#[test]
fn search_window_bounds() {
    let mut player = AlphaBetaSearchPlayer::with_depth(5, 2);
    let b = Board::new().flip(position_to_mask(2, 3)).switch();
    let exact = full_negamax(&b, 2, false);
    let low = player.search(&b, exact + 1, exact + 10, 2, false);
    assert!(low <= exact + 1);
    let high = player.search(&b, exact - 10, exact - 1, 2, false);
    assert!(high >= exact - 1);
    let inside = player.search(&b, exact - 1, exact + 1, 2, false);
    assert_eq!(inside, exact);
}

#[test]
fn rng_fixture_after_warm_up() {
    let mut r = Xor128::from_seed(28);
    assert_eq!(r.next(), 1075728937);
    let mut r = Xor128::from_seed(0);
    assert_eq!(r.next(), 1042330925);
    let mut r = Xor128::from_seed(42);
    assert_eq!(r.next(), 1119674323);
}

#[test]
fn rng_values_are_below_two_to_the_31() {
    let mut r = Xor128::from_seed(7);
    for _ in 0..1000 {
        assert!(r.next() < 1 << 31);
    }
}

fn play(seed: u32, depth: usize) -> (Vec<Option<Mask>>, (u32, u32)) {
    let black = AlphaBetaSearchPlayer::with_depth(seed, depth);
    let white = RandomPlayer::new(seed);
    let mut gm = GameManager::new(black, white);
    gm.verbose = false;
    let mut moves = Vec::new();
    while gm.board().continues() {
        moves.push(gm.next());
    }
    gm.finalize();
    let result = gm.result.unwrap();
    (moves, result.disks)
}

#[test]
fn games_are_deterministic() {
    let first = play(28, 1);
    let second = play(28, 1);
    assert_eq!(first, second);
    assert!(first.0.len() >= 30);
}

#[test]
fn random_player_is_deterministic() {
    let run = |seed: u32| {
        let mut p = RandomPlayer::new(seed);
        let mut b = Board::new();
        let mut out = Vec::new();
        while b.continues() {
            let m = p.next(&b);
            out.push(m);
            b = match m {
                Some(m) => b.flip(m).switch(),
                None => b.switch(),
            };
        }
        out
    };
    assert_eq!(run(9), run(9));
}

#[test]
fn players_pick_legal_moves_and_pass_when_stuck() {
    let mut ai = AlphaBetaSearchPlayer::with_depth(1, 1);
    let mut rnd = RandomPlayer::new(1);
    let b = Board::new();
    let (valid, _) = b.get_valid_mask();
    let m = ai.next(&b).unwrap();
    assert_eq!(m.count_ones(), 1);
    assert!(valid & m != 0);
    let m = rnd.next(&b).unwrap();
    assert!(valid & m != 0);
    let stuck = Board(position_to_mask(0, 1), !position_to_mask(0, 0) & !position_to_mask(0, 1));
    assert_eq!(ai.next(&stuck), None);
    assert_eq!(rnd.next(&stuck), None);
    assert_eq!(ai.name(), "Alpha-Beta");
    assert_eq!(rnd.name(), "Random");
}

#[test]
fn search_player_takes_the_best_move() {
    // Taking (0, 0) wins every disk of the opponent.
    let mover = position_to_mask(0, 2);
    let opp = position_to_mask(0, 1);
    let b = Board(mover, opp);
    let mut ai = AlphaBetaSearchPlayer::with_depth(4, 2);
    assert_eq!(ai.next(&b), Some(position_to_mask(0, 0)));
    let _default = AlphaBetaSearchPlayer::new(28);
    assert_eq!(SEARCH_DEPTH, 7);
}

#[test]
fn game_manager_bookkeeping() {
    let mut gm = GameManager::new(RandomPlayer::new(1), RandomPlayer::new(2));
    assert_eq!(gm.next_player(), Turn::Black);
    assert_eq!(gm.board(), Board::new());
    let m = gm.next().unwrap();
    assert_eq!(gm.next_player(), Turn::White);
    assert_eq!(gm.board(), Board::new().flip(m));
    assert_eq!(gm.names(), ("Random", "Random"));
    assert_eq!(Turn::Black.switch(), Turn::White);
    assert_eq!(Turn::White.switch(), Turn::Black);
    gm.finalize();
    let r = gm.result.unwrap();
    assert_eq!(r.disks, (4, 1));
    assert_eq!(r.winner, Turn::Black);
}

#[test]
fn corner_edge_penalty_is_symmetric() {
    // (1, 0), bit 8, is an edge cell next to a corner like (1, 7), (6, 0) and (6, 7): 8 points
    // off. The opponent's (3, 3) costs it 1 point.
    for &bit in [8u32, 15, 48, 55].iter() {
        assert_eq!(AlphaBetaSearchPlayer::evaluate(&Board(1 << bit, 1 << 27), &(0, 0)), -80 + 10);
    }
}

#[test]
fn search_with_a_closed_window() {
    let b = Board::new().flip(position_to_mask(2, 3)).switch();
    let exact = full_negamax(&b, 2, false);
    let mut player = AlphaBetaSearchPlayer::with_depth(5, 2);
    let r = player.search(&b, exact + 3, exact + 3, 2, false);
    assert!(r <= exact + 3);
    let r = player.search(&b, exact - 3, exact - 3, 2, false);
    assert!(r >= exact - 3);
}

#[test]
fn passing_takes_no_draw() {
    let stuck = Board(position_to_mask(0, 1), !position_to_mask(0, 0) & !position_to_mask(0, 1));
    let mut a = AlphaBetaSearchPlayer::with_depth(17, 1);
    let mut b = AlphaBetaSearchPlayer::with_depth(17, 1);
    assert_eq!(a.next(&stuck), None);
    assert_eq!(a.next(&Board::new()), b.next(&Board::new()));
    let mut c = RandomPlayer::new(17);
    let mut d = RandomPlayer::new(17);
    assert_eq!(c.next(&stuck), None);
    for _ in 0..5 {
        assert_eq!(c.next(&Board::new()), d.next(&Board::new()));
    }
}
