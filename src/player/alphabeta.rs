//! A player that searches the game tree by negamax with alpha-beta pruning.
use crate::bitboard::{
    hints_of, lemma_after, lemma_count_legal, lemma_mask_moves, lemma_move_unique, Board, Mask,
    ValidMaskParts,
};
use crate::rules::{after, has_move, is_legal_move, legal, legal_below, legal_count, move_at, wf};
use crate::bits::{bit_at, count_ones, idx, in_board, lemma_count_le, lemma_idx_div, popcount};
use crate::player::Player;
use crate::rand::{drawn, seeded, xor_step, xor_steps, Xor128, XorState};
use vstd::prelude::*;

verus! {

/// Depth of the search from each first move.
pub const SEARCH_DEPTH: usize = 7;

/// A large enough evaluation value: a won position.
pub const INF: i32 = 100_000_000;

/// Corners: 32 points each.
pub const ADD30: Mask = 0b_10000001_00000000_00000000_00000000_00000000_00000000_00000000_10000001;

/// Middle of the edges and of the centre: 1 point off each.
pub const SUB01: Mask = 0b_00011000_00000000_00011000_10111101_10111101_00011000_00000000_00011000;

/// The ring next to the edges: 4 points off each.
pub const SUB03: Mask = 0b_00000000_00111100_01000010_01000010_01000010_01000010_00111100_00000000;

/// Edge cells next to a corner: 8 points off each.
pub const SUB12: Mask = 0b_01000010_10000001_00000000_00000000_00000000_00000000_10000001_01000010;

/// Diagonal neighbours of the corners: 16 points off each.
pub const SUB16: Mask = 0b_00000000_01000010_00000000_00000000_00000000_00000000_01000010_00000000;

/// Positional worth of a set of disks.
pub open spec fn weighted(disks: u64) -> int {
    32 * popcount(ADD30 & disks) - popcount(SUB01 & disks) - 4 * popcount(SUB03 & disks) - 8
        * popcount(SUB12 & disks) - 16 * popcount(SUB16 & disks)
}

/// Score of one side in the opening and middle game.
pub open spec fn side_score(disks: u64, n_moves: nat) -> int {
    10 * weighted(disks) + 5 * n_moves
}

/// Evaluation of `b` for the mover, given both sides' numbers of legal moves.
pub open spec fn evaluation(b: Board, my_moves: nat, their_moves: nat) -> int {
    if b.1 == 0 {
        INF as int
    } else if b.0 == 0 {
        -INF
    } else if popcount(!(b.0 | b.1)) >= 10 {
        side_score(b.0, my_moves) - side_score(b.1, their_moves)
    } else {
        popcount(b.0) - popcount(b.1)
    }
}

/// Evaluation of a leaf of the search.
pub open spec fn leaf_value(b: Board) -> int {
    evaluation(b, legal_count(b), legal_count(Board(b.1, b.0)))
}

/// Value of `b` for the mover by full-width negamax to `depth` moves; a pass costs no depth,
/// and `passed` tells that the previous ply passed.
pub open spec fn negamax(b: Board, depth: nat, passed: bool) -> int
    decreases 2 * depth + if passed {
        0int
    } else {
        1int
    }, 1int, 0int,
{
    if depth == 0 || (!has_move(b) && passed) {
        leaf_value(b)
    } else if !has_move(b) {
        -negamax(Board(b.1, b.0), depth, true)
    } else {
        best_from(b, depth, 0)
    }
}

/// Best value over the mover's legal cells with index `i` or more; below any value if none.
pub open spec fn best_from(b: Board, depth: nat, i: nat) -> int
    decreases 2 * depth, 0int, 64 - i,
{
    if depth == 0 || i >= 64 {
        -INF - 1
    } else {
        let rest = best_from(b, depth, i + 1);
        if legal(b, i as int / 8, i as int % 8) {
            let nb = after(b, i as int / 8, i as int % 8);
            let s = -negamax(Board(nb.1, nb.0), (depth - 1) as nat, false);
            if s > rest {
                s
            } else {
                rest
            }
        } else {
            rest
        }
    }
}

/// Value for the mover of the move to (r, c).
pub open spec fn child_score(b: Board, depth: nat, r: int, c: int) -> int {
    let nb = after(b, r, c);
    -negamax(Board(nb.1, nb.0), (depth - 1) as nat, false)
}

proof fn lemma_popcount_le(m: u64)
    ensures
        popcount(m) <= 64,
{
    lemma_count_le(m, 64);
}

proof fn lemma_evaluation_bounds(b: Board, x: nat, y: nat)
    requires
        x <= 64,
        y <= 64,
    ensures
        -INF <= evaluation(b, x, y) <= INF,
{
    lemma_popcount_le(b.0);
    lemma_popcount_le(b.1);
    lemma_popcount_le(ADD30 & b.0);
    lemma_popcount_le(SUB01 & b.0);
    lemma_popcount_le(SUB03 & b.0);
    lemma_popcount_le(SUB12 & b.0);
    lemma_popcount_le(SUB16 & b.0);
    lemma_popcount_le(ADD30 & b.1);
    lemma_popcount_le(SUB01 & b.1);
    lemma_popcount_le(SUB03 & b.1);
    lemma_popcount_le(SUB12 & b.1);
    lemma_popcount_le(SUB16 & b.1);
}

/// What `best_from` is: an upper bound of every later legal move's value, reached by one of
/// them when there is any.
pub proof fn lemma_best_from(b: Board, depth: nat, i: nat)
    requires
        depth > 0,
        i <= 64,
        forall|p: int|
            0 <= p < 64 && legal(b, p / 8, p % 8) ==> -INF <= #[trigger] child_score(
                b,
                depth,
                p / 8,
                p % 8,
            ),
    ensures
        forall|p: int|
            i <= p < 64 && legal(b, p / 8, p % 8) ==> #[trigger] child_score(b, depth, p / 8, p % 8)
                <= best_from(b, depth, i),
        (exists|p: int| i <= p < 64 && #[trigger] legal(b, p / 8, p % 8)) ==> exists|p: int|
            i <= p < 64 && #[trigger] legal(b, p / 8, p % 8) && child_score(b, depth, p / 8, p % 8)
                == best_from(b, depth, i),
        !(exists|p: int| i <= p < 64 && #[trigger] legal(b, p / 8, p % 8)) ==> best_from(b, depth, i)
            == -INF - 1,
    decreases 64 - i,
{
    if i < 64 {
        lemma_best_from(b, depth, i + 1);
        let ii = i as int;
        assert(child_score(b, depth, ii / 8, ii % 8) == -negamax(
            Board(after(b, ii / 8, ii % 8).1, after(b, ii / 8, ii % 8).0),
            (depth - 1) as nat,
            false,
        ));
        if exists|p: int| i <= p < 64 && #[trigger] legal(b, p / 8, p % 8) {
            let p = choose|p: int| i <= p < 64 && #[trigger] legal(b, p / 8, p % 8);
            if !legal(b, ii / 8, ii % 8) {
                assert(p > i);
                assert(exists|q: int| i + 1 <= q < 64 && #[trigger] legal(b, q / 8, q % 8));
            } else if child_score(b, depth, ii / 8, ii % 8) <= best_from(b, depth, i + 1) {
                assert(exists|q: int| i + 1 <= q < 64 && #[trigger] legal(b, q / 8, q % 8));
            }
        } else {
            assert(!legal(b, ii / 8, ii % 8));
        }
    }
}

/// The value of a move is the negamax value of the board after it.
pub proof fn lemma_child_bounds(b: Board, depth: nat, r: int, c: int)
    requires
        depth > 0,
    ensures
        -INF <= child_score(b, depth, r, c) <= INF,
{
    let nb = after(b, r, c);
    lemma_negamax_bounds(Board(nb.1, nb.0), (depth - 1) as nat, false);
}

/// Every negamax value lies between the two sentinels.
pub proof fn lemma_negamax_bounds(b: Board, depth: nat, passed: bool)
    ensures
        -INF <= negamax(b, depth, passed) <= INF,
    decreases 2 * depth + if passed {
        0int
    } else {
        1int
    }, 1int, 0int,
{
    if depth == 0 || (!has_move(b) && passed) {
        lemma_count_legal_le(b);
        lemma_count_legal_le(Board(b.1, b.0));
        lemma_evaluation_bounds(b, legal_count(b), legal_count(Board(b.1, b.0)));
    } else if !has_move(b) {
        lemma_negamax_bounds(Board(b.1, b.0), depth, true);
    } else {
        assert forall|p: int| 0 <= p < 64 && legal(b, p / 8, p % 8) implies -INF <= #[trigger] child_score(
            b,
            depth,
            p / 8,
            p % 8,
        ) <= INF by {
            let nb = after(b, p / 8, p % 8);
            lemma_negamax_bounds(Board(nb.1, nb.0), (depth - 1) as nat, false);
        }
        lemma_best_from(b, depth, 0);
        let (r, c) = choose|r: int, c: int| #[trigger] legal(b, r, c);
        assert(legal(b, idx(r, c) / 8, idx(r, c) % 8));
    }
}

/// The full-width value of a board with a legal move is the best value of its moves.
pub proof fn lemma_best(b: Board, depth: nat)
    requires
        depth > 0,
    ensures
        forall|p: int|
            0 <= p < 64 && legal(b, p / 8, p % 8) ==> #[trigger] child_score(b, depth, p / 8, p % 8)
                <= best_from(b, depth, 0),
        has_move(b) ==> exists|p: int|
            0 <= p < 64 && #[trigger] legal(b, p / 8, p % 8) && child_score(b, depth, p / 8, p % 8)
                == best_from(b, depth, 0),
{
    assert forall|p: int| 0 <= p < 64 && legal(b, p / 8, p % 8) implies -INF <= #[trigger] child_score(
        b,
        depth,
        p / 8,
        p % 8,
    ) by {
        lemma_child_bounds(b, depth, p / 8, p % 8);
    }
    lemma_best_from(b, depth, 0);
    if has_move(b) {
        let (r, c) = choose|r: int, c: int| #[trigger] legal(b, r, c);
        assert(legal(b, idx(r, c) / 8, idx(r, c) % 8));
    }
}

proof fn lemma_count_legal_le(b: Board)
    ensures
        legal_count(b) <= 64,
{
    lemma_legal_below_le(b, 64);
}

proof fn lemma_legal_below_le(b: Board, n: nat)
    ensures
        legal_below(b, n) <= n,
    decreases n,
{
    if n > 0 {
        lemma_legal_below_le(b, (n - 1) as nat);
    }
}

/// The mover's score `10 * weighted + 5 * moves` in the opening and middle game.
fn eval_side(disks: Mask, moves: Mask) -> (r: i32)
    ensures
        r == side_score(disks, popcount(moves)),
{
    proof {
        lemma_popcount_le(ADD30 & disks);
        lemma_popcount_le(SUB01 & disks);
        lemma_popcount_le(SUB03 & disks);
        lemma_popcount_le(SUB12 & disks);
        lemma_popcount_le(SUB16 & disks);
        lemma_popcount_le(moves);
    }
    let mut weighted_disks: i32 = 0;
    weighted_disks += (count_ones(ADD30 & disks) * 32) as i32;
    weighted_disks -= count_ones(SUB01 & disks) as i32;
    weighted_disks -= (count_ones(SUB03 & disks) * 4) as i32;
    weighted_disks -= (count_ones(SUB12 & disks) * 8) as i32;
    weighted_disks -= (count_ones(SUB16 & disks) * 16) as i32;
    let num_moves = count_ones(moves) as i32;
    weighted_disks * 10 + num_moves * 5
}

/// The mover's legal moves among cells `0 .. n`, as single-cell masks in increasing order.
pub open spec fn legal_seq(b: Board, n: nat) -> Seq<u64>
    decreases n,
{
    if n == 0 {
        Seq::empty()
    } else {
        let rest = legal_seq(b, (n - 1) as nat);
        let i = n - 1;
        if legal(b, i / 8, i % 8) {
            rest.push(1u64 << (i as u64))
        } else {
            rest
        }
    }
}

/// Each listed move is a legal move.
pub proof fn lemma_legal_seq(b: Board, n: nat)
    requires
        n <= 64,
    ensures
        forall|q: int| 0 <= q < legal_seq(b, n).len() ==> is_legal_move(b, #[trigger] legal_seq(b, n)[q]),
    decreases n,
{
    if n > 0 {
        lemma_legal_seq(b, (n - 1) as nat);
        let i = n - 1;
        let r = i / 8;
        let c = i % 8;
        assert(i == idx(r, c));
        let rest = legal_seq(b, (n - 1) as nat);
        let all = legal_seq(b, n);
        assert forall|q: int| 0 <= q < all.len() implies is_legal_move(b, #[trigger] all[q]) by {
            if q < rest.len() {
                assert(all[q] == rest[q]);
            } else {
                assert(legal(b, r, c));
                assert(all[q] == 1u64 << (i as u64));
                assert(move_at(all[q], r, c));
            }
        }
    }
}

/// The single-cell masks of the cells set in `mask`, in increasing order of index.
pub fn legal_moves(mask: Mask, Ghost(b): Ghost<Board>) -> (moves: Vec<Mask>)
    requires
        forall|r: int, c: int| in_board(r, c) ==> #[trigger] bit_at(mask, idx(r, c)) == legal(b, r, c),
    ensures
        moves@ == legal_seq(b, 64),
        forall|q: int| 0 <= q < moves@.len() ==> is_legal_move(b, #[trigger] moves@[q]),
        forall|r: int, c: int|
            #[trigger] legal(b, r, c) ==> exists|q: int|
                0 <= q < moves@.len() && #[trigger] moves@[q] == 1u64 << (idx(r, c) as u64),
{
    let mut moves: Vec<Mask> = Vec::new();
    let mut i: u64 = 0;
    while i < 64
        invariant
            i <= 64,
            moves@ == legal_seq(b, i as nat),
            forall|r: int, c: int| in_board(r, c) ==> #[trigger] bit_at(mask, idx(r, c)) == legal(b, r, c),
            forall|q: int| 0 <= q < moves@.len() ==> is_legal_move(b, #[trigger] moves@[q]),
            forall|r: int, c: int|
                #[trigger] legal(b, r, c) && idx(r, c) < i ==> exists|q: int|
                    0 <= q < moves@.len() && #[trigger] moves@[q] == 1u64 << (idx(r, c) as u64),
        decreases 64 - i,
    {
        let ghost r0 = i as int / 8;
        let ghost c0 = i as int % 8;
        let ghost before = moves@;
        proof {
            assert(i as int == idx(r0, c0));
            assert(in_board(r0, c0));
        }
        let taken = (mask >> i) & 1 == 1;
        proof {
            assert(bit_at(mask, idx(r0, c0)) == legal(b, r0, c0));
            assert(bit_at(mask, i as int) == ((mask >> i) & 1 == 1));
            assert(taken == legal(b, r0, c0));
        }
        if taken {
            moves.push(1u64 << i);
            proof {
                assert(bit_at(mask, idx(r0, c0)));
                assert(move_at(moves@[moves@.len() - 1], r0, c0));
            }
        }
        proof {
            assert forall|r: int, c: int| #[trigger] legal(b, r, c) && idx(r, c) < i + 1 implies exists|q: int|
                0 <= q < moves@.len() && #[trigger] moves@[q] == 1u64 << (idx(r, c) as u64) by {
                if idx(r, c) == i {
                    lemma_idx_div(r, c);
                    assert(r == r0 && c == c0);
                    assert(bit_at(mask, idx(r0, c0)));
                    assert(taken);
                    assert(moves@[moves@.len() - 1] == 1u64 << (idx(r, c) as u64));
                } else {
                    let q = choose|q: int| 0 <= q < before.len() && #[trigger] before[q] == 1u64 << (idx(r, c) as u64);
                    assert(moves@[q] == before[q]);
                }
            }
            assert forall|q: int| 0 <= q < moves@.len() implies is_legal_move(b, #[trigger] moves@[q]) by {
                if q < before.len() {
                    assert(moves@[q] == before[q]);
                } else {
                    assert(move_at(moves@[q], r0, c0) && legal(b, r0, c0));
                }
            }
        }
        i = i + 1;
    }
    moves
}

/// `a` holds the items of `b` and `b` those of `a`, both of one length.
pub open spec fn same_items(a: Seq<u64>, b: Seq<u64>) -> bool {
    &&& a.len() == b.len()
    &&& forall|q: int| 0 <= q < a.len() ==> #[trigger] b.contains(a[q])
    &&& forall|q: int| 0 <= q < b.len() ==> #[trigger] a.contains(b[q])
}

proof fn lemma_same_items_swap(s: Seq<u64>, start: Seq<u64>, k: int, j: int)
    requires
        same_items(s, start),
        0 <= k < s.len(),
        0 <= j < s.len(),
    ensures
        same_items(s.update(k, s[j]).update(j, s[k]), start),
{
    let t = s.update(k, s[j]).update(j, s[k]);
    assert forall|q: int| 0 <= q < t.len() implies #[trigger] start.contains(t[q]) by {
        let q1 = if q == j {
            k
        } else if q == k {
            j
        } else {
            q
        };
        assert(t[q] == s[q1]);
        assert(start.contains(s[q1]));
    }
    assert forall|q: int| 0 <= q < start.len() implies #[trigger] t.contains(start[q]) by {
        assert(s.contains(start[q]));
        let q1 = choose|q1: int| 0 <= q1 < s.len() && s[q1] == start[q];
        let q2 = if q1 == j {
            k
        } else if q1 == k {
            j
        } else {
            q1
        };
        assert(t[q2] == s[q1]);
    }
}

/// `s` with items `k` and `j` exchanged.
pub open spec fn swapped(s: Seq<u64>, k: int, j: int) -> Seq<u64> {
    s.update(k, s[j]).update(j, s[k])
}

/// Fisher-Yates shuffle of `moves` from position `k` on, with the generator in state `s`:
/// position `k` takes the item at `k + d % (n - k)`, `d` the next draw. Returns the
/// shuffled sequence and the generator's state after it.
pub open spec fn shuffled(moves: Seq<u64>, s: XorState, k: nat) -> (Seq<u64>, XorState)
    decreases moves.len() - k,
{
    if k + 1 >= moves.len() {
        (moves, s)
    } else {
        let s1 = xor_step(s);
        let j = k + (drawn(s1) as int) % (moves.len() - k);
        shuffled(swapped(moves, k as int, j), s1, k + 1)
    }
}

/// The cell of a single-cell mask.
pub open spec fn mask_cell(m: u64) -> (int, int) {
    choose|r: int, c: int| move_at(m, r, c)
}

/// The board the opponent faces after the mover puts a disk on the single cell `m`.
pub open spec fn child_of(b: Board, m: u64) -> Board {
    let nb = after(b, mask_cell(m).0, mask_cell(m).1);
    Board(nb.1, nb.0)
}

/// What the pruned search returns for `b` with the window (alpha, beta), and the generator
/// state it leaves, starting from state `s`. A leaf takes no draw; a pass keeps the depth;
/// otherwise the legal moves, in index order, are shuffled and then searched in turn.
pub open spec fn search_value(
    b: Board,
    alpha: int,
    beta: int,
    depth: nat,
    passed: bool,
    s: XorState,
) -> (int, XorState)
    decreases 2 * depth + if passed {
        0int
    } else {
        1int
    }, 1int, 0int,
{
    if depth == 0 || (!has_move(b) && passed) {
        (leaf_value(b), s)
    } else if !has_move(b) {
        let (v, s2) = search_value(Board(b.1, b.0), -beta, -alpha, depth, true, s);
        (-v, s2)
    } else {
        let (ms, s1) = shuffled(legal_seq(b, 64), s, 0);
        scan_moves(b, ms, 0, alpha, beta, depth, s1)
    }
}

/// Searching the moves `ms` from position `t` on: each child with the window
/// (-beta, -alpha), alpha raised to each negated result, stopping once alpha reaches beta.
pub open spec fn scan_moves(
    b: Board,
    ms: Seq<u64>,
    t: nat,
    alpha: int,
    beta: int,
    depth: nat,
    s: XorState,
) -> (int, XorState)
    decreases 2 * depth, 0int, ms.len() - t,
{
    if depth == 0 || t >= ms.len() {
        (alpha, s)
    } else {
        let (v, s2) = search_value(child_of(b, ms[t as int]), -beta, -alpha, (depth - 1) as nat, false, s);
        let a2 = if -v > alpha {
            -v
        } else {
            alpha
        };
        if a2 >= beta {
            (a2, s2)
        } else {
            scan_moves(b, ms, t + 1, a2, beta, depth, s2)
        }
    }
}

/// The search player's choice from candidate `t` of `ms` on, given the best (value, draw,
/// mask) so far and generator state `s`: each candidate is searched to `depth` with the full
/// window, then one draw is taken; the greatest (value, draw + 1, mask) wins. Returns the
/// winner and the generator's final state.
pub open spec fn choose_best(
    b: Board,
    ms: Seq<u64>,
    t: nat,
    best: (int, int, u64),
    depth: nat,
    s: XorState,
) -> ((int, int, u64), XorState)
    decreases ms.len() - t,
{
    if t >= ms.len() {
        (best, s)
    } else {
        let m = ms[t as int];
        let (v, s1) = search_value(child_of(b, m), -INF, INF as int, depth, false, s);
        let s2 = xor_step(s1);
        let score = -v;
        let draw = drawn(s2) + 1;
        let better = score > best.0 || (score == best.0 && (draw > best.1 || (draw == best.1 && m
            > best.2)));
        choose_best(
            b,
            ms,
            t + 1,
            if better {
                (score, draw, m)
            } else {
                best
            },
            depth,
            s2,
        )
    }
}

/// The search player's choice from a legal board, with generator state `s`.
pub open spec fn search_choice(b: Board, depth: nat, s: XorState) -> ((int, int, u64), XorState) {
    choose_best(b, legal_seq(b, 64), 0, (i32::MIN as int, 0, 0), depth, s)
}

/// Shuffles `moves` by the Fisher-Yates algorithm, drawing from `rand`.
fn shuffle(rand: &mut Xor128, moves: Vec<Mask>) -> (res: Vec<Mask>)
    ensures
        same_items(res@, moves@),
        (res@, final(rand)@) == shuffled(moves@, old(rand)@, 0),
{
    let ghost start = moves@;
    let ghost s0 = rand@;
    let mut moves = moves;
    let n = moves.len();
    let mut k: usize = 0;
    proof {
        assert forall|q: int| 0 <= q < start.len() implies #[trigger] start.contains(start[q]) by {
        }
    }
    while k + 1 < n
        invariant
            moves@.len() == n,
            k == 0 || k < n,
            same_items(moves@, start),
            shuffled(start, s0, 0) == shuffled(moves@, rand@, k as nat),
        decreases n - k,
    {
        let ghost before = moves@;
        let j = k + (rand.next() as usize) % (n - k);
        proof {
            lemma_same_items_swap(moves@, start, k as int, j as int);
        }
        let a = moves[k];
        let other = moves[j];
        moves[k] = other;
        moves[j] = a;
        proof {
            assert(moves@ == swapped(before, k as int, j as int));
        }
        k = k + 1;
    }
    moves
}

/// Player by alpha-beta search.
pub struct AlphaBetaSearchPlayer {
    rand: Xor128,
    depth: usize,
}

impl AlphaBetaSearchPlayer {
    /// A player searching to the default depth, drawing from a generator seeded with `seed`.
    pub fn new(seed: u32) -> (p: AlphaBetaSearchPlayer)
        ensures
            p.depth() == SEARCH_DEPTH,
            p.rng() == xor_steps(seeded(seed), 16),
    {
        AlphaBetaSearchPlayer { rand: Xor128::from_seed(seed), depth: SEARCH_DEPTH }
    }

    /// A player searching to `depth` from each first move.
    pub fn with_depth(seed: u32, depth: usize) -> (p: AlphaBetaSearchPlayer)
        ensures
            p.depth() == depth,
            p.rng() == xor_steps(seeded(seed), 16),
    {
        AlphaBetaSearchPlayer { rand: Xor128::from_seed(seed), depth }
    }

    /// Depth of the search from each first move.
    pub closed spec fn depth(&self) -> usize {
        self.depth
    }

    /// State of the player's generator.
    pub closed spec fn rng(&self) -> XorState {
        self.rand@
    }

    /// Negamax search with alpha-beta pruning. Within the window (alpha, beta) the result is
    /// the full-width negamax value; below or above it, it says on which side that value lies.
    pub fn search(&mut self, board: &Board, alpha: i32, beta: i32, depth: usize, passed: bool) -> (r: i32)
        requires
            wf(*board),
            i32::MIN < alpha <= beta,
        ensures
            final(self).depth() == old(self).depth(),
            (r as int, final(self).rng()) == search_value(
                *board,
                alpha as int,
                beta as int,
                depth as nat,
                passed,
                old(self).rng(),
            ),
            r >= alpha || r >= -INF,
            r <= beta || r <= INF,
            ({
                let m = negamax(*board, depth as nat, passed);
                &&& alpha < m < beta ==> r == m
                &&& m <= alpha ==> r <= alpha
                &&& m >= beta ==> r >= beta
            }),
            alpha < beta ==> {
                let m = negamax(*board, depth as nat, passed);
                &&& alpha < r < beta ==> r == m
                &&& r <= alpha ==> m <= alpha
                &&& r >= beta ==> m >= beta
            },
            alpha == -INF && beta == INF ==> r == negamax(*board, depth as nat, passed),
        decreases 2 * depth + if passed {
            0int
        } else {
            1int
        }, 1int,
    {
        let ghost b = *board;
        let ghost m = negamax(b, depth as nat, passed);
        let (black_moves, parts) = board.get_valid_mask();
        let (white_moves, _) = board.switch().get_valid_mask();
        proof {
            lemma_mask_moves(b, black_moves);
            lemma_mask_moves(Board(b.1, b.0), white_moves);
            lemma_count_legal(b, black_moves, 64);
            lemma_count_legal(Board(b.1, b.0), white_moves, 64);
            lemma_negamax_bounds(b, depth as nat, passed);
        }
        if depth == 0 || (black_moves == 0 && passed) {
            let r = Self::evaluate(board, &(black_moves, white_moves));
            r
        } else if black_moves == 0 {
            // No legal move: pass.
            let s = self.search(&board.switch(), -beta, -alpha, depth, true);
            -s
        } else {
            proof {
                lemma_best(b, depth as nat);
            }
            let listed = legal_moves(black_moves, Ghost(b));
            let n = listed.len();
            let moves = shuffle(&mut self.rand, listed);
            proof {
                assert forall|q: int| 0 <= q < n implies is_legal_move(b, #[trigger] moves@[q]) by {
                    assert(listed@.contains(moves@[q]));
                    let q2 = choose|q2: int| 0 <= q2 < n && listed@[q2] == moves@[q];
                    assert(is_legal_move(b, listed@[q2]));
                }
                assert forall|r: int, c: int| #[trigger] legal(b, r, c) implies exists|q: int|
                    0 <= q < n && #[trigger] moves@[q] == 1u64 << (idx(r, c) as u64) by {
                    let q2 = choose|q2: int| 0 <= q2 < n && #[trigger] listed@[q2] == 1u64 << (idx(r, c) as u64);
                    assert(moves@.contains(listed@[q2]));
                    let q = choose|q: int| 0 <= q < n && moves@[q] == listed@[q2];
                    assert(moves@[q] == 1u64 << (idx(r, c) as u64));
                }
            }
            self.search_moves(board, &parts, &moves, alpha, beta, depth)
        }
    }

    /// Searches the moves in the order given, raising alpha, and stops once it reaches beta.
    fn search_moves(
        &mut self,
        board: &Board,
        parts: &ValidMaskParts,
        moves: &Vec<Mask>,
        alpha: i32,
        beta: i32,
        depth: usize,
    ) -> (r: i32)
        requires
            wf(*board),
            depth > 0,
            i32::MIN < alpha <= beta,
            has_move(*board),
            hints_of(*board, *parts),
            forall|q: int| 0 <= q < moves@.len() ==> is_legal_move(*board, #[trigger] moves@[q]),
            forall|r: int, c: int|
                #[trigger] legal(*board, r, c) ==> exists|q: int|
                    0 <= q < moves@.len() && #[trigger] moves@[q] == 1u64 << (idx(r, c) as u64),
        ensures
            final(self).depth() == old(self).depth(),
            (r as int, final(self).rng()) == scan_moves(
                *board,
                moves@,
                0,
                alpha as int,
                beta as int,
                depth as nat,
                old(self).rng(),
            ),
            alpha == beta ==> (best_from(*board, depth as nat, 0) <= alpha ==> r == alpha),
            alpha <= r,
            r <= beta || r <= INF,
            alpha < beta ==> {
                let m = best_from(*board, depth as nat, 0);
                &&& alpha < r < beta ==> r == m
                &&& r <= alpha ==> m <= alpha
                &&& r >= beta ==> m >= beta
            },
        decreases 2 * depth, 0int,
    {
        let ghost b = *board;
        let ghost m = best_from(b, depth as nat, 0);
        let ghost s0 = self.rand@;
        proof {
            lemma_best(b, depth as nat);
        }
        let n = moves.len();
        let mut alpha = alpha;
        let ghost alpha0 = alpha;
        let mut t: usize = 0;
        let mut cut = false;
        while t < n && !cut
            invariant
                moves@.len() == n,
                t <= n,
                wf(b),
                *board == b,
                depth > 0,
                self.depth() == old(self).depth(),
                scan_moves(b, moves@, 0, alpha0 as int, beta as int, depth as nat, s0) == if cut {
                    (alpha as int, self.rand@)
                } else {
                    scan_moves(b, moves@, t as nat, alpha as int, beta as int, depth as nat, self.rand@)
                },
                alpha0 == beta ==> (t > 0 ==> cut) && (cut && m <= alpha0 ==> alpha == alpha0),
                i32::MIN < alpha0 <= beta,
                alpha0 <= alpha,
                alpha <= beta || alpha <= INF,
                !cut ==> alpha <= beta,
                hints_of(b, *parts),
                m == best_from(b, depth as nat, 0),
                has_move(b),
                exists|p: int|
                    0 <= p < 64 && #[trigger] legal(b, p / 8, p % 8) && child_score(b, depth as nat, p / 8, p % 8)
                        == m,
                forall|p: int|
                    0 <= p < 64 && legal(b, p / 8, p % 8) ==> #[trigger] child_score(b, depth as nat, p / 8, p % 8)
                        <= m,
                forall|q: int| 0 <= q < n ==> is_legal_move(b, #[trigger] moves@[q]),
                alpha0 < beta ==> {
                    &&& cut ==> alpha >= beta && m >= beta
                    &&& !cut ==> alpha < beta
                    &&& !cut ==> forall|q: int, r: int, c: int|
                        0 <= q < t && #[trigger] move_at(moves@[q], r, c) ==> child_score(b, depth as nat, r, c) <= alpha
                    &&& !cut ==> (alpha == alpha0 || exists|r: int, c: int|
                        #[trigger] legal(b, r, c) && child_score(b, depth as nat, r, c) == alpha)
                },
            decreases n - t,
        {
            let mov = moves[t];
            assert(is_legal_move(b, moves@[t as int]));
            let ghost (r, c) = choose|r: int, c: int| move_at(mov, r, c) && #[trigger] legal(b, r, c);
            let flipped = board.flip_with_hints(mov, parts);
            let child = flipped.switch();
            let ghost rng0 = self.rand@;
            proof {
                lemma_after(b, r, c, flipped);
                let (r2, c2) = mask_cell(mov);
                lemma_move_unique(mov, r, c, r2, c2);
                assert(child == child_of(b, moves@[t as int]));
                lemma_idx_div(r, c);
                assert(legal(b, idx(r, c) / 8, idx(r, c) % 8));
                assert(child_score(b, depth as nat, idx(r, c) / 8, idx(r, c) % 8) <= m);
            }
            let s = self.search(&child, -beta, -alpha, depth - 1, false);
            let score = -s;
            let ghost alpha_before = alpha;
            if score > alpha {
                alpha = score;
            }
            if alpha >= beta {
                cut = true;
            }
            proof {
                let cs = child_score(b, depth as nat, r, c);
                assert(cs == -negamax(child, (depth - 1) as nat, false));
                if alpha0 < beta {
                    assert forall|q: int, r2: int, c2: int|
                        0 <= q < t + 1 && #[trigger] move_at(moves@[q], r2, c2) && !cut implies child_score(b, depth as nat, r2, c2) <= alpha by {
                        if q == t {
                            lemma_move_unique(mov, r, c, r2, c2);
                        }
                    }
                }
            }
            t = t + 1;
        }
        proof {
            if alpha0 < beta && !cut {
                assert forall|p: int| 0 <= p < 64 && legal(b, p / 8, p % 8) implies #[trigger] child_score(b, depth as nat, p / 8, p % 8) <= alpha by {
                    let rr = p / 8;
                    let cc = p % 8;
                    assert(p == idx(rr, cc));
                    let q = choose|q: int| 0 <= q < n && #[trigger] moves@[q] == 1u64 << (idx(rr, cc) as u64);
                    assert(move_at(moves@[q], rr, cc));
                }
                let p = choose|p: int|
                    0 <= p < 64 && #[trigger] legal(b, p / 8, p % 8) && child_score(b, depth as nat, p / 8, p % 8)
                        == best_from(b, depth as nat, 0);
                assert(m <= alpha);
                if alpha != alpha0 {
                    let (r, c) = choose|r: int, c: int| #[trigger] legal(b, r, c) && child_score(b, depth as nat, r, c) == alpha;
                    lemma_idx_div(r, c);
                    assert(legal(b, idx(r, c) / 8, idx(r, c) % 8));
                    assert(child_score(b, depth as nat, idx(r, c) / 8, idx(r, c) % 8) <= m);
                }
            }
        }
        alpha
    }

    /// A simple evaluation: the higher, the better for the mover.
    pub fn evaluate(board: &Board, moves: &(Mask, Mask)) -> (r: i32)
        ensures
            r == evaluation(*board, popcount(moves.0), popcount(moves.1)),
            board.1 == 0 ==> r == INF,
            board.0 == 0 && board.1 != 0 ==> r == -INF,
            -INF <= r <= INF,
    {
        let Board(black_disks, white_disks) = *board;
        let (black_moves, white_moves) = *moves;
        proof {
            lemma_popcount_le(moves.0);
            lemma_popcount_le(moves.1);
            lemma_evaluation_bounds(*board, popcount(moves.0), popcount(moves.1));
            lemma_popcount_le(black_disks);
            lemma_popcount_le(white_disks);
        }
        if white_disks == 0 {
            INF
        } else if black_disks == 0 {
            -INF
        } else if count_ones(!(black_disks | white_disks)) >= 10 {
            // In the opening, score good places and deduct for bad ones.
            eval_side(black_disks, black_moves) - eval_side(white_disks, white_moves)
        } else {
            // In the ending, just count the disks of each colour.
            count_ones(black_disks) as i32 - count_ones(white_disks) as i32
        }
    }
}

impl AlphaBetaSearchPlayer {
    /// Searches every legal first move and picks the one with the greatest
    /// (value, fresh random draw, move mask); `None` when there is no legal move.
    pub fn best_move(&mut self, board: &Board) -> (r: Option<Mask>)
        requires
            wf(*board),
        ensures
            r is None <==> !has_move(*board),
            r matches Some(m) ==> is_legal_move(*board, m) && forall|rr: int, cc: int|
                #[trigger] move_at(m, rr, cc) ==> forall|r2: int, c2: int|
                    #[trigger] legal(*board, r2, c2) ==> child_score(*board, (old(self).depth() + 1) as nat, r2, c2)
                        <= child_score(*board, (old(self).depth() + 1) as nat, rr, cc),
            final(self).depth() == old(self).depth(),
            !has_move(*board) ==> final(self).rng() == old(self).rng(),
            has_move(*board) ==> r == Some(search_choice(*board, old(self).depth() as nat, old(self).rng()).0.2)
                && final(self).rng() == search_choice(*board, old(self).depth() as nat, old(self).rng()).1,
    {
        let ghost b = *board;
        let (black_moves, parts) = board.get_valid_mask();
        proof {
            lemma_mask_moves(b, black_moves);
        }
        if black_moves == 0 {
            None
        } else {
            let ghost d: nat = (self.depth + 1) as nat;
            let ghost s0 = self.rand@;
            let moves = legal_moves(black_moves, Ghost(b));
            let n = moves.len();
            // Score, draw and mask of the best move so far.
            let mut best: (i32, u32, Mask) = (i32::MIN, 0, 0);
            let mut t: usize = 0;
            while t < n
                invariant
                    moves@.len() == n,
                    t <= n,
                    wf(b),
                    *board == b,
                    hints_of(b, parts),
                    d == self.depth + 1,
                    self.depth == old(self).depth,
                    moves@ == legal_seq(b, 64),
                    search_choice(b, self.depth as nat, s0) == choose_best(
                        b,
                        moves@,
                        t as nat,
                        (best.0 as int, best.1 as int, best.2),
                        self.depth as nat,
                        self.rand@,
                    ),
                    forall|q: int| 0 <= q < n ==> is_legal_move(b, #[trigger] moves@[q]),
                    t == 0 ==> best.0 == i32::MIN,
                    t > 0 ==> is_legal_move(b, best.2),
                    t > 0 ==> forall|rr: int, cc: int|
                        #[trigger] move_at(best.2, rr, cc) ==> child_score(b, d, rr, cc) == best.0,
                    forall|q: int, rr: int, cc: int|
                        0 <= q < t && #[trigger] move_at(moves@[q], rr, cc) ==> child_score(b, d, rr, cc) <= best.0,
                decreases n - t,
            {
                let mov = moves[t];
                assert(is_legal_move(b, moves@[t as int]));
                let ghost (r, c) = choose|r: int, c: int| move_at(mov, r, c) && #[trigger] legal(b, r, c);
                let reversed = board.flip_with_hints(mov, &parts);
                proof {
                    lemma_after(b, r, c, reversed);
                    let (r2, c2) = mask_cell(mov);
                    lemma_move_unique(mov, r, c, r2, c2);
                    assert(Board(reversed.1, reversed.0) == child_of(b, moves@[t as int]));
                }
                let s = self.search(&reversed.switch(), -INF, INF, self.depth, false);
                let score = -s;
                let draw = self.rand.next() + 1;
                let better = score > best.0 || (score == best.0 && (draw > best.1 || (draw == best.1
                    && mov > best.2)));
                let ghost old_best = best;
                if better {
                    best = (score, draw, mov);
                }
                proof {
                    assert(child_score(b, d, r, c) == score);
                    assert forall|q: int, rr: int, cc: int|
                        0 <= q < t + 1 && #[trigger] move_at(moves@[q], rr, cc) implies child_score(b, d, rr, cc) <= best.0 by {
                        if q == t {
                            lemma_move_unique(mov, r, c, rr, cc);
                        }
                    }
                    if better {
                        assert forall|rr: int, cc: int| #[trigger] move_at(best.2, rr, cc) implies child_score(b, d, rr, cc) == best.0 by {
                            lemma_move_unique(mov, r, c, rr, cc);
                        }
                    }
                }
                t = t + 1;
            }
            proof {
                let (r0, c0) = choose|r: int, c: int| #[trigger] legal(b, r, c);
                assert(n > 0);
                assert forall|rr: int, cc: int| #[trigger] move_at(best.2, rr, cc) implies forall|r2: int, c2: int|
                    #[trigger] legal(b, r2, c2) ==> child_score(b, d, r2, c2) <= child_score(b, d, rr, cc) by {
                    assert forall|r2: int, c2: int| #[trigger] legal(b, r2, c2) implies child_score(b, d, r2, c2) <= child_score(b, d, rr, cc) by {
                        let q = choose|q: int| 0 <= q < n && #[trigger] moves@[q] == 1u64 << (idx(r2, c2) as u64);
                        assert(move_at(moves@[q], r2, c2));
                    }
                }
            }
            Some(best.2)
        }
    }
}

impl Player for AlphaBetaSearchPlayer {
    /// Searches every legal first move and picks the one with the greatest
    /// (value, fresh random draw, move mask); see `best_move`.
    fn next(&mut self, board: &Board) -> (r: Option<Mask>)
        ensures
            final(self).depth() == old(self).depth(),
            !has_move(*board) ==> final(self).rng() == old(self).rng(),
            has_move(*board) ==> r == Some(search_choice(*board, old(self).depth() as nat, old(self).rng()).0.2)
                && final(self).rng() == search_choice(*board, old(self).depth() as nat, old(self).rng()).1,
    {
        self.best_move(board)
    }

    fn name(&self) -> &'static str {
        "Alpha-Beta"
    }
}

} // verus!
