//! Bit-level facts about 64-bit masks, one bit per cell.
use vstd::prelude::*;

verus! {

/// Whether bit `i` of `m` is set. Bit `8 * r + c` stands for the cell in row `r`, column `c`.
pub open spec fn bit_at(m: u64, i: int) -> bool {
    0 <= i < 64 && (m >> (i as u64)) & 1u64 == 1u64
}

/// Index of the cell in row `r`, column `c`.
pub open spec fn idx(r: int, c: int) -> int {
    8 * r + c
}

pub open spec fn in_board(r: int, c: int) -> bool {
    0 <= r < 8 && 0 <= c < 8
}

/// Number of set bits among bits `0 .. n`.
pub open spec fn count_below(m: u64, n: nat) -> nat
    decreases n,
{
    if n == 0 {
        0
    } else {
        count_below(m, (n - 1) as nat) + if bit_at(m, n - 1) {
            1nat
        } else {
            0nat
        }
    }
}

/// Number of set bits.
pub open spec fn popcount(m: u64) -> nat {
    count_below(m, 64)
}

/// Counting the cells of a union of two disjoint masks.
pub proof fn lemma_count_disjoint_union(a: u64, b: u64, u: u64, n: nat)
    requires
        n <= 64,
        forall|i: int| 0 <= i < n ==> #[trigger] bit_at(u, i) == (bit_at(a, i) || bit_at(b, i)),
        forall|i: int| 0 <= i < n ==> !(#[trigger] bit_at(a, i) && bit_at(b, i)),
    ensures
        count_below(u, n) == count_below(a, n) + count_below(b, n),
    decreases n,
{
    if n > 0 {
        lemma_count_disjoint_union(a, b, u, (n - 1) as nat);
        assert(bit_at(u, n - 1) == (bit_at(a, n - 1) || bit_at(b, n - 1)));
        assert(!(bit_at(a, n - 1) && bit_at(b, n - 1)));
    }
}

/// The row and column of a cell index.
pub proof fn lemma_idx_div(r: int, c: int)
    requires
        in_board(r, c),
    ensures
        idx(r, c) / 8 == r,
        idx(r, c) % 8 == c,
        0 <= idx(r, c) < 64,
{
}

/// At most `n` bits are set below `n`.
pub proof fn lemma_count_le(m: u64, n: nat)
    ensures
        count_below(m, n) <= n,
    decreases n,
{
    if n > 0 {
        lemma_count_le(m, (n - 1) as nat);
    }
}

/// Exactly one cell is set in a single-cell mask.
pub proof fn lemma_count_single(m: u64, p: int, n: nat)
    requires
        n <= 64,
        forall|i: int| 0 <= i < 64 ==> #[trigger] bit_at(m, i) == (i == p),
    ensures
        count_below(m, n) == if 0 <= p < n {
            1nat
        } else {
            0nat
        },
    decreases n,
{
    if n > 0 {
        lemma_count_single(m, p, (n - 1) as nat);
        assert(bit_at(m, n - 1) == (n - 1 == p));
    }
}

pub proof fn lemma_and(a: u64, b: u64)
    ensures
        forall|i: int| #[trigger] bit_at(a & b, i) == (bit_at(a, i) && bit_at(b, i)),
{
    assert forall|i: int| #[trigger] bit_at(a & b, i) == (bit_at(a, i) && bit_at(b, i)) by {
        if 0 <= i < 64 {
            let j = i as u64;
            assert(((a & b) >> j) & 1u64 == 1u64 <==> ((a >> j) & 1u64 == 1u64 && (b >> j) & 1u64
                == 1u64)) by (bit_vector);
        }
    }
}

pub proof fn lemma_or(a: u64, b: u64)
    ensures
        forall|i: int| #[trigger] bit_at(a | b, i) == (bit_at(a, i) || bit_at(b, i)),
{
    assert forall|i: int| #[trigger] bit_at(a | b, i) == (bit_at(a, i) || bit_at(b, i)) by {
        if 0 <= i < 64 {
            let j = i as u64;
            assert(((a | b) >> j) & 1u64 == 1u64 <==> ((a >> j) & 1u64 == 1u64 || (b >> j) & 1u64
                == 1u64)) by (bit_vector);
        }
    }
}

pub proof fn lemma_xor(a: u64, b: u64)
    ensures
        forall|i: int| #[trigger] bit_at(a ^ b, i) == (bit_at(a, i) != bit_at(b, i)),
{
    assert forall|i: int| #[trigger] bit_at(a ^ b, i) == (bit_at(a, i) != bit_at(b, i)) by {
        if 0 <= i < 64 {
            let j = i as u64;
            assert(((a ^ b) >> j) & 1u64 == 1u64 <==> ((a >> j) & 1u64 == 1u64) != ((b >> j) & 1u64
                == 1u64)) by (bit_vector);
        }
    }
}

pub proof fn lemma_not(a: u64)
    ensures
        forall|i: int| 0 <= i < 64 ==> #[trigger] bit_at(!a, i) == !bit_at(a, i),
{
    assert forall|i: int| 0 <= i < 64 implies #[trigger] bit_at(!a, i) == !bit_at(a, i) by {
        let j = i as u64;
        assert(((!a) >> j) & 1u64 == 1u64 <==> !((a >> j) & 1u64 == 1u64)) by (bit_vector)
            requires
                j < 64,
        ;
    }
}

pub proof fn lemma_zero()
    ensures
        forall|i: int| !#[trigger] bit_at(0u64, i),
{
    assert forall|i: int| !#[trigger] bit_at(0u64, i) by {
        if 0 <= i < 64 {
            let j = i as u64;
            assert((0u64 >> j) & 1u64 != 1u64) by (bit_vector);
        }
    }
}

/// Shifting right by `s` moves bit `i + s` to bit `i`.
pub proof fn lemma_shr(x: u64, s: u64)
    requires
        s < 64,
    ensures
        forall|i: int| #[trigger] bit_at(x >> s, i) == (0 <= i && bit_at(x, i + s)),
{
    assert forall|i: int| #[trigger] bit_at(x >> s, i) == (0 <= i && bit_at(x, i + s)) by {
        if 0 <= i < 64 {
            let j = i as u64;
            if i + s < 64 {
                let k = (i + s) as u64;
                assert(((x >> s) >> j) & 1u64 == (x >> k) & 1u64) by (bit_vector)
                    requires
                        k == j + s,
                        k < 64,
                ;
            } else {
                assert(((x >> s) >> j) & 1u64 == 0u64) by (bit_vector)
                    requires
                        j + s >= 64,
                        j < 64,
                        s < 64,
                ;
            }
        }
    }
}

/// A mask with one bit set holds exactly that cell.
pub proof fn lemma_single(p: u64)
    requires
        p < 64,
    ensures
        forall|i: int| #[trigger] bit_at(1u64 << p, i) == (i == p),
{
    assert forall|i: int| #[trigger] bit_at(1u64 << p, i) == (i == p) by {
        if 0 <= i < 64 {
            let j = i as u64;
            assert((((1u64 << p) >> j) & 1u64 == 1u64) == (j == p)) by (bit_vector)
                requires
                    j < 64,
                    p < 64,
            ;
        }
    }
}

/// Tests of a single-cell mask against another mask.
pub proof fn lemma_single_tests(p: u64, x: u64)
    requires
        p < 64,
    ensures
        (1u64 << p) != 0,
        ((x & (1u64 << p)) == (1u64 << p)) == bit_at(x, p as int),
        (((1u64 << p) & x) != 0) == bit_at(x, p as int),
{
    assert((1u64 << p) != 0) by (bit_vector)
        requires
            p < 64,
    ;
    assert(((x & (1u64 << p)) == (1u64 << p)) == ((x >> p) & 1u64 == 1u64)) by (bit_vector)
        requires
            p < 64,
    ;
    assert((((1u64 << p) & x) != 0) == ((x >> p) & 1u64 == 1u64)) by (bit_vector)
        requires
            p < 64,
    ;
}

/// A mask with no cell set is zero.
pub proof fn lemma_nonzero_has_bit(m: u64)
    ensures
        (m != 0) == exists|i: int| 0 <= i < 64 && #[trigger] bit_at(m, i),
{
    lemma_zero();
    if m != 0 {
        let t = vstd::std_specs::bits::u64_trailing_zeros(m);
        vstd::std_specs::bits::axiom_u64_trailing_zeros(m);
        assert(bit_at(m, t as int));
    }
}

/// Counts the set bits of `m`.
pub fn count_ones(m: u64) -> (n: u32)
    ensures
        n == popcount(m),
{
    let mut n: u32 = 0;
    let mut i: u64 = 0;
    while i < 64
        invariant
            i <= 64,
            n == count_below(m, i as nat),
            n <= i,
        decreases 64 - i,
    {
        if (m >> i) & 1 == 1 {
            n = n + 1;
        }
        i = i + 1;
    }
    n
}

/// Two masks with the same cells are equal.
pub proof fn lemma_ext(a: u64, b: u64)
    requires
        forall|i: int| 0 <= i < 64 ==> #[trigger] bit_at(a, i) == bit_at(b, i),
    ensures
        a == b,
{
    let x = a ^ b;
    lemma_xor(a, b);
    if x != 0 {
        let t = vstd::std_specs::bits::u64_trailing_zeros(x);
        vstd::std_specs::bits::axiom_u64_trailing_zeros(x);
        assert(bit_at(x, t as int));
    }
    assert(a ^ b == 0 ==> a == b) by (bit_vector);
}

} // verus!
