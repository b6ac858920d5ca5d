//! Per-bit reasoning about 64-bit occupancy words: reading single
//! rows, column height, population count, and the lemmas that connect
//! the word-level operators the engine executes to those per-bit
//! views.

use vstd::prelude::*;

verus! {

/// True when bit `y` of the occupancy word `c` is set, i.e. row `y`
/// of the column is filled. Rows outside `0..64` are never filled.
pub open spec fn row_bit(c: u64, y: int) -> bool {
    0 <= y < 64 && (c >> (y as u64)) & 1u64 == 1u64
}

/// Height of an occupancy word: one more than its highest filled row;
/// zero when the column is empty.
pub open spec fn col_height(c: u64) -> nat
    decreases c,
{
    if c == 0 {
        0
    } else {
        (1 + col_height(c / 2)) as nat
    }
}

/// Number of filled rows in an occupancy word.
pub open spec fn pop64(c: u64) -> nat
    decreases c,
{
    if c == 0 {
        0
    } else {
        ((c % 2) + pop64(c / 2)) as nat
    }
}

/// The word whose rows `0..n` are filled and all others empty.
pub open spec fn low_mask(n: u64) -> u64
    recommends
        n < 64,
{
    (((1u64 << n) as int) - 1) as u64
}

/// Row `y` of `a & b` is filled exactly when row `y` of both is.
pub proof fn lemma_bit_and(a: u64, b: u64)
    ensures
        forall|y: int| #[trigger] row_bit(a & b, y) == (row_bit(a, y) && row_bit(b, y)),
{
    assert forall|y: int| #[trigger] row_bit(a & b, y) == (row_bit(a, y) && row_bit(b, y)) by {
        if 0 <= y < 64 {
            let yy = y as u64;
            assert(((((a & b) >> yy) & 1u64) == 1u64) == ((((a >> yy) & 1u64) == 1u64) && (((b
                >> yy) & 1u64) == 1u64))) by (bit_vector)
                requires
                    yy < 64,
            ;
        }
    }
}

/// Row `y` of `a | b` is filled exactly when row `y` of either is.
pub proof fn lemma_bit_or(a: u64, b: u64)
    ensures
        forall|y: int| #[trigger] row_bit(a | b, y) == (row_bit(a, y) || row_bit(b, y)),
{
    assert forall|y: int| #[trigger] row_bit(a | b, y) == (row_bit(a, y) || row_bit(b, y)) by {
        if 0 <= y < 64 {
            let yy = y as u64;
            assert(((((a | b) >> yy) & 1u64) == 1u64) == ((((a >> yy) & 1u64) == 1u64) || (((b
                >> yy) & 1u64) == 1u64))) by (bit_vector)
                requires
                    yy < 64,
            ;
        }
    }
}

/// Row `y` of `a ^ b` is filled exactly when the two words differ there.
pub proof fn lemma_bit_xor(a: u64, b: u64)
    ensures
        forall|y: int| #[trigger] row_bit(a ^ b, y) == (0 <= y < 64 && row_bit(a, y) != row_bit(
            b,
            y,
        )),
{
    assert forall|y: int|
        #[trigger] row_bit(a ^ b, y) == (0 <= y < 64 && row_bit(a, y) != row_bit(b, y)) by {
        if 0 <= y < 64 {
            let yy = y as u64;
            assert(((((a ^ b) >> yy) & 1u64) == 1u64) == ((((a >> yy) & 1u64) == 1u64) != (((b
                >> yy) & 1u64) == 1u64))) by (bit_vector)
                requires
                    yy < 64,
            ;
        }
    }
}

/// Rows of `!a` within `0..64` are filled exactly where rows of `a`
/// are not.
pub proof fn lemma_bit_not(a: u64)
    ensures
        forall|y: int| #[trigger] row_bit(!a, y) == (0 <= y < 64 && !row_bit(a, y)),
{
    assert forall|y: int| #[trigger] row_bit(!a, y) == (0 <= y < 64 && !row_bit(a, y)) by {
        if 0 <= y < 64 {
            let yy = y as u64;
            assert(((((!a) >> yy) & 1u64) == 1u64) == (((a >> yy) & 1u64) != 1u64)) by (bit_vector)
                requires
                    yy < 64,
            ;
        }
    }
}

/// Shifting right by `k` moves row `y + k` down to row `y`.
pub proof fn lemma_bit_shr(c: u64, k: u64)
    requires
        k < 64,
    ensures
        forall|y: int| 0 <= y ==> #[trigger] row_bit(c >> k, y) == row_bit(c, y + k),
{
    assert forall|y: int| 0 <= y implies #[trigger] row_bit(c >> k, y) == row_bit(c, y + k) by {
        if 0 <= y < 64 {
            let yy = y as u64;
            if y + k < 64 {
                let zz = (y + k) as u64;
                assert((((c >> k) >> yy) & 1u64) == ((c >> zz) & 1u64)) by (bit_vector)
                    requires
                        yy < 64,
                        k < 64,
                        zz == yy + k,
                ;
            } else {
                assert((((c >> k) >> yy) & 1u64) == 0u64) by (bit_vector)
                    requires
                        yy < 64,
                        k < 64,
                        yy + k >= 64,
                ;
            }
        }
    }
}

/// Shifting left by `k` moves row `y` up to row `y + k`; the bottom
/// `k` rows of the result are empty, and rows pushed past 63 are lost.
pub proof fn lemma_bit_shl(c: u64, k: u64)
    requires
        k < 64,
    ensures
        forall|y: int| #[trigger] row_bit(c << k, y) == (k <= y < 64 && row_bit(c, y - k)),
{
    assert forall|y: int| #[trigger] row_bit(c << k, y) == (k <= y < 64 && row_bit(c, y - k)) by {
        if 0 <= y < 64 {
            let yy = y as u64;
            if k <= y {
                let zz = (y - k) as u64;
                assert((((c << k) >> yy) & 1u64) == ((c >> zz) & 1u64)) by (bit_vector)
                    requires
                        yy < 64,
                        k <= yy,
                        zz == yy - k,
                ;
            } else {
                assert((((c << k) >> yy) & 1u64) == 0u64) by (bit_vector)
                    requires
                        yy < 64,
                        k < 64,
                        yy < k,
                ;
            }
        }
    }
}

/// The rows of `low_mask(n)` are exactly `0..n`.
pub proof fn lemma_bit_low_mask(n: u64)
    requires
        n < 64,
    ensures
        forall|y: int| #[trigger] row_bit(low_mask(n), y) == (0 <= y < n),
{
    assert forall|y: int| #[trigger] row_bit(low_mask(n), y) == (0 <= y < n) by {
        if 0 <= y < 64 {
            let yy = y as u64;
            let m = low_mask(n);
            assert(((m >> yy) & 1u64 == 1u64) == (yy < n)) by (bit_vector)
                requires
                    n < 64,
                    yy < 64,
                    m == (((1u64 << n) as int) - 1) as u64,
            ;
        }
    }
}

/// The only row of `1 << n` is row `n`.
pub proof fn lemma_bit_single(n: u64)
    requires
        n < 64,
    ensures
        forall|y: int| #[trigger] row_bit(1u64 << n, y) == (y == n),
{
    assert forall|y: int| #[trigger] row_bit(1u64 << n, y) == (y == n) by {
        if 0 <= y < 64 {
            let yy = y as u64;
            assert((((1u64 << n) >> yy) & 1u64 == 1u64) == (yy == n)) by (bit_vector)
                requires
                    n < 64,
                    yy < 64,
            ;
        }
    }
}

/// The empty word has no filled row; the all-ones word has every row
/// in `0..64` filled.
pub proof fn lemma_bit_const()
    ensures
        forall|y: int| !(#[trigger] row_bit(0u64, y)),
        forall|y: int| #[trigger] row_bit(!0u64, y) == (0 <= y < 64),
{
    assert forall|y: int| !(#[trigger] row_bit(0u64, y)) by {
        if 0 <= y < 64 {
            let yy = y as u64;
            assert(((0u64 >> yy) & 1u64) == 0u64) by (bit_vector);
        }
    }
    assert forall|y: int| #[trigger] row_bit(!0u64, y) == (0 <= y < 64) by {
        if 0 <= y < 64 {
            let yy = y as u64;
            assert((((!0u64) >> yy) & 1u64) == 1u64) by (bit_vector)
                requires
                    yy < 64,
            ;
        }
    }
}

/// Halving a word shifts every row down by one: row `y` of `c / 2` is
/// row `y + 1` of `c`, and row 0 of `c` is its parity.
pub proof fn lemma_bit_div2(c: u64)
    ensures
        c / 2 == c >> 1u64,
        forall|y: int| 0 <= y ==> #[trigger] row_bit(c / 2, y) == row_bit(c, y + 1),
        row_bit(c, 0) == (c % 2 == 1),
{
    assert(c / 2 == c >> 1u64) by (bit_vector);
    assert((c >> 0u64) & 1u64 == c % 2) by (bit_vector);
    assert forall|y: int| 0 <= y implies #[trigger] row_bit(c / 2, y) == row_bit(c, y + 1) by {
        if y < 63 {
            let yy = y as u64;
            let zz = (y + 1) as u64;
            assert((((c >> 1u64) >> yy) & 1u64) == ((c >> zz) & 1u64)) by (bit_vector)
                requires
                    yy < 63,
                    zz == yy + 1,
            ;
        } else if y == 63 {
            assert(((c >> 1u64) >> 63u64) & 1u64 == 0u64) by (bit_vector);
        }
    }
}

/// Words with the same rows are the same word.
pub proof fn lemma_bit_ext(a: u64, b: u64)
    requires
        forall|y: int| row_bit(a, y) == row_bit(b, y),
    ensures
        a == b,
{
    if a != b {
        assert(a ^ b != 0) by (bit_vector)
            requires
                a != b,
        ;
        let t = vstd::std_specs::bits::u64_trailing_zeros(a ^ b);
        broadcast use vstd::std_specs::bits::axiom_u64_trailing_zeros;

        assert(row_bit(a ^ b, t as int));
        lemma_bit_xor(a, b);
    }
}

/// A word bounded by a power of two has height at most the exponent.
pub proof fn lemma_height_bound(c: u64, k: nat)
    requires
        c < vstd::arithmetic::power2::pow2(k),
    ensures
        col_height(c) <= k,
    decreases c,
{
    if c != 0 {
        assert(k > 0) by {
            if k == 0 {
                vstd::arithmetic::power2::lemma2_to64();
            }
        }
        assert(vstd::arithmetic::power2::pow2(k) == 2 * vstd::arithmetic::power2::pow2(
            (k - 1) as nat,
        )) by {
            vstd::arithmetic::power2::lemma_pow2_unfold(k);
        }
        lemma_height_bound(c / 2, (k - 1) as nat);
    }
}

/// Every occupancy word has height at most 64.
pub proof fn lemma_height_le_64(c: u64)
    ensures
        col_height(c) <= 64,
{
    vstd::arithmetic::power2::lemma2_to64();
    lemma_height_bound(c, 64);
}

/// The filled rows of a word are exactly those below its height;
/// a non-empty word has its top row filled at `height - 1`.
pub proof fn lemma_height_bits(c: u64)
    ensures
        forall|y: int| #[trigger] row_bit(c, y) ==> y < col_height(c),
        c != 0 ==> row_bit(c, col_height(c) - 1),
    decreases c,
{
    lemma_bit_div2(c);
    lemma_bit_const();
    if c != 0 {
        lemma_height_bits(c / 2);
        lemma_height_le_64(c);
        assert forall|y: int| #[trigger] row_bit(c, y) implies y < col_height(c) by {
            if y >= 1 {
                assert(row_bit(c / 2, y - 1));
            }
        }
        if c / 2 == 0 {
            assert(c % 2 == 1);
        } else {
            assert(row_bit(c / 2, col_height(c / 2) - 1));
        }
    }
}

/// Height agrees with the count of leading zeros.
pub proof fn lemma_height_leading_zeros(c: u64)
    ensures
        col_height(c) == 64 - vstd::std_specs::bits::u64_leading_zeros(c),
    decreases c,
{
    broadcast use vstd::std_specs::bits::axiom_u64_leading_zeros;

    reveal(vstd::std_specs::bits::u64_leading_zeros);
    if c == 0 {
        assert(vstd::std_specs::bits::u64_leading_zeros(c) == 64);
    } else {
        lemma_height_leading_zeros(c / 2);
        assert(vstd::std_specs::bits::u64_leading_zeros(c)
            == vstd::std_specs::bits::u64_leading_zeros(c / 2) - 1);
        assert(col_height(c) == 1 + col_height(c / 2));
    }
}

/// Population count never exceeds the height, hence never 64.
pub proof fn lemma_pop_le_height(c: u64)
    ensures
        pop64(c) <= col_height(c),
    decreases c,
{
    if c != 0 {
        lemma_pop_le_height(c / 2);
    }
}

/// A word whose rows all lie among the rows of another has no larger
/// population, and a strictly smaller one if the words differ.
pub proof fn lemma_pop_sub(a: u64, b: u64)
    requires
        forall|y: int| row_bit(a, y) ==> row_bit(b, y),
    ensures
        pop64(a) <= pop64(b),
        a != b ==> pop64(a) < pop64(b),
    decreases b,
{
    lemma_bit_div2(a);
    lemma_bit_div2(b);
    lemma_bit_const();
    if b == 0 {
        if a != 0 {
            lemma_height_bits(a);
            assert(row_bit(a, col_height(a) - 1));
        }
    } else {
        assert forall|y: int| #[trigger] row_bit(a / 2, y) implies row_bit(b / 2, y) by {
            if 0 <= y {
                assert(row_bit(a, y + 1));
            }
        }
        lemma_pop_sub(a / 2, b / 2);
        if a % 2 == 1 {
            assert(row_bit(a, 0));
        }
        if a != b {
            if a % 2 == b % 2 && a / 2 == b / 2 {
                assert(a == 2 * (a / 2) + a % 2);
                assert(b == 2 * (b / 2) + b % 2);
            }
        }
    }
}

/// Population count of a union is at most the sum of the counts.
pub proof fn lemma_pop_or(a: u64, b: u64)
    ensures
        pop64(a | b) <= pop64(a) + pop64(b),
    decreases a, b,
{
    if a == 0 && b == 0 {
        assert(0u64 | 0u64 == 0u64) by (bit_vector);
    } else {
        assert((a | b) / 2 == (a / 2) | (b / 2) && (a | b) % 2 <= a % 2 + b % 2 && ((a | b) != 0
            ==> a != 0 || b != 0)) by (bit_vector);
        lemma_pop_or(a / 2, b / 2);
    }
}

/// A word with a single row has population count one.
pub proof fn lemma_pop_single(n: u64)
    requires
        n < 64,
    ensures
        pop64(1u64 << n) == 1,
    decreases n,
{
    if n == 0 {
        assert(1u64 << 0u64 == 1u64) by (bit_vector);
        assert(pop64(1u64) == 1 + pop64(0u64));
    } else {
        let nm = (n - 1) as u64;
        assert((1u64 << n) % 2 == 0 && (1u64 << n) / 2 == 1u64 << nm && (1u64 << n) != 0)
            by (bit_vector)
            requires
                0 < n < 64,
                nm == n - 1,
        ;
        lemma_pop_single(nm);
        assert(pop64(1u64 << n) == pop64((1u64 << n) / 2));
    }
}

/// Word-level algebra of `|` and `&` used when accumulating masks.
pub proof fn lemma_word_algebra()
    by (bit_vector)
    ensures
        forall|a: u64, b: u64, c: u64| #[trigger] ((a | b) | c) == a | (b | c),
        forall|a: u64, b: u64| #[trigger] (a | b) == b | a,
        forall|a: u64| #[trigger] (a | 0u64) == a,
        forall|a: u64, b: u64, c: u64| #[trigger] ((a & b) & c) == a & (b & c),
        forall|a: u64, b: u64| #[trigger] (a & b) == b & a,
        forall|a: u64| #[trigger] (a & !0u64) == a,
        forall|a: u64| #[trigger] (a & 0u64) == 0u64,
{
}

/// The word `1` has exactly row 0 filled.
pub proof fn lemma_bit_one()
    ensures
        forall|y: int| #[trigger] row_bit(1u64, y) == (y == 0),
{
    assert forall|y: int| #[trigger] row_bit(1u64, y) == (y == 0) by {
        if 0 <= y < 64 {
            let yy = y as u64;
            assert(((1u64 >> yy) & 1u64 == 1u64) == (yy == 0)) by (bit_vector)
                requires
                    yy < 64,
            ;
        }
    }
}

/// Row 0 of a word is its lowest bit.
pub proof fn lemma_bit_lsb(c: u64)
    ensures
        row_bit(c, 0) == (c & 1u64 == 1u64),
{
    assert(((c >> 0u64) & 1u64) == (c & 1u64)) by (bit_vector);
}

} // verus!
