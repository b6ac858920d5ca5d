//! Board feature counts consumed by the evaluator: holes under the
//! stack, how deeply they are buried, and the cell transitions
//! between neighbouring columns. The evaluator's weighting is
//! floating point and stays outside; these counts are exact.

use vstd::prelude::*;

use crate::bits::{
    col_height, lemma_bit_and, lemma_bit_low_mask, lemma_bit_not, lemma_height_bits,
    lemma_height_le_64, lemma_pop_le_height, low_mask, pop64, row_bit,
};
use crate::board::{col, lemma_max_height_bits, max_height, popcount, Board};

verus! {

/// A column's height never exceeds the board height.
pub proof fn lemma_col_height_le_max(b: Board, x: int)
    requires
        0 <= x < 10,
    ensures
        col_height(col(b, x)) <= max_height(b),
{
    if col(b, x) != 0 {
        lemma_height_bits(col(b, x));
        lemma_max_height_bits(b);
        assert(row_bit(col(b, x), col_height(col(b, x)) - 1));
    }
}

/// The holes of one column: empty cells under its top filled cell.
pub open spec fn col_holes(c: u64) -> nat
    recommends
        col_height(c) < 64,
{
    pop64(!c & low_mask(col_height(c) as u64))
}

/// Holes of the first `k` columns.
pub open spec fn holes_upto(b: Board, k: int) -> nat
    decreases k,
{
    if k <= 0 {
        0
    } else {
        holes_upto(b, k - 1) + col_holes(col(b, k - 1))
    }
}

/// Empty cells under the top of their column, across the board.
pub open spec fn board_holes(b: Board) -> nat {
    holes_upto(b, 10)
}

/// Weight of the holes of one column, counting rows `0..k`: each hole
/// contributes its depth under the column top.
pub open spec fn cover_upto(c: u64, h: int, k: int) -> int
    decreases k,
{
    if k <= 0 {
        0
    } else {
        cover_upto(c, h, k - 1) + (if !row_bit(c, k - 1) && k - 1 < h {
            h - (k - 1)
        } else {
            0
        })
    }
}

/// The covering weight of one column: over each hole, the number of
/// rows from the hole up to the column top.
pub open spec fn col_cover(c: u64) -> int {
    cover_upto(c, col_height(c) as int, col_height(c) as int)
}

/// Covering weight of the first `k` columns.
pub open spec fn cover_sum_upto(b: Board, k: int) -> int
    decreases k,
{
    if k <= 0 {
        0
    } else {
        cover_sum_upto(b, k - 1) + col_cover(col(b, k - 1))
    }
}

/// Total covering weight of the board's holes.
pub open spec fn board_cover(b: Board) -> int {
    cover_sum_upto(b, 10)
}

/// Cell transitions between the first `k` columns: filled-against-empty
/// boundaries of each adjacent pair.
pub open spec fn transitions_upto(b: Board, k: int) -> nat
    decreases k,
{
    if k <= 1 {
        0
    } else {
        transitions_upto(b, k - 1) + pop64(col(b, k - 2) ^ col(b, k - 1))
    }
}

/// Cell transitions between all adjacent column pairs.
pub open spec fn board_transitions(b: Board) -> nat {
    transitions_upto(b, 10)
}

/// The covering weight over a prefix is small: each of the `k` rows
/// adds at most the column height.
proof fn lemma_cover_bounds(c: u64, h: int, k: int)
    requires
        0 <= k,
        0 <= h <= 64,
    ensures
        0 <= cover_upto(c, h, k) <= 64 * k,
    decreases k,
{
    if k > 0 {
        lemma_cover_bounds(c, h, k - 1);
    }
}

/// Empty cells under the top of their column, across the board.
pub fn total_holes(board: &Board) -> (r: u32)
    requires
        max_height(*board) < 64,
    ensures
        r == board_holes(*board),
{
    let mut acc: u32 = 0;
    let mut x: usize = 0;
    while x < 10
        invariant
            0 <= x <= 10,
            max_height(*board) < 64,
            acc == holes_upto(*board, x as int),
            acc <= 64 * x,
        decreases 10 - x,
    {
        let c = board.cols[x].0;
        let h = crate::board::Column(c).height();
        proof {
            lemma_col_height_le_max(*board, x as int);
            assert(1u64 << (h as u64) != 0u64) by (bit_vector)
                requires
                    h < 64,
            ;
        }
        let under = (1u64 << (h as u64)) - 1;
        proof {
            assert(under == low_mask(h as u64));
            lemma_pop_le_height(!c & under);
            lemma_height_le_64(!c & under);
        }
        acc = acc + popcount(!c & under);
        x = x + 1;
    }
    acc
}

/// Total covering weight of the board's holes: each empty cell under
/// its column top counts once for every row between it and the top.
pub fn coveredness(board: &Board) -> (r: u32)
    requires
        max_height(*board) < 64,
    ensures
        r == board_cover(*board),
{
    let mut acc: u32 = 0;
    let mut x: usize = 0;
    while x < 10
        invariant
            0 <= x <= 10,
            max_height(*board) < 64,
            acc == cover_sum_upto(*board, x as int),
            acc <= 4096 * x,
        decreases 10 - x,
    {
        let c = board.cols[x].0;
        let h = crate::board::Column(c).height();
        proof {
            lemma_col_height_le_max(*board, x as int);
            lemma_cover_bounds(c, h as int, h as int);
        }
        let mut y: u8 = 0;
        let mut colacc: u32 = 0;
        while y < h
            invariant
                0 <= y <= h,
                h == col_height(c),
                h < 64,
                colacc == cover_upto(c, h as int, y as int),
                colacc <= 4096,
            decreases h - y,
        {
            proof {
                lemma_cover_bounds(c, h as int, y as int);
                lemma_cover_bounds(c, h as int, y + 1int);
                crate::bits::lemma_bit_single(y as u64);
                lemma_bit_and(c, 1u64 << (y as u64));
                crate::bits::lemma_bit_const();
                let w = c & (1u64 << (y as u64));
                if w == 0 {
                    assert(!row_bit(w, y as int));
                    assert(!row_bit(c, y as int));
                } else {
                    if !row_bit(c, y as int) {
                        assert forall|j: int| row_bit(w, j) == row_bit(0u64, j) by {
                            if row_bit(w, j) {
                                assert(row_bit(c, j) && j == y);
                            }
                        }
                        crate::bits::lemma_bit_ext(w, 0);
                    }
                    assert(row_bit(c, y as int));
                }
            }
            if c & (1u64 << (y as u64)) == 0 {
                colacc = colacc + (h - y) as u32;
            }
            y = y + 1;
        }
        proof {
            lemma_cover_bounds(c, h as int, h as int);
        }
        acc = acc + colacc;
        x = x + 1;
    }
    acc
}

/// Cell transitions between adjacent columns: positions where one of
/// the two neighbouring columns is filled and the other empty.
pub fn row_transitions(board: &Board) -> (r: u32)
    ensures
        r == board_transitions(*board),
{
    let mut acc: u32 = 0;
    let mut x: usize = 1;
    while x < 10
        invariant
            1 <= x <= 10,
            acc == transitions_upto(*board, x as int),
            acc <= 64 * x,
        decreases 10 - x,
    {
        let w = board.cols[x - 1].0 ^ board.cols[x].0;
        proof {
            lemma_pop_le_height(w);
            lemma_height_le_64(w);
        }
        acc = acc + popcount(w);
        x = x + 1;
    }
    acc
}

} // verus!
