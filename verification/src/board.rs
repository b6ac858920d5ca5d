//! The playfield: ten bitboard columns, placement of a piece,
//! line-clear arithmetic and height queries.

use vstd::array::ArrayAdditionalExecFns;
use vstd::prelude::*;

use crate::bits::{
    col_height, lemma_bit_and, lemma_bit_const, lemma_bit_div2, lemma_bit_ext, lemma_bit_low_mask,
    lemma_bit_not, lemma_bit_or, lemma_bit_shl, lemma_bit_shr, lemma_bit_single,
    lemma_height_bits, lemma_height_le_64, lemma_pop_le_height, lemma_height_leading_zeros, lemma_pop_or,
    lemma_pop_single, lemma_pop_sub, lemma_word_algebra, low_mask, pop64, row_bit,
};
use crate::geometry::{loc_cell, loc_in_range, Piece, PieceLocation};

verus! {

/// A single playfield column. Bit `y` set means the cell at height
/// `y` is filled; only the lower 40 bits (visible field plus buffer)
/// may be set on a well-formed board.
#[derive(Clone, Copy, PartialEq, Eq, Structural, PartialOrd, Ord, Debug, Hash)]
pub struct Column(pub u64);

/// The playfield: ten columns, indexed left to right.
#[derive(Clone, Copy, PartialEq, Eq, Debug, Hash)]
pub struct Board {
    pub cols: [Column; 10],
}

/// The occupancy word of column `x`.
pub open spec fn col(b: Board, x: int) -> u64 {
    b.cols@[x].0
}

/// Cell `(x, y)` of the board is filled. Cells off the board are not.
pub open spec fn occ(b: Board, x: int, y: int) -> bool {
    0 <= x < 10 && row_bit(col(b, x), y)
}

/// Row `y` is filled across all ten columns.
pub open spec fn full_row(b: Board, y: int) -> bool {
    forall|x: int| 0 <= x < 10 ==> row_bit(col(b, x), y)
}

/// No row of the board is completely filled. Boards hold this between
/// placements: `remove_lines` restores it after every piece that could
/// have completed a row.
pub open spec fn no_full_row(b: Board) -> bool {
    forall|y: int| !full_row(b, y)
}

/// AND of the first `k` columns and the all-ones word.
pub open spec fn full_mask_upto(b: Board, k: int) -> u64
    decreases k,
{
    if k <= 0 {
        !0u64
    } else {
        full_mask_upto(b, k - 1) & col(b, k - 1)
    }
}

/// The word whose set rows are exactly the board's full rows.
pub open spec fn full_mask(b: Board) -> u64 {
    full_mask_upto(b, 10)
}

/// Rows of the partial fold are the rows common to the columns folded.
pub proof fn lemma_full_mask_upto_bits(b: Board, k: int, y: int)
    requires
        0 <= k,
    ensures
        row_bit(full_mask_upto(b, k), y) == (0 <= y < 64 && forall|x: int| 0 <= x < k ==> row_bit(
            #[trigger] col(b, x),
            y,
        )),
    decreases k,
{
    if k == 0 {
        lemma_bit_const();
    } else {
        lemma_full_mask_upto_bits(b, k - 1, y);
        lemma_bit_and(full_mask_upto(b, k - 1), col(b, k - 1));
    }
}

/// Rows of the full mask are exactly the full rows.
pub proof fn lemma_full_mask_bits(b: Board, y: int)
    ensures
        row_bit(full_mask(b), y) == (0 <= y < 64 && full_row(b, y)),
{
    lemma_full_mask_upto_bits(b, 10, y);
}

/// Remove from `c` every row that is set in `m`, letting the rows
/// above each removed row fall down one step. Works from the bottom
/// row upward: a removed bottom row drops the whole upper part; a kept
/// bottom row stays put under the collapsed upper part.
pub open spec fn collapse(c: u64, m: u64) -> u64
    decreases m,
{
    if m == 0 {
        c
    } else if m % 2 == 1 {
        collapse(c / 2, m / 2)
    } else {
        (2 * collapse(c / 2, m / 2) + c % 2) as u64
    }
}

/// The row of `c` that lands on row `y` after the rows of `m` are
/// removed: `y` plus the number of removed rows at or below it.
pub open spec fn src_row(m: u64, y: int) -> int
    decreases m,
{
    if m == 0 {
        y
    } else if m % 2 == 1 {
        1 + src_row(m / 2, y)
    } else if y == 0 {
        0
    } else {
        1 + src_row(m / 2, y - 1)
    }
}

/// Collapsing never increases the occupancy word.
pub proof fn lemma_collapse_le(c: u64, m: u64)
    ensures
        collapse(c, m) <= c,
    decreases m,
{
    if m != 0 {
        lemma_collapse_le(c / 2, m / 2);
    }
}

/// Row `y` of the collapsed word is the source row of `y` in the
/// original word.
pub proof fn lemma_collapse_bit(c: u64, m: u64, y: int)
    requires
        0 <= y,
    ensures
        row_bit(collapse(c, m), y) == row_bit(c, src_row(m, y)),
    decreases m,
{
    lemma_bit_div2(c);
    if m == 0 {
    } else if m % 2 == 1 {
        lemma_collapse_bit(c / 2, m / 2, y);
        let s = src_row(m / 2, y);
        lemma_src_row_ge(m / 2, y);
        assert(row_bit(c / 2, s) == row_bit(c, s + 1));
    } else {
        lemma_collapse_le(c / 2, m / 2);
        let w = (2 * collapse(c / 2, m / 2) + c % 2) as u64;
        assert(2 * collapse(c / 2, m / 2) + c % 2 <= 2 * (c / 2) + c % 2);
        assert(w == 2 * collapse(c / 2, m / 2) + c % 2);
        lemma_bit_div2(w);
        assert(w / 2 == collapse(c / 2, m / 2));
        assert(w % 2 == c % 2);
        if y == 0 {
            assert(row_bit(w, 0) == (w % 2 == 1));
            assert(row_bit(c, 0) == (c % 2 == 1));
        } else {
            lemma_collapse_bit(c / 2, m / 2, y - 1);
            assert(row_bit(w, y) == row_bit(w / 2, y - 1));
            let s = src_row(m / 2, y - 1);
            lemma_src_row_ge(m / 2, y - 1);
            assert(row_bit(c / 2, s) == row_bit(c, s + 1));
        }
    }
}

/// A row never falls upward: its source row is at least itself.
pub proof fn lemma_src_row_ge(m: u64, y: int)
    requires
        0 <= y,
    ensures
        y <= src_row(m, y),
    decreases m,
{
    if m != 0 {
        if m % 2 == 1 {
            lemma_src_row_ge(m / 2, y);
        } else if y > 0 {
            lemma_src_row_ge(m / 2, y - 1);
        }
    }
}

/// The source of a surviving row is never a removed row.
pub proof fn lemma_src_row_clear(m: u64, y: int)
    requires
        0 <= y,
    ensures
        !row_bit(m, src_row(m, y)),
    decreases m,
{
    lemma_bit_div2(m);
    lemma_bit_const();
    if m == 0 {
    } else if m % 2 == 1 {
        lemma_src_row_clear(m / 2, y);
        lemma_src_row_ge(m / 2, y);
        assert(row_bit(m, 1 + src_row(m / 2, y)) == row_bit(m / 2, src_row(m / 2, y)));
    } else {
        if y == 0 {
            assert(row_bit(m, 0) == (m % 2 == 1));
        } else {
            lemma_src_row_clear(m / 2, y - 1);
            lemma_src_row_ge(m / 2, y - 1);
            assert(row_bit(m, 1 + src_row(m / 2, y - 1)) == row_bit(m / 2, src_row(m / 2, y - 1)));
        }
    }
}

impl Column {
    /// Height of the column: one more than its highest filled row.
    pub fn height(self) -> (r: u8)
        ensures
            r == col_height(self.0),
    {
        proof {
            broadcast use vstd::std_specs::bits::axiom_u64_leading_zeros;

            lemma_height_leading_zeros(self.0);
        }
        (64 - self.0.leading_zeros()) as u8
    }

    /// Remove every row of the column that is set in `lines`, letting
    /// the rows above each removed row fall one step.
    pub fn clear(&mut self, lines: u64)
        ensures
            final (self).0 == collapse(old(self).0, lines),
    {
        let mut lines: u64 = lines;
        let ghost c0: u64 = self.0;
        let ghost m0: u64 = lines;
        while lines != 0
            invariant
                collapse(self.0, lines) == collapse(c0, m0),
            decreases lines,
        {
            proof {
                broadcast use vstd::std_specs::bits::axiom_u64_trailing_zeros;

            }
            let i = lines.trailing_zeros();
            assert(i < 64);
            assert(1u64 << (i as u64) != 0u64) by (bit_vector)
                requires
                    i < 64,
            ;
            let mask = (1u64 << (i as u64)) - 1;
            proof {
                assert forall|j: int| 0 <= j < i implies !(#[trigger] row_bit(lines, j)) by {
                    let jj = j as u64;
                    assert((lines >> jj) & 1u64 == 0u64);
                }
                assert((lines >> (i as u64)) & 1u64 == 1u64);
                assert(row_bit(lines, i as int));
                assert(mask == low_mask(i as u64));
                lemma_clear_step(self.0, lines, i as u64);
            }
            self.0 = self.0 & mask | self.0 >> 1u64 & !mask;
            let ghost lines_before: u64 = lines;
            lines = (lines & !(1u64 << (i as u64))) >> 1u64;
            proof {
                let ii = i as u64;
                assert(lines == shrink_mask(lines_before, ii));
                assert(lines < lines_before) by (bit_vector)
                    requires
                        lines == (lines_before & !(1u64 << ii)) >> 1u64,
                        lines_before != 0,
                ;
            }
        }
    }
}

/// Deleting row `i` of the column (the word shifted down above `i`).
spec fn clear_word(c: u64, i: u64) -> u64 {
    c & low_mask(i) | (c >> 1u64) & !low_mask(i)
}

/// The remaining rows to delete after row `i` is deleted, re-indexed
/// to the collapsed word.
spec fn shrink_mask(m: u64, i: u64) -> u64 {
    (m & !(1u64 << i)) >> 1u64
}

/// Deleting the lowest marked row first and then the rest equals
/// deleting all marked rows at once.
proof fn lemma_clear_step(c: u64, m: u64, i: u64)
    requires
        i < 64,
        row_bit(m, i as int),
        forall|j: int| 0 <= j < i ==> !row_bit(m, j),
    ensures
        collapse(clear_word(c, i), shrink_mask(m, i)) == collapse(c, m),
    decreases i,
{
    lemma_bit_div2(c);
    lemma_bit_div2(m);
    if i == 0 {
        assert(m % 2 == 1);
        assert(c & low_mask(0u64) | (c >> 1u64) & !low_mask(0u64) == c >> 1u64) by (bit_vector);
        assert((m & !(1u64 << 0u64)) >> 1u64 == m >> 1u64) by (bit_vector);
        assert(collapse(c, m) == collapse(c / 2, m / 2));
    } else {
        assert(!row_bit(m, 0));
        assert(m % 2 == 0);
        assert(m != 0) by {
            lemma_bit_const();
        }
        let im = (i - 1) as u64;
        assert forall|j: int| 0 <= j < im implies !(#[trigger] row_bit(m / 2, j)) by {
            assert(row_bit(m / 2, j) == row_bit(m, j + 1));
        }
        assert(row_bit(m / 2, im as int) == row_bit(m, i as int));
        lemma_clear_step(c / 2, m / 2, im);
        if i >= 2 {
            assert(!row_bit(m, 1));
            assert(!((m >> 1u64) & 1u64 == 1u64));
        }
        assert(1u64 << i != 0u64 && 1u64 << im != 0u64) by (bit_vector)
            requires
                0 < i < 64,
                im == i - 1,
        ;
        let lmi = low_mask(i);
        let lmim = low_mask(im);
        assert(lmi + 1 == 1u64 << i);
        assert(lmim + 1 == 1u64 << im);
        let w = clear_word(c, i);
        let s = shrink_mask(m, i);
        let cw2 = clear_word(c / 2, im);
        let sm2 = shrink_mask(m / 2, im);
        assert(w % 2 == c % 2 && w / 2 == cw2 && s % 2 == 0 && s / 2 == sm2) by (bit_vector)
            requires
                0 < i < 64,
                im == i - 1,
                m % 2 == 0,
                (i == 1) || !((m >> 1u64) & 1u64 == 1u64),
                lmi + 1 == 1u64 << i,
                lmim + 1 == 1u64 << im,
                w == (c & lmi | (c >> 1u64) & !lmi),
                s == (m & !(1u64 << i)) >> 1u64,
                cw2 == ((c / 2) & lmim | ((c / 2) >> 1u64) & !lmim),
                sm2 == ((m / 2) & !(1u64 << im)) >> 1u64,
        ;
        lemma_collapse_le(w / 2, s / 2);
        if s == 0 {
            assert(collapse(w, s) == w);
            assert(w == 2 * (w / 2) + w % 2);
            assert(collapse(w / 2, s / 2) == w / 2);
        }
        assert(collapse(w, s) == (2 * collapse(w / 2, s / 2) + w % 2) as u64);
        assert(collapse(c, m) == (2 * collapse(c / 2, m / 2) + c % 2) as u64);
        lemma_collapse_le(c / 2, m / 2);
    }
}

/// Every block of `loc` lies on the playfield.
pub open spec fn loc_cells_in_bounds(loc: PieceLocation) -> bool {
    forall|i: int| 0 <= i < 4 ==> 0 <= (#[trigger] loc_cell(loc, i)).0 < 10 && 0 <= loc_cell(
        loc,
        i,
    ).1 < 40
}

/// No block of `loc` overlaps a filled cell of `b`.
pub open spec fn loc_fits(b: Board, loc: PieceLocation) -> bool {
    forall|i: int| 0 <= i < 4 ==> !occ(b, (#[trigger] loc_cell(loc, i)).0, loc_cell(loc, i).1)
}

/// The single-row word of block `i` of `loc`, if that block lies in
/// column `x`; empty otherwise.
pub open spec fn cell_bit(loc: PieceLocation, x: int, i: int) -> u64 {
    let c = loc_cell(loc, i);
    if c.0 == x && 0 <= c.1 < 64 {
        1u64 << (c.1 as u64)
    } else {
        0u64
    }
}

/// OR of the first `k` block words of `loc` that fall in column `x`.
pub open spec fn cell_mask_upto(loc: PieceLocation, x: int, k: int) -> u64
    decreases k,
{
    if k <= 0 {
        0u64
    } else {
        cell_mask_upto(loc, x, k - 1) | cell_bit(loc, x, k - 1)
    }
}

/// The rows that the blocks of `loc` occupy in column `x`.
pub open spec fn cell_mask(loc: PieceLocation, x: int) -> u64 {
    cell_mask_upto(loc, x, 4)
}

/// Column `x` after the blocks of `loc` are drawn onto board `b`.
pub open spec fn placed_col(b: Board, loc: PieceLocation, x: int) -> u64 {
    col(b, x) | cell_mask(loc, x)
}

/// AND of the first `k` placed columns and the all-ones word.
pub open spec fn placed_mask_upto(b: Board, loc: PieceLocation, k: int) -> u64
    decreases k,
{
    if k <= 0 {
        !0u64
    } else {
        placed_mask_upto(b, loc, k - 1) & placed_col(b, loc, k - 1)
    }
}

/// The rows that are full once the blocks of `loc` are drawn onto `b`.
pub open spec fn placed_full_mask(b: Board, loc: PieceLocation) -> u64 {
    placed_mask_upto(b, loc, 10)
}

/// Column `x` of the board after `loc` is placed: the blocks are
/// drawn, and, when the placement could have completed a row, the full
/// rows are removed.
pub open spec fn placed_board_col(b: Board, loc: PieceLocation, x: int) -> u64 {
    if loc.possible_line_clear {
        collapse(placed_col(b, loc, x), placed_full_mask(b, loc))
    } else {
        placed_col(b, loc, x)
    }
}

/// The number of rows that placing `loc` on `b` removes.
pub open spec fn cleared_count(b: Board, loc: PieceLocation) -> nat {
    if loc.possible_line_clear {
        pop64(placed_full_mask(b, loc))
    } else {
        0
    }
}

/// The board after `loc` is placed holds no cell at all.
pub open spec fn placed_board_empty(b: Board, loc: PieceLocation) -> bool {
    forall|x: int| 0 <= x < 10 ==> placed_board_col(b, loc, x) == 0
}

/// Every cell of the board is empty.
pub open spec fn board_empty(b: Board) -> bool {
    forall|x: int| 0 <= x < 10 ==> col(b, x) == 0
}

/// Rows of the partial cell mask are the rows of blocks already folded.
pub proof fn lemma_cell_mask_upto_bits(loc: PieceLocation, x: int, k: int, y: int)
    requires
        0 <= k,
    ensures
        row_bit(cell_mask_upto(loc, x, k), y) == (0 <= y < 64 && exists|i: int|
            0 <= i < k && #[trigger] loc_cell(loc, i) == (x, y)),
    decreases k,
{
    if k == 0 {
        lemma_bit_const();
    } else {
        lemma_cell_mask_upto_bits(loc, x, k - 1, y);
        lemma_bit_or(cell_mask_upto(loc, x, k - 1), cell_bit(loc, x, k - 1));
        let c = loc_cell(loc, k - 1);
        if c.0 == x && 0 <= c.1 < 64 {
            lemma_bit_single(c.1 as u64);
        } else {
            lemma_bit_const();
        }
    }
}

/// Rows of the cell mask are exactly the rows of the blocks of `loc`
/// in column `x`.
pub proof fn lemma_cell_mask_bits(loc: PieceLocation, x: int, y: int)
    ensures
        row_bit(cell_mask(loc, x), y) == (0 <= y < 64 && exists|i: int|
            0 <= i < 4 && #[trigger] loc_cell(loc, i) == (x, y)),
{
    lemma_cell_mask_upto_bits(loc, x, 4, y);
}

/// Rows of the placed partial fold are the rows common to the placed
/// columns folded so far.
pub proof fn lemma_placed_mask_upto_bits(b: Board, loc: PieceLocation, k: int, y: int)
    requires
        0 <= k,
    ensures
        row_bit(placed_mask_upto(b, loc, k), y) == (0 <= y < 64 && forall|x: int|
            0 <= x < k ==> row_bit(#[trigger] placed_col(b, loc, x), y)),
    decreases k,
{
    if k == 0 {
        lemma_bit_const();
    } else {
        lemma_placed_mask_upto_bits(b, loc, k - 1, y);
        lemma_bit_and(placed_mask_upto(b, loc, k - 1), placed_col(b, loc, k - 1));
    }
}

/// A board whose columns are the placed columns of `(b, loc)` has the
/// placed full mask as its full mask.
pub proof fn lemma_placed_mask_eq(bmid: Board, b: Board, loc: PieceLocation)
    requires
        forall|x: int| 0 <= x < 10 ==> col(bmid, x) == placed_col(b, loc, x),
    ensures
        full_mask(bmid) == placed_full_mask(b, loc),
{
    assert forall|k: int| 0 <= k <= 10 implies full_mask_upto(bmid, k) == placed_mask_upto(
        b,
        loc,
        k,
    ) by {
        lemma_mask_upto_congruence(bmid, b, loc, k);
    }
}

proof fn lemma_mask_upto_congruence(bmid: Board, b: Board, loc: PieceLocation, k: int)
    requires
        0 <= k <= 10,
        forall|x: int| 0 <= x < 10 ==> col(bmid, x) == placed_col(b, loc, x),
    ensures
        full_mask_upto(bmid, k) == placed_mask_upto(b, loc, k),
    decreases k,
{
    if k > 0 {
        lemma_mask_upto_congruence(bmid, b, loc, k - 1);
    }
}

/// On a board with no full row, a single piece completes at most four
/// rows.
pub proof fn lemma_placed_mask_pop(b: Board, loc: PieceLocation)
    requires
        no_full_row(b),
        loc_cells_in_bounds(loc),
    ensures
        pop64(placed_full_mask(b, loc)) <= 4,
{
    let m = placed_full_mask(b, loc);
    let r0 = cell_bit(loc, loc_cell(loc, 0).0, 0);
    let r1 = cell_bit(loc, loc_cell(loc, 1).0, 1);
    let r2 = cell_bit(loc, loc_cell(loc, 2).0, 2);
    let r3 = cell_bit(loc, loc_cell(loc, 3).0, 3);
    let rows = r0 | r1 | r2 | r3;
    assert forall|y: int| #[trigger] row_bit(m, y) implies row_bit(rows, y) by {
        lemma_placed_mask_upto_bits(b, loc, 10, y);
        assert(!full_row(b, y));
        let x0 = choose|x: int| 0 <= x < 10 && !row_bit(col(b, x), y);
        assert(row_bit(placed_col(b, loc, x0), y));
        lemma_bit_or(col(b, x0), cell_mask(loc, x0));
        lemma_cell_mask_bits(loc, x0, y);
        let i = choose|i: int| 0 <= i < 4 && loc_cell(loc, i) == (x0, y);
        lemma_bit_or(r0 | r1, r2);
        lemma_bit_or(r0, r1);
        lemma_bit_or((r0 | r1) | r2, r3);
        assert(rows == ((r0 | r1) | r2) | r3) by {
            lemma_word_algebra();
        }
        assert(0 <= loc_cell(loc, i).1 < 64);
        lemma_bit_single(loc_cell(loc, i).1 as u64);
        if i == 0 {
            assert(row_bit(r0, y));
        } else if i == 1 {
            assert(row_bit(r1, y));
        } else if i == 2 {
            assert(row_bit(r2, y));
        } else {
            assert(row_bit(r3, y));
        }
    }
    lemma_pop_sub(m, rows);
    lemma_cell_pop(loc, 0);
    lemma_cell_pop(loc, 1);
    lemma_cell_pop(loc, 2);
    lemma_cell_pop(loc, 3);
    lemma_pop_or(r0, r1);
    lemma_pop_or(r0 | r1, r2);
    lemma_pop_or((r0 | r1) | r2, r3);
    assert(rows == ((r0 | r1) | r2) | r3) by {
        lemma_word_algebra();
    }
}

proof fn lemma_cell_pop(loc: PieceLocation, i: int)
    requires
        0 <= i < 4,
        loc_cells_in_bounds(loc),
    ensures
        pop64(cell_bit(loc, loc_cell(loc, i).0, i)) <= 1,
{
    assert(0 <= loc_cell(loc, i).1 < 64);
    lemma_pop_single(loc_cell(loc, i).1 as u64);
}

/// Collapsing every column by the board's own full mask leaves no
/// full row.
pub proof fn lemma_collapse_no_full_row(b: Board, b2: Board, m: u64)
    requires
        m == full_mask(b),
        forall|x: int| 0 <= x < 10 ==> col(b2, x) == collapse(col(b, x), m),
    ensures
        no_full_row(b2),
{
    assert forall|y: int| !full_row(b2, y) by {
        if full_row(b2, y) {
            assert(row_bit(col(b2, 0), y));
            assert(0 <= y < 64);
            let s = src_row(m, y);
            lemma_src_row_clear(m, y);
            assert forall|x: int| 0 <= x < 10 implies row_bit(#[trigger] col(b, x), s) by {
                assert(row_bit(col(b2, x), y));
                lemma_collapse_bit(col(b, x), m, y);
            }
            assert(full_row(b, s));
            lemma_full_mask_bits(b, s);
            lemma_src_row_ge(m, y);
            assert(0 <= s);
            if s >= 64 {
                assert(!row_bit(col(b, 0), s));
            }
        }
    }
}

/// A board with no full row has an empty full mask.
pub proof fn lemma_no_full_row_mask_zero(b: Board)
    requires
        no_full_row(b),
    ensures
        full_mask(b) == 0,
{
    lemma_bit_const();
    assert forall|y: int| row_bit(full_mask(b), y) == row_bit(0u64, y) by {
        lemma_full_mask_bits(b, y);
    }
    lemma_bit_ext(full_mask(b), 0);
}

/// OR of the first `k` columns.
pub open spec fn board_or_upto(b: Board, k: int) -> u64
    decreases k,
{
    if k <= 0 {
        0u64
    } else {
        board_or_upto(b, k - 1) | col(b, k - 1)
    }
}

/// The union of all ten columns.
pub open spec fn board_or(b: Board) -> u64 {
    board_or_upto(b, 10)
}

/// The highest occupied row across the board, plus one.
pub open spec fn max_height(b: Board) -> nat {
    col_height(board_or(b))
}

/// Rows of the partial OR are the rows filled in some column folded.
pub proof fn lemma_board_or_upto_bits(b: Board, k: int, y: int)
    requires
        0 <= k,
    ensures
        row_bit(board_or_upto(b, k), y) == exists|x: int|
            0 <= x < k && row_bit(#[trigger] col(b, x), y),
    decreases k,
{
    if k == 0 {
        lemma_bit_const();
    } else {
        lemma_board_or_upto_bits(b, k - 1, y);
        lemma_bit_or(board_or_upto(b, k - 1), col(b, k - 1));
        if row_bit(col(b, k - 1), y) {
            assert(0 <= k - 1 < k && row_bit(col(b, k - 1), y));
        }
    }
}

/// A filled cell always lies below the board height.
pub proof fn lemma_max_height_bits(b: Board)
    ensures
        forall|x: int, y: int| 0 <= x < 10 && #[trigger] row_bit(col(b, x), y) ==> y < max_height(
            b,
        ),
{
    assert forall|x: int, y: int|
        0 <= x < 10 && #[trigger] row_bit(col(b, x), y) implies y < max_height(b) by {
        lemma_board_or_upto_bits(b, 10, y);
        lemma_height_bits(board_or(b));
        assert(row_bit(board_or(b), y));
    }
}

/// The report of one placement: whether it was a spin, how many rows
/// it cleared, and how many garbage lines it sends.
#[derive(Clone, Copy, PartialEq, Eq, Structural, Debug)]
pub struct PlacementInfo {
    pub spin: bool,
    pub lines_cleared: u32,
    pub garbage_sent: u32,
}

/// The attack table: garbage sent for a raw placement, before the
/// game-level back-to-back, combo and all-clear adjustments. A spin
/// single counts as a mini and sends nothing, whatever the piece.
pub open spec fn attack(cleared: u32, spun: bool, is_t: bool) -> u32 {
    if cleared == 2 {
        if spun && is_t {
            4
        } else {
            1
        }
    } else if cleared == 3 {
        if spun && is_t {
            6
        } else {
            2
        }
    } else if cleared == 4 {
        4
    } else {
        0
    }
}

/// Number of filled rows in a word.
pub fn popcount(m: u64) -> (r: u32)
    ensures
        r == pop64(m),
{
    let ghost m0: u64 = m;
    let mut m: u64 = m;
    let mut r: u32 = 0;
    proof {
        lemma_pop_le_height(m0);
        lemma_height_le_64(m0);
    }
    while m != 0
        invariant
            r + pop64(m) == pop64(m0),
            pop64(m0) <= 64,
        decreases m,
    {
        assert(m & 1u64 == m % 2 && m >> 1u64 == m / 2) by (bit_vector);
        proof {
            lemma_pop_le_height(m / 2);
            lemma_height_le_64(m / 2);
        }
        r = r + (m & 1u64) as u32;
        m = m >> 1u64;
    }
    r
}

impl Board {
    /// Draw the four blocks of `loc` onto the board; if the placement
    /// could have completed a row, remove every full row. Returns the
    /// spin flag, the number of rows cleared and the attack-table
    /// garbage. The caller must hand a placement whose blocks lie on
    /// the board and on empty cells, as the move generator guarantees.
    pub fn place(&mut self, loc: PieceLocation) -> (r: PlacementInfo)
        requires
            loc_in_range(loc),
            loc_cells_in_bounds(loc),
            loc_fits(*old(self), loc),
            no_full_row(*old(self)),
        ensures
            forall|x: int| 0 <= x < 10 ==> col(*final (self), x) == placed_board_col(
                *old(self),
                loc,
                x,
            ),
            r.spin == loc.spun,
            r.lines_cleared == cleared_count(*old(self), loc),
            r.lines_cleared <= 4,
            r.garbage_sent == attack(r.lines_cleared, loc.spun, loc.piece == Piece::T),
            loc.possible_line_clear ==> no_full_row(*final (self)),
    {
        let ghost b0: Board = *self;
        let spin = loc.spun;
        let blocks = loc.blocks();
        proof {
            lemma_word_algebra();
        }
        let mut i: usize = 0;
        while i < 4
            invariant
                0 <= i <= 4,
                forall|j: int| 0 <= j < 4 ==> ((#[trigger] blocks@[j]).0 as int, blocks@[j].1 as int)
                    == loc_cell(loc, j),
                loc_cells_in_bounds(loc),
                forall|x: int| 0 <= x < 10 ==> col(*self, x) == col(b0, x) | cell_mask_upto(
                    loc,
                    x,
                    i as int,
                ),
            decreases 4 - i,
        {
            let (x, y) = blocks[i];
            assert(0 <= x < 10 && 0 <= y < 40);
            let ghost before: Board = *self;
            let xi = x as usize;
            let v = Column(self.cols[xi].0 | (1u64 << (y as u64)));
            self.cols.set(xi, v);
            proof {
                lemma_word_algebra();
                assert(self.cols@ == before.cols@.update(xi as int, v));
                assert(col(*self, xi as int) == v.0);
                assert(v.0 == col(before, xi as int) | (1u64 << (y as u64)));
                assert(loc_cell(loc, i as int) == (x as int, y as int));
                assert forall|xx: int| 0 <= xx < 10 implies col(*self, xx) == col(b0, xx)
                    | cell_mask_upto(loc, xx, i + 1) by {
                    assert(cell_mask_upto(loc, xx, i + 1) == cell_mask_upto(loc, xx, i as int)
                        | cell_bit(loc, xx, i as int));
                    if xx == x as int {
                        assert(cell_bit(loc, xx, i as int) == 1u64 << (y as u64));
                        assert(col(before, xx) == col(b0, xx) | cell_mask_upto(loc, xx, i as int));
                        assert(col(*self, xx) == (col(b0, xx) | cell_mask_upto(loc, xx, i as int))
                            | cell_bit(loc, xx, i as int));
                    } else {
                        assert(col(*self, xx) == col(before, xx));
                        assert(cell_bit(loc, xx, i as int) == 0u64);
                    }
                }
            }
            i = i + 1;
        }
        assert(forall|x: int| 0 <= x < 10 ==> col(*self, x) == placed_col(b0, loc, x));
        let line_mask: u64 = if loc.possible_line_clear {
            proof {
                lemma_placed_mask_eq(*self, b0, loc);
            }
            let ghost bmid: Board = *self;
            let lm = self.remove_lines();
            proof {
                lemma_collapse_no_full_row(bmid, *self, lm);
            }
            lm
        } else {
            0
        };
        let lines_cleared = popcount(line_mask);
        proof {
            if loc.possible_line_clear {
                lemma_placed_mask_pop(b0, loc);
            }
        }
        let garbage_sent: u32 = match lines_cleared {
            0 => 0,
            1 => 0,
            2 => if spin && matches!(loc.piece, Piece::T) {
                4
            } else {
                1
            },
            3 => if spin && matches!(loc.piece, Piece::T) {
                6
            } else {
                2
            },
            4 => 4,
            _ => unreached(),
        };
        PlacementInfo { spin, lines_cleared, garbage_sent }
    }

    /// Remove every full row of the board, letting the rows above each
    /// fall one step. Returns the word of removed rows.
    pub fn remove_lines(&mut self) -> (r: u64)
        ensures
            r == full_mask(*old(self)),
            forall|x: int| 0 <= x < 10 ==> col(*final (self), x) == collapse(
                col(*old(self), x),
                full_mask(*old(self)),
            ),
    {
        let mut lines: u64 = !0u64;
        let mut x: usize = 0;
        while x < 10
            invariant
                0 <= x <= 10,
                *self == *old(self),
                lines == full_mask_upto(*self, x as int),
            decreases 10 - x,
        {
            lines = lines & self.cols[x].0;
            x = x + 1;
        }
        let ghost b0: Board = *self;
        let mut x: usize = 0;
        while x < 10
            invariant
                0 <= x <= 10,
                lines == full_mask(b0),
                forall|k: int| 0 <= k < x ==> col(*self, k) == collapse(col(b0, k), lines),
                forall|k: int| x <= k < 10 ==> col(*self, k) == col(b0, k),
            decreases 10 - x,
        {
            let ghost bprev: Board = *self;
            let mut c = self.cols[x];
            c.clear(lines);
            self.cols.set(x, c);
            proof {
                assert(self.cols@ == bprev.cols@.update(x as int, c));
                assert(col(*self, x as int) == c.0);
                assert(c.0 == collapse(col(b0, x as int), lines));
                assert forall|k: int| 0 <= k < 10 && k != x implies col(*self, k) == col(
                    bprev,
                    k,
                ) by {
                    assert(self.cols@[k] == bprev.cols@[k]);
                }
                assert forall|k: int| 0 <= k < x + 1 implies col(*self, k) == collapse(
                    col(b0, k),
                    lines,
                ) by {
                    if k < x {
                        assert(col(*self, k) == col(bprev, k));
                        assert(col(bprev, k) == collapse(col(b0, k), lines));
                    } else {
                        assert(k == x);
                        assert(col(*self, k) == c.0);
                    }
                }
            }
            x = x + 1;
        }
        lines
    }

    /// One more than the highest occupied row across the whole board.
    pub fn max_height_col(&self) -> (r: u8)
        ensures
            r == max_height(*self),
    {
        let mut acc: u64 = 0;
        let mut x: usize = 0;
        while x < 10
            invariant
                0 <= x <= 10,
                acc == board_or_upto(*self, x as int),
            decreases 10 - x,
        {
            acc = acc | self.cols[x].0;
            x = x + 1;
        }
        Column(acc).height()
    }
}

/// A drawn-on column is filled exactly where the board or one of the
/// placement's blocks fills it.
pub proof fn lemma_placed_col_bits(b: Board, loc: PieceLocation, x: int, y: int)
    ensures
        row_bit(placed_col(b, loc, x), y) == (row_bit(col(b, x), y) || (0 <= y < 64
            && exists|i: int| 0 <= i < 4 && #[trigger] loc_cell(loc, i) == (x, y))),
{
    lemma_bit_or(col(b, x), cell_mask(loc, x));
    lemma_cell_mask_bits(loc, x, y);
}

/// Collapsing every drawn-on column by the rows the placement fills
/// completely leaves no full row.
pub proof fn lemma_placed_collapse_no_full_row(b: Board, b2: Board, loc: PieceLocation)
    requires
        forall|x: int| 0 <= x < 10 ==> col(b2, x) == collapse(
            placed_col(b, loc, x),
            placed_full_mask(b, loc),
        ),
    ensures
        no_full_row(b2),
{
    let m = placed_full_mask(b, loc);
    assert forall|y: int| !full_row(b2, y) by {
        if full_row(b2, y) {
            assert(row_bit(col(b2, 0), y));
            assert(0 <= y < 64);
            let s = src_row(m, y);
            lemma_src_row_clear(m, y);
            assert forall|x: int| 0 <= x < 10 implies row_bit(#[trigger] placed_col(b, loc, x), s) by {
                assert(row_bit(col(b2, x), y));
                lemma_collapse_bit(placed_col(b, loc, x), m, y);
            }
            lemma_placed_mask_upto_bits(b, loc, 10, s);
            lemma_src_row_ge(m, y);
            if s >= 64 {
                assert(!row_bit(placed_col(b, loc, 0), s));
            } else {
                assert(row_bit(m, s));
            }
        }
    }
}

/// Row `rr` is full once the blocks of `loc` are drawn onto `b`.
pub open spec fn placed_full_row(b: Board, loc: PieceLocation, rr: int) -> bool {
    forall|x: int| 0 <= x < 10 ==> row_bit(#[trigger] placed_col(b, loc, x), rr)
}

/// The placed full mask is empty exactly when no row is full after
/// the blocks of `loc` are drawn.
pub proof fn lemma_placed_mask_empty(b: Board, loc: PieceLocation)
    requires
        forall|rr: int| !placed_full_row(b, loc, rr),
    ensures
        placed_full_mask(b, loc) == 0,
{
    lemma_bit_const();
    assert forall|y: int|
        row_bit(placed_full_mask(b, loc), y) == row_bit(0u64, y) by {
        lemma_placed_mask_upto_bits(b, loc, 10, y);
        assert(!placed_full_row(b, loc, y));
    }
    lemma_bit_ext(placed_full_mask(b, loc), 0);
}

/// Conversely, an empty placed full mask means no row is full after
/// the blocks are drawn.
pub proof fn lemma_placed_mask_empty_rows(b: Board, loc: PieceLocation)
    requires
        placed_full_mask(b, loc) == 0,
    ensures
        forall|rr: int| !placed_full_row(b, loc, rr),
{
    lemma_bit_const();
    assert forall|rr: int| !placed_full_row(b, loc, rr) by {
        if 0 <= rr < 64 {
            lemma_placed_mask_upto_bits(b, loc, 10, rr);
            assert(!row_bit(0u64, rr));
        } else {
            if placed_full_row(b, loc, rr) {
                assert(row_bit(placed_col(b, loc, 0), rr));
            }
        }
    }
}

} // verus!
