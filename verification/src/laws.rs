//! Engine-wide laws, stated and proved over the same specifications
//! that the functions' own contracts use.

use vstd::prelude::*;

use crate::bits::{col_height, lemma_height_bits, row_bit};
use crate::board::{
    board_or, col, collapse, full_mask, lemma_board_or_upto_bits, lemma_collapse_bit,
    lemma_collapse_no_full_row, lemma_max_height_bits, lemma_no_full_row_mask_zero,
    lemma_placed_col_bits, lemma_placed_collapse_no_full_row, lemma_src_row_ge,
    loc_cells_in_bounds, max_height, no_full_row, placed_board_col, placed_col, Board,
};
use crate::geometry::{
    loc_cell, piece_cell, rotate_cell, spec_rotate_right, Piece, PieceLocation, Rotation,
};

verus! {

/// Removing full rows is idempotent: a board that just had its full
/// rows removed has none left, so removing them again changes no
/// column.
pub proof fn lemma_remove_lines_idempotent(b: Board, b1: Board, b2: Board)
    requires
        forall|x: int| 0 <= x < 10 ==> col(b1, x) == collapse(col(b, x), full_mask(b)),
        forall|x: int| 0 <= x < 10 ==> col(b2, x) == collapse(col(b1, x), full_mask(b1)),
    ensures
        forall|x: int| 0 <= x < 10 ==> col(b2, x) == col(b1, x),
{
    lemma_collapse_no_full_row(b, b1, full_mask(b));
    lemma_no_full_row_mask_zero(b1);
}

/// A placement that resolves its line clears leaves no completely
/// filled row on the board.
pub proof fn lemma_place_leaves_no_full_row(b: Board, b2: Board, loc: PieceLocation)
    requires
        loc.possible_line_clear,
        forall|x: int| 0 <= x < 10 ==> col(b2, x) == placed_board_col(b, loc, x),
    ensures
        no_full_row(b2),
{
    lemma_placed_collapse_no_full_row(b, b2, loc);
}

/// One more than the highest row any block of `loc` occupies.
pub open spec fn top_of_blocks(loc: PieceLocation) -> int {
    let y0 = loc_cell(loc, 0).1;
    let y1 = loc_cell(loc, 1).1;
    let y2 = loc_cell(loc, 2).1;
    let y3 = loc_cell(loc, 3).1;
    1 + vstd::math::max(vstd::math::max(y0, y1), vstd::math::max(y2, y3))
}

/// Placing a piece may lower the board, since line clears remove
/// rows, but can never raise it past one row above the placement's
/// highest block.
pub proof fn lemma_place_height_bound(b: Board, b2: Board, loc: PieceLocation)
    requires
        loc_cells_in_bounds(loc),
        forall|x: int| 0 <= x < 10 ==> col(b2, x) == placed_board_col(b, loc, x),
    ensures
        max_height(b2) <= vstd::math::max(max_height(b) as int, top_of_blocks(loc)),
{
    let bound = vstd::math::max(max_height(b) as int, top_of_blocks(loc));
    lemma_max_height_bits(b);
    assert forall|x: int, y: int|
        0 <= x < 10 && #[trigger] row_bit(col(b2, x), y) implies y < bound by {
        let m = crate::board::placed_full_mask(b, loc);
        let s: int = if loc.possible_line_clear {
            lemma_collapse_bit(placed_col(b, loc, x), m, y);
            lemma_src_row_ge(m, y);
            crate::board::src_row(m, y)
        } else {
            y
        };
        assert(row_bit(placed_col(b, loc, x), s));
        lemma_placed_col_bits(b, loc, x, s);
        if row_bit(col(b, x), s) {
            assert(s < max_height(b));
        } else {
            let i = choose|i: int| 0 <= i < 4 && #[trigger] loc_cell(loc, i) == (x, s);
            assert(s < top_of_blocks(loc));
        }
    }
    if board_or(b2) != 0 {
        lemma_height_bits(board_or(b2));
        let h = col_height(board_or(b2)) as int;
        lemma_board_or_upto_bits(b2, 10, h - 1);
        assert(row_bit(board_or(b2), h - 1));
    } else {
        assert(0 <= loc_cell(loc, 0).1);
    }
}

/// Rotating a block a quarter turn clockwise four times in a row
/// returns it to where it started.
pub proof fn lemma_quarter_turns_identity(c: (int, int))
    ensures
        rotate_cell(
            Rotation::Right,
            rotate_cell(
                Rotation::Right,
                rotate_cell(Rotation::Right, rotate_cell(Rotation::Right, c)),
            ),
        ) == c,
{
}

/// Stepping a rotation state clockwise four times returns it to
/// where it started.
pub proof fn lemma_rotate_right_cycle(r: Rotation)
    ensures
        spec_rotate_right(spec_rotate_right(spec_rotate_right(spec_rotate_right(r)))) == r,
{
    match r {
        Rotation::Up => {},
        Rotation::Right => {},
        Rotation::Down => {},
        Rotation::Left => {},
    }
}

/// Taking a piece through the full cycle of rotation states is the
/// identity on each of its block offsets, hence on its block set.
pub proof fn lemma_rotation_round_trip(p: Piece, i: int)
    requires
        0 <= i < 4,
    ensures
        rotate_cell(
            Rotation::Right,
            rotate_cell(
                Rotation::Right,
                rotate_cell(
                    Rotation::Right,
                    rotate_cell(Rotation::Right, piece_cell(p, i)),
                ),
            ),
        ) == piece_cell(p, i),
{
    lemma_quarter_turns_identity(piece_cell(p, i));
}

/// Applying any placement the move generator returned leaves no
/// completely filled row, whether or not the placement resolved a
/// line clear: when it skipped the clear, the generator had already
/// established that no row could complete.
pub proof fn lemma_generated_place_leaves_no_full_row(
    b: Board,
    b2: Board,
    piece: Piece,
    loc: PieceLocation,
)
    requires
        no_full_row(b),
        crate::movegen::movegen_valid(b, piece, loc),
        forall|x: int| 0 <= x < 10 ==> col(b2, x) == placed_board_col(b, loc, x),
    ensures
        no_full_row(b2),
{
    if loc.possible_line_clear {
        lemma_placed_collapse_no_full_row(b, b2, loc);
    } else {
        crate::board::lemma_placed_mask_empty_rows(b, loc);
        assert forall|rr: int| !crate::board::full_row(b2, rr) by {
            if crate::board::full_row(b2, rr) {
                assert forall|x: int| 0 <= x < 10 implies row_bit(
                    #[trigger] placed_col(b, loc, x),
                    rr,
                ) by {
                    assert(row_bit(col(b2, x), rr));
                }
                assert(crate::board::placed_full_row(b, loc, rr));
            }
        }
    }
}

} // verus!
