//! The move generator: enumerate, for a piece on a board, every
//! reachable final resting position, with wall kicks between rotation
//! states and spin recognition. Reachability is computed as a fixed
//! point over four ten-column bitboards, one per rotation state.

use vstd::array::ArrayAdditionalExecFns;
use vstd::prelude::*;

use crate::bits::{
    lemma_bit_and, lemma_bit_const, lemma_bit_low_mask, lemma_bit_lsb, lemma_bit_not,
    lemma_bit_one, lemma_bit_or, lemma_bit_shl, lemma_bit_shr, lemma_bit_single,
    lemma_height_le_64, lemma_pop_le_height, lemma_pop_sub, low_mask, pop64, row_bit,
};
use crate::board::{
    col, loc_cells_in_bounds, loc_fits, max_height, no_full_row, occ, placed_col, Board,
};
use crate::game::Game;
use crate::geometry::{
    cell_of, kicks, lemma_cell_bounds, loc_cell, loc_in_range, piece_cell, rotate_cell, Piece,
    PieceLocation, Rotation,
};

verus! {

/// The rotation state that collision-map index `i` stands for.
pub open spec fn rot_of(i: int) -> Rotation {
    if i == 0 {
        Rotation::Up
    } else if i == 1 {
        Rotation::Right
    } else if i == 2 {
        Rotation::Down
    } else {
        Rotation::Left
    }
}

/// The cell `(cx, cy)` cannot take a block: below the floor, off the
/// sides of the playfield within its 40 rows, or filled.
pub open spec fn cell_blocked(b: Board, cx: int, cy: int) -> bool {
    cy < 0 || (!(0 <= cx < 10) && cy <= 39) || (0 <= cx < 10 && occ(b, cx, cy))
}

/// The cell `(cx, cy)` lies on the playfield and is empty.
pub open spec fn cell_free(b: Board, cx: int, cy: int) -> bool {
    0 <= cx < 10 && 0 <= cy < 40 && !occ(b, cx, cy)
}

/// Block `i` of piece `p` in rotation `r`, centered at `(x, y)`,
/// lands on a blocked cell.
pub open spec fn block_hits(b: Board, p: Piece, r: Rotation, x: int, y: int, i: int) -> bool {
    let c = cell_of(p, r, i);
    cell_blocked(b, x + c.0, y + c.1)
}

/// Some block of the first `k` blocks hits, as `block_hits` says.
pub open spec fn blocked_upto(b: Board, p: Piece, r: Rotation, x: int, y: int, k: int) -> bool {
    exists|i: int| 0 <= i < k && block_hits(b, p, r, x, y, i)
}

/// The piece `p` in rotation `r` cannot rest with its center at
/// `(x, y)`: some block is out of bounds or overlaps the board.
pub open spec fn blocked_at(b: Board, p: Piece, r: Rotation, x: int, y: int) -> bool {
    blocked_upto(b, p, r, x, y, 4)
}

/// All four blocks of `p` in rotation `r` centered at `(x, y)` lie on
/// the playfield and on empty cells of `b`.
pub open spec fn pos_free(b: Board, p: Piece, r: Rotation, x: int, y: int) -> bool {
    forall|i: int|
        0 <= i < 4 ==> {
            let c = #[trigger] cell_of(p, r, i);
            cell_free(b, x + c.0, y + c.1)
        }
}

/// An unblocked center low enough in the search window is fully free:
/// every block is then forced onto the playfield.
pub proof fn lemma_unblocked_free(b: Board, p: Piece, r: Rotation, x: int, y: int)
    requires
        !blocked_at(b, p, r, x, y),
        0 <= x < 10,
        0 <= y <= 37,
    ensures
        pos_free(b, p, r, x, y),
{
    assert forall|i: int| 0 <= i < 4 implies {
        let c = #[trigger] cell_of(p, r, i);
        cell_free(b, x + c.0, y + c.1)
    } by {
        lemma_cell_bounds(p, r, i);
        assert(!block_hits(b, p, r, x, y, i));
    }
}

/// A corner cell used by the T spin test: below the floor, off the
/// sides within the 40 playfield rows, or filled.
pub open spec fn corner_blocked(b: Board, cx: int, cy: int) -> bool {
    cy < 0 || (!(0 <= cx < 10) && 0 <= cy <= 39) || (0 <= cx < 10 && occ(b, cx, cy))
}

/// The three-corner rule for a T piece centered at `(x, y)`: both
/// lower corners and one upper corner blocked, or both upper corners
/// and one lower corner blocked.
pub open spec fn t_spin_geometry(b: Board, x: int, y: int) -> bool {
    let bl = corner_blocked(b, x - 1, y - 1);
    let br = corner_blocked(b, x + 1, y - 1);
    let tr = corner_blocked(b, x + 1, y + 1);
    let tl = corner_blocked(b, x - 1, y + 1);
    (bl && br && (tr || tl)) || (tr && tl && (bl || br))
}

/// The piece placed one column to the side cannot rest there: off the
/// playfield columns count as blocked within the 40 playfield rows.
pub open spec fn side_blocked(b: Board, p: Piece, r: Rotation, xx: int, y: int) -> bool {
    if 0 <= xx < 10 {
        blocked_at(b, p, r, xx, y)
    } else {
        0 <= y <= 39
    }
}

/// The spin test for a piece other than T: both horizontal neighbour
/// positions and the position directly above are blocked.
pub open spec fn immobile_spin_geometry(b: Board, p: Piece, r: Rotation, x: int, y: int) -> bool {
    side_blocked(b, p, r, x - 1, y) && side_blocked(b, p, r, x + 1, y) && blocked_at(
        b,
        p,
        r,
        x,
        y + 1,
    )
}

/// The piece-specific spin geometry: the three-corner rule for T, the
/// immobility rule for every other piece.
pub open spec fn spin_geometry(b: Board, p: Piece, r: Rotation, x: int, y: int) -> bool {
    if p == Piece::T {
        t_spin_geometry(b, x, y)
    } else {
        immobile_spin_geometry(b, p, r, x, y)
    }
}

/// What the move generator promises of each returned placement: the
/// right piece; all four blocks on the playfield and on empty cells;
/// the position final (resting on the floor or on support); only the
/// canonical rotation and no spin for O; and the spin geometry
/// wherever the spin flag is set.
pub open spec fn movegen_valid(b: Board, piece: Piece, loc: PieceLocation) -> bool {
    &&& loc.piece == piece
    &&& loc_in_range(loc)
    &&& loc_cells_in_bounds(loc)
    &&& loc_fits(b, loc)
    &&& (loc.y == 0 || blocked_at(b, piece, loc.rotation, loc.x as int, loc.y - 1))
    &&& (piece == Piece::O ==> loc.rotation == Rotation::Up && !loc.spun)
    &&& ((piece == Piece::I || piece == Piece::S || piece == Piece::Z) ==> (loc.rotation
        == Rotation::Up || loc.rotation == Rotation::Right))
    &&& (loc.spun ==> spin_geometry(b, piece, loc.rotation, loc.x as int, loc.y as int))
    &&& ((!loc.possible_line_clear && no_full_row(b)) ==> crate::board::placed_full_mask(b, loc)
        == 0)
}

/// The list holds a placement of `piece` at rotation `r`, column `x`
/// and row `y`.
pub open spec fn emitted_for(piece: Piece, ps: Seq<PieceLocation>, r: Rotation, x: int, y: int) -> bool {
    exists|i: int|
        0 <= i < ps.len() && (#[trigger] ps[i]).piece == piece && ps[i].rotation == r && ps[i].x
            == x && ps[i].y == y
}

/// Four ten-column bitboards describing one rotation state of a piece
/// on a board: where its center cannot be, where it may be, which
/// positions reachability has found, and which were entered only by a
/// kicked rotation.
#[derive(Clone, Copy, Debug)]
pub struct CollisionMap {
    pub obstructed: [u64; 10],
    pub all_valid: [u64; 10],
    pub explored: [u64; 10],
    pub spin_loc: [u64; 10],
}

/// The obstruction bitboard agrees with the geometry: bit `(x, y)`
/// is set exactly when the piece cannot have its center there.
pub open spec fn inv_obstructed(b: Board, p: Piece, r: Rotation, m: CollisionMap) -> bool {
    forall|x: int, y: int|
        0 <= x < 10 && 0 <= y < 64 ==> #[trigger] row_bit(m.obstructed@[x], y) == blocked_at(
            b,
            p,
            r,
            x,
            y,
        )
}

/// Valid positions are unobstructed and lie in the search window, two
/// rows above the highest filled cell at most.
pub open spec fn inv_valid(b: Board, m: CollisionMap) -> bool {
    forall|x: int, y: int|
        0 <= x < 10 && #[trigger] row_bit(m.all_valid@[x], y) ==> y <= max_height(b) + 2
            && !row_bit(m.obstructed@[x], y)
}

/// An unobstructed position directly below a valid one is valid.
pub open spec fn valid_down_closed(m: CollisionMap) -> bool {
    forall|x: int, y: int|
        0 <= x < 10 && 1 <= y && #[trigger] row_bit(m.all_valid@[x], y) && !row_bit(
            m.obstructed@[x],
            y - 1,
        ) ==> row_bit(m.all_valid@[x], y - 1)
}

/// An unobstructed position beside a valid one is valid.
pub open spec fn valid_side_closed(m: CollisionMap) -> bool {
    forall|x: int, x2: int, y: int|
        0 <= x < 10 && 0 <= x2 < 10 && (x2 == x - 1 || x2 == x + 1) && #[trigger] row_bit(
            m.all_valid@[x2],
            y,
        ) && !(#[trigger] row_bit(m.obstructed@[x], y)) ==> row_bit(m.all_valid@[x], y)
}

/// Explored positions are valid positions.
pub open spec fn explored_valid(m: CollisionMap) -> bool {
    forall|x: int, y: int|
        0 <= x < 10 && #[trigger] row_bit(m.explored@[x], y) ==> row_bit(m.all_valid@[x], y)
}

/// Kick-entered positions are valid positions.
pub open spec fn spin_valid(m: CollisionMap) -> bool {
    forall|x: int, y: int|
        0 <= x < 10 && #[trigger] row_bit(m.spin_loc@[x], y) ==> row_bit(m.all_valid@[x], y)
}

/// Explored positions are closed downward: below an explored
/// position, an unobstructed position is explored too.
pub open spec fn explored_down_closed(m: CollisionMap) -> bool {
    forall|x: int, y: int|
        0 <= x < 10 && 1 <= y && #[trigger] row_bit(m.explored@[x], y) && !row_bit(
            m.obstructed@[x],
            y - 1,
        ) ==> row_bit(m.explored@[x], y - 1)
}

/// Explored positions are closed sideways: beside an explored
/// position, an unobstructed position is explored too.
pub open spec fn explored_side_closed(m: CollisionMap) -> bool {
    forall|x: int, x2: int, y: int|
        0 <= x < 10 && 0 <= x2 < 10 && (x2 == x - 1 || x2 == x + 1) && #[trigger] row_bit(
            m.explored@[x2],
            y,
        ) && !(#[trigger] row_bit(m.obstructed@[x], y)) ==> row_bit(m.explored@[x], y)
}

/// The spawn row is explored wherever it is unobstructed: the piece
/// enters two rows over the stack and may start in any free column.
pub open spec fn spawn_covered(b: Board, m: CollisionMap) -> bool {
    forall|x: int|
        0 <= x < 10 && !row_bit(#[trigger] m.obstructed@[x], max_height(b) + 2int) ==> row_bit(
            m.explored@[x],
            max_height(b) + 2int,
        )
}

/// Downward closure of one column of an explored board.
pub open spec fn col_down_closed(e: Seq<u64>, o: Seq<u64>, x: int) -> bool {
    forall|y: int|
        1 <= y && #[trigger] row_bit(e[x], y) && !row_bit(o[x], y - 1) ==> row_bit(e[x], y - 1)
}

/// Sideways closure of one column of an explored board.
pub open spec fn col_side_closed(e: Seq<u64>, o: Seq<u64>, x: int) -> bool {
    forall|x2: int, y: int|
        0 <= x2 < 10 && (x2 == x - 1 || x2 == x + 1) && #[trigger] row_bit(e[x2], y) && !(
        #[trigger] row_bit(o[x], y)) ==> row_bit(e[x], y)
}

/// Everything the fixed-point iteration maintains of one collision
/// map: the obstruction and validity boards describe the geometry and
/// never change; explored and kick-entered positions stay valid.
pub open spec fn map_ok(b: Board, p: Piece, r: Rotation, m: CollisionMap) -> bool {
    &&& inv_obstructed(b, p, r, m)
    &&& inv_valid(b, m)
    &&& valid_down_closed(m)
    &&& valid_side_closed(m)
    &&& explored_valid(m)
    &&& spin_valid(m)
}

impl CollisionMap {
    /// Build the collision map of `piece` in `rotation` on `board`:
    /// obstructions from the four blocks, the valid window reaching
    /// three rows over the stack, and the spawn row as the explored
    /// seed, flooded downward and sideways.
    pub fn new(board: &Board, piece: Piece, rotation: Rotation) -> (r: CollisionMap)
        requires
            max_height(*board) <= 60,
        ensures
            map_ok(*board, piece, rotation, r),
            forall|x: int| 0 <= x < 10 ==> #[trigger] r.spin_loc@[x] == 0,
            forall|x: int| 0 <= x < 10 ==> #[trigger] r.all_valid@[x] == low_mask(
                (max_height(*board) + 3) as u64,
            ) & !r.obstructed@[x],
            forall|x: int|
                0 <= x < 10 && !row_bit(#[trigger] r.obstructed@[x], max_height(*board) + 2int)
                    ==> row_bit(r.explored@[x], max_height(*board) + 2int),
            explored_down_closed(r),
            explored_side_closed(r),
    {
        let blocks = rotation.rotate_blocks(piece.blocks());
        proof {
            lemma_cell_bounds(piece, rotation, 0);
            lemma_cell_bounds(piece, rotation, 1);
            lemma_cell_bounds(piece, rotation, 2);
            lemma_cell_bounds(piece, rotation, 3);
        }
        proof {
            assert(1u64 << 40 != 0u64) by (bit_vector);
        }
        let full_height: u64 = (1u64 << 40) - 1;
        proof {
            assert(full_height == low_mask(40));
            lemma_bit_low_mask(40);
        }
        let mut obstructed: [u64; 10] = [0, 0, 0, 0, 0, 0, 0, 0, 0, 0];
        proof {
            lemma_bit_const();
        }
        let mut i: usize = 0;
        while i < 4
            invariant
                0 <= i <= 4,
                full_height == low_mask(40),
                forall|j: int| 0 <= j < 4 ==> ((#[trigger] blocks@[j]).0 as int, blocks@[j].1 as int)
                    == cell_of(piece, rotation, j),
                forall|j: int| 0 <= j < 4 ==> -2 <= #[trigger] cell_of(piece, rotation, j).0 <= 2
                    && -2 <= cell_of(piece, rotation, j).1 <= 2,
                forall|x: int, y: int| 0 <= x < 10 && 0 <= y < 64 ==> #[trigger] row_bit(
                    obstructed@[x],
                    y,
                ) == blocked_upto(*board, piece, rotation, x, y, i as int),
            decreases 4 - i,
        {
            let (dx, dy) = blocks[i];
            let mut x: usize = 0;
            while x < 10
                invariant
                    0 <= x <= 10,
                    0 <= i < 4,
                    full_height == low_mask(40),
                    (dx as int, dy as int) == cell_of(piece, rotation, i as int),
                    -2 <= dx <= 2,
                    -2 <= dy <= 2,
                    forall|xx: int, y: int| x <= xx < 10 && 0 <= y < 64 ==> #[trigger] row_bit(
                        obstructed@[xx],
                        y,
                    ) == blocked_upto(*board, piece, rotation, xx, y, i as int),
                    forall|xx: int, y: int| 0 <= xx < x && 0 <= y < 64 ==> #[trigger] row_bit(
                        obstructed@[xx],
                        y,
                    ) == blocked_upto(*board, piece, rotation, xx, y, i + 1),
                decreases 10 - x,
            {
                let cx = x as i32 + dx as i32;
                let c: u64 = if 0 <= cx && cx < 10 {
                    board.cols[cx as usize].0
                } else {
                    full_height
                };
                let shifted: u64 = if dy < 0 {
                    !(!c << ((-dy) as u64))
                } else {
                    c >> (dy as u64)
                };
                proof {
                    if dy < 0 {
                        lemma_bit_not(c);
                        lemma_bit_shl(!c, (-dy) as u64);
                        lemma_bit_not((!c) << ((-dy) as u64));
                    } else {
                        lemma_bit_shr(c, dy as u64);
                    }
                    assert forall|y: int| 0 <= y < 64 implies row_bit(shifted, y) == block_hits(
                        *board,
                        piece,
                        rotation,
                        x as int,
                        y,
                        i as int,
                    ) by {
                        let cy = y + dy;
                        if dy < 0 {
                            assert(row_bit(shifted, y) == (y < -dy || row_bit(c, cy)));
                        } else {
                            assert(row_bit(shifted, y) == row_bit(c, cy));
                        }
                        if 0 <= cx < 10 {
                            assert(c == col(*board, cx as int));
                        } else {
                            lemma_bit_low_mask(40);
                            assert(forall|z: int| #[trigger] row_bit(full_height, z) == (0 <= z
                                <= 39));
                        }
                    }
                    lemma_bit_or(obstructed@[x as int], shifted);
                }
                let prev = obstructed[x];
                obstructed.set(x, prev | shifted);
                x = x + 1;
            }
            i = i + 1;
        }
        let mh = board.max_height_col();
        proof {
            assert(1u64 << ((mh + 3) as u64) != 0u64) by (bit_vector)
                requires
                    mh + 3 < 64,
            ;
        }
        let window: u64 = (1u64 << ((mh + 3) as u64)) - 1;
        let seed: u64 = 1u64 << ((mh + 2) as u64);
        proof {
            assert(window == low_mask((mh + 3) as u64));
            lemma_bit_low_mask((mh + 3) as u64);
            lemma_bit_single((mh + 2) as u64);
        }
        let mut all_valid: [u64; 10] = [0, 0, 0, 0, 0, 0, 0, 0, 0, 0];
        let mut explored: [u64; 10] = [0, 0, 0, 0, 0, 0, 0, 0, 0, 0];
        let mut x: usize = 0;
        while x < 10
            invariant
                0 <= x <= 10,
                mh == max_height(*board),
                mh + 3 < 64,
                forall|xx: int, y: int| 0 <= xx < 10 && 0 <= y < 64 ==> #[trigger] row_bit(
                    obstructed@[xx],
                    y,
                ) == blocked_at(*board, piece, rotation, xx, y),
                forall|y: int| #[trigger] row_bit(window, y) == (0 <= y < mh + 3),
                forall|y: int| #[trigger] row_bit(seed, y) == (y == mh + 2),
                forall|xx: int| 0 <= xx < x ==> #[trigger] all_valid@[xx] == window & !obstructed@[xx],
                forall|xx: int| 0 <= xx < x ==> #[trigger] explored@[xx] == seed & !obstructed@[xx],
                forall|xx: int| x <= xx < 10 ==> #[trigger] all_valid@[xx] == 0,
                forall|xx: int| x <= xx < 10 ==> #[trigger] explored@[xx] == 0,
            decreases 10 - x,
        {
            all_valid.set(x, window & !obstructed[x]);
            explored.set(x, seed & !obstructed[x]);
            x = x + 1;
        }
        let mut r = CollisionMap { obstructed, all_valid, explored, spin_loc: [0, 0, 0, 0, 0, 0, 0, 0, 0, 0] };
        proof {
            lemma_bit_const();
            assert forall|x2: int, y: int|
                0 <= x2 < 10 && #[trigger] row_bit(r.all_valid@[x2], y) implies y <= max_height(
                *board,
            ) + 2 && !row_bit(r.obstructed@[x2], y) by {
                lemma_bit_not(r.obstructed@[x2]);
                lemma_bit_and(window, !r.obstructed@[x2]);
            }
            assert forall|x2: int, y: int|
                0 <= x2 < 10 && 1 <= y && #[trigger] row_bit(r.all_valid@[x2], y) && !row_bit(
                r.obstructed@[x2],
                y - 1,
            ) implies row_bit(r.all_valid@[x2], y - 1) by {
                lemma_bit_not(r.obstructed@[x2]);
                lemma_bit_and(window, !r.obstructed@[x2]);
            }
            assert forall|x2: int, x3: int, y: int|
                0 <= x2 < 10 && 0 <= x3 < 10 && (x3 == x2 - 1 || x3 == x2 + 1) && #[trigger] row_bit(
                r.all_valid@[x3],
                y,
            ) && !(#[trigger] row_bit(r.obstructed@[x2], y)) implies row_bit(r.all_valid@[x2], y) by {
                lemma_bit_not(r.obstructed@[x2]);
                lemma_bit_not(r.obstructed@[x3]);
                lemma_bit_and(window, !r.obstructed@[x2]);
                lemma_bit_and(window, !r.obstructed@[x3]);
            }
            assert forall|x2: int, y: int|
                0 <= x2 < 10 && #[trigger] row_bit(r.explored@[x2], y) implies row_bit(
                r.all_valid@[x2],
                y,
            ) by {
                lemma_bit_not(r.obstructed@[x2]);
                lemma_bit_and(seed, !r.obstructed@[x2]);
                lemma_bit_and(window, !r.obstructed@[x2]);
            }
            assert(explored_valid(r));
            assert(spin_valid(r));
            assert forall|x2: int|
                0 <= x2 < 10 && !row_bit(#[trigger] r.obstructed@[x2], mh + 2) implies row_bit(
                r.explored@[x2],
                mh + 2,
            ) by {
                lemma_bit_not(r.obstructed@[x2]);
                lemma_bit_and(seed, !r.obstructed@[x2]);
            }
            assert(forall|x2: int| 0 <= x2 < 10 ==> #[trigger] r.all_valid@[x2] == window
                & !r.obstructed@[x2]);
        }
        r.floodfill();
        r
    }

    /// Spread the explored set to its floodfill fixed point: after
    /// the call, any unobstructed position below or beside an
    /// explored position is itself explored.
    pub fn floodfill(&mut self)
        requires
            valid_down_closed(*old(self)),
            valid_side_closed(*old(self)),
            explored_valid(*old(self)),
        ensures
            final (self).obstructed == old(self).obstructed,
            final (self).all_valid == old(self).all_valid,
            final (self).spin_loc == old(self).spin_loc,
            explored_valid(*final (self)),
            forall|x: int, y: int|
                0 <= x < 10 && #[trigger] row_bit(old(self).explored@[x], y) ==> row_bit(
                    final (self).explored@[x],
                    y,
                ),
            explored_down_closed(*final (self)),
            explored_side_closed(*final (self)),
    {
        loop
            invariant
                valid_down_closed(*self),
                valid_side_closed(*self),
                explored_valid(*self),
                self.obstructed == old(self).obstructed,
                self.all_valid == old(self).all_valid,
                self.spin_loc == old(self).spin_loc,
                forall|x: int, y: int|
                    0 <= x < 10 && #[trigger] row_bit(old(self).explored@[x], y) ==> row_bit(
                        self.explored@[x],
                        y,
                    ),
            ensures
                explored_down_closed(*self),
                explored_side_closed(*self),
            decreases unset10(self.explored@),
        {
            proof {
                lemma_unset_nonneg(self.explored@, 10);
            }
            let ghost snap: Seq<u64> = self.explored@;
            let mut changed = false;
            let mut x: usize = 0;
            while x < 10
                invariant
                    0 <= x <= 10,
                    valid_down_closed(*self),
                    valid_side_closed(*self),
                    explored_valid(*self),
                    self.obstructed == old(self).obstructed,
                    self.all_valid == old(self).all_valid,
                    self.spin_loc == old(self).spin_loc,
                    snap.len() == 10,
                    forall|xx: int, y: int|
                        0 <= xx < 10 && #[trigger] row_bit(snap[xx], y) ==> row_bit(
                            self.explored@[xx],
                            y,
                        ),
                    forall|xx: int, y: int|
                        0 <= xx < 10 && #[trigger] row_bit(old(self).explored@[xx], y) ==> row_bit(
                            self.explored@[xx],
                            y,
                        ),
                    !changed ==> forall|xx: int| 0 <= xx < 10 ==> self.explored@[xx] == snap[xx],
                    !changed ==> forall|xx: int|
                        0 <= xx < x ==> col_down_closed(self.explored@, self.obstructed@, xx)
                            && col_side_closed(self.explored@, self.obstructed@, xx),
                    changed ==> exists|xx: int|
                        0 <= xx < 10 && self.explored@[xx] != snap[xx],
                decreases 10 - x,
            {
                // settle this column downward
                loop
                    invariant
                        0 <= x < 10,
                        valid_down_closed(*self),
                        valid_side_closed(*self),
                        explored_valid(*self),
                        self.obstructed == old(self).obstructed,
                        self.all_valid == old(self).all_valid,
                        self.spin_loc == old(self).spin_loc,
                        snap.len() == 10,
                        forall|xx: int, y: int|
                            0 <= xx < 10 && #[trigger] row_bit(snap[xx], y) ==> row_bit(
                                self.explored@[xx],
                                y,
                            ),
                        forall|xx: int, y: int|
                            0 <= xx < 10 && #[trigger] row_bit(old(self).explored@[xx], y)
                                ==> row_bit(self.explored@[xx], y),
                        !changed ==> forall|xx: int|
                            0 <= xx < 10 ==> self.explored@[xx] == snap[xx],
                        !changed ==> forall|xx: int|
                            0 <= xx < x ==> col_down_closed(self.explored@, self.obstructed@, xx)
                                && col_side_closed(self.explored@, self.obstructed@, xx),
                        changed ==> exists|xx: int|
                            0 <= xx < 10 && self.explored@[xx] != snap[xx],
                    ensures
                        col_down_closed(self.explored@, self.obstructed@, x as int),
                    decreases unset_one(self.explored@[x as int]),
                {
                    let cur = self.explored[x];
                    let grown = cur | (cur >> 1u64) & !self.obstructed[x];
                    proof {
                        lemma_bit_shr(cur, 1);
                        lemma_bit_not(self.obstructed@[x as int]);
                        lemma_bit_and(cur >> 1u64, !self.obstructed@[x as int]);
                        lemma_bit_or(cur, (cur >> 1u64) & !self.obstructed@[x as int]);
                    }
                    if grown == cur {
                        break ;
                    }
                    proof {
                        lemma_grow_strict(cur, grown);
                        lemma_pop_le_height(grown);
                        lemma_height_le_64(grown);
                        lemma_pop_le_height(cur);
                        lemma_height_le_64(cur);
                        if grown == snap[x as int] {
                            assert forall|y: int| row_bit(cur, y) == row_bit(grown, y) by {
                                if row_bit(grown, y) {
                                    assert(row_bit(snap[x as int], y));
                                }
                            }
                            crate::bits::lemma_bit_ext(cur, grown);
                        }
                        assert(grown != snap[x as int]);
                    }
                    changed = true;
                    self.explored.set(x, grown);
                }
                // take in the neighbours
                let left: u64 = if x > 0 {
                    self.explored[x - 1]
                } else {
                    0
                };
                let right: u64 = if x < 9 {
                    self.explored[x + 1]
                } else {
                    0
                };
                let cur = self.explored[x];
                let grown = cur | (left | right) & !self.obstructed[x];
                proof {
                    lemma_bit_const();
                    lemma_bit_or(left, right);
                    lemma_bit_not(self.obstructed@[x as int]);
                    lemma_bit_and(left | right, !self.obstructed@[x as int]);
                    lemma_bit_or(cur, (left | right) & !self.obstructed@[x as int]);
                }
                if grown != cur {
                    changed = true;
                    proof {
                        if grown == snap[x as int] {
                            assert forall|y: int| row_bit(cur, y) == row_bit(grown, y) by {
                                if row_bit(grown, y) {
                                    assert(row_bit(snap[x as int], y));
                                }
                            }
                            crate::bits::lemma_bit_ext(cur, grown);
                        }
                        assert(grown != snap[x as int]);
                    }
                } else {
                    proof {
                        assert(col_side_closed(
                            self.explored@.update(x as int, grown),
                            self.obstructed@,
                            x as int,
                        ));
                    }
                }
                let ghost pre: Seq<u64> = self.explored@;
                self.explored.set(x, grown);
                proof {
                    if !changed {
                        assert(grown == cur);
                        assert(self.explored@ =~= pre);
                        assert(col_down_closed(self.explored@, self.obstructed@, x as int));
                        assert(col_side_closed(self.explored@, self.obstructed@, x as int));
                    }
                }
                x = x + 1;
            }
            if !changed {
                proof {
                    assert forall|xa: int, y: int|
                        0 <= xa < 10 && 1 <= y && #[trigger] row_bit(self.explored@[xa], y)
                            && !row_bit(self.obstructed@[xa], y - 1) implies row_bit(
                        self.explored@[xa],
                        y - 1,
                    ) by {
                        assert(col_down_closed(self.explored@, self.obstructed@, xa));
                    }
                    assert forall|xa: int, x2: int, y: int|
                        0 <= xa < 10 && 0 <= x2 < 10 && (x2 == xa - 1 || x2 == xa + 1)
                            && #[trigger] row_bit(self.explored@[x2], y) && !(#[trigger] row_bit(
                            self.obstructed@[xa],
                            y,
                        )) implies row_bit(self.explored@[xa], y) by {
                        assert(col_side_closed(self.explored@, self.obstructed@, xa));
                    }
                }
                break ;
            }
            proof {
                lemma_unset_strict(snap, self.explored@);
                lemma_unset_nonneg(self.explored@, 10);
            }
        }
    }
}

/// Unfilled rows of one word.
pub open spec fn unset_one(c: u64) -> int {
    64 - pop64(c)
}

/// Unfilled rows of the first `k` words.
pub open spec fn unset_upto(a: Seq<u64>, k: int) -> int
    decreases k,
{
    if k <= 0 {
        0
    } else {
        unset_upto(a, k - 1) + unset_one(a[k - 1])
    }
}

/// Unfilled rows of all ten words.
pub open spec fn unset10(a: Seq<u64>) -> int {
    unset_upto(a, 10)
}

/// Unset counts are non-negative.
pub proof fn lemma_unset_nonneg(a: Seq<u64>, k: int)
    requires
        k <= a.len(),
    ensures
        0 <= unset_upto(a, k),
        forall|j: int| 0 <= j < k ==> 0 <= unset_one(#[trigger] a[j]) <= 64,
    decreases k,
{
    if k > 0 {
        lemma_unset_nonneg(a, k - 1);
        lemma_pop_le_height(a[k - 1]);
        lemma_height_le_64(a[k - 1]);
    }
}

/// A word that gains rows loses unset rows.
pub proof fn lemma_grow_strict(a: u64, g: u64)
    requires
        forall|y: int| row_bit(a, y) ==> row_bit(g, y),
        a != g,
    ensures
        unset_one(g) < unset_one(a),
{
    lemma_pop_sub(a, g);
}

/// Words that gain rows, one of them strictly, lose unset rows in sum.
pub proof fn lemma_unset_strict(a: Seq<u64>, b: Seq<u64>)
    requires
        a.len() == 10,
        b.len() == 10,
        forall|x: int, y: int| 0 <= x < 10 && #[trigger] row_bit(a[x], y) ==> row_bit(b[x], y),
        exists|x: int| 0 <= x < 10 && a[x] != b[x],
    ensures
        unset10(b) < unset10(a),
{
    let xw = choose|x: int| 0 <= x < 10 && a[x] != b[x];
    lemma_unset_step(a, b, 10, xw);
}

proof fn lemma_unset_step(a: Seq<u64>, b: Seq<u64>, k: int, xw: int)
    requires
        a.len() == 10,
        b.len() == 10,
        0 <= k <= 10,
        0 <= xw < 10,
        a[xw] != b[xw],
        forall|x: int, y: int| 0 <= x < 10 && #[trigger] row_bit(a[x], y) ==> row_bit(b[x], y),
    ensures
        unset_upto(b, k) <= unset_upto(a, k),
        xw < k ==> unset_upto(b, k) < unset_upto(a, k),
    decreases k,
{
    if k > 0 {
        lemma_unset_step(a, b, k - 1, xw);
        lemma_pop_sub(a[k - 1], b[k - 1]);
    }
}

/// The rotation state of collision-map index `i`.
fn rotation_of(i: usize) -> (r: Rotation)
    requires
        i < 4,
    ensures
        r == rot_of(i as int),
{
    if i == 0 {
        Rotation::Up
    } else if i == 1 {
        Rotation::Right
    } else if i == 2 {
        Rotation::Down
    } else {
        Rotation::Left
    }
}

/// Compare two ten-column bitboards.
fn eq10(a: &[u64; 10], b: &[u64; 10]) -> (r: bool)
    ensures
        r == (a@ == b@),
{
    let mut x: usize = 0;
    let mut same = true;
    while x < 10
        invariant
            0 <= x <= 10,
            same ==> forall|k: int| 0 <= k < x ==> a@[k] == b@[k],
            !same ==> a@ != b@,
        decreases 10 - x,
    {
        if a[x] != b[x] {
            same = false;
            proof {
                assert(a@[x as int] != b@[x as int]);
            }
        }
        x = x + 1;
    }
    proof {
        if same {
            assert(a@ =~= b@);
        }
    }
    same
}

/// Try the six kicks of `(piece, from, to)` in order, adding every
/// position of `src` that a kick carries onto a valid position of the
/// target map to its explored and kick-entered boards. A position
/// claimed by an earlier kick is withheld from the later ones.
fn kick_into(m2: &mut CollisionMap, src: &[u64; 10], piece: Piece, from: Rotation, to: Rotation)
    requires
        from != to,
        explored_valid(*old(m2)),
        spin_valid(*old(m2)),
    ensures
        final (m2).obstructed == old(m2).obstructed,
        final (m2).all_valid == old(m2).all_valid,
        explored_valid(*final (m2)),
        spin_valid(*final (m2)),
        forall|x: int, y: int|
            0 <= x < 10 && #[trigger] row_bit(old(m2).explored@[x], y) ==> row_bit(
                final (m2).explored@[x],
                y,
            ),
        forall|x: int, y: int|
            0 <= x < 10 && #[trigger] row_bit(old(m2).spin_loc@[x], y) ==> row_bit(
                final (m2).spin_loc@[x],
                y,
            ),
{
    let ks = kicks(piece, from, to);
    let mut p1f: [u64; 10] = *src;
    let mut k: usize = 0;
    while k < 6
        invariant
            0 <= k <= 6,
            forall|j: int| 0 <= j < 6 ==> -2 <= (#[trigger] ks@[j]).0 <= 2 && -2 <= ks@[j].1 <= 2,
            m2.obstructed == old(m2).obstructed,
            m2.all_valid == old(m2).all_valid,
            explored_valid(*m2),
            spin_valid(*m2),
            forall|x: int, y: int|
                0 <= x < 10 && #[trigger] row_bit(old(m2).explored@[x], y) ==> row_bit(
                    m2.explored@[x],
                    y,
                ),
            forall|x: int, y: int|
                0 <= x < 10 && #[trigger] row_bit(old(m2).spin_loc@[x], y) ==> row_bit(
                    m2.spin_loc@[x],
                    y,
                ),
        decreases 6 - k,
    {
        let (kx, ky) = ks[k];
        let mut mask: [u64; 10] = m2.all_valid;
        let mut x: usize = 0;
        while x < 10
            invariant
                0 <= x <= 10,
                -2 <= kx <= 2,
                -2 <= ky <= 2,
                m2.obstructed == old(m2).obstructed,
                m2.all_valid == old(m2).all_valid,
                explored_valid(*m2),
                spin_valid(*m2),
                forall|xx: int, y: int|
                    0 <= xx < 10 && #[trigger] row_bit(mask@[xx], y) ==> row_bit(
                        m2.all_valid@[xx],
                        y,
                    ),
                forall|xx: int, y: int|
                    0 <= xx < 10 && #[trigger] row_bit(old(m2).explored@[xx], y) ==> row_bit(
                        m2.explored@[xx],
                        y,
                    ),
                forall|xx: int, y: int|
                    0 <= xx < 10 && #[trigger] row_bit(old(m2).spin_loc@[xx], y) ==> row_bit(
                        m2.spin_loc@[xx],
                        y,
                    ),
            decreases 10 - x,
        {
            let sx = x as i32 - kx as i32;
            let c: u64 = if 0 <= sx && sx < 10 {
                p1f[sx as usize]
            } else {
                0
            };
            let cs: u64 = if ky < 0 {
                c >> ((-ky) as u64)
            } else {
                c << (ky as u64)
            };
            let masked = mask[x] & cs;
            let e2 = m2.explored[x] | masked;
            let s2 = m2.spin_loc[x] | masked;
            proof {
                lemma_bit_and(mask@[x as int], cs);
                lemma_bit_or(m2.explored@[x as int], masked);
                lemma_bit_or(m2.spin_loc@[x as int], masked);
            }
            mask.set(x, masked);
            m2.explored.set(x, e2);
            m2.spin_loc.set(x, s2);
            x = x + 1;
        }
        let mut x: usize = 0;
        while x < 10
            invariant
                0 <= x <= 10,
                -2 <= kx <= 2,
                -2 <= ky <= 2,
            decreases 10 - x,
        {
            let tx = x as i32 + kx as i32;
            let c: u64 = if 0 <= tx && tx < 10 {
                mask[tx as usize]
            } else {
                0
            };
            let cs: u64 = if ky < 0 {
                c << ((-ky) as u64)
            } else {
                c >> (ky as u64)
            };
            p1f.set(x, p1f[x] & !cs);
            x = x + 1;
        }
        k = k + 1;
    }
}

/// One round of kicking into rotation state `i2` from the other three
/// rotation states, followed by a floodfill. Marks `i2` completed
/// when its explored set is already everything valid, or did not grow.
fn kick_step(
    maps: &mut [CollisionMap; 4],
    completed: &mut [bool; 4],
    piece: Piece,
    i2: usize,
)
    requires
        i2 < 4,
        piece != Piece::O,
        forall|i: int| 0 <= i < 4 ==> valid_down_closed(#[trigger] old(maps)@[i])
            && valid_side_closed(old(maps)@[i]) && explored_valid(old(maps)@[i]) && spin_valid(
            old(maps)@[i],
        ),
    ensures
        forall|i: int| 0 <= i < 4 && i != i2 ==> #[trigger] final (maps)@[i] == old(maps)@[i],
        forall|i: int| 0 <= i < 4 && i != i2 ==> #[trigger] final (completed)@[i] == old(
            completed,
        )@[i],
        final (maps)@[i2 as int].obstructed == old(maps)@[i2 as int].obstructed,
        final (maps)@[i2 as int].all_valid == old(maps)@[i2 as int].all_valid,
        valid_down_closed(final (maps)@[i2 as int]),
        valid_side_closed(final (maps)@[i2 as int]),
        explored_valid(final (maps)@[i2 as int]),
        spin_valid(final (maps)@[i2 as int]),
        forall|x: int, y: int|
            0 <= x < 10 && #[trigger] row_bit(old(maps)@[i2 as int].explored@[x], y) ==> row_bit(
                final (maps)@[i2 as int].explored@[x],
                y,
            ),
        forall|x: int, y: int|
            0 <= x < 10 && #[trigger] row_bit(old(maps)@[i2 as int].spin_loc@[x], y) ==> row_bit(
                final (maps)@[i2 as int].spin_loc@[x],
                y,
            ),
        final (completed)@[i2 as int] || exists|x: int|
            0 <= x < 10 && final (maps)@[i2 as int].explored@[x] != old(
                maps,
            )@[i2 as int].explored@[x],
        old(completed)@[i2 as int] ==> final (completed)@[i2 as int],
        explored_down_closed(final (maps)@[i2 as int]),
        explored_side_closed(final (maps)@[i2 as int]),
{
    let last: [u64; 10] = maps[i2].explored;
    let av: [u64; 10] = maps[i2].all_valid;
    if eq10(&last, &av) {
        completed.set(i2, true);
        proof {
            let m = maps@[i2 as int];
            assert forall|x: int, y: int|
                0 <= x < 10 && 1 <= y && #[trigger] row_bit(m.explored@[x], y) && !row_bit(
                    m.obstructed@[x],
                    y - 1,
                ) implies row_bit(m.explored@[x], y - 1) by {
                assert(row_bit(m.all_valid@[x], y));
            }
            assert forall|x: int, x2: int, y: int|
                0 <= x < 10 && 0 <= x2 < 10 && (x2 == x - 1 || x2 == x + 1) && #[trigger] row_bit(
                    m.explored@[x2],
                    y,
                ) && !(#[trigger] row_bit(m.obstructed@[x], y)) implies row_bit(
                m.explored@[x],
                y,
            ) by {
                assert(row_bit(m.all_valid@[x2], y));
            }
        }
        return ;
    }
    let mut m2: CollisionMap = maps[i2];
    let to = rotation_of(i2);
    let mut i1: usize = 0;
    while i1 < 4
        invariant
            0 <= i1 <= 4,
            i2 < 4,
            piece != Piece::O,
            to == rot_of(i2 as int),
            *maps == *old(maps),
            *completed == *old(completed),
            m2.obstructed == old(maps)@[i2 as int].obstructed,
            m2.all_valid == old(maps)@[i2 as int].all_valid,
            explored_valid(m2),
            spin_valid(m2),
            forall|x: int, y: int|
                0 <= x < 10 && #[trigger] row_bit(old(maps)@[i2 as int].explored@[x], y)
                    ==> row_bit(m2.explored@[x], y),
            forall|x: int, y: int|
                0 <= x < 10 && #[trigger] row_bit(old(maps)@[i2 as int].spin_loc@[x], y)
                    ==> row_bit(m2.spin_loc@[x], y),
        decreases 4 - i1,
    {
        if i1 != i2 {
            let from = rotation_of(i1);
            proof {
                assert(rot_of(i1 as int) != rot_of(i2 as int));
            }
            let src: [u64; 10] = maps[i1].explored;
            kick_into(&mut m2, &src, piece, from, to);
        }
        i1 = i1 + 1;
    }
    proof {
        assert(valid_down_closed(m2)) by {
            assert(valid_down_closed(old(maps)@[i2 as int]));
        }
        assert(valid_side_closed(m2)) by {
            assert(valid_side_closed(old(maps)@[i2 as int]));
        }
    }
    m2.floodfill();
    if eq10(&m2.explored, &last) {
        completed.set(i2, true);
    } else {
        proof {
            if forall|x: int| 0 <= x < 10 ==> m2.explored@[x] == last@[x] {
                assert(m2.explored@ =~= last@);
                assert(false);
            }
            assert(exists|x: int| 0 <= x < 10 && m2.explored@[x] != last@[x]);
        }
    }
    maps.set(i2, m2);
}

/// The blocks of an S or Z piece in the Down rotation, centered one
/// row higher, are the blocks of the Up rotation.
proof fn lemma_fold_sz_down(b: Board, p: Piece, x: int, y: int)
    requires
        p == Piece::S || p == Piece::Z,
    ensures
        pos_free(b, p, Rotation::Down, x, y + 1) == pos_free(b, p, Rotation::Up, x, y),
        blocked_at(b, p, Rotation::Down, x, y + 1) == blocked_at(b, p, Rotation::Up, x, y),
{
    lemma_fold_generic(b, p, Rotation::Down, x, y + 1, Rotation::Up, x, y);
}

/// The blocks of an S or Z piece in the Left rotation, centered one
/// column to the right, are the blocks of the Right rotation.
proof fn lemma_fold_sz_left(b: Board, p: Piece, x: int, y: int)
    requires
        p == Piece::S || p == Piece::Z,
    ensures
        pos_free(b, p, Rotation::Left, x + 1, y) == pos_free(b, p, Rotation::Right, x, y),
        blocked_at(b, p, Rotation::Left, x + 1, y) == blocked_at(b, p, Rotation::Right, x, y),
{
    lemma_fold_generic(b, p, Rotation::Left, x + 1, y, Rotation::Right, x, y);
}

/// The blocks of an I piece in the Down rotation, centered one column
/// to the right, are the blocks of the Up rotation.
proof fn lemma_fold_i_down(b: Board, x: int, y: int)
    ensures
        pos_free(b, Piece::I, Rotation::Down, x + 1, y) == pos_free(b, Piece::I, Rotation::Up, x, y),
        blocked_at(b, Piece::I, Rotation::Down, x + 1, y) == blocked_at(
            b,
            Piece::I,
            Rotation::Up,
            x,
            y,
        ),
{
    lemma_fold_generic(b, Piece::I, Rotation::Down, x + 1, y, Rotation::Up, x, y);
}

/// The blocks of an I piece in the Left rotation, centered one row
/// lower, are the blocks of the Right rotation.
proof fn lemma_fold_i_left(b: Board, x: int, y: int)
    ensures
        pos_free(b, Piece::I, Rotation::Left, x, y - 1) == pos_free(
            b,
            Piece::I,
            Rotation::Right,
            x,
            y,
        ),
        blocked_at(b, Piece::I, Rotation::Left, x, y - 1) == blocked_at(
            b,
            Piece::I,
            Rotation::Right,
            x,
            y,
        ),
{
    lemma_fold_generic(b, Piece::I, Rotation::Left, x, y - 1, Rotation::Right, x, y);
}

/// Two centered rotation states whose block sets coincide cell for
/// cell, in reverse block order, admit the same placements.
proof fn lemma_fold_generic(
    b: Board,
    p: Piece,
    r1: Rotation,
    x1: int,
    y1: int,
    r2: Rotation,
    x2: int,
    y2: int,
)
    requires
        forall|i: int|
            0 <= i < 4 ==> (x1 + (#[trigger] cell_of(p, r1, i)).0, y1 + cell_of(p, r1, i).1) == (
                x2 + cell_of(p, r2, 3 - i).0,
                y2 + cell_of(p, r2, 3 - i).1,
            ),
    ensures
        pos_free(b, p, r1, x1, y1) == pos_free(b, p, r2, x2, y2),
        blocked_at(b, p, r1, x1, y1) == blocked_at(b, p, r2, x2, y2),
{
    if pos_free(b, p, r1, x1, y1) {
        assert forall|i: int| 0 <= i < 4 implies {
            let c = #[trigger] cell_of(p, r2, i);
            cell_free(b, x2 + c.0, y2 + c.1)
        } by {
            assert(cell_free(b, x1 + cell_of(p, r1, 3 - i).0, y1 + cell_of(p, r1, 3 - i).1));
        }
    }
    if pos_free(b, p, r2, x2, y2) {
        assert forall|i: int| 0 <= i < 4 implies {
            let c = #[trigger] cell_of(p, r1, i);
            cell_free(b, x1 + c.0, y1 + c.1)
        } by {
            assert(cell_free(b, x2 + cell_of(p, r2, 3 - i).0, y2 + cell_of(p, r2, 3 - i).1));
        }
    }
    if blocked_at(b, p, r1, x1, y1) {
        let i = choose|i: int| 0 <= i < 4 && block_hits(b, p, r1, x1, y1, i);
        assert(block_hits(b, p, r2, x2, y2, 3 - i));
    }
    if blocked_at(b, p, r2, x2, y2) {
        let i = choose|i: int| 0 <= i < 4 && block_hits(b, p, r2, x2, y2, i);
        assert(block_hits(b, p, r1, x1, y1, 3 - i));
    }
}

/// A position whose blocks are all free has its center on the
/// playfield: the center is itself one of the blocks.
proof fn lemma_pos_free_center(b: Board, p: Piece, r: Rotation, x: int, y: int)
    requires
        pos_free(b, p, r, x, y),
    ensures
        0 <= x < 10,
        0 <= y < 40,
{
    match r {
        Rotation::Up => assert(rotate_cell(r, (0int, 0int)) == (0int, 0int)),
        Rotation::Right => assert(rotate_cell(r, (0int, 0int)) == (0int, 0int)),
        Rotation::Down => assert(rotate_cell(r, (0int, 0int)) == (0int, 0int)),
        Rotation::Left => assert(rotate_cell(r, (0int, 0int)) == (0int, 0int)),
    }
    let i: int = if p == Piece::Z {
        2
    } else if p == Piece::O {
        0
    } else {
        1
    };
    match p {
        Piece::I => assert(piece_cell(p, i) == (0int, 0int)),
        Piece::O => assert(piece_cell(p, i) == (0int, 0int)),
        Piece::T => assert(piece_cell(p, i) == (0int, 0int)),
        Piece::L => assert(piece_cell(p, i) == (0int, 0int)),
        Piece::J => assert(piece_cell(p, i) == (0int, 0int)),
        Piece::S => assert(piece_cell(p, i) == (0int, 0int)),
        Piece::Z => assert(piece_cell(p, i) == (0int, 0int)),
    }
    assert(cell_of(p, r, i) == (0int, 0int));
    assert(cell_free(b, x + cell_of(p, r, i).0, y + cell_of(p, r, i).1));
}

/// A final resting position: all blocks free, and the position just
/// below blocked (the floor counts as blocked).
pub open spec fn emit_ok(b: Board, p: Piece, r: Rotation, x: int, y: int) -> bool {
    pos_free(b, p, r, x, y) && (y == 0 || blocked_at(b, p, r, x, y - 1))
}

/// Every explored position of the map is a final resting position.
pub open spec fn exp_emit_ok(b: Board, p: Piece, r: Rotation, m: CollisionMap) -> bool {
    forall|x: int, y: int|
        0 <= x < 10 && #[trigger] row_bit(m.explored@[x], y) ==> emit_ok(b, p, r, x, y)
}

/// Every set row of the spin word passes the spin geometry test.
pub open spec fn spinw_ok(b: Board, p: Piece, r: Rotation, w: [u64; 10]) -> bool {
    forall|x: int, y: int|
        0 <= x < 10 && 0 <= y < 40 && #[trigger] row_bit(w@[x], y) ==> spin_geometry(b, p, r, x, y)
}

/// Keep only the explored (and kick-entered) positions that rest on
/// the floor or on an obstruction one row below.
fn finalize_map(m: &mut CollisionMap, board: &Board, piece: Piece, rot: Rotation)
    requires
        map_ok(*board, piece, rot, *old(m)),
        max_height(*board) <= 35,
    ensures
        final (m).obstructed == old(m).obstructed,
        final (m).all_valid == old(m).all_valid,
        exp_emit_ok(*board, piece, rot, *final (m)),
        forall|x: int, y: int|
            0 <= x < 10 && #[trigger] row_bit(final (m).spin_loc@[x], y) ==> row_bit(
                old(m).spin_loc@[x],
                y,
            ),
        forall|x: int, y: int|
            0 <= x < 10 && #[trigger] row_bit(old(m).explored@[x], y) && (y == 0 || row_bit(
                old(m).obstructed@[x],
                y - 1,
            )) ==> row_bit(final (m).explored@[x], y),
{
    let mut x: usize = 0;
    while x < 10
        invariant
            0 <= x <= 10,
            map_ok(*board, piece, rot, *old(m)),
            max_height(*board) <= 35,
            m.obstructed == old(m).obstructed,
            m.all_valid == old(m).all_valid,
            forall|xx: int, y: int|
                0 <= xx < x && #[trigger] row_bit(m.explored@[xx], y) ==> emit_ok(
                    *board,
                    piece,
                    rot,
                    xx,
                    y,
                ),
            forall|xx: int, y: int|
                0 <= xx < x && #[trigger] row_bit(old(m).explored@[xx], y) && (y == 0 || row_bit(
                    old(m).obstructed@[xx],
                    y - 1,
                )) ==> row_bit(m.explored@[xx], y),
            forall|xx: int, y: int|
                x <= xx < 10 ==> #[trigger] row_bit(m.explored@[xx], y) == row_bit(
                    old(m).explored@[xx],
                    y,
                ),
            forall|xx: int, y: int|
                0 <= xx < 10 && #[trigger] row_bit(m.spin_loc@[xx], y) ==> row_bit(
                    old(m).spin_loc@[xx],
                    y,
                ),
        decreases 10 - x,
    {
        let ob = m.obstructed[x];
        let keep = ob << 1u64 | 1;
        let enew = m.explored[x] & keep;
        let snew = m.spin_loc[x] & keep;
        proof {
            lemma_bit_shl(ob, 1);
            lemma_bit_one();
            lemma_bit_or(ob << 1u64, 1u64);
            lemma_bit_and(m.explored@[x as int], keep);
            lemma_bit_and(m.spin_loc@[x as int], keep);
            assert forall|y: int|
                #[trigger] row_bit(m.explored@[x as int], y) && (y == 0 || row_bit(
                    ob,
                    y - 1,
                )) implies row_bit(enew, y) by {
                assert(row_bit(keep, y));
            }
            assert forall|y: int| #[trigger] row_bit(enew, y) implies emit_ok(
                *board,
                piece,
                rot,
                x as int,
                y,
            ) by {
                assert(row_bit(old(m).explored@[x as int], y));
                assert(row_bit(m.all_valid@[x as int], y));
                assert(y <= max_height(*board) + 2);
                assert(!row_bit(m.obstructed@[x as int], y));
                lemma_unblocked_free(*board, piece, rot, x as int, y);
                if y != 0 {
                    assert(row_bit(keep, y));
                    assert(row_bit(ob, y - 1));
                    assert(blocked_at(*board, piece, rot, x as int, y - 1));
                }
            }
        }
        m.explored.set(x, enew);
        m.spin_loc.set(x, snew);
        x = x + 1;
    }
}

/// The spin word of a T piece in one rotation state: the three-corner
/// test per column, restricted to kick-entered positions.
fn t_spin_word(board: &Board, m: &CollisionMap) -> (w: [u64; 10])
    requires
        max_height(*board) <= 35,
    ensures
        forall|x: int, y: int|
            0 <= x < 10 && 0 <= y < 40 && #[trigger] row_bit(w@[x], y) ==> t_spin_geometry(
                *board,
                x,
                y,
            ),
        forall|x: int, y: int|
            0 <= x < 10 && #[trigger] row_bit(w@[x], y) ==> row_bit(m.spin_loc@[x], y),
{
    proof {
        assert(1u64 << 40 != 0u64) by (bit_vector);
    }
    let full_height: u64 = (1u64 << 40) - 1;
    proof {
        assert(full_height == low_mask(40));
    }
    let mut w: [u64; 10] = [0, 0, 0, 0, 0, 0, 0, 0, 0, 0];
    proof {
        lemma_bit_const();
    }
    let mut x: usize = 0;
    while x < 10
        invariant
            0 <= x <= 10,
            full_height == low_mask(40),
            forall|xx: int, y: int|
                0 <= xx < x && 0 <= y < 40 && #[trigger] row_bit(w@[xx], y) ==> t_spin_geometry(
                    *board,
                    xx,
                    y,
                ),
            forall|xx: int, y: int|
                0 <= xx < x && #[trigger] row_bit(w@[xx], y) ==> row_bit(m.spin_loc@[xx], y),
            forall|xx: int, y: int| x <= xx < 10 ==> !(#[trigger] row_bit(w@[xx], y)),
        decreases 10 - x,
    {
        let left: u64 = if x > 0 {
            board.cols[x - 1].0
        } else {
            full_height
        };
        let right: u64 = if x < 9 {
            board.cols[x + 1].0
        } else {
            full_height
        };
        let c1 = left << 1u64 | 1;
        let c2 = right << 1u64 | 1;
        let c3 = right >> 1u64;
        let c4 = left >> 1u64;
        let s = (c1 & c2 & (c3 | c4)) | (c3 & c4 & (c1 | c2));
        let wx = s & m.spin_loc[x];
        proof {
            lemma_bit_low_mask(40);
            lemma_bit_shl(left, 1);
            lemma_bit_shl(right, 1);
            lemma_bit_one();
            lemma_bit_or(left << 1u64, 1u64);
            lemma_bit_or(right << 1u64, 1u64);
            lemma_bit_shr(right, 1);
            lemma_bit_shr(left, 1);
            lemma_bit_or(c3, c4);
            lemma_bit_and(c1, c2);
            lemma_bit_and(c1 & c2, c3 | c4);
            lemma_bit_or(c1, c2);
            lemma_bit_and(c3, c4);
            lemma_bit_and(c3 & c4, c1 | c2);
            lemma_bit_or(c1 & c2 & (c3 | c4), c3 & c4 & (c1 | c2));
            lemma_bit_and(s, m.spin_loc@[x as int]);
            assert forall|y: int| 0 <= y < 40 && #[trigger] row_bit(wx, y) implies t_spin_geometry(
                *board,
                x as int,
                y,
            ) by {
                assert(row_bit(c1, y) == corner_blocked(*board, x as int - 1, y - 1));
                assert(row_bit(c2, y) == corner_blocked(*board, x as int + 1, y - 1));
                assert(row_bit(c3, y) == corner_blocked(*board, x as int + 1, y + 1));
                assert(row_bit(c4, y) == corner_blocked(*board, x as int - 1, y + 1));
            }
        }
        w.set(x, wx);
        x = x + 1;
    }
    w
}

/// The spin word of a piece other than T in one rotation state: both
/// side positions and the position above obstructed, restricted to
/// kick-entered positions.
fn immobile_spin_word(board: &Board, m: &CollisionMap, piece: Piece, rot: Rotation) -> (w: [
    u64;
    10
])
    requires
        inv_obstructed(*board, piece, rot, *m),
    ensures
        forall|x: int, y: int|
            0 <= x < 10 && 0 <= y < 40 && #[trigger] row_bit(w@[x], y)
                ==> immobile_spin_geometry(*board, piece, rot, x, y),
        forall|x: int, y: int|
            0 <= x < 10 && #[trigger] row_bit(w@[x], y) ==> row_bit(m.spin_loc@[x], y),
{
    proof {
        assert(1u64 << 40 != 0u64) by (bit_vector);
    }
    let full_height: u64 = (1u64 << 40) - 1;
    proof {
        assert(full_height == low_mask(40));
    }
    let mut w: [u64; 10] = [0, 0, 0, 0, 0, 0, 0, 0, 0, 0];
    proof {
        lemma_bit_const();
    }
    let mut x: usize = 0;
    while x < 10
        invariant
            0 <= x <= 10,
            full_height == low_mask(40),
            inv_obstructed(*board, piece, rot, *m),
            forall|xx: int, y: int|
                0 <= xx < x && 0 <= y < 40 && #[trigger] row_bit(w@[xx], y)
                    ==> immobile_spin_geometry(*board, piece, rot, xx, y),
            forall|xx: int, y: int|
                0 <= xx < x && #[trigger] row_bit(w@[xx], y) ==> row_bit(m.spin_loc@[xx], y),
            forall|xx: int, y: int| x <= xx < 10 ==> !(#[trigger] row_bit(w@[xx], y)),
        decreases 10 - x,
    {
        let og_l: u64 = if x > 0 {
            m.obstructed[x - 1]
        } else {
            full_height
        };
        let og_r: u64 = if x < 9 {
            m.obstructed[x + 1]
        } else {
            full_height
        };
        let above = m.obstructed[x] >> 1u64;
        let wx = og_l & og_r & above & m.spin_loc[x];
        proof {
            lemma_bit_low_mask(40);
            lemma_bit_shr(m.obstructed@[x as int], 1);
            lemma_bit_and(og_l, og_r);
            lemma_bit_and(og_l & og_r, above);
            lemma_bit_and(og_l & og_r & above, m.spin_loc@[x as int]);
            assert forall|y: int| 0 <= y < 40 && #[trigger] row_bit(wx, y) implies
                immobile_spin_geometry(*board, piece, rot, x as int, y) by {
                assert(row_bit(og_l, y) == side_blocked(*board, piece, rot, x as int - 1, y));
                assert(row_bit(og_r, y) == side_blocked(*board, piece, rot, x as int + 1, y));
                assert(row_bit(above, y) == blocked_at(*board, piece, rot, x as int, y + 1));
            }
        }
        w.set(x, wx);
        x = x + 1;
    }
    w
}

/// Walk the set rows of one column of the explored board and push a
/// placement for each, with its spin and possible-line-clear flags.
fn emit_column(
    positions: &mut Vec<PieceLocation>,
    e0: u64,
    s0: u64,
    plc0: u64,
    piece: Piece,
    rot: Rotation,
    x: usize,
    Ghost(b): Ghost<Board>,
)
    requires
        x < 10,
        forall|y: int| #[trigger] row_bit(e0, y) ==> emit_ok(b, piece, rot, x as int, y),
        forall|y: int| 0 <= y < 40 && #[trigger] row_bit(s0, y) ==> spin_geometry(
            b,
            piece,
            rot,
            x as int,
            y,
        ),
        forall|y: int|
            0 <= y <= 39 && #[trigger] row_bit(e0, y) && !row_bit(plc0, y) ==> (!blocked_at(
                b,
                piece,
                rot,
                x as int - 1,
                y,
            ) || !blocked_at(b, piece, rot, x as int + 1, y)),
        piece == Piece::O ==> rot == Rotation::Up && s0 == 0,
        (piece == Piece::I || piece == Piece::S || piece == Piece::Z) ==> (rot == Rotation::Up
            || rot == Rotation::Right),
        forall|i: int| 0 <= i < old(positions)@.len() ==> movegen_valid(
            b,
            piece,
            #[trigger] old(positions)@[i],
        ),
    ensures
        forall|i: int| 0 <= i < final (positions)@.len() ==> movegen_valid(
            b,
            piece,
            #[trigger] final (positions)@[i],
        ),
        old(positions)@.len() <= final (positions)@.len(),
        forall|i: int|
            0 <= i < old(positions)@.len() ==> #[trigger] final (positions)@[i] == old(
                positions,
            )@[i],
        forall|j: int|
            0 <= j && #[trigger] row_bit(e0, j) ==> emitted_for(
                piece,
                final (positions)@,
                rot,
                x as int,
                j,
            ),
{
    let mut remaining: u64 = e0;
    let mut spin_remaining: u64 = s0;
    let mut plc: u64 = plc0;
    let mut y: i8 = 0;
    while remaining != 0
        invariant
            x < 10,
            0 <= y,
            forall|j: int| 0 <= j ==> #[trigger] row_bit(remaining, j) == row_bit(e0, j + y),
            forall|j: int| 0 <= j ==> #[trigger] row_bit(spin_remaining, j) == row_bit(s0, j + y),
            forall|j: int| 0 <= j ==> #[trigger] row_bit(plc, j) == row_bit(plc0, j + y),
            forall|j: int| #[trigger] row_bit(e0, j) ==> emit_ok(b, piece, rot, x as int, j),
            forall|j: int|
                0 <= j <= 39 && #[trigger] row_bit(e0, j) && !row_bit(plc0, j) ==> (!blocked_at(
                    b,
                    piece,
                    rot,
                    x as int - 1,
                    j,
                ) || !blocked_at(b, piece, rot, x as int + 1, j)),
            forall|j: int| 0 <= j < 40 && #[trigger] row_bit(s0, j) ==> spin_geometry(
                b,
                piece,
                rot,
                x as int,
                j,
            ),
            piece == Piece::O ==> rot == Rotation::Up && s0 == 0,
            (piece == Piece::I || piece == Piece::S || piece == Piece::Z) ==> (rot == Rotation::Up
                || rot == Rotation::Right),
            forall|i: int| 0 <= i < positions@.len() ==> movegen_valid(
                b,
                piece,
                #[trigger] positions@[i],
            ),
            old(positions)@.len() <= positions@.len(),
            forall|i: int|
                0 <= i < old(positions)@.len() ==> #[trigger] positions@[i] == old(positions)@[i],
            forall|j: int|
                0 <= j < y && #[trigger] row_bit(e0, j) ==> emitted_for(
                    piece,
                    positions@,
                    rot,
                    x as int,
                    j,
                ),
        decreases remaining,
    {
        proof {
            broadcast use vstd::std_specs::bits::axiom_u64_trailing_zeros;

            let t = vstd::std_specs::bits::u64_trailing_zeros(remaining);
            assert(t < 64);
            assert((remaining >> (t as u64)) & 1u64 == 1u64);
            assert(row_bit(remaining, t as int));
            assert(row_bit(e0, t + y));
            lemma_pos_free_center(b, piece, rot, x as int, t + y);
            assert(y < 40);
            lemma_bit_lsb(remaining);
            lemma_bit_lsb(spin_remaining);
            lemma_bit_lsb(plc);
        }
        if remaining & 1 == 1 {
            proof {
                assert(row_bit(e0, y as int));
                lemma_pos_free_center(b, piece, rot, x as int, y as int);
                if spin_remaining & 1 == 1 {
                    assert(row_bit(s0, y as int));
                }
                if piece == Piece::O {
                    lemma_bit_const();
                    assert(!row_bit(s0, y as int));
                }
            }
            let loc = PieceLocation {
                piece,
                rotation: rot,
                spun: spin_remaining & 1 == 1,
                possible_line_clear: plc & 1 == 1,
                x: x as i8,
                y,
            };
            let ghost before_push: Seq<PieceLocation> = positions@;
            proof {
                assert(loc_in_range(loc));
                assert forall|i: int| 0 <= i < 4 implies 0 <= (#[trigger] loc_cell(loc, i)).0 < 10
                    && 0 <= loc_cell(loc, i).1 < 40 && !occ(b, loc_cell(loc, i).0, loc_cell(
                    loc,
                    i,
                ).1) by {
                    assert(cell_free(
                        b,
                        loc.x + cell_of(piece, rot, i).0,
                        loc.y + cell_of(piece, rot, i).1,
                    ));
                }
                if !loc.possible_line_clear && no_full_row(b) {
                    assert(!row_bit(plc0, y as int));
                    assert(row_bit(e0, y as int));
                    if !blocked_at(b, piece, rot, x as int - 1, y as int) {
                        lemma_side_free_no_completion(b, loc, -1);
                    } else {
                        lemma_side_free_no_completion(b, loc, 1);
                    }
                    crate::board::lemma_placed_mask_empty(b, loc);
                }
                assert(movegen_valid(b, piece, loc));
            }
            positions.push(loc);
            proof {
                assert(positions@[before_push.len() as int] == loc);
                assert(emitted_for(piece, positions@, rot, x as int, y as int));
                assert forall|j: int|
                    0 <= j < y && #[trigger] row_bit(e0, j) implies emitted_for(
                    piece,
                    positions@,
                    rot,
                    x as int,
                    j,
                ) by {
                    let i = choose|i: int|
                        0 <= i < before_push.len() && (#[trigger] before_push[i]).piece == piece
                            && before_push[i].rotation == rot && before_push[i].x == x as int
                            && before_push[i].y == j;
                    assert(positions@[i] == before_push[i]);
                }
            }
        }
        proof {
            lemma_bit_shr(remaining, 1);
            lemma_bit_shr(spin_remaining, 1);
            lemma_bit_shr(plc, 1);
            assert(remaining >> 1u64 < remaining) by (bit_vector)
                requires
                    remaining != 0,
            ;
        }
        remaining = remaining >> 1u64;
        spin_remaining = spin_remaining >> 1u64;
        plc = plc >> 1u64;
        y = y + 1;
    }
    proof {
        lemma_bit_const();
        assert forall|j: int| 0 <= j && #[trigger] row_bit(e0, j) implies emitted_for(
            piece,
            positions@,
            rot,
            x as int,
            j,
        ) by {
            if j >= y {
                assert(row_bit(remaining, j - y) == row_bit(e0, j));
                assert(!row_bit(0u64, j - y));
            }
        }
    }
}

/// Words that gain rows lose unset rows in sum.
proof fn lemma_unset_mono(a: Seq<u64>, b: Seq<u64>, k: int)
    requires
        a.len() == 10,
        b.len() == 10,
        0 <= k <= 10,
        forall|x: int, y: int| 0 <= x < 10 && #[trigger] row_bit(a[x], y) ==> row_bit(b[x], y),
    ensures
        unset_upto(b, k) <= unset_upto(a, k),
    decreases k,
{
    if k > 0 {
        lemma_unset_mono(a, b, k - 1);
        lemma_pop_sub(a[k - 1], b[k - 1]);
    }
}

/// The rotation states the generator reports for a piece, after the
/// 180-degree symmetry folding: only Up for O; Up and Right for I, S
/// and Z; all four for T, L and J.
pub open spec fn kept_rotation(p: Piece, r: Rotation) -> bool {
    if p == Piece::O {
        r == Rotation::Up
    } else if p == Piece::I || p == Piece::S || p == Piece::Z {
        r == Rotation::Up || r == Rotation::Right
    } else {
        true
    }
}

/// A final resting position the piece can reach by translation
/// alone: some number of moves reaches the center, and the position
/// below is blocked (or it rests on the floor).
pub open spec fn reach_final(b: Board, p: Piece, r: Rotation, x: int, y: int) -> bool {
    &&& exists|n: nat| reach_n(b, p, r, x, y, n)
    &&& (y == 0 || blocked_at(b, p, r, x, y - 1))
}

/// Every translation-reachable final position of the rotation state
/// appears in the list.
pub open spec fn rotation_emitted(b: Board, p: Piece, r: Rotation, ps: Seq<PieceLocation>) -> bool {
    forall|x: int, y: int| #[trigger] reach_final(b, p, r, x, y) ==> emitted_for(p, ps, r, x, y)
}

/// A placement present in a list is present in any extension of it.
proof fn lemma_emitted_prefix(
    piece: Piece,
    ps1: Seq<PieceLocation>,
    ps2: Seq<PieceLocation>,
    r: Rotation,
    x: int,
    y: int,
)
    requires
        ps1.len() <= ps2.len(),
        forall|i: int| 0 <= i < ps1.len() ==> #[trigger] ps2[i] == ps1[i],
        emitted_for(piece, ps1, r, x, y),
    ensures
        emitted_for(piece, ps2, r, x, y),
{
    let i = choose|i: int|
        0 <= i < ps1.len() && (#[trigger] ps1[i]).piece == piece && ps1[i].rotation == r
            && ps1[i].x == x && ps1[i].y == y;
    assert(ps2[i] == ps1[i]);
}

/// Every reachable final resting position of `piece` on `board`, one
/// `PieceLocation` per position and rotation state kept after the
/// symmetry folding. The contract pins both directions as far as
/// translations carry: every returned placement is legal, final and
/// correctly flagged, and every final position reachable by sliding
/// alone appears in the result; kicked rotations only add placements
/// beyond that floor. The search window sits three rows over the
/// stack, so the stack may reach height 35 at most; the beam search
/// prunes far below that.
pub fn movegen_piece(board: &Board, piece: Piece) -> (r: Vec<PieceLocation>)
    requires
        max_height(*board) <= 35,
    ensures
        forall|i: int| 0 <= i < r@.len() ==> movegen_valid(*board, piece, #[trigger] r@[i]),
        forall|rt: Rotation|
            kept_rotation(piece, rt) ==> #[trigger] rotation_emitted(*board, piece, rt, r@),
{
    let mut maps: [CollisionMap; 4] = [
        CollisionMap::new(board, piece, Rotation::Up),
        CollisionMap::new(board, piece, Rotation::Right),
        CollisionMap::new(board, piece, Rotation::Down),
        CollisionMap::new(board, piece, Rotation::Left),
    ];
    proof {
        assert(map_ok(*board, piece, rot_of(0), maps@[0]));
        assert(map_ok(*board, piece, rot_of(1), maps@[1]));
        assert(map_ok(*board, piece, rot_of(2), maps@[2]));
        assert(map_ok(*board, piece, rot_of(3), maps@[3]));
    }
    let is_o = matches!(piece, Piece::O);
    if !is_o {
        let mut completed: [bool; 4] = [false, false, false, false];
        while !(completed[0] && completed[1] && completed[2] && completed[3])
            invariant
                piece != Piece::O,
                forall|i: int| 0 <= i < 4 ==> map_ok(*board, piece, rot_of(i), #[trigger] maps@[i]),
                forall|i: int| 0 <= i < 4 ==> spawn_covered(*board, #[trigger] maps@[i]),
                forall|i: int| 0 <= i < 4 ==> explored_down_closed(#[trigger] maps@[i])
                    && explored_side_closed(maps@[i]),
            decreases unset10(maps@[0].explored@) + unset10(maps@[1].explored@) + unset10(
                maps@[2].explored@,
            ) + unset10(maps@[3].explored@), (if completed@[0] {
                0int
            } else {
                1int
            }) + (if completed@[1] {
                0int
            } else {
                1int
            }) + (if completed@[2] {
                0int
            } else {
                1int
            }) + (if completed@[3] {
                0int
            } else {
                1int
            }),
        {
            let ghost ms: Seq<CollisionMap> = maps@;
            let ghost cs: Seq<bool> = completed@;
            kick_step(&mut maps, &mut completed, piece, 0);
            let ghost s1: Seq<CollisionMap> = maps@;
            let ghost c1: Seq<bool> = completed@;
            proof {
                lemma_map_ok_again(*board, piece, 0, ms, maps@);
            }
            kick_step(&mut maps, &mut completed, piece, 1);
            let ghost s2: Seq<CollisionMap> = maps@;
            let ghost c2: Seq<bool> = completed@;
            proof {
                lemma_map_ok_again(*board, piece, 1, s1, maps@);
            }
            kick_step(&mut maps, &mut completed, piece, 2);
            let ghost s3: Seq<CollisionMap> = maps@;
            let ghost c3: Seq<bool> = completed@;
            proof {
                lemma_map_ok_again(*board, piece, 2, s2, maps@);
            }
            kick_step(&mut maps, &mut completed, piece, 3);
            proof {
                lemma_map_ok_again(*board, piece, 3, s3, maps@);
                assert(maps@[0] == s1[0] && s1[0].explored == ms[0].explored
                    || maps@[0] == s1[0] && s1[0].explored != ms[0].explored);
                // each index settled at its own step and untouched after
                assert(maps@[0] == s1[0]);
                assert(maps@[1] == s2[1]);
                assert(maps@[2] == s3[2]);
                assert(s1[1] == ms[1] && s1[2] == ms[2] && s1[3] == ms[3]);
                assert(s2[2] == s1[2] && s2[3] == s1[3]);
                assert(s3[3] == s2[3]);
                assert(completed@[0] == c1[0] && completed@[1] == c2[1] && completed@[2] == c3[2]);
                let u0 = unset10(ms[0].explored@) + unset10(ms[1].explored@) + unset10(
                    ms[2].explored@,
                ) + unset10(ms[3].explored@);
                let u1 = unset10(maps@[0].explored@) + unset10(maps@[1].explored@) + unset10(
                    maps@[2].explored@,
                ) + unset10(maps@[3].explored@);
                lemma_unset_mono(ms[0].explored@, maps@[0].explored@, 10);
                lemma_unset_mono(ms[1].explored@, maps@[1].explored@, 10);
                lemma_unset_mono(ms[2].explored@, maps@[2].explored@, 10);
                lemma_unset_mono(ms[3].explored@, maps@[3].explored@, 10);
                lemma_unset_nonneg(ms[0].explored@, 10);
                lemma_unset_nonneg(ms[1].explored@, 10);
                lemma_unset_nonneg(ms[2].explored@, 10);
                lemma_unset_nonneg(ms[3].explored@, 10);
                lemma_unset_nonneg(maps@[0].explored@, 10);
                lemma_unset_nonneg(maps@[1].explored@, 10);
                lemma_unset_nonneg(maps@[2].explored@, 10);
                lemma_unset_nonneg(maps@[3].explored@, 10);
                if !(completed@[0] && completed@[1] && completed@[2] && completed@[3]) {
                    if !completed@[0] {
                        assert(exists|x: int| 0 <= x < 10 && maps@[0].explored@[x]
                            != ms[0].explored@[x]);
                        let xw = choose|x: int| 0 <= x < 10 && maps@[0].explored@[x]
                            != ms[0].explored@[x];
                        assert(ms[0].explored@[xw] != maps@[0].explored@[xw]);
                        lemma_unset_strict(ms[0].explored@, maps@[0].explored@);
                    } else if !completed@[1] {
                        assert(exists|x: int| 0 <= x < 10 && maps@[1].explored@[x]
                            != ms[1].explored@[x]);
                        let xw = choose|x: int| 0 <= x < 10 && maps@[1].explored@[x]
                            != ms[1].explored@[x];
                        assert(ms[1].explored@[xw] != maps@[1].explored@[xw]);
                        lemma_unset_strict(ms[1].explored@, maps@[1].explored@);
                    } else if !completed@[2] {
                        assert(exists|x: int| 0 <= x < 10 && maps@[2].explored@[x]
                            != ms[2].explored@[x]);
                        let xw = choose|x: int| 0 <= x < 10 && maps@[2].explored@[x]
                            != ms[2].explored@[x];
                        assert(ms[2].explored@[xw] != maps@[2].explored@[xw]);
                        lemma_unset_strict(ms[2].explored@, maps@[2].explored@);
                    } else {
                        assert(exists|x: int| 0 <= x < 10 && maps@[3].explored@[x]
                            != ms[3].explored@[x]);
                        let xw = choose|x: int| 0 <= x < 10 && maps@[3].explored@[x]
                            != ms[3].explored@[x];
                        assert(ms[3].explored@[xw] != maps@[3].explored@[xw]);
                        lemma_unset_strict(ms[3].explored@, maps@[3].explored@);
                    }
                    assert(u1 < u0);
                }
            }
        }
    }
    let ghost bsnap: Board = *board;
    let ghost premask: Seq<CollisionMap> = maps@;
    proof {
        if is_o {
            assert(forall|x: int| 0 <= x < 10 ==> #[trigger] maps@[0].spin_loc@[x] == 0);
        }
        assert(forall|i: int| 0 <= i < 4 ==> spawn_covered(*board, #[trigger] premask[i]));
        assert(forall|i: int|
            0 <= i < 4 ==> explored_down_closed(#[trigger] premask[i]) && explored_side_closed(
                premask[i],
            ));
        assert(forall|i: int|
            0 <= i < 4 ==> inv_obstructed(*board, piece, rot_of(i), #[trigger] premask[i]));
    }
    let mut m0 = maps[0];
    proof {
        assert(m0 == premask[0]);
    }
    finalize_map(&mut m0, board, piece, Rotation::Up);
    maps.set(0, m0);
    let mut m1 = maps[1];
    proof {
        assert(m1 == premask[1]);
    }
    finalize_map(&mut m1, board, piece, Rotation::Right);
    maps.set(1, m1);
    let mut m2 = maps[2];
    proof {
        assert(m2 == premask[2]);
    }
    finalize_map(&mut m2, board, piece, Rotation::Down);
    maps.set(2, m2);
    let mut m3 = maps[3];
    proof {
        assert(m3 == premask[3]);
    }
    finalize_map(&mut m3, board, piece, Rotation::Left);
    maps.set(3, m3);
    proof {
        lemma_bit_const();
        if is_o {
            assert forall|x: int, y: int|
                0 <= x < 10 implies !(#[trigger] row_bit(maps@[0].spin_loc@[x], y)) by {}
        }
        assert(forall|k: int| 0 <= k < 4 ==> #[trigger] maps@[k].obstructed == premask[k].obstructed);
        assert(forall|k: int, x: int, y: int|
            0 <= k < 4 && 0 <= x < 10 && #[trigger] row_bit(premask[k].explored@[x], y) && (y == 0
                || row_bit(premask[k].obstructed@[x], y - 1)) ==> row_bit(
                maps@[k].explored@[x],
                y,
            ));
    }
    let ghost kept0: Seq<CollisionMap> = maps@;
    if matches!(piece, Piece::S) || matches!(piece, Piece::Z) {
        let mut f0 = maps[0];
        let mut f1 = maps[1];
        let d2 = maps[2];
        let d3 = maps[3];
        let mut x: usize = 0;
        while x < 10
            invariant
                0 <= x <= 10,
                piece == Piece::S || piece == Piece::Z,
                exp_emit_ok(bsnap, piece, Rotation::Down, d2),
                exp_emit_ok(bsnap, piece, Rotation::Left, d3),
                f0.obstructed == maps@[0].obstructed,
                f1.obstructed == maps@[1].obstructed,
                forall|xx: int, y: int|
                    x <= xx < 10 ==> #[trigger] row_bit(f0.explored@[xx], y) == row_bit(
                        maps@[0].explored@[xx],
                        y,
                    ),
                forall|xx: int, y: int|
                    x <= xx < 10 ==> #[trigger] row_bit(f1.explored@[xx], y) == row_bit(
                        maps@[1].explored@[xx],
                        y,
                    ),
                forall|xx: int, y: int|
                    0 <= xx < 10 && #[trigger] row_bit(maps@[0].explored@[xx], y) ==> row_bit(
                        f0.explored@[xx],
                        y,
                    ),
                forall|xx: int, y: int|
                    0 <= xx < 10 && #[trigger] row_bit(maps@[1].explored@[xx], y) ==> row_bit(
                        f1.explored@[xx],
                        y,
                    ),
                exp_emit_ok(bsnap, piece, Rotation::Up, maps@[0]),
                exp_emit_ok(bsnap, piece, Rotation::Right, maps@[1]),
                forall|xx: int, y: int|
                    0 <= xx < x && #[trigger] row_bit(f0.explored@[xx], y) ==> emit_ok(
                        bsnap,
                        piece,
                        Rotation::Up,
                        xx,
                        y,
                    ),
                forall|xx: int, y: int|
                    0 <= xx < x && #[trigger] row_bit(f1.explored@[xx], y) ==> emit_ok(
                        bsnap,
                        piece,
                        Rotation::Right,
                        xx,
                        y,
                    ),
            decreases 10 - x,
        {
            let e0n = f0.explored[x] | (d2.explored[x] >> 1u64);
            let s0n = f0.spin_loc[x] | (d2.spin_loc[x] >> 1u64);
            let le: u64 = if x < 9 {
                d3.explored[x + 1]
            } else {
                0
            };
            let ls: u64 = if x < 9 {
                d3.spin_loc[x + 1]
            } else {
                0
            };
            let e1n = f1.explored[x] | le;
            let s1n = f1.spin_loc[x] | ls;
            proof {
                lemma_bit_shr(d2.explored@[x as int], 1);
                lemma_bit_or(f0.explored@[x as int], d2.explored@[x as int] >> 1u64);
                lemma_bit_or(f1.explored@[x as int], le);
                lemma_bit_const();
                assert forall|y: int| #[trigger] row_bit(e0n, y) implies emit_ok(
                    bsnap,
                    piece,
                    Rotation::Up,
                    x as int,
                    y,
                ) by {
                    if !row_bit(maps@[0].explored@[x as int], y) {
                        assert(row_bit(d2.explored@[x as int], y + 1));
                        assert(emit_ok(bsnap, piece, Rotation::Down, x as int, y + 1));
                        lemma_fold_sz_down(bsnap, piece, x as int, y);
                        lemma_pos_free_center(bsnap, piece, Rotation::Up, x as int, y);
                        if y != 0 {
                            lemma_fold_sz_down(bsnap, piece, x as int, y - 1);
                        }
                    }
                }
                assert forall|y: int| #[trigger] row_bit(e1n, y) implies emit_ok(
                    bsnap,
                    piece,
                    Rotation::Right,
                    x as int,
                    y,
                ) by {
                    if !row_bit(maps@[1].explored@[x as int], y) {
                        assert(x < 9 && row_bit(d3.explored@[x as int + 1], y));
                        assert(emit_ok(bsnap, piece, Rotation::Left, x as int + 1, y));
                        lemma_fold_sz_left(bsnap, piece, x as int, y);
                        if y != 0 {
                            lemma_fold_sz_left(bsnap, piece, x as int, y - 1);
                        }
                    }
                }
            }
            f0.explored.set(x, e0n);
            f0.spin_loc.set(x, s0n);
            f1.explored.set(x, e1n);
            f1.spin_loc.set(x, s1n);
            x = x + 1;
        }
        maps.set(0, f0);
        maps.set(1, f1);
    } else if matches!(piece, Piece::I) {
        let mut f0 = maps[0];
        let mut f1 = maps[1];
        let d2 = maps[2];
        let d3 = maps[3];
        let mut x: usize = 0;
        while x < 10
            invariant
                0 <= x <= 10,
                piece == Piece::I,
                exp_emit_ok(bsnap, piece, Rotation::Down, d2),
                exp_emit_ok(bsnap, piece, Rotation::Left, d3),
                f0.obstructed == maps@[0].obstructed,
                f1.obstructed == maps@[1].obstructed,
                forall|xx: int, y: int|
                    x <= xx < 10 ==> #[trigger] row_bit(f0.explored@[xx], y) == row_bit(
                        maps@[0].explored@[xx],
                        y,
                    ),
                forall|xx: int, y: int|
                    x <= xx < 10 ==> #[trigger] row_bit(f1.explored@[xx], y) == row_bit(
                        maps@[1].explored@[xx],
                        y,
                    ),
                forall|xx: int, y: int|
                    0 <= xx < 10 && #[trigger] row_bit(maps@[0].explored@[xx], y) ==> row_bit(
                        f0.explored@[xx],
                        y,
                    ),
                forall|xx: int, y: int|
                    0 <= xx < 10 && #[trigger] row_bit(maps@[1].explored@[xx], y) ==> row_bit(
                        f1.explored@[xx],
                        y,
                    ),
                exp_emit_ok(bsnap, piece, Rotation::Up, maps@[0]),
                exp_emit_ok(bsnap, piece, Rotation::Right, maps@[1]),
                forall|xx: int, y: int|
                    0 <= xx < x && #[trigger] row_bit(f0.explored@[xx], y) ==> emit_ok(
                        bsnap,
                        piece,
                        Rotation::Up,
                        xx,
                        y,
                    ),
                forall|xx: int, y: int|
                    0 <= xx < x && #[trigger] row_bit(f1.explored@[xx], y) ==> emit_ok(
                        bsnap,
                        piece,
                        Rotation::Right,
                        xx,
                        y,
                    ),
            decreases 10 - x,
        {
            let de: u64 = if x < 9 {
                d2.explored[x + 1]
            } else {
                0
            };
            let ds: u64 = if x < 9 {
                d2.spin_loc[x + 1]
            } else {
                0
            };
            let e0n = f0.explored[x] | de;
            let s0n = f0.spin_loc[x] | ds;
            let e1n = f1.explored[x] | (d3.explored[x] << 1u64);
            let s1n = f1.spin_loc[x] | (d3.spin_loc[x] << 1u64);
            proof {
                lemma_bit_shl(d3.explored@[x as int], 1);
                lemma_bit_or(f0.explored@[x as int], de);
                lemma_bit_or(f1.explored@[x as int], d3.explored@[x as int] << 1u64);
                lemma_bit_const();
                assert forall|y: int| #[trigger] row_bit(e0n, y) implies emit_ok(
                    bsnap,
                    piece,
                    Rotation::Up,
                    x as int,
                    y,
                ) by {
                    if !row_bit(maps@[0].explored@[x as int], y) {
                        assert(x < 9 && row_bit(d2.explored@[x as int + 1], y));
                        assert(emit_ok(bsnap, piece, Rotation::Down, x as int + 1, y));
                        lemma_fold_i_down(bsnap, x as int, y);
                        if y != 0 {
                            lemma_fold_i_down(bsnap, x as int, y - 1);
                        }
                    }
                }
                assert forall|y: int| #[trigger] row_bit(e1n, y) implies emit_ok(
                    bsnap,
                    piece,
                    Rotation::Right,
                    x as int,
                    y,
                ) by {
                    if !row_bit(maps@[1].explored@[x as int], y) {
                        assert(y >= 1 && row_bit(d3.explored@[x as int], y - 1));
                        assert(emit_ok(bsnap, piece, Rotation::Left, x as int, y - 1));
                        lemma_fold_i_left(bsnap, x as int, y);
                        if y >= 2 {
                            lemma_fold_i_left(bsnap, x as int, y - 1);
                        } else {
                            assert(y == 1);
                            assert(cell_of(Piece::I, Rotation::Left, 0) == (0int, -1int));
                            assert(cell_blocked(bsnap, x as int + 0, -1 + -1));
                            assert(block_hits(bsnap, Piece::I, Rotation::Left, x as int, -1, 0));
                            assert(blocked_at(bsnap, Piece::I, Rotation::Left, x as int, -1));
                            lemma_fold_i_left(bsnap, x as int, 0);
                            assert(blocked_at(bsnap, Piece::I, Rotation::Right, x as int, 0));
                        }
                    }
                }
            }
            f0.explored.set(x, e0n);
            f0.spin_loc.set(x, s0n);
            f1.explored.set(x, e1n);
            f1.spin_loc.set(x, s1n);
            x = x + 1;
        }
        maps.set(0, f0);
        maps.set(1, f1);
    }
    proof {
        assert(forall|k: int|
            0 <= k < 4 ==> #[trigger] maps@[k].obstructed == premask[k].obstructed);
        assert(forall|k: int, x: int, y: int|
            0 <= k < 4 && 0 <= x < 10 && #[trigger] row_bit(premask[k].explored@[x], y) && (y == 0
                || row_bit(premask[k].obstructed@[x], y - 1)) ==> row_bit(
                maps@[k].explored@[x],
                y,
            ));
    }
    let kept_n: usize = if matches!(piece, Piece::O) {
        1
    } else if matches!(piece, Piece::S) || matches!(piece, Piece::Z) || matches!(piece, Piece::I) {
        2
    } else {
        4
    };
    proof {
        assert(1u64 << 40 != 0u64) by (bit_vector);
    }
    let full_height: u64 = (1u64 << 40) - 1;
    proof {
        assert(full_height == low_mask(40));
    }
    let mut positions: Vec<PieceLocation> = Vec::new();
    let mut ki: usize = 0;
    while ki < kept_n
        invariant
            0 <= ki <= kept_n <= 4,
            full_height == low_mask(40),
            max_height(bsnap) <= 35,
            bsnap == *board,
            piece == Piece::O ==> kept_n == 1,
            (piece == Piece::I || piece == Piece::S || piece == Piece::Z) ==> kept_n == 2,
            !(piece == Piece::O || piece == Piece::I || piece == Piece::S || piece == Piece::Z)
                ==> kept_n == 4,
            premask.len() == 4,
            forall|k: int|
                0 <= k < kept_n ==> inv_obstructed(bsnap, piece, rot_of(k), #[trigger] premask[k])
                    && spawn_covered(bsnap, premask[k]) && explored_down_closed(premask[k])
                    && explored_side_closed(premask[k]),
            forall|k: int, x: int, y: int|
                0 <= k < kept_n && 0 <= x < 10 && #[trigger] row_bit(premask[k].explored@[x], y)
                    && (y == 0 || row_bit(premask[k].obstructed@[x], y - 1)) ==> row_bit(
                    maps@[k].explored@[x],
                    y,
                ),
            forall|k: int| 0 <= k < ki ==> #[trigger] rotation_emitted(
                bsnap,
                piece,
                rot_of(k),
                positions@,
            ),
            piece == Piece::O ==> forall|x: int, y: int|
                0 <= x < 10 ==> !(#[trigger] row_bit(maps@[0].spin_loc@[x], y)),
            forall|k: int| 0 <= k < kept_n ==> exp_emit_ok(
                bsnap,
                piece,
                rot_of(k),
                #[trigger] maps@[k],
            ),
            forall|k: int| 0 <= k < kept_n ==> inv_obstructed(
                bsnap,
                piece,
                rot_of(k),
                #[trigger] maps@[k],
            ),
            forall|i: int| 0 <= i < positions@.len() ==> movegen_valid(
                bsnap,
                piece,
                #[trigger] positions@[i],
            ),
        decreases kept_n - ki,
    {
        let rot = rotation_of(ki);
        let m = maps[ki];
        let w: [u64; 10] = if matches!(piece, Piece::T) {
            t_spin_word(board, &m)
        } else {
            immobile_spin_word(board, &m, piece, rot)
        };
        proof {
            if piece == Piece::O {
                assert forall|x: int| 0 <= x < 10 implies #[trigger] w@[x] == 0 by {
                    lemma_bit_const();
                    assert forall|y: int| row_bit(w@[x], y) == row_bit(0u64, y) by {
                        if row_bit(w@[x], y) {
                            assert(row_bit(m.spin_loc@[x], y));
                        }
                    }
                    crate::bits::lemma_bit_ext(w@[x], 0);
                }
            }
        }
        let mut x: usize = 0;
        while x < 10
            invariant
                0 <= x <= 10,
                ki < kept_n <= 4,
                max_height(bsnap) <= 35,
                bsnap == *board,
                m == maps@[ki as int],
                exp_emit_ok(bsnap, piece, rot_of(ki as int), m),
                inv_obstructed(bsnap, piece, rot_of(ki as int), m),
                full_height == low_mask(40),
                rot == rot_of(ki as int),
                piece == Piece::O ==> rot == Rotation::Up && forall|xx: int|
                    0 <= xx < 10 ==> #[trigger] w@[xx] == 0,
                (piece == Piece::I || piece == Piece::S || piece == Piece::Z) ==> (rot
                    == Rotation::Up || rot == Rotation::Right),
                forall|xx: int, y: int|
                    0 <= xx < 10 && 0 <= y < 40 && #[trigger] row_bit(w@[xx], y)
                        ==> spin_geometry(bsnap, piece, rot, xx, y),
                forall|i: int| 0 <= i < positions@.len() ==> movegen_valid(
                    bsnap,
                    piece,
                    #[trigger] positions@[i],
                ),
                premask.len() == 4,
                inv_obstructed(bsnap, piece, rot, premask[ki as int]),
                spawn_covered(bsnap, premask[ki as int]),
                explored_down_closed(premask[ki as int]),
                explored_side_closed(premask[ki as int]),
                forall|xx: int, y: int|
                    0 <= xx < 10 && #[trigger] row_bit(premask[ki as int].explored@[xx], y) && (y
                        == 0 || row_bit(premask[ki as int].obstructed@[xx], y - 1)) ==> row_bit(
                        m.explored@[xx],
                        y,
                    ),
                forall|k: int| 0 <= k < ki ==> #[trigger] rotation_emitted(
                    bsnap,
                    piece,
                    rot_of(k),
                    positions@,
                ),
                forall|xx: int, y: int|
                    0 <= xx < x && #[trigger] reach_final(bsnap, piece, rot, xx, y)
                        ==> emitted_for(piece, positions@, rot, xx, y),
            decreases 10 - x,
        {
            let e0 = m.explored[x];
            let s0 = w[x];
            let obs_l: u64 = if x > 0 {
                m.obstructed[x - 1]
            } else {
                full_height
            };
            let obs_r: u64 = if x < 9 {
                m.obstructed[x + 1]
            } else {
                full_height
            };
            let plc0 = e0 & obs_l & obs_r;
            proof {
                lemma_bit_low_mask(40);
                lemma_bit_and(e0, obs_l);
                lemma_bit_and(e0 & obs_l, obs_r);
                assert forall|j: int|
                    0 <= j <= 39 && #[trigger] row_bit(e0, j) && !row_bit(plc0, j) implies (
                !blocked_at(bsnap, piece, rot, x as int - 1, j) || !blocked_at(
                    bsnap,
                    piece,
                    rot,
                    x as int + 1,
                    j,
                )) by {
                    if row_bit(obs_l, j) && row_bit(obs_r, j) {
                        assert(row_bit(plc0, j));
                    }
                    if !row_bit(obs_l, j) {
                        assert(x > 0);
                        assert(!blocked_at(bsnap, piece, rot, x as int - 1, j));
                    } else {
                        assert(!row_bit(obs_r, j));
                        assert(x < 9);
                        assert(!blocked_at(bsnap, piece, rot, x as int + 1, j));
                    }
                }
            }
            let ghost pos_before: Seq<PieceLocation> = positions@;
            emit_column(&mut positions, e0, s0, plc0, piece, rot, x, Ghost(bsnap));
            proof {
                assert forall|k: int| 0 <= k < ki implies #[trigger] rotation_emitted(
                    bsnap,
                    piece,
                    rot_of(k),
                    positions@,
                ) by {
                    assert(rotation_emitted(bsnap, piece, rot_of(k), pos_before));
                    assert forall|x2: int, y2: int|
                        #[trigger] reach_final(bsnap, piece, rot_of(k), x2, y2) implies emitted_for(
                        piece,
                        positions@,
                        rot_of(k),
                        x2,
                        y2,
                    ) by {
                        lemma_emitted_prefix(piece, pos_before, positions@, rot_of(k), x2, y2);
                    }
                }
                assert forall|xx: int, y2: int|
                    0 <= xx < x && #[trigger] reach_final(bsnap, piece, rot, xx, y2) implies
                    emitted_for(piece, positions@, rot, xx, y2) by {
                    lemma_emitted_prefix(piece, pos_before, positions@, rot, xx, y2);
                }
                assert forall|y2: int|
                    #[trigger] reach_final(bsnap, piece, rot, x as int, y2) implies emitted_for(
                    piece,
                    positions@,
                    rot,
                    x as int,
                    y2,
                ) by {
                    let n = choose|n: nat| reach_n(bsnap, piece, rot, x as int, y2, n);
                    lemma_reach_below_spawn(bsnap, piece, rot, x as int, y2, n);
                    lemma_reach_explored(bsnap, piece, rot, premask[ki as int], x as int, y2, n);
                    if y2 != 0 {
                        assert(blocked_at(bsnap, piece, rot, x as int, y2 - 1));
                        assert(row_bit(premask[ki as int].obstructed@[x as int], y2 - 1));
                    }
                    assert(row_bit(m.explored@[x as int], y2));
                    assert(row_bit(e0, y2));
                }
            }
            x = x + 1;
        }
        proof {
            assert forall|x2: int, y2: int|
                #[trigger] reach_final(bsnap, piece, rot, x2, y2) implies emitted_for(
                piece,
                positions@,
                rot,
                x2,
                y2,
            ) by {
                let n = choose|n: nat| reach_n(bsnap, piece, rot, x2, y2, n);
                assert(0 <= x2 < 10);
            }
            assert(rotation_emitted(bsnap, piece, rot_of(ki as int), positions@));
        }
        ki = ki + 1;
    }
    proof {
        assert forall|rt: Rotation| kept_rotation(piece, rt) implies #[trigger] rotation_emitted(
            bsnap,
            piece,
            rt,
            positions@,
        ) by {
            if piece == Piece::O {
                assert(rt == Rotation::Up);
                assert(rot_of(0) == Rotation::Up);
                assert(rotation_emitted(bsnap, piece, rot_of(0), positions@));
            } else if piece == Piece::I || piece == Piece::S || piece == Piece::Z {
                if rt == Rotation::Up {
                    assert(rot_of(0) == rt);
                    assert(rotation_emitted(bsnap, piece, rot_of(0), positions@));
                } else {
                    assert(rot_of(1) == rt);
                    assert(rotation_emitted(bsnap, piece, rot_of(1), positions@));
                }
            } else {
                match rt {
                    Rotation::Up => assert(rotation_emitted(bsnap, piece, rot_of(0), positions@)),
                    Rotation::Right => assert(rotation_emitted(
                        bsnap,
                        piece,
                        rot_of(1),
                        positions@,
                    )),
                    Rotation::Down => assert(rotation_emitted(bsnap, piece, rot_of(2), positions@)),
                    Rotation::Left => assert(rotation_emitted(bsnap, piece, rot_of(3), positions@)),
                }
            }
        }
    }
    positions
}

/// A collision map whose obstruction and validity boards did not
/// change keeps its geometric invariants.
proof fn lemma_map_ok_again(b: Board, p: Piece, i2: int, before: Seq<CollisionMap>, after: Seq<
    CollisionMap,
>)
    requires
        0 <= i2 < 4,
        before.len() == 4,
        after.len() == 4,
        forall|i: int| 0 <= i < 4 ==> map_ok(b, p, rot_of(i), #[trigger] before[i]),
        forall|i: int| 0 <= i < 4 ==> spawn_covered(b, #[trigger] before[i]),
        forall|i: int| 0 <= i < 4 && i != i2 ==> #[trigger] after[i] == before[i],
        after[i2].obstructed == before[i2].obstructed,
        after[i2].all_valid == before[i2].all_valid,
        explored_valid(after[i2]),
        spin_valid(after[i2]),
        explored_down_closed(after[i2]),
        explored_side_closed(after[i2]),
        forall|i: int| 0 <= i < 4 && i != i2 ==> explored_down_closed(#[trigger] before[i])
            && explored_side_closed(before[i]),
        forall|x: int, y: int|
            0 <= x < 10 && #[trigger] row_bit(before[i2].explored@[x], y) ==> row_bit(
                after[i2].explored@[x],
                y,
            ),
    ensures
        forall|i: int| 0 <= i < 4 ==> map_ok(b, p, rot_of(i), #[trigger] after[i]),
        forall|i: int| 0 <= i < 4 ==> spawn_covered(b, #[trigger] after[i]),
        forall|i: int| 0 <= i < 4 ==> explored_down_closed(#[trigger] after[i])
            && explored_side_closed(after[i]),
{
    assert forall|i: int| 0 <= i < 4 implies map_ok(b, p, rot_of(i), #[trigger] after[i]) by {
        if i == i2 {
            assert(inv_obstructed(b, p, rot_of(i2), before[i2]));
            assert(inv_valid(b, before[i2]));
            assert(valid_down_closed(before[i2]));
            assert(valid_side_closed(before[i2]));
        }
    }
    assert forall|i: int| 0 <= i < 4 implies spawn_covered(b, #[trigger] after[i]) by {
        if i == i2 {
            assert(spawn_covered(b, before[i2]));
            assert forall|x: int|
                0 <= x < 10 && !row_bit(#[trigger] after[i2].obstructed@[x], max_height(b) + 2int)
                    implies row_bit(after[i2].explored@[x], max_height(b) + 2int) by {
                assert(row_bit(before[i2].explored@[x], max_height(b) + 2int));
            }
        }
    }
}

/// Every reachable final resting position of the next piece and of
/// the held piece, concatenated in that order.
pub fn movegen(game: &Game, next: Piece) -> (r: Vec<PieceLocation>)
    requires
        max_height(game.board) <= 35,
    ensures
        forall|i: int| 0 <= i < r@.len() ==> movegen_valid(game.board, next, #[trigger] r@[i])
            || movegen_valid(game.board, game.hold, r@[i]),
        exists|n: int| #[trigger] concat_split_at(game.board, next, game.hold, r@, n),
        forall|rt: Rotation|
            kept_rotation(next, rt) ==> #[trigger] rotation_emitted(game.board, next, rt, r@),
        forall|rt: Rotation|
            kept_rotation(game.hold, rt) ==> #[trigger] rotation_emitted(
                game.board,
                game.hold,
                rt,
                r@,
            ),
{
    let mut next_pieces = movegen_piece(&game.board, next);
    let mut hold_pieces = movegen_piece(&game.board, game.hold);
    let ghost n: int = next_pieces@.len() as int;
    let ghost np: Seq<PieceLocation> = next_pieces@;
    let ghost hp: Seq<PieceLocation> = hold_pieces@;
    next_pieces.append(&mut hold_pieces);
    proof {
        assert(concat_split_at(game.board, next, game.hold, next_pieces@, n));
        assert forall|rt: Rotation| kept_rotation(next, rt) implies #[trigger] rotation_emitted(
            game.board,
            next,
            rt,
            next_pieces@,
        ) by {
            assert forall|x: int, y: int|
                #[trigger] reach_final(game.board, next, rt, x, y) implies emitted_for(
                next,
                next_pieces@,
                rt,
                x,
                y,
            ) by {
                assert(rotation_emitted(game.board, next, rt, np));
                assert(emitted_for(next, np, rt, x, y));
                lemma_emitted_prefix(next, np, next_pieces@, rt, x, y);
            }
        }
        assert forall|rt: Rotation|
            kept_rotation(game.hold, rt) implies #[trigger] rotation_emitted(
            game.board,
            game.hold,
            rt,
            next_pieces@,
        ) by {
            assert forall|x: int, y: int|
                #[trigger] reach_final(game.board, game.hold, rt, x, y) implies emitted_for(
                game.hold,
                next_pieces@,
                rt,
                x,
                y,
            ) by {
                assert(rotation_emitted(game.board, game.hold, rt, hp));
                assert(emitted_for(game.hold, hp, rt, x, y));
                let i = choose|i: int|
                    0 <= i < hp.len() && (#[trigger] hp[i]).piece == game.hold && hp[i].rotation
                        == rt && hp[i].x == x && hp[i].y == y;
                assert(next_pieces@[n + i] == hp[i]);
            }
        }
    }
    next_pieces
}

/// The returned list splits at `n`: placements of the next piece
/// first, placements of the held piece after.
pub open spec fn concat_split_at(
    b: Board,
    next: Piece,
    hold: Piece,
    r: Seq<PieceLocation>,
    n: int,
) -> bool {
    &&& 0 <= n <= r.len()
    &&& forall|i: int| 0 <= i < n ==> movegen_valid(b, next, #[trigger] r[i])
    &&& forall|i: int| n <= i < r.len() ==> movegen_valid(b, hold, #[trigger] r[i])
}

/// A center the piece can reach by entering on the spawn row — two
/// rows over the stack — and moving down, left or right through
/// unblocked positions, in at most `n` moves.
pub open spec fn reach_n(b: Board, p: Piece, r: Rotation, x: int, y: int, n: nat) -> bool
    decreases n,
{
    &&& 0 <= x < 10
    &&& 0 <= y
    &&& !blocked_at(b, p, r, x, y)
    &&& (y == max_height(b) + 2 || (n > 0 && (reach_n(b, p, r, x, y + 1, (n - 1) as nat)
        || reach_n(b, p, r, x - 1, y, (n - 1) as nat) || reach_n(
        b,
        p,
        r,
        x + 1,
        y,
        (n - 1) as nat,
    ))))
}

/// A reachable center never stands above the spawn row.
proof fn lemma_reach_below_spawn(b: Board, p: Piece, r: Rotation, x: int, y: int, n: nat)
    requires
        reach_n(b, p, r, x, y, n),
    ensures
        y <= max_height(b) + 2,
    decreases n,
{
    if y != max_height(b) + 2 {
        if reach_n(b, p, r, x, y + 1, (n - 1) as nat) {
            lemma_reach_below_spawn(b, p, r, x, y + 1, (n - 1) as nat);
        } else if reach_n(b, p, r, x - 1, y, (n - 1) as nat) {
            lemma_reach_below_spawn(b, p, r, x - 1, y, (n - 1) as nat);
        } else {
            lemma_reach_below_spawn(b, p, r, x + 1, y, (n - 1) as nat);
        }
    }
}

/// A collision map that covers the spawn row and is closed downward
/// and sideways has explored every reachable center.
proof fn lemma_reach_explored(
    b: Board,
    p: Piece,
    rot: Rotation,
    m: CollisionMap,
    x: int,
    y: int,
    n: nat,
)
    requires
        max_height(b) <= 35,
        inv_obstructed(b, p, rot, m),
        spawn_covered(b, m),
        explored_down_closed(m),
        explored_side_closed(m),
        reach_n(b, p, rot, x, y, n),
    ensures
        row_bit(m.explored@[x], y),
    decreases n,
{
    lemma_reach_below_spawn(b, p, rot, x, y, n);
    assert(!row_bit(m.obstructed@[x], y));
    if y == max_height(b) + 2 {
        assert(row_bit(m.explored@[x], y));
    } else if reach_n(b, p, rot, x, y + 1, (n - 1) as nat) {
        lemma_reach_explored(b, p, rot, m, x, y + 1, (n - 1) as nat);
        assert(row_bit(m.explored@[x], y + 1));
        assert(row_bit(m.explored@[x], y));
    } else if reach_n(b, p, rot, x - 1, y, (n - 1) as nat) {
        lemma_reach_explored(b, p, rot, m, x - 1, y, (n - 1) as nat);
        assert(row_bit(m.explored@[x - 1], y));
        assert(row_bit(m.explored@[x], y));
    } else {
        assert(reach_n(b, p, rot, x + 1, y, (n - 1) as nat));
        lemma_reach_explored(b, p, rot, m, x + 1, y, (n - 1) as nat);
        assert(0 <= x + 1 < 10);
        assert(row_bit(m.explored@[x + 1], y));
        assert(!row_bit(m.obstructed@[x], y));
        assert(row_bit(m.explored@[x], y));
    }
}

/// Among the blocks of `(p, r)` in one block row, the one that is
/// leftmost (`side == -1`) or rightmost (`side == 1`).
proof fn pick_extreme(p: Piece, r: Rotation, dyr: int, side: int, i0: int) -> (m: int)
    requires
        0 <= i0 < 4,
        cell_of(p, r, i0).1 == dyr,
        side == -1 || side == 1,
    ensures
        0 <= m < 4,
        cell_of(p, r, m).1 == dyr,
        forall|i: int|
            0 <= i < 4 && #[trigger] cell_of(p, r, i).1 == dyr ==> (if side == -1 {
                cell_of(p, r, m).0 <= cell_of(p, r, i).0
            } else {
                cell_of(p, r, i).0 <= cell_of(p, r, m).0
            }),
{
    let m0 = i0;
    let m1: int = if cell_of(p, r, 0).1 == dyr && (if side == -1 {
        cell_of(p, r, 0).0 <= cell_of(p, r, m0).0
    } else {
        cell_of(p, r, m0).0 <= cell_of(p, r, 0).0
    }) {
        0
    } else {
        m0
    };
    let m2: int = if cell_of(p, r, 1).1 == dyr && (if side == -1 {
        cell_of(p, r, 1).0 <= cell_of(p, r, m1).0
    } else {
        cell_of(p, r, m1).0 <= cell_of(p, r, 1).0
    }) {
        1
    } else {
        m1
    };
    let m3: int = if cell_of(p, r, 2).1 == dyr && (if side == -1 {
        cell_of(p, r, 2).0 <= cell_of(p, r, m2).0
    } else {
        cell_of(p, r, m2).0 <= cell_of(p, r, 2).0
    }) {
        2
    } else {
        m2
    };
    let m4: int = if cell_of(p, r, 3).1 == dyr && (if side == -1 {
        cell_of(p, r, 3).0 <= cell_of(p, r, m3).0
    } else {
        cell_of(p, r, m3).0 <= cell_of(p, r, 3).0
    }) {
        3
    } else {
        m3
    };
    m4
}

/// If the piece also fits one column to the side of its landing
/// position, the landing completes no row: in each block row, the
/// side position keeps an empty cell just beyond the blocks.
proof fn lemma_side_free_no_completion(b: Board, loc: PieceLocation, side: int)
    requires
        side == -1 || side == 1,
        loc_cells_in_bounds(loc),
        loc_fits(b, loc),
        no_full_row(b),
        !blocked_at(b, loc.piece, loc.rotation, loc.x + side, loc.y as int),
    ensures
        forall|rr: int| !crate::board::placed_full_row(b, loc, rr),
{
    let p = loc.piece;
    let r = loc.rotation;
    assert forall|rr: int| !crate::board::placed_full_row(b, loc, rr) by {
        if crate::board::placed_full_row(b, loc, rr) {
            // some column was newly filled in this row, so the row is
            // one of the piece's block rows
            assert(!crate::board::full_row(b, rr));
            let xh = choose|x: int| 0 <= x < 10 && !row_bit(col(b, x), rr);
            assert(row_bit(placed_col(b, loc, xh), rr));
            crate::board::lemma_placed_col_bits(b, loc, xh, rr);
            let i0 = choose|i: int| 0 <= i < 4 && #[trigger] loc_cell(loc, i) == (xh, rr);
            let dyr = rr - loc.y;
            assert(cell_of(p, r, i0).1 == dyr);
            let m = pick_extreme(p, r, dyr, side, i0);
            let cstar = loc.x + cell_of(p, r, m).0 + side;
            // the matching block of the side position sits at
            // (cstar, rr) and is a free playfield cell
            assert(!block_hits(b, p, r, loc.x + side, loc.y as int, m));
            assert(!cell_blocked(b, cstar, rr));
            assert(0 <= rr <= 39) by {
                assert(loc_cell(loc, i0).1 == rr);
            }
            assert(0 <= cstar < 10 && !occ(b, cstar, rr));
            // no block of the placement covers (cstar, rr)
            assert forall|i: int| 0 <= i < 4 implies !(#[trigger] loc_cell(loc, i) == (
                cstar,
                rr,
            )) by {
                if loc_cell(loc, i) == (cstar, rr) {
                    assert(cell_of(p, r, i).1 == dyr);
                    assert(cell_of(p, r, i).0 == cell_of(p, r, m).0 + side);
                }
            }
            // so that column of the row stayed empty, and the row is
            // not full after all
            assert(row_bit(placed_col(b, loc, cstar), rr));
            crate::board::lemma_placed_col_bits(b, loc, cstar, rr);
        }
    }
}

} // verus!
