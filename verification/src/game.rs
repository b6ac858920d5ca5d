//! The player's state across placements — board, hold slot,
//! back-to-back and combo counters — and the transition that applies
//! one placement and scores the garbage it sends.

use vstd::prelude::*;

use crate::board::{
    attack, cleared_count, col, loc_cells_in_bounds, loc_fits, no_full_row, placed_board_col,
    placed_board_empty, Board, Column, PlacementInfo,
};
use crate::geometry::{loc_in_range, Piece, PieceLocation};

verus! {

/// The player's state: the playfield, the held piece, the
/// back-to-back streak, the combo streak, and the number of
/// placements since the last streak-extending clear.
#[derive(Clone, Debug)]
pub struct Game {
    pub board: Board,
    pub hold: Piece,
    pub b2b: u64,
    pub combo: u64,
    pub b2b_deficit: u32,
}

/// A clear extends the back-to-back streak when it was a spin, a
/// four-row clear, or left the board empty.
pub open spec fn difficult_clear(cleared: u32, spun: bool, all_clear: bool) -> bool {
    spun || cleared == 4 || all_clear
}

/// The back-to-back counter after a placement clearing `cleared` rows.
pub open spec fn next_b2b(g: Game, cleared: u32, spun: bool, all_clear: bool) -> u64 {
    if cleared > 0 {
        if difficult_clear(cleared, spun, all_clear) {
            (g.b2b + 1) as u64
        } else {
            0
        }
    } else {
        g.b2b
    }
}

/// The combo counter after a placement clearing `cleared` rows.
pub open spec fn next_combo(g: Game, cleared: u32) -> u64 {
    if cleared > 0 {
        (g.combo + 1) as u64
    } else {
        0
    }
}

/// Placements since the last streak-extending clear, after this one.
pub open spec fn next_deficit(g: Game, cleared: u32, spun: bool, all_clear: bool) -> u32 {
    if cleared > 0 && difficult_clear(cleared, spun, all_clear) {
        0
    } else {
        (g.b2b_deficit + 1) as u32
    }
}

/// The surge bonus: a streak longer than four that a plain clear ends
/// is paid out once, at its pre-reset length.
pub open spec fn surge_bonus(g: Game, cleared: u32, spun: bool, all_clear: bool) -> u64 {
    if cleared > 0 && !difficult_clear(cleared, spun, all_clear) && g.b2b > 4 {
        g.b2b
    } else {
        0
    }
}

/// Floor of the natural logarithm of `1 + 1.25 * combo`, the garbage
/// a placement sends on combo alone. Each threshold is the least
/// combo at which the logarithm reaches the next whole value; the
/// table is exact for every combo below `2^30`, which is all the
/// transition admits.
pub open spec fn combo_log(combo: u64) -> u32 {
    if combo < 2 {
        0
    } else if combo < 6 {
        1
    } else if combo < 16 {
        2
    } else if combo < 43 {
        3
    } else if combo < 118 {
        4
    } else if combo < 322 {
        5
    } else if combo < 877 {
        6
    } else if combo < 2384 {
        7
    } else if combo < 6482 {
        8
    } else if combo < 17621 {
        9
    } else if combo < 47899 {
        10
    } else if combo < 130204 {
        11
    } else if combo < 353930 {
        12
    } else if combo < 962083 {
        13
    } else if combo < 2615214 {
        14
    } else if combo < 7108888 {
        15
    } else if combo < 19323962 {
        16
    } else if combo < 52527975 {
        17
    } else if combo < 142785840 {
        18
    } else if combo < 388132156 {
        19
    } else if combo < 1055052587 {
        20
    } else {
        21
    }
}

/// The garbage a placement finally sends: the attack-table value with
/// the back-to-back bonus, scaled by the combo (or, when it is zero,
/// replaced by the combo logarithm), plus five for an all clear, plus
/// the surge bonus.
pub open spec fn total_garbage(
    g: Game,
    cleared: u32,
    spun: bool,
    is_t: bool,
    all_clear: bool,
) -> int {
    let base = attack(cleared, spun, is_t) + (if cleared > 0 && difficult_clear(
        cleared,
        spun,
        all_clear,
    ) {
        1int
    } else {
        0int
    });
    let scaled = if base == 0 {
        combo_log(next_combo(g, cleared)) as int
    } else {
        base * (4 + next_combo(g, cleared)) / 4
    };
    scaled + (if all_clear {
        5int
    } else {
        0int
    }) + surge_bonus(g, cleared, spun, all_clear)
}

/// Floor of the natural logarithm of `1 + 1.25 * combo`.
fn combo_garbage(combo: u64) -> (r: u32)
    ensures
        r == combo_log(combo),
{
    if combo < 2 {
        0
    } else if combo < 6 {
        1
    } else if combo < 16 {
        2
    } else if combo < 43 {
        3
    } else if combo < 118 {
        4
    } else if combo < 322 {
        5
    } else if combo < 877 {
        6
    } else if combo < 2384 {
        7
    } else if combo < 6482 {
        8
    } else if combo < 17621 {
        9
    } else if combo < 47899 {
        10
    } else if combo < 130204 {
        11
    } else if combo < 353930 {
        12
    } else if combo < 962083 {
        13
    } else if combo < 2615214 {
        14
    } else if combo < 7108888 {
        15
    } else if combo < 19323962 {
        16
    } else if combo < 52527975 {
        17
    } else if combo < 142785840 {
        18
    } else if combo < 388132156 {
        19
    } else if combo < 1055052587 {
        20
    } else {
        21
    }
}

/// Relies on `rand::Rng::random_range`: sampling from the range
/// `0..7` returns a value within it.
#[verifier::external_body]
fn random_piece_index() -> (r: usize)
    ensures
        r < 7,
{
    let mut rng = rand::rng();
    rand::Rng::random_range(&mut rng, 0..7)
}

impl Game {
    /// A fresh game: empty board, zeroed counters, and the given
    /// piece in the hold slot — or a random one when none is given.
    pub fn new(p: Option<Piece>) -> (g: Game)
        ensures
            forall|x: int| 0 <= x < 10 ==> col(g.board, x) == 0,
            g.b2b == 0,
            g.combo == 0,
            g.b2b_deficit == 0,
            p is Some ==> g.hold == p->0,
    {
        let hold = match p {
            Some(piece) => piece,
            None => {
                let i = random_piece_index();
                match i {
                    0 => Piece::I,
                    1 => Piece::J,
                    2 => Piece::L,
                    3 => Piece::O,
                    4 => Piece::T,
                    5 => Piece::S,
                    _ => Piece::Z,
                }
            },
        };
        let board = Board {
            cols: [
                Column(0),
                Column(0),
                Column(0),
                Column(0),
                Column(0),
                Column(0),
                Column(0),
                Column(0),
                Column(0),
                Column(0),
            ],
        };
        Game { board, hold, b2b: 0, combo: 0, b2b_deficit: 0 }
    }

    /// Apply one placement: stow `next` in the hold slot if the placed
    /// piece is not `next`, place the piece, clear full rows, and
    /// update the back-to-back, combo and deficit counters. Returns
    /// the placement report with the garbage finally sent. The counter
    /// bounds keep every garbage figure within its 32-bit field.
    pub fn advance(&mut self, next: Piece, loc: PieceLocation) -> (r: PlacementInfo)
        requires
            loc_in_range(loc),
            loc_cells_in_bounds(loc),
            loc_fits(old(self).board, loc),
            no_full_row(old(self).board),
            old(self).b2b < 0x4000_0000,
            old(self).combo < 0x4000_0000,
            old(self).b2b_deficit < 0xffff_ffff,
        ensures
            ({
                let cleared = cleared_count(old(self).board, loc) as u32;
                let ac = placed_board_empty(old(self).board, loc);
                &&& forall|x: int| 0 <= x < 10 ==> col(final (self).board, x) == placed_board_col(
                    old(self).board,
                    loc,
                    x,
                )
                &&& final (self).hold == (if loc.piece != next {
                    next
                } else {
                    old(self).hold
                })
                &&& final (self).b2b == next_b2b(*old(self), cleared, loc.spun, ac)
                &&& final (self).combo == next_combo(*old(self), cleared)
                &&& final (self).b2b_deficit == next_deficit(*old(self), cleared, loc.spun, ac)
                &&& r.spin == loc.spun
                &&& r.lines_cleared == cleared
                &&& r.garbage_sent == total_garbage(
                    *old(self),
                    cleared,
                    loc.spun,
                    loc.piece == Piece::T,
                    ac,
                )
                &&& loc.possible_line_clear ==> no_full_row(final (self).board)
            }),
    {
        if loc.piece != next {
            self.hold = next;
        }
        let mut info = self.board.place(loc);
        let ghost b0: Board = old(self).board;
        let ghost gmid: Game = *self;
        let mut all_clear = true;
        let mut x: usize = 0;
        while x < 10
            invariant
                0 <= x <= 10,
                *self == gmid,
                forall|k: int| 0 <= k < 10 ==> col(self.board, k) == placed_board_col(b0, loc, k),
                all_clear ==> forall|k: int| 0 <= k < x ==> placed_board_col(b0, loc, k) == 0,
                !all_clear ==> exists|k: int| 0 <= k < x && placed_board_col(b0, loc, k) != 0,
            decreases 10 - x,
        {
            let cx = self.board.cols[x].0;
            proof {
                assert(cx == placed_board_col(b0, loc, x as int));
            }
            if cx != 0 {
                all_clear = false;
                proof {
                    assert(0 <= (x as int) < x + 1 && placed_board_col(b0, loc, x as int) != 0);
                }
            }
            x = x + 1;
        }
        proof {
            if all_clear {
                assert(placed_board_empty(b0, loc));
            } else {
                let k = choose|k: int| 0 <= k < 10 && placed_board_col(b0, loc, k) != 0;
                assert(!placed_board_empty(b0, loc));
            }
            assert(all_clear == placed_board_empty(b0, loc));
        }
        self.b2b_deficit = self.b2b_deficit + 1;
        let mut surge: u32 = 0;
        if info.lines_cleared > 0 {
            if info.spin || info.lines_cleared == 4 || all_clear {
                self.b2b = self.b2b + 1;
                self.b2b_deficit = 0;
            } else {
                if self.b2b > 4 {
                    surge = self.b2b as u32;
                }
                self.b2b = 0;
            }
            self.combo = self.combo + 1;
            if self.b2b > 0 {
                info.garbage_sent = info.garbage_sent + 1;
            }
        } else {
            self.combo = 0;
        }
        let garbage_sent: u32 = if info.garbage_sent == 0 {
            combo_garbage(self.combo)
        } else {
            assert(info.garbage_sent <= 7);
            assert(self.combo <= 0x4000_0000);
            assert((info.garbage_sent as u64) * (4 + self.combo) <= 7 * (4 + 0x4000_0000u64))
                by (nonlinear_arith)
                requires
                    info.garbage_sent <= 7,
                    self.combo <= 0x4000_0000,
            ;
            ((info.garbage_sent as u64) * (4 + self.combo) / 4) as u32
        };
        assert(garbage_sent < 0x8000_0000);
        let garbage_sent = if all_clear {
            garbage_sent + 5
        } else {
            garbage_sent
        };
        assert(surge <= 0x4000_0000);
        info.garbage_sent = garbage_sent + surge;
        info
    }
}

} // verus!
