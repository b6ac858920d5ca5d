//! Piece shapes, rotation states, the rotation operators, and the
//! wall-kick tables: the immutable geometry the rest of the engine
//! works over.

use vstd::prelude::*;

verus! {

/// The seven tetromino shapes. Values are compared by identity only.
#[derive(Clone, Copy, PartialEq, Eq, Structural, Debug, Hash)]
pub enum Piece {
    I,
    O,
    T,
    L,
    J,
    S,
    Z,
}

/// The four rotation states, cyclic in the order listed.
#[derive(Clone, Copy, PartialEq, Eq, Structural, Debug, Hash)]
pub enum Rotation {
    Up,
    Right,
    Down,
    Left,
}

/// Offset of cell `i` of piece `p` in the canonical (`Up`) rotation.
pub open spec fn piece_cell(p: Piece, i: int) -> (int, int) {
    match p {
        Piece::Z => if i == 0 { (-1, 1) } else if i == 1 { (0, 1) } else if i == 2 { (0, 0) } else { (1, 0) },
        Piece::S => if i == 0 { (-1, 0) } else if i == 1 { (0, 0) } else if i == 2 { (0, 1) } else { (1, 1) },
        Piece::I => if i == 0 { (-1, 0) } else if i == 1 { (0, 0) } else if i == 2 { (1, 0) } else { (2, 0) },
        Piece::O => if i == 0 { (0, 0) } else if i == 1 { (1, 0) } else if i == 2 { (0, 1) } else { (1, 1) },
        Piece::J => if i == 0 { (-1, 0) } else if i == 1 { (0, 0) } else if i == 2 { (1, 0) } else { (-1, 1) },
        Piece::L => if i == 0 { (-1, 0) } else if i == 1 { (0, 0) } else if i == 2 { (1, 0) } else { (1, 1) },
        Piece::T => if i == 0 { (-1, 0) } else if i == 1 { (0, 0) } else if i == 2 { (1, 0) } else { (0, 1) },
    }
}

/// A cell offset turned by rotation `r` (a rigid quarter, half or zero
/// turn about the rotation center).
pub open spec fn rotate_cell(r: Rotation, c: (int, int)) -> (int, int) {
    match r {
        Rotation::Up => c,
        Rotation::Right => (c.1, -c.0),
        Rotation::Down => (-c.0, -c.1),
        Rotation::Left => (-c.1, c.0),
    }
}

/// Offset of cell `i` of piece `p` in rotation `r`.
pub open spec fn cell_of(p: Piece, r: Rotation, i: int) -> (int, int) {
    rotate_cell(r, piece_cell(p, i))
}

/// The rotation one quarter turn clockwise from `r`.
pub open spec fn spec_rotate_right(r: Rotation) -> Rotation {
    match r {
        Rotation::Up => Rotation::Right,
        Rotation::Right => Rotation::Down,
        Rotation::Down => Rotation::Left,
        Rotation::Left => Rotation::Up,
    }
}

/// The rotation one quarter turn counter-clockwise from `r`.
pub open spec fn spec_rotate_left(r: Rotation) -> Rotation {
    match r {
        Rotation::Up => Rotation::Left,
        Rotation::Left => Rotation::Down,
        Rotation::Down => Rotation::Right,
        Rotation::Right => Rotation::Up,
    }
}

/// The rotation one half turn from `r`.
pub open spec fn spec_rotate_180(r: Rotation) -> Rotation {
    spec_rotate_right(spec_rotate_right(r))
}

impl Rotation {
    /// Map a canonical block offset to its offset under `self`.
    pub fn rotate_block(&self, c: (i8, i8)) -> (r: (i8, i8))
        requires
            -127 <= c.0,
            -127 <= c.1,
        ensures
            (r.0 as int, r.1 as int) == rotate_cell(*self, (c.0 as int, c.1 as int)),
    {
        match self {
            Rotation::Up => (c.0, c.1),
            Rotation::Right => (c.1, -c.0),
            Rotation::Down => (-c.0, -c.1),
            Rotation::Left => (-c.1, c.0),
        }
    }

    /// Map all four canonical block offsets to their offsets under `self`.
    pub fn rotate_blocks(&self, blocks: [(i8, i8); 4]) -> (r: [(i8, i8); 4])
        requires
            forall|i: int| 0 <= i < 4 ==> -127 <= (#[trigger] blocks@[i]).0 && -127 <= blocks@[i].1,
        ensures
            forall|i: int| 0 <= i < 4 ==> ((#[trigger] r@[i]).0 as int, r@[i].1 as int)
                == rotate_cell(*self, (blocks@[i].0 as int, blocks@[i].1 as int)),
    {
        [
            self.rotate_block(blocks[0]),
            self.rotate_block(blocks[1]),
            self.rotate_block(blocks[2]),
            self.rotate_block(blocks[3]),
        ]
    }

    /// One quarter turn clockwise.
    pub fn rotate_right(&self) -> (r: Rotation)
        ensures
            r == spec_rotate_right(*self),
    {
        match self {
            Rotation::Up => Rotation::Right,
            Rotation::Right => Rotation::Down,
            Rotation::Down => Rotation::Left,
            Rotation::Left => Rotation::Up,
        }
    }

    /// One quarter turn counter-clockwise.
    pub fn rotate_left(&self) -> (r: Rotation)
        ensures
            r == spec_rotate_left(*self),
    {
        match self {
            Rotation::Up => Rotation::Left,
            Rotation::Left => Rotation::Down,
            Rotation::Down => Rotation::Right,
            Rotation::Right => Rotation::Up,
        }
    }

    /// One half turn.
    pub fn rotate_180(&self) -> (r: Rotation)
        ensures
            r == spec_rotate_180(*self),
    {
        match self {
            Rotation::Up => Rotation::Down,
            Rotation::Right => Rotation::Left,
            Rotation::Down => Rotation::Up,
            Rotation::Left => Rotation::Right,
        }
    }
}

impl Piece {
    /// The four block offsets of `self` in the canonical rotation.
    pub fn blocks(&self) -> (r: [(i8, i8); 4])
        ensures
            forall|i: int| 0 <= i < 4 ==> ((#[trigger] r@[i]).0 as int, r@[i].1 as int)
                == piece_cell(*self, i),
    {
        match self {
            Piece::Z => [(-1, 1), (0, 1), (0, 0), (1, 0)],
            Piece::S => [(-1, 0), (0, 0), (0, 1), (1, 1)],
            Piece::I => [(-1, 0), (0, 0), (1, 0), (2, 0)],
            Piece::O => [(0, 0), (1, 0), (0, 1), (1, 1)],
            Piece::J => [(-1, 0), (0, 0), (1, 0), (-1, 1)],
            Piece::L => [(-1, 0), (0, 0), (1, 0), (1, 1)],
            Piece::T => [(-1, 0), (0, 0), (1, 0), (0, 1)],
        }
    }
}

/// Every block offset of every piece, under every rotation, lies
/// within two cells of the rotation center.
pub proof fn lemma_cell_bounds(p: Piece, r: Rotation, i: int)
    requires
        0 <= i < 4,
    ensures
        -2 <= cell_of(p, r, i).0 <= 2,
        -2 <= cell_of(p, r, i).1 <= 2,
{
}

/// A final resting position of a piece on the board: rotation state,
/// center coordinates, whether the position was entered by a kicked
/// rotation, and whether the placement might complete a row.
#[derive(Clone, Copy, PartialEq, Eq, Structural, Debug, Hash)]
pub struct PieceLocation {
    pub piece: Piece,
    pub rotation: Rotation,
    pub spun: bool,
    pub x: i8,
    pub y: i8,
    pub possible_line_clear: bool,
}

/// The board cell occupied by block `i` of the placement `loc`.
pub open spec fn loc_cell(loc: PieceLocation, i: int) -> (int, int) {
    let c = cell_of(loc.piece, loc.rotation, i);
    (loc.x + c.0, loc.y + c.1)
}

/// The center of `loc` lies on the playfield (its blocks then stay
/// within `i8` range).
pub open spec fn loc_in_range(loc: PieceLocation) -> bool {
    0 <= loc.x < 10 && 0 <= loc.y < 40
}

impl PieceLocation {
    /// The four absolute board cells this placement occupies.
    pub fn blocks(&self) -> (r: [(i8, i8); 4])
        requires
            loc_in_range(*self),
        ensures
            forall|i: int| 0 <= i < 4 ==> ((#[trigger] r@[i]).0 as int, r@[i].1 as int)
                == loc_cell(*self, i),
    {
        let cells = self.rotation.rotate_blocks(self.piece.blocks());
        proof {
            lemma_cell_bounds(self.piece, self.rotation, 0);
            lemma_cell_bounds(self.piece, self.rotation, 1);
            lemma_cell_bounds(self.piece, self.rotation, 2);
            lemma_cell_bounds(self.piece, self.rotation, 3);
        }
        self.translate_blocks(cells)
    }

    /// Translate one cell offset by the center of `self`.
    pub fn translate(&self, c: (i8, i8)) -> (r: (i8, i8))
        requires
            -128 <= self.x + c.0 <= 127,
            -128 <= self.y + c.1 <= 127,
        ensures
            r.0 as int == self.x + c.0,
            r.1 as int == self.y + c.1,
    {
        (self.x + c.0, self.y + c.1)
    }

    /// Translate four cell offsets by the center of `self`.
    pub fn translate_blocks(&self, cells: [(i8, i8); 4]) -> (r: [(i8, i8); 4])
        requires
            forall|i: int| 0 <= i < 4 ==> -128 <= self.x + (#[trigger] cells@[i]).0 <= 127
                && -128 <= self.y + cells@[i].1 <= 127,
        ensures
            forall|i: int| 0 <= i < 4 ==> ((#[trigger] r@[i]).0 as int, r@[i].1 as int)
                == (self.x + cells@[i].0, self.y + cells@[i].1),
    {
        [
            self.translate(cells[0]),
            self.translate(cells[1]),
            self.translate(cells[2]),
            self.translate(cells[3]),
        ]
    }
}

/// The six-entry wall-kick sequence for rotating piece `p` from
/// rotation `from` to rotation `to`. Kicks are tried in order; the
/// first that fits wins. `O` has no kicks; the `I` piece has its own
/// table, distinct from the table the other five pieces share.
pub open spec fn kick_seq(p: Piece, from: Rotation, to: Rotation) -> Seq<(i8, i8)> {
    if p == Piece::O {
        seq![(0i8, 0i8), (0i8, 0i8), (0i8, 0i8), (0i8, 0i8), (0i8, 0i8), (0i8, 0i8)]
    } else if p == Piece::I {
        match (from, to) {
            (Rotation::Right, Rotation::Up) => seq![(-1i8, 0i8), (-2i8, 0i8), (1i8, 0i8), (-2i8, -2i8), (1i8, 1i8), (-1i8, 0i8)],
            (Rotation::Right, Rotation::Down) => seq![(0i8, -1i8), (-1i8, -1i8), (2i8, -1i8), (-1i8, 1i8), (2i8, -2i8), (0i8, -1i8)],
            (Rotation::Right, Rotation::Left) => seq![(-1i8, -1i8), (0i8, -1i8), (-1i8, -1i8), (-1i8, -1i8), (-1i8, -1i8), (-1i8, -1i8)],
            (Rotation::Down, Rotation::Up) => seq![(-1i8, 1i8), (-1i8, 0i8), (-1i8, 1i8), (-1i8, 1i8), (-1i8, 1i8), (-1i8, 1i8)],
            (Rotation::Down, Rotation::Right) => seq![(0i8, 1i8), (-2i8, 1i8), (1i8, 1i8), (-2i8, 2i8), (1i8, -1i8), (0i8, 1i8)],
            (Rotation::Down, Rotation::Left) => seq![(-1i8, 0i8), (1i8, 0i8), (-2i8, 0i8), (1i8, 1i8), (-2i8, -2i8), (-1i8, 0i8)],
            (Rotation::Left, Rotation::Up) => seq![(0i8, 1i8), (1i8, 1i8), (-2i8, 1i8), (1i8, -1i8), (-2i8, 2i8), (0i8, 1i8)],
            (Rotation::Left, Rotation::Right) => seq![(1i8, 1i8), (0i8, 1i8), (1i8, 1i8), (1i8, 1i8), (1i8, 1i8), (1i8, 1i8)],
            (Rotation::Left, Rotation::Down) => seq![(1i8, 0i8), (2i8, 0i8), (-1i8, 0i8), (2i8, 2i8), (-1i8, -1i8), (1i8, 0i8)],
            (Rotation::Up, Rotation::Right) => seq![(1i8, 0i8), (2i8, 0i8), (-1i8, 0i8), (-1i8, -1i8), (2i8, 2i8), (1i8, 0i8)],
            (Rotation::Up, Rotation::Left) => seq![(0i8, -1i8), (-1i8, -1i8), (2i8, -1i8), (2i8, -2i8), (-1i8, 1i8), (0i8, -1i8)],
            (Rotation::Up, Rotation::Down) => seq![(1i8, -1i8), (1i8, 0i8), (1i8, -1i8), (1i8, -1i8), (1i8, -1i8), (1i8, -1i8)],
            _ => Seq::empty(),
        }
    } else {
        match (from, to) {
            (Rotation::Right, Rotation::Up) => seq![(0i8, 0i8), (1i8, 0i8), (1i8, -1i8), (0i8, 2i8), (1i8, 2i8), (0i8, 0i8)],
            (Rotation::Right, Rotation::Down) => seq![(0i8, 0i8), (1i8, 0i8), (1i8, -1i8), (0i8, 2i8), (1i8, 2i8), (0i8, 0i8)],
            (Rotation::Right, Rotation::Left) => seq![(0i8, 0i8), (1i8, 0i8), (1i8, 2i8), (1i8, 1i8), (0i8, 2i8), (0i8, 1i8)],
            (Rotation::Down, Rotation::Up) => seq![(0i8, 0i8), (0i8, -1i8), (-1i8, -1i8), (1i8, -1i8), (-1i8, 0i8), (1i8, 0i8)],
            (Rotation::Down, Rotation::Right) => seq![(0i8, 0i8), (-1i8, 0i8), (-1i8, 1i8), (0i8, -2i8), (-1i8, -2i8), (0i8, 0i8)],
            (Rotation::Down, Rotation::Left) => seq![(0i8, 0i8), (1i8, 0i8), (1i8, 1i8), (0i8, -2i8), (1i8, -2i8), (0i8, 0i8)],
            (Rotation::Left, Rotation::Up) => seq![(0i8, 0i8), (-1i8, 0i8), (-1i8, -1i8), (0i8, 2i8), (-1i8, 2i8), (0i8, 0i8)],
            (Rotation::Left, Rotation::Right) => seq![(0i8, 0i8), (-1i8, 0i8), (-1i8, 2i8), (-1i8, 1i8), (0i8, 2i8), (0i8, 1i8)],
            (Rotation::Left, Rotation::Down) => seq![(0i8, 0i8), (-1i8, 0i8), (-1i8, -1i8), (0i8, 2i8), (-1i8, 2i8), (0i8, 0i8)],
            (Rotation::Up, Rotation::Right) => seq![(0i8, 0i8), (-1i8, 0i8), (-1i8, 1i8), (0i8, -2i8), (-1i8, -2i8), (0i8, 0i8)],
            (Rotation::Up, Rotation::Left) => seq![(0i8, 0i8), (1i8, 0i8), (1i8, 1i8), (0i8, -2i8), (1i8, -2i8), (0i8, 0i8)],
            (Rotation::Up, Rotation::Down) => seq![(0i8, 0i8), (0i8, 1i8), (1i8, 1i8), (-1i8, 1i8), (1i8, 0i8), (-1i8, 0i8)],
            _ => Seq::empty(),
        }
    }
}

/// The wall-kick sequence for `(p, from, to)`. Rotating without
/// changing the rotation state is a logic error for every piece but
/// `O`, which never rotates at all.
pub fn kicks(piece: Piece, from: Rotation, to: Rotation) -> (r: [(i8, i8); 6])
    requires
        piece == Piece::O || from != to,
    ensures
        r@ =~= kick_seq(piece, from, to),
        forall|j: int| 0 <= j < 6 ==> -2 <= (#[trigger] r@[j]).0 <= 2 && -2 <= r@[j].1 <= 2,
{
    match piece {
        Piece::O => [(0, 0); 6],
        Piece::I => match (from, to) {
            (Rotation::Right, Rotation::Up) => [(-1, 0), (-2, 0), (1, 0), (-2, -2), (1, 1), (-1, 0)],
            (Rotation::Right, Rotation::Down) => [(0, -1), (-1, -1), (2, -1), (-1, 1), (2, -2), (0, -1)],
            (Rotation::Right, Rotation::Left) => [(-1, -1), (0, -1), (-1, -1), (-1, -1), (-1, -1), (-1, -1)],
            (Rotation::Down, Rotation::Up) => [(-1, 1), (-1, 0), (-1, 1), (-1, 1), (-1, 1), (-1, 1)],
            (Rotation::Down, Rotation::Right) => [(0, 1), (-2, 1), (1, 1), (-2, 2), (1, -1), (0, 1)],
            (Rotation::Down, Rotation::Left) => [(-1, 0), (1, 0), (-2, 0), (1, 1), (-2, -2), (-1, 0)],
            (Rotation::Left, Rotation::Up) => [(0, 1), (1, 1), (-2, 1), (1, -1), (-2, 2), (0, 1)],
            (Rotation::Left, Rotation::Right) => [(1, 1), (0, 1), (1, 1), (1, 1), (1, 1), (1, 1)],
            (Rotation::Left, Rotation::Down) => [(1, 0), (2, 0), (-1, 0), (2, 2), (-1, -1), (1, 0)],
            (Rotation::Up, Rotation::Right) => [(1, 0), (2, 0), (-1, 0), (-1, -1), (2, 2), (1, 0)],
            (Rotation::Up, Rotation::Left) => [(0, -1), (-1, -1), (2, -1), (2, -2), (-1, 1), (0, -1)],
            (Rotation::Up, Rotation::Down) => [(1, -1), (1, 0), (1, -1), (1, -1), (1, -1), (1, -1)],
            _ => unreached(),
        },
        _ => match (from, to) {
            (Rotation::Right, Rotation::Up) => [(0, 0), (1, 0), (1, -1), (0, 2), (1, 2), (0, 0)],
            (Rotation::Right, Rotation::Down) => [(0, 0), (1, 0), (1, -1), (0, 2), (1, 2), (0, 0)],
            (Rotation::Right, Rotation::Left) => [(0, 0), (1, 0), (1, 2), (1, 1), (0, 2), (0, 1)],
            (Rotation::Down, Rotation::Up) => [(0, 0), (0, -1), (-1, -1), (1, -1), (-1, 0), (1, 0)],
            (Rotation::Down, Rotation::Right) => [(0, 0), (-1, 0), (-1, 1), (0, -2), (-1, -2), (0, 0)],
            (Rotation::Down, Rotation::Left) => [(0, 0), (1, 0), (1, 1), (0, -2), (1, -2), (0, 0)],
            (Rotation::Left, Rotation::Up) => [(0, 0), (-1, 0), (-1, -1), (0, 2), (-1, 2), (0, 0)],
            (Rotation::Left, Rotation::Right) => [(0, 0), (-1, 0), (-1, 2), (-1, 1), (0, 2), (0, 1)],
            (Rotation::Left, Rotation::Down) => [(0, 0), (-1, 0), (-1, -1), (0, 2), (-1, 2), (0, 0)],
            (Rotation::Up, Rotation::Right) => [(0, 0), (-1, 0), (-1, 1), (0, -2), (-1, -2), (0, 0)],
            (Rotation::Up, Rotation::Left) => [(0, 0), (1, 0), (1, 1), (0, -2), (1, -2), (0, 0)],
            (Rotation::Up, Rotation::Down) => [(0, 0), (0, 1), (1, 1), (-1, 1), (1, 0), (-1, 0)],
            _ => unreached(),
        },
    }
}

} // verus!
