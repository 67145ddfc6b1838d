//! The grid: bounds-checked storage of cell states, placement of pieces,
//! and the marking operation the move generator drives.

use vstd::prelude::*;

use crate::piece::PieceKind;
use crate::piece::add_moves_to_board;
use crate::piece::lemma_moves_post_congruence;
use crate::piece::moves_post;

verus! {

/// One of the two logical players. Ownership is independent of the
/// rendering color; the grid records which color each side plays.
#[derive(Clone, Copy, Debug, PartialEq, Eq, Structural)]
pub enum Side {
    You,
    Opponent,
}

/// The display attribute assigned to a side at grid construction.
#[derive(Clone, Copy, Debug, PartialEq, Eq, Structural)]
pub enum Color {
    Black,
    White,
}

/// The tagged state of one square.
///
/// `MoveTarget` and `HitTarget` are transient annotations: the move
/// generator writes them onto a cloned grid only, never onto the
/// canonical one.
#[derive(Clone, Copy, Debug, PartialEq, Eq, Structural)]
pub enum CellState {
    Empty,
    Occupied(PieceKind, Side),
    MoveTarget,
    HitTarget(PieceKind, Side),
}

/// The two invariant violations an operation can reject.
#[derive(Clone, Copy, Debug, PartialEq, Eq, Structural)]
pub enum GridError {
    OutOfBounds,
    CellNotEmpty,
}

/// True iff `(x, y)` lies on the 8x8 board.
pub open spec fn in_bounds(x: int, y: int) -> bool {
    0 <= x < 8 && 0 <= y < 8
}

/// A state the marking operation may evaluate: never an annotation.
pub open spec fn markable(c: CellState) -> bool {
    c is Empty || c is Occupied
}

/// The owning side of an occupied or hit cell.
pub open spec fn occ_side(c: CellState) -> Side {
    match c {
        CellState::Occupied(_, side) => side,
        CellState::HitTarget(_, side) => side,
        _ => Side::You,
    }
}

/// The value a cell takes when the generator marks it for a mover of
/// side `mover`: an empty square becomes a move target, an opposing
/// piece becomes a hit target, and an own-side piece is left untouched.
pub open spec fn marked(c: CellState, mover: Side) -> CellState {
    match c {
        CellState::Empty => CellState::MoveTarget,
        CellState::Occupied(kind, side) => if side == mover {
            c
        } else {
            CellState::HitTarget(kind, side)
        },
        _ => c,
    }
}

/// The back-rank piece standing on file `x` in the canonical opening
/// layout: Rook, Knight, Bishop, Queen, King, Bishop, Knight, Rook from
/// the a-file to the h-file.
pub open spec fn back_rank_kind(x: int) -> PieceKind {
    if x == 0 || x == 7 {
        PieceKind::Rook
    } else if x == 1 || x == 6 {
        PieceKind::Knight
    } else if x == 2 || x == 5 {
        PieceKind::Bishop
    } else if x == 3 {
        PieceKind::Queen
    } else {
        PieceKind::King
    }
}

/// The cell at `(x, y)` in the canonical opening layout: the opponent's
/// back rank and pawn rank on rows 0 and 1, yours mirrored on rows 7
/// and 6, everything else empty.
pub open spec fn standard_cell(x: int, y: int) -> CellState {
    if y == 0 {
        CellState::Occupied(back_rank_kind(x), Side::Opponent)
    } else if y == 1 {
        CellState::Occupied(PieceKind::Pawn, Side::Opponent)
    } else if y == 6 {
        CellState::Occupied(PieceKind::Pawn, Side::You)
    } else if y == 7 {
        CellState::Occupied(back_rank_kind(x), Side::You)
    } else {
        CellState::Empty
    }
}

/// The back-rank piece standing on file `x` in the canonical opening
/// layout.
pub fn back_rank(x: i8) -> (r: PieceKind)
    requires
        0 <= x < 8,
    ensures
        r == back_rank_kind(x as int),
{
    if x == 0 || x == 7 {
        PieceKind::Rook
    } else if x == 1 || x == 6 {
        PieceKind::Knight
    } else if x == 2 || x == 5 {
        PieceKind::Bishop
    } else if x == 3 {
        PieceKind::Queen
    } else {
        PieceKind::King
    }
}

/// An 8x8 grid of cell states plus the fixed side-to-color mapping.
pub struct Grid {
    cells: Vec<CellState>,
    you_color: Color,
    opponent_color: Color,
}

/// Every in-bounds cell of `post` equals the one of `pre`.
pub open spec fn cells_unchanged(pre: Grid, post: Grid) -> bool {
    forall|i: int, j: int| in_bounds(i, j) ==> pre.at(i, j) == #[trigger] post.at(i, j)
}

/// Every in-bounds cell of `post` other than `(x, y)` equals the one of `pre`.
pub open spec fn unchanged_except(pre: Grid, post: Grid, x: int, y: int) -> bool {
    forall|i: int, j: int|
        in_bounds(i, j) && !(i == x && j == y) ==> pre.at(i, j) == #[trigger] post.at(i, j)
}

impl Grid {
    /// The grid holds exactly one cell per board square.
    pub closed spec fn wf(self) -> bool {
        self.cells@.len() == 64
    }

    /// The state of the square at `(x, y)`, column-major.
    pub closed spec fn at(self, x: int, y: int) -> CellState {
        self.cells@[x * 8 + y]
    }

    /// The color the given side plays.
    pub closed spec fn spec_color_of(self, side: Side) -> Color {
        match side {
            Side::You => self.you_color,
            Side::Opponent => self.opponent_color,
        }
    }

    /// Both side-to-color assignments agree with `other`'s.
    pub open spec fn same_colors(self, other: Grid) -> bool {
        self.spec_color_of(Side::You) == other.spec_color_of(Side::You)
            && self.spec_color_of(Side::Opponent) == other.spec_color_of(Side::Opponent)
    }

    /// No cell carries a transient annotation.
    pub open spec fn clean(self) -> bool {
        forall|x: int, y: int| in_bounds(x, y) ==> markable(#[trigger] self.at(x, y))
    }

    /// Every cell is empty.
    pub open spec fn all_empty(self) -> bool {
        forall|x: int, y: int| in_bounds(x, y) ==> (#[trigger] self.at(x, y)) is Empty
    }

    /// Allocates an 8x8 grid of empty cells and records the two color
    /// assignments. No pieces are placed.
    pub fn new(you_color: Color, opponent_color: Color) -> (r: Grid)
        ensures
            r.wf(),
            r.all_empty(),
            r.spec_color_of(Side::You) == you_color,
            r.spec_color_of(Side::Opponent) == opponent_color,
    {
        let mut cells: Vec<CellState> = Vec::new();
        let mut i: usize = 0;
        while i < 64
            invariant
                i <= 64,
                cells@.len() == i,
                forall|k: int| 0 <= k < i ==> (#[trigger] cells@[k]) is Empty,
            decreases 64 - i,
        {
            cells.push(CellState::Empty);
            i = i + 1;
        }
        let r = Grid { cells, you_color, opponent_color };
        proof {
            assert forall|x: int, y: int| in_bounds(x, y) implies (#[trigger] r.at(x, y)) is Empty by {
                assert(0 <= x * 8 + y < 64);
            }
        }
        r
    }

    /// The board width in squares.
    pub fn width(&self) -> (r: i8)
        ensures
            r == 8,
    {
        8
    }

    /// The board height in squares.
    pub fn height(&self) -> (r: i8)
        ensures
            r == 8,
    {
        8
    }

    /// True iff `(x, y)` lies on the board: both components non-negative
    /// and below the respective dimension. This is the single
    /// bounds-safety gate for the whole component; callers validate
    /// coordinates here before any other operation.
    pub fn is_in_bounds(&self, x: i8, y: i8) -> (r: bool)
        ensures
            r == in_bounds(x as int, y as int),
    {
        x >= 0 && x < 8 && y >= 0 && y < 8
    }

    /// The color the given side plays.
    pub fn color_of(&self, side: Side) -> (r: Color)
        ensures
            r == self.spec_color_of(side),
    {
        match side {
            Side::You => self.you_color,
            Side::Opponent => self.opponent_color,
        }
    }

    /// A read-only view of the square at `(x, y)`.
    pub fn get(&self, x: i8, y: i8) -> (r: CellState)
        requires
            self.wf(),
            in_bounds(x as int, y as int),
        ensures
            r == self.at(x as int, y as int),
    {
        let idx: usize = (x as usize) * 8 + (y as usize);
        self.cells[idx]
    }

    /// Overwrites the square at `(x, y)`.
    fn set(&mut self, x: i8, y: i8, c: CellState)
        requires
            old(self).wf(),
            in_bounds(x as int, y as int),
        ensures
            final(self).wf(),
            final(self).same_colors(*old(self)),
            final(self).at(x as int, y as int) == c,
            unchanged_except(*old(self), *final(self), x as int, y as int),
    {
        let idx: usize = (x as usize) * 8 + (y as usize);
        self.cells.set(idx, c);
        proof {
            assert forall|i: int, j: int|
                in_bounds(i, j) && !(i == x as int && j == y as int) implies old(self).at(i, j)
                == #[trigger] self.at(i, j) by {
                assert(0 <= i * 8 + j < 64);
                assert(i * 8 + j != x as int * 8 + y as int);
            }
        }
    }

    /// Places a piece on an empty square.
    ///
    /// Succeeds exactly when the coordinate is on the board and the
    /// target cell is empty; an out-of-bounds coordinate or an occupied
    /// or annotated cell is rejected and the grid is left untouched.
    pub fn place_piece(&mut self, x: i8, y: i8, side: Side, kind: PieceKind) -> (r: Result<
        (),
        GridError,
    >)
        requires
            old(self).wf(),
        ensures
            final(self).wf(),
            final(self).same_colors(*old(self)),
            r is Ok <==> in_bounds(x as int, y as int) && old(self).at(x as int, y as int)
                is Empty,
            r is Ok ==> final(self).at(x as int, y as int) == CellState::Occupied(kind, side)
                && unchanged_except(*old(self), *final(self), x as int, y as int),
            r is Err ==> cells_unchanged(*old(self), *final(self)),
            !in_bounds(x as int, y as int) ==> r == Result::<(), GridError>::Err(
                GridError::OutOfBounds,
            ),
            in_bounds(x as int, y as int) && !(old(self).at(x as int, y as int) is Empty) ==> r
                == Result::<(), GridError>::Err(GridError::CellNotEmpty),
    {
        if !self.is_in_bounds(x, y) {
            return Err(GridError::OutOfBounds);
        }
        let cell = self.get(x, y);
        match cell {
            CellState::Empty => {
                self.set(x, y, CellState::Occupied(kind, side));
                Ok(())
            },
            _ => Err(GridError::CellNotEmpty),
        }
    }

    /// Marks the square at `(x, y)` as reachable by the piece standing at
    /// `(mover_x, mover_y)`: an empty square becomes a move target, an
    /// opposing piece a hit target, an own-side piece is left untouched.
    ///
    /// Returns true iff the target square is occupied, i.e. a ray walking
    /// through it must stop here.
    pub fn mark_move_or_capture(&mut self, mover_x: i8, mover_y: i8, x: i8, y: i8) -> (r: bool)
        requires
            old(self).wf(),
            in_bounds(mover_x as int, mover_y as int),
            in_bounds(x as int, y as int),
            old(self).at(mover_x as int, mover_y as int) is Occupied,
            markable(old(self).at(x as int, y as int)),
        ensures
            final(self).wf(),
            final(self).same_colors(*old(self)),
            unchanged_except(*old(self), *final(self), x as int, y as int),
            final(self).at(x as int, y as int) == marked(
                old(self).at(x as int, y as int),
                occ_side(old(self).at(mover_x as int, mover_y as int)),
            ),
            r == (old(self).at(x as int, y as int) is Occupied),
    {
        let mover = self.get(mover_x, mover_y);
        let target = self.get(x, y);
        match (mover, target) {
            (_, CellState::Empty) => {
                self.set(x, y, CellState::MoveTarget);
                false
            },
            (CellState::Occupied(_, mover_side), CellState::Occupied(kind, side)) => {
                if mover_side == side {
                    true
                } else {
                    self.set(x, y, CellState::HitTarget(kind, side));
                    true
                }
            },
            _ => {
                proof {
                    assert(false);
                }
                true
            },
        }
    }

    /// Allocates an 8x8 grid and places the canonical opening layout:
    /// each side's back rank and full pawn rank, the two sides mirrored
    /// across the middle of the board.
    pub fn new_standard_formation(you_color: Color, opponent_color: Color) -> (r: Grid)
        ensures
            r.wf(),
            r.spec_color_of(Side::You) == you_color,
            r.spec_color_of(Side::Opponent) == opponent_color,
            forall|x: int, y: int| in_bounds(x, y) ==> #[trigger] r.at(x, y) == standard_cell(x, y),
    {
        let mut g = Grid::new(you_color, opponent_color);
        let mut x: i8 = 0;
        while x < 8
            invariant
                g.wf(),
                g.spec_color_of(Side::You) == you_color,
                g.spec_color_of(Side::Opponent) == opponent_color,
                0 <= x <= 8,
                forall|i: int, j: int|
                    in_bounds(i, j) ==> #[trigger] g.at(i, j) == if i < x {
                        standard_cell(i, j)
                    } else {
                        CellState::Empty
                    },
            decreases 8 - x,
        {
            let kind = back_rank(x);
            let r1 = g.place_piece(x, 0, Side::Opponent, kind);
            let r2 = g.place_piece(x, 1, Side::Opponent, PieceKind::Pawn);
            let r3 = g.place_piece(x, 6, Side::You, PieceKind::Pawn);
            let r4 = g.place_piece(x, 7, Side::You, kind);
            proof {
                assert(r1 is Ok && r2 is Ok && r3 is Ok && r4 is Ok);
            }
            x = x + 1;
        }
        g
    }

    /// The grid annotated with everything the piece at `(x, y)` can do.
    ///
    /// Clones the grid; if the queried cell holds no piece, returns the
    /// unannotated clone unchanged. Otherwise the per-kind algorithm
    /// marks, on the clone, every square the piece can move to as a move
    /// target and every capturable square as a hit target. The canonical
    /// grid is never touched: annotations live on the returned copy
    /// alone.
    pub fn moves_for(&self, x: i8, y: i8) -> (r: Grid)
        requires
            self.wf(),
            self.clean(),
            in_bounds(x as int, y as int),
        ensures
            r.wf(),
            r.same_colors(*self),
            self.at(x as int, y as int) matches CellState::Occupied(kind, side) ==> moves_post(
                *self,
                r,
                x as int,
                y as int,
                kind,
                side,
            ),
            !(self.at(x as int, y as int) is Occupied) ==> cells_unchanged(*self, r),
    {
        let mut board = self.duplicate();
        let cell = self.get(x, y);
        match cell {
            CellState::Occupied(kind, side) => {
                proof {
                    assert forall|i: int, j: int| in_bounds(i, j) implies markable(
                        #[trigger] board.at(i, j),
                    ) by {
                        assert(board.at(i, j) == self.at(i, j));
                    }
                }
                let ghost pre = board;
                add_moves_to_board(x, y, side, kind, &mut board);
                proof {
                    assert(cells_unchanged(pre, *self));
                    lemma_moves_post_congruence(
                        pre,
                        *self,
                        board,
                        x as int,
                        y as int,
                        kind,
                        side,
                    );
                }
            },
            _ => {},
        }
        board
    }

    /// A full copy of the grid: same cells, same color assignments.
    pub fn duplicate(&self) -> (r: Grid)
        requires
            self.wf(),
        ensures
            r.wf(),
            r.same_colors(*self),
            cells_unchanged(*self, r),
    {
        let mut cells: Vec<CellState> = Vec::new();
        let mut i: usize = 0;
        while i < 64
            invariant
                self.wf(),
                i <= 64,
                cells@.len() == i,
                forall|k: int| 0 <= k < i ==> cells@[k] == self.cells@[k],
            decreases 64 - i,
        {
            cells.push(self.cells[i]);
            i = i + 1;
        }
        let r = Grid { cells, you_color: self.you_color, opponent_color: self.opponent_color };
        proof {
            assert forall|i: int, j: int| in_bounds(i, j) implies self.at(i, j) == #[trigger] r.at(
                i,
                j,
            ) by {
                assert(0 <= i * 8 + j < 64);
            }
        }
        r
    }
}

} // verus!
