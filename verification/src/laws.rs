//! Board-wide guarantees of the engine, stated and proved against the
//! generator's contract.
//!
//! Each law takes the canonical grid `g`, the annotated grid `r` a
//! generator run produced (witnessed by [`moves_post`]), and concludes
//! something a caller can rely on: rays stop at blockers, own pieces are
//! never marked, a pawn touches at most one square, and the mark counts
//! of lone rooks and knights on an open board are exact.

use vstd::prelude::*;

use crate::board::CellState;
use crate::board::Grid;
use crate::board::Side;
use crate::board::cells_unchanged;
use crate::board::in_bounds;
use crate::board::occ_side;
use crate::piece::Direction;
use crate::piece::PieceKind;
use crate::piece::forward;
use crate::piece::knight_offset;
use crate::piece::lemma_ray_injective;
use crate::piece::lemma_ray_misses_origin;
use crate::piece::lemma_rays_disjoint;
use crate::piece::moves_post;
use crate::piece::ray_clear;
use crate::piece::ray_len;
use crate::piece::ray_reach;
use crate::piece::ray_x;
use crate::piece::ray_y;
use crate::piece::sliding_dir;

verus! {

/// Law: a sliding piece's ray never marks a square beyond the first
/// blocking occupant in its direction. If some square `b` steps out
/// blocks the ray, every square strictly beyond it is left exactly as
/// it was.
pub proof fn lemma_ray_stops_at_blocker(
    g: Grid,
    r: Grid,
    x: int,
    y: int,
    kind: PieceKind,
    side: Side,
    d: Direction,
    b: int,
    k: int,
)
    requires
        moves_post(g, r, x, y, kind, side),
        kind is Bishop || kind is Rook || kind is Queen,
        sliding_dir(kind, d),
        1 <= b < k,
        in_bounds(ray_x(x, d, b), ray_y(y, d, b)),
        !(g.at(ray_x(x, d, b), ray_y(y, d, b)) is Empty),
        in_bounds(ray_x(x, d, k), ray_y(y, d, k)),
    ensures
        r.at(ray_x(x, d, k), ray_y(y, d, k)) == g.at(ray_x(x, d, k), ray_y(y, d, k)),
{
    let i = ray_x(x, d, k);
    let j = ray_y(y, d, k);
    assert(!crate::piece::reachable(g, x, y, kind, side, i, j)) by {
        if crate::piece::reachable(g, x, y, kind, side, i, j) {
            let d2 = choose|d2: Direction|
                #[trigger] sliding_dir(kind, d2) && ray_reach(g, x, y, d2, ray_len(kind), i, j);
            let k2 = choose|k2: int|
                1 <= k2 <= ray_len(kind) && #[trigger] ray_x(x, d2, k2) == i && ray_y(y, d2, k2)
                    == j && ray_clear(g, x, y, d2, k2);
            if d2 == d {
                lemma_ray_injective(x, y, d, k2, k);
                assert(g.at(ray_x(x, d, b), ray_y(y, d, b)) is Empty);
            } else {
                lemma_rays_disjoint(x, y, d2, d, k2, k);
            }
        }
    }
}

/// Law: a square occupied by the mover's own side is never marked, by
/// any piece kind: the generator leaves it exactly as it was.
pub proof fn lemma_own_side_never_marked(
    g: Grid,
    r: Grid,
    x: int,
    y: int,
    kind: PieceKind,
    side: Side,
    i: int,
    j: int,
)
    requires
        moves_post(g, r, x, y, kind, side),
        in_bounds(i, j),
        g.at(i, j) is Occupied,
        occ_side(g.at(i, j)) == side,
    ensures
        r.at(i, j) == g.at(i, j),
{
}

/// Law: a pawn marks at most its single forward square. Any square the
/// generator changed is one rank in the side's forward direction, same
/// file.
pub proof fn lemma_pawn_single_forward_square(
    g: Grid,
    r: Grid,
    x: int,
    y: int,
    side: Side,
    i: int,
    j: int,
)
    requires
        moves_post(g, r, x, y, PieceKind::Pawn, side),
        in_bounds(i, j),
        r.at(i, j) != g.at(i, j),
    ensures
        i == x,
        j == y + forward(side),
{
}

/// Law: a pawn whose forward square lies off the board marks nothing.
pub proof fn lemma_pawn_off_board_marks_nothing(g: Grid, r: Grid, x: int, y: int, side: Side)
    requires
        moves_post(g, r, x, y, PieceKind::Pawn, side),
        !in_bounds(x, y + forward(side)),
    ensures
        cells_unchanged(g, r),
{
}

/// The number of move targets in column `c` among rows `0 .. n`.
pub open spec fn column_move_marks(g: Grid, c: int, n: int) -> int
    decreases n,
{
    if n <= 0 {
        0
    } else {
        column_move_marks(g, c, n - 1) + if g.at(c, n - 1) is MoveTarget {
            1int
        } else {
            0int
        }
    }
}

/// The number of move targets in columns `0 .. n`.
pub open spec fn move_marks_through(g: Grid, n: int) -> int
    decreases n,
{
    if n <= 0 {
        0
    } else {
        move_marks_through(g, n - 1) + column_move_marks(g, n - 1, 8)
    }
}

/// The number of move targets on the whole board.
pub open spec fn move_mark_count(g: Grid) -> int {
    move_marks_through(g, 8)
}

/// A column without move targets counts zero.
proof fn lemma_column_none(g: Grid, c: int, n: int)
    requires
        0 <= n <= 8,
        forall|j: int| 0 <= j < 8 ==> !((#[trigger] g.at(c, j)) is MoveTarget),
    ensures
        column_move_marks(g, c, n) == 0,
    decreases n,
{
    if n > 0 {
        lemma_column_none(g, c, n - 1);
    }
}

/// A column whose single move target sits at row `a` counts one.
proof fn lemma_column_single(g: Grid, c: int, a: int, n: int)
    requires
        0 <= a < 8,
        0 <= n <= 8,
        forall|j: int| 0 <= j < 8 ==> (((#[trigger] g.at(c, j)) is MoveTarget) <==> j == a),
    ensures
        column_move_marks(g, c, n) == if a < n {
            1int
        } else {
            0int
        },
    decreases n,
{
    if n > 0 {
        lemma_column_single(g, c, a, n - 1);
    }
}

/// A column whose move targets sit exactly at rows `a` and `b` counts
/// two.
proof fn lemma_column_pair(g: Grid, c: int, a: int, b: int, n: int)
    requires
        0 <= a < 8,
        0 <= b < 8,
        a != b,
        0 <= n <= 8,
        forall|j: int|
            0 <= j < 8 ==> (((#[trigger] g.at(c, j)) is MoveTarget) <==> (j == a || j == b)),
    ensures
        column_move_marks(g, c, n) == (if a < n {
            1int
        } else {
            0int
        }) + (if b < n {
            1int
        } else {
            0int
        }),
    decreases n,
{
    if n > 0 {
        lemma_column_pair(g, c, a, b, n - 1);
    }
}

/// A column marked everywhere but at row `a` counts seven.
proof fn lemma_column_all_but(g: Grid, c: int, a: int, n: int)
    requires
        0 <= a < 8,
        0 <= n <= 8,
        forall|j: int| 0 <= j < 8 ==> (((#[trigger] g.at(c, j)) is MoveTarget) <==> j != a),
    ensures
        column_move_marks(g, c, n) == n - (if a < n {
            1int
        } else {
            0int
        }),
    decreases n,
{
    if n > 0 {
        lemma_column_all_but(g, c, a, n - 1);
    }
}

/// A single piece of the given kind and side stands at `(x, y)`, and
/// every other square is empty.
pub open spec fn lone_piece(g: Grid, x: int, y: int, kind: PieceKind, side: Side) -> bool {
    g.at(x, y) == CellState::Occupied(kind, side) && forall|i: int, j: int|
        in_bounds(i, j) && !(i == x && j == y) ==> (#[trigger] g.at(i, j)) is Empty
}

/// On a board whose every square but the origin is empty, a ray whose
/// `k`-th step lands on the on-board square `(i, j)` reaches it:
/// nothing can block it short of there.
proof fn lemma_open_line_reach(
    g: Grid,
    x: int,
    y: int,
    side: Side,
    d: Direction,
    k: int,
    i: int,
    j: int,
)
    requires
        in_bounds(x, y),
        in_bounds(i, j),
        forall|i2: int, j2: int|
            in_bounds(i2, j2) && !(i2 == x && j2 == y) ==> (#[trigger] g.at(i2, j2)) is Empty,
        1 <= k <= 8,
        ray_x(x, d, k) == i,
        ray_y(y, d, k) == j,
    ensures
        ray_reach(g, x, y, d, 8, i, j),
{
    assert(ray_clear(g, x, y, d, k)) by {
        assert forall|m: int| 1 <= m < k implies in_bounds(ray_x(x, d, m), ray_y(y, d, m)) && (
        #[trigger] g.at(ray_x(x, d, m), ray_y(y, d, m))) is Empty by {
            crate::piece::lemma_ray_between(x, y, d, m, k);
            lemma_ray_misses_origin(x, y, d, m);
        }
    }
}

/// On an otherwise empty board, a rook's marks are exactly the other
/// squares of its rank and file.
pub proof fn lemma_rook_open_board_marks(g: Grid, r: Grid, x: int, y: int, side: Side)
    requires
        in_bounds(x, y),
        lone_piece(g, x, y, PieceKind::Rook, side),
        moves_post(g, r, x, y, PieceKind::Rook, side),
    ensures
        forall|i: int, j: int|
            in_bounds(i, j) ==> (((#[trigger] r.at(i, j)) is MoveTarget) <==> ((i == x || j == y)
                && !(i == x && j == y))),
{
    assert forall|i: int, j: int| in_bounds(i, j) implies (((#[trigger] r.at(i, j)) is MoveTarget)
        <==> ((i == x || j == y) && !(i == x && j == y))) by {
        if r.at(i, j) is MoveTarget {
            // only a reachable square can have become a move target
            assert(crate::piece::reachable(g, x, y, PieceKind::Rook, side, i, j));
            let d = choose|d: Direction|
                #[trigger] sliding_dir(PieceKind::Rook, d) && ray_reach(g, x, y, d, 8, i, j);
            let k = choose|k: int|
                1 <= k <= 8 && #[trigger] ray_x(x, d, k) == i && ray_y(y, d, k) == j && ray_clear(
                    g,
                    x,
                    y,
                    d,
                    k,
                );
            lemma_ray_misses_origin(x, y, d, k);
        }
        if (i == x || j == y) && !(i == x && j == y) {
            if i > x {
                assert(ray_y(y, Direction::East, i - x) == y) by {
                    assert((i - x) * 0 == 0);
                }
                lemma_open_line_reach(g, x, y, side, Direction::East, i - x, i, j);
                assert(sliding_dir(PieceKind::Rook, Direction::East) && ray_reach(
                    g,
                    x,
                    y,
                    Direction::East,
                    8,
                    i,
                    j,
                ));
            } else if i < x {
                assert(ray_x(x, Direction::West, x - i) == i) by {
                    assert(x + (x - i) * (-1) == i);
                }
                lemma_open_line_reach(g, x, y, side, Direction::West, x - i, i, j);
                assert(sliding_dir(PieceKind::Rook, Direction::West) && ray_reach(
                    g,
                    x,
                    y,
                    Direction::West,
                    8,
                    i,
                    j,
                ));
            } else if j > y {
                lemma_open_line_reach(g, x, y, side, Direction::South, j - y, i, j);
                assert(sliding_dir(PieceKind::Rook, Direction::South) && ray_reach(
                    g,
                    x,
                    y,
                    Direction::South,
                    8,
                    i,
                    j,
                ));
            } else {
                assert(ray_y(y, Direction::North, y - j) == j) by {
                    assert(y + (y - j) * (-1) == j);
                }
                lemma_open_line_reach(g, x, y, side, Direction::North, y - j, i, j);
                assert(sliding_dir(PieceKind::Rook, Direction::North) && ray_reach(
                    g,
                    x,
                    y,
                    Direction::North,
                    8,
                    i,
                    j,
                ));
            }
            assert(crate::piece::reachable(g, x, y, PieceKind::Rook, side, i, j));
            assert(g.at(i, j) is Empty);
        }
    }
}

/// Column totals of the shape a lone rook leaves: seven in its own
/// file, one everywhere else.
proof fn lemma_total_rook_columns(g: Grid, x: int, n: int)
    requires
        0 <= x < 8,
        0 <= n <= 8,
        forall|c: int|
            0 <= c < 8 ==> column_move_marks(g, c, 8) == (if c == x {
                7int
            } else {
                1int
            }),
    ensures
        move_marks_through(g, n) == if x < n {
            n + 6
        } else {
            n
        },
    decreases n,
{
    if n > 0 {
        lemma_total_rook_columns(g, x, n - 1);
    }
}

/// Law: a rook on an otherwise empty board marks exactly fourteen
/// squares, wherever it stands: the seven other squares of its file and
/// the seven other squares of its rank.
pub proof fn lemma_rook_open_board_fourteen(g: Grid, r: Grid, x: int, y: int, side: Side)
    requires
        in_bounds(x, y),
        lone_piece(g, x, y, PieceKind::Rook, side),
        moves_post(g, r, x, y, PieceKind::Rook, side),
    ensures
        move_mark_count(r) == 14,
{
    lemma_rook_open_board_marks(g, r, x, y, side);
    assert forall|c: int| 0 <= c < 8 implies column_move_marks(r, c, 8) == (if c == x {
        7int
    } else {
        1int
    }) by {
        if c == x {
            lemma_column_all_but(r, c, y, 8);
        } else {
            lemma_column_single(r, c, y, 8);
        }
    }
    lemma_total_rook_columns(r, x, 8);
}

/// On an otherwise empty board, a knight's marks are exactly the
/// on-board squares a knight's jump away.
pub proof fn lemma_knight_open_board_marks(g: Grid, r: Grid, x: int, y: int, side: Side)
    requires
        in_bounds(x, y),
        lone_piece(g, x, y, PieceKind::Knight, side),
        moves_post(g, r, x, y, PieceKind::Knight, side),
    ensures
        forall|i: int, j: int|
            in_bounds(i, j) ==> (((#[trigger] r.at(i, j)) is MoveTarget) <==> knight_offset(
                x,
                y,
                i,
                j,
            )),
{
    assert forall|i: int, j: int| in_bounds(i, j) implies (((#[trigger] r.at(i, j)) is MoveTarget)
        <==> knight_offset(x, y, i, j)) by {
        if knight_offset(x, y, i, j) {
            assert(!(i == x && j == y));
            assert(g.at(i, j) is Empty);
        }
    }
}

/// Column totals of the shape a centred knight leaves: two in each of
/// the four columns it can jump into, none elsewhere.
proof fn lemma_total_knight_columns(g: Grid, x: int, n: int)
    requires
        2 <= x <= 5,
        0 <= n <= 8,
        forall|c: int|
            0 <= c < 8 ==> column_move_marks(g, c, 8) == (if c == x - 2 || c == x - 1 || c == x + 1
                || c == x + 2 {
                2int
            } else {
                0int
            }),
    ensures
        move_marks_through(g, n) == 2 * ((if x - 2 < n {
            1int
        } else {
            0int
        }) + (if x - 1 < n {
            1int
        } else {
            0int
        }) + (if x + 1 < n {
            1int
        } else {
            0int
        }) + (if x + 2 < n {
            1int
        } else {
            0int
        })),
    decreases n,
{
    if n > 0 {
        lemma_total_knight_columns(g, x, n - 1);
    }
}

/// Law: a knight at least two squares from every edge, alone on the
/// board, marks exactly eight squares.
pub proof fn lemma_knight_interior_eight(g: Grid, r: Grid, x: int, y: int, side: Side)
    requires
        2 <= x <= 5,
        2 <= y <= 5,
        lone_piece(g, x, y, PieceKind::Knight, side),
        moves_post(g, r, x, y, PieceKind::Knight, side),
    ensures
        move_mark_count(r) == 8,
{
    lemma_knight_open_board_marks(g, r, x, y, side);
    assert forall|c: int| 0 <= c < 8 implies column_move_marks(r, c, 8) == (if c == x - 2 || c == x
        - 1 || c == x + 1 || c == x + 2 {
        2int
    } else {
        0int
    }) by {
        if c == x - 2 || c == x + 2 {
            lemma_column_pair(r, c, y - 1, y + 1, 8);
        } else if c == x - 1 || c == x + 1 {
            lemma_column_pair(r, c, y - 2, y + 2, 8);
        } else {
            lemma_column_none(r, c, 8);
        }
    }
    lemma_total_knight_columns(r, x, 8);
}

/// Column totals with exactly one mark in each of two columns.
proof fn lemma_total_two_columns(g: Grid, c1: int, c2: int, n: int)
    requires
        0 <= c1 < c2 < 8,
        0 <= n <= 8,
        forall|c: int|
            0 <= c < 8 ==> column_move_marks(g, c, 8) == (if c == c1 || c == c2 {
                1int
            } else {
                0int
            }),
    ensures
        move_marks_through(g, n) == (if c1 < n {
            1int
        } else {
            0int
        }) + (if c2 < n {
            1int
        } else {
            0int
        }),
    decreases n,
{
    if n > 0 {
        lemma_total_two_columns(g, c1, c2, n - 1);
    }
}

/// Law: a knight in a corner, alone on the board, marks exactly two
/// squares.
pub proof fn lemma_knight_corner_two(g: Grid, r: Grid, x: int, y: int, side: Side)
    requires
        x == 0 || x == 7,
        y == 0 || y == 7,
        lone_piece(g, x, y, PieceKind::Knight, side),
        moves_post(g, r, x, y, PieceKind::Knight, side),
    ensures
        move_mark_count(r) == 2,
{
    lemma_knight_open_board_marks(g, r, x, y, side);
    let c1 = if x == 0 {
        1int
    } else {
        5int
    };
    let c2 = if x == 0 {
        2int
    } else {
        6int
    };
    let a1 = if x == 0 {
        if y == 0 {
            2int
        } else {
            5int
        }
    } else {
        if y == 0 {
            1int
        } else {
            6int
        }
    };
    let a2 = if x == 0 {
        if y == 0 {
            1int
        } else {
            6int
        }
    } else {
        if y == 0 {
            2int
        } else {
            5int
        }
    };
    assert forall|c: int| 0 <= c < 8 implies column_move_marks(r, c, 8) == (if c == c1 || c == c2 {
        1int
    } else {
        0int
    }) by {
        if c == c1 {
            lemma_column_single(r, c, a1, 8);
        } else if c == c2 {
            lemma_column_single(r, c, a2, 8);
        } else {
            lemma_column_none(r, c, 8);
        }
    }
    lemma_total_two_columns(r, c1, c2, 8);
}

} // verus!
