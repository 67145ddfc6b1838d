//! The move generator: per-piece-kind walks over the grid that mark
//! reachable and capturable squares on a copy of the canonical grid.

use vstd::prelude::*;

use crate::board::CellState;
use crate::board::Grid;
use crate::board::Side;
use crate::board::in_bounds;
use crate::board::markable;
use crate::board::marked;
use crate::board::occ_side;

verus! {

/// The movement-rule selector. A kind carries no state of its own.
#[derive(Clone, Copy, Debug, PartialEq, Eq, Structural)]
pub enum PieceKind {
    Bishop,
    King,
    Knight,
    Pawn,
    Queen,
    Rook,
}

/// The two-letter code a cell dump renders the given kind as.
pub open spec fn symbol_spec(kind: PieceKind) -> Seq<char> {
    match kind {
        PieceKind::Bishop => "BI"@,
        PieceKind::King => "KI"@,
        PieceKind::Knight => "KN"@,
        PieceKind::Pawn => "PA"@,
        PieceKind::Queen => "QU"@,
        PieceKind::Rook => "RO"@,
    }
}

/// The two-letter code a cell dump renders the given kind as.
pub fn get_symbol(kind: PieceKind) -> (r: &'static str)
    ensures
        r@ == symbol_spec(kind),
{
    match kind {
        PieceKind::Bishop => "BI",
        PieceKind::King => "KI",
        PieceKind::Knight => "KN",
        PieceKind::Pawn => "PA",
        PieceKind::Queen => "QU",
        PieceKind::Rook => "RO",
    }
}

/// A unit direction a ray extends along.
#[derive(Clone, Copy, Debug, PartialEq, Eq, Structural)]
pub enum Direction {
    North,
    NorthEast,
    East,
    SouthEast,
    South,
    SouthWest,
    West,
    NorthWest,
}

/// The file component of one step along `d`.
pub open spec fn dir_dx(d: Direction) -> int {
    match d {
        Direction::North => 0,
        Direction::NorthEast => 1,
        Direction::East => 1,
        Direction::SouthEast => 1,
        Direction::South => 0,
        Direction::SouthWest => -1,
        Direction::West => -1,
        Direction::NorthWest => -1,
    }
}

/// The row component of one step along `d`. Row indices grow southward.
pub open spec fn dir_dy(d: Direction) -> int {
    match d {
        Direction::North => -1,
        Direction::NorthEast => -1,
        Direction::East => 0,
        Direction::SouthEast => 1,
        Direction::South => 1,
        Direction::SouthWest => 1,
        Direction::West => 0,
        Direction::NorthWest => -1,
    }
}

/// A diagonal direction: the ones a bishop extends along.
pub open spec fn diagonal(d: Direction) -> bool {
    d is NorthEast || d is SouthEast || d is SouthWest || d is NorthWest
}

/// An orthogonal direction: the ones a rook extends along.
pub open spec fn orthogonal(d: Direction) -> bool {
    d is North || d is East || d is South || d is West
}

/// The file of the square `k` steps from `x` along `d`.
pub open spec fn ray_x(x: int, d: Direction, k: int) -> int {
    x + k * dir_dx(d)
}

/// The row of the square `k` steps from `y` along `d`.
pub open spec fn ray_y(y: int, d: Direction, k: int) -> int {
    y + k * dir_dy(d)
}

/// Every square strictly between the origin and the `k`-th step along
/// `d` is on the board and empty: nothing blocks the ray short of `k`.
pub open spec fn ray_clear(g: Grid, x: int, y: int, d: Direction, k: int) -> bool {
    forall|j: int|
        1 <= j < k ==> in_bounds(ray_x(x, d, j), ray_y(y, d, j)) && (#[trigger] g.at(
            ray_x(x, d, j),
            ray_y(y, d, j),
        )) is Empty
}

/// `(i, j)` is one of the first `len` steps along `d` from `(x, y)`.
pub open spec fn on_ray(x: int, y: int, d: Direction, len: int, i: int, j: int) -> bool {
    exists|k: int| 1 <= k <= len && #[trigger] ray_x(x, d, k) == i && ray_y(y, d, k) == j
}

/// A ray of length `len` from `(x, y)` along `d` evaluates the square
/// `(i, j)`: the square is some `k`-th step, and no blocker stands
/// strictly before it.
pub open spec fn ray_reach(g: Grid, x: int, y: int, d: Direction, len: int, i: int, j: int) -> bool {
    exists|k: int|
        1 <= k <= len && #[trigger] ray_x(x, d, k) == i && ray_y(y, d, k) == j && ray_clear(
            g,
            x,
            y,
            d,
            k,
        )
}

/// `(i, j)` is a knight's jump away from `(x, y)`: one of the eight
/// relative offsets combining one and two squares.
pub open spec fn knight_offset(x: int, y: int, i: int, j: int) -> bool {
    ||| (i == x + 1 && j == y - 2)
    ||| (i == x + 2 && j == y - 1)
    ||| (i == x + 2 && j == y + 1)
    ||| (i == x + 1 && j == y + 2)
    ||| (i == x - 1 && j == y + 2)
    ||| (i == x - 2 && j == y + 1)
    ||| (i == x - 2 && j == y - 1)
    ||| (i == x - 1 && j == y - 2)
}

/// The row step a pawn of the given side moves by: your pawns walk
/// toward row 0, the opponent's toward row 7.
pub open spec fn forward(side: Side) -> int {
    match side {
        Side::You => -1,
        Side::Opponent => 1,
    }
}

/// The directions a sliding walk of the given kind extends along.
/// A king walks the orthogonals too, just with length one.
pub open spec fn sliding_dir(kind: PieceKind, d: Direction) -> bool {
    match kind {
        PieceKind::Bishop => diagonal(d),
        PieceKind::Rook => orthogonal(d),
        PieceKind::Queen => true,
        PieceKind::King => orthogonal(d),
        _ => false,
    }
}

/// The per-direction length limit of the given kind's walk: one step
/// for a king, the full board span for the sliding pieces.
pub open spec fn ray_len(kind: PieceKind) -> int {
    if kind is King {
        1
    } else {
        8
    }
}

/// The generator, run for a piece of `kind` and `side` at `(x, y)` on
/// grid `g`, evaluates the square `(i, j)`.
pub open spec fn reachable(
    g: Grid,
    x: int,
    y: int,
    kind: PieceKind,
    side: Side,
    i: int,
    j: int,
) -> bool {
    in_bounds(i, j) && match kind {
        PieceKind::Knight => knight_offset(x, y, i, j),
        PieceKind::Pawn => i == x && j == y + forward(side),
        _ => exists|d: Direction|
            #[trigger] sliding_dir(kind, d) && ray_reach(g, x, y, d, ray_len(kind), i, j),
    }
}

/// The full effect of one generator run: every evaluated square of `r`
/// carries its mark, every other square is unchanged from `g`.
pub open spec fn moves_post(
    g: Grid,
    r: Grid,
    x: int,
    y: int,
    kind: PieceKind,
    side: Side,
) -> bool {
    forall|i: int, j: int|
        in_bounds(i, j) ==> #[trigger] r.at(i, j) == (if reachable(g, x, y, kind, side, i, j) {
            marked(g.at(i, j), side)
        } else {
            g.at(i, j)
        })
}

/// Distinct step counts along one direction land on distinct squares.
pub proof fn lemma_ray_injective(x: int, y: int, d: Direction, k1: int, k2: int)
    requires
        ray_x(x, d, k1) == ray_x(x, d, k2),
        ray_y(y, d, k1) == ray_y(y, d, k2),
    ensures
        k1 == k2,
{
    assert(k1 * dir_dx(d) == k2 * dir_dx(d) && k1 * dir_dy(d) == k2 * dir_dy(d));
}

/// No step of a ray lands back on its origin.
pub proof fn lemma_ray_misses_origin(x: int, y: int, d: Direction, k: int)
    requires
        k >= 1,
    ensures
        !(ray_x(x, d, k) == x && ray_y(y, d, k) == y),
{
    assert(dir_dx(d) != 0 || dir_dy(d) != 0);
}

/// Rays cast along distinct directions share no square.
pub proof fn lemma_rays_disjoint(x: int, y: int, d1: Direction, d2: Direction, k1: int, k2: int)
    requires
        d1 != d2,
        k1 >= 1,
        k2 >= 1,
    ensures
        !(ray_x(x, d1, k1) == ray_x(x, d2, k2) && ray_y(y, d1, k1) == ray_y(y, d2, k2)),
{
    assert(k1 * dir_dx(d1) == k1 * dir_dx(d1) && k2 * dir_dx(d2) == k2 * dir_dx(d2));
}

/// Once a ray from an on-board square steps off the board, it never
/// steps back on.
pub proof fn lemma_ray_stays_off_board(x: int, y: int, d: Direction, k1: int, k2: int)
    requires
        in_bounds(x, y),
        1 <= k1 <= k2,
        !in_bounds(ray_x(x, d, k1), ray_y(y, d, k1)),
    ensures
        !in_bounds(ray_x(x, d, k2), ray_y(y, d, k2)),
{
}

/// A ray's squares lie between its origin and any later square, in
/// both coordinates.
pub proof fn lemma_ray_between(x: int, y: int, d: Direction, m: int, k: int)
    requires
        0 <= m <= k,
    ensures
        (x <= ray_x(x, d, m) <= ray_x(x, d, k)) || (ray_x(x, d, k) <= ray_x(x, d, m) <= x),
        (y <= ray_y(y, d, m) <= ray_y(y, d, k)) || (ray_y(y, d, k) <= ray_y(y, d, m) <= y),
{
    let dx = dir_dx(d);
    let dy = dir_dy(d);
    assert((x <= x + m * dx <= x + k * dx) || (x + k * dx <= x + m * dx <= x))
        by (nonlinear_arith)
        requires
            0 <= m <= k,
            -1 <= dx <= 1,
    ;
    assert((y <= y + m * dy <= y + k * dy) || (y + k * dy <= y + m * dy <= y))
        by (nonlinear_arith)
        requires
            0 <= m <= k,
            -1 <= dy <= 1,
    ;
}

/// The unit step of the given direction.
fn step_of(d: Direction) -> (r: (i8, i8))
    ensures
        r.0 as int == dir_dx(d),
        r.1 as int == dir_dy(d),
{
    match d {
        Direction::North => (0, -1),
        Direction::NorthEast => (1, -1),
        Direction::East => (1, 0),
        Direction::SouthEast => (1, 1),
        Direction::South => (0, 1),
        Direction::SouthWest => (-1, 1),
        Direction::West => (-1, 0),
        Direction::NorthWest => (-1, -1),
    }
}

/// Extends a single ray from `(x, y)` along `d`, marking each square in
/// turn until the board edge, a blocker, or the length limit stops it.
fn add_moves_by_direction_and_length(x: i8, y: i8, d: Direction, len: i8, board: &mut Grid)
    requires
        old(board).wf(),
        in_bounds(x as int, y as int),
        old(board).at(x as int, y as int) is Occupied,
        1 <= len <= 8,
        forall|k: int|
            1 <= k <= len && in_bounds(ray_x(x as int, d, k), ray_y(y as int, d, k)) ==> markable(
                #[trigger] old(board).at(ray_x(x as int, d, k), ray_y(y as int, d, k)),
            ),
    ensures
        final(board).wf(),
        final(board).same_colors(*old(board)),
        forall|k: int|
            1 <= k <= len && in_bounds(ray_x(x as int, d, k), ray_y(y as int, d, k))
                ==> #[trigger] final(board).at(ray_x(x as int, d, k), ray_y(y as int, d, k)) == (
            if ray_clear(*old(board), x as int, y as int, d, k) {
                marked(
                    old(board).at(ray_x(x as int, d, k), ray_y(y as int, d, k)),
                    occ_side(old(board).at(x as int, y as int)),
                )
            } else {
                old(board).at(ray_x(x as int, d, k), ray_y(y as int, d, k))
            }),
        forall|i: int, j: int|
            in_bounds(i, j) && !on_ray(x as int, y as int, d, len as int, i, j)
                ==> #[trigger] final(board).at(i, j) == old(board).at(i, j),
{
    let ghost g0 = *board;
    let ghost xi = x as int;
    let ghost yi = y as int;
    let ghost side = occ_side(g0.at(xi, yi));
    let (dx, dy) = step_of(d);
    let mut cx: i8 = x;
    let mut cy: i8 = y;
    let mut k: i8 = 1;
    let mut done: bool = false;
    while !done && k <= len
        invariant
            board.wf(),
            board.same_colors(g0),
            xi == x as int,
            yi == y as int,
            side == occ_side(g0.at(xi, yi)),
            in_bounds(xi, yi),
            1 <= len <= 8,
            forall|m: int|
                1 <= m <= len && in_bounds(ray_x(xi, d, m), ray_y(yi, d, m)) ==> markable(
                    #[trigger] g0.at(ray_x(xi, d, m), ray_y(yi, d, m)),
                ),
            dx as int == dir_dx(d),
            dy as int == dir_dy(d),
            1 <= k <= len + 1,
            cx as int == ray_x(xi, d, k - 1),
            cy as int == ray_y(yi, d, k - 1),
            in_bounds(cx as int, cy as int),
            board.at(xi, yi) == g0.at(xi, yi),
            g0.at(xi, yi) is Occupied,
            !done ==> ray_clear(g0, xi, yi, d, k as int),
            forall|m: int|
                1 <= m < k && in_bounds(ray_x(xi, d, m), ray_y(yi, d, m))
                    ==> #[trigger] board.at(ray_x(xi, d, m), ray_y(yi, d, m)) == (if ray_clear(
                    g0,
                    xi,
                    yi,
                    d,
                    m,
                ) {
                    marked(g0.at(ray_x(xi, d, m), ray_y(yi, d, m)), side)
                } else {
                    g0.at(ray_x(xi, d, m), ray_y(yi, d, m))
                }),
            forall|i: int, j: int|
                in_bounds(i, j) && !on_ray(xi, yi, d, k - 1, i, j) ==> #[trigger] board.at(i, j)
                    == g0.at(i, j),
            done ==> !in_bounds(ray_x(xi, d, k as int), ray_y(yi, d, k as int)) || (exists|b: int|
                1 <= b < k && in_bounds(#[trigger] ray_x(xi, d, b), ray_y(yi, d, b)) && !(g0.at(
                    ray_x(xi, d, b),
                    ray_y(yi, d, b),
                ) is Empty)),
        decreases (if done {
            0int
        } else {
            len + 1 - k
        }),
    {
        let nx = cx + dx;
        let ny = cy + dy;
        proof {
            assert(nx as int == ray_x(xi, d, k as int) && ny as int == ray_y(yi, d, k as int))
                by (nonlinear_arith)
                requires
                    cx as int == ray_x(xi, d, k - 1),
                    cy as int == ray_y(yi, d, k - 1),
                    nx == cx + dx,
                    ny == cy + dy,
                    dx as int == dir_dx(d),
                    dy as int == dir_dy(d),
            ;
        }
        if !board.is_in_bounds(nx, ny) {
            done = true;
        } else {
            proof {
                assert(!on_ray(xi, yi, d, k - 1, nx as int, ny as int)) by {
                    if on_ray(xi, yi, d, k - 1, nx as int, ny as int) {
                        let m = choose|m: int|
                            1 <= m <= k - 1 && #[trigger] ray_x(xi, d, m) == nx as int && ray_y(
                                yi,
                                d,
                                m,
                            ) == ny as int;
                        lemma_ray_injective(xi, yi, d, m, k as int);
                    }
                }
                lemma_ray_misses_origin(xi, yi, d, k as int);
            }
            let stop = board.mark_move_or_capture(x, y, nx, ny);
            if stop {
                done = true;
            }
            proof {
                assert forall|i: int, j: int|
                    in_bounds(i, j) && !on_ray(xi, yi, d, k as int, i, j) implies board.at(i, j)
                    == g0.at(i, j) by {
                    assert(!on_ray(xi, yi, d, k - 1, i, j));
                    assert(!(i == nx as int && j == ny as int));
                }
                assert(board.at(ray_x(xi, d, k as int), ray_y(yi, d, k as int)) == marked(
                    g0.at(ray_x(xi, d, k as int), ray_y(yi, d, k as int)),
                    side,
                ));
                assert forall|m: int|
                    1 <= m < k + 1 && in_bounds(ray_x(xi, d, m), ray_y(yi, d, m))
                        implies #[trigger] board.at(ray_x(xi, d, m), ray_y(yi, d, m)) == (
                if ray_clear(g0, xi, yi, d, m) {
                    marked(g0.at(ray_x(xi, d, m), ray_y(yi, d, m)), side)
                } else {
                    g0.at(ray_x(xi, d, m), ray_y(yi, d, m))
                }) by {
                    if m < k {
                        assert(!(ray_x(xi, d, m) == nx as int && ray_y(yi, d, m) == ny as int))
                            by {
                            if ray_x(xi, d, m) == nx as int && ray_y(yi, d, m) == ny as int {
                                lemma_ray_injective(xi, yi, d, m, k as int);
                            }
                        }
                    }
                }
                if !stop {
                    assert(ray_clear(g0, xi, yi, d, k + 1)) by {
                        assert(g0.at(ray_x(xi, d, k as int), ray_y(yi, d, k as int)) is Empty);
                        assert forall|j: int| 1 <= j < k + 1 implies in_bounds(
                            ray_x(xi, d, j),
                            ray_y(yi, d, j),
                        ) && (#[trigger] g0.at(ray_x(xi, d, j), ray_y(yi, d, j))) is Empty by {}
                    }
                }
            }
            cx = nx;
            cy = ny;
            k = k + 1;
        }
    }
    proof {
        assert forall|m: int|
            1 <= m <= len && in_bounds(ray_x(xi, d, m), ray_y(yi, d, m))
                implies #[trigger] board.at(ray_x(xi, d, m), ray_y(yi, d, m)) == (if ray_clear(
            g0,
            xi,
            yi,
            d,
            m,
        ) {
            marked(g0.at(ray_x(xi, d, m), ray_y(yi, d, m)), side)
        } else {
            g0.at(ray_x(xi, d, m), ray_y(yi, d, m))
        }) by {
            if m >= k {
                assert(done);
                if in_bounds(ray_x(xi, d, k as int), ray_y(yi, d, k as int)) {
                    // a blocker stopped the walk strictly before step m
                    let b = choose|b: int|
                        1 <= b < k && in_bounds(#[trigger] ray_x(xi, d, b), ray_y(yi, d, b)) && !(
                        g0.at(ray_x(xi, d, b), ray_y(yi, d, b)) is Empty);
                    assert(!ray_clear(g0, xi, yi, d, m));
                    assert(!on_ray(xi, yi, d, k - 1, ray_x(xi, d, m), ray_y(yi, d, m))) by {
                        if on_ray(xi, yi, d, k - 1, ray_x(xi, d, m), ray_y(yi, d, m)) {
                            let m2 = choose|m2: int|
                                1 <= m2 <= k - 1 && #[trigger] ray_x(xi, d, m2) == ray_x(xi, d, m)
                                    && ray_y(yi, d, m2) == ray_y(yi, d, m);
                            lemma_ray_injective(xi, yi, d, m2, m);
                        }
                    }
                } else {
                    // the walk stepped off the board; so does every later step
                    lemma_ray_stays_off_board(xi, yi, d, k as int, m);
                }
            }
        }
        assert forall|i: int, j: int|
            in_bounds(i, j) && !on_ray(xi, yi, d, len as int, i, j) implies #[trigger] board.at(
            i,
            j,
        ) == g0.at(i, j) by {
            assert(!on_ray(xi, yi, d, k - 1, i, j)) by {
                if on_ray(xi, yi, d, k - 1, i, j) {
                    let m = choose|m: int|
                        1 <= m <= k - 1 && #[trigger] ray_x(xi, d, m) == i && ray_y(yi, d, m) == j;
                    assert(1 <= m <= len && ray_x(xi, d, m) == i && ray_y(yi, d, m) == j);
                }
            }
        }
    }
}

/// Some direction among the first `n` of `dirs` reaches `(i, j)`.
spec fn set_reach(g: Grid, x: int, y: int, dirs: Seq<Direction>, n: int, len: int, i: int, j: int) -> bool {
    exists|di: int| 0 <= di < n && ray_reach(g, x, y, #[trigger] dirs[di], len, i, j)
}

/// Extends one ray per listed direction, in order. The directions must
/// be pairwise distinct, so the rays share no square and each one walks
/// over cells still untouched.
fn add_ray_set(x: i8, y: i8, dirs: &Vec<Direction>, len: i8, board: &mut Grid)
    requires
        old(board).wf(),
        old(board).clean(),
        in_bounds(x as int, y as int),
        old(board).at(x as int, y as int) is Occupied,
        1 <= len <= 8,
        forall|m: int, n: int| 0 <= m < n < dirs@.len() ==> dirs@[m] != dirs@[n],
    ensures
        final(board).wf(),
        final(board).same_colors(*old(board)),
        forall|i: int, j: int|
            in_bounds(i, j) ==> #[trigger] final(board).at(i, j) == (if set_reach(
                *old(board),
                x as int,
                y as int,
                dirs@,
                dirs@.len() as int,
                len as int,
                i,
                j,
            ) {
                marked(
                    old(board).at(i, j),
                    occ_side(old(board).at(x as int, y as int)),
                )
            } else {
                old(board).at(i, j)
            }),
{
    let ghost g0 = *board;
    let ghost xi = x as int;
    let ghost yi = y as int;
    let ghost side = occ_side(g0.at(xi, yi));
    let mut n: usize = 0;
    while n < dirs.len()
        invariant
            board.wf(),
            board.same_colors(g0),
            xi == x as int,
            yi == y as int,
            side == occ_side(g0.at(xi, yi)),
            g0.wf(),
            g0.clean(),
            in_bounds(xi, yi),
            g0.at(xi, yi) is Occupied,
            1 <= len <= 8,
            forall|m: int, n2: int| 0 <= m < n2 < dirs@.len() ==> dirs@[m] != dirs@[n2],
            n <= dirs@.len(),
            forall|i: int, j: int|
                in_bounds(i, j) ==> #[trigger] board.at(i, j) == (if set_reach(
                    g0,
                    xi,
                    yi,
                    dirs@,
                    n as int,
                    len as int,
                    i,
                    j,
                ) {
                    marked(g0.at(i, j), side)
                } else {
                    g0.at(i, j)
                }),
        decreases dirs@.len() - n,
    {
        let d = dirs[n];
        proof {
            // every square of the ray about to be walked is still untouched:
            // the rays already walked lie along other directions
            assert forall|k: int|
                1 <= k <= len && in_bounds(ray_x(xi, d, k), ray_y(yi, d, k)) implies board.at(
                ray_x(xi, d, k),
                ray_y(yi, d, k),
            ) == g0.at(ray_x(xi, d, k), ray_y(yi, d, k)) && markable(
                #[trigger] g0.at(ray_x(xi, d, k), ray_y(yi, d, k)),
            ) by {
                assert(!set_reach(g0, xi, yi, dirs@, n as int, len as int, ray_x(xi, d, k), ray_y(yi, d, k)))
                    by {
                    if set_reach(g0, xi, yi, dirs@, n as int, len as int, ray_x(xi, d, k), ray_y(yi, d, k)) {
                        let di = choose|di: int|
                            0 <= di < n && ray_reach(
                                g0,
                                xi,
                                yi,
                                #[trigger] dirs@[di],
                                len as int,
                                ray_x(xi, d, k),
                                ray_y(yi, d, k),
                            );
                        let k2 = choose|k2: int|
                            1 <= k2 <= len && #[trigger] ray_x(xi, dirs@[di], k2) == ray_x(xi, d, k)
                                && ray_y(yi, dirs@[di], k2) == ray_y(yi, d, k) && ray_clear(
                                g0,
                                xi,
                                yi,
                                dirs@[di],
                                k2,
                            );
                        lemma_rays_disjoint(xi, yi, dirs@[di], d, k2, k);
                    }
                }
            }
            // the origin lies on no ray, so it is still occupied
            assert(board.at(xi, yi) == g0.at(xi, yi)) by {
                if set_reach(g0, xi, yi, dirs@, n as int, len as int, xi, yi) {
                    let di = choose|di: int|
                        0 <= di < n && ray_reach(g0, xi, yi, #[trigger] dirs@[di], len as int, xi, yi);
                    let k2 = choose|k2: int|
                        1 <= k2 <= len && #[trigger] ray_x(xi, dirs@[di], k2) == xi && ray_y(
                            yi,
                            dirs@[di],
                            k2,
                        ) == yi && ray_clear(g0, xi, yi, dirs@[di], k2);
                    lemma_ray_misses_origin(xi, yi, dirs@[di], k2);
                }
            }
        }
        let ghost pre = *board;
        add_moves_by_direction_and_length(x, y, d, len, board);
        proof {
            assert forall|i: int, j: int|
                in_bounds(i, j) implies #[trigger] board.at(i, j) == (if set_reach(
                g0,
                xi,
                yi,
                dirs@,
                n + 1,
                len as int,
                i,
                j,
            ) {
                marked(g0.at(i, j), side)
            } else {
                g0.at(i, j)
            }) by {
                if on_ray(xi, yi, d, len as int, i, j) {
                    let k = choose|k: int|
                        1 <= k <= len && #[trigger] ray_x(xi, d, k) == i && ray_y(yi, d, k) == j;
                    // no other listed direction reaches a square of this ray
                    assert(!set_reach(g0, xi, yi, dirs@, n as int, len as int, i, j)) by {
                        if set_reach(g0, xi, yi, dirs@, n as int, len as int, i, j) {
                            let di = choose|di: int|
                                0 <= di < n && ray_reach(g0, xi, yi, #[trigger] dirs@[di], len as int, i, j);
                            let k2 = choose|k2: int|
                                1 <= k2 <= len && #[trigger] ray_x(xi, dirs@[di], k2) == i && ray_y(
                                    yi,
                                    dirs@[di],
                                    k2,
                                ) == j && ray_clear(g0, xi, yi, dirs@[di], k2);
                            lemma_rays_disjoint(xi, yi, dirs@[di], d, k2, k);
                        }
                    }
                    assert(pre.at(i, j) == g0.at(i, j));
                    // blocking along this ray reads the same cells before and
                    // after the earlier rays ran
                    assert(ray_clear(pre, xi, yi, d, k) == ray_clear(g0, xi, yi, d, k)) by {
                        if ray_clear(g0, xi, yi, d, k) {
                            assert forall|j2: int| 1 <= j2 < k implies in_bounds(
                                ray_x(xi, d, j2),
                                ray_y(yi, d, j2),
                            ) && (#[trigger] pre.at(ray_x(xi, d, j2), ray_y(yi, d, j2))) is Empty by {
                                assert(!set_reach(g0, xi, yi, dirs@, n as int, len as int, ray_x(xi, d, j2), ray_y(yi, d, j2)))
                                    by {
                                    if set_reach(g0, xi, yi, dirs@, n as int, len as int, ray_x(xi, d, j2), ray_y(yi, d, j2)) {
                                        let di = choose|di: int|
                                            0 <= di < n && ray_reach(
                                                g0,
                                                xi,
                                                yi,
                                                #[trigger] dirs@[di],
                                                len as int,
                                                ray_x(xi, d, j2),
                                                ray_y(yi, d, j2),
                                            );
                                        let k2 = choose|k2: int|
                                            1 <= k2 <= len && #[trigger] ray_x(xi, dirs@[di], k2) == ray_x(xi, d, j2)
                                                && ray_y(yi, dirs@[di], k2) == ray_y(yi, d, j2) && ray_clear(
                                                g0,
                                                xi,
                                                yi,
                                                dirs@[di],
                                                k2,
                                            );
                                        lemma_rays_disjoint(xi, yi, dirs@[di], d, k2, j2);
                                    }
                                }
                            }
                        }
                        if ray_clear(pre, xi, yi, d, k) {
                            assert forall|j2: int| 1 <= j2 < k implies in_bounds(
                                ray_x(xi, d, j2),
                                ray_y(yi, d, j2),
                            ) && (#[trigger] g0.at(ray_x(xi, d, j2), ray_y(yi, d, j2))) is Empty by {
                                assert(pre.at(ray_x(xi, d, j2), ray_y(yi, d, j2)) is Empty);
                                assert(!set_reach(g0, xi, yi, dirs@, n as int, len as int, ray_x(xi, d, j2), ray_y(yi, d, j2)))
                                    by {
                                    if set_reach(g0, xi, yi, dirs@, n as int, len as int, ray_x(xi, d, j2), ray_y(yi, d, j2)) {
                                        let di = choose|di: int|
                                            0 <= di < n && ray_reach(
                                                g0,
                                                xi,
                                                yi,
                                                #[trigger] dirs@[di],
                                                len as int,
                                                ray_x(xi, d, j2),
                                                ray_y(yi, d, j2),
                                            );
                                        let k2 = choose|k2: int|
                                            1 <= k2 <= len && #[trigger] ray_x(xi, dirs@[di], k2) == ray_x(xi, d, j2)
                                                && ray_y(yi, dirs@[di], k2) == ray_y(yi, d, j2) && ray_clear(
                                                g0,
                                                xi,
                                                yi,
                                                dirs@[di],
                                                k2,
                                            );
                                        lemma_rays_disjoint(xi, yi, dirs@[di], d, k2, j2);
                                    }
                                }
                            }
                        }
                    }
                    // the walked direction reaches (i, j) iff nothing blocks it
                    assert(ray_reach(g0, xi, yi, d, len as int, i, j) == ray_clear(g0, xi, yi, d, k)) by {
                        if ray_reach(g0, xi, yi, d, len as int, i, j) {
                            let k2 = choose|k2: int|
                                1 <= k2 <= len && #[trigger] ray_x(xi, d, k2) == i && ray_y(yi, d, k2)
                                    == j && ray_clear(g0, xi, yi, d, k2);
                            lemma_ray_injective(xi, yi, d, k2, k);
                        }
                    }
                    assert(dirs@[n as int] == d);
                    if ray_clear(g0, xi, yi, d, k) {
                        assert(set_reach(g0, xi, yi, dirs@, n + 1, len as int, i, j));
                    } else {
                        assert(!set_reach(g0, xi, yi, dirs@, n + 1, len as int, i, j)) by {
                            if set_reach(g0, xi, yi, dirs@, n + 1, len as int, i, j) {
                                let di = choose|di: int|
                                    0 <= di < n + 1 && ray_reach(g0, xi, yi, #[trigger] dirs@[di], len as int, i, j);
                                if di < n {
                                    let k2 = choose|k2: int|
                                        1 <= k2 <= len && #[trigger] ray_x(xi, dirs@[di], k2) == i
                                            && ray_y(yi, dirs@[di], k2) == j && ray_clear(
                                            g0,
                                            xi,
                                            yi,
                                            dirs@[di],
                                            k2,
                                        );
                                    lemma_rays_disjoint(xi, yi, dirs@[di], d, k2, k);
                                }
                            }
                        }
                    }
                } else {
                    // off the walked ray nothing changed in this step
                    assert(board.at(i, j) == pre.at(i, j));
                    assert(set_reach(g0, xi, yi, dirs@, n + 1, len as int, i, j) == set_reach(
                        g0,
                        xi,
                        yi,
                        dirs@,
                        n as int,
                        len as int,
                        i,
                        j,
                    )) by {
                        if set_reach(g0, xi, yi, dirs@, n + 1, len as int, i, j) {
                            let di = choose|di: int|
                                0 <= di < n + 1 && ray_reach(g0, xi, yi, #[trigger] dirs@[di], len as int, i, j);
                            if di == n {
                                let k2 = choose|k2: int|
                                    1 <= k2 <= len && #[trigger] ray_x(xi, d, k2) == i && ray_y(
                                        yi,
                                        d,
                                        k2,
                                    ) == j && ray_clear(g0, xi, yi, d, k2);
                                assert(on_ray(xi, yi, d, len as int, i, j));
                            }
                        }
                    }
                }
            }
        }
        n = n + 1;
    }
}

/// A sliding walk that tried exactly the kind's directions produced
/// exactly the kind's marks.
proof fn lemma_set_reach_is_moves_post(
    g0: Grid,
    r: Grid,
    xi: int,
    yi: int,
    kind: PieceKind,
    side: Side,
    dirs: Seq<Direction>,
)
    requires
        kind is Bishop || kind is Rook || kind is Queen || kind is King,
        forall|di: int| 0 <= di < dirs.len() ==> sliding_dir(kind, #[trigger] dirs[di]),
        forall|d: Direction| #[trigger] sliding_dir(kind, d) ==> dirs.contains(d),
        forall|i: int, j: int|
            in_bounds(i, j) ==> #[trigger] r.at(i, j) == (if set_reach(
                g0,
                xi,
                yi,
                dirs,
                dirs.len() as int,
                ray_len(kind),
                i,
                j,
            ) {
                marked(g0.at(i, j), side)
            } else {
                g0.at(i, j)
            }),
    ensures
        moves_post(g0, r, xi, yi, kind, side),
{
    assert forall|i: int, j: int| in_bounds(i, j) implies #[trigger] r.at(i, j) == (if reachable(
        g0,
        xi,
        yi,
        kind,
        side,
        i,
        j,
    ) {
        marked(g0.at(i, j), side)
    } else {
        g0.at(i, j)
    }) by {
        assert(set_reach(g0, xi, yi, dirs, dirs.len() as int, ray_len(kind), i, j) == reachable(
            g0,
            xi,
            yi,
            kind,
            side,
            i,
            j,
        )) by {
            if set_reach(g0, xi, yi, dirs, dirs.len() as int, ray_len(kind), i, j) {
                let di = choose|di: int|
                    0 <= di < dirs.len() && ray_reach(g0, xi, yi, #[trigger] dirs[di], ray_len(kind), i, j);
                let k = choose|k: int|
                    1 <= k <= ray_len(kind) && #[trigger] ray_x(xi, dirs[di], k) == i && ray_y(
                        yi,
                        dirs[di],
                        k,
                    ) == j && ray_clear(g0, xi, yi, dirs[di], k);
                assert(in_bounds(i, j) ==> reachable(g0, xi, yi, kind, side, i, j));
            }
            if reachable(g0, xi, yi, kind, side, i, j) {
                let d = choose|d: Direction|
                    #[trigger] sliding_dir(kind, d) && ray_reach(g0, xi, yi, d, ray_len(kind), i, j);
                assert(dirs.contains(d));
                let di = choose|di: int| 0 <= di < dirs.len() && dirs[di] == d;
                assert(ray_reach(g0, xi, yi, dirs[di], ray_len(kind), i, j));
            }
        }
    }
}

/// Marks the squares a bishop at `(x, y)` reaches: the four diagonals,
/// each walked to the first blocker or the board edge.
fn add_bishop_moves_to_board(x: i8, y: i8, board: &mut Grid)
    requires
        old(board).wf(),
        old(board).clean(),
        in_bounds(x as int, y as int),
        old(board).at(x as int, y as int) is Occupied,
    ensures
        final(board).wf(),
        final(board).same_colors(*old(board)),
        moves_post(
            *old(board),
            *final(board),
            x as int,
            y as int,
            PieceKind::Bishop,
            occ_side(old(board).at(x as int, y as int)),
        ),
{
    let ghost g0 = *board;
    let mut dirs: Vec<Direction> = Vec::new();
    dirs.push(Direction::NorthEast);
    dirs.push(Direction::SouthEast);
    dirs.push(Direction::SouthWest);
    dirs.push(Direction::NorthWest);
    proof {
        assert(dirs@ =~= seq![
            Direction::NorthEast,
            Direction::SouthEast,
            Direction::SouthWest,
            Direction::NorthWest,
        ]);
    }
    add_ray_set(x, y, &dirs, 8, board);
    proof {
        assert forall|d: Direction| #[trigger] sliding_dir(PieceKind::Bishop, d) implies dirs@.contains(d) by {
            if d is NorthEast {
                assert(dirs@[0] == d);
            } else if d is SouthEast {
                assert(dirs@[1] == d);
            } else if d is SouthWest {
                assert(dirs@[2] == d);
            } else {
                assert(dirs@[3] == d);
            }
        }
        lemma_set_reach_is_moves_post(
            g0,
            *board,
            x as int,
            y as int,
            PieceKind::Bishop,
            occ_side(g0.at(x as int, y as int)),
            dirs@,
        );
    }
}

/// Marks the squares a rook at `(x, y)` reaches: the four orthogonals,
/// each walked to the first blocker or the board edge.
fn add_rook_moves_to_board(x: i8, y: i8, board: &mut Grid)
    requires
        old(board).wf(),
        old(board).clean(),
        in_bounds(x as int, y as int),
        old(board).at(x as int, y as int) is Occupied,
    ensures
        final(board).wf(),
        final(board).same_colors(*old(board)),
        moves_post(
            *old(board),
            *final(board),
            x as int,
            y as int,
            PieceKind::Rook,
            occ_side(old(board).at(x as int, y as int)),
        ),
{
    let ghost g0 = *board;
    let mut dirs: Vec<Direction> = Vec::new();
    dirs.push(Direction::North);
    dirs.push(Direction::East);
    dirs.push(Direction::South);
    dirs.push(Direction::West);
    proof {
        assert(dirs@ =~= seq![
            Direction::North,
            Direction::East,
            Direction::South,
            Direction::West,
        ]);
    }
    add_ray_set(x, y, &dirs, 8, board);
    proof {
        assert forall|d: Direction| #[trigger] sliding_dir(PieceKind::Rook, d) implies dirs@.contains(d) by {
            if d is North {
                assert(dirs@[0] == d);
            } else if d is East {
                assert(dirs@[1] == d);
            } else if d is South {
                assert(dirs@[2] == d);
            } else {
                assert(dirs@[3] == d);
            }
        }
        lemma_set_reach_is_moves_post(
            g0,
            *board,
            x as int,
            y as int,
            PieceKind::Rook,
            occ_side(g0.at(x as int, y as int)),
            dirs@,
        );
    }
}

/// Marks the squares a queen at `(x, y)` reaches: all eight directions,
/// each walked to the first blocker or the board edge.
fn add_queen_moves_to_board(x: i8, y: i8, board: &mut Grid)
    requires
        old(board).wf(),
        old(board).clean(),
        in_bounds(x as int, y as int),
        old(board).at(x as int, y as int) is Occupied,
    ensures
        final(board).wf(),
        final(board).same_colors(*old(board)),
        moves_post(
            *old(board),
            *final(board),
            x as int,
            y as int,
            PieceKind::Queen,
            occ_side(old(board).at(x as int, y as int)),
        ),
{
    let ghost g0 = *board;
    let mut dirs: Vec<Direction> = Vec::new();
    dirs.push(Direction::NorthEast);
    dirs.push(Direction::SouthEast);
    dirs.push(Direction::SouthWest);
    dirs.push(Direction::NorthWest);
    dirs.push(Direction::North);
    dirs.push(Direction::East);
    dirs.push(Direction::South);
    dirs.push(Direction::West);
    proof {
        assert(dirs@ =~= seq![
            Direction::NorthEast,
            Direction::SouthEast,
            Direction::SouthWest,
            Direction::NorthWest,
            Direction::North,
            Direction::East,
            Direction::South,
            Direction::West,
        ]);
    }
    add_ray_set(x, y, &dirs, 8, board);
    proof {
        assert forall|d: Direction| #[trigger] sliding_dir(PieceKind::Queen, d) implies dirs@.contains(d) by {
            if d is NorthEast {
                assert(dirs@[0] == d);
            } else if d is SouthEast {
                assert(dirs@[1] == d);
            } else if d is SouthWest {
                assert(dirs@[2] == d);
            } else if d is NorthWest {
                assert(dirs@[3] == d);
            } else if d is North {
                assert(dirs@[4] == d);
            } else if d is East {
                assert(dirs@[5] == d);
            } else if d is South {
                assert(dirs@[6] == d);
            } else {
                assert(dirs@[7] == d);
            }
        }
        lemma_set_reach_is_moves_post(
            g0,
            *board,
            x as int,
            y as int,
            PieceKind::Queen,
            occ_side(g0.at(x as int, y as int)),
            dirs@,
        );
    }
}

/// Marks the squares a king at `(x, y)` reaches: exactly one step along
/// each of the four orthogonal directions.
fn add_king_moves_to_board(x: i8, y: i8, board: &mut Grid)
    requires
        old(board).wf(),
        old(board).clean(),
        in_bounds(x as int, y as int),
        old(board).at(x as int, y as int) is Occupied,
    ensures
        final(board).wf(),
        final(board).same_colors(*old(board)),
        moves_post(
            *old(board),
            *final(board),
            x as int,
            y as int,
            PieceKind::King,
            occ_side(old(board).at(x as int, y as int)),
        ),
{
    let ghost g0 = *board;
    let mut dirs: Vec<Direction> = Vec::new();
    dirs.push(Direction::North);
    dirs.push(Direction::East);
    dirs.push(Direction::South);
    dirs.push(Direction::West);
    proof {
        assert(dirs@ =~= seq![
            Direction::North,
            Direction::East,
            Direction::South,
            Direction::West,
        ]);
    }
    add_ray_set(x, y, &dirs, 1, board);
    proof {
        assert forall|d: Direction| #[trigger] sliding_dir(PieceKind::King, d) implies dirs@.contains(d) by {
            if d is North {
                assert(dirs@[0] == d);
            } else if d is East {
                assert(dirs@[1] == d);
            } else if d is South {
                assert(dirs@[2] == d);
            } else {
                assert(dirs@[3] == d);
            }
        }
        lemma_set_reach_is_moves_post(
            g0,
            *board,
            x as int,
            y as int,
            PieceKind::King,
            occ_side(g0.at(x as int, y as int)),
            dirs@,
        );
    }
}

/// The fixed table of a knight's eight relative offsets.
pub open spec fn knight_offsets() -> Seq<(int, int)> {
    seq![(1, -2), (2, -1), (2, 1), (1, 2), (-1, 2), (-2, 1), (-2, -1), (-1, -2)]
}

/// One of the first `n` table offsets, applied to `(x, y)`, lands on
/// `(i, j)`.
spec fn knight_prefix_reach(x: int, y: int, n: int, i: int, j: int) -> bool {
    exists|di: int|
        0 <= di < n && i == x + (#[trigger] knight_offsets()[di]).0 && j == y
            + knight_offsets()[di].1
}

/// Marks the squares a knight at `(x, y)` reaches: each of the eight
/// relative offsets that lands on the board, independently of the
/// others.
fn add_knight_moves_to_board(x: i8, y: i8, board: &mut Grid)
    requires
        old(board).wf(),
        old(board).clean(),
        in_bounds(x as int, y as int),
        old(board).at(x as int, y as int) is Occupied,
    ensures
        final(board).wf(),
        final(board).same_colors(*old(board)),
        moves_post(
            *old(board),
            *final(board),
            x as int,
            y as int,
            PieceKind::Knight,
            occ_side(old(board).at(x as int, y as int)),
        ),
{
    let ghost g0 = *board;
    let ghost xi = x as int;
    let ghost yi = y as int;
    let ghost side = occ_side(g0.at(xi, yi));
    let mut offs: Vec<(i8, i8)> = Vec::new();
    offs.push((1, -2));
    offs.push((2, -1));
    offs.push((2, 1));
    offs.push((1, 2));
    offs.push((-1, 2));
    offs.push((-2, 1));
    offs.push((-2, -1));
    offs.push((-1, -2));
    let mut n: usize = 0;
    while n < 8
        invariant
            board.wf(),
            board.same_colors(g0),
            xi == x as int,
            yi == y as int,
            side == occ_side(g0.at(xi, yi)),
            g0.clean(),
            in_bounds(xi, yi),
            g0.at(xi, yi) is Occupied,
            offs@.len() == 8,
            forall|di: int|
                0 <= di < 8 ==> (#[trigger] offs@[di]).0 as int == knight_offsets()[di].0
                    && offs@[di].1 as int == knight_offsets()[di].1,
            forall|di: int|
                0 <= di < 8 ==> -2 <= (#[trigger] offs@[di]).0 <= 2 && -2 <= offs@[di].1 <= 2,
            n <= 8,
            forall|i: int, j: int|
                in_bounds(i, j) ==> #[trigger] board.at(i, j) == (if knight_prefix_reach(
                    xi,
                    yi,
                    n as int,
                    i,
                    j,
                ) {
                    marked(g0.at(i, j), side)
                } else {
                    g0.at(i, j)
                }),
        decreases 8 - n,
    {
        let (ox, oy) = offs[n];
        let nx = x + ox;
        let ny = y + oy;
        if board.is_in_bounds(nx, ny) {
            proof {
                // this offset's square is still untouched: the earlier
                // offsets are all different, and none lands on the origin
                assert(!knight_prefix_reach(xi, yi, n as int, nx as int, ny as int));
                assert(!(nx as int == xi && ny as int == yi));
                assert(!knight_prefix_reach(xi, yi, n as int, xi, yi));
            }
            let _ = board.mark_move_or_capture(x, y, nx, ny);
            proof {
                assert forall|i: int, j: int|
                    in_bounds(i, j) implies #[trigger] board.at(i, j) == (if knight_prefix_reach(
                    xi,
                    yi,
                    n + 1,
                    i,
                    j,
                ) {
                    marked(g0.at(i, j), side)
                } else {
                    g0.at(i, j)
                }) by {
                    if i == nx as int && j == ny as int {
                        assert(knight_offsets()[n as int].0 == ox as int);
                        assert(knight_prefix_reach(xi, yi, n + 1, i, j));
                    } else {
                        assert(knight_prefix_reach(xi, yi, n + 1, i, j) == knight_prefix_reach(
                            xi,
                            yi,
                            n as int,
                            i,
                            j,
                        ));
                    }
                }
            }
        } else {
            proof {
                assert forall|i: int, j: int|
                    in_bounds(i, j) implies knight_prefix_reach(xi, yi, n + 1, i, j)
                    == knight_prefix_reach(xi, yi, n as int, i, j) by {
                    if knight_prefix_reach(xi, yi, n + 1, i, j) {
                        let di = choose|di: int|
                            0 <= di < n + 1 && i == xi + (#[trigger] knight_offsets()[di]).0 && j
                                == yi + knight_offsets()[di].1;
                        if di == n {
                            assert(i == nx as int && j == ny as int);
                        }
                    }
                }
            }
        }
        n = n + 1;
    }
    proof {
        assert forall|i: int, j: int| in_bounds(i, j) implies knight_prefix_reach(xi, yi, 8, i, j)
            == knight_offset(xi, yi, i, j) by {
            if knight_prefix_reach(xi, yi, 8, i, j) {
                let di = choose|di: int|
                    0 <= di < 8 && i == xi + (#[trigger] knight_offsets()[di]).0 && j == yi
                        + knight_offsets()[di].1;
            }
            if knight_offset(xi, yi, i, j) {
                if i == xi + 1 && j == yi - 2 {
                    assert(knight_offsets()[0] == (1int, -2int));
                } else if i == xi + 2 && j == yi - 1 {
                    assert(knight_offsets()[1] == (2int, -1int));
                } else if i == xi + 2 && j == yi + 1 {
                    assert(knight_offsets()[2] == (2int, 1int));
                } else if i == xi + 1 && j == yi + 2 {
                    assert(knight_offsets()[3] == (1int, 2int));
                } else if i == xi - 1 && j == yi + 2 {
                    assert(knight_offsets()[4] == (-1int, 2int));
                } else if i == xi - 2 && j == yi + 1 {
                    assert(knight_offsets()[5] == (-2int, 1int));
                } else if i == xi - 2 && j == yi - 1 {
                    assert(knight_offsets()[6] == (-2int, -1int));
                } else {
                    assert(knight_offsets()[7] == (-1int, -2int));
                }
            }
        }
    }
}

/// Marks the single square a pawn at `(x, y)` can step to: one rank in
/// its side's forward direction, same file. Off the board, nothing is
/// marked.
fn add_pawn_moves_to_board(x: i8, y: i8, side: Side, board: &mut Grid)
    requires
        old(board).wf(),
        old(board).clean(),
        in_bounds(x as int, y as int),
        old(board).at(x as int, y as int) is Occupied,
        occ_side(old(board).at(x as int, y as int)) == side,
    ensures
        final(board).wf(),
        final(board).same_colors(*old(board)),
        moves_post(*old(board), *final(board), x as int, y as int, PieceKind::Pawn, side),
{
    let ghost g0 = *board;
    let ny = match side {
        Side::You => y - 1,
        Side::Opponent => y + 1,
    };
    proof {
        assert(ny as int == y as int + forward(side));
    }
    if board.is_in_bounds(x, ny) {
        let _ = board.mark_move_or_capture(x, y, x, ny);
    }
}

/// Dispatches to the per-kind algorithm for the piece of `kind` and
/// `side` standing at `(x, y)`, writing its marks into `board`.
pub fn add_moves_to_board(x: i8, y: i8, side: Side, kind: PieceKind, board: &mut Grid)
    requires
        old(board).wf(),
        old(board).clean(),
        in_bounds(x as int, y as int),
        old(board).at(x as int, y as int) == CellState::Occupied(kind, side),
    ensures
        final(board).wf(),
        final(board).same_colors(*old(board)),
        moves_post(*old(board), *final(board), x as int, y as int, kind, side),
{
    match kind {
        PieceKind::Bishop => add_bishop_moves_to_board(x, y, board),
        PieceKind::King => add_king_moves_to_board(x, y, board),
        PieceKind::Knight => add_knight_moves_to_board(x, y, board),
        PieceKind::Pawn => add_pawn_moves_to_board(x, y, side, board),
        PieceKind::Queen => add_queen_moves_to_board(x, y, board),
        PieceKind::Rook => add_rook_moves_to_board(x, y, board),
    }
}

/// A generator run reads the grid through its cells alone: two grids
/// that agree on every square produce the same marks.
pub proof fn lemma_moves_post_congruence(
    g1: Grid,
    g2: Grid,
    r: Grid,
    x: int,
    y: int,
    kind: PieceKind,
    side: Side,
)
    requires
        crate::board::cells_unchanged(g1, g2),
        moves_post(g1, r, x, y, kind, side),
    ensures
        moves_post(g2, r, x, y, kind, side),
{
    assert forall|i: int, j: int| in_bounds(i, j) implies #[trigger] r.at(i, j) == (if reachable(
        g2,
        x,
        y,
        kind,
        side,
        i,
        j,
    ) {
        marked(g2.at(i, j), side)
    } else {
        g2.at(i, j)
    }) by {
        assert(reachable(g1, x, y, kind, side, i, j) == reachable(g2, x, y, kind, side, i, j)) by {
            lemma_reachable_congruence(g1, g2, x, y, kind, side, i, j);
        }
    }
}

/// Reachability itself only reads the grid's cells.
proof fn lemma_reachable_congruence(
    g1: Grid,
    g2: Grid,
    x: int,
    y: int,
    kind: PieceKind,
    side: Side,
    i: int,
    j: int,
)
    requires
        crate::board::cells_unchanged(g1, g2),
    ensures
        reachable(g1, x, y, kind, side, i, j) == reachable(g2, x, y, kind, side, i, j),
{
    assert forall|d: Direction, k: int| ray_clear(g1, x, y, d, k) == #[trigger] ray_clear(
        g2,
        x,
        y,
        d,
        k,
    ) by {
        if ray_clear(g1, x, y, d, k) {
            assert forall|j2: int| 1 <= j2 < k implies in_bounds(ray_x(x, d, j2), ray_y(y, d, j2))
                && (#[trigger] g2.at(ray_x(x, d, j2), ray_y(y, d, j2))) is Empty by {
                assert(g1.at(ray_x(x, d, j2), ray_y(y, d, j2)) is Empty);
            }
        }
        if ray_clear(g2, x, y, d, k) {
            assert forall|j2: int| 1 <= j2 < k implies in_bounds(ray_x(x, d, j2), ray_y(y, d, j2))
                && (#[trigger] g1.at(ray_x(x, d, j2), ray_y(y, d, j2))) is Empty by {
                assert(g2.at(ray_x(x, d, j2), ray_y(y, d, j2)) is Empty);
            }
        }
    }
    if reachable(g1, x, y, kind, side, i, j) && !(kind is Knight) && !(kind is Pawn) {
        let d = choose|d: Direction|
            #[trigger] sliding_dir(kind, d) && ray_reach(g1, x, y, d, ray_len(kind), i, j);
        let k = choose|k: int|
            1 <= k <= ray_len(kind) && #[trigger] ray_x(x, d, k) == i && ray_y(y, d, k) == j
                && ray_clear(g1, x, y, d, k);
        assert(ray_reach(g2, x, y, d, ray_len(kind), i, j));
    }
    if reachable(g2, x, y, kind, side, i, j) && !(kind is Knight) && !(kind is Pawn) {
        let d = choose|d: Direction|
            #[trigger] sliding_dir(kind, d) && ray_reach(g2, x, y, d, ray_len(kind), i, j);
        let k = choose|k: int|
            1 <= k <= ray_len(kind) && #[trigger] ray_x(x, d, k) == i && ray_y(y, d, k) == j
                && ray_clear(g2, x, y, d, k);
        assert(ray_reach(g1, x, y, d, ray_len(kind), i, j));
    }
}

} // verus!
