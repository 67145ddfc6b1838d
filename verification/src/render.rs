//! The textual dump of a grid: one row per rank, ranks numbered from
//! the far side inward, files lettered a to h, each cell a two-letter
//! piece code or placeholder, styled with terminal color codes — the
//! background alternating by checkerboard parity, the foreground
//! distinguishing the sides' colors, move targets and hit targets.

use vstd::prelude::*;

use crate::board::CellState;
use crate::board::Grid;
use crate::piece::symbol_spec;
use crate::piece::get_symbol;

verus! {

/// Both coordinates have the same parity: a light square of the
/// checkerboard.
pub open spec fn same_parity(x: int, y: int) -> bool {
    x % 2 == y % 2
}

/// The background code of the square at `(x, y)`.
pub open spec fn cell_bg(x: int, y: int) -> Seq<char> {
    if same_parity(x, y) {
        "\u{001b}[47m"@
    } else {
        "\u{001b}[40m"@
    }
}

/// The foreground code of the square at `(x, y)`: hit targets are
/// highlighted, pieces carry their side's color, everything else takes
/// the checkerboard default.
pub open spec fn cell_fg(g: Grid, x: int, y: int) -> Seq<char> {
    match g.at(x, y) {
        CellState::HitTarget(_, _) => "\u{001b}[91m"@,
        CellState::Occupied(_, side) => if g.spec_color_of(side) is Black {
            "\u{001b}[38;5;54m"@
        } else {
            "\u{001b}[38;5;207m"@
        },
        _ => if same_parity(x, y) {
            "\u{001b}[30m"@
        } else {
            "\u{001b}[37m"@
        },
    }
}

/// The two-letter body of the square at `(x, y)`: a piece code, a move
/// marker, or blank.
pub open spec fn cell_symbol(g: Grid, x: int, y: int) -> Seq<char> {
    match g.at(x, y) {
        CellState::Occupied(kind, _) => symbol_spec(kind),
        CellState::HitTarget(kind, _) => symbol_spec(kind),
        CellState::MoveTarget => ".."@,
        CellState::Empty => "  "@,
    }
}

/// The full dump of one square: colors, padded body, style reset.
pub open spec fn cell_text(g: Grid, x: int, y: int) -> Seq<char> {
    cell_fg(g, x, y) + cell_bg(x, y) + " "@ + cell_symbol(g, x, y) + " "@ + "\u{001b}[0m"@
}

/// The squares of row `y` in columns `0 .. n`, concatenated.
pub open spec fn row_cells(g: Grid, y: int, n: int) -> Seq<char>
    decreases n,
{
    if n <= 0 {
        Seq::empty()
    } else {
        row_cells(g, y, n - 1) + cell_text(g, n - 1, y)
    }
}

/// The rank numeral of row `y`: ranks count from the far side inward,
/// so row 0 is rank 8.
pub open spec fn rank_label(y: int) -> Seq<char> {
    if y == 0 {
        "8"@
    } else if y == 1 {
        "7"@
    } else if y == 2 {
        "6"@
    } else if y == 3 {
        "5"@
    } else if y == 4 {
        "4"@
    } else if y == 5 {
        "3"@
    } else if y == 6 {
        "2"@
    } else {
        "1"@
    }
}

/// One full dumped row: its rank numeral on both ends, the eight
/// squares between.
pub open spec fn row_text(g: Grid, y: int) -> Seq<char> {
    rank_label(y) + " "@ + row_cells(g, y, 8) + " "@ + rank_label(y) + "\n"@
}

/// Rows `0 .. n`, concatenated.
pub open spec fn rows_text(g: Grid, n: int) -> Seq<char>
    decreases n,
{
    if n <= 0 {
        Seq::empty()
    } else {
        rows_text(g, n - 1) + row_text(g, n - 1)
    }
}

/// The file letter of column `x`: a to h.
pub open spec fn file_label(x: int) -> Seq<char> {
    if x == 0 {
        "a"@
    } else if x == 1 {
        "b"@
    } else if x == 2 {
        "c"@
    } else if x == 3 {
        "d"@
    } else if x == 4 {
        "e"@
    } else if x == 5 {
        "f"@
    } else if x == 6 {
        "g"@
    } else {
        "h"@
    }
}

/// One padded file letter of the header and footer lines.
pub open spec fn file_cell(x: int) -> Seq<char> {
    " "@ + file_label(x) + "  "@
}

/// The file letters of columns `0 .. n`, concatenated.
pub open spec fn file_cells(n: int) -> Seq<char>
    decreases n,
{
    if n <= 0 {
        Seq::empty()
    } else {
        file_cells(n - 1) + file_cell(n - 1)
    }
}

/// The whole dump: the file letters on top, the eight rows, the file
/// letters again at the bottom.
pub open spec fn render_spec(g: Grid) -> Seq<char> {
    "  "@ + file_cells(8) + "\n"@ + rows_text(g, 8) + "  "@ + file_cells(8)
}

/// The rank numeral of row `y`.
fn rank_str(y: i8) -> (r: &'static str)
    requires
        0 <= y < 8,
    ensures
        r@ == rank_label(y as int),
{
    if y == 0 {
        "8"
    } else if y == 1 {
        "7"
    } else if y == 2 {
        "6"
    } else if y == 3 {
        "5"
    } else if y == 4 {
        "4"
    } else if y == 5 {
        "3"
    } else if y == 6 {
        "2"
    } else {
        "1"
    }
}

/// The file letter of column `x`.
fn file_str(x: i8) -> (r: &'static str)
    requires
        0 <= x < 8,
    ensures
        r@ == file_label(x as int),
{
    if x == 0 {
        "a"
    } else if x == 1 {
        "b"
    } else if x == 2 {
        "c"
    } else if x == 3 {
        "d"
    } else if x == 4 {
        "e"
    } else if x == 5 {
        "f"
    } else if x == 6 {
        "g"
    } else {
        "h"
    }
}

/// Appends the padded file-letter line body to `val`.
fn append_file_cells(val: &mut String)
    ensures
        final(val)@ == old(val)@ + file_cells(8),
{
    let ghost base = val@;
    let mut x: i8 = 0;
    while x < 8
        invariant
            0 <= x <= 8,
            val@ == base + file_cells(x as int),
        decreases 8 - x,
    {
        val.append(" ");
        val.append(file_str(x));
        val.append("  ");
        proof {
            assert(val@ =~= base + file_cells(x as int + 1));
        }
        x = x + 1;
    }
}

impl Grid {
    /// A fixed-width textual dump of the whole grid, styled with
    /// terminal color codes. A debug affordance, independent of any
    /// graphical presentation.
    pub fn render(&self) -> (r: String)
        requires
            self.wf(),
        ensures
            r@ == render_spec(*self),
    {
        let mut val = String::from_str("  ");
        append_file_cells(&mut val);
        val.append("\n");
        let ghost header = "  "@ + file_cells(8) + "\n"@;
        proof {
            assert(val@ =~= header);
        }
        let mut y: i8 = 0;
        while y < 8
            invariant
                self.wf(),
                0 <= y <= 8,
                header == "  "@ + file_cells(8) + "\n"@,
                val@ == header + rows_text(*self, y as int),
            decreases 8 - y,
        {
            let ghost row_base = val@;
            val.append(rank_str(y));
            val.append(" ");
            let mut x: i8 = 0;
            while x < 8
                invariant
                    self.wf(),
                    0 <= y < 8,
                    0 <= x <= 8,
                    val@ == row_base + rank_label(y as int) + " "@ + row_cells(
                        *self,
                        y as int,
                        x as int,
                    ),
                decreases 8 - x,
            {
                let light = (x % 2) == (y % 2);
                let cell = self.get(x, y);
                let fg: &'static str = match cell {
                    CellState::HitTarget(_, _) => "\u{001b}[91m",
                    CellState::Occupied(_, side) => match self.color_of(side) {
                        crate::board::Color::Black => "\u{001b}[38;5;54m",
                        crate::board::Color::White => "\u{001b}[38;5;207m",
                    },
                    _ => if light {
                        "\u{001b}[30m"
                    } else {
                        "\u{001b}[37m"
                    },
                };
                let bg: &'static str = if light {
                    "\u{001b}[47m"
                } else {
                    "\u{001b}[40m"
                };
                let symbol: &'static str = match cell {
                    CellState::Occupied(kind, _) => get_symbol(kind),
                    CellState::HitTarget(kind, _) => get_symbol(kind),
                    CellState::MoveTarget => "..",
                    CellState::Empty => "  ",
                };
                val.append(fg);
                val.append(bg);
                val.append(" ");
                val.append(symbol);
                val.append(" ");
                val.append("\u{001b}[0m");
                proof {
                    assert(fg@ == cell_fg(*self, x as int, y as int));
                    assert(symbol@ == cell_symbol(*self, x as int, y as int));
                    assert(val@ =~= row_base + rank_label(y as int) + " "@ + row_cells(
                        *self,
                        y as int,
                        x as int + 1,
                    ));
                }
                x = x + 1;
            }
            val.append(" ");
            val.append(rank_str(y));
            val.append("\n");
            proof {
                assert(val@ =~= header + rows_text(*self, y as int + 1));
            }
            y = y + 1;
        }
        val.append("  ");
        append_file_cells(&mut val);
        proof {
            assert(val@ =~= render_spec(*self));
        }
        val
    }
}

} // verus!
