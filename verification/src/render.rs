//! The text rendering of a grid.

use crate::grid::{Grid, Maze};
use vstd::prelude::*;
use vstd::string::StringExecFns;

verus! {

/// The decimal digit `d`.
pub open spec fn digit(d: nat) -> Seq<char> {
    if d == 0 {
        "0"@
    } else if d == 1 {
        "1"@
    } else if d == 2 {
        "2"@
    } else if d == 3 {
        "3"@
    } else if d == 4 {
        "4"@
    } else if d == 5 {
        "5"@
    } else if d == 6 {
        "6"@
    } else if d == 7 {
        "7"@
    } else if d == 8 {
        "8"@
    } else {
        "9"@
    }
}

/// The decimal numeral of `n`, without leading zeros.
pub open spec fn decimal(n: nat) -> Seq<char>
    decreases n,
{
    if n < 10 {
        digit(n)
    } else {
        decimal(n / 10) + digit(n % 10)
    }
}

/// The numeral of `n`, right-justified in three places: padded with spaces
/// on the left where it has fewer than three digits.
pub open spec fn label(n: nat) -> Seq<char> {
    (if n < 10 {
        "  "@
    } else if n < 100 {
        " "@
    } else {
        Seq::empty()
    }) + decimal(n)
}

impl Grid {
    /// The part of a border line that follows the first column: `n` times
    /// the piece for one more column.
    pub open spec fn border_joints(n: nat) -> Seq<char>
        decreases n,
    {
        if n == 0 {
            Seq::empty()
        } else {
            Grid::border_joints((n - 1) as nat) + "--+-"@
        }
    }

    /// The border line above and below the maze.
    pub open spec fn border(self) -> Seq<char> {
        "    +-"@ + Grid::border_joints((self.columns - 1) as nat) + "--+"@
    }

    /// The labels of the first `n` columns, numbered from 1, each followed
    /// by a space.
    pub open spec fn header_cells(n: nat) -> Seq<char>
        decreases n,
    {
        if n == 0 {
            Seq::empty()
        } else {
            Grid::header_cells((n - 1) as nat) + label(n) + " "@
        }
    }

    /// The header line: a gutter of five spaces, then the column labels.
    pub open spec fn header(self) -> Seq<char> {
        "     "@ + Grid::header_cells(self.columns)
    }

    /// The first `n` cells of row `y` as text: three spaces for each, then
    /// a space where it is open to the east and a bar where it is not.
    pub open spec fn row_cells(self, y: int, n: nat) -> Seq<char>
        decreases n,
    {
        if n == 0 {
            Seq::empty()
        } else {
            self.row_cells(y, (n - 1) as nat) + "   "@ + (if self.cell(n - 1, y).east {
                " "@
            } else {
                "|"@
            })
        }
    }

    /// The content line of row `y`: its label, numbered from 1, a space, the
    /// west wall, then its cells.
    pub open spec fn row_line(self, y: int) -> Seq<char> {
        label((y + 1) as nat) + " "@ + "|"@ + self.row_cells(y, self.columns)
    }

    /// The walls below the first `n` cells of row `y` as text: for each,
    /// three spaces where it is open to the south and three dashes where it
    /// is not, then a corner.
    pub open spec fn wall_cells(self, y: int, n: nat) -> Seq<char>
        decreases n,
    {
        if n == 0 {
            Seq::empty()
        } else {
            self.wall_cells(y, (n - 1) as nat) + (if self.cell(n - 1, y).south {
                "   "@
            } else {
                "---"@
            }) + "+"@
        }
    }

    /// The wall line between row `y` and the row below it.
    pub open spec fn wall_line(self, y: int) -> Seq<char> {
        "    +"@ + self.wall_cells(y, self.columns)
    }

    /// The lines of the first `n` rows, each ended by a line feed: for each
    /// row its content line and, but for the last row of the grid, the wall
    /// line below it.
    pub open spec fn rows_text(self, n: nat) -> Seq<char>
        decreases n,
    {
        if n == 0 {
            Seq::empty()
        } else {
            self.rows_text((n - 1) as nat) + self.row_line(n - 1) + "\n"@ + (if n - 1 < self.rows
                - 1 {
                self.wall_line(n - 1) + "\n"@
            } else {
                Seq::empty()
            })
        }
    }

    /// The whole diagram: header, border, rows, border, each line ended by
    /// a line feed.
    pub open spec fn rendered(self) -> Seq<char> {
        self.header() + "\n"@ + self.border() + "\n"@ + self.rows_text(self.rows) + self.border()
            + "\n"@
    }
}

/// The decimal digit `d` as text.
fn digit_text(d: usize) -> (text: &'static str)
    requires
        d < 10,
    ensures
        text@ == digit(d as nat),
{
    if d == 0 {
        "0"
    } else if d == 1 {
        "1"
    } else if d == 2 {
        "2"
    } else if d == 3 {
        "3"
    } else if d == 4 {
        "4"
    } else if d == 5 {
        "5"
    } else if d == 6 {
        "6"
    } else if d == 7 {
        "7"
    } else if d == 8 {
        "8"
    } else {
        "9"
    }
}

/// The decimal numeral of `n`.
pub fn decimal_text(n: usize) -> (text: String)
    ensures
        text@ == decimal(n as nat),
    decreases n,
{
    if n < 10 {
        String::from_str(digit_text(n))
    } else {
        let mut text = decimal_text(n / 10);
        text.append(digit_text(n % 10));
        text
    }
}

/// The numeral of `n`, right-justified in three places.
pub fn label_text(n: usize) -> (text: String)
    ensures
        text@ == label(n as nat),
{
    let mut text = if n < 10 {
        String::from_str("  ")
    } else if n < 100 {
        String::from_str(" ")
    } else {
        String::new()
    };
    let digits = decimal_text(n);
    text.append(digits.as_str());
    text
}

impl Maze {
    /// The border line above and below the maze.
    pub fn draw_horizontal(&self) -> (line: String)
        requires
            self@.well_formed(),
        ensures
            line@ == self@.border(),
    {
        let columns: usize = self.columns();
        let mut line = String::from_str("    +-");
        let mut x: usize = 1;
        while x < columns
            invariant
                1 <= x <= columns,
                line@ == "    +-"@ + Grid::border_joints((x - 1) as nat),
            decreases columns - x,
        {
            line.append("--+-");
            x = x + 1;
            assert(line@ =~= "    +-"@ + Grid::border_joints((x - 1) as nat));
        }
        line.append("--+");
        line
    }

    /// The header line with the column labels.
    fn draw_header(&self) -> (line: String)
        requires
            self@.well_formed(),
        ensures
            line@ == self@.header(),
    {
        let columns: usize = self.columns();
        let mut line = String::from_str("     ");
        let mut x: usize = 0;
        while x < columns
            invariant
                x <= columns,
                line@ == "     "@ + Grid::header_cells(x as nat),
            decreases columns - x,
        {
            let number = label_text(x + 1);
            line.append(number.as_str());
            line.append(" ");
            x = x + 1;
            assert(line@ =~= "     "@ + Grid::header_cells(x as nat));
        }
        line
    }

    /// The content line of row `y`.
    fn draw_row(&self, y: usize) -> (line: String)
        requires
            self@.well_formed(),
            y < self@.rows,
        ensures
            line@ == self@.row_line(y as int),
    {
        let rows: usize = self.rows();
        let columns: usize = self.columns();
        assert(y < rows);
        let mut line = label_text(y + 1);
        line.append(" ");
        line.append("|");
        let ghost start = line@;
        let mut x: usize = 0;
        while x < columns
            invariant
                self@.well_formed(),
                self@.columns == columns,
                y < self@.rows,
                x <= columns,
                line@ == start + self@.row_cells(y as int, x as nat),
            decreases columns - x,
        {
            line.append("   ");
            if self.cell_at(x, y).east {
                line.append(" ");
            } else {
                line.append("|");
            }
            x = x + 1;
            assert(line@ =~= start + self@.row_cells(y as int, x as nat));
        }
        line
    }

    /// The wall line below row `y`.
    fn draw_wall(&self, y: usize) -> (line: String)
        requires
            self@.well_formed(),
            y < self@.rows,
        ensures
            line@ == self@.wall_line(y as int),
    {
        let columns: usize = self.columns();
        let mut line = String::from_str("    +");
        let mut x: usize = 0;
        while x < columns
            invariant
                self@.well_formed(),
                self@.columns == columns,
                y < self@.rows,
                x <= columns,
                line@ == "    +"@ + self@.wall_cells(y as int, x as nat),
            decreases columns - x,
        {
            if self.cell_at(x, y).south {
                line.append("   ");
            } else {
                line.append("---");
            }
            line.append("+");
            x = x + 1;
            assert(line@ =~= "    +"@ + self@.wall_cells(y as int, x as nat));
        }
        line
    }

    /// The maze as a text diagram. The text depends on the grid alone.
    pub fn to_string(&self) -> (text: String)
        requires
            self@.well_formed(),
        ensures
            text@ == self@.rendered(),
    {
        let rows: usize = self.rows();
        let border = self.draw_horizontal();
        let mut text = self.draw_header();
        text.append("\n");
        text.append(border.as_str());
        text.append("\n");
        let ghost start = text@;
        let mut y: usize = 0;
        while y < rows
            invariant
                self@.well_formed(),
                self@.rows == rows,
                y <= rows,
                text@ == start + self@.rows_text(y as nat),
            decreases rows - y,
        {
            let line = self.draw_row(y);
            text.append(line.as_str());
            text.append("\n");
            if y < rows - 1 {
                let wall = self.draw_wall(y);
                text.append(wall.as_str());
                text.append("\n");
            }
            y = y + 1;
            assert(text@ =~= start + self@.rows_text(y as nat));
        }
        text.append(border.as_str());
        text.append("\n");
        assert(text@ =~= self@.rendered());
        text
    }
}

/// Rendering has no state of its own: two mazes with the same grid render to
/// the same text, and so does one maze rendered twice.
pub proof fn lemma_render_repeats(first: Maze, second: Maze)
    requires
        first@ == second@,
    ensures
        first@.rendered() == second@.rendered(),
{
}

} // verus!
