//! The binary tree algorithm.

use crate::grid::{lemma_blank, lemma_same_cells, Grid, Maze};
use crate::passages::{lemma_binary_perfect, lemma_connected, lemma_exits_ahead};
use crate::random::RandomSource;
use vstd::prelude::*;

verus! {

impl Grid {
    /// What the binary tree algorithm makes of a row `y` below row 0 from
    /// column `x` on, and the place in the script where it ends, when its
    /// coins are read from `script` at `cursor`. The cell of the last column
    /// is opened to the north without a flip; any other cell is opened to the
    /// north on heads and to the east on tails.
    pub open spec fn binary_row(
        self,
        x: int,
        y: int,
        script: Seq<usize>,
        cursor: nat,
    ) -> (Grid, nat)
        decreases self.columns - x,
    {
        if x >= self.columns {
            (self, cursor)
        } else if x == self.columns - 1 {
            (self.carved_north(x, y), cursor)
        } else if RandomSource::scripted_pick(script, cursor, 2) == 0 {
            self.carved_north(x, y).binary_row(
                x + 1,
                y,
                script,
                RandomSource::next_cursor(script, cursor),
            )
        } else {
            self.carved_east(x, y).binary_row(
                x + 1,
                y,
                script,
                RandomSource::next_cursor(script, cursor),
            )
        }
    }

    /// What the binary tree algorithm makes of the rows from `y` up to row
    /// 0, and the place in the script where it ends.
    pub open spec fn binary_rows(self, y: int, script: Seq<usize>, cursor: nat) -> (Grid, nat)
        decreases y,
    {
        if y <= 0 {
            (self.corridor_from(0), cursor)
        } else {
            let row = self.binary_row(0, y, script, cursor);
            row.0.binary_rows(y - 1, script, row.1)
        }
    }

    /// What the binary tree algorithm has left to do when it stands before
    /// (`x`, `y`): the grid and the place in the script that it ends with.
    pub open spec fn binary_rest(
        self,
        x: int,
        y: int,
        script: Seq<usize>,
        cursor: nat,
    ) -> (Grid, nat) {
        if y <= 0 {
            (self.corridor_from(x), cursor)
        } else {
            let row = self.binary_row(x, y, script, cursor);
            row.0.binary_rows(y - 1, script, row.1)
        }
    }

    /// What the binary tree algorithm makes of a grid, and the place in the
    /// script where it ends, when its coins are read from `script` at
    /// `cursor`.
    pub open spec fn binary_tree(self, script: Seq<usize>, cursor: nat) -> (Grid, nat) {
        self.binary_rows(self.rows - 1, script, cursor)
    }

    /// The number of coins that the binary tree algorithm has flipped
    /// before it visits (`x`, `y`), a cell below row 0 and left of the last
    /// column: one for each such cell of the rows below `y`, and one for each
    /// cell of row `y` left of `x`.
    pub open spec fn coin_rank(self, x: int, y: int) -> int {
        (self.rows - 1 - y) * (self.columns - 1) + x
    }

    /// The number of coins that the binary tree algorithm flips in all.
    pub open spec fn coins(self) -> int {
        (self.rows - 1) * (self.columns - 1)
    }

    /// Among the rows below `y` and the cells of row `y` left of `x`, every
    /// cell below row 0 and left of the last column is open to the north
    /// exactly where the script, read from `cursor`, shows heads at the
    /// cell's flip.
    pub open spec fn follows_coins_to(
        self,
        script: Seq<usize>,
        cursor: nat,
        x: int,
        y: int,
    ) -> bool {
        forall|a: int, b: int|
            0 <= a < self.columns - 1 && 0 < b < self.rows && (b > y || (b == y && a < x)) ==> (
            #[trigger] self.cell(a, b)).north == RandomSource::heads_after(
                script,
                cursor,
                self.coin_rank(a, b) as nat,
            )
    }

    /// Every cell below row 0 and left of the last column is open to the
    /// north exactly where the script, read from `cursor`, shows heads at
    /// the cell's flip.
    pub open spec fn follows_coins(self, script: Seq<usize>, cursor: nat) -> bool {
        self.follows_coins_to(script, cursor, 0, 0)
    }

    /// Where the binary tree algorithm stands before it visits (`x`, `y`)
    /// on any grid: in the rows below `y` and in row `y` left of `x`, every
    /// cell of row 0 but the last is open to the east, and every other cell
    /// is open to the north or to the east.
    pub open spec fn binary_reach(self, x: int, y: int) -> bool {
        forall|a: int, b: int|
            self.contains(a, b) && (b > y || (b == y && a < x)) ==> {
                let c = #[trigger] self.cell(a, b);
                if b == 0 {
                    a < self.columns - 1 ==> c.east
                } else {
                    c.north || c.east
                }
            }
    }

    /// Where the binary tree algorithm stands before it visits (`x`, `y`)
    /// on a grid that was blank: the rows below `y` and the cells of row `y`
    /// left of `x` are carved, and no other cell is open to the north or the
    /// east.
    pub open spec fn binary_progress(self, x: int, y: int) -> bool {
        forall|a: int, b: int|
            self.contains(a, b) ==> {
                let c = #[trigger] self.cell(a, b);
                if b > y || (b == y && a < x) {
                    if b == 0 {
                        a < self.columns - 1 ==> c.east
                    } else {
                        c.north != c.east && (a == self.columns - 1 ==> c.north)
                    }
                } else {
                    !c.north && !c.east
                }
            }
    }
}

/// The binary tree algorithm is reproducible: the script decides the maze.
/// Two well-formed grids of one size that both have the binary tree shape
/// and both follow the coins of one script from one place are the same grid.
pub proof fn lemma_binary_reproducible(g: Grid, h: Grid, script: Seq<usize>, cursor: nat)
    requires
        g.well_formed(),
        h.well_formed(),
        g.rows == h.rows,
        g.columns == h.columns,
        g.binary_shape(),
        h.binary_shape(),
        g.follows_coins(script, cursor),
        h.follows_coins(script, cursor),
    ensures
        g == h,
{
    assert forall|x: int, y: int| g.contains(x, y) implies #[trigger] g.cell(x, y).north
        == h.cell(x, y).north && g.cell(x, y).east == h.cell(x, y).east by {
        assert(g.symmetric_at(x, y));
        assert(h.symmetric_at(x, y));
        assert(h.cell(x, y) == h.cell(x, y));
    }
    assert forall|x: int, y: int| g.contains(x, y) implies #[trigger] g.cell(x, y) == h.cell(
        x,
        y,
    ) by {
        assert(g.symmetric_at(x, y));
        assert(h.symmetric_at(x, y));
        if x > 0 {
            assert(g.cell(x - 1, y).east == h.cell(x - 1, y).east);
        }
        if y + 1 < g.rows {
            assert(g.cell(x, y + 1).north == h.cell(x, y + 1).north);
        }
    }
    lemma_same_cells(g, h);
}

impl Maze {
    /// Carves by the binary tree algorithm, from the bottom row to the top
    /// and from left to right: a cell of row 0 is opened to the east, a cell
    /// of the last column to the north, and any other cell to the north where
    /// the coin shows heads, else to the east.
    pub fn populate_binary_tree(&mut self, source: &mut RandomSource)
        requires
            old(self)@.well_formed(),
        ensures
            final(self)@.well_formed(),
            final(self).chosen() == old(self).chosen(),
            old(self)@.within(final(self)@),
            final(self)@.top_corridor(),
            final(self)@.opens_ahead(),
            final(self)@.connected(),
            old(self)@.is_blank() ==> final(self)@.binary_shape() && final(self)@.perfect(),
            final(source).is_scripted() == old(source).is_scripted(),
            final(source).script() == old(source).script(),
            old(source).is_scripted() ==> final(source).cursor() == RandomSource::cursor_after(
                old(source).script(),
                old(source).cursor(),
                old(self)@.coins() as nat,
            ),
            old(source).is_scripted() && old(self)@.is_blank() ==> final(self)@.follows_coins(
                old(source).script(),
                old(source).cursor(),
            ),
            old(source).is_scripted() ==> (final(self)@, final(source).cursor())
                == old(self)@.binary_tree(old(source).script(), old(source).cursor()),
    {
        let rows: usize = self.rows();
        let columns: usize = self.columns();
        let ghost blank = self@.is_blank();
        let ghost scripted = source.is_scripted();
        let ghost script = source.script();
        let ghost start = source.cursor();
        let ghost goal = self@.binary_tree(source.script(), source.cursor());
        let ghost mut flips: int = 0;
        proof {
            if blank {
                lemma_blank(self@.rows, self@.columns);
            }
            assert((rows - rows) * (columns - 1) == 0) by (nonlinear_arith);
        }
        let mut y: usize = rows;
        while y > 0
            invariant
                self@.well_formed(),
                self@.rows == rows,
                self@.columns == columns,
                self.chosen() == old(self).chosen(),
                y <= rows,
                old(self)@.within(self@),
                self@.binary_reach(columns as int, y as int),
                blank ==> self@.binary_progress(columns as int, y as int),
                source.is_scripted() == scripted,
                source.script() == script,
                flips >= 0,
                flips == if y == 0 {
                    self@.coins()
                } else {
                    (rows - y) * (columns - 1)
                },
                scripted ==> source.cursor() == RandomSource::cursor_after(
                    script,
                    start,
                    flips as nat,
                ),
                scripted && blank ==> self@.follows_coins_to(
                    script,
                    start,
                    columns as int,
                    y as int,
                ),
                scripted ==> goal == if y == 0 {
                    (self@, source.cursor())
                } else {
                    self@.binary_rows(y as int - 1, script, source.cursor())
                },
            decreases y,
        {
            y = y - 1;
            let mut x: usize = 0;
            proof {
                assert((rows - 1 - y) * (columns - 1) >= 0) by (nonlinear_arith)
                    requires
                        rows - 1 - y >= 0,
                        columns - 1 >= 0,
                ;
            }
            while x < columns
                invariant
                    self@.well_formed(),
                    self@.rows == rows,
                    self@.columns == columns,
                    self.chosen() == old(self).chosen(),
                    y < rows,
                    x <= columns,
                    old(self)@.within(self@),
                    self@.binary_reach(x as int, y as int),
                    blank ==> self@.binary_progress(x as int, y as int),
                    source.is_scripted() == scripted,
                    source.script() == script,
                    flips >= 0,
                    (rows - 1 - y) * (columns - 1) >= 0,
                    flips == if y == 0 {
                        self@.coins()
                    } else if x < columns {
                        self@.coin_rank(x as int, y as int)
                    } else {
                        self@.coin_rank(columns - 1, y as int)
                    },
                    scripted ==> source.cursor() == RandomSource::cursor_after(
                        script,
                        start,
                        flips as nat,
                    ),
                    scripted && blank ==> self@.follows_coins_to(
                        script,
                        start,
                        x as int,
                        y as int,
                    ),
                    scripted ==> goal == self@.binary_rest(
                        x as int,
                        y as int,
                        script,
                        source.cursor(),
                    ),
                decreases columns - x,
            {
                let ghost before = self@;
                if y == 0 {
                    self.open_cell_east(x, y);
                } else if x == columns - 1 {
                    self.open_cell_north(x, y);
                } else {
                    let heads: bool = source.flip();
                    if heads {
                        self.open_cell_north(x, y);
                    } else {
                        self.open_cell_east(x, y);
                    }
                    proof {
                        flips = flips + 1;
                    }
                }
                proof {
                    assert(before.within(self@));
                    assert(self@.binary_reach(x + 1, y as int));
                    if blank {
                        assert(before.symmetric_at(x as int, y as int));
                        assert(self@.binary_progress(x + 1, y as int));
                    }
                    if scripted && blank {
                        assert(self@.follows_coins_to(script, start, x + 1, y as int));
                    }
                }
                x = x + 1;
            }
            proof {
                assert((rows - 1 - y) * (columns - 1) + (columns - 1) == (rows - y) * (columns
                    - 1)) by (nonlinear_arith);
            }
        }
        proof {
            assert(self@.top_corridor());
            assert(self@.opens_ahead());
            lemma_exits_ahead(self@);
            lemma_connected(self@);
            if blank {
                assert(self@.binary_shape());
                lemma_binary_perfect(self@);
            }
        }
    }
}

} // verus!
