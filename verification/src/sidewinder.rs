//! The sidewinder algorithm.

use crate::grid::{lemma_blank, one_wall_apart, Grid, Maze};
use crate::passages::{
    lemma_connected, lemma_exit_kept, lemma_runs_kept, lemma_sidewinder_perfect,
    lemma_single_exits_kept,
};
use crate::random::RandomSource;
use vstd::prelude::*;

verus! {

impl Grid {
    /// The number of cells in the run that ends at (`x`, `y`): that cell,
    /// and its neighbours to the west for as long as the wall toward them is
    /// open.
    pub open spec fn run_length(self, x: int, y: int) -> nat
        decreases x,
    {
        if x > 0 && self.cell(x, y).west {
            1 + self.run_length(x - 1, y)
        } else {
            1
        }
    }

    /// What the sidewinder algorithm makes of a row `y` below row 0 from
    /// column `x` on, and the place in the script where it ends, when its
    /// picks are read from `script` at `cursor`. At the last column it
    /// closes the run: one pick chooses the cell of the run, counted from `x`
    /// westward, that is opened to the north. At any other column it flips a
    /// coin first, closes the run on heads and opens the cell to the east on
    /// tails.
    pub open spec fn sidewinder_row(
        self,
        x: int,
        y: int,
        script: Seq<usize>,
        cursor: nat,
    ) -> (Grid, nat)
        decreases self.columns - x,
    {
        if x >= self.columns {
            (self, cursor)
        } else if x == self.columns - 1 {
            let k = x - RandomSource::scripted_pick(script, cursor, self.run_length(x, y));
            (self.carved_north(k, y), RandomSource::next_cursor(script, cursor))
        } else if RandomSource::scripted_pick(script, cursor, 2) == 0 {
            let drawn = RandomSource::next_cursor(script, cursor);
            let k = x - RandomSource::scripted_pick(script, drawn, self.run_length(x, y));
            self.carved_north(k, y).sidewinder_row(
                x + 1,
                y,
                script,
                RandomSource::next_cursor(script, drawn),
            )
        } else {
            self.carved_east(x, y).sidewinder_row(
                x + 1,
                y,
                script,
                RandomSource::next_cursor(script, cursor),
            )
        }
    }

    /// What the sidewinder algorithm makes of the rows from `y` up to row 0,
    /// and the place in the script where it ends.
    pub open spec fn sidewinder_rows(self, y: int, script: Seq<usize>, cursor: nat) -> (Grid, nat)
        decreases y,
    {
        if y <= 0 {
            (self.corridor_from(0), cursor)
        } else {
            let row = self.sidewinder_row(0, y, script, cursor);
            row.0.sidewinder_rows(y - 1, script, row.1)
        }
    }

    /// What the sidewinder algorithm has left to do when it stands before
    /// (`x`, `y`): the grid and the place in the script that it ends with.
    pub open spec fn sidewinder_rest(
        self,
        x: int,
        y: int,
        script: Seq<usize>,
        cursor: nat,
    ) -> (Grid, nat) {
        if y <= 0 {
            (self.corridor_from(x), cursor)
        } else {
            let row = self.sidewinder_row(x, y, script, cursor);
            row.0.sidewinder_rows(y - 1, script, row.1)
        }
    }

    /// What the sidewinder algorithm makes of a grid, and the place in the
    /// script where it ends, when its picks are read from `script` at
    /// `cursor`.
    pub open spec fn sidewinder(self, script: Seq<usize>, cursor: nat) -> (Grid, nat) {
        self.sidewinder_rows(self.rows - 1, script, cursor)
    }

    /// Where the sidewinder algorithm stands before it visits (`x`, `y`) on
    /// any grid, with the open run starting at column `s`: every cell of the
    /// rows below `y`, and of row `y` left of `s`, has an exit in its run;
    /// the cells from `s` up to `x` are joined. In row 0, the cells left of
    /// `x` are open to the east.
    pub open spec fn sidewinder_reach(self, x: int, y: int, s: int) -> bool {
        &&& forall|a: int, b: int| self.contains(a, b) && b > y ==> #[trigger] self.has_exit(a, b)
        &&& if y == 0 {
            forall|a: int| 0 <= a < x && a < self.columns - 1 ==> (#[trigger] self.cell(a, 0)).east
        } else {
            &&& 0 <= s <= x <= self.columns
            &&& x == self.columns ==> s == x
            &&& forall|j: int| 0 <= j < s ==> #[trigger] self.has_exit(j, y)
            &&& forall|j: int| s <= j < x ==> (#[trigger] self.cell(j, y)).east
        }
    }

    /// Where the sidewinder algorithm stands in a row `y` below row 0 of a
    /// grid that was blank, before it visits column `x`, with the open run
    /// starting at column `s`: the runs left of `s` are closed, and none of
    /// them holds two cells that are open to the north; the cells from `s`
    /// up to `x` are joined and none of them is open to the north; the cells
    /// from `x` on are untouched.
    pub open spec fn run_progress(self, y: int, x: int, s: int) -> bool {
        &&& 0 <= s <= x <= self.columns
        &&& x == self.columns ==> s == x
        &&& forall|j: int| s <= j < self.columns ==> !(#[trigger] self.cell(j, y)).north
        &&& s == 0 || !self.cell(s - 1, y).east
        &&& forall|j: int| s <= j < self.columns ==> (#[trigger] self.cell(j, y)).east == (j < x)
        &&& forall|a: int, b: int|
            0 <= a < b < s && self.cell(a, y).north && self.cell(b, y).north
                ==> !#[trigger] self.same_run(y, a, b)
    }

    /// Where the sidewinder algorithm stands before it visits (`x`, `y`) on
    /// a grid that was blank: in the rows below `y` no run holds two cells
    /// that are open to the north, the rows above it are untouched, and row
    /// `y` is carved up to `x`.
    pub open spec fn sidewinder_progress(self, x: int, y: int, s: int) -> bool {
        &&& forall|b: int| y < b < self.rows ==> #[trigger] self.single_exits(b)
        &&& forall|a: int, b: int|
            self.contains(a, b) && b < y ==> !(#[trigger] self.cell(a, b)).north && !self.cell(
                a,
                b,
            ).east
        &&& if y == 0 {
            forall|a: int| 0 <= a < x && a < self.columns - 1 ==> (#[trigger] self.cell(a, 0)).east
        } else {
            self.run_progress(y, x, s)
        }
    }
}

/// Opening walls keeps the exits of the rows below `y`, and those of row
/// `y` left of `s`.
proof fn lemma_exits_kept(g: Grid, h: Grid, y: int, s: int)
    requires
        g.within(h),
        0 <= y < g.rows,
        forall|a: int, b: int| g.contains(a, b) && b > y ==> #[trigger] g.has_exit(a, b),
        forall|j: int| 0 <= j < s && j < g.columns ==> #[trigger] g.has_exit(j, y),
    ensures
        forall|a: int, b: int| h.contains(a, b) && b > y ==> #[trigger] h.has_exit(a, b),
        forall|j: int| 0 <= j < s && j < g.columns ==> #[trigger] h.has_exit(j, y),
{
    assert forall|a: int, b: int| h.contains(a, b) && b > y implies #[trigger] h.has_exit(
        a,
        b,
    ) by {
        assert(g.has_exit(a, b));
        lemma_exit_kept(g, h, a, b);
    }
    assert forall|j: int| 0 <= j < s && j < g.columns implies #[trigger] h.has_exit(j, y) by {
        assert(g.has_exit(j, y));
        lemma_exit_kept(g, h, j, y);
    }
}

/// The sidewinder algorithm's step that closes the run ending at (`x`, `y`)
/// by opening cell `k` of it to the north gives every cell of the row up to
/// `x` an exit.
proof fn lemma_reach_closed(g: Grid, h: Grid, x: int, y: int, s: int, k: int)
    requires
        g.well_formed(),
        0 < y < g.rows,
        0 <= x < g.columns,
        0 <= k <= x,
        g.same_run(y, k, x),
        one_wall_apart(g, h, k, y, false),
        g.sidewinder_reach(x, y, s),
    ensures
        h.sidewinder_reach(x + 1, y, x + 1),
{
    assert(g.within(h));
    lemma_exits_kept(g, h, y, s);
    assert forall|j: int| 0 <= j < x + 1 implies #[trigger] h.has_exit(j, y) by {
        if j >= s {
            assert forall|i: int| (j <= i < k || k <= i < j) implies (#[trigger] h.cell(
                i,
                y,
            )).east by {
                assert(g.cell(i, y).east);
            }
            assert(h.same_run(y, j, k) && h.cell(k, y).north);
        }
    }
}

/// The sidewinder algorithm's step that joins (`x`, `y`) to its east
/// neighbour keeps the exits and makes the open run one cell longer.
proof fn lemma_reach_extended(g: Grid, h: Grid, x: int, y: int, s: int)
    requires
        g.well_formed(),
        0 < y < g.rows,
        x + 1 < g.columns,
        one_wall_apart(g, h, x, y, true),
        g.sidewinder_reach(x, y, s),
    ensures
        h.sidewinder_reach(x + 1, y, s),
{
    assert(g.within(h));
    lemma_exits_kept(g, h, y, s);
    assert forall|j: int| s <= j < x + 1 implies (#[trigger] h.cell(j, y)).east by {
        if j < x {
            assert(g.cell(j, y).east);
        }
    }
}

/// Opening a wall of a cell in row `y` keeps the runs of the rows below `y`
/// free of second exits.
proof fn lemma_lower_rows_kept(g: Grid, h: Grid, x: int, y: int, east: bool)
    requires
        g.well_formed(),
        one_wall_apart(g, h, x, y, east),
        forall|b: int| y < b < g.rows ==> #[trigger] g.single_exits(b),
    ensures
        forall|b: int| y < b < h.rows ==> #[trigger] h.single_exits(b),
{
    assert forall|b: int| y < b < h.rows implies #[trigger] h.single_exits(b) by {
        assert(g.single_exits(b));
        assert(g.same_easts(h, b, g.columns as int));
        assert(g.same_norths(h, b, g.columns as int));
        lemma_single_exits_kept(g, h, b);
    }
}

/// The sidewinder algorithm's step that joins (`x`, `y`) to its east
/// neighbour keeps its progress, with the open run one cell longer.
proof fn lemma_run_extended(g: Grid, h: Grid, x: int, y: int, s: int)
    requires
        g.well_formed(),
        0 < y < g.rows,
        x + 1 < g.columns,
        one_wall_apart(g, h, x, y, true),
        g.run_progress(y, x, s),
    ensures
        h.run_progress(y, x + 1, s),
{
    assert(g.same_easts(h, y, x));
    assert forall|a: int, b: int|
        0 <= a < b < s && h.cell(a, y).north && h.cell(b, y).north implies !#[trigger] h.same_run(
        y,
        a,
        b,
    ) by {
        lemma_runs_kept(g, h, y, x, a, b);
        assert(g.cell(a, y).north && g.cell(b, y).north);
        assert(!g.same_run(y, a, b));
    }
}

/// The sidewinder algorithm's step that closes the run from `s` to `x` in
/// row `y` by opening cell `k` of it to the north keeps its progress, with
/// a new run starting behind `x`.
proof fn lemma_run_closed(g: Grid, h: Grid, x: int, y: int, s: int, k: int)
    requires
        g.well_formed(),
        0 < y < g.rows,
        0 <= x < g.columns,
        s <= k <= x,
        one_wall_apart(g, h, k, y, false),
        g.run_progress(y, x, s),
    ensures
        h.run_progress(y, x + 1, x + 1),
{
    let n = g.columns as int;
    assert(g.same_easts(h, y, n));
    assert forall|a: int, b: int|
        0 <= a < b < x + 1 && h.cell(a, y).north && h.cell(b, y).north implies !#[trigger] h.same_run(
        y,
        a,
        b,
    ) by {
        lemma_runs_kept(g, h, y, n, a, b);
        if b < s {
            assert(g.cell(a, y).north && g.cell(b, y).north);
            assert(!g.same_run(y, a, b));
        } else {
            assert(b == k);
            if a >= s {
                assert(!g.cell(a, y).north);
            } else {
                assert(!g.cell(s - 1, y).east);
            }
        }
    }
}

impl Maze {
    /// The run that ends at (`x`, `y`): that cell first, then its neighbours
    /// to the west for as long as the wall toward them is open.
    pub fn select_sidewinder_run(&self, x: usize, y: usize) -> (run: Vec<(usize, usize)>)
        requires
            self@.well_formed(),
            self@.contains(x as int, y as int),
        ensures
            run@.len() == self@.run_length(x as int, y as int),
            1 <= run@.len() <= x + 1,
            forall|i: int| 0 <= i < run@.len() ==> (#[trigger] run@[i]).0 == x - i && run@[i].1 == y,
            forall|i: int| 0 <= i < run@.len() - 1 ==> (#[trigger] self@.cell(x - i, y as int)).west,
            !self@.cell(x - (run@.len() - 1), y as int).west,
    {
        let mut run: Vec<(usize, usize)> = Vec::new();
        run.push((x, y));
        let mut at: usize = x;
        let mut open: bool = self.cell_at(at, y).west;
        while open
            invariant
                self@.well_formed(),
                self@.contains(x as int, y as int),
                at <= x,
                run@.len() == x - at + 1,
                self@.run_length(x as int, y as int) == x - at + self@.run_length(
                    at as int,
                    y as int,
                ),
                open == self@.cell(at as int, y as int).west,
                forall|i: int|
                    0 <= i < run@.len() ==> (#[trigger] run@[i]).0 == x - i && run@[i].1 == y,
                forall|i: int|
                    0 <= i < run@.len() - 1 ==> (#[trigger] self@.cell(x - i, y as int)).west,
            decreases at,
        {
            proof {
                assert(self@.symmetric_at(at as int, y as int));
            }
            at = at - 1;
            run.push((at, y));
            open = self.cell_at(at, y).west;
        }
        run
    }

    /// Closes the run that ends at (`x`, `y`): opens one cell of it, picked
    /// by `source`, to the north, and returns that cell's column.
    pub fn open_sidewinder_north(&mut self, x: usize, y: usize, source: &mut RandomSource) -> (column:
        usize)
        requires
            old(self)@.well_formed(),
            old(self)@.contains(x as int, y as int),
        ensures
            column <= x,
            old(self)@.same_run(y as int, column as int, x as int),
            final(self)@ == old(self)@.carved_north(column as int, y as int),
            final(self)@.well_formed(),
            final(self).chosen() == old(self).chosen(),
            y > 0 ==> one_wall_apart(old(self)@, final(self)@, column as int, y as int, false),
            final(source).is_scripted() == old(source).is_scripted(),
            final(source).script() == old(source).script(),
            old(source).is_scripted() ==> column == x - RandomSource::scripted_pick(
                old(source).script(),
                old(source).cursor(),
                old(self)@.run_length(x as int, y as int),
            ) && final(source).cursor() == RandomSource::next_cursor(
                old(source).script(),
                old(source).cursor(),
            ),
    {
        let run = self.select_sidewinder_run(x, y);
        let choice: usize = source.pick(run.len());
        let cell = run[choice];
        proof {
            assert forall|j: int| cell.0 <= j < x implies (#[trigger] self@.cell(
                j,
                y as int,
            )).east by {
                let i = x - (j + 1);
                assert(self@.cell(x - i, y as int).west);
                assert(self@.symmetric_at(j + 1, y as int));
            }
        }
        self.open_cell_north(cell.0, cell.1);
        cell.0
    }

    /// Carves by the sidewinder algorithm, from the bottom row to the top
    /// and from left to right: a cell of row 0 is opened to the east; below
    /// it, at the last column and wherever the coin shows heads, the run that
    /// ends at the cell is closed by opening one of its cells to the north;
    /// any other cell is opened to the east, which extends the run.
    pub fn populate_sidewinder(&mut self, source: &mut RandomSource)
        requires
            old(self)@.well_formed(),
        ensures
            final(self)@.well_formed(),
            final(self).chosen() == old(self).chosen(),
            old(self)@.within(final(self)@),
            final(self)@.top_corridor(),
            final(self)@.exits_everywhere(),
            final(self)@.connected(),
            old(self)@.is_blank() ==> final(self)@.sidewinder_shape() && final(self)@.perfect(),
            final(source).is_scripted() == old(source).is_scripted(),
            final(source).script() == old(source).script(),
            old(source).is_scripted() ==> (final(self)@, final(source).cursor())
                == old(self)@.sidewinder(old(source).script(), old(source).cursor()),
    {
        let rows: usize = self.rows();
        let columns: usize = self.columns();
        let ghost blank = self@.is_blank();
        let ghost scripted = source.is_scripted();
        let ghost script = source.script();
        let ghost goal = self@.sidewinder(source.script(), source.cursor());
        proof {
            if blank {
                lemma_blank(self@.rows, self@.columns);
            }
        }
        let mut y: usize = rows;
        while y > 0
            invariant
                self@.well_formed(),
                self@.rows == rows,
                self@.columns == columns,
                self.chosen() == old(self).chosen(),
                y <= rows,
                old(self)@.within(self@),
                if y == 0 {
                    self@.top_corridor() && self@.exits_everywhere()
                } else {
                    self@.sidewinder_reach(0, y as int - 1, 0)
                },
                blank ==> if y == 0 {
                    self@.sidewinder_shape() && self@.perfect()
                } else {
                    self@.sidewinder_progress(0, y as int - 1, 0)
                },
                source.is_scripted() == scripted,
                source.script() == script,
                scripted ==> goal == if y == 0 {
                    (self@, source.cursor())
                } else {
                    self@.sidewinder_rows(y as int - 1, script, source.cursor())
                },
            decreases y,
        {
            y = y - 1;
            let mut x: usize = 0;
            let ghost mut s: int = 0;
            while x < columns
                invariant
                    self@.well_formed(),
                    self@.rows == rows,
                    self@.columns == columns,
                    self.chosen() == old(self).chosen(),
                    y < rows,
                    x <= columns,
                    old(self)@.within(self@),
                    self@.sidewinder_reach(x as int, y as int, s),
                    blank ==> self@.sidewinder_progress(x as int, y as int, s),
                    source.is_scripted() == scripted,
                    source.script() == script,
                    scripted ==> goal == self@.sidewinder_rest(
                        x as int,
                        y as int,
                        script,
                        source.cursor(),
                    ),
                decreases columns - x,
            {
                let ghost before = self@;
                if y == 0 {
                    self.open_cell_east(x, y);
                    proof {
                        assert(before.within(self@));
                        lemma_exits_kept(before, self@, y as int, 0);
                        if blank && x + 1 < columns {
                            lemma_lower_rows_kept(before, self@, x as int, y as int, true);
                        }
                    }
                } else {
                    let close: bool = x == columns - 1 || source.flip();
                    if close {
                        let column = self.open_sidewinder_north(x, y, source);
                        proof {
                            lemma_reach_closed(
                                before,
                                self@,
                                x as int,
                                y as int,
                                s,
                                column as int,
                            );
                            if blank {
                                if column < s {
                                    assert(before.cell(s - 1, y as int).east);
                                }
                                lemma_lower_rows_kept(
                                    before,
                                    self@,
                                    column as int,
                                    y as int,
                                    false,
                                );
                                lemma_run_closed(
                                    before,
                                    self@,
                                    x as int,
                                    y as int,
                                    s,
                                    column as int,
                                );
                            }
                            s = x + 1;
                        }
                    } else {
                        self.open_cell_east(x, y);
                        proof {
                            lemma_reach_extended(before, self@, x as int, y as int, s);
                            if blank {
                                lemma_lower_rows_kept(before, self@, x as int, y as int, true);
                                lemma_run_extended(before, self@, x as int, y as int, s);
                            }
                        }
                    }
                }
                proof {
                    assert(before.within(self@));
                }
                x = x + 1;
            }
            proof {
                if y == 0 {
                    assert(self@.top_corridor());
                    assert(self@.exits_everywhere());
                }
                if blank {
                    if y == 0 {
                        lemma_sidewinder_perfect(self@);
                    } else {
                        assert(self@.single_exits(y as int));
                    }
                }
            }
        }
        proof {
            lemma_connected(self@);
        }
    }
}

} // verus!
