//! The passage graph of a grid: its edges, its paths, and what makes it a
//! spanning tree.

use crate::grid::{Cell, Grid};
use vstd::prelude::*;

verus! {

/// The number of walls that a cell has open toward the east and the north.
/// In a well-formed grid every passage is the east or the north passage of
/// exactly one cell.
pub open spec fn carved(cell: Cell) -> nat {
    (if cell.east {
        1nat
    } else {
        0nat
    }) + (if cell.north {
        1nat
    } else {
        0nat
    })
}

impl Grid {
    /// The number of passages that the first `n` cells of row `y` have open
    /// toward the east and the north.
    pub open spec fn row_passages(self, y: int, n: nat) -> nat
        decreases n,
    {
        if n == 0 {
            0
        } else {
            self.row_passages(y, (n - 1) as nat) + carved(self.cell(n - 1, y))
        }
    }

    /// The number of passages counted over the first `n` rows.
    pub open spec fn passages_in_rows(self, n: nat) -> nat
        decreases n,
    {
        if n == 0 {
            0
        } else {
            self.passages_in_rows((n - 1) as nat) + self.row_passages(n - 1, self.columns)
        }
    }

    /// The number of passages (edges of the passage graph).
    pub open spec fn passages(self) -> nat {
        self.passages_in_rows(self.rows)
    }

    /// A passage leads from cell `a` to the adjacent cell `b`; both are given
    /// as (column, row).
    pub open spec fn joined(self, a: (int, int), b: (int, int)) -> bool {
        &&& self.contains(a.0, a.1)
        &&& self.contains(b.0, b.1)
        &&& {
            ||| b.0 == a.0 + 1 && b.1 == a.1 && self.cell(a.0, a.1).east
            ||| b.0 == a.0 - 1 && b.1 == a.1 && self.cell(a.0, a.1).west
            ||| b.0 == a.0 && b.1 == a.1 - 1 && self.cell(a.0, a.1).north
            ||| b.0 == a.0 && b.1 == a.1 + 1 && self.cell(a.0, a.1).south
        }
    }

    /// A passage leads from the cell at position `i` of `path` to the next.
    pub open spec fn step(self, path: Seq<(int, int)>, i: int) -> bool {
        self.joined(path[i], path[i + 1])
    }

    /// `path` is a walk through passages that starts inside the grid.
    pub open spec fn is_path(self, path: Seq<(int, int)>) -> bool {
        &&& path.len() >= 1
        &&& self.contains(path[0].0, path[0].1)
        &&& forall|i: int| 0 <= i < path.len() - 1 ==> #[trigger] self.step(path, i)
    }

    /// Some walk through passages leads from `a` to `b`.
    pub open spec fn linked(self, a: (int, int), b: (int, int)) -> bool {
        exists|path: Seq<(int, int)>|
            #[trigger] self.is_path(path) && path[0] == a && path[path.len() - 1] == b
    }

    /// Every cell can be reached from every other.
    pub open spec fn connected(self) -> bool {
        forall|a: (int, int), b: (int, int)|
            self.contains(a.0, a.1) && self.contains(b.0, b.1) ==> #[trigger] self.linked(a, b)
    }

    /// The passage graph is a spanning tree: connected, with one edge fewer
    /// than it has cells.
    pub open spec fn perfect(self) -> bool {
        &&& self.connected()
        &&& self.passages() == self.rows * self.columns - 1
    }

    /// Columns `a` and `b` of row `y` lie in one run: every wall between them
    /// is open.
    pub open spec fn same_run(self, y: int, a: int, b: int) -> bool {
        forall|j: int|
            (a <= j < b || b <= j < a) ==> (#[trigger] self.cell(j, y)).east
    }

    /// The run of (`x`, `y`) holds a cell that is open to the north.
    pub open spec fn has_exit(self, x: int, y: int) -> bool {
        exists|k: int|
            0 <= k < self.columns && #[trigger] self.same_run(y, x, k) && self.cell(k, y).north
    }

    /// No run of row `y` holds two cells that are open to the north.
    pub open spec fn single_exits(self, y: int) -> bool {
        forall|a: int, b: int|
            0 <= a < b < self.columns && self.cell(a, y).north && self.cell(b, y).north
                ==> !#[trigger] self.same_run(y, a, b)
    }

    /// Row 0 is one corridor: every wall between two of its cells is open.
    pub open spec fn top_corridor(self) -> bool {
        forall|x: int| 0 <= x < self.columns - 1 ==> (#[trigger] self.cell(x, 0)).east
    }

    /// Every cell below row 0 is open to the north or to the east.
    pub open spec fn opens_ahead(self) -> bool {
        forall|x: int, y: int|
            self.contains(x, y) && y > 0 ==> (#[trigger] self.cell(x, y)).north || self.cell(
                x,
                y,
            ).east
    }

    /// Every cell below row 0 has, in its run, a cell that is open to the
    /// north.
    pub open spec fn exits_everywhere(self) -> bool {
        forall|x: int, y: int| self.contains(x, y) && y > 0 ==> #[trigger] self.has_exit(x, y)
    }

    /// What the binary tree algorithm leaves: row 0 is one corridor, and
    /// every cell below it is open either to the north or to the east, never
    /// to both, the cells of the last column to the north.
    pub open spec fn binary_shape(self) -> bool {
        &&& self.top_corridor()
        &&& forall|x: int, y: int|
            self.contains(x, y) && y > 0 ==> {
                &&& (#[trigger] self.cell(x, y)).north != self.cell(x, y).east
                &&& x == self.columns - 1 ==> self.cell(x, y).north
            }
    }

    /// What the sidewinder algorithm leaves: row 0 is one corridor, and in
    /// every row below it each run holds exactly one cell that is open to
    /// the north.
    pub open spec fn sidewinder_shape(self) -> bool {
        &&& self.top_corridor()
        &&& forall|y: int| 0 < y < self.rows ==> #[trigger] self.single_exits(y)
        &&& self.exits_everywhere()
    }

    /// The run that crosses the wall between columns `n - 1` and `n` of row
    /// `y` holds, left of `n`, a cell that is open to the north.
    pub open spec fn exit_behind(self, y: int, n: int) -> bool {
        &&& n > 0
        &&& self.cell(n - 1, y).east
        &&& exists|k: int|
            0 <= k < n && #[trigger] self.same_run(y, k, n - 1) && self.cell(k, y).north
    }

    /// Row `y` counts one passage per cell.
    pub open spec fn full_row(self, y: int) -> bool {
        self.row_passages(y, self.columns) == self.columns
    }

    /// The first `n` cells of row `y` have the same walls open to the east
    /// in `self` and in `other`.
    pub open spec fn same_easts(self, other: Grid, y: int, n: int) -> bool {
        forall|j: int|
            #![trigger self.cell(j, y)]
            #![trigger other.cell(j, y)]
            0 <= j < n ==> self.cell(j, y).east == other.cell(j, y).east
    }

    /// The first `n` cells of row `y` have the same walls open to the north
    /// in `self` and in `other`.
    pub open spec fn same_norths(self, other: Grid, y: int, n: int) -> bool {
        forall|j: int|
            #![trigger self.cell(j, y)]
            #![trigger other.cell(j, y)]
            0 <= j < n ==> self.cell(j, y).north == other.cell(j, y).north
    }
}

/// Two grids that agree on the east walls of the first `n` cells of a row
/// have the same runs among the first `n + 1` cells.
pub proof fn lemma_runs_kept(g: Grid, h: Grid, y: int, n: int, a: int, b: int)
    requires
        g.same_easts(h, y, n),
        0 <= a <= n,
        0 <= b <= n,
    ensures
        g.same_run(y, a, b) == h.same_run(y, a, b),
{
}

/// A row whose runs hold at most one cell each that is open to the north
/// stays so while its east and north walls stay.
pub proof fn lemma_single_exits_kept(g: Grid, h: Grid, y: int)
    requires
        g.columns == h.columns,
        g.same_easts(h, y, g.columns as int),
        g.same_norths(h, y, g.columns as int),
        g.single_exits(y),
    ensures
        h.single_exits(y),
{
    let n = g.columns as int;
    assert forall|a: int, b: int|
        0 <= a < b < h.columns && h.cell(a, y).north && h.cell(b, y).north implies !#[trigger] h.same_run(
        y,
        a,
        b,
    ) by {
        lemma_runs_kept(g, h, y, n, a, b);
        assert(g.cell(a, y).north && g.cell(b, y).north);
        assert(!g.same_run(y, a, b));
    }
}

/// A cell is linked to itself.
pub proof fn lemma_linked_self(g: Grid, a: (int, int))
    requires
        g.contains(a.0, a.1),
    ensures
        g.linked(a, a),
{
    let path = seq![a];
    assert(g.is_path(path));
}

/// Two cells that share an open wall are linked.
pub proof fn lemma_linked_step(g: Grid, a: (int, int), b: (int, int))
    requires
        g.joined(a, b),
    ensures
        g.linked(a, b),
{
    let path = seq![a, b];
    assert forall|i: int| 0 <= i < path.len() - 1 implies #[trigger] g.step(path, i) by {}
    assert(g.is_path(path));
}

/// Being linked is transitive.
pub proof fn lemma_linked_chain(g: Grid, a: (int, int), b: (int, int), c: (int, int))
    requires
        g.linked(a, b),
        g.linked(b, c),
    ensures
        g.linked(a, c),
{
    let p = choose|path: Seq<(int, int)>|
        #[trigger] g.is_path(path) && path[0] == a && path[path.len() - 1] == b;
    let q = choose|path: Seq<(int, int)>|
        #[trigger] g.is_path(path) && path[0] == b && path[path.len() - 1] == c;
    let r = p + q.subrange(1, q.len() as int);
    assert forall|i: int| 0 <= i < r.len() - 1 implies #[trigger] g.step(r, i) by {
        if i < p.len() - 1 {
            assert(g.step(p, i));
        } else {
            assert(g.step(q, i - (p.len() - 1)));
        }
    }
    assert(g.is_path(r));
}

/// In a well-formed grid, being linked is symmetric.
pub proof fn lemma_linked_back(g: Grid, a: (int, int), b: (int, int))
    requires
        g.well_formed(),
        g.linked(a, b),
    ensures
        g.linked(b, a),
{
    let p = choose|path: Seq<(int, int)>|
        #[trigger] g.is_path(path) && path[0] == a && path[path.len() - 1] == b;
    let n = p.len() as int;
    let r = Seq::new(p.len(), |i: int| p[n - 1 - i]);
    assert forall|i: int| 0 <= i < r.len() - 1 implies #[trigger] g.step(r, i) by {
        let k = n - 2 - i;
        assert(g.step(p, k));
        assert(g.symmetric_at(p[k].0, p[k].1));
    }
    if n > 1 {
        assert(g.step(p, n - 2));
    }
    assert(g.is_path(r));
}

/// The cells of one run are linked.
pub proof fn lemma_run_linked(g: Grid, y: int, a: int, b: int)
    requires
        g.well_formed(),
        g.contains(a, y),
        g.contains(b, y),
        g.same_run(y, a, b),
    ensures
        g.linked((a, y), (b, y)),
    decreases
        if a <= b {
            b - a
        } else {
            a - b
        },
{
    if a == b {
        lemma_linked_self(g, (a, y));
    } else if a < b {
        assert(g.cell(a, y).east);
        lemma_linked_step(g, (a, y), (a + 1, y));
        lemma_run_linked(g, y, a + 1, b);
        lemma_linked_chain(g, (a, y), (a + 1, y), (b, y));
    } else {
        assert(g.cell(a - 1, y).east);
        assert(g.symmetric_at(a, y));
        lemma_linked_step(g, (a, y), (a - 1, y));
        lemma_run_linked(g, y, a - 1, b);
        lemma_linked_chain(g, (a, y), (a - 1, y), (b, y));
    }
}

/// Where row 0 is a corridor and every cell below it has an exit in its run,
/// every cell is linked to the top left cell.
pub proof fn lemma_linked_to_origin(g: Grid, x: int, y: int)
    requires
        g.well_formed(),
        g.top_corridor(),
        g.exits_everywhere(),
        g.contains(x, y),
    ensures
        g.linked((x, y), (0, 0)),
    decreases y,
{
    if y == 0 {
        assert(g.same_run(0, x, 0));
        lemma_run_linked(g, 0, x, 0);
    } else {
        assert(g.has_exit(x, y));
        let k = choose|k: int|
            0 <= k < g.columns && #[trigger] g.same_run(y, x, k) && g.cell(k, y).north;
        lemma_run_linked(g, y, x, k);
        lemma_linked_step(g, (k, y), (k, y - 1));
        lemma_linked_to_origin(g, k, y - 1);
        lemma_linked_chain(g, (x, y), (k, y), (k, y - 1));
        lemma_linked_chain(g, (x, y), (k, y - 1), (0, 0));
    }
}

/// The first `n` cells of the corridor in row 0 count `n` passages, but for
/// the last cell, which has none.
proof fn lemma_top_row_passages(g: Grid, n: nat)
    requires
        g.well_formed(),
        g.top_corridor(),
        n <= g.columns,
    ensures
        g.row_passages(0, n) == (if n < g.columns {
            n as int
        } else {
            g.columns - 1
        }),
    decreases n,
{
    if n > 0 {
        lemma_top_row_passages(g, (n - 1) as nat);
        assert(g.symmetric_at(n - 1, 0));
    }
}

/// Where row 0 is a corridor and every row below it counts one passage per
/// cell, the first `n` rows count one passage fewer than they have cells.
proof fn lemma_passages_in_rows(g: Grid, n: nat)
    requires
        g.well_formed(),
        g.top_corridor(),
        forall|y: int| 0 < y < g.rows ==> #[trigger] g.full_row(y),
        1 <= n <= g.rows,
    ensures
        g.passages_in_rows(n) == n * g.columns - 1,
    decreases n,
{
    if n == 1 {
        assert(g.passages_in_rows(0) == 0);
        lemma_top_row_passages(g, g.columns);
    } else {
        lemma_passages_in_rows(g, (n - 1) as nat);
        assert(g.full_row(n - 1));
        assert((n - 1) * g.columns + g.columns == n * g.columns) by (nonlinear_arith);
    }
}

/// A grid whose top row is a corridor and in which every cell below row 0
/// has an exit in its run is connected.
pub proof fn lemma_connected(g: Grid)
    requires
        g.well_formed(),
        g.top_corridor(),
        g.exits_everywhere(),
    ensures
        g.connected(),
{
    assert forall|a: (int, int), b: (int, int)|
        g.contains(a.0, a.1) && g.contains(b.0, b.1) implies #[trigger] g.linked(a, b) by {
        lemma_linked_to_origin(g, a.0, a.1);
        lemma_linked_to_origin(g, b.0, b.1);
        lemma_linked_back(g, b, (0, 0));
        lemma_linked_chain(g, a, (0, 0), b);
    }
}

/// A grid whose top row is a corridor, whose other rows count one passage
/// per cell, and in which every cell below row 0 has an exit in its run, is
/// a perfect maze.
pub proof fn lemma_spanning(g: Grid)
    requires
        g.well_formed(),
        g.top_corridor(),
        forall|y: int| 0 < y < g.rows ==> #[trigger] g.full_row(y),
        g.exits_everywhere(),
    ensures
        g.perfect(),
{
    lemma_passages_in_rows(g, g.rows);
    lemma_connected(g);
}

/// An exit stays an exit while walls are only opened.
pub proof fn lemma_exit_kept(g: Grid, h: Grid, x: int, y: int)
    requires
        g.within(h),
        g.contains(x, y),
        g.has_exit(x, y),
    ensures
        h.has_exit(x, y),
{
    let k = choose|k: int|
        0 <= k < g.columns && #[trigger] g.same_run(y, x, k) && g.cell(k, y).north;
    assert forall|j: int| (x <= j < k || k <= j < x) implies (#[trigger] h.cell(j, y)).east by {
        assert(g.cell(j, y).east);
    }
    assert(h.same_run(y, x, k));
    assert(g.cell(k, y).north);
}

/// Where every cell below row 0 is open to the north or to the east, walking
/// east from such a cell leads to one that is open to the north.
proof fn lemma_exit_ahead(g: Grid, x: int, y: int)
    requires
        g.well_formed(),
        g.opens_ahead(),
        g.contains(x, y),
        y > 0,
    ensures
        g.has_exit(x, y),
    decreases g.columns - x,
{
    if g.cell(x, y).north {
        assert(g.same_run(y, x, x));
    } else {
        assert(g.cell(x, y).east);
        assert(g.symmetric_at(x, y));
        lemma_exit_ahead(g, x + 1, y);
        let k = choose|k: int|
            0 <= k < g.columns && #[trigger] g.same_run(y, x + 1, k) && g.cell(k, y).north;
        if k <= x {
            assert(g.same_run(y, k, k));
            assert(g.same_run(y, x, k));
        } else {
            assert(g.same_run(y, x, k));
        }
    }
}

/// In a row whose runs hold exactly one cell each that is open to the north,
/// the first `n` cells count `n` passages, and one more where the run that
/// goes on behind them already holds that cell.
proof fn lemma_single_exit_row(g: Grid, y: int, n: nat)
    requires
        g.well_formed(),
        0 < y < g.rows,
        n <= g.columns,
        g.single_exits(y),
        forall|x: int| 0 <= x < g.columns ==> #[trigger] g.has_exit(x, y),
    ensures
        g.row_passages(y, n) == n + (if g.exit_behind(y, n as int) {
            1int
        } else {
            0int
        }),
    decreases n,
{
    if n > 0 {
        let m = n - 1;
        lemma_single_exit_row(g, y, m as nat);
        let c = g.cell(m, y);
        if g.exit_behind(y, m) {
            let k0 = choose|k: int|
                0 <= k < m && #[trigger] g.same_run(y, k, m - 1) && g.cell(k, y).north;
            assert(g.same_run(y, k0, m));
            if c.north {
                assert(!g.same_run(y, k0, m));
            }
            if c.east {
                assert(g.exit_behind(y, n as int));
            }
        } else {
            if c.north {
                if c.east {
                    assert(g.same_run(y, m, m));
                    assert(g.exit_behind(y, n as int));
                }
            } else {
                if g.exit_behind(y, n as int) {
                    let k = choose|k: int|
                        0 <= k < n && #[trigger] g.same_run(y, k, n - 1) && g.cell(k, y).north;
                    assert(k < m);
                    assert(g.cell(m - 1, y).east);
                    assert(g.same_run(y, k, m - 1));
                    assert(false);
                }
                if !c.east {
                    assert(g.has_exit(m, y));
                    let k = choose|k: int|
                        0 <= k < g.columns && #[trigger] g.same_run(y, m, k) && g.cell(k, y).north;
                    if k > m {
                        assert(g.cell(m, y).east);
                    } else {
                        assert(k < m);
                        assert(g.cell(m - 1, y).east);
                        assert(g.same_run(y, k, m - 1));
                    }
                    assert(false);
                }
            }
        }
    }
}

/// A well-formed grid of the sidewinder shape is a perfect maze.
pub proof fn lemma_sidewinder_perfect(g: Grid)
    requires
        g.well_formed(),
        g.sidewinder_shape(),
    ensures
        g.perfect(),
{
    assert forall|y: int| 0 < y < g.rows implies #[trigger] g.full_row(y) by {
        assert(g.single_exits(y));
        assert forall|x: int| 0 <= x < g.columns implies #[trigger] g.has_exit(x, y) by {
            assert(g.contains(x, y));
        }
        lemma_single_exit_row(g, y, g.columns);
        assert(g.symmetric_at(g.columns - 1, y));
    }
    lemma_spanning(g);
}

/// The binary tree shape is a sidewinder shape: in each run the last cell,
/// and no other, is open to the north.
pub proof fn lemma_binary_is_sidewinder(g: Grid)
    requires
        g.well_formed(),
        g.binary_shape(),
    ensures
        g.sidewinder_shape(),
{
    lemma_exits_ahead(g);
    assert forall|y: int| 0 < y < g.rows implies #[trigger] g.single_exits(y) by {
        assert forall|a: int, b: int|
            0 <= a < b < g.columns && g.cell(a, y).north && g.cell(b, y).north implies !#[trigger] g.same_run(
            y,
            a,
            b,
        ) by {
            assert(g.contains(a, y));
            assert(!g.cell(a, y).east);
        }
    }
}

/// A well-formed grid of the binary tree shape is a perfect maze.
pub proof fn lemma_binary_perfect(g: Grid)
    requires
        g.well_formed(),
        g.binary_shape(),
    ensures
        g.perfect(),
{
    lemma_binary_is_sidewinder(g);
    lemma_sidewinder_perfect(g);
}

/// Where every cell below row 0 is open to the north or to the east, every
/// such cell has an exit in its run.
pub proof fn lemma_exits_ahead(g: Grid)
    requires
        g.well_formed(),
        g.opens_ahead(),
    ensures
        g.exits_everywhere(),
{
    assert forall|a: int, b: int| g.contains(a, b) && b > 0 implies #[trigger] g.has_exit(
        a,
        b,
    ) by {
        lemma_exit_ahead(g, a, b);
    }
}

} // verus!
