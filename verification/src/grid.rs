//! The grid of cells and the two wall-opening primitives.

use vstd::arithmetic::div_mod::lemma_fundamental_div_mod;
use vstd::prelude::*;

verus! {

/// The carving algorithms.
#[derive(Clone, Copy, Debug, PartialEq, Eq, Structural)]
pub enum Algorithm {
    Binary,
    Sidewinder,
}

/// One grid position. A flag that is `true` is a passage on that side; a flag
/// that is `false` is a wall.
#[derive(Clone, Copy, Debug, PartialEq, Eq, Structural)]
pub struct Cell {
    pub north: bool,
    pub south: bool,
    pub east: bool,
    pub west: bool,
}

impl Cell {
    /// The cell with a wall on every side.
    pub open spec fn closed() -> Cell {
        Cell { north: false, south: false, east: false, west: false }
    }

    /// A cell with a wall on every side.
    pub fn new() -> (cell: Cell)
        ensures
            cell == Cell::closed(),
    {
        Cell { north: false, south: false, east: false, west: false }
    }
}

/// The mathematical grid: `rows` by `columns` cells in row-major order, row 0
/// at the top and column 0 at the left.
pub struct Grid {
    pub rows: nat,
    pub columns: nat,
    pub cells: Seq<Cell>,
}

impl Grid {
    /// Whether column `x` of row `y` lies inside the grid.
    pub open spec fn contains(self, x: int, y: int) -> bool {
        0 <= x < self.columns && 0 <= y < self.rows
    }

    /// The cell at column `x` of row `y`.
    pub open spec fn cell(self, x: int, y: int) -> Cell {
        self.cells[y * self.columns + x]
    }

    /// Every passage flag of the cell at (`x`, `y`) is mirrored by the
    /// neighbour on that side, and no flag points out of the grid.
    pub open spec fn symmetric_at(self, x: int, y: int) -> bool {
        let here = self.cell(x, y);
        &&& here.east == (x + 1 < self.columns && self.cell(x + 1, y).west)
        &&& here.west == (x > 0 && self.cell(x - 1, y).east)
        &&& here.north == (y > 0 && self.cell(x, y - 1).south)
        &&& here.south == (y + 1 < self.rows && self.cell(x, y + 1).north)
    }

    /// The grid has at least one cell and no more than a machine can index,
    /// its cell sequence has the right length, and every passage is recorded
    /// on both of its sides.
    pub open spec fn well_formed(self) -> bool {
        &&& self.rows >= 1
        &&& self.columns >= 1
        &&& self.cells.len() == self.rows * self.columns
        &&& self.cells.len() <= usize::MAX
        &&& forall|x: int, y: int| self.contains(x, y) ==> #[trigger] self.symmetric_at(x, y)
    }

    /// The grid of the given size in which every cell is closed.
    pub open spec fn blank(rows: nat, columns: nat) -> Grid {
        Grid { rows, columns, cells: Seq::new(rows * columns, |i: int| Cell::closed()) }
    }

    /// Every cell is closed.
    pub open spec fn is_blank(self) -> bool {
        self == Grid::blank(self.rows, self.columns)
    }

    /// This grid after the wall between (`x`, `y`) and its east neighbour is
    /// opened; the grid itself where there is no east neighbour.
    pub open spec fn carved_east(self, x: int, y: int) -> Grid {
        if x + 1 < self.columns {
            let i = y * self.columns + x;
            Grid {
                cells: self.cells.update(i, Cell { east: true, ..self.cells[i] }).update(
                    i + 1,
                    Cell { west: true, ..self.cells[i + 1] },
                ),
                ..self
            }
        } else {
            self
        }
    }

    /// This grid after the wall between (`x`, `y`) and its north neighbour is
    /// opened; the grid itself where there is no north neighbour.
    pub open spec fn carved_north(self, x: int, y: int) -> Grid {
        if y > 0 {
            let i = y * self.columns + x;
            let j = (y - 1) * self.columns + x;
            Grid {
                cells: self.cells.update(i, Cell { north: true, ..self.cells[i] }).update(
                    j,
                    Cell { south: true, ..self.cells[j] },
                ),
                ..self
            }
        } else {
            self
        }
    }

    /// Every passage of `self` is a passage of `other`, which has the same
    /// dimensions.
    pub open spec fn within(self, other: Grid) -> bool {
        &&& self.rows == other.rows
        &&& self.columns == other.columns
        &&& forall|x: int, y: int|
            #![trigger self.cell(x, y)]
            #![trigger other.cell(x, y)]
            self.contains(x, y) ==> {
                &&& self.cell(x, y).north ==> other.cell(x, y).north
                &&& self.cell(x, y).south ==> other.cell(x, y).south
                &&& self.cell(x, y).east ==> other.cell(x, y).east
                &&& self.cell(x, y).west ==> other.cell(x, y).west
            }
    }
}

/// A cell inside a grid has its flat index inside the cell sequence.
pub proof fn lemma_index_in_range(rows: int, columns: int, x: int, y: int)
    requires
        0 <= x < columns,
        0 <= y < rows,
    ensures
        0 <= y * columns + x < rows * columns,
{
    assert(y * columns >= 0) by (nonlinear_arith)
        requires
            y >= 0,
            columns > 0,
    ;
    assert((y + 1) * columns <= rows * columns) by (nonlinear_arith)
        requires
            y + 1 <= rows,
            columns > 0,
    ;
    assert((y + 1) * columns == y * columns + columns) by (nonlinear_arith);
}

/// Two cells with the same flat index are the same cell.
pub proof fn lemma_index_injective(columns: int, x: int, y: int, a: int, b: int)
    requires
        0 <= x < columns,
        0 <= a < columns,
        y * columns + x == b * columns + a,
    ensures
        x == a,
        y == b,
{
    if y < b {
        assert((y + 1) * columns <= b * columns) by (nonlinear_arith)
            requires
                y + 1 <= b,
                columns > 0,
        ;
        assert((y + 1) * columns == y * columns + columns) by (nonlinear_arith);
    } else if b < y {
        assert((b + 1) * columns <= y * columns) by (nonlinear_arith)
            requires
                b + 1 <= y,
                columns > 0,
        ;
        assert((b + 1) * columns == b * columns + columns) by (nonlinear_arith);
    }
}

/// Two well-formed grids of one size that hold the same cell at every place
/// are the same grid.
pub proof fn lemma_same_cells(g: Grid, h: Grid)
    requires
        g.well_formed(),
        h.well_formed(),
        g.rows == h.rows,
        g.columns == h.columns,
        forall|x: int, y: int| g.contains(x, y) ==> #[trigger] g.cell(x, y) == h.cell(x, y),
    ensures
        g == h,
{
    let c = g.columns as int;
    assert forall|i: int| 0 <= i < g.cells.len() implies g.cells[i] == h.cells[i] by {
        let x = i % c;
        let y = i / c;
        lemma_fundamental_div_mod(i, c);
        assert(c * y == y * c) by (nonlinear_arith);
        assert(0 <= y < g.rows) by (nonlinear_arith)
            requires
                0 <= i < g.rows * c,
                i == y * c + x,
                0 <= x < c,
        ;
        assert(g.cell(x, y) == h.cell(x, y));
    }
    assert(g.cells =~= h.cells);
}

/// Every cell of a blank grid is closed, and a blank grid is well formed.
pub proof fn lemma_blank(rows: nat, columns: nat)
    requires
        rows >= 1,
        columns >= 1,
        rows * columns <= usize::MAX,
    ensures
        Grid::blank(rows, columns).well_formed(),
        forall|x: int, y: int|
            Grid::blank(rows, columns).contains(x, y) ==> #[trigger] Grid::blank(
                rows,
                columns,
            ).cell(x, y) == Cell::closed(),
{
    let g = Grid::blank(rows, columns);
    assert forall|x: int, y: int| g.contains(x, y) implies #[trigger] g.cell(x, y)
        == Cell::closed() by {
        lemma_index_in_range(rows as int, columns as int, x, y);
    }
    assert forall|x: int, y: int| g.contains(x, y) implies #[trigger] g.symmetric_at(x, y) by {
        if x + 1 < columns {
            assert(g.cell(x + 1, y) == Cell::closed());
        }
        if x > 0 {
            assert(g.cell(x - 1, y) == Cell::closed());
        }
        if y > 0 {
            assert(g.cell(x, y - 1) == Cell::closed());
        }
        if y + 1 < rows {
            assert(g.cell(x, y + 1) == Cell::closed());
        }
    }
}

/// A maze: a grid of cells together with the algorithm chosen to carve it.
pub struct Maze {
    rows: usize,
    columns: usize,
    cells: Vec<Cell>,
    algorithm: Algorithm,
}

impl View for Maze {
    type V = Grid;

    closed spec fn view(&self) -> Grid {
        Grid { rows: self.rows as nat, columns: self.columns as nat, cells: self.cells@ }
    }
}

/// A vector of `count` closed cells.
fn closed_cells(count: usize) -> (cells: Vec<Cell>)
    ensures
        cells@ == Seq::new(count as nat, |i: int| Cell::closed()),
{
    let mut cells: Vec<Cell> = Vec::new();
    let mut n: usize = 0;
    while n < count
        invariant
            n <= count,
            cells@ == Seq::new(n as nat, |i: int| Cell::closed()),
        decreases count - n,
    {
        cells.push(Cell::new());
        n = n + 1;
        assert(cells@ =~= Seq::new(n as nat, |i: int| Cell::closed()));
    }
    cells
}

impl Maze {
    /// The algorithm that `populate` will run.
    pub closed spec fn chosen(&self) -> Algorithm {
        self.algorithm
    }

    /// A maze of the given size with every cell closed, set to the binary
    /// tree algorithm.
    pub fn new(rows: usize, columns: usize) -> (maze: Maze)
        requires
            rows >= 1,
            columns >= 1,
            rows * columns <= usize::MAX,
        ensures
            maze@ == Grid::blank(rows as nat, columns as nat),
            maze@.well_formed(),
            maze.chosen() == Algorithm::Binary,
    {
        proof {
            lemma_blank(rows as nat, columns as nat);
        }
        Maze { rows, columns, cells: closed_cells(rows * columns), algorithm: Algorithm::Binary }
    }

    /// Closes every cell; the dimensions and the algorithm stay.
    pub fn clear(&mut self)
        requires
            old(self)@.well_formed(),
        ensures
            final(self)@ == Grid::blank(old(self)@.rows, old(self)@.columns),
            final(self)@.well_formed(),
            final(self).chosen() == old(self).chosen(),
    {
        proof {
            lemma_blank(self.rows as nat, self.columns as nat);
        }
        self.cells = closed_cells(self.rows * self.columns);
    }

    /// Gives the maze new dimensions and closes every cell.
    pub fn set_size(&mut self, new_rows: usize, new_columns: usize)
        requires
            new_rows >= 1,
            new_columns >= 1,
            new_rows * new_columns <= usize::MAX,
        ensures
            final(self)@ == Grid::blank(new_rows as nat, new_columns as nat),
            final(self)@.well_formed(),
            final(self).chosen() == old(self).chosen(),
    {
        proof {
            lemma_blank(new_rows as nat, new_columns as nat);
        }
        self.rows = new_rows;
        self.columns = new_columns;
        self.cells = closed_cells(new_rows * new_columns);
    }

    /// Chooses the algorithm and closes every cell.
    pub fn set_algorithm(&mut self, new_algorithm: Algorithm)
        requires
            old(self)@.well_formed(),
        ensures
            final(self)@ == Grid::blank(old(self)@.rows, old(self)@.columns),
            final(self)@.well_formed(),
            final(self).chosen() == new_algorithm,
    {
        self.algorithm = new_algorithm;
        self.clear();
    }

    /// The number of rows.
    pub fn rows(&self) -> (rows: usize)
        ensures
            rows == self@.rows,
    {
        self.rows
    }

    /// The number of columns.
    pub fn columns(&self) -> (columns: usize)
        ensures
            columns == self@.columns,
    {
        self.columns
    }

    /// The algorithm that was chosen for the maze.
    pub fn algorithm(&self) -> (algorithm: Algorithm)
        ensures
            algorithm == self.chosen(),
    {
        self.algorithm
    }

    /// The cell at column `x` of row `y`.
    pub fn cell_at(&self, x: usize, y: usize) -> (cell: Cell)
        requires
            self@.well_formed(),
            self@.contains(x as int, y as int),
        ensures
            cell == self@.cell(x as int, y as int),
    {
        proof {
            lemma_index_in_range(self.rows as int, self.columns as int, x as int, y as int);
        }
        self.cells[y * self.columns + x]
    }

    /// Opens the wall between (`x`, `y`) and its east neighbour, on both
    /// cells. Does nothing in the last column.
    pub fn open_cell_east(&mut self, x: usize, y: usize)
        requires
            old(self)@.well_formed(),
            old(self)@.contains(x as int, y as int),
        ensures
            final(self)@ == old(self)@.carved_east(x as int, y as int),
            final(self)@.well_formed(),
            final(self).chosen() == old(self).chosen(),
            x + 1 == old(self)@.columns ==> final(self)@ == old(self)@,
            x + 1 < old(self)@.columns ==> one_wall_apart(
                old(self)@,
                final(self)@,
                x as int,
                y as int,
                true,
            ),
    {
        if x < self.columns - 1 {
            proof {
                lemma_index_in_range(self.rows as int, self.columns as int, x as int, y as int);
                lemma_index_in_range(self.rows as int, self.columns as int, x + 1, y as int);
            }
            let i: usize = y * self.columns + x;
            let mut here = self.cells[i];
            here.east = true;
            self.cells.set(i, here);
            let mut there = self.cells[i + 1];
            there.west = true;
            self.cells.set(i + 1, there);
            proof {
                let before = old(self)@;
                let after = self@;
                assert(after == before.carved_east(x as int, y as int));
                assert forall|a: int, b: int|
                    #![trigger after.cell(a, b)]
                    #![trigger before.cell(a, b)]
                    before.contains(a, b) implies after.cell(a, b) == (if a == x && b == y {
                    Cell { east: true, ..before.cell(a, b) }
                } else if a == x + 1 && b == y {
                    Cell { west: true, ..before.cell(a, b) }
                } else {
                    before.cell(a, b)
                }) by {
                    lemma_index_in_range(before.rows as int, before.columns as int, a, b);
                    if b * before.columns + a == i {
                        lemma_index_injective(before.columns as int, a, b, x as int, y as int);
                    }
                    if b * before.columns + a == i + 1 {
                        lemma_index_injective(before.columns as int, a, b, x + 1, y as int);
                    }
                }
                lemma_carve_keeps_symmetry(before, after, x as int, y as int, true);
            }
        }
    }

    /// Opens the wall between (`x`, `y`) and its north neighbour, on both
    /// cells. Does nothing in row 0.
    pub fn open_cell_north(&mut self, x: usize, y: usize)
        requires
            old(self)@.well_formed(),
            old(self)@.contains(x as int, y as int),
        ensures
            final(self)@ == old(self)@.carved_north(x as int, y as int),
            final(self)@.well_formed(),
            final(self).chosen() == old(self).chosen(),
            y == 0 ==> final(self)@ == old(self)@,
            y > 0 ==> one_wall_apart(old(self)@, final(self)@, x as int, y as int, false),
    {
        if y > 0 {
            proof {
                lemma_index_in_range(self.rows as int, self.columns as int, x as int, y as int);
                lemma_index_in_range(self.rows as int, self.columns as int, x as int, y - 1);
            }
            let i: usize = y * self.columns + x;
            let j: usize = (y - 1) * self.columns + x;
            let mut here = self.cells[i];
            here.north = true;
            self.cells.set(i, here);
            let mut there = self.cells[j];
            there.south = true;
            self.cells.set(j, there);
            proof {
                let before = old(self)@;
                let after = self@;
                assert(i != j) by {
                    if i == j {
                        lemma_index_injective(
                            before.columns as int,
                            x as int,
                            y as int,
                            x as int,
                            y - 1,
                        );
                    }
                }
                assert(after == before.carved_north(x as int, y as int));
                assert forall|a: int, b: int|
                    #![trigger after.cell(a, b)]
                    #![trigger before.cell(a, b)]
                    before.contains(a, b) implies after.cell(a, b) == (if a == x && b == y {
                    Cell { north: true, ..before.cell(a, b) }
                } else if a == x && b == y - 1 {
                    Cell { south: true, ..before.cell(a, b) }
                } else {
                    before.cell(a, b)
                }) by {
                    lemma_index_in_range(before.rows as int, before.columns as int, a, b);
                    if b * before.columns + a == i {
                        lemma_index_injective(before.columns as int, a, b, x as int, y as int);
                    }
                    if b * before.columns + a == j {
                        lemma_index_injective(before.columns as int, a, b, x as int, y - 1);
                    }
                }
                lemma_carve_keeps_symmetry(before, after, x as int, y as int, false);
            }
        }
    }
}

/// `after` is `before` with the wall of (`x`, `y`) toward the east, or else
/// toward the north, open on both of its sides: the two cells that share the
/// wall have that one flag set, and every other flag of the grid is as it was.
pub open spec fn one_wall_apart(before: Grid, after: Grid, x: int, y: int, east: bool) -> bool {
    &&& before.rows == after.rows
    &&& before.columns == after.columns
    &&& before.cells.len() == after.cells.len()
    &&& before.contains(x, y)
    &&& if east {
        x + 1 < before.columns
    } else {
        y > 0
    }
    &&& forall|a: int, b: int|
        #![trigger after.cell(a, b)]
        #![trigger before.cell(a, b)]
        before.contains(a, b) ==> after.cell(a, b) == (if a == x && b == y {
            if east {
                Cell { east: true, ..before.cell(a, b) }
            } else {
                Cell { north: true, ..before.cell(a, b) }
            }
        } else if east && a == x + 1 && b == y {
            Cell { west: true, ..before.cell(a, b) }
        } else if !east && a == x && b == y - 1 {
            Cell { south: true, ..before.cell(a, b) }
        } else {
            before.cell(a, b)
        })
}

/// Opening one wall on both of its sides keeps a grid well formed.
pub proof fn lemma_carve_keeps_symmetry(before: Grid, after: Grid, x: int, y: int, east: bool)
    requires
        before.well_formed(),
        one_wall_apart(before, after, x, y, east),
    ensures
        after.well_formed(),
{
    assert forall|a: int, b: int| after.contains(a, b) implies #[trigger] after.symmetric_at(
        a,
        b,
    ) by {
        assert(before.symmetric_at(a, b));
    }
}

} // verus!
