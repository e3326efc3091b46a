//! A maze sized to a screen: the part of an interactive front end that
//! decides, without touching any terminal.

use crate::grid::{Algorithm, Grid, Maze};
use crate::random::RandomSource;
use vstd::prelude::*;

verus! {

/// A maze that is rebuilt to fit whenever the screen changes its size.
pub struct MazeView {
    maze: Maze,
}

impl MazeView {
    /// The maze that is shown.
    pub closed spec fn maze(&self) -> Maze {
        self.maze
    }

    /// The number of maze rows shown on a screen of `height` lines: a row
    /// takes two lines, and two lines are kept for the header and a border.
    pub open spec fn rows_on(height: nat) -> int {
        height / 2 - 1
    }

    /// The number of maze columns shown on a screen `width` characters wide:
    /// a column takes four characters, and four are kept for the gutter.
    pub open spec fn columns_on(width: nat) -> int {
        width / 4 - 1
    }

    /// A view of a blank maze of ten rows and ten columns, set to the binary
    /// tree algorithm.
    pub fn new() -> (view: MazeView)
        ensures
            view.maze()@ == Grid::blank(10, 10),
            view.maze()@.well_formed(),
            view.maze().chosen() == Algorithm::Binary,
    {
        MazeView { maze: Maze::new(10, 10) }
    }

    /// Chooses the algorithm for the mazes to come and blanks the maze.
    pub fn set_algorithm(&mut self, algorithm: Algorithm)
        requires
            old(self).maze()@.well_formed(),
        ensures
            final(self).maze()@ == Grid::blank(old(self).maze()@.rows, old(self).maze()@.columns),
            final(self).maze()@.well_formed(),
            final(self).maze().chosen() == algorithm,
    {
        self.maze.set_algorithm(algorithm);
    }

    /// Rebuilds the maze for a screen of `width` by `height` characters: a
    /// new perfect maze of the chosen algorithm's shape, of the size that the
    /// screen shows. The screen must show at least one cell.
    pub fn layout(&mut self, width: usize, height: usize, source: &mut RandomSource)
        requires
            height >= 4,
            width >= 8,
            Self::rows_on(height as nat) * Self::columns_on(width as nat) <= usize::MAX,
        ensures
            final(self).maze()@.rows == Self::rows_on(height as nat),
            final(self).maze()@.columns == Self::columns_on(width as nat),
            final(self).maze()@.well_formed(),
            final(self).maze()@.perfect(),
            final(self).maze().chosen() == old(self).maze().chosen(),
            (match old(self).maze().chosen() {
                Algorithm::Binary => final(self).maze()@.binary_shape(),
                Algorithm::Sidewinder => final(self).maze()@.sidewinder_shape(),
            }),
            final(source).is_scripted() == old(source).is_scripted(),
            final(source).script() == old(source).script(),
            old(source).is_scripted() ==> (final(self).maze()@, final(source).cursor())
                == Grid::blank(
                Self::rows_on(height as nat) as nat,
                Self::columns_on(width as nat) as nat,
            ).carving(old(self).maze().chosen(), old(source).script(), old(source).cursor()),
    {
        self.maze.set_size(height / 2 - 1, width / 4 - 1);
        self.maze.populate(source);
    }

    /// The maze as a text diagram, its lines to be drawn from the top.
    pub fn text(&self) -> (text: String)
        requires
            self.maze()@.well_formed(),
        ensures
            text@ == self.maze()@.rendered(),
    {
        self.maze.to_string()
    }
}

} // verus!
