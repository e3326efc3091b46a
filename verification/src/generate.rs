//! Generation: the choice between the two carving algorithms.

use crate::grid::{Algorithm, Grid, Maze};
use crate::random::RandomSource;
use vstd::prelude::*;

verus! {

impl Grid {
    /// What both algorithms make of row 0 from column `x` on: every cell is
    /// opened to the east.
    pub open spec fn corridor_from(self, x: int) -> Grid
        decreases self.columns - x,
    {
        if x >= self.columns - 1 {
            self
        } else {
            self.carved_east(x, 0).corridor_from(x + 1)
        }
    }

    /// What `algorithm` makes of a grid, and the place in the script where it
    /// ends, when its picks are read from `script` at `cursor`.
    pub open spec fn carving(
        self,
        algorithm: Algorithm,
        script: Seq<usize>,
        cursor: nat,
    ) -> (Grid, nat) {
        match algorithm {
            Algorithm::Binary => self.binary_tree(script, cursor),
            Algorithm::Sidewinder => self.sidewinder(script, cursor),
        }
    }
}

impl Maze {
    /// Carves the maze by `algorithm`, drawing every random choice from
    /// `source`. Walls are only ever opened. A maze that was blank becomes a
    /// perfect maze of the algorithm's shape.
    pub fn generate(&mut self, algorithm: Algorithm, source: &mut RandomSource)
        requires
            old(self)@.well_formed(),
        ensures
            final(self)@.well_formed(),
            final(self).chosen() == old(self).chosen(),
            old(self)@.within(final(self)@),
            final(self)@.connected(),
            old(self)@.is_blank() ==> final(self)@.perfect(),
            old(self)@.is_blank() ==> (match algorithm {
                Algorithm::Binary => final(self)@.binary_shape(),
                Algorithm::Sidewinder => final(self)@.sidewinder_shape(),
            }),
            final(source).is_scripted() == old(source).is_scripted(),
            final(source).script() == old(source).script(),
            old(source).is_scripted() ==> (final(self)@, final(source).cursor())
                == old(self)@.carving(algorithm, old(source).script(), old(source).cursor()),
    {
        match algorithm {
            Algorithm::Binary => self.populate_binary_tree(source),
            Algorithm::Sidewinder => self.populate_sidewinder(source),
        }
    }

    /// Carves the maze by the algorithm that was chosen for it.
    pub fn populate(&mut self, source: &mut RandomSource)
        requires
            old(self)@.well_formed(),
        ensures
            final(self)@.well_formed(),
            final(self).chosen() == old(self).chosen(),
            old(self)@.within(final(self)@),
            final(self)@.connected(),
            old(self)@.is_blank() ==> final(self)@.perfect(),
            old(self)@.is_blank() ==> (match old(self).chosen() {
                Algorithm::Binary => final(self)@.binary_shape(),
                Algorithm::Sidewinder => final(self)@.sidewinder_shape(),
            }),
            final(source).is_scripted() == old(source).is_scripted(),
            final(source).script() == old(source).script(),
            old(source).is_scripted() ==> (final(self)@, final(source).cursor())
                == old(self)@.carving(
                old(self).chosen(),
                old(source).script(),
                old(source).cursor(),
            ),
    {
        let algorithm = self.algorithm();
        self.generate(algorithm, source);
    }
}

} // verus!
