//! The linear-solver side of the interior-point iteration: the symbolic
//! assembly of the KKT matrix, the in-place updates of its values, and the
//! interface of the solvers that factor it.

use vstd::prelude::*;
use crate::cones::ConeSet;

pub mod assembly;
mod placement;
pub mod updates;

verus! {

/// A solver for the KKT system of one problem.
///
/// The solver owns a KKT matrix. Between solves only the values of the
/// matrix change: the pattern that was assembled once stays.
pub trait KKTSolver<'a, T> {
    /// The pattern of the matrix that the solver factors: its column
    /// offsets and its row indices.
    spec fn pattern(&self) -> (Seq<usize>, Seq<usize>);

    /// Takes over the current scaling blocks of `cones`. Changes values
    /// only, never the pattern.
    fn update(&mut self, cones: ConeSet<T>)
        ensures
            final(self).pattern() == old(self).pattern(),
    ;

    /// Stores the right-hand side: `x` for the first block of rows, `z` for
    /// the second.
    fn setrhs(&mut self, x: &[T], z: &[T])
        ensures
            final(self).pattern() == old(self).pattern(),
    ;

    /// Solves for the stored right-hand side, and writes the two parts of
    /// the solution into the buffers that are given.
    fn solve(&self, x: Option<&mut [T]>, z: Option<&mut [T]>);
}

} // verus!
