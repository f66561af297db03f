//! Depth-first search: follow one way as far as it goes.

use crate::algorithms::sweep::{explore, explores};
use crate::algorithms::{Solution, Solver};
use crate::maze::Maze;
use vstd::prelude::*;

verus! {

/// Solves a maze by exploring it from the entrance with a stack.
pub struct DepthFirst;

impl Solver for DepthFirst {
    /// Gives what the exploration that takes its nodes from the back of
    /// the queue gives. It finds a way exactly when there is one. The
    /// decisions are the nodes taken from the stack, the exit among them.
    fn solve(maze: &Maze) -> (r: Option<Solution>)
        ensures
            explores(maze@, false, r),
            r is Some <==> maze@.solvable(),
            r matches Some(s) ==> 1 <= s.count <= maze@.width * maze@.height,
    {
        explore(maze, false)
    }
}

} // verus!
