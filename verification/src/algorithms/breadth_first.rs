//! Breadth-first search: the way with the fewest nodes.

use crate::algorithms::sweep::{explore, explores, fewest};
use crate::algorithms::{Solution, Solver};
use crate::maze::Maze;
use vstd::prelude::*;

verus! {

/// Solves a maze by exploring it level by level from the entrance.
pub struct BreadthFirst;

impl Solver for BreadthFirst {
    /// Gives what the exploration that takes its nodes from the front of
    /// the queue gives. It finds a way exactly when there is one, and then
    /// one with as few nodes as any walk from the entrance to the exit
    /// has. The decisions are the nodes taken from the queue, the exit
    /// among them.
    fn solve(maze: &Maze) -> (r: Option<Solution>)
        ensures
            explores(maze@, true, r),
            r is Some <==> maze@.solvable(),
            r matches Some(s) ==> 1 <= s.count <= maze@.width * maze@.height && fewest(maze@, s),
    {
        explore(maze, true)
    }
}

} // verus!
