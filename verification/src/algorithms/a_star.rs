//! A*: Dijkstra's search, drawn towards the exit.

use crate::algorithms::search::{cheapest, pursues, seek};
use crate::algorithms::{Solution, Solver};
use crate::maze::Maze;
use vstd::prelude::*;

verus! {

/// Solves a maze by going on from the node for which the distance from
/// the entrance and the Manhattan distance to the exit together are least.
pub struct AStar;

impl Solver for AStar {
    /// Gives what the search by distance and Manhattan distance to the
    /// exit gives. It finds a way exactly when there is one, and then one
    /// that costs no more pixels than any walk from the entrance to the
    /// exit. The decisions are the entries taken from the queue that were
    /// not stale: the exit, every node whose distance from the entrance
    /// and Manhattan distance to the exit are together less than the cost
    /// of the way, and no node for which they are more.
    fn solve(maze: &Maze) -> (r: Option<Solution>)
        ensures
            pursues(maze@, true, r),
            r is Some <==> maze@.solvable(),
            r matches Some(s) ==> cheapest(maze@, true, s),
    {
        seek(maze, true)
    }
}

} // verus!
