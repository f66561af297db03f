//! Dijkstra's search: the way of the fewest pixels.

use crate::algorithms::search::{cheapest, pursues, seek};
use crate::algorithms::{Solution, Solver};
use crate::maze::Maze;
use crate::node::Point;
use vstd::prelude::*;

verus! {

/// Solves a maze by going on from the node nearest to the entrance.
pub struct Dijkstra;

impl Solver for Dijkstra {
    /// Gives what the search by distance alone gives. It finds a way
    /// exactly when there is one, and then one that costs no more pixels
    /// than any walk from the entrance to the exit. The decisions are the
    /// entries taken from the queue that were not stale: the exit, every
    /// node nearer to the entrance than the exit, and no node farther
    /// from it.
    fn solve(maze: &Maze) -> (r: Option<Solution>)
        ensures
            pursues(maze@, false, r),
            r is Some <==> maze@.solvable(),
            r matches Some(s) ==> cheapest(maze@, false, s),
    {
        seek(maze, false)
    }
}

/// An entry of the queue: a position and the cost it is queued at.
#[derive(Debug, Eq, PartialEq, Copy, Clone)]
pub struct BinNode {
    pub cost: u64,
    pub position: Point,
}

impl BinNode {
    /// The entry for `position` at `cost`.
    pub fn new(cost: u64, position: Point) -> (b: Self)
        ensures
            b == (BinNode { cost, position }),
    {
        BinNode { cost, position }
    }

    /// Entries go by cost, and at the same cost by position.
    pub open spec fn spec_before(self, other: BinNode) -> bool {
        self.cost < other.cost || (self.cost == other.cost && self.position.spec_precedes(
            other.position,
        ))
    }

    /// Whether this entry leaves the queue before `other`.
    pub fn before(&self, other: &BinNode) -> (b: bool)
        ensures
            b == self.spec_before(*other),
    {
        self.cost < other.cost || (self.cost == other.cost && self.position.precedes(
            &other.position,
        ))
    }
}

} // verus!
