//! The search strategies and what they have in common.

use crate::graph::{cost, Graph};
use crate::maze::Maze;
use crate::node::{Node, Point};
use std::collections::VecDeque;
use vstd::prelude::*;

pub mod a_star;
pub mod breadth_first;
pub mod depth_first;
pub mod dijkstra;
pub mod frontier;
pub mod left_turn;
pub mod search;
pub mod sweep;
pub mod tour;
pub mod trace;

verus! {

/// The strategies a caller can choose from; `Unset` stands for no choice.
#[derive(Debug, Eq, PartialEq, Copy, Clone)]
pub enum Algorithm {
    LeftTurn,
    Dijkstra,
    AStar,
    BreadthFirst,
    Unset,
    DepthFirst,
}

impl Algorithm {
    /// The name of a strategy as a sequence of characters.
    pub open spec fn spec_label(self) -> Seq<char> {
        match self {
            Algorithm::LeftTurn => "Left Turn"@,
            Algorithm::Dijkstra => "Dijkstra"@,
            Algorithm::AStar => "A*"@,
            Algorithm::BreadthFirst => "Breadth First"@,
            Algorithm::DepthFirst => "Depth First"@,
            Algorithm::Unset => "Unset"@,
        }
    }

    /// The name to show for a strategy.
    pub fn label(&self) -> (name: &'static str)
        requires
            *self != Algorithm::Unset,
        ensures
            name@ == self.spec_label(),
    {
        match self {
            Algorithm::LeftTurn => "Left Turn",
            Algorithm::Dijkstra => "Dijkstra",
            Algorithm::AStar => "A*",
            Algorithm::BreadthFirst => "Breadth First",
            Algorithm::DepthFirst => "Depth First",
            Algorithm::Unset => "Unset",
        }
    }
}

/// A way through the maze: the nodes from the exit back to the entrance,
/// how many there are, and how many decisions the strategy took.
#[derive(Debug)]
pub struct Solution {
    pub count: u32,
    pub path: VecDeque<Node>,
    pub length: usize,
}

impl Solution {
    /// The solution with the given decisions and path; its length is
    /// the number of nodes of the path.
    pub fn new(count: u32, path: VecDeque<Node>) -> (s: Self)
        ensures
            s.count == count,
            s.path == path,
            s.length == path@.len(),
    {
        let length = path.len();
        Self { count, path, length }
    }

    /// The positions of the path, from the exit to the entrance.
    pub open spec fn points(self) -> Seq<Point> {
        self.path@.map_values(|n: Node| n.point)
    }

    /// The positions of the path, from the entrance to the exit.
    pub open spec fn route(self) -> Seq<Point> {
        self.points().reverse()
    }

    /// The length of the path in pixels.
    pub open spec fn spec_cost(self) -> nat {
        cost(self.route())
    }

    /// The path is made of nodes of `g`, leads along its edges from the
    /// entrance to the exit when read backwards, and `length` counts its nodes.
    pub open spec fn solves(self, g: Graph) -> bool {
        &&& self.length == self.path@.len()
        &&& g.start is Some
        &&& g.exit is Some
        &&& g.connects(self.route(), g.start->Some_0, g.exit->Some_0)
        &&& forall|i: int|
            0 <= i < self.path@.len() ==> g.has(self.path@[i].point) && #[trigger] self.path@[i]
                == g.nodes[self.path@[i].point]
    }
}

/// The most pixels a maze may have for the solvers: their counters and
/// their tables by pixel are 32 bits wide.
pub open spec fn fits(g: Graph) -> bool {
    g.width * g.height <= u32::MAX
}

/// What every strategy offers: a way from the entrance to the exit, or
/// `None`.
pub trait Solver {
    fn solve(maze: &Maze) -> (r: Option<Solution>)
        requires
            fits(maze@),
        ensures
            maze@.wf(),
            r matches Some(s) ==> s.solves(maze@),
            !maze@.solvable() ==> r is None,
    ;
}

} // verus!
