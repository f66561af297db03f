//! Reading a path off the table of predecessors that a search leaves.

use crate::algorithms::fits;
use crate::algorithms::sweep::{cell, index_of};
use crate::graph::Graph;
use crate::maze::Maze;
use crate::node::{Node, Point};
use std::collections::VecDeque;
use vstd::prelude::*;

verus! {

/// The way to the reached node `p` is the entrance alone, or the way to
/// its predecessor, a reached node of lower rank, and then `p`.
pub(crate) open spec fn linked(
    g: Graph,
    pred: Seq<Option<Point>>,
    seen: Set<Point>,
    route: Map<Point, Seq<Point>>,
    rank: Map<Point, nat>,
    p: Point,
) -> bool {
    &&& g.has(p)
    &&& if Some(p) == g.start {
        route[p] == seq![p]
    } else {
        &&& pred[cell(g, p)] matches Some(u)
        &&& seen.contains(u)
        &&& route[p] == route[u].push(p)
        &&& rank[u] < rank[p]
    }
}

/// The way from `p` back along the predecessors in `from`, for at most
/// `fuel` steps.
pub open spec fn way_back(from: Map<Point, Point>, p: Point, fuel: nat) -> Seq<Point>
    decreases fuel,
{
    if fuel == 0 || !from.contains_key(p) {
        seq![p]
    } else {
        seq![p] + way_back(from, from[p], (fuel - 1) as nat)
    }
}

/// The way to the reached node `p` is the entrance alone, which has no
/// predecessor, or the way to its predecessor and then `p`.
pub(crate) open spec fn tied(
    g: Graph,
    seen: Set<Point>,
    route: Map<Point, Seq<Point>>,
    from: Map<Point, Point>,
    p: Point,
) -> bool {
    &&& route[p].len() >= 1
    &&& if Some(p) == g.start {
        !from.contains_key(p) && route[p] == seq![p]
    } else {
        from.contains_key(p) && seen.contains(from[p]) && route[p] == route[from[p]].push(p)
    }
}

/// The way back from a reached node is the way to it, read backwards.
pub(crate) proof fn lemma_way_back(
    g: Graph,
    seen: Set<Point>,
    route: Map<Point, Seq<Point>>,
    from: Map<Point, Point>,
    p: Point,
    fuel: nat,
)
    requires
        seen.contains(p),
        forall|q: Point| #[trigger] seen.contains(q) ==> tied(g, seen, route, from, q),
        route[p].len() <= fuel + 1,
    ensures
        way_back(from, p, fuel) == route[p].reverse(),
    decreases fuel,
{
    if Some(p) != g.start {
        lemma_way_back(g, seen, route, from, from[p], (fuel - 1) as nat);
    }
}

/// The positions of a sequence of nodes.
pub(crate) open spec fn points_of(path: Seq<Node>) -> Seq<Point> {
    path.map_values(|n: Node| n.point)
}

proof fn lemma_trace_step(
    whole: Seq<Point>,
    before: Seq<Point>,
    path: Seq<Node>,
    node: Node,
)
    requires
        whole == before.push(node.point) + points_of(path).reverse(),
    ensures
        whole == before + points_of(path.push(node)).reverse(),
{
    assert(before.push(node.point) + points_of(path).reverse() =~= before + (seq![node.point]
        + points_of(path).reverse()));
}

/// Follows the predecessors from `end` back to the entrance. The nodes
/// come out in that order: read backwards they are the way to `end`.
pub(crate) fn trace(
    maze: &Maze,
    reverse_path: &Vec<Option<Point>>,
    end: Point,
    Ghost(seen): Ghost<Set<Point>>,
    Ghost(route): Ghost<Map<Point, Seq<Point>>>,
    Ghost(rank): Ghost<Map<Point, nat>>,
) -> (path: VecDeque<Node>)
    requires
        fits(maze@),
        maze@.start is Some,
        reverse_path@.len() == maze@.width * maze@.height,
        seen.contains(end),
        forall|p: Point| #[trigger] seen.contains(p) ==> linked(maze@, reverse_path@, seen, route, rank, p),
    ensures
        points_of(path@).reverse() == route[end],
        forall|i: int|
            0 <= i < path@.len() ==> maze@.has(path@[i].point) && #[trigger] path@[i]
                == maze@.nodes[path@[i].point],
{
    let ghost g = maze@;
    let width = maze.width();
    let height = maze.height();
    let mut path: VecDeque<Node> = VecDeque::new();
    let mut current = end;
    loop
        invariant
            g == maze@,
            g.wf(),
            fits(g),
            g.start is Some,
            width == g.width,
            height == g.height,
            reverse_path@.len() == g.width * g.height,
            seen.contains(current),
            forall|p: Point| #[trigger]
                seen.contains(p) ==> linked(g, reverse_path@, seen, route, rank, p),
            route[end] == route[current] + points_of(path@).reverse(),
            forall|i: int|
                0 <= i < path@.len() ==> g.has(path@[i].point) && #[trigger] path@[i]
                    == g.nodes[path@[i].point],
        decreases rank[current],
    {
        let node = match maze.node_at(current) {
            Some(node) => node,
            None => {
                return path;
            },
        };
        let ghost before = path@;
        path.push_back(node);
        if node.start {
            proof {
                lemma_trace_step(route[end], Seq::empty(), before, node);
                assert(Seq::<Point>::empty() + points_of(path@).reverse() =~= points_of(
                    path@,
                ).reverse());
            }
            return path;
        }
        let at = index_of(width, height, current);
        match reverse_path[at] {
            Some(u) => {
                proof {
                    lemma_trace_step(route[end], route[u], before, node);
                }
                current = u;
            },
            None => {
                return path;
            },
        }
    }
}

} // verus!
