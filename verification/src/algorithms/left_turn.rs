//! The wall follower: at every node take the leftmost way on.

use crate::algorithms::{Solution, Solver};
use crate::graph::Graph;
use crate::maze::Maze;
use crate::node::{Direction, Node, Point};
use std::collections::VecDeque;
use vstd::prelude::*;

verus! {

/// Solves a maze by always taking the leftmost way on.
pub struct LeftTurn;

/// Where the walker stands and which way it faces.
pub struct Walker {
    pub at: Point,
    pub heading: Direction,
}

/// The way the walker takes at `p` when it faces `heading`: the first of
/// left, straight on, right and back in which the node has a neighbour.
pub open spec fn turn(g: Graph, p: Point, heading: Direction) -> Option<Direction> {
    if g.toward(p, heading.counter_clockwise(1)) is Some {
        Some(heading.counter_clockwise(1))
    } else if g.toward(p, heading) is Some {
        Some(heading)
    } else if g.toward(p, heading.clockwise(1)) is Some {
        Some(heading.clockwise(1))
    } else if g.toward(p, heading.clockwise(2)) is Some {
        Some(heading.clockwise(2))
    } else {
        None
    }
}

/// One step of the walker, or `None` where its node has no neighbour.
pub open spec fn advance(g: Graph, w: Walker) -> Option<Walker> {
    match turn(g, w.at, w.heading) {
        Some(d) => Some(Walker { at: g.toward(w.at, d)->Some_0, heading: d }),
        None => None,
    }
}

/// The walker after `n` steps from the entrance, facing south at first.
/// `None` when it was stuck before, or had come to the exit or back to
/// the entrance after a step before the `n`th.
pub open spec fn walked(g: Graph, n: nat) -> Option<Walker>
    decreases n,
{
    if g.start is None {
        None
    } else if n == 0 {
        Some(Walker { at: g.start->Some_0, heading: Direction::South })
    } else {
        match walked(g, (n - 1) as nat) {
            Some(w) => if n > 1 && (Some(w.at) == g.exit || Some(w.at) == g.start) {
                None
            } else {
                advance(g, w)
            },
            None => None,
        }
    }
}

/// The number of the step, from `n` up to `limit`, with which the walker
/// comes to the exit.
pub open spec fn arrival(g: Graph, n: nat, limit: nat) -> Option<nat>
    decreases limit + 1 - n,
{
    if n > limit {
        None
    } else {
        match walked(g, n) {
            Some(w) => if Some(w.at) == g.exit {
                Some(n)
            } else if Some(w.at) == g.start {
                None
            } else {
                arrival(g, n + 1, limit)
            },
            None => None,
        }
    }
}

/// The positions the walker comes by in its first `n` steps, the
/// entrance first.
pub open spec fn track(g: Graph, n: nat) -> Seq<Point> {
    Seq::new(n + 1, |i: int| walked(g, i as nat)->Some_0.at)
}

/// The positions of the walker's first `n` steps, the last one first.
pub open spec fn trail(g: Graph, n: nat) -> Seq<Point> {
    track(g, n).reverse()
}

/// The most steps the walker is followed for: four for every pixel, and
/// no more than the decision counter can tell.
pub open spec fn step_limit(g: Graph) -> nat {
    let area = g.width * g.height;
    if 4 * area < 0xFFFF_FFFE {
        4 * area
    } else {
        0xFFFF_FFFE
    }
}

/// One more step of the walker lengthens its track by the node it comes to.
proof fn lemma_walked_on(g: Graph, n: nat, way: Direction, point: Point)
    requires
        g.wf(),
        walked(g, n) is Some,
        n > 0 ==> Some(walked(g, n)->Some_0.at) != g.exit && Some(walked(g, n)->Some_0.at)
            != g.start,
        g.has(walked(g, n)->Some_0.at),
        turn(g, walked(g, n)->Some_0.at, walked(g, n)->Some_0.heading) == Some(way),
        g.toward(walked(g, n)->Some_0.at, way) == Some(point),
        g.is_walk(track(g, n)),
    ensures
        walked(g, n + 1) == Some(Walker { at: point, heading: way }),
        track(g, n + 1) == track(g, n).push(point),
        trail(g, n + 1) == seq![point] + trail(g, n),
        g.is_walk(track(g, n + 1)),
{
    let old_track = track(g, n);
    let new_track = track(g, n + 1);
    assert forall|i: int| 0 <= i < new_track.len() - 1 implies #[trigger] g.step(new_track, i) by {
        if i < n {
            assert(g.step(old_track, i));
        }
    }
}

/// A node put in front of a path puts its position in front of the
/// path's positions.
proof fn lemma_points_push_front(path: Seq<Node>, node: Node)
    ensures
        (seq![node] + path).map_values(|n: Node| n.point) == seq![node.point] + path.map_values(
            |n: Node| n.point,
        ),
{
    assert((seq![node] + path).map_values(|n: Node| n.point) =~= seq![node.point]
        + path.map_values(|n: Node| n.point));
}

/// Where the walker comes to the exit with step `n`, having come neither
/// to it nor back to the entrance before, that step is its arrival.
proof fn lemma_arrived(g: Graph, n: nat, limit: nat)
    requires
        1 <= n <= limit,
        walked(g, n) is Some,
        Some(walked(g, n)->Some_0.at) == g.exit,
    ensures
        arrival(g, n, limit) == Some(n),
{
}

impl Solver for LeftTurn {
    /// Follows the walker from the entrance until it comes to the exit,
    /// comes back to the entrance, is stuck, or has made `step_limit`
    /// steps. The path holds every node it came by, the exit first; the
    /// decisions are the nodes of the path.
    fn solve(maze: &Maze) -> (r: Option<Solution>)
        ensures
            r is Some <==> arrival(maze@, 1, step_limit(maze@)) is Some,
            r matches Some(s) ==> {
                let n = arrival(maze@, 1, step_limit(maze@))->Some_0;
                &&& s.points() == trail(maze@, n)
                &&& s.count == n + 1
            },
    {
        let ghost g = maze@;
        let start = match maze.entrance() {
            Some(p) => p,
            None => {
                return None;
            },
        };
        let end = maze.exit();
        let first = match maze.node_at(start) {
            Some(node) => node,
            None => {
                return None;
            },
        };
        let area: u64 = (maze.width() as u64) * (maze.height() as u64);
        let limit: u32 = if 4 * area < 0xFFFF_FFFE {
            (4 * area) as u32
        } else {
            0xFFFF_FFFE
        };
        let mut path: VecDeque<Node> = VecDeque::new();
        path.push_front(first);
        let mut current = first;
        let mut heading = Direction::South;
        let mut count: u32 = 1;
        let mut steps: u32 = 0;
        while steps < limit
            invariant
                g == maze@,
                g.wf(),
                g.start == Some(start),
                g.exit == end,
                limit == step_limit(g),
                steps <= limit,
                count == steps + 1,
                walked(g, steps as nat) == Some(Walker { at: current.point, heading }),
                g.has(current.point),
                current == g.nodes[current.point],
                steps > 0 ==> Some(current.point) != g.exit && Some(current.point) != g.start,
                arrival(g, 1, limit as nat) == arrival(g, (steps + 1) as nat, limit as nat),
                path@.map_values(|n: Node| n.point) == trail(g, steps as nat),
                g.is_walk(track(g, steps as nat)),
                forall|i: int|
                    0 <= i < path@.len() ==> g.has(path@[i].point) && #[trigger] path@[i]
                        == g.nodes[path@[i].point],
            decreases limit - steps,
        {
            let n = current.children;
            let left = heading - 1;
            let right = heading + 1;
            let back = heading + 2;
            let (way, point) = match n.get(left) {
                Some(point) => (left, point),
                None => match n.get(heading) {
                    Some(point) => (heading, point),
                    None => match n.get(right) {
                        Some(point) => (right, point),
                        None => match n.get(back) {
                            Some(point) => (back, point),
                            None => {
                                return None;
                            },
                        },
                    },
                },
            };
            let node = match maze.node_at(point) {
                Some(node) => node,
                None => {
                    return None;
                },
            };
            let ghost before = path@;
            path.push_front(node);
            heading = way;
            current = node;
            count = count + 1;
            steps = steps + 1;
            proof {
                lemma_walked_on(g, (steps - 1) as nat, way, point);
                lemma_points_push_front(before, node);
            }
            if Some(current.point) == end {
                let solution = Solution::new(count, path);
                proof {
                    lemma_arrived(g, steps as nat, limit as nat);
                    assert(solution.route() =~= track(g, steps as nat));
                    assert(g.connects(solution.route(), start, current.point));
                }
                return Some(solution);
            }
            if current.point == start {
                return None;
            }
        }
        None
    }
}

} // verus!
