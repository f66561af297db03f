//! Exploring a maze node by node from the entrance: what breadth-first
//! and depth-first search share.

use crate::algorithms::trace::{lemma_way_back, linked, points_of, tied, trace, way_back};
use crate::algorithms::{fits, Solution};
use crate::graph::{grid, lemma_grid, offset, Graph};
use crate::img::{lemma_offset_in_bounds, lemma_offset_injective};
use crate::maze::Maze;
use crate::node::{Direction, Node, Point};
use std::collections::VecDeque;
use vstd::prelude::*;

verus! {

/// The nodes that a walk of at most `k` nodes from the entrance reaches.
pub open spec fn within(g: Graph, k: int) -> Set<Point> {
    Set::new(
        |z: Point|
            g.has(z) && exists|w: Seq<Point>| #[trigger]
                g.connects(w, g.start->Some_0, z) && w.len() <= k,
    )
}

/// `s` is a way through `g` with no more nodes than any walk from the
/// entrance to the exit has, and its decisions are at least the exit
/// and the nodes that fewer steps reach than the exit, and at most the
/// nodes that no more steps reach.
pub open spec fn fewest(g: Graph, s: Solution) -> bool {
    &&& s.solves(g)
    &&& forall|w: Seq<Point>| #[trigger]
        g.connects(w, g.start->Some_0, g.exit->Some_0) ==> s.path@.len() <= w.len()
    &&& within(g, s.path@.len() - 1).len() + 1 <= s.count
    &&& s.count <= within(g, s.path@.len() as int).len()
}

/// The way that breadth-first search finds has no more nodes than the
/// way that any other strategy finds.
pub proof fn lemma_breadth_first_fewest(g: Graph, b: Solution, other: Solution)
    requires
        fewest(g, b),
        other.solves(g),
    ensures
        b.length <= other.length,
{
}

/// An exploration between two of its rounds: the nodes that wait to
/// be taken, the nodes seen so far, the node each was seen from, the
/// number of nodes taken, and whether the exit was among them.
pub struct Exploration {
    pub queue: Seq<Point>,
    pub seen: Set<Point>,
    pub from: Map<Point, Point>,
    pub taken: nat,
    pub found: bool,
}

/// The exploration that has seen the entrance and taken nothing.
pub open spec fn begin(g: Graph) -> Exploration {
    Exploration {
        queue: seq![g.start->Some_0],
        seen: set![g.start->Some_0],
        from: Map::empty(),
        taken: 0,
        found: false,
    }
}

/// A look from `u` in direction `d`: a neighbour not seen before is
/// seen now, from `u`, and waits at the back of the queue.
pub open spec fn glance(g: Graph, e: Exploration, u: Point, d: Direction) -> Exploration {
    match g.toward(u, d) {
        Some(v) => if e.seen.contains(v) {
            e
        } else {
            Exploration {
                queue: e.queue.push(v),
                seen: e.seen.insert(v),
                from: e.from.insert(v, u),
                ..e
            }
        },
        None => e,
    }
}

/// One round: the node at the front of the queue (`fifo`) or at its back
/// is taken; if it is the exit, the exploration has found it; if not, a
/// look goes north, east, south and west from it. Nothing happens once
/// the exit is found or the queue is empty.
pub open spec fn round(g: Graph, fifo: bool, e: Exploration) -> Exploration {
    if e.found || e.queue.len() == 0 {
        e
    } else {
        let u = if fifo {
            e.queue[0]
        } else {
            e.queue[e.queue.len() - 1]
        };
        let rest = if fifo {
            e.queue.subrange(1, e.queue.len() as int)
        } else {
            e.queue.subrange(0, e.queue.len() - 1)
        };
        let t = Exploration { queue: rest, taken: e.taken + 1, ..e };
        if Some(u) == g.exit {
            Exploration { found: true, ..t }
        } else {
            glance(
                g,
                glance(g, glance(g, glance(g, t, u, Direction::North), u, Direction::East), u, Direction::South),
                u,
                Direction::West,
            )
        }
    }
}

/// The exploration after `k` rounds.
pub open spec fn explored(g: Graph, fifo: bool, k: nat) -> Exploration
    decreases k,
{
    if k == 0 {
        begin(g)
    } else {
        round(g, fifo, explored(g, fifo, (k - 1) as nat))
    }
}

/// The exploration at its end: after a round for every pixel and one
/// more, nothing happens any more.
pub open spec fn outcome(g: Graph, fifo: bool) -> Exploration {
    explored(g, fifo, g.width * g.height + 1)
}

/// `r` is what the exploration of `g` gives: a way exactly if the
/// exploration finds the exit, and then the way back from the exit along
/// the nodes that each node was seen from, with the number of nodes
/// taken as its decisions.
pub open spec fn explores(g: Graph, fifo: bool, r: Option<Solution>) -> bool {
    match r {
        Some(s) => {
            &&& g.start is Some
            &&& outcome(g, fifo).found
            &&& s.count == outcome(g, fifo).taken
            &&& s.points() == way_back(outcome(g, fifo).from, g.exit->Some_0, outcome(g, fifo).taken)
        },
        None => g.start is None || !outcome(g, fifo).found,
    }
}

/// Once the exit is found or the queue is empty, further rounds change
/// nothing.
proof fn lemma_at_rest(g: Graph, fifo: bool, k: nat, j: nat)
    requires
        explored(g, fifo, k).found || explored(g, fifo, k).queue.len() == 0,
        k <= j,
    ensures
        explored(g, fifo, j) == explored(g, fifo, k),
    decreases j - k,
{
    if k < j {
        lemma_at_rest(g, fifo, k, (j - 1) as nat);
    }
}

/// What an exploration knows: the nodes it has seen, those whose
/// neighbours it has all seen, and for each seen node the node it was
/// seen from, the way it came by and the number of its steps.
struct Sweep {
    seen: Set<Point>,
    done: Set<Point>,
    from: Map<Point, Point>,
    level: Map<Point, nat>,
    route: Map<Point, Seq<Point>>,
}

/// What the exploration `st` with the queue `queue` is after `taken` nodes.
spec fn model(st: Sweep, queue: Seq<Point>, taken: nat) -> Exploration {
    Exploration { queue, seen: st.seen, from: st.from, taken, found: false }
}

/// The place of the node `p` in the tables of a search.
pub(crate) open spec fn cell(g: Graph, p: Point) -> int {
    offset(g.width, p)
}

/// The seen node `p` has a way from the entrance that ends with the
/// step from its predecessor.
spec fn known(g: Graph, st: Sweep, pred: Seq<Option<Point>>, p: Point) -> bool {
    &&& g.has(p)
    &&& g.connects(st.route[p], g.start->Some_0, p)
    &&& st.route[p].len() == st.level[p] + 1
    &&& if Some(p) == g.start {
        st.level[p] == 0 && !st.from.contains_key(p)
    } else {
        &&& pred[cell(g, p)] matches Some(u)
        &&& st.from.contains_key(p)
        &&& st.from[p] == u
        &&& st.seen.contains(u)
        &&& st.route[p] == st.route[u].push(p)
        &&& st.level[p] == st.level[u] + 1
    }
}

/// The queue holds its nodes by the number of their steps, none with
/// fewer than `base` and none with more than `base + 1`.
spec fn layered(st: Sweep, queue: Seq<Point>, base: nat) -> bool {
    &&& forall|i: int, j: int|
        0 <= i <= j < queue.len() ==> st.level[#[trigger] queue[i]] <= st.level[#[trigger] queue[j]]
    &&& forall|i: int|
        0 <= i < queue.len() ==> base <= st.level[#[trigger] queue[i]] <= base + 1
}

/// The number of steps of the node that leaves the queue next.
spec fn base_of(st: Sweep, queue: Seq<Point>, cur: Option<Point>) -> nat {
    match cur {
        Some(c) => st.level[c],
        None => if queue.len() > 0 {
            st.level[queue[0]]
        } else {
            0
        },
    }
}

/// Every walk from the entrance of at most `limit` nodes ends in `done`.
spec fn near(g: Graph, done: Set<Point>, limit: nat) -> bool {
    forall|w: Seq<Point>|
        (#[trigger] g.is_walk(w)) && w[0] == g.start->Some_0 && w.len() <= limit ==> done.contains(
            w[w.len() - 1],
        )
}

/// No walk from the entrance to a seen node has fewer nodes than the way
/// the node was reached by.
spec fn shortest(g: Graph, st: Sweep) -> bool {
    forall|p: Point, w: Seq<Point>|
        st.seen.contains(p) && #[trigger] g.connects(w, g.start->Some_0, p) ==> st.level[p] + 1
            <= w.len()
}

/// What holds of an exploration between two steps; `cur` is the node
/// whose neighbours are being looked at, if any.
spec fn sweeping(
    g: Graph,
    st: Sweep,
    visited: Seq<bool>,
    pred: Seq<Option<Point>>,
    queue: Seq<Point>,
    cur: Option<Point>,
    fifo: bool,
) -> bool {
    &&& g.wf()
    &&& fits(g)
    &&& g.start is Some
    &&& visited.len() == g.width * g.height
    &&& pred.len() == g.width * g.height
    &&& st.seen.contains(g.start->Some_0)
    &&& forall|p: Point| #[trigger] st.seen.contains(p) ==> known(g, st, pred, p)
    &&& forall|p: Point| #[trigger] g.has(p) ==> (visited[cell(g, p)] <==> st.seen.contains(p))
    &&& forall|p: Point| #[trigger]
        st.done.contains(p) ==> st.seen.contains(p) && Some(p) != g.exit
    &&& forall|p: Point, d: Direction|
        st.done.contains(p) && (#[trigger] g.toward(p, d)) is Some ==> st.seen.contains(
            g.toward(p, d)->Some_0,
        )
    &&& forall|p: Point| #[trigger]
        st.seen.contains(p) ==> st.done.contains(p) || queue.contains(p) || cur == Some(p)
    &&& forall|i: int|
        0 <= i < queue.len() ==> st.seen.contains(#[trigger] queue[i]) && !st.done.contains(
            queue[i],
        ) && cur != Some(queue[i])
    &&& queue.no_duplicates()
    &&& cur matches Some(c) ==> st.seen.contains(c) && !st.done.contains(c)
    &&& st.done.finite()
    &&& fifo ==> layered(st, queue, base_of(st, queue, cur))
    &&& fifo ==> shortest(g, st)
    &&& fifo && (cur is Some || queue.len() > 0) ==> forall|p: Point| #[trigger]
        st.done.contains(p) ==> st.level[p] <= base_of(st, queue, cur)
    &&& forall|p: Point| #[trigger]
        st.seen.contains(p) ==> st.level[p] <= st.done.len() + (if cur is Some {
            1nat
        } else {
            0nat
        })
    &&& cur matches Some(c) ==> st.level[c] <= st.done.len()
}

/// While the queue is filled in order, every node that a walk of fewer
/// nodes than the current one's way reaches is done.
proof fn lemma_near(
    g: Graph,
    st: Sweep,
    visited: Seq<bool>,
    pred: Seq<Option<Point>>,
    queue: Seq<Point>,
    cur: Point,
    w: Seq<Point>,
)
    requires
        sweeping(g, st, visited, pred, queue, Some(cur), true),
        g.is_walk(w),
        w[0] == g.start->Some_0,
        w.len() <= st.level[cur],
    ensures
        st.done.contains(w[w.len() - 1]),
    decreases w.len(),
{
    let start = g.start->Some_0;
    let z = w[w.len() - 1];
    if w.len() > 1 {
        g.lemma_walk_pop(w, start, z);
        lemma_near(g, st, visited, pred, queue, cur, w.drop_last());
        let y = w[w.len() - 2];
        let d = choose|d: Direction| g.toward(y, d) == Some(z);
        assert(g.toward(y, d) is Some);
        assert(st.seen.contains(z));
    }
    assert(st.seen.contains(z));
    assert(g.connects(w, start, z));
    assert(st.level[z] + 1 <= w.len());
    assert(known(g, st, pred, z));
    if queue.contains(z) {
        let i = choose|i: int| 0 <= i < queue.len() && queue[i] == z;
        assert(st.level[queue[i]] >= st.level[cur]);
    }
}

/// When nothing is left to look at, every node that a walk from the
/// entrance reaches is done.
proof fn lemma_closed(
    g: Graph,
    st: Sweep,
    visited: Seq<bool>,
    pred: Seq<Option<Point>>,
    fifo: bool,
    w: Seq<Point>,
)
    requires
        sweeping(g, st, visited, pred, Seq::empty(), None, fifo),
        g.is_walk(w),
        w[0] == g.start->Some_0,
    ensures
        st.done.contains(w[w.len() - 1]),
    decreases w.len(),
{
    let start = g.start->Some_0;
    let z = w[w.len() - 1];
    if w.len() > 1 {
        g.lemma_walk_pop(w, start, z);
        lemma_closed(g, st, visited, pred, fifo, w.drop_last());
        let y = w[w.len() - 2];
        let d = choose|d: Direction| g.toward(y, d) == Some(z);
        assert(g.toward(y, d) is Some);
    }
}

/// The place of the node `p` in a table that has one entry for every pixel.
pub(crate) fn index_of(width: u32, height: u32, p: Point) -> (i: usize)
    requires
        p.x < width,
        p.y < height,
        width * height <= u32::MAX,
    ensures
        i == offset(width as nat, p),
        i < width * height,
{
    proof {
        lemma_offset_in_bounds(p.x as int, p.y as int, width as int, height as int);
    }
    let at: u32 = p.y * width + p.x;
    at as usize
}

/// A table of `n` entries, each of them `value`.
pub(crate) fn filled<T: Copy>(n: usize, value: T) -> (table: Vec<T>)
    ensures
        table@.len() == n,
        forall|i: int| 0 <= i < n ==> table@[i] == value,
{
    let mut table: Vec<T> = Vec::new();
    let mut i: usize = 0;
    while i < n
        invariant
            i <= n,
            table@.len() == i,
            forall|j: int| 0 <= j < i ==> table@[j] == value,
        decreases n - i,
    {
        table.push(value);
        i = i + 1;
    }
    table
}

/// The exploration after the unseen node `next` is reached from `cur`.
spec fn reached(st: Sweep, cur: Point, next: Point) -> Sweep {
    Sweep {
        seen: st.seen.insert(next),
        done: st.done,
        from: st.from.insert(next, cur),
        level: st.level.insert(next, st.level[cur] + 1),
        route: st.route.insert(next, st.route[cur].push(next)),
    }
}

proof fn lemma_reached(
    g: Graph,
    st: Sweep,
    visited: Seq<bool>,
    pred: Seq<Option<Point>>,
    queue: Seq<Point>,
    cur: Point,
    d: Direction,
    next: Point,
    fifo: bool,
)
    requires
        sweeping(g, st, visited, pred, queue, Some(cur), fifo),
        g.toward(cur, d) == Some(next),
        !st.seen.contains(next),
        fifo ==> near(g, st.done, st.level[cur]),
    ensures
        sweeping(
            g,
            reached(st, cur, next),
            visited.update(cell(g, next), true),
            pred.update(cell(g, next), Some(cur)),
            queue.push(next),
            Some(cur),
            fifo,
        ),
{
    let start = g.start->Some_0;
    let st2 = reached(st, cur, next);
    let visited2 = visited.update(cell(g, next), true);
    let pred2 = pred.update(cell(g, next), Some(cur));
    let queue2 = queue.push(next);
    assert(known(g, st, pred, cur));
    assert(g.has(next));
    assert(g.edge(cur, next));
    lemma_offset_in_bounds(next.x as int, next.y as int, g.width as int, g.height as int);
    g.lemma_walk_push(st.route[cur], start, cur, next);
    assert forall|p: Point| #[trigger] st2.seen.contains(p) implies known(g, st2, pred2, p) by {
        if p != next {
            assert(known(g, st, pred, p));
            lemma_offset_in_bounds(p.x as int, p.y as int, g.width as int, g.height as int);
            if cell(g, p) == cell(g, next) {
                lemma_offset_injective(
                    p.x as int,
                    p.y as int,
                    next.x as int,
                    next.y as int,
                    g.width as int,
                );
            }
        }
    }
    assert forall|p: Point| #[trigger] g.has(p) implies (visited2[cell(g, p)]
        <==> st2.seen.contains(p)) by {
        lemma_offset_in_bounds(p.x as int, p.y as int, g.width as int, g.height as int);
        if p != next && cell(g, p) == cell(g, next) {
            lemma_offset_injective(
                p.x as int,
                p.y as int,
                next.x as int,
                next.y as int,
                g.width as int,
            );
        }
    }
    assert forall|p: Point| #[trigger] st2.seen.contains(p) implies st2.done.contains(p)
        || queue2.contains(p) || Some(cur) == Some(p) by {
        if p == next {
            assert(queue2[queue.len() as int] == next);
        } else if queue.contains(p) {
            let i = choose|i: int| 0 <= i < queue.len() && queue[i] == p;
            assert(queue2[i] == p);
        }
    }
    if fifo {
        assert(layered(st2, queue2, st2.level[cur]));
        assert forall|p: Point, w: Seq<Point>|
            st2.seen.contains(p) && #[trigger] g.connects(w, start, p) implies st2.level[p] + 1
            <= w.len() by {
            if p == next {
                g.lemma_walk_pop(w, start, next);
                let v = w.drop_last();
                assert(g.is_walk(v));
                if v.len() <= st.level[cur] {
                    let y = v[v.len() - 1];
                    let e = choose|e: Direction| g.toward(y, e) == Some(next);
                    assert(g.toward(y, e) is Some);
                }
            }
        }
    }
}

/// Looks at the neighbour of `node` in direction `d`: a node not seen
/// before is marked, remembers `node` as the one it was reached from,
/// and joins the queue.
fn visit(
    maze: &Maze,
    node: &Node,
    d: Direction,
    visited: &mut Vec<bool>,
    reverse_path: &mut Vec<Option<Point>>,
    queue: &mut VecDeque<Point>,
    st: &mut Ghost<Sweep>,
    fifo: bool,
)
    requires
        sweeping(
            maze@,
            old(st)@,
            old(visited)@,
            old(reverse_path)@,
            old(queue)@,
            Some(node.point),
            fifo,
        ),
        *node == maze@.nodes[node.point],
        fifo ==> near(maze@, old(st)@.done, old(st)@.level[node.point]),
    ensures
        sweeping(
            maze@,
            final(st)@,
            final(visited)@,
            final(reverse_path)@,
            final(queue)@,
            Some(node.point),
            fifo,
        ),
        final(st)@.done == old(st)@.done,
        final(st)@.level[node.point] == old(st)@.level[node.point],
        forall|p: Point| old(st)@.seen.contains(p) ==> final(st)@.seen.contains(p),
        maze@.toward(node.point, d) matches Some(v) ==> final(st)@.seen.contains(v),
        forall|n: nat| #[trigger]
            model(final(st)@, final(queue)@, n) == glance(
                maze@,
                model(old(st)@, old(queue)@, n),
                node.point,
                d,
            ),
{
    let ghost g = maze@;
    let next = match node.children.get(d) {
        Some(p) => p,
        None => {
            return ;
        },
    };
    assert(g.has(next));
    let n_index = index_of(maze.width(), maze.height(), next);
    if !visited[n_index] {
        proof {
            lemma_reached(g, st@, visited@, reverse_path@, queue@, node.point, d, next, fifo);
            st@ = reached(st@, node.point, next);
        }
        visited.set(n_index, true);
        reverse_path.set(n_index, Some(node.point));
        queue.push_back(next);
    }
}

/// The exploration that has seen the entrance and nothing else.
spec fn fresh(start: Point) -> Sweep {
    Sweep {
        seen: set![start],
        done: Set::empty(),
        from: Map::empty(),
        level: map![start => 0nat],
        route: map![start => seq![start]],
    }
}

proof fn lemma_fresh(g: Graph, visited: Seq<bool>, pred: Seq<Option<Point>>, fifo: bool)
    requires
        g.wf(),
        fits(g),
        g.start is Some,
        visited.len() == g.width * g.height,
        pred.len() == g.width * g.height,
        forall|i: int| 0 <= i < visited.len() ==> !visited[i],
    ensures
        sweeping(
            g,
            fresh(g.start->Some_0),
            visited.update(cell(g, g.start->Some_0), true),
            pred,
            seq![g.start->Some_0],
            None,
            fifo,
        ),
{
    let start = g.start->Some_0;
    let st = fresh(start);
    let visited2 = visited.update(cell(g, start), true);
    let queue = seq![start];
    lemma_offset_in_bounds(start.x as int, start.y as int, g.width as int, g.height as int);
    assert(g.is_walk(seq![start]));
    assert forall|p: Point| #[trigger] g.has(p) implies (visited2[cell(g, p)] <==> st.seen.contains(
        p,
    )) by {
        lemma_offset_in_bounds(p.x as int, p.y as int, g.width as int, g.height as int);
        if p != start && cell(g, p) == cell(g, start) {
            lemma_offset_injective(
                p.x as int,
                p.y as int,
                start.x as int,
                start.y as int,
                g.width as int,
            );
        }
    }
    assert(queue[0] == start);
}

/// The exploration after the node `cur` has left the queue and all its
/// neighbours are seen.
spec fn finished(st: Sweep, cur: Point) -> Sweep {
    Sweep { done: st.done.insert(cur), ..st }
}

proof fn lemma_taken(
    g: Graph,
    st: Sweep,
    visited: Seq<bool>,
    pred: Seq<Option<Point>>,
    queue: Seq<Point>,
    fifo: bool,
)
    requires
        sweeping(g, st, visited, pred, queue, None, fifo),
        queue.len() > 0,
    ensures
        ({
            let cur = if fifo {
                queue[0]
            } else {
                queue[queue.len() - 1]
            };
            let rest = if fifo {
                queue.subrange(1, queue.len() as int)
            } else {
                queue.subrange(0, queue.len() - 1)
            };
            &&& sweeping(g, st, visited, pred, rest, Some(cur), fifo)
            &&& st.done.insert(cur).len() == st.done.len() + 1
            &&& st.done.len() < g.width * g.height
            &&& forall|n: nat|
                round(g, fifo, #[trigger] model(st, queue, n)) == (if Some(cur) == g.exit {
                    Exploration { found: true, ..model(st, rest, n + 1) }
                } else {
                    glance(
                        g,
                        glance(
                            g,
                            glance(
                                g,
                                glance(g, model(st, rest, n + 1), cur, Direction::North),
                                cur,
                                Direction::East,
                            ),
                            cur,
                            Direction::South,
                        ),
                        cur,
                        Direction::West,
                    )
                })
        }),
{
    let cur = if fifo {
        queue[0]
    } else {
        queue[queue.len() - 1]
    };
    let rest = if fifo {
        queue.subrange(1, queue.len() as int)
    } else {
        queue.subrange(0, queue.len() - 1)
    };
    let shift: int = if fifo {
        1
    } else {
        0
    };
    assert forall|i: int| 0 <= i < rest.len() implies rest[i] == queue[i + shift] by {}
    assert forall|p: Point| #[trigger] st.seen.contains(p) implies st.done.contains(p)
        || rest.contains(p) || Some(cur) == Some(p) by {
        if queue.contains(p) && p != cur {
            let i = choose|i: int| 0 <= i < queue.len() && queue[i] == p;
            assert(rest[i - shift] == p);
        }
    }
    assert forall|i: int| 0 <= i < rest.len() implies st.seen.contains(#[trigger] rest[i])
        && !st.done.contains(rest[i]) && Some(cur) != Some(rest[i]) by {
        assert(rest[i] == queue[i + shift]);
    }
    assert(rest.no_duplicates()) by {
        assert forall|i: int, j: int| 0 <= i < rest.len() && 0 <= j < rest.len() && i != j implies rest[i] != rest[j] by {
            assert(rest[i] == queue[i + shift]);
            assert(rest[j] == queue[j + shift]);
        }
    }
    if fifo {
        assert forall|i: int| 0 <= i < rest.len() implies st.level[cur] <= st.level[#[trigger] rest[i]]
            <= st.level[cur] + 1 by {
            assert(rest[i] == queue[i + 1]);
        }
        assert forall|i: int, j: int| 0 <= i <= j < rest.len() implies st.level[#[trigger] rest[i]]
            <= st.level[#[trigger] rest[j]] by {
            assert(rest[i] == queue[i + 1]);
            assert(rest[j] == queue[j + 1]);
        }
    }
    lemma_grid(g.width, g.height);
    let whole = st.done.insert(cur);
    assert(whole.subset_of(grid(g.width, g.height))) by {
        assert forall|p: Point| whole.contains(p) implies grid(g.width, g.height).contains(p) by {
            assert(st.seen.contains(p));
            assert(known(g, st, pred, p));
        }
    }
    vstd::set_lib::lemma_len_subset(whole, grid(g.width, g.height));
}

proof fn lemma_finished(
    g: Graph,
    st: Sweep,
    visited: Seq<bool>,
    pred: Seq<Option<Point>>,
    queue: Seq<Point>,
    cur: Point,
    fifo: bool,
)
    requires
        sweeping(g, st, visited, pred, queue, Some(cur), fifo),
        Some(cur) != g.exit,
        forall|d: Direction|
            (#[trigger] g.toward(cur, d)) is Some ==> st.seen.contains(g.toward(cur, d)->Some_0),
    ensures
        sweeping(g, finished(st, cur), visited, pred, queue, None, fifo),
        forall|n: nat| #[trigger] model(finished(st, cur), queue, n) == model(st, queue, n),
{
    let st2 = finished(st, cur);
    assert forall|p: Point| #[trigger] st2.seen.contains(p) implies known(g, st2, pred, p) by {
        assert(known(g, st, pred, p));
    }
    if fifo {
        assert(layered(st2, queue, base_of(st2, queue, None)));
    }
}

/// When the exit leaves a queue that was filled in order, every node
/// that fewer steps reach than the exit is done, and no done node takes
/// more steps than the exit.
proof fn lemma_exit_taken(
    g: Graph,
    st: Sweep,
    visited: Seq<bool>,
    pred: Seq<Option<Point>>,
    queue: Seq<Point>,
    exit: Point,
)
    requires
        sweeping(g, st, visited, pred, queue, Some(exit), true),
    ensures
        within(g, st.level[exit] as int).len() <= st.done.len(),
        st.done.len() + 1 <= within(g, st.level[exit] as int + 1).len(),
{
    let start = g.start->Some_0;
    let few = within(g, st.level[exit] as int);
    let many = within(g, st.level[exit] as int + 1);
    lemma_grid(g.width, g.height);
    assert(many.subset_of(grid(g.width, g.height)));
    vstd::set_lib::lemma_len_subset(many, grid(g.width, g.height));
    assert(few.subset_of(st.done)) by {
        assert forall|z: Point| few.contains(z) implies st.done.contains(z) by {
            let w = choose|w: Seq<Point>| #[trigger]
                g.connects(w, start, z) && w.len() <= st.level[exit];
            lemma_near(g, st, visited, pred, queue, exit, w);
        }
    }
    vstd::set_lib::lemma_len_subset(few, st.done);
    let all = st.done.insert(exit);
    assert(all.subset_of(many)) by {
        assert forall|z: Point| all.contains(z) implies many.contains(z) by {
            assert(st.seen.contains(z));
            assert(known(g, st, pred, z));
            assert(g.connects(st.route[z], start, z));
        }
    }
    vstd::set_lib::lemma_len_subset(all, many);
}

/// Explores the maze from the entrance, taking the next node from the
/// front of the queue (`fifo`) or from its back, until the exit leaves
/// the queue or the queue is empty.
pub(crate) fn explore(maze: &Maze, fifo: bool) -> (r: Option<Solution>)
    requires
        fits(maze@),
    ensures
        maze@.wf(),
        r is Some <==> maze@.solvable(),
        explores(maze@, fifo, r),
        r matches Some(s) ==> {
            &&& s.solves(maze@)
            &&& 1 <= s.count <= maze@.width * maze@.height
            &&& fifo ==> fewest(maze@, s)
        },
{
    let ghost g = maze@;
    let width = maze.width();
    let height = maze.height();
    let start = match maze.entrance() {
        Some(p) => p,
        None => {
            return None;
        },
    };
    let end = maze.exit();
    assert(width * height == g.width * g.height);
    let total: u32 = width * height;
    let mut visited: Vec<bool> = filled(total as usize, false);
    let mut reverse_path: Vec<Option<Point>> = filled(total as usize, None);
    let mut queue: VecDeque<Point> = VecDeque::new();
    queue.push_back(start);
    let mut decisions: u32 = 0;
    let start_index = index_of(width, height, start);
    visited.set(start_index, true);
    let ghost mut st = fresh(start);
    proof {
        lemma_fresh(g, filled_false(total as nat), reverse_path@, fifo);
        assert(visited@ =~= filled_false(total as nat).update(cell(g, start), true));
        assert(queue@ =~= seq![start]);
    }
    loop
        invariant
            g == maze@,
            width == g.width,
            height == g.height,
            total == g.width * g.height,
            g.start == Some(start),
            g.exit == end,
            sweeping(g, st, visited@, reverse_path@, queue@, None, fifo),
            decisions == st.done.len(),
            decisions <= total,
            explored(g, fifo, decisions as nat) == model(st, queue@, decisions as nat),
        decreases total - decisions,
    {
        let ghost before = queue@;
        let taken = if fifo {
            queue.pop_front()
        } else {
            queue.pop_back()
        };
        let current = match taken {
            Some(p) => p,
            None => {
                proof {
                    assert(queue@ =~= Seq::empty());
                    if g.solvable() {
                        let w = choose|w: Seq<Point>| g.connects(w, start, g.exit->Some_0);
                        lemma_closed(g, st, visited@, reverse_path@, fifo, w);
                    }
                    lemma_at_rest(g, fifo, decisions as nat, g.width * g.height + 1);
                }
                return None;
            },
        };
        proof {
            lemma_taken(g, st, visited@, reverse_path@, before, fifo);
            assert(explored(g, fifo, decisions as nat + 1) == round(
                g,
                fifo,
                model(st, before, decisions as nat),
            ));
        }
        decisions = decisions + 1;
        if Some(current) == end {
            proof {
                assert forall|p: Point| #[trigger] st.seen.contains(p) implies linked(
                    g,
                    reverse_path@,
                    st.seen,
                    st.route,
                    st.level,
                    p,
                ) by {
                    assert(known(g, st, reverse_path@, p));
                    if Some(p) == g.start {
                        assert(st.route[p] =~= seq![p]);
                    } else {
                        let u = reverse_path@[cell(g, p)]->Some_0;
                        assert(known(g, st, reverse_path@, u));
                    }
                }
            }
            let path = trace(
                maze,
                &reverse_path,
                current,
                Ghost(st.seen),
                Ghost(st.route),
                Ghost(st.level),
            );
            let solution = Solution::new(decisions, path);
            proof {
                assert(known(g, st, reverse_path@, current));
                assert(solution.route() == st.route[current]);
                assert(points_of(path@).len() == path@.len());
                assert(points_of(path@).reverse().len() == path@.len());
                if fifo {
                    lemma_exit_taken(g, st, visited@, reverse_path@, queue@, current);
                }
                lemma_at_rest(g, fifo, decisions as nat, g.width * g.height + 1);
                assert forall|p: Point| #[trigger] st.seen.contains(p) implies tied(
                    g,
                    st.seen,
                    st.route,
                    st.from,
                    p,
                ) by {
                    assert(known(g, st, reverse_path@, p));
                    if Some(p) == g.start {
                        assert(st.route[p] =~= seq![p]);
                    }
                }
                lemma_way_back(g, st.seen, st.route, st.from, current, decisions as nat);
                assert(points_of(path@) =~= points_of(path@).reverse().reverse());
            }
            return Some(solution);
        }
        let node = match maze.node_at(current) {
            Some(node) => node,
            None => {
                proof {
                    assert(known(g, st, reverse_path@, current));
                }
                return None;
            },
        };
        let ghost held = st;
        let mut st_cell: Ghost<Sweep> = Ghost(st);
        proof {
            if fifo {
                assert forall|w: Seq<Point>|
                    (#[trigger] g.is_walk(w)) && w[0] == start && w.len()
                        <= st.level[current] implies st.done.contains(w[w.len() - 1]) by {
                    lemma_near(g, st, visited@, reverse_path@, queue@, current, w);
                }
            }
        }
        visit(maze, &node, Direction::North, &mut visited, &mut reverse_path, &mut queue, &mut st_cell, fifo);
        visit(maze, &node, Direction::East, &mut visited, &mut reverse_path, &mut queue, &mut st_cell, fifo);
        visit(maze, &node, Direction::South, &mut visited, &mut reverse_path, &mut queue, &mut st_cell, fifo);
        visit(maze, &node, Direction::West, &mut visited, &mut reverse_path, &mut queue, &mut st_cell, fifo);
        proof {
            st = st_cell@;
            assert forall|d: Direction| (#[trigger] g.toward(current, d)) is Some implies st.seen.contains(
                g.toward(current, d)->Some_0,
            ) by {
                match d {
                    Direction::North => {},
                    Direction::East => {},
                    Direction::South => {},
                    Direction::West => {},
                }
            }
            lemma_finished(g, st, visited@, reverse_path@, queue@, current, fifo);
            assert(st.done == held.done);
            st = finished(st, current);
        }
    }
}

/// A table of `n` entries, all of them `false`.
spec fn filled_false(n: nat) -> Seq<bool> {
    Seq::new(n, |i: int| false)
}

} // verus!
