//! Lowest-cost-first search with a queue of entries that are never
//! changed: what Dijkstra's search and A* share.

use crate::algorithms::dijkstra::BinNode;
use crate::algorithms::frontier::Frontier;
use crate::algorithms::sweep::{cell, filled, index_of};
use crate::algorithms::trace::{lemma_way_back, linked, points_of, tied, trace, way_back};
use crate::algorithms::{fits, Solution};
use crate::graph::{ahead, cost, grid, lemma_grid, Graph};
use crate::img::{lemma_offset_in_bounds, lemma_offset_injective};
use crate::maze::Maze;
use crate::node::{manhattan, Direction, Node, Point};
use crate::utils::get_dist;
use vstd::multiset::Multiset;
use vstd::prelude::*;

verus! {

/// The distance of a node that no way has been found to.
const UNREACHED: u64 = 0xFFFF_FFFF_FFFF_FFFF;

/// The longest step between two nodes of an image.
pub const REACH: u64 = 0xFFFF_FFFF;

/// The least that the way from `p` to the exit can cost: its Manhattan
/// distance for an informed search, nothing for an uninformed one.
pub open spec fn heuristic(g: Graph, informed: bool, p: Point) -> nat {
    if informed && g.exit is Some {
        manhattan(p, g.exit->Some_0)
    } else {
        0
    }
}

/// A search between two of its rounds: the entries that wait in the
/// queue, the distance found so far to each node that a way is found
/// to, the nodes whose distance is accepted, the node each distance was
/// found over, the number of entries accepted, and whether the exit was
/// among them.
pub struct Pursuit {
    pub queue: Multiset<BinNode>,
    pub dist: Map<Point, nat>,
    pub closed: Set<Point>,
    pub from: Map<Point, Point>,
    pub taken: nat,
    pub found: bool,
}

/// The search that has found the entrance and accepted nothing.
pub open spec fn set_out(g: Graph, informed: bool) -> Pursuit {
    Pursuit {
        queue: Multiset::empty().insert(
            BinNode {
                cost: heuristic(g, informed, g.start->Some_0) as u64,
                position: g.start->Some_0,
            },
        ),
        dist: map![g.start->Some_0 => 0nat],
        closed: Set::empty(),
        from: Map::empty(),
        taken: 0,
        found: false,
    }
}

/// No entry of the queue comes before its entry `m`.
pub open spec fn is_least(queue: Multiset<BinNode>, m: BinNode) -> bool {
    queue.contains(m) && forall|e: BinNode| #[trigger] queue.contains(e) ==> !e.spec_before(m)
}

/// The entry of the queue that no other comes before.
pub open spec fn least(queue: Multiset<BinNode>) -> BinNode {
    choose|m: BinNode| is_least(queue, m)
}

/// The entry `m` is out of date: its node is accepted already, or has
/// a shorter distance by now than the entry was queued at.
pub open spec fn stale(g: Graph, informed: bool, s: Pursuit, m: BinNode) -> bool {
    s.closed.contains(m.position) || m.cost != s.dist[m.position] + heuristic(
        g,
        informed,
        m.position,
    )
}

/// The step from the accepted node `u` in direction `d` is tried: a
/// neighbour that is not accepted, and that the step gives a shorter
/// distance than it has, gets that distance, is found over `u`, and gets
/// a new entry in the queue.
pub open spec fn attempt(g: Graph, informed: bool, s: Pursuit, u: Point, d: Direction) -> Pursuit {
    match g.toward(u, d) {
        Some(v) => {
            let new = s.dist[u] + manhattan(u, v);
            if !s.closed.contains(v) && (!s.dist.contains_key(v) || new < s.dist[v]) {
                Pursuit {
                    queue: s.queue.insert(
                        BinNode { cost: (new + heuristic(g, informed, v)) as u64, position: v },
                    ),
                    dist: s.dist.insert(v, new),
                    from: s.from.insert(v, u),
                    ..s
                }
            } else {
                s
            }
        },
        None => s,
    }
}

/// One round: the least entry leaves the queue. A stale entry is passed
/// over. Any other is accepted: if its node is the exit, the search has
/// found it; if not, the node is accepted and the steps north, east,
/// south and west of it are tried. Nothing happens once the exit is
/// found or the queue is empty.
pub open spec fn stride(g: Graph, informed: bool, s: Pursuit) -> Pursuit {
    if s.found || s.queue.len() == 0 {
        s
    } else {
        let m = least(s.queue);
        let u = m.position;
        let t = Pursuit { queue: s.queue.remove(m), ..s };
        if stale(g, informed, s, m) {
            t
        } else if Some(u) == g.exit {
            Pursuit { taken: s.taken + 1, found: true, ..t }
        } else {
            let a = Pursuit { taken: s.taken + 1, closed: s.closed.insert(u), ..t };
            attempt(
                g,
                informed,
                attempt(
                    g,
                    informed,
                    attempt(g, informed, attempt(g, informed, a, u, Direction::North), u, Direction::East),
                    u,
                    Direction::South,
                ),
                u,
                Direction::West,
            )
        }
    }
}

/// The search after `k` rounds.
pub open spec fn pursued(g: Graph, informed: bool, k: nat) -> Pursuit
    decreases k,
{
    if k == 0 {
        set_out(g, informed)
    } else {
        stride(g, informed, pursued(g, informed, (k - 1) as nat))
    }
}

/// The search at its end: after four rounds for every pixel and two
/// more, nothing happens any more.
pub open spec fn upshot(g: Graph, informed: bool) -> Pursuit {
    pursued(g, informed, 4 * (g.width * g.height) + 2)
}

/// `r` is what the search of `g` gives: a way exactly if the search
/// finds the exit, and then the way back from the exit along the nodes
/// that each distance was found over, with the number of accepted
/// entries as its decisions.
pub open spec fn pursues(g: Graph, informed: bool, r: Option<Solution>) -> bool {
    match r {
        Some(s) => {
            &&& g.start is Some
            &&& g.exit is Some
            &&& upshot(g, informed).found
            &&& s.count == upshot(g, informed).taken
            &&& s.points() == way_back(
                upshot(g, informed).from,
                g.exit->Some_0,
                upshot(g, informed).taken,
            )
        },
        None => g.start is None || g.exit is None || !upshot(g, informed).found,
    }
}

/// Once the exit is found or the queue is empty, further rounds change
/// nothing.
proof fn lemma_at_rest(g: Graph, informed: bool, k: nat, j: nat)
    requires
        pursued(g, informed, k).found || pursued(g, informed, k).queue.len() == 0,
        k <= j,
    ensures
        pursued(g, informed, j) == pursued(g, informed, k),
    decreases j - k,
{
    if k < j {
        lemma_at_rest(g, informed, k, (j - 1) as nat);
    }
}

/// A queue has one least entry at most.
proof fn lemma_least(queue: Multiset<BinNode>, m: BinNode)
    requires
        is_least(queue, m),
    ensures
        least(queue) == m,
{
    let other = least(queue);
    assert(!other.spec_before(m));
}

/// What a search knows: the nodes it has found a way to, those whose
/// way it has accepted, the node each was found over, the ways
/// themselves, and the cost at which it accepted the last one.
struct Search {
    reached: Set<Point>,
    closed: Set<Point>,
    from: Map<Point, Point>,
    route: Map<Point, Seq<Point>>,
    floor: nat,
}

/// What the search `st` with the distances `dist` and the queue `queue`
/// is after `taken` accepted entries.
spec fn model(g: Graph, st: Search, dist: Seq<u64>, queue: Multiset<BinNode>, taken: nat) -> Pursuit {
    Pursuit {
        queue,
        dist: Map::new(|p: Point| st.reached.contains(p), |p: Point| dist[cell(g, p)] as nat),
        closed: st.closed,
        from: st.from,
        taken,
        found: false,
    }
}

/// The entry under which the reached node `p` waits in the queue.
spec fn entry_of(g: Graph, informed: bool, dist: Seq<u64>, p: Point) -> BinNode {
    BinNode { cost: (dist[cell(g, p)] + heuristic(g, informed, p)) as u64, position: p }
}

/// The way to the reached node `p` costs what the table says, and ends
/// with the step from its predecessor, an accepted node.
spec fn settled(
    g: Graph,
    st: Search,
    dist: Seq<u64>,
    pred: Seq<Option<Point>>,
    p: Point,
) -> bool {
    &&& g.has(p)
    &&& g.connects(st.route[p], g.start->Some_0, p)
    &&& cost(st.route[p]) == dist[cell(g, p)]
    &&& dist[cell(g, p)] <= st.closed.len() * REACH
    &&& st.route[p].len() <= st.closed.len() + 1
    &&& if Some(p) == g.start {
        st.route[p] == seq![p] && !st.from.contains_key(p)
    } else {
        &&& pred[cell(g, p)] matches Some(u)
        &&& st.from.contains_key(p)
        &&& st.from[p] == u
        &&& st.closed.contains(u)
        &&& st.route[p] == st.route[u].push(p)
        &&& dist[cell(g, u)] < dist[cell(g, p)]
    }
}

/// The step from `u` to `v` has been tried: `v` is reached at no more
/// than the cost of the way over `u`.
spec fn relaxed(g: Graph, st: Search, dist: Seq<u64>, u: Point, v: Point) -> bool {
    st.reached.contains(v) && dist[cell(g, v)] <= dist[cell(g, u)] + manhattan(u, v)
}

/// What holds of a search between two steps; `cur` is the accepted node
/// whose steps are being tried, if any.
spec fn searching(
    g: Graph,
    st: Search,
    dist: Seq<u64>,
    fin: Seq<bool>,
    pred: Seq<Option<Point>>,
    queue: Multiset<BinNode>,
    cur: Option<Point>,
    informed: bool,
) -> bool {
    &&& g.wf()
    &&& fits(g)
    &&& g.start is Some
    &&& g.exit is Some
    &&& dist.len() == g.width * g.height
    &&& fin.len() == g.width * g.height
    &&& pred.len() == g.width * g.height
    &&& st.reached.contains(g.start->Some_0)
    &&& forall|p: Point| #[trigger]
        g.has(p) ==> (dist[cell(g, p)] < UNREACHED <==> st.reached.contains(p)) && (fin[cell(g, p)]
            <==> st.closed.contains(p))
    &&& forall|p: Point| #[trigger] st.reached.contains(p) ==> settled(g, st, dist, pred, p)
    &&& forall|p: Point| #[trigger]
        st.closed.contains(p) ==> st.reached.contains(p) && Some(p) != g.exit && dist[cell(g, p)]
            + heuristic(g, informed, p) <= st.floor
    &&& forall|p: Point, w: Seq<Point>|
        st.closed.contains(p) && #[trigger] g.connects(w, g.start->Some_0, p) ==> dist[cell(g, p)]
            <= cost(w)
    &&& forall|p: Point, d: Direction|
        st.closed.contains(p) && cur != Some(p) && (#[trigger] g.toward(p, d)) is Some ==> relaxed(
            g,
            st,
            dist,
            p,
            g.toward(p, d)->Some_0,
        )
    &&& forall|p: Point|
        #![trigger st.reached.contains(p)]
        st.reached.contains(p) && !st.closed.contains(p) ==> queue.contains(
            entry_of(g, informed, dist, p),
        )
    &&& forall|e: BinNode| #[trigger]
        queue.contains(e) ==> st.floor <= e.cost && st.reached.contains(e.position) && dist[cell(
            g,
            e.position,
        )] + heuristic(g, informed, e.position) <= e.cost
    &&& st.closed.finite()
    &&& st.closed.len() <= g.width * g.height
    &&& cur matches Some(c) ==> st.closed.contains(c) && dist[cell(g, c)] + heuristic(
        g,
        informed,
        c,
    ) == st.floor && dist[cell(g, c)] + REACH <= st.closed.len() * REACH && st.route[c].len()
        <= st.closed.len()
}

/// The direct way is no longer than the way over a third position.
pub proof fn lemma_triangle(a: Point, b: Point, c: Point)
    ensures
        manhattan(a, c) <= manhattan(a, b) + manhattan(b, c),
        manhattan(a, b) == manhattan(b, a),
        manhattan(a, b) <= 2 * REACH,
        a != b ==> manhattan(a, b) >= 1,
        manhattan(a, a) == 0,
{
}

/// A step along an edge of a well-formed graph is at least one pixel
/// long and no longer than an image is wide or high.
proof fn lemma_edge_length(g: Graph, u: Point, d: Direction, v: Point)
    requires
        g.wf(),
        g.has(u),
        g.toward(u, d) == Some(v),
    ensures
        1 <= manhattan(u, v) <= REACH,
        g.has(v),
        g.edge(u, v),
{
}

/// Where every accepted node has had its steps tried, a walk from the
/// entrance ends in an accepted node, at no less than that node's cost,
/// or some entry of the queue costs no more than the walk and the rest
/// of the way together.
proof fn lemma_bound(
    g: Graph,
    st: Search,
    dist: Seq<u64>,
    fin: Seq<bool>,
    pred: Seq<Option<Point>>,
    queue: Multiset<BinNode>,
    informed: bool,
    w: Seq<Point>,
    z: Point,
)
    requires
        searching(g, st, dist, fin, pred, queue, None, informed),
        g.connects(w, g.start->Some_0, z),
    ensures
        (st.closed.contains(z) && dist[cell(g, z)] <= cost(w)) || (exists|e: BinNode|
            queue.contains(e) && e.cost <= cost(w) + heuristic(g, informed, z)),
    decreases w.len(),
{
    let start = g.start->Some_0;
    if w.len() == 1 {
        assert(z == start);
        assert(settled(g, st, dist, pred, start));
        assert(cost(st.route[start]) == 0);
        if !st.closed.contains(z) {
            let e = entry_of(g, informed, dist, z);
            assert(queue.contains(e));
        }
    } else {
        g.lemma_walk_pop(w, start, z);
        let v = w.drop_last();
        let y = w[w.len() - 2];
        lemma_bound(g, st, dist, fin, pred, queue, informed, v, y);
        if g.exit is Some {
            lemma_triangle(y, z, g.exit->Some_0);
        }
        if st.closed.contains(y) {
            let d = choose|d: Direction| g.toward(y, d) == Some(z);
            assert(g.toward(y, d) is Some);
            assert(relaxed(g, st, dist, y, z));
            if !st.closed.contains(z) {
                let e = entry_of(g, informed, dist, z);
                assert(settled(g, st, dist, pred, z));
                lemma_triangle(z, z, z);
                assert(queue.contains(e));
                assert(e.cost <= cost(w) + heuristic(g, informed, z));
            }
        } else {
            let e = choose|e: BinNode|
                queue.contains(e) && e.cost <= cost(v) + heuristic(g, informed, y);
            assert(queue.contains(e) && e.cost <= cost(w) + heuristic(g, informed, z));
        }
    }
}

/// The search after it has accepted the way to `u` at the cost `key`.
spec fn accepted(st: Search, u: Point, key: nat) -> Search {
    Search { closed: st.closed.insert(u), floor: key, ..st }
}

/// The sum of a distance and a heuristic fits the cost of an entry.
proof fn lemma_key_fits(
    g: Graph,
    st: Search,
    dist: Seq<u64>,
    pred: Seq<Option<Point>>,
    informed: bool,
    p: Point,
)
    requires
        g.wf(),
        fits(g),
        st.closed.len() <= g.width * g.height,
        settled(g, st, dist, pred, p),
    ensures
        dist[cell(g, p)] + heuristic(g, informed, p) <= UNREACHED,
        dist[cell(g, p)] < UNREACHED,
        entry_of(g, informed, dist, p).cost == dist[cell(g, p)] + heuristic(g, informed, p),
{
    if g.exit is Some {
        lemma_triangle(p, g.exit->Some_0, p);
    }
    assert(st.closed.len() * REACH <= REACH * REACH) by (nonlinear_arith)
        requires
            st.closed.len() <= REACH,
    ;
}

/// Two nodes of a graph with the same place in the tables are the same.
proof fn lemma_cells(g: Graph, p: Point, q: Point)
    requires
        g.wf(),
        g.has(p),
        g.has(q),
    ensures
        0 <= cell(g, p) < g.width * g.height,
        cell(g, p) == cell(g, q) ==> p == q,
{
    lemma_offset_in_bounds(p.x as int, p.y as int, g.width as int, g.height as int);
    lemma_offset_in_bounds(q.x as int, q.y as int, g.width as int, g.height as int);
    if cell(g, p) == cell(g, q) {
        lemma_offset_injective(p.x as int, p.y as int, q.x as int, q.y as int, g.width as int);
    }
}

proof fn lemma_accept(
    g: Graph,
    st: Search,
    dist: Seq<u64>,
    fin: Seq<bool>,
    pred: Seq<Option<Point>>,
    queue: Multiset<BinNode>,
    informed: bool,
    least: BinNode,
)
    requires
        searching(g, st, dist, fin, pred, queue, None, informed),
        queue.contains(least),
        forall|e: BinNode| #[trigger] queue.contains(e) ==> !e.spec_before(least),
        !st.closed.contains(least.position),
        least.cost == dist[cell(g, least.position)] + heuristic(g, informed, least.position),
        Some(least.position) != g.exit,
    ensures
        searching(
            g,
            accepted(st, least.position, least.cost as nat),
            dist,
            fin.update(cell(g, least.position), true),
            pred,
            queue.remove(least),
            Some(least.position),
            informed,
        ),
        st.closed.insert(least.position).len() == st.closed.len() + 1,
{
    let start = g.start->Some_0;
    let u = least.position;
    let st2 = accepted(st, u, least.cost as nat);
    let fin2 = fin.update(cell(g, u), true);
    let queue2 = queue.remove(least);
    assert(st.reached.contains(u));
    assert(settled(g, st, dist, pred, u));
    lemma_cells(g, u, u);
    lemma_grid(g.width, g.height);
    assert(st2.closed.subset_of(grid(g.width, g.height))) by {
        assert forall|p: Point| st2.closed.contains(p) implies grid(g.width, g.height).contains(
            p,
        ) by {
            assert(st.reached.contains(p));
            assert(settled(g, st, dist, pred, p));
        }
    }
    vstd::set_lib::lemma_len_subset(st2.closed, grid(g.width, g.height));
    assert forall|p: Point| #[trigger] g.has(p) implies (dist[cell(g, p)] < UNREACHED
        <==> st2.reached.contains(p)) && (fin2[cell(g, p)] <==> st2.closed.contains(p)) by {
        lemma_cells(g, p, u);
        lemma_cells(g, u, p);
    }
    assert forall|p: Point| #[trigger] st2.reached.contains(p) implies settled(
        g,
        st2,
        dist,
        pred,
        p,
    ) by {
        assert(settled(g, st, dist, pred, p));
    }
    assert forall|p: Point, w: Seq<Point>|
        st2.closed.contains(p) && #[trigger] g.connects(w, start, p) implies dist[cell(g, p)]
        <= cost(w) by {
        if p == u {
            lemma_bound(g, st, dist, fin, pred, queue, informed, w, u);
            let e = choose|e: BinNode|
                queue.contains(e) && e.cost <= cost(w) + heuristic(g, informed, u);
            assert(!e.spec_before(least));
        }
    }
    assert forall|p: Point|
        #![trigger st2.reached.contains(p)]
        st2.reached.contains(p) && !st2.closed.contains(p) implies queue2.contains(
            entry_of(g, informed, dist, p),
        ) by {
        assert(queue.contains(entry_of(g, informed, dist, p)));
    }
    assert forall|e: BinNode| #[trigger] queue2.contains(e) implies st2.floor <= e.cost
        && st2.reached.contains(e.position) && dist[cell(g, e.position)] + heuristic(
        g,
        informed,
        e.position,
    ) <= e.cost by {
        assert(queue.contains(e));
        assert(!e.spec_before(least));
    }
    assert(st.floor <= least.cost);
}

proof fn lemma_stale(
    g: Graph,
    st: Search,
    dist: Seq<u64>,
    fin: Seq<bool>,
    pred: Seq<Option<Point>>,
    queue: Multiset<BinNode>,
    informed: bool,
    least: BinNode,
)
    requires
        searching(g, st, dist, fin, pred, queue, None, informed),
        queue.contains(least),
        st.closed.contains(least.position) || least.cost != dist[cell(g, least.position)]
            + heuristic(g, informed, least.position),
    ensures
        searching(g, st, dist, fin, pred, queue.remove(least), None, informed),
{
    let queue2 = queue.remove(least);
    assert forall|p: Point|
        #![trigger st.reached.contains(p)]
        st.reached.contains(p) && !st.closed.contains(p) implies queue2.contains(
            entry_of(g, informed, dist, p),
        ) by {
        assert(queue.contains(entry_of(g, informed, dist, p)));
        assert(settled(g, st, dist, pred, p));
        lemma_key_fits(g, st, dist, pred, informed, p);
    }
    assert forall|e: BinNode| #[trigger] queue2.contains(e) implies st.floor <= e.cost
        && st.reached.contains(e.position) && dist[cell(g, e.position)] + heuristic(
        g,
        informed,
        e.position,
    ) <= e.cost by {
        assert(queue.contains(e));
    }
}

/// The search after a shorter way to `v` is found over `cur`.
spec fn improved(st: Search, cur: Point, v: Point) -> Search {
    Search {
        reached: st.reached.insert(v),
        from: st.from.insert(v, cur),
        route: st.route.insert(v, st.route[cur].push(v)),
        ..st
    }
}

proof fn lemma_improve(
    g: Graph,
    st: Search,
    dist: Seq<u64>,
    fin: Seq<bool>,
    pred: Seq<Option<Point>>,
    queue: Multiset<BinNode>,
    informed: bool,
    cur: Point,
    d: Direction,
    v: Point,
    new: u64,
    key: u64,
)
    requires
        searching(g, st, dist, fin, pred, queue, Some(cur), informed),
        g.toward(cur, d) == Some(v),
        !st.closed.contains(v),
        new == dist[cell(g, cur)] + manhattan(cur, v),
        new < dist[cell(g, v)],
        key == new + heuristic(g, informed, v),
    ensures
        searching(
            g,
            improved(st, cur, v),
            dist.update(cell(g, v), new),
            fin,
            pred.update(cell(g, v), Some(cur)),
            queue.insert(BinNode { cost: key, position: v }),
            Some(cur),
            informed,
        ),
{
    let start = g.start->Some_0;
    let st2 = improved(st, cur, v);
    let dist2 = dist.update(cell(g, v), new);
    let pred2 = pred.update(cell(g, v), Some(cur));
    let pushed = BinNode { cost: key, position: v };
    let queue2 = queue.insert(pushed);
    lemma_edge_length(g, cur, d, v);
    g.lemma_walk_push(st.route[cur], start, cur, v);
    lemma_cells(g, v, cur);
    lemma_cells(g, cur, v);
    if g.exit is Some {
        lemma_triangle(cur, v, g.exit->Some_0);
    }
    assert(v != start) by {
        if v == start {
            assert(settled(g, st, dist, pred, start));
            assert(cost(seq![start]) == 0);
        }
    }
    assert forall|p: Point| #[trigger] g.has(p) implies (dist2[cell(g, p)] < UNREACHED
        <==> st2.reached.contains(p)) && (fin[cell(g, p)] <==> st2.closed.contains(p)) by {
        lemma_cells(g, p, v);
    }
    assert forall|p: Point| #[trigger] st2.reached.contains(p) implies settled(
        g,
        st2,
        dist2,
        pred2,
        p,
    ) by {
        if p != v {
            assert(settled(g, st, dist, pred, p));
            lemma_cells(g, p, v);
            if Some(p) != g.start {
                let u = pred[cell(g, p)]->Some_0;
                lemma_cells(g, u, v);
            }
        } else {
            assert(cost(st2.route[v]) == dist2[cell(g, v)]);
            assert(pred2[cell(g, v)] == Some(cur));
            assert(dist2[cell(g, cur)] < dist2[cell(g, v)]);
        }
    }
    assert forall|p: Point| #[trigger] st2.closed.contains(p) implies st2.reached.contains(p)
        && Some(p) != g.exit && dist2[cell(g, p)] + heuristic(g, informed, p) <= st2.floor by {
        assert(st.reached.contains(p));
        lemma_cells(g, p, v);
    }
    assert forall|p: Point, w: Seq<Point>|
        st2.closed.contains(p) && #[trigger] g.connects(w, start, p) implies dist2[cell(g, p)]
        <= cost(w) by {
        lemma_cells(g, p, v);
    }
    assert forall|p: Point, e: Direction|
        st2.closed.contains(p) && Some(cur) != Some(p) && (#[trigger] g.toward(p, e)) is Some implies relaxed(
        g,
        st2,
        dist2,
        p,
        g.toward(p, e)->Some_0,
    ) by {
        let q = g.toward(p, e)->Some_0;
        assert(st.reached.contains(p));
        lemma_cells(g, p, v);
        lemma_cells(g, q, v);
    }
    assert forall|p: Point|
        #![trigger st2.reached.contains(p)]
        st2.reached.contains(p) && !st2.closed.contains(p) implies queue2.contains(
            entry_of(g, informed, dist2, p),
        ) by {
        if p != v {
            lemma_cells(g, p, v);
            assert(queue.contains(entry_of(g, informed, dist, p)));
        } else {
            assert(entry_of(g, informed, dist2, v) == pushed);
        }
    }
    assert forall|e: BinNode| #[trigger] queue2.contains(e) implies st2.floor <= e.cost
        && st2.reached.contains(e.position) && dist2[cell(g, e.position)] + heuristic(
        g,
        informed,
        e.position,
    ) <= e.cost by {
        if e != pushed {
            assert(queue.contains(e));
            assert(settled(g, st, dist, pred, e.position));
            lemma_cells(g, e.position, v);
        }
    }
}

/// A shorter way found over `cur` changes the search as the model of
/// a tried step says.
proof fn lemma_improve_model(
    g: Graph,
    st: Search,
    dist: Seq<u64>,
    fin: Seq<bool>,
    pred: Seq<Option<Point>>,
    queue: Multiset<BinNode>,
    informed: bool,
    cur: Point,
    d: Direction,
    v: Point,
    new: u64,
    key: u64,
    n: nat,
)
    requires
        searching(g, st, dist, fin, pred, queue, Some(cur), informed),
        g.toward(cur, d) == Some(v),
        !st.closed.contains(v),
        new == dist[cell(g, cur)] + manhattan(cur, v),
        new < dist[cell(g, v)],
        key == new + heuristic(g, informed, v),
    ensures
        model(
            g,
            improved(st, cur, v),
            dist.update(cell(g, v), new),
            queue.insert(BinNode { cost: key, position: v }),
            n,
        ) == attempt(g, informed, model(g, st, dist, queue, n), cur, d),
{
    let before = model(g, st, dist, queue, n);
    let after = model(
        g,
        improved(st, cur, v),
        dist.update(cell(g, v), new),
        queue.insert(BinNode { cost: key, position: v }),
        n,
    );
    let tried = attempt(g, informed, before, cur, d);
    lemma_edge_length(g, cur, d, v);
    assert(st.reached.contains(cur));
    lemma_cells(g, v, cur);
    lemma_cells(g, cur, v);
    assert(before.dist[cur] == dist[cell(g, cur)]);
    assert(before.dist.contains_key(v) ==> before.dist[v] == dist[cell(g, v)]);
    assert(after.dist =~= tried.dist) by {
        assert forall|p: Point| after.dist.contains_key(p) implies #[trigger] after.dist[p]
            == tried.dist[p] by {
            if p != v {
                assert(settled(g, st, dist, pred, p));
                lemma_cells(g, p, v);
            }
        }
    }
    assert(after.queue == tried.queue);
    assert(after.from == tried.from);
}

/// A step that gives its neighbour no shorter way leaves the search as
/// the model of a tried step says: unchanged.
proof fn lemma_keep_model(
    g: Graph,
    st: Search,
    dist: Seq<u64>,
    fin: Seq<bool>,
    pred: Seq<Option<Point>>,
    queue: Multiset<BinNode>,
    informed: bool,
    cur: Point,
    d: Direction,
    n: nat,
)
    requires
        searching(g, st, dist, fin, pred, queue, Some(cur), informed),
        g.toward(cur, d) matches Some(v) ==> st.closed.contains(v) || (st.reached.contains(v)
            && dist[cell(g, v)] <= dist[cell(g, cur)] + manhattan(cur, v)),
    ensures
        model(g, st, dist, queue, n) == attempt(g, informed, model(g, st, dist, queue, n), cur, d),
{
    assert(st.reached.contains(cur));
}

/// The nodes that a walk from the entrance reaches at a cost which,
/// with the heuristic of the node, is no more than `bound`.
pub open spec fn cheap(g: Graph, informed: bool, bound: int) -> Set<Point> {
    Set::new(
        |z: Point|
            g.has(z) && exists|w: Seq<Point>| #[trigger]
                g.connects(w, g.start->Some_0, z) && cost(w) + heuristic(g, informed, z) <= bound,
    )
}

/// `s` is a way through `g` that costs no more pixels than any walk from
/// the entrance to the exit, and its decisions are at least the exit and
/// the nodes that are cheaper than the way, and at most the nodes that
/// are no dearer.
pub open spec fn cheapest(g: Graph, informed: bool, s: Solution) -> bool {
    &&& s.solves(g)
    &&& forall|w: Seq<Point>| #[trigger]
        g.connects(w, g.start->Some_0, g.exit->Some_0) ==> s.spec_cost() <= cost(w)
    &&& cheap(g, informed, s.spec_cost() - 1).len() + 1 <= s.count
    &&& s.count <= cheap(g, informed, s.spec_cost() as int).len()
}

/// Dijkstra's search and A* find ways of the same cost, and A* takes no
/// more decisions than Dijkstra's search.
pub proof fn lemma_a_star_agrees(g: Graph, d: Solution, a: Solution)
    requires
        g.wf(),
        cheapest(g, false, d),
        cheapest(g, true, a),
    ensures
        d.spec_cost() == a.spec_cost(),
        a.count <= d.count,
{
    let start = g.start->Some_0;
    let exit = g.exit->Some_0;
    assert(g.connects(d.route(), start, exit));
    assert(g.connects(a.route(), start, exit));
    let total = d.spec_cost() as int;
    let informed = cheap(g, true, total);
    let blind = cheap(g, false, total - 1);
    lemma_cheap_finite(g, false, total - 1);
    lemma_cheap_finite(g, true, total);
    assert(informed.subset_of(blind.insert(exit))) by {
        assert forall|z: Point| informed.contains(z) implies blind.insert(exit).contains(z) by {
            lemma_triangle(z, exit, z);
            if z != exit {
                let w = choose|w: Seq<Point>| #[trigger]
                    g.connects(w, start, z) && cost(w) + heuristic(g, true, z) <= total;
                assert(g.connects(w, start, z) && cost(w) + heuristic(g, false, z) <= total - 1);
            }
        }
    }
    vstd::set_lib::lemma_len_subset(informed, blind.insert(exit));
}

/// The nodes of a well-formed graph are finitely many.
pub proof fn lemma_cheap_finite(g: Graph, informed: bool, bound: int)
    requires
        g.wf(),
    ensures
        cheap(g, informed, bound).finite(),
        cheap(g, informed, bound).len() <= g.width * g.height,
{
    lemma_grid(g.width, g.height);
    assert(cheap(g, informed, bound).subset_of(grid(g.width, g.height)));
    vstd::set_lib::lemma_len_subset(cheap(g, informed, bound), grid(g.width, g.height));
}

/// When the entry of the exit leaves the queue, the way found to the
/// exit is a cheapest one, every node that is cheaper than it is
/// accepted, and every accepted node is no dearer.
proof fn lemma_arrive(
    g: Graph,
    st: Search,
    dist: Seq<u64>,
    fin: Seq<bool>,
    pred: Seq<Option<Point>>,
    queue: Multiset<BinNode>,
    informed: bool,
    least: BinNode,
)
    requires
        searching(g, st, dist, fin, pred, queue, None, informed),
        queue.contains(least),
        forall|e: BinNode| #[trigger] queue.contains(e) ==> !e.spec_before(least),
        Some(least.position) == g.exit,
        least.cost == dist[cell(g, least.position)] + heuristic(g, informed, least.position),
    ensures
        forall|w: Seq<Point>| #[trigger]
            g.connects(w, g.start->Some_0, least.position) ==> dist[cell(g, least.position)]
                <= cost(w),
        cheap(g, informed, dist[cell(g, least.position)] - 1).len() <= st.closed.len(),
        st.closed.len() + 1 <= cheap(g, informed, dist[cell(g, least.position)] as int).len(),
        least.cost == dist[cell(g, least.position)],
{
    let start = g.start->Some_0;
    let exit = least.position;
    let total = dist[cell(g, exit)] as int;
    lemma_triangle(exit, exit, exit);
    assert(st.reached.contains(exit));
    assert(settled(g, st, dist, pred, exit));
    assert forall|w: Seq<Point>| #[trigger] g.connects(w, start, exit) implies total <= cost(w) by {
        lemma_bound(g, st, dist, fin, pred, queue, informed, w, exit);
        let e = choose|e: BinNode|
            queue.contains(e) && e.cost <= cost(w) + heuristic(g, informed, exit);
        assert(!e.spec_before(least));
    }
    let below = cheap(g, informed, total - 1);
    let within = cheap(g, informed, total);
    lemma_cheap_finite(g, informed, total - 1);
    lemma_cheap_finite(g, informed, total);
    assert(below.subset_of(st.closed)) by {
        assert forall|z: Point| below.contains(z) implies st.closed.contains(z) by {
            let w = choose|w: Seq<Point>| #[trigger]
                g.connects(w, start, z) && cost(w) + heuristic(g, informed, z) <= total - 1;
            lemma_bound(g, st, dist, fin, pred, queue, informed, w, z);
            if !st.closed.contains(z) {
                let e = choose|e: BinNode|
                    queue.contains(e) && e.cost <= cost(w) + heuristic(g, informed, z);
                assert(!e.spec_before(least));
            }
        }
    }
    vstd::set_lib::lemma_len_subset(below, st.closed);
    let all = st.closed.insert(exit);
    assert(all.subset_of(within)) by {
        assert forall|z: Point| all.contains(z) implies within.contains(z) by {
            assert(st.reached.contains(z));
            assert(settled(g, st, dist, pred, z));
            assert(g.connects(st.route[z], start, z));
            assert(st.floor <= least.cost);
        }
    }
    vstd::set_lib::lemma_len_subset(all, within);
}

/// Once every step from `cur` has been tried, the search stands
/// between two steps again.
proof fn lemma_release(
    g: Graph,
    st: Search,
    dist: Seq<u64>,
    fin: Seq<bool>,
    pred: Seq<Option<Point>>,
    queue: Multiset<BinNode>,
    informed: bool,
    cur: Point,
)
    requires
        searching(g, st, dist, fin, pred, queue, Some(cur), informed),
        forall|d: Direction|
            (#[trigger] g.toward(cur, d)) is Some ==> relaxed(
                g,
                st,
                dist,
                cur,
                g.toward(cur, d)->Some_0,
            ),
    ensures
        searching(g, st, dist, fin, pred, queue, None, informed),
{
}

/// The Manhattan distance of two positions.
fn span(a: Point, b: Point) -> (d: u64)
    ensures
        d == manhattan(a, b),
{
    let dx: u64 = if a.x <= b.x {
        (b.x - a.x) as u64
    } else {
        (a.x - b.x) as u64
    };
    let dy: u64 = if a.y <= b.y {
        (b.y - a.y) as u64
    } else {
        (a.y - b.y) as u64
    };
    dx + dy
}

/// The heuristic of `p` in a maze whose exit is `exit`.
fn estimate(informed: bool, p: Point, exit: Point) -> (h: u64)
    ensures
        h == (if informed {
            manhattan(p, exit)
        } else {
            0
        }),
{
    if informed {
        span(p, exit)
    } else {
        0
    }
}

/// Tries the step from the accepted node `node` in direction `d`: where
/// it gives its neighbour a shorter way than the neighbour has, the
/// neighbour gets the new distance and predecessor and a new entry in
/// the queue; entries already there stay as they are.
fn relax(
    maze: &Maze,
    node: &Node,
    d: Direction,
    exit: Point,
    distances: &mut Vec<u64>,
    finalized: &Vec<bool>,
    reverse_path: &mut Vec<Option<Point>>,
    unvisited: &mut Frontier,
    st: &mut Ghost<Search>,
    informed: bool,
)
    requires
        searching(
            maze@,
            old(st)@,
            old(distances)@,
            finalized@,
            old(reverse_path)@,
            old(unvisited)@,
            Some(node.point),
            informed,
        ),
        *node == maze@.nodes[node.point],
        maze@.exit == Some(exit),
    ensures
        searching(
            maze@,
            final(st)@,
            final(distances)@,
            finalized@,
            final(reverse_path)@,
            final(unvisited)@,
            Some(node.point),
            informed,
        ),
        final(st)@.closed == old(st)@.closed,
        final(st)@.floor == old(st)@.floor,
        final(distances)@[cell(maze@, node.point)] == old(distances)@[cell(maze@, node.point)],
        forall|p: Point| #[trigger]
            old(st)@.reached.contains(p) ==> final(st)@.reached.contains(p)
                && final(distances)@[cell(maze@, p)] <= old(distances)@[cell(maze@, p)],
        maze@.toward(node.point, d) is Some ==> relaxed(
            maze@,
            final(st)@,
            final(distances)@,
            node.point,
            maze@.toward(node.point, d)->Some_0,
        ),
        final(unvisited)@.len() <= old(unvisited)@.len() + 1,
        forall|n: nat| #[trigger]
            model(maze@, final(st)@, final(distances)@, final(unvisited)@, n) == attempt(
                maze@,
                informed,
                model(maze@, old(st)@, old(distances)@, old(unvisited)@, n),
                node.point,
                d,
            ),
{
    let ghost g = maze@;
    let ghost start = g.start->Some_0;
    let cur = node.point;
    let next = match node.children.get(d) {
        Some(p) => p,
        None => {
            proof {
                assert forall|n: nat| #[trigger]
                    model(g, st@, distances@, unvisited@, n) == attempt(
                        g,
                        informed,
                        model(g, st@, distances@, unvisited@, n),
                        cur,
                        d,
                    ) by {
                    lemma_keep_model(
                        g,
                        st@,
                        distances@,
                        finalized@,
                        reverse_path@,
                        unvisited@,
                        informed,
                        cur,
                        d,
                        n,
                    );
                }
            }
            return ;
        },
    };
    proof {
        lemma_edge_length(g, cur, d, next);
        lemma_cells(g, cur, next);
        lemma_cells(g, next, cur);
        assert(st@.closed.len() * REACH <= REACH * REACH) by (nonlinear_arith)
            requires
                st@.closed.len() <= REACH,
        ;
    }
    let width = maze.width();
    let height = maze.height();
    let n_index = index_of(width, height, next);
    let c_index = index_of(width, height, cur);
    if !finalized[n_index] {
        let abs_distance = get_dist(&cur, &next);
        let new_distance: u64 = distances[c_index] + abs_distance as u64;
        if new_distance < distances[n_index] {
            proof {
                lemma_triangle(next, exit, next);
            }
            let key: u64 = new_distance + estimate(informed, next, exit);
            proof {
                lemma_improve(
                    g,
                    st@,
                    distances@,
                    finalized@,
                    reverse_path@,
                    unvisited@,
                    informed,
                    cur,
                    d,
                    next,
                    new_distance,
                    key,
                );
                assert forall|p: Point| #[trigger] st@.reached.contains(p) implies distances@.update(
                    n_index as int,
                    new_distance,
                )[cell(g, p)] <= distances@[cell(g, p)] by {
                    lemma_cells(g, p, next);
                }
                assert forall|n: nat| #[trigger]
                    model(
                        g,
                        improved(st@, cur, next),
                        distances@.update(n_index as int, new_distance),
                        unvisited@.insert(BinNode { cost: key, position: next }),
                        n,
                    ) == attempt(
                        g,
                        informed,
                        model(g, st@, distances@, unvisited@, n),
                        cur,
                        d,
                    ) by {
                    lemma_improve_model(
                        g,
                        st@,
                        distances@,
                        finalized@,
                        reverse_path@,
                        unvisited@,
                        informed,
                        cur,
                        d,
                        next,
                        new_distance,
                        key,
                        n,
                    );
                }
                st@ = improved(st@, cur, next);
            }
            distances.set(n_index, new_distance);
            reverse_path.set(n_index, Some(cur));
            unvisited.push(BinNode::new(key, next));
            return ;
        }
    } else {
        proof {
            g.lemma_walk_push(st@.route[cur], start, cur, next);
        }
    }
    proof {
        assert forall|n: nat| #[trigger]
            model(g, st@, distances@, unvisited@, n) == attempt(
                g,
                informed,
                model(g, st@, distances@, unvisited@, n),
                cur,
                d,
            ) by {
            lemma_keep_model(
                g,
                st@,
                distances@,
                finalized@,
                reverse_path@,
                unvisited@,
                informed,
                cur,
                d,
                n,
            );
        }
    }
}

/// What a round does to a search whose least entry is `entry`.
proof fn lemma_stride(
    g: Graph,
    st: Search,
    dist: Seq<u64>,
    fin: Seq<bool>,
    pred: Seq<Option<Point>>,
    queue: Multiset<BinNode>,
    informed: bool,
    entry: BinNode,
    n: nat,
)
    requires
        searching(g, st, dist, fin, pred, queue, None, informed),
        is_least(queue, entry),
    ensures
        stride(g, informed, model(g, st, dist, queue, n)) == (if st.closed.contains(entry.position)
            || entry.cost != dist[cell(g, entry.position)] + heuristic(
            g,
            informed,
            entry.position,
        ) {
            model(g, st, dist, queue.remove(entry), n)
        } else if Some(entry.position) == g.exit {
            Pursuit { taken: n + 1, found: true, ..model(g, st, dist, queue.remove(entry), n) }
        } else {
            let u = entry.position;
            let a = model(g, accepted(st, u, entry.cost as nat), dist, queue.remove(entry), n + 1);
            attempt(
                g,
                informed,
                attempt(
                    g,
                    informed,
                    attempt(g, informed, attempt(g, informed, a, u, Direction::North), u, Direction::East),
                    u,
                    Direction::South,
                ),
                u,
                Direction::West,
            )
        }),
{
    lemma_least(queue, entry);
    let s = model(g, st, dist, queue, n);
    assert(queue.len() > 0) by {
        broadcast use vstd::multiset::group_multiset_properties;

    }
    let u = entry.position;
    let a = model(g, accepted(st, u, entry.cost as nat), dist, queue.remove(entry), n + 1);
    assert(a == Pursuit {
        taken: s.taken + 1,
        closed: s.closed.insert(u),
        ..Pursuit { queue: s.queue.remove(entry), ..s }
    });
}

/// The search that has found the entrance and nothing else.
spec fn begun(start: Point) -> Search {
    Search {
        reached: set![start],
        closed: Set::empty(),
        from: Map::empty(),
        route: map![start => seq![start]],
        floor: 0,
    }
}

proof fn lemma_begun(
    g: Graph,
    dist: Seq<u64>,
    fin: Seq<bool>,
    pred: Seq<Option<Point>>,
    informed: bool,
    key: u64,
)
    requires
        g.wf(),
        fits(g),
        g.start is Some,
        g.exit is Some,
        dist.len() == g.width * g.height,
        fin.len() == g.width * g.height,
        pred.len() == g.width * g.height,
        forall|i: int| 0 <= i < dist.len() ==> dist[i] == UNREACHED,
        forall|i: int| 0 <= i < fin.len() ==> !fin[i],
        key == heuristic(g, informed, g.start->Some_0),
    ensures
        searching(
            g,
            begun(g.start->Some_0),
            dist.update(cell(g, g.start->Some_0), 0),
            fin,
            pred,
            Multiset::empty().insert(BinNode { cost: key, position: g.start->Some_0 }),
            None,
            informed,
        ),
{
    let start = g.start->Some_0;
    let st = begun(start);
    let dist2 = dist.update(cell(g, start), 0);
    let queue = Multiset::empty().insert(BinNode { cost: key, position: start });
    lemma_cells(g, start, start);
    assert(g.is_walk(seq![start]));
    assert(cost(seq![start]) == 0);
    assert forall|p: Point| #[trigger] g.has(p) implies (dist2[cell(g, p)] < UNREACHED
        <==> st.reached.contains(p)) && (fin[cell(g, p)] <==> st.closed.contains(p)) by {
        lemma_cells(g, p, start);
    }
}

/// Searches the maze from the entrance, always going on from the entry
/// of the queue that costs least. An entry that is dearer than the
/// distance its node has by then, or whose node is accepted already, is
/// stale and passed over. With `informed` the cost of an entry is the
/// distance of its node and the node's Manhattan distance to the exit;
/// without, the distance alone.
pub(crate) fn seek(maze: &Maze, informed: bool) -> (r: Option<Solution>)
    requires
        fits(maze@),
    ensures
        maze@.wf(),
        pursues(maze@, informed, r),
        r is Some <==> maze@.solvable(),
        r matches Some(s) ==> cheapest(maze@, informed, s),
{
    let ghost g = maze@;
    let width = maze.width();
    let height = maze.height();
    let start = match maze.entrance() {
        Some(p) => p,
        None => {
            return None;
        },
    };
    let exit = match maze.exit() {
        Some(p) => p,
        None => {
            return None;
        },
    };
    assert(width * height == g.width * g.height);
    let total: u32 = width * height;
    let mut finalized: Vec<bool> = filled(total as usize, false);
    let mut reverse_path: Vec<Option<Point>> = filled(total as usize, None);
    let mut distances: Vec<u64> = filled(total as usize, UNREACHED);
    let ghost blank = distances@;
    let start_index = index_of(width, height, start);
    distances.set(start_index, 0);
    let mut unvisited = Frontier::new();
    let first = estimate(informed, start, exit);
    unvisited.push(BinNode::new(first, start));
    let mut decisions: u32 = 0;
    let ghost mut st = begun(start);
    let ghost mut rounds: nat = 0;
    proof {
        lemma_begun(g, blank, finalized@, reverse_path@, informed, first);
        lemma_cells(g, start, start);
        let m = model(g, st, distances@, unvisited@, 0);
        assert(m.dist =~= set_out(g, informed).dist);
        assert(m == set_out(g, informed));
        assert(unvisited@.len() == 1) by {
            broadcast use vstd::multiset::group_multiset_properties;

        }
    }
    loop
        invariant
            g == maze@,
            width == g.width,
            height == g.height,
            total == g.width * g.height,
            g.start == Some(start),
            g.exit == Some(exit),
            searching(g, st, distances@, finalized@, reverse_path@, unvisited@, None, informed),
            decisions == st.closed.len(),
            pursued(g, informed, rounds) == model(
                g,
                st,
                distances@,
                unvisited@,
                decisions as nat,
            ),
            rounds + unvisited@.len() <= 4 * st.closed.len() + 1,
        decreases 5 * (total - st.closed.len()) + unvisited@.len(),
    {
        let ghost queue = unvisited@;
        let entry = match unvisited.pop() {
            Some(entry) => entry,
            None => {
                proof {
                    if g.solvable() {
                        let w = choose|w: Seq<Point>| g.connects(w, start, exit);
                        lemma_bound(
                            g,
                            st,
                            distances@,
                            finalized@,
                            reverse_path@,
                            queue,
                            informed,
                            w,
                            exit,
                        );
                        let e = choose|e: BinNode|
                            queue.contains(e) && e.cost <= cost(w) + heuristic(g, informed, exit);
                        assert(queue.count(e) > 0);
                        assert(queue.len() > 0) by {
                            broadcast use vstd::multiset::group_multiset_properties;

                            assert(queue.remove(e).insert(e) =~= queue);
                        }
                    }
                    lemma_at_rest(g, informed, rounds, 4 * (g.width * g.height) + 2);
                }
                return None;
            },
        };
        let position = entry.position;
        proof {
            assert(queue.contains(entry));
            assert(st.reached.contains(position));
            assert(settled(g, st, distances@, reverse_path@, position));
            lemma_key_fits(g, st, distances@, reverse_path@, informed, position);
            assert(unvisited@.len() == queue.len() - 1) by {
                broadcast use vstd::multiset::group_multiset_properties;

                assert(queue.remove(entry).insert(entry) =~= queue);
            }
            lemma_stride(
                g,
                st,
                distances@,
                finalized@,
                reverse_path@,
                queue,
                informed,
                entry,
                decisions as nat,
            );
            rounds = rounds + 1;
        }
        let p_index = index_of(width, height, position);
        let key = distances[p_index] + estimate(informed, position, exit);
        if finalized[p_index] || entry.cost != key {
            proof {
                lemma_stale(
                    g,
                    st,
                    distances@,
                    finalized@,
                    reverse_path@,
                    queue,
                    informed,
                    entry,
                );
            }
            continue ;
        }
        proof {
            if position != exit {
                lemma_accept(
                    g,
                    st,
                    distances@,
                    finalized@,
                    reverse_path@,
                    queue,
                    informed,
                    entry,
                );
            } else {
                lemma_arrive(
                    g,
                    st,
                    distances@,
                    finalized@,
                    reverse_path@,
                    queue,
                    informed,
                    entry,
                );
                lemma_cheap_finite(g, informed, distances@[cell(g, exit)] as int);
            }
        }
        decisions = decisions + 1;
        if position == exit {
            let ghost rank = Map::new(
                |p: Point| st.reached.contains(p),
                |p: Point| distances@[cell(g, p)] as nat,
            );
            proof {
                assert forall|p: Point| #[trigger] st.reached.contains(p) implies linked(
                    g,
                    reverse_path@,
                    st.reached,
                    st.route,
                    rank,
                    p,
                ) by {
                    assert(settled(g, st, distances@, reverse_path@, p));
                }
            }
            let path = trace(
                maze,
                &reverse_path,
                position,
                Ghost(st.reached),
                Ghost(st.route),
                Ghost(rank),
            );
            let solution = Solution::new(decisions, path);
            proof {
                assert(solution.route() == st.route[exit]);
                assert(points_of(path@).len() == path@.len());
                lemma_at_rest(g, informed, rounds, 4 * (g.width * g.height) + 2);
                assert forall|p: Point| #[trigger] st.reached.contains(p) implies tied(
                    g,
                    st.reached,
                    st.route,
                    st.from,
                    p,
                ) by {
                    assert(settled(g, st, distances@, reverse_path@, p));
                    if Some(p) != g.start {
                        let u = st.from[p];
                        assert(st.reached.contains(u));
                    }
                }
                assert(settled(g, st, distances@, reverse_path@, exit));
                lemma_way_back(g, st.reached, st.route, st.from, exit, decisions as nat);
                assert(points_of(path@) =~= points_of(path@).reverse().reverse());
            }
            return Some(solution);
        }
        finalized.set(p_index, true);
        let ghost q0 = unvisited@;
        proof {
            st = accepted(st, position, entry.cost as nat);
        }
        let ghost s0 = st;
        let node = match maze.node_at(position) {
            Some(node) => node,
            None => {
                return None;
            },
        };
        let ghost d0 = distances@;
        let mut st_cell: Ghost<Search> = Ghost(st);
        relax(maze, &node, Direction::North, exit, &mut distances, &finalized, &mut reverse_path, &mut unvisited, &mut st_cell, informed);
        let ghost d1 = distances@;
        let ghost s1 = st_cell@;
        let ghost q1 = unvisited@;
        relax(maze, &node, Direction::East, exit, &mut distances, &finalized, &mut reverse_path, &mut unvisited, &mut st_cell, informed);
        let ghost d2 = distances@;
        let ghost s2 = st_cell@;
        let ghost q2 = unvisited@;
        relax(maze, &node, Direction::South, exit, &mut distances, &finalized, &mut reverse_path, &mut unvisited, &mut st_cell, informed);
        let ghost d3 = distances@;
        let ghost s3 = st_cell@;
        let ghost q3 = unvisited@;
        relax(maze, &node, Direction::West, exit, &mut distances, &finalized, &mut reverse_path, &mut unvisited, &mut st_cell, informed);
        proof {
            st = st_cell@;
            let n = decisions as nat;
            assert(model(g, s1, d1, q1, n) == attempt(
                g,
                informed,
                model(g, s0, d0, q0, n),
                position,
                Direction::North,
            ));
            assert(model(g, s2, d2, q2, n) == attempt(
                g,
                informed,
                model(g, s1, d1, q1, n),
                position,
                Direction::East,
            ));
            assert(model(g, s3, d3, q3, n) == attempt(
                g,
                informed,
                model(g, s2, d2, q2, n),
                position,
                Direction::South,
            ));
            assert(model(g, st, distances@, unvisited@, n) == attempt(
                g,
                informed,
                model(g, s3, d3, q3, n),
                position,
                Direction::West,
            ));
            assert forall|d: Direction| (#[trigger] g.toward(position, d)) is Some implies relaxed(
                g,
                st,
                distances@,
                position,
                g.toward(position, d)->Some_0,
            ) by {
                let v = g.toward(position, d)->Some_0;
                match d {
                    Direction::North => {
                        assert(relaxed(g, s1, d1, position, v));
                        assert(s1.reached.contains(v));
                        assert(s2.reached.contains(v));
                        assert(s3.reached.contains(v));
                    },
                    Direction::East => {
                        assert(relaxed(g, s2, d2, position, v));
                        assert(s2.reached.contains(v));
                        assert(s3.reached.contains(v));
                    },
                    Direction::South => {
                        assert(relaxed(g, s3, d3, position, v));
                        assert(s3.reached.contains(v));
                    },
                    Direction::West => {},
                }
            }
            lemma_release(
                g,
                st,
                distances@,
                finalized@,
                reverse_path@,
                unvisited@,
                informed,
                position,
            );
        }
    }
}

} // verus!
