//! Why the wall follower finds the exit of a maze without loops.

use crate::algorithms::left_turn::{advance, arrival, step_limit, turn, walked, Walker};
use crate::graph::{grid, lemma_grid, offset, Graph};
use crate::img::{lemma_offset_in_bounds, lemma_offset_injective, Raster};
use crate::node::{Direction, Point};
use crate::plan::{graph_of, lemma_entrance_faces_south};
use vstd::prelude::*;

verus! {

/// The neighbour of `p` in direction `d` is its parent: one step nearer
/// to the entrance than `p`.
pub open spec fn is_parent(g: Graph, depth: Map<Point, nat>, p: Point, d: Direction) -> bool {
    g.toward(p, d) is Some && depth[g.toward(p, d)->Some_0] + 1 == depth[p]
}

/// `depth` lays the nodes that it covers out as a tree below the
/// entrance: neighbours are one step apart, only the entrance has depth
/// zero, and every other node has exactly one parent.
pub open spec fn tree(g: Graph, depth: Map<Point, nat>) -> bool {
    &&& g.start is Some
    &&& depth.contains_key(g.start->Some_0)
    &&& forall|p: Point| #[trigger]
        depth.contains_key(p) ==> g.has(p) && (depth[p] == 0 <==> Some(p) == g.start)
    &&& forall|p: Point, d: Direction|
        depth.contains_key(p) && (#[trigger] g.toward(p, d)) is Some ==> {
            let q = g.toward(p, d)->Some_0;
            depth.contains_key(q) && (depth[q] == depth[p] + 1 || depth[q] + 1 == depth[p])
        }
    &&& forall|p: Point| #[trigger]
        depth.contains_key(p) && Some(p) != g.start ==> exists|d: Direction|
            is_parent(g, depth, p, d)
    &&& forall|p: Point, d: Direction, e: Direction|
        depth.contains_key(p) && #[trigger] is_parent(g, depth, p, d) && #[trigger] is_parent(
            g,
            depth,
            p,
            e,
        ) ==> d == e
}

/// A maze without loops whose exit can be reached: the nodes that can
/// be reached from the entrance form a tree, and the exit is one of them.
pub open spec fn loop_free(g: Graph) -> bool {
    exists|depth: Map<Point, nat>|
        #[trigger] tree(g, depth) && g.exit is Some && depth.contains_key(g.exit->Some_0)
}

spec fn sinks(depth: Map<Point, nat>, w: Seq<Point>, i: int) -> bool {
    depth[w[i + 1]] == depth[w[i]] + 1
}

/// A walk that goes one step deeper with every step.
spec fn descent(g: Graph, depth: Map<Point, nat>, w: Seq<Point>) -> bool {
    &&& g.is_walk(w)
    &&& forall|i: int| 0 <= i < w.len() - 1 ==> #[trigger] sinks(depth, w, i)
}

/// The exit is not `v` and does not lie below `v`.
spec fn barren(g: Graph, depth: Map<Point, nat>, v: Point) -> bool {
    forall|w: Seq<Point>| #[trigger] descent(g, depth, w) && w[0] == v ==> Some(w[w.len() - 1]) != g.exit
}

/// In direction `e` the node `v` has no neighbour, or one below which
/// the exit does not lie.
spec fn spent(g: Graph, depth: Map<Point, nat>, v: Point, e: Direction) -> bool {
    g.toward(v, e) is None || barren(g, depth, g.toward(v, e)->Some_0)
}

/// The `s`th way that a walker facing `h` tries: left, straight on,
/// right, back.
#[verifier::opaque]
spec fn nth(h: Direction, s: nat) -> Direction {
    if s == 0 {
        h.counter_clockwise(1)
    } else if s == 1 {
        h
    } else if s == 2 {
        h.clockwise(1)
    } else {
        h.clockwise(2)
    }
}

/// Facing back the way it came, a walker tries next what it had left
/// to try before.
proof fn lemma_nth(h: Direction, s: nat, r: nat)
    requires
        s <= 3,
        r <= 3,
    ensures
        nth(nth(h, s).spec_opposite(), r) == nth(h, ((s + 1 + r) % 4) as nat),
        nth(h, 3) == h.spec_opposite(),
        nth(h, s).spec_opposite().spec_opposite() == nth(h, s),
{
    reveal(nth);
    match h {
        Direction::North => {},
        Direction::East => {},
        Direction::South => {},
        Direction::West => {},
    }
}

/// The four ways a walker tries are four different directions.
proof fn lemma_nth_distinct(h: Direction, s: nat, r: nat)
    requires
        s <= 3,
        r <= 3,
        s != r,
    ensures
        nth(h, s) != nth(h, r),
{
    reveal(nth);
    match h {
        Direction::North => {},
        Direction::East => {},
        Direction::South => {},
        Direction::West => {},
    }
}

/// Every direction is one of the four ways a walker tries.
proof fn lemma_nth_covers(h: Direction, d: Direction) -> (s: nat)
    ensures
        s <= 3,
        nth(h, s) == d,
{
    reveal(nth);
    if nth(h, 0) == d {
        0
    } else if nth(h, 1) == d {
        1
    } else if nth(h, 2) == d {
        2
    } else {
        match h {
            Direction::North => {},
            Direction::East => {},
            Direction::South => {},
            Direction::West => {},
        }
        3
    }
}

/// The exit lies neither at `v` nor below it when it is not `v` and
/// lies below none of the children of `v`.
proof fn lemma_barren(g: Graph, depth: Map<Point, nat>, v: Point)
    requires
        g.wf(),
        tree(g, depth),
        depth.contains_key(v),
        Some(v) != g.exit,
        forall|d: Direction| #[trigger] is_parent(g, depth, v, d) || spent(g, depth, v, d),
    ensures
        barren(g, depth, v),
{
    assert forall|w: Seq<Point>| #[trigger] descent(g, depth, w) && w[0] == v implies Some(
        w[w.len() - 1],
    ) != g.exit by {
        if w.len() > 1 {
            assert(g.step(w, 0));
            assert(sinks(depth, w, 0));
            let d = choose|d: Direction| g.toward(v, d) == Some(w[1]);
            assert(is_parent(g, depth, v, d) || spent(g, depth, v, d));
            let rest = w.subrange(1, w.len() as int);
            assert forall|i: int| 0 <= i < rest.len() - 1 implies #[trigger] g.step(rest, i) by {
                assert(g.step(w, i + 1));
            }
            assert forall|i: int| 0 <= i < rest.len() - 1 implies #[trigger] sinks(
                depth,
                rest,
                i,
            ) by {
                assert(sinks(depth, w, i + 1));
            }
            assert(descent(g, depth, rest));
        }
    }
}

/// Every node of the tree is reached from the entrance by a descent.
proof fn lemma_descent(g: Graph, depth: Map<Point, nat>, z: Point) -> (w: Seq<Point>)
    requires
        g.wf(),
        tree(g, depth),
        depth.contains_key(z),
    ensures
        descent(g, depth, w),
        w[0] == g.start->Some_0,
        w[w.len() - 1] == z,
        w.len() == depth[z] + 1,
    decreases depth[z],
{
    if Some(z) == g.start {
        let w = seq![z];
        w
    } else {
        let d = choose|d: Direction| is_parent(g, depth, z, d);
        let p = g.toward(z, d)->Some_0;
        let v = lemma_descent(g, depth, p);
        let w = v.push(z);
        g.lemma_walk_push(v, g.start->Some_0, p, z);
        assert forall|i: int| 0 <= i < w.len() - 1 implies #[trigger] sinks(depth, w, i) by {
            if i < v.len() - 1 {
                assert(sinks(depth, v, i));
            }
        }
        w
    }
}

/// The `i`th node of a descent from the entrance has depth `i`.
proof fn lemma_descent_depth(g: Graph, depth: Map<Point, nat>, w: Seq<Point>, i: int)
    requires
        tree(g, depth),
        descent(g, depth, w),
        w[0] == g.start->Some_0,
        0 <= i < w.len(),
    ensures
        depth[w[i]] == i,
    decreases i,
{
    if i > 0 {
        lemma_descent_depth(g, depth, w, i - 1);
        assert(sinks(depth, w, i - 1));
    }
}

/// No node of a tree lies as deep as the maze has pixels.
proof fn lemma_depth_bound(g: Graph, depth: Map<Point, nat>, z: Point)
    requires
        g.wf(),
        tree(g, depth),
        depth.contains_key(z),
    ensures
        depth[z] < g.width * g.height,
{
    let w = lemma_descent(g, depth, z);
    let places = vstd::set_lib::set_int_range(0, w.len() as int);
    let f = |i: int| w[i];
    vstd::set_lib::lemma_int_range(0, w.len() as int);
    lemma_grid(g.width, g.height);
    assert(vstd::relations::injective_on(f, places)) by {
        assert forall|i: int, j: int|
            places.contains(i) && places.contains(j) && #[trigger] f(i) == #[trigger] f(
                j,
            ) implies i == j by {
            lemma_descent_depth(g, depth, w, i);
            lemma_descent_depth(g, depth, w, j);
        }
    }
    assert(places.map(f).subset_of(grid(g.width, g.height))) by {
        assert forall|p: Point| places.map(f).contains(p) implies grid(g.width, g.height).contains(
            p,
        ) by {
            let i = choose|i: int| places.contains(i) && f(i) == p;
            g.lemma_walk_nodes(w, i);
        }
    }
    vstd::set_lib::lemma_map_size(places, places.map(f), f);
    vstd::set_lib::lemma_len_subset(places.map(f), grid(g.width, g.height));
}

/// The way a walker takes is the first of the four it tries in which
/// its node has a neighbour.
proof fn lemma_first_way(g: Graph, v: Point, h: Direction, t: nat) -> (s0: nat)
    requires
        t <= 3,
        g.toward(v, nth(h, t)) is Some,
    ensures
        s0 <= t,
        turn(g, v, h) == Some(nth(h, s0)),
        g.toward(v, nth(h, s0)) is Some,
        forall|s: nat| s < s0 ==> g.toward(v, #[trigger] nth(h, s)) is None,
{
    reveal(nth);
    if g.toward(v, nth(h, 0)) is Some {
        0
    } else if g.toward(v, nth(h, 1)) is Some {
        1
    } else if g.toward(v, nth(h, 2)) is Some {
        2
    } else {
        3
    }
}

/// A walker that is neither at the exit nor back at the entrance takes
/// the way that `turn` gives.
proof fn lemma_step(g: Graph, m: nat, v: Point, h: Direction, e: Direction)
    requires
        m >= 1,
        walked(g, m) == Some(Walker { at: v, heading: h }),
        Some(v) != g.exit,
        Some(v) != g.start,
        turn(g, v, h) == Some(e),
    ensures
        walked(g, m + 1) == Some(Walker { at: g.toward(v, e)->Some_0, heading: e }),
{
    assert(advance(g, Walker { at: v, heading: h }) == Some(
        Walker { at: g.toward(v, e)->Some_0, heading: e },
    ));
}

/// Where the first way a walker can take at `v` is the way up, the exit
/// lies neither at `v` nor below it.
proof fn lemma_way_up(g: Graph, depth: Map<Point, nat>, v: Point, h: Direction, t: nat)
    requires
        g.wf(),
        tree(g, depth),
        depth.contains_key(v),
        Some(v) != g.exit,
        t <= 3,
        is_parent(g, depth, v, nth(h, t)),
        forall|s: nat| s < t ==> g.toward(v, #[trigger] nth(h, s)) is None,
        forall|s: nat| t < s <= 3 ==> #[trigger] spent(g, depth, v, nth(h, s)),
    ensures
        barren(g, depth, v),
{
    assert forall|d: Direction| #[trigger] is_parent(g, depth, v, d) || spent(g, depth, v, d) by {
        let s = lemma_nth_covers(h, d);
        if s > t {
            assert(spent(g, depth, v, nth(h, s)));
        } else if s < t {
            assert(g.toward(v, nth(h, s)) is None);
        }
    }
    lemma_barren(g, depth, v);
}

/// Back from a child below which the exit does not lie, a walker has
/// the ways after that child's left to try, up to the way up.
proof fn lemma_way_on(
    g: Graph,
    depth: Map<Point, nat>,
    v: Point,
    h: Direction,
    t: nat,
    s0: nat,
)
    requires
        s0 < t <= 3,
        forall|s: nat| s < s0 ==> g.toward(v, #[trigger] nth(h, s)) is None,
        forall|s: nat| t < s <= 3 ==> #[trigger] spent(g, depth, v, nth(h, s)),
        spent(g, depth, v, nth(h, s0)),
    ensures
        nth(nth(h, s0).spec_opposite(), (t - s0 - 1) as nat) == nth(h, t),
        forall|s: nat|
            t - s0 - 1 < s <= 3 ==> #[trigger] spent(g, depth, v, nth(nth(h, s0).spec_opposite(), s)),
{
    let back = nth(h, s0).spec_opposite();
    let t2 = (t - s0 - 1) as nat;
    lemma_nth(h, s0, t2);
    assert forall|s: nat| t2 < s <= 3 implies #[trigger] spent(g, depth, v, nth(back, s)) by {
        lemma_nth(h, s0, s);
        let k = ((s0 + 1 + s) % 4) as nat;
        if k > t {
            assert(spent(g, depth, v, nth(h, k)));
        } else if k < s0 {
            assert(g.toward(v, nth(h, k)) is None);
        } else {
            assert(k == s0);
        }
    }
}

/// A child of `v` has `v` as its parent, the way back from it.
proof fn lemma_child(g: Graph, depth: Map<Point, nat>, v: Point, e: Direction, b: Direction)
    requires
        g.wf(),
        tree(g, depth),
        depth.contains_key(v),
        g.toward(v, e) is Some,
        is_parent(g, depth, v, b),
        e != b,
    ensures
        depth.contains_key(g.toward(v, e)->Some_0),
        depth[g.toward(v, e)->Some_0] == depth[v] + 1,
        is_parent(g, depth, g.toward(v, e)->Some_0, nth(e, 3)),
        g.toward(g.toward(v, e)->Some_0, nth(e, 3)) == Some(v),
        Some(v) != g.start,
{
    lemma_nth(e, 3, 0);
    let c = g.toward(v, e)->Some_0;
    assert(!is_parent(g, depth, v, e));
    assert(g.toward(c, e.spec_opposite()) == Some(v));
}

/// A walker that has come down to `v` and still has the ways up to the
/// `t`th to try, the `t`th being the way back up, comes to the exit, or
/// it comes back to the parent of `v` and the exit does not lie at or
/// below `v`.
proof fn lemma_tour(
    g: Graph,
    depth: Map<Point, nat>,
    m: nat,
    v: Point,
    h: Direction,
    t: nat,
) -> (n: nat)
    requires
        g.wf(),
        tree(g, depth),
        g.exit is Some,
        m >= 1,
        walked(g, m) == Some(Walker { at: v, heading: h }),
        depth.contains_key(v),
        t <= 3,
        is_parent(g, depth, v, nth(h, t)),
        forall|s: nat| t < s <= 3 ==> #[trigger] spent(g, depth, v, nth(h, s)),
    ensures
        n >= m,
        walked(g, n) is Some,
        Some(walked(g, n)->Some_0.at) == g.exit || (n > m && walked(g, n) == Some(
            Walker { at: g.toward(v, nth(h, t))->Some_0, heading: nth(h, t) },
        ) && barren(g, depth, v)),
    decreases g.width * g.height - depth[v], t,
{
    if Some(v) == g.exit {
        return m;
    }
    let s0 = lemma_first_way(g, v, h, t);
    let e = nth(h, s0);
    let c = g.toward(v, e)->Some_0;
    lemma_step(g, m, v, h, e);
    if s0 == t {
        lemma_way_up(g, depth, v, h, t);
        return m + 1;
    }
    lemma_nth_distinct(h, s0, t);
    lemma_child(g, depth, v, e, nth(h, t));
    lemma_depth_bound(g, depth, c);
    let n1 = lemma_tour(g, depth, m + 1, c, e, 3);
    if Some(walked(g, n1)->Some_0.at) == g.exit {
        return n1;
    }
    let back = e.spec_opposite();
    let t2 = (t - s0 - 1) as nat;
    lemma_nth(e, 3, 0);
    lemma_way_on(g, depth, v, h, t, s0);
    let n2 = lemma_tour(g, depth, n1, v, back, t2);
    n2
}

/// A walker that still stands after `n` steps stood after every step
/// before, at a node of the graph, and had come neither to the exit nor
/// back to the entrance.
proof fn lemma_alive(g: Graph, n: nat, i: nat)
    requires
        g.wf(),
        walked(g, n) is Some,
        i <= n,
    ensures
        walked(g, i) is Some,
        g.has(walked(g, i)->Some_0.at),
        1 <= i < n ==> Some(walked(g, i)->Some_0.at) != g.exit && Some(walked(g, i)->Some_0.at)
            != g.start,
        i < n ==> walked(g, i + 1) == advance(g, walked(g, i)->Some_0),
    decreases n,
{
    if n > 0 {
        lemma_alive(g, (n - 1) as nat, if i < n {
            i
        } else {
            (n - 1) as nat
        });
        if i == n {
            let w = walked(g, (n - 1) as nat)->Some_0;
            let d = turn(g, w.at, w.heading)->Some_0;
            assert(g.toward(w.at, d) is Some);
        }
    }
}

/// What a walker does depends on where it stands and which way it
/// faces alone: from equal states it goes on to equal states.
proof fn lemma_periodic(g: Graph, i: nat, j: nat, t: nat)
    requires
        g.wf(),
        1 <= i < j,
        walked(g, j + t) is Some,
        walked(g, i) == walked(g, j),
    ensures
        walked(g, i + t) == walked(g, j + t),
    decreases t,
{
    if t > 0 {
        lemma_alive(g, j + t, (j + t - 1) as nat);
        lemma_periodic(g, i, j, (t - 1) as nat);
    }
}

/// The state of a walker as a number.
spec fn code(g: Graph, w: Walker) -> int {
    4 * offset(g.width, w.at) + w.heading.index()
}

/// A walker that comes to the exit has not been in one state twice, and
/// so has made no more than four steps for every pixel.
proof fn lemma_few_steps(g: Graph, n: nat)
    requires
        g.wf(),
        n >= 1,
        walked(g, n) is Some,
        Some(walked(g, n)->Some_0.at) == g.exit,
    ensures
        n <= 4 * (g.width * g.height),
{
    let area = (g.width * g.height) as int;
    let steps = vstd::set_lib::set_int_range(1, n as int + 1);
    let codes = vstd::set_lib::set_int_range(0, 4 * area);
    let f = |i: int| code(g, walked(g, i as nat)->Some_0);
    vstd::set_lib::lemma_int_range(1, n as int + 1);
    vstd::set_lib::lemma_int_range(0, 4 * area);
    assert(vstd::relations::injective_on(f, steps)) by {
        assert forall|i: int, j: int|
            steps.contains(i) && steps.contains(j) && #[trigger] f(i) == #[trigger] f(
                j,
            ) implies i == j by {
            lemma_alive(g, n, i as nat);
            lemma_alive(g, n, j as nat);
            let a = walked(g, i as nat)->Some_0;
            let b = walked(g, j as nat)->Some_0;
            lemma_offset_in_bounds(a.at.x as int, a.at.y as int, g.width as int, g.height as int);
            lemma_offset_in_bounds(b.at.x as int, b.at.y as int, g.width as int, g.height as int);
            lemma_offset_injective(
                a.at.x as int,
                a.at.y as int,
                b.at.x as int,
                b.at.y as int,
                g.width as int,
            );
            if i < j {
                lemma_periodic(g, i as nat, j as nat, (n - j) as nat);
                lemma_alive(g, n, (i + n - j) as nat);
            } else if j < i {
                lemma_periodic(g, j as nat, i as nat, (n - i) as nat);
                lemma_alive(g, n, (j + n - i) as nat);
            }
        }
    }
    assert(steps.map(f).subset_of(codes)) by {
        assert forall|c: int| steps.map(f).contains(c) implies codes.contains(c) by {
            let i = choose|i: int| steps.contains(i) && f(i) == c;
            lemma_alive(g, n, i as nat);
            let a = walked(g, i as nat)->Some_0;
            lemma_offset_in_bounds(a.at.x as int, a.at.y as int, g.width as int, g.height as int);
        }
    }
    vstd::set_lib::lemma_map_size(steps, steps.map(f), f);
    vstd::set_lib::lemma_len_subset(steps.map(f), codes);
}

/// The step with which a walker comes to the exit is its arrival.
proof fn lemma_arrives(g: Graph, n: nat, limit: nat, i: nat)
    requires
        g.wf(),
        1 <= i <= n <= limit,
        walked(g, n) is Some,
        Some(walked(g, n)->Some_0.at) == g.exit,
    ensures
        arrival(g, i, limit) == Some(n),
    decreases n - i,
{
    lemma_alive(g, n, i);
    if i < n {
        lemma_arrives(g, n, limit, i + 1);
    }
}

/// The entrance has a neighbour in one direction at most.
pub open spec fn single_way(g: Graph) -> bool {
    forall|d: Direction, e: Direction|
        (#[trigger] g.toward(g.start->Some_0, d)) is Some && (#[trigger] g.toward(
            g.start->Some_0,
            e,
        )) is Some ==> d == e
}

/// The first step of a walker takes the one way on from the entrance.
proof fn lemma_first_step(g: Graph, d: Direction)
    requires
        g.start is Some,
        single_way(g),
        g.toward(g.start->Some_0, d) is Some,
    ensures
        walked(g, 1) == Some(Walker { at: g.toward(g.start->Some_0, d)->Some_0, heading: d }),
{
    let start = g.start->Some_0;
    let s = lemma_nth_covers(Direction::South, d);
    let s0 = lemma_first_way(g, start, Direction::South, s);
    assert(nth(Direction::South, s0) == d);
    assert(walked(g, 0) == Some(Walker { at: start, heading: Direction::South }));
    assert(advance(g, Walker { at: start, heading: Direction::South }) == Some(
        Walker { at: g.toward(start, d)->Some_0, heading: d },
    ));
}

/// The rest of a descent of more than one node is a descent.
proof fn lemma_descent_rest(g: Graph, depth: Map<Point, nat>, w: Seq<Point>)
    requires
        g.wf(),
        descent(g, depth, w),
        w.len() >= 2,
    ensures
        descent(g, depth, w.subrange(1, w.len() as int)),
        g.edge(w[0], w[1]),
        depth[w[1]] == depth[w[0]] + 1,
{
    let rest = w.subrange(1, w.len() as int);
    assert(g.step(w, 0));
    assert(sinks(depth, w, 0));
    let d = choose|d: Direction| g.toward(w[0], d) == Some(w[1]);
    assert(g.toward(w[0], d) is Some);
    assert(g.has(w[1]));
    assert forall|i: int| 0 <= i < rest.len() - 1 implies #[trigger] g.step(rest, i) by {
        assert(g.step(w, i + 1));
    }
    assert forall|i: int| 0 <= i < rest.len() - 1 implies #[trigger] sinks(depth, rest, i) by {
        assert(sinks(depth, w, i + 1));
    }
}

/// In a tree whose entrance has one way on, a walker comes to a node of
/// the tree with some step.
proof fn lemma_comes_to(g: Graph, depth: Map<Point, nat>) -> (n: nat)
    requires
        g.wf(),
        tree(g, depth),
        single_way(g),
        g.exit is Some,
        depth.contains_key(g.exit->Some_0),
    ensures
        n >= 1,
        walked(g, n) is Some,
        Some(walked(g, n)->Some_0.at) == g.exit,
{
    let start = g.start->Some_0;
    let exit = g.exit->Some_0;
    let w = lemma_descent(g, depth, exit);
    lemma_descent_rest(g, depth, w);
    let c = w[1];
    let d = choose|d: Direction| g.toward(start, d) == Some(c);
    assert(g.toward(start, d) is Some);
    lemma_first_step(g, d);
    lemma_nth(d, 3, 0);
    assert(g.toward(c, d.spec_opposite()) == Some(start));
    assert(is_parent(g, depth, c, nth(d, 3)));
    let n = lemma_tour(g, depth, 1, c, d, 3);
    if Some(walked(g, n)->Some_0.at) != g.exit {
        let rest = w.subrange(1, w.len() as int);
        assert(rest[0] == c);
        assert(rest[rest.len() - 1] == exit);
        assert(descent(g, depth, rest));
        assert(false);
    }
    n
}

/// In a maze without loops, whose entrance has one way on and which is
/// small enough for the walker's step limit to be four steps for every
/// pixel, the wall follower comes to the exit.
pub proof fn lemma_wall_follower_arrives(g: Graph)
    requires
        g.wf(),
        loop_free(g),
        single_way(g),
        4 * (g.width * g.height) < 0xFFFF_FFFE,
    ensures
        arrival(g, 1, step_limit(g)) is Some,
{
    let depth = choose|depth: Map<Point, nat>|
        #[trigger] tree(g, depth) && g.exit is Some && depth.contains_key(g.exit->Some_0);
    let n = lemma_comes_to(g, depth);
    lemma_few_steps(g, n);
    lemma_arrives(g, n, step_limit(g), 1);
}

/// In the graph of a picture of a maze without loops, small enough for
/// the walker's step limit to be four steps for every pixel, the wall
/// follower comes to the exit.
pub proof fn lemma_wall_follower_solves(r: Raster, g: Graph)
    requires
        graph_of(r, g),
        loop_free(g),
        4 * (g.width * g.height) < 0xFFFF_FFFE,
    ensures
        arrival(g, 1, step_limit(g)) is Some,
{
    assert(single_way(g)) by {
        assert forall|d: Direction, e: Direction|
            (#[trigger] g.toward(g.start->Some_0, d)) is Some && (#[trigger] g.toward(
                g.start->Some_0,
                e,
            )) is Some implies d == e by {
            if d != Direction::South {
                lemma_entrance_faces_south(r, g, d);
            }
            if e != Direction::South {
                lemma_entrance_faces_south(r, g, e);
            }
        }
    }
    lemma_wall_follower_arrives(g);
}

} // verus!
