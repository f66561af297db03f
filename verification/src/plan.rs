//! What the raster scan is to produce: which pixels become nodes and how
//! they are joined, stated on the picture alone.

use crate::graph::Graph;
use crate::img::Raster;
use crate::node::{Direction, Point};
use vstd::prelude::*;

verus! {

/// The position at column `x`, row `y`.
pub open spec fn pt(x: int, y: int) -> Point {
    Point { x: x as u32, y: y as u32 }
}

/// The column of the first path pixel of row `y` at or right of column `x`.
pub open spec fn first_path(g: Raster, y: int, x: int) -> Option<int>
    decreases g.width - x,
{
    if x < 0 || x >= g.width {
        None
    } else if g.is_path(x, y) {
        Some(x)
    } else {
        first_path(g, y, x + 1)
    }
}

/// The entrance: the first path pixel of the top row.
pub open spec fn entrance(g: Raster) -> Option<Point> {
    match first_path(g, 0, 0) {
        Some(x) => Some(pt(x, 0)),
        None => None,
    }
}

/// The exit: the first path pixel of the bottom row, in an image of at
/// least two rows.
pub open spec fn goal(g: Raster) -> Option<Point> {
    if g.height >= 2 {
        match first_path(g, g.height - 1, 0) {
            Some(x) => Some(pt(x, g.height - 1)),
            None => None,
        }
    } else {
        None
    }
}

/// Inside the one-pixel border.
pub open spec fn interior(g: Raster, x: int, y: int) -> bool {
    1 <= x < g.width - 1 && 1 <= y < g.height - 1
}

/// The pixel to the left is an interior path pixel.
pub open spec fn west_open(g: Raster, x: int, y: int) -> bool {
    x >= 2 && g.is_path(x - 1, y)
}

/// The pixel to the right is a path pixel.
pub open spec fn east_open(g: Raster, x: int, y: int) -> bool {
    g.is_path(x + 1, y)
}

/// Whether the scan places a node at the interior pixel (`x`, `y`): at the
/// start and at the end of a corridor, inside a corridor where a path
/// leaves it upward or downward, and at a pixel closed in on both sides
/// that has a wall above or below it.
pub open spec fn junction(g: Raster, x: int, y: int) -> bool {
    &&& interior(g, x, y)
    &&& g.is_path(x, y)
    &&& if west_open(g, x, y) {
        !east_open(g, x, y) || g.is_path(x, y - 1) || g.is_path(x, y + 1)
    } else {
        east_open(g, x, y) || g.is_wall(x, y - 1) || g.is_wall(x, y + 1)
    }
}

/// The node that hangs over row `y` in column `x`: the entrance until a
/// node is placed in the column, then the lowest node placed above row `y`
/// if the pixel under it is a path pixel.
pub open spec fn ceiling(g: Raster, x: int, y: int) -> Option<Point>
    decreases y,
{
    if y <= 1 {
        match entrance(g) {
            Some(e) => if e.x == x {
                Some(e)
            } else {
                None
            },
            None => None,
        }
    } else if junction(g, x, y - 1) {
        if g.is_path(x, y) {
            Some(pt(x, y - 1))
        } else {
            None
        }
    } else {
        ceiling(g, x, y - 1)
    }
}

/// The node of row `y` left of column `x` whose corridor is still open
/// when the scan reaches column `x`.
pub open spec fn anchor(g: Raster, x: int, y: int) -> Option<Point>
    decreases x,
{
    if x <= 1 {
        None
    } else if junction(g, x - 1, y) && east_open(g, x - 1, y) {
        Some(pt(x - 1, y))
    } else if g.is_path(x - 1, y) && west_open(g, x - 1, y) && !east_open(g, x - 1, y) {
        None
    } else {
        anchor(g, x - 1, y)
    }
}

/// Whether the scan places a node at the position `p`.
pub open spec fn is_junction(g: Raster, p: Point) -> bool {
    junction(g, p.x as int, p.y as int)
}

/// Whether the finished graph has a node at `p`.
pub open spec fn is_node(g: Raster, p: Point) -> bool {
    entrance(g) == Some(p) || is_junction(g, p) || goal(g) == Some(p)
}

/// The northern neighbour of the node at `p`.
pub open spec fn north_of(g: Raster, p: Point) -> Option<Point> {
    if goal(g) == Some(p) {
        ceiling(g, p.x as int, p.y as int)
    } else if is_junction(g, p) && g.is_path(p.x as int, p.y - 1) {
        ceiling(g, p.x as int, p.y as int)
    } else {
        None
    }
}

/// The western neighbour of the node at `p`.
pub open spec fn west_of(g: Raster, p: Point) -> Option<Point> {
    if is_junction(g, p) && west_open(g, p.x as int, p.y as int) {
        anchor(g, p.x as int, p.y as int)
    } else {
        None
    }
}

/// `m` is the graph of the picture `g`: the nodes are the entrance, the
/// junctions and the exit; each node's northern and western neighbour is
/// the one the picture gives it; and, the graph being well formed, the
/// southern and eastern neighbours are the reverse of those.
pub open spec fn graph_of(g: Raster, m: Graph) -> bool {
    &&& g.wf()
    &&& m.wf()
    &&& m.width == g.width
    &&& m.height == g.height
    &&& m.start == entrance(g)
    &&& m.exit == goal(g)
    &&& forall|p: Point| #[trigger] m.has(p) <==> is_node(g, p)
    &&& forall|p: Point| #[trigger]
        m.has(p) ==> {
            &&& m.toward(p, Direction::North) == north_of(g, p)
            &&& m.toward(p, Direction::West) == west_of(g, p)
        }
}

/// The first path pixel of a row at or right of column `x` is a path
/// pixel with none between `x` and itself; where there is none, the row
/// has no path pixel from `x` on.
pub proof fn lemma_first_path(g: Raster, y: int, x: int)
    requires
        0 <= x,
    ensures
        match first_path(g, y, x) {
            Some(c) => x <= c < g.width && g.is_path(c, y) && forall|i: int|
                x <= i < c ==> !g.is_path(i, y),
            None => forall|i: int| x <= i ==> !g.is_path(i, y),
        },
    decreases g.width - x,
{
    if x < g.width && !g.is_path(x, y) {
        lemma_first_path(g, y, x + 1);
    }
}

/// The entrance lies in the top row, on the leftmost path pixel of it.
pub proof fn lemma_entrance(g: Raster)
    requires
        g.wf(),
    ensures
        match entrance(g) {
            Some(e) => e.y == 0 && e.x < g.width && g.is_path(e.x as int, 0) && forall|i: int|
                0 <= i < e.x ==> !g.is_path(i, 0),
            None => forall|i: int| !g.is_path(i, 0),
        },
{
    lemma_first_path(g, 0, 0);
}

/// The exit lies in the bottom row, below the top row, on the leftmost
/// path pixel of it.
pub proof fn lemma_goal(g: Raster)
    requires
        g.wf(),
    ensures
        match goal(g) {
            Some(e) => g.height >= 2 && e.y == g.height - 1 && e.x < g.width && g.is_path(
                e.x as int,
                e.y as int,
            ) && forall|i: int| 0 <= i < e.x ==> !g.is_path(i, e.y as int),
            None => g.height < 2 || forall|i: int, j: int| j == g.height - 1 ==> !g.is_path(i, j),
        },
{
    if g.height >= 2 {
        lemma_first_path(g, g.height - 1, 0);
    }
}

/// What hangs over a row is a node of an earlier row in the same column.
pub proof fn lemma_ceiling(g: Raster, x: int, y: int)
    requires
        g.wf(),
        y <= g.height,
    ensures
        ceiling(g, x, y) matches Some(q) ==> {
            &&& q.x == x
            &&& q.y < y || (q.y == 0 && entrance(g) == Some(q))
            &&& q.y < g.height
            &&& entrance(g) == Some(q) || is_junction(g, q)
        },
    decreases y,
{
    lemma_entrance(g);
    if y > 1 && !junction(g, x, y - 1) {
        lemma_ceiling(g, x, y - 1);
    }
}

/// An open corridor starts at a junction of the same row, further left.
pub proof fn lemma_anchor(g: Raster, x: int, y: int)
    requires
        g.wf(),
        0 <= y < g.height,
        x <= g.width,
    ensures
        anchor(g, x, y) matches Some(q) ==> {
            &&& q.y == y
            &&& 1 <= q.x < x
            &&& is_junction(g, q)
        },
    decreases x,
{
    if x > 1 {
        lemma_anchor(g, x - 1, y);
    }
}

/// The graph of a picture without a path pixel in its top row has no
/// entrance, and so nothing in it can be solved.
pub proof fn lemma_no_entrance(g: Raster, m: Graph)
    requires
        graph_of(g, m),
        forall|x: int| !g.is_path(x, 0),
    ensures
        m.start is None,
        !m.solvable(),
{
    lemma_entrance(g);
}

/// In the graph of a picture every edge has its reverse: where the node
/// at `n` has the neighbour `p` in direction `d`, the node at `p` has
/// the neighbour `n` in the opposite direction.
pub proof fn lemma_reciprocal(g: Raster, m: Graph, n: Point, d: Direction, p: Point)
    requires
        graph_of(g, m),
        m.has(n),
        m.toward(n, d) == Some(p),
    ensures
        m.has(p),
        m.toward(p, d.spec_opposite()) == Some(n),
{
}

/// In the graph of a picture the southern and eastern neighbours are the
/// reverse of the northern and western ones: the node at `p` has `q` to
/// its south exactly when `q` is a node with `p` to its north, and `q` to
/// its east exactly when `q` is a node with `p` to its west.
pub proof fn lemma_south_east(g: Raster, m: Graph, p: Point, q: Point)
    requires
        graph_of(g, m),
        m.has(p),
    ensures
        m.toward(p, Direction::South) == Some(q) <==> is_node(g, q) && north_of(g, q) == Some(p),
        m.toward(p, Direction::East) == Some(q) <==> is_node(g, q) && west_of(g, q) == Some(p),
{
    assert(m.has(q) <==> is_node(g, q));
    if m.toward(p, Direction::South) == Some(q) {
        assert(m.toward(q, Direction::South.spec_opposite()) == Some(p));
    }
    if m.toward(p, Direction::East) == Some(q) {
        assert(m.toward(q, Direction::East.spec_opposite()) == Some(p));
    }
    if m.has(q) && north_of(g, q) == Some(p) {
        assert(m.toward(q, Direction::North) == Some(p));
        assert(m.toward(p, Direction::North.spec_opposite()) == Some(q));
    }
    if m.has(q) && west_of(g, q) == Some(p) {
        assert(m.toward(q, Direction::West) == Some(p));
        assert(m.toward(p, Direction::West.spec_opposite()) == Some(q));
    }
}

/// A stretch of row `y` from column `a` to column `b`, all of path
/// pixels, with no path pixel above or below the pixels between its ends.
pub open spec fn corridor(g: Raster, y: int, a: int, b: int) -> bool {
    &&& 1 <= a < b
    &&& forall|c: int| a <= c <= b ==> #[trigger] g.is_path(c, y)
    &&& forall|c: int, r: int| a < c < b && (r == y - 1 || r == y + 1) ==> !g.is_path(c, r)
}

/// No pixel between the two ends of a corridor becomes a node.
pub proof fn lemma_corridor_compression(g: Raster, m: Graph, y: int, a: int, b: int, x: int)
    requires
        graph_of(g, m),
        corridor(g, y, a, b),
        a < x < b,
    ensures
        !is_node(g, pt(x, y)),
        !m.has(pt(x, y)),
{
    lemma_entrance(g);
    lemma_goal(g);
    assert(g.is_path(x - 1, y));
}

/// While a corridor runs on from a node at its left end, that node stays
/// the one a node further right is joined to.
proof fn lemma_anchor_holds(g: Raster, y: int, a: int, b: int, x: int)
    requires
        g.wf(),
        corridor(g, y, a, b),
        junction(g, a, y),
        a < x <= b,
    ensures
        anchor(g, x, y) == Some(pt(a, y)),
    decreases x - a,
{
    if x > a + 1 {
        lemma_anchor_holds(g, y, a, b, x - 1);
    }
}

/// Where both ends of a corridor are nodes, the graph joins them to
/// each other directly.
pub proof fn lemma_corridor_joined(g: Raster, m: Graph, y: int, a: int, b: int)
    requires
        graph_of(g, m),
        corridor(g, y, a, b),
        junction(g, a, y),
        junction(g, b, y),
    ensures
        m.toward(pt(b, y), Direction::West) == Some(pt(a, y)),
        m.toward(pt(a, y), Direction::East) == Some(pt(b, y)),
{
    lemma_anchor_holds(g, y, a, b, b);
    assert(g.is_path(b - 1, y));
    let p = pt(a, y);
    let q = pt(b, y);
    assert(is_junction(g, q));
    assert(is_junction(g, p));
    assert(m.has(q) <==> is_node(g, q));
    assert(m.has(p) <==> is_node(g, p));
    assert(west_of(g, q) == Some(p));
    assert(m.toward(q, Direction::West) == Some(p));
    assert(m.toward(p, Direction::West.spec_opposite()) == Some(q));
}

/// A pixel of a shaft, with path pixels above and below it and none to
/// its left and right, does not become a node.
pub proof fn lemma_shaft_compression(g: Raster, m: Graph, x: int, y: int)
    requires
        graph_of(g, m),
        interior(g, x, y),
        g.is_path(x, y - 1),
        g.is_path(x, y),
        g.is_path(x, y + 1),
        !g.is_path(x - 1, y),
        !g.is_path(x + 1, y),
    ensures
        !is_node(g, pt(x, y)),
        !m.has(pt(x, y)),
{
    lemma_entrance(g);
    lemma_goal(g);
}

/// In the graph of a picture the entrance has no neighbour but to its
/// south.
pub proof fn lemma_entrance_faces_south(g: Raster, m: Graph, d: Direction)
    requires
        graph_of(g, m),
        m.start is Some,
        d != Direction::South,
    ensures
        m.toward(m.start->Some_0, d) is None,
{
    let start = m.start->Some_0;
    lemma_entrance(g);
    lemma_goal(g);
    if d == Direction::East && m.toward(start, d) is Some {
        let q = m.toward(start, d)->Some_0;
        lemma_south_east(g, m, start, q);
        lemma_anchor(g, q.x as int, q.y as int);
    }
}

} // verus!
