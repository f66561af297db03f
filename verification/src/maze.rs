//! The maze graph and the raster scan that builds it.

use crate::graph::{ahead, Graph};
use crate::img::{Image, Raster};
use crate::node::{Direction, Node, NodeType, Point};
use crate::plan::{
    anchor, ceiling, east_open, entrance, goal, graph_of, is_junction, is_node, junction,
    lemma_anchor, lemma_ceiling, lemma_entrance, lemma_first_path, lemma_goal, north_of, pt, west_of,
    west_open,
};
use crate::utils::{is_path, look_ahead, path_above, path_below, wall_above, wall_below};
use fxhash::FxHashMap;
use vstd::prelude::*;

verus! {

/// The hasher of the `fxhash` crate, carried along in the type of the
/// node table and never looked into.
#[verifier::external_type_specification]
#[verifier::external_body]
pub struct ExFxHasher(fxhash::FxHasher);

/// `std`'s builder of default hashers, carried along in the type of the
/// node table and never looked into.
#[verifier::external_type_specification]
#[verifier::external_body]
#[verifier::reject_recursive_types(H)]
pub struct ExBuildHasherDefault<H>(core::hash::BuildHasherDefault<H>);

/// The most room that is asked for in a new node table.
const ROOM: usize = 0x10_0000;

/// Calls `FxHashMap::with_capacity_and_hasher` with the default Fx hasher:
/// the table it returns is empty. The capacity is kept small enough for
/// the size of the table not to overflow.
#[verifier::external_body]
fn table_new(capacity: usize) -> (table: FxHashMap<u64, Node>)
    requires
        capacity <= ROOM,
    ensures
        table@ =~= Map::empty(),
{
    FxHashMap::with_capacity_and_hasher(capacity, Default::default())
}

/// Calls `HashMap::insert` on an `FxHashMap`: afterwards `key` maps to
/// `node` and every other key is as it was.
#[verifier::external_body]
fn table_insert(table: &mut FxHashMap<u64, Node>, key: u64, node: Node)
    ensures
        final(table)@ == old(table)@.insert(key, node),
{
    table.insert(key, node);
}

/// Calls `HashMap::get` on an `FxHashMap`: the node filed under `key`, or
/// `None` when the table has no such key.
#[verifier::external_body]
fn table_get(table: &FxHashMap<u64, Node>, key: u64) -> (r: Option<Node>)
    ensures
        r == (if table@.contains_key(key) {
            Some(table@[key])
        } else {
            None
        }),
{
    table.get(&key).copied()
}

/// The nodes of a table, seen by position.
spec fn by_position(table: Map<u64, Node>) -> Map<Point, Node> {
    Map::new(|p: Point| table.contains_key(p.spec_key()), |p: Point| table[p.spec_key()])
}

/// Files `node` under its own position.
fn put(table: &mut FxHashMap<u64, Node>, node: Node)
    ensures
        by_position(final(table)@) == by_position(old(table)@).insert(node.point, node),
{
    table_insert(table, node.point.key(), node);
    assert(by_position(table@) =~= by_position(old(table)@).insert(node.point, node));
}

/// The node filed under position `p`.
fn look(table: &FxHashMap<u64, Node>, p: Point) -> (r: Option<Node>)
    ensures
        r == (if by_position(table@).contains_key(p) {
            Some(by_position(table@)[p])
        } else {
            None
        }),
{
    table_get(table, p.key())
}

/// The node at `p` with its neighbour in direction `d` set to `q`.
spec fn joined(t: Map<Point, Node>, p: Point, d: Direction, q: Point) -> Map<Point, Node> {
    t.insert(p, Node { children: t[p].children.spec_insert(d, q), ..t[p] })
}

/// Gives the node at `p`, if there is one, the neighbour `q` in direction `d`.
fn join(table: &mut FxHashMap<u64, Node>, p: Point, d: Direction, q: Point)
    requires
        by_position(old(table)@).contains_key(p),
        by_position(old(table)@)[p].point == p,
    ensures
        by_position(final(table)@) == joined(by_position(old(table)@), p, d, q),
{
    match look(table, p) {
        Some(node) => {
            let mut node = node;
            node.children.insert(d, q);
            put(table, node);
        },
        None => {},
    }
}

/// The node at `p` has `q` to its south.
spec fn south_link(t: Map<Point, Node>, p: Point, q: Point) -> bool {
    t.contains_key(p) && t[p].children.south == Some(q)
}

/// The node at `q` has `p` to its north.
spec fn north_link(t: Map<Point, Node>, q: Point, p: Point) -> bool {
    t.contains_key(q) && t[q].children.north == Some(p)
}

/// The node at `p` has `q` to its east.
spec fn east_link(t: Map<Point, Node>, p: Point, q: Point) -> bool {
    t.contains_key(p) && t[p].children.east == Some(q)
}

/// The node at `q` has `p` to its west.
spec fn west_link(t: Map<Point, Node>, q: Point, p: Point) -> bool {
    t.contains_key(q) && t[q].children.west == Some(p)
}

/// `p` comes before (`x`, `y`) in raster order.
spec fn before(p: Point, x: int, y: int) -> bool {
    p.y < y || (p.y == y && p.x < x)
}

/// The node `n` filed at `p` has what is fixed when it is placed.
spec fn settled(g: Raster, n: Node, p: Point) -> bool {
    &&& n.point == p
    &&& n.start == (entrance(g) == Some(p))
    &&& !n.end
    &&& n.children.north == north_of(g, p)
    &&& n.children.west == west_of(g, p)
}

/// `top` is what hangs over column `c` when the scan stands at (`x`, `y`),
/// and nothing is joined to it from below yet.
spec fn hangs(g: Raster, t: Map<Point, Node>, top: Option<Point>, c: int, x: int, y: int) -> bool {
    &&& top == (if c < x {
        ceiling(g, c, y + 1)
    } else {
        ceiling(g, c, y)
    })
    &&& top matches Some(q) ==> t.contains_key(q) && t[q].children.south is None
}

/// The state of the scan when every pixel before (`x`, `y`) is dealt with.
spec fn scanned(
    g: Raster,
    t: Map<Point, Node>,
    tops: Seq<Option<Point>>,
    left: Option<Point>,
    x: int,
    y: int,
) -> bool {
    &&& g.wf()
    &&& 0 <= x
    &&& 1 <= y
    &&& tops.len() == g.width
    &&& forall|p: Point| #[trigger]
        t.contains_key(p) <==> (entrance(g) == Some(p) || (is_junction(g, p) && before(p, x, y)))
    &&& forall|p: Point| #[trigger] t.contains_key(p) ==> settled(g, t[p], p)
    &&& forall|p: Point, q: Point|
        #![trigger south_link(t, p, q)]
        #![trigger north_link(t, q, p)]
        south_link(t, p, q) <==> north_link(t, q, p)
    &&& forall|p: Point, q: Point|
        #![trigger east_link(t, p, q)]
        #![trigger west_link(t, q, p)]
        east_link(t, p, q) <==> west_link(t, q, p)
    &&& forall|c: int| 0 <= c < g.width ==> hangs(g, t, #[trigger] tops[c], c, x, y)
    &&& left == anchor(g, x, y)
    &&& left matches Some(l) ==> t.contains_key(l) && t[l].children.east is None
}

/// The border column on the left holds no node.
proof fn lemma_row_start(g: Raster, t: Map<Point, Node>, tops: Seq<Option<Point>>, y: int)
    requires
        scanned(g, t, tops, None, 0, y),
    ensures
        scanned(g, t, tops, None, 1, y),
{
    assert forall|c: int| 0 <= c < g.width implies hangs(g, t, #[trigger] tops[c], c, 1, y) by {
        assert(hangs(g, t, tops[c], c, 0, y));
    }
}

/// The border column on the right holds no node: a row that is scanned
/// up to it is done.
proof fn lemma_row_end(
    g: Raster,
    t: Map<Point, Node>,
    tops: Seq<Option<Point>>,
    left: Option<Point>,
    x: int,
    y: int,
)
    requires
        scanned(g, t, tops, left, x, y),
        x >= 1,
        x >= g.width - 1,
    ensures
        scanned(g, t, tops, None, 0, y + 1),
{
    assert forall|c: int| 0 <= c < g.width implies hangs(g, t, #[trigger] tops[c], c, 0, y + 1) by {
        assert(hangs(g, t, tops[c], c, x, y));
    }
}

/// Deals with the interior pixel (`x`, `y`): places a node there if the
/// pattern of the pixel and its neighbours asks for one, joins it to the
/// open corridor on its left and to what hangs over its column, and
/// brings `left` and `tops` up to date.
fn settle(
    image: &Image,
    nodes: &mut FxHashMap<u64, Node>,
    tops: &mut Vec<Option<Point>>,
    left: &mut Option<Point>,
    prev: bool,
    current: bool,
    next: bool,
    x: u32,
    y: u32,
) -> (placed: bool)
    requires
        interior_pixel(image@, x as int, y as int),
        prev == west_open(image@, x as int, y as int),
        current == image@.is_path(x as int, y as int),
        next == east_open(image@, x as int, y as int),
        scanned(image@, by_position(old(nodes)@), old(tops)@, *old(left), x as int, y as int),
    ensures
        scanned(image@, by_position(final(nodes)@), final(tops)@, *final(left), x + 1, y as int),
        placed == junction(image@, x as int, y as int),
{
    let ghost g = image@;
    let ghost t0 = by_position(nodes@);
    let ghost tops0 = tops@;
    let ghost left0 = *left;
    let ghost xi = x as int;
    let ghost yi = y as int;
    proof {
        lemma_goal(g);
        lemma_entrance(g);
    }
    if !current {
        proof {
            assert forall|c: int| 0 <= c < g.width implies hangs(
                g,
                t0,
                #[trigger] tops0[c],
                c,
                xi + 1,
                yi,
            ) by {
                assert(hangs(g, t0, tops0[c], c, xi, yi));
            }
        }
        return false;
    }
    let above = path_above(x, y, image);
    let below = path_below(x, y, image);
    let make = if prev {
        if next {
            above || below
        } else {
            true
        }
    } else if next {
        true
    } else {
        wall_above(x, y, image) || wall_below(x, y, image)
    };
    assert(make == junction(g, xi, yi));
    if !make {
        proof {
            assert forall|c: int| 0 <= c < g.width implies hangs(
                g,
                t0,
                #[trigger] tops0[c],
                c,
                xi + 1,
                yi,
            ) by {
                assert(hangs(g, t0, tops0[c], c, xi, yi));
            }
        }
        return false;
    }
    let here = Point::at(x, y);
    let mut node = Node::at(x, y);
    assert(!t0.contains_key(here));
    assert(hangs(g, t0, tops0[xi], xi, xi, yi));
    proof {
        lemma_anchor(g, xi, yi);
        lemma_ceiling(g, xi, yi);
    }
    if prev {
        match *left {
            Some(l) => {
                node.children.insert(Direction::West, l);
                join(nodes, l, Direction::East, here);
            },
            None => {},
        }
    }
    let ghost t1 = by_position(nodes@);
    if above {
        match tops[x as usize] {
            Some(c) => {
                node.children.insert(Direction::North, c);
                join(nodes, c, Direction::South, here);
            },
            None => {},
        }
    }
    let ghost t2 = by_position(nodes@);
    put(nodes, node);
    let ghost t3 = by_position(nodes@);
    tops.set(
        x as usize,
        if below {
            Some(here)
        } else {
            None
        },
    );
    if next {
        *left = Some(here);
    } else if prev {
        *left = None;
    }
    proof {
        assert(settled(g, node, here));
        assert forall|p: Point| #[trigger] t3.contains_key(p) implies settled(g, t3[p], p) by {
            if p != here {
                assert(t0.contains_key(p));
            }
        }
        assert forall|p: Point, q: Point|
            #![trigger south_link(t3, p, q)]
            #![trigger north_link(t3, q, p)]
            south_link(t3, p, q) <==> north_link(t3, q, p) by {
            assert(south_link(t0, p, q) <==> north_link(t0, q, p));
            assert(south_link(t0, p, here) <==> north_link(t0, here, p));
            assert(south_link(t0, here, q) <==> north_link(t0, q, here));
        }
        assert forall|p: Point, q: Point|
            #![trigger east_link(t3, p, q)]
            #![trigger west_link(t3, q, p)]
            east_link(t3, p, q) <==> west_link(t3, q, p) by {
            assert(east_link(t0, p, q) <==> west_link(t0, q, p));
            assert(east_link(t0, p, here) <==> west_link(t0, here, p));
            assert(east_link(t0, here, q) <==> west_link(t0, q, here));
        }
        assert forall|c: int| 0 <= c < g.width implies hangs(
            g,
            t3,
            #[trigger] tops@[c],
            c,
            xi + 1,
            yi,
        ) by {
            assert(hangs(g, t0, tops0[c], c, xi, yi));
            lemma_ceiling(g, c, yi);
            lemma_ceiling(g, c, yi + 1);
        }
    }
    true
}

/// The table holds `n` nodes.
spec fn counted(t: Map<Point, Node>, n: nat) -> bool {
    t.dom().finite() && t.dom().len() == n
}

/// A table of the scan with one node more holds one more node, and no
/// more nodes than the picture has pixels.
proof fn lemma_counted(
    g: Raster,
    t: Map<Point, Node>,
    t2: Map<Point, Node>,
    p: Point,
    n: nat,
)
    requires
        g.wf(),
        counted(t, n),
        !t.contains_key(p),
        forall|q: Point| #[trigger] t2.contains_key(q) <==> q == p || t.contains_key(q),
        forall|q: Point| #[trigger] t2.contains_key(q) ==> q.x < g.width && q.y < g.height,
    ensures
        counted(t2, n + 1),
        n + 1 <= g.width * g.height,
{
    assert(t2.dom() =~= t.dom().insert(p));
    crate::graph::lemma_grid(g.width, g.height);
    vstd::set_lib::lemma_len_subset(t2.dom(), crate::graph::grid(g.width, g.height));
}

/// The nodes that the scan has placed lie inside the picture.
proof fn lemma_scanned_inside(
    g: Raster,
    t: Map<Point, Node>,
    tops: Seq<Option<Point>>,
    left: Option<Point>,
    x: int,
    y: int,
)
    requires
        scanned(g, t, tops, left, x, y),
    ensures
        forall|q: Point| #[trigger] t.contains_key(q) ==> q.x < g.width && q.y < g.height,
{
    lemma_entrance(g);
}

/// Inside the one-pixel border, where the scan places nodes.
spec fn interior_pixel(g: Raster, x: int, y: int) -> bool {
    g.wf() && 1 <= x < g.width - 1 && 1 <= y < g.height - 1
}

/// Finds the entrance, the first path pixel of the top row, files its
/// node and lets it hang over its column.
fn get_entrance(
    image: &Image,
    nodes: &mut FxHashMap<u64, Node>,
    top_nodes: &mut Vec<Option<Point>>,
) -> (start: Option<Point>)
    requires
        by_position(old(nodes)@) =~= Map::empty(),
        old(top_nodes)@.len() == image@.width,
        forall|c: int| 0 <= c < old(top_nodes)@.len() ==> old(top_nodes)@[c] is None,
    ensures
        start == entrance(image@),
        scanned(image@, by_position(final(nodes)@), final(top_nodes)@, None, 0, 1),
{
    let ghost g = image@;
    let width = image.width();
    proof {
        lemma_first_path(g, 0, 0);
        lemma_goal(g);
    }
    let mut x: u32 = 0;
    while x < width
        invariant
            x <= width,
            width == g.width,
            g == image@,
            g.wf(),
            forall|i: int| 0 <= i < x ==> !g.is_path(i, 0),
            by_position(nodes@) =~= Map::empty(),
            top_nodes@.len() == g.width,
            forall|c: int| 0 <= c < top_nodes@.len() ==> top_nodes@[c] is None,
        decreases width - x,
    {
        if is_path(x, 0, image) {
            let node = Node::start(x, 0);
            put(nodes, node);
            top_nodes.set(x as usize, Some(Point::at(x, 0)));
            proof {
                let t = by_position(nodes@);
                lemma_first_path(g, 0, 0);
                lemma_goal(g);
                assert forall|c: int| 0 <= c < g.width implies hangs(
                    g,
                    t,
                    #[trigger] top_nodes@[c],
                    c,
                    0,
                    1,
                ) by {}
            }
            return Some(Point::at(x, 0));
        }
        x = x + 1;
    }
    proof {
        let t = by_position(nodes@);
        assert forall|c: int| 0 <= c < g.width implies hangs(
            g,
            t,
            #[trigger] top_nodes@[c],
            c,
            0,
            1,
        ) by {}
    }
    None
}

/// The graph that a finished scan leaves: the table `t`, with the
/// entrance and the exit as the picture has them.
spec fn finished(g: Raster, t: Map<Point, Node>) -> Graph {
    Graph { width: g.width, height: g.height, nodes: t, start: entrance(g), exit: goal(g) }
}

/// The table after the exit node is filed and joined to what hangs over it.
spec fn with_exit(t: Map<Point, Node>, e: Point, above: Option<Point>) -> Map<Point, Node> {
    match above {
        Some(c) => joined(t, c, Direction::South, e).insert(
            e,
            Node {
                start: false,
                end: true,
                point: e,
                children: crate::node::Children::empty().spec_insert(Direction::North, c),
            },
        ),
        None => t.insert(
            e,
            Node { start: false, end: true, point: e, children: crate::node::Children::empty() },
        ),
    }
}

/// After the last row the table, with the exit filed and joined, is the
/// graph of the picture.
proof fn lemma_finished(g: Raster, t: Map<Point, Node>, tops: Seq<Option<Point>>, y: int)
    requires
        scanned(g, t, tops, None, 0, y),
        y == (if g.height >= 2 {
            g.height - 1
        } else {
            1
        }),
    ensures
        ({
            let end = match goal(g) {
                Some(e) => with_exit(t, e, tops[e.x as int]),
                None => t,
            };
            graph_of(g, finished(g, end))
        }),
{
    lemma_goal(g);
    lemma_entrance(g);
    let end = match goal(g) {
        Some(e) => with_exit(t, e, tops[e.x as int]),
        None => t,
    };
    let m = finished(g, end);
    if let Some(e) = goal(g) {
        assert(hangs(g, t, tops[e.x as int], e.x as int, 0, y));
        lemma_ceiling(g, e.x as int, y);
        assert(!t.contains_key(e));
    }
    assert forall|p: Point| #[trigger] m.has(p) implies settled_at_end(g, end[p], p) by {
        if goal(g) != Some(p) {
            assert(t.contains_key(p));
            assert(settled(g, t[p], p));
        }
    }
    assert forall|p: Point, q: Point|
        #![trigger south_link(end, p, q)]
        #![trigger north_link(end, q, p)]
        south_link(end, p, q) <==> north_link(end, q, p) by {
        assert(south_link(t, p, q) <==> north_link(t, q, p));
        if let Some(e) = goal(g) {
            assert(south_link(t, p, e) <==> north_link(t, e, p));
            assert(south_link(t, e, q) <==> north_link(t, q, e));
        }
    }
    assert forall|p: Point, q: Point|
        #![trigger east_link(end, p, q)]
        #![trigger west_link(end, q, p)]
        east_link(end, p, q) <==> west_link(end, q, p) by {
        assert(east_link(t, p, q) <==> west_link(t, q, p));
        if let Some(e) = goal(g) {
            assert(east_link(t, p, e) <==> west_link(t, e, p));
            assert(east_link(t, e, q) <==> west_link(t, q, e));
        }
    }
    assert forall|p: Point| #[trigger] m.has(p) <==> is_node(g, p) by {
        assert(t.contains_key(p) <==> (entrance(g) == Some(p) || (is_junction(g, p) && before(
            p,
            0,
            y,
        ))));
    }
    assert forall|p: Point, d: Direction| m.has(p) && (#[trigger] m.toward(p, d)) is Some implies {
        let q = m.toward(p, d)->Some_0;
        &&& m.has(q)
        &&& ahead(p, d, q)
        &&& m.toward(q, d.spec_opposite()) == Some(p)
    } by {
        let q = m.toward(p, d)->Some_0;
        assert(settled_at_end(g, end[p], p));
        match d {
            Direction::North => {
                assert(north_link(end, p, q));
                assert(south_link(end, q, p));
                lemma_ceiling(g, p.x as int, p.y as int);
            },
            Direction::South => {
                assert(south_link(end, p, q));
                assert(north_link(end, q, p));
                assert(settled_at_end(g, end[q], q));
                lemma_ceiling(g, q.x as int, q.y as int);
            },
            Direction::West => {
                assert(west_link(end, p, q));
                assert(east_link(end, q, p));
                lemma_anchor(g, p.x as int, p.y as int);
            },
            Direction::East => {
                assert(east_link(end, p, q));
                assert(west_link(end, q, p));
                assert(settled_at_end(g, end[q], q));
                lemma_anchor(g, q.x as int, q.y as int);
            },
        }
    }
}

/// The node `n` filed at `p` in the finished graph has its role and its
/// northern and western neighbour from the picture.
spec fn settled_at_end(g: Raster, n: Node, p: Point) -> bool {
    &&& n.point == p
    &&& n.start == (entrance(g) == Some(p))
    &&& n.end == (goal(g) == Some(p))
    &&& n.children.north == north_of(g, p)
    &&& n.children.west == west_of(g, p)
}

/// Finds the exit, the first path pixel of the bottom row, files its
/// node and joins it to what hangs over its column.
fn get_exit(
    image: &Image,
    nodes: &mut FxHashMap<u64, Node>,
    top_nodes: &Vec<Option<Point>>,
) -> (exit: Option<Point>)
    requires
        image@.height >= 2,
        scanned(image@, by_position(old(nodes)@), top_nodes@, None, 0, image@.height - 1),
    ensures
        exit == goal(image@),
        by_position(final(nodes)@) == (match goal(image@) {
            Some(e) => with_exit(by_position(old(nodes)@), e, top_nodes@[e.x as int]),
            None => by_position(old(nodes)@),
        }),
{
    let ghost g = image@;
    let width = image.width();
    let last_row = image.height() - 1;
    let mut x: u32 = 0;
    while x < width
        invariant
            x <= width,
            width == g.width,
            last_row == g.height - 1,
            g == image@,
            g.wf(),
            g.height >= 2,
            forall|i: int| 0 <= i < x ==> !g.is_path(i, last_row as int),
            *nodes == *old(nodes),
            scanned(g, by_position(nodes@), top_nodes@, None, 0, g.height - 1),
        decreases width - x,
    {
        if is_path(x, last_row, image) {
            let current = Point::at(x, last_row);
            let mut exit_node = Node::exit(current.x, current.y);
            proof {
                lemma_first_path(g, g.height - 1, 0);
                assert(goal(g) == Some(current));
                let t = by_position(nodes@);
                assert(hangs(g, t, top_nodes@[x as int], x as int, 0, g.height - 1));
                assert(forall|p: Point| #[trigger] t.contains_key(p) ==> settled(g, t[p], p));
            }
            match top_nodes[x as usize] {
                Some(above) => {
                    exit_node.children.insert(Direction::North, above);
                    join(nodes, above, Direction::South, current);
                },
                None => {},
            }
            put(nodes, exit_node);
            return Some(current);
        }
        x = x + 1;
    }
    proof {
        lemma_first_path(g, g.height - 1, 0);
    }
    None
}

/// A maze as a graph: the entrance, the exit, and the junctions, corners
/// and dead ends between them, each at its pixel.
pub struct Maze {
    width: u32,
    height: u32,
    start: Option<Point>,
    exit: Option<Point>,
    count: usize,
    data: FxHashMap<u64, Node>,
}

impl View for Maze {
    type V = Graph;

    closed spec fn view(&self) -> Graph {
        Graph {
            width: self.width as nat,
            height: self.height as nat,
            nodes: by_position(self.data@),
            start: self.start,
            exit: self.exit,
        }
    }
}

impl Maze {
    #[verifier::type_invariant]
    closed spec fn inv(self) -> bool {
        self@.wf() && counted(self@.nodes, self.count as nat)
    }

    /// Builds the graph of a maze image in one pass over its pixels, row
    /// by row. The result is the graph that `graph_of` describes.
    pub fn from_image(image: &Image) -> (maze: Maze)
        ensures
            graph_of(image@, maze@),
    {
        let ghost g = image@;
        let len = image.len();
        let room = if len / 6 < ROOM {
            len / 6
        } else {
            ROOM
        };
        let mut nodes = table_new(room);
        let width = image.width();
        let height = image.height();
        let mut top_nodes: Vec<Option<Point>> = Vec::new();
        let mut c: u32 = 0;
        while c < width
            invariant
                c <= width,
                top_nodes@.len() == c,
                forall|i: int| 0 <= i < top_nodes@.len() ==> top_nodes@[i] is None,
            decreases width - c,
        {
            top_nodes.push(None);
            c = c + 1;
        }
        let start = get_entrance(image, &mut nodes, &mut top_nodes);
        let mut count: usize = 0;
        proof {
            lemma_entrance(g);
            lemma_scanned_inside(g, by_position(nodes@), top_nodes@, None, 0, 1);
            if let Some(e) = start {
                lemma_counted(g, Map::empty(), by_position(nodes@), e, 0);
            } else {
                assert(by_position(nodes@).dom() =~= Set::empty());
            }
        }
        if start.is_some() {
            count = 1;
        }
        let mut y: u32 = 1;
        while y < height && y + 1 < height
            invariant
                1 <= y,
                height >= 2 ==> y <= height - 1,
                height < 2 ==> y == 1,
                g == image@,
                g.wf(),
                width == g.width,
                height == g.height,
                len == g.width * g.height,
                scanned(g, by_position(nodes@), top_nodes@, None, 0, y as int),
                counted(by_position(nodes@), count as nat),
            decreases height - y,
        {
            let mut current = false;
            let mut next = look_ahead(0, y, image);
            let mut left_node: Option<Point> = None;
            let mut x: u32 = 1;
            proof {
                lemma_row_start(g, by_position(nodes@), top_nodes@, y as int);
            }
            while x < width && x + 1 < width
                invariant
                    1 <= x,
                    width >= 2 ==> x <= width - 1,
                    1 <= y < height - 1,
                    g == image@,
                    g.wf(),
                    width == g.width,
                    height == g.height,
                    current == west_open(g, x as int, y as int),
                    next == g.is_path(x as int, y as int),
                    len == g.width * g.height,
                    scanned(g, by_position(nodes@), top_nodes@, left_node, x as int, y as int),
                    counted(by_position(nodes@), count as nat),
                decreases width - x,
            {
                let prev = current;
                current = next;
                next = look_ahead(x, y, image);
                let ghost t0 = by_position(nodes@);
                let placed = settle(
                    image,
                    &mut nodes,
                    &mut top_nodes,
                    &mut left_node,
                    prev,
                    current,
                    next,
                    x,
                    y,
                );
                if placed {
                    proof {
                        lemma_scanned_inside(
                            g,
                            by_position(nodes@),
                            top_nodes@,
                            left_node,
                            x + 1,
                            y as int,
                        );
                        lemma_entrance(g);
                        lemma_counted(g, t0, by_position(nodes@), pt(x as int, y as int), count as nat);
                    }
                    count = count + 1;
                } else {
                    assert(by_position(nodes@).dom() =~= t0.dom());
                }
                x = x + 1;
            }
            proof {
                lemma_row_end(g, by_position(nodes@), top_nodes@, left_node, x as int, y as int);
            }
            y = y + 1;
        }
        let ghost t = by_position(nodes@);
        let exit = if height > 1 {
            get_exit(image, &mut nodes, &top_nodes)
        } else {
            None
        };
        proof {
            lemma_goal(g);
            lemma_finished(g, t, top_nodes@, y as int);
            if let Some(e) = exit {
                lemma_entrance(g);
                lemma_scanned_inside(g, t, top_nodes@, None, 0, y as int);
                lemma_counted(g, t, by_position(nodes@), e, count as nat);
            }
        }
        if exit.is_some() {
            count = count + 1;
        }
        Maze { width, height, start, exit, count, data: nodes }
    }

    /// The width of the image the maze was read from.
    pub fn width(&self) -> (w: u32)
        ensures
            w == self@.width,
            self@.wf(),
    {
        proof {
            use_type_invariant(self);
        }
        self.width
    }

    /// The height of the image the maze was read from.
    pub fn height(&self) -> (h: u32)
        ensures
            h == self@.height,
            self@.wf(),
    {
        proof {
            use_type_invariant(self);
        }
        self.height
    }

    /// The number of nodes.
    pub fn len(&self) -> (n: usize)
        ensures
            n == self@.nodes.dom().len(),
            self@.nodes.dom().finite(),
            self@.wf(),
    {
        proof {
            use_type_invariant(self);
        }
        self.count
    }

    /// The position of the entrance, if the maze has one.
    pub fn entrance(&self) -> (p: Option<Point>)
        ensures
            p == self@.start,
            self@.wf(),
    {
        proof {
            use_type_invariant(self);
        }
        self.start
    }

    /// The position of the exit, if the maze has one.
    pub fn exit(&self) -> (p: Option<Point>)
        ensures
            p == self@.exit,
            self@.wf(),
    {
        proof {
            use_type_invariant(self);
        }
        self.exit
    }

    /// The node at position `p`, whatever its role.
    pub fn node_at(&self, p: Point) -> (r: Option<Node>)
        ensures
            r == (if self@.has(p) {
                Some(self@.nodes[p])
            } else {
                None
            }),
            self@.wf(),
    {
        proof {
            use_type_invariant(self);
        }
        look(&self.data, p)
    }

    /// The node filed under `key`: the entrance, the exit, or the regular
    /// node at a position.
    pub fn get(&self, key: &NodeType) -> (r: Option<Node>)
        ensures
            r == self@.lookup(*key),
            self@.wf(),
    {
        proof {
            use_type_invariant(self);
        }
        match key {
            NodeType::Start => match self.start {
                Some(p) => look(&self.data, p),
                None => None,
            },
            NodeType::Exit => match self.exit {
                Some(p) => look(&self.data, p),
                None => None,
            },
            NodeType::Path(p) => match look(&self.data, *p) {
                Some(node) => if node.start || node.end {
                    None
                } else {
                    Some(node)
                },
                None => None,
            },
        }
    }
}

} // verus!
