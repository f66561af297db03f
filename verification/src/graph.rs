//! The maze graph as a mathematical object: nodes by position, walks
//! along edges, and their cost.

use crate::node::{manhattan, Direction, Node, NodeType, Point};
use vstd::prelude::*;

verus! {

/// Whether `q` lies in direction `d` from `p`, on the same row or column.
pub open spec fn ahead(p: Point, d: Direction, q: Point) -> bool {
    match d {
        Direction::North => q.x == p.x && q.y < p.y,
        Direction::South => q.x == p.x && q.y > p.y,
        Direction::East => q.y == p.y && q.x > p.x,
        Direction::West => q.y == p.y && q.x < p.x,
    }
}

/// A maze graph: which positions hold a node, and where the entrance and
/// the exit are.
pub struct Graph {
    pub width: nat,
    pub height: nat,
    pub nodes: Map<Point, Node>,
    pub start: Option<Point>,
    pub exit: Option<Point>,
}

impl Graph {
    /// There is a node at `p`.
    pub open spec fn has(self, p: Point) -> bool {
        self.nodes.contains_key(p)
    }

    /// The neighbour of the node at `p` in direction `d`.
    pub open spec fn toward(self, p: Point, d: Direction) -> Option<Point> {
        self.nodes[p].children.spec_get(d)
    }

    /// Every node is filed under its own position, inside the image, and
    /// carries the role the graph gives its position.
    pub open spec fn nodes_wf(self) -> bool {
        forall|p: Point| #[trigger]
            self.has(p) ==> {
                &&& self.nodes[p].point == p
                &&& p.x < self.width
                &&& p.y < self.height
                &&& (self.nodes[p].start <==> self.start == Some(p))
                &&& (self.nodes[p].end <==> self.exit == Some(p))
            }
    }

    /// Every edge leads to a node that lies in the edge's direction and
    /// that has the reverse edge.
    pub open spec fn edges_wf(self) -> bool {
        forall|p: Point, d: Direction|
            self.has(p) && (#[trigger] self.toward(p, d)) is Some ==> {
                let q = self.toward(p, d)->Some_0;
                &&& self.has(q)
                &&& ahead(p, d, q)
                &&& self.toward(q, d.spec_opposite()) == Some(p)
            }
    }

    /// The graph is well formed: it fits an image, its nodes and edges are
    /// in order, and the entrance and the exit are two of its nodes.
    pub open spec fn wf(self) -> bool {
        &&& self.width <= u32::MAX
        &&& self.height <= u32::MAX
        &&& self.nodes_wf()
        &&& self.edges_wf()
        &&& self.start matches Some(s) ==> self.has(s)
        &&& self.exit matches Some(e) ==> self.has(e)
        &&& self.start is Some ==> self.start != self.exit
    }

    /// The node filed under `key`: the entrance, the exit, or the regular
    /// node at a position.
    pub open spec fn lookup(self, key: NodeType) -> Option<Node> {
        match key {
            NodeType::Start => match self.start {
                Some(p) => Some(self.nodes[p]),
                None => None,
            },
            NodeType::Exit => match self.exit {
                Some(p) => Some(self.nodes[p]),
                None => None,
            },
            NodeType::Path(p) => if self.has(p) && self.start != Some(p) && self.exit != Some(p) {
                Some(self.nodes[p])
            } else {
                None
            },
        }
    }

    /// There is an edge from the node at `a` to `b`.
    pub open spec fn edge(self, a: Point, b: Point) -> bool {
        self.has(a) && exists|d: Direction| self.toward(a, d) == Some(b)
    }

    /// The step from place `i` of `w` to the next follows an edge.
    pub open spec fn step(self, w: Seq<Point>, i: int) -> bool {
        self.edge(w[i], w[i + 1])
    }

    /// `w` starts at a node and follows an edge at every step.
    pub open spec fn is_walk(self, w: Seq<Point>) -> bool {
        &&& w.len() > 0
        &&& self.has(w[0])
        &&& forall|i: int| 0 <= i < w.len() - 1 ==> #[trigger] self.step(w, i)
    }

    /// `w` is a walk from `a` to `b`.
    pub open spec fn connects(self, w: Seq<Point>, a: Point, b: Point) -> bool {
        self.is_walk(w) && w[0] == a && w[w.len() - 1] == b
    }

    /// Some walk leads from `a` to `b`.
    pub open spec fn reachable(self, a: Point, b: Point) -> bool {
        exists|w: Seq<Point>| self.connects(w, a, b)
    }

    /// The entrance and the exit exist and a walk leads from one to the other.
    pub open spec fn solvable(self) -> bool {
        &&& self.start is Some
        &&& self.exit is Some
        &&& self.reachable(self.start->Some_0, self.exit->Some_0)
    }
}

/// The length in pixels of a sequence of positions: the sum of the
/// Manhattan distances of its steps.
pub open spec fn cost(w: Seq<Point>) -> nat
    decreases w.len(),
{
    if w.len() <= 1 {
        0
    } else {
        cost(w.drop_last()) + manhattan(w[w.len() - 2], w[w.len() - 1])
    }
}

/// The place of the pixel `p` in an image of the given width, counted
/// row by row.
pub open spec fn offset(width: nat, p: Point) -> int {
    p.y * width + p.x
}

/// The positions of an image of the given size.
pub open spec fn grid(width: nat, height: nat) -> Set<Point> {
    Set::new(|p: Point| p.x < width && p.y < height)
}

/// An image has as many positions as its width times its height.
pub proof fn lemma_grid(width: nat, height: nat)
    requires
        width <= u32::MAX,
        height <= u32::MAX,
    ensures
        grid(width, height).finite(),
        grid(width, height).len() == width * height,
{
    let w = width as int;
    let h = height as int;
    assert(0 <= w * h) by (nonlinear_arith)
        requires
            0 <= w,
            0 <= h,
    ;
    let range = vstd::set_lib::set_int_range(0, w * h);
    vstd::set_lib::lemma_int_range(0, w * h);
    let f = |i: int| Point { x: (i % w) as u32, y: (i / w) as u32 };
    if w == 0 {
        assert(grid(width, height) =~= Set::empty());
    } else {
        assert forall|i: int| range.contains(i) implies 0 <= i % w < w && 0 <= i / w < h by {
            vstd::arithmetic::div_mod::lemma_fundamental_div_mod(i, w);
            vstd::arithmetic::div_mod::lemma_mod_bound(i, w);
            if i / w >= h {
                assert(w * (i / w) >= w * h) by (nonlinear_arith)
                    requires
                        w > 0,
                        i / w >= h,
                ;
            }
            if i / w < 0 {
                assert(w * (i / w) <= -w) by (nonlinear_arith)
                    requires
                        w > 0,
                        i / w < 0,
                ;
            }
        }
        assert(vstd::relations::injective_on(f, range)) by {
            assert forall|i: int, j: int|
                range.contains(i) && range.contains(j) && #[trigger] f(i) == #[trigger] f(
                    j,
                ) implies i == j by {
                vstd::arithmetic::div_mod::lemma_fundamental_div_mod(i, w);
                vstd::arithmetic::div_mod::lemma_fundamental_div_mod(j, w);
            }
        }
        assert(range.map(f) =~= grid(width, height)) by {
            assert forall|p: Point| grid(width, height).contains(p) implies range.map(f).contains(
                p,
            ) by {
                crate::img::lemma_offset_in_bounds(p.x as int, p.y as int, w, h);
                let i = p.y * w + p.x;
                assert(range.contains(i));
            }
        }
        vstd::set_lib::lemma_map_size(range, grid(width, height), f);
    }
}

impl Graph {
    /// A walk with one more step is a walk.
    pub proof fn lemma_walk_push(self, w: Seq<Point>, a: Point, b: Point, c: Point)
        requires
            self.connects(w, a, b),
            self.edge(b, c),
        ensures
            self.connects(w.push(c), a, c),
            cost(w.push(c)) == cost(w) + manhattan(b, c),
    {
        let v = w.push(c);
        assert forall|i: int| 0 <= i < v.len() - 1 implies #[trigger] self.step(v, i) by {
            if i < w.len() - 1 {
                assert(self.step(w, i));
            }
        }
        assert(v.drop_last() =~= w);
    }

    /// A walk of more than one node is a walk to the node before its last,
    /// and a step from there.
    pub proof fn lemma_walk_pop(self, w: Seq<Point>, a: Point, c: Point)
        requires
            self.connects(w, a, c),
            w.len() > 1,
        ensures
            self.connects(w.drop_last(), a, w[w.len() - 2]),
            self.edge(w[w.len() - 2], c),
            cost(w) == cost(w.drop_last()) + manhattan(w[w.len() - 2], c),
    {
        let v = w.drop_last();
        assert forall|i: int| 0 <= i < v.len() - 1 implies #[trigger] self.step(v, i) by {
            assert(self.step(w, i));
        }
        assert(self.step(w, w.len() - 2));
    }

    /// Every node of a walk in a well-formed graph is a node of the graph.
    pub proof fn lemma_walk_nodes(self, w: Seq<Point>, i: int)
        requires
            self.wf(),
            self.is_walk(w),
            0 <= i < w.len(),
        ensures
            self.has(w[i]),
        decreases i,
    {
        if i > 0 {
            self.lemma_walk_nodes(w, i - 1);
            assert(self.step(w, i - 1));
        }
    }
}

} // verus!
