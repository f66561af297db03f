//! Pixel queries on an image and small helpers shared by the solvers.

use crate::algorithms::Algorithm;
use crate::img::Image;
use crate::maze::Maze;
use crate::node::{manhattan, Node, NodeType, Point};
use vstd::prelude::*;

verus! {

/// Whether the pixel to the right of (`x`, `y`) is a path pixel.
pub fn look_ahead(x: u32, y: u32, image: &Image) -> (b: bool)
    requires
        x < u32::MAX,
    ensures
        b == image@.is_path(x + 1, y as int),
        image@.wf(),
{
    is_path(x + 1, y, image)
}

/// Whether the pixel above (`x`, `y`) is a path pixel.
pub fn path_above(x: u32, y: u32, image: &Image) -> (b: bool)
    requires
        y > 0,
    ensures
        b == image@.is_path(x as int, y - 1),
        image@.wf(),
{
    is_path(x, y - 1, image)
}

/// Whether the pixel below (`x`, `y`) is a path pixel.
pub fn path_below(x: u32, y: u32, image: &Image) -> (b: bool)
    requires
        y < u32::MAX,
    ensures
        b == image@.is_path(x as int, y + 1),
        image@.wf(),
{
    is_path(x, y + 1, image)
}

/// Whether (`x`, `y`) lies inside the image and is a path pixel.
pub fn is_path(x: u32, y: u32, image: &Image) -> (b: bool)
    ensures
        b == image@.is_path(x as int, y as int),
        image@.wf(),
{
    match image.get_pixel_checked(x, y) {
        Some(colour) => colour == crate::img::PATHWAY,
        None => false,
    }
}

/// Whether the pixel above (`x`, `y`) is a wall pixel.
pub fn wall_above(x: u32, y: u32, image: &Image) -> (b: bool)
    requires
        y > 0,
    ensures
        b == image@.is_wall(x as int, y - 1),
        image@.wf(),
{
    is_wall(x, y - 1, image)
}

/// Whether the pixel below (`x`, `y`) is a wall pixel.
pub fn wall_below(x: u32, y: u32, image: &Image) -> (b: bool)
    requires
        y < u32::MAX,
    ensures
        b == image@.is_wall(x as int, y + 1),
        image@.wf(),
{
    is_wall(x, y + 1, image)
}

/// Whether (`x`, `y`) lies inside the image and is a wall pixel.
pub fn is_wall(x: u32, y: u32, image: &Image) -> (b: bool)
    ensures
        b == image@.is_wall(x as int, y as int),
        image@.wf(),
{
    match image.get_pixel_checked(x, y) {
        Some(colour) => colour == crate::img::WALL,
        None => false,
    }
}

/// Manhattan distance between two positions.
pub fn get_dist(current: &Point, next: &Point) -> (d: u32)
    requires
        manhattan(*current, *next) <= u32::MAX,
    ensures
        d == manhattan(*current, *next),
{
    let dx: u32 = if current.x <= next.x {
        next.x - current.x
    } else {
        current.x - next.x
    };
    let dy: u32 = if current.y <= next.y {
        next.y - current.y
    } else {
        current.y - next.y
    };
    dx + dy
}

/// The strategies asked for on the command line, one flag each.
#[derive(Debug, Copy, Clone)]
pub struct Cli {
    pub dijkstra: bool,
    pub a_star: bool,
    pub left_turn: bool,
    pub breadth_first: bool,
    pub depth_first: bool,
}

/// The strategy that a set of flags selects: the first that is set, in
/// this order.
pub open spec fn chosen(cli: Cli) -> Algorithm {
    if cli.dijkstra {
        Algorithm::Dijkstra
    } else if cli.a_star {
        Algorithm::AStar
    } else if cli.left_turn {
        Algorithm::LeftTurn
    } else if cli.breadth_first {
        Algorithm::BreadthFirst
    } else if cli.depth_first {
        Algorithm::DepthFirst
    } else {
        Algorithm::Unset
    }
}

/// The strategy that the flags select.
pub fn get_algorithm(cli: &Cli) -> (a: Algorithm)
    ensures
        a == chosen(*cli),
{
    if cli.dijkstra {
        Algorithm::Dijkstra
    } else if cli.a_star {
        Algorithm::AStar
    } else if cli.left_turn {
        Algorithm::LeftTurn
    } else if cli.breadth_first {
        Algorithm::BreadthFirst
    } else if cli.depth_first {
        Algorithm::DepthFirst
    } else {
        Algorithm::Unset
    }
}

/// The node of the maze that `node` stands for: the regular node at its
/// position, or else the entrance or the exit, as `node` says it is.
pub fn get_node(node: &Node, maze: &Maze) -> (r: Option<Node>)
    ensures
        r == (match maze@.lookup(NodeType::Path(node.point)) {
            Some(n) => Some(n),
            None => if node.start {
                maze@.lookup(NodeType::Start)
            } else {
                maze@.lookup(NodeType::Exit)
            },
        }),
{
    match maze.get(&NodeType::Path(node.point)) {
        Some(n) => Some(n),
        None => {
            if node.start {
                maze.get(&NodeType::Start)
            } else {
                maze.get(&NodeType::Exit)
            }
        },
    }
}

} // verus!
