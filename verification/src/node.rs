//! Points, compass directions and graph nodes.

use vstd::prelude::*;

verus! {

/// A pixel position: column `x`, row `y`.
#[derive(Debug, Eq, PartialEq, Copy, Clone, PartialOrd, Ord, Hash, Structural)]
pub struct Point {
    pub x: u32,
    pub y: u32,
}

impl Point {
    /// The position at column `x`, row `y`.
    pub fn at(x: u32, y: u32) -> (p: Self)
        ensures
            p == (Point { x, y }),
    {
        Self { x, y }
    }

    /// The position as a single number: rows first, then columns.
    pub open spec fn spec_key(self) -> u64 {
        (self.y as int * 0x1_0000_0000 + self.x as int) as u64
    }

    /// The lookup key of this position; distinct positions have distinct keys.
    pub fn key(&self) -> (k: u64)
        ensures
            k == self.spec_key(),
    {
        let row: u64 = self.y as u64;
        let col: u64 = self.x as u64;
        row * 0x1_0000_0000 + col
    }

    /// Strict order on positions: by column, then by row.
    pub open spec fn spec_precedes(self, other: Point) -> bool {
        self.x < other.x || (self.x == other.x && self.y < other.y)
    }

    /// Whether this position comes before `other`.
    pub fn precedes(&self, other: &Point) -> (b: bool)
        ensures
            b == self.spec_precedes(*other),
    {
        self.x < other.x || (self.x == other.x && self.y < other.y)
    }

    /// Different positions have different keys.
    pub proof fn lemma_key_injective(a: Point, b: Point)
        ensures
            a.spec_key() == b.spec_key() <==> a == b,
    {
    }
}

impl Default for Point {
    fn default() -> (p: Self)
        ensures
            p == (Point { x: 0, y: 0 }),
    {
        Point { x: 0, y: 0 }
    }
}

/// Manhattan distance between two positions.
pub open spec fn manhattan(a: Point, b: Point) -> nat {
    let dx = if a.x <= b.x { b.x - a.x } else { a.x - b.x };
    let dy = if a.y <= b.y { b.y - a.y } else { a.y - b.y };
    (dx + dy) as nat
}

/// A compass direction. Clockwise the cycle is North, East, South, West.
#[derive(Debug, Hash, Eq, PartialEq, Copy, Clone, Structural)]
pub enum Direction {
    North,
    West,
    South,
    East,
}

impl Direction {
    /// Place in the clockwise cycle, starting at North.
    pub open spec fn index(self) -> int {
        match self {
            Direction::North => 0,
            Direction::East => 1,
            Direction::South => 2,
            Direction::West => 3,
        }
    }

    /// The direction at place `i` of the clockwise cycle, for any integer `i`.
    pub open spec fn from_index(i: int) -> Direction {
        let r = i % 4;
        if r == 0 {
            Direction::North
        } else if r == 1 {
            Direction::East
        } else if r == 2 {
            Direction::South
        } else {
            Direction::West
        }
    }

    /// `k` quarter turns clockwise.
    pub open spec fn clockwise(self, k: nat) -> Direction {
        Direction::from_index(self.index() + k)
    }

    /// `k` quarter turns counter-clockwise.
    pub open spec fn counter_clockwise(self, k: nat) -> Direction {
        Direction::from_index(self.index() - k)
    }

    /// The direction faced after a half turn.
    pub open spec fn spec_opposite(self) -> Direction {
        match self {
            Direction::North => Direction::South,
            Direction::East => Direction::West,
            Direction::South => Direction::North,
            Direction::West => Direction::East,
        }
    }

    /// The direction faced after a half turn.
    pub fn opposite(self) -> (d: Direction)
        ensures
            d == self.spec_opposite(),
            d == self.clockwise(2),
            d.spec_opposite() == self,
    {
        match self {
            Direction::North => Direction::South,
            Direction::East => Direction::West,
            Direction::South => Direction::North,
            Direction::West => Direction::East,
        }
    }
}

impl vstd::std_specs::ops::AddSpecImpl<u32> for Direction {
    open spec fn obeys_add_spec() -> bool {
        true
    }

    open spec fn add_req(self, rhs: u32) -> bool {
        true
    }

    open spec fn add_spec(self, rhs: u32) -> Direction {
        self.clockwise(rhs as nat)
    }
}

impl core::ops::Add<u32> for Direction {
    type Output = Direction;

    /// Rotates clockwise by `rhs` quarter turns.
    fn add(self, rhs: u32) -> (d: Direction) {
        let v: u32 = rhs % 4;
        match self {
            Direction::North => match v {
                0 => Direction::North,
                1 => Direction::East,
                2 => Direction::South,
                _ => Direction::West,
            },
            Direction::East => match v {
                0 => Direction::East,
                1 => Direction::South,
                2 => Direction::West,
                _ => Direction::North,
            },
            Direction::South => match v {
                0 => Direction::South,
                1 => Direction::West,
                2 => Direction::North,
                _ => Direction::East,
            },
            Direction::West => match v {
                0 => Direction::West,
                1 => Direction::North,
                2 => Direction::East,
                _ => Direction::South,
            },
        }
    }
}

impl vstd::std_specs::ops::SubSpecImpl<u32> for Direction {
    open spec fn obeys_sub_spec() -> bool {
        true
    }

    open spec fn sub_req(self, rhs: u32) -> bool {
        true
    }

    open spec fn sub_spec(self, rhs: u32) -> Direction {
        self.counter_clockwise(rhs as nat)
    }
}

impl core::ops::Sub<u32> for Direction {
    type Output = Direction;

    /// Rotates counter-clockwise by `rhs` quarter turns.
    fn sub(self, rhs: u32) -> (d: Direction) {
        let v: u32 = rhs % 4;
        match self {
            Direction::North => match v {
                0 => Direction::North,
                1 => Direction::West,
                2 => Direction::South,
                _ => Direction::East,
            },
            Direction::East => match v {
                0 => Direction::East,
                1 => Direction::North,
                2 => Direction::West,
                _ => Direction::South,
            },
            Direction::South => match v {
                0 => Direction::South,
                1 => Direction::East,
                2 => Direction::North,
                _ => Direction::West,
            },
            Direction::West => match v {
                0 => Direction::West,
                1 => Direction::South,
                2 => Direction::East,
                _ => Direction::North,
            },
        }
    }
}

/// The neighbours of a node: at most one in each direction.
#[derive(Debug, Eq, PartialEq, Copy, Clone)]
pub struct Children {
    pub north: Option<Point>,
    pub east: Option<Point>,
    pub south: Option<Point>,
    pub west: Option<Point>,
}

impl Children {
    /// No neighbour in any direction.
    pub open spec fn empty() -> Children {
        Children { north: None, east: None, south: None, west: None }
    }

    /// The neighbour in direction `d`, if there is one.
    pub open spec fn spec_get(self, d: Direction) -> Option<Point> {
        match d {
            Direction::North => self.north,
            Direction::East => self.east,
            Direction::South => self.south,
            Direction::West => self.west,
        }
    }

    /// These neighbours with the one in direction `d` set to `p`.
    pub open spec fn spec_insert(self, d: Direction, p: Point) -> Children {
        match d {
            Direction::North => Children { north: Some(p), ..self },
            Direction::East => Children { east: Some(p), ..self },
            Direction::South => Children { south: Some(p), ..self },
            Direction::West => Children { west: Some(p), ..self },
        }
    }

    /// No neighbour in any direction.
    pub fn new() -> (c: Children)
        ensures
            c == Children::empty(),
    {
        Children { north: None, east: None, south: None, west: None }
    }

    /// The neighbour in direction `d`, if there is one.
    pub fn get(&self, d: Direction) -> (r: Option<Point>)
        ensures
            r == self.spec_get(d),
    {
        match d {
            Direction::North => self.north,
            Direction::East => self.east,
            Direction::South => self.south,
            Direction::West => self.west,
        }
    }

    /// Sets the neighbour in direction `d`, replacing an earlier one.
    pub fn insert(&mut self, d: Direction, p: Point)
        ensures
            *final(self) == old(self).spec_insert(d, p),
    {
        match d {
            Direction::North => self.north = Some(p),
            Direction::East => self.east = Some(p),
            Direction::South => self.south = Some(p),
            Direction::West => self.west = Some(p),
        }
    }

    /// How many directions have a neighbour.
    pub open spec fn spec_len(self) -> nat {
        ((if self.north is Some { 1nat } else { 0 }) + (if self.east is Some { 1nat } else { 0 })
            + (if self.south is Some { 1nat } else { 0 }) + (if self.west is Some { 1nat } else { 0 })) as nat
    }

    /// How many directions have a neighbour.
    pub fn len(&self) -> (n: usize)
        ensures
            n == self.spec_len(),
    {
        let mut n: usize = 0;
        if self.north.is_some() {
            n = n + 1;
        }
        if self.east.is_some() {
            n = n + 1;
        }
        if self.south.is_some() {
            n = n + 1;
        }
        if self.west.is_some() {
            n = n + 1;
        }
        n
    }
}

/// A vertex of the maze graph: a junction, a corner, a dead end, the
/// entrance (`start`) or the exit (`end`).
#[derive(Debug, Eq, PartialEq, Copy, Clone)]
pub struct Node {
    pub start: bool,
    pub end: bool,
    pub point: Point,
    pub children: Children,
}

impl Node {
    /// A regular node without neighbours.
    pub fn at(x: u32, y: u32) -> (n: Self)
        ensures
            n == (Node { start: false, end: false, point: Point { x, y }, children: Children::empty() }),
    {
        Self { start: false, end: false, point: Point::at(x, y), children: Children::new() }
    }

    /// An entrance node without neighbours.
    pub fn start(x: u32, y: u32) -> (n: Self)
        ensures
            n == (Node { start: true, end: false, point: Point { x, y }, children: Children::empty() }),
    {
        Self { start: true, end: false, point: Point::at(x, y), children: Children::new() }
    }

    /// An exit node without neighbours.
    pub fn exit(x: u32, y: u32) -> (n: Self)
        ensures
            n == (Node { start: false, end: true, point: Point { x, y }, children: Children::empty() }),
    {
        Self { start: false, end: true, point: Point::at(x, y), children: Children::new() }
    }

    /// The neighbour in direction `d`, if there is one.
    pub open spec fn toward(self, d: Direction) -> Option<Point> {
        self.children.spec_get(d)
    }

    /// The key under which the graph files this node.
    pub open spec fn spec_kind(self) -> NodeType {
        if self.start {
            NodeType::Start
        } else if self.end {
            NodeType::Exit
        } else {
            NodeType::Path(self.point)
        }
    }

    /// The key under which the graph files this node.
    pub fn kind(&self) -> (k: NodeType)
        ensures
            k == self.spec_kind(),
    {
        if self.start {
            NodeType::Start
        } else if self.end {
            NodeType::Exit
        } else {
            NodeType::Path(self.point)
        }
    }
}

/// Lookup key of the graph: the entrance, the exit, or a regular node by
/// its position.
#[derive(Debug, Hash, Eq, PartialEq, Copy, Clone)]
pub enum NodeType {
    Start,
    Path(Point),
    Exit,
}

} // verus!
