//! The pixel grid a maze is read from and a solution is drawn on.

use crate::algorithms::Solution;
use crate::graph::{ahead, Graph};
use crate::node::{manhattan, Direction, Point};
use vstd::prelude::*;

verus! {

/// Colour of a wall pixel, as `0xRRGGBB`.
pub const WALL: u32 = 0x000000;

/// Colour of a path pixel, as `0xRRGGBB`.
pub const PATHWAY: u32 = 0xFFFFFF;

/// Colour a solution is drawn in, as `0xRRGGBB`.
pub const TRAIL: u32 = 0xFF0000;

/// The mathematical picture of an image: its pixels row by row.
pub struct Raster {
    pub width: nat,
    pub height: nat,
    pub pixels: Seq<u32>,
}

impl Raster {
    /// The picture has a pixel for every position.
    pub open spec fn wf(self) -> bool {
        &&& self.width <= u32::MAX
        &&& self.height <= u32::MAX
        &&& self.pixels.len() == self.width * self.height
    }

    /// Column `x`, row `y` lies inside the picture.
    pub open spec fn contains(self, x: int, y: int) -> bool {
        0 <= x < self.width && 0 <= y < self.height
    }

    /// The colour at column `x`, row `y`; `None` outside the image.
    pub open spec fn get(self, x: int, y: int) -> Option<u32> {
        if self.contains(x, y) {
            Some(self.pixels[y * self.width + x])
        } else {
            None
        }
    }

    /// The pixel at (`x`, `y`) lies inside and is a path pixel.
    pub open spec fn is_path(self, x: int, y: int) -> bool {
        self.get(x, y) == Some(PATHWAY)
    }

    /// The pixel at (`x`, `y`) lies inside and is a wall pixel.
    pub open spec fn is_wall(self, x: int, y: int) -> bool {
        self.get(x, y) == Some(WALL)
    }

    /// The picture with the pixel at (`x`, `y`) set to `colour`.
    pub open spec fn put(self, x: int, y: int, colour: u32) -> Raster {
        Raster { pixels: self.pixels.update(y * self.width + x, colour), ..self }
    }
}

/// Row-major offsets of pixels inside a `w` by `h` grid stay inside it.
pub proof fn lemma_offset_in_bounds(x: int, y: int, w: int, h: int)
    requires
        0 <= x < w,
        0 <= y < h,
    ensures
        0 <= y * w <= y * w + x < w * h,
        (y * w + x) / w == y,
        (y * w + x) % w == x,
{
    assert(0 <= y * w) by (nonlinear_arith)
        requires
            0 <= y,
            0 <= w,
    ;
    assert(y * w + w <= w * h) by (nonlinear_arith)
        requires
            0 <= y < h,
            0 <= w,
    ;
    vstd::arithmetic::div_mod::lemma_fundamental_div_mod_converse(y * w + x, w, y, x);
}

/// Distinct pixels of a grid have distinct row-major offsets.
pub proof fn lemma_offset_injective(x1: int, y1: int, x2: int, y2: int, w: int)
    requires
        0 <= x1 < w,
        0 <= x2 < w,
        0 <= y1,
        0 <= y2,
        y1 * w + x1 == y2 * w + x2,
    ensures
        x1 == x2,
        y1 == y2,
{
    vstd::arithmetic::div_mod::lemma_fundamental_div_mod_converse(y1 * w + x1, w, y1, x1);
    vstd::arithmetic::div_mod::lemma_fundamental_div_mod_converse(y2 * w + x2, w, y2, x2);
}

/// A rectangular image of `0xRRGGBB` pixels.
pub struct Image {
    width: u32,
    height: u32,
    pixels: Vec<u32>,
}

impl View for Image {
    type V = Raster;

    closed spec fn view(&self) -> Raster {
        Raster { width: self.width as nat, height: self.height as nat, pixels: self.pixels@ }
    }
}

impl Image {
    #[verifier::type_invariant]
    closed spec fn inv(self) -> bool {
        self.pixels@.len() == self.width * self.height
    }

    /// An image of the given size, every pixel a wall.
    pub fn new(width: u32, height: u32) -> (img: Image)
        requires
            width * height <= usize::MAX,
        ensures
            img@.wf(),
            img@.width == width,
            img@.height == height,
            forall|i: int| 0 <= i < img@.pixels.len() ==> img@.pixels[i] == WALL,
    {
        let mut pixels: Vec<u32> = Vec::new();
        let mut row: u32 = 0;
        while row < height
            invariant
                row <= height,
                width * height <= usize::MAX,
                pixels@.len() == width * row,
                forall|i: int| 0 <= i < pixels@.len() ==> pixels@[i] == WALL,
            decreases height - row,
        {
            let mut col: u32 = 0;
            while col < width
                invariant
                    row < height,
                    col <= width,
                    width * height <= usize::MAX,
                    pixels@.len() == width * row + col,
                    forall|i: int| 0 <= i < pixels@.len() ==> pixels@[i] == WALL,
                decreases width - col,
            {
                proof {
                    lemma_offset_in_bounds(col as int, row as int, width as int, height as int);
                    assert(row * width == width * row) by (nonlinear_arith);
                    assert(width * height == height * width) by (nonlinear_arith);
                }
                pixels.push(WALL);
                col = col + 1;
            }
            proof {
                assert(width * row + width == width * (row + 1)) by (nonlinear_arith);
            }
            row = row + 1;
        }
        Image { width, height, pixels }
    }

    /// The image whose rows, top to bottom, are laid end to end in `pixels`;
    /// `None` when their number is not `width * height`.
    pub fn from_pixels(width: u32, height: u32, pixels: Vec<u32>) -> (r: Option<Image>)
        ensures
            r is Some <==> pixels@.len() == width * height,
            r matches Some(img) ==> img@ == (Raster {
                width: width as nat,
                height: height as nat,
                pixels: pixels@,
            }) && img@.wf(),
    {
        assert(width * height <= 0xFFFF_FFFF * 0xFFFF_FFFF) by (nonlinear_arith)
            requires
                0 <= width <= 0xFFFF_FFFF,
                0 <= height <= 0xFFFF_FFFF,
        ;
        let area: u64 = (width as u64) * (height as u64);
        if pixels.len() as u64 == area {
            Some(Image { width, height, pixels })
        } else {
            None
        }
    }

    /// The number of pixels.
    pub fn len(&self) -> (n: usize)
        ensures
            n == self@.width * self@.height,
            self@.wf(),
    {
        proof {
            use_type_invariant(self);
        }
        self.pixels.len()
    }

    /// The number of columns.
    pub fn width(&self) -> (w: u32)
        ensures
            w == self@.width,
            self@.wf(),
    {
        proof {
            use_type_invariant(self);
        }
        self.width
    }

    /// The number of rows.
    pub fn height(&self) -> (h: u32)
        ensures
            h == self@.height,
            self@.wf(),
    {
        proof {
            use_type_invariant(self);
        }
        self.height
    }

    /// The colour at column `x`, row `y`; `None` outside the image.
    pub fn get_pixel_checked(&self, x: u32, y: u32) -> (r: Option<u32>)
        ensures
            r == self@.get(x as int, y as int),
            self@.wf(),
    {
        proof {
            use_type_invariant(self);
        }
        if x < self.width && y < self.height {
            proof {
                lemma_offset_in_bounds(x as int, y as int, self.width as int, self.height as int);
                assert(self.width * self.height == self.pixels.len());
            }
            let i: usize = (y as usize) * (self.width as usize) + (x as usize);
            Some(self.pixels[i])
        } else {
            None
        }
    }

    /// Sets the colour at column `x`, row `y`.
    pub fn put_pixel(&mut self, x: u32, y: u32, colour: u32)
        requires
            old(self)@.contains(x as int, y as int),
        ensures
            final(self)@ == old(self)@.put(x as int, y as int, colour),
            final(self)@.wf(),
    {
        proof {
            use_type_invariant(&*self);
            lemma_offset_in_bounds(x as int, y as int, self.width as int, self.height as int);
            assert(self.width * self.height == self.pixels.len());
        }
        let i: usize = (y as usize) * (self.width as usize) + (x as usize);
        let mut taken = Image { width: 0, height: 0, pixels: Vec::new() };
        core::mem::swap(self, &mut taken);
        let Image { width, height, mut pixels } = taken;
        pixels.set(i, colour);
        *self = Image { width, height, pixels };
    }
}

/// The position `i` pixels from `p1` towards `p2`, where the two lie on
/// one row or column.
pub open spec fn along(p1: Point, p2: Point, i: int) -> Point {
    if p1.x < p2.x {
        Point { x: (p1.x + i) as u32, y: p1.y }
    } else if p1.x > p2.x {
        Point { x: (p1.x - i) as u32, y: p1.y }
    } else if p1.y < p2.y {
        Point { x: p1.x, y: (p1.y + i) as u32 }
    } else {
        Point { x: p1.x, y: (p1.y - i) as u32 }
    }
}

/// Two positions on one row or on one column.
pub open spec fn aligned(p1: Point, p2: Point) -> bool {
    p1.x == p2.x || p1.y == p2.y
}

/// The pixels of the straight line from `p1` to `p2`, both ends included.
pub fn line(p1: &Point, p2: &Point) -> (line: Vec<Point>)
    requires
        aligned(*p1, *p2),
        manhattan(*p1, *p2) < usize::MAX,
    ensures
        line@.len() == manhattan(*p1, *p2) + 1,
        forall|i: int| 0 <= i < line@.len() ==> line@[i] == along(*p1, *p2, i),
{
    let mut line: Vec<Point> = Vec::new();
    let mut current = *p1;
    line.push(*p1);
    while current.x != p2.x || current.y != p2.y
        invariant
            aligned(*p1, *p2),
            manhattan(*p1, *p2) < usize::MAX,
            1 <= line@.len() <= manhattan(*p1, *p2) + 1,
            current == along(*p1, *p2, line@.len() - 1),
            manhattan(current, *p2) == manhattan(*p1, *p2) + 1 - line@.len(),
            forall|i: int| 0 <= i < line@.len() ==> line@[i] == along(*p1, *p2, i),
        decreases manhattan(current, *p2),
    {
        let n = if p1.x < p2.x {
            Point::at(current.x + 1, current.y)
        } else if p1.x > p2.x {
            Point::at(current.x - 1, current.y)
        } else if p1.y < p2.y {
            Point::at(current.x, current.y + 1)
        } else {
            Point::at(current.x, current.y - 1)
        };
        line.push(n);
        current = n;
    }
    line
}

/// `q` lies on the straight line between `a` and `b`.
pub open spec fn between(a: Point, b: Point, q: Point) -> bool {
    ||| q.x == a.x && a.x == b.x && (a.y <= q.y <= b.y || b.y <= q.y <= a.y)
    ||| q.y == a.y && a.y == b.y && (a.x <= q.x <= b.x || b.x <= q.x <= a.x)
}

/// `q` lies between the positions `i` and `i + 1` of a path.
pub open spec fn on_segment(points: Seq<Point>, i: int, q: Point) -> bool {
    between(points[i], points[i + 1], q)
}

/// `q` lies on one of the first `n` segments of a path.
pub open spec fn on_trail(points: Seq<Point>, n: int, q: Point) -> bool {
    exists|i: int| 0 <= i < n && #[trigger] on_segment(points, i, q)
}

/// A path that can be drawn on a picture: it has a first position, all
/// its positions lie inside, and each lies on one row or column with
/// the next.
pub open spec fn drawable(r: Raster, points: Seq<Point>) -> bool {
    &&& points.len() > 0
    &&& forall|i: int| 0 <= i < points.len() ==> r.contains(#[trigger] points[i].x as int, points[i].y as int)
    &&& forall|i: int| 0 <= i < points.len() - 1 ==> aligned(#[trigger] points[i], points[i + 1])
}

/// The picture `r` with the first `n` segments of a path drawn on `old`.
pub open spec fn drawn(old: Raster, r: Raster, points: Seq<Point>, n: int) -> bool {
    &&& r.wf()
    &&& r.width == old.width
    &&& r.height == old.height
    &&& forall|x: int, y: int|
        old.contains(x, y) ==> #[trigger] r.get(x, y) == (if on_trail(
            points,
            n,
            Point { x: x as u32, y: y as u32 },
        ) {
            Some(TRAIL)
        } else {
            old.get(x, y)
        })
}

/// A way through a graph can be drawn on a picture of the graph's size.
pub proof fn lemma_solution_drawable(g: Graph, r: Raster, s: Solution)
    requires
        g.wf(),
        s.solves(g),
        r.width == g.width,
        r.height == g.height,
    ensures
        drawable(r, s.points()),
{
    let points = s.points();
    let route = s.route();
    assert forall|i: int| 0 <= i < points.len() - 1 implies aligned(
        #[trigger] points[i],
        points[i + 1],
    ) by {
        let k = points.len() - 2 - i;
        assert(route[k] == points[i + 1]);
        assert(route[k + 1] == points[i]);
        assert(g.step(route, k));
        let d = choose|d: Direction| g.toward(route[k], d) == Some(route[k + 1]);
        assert(g.toward(route[k], d) is Some);
        assert(ahead(route[k], d, route[k + 1]));
    }
}

/// The pixels of a line are the positions between its ends.
proof fn lemma_along(a: Point, b: Point, q: Point)
    requires
        aligned(a, b),
    ensures
        between(a, b, q) <==> exists|k: int| 0 <= k <= manhattan(a, b) && #[trigger] along(a, b, k) == q,
{
    if between(a, b, q) {
        let k = manhattan(a, q) as int;
        assert(along(a, b, k) == q);
    }
}

/// Setting one pixel leaves the others as they are.
proof fn lemma_put(r: Raster, x: int, y: int, colour: u32, x2: int, y2: int)
    requires
        r.wf(),
        r.contains(x, y),
        r.contains(x2, y2),
    ensures
        r.put(x, y, colour).get(x2, y2) == (if x2 == x && y2 == y {
            Some(colour)
        } else {
            r.get(x2, y2)
        }),
{
    lemma_offset_in_bounds(x, y, r.width as int, r.height as int);
    lemma_offset_in_bounds(x2, y2, r.width as int, r.height as int);
    if y * r.width + x == y2 * r.width + x2 {
        lemma_offset_injective(x, y, x2, y2, r.width as int);
    }
}

impl Image {
    /// Draws a solution: takes the first node off its path and then
    /// colours every pixel on the straight lines from each node of the
    /// path to the next.
    pub fn apply_solution(&mut self, solution: &mut Solution)
        requires
            drawable(old(self)@, old(solution).points()),
        ensures
            drawn(old(self)@, final(self)@, old(solution).points(), old(solution).path@.len() - 1),
            final(solution).path@ == old(solution).path@.drop_first(),
            final(solution).count == old(solution).count,
            final(solution).length == old(solution).length,
    {
        let ghost before = self@;
        let ghost points = solution.points();
        let first = match solution.path.pop_front() {
            Some(node) => node,
            None => {
                return ;
            },
        };
        let mut last = first.point;
        let width = self.width();
        let height = self.height();
        let count = solution.path.len();
        let mut i: usize = 0;
        assert(solution.path@ =~= old(solution).path@.drop_first());
        while i < count
            invariant
                i <= count,
                count == points.len() - 1,
                solution.path@ == old(solution).path@.drop_first(),
                points == old(solution).points(),
                solution.count == old(solution).count,
                solution.length == old(solution).length,
                drawable(before, points),
                before.wf(),
                last == points[i as int],
                width == before.width,
                height == before.height,
                drawn(before, self@, points, i as int),
            decreases count - i,
        {
            let n = solution.path[i];
            assert(n.point == points[i + 1]);
            assert(aligned(points[i as int], points[i + 1]));
            assert(before.contains(last.x as int, last.y as int));
            assert(before.contains(n.point.x as int, n.point.y as int));
            let seg = line(&last, &n.point);
            let ghost a = last;
            let ghost b = n.point;
            let ghost held = self@;
            let mut j: usize = 0;
            while j < seg.len()
                invariant
                    j <= seg@.len(),
                    seg@.len() == manhattan(a, b) + 1,
                    forall|k: int| 0 <= k < seg@.len() ==> seg@[k] == along(a, b, k),
                    aligned(a, b),
                    before.wf(),
                    before.contains(a.x as int, a.y as int),
                    before.contains(b.x as int, b.y as int),
                    self@.wf(),
                    self@.width == before.width,
                    self@.height == before.height,
                    forall|x: int, y: int|
                        before.contains(x, y) ==> #[trigger] self@.get(x, y) == (if exists|k: int|
                            0 <= k < j && #[trigger] along(a, b, k) == (Point {
                                x: x as u32,
                                y: y as u32,
                            }) {
                            Some(TRAIL)
                        } else {
                            held.get(x, y)
                        }),
                decreases seg@.len() - j,
            {
                let point = seg[j];
                let ghost prior = self@;
                assert(point == along(a, b, j as int));
                self.put_pixel(point.x, point.y, TRAIL);
                proof {
                    assert forall|x: int, y: int| before.contains(x, y) implies #[trigger] self@.get(
                        x,
                        y,
                    ) == (if exists|k: int|
                        0 <= k < j + 1 && #[trigger] along(a, b, k) == (Point {
                            x: x as u32,
                            y: y as u32,
                        }) {
                        Some(TRAIL)
                    } else {
                        held.get(x, y)
                    }) by {
                        lemma_put(prior, point.x as int, point.y as int, TRAIL, x, y);
                        let q = Point { x: x as u32, y: y as u32 };
                        if x == point.x && y == point.y {
                            assert(along(a, b, j as int) == q);
                        }
                    }
                }
                j = j + 1;
            }
            proof {
                assert forall|x: int, y: int| before.contains(x, y) implies #[trigger] self@.get(
                    x,
                    y,
                ) == (if on_trail(points, i + 1, Point { x: x as u32, y: y as u32 }) {
                    Some(TRAIL)
                } else {
                    before.get(x, y)
                }) by {
                    let q = Point { x: x as u32, y: y as u32 };
                    lemma_along(a, b, q);
                    assert(held.get(x, y) == (if on_trail(points, i as int, q) {
                        Some(TRAIL)
                    } else {
                        before.get(x, y)
                    }));
                    if on_trail(points, i + 1, q) {
                        let m = choose|m: int| 0 <= m < i + 1 && #[trigger] on_segment(points, m, q);
                        if m < i {
                            assert(on_trail(points, i as int, q));
                        } else {
                            assert(between(a, b, q));
                        }
                    }
                    if between(a, b, q) {
                        assert(on_segment(points, i as int, q));
                    }
                    if on_trail(points, i as int, q) {
                        let m = choose|m: int| 0 <= m < i && #[trigger] on_segment(points, m, q);
                        assert(on_segment(points, m, q));
                    }
                }
            }
            last = n.point;
            i = i + 1;
        }
    }
}

} // verus!
