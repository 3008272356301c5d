//! Points, sizes and axis-aligned rectangles, with the two predicates the tree
//! is built on: a point lies in a rectangle, edges included; two rectangles
//! overlap, edges excluded.
use crate::binary32::Binary32;
use vstd::prelude::*;

verus! {

/// A point of the plane.
#[derive(Clone, Copy, Debug)]
pub struct Point {
    pub x: Binary32,
    pub y: Binary32,
}

/// The extent of a rectangle. Nothing checks that it is non-negative.
#[derive(Clone, Copy, Debug)]
pub struct Size {
    pub width: Binary32,
    pub height: Binary32,
}

/// The region from `top_left` to `top_left + size`, both ends included.
#[derive(Clone, Copy, Debug)]
pub struct Rectangle {
    pub top_left: Point,
    pub size: Size,
}

/// A stored rectangle and the identifier it was given.
#[derive(Clone, Copy, Debug)]
pub struct Item {
    pub area: Rectangle,
    pub id: u32,
}

impl Rectangle {
    /// The rectangle at `(x, y)` of the given width and height.
    pub open spec fn at(x: Binary32, y: Binary32, width: Binary32, height: Binary32) -> Rectangle {
        Rectangle { top_left: Point { x, y }, size: Size { width, height } }
    }

    pub open spec fn left(self) -> Binary32 {
        self.top_left.x
    }

    pub open spec fn top(self) -> Binary32 {
        self.top_left.y
    }

    /// The far end of the horizontal span: the rounded sum of the left edge
    /// and the width.
    pub open spec fn right(self) -> Binary32 {
        self.top_left.x.spec_add(self.size.width)
    }

    /// The far end of the vertical span.
    pub open spec fn bottom(self) -> Binary32 {
        self.top_left.y.spec_add(self.size.height)
    }

    /// `point` lies within both spans, their ends included.
    pub open spec fn spec_contains(self, point: Point) -> bool {
        &&& self.left().spec_le(point.x)
        &&& point.x.spec_le(self.right())
        &&& self.top().spec_le(point.y)
        &&& point.y.spec_le(self.bottom())
    }

    /// The two rectangles share more than an edge.
    pub open spec fn spec_intersects(self, other: Rectangle) -> bool {
        &&& self.left().spec_lt(other.right())
        &&& other.left().spec_lt(self.right())
        &&& self.top().spec_lt(other.bottom())
        &&& other.top().spec_lt(self.bottom())
    }

    /// One of the four quarters of the rectangle: `0` the top left one, `1`
    /// the top right, `2` the bottom left, `3` the bottom right. Each has half
    /// the width and half the height.
    pub open spec fn quadrant(self, k: int) -> Rectangle {
        let w = self.size.width.spec_half();
        let h = self.size.height.spec_half();
        let x = if k == 1 || k == 3 {
            self.top_left.x.spec_add(w)
        } else {
            self.top_left.x
        };
        let y = if k == 2 || k == 3 {
            self.top_left.y.spec_add(h)
        } else {
            self.top_left.y
        };
        Rectangle::at(x, y, w, h)
    }

    /// Whether `point` lies in the rectangle, edges included.
    pub fn contains(&self, point: &Point) -> (r: bool)
        ensures
            r == self.spec_contains(*point),
    {
        self.top_left.x.le(point.x) && point.x.le(self.top_left.x.add(self.size.width))
            && self.top_left.y.le(point.y) && point.y.le(
            self.top_left.y.add(self.size.height),
        )
    }

    /// Whether the two rectangles overlap in more than an edge.
    pub fn intersects(&self, other: &Rectangle) -> (r: bool)
        ensures
            r == self.spec_intersects(*other),
    {
        self.top_left.x.lt(other.top_left.x.add(other.size.width))
            && other.top_left.x.lt(self.top_left.x.add(self.size.width))
            && self.top_left.y.lt(other.top_left.y.add(other.size.height))
            && other.top_left.y.lt(self.top_left.y.add(self.size.height))
    }

    /// The four quarters, in the order of `quadrant`.
    pub fn quarters(&self) -> (r: (Rectangle, Rectangle, Rectangle, Rectangle))
        ensures
            r.0 == self.quadrant(0),
            r.1 == self.quadrant(1),
            r.2 == self.quadrant(2),
            r.3 == self.quadrant(3),
    {
        let width = self.size.width.half();
        let height = self.size.height.half();
        let x = self.top_left.x;
        let y = self.top_left.y;
        let size = Size { width, height };
        (
            Rectangle { top_left: Point { x, y }, size },
            Rectangle { top_left: Point { x: x.add(width), y }, size },
            Rectangle { top_left: Point { x, y: y.add(height) }, size },
            Rectangle { top_left: Point { x: x.add(width), y: y.add(height) }, size },
        )
    }
}

/// A point is in a rectangle exactly when neither coordinate nor any edge is a
/// NaN and each coordinate lies between the two ends of its span, the ends
/// themselves included.
pub proof fn lemma_contains_is_inclusive(r: Rectangle, p: Point)
    ensures
        r.spec_contains(p) <==> {
            &&& !p.x.spec_is_nan() && !r.left().spec_is_nan() && !r.right().spec_is_nan()
            &&& !p.y.spec_is_nan() && !r.top().spec_is_nan() && !r.bottom().spec_is_nan()
            &&& r.left().units() <= p.x.units() <= r.right().units()
            &&& r.top().units() <= p.y.units() <= r.bottom().units()
        },
{
}

/// The corners of a rectangle whose spans are not reversed lie in it.
pub proof fn lemma_contains_corners(r: Rectangle)
    requires
        r.left().spec_le(r.right()),
        r.top().spec_le(r.bottom()),
    ensures
        r.spec_contains(Point { x: r.left(), y: r.top() }),
        r.spec_contains(Point { x: r.right(), y: r.top() }),
        r.spec_contains(Point { x: r.left(), y: r.bottom() }),
        r.spec_contains(Point { x: r.right(), y: r.bottom() }),
{
}

/// Rectangles that only touch along an edge do not intersect: where one ends
/// at the value at which the other begins, the test fails.
pub proof fn lemma_touching_is_not_intersecting(a: Rectangle, b: Rectangle)
    requires
        a.right().units() == b.left().units() || a.bottom().units() == b.top().units(),
    ensures
        !a.spec_intersects(b),
        !b.spec_intersects(a),
{
}

} // verus!
