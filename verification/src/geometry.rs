//! Sizes, points and half-open boxes over 32-bit signed integers.

use vstd::prelude::*;

verus! {

/// A width and a height.
#[derive(Copy, Clone, Debug, PartialEq, Eq, Hash, Structural)]
pub struct Size {
    pub width: i32,
    pub height: i32,
}

/// A position on the surface.
#[derive(Copy, Clone, Debug, PartialEq, Eq, Hash, Structural)]
pub struct Point {
    pub x: i32,
    pub y: i32,
}

/// An axis-aligned box that holds `min` and leaves out `max`.
#[derive(Copy, Clone, Debug, PartialEq, Eq, Hash, Structural)]
pub struct Rectangle {
    pub min: Point,
    pub max: Point,
}

/// A stretch of the surface as an allocator has cut it, for display.
#[derive(Copy, Clone, Debug, PartialEq, Eq, Hash, Structural)]
pub struct Region {
    pub rectangle: Rectangle,
    /// Whether the stretch is handed out, as opposed to free.
    pub allocated: bool,
}

/// Shorthand for a [`Size`].
pub fn size2(width: i32, height: i32) -> (s: Size)
    ensures
        s == (Size { width, height }),
{
    Size { width, height }
}

/// Shorthand for a [`Point`].
pub fn point2(x: i32, y: i32) -> (p: Point)
    ensures
        p == (Point { x, y }),
{
    Point { x, y }
}

/// Calls `euclid::Size2D::is_empty`, which is true unless both the width
/// and the height are above zero.
#[verifier::external_body]
fn euclid_size_is_empty(width: i32, height: i32) -> (r: bool)
    ensures
        r == !(width > 0 && height > 0),
{
    euclid::default::Size2D::new(width, height).is_empty()
}

/// Calls `euclid::Box2D::size`, which subtracts `min` from `max`
/// coordinate by coordinate. The differences have to fit in an `i32`.
#[verifier::external_body]
fn euclid_box_size(min_x: i32, min_y: i32, max_x: i32, max_y: i32) -> (r: (i32, i32))
    requires
        i32::MIN <= max_x - min_x <= i32::MAX,
        i32::MIN <= max_y - min_y <= i32::MAX,
    ensures
        r.0 == max_x - min_x,
        r.1 == max_y - min_y,
{
    let b = euclid::default::Box2D::new(
        euclid::default::Point2D::new(min_x, min_y),
        euclid::default::Point2D::new(max_x, max_y),
    );
    let s = b.size();
    (s.width, s.height)
}

/// Calls `euclid::Box2D::intersects`, which compares each box's `min` with
/// the other's `max`, strictly, on both axes.
#[verifier::external_body]
fn euclid_box_intersects(a: &Rectangle, b: &Rectangle) -> (r: bool)
    ensures
        r == (a.min.x < b.max.x && a.max.x > b.min.x && a.min.y < b.max.y && a.max.y > b.min.y),
{
    let p = euclid::default::Box2D::new(
        euclid::default::Point2D::new(a.min.x, a.min.y),
        euclid::default::Point2D::new(a.max.x, a.max.y),
    );
    let q = euclid::default::Box2D::new(
        euclid::default::Point2D::new(b.min.x, b.min.y),
        euclid::default::Point2D::new(b.max.x, b.max.y),
    );
    p.intersects(&q)
}

impl Size {
    /// A size is empty when either side is zero or negative.
    pub open spec fn empty(self) -> bool {
        self.width <= 0 || self.height <= 0
    }

    /// The same size with its two sides exchanged.
    pub open spec fn transposed(self) -> Size {
        Size { width: self.height, height: self.width }
    }

    pub fn is_empty(self) -> (r: bool)
        ensures
            r == self.empty(),
    {
        euclid_size_is_empty(self.width, self.height)
    }
}

impl Rectangle {
    /// Extent along x, as a mathematical integer.
    pub open spec fn width(self) -> int {
        self.max.x - self.min.x
    }

    /// Extent along y, as a mathematical integer.
    pub open spec fn height(self) -> int {
        self.max.y - self.min.y
    }

    /// The two boxes share a point of positive area.
    pub open spec fn overlaps(self, other: Rectangle) -> bool {
        self.min.x < other.max.x && self.max.x > other.min.x && self.min.y < other.max.y
            && self.max.y > other.min.y
    }

    /// `self` lies inside `outer`, edges included.
    pub open spec fn within(self, outer: Rectangle) -> bool {
        outer.min.x <= self.min.x && self.max.x <= outer.max.x && outer.min.y <= self.min.y
            && self.max.y <= outer.max.y
    }

    /// The box from the origin to `size`.
    pub open spec fn surface(size: Size) -> Rectangle {
        Rectangle { min: Point { x: 0, y: 0 }, max: Point { x: size.width, y: size.height } }
    }

    /// The box with x and y exchanged.
    pub open spec fn transposed(self) -> Rectangle {
        Rectangle {
            min: Point { x: self.min.y, y: self.min.x },
            max: Point { x: self.max.y, y: self.max.x },
        }
    }

    pub fn size(&self) -> (s: Size)
        requires
            i32::MIN <= self.width() <= i32::MAX,
            i32::MIN <= self.height() <= i32::MAX,
        ensures
            s.width == self.width(),
            s.height == self.height(),
    {
        let (width, height) = euclid_box_size(self.min.x, self.min.y, self.max.x, self.max.y);
        Size { width, height }
    }

    pub fn intersects(&self, other: &Rectangle) -> (r: bool)
        ensures
            r == self.overlaps(*other),
    {
        euclid_box_intersects(self, other)
    }
}

/// Two boxes inside boxes that do not overlap do not overlap either.
pub proof fn lemma_within_disjoint(a: Rectangle, b: Rectangle, outer_a: Rectangle, outer_b: Rectangle)
    requires
        a.within(outer_a),
        b.within(outer_b),
        !outer_a.overlaps(outer_b),
        a.min.x <= a.max.x,
        a.min.y <= a.max.y,
        b.min.x <= b.max.x,
        b.min.y <= b.max.y,
    ensures
        !a.overlaps(b),
{
}

} // verus!
