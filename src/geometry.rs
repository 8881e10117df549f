//! Integer device-pixel geometry: points, sizes and rectangles.
use vstd::prelude::*;

verus! {

/// A position in device pixels.
#[derive(Clone, Copy, Debug, PartialEq, Eq, Structural)]
pub struct Point {
    pub x: i32,
    pub y: i32,
}

/// An extent in device pixels.
#[derive(Clone, Copy, Debug, PartialEq, Eq, Structural)]
pub struct Size {
    pub width: i32,
    pub height: i32,
}

/// An axis-aligned rectangle given by its top-left corner and its size.
#[derive(Clone, Copy, Debug, PartialEq, Eq, Structural)]
pub struct Rect {
    pub left: i32,
    pub top: i32,
    pub width: i32,
    pub height: i32,
}

impl Point {
    pub fn new(x: i32, y: i32) -> (r: Point)
        ensures
            r.x == x,
            r.y == y,
    {
        Point { x, y }
    }
}

impl Rect {
    pub fn new(left: i32, top: i32, width: i32, height: i32) -> (r: Rect)
        ensures
            r.left == left,
            r.top == top,
            r.width == width,
            r.height == height,
    {
        Rect { left, top, width, height }
    }

    pub open spec fn right_spec(self) -> int {
        self.left + self.width
    }

    pub open spec fn bottom_spec(self) -> int {
        self.top + self.height
    }

    /// The x coordinate of the right edge.
    pub fn right(&self) -> (r: i64)
        ensures
            r == self.right_spec(),
    {
        self.left as i64 + self.width as i64
    }

    /// The y coordinate of the bottom edge.
    pub fn bottom(&self) -> (r: i64)
        ensures
            r == self.bottom_spec(),
    {
        self.top as i64 + self.height as i64
    }

    pub open spec fn shrink_spec(self, by: int) -> (int, int, int, int) {
        (self.left + by, self.top + by, self.width - 2 * by, self.height - 2 * by)
    }

    /// The rectangle moved inwards by `by` pixels on every side.
    pub fn shrink_bounds(&self, by: i32) -> (r: Rect)
        requires
            i32::MIN <= self.shrink_spec(by as int).0 <= i32::MAX,
            i32::MIN <= self.shrink_spec(by as int).1 <= i32::MAX,
            i32::MIN <= self.shrink_spec(by as int).2 <= i32::MAX,
            i32::MIN <= self.shrink_spec(by as int).3 <= i32::MAX,
        ensures
            (r.left as int, r.top as int, r.width as int, r.height as int) == self.shrink_spec(
                by as int,
            ),
    {
        Rect {
            left: self.left + by,
            top: self.top + by,
            width: (self.width as i64 - 2 * (by as i64)) as i32,
            height: (self.height as i64 - 2 * (by as i64)) as i32,
        }
    }

    pub open spec fn contains_spec(self, p: Point) -> bool {
        self.left <= p.x < self.right_spec() && self.top <= p.y < self.bottom_spec()
    }

    /// Whether the point lies inside the rectangle (left and top edges included).
    pub fn contains(&self, p: Point) -> (r: bool)
        ensures
            r == self.contains_spec(p),
    {
        self.left as i64 <= p.x as i64 && (p.x as i64) < self.right() && self.top as i64 <= p.y as i64 && (p.y as i64)
            < self.bottom()
    }
}

} // verus!
