//! Axis-aligned rectangles on the tile grid.

use vstd::prelude::*;

verus! {

/// A rectangle given by two opposite corners, `(x1, y1)` and `(x2, y2)`.
///
/// A room built from a rectangle occupies the tiles strictly right of `x1`
/// and strictly below `y1`, up to and including `x2` and `y2`; the row `y1`
/// and the column `x1` stay wall.
#[derive(Clone, Copy, PartialEq, Eq, Structural, Debug)]
pub struct Rect {
    pub x1: i32,
    pub x2: i32,
    pub y1: i32,
    pub y2: i32,
}

/// Half of `v`, rounded toward zero.
pub open spec fn half(v: int) -> int {
    if v >= 0 {
        v / 2
    } else {
        -((-v) / 2)
    }
}

impl Rect {
    /// Two rectangles overlap when their closed coordinate ranges meet on both axes.
    pub open spec fn overlaps(self, other: Rect) -> bool {
        self.x1 <= other.x2 && self.x2 >= other.x1 && self.y1 <= other.y2 && self.y2 >= other.y1
    }

    /// The tile `(x, y)` belongs to the floor area of a room built from this rectangle.
    pub open spec fn interior(self, x: int, y: int) -> bool {
        self.x1 < x <= self.x2 && self.y1 < y <= self.y2
    }

    /// The midpoint of the rectangle, each coordinate rounded toward zero.
    pub open spec fn center_spec(self) -> (int, int) {
        (half(self.x1 + self.x2), half(self.y1 + self.y2))
    }

    /// The rectangle with corner `(x, y)`, `w` tiles wide and `h` tiles high.
    pub fn new(x: i32, y: i32, w: i32, h: i32) -> (r: Rect)
        requires
            i32::MIN <= x + w <= i32::MAX,
            i32::MIN <= y + h <= i32::MAX,
        ensures
            r == (Rect { x1: x, y1: y, x2: (x + w) as i32, y2: (y + h) as i32 }),
    {
        Rect { x1: x, y1: y, x2: x + w, y2: y + h }
    }

    /// Whether this rectangle overlaps `other`.
    pub fn intersect(&self, other: &Rect) -> (b: bool)
        ensures
            b == self.overlaps(*other),
    {
        self.x1 <= other.x2 && self.x2 >= other.x1 && self.y1 <= other.y2 && self.y2 >= other.y1
    }

    /// The midpoint of the rectangle.
    pub fn center(&self) -> (c: (i32, i32))
        ensures
            (c.0 as int, c.1 as int) == self.center_spec(),
    {
        (midpoint(self.x1, self.x2), midpoint(self.y1, self.y2))
    }
}

/// Half of `v`, rounded toward zero.
pub fn halved(v: i32) -> (h: i32)
    ensures
        h == half(v as int),
{
    if v >= 0 {
        v / 2
    } else {
        (-((-(v as i64)) / 2)) as i32
    }
}

/// Half of the sum of `a` and `b`, rounded toward zero.
fn midpoint(a: i32, b: i32) -> (m: i32)
    ensures
        m == half(a + b),
{
    let s: i64 = a as i64 + b as i64;
    if s >= 0 {
        (s / 2) as i32
    } else {
        (-((-s) / 2)) as i32
    }
}

} // verus!
