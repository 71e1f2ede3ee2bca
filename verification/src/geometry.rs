//! Window geometry in integer units.

use vstd::prelude::*;

verus! {

/// Units per pixel: coordinates and lengths are in these.
pub const PX: i64 = 65536;

/// A point of the window.
#[derive(Debug, Clone, Copy, PartialEq, Eq, Structural)]
pub struct Point {
    pub x: i64,
    pub y: i64,
}

/// A rectangle of the window.
#[derive(Debug, Clone, Copy, PartialEq, Eq, Structural)]
pub struct Bounds {
    pub x: i64,
    pub y: i64,
    pub width: i64,
    pub height: i64,
}

/// `v` as a coordinate; what does not fit is the nearest coordinate.
pub open spec fn coord(v: int) -> i64 {
    if v < i64::MIN {
        i64::MIN
    } else if v > i64::MAX {
        i64::MAX
    } else {
        v as i64
    }
}

/// `a + b` as a coordinate.
pub fn plus(a: i64, b: i64) -> (c: i64)
    ensures
        c == coord(a + b),
{
    let v: i128 = a as i128 + b as i128;
    if v < i64::MIN as i128 {
        i64::MIN
    } else if v > i64::MAX as i128 {
        i64::MAX
    } else {
        v as i64
    }
}

/// `a - b` as a coordinate.
pub fn minus(a: i64, b: i64) -> (c: i64)
    ensures
        c == coord(a - b),
{
    let v: i128 = a as i128 - b as i128;
    if v < i64::MIN as i128 {
        i64::MIN
    } else if v > i64::MAX as i128 {
        i64::MAX
    } else {
        v as i64
    }
}

/// The distance of `a` and `b`.
pub open spec fn distance(a: int, b: int) -> int {
    if a >= b {
        a - b
    } else {
        b - a
    }
}

/// The distance of `a` and `b`.
pub fn gap(a: i64, b: i64) -> (d: i128)
    ensures
        d == distance(a as int, b as int),
{
    if a >= b {
        a as i128 - b as i128
    } else {
        b as i128 - a as i128
    }
}

/// The lesser of two lengths.
pub open spec fn shorter(a: i64, b: i64) -> i64 {
    if a <= b {
        a
    } else {
        b
    }
}

/// The greater of two lengths.
pub open spec fn longer(a: i64, b: i64) -> i64 {
    if a >= b {
        a
    } else {
        b
    }
}

/// The lesser of two lengths.
pub fn min_px(a: i64, b: i64) -> (m: i64)
    ensures
        m == shorter(a, b),
{
    if a <= b {
        a
    } else {
        b
    }
}

/// The greater of two lengths.
pub fn max_px(a: i64, b: i64) -> (m: i64)
    ensures
        m == longer(a, b),
{
    if a >= b {
        a
    } else {
        b
    }
}

impl Bounds {
    /// `p` is in the rectangle, its edges included.
    pub open spec fn covers(self, p: Point) -> bool {
        self.x <= p.x <= self.x + self.width && self.y <= p.y <= self.y + self.height
    }

    /// Whether `p` is in the rectangle, its edges included.
    pub fn contains(&self, p: Point) -> (yes: bool)
        ensures
            yes == self.covers(p),
    {
        self.x <= p.x && p.x as i128 <= self.x as i128 + self.width as i128 && self.y <= p.y
            && p.y as i128 <= self.y as i128 + self.height as i128
    }

    /// The lower edge.
    pub open spec fn lower(self) -> int {
        self.y + self.height
    }

    /// The lower edge.
    pub fn bottom(&self) -> (edge: i128)
        ensures
            edge == self.lower(),
    {
        self.y as i128 + self.height as i128
    }

    /// The rectangle has no area.
    pub open spec fn is_flat(self) -> bool {
        self.width <= 0 || self.height <= 0
    }
}

/// A sum or a difference that is a coordinate is that coordinate; one beyond
/// them is the last in its direction.
pub proof fn coordinates_saturate(v: int)
    ensures
        i64::MIN <= v <= i64::MAX ==> coord(v) == v,
        v > i64::MAX ==> coord(v) == i64::MAX,
        v < i64::MIN ==> coord(v) == i64::MIN,
{
}

/// Of two lengths the shorter is one of them and not above either, and so the
/// longer.
pub proof fn shorter_and_longer(a: i64, b: i64)
    ensures
        shorter(a, b) <= a && shorter(a, b) <= b,
        shorter(a, b) == a || shorter(a, b) == b,
        longer(a, b) >= a && longer(a, b) >= b,
        longer(a, b) == a || longer(a, b) == b,
        shorter(a, b) + longer(a, b) == a + b,
{
}

/// The distance of two positions is what one is beyond the other.
pub proof fn distances(a: int, b: int)
    ensures
        distance(a, b) == distance(b, a),
        distance(a, b) >= 0,
        a <= b ==> a + distance(a, b) == b,
{
}

/// A rectangle holds the points between its edges, and those on them.
pub proof fn rectangles_hold_what_is_between_their_edges(r: Bounds, p: Point)
    ensures
        r.covers(p) <==> 0 <= p.x - r.x <= r.width && 0 <= p.y - r.y <= r.height,
        r.lower() - r.y == r.height,
        r.is_flat() <==> !(r.width > 0 && r.height > 0),
{
}

} // verus!
