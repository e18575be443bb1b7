use vstd::prelude::*;

verus! {

/// Largest coordinate a rectangle stored in the index may have: with both
/// corners at most this value, every area fits in a `u64`.
pub const COORD_LIMIT: u64 = 4294967295;

/// A point of the plane with unsigned coordinates.
#[derive(Clone, Copy, Debug, PartialEq, Eq, Structural)]
pub struct Point {
    pub x: u64,
    pub y: u64,
}

/// An axis-aligned rectangle with a cached area.
#[derive(Clone, Copy, Debug, PartialEq, Eq, Structural)]
pub struct Rectangle {
    pub lowerLeft: Point,
    pub upperRight: Point,
    pub area: u64,
}

/// Area of the rectangle spanned by two corners, as an integer.
pub open spec fn span_area(ll: Point, ur: Point) -> int {
    (ur.x - ll.x) * (ur.y - ll.y)
}

/// The corners are ordered on both axes.
pub open spec fn normalized(r: Rectangle) -> bool {
    r.lowerLeft.x <= r.upperRight.x && r.lowerLeft.y <= r.upperRight.y
}

/// Corners ordered and the cached area is the true one.
pub open spec fn well_formed(r: Rectangle) -> bool {
    normalized(r) && r.area == span_area(r.lowerLeft, r.upperRight)
}

/// A rectangle that the index accepts: well formed, with coordinates bounded
/// so that the area of any covering rectangle fits in a `u64`.
pub open spec fn storable(r: Rectangle) -> bool {
    well_formed(r) && r.upperRight.x <= COORD_LIMIT && r.upperRight.y <= COORD_LIMIT
}

pub open spec fn min_u64(a: u64, b: u64) -> u64 {
    if a <= b { a } else { b }
}

pub open spec fn max_u64(a: u64, b: u64) -> u64 {
    if a >= b { a } else { b }
}

/// Lower-left corner of the smallest rectangle covering `a` and `b`.
pub open spec fn union_lower(a: Rectangle, b: Rectangle) -> Point {
    Point { x: min_u64(a.lowerLeft.x, b.lowerLeft.x), y: min_u64(a.lowerLeft.y, b.lowerLeft.y) }
}

/// Upper-right corner of the smallest rectangle covering `a` and `b`.
pub open spec fn union_upper(a: Rectangle, b: Rectangle) -> Point {
    Point { x: max_u64(a.upperRight.x, b.upperRight.x), y: max_u64(a.upperRight.y, b.upperRight.y) }
}

/// The smallest rectangle covering `a` and `b`, with its true area.
pub open spec fn union(a: Rectangle, b: Rectangle) -> Rectangle {
    Rectangle {
        lowerLeft: union_lower(a, b),
        upperRight: union_upper(a, b),
        area: span_area(union_lower(a, b), union_upper(a, b)) as u64,
    }
}

/// Closed-interval overlap on both axes.
pub open spec fn intersects(a: Rectangle, b: Rectangle) -> bool {
    a.lowerLeft.x <= b.upperRight.x && b.lowerLeft.x <= a.upperRight.x
        && a.lowerLeft.y <= b.upperRight.y && b.lowerLeft.y <= a.upperRight.y
}

/// Closed-interval membership on both axes.
pub open spec fn contains(r: Rectangle, p: Point) -> bool {
    r.lowerLeft.x <= p.x && p.x <= r.upperRight.x && r.lowerLeft.y <= p.y && p.y <= r.upperRight.y
}

/// `outer` encloses `inner` on both axes.
pub open spec fn covers(outer: Rectangle, inner: Rectangle) -> bool {
    outer.lowerLeft.x <= inner.lowerLeft.x && inner.upperRight.x <= outer.upperRight.x
        && outer.lowerLeft.y <= inner.lowerLeft.y && inner.upperRight.y <= outer.upperRight.y
}

/// The area that covering both rectangles needs, as an integer.
pub open spec fn union_area(a: Rectangle, b: Rectangle) -> int {
    span_area(union_lower(a, b), union_upper(a, b))
}

/// An area of two spans that are both at most `COORD_LIMIT` fits in a `u64`.
pub proof fn lemma_area_fits(w: int, h: int)
    requires
        0 <= w <= COORD_LIMIT,
        0 <= h <= COORD_LIMIT,
    ensures
        0 <= w * h <= u64::MAX,
{
    assert(0 <= w * h <= COORD_LIMIT * COORD_LIMIT) by (nonlinear_arith)
        requires
            0 <= w <= COORD_LIMIT,
            0 <= h <= COORD_LIMIT,
    ;
}

/// The union of two storable rectangles is storable and covers both.
pub proof fn lemma_union_storable(a: Rectangle, b: Rectangle)
    requires
        storable(a),
        storable(b),
    ensures
        storable(union(a, b)),
        covers(union(a, b), a),
        covers(union(a, b), b),
        union(a, b).area == union_area(a, b),
{
    let lo = union_lower(a, b);
    let hi = union_upper(a, b);
    lemma_area_fits(hi.x - lo.x, hi.y - lo.y);
}

/// Covering a rectangle needs at least its own area.
pub proof fn lemma_union_area_grows(a: Rectangle, b: Rectangle)
    requires
        well_formed(a),
    ensures
        union_area(a, b) >= a.area,
{
    let lo = union_lower(a, b);
    let hi = union_upper(a, b);
    let w = hi.x - lo.x;
    let h = hi.y - lo.y;
    let w0 = a.upperRight.x - a.lowerLeft.x;
    let h0 = a.upperRight.y - a.lowerLeft.y;
    assert(w * h >= w0 * h0) by (nonlinear_arith)
        requires
            w >= w0 >= 0,
            h >= h0 >= 0,
    ;
}

/// Overlap is symmetric.
pub proof fn lemma_intersects_symmetric(a: Rectangle, b: Rectangle)
    ensures
        intersects(a, b) == intersects(b, a),
{
}

/// Rectangles that touch only along an edge or at a corner intersect: `b`
/// starts on the line where `a` ends, on one axis, and their spans on the
/// other axis share at least one point.
pub proof fn lemma_touching_intersects(a: Rectangle, b: Rectangle)
    requires
        normalized(a),
        normalized(b),
        (a.upperRight.x == b.lowerLeft.x && a.lowerLeft.y <= b.upperRight.y && b.lowerLeft.y <= a.upperRight.y)
            || (a.upperRight.y == b.lowerLeft.y && a.lowerLeft.x <= b.upperRight.x && b.lowerLeft.x <= a.upperRight.x),
    ensures
        intersects(a, b),
        intersects(b, a),
{
}

/// Whether the index accepts `r`: corners ordered, coordinates at most
/// `COORD_LIMIT`, and the cached area the true one.
pub fn is_storable(r: &Rectangle) -> (ok: bool)
    ensures
        ok == storable(*r),
{
    if r.lowerLeft.x > r.upperRight.x || r.lowerLeft.y > r.upperRight.y {
        return false;
    }
    if r.upperRight.x > COORD_LIMIT || r.upperRight.y > COORD_LIMIT {
        return false;
    }
    proof {
        lemma_area_fits(r.upperRight.x - r.lowerLeft.x, r.upperRight.y - r.lowerLeft.y);
    }
    r.area == (r.upperRight.x - r.lowerLeft.x) * (r.upperRight.y - r.lowerLeft.y)
}

impl Rectangle {
    /// Builds a rectangle from its corners and its area, as given.
    pub fn new(xLower: u64, yLower: u64, xUpper: u64, yUpper: u64, area: u64) -> (r: Rectangle)
        ensures
            r.lowerLeft == (Point { x: xLower, y: yLower }),
            r.upperRight == (Point { x: xUpper, y: yUpper }),
            r.area == area,
    {
        let lowerLeft = Point { x: xLower, y: yLower };
        let upperRight = Point { x: xUpper, y: yUpper };
        Rectangle { lowerLeft, upperRight, area }
    }

    /// The smallest rectangle covering `self` and `requestedRectangle`, and the
    /// area that `self` has to grow by to become it.
    pub fn computeExpansionArea(&self, requestedRectangle: &Rectangle) -> (res: (Rectangle, u64))
        requires
            well_formed(*self),
            union_area(*self, *requestedRectangle) <= u64::MAX,
        ensures
            res.0 == union(*self, *requestedRectangle),
            res.0.area == union_area(*self, *requestedRectangle),
            res.1 == union_area(*self, *requestedRectangle) - self.area,
    {
        let minX = if self.lowerLeft.x <= requestedRectangle.lowerLeft.x {
            self.lowerLeft.x
        } else {
            requestedRectangle.lowerLeft.x
        };
        let minY = if self.lowerLeft.y <= requestedRectangle.lowerLeft.y {
            self.lowerLeft.y
        } else {
            requestedRectangle.lowerLeft.y
        };
        let maxX = if self.upperRight.x >= requestedRectangle.upperRight.x {
            self.upperRight.x
        } else {
            requestedRectangle.upperRight.x
        };
        let maxY = if self.upperRight.y >= requestedRectangle.upperRight.y {
            self.upperRight.y
        } else {
            requestedRectangle.upperRight.y
        };
        let lowerLeft = Point { x: minX, y: minY };
        let upperRight = Point { x: maxX, y: maxY };
        proof {
            lemma_union_area_grows(*self, *requestedRectangle);
        }
        let area = (maxX - minX) * (maxY - minY);
        let expandedRectangle = Rectangle { lowerLeft, upperRight, area };
        (expandedRectangle, area - self.area)
    }

    /// Whether the two rectangles overlap, boundaries included.
    pub fn intersectsRectangle(&self, requestedRectangle: &Rectangle) -> (r: bool)
        ensures
            r == intersects(*self, *requestedRectangle),
    {
        let intervalX = self.lowerLeft.x <= requestedRectangle.upperRight.x;
        let intervalXPrime = requestedRectangle.lowerLeft.x <= self.upperRight.x;
        let intervalY = self.lowerLeft.y <= requestedRectangle.upperRight.y;
        let intervalYPrime = requestedRectangle.lowerLeft.y <= self.upperRight.y;
        intervalX && intervalXPrime && intervalY && intervalYPrime
    }

    /// Whether the point lies in the rectangle, boundary included.
    pub fn containsPoint(&self, requestedPoint: &Point) -> (r: bool)
        ensures
            r == contains(*self, *requestedPoint),
    {
        let inXRange = self.lowerLeft.x <= requestedPoint.x && requestedPoint.x <= self.upperRight.x;
        let inYRange = self.lowerLeft.y <= requestedPoint.y && requestedPoint.y <= self.upperRight.y;
        inXRange && inYRange
    }
}

} // verus!
