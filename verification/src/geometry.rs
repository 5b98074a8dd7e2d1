//! Points and axis-aligned regions on the integer grid.

use vstd::prelude::*;

verus! {

/// A point of the grid.
#[derive(Clone, Copy, Debug, PartialEq, Eq, Structural)]
pub struct Coord {
    pub x: i32,
    pub y: i32,
}

/// The value of the grid that is nearest to `v`.
pub open spec fn clamp(v: int) -> int {
    if v < i32::MIN {
        i32::MIN as int
    } else if v > i32::MAX {
        i32::MAX as int
    } else {
        v
    }
}

/// Brings a wide integer back to the grid, stopping at the grid's ends.
fn saturate(v: i64) -> (r: i32)
    ensures
        r == clamp(v as int),
{
    if v < i32::MIN as i64 {
        i32::MIN
    } else if v > i32::MAX as i64 {
        i32::MAX
    } else {
        v as i32
    }
}

impl Coord {
    pub fn new(x: i32, y: i32) -> (c: Self)
        ensures
            c.x == x,
            c.y == y,
    {
        Coord { x, y }
    }
}

/// One of the four parts into which a region is cut: low or high `x`
/// (west, east), low or high `y` (south, north).
#[derive(Clone, Copy, Debug, PartialEq, Eq, Structural)]
pub enum Quadrant {
    SouthWest,
    SouthEast,
    NorthWest,
    NorthEast,
}

/// An axis-aligned box, both corners included.
///
/// A region is `valid` when its `min` corner is below and left of its `max`
/// corner (or equal to it). Every constructor here gives a valid region.
#[derive(Clone, Copy, Debug, PartialEq, Eq, Structural)]
pub struct BoundingRegion {
    pub min: Coord,
    pub max: Coord,
}

impl BoundingRegion {
    /// The `min` corner is not above nor right of the `max` corner.
    pub open spec fn spec_valid(self) -> bool {
        self.min.x <= self.max.x && self.min.y <= self.max.y
    }

    /// The two regions share at least one point.
    pub open spec fn spec_intersects(self, other: BoundingRegion) -> bool {
        &&& self.min.x <= other.max.x
        &&& other.min.x <= self.max.x
        &&& self.min.y <= other.max.y
        &&& other.min.y <= self.max.y
    }

    /// `other` lies wholly inside this region.
    pub open spec fn spec_contains(self, other: BoundingRegion) -> bool {
        &&& self.min.x <= other.min.x
        &&& other.max.x <= self.max.x
        &&& self.min.y <= other.min.y
        &&& other.max.y <= self.max.y
    }

    /// The region grown by `margin` on each of its four sides.
    pub open spec fn spec_with_margin(self, margin: u32) -> BoundingRegion {
        BoundingRegion {
            min: Coord { x: clamp(self.min.x - margin) as i32, y: clamp(self.min.y - margin) as i32 },
            max: Coord { x: clamp(self.max.x + margin) as i32, y: clamp(self.max.y + margin) as i32 },
        }
    }

    /// The square of side `2 * radius` around `center`.
    pub open spec fn spec_around(center: Coord, radius: u32) -> BoundingRegion {
        BoundingRegion {
            min: Coord { x: clamp(center.x - radius) as i32, y: clamp(center.y - radius) as i32 },
            max: Coord { x: clamp(center.x + radius) as i32, y: clamp(center.y + radius) as i32 },
        }
    }

    /// The smallest region that holds both corners: along each axis it
    /// reaches from the lesser to the greater of the two coordinates.
    pub open spec fn spec_new(a: Coord, b: Coord) -> BoundingRegion {
        BoundingRegion {
            min: Coord {
                x: if a.x <= b.x { a.x } else { b.x },
                y: if a.y <= b.y { a.y } else { b.y },
            },
            max: Coord {
                x: if a.x <= b.x { b.x } else { a.x },
                y: if a.y <= b.y { b.y } else { a.y },
            },
        }
    }

    /// The point `p` lies in the region.
    pub open spec fn holds(self, p: Coord) -> bool {
        self.min.x <= p.x <= self.max.x && self.min.y <= p.y <= self.max.y
    }

    /// A region can be cut in four when it is more than one point wide and
    /// more than one point high.
    pub open spec fn spec_can_split(self) -> bool {
        self.min.x < self.max.x && self.min.y < self.max.y
    }

    /// The last column of the western half.
    pub open spec fn mid_x(self) -> int {
        self.min.x + (self.max.x - self.min.x) / 2
    }

    /// The last row of the southern half.
    pub open spec fn mid_y(self) -> int {
        self.min.y + (self.max.y - self.min.y) / 2
    }

    /// The part of this region that `which` names. The four parts share no
    /// point and together cover the region.
    pub open spec fn spec_quadrant(self, which: Quadrant) -> BoundingRegion {
        let west = which is SouthWest || which is NorthWest;
        let south = which is SouthWest || which is SouthEast;
        BoundingRegion {
            min: Coord {
                x: if west { self.min.x } else { (self.mid_x() + 1) as i32 },
                y: if south { self.min.y } else { (self.mid_y() + 1) as i32 },
            },
            max: Coord {
                x: if west { self.mid_x() as i32 } else { self.max.x },
                y: if south { self.mid_y() as i32 } else { self.max.y },
            },
        }
    }

    /// The smallest region that holds both corners.
    #[verifier::when_used_as_spec(spec_new)]
    pub fn new(a: Coord, b: Coord) -> (r: Self)
        ensures
            r == Self::spec_new(a, b),
            r.valid(),
            a.x <= b.x && a.y <= b.y ==> r.min == a && r.max == b,
    {
        let (x0, x1): (i32, i32) = if a.x <= b.x { (a.x, b.x) } else { (b.x, a.x) };
        let (y0, y1): (i32, i32) = if a.y <= b.y { (a.y, b.y) } else { (b.y, a.y) };
        BoundingRegion { min: Coord { x: x0, y: y0 }, max: Coord { x: x1, y: y1 } }
    }

    /// The square of side `2 * radius` around `center`, cut off at the ends
    /// of the grid.
    pub fn around(center: Coord, radius: u32) -> (r: Self)
        ensures
            r == Self::spec_around(center, radius),
            r.valid(),
            r.spec_contains(BoundingRegion { min: center, max: center }),
    {
        BoundingRegion {
            min: Coord {
                x: saturate(center.x as i64 - radius as i64),
                y: saturate(center.y as i64 - radius as i64),
            },
            max: Coord {
                x: saturate(center.x as i64 + radius as i64),
                y: saturate(center.y as i64 + radius as i64),
            },
        }
    }

    #[verifier::when_used_as_spec(spec_valid)]
    pub fn valid(self) -> (b: bool)
        ensures
            b == self.spec_valid(),
    {
        self.min.x <= self.max.x && self.min.y <= self.max.y
    }

    #[verifier::when_used_as_spec(spec_intersects)]
    pub fn intersects(self, other: BoundingRegion) -> (b: bool)
        ensures
            b == self.spec_intersects(other),
    {
        self.min.x <= other.max.x && other.min.x <= self.max.x && self.min.y <= other.max.y
            && other.min.y <= self.max.y
    }

    #[verifier::when_used_as_spec(spec_contains)]
    pub fn contains(self, other: BoundingRegion) -> (b: bool)
        ensures
            b == self.spec_contains(other),
    {
        self.min.x <= other.min.x && other.max.x <= self.max.x && self.min.y <= other.min.y
            && other.max.y <= self.max.y
    }

    #[verifier::when_used_as_spec(spec_can_split)]
    pub fn can_split(self) -> (b: bool)
        ensures
            b == self.spec_can_split(),
    {
        self.min.x < self.max.x && self.min.y < self.max.y
    }

    /// One of the four parts of a region that can be split.
    #[verifier::when_used_as_spec(spec_quadrant)]
    pub fn quadrant(self, which: Quadrant) -> (r: Self)
        requires
            self.spec_can_split(),
        ensures
            r == self.spec_quadrant(which),
            r.valid(),
            self.spec_contains(r),
    {
        let mid_x: i64 = self.min.x as i64 + (self.max.x as i64 - self.min.x as i64) / 2;
        let mid_y: i64 = self.min.y as i64 + (self.max.y as i64 - self.min.y as i64) / 2;
        let (x0, x1): (i64, i64) = match which {
            Quadrant::SouthWest | Quadrant::NorthWest => (self.min.x as i64, mid_x),
            Quadrant::SouthEast | Quadrant::NorthEast => (mid_x + 1, self.max.x as i64),
        };
        let (y0, y1): (i64, i64) = match which {
            Quadrant::SouthWest | Quadrant::SouthEast => (self.min.y as i64, mid_y),
            Quadrant::NorthWest | Quadrant::NorthEast => (mid_y + 1, self.max.y as i64),
        };
        BoundingRegion {
            min: Coord { x: x0 as i32, y: y0 as i32 },
            max: Coord { x: x1 as i32, y: y1 as i32 },
        }
    }

    /// The region grown by `margin` on each side, cut off at the ends of
    /// the grid.
    #[verifier::when_used_as_spec(spec_with_margin)]
    pub fn with_margin(self, margin: u32) -> (r: Self)
        ensures
            r == self.spec_with_margin(margin),
            self.valid() ==> r.valid() && r.spec_contains(self),
    {
        BoundingRegion {
            min: Coord {
                x: saturate(self.min.x as i64 - margin as i64),
                y: saturate(self.min.y as i64 - margin as i64),
            },
            max: Coord {
                x: saturate(self.max.x as i64 + margin as i64),
                y: saturate(self.max.y as i64 + margin as i64),
            },
        }
    }
}

/// The four quadrants of a region share no point and together cover it: a
/// point of the region lies in exactly one of them, and a point outside
/// lies in none.
pub proof fn lemma_quadrants_tile(r: BoundingRegion, p: Coord)
    requires
        r.spec_can_split(),
    ensures
        r.holds(p) <==> (r.spec_quadrant(Quadrant::SouthWest).holds(p) || r.spec_quadrant(
            Quadrant::SouthEast,
        ).holds(p) || r.spec_quadrant(Quadrant::NorthWest).holds(p) || r.spec_quadrant(
            Quadrant::NorthEast,
        ).holds(p)),
        forall|a: Quadrant, b: Quadrant|
            a != b ==> !(r.spec_quadrant(a).holds(p) && r.spec_quadrant(b).holds(p)),
{
}

/// Two regions meet exactly when they share a point.
pub proof fn lemma_intersects_shares_point(a: BoundingRegion, b: BoundingRegion)
    requires
        a.valid(),
        b.valid(),
    ensures
        a.spec_intersects(b) <==> exists|p: Coord| a.holds(p) && b.holds(p),
{
    if a.spec_intersects(b) {
        let p = Coord {
            x: if a.min.x <= b.min.x { b.min.x } else { a.min.x },
            y: if a.min.y <= b.min.y { b.min.y } else { a.min.y },
        };
        assert(a.holds(p) && b.holds(p));
    }
}

} // verus!
