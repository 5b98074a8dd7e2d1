//! The flock: what a boid's collider is, what the index keeps of a boid, and
//! the group that owns the index and the tunable weights.

use vstd::prelude::*;
use crate::geometry::{BoundingRegion, Coord};
use crate::index::{Handle, SpatialIndex};

verus! {

/// The number of the team that a group flies for.
#[derive(Clone, Copy, Debug, PartialEq, Eq, Structural)]
pub struct Team(pub u32);

/// The extent of a boid on the grid, and the handle under which the boid
/// stands in the index since the last rebuild.
#[derive(Clone, Copy, Debug, PartialEq, Eq, Structural)]
pub struct Collider {
    pub radius: u32,
    pub id: Option<Handle>,
}

impl Collider {
    /// A collider that has not been inserted yet.
    pub fn new(radius: u32) -> (c: Self)
        ensures
            c.radius == radius,
            c.id is None,
    {
        Collider { radius, id: None }
    }

    pub open spec fn spec_into_region(&self, origin: Coord) -> BoundingRegion {
        BoundingRegion::spec_around(origin, self.radius)
    }

    /// The region that the collider covers when its boid is at `origin`:
    /// `origin` plus and minus the radius, cut off at the ends of the grid.
    #[verifier::when_used_as_spec(spec_into_region)]
    pub fn into_region(&self, origin: Coord) -> (r: BoundingRegion)
        ensures
            r == self.spec_into_region(origin),
            r.valid(),
            r.spec_contains(BoundingRegion { min: origin, max: origin }),
    {
        BoundingRegion::around(origin, self.radius)
    }

    /// The handles that a query for this collider's neighbours leaves out:
    /// its own, if it has one.
    pub open spec fn spec_exclusion(&self) -> Seq<Handle> {
        match self.id {
            Some(h) => seq![h],
            None => Seq::empty(),
        }
    }

    pub fn exclusion(&self) -> (list: Vec<Handle>)
        ensures
            list@ == self.spec_exclusion(),
    {
        let mut list: Vec<Handle> = Vec::new();
        match self.id {
            Some(h) => {
                list.push(h);
                assert(list@ =~= seq![h]);
            },
            None => {},
        }
        list
    }
}

/// What the index keeps of a boid for one tick: the entity it belongs to
/// and the boid's position and velocity when the index was rebuilt.
///
/// `V` is the caller's vector type. The library stores and returns vectors
/// as they are and never looks into one.
#[derive(Clone, Copy, Debug)]
pub struct Body<V> {
    pub entity: u64,
    pub position: V,
    pub velocity: V,
}

/// The default weight of separation, in thousandths.
pub const DEFAULT_SEPARATION: u32 = 500;

/// The default weight of alignment, in thousandths.
pub const DEFAULT_ALIGNMENT: u32 = 300;

/// The default weight of cohesion, in thousandths.
pub const DEFAULT_COHESION: u32 = 300;

/// The default speed, in thousandths of a grid unit per second.
pub const DEFAULT_SPEED: u32 = 240_000;

/// The default vision radius, in thousandths of a grid unit.
pub const DEFAULT_VISION: u32 = 600_000;

/// One flock: its index and its tunable weights.
///
/// The five weights are fixed-point numbers with three decimals, kept as
/// thousandths: a separation of 500 stands for 0.5.
pub struct BoidGroup<V> {
    pub graph: SpatialIndex<Body<V>>,
    pub id: u32,
    pub count: u32,
    pub separation: u32,
    pub alignment: u32,
    pub cohesion: u32,
    pub speed: u32,
    pub vision: u32,
}

impl<V> BoidGroup<V> {
    /// A group as `new` makes it: an empty index and the default weights.
    pub open spec fn fresh(&self, min: Coord, max: Coord, team: Team) -> bool {
        &&& self.graph@.len() == 0
        &&& self.graph.generation() == 0
        &&& self.graph.spec_bounds() == BoundingRegion::spec_new(min, max)
        &&& self.id == team.0
        &&& self.count == 0
        &&& self.separation == DEFAULT_SEPARATION
        &&& self.alignment == DEFAULT_ALIGNMENT
        &&& self.cohesion == DEFAULT_COHESION
        &&& self.speed == DEFAULT_SPEED
        &&& self.vision == DEFAULT_VISION
    }

    /// A group for the world between the corners `min` and `max`.
    pub fn new(min: Coord, max: Coord, team: Team) -> (group: Self)
        ensures
            group.fresh(min, max, team),
    {
        BoidGroup {
            graph: SpatialIndex::new(BoundingRegion::new(min, max)),
            id: team.0,
            count: 0,
            separation: DEFAULT_SEPARATION,
            alignment: DEFAULT_ALIGNMENT,
            cohesion: DEFAULT_COHESION,
            speed: DEFAULT_SPEED,
            vision: DEFAULT_VISION,
        }
    }

    /// The vision radius in whole grid units, rounded down.
    pub open spec fn spec_sight(&self) -> u32 {
        self.vision / 1000
    }

    #[verifier::when_used_as_spec(spec_sight)]
    pub fn sight(&self) -> (units: u32)
        ensures
            units == self.spec_sight(),
    {
        self.vision / 1000
    }
}

/// The first and the last frame of an animation on its sheet.
#[derive(Clone, Copy, Debug, PartialEq, Eq, Structural)]
pub struct AnimationIndices {
    pub first: usize,
    pub last: usize,
}

impl AnimationIndices {
    /// The frame that follows `index`: the first frame after the last one,
    /// else the next frame of the sheet.
    pub fn next(&self, index: usize) -> (frame: usize)
        requires
            index == self.last || index < usize::MAX,
        ensures
            frame == if index == self.last {
                self.first as int
            } else {
                index + 1
            },
    {
        if index == self.last {
            self.first
        } else {
            index + 1
        }
    }
}

} // verus!
