//! The steps of one tick: the rebuild of the index from the boids, the
//! choice of each boid's neighbours and of its turns at the world's border,
//! and whether the boids move at all.
//!
//! A step works on the boids of the world and on the groups of the world.
//! It does its work only when the world holds exactly one group; with none,
//! or with more than one, it leaves everything as it is.

use vstd::prelude::*;
use crate::flock::{Body, BoidGroup, Collider, Team};
use crate::geometry::{BoundingRegion, Coord};
use crate::index::{Entry, Handle};
use crate::tilemap::LevelData;

verus! {

/// How near to the world's border a boid turns round.
pub const MARGIN: i32 = 20;

/// The depth at which boids are drawn.
pub const DEPTH: i32 = 5;

/// The sign of one component of a velocity.
#[derive(Clone, Copy, Debug, PartialEq, Eq, Structural)]
pub enum Sign {
    Negative,
    Zero,
    Positive,
}

/// The signs of a velocity along `x` and along `y`.
#[derive(Clone, Copy, Debug, PartialEq, Eq, Structural)]
pub struct Heading {
    pub x: Sign,
    pub y: Sign,
}

/// A boid as the steps see it.
///
/// `position` and `velocity` are the caller's vectors. `cell` is the
/// position on the grid and `heading` holds the signs of the velocity: the
/// steps decide by these two and hand the vectors on untouched.
#[derive(Clone, Copy, Debug)]
pub struct Boid<V> {
    pub entity: u64,
    pub cell: Coord,
    pub heading: Heading,
    pub position: V,
    pub velocity: V,
    pub collider: Collider,
}

/// What the steering step has decided for one boid: the neighbours whose
/// positions and velocities bend its course, and the axes along which its
/// new velocity is turned round at the border.
pub struct Steering<V> {
    pub neighbors: Vec<Body<V>>,
    pub flip_x: bool,
    pub flip_y: bool,
}

/// What the movement step needs besides each velocity: the speed of the
/// group, in thousandths of a grid unit per second, and the depth at which
/// boids are drawn.
#[derive(Clone, Copy, Debug, PartialEq, Eq, Structural)]
pub struct Advance {
    pub speed: u32,
    pub depth: i32,
}

/// At a coordinate `at`, a boid that moves along `sign` is turned round:
/// it is within `MARGIN` of the low border and moves down, or within
/// `MARGIN` of the high border at `limit` and moves up.
pub open spec fn turns(at: i32, sign: Sign, limit: i32) -> bool {
    (at < MARGIN && sign is Negative) || (at > limit - MARGIN && sign is Positive)
}

fn turn(at: i32, sign: Sign, limit: i32) -> (b: bool)
    ensures
        b == turns(at, sign, limit),
{
    let low: bool = match sign {
        Sign::Negative => at < MARGIN,
        _ => false,
    };
    let high: bool = match sign {
        Sign::Positive => at as i64 > limit as i64 - MARGIN as i64,
        _ => false,
    };
    low || high
}

/// The window in which a boid of `group` looks for neighbours: the region
/// of its collider, grown by the group's vision radius.
pub open spec fn window<V>(group: &BoidGroup<V>, boid: &Boid<V>) -> BoundingRegion {
    boid.collider.spec_into_region(boid.cell).spec_with_margin(group.spec_sight())
}

/// `s` is a steering for `boid` in `group`, in a world that reaches from 0
/// to `width` and from 0 to `height`.
pub open spec fn steers<V>(
    group: &BoidGroup<V>,
    boid: &Boid<V>,
    width: i32,
    height: i32,
    s: &Steering<V>,
) -> bool {
    &&& group.graph.answers(window(group, boid), boid.collider.spec_exclusion(), s.neighbors@)
    &&& s.flip_x == turns(boid.cell.x, boid.heading.x, width)
    &&& s.flip_y == turns(boid.cell.y, boid.heading.y, height)
}

/// Decides the steering of one boid: asks the index for the bodies in the
/// boid's window, leaving out the boid itself, and tests the border rule.
pub fn steer<V: Copy>(group: &BoidGroup<V>, boid: &Boid<V>, width: i32, height: i32) -> (s:
    Steering<V>)
    ensures
        steers(group, boid, width, height, &s),
{
    let region = boid.collider.into_region(boid.cell).with_margin(group.sight());
    let exclude = boid.collider.exclusion();
    let found = group.graph.query(&region, &exclude);
    let mut neighbors: Vec<Body<V>> = Vec::new();
    let mut k: usize = 0;
    while k < found.len()
        invariant
            k <= found.len(),
            neighbors@.len() == k,
            forall|i: int| 0 <= i < k ==> neighbors@[i] == *found@[i],
        decreases found.len() - k,
    {
        neighbors.push(*found[k]);
        k += 1;
    }
    assert(neighbors@ =~= found@.map_values(|b: &Body<V>| *b));
    Steering {
        neighbors,
        flip_x: turn(boid.cell.x, boid.heading.x, width),
        flip_y: turn(boid.cell.y, boid.heading.y, height),
    }
}

/// The group that the steps work with: the only one, if the world holds
/// exactly one.
pub fn single<V>(universe: &Vec<BoidGroup<V>>) -> (found: Option<&BoidGroup<V>>)
    ensures
        universe@.len() == 1 ==> found == Some(&universe@[0]),
        universe@.len() != 1 ==> found is None,
{
    if universe.len() == 1 {
        Some(&universe[0])
    } else {
        None
    }
}

/// Makes the world's group, once. `loaded` is the latch: while it is down
/// the call adds a fresh group for the level, from `(0, 0)` to the level's
/// width and height, and sets it; once it is set the call does nothing.
pub fn create_boid_group<V>(
    universe: &mut Vec<BoidGroup<V>>,
    level_data: &LevelData,
    loaded: &mut bool,
)
    ensures
        *final(loaded),
        *old(loaded) ==> final(universe)@ == old(universe)@,
        !*old(loaded) ==> {
            &&& final(universe)@.len() == old(universe)@.len() + 1
            &&& final(universe)@.drop_last() == old(universe)@
            &&& final(universe)@.last().fresh(
                Coord { x: 0, y: 0 },
                Coord { x: level_data.level_width, y: level_data.level_height },
                Team(0),
            )
        },
{
    if *loaded {
        return ;
    }
    let group = BoidGroup::new(
        Coord::new(0, 0),
        Coord::new(level_data.level_width, level_data.level_height),
        Team(0),
    );
    universe.push(group);
    *loaded = true;
    assert(universe@.drop_last() =~= old(universe)@);
}

/// What the rebuild stores for `boid`: its body, under the region of its
/// collider.
pub open spec fn entry_of<V>(boid: Boid<V>) -> Entry<Body<V>> {
    Entry {
        region: boid.collider.spec_into_region(boid.cell),
        body: Body { entity: boid.entity, position: boid.position, velocity: boid.velocity },
    }
}

/// What the index holds after a rebuild from `boids`: one entry for each
/// boid, in the order of the boids.
pub open spec fn snapshot<V>(boids: Seq<Boid<V>>) -> Seq<Entry<Body<V>>> {
    boids.map_values(|b: Boid<V>| entry_of(b))
}

/// `after` is `before` with the handle `h` in its collider.
pub open spec fn registered<V>(before: Boid<V>, after: Boid<V>, h: Handle) -> bool {
    after == Boid { collider: Collider { radius: before.collider.radius, id: Some(h) }, ..before }
}

/// The generation that follows `g`.
pub open spec fn next_generation(g: u64) -> u64 {
    if g == u64::MAX {
        0
    } else {
        (g + 1) as u64
    }
}

/// `after` is `before` with its index rebuilt from `boids`: the entries
/// are those of `snapshot`, the index has moved on one generation, and the
/// bounds and the weights are as they were.
pub open spec fn rebuilt<V>(before: BoidGroup<V>, after: BoidGroup<V>, boids: Seq<Boid<V>>) -> bool {
    &&& after.graph@ == snapshot(boids)
    &&& after.graph.generation() == next_generation(before.graph.generation())
    &&& after.graph.spec_bounds() == before.graph.spec_bounds()
    &&& after.id == before.id
    &&& after.count == before.count
    &&& after.separation == before.separation
    &&& after.alignment == before.alignment
    &&& after.cohesion == before.cohesion
    &&& after.speed == before.speed
    &&& after.vision == before.vision
}

/// Rebuilds the index of the world's group from the boids: clears it,
/// inserts every boid's body under the region of its collider, and writes
/// the new handle into the collider. A world that does not hold exactly one
/// group is left as it is, and so are its boids.
pub fn build_or_update_quadtree<V: Copy>(
    boids: &mut Vec<Boid<V>>,
    universe: &mut Vec<BoidGroup<V>>,
)
    ensures
        final(universe)@.len() == old(universe)@.len(),
        final(boids)@.len() == old(boids)@.len(),
        old(universe)@.len() != 1 ==> final(universe)@ == old(universe)@ && final(boids)@ == old(
            boids,
        )@,
        old(universe)@.len() == 1 ==> {
            &&& rebuilt(old(universe)@[0], final(universe)@[0], old(boids)@)
            &&& forall|i: int|
                0 <= i < old(boids)@.len() ==> registered(
                    old(boids)@[i],
                    #[trigger] final(boids)@[i],
                    final(universe)@[0].graph.handle_at(i),
                )
        },
{
    if universe.len() != 1 {
        return ;
    }
    let mut group = universe.pop().unwrap();
    let ghost before = group;
    group.graph.clear();
    let mut i: usize = 0;
    while i < boids.len()
        invariant
            i <= boids.len(),
            boids@.len() == old(boids)@.len(),
            group.graph@ == snapshot(old(boids)@.take(i as int)),
            group.graph.generation() == next_generation(before.graph.generation()),
            group.graph.spec_bounds() == before.graph.spec_bounds(),
            group.id == before.id,
            group.count == before.count,
            group.separation == before.separation,
            group.alignment == before.alignment,
            group.cohesion == before.cohesion,
            group.speed == before.speed,
            group.vision == before.vision,
            forall|k: int| i <= k < boids@.len() ==> boids@[k] == old(boids)@[k],
            forall|k: int|
                0 <= k < i ==> registered(
                    old(boids)@[k],
                    #[trigger] boids@[k],
                    group.graph.handle_at(k),
                ),
        decreases boids.len() - i,
    {
        let boid = boids[i];
        let body = Body { entity: boid.entity, position: boid.position, velocity: boid.velocity };
        let h = group.graph.insert(boid.collider.into_region(boid.cell), body);
        boids.set(
            i,
            Boid {
                entity: boid.entity,
                cell: boid.cell,
                heading: boid.heading,
                position: boid.position,
                velocity: boid.velocity,
                collider: Collider { radius: boid.collider.radius, id: Some(h) },
            },
        );
        proof {
            assert(old(boids)@.take(i + 1) =~= old(boids)@.take(i as int).push(old(boids)@[i as int]));
            assert(group.graph@ =~= snapshot(old(boids)@.take(i + 1)));
        }
        i += 1;
    }
    proof {
        assert(old(boids)@.take(i as int) =~= old(boids)@);
    }
    universe.push(group);
}

/// Decides the steering of every boid, each against the index as the last
/// rebuild left it. The result has one steering for each boid, in the order
/// of the boids; it is empty when the world does not hold exactly one
/// group.
pub fn update_boids<V: Copy>(
    boids: &Vec<Boid<V>>,
    universe: &Vec<BoidGroup<V>>,
    width: i32,
    height: i32,
) -> (plan: Vec<Steering<V>>)
    ensures
        universe@.len() != 1 ==> plan@.len() == 0,
        universe@.len() == 1 ==> {
            &&& plan@.len() == boids@.len()
            &&& forall|i: int|
                0 <= i < boids@.len() ==> steers(
                    &universe@[0],
                    &boids@[i],
                    width,
                    height,
                    #[trigger] &plan@[i],
                )
        },
{
    let mut plan: Vec<Steering<V>> = Vec::new();
    match single(universe) {
        None => {},
        Some(group) => {
            let mut i: usize = 0;
            while i < boids.len()
                invariant
                    i <= boids.len(),
                    universe@.len() == 1,
                    group == &universe@[0],
                    plan@.len() == i,
                    forall|k: int|
                        0 <= k < i ==> steers(
                            &universe@[0],
                            &boids@[k],
                            width,
                            height,
                            #[trigger] &plan@[k],
                        ),
                decreases boids.len() - i,
            {
                plan.push(steer(group, &boids[i], width, height));
                i += 1;
            }
        },
    }
    plan
}

/// Whether the boids move: with exactly one group in the world the
/// boids move, by their velocity times the group's speed times the time
/// that has passed, and are drawn at `DEPTH`; otherwise nothing moves.
pub fn move_system<V>(universe: &Vec<BoidGroup<V>>) -> (advance: Option<Advance>)
    ensures
        universe@.len() != 1 ==> advance is None,
        universe@.len() == 1 ==> advance == Some(
            Advance { speed: universe@[0].speed, depth: DEPTH },
        ),
{
    match single(universe) {
        None => None,
        Some(group) => Some(Advance { speed: group.speed, depth: DEPTH }),
    }
}

/// Two boids that differ at most in the handle of their collider.
pub open spec fn same_but_handle<V>(a: Boid<V>, b: Boid<V>) -> bool {
    &&& a.entity == b.entity
    &&& a.cell == b.cell
    &&& a.heading == b.heading
    &&& a.position == b.position
    &&& a.velocity == b.velocity
    &&& a.collider.radius == b.collider.radius
}

/// A rebuild does not depend on the handles that the colliders held before
/// it: the entries that it stores are those of the boids' places, vectors
/// and radii.
pub proof fn lemma_snapshot_ignores_handles<V>(before: Seq<Boid<V>>, after: Seq<Boid<V>>)
    requires
        before.len() == after.len(),
        forall|i: int| 0 <= i < before.len() ==> same_but_handle(before[i], #[trigger] after[i]),
    ensures
        snapshot(after) == snapshot(before),
{
    assert forall|i: int| 0 <= i < before.len() implies entry_of(after[i]) == entry_of(
        before[i],
    ) by {
        assert(same_but_handle(before[i], after[i]));
    }
    assert(snapshot(after) =~= snapshot(before));
}

/// Rebuilding twice from boids that did not move gives the same answers:
/// after the second rebuild every boid's query selects the places that it
/// selected after the first. `first` and `second` are the group after each
/// rebuild; `once` and `twice` are the boids after each.
pub proof fn lemma_rebuild_repeatable<V>(
    start: BoidGroup<V>,
    first: BoidGroup<V>,
    second: BoidGroup<V>,
    boids: Seq<Boid<V>>,
    once: Seq<Boid<V>>,
    twice: Seq<Boid<V>>,
    i: int,
    slots: Seq<int>,
)
    requires
        boids.len() <= usize::MAX,
        rebuilt(start, first, boids),
        rebuilt(first, second, once),
        boids.len() == once.len() == twice.len(),
        forall|k: int|
            0 <= k < boids.len() ==> registered(boids[k], #[trigger] once[k], first.graph.handle_at(k)),
        forall|k: int|
            0 <= k < once.len() ==> registered(once[k], #[trigger] twice[k], second.graph.handle_at(k)),
        0 <= i < boids.len(),
    ensures
        second.graph@ == first.graph@,
        window(&second, &twice[i]) == window(&first, &once[i]),
        second.graph.selects(window(&second, &twice[i]), twice[i].collider.spec_exclusion(), slots)
            <==> first.graph.selects(
            window(&first, &once[i]),
            once[i].collider.spec_exclusion(),
            slots,
        ),
{
    assert forall|k: int| 0 <= k < boids.len() implies same_but_handle(
        boids[k],
        #[trigger] once[k],
    ) by {
        assert(registered(boids[k], once[k], first.graph.handle_at(k)));
    }
    lemma_snapshot_ignores_handles(boids, once);
    assert(registered(boids[i], once[i], first.graph.handle_at(i)));
    assert(registered(once[i], twice[i], second.graph.handle_at(i)));
    let ex1 = once[i].collider.spec_exclusion();
    let ex2 = twice[i].collider.spec_exclusion();
    assert(ex1 =~= seq![first.graph.handle_at(i)]);
    assert(ex2 =~= seq![second.graph.handle_at(i)]);
    assert forall|k: int| 0 <= k < first.graph@.len() implies (ex1.contains(
        first.graph.handle_at(k),
    ) <==> ex2.contains(second.graph.handle_at(k))) by {
        assert(ex1[0] == first.graph.handle_at(i));
        assert(ex2[0] == second.graph.handle_at(i));
        if k != i {
            assert(first.graph.handle_at(k).slot != first.graph.handle_at(i).slot);
            assert(second.graph.handle_at(k).slot != second.graph.handle_at(i).slot);
        }
    }
    first.graph.lemma_same_entries_same_selection(
        &second.graph,
        window(&first, &once[i]),
        ex1,
        ex2,
        slots,
    );
}

/// A boid that stands in the index under its own handle, and whose window
/// no other entry meets, has no neighbours.
pub proof fn lemma_alone_no_neighbors<V>(
    group: &BoidGroup<V>,
    boid: &Boid<V>,
    width: i32,
    height: i32,
    s: &Steering<V>,
)
    requires
        steers(group, boid, width, height, s),
        boid.collider.id is Some,
        boid.collider.id->0.generation == group.graph.generation(),
        forall|i: int|
            0 <= i < group.graph@.len() && i != boid.collider.id->0.slot
                ==> !(#[trigger] group.graph@[i]).region.spec_intersects(window(group, boid)),
    ensures
        s.neighbors@.len() == 0,
{
    let own = boid.collider.id->0;
    let exclude = boid.collider.spec_exclusion();
    assert(exclude[0] == own);
    assert forall|i: int| !group.graph.hit(i, window(group, boid), exclude) by {
        if 0 <= i < group.graph@.len() && i == own.slot {
            assert(group.graph.handle_at(i) == own);
        }
    }
    group.graph.lemma_nothing_owed(window(group, boid), exclude, s.neighbors@);
}

} // verus!
