use bee_boids::flock::{Body, BoidGroup, Collider, Team};
use bee_boids::geometry::{BoundingRegion, Coord};
use bee_boids::index::Handle;
use bee_boids::systems::{
    build_or_update_quadtree, create_boid_group, move_system, single, steer, update_boids,
    Advance, Boid, Heading, Sign, Steering, DEPTH, MARGIN,
};
use bee_boids::tilemap::LevelData;

type Vec3 = [f32; 3];

fn sign(v: f32) -> Sign {
    if v < 0.0 {
        Sign::Negative
    } else if v > 0.0 {
        Sign::Positive
    } else {
        Sign::Zero
    }
}

fn boid(entity: u64, position: Vec3, velocity: Vec3, radius: u32) -> Boid<Vec3> {
    Boid {
        entity,
        cell: Coord::new(position[0] as i32, position[1] as i32),
        heading: Heading { x: sign(velocity[0]), y: sign(velocity[1]) },
        position,
        velocity,
        collider: Collider::new(radius),
    }
}

fn world(width: i32, height: i32) -> Vec<BoidGroup<Vec3>> {
    let mut universe: Vec<BoidGroup<Vec3>> = Vec::new();
    let mut loaded = false;
    let level = LevelData { level_height: height, level_width: width };
    create_boid_group(&mut universe, &level, &mut loaded);
    universe
}

fn length(v: Vec3) -> f32 {
    (v[0] * v[0] + v[1] * v[1] + v[2] * v[2]).sqrt()
}

fn plus(a: Vec3, b: Vec3) -> Vec3 {
    [a[0] + b[0], a[1] + b[1], a[2] + b[2]]
}

fn minus(a: Vec3, b: Vec3) -> Vec3 {
    [a[0] - b[0], a[1] - b[1], a[2] - b[2]]
}

fn times(a: Vec3, s: f32) -> Vec3 {
    [a[0] * s, a[1] * s, a[2] * s]
}

/// The vector of length one along `v`; the zero vector for the zero vector.
fn unit(v: Vec3) -> Vec3 {
    let l = length(v);
    if l > 0.0 {
        times(v, 1.0 / l)
    } else {
        [0.0; 3]
    }
}

fn separation_sum(me: &Boid<Vec3>, steering: &Steering<Vec3>) -> Vec3 {
    let mut sum = [0.0; 3];
    for n in &steering.neighbors {
        sum = plus(sum, unit(minus(me.position, n.position)));
    }
    sum
}

/// The blend of the three rules, before the speed is put back.
fn direction(me: &Boid<Vec3>, steering: &Steering<Vec3>, group: &BoidGroup<Vec3>) -> Vec3 {
    let mut cohesion = [0.0; 3];
    let mut alignment = [0.0; 3];
    for n in &steering.neighbors {
        cohesion = plus(cohesion, unit(n.position));
        alignment = plus(alignment, unit(n.velocity));
    }
    let separation = separation_sum(me, steering);
    let mut direction = unit(me.velocity);
    if length(cohesion) > 0.0 {
        let pull = unit(minus(unit(cohesion), unit(me.position)));
        direction = plus(direction, times(pull, group.cohesion as f32 / 1000.0));
    }
    if length(alignment) > 0.0 {
        direction = plus(direction, times(unit(alignment), group.alignment as f32 / 1000.0));
    }
    if length(separation) > 0.0 {
        direction = plus(direction, times(unit(separation), group.separation as f32 / 1000.0));
    }
    direction
}

fn new_velocity(me: &Boid<Vec3>, steering: &Steering<Vec3>, group: &BoidGroup<Vec3>) -> Vec3 {
    let mut v = times(unit(direction(me, steering, group)), length(me.velocity));
    if steering.flip_x {
        v[0] *= -1.0;
    }
    if steering.flip_y {
        v[1] *= -1.0;
    }
    v
}

#[test]
fn group_is_made_once() {
    let mut universe: Vec<BoidGroup<Vec3>> = Vec::new();
    let mut loaded = false;
    let level = LevelData { level_height: 23040, level_width: 23040 };
    create_boid_group(&mut universe, &level, &mut loaded);
    assert!(loaded);
    assert_eq!(universe.len(), 1);
    assert_eq!(universe[0].id, 0);
    assert_eq!(
        universe[0].graph.bounds(),
        BoundingRegion { min: Coord { x: 0, y: 0 }, max: Coord { x: 23040, y: 23040 } }
    );
    assert_eq!(universe[0].graph.len(), 0);
    let other = LevelData { level_height: 10, level_width: 10 };
    create_boid_group(&mut universe, &other, &mut loaded);
    assert!(loaded);
    assert_eq!(universe.len(), 1);
    assert_eq!(universe[0].graph.bounds().max, Coord { x: 23040, y: 23040 });
}

#[test]
fn group_spans_width_and_height_of_the_level() {
    let universe = world(3840, 2160);
    assert_eq!(
        universe[0].graph.bounds(),
        BoundingRegion { min: Coord { x: 0, y: 0 }, max: Coord { x: 3840, y: 2160 } }
    );
}

#[test]
fn set_latch_makes_no_group() {
    let mut universe: Vec<BoidGroup<Vec3>> = Vec::new();
    let mut loaded = true;
    let level = LevelData { level_height: 100, level_width: 100 };
    create_boid_group(&mut universe, &level, &mut loaded);
    assert!(loaded);
    assert!(universe.is_empty());
}

#[test]
fn single_needs_exactly_one_group() {
    let mut universe: Vec<BoidGroup<Vec3>> = Vec::new();
    assert!(single(&universe).is_none());
    universe.push(BoidGroup::new(Coord::new(0, 0), Coord::new(10, 10), Team(1)));
    assert_eq!(single(&universe).map(|g| g.id), Some(1));
    universe.push(BoidGroup::new(Coord::new(0, 0), Coord::new(10, 10), Team(2)));
    assert!(single(&universe).is_none());
}

#[test]
fn rebuild_stores_every_boid_and_hands_out_handles() {
    let mut universe = world(3840, 2160);
    let mut boids = vec![
        boid(11, [100.0, 100.0, 5.0], [1.0, 0.0, 0.0], 5),
        boid(12, [200.5, 300.9, 5.0], [0.0, -2.0, 0.0], 25),
        boid(13, [100.0, 100.0, 5.0], [0.5, 0.5, 0.0], 5),
    ];
    build_or_update_quadtree(&mut boids, &mut universe);
    assert_eq!(universe.len(), 1);
    assert_eq!(universe[0].graph.len(), 3);
    assert_eq!(boids[0].collider.id, Some(Handle { generation: 1, slot: 0 }));
    assert_eq!(boids[1].collider.id, Some(Handle { generation: 1, slot: 1 }));
    assert_eq!(boids[2].collider.id, Some(Handle { generation: 1, slot: 2 }));
    assert_eq!(boids[1].collider.radius, 25);
    assert_eq!(boids[1].entity, 12);
    assert_eq!(boids[1].position, [200.5, 300.9, 5.0]);
    assert_eq!(boids[1].velocity, [0.0, -2.0, 0.0]);
    let window = BoundingRegion::around(Coord::new(200, 300), 0);
    let found = universe[0].graph.query(&window, &Vec::new());
    assert_eq!(found.len(), 1);
    assert_eq!(found[0].entity, 12);
    assert_eq!(found[0].position, [200.5, 300.9, 5.0]);
    assert_eq!(found[0].velocity, [0.0, -2.0, 0.0]);
    let just_outside = BoundingRegion::around(Coord::new(226, 300), 0);
    assert!(universe[0].graph.query(&just_outside, &Vec::new()).is_empty());
    let on_the_border = BoundingRegion::around(Coord::new(225, 325), 0);
    assert_eq!(universe[0].graph.query(&on_the_border, &Vec::new()).len(), 1);
}

#[test]
fn rebuild_keeps_the_weights_and_the_bounds() {
    let mut universe = world(3840, 2160);
    universe[0].separation = 1;
    universe[0].alignment = 2;
    universe[0].cohesion = 3;
    universe[0].speed = 4;
    universe[0].vision = 5;
    universe[0].count = 6;
    universe[0].id = 7;
    let mut boids = vec![boid(1, [10.0, 10.0, 0.0], [1.0, 0.0, 0.0], 5)];
    build_or_update_quadtree(&mut boids, &mut universe);
    let g = &universe[0];
    assert_eq!(
        (g.separation, g.alignment, g.cohesion, g.speed, g.vision, g.count, g.id),
        (1, 2, 3, 4, 5, 6, 7)
    );
    assert_eq!(g.graph.bounds().max, Coord { x: 3840, y: 2160 });
}

#[test]
fn rebuild_without_a_group_changes_nothing() {
    let mut universe: Vec<BoidGroup<Vec3>> = Vec::new();
    let mut boids = vec![boid(1, [10.0, 10.0, 0.0], [1.0, 0.0, 0.0], 5)];
    boids[0].collider.id = Some(Handle { generation: 9, slot: 9 });
    build_or_update_quadtree(&mut boids, &mut universe);
    assert!(universe.is_empty());
    assert_eq!(boids[0].collider.id, Some(Handle { generation: 9, slot: 9 }));
    assert_eq!(boids[0].position, [10.0, 10.0, 0.0]);
    assert_eq!(boids[0].velocity, [1.0, 0.0, 0.0]);
}

#[test]
fn rebuild_with_two_groups_changes_nothing() {
    let mut universe = world(100, 100);
    universe.push(BoidGroup::new(Coord::new(0, 0), Coord::new(10, 10), Team(1)));
    let mut boids = vec![boid(1, [10.0, 10.0, 0.0], [1.0, 0.0, 0.0], 5)];
    build_or_update_quadtree(&mut boids, &mut universe);
    assert_eq!(universe.len(), 2);
    assert_eq!(universe[0].graph.len(), 0);
    assert_eq!(universe[1].graph.len(), 0);
    assert_eq!(boids[0].collider.id, None);
}

#[test]
fn rebuild_replaces_what_the_index_held() {
    let mut universe = world(3840, 2160);
    let mut boids = vec![
        boid(1, [10.0, 10.0, 0.0], [1.0, 0.0, 0.0], 5),
        boid(2, [500.0, 500.0, 0.0], [1.0, 0.0, 0.0], 5),
    ];
    build_or_update_quadtree(&mut boids, &mut universe);
    boids.pop();
    boids[0].cell = Coord::new(700, 700);
    boids[0].position = [700.0, 700.0, 0.0];
    build_or_update_quadtree(&mut boids, &mut universe);
    assert_eq!(universe[0].graph.len(), 1);
    assert_eq!(boids[0].collider.id, Some(Handle { generation: 2, slot: 0 }));
    let everywhere =
        BoundingRegion::new(Coord::new(i32::MIN, i32::MIN), Coord::new(i32::MAX, i32::MAX));
    let found = universe[0].graph.query(&everywhere, &Vec::new());
    assert_eq!(found.len(), 1);
    assert_eq!(found[0].position, [700.0, 700.0, 0.0]);
    assert!(universe[0]
        .graph
        .query(&BoundingRegion::around(Coord::new(10, 10), 20), &Vec::new())
        .is_empty());
}

#[test]
fn rebuilding_twice_gives_the_same_neighbours() {
    let mut universe = world(3840, 2160);
    let mut boids: Vec<Boid<Vec3>> = Vec::new();
    for i in 0..200u32 {
        let x = ((i * 37) % 1000) as f32;
        let y = ((i * 91) % 1000) as f32;
        boids.push(boid(i as u64, [x, y, 5.0], [1.0, -1.0, 0.0], 5));
    }
    universe[0].vision = 80_000;
    build_or_update_quadtree(&mut boids, &mut universe);
    let first: Vec<Vec<u64>> = update_boids(&boids, &universe, 3840, 2160)
        .iter()
        .map(|s| {
            let mut ids: Vec<u64> = s.neighbors.iter().map(|n| n.entity).collect();
            ids.sort();
            ids
        })
        .collect();
    build_or_update_quadtree(&mut boids, &mut universe);
    let second: Vec<Vec<u64>> = update_boids(&boids, &universe, 3840, 2160)
        .iter()
        .map(|s| {
            let mut ids: Vec<u64> = s.neighbors.iter().map(|n| n.entity).collect();
            ids.sort();
            ids
        })
        .collect();
    assert_eq!(first, second);
    assert!(first.iter().any(|ids| !ids.is_empty()));
}

#[test]
fn steering_leaves_the_boid_itself_out() {
    let mut universe = world(3840, 2160);
    let mut boids = vec![
        boid(1, [100.0, 100.0, 0.0], [1.0, 0.0, 0.0], 5),
        boid(2, [120.0, 100.0, 0.0], [1.0, 0.0, 0.0], 5),
        boid(3, [3000.0, 2000.0, 0.0], [1.0, 0.0, 0.0], 5),
    ];
    universe[0].vision = 50_000;
    build_or_update_quadtree(&mut boids, &mut universe);
    let plan = update_boids(&boids, &universe, 3840, 2160);
    assert_eq!(plan.len(), 3);
    let ids: Vec<Vec<u64>> =
        plan.iter().map(|s| s.neighbors.iter().map(|n| n.entity).collect()).collect();
    assert_eq!(ids, vec![vec![2], vec![1], vec![]]);
}

#[test]
fn boid_without_a_handle_finds_itself_too() {
    let mut universe = world(3840, 2160);
    let mut boids = vec![boid(1, [100.0, 100.0, 0.0], [1.0, 0.0, 0.0], 5)];
    build_or_update_quadtree(&mut boids, &mut universe);
    let stranger = boid(1, [100.0, 100.0, 0.0], [1.0, 0.0, 0.0], 5);
    let s = steer(&universe[0], &stranger, 3840, 2160);
    assert_eq!(s.neighbors.len(), 1);
    let s = steer(&universe[0], &boids[0], 3840, 2160);
    assert!(s.neighbors.is_empty());
}

#[test]
fn window_reaches_as_far_as_radius_and_vision() {
    let mut universe = world(3840, 2160);
    universe[0].vision = 50_000;
    let mut boids = vec![
        boid(1, [1000.0, 1000.0, 0.0], [1.0, 0.0, 0.0], 5),
        boid(2, [1060.0, 1000.0, 0.0], [1.0, 0.0, 0.0], 5),
        boid(3, [1000.0, 939.0, 0.0], [1.0, 0.0, 0.0], 5),
    ];
    build_or_update_quadtree(&mut boids, &mut universe);
    let s = steer(&universe[0], &boids[0], 3840, 2160);
    let ids: Vec<u64> = s.neighbors.iter().map(|n| n.entity).collect();
    assert_eq!(ids, vec![2]);
}

#[test]
fn steering_without_a_group_decides_nothing() {
    let universe: Vec<BoidGroup<Vec3>> = Vec::new();
    let boids = vec![boid(1, [5.0, 5.0, 0.0], [-10.0, -10.0, 0.0], 5)];
    assert!(update_boids(&boids, &universe, 3840, 2160).is_empty());
}

#[test]
fn steering_with_two_groups_decides_nothing() {
    let mut universe = world(3840, 2160);
    universe.push(BoidGroup::new(Coord::new(0, 0), Coord::new(10, 10), Team(1)));
    let boids = vec![boid(1, [5.0, 5.0, 0.0], [-10.0, -10.0, 0.0], 5)];
    assert!(update_boids(&boids, &universe, 3840, 2160).is_empty());
}

#[test]
fn boid_near_the_low_border_turns_round() {
    let mut universe = world(3840, 2160);
    let mut boids = vec![boid(1, [5.0, 1000.0, 5.0], [-10.0, 0.0, 0.0], 5)];
    build_or_update_quadtree(&mut boids, &mut universe);
    let plan = update_boids(&boids, &universe, 3840, 2160);
    assert!(plan[0].neighbors.is_empty());
    assert!(plan[0].flip_x);
    assert!(!plan[0].flip_y);
    let v = new_velocity(&boids[0], &plan[0], &universe[0]);
    assert!(v[0] > 0.0);
    assert_eq!(v, [10.0, 0.0, 0.0]);
}

#[test]
fn border_rule_on_each_side() {
    let group: BoidGroup<Vec3> = BoidGroup::new(Coord::new(0, 0), Coord::new(3840, 2160), Team(0));
    let flips = |x: f32, y: f32, vx: f32, vy: f32| {
        let s = steer(&group, &boid(1, [x, y, 0.0], [vx, vy, 0.0], 5), 3840, 2160);
        (s.flip_x, s.flip_y)
    };
    assert_eq!(MARGIN, 20);
    assert_eq!(flips(19.0, 1000.0, -1.0, 0.0), (true, false));
    assert_eq!(flips(20.0, 1000.0, -1.0, 0.0), (false, false));
    assert_eq!(flips(19.0, 1000.0, 1.0, 0.0), (false, false));
    assert_eq!(flips(19.0, 1000.0, 0.0, 0.0), (false, false));
    assert_eq!(flips(3821.0, 1000.0, 1.0, 0.0), (true, false));
    assert_eq!(flips(3820.0, 1000.0, 1.0, 0.0), (false, false));
    assert_eq!(flips(3821.0, 1000.0, -1.0, 0.0), (false, false));
    assert_eq!(flips(1000.0, 19.0, 0.0, -1.0), (false, true));
    assert_eq!(flips(1000.0, 20.0, 0.0, -1.0), (false, false));
    assert_eq!(flips(1000.0, 2141.0, 0.0, 1.0), (false, true));
    assert_eq!(flips(1000.0, 2140.0, 0.0, 1.0), (false, false));
    assert_eq!(flips(-50.0, -50.0, -1.0, -1.0), (true, true));
    assert_eq!(flips(5000.0, 5000.0, 1.0, 1.0), (true, true));
    assert_eq!(flips(5000.0, -50.0, -1.0, 1.0), (false, false));
}

#[test]
fn border_rule_at_the_ends_of_the_grid() {
    let group: BoidGroup<Vec3> = BoidGroup::new(Coord::new(0, 0), Coord::new(10, 10), Team(0));
    let mut b = boid(1, [0.0, 0.0, 0.0], [1.0, 1.0, 0.0], 5);
    b.cell = Coord::new(i32::MAX, i32::MIN);
    let s = steer(&group, &b, i32::MAX, i32::MIN);
    assert!(s.flip_x);
    assert!(s.flip_y);
    let s = steer(&group, &b, i32::MIN, i32::MAX);
    assert!(s.flip_x);
    assert!(!s.flip_y);
}

#[test]
fn lone_boid_keeps_its_direction() {
    let mut universe = world(3840, 2160);
    let mut boids = vec![
        boid(1, [1000.0, 1000.0, 5.0], [3.0, 4.0, 0.0], 5),
        boid(2, [3000.0, 2000.0, 5.0], [1.0, 0.0, 0.0], 5),
    ];
    build_or_update_quadtree(&mut boids, &mut universe);
    let plan = update_boids(&boids, &universe, 3840, 2160);
    assert!(plan[0].neighbors.is_empty());
    assert!(!plan[0].flip_x && !plan[0].flip_y);
    let d = direction(&boids[0], &plan[0], &universe[0]);
    assert_eq!(d, unit([3.0, 4.0, 0.0]));
    let v = new_velocity(&boids[0], &plan[0], &universe[0]);
    assert!((length(v) - 5.0).abs() < 1e-5);
    assert!((v[0] - 3.0).abs() < 1e-5 && (v[1] - 4.0).abs() < 1e-5);
}

#[test]
fn two_boids_head_on_are_pushed_apart() {
    let mut universe = world(3840, 2160);
    universe[0].vision = 50_000;
    universe[0].separation = 1000;
    universe[0].alignment = 0;
    universe[0].cohesion = 0;
    let mut boids = vec![
        boid(1, [0.0, 0.0, 0.0], [1.0, 0.0, 0.0], 5),
        boid(2, [10.0, 0.0, 0.0], [-1.0, 0.0, 0.0], 5),
    ];
    build_or_update_quadtree(&mut boids, &mut universe);
    let plan = update_boids(&boids, &universe, 3840, 2160);
    assert_eq!(plan[0].neighbors.len(), 1);
    assert_eq!(plan[0].neighbors[0].entity, 2);
    assert_eq!(plan[0].neighbors[0].position, [10.0, 0.0, 0.0]);
    assert_eq!(plan[0].neighbors[0].velocity, [-1.0, 0.0, 0.0]);
    assert_eq!(plan[1].neighbors.len(), 1);
    assert_eq!(plan[1].neighbors[0].entity, 1);
    let away_a = separation_sum(&boids[0], &plan[0]);
    assert!(away_a[0] < 0.0);
    assert_eq!(away_a, [-1.0, 0.0, 0.0]);
    let away_b = separation_sum(&boids[1], &plan[1]);
    assert!(away_b[0] > 0.0);
    assert_eq!(away_b, [1.0, 0.0, 0.0]);
}

#[test]
fn steering_keeps_the_speed() {
    let mut universe = world(3840, 2160);
    universe[0].vision = 100_000;
    let mut boids = vec![
        boid(1, [1000.0, 1000.0, 5.0], [3.0, 4.0, 0.0], 5),
        boid(2, [1030.0, 990.0, 5.0], [-2.0, 1.0, 0.0], 5),
        boid(3, [980.0, 1040.0, 5.0], [0.0, -6.0, 0.0], 5),
    ];
    build_or_update_quadtree(&mut boids, &mut universe);
    let plan = update_boids(&boids, &universe, 3840, 2160);
    for (b, s) in boids.iter().zip(plan.iter()) {
        assert_eq!(s.neighbors.len(), 2);
        let v = new_velocity(b, s, &universe[0]);
        assert!((length(v) - length(b.velocity)).abs() < 1e-4);
    }
}

#[test]
fn neighbours_are_those_of_the_last_rebuild() {
    let mut universe = world(3840, 2160);
    universe[0].vision = 50_000;
    let mut boids = vec![
        boid(1, [100.0, 100.0, 0.0], [1.0, 0.0, 0.0], 5),
        boid(2, [120.0, 100.0, 0.0], [1.0, 0.0, 0.0], 5),
    ];
    build_or_update_quadtree(&mut boids, &mut universe);
    boids[1].position = [2000.0, 2000.0, 0.0];
    boids[1].velocity = [9.0, 9.0, 0.0];
    let plan = update_boids(&boids, &universe, 3840, 2160);
    assert_eq!(plan[0].neighbors[0].position, [120.0, 100.0, 0.0]);
    assert_eq!(plan[0].neighbors[0].velocity, [1.0, 0.0, 0.0]);
}

#[test]
fn movement_needs_exactly_one_group() {
    let mut universe: Vec<BoidGroup<Vec3>> = Vec::new();
    assert_eq!(move_system(&universe), None);
    universe = world(100, 100);
    assert_eq!(DEPTH, 5);
    assert_eq!(move_system(&universe), Some(Advance { speed: 240_000, depth: 5 }));
    universe[0].speed = 1500;
    assert_eq!(move_system(&universe), Some(Advance { speed: 1500, depth: 5 }));
    universe.push(BoidGroup::new(Coord::new(0, 0), Coord::new(10, 10), Team(1)));
    assert_eq!(move_system(&universe), None);
}

#[test]
fn body_carries_the_vectors_unchanged() {
    let b = Body { entity: 3, position: [f32::MIN_POSITIVE, -0.0, f32::MAX], velocity: [1e-30f32, 2.5, -7.0] };
    let mut group: BoidGroup<Vec3> = BoidGroup::new(Coord::new(0, 0), Coord::new(10, 10), Team(0));
    group.graph.insert(BoundingRegion::around(Coord::new(1, 1), 1), b);
    let found = group.graph.query(&BoundingRegion::around(Coord::new(1, 1), 0), &Vec::new());
    assert_eq!(found[0].position.map(f32::to_bits), b.position.map(f32::to_bits));
    assert_eq!(found[0].velocity.map(f32::to_bits), b.velocity.map(f32::to_bits));
}
