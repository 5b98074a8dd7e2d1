use bee_boids::debug::{visualize_boid_radius, visualize_quadtree, Segment, Visualizer};
use bee_boids::flock::{Body, BoidGroup, Team};
use bee_boids::geometry::{BoundingRegion, Coord};

fn group(width: i32, height: i32) -> BoidGroup<u8> {
    BoidGroup::new(Coord::new(0, 0), Coord::new(width, height), Team(0))
}

fn line(x0: i32, y0: i32, x1: i32, y1: i32) -> Segment {
    Segment { from: Coord { x: x0, y: y0 }, to: Coord { x: x1, y: y1 } }
}

#[test]
fn overlays_start_switched_off() {
    let vis = Visualizer::default();
    assert!(!vis.quadtree);
    assert!(!vis.boid_vision);
    assert!(!vis.boid_cone);
}

#[test]
fn no_lines_while_the_overlay_is_off() {
    let groups = vec![group(100, 50)];
    assert!(visualize_quadtree(&Visualizer::default(), &groups).is_empty());
}

#[test]
fn uncut_index_is_drawn_as_one_box() {
    let groups = vec![group(100, 50)];
    let vis = Visualizer { quadtree: true, boid_vision: false, boid_cone: false };
    assert_eq!(
        visualize_quadtree(&vis, &groups),
        vec![line(0, 0, 100, 0), line(100, 0, 100, 50), line(100, 50, 0, 50), line(0, 50, 0, 0)]
    );
}

#[test]
fn cut_index_is_drawn_region_by_region() {
    let mut g = group(9, 9);
    for i in 0..9 {
        let body = Body { entity: i as u64, position: 0u8, velocity: 0u8 };
        g.graph.insert(BoundingRegion::around(Coord::new(i, i), 0), body);
    }
    let groups = vec![g];
    let vis = Visualizer { quadtree: true, boid_vision: false, boid_cone: false };
    let lines = visualize_quadtree(&vis, &groups);
    assert_eq!(lines.len(), 20);
    assert_eq!(lines[0], line(0, 0, 9, 0));
    assert_eq!(
        lines[4..8],
        [line(0, 0, 4, 0), line(4, 0, 4, 4), line(4, 4, 0, 4), line(0, 4, 0, 0)]
    );
    assert_eq!(
        lines[16..20],
        [line(5, 5, 9, 5), line(9, 5, 9, 9), line(9, 9, 5, 9), line(5, 9, 5, 5)]
    );
}

#[test]
fn every_group_is_drawn() {
    let groups = vec![group(10, 10), group(20, 20)];
    let vis = Visualizer { quadtree: true, boid_vision: false, boid_cone: false };
    let lines = visualize_quadtree(&vis, &groups);
    assert_eq!(lines.len(), 8);
    assert_eq!(lines[0], line(0, 0, 10, 0));
    assert_eq!(lines[4], line(0, 0, 20, 0));
    assert!(visualize_quadtree(&vis, &Vec::<BoidGroup<u8>>::new()).is_empty());
}

#[test]
fn sight_circle_needs_the_overlay_and_one_group() {
    let on = Visualizer { quadtree: false, boid_vision: true, boid_cone: false };
    let off = Visualizer { quadtree: true, boid_vision: false, boid_cone: true };
    let mut groups = vec![group(10, 10)];
    assert_eq!(visualize_boid_radius(&on, &groups), Some(600_000));
    assert_eq!(visualize_boid_radius(&off, &groups), None);
    groups[0].vision = 1234;
    assert_eq!(visualize_boid_radius(&on, &groups), Some(1234));
    groups.push(group(10, 10));
    assert_eq!(visualize_boid_radius(&on, &groups), None);
    groups.clear();
    assert_eq!(visualize_boid_radius(&on, &groups), None);
}
