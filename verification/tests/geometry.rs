use bee_boids::geometry::{BoundingRegion, Coord, Quadrant};

fn region(x0: i32, y0: i32, x1: i32, y1: i32) -> BoundingRegion {
    BoundingRegion::new(Coord::new(x0, y0), Coord::new(x1, y1))
}

#[test]
fn new_keeps_ordered_corners() {
    let r = region(1, 2, 30, 40);
    assert_eq!(r.min, Coord { x: 1, y: 2 });
    assert_eq!(r.max, Coord { x: 30, y: 40 });
}

#[test]
fn new_orders_each_axis_by_itself() {
    let r = region(30, 2, 1, 40);
    assert_eq!(r.min, Coord { x: 1, y: 2 });
    assert_eq!(r.max, Coord { x: 30, y: 40 });
    let r = region(30, 40, 1, 2);
    assert_eq!(r.min, Coord { x: 1, y: 2 });
    assert_eq!(r.max, Coord { x: 30, y: 40 });
}

#[test]
fn around_is_center_plus_and_minus_radius() {
    let r = BoundingRegion::around(Coord::new(100, -50), 5);
    assert_eq!(r, region(95, -55, 105, -45));
}

#[test]
fn around_with_radius_zero_is_one_point() {
    let r = BoundingRegion::around(Coord::new(7, 9), 0);
    assert_eq!(r, region(7, 9, 7, 9));
}

#[test]
fn around_stops_at_the_ends_of_the_grid() {
    let r = BoundingRegion::around(Coord::new(i32::MAX - 1, i32::MIN + 2), 10);
    assert_eq!(r.min, Coord { x: i32::MAX - 11, y: i32::MIN });
    assert_eq!(r.max, Coord { x: i32::MAX, y: i32::MIN + 12 });
    let r = BoundingRegion::around(Coord::new(0, 0), u32::MAX);
    assert_eq!(r.min, Coord { x: i32::MIN, y: i32::MIN });
    assert_eq!(r.max, Coord { x: i32::MAX, y: i32::MAX });
}

#[test]
fn valid_means_corners_in_order() {
    assert!(region(0, 0, 0, 0).valid());
    assert!(region(-5, 2, 7, 2).valid());
    let crossed_x = BoundingRegion { min: Coord { x: 3, y: 0 }, max: Coord { x: 2, y: 9 } };
    let crossed_y = BoundingRegion { min: Coord { x: 0, y: 9 }, max: Coord { x: 2, y: 8 } };
    assert!(!crossed_x.valid());
    assert!(!crossed_y.valid());
}

#[test]
fn intersects_counts_touching_borders() {
    let a = region(0, 0, 10, 10);
    assert!(a.intersects(region(10, 10, 20, 20)));
    assert!(a.intersects(region(-5, -5, 0, 0)));
    assert!(a.intersects(region(3, 3, 4, 4)));
    assert!(a.intersects(region(-100, 5, 100, 5)));
    assert!(!a.intersects(region(11, 0, 20, 10)));
    assert!(!a.intersects(region(0, 11, 10, 20)));
    assert!(!a.intersects(region(-20, -20, -1, -1)));
}

#[test]
fn intersects_is_symmetric() {
    let a = region(0, 0, 10, 10);
    let b = region(5, -5, 15, 3);
    let c = region(50, 50, 60, 60);
    assert_eq!(a.intersects(b), b.intersects(a));
    assert_eq!(a.intersects(c), c.intersects(a));
}

#[test]
fn contains_needs_the_whole_region() {
    let a = region(0, 0, 10, 10);
    assert!(a.contains(a));
    assert!(a.contains(region(0, 0, 0, 0)));
    assert!(a.contains(region(2, 3, 10, 10)));
    assert!(!a.contains(region(2, 3, 11, 10)));
    assert!(!a.contains(region(-1, 3, 5, 10)));
}

#[test]
fn with_margin_grows_every_side() {
    let r = region(10, 20, 30, 40).with_margin(600);
    assert_eq!(r, region(-590, -580, 630, 640));
}

#[test]
fn with_margin_zero_changes_nothing() {
    let r = region(10, 20, 30, 40);
    assert_eq!(r.with_margin(0), r);
}

#[test]
fn with_margin_stops_at_the_ends_of_the_grid() {
    let r = region(i32::MIN + 5, 0, i32::MAX - 5, 0).with_margin(100);
    assert_eq!(r.min, Coord { x: i32::MIN, y: -100 });
    assert_eq!(r.max, Coord { x: i32::MAX, y: 100 });
}

#[test]
fn can_split_needs_two_columns_and_two_rows() {
    assert!(region(0, 0, 1, 1).can_split());
    assert!(!region(0, 0, 0, 5).can_split());
    assert!(!region(0, 0, 5, 0).can_split());
    assert!(!region(3, 3, 3, 3).can_split());
}

#[test]
fn quadrants_of_an_even_region() {
    let r = region(0, 0, 9, 9);
    assert_eq!(r.quadrant(Quadrant::SouthWest), region(0, 0, 4, 4));
    assert_eq!(r.quadrant(Quadrant::SouthEast), region(5, 0, 9, 4));
    assert_eq!(r.quadrant(Quadrant::NorthWest), region(0, 5, 4, 9));
    assert_eq!(r.quadrant(Quadrant::NorthEast), region(5, 5, 9, 9));
}

#[test]
fn quadrants_of_an_odd_region() {
    let r = region(-3, 10, 7, 12);
    assert_eq!(r.quadrant(Quadrant::SouthWest), region(-3, 10, 2, 11));
    assert_eq!(r.quadrant(Quadrant::SouthEast), region(3, 10, 7, 11));
    assert_eq!(r.quadrant(Quadrant::NorthWest), region(-3, 12, 2, 12));
    assert_eq!(r.quadrant(Quadrant::NorthEast), region(3, 12, 7, 12));
}

#[test]
fn quadrants_of_the_whole_grid() {
    let r = region(i32::MIN, i32::MIN, i32::MAX, i32::MAX);
    assert_eq!(r.quadrant(Quadrant::SouthWest), region(i32::MIN, i32::MIN, -1, -1));
    assert_eq!(r.quadrant(Quadrant::NorthEast), region(0, 0, i32::MAX, i32::MAX));
}

#[test]
fn quadrants_cover_the_region_and_share_no_point() {
    let r = region(-2, -2, 3, 4);
    let parts = [
        r.quadrant(Quadrant::SouthWest),
        r.quadrant(Quadrant::SouthEast),
        r.quadrant(Quadrant::NorthWest),
        r.quadrant(Quadrant::NorthEast),
    ];
    for x in -2..=3 {
        for y in -2..=4 {
            let point = region(x, y, x, y);
            let holders = parts.iter().filter(|p| p.contains(point)).count();
            assert_eq!(holders, 1);
        }
    }
}
