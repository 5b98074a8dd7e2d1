use bee_boids::tilemap::{fog_removal_area, FlowerKind, MapSize, Tile, FOG_REMOVAL_RADIUS};

fn tiles(list: &[(u32, u32)]) -> Vec<Tile> {
    list.iter().map(|&(x, y)| Tile { x, y }).collect()
}

#[test]
fn fog_goes_in_a_square_round_the_hive() {
    assert_eq!(FOG_REMOVAL_RADIUS, 3);
    let area = fog_removal_area(Tile { x: 10, y: 20 }, 3, MapSize { x: 32, y: 32 });
    assert_eq!(area.len(), 49);
    assert_eq!(area[0], Tile { x: 7, y: 17 });
    assert_eq!(area[1], Tile { x: 7, y: 18 });
    assert_eq!(area[7], Tile { x: 8, y: 17 });
    assert_eq!(area[48], Tile { x: 13, y: 23 });
}

#[test]
fn fog_area_is_cut_off_at_the_edge_of_the_map() {
    let area = fog_removal_area(Tile { x: 0, y: 31 }, 1, MapSize { x: 32, y: 32 });
    assert_eq!(area, tiles(&[(0, 30), (0, 31), (1, 30), (1, 31)]));
}

#[test]
fn fog_area_with_radius_zero_is_the_tile_of_the_hive() {
    let area = fog_removal_area(Tile { x: 5, y: 6 }, 0, MapSize { x: 32, y: 32 });
    assert_eq!(area, tiles(&[(5, 6)]));
}

#[test]
fn hive_off_the_map_may_still_clear_tiles_on_it() {
    let area = fog_removal_area(Tile { x: 33, y: 2 }, 2, MapSize { x: 32, y: 4 });
    assert_eq!(area, tiles(&[(31, 0), (31, 1), (31, 2), (31, 3)]));
    let area = fog_removal_area(Tile { x: 40, y: 2 }, 2, MapSize { x: 32, y: 4 });
    assert!(area.is_empty());
}

#[test]
fn empty_map_has_no_fog_to_clear() {
    assert!(fog_removal_area(Tile { x: 0, y: 0 }, 3, MapSize { x: 0, y: 10 }).is_empty());
    assert!(fog_removal_area(Tile { x: 0, y: 0 }, 3, MapSize { x: 10, y: 0 }).is_empty());
}

#[test]
fn fog_area_with_the_largest_numbers() {
    let area =
        fog_removal_area(Tile { x: u32::MAX, y: u32::MAX }, u32::MAX, MapSize { x: 2, y: 2 });
    assert_eq!(area, tiles(&[(0, 0), (0, 1), (1, 0), (1, 1)]));
    let area = fog_removal_area(
        Tile { x: u32::MAX, y: u32::MAX },
        1,
        MapSize { x: u32::MAX, y: u32::MAX },
    );
    assert_eq!(area, tiles(&[(u32::MAX - 1, u32::MAX - 1)]));
    let area = fog_removal_area(
        Tile { x: u32::MAX - 1, y: u32::MAX - 1 },
        1,
        MapSize { x: u32::MAX, y: u32::MAX },
    );
    assert_eq!(
        area,
        tiles(&[
            (u32::MAX - 2, u32::MAX - 2),
            (u32::MAX - 2, u32::MAX - 1),
            (u32::MAX - 1, u32::MAX - 2),
            (u32::MAX - 1, u32::MAX - 1)
        ])
    );
}

#[test]
fn fog_area_agrees_with_a_plain_search() {
    let size = MapSize { x: 9, y: 7 };
    for hx in 0..12 {
        for hy in 0..10 {
            for radius in 0..5 {
                let mut expected: Vec<Tile> = Vec::new();
                for x in 0..size.x {
                    for y in 0..size.y {
                        let near_x = (x as i64 - hx as i64).abs() <= radius as i64;
                        let near_y = (y as i64 - hy as i64).abs() <= radius as i64;
                        if near_x && near_y {
                            expected.push(Tile { x, y });
                        }
                    }
                }
                assert_eq!(fog_removal_area(Tile { x: hx, y: hy }, radius, size), expected);
            }
        }
    }
}

#[test]
fn flowers_take_turns_with_the_byte() {
    assert_eq!(FlowerKind::of(0), FlowerKind::First);
    assert_eq!(FlowerKind::of(1), FlowerKind::Second);
    assert_eq!(FlowerKind::of(2), FlowerKind::Third);
    assert_eq!(FlowerKind::of(3), FlowerKind::Fourth);
    assert_eq!(FlowerKind::of(4), FlowerKind::First);
    assert_eq!(FlowerKind::of(254), FlowerKind::Third);
    assert_eq!(FlowerKind::of(255), FlowerKind::Fourth);
}
