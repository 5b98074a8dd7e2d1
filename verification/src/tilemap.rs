//! What the steps know of the level, the kinds of flower that grow on it,
//! and the tiles round the hive from which the fog is taken away.

use vstd::prelude::*;

verus! {

/// The size of the level, in grid units.
#[derive(Clone, Copy, Debug, PartialEq, Eq, Structural)]
pub struct LevelData {
    pub level_height: i32,
    pub level_width: i32,
}

/// The place of a tile on the map, counted in tiles.
#[derive(Clone, Copy, Debug, PartialEq, Eq, Structural)]
pub struct Tile {
    pub x: u32,
    pub y: u32,
}

/// The size of the map, counted in tiles.
#[derive(Clone, Copy, Debug, PartialEq, Eq, Structural)]
pub struct MapSize {
    pub x: u32,
    pub y: u32,
}

/// One of the four kinds of flower.
#[derive(Clone, Copy, Debug, PartialEq, Eq, Structural)]
pub enum FlowerKind {
    First,
    Second,
    Third,
    Fourth,
}

impl FlowerKind {
    /// The kind that a drawn byte stands for: the four kinds take turns as
    /// the byte goes up.
    pub fn of(roll: u8) -> (kind: FlowerKind)
        ensures
            kind == match roll % 4 {
                0 => FlowerKind::First,
                1 => FlowerKind::Second,
                2 => FlowerKind::Third,
                _ => FlowerKind::Fourth,
            },
    {
        let turn: u8 = roll % 4;
        if turn == 0 {
            FlowerKind::First
        } else if turn == 1 {
            FlowerKind::Second
        } else if turn == 2 {
            FlowerKind::Third
        } else {
            FlowerKind::Fourth
        }
    }
}

/// How many tiles the fog is taken away on each side of the hive.
pub const FOG_REMOVAL_RADIUS: u32 = 3;

/// The tile `t` lies on the map and no more than `radius` tiles from `hive`
/// along either axis.
pub open spec fn cleared(hive: Tile, radius: u32, size: MapSize, t: Tile) -> bool {
    &&& t.x < size.x
    &&& t.y < size.y
    &&& hive.x - radius <= t.x <= hive.x + radius
    &&& hive.y - radius <= t.y <= hive.y + radius
}

/// `a` comes before `b`: column by column, and upwards in each column.
pub open spec fn before(a: Tile, b: Tile) -> bool {
    a.x < b.x || (a.x == b.x && a.y < b.y)
}

/// The least number that is no more than `radius` below `center`.
spec fn low(center: u32, radius: u32) -> int {
    if radius >= center {
        0
    } else {
        center - radius
    }
}

/// The greatest number below `size` that is no more than `radius` above
/// `center`.
spec fn high(center: u32, radius: u32, size: u32) -> int {
    if center + radius >= size {
        size - 1
    } else {
        center + radius
    }
}

/// The first and the last of the numbers below `size` that are no more than
/// `radius` from `center`; the first above the last where there is none.
fn reach(center: u32, radius: u32, size: u32) -> (ends: (u32, u32))
    ensures
        ends.0 <= ends.1 ==> ends.0 == low(center, radius) && ends.1 == high(center, radius, size),
        ends.0 > ends.1 ==> low(center, radius) > high(center, radius, size),
{
    let first: u32 = if radius >= center {
        0
    } else {
        center - radius
    };
    let above: u64 = center as u64 + radius as u64;
    if size == 0 || first >= size {
        return (1, 0);
    }
    let last: u32 = if above >= size as u64 {
        size - 1
    } else {
        above as u32
    };
    (first, last)
}

/// The tiles from which the fog is taken away: those of the map that lie
/// no more than `radius` tiles from `hive` along either axis, each once,
/// column by column.
pub fn fog_removal_area(hive: Tile, radius: u32, size: MapSize) -> (area: Vec<Tile>)
    ensures
        forall|t: Tile| area@.contains(t) <==> cleared(hive, radius, size, t),
        forall|i: int, j: int| 0 <= i < j < area@.len() ==> before(area@[i], area@[j]),
{
    let mut area: Vec<Tile> = Vec::new();
    let (x0, x1) = reach(hive.x, radius, size.x);
    let (y0, y1) = reach(hive.y, radius, size.y);
    if x0 > x1 || y0 > y1 {
        assert forall|t: Tile| !cleared(hive, radius, size, t) by {
            if cleared(hive, radius, size, t) {
                assert(low(hive.x, radius) <= t.x <= high(hive.x, radius, size.x));
                assert(low(hive.y, radius) <= t.y <= high(hive.y, radius, size.y));
            }
        }
        return area;
    }
    let mut x: u32 = x0;
    loop
        invariant_except_break
            x0 <= x <= x1,
            forall|t: Tile| area@.contains(t) <==> cleared(hive, radius, size, t) && t.x < x,
        invariant
            x0 <= x1,
            y0 <= y1,
            x0 == low(hive.x, radius) && x1 == high(hive.x, radius, size.x),
            y0 == low(hive.y, radius) && y1 == high(hive.y, radius, size.y),
            forall|i: int, j: int| 0 <= i < j < area@.len() ==> before(area@[i], area@[j]),
        ensures
            forall|t: Tile| area@.contains(t) <==> cleared(hive, radius, size, t),
        decreases x1 - x,
    {
        let mut y: u32 = y0;
        loop
            invariant_except_break
                y0 <= y <= y1,
                forall|t: Tile|
                    area@.contains(t) <==> cleared(hive, radius, size, t) && (t.x < x || (t.x == x
                        && t.y < y)),
            invariant
                x0 <= x <= x1,
                y0 <= y1,
                x0 == low(hive.x, radius) && x1 == high(hive.x, radius, size.x),
                y0 == low(hive.y, radius) && y1 == high(hive.y, radius, size.y),
                forall|i: int, j: int| 0 <= i < j < area@.len() ==> before(area@[i], area@[j]),
            ensures
                forall|t: Tile|
                    area@.contains(t) <==> cleared(hive, radius, size, t) && t.x <= x,
            decreases y1 - y,
        {
            let ghost prior = area@;
            let tile = Tile { x, y };
            area.push(tile);
            proof {
                assert(cleared(hive, radius, size, tile));
                assert forall|t: Tile|
                    area@.contains(t) <==> cleared(hive, radius, size, t) && (t.x < x || (t.x == x
                        && t.y <= y)) by {
                    if area@.contains(t) {
                        let k = choose|k: int| 0 <= k < area@.len() && area@[k] == t;
                        if k < prior.len() {
                            assert(prior[k] == t);
                            assert(prior.contains(t));
                        }
                    }
                    if cleared(hive, radius, size, t) && (t.x < x || (t.x == x && t.y <= y)) {
                        if t == tile {
                            assert(area@[prior.len() as int] == t);
                        } else {
                            assert(prior.contains(t));
                            let k = choose|k: int| 0 <= k < prior.len() && prior[k] == t;
                            assert(area@[k] == t);
                        }
                    }
                }
                assert forall|i: int, j: int| 0 <= i < j < area@.len() implies before(
                    area@[i],
                    area@[j],
                ) by {
                    if j == prior.len() {
                        assert(prior[i] == area@[i]);
                        assert(prior.contains(area@[i]));
                    } else {
                        assert(prior[i] == area@[i] && prior[j] == area@[j]);
                    }
                }
            }
            if y == y1 {
                break ;
            }
            y += 1;
        }
        if x == x1 {
            proof {
                assert forall|t: Tile| cleared(hive, radius, size, t) implies t.x <= x by {
                    assert(x0 <= t.x <= x1);
                }
            }
            break ;
        }
        x += 1;
    }
    area
}

} // verus!
