//! What the debug overlay draws: the outlines of the index's partition and
//! the reach of a boid's sight.

use vstd::prelude::*;
use crate::flock::BoidGroup;
use crate::geometry::{BoundingRegion, Coord};

verus! {

/// Which overlays are switched on.
#[derive(Clone, Copy, Debug, PartialEq, Eq, Structural)]
pub struct Visualizer {
    pub quadtree: bool,
    pub boid_vision: bool,
    pub boid_cone: bool,
}

impl Default for Visualizer {
    /// Every overlay switched off.
    fn default() -> (vis: Self)
        ensures
            !vis.quadtree,
            !vis.boid_vision,
            !vis.boid_cone,
    {
        Visualizer { quadtree: false, boid_vision: false, boid_cone: false }
    }
}

/// A straight line between two points of the grid.
#[derive(Clone, Copy, Debug, PartialEq, Eq, Structural)]
pub struct Segment {
    pub from: Coord,
    pub to: Coord,
}

/// The four sides of a region: bottom, right, top, left, each drawn from
/// where the side before it ended.
pub open spec fn outline(r: BoundingRegion) -> Seq<Segment> {
    let bottom_left = Coord { x: r.min.x, y: r.min.y };
    let bottom_right = Coord { x: r.max.x, y: r.min.y };
    let top_right = Coord { x: r.max.x, y: r.max.y };
    let top_left = Coord { x: r.min.x, y: r.max.y };
    seq![
        Segment { from: bottom_left, to: bottom_right },
        Segment { from: bottom_right, to: top_right },
        Segment { from: top_right, to: top_left },
        Segment { from: top_left, to: bottom_left },
    ]
}

/// The outlines of the regions, one after the other.
pub open spec fn outlines(regions: Seq<BoundingRegion>) -> Seq<Segment>
    decreases regions.len(),
{
    if regions.len() == 0 {
        Seq::empty()
    } else {
        outlines(regions.drop_last()) + outline(regions.last())
    }
}

/// The outlines of the partitions of all groups, group after group.
pub open spec fn drawing<V>(groups: Seq<BoidGroup<V>>) -> Seq<Segment>
    decreases groups.len(),
{
    if groups.len() == 0 {
        Seq::empty()
    } else {
        drawing(groups.drop_last()) + outlines(groups.last().graph.partition())
    }
}

fn push_outline(r: BoundingRegion, out: &mut Vec<Segment>)
    ensures
        final(out)@ == old(out)@ + outline(r),
{
    let bottom_left = Coord { x: r.min.x, y: r.min.y };
    let bottom_right = Coord { x: r.max.x, y: r.min.y };
    let top_right = Coord { x: r.max.x, y: r.max.y };
    let top_left = Coord { x: r.min.x, y: r.max.y };
    out.push(Segment { from: bottom_left, to: bottom_right });
    out.push(Segment { from: bottom_right, to: top_right });
    out.push(Segment { from: top_right, to: top_left });
    out.push(Segment { from: top_left, to: bottom_left });
    assert(out@ =~= old(out)@ + outline(r));
}

/// The lines that show how every group's index has cut its bounds: four
/// for each region of each partition. Nothing where the overlay is off.
pub fn visualize_quadtree<V>(vis: &Visualizer, groups: &Vec<BoidGroup<V>>) -> (lines: Vec<Segment>)
    ensures
        !vis.quadtree ==> lines@.len() == 0,
        vis.quadtree ==> lines@ == drawing(groups@),
{
    let mut lines: Vec<Segment> = Vec::new();
    if !vis.quadtree {
        return lines;
    }
    let mut g: usize = 0;
    while g < groups.len()
        invariant
            g <= groups.len(),
            lines@ == drawing(groups@.take(g as int)),
        decreases groups.len() - g,
    {
        let regions = groups[g].graph.get_regions();
        let ghost start = lines@;
        let mut k: usize = 0;
        while k < regions.len()
            invariant
                k <= regions.len(),
                lines@ == start + outlines(regions@.take(k as int)),
            decreases regions.len() - k,
        {
            push_outline(regions[k], &mut lines);
            proof {
                assert(regions@.take(k + 1).drop_last() =~= regions@.take(k as int));
                assert(lines@ =~= start + outlines(regions@.take(k + 1)));
            }
            k += 1;
        }
        proof {
            assert(regions@.take(regions@.len() as int) =~= regions@);
            assert(groups@.take(g + 1).drop_last() =~= groups@.take(g as int));
        }
        g += 1;
    }
    proof {
        assert(groups@.take(groups@.len() as int) =~= groups@);
    }
    lines
}

/// The radius of the circle that shows how far each boid sees, in
/// thousandths of a grid unit: the vision radius of the world's only
/// group. None where the overlay is off, or where the world does not hold
/// exactly one group.
pub fn visualize_boid_radius<V>(vis: &Visualizer, groups: &Vec<BoidGroup<V>>) -> (radius: Option<
    u32,
>)
    ensures
        radius == if vis.boid_vision && groups@.len() == 1 {
            Some(groups@[0].vision)
        } else {
            None
        },
{
    if !vis.boid_vision {
        return None;
    }
    if groups.len() == 1 {
        Some(groups[0].vision)
    } else {
        None
    }
}

} // verus!
