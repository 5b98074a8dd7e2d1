//! How an index cuts its bounds: which parts of the bounds are cut in four,
//! as a function of the regions that the index holds.

use vstd::prelude::*;
use vstd::seq_lib::{to_multiset_contains, to_multiset_len, to_multiset_remove};
use crate::geometry::{BoundingRegion, Quadrant};

verus! {

/// The number of entries up to which an index keeps its bounds in one
/// piece. A part of the bounds is cut in four once more entries than this
/// have come to lie in it.
pub const NODE_CAPACITY: usize = 8;

/// The region `region` lies in the part `part` of the bounds: it is valid
/// and the part holds all of it.
pub open spec fn fits(part: BoundingRegion, region: BoundingRegion) -> bool {
    region.valid() && part.spec_contains(region)
}

/// How many of the regions lie in `part`.
pub open spec fn crowd(part: BoundingRegion, regions: Seq<BoundingRegion>) -> nat
    decreases regions.len(),
{
    if regions.len() == 0 {
        0
    } else {
        crowd(part, regions.drop_last()) + if fits(part, regions.last()) { 1nat } else { 0nat }
    }
}

/// The subdivision of a part of the bounds that the regions of the entries
/// call for: the part itself, and, where it can be split and more than
/// `NODE_CAPACITY` regions lie in it, the subdivisions of its quadrants.
pub open spec fn subdivision(part: BoundingRegion, regions: Seq<BoundingRegion>) -> Seq<
    BoundingRegion,
>
    decreases part.max.x - part.min.x,
{
    if part.spec_can_split() && crowd(part, regions) > NODE_CAPACITY {
        seq![part] + subdivision(part.spec_quadrant(Quadrant::SouthWest), regions) + subdivision(
            part.spec_quadrant(Quadrant::SouthEast),
            regions,
        ) + subdivision(part.spec_quadrant(Quadrant::NorthWest), regions) + subdivision(
            part.spec_quadrant(Quadrant::NorthEast),
            regions,
        )
    } else {
        seq![part]
    }
}

/// The subdivision of the bounds of an index that holds entries with the
/// given regions. The bounds are cut once the index holds more than
/// `NODE_CAPACITY` entries, wherever their regions lie; a quadrant is cut
/// again by the regions that lie in it.
pub open spec fn partition_of(bounds: BoundingRegion, regions: Seq<BoundingRegion>) -> Seq<
    BoundingRegion,
> {
    if bounds.spec_can_split() && regions.len() > NODE_CAPACITY {
        seq![bounds] + subdivision(bounds.spec_quadrant(Quadrant::SouthWest), regions)
            + subdivision(bounds.spec_quadrant(Quadrant::SouthEast), regions) + subdivision(
            bounds.spec_quadrant(Quadrant::NorthWest),
            regions,
        ) + subdivision(bounds.spec_quadrant(Quadrant::NorthEast), regions)
    } else {
        seq![bounds]
    }
}

/// Taking a region away takes one out of the crowd of every part that it
/// lay in.
proof fn lemma_crowd_remove(part: BoundingRegion, regions: Seq<BoundingRegion>, i: int)
    requires
        0 <= i < regions.len(),
    ensures
        crowd(part, regions.remove(i)) + if fits(part, regions[i]) { 1nat } else { 0nat } == crowd(
            part,
            regions,
        ),
    decreases regions.len(),
{
    if i == regions.len() - 1 {
        assert(regions.remove(i) =~= regions.drop_last());
    } else {
        lemma_crowd_remove(part, regions.drop_last(), i);
        assert(regions.remove(i).drop_last() =~= regions.drop_last().remove(i));
        assert(regions.remove(i).last() == regions.last());
    }
}

/// How many regions lie in a part does not depend on their order.
pub proof fn lemma_crowd_any_order(
    part: BoundingRegion,
    a: Seq<BoundingRegion>,
    b: Seq<BoundingRegion>,
)
    requires
        a.to_multiset() == b.to_multiset(),
    ensures
        crowd(part, a) == crowd(part, b),
    decreases a.len(),
{
    to_multiset_len(a);
    to_multiset_len(b);
    if a.len() > 0 {
        let last = a.len() - 1;
        let x = a[last];
        assert(a.contains(x));
        to_multiset_contains(a, x);
        to_multiset_contains(b, x);
        let j = choose|j: int| 0 <= j < b.len() && b[j] == x;
        to_multiset_remove(a, last);
        to_multiset_remove(b, j);
        assert(a.remove(last) =~= a.drop_last());
        lemma_crowd_any_order(part, a.drop_last(), b.remove(j));
        lemma_crowd_remove(part, b, j);
    }
}

/// The subdivision of a part does not depend on the order of the regions.
pub proof fn lemma_subdivision_any_order(
    part: BoundingRegion,
    a: Seq<BoundingRegion>,
    b: Seq<BoundingRegion>,
)
    requires
        a.to_multiset() == b.to_multiset(),
    ensures
        subdivision(part, a) == subdivision(part, b),
    decreases part.max.x - part.min.x,
{
    lemma_crowd_any_order(part, a, b);
    if part.spec_can_split() && crowd(part, a) > NODE_CAPACITY {
        lemma_subdivision_any_order(part.spec_quadrant(Quadrant::SouthWest), a, b);
        lemma_subdivision_any_order(part.spec_quadrant(Quadrant::SouthEast), a, b);
        lemma_subdivision_any_order(part.spec_quadrant(Quadrant::NorthWest), a, b);
        lemma_subdivision_any_order(part.spec_quadrant(Quadrant::NorthEast), a, b);
    }
}

/// How an index cuts its bounds depends on the regions that it holds and
/// not on the order in which they came: two indexes with the same bounds
/// that hold the same regions are cut alike.
pub proof fn lemma_partition_any_order(
    bounds: BoundingRegion,
    a: Seq<BoundingRegion>,
    b: Seq<BoundingRegion>,
)
    requires
        a.to_multiset() == b.to_multiset(),
    ensures
        partition_of(bounds, a) == partition_of(bounds, b),
{
    to_multiset_len(a);
    to_multiset_len(b);
    lemma_subdivision_any_order(bounds.spec_quadrant(Quadrant::SouthWest), a, b);
    lemma_subdivision_any_order(bounds.spec_quadrant(Quadrant::SouthEast), a, b);
    lemma_subdivision_any_order(bounds.spec_quadrant(Quadrant::NorthWest), a, b);
    lemma_subdivision_any_order(bounds.spec_quadrant(Quadrant::NorthEast), a, b);
}

} // verus!
