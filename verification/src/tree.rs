//! The partition tree under the spatial index.
//!
//! A node covers a region and keeps the items that fit in none of its four
//! quadrants; a node that has not been cut keeps all of its items. What the
//! tree holds is described by `Node::count`, how often an item occurs in
//! it, and `Node::exact` ties the tree to the regions of the entries: which
//! items stand below which node, and which nodes are cut.

use vstd::prelude::*;
use crate::geometry::{BoundingRegion, Quadrant};
use crate::partition::{crowd, fits, partition_of, subdivision, NODE_CAPACITY};

verus! {

/// What the tree keeps of a stored entry: the slot it has in the index and
/// the region it was stored with.
#[derive(Clone, Copy, Debug, PartialEq, Eq, Structural)]
pub(crate) struct Item {
    pub(crate) slot: usize,
    pub(crate) region: BoundingRegion,
}

/// How often `x` occurs in `s`.
pub(crate) open spec fn occurrences(s: Seq<Item>, x: Item) -> nat
    decreases s.len(),
{
    if s.len() == 0 {
        0
    } else {
        occurrences(s.drop_last(), x) + if s.last() == x { 1nat } else { 0nat }
    }
}

pub(crate) proof fn lemma_occurrences_push(s: Seq<Item>, y: Item, x: Item)
    ensures
        occurrences(s.push(y), x) == occurrences(s, x) + if y == x { 1nat } else { 0nat },
{
    assert(s.push(y).drop_last() =~= s);
}

/// An item of the sequence occurs in it.
pub(crate) proof fn lemma_occurrences_member(s: Seq<Item>, i: int)
    requires
        0 <= i < s.len(),
    ensures
        occurrences(s, s[i]) >= 1,
    decreases s.len(),
{
    if i < s.len() - 1 {
        lemma_occurrences_member(s.drop_last(), i);
    }
}

/// An item that stands at two places occurs at least twice.
pub(crate) proof fn lemma_occurrences_twice(s: Seq<Item>, i: int, j: int)
    requires
        0 <= i < j < s.len(),
        s[i] == s[j],
    ensures
        occurrences(s, s[i]) >= 2,
    decreases s.len(),
{
    if j < s.len() - 1 {
        lemma_occurrences_twice(s.drop_last(), i, j);
    } else {
        lemma_occurrences_member(s.drop_last(), i);
    }
}

/// An item that occurs stands at some place.
pub(crate) proof fn lemma_occurrences_found(s: Seq<Item>, x: Item) -> (i: int)
    requires
        occurrences(s, x) >= 1,
    ensures
        0 <= i < s.len(),
        s[i] == x,
    decreases s.len(),
{
    if s.last() == x {
        s.len() - 1
    } else {
        lemma_occurrences_found(s.drop_last(), x)
    }
}

/// Taking an item out of a sequence takes away one occurrence of it.
pub(crate) proof fn lemma_occurrences_remove(s: Seq<Item>, i: int, x: Item)
    requires
        0 <= i < s.len(),
    ensures
        occurrences(s.remove(i), x) + if s[i] == x { 1nat } else { 0nat } == occurrences(s, x),
    decreases s.len(),
{
    if i == s.len() - 1 {
        assert(s.remove(i) =~= s.drop_last());
    } else {
        lemma_occurrences_remove(s.drop_last(), i, x);
        assert(s.remove(i).drop_last() =~= s.drop_last().remove(i));
        assert(s.remove(i).last() == s.last());
    }
}

/// `x` is the item of an entry: its slot is a place of `regions`, and its
/// region is the one that stands there.
pub(crate) open spec fn entry(x: Item, regions: Seq<BoundingRegion>) -> bool {
    x.slot < regions.len() && regions[x.slot as int] == x.region
}

/// `x` is the item of an entry that belongs below a node with the bounds
/// `part`: any entry below the root, one that fits below another node.
pub(crate) open spec fn belongs(
    x: Item,
    regions: Seq<BoundingRegion>,
    part: BoundingRegion,
    whole: bool,
) -> bool {
    entry(x, regions) && (whole || fits(part, x.region))
}

/// A sequence that holds each item that belongs below a node once, and
/// nothing else, is as long as the number of regions that lie in the
/// node's bounds; below the root, as long as the number of all regions.
pub(crate) proof fn lemma_len_is_crowd(
    s: Seq<Item>,
    regions: Seq<BoundingRegion>,
    part: BoundingRegion,
    whole: bool,
)
    requires
        regions.len() <= usize::MAX,
        forall|x: Item| #[trigger]
            occurrences(s, x) == if belongs(x, regions, part, whole) { 1nat } else { 0nat },
    ensures
        s.len() == if whole { regions.len() } else { crowd(part, regions) },
    decreases regions.len(),
{
    if regions.len() == 0 {
        if s.len() > 0 {
            lemma_occurrences_member(s, 0);
        }
    } else {
        let fewer = regions.drop_last();
        let last = Item { slot: (regions.len() - 1) as usize, region: regions.last() };
        assert(entry(last, regions));
        if whole || fits(part, regions.last()) {
            assert(occurrences(s, last) == 1);
            let i = lemma_occurrences_found(s, last);
            let rest = s.remove(i);
            assert forall|x: Item| #[trigger]
                occurrences(rest, x) == if belongs(x, fewer, part, whole) { 1nat } else { 0nat } by {
                lemma_occurrences_remove(s, i, x);
                assert(occurrences(s, x) == if belongs(x, regions, part, whole) { 1nat } else { 0nat });
            }
            lemma_len_is_crowd(rest, fewer, part, whole);
        } else {
            assert forall|x: Item| #[trigger]
                occurrences(s, x) == if belongs(x, fewer, part, whole) { 1nat } else { 0nat } by {
                assert(occurrences(s, x) == if belongs(x, regions, part, whole) { 1nat } else { 0nat });
            }
            lemma_len_is_crowd(s, fewer, part, whole);
        }
    }
}

pub(crate) struct Node {
    pub(crate) bounds: BoundingRegion,
    pub(crate) items: Vec<Item>,
    pub(crate) kids: Option<Box<Quad>>,
}

pub(crate) struct Quad {
    pub(crate) sw: Node,
    pub(crate) se: Node,
    pub(crate) nw: Node,
    pub(crate) ne: Node,
}

impl Node {
    /// How often `x` occurs in this node and below it.
    pub(crate) open spec fn count(self, x: Item) -> nat
        decreases self,
    {
        occurrences(self.items@, x) + match self.kids {
            None => 0nat,
            Some(q) => q.sw.count(x) + q.se.count(x) + q.nw.count(x) + q.ne.count(x),
        }
    }

    /// Every item in this node and below it lies inside the node's region.
    pub(crate) open spec fn confined(self) -> bool {
        forall|x: Item| self.count(x) > 0 ==> self.bounds.spec_contains(x.region)
    }

    /// A node that could be cut and has not been holds no more items than
    /// `NODE_CAPACITY`. The children of a cut node cover its four parts, and
    /// each holds only items that lie inside its part.
    pub(crate) open spec fn wf(self) -> bool
        decreases self,
    {
        match self.kids {
            None => self.items@.len() <= NODE_CAPACITY || !self.bounds.spec_can_split(),
            Some(q) => {
                &&& self.bounds.spec_can_split()
                &&& q.sw.bounds == self.bounds.spec_quadrant(Quadrant::SouthWest)
                &&& q.se.bounds == self.bounds.spec_quadrant(Quadrant::SouthEast)
                &&& q.nw.bounds == self.bounds.spec_quadrant(Quadrant::NorthWest)
                &&& q.ne.bounds == self.bounds.spec_quadrant(Quadrant::NorthEast)
                &&& q.sw.wf() && q.sw.confined()
                &&& q.se.wf() && q.se.confined()
                &&& q.nw.wf() && q.nw.confined()
                &&& q.ne.wf() && q.ne.confined()
            },
        }
    }

    /// The regions of this node and of all nodes below it, a node before its
    /// children.
    pub(crate) open spec fn partition(self) -> Seq<BoundingRegion>
        decreases self,
    {
        seq![self.bounds] + match self.kids {
            None => Seq::empty(),
            Some(q) => q.sw.partition() + q.se.partition() + q.nw.partition() + q.ne.partition(),
        }
    }

    /// The node and all below it hold what `regions` asks for: each node
    /// the items of the entries that belong below it, each once, and a node
    /// is cut exactly where the subdivision of its bounds is.
    pub(crate) open spec fn exact(self, regions: Seq<BoundingRegion>, whole: bool) -> bool
        decreases self,
    {
        &&& self.wf()
        &&& forall|x: Item| #[trigger]
            self.count(x) == if belongs(x, regions, self.bounds, whole) { 1nat } else { 0nat }
        &&& match self.kids {
            None => true,
            Some(q) => {
                &&& (if whole {
                    regions.len()
                } else {
                    crowd(self.bounds, regions)
                }) > NODE_CAPACITY
                &&& q.sw.exact(regions, false)
                &&& q.se.exact(regions, false)
                &&& q.nw.exact(regions, false)
                &&& q.ne.exact(regions, false)
            },
        }
    }

    pub(crate) fn leaf(bounds: BoundingRegion) -> (node: Node)
        ensures
            node.wf(),
            node.bounds == bounds,
            node.kids is None,
            node.items@.len() == 0,
            forall|x: Item| node.count(x) == 0,
            node.partition() == seq![bounds],
    {
        let node = Node { bounds, items: Vec::new(), kids: None };
        assert(node.partition() =~= seq![bounds]);
        node
    }
}

/// The quadrant of `bounds` below which an item with the region `region`
/// goes: the one that the region fits in; none where the region is not
/// valid, or reaches over a cut, or lies outside.
pub(crate) open spec fn lane(bounds: BoundingRegion, region: BoundingRegion) -> Option<Quadrant> {
    if fits(bounds.spec_quadrant(Quadrant::SouthWest), region) {
        Some(Quadrant::SouthWest)
    } else if fits(bounds.spec_quadrant(Quadrant::SouthEast), region) {
        Some(Quadrant::SouthEast)
    } else if fits(bounds.spec_quadrant(Quadrant::NorthWest), region) {
        Some(Quadrant::NorthWest)
    } else if fits(bounds.spec_quadrant(Quadrant::NorthEast), region) {
        Some(Quadrant::NorthEast)
    } else {
        None
    }
}

/// A region fits in the quadrant that `lane` gives and in no other: the
/// quadrants share no point.
pub(crate) proof fn lemma_lane(bounds: BoundingRegion, region: BoundingRegion, which: Quadrant)
    requires
        bounds.spec_can_split(),
    ensures
        fits(bounds.spec_quadrant(which), region) <==> lane(bounds, region) == Some(which),
        fits(bounds.spec_quadrant(which), region) ==> fits(bounds, region),
{
}

impl Quad {
    pub(crate) fn route(&self, bounds: BoundingRegion, region: BoundingRegion) -> (r: Option<
        Quadrant,
    >)
        requires
            self.sw.bounds == bounds.spec_quadrant(Quadrant::SouthWest),
            self.se.bounds == bounds.spec_quadrant(Quadrant::SouthEast),
            self.nw.bounds == bounds.spec_quadrant(Quadrant::NorthWest),
            self.ne.bounds == bounds.spec_quadrant(Quadrant::NorthEast),
        ensures
            r == lane(bounds, region),
    {
        if !region.valid() {
            None
        } else if self.sw.bounds.contains(region) {
            Some(Quadrant::SouthWest)
        } else if self.se.bounds.contains(region) {
            Some(Quadrant::SouthEast)
        } else if self.nw.bounds.contains(region) {
            Some(Quadrant::NorthWest)
        } else if self.ne.bounds.contains(region) {
            Some(Quadrant::NorthEast)
        } else {
            None
        }
    }
}

impl Node {
    /// `count`, written out one level.
    pub(crate) proof fn lemma_count(self, x: Item)
        ensures
            self.count(x) == occurrences(self.items@, x) + match self.kids {
                None => 0nat,
                Some(q) => q.sw.count(x) + q.se.count(x) + q.nw.count(x) + q.ne.count(x),
            },
    {
    }

    /// Every region of the partition is valid and lies inside the node's
    /// region.
    pub(crate) proof fn lemma_partition_inside(self)
        requires
            self.wf(),
            self.bounds.valid(),
        ensures
            self.partition().len() >= 1,
            self.partition()[0] == self.bounds,
            forall|k: int|
                0 <= k < self.partition().len() ==> (#[trigger] self.partition()[k]).valid()
                    && self.bounds.spec_contains(self.partition()[k]),
        decreases self,
    {
        match self.kids {
            None => {},
            Some(q) => {
                q.sw.lemma_partition_inside();
                q.se.lemma_partition_inside();
                q.nw.lemma_partition_inside();
                q.ne.lemma_partition_inside();
                let a = q.sw.partition();
                let b = q.se.partition();
                let c = q.nw.partition();
                let d = q.ne.partition();
                let all = self.partition();
                assert(all =~= seq![self.bounds] + (a + b + c + d));
                assert forall|k: int| 0 <= k < all.len() implies (#[trigger] all[k]).valid()
                    && self.bounds.spec_contains(all[k]) by {
                    if k == 0 {
                    } else if k - 1 < a.len() {
                        assert(all[k] == a[k - 1]);
                    } else if k - 1 - a.len() < b.len() {
                        assert(all[k] == b[k - 1 - a.len()]);
                    } else if k - 1 - a.len() - b.len() < c.len() {
                        assert(all[k] == c[k - 1 - a.len() - b.len()]);
                    } else {
                        assert(all[k] == d[k - 1 - a.len() - b.len() - c.len()]);
                    }
                }
            },
        }
    }

    /// A region that does not fit in the node's bounds changes nothing
    /// below the node.
    pub(crate) proof fn lemma_unaffected(self, regions: Seq<BoundingRegion>, r: BoundingRegion)
        requires
            self.exact(regions, false),
            !fits(self.bounds, r),
        ensures
            self.exact(regions.push(r), false),
        decreases self,
    {
        let more = regions.push(r);
        assert(more.drop_last() =~= regions);
        assert forall|x: Item| #[trigger]
            self.count(x) == if belongs(x, more, self.bounds, false) { 1nat } else { 0nat } by {
            assert(self.count(x) == if belongs(x, regions, self.bounds, false) {
                1nat
            } else {
                0nat
            });
        }
        match self.kids {
            None => {},
            Some(q) => {
                lemma_lane(self.bounds, r, Quadrant::SouthWest);
                lemma_lane(self.bounds, r, Quadrant::SouthEast);
                lemma_lane(self.bounds, r, Quadrant::NorthWest);
                lemma_lane(self.bounds, r, Quadrant::NorthEast);
                q.sw.lemma_unaffected(regions, r);
                q.se.lemma_unaffected(regions, r);
                q.nw.lemma_unaffected(regions, r);
                q.ne.lemma_unaffected(regions, r);
            },
        }
    }

    /// The regions of the nodes are the subdivision that the regions of the
    /// entries call for.
    pub(crate) proof fn lemma_partition_exact(self, regions: Seq<BoundingRegion>, whole: bool)
        requires
            self.exact(regions, whole),
            regions.len() <= usize::MAX,
        ensures
            self.partition() == if whole {
                partition_of(self.bounds, regions)
            } else {
                subdivision(self.bounds, regions)
            },
            self.partition().len() > 1 <==> self.kids is Some,
        decreases self,
    {
        match self.kids {
            None => {
                assert forall|x: Item| #[trigger]
                    occurrences(self.items@, x) == if belongs(x, regions, self.bounds, whole) {
                        1nat
                    } else {
                        0nat
                    } by {
                    self.lemma_count(x);
                }
                lemma_len_is_crowd(self.items@, regions, self.bounds, whole);
                assert(self.partition() =~= seq![self.bounds]);
            },
            Some(q) => {
                q.sw.lemma_partition_exact(regions, false);
                q.se.lemma_partition_exact(regions, false);
                q.nw.lemma_partition_exact(regions, false);
                q.ne.lemma_partition_exact(regions, false);
            },
        }
    }

    /// Adds the item of a new entry: at the deepest node that the entry's
    /// region fits in, or at this node where it fits in none below. A node
    /// that comes to hold more than `NODE_CAPACITY` items is cut.
    pub(crate) fn insert(
        &mut self,
        item: Item,
        Ghost(regions): Ghost<Seq<BoundingRegion>>,
        Ghost(whole): Ghost<bool>,
    )
        requires
            old(self).exact(regions, whole),
            item.slot == regions.len(),
            regions.len() < usize::MAX,
            whole || fits(old(self).bounds, item.region),
        ensures
            final(self).exact(regions.push(item.region), whole),
            final(self).bounds == old(self).bounds,
        decreases *old(self),
    {
        let ghost before = *self;
        let ghost more = regions.push(item.region);
        proof {
            assert(more.drop_last() =~= regions);
            assert forall|x: Item|
                belongs(x, more, self.bounds, whole) == (x == item || belongs(
                    x,
                    regions,
                    self.bounds,
                    whole,
                )) by {}
            assert(!belongs(item, regions, self.bounds, whole));
        }
        match self.kids.take() {
            Some(mut q) => {
                let ghost kids = *q;
                let way = q.route(self.bounds, item.region);
                proof {
                    assert(kids.sw.exact(regions, false));
                    assert(kids.se.exact(regions, false));
                    assert(kids.nw.exact(regions, false));
                    assert(kids.ne.exact(regions, false));
                    lemma_lane(self.bounds, item.region, Quadrant::SouthWest);
                    lemma_lane(self.bounds, item.region, Quadrant::SouthEast);
                    lemma_lane(self.bounds, item.region, Quadrant::NorthWest);
                    lemma_lane(self.bounds, item.region, Quadrant::NorthEast);
                    if way != Some(Quadrant::SouthWest) {
                        kids.sw.lemma_unaffected(regions, item.region);
                    }
                    if way != Some(Quadrant::SouthEast) {
                        kids.se.lemma_unaffected(regions, item.region);
                    }
                    if way != Some(Quadrant::NorthWest) {
                        kids.nw.lemma_unaffected(regions, item.region);
                    }
                    if way != Some(Quadrant::NorthEast) {
                        kids.ne.lemma_unaffected(regions, item.region);
                    }
                }
                match way {
                    Some(Quadrant::SouthWest) => {
                        q.sw.insert(item, Ghost(regions), Ghost(false));
                    },
                    Some(Quadrant::SouthEast) => {
                        q.se.insert(item, Ghost(regions), Ghost(false));
                    },
                    Some(Quadrant::NorthWest) => {
                        q.nw.insert(item, Ghost(regions), Ghost(false));
                    },
                    Some(Quadrant::NorthEast) => {
                        q.ne.insert(item, Ghost(regions), Ghost(false));
                    },
                    None => {
                        self.items.push(item);
                    },
                }
                self.kids = Some(q);
                proof {
                    assert forall|x: Item| #[trigger]
                        self.count(x) == if belongs(x, more, self.bounds, whole) {
                            1nat
                        } else {
                            0nat
                        } by {
                        before.lemma_count(x);
                        self.lemma_count(x);
                        lemma_occurrences_push(before.items@, item, x);
                        assert(before.count(x) == if belongs(x, regions, self.bounds, whole) {
                            1nat
                        } else {
                            0nat
                        });
                        assert(kids.sw.count(x) == if belongs(x, regions, kids.sw.bounds, false) {
                            1nat
                        } else {
                            0nat
                        });
                        assert(kids.se.count(x) == if belongs(x, regions, kids.se.bounds, false) {
                            1nat
                        } else {
                            0nat
                        });
                        assert(kids.nw.count(x) == if belongs(x, regions, kids.nw.bounds, false) {
                            1nat
                        } else {
                            0nat
                        });
                        assert(kids.ne.count(x) == if belongs(x, regions, kids.ne.bounds, false) {
                            1nat
                        } else {
                            0nat
                        });
                    }
                }
            },
            None => {
                self.items.push(item);
                proof {
                    assert forall|x: Item| #[trigger]
                        occurrences(self.items@, x) == if belongs(x, more, self.bounds, whole) {
                            1nat
                        } else {
                            0nat
                        } by {
                        before.lemma_count(x);
                        lemma_occurrences_push(before.items@, item, x);
                        assert(before.count(x) == if belongs(x, regions, self.bounds, whole) {
                            1nat
                        } else {
                            0nat
                        });
                    }
                }
                if self.items.len() > NODE_CAPACITY && self.bounds.can_split() {
                    self.split(Ghost(more), Ghost(whole));
                } else {
                    proof {
                        assert forall|x: Item| #[trigger]
                            self.count(x) == if belongs(x, more, self.bounds, whole) {
                                1nat
                            } else {
                                0nat
                            } by {
                            self.lemma_count(x);
                        }
                    }
                }
            },
        }
    }

    /// Cuts a node in four and hands each item to the quadrant that its
    /// region fits in. An item whose region fits in no quadrant stays. A
    /// quadrant that ends up with more items than `NODE_CAPACITY` is cut in
    /// its turn.
    fn split(&mut self, Ghost(regions): Ghost<Seq<BoundingRegion>>, Ghost(whole): Ghost<bool>)
        requires
            old(self).kids is None,
            old(self).bounds.spec_can_split(),
            old(self).items@.len() > NODE_CAPACITY,
            regions.len() <= usize::MAX,
            forall|x: Item| #[trigger]
                occurrences(old(self).items@, x) == if belongs(
                    x,
                    regions,
                    old(self).bounds,
                    whole,
                ) {
                    1nat
                } else {
                    0nat
                },
        ensures
            final(self).exact(regions, whole),
            final(self).kids is Some,
            final(self).bounds == old(self).bounds,
        decreases old(self).bounds.max.x - old(self).bounds.min.x, 1int,
    {
        let bounds = self.bounds;
        let mut q = Quad {
            sw: Node::leaf(bounds.quadrant(Quadrant::SouthWest)),
            se: Node::leaf(bounds.quadrant(Quadrant::SouthEast)),
            nw: Node::leaf(bounds.quadrant(Quadrant::NorthWest)),
            ne: Node::leaf(bounds.quadrant(Quadrant::NorthEast)),
        };
        let mut all: Vec<Item> = Vec::new();
        std::mem::swap(&mut all, &mut self.items);
        proof {
            lemma_len_is_crowd(all@, regions, bounds, whole);
        }
        let mut i: usize = 0;
        while i < all.len()
            invariant
                i <= all.len(),
                all@ == old(self).items@,
                self.bounds == bounds,
                bounds == old(self).bounds,
                bounds.spec_can_split(),
                self.kids is None,
                q.sw.kids is None && q.se.kids is None && q.nw.kids is None && q.ne.kids is None,
                q.sw.bounds == bounds.spec_quadrant(Quadrant::SouthWest),
                q.se.bounds == bounds.spec_quadrant(Quadrant::SouthEast),
                q.nw.bounds == bounds.spec_quadrant(Quadrant::NorthWest),
                q.ne.bounds == bounds.spec_quadrant(Quadrant::NorthEast),
                forall|x: Item| #[trigger]
                    occurrences(self.items@, x) == if lane(bounds, x.region) is None {
                        occurrences(all@.take(i as int), x)
                    } else {
                        0nat
                    },
                forall|x: Item| #[trigger]
                    occurrences(q.sw.items@, x) == if lane(bounds, x.region) == Some(
                        Quadrant::SouthWest,
                    ) {
                        occurrences(all@.take(i as int), x)
                    } else {
                        0nat
                    },
                forall|x: Item| #[trigger]
                    occurrences(q.se.items@, x) == if lane(bounds, x.region) == Some(
                        Quadrant::SouthEast,
                    ) {
                        occurrences(all@.take(i as int), x)
                    } else {
                        0nat
                    },
                forall|x: Item| #[trigger]
                    occurrences(q.nw.items@, x) == if lane(bounds, x.region) == Some(
                        Quadrant::NorthWest,
                    ) {
                        occurrences(all@.take(i as int), x)
                    } else {
                        0nat
                    },
                forall|x: Item| #[trigger]
                    occurrences(q.ne.items@, x) == if lane(bounds, x.region) == Some(
                        Quadrant::NorthEast,
                    ) {
                        occurrences(all@.take(i as int), x)
                    } else {
                        0nat
                    },
            decreases all.len() - i,
        {
            let item = all[i];
            let ghost kept = self.items@;
            let ghost prior = q;
            match q.route(bounds, item.region) {
                Some(Quadrant::SouthWest) => {
                    q.sw.items.push(item);
                },
                Some(Quadrant::SouthEast) => {
                    q.se.items.push(item);
                },
                Some(Quadrant::NorthWest) => {
                    q.nw.items.push(item);
                },
                Some(Quadrant::NorthEast) => {
                    q.ne.items.push(item);
                },
                None => {
                    self.items.push(item);
                },
            }
            proof {
                assert(all@.take(i + 1) =~= all@.take(i as int).push(item));
                assert forall|x: Item| #[trigger]
                    occurrences(self.items@, x) == if lane(bounds, x.region) is None {
                        occurrences(all@.take(i + 1), x)
                    } else {
                        0nat
                    } by {
                    lemma_occurrences_push(all@.take(i as int), item, x);
                    lemma_occurrences_push(kept, item, x);
                }
                assert forall|x: Item| #[trigger]
                    occurrences(q.sw.items@, x) == if lane(bounds, x.region) == Some(
                        Quadrant::SouthWest,
                    ) {
                        occurrences(all@.take(i + 1), x)
                    } else {
                        0nat
                    } by {
                    lemma_occurrences_push(all@.take(i as int), item, x);
                    lemma_occurrences_push(prior.sw.items@, item, x);
                }
                assert forall|x: Item| #[trigger]
                    occurrences(q.se.items@, x) == if lane(bounds, x.region) == Some(
                        Quadrant::SouthEast,
                    ) {
                        occurrences(all@.take(i + 1), x)
                    } else {
                        0nat
                    } by {
                    lemma_occurrences_push(all@.take(i as int), item, x);
                    lemma_occurrences_push(prior.se.items@, item, x);
                }
                assert forall|x: Item| #[trigger]
                    occurrences(q.nw.items@, x) == if lane(bounds, x.region) == Some(
                        Quadrant::NorthWest,
                    ) {
                        occurrences(all@.take(i + 1), x)
                    } else {
                        0nat
                    } by {
                    lemma_occurrences_push(all@.take(i as int), item, x);
                    lemma_occurrences_push(prior.nw.items@, item, x);
                }
                assert forall|x: Item| #[trigger]
                    occurrences(q.ne.items@, x) == if lane(bounds, x.region) == Some(
                        Quadrant::NorthEast,
                    ) {
                        occurrences(all@.take(i + 1), x)
                    } else {
                        0nat
                    } by {
                    lemma_occurrences_push(all@.take(i as int), item, x);
                    lemma_occurrences_push(prior.ne.items@, item, x);
                }
            }
            i += 1;
        }
        proof {
            assert(all@.take(all@.len() as int) =~= all@);
        }
        q.sw.settle(Ghost(regions), Ghost(bounds), Ghost(whole), Ghost(all@), Ghost(Quadrant::SouthWest));
        q.se.settle(Ghost(regions), Ghost(bounds), Ghost(whole), Ghost(all@), Ghost(Quadrant::SouthEast));
        q.nw.settle(Ghost(regions), Ghost(bounds), Ghost(whole), Ghost(all@), Ghost(Quadrant::NorthWest));
        q.ne.settle(Ghost(regions), Ghost(bounds), Ghost(whole), Ghost(all@), Ghost(Quadrant::NorthEast));
        let ghost stay = self.items@;
        self.kids = Some(Box::new(q));
        proof {
            assert forall|x: Item| #[trigger]
                self.count(x) == if belongs(x, regions, bounds, whole) { 1nat } else { 0nat } by {
                self.lemma_count(x);
                lemma_lane(bounds, x.region, Quadrant::SouthWest);
                lemma_lane(bounds, x.region, Quadrant::SouthEast);
                lemma_lane(bounds, x.region, Quadrant::NorthWest);
                lemma_lane(bounds, x.region, Quadrant::NorthEast);
                assert(occurrences(stay, x) == if lane(bounds, x.region) is None {
                    occurrences(all@, x)
                } else {
                    0nat
                });
                assert(q.sw.count(x) == if belongs(x, regions, q.sw.bounds, false) {
                    1nat
                } else {
                    0nat
                });
                assert(q.se.count(x) == if belongs(x, regions, q.se.bounds, false) {
                    1nat
                } else {
                    0nat
                });
                assert(q.nw.count(x) == if belongs(x, regions, q.nw.bounds, false) {
                    1nat
                } else {
                    0nat
                });
                assert(q.ne.count(x) == if belongs(x, regions, q.ne.bounds, false) {
                    1nat
                } else {
                    0nat
                });
            }
        }
    }

    /// Makes a quadrant that has just been dealt its items sound: cuts it
    /// where it holds more items than `NODE_CAPACITY`.
    fn settle(
        &mut self,
        Ghost(regions): Ghost<Seq<BoundingRegion>>,
        Ghost(parent): Ghost<BoundingRegion>,
        Ghost(whole): Ghost<bool>,
        Ghost(dealt): Ghost<Seq<Item>>,
        Ghost(which): Ghost<Quadrant>,
    )
        requires
            old(self).kids is None,
            parent.spec_can_split(),
            old(self).bounds == parent.spec_quadrant(which),
            regions.len() <= usize::MAX,
            forall|x: Item| #[trigger]
                occurrences(dealt, x) == if belongs(x, regions, parent, whole) {
                    1nat
                } else {
                    0nat
                },
            forall|x: Item| #[trigger]
                occurrences(old(self).items@, x) == if lane(parent, x.region) == Some(which) {
                    occurrences(dealt, x)
                } else {
                    0nat
                },
        ensures
            final(self).exact(regions, false),
            final(self).bounds == old(self).bounds,
        decreases parent.max.x - parent.min.x, 0int,
    {
        proof {
            assert forall|x: Item| #[trigger]
                occurrences(self.items@, x) == if belongs(x, regions, self.bounds, false) {
                    1nat
                } else {
                    0nat
                } by {
                lemma_lane(parent, x.region, which);
                assert(occurrences(dealt, x) == if belongs(x, regions, parent, whole) {
                    1nat
                } else {
                    0nat
                });
            }
        }
        if self.items.len() > NODE_CAPACITY && self.bounds.can_split() {
            self.split(Ghost(regions), Ghost(false));
        } else {
            proof {
                assert forall|x: Item| #[trigger]
                    self.count(x) == if belongs(x, regions, self.bounds, false) {
                        1nat
                    } else {
                        0nat
                    } by {
                    self.lemma_count(x);
                }
            }
        }
    }

    /// Appends to `out` every item below this node whose region meets
    /// `window`, each as often as the tree holds it.
    pub(crate) fn collect(&self, window: BoundingRegion, out: &mut Vec<Item>)
        requires
            self.wf(),
        ensures
            forall|x: Item| #[trigger]
                occurrences(final(out)@, x) == occurrences(old(out)@, x) + if x.region.spec_intersects(
                    window,
                ) {
                    self.count(x)
                } else {
                    0nat
                },
        decreases self,
    {
        let ghost start = out@;
        let mut i: usize = 0;
        while i < self.items.len()
            invariant
                i <= self.items.len(),
                forall|x: Item| #[trigger]
                    occurrences(out@, x) == occurrences(start, x) + if x.region.spec_intersects(
                        window,
                    ) {
                        occurrences(self.items@.take(i as int), x)
                    } else {
                        0nat
                    },
            decreases self.items.len() - i,
        {
            let item = self.items[i];
            let ghost prior = out@;
            if item.region.intersects(window) {
                out.push(item);
            }
            proof {
                assert(self.items@.take(i + 1) =~= self.items@.take(i as int).push(item));
                assert forall|x: Item| #[trigger]
                    occurrences(out@, x) == occurrences(start, x) + if x.region.spec_intersects(
                        window,
                    ) {
                        occurrences(self.items@.take(i + 1), x)
                    } else {
                        0nat
                    } by {
                    lemma_occurrences_push(self.items@.take(i as int), item, x);
                    lemma_occurrences_push(prior, item, x);
                }
            }
            i += 1;
        }
        proof {
            assert(self.items@.take(self.items@.len() as int) =~= self.items@);
        }
        let ghost own = out@;
        match &self.kids {
            Some(q) => {
                if q.sw.bounds.intersects(window) {
                    q.sw.collect(window, out);
                }
                let ghost after_sw = out@;
                if q.se.bounds.intersects(window) {
                    q.se.collect(window, out);
                }
                let ghost after_se = out@;
                if q.nw.bounds.intersects(window) {
                    q.nw.collect(window, out);
                }
                let ghost after_nw = out@;
                if q.ne.bounds.intersects(window) {
                    q.ne.collect(window, out);
                }
                proof {
                    assert forall|x: Item| #[trigger]
                        occurrences(out@, x) == occurrences(start, x) + if x.region.spec_intersects(
                            window,
                        ) {
                            self.count(x)
                        } else {
                            0nat
                        } by {
                        self.lemma_count(x);
                        let hit: nat = if x.region.spec_intersects(window) { 1 } else { 0 };
                        assert(occurrences(after_sw, x) == occurrences(own, x) + hit * q.sw.count(x));
                        assert(occurrences(after_se, x) == occurrences(after_sw, x) + hit * q.se.count(
                            x,
                        ));
                        assert(occurrences(after_nw, x) == occurrences(after_se, x) + hit * q.nw.count(
                            x,
                        ));
                        assert(occurrences(out@, x) == occurrences(after_nw, x) + hit * q.ne.count(x));
                    }
                }
            },
            None => {
                proof {
                    assert forall|x: Item| #[trigger]
                        occurrences(out@, x) == occurrences(start, x) + if x.region.spec_intersects(
                            window,
                        ) {
                            self.count(x)
                        } else {
                            0nat
                        } by {
                        self.lemma_count(x);
                    }
                }
            },
        }
    }

    /// Appends the regions of this node and of all nodes below it.
    pub(crate) fn regions(&self, out: &mut Vec<BoundingRegion>)
        ensures
            final(out)@ == old(out)@ + self.partition(),
        decreases self,
    {
        let ghost start = out@;
        out.push(self.bounds);
        match &self.kids {
            Some(q) => {
                q.sw.regions(out);
                q.se.regions(out);
                q.nw.regions(out);
                q.ne.regions(out);
                assert(out@ =~= start + self.partition());
            },
            None => {
                assert(out@ =~= start + self.partition());
            },
        }
    }
}

} // verus!
