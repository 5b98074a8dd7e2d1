//! The spatial index: stored bodies, each with the region it was stored
//! under, found again by the regions that a window meets.

use vstd::prelude::*;
use crate::geometry::BoundingRegion;
use crate::partition::{partition_of, NODE_CAPACITY};
use crate::tree::{
    belongs, lemma_occurrences_found, lemma_occurrences_member, lemma_occurrences_twice,
    occurrences, Item, Node,
};

verus! {

/// Names one entry of an index. A handle is good until the index is
/// cleared: `generation` counts the clears, `slot` the insertions since the
/// last one.
#[derive(Clone, Copy, Debug, PartialEq, Eq, Structural)]
pub struct Handle {
    pub generation: u64,
    pub slot: usize,
}

/// A stored body and the region it was stored under.
pub struct Entry<T> {
    pub region: BoundingRegion,
    pub body: T,
}

/// A container of bodies, each stored under a region of the grid.
///
/// Its view is the sequence of its entries in the order in which they were
/// inserted. The partition tree that speeds up `query` is not part of the
/// view: what a query returns depends on the entries alone, and the regions
/// of the tree are those that `partition_of` gives for the entries.
pub struct SpatialIndex<T> {
    store: Store<T>,
    generation: u64,
}

impl<T> View for SpatialIndex<T> {
    type V = Seq<Entry<T>>;

    closed spec fn view(&self) -> Seq<Entry<T>> {
        self.store.entries@
    }
}

/// The entries in the order of their slots, and the tree that finds them.
struct Store<T> {
    entries: Vec<Entry<T>>,
    root: Node,
}

/// The regions of the entries, in the order of the entries.
pub open spec fn regions_of<T>(entries: Seq<Entry<T>>) -> Seq<BoundingRegion> {
    entries.map_values(|e: Entry<T>| e.region)
}

/// One of the first `upto` items has the slot `slot`.
spec fn drawn(items: Seq<Item>, upto: int, slot: int) -> bool {
    exists|i: int| 0 <= i < upto && #[trigger] items[i].slot == slot
}

/// `h` stands in the list `exclude`.
fn listed(exclude: &Vec<Handle>, h: Handle) -> (b: bool)
    ensures
        b == exclude@.contains(h),
{
    let mut i: usize = 0;
    while i < exclude.len()
        invariant
            i <= exclude.len(),
            forall|k: int| 0 <= k < i ==> exclude@[k] != h,
        decreases exclude.len() - i,
    {
        if exclude[i] == h {
            return true;
        }
        i += 1;
    }
    false
}

impl<T> Store<T> {
    /// The tree holds one item for each entry, with the entry's slot and
    /// region, and nothing else.
    spec fn sound(&self) -> bool {
        self.root.exact(regions_of(self.entries@), true)
    }

    /// The place `i` holds an entry whose region meets `window` and whose
    /// handle, in the generation `generation`, is not in `exclude`.
    spec fn hit(&self, i: int, window: BoundingRegion, exclude: Seq<Handle>, generation: u64) -> bool {
        &&& 0 <= i < self.entries@.len()
        &&& self.entries@[i].region.spec_intersects(window)
        &&& !exclude.contains(Handle { generation, slot: i as usize })
    }

    fn empty(bounds: BoundingRegion) -> (store: Self)
        ensures
            store.sound(),
            store.entries@.len() == 0,
            store.root.bounds == bounds,
    {
        let store = Store { entries: Vec::new(), root: Node::leaf(bounds) };
        proof {
            assert forall|x: Item| #[trigger]
                store.root.count(x) == if belongs(x, regions_of(store.entries@), bounds, true) {
                    1nat
                } else {
                    0nat
                } by {}
        }
        store
    }

    /// Drops every entry and every cut, and keeps the room of the entries.
    fn reset(&mut self)
        ensures
            final(self).sound(),
            final(self).entries@.len() == 0,
            final(self).root.bounds == old(self).root.bounds,
    {
        self.entries.clear();
        self.root = Node::leaf(self.root.bounds);
        proof {
            assert forall|x: Item| #[trigger]
                self.root.count(x) == if belongs(
                    x,
                    regions_of(self.entries@),
                    self.root.bounds,
                    true,
                ) {
                    1nat
                } else {
                    0nat
                } by {}
        }
    }

    fn insert(&mut self, region: BoundingRegion, body: T) -> (slot: usize)
        requires
            old(self).sound(),
        ensures
            final(self).sound(),
            final(self).entries@ == old(self).entries@.push(Entry { region, body }),
            final(self).root.bounds == old(self).root.bounds,
            slot == old(self).entries@.len(),
    {
        let ghost regions = regions_of(self.entries@);
        let slot: usize = self.entries.len();
        self.entries.push(Entry { region, body });
        assert(self.entries.len() == slot + 1);
        self.root.insert(Item { slot, region }, Ghost(regions), Ghost(true));
        proof {
            assert(regions_of(self.entries@) =~= regions.push(region));
        }
        slot
    }

    /// The bodies of the entries that `hit` names, each entry once, with
    /// the places they came from.
    fn query(
        &self,
        window: BoundingRegion,
        exclude: &Vec<Handle>,
        generation: u64,
    ) -> (found: (Vec<&T>, Ghost<Seq<int>>))
        requires
            self.sound(),
        ensures
            found.1@.no_duplicates(),
            forall|i: int| found.1@.contains(i) <==> self.hit(i, window, exclude@, generation),
            found.0@.len() == found.1@.len(),
            forall|k: int|
                0 <= k < found.0@.len() ==> *found.0@[k] == self.entries@[found.1@[k]].body,
    {
        let mut items: Vec<Item> = Vec::new();
        self.root.collect(window, &mut items);
        let ghost total = self.entries.len();
        let mut out: Vec<&T> = Vec::new();
        let ghost mut slots: Seq<int> = Seq::empty();
        let mut j: usize = 0;
        while j < items.len()
            invariant
                j <= items.len(),
                self.sound(),
                total == self.entries@.len(),
                forall|x: Item| #[trigger]
                    occurrences(items@, x) == if x.region.spec_intersects(window) {
                        self.root.count(x)
                    } else {
                        0nat
                    },
                out@.len() == slots.len(),
                slots.no_duplicates(),
                forall|k: int|
                    0 <= k < slots.len() ==> self.hit(
                        #[trigger] slots[k],
                        window,
                        exclude@,
                        generation,
                    ) && *out@[k] == self.entries@[slots[k]].body,
                forall|k: int| 0 <= k < slots.len() ==> drawn(items@, j as int, #[trigger] slots[k]),
                forall|i: int|
                    0 <= i < j && self.hit(
                        #[trigger] items@[i].slot as int,
                        window,
                        exclude@,
                        generation,
                    ) ==> slots.contains(items@[i].slot as int),
            decreases items.len() - j,
        {
            let item = items[j];
            proof {
                lemma_occurrences_member(items@, j as int);
                assert(self.root.count(item) == if belongs(
                    item,
                    regions_of(self.entries@),
                    self.root.bounds,
                    true,
                ) {
                    1nat
                } else {
                    0nat
                });
            }
            let h = Handle { generation, slot: item.slot };
            if !listed(exclude, h) {
                proof {
                    assert forall|k: int| 0 <= k < slots.len() implies slots[k] != item.slot by {
                        assert(drawn(items@, j as int, slots[k]));
                        let i = choose|i: int| 0 <= i < j && #[trigger] items@[i].slot == slots[k];
                        if items@[i].slot == item.slot {
                            lemma_occurrences_member(items@, i);
                            assert(self.root.count(items@[i]) == if belongs(
                                items@[i],
                                regions_of(self.entries@),
                                self.root.bounds,
                                true,
                            ) {
                                1nat
                            } else {
                                0nat
                            });
                            assert(items@[i] == item);
                            lemma_occurrences_twice(items@, i, j as int);
                        }
                    }
                }
                out.push(&self.entries[item.slot].body);
                proof {
                    let ghost grown = slots.push(item.slot as int);
                    assert forall|k: int| 0 <= k < grown.len() implies drawn(
                        items@,
                        j + 1,
                        #[trigger] grown[k],
                    ) by {
                        if k < slots.len() {
                            assert(drawn(items@, j as int, slots[k]));
                            let i = choose|i: int|
                                0 <= i < j && #[trigger] items@[i].slot == slots[k];
                            assert(items@[i].slot == grown[k]);
                        } else {
                            assert(items@[j as int].slot == grown[k]);
                        }
                    }
                    assert forall|i: int|
                        0 <= i < j + 1 && self.hit(
                            #[trigger] items@[i].slot as int,
                            window,
                            exclude@,
                            generation,
                        ) implies grown.contains(items@[i].slot as int) by {
                        if i < j {
                            let k = choose|k: int|
                                0 <= k < slots.len() && slots[k] == items@[i].slot as int;
                            assert(grown[k] == items@[i].slot as int);
                        } else {
                            assert(grown[slots.len() as int] == item.slot as int);
                        }
                    }
                    slots = grown;
                }
            } else {
                proof {
                    assert forall|k: int| 0 <= k < slots.len() implies drawn(
                        items@,
                        j + 1,
                        #[trigger] slots[k],
                    ) by {
                        assert(drawn(items@, j as int, slots[k]));
                        let i = choose|i: int|
                            0 <= i < j && #[trigger] items@[i].slot == slots[k];
                        assert(items@[i].slot == slots[k]);
                    }
                }
            }
            j += 1;
        }
        proof {
            assert forall|i: int| self.hit(i, window, exclude@, generation) implies slots.contains(
                i,
            ) by {
                let x = Item { slot: i as usize, region: self.entries@[i].region };
                assert(belongs(x, regions_of(self.entries@), self.root.bounds, true));
                assert(self.root.count(x) == 1);
                let at = lemma_occurrences_found(items@, x);
                assert(items@[at].slot as int == i);
            }
        }
        (out, Ghost(slots))
    }
}

impl<T> SpatialIndex<T> {
    #[verifier::type_invariant]
    spec fn sound(&self) -> bool {
        self.store.sound()
    }

    /// The region that the index was made for.
    pub closed spec fn spec_bounds(&self) -> BoundingRegion {
        self.store.root.bounds
    }

    /// How often the index has been cleared, counted round `u64`.
    pub closed spec fn generation(&self) -> u64 {
        self.generation
    }

    /// The regions into which the index has cut its bounds: the
    /// subdivision that the regions of its entries call for.
    pub open spec fn partition(&self) -> Seq<BoundingRegion> {
        partition_of(self.spec_bounds(), regions_of(self@))
    }

    /// The bounds have been cut: the index holds more than `NODE_CAPACITY`
    /// entries, and its bounds can be split.
    pub open spec fn cut(&self) -> bool {
        self@.len() > NODE_CAPACITY && self.spec_bounds().spec_can_split()
    }

    /// The handle that `insert` gave for the entry at place `i` of the view.
    pub open spec fn handle_at(&self, i: int) -> Handle {
        Handle { generation: self.generation(), slot: i as usize }
    }

    /// `h` names an entry that the index holds now.
    pub open spec fn live(&self, h: Handle) -> bool {
        h.generation == self.generation() && h.slot < self@.len()
    }

    /// The entry at place `i` is one that a query for `window` owes: its
    /// region meets the window and its handle is not excluded.
    pub open spec fn hit(&self, i: int, window: BoundingRegion, exclude: Seq<Handle>) -> bool {
        &&& 0 <= i < self@.len()
        &&& self@[i].region.spec_intersects(window)
        &&& !exclude.contains(self.handle_at(i))
    }

    /// `slots` lists the places of the entries that a query owes, each once.
    pub open spec fn selects(
        &self,
        window: BoundingRegion,
        exclude: Seq<Handle>,
        slots: Seq<int>,
    ) -> bool {
        &&& slots.no_duplicates()
        &&& forall|i: int| slots.contains(i) <==> self.hit(i, window, exclude)
    }

    /// `out` is an answer to a query: the bodies of the entries that the
    /// query owes, each entry once, in some order.
    pub open spec fn answers(
        &self,
        window: BoundingRegion,
        exclude: Seq<Handle>,
        out: Seq<T>,
    ) -> bool {
        exists|slots: Seq<int>|
            {
                &&& #[trigger] self.selects(window, exclude, slots)
                &&& out.len() == slots.len()
                &&& forall|k: int| 0 <= k < out.len() ==> out[k] == self@[slots[k]].body
            }
    }

    /// An empty index for the region `bounds`.
    pub fn new(bounds: BoundingRegion) -> (index: Self)
        ensures
            index@.len() == 0,
            index.spec_bounds() == bounds,
            index.generation() == 0,
    {
        SpatialIndex { store: Store::empty(bounds), generation: 0 }
    }

    #[verifier::when_used_as_spec(spec_bounds)]
    pub fn bounds(&self) -> (b: BoundingRegion)
        ensures
            b == self.spec_bounds(),
    {
        self.store.root.bounds
    }

    /// The number of entries.
    pub fn len(&self) -> (n: usize)
        ensures
            n == self@.len(),
    {
        self.store.entries.len()
    }

    /// Removes every entry. Handles given before stop being live: the
    /// generation moves on, and slots are counted from zero again.
    pub fn clear(&mut self)
        ensures
            final(self)@.len() == 0,
            final(self).spec_bounds() == old(self).spec_bounds(),
            final(self).generation() == if old(self).generation() == u64::MAX {
                0
            } else {
                old(self).generation() + 1
            },
    {
        let mut store = Store::empty(self.store.root.bounds);
        std::mem::swap(&mut store, &mut self.store);
        store.reset();
        self.store = store;
        self.generation = if self.generation == u64::MAX {
            0
        } else {
            self.generation + 1
        };
    }

    /// Stores `body` under `region` and returns the handle of the new entry.
    /// The region need not lie inside the bounds of the index.
    pub fn insert(&mut self, region: BoundingRegion, body: T) -> (h: Handle)
        ensures
            final(self)@ == old(self)@.push(Entry { region, body }),
            final(self).spec_bounds() == old(self).spec_bounds(),
            final(self).generation() == old(self).generation(),
            h == old(self).handle_at(old(self)@.len() as int),
            final(self).live(h),
    {
        proof {
            use_type_invariant(&*self);
        }
        let mut store = Store::empty(self.store.root.bounds);
        std::mem::swap(&mut store, &mut self.store);
        let slot: usize = store.insert(region, body);
        self.store = store;
        Handle { generation: self.generation, slot }
    }

    /// The bodies of all entries whose region meets `window`, but for those
    /// whose handle stands in `exclude`. Each such entry gives one body; the
    /// order is that of the partition tree and means nothing.
    pub fn query(&self, window: &BoundingRegion, exclude: &Vec<Handle>) -> (out: Vec<&T>)
        ensures
            self.answers(*window, exclude@, out@.map_values(|b: &T| *b)),
    {
        proof {
            use_type_invariant(self);
        }
        let (out, Ghost(slots)) = self.store.query(*window, exclude, self.generation);
        proof {
            assert forall|i: int| slots.contains(i) <==> self.hit(i, *window, exclude@) by {
                assert(self.hit(i, *window, exclude@) == self.store.hit(
                    i,
                    *window,
                    exclude@,
                    self.generation,
                ));
            }
            assert(self.selects(*window, exclude@, slots));
            assert(out@.map_values(|b: &T| *b).len() == slots.len());
        }
        out
    }

    /// The regions into which the index has cut its bounds so far: the
    /// bounds themselves, then the regions of each quadrant that has been
    /// made, each before its own quadrants. They are the subdivision that
    /// the regions of the entries call for.
    pub fn get_regions(&self) -> (out: Vec<BoundingRegion>)
        ensures
            out@ == self.partition(),
            out@.len() > 1 <==> self.cut(),
            self.spec_bounds().valid() ==> forall|k: int|
                0 <= k < out@.len() ==> (#[trigger] out@[k]).valid() && self.spec_bounds().spec_contains(
                    out@[k],
                ),
    {
        proof {
            use_type_invariant(self);
            assert(self.store.entries.len() == self@.len());
            self.store.root.lemma_partition_exact(regions_of(self@), true);
            if self.spec_bounds().valid() {
                self.store.root.lemma_partition_inside();
            }
        }
        let mut out: Vec<BoundingRegion> = Vec::new();
        self.store.root.regions(&mut out);
        out
    }
}

impl<T> SpatialIndex<T> {
    /// The places of the entries that a query for `window` owes.
    pub open spec fn hits(&self, window: BoundingRegion, exclude: Seq<Handle>) -> Set<int> {
        Set::new(|i: int| self.hit(i, window, exclude))
    }

    /// An answer holds nothing but bodies of entries that the query owes:
    /// no body comes from an entry whose region misses the window, nor from
    /// an excluded one.
    pub proof fn lemma_answer_sound(
        &self,
        window: BoundingRegion,
        exclude: Seq<Handle>,
        out: Seq<T>,
        k: int,
    ) -> (i: int)
        requires
            self.answers(window, exclude, out),
            0 <= k < out.len(),
        ensures
            self.hit(i, window, exclude),
            out[k] == self@[i].body,
    {
        let slots = choose|slots: Seq<int>|
            {
                &&& #[trigger] self.selects(window, exclude, slots)
                &&& out.len() == slots.len()
                &&& forall|k: int| 0 <= k < out.len() ==> out[k] == self@[slots[k]].body
            };
        assert(slots.contains(slots[k]));
        slots[k]
    }

    /// An answer holds the body of every entry that the query owes.
    pub proof fn lemma_answer_complete(
        &self,
        window: BoundingRegion,
        exclude: Seq<Handle>,
        out: Seq<T>,
        i: int,
    ) -> (k: int)
        requires
            self.answers(window, exclude, out),
            self.hit(i, window, exclude),
        ensures
            0 <= k < out.len(),
            out[k] == self@[i].body,
    {
        let slots = choose|slots: Seq<int>|
            {
                &&& #[trigger] self.selects(window, exclude, slots)
                &&& out.len() == slots.len()
                &&& forall|k: int| 0 <= k < out.len() ==> out[k] == self@[slots[k]].body
            };
        assert(slots.contains(i));
        choose|k: int| 0 <= k < slots.len() && slots[k] == i
    }

    /// An answer holds as many bodies as there are entries that the query
    /// owes: each of them gives one body and no more.
    pub proof fn lemma_answer_len(&self, window: BoundingRegion, exclude: Seq<Handle>, out: Seq<T>)
        requires
            self.answers(window, exclude, out),
        ensures
            self.hits(window, exclude).finite(),
            out.len() == self.hits(window, exclude).len(),
    {
        let slots = choose|slots: Seq<int>|
            {
                &&& #[trigger] self.selects(window, exclude, slots)
                &&& out.len() == slots.len()
                &&& forall|k: int| 0 <= k < out.len() ==> out[k] == self@[slots[k]].body
            };
        slots.unique_seq_to_set();
        assert(slots.to_set() =~= self.hits(window, exclude));
    }

    /// A query that excludes a handle of this generation does not select
    /// the entry that was inserted under it.
    pub proof fn lemma_excluded_not_selected(
        &self,
        window: BoundingRegion,
        exclude: Seq<Handle>,
        slots: Seq<int>,
        h: Handle,
    )
        requires
            self.selects(window, exclude, slots),
            exclude.contains(h),
            h.generation == self.generation(),
        ensures
            !slots.contains(h.slot as int),
    {
        assert(self.handle_at(h.slot as int) == h);
    }

    /// Where no entry is owed, the answer is empty.
    pub proof fn lemma_nothing_owed(&self, window: BoundingRegion, exclude: Seq<Handle>, out: Seq<T>)
        requires
            self.answers(window, exclude, out),
            forall|i: int| !self.hit(i, window, exclude),
        ensures
            out.len() == 0,
    {
        if out.len() > 0 {
            let i = self.lemma_answer_sound(window, exclude, out, 0);
        }
    }

    /// Where one entry is owed and no other, the answer is its body.
    pub proof fn lemma_one_owed(
        &self,
        window: BoundingRegion,
        exclude: Seq<Handle>,
        out: Seq<T>,
        i: int,
    )
        requires
            self.answers(window, exclude, out),
            self.hit(i, window, exclude),
            forall|j: int| self.hit(j, window, exclude) ==> j == i,
        ensures
            out == seq![self@[i].body],
    {
        let slots = choose|slots: Seq<int>|
            {
                &&& #[trigger] self.selects(window, exclude, slots)
                &&& out.len() == slots.len()
                &&& forall|k: int| 0 <= k < out.len() ==> out[k] == self@[slots[k]].body
            };
        assert(slots.contains(i));
        if slots.len() > 1 {
            assert(slots.contains(slots[0]));
            assert(slots.contains(slots[1]));
        }
        assert(slots.contains(slots[0]));
        assert(out =~= seq![self@[i].body]);
    }

    /// What a query selects depends on the entries alone, not on how often
    /// the index was cleared nor on how it has cut its bounds: two indexes
    /// with the same entries, asked with the same window and with exclusion
    /// lists that name the same places, select the same places.
    pub proof fn lemma_same_entries_same_selection(
        &self,
        other: &SpatialIndex<T>,
        window: BoundingRegion,
        exclude: Seq<Handle>,
        other_exclude: Seq<Handle>,
        slots: Seq<int>,
    )
        requires
            self@ == other@,
            forall|i: int|
                0 <= i < self@.len() ==> (exclude.contains(self.handle_at(i))
                    <==> other_exclude.contains(other.handle_at(i))),
        ensures
            self.selects(window, exclude, slots) <==> other.selects(window, other_exclude, slots),
    {
        assert forall|i: int| self.hit(i, window, exclude) == other.hit(
            i,
            window,
            other_exclude,
        ) by {}
    }

    /// Two indexes with the same entries give the same answers: what
    /// answers a query to the one answers the same query to the other,
    /// where the exclusion lists name the same places. So clearing an index
    /// and inserting its entries again changes no answer.
    pub proof fn lemma_same_entries_same_answers(
        &self,
        other: &SpatialIndex<T>,
        window: BoundingRegion,
        exclude: Seq<Handle>,
        other_exclude: Seq<Handle>,
        out: Seq<T>,
    )
        requires
            self@ == other@,
            forall|i: int|
                0 <= i < self@.len() ==> (exclude.contains(self.handle_at(i))
                    <==> other_exclude.contains(other.handle_at(i))),
        ensures
            self.answers(window, exclude, out) <==> other.answers(window, other_exclude, out),
    {
        if self.answers(window, exclude, out) {
            let slots = choose|slots: Seq<int>|
                {
                    &&& #[trigger] self.selects(window, exclude, slots)
                    &&& out.len() == slots.len()
                    &&& forall|k: int| 0 <= k < out.len() ==> out[k] == self@[slots[k]].body
                };
            self.lemma_same_entries_same_selection(other, window, exclude, other_exclude, slots);
            assert(other.selects(window, other_exclude, slots));
        }
        if other.answers(window, other_exclude, out) {
            let slots = choose|slots: Seq<int>|
                {
                    &&& #[trigger] other.selects(window, other_exclude, slots)
                    &&& out.len() == slots.len()
                    &&& forall|k: int| 0 <= k < out.len() ==> out[k] == other@[slots[k]].body
                };
            self.lemma_same_entries_same_selection(other, window, exclude, other_exclude, slots);
            assert(self.selects(window, exclude, slots));
        }
    }

    /// The order of insertion does not matter to what is found: two indexes
    /// that hold the same entries, in whatever order, answer a query that
    /// excludes nothing with the same bodies.
    pub proof fn lemma_order_does_not_matter(
        &self,
        other: &SpatialIndex<T>,
        window: BoundingRegion,
        out: Seq<T>,
        other_out: Seq<T>,
        body: T,
    )
        requires
            forall|e: Entry<T>| self@.contains(e) <==> other@.contains(e),
            self.answers(window, Seq::empty(), out),
            other.answers(window, Seq::empty(), other_out),
        ensures
            out.contains(body) <==> other_out.contains(body),
    {
        let none = Seq::<Handle>::empty();
        if out.contains(body) {
            let k = choose|k: int| 0 <= k < out.len() && out[k] == body;
            let i = self.lemma_answer_sound(window, none, out, k);
            assert(self@.contains(self@[i]));
            let j = choose|j: int| 0 <= j < other@.len() && other@[j] == self@[i];
            assert(other.hit(j, window, none));
            let at = other.lemma_answer_complete(window, none, other_out, j);
        }
        if other_out.contains(body) {
            let k = choose|k: int| 0 <= k < other_out.len() && other_out[k] == body;
            let j = other.lemma_answer_sound(window, none, other_out, k);
            assert(other@.contains(other@[j]));
            let i = choose|i: int| 0 <= i < self@.len() && self@[i] == other@[j];
            assert(self.hit(i, window, none));
            let at = self.lemma_answer_complete(window, none, out, i);
        }
    }
}

} // verus!
