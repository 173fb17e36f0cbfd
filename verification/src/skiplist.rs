//! The skiplist.
use rand::rngs::SmallRng;
use vstd::prelude::*;

use crate::node::{slot_of, Node, NodeMeta, Slot, MAX_HEIGHT};
use crate::order::{
    ascending, has_key, heights_with, heights_without, key_order, lemma_has_own_key,
    lemma_lookup_by_element, lemma_rank, lookup, precedes, rank, side_of, total_order,
    with_element, without_key, BorrowKey, Side,
};
use crate::rng::{
    height_of, law_heights, random_height, rng, tower_height, uniform_of_small, ThreadSmallRng,
};
use crate::search::Search;
use crate::shape::{Shape, Tower};
use crate::towers::{last_before, lemma_neighbours, lemma_next_from, next_from};

verus! {

/// A skiplist.
pub struct SkipList<T: Ord> {
    pub(crate) head: NodeMeta,
    /// All nodes ever allocated, the removed ones too.
    pub(crate) nodes: Vec<Node<T>>,
    pub(crate) len: usize,
    pub(crate) rng: ThreadSmallRng,
    /// The live nodes, in list order.
    pub(crate) chain: Ghost<Seq<usize>>,
}

/// Where a key stands in a skiplist: the neighbours of its place at each level,
/// as they were when it was searched for.
#[derive(Clone, Copy, Debug)]
pub struct Position {
    pub(crate) preds: [Slot; MAX_HEIGHT],
    pub(crate) succs: [Option<usize>; MAX_HEIGHT],
    pub(crate) existing: Option<usize>,
}

/// The list was changed at a position since that was searched for.
#[derive(Clone, Copy, Debug, PartialEq, Eq, Structural)]
pub struct Stale;

/// A reference to an entry in the skiplist.
pub struct Ref<'a, T: Ord> {
    node: &'a Node<T>,
}

impl<'a, T: Ord> View for Ref<'a, T> {
    type V = T;

    /// The element of the entry.
    closed spec fn view(&self) -> T {
        self.node.element
    }
}

impl<'a, T: Ord> core::ops::Deref for Ref<'a, T> {
    type Target = T;

    fn deref(&self) -> (element: &T)
        ensures
            *element == self@,
    {
        &self.node.element
    }
}

impl<T: Ord> View for SkipList<T> {
    type V = Seq<T>;

    /// The elements of the list, in order.
    closed spec fn view(&self) -> Seq<T> {
        self.shape().elements()
    }
}

impl<T: Ord> Default for SkipList<T> {
    fn default() -> (list: Self)
        ensures
            list.wf(),
            list@ == Seq::<T>::empty(),
            list.towers() == Seq::<nat>::empty(),
    {
        Self::new()
    }
}

impl<T: Ord> SkipList<T> {
    /// The list is well formed: its live nodes are linked in ascending order at
    /// every level, its length is their number, and no lock is held.
    pub closed spec fn wf(&self) -> bool {
        self.structure() && self.unlocked()
    }

    /// The list can be searched. It can be so at every moment, also in the midst of
    /// changes.
    pub closed spec fn searchable(&self) -> bool {
        self.traversable()
    }

    /// No change has still to write anything that it has decided, so that what is read
    /// in the list is exact. Locks may be held.
    pub closed spec fn orderly(&self) -> bool {
        self.ordered()
    }

    /// The element is in the list, or has been in it, or is about to be.
    pub closed spec fn has_node(&self, element: T) -> bool {
        exists|i: int|
            0 <= i < self.shape().towers.len() && (#[trigger] self.shape().towers[i]).element
                == element
    }

    /// The heights of the towers that carry the elements, in order.
    pub closed spec fn towers(&self) -> Seq<nat> {
        self.shape().heights()
    }

    /// The source of the heights of towers.
    pub closed spec fn source(&self) -> ThreadSmallRng {
        self.rng
    }

    /// The list came from another one by insertions and removals.
    pub closed spec fn grown_from(&self, other: &Self) -> bool {
        self.shape().grown_from(other.shape())
    }

    /// Walks over the list that come to a node that is still in it still come to it, as
    /// they did when the list was another one.
    pub closed spec fn still_shows(&self, other: &Self) -> bool {
        self.shape().keeps_view(other.shape())
    }

    /// The node with the number has not been removed.
    pub closed spec fn keeps(&self, entry: int) -> bool {
        0 <= entry < self.shape().towers.len() && !self.shape().marked(Slot::Node(entry as usize))
    }

    /// How many elements have been counted.
    pub closed spec fn counted(&self) -> nat {
        self.len as nat
    }

    /// How many nodes have been in the list, or are about to be: their numbers are below.
    pub closed spec fn entries(&self) -> nat {
        self.shape().towers.len()
    }

    /// The number of the node that carries an element, by the place of the element.
    pub closed spec fn entry_at(&self, i: int) -> int {
        self.shape().chain[i] as int
    }

    /// The element of the node with a number.
    pub closed spec fn element_of(&self, entry: int) -> T {
        self.shape().towers[entry].element
    }

    /// No search for the node with a number goes astray in the list as it is.
    pub closed spec fn reveals(&self, entry: int) -> bool {
        &&& 0 <= entry < self.entries()
        &&& exists|good: Set<Slot>| #[trigger] self.shape().guided(good, entry as usize)
    }

    /// The number of the node that comes after the one with a number, if any does. The
    /// head has the number `-1`.
    pub closed spec fn entry_after(&self, entry: int) -> Option<int> {
        match self.shape().ptr(slot_of(entry), 0) {
            Some(i) => Some(i as int),
            None => None,
        }
    }

    /// The number of the node to which the one with a number points at a level, if any.
    pub closed spec fn entry_after_at(&self, entry: int, level: int) -> Option<int> {
        match self.shape().ptr(slot_of(entry), level) {
            Some(i) => Some(i as int),
            None => None,
        }
    }

    /// The list came from another one by a change that concerns a key: the nodes with
    /// other keys are still there, and a removed node leads on where it did.
    pub open spec fn changed_at<Q>(&self, before: &Self, key: &Q) -> bool where
        T: BorrowKey<Q>,
        Q: Ord + ?Sized,
     {
        &&& forall|e: int|
            #![trigger self.keeps(e)]
            #![trigger before.keeps(e)]
            before.keeps(e) && !has_key(before.element_of(e), key) ==> self.keeps(e)
        &&& forall|e: int|
            0 <= e < before.entries() && !self.keeps(e) ==> #[trigger] self.entry_after(e)
                == before.entry_after(e)
    }

    /// Creates a new empty skiplist.
    pub fn new() -> (list: Self)
        ensures
            list.wf(),
            list@ == Seq::<T>::empty(),
            list.towers() == Seq::<nat>::empty(),
    {
        let mut pointers: Vec<Option<usize>> = Vec::new();
        let mut level: usize = 0;
        while level < MAX_HEIGHT
            invariant
                level <= MAX_HEIGHT,
                pointers@.len() == level,
                forall|l: int| 0 <= l < level ==> #[trigger] pointers@[l] is None,
            decreases MAX_HEIGHT - level,
        {
            pointers.push(None);
            level = level + 1;
        }
        let list = SkipList {
            head: NodeMeta::new(MAX_HEIGHT, pointers),
            nodes: Vec::new(),
            len: 0,
            rng: rng(),
            chain: Ghost(Seq::empty()),
        };
        proof {
            assert(list@ =~= Seq::<T>::empty());
            assert(list.towers() =~= Seq::<nat>::empty());
            assert(forall|s: Slot| list.shape().has_slot(s) ==> s == Slot::Head);
            assert(list.shape().linked());
        }
        list
    }

    /// Returns the approximate number of elements in the skiplist. This is exact if
    /// no changes are under way.
    pub fn len(&self) -> (len: usize)
        ensures
            len == self.counted(),
            self.wf() ==> len == self@.len(),
    {
        self.len
    }

    /// Returns true if the skiplist is empty.
    pub fn is_empty(&self) -> (empty: bool)
        ensures
            empty <==> self.counted() == 0,
            self.wf() ==> (empty <==> self@.len() == 0),
    {
        self.len() == 0
    }

    /// Searches for a element and returns a reference to its entry if found.
    ///
    /// In the midst of changes, it is possible for the returned element to be removed
    /// from the list after, or even before, this method returns. It is one that has
    /// been in the list, and it has the key in any case.
    pub fn get<'a, Q>(&'a self, element: &Q) -> (entry: Option<Ref<'a, T>>) where
        T: BorrowKey<Q>,
        Q: Ord + ?Sized,

        requires
            self.wf() || self.orderly() || self.searchable(),
            key_order::<T, Q>(),
        ensures
            entry matches Some(entry) ==> self.has_node(entry@) && has_key(entry@, element),
            forall|e: int| #[trigger]
                self.reveals(e) && has_key(self.element_of(e), element) ==> {
                    &&& entry is Some
                    &&& entry->0@ == self.element_of(e)
                },
            self.wf() || self.orderly() ==> match entry {
                Some(entry) => lookup(self@, element) == Some(entry@),
                None => lookup(self@, element) is None,
            },
    {
        proof {
            if self.orderly() {
                lemma_rank(self@, element);
            }
        }
        match self.find_node(element) {
            Some(i) => {
                proof {
                    assert(self.shape().towers[i as int].element == self.nodes@[i as int].element);
                    if self.orderly() {
                        assert(self@[rank(self@, element)] == self.nodes@[i as int].element);
                    }
                }
                Some(self.entry(i))
            },
            None => None,
        }
    }

    /// Returns true if the skiplist contains the given element.
    pub fn contains<Q>(&self, element: &T) -> (found: bool) where
        T: BorrowKey<Q>,
        Q: Ord + ?Sized,

        requires
            self.wf() || self.orderly() || self.searchable(),
            key_order::<T, Q>(),
        ensures
            found ==> exists|x: T| #[trigger] self.has_node(x) && has_key::<T, T>(x, element),
            forall|e: int| #[trigger]
                self.reveals(e) && has_key::<T, T>(self.element_of(e), element) ==> found,
            self.wf() || self.orderly() ==> (found <==> lookup::<T, T>(self@, element) is Some),
    {
        proof {
            lemma_lookup_by_element::<T, Q>(self@, *element);
            lemma_has_own_key::<T, Q>(*element);
        }
        let key: &Q = element.borrow_key();
        match self.get(key) {
            Some(entry) => {
                assert(has_key::<T, T>(entry@, element));
                true
            },
            None => false,
        }
    }

    /// Inserts a new element and returns a reference to it.
    ///
    /// If the list already contains an existing element that compares equal to
    /// the new element, the old element will be replaced.
    pub fn insert(&mut self, element: T) -> (entry: Ref<'_, T>) where T: core::fmt::Debug
        requires
            old(self).wf(),
            total_order::<T>(),
        ensures
            entry@ == element,
            final(self).wf(),
            final(self)@ == with_element(old(self)@, element),
            if lookup::<T, T>(old(self)@, &element) is Some {
                &&& final(self).towers() == old(self).towers()
                &&& final(self).source() == old(self).source()
            } else {
                exists|r: &mut SmallRng, draw: u32|
                    {
                        &&& final(self).source().draws(&old(self).source(), *r, *final(r))
                        &&& #[trigger] uniform_of_small(r, draw)
                        &&& final(self).towers() == heights_with(
                            old(self)@,
                            old(self).towers(),
                            element,
                            tower_height(draw, MAX_HEIGHT as nat),
                        )
                    }
            },
            final(self).grown_from(old(self)),
            final(self).still_shows(old(self)),
            final(self).changed_at::<T>(old(self), &element),
    {
        let mut candidate = element;
        loop
            invariant
                self.structure(),
                self.unlocked(),
                total_order::<T>(),
                self.shape() == old(self).shape(),
                self.rng == old(self).rng,
                candidate == element,
            decreases 0int,
        {
            // Find insertion point. Nothing changes the list before the locks are
            // taken, so the validation succeeds and there is no second round
            let at: Position = self.find::<T>(&candidate);
            proof {
                self.shape().lemma_fresh::<T>(&at, &candidate);
            }

            // The new node takes over the tower of the one that it replaces, or else
            // pointers to that one would persist
            let ghost found = *self;
            let height: usize = match at.existing {
                Some(e) => self.node_height(e),
                None => random_height(&mut self.rng),
            };
            proof {
                assert(forall|s: Slot|
                    self.has_slot(s) ==> found.has_slot(s) && #[trigger] self.locked(s)
                        == found.locked(s));
            }
            match self.insert_at(candidate, &at, height) {
                Ok(id) => {
                    proof {
                        self.lemma_changed_at::<T>(old(self), &element);
                    }
                    return self.entry(id);
                },
                Err(returned) => {
                    candidate = returned;
                },
            }
        }
    }

    /// Removes an entry by key, returning a reference to the existing entry if
    /// found.
    pub fn remove<'a, Q>(&'a mut self, key: &Q) -> (entry: Option<Ref<'a, T>>) where
        T: BorrowKey<Q>,
        Q: Ord + ?Sized,

        requires
            old(self).wf(),
            key_order::<T, Q>(),
        ensures
            match entry {
                Some(entry) => lookup(old(self)@, key) == Some(entry@),
                None => lookup(old(self)@, key) is None,
            },
            final(self).wf(),
            final(self)@ == without_key(old(self)@, key),
            final(self).towers() == heights_without(old(self)@, old(self).towers(), key),
            final(self).grown_from(old(self)),
            final(self).still_shows(old(self)),
            final(self).changed_at(old(self), key),
            final(self).source() == old(self).source(),
    {
        loop
            invariant
                *self == *old(self),
                self.structure(),
                self.unlocked(),
                key_order::<T, Q>(),
            decreases 0int,
        {
            // Nothing changes the list before the locks are taken, so there is no
            // second round
            let at: Position = self.find(key);
            proof {
                self.shape().lemma_fresh(&at, key);
                lemma_rank(self@, key);
            }
            match self.remove_at(&at, Ghost(key)) {
                Ok(Some(e)) => {
                    proof {
                        self.lemma_changed_at(old(self), key);
                    }
                    return Some(self.entry(e));
                },
                Ok(None) => {
                    proof {
                        self.lemma_changed_at(old(self), key);
                    }
                    return None;
                },
                Err(Stale) => {},
            }
        }
    }
}

/// Optimistic changes: a position is searched for first, and used later, when
/// others may have changed the list. The change is made only if the position is
/// still current.
impl<T: Ord> SkipList<T> {
    /// The position was searched for under the key, in this list or an earlier
    /// state of it.
    pub closed spec fn places<Q>(&self, at: &Position, key: &Q) -> bool where
        T: BorrowKey<Q>,
        Q: Ord + ?Sized,
     {
        self.shape().describes(at, key)
    }

    /// At every level below a height, the predecessor of the position is in the
    /// list and followed by the successor of the position.
    pub closed spec fn current(&self, at: &Position, height: nat) -> bool {
        self.shape().validated(at, height as int)
    }

    /// The node that was found at the position has been removed since.
    pub closed spec fn gone(&self, at: &Position) -> bool {
        at.existing matches Some(e) && self.shape().marked(Slot::Node(e))
    }

    /// The element of the node that was found at the position.
    pub closed spec fn entry_found(&self, at: &Position) -> Option<T> {
        match at.existing {
            Some(e) => Some(self.shape().towers[e as int].element),
            None => None,
        }
    }

    /// The height of the tower at a position: that of the node found there, or
    /// that of a node to be put there.
    pub closed spec fn tower_at(&self, at: &Position, draw: u32) -> nat {
        match at.existing {
            Some(e) => self.shape().height(Slot::Node(e)),
            None => tower_height(draw, MAX_HEIGHT as nat),
        }
    }

    /// The element just before a position, if there is one.
    pub closed spec fn left_of(&self, at: &Position) -> Option<T> {
        match at.preds@[0] {
            Slot::Head => None,
            Slot::Node(i) => Some(self.shape().towers[i as int].element),
        }
    }

    /// The element at or just after a position, if there is one.
    pub closed spec fn right_of(&self, at: &Position) -> Option<T> {
        match at.succs@[0] {
            None => None,
            Some(i) => Some(self.shape().towers[i as int].element),
        }
    }

    /// Every predecessor of the position reaches above its level. From each level to the
    /// next one up, the predecessor is the same or comes earlier, and the successor is the
    /// same or comes later.
    pub closed spec fn nested(&self, at: &Position) -> bool {
        let shape = self.shape();
        &&& forall|l: int|
            0 <= l < MAX_HEIGHT ==> {
                &&& shape.has_slot(#[trigger] at.preds@[l])
                &&& l < shape.height(at.preds@[l])
            }
        &&& shape.preds_ascend(at)
        &&& forall|l: int, m: int|
            #![trigger at.succs@[l], at.succs@[m]]
            0 <= l < m < MAX_HEIGHT ==> at.succs@[l] == at.succs@[m] || match (
                at.succs@[l],
                at.succs@[m],
            ) {
                (Some(i), Some(j)) => shape.comes_before(Slot::Node(i), Slot::Node(j)),
                (_, None) => true,
                (None, Some(_)) => false,
            }
    }

    /// The position is that of the key in the list as it is: it lies between the
    /// largest element less than the key and the smallest one that is not, it is
    /// current at all levels, and the entry found there is that of the key.
    pub open spec fn locates<Q>(&self, at: &Position, key: &Q) -> bool where
        T: BorrowKey<Q>,
        Q: Ord + ?Sized,
     {
        let r = rank(self@, key);
        &&& self.left_of(at) == if r > 0 {
            Some(self@[r - 1])
        } else {
            None
        }
        &&& self.right_of(at) == if r < self@.len() {
            Some(self@[r])
        } else {
            None
        }
        &&& self.current(at, MAX_HEIGHT as nat)
        &&& self.nested(at)
        &&& !self.gone(at)
        &&& at.found() <==> lookup(self@, key) is Some
        &&& self.entry_found(at) == lookup(self@, key)
    }

    pub(crate) proof fn lemma_wf(&self)
        ensures
            self.wf() <==> self.structure() && self.unlocked(),
            self.searchable() <==> self.traversable(),
            self.orderly() <==> self.ordered(),
    {
    }

    pub(crate) proof fn lemma_locates<Q>(&self, at: &Position, key: &Q) where
        T: BorrowKey<Q>,
        Q: Ord + ?Sized,

        requires
            self.ordered(),
            key_order::<T, Q>(),
            self.shape().fresh(at, key),
        ensures
            self.locates(at, key),
    {
        let shape = self.shape();
        let h = shape.heights();
        let k = rank(shape.elements(), key);
        shape.lemma_fresh(at, key);
        lemma_rank(shape.elements(), key);
        assert(at.preds@[0] == shape.slot_at(last_before(h, k, 0)));
        assert forall|l: int| 0 <= l < MAX_HEIGHT implies {
            &&& shape.has_slot(#[trigger] at.preds@[l])
            &&& l < shape.height(at.preds@[l])
        } by {
            assert(shape.describes_level(at.preds@[l], at.succs@[l], key, l));
        }
        assert forall|l: int, m: int|
            #![trigger at.succs@[l], at.succs@[m]]
            0 <= l < m < MAX_HEIGHT implies at.succs@[l] == at.succs@[m] || match (
            at.succs@[l],
            at.succs@[m],
        ) {
            (Some(i), Some(j)) => shape.comes_before(Slot::Node(i), Slot::Node(j)),
            (_, None) => true,
            (None, Some(_)) => false,
        } by {
            assert(at.preds@[l] == shape.slot_at(last_before(h, k, l)));
            assert(at.preds@[m] == shape.slot_at(last_before(h, k, m)));
            let (p, q) = (next_from(h, k, l), next_from(h, k, m));
            lemma_next_from(h, k, l);
            lemma_next_from(h, k, m);
            assert(p <= q);
            if p < q && q < h.len() {
                assert(precedes::<T, T>(shape.elements()[p], &shape.elements()[q]));
            }
        }
    }

    pub(crate) proof fn lemma_places<Q>(&self, at: &Position, key: &Q) where
        T: BorrowKey<Q>,
        Q: Ord + ?Sized,

        ensures
            self.places(at, key) <==> self.shape().describes(at, key),
    {
    }

    pub(crate) proof fn lemma_contents(&self)
        ensures
            self@ == self.shape().elements(),
            self.towers() == self.shape().heights(),
    {
    }

    pub(crate) proof fn lemma_current(&self, at: &Position, height: nat)
        ensures
            self.current(at, height) <==> self.shape().validated(at, height as int),
    {
    }

    pub(crate) proof fn lemma_shows(&self, other: &Self)
        ensures
            self.still_shows(other) <==> self.shape().keeps_view(other.shape()),
            forall|entry: int| #[trigger]
                self.keeps(entry) <==> 0 <= entry < self.shape().towers.len()
                    && !self.shape().marked(Slot::Node(entry as usize)),
    {
    }

    pub(crate) proof fn lemma_entries(&self)
        ensures
            self.entries() == self.shape().towers.len(),
            forall|e: int| #[trigger] self.entry_after_at(e, 0) == self.entry_after(e),
            forall|i: int| #[trigger] self.entry_at(i) == self.shape().chain[i],
            forall|e: int| #[trigger] self.element_of(e) == self.shape().towers[e].element,
            forall|e: int| #[trigger]
                self.entry_after(e) == match self.shape().ptr(slot_of(e), 0) {
                    Some(i) => Some(i as int),
                    None => None,
                },
    {
    }

    proof fn lemma_changed_at<Q>(&self, before: &Self, key: &Q) where
        T: BorrowKey<Q>,
        Q: Ord + ?Sized,

        requires
            self.shape().spares(before.shape(), key),
            self.shape().grown_from(before.shape()),
            self.shape().towers.len() <= usize::MAX,
        ensures
            self.changed_at(before, key),
    {
        let (shape, was) = (self.shape(), before.shape());
        assert forall|e: int| before.keeps(e) && !has_key(
            before.element_of(e),
            key,
        ) implies self.keeps(e) by {
            let s = Slot::Node(e as usize);
            assert(!shape.marked(s));
        }
        assert forall|e: int| 0 <= e < before.entries() && !self.keeps(e) implies
        #[trigger] self.entry_after(e) == before.entry_after(e) by {
            let s = slot_of(e);
            assert(shape.marked(s));
            assert(shape.ptr(s, 0) == was.ptr(s, 0));
        }
    }

    pub(crate) proof fn lemma_has_node(&self, i: int)
        requires
            0 <= i < self.shape().towers.len(),
        ensures
            self.has_node(self.shape().towers[i].element),
    {
    }

    pub(crate) proof fn lemma_tower_at(&self, at: &Position, draw: u32)
        ensures
            self.gone(at) <==> (at.existing matches Some(e) && self.shape().marked(Slot::Node(e))),
            self.tower_at(at, draw) == match at.existing {
                Some(e) => self.shape().height(Slot::Node(e)),
                None => tower_height(draw, MAX_HEIGHT as nat),
            },
            at.found() <==> at.existing is Some,
    {
    }

    pub(crate) proof fn lemma_entry_found(&self, at: &Position)
        ensures
            at.found() <==> at.existing is Some,
            at.existing matches Some(e) ==> self.entry_found(at) == Some(
                self.shape().towers[e as int].element,
            ),
            self.gone(at) <==> at.existing is Some && self.shape().marked(
                Slot::Node(at.existing->0),
            ),
    {
    }

    pub(crate) proof fn lemma_grown_from(&self, other: &Self)
        ensures
            self.grown_from(other) <==> self.shape().grown_from(other.shape()),
    {
    }

    /// The entry that was found at the position of a key. It may have been removed since.
    pub fn entry_of<'a, Q>(&'a self, at: &Position, key: &Q) -> (entry: Option<Ref<'a, T>>) where
        T: BorrowKey<Q>,
        Q: Ord + ?Sized,

        requires
            self.places(at, key),
        ensures
            entry is Some <==> at.found(),
            match entry {
                Some(entry) => {
                    &&& self.entry_found(at) == Some(entry@)
                    &&& self.has_node(entry@)
                    &&& has_key(entry@, key)
                },
                None => self.entry_found(at) is None,
            },
    {
        match at.existing {
            Some(e) => {
                proof {
                    self.lemma_places(at, key);
                    assert(self.shape().towers[e as int].element == self.nodes@[e as int].element);
                    self.lemma_has_node(e as int);
                }
                Some(self.entry(e))
            },
            None => None,
        }
    }

    /// Searches for the position of a key.
    pub fn locate<Q>(&self, key: &Q) -> (at: Position) where T: BorrowKey<Q>, Q: Ord + ?Sized
        requires
            self.wf(),
            key_order::<T, Q>(),
        ensures
            self.places(&at, key),
            self.locates(&at, key),
    {
        let at: Position = self.find(key);
        proof {
            self.shape().lemma_fresh(&at, key);
            self.lemma_locates(&at, key);
        }
        at
    }

    /// Inserts an element at a position that was searched for it, if the position
    /// is still current, and gives the element back if it is not. The draw decides
    /// how high a new tower is.
    pub fn try_insert(&mut self, element: T, at: &Position, draw: u32) -> (entry: Result<
        Ref<'_, T>,
        T,
    >)
        requires
            old(self).wf(),
            total_order::<T>(),
            old(self).places::<T>(at, &element),
        ensures
            entry is Ok <==> old(self).current(at, old(self).tower_at(at, draw)),
            final(self).wf(),
            final(self).grown_from(old(self)),
            final(self).still_shows(old(self)),
            final(self).changed_at::<T>(old(self), &element),
            final(self).source() == old(self).source(),
            match entry {
                Ok(entry) => {
                    &&& entry@ == element
                    &&& at.found() <==> lookup::<T, T>(old(self)@, &element) is Some
                    &&& final(self)@ == with_element(old(self)@, element)
                    &&& final(self).towers() == heights_with(
                        old(self)@,
                        old(self).towers(),
                        element,
                        tower_height(draw, MAX_HEIGHT as nat),
                    )
                },
                Err(returned) => {
                    &&& returned == element
                    &&& final(self)@ == old(self)@
                    &&& final(self).towers() == old(self).towers()
                    &&& forall|e: int| #[trigger] final(self).keeps(e) == old(self).keeps(e)
                },
            },
    {
        let height: usize = match at.existing {
            Some(e) => self.node_height(e),
            None => height_of(draw),
        };
        let inserted: Result<usize, T> = self.insert_at(element, at, height);
        proof {
            self.lemma_changed_at::<T>(old(self), &element);
        }
        match inserted {
            Ok(id) => Ok(self.entry(id)),
            Err(returned) => Err(returned),
        }
    }

    /// Removes the entry that was found at the position of a key, if the position
    /// is still current. There is nothing to remove if no entry was found, or if
    /// that entry has been removed since.
    pub fn try_remove<'a, Q>(&'a mut self, key: &Q, at: &Position) -> (entry: Result<
        Option<Ref<'a, T>>,
        Stale,
    >) where T: BorrowKey<Q>, Q: Ord + ?Sized
        requires
            old(self).wf(),
            key_order::<T, Q>(),
            old(self).places(at, key),
        ensures
            entry is Err <==> at.found() && !old(self).gone(at) && !old(self).current(
                at,
                old(self).tower_at(at, 0),
            ),
            entry == Ok::<Option<Ref<'a, T>>, Stale>(None) <==> !at.found() || old(self).gone(at),
            final(self).wf(),
            final(self).grown_from(old(self)),
            final(self).still_shows(old(self)),
            final(self).changed_at(old(self), key),
            final(self).source() == old(self).source(),
            match entry {
                Ok(Some(entry)) => {
                    &&& lookup(old(self)@, key) == Some(entry@)
                    &&& final(self)@ == without_key(old(self)@, key)
                    &&& final(self).towers() == heights_without(
                        old(self)@,
                        old(self).towers(),
                        key,
                    )
                },
                _ => {
                    &&& final(self)@ == old(self)@
                    &&& final(self).towers() == old(self).towers()
                    &&& forall|e: int| #[trigger] final(self).keeps(e) == old(self).keeps(e)
                },
            },
    {
        let removed: Result<Option<usize>, Stale> = self.remove_at(at, Ghost(key));
        proof {
            self.lemma_changed_at(old(self), key);
        }
        match removed {
            Ok(Some(e)) => Ok(Some(self.entry(e))),
            Ok(None) => Ok(None),
            Err(Stale) => Err(Stale),
        }
    }
}

impl Position {
    /// The number of the node before the position at a level; that of the head is `-1`.
    pub closed spec fn pred_at(&self, level: int) -> int {
        match self.preds@[level] {
            Slot::Head => -1,
            Slot::Node(i) => i as int,
        }
    }

    /// The number of the node at or after the position at a level, if there is one.
    pub closed spec fn succ_at(&self, level: int) -> Option<int> {
        match self.succs@[level] {
            Some(i) => Some(i as int),
            None => None,
        }
    }

    /// An entry was found at the position.
    pub closed spec fn found(&self) -> bool {
        self.existing is Some
    }
}

/// What holds of every list.
impl<T: Ord> SkipList<T> {
    /// The live nodes of the list point to live nodes only, at every level.
    pub closed spec fn points_to_live_nodes(&self) -> bool {
        let shape = self.shape();
        forall|s: Slot, l: int|
            shape.has_slot(s) && !shape.marked(s) && 0 <= l < shape.height(s) ==> (
            #[trigger] shape.ptr(s, l) matches Some(i) ==> {
                &&& i < shape.towers.len()
                &&& !shape.marked(Slot::Node(i))
                &&& l < shape.height(Slot::Node(i))
            })
    }

    /// The elements of a list ascend, and each is carried by a tower of one to
    /// [`MAX_HEIGHT`] levels.
    pub proof fn law_ascending(&self)
        requires
            self.wf(),
        ensures
            ascending(self@),
            self.towers().len() == self@.len(),
            forall|i: int|
                0 <= i < self@.len() ==> 1 <= #[trigger] self.towers()[i] <= MAX_HEIGHT,
    {
    }

    /// In a list in which no change is under way, every element is counted, once.
    pub proof fn law_counted(&self)
        requires
            self.wf(),
        ensures
            self.counted() == self@.len(),
    {
    }

    pub(crate) proof fn lemma_counted(&self)
        ensures
            self.counted() == self.len,
    {
    }

    /// A list in which no change is under way is orderly, and an orderly list can be
    /// searched.
    pub proof fn law_searchable(&self)
        ensures
            self.wf() ==> self.orderly(),
            self.orderly() ==> self.searchable(),
    {
    }

    /// While no change is under way, no live node points to a removed node.
    pub proof fn law_live_nodes(&self)
        requires
            self.wf(),
        ensures
            self.points_to_live_nodes(),
    {
        let shape = self.shape();
        assert forall|s: Slot, l: int|
            shape.has_slot(s) && !shape.marked(s) && 0 <= l < shape.height(s) implies (
        #[trigger] shape.ptr(s, l) matches Some(i) ==> {
            &&& i < shape.towers.len()
            &&& !shape.marked(Slot::Node(i))
            &&& l < shape.height(Slot::Node(i))
        }) by {
            let p = shape.place_of(s);
            assert(shape.slot_at(p) == s);
            assert(shape.reaches(p, l));
            let q = next_from(shape.heights(), p + 1, l);
            lemma_next_from(shape.heights(), p + 1, l);
            assert(shape.ptr(shape.slot_at(p), l) == shape.target(q));
            if q < shape.chain.len() {
                assert(shape.chain.contains(shape.chain[q]));
                assert(!shape.marked(Slot::Node(shape.chain[q])));
            }
        }
    }

    /// Marks tell which nodes have been removed: a node is marked exactly if it is not
    /// in the list.
    pub closed spec fn marks_tell(&self) -> bool {
        let shape = self.shape();
        forall|i: usize|
            i < shape.towers.len() ==> (#[trigger] shape.marked(Slot::Node(i))
                <==> !shape.chain.contains(i))
    }

    /// While no change has still to write anything, a node is marked exactly if it has
    /// been removed or replaced. So the entry that was found at a position is gone, or
    /// else it is what the key finds.
    pub proof fn law_marks<Q>(&self, at: &Position, key: &Q) where T: BorrowKey<Q>, Q: Ord + ?Sized
        requires
            self.wf() || self.orderly(),
            key_order::<T, Q>(),
            self.places(at, key),
        ensures
            self.marks_tell(),
            at.found() && !self.gone(at) ==> lookup(self@, key) == self.entry_found(at),
    {
        let shape = self.shape();
        let s = shape.elements();
        lemma_rank(s, key);
        if at.found() && !self.gone(at) {
            let e = at.existing->0;
            assert(shape.chain.contains(e));
            let p = shape.chain.index_of(e);
            assert(has_key(s[p], key));
        }
    }

    /// A mark is never taken back.
    pub proof fn law_marks_stay<Q>(&self, earlier: &Self, at: &Position, key: &Q) where
        T: BorrowKey<Q>,
        Q: Ord + ?Sized,

        requires
            self.grown_from(earlier),
            earlier.places(at, key),
            earlier.gone(at),
        ensures
            self.gone(at),
            self.entry_found(at) == earlier.entry_found(at),
    {
    }

    /// Every list is grown from itself, and what is grown from a list that is
    /// grown from another one is grown from that one too.
    pub proof fn law_growth(&self, middle: &Self, first: &Self)
        ensures
            self.grown_from(self),
            self.grown_from(middle) && middle.grown_from(first) ==> self.grown_from(first),
    {
    }

    /// The nodes of the elements of a list, in order, are those that it keeps, each once.
    /// Each leads on to the next one, the head to the first, and the last one nowhere.
    pub proof fn law_entries(&self)
        requires
            self.wf() || self.orderly(),
        ensures
            forall|i: int|
                0 <= i < self@.len() ==> {
                    &&& 0 <= #[trigger] self.entry_at(i) < self.entries()
                    &&& self.keeps(self.entry_at(i))
                    &&& self.element_of(self.entry_at(i)) == self@[i]
                    &&& self.entry_after(self.entry_at(i)) == if i + 1 < self@.len() {
                        Some(self.entry_at(i + 1))
                    } else {
                        None
                    }
                },
            self.entry_after(-1) == if self@.len() > 0 {
                Some(self.entry_at(0))
            } else {
                None
            },
            forall|i: int, j: int|
                0 <= i < j < self@.len() ==> #[trigger] self.entry_at(i)
                    != #[trigger] self.entry_at(j),
            forall|e: int| #[trigger]
                self.keeps(e) ==> exists|i: int|
                    0 <= i < self@.len() && #[trigger] self.entry_at(i) == e,
    {
        let shape = self.shape();
        assert forall|i: int| -1 <= i < shape.chain.len() implies shape.ptr(
            #[trigger] shape.slot_at(i),
            0,
        ) == shape.target(i + 1) by {
            assert(i >= 0 ==> shape.towers[shape.chain[i] as int].pointers.len() >= 1);
            assert(i + 1 < shape.chain.len() ==> shape.towers[shape.chain[i
                + 1] as int].pointers.len() >= 1);
            assert(shape.reaches(i, 0));
            lemma_next_from(shape.heights(), i + 1, 0);
        }
        assert(shape.slot_at(-1) == Slot::Head);
        assert forall|i: int| 0 <= i < self@.len() implies {
            &&& 0 <= #[trigger] self.entry_at(i) < self.entries()
            &&& self.keeps(self.entry_at(i))
            &&& self.element_of(self.entry_at(i)) == self@[i]
            &&& self.entry_after(self.entry_at(i)) == if i + 1 < self@.len() {
                Some(self.entry_at(i + 1))
            } else {
                None
            }
        } by {
            assert(shape.chain.contains(shape.chain[i]));
            assert(slot_of(self.entry_at(i)) == shape.slot_at(i));
        }
        assert forall|e: int| #[trigger] self.keeps(e) implies exists|i: int|
            0 <= i < self@.len() && #[trigger] self.entry_at(i) == e by {
            assert(!shape.marked(Slot::Node(e as usize)));
            let i = choose|i: int| 0 <= i < shape.chain.len() && shape.chain[i] == e as usize;
            assert(self.entry_at(i) == e);
        }
    }

    /// A list in which all that has been decided is written reveals all that it keeps.
    pub proof fn law_reveals(&self, entry: int)
        requires
            total_order::<T>(),
            self.wf() || self.orderly(),
            self.keeps(entry),
        ensures
            self.reveals(entry),
    {
        let good = self.shape().lemma_guided(entry as usize);
    }

    pub(crate) proof fn lemma_reveals(&self, good: Set<Slot>, entry: int)
        requires
            0 <= entry < self.shape().towers.len(),
            self.shape().guided(good, entry as usize),
        ensures
            self.reveals(entry),
    {
    }

    /// A node keeps its number and its element through all changes of the list, and once
    /// it is removed it is so for good.
    pub proof fn law_entries_stay(&self, earlier: &Self, entry: int)
        requires
            self.grown_from(earlier),
            0 <= entry < earlier.entries(),
        ensures
            earlier.entries() <= self.entries(),
            self.element_of(entry) == earlier.element_of(entry),
            self.keeps(entry) ==> earlier.keeps(entry),
    {
        assert(self.nodes.len() <= usize::MAX);
    }

    /// A position keeps its key through all changes of the list.
    pub proof fn law_position_survives<Q>(&self, earlier: &Self, at: &Position, key: &Q) where
        T: BorrowKey<Q>,
        Q: Ord + ?Sized,

        requires
            self.grown_from(earlier),
            earlier.places(at, key),
        ensures
            self.places(at, key),
    {
        self.shape().lemma_describes_extends(earlier.shape(), at, key);
    }

    /// A position is current for a tower exactly if, at each level of the tower and at no
    /// others, the node before it is in the list and points to the node after it. What
    /// happens elsewhere does not matter.
    pub proof fn law_current<Q>(&self, at: &Position, key: &Q, height: nat) where
        T: BorrowKey<Q>,
        Q: Ord + ?Sized,

        requires
            self.places(at, key),
            height <= MAX_HEIGHT,
        ensures
            self.current(at, height) <==> forall|l: int|
                0 <= l < height ==> {
                    &&& #[trigger] at.pred_at(l) == -1 || self.keeps(at.pred_at(l))
                    &&& self.entry_after_at(at.pred_at(l), l) == at.succ_at(l)
                },
            forall|e: int| #[trigger] self.entry_after_at(e, 0) == self.entry_after(e),
    {
        let shape = self.shape();
        assert forall|l: int| 0 <= l < MAX_HEIGHT implies (shape.valid_at(at, l) <==> {
            &&& #[trigger] at.pred_at(l) == -1 || self.keeps(at.pred_at(l))
            &&& self.entry_after_at(at.pred_at(l), l) == at.succ_at(l)
        }) by {
            assert(shape.describes_level(at.preds@[l], at.succs@[l], key, l));
            assert(slot_of(at.pred_at(l)) == at.preds@[l]);
        }
        if forall|l: int|
            0 <= l < height ==> {
                &&& #[trigger] at.pred_at(l) == -1 || self.keeps(at.pred_at(l))
                &&& self.entry_after_at(at.pred_at(l), l) == at.succ_at(l)
            } {
            assert forall|l: int| 0 <= l < height implies shape.valid_at(at, l) by {
                assert(at.pred_at(l) == -1 || self.keeps(at.pred_at(l)));
            }
        }
        if self.current(at, height) {
            assert forall|l: int| 0 <= l < height implies {
                &&& #[trigger] at.pred_at(l) == -1 || self.keeps(at.pred_at(l))
                &&& self.entry_after_at(at.pred_at(l), l) == at.succ_at(l)
            } by {
                assert(shape.valid_at(at, l));
            }
        }
    }

    /// The tower at the position of a key is that of the element found there, and one of
    /// which the draw decides the height where none was found.
    pub proof fn law_tower_at<Q>(&self, at: &Position, key: &Q, draw: u32) where
        T: BorrowKey<Q>,
        Q: Ord + ?Sized,

        requires
            self.wf() || self.orderly(),
            key_order::<T, Q>(),
            self.places(at, key),
            !self.gone(at),
        ensures
            self.tower_at(at, draw) == if at.found() {
                self.towers()[rank(self@, key)]
            } else {
                tower_height(draw, MAX_HEIGHT as nat)
            },
            at.found() ==> lookup(self@, key) is Some,
    {
        let shape = self.shape();
        let s = shape.elements();
        lemma_rank(s, key);
        if at.found() {
            let e = at.existing->0;
            assert(shape.chain.contains(e));
            let p = shape.chain.index_of(e);
            assert(has_key(s[p], key));
            assert(p == rank(s, key));
        }
    }

    /// The position of a key in a list lies between what is less than the key and what is
    /// not, finds what has the key, and is current for every tower.
    pub proof fn law_located<Q>(&self, at: &Position, key: &Q, height: nat) where
        T: BorrowKey<Q>,
        Q: Ord + ?Sized,

        requires
            self.wf() || self.orderly(),
            key_order::<T, Q>(),
            self.locates(at, key),
            height <= MAX_HEIGHT,
        ensures
            self.current(at, height),
            self.entry_found(at) == lookup(self@, key),
            at.found() <==> lookup(self@, key) is Some,
            !self.gone(at),
            self.left_of(at) matches Some(x) ==> self@.contains(x) && precedes(x, key),
            self.right_of(at) matches Some(x) ==> self@.contains(x) && !precedes(x, key),
            forall|x: T| #[trigger]
                self@.contains(x) && precedes(x, key) ==> (self.left_of(at) matches Some(y)
                    && (x == y || precedes::<T, T>(x, &y))),
            forall|x: T| #[trigger]
                self@.contains(x) && !precedes(x, key) ==> (self.right_of(at) matches Some(y)
                    && (x == y || precedes::<T, T>(y, &x))),
    {
        let (s, r) = (self@, rank(self@, key));
        lemma_rank(s, key);
        assert forall|x: T| #[trigger] s.contains(x) && precedes(x, key) implies (self.left_of(
            at,
        ) matches Some(y) && (x == y || precedes::<T, T>(x, &y))) by {
            let i = choose|i: int| 0 <= i < s.len() && s[i] == x;
            assert(i <= r - 1);
            if i < r - 1 {
                assert(precedes::<T, T>(s[i], &s[r - 1]));
            }
        }
        assert forall|x: T| #[trigger] s.contains(x) && !precedes(x, key) implies (self.right_of(
            at,
        ) matches Some(y) && (x == y || precedes::<T, T>(y, &x))) by {
            let i = choose|i: int| 0 <= i < s.len() && s[i] == x;
            assert(i >= r);
            if i > r {
                assert(precedes::<T, T>(s[r], &s[i]));
            }
        }
    }

    /// A position that is current at all levels is current for every tower, so a
    /// change at a position that has just been searched for is made.
    pub proof fn law_fresh_position_commits<Q>(&self, at: &Position, key: &Q, draw: u32) where
        T: BorrowKey<Q>,
        Q: Ord + ?Sized,

        requires
            self.wf(),
            self.places(at, key),
            self.current(at, MAX_HEIGHT as nat),
        ensures
            self.current(at, self.tower_at(at, draw)),
    {
        law_heights(draw, 0);
    }
}

/// Walks over the entries of a skiplist, from the smallest to the largest.
pub struct Iter<'a, T: Ord> {
    list: &'a SkipList<T>,
    current: Option<usize>,
    last: Ghost<Option<usize>>,
    place: Ghost<int>,
}

impl<'a, T: Ord> Iter<'a, T> {
    /// The walk is in a list that can be searched.
    pub closed spec fn wf(&self) -> bool {
        &&& self.list.traversable()
        &&& self.current matches Some(i) ==> i < self.list.nodes@.len()
        &&& self.last@ matches Some(j) ==> {
            &&& j < self.list.nodes@.len()
            &&& self.current matches Some(i) ==> self.list.shape().comes_before(
                Slot::Node(j),
                Slot::Node(i),
            )
        }
    }

    /// The walk is in a list in which no changes are under way, so it is known which
    /// elements are still to come.
    pub closed spec fn exact(&self) -> bool {
        &&& self.list.ordered()
        &&& 0 <= self.place@ <= self.list@.len()
        &&& self.current == self.list.shape().target(self.place@)
    }

    /// The elements that are still to come.
    pub closed spec fn remaining(&self) -> Seq<T> {
        self.list@.skip(self.place@)
    }

    /// The element that came last.
    pub closed spec fn latest(&self) -> Option<T> {
        match self.last@ {
            Some(j) => Some(self.list.nodes@[j as int].element),
            None => None,
        }
    }

    /// The number of the node that comes next.
    pub closed spec fn upcoming(&self) -> Option<int> {
        match self.current {
            Some(i) => Some(i as int),
            None => None,
        }
    }

    /// The list.
    pub closed spec fn list(&self) -> SkipList<T> {
        *self.list
    }

    /// Returns the next entry. In the midst of changes, that may be the entry of an
    /// element that has been removed; it is larger than the one before in any case.
    pub fn next(&mut self) -> (entry: Option<Ref<'a, T>>)
        requires
            old(self).wf(),
        ensures
            final(self).wf(),
            final(self).list() == old(self).list(),
            entry is Some <==> old(self).upcoming() is Some,
            match entry {
                Some(entry) => {
                    &&& entry@ == old(self).list().element_of(old(self).upcoming()->0)
                    &&& final(self).upcoming() == old(self).list().entry_after(
                        old(self).upcoming()->0,
                    )
                    &&& old(self).list().has_node(entry@)
                    &&& old(self).latest() matches Some(x) ==> precedes::<T, T>(x, &entry@)
                    &&& final(self).latest() == Some(entry@)
                },
                None => *final(self) == *old(self),
            },
            old(self).exact() ==> final(self).exact() && match entry {
                Some(entry) => {
                    &&& old(self).remaining().len() > 0
                    &&& entry@ == old(self).remaining()[0]
                    &&& final(self).remaining() == old(self).remaining().skip(1)
                },
                None => old(self).remaining().len() == 0,
            },
    {
        let curr: usize = match self.current {
            Some(curr) => curr,
            None => {
                return None;
            },
        };
        let list = self.list;
        let ghost p = self.place@;
        let ghost shape = list.shape();
        proof {
            assert(shape.towers[curr as int].pointers.len() >= 1);
            assert(shape.leads_forward(Slot::Node(curr), 0, shape.ptr(Slot::Node(curr), 0)));
            if self.exact() {
                assert(shape.reaches(p, 0));
                assert(shape.ptr(shape.slot_at(p), 0) == shape.target(
                    next_from(shape.heights(), p + 1, 0),
                ));
            }
        }
        self.current = list.nodes[curr].inner.next(0);
        proof {
            self.last = Ghost(Some(curr));
            self.place = Ghost(p + 1);
            assert(shape.towers[curr as int].element == list.nodes@[curr as int].element);
            if old(self).exact() {
                assert(self.remaining() =~= old(self).remaining().skip(1));
            }
        }
        Some(list.entry(curr))
    }
}

impl<T: Ord> SkipList<T> {
    /// Returns an iterator over the entries of the list.
    pub fn iter(&self) -> (iter: Iter<'_, T>)
        requires
            self.wf() || self.orderly() || self.searchable(),
        ensures
            iter.wf(),
            iter.list() == *self,
            iter.latest() is None,
            iter.upcoming() == self.entry_after(-1),
            self.wf() || self.orderly() ==> iter.exact() && iter.remaining() == self@,
    {
        let first: Option<usize> = self.head.next(0);
        let iter = Iter { list: self, current: first, last: Ghost(None), place: Ghost(0) };
        proof {
            let shape = self.shape();
            assert(shape.leads_forward(Slot::Head, 0, shape.ptr(Slot::Head, 0)));
            if self.orderly() {
                assert(shape.reaches(-1, 0));
                assert(shape.ptr(shape.slot_at(-1), 0) == shape.target(
                    next_from(shape.heights(), 0, 0),
                ));
                assert(iter.remaining() =~= self@);
            }
        }
        iter
    }
}

impl<T: Ord> SkipList<T> {
    /// What the list is apart from its locks.
    pub(crate) open spec fn shape(&self) -> Shape<T> {
        Shape {
            head: self.head.pointers@,
            towers: Seq::new(
                self.nodes@.len(),
                |i: int|
                    Tower {
                        element: self.nodes@[i].element,
                        pointers: self.nodes@[i].inner.pointers@,
                        marked: self.nodes@[i].inner.marked,
                    },
            ),
            chain: self.chain@,
        }
    }

    /// The slot exists.
    pub(crate) open spec fn has_slot(&self, slot: Slot) -> bool {
        slot matches Slot::Node(i) ==> i < self.nodes@.len()
    }

    /// Whether the lock of a slot is held.
    pub(crate) open spec fn locked(&self, slot: Slot) -> bool {
        match slot {
            Slot::Head => self.head.lock@,
            Slot::Node(i) => self.nodes@[i as int].inner.lock@,
        }
    }

    /// No lock is held.
    pub(crate) open spec fn unlocked(&self) -> bool {
        forall|s: Slot| self.has_slot(s) ==> !#[trigger] self.locked(s)
    }

    /// Every node has one pointer for each of its levels.
    pub(crate) open spec fn nodes_wf(&self) -> bool {
        &&& self.head.wf()
        &&& !self.head.marked
        &&& forall|i: int| 0 <= i < self.nodes@.len() ==> (#[trigger] self.nodes@[i]).inner.wf()
    }

    /// The list can be searched.
    pub(crate) open spec fn traversable(&self) -> bool {
        &&& self.nodes_wf()
        &&& self.shape().traversable()
    }

    /// The nodes hang together as they should.
    pub(crate) open spec fn ordered(&self) -> bool {
        &&& self.nodes_wf()
        &&& self.shape().structure()
    }

    /// The invariant, apart from the locks.
    pub(crate) open spec fn structure(&self) -> bool {
        &&& self.ordered()
        &&& self.len == self.chain@.len()
    }

    /// Everything but the locks is the same.
    pub(crate) open spec fn same_but_locks(&self, other: &Self) -> bool {
        &&& self.nodes_wf() == other.nodes_wf()
        &&& self.shape() == other.shape()
        &&& self.len == other.len
        &&& self.rng == other.rng
    }

    /// The same locks are held.
    pub(crate) open spec fn same_locks(&self, other: &Self) -> bool {
        forall|s: Slot| other.has_slot(s) ==> #[trigger] self.locked(s) == other.locked(s)
    }

    /// Takes the lock of a slot if it is free.
    pub(crate) fn try_lock_slot(&mut self, slot: Slot) -> (acquired: bool)
        requires
            old(self).has_slot(slot),
        ensures
            acquired == !old(self).locked(slot),
            final(self).same_but_locks(old(self)),
            forall|s: Slot|
                old(self).has_slot(s) ==> (#[trigger] final(self).locked(s) <==> old(self).locked(s)
                    || s == slot),
    {
        let acquired: bool = match slot {
            Slot::Head => self.head.lock.try_lock(),
            Slot::Node(i) => self.nodes[i].inner.lock.try_lock(),
        };
        proof {
            self.lemma_same_nodes(old(self));
        }
        acquired
    }

    /// Locks a slot. Locks are taken in list order only: whoever waits for a lock
    /// holds none but locks that come before it, so no two operations can wait for
    /// each other.
    fn lock_slot(&mut self, slot: Slot)
        requires
            old(self).has_slot(slot),
            !old(self).locked(slot),
            forall|s: Slot|
                old(self).has_slot(s) && #[trigger] old(self).locked(s) ==> old(
                    self,
                ).shape().comes_before(s, slot),
        ensures
            final(self).same_but_locks(old(self)),
            forall|s: Slot|
                old(self).has_slot(s) ==> (#[trigger] final(self).locked(s) <==> old(self).locked(s)
                    || s == slot),
    {
        let acquired: bool = match slot {
            Slot::Head => self.head.lock.lock(),
            Slot::Node(i) => self.nodes[i].inner.lock.lock(),
        };
        assert(acquired);
        proof {
            self.lemma_same_nodes(old(self));
        }
    }

    pub(crate) fn unlock_slot(&mut self, slot: Slot)
        requires
            old(self).has_slot(slot),
        ensures
            final(self).same_but_locks(old(self)),
            forall|s: Slot|
                old(self).has_slot(s) ==> (#[trigger] final(self).locked(s) <==> old(self).locked(s)
                    && s != slot),
    {
        match slot {
            Slot::Head => self.head.lock.unlock(),
            Slot::Node(i) => self.nodes[i].inner.lock.unlock(),
        }
        proof {
            self.lemma_same_nodes(old(self));
        }
    }

    /// The shape does not depend on the locks.
    proof fn lemma_same_nodes(&self, other: &Self)
        requires
            self.len == other.len,
            self.rng == other.rng,
            self.chain == other.chain,
            self.head.same_body(&other.head),
            self.nodes@.len() == other.nodes@.len(),
            forall|i: int|
                0 <= i < self.nodes@.len() ==> {
                    &&& (#[trigger] self.nodes@[i]).inner.same_body(&other.nodes@[i].inner)
                    &&& self.nodes@[i].element == other.nodes@[i].element
                },
        ensures
            self.same_but_locks(other),
    {
        assert(self.shape().towers =~= other.shape().towers);
        assert(forall|i: int|
            0 <= i < self.nodes@.len() ==> (#[trigger] self.nodes@[i]).inner.wf()
                == other.nodes@[i].inner.wf());
        assert(forall|i: int|
            0 <= i < self.nodes@.len() ==> (#[trigger] other.nodes@[i]).inner.wf()
                == self.nodes@[i].inner.wf());
    }

    /// Sets the successor of a slot at a level. The slot's lock must be held.
    pub(crate) fn link_slot(&mut self, slot: Slot, level: usize, target: Option<usize>)
        requires
            old(self).nodes_wf(),
            old(self).has_slot(slot),
            old(self).locked(slot),
            level < old(self).shape().height(slot),
        ensures
            final(self).nodes_wf(),
            final(self).shape() == old(self).shape().set_ptr(slot, level as int, target),
            final(self).same_locks(old(self)),
            final(self).len == old(self).len,
            final(self).rng == old(self).rng,
    {
        match slot {
            Slot::Head => self.head.link(level, target),
            Slot::Node(i) => self.nodes[i].inner.link(level, target),
        }
        proof {
            assert(self.shape().towers =~= old(self).shape().set_ptr(
                slot,
                level as int,
                target,
            ).towers);
        }
    }

    /// Marks a node as removed. Its lock must be held.
    pub(crate) fn mark_node(&mut self, i: usize)
        requires
            old(self).nodes_wf(),
            i < old(self).nodes@.len(),
            old(self).locked(Slot::Node(i)),
        ensures
            final(self).nodes_wf(),
            final(self).shape() == old(self).shape().set_marked(Some(i)),
            final(self).same_locks(old(self)),
            final(self).len == old(self).len,
            final(self).rng == old(self).rng,
    {
        self.nodes[i].inner.mark();
        proof {
            assert(self.shape().towers =~= old(self).shape().set_marked(Some(i)).towers);
        }
    }

    /// Locks all predecessors below a height, handling reentrancy and aborting if
    /// any of the nodes were invalidated by a mutation since they were found.
    ///
    /// Returns at which levels a lock was taken: a node that is the predecessor
    /// at several levels is locked once, at the topmost of them.
    fn lock_all(&mut self, at: &Position, height: usize) -> (guards: Option<[bool; MAX_HEIGHT]>)
        requires
            old(self).nodes_wf(),
            height <= MAX_HEIGHT,
            forall|l: int|
                0 <= l < height ==> {
                    &&& old(self).has_slot(#[trigger] at.preds@[l])
                    &&& l < old(self).shape().height(at.preds@[l])
                },
            old(self).shape().preds_ascend(at),
            old(self).unlocked(),
        ensures
            final(self).same_but_locks(old(self)),
            guards is Some <==> old(self).shape().validated(at, height as int),
            match guards {
                Some(guards) => {
                    &&& forall|s: Slot|
                        old(self).has_slot(s) ==> (#[trigger] final(self).locked(s) <==> at.guarded(
                            guards@,
                            height as int,
                            s,
                        ))
                    &&& forall|l: int|
                        0 <= l < height ==> final(self).locked(#[trigger] at.preds@[l])
                    &&& forall|l: int| height <= l < MAX_HEIGHT ==> !#[trigger] guards@[l]
                    &&& forall|l: int|
                        0 <= l < height ==> (#[trigger] guards@[l] <==> !at.recurs_above(
                            l,
                            height as int,
                        ))
                },
                None => final(self).unlocked(),
            },
    {
        let mut guards: [bool; MAX_HEIGHT] = [false;MAX_HEIGHT];
        let mut level: usize = height;
        while level > 0
            invariant
                level <= height <= MAX_HEIGHT,
                old(self).nodes_wf(),
                self.same_but_locks(old(self)),
                forall|l: int|
                    0 <= l < height ==> {
                        &&& old(self).has_slot(#[trigger] at.preds@[l])
                        &&& l < old(self).shape().height(at.preds@[l])
                    },
                old(self).shape().preds_ascend(at),
                forall|l: int| level <= l < height ==> old(self).shape().valid_at(at, l),
                forall|l: int| 0 <= l < level ==> !guards@[l],
                forall|l: int| height <= l < MAX_HEIGHT ==> !#[trigger] guards@[l],
                forall|s: Slot|
                    old(self).has_slot(s) ==> (#[trigger] self.locked(s) <==> at.guarded(
                        guards@,
                        height as int,
                        s,
                    )),
                forall|l: int| level <= l < height ==> self.locked(#[trigger] at.preds@[l]),
                forall|l: int|
                    level <= l < height ==> (#[trigger] guards@[l] <==> !at.recurs_above(
                        l,
                        height as int,
                    )),
            decreases level,
        {
            level = level - 1;
            let pred: Slot = at.preds[level];
            proof {
                self.lemma_slots(old(self));
            }

            // Check for reentrancy
            let already_locked: bool = at.recurs(level, height);
            let ghost guards_above = guards@;
            if !already_locked {
                proof {
                    assert forall|s: Slot|
                        self.has_slot(s) && #[trigger] self.locked(
                            s,
                        ) implies self.shape().comes_before(s, pred) by {
                        let l = choose|l: int|
                            0 <= l < height && #[trigger] guards@[l] && at.preds@[l] == s;
                        assert(at.preds@[l] != at.preds@[level as int]);
                    }
                }
                self.lock_slot(pred);
                guards[level] = true;
            }
            proof {
                self.lemma_slots(old(self));
                assert forall|s: Slot| old(self).has_slot(s) implies (#[trigger] self.locked(s)
                    <==> at.guarded(guards@, height as int, s)) by {
                    if at.guarded(guards_above, height as int, s) {
                        let l = choose|l: int|
                            0 <= l < height && #[trigger] guards_above[l] && at.preds@[l] == s;
                        assert(guards@[l]);
                    }
                    if !already_locked {
                        assert(guards@[level as int]);
                    }
                }
            }

            if self.slot_is_marked(pred) || self.slot_next(pred, level) != at.succs[level] {
                // The predecessor was mutated: the position has to be searched anew
                self.unlock_all(at, &guards, height);
                proof {
                    self.lemma_slots(old(self));
                    assert(!old(self).shape().valid_at(at, level as int));
                }
                return None;
            }
        }
        Some(guards)
    }

    /// Lists of the same shape have the same slots.
    pub(crate) proof fn lemma_slots(&self, other: &Self)
        requires
            self.shape() == other.shape(),
        ensures
            self.nodes@.len() == other.nodes@.len(),
    {
        assert(self.shape().towers.len() == self.nodes@.len());
        assert(other.shape().towers.len() == other.nodes@.len());
    }

    /// Releases the locks that were taken at the given levels.
    fn unlock_all(&mut self, at: &Position, guards: &[bool; MAX_HEIGHT], height: usize)
        requires
            height <= MAX_HEIGHT,
            forall|l: int| 0 <= l < height ==> old(self).has_slot(#[trigger] at.preds@[l]),
        ensures
            final(self).same_but_locks(old(self)),
            forall|s: Slot|
                old(self).has_slot(s) ==> (#[trigger] final(self).locked(s) <==> old(self).locked(s)
                    && !at.guarded(guards@, height as int, s)),
    {
        let mut level: usize = 0;
        while level < height
            invariant
                level <= height <= MAX_HEIGHT,
                forall|l: int| 0 <= l < height ==> old(self).has_slot(#[trigger] at.preds@[l]),
                self.same_but_locks(old(self)),
                forall|s: Slot|
                    old(self).has_slot(s) ==> (#[trigger] self.locked(s) <==> old(self).locked(s)
                        && !at.guarded(guards@, level as int, s)),
            decreases height - level,
        {
            proof {
                self.lemma_slots(old(self));
            }
            if guards[level] {
                self.unlock_slot(at.preds[level]);
            }
            level = level + 1;
        }
    }

    pub(crate) fn slot_is_locked(&self, slot: Slot) -> (locked: bool)
        requires
            self.has_slot(slot),
        ensures
            locked == self.locked(slot),
    {
        match slot {
            Slot::Head => self.head.lock.is_locked(),
            Slot::Node(i) => self.nodes[i].inner.lock.is_locked(),
        }
    }

    pub(crate) fn slot_is_marked(&self, slot: Slot) -> (marked: bool)
        requires
            self.nodes_wf(),
            self.has_slot(slot),
        ensures
            marked == self.shape().marked(slot),
    {
        match slot {
            Slot::Head => self.head.is_marked(),
            Slot::Node(i) => self.nodes[i].inner.is_marked(),
        }
    }

    pub(crate) fn slot_next(&self, slot: Slot, level: usize) -> (target: Option<usize>)
        requires
            self.nodes_wf(),
            self.has_slot(slot),
            level < self.shape().height(slot),
        ensures
            target == self.shape().ptr(slot, level as int),
    {
        match slot {
            Slot::Head => self.head.next(level),
            Slot::Node(i) => self.nodes[i].inner.next(level),
        }
    }

    /// The entry of a node.
    pub(crate) fn entry(&self, i: usize) -> (entry: Ref<'_, T>)
        requires
            i < self.nodes@.len(),
        ensures
            entry@ == self.nodes@[i as int].element,
    {
        Ref { node: &self.nodes[i] }
    }

    pub(crate) fn node_height(&self, i: usize) -> (height: usize)
        requires
            self.nodes_wf(),
            i < self.nodes@.len(),
        ensures
            height == self.shape().height(Slot::Node(i)),
            1 <= height <= MAX_HEIGHT,
    {
        self.nodes[i].inner.height as usize
    }

    /// Finds the position for a key.
    ///
    /// - `preds[0]` is the slot of the largest element less than the key
    /// - `succs[0]` points to the smallest element greater than or equal to the key
    ///
    /// If a node already exists with a matching key, that node is `existing`.
    fn find<Q>(&self, key: &Q) -> (at: Position) where T: BorrowKey<Q>, Q: Ord + ?Sized
        requires
            self.ordered(),
            key_order::<T, Q>(),
        ensures
            self.shape().fresh(&at, key),
    {
        let mut search: Search = Search::start();
        proof {
            search.lemma_start_agrees(self.shape(), key);
        }
        while search.level > 0
            invariant
                self.ordered(),
                key_order::<T, Q>(),
                search.on_track(self.shape(), key),
                search.agrees_with(self.shape(), key),
            decreases search.level, search.ahead(self.shape(), key),
        {
            let ghost before = search;
            search.advance(self, key);
            proof {
                search.lemma_step_agrees(&before, self.shape(), key);
            }
        }
        search.at
    }

    /// Allocates a node with the given successors.
    pub(crate) fn alloc_node(&mut self, element: T, pointers: Vec<Option<usize>>) -> (id: usize)
        requires
            old(self).nodes_wf(),
            1 <= pointers@.len() <= MAX_HEIGHT,
        ensures
            id == old(self).nodes@.len(),
            old(self).nodes@.len() < usize::MAX,
            final(self).nodes_wf(),
            final(self).shape() == old(self).shape().push(
                (Tower { element, pointers: pointers@, marked: false }),
            ),
            !final(self).locked(Slot::Node(id)),
            final(self).same_locks(old(self)),
            final(self).len == old(self).len,
            final(self).rng == old(self).rng,
    {
        let id: usize = self.nodes.len();
        let height: usize = pointers.len();
        self.nodes.push(Node { element, inner: NodeMeta::new(height, pointers) });
        proof {
            assert(self.nodes.len() <= usize::MAX);
            assert(self.shape().towers =~= old(self).shape().push(
                (Tower { element, pointers: pointers@, marked: false }),
            ).towers);
        }
        id
    }

    /// The successors of a node to be put at a position.
    pub(crate) fn new_pointers(&self, at: &Position, height: usize) -> (pointers: Vec<
        Option<usize>,
    >)
        requires
            self.nodes_wf(),
            height <= MAX_HEIGHT,
            at.existing matches Some(e) ==> {
                &&& e < self.nodes@.len()
                &&& height == self.shape().height(Slot::Node(e))
            },
        ensures
            pointers@.len() == height,
            forall|l: int|
                0 <= l < height ==> #[trigger] pointers@[l] == match at.existing {
                    Some(e) => self.shape().ptr(Slot::Node(e), l),
                    None => at.succs@[l],
                },
    {
        let mut pointers: Vec<Option<usize>> = Vec::new();
        let mut level: usize = 0;
        while level < height
            invariant
                level <= height <= MAX_HEIGHT,
                self.nodes_wf(),
                at.existing matches Some(e) ==> {
                    &&& e < self.nodes@.len()
                    &&& height == self.shape().height(Slot::Node(e))
                },
                pointers@.len() == level,
                forall|l: int|
                    0 <= l < level ==> #[trigger] pointers@[l] == match at.existing {
                        Some(e) => self.shape().ptr(Slot::Node(e), l),
                        None => at.succs@[l],
                    },
            decreases height - level,
        {
            let pointer: Option<usize> = match at.existing {
                Some(existing) => self.slot_next(Slot::Node(existing), level),
                None => at.succs[level],
            };
            pointers.push(pointer);
            level = level + 1;
        }
        pointers
    }

    /// Puts an element at a position if that is still valid, with a tower of the
    /// given height, and gives the element back if it is not.
    fn insert_at(&mut self, element: T, at: &Position, height: usize) -> (res: Result<usize, T>)
        requires
            old(self).structure(),
            old(self).unlocked(),
            total_order::<T>(),
            old(self).shape().describes::<T>(at, &element),
            1 <= height <= MAX_HEIGHT,
            at.existing matches Some(e) ==> height == old(self).shape().height(Slot::Node(e)),
        ensures
            res is Ok <==> old(self).shape().validated(at, height as int),
            final(self).structure(),
            final(self).unlocked(),
            final(self).rng == old(self).rng,
            final(self).shape().grown_from(old(self).shape()),
            final(self).shape().keeps_view(old(self).shape()),
            final(self).shape().spares::<T>(old(self).shape(), &element),
            match res {
                Ok(id) => {
                    let (before, after) = (old(self).shape(), final(self).shape());
                    &&& id < final(self).nodes@.len()
                    &&& final(self).nodes@[id as int].element == element
                    &&& after.elements() == with_element(before.elements(), element)
                    &&& after.heights() == heights_with(
                        before.elements(),
                        before.heights(),
                        element,
                        height as nat,
                    )
                    &&& at.existing is Some <==> lookup::<T, T>(before.elements(), &element) is Some
                },
                Err(returned) => {
                    &&& returned == element
                    &&& final(self).shape() == old(self).shape()
                },
            },
    {
        let ghost before = self.shape();
        proof {
            assert forall|l: int| 0 <= l < height implies {
                &&& self.has_slot(#[trigger] at.preds@[l])
                &&& l < before.height(at.preds@[l])
                &&& at.preds@[l] != Slot::Node(self.nodes@.len() as usize)
            } by {
                assert(before.describes_level(at.preds@[l], at.succs@[l], &element, l));
            }
        }
        let guards: [bool; MAX_HEIGHT] = match self.lock_all(at, height) {
            Some(guards) => guards,
            None => {
                proof {
                    self.lemma_slots(old(self));
                }
                return Err(element);
            },
        };
        proof {
            self.lemma_slots(old(self));
            before.lemma_validated::<T>(at, &element, height as int);
        }
        if let Some(existing) = at.existing {
            proof {
                before.lemma_bypass_all(at, rank::<T, T>(before.elements(), &element));
            }
            self.lock_slot(Slot::Node(existing));
            proof {
                self.lemma_slots(old(self));
            }
        }

        // Build new node
        let pointers: Vec<Option<usize>> = self.new_pointers(at, height);
        let ghost tower = before.new_tower(at, height as int, element);
        assert(pointers@ =~= tower.pointers);

        // Allocate and link new node
        let ghost locked = *self;
        let id: usize = self.alloc_node(element, pointers);
        let ghost allocated = self.shape();
        let ghost targets = before.to_new_tower(height as int);
        proof {
            allocated.lemma_rewired_none(at, height as int, targets);
        }
        let mut level: usize = height;
        while level > 0
            invariant
                level <= height <= MAX_HEIGHT,
                self.nodes_wf(),
                self.shape() == allocated.rewired(at, level as int, height as int, targets),
                self.same_locks(&locked),
                self.len == locked.len,
                self.rng == locked.rng,
                !self.locked(Slot::Node(id)),
                allocated.sized(),
                allocated.towers.len() == id + 1,
                locked.nodes@.len() == id,
                targets == before.to_new_tower(height as int),
                before.towers.len() == id,
                forall|l: int|
                    0 <= l < height ==> {
                        &&& locked.has_slot(#[trigger] at.preds@[l])
                        &&& locked.locked(at.preds@[l])
                        &&& l < allocated.height(at.preds@[l])
                        &&& at.preds@[l] != Slot::Node(id)
                    },
            decreases level,
        {
            level = level - 1;
            proof {
                assert(self.shape().towers.len() == allocated.towers.len());
                allocated.lemma_rewired_step(at, level as int, height as int, targets);
            }
            self.link_slot(at.preds[level], level, Some(id));
        }
        let ghost linked = *self;
        let ghost mut struck = *self;
        proof {
            assert(self.shape().towers.len() == allocated.towers.len());
        }

        if let Some(existing) = at.existing {
            self.mark_node(existing);
            proof {
                struck = *self;
                assert(self.shape().towers.len() == self.nodes@.len());
            }
            self.unlock_slot(Slot::Node(existing));
        } else {
            proof {
                before.lemma_chain_fits();
            }
            self.len = self.len + 1;
        }
        let ghost released = *self;
        let ghost after = before.inserted(at, height as int, element);
        proof {
            self.chain = Ghost(after.chain);
            assert(self.shape() == after);
            before.lemma_inserted(at, height as int, element);
            before.lemma_inserted_view(at, height as int, element);
            before.lemma_inserted_parts(at, height as int, element);
            assert(after.spares::<T>(before, &element)) by {
                assert(before.valid_at(at, 0));
                if let Some(e) = at.existing {
                    before.lemma_bypass_all(at, rank::<T, T>(before.elements(), &element));
                }
            }
            assert forall|s: Slot| self.has_slot(s) implies (#[trigger] self.locked(s)
                <==> at.guarded(guards@, height as int, s)) by {
                assert(linked.has_slot(s) && struck.has_slot(s));
                assert(struck.locked(s) == linked.locked(s));
                assert(released.locked(s) == (struck.locked(s) && !(at.existing matches Some(e)
                    && s == Slot::Node(e))));
                if s != Slot::Node(id) {
                    assert(locked.has_slot(s));
                    assert(linked.locked(s) == locked.locked(s));
                }
            }
        }
        let ghost marked = *self;
        self.unlock_all(at, &guards, height);
        proof {
            self.lemma_slots(&marked);
        }
        Ok(id)
    }

    /// Removes the existing node of a position if that is still valid.
    fn remove_at<Q>(&mut self, at: &Position, Ghost(key): Ghost<&Q>) -> (res: Result<
        Option<usize>,
        Stale,
    >) where T: BorrowKey<Q>, Q: Ord + ?Sized
        requires
            old(self).structure(),
            old(self).unlocked(),
            key_order::<T, Q>(),
            old(self).shape().describes(at, key),
        ensures
            final(self).structure(),
            final(self).unlocked(),
            final(self).shape().grown_from(old(self).shape()),
            final(self).shape().keeps_view(old(self).shape()),
            final(self).shape().spares(old(self).shape(), key),
            final(self).rng == old(self).rng,
            match at.existing {
                Some(e) => {
                    let shape = old(self).shape();
                    if shape.marked(Slot::Node(e)) {
                        res == Ok::<Option<usize>, Stale>(None)
                    } else if shape.validated(at, shape.height(Slot::Node(e)) as int) {
                        res == Ok::<Option<usize>, Stale>(Some(e))
                    } else {
                        res == Err::<Option<usize>, Stale>(Stale)
                    }
                },
                None => res == Ok::<Option<usize>, Stale>(None),
            },
            match res {
                Ok(Some(e)) => {
                    let (before, after) = (old(self).shape(), final(self).shape());
                    let k = rank(before.elements(), key);
                    &&& e < final(self).nodes@.len()
                    &&& lookup(before.elements(), key) == Some(
                        final(self).nodes@[e as int].element,
                    )
                    &&& after.elements() == before.elements().remove(k)
                    &&& after.heights() == before.heights().remove(k)
                },
                _ => final(self).shape() == old(self).shape(),
            },
    {
        let e: usize = match at.existing {
            Some(e) => e,
            None => {
                return Ok(None);
            },
        };
        if self.slot_is_marked(Slot::Node(e)) {
            return Ok(None);
        }
        let ghost before = self.shape();
        let height: usize = self.node_height(e);
        proof {
            assert forall|l: int| 0 <= l < height implies {
                &&& self.has_slot(#[trigger] at.preds@[l])
                &&& l < before.height(at.preds@[l])
            } by {
                assert(before.describes_level(at.preds@[l], at.succs@[l], key, l));
            }
        }
        let guards: [bool; MAX_HEIGHT] = match self.lock_all(at, height) {
            Some(guards) => guards,
            None => {
                proof {
                    self.lemma_slots(old(self));
                }
                return Err(Stale);
            },
        };
        let ghost k = rank(before.elements(), key);
        proof {
            self.lemma_slots(old(self));
            before.lemma_validated(at, key, height as int);
            before.lemma_bypass_all(at, k);
        }
        self.lock_slot(Slot::Node(e));
        let ghost locked = *self;
        let ghost targets = before.pointers(Slot::Node(e));
        proof {
            self.lemma_slots(old(self));
            before.lemma_rewired_none(at, height as int, targets);
        }

        // Update pointers of predecessors
        let mut level: usize = height;
        while level > 0
            invariant
                level <= height <= MAX_HEIGHT,
                self.nodes_wf(),
                self.shape() == before.rewired(at, level as int, height as int, targets),
                self.same_locks(&locked),
                self.len == locked.len,
                self.rng == locked.rng,
                before.sized(),
                targets == before.pointers(Slot::Node(e)),
                targets.len() == height,
                e < before.towers.len(),
                before.towers.len() == locked.nodes@.len(),
                forall|l: int|
                    0 <= l < height ==> {
                        &&& locked.has_slot(#[trigger] at.preds@[l])
                        &&& locked.locked(at.preds@[l])
                        &&& l < before.height(at.preds@[l])
                        &&& at.preds@[l] != Slot::Node(e)
                    },
            decreases level,
        {
            level = level - 1;
            proof {
                assert(self.shape().towers.len() == before.towers.len());
                before.lemma_rewired_step(at, level as int, height as int, targets);
            }
            let p: Option<usize> = self.slot_next(Slot::Node(e), level);
            self.link_slot(at.preds[level], level, p);
        }
        let ghost linked = *self;
        proof {
            assert(self.shape().towers.len() == before.towers.len());
            before.lemma_chain_fits();
        }

        self.mark_node(e);
        let ghost struck = *self;
        assert(self.shape().towers.len() == self.nodes@.len());
        self.unlock_slot(Slot::Node(e));
        let ghost released = *self;
        self.len = self.len - 1;
        proof {
            self.chain = Ghost(before.chain.remove(k));
            assert(self.shape() == before.removed(at, k));
            before.lemma_removed(at, k);
            before.lemma_removed_view(at, k);
            before.lemma_removed_parts(at, k);
            assert(self.shape().spares(before, key)) by {
                assert(before.valid_at(at, 0));
            }
            assert forall|s: Slot| self.has_slot(s) implies (#[trigger] self.locked(s)
                <==> at.guarded(guards@, height as int, s)) by {
                assert(linked.has_slot(s) && locked.has_slot(s) && struck.has_slot(s));
                assert(linked.locked(s) == locked.locked(s));
                assert(struck.locked(s) == linked.locked(s));
                assert(released.locked(s) == (struck.locked(s) && s != Slot::Node(e)));
            }
        }
        let ghost marked = *self;
        self.unlock_all(at, &guards, height);
        proof {
            self.lemma_slots(&marked);
            assert(self.shape().towers[e as int].element == before.towers[e as int].element);
        }
        Ok(Some(e))
    }

    /// Finds the node that matches the given key, if it exists. Unlike `find()`,
    /// does not construct predecessor/successor lists and terminates early when a
    /// matching node is found.
    ///
    /// In the midst of changes to the list, a node that is found may have been
    /// removed, or may not be wholly linked yet.
    pub(crate) fn find_node<Q>(&self, key: &Q) -> (node: Option<usize>) where
        T: BorrowKey<Q>,
        Q: Ord + ?Sized,

        requires
            self.traversable(),
            key_order::<T, Q>(),
        ensures
            node matches Some(i) ==> i < self.nodes@.len() && has_key(
                self.nodes@[i as int].element,
                key,
            ),
            self.ordered() ==> {
                let shape = self.shape();
                let k = rank(shape.elements(), key);
                node == if shape.is_at(key, k) {
                    shape.target(k)
                } else {
                    None
                }
            },
            forall|good: Set<Slot>, e: usize| #[trigger]
                self.shape().guided(good, e) && has_key(
                    self.shape().towers[e as int].element,
                    key,
                ) ==> node == Some(e),
    {
        let mut pred: Slot = Slot::Head;
        let mut level: usize = MAX_HEIGHT;
        let ghost shape = self.shape();
        let ghost k = rank(shape.elements(), key);
        let ghost h = shape.heights();
        let ghost mut p: int = -1;
        proof {
            if self.ordered() {
                lemma_rank(shape.elements(), key);
            }
        }
        while level > 0
            invariant
                level <= MAX_HEIGHT,
                self.traversable(),
                key_order::<T, Q>(),
                shape == self.shape(),
                k == rank(shape.elements(), key),
                h == shape.heights(),
                self.has_slot(pred),
                level <= shape.height(pred),
                shape.awaited(pred, key),
                level == 0 ==> forall|good: Set<Slot>, e: usize|
                    !(#[trigger] shape.guided(good, e) && has_key(
                        shape.towers[e as int].element,
                        key,
                    )),
                self.ordered() ==> {
                    &&& shape.splits(key, k)
                    &&& -1 <= p < k
                    &&& pred == shape.slot_at(p)
                    &&& level == 0 ==> !shape.is_at(key, k)
                },
            decreases level,
        {
            level = level - 1;
            let mut curr_opt: Option<usize> = self.slot_next(pred, level);
            proof {
                if self.ordered() {
                    assert(shape.reaches(p, level as int));
                    assert(shape.ptr(shape.slot_at(p), level as int) == shape.target(
                        next_from(h, p + 1, level as int),
                    ));
                }
            }
            loop
                invariant
                    level < MAX_HEIGHT,
                    self.traversable(),
                    key_order::<T, Q>(),
                    shape == self.shape(),
                    k == rank(shape.elements(), key),
                    h == shape.heights(),
                    self.has_slot(pred),
                    level < shape.height(pred),
                    shape.awaited(pred, key),
                    curr_opt == shape.ptr(pred, level as int),
                    self.ordered() ==> {
                        &&& shape.splits(key, k)
                        &&& -1 <= p < k
                        &&& pred == shape.slot_at(p)
                        &&& curr_opt == shape.target(next_from(h, p + 1, level as int))
                    },
                ensures
                    shape.ptr(pred, level as int) matches Some(c) ==> {
                        &&& !precedes(shape.towers[c as int].element, key)
                        &&& !has_key(shape.towers[c as int].element, key)
                    },
                    self.ordered() ==> {
                        &&& next_from(h, p + 1, level as int) >= k
                        &&& next_from(h, p + 1, level as int) == k ==> !shape.is_at(key, k)
                    },
                decreases shape.after(pred).len(),
            {
                proof {
                    if self.ordered() {
                        lemma_next_from(h, p + 1, level as int);
                    }
                    assert(shape.leads_forward(pred, level as int, shape.ptr(pred, level as int)));
                }
                let curr: usize = match curr_opt {
                    Some(curr) => curr,
                    None => break,
                };
                let ghost q = next_from(h, p + 1, level as int);
                assert(self.ordered() ==> self.nodes@[curr as int].element
                    == shape.elements()[q]);
                match side_of(&self.nodes[curr].element, key) {
                    Side::Before => {
                        proof {
                            shape.lemma_after(pred, Slot::Node(curr));
                            shape.lemma_awaited_step(pred, level as int, key);
                            if self.ordered() {
                                p = q;
                                assert(shape.reaches(p, level as int));
                                assert(shape.ptr(shape.slot_at(p), level as int) == shape.target(
                                    next_from(h, p + 1, level as int),
                                ));
                            }
                        }
                        pred = Slot::Node(curr);
                        curr_opt = self.slot_next(pred, level);
                    },
                    Side::Match => {
                        proof {
                            shape.lemma_awaited_match(pred, level as int, key);
                        }
                        return Some(curr);
                    },
                    Side::After => {
                        break;
                    },
                }
            }
            proof {
                if self.ordered() {
                    lemma_neighbours(h, p, k, level as int);
                }
                if level == 0 {
                    shape.lemma_awaited_end(pred, key);
                }
            }
        }
        None
    }
}

impl Position {
    /// The slot is a predecessor at a level where a lock was taken.
    pub(crate) open spec fn guarded(&self, guards: Seq<bool>, height: int, slot: Slot) -> bool {
        exists|l: int| 0 <= l < height && #[trigger] guards[l] && self.preds@[l] == slot
    }

    /// The predecessor at a level is also the predecessor at a higher one.
    pub(crate) open spec fn recurs_above(&self, level: int, height: int) -> bool {
        exists|l: int| level < l < height && #[trigger] self.preds@[l] == self.preds@[level]
    }

    /// Whether the predecessor at a level is also the predecessor at a higher one.
    pub(crate) fn recurs(&self, level: usize, height: usize) -> (recurs: bool)
        requires
            level < height <= MAX_HEIGHT,
        ensures
            recurs == self.recurs_above(level as int, height as int),
    {
        let mut l: usize = level + 1;
        while l < height
            invariant
                level < l <= height <= MAX_HEIGHT,
                !self.recurs_above(level as int, l as int),
            decreases height - l,
        {
            if self.preds[l] == self.preds[level] {
                return true;
            }
            l = l + 1;
        }
        false
    }
}

} // verus!
