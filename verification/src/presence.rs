//! Searches amid changes find what stays.
//!
//! An entry that was in the list at a moment when all that had been decided was written,
//! and that has been in it ever since, is found by every search that begins after that
//! moment, whatever changes are made between its steps.
use vstd::prelude::*;

use crate::concurrent::BusyList;
use crate::node::Slot;
use crate::order::{has_key, key_order, lemma_key_of_element, lookup, total_order, BorrowKey};
use crate::search::Search;
use crate::skiplist::{Position, Ref, SkipList};

verus! {

impl<T: Ord> BusyList<T> {
    /// The slot was in the list at a moment, or is newer.
    spec fn has_since(&self, s: Slot) -> bool {
        s matches Slot::Node(i) ==> i >= self.settled@.towers.len() || !self.settled@.marked(s)
    }

    /// From a slot before the node, a walk comes to the node. What the pointers of the slot
    /// lead to before the node was in the list at the moment of the start, or is newer, and
    /// they lead to no other node that compares equal.
    spec fn shows_the_way(&self, start: &Self, s: Slot, e: usize) -> bool {
        let shape = self.list.shape();
        &&& shape.walks_to(s, e)
        &&& forall|l: int|
            0 <= l < shape.height(s) ==> (#[trigger] shape.ptr(s, l) matches Some(c)
                ==> shape.keeps_to(start.slots_since(), c, e))
    }

    /// The slots that were in the list at a moment, or are newer.
    spec fn slots_since(&self) -> Set<Slot> {
        Set::new(|s: Slot| self.has_since(s))
    }

    /// The node with the number has been in the list since the start, and no search that has
    /// begun since then will miss it.
    pub closed spec fn lasting(&self, start: &Self, entry: int) -> bool {
        let (shape, e) = (self.list.shape(), entry as usize);
        &&& 0 <= entry < shape.towers.len()
        &&& !self.settled@.marked(Slot::Node(e))
        &&& start.settled@.towers.len() <= shape.towers.len()
        &&& forall|s: Slot|
            start.settled@.has_slot(s) && #[trigger] start.settled@.marked(s)
                ==> self.settled@.marked(s)
        &&& forall|s: Slot|
            shape.has_slot(s) && #[trigger] start.has_since(s) && shape.comes_before(
                s,
                Slot::Node(e),
            ) ==> self.shows_the_way(start, s, e)
    }

    /// The search is on its way to the node with the number, or has found it.
    pub closed spec fn guides(&self, start: &Self, search: &Search, entry: int) -> bool {
        &&& self.list.shape().has_slot(search.pred)
        &&& start.has_since(search.pred)
        &&& self.list.shape().comes_before(search.pred, Slot::Node(entry as usize))
        &&& search.level == 0 ==> search.at.existing == Some(entry as usize)
    }

    /// Searches for an element in the list as it is, amid changes, and returns its entry if
    /// found. An entry that is lasting is found, whatever is under way.
    pub fn get<'a, Q>(&'a self, element: &Q) -> (entry: Option<Ref<'a, T>>) where
        T: BorrowKey<Q>,
        Q: Ord + ?Sized,

        requires
            key_order::<T, Q>(),
            self.wf(),
        ensures
            entry matches Some(entry) ==> self.inner().has_node(entry@) && has_key(entry@, element),
            self.still() ==> match entry {
                Some(entry) => lookup(self@, element) == Some(entry@),
                None => lookup(self@, element) is None,
            },
            forall|start: &BusyList<T>, e: int| #[trigger]
                self.lasting(start, e) && has_key(self.inner().element_of(e), element) ==> {
                    &&& entry is Some
                    &&& entry->0@ == self.inner().element_of(e)
                },
    {
        let list: &SkipList<T> = self.as_list();
        let ghost shape = list.shape();
        let mut search: Search = list.search(element);
        proof {
            self.lemma_shows(self);
            search.lemma_begins();
            search.lemma_done();
        }
        while !search.is_done()
            invariant
                key_order::<T, Q>(),
                self.wf(),
                *list == self.inner(),
                list.searchable(),
                self.still() ==> list.orderly() && search.agrees(list, element),
                shape == list.shape(),
                shape.traversable(),
                search.tracks(list, element),
                forall|start: &BusyList<T>, e: int| #[trigger]
                    self.lasting(start, e) && has_key(self.inner().element_of(e), element)
                        ==> self.guides(start, &search, e),
            decreases search.level, shape.after(search.pred).len(),
        {
            let ghost before = search;
            search.step(list, element);
            proof {
                before.lemma_done();
                before.lemma_stepped(&search, list, element);
                assert forall|start: &BusyList<T>, e: int| #[trigger]
                    self.lasting(start, e) && has_key(
                        self.inner().element_of(e),
                        element,
                    ) implies self.guides(start, &search, e) by {
                    self.law_search_keeps_to_the_way(start, &before, &search, e, element);
                }
                if search.level == before.level {
                    assert(shape.leads_forward(
                        before.pred,
                        before.level - 1,
                        shape.ptr(before.pred, before.level - 1),
                    ));
                    shape.lemma_after(before.pred, search.pred);
                }
            }
        }
        let at: Position = search.finish(list, element);
        proof {
            assert forall|start: &BusyList<T>, e: int| #[trigger]
                self.lasting(start, e) && has_key(self.inner().element_of(e), element) implies {
                &&& at.found()
                &&& list.entry_found(&at) == Some(self.inner().element_of(e))
            } by {
                self.law_search_finds(start, &search, e);
            }
        }
        list.entry_of(&at, element)
    }

    /// The entries of a list in which all that has been decided is written are lasting from
    /// then on.
    pub proof fn law_lasting_begins(&self, i: int)
        requires
            total_order::<T>(),
            self.wf(),
            self.still(),
            0 <= i < self@.len(),
        ensures
            self.lasting(self, self.inner().entry_at(i)),
            self.inner().element_of(self.inner().entry_at(i)) == self@[i],
    {
        self.lemma_still();
        self.lemma_keeps(i);
        self.lemma_shows(self);
        self.list.lemma_entries();
        let shape = self.list.shape();
        let e = shape.chain[i];
        assert forall|s: Slot|
            shape.has_slot(s) && #[trigger] self.has_since(s) && shape.comes_before(
                s,
                Slot::Node(e),
            ) implies self.shows_the_way(self, s, e) by {
            shape.lemma_live_walk(s, e);
            assert forall|l: int| 0 <= l < shape.height(s) implies (
            #[trigger] shape.ptr(s, l) matches Some(c) ==> shape.keeps_to(
                self.slots_since(),
                c,
                e,
            )) by {
                shape.lemma_live_ptr(s, l);
                if let Some(c) = shape.ptr(s, l) {
                    shape.lemma_live_apart(c, e);
                }
            }
        }
    }

    /// An entry that is lasting stays so through all steps of changes, as long as it is in
    /// the list.
    pub proof fn law_lasting_goes_on(&self, before: &Self, start: &Self, entry: int)
        requires
            total_order::<T>(),
            self.wf(),
            before.wf(),
            before.lasting(start, entry),
            self.inner().grown_from(&before.inner()),
            self.still_shows(before),
            self.keeps(entry),
        ensures
            self.lasting(start, entry),
            self.inner().element_of(entry) == before.inner().element_of(entry),
    {
        self.lemma_shows(before);
        self.list.lemma_grown_from(&before.list);
        self.list.lemma_entries();
        before.list.lemma_entries();
        let (shape, was, settled) = (self.list.shape(), before.list.shape(), self.settled@);
        let e = entry as usize;
        let end = Slot::Node(e);
        assert forall|s: Slot|
            start.settled@.has_slot(s) && #[trigger] start.settled@.marked(
                s,
            ) implies settled.marked(s) by {
            assert(before.settled@.marked(s));
        }
        assert forall|s: Slot|
            shape.has_slot(s) && !#[trigger] settled.marked(s) implies start.has_since(s) by {}
        assert forall|s: Slot|
            shape.has_slot(s) && #[trigger] start.has_since(s) && shape.comes_before(
                s,
                end,
            ) implies self.shows_the_way(start, s, e) by {
            if was.has_slot(s) {
                assert(was.comes_before(s, end));
                assert(before.shows_the_way(start, s, e));
                assert(before.has_slot(s));
            } else {
                assert(shape.height(s) >= 1);
                assert(shape.ptr(s, 0) == settled.ptr(s, 0) && !settled.marked(s));
                assert(settled.comes_before(s, end));
                settled.lemma_live_walk(s, e);
                settled.lemma_live_ptr(s, 0);
                let c = settled.ptr(s, 0)->0;
                let next = Slot::Node(c);
                if c == e {
                    assert(shape.walk(next, 0) == Some(end));
                    assert(shape.walk(s, 1) == Some(end));
                } else {
                    settled.lemma_comes_before_irreflexive(s);
                    assert(settled.leads_forward(s, 0, settled.ptr(s, 0)));
                    assert(c != s->0);
                    assert(was.has_slot(next));
                    assert(was.comes_before(next, end));
                    assert(start.has_since(next));
                    assert(before.shows_the_way(start, next, e));
                    assert(before.has_slot(next));
                    assert(shape.walks_to(next, e));
                    let n = choose|n: nat| #[trigger] shape.walk(next, n) == Some(end);
                    assert(shape.walk(s, n + 1) == Some(end));
                }
            }
            assert forall|l: int| 0 <= l < shape.height(s) implies (
            #[trigger] shape.ptr(s, l) matches Some(c) ==> shape.keeps_to(
                start.slots_since(),
                c,
                e,
            )) by {
                if was.has_slot(s) && shape.ptr(s, l) == was.ptr(s, l) {
                    assert(was.leads_forward(s, l, was.ptr(s, l)));
                    assert(before.shows_the_way(start, s, e));
                } else {
                    settled.lemma_live_ptr(s, l);
                    if let Some(c) = shape.ptr(s, l) {
                        settled.lemma_live_apart(c, e);
                        assert(shape.towers[c as int].element
                            == settled.towers[c as int].element);
                    }
                }
            }
        }
    }

    /// An entry that is lasting is revealed, so that every lookup finds it.
    pub proof fn law_lasting_is_revealed(&self, start: &Self, entry: int)
        requires
            self.wf(),
            self.lasting(start, entry),
        ensures
            self.inner().reveals(entry),
    {
        let (shape, e) = (self.list.shape(), entry as usize);
        let good = start.slots_since();
        self.lemma_shows(self);
        assert forall|s: Slot|
            shape.has_slot(s) && #[trigger] good.contains(s) && shape.comes_before(
                s,
                Slot::Node(e),
            ) implies {
            &&& shape.walks_to(s, e)
            &&& forall|l: int|
                0 <= l < shape.height(s) ==> (#[trigger] shape.ptr(s, l) matches Some(c)
                    ==> shape.keeps_to(good, c, e))
        } by {
            assert(start.has_since(s));
            assert(self.shows_the_way(start, s, e));
        }
        assert(shape.guided(good, e));
        self.list.lemma_reveals(good, entry);
    }

    /// A search that begins is on its way to each entry that is lasting.
    pub proof fn law_search_sets_out(&self, start: &Self, search: &Search, entry: int)
        requires
            self.lasting(start, entry),
            search.begins(),
        ensures
            self.guides(start, search, entry),
    {
        search.lemma_begins();
    }

    /// A step of a search for its key brings it no further away from an entry that is
    /// lasting.
    pub proof fn law_search_keeps_to_the_way<Q>(
        &self,
        start: &Self,
        search: &Search,
        next: &Search,
        entry: int,
        key: &Q,
    ) where T: BorrowKey<Q>, Q: Ord + ?Sized
        requires
            key_order::<T, Q>(),
            self.wf(),
            self.lasting(start, entry),
            has_key(self.inner().element_of(entry), key),
            self.guides(start, search, entry),
            !search.done(),
            search.tracks(&self.inner(), key),
            search.steps_to(next, &self.inner(), key),
        ensures
            self.guides(start, next, entry),
    {
        let shape = self.list.shape();
        let e = entry as usize;
        let (s, l) = (search.pred, search.level - 1);
        self.lemma_shows(self);
        self.list.lemma_entries();
        search.lemma_stepped(next, &self.list, key);
        lemma_key_of_element(shape.towers[entry].element, key);
        assert(self.shows_the_way(start, s, e));
        assert(shape.leads_forward(s, l, shape.ptr(s, l)));
        assert(shape.leads_forward(s, 0, shape.ptr(s, 0)));
        if next.level == 0 && search.level > 0 {
            let n = choose|n: nat| #[trigger] shape.walk(s, n) == Some(Slot::Node(e));
            shape.lemma_comes_before_irreflexive(s);
            assert(n > 0);
            let c = shape.ptr(s, 0)->0;
            shape.lemma_walk(Slot::Node(c), (n - 1) as nat);
            assert(c == e);
        }
    }

    /// A search that is on its way to an entry stays so while the list is changed.
    pub proof fn law_search_stays_on_its_way(
        &self,
        before: &Self,
        start: &Self,
        search: &Search,
        entry: int,
    )
        requires
            before.lasting(start, entry),
            before.guides(start, search, entry),
            self.inner().grown_from(&before.inner()),
        ensures
            self.guides(start, search, entry),
    {
        self.lemma_inner();
        before.lemma_inner();
        self.list.lemma_grown_from(&before.list);
    }

    /// A search that was on its way to an entry has found it in the end. It has not been
    /// removed, so that a removal with this search goes on to remove it.
    pub proof fn law_search_finds(&self, start: &Self, search: &Search, entry: int)
        requires
            self.wf(),
            self.lasting(start, entry),
            self.guides(start, search, entry),
            search.done(),
        ensures
            search.position().found(),
            !self.inner().gone(&search.position()),
            self.inner().entry_found(&search.position()) == Some(self.inner().element_of(entry)),
    {
        search.lemma_done();
        self.list.lemma_entries();
        self.list.lemma_entry_found(&search.at);
        self.lemma_shows(self);
    }
}

} // verus!
