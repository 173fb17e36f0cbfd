//! The search for the position of a key, one pointer at a time.
//!
//! A search does not keep others from changing the list between its steps.
use vstd::prelude::*;

use crate::node::{Slot, MAX_HEIGHT};
use crate::order::{
    has_key, key_order, lemma_rank, precedes, rank, side_of, BorrowKey, Side,
};
use crate::shape::Shape;
use crate::skiplist::{Position, SkipList};
use crate::towers::{last_before, lemma_neighbours, lemma_next_from, next_from};

verus! {

/// A search for the position of a key.
///
/// It goes forward at each level, from the top one down, as long as elements sort
/// before the key. The levels from `level` on are finished.
#[derive(Clone, Copy, Debug)]
pub struct Search {
    pub(crate) pred: Slot,
    pub(crate) level: usize,
    pub(crate) at: Position,
}

impl Search {
    /// All levels are finished.
    pub open spec fn done(&self) -> bool {
        self.levels_left() == 0
    }

    /// The search is one for the key, made in this list or in earlier states of it:
    /// the slot that it has come to and the predecessors that it has found sort
    /// before the key, and no successor that it has found does.
    pub closed spec fn tracks<T, Q>(&self, list: &SkipList<T>, key: &Q) -> bool where
        T: Ord + BorrowKey<Q>,
        Q: Ord + ?Sized,
     {
        self.on_track(list.shape(), key)
    }

    pub(crate) open spec fn on_track<T, Q>(&self, shape: Shape<T>, key: &Q) -> bool where
        T: Ord + BorrowKey<Q>,
        Q: Ord + ?Sized,
     {
        &&& self.level <= MAX_HEIGHT
        &&& self.pred matches Slot::Node(i) ==> {
            &&& i < shape.towers.len()
            &&& self.level <= shape.towers[i as int].pointers.len()
            &&& precedes(shape.towers[i as int].element, key)
        }
        &&& forall|l: int|
            self.level <= l < MAX_HEIGHT ==> {
                &&& shape.describes_level(#[trigger] self.at.preds@[l], self.at.succs@[l], key, l)
                &&& self.at.preds@[l] == self.pred || shape.comes_before(
                    self.at.preds@[l],
                    self.pred,
                )
            }
        &&& forall|l: int, m: int|
            #![trigger self.at.preds@[l], self.at.preds@[m]]
            self.level <= l < m < MAX_HEIGHT ==> self.at.preds@[l] == self.at.preds@[m]
                || shape.comes_before(self.at.preds@[m], self.at.preds@[l])
        &&& match self.at.existing {
            Some(e) => {
                &&& e < shape.towers.len()
                &&& has_key(shape.towers[e as int].element, key)
                &&& exists|l: int|
                    self.level <= l < shape.towers[e as int].pointers.len() && l < MAX_HEIGHT
                        && #[trigger] self.at.succs@[l] == Some(e)
            },
            None => forall|l: int, i: usize|
                self.level <= l < MAX_HEIGHT && #[trigger] self.at.succs@[l] == Some(i)
                    ==> !has_key(#[trigger] shape.towers[i as int].element, key),
        }
    }

    /// What the search has found so far is what there is in the list as it is.
    ///
    /// A search that nobody has disturbed agrees with its list.
    pub closed spec fn agrees<T, Q>(&self, list: &SkipList<T>, key: &Q) -> bool where
        T: Ord + BorrowKey<Q>,
        Q: Ord + ?Sized,
     {
        self.agrees_with(list.shape(), key)
    }

    pub(crate) open spec fn agrees_with<T, Q>(&self, shape: Shape<T>, key: &Q) -> bool where
        T: Ord + BorrowKey<Q>,
        Q: Ord + ?Sized,
     {
        let k = rank(shape.elements(), key);
        let h = shape.heights();
        let p = shape.place_of(self.pred);
        &&& self.level <= MAX_HEIGHT
        &&& -1 <= p < k
        &&& self.pred == shape.slot_at(p)
        &&& p >= 0 ==> h[p] >= self.level
        &&& forall|l: int|
            self.level <= l < MAX_HEIGHT ==> {
                &&& #[trigger] self.at.preds@[l] == shape.slot_at(last_before(h, k, l))
                &&& self.at.succs@[l] == shape.target(next_from(h, k, l))
            }
        &&& self.at.existing is Some ==> shape.is_at(key, k) && self.at.existing == shape.target(k)
        &&& self.level == 0 && shape.is_at(key, k) ==> self.at.existing is Some
    }

    /// The number of levels that are not finished.
    pub closed spec fn levels_left(&self) -> nat {
        self.level as nat
    }

    /// The search has not made a step.
    pub closed spec fn begins(&self) -> bool {
        self.pred == Slot::Head && self.level == MAX_HEIGHT
    }

    /// How many elements there are in the list between where the search has come
    /// to and the place of the key.
    pub closed spec fn distance<T, Q>(&self, list: &SkipList<T>, key: &Q) -> int where
        T: Ord + BorrowKey<Q>,
        Q: Ord + ?Sized,
     {
        self.ahead(list.shape(), key)
    }

    pub(crate) open spec fn ahead<T, Q>(&self, shape: Shape<T>, key: &Q) -> int where
        T: Ord + BorrowKey<Q>,
        Q: Ord + ?Sized,
     {
        rank(shape.elements(), key) - 1 - shape.place_of(self.pred)
    }

    /// The position that has been found, once all levels are finished.
    pub closed spec fn position(&self) -> Position {
        self.at
    }

    /// What one step does: it follows the pointer of the slot that the search has
    /// come to if that leads to an element that sorts before the key, and finishes
    /// the level if not.
    pub(crate) open spec fn stepped<T, Q>(
        &self,
        next: &Search,
        shape: Shape<T>,
        key: &Q,
    ) -> bool where T: Ord + BorrowKey<Q>, Q: Ord + ?Sized {
        let l = self.level - 1;
        match shape.ptr(self.pred, l) {
            Some(i) if precedes(shape.towers[i as int].element, key) => {
                &&& next.pred == Slot::Node(i)
                &&& next.level == self.level
                &&& next.at == self.at
            },
            succ => {
                &&& next.pred == self.pred
                &&& next.level == l
                &&& next.at.preds@ == self.at.preds@.update(l, self.pred)
                &&& next.at.succs@ == self.at.succs@.update(l, succ)
                &&& next.at.existing == match succ {
                    Some(i) if has_key(shape.towers[i as int].element, key) => Some(i),
                    _ => self.at.existing,
                }
            },
        }
    }

    /// One step leads from this search to the next one.
    pub closed spec fn steps_to<T, Q>(
        &self,
        next: &Search,
        list: &SkipList<T>,
        key: &Q,
    ) -> bool where T: Ord + BorrowKey<Q>, Q: Ord + ?Sized {
        self.stepped(next, list.shape(), key)
    }

    /// A search that stands at the head of the list, with all levels to go.
    pub(crate) fn start() -> (search: Self)
        ensures
            search.pred == Slot::Head,
            search.level == MAX_HEIGHT,
            search.at.existing is None,
    {
        Search {
            pred: Slot::Head,
            level: MAX_HEIGHT,
            at: Position {
                preds: [Slot::Head;MAX_HEIGHT],
                succs: [None;MAX_HEIGHT],
                existing: None,
            },
        }
    }

    /// Whether all levels are finished.
    pub fn is_done(&self) -> (done: bool)
        ensures
            done == self.done(),
    {
        self.level == 0
    }

    /// Makes one step in the list as it is now. Changes to it may be under way.
    pub fn step<T, Q>(&mut self, list: &SkipList<T>, key: &Q) where
        T: Ord + BorrowKey<Q>,
        Q: Ord + ?Sized,

        requires
            list.searchable(),
            key_order::<T, Q>(),
            !old(self).done(),
            old(self).tracks(list, key),
        ensures
            old(self).steps_to(final(self), list, key),
            final(self).tracks(list, key),
            (list.wf() || list.orderly()) && old(self).agrees(list, key) ==> {
                &&& final(self).agrees(list, key)
                &&& 0 <= final(self).distance(list, key)
                &&& final(self).levels_left() < old(self).levels_left() || (
                final(self).levels_left() == old(self).levels_left() && final(self).distance(
                    list,
                    key,
                ) < old(self).distance(list, key))
            },
    {
        proof {
            list.lemma_wf();
        }
        self.advance(list, key);
        proof {
            if (list.wf() || list.orderly()) && old(self).agrees(list, key) {
                self.lemma_step_agrees(old(self), list.shape(), key);
            }
        }
    }

    /// Makes one step in a list that may be in the midst of a change.
    pub(crate) fn advance<T, Q>(&mut self, list: &SkipList<T>, key: &Q) where
        T: Ord + BorrowKey<Q>,
        Q: Ord + ?Sized,

        requires
            list.traversable(),
            key_order::<T, Q>(),
            old(self).level > 0,
            old(self).on_track(list.shape(), key),
        ensures
            old(self).stepped(final(self), list.shape(), key),
            final(self).on_track(list.shape(), key),
    {
        let level: usize = self.level - 1;
        let ghost before = *self;
        proof {
            assert(list.shape().leads_forward(
                self.pred,
                level as int,
                list.shape().ptr(self.pred, level as int),
            ));
        }
        let curr_opt: Option<usize> = list.slot_next(self.pred, level);
        if let Some(curr) = curr_opt {
            match side_of(&list.nodes[curr].element, key) {
                Side::Before => {
                    self.pred = Slot::Node(curr);
                    proof {
                        self.lemma_moved(&before, list.shape(), key, curr);
                    }
                    return;
                },
                Side::Match => {
                    self.at.existing = Some(curr);
                },
                Side::After => {},
            }
        }
        self.at.preds[level] = self.pred;
        self.at.succs[level] = curr_opt;
        self.level = level;
        proof {
            self.lemma_finished_level(&before, list.shape(), key);
        }
    }

    proof fn lemma_moved<T, Q>(&self, before: &Search, shape: Shape<T>, key: &Q, curr: usize) where
        T: Ord + BorrowKey<Q>,
        Q: Ord + ?Sized,

        requires
            shape.traversable(),
            key_order::<T, Q>(),
            before.level > 0,
            before.on_track(shape, key),
            shape.ptr(before.pred, before.level - 1) == Some(curr),
            precedes(shape.towers[curr as int].element, key),
            self.pred == Slot::Node(curr),
            self.level == before.level,
            self.at == before.at,
        ensures
            self.on_track(shape, key),
    {
        assert(shape.leads_forward(
            before.pred,
            before.level - 1,
            shape.ptr(before.pred, before.level - 1),
        ));
        assert forall|l: int| self.level <= l < MAX_HEIGHT implies shape.comes_before(
            #[trigger] self.at.preds@[l],
            self.pred,
        ) by {
            shape.lemma_comes_before_transitive(self.at.preds@[l], before.pred, self.pred);
        }
    }

    proof fn lemma_finished_level<T, Q>(&self, before: &Search, shape: Shape<T>, key: &Q) where
        T: Ord + BorrowKey<Q>,
        Q: Ord + ?Sized,

        requires
            shape.traversable(),
            key_order::<T, Q>(),
            before.level > 0,
            before.on_track(shape, key),
            before.stepped(self, shape, key),
            self.level == before.level - 1,
        ensures
            self.on_track(shape, key),
    {
        let level = before.level - 1;
        assert(shape.leads_forward(before.pred, level, shape.ptr(before.pred, level)));
        assert(self.at.preds@[level] == before.pred);
        assert(self.at.succs@[level] == shape.ptr(before.pred, level));
        assert(forall|l: int|
            before.level <= l < MAX_HEIGHT ==> self.at.preds@[l] == #[trigger] before.at.preds@[l]
                && self.at.succs@[l] == before.at.succs@[l]);
        match self.at.existing {
            Some(e) => {
                if self.at.existing != before.at.existing {
                    assert(self.at.succs@[level] == Some(e));
                } else if before.at.existing is Some {
                    let l = choose|l: int|
                        before.level <= l < shape.towers[e as int].pointers.len() && l < MAX_HEIGHT
                            && #[trigger] before.at.succs@[l] == Some(e);
                    assert(self.at.succs@[l] == Some(e));
                }
            },
            None => {
                assert forall|l: int, i: usize|
                    self.level <= l < MAX_HEIGHT && #[trigger] self.at.succs@[l] == Some(
                        i,
                    ) implies !has_key(#[trigger] shape.towers[i as int].element, key) by {
                    if l != level {
                        assert(before.at.succs@[l] == Some(i));
                    }
                }
            },
        }
    }

    pub(crate) proof fn lemma_start_agrees<T, Q>(&self, shape: Shape<T>, key: &Q) where
        T: Ord + BorrowKey<Q>,
        Q: Ord + ?Sized,

        requires
            shape.structure(),
            key_order::<T, Q>(),
            self.pred == Slot::Head,
            self.level == MAX_HEIGHT,
            self.at.existing is None,
        ensures
            self.agrees_with(shape, key),
    {
        lemma_rank(shape.elements(), key);
    }

    /// A step in a list that the search agrees with finds the next neighbour, or
    /// finishes the level, and so comes nearer to the end.
    pub(crate) proof fn lemma_step_agrees<T, Q>(
        &self,
        before: &Search,
        shape: Shape<T>,
        key: &Q,
    ) where T: Ord + BorrowKey<Q>, Q: Ord + ?Sized
        requires
            shape.structure(),
            key_order::<T, Q>(),
            before.level > 0,
            before.agrees_with(shape, key),
            before.stepped(self, shape, key),
        ensures
            self.agrees_with(shape, key),
            0 <= self.ahead(shape, key),
            self.level < before.level || (self.level == before.level && self.ahead(shape, key)
                < before.ahead(shape, key)),
    {
        let k = rank(shape.elements(), key);
        let h = shape.heights();
        let p = shape.place_of(before.pred);
        let l = before.level - 1;
        let q = next_from(h, p + 1, l);
        lemma_rank(shape.elements(), key);
        lemma_next_from(h, p + 1, l);
        assert(shape.reaches(p, l));
        assert(shape.ptr(shape.slot_at(p), l) == shape.target(q));
        if q < shape.chain.len() {
            assert(shape.towers[shape.chain[q] as int].element == shape.elements()[q]);
            assert(shape.place_of(Slot::Node(shape.chain[q])) == q);
        }
        if self.level < before.level {
            lemma_neighbours(h, p, k, l);
        }
    }

    /// The position that was found. It is the place of the key in the list as it is
    /// if nobody has disturbed the search.
    pub fn finish<T, Q>(self, list: &SkipList<T>, key: &Q) -> (at: Position) where
        T: Ord + BorrowKey<Q>,
        Q: Ord + ?Sized,

        requires
            self.done(),
            self.tracks(list, key),
        ensures
            at == self.position(),
            list.places(&at, key),
            (list.wf() || list.orderly()) && key_order::<T, Q>() && self.agrees(list, key)
                ==> list.locates(&at, key),
    {
        proof {
            list.lemma_places(&self.at, key);
            list.lemma_wf();
            if (list.wf() || list.orderly()) && key_order::<T, Q>() && self.agrees(list, key) {
                list.lemma_locates(&self.at, key);
            }
        }
        self.at
    }

    /// How many nodes there are behind the slot that the search has come to, removed ones too.
    pub closed spec fn nodes_ahead<T: Ord>(&self, list: &SkipList<T>) -> nat {
        list.shape().after(self.pred).len()
    }

    /// Every step brings a search nearer to its end, also amid changes: it finishes a level, or
    /// goes on over nodes of which there are fewer.
    pub proof fn law_search_goes_on<T, Q>(
        &self,
        next: &Search,
        list: &SkipList<T>,
        key: &Q,
    ) where T: Ord + BorrowKey<Q>, Q: Ord + ?Sized
        requires
            list.searchable(),
            key_order::<T, Q>(),
            !self.done(),
            self.tracks(list, key),
            self.steps_to(next, list, key),
        ensures
            next.levels_left() + 1 == self.levels_left() || (next.levels_left()
                == self.levels_left() && next.nodes_ahead(list) < self.nodes_ahead(list)),
    {
        let (shape, l) = (list.shape(), self.level - 1);
        list.lemma_wf();
        assert(shape.leads_forward(self.pred, l, shape.ptr(self.pred, l)));
        if next.level == self.level {
            shape.lemma_after(self.pred, next.pred);
        }
    }

    /// A search goes on tracking its key while the list is changed.
    pub proof fn law_search_survives<T, Q>(
        &self,
        list: &SkipList<T>,
        earlier: &SkipList<T>,
        key: &Q,
    ) where T: Ord + BorrowKey<Q>, Q: Ord + ?Sized
        requires
            list.grown_from(earlier),
            self.tracks(earlier, key),
        ensures
            self.tracks(list, key),
    {
        list.lemma_grown_from(earlier);
        self.lemma_on_track_extends(list.shape(), earlier.shape(), key);
    }

    pub(crate) proof fn lemma_begins(&self)
        ensures
            self.begins() <==> self.pred == Slot::Head && self.level == MAX_HEIGHT,
    {
    }

    pub(crate) proof fn lemma_done(&self)
        ensures
            self.done() <==> self.level == 0,
            self.position() == self.at,
    {
    }

    pub(crate) proof fn lemma_stepped<T, Q>(
        &self,
        next: &Search,
        list: &SkipList<T>,
        key: &Q,
    ) where T: Ord + BorrowKey<Q>, Q: Ord + ?Sized
        ensures
            self.levels_left() == self.level,
            self.tracks(list, key) <==> self.on_track(list.shape(), key),
            self.steps_to(next, list, key) <==> self.stepped(next, list.shape(), key),
    {
    }

    pub(crate) proof fn lemma_same_shape<T, Q>(
        &self,
        list: &SkipList<T>,
        other: &SkipList<T>,
        key: &Q,
    ) where T: Ord + BorrowKey<Q>, Q: Ord + ?Sized
        requires
            list.shape() == other.shape(),
        ensures
            self.agrees(list, key) == self.agrees(other, key),
            self.distance(list, key) == self.distance(other, key),
    {
    }

    /// A search stays on track while the list is changed.
    pub(crate) proof fn lemma_on_track_extends<T, Q>(
        &self,
        shape: Shape<T>,
        earlier: Shape<T>,
        key: &Q,
    ) where T: Ord + BorrowKey<Q>, Q: Ord + ?Sized
        requires
            shape.extends(earlier),
            self.on_track(earlier, key),
        ensures
            self.on_track(shape, key),
    {
        assert forall|l: int| self.level <= l < MAX_HEIGHT implies {
            &&& shape.describes_level(#[trigger] self.at.preds@[l], self.at.succs@[l], key, l)
            &&& self.at.preds@[l] == self.pred || shape.comes_before(self.at.preds@[l], self.pred)
        } by {
            assert(earlier.describes_level(self.at.preds@[l], self.at.succs@[l], key, l));
        }
        assert forall|l: int, m: int|
            #![trigger self.at.preds@[l], self.at.preds@[m]]
            self.level <= l < m < MAX_HEIGHT implies self.at.preds@[l] == self.at.preds@[m]
            || shape.comes_before(self.at.preds@[m], self.at.preds@[l]) by {
            assert(earlier.describes_level(self.at.preds@[l], self.at.succs@[l], key, l));
            assert(earlier.describes_level(self.at.preds@[m], self.at.succs@[m], key, m));
        }
        match self.at.existing {
            Some(e) => {
                let l = choose|l: int|
                    self.level <= l < earlier.towers[e as int].pointers.len() && l < MAX_HEIGHT
                        && #[trigger] self.at.succs@[l] == Some(e);
                assert(self.at.succs@[l] == Some(e) && l < shape.towers[e as int].pointers.len());
            },
            None => {
                assert forall|l: int, i: usize|
                    self.level <= l < MAX_HEIGHT && #[trigger] self.at.succs@[l] == Some(
                        i,
                    ) implies !has_key(#[trigger] shape.towers[i as int].element, key) by {
                    assert(earlier.describes_level(
                        self.at.preds@[l],
                        self.at.succs@[l],
                        key,
                        l,
                    ));
                    assert(!has_key(earlier.towers[i as int].element, key));
                }
            },
        }
    }
}

impl<T: Ord> SkipList<T> {
    /// Starts a search for the position of a key.
    pub fn search<Q>(&self, key: &Q) -> (search: Search) where T: BorrowKey<Q>, Q: Ord + ?Sized
        ensures
            search.tracks(self, key),
            search.begins(),
            search.levels_left() == MAX_HEIGHT,
            (self.wf() || self.orderly()) && key_order::<T, Q>() ==> search.agrees(self, key),
    {
        let search: Search = Search::start();
        proof {
            self.lemma_wf();
            if (self.wf() || self.orderly()) && key_order::<T, Q>() {
                search.lemma_start_agrees(self.shape(), key);
            }
        }
        search
    }
}

} // verus!
