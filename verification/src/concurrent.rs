//! Changes to a skiplist that overlap in time.
//!
//! A [`BusyList`] is a skiplist in which any number of changes are under way. Each
//! of them is a [`Change`], which is made in steps: one lock, one pointer or one mark
//! at a time. The steps of different changes may be interleaved in any way.
use vstd::prelude::*;

use crate::flights::{
    lemma_total_landed, lemma_total_push, lemma_total_update, lemma_uncounted, total, uncounted,
    Flight,
};
use crate::history::{
    decided, law_replay_in_parts, lemma_replay_push, replay, sensible, Decision,
};
use crate::node::{slot_of, Slot, MAX_HEIGHT};
use crate::order::{
    ascending, has_key, heights_with, heights_without, key_order, lemma_equal_keys, lookup, rank,
    total_order, with_element, without_key, BorrowKey,
};
use crate::rng::height_of;
use crate::search::Search;
use crate::shape::Shape;
use crate::skiplist::{Position, Ref, SkipList};
use crate::towers::last_before;

verus! {

/// A skiplist in which changes are under way.
pub struct BusyList<T: Ord> {
    pub(crate) list: SkipList<T>,
    /// The shape that the list will have when all that has been decided is written.
    pub(crate) settled: Ghost<Shape<T>>,
    /// The changes, also those that have landed.
    pub(crate) flights: Ghost<Seq<Flight<T>>>,
    /// How often the length has wrapped around.
    pub(crate) wraps: Ghost<int>,
    /// The elements at the start, and the changes that have been decided since.
    pub(crate) origin: Ghost<Seq<T>>,
    pub(crate) history: Ghost<Seq<Decision<T>>>,
}

impl<T: Ord> View for BusyList<T> {
    type V = Seq<T>;

    /// The elements of the list, in order, as they have been decided.
    closed spec fn view(&self) -> Seq<T> {
        self.settled@.elements()
    }
}

impl<T: Ord> BusyList<T> {
    pub(crate) open spec fn has_slot(&self, s: Slot) -> bool {
        self.list.has_slot(s)
    }

    /// A change holds the lock of a slot.
    pub(crate) open spec fn holds(&self, i: int, s: Slot) -> bool {
        0 <= i < self.flights@.len() && self.flights@[i].held.contains(s)
    }

    /// A change still has to set the pointer of a slot at a level.
    pub(crate) open spec fn owes(&self, i: int, s: Slot, l: int) -> bool {
        0 <= i < self.flights@.len() && self.flights@[i].owes(s, l)
    }

    /// A change still has to mark the node in a slot.
    pub(crate) open spec fn marks(&self, i: int, s: Slot) -> bool {
        0 <= i < self.flights@.len() && (s matches Slot::Node(e) && self.flights@[i].mark == Some(
            e,
        ))
    }

    /// The list has the nodes of its settled shape.
    pub(crate) open spec fn same_nodes(&self) -> bool {
        &&& self.list.shape().towers.len() == self.settled@.towers.len()
        &&& self.list.shape().extends(self.settled@)
        &&& self.list.chain@ == self.settled@.chain
    }

    /// No two changes hold the same lock.
    pub(crate) open spec fn exclusive(&self) -> bool {
        forall|i: int, j: int, s: Slot| #[trigger]
            self.holds(i, s) && #[trigger] self.holds(j, s) ==> i == j
    }

    /// A lock is held exactly if a change holds it.
    pub(crate) open spec fn locks_held(&self) -> bool {
        forall|s: Slot|
            self.has_slot(s) ==> (#[trigger] self.list.locked(s) <==> exists|i: int| #[trigger]
                self.holds(i, s))
    }

    /// A pointer is settled, or else a change still has to set it.
    pub(crate) open spec fn pointers_settled(&self) -> bool {
        forall|s: Slot, l: int|
            self.has_slot(s) && 0 <= l < self.settled@.height(s) ==> {
                ||| #[trigger] self.list.shape().ptr(s, l) == self.settled@.ptr(s, l)
                ||| exists|i: int| #[trigger] self.owes(i, s, l)
            }
    }

    /// The nodes to be marked are those that are marked, and those that a change
    /// still has to mark.
    pub(crate) open spec fn marks_settled(&self) -> bool {
        forall|s: Slot|
            self.has_slot(s) ==> (#[trigger] self.settled@.marked(s)
                <==> self.list.shape().marked(s) || exists|i: int| #[trigger] self.marks(i, s))
    }

    /// A node that a change still has to mark is not marked.
    pub(crate) open spec fn marks_pending(&self) -> bool {
        forall|i: int, s: Slot| #[trigger] self.marks(i, s) ==> !self.list.shape().marked(s)
    }

    /// The length is that of the settled list, up to what the changes still have to
    /// add, and up to wrapping around.
    pub(crate) open spec fn length_settled(&self) -> bool {
        self.list.len + total(self.flights@) == self.settled@.chain.len() + self.wraps@ * (
        usize::MAX + 1)
    }

    /// Walks along the lowest level miss nothing when pointers are set.
    pub(crate) open spec fn legible(&self) -> bool {
        forall|i: int|
            0 <= i < self.flights@.len() && (#[trigger] self.flights@[i]).left > 0
                ==> self.flights@[i].legible(self.list.shape(), self.settled@)
    }

    /// A decision is that of a change.
    pub(crate) open spec fn recorded(&self, d: Decision<T>) -> bool {
        &&& 0 <= d.ticket < self.flights@.len()
        &&& self.flights@[d.ticket].node is Some
        &&& self.flights@[d.ticket].pivot == d.subject
        &&& self.flights@[d.ticket].removes == !d.inserts
    }

    /// The contents have come about by the decisions, one after the other, and each
    /// change that has been decided is among them once.
    pub(crate) open spec fn chronicled(&self) -> bool {
        &&& ascending(self.origin@)
        &&& self.settled@.elements() == replay(self.origin@, self.history@)
        &&& sensible(self.origin@, self.history@)
        &&& forall|i: int|
            0 <= i < self.history@.len() ==> self.recorded(#[trigger] self.history@[i])
        &&& forall|i: int, j: int|
            0 <= i < j < self.history@.len() ==> (#[trigger] self.history@[i]).ticket != (
            #[trigger] self.history@[j]).ticket
        &&& forall|t: int|
            0 <= t < self.flights@.len() && (#[trigger] self.flights@[t]).node is Some
                ==> exists|i: int|
                0 <= i < self.history@.len() && (#[trigger] self.history@[i]).ticket == t
    }

    /// A walk that comes to a node still comes to it, if the node is still in the list.
    pub(crate) open spec fn keeps_view(&self, before: &Self) -> bool {
        forall|s: Slot, e: usize|
            before.has_slot(s) && e < before.settled@.towers.len() && !self.settled@.marked(
                Slot::Node(e),
            ) && #[trigger] before.list.shape().walks_to(s, e) ==> self.list.shape().walks_to(s, e)
    }

    /// A pointer that has been set since, or that of a new node, is the settled one of a
    /// live slot. One node at most is new, and what was removed stays removed.
    pub(crate) open spec fn follows(&self, before: &Self) -> bool {
        let (shape, was) = (self.list.shape(), before.list.shape());
        &&& shape.towers.len() <= was.towers.len() + 1
        &&& forall|s: Slot, l: int|
            shape.has_slot(s) && 0 <= l < shape.height(s) ==> {
                ||| was.has_slot(s) && #[trigger] shape.ptr(s, l) == was.ptr(s, l)
                ||| !self.settled@.marked(s) && shape.ptr(s, l) == self.settled@.ptr(s, l)
            }
        &&& forall|s: Slot|
            was.has_slot(s) && #[trigger] before.settled@.marked(s) ==> self.settled@.marked(s)
    }

    /// Nothing has been removed but what compares equal to the element.
    pub(crate) open spec fn takes_only(&self, before: &Self, element: T) -> bool {
        forall|s: Slot|
            before.settled@.has_slot(s) && !before.settled@.marked(s)
                && #[trigger] self.settled@.marked(s) ==> has_key::<T, T>(
                element,
                &before.settled@.towers[s->0 as int].element,
            )
    }

    /// The list is well formed, whatever changes are under way.
    pub closed spec fn wf(&self) -> bool {
        &&& self.list.nodes_wf()
        &&& self.list.shape().traversable()
        &&& self.settled@.structure()
        &&& self.same_nodes()
        &&& forall|i: int|
            0 <= i < self.flights@.len() ==> (#[trigger] self.flights@[i]).sound(self.settled@)
        &&& self.exclusive()
        &&& self.locks_held()
        &&& self.pointers_settled()
        &&& self.marks_settled()
        &&& self.marks_pending()
        &&& self.length_settled()
        &&& self.legible()
        &&& self.chronicled()
    }

    /// What a change holds is settled, but for what it still has to write itself.
    proof fn lemma_own(&self, t: int, s: Slot)
        requires
            self.wf(),
            self.holds(t, s),
        ensures
            forall|l: int|
                0 <= l < self.settled@.height(s) && !self.owes(t, s, l)
                    ==> #[trigger] self.list.shape().ptr(s, l) == self.settled@.ptr(s, l),
            !self.marks(t, s) ==> self.list.shape().marked(s) == self.settled@.marked(s),
    {
        assert(self.flights@[t].sound(self.settled@));
        assert(self.has_slot(s));
        assert forall|l: int|
            0 <= l < self.settled@.height(s) && !self.owes(
                t,
                s,
                l,
            ) implies #[trigger] self.list.shape().ptr(s, l) == self.settled@.ptr(s, l) by {
            if exists|i: int| #[trigger] self.owes(i, s, l) {
                let i = choose|i: int| #[trigger] self.owes(i, s, l);
                assert(self.flights@[i].sound(self.settled@));
                assert(self.flights@[i].owes_rightly(
                    self.settled@,
                    self.flights@[i].at.preds@[l],
                    l,
                ));
                assert(self.holds(i, s));
            }
        }
        if !self.marks(t, s) {
            assert(self.settled@.marked(s) <==> self.list.shape().marked(s) || exists|i: int|
                #[trigger] self.marks(i, s));
            if exists|i: int| #[trigger] self.marks(i, s) {
                let i = choose|i: int| #[trigger] self.marks(i, s);
                assert(self.flights@[i].sound(self.settled@));
                assert(self.holds(i, s));
            }
        }
    }

    /// The list stays well formed when one change makes a step that concerns only
    /// slots whose locks it holds, and nodes that it has allocated.
    proof fn lemma_step(&self, before: &Self, t: int)
        requires
            before.wf(),
            0 <= t < before.flights@.len(),
            self.flights@ == before.flights@.update(t, self.flights@[t]),
            self.list.nodes_wf(),
            self.list.shape().traversable(),
            self.settled@.structure(),
            self.same_nodes(),
            self.settled@.extends(before.settled@),
            self.flights@[t].sound(self.settled@),
            forall|s: Slot|
                before.has_slot(s) && !before.holds(t, s) ==> {
                    &&& self.settled@.pointers(s) == #[trigger] before.settled@.pointers(s)
                    &&& self.settled@.marked(s) == before.settled@.marked(s)
                    &&& self.list.shape().pointers(s) == before.list.shape().pointers(s)
                    &&& self.list.shape().marked(s) == before.list.shape().marked(s)
                },
            forall|s: Slot|
                self.has_slot(s) ==> (#[trigger] self.list.locked(s) <==> self.holds(t, s) || (
                before.has_slot(s) && before.list.locked(s) && !before.holds(t, s))),
            forall|s: Slot| #[trigger]
                self.holds(t, s) ==> before.has_slot(s) && (before.holds(t, s)
                    || !before.list.locked(s)),
            forall|s: Slot, l: int|
                self.has_slot(s) && 0 <= l < self.settled@.height(s) && (before.holds(t, s)
                    || !before.has_slot(s)) ==> #[trigger] self.list.shape().ptr(s, l)
                    == self.settled@.ptr(s, l) || self.owes(t, s, l),
            forall|s: Slot|
                self.has_slot(s) && (before.holds(t, s) || !before.has_slot(s)) ==> (
                #[trigger] self.settled@.marked(s) <==> self.list.shape().marked(s) || self.marks(
                    t,
                    s,
                )),
            self.list.len + self.flights@[t].count - self.settled@.chain.len() - self.wraps@ * (
            usize::MAX + 1) == before.list.len + before.flights@[t].count
                - before.settled@.chain.len() - before.wraps@ * (usize::MAX + 1),
            forall|s: Slot| #[trigger] self.marks(t, s) ==> !self.list.shape().marked(s),
            self.legible(),
            self.chronicled(),
        ensures
            self.wf(),
    {
        let (f, old_f) = (self.flights@, before.flights@);
        assert(forall|i: int, s: Slot|
            i != t ==> #[trigger] self.holds(i, s) == before.holds(i, s));
        assert forall|i: int| 0 <= i < f.len() implies (#[trigger] f[i]).sound(self.settled@) by {
            if i != t {
                assert(old_f[i].sound(before.settled@));
                assert forall|s: Slot| f[i].held.contains(s) implies {
                    &&& self.settled@.pointers(s) == #[trigger] before.settled@.pointers(s)
                    &&& self.settled@.marked(s) == before.settled@.marked(s)
                } by {
                    assert(before.holds(i, s));
                    assert(!before.holds(t, s));
                }
                f[i].lemma_sound_extends(self.settled@, before.settled@);
            }
        }
        assert forall|i: int, j: int, s: Slot| #[trigger]
            self.holds(i, s) && #[trigger] self.holds(j, s) implies i == j by {
            if i != j && (i == t || j == t) {
                let k = if i == t {
                    j
                } else {
                    i
                };
                assert(before.holds(k, s));
                assert(self.holds(t, s));
                assert(before.has_slot(s) && before.list.locked(s));
            } else if i != t {
                assert(before.holds(i, s) && before.holds(j, s));
            }
        }
        assert forall|s: Slot| self.has_slot(s) implies (#[trigger] self.list.locked(s)
            <==> exists|i: int| #[trigger] self.holds(i, s)) by {
            if exists|i: int| #[trigger] self.holds(i, s) {
                let i = choose|i: int| #[trigger] self.holds(i, s);
                if i != t {
                    assert(before.holds(i, s));
                    assert(old_f[i].sound(before.settled@));
                }
            }
            if self.list.locked(s) && !self.holds(t, s) {
                let i = choose|i: int| #[trigger] before.holds(i, s);
                assert(self.holds(i, s));
            }
        }
        assert forall|s: Slot, l: int|
            self.has_slot(s) && 0 <= l < self.settled@.height(
                s,
            ) implies #[trigger] self.list.shape().ptr(s, l) == self.settled@.ptr(s, l)
            || exists|i: int| #[trigger] self.owes(i, s, l) by {
            if before.has_slot(s) && !before.holds(t, s) {
                assert(self.settled@.pointers(s) == before.settled@.pointers(s));
                assert(before.list.shape().ptr(s, l) == self.list.shape().ptr(s, l));
                if before.list.shape().ptr(s, l) != before.settled@.ptr(s, l) {
                    let i = choose|i: int| #[trigger] before.owes(i, s, l);
                    assert(old_f[i].sound(before.settled@));
                    assert(old_f[i].owes_rightly(before.settled@, old_f[i].at.preds@[l], l));
                    assert(before.holds(i, s));
                    assert(self.owes(i, s, l));
                }
            }
        }
        assert forall|s: Slot| self.has_slot(s) implies (#[trigger] self.settled@.marked(s)
            <==> self.list.shape().marked(s) || exists|i: int| #[trigger] self.marks(i, s)) by {
            if exists|i: int| #[trigger] self.marks(i, s) {
                let i = choose|i: int| #[trigger] self.marks(i, s);
                assert(f[i].sound(self.settled@));
            }
            if before.has_slot(s) && !before.holds(t, s) {
                assert(self.settled@.pointers(s) == before.settled@.pointers(s));
                assert(before.settled@.marked(s) <==> before.list.shape().marked(s)
                    || exists|i: int| #[trigger] before.marks(i, s));
                if before.settled@.marked(s) && !before.list.shape().marked(s) {
                    let i = choose|i: int| #[trigger] before.marks(i, s);
                    assert(old_f[i].sound(before.settled@));
                    assert(before.holds(i, s));
                    assert(self.marks(i, s));
                }
            }
        }
        assert forall|i: int, s: Slot| #[trigger] self.marks(
            i,
            s,
        ) implies !self.list.shape().marked(s) by {
            if i != t {
                assert(before.marks(i, s));
                assert(old_f[i].sound(before.settled@));
                assert(before.flights@[i].mark == Some(s->0));
                assert(before.holds(i, s));
                assert(!before.holds(t, s));
                assert(before.has_slot(s));
                assert(self.settled@.pointers(s) == before.settled@.pointers(s));
            }
        }
        lemma_total_update(old_f, t, f[t]);
    }

    /// Nothing is decided by a step that leaves the contents as they are.
    proof fn lemma_chronicled(&self, before: &Self, t: int)
        requires
            before.chronicled(),
            0 <= t < before.flights@.len(),
            self.flights@ == before.flights@.update(t, self.flights@[t]),
            self.settled@.elements() == before.settled@.elements(),
            self.origin == before.origin,
            self.history == before.history,
            self.flights@[t].node == before.flights@[t].node,
            self.flights@[t].pivot == before.flights@[t].pivot,
            self.flights@[t].removes == before.flights@[t].removes,
        ensures
            self.chronicled(),
    {
        assert forall|i: int| 0 <= i < self.history@.len() implies self.recorded(
            #[trigger] self.history@[i],
        ) by {
            assert(before.recorded(before.history@[i]));
        }
        assert forall|u: int| 0 <= u < self.flights@.len() && (
        #[trigger] self.flights@[u]).node is Some implies exists|i: int|
            0 <= i < self.history@.len() && (#[trigger] self.history@[i]).ticket == u by {
            assert(before.flights@[u].node is Some);
        }
    }

    /// What was to be seen along the lowest level still is, if the pointers there are
    /// what they were.
    proof fn lemma_same_lowest_level(&self, before: &Self, t: int)
        requires
            total_order::<T>(),
            before.wf(),
            0 <= t < before.flights@.len(),
            self.flights@ == before.flights@.update(t, self.flights@[t]),
            forall|s: Slot|
                before.has_slot(s) ==> #[trigger] self.list.shape().ptr(s, 0)
                    == before.list.shape().ptr(s, 0),
            forall|s: Slot, l: int|
                before.has_slot(s) && !before.holds(t, s) ==> #[trigger] self.list.shape().ptr(s, l)
                    == before.list.shape().ptr(s, l),
            forall|s: Slot|
                before.has_slot(s) && #[trigger] before.settled@.marked(s)
                    ==> self.settled@.marked(s),
            self.flights@[t].left > 0 ==> self.flights@[t].legible(
                self.list.shape(),
                self.settled@,
            ),
        ensures
            self.legible(),
            self.keeps_view(before),
    {
        let (shape, was) = (self.list.shape(), before.list.shape());
        assert forall|i: int|
            0 <= i < self.flights@.len() && (
            #[trigger] self.flights@[i]).left > 0 implies self.flights@[i].legible(
            shape,
            self.settled@,
        ) by {
            if i != t {
                before.lemma_legible_range(i);
                let f = before.flights@[i];
                shape.lemma_sees_all_same(
                    self.settled@,
                    was,
                    before.settled@,
                    f.targets[0],
                    f.at.succs@[0],
                );
                assert forall|l: int| 0 <= l < f.left implies shape.ptr(
                    #[trigger] f.at.preds@[l],
                    l,
                ) == f.at.succs@[l] by {
                    let s = f.at.preds@[l];
                    assert(f.owes_rightly(before.settled@, s, l));
                    assert(before.holds(i, s));
                    assert(shape.ptr(s, l) == was.ptr(s, l));
                }
            }
        }
        assert forall|s: Slot, e: usize|
            before.has_slot(s) && e < before.settled@.towers.len() && !self.settled@.marked(
                Slot::Node(e),
            ) && #[trigger] was.walks_to(s, e) implies shape.walks_to(s, e) by {
            let n = choose|n: nat| #[trigger] was.walk(s, n) == Some(Slot::Node(e));
            shape.lemma_walk_same(was, s, n);
            assert(shape.walk(s, n) == Some(Slot::Node(e)));
        }
    }

    /// What was to be seen along the lowest level still is, when the pointer of a change
    /// is set there.
    proof fn lemma_lowest_link(&self, before: &Self, t: int, q: Slot, target: Option<usize>)
        requires
            total_order::<T>(),
            before.wf(),
            0 <= t < before.flights@.len(),
            before.flights@[t].left == 1,
            before.flights@[t].at.preds@[0] == q,
            before.settled@.ptr(q, 0) == target,
            self.flights@ == before.flights@.update(t, self.flights@[t]),
            self.flights@[t].left == 0,
            self.settled == before.settled,
            self.list.shape() == before.list.shape().set_ptr(q, 0, target),
        ensures
            self.legible(),
            self.keeps_view(before),
    {
        let (shape, was, settled) = (self.list.shape(), before.list.shape(), before.settled@);
        let mine = before.flights@[t];
        before.lemma_legible_range(t);
        assert(mine.owes_rightly(settled, q, 0));
        assert(settled.leads_forward(q, 0, settled.ptr(q, 0)));
        assert(was.leads_forward(q, 0, target));
        assert(was.ptr(mine.at.preds@[0], 0) == mine.at.succs@[0]);
        assert(was.sees_all(settled, target, was.ptr(q, 0)));
        assert forall|i: int|
            0 <= i < self.flights@.len() && (
            #[trigger] self.flights@[i]).left > 0 implies self.flights@[i].legible(
            shape,
            settled,
        ) by {
            before.lemma_legible_range(i);
            let f = before.flights@[i];
            was.lemma_sees_all_kept(settled, q, target, f.targets[0], f.at.succs@[0]);
            assert forall|l: int| 0 <= l < f.left implies shape.ptr(#[trigger] f.at.preds@[l], l)
                == f.at.succs@[l] by {
                let s = f.at.preds@[l];
                assert(f.owes_rightly(settled, s, l));
                assert(before.holds(i, s) && before.holds(t, q));
                assert(was.ptr(s, l) == f.at.succs@[l]);
            }
        }
        assert forall|s: Slot, e: usize|
            before.has_slot(s) && e < settled.towers.len() && !settled.marked(Slot::Node(e))
                && #[trigger] was.walks_to(s, e) implies shape.walks_to(s, e) by {
            was.lemma_walk_kept(q, target, s, e);
        }
    }

    pub(crate) proof fn lemma_shows(&self, before: &Self)
        requires
            self.wf(),
            before.wf(),
        ensures
            self.still_shows(before) <==> self.keeps_view(before) && self.follows(before),
            forall|entry: int| #[trigger]
                self.keeps(entry) <==> 0 <= entry < self.settled@.towers.len()
                    && !self.settled@.marked(Slot::Node(entry as usize)),
            self.settled@.towers.len() == self.list.shape().towers.len(),
            before.settled@.towers.len() == before.list.shape().towers.len(),
            self.inner() == self.list,
            before.inner() == before.list,
            self.settled@.structure(),
            self.list.searchable(),
            self.list.shape().traversable(),
            before.list.shape().traversable(),
            self.list.shape().extends(self.settled@),
            self.list.shape().towers.len() == self.list.nodes@.len(),
            before.list.shape().towers.len() == before.list.nodes@.len(),
            forall|s: Slot| #[trigger]
                self.list.shape().marked(s) && self.has_slot(s) ==> self.settled@.marked(s),
    {
        self.list.lemma_wf();
        assert forall|s: Slot| #[trigger]
            self.list.shape().marked(s) && self.has_slot(s) implies self.settled@.marked(s) by {
            assert(self.settled@.marked(s) <==> self.list.shape().marked(s) || exists|i: int|
                #[trigger] self.marks(i, s));
        }
    }

    pub(crate) proof fn lemma_inner(&self)
        ensures
            self.inner() == self.list,
    {
    }

    /// A step that decides nothing removes nothing, and one that decides a change removes
    /// what that concerns.
    proof fn lemma_accounts(&self, before: &Self, d: Option<Decision<T>>)
        requires
            before.wf(),
            self.wf(),
            self.list.shape().grown_from(before.list.shape()),
            self.follows(before),
            match d {
                Some(d) => {
                    &&& self.history@ == before.history@.push(d)
                    &&& self.takes_only(before, d.subject)
                },
                None => {
                    &&& self.history == before.history
                    &&& self.settled == before.settled
                },
            },
        ensures
            self.accounts_for(before),
            self.leads_on(before),
    {
        let (shape, was) = (self.list.shape(), before.list.shape());
        let n = before.history@.len() as int;
        self.list.lemma_entries();
        before.list.lemma_entries();
        self.lemma_shows(before);
        before.lemma_shows(before);
        assert(before.history@ =~= self.history@.take(n));
        assert forall|e: int| before.keeps(e) && !self.keeps(e) implies self.decided_on(
            n,
            before.inner().element_of(e),
        ) by {
            let s = Slot::Node(e as usize);
            assert(self.settled@.marked(s));
            assert(before.list.shape().towers[e].element == before.settled@.towers[e].element);
            assert(has_key::<T, T>(
                self.history()[n].subject,
                &before.inner().element_of(e),
            ));
        }
        assert forall|e: int| 0 <= e < was.towers.len() && self.keeps(e) implies before.keeps(
            e,
        ) by {
            let s = Slot::Node(e as usize);
            assert(before.settled@.marked(s) ==> self.settled@.marked(s));
        }
        assert forall|e: int| 0 <= e < was.towers.len() && !self.keeps(e) implies
        #[trigger] self.inner().entry_after(e) == before.inner().entry_after(e) by {
            let s = slot_of(e);
            assert(self.settled@.marked(s));
            assert(shape.height(s) >= 1);
            assert(shape.ptr(s, 0) == was.ptr(s, 0));
        }
    }

    pub(crate) proof fn lemma_unmoved(&self, before: &Self)
        requires
            before.wf(),
            *self == *before,
        ensures
            self.accounts_for(before),
            self.leads_on(before),
            self.inner().grown_from(&before.inner()),
            self.still_shows(before),
            self.undisturbed(before),
    {
        self.list.lemma_grown_from(&before.list);
        self.lemma_accounts(before, None);
    }

    pub(crate) proof fn lemma_keeps(&self, i: int)
        requires
            self.wf(),
            0 <= i < self@.len(),
        ensures
            self.keeps(self.list.chain@[i] as int),
            self.inner() == self.list,
            self.list.shape().towers[self.list.chain@[i] as int].element == self@[i],
    {
        let e = self.settled@.chain[i];
        assert(self.settled@.chain.contains(e));
        assert(!self.settled@.marked(Slot::Node(e)));
        let (shape, settled) = (self.list.shape(), self.settled@);
        assert(shape.towers[e as int].element == settled.towers[e as int].element);
    }

    /// A decision is recorded.
    proof fn lemma_recorded(&self, before: &Self, t: int, d: Decision<T>)
        requires
            before.chronicled(),
            0 <= t < before.flights@.len(),
            self.flights@ == before.flights@.update(t, self.flights@[t]),
            before.flights@[t].node is None,
            self.origin == before.origin,
            self.history@ == before.history@.push(d),
            d.ticket == t,
            self.recorded(d),
            d.inserts || lookup::<T, T>(before.settled@.elements(), &d.subject) == Some(d.subject),
            self.settled@.elements() == decided(before.settled@.elements(), d),
        ensures
            self.chronicled(),
    {
        lemma_replay_push(before.origin@, before.history@, d);
        assert forall|i: int| 0 <= i < self.history@.len() implies self.recorded(
            #[trigger] self.history@[i],
        ) && (i < before.history@.len() ==> self.history@[i].ticket != t) by {
            if i < before.history@.len() {
                assert(before.recorded(before.history@[i]));
            }
        }
        assert forall|i: int, j: int|
            0 <= i < j < self.history@.len() implies (#[trigger] self.history@[i]).ticket != (
        #[trigger] self.history@[j]).ticket by {
            if j < before.history@.len() {
                assert(before.history@[i].ticket != before.history@[j].ticket);
            }
        }
        assert forall|u: int| 0 <= u < self.flights@.len() && (
        #[trigger] self.flights@[u]).node is Some implies exists|i: int|
            0 <= i < self.history@.len() && (#[trigger] self.history@[i]).ticket == u by {
            if u == t {
                assert(self.history@[before.history@.len() as int].ticket == u);
            } else {
                assert(before.flights@[u].node is Some);
                let i = choose|i: int|
                    0 <= i < before.history@.len() && (#[trigger] before.history@[i]).ticket == u;
                assert(self.history@[i] == before.history@[i]);
            }
        }
    }

    /// The pointers that a change still has to set lead to nodes of the list, before and
    /// after.
    proof fn lemma_legible_range(&self, i: int)
        requires
            self.wf(),
            0 <= i < self.flights@.len(),
            self.flights@[i].left > 0,
        ensures
            self.flights@[i].sound(self.settled@),
            self.flights@[i].legible(self.list.shape(), self.settled@),
            self.flights@[i].targets[0] matches Some(x) ==> x < self.list.shape().towers.len(),
            self.flights@[i].at.succs@[0] matches Some(x) ==> x
                < self.list.shape().towers.len(),
            self.list.shape().towers.len() == self.list.nodes@.len(),
    {
        let f = self.flights@[i];
        let s = f.at.preds@[0];
        assert(f.sound(self.settled@));
        assert(f.owes_rightly(self.settled@, s, 0));
        assert(self.settled@.leads_forward(s, 0, self.settled@.ptr(s, 0)));
        assert(self.list.shape().leads_forward(s, 0, self.list.shape().ptr(s, 0)));
    }

    /// The list stays well formed when one change takes or releases locks, or goes
    /// on to its next step.
    proof fn lemma_relocked(&self, before: &Self, t: int)
        requires
            before.wf(),
            0 <= t < before.flights@.len(),
            self.flights@ == before.flights@.update(t, self.flights@[t]),
            self.settled == before.settled,
            self.wraps == before.wraps,
            self.origin == before.origin,
            self.history == before.history,
            self.list.same_but_locks(&before.list),
            self.flights@[t].sound(self.settled@),
            self.flights@[t].at == before.flights@[t].at,
            self.flights@[t].pivot == before.flights@[t].pivot,
            self.flights@[t].removes == before.flights@[t].removes,
            self.flights@[t].node == before.flights@[t].node,
            self.flights@[t].targets == before.flights@[t].targets,
            self.flights@[t].left == before.flights@[t].left,
            self.flights@[t].mark == before.flights@[t].mark,
            self.flights@[t].count == before.flights@[t].count,
            forall|s: Slot|
                before.has_slot(s) ==> (#[trigger] self.list.locked(s) <==> self.holds(t, s) || (
                before.list.locked(s) && !before.holds(t, s))),
            forall|s: Slot| #[trigger]
                self.holds(t, s) ==> before.holds(t, s) || !before.list.locked(s),
        ensures
            self.wf(),
            self.keeps_view(before),
            self.follows(before),
    {
        self.list.lemma_slots(&before.list);
        assert forall|s: Slot, l: int|
            self.has_slot(s) && 0 <= l < self.settled@.height(s) && before.holds(
                t,
                s,
            ) implies #[trigger] self.list.shape().ptr(s, l) == self.settled@.ptr(s, l)
            || self.owes(t, s, l) by {
            before.lemma_own(t, s);
            assert(self.owes(t, s, l) == before.owes(t, s, l));
            assert(before.list.shape().ptr(s, l) == self.list.shape().ptr(s, l));
        }
        assert forall|s: Slot| self.has_slot(s) && before.holds(t, s) implies (
        #[trigger] self.settled@.marked(s) <==> self.list.shape().marked(s) || self.marks(
            t,
            s,
        )) by {
            before.lemma_own(t, s);
            assert(before.flights@[t].sound(before.settled@));
            assert(self.marks(t, s) == before.marks(t, s));
        }
        assert forall|i: int|
            0 <= i < self.flights@.len() && (
            #[trigger] self.flights@[i]).left > 0 implies self.flights@[i].legible(
            self.list.shape(),
            self.settled@,
        ) by {
            assert(before.flights@[i].legible(before.list.shape(), before.settled@));
        }
        assert forall|s: Slot| #[trigger] self.marks(t, s) implies !self.list.shape().marked(
            s,
        ) by {
            assert(before.marks(t, s));
            assert(before.flights@[t].sound(before.settled@));
            assert(self.has_slot(s));
        }
        self.lemma_chronicled(before, t);
        self.lemma_step(before, t);
    }
}

/// What a change does next.
#[derive(Clone, Copy, Debug, PartialEq, Eq, Structural)]
pub(crate) enum Phase {
    /// Lock the predecessor at a level, and check that the position is valid there.
    Lock,
    /// Lock the existing node.
    LockExisting,
    /// Decide: from now on the change counts.
    Decide,
    /// Set the pointer of the predecessor at a level.
    Link,
    /// Mark the existing node.
    Mark,
    /// Adjust the length of the list.
    Count,
    /// Unlock the existing node.
    UnlockExisting,
    /// Unlock the predecessor at a level.
    Unlock,
    /// Nothing: the change holds no locks any more.
    Landed,
}

/// How a step went.
#[derive(Clone, Copy, Debug, PartialEq, Eq, Structural)]
pub enum Outcome {
    /// The step was made.
    Stepped,
    /// Another change holds the lock that this one needs.
    Waiting,
}

/// An insertion or a removal in the making.
pub struct Change<T> {
    /// The element to be inserted, until the new node gets it.
    element: Option<T>,
    inserts: bool,
    at: Position,
    /// The height of the tower that is put in or taken out.
    height: usize,
    phase: Phase,
    /// The level that the phase has come to.
    level: usize,
    /// At which levels the lock of the predecessor is held, once for each of them.
    guards: [bool; MAX_HEIGHT],
    /// Whether the lock of the existing node is held.
    guards_existing: bool,
    /// The node that was put in or taken out, once that is decided.
    node: Option<usize>,
    /// The element that is put in or taken out.
    pivot: Ghost<T>,
    ticket: Ghost<int>,
}

impl<T: Ord> Change<T> {
    /// By which the list tells its changes apart.
    pub closed spec fn ticket(&self) -> int {
        self.ticket@
    }

    /// The change is an insertion, not a removal.
    pub closed spec fn inserts(&self) -> bool {
        self.inserts
    }

    /// The element that is inserted or removed.
    pub closed spec fn subject(&self) -> T {
        self.pivot@
    }

    /// The next step is the one that decides.
    pub closed spec fn deciding(&self) -> bool {
        self.phase is Decide
    }

    /// The change has been decided.
    pub closed spec fn decided(&self) -> bool {
        self.node is Some
    }

    /// The change has no more steps to make. It was given up if it has not been
    /// decided.
    pub closed spec fn landed(&self) -> bool {
        self.phase is Landed
    }

    /// The change will not be decided any more.
    pub closed spec fn given_up(&self) -> bool {
        !self.undecided() && self.node is None
    }

    /// A bound on the number of steps still to be made.
    pub closed spec fn steps_left(&self) -> nat {
        let max = MAX_HEIGHT as int;
        let steps = match self.phase {
            Phase::Lock => 2 * max + 7 + self.level,
            Phase::LockExisting => 2 * max + 7,
            Phase::Decide => 2 * max + 6,
            Phase::Link => max + 5 + self.level,
            Phase::Mark => max + 5,
            Phase::Count => max + 4,
            Phase::UnlockExisting => max + 3,
            Phase::Unlock => 1 + self.height - self.level,
            Phase::Landed => 0,
        };
        steps as nat
    }

    /// The change still can be decided.
    spec fn undecided(&self) -> bool {
        self.phase is Lock || self.phase is LockExisting || self.phase is Decide
    }

    /// The slots whose locks are held.
    spec fn held(&self) -> Set<Slot> {
        Set::new(
            |s: Slot|
                self.at.guarded(self.guards@, MAX_HEIGHT as int, s) || (self.guards_existing && (
                self.at.existing matches Some(e) && s == Slot::Node(e))),
        )
    }

    /// The slot whose lock is taken next.
    spec fn wants(&self) -> Option<Slot> {
        match (self.phase, self.at.existing) {
            (Phase::Lock, _) => if self.at.recurs_above(self.level - 1, self.height as int) {
                None
            } else {
                Some(self.at.preds@[self.level - 1])
            },
            (Phase::LockExisting, Some(e)) => Some(Slot::Node(e)),
            _ => None,
        }
    }

    /// How the list sees the change.
    spec fn flight(&self, targets: Seq<Option<usize>>) -> Flight<T> {
        Flight {
            held: self.held(),
            wants: self.wants(),
            at: self.at,
            pivot: self.pivot@,
            removes: !self.inserts,
            height: self.height as int,
            undecided: self.undecided(),
            checked: if self.phase is Lock {
                self.level as int
            } else {
                0
            },
            left: if self.phase is Link {
                self.level as int
            } else {
                0
            },
            targets,
            bypassed: if self.phase is Link && !self.inserts {
                self.at.existing
            } else {
                None
            },
            mark: if self.phase is Link || self.phase is Mark {
                self.at.existing
            } else {
                None
            },
            count: if self.phase is Link || self.phase is Mark || self.phase is Count {
                self.growth()
            } else {
                0
            },
            node: self.node,
        }
    }

    /// What is recorded of the change when it is decided.
    pub closed spec fn decision(&self) -> Decision<T> {
        Decision { ticket: self.ticket@, inserts: self.inserts, subject: self.pivot@ }
    }

    pub(crate) proof fn lemma_decision(&self)
        ensures
            self.decision() == (Decision {
                ticket: self.ticket(),
                inserts: self.inserts(),
                subject: self.subject(),
            }),
    {
    }

    /// By how much the change makes the list longer.
    spec fn growth(&self) -> int {
        if !self.inserts {
            -1
        } else if self.at.existing is Some {
            0
        } else {
            1
        }
    }

    /// The phase fits what is held and what has been done.
    spec fn wf(&self) -> bool {
        &&& 1 <= self.height <= MAX_HEIGHT
        &&& self.level <= self.height
        &&& self.phase is Lock || self.phase is Link ==> self.level > 0
        &&& forall|l: int|
            0 <= l < MAX_HEIGHT && #[trigger] self.guards@[l] ==> {
                &&& l < self.height
                &&& self.phase is Lock || self.phase is Unlock ==> l >= self.level
                &&& self.phase !is Landed
            }
        &&& forall|l: int, m: int|
            0 <= l < MAX_HEIGHT && 0 <= m < MAX_HEIGHT && #[trigger] self.guards@[l]
                && #[trigger] self.guards@[m] && self.at.preds@[l] == self.at.preds@[m] ==> l == m
        &&& self.guards_existing <==> self.at.existing is Some && (self.phase is Decide
            || self.phase is Link || self.phase is Mark || self.phase is Count
            || self.phase is UnlockExisting)
        &&& self.guards_existing ==> (self.at.existing matches Some(e) ==> !self.at.guarded(
            self.guards@,
            MAX_HEIGHT as int,
            Slot::Node(e),
        ))
        &&& self.phase is LockExisting || self.phase is UnlockExisting ==> self.at.existing is Some
        &&& self.element == if self.inserts && self.node is None {
            Some(self.pivot@)
        } else {
            None
        }
        &&& !self.inserts ==> self.at.existing is Some
        &&& !self.inserts && self.node is Some ==> self.node == self.at.existing
        &&& self.undecided() ==> self.node is None
        &&& self.phase is Link || self.phase is Mark || self.phase is Count
            || self.phase is UnlockExisting ==> self.node is Some
    }

    /// The change is the one that it was.
    spec fn same_change(&self, before: &Self) -> bool {
        &&& self.ticket == before.ticket
        &&& self.pivot == before.pivot
        &&& self.inserts == before.inserts
        &&& self.at == before.at
        &&& self.height == before.height
    }
}

impl<T: Ord> BusyList<T> {
    /// The change is under way in this list, or has been.
    pub closed spec fn runs(&self, change: &Change<T>) -> bool {
        let flights = self.flights@;
        let t = change.ticket@;
        &&& 0 <= t < flights.len()
        &&& change.wf()
        &&& flights[t] == change.flight(flights[t].targets)
        &&& change.phase is Link && change.inserts ==> forall|l: int|
            0 <= l < change.height ==> #[trigger] flights[t].targets[l] == change.node
    }
}

impl<T: Ord> Change<T> {
    /// A step has been made.
    spec fn stepped(&self, list: &BusyList<T>, before: &Self, list_before: &BusyList<T>) -> bool {
        &&& list.wf()
        &&& list.runs(self)
        &&& self.same_change(before)
        &&& list.flights@ == list_before.flights@.update(
            self.ticket@,
            list.flights@[self.ticket@],
        )
        &&& list.list.shape().grown_from(list_before.list.shape())
        &&& self.steps_left() < before.steps_left()
        &&& list.origin == list_before.origin
        &&& list.keeps_view(list_before)
        &&& list.follows(list_before)
        &&& before.phase !is Decide ==> {
            &&& self.node == before.node
            &&& list.history == list_before.history
        }
        &&& before.phase !is Lock ==> self.undecided() == (before.phase is LockExisting)
    }

    /// Locks are taken in list order only: a change that needs a lock holds none but
    /// locks that come before it.
    proof fn lemma_wants(&self, settled: Shape<T>)
        requires
            total_order::<T>(),
            self.wf(),
            self.undecided(),
            settled.describes::<T>(&self.at, &self.pivot@),
        ensures
            self.wants() matches Some(w) ==> {
                &&& settled.has_slot(w)
                &&& forall|s: Slot| #[trigger]
                    self.held().contains(s) ==> settled.comes_before(s, w)
            },
    {
        if let Some(w) = self.wants() {
            if self.phase is Lock {
                let l = self.level - 1;
                assert(settled.describes_level(
                    self.at.preds@[l],
                    self.at.succs@[l],
                    &self.pivot@,
                    l,
                ));
            }
            assert forall|s: Slot| #[trigger]
                self.held().contains(s) implies settled.comes_before(s, w) by {
                let l = choose|l: int|
                    0 <= l < MAX_HEIGHT && #[trigger] self.guards@[l] && self.at.preds@[l] == s;
                assert(settled.describes_level(
                    self.at.preds@[l],
                    self.at.succs@[l],
                    &self.pivot@,
                    l,
                ));
                if self.phase is Lock {
                    let m = self.level - 1;
                    assert(self.at.preds@[l] != self.at.preds@[m]);
                } else if let (Slot::Node(i), Slot::Node(e)) = (s, w) {
                    lemma_equal_keys::<T>(
                        &settled.towers[e as int].element,
                        &self.pivot@,
                        &settled.towers[i as int].element,
                    );
                }
            }
        }
    }

    /// Taking the guard of a level adds its predecessor to the slots that are held.
    proof fn lemma_guarded(&self, before: &Self, level: int)
        requires
            0 <= level < MAX_HEIGHT,
            self.at == before.at,
            self.guards_existing == before.guards_existing,
            self.guards@ == before.guards@.update(level, true),
        ensures
            self.held() == before.held().insert(self.at.preds@[level]),
    {
        let pred = self.at.preds@[level];
        assert forall|s: Slot| before.held().insert(pred).contains(s) implies self.held().contains(
            s,
        ) by {
            if s == pred {
                assert(self.guards@[level]);
            } else if before.at.guarded(before.guards@, MAX_HEIGHT as int, s) {
                let l = choose|l: int|
                    0 <= l < MAX_HEIGHT && #[trigger] before.guards@[l] && self.at.preds@[l] == s;
                assert(self.guards@[l]);
            }
        }
        assert forall|s: Slot| self.held().contains(s) implies before.held().insert(pred).contains(
            s,
        ) by {
            if self.at.guarded(self.guards@, MAX_HEIGHT as int, s) {
                let l = choose|l: int|
                    0 <= l < MAX_HEIGHT && #[trigger] self.guards@[l] && self.at.preds@[l] == s;
                if l != level {
                    assert(before.guards@[l]);
                }
            }
        }
        assert(self.held() =~= before.held().insert(pred));
    }

    /// Locks the predecessor at the next level and checks the position there.
    #[verifier::rlimit(40)]
    #[verifier::spinoff_prover]
    fn lock_level(&mut self, list: &mut BusyList<T>) -> (outcome: Outcome)
        requires
            total_order::<T>(),
            old(list).wf(),
            old(list).runs(old(self)),
            old(self).phase is Lock,
        ensures
            outcome is Waiting <==> old(self).wants() is Some && old(list).list.locked(
                old(self).wants()->0,
            ),
            outcome is Waiting ==> *final(self) == *old(self) && *final(list) == *old(list),
            outcome is Stepped ==> final(self).stepped(final(list), old(self), old(list)),
            outcome is Stepped ==> final(list).settled == old(list).settled,
            outcome is Stepped ==> (final(self).undecided() <==> old(list).settled@.valid_at(
                &old(self).at,
                old(self).level - 1,
            )),
            !(final(self).phase is Link) && !(final(self).phase is Mark),
    {
        let level: usize = self.level - 1;
        let pred: Slot = self.at.preds[level];
        let ghost t = self.ticket@;
        let ghost settled = list.settled@;
        let ghost flight = list.flights@[t];
        proof {
            assert(flight.sound(settled));
            assert(settled.describes_level(
                pred,
                self.at.succs@[level as int],
                &self.pivot@,
                level as int,
            ));
        }
        if !self.at.recurs(level, self.height) {
            if list.list.slot_is_locked(pred) {
                return Outcome::Waiting;
            }
            list.list.try_lock_slot(pred);
            self.guards[level] = true;
            proof {
                self.lemma_guarded(old(self), level as int);
            }
        }
        proof {
            let grabbed = Flight { held: self.held(), wants: None, ..flight };
            list.flights = Ghost(list.flights@.update(t, grabbed));
            assert(grabbed.sound(settled));
            if !self.at.recurs_above(level as int, self.height as int) {
                assert(!old(list).list.locked(pred));
            } else {
                let l = choose|l: int|
                    level < l < self.height && #[trigger] self.at.preds@[l]
                        == self.at.preds@[level as int];
                assert(flight.held.contains(self.at.preds@[l]));
            }
            assert forall|s: Slot| old(list).has_slot(s) implies (#[trigger] list.list.locked(s)
                <==> list.holds(t, s) || (old(list).list.locked(s) && !old(list).holds(t, s))) by {
                if old(list).holds(t, s) {
                    assert(old(list).list.locked(s));
                }
            }
            list.lemma_relocked(old(list), t);
            assert(list.holds(t, pred));
            list.lemma_own(t, pred);
        }
        let ghost grabbed = *list;
        let valid: bool = !list.list.slot_is_marked(pred) && list.list.slot_next(pred, level)
            == self.at.succs[level];
        if !valid {
            self.phase = Phase::Unlock;
            self.level = 0;
        } else {
            self.level = level;
            if level == 0 {
                self.phase = if self.at.existing.is_some() {
                    Phase::LockExisting
                } else {
                    Phase::Decide
                };
            }
        }
        proof {
            list.flights = Ghost(list.flights@.update(t, self.flight(flight.targets)));
            assert(self.wf());
            if valid {
                self.lemma_wants(settled);
            }
            assert(self.flight(flight.targets).sound(settled));
            assert forall|s: Slot| grabbed.has_slot(s) implies (#[trigger] list.list.locked(s)
                <==> list.holds(t, s) || (grabbed.list.locked(s) && !grabbed.holds(t, s))) by {
                if grabbed.holds(t, s) {
                    assert(grabbed.list.locked(s));
                }
            }
            list.lemma_relocked(&grabbed, t);
            assert(list.flights@ =~= old(list).flights@.update(t, list.flights@[t]));
        }
        Outcome::Stepped
    }

    /// Locks the existing node.
    fn lock_existing(&mut self, list: &mut BusyList<T>) -> (outcome: Outcome)
        requires
            total_order::<T>(),
            old(list).wf(),
            old(list).runs(old(self)),
            old(self).phase is LockExisting,
        ensures
            outcome is Waiting <==> old(self).wants() is Some && old(list).list.locked(
                old(self).wants()->0,
            ),
            outcome is Waiting ==> *final(self) == *old(self) && *final(list) == *old(list),
            outcome is Stepped ==> final(self).stepped(final(list), old(self), old(list)),
            outcome is Stepped ==> final(list).settled == old(list).settled,
            !(final(self).phase is Link) && !(final(self).phase is Mark),
    {
        let ghost t = self.ticket@;
        let ghost settled = list.settled@;
        let ghost flight = list.flights@[t];
        assert(flight.sound(settled));
        if let Some(e) = self.at.existing {
            if list.list.slot_is_locked(Slot::Node(e)) {
                return Outcome::Waiting;
            }
            list.list.try_lock_slot(Slot::Node(e));
            self.guards_existing = true;
            proof {
                assert(!old(list).holds(t, Slot::Node(e)));
                assert(self.held() =~= old(self).held().insert(Slot::Node(e)));
            }
        }
        self.phase = Phase::Decide;
        proof {
            list.flights = Ghost(list.flights@.update(t, self.flight(flight.targets)));
            assert(self.flight(flight.targets).sound(settled));
            assert forall|s: Slot| old(list).has_slot(s) implies (#[trigger] list.list.locked(s)
                <==> list.holds(t, s) || (old(list).list.locked(s) && !old(list).holds(t, s))) by {
                if old(list).holds(t, s) {
                    assert(old(list).list.locked(s));
                }
            }
            list.lemma_relocked(old(list), t);
        }
        Outcome::Stepped
    }

    /// Unlocks the existing node.
    fn unlock_existing(&mut self, list: &mut BusyList<T>)
        requires
            old(list).wf(),
            old(list).runs(old(self)),
            old(self).phase is UnlockExisting,
        ensures
            final(self).stepped(final(list), old(self), old(list)),
            final(list).settled == old(list).settled,
            !(final(self).phase is Link) && !(final(self).phase is Mark),
    {
        let ghost t = self.ticket@;
        let ghost settled = list.settled@;
        let ghost flight = list.flights@[t];
        assert(flight.sound(settled));
        if let Some(e) = self.at.existing {
            assert(flight.held.contains(Slot::Node(e)));
            list.list.unlock_slot(Slot::Node(e));
        }
        self.guards_existing = false;
        self.phase = Phase::Unlock;
        self.level = 0;
        proof {
            assert(self.held() =~= old(self).held().remove(Slot::Node(self.at.existing->0)));
            list.flights = Ghost(list.flights@.update(t, self.flight(flight.targets)));
            assert(self.flight(flight.targets).sound(settled));
            assert forall|s: Slot| old(list).has_slot(s) implies (#[trigger] list.list.locked(s)
                <==> list.holds(t, s) || (old(list).list.locked(s) && !old(list).holds(t, s))) by {
                if old(list).holds(t, s) {
                    assert(old(list).list.locked(s));
                }
            }
            list.lemma_relocked(old(list), t);
        }
    }

    /// Unlocks the predecessor at the next level, if a lock was taken there.
    fn unlock_level(&mut self, list: &mut BusyList<T>)
        requires
            old(list).wf(),
            old(list).runs(old(self)),
            old(self).phase is Unlock,
        ensures
            final(self).stepped(final(list), old(self), old(list)),
            final(list).settled == old(list).settled,
            !(final(self).phase is Link) && !(final(self).phase is Mark),
    {
        let ghost t = self.ticket@;
        let ghost settled = list.settled@;
        let ghost flight = list.flights@[t];
        assert(flight.sound(settled));
        if self.level == self.height {
            self.phase = Phase::Landed;
        } else {
            let level: usize = self.level;
            if self.guards[level] {
                assert(flight.held.contains(self.at.preds@[level as int]));
                list.list.unlock_slot(self.at.preds[level]);
                self.guards[level] = false;
            }
            self.level = level + 1;
        }
        proof {
            let level = old(self).level as int;
            list.flights = Ghost(list.flights@.update(t, self.flight(flight.targets)));
            assert forall|s: Slot| #[trigger] self.held().contains(s) implies old(
                self,
            ).held().contains(s) && (level < self.height && old(self).guards@[level] ==> s
                != self.at.preds@[level]) by {
                let l = choose|l: int|
                    0 <= l < MAX_HEIGHT && #[trigger] self.guards@[l] && self.at.preds@[l] == s;
                assert(old(self).guards@[l]);
            }
            assert forall|s: Slot| #[trigger]
                old(self).held().contains(s) && !(level < self.height && old(self).guards@[level]
                    && s == self.at.preds@[level]) implies self.held().contains(s) by {
                let l = choose|l: int|
                    0 <= l < MAX_HEIGHT && #[trigger] old(self).guards@[l] && self.at.preds@[l]
                        == s;
                assert(self.guards@[l]);
            }
            assert(self.wf());
            assert(self.flight(flight.targets).sound(settled));
            assert forall|s: Slot| old(list).has_slot(s) implies (#[trigger] list.list.locked(s)
                <==> list.holds(t, s) || (old(list).list.locked(s) && !old(list).holds(t, s))) by {
                if old(list).holds(t, s) {
                    assert(old(list).list.locked(s));
                    assert(old(self).held().contains(s));
                }
            }
            list.lemma_relocked(old(list), t);
        }
    }

    /// Sets the pointer of the predecessor at the next level.
    #[verifier::rlimit(40)]
    #[verifier::spinoff_prover]
    fn link_level(&mut self, list: &mut BusyList<T>)
        requires
            total_order::<T>(),
            old(list).wf(),
            old(list).runs(old(self)),
            old(self).phase is Link,
        ensures
            final(self).stepped(final(list), old(self), old(list)),
            final(list).settled == old(list).settled,
    {
        let level: usize = self.level - 1;
        let pred: Slot = self.at.preds[level];
        let ghost t = self.ticket@;
        let ghost settled = list.settled@;
        let ghost flight = list.flights@[t];
        proof {
            assert(flight.sound(settled));
            assert(flight.owes_rightly(settled, pred, level as int));
            assert(list.holds(t, pred));
            if let Some(e) = flight.bypassed {
                assert(list.holds(t, Slot::Node(e)));
                list.lemma_own(t, Slot::Node(e));
                assert(!list.owes(t, Slot::Node(e), level as int));
            }
        }
        let target: Option<usize> = if self.inserts {
            self.node
        } else {
            match self.at.existing {
                Some(e) => list.list.slot_next(Slot::Node(e), level),
                None => None,
            }
        };
        assert(target == settled.ptr(pred, level as int));
        list.list.link_slot(pred, level, target);
        if level == 0 {
            self.phase = Phase::Mark;
        }
        self.level = level;
        proof {
            let shape = old(list).list.shape();
            assert(settled.leads_forward(pred, level as int, target));
            assert(shape.leads_forward(pred, level as int, target));
            shape.lemma_set_ptr(pred, level as int, target);
            list.flights = Ghost(list.flights@.update(t, self.flight(flight.targets)));
            assert forall|l: int| 0 <= l < level implies self.flight(flight.targets).owes_rightly(
                settled,
                #[trigger] self.at.preds@[l],
                l,
            ) by {
                assert(flight.owes_rightly(settled, self.at.preds@[l], l));
            }
            assert(self.flight(flight.targets).sound(settled));
            assert(list.list.shape().towers.len() == list.list.nodes@.len());
            assert forall|s: Slot| list.has_slot(s) implies (#[trigger] list.list.locked(s)
                <==> list.holds(t, s) || (old(list).has_slot(s) && old(list).list.locked(s)
                && !old(list).holds(t, s))) by {
                if old(list).holds(t, s) {
                    assert(old(list).list.locked(s));
                }
            }
            assert forall|s: Slot, l: int|
                list.has_slot(s) && 0 <= l < settled.height(s) && old(list).holds(
                    t,
                    s,
                ) implies #[trigger] list.list.shape().ptr(s, l) == settled.ptr(s, l) || list.owes(
                t,
                s,
                l,
            ) by {
                old(list).lemma_own(t, s);
                assert(list.list.shape().ptr(s, l) == if s == pred && l == level {
                    target
                } else {
                    shape.ptr(s, l)
                });
                if !(s == pred && l == level) {
                    assert(list.owes(t, s, l) == old(list).owes(t, s, l));
                }
            }
            assert forall|s: Slot| list.has_slot(s) && old(list).holds(t, s) implies (
            #[trigger] settled.marked(s) <==> list.list.shape().marked(s) || list.marks(t, s)) by {
                old(list).lemma_own(t, s);
                assert(list.marks(t, s) == old(list).marks(t, s));
                assert(list.list.shape().marked(s) == shape.marked(s));
            }
            if level > 0 {
                assert forall|l: int| 0 <= l < level implies list.list.shape().ptr(
                    #[trigger] self.at.preds@[l],
                    l,
                ) == self.at.succs@[l] by {
                    assert(shape.ptr(self.at.preds@[l], l) == self.at.succs@[l]);
                }
                old(list).lemma_legible_range(t);
                list.list.shape().lemma_sees_all_same(
                    settled,
                    shape,
                    settled,
                    flight.targets[0],
                    self.at.succs@[0],
                );
                list.lemma_same_lowest_level(old(list), t);
            } else {
                list.lemma_lowest_link(old(list), t, pred, target);
            }
            assert(list.follows(old(list))) by {
                assert forall|s: Slot, l: int|
                    shape.has_slot(s) && 0 <= l < shape.height(s) && !(s == pred && l
                        == level) implies #[trigger] list.list.shape().ptr(s, l) == shape.ptr(
                    s,
                    l,
                ) by {
                }
            }
            assert forall|s: Slot| #[trigger] list.marks(t, s) implies !list.list.shape().marked(
                s,
            ) by {
                assert(old(list).marks(t, s));
                assert(list.list.shape().marked(s) == shape.marked(s));
            }
            list.lemma_chronicled(old(list), t);
            list.lemma_step(old(list), t);
        }
    }

    /// Marks the existing node, if there is one.
    fn mark(&mut self, list: &mut BusyList<T>)
        requires
            total_order::<T>(),
            old(list).wf(),
            old(list).runs(old(self)),
            old(self).phase is Mark,
        ensures
            final(self).stepped(final(list), old(self), old(list)),
            final(list).settled == old(list).settled,
            !(final(self).phase is Link) && !(final(self).phase is Mark),
    {
        let ghost t = self.ticket@;
        let ghost settled = list.settled@;
        let ghost flight = list.flights@[t];
        assert(flight.sound(settled));
        if let Some(e) = self.at.existing {
            assert(list.holds(t, Slot::Node(e)));
            assert(list.list.locked(Slot::Node(e)));
            list.list.mark_node(e);
        }
        self.phase = Phase::Count;
        proof {
            let shape = old(list).list.shape();
            shape.lemma_set_marked(self.at.existing);
            list.flights = Ghost(list.flights@.update(t, self.flight(flight.targets)));
            assert(self.flight(flight.targets).sound(settled));
            assert(list.list.shape().towers.len() == list.list.nodes@.len());
            assert forall|s: Slot| list.has_slot(s) implies (#[trigger] list.list.locked(s)
                <==> list.holds(t, s) || (old(list).has_slot(s) && old(list).list.locked(s)
                && !old(list).holds(t, s))) by {
                if old(list).holds(t, s) {
                    assert(old(list).list.locked(s));
                }
            }
            assert forall|s: Slot, l: int|
                list.has_slot(s) && 0 <= l < settled.height(s) && old(list).holds(
                    t,
                    s,
                ) implies #[trigger] list.list.shape().ptr(s, l) == settled.ptr(s, l) || list.owes(
                t,
                s,
                l,
            ) by {
                old(list).lemma_own(t, s);
                assert(list.list.shape().ptr(s, l) == shape.ptr(s, l));
            }
            assert forall|s: Slot| list.has_slot(s) && old(list).holds(t, s) implies (
            #[trigger] settled.marked(s) <==> list.list.shape().marked(s) || list.marks(t, s)) by {
                old(list).lemma_own(t, s);
            }
            list.lemma_same_lowest_level(old(list), t);
            list.lemma_chronicled(old(list), t);
            list.lemma_step(old(list), t);
        }
    }

    /// Adjusts the length of the list.
    fn count(&mut self, list: &mut BusyList<T>)
        requires
            old(list).wf(),
            old(list).runs(old(self)),
            old(self).phase is Count,
        ensures
            final(self).stepped(final(list), old(self), old(list)),
            final(list).settled == old(list).settled,
            !(final(self).phase is Link) && !(final(self).phase is Mark),
    {
        let ghost t = self.ticket@;
        let ghost settled = list.settled@;
        let ghost flight = list.flights@[t];
        let ghost mut wraps: int = list.wraps@;
        assert(flight.sound(settled));
        if !self.inserts {
            proof {
                if list.list.len == 0 {
                    wraps = wraps + 1;
                }
            }
            list.list.len = list.list.len.wrapping_sub(1);
        } else if self.at.existing.is_none() {
            proof {
                if list.list.len == usize::MAX {
                    wraps = wraps - 1;
                }
            }
            list.list.len = list.list.len.wrapping_add(1);
        }
        if self.at.existing.is_some() {
            self.phase = Phase::UnlockExisting;
        } else {
            self.phase = Phase::Unlock;
            self.level = 0;
        }
        proof {
            list.wraps = Ghost(wraps);
            assert(self.held() =~= old(self).held());
            assert(self.flight(flight.targets).held == flight.held);
            list.flights = Ghost(list.flights@.update(t, self.flight(flight.targets)));
            assert(self.flight(flight.targets).sound(settled));
            let m = usize::MAX + 1;
            let w = old(list).wraps@;
            assert((w + 1) * m == w * m + m) by (nonlinear_arith);
            assert((w - 1) * m == w * m - m) by (nonlinear_arith);
            assert forall|s: Slot| list.has_slot(s) implies (#[trigger] list.list.locked(s)
                <==> list.holds(t, s) || (old(list).has_slot(s) && old(list).list.locked(s)
                && !old(list).holds(t, s))) by {
                assert(list.list.locked(s) == old(list).list.locked(s));
                if old(list).holds(t, s) {
                    assert(old(list).list.locked(s));
                }
            }
            assert(list.list.shape() == old(list).list.shape());
            assert forall|s: Slot, l: int|
                list.has_slot(s) && 0 <= l < settled.height(s) && old(list).holds(
                    t,
                    s,
                ) implies #[trigger] list.list.shape().ptr(s, l) == settled.ptr(s, l) || list.owes(
                t,
                s,
                l,
            ) by {
                old(list).lemma_own(t, s);
            }
            assert forall|s: Slot| list.has_slot(s) && old(list).holds(t, s) implies (
            #[trigger] settled.marked(s) <==> list.list.shape().marked(s) || list.marks(t, s)) by {
                old(list).lemma_own(t, s);
            }
            assert forall|i: int|
                0 <= i < list.flights@.len() && (
                #[trigger] list.flights@[i]).left > 0 implies list.flights@[i].legible(
                list.list.shape(),
                settled,
            ) by {
                assert(old(list).flights@[i].legible(old(list).list.shape(), settled));
            }
            list.lemma_chronicled(old(list), t);
            list.lemma_step(old(list), t);
        }
    }

    /// Allocates the new node. From now on the insertion counts.
    #[verifier::rlimit(40)]
    #[verifier::spinoff_prover]
    fn decide_insert(&mut self, list: &mut BusyList<T>)
        requires
            total_order::<T>(),
            old(list).wf(),
            old(list).runs(old(self)),
            old(self).phase is Decide,
            old(self).inserts,
        ensures
            final(self).stepped(final(list), old(self), old(list)),
            final(self).node is Some,
            final(list).history@ == old(list).history@.push(old(self).decision()),
            final(list).takes_only(old(list), old(self).pivot@),
            final(list)@ == with_element(old(list)@, old(self).pivot@),
            final(list).settled@.heights() == heights_with(
                old(list)@,
                old(list).settled@.heights(),
                old(self).pivot@,
                old(self).height as nat,
            ),
    {
        let ghost t = self.ticket@;
        let ghost settled = list.settled@;
        let ghost shape = list.list.shape();
        let ghost flight = list.flights@[t];
        let ghost height = self.height as int;
        let ghost pivot = self.pivot@;
        proof {
            assert(flight.sound(settled));
            assert forall|l: int| 0 <= l < height implies settled.valid_at(&self.at, l) by {
                assert(flight.held.contains(self.at.preds@[l]));
            }
            settled.lemma_validated::<T>(&self.at, &pivot, height);
            if let Some(e) = self.at.existing {
                assert(list.holds(t, Slot::Node(e)));
                list.lemma_own(t, Slot::Node(e));
            }
        }
        let pointers: Vec<Option<usize>> = list.list.new_pointers(&self.at, self.height);
        let ghost tower = settled.new_tower(&self.at, height, pivot);
        assert(pointers@ =~= tower.pointers);
        let element: T = match self.element.take() {
            Some(element) => element,
            None => {
                return;
            },
        };
        let id: usize = list.list.alloc_node(element, pointers);
        let ghost allocated = list.list;
        self.node = Some(id);
        self.phase = Phase::Link;
        self.level = self.height;
        proof {
            let next = settled.inserted(&self.at, height, pivot);
            let targets = settled.to_new_tower(height);
            settled.lemma_inserted(&self.at, height, pivot);
            assert forall|l: int| 0 <= l < height implies settled.has_slot(
                #[trigger] self.at.preds@[l],
            ) && l < settled.height(self.at.preds@[l]) by {
                assert(settled.describes_level(self.at.preds@[l], self.at.succs@[l], &pivot, l));
            }
            settled.lemma_inserted_parts(&self.at, height, pivot);
            assert forall|l: int| 0 <= l < tower.pointers.len() implies shape.would_precede(
                tower.element,
                l,
                #[trigger] tower.pointers[l],
            ) by {
                settled.lemma_new_tower(&self.at, height, pivot, l);
            }
            shape.lemma_push(tower);
            shape.push(tower).lemma_with_chain(next.chain);
            list.list.chain = Ghost(next.chain);
            list.settled = Ghost(next);
            list.flights = Ghost(list.flights@.update(t, self.flight(targets)));
            assert(list.list.shape() == shape.push(tower).with_chain(next.chain));
            assert(list.list.shape().towers.len() == list.list.nodes@.len());
            assert(self.held() =~= old(self).held());
            let mine = self.flight(targets);
            assert(mine.held == flight.held);
            assert forall|l: int| 0 <= l < height implies mine.owes_rightly(
                next,
                #[trigger] self.at.preds@[l],
                l,
            ) by {
                assert(next.ptr(self.at.preds@[l], l) == Some(id));
                assert(next.height(self.at.preds@[l]) == settled.height(self.at.preds@[l]));
            }
            if let Some(e) = self.at.existing {
                assert(next.marked(Slot::Node(e)));
                assert(has_key::<T, T>(settled.towers[e as int].element, &pivot));
                lemma_equal_keys::<T>(&settled.towers[e as int].element, &pivot, &pivot);
            }
            assert(mine.sound(next));
            assert forall|s: Slot| old(list).has_slot(s) && !old(list).holds(t, s) implies {
                &&& next.pointers(s) == #[trigger] settled.pointers(s)
                &&& next.marked(s) == settled.marked(s)
                &&& list.list.shape().pointers(s) == shape.pointers(s)
                &&& list.list.shape().marked(s) == shape.marked(s)
            } by {
                assert forall|l: int| 0 <= l < settled.height(s) implies #[trigger] next.ptr(s, l)
                    == settled.ptr(s, l) by {
                    if l < height {
                        assert(flight.held.contains(self.at.preds@[l]));
                    }
                }
                assert(next.height(s) == settled.height(s));
                assert(next.pointers(s) =~= settled.pointers(s));
            }
            assert forall|s: Slot| list.has_slot(s) implies (#[trigger] list.list.locked(s)
                <==> list.holds(t, s) || (old(list).has_slot(s) && old(list).list.locked(s)
                && !old(list).holds(t, s))) by {
                assert(list.list.locked(s) == allocated.locked(s));
                if s == Slot::Node(id) {
                    assert(!flight.held.contains(s));
                } else {
                    assert(old(list).has_slot(s));
                    if old(list).holds(t, s) {
                        assert(old(list).list.locked(s));
                    }
                }
            }
            assert forall|s: Slot, l: int|
                list.has_slot(s) && 0 <= l < next.height(s) && (old(list).holds(t, s) || !old(
                    list,
                ).has_slot(s)) implies #[trigger] list.list.shape().ptr(s, l) == next.ptr(s, l)
                || list.owes(t, s, l) by {
                if old(list).has_slot(s) {
                    old(list).lemma_own(t, s);
                    assert(next.height(s) == settled.height(s));
                    assert(shape.ptr(s, l) == settled.ptr(s, l));
                    assert(list.list.shape().ptr(s, l) == shape.ptr(s, l));
                }
            }
            assert forall|s: Slot|
                list.has_slot(s) && (old(list).holds(t, s) || !old(list).has_slot(s)) implies (
            #[trigger] next.marked(s) <==> list.list.shape().marked(s) || list.marks(t, s)) by {
                if old(list).has_slot(s) {
                    old(list).lemma_own(t, s);
                    assert(list.list.shape().marked(s) == shape.marked(s));
                }
            }
            let d = Decision { ticket: t, inserts: true, subject: pivot };
            list.history = Ghost(list.history@.push(d));
            list.lemma_recorded(old(list), t, d);
            let after = list.list.shape();
            assert forall|l: int| 0 <= l < height implies after.ptr(#[trigger] self.at.preds@[l], l)
                == self.at.succs@[l] by {
                let s = self.at.preds@[l];
                old(list).lemma_own(t, s);
                assert(shape.ptr(s, l) == settled.ptr(s, l));
                assert(after.ptr(s, l) == shape.ptr(s, l));
            }
            assert(after.sees_all(next, Some(id), self.at.succs@[0])) by {
                let new = Slot::Node(id);
                assert(after.ptr(new, 0) == tower.pointers[0]);
                assert(self.at.preds@[0] == settled.slot_at(
                    last_before(settled.heights(), rank::<T, T>(settled.elements(), &pivot), 0),
                ));
                assert forall|e: usize|
                    e < next.towers.len() && !next.marked(Slot::Node(e))
                        && #[trigger] after.leads_to(self.at.succs@[0], e) implies after.leads_to(
                    Some(id),
                    e,
                ) by {
                    let first = Slot::Node(self.at.succs@[0]->0);
                    let n = choose|n: nat| #[trigger]
                        after.walk(first, n) == Some(Slot::Node(e));
                    if let Some(x) = self.at.existing {
                        assert(self.at.succs@[0] == Some(x));
                        assert(n > 0);
                        assert(after.ptr(first, 0) == shape.ptr(first, 0));
                        assert(after.walk(new, n) == Some(Slot::Node(e)));
                    } else {
                        assert(after.walk(new, n + 1) == after.walk(first, n));
                    }
                }
            }
            list.lemma_same_lowest_level(old(list), t);
            list.lemma_step(old(list), t);
            assert(list.runs(self));
        }
    }

    /// From now on the removal counts.
    #[verifier::rlimit(40)]
    #[verifier::spinoff_prover]
    fn decide_remove(&mut self, list: &mut BusyList<T>)
        requires
            total_order::<T>(),
            old(list).wf(),
            old(list).runs(old(self)),
            old(self).phase is Decide,
            !old(self).inserts,
        ensures
            final(self).stepped(final(list), old(self), old(list)),
            final(self).node is Some,
            final(list).history@ == old(list).history@.push(old(self).decision()),
            final(list).takes_only(old(list), old(self).pivot@),
            lookup::<T, T>(old(list)@, &old(self).pivot@) == Some(old(self).pivot@),
            final(list)@ == without_key::<T, T>(old(list)@, &old(self).pivot@),
            final(list).settled@.heights() == heights_without::<T, T>(
                old(list)@,
                old(list).settled@.heights(),
                &old(self).pivot@,
            ),
    {
        let ghost t = self.ticket@;
        self.node = self.at.existing;
        self.phase = Phase::Link;
        self.level = self.height;
        proof {
            let settled = list.settled@;
            let shape = list.list.shape();
            let flight = list.flights@[t];
            let height = self.height as int;
            let pivot = self.pivot@;
            let e = self.at.existing->0;
            let gone = Slot::Node(e);
            assert(flight.sound(settled));
            assert forall|l: int| 0 <= l < height implies settled.valid_at(&self.at, l) by {
                assert(flight.held.contains(self.at.preds@[l]));
            }
            settled.lemma_validated::<T>(&self.at, &pivot, height);
            let k = rank::<T, T>(settled.elements(), &pivot);
            assert(settled.slot_at(k) == gone);
            settled.lemma_removed(&self.at, k);
            settled.lemma_removed_parts(&self.at, k);
            settled.lemma_bypass_all(&self.at, k);
            let next = settled.removed(&self.at, k);
            let targets = settled.pointers(gone);
            shape.lemma_with_chain(next.chain);
            list.list.chain = Ghost(next.chain);
            list.settled = Ghost(next);
            list.flights = Ghost(list.flights@.update(t, self.flight(targets)));
            assert(list.list.shape() == shape.with_chain(next.chain));
            assert(self.held() =~= old(self).held());
            let mine = self.flight(targets);
            assert(mine.held == flight.held);
            assert(mine.held.contains(gone));
            assert forall|l: int| 0 <= l < height implies mine.owes_rightly(
                next,
                #[trigger] self.at.preds@[l],
                l,
            ) by {
                let s = self.at.preds@[l];
                assert(flight.held.contains(s));
                assert(settled.describes_level(s, self.at.succs@[l], &pivot, l));
                assert(next.ptr(s, l) == settled.ptr(gone, l));
                assert(next.ptr(gone, l) == settled.ptr(gone, l));
                assert(next.height(s) == settled.height(s));
                assert(next.height(gone) == settled.height(gone));
            }
            assert(next.marked(gone));
            assert(has_key::<T, T>(pivot, &settled.towers[e as int].element));
            assert(mine.sound(next));
            assert forall|s: Slot| old(list).has_slot(s) && !old(list).holds(t, s) implies {
                &&& next.pointers(s) == #[trigger] settled.pointers(s)
                &&& next.marked(s) == settled.marked(s)
                &&& list.list.shape().pointers(s) == shape.pointers(s)
                &&& list.list.shape().marked(s) == shape.marked(s)
            } by {
                assert forall|l: int| 0 <= l < settled.height(s) implies #[trigger] next.ptr(s, l)
                    == settled.ptr(s, l) by {
                    if l < height {
                        assert(flight.held.contains(self.at.preds@[l]));
                    }
                }
                assert(next.height(s) == settled.height(s));
                assert(next.pointers(s) =~= settled.pointers(s));
            }
            assert forall|s: Slot| list.has_slot(s) implies (#[trigger] list.list.locked(s)
                <==> list.holds(t, s) || (old(list).has_slot(s) && old(list).list.locked(s)
                && !old(list).holds(t, s))) by {
                assert(list.list.locked(s) == old(list).list.locked(s));
                if old(list).holds(t, s) {
                    assert(old(list).list.locked(s));
                }
            }
            assert forall|s: Slot, l: int|
                list.has_slot(s) && 0 <= l < next.height(s) && old(list).holds(
                    t,
                    s,
                ) implies #[trigger] list.list.shape().ptr(s, l) == next.ptr(s, l) || list.owes(
                t,
                s,
                l,
            ) by {
                old(list).lemma_own(t, s);
                assert(next.height(s) == settled.height(s));
                assert(shape.ptr(s, l) == settled.ptr(s, l));
                assert(list.list.shape().ptr(s, l) == shape.ptr(s, l));
            }
            assert forall|s: Slot| list.has_slot(s) && old(list).holds(t, s) implies (
            #[trigger] next.marked(s) <==> list.list.shape().marked(s) || list.marks(t, s)) by {
                old(list).lemma_own(t, s);
                assert(list.list.shape().marked(s) == shape.marked(s));
            }
            let d = Decision { ticket: t, inserts: false, subject: pivot };
            list.history = Ghost(list.history@.push(d));
            list.lemma_recorded(old(list), t, d);
            let after = list.list.shape();
            assert forall|l: int| 0 <= l < height implies after.ptr(#[trigger] self.at.preds@[l], l)
                == self.at.succs@[l] by {
                let s = self.at.preds@[l];
                assert(flight.held.contains(s));
                old(list).lemma_own(t, s);
                assert(settled.describes_level(s, self.at.succs@[l], &pivot, l));
                assert(shape.ptr(s, l) == settled.ptr(s, l));
                assert(after.ptr(s, l) == shape.ptr(s, l));
            }
            assert(after.sees_all(next, targets[0], self.at.succs@[0])) by {
                assert(self.at.preds@[0] == settled.slot_at(
                    last_before(settled.heights(), k, 0),
                ));
                assert(self.at.succs@[0] == Some(e));
                old(list).lemma_own(t, gone);
                assert(shape.ptr(gone, 0) == targets[0]);
                assert(after.ptr(gone, 0) == shape.ptr(gone, 0));
                assert forall|x: usize|
                    x < next.towers.len() && !next.marked(Slot::Node(x))
                        && #[trigger] after.leads_to(self.at.succs@[0], x) implies after.leads_to(
                    targets[0],
                    x,
                ) by {
                    let n = choose|n: nat| #[trigger] after.walk(gone, n) == Some(Slot::Node(x));
                    assert(n > 0);
                    assert(after.walk(Slot::Node(targets[0]->0), (n - 1) as nat) == Some(
                        Slot::Node(x),
                    ));
                }
            }
            assert forall|s: Slot| #[trigger] list.marks(t, s) implies !after.marked(s) by {
                assert(s == gone);
                assert(!settled.marked(gone));
            }
            list.lemma_same_lowest_level(old(list), t);
            list.lemma_step(old(list), t);
            assert(list.runs(self));
        }
    }

    /// Begins an insertion at a position that was searched for the element. The draw
    /// decides how high a new tower is.
    pub fn insert(list: &mut BusyList<T>, element: T, at: Position, draw: u32) -> (change: Self)
        requires
            total_order::<T>(),
            old(list).wf(),
            old(list).inner().places::<T>(&at, &element),
        ensures
            final(list).begun(old(list), &change),
            change.begins_at(&at),
            change.inserts(),
            change.subject() == element,
            change.height() == old(list).inner().tower_at(&at, draw),
    {
        let height: usize = match at.existing {
            Some(e) => {
                proof {
                    list.list.lemma_places::<T>(&at, &element);
                }
                list.list.node_height(e)
            },
            None => height_of(draw),
        };
        let ghost pivot = element;
        let ghost ticket = list.flights@.len() as int;
        let change = Change {
            element: Some(element),
            inserts: true,
            at,
            height,
            level: height,
            guards: [false;MAX_HEIGHT],
            guards_existing: false,
            phase: Phase::Lock,
            node: None,
            pivot: Ghost(pivot),
            ticket: Ghost(ticket),
        };
        proof {
            list.list.lemma_places::<T>(&at, &element);
            list.list.lemma_tower_at(&at, draw);
            list.settled@.lemma_describes_extends::<T>(list.list.shape(), &at, &pivot);
            list.flights = Ghost(list.flights@.push(change.flight(Seq::empty())));
            list.lemma_begun(old(list), &change);
        }
        change
    }

    /// Begins the removal of the entry that was found at the position of a key. There
    /// is nothing to remove if no entry was found, or if that entry has been removed
    /// since.
    pub fn remove<Q>(list: &mut BusyList<T>, key: &Q, at: Position) -> (change: Option<Self>) where
        T: BorrowKey<Q>,
        Q: Ord + ?Sized,

        requires
            key_order::<T, Q>(),
            old(list).wf(),
            old(list).inner().places(&at, key),
        ensures
            change is None <==> !at.found() || old(list).inner().gone(&at),
            match change {
                None => *final(list) == *old(list),
                Some(change) => {
                    &&& final(list).begun(old(list), &change)
                    &&& change.begins_at(&at)
                    &&& !change.inserts()
                    &&& has_key(change.subject(), key)
                },
            },
    {
        proof {
            list.list.lemma_places(&at, key);
            list.list.lemma_tower_at(&at, 0);
        }
        let e: usize = match at.existing {
            Some(e) => e,
            None => {
                return None;
            },
        };
        if list.list.slot_is_marked(Slot::Node(e)) {
            return None;
        }
        let height: usize = list.list.node_height(e);
        let ghost pivot = list.settled@.towers[e as int].element;
        let ghost ticket = list.flights@.len() as int;
        let change = Change {
            element: None,
            inserts: false,
            at,
            height,
            level: height,
            guards: [false;MAX_HEIGHT],
            guards_existing: false,
            phase: Phase::Lock,
            node: None,
            pivot: Ghost(pivot),
            ticket: Ghost(ticket),
        };
        proof {
            list.settled@.lemma_describes_extends(list.list.shape(), &at, key);
            list.settled@.lemma_describes_existing(&at, key);
            list.flights = Ghost(list.flights@.push(change.flight(Seq::empty())));
            list.lemma_begun(old(list), &change);
        }
        Some(change)
    }

    /// The change takes place at the position.
    pub closed spec fn begins_at(&self, at: &Position) -> bool {
        self.at == *at
    }

    /// The height of the tower that is put in or taken out.
    pub closed spec fn height(&self) -> nat {
        self.height as nat
    }

    /// Makes the next step, if that does not need a lock that another change holds.
    ///
    /// The step that decides is the one at which the change happens: the contents
    /// of the list change by that step as they would by the whole change.
    pub fn step(&mut self, list: &mut BusyList<T>) -> (outcome: Outcome)
        requires
            total_order::<T>(),
            old(list).wf(),
            old(list).runs(old(self)),
            !old(self).landed(),
        ensures
            outcome is Waiting <==> old(list).blocked(old(self).ticket()),
            outcome is Waiting ==> *final(self) == *old(self) && *final(list) == *old(list),
            final(list).wf(),
            final(list).runs(final(self)),
            final(list).advanced(old(list), old(self).ticket()),
            final(self).ticket() == old(self).ticket(),
            final(self).inserts() == old(self).inserts(),
            final(self).subject() == old(self).subject(),
            final(self).height() == old(self).height(),
            final(self).decision() == old(self).decision(),
            outcome is Stepped ==> final(self).steps_left() < old(self).steps_left(),
            final(self).decided() <==> old(self).decided() || old(self).deciding(),
            final(self).given_up() <==> old(self).given_up() || (outcome is Stepped && old(
                list,
            ).refuses(old(self))),
            final(list).history() == if old(self).deciding() {
                old(list).history().push(old(self).decision())
            } else {
                old(list).history()
            },
            forall|e: int|
                #![trigger final(list).keeps(e)]
                #![trigger old(list).keeps(e)]
                old(list).keeps(e) && !(old(self).deciding() && has_key::<T, T>(
                    old(self).subject(),
                    &old(list).inner().element_of(e),
                )) ==> final(list).keeps(e),
            !old(self).deciding() ==> final(list).undisturbed(old(list)),
            !old(self).deciding() && old(list).still() ==> final(list).still(),
            !old(self).deciding() ==> final(list).current(final(self)) == old(list).current(
                old(self),
            ),
            !old(self).deciding() ==> forall|c: &Change<T>| #[trigger]
                final(list).current(c) == old(list).current(c),
            if !old(self).deciding() {
                &&& final(list)@ == old(list)@
                &&& final(list).towers() == old(list).towers()
            } else if old(self).inserts() {
                &&& final(list)@ == with_element(old(list)@, old(self).subject())
                &&& final(list).towers() == heights_with(
                    old(list)@,
                    old(list).towers(),
                    old(self).subject(),
                    old(self).height(),
                )
            } else {
                &&& lookup::<T, T>(old(list)@, &old(self).subject()) == Some(old(self).subject())
                &&& final(list)@ == without_key::<T, T>(old(list)@, &old(self).subject())
                &&& final(list).towers() == heights_without::<T, T>(
                    old(list)@,
                    old(list).towers(),
                    &old(self).subject(),
                )
            },
    {
        let outcome: Outcome = match self.phase {
            Phase::Lock => self.lock_level(list),
            Phase::LockExisting => self.lock_existing(list),
            Phase::Decide => {
                if self.inserts {
                    self.decide_insert(list);
                } else {
                    self.decide_remove(list);
                }
                Outcome::Stepped
            },
            Phase::Link => {
                self.link_level(list);
                Outcome::Stepped
            },
            Phase::Mark => {
                self.mark(list);
                Outcome::Stepped
            },
            Phase::Count => {
                self.count(list);
                Outcome::Stepped
            },
            Phase::UnlockExisting => {
                self.unlock_existing(list);
                Outcome::Stepped
            },
            Phase::Unlock => {
                self.unlock_level(list);
                Outcome::Stepped
            },
            Phase::Landed => Outcome::Stepped,
        };
        proof {
            if outcome is Waiting {
                assert(list.flights@ =~= old(list).flights@.update(
                    self.ticket@,
                    list.flights@[self.ticket@],
                ));
            }
            if old(self).deciding() {
                list.lemma_accounts(old(list), Some(old(self).decision()));
            } else {
                list.lemma_accounts(old(list), None);
            }
            list.lemma_advanced(old(list), self.ticket@);
            if !old(self).deciding() && old(list).still() {
                let t = self.ticket@;
                assert(old(list).has_written(t));
                assert(list.has_written(t));
                assert forall|i: int| 0 <= i < list.tickets() implies #[trigger] list.has_written(
                    i,
                ) by {
                    assert(i != t ==> old(list).has_written(i));
                }
            }
        }
        outcome
    }

    /// Gives up a change that waits for a lock, so that it lets go of the locks that it
    /// holds in its next steps.
    ///
    /// Changes do not wait for each other in a circle, but whoever steps them may have
    /// stopped. A change that has waited too long need not wait for that.
    pub fn let_go(&mut self, list: &mut BusyList<T>)
        requires
            old(list).wf(),
            old(list).runs(old(self)),
            old(list).blocked(old(self).ticket()),
        ensures
            final(list).wf(),
            final(list).runs(final(self)),
            final(list).advanced(old(list), old(self).ticket()),
            final(list).undisturbed(old(list)),
            old(list).still() ==> final(list).still(),
            final(list)@ == old(list)@,
            final(list).towers() == old(list).towers(),
            final(list).history() == old(list).history(),
            !final(list).blocked(old(self).ticket()),
            final(self).given_up(),
            !final(self).decided(),
            final(self).ticket() == old(self).ticket(),
            final(self).inserts() == old(self).inserts(),
            final(self).subject() == old(self).subject(),
            final(self).height() == old(self).height(),
            final(self).decision() == old(self).decision(),
            final(self).steps_left() < old(self).steps_left(),
    {
        let ghost t = self.ticket@;
        let ghost flight = list.flights@[t];
        assert(flight.sound(list.settled@));
        self.phase = Phase::Unlock;
        self.level = 0;
        proof {
            list.flights = Ghost(list.flights@.update(t, self.flight(flight.targets)));
            assert(self.held() =~= old(self).held());
            assert(self.flight(flight.targets).held == flight.held);
            assert(self.flight(flight.targets).sound(list.settled@));
            assert forall|s: Slot| old(list).has_slot(s) implies (#[trigger] list.list.locked(s)
                <==> list.holds(t, s) || (old(list).list.locked(s) && !old(list).holds(t, s))) by {
                if old(list).holds(t, s) {
                    assert(old(list).list.locked(s));
                }
            }
            list.lemma_relocked(old(list), t);
            list.lemma_accounts(old(list), None);
            list.lemma_advanced(old(list), t);
        }
    }

    /// Whether the change has no more steps to make.
    pub fn is_landed(&self) -> (landed: bool)
        ensures
            landed == self.landed(),
    {
        matches!(self.phase, Phase::Landed)
    }

    /// Whether the change has been decided. One that has landed without that was
    /// given up because its position was stale.
    pub fn is_decided(&self) -> (decided: bool)
        ensures
            decided == self.decided(),
    {
        self.node.is_some()
    }

    /// Gives back the element of an insertion that was not decided.
    pub fn into_element(self, list: &BusyList<T>) -> (element: Option<T>)
        requires
            list.runs(&self),
        ensures
            element == if self.inserts() && !self.decided() {
                Some(self.subject())
            } else {
                None
            },
    {
        self.element
    }
}

impl<T: Ord> BusyList<T> {
    /// The skiplist as it is in memory.
    pub closed spec fn inner(&self) -> SkipList<T> {
        self.list
    }

    /// The heights of the towers that carry the elements, in order.
    pub closed spec fn towers(&self) -> Seq<nat> {
        self.settled@.heights()
    }

    /// How many changes have been begun. Their tickets are the numbers below this
    /// one.
    pub closed spec fn tickets(&self) -> int {
        self.flights@.len() as int
    }

    /// The change with the ticket has landed.
    pub closed spec fn has_landed(&self, ticket: int) -> bool {
        self.flights@[ticket].landed()
    }

    /// The change with the ticket holds a lock.
    pub closed spec fn holds_lock(&self, ticket: int) -> bool {
        exists|s: Slot| self.holds(ticket, s)
    }

    /// The changes with the tickets hold the same lock.
    pub closed spec fn share_lock(&self, one: int, other: int) -> bool {
        exists|s: Slot| #[trigger] self.holds(one, s) && self.holds(other, s)
    }

    /// The change with the ticket needs a lock that is held.
    pub closed spec fn blocked(&self, ticket: int) -> bool {
        &&& 0 <= ticket < self.flights@.len()
        &&& self.flights@[ticket].wants matches Some(s) && self.list.locked(s)
    }

    /// The position of a change is current: at every level of its tower, the
    /// predecessor is in the list and followed by the successor.
    pub closed spec fn current(&self, change: &Change<T>) -> bool {
        self.settled@.validated(&change.at, change.height as int)
    }

    /// The next step of a change finds that its position is not current at a level.
    pub closed spec fn refuses(&self, change: &Change<T>) -> bool {
        change.phase is Lock && !self.settled@.valid_at(&change.at, change.level - 1)
    }

    /// The elements that the list had when it was opened.
    pub closed spec fn origin(&self) -> Seq<T> {
        self.origin@
    }

    /// The changes that have been decided since, in order.
    pub closed spec fn history(&self) -> Seq<Decision<T>> {
        self.history@
    }

    /// Nothing has been decided since the list was another one.
    pub closed spec fn undisturbed(&self, before: &Self) -> bool {
        self.settled@ == before.settled@
    }

    /// Walks that come to a node that is still in the list still come to it. What the
    /// pointers newly lead to is in the list.
    pub closed spec fn still_shows(&self, before: &Self) -> bool {
        self.keeps_view(before) && self.follows(before)
    }

    /// The node with the number is in the list, as far as has been decided.
    pub closed spec fn keeps(&self, entry: int) -> bool {
        0 <= entry < self.settled@.towers.len() && !self.settled@.marked(
            Slot::Node(entry as usize),
        )
    }

    /// The change with the ticket has no pointer and no mark left to write.
    pub closed spec fn has_written(&self, ticket: int) -> bool {
        self.flights@[ticket].left == 0 && self.flights@[ticket].mark is None
    }

    /// The change with the ticket has nothing to add to the length of the list, or has done
    /// so.
    pub closed spec fn has_counted(&self, ticket: int) -> bool {
        self.flights@[ticket].count == 0
    }

    /// How many changes still have to add something to the length of the list.
    pub closed spec fn uncounted(&self) -> nat {
        uncounted(self.flights@)
    }

    /// What has been decided since an earlier moment, in order.
    pub closed spec fn since(&self, start: &Self) -> Seq<Decision<T>> {
        self.history@.skip(start.history@.len() as int)
    }

    /// A change of what compares equal to the element is in the history, at or behind a
    /// place.
    pub open spec fn decided_on(&self, place: int, element: T) -> bool {
        exists|i: int|
            place <= i < self.history().len() && has_key::<T, T>(
                (#[trigger] self.history()[i]).subject,
                &element,
            )
    }

    /// The list came from another one by changes that its history tells. A node that is not
    /// in the list any more has been taken out by one of them, and what was removed stays
    /// removed.
    pub open spec fn accounts_for(&self, before: &Self) -> bool {
        &&& before.history().len() <= self.history().len()
        &&& before.history() == self.history().take(before.history().len() as int)
        &&& forall|e: int|
            #![trigger self.keeps(e)]
            #![trigger before.keeps(e)]
            before.keeps(e) && !self.keeps(e) ==> self.decided_on(
                before.history().len() as int,
                before.inner().element_of(e),
            )
        &&& before.inner().entries() <= self.inner().entries()
        &&& forall|e: int|
            #![trigger self.keeps(e)]
            #![trigger before.keeps(e)]
            0 <= e < before.inner().entries() && self.keeps(e) ==> before.keeps(e)
        &&& forall|e: int|
            0 <= e < before.inner().entries() ==> #[trigger] self.inner().element_of(e)
                == before.inner().element_of(e)
    }

    /// The list came from another one by one step. A removed node leads on where it did.
    pub open spec fn leads_on(&self, before: &Self) -> bool {
        forall|e: int|
            0 <= e < before.inner().entries() && !self.keeps(e)
                ==> #[trigger] self.inner().entry_after(e) == before.inner().entry_after(e)
    }

    /// All that has been decided is written. Changes that have not been decided may be
    /// under way.
    pub open spec fn still(&self) -> bool {
        forall|i: int| 0 <= i < self.tickets() ==> #[trigger] self.has_written(i)
    }

    /// No change is under way.
    pub open spec fn quiet(&self) -> bool {
        forall|i: int| 0 <= i < self.tickets() ==> #[trigger] self.has_landed(i)
    }

    /// The list came from another one by a step of the change with the ticket. All
    /// other changes are where they were.
    pub open spec fn advanced(&self, before: &Self, ticket: int) -> bool {
        &&& self.inner().grown_from(&before.inner())
        &&& self.still_shows(before)
        &&& self.accounts_for(before)
        &&& self.leads_on(before)
        &&& self.origin() == before.origin()
        &&& self.tickets() == before.tickets()
        &&& forall|i: int|
            0 <= i < self.tickets() && i != ticket ==> #[trigger] self.has_landed(i)
                == before.has_landed(i)
        &&& forall|i: int|
            0 <= i < self.tickets() && i != ticket ==> #[trigger] self.has_written(i)
                == before.has_written(i)
        &&& forall|i: int|
            0 <= i < self.tickets() && i != ticket ==> #[trigger] self.has_counted(i)
                == before.has_counted(i)
        &&& forall|c: &Change<T>|
            before.runs(c) && c.ticket() != ticket ==> #[trigger] self.runs(c)
    }

    /// The list came from another one by the beginning of a change.
    pub open spec fn begun(&self, before: &Self, change: &Change<T>) -> bool {
        &&& self.wf()
        &&& self@ == before@
        &&& self.towers() == before.towers()
        &&& self.inner() == before.inner()
        &&& self.undisturbed(before)
        &&& self.still_shows(before)
        &&& self.accounts_for(before)
        &&& self.leads_on(before)
        &&& self.origin() == before.origin()
        &&& self.history() == before.history()
        &&& self.still() == before.still()
        &&& change.ticket() == before.tickets()
        &&& self.tickets() == before.tickets() + 1
        &&& self.runs(change)
        &&& !change.deciding()
        &&& !change.decided()
        &&& !change.given_up()
        &&& !change.landed()
        &&& forall|i: int|
            0 <= i < before.tickets() ==> #[trigger] self.has_landed(i) == before.has_landed(i)
        &&& forall|i: int|
            0 <= i < before.tickets() ==> #[trigger] self.has_counted(i) == before.has_counted(i)
        &&& forall|c: &Change<T>|
            before.runs(c) ==> c.ticket() != change.ticket() && #[trigger] self.runs(c)
        &&& forall|c: &Change<T>| #[trigger] self.current(c) == before.current(c)
    }

    proof fn lemma_advanced(&self, before: &Self, t: int)
        requires
            0 <= t < before.flights@.len(),
            self.list.shape().grown_from(before.list.shape()),
            self.keeps_view(before),
            self.follows(before),
            self.accounts_for(before),
            self.leads_on(before),
            self.origin == before.origin,
            self.flights@ == before.flights@.update(t, self.flights@[t]),
        ensures
            self.advanced(before, t),
    {
        self.list.lemma_grown_from(&before.list);
        assert forall|c: &Change<T>|
            before.runs(c) && c.ticket() != t implies #[trigger] self.runs(c) by {
            assert(self.flights@[c.ticket@] == before.flights@[c.ticket@]);
        }
    }

    proof fn lemma_begun(&self, before: &Self, change: &Change<T>)
        requires
            total_order::<T>(),
            before.wf(),
            self.list == before.list,
            self.settled == before.settled,
            self.wraps == before.wraps,
            self.origin == before.origin,
            self.history == before.history,
            self.flights@ == before.flights@.push(change.flight(Seq::empty())),
            change.ticket@ == before.flights@.len(),
            change.wf(),
            change.phase is Lock,
            change.level == change.height,
            forall|l: int| 0 <= l < MAX_HEIGHT ==> !#[trigger] change.guards@[l],
            self.settled@.describes::<T>(&change.at, &change.pivot@),
            change.at.existing matches Some(e) ==> change.height == self.settled@.height(
                Slot::Node(e),
            ),
            !change.inserts ==> (change.at.existing matches Some(e)
                && self.settled@.towers[e as int].element == change.pivot@),
        ensures
            self.begun(before, change),
    {
        let flight = change.flight(Seq::empty());
        let t = before.flights@.len() as int;
        assert(flight.held =~= Set::<Slot>::empty());
        change.lemma_wants(self.settled@);
        assert(flight.sound(self.settled@));
        assert(forall|i: int, s: Slot| #[trigger] self.holds(i, s) == before.holds(i, s));
        assert(forall|i: int, s: Slot, l: int| #[trigger]
            self.owes(i, s, l) == before.owes(i, s, l));
        assert(forall|i: int, s: Slot| #[trigger] self.marks(i, s) == before.marks(i, s));
        assert forall|i: int| 0 <= i < self.flights@.len() implies (
        #[trigger] self.flights@[i]).sound(self.settled@) by {
            if i < t {
                assert(before.flights@[i].sound(before.settled@));
            }
        }
        assert forall|i: int, j: int, s: Slot| #[trigger]
            self.holds(i, s) && #[trigger] self.holds(j, s) implies i == j by {
            assert(before.holds(i, s) && before.holds(j, s));
        }
        assert forall|s: Slot| self.has_slot(s) implies (#[trigger] self.list.locked(s)
            <==> exists|i: int| #[trigger] self.holds(i, s)) by {
            assert(before.list.locked(s) <==> exists|i: int| #[trigger] before.holds(i, s));
            if exists|i: int| #[trigger] before.holds(i, s) {
                let i = choose|i: int| #[trigger] before.holds(i, s);
                assert(self.holds(i, s));
            }
        }
        assert forall|s: Slot, l: int|
            self.has_slot(s) && 0 <= l < self.settled@.height(
                s,
            ) implies #[trigger] self.list.shape().ptr(s, l) == self.settled@.ptr(s, l)
            || exists|i: int| #[trigger] self.owes(i, s, l) by {
            if before.list.shape().ptr(s, l) != before.settled@.ptr(s, l) {
                let i = choose|i: int| #[trigger] before.owes(i, s, l);
                assert(self.owes(i, s, l));
            }
        }
        assert forall|s: Slot| self.has_slot(s) implies (#[trigger] self.settled@.marked(s)
            <==> self.list.shape().marked(s) || exists|i: int| #[trigger] self.marks(i, s)) by {
            assert(before.settled@.marked(s) <==> before.list.shape().marked(s) || exists|i: int|
                #[trigger] before.marks(i, s));
            if exists|i: int| #[trigger] before.marks(i, s) {
                let i = choose|i: int| #[trigger] before.marks(i, s);
                assert(self.marks(i, s));
            }
        }
        lemma_total_push(before.flights@, flight);
        assert forall|i: int|
            0 <= i < self.flights@.len() && (
            #[trigger] self.flights@[i]).left > 0 implies self.flights@[i].legible(
            self.list.shape(),
            self.settled@,
        ) by {
            assert(before.flights@[i].legible(before.list.shape(), before.settled@));
        }
        assert forall|i: int| 0 <= i < self.history@.len() implies self.recorded(
            #[trigger] self.history@[i],
        ) by {
            assert(before.recorded(before.history@[i]));
        }
        assert forall|u: int| 0 <= u < self.flights@.len() && (
        #[trigger] self.flights@[u]).node is Some implies exists|i: int|
            0 <= i < self.history@.len() && (#[trigger] self.history@[i]).ticket == u by {
            assert(before.flights@[u].node is Some);
        }
        assert(self.wf());
        self.lemma_accounts(before, None);
        assert(self.still() == before.still()) by {
            if self.still() {
                assert forall|i: int|
                    0 <= i < before.tickets() implies #[trigger] before.has_written(i) by {
                    assert(self.has_written(i));
                }
            }
            if before.still() {
                assert forall|i: int| 0 <= i < self.tickets() implies #[trigger] self.has_written(
                    i,
                ) by {
                    if i < t {
                        assert(before.has_written(i));
                    }
                }
            }
        }
        assert(self.runs(change));
        assert forall|c: &Change<T>| before.runs(c) implies c.ticket() != change.ticket()
            && #[trigger] self.runs(c) by {
            assert(self.flights@[c.ticket@] == before.flights@[c.ticket@]);
        }
    }

    /// A list in which nothing that has been decided is still to be written is as it is
    /// settled.
    pub(crate) proof fn lemma_still(&self)
        requires
            self.wf(),
            self.still(),
        ensures
            self.list.ordered(),
            self.list.shape() == self.settled@,
    {
        let (shape, settled) = (self.list.shape(), self.settled@);
        assert forall|i: int| 0 <= i < self.flights@.len() implies (
        #[trigger] self.flights@[i]).left == 0 && self.flights@[i].mark is None by {
            assert(self.has_written(i));
        }
        assert forall|s: Slot| self.has_slot(s) implies #[trigger] shape.pointers(s)
            == settled.pointers(s) && shape.marked(s) == settled.marked(s) by {
            assert forall|l: int| 0 <= l < settled.height(s) implies shape.pointers(s)[l]
                == settled.pointers(s)[l] by {
                if shape.ptr(s, l) != settled.ptr(s, l) {
                    let i = choose|i: int| #[trigger] self.owes(i, s, l);
                    assert(self.flights@[i].left == 0);
                }
            }
            assert(shape.height(s) == settled.height(s));
            assert(shape.pointers(s) =~= settled.pointers(s));
            assert(settled.marked(s) <==> shape.marked(s) || exists|i: int| #[trigger]
                self.marks(i, s));
            if exists|i: int| #[trigger] self.marks(i, s) {
                let i = choose|i: int| #[trigger] self.marks(i, s);
                assert(self.flights@[i].mark is None);
            }
        }
        assert(shape.head == settled.head) by {
            assert(shape.pointers(Slot::Head) == settled.pointers(Slot::Head));
        }
        assert forall|i: int| 0 <= i < shape.towers.len() implies shape.towers[i]
            == settled.towers[i] by {
            let s = Slot::Node(i as usize);
            assert(self.has_slot(s));
            assert(shape.pointers(s) == settled.pointers(s));
            assert(shape.marked(s) == settled.marked(s));
            assert(shape.towers[i].element == settled.towers[i].element);
        }
        assert(shape.towers =~= settled.towers);
    }

    /// A list in which no change is under way is as it is settled, with all locks free
    /// and the right length.
    proof fn lemma_quiet(&self)
        requires
            self.wf(),
            self.quiet(),
        ensures
            self.list.structure(),
            self.list.unlocked(),
            self.list.shape() == self.settled@,
            self.still(),
    {
        let settled = self.settled@;
        assert forall|i: int| 0 <= i < self.flights@.len() implies (
        #[trigger] self.flights@[i]).landed() by {
            assert(self.has_landed(i));
        }
        assert forall|i: int| 0 <= i < self.tickets() implies #[trigger] self.has_written(i) by {
            assert(self.flights@[i].landed());
        }
        self.lemma_still();
        assert forall|s: Slot| self.has_slot(s) implies !#[trigger] self.list.locked(s) by {
            if self.list.locked(s) {
                let i = choose|i: int| #[trigger] self.holds(i, s);
                assert(self.flights@[i].landed());
            }
        }
        lemma_total_landed(self.flights@);
        settled.lemma_chain_fits();
        let (m, w) = (usize::MAX + 1, self.wraps@);
        let (a, b) = (self.list.len as int, settled.chain.len() as int);
        assert(w == 0) by (nonlinear_arith)
            requires
                a == b + w * m,
                0 <= a < m,
                0 <= b < m,
        ;
    }

    /// Opens a list to changes that overlap.
    pub fn new(list: SkipList<T>) -> (busy: Self)
        requires
            list.wf(),
        ensures
            busy.wf(),
            busy.quiet(),
            busy.still(),
            busy.tickets() == 0,
            busy.origin() == list@,
            busy.history() == Seq::<Decision<T>>::empty(),
            busy@ == list@,
            busy.towers() == list.towers(),
            busy.inner() == list,
    {
        proof {
            list.lemma_wf();
            list.lemma_contents();
        }
        BusyList {
            settled: Ghost(list.shape()),
            flights: Ghost(Seq::empty()),
            wraps: Ghost(0),
            origin: Ghost(list@),
            history: Ghost(Seq::empty()),
            list,
        }
    }

    /// Closes the list, once all changes have landed.
    pub fn into_list(self) -> (list: SkipList<T>)
        requires
            self.wf(),
            self.quiet(),
        ensures
            list.wf(),
            list@ == self@,
            list.towers() == self.towers(),
            list == self.inner(),
    {
        proof {
            self.lemma_quiet();
            self.list.lemma_wf();
            self.list.lemma_contents();
        }
        self.list
    }

    /// The list as it is in memory, to read and to search in.
    pub fn as_list(&self) -> (list: &SkipList<T>)
        requires
            self.wf(),
        ensures
            *list == self.inner(),
            list.searchable(),
            self.still() ==> list.orderly() && list@ == self@ && list.towers() == self.towers(),
            self.quiet() ==> list.wf() && self.still(),
            (forall|i: int| 0 <= i < self.tickets() ==> #[trigger] self.has_counted(i))
                ==> list.counted() == self@.len(),
    {
        proof {
            self.law_length_amid_changes();
            self.list.lemma_wf();
            self.list.lemma_contents();
            if self.still() {
                self.lemma_still();
            }
            if self.quiet() {
                self.lemma_quiet();
            }
        }
        &self.list
    }

    /// The entry that a change has put in or taken out.
    pub fn entry<'a>(&'a self, change: &Change<T>) -> (entry: Option<Ref<'a, T>>)
        requires
            self.wf(),
            self.runs(change),
        ensures
            entry is Some <==> change.decided(),
            entry matches Some(entry) ==> entry@ == change.subject(),
    {
        proof {
            assert(self.flights@[change.ticket@].sound(self.settled@));
        }
        match change.node {
            Some(i) => {
                assert(self.list.shape().towers[i as int].element
                    == self.settled@.towers[i as int].element);
                Some(self.list.entry(i))
            },
            None => None,
        }
    }

    /// The contents have come about as if the changes had been made one after the other,
    /// in the order in which they were decided, and each of them once.
    pub proof fn law_linearizable(&self)
        requires
            self.wf(),
        ensures
            ascending(self.origin()),
            self@ == replay(self.origin(), self.history()),
            sensible(self.origin(), self.history()),
            forall|i: int|
                0 <= i < self.history().len() ==> 0 <= (#[trigger] self.history()[i]).ticket
                    < self.tickets(),
            forall|i: int, j: int|
                0 <= i < j < self.history().len() ==> (#[trigger] self.history()[i]).ticket != (
                #[trigger] self.history()[j]).ticket,
    {
        assert forall|i: int| 0 <= i < self.history().len() implies 0 <= (
        #[trigger] self.history()[i]).ticket < self.tickets() by {
            assert(self.recorded(self.history@[i]));
        }
    }

    /// What a list has come to since an earlier moment is what the changes decided since then
    /// make of it, one after the other.
    pub proof fn law_linearizable_since(&self, start: &Self)
        requires
            self.wf(),
            start.wf(),
            self.accounts_for(start),
            self.origin() == start.origin(),
        ensures
            ascending(start@),
            self@ == replay(start@, self.since(start)),
            sensible(start@, self.since(start)),
    {
        self.law_linearizable();
        start.law_linearizable();
        law_replay_in_parts(self.origin(), self.history(), start.history().len() as int);
    }

    /// What has been decided since an earlier moment is the rest of the history.
    pub proof fn law_since(&self, start: &Self)
        requires
            self.accounts_for(start),
        ensures
            self.history() == start.history() + self.since(start),
    {
        assert(self.history() =~= start.history() + self.since(start));
    }

    /// Where a decision stands that is not in the history of an earlier moment, and where one
    /// stands that concerns an element.
    pub(crate) proof fn lemma_since(&self, start: &Self, d: Decision<T>, element: T)
        requires
            self.accounts_for(start),
        ensures
            self.history().contains(d) && !start.history().contains(d) ==> self.since(
                start,
            ).contains(d),
            self.decided_on(start.history().len() as int, element) ==> exists|i: int|
                0 <= i < self.since(start).len() && has_key::<T, T>(
                    (#[trigger] self.since(start)[i]).subject,
                    &element,
                ),
    {
        let n = start.history().len() as int;
        let (history, tail) = (self.history(), self.since(start));
        if history.contains(d) && !start.history().contains(d) {
            let i = choose|i: int| 0 <= i < history.len() && history[i] == d;
            assert(i < n ==> start.history()[i] == d);
            assert(tail[i - n] == d);
        }
        if self.decided_on(n, element) {
            let i = choose|i: int|
                n <= i < history.len() && has_key::<T, T>(
                    (#[trigger] history[i]).subject,
                    &element,
                );
            assert(tail[i - n] == history[i]);
        }
    }

    /// A list accounts for all from which those came that it accounts for.
    pub proof fn law_accounts(&self, middle: &Self, first: &Self)
        requires
            first.wf(),
            self.accounts_for(middle),
            middle.accounts_for(first),
        ensures
            self.accounts_for(first),
    {
        let (a, b, c) = (self.history(), middle.history(), first.history());
        assert(c =~= a.take(c.len() as int));
        assert forall|e: int| first.keeps(e) && !self.keeps(e) implies self.decided_on(
            c.len() as int,
            first.inner().element_of(e),
        ) by {
            let element = first.inner().element_of(e);
            let _ = first.law_kept_is_present(e);
            assert(middle.inner().element_of(e) == element);
            if middle.keeps(e) {
                assert(self.decided_on(b.len() as int, middle.inner().element_of(e)));
                let i = choose|i: int|
                    b.len() <= i < a.len() && has_key::<T, T>((#[trigger] a[i]).subject, &element);
                assert(has_key::<T, T>(a[i].subject, &element));
            } else {
                assert(middle.decided_on(c.len() as int, element));
                let i = choose|i: int|
                    c.len() <= i < b.len() && has_key::<T, T>((#[trigger] b[i]).subject, &element);
                assert(a[i] == b[i]);
            }
        }
    }

    /// The nodes that a list keeps are those of its elements.
    pub proof fn law_kept_is_present(&self, entry: int) -> (i: int)
        requires
            self.wf(),
            self.keeps(entry),
        ensures
            0 <= i < self@.len(),
            self.inner().entry_at(i) == entry,
            self@[i] == self.inner().element_of(entry),
            0 <= entry < self.inner().entries(),
    {
        let e = entry as usize;
        self.list.lemma_entries();
        self.lemma_shows(self);
        assert(!self.settled@.marked(Slot::Node(e)));
        let i = choose|i: int| 0 <= i < self.settled@.chain.len() && self.settled@.chain[i] == e;
        assert(self.list.shape().towers[entry].element == self.settled@.towers[entry].element);
        i
    }

    /// The length that is read amid changes is right up to the changes that have been decided
    /// and still have to add something to it: it is off by no more than their number, and
    /// exact where there are none, whatever locks are held. (Where a list of fewer elements
    /// than such changes, or of nearly as many as a word can count, is read, the counter may
    /// have wrapped around.)
    pub proof fn law_length_amid_changes(&self)
        requires
            self.wf(),
        ensures
            self.uncounted() <= self.tickets(),
            self.uncounted() == 0 <==> forall|i: int|
                0 <= i < self.tickets() ==> #[trigger] self.has_counted(i),
            self.uncounted() == 0 ==> self.inner().counted() == self@.len(),
            self.uncounted() <= self@.len() && self@.len() + self.uncounted() <= usize::MAX ==> {
                &&& self.inner().counted() <= self@.len() + self.uncounted()
                &&& self@.len() <= self.inner().counted() + self.uncounted()
            },
    {
        let f = self.flights@;
        self.list.lemma_counted();
        self.settled@.lemma_chain_fits();
        assert forall|i: int| 0 <= i < f.len() implies -1 <= (#[trigger] f[i]).count <= 1 by {
            assert(f[i].sound(self.settled@));
        }
        lemma_uncounted(f);
        if self.uncounted() == 0 {
            assert forall|i: int| 0 <= i < self.tickets() implies #[trigger] self.has_counted(
                i,
            ) by {
                assert(f[i].count == 0);
            }
        }
        if forall|i: int| 0 <= i < self.tickets() ==> #[trigger] self.has_counted(i) {
            assert forall|i: int| 0 <= i < f.len() implies (#[trigger] f[i]).count == 0 by {
                assert(self.has_counted(i));
            }
        }
        let (m, w, u) = (usize::MAX + 1, self.wraps@, self.uncounted() as int);
        let (a, b, t) = (
            self.list.len as int,
            self.settled@.chain.len() as int,
            total(self.flights@),
        );
        assert(b == self@.len());
        if u <= b && b + u < m {
            assert(w == 0) by (nonlinear_arith)
                requires
                    a + t == b + w * m,
                    0 <= a < m,
                    -u <= t <= u,
                    u <= b,
                    b + u < m,
            ;
        }
    }

    /// In a list in which all that has been decided is written, the position of a change is
    /// current exactly if it is so in the list as it is, for the tower of the change.
    pub proof fn law_current_when_still(&self, change: &Change<T>, at: &Position)
        requires
            self.wf(),
            self.still(),
            self.runs(change),
            change.begins_at(at),
        ensures
            self.current(change) <==> self.inner().current(at, change.height()),
    {
        self.lemma_still();
        self.list.lemma_current(at, change.height());
    }

    /// A change that has not been decided has nothing to write or to count, and one that has
    /// landed has done both.
    pub proof fn law_counting(&self, change: &Change<T>)
        requires
            self.wf(),
            self.runs(change),
        ensures
            !change.decided() || change.landed() ==> self.has_counted(change.ticket()),
            !change.decided() || change.landed() ==> self.has_written(change.ticket()),
    {
    }

    /// A change is in the history exactly if it has been decided.
    pub proof fn law_decisions(&self, change: &Change<T>)
        requires
            self.wf(),
            self.runs(change),
        ensures
            change.decided() <==> self.history().contains(change.decision()),
    {
        let t = change.ticket@;
        if change.decided() {
            let i = choose|i: int|
                0 <= i < self.history@.len() && (#[trigger] self.history@[i]).ticket == t;
            assert(self.recorded(self.history@[i]));
            assert(self.history@[i] == change.decision());
        }
        if self.history@.contains(change.decision()) {
            let i = choose|i: int|
                0 <= i < self.history@.len() && self.history@[i] == change.decision();
            assert(self.recorded(self.history@[i]));
        }
    }

    /// A live node of the list points to a removed one, at some level.
    pub closed spec fn points_to_removed(&self, entry: int) -> bool {
        let shape = self.list.shape();
        let s = slot_of(entry);
        &&& shape.has_slot(s)
        &&& !shape.marked(s)
        &&& exists|l: int|
            0 <= l < shape.height(s) && (#[trigger] shape.ptr(s, l) matches Some(i)
                && shape.marked(Slot::Node(i)))
    }

    /// The change with the ticket is the insertion of a new node, which has been decided and
    /// holds the lock of the node with the number, to have it point to the new one.
    pub closed spec fn links_from(&self, ticket: int, entry: int) -> bool {
        let s = slot_of(entry);
        &&& self.holds(ticket, s)
        &&& !self.flights@[ticket].removes
        &&& self.flights@[ticket].node is Some
        &&& self.flights@[ticket].at.existing is None
        &&& exists|l: int| #[trigger] self.owes(ticket, s, l)
    }

    /// No node of the list points to a marked one, at every moment, except where a new node
    /// is being linked behind it. There the node after the new one can be removed before
    /// its old predecessor points to the new one.
    ///
    /// The head has the number `-1`. A node that points to a marked one is not in the list
    /// then, and its own mark is due, or its lock is held by the insertion of a new node.
    pub proof fn law_live_nodes_amid_changes(&self, entry: int)
        requires
            self.wf(),
            self.points_to_removed(entry),
        ensures
            (entry >= 0 && !self.keeps(entry)) || exists|t: int| #[trigger]
                self.links_from(t, entry),
    {
        let (shape, settled) = (self.list.shape(), self.settled@);
        let s = slot_of(entry);
        let l = choose|l: int|
            0 <= l < shape.height(s) && (#[trigger] shape.ptr(s, l) matches Some(i)
                && shape.marked(Slot::Node(i)));
        let i = shape.ptr(s, l)->0;
        assert(shape.leads_forward(s, l, shape.ptr(s, l)));
        assert(settled.marked(Slot::Node(i)));
        assert(shape.height(s) == settled.height(s));
        if !settled.marked(s) {
            if exists|t: int| #[trigger] self.owes(t, s, l) {
                let t = choose|t: int| #[trigger] self.owes(t, s, l);
                let f = self.flights@[t];
                assert(f.sound(settled));
                assert(f.owes_rightly(settled, f.at.preds@[l], l));
                assert(f.legible(shape, settled));
                assert(f.at.succs@[l] == Some(i));
                if f.mark is Some {
                    assert(self.marks(t, Slot::Node(i)));
                }
                assert(self.links_from(t, entry));
            } else {
                settled.lemma_live_ptr(s, l);
            }
        }
    }

    /// An insertion that is linking its node has not written all that it has to.
    pub proof fn law_linking_is_not_still(&self, ticket: int, entry: int)
        requires
            self.wf(),
            self.links_from(ticket, entry),
        ensures
            0 <= ticket < self.tickets(),
            !self.has_written(ticket),
            self.holds_lock(ticket),
    {
        let s = slot_of(entry);
        let l = choose|l: int| #[trigger] self.owes(ticket, s, l);
        assert(self.flights@[ticket].owes(s, l));
        assert(self.flights@[ticket].held.contains(s));
    }

    /// Changes never wait for each other in a circle: if one is blocked, then another
    /// one holds a lock and is not blocked, so it can make its next step.
    pub proof fn law_no_deadlock(&self, ticket: int) -> (other: int)
        requires
            total_order::<T>(),
            self.wf(),
            self.blocked(ticket),
        ensures
            0 <= other < self.tickets(),
            self.holds_lock(other),
            !self.blocked(other),
    {
        self.lemma_someone_moves(ticket)
    }

    proof fn lemma_someone_moves(&self, ticket: int) -> (other: int)
        requires
            total_order::<T>(),
            self.wf(),
            self.blocked(ticket),
        ensures
            0 <= other < self.tickets(),
            self.holds_lock(other),
            !self.blocked(other),
        decreases self.settled@.after(self.flights@[ticket].wants->0).len(),
    {
        let wanted = self.flights@[ticket].wants->0;
        assert(self.flights@[ticket].sound(self.settled@));
        let holder = choose|i: int| #[trigger] self.holds(i, wanted);
        assert(self.holds(holder, wanted));
        if self.blocked(holder) {
            let next = self.flights@[holder].wants->0;
            assert(self.flights@[holder].sound(self.settled@));
            self.settled@.lemma_after(wanted, next);
            self.lemma_someone_moves(holder)
        } else {
            holder
        }
    }

    /// A search that agrees with a list in which all that has been decided is written still
    /// agrees with it as long as nothing more is decided, whatever locks are taken and let
    /// go meanwhile. So what it finds is what there is.
    pub proof fn law_search_undisturbed<Q>(&self, before: &Self, search: &Search, key: &Q) where
        T: BorrowKey<Q>,
        Q: Ord + ?Sized,

        requires
            self.wf(),
            before.wf(),
            self.still(),
            before.still(),
            self.undisturbed(before),
            search.agrees(&before.inner(), key),
        ensures
            search.agrees(&self.inner(), key),
            search.distance(&self.inner(), key) == search.distance(&before.inner(), key),
    {
        self.lemma_still();
        before.lemma_still();
        search.lemma_same_shape(&self.list, &before.list, key);
    }

    /// The course of a change: it waits for its locks, then it is decided or given up, not
    /// both, before it lands. Then it holds no lock.
    pub proof fn law_course(&self, change: &Change<T>)
        requires
            self.wf(),
            self.runs(change),
        ensures
            0 <= change.ticket() < self.tickets(),
            change.deciding() ==> !change.decided() && !change.given_up() && !change.landed(),
            self.refuses(change) ==> !change.decided() && !change.given_up() && !change.landed(),
            change.deciding() ==> !self.refuses(change),
            !(change.decided() && change.given_up()),
            change.landed() ==> change.decided() || change.given_up(),
            change.landed() ==> self.has_landed(change.ticket()),
            change.landed() ==> !self.holds_lock(change.ticket()),
            self.blocked(change.ticket()) ==> {
                &&& !change.deciding()
                &&& !change.decided()
                &&& !change.given_up()
                &&& !change.landed()
            },
    {
        if change.landed() {
            assert(self.flights@[change.ticket@].held =~= Set::<Slot>::empty());
        }
    }

    /// No two changes hold the same lock.
    pub proof fn law_mutual_exclusion(&self, one: int, other: int)
        requires
            self.wf(),
            one != other,
        ensures
            !self.share_lock(one, other),
    {
    }

    /// A change is given up only if its position is not current.
    pub proof fn law_current_not_refused(&self, change: &Change<T>)
        requires
            self.wf(),
            self.runs(change),
            self.current(change),
        ensures
            !self.refuses(change),
    {
    }

    /// What a change has found to be current stays so until it lets go: when it
    /// comes to decide, its position is current, whatever other changes have done.
    pub proof fn law_deciding_is_current(&self, change: &Change<T>)
        requires
            self.wf(),
            self.runs(change),
            change.deciding(),
        ensures
            self.current(change),
    {
        let flight = self.flights@[change.ticket@];
        assert(flight.sound(self.settled@));
        assert forall|l: int| 0 <= l < change.height implies self.settled@.valid_at(
            &change.at,
            l,
        ) by {
            assert(flight.held.contains(change.at.preds@[l]));
        }
    }

    /// In a list in which no change is under way, a change that begins at a current
    /// position is current.
    pub proof fn law_quiet_current(&self, before: &Self, change: &Change<T>, at: &Position)
        requires
            before.wf(),
            before.quiet(),
            self.begun(before, change),
            change.begins_at(at),
            before.inner().current(at, MAX_HEIGHT as nat),
        ensures
            self.current(change),
    {
        before.lemma_quiet();
        before.list.lemma_current(at, MAX_HEIGHT as nat);
        assert(before.current(change));
    }
}

} // verus!
