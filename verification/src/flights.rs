//! The changes that are under way in a skiplist, and what they promise each other.
//!
//! Every change is in flight from its first lock to its last unlock. The shape that
//! the list will have when all that has been decided is also written is its settled
//! shape. A change decides at one moment, when it holds all the locks that it needs;
//! from then on it only makes up for the difference between the two shapes.
use vstd::prelude::*;

use crate::node::{Slot, MAX_HEIGHT};
use crate::shape::Shape;
use crate::skiplist::Position;

verus! {

/// A change in flight.
pub(crate) struct Flight<T> {
    /// The slots whose locks it holds.
    pub(crate) held: Set<Slot>,
    /// The slot whose lock it takes next.
    pub(crate) wants: Option<Slot>,
    /// Where it takes place, and the element that it puts in or takes out there.
    pub(crate) at: Position,
    pub(crate) pivot: T,
    pub(crate) removes: bool,
    pub(crate) height: int,
    /// It has not decided yet. At the levels from `checked` on it has found the
    /// position to be valid.
    pub(crate) undecided: bool,
    pub(crate) checked: int,
    /// It has decided, and still has to set the pointers of the predecessors at the
    /// levels below `left`: to these targets, which are those of the node that it
    /// bypasses if there is one.
    pub(crate) left: int,
    pub(crate) targets: Seq<Option<usize>>,
    pub(crate) bypassed: Option<usize>,
    /// The node that it still has to mark.
    pub(crate) mark: Option<usize>,
    /// What it still has to add to the length of the list.
    pub(crate) count: int,
    /// The node that it has put in or taken out.
    pub(crate) node: Option<usize>,
}

impl<T: Ord> Flight<T> {
    /// It has landed: it holds no lock and has nothing left to do.
    pub(crate) open spec fn landed(self) -> bool {
        &&& self.held == Set::<Slot>::empty()
        &&& self.wants is None
        &&& self.left == 0
        &&& self.mark is None
        &&& self.count == 0
    }

    /// It still has to set the pointer of a slot at a level.
    pub(crate) open spec fn owes(self, slot: Slot, l: int) -> bool {
        0 <= l < self.left && self.at.preds@[l] == slot
    }

    /// What a change is entitled to in the settled shape.
    pub(crate) open spec fn sound(self, settled: Shape<T>) -> bool {
        &&& forall|s: Slot| #[trigger] self.held.contains(s) ==> settled.has_slot(s)
        &&& self.wants matches Some(w) ==> {
            &&& settled.has_slot(w)
            &&& forall|s: Slot| #[trigger]
                self.held.contains(s) ==> settled.comes_before(s, w)
        }
        &&& -1 <= self.count <= 1
        &&& self.undecided ==> self.prepared(settled)
        &&& self.left <= MAX_HEIGHT
        &&& forall|l: int|
            0 <= l < self.left ==> self.owes_rightly(settled, #[trigger] self.at.preds@[l], l)
        &&& self.mark matches Some(i) ==> {
            &&& self.held.contains(Slot::Node(i))
            &&& settled.marked(Slot::Node(i))
        }
        &&& self.node matches Some(i) ==> {
            &&& i < settled.towers.len()
            &&& settled.towers[i as int].element == self.pivot
        }
    }

    /// The position is one for the element, and valid where it has been checked.
    pub(crate) open spec fn prepared(self, settled: Shape<T>) -> bool {
        &&& 1 <= self.height <= MAX_HEIGHT
        &&& 0 <= self.checked <= self.height
        &&& settled.describes::<T>(&self.at, &self.pivot)
        &&& self.at.existing matches Some(e) ==> self.height == settled.height(Slot::Node(e))
        &&& self.removes ==> (self.at.existing matches Some(e)
            && settled.towers[e as int].element == self.pivot)
        &&& forall|l: int|
            self.checked <= l < self.height ==> {
                &&& self.held.contains(#[trigger] self.at.preds@[l])
                &&& settled.valid_at(&self.at, l)
            }
    }

    /// A pointer that is still to be set belongs to a slot whose lock is held, and
    /// its target is settled.
    pub(crate) open spec fn owes_rightly(self, settled: Shape<T>, s: Slot, l: int) -> bool {
        &&& self.held.contains(s)
        &&& !settled.marked(s)
        &&& l < settled.height(s)
        &&& settled.ptr(s, l) == self.targets[l]
        &&& self.bypassed matches Some(e) ==> {
            &&& s != Slot::Node(e)
            &&& self.held.contains(Slot::Node(e))
            &&& l < settled.height(Slot::Node(e))
            &&& self.targets[l] == settled.ptr(Slot::Node(e), l)
        }
    }

    /// A pointer that is still to be set is what it was when the change was decided, and
    /// its target leads to all the live nodes to which it leads now: a walk along the
    /// lowest level will not miss any of them.
    pub(crate) open spec fn legible(self, shape: Shape<T>, settled: Shape<T>) -> bool {
        &&& forall|l: int|
            0 <= l < self.left ==> shape.ptr(#[trigger] self.at.preds@[l], l) == self.at.succs@[l]
        &&& shape.sees_all(settled, self.targets[0], self.at.succs@[0])
        &&& self.node is Some
        &&& self.mark == self.at.existing
        &&& self.removes ==> self.mark is Some
        &&& self.mark is Some ==> forall|l: int|
            0 <= l < self.left ==> #[trigger] self.at.succs@[l] == self.mark
    }

    /// A change stays sound while others are decided, as long as they leave alone
    /// the slots whose locks it holds.
    pub(crate) proof fn lemma_sound_extends(self, settled: Shape<T>, before: Shape<T>)
        requires
            self.sound(before),
            before.sized(),
            settled.extends(before),
            settled.head.len() == before.head.len(),
            forall|s: Slot|
                self.held.contains(s) ==> {
                    &&& settled.pointers(s) == #[trigger] before.pointers(s)
                    &&& settled.marked(s) == before.marked(s)
                },
        ensures
            self.sound(settled),
    {
        if self.undecided {
            settled.lemma_describes_extends::<T>(before, &self.at, &self.pivot);
            assert forall|l: int| self.checked <= l < self.height implies {
                &&& self.held.contains(#[trigger] self.at.preds@[l])
                &&& settled.valid_at(&self.at, l)
            } by {
                let s = self.at.preds@[l];
                assert(before.valid_at(&self.at, l));
                assert(settled.pointers(s) == before.pointers(s));
            }
        }
        assert forall|l: int| 0 <= l < self.left implies self.owes_rightly(
            settled,
            #[trigger] self.at.preds@[l],
            l,
        ) by {
            let s = self.at.preds@[l];
            assert(self.owes_rightly(before, s, l));
            assert(settled.pointers(s) == before.pointers(s));
            if let Some(e) = self.bypassed {
                assert(settled.pointers(Slot::Node(e)) == before.pointers(Slot::Node(e)));
            }
        }
        if let Some(i) = self.mark {
            assert(settled.pointers(Slot::Node(i)) == before.pointers(Slot::Node(i)));
        }
    }
}

/// What is still to be added to the length of the list.
pub(crate) open spec fn total<T>(flights: Seq<Flight<T>>) -> int
    decreases flights.len(),
{
    if flights.len() == 0 {
        0
    } else {
        total(flights.drop_last()) + flights.last().count
    }
}

/// How many of the changes still have to add something to the length of the list.
pub(crate) open spec fn uncounted<T>(flights: Seq<Flight<T>>) -> nat
    decreases flights.len(),
{
    if flights.len() == 0 {
        0
    } else {
        uncounted(flights.drop_last()) + if flights.last().count != 0 {
            1nat
        } else {
            0
        }
    }
}

pub(crate) proof fn lemma_uncounted<T>(flights: Seq<Flight<T>>)
    requires
        forall|i: int| 0 <= i < flights.len() ==> -1 <= (#[trigger] flights[i]).count <= 1,
    ensures
        -uncounted(flights) <= total(flights) <= uncounted(flights) <= flights.len(),
        uncounted(flights) == 0 <==> forall|i: int|
            0 <= i < flights.len() ==> (#[trigger] flights[i]).count == 0,
    decreases flights.len(),
{
    if flights.len() > 0 {
        let front = flights.drop_last();
        assert forall|i: int| 0 <= i < front.len() implies -1 <= (#[trigger] front[i]).count
            <= 1 by {
            assert(front[i] == flights[i]);
        }
        lemma_uncounted(front);
        assert(flights.last() == flights[flights.len() - 1]);
        if forall|i: int| 0 <= i < flights.len() ==> (#[trigger] flights[i]).count == 0 {
            assert forall|i: int| 0 <= i < front.len() implies (#[trigger] front[i]).count
                == 0 by {
                assert(front[i] == flights[i]);
            }
        }
        if uncounted(flights) == 0 {
            assert forall|i: int| 0 <= i < flights.len() implies (#[trigger] flights[i]).count
                == 0 by {
                if i < front.len() {
                    assert(front[i].count == 0);
                }
            }
        }
    }
}

pub(crate) proof fn lemma_total_push<T>(flights: Seq<Flight<T>>, flight: Flight<T>)
    ensures
        total(flights.push(flight)) == total(flights) + flight.count,
{
    assert(flights.push(flight).drop_last() =~= flights);
}

pub(crate) proof fn lemma_total_update<T>(flights: Seq<Flight<T>>, i: int, flight: Flight<T>)
    requires
        0 <= i < flights.len(),
    ensures
        total(flights.update(i, flight)) == total(flights) - flights[i].count + flight.count,
    decreases flights.len(),
{
    let updated = flights.update(i, flight);
    if i == flights.len() - 1 {
        assert(updated.drop_last() =~= flights.drop_last());
    } else {
        assert(updated.drop_last() =~= flights.drop_last().update(i, flight));
        lemma_total_update(flights.drop_last(), i, flight);
    }
}

pub(crate) proof fn lemma_total_landed<T: Ord>(flights: Seq<Flight<T>>)
    requires
        forall|i: int| 0 <= i < flights.len() ==> (#[trigger] flights[i]).landed(),
    ensures
        total(flights) == 0,
    decreases flights.len(),
{
    if flights.len() > 0 {
        assert(flights.last().landed());
        assert forall|i: int| 0 <= i < flights.len() - 1 implies (
        #[trigger] flights.drop_last()[i]).landed() by {
            assert(flights[i].landed());
        }
        lemma_total_landed(flights.drop_last());
    }
}

} // verus!
