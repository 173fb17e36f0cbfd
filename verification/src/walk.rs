//! Walks over the entries of a list that is changed between their steps.
use vstd::prelude::*;

use crate::concurrent::BusyList;
use crate::node::Slot;
use crate::order::precedes;
use crate::skiplist::{Ref, SkipList};

verus! {

/// A place in a walk from the smallest entry to the largest. The list may be changed
/// while the walk is there.
#[derive(Clone, Copy)]
pub struct Cursor {
    /// The node that comes next.
    current: Option<usize>,
    /// The node that came last.
    last: Ghost<Option<usize>>,
}

impl Cursor {
    /// The walk is one in this list, or in earlier states of it.
    pub closed spec fn walks<T: Ord>(&self, list: &SkipList<T>) -> bool {
        let shape = list.shape();
        &&& self.current matches Some(i) ==> i < shape.towers.len()
        &&& self.last@ matches Some(j) ==> {
            &&& j < shape.towers.len()
            &&& self.current matches Some(i) ==> shape.comes_before(Slot::Node(j), Slot::Node(i))
        }
    }

    /// The element that came last.
    pub closed spec fn latest<T: Ord>(&self, list: &SkipList<T>) -> Option<T> {
        match self.last@ {
            Some(j) => Some(list.shape().towers[j as int].element),
            None => None,
        }
    }

    /// The number of the node that comes next.
    pub closed spec fn upcoming(&self) -> Option<int> {
        match self.current {
            Some(i) => Some(i as int),
            None => None,
        }
    }

    /// The node with the number is still to come, if the list stays as it is.
    pub closed spec fn awaits<T: Ord>(&self, list: &SkipList<T>, entry: int) -> bool {
        &&& 0 <= entry < list.shape().towers.len()
        &&& self.current matches Some(i) && i < list.shape().towers.len()
        &&& list.shape().leads_to(self.current, entry as usize)
    }

    /// The walk goes on by one node: to the one after that which came next.
    pub open spec fn goes_to<T: Ord>(&self, next: &Cursor, list: &SkipList<T>) -> bool {
        next.upcoming() == match self.upcoming() {
            Some(e) => list.entry_after(e),
            None => None,
        }
    }

    /// Returns the next entry of the list as it is now. That entry may have been removed
    /// since the walk was directed to it; it is larger than the one before in any case.
    pub fn next<'a, T: Ord>(&mut self, list: &'a SkipList<T>) -> (entry: Option<Ref<'a, T>>)
        requires
            list.wf() || list.orderly() || list.searchable(),
            old(self).walks(list),
        ensures
            final(self).walks(list),
            entry is Some <==> old(self).upcoming() is Some,
            match entry {
                Some(entry) => {
                    &&& entry@ == list.element_of(old(self).upcoming()->0)
                    &&& list.has_node(entry@)
                    &&& old(self).latest(list) matches Some(x) ==> precedes::<T, T>(x, &entry@)
                    &&& final(self).latest(list) == Some(entry@)
                },
                None => *final(self) == *old(self),
            },
            old(self).goes_to(final(self), list),
            old(self).upcoming() matches Some(e) ==> final(self).upcoming() == list.entry_after(e),
            list.wf() || list.orderly() ==> forall|i: int|
                0 <= i < list@.len() && old(self).upcoming() == Some(#[trigger] list.entry_at(i))
                    ==> final(self).upcoming() == if i + 1 < list@.len() {
                    Some(list.entry_at(i + 1))
                } else {
                    None
                },
            entry is None ==> forall|e: int| !#[trigger] old(self).awaits(list, e),
            forall|e: int| #[trigger]
                old(self).awaits(list, e) && old(self).upcoming() != Some(e)
                    ==> final(self).awaits(list, e),
    {
        let curr: usize = match self.current {
            Some(curr) => curr,
            None => {
                return None;
            },
        };
        let ghost shape = list.shape();
        proof {
            list.lemma_wf();
            list.lemma_entries();
            list.lemma_has_node(curr as int);
            assert(shape.towers[curr as int].pointers.len() >= 1);
            assert(shape.leads_forward(Slot::Node(curr), 0, shape.ptr(Slot::Node(curr), 0)));
        }
        self.current = list.slot_next(Slot::Node(curr), 0);
        proof {
            self.last = Ghost(Some(curr));
            list.lemma_entries();
            if list.wf() || list.orderly() {
                list.law_entries();
            }
            assert forall|e: int| #[trigger]
                old(self).awaits(list, e) && old(self).upcoming() != Some(e) implies self.awaits(
                list,
                e,
            ) by {
                let n = choose|n: nat| #[trigger]
                    shape.walk(Slot::Node(curr), n) == Some(Slot::Node(e as usize));
                assert(n > 0);
                assert(shape.walk(Slot::Node(self.current->0), (n - 1) as nat) == Some(
                    Slot::Node(e as usize),
                ));
            }
        }
        Some(list.entry(curr))
    }

    /// A walk goes on to the node to which the one points that came next, removed or not, and
    /// stays at its end once it has come there.
    pub proof fn law_goes_to<T: Ord>(&self, next: &Cursor, list: &SkipList<T>)
        requires
            self.goes_to(next, list),
        ensures
            self.upcoming() matches Some(e) ==> next.upcoming() == list.entry_after_at(e, 0),
            self.upcoming() is None ==> next.upcoming() is None,
    {
        list.lemma_entries();
    }

    proof fn lemma_goes<T: Ord>(&self, next: &Cursor, list: &SkipList<T>, entry: int)
        requires
            list.searchable(),
            self.awaits(list, entry),
            self.upcoming() != Some(entry),
            self.goes_to(next, list),
        ensures
            next.awaits(list, entry),
    {
        let shape = list.shape();
        let curr = self.current->0;
        list.lemma_wf();
        list.lemma_entries();
        let n = choose|n: nat| #[trigger]
            shape.walk(Slot::Node(curr), n) == Some(Slot::Node(entry as usize));
        assert(n > 0);
        assert(next.current == shape.ptr(Slot::Node(curr), 0));
        assert(shape.towers[curr as int].pointers.len() >= 1);
        assert(shape.leads_forward(Slot::Node(curr), 0, shape.ptr(Slot::Node(curr), 0)));
        assert(shape.walk(Slot::Node(next.current->0), (n - 1) as nat) == Some(
            Slot::Node(entry as usize),
        ));
    }

    /// A walk goes on through all changes of the list.
    pub proof fn law_walk_survives<T: Ord>(&self, list: &SkipList<T>, earlier: &SkipList<T>)
        requires
            list.grown_from(earlier),
            self.walks(earlier),
        ensures
            self.walks(list),
            self.latest(list) == self.latest(earlier),
    {
        list.lemma_grown_from(earlier);
    }

    /// A walk does not miss what stays while whole changes are made between its steps: a
    /// node that is still to come before a change is still to come after it, if it is not
    /// removed by it.
    pub proof fn law_walk_over_changes<T: Ord>(
        &self,
        list: &SkipList<T>,
        earlier: &SkipList<T>,
        entry: int,
    )
        requires
            list.still_shows(earlier),
            self.awaits(earlier, entry),
            list.grown_from(earlier),
            list.keeps(entry),
        ensures
            self.awaits(list, entry),
    {
        list.lemma_shows(earlier);
        list.lemma_grown_from(earlier);
        let (shape, was) = (list.shape(), earlier.shape());
        let s = Slot::Node(self.current->0);
        assert(was.walks_to(s, entry as usize));
        assert(was.has_slot(s));
        assert(shape.walks_to(s, entry as usize));
    }

    /// A walk does not miss what stays: a node that is still to come when a change makes
    /// a step is still to come after it, if the node is in the list then.
    pub proof fn law_walk_misses_nothing<T: Ord>(
        &self,
        list: &BusyList<T>,
        before: &BusyList<T>,
        entry: int,
    )
        requires
            before.wf(),
            list.wf(),
            list.inner().grown_from(&before.inner()),
            list.still_shows(before),
            self.awaits(&before.inner(), entry),
            list.keeps(entry),
        ensures
            self.awaits(&list.inner(), entry),
    {
        list.lemma_shows(before);
        list.list.lemma_grown_from(&before.list);
        let (shape, was) = (list.list.shape(), before.list.shape());
        let s = Slot::Node(self.current->0);
        assert(was.walks_to(s, entry as usize));
        assert(was.towers.len() == before.list.nodes@.len());
        assert(before.has_slot(s));
        assert(shape.walks_to(s, entry as usize));
    }
}

/// Of a walk that has ended, every node that was to come and that stayed in the list has
/// come, whatever whole changes were made meanwhile. The walk and the list take turns: at
/// each moment one of them goes on.
pub proof fn law_walk_yields_what_stays<T: Ord>(
    cursors: Seq<Cursor>,
    lists: Seq<SkipList<T>>,
    entry: int,
) -> (moment: int)
    requires
        cursors.len() == lists.len() > 0,
        forall|i: int| 0 <= i < lists.len() ==> (#[trigger] lists[i]).searchable(),
        cursors[0].awaits(&lists[0], entry),
        forall|i: int|
            0 <= i < lists.len() - 1 ==> {
                ||| {
                    &&& #[trigger] lists[i + 1] == lists[i]
                    &&& cursors[i].goes_to(&cursors[i + 1], &lists[i])
                }
                ||| {
                    &&& cursors[i + 1] == cursors[i]
                    &&& lists[i + 1].grown_from(&lists[i])
                    &&& lists[i + 1].still_shows(&lists[i])
                    &&& lists[i + 1].keeps(entry)
                }
            },
        cursors.last().upcoming() is None,
    ensures
        0 <= moment < cursors.len(),
        cursors[moment].upcoming() == Some(entry),
        lists[moment].element_of(entry) == lists[0].element_of(entry),
    decreases cursors.len(),
{
    if cursors[0].upcoming() == Some(entry) {
        0
    } else {
        assert(lists.len() > 1);
        let (c, l) = (cursors.drop_first(), lists.drop_first());
        assert(lists[0int + 1] == l[0]);
        assert(l.last() == lists.last() && c.last() == cursors.last());
        lists[0].lemma_entries();
        l[0].lemma_entries();
        if l[0] == lists[0] && cursors[0].goes_to(&c[0], &lists[0]) {
            cursors[0].lemma_goes(&c[0], &lists[0], entry);
        } else {
            c[0].law_walk_over_changes(&l[0], &lists[0], entry);
            l[0].lemma_grown_from(&lists[0]);
        }
        assert forall|i: int| 0 <= i < l.len() - 1 implies {
            ||| {
                &&& #[trigger] l[i + 1] == l[i]
                &&& c[i].goes_to(&c[i + 1], &l[i])
            }
            ||| {
                &&& c[i + 1] == c[i]
                &&& l[i + 1].grown_from(&l[i])
                &&& l[i + 1].still_shows(&l[i])
                &&& l[i + 1].keeps(entry)
            }
        } by {
            assert(lists[(i + 1) + 1] == l[i + 1] && lists[i + 1] == l[i]);
        }
        let moment = law_walk_yields_what_stays(c, l, entry);
        moment + 1
    }
}

/// Of a walk that has ended, every node that was to come and that stayed in the list has
/// come, whatever steps of overlapping changes were made meanwhile.
pub proof fn law_walk_yields_amid_changes<T: Ord>(
    cursors: Seq<Cursor>,
    lists: Seq<BusyList<T>>,
    entry: int,
) -> (moment: int)
    requires
        cursors.len() == lists.len() > 0,
        forall|i: int| 0 <= i < lists.len() ==> (#[trigger] lists[i]).wf(),
        cursors[0].awaits(&lists[0].inner(), entry),
        forall|i: int|
            0 <= i < lists.len() - 1 ==> {
                ||| {
                    &&& #[trigger] lists[i + 1] == lists[i]
                    &&& cursors[i].goes_to(&cursors[i + 1], &lists[i].inner())
                }
                ||| {
                    &&& cursors[i + 1] == cursors[i]
                    &&& lists[i + 1].inner().grown_from(&lists[i].inner())
                    &&& lists[i + 1].still_shows(&lists[i])
                    &&& lists[i + 1].keeps(entry)
                }
            },
        cursors.last().upcoming() is None,
    ensures
        0 <= moment < cursors.len(),
        cursors[moment].upcoming() == Some(entry),
        lists[moment].inner().element_of(entry) == lists[0].inner().element_of(entry),
    decreases cursors.len(),
{
    if cursors[0].upcoming() == Some(entry) {
        0
    } else {
        assert(lists.len() > 1);
        let (c, l) = (cursors.drop_first(), lists.drop_first());
        assert(lists[0int + 1] == l[0]);
        assert(l.last() == lists.last() && c.last() == cursors.last());
        let (now, before) = (l[0].inner(), lists[0].inner());
        lists[0].lemma_shows(&lists[0]);
        before.lemma_wf();
        before.lemma_entries();
        now.lemma_entries();
        if l[0] == lists[0] && cursors[0].goes_to(&c[0], &before) {
            cursors[0].lemma_goes(&c[0], &before, entry);
        } else {
            c[0].law_walk_misses_nothing(&l[0], &lists[0], entry);
            now.lemma_grown_from(&before);
        }
        assert forall|i: int| 0 <= i < l.len() - 1 implies {
            ||| {
                &&& #[trigger] l[i + 1] == l[i]
                &&& c[i].goes_to(&c[i + 1], &l[i].inner())
            }
            ||| {
                &&& c[i + 1] == c[i]
                &&& l[i + 1].inner().grown_from(&l[i].inner())
                &&& l[i + 1].still_shows(&l[i])
                &&& l[i + 1].keeps(entry)
            }
        } by {
            assert(lists[(i + 1) + 1] == l[i + 1] && lists[i + 1] == l[i]);
        }
        let moment = law_walk_yields_amid_changes(c, l, entry);
        moment + 1
    }
}

impl<T: Ord> SkipList<T> {
    /// Begins a walk over the entries of the list.
    pub fn cursor(&self) -> (cursor: Cursor)
        requires
            self.wf() || self.orderly() || self.searchable(),
        ensures
            cursor.walks(self),
            cursor.latest(self) is None,
            cursor.upcoming() == self.entry_after(-1),
            self.wf() || self.orderly() ==> cursor.upcoming() == if self@.len() > 0 {
                Some(self.entry_at(0))
            } else {
                None
            },
            self.wf() || self.orderly() ==> forall|i: int|
                0 <= i < self@.len() ==> {
                    &&& cursor.awaits(self, #[trigger] self.entry_at(i))
                    &&& self.element_of(self.entry_at(i)) == self@[i]
                },
    {
        proof {
            self.lemma_wf();
            self.lemma_contents();
            self.lemma_entries();
            if self.wf() || self.orderly() {
                self.law_entries();
            }
            let shape = self.shape();
            assert(shape.leads_forward(Slot::Head, 0, shape.ptr(Slot::Head, 0)));
        }
        let cursor = Cursor { current: self.slot_next(Slot::Head, 0), last: Ghost(None) };
        proof {
            if self.orderly() {
                assert forall|i: int| 0 <= i < self@.len() implies {
                    &&& cursor.awaits(self, #[trigger] self.entry_at(i))
                    &&& self.element_of(self.entry_at(i)) == self@[i]
                } by {
                    let shape = self.shape();
                    shape.lemma_walk_along(-1, (i + 1) as nat);
                    assert(shape.walk(Slot::Node(cursor.current->0), i as nat) == Some(
                        Slot::Node(shape.chain[i]),
                    ));
                }
            }
        }
        cursor
    }
}

impl<T: Ord> BusyList<T> {
    /// The entries of a list are kept by it, in the order of its elements.
    pub proof fn law_keeps_entries(&self, i: int)
        requires
            self.wf(),
            0 <= i < self@.len(),
        ensures
            self.keeps(self.inner().entry_at(i)),
            self.inner().element_of(self.inner().entry_at(i)) == self@[i],
    {
        self.lemma_keeps(i);
        self.list.lemma_entries();
    }
}

} // verus!
