//! Insertions and removals as a whole: the search for a position, the change there, and
//! both again for as long as the position turns out to be stale, or the wait for a lock
//! too long.
use vstd::prelude::*;

use crate::concurrent::{BusyList, Change, Outcome};
use crate::history::{
    law_one_removal, law_removals_length, lemma_two_removals, removes, replay, restores, sensible,
    Decision,
};
use crate::laws::{law_key_of_element, law_lookup};
use crate::order::{
    ascending, has_key, key_order, lemma_key_of_element, lookup, total_order, with_element,
    without_key, BorrowKey,
};
use crate::search::Search;
use crate::skiplist::Position;
use crate::spinlock::{
    held_throughout, law_held_lock_is_given_up, lemma_held, polled, Pause, SpinWait, SPIN_LIMIT,
};

verus! {

/// An insertion on its way: it searches for the position of its element, or changes the
/// list there.
pub struct Insertion<T> {
    /// The element, as long as no change has it.
    element: Option<T>,
    search: Search,
    change: Option<Change<T>>,
    subject: Ghost<T>,
}

/// A removal on its way: it searches for the position of its key, or changes the list
/// there, or has found nothing to remove.
pub struct Removal<T> {
    search: Search,
    change: Option<Change<T>>,
    absent: bool,
}

impl<T: Ord> BusyList<T> {
    /// The insertion is under way in this list, or has been.
    pub closed spec fn pursues(&self, insertion: &Insertion<T>) -> bool {
        match insertion.change {
            Some(change) => {
                &&& insertion.element is None
                &&& self.runs(&change)
                &&& change.inserts()
                &&& change.subject() == insertion.subject@
            },
            None => {
                &&& insertion.element == Some(insertion.subject@)
                &&& insertion.search.tracks::<T, T>(&self.inner(), &insertion.subject@)
            },
        }
    }

    /// The removal of what has the key is under way in this list, or has been.
    pub closed spec fn pursues_removal<Q>(&self, removal: &Removal<T>, key: &Q) -> bool where
        T: BorrowKey<Q>,
        Q: Ord + ?Sized,
     {
        &&& removal.absent ==> removal.change is None
        &&& match removal.change {
            Some(change) => {
                &&& self.runs(&change)
                &&& !change.inserts()
                &&& has_key(change.subject(), key)
            },
            None => removal.search.tracks(&self.inner(), key),
        }
    }

    /// The list came from another one by a step of an operation, with the ticket of its
    /// change if it has one. The changes of others are where they were.
    pub open spec fn moved(&self, before: &Self, ticket: Option<int>) -> bool {
        &&& self.inner().grown_from(&before.inner())
        &&& self.still_shows(before)
        &&& self.accounts_for(before)
        &&& self.leads_on(before)
        &&& self.origin() == before.origin()
        &&& self.tickets() >= before.tickets()
        &&& forall|i: int|
            0 <= i < before.tickets() && Some(i) != ticket ==> #[trigger] self.has_landed(i)
                == before.has_landed(i)
        &&& forall|i: int|
            0 <= i < before.tickets() && Some(i) != ticket ==> #[trigger] self.has_counted(i)
                == before.has_counted(i)
        &&& forall|c: &Change<T>|
            before.runs(c) && Some(c.ticket()) != ticket ==> #[trigger] self.runs(c)
    }
}

/// What a step makes of the change of an operation: one that waits and is tired of it lets
/// go of its locks, and one that need not wait makes its own next step.
pub open spec fn change_steps<T: Ord>(
    next: Option<Change<T>>,
    change: Change<T>,
    list: &BusyList<T>,
    tired: bool,
) -> bool {
    let blocked = list.blocked(change.ticket());
    if blocked && !tired {
        next == Some(change)
    } else {
        &&& next is Some
        &&& next->0.ticket() == change.ticket()
        &&& next->0.height() == change.height()
        &&& next->0.decision() == change.decision()
        &&& next->0.steps_left() < change.steps_left()
        &&& next->0.decided() <==> change.decided() || change.deciding()
        &&& next->0.given_up() <==> change.given_up() || blocked || list.refuses(&change)
    }
}

/// What comes of a change by a step of its operation: while it waits and is not tired of it,
/// nothing. Else it comes nearer to its end, is decided exactly if that was due, and is given
/// up exactly if it was tired of waiting or found its position stale.
pub proof fn law_change_steps<T: Ord>(
    next: Option<Change<T>>,
    change: Change<T>,
    list: &BusyList<T>,
    tired: bool,
)
    requires
        list.wf(),
        list.runs(&change),
        !change.landed(),
        change_steps(next, change, list, tired),
    ensures
        next is Some,
        list.blocked(change.ticket()) && !tired ==> next == Some(change),
        !list.blocked(change.ticket()) || tired ==> {
            &&& next->0.ticket() == change.ticket()
            &&& next->0.decision() == change.decision()
            &&& next->0.height() == change.height()
            &&& next->0.steps_left() < change.steps_left()
        },
        change.decided() ==> next->0.decided(),
        change.deciding() ==> next->0.decided() && !next->0.given_up(),
        !change.decided() && !change.deciding() ==> !next->0.decided(),
        next->0.given_up() && !change.given_up() ==> (list.blocked(change.ticket()) && tired)
            || list.refuses(&change),
{
    list.law_course(&change);
}

/// A search still agrees with the list after a step, and has less of its way to go.
pub open spec fn comes_nearer<T: Ord + BorrowKey<Q>, Q: Ord + ?Sized>(
    search: &Search,
    before: &Search,
    list: &BusyList<T>,
    key: &Q,
) -> bool {
    &&& search.agrees(&list.inner(), key)
    &&& 0 <= search.distance(&list.inner(), key)
    &&& search.levels_left() < before.levels_left() || (search.levels_left()
        == before.levels_left() && search.distance(&list.inner(), key) < before.distance(
        &list.inner(),
        key,
    ))
}

/// How long a thread waits for the locks of its change: as long as it would wait for any
/// one of them, from the last step on that it could make.
pub struct Patience {
    wait: SpinWait,
    waits: Ghost<nat>,
}

impl Patience {
    /// The thread waits as one does that finds a lock held at every look.
    pub closed spec fn wf(&self) -> bool {
        self.wait == held_throughout(self.waits@)
    }

    /// How many steps in a row had to wait.
    pub closed spec fn waits(&self) -> nat {
        self.waits@
    }

    /// A thread that has not had to wait.
    pub fn new() -> (patience: Self)
        ensures
            patience.wf(),
            patience.waits() == 0,
    {
        Patience { wait: SpinWait::new(), waits: Ghost(0) }
    }

    /// Whether the thread has waited for too long.
    pub fn is_tired(&self) -> (tired: bool)
        requires
            self.wf(),
        ensures
            tired <==> self.waits() >= SPIN_LIMIT,
    {
        proof {
            law_held_lock_is_given_up(self.waits@);
        }
        matches!(self.wait, SpinWait::TimedOut)
    }

    /// Takes note of what a step came to, and returns the pause to make before the next
    /// one.
    pub fn heed(&mut self, outcome: Outcome) -> (pause: Pause)
        requires
            old(self).wf(),
        ensures
            final(self).wf(),
            match outcome {
                Outcome::Stepped => final(self).waits() == 0 && pause == Pause::Go,
                Outcome::Waiting => {
                    &&& final(self).waits() == old(self).waits() + 1
                    &&& pause == polled(true, held_throughout(old(self).waits())).2
                },
            },
    {
        match outcome {
            Outcome::Stepped => {
                *self = Patience::new();
                Pause::Go
            },
            Outcome::Waiting => {
                proof {
                    lemma_held(self.waits@);
                    self.waits@ = self.waits@ + 1;
                }
                let held: bool = matches!(self.wait, SpinWait::Waiting { .. });
                self.wait.advance(held)
            },
        }
    }
}

impl<T: Ord> Insertion<T> {
    /// The element that is inserted.
    pub closed spec fn subject(&self) -> T {
        self.subject@
    }

    /// The search for the position, as far as it has come.
    pub closed spec fn search(&self) -> Search {
        self.search
    }

    /// The change that is under way or has been made.
    pub closed spec fn underway(&self) -> Option<Change<T>> {
        self.change
    }

    /// The ticket of the change.
    pub open spec fn ticket(&self) -> Option<int> {
        match self.underway() {
            Some(change) => Some(change.ticket()),
            None => None,
        }
    }

    /// The change waits for a lock that another one holds.
    pub open spec fn blocked(&self, list: &BusyList<T>) -> bool {
        self.underway() matches Some(change) && list.blocked(change.ticket())
    }

    /// The next step is the one at which the insertion happens.
    pub open spec fn deciding(&self) -> bool {
        self.underway() matches Some(change) && change.deciding()
    }

    /// What is recorded of the insertion when it happens.
    pub open spec fn decision(&self) -> Decision<T> {
        self.underway()->0.decision()
    }

    /// The insertion has been made, and holds no locks any more.
    pub open spec fn finished(&self) -> bool {
        self.underway() matches Some(change) && change.landed() && change.decided()
    }

    /// Begins an insertion.
    pub fn new(list: &BusyList<T>, element: T) -> (insertion: Self)
        requires
            list.wf(),
        ensures
            list.pursues(&insertion),
            insertion.subject() == element,
            insertion.underway() is None,
            insertion.search().begins(),
            list.still() && total_order::<T>() ==> insertion.search().agrees::<T, T>(
                &list.inner(),
                &element,
            ),
    {
        let ghost subject = element;
        let search: Search = list.as_list().search::<T>(&element);
        Insertion { element: Some(element), search, change: None, subject: Ghost(subject) }
    }

    /// Makes the next step, if that does not need a lock that another change holds. One
    /// that is tired of waiting lets go of its locks instead.
    ///
    /// The draw decides how high a new tower is.
    pub fn step(&mut self, list: &mut BusyList<T>, draw: u32, tired: bool) -> (outcome: Outcome)
        requires
            total_order::<T>(),
            old(list).wf(),
            old(list).pursues(old(self)),
            !old(self).finished(),
        ensures
            outcome is Waiting <==> old(self).blocked(old(list)) && !tired,
            final(list).wf(),
            final(list).pursues(final(self)),
            final(list).moved(old(list), old(self).ticket()),
            final(self).subject() == old(self).subject(),
            old(self).deciding() ==> {
                &&& old(self).decision().inserts
                &&& old(self).decision().subject == old(self).subject()
                &&& Some(old(self).decision().ticket) == old(self).ticket()
            },
            if old(self).deciding() {
                &&& final(list).history() == old(list).history().push(old(self).decision())
                &&& final(list)@ == with_element(old(list)@, old(self).subject())
            } else {
                &&& final(list).history() == old(list).history()
                &&& final(list)@ == old(list)@
                &&& final(list).undisturbed(old(list))
                &&& old(list).still() ==> final(list).still()
            },
            match old(self).underway() {
                Some(change) if !change.landed() => change_steps(
                    final(self).underway(),
                    change,
                    old(list),
                    tired,
                ),
                Some(_) => {
                    &&& *final(list) == *old(list)
                    &&& final(self).underway() is None
                    &&& final(self).search().begins()
                    &&& old(list).still() ==> final(self).search().agrees::<T, T>(
                        &old(list).inner(),
                        &old(self).subject(),
                    )
                },
                None if old(self).search().done() => {
                    let at = old(self).search().position();
                    &&& final(self).underway() is Some
                    &&& final(list).begun(old(list), &final(self).underway()->0)
                    &&& final(self).underway()->0.begins_at(&at)
                    &&& final(self).underway()->0.height() == old(list).inner().tower_at(&at, draw)
                },
                None => {
                    &&& *final(list) == *old(list)
                    &&& final(self).underway() is None
                    &&& old(self).search().steps_to::<T, T>(
                        &final(self).search(),
                        &old(list).inner(),
                        &old(self).subject(),
                    )
                    &&& old(list).still() && old(self).search().agrees::<T, T>(
                        &old(list).inner(),
                        &old(self).subject(),
                    ) ==> comes_nearer::<T, T>(
                        &final(self).search(),
                        &old(self).search(),
                        old(list),
                        &old(self).subject(),
                    )
                },
            },
    {
        match self.change.take() {
            None => {
                proof {
                    list.lemma_unmoved(old(list));
                }
                if let Some(element) = self.element.take() {
                    if self.search.is_done() {
                        let at: Position = self.search.finish::<T, T>(list.as_list(), &element);
                        self.change = Some(Change::insert(list, element, at, draw));
                    } else {
                        self.search.step::<T, T>(list.as_list(), &element);
                        self.element = Some(element);
                    }
                }
                Outcome::Stepped
            },
            Some(change) => {
                let mut change = change;
                proof {
                    list.law_course(&change);
                    change.lemma_decision();
                }
                if change.is_landed() {
                    proof {
                        list.lemma_unmoved(old(list));
                    }
                    if let Some(element) = change.into_element(list) {
                        self.search = list.as_list().search::<T>(&element);
                        self.element = Some(element);
                    }
                    return Outcome::Stepped;
                }
                let mut outcome: Outcome = change.step(list);
                if tired && matches!(outcome, Outcome::Waiting) {
                    change.let_go(list);
                    outcome = Outcome::Stepped;
                }
                self.change = Some(change);
                outcome
            },
        }
    }

    /// Whether the insertion has been made, and holds no locks any more.
    pub fn is_finished(&self) -> (finished: bool)
        ensures
            finished == self.finished(),
    {
        match &self.change {
            Some(change) => change.is_landed() && change.is_decided(),
            None => false,
        }
    }

    /// The change that is under way or has been made.
    pub fn change(&self) -> (change: Option<&Change<T>>)
        ensures
            match change {
                Some(change) => self.underway() == Some(*change),
                None => self.underway() is None,
            },
    {
        self.change.as_ref()
    }

    /// The change of an insertion is one of the changes of the list.
    pub proof fn law_insertion_runs(&self, list: &BusyList<T>)
        requires
            list.pursues(self),
        ensures
            self.underway() matches Some(change) ==> {
                &&& list.runs(&change)
                &&& change.inserts()
                &&& change.subject() == self.subject()
            },
    {
    }

    /// An insertion is finished only once it has been decided: it is in the history of the
    /// list.
    pub proof fn law_insertion_ends_decided(&self, list: &BusyList<T>)
        requires
            list.wf(),
            list.pursues(self),
            self.finished(),
        ensures
            list.history().contains(self.decision()),
            self.decision().inserts,
            self.decision().subject == self.subject(),
            Some(self.decision().ticket) == self.ticket(),
            list.has_landed(self.ticket()->0),
    {
        let change = self.change->0;
        list.law_decisions(&change);
        list.law_course(&change);
        change.lemma_decision();
    }

    /// An insertion goes on while others make their steps.
    pub proof fn law_insertion_survives(
        &self,
        list: &BusyList<T>,
        before: &BusyList<T>,
        ticket: Option<int>,
    )
        requires
            list.moved(before, ticket),
            before.pursues(self),
            self.ticket() is None || self.ticket() != ticket,
        ensures
            list.pursues(self),
    {
        match self.change {
            Some(change) => {
                assert(list.runs(&change));
            },
            None => {
                self.search.law_search_survives::<T, T>(
                    &list.inner(),
                    &before.inner(),
                    &self.subject@,
                );
            },
        }
    }
}

impl<T: Ord> Removal<T> {
    /// The search for the position, as far as it has come.
    pub closed spec fn search(&self) -> Search {
        self.search
    }

    /// The change that is under way or has been made.
    pub closed spec fn underway(&self) -> Option<Change<T>> {
        self.change
    }

    /// The ticket of the change.
    pub open spec fn ticket(&self) -> Option<int> {
        match self.underway() {
            Some(change) => Some(change.ticket()),
            None => None,
        }
    }

    /// The change waits for a lock that another one holds.
    pub open spec fn blocked(&self, list: &BusyList<T>) -> bool {
        self.underway() matches Some(change) && list.blocked(change.ticket())
    }

    /// The next step is the one at which the removal happens.
    pub open spec fn deciding(&self) -> bool {
        self.underway() matches Some(change) && change.deciding()
    }

    /// What is recorded of the removal when it happens.
    pub open spec fn decision(&self) -> Decision<T> {
        self.underway()->0.decision()
    }

    /// There was nothing to remove.
    pub closed spec fn absent(&self) -> bool {
        self.absent
    }

    /// The entry has been removed, and no locks are held any more.
    pub open spec fn taken(&self) -> bool {
        self.underway() matches Some(change) && change.landed() && change.decided()
    }

    /// The removal has no more steps to make.
    pub open spec fn finished(&self) -> bool {
        self.absent() || self.taken()
    }

    /// The removal, begun since the start, does not miss the node with the number: it has
    /// come to it or is on its way to it, or else the node has been removed.
    pub open spec fn sees(&self, list: &BusyList<T>, start: &BusyList<T>, entry: int) -> bool {
        &&& 0 <= entry < start.inner().entries() <= list.inner().entries()
        &&& start.tickets() <= list.tickets()
        &&& list.keeps(entry) ==> list.lasting(start, entry)
        &&& self.absent() ==> !list.keeps(entry)
        &&& match self.underway() {
            Some(change) => start.tickets() <= change.ticket(),
            None => !self.absent() && list.keeps(entry) ==> list.guides(
                start,
                &self.search(),
                entry,
            ),
        }
    }

    /// Begins the removal of what has the key.
    pub fn new<Q>(list: &BusyList<T>, key: &Q) -> (removal: Self) where
        T: BorrowKey<Q>,
        Q: Ord + ?Sized,

        requires
            list.wf(),
        ensures
            list.pursues_removal(&removal, key),
            !removal.absent(),
            removal.underway() is None,
            removal.search().begins(),
            list.still() && key_order::<T, Q>() ==> removal.search().agrees(&list.inner(), key),
            forall|start: &BusyList<T>, e: int| #[trigger]
                list.lasting(start, e) && 0 <= e < start.inner().entries()
                    <= list.inner().entries() && start.tickets() <= list.tickets()
                    ==> removal.sees(list, start, e),
    {
        let search: Search = list.as_list().search(key);
        let removal = Removal { search, change: None, absent: false };
        proof {
            assert forall|start: &BusyList<T>, e: int| #[trigger]
                list.lasting(start, e) && 0 <= e < start.inner().entries()
                    <= list.inner().entries() && start.tickets()
                    <= list.tickets() implies removal.sees(list, start, e) by {
                list.law_search_sets_out(start, &search, e);
            }
        }
        removal
    }

    /// What a step makes of the parts of the removal.
    spec fn goes_on<Q>(
        &self,
        before: &Self,
        list: &BusyList<T>,
        list_before: &BusyList<T>,
        key: &Q,
    ) -> bool where T: BorrowKey<Q>, Q: Ord + ?Sized {
        match (before.change, self.change) {
            (Some(c), Some(next)) => !self.absent && next.ticket() == c.ticket(),
            (Some(_), None) => !self.absent && self.search.begins() && *list == *list_before,
            (None, Some(next)) => !self.absent && next.ticket() == list_before.tickets(),
            (None, None) => {
                &&& *list == *list_before
                &&& if self.absent {
                    let at = before.search.position();
                    &&& before.search.done()
                    &&& !at.found() || list.inner().gone(&at)
                } else {
                    &&& !before.search.done()
                    &&& before.search.steps_to(&self.search, &list.inner(), key)
                }
            },
        }
    }

    proof fn lemma_sees_on<Q>(
        &self,
        before: &Self,
        list: &BusyList<T>,
        list_before: &BusyList<T>,
        key: &Q,
    ) where T: BorrowKey<Q>, Q: Ord + ?Sized
        requires
            key_order::<T, Q>(),
            list.wf(),
            list_before.wf(),
            list_before.pursues_removal(before, key),
            list.moved(list_before, before.ticket()),
            !before.absent,
            self.goes_on(before, list, list_before, key),
        ensures
            forall|start: &BusyList<T>, e: int| #[trigger]
                before.sees(list_before, start, e) && has_key(
                    list_before.inner().element_of(e),
                    key,
                ) ==> self.sees(list, start, e),
    {
        assert forall|start: &BusyList<T>, e: int| #[trigger]
            before.sees(list_before, start, e) && has_key(
                list_before.inner().element_of(e),
                key,
            ) implies self.sees(list, start, e) by {
            if list.keeps(e) {
                assert(list_before.keeps(e));
                list.law_lasting_goes_on(list_before, start, e);
                match (before.change, self.change) {
                    (Some(_), None) => {
                        list.law_search_sets_out(start, &self.search, e);
                    },
                    (None, None) => {
                        if self.absent {
                            list.law_search_finds(start, &before.search, e);
                        } else {
                            list.law_search_keeps_to_the_way(
                                start,
                                &before.search,
                                &self.search,
                                e,
                                key,
                            );
                        }
                    },
                    _ => {},
                }
            }
        }
    }

    /// Makes the next step, if that does not need a lock that another change holds. One
    /// that is tired of waiting lets go of its locks instead.
    pub fn step<Q>(&mut self, list: &mut BusyList<T>, key: &Q, tired: bool) -> (outcome:
        Outcome) where T: BorrowKey<Q>, Q: Ord + ?Sized
        requires
            key_order::<T, Q>(),
            old(list).wf(),
            old(list).pursues_removal(old(self), key),
            !old(self).finished(),
        ensures
            outcome is Waiting <==> old(self).blocked(old(list)) && !tired,
            final(list).wf(),
            final(list).pursues_removal(final(self), key),
            forall|start: &BusyList<T>, e: int| #[trigger]
                old(self).sees(old(list), start, e) && has_key(
                    old(list).inner().element_of(e),
                    key,
                ) ==> final(self).sees(final(list), start, e),
            final(list).moved(old(list), old(self).ticket()),
            old(self).deciding() ==> {
                &&& !old(self).decision().inserts
                &&& has_key(old(self).decision().subject, key)
                &&& Some(old(self).decision().ticket) == old(self).ticket()
            },
            if old(self).deciding() {
                &&& final(list).history() == old(list).history().push(old(self).decision())
                &&& final(list)@ == without_key(old(list)@, key)
            } else {
                &&& final(list).history() == old(list).history()
                &&& final(list)@ == old(list)@
                &&& final(list).undisturbed(old(list))
                &&& old(list).still() ==> final(list).still()
            },
            match old(self).underway() {
                Some(change) if !change.landed() => {
                    &&& !final(self).absent()
                    &&& change_steps(final(self).underway(), change, old(list), tired)
                },
                Some(_) => {
                    &&& *final(list) == *old(list)
                    &&& !final(self).absent()
                    &&& final(self).underway() is None
                    &&& final(self).search().begins()
                    &&& old(list).still() ==> final(self).search().agrees(&old(list).inner(), key)
                },
                None if old(self).search().done() => {
                    let at = old(self).search().position();
                    &&& final(self).absent() <==> !at.found() || old(list).inner().gone(&at)
                    &&& old(list).still() && old(self).search().agrees(&old(list).inner(), key)
                        ==> (final(self).absent() <==> lookup(old(list)@, key) is None)
                    &&& if final(self).absent() {
                        *final(list) == *old(list)
                    } else {
                        &&& final(self).underway() is Some
                        &&& final(list).begun(old(list), &final(self).underway()->0)
                        &&& final(self).underway()->0.begins_at(&at)
                    }
                },
                None => {
                    &&& *final(list) == *old(list)
                    &&& !final(self).absent()
                    &&& final(self).underway() is None
                    &&& old(self).search().steps_to(
                        &final(self).search(),
                        &old(list).inner(),
                        key,
                    )
                    &&& old(list).still() && old(self).search().agrees(&old(list).inner(), key)
                        ==> comes_nearer(
                        &final(self).search(),
                        &old(self).search(),
                        old(list),
                        key,
                    )
                },
            },
    {
        match self.change.take() {
            None => {
                proof {
                    list.lemma_unmoved(old(list));
                }
                if self.search.is_done() {
                    let at: Position = self.search.finish(list.as_list(), key);
                    match Change::remove(list, key, at) {
                        Some(change) => {
                            self.change = Some(change);
                        },
                        None => {
                            self.absent = true;
                        },
                    }
                } else {
                    self.search.step(list.as_list(), key);
                }
                proof {
                    self.lemma_sees_on(old(self), list, old(list), key);
                }
                Outcome::Stepped
            },
            Some(change) => {
                let mut change = change;
                proof {
                    list.law_course(&change);
                    change.lemma_decision();
                }
                if change.is_landed() {
                    proof {
                        list.lemma_unmoved(old(list));
                    }
                    self.search = list.as_list().search(key);
                    proof {
                        self.lemma_sees_on(old(self), list, old(list), key);
                    }
                    return Outcome::Stepped;
                }
                proof {
                    if change.deciding() {
                        law_key_of_element(list@, list.towers(), change.subject(), key);
                    }
                }
                let mut outcome: Outcome = change.step(list);
                if tired && matches!(outcome, Outcome::Waiting) {
                    change.let_go(list);
                    outcome = Outcome::Stepped;
                }
                self.change = Some(change);
                proof {
                    self.lemma_sees_on(old(self), list, old(list), key);
                }
                outcome
            },
        }
    }

    /// Whether the removal has no more steps to make.
    pub fn is_finished(&self) -> (finished: bool)
        ensures
            finished == self.finished(),
    {
        if self.absent {
            true
        } else {
            match &self.change {
                Some(change) => change.is_landed() && change.is_decided(),
                None => false,
            }
        }
    }

    /// The change that is under way or has been made.
    pub fn change(&self) -> (change: Option<&Change<T>>)
        ensures
            match change {
                Some(change) => self.underway() == Some(*change),
                None => self.underway() is None,
            },
    {
        self.change.as_ref()
    }

    /// The change of a removal is one of the changes of the list.
    pub proof fn law_removal_runs<Q>(&self, list: &BusyList<T>, key: &Q) where
        T: BorrowKey<Q>,
        Q: Ord + ?Sized,

        requires
            list.pursues_removal(self, key),
        ensures
            self.underway() matches Some(change) ==> {
                &&& list.runs(&change)
                &&& !change.inserts()
                &&& has_key(change.subject(), key)
            },
    {
    }

    /// A removal is finished only once it has been decided, and then it is in the history
    /// of the list, or has found nothing to remove.
    pub proof fn law_removal_ends_decided<Q>(&self, list: &BusyList<T>, key: &Q) where
        T: BorrowKey<Q>,
        Q: Ord + ?Sized,

        requires
            list.wf(),
            list.pursues_removal(self, key),
            self.finished(),
        ensures
            self.absent() <==> !self.taken(),
            self.taken() ==> {
                &&& list.history().contains(self.decision())
                &&& !self.decision().inserts
                &&& has_key(self.decision().subject, key)
                &&& Some(self.decision().ticket) == self.ticket()
                &&& list.has_landed(self.ticket()->0)
            },
    {
        if self.taken() {
            let change = self.change->0;
            list.law_decisions(&change);
            list.law_course(&change);
            change.lemma_decision();
        }
    }

    /// Of several overlapping removals of what has one key, no two take it, unless something
    /// with the key is inserted meanwhile.
    pub proof fn law_one_removal_takes<Q>(&self, other: &Self, list: &BusyList<T>, key: &Q) where
        T: BorrowKey<Q>,
        Q: Ord + ?Sized,

        requires
            key_order::<T, Q>(),
            list.wf(),
            list.pursues_removal(self, key),
            list.pursues_removal(other, key),
            self.taken(),
            other.taken(),
            forall|i: int|
                0 <= i < list.history().len() && (#[trigger] list.history()[i]).inserts
                    ==> !has_key(list.history()[i].subject, key),
        ensures
            self.ticket() == other.ticket(),
            self.decision() == other.decision(),
    {
        let (history, element) = (list.history(), self.decision().subject);
        self.law_removal_ends_decided(list, key);
        other.law_removal_ends_decided(list, key);
        list.law_linearizable();
        lemma_key_of_element(element, key);
        assert forall|i: int| 0 <= i < history.len() implies !restores(
            #[trigger] history[i],
            element,
        ) by {
            assert(has_key(history[i].subject, key) <==> has_key::<T, T>(
                history[i].subject,
                &element,
            ));
        }
        law_one_removal(list.origin(), history, element);
        let i = choose|i: int| 0 <= i < history.len() && history[i] == self.decision();
        let j = choose|j: int| 0 <= j < history.len() && history[j] == other.decision();
        assert(has_key::<T, T>(element, &element));
        assert(has_key::<T, T>(other.decision().subject, &element));
        if i < j {
            lemma_two_removals(history, i, j, element);
        } else {
            lemma_two_removals(history, j, i, element);
        }
    }

    /// A removal does not come to miss a node while others make their steps.
    pub proof fn law_removal_sees_on(
        &self,
        list: &BusyList<T>,
        before: &BusyList<T>,
        ticket: Option<int>,
        start: &BusyList<T>,
        entry: int,
    )
        requires
            total_order::<T>(),
            list.wf(),
            before.wf(),
            list.moved(before, ticket),
            self.sees(before, start, entry),
        ensures
            self.sees(list, start, entry),
    {
        if list.keeps(entry) {
            assert(before.keeps(entry));
            list.law_lasting_goes_on(before, start, entry);
            if self.underway() is None && !self.absent() {
                list.law_search_stays_on_its_way(before, start, &self.search(), entry);
            }
        }
    }

    /// Of overlapping removals of what has one key, which were begun after a moment at which
    /// that was in the list, exactly one takes it, unless something with the key is inserted
    /// meanwhile or others remove it: once they have finished, one has taken it, and the
    /// others have found nothing. Then nothing in the list has the key, and if nothing else
    /// was changed, the list is shorter by one.
    pub proof fn law_exactly_one_removal_takes<Q>(
        removals: Seq<Removal<T>>,
        list: &BusyList<T>,
        start: &BusyList<T>,
        entry: int,
        key: &Q,
    ) -> (winner: int) where T: BorrowKey<Q>, Q: Ord + ?Sized
        requires
            key_order::<T, Q>(),
            start.wf(),
            list.wf(),
            list.accounts_for(start),
            list.origin() == start.origin(),
            start.keeps(entry),
            has_key(start.inner().element_of(entry), key),
            removals.len() > 0,
            forall|r: int|
                0 <= r < removals.len() ==> {
                    &&& list.pursues_removal(&(#[trigger] removals[r]), key)
                    &&& removals[r].finished()
                    &&& removals[r].sees(list, start, entry)
                },
            forall|r: int, q: int|
                0 <= r < q < removals.len() && (#[trigger] removals[r]).ticket() is Some ==> (
                #[trigger] removals[q]).ticket() != removals[r].ticket(),
            forall|i: int|
                0 <= i < list.since(start).len() && has_key(
                    (#[trigger] list.since(start)[i]).subject,
                    key,
                ) ==> !list.since(start)[i].inserts && exists|r: int|
                    0 <= r < removals.len() && (#[trigger] removals[r]).ticket() == Some(
                        list.since(start)[i].ticket,
                    ),
        ensures
            0 <= winner < removals.len(),
            removals[winner].taken(),
            forall|r: int|
                0 <= r < removals.len() && r != winner ==> (#[trigger] removals[r]).absent(),
            lookup(list@, key) is None,
            (forall|i: int|
                0 <= i < list.since(start).len() ==> has_key(
                    (#[trigger] list.since(start)[i]).subject,
                    key,
                )) ==> list@.len() == start@.len() - 1,
    {
        let tail = list.since(start);
        let place = law_finished_removal_is_decided(&removals[0], list, start, entry, key);
        list.law_linearizable_since(start);
        lemma_unique_in_tail(start@, tail, start.inner().element_of(entry), key, place);
        let ticket = tail[place].ticket;
        let winner = choose|r: int|
            0 <= r < removals.len() && (#[trigger] removals[r]).ticket() == Some(ticket);
        assert(removals[winner].finished());
        assert forall|r: int| 0 <= r < removals.len() && r != winner implies (
        #[trigger] removals[r]).absent() by {
            if removals[r].taken() {
                lemma_place_of_decision(&removals[r], list, start, key);
                assert(removals[r].ticket() == Some(ticket));
            }
        }
        winner
    }

    /// A removal goes on while others make their steps.
    pub proof fn law_removal_survives<Q>(
        &self,
        list: &BusyList<T>,
        before: &BusyList<T>,
        ticket: Option<int>,
        key: &Q,
    ) where T: BorrowKey<Q>, Q: Ord + ?Sized
        requires
            list.moved(before, ticket),
            before.pursues_removal(self, key),
            self.ticket() is None || self.ticket() != ticket,
        ensures
            list.pursues_removal(self, key),
    {
        match self.change {
            Some(change) => {
                assert(list.runs(&change));
            },
            None => {
                self.search.law_search_survives(&list.inner(), &before.inner(), key);
            },
        }
    }
}

/// What concerns a key concerns an element that has it.
proof fn lemma_tail_of_key<T: Ord + BorrowKey<Q>, Q: Ord + ?Sized>(
    tail: Seq<Decision<T>>,
    element: T,
    key: &Q,
)
    requires
        key_order::<T, Q>(),
        has_key(element, key),
        forall|i: int|
            0 <= i < tail.len() && has_key((#[trigger] tail[i]).subject, key) ==> !tail[i].inserts,
    ensures
        forall|i: int|
            0 <= i < tail.len() ==> {
                &&& !restores(#[trigger] tail[i], element)
                &&& has_key(tail[i].subject, key) <==> removes(tail[i], element)
            },
{
    lemma_key_of_element(element, key);
    assert forall|i: int| 0 <= i < tail.len() implies {
        &&& !restores(#[trigger] tail[i], element)
        &&& has_key(tail[i].subject, key) <==> removes(tail[i], element)
    } by {
        assert(has_key(tail[i].subject, key) <==> has_key::<T, T>(tail[i].subject, &element));
    }
}

/// What comes of a list from which an element is removed and to which none like it is added.
proof fn lemma_tail_contents<T: Ord + BorrowKey<Q>, Q: Ord + ?Sized>(
    start: Seq<T>,
    tail: Seq<Decision<T>>,
    element: T,
    key: &Q,
    place: int,
)
    requires
        key_order::<T, Q>(),
        has_key(element, key),
        ascending(start),
        start.contains(element),
        sensible(start, tail),
        forall|i: int| 0 <= i < tail.len() ==> !restores(#[trigger] tail[i], element),
        0 <= place < tail.len(),
        removes(tail[place], element),
    ensures
        lookup(replay(start, tail), key) is None,
        forall|i: int|
            0 <= i < tail.len() && removes(#[trigger] tail[i], element) ==> i == place,
        (forall|i: int| 0 <= i < tail.len() ==> removes(#[trigger] tail[i], element)) ==> replay(
            start,
            tail,
        ).len() == start.len() - 1,
{
    law_one_removal(start, tail, element);
    lemma_two_removals(tail, place, place, element);
    assert forall|i: int|
        0 <= i < tail.len() && removes(#[trigger] tail[i], element) implies i == place by {
        if i < place {
            lemma_two_removals(tail, i, place, element);
        } else {
            lemma_two_removals(tail, place, i, element);
        }
    }
    assert(lookup(replay(start, tail), key) is None) by {
        assert(lookup::<T, T>(start, &element) is Some) by {
            law_lookup::<T, T>(start, &element);
            lemma_key_of_element(element, key);
            assert(has_key::<T, T>(element, &element));
        }
        law_key_of_element(replay(start, tail), Seq::empty(), element, key);
    }
    if forall|i: int| 0 <= i < tail.len() ==> removes(#[trigger] tail[i], element) {
        assert forall|i: int| 0 <= i < tail.len() implies !(#[trigger] tail[i]).inserts by {
            assert(removes(tail[i], element));
        }
        law_removals_length(start, tail);
        assert(removes(tail[0], element));
        if tail.len() >= 2 {
            assert(removes(tail[1], element));
        }
    }
}

/// Where an element was in the list at the start and none like it has been inserted since,
/// one change at most concerns it.
proof fn lemma_unique_in_tail<T: Ord + BorrowKey<Q>, Q: Ord + ?Sized>(
    start: Seq<T>,
    tail: Seq<Decision<T>>,
    element: T,
    key: &Q,
    place: int,
)
    requires
        key_order::<T, Q>(),
        has_key(element, key),
        ascending(start),
        start.contains(element),
        0 <= place < tail.len(),
        sensible(start, tail),
        forall|i: int|
            0 <= i < tail.len() && has_key((#[trigger] tail[i]).subject, key) ==> !tail[i].inserts,
        has_key(tail[place].subject, key),
    ensures
        forall|i: int|
            0 <= i < tail.len() && has_key((#[trigger] tail[i]).subject, key) ==> i == place,
        lookup(replay(start, tail), key) is None,
        (forall|i: int| 0 <= i < tail.len() ==> has_key((#[trigger] tail[i]).subject, key))
            ==> replay(start, tail).len() == start.len() - 1,
{
    lemma_tail_of_key(tail, element, key);
    lemma_tail_contents(start, tail, element, key, place);
}

/// Once a removal that has not missed a node has finished, the removal of that node, or of
/// one like it, has been decided.
pub proof fn law_finished_removal_is_decided<T: Ord + BorrowKey<Q>, Q: Ord + ?Sized>(
    removal: &Removal<T>,
    list: &BusyList<T>,
    start: &BusyList<T>,
    entry: int,
    key: &Q,
) -> (place: int)
    requires
        key_order::<T, Q>(),
        start.wf(),
        list.wf(),
        list.accounts_for(start),
        start.keeps(entry),
        has_key(start.inner().element_of(entry), key),
        list.pursues_removal(removal, key),
        removal.finished(),
        removal.sees(list, start, entry),
    ensures
        0 <= place < list.since(start).len(),
        has_key(list.since(start)[place].subject, key),
        start@.contains(start.inner().element_of(entry)),
{
    let i = start.law_kept_is_present(entry);
    assert(start@[i] == start.inner().element_of(entry));
    if removal.taken() {
        lemma_place_of_decision(removal, list, start, key)
    } else {
        let (tail, element) = (list.since(start), start.inner().element_of(entry));
        list.lemma_since(start, arbitrary(), element);
        let i = choose|i: int|
            0 <= i < tail.len() && has_key::<T, T>((#[trigger] tail[i]).subject, &element);
        lemma_key_of_element(element, key);
        assert(has_key(tail[i].subject, key) <==> has_key::<T, T>(tail[i].subject, &element));
        i
    }
}

/// Where a removal that has been made stands in the history: behind the start, since it was
/// begun after that.
proof fn lemma_place_of_decision<T: Ord + BorrowKey<Q>, Q: Ord + ?Sized>(
    removal: &Removal<T>,
    list: &BusyList<T>,
    start: &BusyList<T>,
    key: &Q,
) -> (place: int)
    requires
        list.wf(),
        start.wf(),
        list.accounts_for(start),
        list.pursues_removal(removal, key),
        removal.taken(),
        removal.ticket() matches Some(t) && start.tickets() <= t,
    ensures
        0 <= place < list.since(start).len(),
        list.since(start)[place] == removal.decision(),
        Some(list.since(start)[place].ticket) == removal.ticket(),
        has_key(list.since(start)[place].subject, key),
        !list.since(start)[place].inserts,
{
    let (tail, d) = (list.since(start), removal.decision());
    removal.law_removal_ends_decided(list, key);
    start.law_linearizable();
    assert(!start.history().contains(d));
    list.lemma_since(start, d, d.subject);
    choose|i: int| 0 <= i < tail.len() && tail[i] == d
}

} // verus!
