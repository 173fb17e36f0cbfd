//! The order in which overlapping changes have been decided, and what follows from it.
use vstd::prelude::*;

use crate::laws::{
    law_insert_entries, law_insert_then_get, law_lookup, law_remove_entries, law_remove_length,
    law_remove_then_get,
};
use crate::order::{
    ascending, has_key, lemma_follows, lookup, total_order, with_element, without_key,
};

verus! {

/// A change that has been decided.
pub struct Decision<T> {
    /// The ticket of the change.
    pub ticket: int,
    /// It was an insertion, not a removal.
    pub inserts: bool,
    /// The element that was inserted or removed.
    pub subject: T,
}

/// The contents after a change has been decided.
pub open spec fn decided<T: Ord>(s: Seq<T>, d: Decision<T>) -> Seq<T> {
    if d.inserts {
        with_element(s, d.subject)
    } else {
        without_key::<T, T>(s, &d.subject)
    }
}

/// The contents after changes have been made one after the other.
pub open spec fn replay<T: Ord>(start: Seq<T>, history: Seq<Decision<T>>) -> Seq<T>
    decreases history.len(),
{
    if history.len() == 0 {
        start
    } else {
        decided(replay(start, history.drop_last()), history.last())
    }
}

/// Every removal takes out an element that is there.
pub open spec fn sensible<T: Ord>(start: Seq<T>, history: Seq<Decision<T>>) -> bool {
    forall|i: int|
        0 <= i < history.len() && !(#[trigger] history[i]).inserts ==> lookup::<T, T>(
            replay(start, history.take(i)),
            &history[i].subject,
        ) == Some(history[i].subject)
}

/// The decision is the removal of an element that compares equal to the given one.
pub open spec fn removes<T: Ord>(d: Decision<T>, element: T) -> bool {
    !d.inserts && has_key::<T, T>(d.subject, &element)
}

/// The decision is the insertion of an element that compares equal to the given one.
pub open spec fn restores<T: Ord>(d: Decision<T>, element: T) -> bool {
    d.inserts && has_key::<T, T>(d.subject, &element)
}

pub(crate) proof fn lemma_replay_push<T: Ord>(
    start: Seq<T>,
    history: Seq<Decision<T>>,
    d: Decision<T>,
)
    requires
        sensible(start, history),
        d.inserts || lookup::<T, T>(replay(start, history), &d.subject) == Some(d.subject),
    ensures
        replay(start, history.push(d)) == decided(replay(start, history), d),
        sensible(start, history.push(d)),
{
    let longer = history.push(d);
    assert(longer.drop_last() =~= history);
    assert forall|i: int| 0 <= i < longer.len() && !(
    #[trigger] longer[i]).inserts implies lookup::<T, T>(
        replay(start, longer.take(i)),
        &longer[i].subject,
    ) == Some(longer[i].subject) by {
        if i < history.len() {
            assert(longer.take(i) =~= history.take(i));
            assert(longer[i] == history[i]);
        } else {
            assert(longer.take(i) =~= history);
        }
    }
}

proof fn lemma_sensible_front<T: Ord>(start: Seq<T>, history: Seq<Decision<T>>)
    requires
        history.len() > 0,
        sensible(start, history),
    ensures
        sensible(start, history.drop_last()),
        !history.last().inserts ==> lookup::<T, T>(
            replay(start, history.drop_last()),
            &history.last().subject,
        ) == Some(history.last().subject),
{
    let front = history.drop_last();
    assert(history.take(history.len() - 1) =~= front);
    assert forall|i: int| 0 <= i < front.len() && !(
    #[trigger] front[i]).inserts implies lookup::<T, T>(
        replay(start, front.take(i)),
        &front[i].subject,
    ) == Some(front[i].subject) by {
        assert(front.take(i) =~= history.take(i));
        assert(history[i] == front[i]);
    }
}

/// The contents after changes are those after the first of them and then the others.
pub proof fn law_replay_in_parts<T: Ord>(start: Seq<T>, history: Seq<Decision<T>>, n: int)
    requires
        0 <= n <= history.len(),
        sensible(start, history),
    ensures
        replay(start, history) == replay(replay(start, history.take(n)), history.skip(n)),
        sensible(replay(start, history.take(n)), history.skip(n)),
    decreases history.len(),
{
    let (first, rest) = (history.take(n), history.skip(n));
    if n == history.len() {
        assert(first =~= history);
    } else {
        let front = history.drop_last();
        lemma_sensible_front(start, history);
        law_replay_in_parts(start, front, n);
        assert(front.take(n) =~= first);
        assert(front.skip(n) =~= rest.drop_last());
        assert(rest.last() == history.last());
        assert(rest =~= rest.drop_last().push(history.last()));
        lemma_replay_push(replay(start, first), rest.drop_last(), history.last());
    }
}

/// Whatever changes overlap, the elements ascend.
pub proof fn law_history_ascending<T: Ord>(start: Seq<T>, history: Seq<Decision<T>>)
    requires
        total_order::<T>(),
        ascending(start),
    ensures
        ascending(replay(start, history)),
    decreases history.len(),
{
    if history.len() > 0 {
        law_history_ascending(start, history.drop_last());
        law_insert_entries(replay(start, history.drop_last()), history.last().subject);
        law_remove_entries::<T, T>(replay(start, history.drop_last()), &history.last().subject);
    }
}

/// The list holds only what was in it at the start, and what some change inserted.
pub proof fn law_history_entries<T: Ord>(start: Seq<T>, history: Seq<Decision<T>>, x: T)
    requires
        total_order::<T>(),
        ascending(start),
        replay(start, history).contains(x),
    ensures
        start.contains(x) || exists|i: int|
            0 <= i < history.len() && (#[trigger] history[i]).inserts && history[i].subject == x,
    decreases history.len(),
{
    if history.len() > 0 {
        let front = history.drop_last();
        let s = replay(start, front);
        law_history_ascending(start, front);
        law_insert_entries(s, history.last().subject);
        law_remove_entries::<T, T>(s, &history.last().subject);
        assert(replay(start, history).contains(x));
        if history.last().inserts && history.last().subject == x {
            assert(history[history.len() - 1].inserts);
        } else {
            assert(s.contains(x));
            law_history_entries(start, front, x);
            if !start.contains(x) {
                let i = choose|i: int|
                    0 <= i < front.len() && (#[trigger] front[i]).inserts && front[i].subject == x;
                assert(history[i] == front[i]);
            }
        }
    }
}

/// How many decisions remove an element that compares equal to the given one.
pub open spec fn removals<T: Ord>(history: Seq<Decision<T>>, element: T) -> nat
    decreases history.len(),
{
    if history.len() == 0 {
        0
    } else {
        removals(history.drop_last(), element) + if removes(history.last(), element) {
            1nat
        } else {
            0
        }
    }
}

/// Removals at different places of the history count each.
pub(crate) proof fn lemma_two_removals<T: Ord>(
    history: Seq<Decision<T>>,
    i: int,
    j: int,
    element: T,
)
    requires
        0 <= i <= j < history.len(),
        removes(history[i], element),
        removes(history[j], element),
    ensures
        removals(history, element) >= if i < j {
            2nat
        } else {
            1
        },
    decreases history.len(),
{
    let front = history.drop_last();
    if j < front.len() {
        assert(front[i] == history[i] && front[j] == history[j]);
        lemma_two_removals(front, i, j, element);
    } else if i < j {
        assert(front[i] == history[i]);
        lemma_two_removals(front, i, i, element);
    }
}

/// Of several overlapping removals of one element, exactly one takes it: if nothing
/// that compares equal is inserted meanwhile, then an element that was there at the
/// start is still there exactly if no removal of it was decided, and no more than one
/// ever is.
pub proof fn law_one_removal<T: Ord>(start: Seq<T>, history: Seq<Decision<T>>, element: T)
    requires
        total_order::<T>(),
        ascending(start),
        sensible(start, history),
        forall|i: int| 0 <= i < history.len() ==> !restores(#[trigger] history[i], element),
    ensures
        removals(history, element) <= 1,
        lookup::<T, T>(start, &element) is None ==> removals(history, element) == 0,
        lookup::<T, T>(start, &element) is Some ==> (removals(history, element) == 1 <==> lookup::<
            T,
            T,
        >(replay(start, history), &element) is None),
{
    lemma_one_removal(start, history, element);
}

proof fn lemma_one_removal<T: Ord>(start: Seq<T>, history: Seq<Decision<T>>, element: T)
    requires
        total_order::<T>(),
        ascending(start),
        sensible(start, history),
        forall|i: int| 0 <= i < history.len() ==> !restores(#[trigger] history[i], element),
    ensures
        removals(history, element) <= 1,
        lookup::<T, T>(replay(start, history), &element) == if removals(history, element) == 0 {
            lookup::<T, T>(start, &element)
        } else {
            None
        },
        lookup::<T, T>(start, &element) is None ==> removals(history, element) == 0,
    decreases history.len(),
{
    if history.len() > 0 {
        let front = history.drop_last();
        let d = history.last();
        let s = replay(start, front);
        lemma_sensible_front(start, history);
        assert forall|i: int| 0 <= i < front.len() implies !restores(
            #[trigger] front[i],
            element,
        ) by {
            assert(history[i] == front[i]);
        }
        assert(!restores(history[history.len() - 1], element));
        lemma_one_removal(start, front, element);
        law_history_ascending(start, front);
        lemma_follows(d.subject, element);
        if d.inserts {
            law_insert_then_get::<T, T>(s, d.subject, &element);
        } else {
            law_remove_then_get::<T, T>(s, &d.subject, &element);
            if removes(d, element) {
                law_lookup::<T, T>(s, &d.subject);
                law_lookup::<T, T>(s, &element);
                assert(s.contains(d.subject));
                assert(lookup::<T, T>(s, &element) == Some(d.subject));
            }
        }
    }
}

/// Removals alone make the list shorter by their number.
pub proof fn law_removals_length<T: Ord>(start: Seq<T>, history: Seq<Decision<T>>)
    requires
        total_order::<T>(),
        ascending(start),
        sensible(start, history),
        forall|i: int| 0 <= i < history.len() ==> !(#[trigger] history[i]).inserts,
    ensures
        replay(start, history).len() == start.len() - history.len(),
    decreases history.len(),
{
    if history.len() > 0 {
        let front = history.drop_last();
        lemma_sensible_front(start, history);
        assert(!history[history.len() - 1].inserts);
        assert forall|i: int| 0 <= i < front.len() implies !(#[trigger] front[i]).inserts by {
            assert(history[i] == front[i]);
        }
        law_removals_length(start, front);
        law_history_ascending(start, front);
        law_remove_length::<T, T>(replay(start, front), &history.last().subject);
    }
}

} // verus!
