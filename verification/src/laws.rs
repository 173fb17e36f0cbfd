//! What holds of a skiplist across its operations.
//!
//! The contracts of the operations say what they do to the elements in the words
//! of [`with_element`], [`without_key`] and [`lookup`]; the laws relate these.
use vstd::prelude::*;

use crate::order::{
    ascending, has_key, heights_with, heights_without, key_of, key_order, lemma_equal_elements,
    lemma_equal_keys, lemma_follows, lemma_key_of_element, lemma_rank,
    lemma_with_element_ascending, lookup, precedes, rank, same_key, total_order, with_element,
    without_key, BorrowKey,
};

verus! {

/// A lookup finds the one entry that has the key, and fails exactly if there is
/// none.
pub proof fn law_lookup<T: Ord + BorrowKey<Q>, Q: Ord + ?Sized>(s: Seq<T>, key: &Q)
    requires
        key_order::<T, Q>(),
        ascending(s),
    ensures
        forall|x: T| lookup(s, key) == Some(x) <==> #[trigger] s.contains(x) && has_key(x, key),
        lookup(s, key) is None <==> forall|i: int|
            0 <= i < s.len() ==> !has_key(#[trigger] s[i], key),
{
    lemma_rank(s, key);
    assert forall|x: T| lookup(s, key) == Some(x) <==> #[trigger] s.contains(x) && has_key(
        x,
        key,
    ) by {
        if s.contains(x) && has_key(x, key) {
            let i = choose|i: int| 0 <= i < s.len() && s[i] == x;
            assert(has_key(s[i], key));
        }
    }
}

/// To look for an element that has a key, or to remove it, is to look for the key, or
/// to remove that.
pub proof fn law_key_of_element<T: Ord + BorrowKey<Q>, Q: Ord + ?Sized>(
    s: Seq<T>,
    heights: Seq<nat>,
    element: T,
    key: &Q,
)
    requires
        key_order::<T, Q>(),
        has_key(element, key),
    ensures
        lookup(s, key) == lookup::<T, T>(s, &element),
        without_key(s, key) == without_key::<T, T>(s, &element),
        heights_without(s, heights, key) == heights_without::<T, T>(s, heights, &element),
{
    lemma_key_of_element(element, key);
    lemma_rank_by_element(s, element, key);
}

proof fn lemma_rank_by_element<T: Ord + BorrowKey<Q>, Q: Ord + ?Sized>(
    s: Seq<T>,
    element: T,
    key: &Q,
)
    requires
        key_order::<T, Q>(),
        has_key(element, key),
    ensures
        rank(s, key) == rank::<T, T>(s, &element),
    decreases s.len(),
{
    lemma_key_of_element(element, key);
    if s.len() > 0 && !precedes(s.last(), key) {
        lemma_rank_by_element(s.drop_last(), element, key);
    }
}

/// No two entries compare equal.
pub proof fn law_entries_distinct<T: Ord>(s: Seq<T>, i: int, j: int)
    requires
        total_order::<T>(),
        ascending(s),
        0 <= i < s.len(),
        0 <= j < s.len(),
        has_key::<T, T>(s[i], &s[j]),
    ensures
        i == j,
{
    if i < j {
        assert(precedes::<T, T>(s[i], &s[j]));
    } else if j < i {
        lemma_follows(s[j], s[i]);
    }
}

/// After an insertion the entries are the new element and those that do not
/// compare equal to it, still in ascending order.
pub proof fn law_insert_entries<T: Ord>(s: Seq<T>, element: T)
    requires
        total_order::<T>(),
        ascending(s),
    ensures
        ascending(with_element(s, element)),
        forall|x: T| #[trigger]
            with_element(s, element).contains(x) <==> x == element || (s.contains(x) && !has_key::<
                T,
                T,
            >(x, &element)),
{
    let t = with_element(s, element);
    let k = rank::<T, T>(s, &element);
    let replaced = lookup::<T, T>(s, &element) is Some;
    lemma_with_element_ascending(s, element);
    lemma_rank::<T, T>(s, &element);
    assert forall|x: T| #[trigger] t.contains(x) <==> x == element || (s.contains(x) && !has_key::<
        T,
        T,
    >(x, &element)) by {
        if t.contains(x) && x != element {
            let i = choose|i: int| 0 <= i < t.len() && t[i] == x;
            let b = if i < k || replaced {
                i
            } else {
                i - 1
            };
            assert(s[b] == x);
        }
        if s.contains(x) && !has_key::<T, T>(x, &element) {
            let b = choose|b: int| 0 <= b < s.len() && s[b] == x;
            assert(t[if b < k || replaced {
                b
            } else {
                b + 1
            }] == x);
        }
        assert(t[k] == element);
    }
}

/// After a removal the entries are those that do not have the key, still in
/// ascending order.
pub proof fn law_remove_entries<T: Ord + BorrowKey<Q>, Q: Ord + ?Sized>(s: Seq<T>, key: &Q)
    requires
        key_order::<T, Q>(),
        ascending(s),
    ensures
        ascending(without_key(s, key)),
        forall|x: T| #[trigger]
            without_key(s, key).contains(x) <==> s.contains(x) && !has_key(x, key),
{
    let t = without_key(s, key);
    let k = rank(s, key);
    lemma_rank(s, key);
    let found = lookup(s, key) is Some;
    if found {
        assert(forall|i: int|
            0 <= i < t.len() ==> #[trigger] t[i] == s[if i < k {
                i
            } else {
                i + 1
            }]);
    }
    assert forall|x: T| #[trigger] t.contains(x) <==> s.contains(x) && !has_key(x, key) by {
        if t.contains(x) {
            let i = choose|i: int| 0 <= i < t.len() && t[i] == x;
            let b = if i < k || !found {
                i
            } else {
                i + 1
            };
            assert(s[b] == x);
        }
        if s.contains(x) && !has_key(x, key) {
            let b = choose|b: int| 0 <= b < s.len() && s[b] == x;
            assert(t[if b < k || !found {
                b
            } else {
                b - 1
            }] == x);
        }
    }
}

/// The entries decide the list: two ascending sequences with the same entries are
/// the same.
pub proof fn law_entries_decide<T: Ord>(s: Seq<T>, t: Seq<T>)
    requires
        total_order::<T>(),
        ascending(s),
        ascending(t),
        forall|x: T| #[trigger] s.contains(x) <==> t.contains(x),
    ensures
        s == t,
    decreases s.len(),
{
    if s.len() == 0 {
        if t.len() > 0 {
            assert(t.contains(t[0]));
            assert(s.contains(t[0]));
        }
        assert(s =~= t);
    } else {
        assert(s.contains(s.last()));
        assert(t.contains(s.last()));
        let j = choose|j: int| 0 <= j < t.len() && t[j] == s.last();
        assert(t.contains(t.last()));
        assert(s.contains(t.last()));
        let i = choose|i: int| 0 <= i < s.len() && s[i] == t.last();
        if j < t.len() - 1 {
            assert(precedes::<T, T>(t[j], &t.last()));
            lemma_follows(s.last(), t.last());
            if i < s.len() - 1 {
                assert(precedes::<T, T>(s[i], &s.last()));
            }
        }
        assert(s.last() == t.last());
        let (a, b) = (s.drop_last(), t.drop_last());
        assert forall|x: T| #[trigger] a.contains(x) <==> b.contains(x) by {
            lemma_drop_last_contains(s, x);
            lemma_drop_last_contains(t, x);
        }
        law_entries_decide(a, b);
        assert(s =~= a.push(s.last()));
        assert(t =~= b.push(t.last()));
    }
}

proof fn lemma_drop_last_contains<T: Ord>(s: Seq<T>, x: T)
    requires
        total_order::<T>(),
        ascending(s),
        s.len() > 0,
    ensures
        s.drop_last().contains(x) <==> s.contains(x) && x != s.last(),
{
    let a = s.drop_last();
    if a.contains(x) {
        let i = choose|i: int| 0 <= i < a.len() && a[i] == x;
        assert(s[i] == x);
        assert(precedes::<T, T>(s[i], &s.last()));
        lemma_follows(x, x);
    }
    if s.contains(x) && x != s.last() {
        let i = choose|i: int| 0 <= i < s.len() && s[i] == x;
        assert(a[i] == x);
    }
}

/// What is inserted is found, under every key that it has; what is found under
/// other keys stays the same.
pub proof fn law_insert_then_get<T: Ord + BorrowKey<Q>, Q: Ord + ?Sized>(
    s: Seq<T>,
    element: T,
    key: &Q,
)
    requires
        key_order::<T, Q>(),
        ascending(s),
    ensures
        lookup(with_element(s, element), key) == if has_key(element, key) {
            Some(element)
        } else {
            lookup(s, key)
        },
{
    let t = with_element(s, element);
    law_insert_entries(s, element);
    law_lookup(t, key);
    law_lookup(s, key);
    if has_key(element, key) {
        assert(t.contains(element));
    } else {
        match lookup(s, key) {
            Some(x) => {
                assert(s.contains(x));
                if has_key::<T, T>(x, &element) {
                    lemma_equal_elements(x, element, key);
                }
                assert(t.contains(x));
            },
            None => {
                if let Some(x) = lookup(t, key) {
                    assert(t.contains(x));
                    let i = choose|i: int| 0 <= i < s.len() && s[i] == x;
                    assert(!has_key(s[i], key));
                }
            },
        }
    }
}

/// What is removed is not found any more; what is found under other keys stays
/// the same.
pub proof fn law_remove_then_get<T: Ord + BorrowKey<Q>, Q: Ord + ?Sized>(
    s: Seq<T>,
    key: &Q,
    other: &Q,
)
    requires
        key_order::<T, Q>(),
        ascending(s),
    ensures
        lookup(without_key(s, key), other) == if same_key(key, other) {
            None
        } else {
            lookup(s, other)
        },
{
    let t = without_key(s, key);
    law_remove_entries(s, key);
    law_lookup(t, other);
    law_lookup(s, other);
    if same_key(key, other) {
        assert forall|i: int| 0 <= i < t.len() implies !has_key(#[trigger] t[i], other) by {
            assert(t.contains(t[i]));
            lemma_equal_keys(key, other, key_of::<T, Q>(&t[i]));
        }
    } else {
        match lookup(s, other) {
            Some(x) => {
                assert(s.contains(x));
                if has_key(x, key) {
                    lemma_equal_keys(key_of::<T, Q>(&x), key, other);
                }
                assert(t.contains(x));
            },
            None => {
                if let Some(x) = lookup(t, other) {
                    assert(t.contains(x));
                    let i = choose|i: int| 0 <= i < s.len() && s[i] == x;
                    assert(!has_key(s[i], other));
                }
            },
        }
    }
}

/// What belongs to the elements stays with them when one is put in. What is put in gets what
/// is given for it, or takes over what belonged to the one that it replaces.
pub proof fn law_insert_heights<T: Ord>(
    s: Seq<T>,
    heights: Seq<nat>,
    element: T,
    height: nat,
    i: int,
)
    requires
        total_order::<T>(),
        ascending(s),
        heights.len() == s.len(),
        0 <= i < with_element(s, element).len(),
    ensures
        heights_with(s, heights, element, height).len() == with_element(s, element).len(),
        forall|j: int|
            0 <= j < s.len() && s[j] == with_element(s, element)[i] && !has_key::<T, T>(
                s[j],
                &element,
            ) ==> heights_with(s, heights, element, height)[i] == #[trigger] heights[j],
        has_key::<T, T>(with_element(s, element)[i], &element) ==> heights_with(
            s,
            heights,
            element,
            height,
        )[i] == if exists|j: int| 0 <= j < s.len() && has_key::<T, T>(#[trigger] s[j], &element) {
            heights[choose|j: int|
                0 <= j < s.len() && has_key::<T, T>(#[trigger] s[j], &element)]
        } else {
            height
        },
{
    let (t, k) = (with_element(s, element), rank::<T, T>(s, &element));
    lemma_rank::<T, T>(s, &element);
    law_insert_entries(s, element);
    lemma_follows(element, element);
    let replaced = lookup::<T, T>(s, &element) is Some;
    let b = if i < k || replaced {
        i
    } else {
        i - 1
    };
    if i != k {
        assert(t[i] == s[b]);
    }
    assert forall|j: int|
        0 <= j < s.len() && s[j] == t[i] && !has_key::<T, T>(s[j], &element) implies heights_with(
        s,
        heights,
        element,
        height,
    )[i] == #[trigger] heights[j] by {
        lemma_follows(s[j], s[j]);
        if i != k {
            law_entries_distinct(s, j, b);
        }
    }
    if has_key::<T, T>(t[i], &element) {
        assert(t[k] == element);
        law_entries_distinct(t, i, k);
        if exists|j: int| 0 <= j < s.len() && has_key::<T, T>(#[trigger] s[j], &element) {
            let j = choose|j: int| 0 <= j < s.len() && has_key::<T, T>(#[trigger] s[j], &element);
            assert(j == k);
        } else if replaced {
            assert(has_key::<T, T>(s[k], &element));
        }
    }
}

/// What belongs to the elements stays with them when one is taken out.
pub proof fn law_remove_heights<T: Ord + BorrowKey<Q>, Q: Ord + ?Sized>(
    s: Seq<T>,
    heights: Seq<nat>,
    key: &Q,
    i: int,
    j: int,
)
    requires
        key_order::<T, Q>(),
        ascending(s),
        heights.len() == s.len(),
        0 <= i < without_key(s, key).len(),
        0 <= j < s.len(),
        without_key(s, key)[i] == s[j],
    ensures
        heights_without(s, heights, key).len() == without_key(s, key).len(),
        heights_without(s, heights, key)[i] == heights[j],
{
    let k = rank(s, key);
    lemma_rank(s, key);
    let b = if i < k || lookup(s, key) is None {
        i
    } else {
        i + 1
    };
    assert(s[b] == s[j]);
    lemma_follows(s[j], s[j]);
    law_entries_distinct(s, b, j);
}

/// An insertion makes the list longer by one, unless it replaces an entry.
pub proof fn law_insert_length<T: Ord>(s: Seq<T>, element: T)
    requires
        total_order::<T>(),
        ascending(s),
    ensures
        with_element(s, element).len() == s.len() + if lookup::<T, T>(s, &element) is Some {
            0int
        } else {
            1
        },
{
    lemma_rank::<T, T>(s, &element);
}

/// A removal makes the list shorter by one if the key is found, and changes
/// nothing if it is not.
pub proof fn law_remove_length<T: Ord + BorrowKey<Q>, Q: Ord + ?Sized>(s: Seq<T>, key: &Q)
    requires
        key_order::<T, Q>(),
        ascending(s),
    ensures
        lookup(s, key) is Some ==> without_key(s, key).len() == s.len() - 1,
        lookup(s, key) is None ==> without_key(s, key) == s,
{
    lemma_rank(s, key);
}

/// Removing what was inserted undoes the insertion, if nothing was replaced.
pub proof fn law_remove_undoes_insert<T: Ord + BorrowKey<Q>, Q: Ord + ?Sized>(
    s: Seq<T>,
    element: T,
    key: &Q,
)
    requires
        key_order::<T, Q>(),
        ascending(s),
        has_key(element, key),
        lookup(s, key) is None,
    ensures
        without_key(with_element(s, element), key) == s,
{
    let t = with_element(s, element);
    let u = without_key(t, key);
    law_insert_entries(s, element);
    law_remove_entries(t, key);
    law_lookup(s, key);
    assert forall|x: T| #[trigger] u.contains(x) <==> s.contains(x) by {
        if s.contains(x) {
            let i = choose|i: int| 0 <= i < s.len() && s[i] == x;
            assert(!has_key(s[i], key));
            if has_key::<T, T>(x, &element) {
                lemma_equal_elements(x, element, key);
            }
            assert(t.contains(x));
        }
        if u.contains(x) {
            assert(t.contains(x));
        }
    }
    law_entries_decide(u, s);
}

/// Inserting what was removed undoes the removal.
pub proof fn law_insert_undoes_remove<T: Ord + BorrowKey<Q>, Q: Ord + ?Sized>(
    s: Seq<T>,
    element: T,
    key: &Q,
)
    requires
        key_order::<T, Q>(),
        ascending(s),
        lookup(s, key) == Some(element),
    ensures
        with_element(without_key(s, key), element) == s,
{
    let t = without_key(s, key);
    let u = with_element(t, element);
    law_remove_entries(s, key);
    law_insert_entries(t, element);
    law_lookup(s, key);
    assert(s.contains(element) && has_key(element, key));
    assert forall|x: T| #[trigger] u.contains(x) <==> s.contains(x) by {
        if u.contains(x) && x != element {
            assert(t.contains(x));
        }
        if s.contains(x) && x != element {
            if has_key(x, key) {
                assert(lookup(s, key) == Some(x));
            }
            assert(t.contains(x));
            if has_key::<T, T>(x, &element) {
                lemma_equal_elements(x, element, key);
            }
        }
    }
    law_entries_decide(u, s);
}

/// Of two insertions that compare equal, the later one counts.
pub proof fn law_last_insert_counts<T: Ord>(s: Seq<T>, first: T, second: T)
    requires
        total_order::<T>(),
        ascending(s),
        has_key::<T, T>(first, &second),
    ensures
        with_element(with_element(s, first), second) == with_element(s, second),
{
    let t = with_element(s, first);
    let u = with_element(t, second);
    let v = with_element(s, second);
    law_insert_entries(s, first);
    law_insert_entries(t, second);
    law_insert_entries(s, second);
    lemma_follows(first, second);
    assert forall|x: T| #[trigger] u.contains(x) <==> v.contains(x) by {
        lemma_equal_keys(&first, &second, &x);
        assert(t.contains(x) <==> x == first || (s.contains(x) && !has_key::<T, T>(x, &first)));
    }
    law_entries_decide(u, v);
}

/// The order of insertions that do not compare equal does not matter.
pub proof fn law_inserts_commute<T: Ord>(s: Seq<T>, first: T, second: T)
    requires
        total_order::<T>(),
        ascending(s),
        !has_key::<T, T>(first, &second),
    ensures
        with_element(with_element(s, first), second) == with_element(
            with_element(s, second),
            first,
        ),
{
    let a = with_element(s, first);
    let b = with_element(s, second);
    let u = with_element(a, second);
    let v = with_element(b, first);
    law_insert_entries(s, first);
    law_insert_entries(s, second);
    law_insert_entries(a, second);
    law_insert_entries(b, first);
    lemma_follows(first, second);
    assert forall|x: T| #[trigger] u.contains(x) <==> v.contains(x) by {
        assert(a.contains(x) <==> x == first || (s.contains(x) && !has_key::<T, T>(x, &first)));
        assert(b.contains(x) <==> x == second || (s.contains(x) && !has_key::<T, T>(x, &second)));
    }
    law_entries_decide(u, v);
}

} // verus!
