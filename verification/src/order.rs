//! The order that a skiplist keeps its elements in, and what its operations do
//! to an ascending sequence of elements.
use core::cmp::Ordering;
use std::borrow::Borrow;
use std::rc::Rc;
use std::sync::Arc;
use vstd::array::{array_as_slice, spec_array_as_slice};
use vstd::prelude::*;
use vstd::std_specs::cmp::OrdSpec;

verus! {

/// Gives access to the key under which an element is looked up.
///
/// This is `std::borrow::Borrow` with a specification: the key is a function of
/// the element. As with `Borrow`, every type is its own key, and a type that
/// offers another key must order by that key as it orders by itself (see
/// [`key_order`]).
pub trait BorrowKey<Q: ?Sized> {
    /// The key of this element.
    spec fn key(&self) -> &Q;

    /// Borrows the key of this element.
    fn borrow_key(&self) -> (key: &Q)
        ensures
            key == self.key(),
    ;
}

impl<T: ?Sized> BorrowKey<T> for T {
    open spec fn key(&self) -> &T {
        self
    }

    fn borrow_key(&self) -> (key: &T) {
        self
    }
}

impl<T: ?Sized> BorrowKey<T> for &T {
    open spec fn key(&self) -> &T {
        *self
    }

    fn borrow_key(&self) -> (key: &T) {
        *self
    }
}

impl<T: ?Sized> BorrowKey<T> for Box<T> {
    open spec fn key(&self) -> &T {
        &**self
    }

    fn borrow_key(&self) -> (key: &T) {
        &**self
    }
}

impl<T: ?Sized> BorrowKey<T> for Rc<T> {
    open spec fn key(&self) -> &T {
        &**self
    }

    fn borrow_key(&self) -> (key: &T) {
        &**self
    }
}

impl<T: ?Sized> BorrowKey<T> for Arc<T> {
    open spec fn key(&self) -> &T {
        &**self
    }

    fn borrow_key(&self) -> (key: &T) {
        &**self
    }
}

/// The slice has these elements.
pub open spec fn has_items<T>(slice: &[T], items: Seq<T>) -> bool {
    slice@ == items
}

/// The string slice has these characters.
pub open spec fn has_chars(slice: &str, chars: Seq<char>) -> bool {
    slice@ == chars
}

impl<T> BorrowKey<[T]> for Vec<T> {
    /// The slice of the elements.
    open spec fn key(&self) -> &[T] {
        choose|slice: &[T]| slice@ == self@
    }

    fn borrow_key(&self) -> (key: &[T])
        ensures
            has_items(key, self@),
    {
        let slice: &[T] = self.as_slice();
        proof {
            assert(slice@ == self@);
            let key = BorrowKey::<[T]>::key(self);
            assert(key@ == self@);
            assert(key =~= slice);
        }
        slice
    }
}

impl<T, const N: usize> BorrowKey<[T]> for [T; N] {
    /// The slice of the elements.
    open spec fn key(&self) -> &[T] {
        spec_array_as_slice(self)
    }

    fn borrow_key(&self) -> (key: &[T])
        ensures
            has_items(key, self@),
    {
        array_as_slice(self)
    }
}

/// The `str` that `Borrow::<str>::borrow` gives of a `String` with the characters.
pub uninterp spec fn borrowed_str(chars: Seq<char>) -> &'static str;

/// Calls `Borrow::<str>::borrow` of `String`, which borrows the string as a slice of all
/// its characters. The slice is a function of these, and has no others.
#[verifier::external_body]
fn borrow_string(string: &String) -> (key: &str)
    ensures
        key == borrowed_str(string@),
        key@ == string@,
{
    string.borrow()
}

impl BorrowKey<str> for String {
    /// The slice of all characters.
    open spec fn key(&self) -> &str {
        borrowed_str(self@)
    }

    fn borrow_key(&self) -> (key: &str)
        ensures
            has_chars(key, self@),
    {
        borrow_string(self)
    }
}

/// The `Ord` impl of `Q` computes what its specification says, and that is a
/// total order (up to elements that compare equal).
pub open spec fn total_order<Q: Ord + ?Sized>() -> bool {
    &&& Q::obeys_cmp_spec()
    &&& forall|x: &Q, y: &Q| #[trigger]
        x.cmp_spec(y) == Ordering::Less <==> y.cmp_spec(x) == Ordering::Greater
    &&& forall|x: &Q, y: &Q, z: &Q| #[trigger]
        x.cmp_spec(y) != Ordering::Greater && #[trigger] y.cmp_spec(z) != Ordering::Greater
            ==> x.cmp_spec(z) != Ordering::Greater
}

/// Elements and keys are totally ordered, and elements compare as their keys do.
pub open spec fn key_order<T: Ord + BorrowKey<Q>, Q: Ord + ?Sized>() -> bool {
    &&& total_order::<T>()
    &&& total_order::<Q>()
    &&& forall|x: T, y: T| #[trigger]
        x.cmp_spec(&y) == key_of::<T, Q>(&x).cmp_spec(key_of::<T, Q>(&y))
}

/// The key of an element.
pub open spec fn key_of<T: BorrowKey<Q> + ?Sized, Q: ?Sized>(element: &T) -> &Q {
    element.key()
}

/// The element sorts before the key.
pub open spec fn precedes<T: BorrowKey<Q>, Q: Ord + ?Sized>(element: T, key: &Q) -> bool {
    element.key().cmp_spec(key) == Ordering::Less
}

/// The element compares equal to the key.
pub open spec fn has_key<T: BorrowKey<Q>, Q: Ord + ?Sized>(element: T, key: &Q) -> bool {
    element.key().cmp_spec(key) == Ordering::Equal
}

/// Two keys compare equal.
pub open spec fn same_key<Q: Ord + ?Sized>(a: &Q, b: &Q) -> bool {
    a.cmp_spec(b) == Ordering::Equal
}

/// On which side of a key an element lies.
#[derive(Clone, Copy, Debug, PartialEq, Eq, Structural)]
pub enum Side {
    Before,
    Match,
    After,
}

/// Compares an element with a key.
pub fn side_of<T: BorrowKey<Q>, Q: Ord + ?Sized>(element: &T, key: &Q) -> (side: Side)
    requires
        total_order::<Q>(),
    ensures
        side == Side::Before <==> precedes(*element, key),
        side == Side::Match <==> has_key(*element, key),
{
    match key.cmp(element.borrow_key()) {
        Ordering::Greater => Side::Before,
        Ordering::Equal => Side::Match,
        Ordering::Less => Side::After,
    }
}

/// Every element sorts before all that follow it.
pub open spec fn ascending<T: Ord>(s: Seq<T>) -> bool {
    forall|i: int, j: int|
        #![trigger s[i], s[j]]
        0 <= i < j < s.len() ==> precedes::<T, T>(s[i], &s[j])
}

/// The number of elements that sort before the key, in an ascending sequence:
/// the position at which the key stands or would stand.
pub open spec fn rank<T: BorrowKey<Q>, Q: Ord + ?Sized>(s: Seq<T>, key: &Q) -> int
    decreases s.len(),
{
    if s.len() == 0 {
        0
    } else if precedes(s.last(), key) {
        s.len() as int
    } else {
        rank(s.drop_last(), key)
    }
}

/// The element with the given key, in an ascending sequence.
pub open spec fn lookup<T: BorrowKey<Q>, Q: Ord + ?Sized>(s: Seq<T>, key: &Q) -> Option<T> {
    let r = rank(s, key);
    if r < s.len() && has_key(s[r], key) {
        Some(s[r])
    } else {
        None
    }
}

/// An ascending sequence with an element put in: in place of the one that
/// compares equal to it, or between its neighbours if there is none.
pub open spec fn with_element<T: Ord>(s: Seq<T>, element: T) -> Seq<T> {
    if lookup::<T, T>(s, &element) is Some {
        s.update(rank::<T, T>(s, &element), element)
    } else {
        s.insert(rank::<T, T>(s, &element), element)
    }
}

/// An ascending sequence without the element that has the key.
pub open spec fn without_key<T: BorrowKey<Q>, Q: Ord + ?Sized>(s: Seq<T>, key: &Q) -> Seq<T> {
    if lookup(s, key) is Some {
        s.remove(rank(s, key))
    } else {
        s
    }
}

/// What belongs to the elements of an ascending sequence, in the same order,
/// after an element has been put in: an element that takes another's place takes
/// over what belonged to that one.
pub open spec fn heights_with<T: Ord>(
    s: Seq<T>,
    heights: Seq<nat>,
    element: T,
    height: nat,
) -> Seq<nat> {
    if lookup::<T, T>(s, &element) is Some {
        heights
    } else {
        heights.insert(rank::<T, T>(s, &element), height)
    }
}

/// What belongs to the elements of an ascending sequence, in the same order,
/// after the element with a key has been taken out.
pub open spec fn heights_without<T: BorrowKey<Q>, Q: Ord + ?Sized>(
    s: Seq<T>,
    heights: Seq<nat>,
    key: &Q,
) -> Seq<nat> {
    if lookup(s, key) is Some {
        heights.remove(rank(s, key))
    } else {
        heights
    }
}

/// How two elements and a key stand to each other: an element before another
/// one stands before every key that the other one precedes or has, and one
/// after another one stands after every key that the other one has or follows.
pub proof fn lemma_order_transfers<T: Ord + BorrowKey<Q>, Q: Ord + ?Sized>(x: T, y: T, key: &Q)
    requires
        key_order::<T, Q>(),
        precedes::<T, T>(x, &y),
    ensures
        precedes(y, key) || has_key(y, key) ==> precedes(x, key),
        !precedes(x, key) ==> !precedes(y, key) && !has_key(y, key),
{
    assert(x.cmp_spec(&y) == key_of::<T, Q>(&x).cmp_spec(key_of::<T, Q>(&y)));
    let (a, b) = (key_of::<T, Q>(&x), key_of::<T, Q>(&y));
    assert(a.cmp_spec(b) == Ordering::Less);
    assert(b.cmp_spec(a) == Ordering::Greater);
    if b.cmp_spec(key) != Ordering::Greater {
        assert(a.cmp_spec(key) != Ordering::Greater);
        if a.cmp_spec(key) == Ordering::Equal {
            assert(key.cmp_spec(a) != Ordering::Greater);
            assert(b.cmp_spec(a) != Ordering::Greater);
        }
    }
}

/// Elements that compare equal stand to a key in the same way.
pub proof fn lemma_equal_elements<T: Ord + BorrowKey<Q>, Q: Ord + ?Sized>(x: T, y: T, key: &Q)
    requires
        key_order::<T, Q>(),
        has_key::<T, T>(x, &y),
    ensures
        precedes(x, key) <==> precedes(y, key),
        has_key(x, key) <==> has_key(y, key),
{
    let (a, b) = (key_of::<T, Q>(&x), key_of::<T, Q>(&y));
    assert(x.cmp_spec(&y) == a.cmp_spec(b));
    lemma_equal_keys(a, b, key);
}

/// Keys that compare equal stand to a third one in the same way.
pub proof fn lemma_equal_keys<Q: Ord + ?Sized>(a: &Q, b: &Q, c: &Q)
    requires
        total_order::<Q>(),
        same_key(a, b),
    ensures
        same_key(b, a),
        a.cmp_spec(c) == b.cmp_spec(c),
        c.cmp_spec(a) == c.cmp_spec(b),
{
    assert(b.cmp_spec(a) == Ordering::Equal);
    assert(a.cmp_spec(c) != Ordering::Greater <==> b.cmp_spec(c) != Ordering::Greater);
    assert(c.cmp_spec(a) != Ordering::Greater <==> c.cmp_spec(b) != Ordering::Greater);
    assert(a.cmp_spec(c) == Ordering::Less <==> c.cmp_spec(a) == Ordering::Greater);
    assert(b.cmp_spec(c) == Ordering::Less <==> c.cmp_spec(b) == Ordering::Greater);
    assert(c.cmp_spec(a) == Ordering::Less <==> a.cmp_spec(c) == Ordering::Greater);
    assert(c.cmp_spec(b) == Ordering::Less <==> b.cmp_spec(c) == Ordering::Greater);
}

/// An element that has a key stands for it: whatever sorts before the one or has the
/// one does so with the other.
pub proof fn lemma_key_of_element<T: Ord + BorrowKey<Q>, Q: Ord + ?Sized>(element: T, key: &Q)
    requires
        key_order::<T, Q>(),
        has_key(element, key),
    ensures
        forall|x: T|
            #![trigger precedes(x, key)]
            #![trigger precedes::<T, T>(x, &element)]
            precedes(x, key) <==> precedes::<T, T>(x, &element),
        forall|x: T|
            #![trigger has_key(x, key)]
            #![trigger has_key::<T, T>(x, &element)]
            has_key(x, key) <==> has_key::<T, T>(x, &element),
{
    assert forall|x: T|
        (precedes(x, key) <==> #[trigger] precedes::<T, T>(x, &element)) && (has_key(x, key)
            <==> has_key::<T, T>(x, &element)) by {
        let (a, b) = (key_of::<T, Q>(&x), key_of::<T, Q>(&element));
        assert(x.cmp_spec(&element) == a.cmp_spec(b));
        lemma_equal_keys(b, key, a);
    }
    assert forall|x: T|
        #![trigger precedes(x, key)]
        #![trigger precedes::<T, T>(x, &element)]
        precedes(x, key) <==> precedes::<T, T>(x, &element) by {
        assert(precedes::<T, T>(x, &element) || true);
    }
    assert forall|x: T|
        #![trigger has_key(x, key)]
        #![trigger has_key::<T, T>(x, &element)]
        has_key(x, key) <==> has_key::<T, T>(x, &element) by {
        assert(precedes::<T, T>(x, &element) || true);
    }
}

/// What compares equal to an element has its key.
pub proof fn lemma_has_own_key<T: Ord + BorrowKey<Q>, Q: Ord + ?Sized>(element: T)
    requires
        key_order::<T, Q>(),
    ensures
        forall|x: T|
            #![trigger has_key::<T, T>(x, &element)]
            has_key::<T, T>(x, &element) <==> has_key(x, key_of::<T, Q>(&element)),
{
    assert forall|x: T|
        #![trigger has_key::<T, T>(x, &element)]
        has_key::<T, T>(x, &element) <==> has_key(x, key_of::<T, Q>(&element)) by {
        assert(x.cmp_spec(&element) == key_of::<T, Q>(&x).cmp_spec(key_of::<T, Q>(&element)));
    }
}

/// An ascending sequence splits at the rank of a key: what is left of it sorts
/// before the key, and nothing else does.
pub proof fn lemma_rank<T: Ord + BorrowKey<Q>, Q: Ord + ?Sized>(s: Seq<T>, key: &Q)
    requires
        key_order::<T, Q>(),
        ascending(s),
    ensures
        0 <= rank(s, key) <= s.len(),
        forall|i: int| 0 <= i < rank(s, key) ==> precedes(#[trigger] s[i], key),
        forall|i: int| rank(s, key) <= i < s.len() ==> !precedes(#[trigger] s[i], key),
        forall|i: int| rank(s, key) < i < s.len() ==> !has_key(#[trigger] s[i], key),
    decreases s.len(),
{
    if s.len() > 0 {
        if precedes(s.last(), key) {
            assert forall|i: int| 0 <= i < s.len() - 1 implies precedes(#[trigger] s[i], key) by {
                lemma_order_transfers(s[i], s.last(), key);
            }
        } else {
            let front = s.drop_last();
            lemma_rank(front, key);
            let r = rank(front, key);
            assert(forall|i: int| 0 <= i < front.len() ==> front[i] == s[i]);
            if r < s.len() - 1 {
                lemma_order_transfers(s[r], s.last(), key);
            }
        }
    }
}

/// An element that neither sorts before another one nor compares equal to it
/// sorts after it.
pub proof fn lemma_follows<T: Ord>(x: T, y: T)
    requires
        total_order::<T>(),
    ensures
        precedes::<T, T>(x, &y) <==> !precedes::<T, T>(y, &x) && !has_key::<T, T>(y, &x),
        has_key::<T, T>(x, &x),
        has_key::<T, T>(x, &y) <==> has_key::<T, T>(y, &x),
{
    assert(x.cmp_spec(&y) == Ordering::Less <==> y.cmp_spec(&x) == Ordering::Greater);
    assert(y.cmp_spec(&x) == Ordering::Less <==> x.cmp_spec(&y) == Ordering::Greater);
    assert(x.cmp_spec(&x) == Ordering::Less <==> x.cmp_spec(&x) == Ordering::Greater);
}

/// Putting an element in keeps the order.
pub proof fn lemma_with_element_ascending<T: Ord>(s: Seq<T>, element: T)
    requires
        total_order::<T>(),
        ascending(s),
    ensures
        ascending(with_element(s, element)),
{
    let k = rank::<T, T>(s, &element);
    let t = with_element(s, element);
    let shift: int = if lookup::<T, T>(s, &element) is Some {
        0
    } else {
        1
    };
    lemma_rank::<T, T>(s, &element);
    assert forall|i: int, j: int|
        #![trigger t[i], t[j]]
        0 <= i < j < t.len() implies precedes::<T, T>(t[i], &t[j]) by {
        if i < k {
            assert(t[i] == s[i]);
            if j > k {
                assert(t[j] == s[j - shift]);
            }
        } else {
            assert(t[j] == s[j - shift]);
            if i == k {
                lemma_follows(element, s[j - shift]);
            } else {
                assert(t[i] == s[i - shift]);
            }
        }
    }
}

/// An element is found by its key exactly where it is found by itself.
pub proof fn lemma_lookup_by_element<T: Ord + BorrowKey<Q>, Q: Ord + ?Sized>(s: Seq<T>, element: T)
    requires
        key_order::<T, Q>(),
    ensures
        rank(s, key_of::<T, Q>(&element)) == rank::<T, T>(s, &element),
        lookup(s, key_of::<T, Q>(&element)) == lookup::<T, T>(s, &element),
    decreases s.len(),
{
    let key = key_of::<T, Q>(&element);
    assert forall|x: T|
        #![trigger precedes(x, key)]
        #![trigger has_key(x, key)]
        (precedes(x, key) <==> precedes::<T, T>(x, &element)) && (has_key(x, key) <==> has_key::<
            T,
            T,
        >(x, &element)) by {
        assert(x.cmp_spec(&element) == key_of::<T, Q>(&x).cmp_spec(key));
    }
    if s.len() > 0 && !precedes(s.last(), key) {
        lemma_lookup_by_element::<T, Q>(s.drop_last(), element);
    }
}

} // verus!
