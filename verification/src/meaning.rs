//! What the words of the contracts mean in terms of std's traits.
use core::cmp::Ordering;
use std::rc::Rc;
use std::sync::Arc;
use vstd::array::axiom_spec_array_as_slice;
use vstd::prelude::*;
use vstd::std_specs::cmp::OrdSpec;

use crate::order::{
    ascending, has_key, key_of, key_order, precedes, same_key, total_order, BorrowKey,
};

verus! {

/// Where an element stands to a key is where the order of the keys puts it.
pub proof fn law_sides<T: BorrowKey<Q>, Q: Ord + ?Sized>(element: T, key: &Q, other: &Q)
    ensures
        precedes(element, key) <==> key_of::<T, Q>(&element).cmp_spec(key) == Ordering::Less,
        has_key(element, key) <==> key_of::<T, Q>(&element).cmp_spec(key) == Ordering::Equal,
        same_key(key, other) <==> key.cmp_spec(other) == Ordering::Equal,
{
}

/// A sequence ascends if every element is less than all that follow it.
pub proof fn law_ascends<T: Ord>(s: Seq<T>)
    ensures
        ascending(s) <==> forall|i: int, j: int|
            #![trigger s[i], s[j]]
            0 <= i < j < s.len() ==> s[i].cmp_spec(&s[j]) == Ordering::Less,
{
    assert(ascending(s) ==> forall|i: int, j: int|
        #![trigger s[i], s[j]]
        0 <= i < j < s.len() ==> s[i].cmp_spec(&s[j]) == Ordering::Less);
}

/// An order is total if `cmp` computes it, if it turns round, and if it goes on from one to
/// the next. Nothing else is asked of a type.
pub proof fn law_total_order<Q: Ord + ?Sized>()
    ensures
        total_order::<Q>() <==> {
            &&& Q::obeys_cmp_spec()
            &&& forall|x: &Q, y: &Q| #[trigger]
                x.cmp_spec(y) == Ordering::Less <==> y.cmp_spec(x) == Ordering::Greater
            &&& forall|x: &Q, y: &Q, z: &Q| #[trigger]
                x.cmp_spec(y) != Ordering::Greater && #[trigger] y.cmp_spec(z)
                    != Ordering::Greater ==> x.cmp_spec(z) != Ordering::Greater
        },
{
}

/// Elements and keys order alike if both orders are total and two elements compare as their
/// keys do. Nothing else is asked.
pub proof fn law_key_order<T: Ord + BorrowKey<Q>, Q: Ord + ?Sized>()
    ensures
        key_order::<T, Q>() <==> {
            &&& total_order::<T>()
            &&& total_order::<Q>()
            &&& forall|x: T, y: T| #[trigger]
                x.cmp_spec(&y) == key_of::<T, Q>(&x).cmp_spec(key_of::<T, Q>(&y))
        },
{
}

/// Numbers are totally ordered, by their size.
pub proof fn law_numbers_are_ordered()
    ensures
        total_order::<u8>(),
        total_order::<u16>(),
        total_order::<u32>(),
        total_order::<u64>(),
        total_order::<u128>(),
        total_order::<usize>(),
        total_order::<i8>(),
        total_order::<i16>(),
        total_order::<i32>(),
        total_order::<i64>(),
        total_order::<i128>(),
        total_order::<isize>(),
        forall|x: u64, y: u64| #[trigger] precedes::<u64, u64>(x, &y) <==> x < y,
        forall|x: u64, y: u64| #[trigger] has_key::<u64, u64>(x, &y) <==> x == y,
        forall|x: i64, y: i64| #[trigger] precedes::<i64, i64>(x, &y) <==> x < y,
        forall|x: i64, y: i64| #[trigger] has_key::<i64, i64>(x, &y) <==> x == y,
{
}

/// Every type is its own key, and orders as itself.
pub proof fn law_own_key<T: Ord>(element: T)
    ensures
        key_of::<T, T>(&element) == element,
        key_order::<T, T>() <==> total_order::<T>(),
{
}

/// The key of what points to a value is that value.
pub proof fn law_pointed_key<T: ?Sized>(
    reference: &T,
    boxed: Box<T>,
    counted: Rc<T>,
    shared: Arc<T>,
)
    ensures
        key_of::<&T, T>(&reference) == reference,
        key_of::<Box<T>, T>(&boxed) == &*boxed,
        key_of::<Rc<T>, T>(&counted) == &*counted,
        key_of::<Arc<T>, T>(&shared) == &*shared,
{
}

/// The key of an array is the slice of all its elements.
pub proof fn law_array_key<T, const N: usize>(array: [T; N])
    ensures
        key_of::<[T; N], [T]>(&array)@ == array@,
{
    axiom_spec_array_as_slice(&array);
}

/// The key that is borrowed of a vector is the slice of all its elements, and that is its
/// key.
pub proof fn law_vec_key<T>(vec: Vec<T>, key: &[T])
    requires
        call_ensures(<Vec<T> as BorrowKey<[T]>>::borrow_key, (&vec,), key),
    ensures
        key@ == vec@,
        key_of::<Vec<T>, [T]>(&vec) == key,
        key_of::<Vec<T>, [T]>(&vec)@ == vec@,
{
}

/// The key that is borrowed of a string has all its characters, and that is its key.
pub proof fn law_string_key(string: String, key: &str)
    requires
        call_ensures(<String as BorrowKey<str>>::borrow_key, (&string,), key),
    ensures
        key@ == string@,
        key_of::<String, str>(&string) == key,
        key_of::<String, str>(&string)@ == string@,
{
}

} // verus!
