//! Equality, order and hashing that may vary at runtime.
use core::cmp::Ordering;
use core::hash::{Hash, Hasher};
use vstd::prelude::*;
use vstd::std_specs::cmp::{OrdSpec, PartialEqSpec};

use crate::order::{key_of, lemma_equal_keys, total_order, BorrowKey};

verus! {

/// This trait provides an equivalence relation between two types. It follows
/// the same contract as the `Eq` trait, except that the equality function
/// used may vary at runtime.
///
/// See also `Comparison`, `HashKey`.
pub trait Equivalence<L: ?Sized, R: ?Sized = L> {
    /// Whether `eq` computes the relation `equivalent`.
    spec fn obeys_equivalence(&self) -> bool;

    /// The two values are equivalent.
    spec fn equivalent(&self, lhs: &L, rhs: &R) -> bool;

    fn eq(&self, lhs: &L, rhs: &R) -> (equal: bool)
        ensures
            self.obeys_equivalence() ==> equal == self.equivalent(lhs, rhs),
    ;
}

/// This trait provides a comparison function between two types. It follows the
/// same contract as the `Ord` trait, except that the comparison function used
/// may vary at runtime.
///
/// Implementations of `Equivalence` and `Comparison` must agree on equality.
///
/// See also `Equivalence`, `HashKey`.
pub trait Comparison<L: ?Sized, R: ?Sized = L>: Equivalence<L, R> {
    /// Whether `cmp` computes the order `compared`.
    spec fn obeys_comparison(&self) -> bool;

    /// How the left value stands to the right one.
    spec fn compared(&self, lhs: &L, rhs: &R) -> Ordering;

    /// Equivalence and comparison agree on equality.
    proof fn agree_on_equality(&self, lhs: &L, rhs: &R)
        requires
            self.obeys_comparison(),
        ensures
            self.obeys_equivalence(),
            self.equivalent(lhs, rhs) <==> self.compared(lhs, rhs) == Ordering::Equal,
    ;

    fn cmp(&self, lhs: &L, rhs: &R) -> (ordering: Ordering)
        ensures
            self.obeys_comparison() ==> ordering == self.compared(lhs, rhs),
    ;
}

/// That an equivalence on one type keeps the contract of `Eq`.
pub trait LawfulEquivalence<T: ?Sized>: Equivalence<T> {
    /// Whether the contract is promised.
    spec fn keeps_eq_contract(&self) -> bool;

    /// Every value is equivalent to itself. Equivalence goes both ways, and on from value
    /// to value.
    proof fn equivalence_laws(&self, x: &T, y: &T, z: &T)
        requires
            self.keeps_eq_contract(),
        ensures
            self.obeys_equivalence(),
            self.equivalent(x, x),
            self.equivalent(x, y) ==> self.equivalent(y, x),
            self.equivalent(x, y) && self.equivalent(y, z) ==> self.equivalent(x, z),
    ;
}

/// That a comparison on one type keeps the contract of `Ord`.
pub trait LawfulComparison<T: ?Sized>: Comparison<T> + LawfulEquivalence<T> {
    /// Whether the contract is promised.
    spec fn keeps_ord_contract(&self) -> bool;

    /// Exactly one of less, equal and greater holds of two values, the reverse holds the
    /// other way round, and the order goes on from value to value. Values that are equal
    /// are equivalent.
    proof fn comparison_laws(&self, x: &T, y: &T, z: &T)
        requires
            self.keeps_ord_contract(),
        ensures
            self.obeys_comparison(),
            self.keeps_eq_contract(),
            self.equivalent(x, y) <==> self.compared(x, y) == Ordering::Equal,
            self.compared(x, y) == Ordering::Less <==> self.compared(y, x) == Ordering::Greater,
            self.compared(x, y) == Ordering::Equal <==> self.compared(y, x) == Ordering::Equal,
            self.compared(x, y) == Ordering::Less && self.compared(y, z) == Ordering::Less
                ==> self.compared(x, z) == Ordering::Less,
            self.compared(x, y) == Ordering::Equal ==> self.compared(x, z) == self.compared(y, z),
    ;
}

/// This trait provides an alternate hash extraction function for a type or
/// types. It follows the same contract as the `Hash` trait, except that the
/// function used may vary at runtime.
///
/// Two objects that compare equal according to the `Equivalence`
/// implementation must have the same hash.
///
/// See also `Comparison`.
pub trait HashKey<T: ?Sized>: Equivalence<T> {
    fn hash<H: Hasher>(&self, state: &mut H, obj: &T);
}

/// What a `HashKey` does to hashers of one type, and that it keeps the promise that
/// equal objects have the same hash.
pub trait HashAgreement<T: ?Sized, H: Hasher>: HashKey<T> {
    /// Whether equal objects are promised to have the same hash.
    spec fn obeys_hash(&self) -> bool;

    /// Hashing the object can take this reference to a hasher, from the state that it
    /// refers to now to the one that it will refer to in the end.
    spec fn hashes(&self, obj: &T, state: &mut H) -> bool;

    /// Hashes the object, as `hash` does.
    fn hash_into(&self, state: &mut H, obj: &T)
        ensures
            exists|s: &mut H|
                {
                    &&& *s == *old(state)
                    &&& *final(s) == *final(state)
                    &&& #[trigger] self.hashes(obj, s)
                },
    ;

    /// Two objects that compare equal have the same hash: from one state, they bring a
    /// hasher to the same states.
    proof fn agree_on_hash(&self, lhs: &T, rhs: &T)
        requires
            self.obeys_hash(),
            self.equivalent(lhs, rhs),
        ensures
            forall|state: &mut H| #[trigger]
                self.hashes(lhs, state) <==> #[trigger] self.hashes(rhs, state),
    ;
}

/// A trivial comparison function that uses the standard library `Eq`, `Ord` and
/// `Hash` traits, and `BorrowKey`, to do comparisons/hashing.
#[derive(Clone, Copy, Debug, Default, PartialEq, Eq, Hash, Structural)]
pub struct BasicComparison;

impl<L, R> Equivalence<L, R> for BasicComparison where
    L: ?Sized + BorrowKey<R>,
    R: ?Sized + Eq,
 {
    open spec fn obeys_equivalence(&self) -> bool {
        R::obeys_eq_spec()
    }

    open spec fn equivalent(&self, lhs: &L, rhs: &R) -> bool {
        lhs.key().eq_spec(rhs)
    }

    fn eq(&self, lhs: &L, rhs: &R) -> (equal: bool) {
        let key: &R = lhs.borrow_key();
        key == rhs
    }
}

impl<L, R> Comparison<L, R> for BasicComparison where
    L: ?Sized + BorrowKey<R>,
    R: ?Sized + Ord,
 {
    /// The key type is totally ordered, and its `Eq` and `Ord` agree.
    open spec fn obeys_comparison(&self) -> bool {
        &&& total_order::<R>()
        &&& R::obeys_eq_spec()
        &&& forall|x: &R, y: &R| #[trigger]
            x.eq_spec(y) <==> x.cmp_spec(y) == Ordering::Equal
    }

    open spec fn compared(&self, lhs: &L, rhs: &R) -> Ordering {
        lhs.key().cmp_spec(rhs)
    }

    proof fn agree_on_equality(&self, lhs: &L, rhs: &R) {
    }

    /// The result is that of `cmp` of the key and the right value.
    fn cmp(&self, lhs: &L, rhs: &R) -> (ordering: Ordering)
        ensures
            R::obeys_cmp_spec() ==> ordering == key_of::<L, R>(lhs).cmp_spec(rhs),
    {
        let key: &R = lhs.borrow_key();
        key.cmp(rhs)
    }
}

/// Calls `Hash::hash` of the object's type. What that feeds into the hasher is
/// the type's own affair; nothing is claimed of it here.
#[verifier::external_body]
pub(crate) fn std_hash<T: ?Sized + Hash, H: Hasher>(obj: &T, state: &mut H) {
    obj.hash(state)
}

/// A run of `Hash::hash` of the object's type can take this reference to a hasher.
pub closed spec fn hashed_by_std<T: ?Sized + Hash, H: Hasher>(obj: &T, state: &mut H) -> bool {
    call_ensures(std_hash::<T, H>, (obj, state), ())
}

impl<T> HashKey<T> for BasicComparison where T: ?Sized + Eq + Hash {
    /// The hasher ends in a state to which `Hash::hash` of the object's type can
    /// bring it from where it was.
    fn hash<H: Hasher>(&self, state: &mut H, obj: &T)
        ensures
            exists|s: &mut H|
                {
                    &&& *s == *old(state)
                    &&& *final(s) == *final(state)
                    &&& #[trigger] hashed_by_std(obj, s)
                },
    {
        assert(forall|s: &mut H| #[trigger]
            call_ensures(std_hash::<T, H>, (obj, s), ()) ==> hashed_by_std(obj, s));
        let hash = std_hash::<T, H>;
        hash(obj, state);
    }
}

impl<T, H> HashAgreement<T, H> for BasicComparison where T: ?Sized + Eq + Hash, H: Hasher {
    /// The `Eq` and the `Hash` of the type agree.
    open spec fn obeys_hash(&self) -> bool {
        forall|x: &T, y: &T, state: &mut H|
            #![trigger hashed_by_std(x, state), hashed_by_std(y, state)]
            x.eq_spec(y) ==> (hashed_by_std(x, state) <==> hashed_by_std(y, state))
    }

    open spec fn hashes(&self, obj: &T, state: &mut H) -> bool {
        hashed_by_std(obj, state)
    }

    fn hash_into(&self, state: &mut H, obj: &T) {
        assert(forall|s: &mut H| #[trigger] hashed_by_std(obj, s) ==> self.hashes(obj, s));
        HashKey::hash(self, state, obj);
    }

    proof fn agree_on_hash(&self, lhs: &T, rhs: &T) {
    }
}

impl<T> LawfulEquivalence<T> for BasicComparison where T: ?Sized + Eq {
    /// The `Eq` of the type keeps its contract.
    open spec fn keeps_eq_contract(&self) -> bool {
        &&& T::obeys_eq_spec()
        &&& forall|x: &T| #[trigger] x.eq_spec(x)
        &&& forall|x: &T, y: &T| #[trigger] x.eq_spec(y) ==> y.eq_spec(x)
        &&& forall|x: &T, y: &T, z: &T| #[trigger]
            x.eq_spec(y) && #[trigger] y.eq_spec(z) ==> x.eq_spec(z)
    }

    proof fn equivalence_laws(&self, x: &T, y: &T, z: &T) {
    }
}

impl<T> LawfulComparison<T> for BasicComparison where T: ?Sized + Ord {
    /// The `Ord` of the type keeps its contract, and its `Eq` agrees.
    open spec fn keeps_ord_contract(&self) -> bool {
        Comparison::<T>::obeys_comparison(self)
    }

    proof fn comparison_laws(&self, x: &T, y: &T, z: &T) {
        law_basic_comparison(*self, x, y, z);
        if x.cmp_spec(y) == Ordering::Equal {
            lemma_equal_keys(x, y, z);
        }
        assert forall|a: &T, b: &T, c: &T| #[trigger]
            a.eq_spec(b) && #[trigger] b.eq_spec(c) implies a.eq_spec(c) by {
            law_basic_comparison(*self, a, b, c);
        }
        assert forall|a: &T, b: &T| #[trigger] a.eq_spec(b) implies b.eq_spec(a) by {
            law_basic_comparison(*self, a, b, a);
        }
        assert forall|a: &T| #[trigger] a.eq_spec(a) by {
            law_basic_comparison(*self, a, a, a);
        }
    }
}

/// The basic comparison compares and equates as the key type does, and promises to do so
/// for every key type whose `Eq` and `Ord` are known and agree.
pub proof fn law_basic_comparison_is_that_of_the_key<L, R>(
    c: BasicComparison,
    lhs: &L,
    rhs: &R,
) where L: ?Sized + BorrowKey<R>, R: ?Sized + Ord
    ensures
        Equivalence::<L, R>::equivalent(&c, lhs, rhs) <==> key_of::<L, R>(lhs).eq_spec(rhs),
        Comparison::<L, R>::compared(&c, lhs, rhs) == key_of::<L, R>(lhs).cmp_spec(rhs),
        Equivalence::<L, R>::obeys_equivalence(&c) <==> R::obeys_eq_spec(),
        Comparison::<L, R>::obeys_comparison(&c) <==> {
            &&& total_order::<R>()
            &&& R::obeys_eq_spec()
            &&& forall|x: &R, y: &R| #[trigger]
                x.eq_spec(y) <==> x.cmp_spec(y) == Ordering::Equal
        },
{
}

/// What the calls of the basic comparison return is what the key type's own `Eq` and `Ord`
/// say of the key of the left value and the right value.
pub proof fn law_basic_comparison_results<L, R>(
    c: BasicComparison,
    lhs: &L,
    rhs: &R,
    equal: bool,
    ordering: Ordering,
) where L: ?Sized + BorrowKey<R>, R: ?Sized + Ord
    requires
        call_ensures(Equivalence::<L, R>::eq, (&c, lhs, rhs), equal),
        call_ensures(Comparison::<L, R>::cmp, (&c, lhs, rhs), ordering),
    ensures
        R::obeys_eq_spec() ==> equal == key_of::<L, R>(lhs).eq_spec(rhs),
        R::obeys_cmp_spec() ==> ordering == key_of::<L, R>(lhs).cmp_spec(rhs),
{
}

/// The contracts that the basic comparison promises to keep are those of the type's own
/// `Eq` and `Ord`, and it promises them wherever the type keeps them.
pub proof fn law_basic_comparison_promises<T: ?Sized + Ord>(c: BasicComparison)
    ensures
        LawfulEquivalence::<T>::keeps_eq_contract(&c) <==> {
            &&& T::obeys_eq_spec()
            &&& forall|x: &T| #[trigger] x.eq_spec(x)
            &&& forall|x: &T, y: &T| #[trigger] x.eq_spec(y) ==> y.eq_spec(x)
            &&& forall|x: &T, y: &T, z: &T| #[trigger]
                x.eq_spec(y) && #[trigger] y.eq_spec(z) ==> x.eq_spec(z)
        },
        LawfulComparison::<T>::keeps_ord_contract(&c) <==> {
            &&& total_order::<T>()
            &&& T::obeys_eq_spec()
            &&& forall|x: &T, y: &T| #[trigger]
                x.eq_spec(y) <==> x.cmp_spec(y) == Ordering::Equal
        },
{
}

/// The basic comparison hashes as the object's own type does: what it can bring a hasher to
/// is what a run of `Hash::hash` of that type on that object can.
pub(crate) proof fn law_basic_hash_is_that_of_the_type<T: ?Sized + Eq + Hash, H: Hasher>(
    c: BasicComparison,
    obj: &T,
    state: &mut H,
)
    ensures
        hashed_by_std(obj, state) <==> call_ensures(std_hash::<T, H>, (obj, state), ()),
        HashAgreement::<T, H>::hashes(&c, obj, state) <==> hashed_by_std(obj, state),
{
}

/// Equal objects are promised to have the same hash wherever the type's own `Eq` and `Hash`
/// agree.
pub proof fn law_basic_hash_promises<T: ?Sized + Eq + Hash, H: Hasher>(c: BasicComparison)
    ensures
        HashAgreement::<T, H>::obeys_hash(&c) <==> forall|x: &T, y: &T, state: &mut H|
            #![trigger hashed_by_std(x, state), hashed_by_std(y, state)]
            x.eq_spec(y) ==> (hashed_by_std(x, state) <==> hashed_by_std(y, state)),
{
}

/// On a type whose `Eq` and `Ord` are lawful, the basic comparison keeps the
/// contracts of `Eq` and `Ord`: its equivalence is reflexive, symmetric and
/// transitive, its order is total, and the two agree.
pub proof fn law_basic_comparison<K: Ord + ?Sized>(c: BasicComparison, x: &K, y: &K, z: &K)
    requires
        total_order::<K>(),
        K::obeys_eq_spec(),
        forall|a: &K, b: &K| #[trigger] a.eq_spec(b) <==> a.cmp_spec(b) == Ordering::Equal,
    ensures
        c.equivalent(x, x),
        c.equivalent(x, y) ==> c.equivalent(y, x),
        c.equivalent(x, y) && c.equivalent(y, z) ==> c.equivalent(x, z),
        c.equivalent(x, y) <==> c.compared(x, y) == Ordering::Equal,
        c.compared(x, y) == Ordering::Less <==> c.compared(y, x) == Ordering::Greater,
        c.compared(x, y) == Ordering::Less && c.compared(y, z) == Ordering::Less ==> c.compared(
            x,
            z,
        ) == Ordering::Less,
{
    assert(x.cmp_spec(x) == Ordering::Less <==> x.cmp_spec(x) == Ordering::Greater);
    assert(y.cmp_spec(x) == Ordering::Less <==> x.cmp_spec(y) == Ordering::Greater);
    assert(z.cmp_spec(x) == Ordering::Less <==> x.cmp_spec(z) == Ordering::Greater);
    assert(z.cmp_spec(y) == Ordering::Less <==> y.cmp_spec(z) == Ordering::Greater);
    if x.cmp_spec(y) == Ordering::Equal {
        lemma_equal_keys(x, y, z);
    }
    if x.cmp_spec(z) == Ordering::Equal {
        lemma_equal_keys(x, z, y);
    }
}

} // verus!
