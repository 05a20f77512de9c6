//! The ordering that the containers and the sorting routines rely on.
//!
//! Executable code compares keys with `<`, `>`, `==` and `cmp`. What those
//! operators return is described by the standard comparison traits; the
//! predicates below say when the answers amount to a usable order, and the
//! lemmas spell out the consequences that the proofs need.

use vstd::prelude::*;
use std::cmp::Ordering;
use vstd::std_specs::cmp::{OrdSpec, PartialEqSpec, PartialOrdIs, PartialOrdSpec};

verus! {

/// `a` comes strictly before `b`.
pub open spec fn less<T: PartialOrd>(a: T, b: T) -> bool {
    a.partial_cmp_spec(&b) == Some(Ordering::Less)
}

/// `a` does not come after `b`.
pub open spec fn less_eq<T: PartialOrd>(a: T, b: T) -> bool {
    a.partial_cmp_spec(&b) == Some(Ordering::Less) || a.partial_cmp_spec(&b) == Some(
        Ordering::Equal,
    )
}

/// The comparison operators of `T` behave as their specification says, any two
/// values are comparable, swapping the operands mirrors the answer, and
/// `less_eq` is transitive.
#[verifier::opaque]
pub open spec fn total_preorder<T: PartialOrd>() -> bool {
    &&& T::obeys_partial_cmp_spec()
    &&& forall|a: T, b: T| (#[trigger] a.partial_cmp_spec(&b)) is Some
    &&& forall|a: T, b: T|
        (#[trigger] a.partial_cmp_spec(&b)) == Some(Ordering::Less) <==> b.partial_cmp_spec(&a)
            == Some(Ordering::Greater)
    &&& forall|a: T, b: T, c: T|
        #![trigger less_eq(a, b), less_eq(b, c)]
        less_eq(a, b) && less_eq(b, c) ==> less_eq(a, c)
}

/// A total preorder in which two values compare equal exactly when they are
/// the same value, and in which `cmp` and `==` agree with the partial
/// comparison.
#[verifier::opaque]
pub open spec fn total_order<T: Ord>() -> bool {
    &&& total_preorder::<T>()
    &&& T::obeys_cmp_spec()
    &&& T::obeys_eq_spec()
    &&& forall|a: T, b: T| #[trigger] a.partial_cmp_spec(&b) == Some(a.cmp_spec(&b))
    &&& forall|a: T, b: T|
        (#[trigger] a.partial_cmp_spec(&b)) == Some(Ordering::Equal) <==> a == b
    &&& forall|a: T, b: T| #[trigger] a.eq_spec(&b) <==> a == b
}

/// What the comparison operators return on a total preorder, and how the
/// strict and the weak relation go together.
pub proof fn lemma_operators<T: PartialOrd>(a: T, b: T)
    requires
        total_preorder::<T>(),
    ensures
        T::obeys_partial_cmp_spec(),
        a.is_lt(&b) <==> less(a, b),
        a.is_le(&b) <==> less_eq(a, b),
        a.is_gt(&b) <==> less(b, a),
        a.is_ge(&b) <==> less_eq(b, a),
        less_eq(a, b) <==> !less(b, a),
        less(a, b) ==> less_eq(a, b),
        less_eq(a, b) || less_eq(b, a),
{
    reveal(total_preorder);
    let ab = a.partial_cmp_spec(&b);
    let ba = b.partial_cmp_spec(&a);
    assert(ab is Some);
    assert(ba is Some);
    assert(ba == Some(Ordering::Less) <==> ab == Some(Ordering::Greater));
    assert(ab == Some(Ordering::Less) <==> ba == Some(Ordering::Greater));
    match ab->0 {
        Ordering::Less => {},
        Ordering::Equal => {},
        Ordering::Greater => {},
    }
    match ba->0 {
        Ordering::Less => {},
        Ordering::Equal => {},
        Ordering::Greater => {},
    }
}

/// The comparison operators of `T` answer as `less` and `less_eq` say: `a > b`
/// exactly when `b` comes before `a`, `a >= b` exactly when `b` does not come
/// after `a`, and of two values one comes before the other or neither does.
pub open spec fn operators_hold<T: PartialOrd>() -> bool {
    &&& T::obeys_partial_cmp_spec()
    &&& forall|a: T, b: T|
        #![trigger a.partial_cmp_spec(&b)]
        {
            &&& a.partial_cmp_spec(&b) == Some(Ordering::Greater) <==> less(b, a)
            &&& (a.partial_cmp_spec(&b) == Some(Ordering::Greater) || a.partial_cmp_spec(&b)
                == Some(Ordering::Equal)) <==> less_eq(b, a)
            &&& less_eq(a, b) <==> !less(b, a)
        }
}

/// On a total preorder the comparison operators answer as `less` and
/// `less_eq` say.
pub proof fn lemma_operators_hold<T: PartialOrd>()
    requires
        total_preorder::<T>(),
    ensures
        operators_hold::<T>(),
{
    assert forall|a: T, b: T|
        #![trigger a.partial_cmp_spec(&b)]
        {
            &&& a.partial_cmp_spec(&b) == Some(Ordering::Greater) <==> less(b, a)
            &&& (a.partial_cmp_spec(&b) == Some(Ordering::Greater) || a.partial_cmp_spec(&b)
                == Some(Ordering::Equal)) <==> less_eq(b, a)
            &&& less_eq(a, b) <==> !less(b, a)
        } by {
        lemma_operators(a, b);
    }
    lemma_operators(arbitrary::<T>(), arbitrary::<T>());
}

/// `less_eq` is reflexive.
pub proof fn lemma_less_eq_refl<T: PartialOrd>(a: T)
    requires
        total_preorder::<T>(),
    ensures
        less_eq(a, a),
{
    lemma_operators(a, a);
}

/// `less_eq` is transitive.
pub proof fn lemma_less_eq_trans<T: PartialOrd>(a: T, b: T, c: T)
    requires
        total_preorder::<T>(),
        less_eq(a, b),
        less_eq(b, c),
    ensures
        less_eq(a, c),
{
    reveal(total_preorder);
}

/// A strict step followed by a weak one is strict.
pub proof fn lemma_less_then_less_eq<T: PartialOrd>(a: T, b: T, c: T)
    requires
        total_preorder::<T>(),
        less(a, b),
        less_eq(b, c),
    ensures
        less(a, c),
{
    lemma_operators(a, b);
    lemma_operators(a, c);
    if less_eq(c, a) {
        lemma_less_eq_trans(b, c, a);
    }
}

/// A weak step followed by a strict one is strict.
pub proof fn lemma_less_eq_then_less<T: PartialOrd>(a: T, b: T, c: T)
    requires
        total_preorder::<T>(),
        less_eq(a, b),
        less(b, c),
    ensures
        less(a, c),
{
    lemma_operators(b, c);
    lemma_operators(a, c);
    if less_eq(c, a) {
        lemma_less_eq_trans(c, a, b);
    }
}

/// A total order is in particular a total preorder.
pub proof fn lemma_total_order_is_preorder<T: Ord>()
    requires
        total_order::<T>(),
    ensures
        total_preorder::<T>(),
{
    reveal(total_order);
}

/// What `cmp` and `==` return on a total order.
pub proof fn lemma_three_way<T: Ord>(a: T, b: T)
    requires
        total_order::<T>(),
    ensures
        T::obeys_cmp_spec(),
        T::obeys_eq_spec(),
        T::obeys_partial_cmp_spec(),
        a.cmp_spec(&b) == Ordering::Less <==> less(a, b),
        a.cmp_spec(&b) == Ordering::Greater <==> less(b, a),
        a.cmp_spec(&b) == Ordering::Equal <==> a == b,
        a.eq_spec(&b) <==> a == b,
        less_eq(a, b) <==> less(a, b) || a == b,
{
    reveal(total_order);
    lemma_operators(a, b);
    assert(a.partial_cmp_spec(&b) == Some(a.cmp_spec(&b)));
    assert(a.partial_cmp_spec(&b) == Some(Ordering::Equal) <==> a == b);
    assert(a.eq_spec(&b) <==> a == b);
}

/// On a total order two values that bound each other are the same value.
pub proof fn lemma_antisymmetric<T: Ord>(a: T, b: T)
    requires
        total_order::<T>(),
        less_eq(a, b),
        less_eq(b, a),
    ensures
        a == b,
{
    lemma_total_order_is_preorder::<T>();
    lemma_three_way(a, b);
    lemma_operators(a, b);
}

/// On a total order `==` tells whether two values are the same.
pub proof fn lemma_equality<T: Ord>(a: T, b: T)
    requires
        total_order::<T>(),
    ensures
        T::obeys_eq_spec(),
        a.eq_spec(&b) <==> a == b,
{
    lemma_three_way(a, b);
}

/// On a total order `less_eq` is `less` or identity.
pub proof fn lemma_less_eq_cases<T: Ord>(a: T, b: T)
    requires
        total_order::<T>(),
    ensures
        less_eq(a, b) <==> less(a, b) || a == b,
        !(less(a, b) && a == b),
{
    lemma_total_order_is_preorder::<T>();
    lemma_operators(a, b);
    lemma_operators(b, a);
    if less_eq(a, b) && less_eq(b, a) {
        lemma_antisymmetric(a, b);
    }
    if a == b {
        lemma_less_eq_refl(a);
    }
}

/// The laws that the verified standard library states for `Ord` types, together
/// with equality that coincides with identity, make a total order.
pub proof fn lemma_total_order_from_laws<T: Ord>()
    requires
        vstd::laws_cmp::obeys_cmp::<T>(),
        vstd::laws_eq::obeys_concrete_eq::<T>(),
    ensures
        total_order::<T>(),
{
    reveal(total_order);
    reveal(total_preorder);
    reveal(vstd::laws_cmp::obeys_cmp_partial_ord);
    reveal(vstd::laws_cmp::obeys_cmp_ord);
    reveal(vstd::laws_cmp::obeys_partial_cmp_spec_properties);
    reveal(vstd::laws_eq::obeys_concrete_eq);
    assert forall|a: T, b: T| (#[trigger] a.partial_cmp_spec(&b)) is Some by {
        assert(a.partial_cmp_spec(&b) == Some(a.cmp_spec(&b)));
    }
    assert forall|a: T, b: T|
        (#[trigger] a.partial_cmp_spec(&b)) == Some(Ordering::Equal) <==> a == b by {
        assert(a.eq_spec(&b) <==> a == b);
    }
    assert forall|a: T, b: T, c: T|
        #![trigger less_eq(a, b), less_eq(b, c)]
        less_eq(a, b) && less_eq(b, c) implies less_eq(a, c) by {
        assert(a.partial_cmp_spec(&b) == Some(Ordering::Equal) <==> a == b);
        assert(b.partial_cmp_spec(&c) == Some(Ordering::Equal) <==> b == c);
    }
}

} // verus!
