//! What the engine asks of the raw platform types it is instantiated with.
//!
//! Keys, modifiers, application identifiers and commands are opaque to the
//! engine: it only compares, orders and clones them. The predicates below say
//! when those three operations of a type mean what the contracts of this crate
//! take them to mean. They hold of the primitive integers, which is what a
//! platform layer normally supplies: `lemma_integer_laws` shows it for the
//! key symbols and modifier masks of an X server. Nothing here shows them of
//! `String`; whoever uses strings as raw values takes the comparison of
//! strings on trust.

use core::cmp::Ordering;
use vstd::laws_cmp::obeys_cmp;
use vstd::laws_eq::obeys_concrete_eq;
use vstd::prelude::*;
use vstd::std_specs::cmp::{OrdSpec, PartialEqSpec, PartialOrdSpec};

verus! {

/// `==` on `T` decides mathematical equality.
pub open spec fn equality_law<T: PartialEq>() -> bool {
    obeys_concrete_eq::<T>()
}

/// The comparison operators of `T` describe one strict total order, and two
/// values compare as equal exactly when they are the same value.
pub open spec fn order_law<T: Ord>() -> bool {
    obeys_cmp::<T>() && obeys_concrete_eq::<T>()
}

/// `clone` hands back the value it was given.
pub open spec fn clone_law<T: Clone>() -> bool {
    forall|a: T, b: T| #[trigger] cloned(a, b) ==> a == b
}

/// `a` comes strictly before `b` in the order of `T`.
pub open spec fn precedes<T: Ord>(a: T, b: T) -> bool {
    a.cmp_spec(&b) == Ordering::Less
}

/// Under `order_law`, `precedes` is irreflexive, transitive and total.
pub proof fn lemma_precedes_is_strict_total_order<T: Ord>()
    requires
        order_law::<T>(),
    ensures
        forall|a: T| !#[trigger] precedes(a, a),
        forall|a: T, b: T| #[trigger] precedes(a, b) ==> !precedes(b, a) && a != b,
        forall|a: T, b: T| a != b ==> #[trigger] precedes(a, b) || precedes(b, a),
        forall|a: T, b: T, c: T|
            #[trigger] precedes(a, b) && #[trigger] precedes(b, c) ==> precedes(a, c),
{
    reveal(obeys_concrete_eq);
    reveal(vstd::laws_cmp::obeys_cmp_ord);
    reveal(vstd::laws_cmp::obeys_cmp_partial_ord);
    reveal(vstd::laws_cmp::obeys_partial_cmp_spec_properties);
    reveal(vstd::laws_eq::obeys_eq_spec_properties);
    assert forall|a: T, b: T| a != b implies #[trigger] precedes(a, b) || precedes(b, a) by {
        assert(a.partial_cmp_spec(&b) == Some(a.cmp_spec(&b)));
        assert(b.partial_cmp_spec(&a) == Some(b.cmp_spec(&a)));
        assert(!a.eq_spec(&b));
    }
    assert forall|a: T, b: T| #[trigger] precedes(a, b) implies !precedes(b, a) && a != b by {
        assert(a.partial_cmp_spec(&b) == Some(a.cmp_spec(&b)));
        assert(b.partial_cmp_spec(&a) == Some(b.cmp_spec(&a)));
        assert(a.eq_spec(&b) <==> a == b);
    }
    assert forall|a: T| !#[trigger] precedes(a, a) by {
        assert(a.partial_cmp_spec(&a) == Some(a.cmp_spec(&a)));
        assert(a.eq_spec(&a));
    }
    assert forall|a: T, b: T, c: T| #[trigger]
        precedes(a, b) && #[trigger] precedes(b, c) implies precedes(a, c) by {
        assert(a.partial_cmp_spec(&b) == Some(a.cmp_spec(&b)));
        assert(b.partial_cmp_spec(&c) == Some(b.cmp_spec(&c)));
        assert(a.partial_cmp_spec(&c) == Some(a.cmp_spec(&c)));
    }
}

/// The unsigned integers that a platform layer uses for key symbols and
/// modifier masks obey all three laws.
pub proof fn lemma_integer_laws()
    ensures
        order_law::<u32>(),
        clone_law::<u32>(),
        order_law::<u64>(),
        clone_law::<u64>(),
{
    broadcast use vstd::laws_cmp::group_laws_cmp;
    broadcast use vstd::laws_eq::group_laws_eq;

}

/// `a == b`, with the meaning that `equality_law` gives it.
pub fn same<T: PartialEq>(a: &T, b: &T) -> (r: bool)
    ensures
        equality_law::<T>() ==> r == (*a == *b),
{
    proof {
        reveal(obeys_concrete_eq);
    }
    *a == *b
}

/// `a < b`, with the meaning that `order_law` gives it.
pub fn before<T: Ord>(a: &T, b: &T) -> (r: bool)
    ensures
        order_law::<T>() ==> r == precedes(*a, *b),
{
    proof {
        reveal(vstd::laws_cmp::obeys_cmp_ord);
        reveal(vstd::laws_cmp::obeys_cmp_partial_ord);
    }
    *a < *b
}

/// `a.clone()`, with the meaning that `clone_law` gives it.
pub fn copy_of<T: Clone>(a: &T) -> (r: T)
    ensures
        clone_law::<T>() ==> r == *a,
{
    let r = a.clone();
    assert(cloned(*a, r));
    r
}

} // verus!
