//! The order on keys.
//!
//! Distributions keep their keys in ascending order, so every key type has to
//! come with a total order that the verifier can reason about. The predicate
//! [`lawful`] collects what is expected of a key type: its `Ord` instance
//! follows its specification and is a strict total order on values, `==`
//! coincides with equality of values, and a clone equals what it was cloned
//! from.
//!
//! For the integer types, and for `Option` of a lawful type, this is proved
//! here. For any other type it is an assumption about the type's own `Ord`
//! and `Clone`, which the caller answers for.

use core::cmp::Ordering;
use vstd::laws_cmp::*;
use vstd::laws_eq::*;
use vstd::prelude::*;
use vstd::std_specs::cmp::{OrdSpec, PartialEqSpec, PartialOrdSpec};

verus! {

/// `a` comes strictly before `b` in the order of the key type.
pub open spec fn precedes<K: Ord>(a: K, b: K) -> bool {
    a.cmp_spec(&b) == Ordering::Less
}

/// Cloning `K` yields a value equal to the one cloned.
pub open spec fn faithful_clone<K: Clone>() -> bool {
    forall|a: K, b: K| #[trigger] vstd::pervasive::cloned(a, b) ==> a == b
}

/// What the library expects of a key type.
pub open spec fn lawful<K: Ord + Clone>() -> bool {
    &&& obeys_cmp::<K>()
    &&& obeys_concrete_eq::<K>()
    &&& faithful_clone::<K>()
}

/// Where two keys stand relative to each other.
#[derive(Clone, Copy, Debug, PartialEq, Eq, Structural)]
pub enum Rank {
    Before,
    Same,
    After,
}

/// Under [`lawful`], [`precedes`] is a strict total order.
pub proof fn lemma_strict_total_order<K: Ord + Clone>()
    requires
        lawful::<K>(),
    ensures
        forall|a: K| !#[trigger] precedes(a, a),
        forall|a: K, b: K| #[trigger] precedes(a, b) ==> !precedes(b, a),
        forall|a: K, b: K| a != b ==> #[trigger] precedes(a, b) || precedes(b, a),
        forall|a: K, b: K, c: K|
            #[trigger] precedes(a, b) && #[trigger] precedes(b, c) ==> precedes(a, c),
{
    reveal(obeys_eq_spec_properties);
    reveal(obeys_partial_cmp_spec_properties);
    reveal(obeys_cmp_partial_ord);
    reveal(obeys_cmp_ord);
    reveal(obeys_concrete_eq);
    assert forall|a: K, b: K| a != b implies #[trigger] precedes(a, b) || precedes(b, a) by {
        assert(a.partial_cmp_spec(&b) == Some(a.cmp_spec(&b)));
        assert(b.partial_cmp_spec(&a) == Some(b.cmp_spec(&a)));
        assert(!a.eq_spec(&b));
    }
    assert forall|a: K, b: K, c: K| #[trigger]
        precedes(a, b) && #[trigger] precedes(b, c) implies precedes(a, c) by {
        assert(a.partial_cmp_spec(&b) == Some(a.cmp_spec(&b)));
        assert(b.partial_cmp_spec(&c) == Some(b.cmp_spec(&c)));
        assert(a.partial_cmp_spec(&c) == Some(a.cmp_spec(&c)));
    }
    assert forall|a: K, b: K| #[trigger] precedes(a, b) implies !precedes(b, a) by {
        assert(a.partial_cmp_spec(&b) == Some(a.cmp_spec(&b)));
        assert(b.partial_cmp_spec(&a) == Some(b.cmp_spec(&a)));
    }
    assert forall|a: K| !#[trigger] precedes(a, a) by {
        assert(a.partial_cmp_spec(&a) == Some(a.cmp_spec(&a)));
        assert(a.eq_spec(&a));
    }
}

/// Compares two keys.
pub fn compare<K: Ord + Clone>(a: &K, b: &K) -> (r: Rank)
    requires
        lawful::<K>(),
    ensures
        r == Rank::Before <==> precedes(*a, *b),
        r == Rank::Same <==> *a == *b,
        r == Rank::After <==> precedes(*b, *a),
{
    proof {
        lemma_strict_total_order::<K>();
        reveal(obeys_eq_spec_properties);
        reveal(obeys_partial_cmp_spec_properties);
        reveal(obeys_cmp_partial_ord);
        reveal(obeys_cmp_ord);
        reveal(obeys_concrete_eq);
        assert(a.partial_cmp_spec(b) == Some(a.cmp_spec(b)));
        assert(b.partial_cmp_spec(a) == Some(b.cmp_spec(a)));
    }
    match a.cmp(b) {
        Ordering::Less => Rank::Before,
        Ordering::Equal => Rank::Same,
        Ordering::Greater => Rank::After,
    }
}

/// A copy of `a`.
pub fn duplicate<K: Ord + Clone>(a: &K) -> (r: K)
    requires
        lawful::<K>(),
    ensures
        r == *a,
{
    let r = a.clone();
    assert(vstd::pervasive::cloned(*a, r));
    r
}

/// With `T`, `Option<T>` is a lawful key type too; `None` comes first and
/// present values keep their order.
pub proof fn lemma_lawful_option<T: Ord + Clone>()
    requires
        lawful::<T>(),
    ensures
        lawful::<Option<T>>(),
        forall|b: T| #[trigger] precedes(None::<T>, Some(b)),
        forall|a: T, b: T| #[trigger] precedes(Some(a), Some(b)) <==> precedes(a, b),
{
    broadcast use {lemma_option_obeys_cmp_spec, lemma_option_obeys_concrete_eq};
    assert(obeys_cmp::<Option<T>>());
    assert(obeys_concrete_eq::<Option<T>>());
    assert forall|a: Option<T>, b: Option<T>| #[trigger]
        vstd::pervasive::cloned(a, b) implies a == b by {
        if a is Some && b is Some {
            assert(vstd::pervasive::cloned(a->0, b->0));
        }
    }
}

/// The unsigned integers are lawful key types.
pub proof fn lemma_lawful_unsigned()
    ensures
        lawful::<u8>(),
        lawful::<u16>(),
        lawful::<u32>(),
        lawful::<u64>(),
        lawful::<usize>(),
{
    broadcast use {vstd::laws_cmp::group_laws_cmp, vstd::laws_eq::group_laws_eq};

    assert(obeys_cmp::<u8>() && obeys_concrete_eq::<u8>());
    assert(obeys_cmp::<u16>() && obeys_concrete_eq::<u16>());
    assert(obeys_cmp::<u32>() && obeys_concrete_eq::<u32>());
    assert(obeys_cmp::<u64>() && obeys_concrete_eq::<u64>());
    assert(obeys_cmp::<usize>() && obeys_concrete_eq::<usize>());
}

/// The signed integers are lawful key types.
pub proof fn lemma_lawful_signed()
    ensures
        lawful::<i8>(),
        lawful::<i16>(),
        lawful::<i32>(),
        lawful::<i64>(),
        lawful::<isize>(),
{
    broadcast use {vstd::laws_cmp::group_laws_cmp, vstd::laws_eq::group_laws_eq};

    assert(obeys_cmp::<i8>() && obeys_concrete_eq::<i8>());
    assert(obeys_cmp::<i16>() && obeys_concrete_eq::<i16>());
    assert(obeys_cmp::<i32>() && obeys_concrete_eq::<i32>());
    assert(obeys_cmp::<i64>() && obeys_concrete_eq::<i64>());
    assert(obeys_cmp::<isize>() && obeys_concrete_eq::<isize>());
}

} // verus!
