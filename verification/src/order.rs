//! The order on boundary values, as the proofs see it.
//!
//! The masks are generic over `T: Ord + Clone`. What the proofs need of such a
//! type is collected in [`total_order`]: comparison is a strict total order
//! that agrees with equality, and a clone equals the value it was made from.
//! The primitive integer types meet it without further ado.

use core::cmp::Ordering;
use vstd::prelude::*;
use vstd::std_specs::btree::{axiom_increasing_seq_meaning, increasing_seq};
use vstd::std_specs::cmp::{OrdSpec, PartialEqSpec, PartialOrdSpec};

verus! {

/// `a` comes strictly before `b`.
pub open spec fn lt<T: PartialOrd>(a: T, b: T) -> bool {
    a.partial_cmp_spec(&b) == Some(Ordering::Less)
}

/// `a` does not come after `b`.
pub open spec fn le<T: PartialOrd>(a: T, b: T) -> bool {
    !lt(b, a)
}

/// The comparison operators of `T` behave as vstd describes them, so that
/// `<` computes [`lt`].
pub open spec fn comparable<T: PartialOrd>() -> bool {
    T::obeys_partial_cmp_spec()
}

/// The assumptions on the element type: `cmp`, `partial_cmp` and `eq` behave
/// as vstd describes them, the comparison is a strict total order in which
/// `Equal` means equality, and `clone` returns an equal value.
pub open spec fn total_order<T: Ord + Clone>() -> bool {
    &&& vstd::laws_cmp::obeys_cmp::<T>()
    &&& vstd::laws_eq::obeys_concrete_eq::<T>()
    &&& forall|a: T, b: T| #[trigger] call_ensures(T::clone, (&a,), b) ==> a == b
}

/// The primitive integer types meet [`total_order`].
pub proof fn lemma_integers_are_ordered()
    ensures
        total_order::<u8>(),
        total_order::<u16>(),
        total_order::<u32>(),
        total_order::<u64>(),
        total_order::<u128>(),
        total_order::<usize>(),
        total_order::<i8>(),
        total_order::<i16>(),
        total_order::<i32>(),
        total_order::<i64>(),
        total_order::<i128>(),
        total_order::<isize>(),
{
}

/// Under [`total_order`], `lt` is irreflexive, asymmetric, transitive and
/// total, and `le` is its reflexive closure.
pub proof fn lemma_order_laws<T: Ord + Clone>()
    requires
        total_order::<T>(),
    ensures
        forall|a: T| !#[trigger] lt(a, a),
        forall|a: T, b: T| #[trigger] lt(a, b) ==> !lt(b, a),
        forall|a: T, b: T| #[trigger] lt(a, b) || a == b || lt(b, a),
        forall|a: T, b: T, c: T| #[trigger] lt(a, b) && #[trigger] lt(b, c) ==> lt(a, c),
        forall|a: T, b: T, c: T| #[trigger] lt(a, b) && #[trigger] le(b, c) ==> lt(a, c),
        forall|a: T, b: T, c: T| #[trigger] le(a, b) && #[trigger] lt(b, c) ==> lt(a, c),
        forall|a: T, b: T, c: T| #[trigger] le(a, b) && #[trigger] le(b, c) ==> le(a, c),
        comparable::<T>(),
{
    reveal(vstd::laws_cmp::obeys_cmp_partial_ord);
    assert forall|a: T, b: T| #[trigger] lt(a, b) || a == b || lt(b, a) by {
        lemma_trichotomy(a, b);
    }
    assert forall|a: T| !#[trigger] lt(a, a) by {
        lemma_trichotomy(a, a);
    }
    assert forall|a: T, b: T| #[trigger] lt(a, b) implies !lt(b, a) by {
        lemma_trichotomy(a, b);
    }
    assert forall|a: T, b: T, c: T| #[trigger] lt(a, b) && #[trigger] lt(b, c) implies lt(a, c) by {
        lemma_lt_transitive(a, b, c);
    }
    assert forall|a: T, b: T, c: T| #[trigger] lt(a, b) && #[trigger] le(b, c) implies lt(a, c) by {
        lemma_trichotomy(b, c);
        if b != c {
            lemma_lt_transitive(a, b, c);
        }
    }
    assert forall|a: T, b: T, c: T| #[trigger] le(a, b) && #[trigger] lt(b, c) implies lt(a, c) by {
        lemma_trichotomy(a, b);
        if a != b {
            lemma_lt_transitive(a, b, c);
        }
    }
    assert forall|a: T, b: T, c: T| #[trigger] le(a, b) && #[trigger] le(b, c) implies le(a, c) by {
        lemma_trichotomy(a, b);
        lemma_trichotomy(b, c);
        lemma_trichotomy(a, c);
        if lt(c, a) && a != b && b != c {
            lemma_lt_transitive(c, a, b);
        }
    }
}

/// Exactly one of `a < b`, `a == b`, `b < a` holds.
pub proof fn lemma_trichotomy<T: Ord + Clone>(a: T, b: T)
    requires
        total_order::<T>(),
    ensures
        lt(a, b) || a == b || lt(b, a),
        !(lt(a, b) && a == b),
        !(lt(b, a) && a == b),
        !(lt(a, b) && lt(b, a)),
{
    reveal(vstd::laws_cmp::obeys_cmp_ord);
    reveal(vstd::laws_cmp::obeys_cmp_partial_ord);
    reveal(vstd::laws_cmp::obeys_partial_cmp_spec_properties);
    reveal(vstd::laws_eq::obeys_concrete_eq);
    let ab = a.partial_cmp_spec(&b);
    let ba = b.partial_cmp_spec(&a);
    assert(ab == Some(a.cmp_spec(&b)));
    assert(ba == Some(b.cmp_spec(&a)));
    assert(ab == Some(Ordering::Equal) <==> a.eq_spec(&b));
    assert(ba == Some(Ordering::Equal) <==> b.eq_spec(&a));
    assert(ab == Some(Ordering::Less) <==> ba == Some(Ordering::Greater));
    assert(ba == Some(Ordering::Less) <==> ab == Some(Ordering::Greater));
}

/// `lt` is transitive.
pub proof fn lemma_lt_transitive<T: Ord + Clone>(a: T, b: T, c: T)
    requires
        total_order::<T>(),
        lt(a, b),
        lt(b, c),
    ensures
        lt(a, c),
{
    reveal(vstd::laws_cmp::obeys_partial_cmp_spec_properties);
    assert(a.partial_cmp_spec(&b) == Some(Ordering::Less));
    assert(b.partial_cmp_spec(&c) == Some(Ordering::Less));
    assert(a.partial_cmp_spec(&c) == Some(Ordering::Less));
}

/// The order in which a B-tree hands out its keys is the order of [`lt`].
pub proof fn lemma_increasing_keys<T: Ord + Clone>(keys: Seq<&T>)
    requires
        total_order::<T>(),
        increasing_seq(keys),
    ensures
        forall|i: int, j: int|
            0 <= i < j < keys.len() ==> lt(*#[trigger] keys[i], *#[trigger] keys[j]),
{
    reveal(vstd::laws_cmp::obeys_cmp_ord);
    axiom_increasing_seq_meaning::<&T>(keys);
    assert forall|i: int, j: int| 0 <= i < j < keys.len() implies lt(
        *#[trigger] keys[i],
        *#[trigger] keys[j],
    ) by {
        assert(OrdSpec::cmp_spec(&keys[i], &keys[j]) is Less);
        assert(keys[i].partial_cmp_spec(keys[j]) == Some(keys[i].cmp_spec(keys[j])));
    }
}

/// The same for keys taken by value.
pub proof fn lemma_increasing_owned<T: Ord + Clone>(keys: Seq<T>)
    requires
        total_order::<T>(),
        increasing_seq(keys),
    ensures
        forall|i: int, j: int|
            0 <= i < j < keys.len() ==> lt(#[trigger] keys[i], #[trigger] keys[j]),
{
    reveal(vstd::laws_cmp::obeys_cmp_ord);
    axiom_increasing_seq_meaning::<T>(keys);
    assert forall|i: int, j: int| 0 <= i < j < keys.len() implies lt(
        #[trigger] keys[i],
        #[trigger] keys[j],
    ) by {
        assert(OrdSpec::cmp_spec(&keys[i], &keys[j]) is Less);
        assert(keys[i].partial_cmp_spec(&keys[j]) == Some(keys[i].cmp_spec(&keys[j])));
    }
}

/// Tests `a < b`.
pub fn is_lt<T: PartialOrd>(a: &T, b: &T) -> (r: bool)
    ensures
        comparable::<T>() ==> r == lt(*a, *b),
{
    *a < *b
}

/// Tests `a <= b`.
pub fn is_le<T: Ord + Clone>(a: &T, b: &T) -> (r: bool)
    ensures
        total_order::<T>() ==> r == le(*a, *b),
{
    proof {
        if total_order::<T>() {
            reveal(vstd::laws_cmp::obeys_cmp_ord);
            reveal(vstd::laws_cmp::obeys_cmp_partial_ord);
            reveal(vstd::laws_cmp::obeys_partial_cmp_spec_properties);
            assert(a.partial_cmp_spec(b) == Some(a.cmp_spec(b)));
            assert(b.partial_cmp_spec(a) == Some(Ordering::Less) <==> a.partial_cmp_spec(b)
                == Some(Ordering::Greater));
        }
    }
    *a <= *b
}

/// Tests `a == b`.
pub fn is_eq<T: Ord + Clone>(a: &T, b: &T) -> (r: bool)
    ensures
        total_order::<T>() ==> r == (*a == *b),
{
    proof {
        if total_order::<T>() {
            reveal(vstd::laws_eq::obeys_concrete_eq);
        }
    }
    *a == *b
}

/// Copies a value.
pub fn duplicate<T: Ord + Clone>(a: &T) -> (r: T)
    ensures
        total_order::<T>() ==> r == *a,
{
    a.clone()
}

} // verus!
