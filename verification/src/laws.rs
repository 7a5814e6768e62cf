//! What holds of masks in general.

use crate::collapsing::{lemma_collapse_ascending, lemma_collapse_fixed, lemma_collapse_parity};
use crate::counting::{lemma_ascending_iff, lemma_count_le_agree, lemma_count_le_partition};
use crate::enumeration::{lemma_all_boundaries_finite, lemma_finite_enumerable};
use crate::model::{all_boundaries, all_included, all_leading, any_included, any_leading};
use crate::model::{ascending, ascending_order, count_le, difference_of, intersection_of};
use crate::model::{symmetric_difference_of, union_of, MaskView};
use crate::order::{le, lemma_order_laws, lt, total_order};
use crate::ordmask::OrdMask;
use crate::toggling::{lemma_all_stable_between_points, lemma_rebuild_included};
use crate::toggling::{lemma_rebuild_well_formed, lemma_stable_between_points};
use vstd::prelude::*;

verus! {

/// Two values between which the mask has no boundary are both included or
/// both excluded. A boundary at the larger value itself counts as lying
/// between them: membership flips at the boundary, not after it.
pub proof fn lemma_same_state_between_boundaries<T: Ord + Clone>(mask: MaskView<T>, v1: T, v2: T)
    requires
        total_order::<T>(),
        lt(v1, v2),
        forall|i: int|
            0 <= i < mask.boundaries.len() ==> !(lt(v1, #[trigger] mask.boundaries[i]) && le(
                mask.boundaries[i],
                v2,
            )),
    ensures
        mask.included(v1) == mask.included(v2),
{
    lemma_order_laws::<T>();
    let b = mask.boundaries;
    assert forall|i: int| 0 <= i < b.len() implies le(#[trigger] b[i], v1) == le(b[i], v2) by {
        if le(b[i], v1) {
            assert(le(v1, v2));
        }
    }
    lemma_count_le_agree(b, v1, v2);
}

/// Simplifying a valid mask gives a well-formed mask that includes the same
/// values.
pub proof fn lemma_simplify_canonical<T: Ord + Clone>(mask: MaskView<T>)
    requires
        total_order::<T>(),
        mask.valid(),
    ensures
        mask.simplify().well_formed(),
        mask.simplify().leading == mask.leading,
        forall|v: T| #[trigger] mask.simplify().included(v) == mask.included(v),
{
    lemma_collapse_ascending(mask.boundaries);
    lemma_ascending_iff(mask.simplify().boundaries);
    assert forall|v: T| #[trigger] mask.simplify().included(v) == mask.included(v) by {
        lemma_collapse_parity(mask.boundaries, v);
    }
}

/// Simplifying a simplified mask changes nothing.
pub proof fn lemma_simplify_simplified<T: Ord>(mask: MaskView<T>)
    requires
        mask.simplified(),
    ensures
        mask.simplify() == mask,
{
    lemma_collapse_fixed(mask.boundaries);
}

/// Simplifying twice is simplifying once.
pub proof fn lemma_simplify_idempotent<T: Ord + Clone>(mask: MaskView<T>)
    requires
        total_order::<T>(),
        mask.valid(),
    ensures
        mask.simplify().simplify() == mask.simplify(),
{
    lemma_simplify_canonical(mask);
    lemma_simplify_simplified(mask.simplify());
}

/// The complement includes exactly what the mask excludes.
pub proof fn lemma_complement_included<T: Ord>(mask: MaskView<T>, v: T)
    ensures
        mask.complement().included(v) == !mask.included(v),
{
}

/// The complement of the complement is the mask.
pub proof fn lemma_complement_involution<T: Ord>(mask: MaskView<T>)
    ensures
        mask.complement().complement() == mask,
{
}

/// A mask is what [`OrdMask::with_unchecked`] makes of its boundaries, as
/// [`OrdMask::key_points`] hands them out, and of its leading state, as
/// [`OrdMask::is_include_min_value`] tells it.
pub proof fn lemma_round_trip<T: Ord + Clone>(
    mask: OrdMask<T>,
    key_points: Vec<T>,
    reversed: bool,
    rebuilt: OrdMask<T>,
)
    requires
        key_points@ == mask@.boundaries,
        reversed == mask@.leading,
        rebuilt@ == (MaskView { boundaries: key_points@, leading: reversed }),
    ensures
        rebuilt@ == mask@,
{
}

/// Ascending sequences that have, for every value, the same parity of the
/// number of elements at or below it agree on their first `k` elements.
proof fn lemma_same_prefix<T: Ord + Clone>(a: Seq<T>, b: Seq<T>, k: int)
    requires
        total_order::<T>(),
        ascending(a),
        ascending(b),
        forall|v: T| #[trigger] count_le(a, v) % 2 == count_le(b, v) % 2,
        0 <= k <= a.len(),
    ensures
        k <= b.len(),
        a.take(k) == b.take(k),
    decreases k,
{
    lemma_order_laws::<T>();
    if k == 0 {
        assert(a.take(0) =~= b.take(0));
    } else {
        let j = k - 1;
        lemma_same_prefix(a, b, j);
        assert forall|i: int| 0 <= i < j implies a[i] == b[i] by {
            assert(a.take(j)[i] == b.take(j)[i]);
        }
        let x = a[j];
        assert(count_le(a, x) == j + 1) by {
            assert forall|i: int| 0 <= i < j + 1 implies le(#[trigger] a[i], x) by {
                if i < j {
                    assert(lt(a[i], a[j]));
                }
            }
            assert forall|i: int| j + 1 <= i < a.len() implies !le(#[trigger] a[i], x) by {
                assert(lt(a[j], a[i]));
            }
            lemma_count_le_partition(a, x, j + 1);
        }
        assert(count_le(a, x) % 2 == count_le(b, x) % 2);
        if b.len() == j || lt(x, b[j]) {
            assert forall|i: int| 0 <= i < j implies le(#[trigger] b[i], x) by {
                assert(lt(a[i], a[j]));
            }
            assert forall|i: int| j <= i < b.len() implies !le(#[trigger] b[i], x) by {
                if j < i {
                    assert(lt(b[j], b[i]));
                }
            }
            lemma_count_le_partition(b, x, j);
            assert(false);
        }
        let y = b[j];
        if lt(y, x) {
            assert(count_le(b, y) == j + 1) by {
                assert forall|i: int| 0 <= i < j + 1 implies le(#[trigger] b[i], y) by {
                    if i < j {
                        assert(lt(b[i], b[j]));
                    }
                }
                assert forall|i: int| j + 1 <= i < b.len() implies !le(#[trigger] b[i], y) by {
                    assert(lt(b[j], b[i]));
                }
                lemma_count_le_partition(b, y, j + 1);
            }
            assert(count_le(a, y) == j) by {
                assert forall|i: int| 0 <= i < j implies le(#[trigger] a[i], y) by {
                    assert(lt(b[i], b[j]));
                }
                assert forall|i: int| j <= i < a.len() implies !le(#[trigger] a[i], y) by {
                    if j < i {
                        assert(lt(a[j], a[i]));
                    }
                }
                lemma_count_le_partition(a, y, j);
            }
            assert(count_le(a, y) % 2 == count_le(b, y) % 2);
            assert(false);
        }
        assert(x == y);
        assert(a.take(k) =~= b.take(k));
    }
}

/// Well-formed masks with the same leading state that include the same values
/// are the same mask: the canonical form is unique.
pub proof fn lemma_canonical<T: Ord + Clone>(a: MaskView<T>, b: MaskView<T>)
    requires
        total_order::<T>(),
        a.well_formed(),
        b.well_formed(),
        a.leading == b.leading,
        forall|v: T| #[trigger] a.included(v) == b.included(v),
    ensures
        a == b,
{
    lemma_ascending_iff(a.boundaries);
    lemma_ascending_iff(b.boundaries);
    assert forall|v: T| #[trigger]
        count_le(a.boundaries, v) % 2 == count_le(b.boundaries, v) % 2 by {
        assert(a.included(v) == b.included(v));
    }
    assert forall|v: T| #[trigger]
        count_le(b.boundaries, v) % 2 == count_le(a.boundaries, v) % 2 by {
        assert(a.included(v) == b.included(v));
    }
    lemma_same_prefix(a.boundaries, b.boundaries, a.boundaries.len() as int);
    lemma_same_prefix(b.boundaries, a.boundaries, b.boundaries.len() as int);
    assert(a.boundaries.take(a.boundaries.len() as int) =~= a.boundaries);
    assert(b.boundaries.take(a.boundaries.len() as int) =~= b.boundaries);
}

/// The union is well-formed, its leading state is `true` exactly when one of
/// the masks has leading state `true`, and it includes exactly what at least
/// one of the masks includes.
pub proof fn lemma_union_of<T: Ord + Clone>(masks: Seq<MaskView<T>>)
    requires
        total_order::<T>(),
    ensures
        union_of(masks).well_formed(),
        union_of(masks).leading == any_leading(masks),
        forall|v: T| #[trigger] union_of(masks).included(v) == any_included(masks, v),
{
    let points = all_boundaries(masks);
    let mark = |v: T| any_included(masks, v);
    lemma_all_boundaries_finite(masks);
    lemma_finite_enumerable(points);
    lemma_rebuild_well_formed(points, mark, any_leading(masks));
    assert forall|v: T| #[trigger] union_of(masks).included(v) == any_included(masks, v) by {
        lemma_rebuild_included(points, mark, any_leading(masks), v);
        lemma_all_stable_between_points(masks, ascending_order(points), v);
    }
}

/// The intersection is well-formed, its leading state is `true` exactly when
/// every one of the masks has leading state `true`, and it includes exactly
/// what every one of the masks includes.
pub proof fn lemma_intersection_of<T: Ord + Clone>(masks: Seq<MaskView<T>>)
    requires
        total_order::<T>(),
    ensures
        intersection_of(masks).well_formed(),
        intersection_of(masks).leading == all_leading(masks),
        forall|v: T| #[trigger] intersection_of(masks).included(v) == all_included(masks, v),
{
    let points = all_boundaries(masks);
    let mark = |v: T| all_included(masks, v);
    lemma_all_boundaries_finite(masks);
    lemma_finite_enumerable(points);
    lemma_rebuild_well_formed(points, mark, all_leading(masks));
    assert forall|v: T| #[trigger]
        intersection_of(masks).included(v) == all_included(masks, v) by {
        lemma_rebuild_included(points, mark, all_leading(masks), v);
        lemma_all_stable_between_points(masks, ascending_order(points), v);
    }
}

/// The difference is well-formed, its leading state is that of `mask` unless
/// one of the others has leading state `true`, and it includes exactly what
/// `mask` includes and none of the others does.
pub proof fn lemma_difference_of<T: Ord + Clone>(mask: MaskView<T>, others: Seq<MaskView<T>>)
    requires
        total_order::<T>(),
    ensures
        difference_of(mask, others).well_formed(),
        difference_of(mask, others).leading == (mask.leading && !any_leading(others)),
        forall|v: T| #[trigger]
            difference_of(mask, others).included(v) == (mask.included(v) && !any_included(
                others,
                v,
            )),
{
    let points = all_boundaries(others).union(mask.boundaries.to_set());
    let mark = |v: T| mask.included(v) && !any_included(others, v);
    let leading = mask.leading && !any_leading(others);
    lemma_all_boundaries_finite(others);
    lemma_finite_enumerable(points);
    lemma_rebuild_well_formed(points, mark, leading);
    let sorted = ascending_order(points);
    assert forall|j: int| 0 <= j < mask.boundaries.len() implies sorted.contains(
        #[trigger] mask.boundaries[j],
    ) by {
        assert(mask.boundaries.to_set().contains(mask.boundaries[j]));
        assert(sorted.to_set().contains(mask.boundaries[j]));
    }
    assert forall|v: T| #[trigger]
        difference_of(mask, others).included(v) == (mask.included(v) && !any_included(
            others,
            v,
        )) by {
        lemma_rebuild_included(points, mark, leading, v);
        lemma_all_stable_between_points(others, sorted, v);
        lemma_stable_between_points(mask, sorted, v);
    }
}

/// The symmetric difference is well-formed, its leading state is `true`
/// exactly when the leading states of the two masks differ, and it includes
/// exactly what exactly one of the two includes.
pub proof fn lemma_symmetric_difference_of<T: Ord + Clone>(left: MaskView<T>, right: MaskView<T>)
    requires
        total_order::<T>(),
    ensures
        symmetric_difference_of(left, right).well_formed(),
        symmetric_difference_of(left, right).leading == (left.leading != right.leading),
        forall|v: T| #[trigger]
            symmetric_difference_of(left, right).included(v) == (left.included(v)
                != right.included(v)),
{
    let points = left.boundaries.to_set().union(right.boundaries.to_set());
    let mark = |v: T| left.included(v) != right.included(v);
    let leading = left.leading != right.leading;
    lemma_finite_enumerable(points);
    lemma_rebuild_well_formed(points, mark, leading);
    let sorted = ascending_order(points);
    assert forall|j: int| 0 <= j < left.boundaries.len() implies sorted.contains(
        #[trigger] left.boundaries[j],
    ) by {
        assert(left.boundaries.to_set().contains(left.boundaries[j]));
        assert(sorted.to_set().contains(left.boundaries[j]));
    }
    assert forall|j: int| 0 <= j < right.boundaries.len() implies sorted.contains(
        #[trigger] right.boundaries[j],
    ) by {
        assert(right.boundaries.to_set().contains(right.boundaries[j]));
        assert(sorted.to_set().contains(right.boundaries[j]));
    }
    assert forall|v: T| #[trigger]
        symmetric_difference_of(left, right).included(v) == (left.included(v) != right.included(
            v,
        )) by {
        lemma_rebuild_included(points, mark, leading, v);
        lemma_stable_between_points(left, sorted, v);
        lemma_stable_between_points(right, sorted, v);
    }
}

/// De Morgan: the complement of a union is the intersection of the
/// complements.
pub proof fn lemma_complement_of_union<T: Ord + Clone>(a: MaskView<T>, b: MaskView<T>)
    requires
        total_order::<T>(),
    ensures
        union_of(seq![a, b]).complement() == intersection_of(
            seq![a.complement(), b.complement()],
        ),
{
    let inputs = seq![a, b];
    let complements = seq![a.complement(), b.complement()];
    lemma_union_of(inputs);
    lemma_intersection_of(complements);
    assert(inputs[0] == a && inputs[1] == b);
    assert(complements[0] == a.complement() && complements[1] == b.complement());
    assert forall|v: T| #[trigger]
        union_of(inputs).complement().included(v) == intersection_of(complements).included(
            v,
        ) by {
        assert(union_of(inputs).included(v) == any_included(inputs, v));
        assert(intersection_of(complements).included(v) == all_included(complements, v));
        assert(inputs[0].included(v) == !complements[0].included(v));
        assert(inputs[1].included(v) == !complements[1].included(v));
    }
    lemma_canonical(union_of(inputs).complement(), intersection_of(complements));
}

/// De Morgan: the complement of an intersection is the union of the
/// complements.
pub proof fn lemma_complement_of_intersection<T: Ord + Clone>(a: MaskView<T>, b: MaskView<T>)
    requires
        total_order::<T>(),
    ensures
        intersection_of(seq![a, b]).complement() == union_of(
            seq![a.complement(), b.complement()],
        ),
{
    let inputs = seq![a, b];
    let complements = seq![a.complement(), b.complement()];
    lemma_intersection_of(inputs);
    lemma_union_of(complements);
    assert(inputs[0] == a && inputs[1] == b);
    assert(complements[0] == a.complement() && complements[1] == b.complement());
    assert forall|v: T| #[trigger]
        intersection_of(inputs).complement().included(v) == union_of(complements).included(
            v,
        ) by {
        assert(intersection_of(inputs).included(v) == all_included(inputs, v));
        assert(union_of(complements).included(v) == any_included(complements, v));
        assert(inputs[0].included(v) == !complements[0].included(v));
        assert(inputs[1].included(v) == !complements[1].included(v));
    }
    lemma_canonical(intersection_of(inputs).complement(), union_of(complements));
}

} // verus!
