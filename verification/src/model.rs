//! The mathematical model of a mask.
//!
//! A mask is a sequence of boundaries and a leading state. Reading the
//! boundaries from the left, membership flips at each of them; below the first
//! one it is the leading state. So a value belongs to the mask exactly when
//! the leading state is `false` and an odd number of boundaries lie at or
//! below the value, or the leading state is `true` and an even number do.
//!
//! The functions that count and rebuild are recursive. To evaluate one of them
//! on a sequence that is written out, let the solver unfold it as often as the
//! sequence is long: `reveal_with_fuel(count_le, 4)` settles [`count_le`] on
//! three elements.

use crate::order::{le, lt};
use vstd::prelude::*;

verus! {

/// What a mask is: its boundaries, in the order in which they are stored, and
/// the state that holds below the first of them.
#[verifier::ext_equal]
pub struct MaskView<T> {
    pub boundaries: Seq<T>,
    pub leading: bool,
}

/// The number of elements of `s` that are at or below `v`.
pub open spec fn count_le<T: Ord>(s: Seq<T>, v: T) -> nat
    decreases s.len(),
{
    if s.len() == 0 {
        0
    } else {
        count_le(s.drop_last(), v) + if le(s.last(), v) {
            1nat
        } else {
            0nat
        }
    }
}

/// The element at `i` is smaller than the one before it.
pub open spec fn descends_at<T: PartialOrd>(s: Seq<T>, i: int) -> bool {
    0 < i < s.len() && lt(s[i], s[i - 1])
}

/// The element at `i` equals the one before it.
pub open spec fn repeats_at<T>(s: Seq<T>, i: int) -> bool {
    0 < i < s.len() && s[i] == s[i - 1]
}

/// No element is smaller than its predecessor.
pub open spec fn non_decreasing<T: PartialOrd>(s: Seq<T>) -> bool {
    forall|i: int| !#[trigger] descends_at(s, i)
}

/// `i` is the first position at which `s` descends, or 0 if `s` descends
/// nowhere.
pub open spec fn first_descent_is<T: PartialOrd>(s: Seq<T>, i: int) -> bool {
    if i == 0 {
        non_decreasing(s)
    } else {
        descends_at(s, i) && forall|j: int| 0 < j < i ==> !#[trigger] descends_at(s, j)
    }
}

/// No element equals its predecessor.
pub open spec fn no_repeats<T>(s: Seq<T>) -> bool {
    forall|i: int| !#[trigger] repeats_at(s, i)
}

/// Every element is smaller than all that follow it.
pub open spec fn ascending<T: Ord>(s: Seq<T>) -> bool {
    forall|i: int, j: int| 0 <= i < j < s.len() ==> lt(#[trigger] s[i], #[trigger] s[j])
}

/// The length of the run of equal elements that ends `s`.
pub open spec fn trailing_run<T>(s: Seq<T>) -> nat
    decreases s.len(),
{
    if s.len() == 0 {
        0
    } else if s.len() >= 2 && s[s.len() - 2] == s.last() {
        1 + trailing_run(s.drop_last())
    } else {
        1
    }
}

/// The simplified form of a boundary list: each maximal run of equal adjacent
/// elements is replaced by one copy of its value if the run has odd length,
/// and by nothing if it has even length.
pub open spec fn collapse<T>(s: Seq<T>) -> Seq<T>
    decreases s.len(),
    via collapse_terminates::<T>
{
    if s.len() == 0 {
        Seq::empty()
    } else {
        let before = collapse(s.take(s.len() - trailing_run(s)));
        if trailing_run(s) % 2 == 1 {
            before.push(s.last())
        } else {
            before
        }
    }
}

#[via_fn]
proof fn collapse_terminates<T>(s: Seq<T>) {
    trailing_run_bounds(s);
}

/// A run is never longer than the sequence, and a sequence that is not empty
/// ends in a run of at least one element.
proof fn trailing_run_bounds<T>(s: Seq<T>)
    ensures
        trailing_run(s) <= s.len(),
        s.len() > 0 ==> trailing_run(s) >= 1,
    decreases s.len(),
{
    if s.len() >= 2 {
        trailing_run_bounds(s.drop_last());
    }
}

/// The state that the marks give to the region that ends at `points[i]`:
/// the mark of the point before it, or the leading state for the first point.
pub open spec fn state_before(marks: Seq<bool>, leading: bool, i: int) -> bool {
    if i <= 0 {
        leading
    } else {
        marks[i - 1]
    }
}

/// The boundaries of the mask that has state `marks[i]` from `points[i]` up to
/// the next point, and state `leading` below `points[0]`: those points at which
/// the mark differs from the state before.
pub open spec fn toggles<T>(points: Seq<T>, marks: Seq<bool>, leading: bool) -> Seq<T>
    decreases points.len(),
{
    if points.len() == 0 {
        Seq::empty()
    } else {
        let n = points.len() - 1;
        let before = toggles(points.drop_last(), marks.drop_last(), leading);
        if marks[n] != state_before(marks, leading, n) {
            before.push(points[n])
        } else {
            before
        }
    }
}

/// The elements of a finite set in ascending order.
pub open spec fn ascending_order<T: Ord>(points: Set<T>) -> Seq<T> {
    choose|s: Seq<T>| ascending(s) && s.to_set() == points
}

/// The set has an ascending enumeration, as every finite set has.
pub open spec fn enumerable<T: Ord>(points: Set<T>) -> bool {
    ascending(ascending_order(points)) && ascending_order(points).to_set() == points
}

/// The marks that `mark` gives to the points, in their order.
pub open spec fn marks_of<T>(points: Seq<T>, mark: spec_fn(T) -> bool) -> Seq<bool> {
    Seq::new(points.len(), |i: int| mark(points[i]))
}

/// The mask that can change its state only at the points of the set, that has
/// state `mark(p)` from each point `p` up to the next, and state `leading`
/// below the first point.
pub open spec fn rebuild<T: Ord>(
    points: Set<T>,
    mark: spec_fn(T) -> bool,
    leading: bool,
) -> MaskView<T> {
    let sorted = ascending_order(points);
    MaskView { boundaries: toggles(sorted, marks_of(sorted, mark), leading), leading }
}

/// `marks` holds, for each of the points, an answer that `is_included` may
/// give for it.
pub open spec fn answers<T, F: Fn(&T) -> bool>(
    is_included: F,
    points: Seq<T>,
    marks: Seq<bool>,
) -> bool {
    &&& marks.len() == points.len()
    &&& forall|i: int|
        0 <= i < points.len() ==> call_ensures(is_included, (&points[i],), #[trigger] marks[i])
}

/// `result` is the mask that can change its state only at the points of the
/// set, that has from each point up to the next the state that `is_included`
/// answered for the point, and state `leading` below the first point.
pub open spec fn toggled_by<T: Ord, F: Fn(&T) -> bool>(
    points: Set<T>,
    is_included: F,
    leading: bool,
    result: MaskView<T>,
) -> bool {
    &&& enumerable(points)
    &&& exists|marks: Seq<bool>|
        {
            &&& #[trigger] answers(is_included, ascending_order(points), marks)
            &&& result == (MaskView {
                boundaries: toggles(ascending_order(points), marks, leading),
                leading,
            })
        }
}

/// The values that are a boundary of at least one of the masks.
pub open spec fn all_boundaries<T>(masks: Seq<MaskView<T>>) -> Set<T> {
    Set::new(
        |x: T|
            exists|i: int, j: int|
                0 <= i < masks.len() && 0 <= j < masks[i].boundaries.len()
                    && #[trigger] masks[i].boundaries[j] == x,
    )
}

/// Every one of the masks is valid.
pub open spec fn all_valid<T: Ord>(masks: Seq<MaskView<T>>) -> bool {
    forall|i: int| 0 <= i < masks.len() ==> (#[trigger] masks[i]).valid()
}

/// At least one of the masks includes `v`.
pub open spec fn any_included<T: Ord>(masks: Seq<MaskView<T>>, v: T) -> bool {
    exists|i: int| 0 <= i < masks.len() && (#[trigger] masks[i]).included(v)
}

/// Every one of the masks includes `v`.
pub open spec fn all_included<T: Ord>(masks: Seq<MaskView<T>>, v: T) -> bool {
    forall|i: int| 0 <= i < masks.len() ==> (#[trigger] masks[i]).included(v)
}

/// At least one of the masks has leading state `true`.
pub open spec fn any_leading<T>(masks: Seq<MaskView<T>>) -> bool {
    exists|i: int| 0 <= i < masks.len() && (#[trigger] masks[i]).leading
}

/// Every one of the masks has leading state `true`.
pub open spec fn all_leading<T>(masks: Seq<MaskView<T>>) -> bool {
    forall|i: int| 0 <= i < masks.len() ==> (#[trigger] masks[i]).leading
}

/// The union of the masks: the mask in canonical form that includes what at
/// least one of them includes.
pub open spec fn union_of<T: Ord>(masks: Seq<MaskView<T>>) -> MaskView<T> {
    rebuild(all_boundaries(masks), |v: T| any_included(masks, v), any_leading(masks))
}

/// The intersection of the masks: the mask in canonical form that includes
/// what every one of them includes.
pub open spec fn intersection_of<T: Ord>(masks: Seq<MaskView<T>>) -> MaskView<T> {
    rebuild(all_boundaries(masks), |v: T| all_included(masks, v), all_leading(masks))
}

/// The difference of the mask and the others: the mask in canonical form that
/// includes what `mask` includes and none of the others does.
pub open spec fn difference_of<T: Ord>(
    mask: MaskView<T>,
    others: Seq<MaskView<T>>,
) -> MaskView<T> {
    rebuild(
        all_boundaries(others).union(mask.boundaries.to_set()),
        |v: T| mask.included(v) && !any_included(others, v),
        mask.leading && !any_leading(others),
    )
}

/// The symmetric difference of the two masks: the mask in canonical form that
/// includes what exactly one of them includes.
pub open spec fn symmetric_difference_of<T: Ord>(
    left: MaskView<T>,
    right: MaskView<T>,
) -> MaskView<T> {
    rebuild(
        left.boundaries.to_set().union(right.boundaries.to_set()),
        |v: T| left.included(v) != right.included(v),
        left.leading != right.leading,
    )
}

impl<T: Ord> MaskView<T> {
    /// The boundaries are non-decreasing.
    pub open spec fn valid(self) -> bool {
        non_decreasing(self.boundaries)
    }

    /// No two adjacent boundaries are equal.
    pub open spec fn simplified(self) -> bool {
        no_repeats(self.boundaries)
    }

    /// Valid and simplified: the canonical form, in which the boundaries
    /// ascend strictly.
    pub open spec fn well_formed(self) -> bool {
        self.valid() && self.simplified()
    }

    /// Membership: the leading state, flipped once for every boundary at or
    /// below `v`.
    pub open spec fn included(self, v: T) -> bool {
        self.leading != (count_le(self.boundaries, v) % 2 == 1)
    }

    /// The mask with the same boundaries and the opposite leading state.
    pub open spec fn complement(self) -> Self {
        MaskView { boundaries: self.boundaries, leading: !self.leading }
    }

    /// The mask with the same leading state and the boundaries simplified.
    pub open spec fn simplify(self) -> Self {
        MaskView { boundaries: collapse(self.boundaries), leading: self.leading }
    }
}

} // verus!
