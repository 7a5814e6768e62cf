//! Facts about rebuilding a mask from marked points.

use crate::counting::{lemma_count_le_bound, lemma_count_le_partition, lemma_count_le_push};
use crate::counting::{lemma_ascending_iff, lemma_count_le_agree, lemma_count_le_sorted};
use crate::model::{all_boundaries, answers, ascending, ascending_order, count_le, enumerable};
use crate::model::{marks_of, rebuild, state_before, toggled_by, toggles, MaskView};
use crate::order::{le, lemma_order_laws, lt, total_order};
use vstd::prelude::*;

verus! {

/// What `toggles` keeps are points, and of ascending points it keeps an
/// ascending selection.
pub proof fn lemma_toggles_ascending<T: Ord + Clone>(
    points: Seq<T>,
    marks: Seq<bool>,
    leading: bool,
)
    requires
        total_order::<T>(),
        ascending(points),
        marks.len() == points.len(),
    ensures
        ascending(toggles(points, marks, leading)),
        toggles(points, marks, leading).len() <= points.len(),
        forall|i: int|
            0 <= i < toggles(points, marks, leading).len() ==> points.contains(
                #[trigger] toggles(points, marks, leading)[i],
            ),
    decreases points.len(),
{
    let kept = toggles(points, marks, leading);
    if points.len() > 0 {
        let n = points.len() - 1;
        let shorter = points.drop_last();
        let earlier = toggles(shorter, marks.drop_last(), leading);
        lemma_toggles_ascending(shorter, marks.drop_last(), leading);
        assert forall|i: int| 0 <= i < earlier.len() implies points.contains(
            #[trigger] earlier[i],
        ) && lt(earlier[i], points[n]) by {
            assert(shorter.contains(earlier[i]));
            let j = choose|j: int| 0 <= j < shorter.len() && shorter[j] == earlier[i];
            assert(points[j] == earlier[i]);
        }
        assert forall|i: int| 0 <= i < kept.len() implies points.contains(#[trigger] kept[i]) by {
            if i < earlier.len() {
                assert(kept[i] == earlier[i]);
            } else {
                assert(kept[i] == points[n]);
            }
        }
        assert forall|i: int, j: int| 0 <= i < j < kept.len() implies lt(
            #[trigger] kept[i],
            #[trigger] kept[j],
        ) by {
            assert(kept[i] == earlier[i]);
            if j < earlier.len() {
                assert(kept[j] == earlier[j]);
            } else {
                assert(kept[j] == points[n]);
            }
        }
    }
}

/// The mask that `toggles` builds has, at every value, the state that the
/// marks give to the last point at or below the value, and the leading state
/// below the first point.
pub proof fn lemma_toggles_included<T: Ord + Clone>(
    points: Seq<T>,
    marks: Seq<bool>,
    leading: bool,
    v: T,
)
    requires
        total_order::<T>(),
        ascending(points),
        marks.len() == points.len(),
    ensures
        (MaskView { boundaries: toggles(points, marks, leading), leading }).included(v)
            == state_before(marks, leading, count_le(points, v) as int),
    decreases points.len(),
{
    lemma_order_laws::<T>();
    if points.len() > 0 {
        let n = points.len() - 1;
        let shorter = points.drop_last();
        let fewer = marks.drop_last();
        let earlier = toggles(shorter, fewer, leading);
        lemma_toggles_included(shorter, fewer, leading, v);
        lemma_count_le_bound(shorter, v);
        if le(points[n], v) {
            assert forall|i: int| 0 <= i < shorter.len() implies le(#[trigger] shorter[i], v) by {
                assert(lt(points[i], points[n]));
            }
            lemma_count_le_partition(shorter, v, n);
            assert(state_before(fewer, leading, n) == state_before(marks, leading, n));
        } else {
            let c = count_le(shorter, v) as int;
            if c > 0 {
                assert(fewer[c - 1] == marks[c - 1]);
            }
        }
        if marks[n] != state_before(marks, leading, n) {
            lemma_count_le_push(earlier, points[n], v);
        }
    }
}

/// What [`rebuild`] makes of an enumerable set is well-formed and has the
/// leading state that was asked for.
pub proof fn lemma_rebuild_well_formed<T: Ord + Clone>(
    points: Set<T>,
    mark: spec_fn(T) -> bool,
    leading: bool,
)
    requires
        total_order::<T>(),
        enumerable(points),
    ensures
        rebuild(points, mark, leading).well_formed(),
        rebuild(points, mark, leading).leading == leading,
        forall|i: int|
            0 <= i < rebuild(points, mark, leading).boundaries.len() ==> points.contains(
                #[trigger] rebuild(points, mark, leading).boundaries[i],
            ),
{
    let sorted = ascending_order(points);
    let marks = marks_of(sorted, mark);
    lemma_toggles_ascending(sorted, marks, leading);
    lemma_ascending_iff(toggles(sorted, marks, leading));
    assert forall|i: int|
        0 <= i < rebuild(points, mark, leading).boundaries.len() implies points.contains(
        #[trigger] rebuild(points, mark, leading).boundaries[i],
    ) by {
        assert(sorted.contains(toggles(sorted, marks, leading)[i]));
        assert(sorted.to_set().contains(toggles(sorted, marks, leading)[i]));
    }
}

/// What [`rebuild`] makes of an enumerable set has, at every value, the mark
/// of the last point at or below the value, and the leading state below the
/// first point.
pub proof fn lemma_rebuild_included<T: Ord + Clone>(
    points: Set<T>,
    mark: spec_fn(T) -> bool,
    leading: bool,
    v: T,
)
    requires
        total_order::<T>(),
        enumerable(points),
    ensures
        count_le(ascending_order(points), v) <= ascending_order(points).len(),
        rebuild(points, mark, leading).included(v) == if count_le(ascending_order(points), v)
            == 0 {
            leading
        } else {
            mark(ascending_order(points)[count_le(ascending_order(points), v) - 1])
        },
{
    let sorted = ascending_order(points);
    lemma_count_le_bound(sorted, v);
    lemma_toggles_included(sorted, marks_of(sorted, mark), leading, v);
}

/// Where `is_included` can only answer what `mark` says, what it toggles is
/// what [`rebuild`] makes of `mark`.
pub proof fn lemma_toggled_by_marks<T: Ord, F: Fn(&T) -> bool>(
    points: Set<T>,
    is_included: F,
    mark: spec_fn(T) -> bool,
    leading: bool,
    result: MaskView<T>,
)
    requires
        toggled_by(points, is_included, leading, result),
        forall|x: T, answer: bool| #[trigger]
            call_ensures(is_included, (&x,), answer) ==> answer == mark(x),
    ensures
        result == rebuild(points, mark, leading),
{
    let sorted = ascending_order(points);
    let marks = choose|marks: Seq<bool>| #[trigger]
        answers(is_included, sorted, marks) && result == (MaskView {
            boundaries: toggles(sorted, marks, leading),
            leading,
        });
    assert(marks =~= marks_of(sorted, mark));
}

/// A mask whose boundaries are all among the ascending `points` has, at
/// every value, the state that it has at the last point at or below the
/// value, and its leading state below the first point.
pub proof fn lemma_stable_between_points<T: Ord + Clone>(mask: MaskView<T>, points: Seq<T>, v: T)
    requires
        total_order::<T>(),
        ascending(points),
        forall|j: int|
            0 <= j < mask.boundaries.len() ==> points.contains(#[trigger] mask.boundaries[j]),
    ensures
        count_le(points, v) <= points.len(),
        mask.included(v) == if count_le(points, v) == 0 {
            mask.leading
        } else {
            mask.included(points[count_le(points, v) - 1])
        },
{
    lemma_order_laws::<T>();
    lemma_ascending_iff(points);
    lemma_count_le_sorted(points, v);
    let c = count_le(points, v) as int;
    let b = mask.boundaries;
    if c == 0 {
        assert forall|j: int| 0 <= j < b.len() implies !le(#[trigger] b[j], v) by {
            let k = choose|k: int| 0 <= k < points.len() && points[k] == b[j];
            assert(!le(points[k], v));
        }
        lemma_count_le_partition(b, v, 0);
    } else {
        let p = points[c - 1];
        assert forall|j: int| 0 <= j < b.len() implies le(#[trigger] b[j], p) == le(b[j], v) by {
            let k = choose|k: int| 0 <= k < points.len() && points[k] == b[j];
            if k < c {
                assert(le(points[k], v));
                if k < c - 1 {
                    assert(lt(points[k], points[c - 1]));
                }
            } else {
                assert(!le(points[k], v));
                assert(lt(points[c - 1], points[k]));
            }
        }
        lemma_count_le_agree(b, p, v);
    }
}

/// The same for every mask of a list whose boundaries are all among the
/// points.
pub proof fn lemma_all_stable_between_points<T: Ord + Clone>(
    masks: Seq<MaskView<T>>,
    points: Seq<T>,
    v: T,
)
    requires
        total_order::<T>(),
        ascending(points),
        all_boundaries(masks).subset_of(points.to_set()),
    ensures
        count_le(points, v) <= points.len(),
        forall|i: int|
            0 <= i < masks.len() ==> (#[trigger] masks[i]).included(v) == if count_le(points, v)
                == 0 {
                masks[i].leading
            } else {
                masks[i].included(points[count_le(points, v) - 1])
            },
{
    lemma_count_le_bound(points, v);
    let c = count_le(points, v);
    assert forall|i: int| 0 <= i < masks.len() implies (#[trigger] masks[i]).included(v) == if c
        == 0 {
        masks[i].leading
    } else {
        masks[i].included(points[c - 1])
    } by {
        assert forall|j: int| 0 <= j < masks[i].boundaries.len() implies points.contains(
            #[trigger] masks[i].boundaries[j],
        ) by {
            assert(all_boundaries(masks).contains(masks[i].boundaries[j]));
            assert(points.to_set().contains(masks[i].boundaries[j]));
        }
        lemma_stable_between_points(masks[i], points, v);
    }
}

} // verus!
