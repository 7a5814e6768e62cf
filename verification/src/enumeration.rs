//! The ascending enumeration of a finite set, and the set of the boundaries
//! of a list of masks.

use crate::counting::{lemma_ascending_iff, lemma_count_le_sorted};
use crate::model::{all_boundaries, ascending, ascending_order, count_le, enumerable, MaskView};
use crate::order::{le, lemma_order_laws, lt, total_order};
use vstd::prelude::*;

verus! {

/// A set has at most one ascending enumeration.
pub proof fn lemma_ascending_unique<T: Ord + Clone>(a: Seq<T>, b: Seq<T>)
    requires
        total_order::<T>(),
        ascending(a),
        ascending(b),
        a.to_set() == b.to_set(),
    ensures
        a == b,
    decreases a.len(),
{
    lemma_order_laws::<T>();
    if a.len() == 0 {
        if b.len() > 0 {
            assert(b.to_set().contains(b[0]));
            assert(a.contains(b[0]));
        }
        assert(a =~= b);
    } else {
        assert(a.to_set().contains(a.last()));
        assert(b.contains(a.last()));
        assert(b.to_set().contains(b.last()));
        assert(a.contains(b.last()));
        let j = choose|j: int| 0 <= j < b.len() && b[j] == a.last();
        let k = choose|k: int| 0 <= k < a.len() && a[k] == b.last();
        if j < b.len() - 1 {
            assert(lt(b[j], b[b.len() - 1]));
        }
        if k < a.len() - 1 {
            assert(lt(a[k], a[a.len() - 1]));
        }
        assert(a.last() == b.last());
        let a0 = a.drop_last();
        let b0 = b.drop_last();
        assert forall|x: T| a0.to_set().contains(x) implies b0.to_set().contains(x) by {
            let i = choose|i: int| 0 <= i < a0.len() && a0[i] == x;
            assert(lt(a[i], a[a.len() - 1]));
            assert(a.contains(x));
            assert(b.to_set().contains(x));
            let m = choose|m: int| 0 <= m < b.len() && b[m] == x;
            assert(b0[m] == x);
        }
        assert forall|x: T| b0.to_set().contains(x) implies a0.to_set().contains(x) by {
            let i = choose|i: int| 0 <= i < b0.len() && b0[i] == x;
            assert(lt(b[i], b[b.len() - 1]));
            assert(b.contains(x));
            assert(a.to_set().contains(x));
            let m = choose|m: int| 0 <= m < a.len() && a[m] == x;
            assert(a0[m] == x);
        }
        assert(a0.to_set() =~= b0.to_set());
        lemma_ascending_unique(a0, b0);
        assert(a =~= a0.push(a.last()));
        assert(b =~= b0.push(b.last()));
    }
}

/// An ascending sequence is the ascending enumeration of its elements.
pub proof fn lemma_ascending_order<T: Ord + Clone>(s: Seq<T>)
    requires
        total_order::<T>(),
        ascending(s),
    ensures
        ascending_order(s.to_set()) == s,
{
    lemma_ascending_unique(ascending_order(s.to_set()), s);
}

/// Every finite set has an ascending enumeration.
pub proof fn lemma_finite_enumerable<T: Ord + Clone>(points: Set<T>)
    requires
        total_order::<T>(),
        points.finite(),
    ensures
        enumerable(points),
    decreases points.len(),
{
    lemma_order_laws::<T>();
    if points.len() == 0 {
        let none = Seq::<T>::empty();
        assert(none.to_set() =~= points);
        assert(ascending(none));
    } else {
        let x = points.choose();
        let rest = points.remove(x);
        lemma_finite_enumerable(rest);
        let s = ascending_order(rest);
        lemma_ascending_iff(s);
        lemma_count_le_sorted(s, x);
        let k = count_le(s, x) as int;
        let t = s.insert(k, x);
        assert forall|i: int| 0 <= i < s.len() implies #[trigger] s[i] != x by {
            assert(s.to_set().contains(s[i]));
        }
        assert forall|i: int, j: int| 0 <= i < j < t.len() implies lt(
            #[trigger] t[i],
            #[trigger] t[j],
        ) by {
            if j < k {
                assert(t[i] == s[i] && t[j] == s[j]);
            } else if j == k {
                assert(t[i] == s[i] && t[j] == x);
                assert(le(s[i], x));
            } else if i < k {
                assert(t[i] == s[i] && t[j] == s[j - 1]);
                if i < j - 1 {
                    assert(lt(s[i], s[j - 1]));
                }
            } else if i == k {
                assert(t[i] == x && t[j] == s[j - 1]);
                assert(!le(s[j - 1], x));
            } else {
                assert(t[i] == s[i - 1] && t[j] == s[j - 1]);
            }
        }
        assert(t.to_set() =~= points) by {
            assert forall|y: T| t.to_set().contains(y) implies points.contains(y) by {
                let i = choose|i: int| 0 <= i < t.len() && t[i] == y;
                if i < k {
                    assert(s.to_set().contains(s[i]));
                } else if i > k {
                    assert(s.to_set().contains(s[i - 1]));
                }
            }
            assert forall|y: T| points.contains(y) implies t.to_set().contains(y) by {
                if y == x {
                    assert(t[k] == y);
                } else {
                    assert(s.to_set().contains(y));
                    let i = choose|i: int| 0 <= i < s.len() && s[i] == y;
                    if i < k {
                        assert(t[i] == y);
                    } else {
                        assert(t[i + 1] == y);
                    }
                }
            }
        }
    }
}

/// The boundaries of a list of masks with one more mask at its end are those
/// of the list together with those of the mask.
pub proof fn lemma_all_boundaries_push<T>(masks: Seq<MaskView<T>>, last: MaskView<T>)
    ensures
        all_boundaries(masks.push(last)) == all_boundaries(masks).union(last.boundaries.to_set()),
{
    let longer = masks.push(last);
    let n = masks.len() as int;
    assert forall|x: T| all_boundaries(longer).contains(x) implies all_boundaries(masks).union(
        last.boundaries.to_set(),
    ).contains(x) by {
        let (i, j) = choose|i: int, j: int|
            0 <= i < longer.len() && 0 <= j < longer[i].boundaries.len()
                && #[trigger] longer[i].boundaries[j] == x;
        if i < n {
            assert(masks[i].boundaries[j] == x);
        } else {
            assert(last.boundaries[j] == x);
        }
    }
    assert forall|x: T|
        all_boundaries(masks).union(last.boundaries.to_set()).contains(
            x,
        ) implies all_boundaries(longer).contains(x) by {
        if all_boundaries(masks).contains(x) {
            let (i, j) = choose|i: int, j: int|
                0 <= i < masks.len() && 0 <= j < masks[i].boundaries.len()
                    && #[trigger] masks[i].boundaries[j] == x;
            assert(longer[i].boundaries[j] == x);
        } else {
            let j = choose|j: int| 0 <= j < last.boundaries.len() && last.boundaries[j] == x;
            assert(longer[n].boundaries[j] == x);
        }
    }
    assert(all_boundaries(longer) =~= all_boundaries(masks).union(last.boundaries.to_set()));
}

/// The masks of a list have finitely many boundaries between them.
pub proof fn lemma_all_boundaries_finite<T>(masks: Seq<MaskView<T>>)
    ensures
        all_boundaries(masks).finite(),
    decreases masks.len(),
{
    if masks.len() == 0 {
        assert(all_boundaries(masks) =~= Set::<T>::empty());
    } else {
        lemma_all_boundaries_finite(masks.drop_last());
        lemma_all_boundaries_push(masks.drop_last(), masks.last());
        assert(masks.drop_last().push(masks.last()) =~= masks);
    }
}

} // verus!
