//! Facts about counting the boundaries at or below a value.

use crate::model::{ascending, count_le, descends_at, no_repeats};
use crate::model::{non_decreasing, repeats_at};
use crate::order::{le, lemma_order_laws, lemma_trichotomy, lt, total_order};
use vstd::prelude::*;

verus! {

/// The count is at most the length.
pub proof fn lemma_count_le_bound<T: Ord>(s: Seq<T>, v: T)
    ensures
        count_le(s, v) <= s.len(),
    decreases s.len(),
{
    if s.len() > 0 {
        lemma_count_le_bound(s.drop_last(), v);
    }
}

/// Appending one element adds one to the count if the element is at or below
/// `v`, and nothing otherwise.
pub proof fn lemma_count_le_push<T: Ord>(s: Seq<T>, x: T, v: T)
    ensures
        count_le(s.push(x), v) == count_le(s, v) + if le(x, v) {
            1nat
        } else {
            0nat
        },
{
    assert(s.push(x).drop_last() =~= s);
}

/// If the elements before `p` are at or below `v` and those from `p` on are
/// above it, the count is `p`.
pub proof fn lemma_count_le_partition<T: Ord>(s: Seq<T>, v: T, p: int)
    requires
        0 <= p <= s.len(),
        forall|i: int| 0 <= i < p ==> le(#[trigger] s[i], v),
        forall|i: int| p <= i < s.len() ==> !le(#[trigger] s[i], v),
    ensures
        count_le(s, v) == p,
    decreases s.len(),
{
    if s.len() > 0 {
        let t = s.drop_last();
        if p == s.len() {
            lemma_count_le_partition(t, v, p - 1);
        } else {
            lemma_count_le_partition(t, v, p);
        }
    }
}

/// Two values that stand in the same relation to every element of `s` have
/// the same count.
pub proof fn lemma_count_le_agree<T: Ord>(s: Seq<T>, u: T, v: T)
    requires
        forall|i: int| 0 <= i < s.len() ==> le(#[trigger] s[i], u) == le(s[i], v),
    ensures
        count_le(s, u) == count_le(s, v),
    decreases s.len(),
{
    if s.len() > 0 {
        lemma_count_le_agree(s.drop_last(), u, v);
    }
}

/// In a non-decreasing sequence no element is smaller than an earlier one.
pub proof fn lemma_non_decreasing_pairs<T: Ord + Clone>(s: Seq<T>, i: int, j: int)
    requires
        total_order::<T>(),
        non_decreasing(s),
        0 <= i <= j < s.len(),
    ensures
        le(s[i], s[j]),
    decreases j - i,
{
    lemma_order_laws::<T>();
    if i < j {
        lemma_non_decreasing_pairs(s, i, j - 1);
        assert(!descends_at(s, j));
    }
}

/// A sequence ascends exactly when it is non-decreasing and without repeats.
pub proof fn lemma_ascending_iff<T: Ord + Clone>(s: Seq<T>)
    requires
        total_order::<T>(),
    ensures
        ascending(s) <==> non_decreasing(s) && no_repeats(s),
{
    lemma_order_laws::<T>();
    if ascending(s) {
        assert forall|i: int| !#[trigger] descends_at(s, i) by {
            if 0 < i < s.len() {
                assert(lt(s[i - 1], s[i]));
            }
        }
        assert forall|i: int| !#[trigger] repeats_at(s, i) by {
            if 0 < i < s.len() {
                assert(lt(s[i - 1], s[i]));
            }
        }
    }
    if non_decreasing(s) && no_repeats(s) {
        assert forall|i: int, j: int| 0 <= i < j < s.len() implies lt(
            #[trigger] s[i],
            #[trigger] s[j],
        ) by {
            lemma_non_decreasing_pairs(s, i, j - 1);
            assert(!descends_at(s, j));
            assert(!repeats_at(s, j));
            lemma_trichotomy(s[j - 1], s[j]);
        }
    }
}

/// In a non-decreasing sequence the elements at or below `v` are exactly
/// those before position `count_le(s, v)`.
pub proof fn lemma_count_le_sorted<T: Ord + Clone>(s: Seq<T>, v: T)
    requires
        total_order::<T>(),
        non_decreasing(s),
    ensures
        count_le(s, v) <= s.len(),
        forall|i: int| 0 <= i < count_le(s, v) ==> le(#[trigger] s[i], v),
        forall|i: int| count_le(s, v) <= i < s.len() ==> !le(#[trigger] s[i], v),
    decreases s.len(),
{
    lemma_order_laws::<T>();
    lemma_count_le_bound(s, v);
    if s.len() > 0 {
        let t = s.drop_last();
        assert forall|i: int| !#[trigger] descends_at(t, i) by {
            assert(!descends_at(s, i));
        }
        lemma_count_le_sorted(t, v);
        if le(s.last(), v) {
            assert forall|i: int| 0 <= i < t.len() implies le(#[trigger] t[i], v) by {
                lemma_non_decreasing_pairs(s, i, s.len() - 1);
            }
            lemma_count_le_partition(t, v, t.len() as int);
        }
        assert forall|i: int| 0 <= i < count_le(s, v) implies le(#[trigger] s[i], v) by {
            if i < t.len() {
                assert(s[i] == t[i]);
            }
        }
        assert forall|i: int| count_le(s, v) <= i < s.len() implies !le(#[trigger] s[i], v) by {
            if i < t.len() {
                assert(s[i] == t[i]);
            }
        }
    }
}

} // verus!
