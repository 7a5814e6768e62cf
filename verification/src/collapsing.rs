//! Facts about simplification.

use crate::counting::{lemma_count_le_push, lemma_non_decreasing_pairs};
use crate::model::{ascending, collapse, count_le, descends_at, no_repeats, non_decreasing};
use crate::model::{repeats_at, trailing_run};
use crate::order::{le, lemma_order_laws, lemma_trichotomy, lt, total_order};
use vstd::prelude::*;

verus! {

/// The run that ends a sequence consists of copies of its last element, and
/// the element before the run, if there is one, is another.
pub proof fn lemma_trailing_run<T>(s: Seq<T>)
    requires
        s.len() > 0,
    ensures
        1 <= trailing_run(s) <= s.len(),
        forall|i: int| s.len() - trailing_run(s) <= i < s.len() ==> #[trigger] s[i] == s.last(),
        trailing_run(s) < s.len() ==> s[s.len() - trailing_run(s) - 1] != s.last(),
    decreases s.len(),
{
    if s.len() >= 2 && s[s.len() - 2] == s.last() {
        let t = s.drop_last();
        lemma_trailing_run(t);
        assert forall|i: int| s.len() - trailing_run(s) <= i < s.len() implies #[trigger] s[i]
            == s.last() by {
            if i < t.len() {
                assert(t[i] == t.last());
            }
        }
        if trailing_run(s) < s.len() {
            assert(t[t.len() - trailing_run(t) - 1] != t.last());
        }
    }
}

/// What simplification keeps are elements of the sequence.
pub proof fn lemma_collapse_elements<T>(s: Seq<T>)
    ensures
        collapse(s).len() <= s.len(),
        forall|i: int| 0 <= i < collapse(s).len() ==> s.contains(#[trigger] collapse(s)[i]),
    decreases s.len(),
{
    if s.len() > 0 {
        lemma_trailing_run(s);
        let p = s.take(s.len() - trailing_run(s));
        lemma_collapse_elements(p);
        assert forall|i: int| 0 <= i < collapse(s).len() implies s.contains(
            #[trigger] collapse(s)[i],
        ) by {
            if i < collapse(p).len() {
                assert(p.contains(collapse(p)[i]));
                let j = choose|j: int| 0 <= j < p.len() && p[j] == collapse(p)[i];
                assert(s[j] == collapse(s)[i]);
            } else {
                assert(s[s.len() - 1] == collapse(s)[i]);
            }
        }
    }
}

/// A sequence without repeats is its own simplified form.
pub proof fn lemma_collapse_fixed<T>(s: Seq<T>)
    requires
        no_repeats(s),
    ensures
        collapse(s) == s,
    decreases s.len(),
{
    if s.len() > 0 {
        if s.len() >= 2 {
            assert(!repeats_at(s, s.len() - 1));
        }
        assert(trailing_run(s) == 1);
        let p = s.take(s.len() - 1);
        assert forall|i: int| !#[trigger] repeats_at(p, i) by {
            assert(!repeats_at(s, i));
        }
        lemma_collapse_fixed(p);
        assert(collapse(s) =~= s);
    } else {
        assert(collapse(s) =~= s);
    }
}

/// The simplified form of a non-decreasing sequence ascends.
pub proof fn lemma_collapse_ascending<T: Ord + Clone>(s: Seq<T>)
    requires
        total_order::<T>(),
        non_decreasing(s),
    ensures
        ascending(collapse(s)),
    decreases s.len(),
{
    lemma_order_laws::<T>();
    if s.len() > 0 {
        lemma_trailing_run(s);
        let n = trailing_run(s) as int;
        let p = s.take(s.len() - n);
        assert forall|i: int| !#[trigger] descends_at(p, i) by {
            assert(!descends_at(s, i));
        }
        lemma_collapse_ascending(p);
        lemma_collapse_elements(p);
        let kept = collapse(s);
        assert forall|i: int, j: int| 0 <= i < j < kept.len() implies lt(
            #[trigger] kept[i],
            #[trigger] kept[j],
        ) by {
            assert(kept[i] == collapse(p)[i]);
            if j < collapse(p).len() {
                assert(kept[j] == collapse(p)[j]);
            } else {
                assert(kept[j] == s.last());
                assert(p.contains(collapse(p)[i]));
                let k = choose|k: int| 0 <= k < p.len() && p[k] == collapse(p)[i];
                lemma_non_decreasing_pairs(s, k, s.len() - n - 1);
                lemma_non_decreasing_pairs(s, s.len() - n - 1, s.len() - 1);
                lemma_trichotomy(s[s.len() - n - 1], s.last());
            }
        }
    }
}

/// Simplification leaves the parity of the number of elements at or below a
/// value as it was.
pub proof fn lemma_collapse_parity<T: Ord>(s: Seq<T>, v: T)
    ensures
        count_le(collapse(s), v) % 2 == count_le(s, v) % 2,
    decreases s.len(),
{
    if s.len() > 0 {
        lemma_trailing_run(s);
        let n = trailing_run(s) as int;
        let p = s.take(s.len() - n);
        lemma_collapse_parity(p, v);
        lemma_count_le_run(s, v, n);
        if n % 2 == 1 {
            lemma_count_le_push(collapse(p), s.last(), v);
        }
    }
}

/// Of a sequence that ends in `n` copies of one element, the count is that of
/// what precedes them, and `n` more if the element is at or below `v`.
pub proof fn lemma_count_le_run<T: Ord>(s: Seq<T>, v: T, n: int)
    requires
        0 <= n <= s.len(),
        forall|i: int| s.len() - n <= i < s.len() ==> #[trigger] s[i] == s.last(),
    ensures
        count_le(s, v) == count_le(s.take(s.len() - n), v) + if n > 0 && le(s.last(), v) {
            n
        } else {
            0
        },
    decreases n,
{
    if n == 0 {
        assert(s.take(s.len() - 0) =~= s);
    } else {
        let t = s.drop_last();
        if n > 1 {
            assert(t.last() == s[s.len() - 2]);
            assert forall|i: int| t.len() - (n - 1) <= i < t.len() implies #[trigger] t[i]
                == t.last() by {
                assert(t[i] == s[i]);
            }
        }
        lemma_count_le_run(t, v, n - 1);
        assert(t.take(t.len() - (n - 1)) =~= s.take(s.len() - n));
    }
}

} // verus!
