//! The constructors.

use crate::counting::lemma_ascending_iff;
use crate::enumeration::lemma_ascending_order;
use crate::model::{answers, ascending, marks_of, rebuild, state_before, toggled_by, toggles};
use crate::model::MaskView;
use crate::order::{duplicate, is_lt, lemma_increasing_keys, lemma_increasing_owned};
use crate::order::{lemma_order_laws, lt, total_order};
use crate::ordmask::OrdMask;
use crate::toggling::lemma_toggles_ascending;
use std::collections::{BTreeMap, BTreeSet};
use vstd::prelude::*;
use vstd::std_specs::btree::{spec_btree_keys_iter, spec_btree_map_iter};
use vstd::std_specs::iter::IteratorSpec;

verus! {

/// Takes the next item of an iterator.
pub(crate) fn advance<I: Iterator>(iter: &mut I) -> (r: Option<I::Item>)
    ensures
        (*final(iter)).obeys_prophetic_iter_laws() == (*old(iter)).obeys_prophetic_iter_laws(),
        (*old(iter)).obeys_prophetic_iter_laws() ==> if (*old(iter)).remaining().len() > 0 {
            (*final(iter)).remaining() == (*old(iter)).remaining().drop_first() && r == Some(
                (*old(iter)).remaining()[0],
            )
        } else {
            (*final(iter)).remaining() == (*old(iter)).remaining() && r is None
        },
{
    iter.next()
}

impl<T: Ord + Clone> OrdMask<T> {
    pub(crate) fn new(key_points: Vec<T>, reversed: bool) -> (r: Self)
        ensures
            r@ == (MaskView { boundaries: key_points@, leading: reversed }),
    {
        OrdMask { key_points, reversed }
    }

    /// The mask that includes nothing.
    pub fn empty() -> (r: Self)
        ensures
            r@ == (MaskView { boundaries: Seq::<T>::empty(), leading: false }),
            r@.well_formed(),
    {
        Self::new(Vec::new(), false)
    }

    /// The mask that includes everything.
    pub fn universal() -> (r: Self)
        ensures
            r@ == (MaskView { boundaries: Seq::<T>::empty(), leading: true }),
            r@.well_formed(),
    {
        Self::new(Vec::new(), true)
    }

    /// The mask that includes `value` and everything above it.
    pub fn not_less_than(value: T) -> (r: Self)
        ensures
            r@ == (MaskView { boundaries: seq![value], leading: false }),
            r@.well_formed(),
    {
        Self::new(vec![value], false)
    }

    /// The mask that includes everything below `value`.
    pub fn less_than(value: T) -> (r: Self)
        ensures
            r@ == (MaskView { boundaries: seq![value], leading: true }),
            r@.well_formed(),
    {
        Self::new(vec![value], true)
    }

    /// The mask that includes the values from `start` up to, but not
    /// including, `end`; nothing if `start` is not below `end`.
    pub fn in_range(start: T, end: T) -> (r: Self)
        ensures
            total_order::<T>() ==> r@ == (MaskView {
                boundaries: if lt(start, end) {
                    seq![start, end]
                } else {
                    Seq::empty()
                },
                leading: false,
            }),
            total_order::<T>() ==> r@.well_formed(),
    {
        proof {
            if total_order::<T>() {
                lemma_order_laws::<T>();
                lemma_ascending_iff(seq![start, end]);
            }
        }
        if is_lt(&start, &end) {
            Self::new(vec![start, end], false)
        } else {
            Self::empty()
        }
    }

    /// The mask that excludes the values from `start` up to, but not
    /// including, `end`; it excludes nothing if `start` is not below `end`.
    pub fn exclude_range(start: T, end: T) -> (r: Self)
        ensures
            total_order::<T>() ==> r@ == (MaskView {
                boundaries: if lt(start, end) {
                    seq![start, end]
                } else {
                    Seq::empty()
                },
                leading: true,
            }),
            total_order::<T>() ==> r@.well_formed(),
    {
        proof {
            if total_order::<T>() {
                lemma_order_laws::<T>();
                lemma_ascending_iff(seq![start, end]);
            }
        }
        if is_lt(&start, &end) {
            Self::new(vec![start, end], true)
        } else {
            Self::universal()
        }
    }

    /// The mask whose state from each key point up to the next is what
    /// `is_included` answers for that key point, and whose state below the
    /// first key point is `include_min_value`. Of the key points those become
    /// boundaries at which the state changes.
    ///
    /// `is_included` must accept every key point.
    pub fn from_key_points_set(
        key_points: BTreeSet<T>,
        is_included: impl Fn(&T) -> bool,
        include_min_value: bool,
    ) -> (r: Self)
        requires
            forall|x: &T|
                key_points@.contains(*x) || !total_order::<T>() ==> #[trigger] call_requires(
                    is_included,
                    (x,),
                ),
        ensures
            r@.leading == include_min_value,
            total_order::<T>() ==> r@.well_formed(),
            total_order::<T>() ==> toggled_by(key_points@, is_included, include_min_value, r@),
    {
        let ghost lawful = total_order::<T>();
        let ghost all = spec_btree_keys_iter(&key_points).remaining();
        let ghost mut marks: Seq<bool> = Seq::empty();
        let count = key_points.len();
        let mut mask: Vec<T> = Vec::with_capacity(count);
        let mut points = key_points.iter();
        proof {
            if lawful {
                lemma_increasing_keys(all);
                assert(toggles(all.unref().take(0), marks, include_min_value) =~= Seq::<
                    T,
                >::empty());
            }
        }
        let mut done: usize = 0;
        while done < count
            invariant
                lawful == total_order::<T>(),
                done <= count,
                points.obeys_prophetic_iter_laws(),
                forall|x: &T|
                    key_points@.contains(*x) || !lawful ==> #[trigger] call_requires(
                        is_included,
                        (x,),
                    ),
                lawful ==> {
                    &&& all.len() == count
                    &&& all.unref().to_set() == key_points@
                    &&& points.remaining() == all.skip(done as int)
                    &&& marks.len() == done
                    &&& forall|i: int|
                        0 <= i < done ==> call_ensures(is_included, (all[i],), #[trigger] marks[i])
                    &&& mask@ == toggles(all.unref().take(done as int), marks, include_min_value)
                    &&& state_before(marks, include_min_value, done as int) == (include_min_value
                        != (mask@.len() % 2 == 1))
                },
            decreases count - done,
        {
            if let Some(point) = advance(&mut points) {
                proof {
                    if lawful {
                        assert(point == all[done as int]);
                        assert(all.unref()[done as int] == *point);
                        assert(all.unref().to_set().contains(*point));
                    }
                }
                let included = is_included(point);
                proof {
                    if lawful {
                        let before = all.unref().take(done as int);
                        let after = all.unref().take(done + 1);
                        assert(after.drop_last() =~= before);
                        assert(marks.push(included).drop_last() =~= marks);
                        marks = marks.push(included);
                        assert(all.skip(done as int).drop_first() =~= all.skip(done + 1));
                    }
                }
                if (included == (mask.len() % 2 == 0)) ^ include_min_value {
                    mask.push(duplicate(point));
                }
            }
            done += 1;
        }
        proof {
            if lawful {
                let sorted = all.unref();
                assert(sorted.take(count as int) =~= sorted);
                assert(ascending(sorted));
                lemma_toggles_ascending(sorted, marks, include_min_value);
                lemma_ascending_iff(toggles(sorted, marks, include_min_value));
                lemma_ascending_order(sorted);
                assert forall|i: int| 0 <= i < sorted.len() implies call_ensures(
                    is_included,
                    (&sorted[i],),
                    #[trigger] marks[i],
                ) by {
                    assert(sorted[i] == *all[i]);
                }
                assert(answers(is_included, sorted, marks));
            }
        }
        Self::new(mask, include_min_value)
    }

    /// The mask whose state from each key of the map up to the next is the
    /// value that the map gives to the key, and whose state below the first
    /// key is `include_min_value`. Of the keys those become boundaries at
    /// which the state changes.
    pub fn from_key_points_map(map: BTreeMap<T, bool>, include_min_value: bool) -> (r: Self)
        ensures
            r@.leading == include_min_value,
            total_order::<T>() ==> r@.well_formed(),
            total_order::<T>() ==> r@ == rebuild(map@.dom(), |k: T| map@[k], include_min_value),
    {
        let ghost lawful = total_order::<T>();
        let ghost all = spec_btree_map_iter(&map).remaining();
        let ghost sorted = Seq::new(all.len(), |i: int| *all[i].0);
        let ghost marks = marks_of(sorted, |k: T| map@[k]);
        let count = map.len();
        let mut mask: Vec<T> = Vec::with_capacity(count);
        let mut entries = map.iter();
        proof {
            if lawful {
                let keys = entries.remaining().map_values(|kv: (&T, &bool)| *kv.0);
                assert(keys =~= sorted);
                lemma_increasing_owned(sorted);
                assert(sorted.to_set() =~= map@.dom()) by {
                    assert forall|k: T| map@.dom().contains(k) implies sorted.to_set().contains(
                        k,
                    ) by {
                        assert(all.contains((&k, &map@[k])));
                        let i = choose|i: int| 0 <= i < all.len() && all[i] == (&k, &map@[k]);
                        assert(sorted[i] == k);
                    }
                    assert forall|k: T| sorted.to_set().contains(k) implies map@.dom().contains(
                        k,
                    ) by {
                        let i = choose|i: int| 0 <= i < sorted.len() && sorted[i] == k;
                        assert(map@.contains_key(*all[i].0));
                    }
                }
                assert(toggles(sorted.take(0), marks.take(0), include_min_value) =~= Seq::<
                    T,
                >::empty());
            }
        }
        let mut done: usize = 0;
        while done < count
            invariant
                lawful == total_order::<T>(),
                done <= count,
                entries.obeys_prophetic_iter_laws(),
                sorted == Seq::new(all.len(), |i: int| *all[i].0),
                marks == marks_of(sorted, |k: T| map@[k]),
                lawful ==> {
                    &&& all.len() == count
                    &&& forall|i: int|
                        0 <= i < all.len() ==> map@[*all[i].0] == *(#[trigger] all[i]).1
                    &&& entries.remaining() == all.skip(done as int)
                    &&& mask@ == toggles(
                        sorted.take(done as int),
                        marks.take(done as int),
                        include_min_value,
                    )
                    &&& state_before(marks, include_min_value, done as int) == (include_min_value
                        != (mask@.len() % 2 == 1))
                },
            decreases count - done,
        {
            if let Some((point, is_included)) = advance(&mut entries) {
                proof {
                    if lawful {
                        assert((point, is_included) == all[done as int]);
                        assert(sorted[done as int] == *point);
                        assert(marks[done as int] == *is_included);
                        assert(sorted.take(done + 1).drop_last() =~= sorted.take(done as int));
                        assert(marks.take(done + 1).drop_last() =~= marks.take(done as int));
                        assert(all.skip(done as int).drop_first() =~= all.skip(done + 1));
                        assert(state_before(marks.take(done + 1), include_min_value, done as int)
                            == state_before(marks, include_min_value, done as int));
                    }
                }
                if (*is_included == (mask.len() % 2 == 0)) ^ include_min_value {
                    mask.push(duplicate(point));
                }
            }
            done += 1;
        }
        proof {
            if lawful {
                assert(sorted.take(count as int) =~= sorted);
                assert(marks.take(count as int) =~= marks);
                lemma_toggles_ascending(sorted, marks, include_min_value);
                lemma_ascending_iff(toggles(sorted, marks, include_min_value));
                lemma_ascending_order(sorted);
            }
        }
        Self::new(mask, include_min_value)
    }
}

} // verus!
