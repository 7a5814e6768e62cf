//! The mask itself: its representation, its queries and its simplification.

use crate::counting::{lemma_count_le_partition, lemma_non_decreasing_pairs};
use crate::enumeration::lemma_all_boundaries_push;
use crate::laws::lemma_simplify_canonical;
use crate::model::{all_boundaries, collapse, count_le, repeats_at, trailing_run, MaskView};
use crate::order::{duplicate, is_eq, is_le, le, lemma_order_laws, total_order};
use std::collections::BTreeSet;
use vstd::prelude::*;
use vstd::std_specs::cmp::PartialEqSpecImpl;

mod construct;
mod convert;
mod operations;
mod ops;

pub use convert::{get_first_falling_index, Error};

verus! {

/// A subset of an ordered domain, stored as the ascending list of values at
/// which membership flips.
///
/// The mask `[0, 2, 4]` with leading state `false` includes `[0, 2)` and
/// everything from `4` on; with leading state `true` it includes everything
/// below `0` and `[2, 4)`.
///
/// What the functions promise holds for element types that meet
/// [`total_order`]; for others they still run to their end, with a result of
/// which nothing is said.
#[derive(Debug)]
pub struct OrdMask<T: Ord + Clone> {
    key_points: Vec<T>,
    reversed: bool,
}

impl<T: Ord + Clone> View for OrdMask<T> {
    type V = MaskView<T>;

    closed spec fn view(&self) -> MaskView<T> {
        MaskView { boundaries: self.key_points@, leading: self.reversed }
    }
}

impl<T: Ord + Clone> PartialEq for OrdMask<T> {
    /// Masks are equal when they have the same boundaries and the same
    /// leading state.
    fn eq(&self, other: &Self) -> (r: bool) {
        proof {
            if total_order::<T>() {
                reveal(vstd::laws_eq::obeys_concrete_eq);
                let mine = self.key_points@;
                let theirs = other.key_points@;
                if mine.len() == theirs.len() && (forall|i: int|
                    0 <= i < mine.len() ==> mine[i] == theirs[i]) {
                    assert(mine =~= theirs);
                }
            }
        }
        self.key_points == other.key_points && self.reversed == other.reversed
    }
}

impl<T: Ord + Clone> PartialEqSpecImpl for OrdMask<T> {
    open spec fn obeys_eq_spec() -> bool {
        total_order::<T>()
    }

    open spec fn eq_spec(&self, other: &Self) -> bool {
        self@ == other@
    }
}

impl<T: Ord + Clone> Eq for OrdMask<T> {}

impl<T: Ord + Clone> Clone for OrdMask<T> {
    fn clone(&self) -> (r: Self)
        ensures
            total_order::<T>() ==> r@ == self@,
    {
        let copy = OrdMask { key_points: self.key_points.clone(), reversed: self.reversed };
        proof {
            if total_order::<T>() {
                assert(copy.key_points@ =~= self.key_points@);
            }
        }
        copy
    }
}

impl<T: Ord + Clone> OrdMask<T> {
    /// Whether the mask includes nothing at all.
    pub fn is_empty(&self) -> (r: bool)
        ensures
            r == (!self@.leading && self@.boundaries.len() == 0),
    {
        !self.reversed && self.key_points.is_empty()
    }

    /// Whether the mask includes every value.
    pub fn is_universal(&self) -> (r: bool)
        ensures
            r == (self@.leading && self@.boundaries.len() == 0),
    {
        self.key_points.is_empty() && self.reversed
    }

    /// Whether the boundaries are non-decreasing. They are, unless the mask
    /// was made by [`OrdMask::with_unchecked`] from a list that is not.
    pub fn is_valid(&self) -> (r: bool)
        ensures
            total_order::<T>() ==> r == self@.valid(),
    {
        proof {
            if total_order::<T>() {
                lemma_order_laws::<T>();
            }
        }
        get_first_falling_index(&self.key_points) == 0
    }

    /// The number of boundaries at or below `value`, found by bisection.
    fn partition_point(&self, value: &T) -> (p: usize)
        ensures
            p <= self@.boundaries.len(),
            total_order::<T>() && self@.valid() ==> p == count_le(self@.boundaries, *value),
    {
        let ghost lawful = total_order::<T>() && self@.valid();
        let mut low: usize = 0;
        let mut high: usize = self.key_points.len();
        while low < high
            invariant
                low <= high <= self.key_points@.len(),
                lawful == (total_order::<T>() && self@.valid()),
                lawful ==> forall|k: int|
                    0 <= k < low ==> le(#[trigger] self.key_points@[k], *value),
                lawful ==> forall|k: int|
                    high <= k < self.key_points@.len() ==> !le(
                        #[trigger] self.key_points@[k],
                        *value,
                    ),
            decreases high - low,
        {
            let middle = low + (high - low) / 2;
            if is_le(&self.key_points[middle], value) {
                proof {
                    if lawful {
                        lemma_order_laws::<T>();
                        assert forall|k: int| 0 <= k < middle + 1 implies le(
                            #[trigger] self.key_points@[k],
                            *value,
                        ) by {
                            lemma_non_decreasing_pairs(self.key_points@, k, middle as int);
                        }
                    }
                }
                low = middle + 1;
            } else {
                proof {
                    if lawful {
                        lemma_order_laws::<T>();
                        assert forall|k: int| middle <= k < self.key_points@.len() implies !le(
                            #[trigger] self.key_points@[k],
                            *value,
                        ) by {
                            lemma_non_decreasing_pairs(self.key_points@, middle as int, k);
                        }
                    }
                }
                high = middle;
            }
        }
        proof {
            if lawful {
                lemma_count_le_partition(self.key_points@, *value, low as int);
            }
        }
        low
    }

    /// Whether `value` belongs to the mask.
    pub fn included(&self, value: &T) -> (r: bool)
        ensures
            total_order::<T>() && self@.valid() ==> r == self@.included(*value),
    {
        self.reversed ^ (self.partition_point(value) % 2 == 1)
    }

    /// Whether `value` does not belong to the mask.
    pub fn excluded(&self, value: &T) -> (r: bool)
        ensures
            total_order::<T>() && self@.valid() ==> r == !self@.included(*value),
    {
        !self.included(value)
    }

    /// Whether the mask includes the values above its last boundary.
    pub fn is_include_max_value(&self) -> (r: bool)
        ensures
            r == (self@.leading != (self@.boundaries.len() % 2 == 1)),
    {
        self.reversed ^ (self.key_points.len() % 2 == 1)
    }

    /// Whether the mask includes the values below its first boundary.
    pub fn is_include_min_value(&self) -> (r: bool)
        ensures
            r == self@.leading,
    {
        self.reversed
    }

    /// Whether no two adjacent boundaries are equal.
    pub fn is_simplified(&self) -> (r: bool)
        ensures
            total_order::<T>() ==> r == self@.simplified(),
    {
        let len = self.key_points.len();
        let mut i: usize = 1;
        while i < len
            invariant
                len == self.key_points@.len(),
                1 <= i,
                total_order::<T>() ==> forall|k: int|
                    0 < k < i ==> !#[trigger] repeats_at(self.key_points@, k),
            decreases len - i,
        {
            if is_eq(&self.key_points[i], &self.key_points[i - 1]) {
                assert(total_order::<T>() ==> repeats_at(self.key_points@, i as int));
                return false;
            }
            i += 1;
        }
        true
    }

    /// Brings the boundaries into simplified form: of every run of equal
    /// boundaries one copy stays if the run has odd length, and none if it has
    /// even length. The leading state is unchanged.
    pub fn simplify(&mut self)
        ensures
            final(self)@.leading == old(self)@.leading,
            total_order::<T>() ==> final(self)@ == old(self)@.simplify(),
            total_order::<T>() && old(self)@.valid() ==> final(self)@.well_formed(),
    {
        let len = self.key_points.len();
        let ghost before = self.key_points@;
        let ghost lawful = total_order::<T>();
        proof {
            if lawful && self@.valid() {
                lemma_simplify_canonical(self@);
            }
        }
        if len < 2 {
            proof {
                assert(before.take(0) =~= Seq::<T>::empty());
                assert(collapse(before.take(0)) =~= Seq::<T>::empty());
                assert(collapse(before) =~= before);
            }
            return ;
        }
        let mut write_index: usize = 0;
        let mut read_index: usize = 0;
        while read_index < len
            invariant
                lawful == total_order::<T>(),
                len == before.len(),
                len == self.key_points@.len(),
                self.reversed == old(self).reversed,
                write_index <= read_index <= len,
                lawful ==> forall|k: int|
                    read_index <= k < len ==> self.key_points@[k] == before[k],
                lawful ==> self.key_points@.take(write_index as int) == collapse(
                    before.take(read_index as int),
                ),
                lawful && 0 < read_index < len ==> before[read_index - 1]
                    != before[read_index as int],
            decreases len - read_index,
        {
            let start = read_index;
            proof {
                if lawful {
                    let first = before.take(start + 1);
                    if start > 0 {
                        assert(first[first.len() - 2] == before[start - 1]);
                    }
                    assert(trailing_run(first) == 1);
                }
            }
            read_index += 1;
            while read_index < len && is_eq(&self.key_points[read_index], &self.key_points[start])
                invariant
                    lawful == total_order::<T>(),
                    len == before.len(),
                    len == self.key_points@.len(),
                    start < read_index <= len,
                    lawful ==> forall|k: int|
                        start <= k < len ==> self.key_points@[k] == before[k],
                    lawful ==> forall|k: int|
                        start <= k < read_index ==> before[k] == before[start as int],
                    lawful ==> trailing_run(before.take(read_index as int)) == read_index - start,
                decreases len - read_index,
            {
                proof {
                    if lawful {
                        let shorter = before.take(read_index as int);
                        let longer = before.take(read_index + 1);
                        assert(longer.drop_last() =~= shorter);
                        assert(longer[longer.len() - 2] == before[read_index - 1]);
                    }
                }
                read_index += 1;
            }
            proof {
                if lawful {
                    let prefix = before.take(read_index as int);
                    assert(prefix.take(prefix.len() - trailing_run(prefix)) =~= before.take(
                        start as int,
                    ));
                    assert(prefix.last() == before[start as int]);
                }
            }
            if (read_index - start) % 2 == 1 {
                let kept = duplicate(&self.key_points[start]);
                self.key_points[write_index] = kept;
                proof {
                    if lawful {
                        assert(self.key_points@.take(write_index + 1) =~= collapse(
                            before.take(start as int),
                        ).push(before[start as int]));
                    }
                }
                write_index += 1;
            } else {
                proof {
                    if lawful {
                        assert(self.key_points@.take(write_index as int) =~= collapse(
                            before.take(start as int),
                        ));
                    }
                }
            }
        }
        self.key_points.truncate(write_index);
        proof {
            if lawful {
                assert(before.take(len as int) =~= before);
                assert(self.key_points@ =~= collapse(before));
            }
        }
    }

    /// The boundaries, in the order in which they are stored.
    pub fn key_points(&self) -> (r: &Vec<T>)
        ensures
            r@ == self@.boundaries,
    {
        &self.key_points
    }

    /// Adds the boundaries of the mask to the set.
    pub(crate) fn insert_key_points(&self, set: &mut BTreeSet<T>)
        ensures
            total_order::<T>() ==> final(set)@ == old(set)@.union(self@.boundaries.to_set()),
    {
        let ghost lawful = total_order::<T>();
        let len = self.key_points.len();
        let mut j: usize = 0;
        proof {
            assert(self.key_points@.take(0).to_set() =~= Set::<T>::empty());
            assert(set@ =~= old(set)@.union(self.key_points@.take(0).to_set()));
        }
        while j < len
            invariant
                lawful == total_order::<T>(),
                len == self.key_points@.len(),
                j <= len,
                lawful ==> set@ == old(set)@.union(self.key_points@.take(j as int).to_set()),
            decreases len - j,
        {
            set.insert(duplicate(&self.key_points[j]));
            proof {
                if lawful {
                    let shorter = self.key_points@.take(j as int);
                    let longer = self.key_points@.take(j + 1);
                    assert(longer =~= shorter.push(self.key_points@[j as int]));
                    shorter.lemma_push_to_set_commute(self.key_points@[j as int]);
                    assert(set@ =~= old(set)@.union(longer.to_set()));
                }
            }
            j += 1;
        }
        proof {
            assert(self.key_points@.take(len as int) =~= self.key_points@);
        }
    }

    /// The set of all boundaries of the masks.
    pub fn get_key_points_set(masks: &[&OrdMask<T>]) -> (r: BTreeSet<T>)
        ensures
            total_order::<T>() ==> r@ == all_boundaries(views(masks@)),
    {
        let ghost lawful = total_order::<T>();
        let mut result: BTreeSet<T> = BTreeSet::new();
        let count = masks.len();
        let mut i: usize = 0;
        proof {
            assert(all_boundaries(views(masks@).take(0)) =~= Set::<T>::empty());
        }
        while i < count
            invariant
                lawful == total_order::<T>(),
                count == masks@.len(),
                i <= count,
                lawful ==> result@ == all_boundaries(views(masks@).take(i as int)),
            decreases count - i,
        {
            masks[i].insert_key_points(&mut result);
            proof {
                if lawful {
                    lemma_all_boundaries_push(views(masks@).take(i as int), masks@[i as int]@);
                    assert(views(masks@).take(i + 1) =~= views(masks@).take(i as int).push(
                        masks@[i as int]@,
                    ));
                }
            }
            i += 1;
        }
        proof {
            assert(views(masks@).take(count as int) =~= views(masks@));
        }
        result
    }
}

/// The views of the masks, in their order.
pub open spec fn views<T: Ord + Clone>(masks: Seq<&OrdMask<T>>) -> Seq<MaskView<T>> {
    Seq::new(masks.len(), |i: int| masks[i]@)
}

} // verus!
