//! The set operations.

use crate::laws::{lemma_difference_of, lemma_intersection_of, lemma_symmetric_difference_of};
use crate::laws::lemma_union_of;
use crate::model::{all_included, all_leading, all_valid, any_included, any_leading};
use crate::model::{difference_of, intersection_of, symmetric_difference_of, union_of};
use crate::order::total_order;
use crate::ordmask::{views, OrdMask};
use crate::toggling::lemma_toggled_by_marks;
use std::collections::BTreeSet;
use vstd::prelude::*;

verus! {

/// Whether at least one of the masks includes `value`.
fn includes_any<T: Ord + Clone>(masks: &[&OrdMask<T>], value: &T) -> (r: bool)
    ensures
        total_order::<T>() && all_valid(views(masks@)) ==> r == any_included(
            views(masks@),
            *value,
        ),
{
    let ghost lawful = total_order::<T>() && all_valid(views(masks@));
    let mut i: usize = 0;
    while i < masks.len()
        invariant
            i <= masks@.len(),
            lawful == (total_order::<T>() && all_valid(views(masks@))),
            lawful ==> forall|k: int|
                0 <= k < i ==> !(#[trigger] views(masks@)[k]).included(*value),
        decreases masks@.len() - i,
    {
        assert(lawful ==> views(masks@)[i as int].valid());
        if masks[i].included(value) {
            assert(lawful ==> views(masks@)[i as int].included(*value));
            return true;
        }
        i += 1;
    }
    false
}

/// Whether every one of the masks includes `value`.
fn includes_all<T: Ord + Clone>(masks: &[&OrdMask<T>], value: &T) -> (r: bool)
    ensures
        total_order::<T>() && all_valid(views(masks@)) ==> r == all_included(
            views(masks@),
            *value,
        ),
{
    let ghost lawful = total_order::<T>() && all_valid(views(masks@));
    let mut i: usize = 0;
    while i < masks.len()
        invariant
            i <= masks@.len(),
            lawful == (total_order::<T>() && all_valid(views(masks@))),
            lawful ==> forall|k: int|
                0 <= k < i ==> (#[trigger] views(masks@)[k]).included(*value),
        decreases masks@.len() - i,
    {
        assert(lawful ==> views(masks@)[i as int].valid());
        if !masks[i].included(value) {
            assert(lawful ==> !views(masks@)[i as int].included(*value));
            return false;
        }
        i += 1;
    }
    true
}

/// Whether at least one of the masks has leading state `true`.
fn leads_any<T: Ord + Clone>(masks: &[&OrdMask<T>]) -> (r: bool)
    ensures
        r == any_leading(views(masks@)),
{
    let mut i: usize = 0;
    while i < masks.len()
        invariant
            i <= masks@.len(),
            forall|k: int| 0 <= k < i ==> !(#[trigger] views(masks@)[k]).leading,
        decreases masks@.len() - i,
    {
        if masks[i].is_include_min_value() {
            assert(views(masks@)[i as int].leading);
            return true;
        }
        i += 1;
    }
    false
}

/// Whether every one of the masks has leading state `true`.
fn leads_all<T: Ord + Clone>(masks: &[&OrdMask<T>]) -> (r: bool)
    ensures
        r == all_leading(views(masks@)),
{
    let mut i: usize = 0;
    while i < masks.len()
        invariant
            i <= masks@.len(),
            forall|k: int| 0 <= k < i ==> (#[trigger] views(masks@)[k]).leading,
        decreases masks@.len() - i,
    {
        if !masks[i].is_include_min_value() {
            assert(!views(masks@)[i as int].leading);
            return false;
        }
        i += 1;
    }
    true
}

impl<T: Ord + Clone> OrdMask<T> {
    /// The union of the masks: it includes what at least one of them
    /// includes. The union of no masks is empty.
    pub fn union(masks: &[&OrdMask<T>]) -> (r: Self)
        ensures
            r@.leading == any_leading(views(masks@)),
            total_order::<T>() ==> r@.well_formed(),
            total_order::<T>() && all_valid(views(masks@)) ==> r@ == union_of(views(masks@)),
            total_order::<T>() && all_valid(views(masks@)) ==> forall|v: T| #[trigger]
                r@.included(v) == any_included(views(masks@), v),
    {
        let ghost inputs = views(masks@);
        let ghost lawful = total_order::<T>() && all_valid(inputs);
        let points = Self::get_key_points_set(masks);
        let leading = leads_any(masks);
        let is_included = |x: &T| -> (b: bool)
            ensures
                total_order::<T>() && all_valid(views(masks@)) ==> b == any_included(
                    views(masks@),
                    *x,
                ),
            { includes_any(masks, x) };
        let ghost candidates = points@;
        let result = Self::from_key_points_set(points, is_included, leading);
        proof {
            if lawful {
                lemma_toggled_by_marks(
                    candidates,
                    is_included,
                    |v: T| any_included(inputs, v),
                    leading,
                    result@,
                );
                lemma_union_of(inputs);
            }
        }
        result
    }

    /// The intersection of the masks: it includes what every one of them
    /// includes. The intersection of no masks is universal.
    pub fn intersection(masks: &[&OrdMask<T>]) -> (r: Self)
        ensures
            r@.leading == all_leading(views(masks@)),
            total_order::<T>() ==> r@.well_formed(),
            total_order::<T>() && all_valid(views(masks@)) ==> r@ == intersection_of(
                views(masks@),
            ),
            total_order::<T>() && all_valid(views(masks@)) ==> forall|v: T| #[trigger]
                r@.included(v) == all_included(views(masks@), v),
    {
        let ghost inputs = views(masks@);
        let ghost lawful = total_order::<T>() && all_valid(inputs);
        let points = Self::get_key_points_set(masks);
        let leading = leads_all(masks);
        let is_included = |x: &T| -> (b: bool)
            ensures
                total_order::<T>() && all_valid(views(masks@)) ==> b == all_included(
                    views(masks@),
                    *x,
                ),
            { includes_all(masks, x) };
        let ghost candidates = points@;
        let result = Self::from_key_points_set(points, is_included, leading);
        proof {
            if lawful {
                lemma_toggled_by_marks(
                    candidates,
                    is_included,
                    |v: T| all_included(inputs, v),
                    leading,
                    result@,
                );
                lemma_intersection_of(inputs);
            }
        }
        result
    }

    /// The difference of the mask and the others: it includes what the mask
    /// includes and none of the others does.
    pub fn minus(&self, others: &[&OrdMask<T>]) -> (r: Self)
        ensures
            r@.leading == (self@.leading && !any_leading(views(others@))),
            total_order::<T>() ==> r@.well_formed(),
            total_order::<T>() && self@.valid() && all_valid(views(others@)) ==> r@
                == difference_of(self@, views(others@)),
            total_order::<T>() && self@.valid() && all_valid(views(others@)) ==> forall|v: T|
                #[trigger] r@.included(v) == (self@.included(v) && !any_included(
                    views(others@),
                    v,
                )),
    {
        let ghost inputs = views(others@);
        let ghost lawful = total_order::<T>() && self@.valid() && all_valid(inputs);
        let mut points = Self::get_key_points_set(others);
        self.insert_key_points(&mut points);
        let leading = self.is_include_min_value() && !leads_any(others);
        let is_included = |x: &T| -> (b: bool)
            ensures
                total_order::<T>() && self@.valid() && all_valid(views(others@)) ==> b == (
                self@.included(*x) && !any_included(views(others@), *x)),
            { self.included(x) && !includes_any(others, x) };
        let ghost candidates = points@;
        let result = Self::from_key_points_set(points, is_included, leading);
        proof {
            if lawful {
                lemma_toggled_by_marks(
                    candidates,
                    is_included,
                    |v: T| self@.included(v) && !any_included(inputs, v),
                    leading,
                    result@,
                );
                lemma_difference_of(self@, inputs);
            }
        }
        result
    }

    /// The symmetric difference of the two masks: it includes what exactly
    /// one of them includes.
    pub fn symmetric_difference(&self, other: &Self) -> (r: Self)
        ensures
            r@.leading == (self@.leading != other@.leading),
            total_order::<T>() ==> r@.well_formed(),
            total_order::<T>() && self@.valid() && other@.valid() ==> r@
                == symmetric_difference_of(self@, other@),
            total_order::<T>() && self@.valid() && other@.valid() ==> forall|v: T| #[trigger]
                r@.included(v) == (self@.included(v) != other@.included(v)),
    {
        let ghost lawful = total_order::<T>() && self@.valid() && other@.valid();
        let mut points: BTreeSet<T> = BTreeSet::new();
        self.insert_key_points(&mut points);
        other.insert_key_points(&mut points);
        let leading = self.is_include_min_value() ^ other.is_include_min_value();
        let is_included = |x: &T| -> (b: bool)
            ensures
                total_order::<T>() && self@.valid() && other@.valid() ==> b == (self@.included(*x)
                    != other@.included(*x)),
            { self.included(x) != other.included(x) };
        let ghost candidates = points@;
        let result = Self::from_key_points_set(points, is_included, leading);
        proof {
            if lawful {
                assert(candidates =~= self@.boundaries.to_set().union(other@.boundaries.to_set()));
                lemma_toggled_by_marks(
                    candidates,
                    is_included,
                    |v: T| self@.included(v) != other@.included(v),
                    leading,
                    result@,
                );
                lemma_symmetric_difference_of(self@, other@);
            }
        }
        result
    }

    /// The complement: the mask with the same boundaries and the opposite
    /// leading state, which includes exactly what this one excludes.
    pub fn complement(self) -> (r: Self)
        ensures
            r@ == self@.complement(),
    {
        OrdMask { key_points: self.key_points, reversed: !self.reversed }
    }

    /// The complement, made without consuming the mask.
    pub fn new_complement(&self) -> (r: Self)
        ensures
            total_order::<T>() ==> r@ == self@.complement(),
    {
        let result = OrdMask { key_points: self.key_points.clone(), reversed: !self.reversed };
        proof {
            if total_order::<T>() {
                assert(result.key_points@ =~= self.key_points@);
            }
        }
        result
    }

    /// Turns the mask into its complement.
    pub fn reverse(&mut self)
        ensures
            final(self)@ == old(self)@.complement(),
    {
        self.reversed = !self.reversed;
    }
}

} // verus!
