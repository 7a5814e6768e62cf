//! The operators `|`, `&`, `^`, `-` and `!` for masks, owned or borrowed.
//!
//! Each operator is the set operation of the same meaning and promises, in
//! the `ensures` of its method, what that operation promises. The result of
//! an operator is a new mask, of which no equation between masks could speak:
//! so the `*_spec` functions that vstd attaches to the operator traits are
//! left without a meaning here.

use crate::model::{difference_of, intersection_of, symmetric_difference_of, union_of};
use crate::order::total_order;
use crate::ordmask::{views, OrdMask};
use core::ops::{BitAnd, BitOr, BitXor, Not, Sub};
use vstd::prelude::*;
use vstd::std_specs::ops::{BitAndSpecImpl, BitOrSpecImpl, BitXorSpecImpl, NotSpecImpl};
use vstd::std_specs::ops::SubSpecImpl;

verus! {

impl<T: Ord + Clone> BitOr<OrdMask<T>> for OrdMask<T> {
    type Output = OrdMask<T>;

    /// The union of the two masks.
    fn bitor(self, rhs: OrdMask<T>) -> (r: OrdMask<T>)
        ensures
            total_order::<T>() ==> r@.well_formed(),
            total_order::<T>() && self@.valid() && rhs@.valid() ==> r@ == union_of(
                seq![self@, rhs@],
            ),
    {
        let pair = [&self, &rhs];
        proof {
            assert(views(pair@) =~= seq![self@, rhs@]);
        }
        OrdMask::union(&pair)
    }
}

impl<T: Ord + Clone> BitOrSpecImpl<OrdMask<T>> for OrdMask<T> {
    open spec fn obeys_bitor_spec() -> bool {
        false
    }

    open spec fn bitor_req(self, rhs: OrdMask<T>) -> bool {
        true
    }

    open spec fn bitor_spec(self, rhs: OrdMask<T>) -> OrdMask<T> {
        arbitrary()
    }
}

impl<T: Ord + Clone> BitOr<&OrdMask<T>> for OrdMask<T> {
    type Output = OrdMask<T>;

    /// The union of the two masks.
    fn bitor(self, rhs: &OrdMask<T>) -> (r: OrdMask<T>)
        ensures
            total_order::<T>() ==> r@.well_formed(),
            total_order::<T>() && self@.valid() && rhs@.valid() ==> r@ == union_of(
                seq![self@, rhs@],
            ),
    {
        let pair = [&self, rhs];
        proof {
            assert(views(pair@) =~= seq![self@, rhs@]);
        }
        OrdMask::union(&pair)
    }
}

impl<T: Ord + Clone> BitOrSpecImpl<&OrdMask<T>> for OrdMask<T> {
    open spec fn obeys_bitor_spec() -> bool {
        false
    }

    open spec fn bitor_req(self, rhs: &OrdMask<T>) -> bool {
        true
    }

    open spec fn bitor_spec(self, rhs: &OrdMask<T>) -> OrdMask<T> {
        arbitrary()
    }
}

impl<T: Ord + Clone> BitOr<OrdMask<T>> for &OrdMask<T> {
    type Output = OrdMask<T>;

    /// The union of the two masks.
    fn bitor(self, rhs: OrdMask<T>) -> (r: OrdMask<T>)
        ensures
            total_order::<T>() ==> r@.well_formed(),
            total_order::<T>() && self@.valid() && rhs@.valid() ==> r@ == union_of(
                seq![self@, rhs@],
            ),
    {
        let pair = [self, &rhs];
        proof {
            assert(views(pair@) =~= seq![self@, rhs@]);
        }
        OrdMask::union(&pair)
    }
}

impl<T: Ord + Clone> BitOrSpecImpl<OrdMask<T>> for &OrdMask<T> {
    open spec fn obeys_bitor_spec() -> bool {
        false
    }

    open spec fn bitor_req(self, rhs: OrdMask<T>) -> bool {
        true
    }

    open spec fn bitor_spec(self, rhs: OrdMask<T>) -> OrdMask<T> {
        arbitrary()
    }
}

impl<T: Ord + Clone> BitOr<&OrdMask<T>> for &OrdMask<T> {
    type Output = OrdMask<T>;

    /// The union of the two masks.
    fn bitor(self, rhs: &OrdMask<T>) -> (r: OrdMask<T>)
        ensures
            total_order::<T>() ==> r@.well_formed(),
            total_order::<T>() && self@.valid() && rhs@.valid() ==> r@ == union_of(
                seq![self@, rhs@],
            ),
    {
        let pair = [self, rhs];
        proof {
            assert(views(pair@) =~= seq![self@, rhs@]);
        }
        OrdMask::union(&pair)
    }
}

impl<T: Ord + Clone> BitOrSpecImpl<&OrdMask<T>> for &OrdMask<T> {
    open spec fn obeys_bitor_spec() -> bool {
        false
    }

    open spec fn bitor_req(self, rhs: &OrdMask<T>) -> bool {
        true
    }

    open spec fn bitor_spec(self, rhs: &OrdMask<T>) -> OrdMask<T> {
        arbitrary()
    }
}

impl<T: Ord + Clone> BitAnd<OrdMask<T>> for OrdMask<T> {
    type Output = OrdMask<T>;

    /// The intersection of the two masks.
    fn bitand(self, rhs: OrdMask<T>) -> (r: OrdMask<T>)
        ensures
            total_order::<T>() ==> r@.well_formed(),
            total_order::<T>() && self@.valid() && rhs@.valid() ==> r@ == intersection_of(
                seq![self@, rhs@],
            ),
    {
        let pair = [&self, &rhs];
        proof {
            assert(views(pair@) =~= seq![self@, rhs@]);
        }
        OrdMask::intersection(&pair)
    }
}

impl<T: Ord + Clone> BitAndSpecImpl<OrdMask<T>> for OrdMask<T> {
    open spec fn obeys_bitand_spec() -> bool {
        false
    }

    open spec fn bitand_req(self, rhs: OrdMask<T>) -> bool {
        true
    }

    open spec fn bitand_spec(self, rhs: OrdMask<T>) -> OrdMask<T> {
        arbitrary()
    }
}

impl<T: Ord + Clone> BitAnd<&OrdMask<T>> for OrdMask<T> {
    type Output = OrdMask<T>;

    /// The intersection of the two masks.
    fn bitand(self, rhs: &OrdMask<T>) -> (r: OrdMask<T>)
        ensures
            total_order::<T>() ==> r@.well_formed(),
            total_order::<T>() && self@.valid() && rhs@.valid() ==> r@ == intersection_of(
                seq![self@, rhs@],
            ),
    {
        let pair = [&self, rhs];
        proof {
            assert(views(pair@) =~= seq![self@, rhs@]);
        }
        OrdMask::intersection(&pair)
    }
}

impl<T: Ord + Clone> BitAndSpecImpl<&OrdMask<T>> for OrdMask<T> {
    open spec fn obeys_bitand_spec() -> bool {
        false
    }

    open spec fn bitand_req(self, rhs: &OrdMask<T>) -> bool {
        true
    }

    open spec fn bitand_spec(self, rhs: &OrdMask<T>) -> OrdMask<T> {
        arbitrary()
    }
}

impl<T: Ord + Clone> BitAnd<OrdMask<T>> for &OrdMask<T> {
    type Output = OrdMask<T>;

    /// The intersection of the two masks.
    fn bitand(self, rhs: OrdMask<T>) -> (r: OrdMask<T>)
        ensures
            total_order::<T>() ==> r@.well_formed(),
            total_order::<T>() && self@.valid() && rhs@.valid() ==> r@ == intersection_of(
                seq![self@, rhs@],
            ),
    {
        let pair = [self, &rhs];
        proof {
            assert(views(pair@) =~= seq![self@, rhs@]);
        }
        OrdMask::intersection(&pair)
    }
}

impl<T: Ord + Clone> BitAndSpecImpl<OrdMask<T>> for &OrdMask<T> {
    open spec fn obeys_bitand_spec() -> bool {
        false
    }

    open spec fn bitand_req(self, rhs: OrdMask<T>) -> bool {
        true
    }

    open spec fn bitand_spec(self, rhs: OrdMask<T>) -> OrdMask<T> {
        arbitrary()
    }
}

impl<T: Ord + Clone> BitAnd<&OrdMask<T>> for &OrdMask<T> {
    type Output = OrdMask<T>;

    /// The intersection of the two masks.
    fn bitand(self, rhs: &OrdMask<T>) -> (r: OrdMask<T>)
        ensures
            total_order::<T>() ==> r@.well_formed(),
            total_order::<T>() && self@.valid() && rhs@.valid() ==> r@ == intersection_of(
                seq![self@, rhs@],
            ),
    {
        let pair = [self, rhs];
        proof {
            assert(views(pair@) =~= seq![self@, rhs@]);
        }
        OrdMask::intersection(&pair)
    }
}

impl<T: Ord + Clone> BitAndSpecImpl<&OrdMask<T>> for &OrdMask<T> {
    open spec fn obeys_bitand_spec() -> bool {
        false
    }

    open spec fn bitand_req(self, rhs: &OrdMask<T>) -> bool {
        true
    }

    open spec fn bitand_spec(self, rhs: &OrdMask<T>) -> OrdMask<T> {
        arbitrary()
    }
}

impl<T: Ord + Clone> BitXor<OrdMask<T>> for OrdMask<T> {
    type Output = OrdMask<T>;

    /// The symmetric difference of the two masks.
    fn bitxor(self, rhs: OrdMask<T>) -> (r: OrdMask<T>)
        ensures
            total_order::<T>() ==> r@.well_formed(),
            total_order::<T>() && self@.valid() && rhs@.valid() ==> r@ == symmetric_difference_of(
                self@,
                rhs@,
            ),
    {
        self.symmetric_difference(&rhs)
    }
}

impl<T: Ord + Clone> BitXorSpecImpl<OrdMask<T>> for OrdMask<T> {
    open spec fn obeys_bitxor_spec() -> bool {
        false
    }

    open spec fn bitxor_req(self, rhs: OrdMask<T>) -> bool {
        true
    }

    open spec fn bitxor_spec(self, rhs: OrdMask<T>) -> OrdMask<T> {
        arbitrary()
    }
}

impl<T: Ord + Clone> BitXor<&OrdMask<T>> for OrdMask<T> {
    type Output = OrdMask<T>;

    /// The symmetric difference of the two masks.
    fn bitxor(self, rhs: &OrdMask<T>) -> (r: OrdMask<T>)
        ensures
            total_order::<T>() ==> r@.well_formed(),
            total_order::<T>() && self@.valid() && rhs@.valid() ==> r@ == symmetric_difference_of(
                self@,
                rhs@,
            ),
    {
        self.symmetric_difference(rhs)
    }
}

impl<T: Ord + Clone> BitXorSpecImpl<&OrdMask<T>> for OrdMask<T> {
    open spec fn obeys_bitxor_spec() -> bool {
        false
    }

    open spec fn bitxor_req(self, rhs: &OrdMask<T>) -> bool {
        true
    }

    open spec fn bitxor_spec(self, rhs: &OrdMask<T>) -> OrdMask<T> {
        arbitrary()
    }
}

impl<T: Ord + Clone> BitXor<OrdMask<T>> for &OrdMask<T> {
    type Output = OrdMask<T>;

    /// The symmetric difference of the two masks.
    fn bitxor(self, rhs: OrdMask<T>) -> (r: OrdMask<T>)
        ensures
            total_order::<T>() ==> r@.well_formed(),
            total_order::<T>() && self@.valid() && rhs@.valid() ==> r@ == symmetric_difference_of(
                self@,
                rhs@,
            ),
    {
        self.symmetric_difference(&rhs)
    }
}

impl<T: Ord + Clone> BitXorSpecImpl<OrdMask<T>> for &OrdMask<T> {
    open spec fn obeys_bitxor_spec() -> bool {
        false
    }

    open spec fn bitxor_req(self, rhs: OrdMask<T>) -> bool {
        true
    }

    open spec fn bitxor_spec(self, rhs: OrdMask<T>) -> OrdMask<T> {
        arbitrary()
    }
}

impl<T: Ord + Clone> BitXor<&OrdMask<T>> for &OrdMask<T> {
    type Output = OrdMask<T>;

    /// The symmetric difference of the two masks.
    fn bitxor(self, rhs: &OrdMask<T>) -> (r: OrdMask<T>)
        ensures
            total_order::<T>() ==> r@.well_formed(),
            total_order::<T>() && self@.valid() && rhs@.valid() ==> r@ == symmetric_difference_of(
                self@,
                rhs@,
            ),
    {
        self.symmetric_difference(rhs)
    }
}

impl<T: Ord + Clone> BitXorSpecImpl<&OrdMask<T>> for &OrdMask<T> {
    open spec fn obeys_bitxor_spec() -> bool {
        false
    }

    open spec fn bitxor_req(self, rhs: &OrdMask<T>) -> bool {
        true
    }

    open spec fn bitxor_spec(self, rhs: &OrdMask<T>) -> OrdMask<T> {
        arbitrary()
    }
}

impl<T: Ord + Clone> Sub<OrdMask<T>> for OrdMask<T> {
    type Output = OrdMask<T>;

    /// The difference of the two masks.
    fn sub(self, rhs: OrdMask<T>) -> (r: OrdMask<T>)
        ensures
            total_order::<T>() ==> r@.well_formed(),
            total_order::<T>() && self@.valid() && rhs@.valid() ==> r@ == difference_of(
                self@,
                seq![rhs@],
            ),
    {
        let others = [&rhs];
        proof {
            assert(views(others@) =~= seq![rhs@]);
        }
        self.minus(&others)
    }
}

impl<T: Ord + Clone> SubSpecImpl<OrdMask<T>> for OrdMask<T> {
    open spec fn obeys_sub_spec() -> bool {
        false
    }

    open spec fn sub_req(self, rhs: OrdMask<T>) -> bool {
        true
    }

    open spec fn sub_spec(self, rhs: OrdMask<T>) -> OrdMask<T> {
        arbitrary()
    }
}

impl<T: Ord + Clone> Sub<&OrdMask<T>> for OrdMask<T> {
    type Output = OrdMask<T>;

    /// The difference of the two masks.
    fn sub(self, rhs: &OrdMask<T>) -> (r: OrdMask<T>)
        ensures
            total_order::<T>() ==> r@.well_formed(),
            total_order::<T>() && self@.valid() && rhs@.valid() ==> r@ == difference_of(
                self@,
                seq![rhs@],
            ),
    {
        let others = [rhs];
        proof {
            assert(views(others@) =~= seq![rhs@]);
        }
        self.minus(&others)
    }
}

impl<T: Ord + Clone> SubSpecImpl<&OrdMask<T>> for OrdMask<T> {
    open spec fn obeys_sub_spec() -> bool {
        false
    }

    open spec fn sub_req(self, rhs: &OrdMask<T>) -> bool {
        true
    }

    open spec fn sub_spec(self, rhs: &OrdMask<T>) -> OrdMask<T> {
        arbitrary()
    }
}

impl<T: Ord + Clone> Sub<OrdMask<T>> for &OrdMask<T> {
    type Output = OrdMask<T>;

    /// The difference of the two masks.
    fn sub(self, rhs: OrdMask<T>) -> (r: OrdMask<T>)
        ensures
            total_order::<T>() ==> r@.well_formed(),
            total_order::<T>() && self@.valid() && rhs@.valid() ==> r@ == difference_of(
                self@,
                seq![rhs@],
            ),
    {
        let others = [&rhs];
        proof {
            assert(views(others@) =~= seq![rhs@]);
        }
        self.minus(&others)
    }
}

impl<T: Ord + Clone> SubSpecImpl<OrdMask<T>> for &OrdMask<T> {
    open spec fn obeys_sub_spec() -> bool {
        false
    }

    open spec fn sub_req(self, rhs: OrdMask<T>) -> bool {
        true
    }

    open spec fn sub_spec(self, rhs: OrdMask<T>) -> OrdMask<T> {
        arbitrary()
    }
}

impl<T: Ord + Clone> Sub<&OrdMask<T>> for &OrdMask<T> {
    type Output = OrdMask<T>;

    /// The difference of the two masks.
    fn sub(self, rhs: &OrdMask<T>) -> (r: OrdMask<T>)
        ensures
            total_order::<T>() ==> r@.well_formed(),
            total_order::<T>() && self@.valid() && rhs@.valid() ==> r@ == difference_of(
                self@,
                seq![rhs@],
            ),
    {
        let others = [rhs];
        proof {
            assert(views(others@) =~= seq![rhs@]);
        }
        self.minus(&others)
    }
}

impl<T: Ord + Clone> SubSpecImpl<&OrdMask<T>> for &OrdMask<T> {
    open spec fn obeys_sub_spec() -> bool {
        false
    }

    open spec fn sub_req(self, rhs: &OrdMask<T>) -> bool {
        true
    }

    open spec fn sub_spec(self, rhs: &OrdMask<T>) -> OrdMask<T> {
        arbitrary()
    }
}

impl<T: Ord + Clone> Not for OrdMask<T> {
    type Output = OrdMask<T>;

    /// The complement of the mask.
    fn not(self) -> (r: OrdMask<T>)
        ensures
            r@ == self@.complement(),
    {
        self.complement()
    }
}

impl<T: Ord + Clone> NotSpecImpl for OrdMask<T> {
    open spec fn obeys_not_spec() -> bool {
        false
    }

    open spec fn not_req(self) -> bool {
        true
    }

    open spec fn not_spec(self) -> OrdMask<T> {
        arbitrary()
    }
}

impl<T: Ord + Clone> Not for &OrdMask<T> {
    type Output = OrdMask<T>;

    /// The complement of the mask.
    fn not(self) -> (r: OrdMask<T>)
        ensures
            total_order::<T>() ==> r@ == self@.complement(),
    {
        self.new_complement()
    }
}

impl<T: Ord + Clone> NotSpecImpl for &OrdMask<T> {
    open spec fn obeys_not_spec() -> bool {
        false
    }

    open spec fn not_req(self) -> bool {
        true
    }

    open spec fn not_spec(self) -> OrdMask<T> {
        arbitrary()
    }
}

} // verus!
