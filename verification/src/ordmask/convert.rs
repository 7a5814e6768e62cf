//! Masks from boundary lists, and back.

use crate::decimal::{append_decimal, decimal};
use crate::laws::lemma_simplify_canonical;
use crate::model::{descends_at, first_descent_is, non_decreasing, MaskView};
use crate::order::{comparable, is_lt, lemma_order_laws, total_order};
use crate::ordmask::OrdMask;
use vstd::prelude::*;
use vstd::std_specs::convert::{FromSpecImpl, TryFromSpecImpl};
use vstd::string::StringExecFns;

verus! {

/// The first index whose element is smaller than the element before it, or 0
/// if the elements are non-decreasing.
pub fn get_first_falling_index<T: PartialOrd>(vec: &Vec<T>) -> (r: usize)
    ensures
        r < vec@.len() || r == 0,
        comparable::<T>() ==> first_descent_is(vec@, r as int),
{
    let len = vec.len();
    let mut i: usize = 1;
    while i < len
        invariant
            len == vec@.len(),
            1 <= i,
            comparable::<T>() ==> forall|k: int| 0 < k < i ==> !#[trigger] descends_at(vec@, k),
        decreases len - i,
    {
        if is_lt(&vec[i], &vec[i - 1]) {
            assert(comparable::<T>() ==> descends_at(vec@, i as int));
            return i;
        }
        i += 1;
    }
    0
}

/// A boundary list that is not non-decreasing; it holds the first index whose
/// element is smaller than the element before it. [`Error::message`] puts it
/// into words.
#[derive(Debug)]
pub struct Error {
    falling_pos: usize,
}

impl View for Error {
    type V = int;

    closed spec fn view(&self) -> int {
        self.falling_pos as int
    }
}

/// The text of the message for a descent at `index`.
pub open spec fn message_text(index: nat) -> Seq<char> {
    "Can't convert Vec<T> to OrdMask<T> because it should be non-decreasing.\nThe value at index "@
        + decimal(index) + " is less than the value at index "@ + decimal((index - 1) as nat)
        + "."@
}

impl Error {
    #[verifier::type_invariant]
    spec fn positive(self) -> bool {
        self.falling_pos >= 1
    }

    /// The message: which element is smaller than which.
    pub fn message(&self) -> (r: String)
        ensures
            r@ == message_text(self@ as nat),
    {
        proof {
            use_type_invariant(self);
        }
        let mut text = String::from_str(
            "Can't convert Vec<T> to OrdMask<T> because it should be non-decreasing.\nThe value at index ",
        );
        append_decimal(&mut text, self.falling_pos);
        text.append(" is less than the value at index ");
        append_decimal(&mut text, self.falling_pos - 1);
        text.append(".");
        text
    }

    /// The index of the offending element.
    pub fn falling_pos(&self) -> (r: usize)
        ensures
            r == self@,
            r >= 1,
    {
        proof {
            use_type_invariant(self);
        }
        self.falling_pos
    }
}

impl<T: Ord + Clone> From<OrdMask<T>> for Vec<T> {
    /// The boundaries of the mask; its leading state is dropped.
    fn from(mask: OrdMask<T>) -> (r: Vec<T>)
        ensures
            r@ == mask@.boundaries,
    {
        mask.key_points
    }
}

impl<T: Ord + Clone> FromSpecImpl<OrdMask<T>> for Vec<T> {
    open spec fn obeys_from_spec() -> bool {
        true
    }

    closed spec fn from_spec(mask: OrdMask<T>) -> Vec<T> {
        mask.key_points
    }
}

impl<T: Ord + Clone> TryFrom<Vec<T>> for OrdMask<T> {
    type Error = Error;

    /// As [`OrdMask::try_new`] with leading state `false`.
    fn try_from(key_points: Vec<T>) -> (r: Result<Self, Error>)
        ensures
            total_order::<T>() ==> match r {
                Ok(mask) => non_decreasing(key_points@) && mask@.well_formed() && mask@
                    == (MaskView { boundaries: key_points@, leading: false }).simplify(),
                Err(e) => !non_decreasing(key_points@) && first_descent_is(key_points@, e@),
            },
    {
        Self::try_new(key_points, false)
    }
}

impl<T: Ord + Clone> TryFromSpecImpl<Vec<T>> for OrdMask<T> {
    open spec fn obeys_try_from_spec() -> bool {
        false
    }

    open spec fn try_from_spec(key_points: Vec<T>) -> Result<Self, Error> {
        arbitrary()
    }
}

impl<T: Ord + Clone> OrdMask<T> {
    /// Checks that `key_points` is non-decreasing and makes the simplified
    /// mask with these boundaries and leading state `reversed`; otherwise
    /// reports the first descent.
    pub fn try_new(key_points: Vec<T>, reversed: bool) -> (r: Result<Self, Error>)
        ensures
            total_order::<T>() ==> match r {
                Ok(mask) => non_decreasing(key_points@) && mask@.well_formed() && mask@
                    == (MaskView { boundaries: key_points@, leading: reversed }).simplify(),
                Err(e) => !non_decreasing(key_points@) && first_descent_is(key_points@, e@),
            },
    {
        proof {
            if total_order::<T>() {
                lemma_order_laws::<T>();
                if non_decreasing(key_points@) {
                    lemma_simplify_canonical(
                        MaskView { boundaries: key_points@, leading: reversed },
                    );
                }
            }
        }
        let n = get_first_falling_index(&key_points);
        if n == 0 {
            let mut result = OrdMask::with_unchecked(key_points, reversed);
            result.simplify();
            Ok(result)
        } else {
            assert(total_order::<T>() ==> descends_at(key_points@, n as int));
            Err(Error { falling_pos: n })
        }
    }

    /// The simplified mask with the boundaries `key_points` and leading state
    /// `false`.
    ///
    /// `key_points` must be non-decreasing; [`OrdMask::try_new`] is for lists
    /// of which that is not known.
    pub fn from(key_points: Vec<T>) -> (r: Self)
        requires
            total_order::<T>(),
            non_decreasing(key_points@),
        ensures
            r@ == (MaskView { boundaries: key_points@, leading: false }).simplify(),
            r@.well_formed(),
    {
        match Self::try_new(key_points, false) {
            Ok(mask) => mask,
            Err(_) => unreached(),
        }
    }

    /// The simplified mask with the boundaries `key_points` and leading state
    /// `true`: the complement of what [`OrdMask::from`] makes of them.
    ///
    /// `key_points` must be non-decreasing; [`OrdMask::try_new`] is for lists
    /// of which that is not known.
    pub fn from_complement(key_points: Vec<T>) -> (r: Self)
        requires
            total_order::<T>(),
            non_decreasing(key_points@),
        ensures
            r@ == (MaskView { boundaries: key_points@, leading: true }).simplify(),
            r@.well_formed(),
    {
        match Self::try_new(key_points, true) {
            Ok(mask) => mask,
            Err(_) => unreached(),
        }
    }

    /// The mask with exactly these boundaries and this leading state. Nothing
    /// is checked and nothing is simplified: a list that is not non-decreasing
    /// gives a mask that is not valid, of whose membership test nothing is
    /// promised.
    pub fn with_unchecked(key_points: Vec<T>, reversed: bool) -> (r: Self)
        ensures
            r@ == (MaskView { boundaries: key_points@, leading: reversed }),
    {
        OrdMask::new(key_points, reversed)
    }
}

} // verus!
