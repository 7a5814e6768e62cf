//! The smallest value of a type.

use crate::order::lt;
use vstd::prelude::*;

verus! {

/// A type with a smallest value. The primitive integer types have one.
pub trait MinValue: Sized {
    /// The smallest value.
    spec fn least() -> Self;

    /// Returns the smallest value of the type.
    fn min_value() -> (r: Self)
        ensures
            r == Self::least(),
    ;

    /// No value is below the smallest.
    proof fn lemma_least(x: Self) where Self: PartialOrd
        ensures
            !lt(x, Self::least()),
    ;
}

impl MinValue for u8 {
    open spec fn least() -> u8 {
        u8::MIN
    }

    fn min_value() -> u8 {
        u8::MIN
    }

    proof fn lemma_least(x: u8) {
    }
}

impl MinValue for u16 {
    open spec fn least() -> u16 {
        u16::MIN
    }

    fn min_value() -> u16 {
        u16::MIN
    }

    proof fn lemma_least(x: u16) {
    }
}

impl MinValue for u32 {
    open spec fn least() -> u32 {
        u32::MIN
    }

    fn min_value() -> u32 {
        u32::MIN
    }

    proof fn lemma_least(x: u32) {
    }
}

impl MinValue for u64 {
    open spec fn least() -> u64 {
        u64::MIN
    }

    fn min_value() -> u64 {
        u64::MIN
    }

    proof fn lemma_least(x: u64) {
    }
}

impl MinValue for u128 {
    open spec fn least() -> u128 {
        u128::MIN
    }

    fn min_value() -> u128 {
        u128::MIN
    }

    proof fn lemma_least(x: u128) {
    }
}

impl MinValue for usize {
    open spec fn least() -> usize {
        usize::MIN
    }

    fn min_value() -> usize {
        usize::MIN
    }

    proof fn lemma_least(x: usize) {
    }
}

impl MinValue for i8 {
    open spec fn least() -> i8 {
        i8::MIN
    }

    fn min_value() -> i8 {
        i8::MIN
    }

    proof fn lemma_least(x: i8) {
    }
}

impl MinValue for i16 {
    open spec fn least() -> i16 {
        i16::MIN
    }

    fn min_value() -> i16 {
        i16::MIN
    }

    proof fn lemma_least(x: i16) {
    }
}

impl MinValue for i32 {
    open spec fn least() -> i32 {
        i32::MIN
    }

    fn min_value() -> i32 {
        i32::MIN
    }

    proof fn lemma_least(x: i32) {
    }
}

impl MinValue for i64 {
    open spec fn least() -> i64 {
        i64::MIN
    }

    fn min_value() -> i64 {
        i64::MIN
    }

    proof fn lemma_least(x: i64) {
    }
}

impl MinValue for i128 {
    open spec fn least() -> i128 {
        i128::MIN
    }

    fn min_value() -> i128 {
        i128::MIN
    }

    proof fn lemma_least(x: i128) {
    }
}

impl MinValue for isize {
    open spec fn least() -> isize {
        isize::MIN
    }

    fn min_value() -> isize {
        isize::MIN
    }

    proof fn lemma_least(x: isize) {
    }
}

} // verus!
