//! Fast, validating conversion of ASCII decimal text into fixed-width integers.
//!
//! Digits are decoded several at a time by word-wide kernels, chained by folds, and
//! checked once against the target's exact range.
use vstd::prelude::*;

mod bits;
pub mod fallback;
pub mod fold;
pub mod kernels;
pub mod laws;
pub mod model;
mod signed;
mod unsigned;
pub mod wide;

verus! {

/// Parsing of a fixed-width integer from decimal text, with an optional leading sign:
/// `[+]?[0-9]+` for unsigned types and `[+-]?[0-9]+` for signed ones. Any number of
/// leading zeros is accepted. Text outside the grammar, and a value outside the type's
/// range, give `Err(())`.
///
/// The integer types implement it with `spec_from_radix_10` given by
/// `model::unsigned_checked` and `model::signed_checked`.
pub trait FromRadix10Checked: Sized {
    /// What `from_radix_10_checked` returns on `s`.
    spec fn spec_from_radix_10(s: Seq<u8>) -> Result<Self, ()>;

    fn from_radix_10_checked(s: &[u8]) -> (r: Result<Self, ()>)
        ensures
            r == Self::spec_from_radix_10(s@),
    ;
}

/// Parsing of an unsigned integer from the bytes of the pattern `[0-9]+`: as
/// `FromRadix10Checked`, but a leading `'+'` is refused.
pub trait FromRadix10CheckedNoPlus: Sized {
    /// What `from_radix_10_checked_no_plus` returns on `s`.
    spec fn spec_from_radix_10_no_plus(s: Seq<u8>) -> Result<Self, ()>;

    fn from_radix_10_checked_no_plus(s: &[u8]) -> (r: Result<Self, ()>)
        ensures
            r == Self::spec_from_radix_10_no_plus(s@),
    ;
}

/// Parses an integer of type `I` from `text`; see `FromRadix10Checked`.
pub fn atoi<I: FromRadix10Checked>(text: &[u8]) -> (r: Result<I, ()>)
    ensures
        r == I::spec_from_radix_10(text@),
{
    I::from_radix_10_checked(text)
}

/// The one failure of every parser: the input is not a decimal integer of the target type.
pub(crate) fn error<T>() -> (r: Result<T, ()>)
    ensures
        r == Err::<T, ()>(()),
{
    Err(())
}

} // verus!
