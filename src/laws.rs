//! Properties that relate several parses, stated over the model that the parsers'
//! contracts use.
use vstd::prelude::*;

use crate::model::{
    chunk_parsed, decimal_text, int_text, is_digit, lemma_decimal_text, lemma_magnitude_zeros,
    signed_checked, unsigned_checked, zeros, MINUS, PLUS,
};
use crate::{FromRadix10Checked, FromRadix10CheckedNoPlus};

verus! {

/// Round trip, unsigned: the decimal text of every value up to `max` parses back to
/// that value, with or without a leading `'+'` allowed.
pub proof fn law_round_trip_unsigned(v: nat, plus: bool, max: nat)
    requires
        v <= max,
    ensures
        unsigned_checked(decimal_text(v), plus, max) == Some(v),
{
    lemma_decimal_text(v);
    assert(is_digit(decimal_text(v)[0]));
}

/// Round trip, signed: the decimal text of every value of `min..=max` parses back to
/// that value.
pub proof fn law_round_trip_signed(v: int, min: int, max: int)
    requires
        min <= v <= max,
    ensures
        signed_checked(int_text(v), min, max) == Some(v),
{
    if v < 0 {
        let t = decimal_text((-v) as nat);
        lemma_decimal_text((-v) as nat);
        assert((seq![MINUS] + t).drop_first() =~= t);
        assert((seq![MINUS] + t)[0] == MINUS);
    } else {
        lemma_decimal_text(v as nat);
        assert(is_digit(decimal_text(v as nat)[0]));
    }
}

/// Leading zeros, unsigned: zero padding in front of input that does not start with
/// `'+'` changes no result.
pub proof fn law_leading_zeros_unsigned(n: nat, s: Seq<u8>, plus: bool, max: nat)
    requires
        s.len() > 0,
        s[0] != PLUS,
    ensures
        unsigned_checked(zeros(n) + s, plus, max) == unsigned_checked(s, plus, max),
{
    lemma_magnitude_zeros(n, s);
    if n > 0 {
        assert((zeros(n) + s)[0] == zeros(n)[0]);
    } else {
        assert(zeros(n) + s =~= s);
    }
}

/// Leading zeros, signed: zero padding between the optional sign and the rest, which
/// starts with no sign, changes no result.
pub proof fn law_leading_zeros_signed(sign: Seq<u8>, n: nat, s: Seq<u8>, min: int, max: int)
    requires
        sign == Seq::<u8>::empty() || sign == seq![MINUS] || sign == seq![PLUS],
        s.len() > 0,
        s[0] != PLUS && s[0] != MINUS,
    ensures
        signed_checked(sign + (zeros(n) + s), min, max) == signed_checked(sign + s, min, max),
{
    lemma_magnitude_zeros(n, s);
    let padded = zeros(n) + s;
    if n > 0 {
        assert(padded[0] == zeros(n)[0]);
    } else {
        assert(padded =~= s);
    }
    if sign.len() == 1 {
        assert((sign + padded).drop_first() =~= padded);
        assert((sign + s).drop_first() =~= s);
    } else {
        assert(sign + padded =~= padded);
        assert(sign + s =~= s);
    }
}

/// The two 16-byte kernels agree: on every chunk of 16 bytes, the 128-bit word kernel
/// (`wide::parse_16`) and the chain of two 8-byte kernels (`fallback::parse_16`) flag
/// the same inputs and, where nothing is flagged, return the same number.
pub proof fn law_kernels_agree(
    c: Seq<u8>,
    e0: u64,
    wide_err: u64,
    wide_value: nat,
    chained_err: u64,
    chained_value: nat,
)
    requires
        c.len() == 16,
        chunk_parsed(c, e0, wide_err, wide_value),
        chunk_parsed(c, e0, chained_err, chained_value),
    ensures
        wide_err == 0 <==> chained_err == 0,
        wide_err == 0 ==> wide_value == chained_value,
{
}

/// Round trip through `u8`'s parser.
pub proof fn law_round_trip_u8(v: u8)
    ensures
        <u8 as FromRadix10Checked>::spec_from_radix_10(decimal_text(v as nat)) == Ok::<u8, ()>(v),
        <u8 as FromRadix10CheckedNoPlus>::spec_from_radix_10_no_plus(decimal_text(v as nat))
            == Ok::<u8, ()>(v),
{
    law_round_trip_unsigned(v as nat, true, u8::MAX as nat);
    law_round_trip_unsigned(v as nat, false, u8::MAX as nat);
}

/// Round trip through `u16`'s parser.
pub proof fn law_round_trip_u16(v: u16)
    ensures
        <u16 as FromRadix10Checked>::spec_from_radix_10(decimal_text(v as nat)) == Ok::<u16, ()>(
            v,
        ),
        <u16 as FromRadix10CheckedNoPlus>::spec_from_radix_10_no_plus(decimal_text(v as nat))
            == Ok::<u16, ()>(v),
{
    law_round_trip_unsigned(v as nat, true, u16::MAX as nat);
    law_round_trip_unsigned(v as nat, false, u16::MAX as nat);
}

/// Round trip through `u32`'s parser.
pub proof fn law_round_trip_u32(v: u32)
    ensures
        <u32 as FromRadix10Checked>::spec_from_radix_10(decimal_text(v as nat)) == Ok::<u32, ()>(
            v,
        ),
        <u32 as FromRadix10CheckedNoPlus>::spec_from_radix_10_no_plus(decimal_text(v as nat))
            == Ok::<u32, ()>(v),
{
    law_round_trip_unsigned(v as nat, true, u32::MAX as nat);
    law_round_trip_unsigned(v as nat, false, u32::MAX as nat);
}

/// Round trip through `u64`'s parser.
pub proof fn law_round_trip_u64(v: u64)
    ensures
        <u64 as FromRadix10Checked>::spec_from_radix_10(decimal_text(v as nat)) == Ok::<u64, ()>(
            v,
        ),
        <u64 as FromRadix10CheckedNoPlus>::spec_from_radix_10_no_plus(decimal_text(v as nat))
            == Ok::<u64, ()>(v),
{
    law_round_trip_unsigned(v as nat, true, u64::MAX as nat);
    law_round_trip_unsigned(v as nat, false, u64::MAX as nat);
}

/// Round trip through `u128`'s parser.
pub proof fn law_round_trip_u128(v: u128)
    ensures
        <u128 as FromRadix10Checked>::spec_from_radix_10(decimal_text(v as nat)) == Ok::<u128, ()>(
            v,
        ),
        <u128 as FromRadix10CheckedNoPlus>::spec_from_radix_10_no_plus(decimal_text(v as nat))
            == Ok::<u128, ()>(v),
{
    law_round_trip_unsigned(v as nat, true, u128::MAX as nat);
    law_round_trip_unsigned(v as nat, false, u128::MAX as nat);
}

/// Round trip through `i8`'s parser.
pub proof fn law_round_trip_i8(v: i8)
    ensures
        <i8 as FromRadix10Checked>::spec_from_radix_10(int_text(v as int)) == Ok::<i8, ()>(v),
{
    law_round_trip_signed(v as int, i8::MIN as int, i8::MAX as int);
}

/// Round trip through `i16`'s parser.
pub proof fn law_round_trip_i16(v: i16)
    ensures
        <i16 as FromRadix10Checked>::spec_from_radix_10(int_text(v as int)) == Ok::<i16, ()>(v),
{
    law_round_trip_signed(v as int, i16::MIN as int, i16::MAX as int);
}

/// Round trip through `i32`'s parser.
pub proof fn law_round_trip_i32(v: i32)
    ensures
        <i32 as FromRadix10Checked>::spec_from_radix_10(int_text(v as int)) == Ok::<i32, ()>(v),
{
    law_round_trip_signed(v as int, i32::MIN as int, i32::MAX as int);
}

/// Round trip through `i64`'s parser.
pub proof fn law_round_trip_i64(v: i64)
    ensures
        <i64 as FromRadix10Checked>::spec_from_radix_10(int_text(v as int)) == Ok::<i64, ()>(v),
{
    law_round_trip_signed(v as int, i64::MIN as int, i64::MAX as int);
}

/// Round trip through `i128`'s parser.
pub proof fn law_round_trip_i128(v: i128)
    ensures
        <i128 as FromRadix10Checked>::spec_from_radix_10(int_text(v as int)) == Ok::<i128, ()>(v),
{
    law_round_trip_signed(v as int, i128::MIN as int, i128::MAX as int);
}

} // verus!
