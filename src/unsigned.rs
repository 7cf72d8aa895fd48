//! Unsigned targets: a digit parser per width and the length dispatch around it.
use vstd::prelude::*;

use crate::bits::{lemma_fits, lemma_or_zero};
use crate::fold::{
    fold_4_checked, lemma_chunk_within, lemma_fold_exact_128, lemma_narrow, lemma_within_checked,
    lemma_within_done, lemma_within_start, lemma_within_step, maybe_parse_1, maybe_parse_2,
    maybe_parse_4, maybe_parse_8, parse_3, parse_5, parse_plus_sign, parse_up_to_38,
    strip_leading_zeros,
};
use crate::kernels::{parse_1, parse_2, parse_4};
use crate::model::{
    digits_parsed, is_digit, lemma_accepts_stripped, lemma_decimal_1, lemma_decimal_split,
    lemma_pow10_mono, lemma_pow10_small, lemma_refuses_stripped, pow10, unsigned_checked, zeros,
    PLUS,
};
use crate::{error, FromRadix10Checked, FromRadix10CheckedNoPlus};

verus! {

/// Parses 3 to 20 digits as a `u64`, flagging a value above `u64::MAX`.
fn parse_u64(s: &mut &[u8], is_err: &mut u64) -> (r: u64)
    requires
        3 <= old(s)@.len() <= 20,
    ensures
        final(s)@.len() == 0,
        digits_parsed(old(s)@, *old(is_err), *final(is_err), r as nat, u64::MAX as nat),
{
    let ghost orig = s@;
    let ghost e0 = *is_err;
    proof {
        lemma_pow10_small();
        lemma_pow10_mono(5, 19);
        assert(orig.subrange(0, orig.len() as int) =~= orig);
    }
    if s.len() == 3 {
        let r = parse_3(s, is_err);
        proof {
            lemma_pow10_mono(3, 19);
            lemma_chunk_within(orig, e0, *is_err, r as nat, u64::MAX as nat);
        }
        return r;
    }
    if s.len() == 4 {
        let r = parse_4(s, is_err);
        proof {
            lemma_pow10_mono(4, 19);
            lemma_chunk_within(orig, e0, *is_err, r as nat, u64::MAX as nat);
        }
        return r;
    }
    if s.len() == 5 {
        let r = parse_5(s, is_err);
        proof {
            lemma_chunk_within(orig, e0, *is_err, r as nat, u64::MAX as nat);
        }
        return r;
    }
    let mut res: u64 = 0;
    proof {
        lemma_within_start(orig, e0, u64::MAX as nat);
    }
    let ghost (r1, e1, h1) = (s@, *is_err, res);
    maybe_parse_8(s, is_err, &mut res);
    proof {
        lemma_within_step(
            orig,
            r1,
            s@,
            8,
            e0,
            e1,
            *is_err,
            h1 as nat,
            res as nat,
            19,
            u64::MAX as nat,
        );
    }
    let ghost (r2, e2, h2) = (s@, *is_err, res);
    maybe_parse_8(s, is_err, &mut res);
    proof {
        lemma_within_step(
            orig,
            r2,
            s@,
            8,
            e0,
            e2,
            *is_err,
            h2 as nat,
            res as nat,
            19,
            u64::MAX as nat,
        );
    }
    if s.len() >= 4 {
        let ghost (r3, e3, h3) = (s@, *is_err, res);
        // Since longer input was cut to 20 digits, only here can the value exceed `u64::MAX`:
        // with 20 digits, two 8-byte chunks came first.
        res = fold_4_checked(s, is_err, res);
        proof {
            lemma_within_checked(orig, r3, s@, e0, e3, *is_err, h3, res);
        }
    }
    let ghost (r4, e4, h4) = (s@, *is_err, res);
    maybe_parse_2(s, is_err, &mut res);
    proof {
        lemma_within_step(
            orig,
            r4,
            s@,
            2,
            e0,
            e4,
            *is_err,
            h4 as nat,
            res as nat,
            19,
            u64::MAX as nat,
        );
    }
    let ghost (r5, e5, h5) = (s@, *is_err, res);
    maybe_parse_1(s, is_err, &mut res);
    proof {
        lemma_within_step(
            orig,
            r5,
            s@,
            1,
            e0,
            e5,
            *is_err,
            h5 as nat,
            res as nat,
            19,
            u64::MAX as nat,
        );
        lemma_within_done(orig, s@, e0, *is_err, res as nat, u64::MAX as nat);
    }
    res
}

/// Parses 3 to 10 digits, flagging a value above `u32::MAX`.
fn parse_u32(s: &mut &[u8], is_err: &mut u64) -> (r: u64)
    requires
        3 <= old(s)@.len() <= 10,
    ensures
        final(s)@.len() == 0,
        digits_parsed(old(s)@, *old(is_err), *final(is_err), r as nat, u32::MAX as nat),
{
    let ghost orig = s@;
    let ghost e0 = *is_err;
    proof {
        lemma_pow10_small();
        lemma_pow10_mono(5, 19);
        assert(orig.subrange(0, orig.len() as int) =~= orig);
    }
    if s.len() == 3 {
        let r = parse_3(s, is_err);
        proof {
            lemma_chunk_within(orig, e0, *is_err, r as nat, u32::MAX as nat);
        }
        return r;
    }
    if s.len() == 4 {
        let r = parse_4(s, is_err);
        proof {
            lemma_chunk_within(orig, e0, *is_err, r as nat, u32::MAX as nat);
        }
        return r;
    }
    if s.len() == 5 {
        let r = parse_5(s, is_err);
        proof {
            lemma_pow10_mono(5, 9);
            reveal_with_fuel(pow10, 10);
            lemma_chunk_within(orig, e0, *is_err, r as nat, u32::MAX as nat);
        }
        return r;
    }
    let mut res: u64 = 0;
    proof {
        lemma_within_start(orig, e0, u64::MAX as nat);
    }
    let ghost (r1, e1, h1) = (s@, *is_err, res);
    maybe_parse_8(s, is_err, &mut res);
    proof {
        lemma_within_step(
            orig,
            r1,
            s@,
            8,
            e0,
            e1,
            *is_err,
            h1 as nat,
            res as nat,
            19,
            u64::MAX as nat,
        );
    }
    let ghost (r2, e2, h2) = (s@, *is_err, res);
    maybe_parse_4(s, is_err, &mut res);
    proof {
        lemma_within_step(
            orig,
            r2,
            s@,
            4,
            e0,
            e2,
            *is_err,
            h2 as nat,
            res as nat,
            19,
            u64::MAX as nat,
        );
    }
    let ghost (r3, e3, h3) = (s@, *is_err, res);
    maybe_parse_2(s, is_err, &mut res);
    proof {
        lemma_within_step(
            orig,
            r3,
            s@,
            2,
            e0,
            e3,
            *is_err,
            h3 as nat,
            res as nat,
            19,
            u64::MAX as nat,
        );
    }
    let ghost (r4, e4, h4) = (s@, *is_err, res);
    maybe_parse_1(s, is_err, &mut res);
    proof {
        lemma_within_step(
            orig,
            r4,
            s@,
            1,
            e0,
            e4,
            *is_err,
            h4 as nat,
            res as nat,
            19,
            u64::MAX as nat,
        );
        lemma_within_done(orig, s@, e0, *is_err, res as nat, u64::MAX as nat);
        lemma_fits(res);
        lemma_narrow(orig, e0, *is_err, res >> 32, res, u32::MAX as nat);
    }
    *is_err = *is_err | (res >> 32);
    res
}

/// Parses 1 to 5 digits, flagging a value above `u16::MAX`.
fn parse_u16(s: &mut &[u8], is_err: &mut u64) -> (r: u64)
    requires
        1 <= old(s)@.len() <= 5,
    ensures
        final(s)@.len() == 0,
        digits_parsed(old(s)@, *old(is_err), *final(is_err), r as nat, u16::MAX as nat),
{
    let ghost orig = s@;
    let ghost e0 = *is_err;
    proof {
        lemma_pow10_small();
    }
    let mut res: u64 = 0;
    proof {
        lemma_within_start(orig, e0, u64::MAX as nat);
    }
    let ghost (r1, e1, h1) = (s@, *is_err, res);
    maybe_parse_4(s, is_err, &mut res);
    proof {
        lemma_within_step(
            orig,
            r1,
            s@,
            4,
            e0,
            e1,
            *is_err,
            h1 as nat,
            res as nat,
            19,
            u64::MAX as nat,
        );
    }
    let ghost (r2, e2, h2) = (s@, *is_err, res);
    maybe_parse_2(s, is_err, &mut res);
    proof {
        lemma_within_step(
            orig,
            r2,
            s@,
            2,
            e0,
            e2,
            *is_err,
            h2 as nat,
            res as nat,
            19,
            u64::MAX as nat,
        );
    }
    let ghost (r3, e3, h3) = (s@, *is_err, res);
    maybe_parse_1(s, is_err, &mut res);
    proof {
        lemma_within_step(
            orig,
            r3,
            s@,
            1,
            e0,
            e3,
            *is_err,
            h3 as nat,
            res as nat,
            19,
            u64::MAX as nat,
        );
        lemma_within_done(orig, s@, e0, *is_err, res as nat, u64::MAX as nat);
        lemma_fits(res);
        lemma_narrow(orig, e0, *is_err, res >> 16, res, u16::MAX as nat);
    }
    *is_err = *is_err | (res >> 16);
    res
}

/// Parses 1 to 3 digits, flagging a value above `u8::MAX`.
fn parse_u8(s: &mut &[u8], is_err: &mut u64) -> (r: u64)
    requires
        1 <= old(s)@.len() <= 3,
    ensures
        final(s)@.len() == 0,
        digits_parsed(old(s)@, *old(is_err), *final(is_err), r as nat, u8::MAX as nat),
{
    let ghost orig = s@;
    let ghost e0 = *is_err;
    proof {
        lemma_pow10_small();
    }
    let mut res: u64 = 0;
    proof {
        lemma_within_start(orig, e0, u64::MAX as nat);
    }
    let ghost (r1, e1, h1) = (s@, *is_err, res);
    maybe_parse_2(s, is_err, &mut res);
    proof {
        lemma_within_step(
            orig,
            r1,
            s@,
            2,
            e0,
            e1,
            *is_err,
            h1 as nat,
            res as nat,
            19,
            u64::MAX as nat,
        );
    }
    let ghost (r2, e2, h2) = (s@, *is_err, res);
    maybe_parse_1(s, is_err, &mut res);
    proof {
        lemma_within_step(
            orig,
            r2,
            s@,
            1,
            e0,
            e2,
            *is_err,
            h2 as nat,
            res as nat,
            19,
            u64::MAX as nat,
        );
        lemma_within_done(orig, s@, e0, *is_err, res as nat, u64::MAX as nat);
        lemma_fits(res);
        lemma_narrow(orig, e0, *is_err, res >> 8, res, u8::MAX as nat);
    }
    *is_err = *is_err | (res >> 8);
    res
}

/// Parses 3 to 39 digits as a `u128`, flagging a value above `u128::MAX`.
fn parse_u128(s: &mut &[u8], is_err: &mut u64) -> (r: u128)
    requires
        3 <= old(s)@.len() <= 39,
    ensures
        final(s)@.len() == 0,
        digits_parsed(old(s)@, *old(is_err), *final(is_err), r as nat, u128::MAX as nat),
{
    let ghost orig = s@;
    let ghost e0 = *is_err;
    proof {
        lemma_pow10_small();
        lemma_pow10_mono(5, 38);
        assert(orig.subrange(0, orig.len() as int) =~= orig);
    }
    if s.len() == 3 {
        let r = parse_3(s, is_err);
        proof {
            lemma_pow10_mono(3, 38);
            lemma_chunk_within(orig, e0, *is_err, r as nat, u128::MAX as nat);
        }
        return r as u128;
    }
    if s.len() == 4 {
        let r = parse_4(s, is_err);
        proof {
            lemma_chunk_within(orig, e0, *is_err, r as nat, u128::MAX as nat);
        }
        return r as u128;
    }
    if s.len() == 5 {
        let r = parse_5(s, is_err);
        proof {
            lemma_chunk_within(orig, e0, *is_err, r as nat, u128::MAX as nat);
        }
        return r as u128;
    }
    let mut res = parse_up_to_38(s, is_err);
    let ghost pos = orig.len() - s@.len();
    proof {
        lemma_pow10_mono(pos as nat, 38);
        lemma_chunk_within(orig.subrange(0, pos), e0, *is_err, res as nat, u128::MAX as nat);
    }
    if !s.is_empty() {
        let ghost e1 = *is_err;
        let ghost rest = s@;
        let x = parse_1(s, is_err);
        let ghost e2 = *is_err;
        let over_hi = (res > 34028236692093846346337460743176821145) as u64;
        let over_eq = (res >= 34028236692093846346337460743176821145 && x > 5) as u64;
        proof {
            lemma_or_zero(e2, over_hi);
            lemma_or_zero(e2 | over_hi, over_eq);
            let c = rest.subrange(0, 1);
            assert(orig.subrange(pos, pos + 1) =~= c);
            lemma_decimal_split(orig, pos);
            lemma_decimal_1(c);
            if e2 == 0 {
                assert(is_digit(c[0]));
            }
            if e2 == 0 && over_hi == 0 && over_eq == 0 {
                lemma_fold_exact_128(res, 10, x as u128);
            }
        }
        *is_err = *is_err | over_hi;
        *is_err = *is_err | over_eq;
        res = res.wrapping_mul(10);
        res = res.wrapping_add(x as u128);
    } else {
        proof {
            assert(orig.subrange(0, pos) =~= orig);
        }
    }
    res
}

impl FromRadix10CheckedNoPlus for u128 {
    open spec fn spec_from_radix_10_no_plus(s: Seq<u8>) -> Result<u128, ()> {
        match unsigned_checked(s, false, u128::MAX as nat) {
            Some(v) => Ok(v as u128),
            None => Err(()),
        }
    }

    fn from_radix_10_checked_no_plus(mut s: &[u8]) -> (r: Result<u128, ()>) {
        let ghost orig = s@;
        let mut is_err: u64 = 0;
        proof {
            lemma_pow10_small();
            assert(zeros(0) + orig =~= orig);
            assert(orig.subrange(0, orig.len() as int) =~= orig);
        }
        let res = if s.len() == 1 {
            let r = parse_1(&mut s, &mut is_err) as u128;
            proof {
                lemma_chunk_within(orig, 0, is_err, r as nat, u128::MAX as nat);
                lemma_accepts_stripped(orig, orig, 0, is_err, r as nat, u128::MAX as nat);
            }
            r
        } else if s.len() == 2 {
            let r = parse_2(&mut s, &mut is_err) as u128;
            proof {
                lemma_chunk_within(orig, 0, is_err, r as nat, u128::MAX as nat);
                lemma_accepts_stripped(orig, orig, 0, is_err, r as nat, u128::MAX as nat);
            }
            r
        } else if 3 <= s.len() && s.len() <= 39 {
            let r = parse_u128(&mut s, &mut is_err);
            proof {
                lemma_accepts_stripped(orig, orig, 0, is_err, r as nat, u128::MAX as nat);
            }
            r
        } else {
            strip_leading_zeros(&mut s, 39);
            let ghost n = (orig.len() - s@.len()) as nat;
            if s.is_empty() || s.len() > 39 {
                proof {
                    
                    lemma_refuses_stripped(orig, s@, n, 39, u128::MAX as nat);
                }
                return error();
            }
            let ghost t = s@;
            let r = parse_u128(&mut s, &mut is_err);
            proof {
                lemma_accepts_stripped(orig, t, n, is_err, r as nat, u128::MAX as nat);
            }
            r
        };
        if is_err == 0 {
            Ok(res as u128)
        } else {
            error()
        }
    }
}

impl FromRadix10Checked for u128 {
    open spec fn spec_from_radix_10(s: Seq<u8>) -> Result<u128, ()> {
        match unsigned_checked(s, true, u128::MAX as nat) {
            Some(v) => Ok(v as u128),
            None => Err(()),
        }
    }

    fn from_radix_10_checked(mut s: &[u8]) -> (r: Result<u128, ()>) {
        if !s.is_empty() && s[0] == PLUS {
            parse_plus_sign(&mut s);
        }
        Self::from_radix_10_checked_no_plus(s)
    }
}

impl FromRadix10CheckedNoPlus for u64 {
    open spec fn spec_from_radix_10_no_plus(s: Seq<u8>) -> Result<u64, ()> {
        match unsigned_checked(s, false, u64::MAX as nat) {
            Some(v) => Ok(v as u64),
            None => Err(()),
        }
    }

    fn from_radix_10_checked_no_plus(mut s: &[u8]) -> (r: Result<u64, ()>) {
        let ghost orig = s@;
        let mut is_err: u64 = 0;
        proof {
            lemma_pow10_small();
            assert(zeros(0) + orig =~= orig);
            assert(orig.subrange(0, orig.len() as int) =~= orig);
        }
        let res = if s.len() == 1 {
            let r = parse_1(&mut s, &mut is_err) as u64;
            proof {
                lemma_chunk_within(orig, 0, is_err, r as nat, u64::MAX as nat);
                lemma_accepts_stripped(orig, orig, 0, is_err, r as nat, u64::MAX as nat);
            }
            r
        } else if s.len() == 2 {
            let r = parse_2(&mut s, &mut is_err) as u64;
            proof {
                lemma_chunk_within(orig, 0, is_err, r as nat, u64::MAX as nat);
                lemma_accepts_stripped(orig, orig, 0, is_err, r as nat, u64::MAX as nat);
            }
            r
        } else if 3 <= s.len() && s.len() <= 20 {
            let r = parse_u64(&mut s, &mut is_err);
            proof {
                lemma_accepts_stripped(orig, orig, 0, is_err, r as nat, u64::MAX as nat);
            }
            r
        } else {
            strip_leading_zeros(&mut s, 20);
            let ghost n = (orig.len() - s@.len()) as nat;
            if s.is_empty() || s.len() > 20 {
                proof {
                    
                    lemma_refuses_stripped(orig, s@, n, 20, u64::MAX as nat);
                }
                return error();
            }
            let ghost t = s@;
            let r = parse_u64(&mut s, &mut is_err);
            proof {
                lemma_accepts_stripped(orig, t, n, is_err, r as nat, u64::MAX as nat);
            }
            r
        };
        if is_err == 0 {
            Ok(res as u64)
        } else {
            error()
        }
    }
}

impl FromRadix10Checked for u64 {
    open spec fn spec_from_radix_10(s: Seq<u8>) -> Result<u64, ()> {
        match unsigned_checked(s, true, u64::MAX as nat) {
            Some(v) => Ok(v as u64),
            None => Err(()),
        }
    }

    fn from_radix_10_checked(mut s: &[u8]) -> (r: Result<u64, ()>) {
        if !s.is_empty() && s[0] == PLUS {
            parse_plus_sign(&mut s);
        }
        Self::from_radix_10_checked_no_plus(s)
    }
}

impl FromRadix10CheckedNoPlus for u32 {
    open spec fn spec_from_radix_10_no_plus(s: Seq<u8>) -> Result<u32, ()> {
        match unsigned_checked(s, false, u32::MAX as nat) {
            Some(v) => Ok(v as u32),
            None => Err(()),
        }
    }

    fn from_radix_10_checked_no_plus(mut s: &[u8]) -> (r: Result<u32, ()>) {
        let ghost orig = s@;
        let mut is_err: u64 = 0;
        proof {
            lemma_pow10_small();
            assert(zeros(0) + orig =~= orig);
            assert(orig.subrange(0, orig.len() as int) =~= orig);
        }
        let res = if s.len() == 1 {
            let r = parse_1(&mut s, &mut is_err) as u64;
            proof {
                lemma_chunk_within(orig, 0, is_err, r as nat, u32::MAX as nat);
                lemma_accepts_stripped(orig, orig, 0, is_err, r as nat, u32::MAX as nat);
            }
            r
        } else if s.len() == 2 {
            let r = parse_2(&mut s, &mut is_err) as u64;
            proof {
                lemma_chunk_within(orig, 0, is_err, r as nat, u32::MAX as nat);
                lemma_accepts_stripped(orig, orig, 0, is_err, r as nat, u32::MAX as nat);
            }
            r
        } else if 3 <= s.len() && s.len() <= 10 {
            let r = parse_u32(&mut s, &mut is_err);
            proof {
                lemma_accepts_stripped(orig, orig, 0, is_err, r as nat, u32::MAX as nat);
            }
            r
        } else {
            strip_leading_zeros(&mut s, 10);
            let ghost n = (orig.len() - s@.len()) as nat;
            if s.is_empty() || s.len() > 10 {
                proof {
                    reveal_with_fuel(pow10, 11);
                    lemma_refuses_stripped(orig, s@, n, 10, u32::MAX as nat);
                }
                return error();
            }
            let ghost t = s@;
            let r = parse_u32(&mut s, &mut is_err);
            proof {
                lemma_accepts_stripped(orig, t, n, is_err, r as nat, u32::MAX as nat);
            }
            r
        };
        if is_err == 0 {
            Ok(res as u32)
        } else {
            error()
        }
    }
}

impl FromRadix10Checked for u32 {
    open spec fn spec_from_radix_10(s: Seq<u8>) -> Result<u32, ()> {
        match unsigned_checked(s, true, u32::MAX as nat) {
            Some(v) => Ok(v as u32),
            None => Err(()),
        }
    }

    fn from_radix_10_checked(mut s: &[u8]) -> (r: Result<u32, ()>) {
        if !s.is_empty() && s[0] == PLUS {
            parse_plus_sign(&mut s);
        }
        Self::from_radix_10_checked_no_plus(s)
    }
}

impl FromRadix10CheckedNoPlus for u16 {
    open spec fn spec_from_radix_10_no_plus(s: Seq<u8>) -> Result<u16, ()> {
        match unsigned_checked(s, false, u16::MAX as nat) {
            Some(v) => Ok(v as u16),
            None => Err(()),
        }
    }

    fn from_radix_10_checked_no_plus(mut s: &[u8]) -> (r: Result<u16, ()>) {
        let ghost orig = s@;
        let mut is_err: u64 = 0;
        proof {
            lemma_pow10_small();
            assert(zeros(0) + orig =~= orig);
            assert(orig.subrange(0, orig.len() as int) =~= orig);
        }
        let res = if s.len() == 1 {
            let r = parse_1(&mut s, &mut is_err) as u64;
            proof {
                lemma_chunk_within(orig, 0, is_err, r as nat, u16::MAX as nat);
                lemma_accepts_stripped(orig, orig, 0, is_err, r as nat, u16::MAX as nat);
            }
            r
        } else if s.len() == 2 {
            let r = parse_2(&mut s, &mut is_err) as u64;
            proof {
                lemma_chunk_within(orig, 0, is_err, r as nat, u16::MAX as nat);
                lemma_accepts_stripped(orig, orig, 0, is_err, r as nat, u16::MAX as nat);
            }
            r
        } else if 3 <= s.len() && s.len() <= 5 {
            let r = parse_u16(&mut s, &mut is_err);
            proof {
                lemma_accepts_stripped(orig, orig, 0, is_err, r as nat, u16::MAX as nat);
            }
            r
        } else {
            strip_leading_zeros(&mut s, 5);
            let ghost n = (orig.len() - s@.len()) as nat;
            if s.is_empty() || s.len() > 5 {
                proof {
                    reveal_with_fuel(pow10, 6);
                    lemma_refuses_stripped(orig, s@, n, 5, u16::MAX as nat);
                }
                return error();
            }
            let ghost t = s@;
            let r = parse_u16(&mut s, &mut is_err);
            proof {
                lemma_accepts_stripped(orig, t, n, is_err, r as nat, u16::MAX as nat);
            }
            r
        };
        if is_err == 0 {
            Ok(res as u16)
        } else {
            error()
        }
    }
}

impl FromRadix10Checked for u16 {
    open spec fn spec_from_radix_10(s: Seq<u8>) -> Result<u16, ()> {
        match unsigned_checked(s, true, u16::MAX as nat) {
            Some(v) => Ok(v as u16),
            None => Err(()),
        }
    }

    fn from_radix_10_checked(mut s: &[u8]) -> (r: Result<u16, ()>) {
        if !s.is_empty() && s[0] == PLUS {
            parse_plus_sign(&mut s);
        }
        Self::from_radix_10_checked_no_plus(s)
    }
}

impl FromRadix10CheckedNoPlus for u8 {
    open spec fn spec_from_radix_10_no_plus(s: Seq<u8>) -> Result<u8, ()> {
        match unsigned_checked(s, false, u8::MAX as nat) {
            Some(v) => Ok(v as u8),
            None => Err(()),
        }
    }

    fn from_radix_10_checked_no_plus(mut s: &[u8]) -> (r: Result<u8, ()>) {
        let ghost orig = s@;
        let mut is_err: u64 = 0;
        proof {
            lemma_pow10_small();
            assert(zeros(0) + orig =~= orig);
            assert(orig.subrange(0, orig.len() as int) =~= orig);
        }
        let res = if s.len() == 1 {
            let r = parse_1(&mut s, &mut is_err) as u64;
            proof {
                lemma_chunk_within(orig, 0, is_err, r as nat, u8::MAX as nat);
                lemma_accepts_stripped(orig, orig, 0, is_err, r as nat, u8::MAX as nat);
            }
            r
        } else if s.len() == 2 {
            let r = parse_2(&mut s, &mut is_err) as u64;
            proof {
                lemma_chunk_within(orig, 0, is_err, r as nat, u8::MAX as nat);
                lemma_accepts_stripped(orig, orig, 0, is_err, r as nat, u8::MAX as nat);
            }
            r
        } else if 3 <= s.len() && s.len() <= 3 {
            let r = parse_u8(&mut s, &mut is_err);
            proof {
                lemma_accepts_stripped(orig, orig, 0, is_err, r as nat, u8::MAX as nat);
            }
            r
        } else {
            strip_leading_zeros(&mut s, 3);
            let ghost n = (orig.len() - s@.len()) as nat;
            if s.is_empty() || s.len() > 3 {
                proof {
                    
                    lemma_refuses_stripped(orig, s@, n, 3, u8::MAX as nat);
                }
                return error();
            }
            let ghost t = s@;
            let r = parse_u8(&mut s, &mut is_err);
            proof {
                lemma_accepts_stripped(orig, t, n, is_err, r as nat, u8::MAX as nat);
            }
            r
        };
        if is_err == 0 {
            Ok(res as u8)
        } else {
            error()
        }
    }
}

impl FromRadix10Checked for u8 {
    open spec fn spec_from_radix_10(s: Seq<u8>) -> Result<u8, ()> {
        match unsigned_checked(s, true, u8::MAX as nat) {
            Some(v) => Ok(v as u8),
            None => Err(()),
        }
    }

    fn from_radix_10_checked(mut s: &[u8]) -> (r: Result<u8, ()>) {
        if !s.is_empty() && s[0] == PLUS {
            parse_plus_sign(&mut s);
        }
        Self::from_radix_10_checked_no_plus(s)
    }
}

} // verus!
