//! Signed targets: a digit parser per width, the sign, and the length dispatch around them.
use vstd::prelude::*;

use crate::bits::{
    lemma_apply_sign_128, lemma_apply_sign_16, lemma_apply_sign_32, lemma_apply_sign_64,
    lemma_apply_sign_8, lemma_or_zero,
};
use crate::fold::{
    lemma_chunk_within, lemma_fold_exact_128, lemma_narrow, lemma_within_done, lemma_within_start,
    lemma_within_step, maybe_parse_1, maybe_parse_2, maybe_parse_4, maybe_parse_8, parse_3, parse_5,
    parse_plus_sign, parse_up_to_38, strip_leading_zeros,
};
use crate::kernels::{parse_1, parse_2, parse_4};
use crate::model::{
    all_digits, is_digit, lemma_decimal_1, lemma_decimal_bound, lemma_decimal_split,
    lemma_pow10_mono, lemma_pow10_small, lemma_signed_accepts, lemma_signed_refuses,
    magnitude_bound, pow10, signed_checked, signed_parsed, split_sign, zeros, MINUS, PLUS,
};
use crate::{error, FromRadix10Checked};

verus! {

/// Gives the magnitude `res` the sign `sign` by the branchless two's-complement step.
fn apply_sign_i8(res: u64, sign: i8) -> (r: i8)
    requires
        sign == 1 || sign == -1,
    ensures
        sign == 1 && res <= i8::MAX ==> r == res,
        sign == -1 && res <= -(i8::MIN as int) ==> r == -(res as int),
{
    let sign_mask = sign >> 7;  // 0 or all-ones
    proof {
        lemma_apply_sign_8(res, sign);
    }
    ((res as i8) ^ sign_mask).wrapping_add(sign_mask & 1)
}

/// Gives the magnitude `res` the sign `sign` by the branchless two's-complement step.
fn apply_sign_i16(res: u64, sign: i16) -> (r: i16)
    requires
        sign == 1 || sign == -1,
    ensures
        sign == 1 && res <= i16::MAX ==> r == res,
        sign == -1 && res <= -(i16::MIN as int) ==> r == -(res as int),
{
    let sign_mask = sign >> 15;  // 0 or all-ones
    proof {
        lemma_apply_sign_16(res, sign);
    }
    ((res as i16) ^ sign_mask).wrapping_add(sign_mask & 1)
}

/// Gives the magnitude `res` the sign `sign` by the branchless two's-complement step.
fn apply_sign_i32(res: u64, sign: i32) -> (r: i32)
    requires
        sign == 1 || sign == -1,
    ensures
        sign == 1 && res <= i32::MAX ==> r == res,
        sign == -1 && res <= -(i32::MIN as int) ==> r == -(res as int),
{
    let sign_mask = sign >> 31;  // 0 or all-ones
    proof {
        lemma_apply_sign_32(res, sign);
    }
    ((res as i32) ^ sign_mask).wrapping_add(sign_mask & 1)
}

/// Gives the magnitude `res` the sign `sign` by the branchless two's-complement step.
fn apply_sign_i64(res: u64, sign: i64) -> (r: i64)
    requires
        sign == 1 || sign == -1,
    ensures
        sign == 1 && res <= i64::MAX ==> r == res,
        sign == -1 && res <= -(i64::MIN as int) ==> r == -(res as int),
{
    let sign_mask = sign >> 63;  // 0 or all-ones
    proof {
        lemma_apply_sign_64(res, sign);
    }
    ((res as i64) ^ sign_mask).wrapping_add(sign_mask & 1)
}

/// Gives the magnitude `res` the sign `sign` by the branchless two's-complement step.
fn apply_sign_i128(res: u128, sign: i128) -> (r: i128)
    requires
        sign == 1 || sign == -1,
    ensures
        sign == 1 && res <= i128::MAX ==> r == res,
        sign == -1 && res <= -(i128::MIN as int) ==> r == -(res as int),
{
    let sign_mask = sign >> 127;  // 0 or all-ones
    proof {
        lemma_apply_sign_128(res, sign);
    }
    ((res as i128) ^ sign_mask).wrapping_add(sign_mask & 1)
}

/// Parses 1 to 3 digits with the sign `sign`, flagging a magnitude beyond the range of `i8`.
fn parse_i8(s: &mut &[u8], is_err: &mut u64, sign: i8) -> (r: i8)
    requires
        1 <= old(s)@.len() <= 3,
        sign == 1 || sign == -1,
    ensures
        final(s)@.len() == 0,
        signed_parsed(
            old(s)@,
            *old(is_err),
            *final(is_err),
            r as int,
            sign as int,
            magnitude_bound(sign as int, i8::MIN as int, i8::MAX as int),
        ),
{
    let ghost orig = s@;
    let ghost e0 = *is_err;
    let ghost bound = magnitude_bound(sign as int, i8::MIN as int, i8::MAX as int);
    proof {
        lemma_pow10_small();
        assert(orig.subrange(0, orig.len() as int) =~= orig);
    }
    let mut res: u64 = 0;
    proof {
        lemma_within_start(orig, e0, u64::MAX as nat);
    }
    let ghost (r1, e1, h1) = (s@, *is_err, res);
    maybe_parse_2(s, is_err, &mut res);
    proof {
        lemma_within_step(
            orig,
            r1,
            s@,
            2,
            e0,
            e1,
            *is_err,
            h1 as nat,
            res as nat,
            19,
            u64::MAX as nat,
        );
    }
    let ghost (r2, e2, h2) = (s@, *is_err, res);
    maybe_parse_1(s, is_err, &mut res);
    proof {
        lemma_within_step(
            orig,
            r2,
            s@,
            1,
            e0,
            e2,
            *is_err,
            h2 as nat,
            res as nat,
            19,
            u64::MAX as nat,
        );
    }
    proof {
        lemma_within_done(orig, s@, e0, *is_err, res as nat, u64::MAX as nat);
    }
    let over: u64 = if sign == -1 {
        (res > 128) as u64
    } else {
        (res > 127) as u64
    };
    proof {
        lemma_narrow(orig, e0, *is_err, over, res, bound);
    }
    *is_err = *is_err | over;
    apply_sign_i8(res, sign)
}

/// Parses 1 to 5 digits with the sign `sign`, flagging a magnitude beyond the range of `i16`.
fn parse_i16(s: &mut &[u8], is_err: &mut u64, sign: i16) -> (r: i16)
    requires
        1 <= old(s)@.len() <= 5,
        sign == 1 || sign == -1,
    ensures
        final(s)@.len() == 0,
        signed_parsed(
            old(s)@,
            *old(is_err),
            *final(is_err),
            r as int,
            sign as int,
            magnitude_bound(sign as int, i16::MIN as int, i16::MAX as int),
        ),
{
    let ghost orig = s@;
    let ghost e0 = *is_err;
    let ghost bound = magnitude_bound(sign as int, i16::MIN as int, i16::MAX as int);
    proof {
        lemma_pow10_small();
        assert(orig.subrange(0, orig.len() as int) =~= orig);
    }
    let mut res: u64 = 0;
    proof {
        lemma_within_start(orig, e0, u64::MAX as nat);
    }
    let ghost (r1, e1, h1) = (s@, *is_err, res);
    maybe_parse_4(s, is_err, &mut res);
    proof {
        lemma_within_step(
            orig,
            r1,
            s@,
            4,
            e0,
            e1,
            *is_err,
            h1 as nat,
            res as nat,
            19,
            u64::MAX as nat,
        );
    }
    let ghost (r2, e2, h2) = (s@, *is_err, res);
    maybe_parse_2(s, is_err, &mut res);
    proof {
        lemma_within_step(
            orig,
            r2,
            s@,
            2,
            e0,
            e2,
            *is_err,
            h2 as nat,
            res as nat,
            19,
            u64::MAX as nat,
        );
    }
    let ghost (r3, e3, h3) = (s@, *is_err, res);
    maybe_parse_1(s, is_err, &mut res);
    proof {
        lemma_within_step(
            orig,
            r3,
            s@,
            1,
            e0,
            e3,
            *is_err,
            h3 as nat,
            res as nat,
            19,
            u64::MAX as nat,
        );
    }
    proof {
        lemma_within_done(orig, s@, e0, *is_err, res as nat, u64::MAX as nat);
    }
    let over: u64 = if sign == -1 {
        (res > 32768) as u64
    } else {
        (res > 32767) as u64
    };
    proof {
        lemma_narrow(orig, e0, *is_err, over, res, bound);
    }
    *is_err = *is_err | over;
    apply_sign_i16(res, sign)
}

/// Parses 3 to 10 digits with the sign `sign`, flagging a magnitude beyond the range of `i32`.
fn parse_i32(s: &mut &[u8], is_err: &mut u64, sign: i32) -> (r: i32)
    requires
        3 <= old(s)@.len() <= 10,
        sign == 1 || sign == -1,
    ensures
        final(s)@.len() == 0,
        signed_parsed(
            old(s)@,
            *old(is_err),
            *final(is_err),
            r as int,
            sign as int,
            magnitude_bound(sign as int, i32::MIN as int, i32::MAX as int),
        ),
{
    let ghost orig = s@;
    let ghost e0 = *is_err;
    let ghost bound = magnitude_bound(sign as int, i32::MIN as int, i32::MAX as int);
    proof {
        lemma_pow10_small();
        assert(orig.subrange(0, orig.len() as int) =~= orig);
    }
    if s.len() == 3 {
        let x = parse_3(s, is_err);
        proof {
            reveal_with_fuel(pow10, 6);
            lemma_chunk_within(orig, e0, *is_err, x as nat, bound);
        }
        return apply_sign_i32(x, sign);
    }
    if s.len() == 4 {
        let x = parse_4(s, is_err);
        proof {
            reveal_with_fuel(pow10, 6);
            lemma_chunk_within(orig, e0, *is_err, x as nat, bound);
        }
        return apply_sign_i32(x, sign);
    }
    if s.len() == 5 {
        let x = parse_5(s, is_err);
        proof {
            reveal_with_fuel(pow10, 6);
            lemma_chunk_within(orig, e0, *is_err, x as nat, bound);
        }
        return apply_sign_i32(x, sign);
    }
    let mut res: u64 = 0;
    proof {
        lemma_within_start(orig, e0, u64::MAX as nat);
    }
    let ghost (r1, e1, h1) = (s@, *is_err, res);
    maybe_parse_8(s, is_err, &mut res);
    proof {
        lemma_within_step(
            orig,
            r1,
            s@,
            8,
            e0,
            e1,
            *is_err,
            h1 as nat,
            res as nat,
            19,
            u64::MAX as nat,
        );
    }
    let ghost (r2, e2, h2) = (s@, *is_err, res);
    maybe_parse_4(s, is_err, &mut res);
    proof {
        lemma_within_step(
            orig,
            r2,
            s@,
            4,
            e0,
            e2,
            *is_err,
            h2 as nat,
            res as nat,
            19,
            u64::MAX as nat,
        );
    }
    let ghost (r3, e3, h3) = (s@, *is_err, res);
    maybe_parse_2(s, is_err, &mut res);
    proof {
        lemma_within_step(
            orig,
            r3,
            s@,
            2,
            e0,
            e3,
            *is_err,
            h3 as nat,
            res as nat,
            19,
            u64::MAX as nat,
        );
    }
    let ghost (r4, e4, h4) = (s@, *is_err, res);
    maybe_parse_1(s, is_err, &mut res);
    proof {
        lemma_within_step(
            orig,
            r4,
            s@,
            1,
            e0,
            e4,
            *is_err,
            h4 as nat,
            res as nat,
            19,
            u64::MAX as nat,
        );
    }
    proof {
        lemma_within_done(orig, s@, e0, *is_err, res as nat, u64::MAX as nat);
    }
    let over: u64 = if sign == -1 {
        (res > 2147483648) as u64
    } else {
        (res > 2147483647) as u64
    };
    proof {
        lemma_narrow(orig, e0, *is_err, over, res, bound);
    }
    *is_err = *is_err | over;
    apply_sign_i32(res, sign)
}

/// Parses 3 to 19 digits with the sign `sign`, flagging a magnitude beyond the range of `i64`.
fn parse_i64(s: &mut &[u8], is_err: &mut u64, sign: i64) -> (r: i64)
    requires
        3 <= old(s)@.len() <= 19,
        sign == 1 || sign == -1,
    ensures
        final(s)@.len() == 0,
        signed_parsed(
            old(s)@,
            *old(is_err),
            *final(is_err),
            r as int,
            sign as int,
            magnitude_bound(sign as int, i64::MIN as int, i64::MAX as int),
        ),
{
    let ghost orig = s@;
    let ghost e0 = *is_err;
    let ghost bound = magnitude_bound(sign as int, i64::MIN as int, i64::MAX as int);
    proof {
        lemma_pow10_small();
        assert(orig.subrange(0, orig.len() as int) =~= orig);
    }
    if s.len() == 3 {
        let x = parse_3(s, is_err);
        proof {
            lemma_pow10_mono(5, 19);
            lemma_chunk_within(orig, e0, *is_err, x as nat, bound);
        }
        return apply_sign_i64(x, sign);
    }
    if s.len() == 4 {
        let x = parse_4(s, is_err);
        proof {
            lemma_pow10_mono(5, 19);
            lemma_chunk_within(orig, e0, *is_err, x as nat, bound);
        }
        return apply_sign_i64(x, sign);
    }
    if s.len() == 5 {
        let x = parse_5(s, is_err);
        proof {
            lemma_pow10_mono(5, 19);
            lemma_chunk_within(orig, e0, *is_err, x as nat, bound);
        }
        return apply_sign_i64(x, sign);
    }
    let mut res: u64 = 0;
    proof {
        lemma_within_start(orig, e0, u64::MAX as nat);
    }
    let ghost (r1, e1, h1) = (s@, *is_err, res);
    maybe_parse_8(s, is_err, &mut res);
    proof {
        lemma_within_step(
            orig,
            r1,
            s@,
            8,
            e0,
            e1,
            *is_err,
            h1 as nat,
            res as nat,
            19,
            u64::MAX as nat,
        );
    }
    let ghost (r2, e2, h2) = (s@, *is_err, res);
    maybe_parse_8(s, is_err, &mut res);
    proof {
        lemma_within_step(
            orig,
            r2,
            s@,
            8,
            e0,
            e2,
            *is_err,
            h2 as nat,
            res as nat,
            19,
            u64::MAX as nat,
        );
    }
    let ghost (r3, e3, h3) = (s@, *is_err, res);
    maybe_parse_4(s, is_err, &mut res);
    proof {
        lemma_within_step(
            orig,
            r3,
            s@,
            4,
            e0,
            e3,
            *is_err,
            h3 as nat,
            res as nat,
            19,
            u64::MAX as nat,
        );
    }
    let ghost (r4, e4, h4) = (s@, *is_err, res);
    maybe_parse_2(s, is_err, &mut res);
    proof {
        lemma_within_step(
            orig,
            r4,
            s@,
            2,
            e0,
            e4,
            *is_err,
            h4 as nat,
            res as nat,
            19,
            u64::MAX as nat,
        );
    }
    let ghost (r5, e5, h5) = (s@, *is_err, res);
    maybe_parse_1(s, is_err, &mut res);
    proof {
        lemma_within_step(
            orig,
            r5,
            s@,
            1,
            e0,
            e5,
            *is_err,
            h5 as nat,
            res as nat,
            19,
            u64::MAX as nat,
        );
    }
    proof {
        lemma_within_done(orig, s@, e0, *is_err, res as nat, u64::MAX as nat);
    }
    let over: u64 = if sign == -1 {
        (res > 9_223_372_036_854_775_808) as u64
    } else {
        (res > 9_223_372_036_854_775_807) as u64
    };
    proof {
        lemma_narrow(orig, e0, *is_err, over, res, bound);
    }
    *is_err = *is_err | over;
    apply_sign_i64(res, sign)
}

/// Parses 3 to 39 digits with the sign `sign`, flagging a magnitude beyond the range
/// of `i128`.
fn parse_i128(s: &mut &[u8], is_err: &mut u64, sign: i128) -> (r: i128)
    requires
        3 <= old(s)@.len() <= 39,
        sign == 1 || sign == -1,
    ensures
        final(s)@.len() == 0,
        signed_parsed(
            old(s)@,
            *old(is_err),
            *final(is_err),
            r as int,
            sign as int,
            magnitude_bound(sign as int, i128::MIN as int, i128::MAX as int),
        ),
{
    let ghost orig = s@;
    let ghost e0 = *is_err;
    let ghost bound = magnitude_bound(sign as int, i128::MIN as int, i128::MAX as int);
    proof {
        lemma_pow10_small();
        assert(orig.subrange(0, orig.len() as int) =~= orig);
    }
    if s.len() == 3 {
        let x = parse_3(s, is_err);
        proof {
            lemma_pow10_mono(5, 38);
            lemma_chunk_within(orig, e0, *is_err, x as nat, bound);
        }
        return apply_sign_i128(x as u128, sign);
    }
    if s.len() == 4 {
        let x = parse_4(s, is_err);
        proof {
            lemma_pow10_mono(5, 38);
            lemma_chunk_within(orig, e0, *is_err, x as nat, bound);
        }
        return apply_sign_i128(x as u128, sign);
    }
    if s.len() == 5 {
        let x = parse_5(s, is_err);
        proof {
            lemma_pow10_mono(5, 38);
            lemma_chunk_within(orig, e0, *is_err, x as nat, bound);
        }
        return apply_sign_i128(x as u128, sign);
    }
    let mut res = parse_up_to_38(s, is_err);
    let ghost pos = orig.len() - s@.len();
    proof {
        lemma_pow10_mono(pos as nat, 38);
        lemma_chunk_within(orig.subrange(0, pos), e0, *is_err, res as nat, u128::MAX as nat);
    }
    if !s.is_empty() {
        let ghost rest = s@;
        let x = parse_1(s, is_err);
        let ghost e2 = *is_err;
        let over: u64 = if sign == -1 {
            ((res > 17014118346046923173168730371588410572) || (res
                >= 17014118346046923173168730371588410572 && x > 8)) as u64
        } else {
            ((res > 17014118346046923173168730371588410572) || (res
                >= 17014118346046923173168730371588410572 && x > 7)) as u64
        };
        proof {
            lemma_or_zero(e2, over);
            let c = rest.subrange(0, 1);
            assert(orig.subrange(pos, pos + 1) =~= c);
            lemma_decimal_split(orig, pos);
            lemma_decimal_1(c);
            if e2 == 0 {
                assert(is_digit(c[0]));
            }
            if e2 == 0 && over == 0 {
                lemma_fold_exact_128(res, 10, x as u128);
            }
        }
        *is_err = *is_err | over;
        res = res.wrapping_mul(10);
        res = res.wrapping_add(x as u128);
    } else {
        // At most 38 digits went into `res`: below `10^38`, within range either way.
        proof {
            assert(orig.subrange(0, pos) =~= orig);
            if all_digits(orig) {
                lemma_decimal_bound(orig);
                lemma_pow10_mono(orig.len(), 38);
            }
        }
    }
    apply_sign_i128(res, sign)
}

impl FromRadix10Checked for i8 {
    open spec fn spec_from_radix_10(s: Seq<u8>) -> Result<i8, ()> {
        match signed_checked(s, i8::MIN as int, i8::MAX as int) {
            Some(v) => Ok(v as i8),
            None => Err(()),
        }
    }

    fn from_radix_10_checked(mut s: &[u8]) -> (r: Result<i8, ()>) {
        let ghost orig = s@;
        let mut sign: i8 = 1;
        if !s.is_empty() {
            if s[0] == MINUS {
                sign = -1;
                s = &s[1..s.len()];
            } else if s[0] == PLUS {
                parse_plus_sign(&mut s);
            }
        }
        let ghost body = s@;
        let ghost bound = magnitude_bound(sign as int, i8::MIN as int, i8::MAX as int);
        let mut is_err: u64 = 0;
        proof {
            assert(split_sign(orig, body, sign as int)) by {
                if orig.len() > 0 && (orig[0] == MINUS || orig[0] == PLUS) {
                    assert(body =~= orig.drop_first());
                }
            }
            lemma_pow10_small();
            assert(zeros(0) + body =~= body);
            assert(body.subrange(0, body.len() as int) =~= body);
        }
        let res = if s.len() == 1 {
            let x = parse_1(&mut s, &mut is_err);
            proof {
                lemma_chunk_within(body, 0, is_err, x as nat, bound);
            }
            let r = apply_sign_i8(x, sign);
            proof {
                lemma_signed_accepts(
                    orig,
                    body,
                    body,
                    0,
                    sign as int,
                    is_err,
                    r as int,
                    i8::MIN as int,
                    i8::MAX as int,
                );
            }
            r
        } else if s.len() == 2 {
            let x = parse_2(&mut s, &mut is_err);
            proof {
                lemma_chunk_within(body, 0, is_err, x as nat, bound);
            }
            let r = apply_sign_i8(x, sign);
            proof {
                lemma_signed_accepts(
                    orig,
                    body,
                    body,
                    0,
                    sign as int,
                    is_err,
                    r as int,
                    i8::MIN as int,
                    i8::MAX as int,
                );
            }
            r
        } else if 3 <= s.len() && s.len() <= 3 {
            let r = parse_i8(&mut s, &mut is_err, sign);
            proof {
                lemma_signed_accepts(
                    orig,
                    body,
                    body,
                    0,
                    sign as int,
                    is_err,
                    r as int,
                    i8::MIN as int,
                    i8::MAX as int,
                );
            }
            r
        } else {
            strip_leading_zeros(&mut s, 3);
            let ghost n = (body.len() - s@.len()) as nat;
            if s.is_empty() || s.len() > 3 {
                proof {
                    
                    lemma_signed_refuses(
                        orig,
                        body,
                        s@,
                        n,
                        sign as int,
                        3,
                        i8::MIN as int,
                        i8::MAX as int,
                    );
                }
                return error();
            }
            let ghost t = s@;
            let r = parse_i8(&mut s, &mut is_err, sign);
            proof {
                lemma_signed_accepts(
                    orig,
                    body,
                    t,
                    n,
                    sign as int,
                    is_err,
                    r as int,
                    i8::MIN as int,
                    i8::MAX as int,
                );
            }
            r
        };
        if is_err == 0 {
            Ok(res)
        } else {
            error()
        }
    }
}

impl FromRadix10Checked for i16 {
    open spec fn spec_from_radix_10(s: Seq<u8>) -> Result<i16, ()> {
        match signed_checked(s, i16::MIN as int, i16::MAX as int) {
            Some(v) => Ok(v as i16),
            None => Err(()),
        }
    }

    fn from_radix_10_checked(mut s: &[u8]) -> (r: Result<i16, ()>) {
        let ghost orig = s@;
        let mut sign: i16 = 1;
        if !s.is_empty() {
            if s[0] == MINUS {
                sign = -1;
                s = &s[1..s.len()];
            } else if s[0] == PLUS {
                parse_plus_sign(&mut s);
            }
        }
        let ghost body = s@;
        let ghost bound = magnitude_bound(sign as int, i16::MIN as int, i16::MAX as int);
        let mut is_err: u64 = 0;
        proof {
            assert(split_sign(orig, body, sign as int)) by {
                if orig.len() > 0 && (orig[0] == MINUS || orig[0] == PLUS) {
                    assert(body =~= orig.drop_first());
                }
            }
            lemma_pow10_small();
            assert(zeros(0) + body =~= body);
            assert(body.subrange(0, body.len() as int) =~= body);
        }
        let res = if s.len() == 1 {
            let x = parse_1(&mut s, &mut is_err);
            proof {
                lemma_chunk_within(body, 0, is_err, x as nat, bound);
            }
            let r = apply_sign_i16(x, sign);
            proof {
                lemma_signed_accepts(
                    orig,
                    body,
                    body,
                    0,
                    sign as int,
                    is_err,
                    r as int,
                    i16::MIN as int,
                    i16::MAX as int,
                );
            }
            r
        } else if s.len() == 2 {
            let x = parse_2(&mut s, &mut is_err);
            proof {
                lemma_chunk_within(body, 0, is_err, x as nat, bound);
            }
            let r = apply_sign_i16(x, sign);
            proof {
                lemma_signed_accepts(
                    orig,
                    body,
                    body,
                    0,
                    sign as int,
                    is_err,
                    r as int,
                    i16::MIN as int,
                    i16::MAX as int,
                );
            }
            r
        } else if 3 <= s.len() && s.len() <= 5 {
            let r = parse_i16(&mut s, &mut is_err, sign);
            proof {
                lemma_signed_accepts(
                    orig,
                    body,
                    body,
                    0,
                    sign as int,
                    is_err,
                    r as int,
                    i16::MIN as int,
                    i16::MAX as int,
                );
            }
            r
        } else {
            strip_leading_zeros(&mut s, 5);
            let ghost n = (body.len() - s@.len()) as nat;
            if s.is_empty() || s.len() > 5 {
                proof {
                    reveal_with_fuel(pow10, 6);
                    lemma_signed_refuses(
                        orig,
                        body,
                        s@,
                        n,
                        sign as int,
                        5,
                        i16::MIN as int,
                        i16::MAX as int,
                    );
                }
                return error();
            }
            let ghost t = s@;
            let r = parse_i16(&mut s, &mut is_err, sign);
            proof {
                lemma_signed_accepts(
                    orig,
                    body,
                    t,
                    n,
                    sign as int,
                    is_err,
                    r as int,
                    i16::MIN as int,
                    i16::MAX as int,
                );
            }
            r
        };
        if is_err == 0 {
            Ok(res)
        } else {
            error()
        }
    }
}

impl FromRadix10Checked for i32 {
    open spec fn spec_from_radix_10(s: Seq<u8>) -> Result<i32, ()> {
        match signed_checked(s, i32::MIN as int, i32::MAX as int) {
            Some(v) => Ok(v as i32),
            None => Err(()),
        }
    }

    fn from_radix_10_checked(mut s: &[u8]) -> (r: Result<i32, ()>) {
        let ghost orig = s@;
        let mut sign: i32 = 1;
        if !s.is_empty() {
            if s[0] == MINUS {
                sign = -1;
                s = &s[1..s.len()];
            } else if s[0] == PLUS {
                parse_plus_sign(&mut s);
            }
        }
        let ghost body = s@;
        let ghost bound = magnitude_bound(sign as int, i32::MIN as int, i32::MAX as int);
        let mut is_err: u64 = 0;
        proof {
            assert(split_sign(orig, body, sign as int)) by {
                if orig.len() > 0 && (orig[0] == MINUS || orig[0] == PLUS) {
                    assert(body =~= orig.drop_first());
                }
            }
            lemma_pow10_small();
            assert(zeros(0) + body =~= body);
            assert(body.subrange(0, body.len() as int) =~= body);
        }
        let res = if s.len() == 1 {
            let x = parse_1(&mut s, &mut is_err);
            proof {
                lemma_chunk_within(body, 0, is_err, x as nat, bound);
            }
            let r = apply_sign_i32(x, sign);
            proof {
                lemma_signed_accepts(
                    orig,
                    body,
                    body,
                    0,
                    sign as int,
                    is_err,
                    r as int,
                    i32::MIN as int,
                    i32::MAX as int,
                );
            }
            r
        } else if s.len() == 2 {
            let x = parse_2(&mut s, &mut is_err);
            proof {
                lemma_chunk_within(body, 0, is_err, x as nat, bound);
            }
            let r = apply_sign_i32(x, sign);
            proof {
                lemma_signed_accepts(
                    orig,
                    body,
                    body,
                    0,
                    sign as int,
                    is_err,
                    r as int,
                    i32::MIN as int,
                    i32::MAX as int,
                );
            }
            r
        } else if 3 <= s.len() && s.len() <= 10 {
            let r = parse_i32(&mut s, &mut is_err, sign);
            proof {
                lemma_signed_accepts(
                    orig,
                    body,
                    body,
                    0,
                    sign as int,
                    is_err,
                    r as int,
                    i32::MIN as int,
                    i32::MAX as int,
                );
            }
            r
        } else {
            strip_leading_zeros(&mut s, 10);
            let ghost n = (body.len() - s@.len()) as nat;
            if s.is_empty() || s.len() > 10 {
                proof {
                    reveal_with_fuel(pow10, 11);
                    lemma_signed_refuses(
                        orig,
                        body,
                        s@,
                        n,
                        sign as int,
                        10,
                        i32::MIN as int,
                        i32::MAX as int,
                    );
                }
                return error();
            }
            let ghost t = s@;
            let r = parse_i32(&mut s, &mut is_err, sign);
            proof {
                lemma_signed_accepts(
                    orig,
                    body,
                    t,
                    n,
                    sign as int,
                    is_err,
                    r as int,
                    i32::MIN as int,
                    i32::MAX as int,
                );
            }
            r
        };
        if is_err == 0 {
            Ok(res)
        } else {
            error()
        }
    }
}

impl FromRadix10Checked for i64 {
    open spec fn spec_from_radix_10(s: Seq<u8>) -> Result<i64, ()> {
        match signed_checked(s, i64::MIN as int, i64::MAX as int) {
            Some(v) => Ok(v as i64),
            None => Err(()),
        }
    }

    fn from_radix_10_checked(mut s: &[u8]) -> (r: Result<i64, ()>) {
        let ghost orig = s@;
        let mut sign: i64 = 1;
        if !s.is_empty() {
            if s[0] == MINUS {
                sign = -1;
                s = &s[1..s.len()];
            } else if s[0] == PLUS {
                parse_plus_sign(&mut s);
            }
        }
        let ghost body = s@;
        let ghost bound = magnitude_bound(sign as int, i64::MIN as int, i64::MAX as int);
        let mut is_err: u64 = 0;
        proof {
            assert(split_sign(orig, body, sign as int)) by {
                if orig.len() > 0 && (orig[0] == MINUS || orig[0] == PLUS) {
                    assert(body =~= orig.drop_first());
                }
            }
            lemma_pow10_small();
            assert(zeros(0) + body =~= body);
            assert(body.subrange(0, body.len() as int) =~= body);
        }
        let res = if s.len() == 1 {
            let x = parse_1(&mut s, &mut is_err);
            proof {
                lemma_chunk_within(body, 0, is_err, x as nat, bound);
            }
            let r = apply_sign_i64(x, sign);
            proof {
                lemma_signed_accepts(
                    orig,
                    body,
                    body,
                    0,
                    sign as int,
                    is_err,
                    r as int,
                    i64::MIN as int,
                    i64::MAX as int,
                );
            }
            r
        } else if s.len() == 2 {
            let x = parse_2(&mut s, &mut is_err);
            proof {
                lemma_chunk_within(body, 0, is_err, x as nat, bound);
            }
            let r = apply_sign_i64(x, sign);
            proof {
                lemma_signed_accepts(
                    orig,
                    body,
                    body,
                    0,
                    sign as int,
                    is_err,
                    r as int,
                    i64::MIN as int,
                    i64::MAX as int,
                );
            }
            r
        } else if 3 <= s.len() && s.len() <= 19 {
            let r = parse_i64(&mut s, &mut is_err, sign);
            proof {
                lemma_signed_accepts(
                    orig,
                    body,
                    body,
                    0,
                    sign as int,
                    is_err,
                    r as int,
                    i64::MIN as int,
                    i64::MAX as int,
                );
            }
            r
        } else {
            strip_leading_zeros(&mut s, 19);
            let ghost n = (body.len() - s@.len()) as nat;
            if s.is_empty() || s.len() > 19 {
                proof {
                    
                    lemma_signed_refuses(
                        orig,
                        body,
                        s@,
                        n,
                        sign as int,
                        19,
                        i64::MIN as int,
                        i64::MAX as int,
                    );
                }
                return error();
            }
            let ghost t = s@;
            let r = parse_i64(&mut s, &mut is_err, sign);
            proof {
                lemma_signed_accepts(
                    orig,
                    body,
                    t,
                    n,
                    sign as int,
                    is_err,
                    r as int,
                    i64::MIN as int,
                    i64::MAX as int,
                );
            }
            r
        };
        if is_err == 0 {
            Ok(res)
        } else {
            error()
        }
    }
}

impl FromRadix10Checked for i128 {
    open spec fn spec_from_radix_10(s: Seq<u8>) -> Result<i128, ()> {
        match signed_checked(s, i128::MIN as int, i128::MAX as int) {
            Some(v) => Ok(v as i128),
            None => Err(()),
        }
    }

    fn from_radix_10_checked(mut s: &[u8]) -> (r: Result<i128, ()>) {
        let ghost orig = s@;
        let mut sign: i128 = 1;
        if !s.is_empty() {
            if s[0] == MINUS {
                sign = -1;
                s = &s[1..s.len()];
            } else if s[0] == PLUS {
                parse_plus_sign(&mut s);
            }
        }
        let ghost body = s@;
        let ghost bound = magnitude_bound(sign as int, i128::MIN as int, i128::MAX as int);
        let mut is_err: u64 = 0;
        proof {
            assert(split_sign(orig, body, sign as int)) by {
                if orig.len() > 0 && (orig[0] == MINUS || orig[0] == PLUS) {
                    assert(body =~= orig.drop_first());
                }
            }
            lemma_pow10_small();
            assert(zeros(0) + body =~= body);
            assert(body.subrange(0, body.len() as int) =~= body);
        }
        let res = if s.len() == 1 {
            let x = parse_1(&mut s, &mut is_err);
            proof {
                lemma_chunk_within(body, 0, is_err, x as nat, bound);
            }
            let r = apply_sign_i128(x as u128, sign);
            proof {
                lemma_signed_accepts(
                    orig,
                    body,
                    body,
                    0,
                    sign as int,
                    is_err,
                    r as int,
                    i128::MIN as int,
                    i128::MAX as int,
                );
            }
            r
        } else if s.len() == 2 {
            let x = parse_2(&mut s, &mut is_err);
            proof {
                lemma_chunk_within(body, 0, is_err, x as nat, bound);
            }
            let r = apply_sign_i128(x as u128, sign);
            proof {
                lemma_signed_accepts(
                    orig,
                    body,
                    body,
                    0,
                    sign as int,
                    is_err,
                    r as int,
                    i128::MIN as int,
                    i128::MAX as int,
                );
            }
            r
        } else if 3 <= s.len() && s.len() <= 39 {
            let r = parse_i128(&mut s, &mut is_err, sign);
            proof {
                lemma_signed_accepts(
                    orig,
                    body,
                    body,
                    0,
                    sign as int,
                    is_err,
                    r as int,
                    i128::MIN as int,
                    i128::MAX as int,
                );
            }
            r
        } else {
            strip_leading_zeros(&mut s, 39);
            let ghost n = (body.len() - s@.len()) as nat;
            if s.is_empty() || s.len() > 39 {
                proof {
                    
                    lemma_signed_refuses(
                        orig,
                        body,
                        s@,
                        n,
                        sign as int,
                        39,
                        i128::MIN as int,
                        i128::MAX as int,
                    );
                }
                return error();
            }
            let ghost t = s@;
            let r = parse_i128(&mut s, &mut is_err, sign);
            proof {
                lemma_signed_accepts(
                    orig,
                    body,
                    t,
                    n,
                    sign as int,
                    is_err,
                    r as int,
                    i128::MIN as int,
                    i128::MAX as int,
                );
            }
            r
        };
        if is_err == 0 {
            Ok(res)
        } else {
            error()
        }
    }
}

} // verus!
