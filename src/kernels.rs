//! Chunk readers and the digit-decoding kernels: each turns a chunk of 1, 2, 4, 8 or
//! 16 bytes into its number and flags any byte that is not a digit.
use vstd::prelude::*;

use crate::bits::{
    check_4, check_8, combine_4, combine_8, le_u16, le_u32, le_u64, lemma_check_8, lemma_combine_8,
    lemma_kernel_1, lemma_kernel_2, lemma_kernel_4, lemma_or_zero, lemma_shift_in_zeros_4,
    lemma_shift_in_zeros_8, lemma_wrapping_mul_16, lemma_wrapping_mul_32, lemma_wrapping_mul_64,
};
use crate::fold::{fold_4, fold_8, lemma_advance};
use crate::model::{
    all_digits, chunk_parsed, decimal_value, is_digit, lemma_decimal_1, lemma_decimal_2,
    lemma_decimal_4, lemma_decimal_8, lemma_leading_zeros, lemma_pow10_mono, lemma_pow10_small,
    zeros, ZERO,
};

verus! {

/// Reads the first byte of `s` and advances past it.
fn read_u8(s: &mut &[u8]) -> (r: u8)
    requires
        old(s)@.len() >= 1,
    ensures
        final(s)@ == old(s)@.subrange(1, old(s)@.len() as int),
        r == old(s)@[0],
{
    let r = s[0];
    *s = &s[1..s.len()];
    r
}

/// Reads the first 2 bytes of `s` as a little-endian word and advances past them.
fn read_u16(s: &mut &[u8]) -> (r: u16)
    requires
        old(s)@.len() >= 2,
    ensures
        final(s)@ == old(s)@.subrange(2, old(s)@.len() as int),
        r == le_u16(old(s)@[0], old(s)@[1]),
{
    let r = (s[0] as u16) | ((s[1] as u16) << 8);
    *s = &s[2..s.len()];
    r
}

/// Reads the first 4 bytes of `s` as a little-endian word and advances past them.
fn read_u32(s: &mut &[u8]) -> (r: u32)
    requires
        old(s)@.len() >= 4,
    ensures
        final(s)@ == old(s)@.subrange(4, old(s)@.len() as int),
        r == le_u32(old(s)@[0], old(s)@[1], old(s)@[2], old(s)@[3]),
{
    let r = (s[0] as u32) | ((s[1] as u32) << 8) | ((s[2] as u32) << 16) | ((s[3] as u32) << 24);
    *s = &s[4..s.len()];
    r
}

/// Reads the first 8 bytes of `s` as a little-endian word and advances past them.
pub(crate) fn read_u64(s: &mut &[u8]) -> (r: u64)
    requires
        old(s)@.len() >= 8,
    ensures
        final(s)@ == old(s)@.subrange(8, old(s)@.len() as int),
        r == le_u64(
            old(s)@[0],
            old(s)@[1],
            old(s)@[2],
            old(s)@[3],
            old(s)@[4],
            old(s)@[5],
            old(s)@[6],
            old(s)@[7],
        ),
{
    let r = (s[0] as u64) | ((s[1] as u64) << 8) | ((s[2] as u64) << 16) | ((s[3] as u64) << 24)
        | ((s[4] as u64) << 32) | ((s[5] as u64) << 40) | ((s[6] as u64) << 48) | ((s[7] as u64)
        << 56);
    *s = &s[8..s.len()];
    r
}

/// Parses exactly 1 byte into the `u64`.
/// If there's an error, `is_err` is set to a non-zero value.
pub fn parse_1(s: &mut &[u8], is_err: &mut u64) -> (r: u64)
    requires
        old(s)@.len() >= 1,
    ensures
        final(s)@ == old(s)@.subrange(1, old(s)@.len() as int),
        chunk_parsed(old(s)@.subrange(0, 1), *old(is_err), *final(is_err), r as nat),
        r < 256,
{
    let b = read_u8(s);
    let u = (b ^ 0x30) as u64;
    let e = (u | u.wrapping_add(0x06)) & 0xf0;
    *is_err = *is_err | e;
    proof {
        let c = old(s)@.subrange(0, 1);
        lemma_kernel_1(b);
        lemma_or_zero(*old(is_err), e);
        lemma_decimal_1(c);
        assert(c[0] == b);
        assert(all_digits(c) <==> is_digit(b)) by {
            if is_digit(b) {
                assert forall|i: int| 0 <= i < c.len() implies #[trigger] is_digit(c[i]) by {}
            }
        }
    }
    u
}

/// Parses exactly 2 bytes into the `u64`.
/// If there's an error, `is_err` is set to a non-zero value.
pub fn parse_2(s: &mut &[u8], is_err: &mut u64) -> (r: u64)
    requires
        old(s)@.len() >= 2,
    ensures
        final(s)@ == old(s)@.subrange(2, old(s)@.len() as int),
        chunk_parsed(old(s)@.subrange(0, 2), *old(is_err), *final(is_err), r as nat),
{
    let mut u = read_u16(s);
    u = u ^ 0x3030;
    let e = ((u | u.wrapping_add(0x0606)) & 0xf0f0) as u64;
    *is_err = *is_err | e;
    let m = u.wrapping_mul(0x0a01);
    proof {
        let c = old(s)@.subrange(0, 2);
        lemma_kernel_2(c[0], c[1]);
        lemma_wrapping_mul_16(u, 0x0a01);
        lemma_or_zero(*old(is_err), e);
        lemma_decimal_2(c);
    }
    u = m >> 8;
    u as u64
}

/// Checks four digit lanes of `u` into `err` and combines them into one number.
fn swar_4(u: u32, err: &mut u64) -> (r: u32)
    ensures
        *final(err) == *old(err) | (check_4(u) as u64),
        r == combine_4(u),
{
    *err = *err | (((u | u.wrapping_add(0x06060606)) & 0xf0f0f0f0) as u64);
    let m1 = u.wrapping_mul(0x0a01);
    proof {
        lemma_wrapping_mul_32(u, 0x0a01);
    }
    let v = (m1 >> 8) & 0x00ff00ff;
    let m2 = v.wrapping_mul(0x640001);
    proof {
        lemma_wrapping_mul_32(v, 0x640001);
    }
    m2 >> 16
}

/// Parses exactly 4 bytes into the `u64`.
/// If there's an error, `is_err` is set to a non-zero value.
pub fn parse_4(s: &mut &[u8], err: &mut u64) -> (r: u64)
    requires
        old(s)@.len() >= 4,
    ensures
        final(s)@ == old(s)@.subrange(4, old(s)@.len() as int),
        chunk_parsed(old(s)@.subrange(0, 4), *old(err), *final(err), r as nat),
{
    let mut u = read_u32(s);
    u = u ^ 0x30303030;
    let r = swar_4(u, err);
    proof {
        let c = old(s)@.subrange(0, 4);
        lemma_kernel_4(c[0], c[1], c[2], c[3]);
        lemma_or_zero(*old(err), check_4(u) as u64);
        lemma_decimal_4(c);
    }
    r as u64
}

/// Checks eight digit lanes of `u` into `err` and combines them into one number.
fn swar_8(u: u64, err: &mut u64) -> (r: u64)
    ensures
        *final(err) == *old(err) | check_8(u),
        r == combine_8(u),
{
    *err = *err | ((u | u.wrapping_add(0x0606060606060606)) & 0xf0f0f0f0f0f0f0f0);
    // 10 * d7 + d6, 10 * d5 + d4, 10 * d3 + d2, 10 * d1 + d0
    let m1 = u.wrapping_mul(0x0a01);
    proof {
        lemma_wrapping_mul_64(u, 0x0a01);
    }
    let v1 = (m1 >> 8) & 0x00ff00ff00ff00ff;
    // 100 * (10 * d7 + d6) + (10 * d5 + d4), 100 * (10 * d3 + d2) + (10 * d1 + d0)
    let m2 = v1.wrapping_mul(0x640001);
    proof {
        lemma_wrapping_mul_64(v1, 0x640001);
    }
    let v2 = (m2 >> 16) & 0x0000ffff0000ffff;
    // 10000 * (100 * (10 * d7 + d6) + (10 * d5 + d4)) + (100 * (10 * d3 + d2) + (10 * d1 + d0))
    let m3 = v2.wrapping_mul(0x271000000001);
    proof {
        lemma_wrapping_mul_64(v2, 0x271000000001);
    }
    m3 >> 32
}

/// Parses exactly 8 bytes into the `u64`.
/// If there's an error, `is_err` is set to a non-zero value.
pub fn parse_8(s: &mut &[u8], err: &mut u64) -> (r: u64)
    requires
        old(s)@.len() >= 8,
    ensures
        final(s)@ == old(s)@.subrange(8, old(s)@.len() as int),
        chunk_parsed(old(s)@.subrange(0, 8), *old(err), *final(err), r as nat),
{
    let mut u = read_u64(s);
    u = u ^ 0x3030303030303030;
    let r = swar_8(u, err);
    proof {
        lemma_kernel_8(old(s)@.subrange(0, 8));
        lemma_or_zero(*old(err), check_8(u));
    }
    r
}

/// The 8-lane check and combination on the bytes of `c`.
pub proof fn lemma_kernel_8(c: Seq<u8>)
    requires
        c.len() == 8,
    ensures
        ({
            let u = le_u64(c[0], c[1], c[2], c[3], c[4], c[5], c[6], c[7]) ^ 0x3030303030303030;
            &&& check_8(u) == 0 <==> all_digits(c)
            &&& all_digits(c) ==> combine_8(u) == decimal_value(c)
        }),
{
    let c0 = c.subrange(0, 4);
    let c1 = c.subrange(4, 8);
    lemma_check_8(c[0], c[1], c[2], c[3], c[4], c[5], c[6], c[7]);
    lemma_decimal_8(c);
    lemma_decimal_4(c0);
    lemma_decimal_4(c1);
    assert(c0[0] == c[0] && c0[1] == c[1] && c0[2] == c[2] && c0[3] == c[3]);
    assert(c1[0] == c[4] && c1[1] == c[5] && c1[2] == c[6] && c1[3] == c[7]);
    if all_digits(c) {
        lemma_combine_8(c[0], c[1], c[2], c[3], c[4], c[5], c[6], c[7]);
    }
}

/// Reads the first 4 bytes of `s` as a little-endian word, leaving `s` as it is.
fn peek_u32(s: &[u8]) -> (r: u32)
    requires
        s@.len() >= 4,
    ensures
        r == le_u32(s@[0], s@[1], s@[2], s@[3]),
{
    (s[0] as u32) | ((s[1] as u32) << 8) | ((s[2] as u32) << 16) | ((s[3] as u32) << 24)
}

/// Reads the first 8 bytes of `s` as a little-endian word, leaving `s` as it is.
fn peek_u64(s: &[u8]) -> (r: u64)
    requires
        s@.len() >= 8,
    ensures
        r == le_u64(s@[0], s@[1], s@[2], s@[3], s@[4], s@[5], s@[6], s@[7]),
{
    (s[0] as u64) | ((s[1] as u64) << 8) | ((s[2] as u64) << 16) | ((s[3] as u64) << 24) | ((s[4]
        as u64) << 32) | ((s[5] as u64) << 40) | ((s[6] as u64) << 48) | ((s[7] as u64) << 56)
}

/// The 4-lane check and combination on the bytes of `c`.
pub proof fn lemma_kernel_4_seq(c: Seq<u8>)
    requires
        c.len() == 4,
    ensures
        ({
            let u = le_u32(c[0], c[1], c[2], c[3]) ^ 0x30303030;
            &&& check_4(u) == 0 <==> all_digits(c)
            &&& all_digits(c) ==> combine_4(u) == decimal_value(c)
        }),
{
    lemma_kernel_4(c[0], c[1], c[2], c[3]);
    lemma_decimal_4(c);
}

/// Parses `len` bytes, `4 < len <= 8`, with two overlapping 4-byte kernels: the word at
/// the front is shifted so that only the bytes before the last four stay in it, and the
/// last four are folded on.
/// If there's an error, `err` is set to a non-zero value.
pub fn parse_4_to_8(s: &mut &[u8], err: &mut u64, len: usize) -> (r: u64)
    requires
        4 < len <= 8,
        old(s)@.len() >= len,
    ensures
        final(s)@ == old(s)@.subrange(len as int, old(s)@.len() as int),
        chunk_parsed(old(s)@.subrange(0, len as int), *old(err), *final(err), r as nat),
{
    let ghost whole = s@;
    let ghost e0 = *err;
    let mut u = peek_u32(s);
    *s = &s[len - 4..s.len()];
    u = u ^ 0x30303030;
    let offset = 8 - len;
    let shift = (offset as u32) << 3;
    proof {
        assert(((offset as u32) << 3) == 8 * offset) by (bit_vector)
            requires
                offset < 4,
        ;
    }
    u = u.wrapping_shl(shift);
    let hi = swar_4(u, err) as u64;
    let ghost prefix = whole.subrange(0, len - 4);
    proof {
        let z = zeros(offset as nat) + prefix;
        lemma_shift_in_zeros_4(whole[0], whole[1], whole[2], whole[3]);
        if offset == 0 {
            assert(z =~= seq![whole[0], whole[1], whole[2], whole[3]]);
        } else if offset == 1 {
            assert(z =~= seq![ZERO, whole[0], whole[1], whole[2]]);
        } else if offset == 2 {
            assert(z =~= seq![ZERO, ZERO, whole[0], whole[1]]);
        } else if offset == 3 {
            assert(z =~= seq![ZERO, ZERO, ZERO, whole[0]]);
        }
        lemma_kernel_4_seq(z);
        lemma_leading_zeros(offset as nat, prefix);
        lemma_or_zero(e0, check_4(u) as u64);
    }
    let ghost e1 = *err;
    let ghost mid = s@;
    let r = fold_4(s, err, hi);
    proof {
        let orig = whole.subrange(0, len as int);
        let rest = orig.subrange(len - 4, len as int);
        assert(orig.subrange(0, len - 4) =~= prefix);
        assert(rest.subrange(0, 4) =~= mid.subrange(0, 4));
        lemma_pow10_small();
        lemma_pow10_mono(len as nat, 8);
        lemma_advance(orig, rest, len - 4, 4, e0, e1, *err, hi as nat, r as nat, u64::MAX as nat);
        assert(orig.subrange(0, len as int) =~= orig);
        assert(s@ =~= whole.subrange(len as int, whole.len() as int));
    }
    r
}

/// Parses `len` bytes, `8 < len <= 16`, with two overlapping 8-byte kernels, as
/// `parse_4_to_8` does with 4-byte ones.
/// If there's an error, `err` is set to a non-zero value.
pub fn parse_8_to_16(s: &mut &[u8], err: &mut u64, len: usize) -> (r: u64)
    requires
        8 < len <= 16,
        old(s)@.len() >= len,
    ensures
        final(s)@ == old(s)@.subrange(len as int, old(s)@.len() as int),
        chunk_parsed(old(s)@.subrange(0, len as int), *old(err), *final(err), r as nat),
{
    let ghost whole = s@;
    let ghost e0 = *err;
    let mut u = peek_u64(s);
    *s = &s[len - 8..s.len()];
    u = u ^ 0x3030303030303030;
    let offset = 16 - len;
    let shift = (offset as u32) << 3;
    proof {
        assert(((offset as u32) << 3) == 8 * offset) by (bit_vector)
            requires
                offset < 8,
        ;
    }
    u = u.wrapping_shl(shift);
    let hi = swar_8(u, err);
    let ghost prefix = whole.subrange(0, len - 8);
    proof {
        let z = zeros(offset as nat) + prefix;
        lemma_shift_in_zeros_8(
            whole[0],
            whole[1],
            whole[2],
            whole[3],
            whole[4],
            whole[5],
            whole[6],
            whole[7],
        );
        if offset == 0 {
            assert(z =~= seq![
                whole[0],
                whole[1],
                whole[2],
                whole[3],
                whole[4],
                whole[5],
                whole[6],
                whole[7],
            ]);
        } else if offset == 1 {
            assert(z =~= seq![
                ZERO,
                whole[0],
                whole[1],
                whole[2],
                whole[3],
                whole[4],
                whole[5],
                whole[6],
            ]);
        } else if offset == 2 {
            assert(z =~= seq![
                ZERO,
                ZERO,
                whole[0],
                whole[1],
                whole[2],
                whole[3],
                whole[4],
                whole[5],
            ]);
        } else if offset == 3 {
            assert(z =~= seq![ZERO, ZERO, ZERO, whole[0], whole[1], whole[2], whole[3], whole[4]]);
        } else if offset == 4 {
            assert(z =~= seq![ZERO, ZERO, ZERO, ZERO, whole[0], whole[1], whole[2], whole[3]]);
        } else if offset == 5 {
            assert(z =~= seq![ZERO, ZERO, ZERO, ZERO, ZERO, whole[0], whole[1], whole[2]]);
        } else if offset == 6 {
            assert(z =~= seq![ZERO, ZERO, ZERO, ZERO, ZERO, ZERO, whole[0], whole[1]]);
        } else if offset == 7 {
            assert(z =~= seq![ZERO, ZERO, ZERO, ZERO, ZERO, ZERO, ZERO, whole[0]]);
        }
        lemma_kernel_8(z);
        lemma_leading_zeros(offset as nat, prefix);
        lemma_or_zero(e0, check_8(u));
    }
    let ghost e1 = *err;
    let ghost mid = s@;
    let r = fold_8(s, err, hi);
    proof {
        let orig = whole.subrange(0, len as int);
        let rest = orig.subrange(len - 8, len as int);
        assert(orig.subrange(0, len - 8) =~= prefix);
        assert(rest.subrange(0, 8) =~= mid.subrange(0, 8));
        lemma_pow10_small();
        lemma_pow10_mono(len as nat, 16);
        lemma_advance(orig, rest, len - 8, 8, e0, e1, *err, hi as nat, r as nat, u64::MAX as nat);
        assert(orig.subrange(0, len as int) =~= orig);
        assert(s@ =~= whole.subrange(len as int, whole.len() as int));
    }
    r
}

/// Parses exactly 16 bytes into the `u64`.
/// If there's an error, `is_err` is set to a non-zero value.
pub fn parse_16(s: &mut &[u8], err: &mut u64) -> (r: u64)
    requires
        old(s)@.len() >= 16,
    ensures
        final(s)@ == old(s)@.subrange(16, old(s)@.len() as int),
        chunk_parsed(old(s)@.subrange(0, 16), *old(err), *final(err), r as nat),
{
    crate::wide::parse_16(s, err)
}

} // verus!
