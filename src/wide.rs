//! The 16-byte kernel on one 128-bit word. Its lanes go through the steps of a vector
//! pipeline: every byte is checked at once, then pairs, quadruples and halves of eight
//! are combined by multiply-add, and the two halves last.
use vstd::prelude::*;

use crate::bits::{
    check_16, combine_16, combine_8, join_u64, le_u64, lemma_check_16, lemma_fold_mask,
    lemma_halves_16, lemma_join_xor, lemma_octets_16, lemma_or_zero, lemma_pairs_16, lemma_quads_16,
    lemma_stage_bounds_8, lemma_wrapping_mul_128, pairs_8, quads_8,
};
use crate::kernels::{lemma_kernel_8, read_u64};
use crate::model::{
    all_digits, chunk_parsed, decimal_value, is_digit, lemma_decimal_bound, lemma_decimal_split,
    lemma_pow10_small,
};

verus! {

/// Checks sixteen digit lanes of `u` into `err` and combines them into one number.
fn swar_16(u: u128, err: &mut u64) -> (r: u64)
    ensures
        *final(err) == *old(err) | ((check_16(u) as u64) | ((check_16(u) >> 64) as u64)),
        r == combine_16(u) as u64,
{
    let c = (u | u.wrapping_add(0x0606_0606_0606_0606_0606_0606_0606_0606))
        & 0xf0f0_f0f0_f0f0_f0f0_f0f0_f0f0_f0f0_f0f0;
    *err = *err | ((c as u64) | ((c >> 64) as u64));
    let m1 = u.wrapping_mul(0x0a01);
    proof {
        lemma_wrapping_mul_128(u, 0x0a01);
    }
    let v1 = (m1 >> 8) & 0x00ff_00ff_00ff_00ff_00ff_00ff_00ff_00ff;
    let m2 = v1.wrapping_mul(0x64_0001);
    proof {
        lemma_wrapping_mul_128(v1, 0x64_0001);
    }
    let v2 = (m2 >> 16) & 0x0000_ffff_0000_ffff_0000_ffff_0000_ffff;
    let m3 = v2.wrapping_mul(0x2710_0000_0001);
    proof {
        lemma_wrapping_mul_128(v2, 0x2710_0000_0001);
    }
    let v3 = (m3 >> 32) & 0x0000_0000_ffff_ffff_0000_0000_ffff_ffff;
    let m4 = v3.wrapping_mul(0x05f5_e100_0000_0000_0000_0001);
    proof {
        lemma_wrapping_mul_128(v3, 0x05f5_e100_0000_0000_0000_0001);
    }
    (m4 >> 64) as u64
}

/// Parses exactly 16 bytes into the `u64`.
/// If there's an error, `err` is set to a non-zero value.
pub fn parse_16(s: &mut &[u8], err: &mut u64) -> (r: u64)
    requires
        old(s)@.len() >= 16,
    ensures
        final(s)@ == old(s)@.subrange(16, old(s)@.len() as int),
        chunk_parsed(old(s)@.subrange(0, 16), *old(err), *final(err), r as nat),
{
    let ghost whole = s@;
    let lo = read_u64(s);
    let hi = read_u64(s);
    let u = ((lo as u128) | ((hi as u128) << 64)) ^ 0x3030_3030_3030_3030_3030_3030_3030_3030;
    let r = swar_16(u, err);
    proof {
        let c = whole.subrange(0, 16);
        let c0 = c.subrange(0, 8);
        let c1 = c.subrange(8, 16);
        assert(c0 =~= whole.subrange(0, 8));
        assert(c1 =~= whole.subrange(8, 16));
        assert(s@ =~= whole.subrange(16, whole.len() as int));
        let x = lo ^ 0x3030303030303030;
        let y = hi ^ 0x3030303030303030;
        lemma_join_xor(lo, hi);
        assert(x == le_u64(c0[0], c0[1], c0[2], c0[3], c0[4], c0[5], c0[6], c0[7])
            ^ 0x3030303030303030);
        assert(y == le_u64(c1[0], c1[1], c1[2], c1[3], c1[4], c1[5], c1[6], c1[7])
            ^ 0x3030303030303030);
        assert(u == join_u64(x, y));
        lemma_kernel_8(c0);
        lemma_kernel_8(c1);
        lemma_check_16(x, y);
        lemma_fold_mask(check_16(u));
        lemma_or_zero(*old(err), (check_16(u) as u64) | ((check_16(u) >> 64) as u64));
        lemma_decimal_split(c, 8);
        lemma_pow10_small();
        if all_digits(c) {
            assert(is_digit(c0[0]) && is_digit(c0[1]) && is_digit(c0[2]) && is_digit(c0[3])
                && is_digit(c0[4]) && is_digit(c0[5]) && is_digit(c0[6]) && is_digit(c0[7]));
            assert(is_digit(c1[0]) && is_digit(c1[1]) && is_digit(c1[2]) && is_digit(c1[3])
                && is_digit(c1[4]) && is_digit(c1[5]) && is_digit(c1[6]) && is_digit(c1[7]));
            lemma_stage_bounds_8(c0[0], c0[1], c0[2], c0[3], c0[4], c0[5], c0[6], c0[7]);
            lemma_stage_bounds_8(c1[0], c1[1], c1[2], c1[3], c1[4], c1[5], c1[6], c1[7]);
            lemma_pairs_16(x, y);
            lemma_quads_16(pairs_8(x), pairs_8(y));
            lemma_octets_16(quads_8(pairs_8(x)), quads_8(pairs_8(y)));
            lemma_decimal_bound(c0);
            lemma_decimal_bound(c1);
            lemma_halves_16(combine_8(x), combine_8(y));
            assert(combine_16(u) == combine_8(x) * 100000000 + combine_8(y));
            assert(combine_8(x) == decimal_value(c0));
            assert(combine_8(y) == decimal_value(c1));
            assert(decimal_value(c) == decimal_value(c0) * 100000000 + decimal_value(c1));
            assert(combine_16(u) <= u64::MAX);
            assert(r == decimal_value(c));
        }
        assert(*err == 0 <==> (*old(err) == 0 && all_digits(c)));
    }
    r
}

} // verus!
