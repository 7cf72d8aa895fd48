//! Word-level facts behind the chunk kernels, proved by bit blasting.
use vstd::prelude::*;

verus! {

/// Two bytes read as a little-endian word.
pub open spec fn le_u16(b0: u8, b1: u8) -> u16 {
    (b0 as u16) | ((b1 as u16) << 8)
}

/// Four bytes read as a little-endian word.
pub open spec fn le_u32(b0: u8, b1: u8, b2: u8, b3: u8) -> u32 {
    (b0 as u32) | ((b1 as u32) << 8) | ((b2 as u32) << 16) | ((b3 as u32) << 24)
}

/// Eight bytes read as a little-endian word.
pub open spec fn le_u64(b0: u8, b1: u8, b2: u8, b3: u8, b4: u8, b5: u8, b6: u8, b7: u8) -> u64 {
    (b0 as u64) | ((b1 as u64) << 8) | ((b2 as u64) << 16) | ((b3 as u64) << 24) | ((b4 as u64)
        << 32) | ((b5 as u64) << 40) | ((b6 as u64) << 48) | ((b7 as u64) << 56)
}

/// Nonzero exactly when some lane of `u` (a byte after the `'0'` pattern was XORed
/// away) is above 9.
pub open spec fn check_1(u: u64) -> u64 {
    (u | u.wrapping_add(0x06)) & 0xf0
}

/// The lane check of `check_1` on two lanes.
pub open spec fn check_2(u: u16) -> u16 {
    (u | u.wrapping_add(0x0606)) & 0xf0f0
}

/// The lane check on four lanes.
pub open spec fn check_4(u: u32) -> u32 {
    (u | u.wrapping_add(0x06060606)) & 0xf0f0f0f0
}

/// The lane check on eight lanes.
pub open spec fn check_8(u: u64) -> u64 {
    (u | u.wrapping_add(0x0606060606060606)) & 0xf0f0f0f0f0f0f0f0
}

/// Two digit lanes combined into one number.
pub open spec fn combine_2(u: u16) -> u16 {
    ((u * 0x0a01) as u16) >> 8
}

/// Four digit lanes combined into one number.
pub open spec fn combine_4(u: u32) -> u32 {
    let v = (((u * 0x0a01) as u32) >> 8) & 0x00ff00ff;
    ((v * 0x640001) as u32) >> 16
}

/// Pairs of byte lanes combined: `10 * d[2k] + d[2k + 1]` in each 16-bit lane.
pub open spec fn pairs_8(u: u64) -> u64 {
    (((u * 0x0a01) as u64) >> 8) & 0x00ff_00ff_00ff_00ff
}

/// Pairs of 16-bit lanes combined: `100 * p[2k] + p[2k + 1]` in each 32-bit lane.
pub open spec fn quads_8(u: u64) -> u64 {
    (((u * 0x64_0001) as u64) >> 16) & 0x0000_ffff_0000_ffff
}

/// The two 32-bit lanes combined: `10000 * q[0] + q[1]`.
pub open spec fn halves_8(u: u64) -> u64 {
    ((u * 0x2710_0000_0001) as u64) >> 32
}

/// Eight digit lanes combined into one number.
pub open spec fn combine_8(u: u64) -> u64 {
    halves_8(quads_8(pairs_8(u)))
}

/// Eight byte lanes.
pub open spec fn lanes_8(
    d0: u64,
    d1: u64,
    d2: u64,
    d3: u64,
    d4: u64,
    d5: u64,
    d6: u64,
    d7: u64,
) -> u64 {
    d0 | (d1 << 8) | (d2 << 16) | (d3 << 24) | (d4 << 32) | (d5 << 40) | (d6 << 48) | (d7 << 56)
}

/// An OR is zero exactly when both sides are, and keeps the bits of either side: the
/// error accumulator never clears.
pub proof fn lemma_or_zero(a: u64, b: u64)
    by (bit_vector)
    ensures
        (a | b) == 0 <==> (a == 0 && b == 0),
        (a | b) & a == a,
        b == 0 ==> (a | b) == a,
        a & a == a,
{
}

/// Bits kept from `a` to `b` and from `b` to `c` are kept from `a` to `c`.
pub proof fn lemma_keeps_bits(a: u64, b: u64, c: u64)
    by (bit_vector)
    requires
        b & a == a,
        c & b == b,
    ensures
        c & a == a,
{
}

/// `wrapping_mul` as a truncated product, the form the bit-level lemmas use.
pub proof fn lemma_wrapping_mul_16(u: u16, c: u16)
    by (bit_vector)
    ensures
        ((u * c) % 0x10000) as u16 == (u * c) as u16,
{
}

/// `wrapping_mul` as a truncated product, the form the bit-level lemmas use.
pub proof fn lemma_wrapping_mul_32(u: u32, c: u32)
    by (bit_vector)
    ensures
        ((u * c) % 0x100000000) as u32 == (u * c) as u32,
{
}

/// `wrapping_mul` as a truncated product, the form the bit-level lemmas use.
pub proof fn lemma_wrapping_mul_64(u: u64, c: u64)
    by (bit_vector)
    ensures
        ((u * c) % 0x10000000000000000) as u64 == (u * c) as u64,
{
}

/// The 1-byte kernel flags exactly a non-digit and otherwise yields its value.
pub proof fn lemma_kernel_1(b0: u8)
    by (bit_vector)
    ensures
        check_1((b0 ^ 0x30) as u64) == 0 <==> (48 <= b0 && b0 <= 57),
        (48 <= b0 && b0 <= 57) ==> (b0 ^ 0x30) as u64 == b0 - 48,
{
}

/// The 2-byte kernel flags exactly a non-digit and otherwise yields the pair's number.
pub proof fn lemma_kernel_2(b0: u8, b1: u8)
    by (bit_vector)
    ensures
        check_2(le_u16(b0, b1) ^ 0x3030) == 0 <==> (48 <= b0 && b0 <= 57 && 48 <= b1 && b1
            <= 57),
        (48 <= b0 && b0 <= 57 && 48 <= b1 && b1 <= 57) ==> combine_2(le_u16(b0, b1) ^ 0x3030)
            == 10 * (b0 - 48) + (b1 - 48),
{
}

/// The 4-byte kernel flags exactly a non-digit and otherwise yields the number.
pub proof fn lemma_kernel_4(b0: u8, b1: u8, b2: u8, b3: u8)
    by (bit_vector)
    ensures
        check_4(le_u32(b0, b1, b2, b3) ^ 0x30303030) == 0 <==> (48 <= b0 && b0 <= 57 && 48 <= b1
            && b1 <= 57 && 48 <= b2 && b2 <= 57 && 48 <= b3 && b3 <= 57),
        (48 <= b0 && b0 <= 57 && 48 <= b1 && b1 <= 57 && 48 <= b2 && b2 <= 57 && 48 <= b3 && b3
            <= 57) ==> combine_4(le_u32(b0, b1, b2, b3) ^ 0x30303030) == 100 * (10 * (b0 - 48) + (
        b1 - 48)) + (10 * (b2 - 48) + (b3 - 48)),
{
}

/// The 8-lane check flags exactly a non-digit byte.
pub proof fn lemma_check_8(b0: u8, b1: u8, b2: u8, b3: u8, b4: u8, b5: u8, b6: u8, b7: u8)
    by (bit_vector)
    ensures
        check_8(le_u64(b0, b1, b2, b3, b4, b5, b6, b7) ^ 0x3030303030303030) == 0 <==> (48 <= b0
            && b0 <= 57 && 48 <= b1 && b1 <= 57 && 48 <= b2 && b2 <= 57 && 48 <= b3 && b3 <= 57
            && 48 <= b4 && b4 <= 57 && 48 <= b5 && b5 <= 57 && 48 <= b6 && b6 <= 57 && 48 <= b7
            && b7 <= 57),
{
}

/// Removing the `'0'` pattern from eight digit bytes leaves their values as lanes.
pub proof fn lemma_digit_lanes_8(b0: u8, b1: u8, b2: u8, b3: u8, b4: u8, b5: u8, b6: u8, b7: u8)
    by (bit_vector)
    requires
        48 <= b0 && b0 <= 57 && 48 <= b1 && b1 <= 57 && 48 <= b2 && b2 <= 57 && 48 <= b3 && b3
            <= 57 && 48 <= b4 && b4 <= 57 && 48 <= b5 && b5 <= 57 && 48 <= b6 && b6 <= 57 && 48
            <= b7 && b7 <= 57,
    ensures
        le_u64(b0, b1, b2, b3, b4, b5, b6, b7) ^ 0x3030303030303030 == lanes_8(
            (b0 - 48) as u64,
            (b1 - 48) as u64,
            (b2 - 48) as u64,
            (b3 - 48) as u64,
            (b4 - 48) as u64,
            (b5 - 48) as u64,
            (b6 - 48) as u64,
            (b7 - 48) as u64,
        ),
{
}

/// Digit lanes combine into pairs `10 * d[2k] + d[2k + 1]`.
pub proof fn lemma_pairs_8(d0: u64, d1: u64, d2: u64, d3: u64, d4: u64, d5: u64, d6: u64, d7: u64)
    by (bit_vector)
    requires
        d0 <= 9 && d1 <= 9 && d2 <= 9 && d3 <= 9 && d4 <= 9 && d5 <= 9 && d6 <= 9 && d7 <= 9,
    ensures
        pairs_8(lanes_8(d0, d1, d2, d3, d4, d5, d6, d7)) == ((10 * d0 + d1) as u64) | (((10 * d2
            + d3) as u64) << 16) | (((10 * d4 + d5) as u64) << 32) | (((10 * d6 + d7) as u64)
            << 48),
{
}

/// Pairs combine into quadruples `100 * p[2k] + p[2k + 1]`.
pub proof fn lemma_quads_8(p0: u64, p1: u64, p2: u64, p3: u64)
    by (bit_vector)
    requires
        p0 <= 99 && p1 <= 99 && p2 <= 99 && p3 <= 99,
    ensures
        quads_8(p0 | (p1 << 16) | (p2 << 32) | (p3 << 48)) == ((100 * p0 + p1) as u64) | (((100
            * p2 + p3) as u64) << 32),
{
}

/// Quadruples combine into the number `10000 * q[0] + q[1]`.
pub proof fn lemma_halves_8(q0: u64, q1: u64)
    by (bit_vector)
    requires
        q0 <= 9999 && q1 <= 9999,
    ensures
        halves_8(q0 | (q1 << 32)) == 10000 * q0 + q1,
{
}

/// On digit bytes, the 8-lane combination is the number they write.
pub proof fn lemma_combine_8(b0: u8, b1: u8, b2: u8, b3: u8, b4: u8, b5: u8, b6: u8, b7: u8)
    requires
        48 <= b0 && b0 <= 57 && 48 <= b1 && b1 <= 57 && 48 <= b2 && b2 <= 57 && 48 <= b3 && b3
            <= 57 && 48 <= b4 && b4 <= 57 && 48 <= b5 && b5 <= 57 && 48 <= b6 && b6 <= 57 && 48
            <= b7 && b7 <= 57,
    ensures
        combine_8(le_u64(b0, b1, b2, b3, b4, b5, b6, b7) ^ 0x3030303030303030) == 10000 * (100 * (
        10 * (b0 - 48) + (b1 - 48)) + (10 * (b2 - 48) + (b3 - 48))) + (100 * (10 * (b4 - 48) + (
        b5 - 48)) + (10 * (b6 - 48) + (b7 - 48))),
{
    lemma_digit_lanes_8(b0, b1, b2, b3, b4, b5, b6, b7);
    let (d0, d1, d2, d3) = ((b0 - 48) as u64, (b1 - 48) as u64, (b2 - 48) as u64, (b3 - 48) as u64);
    let (d4, d5, d6, d7) = ((b4 - 48) as u64, (b5 - 48) as u64, (b6 - 48) as u64, (b7 - 48) as u64);
    lemma_pairs_8(d0, d1, d2, d3, d4, d5, d6, d7);
    let (p0, p1) = ((10 * d0 + d1) as u64, (10 * d2 + d3) as u64);
    let (p2, p3) = ((10 * d4 + d5) as u64, (10 * d6 + d7) as u64);
    lemma_quads_8(p0, p1, p2, p3);
    lemma_halves_8((100 * p0 + p1) as u64, (100 * p2 + p3) as u64);
}

/// The upper half of a 128-bit value is zero exactly when the value fits in 64 bits.
pub proof fn lemma_high_half(w: u128)
    by (bit_vector)
    ensures
        ((w >> 64) as u64 == 0) <==> (w <= 0xffff_ffff_ffff_ffff),
{
}

/// A value fits in `n` bits exactly when nothing is left above them.
pub proof fn lemma_fits(x: u64)
    by (bit_vector)
    ensures
        (x >> 32 == 0) <==> (x <= 0xffff_ffff),
        (x >> 16 == 0) <==> (x <= 0xffff),
        (x >> 8 == 0) <==> (x <= 0xff),
{
}

/// The branchless two's-complement step: XOR with the all-ones mask of a negative
/// sign, then add one.
pub proof fn lemma_apply_sign_8(res: u64, sign: i8)
    by (bit_vector)
    requires
        sign == 1 || sign == -1,
    ensures
        sign == 1 && res <= 0x7f ==> ((res as i8) ^ (sign >> 7)).wrapping_add((sign >> 7) & 1)
            == res as i8,
        sign == -1 && res <= 0x80 ==> ((res as i8) ^ (sign >> 7)).wrapping_add((sign >> 7) & 1)
            == (0 - res) as i8,
{
}

/// The two's-complement step on 16 bits.
pub proof fn lemma_apply_sign_16(res: u64, sign: i16)
    by (bit_vector)
    requires
        sign == 1 || sign == -1,
    ensures
        sign == 1 && res <= 0x7fff ==> ((res as i16) ^ (sign >> 15)).wrapping_add((sign >> 15) & 1)
            == res as i16,
        sign == -1 && res <= 0x8000 ==> ((res as i16) ^ (sign >> 15)).wrapping_add((sign >> 15)
            & 1) == (0 - res) as i16,
{
}

/// The two's-complement step on 32 bits.
pub proof fn lemma_apply_sign_32(res: u64, sign: i32)
    by (bit_vector)
    requires
        sign == 1 || sign == -1,
    ensures
        sign == 1 && res <= 0x7fff_ffff ==> ((res as i32) ^ (sign >> 31)).wrapping_add((sign
            >> 31) & 1) == res as i32,
        sign == -1 && res <= 0x8000_0000 ==> ((res as i32) ^ (sign >> 31)).wrapping_add((sign
            >> 31) & 1) == (0 - res) as i32,
{
}

/// The two's-complement step on 64 bits.
pub proof fn lemma_apply_sign_64(res: u64, sign: i64)
    by (bit_vector)
    requires
        sign == 1 || sign == -1,
    ensures
        sign == 1 && res <= 0x7fff_ffff_ffff_ffff ==> ((res as i64) ^ (sign >> 63)).wrapping_add(
            (sign >> 63) & 1) == res as i64,
        sign == -1 && res <= 0x8000_0000_0000_0000 ==> ((res as i64) ^ (sign >> 63)).wrapping_add(
            (sign >> 63) & 1) == (0 - res) as i64,
{
}

/// The two's-complement step on 128 bits.
pub proof fn lemma_apply_sign_128(res: u128, sign: i128)
    by (bit_vector)
    requires
        sign == 1 || sign == -1,
    ensures
        sign == 1 && res <= 0x7fff_ffff_ffff_ffff_ffff_ffff_ffff_ffff ==> ((res as i128) ^ (sign
            >> 127)).wrapping_add((sign >> 127) & 1) == res as i128,
        sign == -1 && res <= 0x8000_0000_0000_0000_0000_0000_0000_0000 ==> ((res as i128) ^ (sign
            >> 127)).wrapping_add((sign >> 127) & 1) == (0 - res) as i128,
{
}

/// The lane check on sixteen lanes.
pub open spec fn check_16(u: u128) -> u128 {
    (u | u.wrapping_add(0x0606_0606_0606_0606_0606_0606_0606_0606))
        & 0xf0f0_f0f0_f0f0_f0f0_f0f0_f0f0_f0f0_f0f0
}

/// Pairs of byte lanes combined in each 16-bit lane of a 128-bit word.
pub open spec fn pairs_16(u: u128) -> u128 {
    (((u * 0x0a01) as u128) >> 8) & 0x00ff_00ff_00ff_00ff_00ff_00ff_00ff_00ff
}

/// Pairs of 16-bit lanes combined in each 32-bit lane.
pub open spec fn quads_16(u: u128) -> u128 {
    (((u * 0x64_0001) as u128) >> 16) & 0x0000_ffff_0000_ffff_0000_ffff_0000_ffff
}

/// Pairs of 32-bit lanes combined in each 64-bit half.
pub open spec fn octets_16(u: u128) -> u128 {
    (((u * 0x2710_0000_0001) as u128) >> 32) & 0x0000_0000_ffff_ffff_0000_0000_ffff_ffff
}

/// The two 64-bit halves combined: `10^8 * r[0] + r[1]`.
pub open spec fn halves_16(u: u128) -> u128 {
    ((u * 0x05f5_e100_0000_0000_0000_0001) as u128) >> 64
}

/// Sixteen digit lanes combined into one number: pairs, then quadruples, then
/// halves of eight, then the two halves.
pub open spec fn combine_16(u: u128) -> u128 {
    halves_16(octets_16(quads_16(pairs_16(u))))
}

/// Two little-endian words of eight bytes, as one of sixteen.
pub open spec fn join_u64(lo: u64, hi: u64) -> u128 {
    (lo as u128) | ((hi as u128) << 64)
}

/// `wrapping_mul` as a truncated product, the form the bit-level lemmas use.
pub proof fn lemma_wrapping_mul_128(u: u128, c: u128)
    by (bit_vector)
    ensures
        u.wrapping_mul(c) == (u * c) as u128,
{
}

/// The 16-lane check flags exactly what the checks of the two 8-lane halves flag.
pub proof fn lemma_check_16(lo: u64, hi: u64)
    by (bit_vector)
    ensures
        check_16(join_u64(lo, hi)) == 0 <==> (check_8(lo) == 0 && check_8(hi) == 0),
{
}

/// On digit lanes, the 128-bit pair step is the 64-bit one on each half.
pub proof fn lemma_pairs_16(lo: u64, hi: u64)
    by (bit_vector)
    requires
        check_8(lo) == 0,
        check_8(hi) == 0,
    ensures
        pairs_16(join_u64(lo, hi)) == join_u64(pairs_8(lo), pairs_8(hi)),
{
}

/// On pairs below 128, the 128-bit quadruple step is the 64-bit one on each half.
pub proof fn lemma_quads_16(lo: u64, hi: u64)
    by (bit_vector)
    requires
        lo & 0xff80_ff80_ff80_ff80 == 0,
        hi & 0xff80_ff80_ff80_ff80 == 0,
    ensures
        quads_16(join_u64(lo, hi)) == join_u64(quads_8(lo), quads_8(hi)),
{
}

/// On quadruples below `2^14`, the 128-bit step to eight digits is the 64-bit one on each half.
pub proof fn lemma_octets_16(lo: u64, hi: u64)
    by (bit_vector)
    requires
        lo & 0xffff_c000_ffff_c000 == 0,
        hi & 0xffff_c000_ffff_c000 == 0,
    ensures
        octets_16(join_u64(lo, hi)) == join_u64(halves_8(lo), halves_8(hi)),
{
}

/// The last step joins two numbers of eight digits.
pub proof fn lemma_halves_16(r0: u64, r1: u64)
    by (bit_vector)
    requires
        r0 <= 99999999 && r1 <= 99999999,
    ensures
        halves_16(join_u64(r0, r1)) == r0 * 100000000 + r1,
{
}

/// Removing the `'0'` pattern works word by word.
pub proof fn lemma_join_xor(lo: u64, hi: u64)
    by (bit_vector)
    ensures
        join_u64(lo, hi) ^ 0x3030_3030_3030_3030_3030_3030_3030_3030 == join_u64(
            lo ^ 0x3030303030303030,
            hi ^ 0x3030303030303030,
        ),
{
}

/// Folding the two halves of a 128-bit mask into 64 bits keeps it nonzero.
pub proof fn lemma_fold_mask(c: u128)
    by (bit_vector)
    ensures
        ((c as u64) | ((c >> 64) as u64)) == 0 <==> c == 0,
{
}

/// On digit bytes, the intermediate lanes of the 8-lane combination stay small.
pub proof fn lemma_stage_bounds_8(b0: u8, b1: u8, b2: u8, b3: u8, b4: u8, b5: u8, b6: u8, b7: u8)
    requires
        48 <= b0 && b0 <= 57 && 48 <= b1 && b1 <= 57 && 48 <= b2 && b2 <= 57 && 48 <= b3 && b3
            <= 57 && 48 <= b4 && b4 <= 57 && 48 <= b5 && b5 <= 57 && 48 <= b6 && b6 <= 57 && 48
            <= b7 && b7 <= 57,
    ensures
        pairs_8(le_u64(b0, b1, b2, b3, b4, b5, b6, b7) ^ 0x3030303030303030) & 0xff80_ff80_ff80_ff80
            == 0,
        quads_8(pairs_8(le_u64(b0, b1, b2, b3, b4, b5, b6, b7) ^ 0x3030303030303030))
            & 0xffff_c000_ffff_c000 == 0,
{
    lemma_digit_lanes_8(b0, b1, b2, b3, b4, b5, b6, b7);
    let (d0, d1, d2, d3) = ((b0 - 48) as u64, (b1 - 48) as u64, (b2 - 48) as u64, (b3 - 48) as u64);
    let (d4, d5, d6, d7) = ((b4 - 48) as u64, (b5 - 48) as u64, (b6 - 48) as u64, (b7 - 48) as u64);
    lemma_pairs_8(d0, d1, d2, d3, d4, d5, d6, d7);
    let (p0, p1) = ((10 * d0 + d1) as u64, (10 * d2 + d3) as u64);
    let (p2, p3) = ((10 * d4 + d5) as u64, (10 * d6 + d7) as u64);
    lemma_quads_8(p0, p1, p2, p3);
    lemma_lane_bounds(p0, p1, p2, p3, (100 * p0 + p1) as u64, (100 * p2 + p3) as u64);
}

/// Values below `2^n` leave the bits above them clear.
pub proof fn lemma_lane_bounds(p0: u64, p1: u64, p2: u64, p3: u64, q0: u64, q1: u64)
    by (bit_vector)
    ensures
        p0 <= 99 && p1 <= 99 && p2 <= 99 && p3 <= 99 ==> (p0 | (p1 << 16) | (p2 << 32) | (p3
            << 48)) & 0xff80_ff80_ff80_ff80 == 0,
        q0 <= 9999 && q1 <= 9999 ==> (q0 | (q1 << 32)) & 0xffff_c000_ffff_c000 == 0,
{
}

/// Shifting a kernel word up by whole bytes brings `'0'` lanes in at the front.
pub proof fn lemma_shift_in_zeros_4(b0: u8, b1: u8, b2: u8, b3: u8)
    by (bit_vector)
    ensures
        (le_u32(b0, b1, b2, b3) ^ 0x30303030) << 0 == le_u32(b0, b1, b2, b3) ^ 0x30303030,
        (le_u32(b0, b1, b2, b3) ^ 0x30303030) << 8 == le_u32(48, b0, b1, b2) ^ 0x30303030,
        (le_u32(b0, b1, b2, b3) ^ 0x30303030) << 16 == le_u32(48, 48, b0, b1) ^ 0x30303030,
        (le_u32(b0, b1, b2, b3) ^ 0x30303030) << 24 == le_u32(48, 48, 48, b0) ^ 0x30303030,
{
}

/// The same for eight lanes.
pub proof fn lemma_shift_in_zeros_8(b0: u8, b1: u8, b2: u8, b3: u8, b4: u8, b5: u8, b6: u8, b7: u8)
    by (bit_vector)
    ensures
        (le_u64(b0, b1, b2, b3, b4, b5, b6, b7) ^ 0x3030303030303030) << 0
            == le_u64(b0, b1, b2, b3, b4, b5, b6, b7) ^ 0x3030303030303030,
        (le_u64(b0, b1, b2, b3, b4, b5, b6, b7) ^ 0x3030303030303030) << 8
            == le_u64(48, b0, b1, b2, b3, b4, b5, b6) ^ 0x3030303030303030,
        (le_u64(b0, b1, b2, b3, b4, b5, b6, b7) ^ 0x3030303030303030) << 16
            == le_u64(48, 48, b0, b1, b2, b3, b4, b5) ^ 0x3030303030303030,
        (le_u64(b0, b1, b2, b3, b4, b5, b6, b7) ^ 0x3030303030303030) << 24
            == le_u64(48, 48, 48, b0, b1, b2, b3, b4) ^ 0x3030303030303030,
        (le_u64(b0, b1, b2, b3, b4, b5, b6, b7) ^ 0x3030303030303030) << 32
            == le_u64(48, 48, 48, 48, b0, b1, b2, b3) ^ 0x3030303030303030,
        (le_u64(b0, b1, b2, b3, b4, b5, b6, b7) ^ 0x3030303030303030) << 40
            == le_u64(48, 48, 48, 48, 48, b0, b1, b2) ^ 0x3030303030303030,
        (le_u64(b0, b1, b2, b3, b4, b5, b6, b7) ^ 0x3030303030303030) << 48
            == le_u64(48, 48, 48, 48, 48, 48, b0, b1) ^ 0x3030303030303030,
        (le_u64(b0, b1, b2, b3, b4, b5, b6, b7) ^ 0x3030303030303030) << 56
            == le_u64(48, 48, 48, 48, 48, 48, 48, b0) ^ 0x3030303030303030,
{
}

} // verus!
