//! The fold layer: a partial value shifted by a chunk's length plus the chunk's number,
//! the optional steps that chain kernels over any length, and the invariant that a
//! chained parse keeps.
use vstd::prelude::*;

use crate::bits::{lemma_high_half, lemma_keeps_bits, lemma_or_zero};
use crate::kernels::{parse_1, parse_16, parse_2, parse_4, parse_8};
use crate::model::{
    all_digits, chunk_parsed, decimal_value, digits_parsed, lemma_decimal_bound,
    lemma_decimal_split, lemma_pow10_mono, lemma_pow10_small, pow10, zeros, ZERO,
};
use vstd::arithmetic::div_mod::lemma_small_mod;

verus! {

/// A kernel or fold consumed `chunk` after the partial value `hi`: the accumulator
/// went from `before` to `after` as for a single chunk, and where no wraparound occurs
/// the result is `hi` shifted by the chunk's length plus the chunk's number.
pub open spec fn chunk_folded(
    chunk: Seq<u8>,
    before: u64,
    after: u64,
    hi: nat,
    r: nat,
    max: nat,
) -> bool {
    &&& after & before == before
    &&& (all_digits(chunk) ==> after == before)
    &&& (after == 0 <==> (before == 0 && all_digits(chunk)))
    &&& (all_digits(chunk) && hi * pow10(chunk.len()) + decimal_value(chunk) <= max ==> r == hi
        * pow10(chunk.len()) + decimal_value(chunk))
}

/// `hi * p + x` by wrapping arithmetic is exact where it fits.
pub(crate) proof fn lemma_fold_exact(hi: u64, p: u64, x: u64)
    requires
        hi * p + x <= u64::MAX,
    ensures
        hi.wrapping_mul(p).wrapping_add(x) == hi * p + x,
{
    lemma_small_mod((hi * p) as nat, 0x10000000000000000);
}

/// The same for the 128-bit accumulator.
pub(crate) proof fn lemma_fold_exact_128(hi: u128, p: u128, x: u128)
    requires
        hi * p + x <= u128::MAX,
    ensures
        hi.wrapping_mul(p).wrapping_add(x) == hi * p + x,
{
    lemma_small_mod((hi * p) as nat, u128::MAX as nat + 1);
}

/// Having parsed `orig[..pos]` into `hi`, folding the next `k` bytes of the rest
/// `orig[pos..]` parses `orig[..pos + k]`, as long as no number of that many digits
/// can exceed `max`.
pub proof fn lemma_advance(
    orig: Seq<u8>,
    rest: Seq<u8>,
    pos: int,
    k: int,
    e0: u64,
    e1: u64,
    e2: u64,
    hi: nat,
    r: nat,
    max: nat,
)
    requires
        0 <= pos <= orig.len(),
        0 <= k <= rest.len(),
        rest == orig.subrange(pos, orig.len() as int),
        chunk_parsed(orig.subrange(0, pos), e0, e1, hi),
        chunk_folded(rest.subrange(0, k), e1, e2, hi, r, max),
        pow10((pos + k) as nat) <= max + 1,
    ensures
        chunk_parsed(orig.subrange(0, pos + k), e0, e2, r),
        rest.subrange(k, rest.len() as int) == orig.subrange(pos + k, orig.len() as int),
{
    let c = orig.subrange(0, pos + k);
    assert(c.subrange(0, pos) =~= orig.subrange(0, pos));
    assert(c.subrange(pos, pos + k) =~= rest.subrange(0, k));
    assert(rest.subrange(k, rest.len() as int) =~= orig.subrange(pos + k, orig.len() as int));
    lemma_decimal_split(c, pos);
    lemma_keeps_bits(e0, e1, e2);
    if all_digits(c) {
        lemma_decimal_bound(c);
    }
}

/// Parses the next byte and appends it as the lowest digit of `hi`.
pub(crate) fn fold_1(s: &mut &[u8], err: &mut u64, hi: u64) -> (r: u64)
    requires
        old(s)@.len() >= 1,
    ensures
        final(s)@ == old(s)@.subrange(1, old(s)@.len() as int),
        chunk_folded(
            old(s)@.subrange(0, 1),
            *old(err),
            *final(err),
            hi as nat,
            r as nat,
            u64::MAX as nat,
        ),
{
    let x = parse_1(s, err);
    proof {
        lemma_pow10_small();
        if all_digits(old(s)@.subrange(0, 1)) && hi * 10 + x <= u64::MAX {
            lemma_fold_exact(hi, 10, x);
        }
    }
    hi.wrapping_mul(10).wrapping_add(x)
}

/// Parses the next 2 bytes and appends them as the lowest digits of `hi`.
pub(crate) fn fold_2(s: &mut &[u8], err: &mut u64, hi: u64) -> (r: u64)
    requires
        old(s)@.len() >= 2,
    ensures
        final(s)@ == old(s)@.subrange(2, old(s)@.len() as int),
        chunk_folded(
            old(s)@.subrange(0, 2),
            *old(err),
            *final(err),
            hi as nat,
            r as nat,
            u64::MAX as nat,
        ),
{
    let x = parse_2(s, err);
    proof {
        lemma_pow10_small();
        if all_digits(old(s)@.subrange(0, 2)) && hi * 100 + x <= u64::MAX {
            lemma_fold_exact(hi, 100, x);
        }
    }
    hi.wrapping_mul(100).wrapping_add(x)
}

/// Parses the next 4 bytes and appends them as the lowest digits of `hi`.
pub(crate) fn fold_4(s: &mut &[u8], err: &mut u64, hi: u64) -> (r: u64)
    requires
        old(s)@.len() >= 4,
    ensures
        final(s)@ == old(s)@.subrange(4, old(s)@.len() as int),
        chunk_folded(
            old(s)@.subrange(0, 4),
            *old(err),
            *final(err),
            hi as nat,
            r as nat,
            u64::MAX as nat,
        ),
{
    let x = parse_4(s, err);
    proof {
        lemma_pow10_small();
        if all_digits(old(s)@.subrange(0, 4)) && hi * 10000 + x <= u64::MAX {
            lemma_fold_exact(hi, 10000, x);
        }
    }
    hi.wrapping_mul(10000).wrapping_add(x)
}

/// Parses the next 8 bytes and appends them as the lowest digits of `hi`.
pub(crate) fn fold_8(s: &mut &[u8], err: &mut u64, hi: u64) -> (r: u64)
    requires
        old(s)@.len() >= 8,
    ensures
        final(s)@ == old(s)@.subrange(8, old(s)@.len() as int),
        chunk_folded(
            old(s)@.subrange(0, 8),
            *old(err),
            *final(err),
            hi as nat,
            r as nat,
            u64::MAX as nat,
        ),
{
    let x = parse_8(s, err);
    proof {
        lemma_pow10_small();
        if all_digits(old(s)@.subrange(0, 8)) && hi * 100000000 + x <= u64::MAX {
            lemma_fold_exact(hi, 100000000, x);
        }
    }
    hi.wrapping_mul(100000000).wrapping_add(x)
}

/// Parses exactly 3 bytes.
pub(crate) fn parse_3(s: &mut &[u8], err: &mut u64) -> (r: u64)
    requires
        old(s)@.len() >= 3,
    ensures
        final(s)@ == old(s)@.subrange(3, old(s)@.len() as int),
        chunk_parsed(old(s)@.subrange(0, 3), *old(err), *final(err), r as nat),
{
    let ghost orig = old(s)@.subrange(0, 3);
    let ghost rest = s@.subrange(2, 3);
    let hi = parse_2(s, err);
    let ghost e1 = *err;
    let ghost mid = s@;
    let r = fold_1(s, err, hi);
    proof {
        assert(mid.subrange(0, 1) =~= old(s)@.subrange(2, 3));
        assert(orig.subrange(0, 2) =~= old(s)@.subrange(0, 2));
        assert(rest =~= orig.subrange(2, 3));
        assert(rest.subrange(0, 1) =~= old(s)@.subrange(2, 3));
        lemma_pow10_small();
        lemma_advance(orig, rest, 2, 1, *old(err), e1, *err, hi as nat, r as nat, u64::MAX as nat);
        assert(orig.subrange(0, 3) =~= orig);
        assert(s@ =~= old(s)@.subrange(3, old(s)@.len() as int));
    }
    r
}

/// Parses exactly 5 bytes.
pub(crate) fn parse_5(s: &mut &[u8], err: &mut u64) -> (r: u64)
    requires
        old(s)@.len() >= 5,
    ensures
        final(s)@ == old(s)@.subrange(5, old(s)@.len() as int),
        chunk_parsed(old(s)@.subrange(0, 5), *old(err), *final(err), r as nat),
{
    let ghost orig = old(s)@.subrange(0, 5);
    let ghost rest = s@.subrange(4, 5);
    let hi = parse_4(s, err);
    let ghost e1 = *err;
    let ghost mid = s@;
    let r = fold_1(s, err, hi);
    proof {
        assert(mid.subrange(0, 1) =~= old(s)@.subrange(4, 5));
        assert(orig.subrange(0, 4) =~= old(s)@.subrange(0, 4));
        assert(rest =~= orig.subrange(4, 5));
        assert(rest.subrange(0, 1) =~= old(s)@.subrange(4, 5));
        reveal_with_fuel(pow10, 6);
        lemma_advance(orig, rest, 4, 1, *old(err), e1, *err, hi as nat, r as nat, u64::MAX as nat);
        assert(orig.subrange(0, 5) =~= orig);
        assert(s@ =~= old(s)@.subrange(5, old(s)@.len() as int));
    }
    r
}

/// One optional step of a chained parse: where `before` holds at least `k` bytes,
/// its first `k` were folded onto `hi`; otherwise nothing changed.
pub open spec fn maybe_folded(
    before: Seq<u8>,
    after: Seq<u8>,
    k: int,
    e0: u64,
    e1: u64,
    hi: nat,
    r: nat,
) -> bool {
    if before.len() >= k {
        &&& after == before.subrange(k, before.len() as int)
        &&& chunk_folded(before.subrange(0, k), e0, e1, hi, r, u64::MAX as nat)
    } else {
        after == before && e1 == e0 && r == hi
    }
}

/// Parses 8 more bytes onto `res` where at least 8 are left.
pub(crate) fn maybe_parse_8(s: &mut &[u8], err: &mut u64, res: &mut u64)
    ensures
        maybe_folded(
            old(s)@,
            final(s)@,
            8,
            *old(err),
            *final(err),
            *old(res) as nat,
            *final(res) as nat,
        ),
{
    if s.len() >= 8 {
        *res = fold_8(s, err, *res);
    }
}

/// Parses 4 more bytes onto `res` where at least 4 are left.
pub(crate) fn maybe_parse_4(s: &mut &[u8], err: &mut u64, res: &mut u64)
    ensures
        maybe_folded(
            old(s)@,
            final(s)@,
            4,
            *old(err),
            *final(err),
            *old(res) as nat,
            *final(res) as nat,
        ),
{
    if s.len() >= 4 {
        *res = fold_4(s, err, *res);
    }
}

/// Parses 2 more bytes onto `res` where at least 2 are left.
pub(crate) fn maybe_parse_2(s: &mut &[u8], err: &mut u64, res: &mut u64)
    ensures
        maybe_folded(
            old(s)@,
            final(s)@,
            2,
            *old(err),
            *final(err),
            *old(res) as nat,
            *final(res) as nat,
        ),
{
    if s.len() >= 2 {
        *res = fold_2(s, err, *res);
    }
}

/// Parses 1 more byte onto `res` where one is left.
pub(crate) fn maybe_parse_1(s: &mut &[u8], err: &mut u64, res: &mut u64)
    ensures
        maybe_folded(
            old(s)@,
            final(s)@,
            1,
            *old(err),
            *final(err),
            *old(res) as nat,
            *final(res) as nat,
        ),
{
    if !s.is_empty() {
        *res = fold_1(s, err, *res);
    }
}

/// Skips `'0'` bytes at the front of `s` while more than `until` bytes are left.
pub(crate) fn strip_leading_zeros(s: &mut &[u8], until: usize)
    ensures
        final(s)@.len() <= old(s)@.len(),
        old(s)@ == zeros((old(s)@.len() - final(s)@.len()) as nat) + final(s)@,
        final(s)@.len() > until ==> final(s)@[0] != ZERO,
        final(s)@.len() < old(s)@.len() ==> final(s)@.len() >= until,
{
    while s.len() > until && s[0] == ZERO
        invariant
            s@.len() <= old(s)@.len(),
            old(s)@ == zeros((old(s)@.len() - s@.len()) as nat) + s@,
            s@.len() < old(s)@.len() ==> s@.len() >= until,
        decreases s@.len(),
    {
        let ghost prev = s@;
        *s = &s[1..s.len()];
        proof {
            let n = (old(s)@.len() - prev.len()) as nat;
            assert(zeros(n + 1) =~= zeros(n).push(ZERO));
            assert(prev =~= seq![ZERO] + s@);
            assert(zeros(n + 1) + s@ =~= zeros(n) + prev);
        }
    }
}

/// Skips a leading `'+'`.
pub(crate) fn parse_plus_sign(s: &mut &[u8])
    requires
        old(s)@.len() >= 1,
    ensures
        final(s)@ == old(s)@.drop_first(),
{
    *s = &s[1..s.len()];
}

/// `r` is the parity of `n = 2 * h + r`.
proof fn lemma_parity(n: int, h: int, r: int)
    requires
        n == 2 * h + r,
        0 <= r <= 1,
    ensures
        r == n % 2,
{
}

/// Parses up to 38 bytes into a 128-bit value: all of them when their number is even,
/// all but the last when it is odd, which is left for the caller.
pub(crate) fn parse_up_to_38(s: &mut &[u8], err: &mut u64) -> (r: u128)
    requires
        old(s)@.len() <= 39,
    ensures
        final(s)@.len() == old(s)@.len() % 2,
        final(s)@.len() <= old(s)@.len(),
        old(s)@.len() - final(s)@.len() <= 38,
        final(s)@ == old(s)@.subrange(old(s)@.len() - final(s)@.len(), old(s)@.len() as int),
        chunk_parsed(
            old(s)@.subrange(0, old(s)@.len() - final(s)@.len()),
            *old(err),
            *final(err),
            r as nat,
        ),
{
    let ghost orig = s@;
    let ghost e0 = *err;
    proof {
        assert(orig.subrange(0, 0) =~= Seq::<u8>::empty());
        assert(orig.subrange(0, orig.len() as int) =~= orig);
        assert(decimal_value(Seq::<u8>::empty()) == 0);
        lemma_or_zero(e0, 0);
        lemma_pow10_small();
    }
    let mut res: u128 = 0;
    let ghost mut pairs: int = 0;
    if s.len() >= 16 {
        let ghost rest = s@;
        let ghost e1 = *err;
        res = parse_16(s, err) as u128;
        proof {
            pairs = pairs + 8;
        }
        proof {
            lemma_advance(orig, rest, 0, 16, e0, e1, *err, 0, res as nat, u128::MAX as nat);
        }
    }
    if s.len() >= 16 {
        let ghost rest = s@;
        let ghost e1 = *err;
        let ghost hi = res;
        let x = parse_16(s, err) as u128;
        proof {
            pairs = pairs + 8;
        }
        proof {
            if all_digits(rest.subrange(0, 16)) && hi * 10000000000000000 + x <= u128::MAX {
                lemma_fold_exact_128(hi, 10000000000000000, x);
            }
            assert(orig.len() - rest.len() + 16 <= 38);
            lemma_pow10_mono((orig.len() - rest.len() + 16) as nat, 38);
        }
        res = res.wrapping_mul(10000000000000000);
        res = res.wrapping_add(x);
        proof {
            lemma_advance(
                orig,
                rest,
                orig.len() - rest.len(),
                16,
                e0,
                e1,
                *err,
                hi as nat,
                res as nat,
                u128::MAX as nat,
            );
        }
    } else if s.len() >= 8 {
        let ghost rest = s@;
        let ghost e1 = *err;
        let ghost hi = res;
        let x = parse_8(s, err) as u128;
        proof {
            pairs = pairs + 4;
        }
        proof {
            if all_digits(rest.subrange(0, 8)) && hi * 100000000 + x <= u128::MAX {
                lemma_fold_exact_128(hi, 100000000, x);
            }
            assert(orig.len() - rest.len() + 8 <= 38);
            lemma_pow10_mono((orig.len() - rest.len() + 8) as nat, 38);
        }
        res = res.wrapping_mul(100000000);
        res = res.wrapping_add(x);
        proof {
            lemma_advance(
                orig,
                rest,
                orig.len() - rest.len(),
                8,
                e0,
                e1,
                *err,
                hi as nat,
                res as nat,
                u128::MAX as nat,
            );
        }
    }
    if s.len() >= 4 {
        let ghost rest = s@;
        let ghost e1 = *err;
        let ghost hi = res;
        let x = parse_4(s, err) as u128;
        proof {
            pairs = pairs + 2;
        }
        proof {
            if all_digits(rest.subrange(0, 4)) && hi * 10000 + x <= u128::MAX {
                lemma_fold_exact_128(hi, 10000, x);
            }
            assert(orig.len() - rest.len() + 4 <= 38);
            lemma_pow10_mono((orig.len() - rest.len() + 4) as nat, 38);
        }
        res = res.wrapping_mul(10000);
        res = res.wrapping_add(x);
        proof {
            lemma_advance(
                orig,
                rest,
                orig.len() - rest.len(),
                4,
                e0,
                e1,
                *err,
                hi as nat,
                res as nat,
                u128::MAX as nat,
            );
        }
    }
    if s.len() >= 2 {
        let ghost rest = s@;
        let ghost e1 = *err;
        let ghost hi = res;
        let x = parse_2(s, err) as u128;
        proof {
            pairs = pairs + 1;
        }
        proof {
            if all_digits(rest.subrange(0, 2)) && hi * 100 + x <= u128::MAX {
                lemma_fold_exact_128(hi, 100, x);
            }
            assert(orig.len() - rest.len() + 2 <= 38);
            lemma_pow10_mono((orig.len() - rest.len() + 2) as nat, 38);
        }
        res = res.wrapping_mul(100);
        res = res.wrapping_add(x);
        proof {
            lemma_advance(
                orig,
                rest,
                orig.len() - rest.len(),
                2,
                e0,
                e1,
                *err,
                hi as nat,
                res as nat,
                u128::MAX as nat,
            );
        }
    }
    proof {
        lemma_parity(orig.len() as int, pairs, s@.len() as int);
    }
    res
}

/// Folds 4 more bytes onto `hi` and flags a result above `u64::MAX`: the one range
/// check of a 64-bit parse, made where the value can first exceed it.
pub(crate) fn fold_4_checked(s: &mut &[u8], err: &mut u64, hi: u64) -> (r: u64)
    requires
        old(s)@.len() >= 4,
    ensures
        final(s)@ == old(s)@.subrange(4, old(s)@.len() as int),
        *final(err) == 0 <==> (*old(err) == 0 && all_digits(old(s)@.subrange(0, 4)) && hi * 10000
            + decimal_value(old(s)@.subrange(0, 4)) <= u64::MAX),
        *final(err) == 0 ==> r == hi * 10000 + decimal_value(old(s)@.subrange(0, 4)),
{
    let ghost e0 = *err;
    let x = parse_4(s, err);
    let ghost e1 = *err;
    if hi >= 18446744_07370955 {
        let wide = hi as u128 * 10000 + x as u128;
        let overflow = (wide >> 64) as u64;
        proof {
            lemma_high_half(wide);
            lemma_or_zero(e1, overflow);
        }
        *err = *err | overflow;
    }
    proof {
        let c = old(s)@.subrange(0, 4);
        lemma_pow10_small();
        if all_digits(c) {
            lemma_decimal_bound(c);
            if hi * 10000 + x <= u64::MAX {
                lemma_fold_exact(hi, 10000, x);
            }
        }
        if e1 != 0 {
            lemma_or_zero(e1, *err);
        }
    }
    hi.wrapping_mul(10000).wrapping_add(x)
}

/// A chained parse of `orig`, with range limit `max`, has reached `rest`: the consumed
/// prefix was parsed into `res`.
pub open spec fn within(orig: Seq<u8>, rest: Seq<u8>, e0: u64, e: u64, res: nat, max: nat) -> bool {
    let pos = orig.len() - rest.len();
    &&& rest.len() <= orig.len()
    &&& rest == orig.subrange(pos, orig.len() as int)
    &&& digits_parsed(orig.subrange(0, pos), e0, e, res, max)
}

/// Nothing is consumed yet.
pub proof fn lemma_within_start(orig: Seq<u8>, e0: u64, max: nat)
    ensures
        within(orig, orig, e0, e0, 0, max),
{
    assert(orig.subrange(0, 0) =~= Seq::<u8>::empty());
    assert(orig.subrange(0, orig.len() as int) =~= orig);
    assert(decimal_value(Seq::<u8>::empty()) == 0);
}

/// A whole digit chunk, short enough that it cannot exceed `max`.
pub proof fn lemma_chunk_within(c: Seq<u8>, e0: u64, e: u64, r: nat, max: nat)
    requires
        chunk_parsed(c, e0, e, r),
        pow10(c.len()) <= max + 1,
    ensures
        digits_parsed(c, e0, e, r, max),
{
    if all_digits(c) {
        lemma_decimal_bound(c);
    }
}

/// An optional step keeps a chained parse on track while at most `d` digits are
/// consumed, where no `d` digits can exceed `max`.
pub proof fn lemma_within_step(
    orig: Seq<u8>,
    rest: Seq<u8>,
    rest2: Seq<u8>,
    k: int,
    e0: u64,
    e1: u64,
    e2: u64,
    hi: nat,
    r: nat,
    d: nat,
    max: nat,
)
    requires
        0 <= k,
        within(orig, rest, e0, e1, hi, max),
        maybe_folded(rest, rest2, k, e1, e2, hi, r),
        rest.len() >= k ==> orig.len() - rest.len() + k <= d,
        pow10(d) <= max + 1,
        max <= u64::MAX,
    ensures
        within(orig, rest2, e0, e2, r, max),
{
    if rest.len() >= k {
        let pos = orig.len() - rest.len();
        let c = orig.subrange(0, pos + k);
        assert(c.subrange(0, pos) =~= orig.subrange(0, pos));
        assert(c.subrange(pos, pos + k) =~= rest.subrange(0, k));
        assert(rest2 =~= orig.subrange(pos + k, orig.len() as int));
        let p = orig.subrange(0, pos);
        let ch = rest.subrange(0, k);
        lemma_decimal_split(c, pos);
        lemma_pow10_mono((pos + k) as nat, d);
        lemma_pow10_mono(pos as nat, d);
        assert(decimal_value(c) == decimal_value(p) * pow10(k as nat) + decimal_value(ch));
        if all_digits(c) {
            lemma_decimal_bound(c);
            lemma_decimal_bound(p);
            assert(decimal_value(c) <= max);
            assert(decimal_value(p) <= max);
        }
    }
}

/// The checked fold keeps a chained 64-bit parse on track whatever its length.
pub proof fn lemma_within_checked(
    orig: Seq<u8>,
    rest: Seq<u8>,
    rest2: Seq<u8>,
    e0: u64,
    e1: u64,
    e2: u64,
    hi: u64,
    r: u64,
)
    requires
        rest.len() >= 4,
        within(orig, rest, e0, e1, hi as nat, u64::MAX as nat),
        rest2 == rest.subrange(4, rest.len() as int),
        e2 == 0 <==> (e1 == 0 && all_digits(rest.subrange(0, 4)) && hi * 10000 + decimal_value(
            rest.subrange(0, 4),
        ) <= u64::MAX),
        e2 == 0 ==> r == hi * 10000 + decimal_value(rest.subrange(0, 4)),
    ensures
        within(orig, rest2, e0, e2, r as nat, u64::MAX as nat),
{
    let pos = orig.len() - rest.len();
    let c = orig.subrange(0, pos + 4);
    assert(c.subrange(0, pos) =~= orig.subrange(0, pos));
    assert(c.subrange(pos, pos + 4) =~= rest.subrange(0, 4));
    assert(rest2 =~= orig.subrange(pos + 4, orig.len() as int));
    lemma_decimal_split(c, pos);
    lemma_pow10_small();
    assert(decimal_value(c) == decimal_value(c.subrange(0, pos)) * 10000 + decimal_value(
        rest.subrange(0, 4),
    ));
}

/// A chained parse that consumed everything parsed the whole input.
pub proof fn lemma_within_done(orig: Seq<u8>, rest: Seq<u8>, e0: u64, e: u64, res: nat, max: nat)
    requires
        within(orig, rest, e0, e, res, max),
        rest.len() == 0,
    ensures
        digits_parsed(orig, e0, e, res, max),
{
    assert(orig.subrange(0, orig.len() as int) =~= orig);
}

/// Flags a value above `max` in a parse made with the 64-bit limit.
pub(crate) proof fn lemma_narrow(s: Seq<u8>, e0: u64, e: u64, over: u64, res: u64, max: nat)
    requires
        digits_parsed(s, e0, e, res as nat, u64::MAX as nat),
        over == 0 <==> res <= max,
        max <= u64::MAX,
    ensures
        digits_parsed(s, e0, e | over, res as nat, max),
{
    lemma_or_zero(e, over);
}

} // verus!
