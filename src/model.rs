//! The mathematical model of decimal text: digit strings, their values, and the
//! grammars accepted by the parsers.
use vstd::prelude::*;

verus! {

/// The ASCII code of `'+'`.
pub const PLUS: u8 = 43;

/// The ASCII code of `'-'`.
pub const MINUS: u8 = 45;

/// The ASCII code of `'0'`.
pub const ZERO: u8 = 48;

/// `b` is one of the ASCII digits `'0'..='9'`.
pub open spec fn is_digit(b: u8) -> bool {
    48 <= b && b <= 57
}

/// Every byte of `s` is an ASCII digit.
pub open spec fn all_digits(s: Seq<u8>) -> bool {
    forall|i: int| 0 <= i < s.len() ==> #[trigger] is_digit(s[i])
}

/// The value of a digit byte.
pub open spec fn digit_value(b: u8) -> nat {
    (b - 48) as nat
}

/// The number that the digit string `s` writes in base ten, most significant digit first.
pub open spec fn decimal_value(s: Seq<u8>) -> nat
    decreases s.len(),
{
    if s.len() == 0 {
        0
    } else {
        decimal_value(s.drop_last()) * 10 + digit_value(s.last())
    }
}

/// Ten to the power `n`.
pub open spec fn pow10(n: nat) -> nat
    decreases n,
{
    if n == 0 {
        1
    } else {
        10 * pow10((n - 1) as nat)
    }
}

/// The value of `s` under the grammar `[0-9]+`.
pub open spec fn magnitude(s: Seq<u8>) -> Option<nat> {
    if s.len() > 0 && all_digits(s) {
        Some(decimal_value(s))
    } else {
        None
    }
}

/// The value of `s` under the grammar `[+]?[0-9]+`, or `[0-9]+` when `plus` is false.
pub open spec fn unsigned_value(s: Seq<u8>, plus: bool) -> Option<nat> {
    if plus && s.len() > 0 && s[0] == PLUS {
        magnitude(s.drop_first())
    } else {
        magnitude(s)
    }
}

/// The value of `s` under the grammar `[+-]?[0-9]+`.
pub open spec fn signed_value(s: Seq<u8>) -> Option<int> {
    if s.len() > 0 && s[0] == MINUS {
        match magnitude(s.drop_first()) {
            Some(m) => Some(-(m as int)),
            None => None,
        }
    } else if s.len() > 0 && s[0] == PLUS {
        match magnitude(s.drop_first()) {
            Some(m) => Some(m as int),
            None => None,
        }
    } else {
        match magnitude(s) {
            Some(m) => Some(m as int),
            None => None,
        }
    }
}

/// `v`, where it is at most `max`.
pub open spec fn at_most(v: Option<nat>, max: nat) -> Option<nat> {
    match v {
        Some(n) => if n <= max {
            Some(n)
        } else {
            None
        },
        None => None,
    }
}

/// What an unsigned parser whose largest value is `max` accepts: the value of `s`
/// when it is well formed and at most `max`.
pub open spec fn unsigned_checked(s: Seq<u8>, plus: bool, max: nat) -> Option<nat> {
    at_most(unsigned_value(s, plus), max)
}

/// What a signed parser with range `min..=max` accepts.
pub open spec fn signed_checked(s: Seq<u8>, min: int, max: int) -> Option<int> {
    match signed_value(s) {
        Some(v) => if min <= v && v <= max {
            Some(v)
        } else {
            None
        },
        None => None,
    }
}

/// A kernel that consumed `chunk` left the error accumulator at `after` (from `before`)
/// and produced `value`. The accumulator only gains bits: it keeps those it had, it is
/// left as it was when every byte is a digit, and it is zero exactly when it was zero
/// and every byte was a digit. Then `value` is the chunk's number.
pub open spec fn chunk_parsed(chunk: Seq<u8>, before: u64, after: u64, value: nat) -> bool {
    &&& after & before == before
    &&& (all_digits(chunk) ==> after == before)
    &&& (after == 0 <==> (before == 0 && all_digits(chunk)))
    &&& (all_digits(chunk) ==> value == decimal_value(chunk))
}

/// The digits of `a` followed by those of `b`: `a` is shifted by `b.len()` places.
pub proof fn lemma_decimal_append(a: Seq<u8>, b: Seq<u8>)
    ensures
        decimal_value(a + b) == decimal_value(a) * pow10(b.len()) + decimal_value(b),
    decreases b.len(),
{
    if b.len() == 0 {
        assert(a + b =~= a);
        assert(decimal_value(b) == 0);
        assert(pow10(0) == 1);
    } else {
        let b1 = b.drop_last();
        assert((a + b).drop_last() =~= a + b1);
        assert((a + b).last() == b.last());
        lemma_decimal_append(a, b1);
        let p = pow10(b1.len());
        assert(pow10(b.len()) == 10 * p);
        assert(decimal_value(b) == decimal_value(b1) * 10 + digit_value(b.last()));
        assert(decimal_value(a + b) == decimal_value(a + b1) * 10 + digit_value(b.last()));
        assert((decimal_value(a) * p + decimal_value(b1)) * 10 + digit_value(b.last())
            == decimal_value(a) * (10 * p) + (decimal_value(b1) * 10 + digit_value(b.last())))
            by (nonlinear_arith);
    }
}

/// `all_digits` of a concatenation.
pub proof fn lemma_all_digits_append(a: Seq<u8>, b: Seq<u8>)
    ensures
        all_digits(a + b) <==> (all_digits(a) && all_digits(b)),
{
    if all_digits(a + b) {
        assert forall|i: int| 0 <= i < a.len() implies #[trigger] is_digit(a[i]) by {
            assert((a + b)[i] == a[i]);
        }
        assert forall|i: int| 0 <= i < b.len() implies #[trigger] is_digit(b[i]) by {
            assert((a + b)[a.len() + i] == b[i]);
        }
    }
}

/// A digit string of length `n` writes a number below `10^n`.
pub proof fn lemma_decimal_bound(s: Seq<u8>)
    requires
        all_digits(s),
    ensures
        decimal_value(s) < pow10(s.len()),
    decreases s.len(),
{
    if s.len() > 0 {
        let t = s.drop_last();
        assert(all_digits(t)) by {
            assert forall|i: int| 0 <= i < t.len() implies #[trigger] is_digit(t[i]) by {
                assert(t[i] == s[i]);
            }
        }
        assert(is_digit(s[s.len() - 1]));
        lemma_decimal_bound(t);
        let v = decimal_value(t);
        let p = pow10(t.len());
        assert(v * 10 + digit_value(s.last()) < 10 * p) by (nonlinear_arith)
            requires
                v < p,
                digit_value(s.last()) < 10,
        ;
    }
}

/// The value of one digit.
pub proof fn lemma_decimal_1(s: Seq<u8>)
    requires
        s.len() == 1,
    ensures
        decimal_value(s) == digit_value(s[0]),
{
    assert(s.drop_last().len() == 0);
    assert(decimal_value(s.drop_last()) == 0);
}

/// The value of two digits.
pub proof fn lemma_decimal_2(s: Seq<u8>)
    requires
        s.len() == 2,
    ensures
        decimal_value(s) == 10 * digit_value(s[0]) + digit_value(s[1]),
        all_digits(s) <==> (is_digit(s[0]) && is_digit(s[1])),
{
    lemma_decimal_1(s.drop_last());
    if is_digit(s[0]) && is_digit(s[1]) {
        assert forall|i: int| 0 <= i < s.len() implies #[trigger] is_digit(s[i]) by {
            if i == 1 {
            }
        }
    }
}

/// The value of four digits, as two pairs.
pub proof fn lemma_decimal_4(s: Seq<u8>)
    requires
        s.len() == 4,
    ensures
        decimal_value(s) == 100 * (10 * digit_value(s[0]) + digit_value(s[1])) + (10
            * digit_value(s[2]) + digit_value(s[3])),
        all_digits(s) <==> (is_digit(s[0]) && is_digit(s[1]) && is_digit(s[2]) && is_digit(
            s[3],
        )),
{
    lemma_decimal_split(s, 2);
    lemma_decimal_2(s.subrange(0, 2));
    lemma_decimal_2(s.subrange(2, 4));
    lemma_pow10_small();
}

/// The value of eight digits, as two quadruples.
pub proof fn lemma_decimal_8(s: Seq<u8>)
    requires
        s.len() == 8,
    ensures
        decimal_value(s) == 10000 * decimal_value(s.subrange(0, 4)) + decimal_value(
            s.subrange(4, 8),
        ),
        all_digits(s) <==> (all_digits(s.subrange(0, 4)) && all_digits(s.subrange(4, 8))),
{
    lemma_decimal_split(s, 4);
    lemma_pow10_small();
}

/// The powers of ten that the chunk sizes use.
pub proof fn lemma_pow10_small()
    ensures
        pow10(0) == 1,
        pow10(1) == 10,
        pow10(2) == 100,
        pow10(3) == 1000,
        pow10(4) == 10000,
        pow10(8) == 100000000,
        pow10(16) == 10000000000000000,
        pow10(19) == 10000000000000000000,
        pow10(20) == 100000000000000000000,
        pow10(38) == 100000000000000000000000000000000000000,
        pow10(39) == 1000000000000000000000000000000000000000,
{
    reveal_with_fuel(pow10, 40);
}

/// Powers of ten grow with the exponent.
pub proof fn lemma_pow10_mono(a: nat, b: nat)
    requires
        a <= b,
    ensures
        pow10(a) <= pow10(b),
    decreases b,
{
    if a < b {
        lemma_pow10_mono(a, (b - 1) as nat);
    }
}

/// A string of `'0'` bytes.
pub open spec fn zeros(n: nat) -> Seq<u8> {
    Seq::new(n, |i: int| ZERO)
}

/// Leading zeros change neither the value nor whether all bytes are digits.
pub proof fn lemma_leading_zeros(n: nat, s: Seq<u8>)
    ensures
        decimal_value(zeros(n) + s) == decimal_value(s),
        all_digits(zeros(n) + s) <==> all_digits(s),
{
    lemma_decimal_append(zeros(n), s);
    lemma_all_digits_append(zeros(n), s);
    lemma_zeros_value(n);
    assert(all_digits(zeros(n)));
}

/// A string of zeros writes zero.
proof fn lemma_zeros_value(n: nat)
    ensures
        decimal_value(zeros(n)) == 0,
    decreases n,
{
    if n > 0 {
        assert(zeros(n).drop_last() =~= zeros((n - 1) as nat));
        lemma_zeros_value((n - 1) as nat);
    }
}

/// A digit string without a leading zero writes at least `10^(len - 1)`.
pub proof fn lemma_decimal_lower_bound(s: Seq<u8>)
    requires
        s.len() >= 1,
        all_digits(s),
        s[0] != ZERO,
    ensures
        decimal_value(s) >= pow10((s.len() - 1) as nat),
{
    lemma_decimal_split(s, 1);
    lemma_decimal_1(s.subrange(0, 1));
    let p = pow10((s.len() - 1) as nat);
    assert(is_digit(s[0]));
    assert(digit_value(s[0]) * p >= p) by (nonlinear_arith)
        requires
            digit_value(s[0]) >= 1,
    ;
}

/// `decimal_value` splits at any point `k` of `s`.
pub proof fn lemma_decimal_split(s: Seq<u8>, k: int)
    requires
        0 <= k <= s.len(),
    ensures
        decimal_value(s) == decimal_value(s.subrange(0, k)) * pow10((s.len() - k) as nat)
            + decimal_value(s.subrange(k, s.len() as int)),
        all_digits(s) <==> (all_digits(s.subrange(0, k)) && all_digits(
            s.subrange(k, s.len() as int),
        )),
{
    let a = s.subrange(0, k);
    let b = s.subrange(k, s.len() as int);
    assert(s =~= a + b);
    lemma_decimal_append(a, b);
    lemma_all_digits_append(a, b);
}

/// A digit string's value is unchanged by zero padding on the left.
pub proof fn lemma_magnitude_zeros(n: nat, s: Seq<u8>)
    requires
        s.len() > 0,
    ensures
        magnitude(zeros(n) + s) == magnitude(s),
{
    lemma_leading_zeros(n, s);
}

/// More than `d` digits without a leading zero write at least `10^d`.
pub proof fn lemma_too_long(s: Seq<u8>, d: nat)
    requires
        s.len() > d,
        s[0] != ZERO,
        all_digits(s),
    ensures
        decimal_value(s) >= pow10(d),
{
    lemma_decimal_lower_bound(s);
    lemma_pow10_mono(d, (s.len() - 1) as nat);
}

/// A digit parser for values up to `max` that consumed `s` left the accumulator at
/// `after` (from `before`) and produced `r`: the accumulator is zero exactly when it
/// was zero and `s` is a digit string whose number is at most `max`, and then `r`
/// is that number.
pub open spec fn digits_parsed(s: Seq<u8>, before: u64, after: u64, r: nat, max: nat) -> bool {
    &&& (after == 0 <==> (before == 0 && all_digits(s) && decimal_value(s) <= max))
    &&& (after == 0 ==> r == decimal_value(s))
}

/// Digits that a width's parser accepted or refused after `n` leading zeros were
/// skipped decide the whole input.
pub proof fn lemma_accepts_stripped(
    orig: Seq<u8>,
    t: Seq<u8>,
    n: nat,
    e: u64,
    r: nat,
    max: nat,
)
    requires
        orig == zeros(n) + t,
        t.len() > 0,
        digits_parsed(t, 0, e, r, max),
    ensures
        e == 0 <==> at_most(magnitude(orig), max) is Some,
        e == 0 ==> at_most(magnitude(orig), max) == Some(r),
{
    lemma_magnitude_zeros(n, t);
}

/// Input that is empty, or still longer than `d` digits once leading zeros are
/// skipped, is refused by a width whose largest value is below `10^d`.
pub proof fn lemma_refuses_stripped(orig: Seq<u8>, t: Seq<u8>, n: nat, d: nat, max: nat)
    requires
        orig == zeros(n) + t,
        (orig.len() == 0) || (t.len() > d && t[0] != ZERO),
        max < pow10(d),
    ensures
        at_most(magnitude(orig), max) is None,
{
    if orig.len() > 0 {
        lemma_magnitude_zeros(n, t);
        if all_digits(t) {
            lemma_too_long(t, d);
        }
    }
}

/// The largest magnitude that a signed target with range `min..=max` takes with `sign`.
pub open spec fn magnitude_bound(sign: int, min: int, max: int) -> nat {
    if sign < 0 {
        (-min) as nat
    } else {
        max as nat
    }
}

/// A signed digit parser for magnitudes up to `bound` that consumed `s` with `sign`
/// left the accumulator at `after` (from `before`) and produced `r`.
pub open spec fn signed_parsed(
    s: Seq<u8>,
    before: u64,
    after: u64,
    r: int,
    sign: int,
    bound: nat,
) -> bool {
    &&& (after == 0 <==> (before == 0 && all_digits(s) && decimal_value(s) <= bound))
    &&& (after == 0 ==> r == sign * decimal_value(s))
}

/// `body` is `s` with its sign byte, if any, taken off; `sign` is that sign.
pub open spec fn split_sign(s: Seq<u8>, body: Seq<u8>, sign: int) -> bool {
    if s.len() > 0 && s[0] == MINUS {
        sign == -1 && body == s.drop_first()
    } else if s.len() > 0 && s[0] == PLUS {
        sign == 1 && body == s.drop_first()
    } else {
        sign == 1 && body == s
    }
}

/// The digits after the sign, once leading zeros are skipped, decide a signed parse.
pub proof fn lemma_signed_accepts(
    orig: Seq<u8>,
    body: Seq<u8>,
    t: Seq<u8>,
    n: nat,
    sign: int,
    e: u64,
    r: int,
    min: int,
    max: int,
)
    requires
        split_sign(orig, body, sign),
        body == zeros(n) + t,
        t.len() > 0,
        min < 0 <= max,
        signed_parsed(t, 0, e, r, sign, magnitude_bound(sign, min, max)),
    ensures
        e == 0 <==> signed_checked(orig, min, max) is Some,
        e == 0 ==> signed_checked(orig, min, max) == Some(r),
{
    lemma_magnitude_zeros(n, t);
}

/// A signed input whose digits are missing, or still more than `d` once leading zeros
/// are skipped, is refused where `10^d` exceeds every magnitude of the range.
pub proof fn lemma_signed_refuses(
    orig: Seq<u8>,
    body: Seq<u8>,
    t: Seq<u8>,
    n: nat,
    sign: int,
    d: nat,
    min: int,
    max: int,
)
    requires
        split_sign(orig, body, sign),
        body == zeros(n) + t,
        (body.len() == 0) || (t.len() > d && t[0] != ZERO),
        min < 0 <= max,
        -min < pow10(d),
        max < pow10(d),
    ensures
        signed_checked(orig, min, max) is None,
{
    lemma_refuses_stripped(body, t, n, d, magnitude_bound(sign, min, max));
}

/// The shortest decimal text of `n`: its digits, most significant first.
pub open spec fn decimal_text(n: nat) -> Seq<u8>
    decreases n,
{
    if n < 10 {
        seq![(48 + n) as u8]
    } else {
        decimal_text(n / 10).push((48 + n % 10) as u8)
    }
}

/// The decimal text of an integer: that of its magnitude, after `'-'` when negative.
pub open spec fn int_text(v: int) -> Seq<u8> {
    if v < 0 {
        seq![MINUS] + decimal_text((-v) as nat)
    } else {
        decimal_text(v as nat)
    }
}

/// `decimal_text(n)` is a digit string that writes `n`.
pub proof fn lemma_decimal_text(n: nat)
    ensures
        decimal_text(n).len() > 0,
        all_digits(decimal_text(n)),
        decimal_value(decimal_text(n)) == n,
    decreases n,
{
    let t = decimal_text(n);
    if n < 10 {
        lemma_decimal_1(t);
        assert forall|i: int| 0 <= i < t.len() implies #[trigger] is_digit(t[i]) by {}
    } else {
        let h = decimal_text(n / 10);
        lemma_decimal_text(n / 10);
        assert(t.drop_last() =~= h);
        assert forall|i: int| 0 <= i < t.len() implies #[trigger] is_digit(t[i]) by {
            if i < h.len() {
                assert(t[i] == h[i]);
            }
        }
        assert(n == (n / 10) * 10 + n % 10) by (nonlinear_arith);
    }
}

} // verus!
