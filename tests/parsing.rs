use fast_atoi::kernels::{parse_1, parse_16, parse_2, parse_4, parse_4_to_8, parse_8, parse_8_to_16};
use fast_atoi::{atoi, fallback, wide, FromRadix10Checked, FromRadix10CheckedNoPlus};

use std::fmt::Debug;
use std::str::FromStr;

// The reference: `str::parse` on a sign and digits, nothing else.
fn reference<I: FromStr>(data: &[u8]) -> Option<I> {
    let digits = match data.first() {
        Some(b'-') | Some(b'+') => &data[1..],
        _ => data,
    };
    if digits.is_empty() || !digits.iter().all(|b| b.is_ascii_digit()) {
        return None;
    }
    std::str::from_utf8(data).unwrap().parse().ok()
}

// Every input of one to three bytes agrees with the reference.
fn agrees_on_short_inputs<I: FromRadix10Checked + FromStr + PartialEq + Debug>() {
    for b1 in 0..=255u8 {
        let s1 = [b1];
        assert_eq!(atoi::<I>(&s1).ok(), reference::<I>(&s1), "{:?}", s1);
        for b2 in 0..=255u8 {
            let s2 = [b1, b2];
            assert_eq!(atoi::<I>(&s2).ok(), reference::<I>(&s2), "{:?}", s2);
            for b3 in 0..=255u8 {
                let s3 = [b1, b2, b3];
                assert_eq!(atoi::<I>(&s3).ok(), reference::<I>(&s3), "{:?}", s3);
            }
        }
    }
}

#[test]
fn short_inputs_u8() {
    agrees_on_short_inputs::<u8>();
}

#[test]
fn short_inputs_u64() {
    agrees_on_short_inputs::<u64>();
}

#[test]
fn short_inputs_i8() {
    agrees_on_short_inputs::<i8>();
}

#[test]
fn short_inputs_i128() {
    agrees_on_short_inputs::<i128>();
}

#[test]
fn short_inputs_u16() {
    agrees_on_short_inputs::<u16>();
}

#[test]
fn short_inputs_u32() {
    agrees_on_short_inputs::<u32>();
}

#[test]
fn short_inputs_u128() {
    agrees_on_short_inputs::<u128>();
}

#[test]
fn short_inputs_i16() {
    agrees_on_short_inputs::<i16>();
}

#[test]
fn short_inputs_i32() {
    agrees_on_short_inputs::<i32>();
}

#[test]
fn short_inputs_i64() {
    agrees_on_short_inputs::<i64>();
}

#[test]
fn boundary_cases() {
    assert_eq!(atoi::<u64>(b"18446744073709551615"), Ok(u64::MAX));
    assert!(atoi::<u64>(b"18446744073709551616").is_err());
    assert_eq!(atoi::<i32>(b"-2147483648"), Ok(i32::MIN));
    assert!(atoi::<i32>(b"2147483648").is_err());
    assert!(atoi::<u8>(b"256").is_err());
    assert_eq!(atoi::<u64>(b"+0"), Ok(0));
    assert!(u64::from_radix_10_checked_no_plus(b"+0").is_err());
    assert!(atoi::<u64>(b"").is_err());
}

#[test]
fn no_plus_variant() {
    assert_eq!(u8::from_radix_10_checked_no_plus(b"255"), Ok(255));
    assert!(u8::from_radix_10_checked_no_plus(b"+1").is_err());
    assert!(u16::from_radix_10_checked_no_plus(b"-1").is_err());
    assert_eq!(u32::from_radix_10_checked_no_plus(b"0004294967295"), Ok(u32::MAX));
    assert_eq!(
        u128::from_radix_10_checked_no_plus(b"340282366920938463463374607431768211455"),
        Ok(u128::MAX)
    );
    assert!(u128::from_radix_10_checked_no_plus(b"340282366920938463463374607431768211456").is_err());
}

#[test]
fn signs() {
    assert_eq!(atoi::<i8>(b"+0"), Ok(0));
    assert_eq!(atoi::<i8>(b"-0"), Ok(0));
    assert_eq!(atoi::<i8>(b"-128"), Ok(i8::MIN));
    assert!(atoi::<i8>(b"128").is_err());
    assert!(atoi::<i8>(b"-129").is_err());
    assert!(atoi::<i16>(b"--1").is_err());
    assert!(atoi::<i16>(b"+-1").is_err());
    assert!(atoi::<i32>(b"-").is_err());
    assert!(atoi::<i32>(b"+").is_err());
    assert!(atoi::<u32>(b"-1").is_err());
    assert_eq!(atoi::<i64>(b"-9223372036854775808"), Ok(i64::MIN));
    assert!(atoi::<i64>(b"9223372036854775808").is_err());
    assert_eq!(
        atoi::<i128>(b"-170141183460469231731687303715884105728"),
        Ok(i128::MIN)
    );
    assert!(atoi::<i128>(b"170141183460469231731687303715884105728").is_err());
}

#[test]
fn longest_inputs_for_128_bits() {
    let nines = [b'9'; 38];
    assert_eq!(
        atoi::<i128>(&nines),
        Ok(99999999999999999999999999999999999999)
    );
    let mut negative = vec![b'-'];
    negative.extend_from_slice(&nines);
    assert_eq!(
        atoi::<i128>(&negative),
        Ok(-99999999999999999999999999999999999999)
    );
    let more = [b'9'; 39];
    assert!(atoi::<i128>(&more).is_err());
    assert!(atoi::<u128>(&more).is_err());
    assert_eq!(
        atoi::<i128>(b"17014118346046923173168730371588410572"),
        Ok(17014118346046923173168730371588410572)
    );
    assert_eq!(
        atoi::<u128>(b"100000000000000000000000000000000000000"),
        Ok(100000000000000000000000000000000000000)
    );
}

#[test]
fn leading_zeros_keep_the_value() {
    for n in 0..60 {
        let mut s = vec![b'0'; n];
        s.extend_from_slice(b"4096");
        assert_eq!(atoi::<u16>(&s), Ok(4096));
        assert_eq!(atoi::<i64>(&s), Ok(4096));
        let mut neg = vec![b'-'];
        neg.extend_from_slice(&s);
        assert_eq!(atoi::<i32>(&neg), Ok(-4096));
    }
    let mut too_long = vec![b'0'; 5];
    too_long.extend_from_slice(b"123456");
    assert!(atoi::<u16>(&too_long).is_err());
}

#[test]
fn round_trip_extremes() {
    assert_eq!(atoi::<u8>(u8::MAX.to_string().as_bytes()), Ok(u8::MAX));
    assert_eq!(atoi::<u16>(u16::MAX.to_string().as_bytes()), Ok(u16::MAX));
    assert_eq!(atoi::<u32>(u32::MAX.to_string().as_bytes()), Ok(u32::MAX));
    assert_eq!(atoi::<u64>(u64::MAX.to_string().as_bytes()), Ok(u64::MAX));
    assert_eq!(atoi::<u128>(u128::MAX.to_string().as_bytes()), Ok(u128::MAX));
    assert_eq!(atoi::<i8>(i8::MIN.to_string().as_bytes()), Ok(i8::MIN));
    assert_eq!(atoi::<i16>(i16::MIN.to_string().as_bytes()), Ok(i16::MIN));
    assert_eq!(atoi::<i64>(i64::MIN.to_string().as_bytes()), Ok(i64::MIN));
    assert_eq!(atoi::<i128>(i128::MAX.to_string().as_bytes()), Ok(i128::MAX));
    for v in [0u64, 9, 10, 99, 100, 12345678, 123456789012345678] {
        assert_eq!(atoi::<u64>(v.to_string().as_bytes()), Ok(v));
    }
}

#[test]
fn kernels_decode_chunks() {
    let mut err = 0u64;
    let mut s: &[u8] = b"7x";
    assert_eq!(parse_1(&mut s, &mut err), 7);
    assert_eq!(err, 0);
    assert_eq!(s, b"x");

    let mut s: &[u8] = b"42";
    assert_eq!(parse_2(&mut s, &mut err), 42);
    let mut s: &[u8] = b"9051";
    assert_eq!(parse_4(&mut s, &mut err), 9051);
    let mut s: &[u8] = b"12345678rest";
    assert_eq!(parse_8(&mut s, &mut err), 12345678);
    assert_eq!(s, b"rest");
    let mut s: &[u8] = b"1234567890123456";
    assert_eq!(parse_16(&mut s, &mut err), 1234567890123456);
    assert_eq!(err, 0);
    assert!(s.is_empty());
}

#[test]
fn kernels_flag_every_non_digit() {
    for b in 0..=255u8 {
        let digit = b.is_ascii_digit();
        let mut err = 0u64;
        let mut s: &[u8] = &[b];
        parse_1(&mut s, &mut err);
        assert_eq!(err == 0, digit, "{}", b);
        for lane in 0..8 {
            let mut word = *b"00000000";
            word[lane] = b;
            let mut err = 0u64;
            let mut s: &[u8] = &word;
            let v = parse_8(&mut s, &mut err);
            assert_eq!(err == 0, digit, "{} at {}", b, lane);
            if digit {
                assert_eq!(v, ((b - b'0') as u64) * 10u64.pow(7 - lane as u32));
            }
        }
        for lane in 0..4 {
            let mut word = *b"0000";
            word[lane] = b;
            let mut err = 0u64;
            let mut s: &[u8] = &word;
            parse_4(&mut s, &mut err);
            assert_eq!(err == 0, digit, "{} at {}", b, lane);
        }
        for lane in 0..2 {
            let mut word = *b"00";
            word[lane] = b;
            let mut err = 0u64;
            let mut s: &[u8] = &word;
            parse_2(&mut s, &mut err);
            assert_eq!(err == 0, digit, "{} at {}", b, lane);
        }
    }
}

#[test]
fn error_accumulator_stays_set() {
    let mut err = 1u64;
    let mut s: &[u8] = b"12345678";
    assert_eq!(parse_8(&mut s, &mut err), 12345678);
    assert_ne!(err, 0);
}

#[test]
fn wide_and_chained_kernels_agree() {
    let fixed: [&[u8; 16]; 5] = [
        b"0000000000000000",
        b"9999999999999999",
        b"1234567890123456",
        b"12345678a0123456",
        b"/:/:/:/:/:/:/:/:",
    ];
    let mut inputs: Vec<[u8; 16]> = fixed.iter().map(|b| **b).collect();
    // A linear congruential sequence: mostly digits, now and then any byte.
    let mut state: u64 = 0x9e3779b97f4a7c15;
    for _ in 0..200000 {
        let mut chunk = [0u8; 16];
        for byte in chunk.iter_mut() {
            state = state.wrapping_mul(6364136223846793005).wrapping_add(1442695040888963407);
            let r = (state >> 33) as u32;
            *byte = if r % 97 == 0 { (r >> 8) as u8 } else { b'0' + (r % 10) as u8 };
        }
        inputs.push(chunk);
    }
    for input in &inputs {
        let (mut e1, mut e2) = (0u64, 0u64);
        let (mut s1, mut s2): (&[u8], &[u8]) = (input, input);
        let v1 = wide::parse_16(&mut s1, &mut e1);
        let v2 = fallback::parse_16(&mut s2, &mut e2);
        let digits = input.iter().all(|b| b.is_ascii_digit());
        assert_eq!(e1 == 0, digits, "{:?}", input);
        assert_eq!(e2 == 0, digits, "{:?}", input);
        if digits {
            let expected: u64 = std::str::from_utf8(input).unwrap().parse().unwrap();
            assert_eq!(v1, expected);
            assert_eq!(v2, expected);
        }
        assert!(s1.is_empty() && s2.is_empty());
    }
    let mut err = 0u64;
    let mut s: &[u8] = b"1234567890123456";
    assert_eq!(parse_16(&mut s, &mut err), 1234567890123456);
}

#[test]
fn overlapping_kernels() {
    let text = b"9876543210987654tail";
    for len in 5..=8 {
        let mut err = 0u64;
        let mut s: &[u8] = text;
        let v = parse_4_to_8(&mut s, &mut err, len);
        assert_eq!(err, 0);
        assert_eq!(v, std::str::from_utf8(&text[..len]).unwrap().parse::<u64>().unwrap());
        assert_eq!(s, &text[len..]);
    }
    for len in 9..=16 {
        let mut err = 0u64;
        let mut s: &[u8] = text;
        let v = parse_8_to_16(&mut s, &mut err, len);
        assert_eq!(err, 0);
        assert_eq!(v, std::str::from_utf8(&text[..len]).unwrap().parse::<u64>().unwrap());
        assert_eq!(s, &text[len..]);
    }
    let mut err = 0u64;
    let mut s: &[u8] = b"12x45";
    parse_4_to_8(&mut s, &mut err, 5);
    assert_ne!(err, 0);
    let mut err = 0u64;
    let mut s: &[u8] = b"123456789x";
    parse_8_to_16(&mut s, &mut err, 10);
    assert_ne!(err, 0);
}
