use fast_atoi::{atoi, FromRadix10Checked};

use std::fmt::Debug;
use std::str::FromStr;

// What `str::parse` gives for the same bytes, where they are a sign and digits.
fn correct_parse<I: FromStr>(data: &[u8]) -> Option<I> {
    if data.is_empty() {
        return None;
    }
    let z = match data[0] {
        b'-' | b'+' => 1,
        _ => 0,
    };
    if data.len() == z {
        return None;
    }
    let valid_digits = data[z..].iter().all(|&b| b.is_ascii_digit());
    if valid_digits {
        std::str::from_utf8(data).unwrap().parse().ok()
    } else {
        None
    }
}

#[test]
fn test_neg() {
    assert_eq!(atoi::<i32>(b"-12"), Ok(-12));
    assert_eq!(atoi::<i32>(b"12"), Ok(12));
    assert_eq!(atoi::<i32>(i32::MAX.to_string().as_bytes()), Ok(i32::MAX));
    assert_eq!(atoi::<i32>(i32::MIN.to_string().as_bytes()), Ok(i32::MIN));
}

#[test]
fn test_empty() {
    assert!(atoi::<u8>(b"").is_err());
    assert!(atoi::<u16>(b"").is_err());
    assert!(atoi::<u32>(b"").is_err());
    assert!(atoi::<u64>(b"").is_err());
    assert!(atoi::<u128>(b"").is_err());

    assert!(atoi::<i8>(b"").is_err());
    assert!(atoi::<i16>(b"").is_err());
    assert!(atoi::<i32>(b"").is_err());
    assert!(atoi::<i64>(b"").is_err());
    assert!(atoi::<i128>(b"").is_err());
}

#[test]
fn simple() {
    assert_eq!(atoi::<u64>(b"7852"), Ok(7852));
}

#[test]
fn simple_error() {
    assert!(atoi::<u8>(b"1234a").is_err());
    assert!(atoi::<u16>(b"1234a").is_err());
    assert!(atoi::<u32>(b"1234a").is_err());
    assert!(atoi::<u64>(b"1234a").is_err());
    assert!(atoi::<u128>(b"1234a").is_err());

    assert!(atoi::<i8>(b"1234a").is_err());
    assert!(atoi::<i16>(b"1234a").is_err());
    assert!(atoi::<i32>(b"1234a").is_err());
    assert!(atoi::<i64>(b"1234a").is_err());
    assert!(atoi::<i128>(b"1234a").is_err());
}

#[test]
fn zeros() {
    assert_eq!(atoi::<u8>(b"0000"), Ok(0));
    assert_eq!(atoi::<u8>(b"0001"), Ok(1));

    assert_eq!(atoi::<u16>(b"00000000"), Ok(0));
    assert_eq!(atoi::<u16>(b"00000001"), Ok(1));

    assert_eq!(atoi::<u32>(b"000000000000000000000000"), Ok(0));
    assert_eq!(atoi::<u32>(b"000000000000000000000001"), Ok(1));

    assert_eq!(atoi::<u64>(b"000000000000000000000000"), Ok(0));
    assert_eq!(atoi::<u64>(b"000000000000000000000001"), Ok(1));

    assert_eq!(
        atoi::<u128>(b"000000000000000000000000000000000000000000000000"),
        Ok(0)
    );
    assert_eq!(
        atoi::<u128>(b"000000000000000000000000000000000000000000000001"),
        Ok(1)
    );

    assert_eq!(atoi::<i8>(b"000000000000000000000000"), Ok(0));
    assert_eq!(atoi::<i8>(b"000000000000000000000001"), Ok(1));
    assert_eq!(atoi::<i8>(b"-000000000000000000000000"), Ok(0));
    assert_eq!(atoi::<i8>(b"-000000000000000000000001"), Ok(-1));

    assert_eq!(atoi::<i16>(b"000000000000000000000000"), Ok(0));
    assert_eq!(atoi::<i16>(b"000000000000000000000001"), Ok(1));
    assert_eq!(atoi::<i16>(b"-000000000000000000000000"), Ok(0));
    assert_eq!(atoi::<i16>(b"-000000000000000000000001"), Ok(-1));

    assert_eq!(atoi::<i32>(b"000000000000000000000000"), Ok(0));
    assert_eq!(atoi::<i32>(b"000000000000000000000001"), Ok(1));
    assert_eq!(atoi::<i32>(b"-000000000000000000000000"), Ok(0));
    assert_eq!(atoi::<i32>(b"-000000000000000000000001"), Ok(-1));

    assert_eq!(
        atoi::<i64>(b"00000000000000000000000000000000000000000000000"),
        Ok(0)
    );
    assert_eq!(
        atoi::<i64>(b"000000000000000000000000000000000000000000000001"),
        Ok(1)
    );
    assert_eq!(
        atoi::<i64>(b"-00000000000000000000000000000000000000000000000"),
        Ok(0)
    );
    assert_eq!(
        atoi::<i64>(b"-000000000000000000000000000000000000000000000001"),
        Ok(-1)
    );

    assert_eq!(
        atoi::<i128>(b"00000000000000000000000000000000000000000000000"),
        Ok(0)
    );
    assert_eq!(
        atoi::<i128>(b"000000000000000000000000000000000000000000000001"),
        Ok(1)
    );
    assert_eq!(
        atoi::<i128>(b"-00000000000000000000000000000000000000000000000"),
        Ok(0)
    );
    assert_eq!(
        atoi::<i128>(b"-000000000000000000000000000000000000000000000001"),
        Ok(-1)
    );
}

// Every value of `range`, written in decimal at several offsets of a buffer, parses back.
fn all_parse_valid_num<I>(range: std::ops::RangeInclusive<I>)
where
    I: FromRadix10Checked + PartialEq + Debug + ToString + Copy,
    std::ops::RangeInclusive<I>: Iterator<Item = I>,
{
    let mut buf = [42u8; 64];
    for x in range {
        let s = x.to_string();
        let l = s.as_bytes().len();
        for i in 0..=7 {
            buf[i..i + l].copy_from_slice(s.as_bytes());
            assert_eq!(atoi::<I>(&buf[i..i + l]), Ok(x));
        }
    }
}

#[test]
fn test_exhaustive_valid_u128() {
    all_parse_valid_num::<u128>(0..=16777216);
}

#[test]
fn test_exhaustive_valid_u64() {
    all_parse_valid_num::<u64>(0..=16777216);
}

#[test]
fn test_exhaustive_valid_u32() {
    all_parse_valid_num::<u32>(0..=16777216);
}

#[test]
fn test_exhaustive_valid_u16() {
    all_parse_valid_num::<u16>(0..=65535);
}

#[test]
fn test_exhaustive_valid_u8() {
    all_parse_valid_num::<u8>(0..=255);
}

#[test]
fn test_exhaustive_valid_i8() {
    all_parse_valid_num::<i8>(-128..=127);
}

#[test]
fn test_exhaustive_valid_i16() {
    all_parse_valid_num::<i16>(-32768..=32767);
}

#[test]
fn test_exhaustive_valid_i32() {
    all_parse_valid_num::<i32>(-65535..=65535);
}

#[test]
fn test_exhaustive_valid_i64() {
    all_parse_valid_num::<i64>(-65535..=65535);
}

#[test]
fn test_exhaustive_valid_i128() {
    all_parse_valid_num::<i128>(-65535..=65535);
}

#[test]
fn reg() {
    assert!(atoi::<u64>(b"a ").is_err());
    assert_eq!(
        atoi::<u64>(b"10000000000000000001"),
        Ok(10000000000000000001)
    );
    assert!(atoi::<u64>(b"20000000000000000000").is_err());
    assert!(atoi::<u64>(":c  A\u{1a7f}Aaû∏§ùíÆ0".as_bytes()).is_err());
}

fn assert_large_correct<I: FromRadix10Checked + PartialEq + Debug + FromStr + ToString>(max: I) {
    let mut b = max.to_string().as_bytes().to_vec();
    println!("{:?}", b);
    assert_eq!(atoi::<I>(&b).ok(), correct_parse(&b), "{:?}", b);
    for i in 0..b.len() {
        b[i] += 1;
        assert_eq!(atoi::<I>(&b).ok(), correct_parse(&b), "{:?}", b);
        b[i] -= 1;
    }
}

#[test]
fn test_large() {
    assert_large_correct::<u8>(u8::MAX);
    assert_large_correct::<u16>(u16::MAX);
    assert_large_correct::<u32>(u32::MAX);
    assert_large_correct::<u64>(u64::MAX);
    assert_large_correct::<u128>(u128::MAX);

    assert_large_correct::<i8>(i8::MIN);
    assert_large_correct::<i8>(i8::MAX);

    assert_large_correct::<i16>(i16::MIN);
    assert_large_correct::<i16>(i16::MAX);

    assert_large_correct::<i32>(i32::MIN);
    assert_large_correct::<i32>(i32::MAX);

    assert_large_correct::<i64>(i64::MIN);
    assert_large_correct::<i64>(i64::MAX);

    assert_large_correct::<i128>(i128::MIN);
    assert_large_correct::<i128>(i128::MAX);
}
