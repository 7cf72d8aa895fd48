use fast_atoi::{atoi, FromRadix10Checked};

use std::fmt::Debug;
use std::str::FromStr;

// What `str::parse` gives for the same bytes, where they are a sign and digits.
fn correct_parse<I: FromStr>(data: &[u8]) -> Option<I> {
    let digits = match data.first() {
        Some(b'-') | Some(b'+') => &data[1..],
        _ => data,
    };
    if digits.is_empty() || !digits.iter().all(|b| b.is_ascii_digit()) {
        return None;
    }
    std::str::from_utf8(data).unwrap().parse().ok()
}

// Every input of one to four bytes whose first byte is in `first` agrees with
// `str::parse`, placed at the start of a buffer and one byte into it.
fn agrees_on_four_bytes<I: FromRadix10Checked + FromStr + PartialEq + Debug>(
    first: std::ops::Range<u16>,
) {
    let mut buf = [0u8; 8];
    for i in 0..=1 {
        for b1 in first.clone() {
            buf[i] = b1 as u8;
            let s1 = &buf[i..i + 1];
            assert_eq!(atoi::<I>(s1).ok(), correct_parse::<I>(s1), "{:?}", s1);
            for b2 in 0..=255u8 {
                buf[i + 1] = b2;
                let s2 = &buf[i..i + 2];
                assert_eq!(atoi::<I>(s2).ok(), correct_parse::<I>(s2), "{:?}", s2);
                for b3 in 0..=255u8 {
                    buf[i + 2] = b3;
                    let s3 = &buf[i..i + 3];
                    assert_eq!(atoi::<I>(s3).ok(), correct_parse::<I>(s3), "{:?}", s3);
                    for b4 in 0..=255u8 {
                        buf[i + 3] = b4;
                        let s4 = &buf[i..i + 4];
                        assert_eq!(atoi::<I>(s4).ok(), correct_parse::<I>(s4), "{:?}", s4);
                    }
                }
            }
        }
    }
}

#[test]
fn four_bytes_u8_from_0() {
    agrees_on_four_bytes::<u8>(0..16);
}

#[test]
fn four_bytes_u8_from_16() {
    agrees_on_four_bytes::<u8>(16..32);
}

#[test]
fn four_bytes_u8_from_32() {
    agrees_on_four_bytes::<u8>(32..48);
}

#[test]
fn four_bytes_u8_from_48() {
    agrees_on_four_bytes::<u8>(48..64);
}

#[test]
fn four_bytes_u8_from_64() {
    agrees_on_four_bytes::<u8>(64..80);
}

#[test]
fn four_bytes_u8_from_80() {
    agrees_on_four_bytes::<u8>(80..96);
}

#[test]
fn four_bytes_u8_from_96() {
    agrees_on_four_bytes::<u8>(96..112);
}

#[test]
fn four_bytes_u8_from_112() {
    agrees_on_four_bytes::<u8>(112..128);
}

#[test]
fn four_bytes_u8_from_128() {
    agrees_on_four_bytes::<u8>(128..144);
}

#[test]
fn four_bytes_u8_from_144() {
    agrees_on_four_bytes::<u8>(144..160);
}

#[test]
fn four_bytes_u8_from_160() {
    agrees_on_four_bytes::<u8>(160..176);
}

#[test]
fn four_bytes_u8_from_176() {
    agrees_on_four_bytes::<u8>(176..192);
}

#[test]
fn four_bytes_u8_from_192() {
    agrees_on_four_bytes::<u8>(192..208);
}

#[test]
fn four_bytes_u8_from_208() {
    agrees_on_four_bytes::<u8>(208..224);
}

#[test]
fn four_bytes_u8_from_224() {
    agrees_on_four_bytes::<u8>(224..240);
}

#[test]
fn four_bytes_u8_from_240() {
    agrees_on_four_bytes::<u8>(240..256);
}

#[test]
fn four_bytes_u64_from_0() {
    agrees_on_four_bytes::<u64>(0..16);
}

#[test]
fn four_bytes_u64_from_16() {
    agrees_on_four_bytes::<u64>(16..32);
}

#[test]
fn four_bytes_u64_from_32() {
    agrees_on_four_bytes::<u64>(32..48);
}

#[test]
fn four_bytes_u64_from_48() {
    agrees_on_four_bytes::<u64>(48..64);
}

#[test]
fn four_bytes_u64_from_64() {
    agrees_on_four_bytes::<u64>(64..80);
}

#[test]
fn four_bytes_u64_from_80() {
    agrees_on_four_bytes::<u64>(80..96);
}

#[test]
fn four_bytes_u64_from_96() {
    agrees_on_four_bytes::<u64>(96..112);
}

#[test]
fn four_bytes_u64_from_112() {
    agrees_on_four_bytes::<u64>(112..128);
}

#[test]
fn four_bytes_u64_from_128() {
    agrees_on_four_bytes::<u64>(128..144);
}

#[test]
fn four_bytes_u64_from_144() {
    agrees_on_four_bytes::<u64>(144..160);
}

#[test]
fn four_bytes_u64_from_160() {
    agrees_on_four_bytes::<u64>(160..176);
}

#[test]
fn four_bytes_u64_from_176() {
    agrees_on_four_bytes::<u64>(176..192);
}

#[test]
fn four_bytes_u64_from_192() {
    agrees_on_four_bytes::<u64>(192..208);
}

#[test]
fn four_bytes_u64_from_208() {
    agrees_on_four_bytes::<u64>(208..224);
}

#[test]
fn four_bytes_u64_from_224() {
    agrees_on_four_bytes::<u64>(224..240);
}

#[test]
fn four_bytes_u64_from_240() {
    agrees_on_four_bytes::<u64>(240..256);
}
