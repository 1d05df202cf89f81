//! Bit extraction, scaling and value formatting.

use rust_decimal::Decimal;
use wiretap::bits::{
    apply_word_swap, decode_text, extract_bits, format_decimal, format_hex, format_unix_time,
    scale, DecimalValue,
};
use wiretap::model::Endianness;

const TENTH: DecimalValue = DecimalValue {
    mantissa: 1,
    scale: 1,
};

fn whole(n: i128) -> DecimalValue {
    DecimalValue {
        mantissa: n,
        scale: 0,
    }
}

fn scaled(raw: i128, factor: Option<DecimalValue>, offset: Option<DecimalValue>) -> DecimalValue {
    scale(whole(raw), factor, offset).expect("in range")
}

fn same(value: DecimalValue, expected: Decimal) -> bool {
    Decimal::from_i128_with_scale(value.mantissa, value.scale) == expected
}

#[test]
fn big_endian_extract() {
    // 0x1234 over 16 bits, big endian.
    assert_eq!(
        extract_bits(&[0x12, 0x34], 0, 16, Endianness::Big, false),
        0x1234
    );
}

#[test]
fn little_endian_extract() {
    assert_eq!(
        extract_bits(&[0x34, 0x12], 0, 16, Endianness::Little, false),
        0x1234
    );
}

#[test]
fn signed_extract() {
    // 0xFF over 8 bits signed = -1.
    assert_eq!(extract_bits(&[0xFF], 0, 8, Endianness::Big, true), -1);
}

#[test]
fn word_swap_cdab() {
    // "CDAB" word order: 0xAABB 0xCCDD stored as 0xCCDD 0xAABB.
    let mut b = vec![0xCC, 0xDD, 0xAA, 0xBB];
    apply_word_swap(&mut b, 0, 32);
    assert_eq!(b, vec![0xAA, 0xBB, 0xCC, 0xDD]);
}

#[test]
fn scale_is_exact_not_float_noisy() {
    // The whole point: 555 × 0.1 and 3374 × 0.1 must be exact.
    assert_eq!(format_decimal(scaled(555, Some(TENTH), None)), "55.5");
    assert_eq!(format_decimal(scaled(3374, Some(TENTH), None)), "337.4");
    assert!(same(scaled(555, Some(TENTH), None), Decimal::new(555, 1)));
}

#[test]
fn scale_defaults_and_offset() {
    assert!(same(scaled(100, None, None), Decimal::new(100, 0)));
    assert_eq!(format_decimal(scaled(100, None, None)), "100");
    assert!(same(
        scaled(10, Some(whole(2)), Some(whole(5))),
        Decimal::new(25, 0)
    ));
}

#[test]
fn hex_format_big_endian() {
    assert_eq!(format_hex(0x1A2B, 16, Endianness::Big), "1A 2B");
}

#[test]
fn text_drops_nuls() {
    assert_eq!(decode_text(b"AB\0D", 0, 32), "ABD");
}

#[test]
fn unix_time_utc() {
    assert_eq!(format_unix_time(0), "1970-01-01 00:00:00");
}
