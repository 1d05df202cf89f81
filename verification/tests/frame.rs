//! Checksums in frames: byte indices, extraction, validation.

use wiretap::algorithms::{crc16_modbus_checksum, sum8_checksum, ChecksumAlgorithm};
use wiretap::frame::{
    calculate_checksum, extract_checksum, resolve_byte_index, validate_checksum,
};

// ---- Byte index resolution -------------------------------------------

#[test]
fn test_resolve_byte_index_positive() {
    assert_eq!(resolve_byte_index(0, 10), 0);
    assert_eq!(resolve_byte_index(5, 10), 5);
    assert_eq!(resolve_byte_index(9, 10), 9);
}

#[test]
fn test_resolve_byte_index_negative() {
    assert_eq!(resolve_byte_index(-1, 10), 9); // last byte
    assert_eq!(resolve_byte_index(-2, 10), 8); // second-to-last
    assert_eq!(resolve_byte_index(-10, 10), 0); // first byte
}

#[test]
fn test_resolve_byte_index_clamps_overly_negative() {
    assert_eq!(resolve_byte_index(-11, 10), 0);
    assert_eq!(resolve_byte_index(-100, 10), 0);
}

// ---- Calculating over a range ----------------------------------------

#[test]
fn test_calculate_checksum_with_range() {
    // Frame: [header, data1, data2, data3, checksum_placeholder]
    let frame = [0x55u8, 0x01, 0x02, 0x03, 0x00];

    // Bytes 1..4 — the data, excluding the header at 0.
    assert_eq!(
        calculate_checksum(ChecksumAlgorithm::Sum8, &frame, 1, 4),
        0x06
    );
}

#[test]
fn test_calculate_checksum_with_negative_indices() {
    let frame = [0x55u8, 0x01, 0x02, 0x03, 0x00];

    // Whole frame except the trailing checksum byte.
    assert_eq!(
        calculate_checksum(ChecksumAlgorithm::Sum8, &frame, 0, -1),
        0x5B
    );
}

#[test]
fn test_calculate_checksum_over_a_degenerate_range_is_zero() {
    let frame = [0x55u8, 0x01];
    assert_eq!(
        calculate_checksum(ChecksumAlgorithm::Sum8, &frame, 2, -1),
        0
    );
}

// ---- Extraction -------------------------------------------------------

#[test]
fn test_extract_checksum_single_byte() {
    let data = [0x01, 0x02, 0x03, 0xAB];
    assert_eq!(extract_checksum(&data, 3, 1, true), 0xAB);
    assert_eq!(extract_checksum(&data, -1, 1, true), 0xAB);
}

#[test]
fn test_extract_checksum_single_byte_negative_index() {
    let frame = [0x01, 0x02, 0x03, 0xAB, 0xCD];
    assert_eq!(extract_checksum(&frame, -2, 1, true), 0xAB);
}

#[test]
fn test_extract_checksum_two_bytes() {
    let data = [0x01, 0x02, 0xAB, 0xCD];
    assert_eq!(extract_checksum(&data, 2, 2, true), 0xABCD);
    assert_eq!(extract_checksum(&data, -2, 2, true), 0xABCD);
    assert_eq!(extract_checksum(&data, 2, 2, false), 0xCDAB);
    assert_eq!(extract_checksum(&data, -2, 2, false), 0xCDAB);
}

#[test]
fn test_extract_checksum_overrunning_the_frame_is_zero() {
    assert_eq!(extract_checksum(&[0x01], -1, 2, true), 0);
    assert_eq!(extract_checksum(&[], -1, 1, true), 0);
}

// ---- Validation -------------------------------------------------------

#[test]
fn test_validate_checksum_xor_valid() {
    // data = [0x01, 0x02], XOR = 0x03
    let result = validate_checksum(
        ChecksumAlgorithm::Xor,
        &[0x01, 0x02, 0x03],
        2,
        1,
        true,
        0,
        2,
    );
    assert_eq!(result.extracted, 0x03);
    assert_eq!(result.calculated, 0x03);
    assert!(result.valid);
}

#[test]
fn test_validate_checksum_sum8_valid() {
    let data = [0x01u8, 0x02, 0x03];
    let mut frame = Vec::from(data);
    frame.push(sum8_checksum(&data)); // 0x06

    let result = validate_checksum(ChecksumAlgorithm::Sum8, &frame, -1, 1, true, 0, -1);
    assert!(result.valid);
    assert_eq!(result.extracted, 0x06);
    assert_eq!(result.calculated, 0x06);
}

#[test]
fn test_validate_checksum_invalid() {
    let frame = [0x01, 0x02, 0x03, 0xFF]; // wrong checksum
    let result = validate_checksum(ChecksumAlgorithm::Sum8, &frame, -1, 1, true, 0, -1);
    assert!(!result.valid);
    assert_eq!(result.extracted, 0xFF);
    assert_eq!(result.calculated, 0x06);
}

#[test]
fn test_validate_checksum_crc16_modbus_valid() {
    let data = [0x01u8, 0x03, 0x00, 0x00, 0x00, 0x0A];
    let crc = crc16_modbus_checksum(&data); // 0xCDC5
    let mut frame = Vec::from(data);
    // Modbus wire format is little-endian: low byte first.
    frame.push((crc & 0xFF) as u8);
    frame.push((crc >> 8) as u8);

    let result = validate_checksum(ChecksumAlgorithm::Crc16Modbus, &frame, -2, 2, false, 0, -2);
    assert!(result.valid);
    assert_eq!(result.extracted, 0xCDC5);
    assert_eq!(result.calculated, 0xCDC5);
}
