//! The checksum algorithms against published vectors.

use std::str::FromStr;
use wiretap::algorithms::{
    calculate_checksum_simple, crc16_ccitt_checksum, crc16_modbus_checksum, crc8_autosar_checksum,
    crc8_cdma2000_checksum, crc8_checksum, crc8_dvb_s2_checksum, crc8_maxim_checksum,
    crc8_nissan_checksum, crc8_sae_j1850_checksum, reflect16, reflect8, sum8_checksum,
    xor_checksum, ChecksumAlgorithm, ALL_ALGORITHMS,
};

// ---- XOR --------------------------------------------------------------

#[test]
fn test_xor_checksum_basic() {
    // 0x01 ^ 0x02 ^ 0x03 ^ 0x04 ^ 0x05 = 0x01
    assert_eq!(xor_checksum(&[0x01, 0x02, 0x03, 0x04, 0x05]), 0x01);
}

#[test]
fn test_xor_checksum_pairs() {
    assert_eq!(xor_checksum(&[0x01, 0x02, 0x03]), 0x00);
    assert_eq!(xor_checksum(&[0xFF, 0xFF]), 0x00);
    assert_eq!(xor_checksum(&[0xAA, 0x55]), 0xFF);
}

#[test]
fn test_xor_checksum_empty() {
    assert_eq!(xor_checksum(&[]), 0);
}

#[test]
fn test_xor_checksum_single_byte() {
    assert_eq!(xor_checksum(&[0x42]), 0x42);
}

// ---- Sum8 -------------------------------------------------------------

#[test]
fn test_sum8_checksum_basic() {
    // 0x01 + 0x02 + 0x03 + 0x04 + 0x05 = 0x0F
    assert_eq!(sum8_checksum(&[0x01, 0x02, 0x03, 0x04, 0x05]), 0x0F);
}

#[test]
fn test_sum8_checksum_simple() {
    assert_eq!(sum8_checksum(&[0x01, 0x02, 0x03]), 0x06);
}

#[test]
fn test_sum8_checksum_wrapping() {
    // 0xFF + 0x02 = 0x101, wraps to 0x01
    assert_eq!(sum8_checksum(&[0xFF, 0x02]), 0x01);
    // 0x80 + 0x80 = 0x100, wraps to 0x00
    assert_eq!(sum8_checksum(&[0x80, 0x80]), 0x00);
}

#[test]
fn test_sum8_checksum_empty() {
    assert_eq!(sum8_checksum(&[]), 0);
}

// ---- The named CRCs, against the catalogue's "123456789" vectors ------

#[test]
fn test_crc8_checksum_test_vector() {
    assert_eq!(crc8_checksum(b"123456789"), 0xF4);
}

#[test]
fn test_crc8_sae_j1850_test_vector() {
    assert_eq!(crc8_sae_j1850_checksum(b"123456789"), 0x4B);
}

#[test]
fn test_crc8_autosar_test_vector() {
    assert_eq!(crc8_autosar_checksum(b"123456789"), 0xDF);
}

#[test]
fn test_crc8_maxim_test_vector() {
    assert_eq!(crc8_maxim_checksum(b"123456789"), 0xA1);
}

#[test]
fn test_crc8_cdma2000_test_vector() {
    assert_eq!(crc8_cdma2000_checksum(b"123456789"), 0xDA);
}

#[test]
fn test_crc8_dvb_s2_test_vector() {
    assert_eq!(crc8_dvb_s2_checksum(b"123456789"), 0xBC);
}

#[test]
fn test_crc16_ccitt_checksum_test_vector() {
    assert_eq!(crc16_ccitt_checksum(b"123456789"), 0x29B1);
}

#[test]
fn test_crc16_modbus_checksum_test_vector() {
    // Known Modbus test vector: device address 0x01, function 0x03, data
    // [0x01, 0x03, 0x00, 0x00, 0x00, 0x0A] -> 0xCDC5
    // (Wire format would be C5 CD in little-endian)
    assert_eq!(
        crc16_modbus_checksum(&[0x01, 0x03, 0x00, 0x00, 0x00, 0x0A]),
        0xCDC5
    );
}

#[test]
fn test_crc8_nissan_sample_message() {
    // Sample from Nissan LEAF code: {0x6E, 0x0F, 0x0F, 0xFD, 0x08, 0xC0, 0xC3}
    assert_eq!(
        crc8_nissan_checksum(&[0x6E, 0x0F, 0x0F, 0xFD, 0x08, 0xC0, 0xC3]),
        0x3E
    );
}

#[test]
fn test_crc8_nissan_basic() {
    assert_eq!(crc8_nissan_checksum(&[0x01, 0x02, 0x03]), 0x5A);
}

/// Empty input returns the algorithm's init XOR its xor-out, not zero — a
/// distinction the sweep relies on when a calculation range collapses.
#[test]
fn test_named_algorithms_on_empty_input() {
    assert_eq!(crc8_checksum(&[]), 0x00);
    assert_eq!(crc8_sae_j1850_checksum(&[]), 0x00); // init 0xFF ^ xorout 0xFF
    assert_eq!(crc8_autosar_checksum(&[]), 0x00); // init 0xFF ^ xorout 0xFF
    assert_eq!(crc8_maxim_checksum(&[]), 0x00);
    assert_eq!(crc8_cdma2000_checksum(&[]), 0xFF); // init 0xFF, no xorout
    assert_eq!(crc8_dvb_s2_checksum(&[]), 0x00);
    assert_eq!(crc8_nissan_checksum(&[]), 0x00);
    assert_eq!(crc16_modbus_checksum(&[]), 0xFFFF);
    assert_eq!(crc16_ccitt_checksum(&[]), 0xFFFF);
}

// ---- Dispatch and metadata -------------------------------------------

#[test]
fn test_calculate_checksum_simple_all_algorithms() {
    let data = [0x01, 0x02, 0x03];
    assert_eq!(
        calculate_checksum_simple(ChecksumAlgorithm::Xor, &data),
        0x00
    );
    assert_eq!(
        calculate_checksum_simple(ChecksumAlgorithm::Sum8, &data),
        0x06
    );
    assert_eq!(
        calculate_checksum_simple(ChecksumAlgorithm::Crc8, &data),
        0x48
    );
    assert_eq!(
        calculate_checksum_simple(ChecksumAlgorithm::Crc16Modbus, &data),
        0x6161
    );
    assert_eq!(
        calculate_checksum_simple(ChecksumAlgorithm::Crc16Ccitt, &data),
        0xADAD
    );
}

/// The id strings are the catalogue's `CHECKSUM_ALGORITHMS`, so a round trip
/// failing here means a catalogue would stop validating.
#[test]
fn test_algorithm_ids_round_trip() {
    for algorithm in ALL_ALGORITHMS {
        assert_eq!(
            ChecksumAlgorithm::from_str(algorithm.as_str()).unwrap(),
            algorithm
        );
    }
    assert_eq!(ChecksumAlgorithm::Xor.as_str(), "xor");
    assert_eq!(ChecksumAlgorithm::Crc8SaeJ1850.as_str(), "crc8_sae_j1850");
    assert_eq!(ChecksumAlgorithm::Crc16Modbus.as_str(), "crc16_modbus");
}

#[test]
fn test_algorithm_from_str_unknown() {
    assert!(ChecksumAlgorithm::from_str("unknown").is_err());
    assert!(ChecksumAlgorithm::from_str("").is_err());
}

#[test]
fn test_algorithm_output_bytes() {
    for algorithm in ALL_ALGORITHMS {
        let expected = match algorithm {
            ChecksumAlgorithm::Crc16Modbus | ChecksumAlgorithm::Crc16Ccitt => 2,
            _ => 1,
        };
        assert_eq!(algorithm.output_bytes(), expected, "{algorithm:?}");
    }
}

#[test]
fn test_reflection() {
    assert_eq!(reflect8(0b1000_0001), 0b1000_0001);
    assert_eq!(reflect8(0b0000_0001), 0b1000_0000);
    assert_eq!(reflect16(0x1021), 0x8408);
}
