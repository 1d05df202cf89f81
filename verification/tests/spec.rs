//! Sweeping candidate checksums over frames.

use wiretap::algorithms::ChecksumAlgorithm;
use wiretap::spec::{sweep_specs, ChecksumSpec};

fn spec(
    algorithm: ChecksumAlgorithm,
    position: i32,
    byte_length: usize,
    big_endian: bool,
    calc_start_byte: i32,
    calc_end_byte: i32,
) -> ChecksumSpec {
    ChecksumSpec {
        algorithm,
        position,
        byte_length,
        big_endian,
        calc_start_byte,
        calc_end_byte,
    }
}

/// Five frames captured from a real SLIP serial source. The checksum is a
/// sum of every byte after the leading type byte — note frames 4 and 5 are
/// permutations of each other differing only at byte 0, and share a checksum.
/// Byte -2 is constant 0x00 padding.
fn real_serial_frames() -> Vec<Vec<u8>> {
    vec![
        vec![
            0xFD, 0xE0, 0x55, 0x23, 0xF0, 0x0D, 0x03, 0x05, 0xDC, 0, 0, 0, 0, 0, 0x00, 0x39,
        ],
        vec![
            0xFB, 0xEB, 0xF0, 0x0D, 0x55, 0x23, 0, 0, 0, 0, 0, 0, 0, 0, 0x00, 0x60,
        ],
        vec![
            0xFD, 0xEB, 0x55, 0x23, 0x00, 0x6C, 0x03, 0xCF, 0x00, 0xF4, 0, 0, 0, 0, 0, 0, 0, 0,
            0x00, 0x95,
        ],
        vec![
            0xFB, 0xE0, 0xF0, 0x0D, 0x60, 0x61, 0, 0, 0, 0, 0, 0, 0, 0, 0x00, 0x9E,
        ],
        vec![
            0xFD, 0xE0, 0x60, 0x61, 0xF0, 0x0D, 0, 0, 0, 0, 0, 0, 0, 0, 0x00, 0x9E,
        ],
    ]
}

#[test]
fn test_sweep_excludes_frames_too_short_for_the_spec() {
    // A 2-byte checksum at -2 does not fit a 1-byte frame, so that frame is
    // excluded from the denominator rather than counted as a miss.
    let frames = vec![vec![0x01, 0x02, 0x03, 0x04, 0x05, 0x06], vec![0x07]];
    let results = sweep_specs(
        &frames,
        &[spec(ChecksumAlgorithm::Crc16Ccitt, -2, 2, true, 0, -2)],
    );

    assert_eq!(results.len(), 1);
    assert_eq!(results[0].total_count, 1);
}

#[test]
fn test_sweep_excludes_frames_with_an_empty_calculation_range() {
    // resolve_byte_index saturates, so on a short frame calc_start can land
    // at or past calc_end. Those frames are skipped, not scored as misses.
    let frames = vec![vec![0x01, 0x02, 0x03, 0x04], vec![0x09]];
    let results = sweep_specs(
        &frames,
        &[spec(ChecksumAlgorithm::Sum8, -1, 1, true, 0, -1)],
    );

    assert_eq!(results.len(), 1);
    assert_eq!(results[0].total_count, 1);
}

#[test]
fn test_sweep_reports_a_hand_typed_mismatch_rather_than_hiding_it() {
    // The dialog's live match rate goes through here, so a configuration the
    // user typed must come back as 0/N, not 0/0.
    let results = sweep_specs(
        &real_serial_frames(),
        &[spec(ChecksumAlgorithm::Crc16Modbus, -2, 2, false, 0, -2)],
    );

    assert_eq!(results[0].match_count, 0);
    assert_eq!(results[0].total_count, 5);
}

/// The grouping is an optimisation, so it must not change the answer: two
/// specs differing only in endianness share one calculation but still get
/// their own extraction.
#[test]
fn test_sweep_keeps_grouped_specs_independent() {
    let frames = real_serial_frames();
    let results = sweep_specs(
        &frames,
        &[
            spec(ChecksumAlgorithm::Crc16Modbus, -2, 2, false, 0, -2),
            spec(ChecksumAlgorithm::Crc16Modbus, -2, 2, true, 0, -2),
        ],
    );

    assert_eq!(results.len(), 2);
    assert_eq!(results[0].spec_index, 0);
    assert_eq!(results[1].spec_index, 1);
}
