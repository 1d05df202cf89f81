//! Detecting which checksum a link uses.

use std::collections::BTreeSet;
use wiretap::algorithms::{crc16_modbus_checksum, ChecksumAlgorithm};
use wiretap::detect::{
    analyse_tail_columns, build_checksum_specs, detect_checksum, ChecksumColumnStat,
    ChecksumDetectionOptions, MAX_SAMPLES, MIN_TAIL_DEPTH,
};
use wiretap::notes::ChecksumNote;

/// Five frames captured from a real SLIP serial source. The checksum is a
/// sum of every byte after the leading type byte — note frames 4 and 5 are
/// permutations of each other differing only at byte 0, and share a checksum.
/// Byte -2 is constant 0x00 padding.
fn real_serial_frames() -> Vec<Vec<u8>> {
    vec![
        vec![
            0xFD, 0xE0, 0x55, 0x23, 0xF0, 0x0D, 0x03, 0x05, 0xDC, 0, 0, 0, 0, 0, 0x00, 0x39,
        ],
        vec![
            0xFB, 0xEB, 0xF0, 0x0D, 0x55, 0x23, 0, 0, 0, 0, 0, 0, 0, 0, 0x00, 0x60,
        ],
        vec![
            0xFD, 0xEB, 0x55, 0x23, 0x00, 0x6C, 0x03, 0xCF, 0x00, 0xF4, 0, 0, 0, 0, 0, 0, 0, 0,
            0x00, 0x95,
        ],
        vec![
            0xFB, 0xE0, 0xF0, 0x0D, 0x60, 0x61, 0, 0, 0, 0, 0, 0, 0, 0, 0x00, 0x9E,
        ],
        vec![
            0xFD, 0xE0, 0x60, 0x61, 0xF0, 0x0D, 0, 0, 0, 0, 0, 0, 0, 0, 0x00, 0x9E,
        ],
    ]
}

/// The reported capture as it actually arrives, rather than tidied up: the
/// same link carries bare one-byte acknowledgements, which are too short to
/// hold a checksum at all. The payload frames still sum bytes 1.. into the
/// last byte — 0xF1+0xF0+0x0D+0x55+0x23 is 0x66, and the third frame's
/// bytes happen to sum to 0x00.
fn real_serial_frames_with_acks() -> Vec<Vec<u8>> {
    [
        vec![
            0xFBu8, 0xF1, 0xF0, 0x0D, 0x55, 0x23, 0, 0, 0, 0, 0, 0, 0, 0, 0, 0x66,
        ],
        vec![0xFC],
        vec![
            0xFD, 0xF1, 0x55, 0x23, 0x30, 0x31, 0x36, 0, 0, 0, 0, 0, 0, 0, 0, 0, 0, 0, 0, 0x00,
        ],
        vec![0xF8],
        vec![
            0xFB, 0xE0, 0xF0, 0x0D, 0x60, 0x61, 0, 0, 0, 0, 0, 0, 0, 0, 0, 0x9E,
        ],
    ]
    .into_iter()
    .cycle()
    .take(120)
    .collect()
}

/// Repeated so the sample-count tiers behave as they would on a live capture.
fn many_real_frames() -> Vec<Vec<u8>> {
    real_serial_frames().into_iter().cycle().take(100).collect()
}

fn modbus_frames() -> Vec<Vec<u8>> {
    [
        vec![0x01u8, 0x03, 0x00, 0x00, 0x00, 0x0A],
        vec![0x01, 0x03, 0x00, 0x10, 0x00, 0x02],
        vec![0x02, 0x04, 0x00, 0x64, 0x00, 0x08],
        vec![0x03, 0x06, 0x00, 0x01, 0x12, 0x34],
        vec![0x01, 0x10, 0x00, 0x20, 0x00, 0x01],
    ]
    .into_iter()
    .cycle()
    .take(60)
    .map(|mut body| {
        let crc = crc16_modbus_checksum(&body);
        body.push((crc & 0xFF) as u8);
        body.push((crc >> 8) as u8);
        body
    })
    .collect()
}

/// Default profiling depth, matching what `detect_checksum` uses for the
/// default positions.
fn tail_columns(frames: &[Vec<u8>]) -> Vec<ChecksumColumnStat> {
    analyse_tail_columns(frames, MIN_TAIL_DEPTH)
}

fn note_codes(notes: &[ChecksumNote]) -> Vec<&str> {
    notes.iter().map(|n| n.code.as_str()).collect()
}

// ---- A real capture ---------------------------------------------------

#[test]
fn test_detect_finds_sum8_over_the_real_capture() {
    let result = detect_checksum(&many_real_frames(), &Default::default());
    let best = result.best_candidate.expect("a candidate");

    assert_eq!(best.algorithm, ChecksumAlgorithm::Sum8);
    assert_eq!(best.position, -1);
    assert_eq!(best.length, 1);
    assert_eq!(best.calc_start_byte, 1);
    assert_eq!(best.calc_end_byte, -1);
    assert_eq!(best.match_count, best.total_count);
}

#[test]
fn test_detect_finds_sum8_despite_one_byte_acknowledgements() {
    // The shortest frame on the link must not gate the search: a bare ACK
    // cannot hold a checksum, and the frames that can still deserve one.
    let frames = real_serial_frames_with_acks();
    let specs = build_checksum_specs(&frames, &Default::default(), &tail_columns(&frames));
    assert!(!specs.is_empty(), "the ACKs emptied the search space");

    let best = detect_checksum(&frames, &Default::default())
        .best_candidate
        .expect("a candidate");
    assert_eq!(best.algorithm, ChecksumAlgorithm::Sum8);
    assert_eq!(best.position, -1);
    assert_eq!(best.calc_start_byte, 1);
    assert_eq!(best.calc_end_byte, -1);
    assert_eq!(best.match_count, best.total_count);
    // The acknowledgements are excluded from the denominator, not counted
    // as misses against a checksum they were never going to carry.
    assert_eq!(best.total_count, 72);
}

/// Adjacent constant columns sharing a value are one fact, not four. The
/// fixture pads bytes -4 through -2 with zeros, so that is one note.
#[test]
fn test_detect_reports_constant_padding_as_a_single_run() {
    let result = detect_checksum(&many_real_frames(), &Default::default());

    let minus_two = result
        .tail_columns
        .iter()
        .find(|c| c.position == -2)
        .unwrap();
    assert_eq!(minus_two.constant_value, Some(0x00));

    let padding: Vec<&ChecksumNote> = result
        .notes
        .iter()
        .filter(|n| n.code.starts_with("constantPadding"))
        .collect();

    assert_eq!(padding.len(), 1, "{padding:?}");
    assert_eq!(padding[0].code, "constantPaddingRun");
    assert_eq!(padding[0].values["from"], serde_json::Value::from(-4));
    assert_eq!(padding[0].values["to"], serde_json::Value::from(-2));
}

/// A lone constant column still reads as one, not as a run of one.
#[test]
fn test_detect_reports_a_single_constant_column_without_a_range() {
    // Byte -2 is constant; -1 and -3 vary, so it cannot join a run.
    let frames: Vec<Vec<u8>> = (0..40u32)
        .map(|i| vec![0x10, (i * 7) as u8, (i * 13) as u8, 0xAA, (i * 3) as u8])
        .collect();
    let result = detect_checksum(&frames, &Default::default());

    let padding: Vec<&ChecksumNote> = result
        .notes
        .iter()
        .filter(|n| n.code.starts_with("constantPadding"))
        .collect();

    assert_eq!(padding.len(), 1, "{padding:?}");
    assert_eq!(padding[0].code, "constantPadding");
    assert_eq!(padding[0].values["position"], serde_json::Value::from(-2));
}

/// Different constants are different facts, so they must not merge.
#[test]
fn test_detect_does_not_merge_constant_columns_of_different_values() {
    let frames: Vec<Vec<u8>> = (0..40u32)
        .map(|i| vec![0x10, (i * 7) as u8, 0xFF, 0x00, (i * 3) as u8])
        .collect();
    let result = detect_checksum(&frames, &Default::default());

    let padding: Vec<&ChecksumNote> = result
        .notes
        .iter()
        .filter(|n| n.code.starts_with("constantPadding"))
        .collect();

    assert_eq!(padding.len(), 2, "{padding:?}");
    assert!(padding.iter().all(|n| n.code == "constantPadding"));
}

#[test]
fn test_detect_ranks_a_coincidental_match_below_the_real_answer() {
    // XOR over the same range reproduces one frame in five by chance, which
    // is why a raw match count is not on its own evidence.
    let result = detect_checksum(&many_real_frames(), &Default::default());
    let best = result.best_candidate.clone().unwrap();

    assert_eq!(best.algorithm, ChecksumAlgorithm::Sum8);
    for candidate in &result.candidates {
        if candidate.algorithm == ChecksumAlgorithm::Xor {
            assert!(candidate.confidence < best.confidence);
        }
    }
}

// ---- Priors and rejections -------------------------------------------

#[test]
fn test_detect_rejects_a_constant_checksum_column() {
    // Every frame ends 0x00 and the body is all zeros, so XOR and sum both
    // "match" perfectly — but the column is padding, not a checksum.
    let frames: Vec<Vec<u8>> = (0..40u8).map(|i| vec![0x01, i, 0x00, 0x00, 0x00]).collect();
    let result = detect_checksum(&frames, &Default::default());
    assert!(result.candidates.iter().all(|c| c.position != -1));
}

#[test]
fn test_detect_explains_itself_when_nothing_matches() {
    let frames: Vec<Vec<u8>> = (0..40u32)
        .map(|i| vec![0x10, 0x20, i as u8, (i * 37 + 11) as u8])
        .collect();
    let result = detect_checksum(&frames, &Default::default());

    assert!(result.candidates.is_empty());
    assert!(note_codes(&result.notes).contains(&"noneButLastByteVaries"));
}

#[test]
fn test_detect_says_so_when_there_are_no_frames() {
    let result = detect_checksum(&[], &Default::default());
    assert_eq!(note_codes(&result.notes), vec!["noFrames"]);
    assert!(result.best_candidate.is_none());
}

#[test]
fn test_analyse_tail_columns_is_end_relative() {
    let columns = tail_columns(&real_serial_frames());

    let last = columns.iter().find(|c| c.position == -1).unwrap();
    assert_eq!(last.distinct_values, 4);
    assert_eq!(last.sample_count, 5);
    assert_eq!(
        columns
            .iter()
            .find(|c| c.position == -2)
            .unwrap()
            .constant_value,
        Some(0x00)
    );
}

#[test]
fn test_analyse_tail_columns_skips_frames_too_short() {
    let columns = tail_columns(&[vec![1, 2, 3, 4], vec![9]]);
    assert_eq!(
        columns
            .iter()
            .find(|c| c.position == -1)
            .unwrap()
            .sample_count,
        2
    );
    assert_eq!(
        columns
            .iter()
            .find(|c| c.position == -4)
            .unwrap()
            .sample_count,
        1
    );
}

// ---- Candidate space --------------------------------------------------

#[test]
fn test_build_specs_includes_the_configuration_the_old_sweep_could_not_express() {
    let frames = real_serial_frames();
    let options = ChecksumDetectionOptions::default();
    let specs = build_checksum_specs(&frames, &options, &tail_columns(&frames));

    assert!(specs.iter().any(|s| s.algorithm == ChecksumAlgorithm::Sum8
        && s.position == -1
        && s.calc_start_byte == 1
        && s.calc_end_byte == -1));
}

#[test]
fn test_build_specs_tries_both_endiannesses_only_for_two_byte_algorithms() {
    let frames = real_serial_frames();
    let options = ChecksumDetectionOptions::default();
    let specs = build_checksum_specs(&frames, &options, &tail_columns(&frames));

    let crc16: BTreeSet<bool> = specs
        .iter()
        .filter(|s| s.algorithm == ChecksumAlgorithm::Crc16Modbus)
        .map(|s| s.big_endian)
        .collect();
    assert_eq!(crc16, BTreeSet::from([false, true]));

    let sum8: BTreeSet<bool> = specs
        .iter()
        .filter(|s| s.algorithm == ChecksumAlgorithm::Sum8)
        .map(|s| s.big_endian)
        .collect();
    assert_eq!(sum8, BTreeSet::from([true]));
}

#[test]
fn test_build_specs_widens_with_header_hints_without_narrowing() {
    let frames = real_serial_frames();
    let options = ChecksumDetectionOptions {
        header_boundaries: vec![4],
        ..Default::default()
    };
    let specs = build_checksum_specs(&frames, &options, &tail_columns(&frames));

    assert!(specs.iter().any(|s| s.calc_start_byte == 4));
    // The real answer starts at byte 1, which is not a declared boundary —
    // hints must never replace the defaults.
    assert!(specs.iter().any(|s| s.calc_start_byte == 1));
}

#[test]
fn test_build_specs_honours_a_length_restriction() {
    let frames = real_serial_frames();
    let options = ChecksumDetectionOptions {
        lengths: vec![1],
        ..Default::default()
    };
    let specs = build_checksum_specs(&frames, &options, &tail_columns(&frames));

    assert!(!specs.is_empty());
    assert!(specs.iter().all(|s| s.byte_length == 1));
}

#[test]
fn test_build_specs_stays_within_a_sane_search_size() {
    let frames = real_serial_frames();
    let options = ChecksumDetectionOptions::default();
    let specs = build_checksum_specs(&frames, &options, &tail_columns(&frames));

    assert!(specs.len() > 50, "{} specs", specs.len());
    assert!(specs.len() < 400, "{} specs", specs.len());
}

// ---- Endianness, lengths, ranges --------------------------------------

#[test]
fn test_detect_distinguishes_a_little_endian_crc16() {
    // A Modbus CRC goes over the wire low byte first.
    let result = detect_checksum(&modbus_frames(), &Default::default());
    let best = result.best_candidate.expect("a candidate");

    assert_eq!(best.algorithm, ChecksumAlgorithm::Crc16Modbus);
    assert!(!best.big_endian);
    assert_eq!(best.position, -2);
    assert_eq!(best.length, 2);
    assert_eq!(best.match_count, best.total_count);
}

#[test]
fn test_detect_keeps_an_equally_scoring_range_as_an_alternative() {
    // [1:-1] and [1:-2] both reproduce the frames, since byte -2 is zero.
    let result = detect_checksum(&many_real_frames(), &Default::default());
    let best = result.best_candidate.unwrap();

    assert_eq!(best.calc_end_byte, -1);
    assert!(!best.equivalent_ranges.is_empty());
}

#[test]
fn test_detect_resolves_positions_across_mixed_frame_lengths() {
    // The fixture mixes 16- and 20-byte frames, so a candidate matching every
    // one of them proves the position resolved per frame, not per capture.
    let frames = many_real_frames();
    assert_eq!(frames.iter().map(|f| f.len()).min(), Some(16));
    assert_eq!(frames.iter().map(|f| f.len()).max(), Some(20));

    let result = detect_checksum(&frames, &Default::default());
    assert_eq!(result.best_candidate.unwrap().total_count, frames.len());
}

#[test]
fn test_detect_caps_the_sample() {
    // 600 frames in, MAX_SAMPLES out — the dialog reads the same number from
    // the capture so both halves measure against one set.
    let many: Vec<Vec<u8>> = real_serial_frames().into_iter().cycle().take(600).collect();
    let result = detect_checksum(&many, &Default::default());
    assert_eq!(result.best_candidate.unwrap().total_count, MAX_SAMPLES);
}
