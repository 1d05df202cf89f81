//! Solving for checksum parameters.

use wiretap::algorithms::{
    crc16_modbus_checksum, crc16_parameterised, crc8_checksum, crc8_parameterised, sum8_checksum,
    xor_checksum,
};
use wiretap::solve::{
    solve_additive, solve_crc, AdditiveOp, CrcParameters, CrcSolveOptions, SolveTarget,
    SolvedChecksum, SolvedKind,
};

/// A checksum at the last byte, calculated over everything before it.
const TRAILING_BYTE: SolveTarget = SolveTarget {
    position: -1,
    byte_length: 1,
    big_endian: true,
    calc_start_byte: 0,
    calc_end_byte: -1,
};

const TRAILING_WORD: SolveTarget = SolveTarget {
    position: -2,
    byte_length: 2,
    big_endian: false,
    calc_start_byte: 0,
    calc_end_byte: -2,
};

/// Payloads with a checksum appended by `f`. Deliberately varied so a wrong
/// candidate has somewhere to disagree.
fn frames_with<F: Fn(&[u8]) -> u8>(count: u32, f: F) -> Vec<Vec<u8>> {
    (0..count)
        .map(|i| {
            let mut body = vec![
                0x10,
                i as u8,
                (i >> 8) as u8,
                (i.wrapping_mul(37) ^ 0x5A) as u8,
                (i.wrapping_mul(211)) as u8,
                0xC3,
                (i.wrapping_mul(7) ^ 0xF0) as u8,
            ];
            let checksum = f(&body);
            body.push(checksum);
            body
        })
        .collect()
}

/// The one CRC a solve is expected to find. Panics on an empty result so a
/// failure reads as "found nothing" rather than an index panic.
fn only_crc(solved: &[SolvedChecksum]) -> CrcParameters {
    match solved.first().map(|s| &s.kind) {
        Some(SolvedKind::Crc(crc)) => crc.clone(),
        other => panic!("expected a CRC, got {other:?}"),
    }
}

// ---- Additive: solved, not searched -----------------------------------

#[test]
fn test_solve_additive_finds_a_plain_sum() {
    let solved = solve_additive(&frames_with(40, sum8_checksum), &TRAILING_BYTE).unwrap();
    assert_eq!(
        solved.kind,
        SolvedKind::Additive {
            op: AdditiveOp::Sum,
            offset: 0
        }
    );
    assert_eq!(solved.sample_count, 40);
}

#[test]
fn test_solve_additive_finds_a_plain_xor() {
    let solved = solve_additive(&frames_with(40, xor_checksum), &TRAILING_BYTE).unwrap();
    assert_eq!(
        solved.kind,
        SolvedKind::Additive {
            op: AdditiveOp::Xor,
            offset: 0
        }
    );
}

/// The variant the fixed eleven-algorithm list cannot express, and the
/// reason this is a solve rather than a sweep.
#[test]
fn test_solve_additive_finds_a_sum_with_a_constant_offset() {
    let frames = frames_with(40, |d| sum8_checksum(d).wrapping_add(0xA5));
    let solved = solve_additive(&frames, &TRAILING_BYTE).unwrap();
    assert_eq!(
        solved.kind,
        SolvedKind::Additive {
            op: AdditiveOp::Sum,
            offset: 0xA5
        }
    );
}

#[test]
fn test_solve_additive_finds_a_twos_complement_sum() {
    let frames = frames_with(40, |d| sum8_checksum(d).wrapping_neg());
    let solved = solve_additive(&frames, &TRAILING_BYTE).unwrap();
    assert_eq!(
        solved.kind,
        SolvedKind::Additive {
            op: AdditiveOp::NegatedSum,
            offset: 0
        }
    );
}

#[test]
fn test_solve_additive_rejects_a_crc() {
    assert!(solve_additive(&frames_with(40, crc8_checksum), &TRAILING_BYTE).is_none());
}

#[test]
fn test_solve_additive_needs_more_than_a_couple_of_samples() {
    assert!(solve_additive(&frames_with(2, sum8_checksum), &TRAILING_BYTE).is_none());
}

// ---- CRC: the residue collapses init and xorOut -----------------------

#[test]
fn test_solve_crc_recovers_a_named_crc8() {
    let crc = only_crc(&solve_crc(
        &frames_with(40, crc8_checksum),
        &TRAILING_BYTE,
        &Default::default(),
    ));

    assert_eq!(crc.polynomial, 0x07);
    assert!(!crc.reflect_in);
    assert!(crc.well_known);
    // init 0, xorOut 0 for this one, so the residue is 0.
    assert_eq!(crc.xor_out, 0x0000);
}

/// The point of the whole exercise: a polynomial nobody catalogued, with a
/// non-zero init and xorOut, recovered without enumerating either.
#[test]
fn test_solve_crc_recovers_an_arbitrary_polynomial() {
    let frames = frames_with(60, |d| crc8_parameterised(d, 0x4D, 0xB7, 0x2C, false));
    let crc = only_crc(&solve_crc(&frames, &TRAILING_BYTE, &Default::default()));
    assert_eq!(crc.polynomial, 0x4D);
    assert!(!crc.well_known);

    // The canonical form must reproduce the capture exactly.
    for frame in &frames {
        let body = &frame[..frame.len() - 1];
        let reproduced = crc8_parameterised(
            body,
            crc.polynomial as u8,
            crc.init as u8,
            crc.xor_out as u8,
            crc.reflect_in,
        );
        assert_eq!(reproduced, *frame.last().unwrap());
    }
}

#[test]
fn test_solve_crc_recovers_a_reflected_polynomial() {
    let frames = frames_with(60, |d| crc8_parameterised(d, 0x31, 0x00, 0x00, true));
    let crc = only_crc(&solve_crc(&frames, &TRAILING_BYTE, &Default::default()));

    assert_eq!(crc.polynomial, 0x31);
    assert!(crc.reflect_in);
}

#[test]
fn test_solve_crc_recovers_a_16_bit_polynomial() {
    let frames: Vec<Vec<u8>> = (0..60u32)
        .map(|i| {
            let mut body = vec![
                0x02,
                i as u8,
                (i >> 8) as u8,
                (i.wrapping_mul(97)) as u8,
                0x11,
            ];
            let crc = crc16_modbus_checksum(&body);
            body.push((crc & 0xFF) as u8);
            body.push((crc >> 8) as u8);
            body
        })
        .collect();

    let crc = only_crc(&solve_crc(&frames, &TRAILING_WORD, &Default::default()));
    assert_eq!(crc.polynomial, 0x8005);
    assert!(crc.reflect_in);
    assert!(crc.well_known);
}

/// `init` and `xorOut` are not separately identifiable from fixed-length
/// payloads, and the result has to say so rather than pick one.
#[test]
fn test_solve_crc_offers_the_conventional_inits_as_alternatives() {
    let frames = frames_with(40, |d| crc8_parameterised(d, 0x1D, 0xFF, 0xFF, false));
    let crc = only_crc(&solve_crc(&frames, &TRAILING_BYTE, &Default::default()));

    assert_eq!(crc.polynomial, 0x1D);
    assert_eq!(crc.init, 0);

    let alternative = crc.alternatives.iter().find(|a| a.init == 0xFF).unwrap();
    // Both pairs must reproduce the capture; neither is more true.
    for frame in &frames {
        let body = &frame[..frame.len() - 1];
        assert_eq!(
            crc8_parameterised(body, 0x1D, 0x00, crc.xor_out as u8, false),
            *frame.last().unwrap()
        );
        assert_eq!(
            crc8_parameterised(body, 0x1D, 0xFF, alternative.xor_out as u8, false),
            *frame.last().unwrap()
        );
    }
}

#[test]
fn test_solve_crc_finds_nothing_in_noise() {
    let frames: Vec<Vec<u8>> = (0..60u32)
        .map(|i| {
            vec![
                0x10,
                i as u8,
                (i.wrapping_mul(37)) as u8,
                (i.wrapping_mul(91) ^ 0x3C) as u8,
            ]
        })
        .collect();

    assert!(solve_crc(&frames, &TRAILING_BYTE, &Default::default()).is_empty());
}

#[test]
fn test_solve_crc_excludes_samples_of_a_different_range_length() {
    let mut frames = frames_with(40, crc8_checksum);
    // A short frame on the same link: a different calculation length, so a
    // different residue, so not evidence about this one.
    frames.push(vec![0x10, 0x20, 0x30]);

    let solved = solve_crc(&frames, &TRAILING_BYTE, &Default::default());
    assert_eq!(solved[0].sample_count, 40);
    assert_eq!(solved[0].excluded_count, 1);
    assert_eq!(only_crc(&solved).polynomial, 0x07);
}

#[test]
fn test_solve_crc_honours_the_known_only_option() {
    let frames = frames_with(60, |d| crc8_parameterised(d, 0x4D, 0xB7, 0x2C, false));
    let options = CrcSolveOptions {
        known_polynomials_only: true,
        ..Default::default()
    };

    assert!(solve_crc(&frames, &TRAILING_BYTE, &options).is_empty());
    assert!(!solve_crc(&frames, &TRAILING_BYTE, &Default::default()).is_empty());
}

/// A constant prefix cancels in the residue just as `init` does, so the
/// frame id being inside or outside the calculation changes the residue but
/// never the polynomial.
#[test]
fn test_solve_crc_is_indifferent_to_a_constant_prefix() {
    let frames = frames_with(40, crc8_checksum);
    let prefixed: Vec<Vec<u8>> = frames
        .iter()
        .map(|f| [&[0x07u8, 0x01][..], f].concat())
        .collect();

    let bare = only_crc(&solve_crc(&frames, &TRAILING_BYTE, &Default::default())).polynomial;
    let with_prefix =
        only_crc(&solve_crc(&prefixed, &TRAILING_BYTE, &Default::default())).polynomial;

    assert_eq!(bare, with_prefix);
}

/// The whole point is that this is affordable. An exhaustive 16-bit sweep is
/// 262,140 candidates.
#[test]
fn test_solve_crc16_exhaustive_sweep_is_fast() {
    let frames: Vec<Vec<u8>> = (0..200u32)
        .map(|i| {
            let mut body = vec![
                0x02,
                i as u8,
                (i >> 8) as u8,
                (i.wrapping_mul(97)) as u8,
                0x11,
            ];
            let crc = crc16_parameterised(&body, 0x9EB2, 0x1234, 0x5678, false, false);
            body.push((crc & 0xFF) as u8);
            body.push((crc >> 8) as u8);
            body
        })
        .collect();

    let start = std::time::Instant::now();
    let solved = solve_crc(&frames, &TRAILING_WORD, &Default::default());
    let elapsed = start.elapsed();

    assert_eq!(only_crc(&solved).polynomial, 0x9EB2);
    assert!(
        elapsed < std::time::Duration::from_secs(5),
        "exhaustive CRC-16 sweep took {elapsed:?}"
    );
}
