//! Scanning a capture for checksums, frame id by frame id.

use wiretap::algorithms::{crc8_parameterised, sum8_checksum, ChecksumAlgorithm};
use wiretap::columns::ColumnStats;
use wiretap::detect::volume_bonus;
use wiretap::evidence::{ChecksumEvidence, Rejection};
use wiretap::scan::{
    compare, group_frames, profile_group, scan_frames, score_solved, ChecksumScanOptions,
    ChecksumScanResult, DiscoveredChecksum, FrameKey, MatchRate,
};
use wiretap::solve::AdditiveOp;
use wiretap::specification::ChecksumSpecification;

/// Shannon entropy of a column's values, in bits.
fn entropy_bits(column: &ColumnStats) -> f64 {
    let total = column.sample_count as f64;
    -column
        .histogram
        .iter()
        .filter(|n| **n > 0)
        .map(|n| {
            let p = *n as f64 / total;
            p * p.log2()
        })
        .sum::<f64>()
}

fn ratio(parts: (usize, usize)) -> f64 {
    parts.0 as f64 / parts.1 as f64
}

/// How checksum-shaped a column looks, 0-100.
fn likeness(evidence: &ChecksumEvidence, column: &ColumnStats) -> u8 {
    if evidence.rejected.is_some() {
        return 0;
    }
    let responsiveness = ratio(evidence.responsiveness());
    let mut score = 40.0 * ((responsiveness - 0.9) / 0.1).clamp(0.0, 1.0) + 20.0;
    score += 25.0 * (entropy_bits(column) / 8.0).clamp(0.0, 1.0);
    score += 15.0 * ratio(evidence.distinct_ratio).clamp(0.0, 1.0);
    score.clamp(0.0, 100.0) as u8
}

/// A scan with every column rated.
fn rated_scan(frames: Vec<(FrameKey, Vec<u8>)>, options: &ChecksumScanOptions) -> ChecksumScanResult {
    let ratings: Vec<Vec<u8>> = group_frames(frames.clone())
        .iter()
        .map(|(_, group)| {
            let profile = profile_group(group);
            profile
                .evidence
                .iter()
                .zip(&profile.columns)
                .map(|(e, c)| likeness(e, c))
                .collect()
        })
        .collect();
    scan_frames(frames, options, &ratings)
}

/// One frame as `scan_frames` takes them.
fn frame(frame_id: u32, bytes: Vec<u8>) -> (FrameKey, Vec<u8>) {
    (FrameKey::new(frame_id, false), bytes)
}

/// A frame id whose last byte is a checksum over the rest.
fn signed_frames<F: Fn(&[u8]) -> u8>(
    frame_id: u32,
    count: u32,
    sign: F,
) -> Vec<(FrameKey, Vec<u8>)> {
    (0..count)
        .map(|i| {
            let mut body = vec![
                0x10,
                i as u8,
                (i >> 8) as u8,
                (i.wrapping_mul(37) ^ 0x5A) as u8,
                (i.wrapping_mul(211)) as u8,
                0xC3,
                (i.wrapping_mul(7) ^ 0xF0) as u8,
            ];
            let checksum = sign(&body);
            body.push(checksum);
            frame(frame_id, body)
        })
        .collect()
}

fn best(result: &ChecksumScanResult, frame_id: u32) -> &DiscoveredChecksum {
    let finding = result
        .findings
        .iter()
        .find(|f| f.key.frame_id == frame_id)
        .unwrap_or_else(|| panic!("no finding for {frame_id:#X}"));
    finding
        .candidates
        .first()
        .unwrap_or_else(|| panic!("no candidate for {frame_id:#X}"))
}

/// The two scorers rank into one list, so the tier table they share is a
/// contract.
#[test]
fn both_scorers_credit_evidence_on_the_same_tiers() {
    for samples in [0, 3, 8, 20, 50, 200, 1000] {
        assert_eq!(
            score_solved(0, samples) as i32 - 55,
            volume_bonus(samples),
            "solved confidence drifted from the shared tiers at {samples} samples"
        );
    }
}

/// A solved configuration reproduces every sample or is not reported, so it
/// has no rate. Ranking it as though the missing number were zero would bury
/// the exact answer under a partial match, which is the wrong way round.
#[test]
fn an_exact_solution_is_not_ranked_below_a_partial_match() {
    let base = DiscoveredChecksum {
        specification: ChecksumSpecification::Additive {
            op: AdditiveOp::NegatedSum,
            offset: 0x11,
        },
        position: -1,
        length: 1,
        big_endian: true,
        calc_start_byte: 0,
        calc_end_byte: -1,
        match_count: 40,
        total_count: 40,
        match_rate: None,
        excluded_count: 0,
        confidence: 70,
        notes: Vec::new(),
        equivalent_ranges: Vec::new(),
    };
    let partial = DiscoveredChecksum {
        match_rate: Some(MatchRate {
            matched: 96,
            total: 100,
        }),
        ..base.clone()
    };

    assert_eq!(compare(&base, &partial), std::cmp::Ordering::Less);
}

#[test]
fn finds_a_named_algorithm() {
    let result = rated_scan(signed_frames(0x100, 40, sum8_checksum), &Default::default());

    assert_eq!(
        best(&result, 0x100).specification,
        ChecksumSpecification::Named {
            algorithm: ChecksumAlgorithm::Sum8
        }
    );
    let rate = best(&result, 0x100).match_rate.expect("a rate");
    assert_eq!(rate.matched, rate.total);
}

/// The reason a solver exists: no named algorithm can express this.
#[test]
fn finds_a_sum_with_an_offset_no_named_algorithm_carries() {
    let frames = signed_frames(0x101, 40, |d| sum8_checksum(d).wrapping_add(0xA5));
    let result = rated_scan(frames, &Default::default());

    assert_eq!(
        best(&result, 0x101).specification,
        ChecksumSpecification::Additive {
            op: AdditiveOp::Sum,
            offset: 0xA5
        }
    );
}

#[test]
fn recovers_an_arbitrary_polynomial_only_when_asked() {
    let frames = signed_frames(0x102, 60, |d| {
        crc8_parameterised(d, 0x4D, 0xB7, 0x2C, false)
    });

    let off = rated_scan(frames.clone(), &Default::default());
    assert!(off.findings[0].candidates.is_empty());

    let on = rated_scan(
        frames.clone(),
        &ChecksumScanOptions {
            search_custom_polynomials: true,
            ..Default::default()
        },
    );
    let ChecksumSpecification::Crc(parameters) = &best(&on, 0x102).specification else {
        panic!("expected a CRC, got {:?}", best(&on, 0x102).specification);
    };
    assert_eq!(parameters.polynomial, 0x4D);
}

/// The type byte *varies*, so it
/// is not absorbed into an offset and only the range that excludes it can
/// reproduce the frames.
#[test]
fn solves_a_checksum_that_skips_a_varying_type_byte() {
    let frames: Vec<(FrameKey, Vec<u8>)> = (0..60u32)
        .map(|i| {
            let mut body = vec![
                (i % 7) as u8,
                (i.wrapping_mul(37) ^ 0x5A) as u8,
                (i.wrapping_mul(211)) as u8,
                0xC3,
                (i.wrapping_mul(7) ^ 0xF0) as u8,
            ];
            let checksum = sum8_checksum(&body[1..]).wrapping_add(0xA5);
            body.push(checksum);
            frame(0x110, body)
        })
        .collect();

    let result = rated_scan(frames, &Default::default());
    let best = best(&result, 0x110);

    assert_eq!(
        best.specification,
        ChecksumSpecification::Additive {
            op: AdditiveOp::Sum,
            offset: 0xA5
        }
    );
    assert_eq!(best.calc_start_byte, 1);
    // Byte 0 moves, so no other start reproduces the data and there is
    // nothing to be ambiguous about.
    assert!(best.equivalent_ranges.is_empty(), "{best:?}");
}

/// The other half of the same change. When the excluded bytes *are*
/// constant every start solves — with a different offset each — because a
/// constant range contributes a constant. That is one answer written three
/// ways, and it has to come back as one candidate or the widened search
/// reads as noise.
#[test]
fn ranges_the_data_cannot_tell_apart_collapse_into_one_candidate() {
    // Bytes 0 and 1 are constant; byte -2 varies, so the range's end is not
    // ambiguous and only the start is.
    let frames: Vec<(FrameKey, Vec<u8>)> = (0..60u32)
        .map(|i| {
            let mut body = vec![
                0x10,
                0x20,
                (i.wrapping_mul(37) ^ 0x5A) as u8,
                (i.wrapping_mul(211)) as u8,
                (i.wrapping_mul(7) ^ 0xF0) as u8,
            ];
            let checksum = sum8_checksum(&body).wrapping_add(0xA5);
            body.push(checksum);
            frame(0x111, body)
        })
        .collect();

    let finding = &rated_scan(frames, &Default::default()).findings[0];
    let sums: Vec<&DiscoveredChecksum> = finding
        .candidates
        .iter()
        .filter(|c| matches!(c.specification, ChecksumSpecification::Additive { .. }))
        .collect();

    assert_eq!(sums.len(), 1, "one answer, reported many ways: {sums:?}");
    // The widest range wins; the narrower ones are kept as alternatives
    // rather than dropped, because none of them is more true than another.
    assert_eq!(sums[0].calc_start_byte, 0);
    let starts: Vec<i32> = sums[0]
        .equivalent_ranges
        .iter()
        .map(|r| r.calc_start_byte)
        .collect();
    assert_eq!(starts, vec![1, 2]);
}

/// Every byte is zero, so XOR and Sum8 over the body both reproduce the trailing
/// 0x00 perfectly, and only the constant column tells padding from a match.
#[test]
fn an_all_zero_frame_is_padding_not_a_perfect_xor() {
    let frames: Vec<(FrameKey, Vec<u8>)> =
        (0..40).map(|_| frame(0x000, vec![0u8; 8])).collect();
    let result = rated_scan(frames, &Default::default());

    assert!(
        result.findings[0].candidates.is_empty(),
        "reported {:?}",
        result.findings[0].candidates
    );
}

/// A constant trailing byte beside varying data is padding too, and this is
/// the shape most of the Sungrow bus actually has.
#[test]
fn a_constant_trailing_byte_beside_real_data_is_padding() {
    let frames: Vec<(FrameKey, Vec<u8>)> = (0..40u32)
        .map(|i| {
            frame(
                0x013,
                vec![0x01, 0x07, i as u8, 0x00, 0x02, 0x02, (i * 3) as u8, 0x00],
            )
        })
        .collect();

    let result = rated_scan(frames, &Default::default());
    assert!(result.findings[0]
        .candidates
        .iter()
        .all(|c| c.position != -1));
}

/// The trap the two sample sets exist for. Deduplicating before the sweep
/// collapses 40 identical frames to one, and the constant-column rejection
/// needs eight before it will call a column padding — so the guard goes
/// quiet and the padding comes back as a flawless XOR. The evidence sample
/// keeps the repeats; only the solvers see the deduplicated set.
#[test]
fn deduplication_does_not_disarm_the_padding_rejection() {
    let frames: Vec<(FrameKey, Vec<u8>)> =
        (0..40).map(|_| frame(0x001, vec![0u8; 8])).collect();
    let finding = &rated_scan(frames, &Default::default()).findings[0];

    assert_eq!(finding.distinct_payloads, 1);
    assert!(finding.candidates.is_empty(), "{:?}", finding.candidates);
}

/// An empty result has to say what it decided about each byte. "Nothing
/// found" is not actionable; "byte -1 never changes, byte -2 is a counter"
/// tells you where to look next.
#[test]
fn every_byte_column_comes_back_with_a_verdict() {
    // Byte -1 counts every frame, -3 moves once every twenty, -2 is
    // constant. The counter therefore advances while the rest holds still,
    // which is the shape that disqualifies it.
    let frames: Vec<(FrameKey, Vec<u8>)> = (0..60u32)
        .map(|i| frame(0x300, vec![0x10, (i / 20) as u8, 0x00, i as u8]))
        .collect();

    let finding = &rated_scan(frames, &Default::default()).findings[0];
    assert!(finding.candidates.is_empty());

    let verdict = |position: i32| {
        finding
            .columns
            .iter()
            .find(|c| c.position == position)
            .unwrap_or_else(|| panic!("no verdict for byte {position}"))
            .rejected
    };

    assert_eq!(verdict(-1), Some(Rejection::NotAFunctionOfTheOtherBytes));
    assert_eq!(verdict(-2), Some(Rejection::Constant));
}

#[test]
fn reports_repeats_as_repeats_rather_than_as_evidence() {
    // 400 frames, two distinct payloads. The sample count must not read as
    // 400 anywhere a reader would take it for search strength.
    let frames: Vec<(FrameKey, Vec<u8>)> = [vec![0x01u8, 0x02, 0x03], vec![0x04, 0x05, 0x09]]
        .into_iter()
        .cycle()
        .take(400)
        .map(|b| frame(0x200, b))
        .collect();

    let finding = &rated_scan(frames, &Default::default()).findings[0];
    assert_eq!(finding.frame_count, 400);
    assert_eq!(finding.distinct_payloads, 2);
}

#[test]
fn separates_frame_ids_and_counts_the_ones_it_skipped() {
    let mut frames = signed_frames(0x100, 40, sum8_checksum);
    frames.extend(signed_frames(0x101, 40, |d| {
        sum8_checksum(d).wrapping_add(0xA5)
    }));
    // Too few samples to be worth analysing.
    frames.extend(signed_frames(0x102, 3, sum8_checksum));

    let result = rated_scan(frames, &Default::default());
    assert_eq!(result.unique_frame_ids, 3);
    assert_eq!(result.skipped_frame_ids, 1);
    assert_eq!(result.findings.len(), 2);
    assert_eq!(result.frame_count, 83);
}

/// A bus of padding and counters must reach
/// the solver with nothing at all, which is what makes an exhaustive
/// polynomial search affordable across a whole capture.
#[test]
fn a_bus_with_no_checksum_offers_the_solver_nothing() {
    let frames: Vec<(FrameKey, Vec<u8>)> = (0..60u32)
        .map(|i| frame(0x301, vec![0x10, 0x00, 0x00, i as u8]))
        .collect();
    let finding = &rated_scan(
        frames,
        &ChecksumScanOptions {
            search_custom_polynomials: true,
            ..Default::default()
        },
    )
    .findings[0];

    assert!(finding.candidates.is_empty());
    assert!(finding.columns.iter().all(|c| !c.is_candidate()));
}

/// Standard and extended ids sharing a number are different frames.
#[test]
fn an_extended_id_is_not_the_same_frame_as_a_standard_one() {
    let mut frames = signed_frames(0x100, 20, sum8_checksum);
    frames.extend(
        signed_frames(0x100, 20, sum8_checksum)
            .into_iter()
            .map(|(k, b)| (FrameKey::new(k.frame_id, true), b)),
    );

    let result = rated_scan(frames, &Default::default());
    assert_eq!(result.unique_frame_ids, 2);
    assert_eq!(result.findings.len(), 2);
}
