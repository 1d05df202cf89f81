//! Identifying which bytes are worth solving as a checksum.

use std::collections::BTreeSet;
use wiretap::algorithms::{crc16_parameterised, crc8_checksum, sum8_checksum};
use wiretap::columns::{analyse_columns, ColumnStats};
use wiretap::detect::MAX_SAMPLES;
use wiretap::evidence::{
    checksum_evidence, checksum_evidence_with_columns, solve_targets, ChecksumEvidence, Rejection,
};
use wiretap::sampling::strided_samples;
use wiretap::solve::SolveTarget;

/// Shannon entropy of a column's values, in bits.
fn entropy_bits(column: &ColumnStats) -> f64 {
    let total = column.sample_count as f64;
    -column
        .histogram
        .iter()
        .filter(|n| **n > 0)
        .map(|n| {
            let p = *n as f64 / total;
            p * p.log2()
        })
        .sum::<f64>()
}

fn ratio(parts: (usize, usize)) -> f64 {
    parts.0 as f64 / parts.1 as f64
}

/// How checksum-shaped a column looks, 0-100.
fn likeness(evidence: &ChecksumEvidence, column: &ColumnStats) -> u8 {
    if evidence.rejected.is_some() {
        return 0;
    }
    let responsiveness = ratio(evidence.responsiveness());
    let mut score = 40.0 * ((responsiveness - 0.9) / 0.1).clamp(0.0, 1.0) + 20.0;
    score += 25.0 * (entropy_bits(column) / 8.0).clamp(0.0, 1.0);
    score += 15.0 * ratio(evidence.distinct_ratio).clamp(0.0, 1.0);
    score.clamp(0.0, 100.0) as u8
}

/// Evidence with each column rated.
fn rated(evidence: Vec<ChecksumEvidence>, columns: &[ColumnStats]) -> Vec<ChecksumEvidence> {
    evidence
        .into_iter()
        .zip(columns)
        .map(|(e, c)| e.rated(likeness(&e, c)))
        .collect()
}

fn rated_evidence(payloads: &[Vec<u8>]) -> Vec<ChecksumEvidence> {
    let columns = analyse_columns(&strided_samples(payloads, MAX_SAMPLES));
    rated(checksum_evidence(payloads), &columns)
}

fn at(evidence: &[ChecksumEvidence], position: i32) -> &ChecksumEvidence {
    evidence.iter().find(|e| e.position == position).unwrap()
}

/// The targets a caller would hand the solver for these payloads.
fn targets(payloads: &[Vec<u8>], min_likeness: u8) -> Vec<SolveTarget> {
    let columns = analyse_columns(payloads);
    let evidence = rated(checksum_evidence_with_columns(payloads, &columns), &columns);
    solve_targets(&evidence, &columns, min_likeness)
}

/// Independently varying data with a real checksum appended.
///
/// The fields must not all derive from one counter: if they do, every byte
/// really is a function of every other and the pass is right to keep them
/// all — which makes such a fixture useless for telling the checksum apart.
fn signed<F: Fn(&[u8]) -> u8>(count: u32, sign: F) -> Vec<Vec<u8>> {
    let mut seeds = [0x1234u32, 0x9E37, 0x5A5A, 0x0BAD];
    (0..count)
        .map(|_| {
            for seed in seeds.iter_mut() {
                *seed = seed.wrapping_mul(1_103_515_245).wrapping_add(12_345);
            }
            let mut body: Vec<u8> = seeds.iter().map(|s| (s >> 16) as u8).collect();
            body.push(sign(&body));
            body
        })
        .collect()
}

#[test]
fn a_real_checksum_column_is_a_candidate() {
    let evidence = rated_evidence(&signed(120, crc8_checksum));
    let last = at(&evidence, -1);

    assert!(last.is_candidate(), "{last:?}");
    assert!(ratio(last.responsiveness()) > 0.95, "{last:?}");
    assert!(last.likeness > 70, "{}", last.likeness);
}

#[test]
fn a_sum_is_a_candidate_too() {
    let last = &rated_evidence(&signed(120, sum8_checksum))[0];
    assert!(last.is_candidate(), "{last:?}");
}

#[test]
fn padding_is_rejected_as_constant() {
    let payloads: Vec<Vec<u8>> = (0..40u8).map(|i| vec![0x10, i, 0x00]).collect();
    let evidence = rated_evidence(&payloads);
    assert_eq!(at(&evidence, -1).rejected, Some(Rejection::Constant));
}

/// The arithmetic rejection: a counter advances even when nothing else in
/// the payload moved, so it cannot be a function of those bytes.
#[test]
fn a_free_running_counter_cannot_be_a_function_of_the_other_bytes() {
    let payloads: Vec<Vec<u8>> = (0..60u8).map(|i| vec![0x10, 0x20, 0x30, i]).collect();
    let evidence = rated_evidence(&payloads);
    let last = at(&evidence, -1);

    assert_eq!(last.rejected, Some(Rejection::NotAFunctionOfTheOtherBytes));
    // And it would have looked good on entropy alone — which is the point.
    assert!(ratio(last.distinct_ratio) > 0.9, "{last:?}");
}

/// The trap this module exists for. Four 16-bit cell voltages jittering
/// independently: entropy near maximum, nearly every payload distinct, and
/// no checksum anywhere — because each byte tracks its own reading and sits
/// still while the others move.
#[test]
fn high_entropy_sensor_data_is_not_mistaken_for_a_checksum() {
    let mut state = [0x809Bu16, 0x80B4, 0x8096, 0x80B0];
    let payloads: Vec<Vec<u8>> = (0..160u32)
        .map(|i| {
            // Three readings drift every frame; the fourth is a slower cell
            // that only moves occasionally. That last one is the case a
            // checksum test has to get right — it sits still while the
            // payload around it moves.
            for (cell, value) in state.iter_mut().enumerate().take(3) {
                let up = (i / (cell as u32 + 1)).is_multiple_of(2);
                *value = value.wrapping_add(if up { 1 } else { 0xFFFF });
            }
            if i % 5 == 0 {
                state[3] = state[3].wrapping_add(1);
            }
            state.iter().flat_map(|v| v.to_le_bytes()).collect()
        })
        .collect();

    let evidence = rated_evidence(&payloads);
    let candidates: Vec<&ChecksumEvidence> =
        evidence.iter().filter(|e| e.is_candidate()).collect();

    assert!(
        candidates.is_empty(),
        "sensor bytes read as checksums: {candidates:?}"
    );
    // Both reasons are represented: the slow fourth cell sits still while
    // the payload moves, and the fast ones take far too few values to be
    // checksumming anything.
    assert!(evidence
        .iter()
        .any(|e| e.rejected == Some(Rejection::TooOftenUnchanged)));
    assert!(evidence
        .iter()
        .any(|e| e.rejected == Some(Rejection::TooFewDistinctValues)));
}

#[test]
fn a_thin_sample_is_declined_rather_than_guessed_at() {
    let payloads: Vec<Vec<u8>> = (0..4u8).map(|i| vec![0x10, i, i]).collect();
    let evidence = rated_evidence(&payloads);
    assert_eq!(
        at(&evidence, -1).rejected,
        Some(Rejection::TooFewTransitions)
    );
}

/// The property that actually matters. A false positive costs a few
/// milliseconds of solving; a false negative loses the answer, so the real
/// checksum must always reach the solver.
#[test]
fn the_real_checksum_column_is_never_filtered_out() {
    let payloads = signed(120, crc8_checksum);
    let evidence = rated_evidence(&payloads);
    assert!(at(&evidence, -1).is_candidate(), "{:?}", at(&evidence, -1));

    let targets = targets(&payloads, 50);
    assert!(
        targets
            .iter()
            .any(|t| t.position == -1 && t.byte_length == 1),
        "the checksum byte was not offered to the solver: {targets:?}"
    );
}

/// Honest about the limit. When every field moves on every frame, a data
/// byte is as responsive as a checksum and identification cannot separate
/// them — it narrows the search, it does not decide the answer. What it must
/// never do is drop the real one, which the test above pins.
#[test]
fn data_bytes_that_move_constantly_also_survive_identification() {
    let evidence = rated_evidence(&signed(120, crc8_checksum));
    let survivors = evidence.iter().filter(|e| e.is_candidate()).count();

    assert!(survivors > 1, "expected the pass to be permissive here");
}

#[test]
fn a_rejected_bus_yields_no_targets_at_all() {
    let payloads: Vec<Vec<u8>> = (0..60u8).map(|i| vec![0x10, 0x20, 0x30, i]).collect();
    assert!(targets(&payloads, 50).is_empty());
}

/// A leading type byte that *varies* is not absorbed into an offset, so only the
/// range that excludes it can solve.
#[test]
fn the_solver_is_offered_a_range_that_excludes_a_leading_type_byte() {
    let payloads: Vec<Vec<u8>> = (0..120u32)
        .map(|i| {
            let mut body = vec![
                (i % 7) as u8,
                (i.wrapping_mul(37) ^ 0x5A) as u8,
                (i.wrapping_mul(211)) as u8,
                (i.wrapping_mul(7) ^ 0xF0) as u8,
            ];
            let checksum = sum8_checksum(&body[1..]);
            body.push(checksum);
            body
        })
        .collect();

    let offered = targets(&payloads, 50);
    assert!(
        offered
            .iter()
            .any(|t| t.position == -1 && t.byte_length == 1 && t.calc_start_byte == 1),
        "no target skips the type byte: {offered:?}"
    );
}

/// Every start the sweep tries, the solver tries too. Nothing about the checksum's
/// own geometry decides which calculation ranges are on offer.
#[test]
fn the_solver_sees_the_same_starts_the_sweep_does() {
    let payloads = signed(120, crc8_checksum);
    let starts: BTreeSet<i32> = targets(&payloads, 50)
        .iter()
        .filter(|t| t.position == -1)
        .map(|t| t.calc_start_byte)
        .collect();

    assert_eq!(starts, BTreeSet::from([0, 1, 2]));
}

/// A 16-bit checksum leaves two adjacent responsive columns, and the pair is
/// worth trying both ways round.
#[test]
fn adjacent_survivors_produce_a_two_byte_target() {
    let payloads: Vec<Vec<u8>> = (0..160u32)
        .map(|i| {
            let mut body = vec![0x10, i as u8, (i >> 8) as u8, (i.wrapping_mul(37)) as u8];
            let crc =
                crc16_parameterised(&body, 0x1021, 0xFFFF, 0, false, false);
            body.extend_from_slice(&crc.to_le_bytes());
            body
        })
        .collect();

    let evidence = rated_evidence(&payloads);
    let offered = targets(&payloads, 40);

    assert!(
        offered
            .iter()
            .any(|t| t.byte_length == 2 && t.position == -2),
        "no two-byte target: {evidence:?}"
    );
}

#[test]
fn evidence_is_consistent() {
    let captures = [
        signed(60, crc8_checksum),
        signed(60, sum8_checksum),
        signed(6, sum8_checksum),
        (0..60u8).map(|i| vec![0, i, 7, i / 8]).collect(),
    ];
    for payloads in captures {
        for e in rated_evidence(&payloads) {
            assert!(e.changed_with_payload <= e.payload_changed);
            if e.rejected.is_some() {
                assert_eq!(e.likeness, 0);
            } else {
                let all = e.payload_changed + e.changed_alone;
                assert!(all >= 8 && 50 * e.changed_alone <= all);
                assert!(10 * e.changed_with_payload >= 9 * e.payload_changed);
            }
        }
    }
}
