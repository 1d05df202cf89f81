//! What holds of the checksum engine as a whole, on concrete values.

use wiretap::algorithms::{
    calculate_checksum_simple, crc16_modbus_checksum, crc16_modbus_valid, crc16_parameterised,
    crc8_parameterised, reflect16, reflect8, sum8_checksum, ChecksumAlgorithm, ALL_ALGORITHMS,
};
use wiretap::detect::{
    analyse_tail_columns, build_checksum_specs, calc_ranges, detect_checksum, score_candidate,
    ChecksumCandidate, ChecksumColumnStat, ChecksumDetectionOptions, Percentage, MAX_CANDIDATES,
    MAX_SAMPLES,
};
use wiretap::frame::{bound_byte_index, calculated_range, extract_checksum};
use wiretap::notes::ChecksumNote;
use wiretap::recover::solve_all;
use wiretap::sampling::{deduplicate, diverse_samples, strided_samples};
use wiretap::scan::{eligible_groups, group_frames, FrameKey};
use wiretap::solve::{
    solve_crc, AdditiveOp, CrcParameters, CrcSolveOptions, SolveTarget, SolvedKind,
};
use wiretap::spec::{sweep_specs, ChecksumSpec};
use wiretap::specification::{all_algorithm_ids, ChecksumSpecification, CRC_CUSTOM, SUM8_NEGATED};

fn varied(count: u32) -> Vec<Vec<u8>> {
    (0..count)
        .map(|i| {
            vec![
                0x10,
                i as u8,
                (i.wrapping_mul(37) ^ 0x5A) as u8,
                (i.wrapping_mul(211)) as u8,
            ]
        })
        .collect()
}

fn summed(count: u32) -> Vec<Vec<u8>> {
    varied(count)
        .into_iter()
        .map(|mut f| {
            f.push(sum8_checksum(&f));
            f
        })
        .collect()
}

const TRAILING: SolveTarget = SolveTarget {
    position: -1,
    byte_length: 1,
    big_endian: true,
    calc_start_byte: 0,
    calc_end_byte: -1,
};

#[test]
fn algorithm_ids_differ() {
    for (i, a) in ALL_ALGORITHMS.iter().enumerate() {
        for b in &ALL_ALGORITHMS[i + 1..] {
            assert_ne!(a.as_str(), b.as_str());
        }
    }
}

#[test]
fn reflecting_twice_gives_the_value_back() {
    for v in 0..=255u8 {
        assert_eq!(reflect8(reflect8(v)), v);
    }
    for v in [0u16, 1, 0x8000, 0x1021, 0xABCD, 0xFFFF] {
        assert_eq!(reflect16(reflect16(v)), v);
    }
}

#[test]
fn crc_registers_are_linear() {
    let a = [0x12u8, 0x34, 0x56];
    let b = [0xFFu8, 0x00, 0xA5];
    let both: Vec<u8> = a.iter().zip(&b).map(|(x, y)| x ^ y).collect();
    for reflected in [false, true] {
        let crc = |d: &[u8]| crc8_parameterised(d, 0x1D, 0, 0, reflected);
        assert_eq!(crc(&both), crc(&a) ^ crc(&b));
        let wide = |d: &[u8]| crc16_parameterised(d, 0x1021, 0, 0, reflected, reflected);
        assert_eq!(wide(&both), wide(&a) ^ wide(&b));
    }
}

#[test]
fn one_byte_algorithms_give_a_byte() {
    for algorithm in ALL_ALGORITHMS {
        let value = calculate_checksum_simple(algorithm, b"123456789");
        assert!(algorithm.output_bytes() == 2 || value <= 0xFF);
    }
}

#[test]
fn a_modbus_message_carries_its_crc() {
    let mut message = vec![0x01u8, 0x03, 0x00, 0x00, 0x00, 0x0A];
    message.extend(crc16_modbus_checksum(&message).to_le_bytes());
    assert!(crc16_modbus_valid(&message));
    message[2] ^= 1;
    assert!(!crc16_modbus_valid(&message));
    assert!(!crc16_modbus_valid(&[0x01]));
}

#[test]
fn end_relative_fields_ignore_what_comes_before() {
    let long = [9u8, 8, 7, 0xAB, 0xCD];
    let short = [0xABu8, 0xCD];
    for (position, length) in [(-1, 1), (-2, 1), (-2, 2)] {
        assert_eq!(
            extract_checksum(&long, position, length, true),
            extract_checksum(&short, position, length, true)
        );
    }
}

#[test]
fn ranges_are_bounded_by_the_frame() {
    assert_eq!(bound_byte_index(12, 10), 10);
    assert_eq!(bound_byte_index(-3, 10), 7);
    assert_eq!(calculated_range(10, -1, 1, 1, -1), Some((1, 9)));
    assert_eq!(calculated_range(10, -1, 1, 9, 2), None);
    assert_eq!(calculated_range(1, -2, 2, 0, -2), None);
}

#[test]
fn specs_are_scored_each_on_its_own() {
    let frames = summed(12);
    let spec = |algorithm: ChecksumAlgorithm, start: i32| ChecksumSpec {
        algorithm,
        position: -1,
        byte_length: 1,
        big_endian: true,
        calc_start_byte: start,
        calc_end_byte: -1,
    };
    let specs = [
        spec(ChecksumAlgorithm::Sum8, 0),
        spec(ChecksumAlgorithm::Xor, 0),
        spec(ChecksumAlgorithm::Sum8, 1),
    ];
    let together = sweep_specs(&frames, &specs);
    for (i, one) in specs.iter().enumerate() {
        let alone = sweep_specs(&frames, &[*one]);
        assert_eq!(together[i].match_count, alone[0].match_count);
        assert_eq!(together[i].total_count, alone[0].total_count);
        assert!(together[i].match_count <= together[i].total_count);
    }
    assert_eq!(together[0].match_count, 12);
}

#[test]
fn sampling_keeps_to_the_limit_and_the_payloads() {
    let frames = varied(200);
    for chosen in [strided_samples(&frames, 40), diverse_samples(&frames, 40)] {
        assert!(chosen.len() <= 40);
        assert!(chosen.iter().all(|f| frames.contains(f)));
    }
    let once = deduplicate(&[frames.clone(), frames.clone()].concat());
    assert_eq!(once, frames);
    assert_eq!(deduplicate(&once), once);
}

#[test]
fn a_solved_crc_reproduces_the_capture_whichever_pair_is_used() {
    let frames: Vec<Vec<u8>> = varied(40)
        .into_iter()
        .map(|mut f| {
            f.push(crc8_parameterised(&f, 0x2F, 0x35, 0x81, false));
            f
        })
        .collect();
    let solved = solve_crc(&frames, &TRAILING, &CrcSolveOptions::default());
    let SolvedKind::Crc(crc) = &solved[0].kind else {
        panic!("expected a CRC");
    };
    let mut pairs = vec![(crc.init, crc.xor_out)];
    pairs.extend(crc.alternatives.iter().map(|a| (a.init, a.xor_out)));
    for (init, xor_out) in pairs {
        for f in &frames {
            let body = &f[..f.len() - 1];
            let value =
                crc8_parameterised(body, crc.polynomial as u8, init as u8, xor_out as u8, false);
            assert_eq!(value, f[f.len() - 1]);
        }
    }
}

#[test]
fn every_polynomial_that_fits_is_reported() {
    // Payloads of one byte, each a power of two away from the next, leave several
    // polynomials standing; each of them must be in the answer.
    let frames: Vec<Vec<u8>> = (0..3u8)
        .map(|i| {
            let body = [1u8 << i];
            vec![body[0], crc8_parameterised(&body, 0x07, 0, 0, false)]
        })
        .collect();
    let solved = solve_crc(
        &frames,
        &TRAILING,
        &CrcSolveOptions {
            known_polynomials_only: false,
            max_solutions: 1000,
        },
    );
    let found: Vec<u16> = solved
        .iter()
        .filter_map(|s| match &s.kind {
            SolvedKind::Crc(crc) if !crc.reflect_in && !crc.reflect_out => Some(crc.polynomial),
            _ => None,
        })
        .collect();
    for polynomial in 1..=255u8 {
        let residue = |f: &Vec<u8>| crc8_parameterised(&f[..1], polynomial, 0, 0, false) ^ f[1];
        let fits = frames.iter().all(|f| residue(f) == residue(&frames[0]));
        assert_eq!(found.contains(&(polynomial as u16)), fits, "{polynomial:#04X}");
    }
}

#[test]
fn named_crcs_match_their_parameters() {
    let named = ChecksumSpecification::Named {
        algorithm: ChecksumAlgorithm::Crc8Autosar,
    };
    let explicit = ChecksumSpecification::Crc(CrcParameters {
        width: 8,
        polynomial: 0x2F,
        reflect_in: false,
        reflect_out: false,
        init: 0xFF,
        xor_out: 0xFF,
        well_known: true,
        alternatives: Vec::new(),
    });
    assert_eq!(named.calculate(b"123456789"), 0xDF);
    assert_eq!(explicit.calculate(b"123456789"), 0xDF);
    assert!(named.is_expressible_by_sweep());
    assert!(explicit.is_expressible_by_sweep());
    assert_eq!(explicit.algorithm_id(), CRC_CUSTOM);
    let unnamed = ChecksumSpecification::Crc(CrcParameters {
        width: 8,
        polynomial: 0x2F,
        reflect_in: false,
        reflect_out: false,
        init: 0x35,
        xor_out: 0xFF,
        well_known: false,
        alternatives: Vec::new(),
    });
    assert!(!unnamed.is_expressible_by_sweep());
}

#[test]
fn additive_specifications_calculate_their_offset() {
    let sum = ChecksumSpecification::Additive {
        op: AdditiveOp::Sum,
        offset: 0xA5,
    };
    let negated = ChecksumSpecification::Additive {
        op: AdditiveOp::NegatedSum,
        offset: 0,
    };
    assert_eq!(sum.calculate(&[1, 2, 3]), 0xAB);
    assert_eq!(negated.calculate(&[1, 2, 3]), 0xFA);
    assert_eq!(negated.algorithm_id(), SUM8_NEGATED);
    let ids = all_algorithm_ids();
    assert!(ids.contains(&CRC_CUSTOM) && ids.contains(&SUM8_NEGATED) && ids.contains(&"xor"));
}

#[test]
fn candidates_report_what_a_sweep_counts() {
    let frames = summed(60);
    let result = detect_checksum(&frames, &ChecksumDetectionOptions::default());
    assert!(!result.candidates.is_empty());
    assert!(result.candidates.len() <= MAX_CANDIDATES);
    for c in &result.candidates {
        let swept = sweep_specs(
            &frames,
            &[ChecksumSpec {
                algorithm: c.algorithm,
                position: c.position,
                byte_length: c.length,
                big_endian: c.big_endian,
                calc_start_byte: c.calc_start_byte,
                calc_end_byte: c.calc_end_byte,
            }],
        );
        assert_eq!(swept[0].match_count, c.match_count);
        assert_eq!(swept[0].total_count, c.total_count);
    }
    assert!(result
        .candidates
        .windows(2)
        .all(|w| w[0].confidence >= w[1].confidence));
}

#[test]
fn header_hints_keep_every_configuration() {
    let frames = summed(20);
    let columns = analyse_tail_columns(&frames, 4);
    let bare = build_checksum_specs(&frames, &ChecksumDetectionOptions::default(), &columns);
    let hinted = build_checksum_specs(
        &frames,
        &ChecksumDetectionOptions {
            header_boundaries: vec![3, -1],
            ..Default::default()
        },
        &columns,
    );
    assert!(bare.iter().all(|s| hinted.contains(s)));
    assert!(hinted.len() > bare.len());
    assert!(calc_ranges(-1, &columns, &[3])
        .iter()
        .any(|r| r.calc_start_byte == 3));
}

#[test]
fn a_rate_is_reached_exactly() {
    assert!(Percentage::whole(95).is_reached_by(95, 100));
    assert!(!Percentage::whole(95).is_reached_by(94, 100));
    assert!(Percentage::whole(50).is_reached_by(1, 2));
}

#[test]
fn solved_answers_are_reported_once() {
    let frames = summed(40);
    let mut targets = Vec::new();
    for start in 0..2 {
        targets.push(SolveTarget {
            calc_start_byte: start,
            ..TRAILING
        });
    }
    let answers = solve_all(&frames, &targets, &CrcSolveOptions::default());
    // Byte 0 is constant, so both ranges solve: one answer, written two ways.
    assert_eq!(answers.len(), 1);
    assert_eq!(answers[0].target.calc_start_byte, 0);
    assert_eq!(answers[0].equivalent_ranges.len(), 1);
    assert_eq!(answers[0].equivalent_ranges[0].calc_start_byte, 1);
}

#[test]
fn grouping_puts_every_frame_with_its_id() {
    let key = |id: u32| FrameKey::new(id, false);
    let frames = vec![
        (key(2), vec![1]),
        (key(1), vec![2]),
        (key(2), vec![]),
        (key(2), vec![3]),
    ];
    assert_eq!(
        group_frames(frames),
        vec![(key(2), vec![vec![1], vec![3]]), (key(1), vec![vec![2]])]
    );
}

#[test]
fn notes_hold_what_is_put_into_them() {
    let note = ChecksumNote::new("sample")
        .with_count("frames", 7)
        .with_offset("position", -2)
        .with_text("algorithm", "sum8".to_string());
    assert_eq!(note.code, "sample");
    assert_eq!(note.values["frames"], serde_json::Value::from(7));
    assert_eq!(note.values["position"], serde_json::Value::from(-2));
    assert_eq!(note.values["algorithm"], serde_json::Value::from("sum8"));
    assert_eq!(note.clone(), note);
}

#[test]
fn detection_measures_at_most_the_sample() {
    let result = detect_checksum(&summed(1000), &ChecksumDetectionOptions::default());
    assert!(result.candidates.iter().all(|c| c.total_count <= MAX_SAMPLES));
}

#[test]
fn a_share_of_no_frames_is_none() {
    let spec = ChecksumSpec {
        algorithm: ChecksumAlgorithm::Xor,
        position: -1,
        byte_length: 1,
        big_endian: true,
        calc_start_byte: 0,
        calc_end_byte: -1,
    };
    let codes = |c: &ChecksumCandidate| -> Vec<String> {
        c.notes.iter().map(|n| n.code.clone()).collect()
    };
    let none = score_candidate(&spec, 0, 0, &[], &[], &[]).unwrap();
    assert_eq!(none.confidence, 5);
    assert_eq!(codes(&none), ["matchesSome", "fewSamples", "shortRange"]);
    // A column that showed nothing says nothing either way.
    let empty = ChecksumColumnStat {
        position: -1,
        distinct_values: 0,
        constant_value: None,
        sample_count: 0,
    };
    assert_eq!(score_candidate(&spec, 0, 0, &[empty], &[], &[]).unwrap().confidence, 5);
    let all = score_candidate(&spec, 1, 1, &[], &[], &[]).unwrap();
    assert_eq!(all.confidence, 50);
    assert_eq!(codes(&all), ["matchesAll", "fewSamples", "shortRange"]);
}

#[test]
fn added_hints_add_only_their_own_starts() {
    let frames = summed(20);
    let columns = analyse_tail_columns(&frames, 4);
    let with = |header_boundaries: Vec<i32>| {
        build_checksum_specs(
            &frames,
            &ChecksumDetectionOptions {
                header_boundaries,
                ..Default::default()
            },
            &columns,
        )
    };
    let fewer = with(vec![2]);
    let more = with(vec![2, 3]);
    assert!(fewer.iter().all(|s| more.contains(s)));
    for s in &more {
        assert!(fewer.contains(s) || s.calc_start_byte == 3);
        assert_eq!(s.byte_length, s.algorithm.output_bytes());
        assert!(s.position + s.byte_length as i32 <= 0);
        let other = ChecksumSpec {
            big_endian: !s.big_endian,
            ..*s
        };
        assert_eq!(more.contains(&other), s.byte_length == 2);
    }
}

#[test]
fn eligible_groups_are_those_with_enough_frames() {
    let groups = group_frames(
        (0..7u32)
            .map(|i| {
                let frame_id = if i < 4 { 1 } else { 2 };
                (FrameKey::new(frame_id, false), vec![i as u8 + 1])
            })
            .collect(),
    );
    assert_eq!(eligible_groups(&groups, 3), [0, 1]);
    assert_eq!(eligible_groups(&groups, 4), [0]);
    assert!(eligible_groups(&groups, 5).is_empty());
}
