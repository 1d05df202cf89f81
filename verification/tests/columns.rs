//! Per-column statistics of payloads.

use wiretap::columns::{analyse_columns, ColumnStats};

/// Shannon entropy of a column's values, in bits.
fn entropy_bits(column: &ColumnStats) -> f64 {
    let total = column.sample_count as f64;
    -column
        .histogram
        .iter()
        .filter(|n| **n > 0)
        .map(|n| {
            let p = *n as f64 / total;
            p * p.log2()
        })
        .sum::<f64>()
}

fn ratio(parts: (usize, usize)) -> f64 {
    parts.0 as f64 / parts.1 as f64
}

fn approx(a: f64, b: f64) -> bool {
    (a - b).abs() < 1e-9
}

#[test]
fn a_constant_column_carries_no_entropy() {
    let payloads: Vec<Vec<u8>> = (0..20u8).map(|i| vec![i, 0x00]).collect();
    let columns = analyse_columns(&payloads);

    let last = columns.iter().find(|c| c.position == -1).unwrap();
    assert_eq!(last.constant_value, Some(0x00));
    assert_eq!(last.distinct_values, 1);
    assert_eq!(last.changes, 0);
    assert!(approx(entropy_bits(last), 0.0));
}

#[test]
fn a_uniform_column_carries_its_full_bits() {
    // 256 values, each once: exactly 8 bits.
    let payloads: Vec<Vec<u8>> = (0..=255u8).map(|i| vec![i]).collect();
    let last = &analyse_columns(&payloads)[0];

    assert_eq!(last.distinct_values, 256);
    assert!(approx(entropy_bits(last), 8.0), "{}", entropy_bits(last));
    assert_eq!(last.changes, 255);
    assert_eq!(last.transitions, 255);
}

#[test]
fn columns_are_end_relative_across_mixed_lengths() {
    let payloads = vec![vec![0x01, 0x02, 0xAA], vec![0x09, 0xAA], vec![0xAA]];
    let columns = analyse_columns(&payloads);

    let last = columns.iter().find(|c| c.position == -1).unwrap();
    assert_eq!(last.constant_value, Some(0xAA));
    assert_eq!(last.sample_count, 3);

    // Only the two longer payloads reach -2, and only the longest reaches -3.
    assert_eq!(
        columns
            .iter()
            .find(|c| c.position == -2)
            .unwrap()
            .sample_count,
        2
    );
    assert_eq!(
        columns
            .iter()
            .find(|c| c.position == -3)
            .unwrap()
            .sample_count,
        1
    );
}

/// A payload too short to reach a column must not make its neighbours look
/// adjacent — that would invent a transition that never happened.
#[test]
fn a_short_payload_breaks_the_run_rather_than_joining_it() {
    let payloads = vec![vec![0x01, 0x11], vec![0x09], vec![0x01, 0x22]];
    let minus_two = analyse_columns(&payloads)
        .into_iter()
        .find(|c| c.position == -2)
        .unwrap();

    assert_eq!(minus_two.sample_count, 2);
    assert_eq!(minus_two.transitions, 0);
    assert_eq!(minus_two.changes, 0);
}

#[test]
fn distinct_ratio_is_bounded_by_the_sample_count() {
    let payloads: Vec<Vec<u8>> = (0..4u8).map(|i| vec![i]).collect();
    let last = &analyse_columns(&payloads)[0];

    // Four distinct in four samples is saturated, not 4/256.
    assert!(approx(ratio(last.distinct_ratio()), 1.0));
}

/// A two-byte checksum reaches 65536 values, so the same column is far less
/// saturated when judged as half of one.
#[test]
fn distinct_ratio_widens_with_the_span_asked_about() {
    let payloads: Vec<Vec<u8>> = (0..=255u8).map(|i| vec![i]).collect();
    let last = &analyse_columns(&payloads)[0];

    assert!(approx(ratio(last.distinct_ratio()), 1.0));
    assert!(approx(ratio(last.distinct_ratio_over(65536)), 1.0));
}

/// One repeated value across three frames is a coincidence; across forty it
/// is padding. Both halves of the engine draw the line here.
#[test]
fn a_thinly_sampled_constant_column_is_not_yet_padding() {
    let thin: Vec<Vec<u8>> = (0..3u8).map(|i| vec![i, 0x00]).collect();
    let last = analyse_columns(&thin).into_iter().next().unwrap();
    assert_eq!(last.constant_value, Some(0x00));
    assert_eq!(last.padding_value(), None);

    let plenty: Vec<Vec<u8>> = (0..40u8).map(|i| vec![i, 0x00]).collect();
    let last = analyse_columns(&plenty).into_iter().next().unwrap();
    assert_eq!(last.padding_value(), Some(0x00));
}
