//! Choosing which frames to solve against.

use wiretap::sampling::{deduplicate, diverse_samples, hamming_distance, strided_samples};

#[test]
fn test_deduplicate_keeps_first_occurrence_order() {
    let frames = vec![vec![1, 2], vec![3, 4], vec![1, 2], vec![5, 6]];
    assert_eq!(
        deduplicate(&frames),
        vec![vec![1, 2], vec![3, 4], vec![5, 6]]
    );
}

#[test]
fn test_deduplicate_drops_empty_frames() {
    assert_eq!(deduplicate(&[vec![], vec![1]]), vec![vec![1]]);
}

/// The case this exists for: a periodic link where the first hundred frames
/// are two payloads alternating.
#[test]
fn test_diverse_samples_collapses_a_repeating_link() {
    let frames: Vec<Vec<u8>> = [vec![0xAAu8, 0x01], vec![0x55, 0x02]]
        .into_iter()
        .cycle()
        .take(500)
        .collect();

    assert_eq!(diverse_samples(&frames, 200).len(), 2);
}

#[test]
fn test_diverse_samples_returns_everything_under_the_limit() {
    let frames: Vec<Vec<u8>> = (0..10u8).map(|i| vec![i, i]).collect();
    assert_eq!(diverse_samples(&frames, 200).len(), 10);
}

/// Greedy farthest-point should reach for the opposite corners first, not
/// simply take the first `limit` entries.
#[test]
fn test_diverse_samples_prefers_distant_payloads() {
    let mut frames: Vec<Vec<u8>> = (0..64u8).map(|i| vec![i, 0x00]).collect();
    frames.push(vec![0xFF, 0xFF]);

    let chosen = diverse_samples(&frames, 3);
    assert_eq!(chosen.len(), 3);
    assert_eq!(chosen[0], vec![0x00, 0x00]);
    assert!(
        chosen.contains(&vec![0xFF, 0xFF]),
        "the outlier is the most informative sample and was dropped: {chosen:?}"
    );
}

#[test]
fn test_diverse_samples_honours_the_limit_on_a_large_pool() {
    let frames: Vec<Vec<u8>> = (0..5000u32).map(|i| i.to_le_bytes().to_vec()).collect();

    assert_eq!(diverse_samples(&frames, 50).len(), 50);
}

/// The failure the strided policy exists to prevent: a prefix would describe
/// the first seconds of a capture and call it the whole thing.
#[test]
fn test_strided_samples_span_the_whole_set_rather_than_its_start() {
    let frames: Vec<Vec<u8>> = (0..1000u32).map(|i| i.to_le_bytes().to_vec()).collect();
    let chosen = strided_samples(&frames, 200);

    assert_eq!(chosen.len(), 200);
    assert_eq!(chosen[0], 0u32.to_le_bytes().to_vec());
    // The last pick sits near the end, not at index 199.
    let last = u32::from_le_bytes(chosen.last().unwrap()[..].try_into().unwrap());
    assert!(last > 900, "sample stopped at {last}");
}

/// Repeats are kept deliberately — they are the evidence a constant column
/// is padding rather than a thin sample.
#[test]
fn test_strided_samples_keep_repeats() {
    let frames: Vec<Vec<u8>> = std::iter::repeat_n(vec![0u8; 8], 40).collect();
    assert_eq!(strided_samples(&frames, 200).len(), 40);
}

#[test]
fn test_strided_samples_drop_empty_frames() {
    assert_eq!(strided_samples(&[vec![], vec![1]], 200), vec![vec![1]]);
}

#[test]
fn test_hamming_distance_counts_length_as_difference() {
    assert_eq!(hamming_distance(&[0x00], &[0xFF]), 8);
    assert_eq!(hamming_distance(&[0x00], &[0x00, 0x00]), 8);
    assert_eq!(hamming_distance(&[0x0F], &[0x0F]), 0);
}
