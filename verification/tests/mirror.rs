//! Comparing mirrored frames with their sources.

use wiretap::mirror::{inherited_byte_indices, MirrorTracker, MirrorVerdict, MISMATCH_LATCH};
use wiretap::model::Catalog;

/// A mirror pair where the mirror overrides byte 1, as `sbrxxx.toml`'s
/// `0x005` does for the SBR end-stop flag.
const OVERRIDE_TOML: &str = r#"
[meta]
name = "t"
[meta.can]
default_interval = 100

[frame.can."0x705"]
length = 8

[[frame.can."0x705".signals]]
name = "op"
start_bit = 0
bit_length = 8

[[frame.can."0x705".signals]]
name = "end_stop"
start_bit = 8
bit_length = 8

[[frame.can."0x705".signals]]
name = "rest"
start_bit = 16
bit_length = 48

[frame.can."0x005"]
length = 8
mirror_of = "0x705"

[[frame.can."0x005".signals]]
name = "local_end_stop"
start_bit = 8
bit_length = 8
"#;

fn parse(toml: &str) -> Catalog {
    Catalog::parse(toml).expect("catalogue parses")
}

#[test]
fn inherited_bytes_exclude_a_positional_override() {
    let cat = parse(OVERRIDE_TOML);

    let mirror = cat.frame(0x005).unwrap();
    // Byte 1 is the mirror's own signal, so it is not compared; bytes 0 and
    // 2..=7 are inherited.
    assert_eq!(
        inherited_byte_indices(mirror),
        vec![0, 2, 3, 4, 5, 6, 7]
    );

    // The source frame owns all of its signals, so nothing is inherited.
    assert!(inherited_byte_indices(cat.frame(0x705).unwrap()).is_empty());
}

#[test]
fn an_overridden_byte_never_invalidates_the_mirror() {
    let cat = parse(OVERRIDE_TOML);
    let mut tracker = MirrorTracker::new(&cat);

    // Byte 1 differs on every sample; every other byte agrees.
    for i in 0..10i64 {
        let t = i * 100_000;
        tracker.observe(0x705, &[2, 0, 1, 2, 3, 4, 5, 6], t);
        tracker.observe(0x005, &[2, 1, 1, 2, 3, 4, 5, 6], t + 10_000);
    }

    let v = verdict(&tracker, 0x005).unwrap();
    assert_eq!(v.is_valid, Some(true));
    assert!(v.mismatched_byte_indices.is_empty());
    assert_eq!(v.source_frame_id, 0x705);
}

#[test]
fn an_inherited_byte_latches_invalid_after_three_comparisons() {
    let cat = parse(OVERRIDE_TOML);
    let mut tracker = MirrorTracker::new(&cat);

    tracker.observe(0x705, &[2, 0, 1, 0, 0, 0, 0, 0], 0);

    // Byte 2 is inherited, so each differing sample counts towards the latch.
    for i in 1..=2i64 {
        tracker.observe(0x005, &[2, 0, 9, 0, 0, 0, 0, 0], i * 10_000);
        let v = verdict(&tracker, 0x005).unwrap();
        assert_eq!(v.is_valid, None, "must not latch before {MISMATCH_LATCH}");
        assert_eq!(v.mismatched_byte_indices, vec![2]);
    }

    tracker.observe(0x005, &[2, 0, 9, 0, 0, 0, 0, 0], 30000);
    assert_eq!(verdict(&tracker, 0x005).unwrap().is_valid, Some(false));

    // One agreeing comparison clears it again.
    tracker.observe(0x005, &[2, 0, 1, 0, 0, 0, 0, 0], 40000);
    let v = verdict(&tracker, 0x005).unwrap();
    assert_eq!(v.is_valid, Some(true));
    assert!(v.mismatched_byte_indices.is_empty());
}

#[test]
fn samples_too_far_apart_are_not_compared() {
    let cat = parse(OVERRIDE_TOML);
    let mut tracker = MirrorTracker::new(&cat);

    // Window is the source's interval (100 ms, from [meta.can]) doubled.
    tracker.observe(0x705, &[0, 0, 0, 0, 0, 0, 0, 0], 0);
    tracker.observe(0x005, &[9, 9, 9, 9, 9, 9, 9, 9], 500000);

    let v = verdict(&tracker, 0x005).unwrap();
    assert_eq!(v.is_valid, None, "no comparison outside the window");
    assert_eq!(v.time_delta_us, 500_000, "the gap is still reported");
}

/// A 16-bit override spanning two bytes, as `sbrxxx.toml`'s `0x504` does for
/// the sign-inverted battery current.
#[test]
fn a_multi_byte_override_excludes_its_whole_span() {
    let cat = parse(
        r#"
[meta]
name = "t"

[frame.can."0x704"]
length = 8

[[frame.can."0x704".signals]]
name = "voltage"
start_bit = 0
bit_length = 16

[[frame.can."0x704".signals]]
name = "current"
start_bit = 16
bit_length = 16

[[frame.can."0x704".signals]]
name = "temperature"
start_bit = 32
bit_length = 32

[frame.can."0x504"]
length = 8
mirror_of = "0x704"

[[frame.can."0x504".signals]]
name = "current_inverted"
start_bit = 16
bit_length = 16
"#,
    );

    assert_eq!(
        inherited_byte_indices(cat.frame(0x504).unwrap()),
        vec![0, 1, 4, 5, 6, 7],
        "bytes 2-3 carry the override and are excluded"
    );

    let mut tracker = MirrorTracker::new(&cat);
    // Same voltage and temperature, negated current.
    tracker.observe(0x704, &[1, 2, 0xEC, 0xFF, 5, 6, 7, 8], 0);
    tracker.observe(0x504, &[1, 2, 0x14, 0x00, 5, 6, 7, 8], 10000);
    assert_eq!(verdict(&tracker, 0x504).unwrap().is_valid, Some(true));
}

/// `sbrxxx.toml`'s `0x008`/`0x00a` mirror mux-only frames, so nothing is
/// flagged inherited and there is no byte to compare. Reporting a match
/// there would be a green tick for a check that never ran.
#[test]
fn a_mirror_of_a_mux_only_frame_is_not_tracked() {
    let cat = parse(
        r#"
[meta]
name = "t"

[frame.can."0x708"]
length = 8

[frame.can."0x708".mux]
name = "sel"
start_bit = 0
bit_length = 8

[[frame.can."0x708".mux."0".signals]]
name = "sn"
start_bit = 8
bit_length = 56

[frame.can."0x008"]
length = 8
mirror_of = "0x708"
"#,
    );

    assert!(inherited_byte_indices(cat.frame(0x008).unwrap()).is_empty());

    let mut tracker = MirrorTracker::new(&cat);
    assert!(tracker.is_empty(), "nothing comparable, so nothing tracked");

    tracker.observe(0x708, &[0, 1, 2, 3, 4, 5, 6, 7], 0);
    tracker.observe(0x008, &[9, 9, 9, 9, 9, 9, 9, 9], 10000);
    assert!(
        verdict(&tracker, 0x008).is_none(),
        "no verdict beats a vacuous match"
    );
}

/// Real `0x005`/`0x705` traffic from a Sungrow SBR224 (WT Bendigo,
/// 2026-07-31 05:00Z, a window where the pack sat at 100 % SoC). Byte 1 is
/// the end-stop flag: `01` on the `0x0NN` copy, `00` on `0x7NN`. Byte 5
/// drifts as the pack voltage moves, but both copies agree at each instant.
/// Frames arrive `0x005` first, `0x705` ~16 ms behind.
const REAL_PAIRS: &[(bool, i64, [u8; 8])] = &[
    (
        true,
        0,
        [0x02, 0x01, 0x01, 0xeb, 0x20, 0x0d, 0x13, 0x00],
    ),
    (
        false,
        16000,
        [0x02, 0x00, 0x01, 0xeb, 0x20, 0x0d, 0x13, 0x00],
    ),
    (
        true,
        1000000,
        [0x02, 0x01, 0x01, 0xeb, 0x20, 0x0c, 0x13, 0x00],
    ),
    (
        false,
        1015000,
        [0x02, 0x00, 0x01, 0xeb, 0x20, 0x0c, 0x13, 0x00],
    ),
    (
        true,
        2029000,
        [0x02, 0x01, 0x01, 0xeb, 0x20, 0x0c, 0x13, 0x00],
    ),
    (
        false,
        2053000,
        [0x02, 0x00, 0x01, 0xeb, 0x20, 0x0c, 0x13, 0x00],
    ),
    (
        true,
        3018000,
        [0x02, 0x01, 0x01, 0xeb, 0x20, 0x0b, 0x13, 0x00],
    ),
    (
        false,
        3031000,
        [0x02, 0x00, 0x01, 0xeb, 0x20, 0x0b, 0x13, 0x00],
    ),
    (
        true,
        4018000,
        [0x02, 0x01, 0x01, 0xeb, 0x20, 0x0b, 0x13, 0x00],
    ),
    (
        false,
        4032000,
        [0x02, 0x00, 0x01, 0xeb, 0x20, 0x0b, 0x13, 0x00],
    ),
];

fn sbr_catalogue(with_override: bool) -> Catalog {
    let mut toml = String::from(
        r#"
[meta]
name = "sbr"

[frame.can."0x705"]
length = 8

[[frame.can."0x705".signals]]
name = "Info_Battery_Operation"
start_bit = 0
bit_length = 8

[[frame.can."0x705".signals]]
name = "705_End_Stop"
start_bit = 8
bit_length = 8

[[frame.can."0x705".signals]]
name = "705_Always_1"
start_bit = 16
bit_length = 8

[[frame.can."0x705".signals]]
name = "Info_Battery_Type"
start_bit = 24
bit_length = 16

[[frame.can."0x705".signals]]
name = "Status_Battery_Voltage_Alt_705"
start_bit = 40
bit_length = 16

[[frame.can."0x705".signals]]
name = "705_Padding"
start_bit = 56
bit_length = 8

[frame.can."0x005"]
length = 8
mirror_of = "0x705"
"#,
    );
    if with_override {
        toml.push_str(
            r#"
[[frame.can."0x005".signals]]
name = "Status_Battery_End_Stop"
start_bit = 8
bit_length = 8
"#,
        );
    }
    parse(&toml)
}

fn run_real_pairs(cat: &Catalog) -> MirrorVerdict {
    let mut tracker = MirrorTracker::new(cat);
    for (is_mirror, t, bytes) in REAL_PAIRS {
        tracker.observe(if *is_mirror { 0x005 } else { 0x705 }, bytes, *t);
    }
    verdict(&tracker, 0x005).expect("0x005 is a tracked mirror")
}

/// On real SBR traffic the `0x005` copy carries a live end-stop flag in a byte its source holds at zero.
/// Declaring it locally is what tells the comparison to leave that byte
/// alone — without it the frame reads as a fault.
#[test]
fn real_sbr_traffic_matches_only_because_byte_1_is_overridden() {
    let with = run_real_pairs(&sbr_catalogue(true));
    assert_eq!(with.is_valid, Some(true), "the override must hold Match");
    assert!(with.mismatched_byte_indices.is_empty());

    let without = run_real_pairs(&sbr_catalogue(false));
    assert_eq!(
        without.is_valid,
        Some(false),
        "without the override the same bytes must latch Mismatch"
    );
    assert_eq!(without.mismatched_byte_indices, vec![1]);
}

#[test]
fn a_frame_that_is_not_a_mirror_has_no_verdict() {
    let cat = parse(OVERRIDE_TOML);
    let tracker = MirrorTracker::new(&cat);
    assert!(verdict(&tracker, 0x705).is_none());
    assert!(verdict(&tracker, 0x123).is_none());
}

#[test]
fn a_catalogue_without_mirrors_yields_an_empty_tracker() {
    let cat = parse(
        r#"
[meta]
name = "t"
[frame.can."0x100"]
length = 8
"#,
    );
    assert!(MirrorTracker::new(&cat).is_empty());
}

#[test]
fn ids_are_masked_before_lookup() {
    let cat = parse(&OVERRIDE_TOML.replace(
        "default_interval = 100",
        "default_interval = 100\nframe_id_mask = 0xFFF",
    ));
    let mut tracker = MirrorTracker::new(&cat);

    // The high bits are outside the mask, so these are 0x705 and 0x005.
    tracker.observe(0x1F000705, &[2, 0, 1, 2, 3, 4, 5, 6], 0);
    tracker.observe(0x1F000005, &[2, 0, 1, 2, 3, 4, 5, 6], 10000);

    assert_eq!(verdict(&tracker, 0x1F000005).unwrap().is_valid, Some(true));
}

/// Test helper: the verdict for one frame id, or `None` if it is not a
/// tracked mirror.
fn verdict(tracker: &MirrorTracker, raw_frame_id: u32) -> Option<MirrorVerdict> {
    let id = tracker.mask_id(raw_frame_id);
    tracker
        .verdicts()
        .into_iter()
        .find(|(k, _)| *k == id)
        .map(|(_, v)| v)
}

#[test]
fn a_verdict_follows_its_newest_samples() {
    let cat = parse(OVERRIDE_TOML);
    let mut tracker = MirrorTracker::new(&cat);
    let source = [2, 0, 1, 2, 3, 4, 5, 6];
    let wrong = [3, 0, 1, 2, 3, 4, 5, 9];
    tracker.observe(0x005, &source, 0);
    assert_eq!(verdict(&tracker, 0x005).unwrap().is_valid, None);
    tracker.observe(0x705, &source, 10_000);
    let v = verdict(&tracker, 0x005).unwrap();
    assert_eq!((v.is_valid, v.time_delta_us), (Some(true), 10_000));
    // Two mismatches leave the verdict, and say where the samples differ.
    tracker.observe(0x005, &wrong, 20_000);
    tracker.observe(0x005, &wrong, 30_000);
    let v = verdict(&tracker, 0x005).unwrap();
    assert_eq!((v.is_valid, v.time_delta_us), (Some(true), 20_000));
    assert_eq!(v.mismatched_byte_indices, vec![0, 7]);
    // Samples further apart than twice the interval change only the gap.
    tracker.observe(0x005, &source, 210_001);
    let v = verdict(&tracker, 0x005).unwrap();
    assert_eq!((v.is_valid, v.time_delta_us), (Some(true), 200_001));
    assert_eq!(v.mismatched_byte_indices, vec![0, 7]);
    // They break no row either: the next mismatch is the third.
    tracker.observe(0x005, &wrong, 210_000);
    assert_eq!(verdict(&tracker, 0x005).unwrap().is_valid, Some(false));
    tracker.observe(0x005, &source, 210_000);
    assert_eq!(verdict(&tracker, 0x005).unwrap().is_valid, Some(true));
}
