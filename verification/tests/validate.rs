//! Validating catalogues and editor fields.

use serde_json::Value;
use wiretap::algorithms::{sum8_checksum, ALL_ALGORITHMS};
use wiretap::fields::{
    checksum_algorithm_ids, validate_checksum_fields, validate_frame_fields,
    validate_signal_fields, verify_frame_checksum, ChecksumInput, FrameInput, SignalInput,
};
use wiretap::model::{ChecksumParameters, FrameChecksum, ValidationError};
use wiretap::recover::RecoveredChecksum;
use wiretap::solve::{AdditiveOp, CrcParameters, SolveTarget};
use wiretap::specification::{ChecksumSpecification, CRC_CUSTOM, SUM8_NEGATED};
use wiretap::validate::validate;

fn parsed(json: &str) -> Value {
    serde_json::from_str(json).expect("valid JSON")
}

fn text(value: &Value, key: &str) -> String {
    value[key].as_str().expect("a text").to_string()
}

fn texts(value: &Value, key: &str) -> Vec<String> {
    value[key]
        .as_array()
        .map(|items| items.iter().map(|i| i.as_str().expect("a text").to_string()).collect())
        .unwrap_or_default()
}

fn signal(json: &str) -> SignalInput {
    let v = parsed(json);
    SignalInput {
        name: text(&v, "name"),
        start_bit: v["start_bit"].as_i64(),
        bit_length: v["bit_length"].as_i64(),
        endianness: None,
        min: None,
        max: None,
        format: v["format"].as_str().map(|s| s.to_string()),
        enum_is_map: None,
    }
}

fn checksum(json: &str) -> ChecksumInput {
    let v = parsed(json);
    ChecksumInput {
        name: text(&v, "name"),
        algorithm: text(&v, "algorithm"),
        start_byte: v["start_byte"].as_i64(),
        byte_length: v["byte_length"].as_i64(),
        endianness: None,
        calc_start_byte: v["calc_start_byte"].as_i64(),
        calc_end_byte: v["calc_end_byte"].as_i64(),
        frame_length: v["frame_length"].as_i64().expect("a length"),
    }
}

fn fields(errs: &[ValidationError]) -> Vec<&str> {
    errs.iter().map(|e| e.field.as_str()).collect()
}

#[test]
fn valid_catalogue_has_no_errors() {
    let toml = r#"
[meta]
name = "ok"
version = 1
[frame.can.0x123]
length = 8
[[frame.can.0x123.signals]]
name = "RPM"
start_bit = 0
bit_length = 16
"#;
    assert!(validate(toml).is_empty());
}

#[test]
fn missing_meta_and_name() {
    assert_eq!(
        fields(&validate("[frame.can.0x1]\nlength=8\n")),
        vec!["meta"]
    );
    let errs = validate("[meta]\nversion=1\n");
    assert_eq!(fields(&errs), vec!["meta.name"]);
}

#[test]
fn signal_rules() {
    let toml = r#"
[meta]
name = "x"
[frame.can.0x10]
length = 80
[[frame.can.0x10.signals]]
name = "Has Space"
start_bit = 0
bit_length = 100
[[frame.can.0x10.signals]]
name = "Has Space"
start_bit = 8
bit_length = 8
"#;
    let errs = validate(toml);
    let msgs: Vec<&str> = errs.iter().map(|e| e.message.as_str()).collect();
    assert!(errs.iter().any(|e| e.field == "frame.can.0x10.length"));
    assert!(msgs.iter().any(|m| m.contains("between 1 and 64")));
    assert!(msgs.iter().any(|m| m.contains("invalid characters")));
    assert!(msgs.iter().any(|m| m.contains("Duplicate signal name")));
}

#[test]
fn mux_requires_selector_fields() {
    let toml = r#"
[meta]
name = "x"
[frame.can.0x20]
length = 8
[frame.can.0x20.mux]
name = "sel"
"#;
    let errs = validate(toml);
    let msgs: Vec<&str> = errs.iter().map(|e| e.message.as_str()).collect();
    assert!(msgs.iter().any(|m| m.contains("must have start_bit")));
    assert!(msgs.iter().any(|m| m.contains("must have bit_length")));
}

#[test]
fn modbus_bad_register_reported() {
    let toml = r#"
[meta]
name = "x"
[frame.modbus.not_a_register]
register_type = "input"
length = 1
[[frame.modbus.not_a_register.signals]]
name = "A"
start_bit = 0
bit_length = 16
"#;
    let errs = validate(toml);
    assert_eq!(fields(&errs), vec!["frame.modbus.not_a_register"]);
}

#[test]
fn tunnel_rules() {
    let case = |body: &str| {
        let toml = format!(
            "[meta]\nname = \"x\"\n[frame.can.\"0x1E0\"]\nlength = 8\n[frame.can.\"0x1E0\".tunnel]\n{body}"
        );
        validate(&toml)
            .into_iter()
            .map(|e| e.field)
            .collect::<Vec<_>>()
    };

    assert!(case("protocol = \"modbus_rtu\"\ndevice_address = 1\n").is_empty());
    assert!(case("protocol = \"modbus_rtu\"\n").is_empty());
    assert_eq!(
        case("protocol = \"j1939_tp\"\n"),
        vec!["frame.can.0x1E0.tunnel.protocol"]
    );
    assert_eq!(
        case("device_address = 1\n"),
        vec!["frame.can.0x1E0.tunnel.protocol"]
    );
    assert_eq!(
        case("protocol = \"modbus_rtu\"\ndevice_address = 0\n"),
        vec!["frame.can.0x1E0.tunnel.device_address"]
    );
    assert_eq!(
        case("protocol = \"modbus_rtu\"\ndevice_address = 248\n"),
        vec!["frame.can.0x1E0.tunnel.device_address"]
    );
}

#[test]
fn toml_syntax_error_is_single_finding() {
    let errs = validate("not = valid = toml =");
    assert_eq!(errs.len(), 1);
    assert_eq!(errs[0].field, "toml");
}

#[test]
fn serial_frames_require_encoding() {
    let with_frames = r#"
[meta]
name = "x"
[frame.serial.heartbeat]
length = 4
"#;
    let errs = validate(with_frames);
    assert!(errs
        .iter()
        .any(|e| e.field == "frame.serial.config.encoding"));
    // Encoding present (in [meta.serial]) → no finding.
    let ok = r#"
[meta]
name = "x"
[meta.serial]
encoding = "slip"
[frame.serial.heartbeat]
length = 4
"#;
    assert!(!validate(ok)
        .iter()
        .any(|e| e.field == "frame.serial.config.encoding"));
}

fn frame(json: &str) -> Vec<ValidationError> {
    let v = parsed(json);
    validate_frame_fields(&FrameInput {
        protocol: text(&v, "protocol"),
        key: text(&v, "key"),
        transmitter: v["transmitter"].as_str().map(|s| s.to_string()),
        extended: v["extended"].as_bool(),
        node_address: v["nodeAddress"].as_i64(),
        existing_keys: texts(&v, "existingKeys"),
        original_key: v["originalKey"].as_str().map(|s| s.to_string()),
        available_peers: texts(&v, "availablePeers"),
        ..Default::default()
    })
}

#[test]
fn can_frame_id_format_range_and_uniqueness() {
    // Bad format.
    assert!(
        frame(r##"{ "protocol": "can", "key": "xyz" }"##)
            .iter()
            .any(|e| e.field == "id")
    );
    // Standard id out of range (extended explicitly false, as the generic
    // editor sends it).
    assert!(
        frame(r##"{ "protocol": "can", "key": "0x800", "extended": false }"##)
            .iter()
            .any(|e| e.message.contains("0x7FF"))
    );
    // Allowed up to 0x1FFFFFFF when extended.
    assert!(
        frame(r##"{ "protocol": "can", "key": "0x800", "extended": true }"##)
            .is_empty()
    );
    // Legacy path (no `extended`) infers from id width — not wrongly rejected.
    assert!(frame(r##"{ "protocol": "can", "key": "0x18FF50E5" }"##).is_empty());
    // Duplicate (not the original).
    assert!(frame(r##"{
        "protocol": "can", "key": "0x100",
        "existingKeys": ["0x100"], "originalKey": "0x200"
    }"##)
    .iter()
    .any(|e| e.message.contains("already exists")));
    // Valid, editing the same key.
    assert!(frame(r##"{
        "protocol": "can", "key": "0x100",
        "existingKeys": ["0x100"], "originalKey": "0x100"
    }"##)
    .is_empty());
}

#[test]
fn modbus_needs_register_and_bounds() {
    // Non-numeric name + no register_number.
    assert!(frame(r##"{
        "protocol": "modbus", "key": "ems_control"
    }"##)
    .iter()
    .any(|e| e.field == "register_number"));
    // Numeric key supplies the register → ok (no device address on the frame).
    assert!(frame(r##"{ "protocol": "modbus", "key": "2581" }"##).is_empty());
    // A valid slave address is accepted.
    assert!(frame(r##"{
        "protocol": "modbus", "key": "2581", "nodeAddress": 1
    }"##)
    .is_empty());
    // An out-of-range slave address is rejected.
    assert!(frame(r##"{
        "protocol": "modbus", "key": "2581", "nodeAddress": 300
    }"##)
    .iter()
    .any(|e| e.field == "node_address"));
}

#[test]
fn transmitter_must_be_known_peer() {
    let errs = frame(r##"{
        "protocol": "can", "key": "0x100",
        "transmitter": "Ghost", "availablePeers": ["ECU1", "ECU2"]
    }"##);
    assert!(errs.iter().any(|e| e.field == "transmitter"));
}

#[test]
fn signal_bounds() {
    let bad = signal(r##"{
        "name": "", "start_bit": -1, "bit_length": 0
    }"##);
    let errs = validate_signal_fields(&bad);
    assert!(errs.iter().any(|e| e.field == "signal.name"));
    assert!(errs.iter().any(|e| e.field == "signal.start_bit"));
    assert!(errs.iter().any(|e| e.field == "signal.bit_length"));
    // String format allows longer bit lengths.
    let ok = signal(r##"{
        "name": "vin", "start_bit": 0, "bit_length": 136, "format": "ascii"
    }"##);
    assert!(validate_signal_fields(&ok).is_empty());
}

#[test]
fn checksum_algorithm_and_range() {
    let bad = checksum(r##"{
        "name": "crc", "algorithm": "made_up", "start_byte": 7, "byte_length": 1,
        "calc_start_byte": 5, "calc_end_byte": 2, "frame_length": 8
    }"##);
    let errs = validate_checksum_fields(&bad);
    assert!(errs.iter().any(|e| e.field == "checksum.algorithm"));
    assert!(errs.iter().any(|e| e.field == "checksum.calc_range"));
    // Negative start byte resolves against frame length.
    let ok = checksum(r##"{
        "name": "crc", "algorithm": "sum8", "start_byte": -1, "byte_length": 1,
        "calc_start_byte": 0, "calc_end_byte": 7, "frame_length": 8
    }"##);
    assert!(validate_checksum_fields(&ok).is_empty());
}
/// A declaration, with only the fields a test actually varies.
fn declared(algorithm: &str, calc_start_byte: i32) -> FrameChecksum {
    FrameChecksum {
        name: None,
        algorithm: algorithm.into(),
        start_byte: -1,
        byte_length: 1,
        endianness: None,
        calc_start_byte,
        calc_end_byte: Some(-1),
        parameters: ChecksumParameters {
            polynomial: None,
            init: None,
            xor_out: None,
            reflect_in: None,
            reflect_out: None,
            offset: None,
        },
        notes: Vec::new(),
    }
}

/// Frames whose last byte is `sum8` over `body[from..]`.
fn summed(count: u8, from: usize) -> Vec<Vec<u8>> {
    (0..count)
        .map(|i| {
            let mut f = vec![0x10, i, i.wrapping_mul(7)];
            f.push(sum8_checksum(&f[from..]));
            f
        })
        .collect()
}

/// The payoff of the dependency: a declaration is checked by the engine that
/// discovers checksums, not by a second implementation that can disagree.
#[test]
fn a_declared_checksum_is_verified_against_real_frames() {
    let frames = summed(20, 1);
    let holds = verify_frame_checksum(&declared("sum8", 1), &frames).unwrap();

    assert!(holds.holds(), "{holds:?}");
    assert_eq!(holds.total, 20);
    // The same declaration over the wrong range must not.
    assert!(!verify_frame_checksum(&declared("sum8", 0), &frames)
        .unwrap()
        .holds());
}

/// Frames too short to carry the checksum are not evidence against it, such as
/// bare acknowledgements.
#[test]
fn frames_too_short_are_excluded_rather_than_counted_as_failures() {
    let mut frames = summed(10, 0);
    frames.push(vec![0xF8]);

    let result = verify_frame_checksum(&declared("sum8", 0), &frames).unwrap();
    assert_eq!(result.total, 10, "the acknowledgement was counted");
    assert!(result.holds());
}

/// The case a verifier reading only the algorithm id gets *wrong*, rather
/// than declining: a sum with a constant offset is stored as `sum8`, so
/// reproducing it from the id alone yields a different byte and calls a
/// correct declaration completely broken.
#[test]
fn a_sum_with_an_offset_is_verified_by_its_parameters_not_its_id() {
    let frames: Vec<Vec<u8>> = (0..20u8)
        .map(|i| {
            let mut f = vec![0x10, i, i.wrapping_mul(7)];
            f.push(sum8_checksum(&f).wrapping_add(0xA5));
            f
        })
        .collect();

    let solved = RecoveredChecksum {
        target: SolveTarget {
            position: -1,
            byte_length: 1,
            big_endian: true,
            calc_start_byte: 0,
            calc_end_byte: -1,
        },
        specification: ChecksumSpecification::Additive {
            op: AdditiveOp::Sum,
            offset: 0xA5,
        },
        sample_count: 20,
        excluded_count: 0,
        equivalent_ranges: Vec::new(),
    };

    let declared = FrameChecksum::from_solved(Some("cs".into()), &solved);
    assert_eq!(declared.algorithm, "sum8", "stored under the named id");
    assert_eq!(declared.parameters.offset, Some(0xA5));

    let result = verify_frame_checksum(&declared, &frames).unwrap();
    assert!(
        result.holds(),
        "correct declaration reported broken: {result:?}"
    );
}

/// The conversion has to survive both directions, or a saved answer is not
/// the answer that was found.
#[test]
fn a_solved_configuration_round_trips_through_the_catalogue_shape() {
    let specifications = [
        ChecksumSpecification::Additive {
            op: AdditiveOp::NegatedSum,
            offset: 0x11,
        },
        ChecksumSpecification::Crc(CrcParameters {
            width: 8,
            polynomial: 0x4D,
            reflect_in: true,
            reflect_out: false,
            init: 0,
            xor_out: 0xB7,
            well_known: false,
            alternatives: Vec::new(),
        }),
    ];

    for specification in specifications {
        let solved = RecoveredChecksum {
            target: SolveTarget {
                position: -1,
                byte_length: 1,
                big_endian: true,
                calc_start_byte: 1,
                calc_end_byte: -1,
            },
            specification: specification.clone(),
            sample_count: 20,
            excluded_count: 0,
            equivalent_ranges: Vec::new(),
        };
        let declared = FrameChecksum::from_solved(None, &solved);
        assert_eq!(
            declared.specification(),
            Some(specification.clone()),
            "{} did not round trip",
            declared.algorithm
        );
        assert_eq!(declared.start_byte, -1);
        assert_eq!(declared.calc_start_byte, 1);
    }
}

/// A solved CRC names no algorithm the sweep knows, so this declines rather
/// than reporting a failure it did not measure.
#[test]
fn a_custom_polynomial_is_declined_not_failed() {
    let incoherent = declared(CRC_CUSTOM, 0);
    assert!(verify_frame_checksum(&incoherent, &[vec![1, 2, 3]]).is_none());
}

/// The list is the engine's, not a transcription of it.
#[test]
fn every_named_algorithm_is_accepted_by_the_validator() {
    let ids = checksum_algorithm_ids();
    for algorithm in ALL_ALGORITHMS {
        assert!(ids.iter().any(|id| id == algorithm.as_str()), "{algorithm:?} rejected");
    }
    for id in [CRC_CUSTOM, SUM8_NEGATED] {
        assert!(ids.iter().any(|known| known == id), "{id} rejected");
    }
}
