//! Decoding frames against a catalogue.

use wiretap::bits::{format_unix_time, DecimalValue};
use wiretap::decode::{decode_by_id, decode_frame, Decoded, FrameDecode};
use wiretap::header::mask_to_byte_position;
use wiretap::model::{Catalog, Frame};
use wiretap::mux::{find_matching_mux_case, mux_case_matches};

fn decode_whole(catalog: &Catalog, frame: &Frame, bytes: &[u8]) -> FrameDecode {
    decode_frame(catalog, frame, bytes).expect("in range")
}

fn as_float(value: DecimalValue) -> f64 {
    value.mantissa as f64 / 10f64.powi(value.scale as i32)
}

fn parse(toml: &str) -> Catalog {
    Catalog::parse(toml).unwrap()
}

fn decoded<'a>(d: &'a FrameDecode, name: &str) -> &'a Decoded {
    d.signals
        .iter()
        .find(|s| s.name == name)
        .unwrap_or_else(|| panic!("decoded {name}"))
}

#[test]
fn can_signal_scales_and_picks_default_endianness() {
    let c = parse(
        r#"
[meta]
name = "x"
[meta.can]
default_byte_order = "big"
[frame.can.0x100]
length = 8
[[frame.can.0x100.signals]]
name = "RPM"
start_bit = 0
bit_length = 16
factor = 0.25
unit = "rpm"
"#,
    );
    let f = c.frame(0x100).unwrap();
    // 0x0190 = 400 ×0.25 = 100 rpm (big-endian).
    let d = decode_whole(&c, f, &[0x01, 0x90, 0, 0, 0, 0, 0, 0]);
    let rpm = decoded(&d, "RPM");
    assert!((as_float(rpm.scaled) - 100.0).abs() < 1e-9);
    assert_eq!(rpm.display, "100");
    assert_eq!(rpm.unit.as_deref(), Some("rpm"));
}

#[test]
fn float_scale_display_is_clean() {
    let c = parse(
        r#"
[meta]
name = "x"
[meta.can]
default_byte_order = "big"
[frame.can.0x101]
length = 8
[[frame.can.0x101.signals]]
name = "SoC"
start_bit = 0
bit_length = 16
factor = 0.1
unit = "%"
"#,
    );
    let f = c.frame(0x101).unwrap();
    // 555 ×0.1 = 55.5 — must not render 55.50000000000001.
    let d = decode_whole(&c, f, &[0x02, 0x2B, 0, 0, 0, 0, 0, 0]);
    assert_eq!(decoded(&d, "SoC").display, "55.5");
}

#[test]
fn enum_hex_text_formats() {
    let c = parse(
        r#"
[meta]
name = "x"
[meta.can]
default_byte_order = "big"
[frame.can.0x102]
length = 8
[[frame.can.0x102.signals]]
name = "Mode"
start_bit = 0
bit_length = 8
format = "enum"
enum = { 1 = "run", 2 = "stop" }
[[frame.can.0x102.signals]]
name = "Raw"
start_bit = 8
bit_length = 16
format = "hex"
[[frame.can.0x102.signals]]
name = "Tag"
start_bit = 24
bit_length = 24
format = "ascii"
"#,
    );
    let f = c.frame(0x102).unwrap();
    let bytes = [0x02, 0xAB, 0xCD, b'A', b'B', b'C', 0, 0];
    let d = decode_whole(&c, f, &bytes);
    assert_eq!(decoded(&d, "Mode").display, "stop");
    assert_eq!(decoded(&d, "Raw").display, "AB CD");
    assert_eq!(decoded(&d, "Tag").display, "ABC");
}

#[test]
fn unknown_enum_value_labelled() {
    let c = parse(
        r#"
[meta]
name = "x"
[meta.can]
default_byte_order = "big"
[frame.can.0x103]
length = 8
[[frame.can.0x103.signals]]
name = "M"
start_bit = 0
bit_length = 8
format = "enum"
enum = { 1 = "a" }
"#,
    );
    let f = c.frame(0x103).unwrap();
    let d = decode_whole(&c, f, &[9, 0, 0, 0, 0, 0, 0, 0]);
    assert_eq!(decoded(&d, "M").display, "Unknown (9)");
}

#[test]
fn mux_selects_case_and_decodes_nested() {
    let c = parse(
        r#"
[meta]
name = "x"
[meta.can]
default_byte_order = "big"
[frame.can.0x200]
length = 8
[frame.can.0x200.mux]
name = "sel"
start_bit = 0
bit_length = 8
[[frame.can.0x200.mux."0-3".signals]]
name = "low"
start_bit = 8
bit_length = 8
[[frame.can.0x200.mux."4,5".signals]]
name = "mid"
start_bit = 8
bit_length = 8
"#,
    );
    let f = c.frame(0x200).unwrap();
    // selector = 2 → matches "0-3".
    let d = decode_whole(&c, f, &[2, 0x37, 0, 0, 0, 0, 0, 0]);
    assert_eq!(d.selectors[0].value, 2);
    assert_eq!(d.selectors[0].matched_case.as_deref(), Some("0-3"));
    assert_eq!(decoded(&d, "low").value, 0x37);
    // Mux-case signals are tagged with their selector value.
    assert_eq!(decoded(&d, "low").mux_value, Some(2));
    // selector = 5 → matches "4,5", not "0-3".
    let d2 = decode_whole(&c, f, &[5, 0x42, 0, 0, 0, 0, 0, 0]);
    assert_eq!(d2.selectors[0].matched_case.as_deref(), Some("4,5"));
    assert!(d2.signals.iter().any(|s| s.name == "mid"));
}

#[test]
fn modbus_word_swapped_signed_32bit_matches_modbus_module() {
    // Parity with modbus::decode_frame for the Sungrow word-swap case.
    let c = parse(
        r#"
[meta]
name = "x"
[meta.modbus]
register_base = 0
default_byte_order = "big"
default_word_order = "little"
[frame.modbus.13007]
register_type = "input"
length = 2
[[frame.modbus.13007.signals]]
name = "Battery_Power"
start_bit = 0
bit_length = 32
signed = true
unit = "W"
"#,
    );
    let f = c.frame(13007).unwrap();
    // -1000 W: registers [low=0xFC18, high=0xFFFF] → bytes FC 18 FF FF.
    let d = decode_whole(&c, f, &[0xFC, 0x18, 0xFF, 0xFF]);
    assert!((as_float(decoded(&d, "Battery_Power").scaled) - -1000.0).abs() < 1e-9);
}

#[test]
fn unix_time_formats_utc() {
    // 2021-01-01 00:00:00 UTC = 1609459200.
    assert_eq!(format_unix_time(1_609_459_200), "2021-01-01 00:00:00");
    // millisecond input auto-detected.
    assert_eq!(format_unix_time(1_609_459_200_000), "2021-01-01 00:00:00");
}

#[test]
fn can_header_fields_and_frame_id_mask() {
    // J1939-style: catalogue keyed by PGN (id & mask); source address is the
    // low byte, extracted from the raw id.
    let c = parse(
        r#"
[meta]
name = "x"
[meta.can]
frame_id_mask = 0x1FFFFF00
[meta.can.fields]
pgn = { mask = 0x1FFFFF00, format = "hex" }
source_address = { mask = 0x000000FF, format = "decimal" }
[frame.can.0x18EF0000]
length = 8
[[frame.can.0x18EF0000.signals]]
name = "A"
start_bit = 0
bit_length = 8
"#,
    );
    // Raw id has source 0x42 in the low byte; masked id matches the frame.
    let d = decode_by_id(&c, 0x18EF0042, &[0x05, 0, 0, 0, 0, 0, 0, 0]).expect("decodes");
    assert_eq!(d.source_address, Some(0x42));
    let sa = d
        .header_fields
        .iter()
        .find(|h| h.name == "source_address")
        .unwrap();
    assert_eq!(sa.value, 0x42);
    assert_eq!(sa.display, "66"); // decimal format
    let pgn = d.header_fields.iter().find(|h| h.name == "pgn").unwrap();
    assert_eq!(pgn.value, 0x18EF00); // (raw & mask) >> 8
    assert_eq!(decoded(&d, "A").value, 5);
    // Unmasked lookup would miss; decode_by_id applies the mask.
    assert!(c.frame(0x18EF0042).is_none());
}

#[test]
fn serial_header_fields_from_bytes() {
    let c = parse(
        r#"
[meta]
name = "x"
[meta.serial]
[meta.serial.fields]
length = { mask = 0x0000FF00, format = "decimal" }
[frame.serial.0x10]
length = 4
[[frame.serial.0x10.signals]]
name = "V"
start_bit = 16
bit_length = 8
"#,
    );
    // bytes: [id=0x10, length=0x07, payload...]; the length field is byte 1.
    let d = decode_by_id(&c, 0x10, &[0x10, 0x07, 0xAB, 0x00]).expect("decodes");
    let len = d.header_fields.iter().find(|h| h.name == "length").unwrap();
    assert_eq!(len.value, 0x07);
    assert_eq!(len.display, "7");
    assert_eq!(decoded(&d, "V").value, 0xAB);
}

#[test]
fn mask_to_byte_position_spans() {
    assert_eq!(mask_to_byte_position(0x000000FF), Some((0, 1)));
    assert_eq!(mask_to_byte_position(0x0000FF00), Some((1, 1)));
    assert_eq!(mask_to_byte_position(0x0000FFFF), Some((0, 2)));
    assert_eq!(mask_to_byte_position(0), None);
}

#[test]
fn mux_range_matching() {
    assert!(mux_case_matches(3, "0-3"));
    assert!(!mux_case_matches(4, "0-3"));
    assert!(mux_case_matches(5, "1,2,5"));
    assert!(mux_case_matches(11, "0-3,7,10-12"));
    assert_eq!(find_matching_mux_case(7, &["0-3", "7", "8"]), Some("7"));
}

#[test]
fn a_selector_without_a_case_takes_the_default() {
    let c = parse(
        r#"
[meta]
name = "x"
[frame.can.0x200]
length = 2
[frame.can.0x200.mux]
name = "sel"
start_bit = 0
bit_length = 8
default = "1"
[[frame.can.0x200.mux."0".signals]]
name = "zero"
start_bit = 8
bit_length = 8
[[frame.can.0x200.mux."1".signals]]
name = "one"
start_bit = 8
bit_length = 8
"#,
    );
    let f = c.frame(0x200).unwrap();
    let d = decode_whole(&c, f, &[9, 0x37]);
    assert_eq!(d.selectors[0].value, 9);
    assert_eq!(decoded(&d, "one").value, 55);
    // A case that matches wins over the default.
    let d = decode_whole(&c, f, &[0, 0x37]);
    assert_eq!(decoded(&d, "zero").value, 55);
    assert!(d.signals.iter().all(|s| s.name != "one"));
}

#[test]
fn a_range_takes_no_plus_sign() {
    assert!(!mux_case_matches(3, "0-+5"));
    assert!(mux_case_matches(3, "0-5"));
}
