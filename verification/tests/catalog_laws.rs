//! What holds of catalogues and their edits as a whole, on concrete values.

use wiretap::bits::{
    apply_word_swap, civil_from_unix, extract_bits, format_decimal, format_unix_seconds,
    DecimalValue,
};
use wiretap::catalog::slave_node_name;
use wiretap::decode::{decode_by_id, decode_frame, frame_id_mask, masked_frame_id};
use wiretap::edit::{apply_edit, EditOp};
use wiretap::fields::{
    validate_checksum_fields, validate_frame_fields, validate_meta_fields, validate_signal_fields,
    ChecksumInput, FrameInput, MetaInput, SignalInput,
};
use wiretap::json::{JsonFloat, JsonValue};
use wiretap::manifest::{parse_register_key, set_frame_disabled, ManifestError, ModbusManifest};
use wiretap::migrate::migrate;
use wiretap::mirror::MirrorTracker;
use wiretap::model::{Catalog, Endianness, RegisterType, SignalFormat};
use wiretap::mux::{mux_case_matches, parse_mux_case_values};
use wiretap::number::{equals_nearest, is_greater, is_same_float};
use wiretap::order::{is_key_after, strip_quotes};
use wiretap::parse::parse_id;
use wiretap::validate::validate;
use wiretap::value::Number;
use wiretap::version::{bump_meta_version, raise_version, MetaLayout, VersionField};
use wiretap::writes::{
    encode_raw, encode_signal, group_contiguous, merge_register_writes, EncodeError, ModbusWrite,
};

fn path(keys: &[&str]) -> Vec<String> {
    keys.iter().map(|k| k.to_string()).collect()
}

fn object(entries: Vec<(&str, JsonValue)>) -> Vec<(String, JsonValue)> {
    entries.into_iter().map(|(k, v)| (k.to_string(), v)).collect()
}

fn set(keys: &[&str], value: Vec<(&str, JsonValue)>) -> EditOp {
    EditOp::SetTable {
        path: path(keys),
        value: object(value),
        managed_keys: Vec::new(),
        replace_contents: false,
        sort_parent_numeric: false,
        skip_if_exists: false,
        error_if_exists: false,
    }
}

fn delete(keys: &[&str], sort: bool) -> EditOp {
    EditOp::DeleteAtPath {
        path: path(keys),
        sort_parent_numeric: sort,
    }
}

fn float(value: f64) -> Number {
    Number::Float {
        bits: value.to_bits(),
        decimal: DecimalValue {
            mantissa: 0,
            scale: 0,
        },
    }
}

// ---- Bits -----------------------------------------------------------------

#[test]
fn fields_fit_their_width() {
    let bytes = [0xFFu8, 0xA5, 0x3C, 0x81];
    for length in 1..=32 {
        for endian in [Endianness::Big, Endianness::Little] {
            let plain = extract_bits(&bytes, 0, length, endian, false);
            assert!(plain >= 0 && plain < 1i128 << length);
            let signed = extract_bits(&bytes, 0, length, endian, true);
            assert!(signed >= -(1i128 << (length - 1)) && signed < 1i128 << (length - 1));
        }
    }
}

#[test]
fn the_widest_fields_are_read() {
    let bytes = [0xFFu8; 16];
    assert_eq!(extract_bits(&bytes, 0, 128, Endianness::Big, true), -1);
    assert_eq!(extract_bits(&bytes[..8], 0, 128, Endianness::Big, true), u64::MAX as i128);
    assert_eq!(extract_bits(&bytes, 0, 127, Endianness::Little, false), i128::MAX);
    assert_eq!(extract_bits(&bytes, 0, 200, Endianness::Big, false), -1);
}

#[test]
fn swapping_words_twice_gives_the_bytes_back() {
    let before = vec![1u8, 2, 3, 4, 5, 6, 7, 8];
    let mut bytes = before.clone();
    apply_word_swap(&mut bytes, 16, 48);
    assert_eq!(bytes, vec![1, 2, 7, 8, 5, 6, 3, 4]);
    apply_word_swap(&mut bytes, 16, 48);
    assert_eq!(bytes, before);
}

#[test]
fn civil_times_name_one_moment() {
    assert_eq!(format_unix_seconds(951_782_400), "2000-02-29 00:00:00");
    assert_eq!(format_unix_seconds(-1), "1969-12-31 23:59:59");
    let mut seen = Vec::new();
    for day in 0..800 {
        let t = civil_from_unix(day * 86_400 + 5);
        assert_eq!((t.hour, t.minute, t.second), (0, 0, 5));
        assert!(!seen.contains(&(t.year, t.month, t.day)));
        seen.push((t.year, t.month, t.day));
    }
}

#[test]
fn decimals_are_shown_without_trailing_zeros() {
    let shown = |mantissa: i128, scale: u32| format_decimal(DecimalValue { mantissa, scale });
    assert_eq!(shown(5500, 2), "55");
    assert_eq!(shown(-151, 1), "-15.1");
    assert_eq!(shown(0, 3), "0");
}

// ---- Numbers and keys -------------------------------------------------------

#[test]
fn numbers_are_ordered_as_floats() {
    let values = [
        -1.5,
        -0.0,
        0.0,
        1.0,
        2.5,
        9_007_199_254_740_993.0,
        f64::INFINITY,
        f64::NEG_INFINITY,
        f64::NAN,
    ];
    let integers = [
        i64::MIN,
        -3,
        0,
        1,
        2,
        9_007_199_254_740_992,
        9_007_199_254_740_993,
        i64::MAX,
    ];
    for a in values {
        for b in values {
            assert_eq!(is_greater(float(a), float(b)), a > b, "{a} {b}");
            assert_eq!(is_same_float(a.to_bits(), b.to_bits()), a == b, "{a} {b}");
        }
        for i in integers {
            assert_eq!(is_greater(Number::Integer(i), float(a)), i as f64 > a, "{i} {a}");
            assert_eq!(is_greater(float(a), Number::Integer(i)), a > i as f64, "{a} {i}");
        }
    }
    for u in [0u64, 1, 1 << 63, u64::MAX, (1 << 63) + 1025] {
        assert!(equals_nearest((u as f64).to_bits(), u));
        assert!(!equals_nearest((u as f64 + 1e6).to_bits(), u));
    }
}

#[test]
fn keys_are_ordered_by_the_number_they_spell() {
    assert!(is_key_after("0x10", "9"));
    assert!(is_key_after("10", "9.5"));
    assert!(is_key_after("\"0x700\"", "0x6FF"));
    assert!(!is_key_after("0x10", "16"));
    assert!(is_key_after("b", "a"));
    assert!(is_key_after("name", "10"));
    assert!(!is_key_after("nan", "1") && !is_key_after("1", "nan"));
    assert_eq!(strip_quotes("\"0x700\""), "0x700");
    assert_eq!(strip_quotes("\""), "\"");
    assert_eq!(parse_id("0x1F"), Some(31));
    assert_eq!(parse_register_key(" 0X32F9 "), Some(13049));
    assert_eq!(parse_register_key("battery"), None);
}

// ---- Multiplexers -----------------------------------------------------------

#[test]
fn ranges_and_lists_match_their_members() {
    for selector in -2..=12 {
        assert_eq!(mux_case_matches(selector, "3-7"), (3..=7).contains(&selector));
        assert_eq!(
            mux_case_matches(selector, "1,3-7,11"),
            mux_case_matches(selector, "1")
                || mux_case_matches(selector, "3-7")
                || mux_case_matches(selector, "11")
        );
    }
    assert_eq!(parse_mux_case_values("2-4,9"), Some(vec![2, 3, 4, 9]));
    assert_eq!(parse_mux_case_values("name"), None);
}

#[test]
fn only_the_matching_case_is_decoded() {
    let c = Catalog::parse(
        r#"
[meta]
name = "x"
[frame.can.0x200]
length = 8
[[frame.can.0x200.signals]]
name = "always"
start_bit = 32
bit_length = 8
[frame.can.0x200.mux]
name = "sel"
start_bit = 0
bit_length = 8
[[frame.can.0x200.mux."0".signals]]
name = "zero"
start_bit = 8
bit_length = 8
[[frame.can.0x200.mux."1".signals]]
name = "one"
start_bit = 8
bit_length = 8
"#,
    )
    .unwrap();
    let names = |bytes: &[u8]| -> Vec<String> {
        decode_frame(&c, c.frame(0x200).unwrap(), bytes)
            .unwrap()
            .signals
            .iter()
            .map(|s| s.name.clone())
            .collect()
    };
    assert_eq!(names(&[0; 8]), vec!["always", "zero"]);
    assert_eq!(names(&[1; 8]), vec!["always", "one"]);
    assert_eq!(names(&[7; 8]), vec!["always"]);
    assert_eq!(frame_id_mask(&c), None);
    assert_eq!(masked_frame_id(&c, 0x12345), 0x12345);
    assert!(decode_by_id(&c, 0x999, &[0; 8]).is_none());
}

#[test]
fn a_frame_decodes_whatever_the_others_declare() {
    let c = Catalog::parse(
        r#"
[frame.can.0x1]
length = 8
[[frame.can.0x1.signals]]
name = "plain"
start_bit = 0
bit_length = 8
[frame.can.0x2]
length = 64
[[frame.can.0x2.signals]]
name = "huge"
start_bit = 0
bit_length = 512
signed = true
"#,
    )
    .unwrap();
    let d = decode_by_id(&c, 1, &[7; 8]).unwrap();
    assert_eq!(d.signals[0].value, 7);
}

#[test]
fn both_modbus_decoders_agree() {
    let text = r#"
[meta]
name = "x"
[meta.modbus]
register_base = 0
default_byte_order = "big"
default_word_order = "little"
[frame.modbus.13007]
register_type = "input"
length = 3
[[frame.modbus.13007.signals]]
name = "Power"
start_bit = 0
bit_length = 32
signed = true
[[frame.modbus.13007.signals]]
name = "Voltage"
start_bit = 32
bit_length = 16
factor = 0.1
"#;
    let catalog = Catalog::parse(text).unwrap();
    let manifest = ModbusManifest::parse(text).unwrap();
    let regs = [0xFC18u16, 0xFFFF, 0x09C4];
    let bytes: Vec<u8> = regs.iter().flat_map(|r| r.to_be_bytes()).collect();
    let whole = decode_frame(&catalog, catalog.frame(13007).unwrap(), &bytes).unwrap();
    let block =
        wiretap::writes::decode_frame(&manifest.frames[0], &regs, &manifest.meta).unwrap();
    assert_eq!(whole.signals.len(), block.len());
    for (a, b) in whole.signals.iter().zip(&block) {
        assert_eq!(a.name, b.name);
        assert_eq!(format_decimal(a.scaled), format_decimal(b.value));
    }
    assert_eq!(format_decimal(block[1].value), "250");
}

// ---- Writes -----------------------------------------------------------------

const WRITABLE: &str = r#"
[frame.modbus.flags]
register_number = 200
register_type = "holding"
length = 4
[[frame.modbus.flags.signals]]
name = "Nibble"
start_bit = 4
bit_length = 4
signed = true
[[frame.modbus.flags.signals]]
name = "Word"
start_bit = 16
bit_length = 32
[[frame.modbus.flags.signals]]
name = "Across"
start_bit = 24
bit_length = 16
[frame.modbus.readings]
register_number = 300
register_type = "input"
length = 1
[[frame.modbus.readings.signals]]
name = "Word"
start_bit = 0
bit_length = 16
"#;

#[test]
fn writes_read_back_and_keep_to_their_mask() {
    let m = ModbusManifest::parse(WRITABLE).unwrap();
    let (f, s) = m.find_write_signal("Nibble").unwrap();
    for raw in -8..8 {
        let writes = encode_raw(&m, f, s, raw).unwrap();
        assert_eq!(writes.len(), 1);
        assert_eq!(writes[0].value & !writes[0].mask, 0);
        let bytes = writes[0].value.to_be_bytes();
        assert_eq!(extract_bits(&bytes, 4, 4, Endianness::Big, true), raw);
    }
    let (f, s) = m.find_write_signal("Word").unwrap();
    let writes = encode_signal(&m, f, s, 0x1234_5678).unwrap();
    assert_eq!(
        writes.iter().map(|w| (w.address, w.value, w.mask)).collect::<Vec<_>>(),
        vec![(201, 0x1234, 0xFFFF), (202, 0x5678, 0xFFFF)]
    );
}

#[test]
fn refused_writes_say_why() {
    let m = ModbusManifest::parse(WRITABLE).unwrap();
    let (f, s) = m.find_write_signal("Across").unwrap();
    let refused = encode_signal(&m, f, s, 1).unwrap_err();
    assert_eq!(
        refused,
        EncodeError::UnsupportedLayout {
            name: "Across".to_string(),
            start_bit: 24,
            bit_length: 16
        }
    );
    assert!(refused.message().contains("unsupported write layout (start_bit 24, bit_length 16)"));
    let readings = m.frames.iter().find(|f| f.name == "readings").unwrap();
    let refused = encode_signal(&m, readings, &readings.signals[0], 1).unwrap_err();
    assert_eq!(refused, EncodeError::NotWritable("Word".to_string()));
    assert!(refused.message().starts_with("signal 'Word' is in a read-only register bank"));
}

#[test]
fn merged_writes_hold_every_write() {
    let write = |address: u16, value: u16, mask: u16| ModbusWrite {
        address,
        value,
        mask,
    };
    let writes = vec![
        write(7, 0x0100, 0x0F00),
        write(5, 0x0001, 0x000F),
        write(7, 0x0002, 0x000F),
    ];
    let merged = merge_register_writes(writes.clone()).unwrap();
    for w in &writes {
        let at = merged.iter().find(|m| m.address == w.address).unwrap();
        assert_eq!(at.value & w.mask, w.value);
        assert_eq!(at.mask & w.mask, w.mask);
    }
    assert_eq!(merged.len(), 2);
    let runs = group_contiguous(&[write(1, 0, 1), write(2, 0, 1), write(4, 0, 1)]);
    assert_eq!(runs.iter().map(|r| r.len()).collect::<Vec<_>>(), vec![2, 1]);
}

#[test]
fn write_options_are_offered_once() {
    let m = ModbusManifest::parse(
        r#"
[frame.modbus.300]
register_type = "holding"
length = 1
name = "Limit"
[frame.modbus.100]
register_type = "holding"
length = 1
name = "Limit"
[frame.modbus.200]
register_type = "coil"
length = 1
name = "Relay"
"#,
    )
    .unwrap();
    assert_eq!(
        m.write_signal_options(),
        vec![("Limit".to_string(), 100), ("Relay".to_string(), 200)]
    );
}

// ---- Manifests and messages ---------------------------------------------------

#[test]
fn manifest_errors_say_what_is_wrong() {
    assert_eq!(
        ModbusManifest::parse("[frame.modbus.100]\nlength = \"two\"\n").unwrap_err(),
        ManifestError::Shape
    );
    assert_eq!(
        ManifestError::Shape.message(),
        "manifest is not valid TOML: a key is missing or of the wrong kind"
    );
    assert!(ModbusManifest::parse("x = = 1")
        .unwrap_err()
        .message()
        .contains("TOML"));
    assert!(ManifestError::BadRegister("pump".to_string())
        .message()
        .contains("pump"));
    assert!(Catalog::parse("x = = 1").unwrap_err().message().contains("expected"));
}

#[test]
fn frames_are_switched_off_in_line_too() {
    let text = "frame.modbus.a = { register_number = 1, length = 1 }\n";
    let off = set_frame_disabled(text, "a", true).unwrap();
    assert_eq!(
        off,
        "frame.modbus.a = { register_number = 1, length = 1 , disabled = true }\n"
    );
    let on = set_frame_disabled(&off, "a", false).unwrap();
    assert!(!on.contains("disabled"));
    assert_eq!(
        set_frame_disabled(text, "b", true).unwrap_err(),
        "manifest has no frame 'b'"
    );
    assert!(set_frame_disabled("x = = 1", "a", true)
        .unwrap_err()
        .starts_with("manifest is not valid TOML: "));
}

// ---- Edits ------------------------------------------------------------------

const TABLES: &str = "[meta]\nname = \"x\"\n\n[frame.can.9]\nlength = 8\n\n[frame.can.0x2]\nlength = 2\n\n[frame.can.10]\nlength = 1\n";

#[test]
fn edits_change_what_they_aim_at_and_nothing_else() {
    let out = apply_edit(
        TABLES,
        set(&["frame", "can", "9"], vec![("length", JsonValue::Integer(4))]),
    )
    .unwrap();
    assert_eq!(out, TABLES.replace("length = 8", "length = 4"));
    // Set again, nothing changes.
    let again = apply_edit(
        &out,
        set(&["frame", "can", "9"], vec![("length", JsonValue::Integer(4))]),
    )
    .unwrap();
    assert_eq!(again, out);
}

#[test]
fn entries_that_are_not_named_stay() {
    let text = "[f]\na = 1 # first\nb = 2\nc = 3\n\n[f.mux]\nn = 1\n";
    let op = EditOp::SetTable {
        path: path(&["f"]),
        value: object(vec![("a", JsonValue::Integer(1))]),
        managed_keys: path(&["a", "b"]),
        replace_contents: false,
        sort_parent_numeric: false,
        skip_if_exists: false,
        error_if_exists: false,
    };
    assert_eq!(apply_edit(text, op).unwrap(), text.replace("b = 2\n", ""));
}

#[test]
fn values_take_the_form_of_their_kind() {
    let out = apply_edit(
        "",
        set(
            &["t"],
            vec![
                ("b", JsonValue::Bool(true)),
                ("f", JsonValue::Float(JsonFloat::parse("1.5").unwrap())),
                ("gone", JsonValue::Null),
                ("list", JsonValue::Array(vec![JsonValue::Integer(1), JsonValue::Null, JsonValue::Bool(false)])),
                ("mask", JsonValue::Integer(255)),
                ("s", JsonValue::Text("a \"b\"".to_string())),
                ("sub", JsonValue::Object(object(vec![("k", JsonValue::Integer(-1))]))),
                ("tables", JsonValue::Array(vec![JsonValue::Object(object(vec![("n", JsonValue::Integer(2))]))])),
                ("wide", JsonValue::Unsigned(u64::MAX)),
            ],
        ),
    )
    .unwrap();
    let parsed: toml::Value = out.parse().expect("valid TOML");
    let t = &parsed["t"];
    assert_eq!(t["b"].as_bool(), Some(true));
    assert_eq!(t["f"].as_float(), Some(1.5));
    assert!(t.get("gone").is_none());
    assert_eq!(t["list"].as_array().map(|a| a.len()), Some(2));
    assert!(out.contains("mask = 0xFF"));
    assert_eq!(t["s"].as_str(), Some("a \"b\""));
    assert_eq!(t["sub"]["k"].as_integer(), Some(-1));
    assert_eq!(t["tables"][0]["n"].as_integer(), Some(2));
    assert_eq!(t["wide"].as_integer(), Some(-1));
    assert!(JsonFloat::parse("one").is_none());
}

#[test]
fn sorting_puts_numbers_in_order_and_keeps_every_table() {
    let out = apply_edit(TABLES, delete(&["frame", "can", "absent"], true)).unwrap();
    let parsed: toml::Value = out.parse().expect("valid TOML");
    assert_eq!(parsed["frame"]["can"]["9"]["length"].as_integer(), Some(8));
    assert_eq!(parsed["frame"]["can"]["10"]["length"].as_integer(), Some(1));
    assert_eq!(parsed["frame"]["can"]["0x2"]["length"].as_integer(), Some(2));
    // Values written with dotted keys come out sorted too.
    let dotted = apply_edit("a.10 = 1\na.9 = 2\na.0x1 = 3\n", delete(&["absent"], true)).unwrap();
    assert_eq!(dotted, "a.0x1 = 3\na.9 = 2\na.10 = 1\n");
}

#[test]
fn deleted_entries_are_gone() {
    let out = apply_edit(TABLES, delete(&["frame", "can", "\"0x2\""], false)).unwrap();
    assert_eq!(out, TABLES.replace("[frame.can.0x2]\nlength = 2\n\n", ""));
    assert_eq!(apply_edit(TABLES, delete(&[], false)).unwrap(), TABLES);
}

#[test]
fn renaming_carries_the_table_and_its_references() {
    let text = "[node.a]\nn = 1\n\n[frame.can.1]\ntransmitter = \"a\"\n\n[frame.can.2]\ntransmitter = \"c\"\n\n[frame.modbus.3]\nnode = \"a\"\n";
    let rename = |old: &str, new: &str, refs: bool, refuse: bool| EditOp::RenameKey {
        parent_path: path(&["node"]),
        old: old.to_string(),
        new: new.to_string(),
        set_value: None,
        managed_keys: Vec::new(),
        sort_numeric: false,
        update_transmitter_refs: refs,
        error_if_exists: refuse,
    };
    let out = apply_edit(text, rename("a", "b", true, true)).unwrap();
    assert_eq!(
        out,
        text.replace("[node.a]", "[node.b]").replace("\"a\"", "\"b\"")
    );
    assert_eq!(
        apply_edit(text, rename("x", "y", false, false)).unwrap_err(),
        "'x' not found"
    );
    let two = format!("{text}\n[node.b]\nn = 2\n");
    assert_eq!(
        apply_edit(&two, rename("a", "b", false, true)).unwrap_err(),
        "'b' already exists"
    );
}

#[test]
fn arrays_in_line_are_kept_sorted() {
    let text = "[f]\nsignals = [ { n = 1 }, { n = 5 } ]\n";
    let upsert = |index: Option<usize>, n: i64| EditOp::UpsertArrayItem {
        array_path: path(&["f", "signals"]),
        value: object(vec![("n", JsonValue::Integer(n))]),
        index,
        sort_keys: path(&["n"]),
    };
    let numbers = |text: &str| -> Vec<i64> {
        let parsed: toml::Value = text.parse().expect("valid TOML");
        parsed["f"]["signals"]
            .as_array()
            .expect("an array")
            .iter()
            .map(|s| s["n"].as_integer().expect("a number"))
            .collect()
    };
    assert_eq!(numbers(&apply_edit(text, upsert(None, 3)).unwrap()), vec![1, 3, 5]);
    assert_eq!(numbers(&apply_edit(text, upsert(Some(0), 9)).unwrap()), vec![5, 9]);
    let removed = apply_edit(
        text,
        EditOp::RemoveArrayItem {
            array_path: path(&["f", "signals"]),
            index: 1,
            remove_if_empty: true,
        },
    )
    .unwrap();
    assert_eq!(numbers(&removed), vec![1]);
}

#[test]
fn what_is_no_array_gives_way_to_one() {
    let out = apply_edit(
        "[f]\nsignals = 0\n",
        EditOp::UpsertArrayItem {
            array_path: path(&["f", "signals"]),
            value: object(vec![("n", JsonValue::Integer(1))]),
            index: None,
            sort_keys: Vec::new(),
        },
    )
    .unwrap();
    let parsed: toml::Value = out.parse().expect("valid TOML");
    assert_eq!(parsed["f"]["signals"][0]["n"].as_integer(), Some(1));
}

#[test]
fn new_frames_get_their_signals() {
    let out = apply_edit(
        "",
        EditOp::UpsertFrame {
            protocol: "can".to_string(),
            key: "\"0x100\"".to_string(),
            value: object(vec![("length", JsonValue::Integer(8))]),
            managed_keys: Vec::new(),
            rename_from: None,
            initial_signals: vec![object(vec![("name", JsonValue::Text("a".to_string()))])],
        },
    )
    .unwrap();
    let c = Catalog::parse(&out).unwrap();
    let f = c.frame(0x100).unwrap();
    assert_eq!(f.length, 8);
    assert_eq!(f.signals.len(), 1);
}

#[test]
fn refused_edits_say_why() {
    let guarded = |skip: bool, refuse: bool| EditOp::SetTable {
        path: path(&["meta"]),
        value: object(vec![("name", JsonValue::Text("y".to_string()))]),
        managed_keys: Vec::new(),
        replace_contents: false,
        sort_parent_numeric: false,
        skip_if_exists: skip,
        error_if_exists: refuse,
    };
    assert_eq!(apply_edit(TABLES, guarded(true, true)).unwrap(), TABLES);
    assert_eq!(
        apply_edit(TABLES, guarded(false, true)).unwrap_err(),
        "'meta' already exists"
    );
    assert_eq!(
        apply_edit(
            TABLES,
            EditOp::UpsertArrayItem {
                array_path: Vec::new(),
                value: Vec::new(),
                index: None,
                sort_keys: Vec::new()
            }
        )
        .unwrap_err(),
        "empty array_path"
    );
    assert!(apply_edit("x = = 1", delete(&["x"], false))
        .unwrap_err()
        .starts_with("catalogue is not valid TOML: "));
}

// ---- Upgrades and versions ------------------------------------------------------

#[test]
fn upgrades_say_what_they_changed() {
    let text = "[meta.modbus]\ndevice_address = 5\n\n[frame.modbus.config]\nx = 1\n\n[frame.modbus.1]\nlength = 1\ntx = { interval_ms = 100, other = 1 }\n\n[frame.modbus.2]\nlength = 1\n";
    let m = migrate(text).unwrap();
    assert_eq!(slave_node_name(5), "Slave 5");
    assert_eq!(
        m.summary,
        vec![
            "Created slave node \"Slave 5\" (device address 5)",
            "Assigned 2 registers to \"Slave 5\"",
            "Removed the redundant [meta.modbus] device_address",
            "Moved 1 frame interval from [tx] to interval_ms",
        ]
    );
    assert!(m.toml.contains("other = 1"));
    let again = migrate(&m.toml).unwrap();
    assert!(!again.changed && again.summary.is_empty());
    assert_eq!(again.toml, m.toml);
    assert!(migrate("x = = 1")
        .err()
        .unwrap()
        .starts_with("catalogue is not valid TOML: "));
}

#[test]
fn versions_that_cannot_be_raised_say_why() {
    let refused = |text: &str| bump_meta_version(text).unwrap_err();
    assert_eq!(refused("x = 1\n"), "catalogue has no [meta] section");
    assert_eq!(refused("[meta]\nversion = \"1\"\n"), "[meta].version is not an integer");
    assert_eq!(refused("[meta]\nversion = -1\n"), "[meta].version is out of range");
    assert_eq!(
        refused("[meta]\nversion = 4294967295\n"),
        "[meta].version is at its maximum"
    );
    assert!(refused("x = = 1").starts_with("catalogue is not valid TOML: "));
    let unknown = MetaLayout {
        version: Some(VersionField {
            value: Some(1),
            span: None,
        }),
        name_end: None,
        table_end: None,
    };
    assert_eq!(
        raise_version("", &Some(unknown)).unwrap_err(),
        "[meta].version has no source span"
    );
    let bare = MetaLayout {
        version: None,
        ..unknown
    };
    assert_eq!(
        raise_version("", &Some(bare)).unwrap_err(),
        "[meta] has no source span"
    );
}

#[test]
fn a_version_is_raised_by_one_in_its_place() {
    // Characters of several bytes before the version do not shift the place.
    let text = "# \u{00E4}\u{20AC}\u{1F600}\n[meta]\nname = \"\u{00FC}\"\nversion = 0x1F # old\n";
    let bump = bump_meta_version(text).unwrap();
    assert_eq!((bump.from, bump.to), (31, 32));
    assert_eq!(bump.text, text.replace("0x1F", "32"));
    let headed = bump_meta_version("[meta]\n[meta.can]\n").unwrap();
    assert_eq!(headed.text, "[meta]\nversion = 2\n[meta.can]\n");
}

// ---- Mirrors ---------------------------------------------------------------------

#[test]
fn resetting_forgets_what_was_observed() {
    let c = Catalog::parse(
        "[frame.can.1]\nlength = 1\n[[frame.can.1.signals]]\nname = \"a\"\nstart_bit = 0\nbit_length = 8\n[frame.can.2]\nmirror_of = \"1\"\n",
    )
    .unwrap();
    let mut tracker = MirrorTracker::new(&c);
    tracker.observe(1, &[5], 0);
    tracker.observe(2, &[5], 1000);
    assert_eq!(tracker.verdicts()[0].1.is_valid, Some(true));
    tracker.reset();
    assert_eq!(tracker.verdicts()[0].1.is_valid, None);
    tracker.observe(2, &[6], 2000);
    assert_eq!(tracker.verdicts()[0].1.is_valid, None);
}

// ---- Validation --------------------------------------------------------------------

#[test]
fn bounds_are_shown_as_floats() {
    let text = |min: &str, max: &str| {
        format!(
            "[meta]\nname = \"x\"\n[frame.can.0x1]\nlength = 8\n[[frame.can.0x1.signals]]\nname = \"a\"\nstart_bit = 0\nbit_length = 8\nmin = {min}\nmax = {max}\n"
        )
    };
    let found = validate(&text("5", "1"));
    assert_eq!(found.len(), 1);
    assert!(found[0].message.contains("min (5)"), "{}", found[0].message);
    assert!(found[0].message.contains("(1)"), "{}", found[0].message);
    let wide = validate(&text("9007199254740993", "0.5"));
    assert!(wide[0].message.contains("min (9007199254740992)"), "{}", wide[0].message);
    assert!(wide[0].message.contains("(0.5)"), "{}", wide[0].message);
    assert!(validate(&text("1", "1.0")).is_empty());
}

#[test]
fn editor_fields_are_checked() {
    let meta = |name: &str, version: i64| {
        validate_meta_fields(&MetaInput {
            name: name.to_string(),
            version,
        })
        .len()
    };
    assert_eq!(meta("x", 1), 0);
    assert_eq!(meta(" ", 1), 1);
    assert_eq!(meta("", 0), 2);
    let signal = SignalInput {
        name: "a".to_string(),
        start_bit: Some(0),
        bit_length: Some(8),
        endianness: Some("sideways".to_string()),
        min: Some(float(2.5)),
        max: Some(Number::Integer(2)),
        format: None,
        enum_is_map: None,
    };
    assert_eq!(validate_signal_fields(&signal).len(), 2);
    let checksum = ChecksumInput {
        name: "crc".to_string(),
        algorithm: "crc8".to_string(),
        start_byte: Some(9),
        byte_length: Some(1),
        endianness: None,
        calc_start_byte: Some(0),
        calc_end_byte: Some(7),
        frame_length: 8,
    };
    assert!(!validate_checksum_fields(&checksum).is_empty());
    let frame = FrameInput {
        protocol: "serial".to_string(),
        key: String::new(),
        ..Default::default()
    };
    assert!(!validate_frame_fields(&frame).is_empty());
}

#[test]
fn a_table_in_line_is_no_meta_section() {
    assert_eq!(
        bump_meta_version("meta = { name = \"x\", version = 3 }\n").unwrap_err(),
        "catalogue has no [meta] section"
    );
    let dotted = bump_meta_version("meta.name = \"x\"\nmeta.version = 3\n").unwrap();
    assert_eq!(dotted.text, "meta.name = \"x\"\nmeta.version = 4\n");
}

#[test]
fn upgrading_twice_changes_nothing_more_with_both_spellings() {
    let text = "[meta]\nname = \"x\"\n\n[frame.can.1]\nlength = 1\ntx = { interval_ms = 100, interval = 200 }\n";
    let once = migrate(text).unwrap();
    assert!(once.changed);
    assert!(once.toml.contains("interval_ms = 100"));
    assert!(!once.toml.contains("200") && !once.toml.contains("tx"));
    let twice = migrate(&once.toml).unwrap();
    assert!(!twice.changed);
    assert_eq!(twice.toml, once.toml);
}

#[test]
fn a_poll_interval_comes_from_tx_before_the_flat_one() {
    let interval = |lines: &str| {
        let text = format!("[meta.modbus]\ndefault_interval = 700\n\n[frame.modbus.1]\n{lines}");
        ModbusManifest::parse(&text).unwrap().frames[0].interval_ms
    };
    assert_eq!(interval("tx = { interval_ms = 100 }\ninterval_ms = 300\n"), 100);
    assert_eq!(interval("tx = { interval = 200 }\n"), 200);
    assert_eq!(interval("interval_ms = 300\n"), 300);
    // A flat one of another kind is no interval, and no error.
    assert_eq!(interval("interval_ms = \"soon\"\n"), 700);
    assert_eq!(interval(""), 700);
}

#[test]
fn edits_keep_the_comments_around_them() {
    let text = "# top\n[frame.can.1] # header\nlength = 0x8\n# above\nname = \"a\" # behind\n# tail\n";
    let out = apply_edit(
        text,
        set(&["frame", "can", "1"], vec![("length", JsonValue::Integer(4))]),
    )
    .unwrap();
    assert_eq!(out, text.replace("0x8", "4"));
}

#[test]
fn manifest_fields_may_stand_in_their_order() {
    let text = "[meta]\nmodbus = [3, 1, 700]\n\n[frame.modbus]\n10 = [40011, \"input\", 2, [250], false, [[\"a\", 0, 16], [\"b\", 16, 16, 0.5]]]\n11 = []\n";
    let m = ModbusManifest::parse(text).unwrap();
    assert_eq!((m.meta.device_address, m.meta.register_base), (3, 1));
    assert_eq!(m.meta.default_interval_ms, Some(700));
    let f = &m.frames[0];
    assert_eq!((f.register_number, f.length, f.interval_ms), (40011, 2, 250));
    assert_eq!(f.signals.len(), 2);
    assert_eq!((f.signals[1].name.as_str(), f.signals[1].start_bit), ("b", 16));
    let bare = &m.frames[1];
    assert_eq!((bare.register_number, bare.length, bare.interval_ms), (11, 1, 700));
    assert!(bare.signals.is_empty());
    // A required field that is missing, or one of another kind, is still an error.
    let bad = |line: &str| ModbusManifest::parse(&format!("[frame.modbus]\n{line}\n"));
    assert_eq!(bad("1 = [1, \"input\", 1, [], false, [[\"a\", 0]]]"), Err(ManifestError::Shape));
    assert_eq!(bad("1 = [\"x\"]"), Err(ManifestError::Shape));
    assert_eq!(bad("1 = 5"), Err(ManifestError::Shape));
}

#[test]
fn manifest_names_may_be_the_key_of_an_empty_table() {
    let text = "[meta.modbus]\ndefault_byte_order = { little = {} }\n\n[frame.modbus.1]\nregister_type = { input = {} }\nformat = { hex = [] }\n";
    let m = ModbusManifest::parse(text).unwrap();
    assert_eq!(m.meta.default_byte_order, Some(Endianness::Little));
    assert_eq!(m.frames[0].register_type, RegisterType::Input);
    assert_eq!(m.frames[0].signals[0].format, Some(SignalFormat::Hex));
    let refused = |line: &str| {
        ModbusManifest::parse(&format!("[frame.modbus.1]\n{line}\n")) == Err(ManifestError::Shape)
    };
    assert!(refused("register_type = { input = 1 }"));
    assert!(refused("register_type = { input = { x = 1 } }"));
    assert!(refused("register_type = { input = {}, coil = {} }"));
    assert!(refused("register_type = {}"));
    assert!(refused("register_type = { other = {} }"));
}

#[test]
fn a_date_reads_as_a_table_without_known_fields() {
    let text = "[meta]\nmodbus = 2020-01-01\n\n[frame.modbus]\n7 = 2020-01-01T10:00:00\n\n[frame.modbus.8]\ntx = 10:00:00\nenum = 2020-01-01\n";
    let m = ModbusManifest::parse(text).unwrap();
    assert_eq!((m.meta.device_address, m.meta.register_base), (1, 0));
    assert_eq!(m.frames.len(), 2);
    assert_eq!((m.frames[0].register_number, m.frames[0].length), (7, 1));
    assert_eq!(m.frames[1].interval_ms, 5000);
    let labels = m.frames[1].signals[0].enum_map.as_ref().unwrap();
    assert_eq!(labels.len(), 1);
    assert_eq!(labels[0].1, "2020-01-01");
    let refused = ModbusManifest::parse("[frame.modbus.1]\nregister_type = 2020-01-01\n");
    assert_eq!(refused, Err(ManifestError::Shape));
}

#[test]
fn manifests_are_in_the_order_of_their_names() {
    let text = "[frame.modbus.b]\nregister_number = 1\n[[frame.modbus.b.signals]]\nname = \"s\"\nstart_bit = 0\nbit_length = 16\nenum = { 2 = \"two\", 10 = \"ten\", 1 = \"one\" }\n[frame.modbus.a]\nregister_number = 2\n[frame.modbus.B]\nregister_number = 3\n";
    let m = ModbusManifest::parse(text).unwrap();
    let names: Vec<&str> = m.frames.iter().map(|f| f.name.as_str()).collect();
    assert_eq!(names, ["B", "a", "b"]);
    let labels: Vec<&str> = m.frames[2].signals[0]
        .enum_map
        .as_ref()
        .unwrap()
        .iter()
        .map(|(value, _)| value.as_str())
        .collect();
    assert_eq!(labels, ["1", "10", "2"]);
    // The first name without a register is the one that is reported.
    let bad = "[frame.modbus.y]\nlength = 1\n[frame.modbus.x]\nlength = 1\n";
    assert_eq!(
        ModbusManifest::parse(bad),
        Err(ManifestError::BadRegister("x".to_string()))
    );
}

#[test]
fn cases_and_header_fields_are_in_the_order_of_their_keys() {
    let c = Catalog::parse(
        "[meta]\nname = \"x\"\n[meta.can.fields.b]\nmask = 0xFF\n[meta.can.fields.a]\nmask = 0xFF00\n[frame.can.1]\nlength = 1\n[frame.can.1.mux]\nstart_bit = 0\n[[frame.can.1.mux.\"2\".signals]]\nname = \"two\"\n[[frame.can.1.mux.\"1\".signals]]\nname = \"one\"\n",
    )
    .unwrap();
    let mux = c.frames[0].mux.as_ref().unwrap();
    let keys: Vec<&str> = mux.cases.iter().map(|(k, _)| k.as_str()).collect();
    assert_eq!(keys, ["1", "2"]);
    let fields = &c.can.as_ref().unwrap().fields;
    let names: Vec<&str> = fields.iter().map(|(k, _)| k.as_str()).collect();
    assert_eq!(names, ["a", "b"]);
}
