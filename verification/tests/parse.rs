//! Reading catalogues.

use wiretap::catalog::CatalogError;
use wiretap::model::{Catalog, Endianness, Frame, Protocol, RegisterType, Signal};
use wiretap::value::Number;

fn as_float(n: Option<Number>) -> Option<f64> {
    n.map(|n| match n {
        Number::Integer(i) => i as f64,
        Number::Float { bits, .. } => f64::from_bits(bits),
    })
}

fn find<'a, T>(entries: &'a [(String, T)], key: &str) -> Option<&'a T> {
    entries.iter().find(|e| e.0 == key).map(|e| &e.1)
}

fn sig<'a>(f: &'a Frame, name: &str) -> &'a Signal {
    f.signals
        .iter()
        .find(|s| s.name.as_deref() == Some(name))
        .unwrap_or_else(|| panic!("signal {name} present"))
}

#[test]
fn preserves_authored_key_and_tracks_inheritance() {
    let toml = r#"
[meta]
name = "x"
[meta.can]
default_interval = 500
default_fd = true
[frame.can.0x100]
length = 8
transmitter = "ECU1"
[frame.can.0x101]
copy = "0x100"
"#;
    let c = Catalog::parse(toml).unwrap();
    let base = c.frame(0x100).unwrap();
    assert_eq!(base.key, "0x100"); // authored key preserved (frame_id is numeric)
                                   // 0x100: extended auto-detected, fd from default, interval from default.
    assert!(base.inherited_fields.contains(&"extended".to_string()));
    assert!(base.inherited_fields.contains(&"fd".to_string()));
    assert!(base.inherited_fields.contains(&"interval".to_string()));
    assert!(!base.inherited_fields.contains(&"length".to_string()));
    // 0x101 copies 0x100: length + transmitter inherited from the copy source.
    let cp = c.frame(0x101).unwrap();
    assert_eq!(cp.length, 8);
    assert_eq!(cp.transmitter.as_deref(), Some("ECU1"));
    assert!(cp.inherited_fields.contains(&"length".to_string()));
    assert!(cp.inherited_fields.contains(&"transmitter".to_string()));
}

#[test]
fn parses_frame_notes_both_forms_and_checksums() {
    let toml = r#"
[meta]
name = "x"
[frame.can.0x100]
length = 8
notes = "single note"
[[frame.can.0x100.checksum]]
algorithm = "sum8"
start_byte = 7
byte_length = 1
calc_start_byte = 0
calc_end_byte = 7
[frame.can.0x200]
length = 8
notes = ["line one", "line two"]
"#;
    let c = Catalog::parse(toml).unwrap();
    let f1 = c.frame(0x100).unwrap();
    assert_eq!(f1.notes, vec!["single note".to_string()]);
    assert_eq!(f1.checksums.len(), 1);
    assert_eq!(f1.checksums[0].algorithm, "sum8");
    assert_eq!(f1.checksums[0].start_byte, 7);
    assert_eq!(f1.checksums[0].calc_end_byte, Some(7));
    let f2 = c.frame(0x200).unwrap();
    assert_eq!(
        f2.notes,
        vec!["line one".to_string(), "line two".to_string()]
    );
}

#[test]
fn parses_node_table_and_modbus_notes() {
    let toml = r#"
[meta]
name = "x"
[meta.modbus]
device_address = 1
default_interval = 1000
[node.ECU_1]
notes = "the main controller"
[node.Sensor]
[frame.modbus.ems_control]
register_number = 13049
register_type = "holding"
length = 3
notes = "energy management"
"#;
    let c = Catalog::parse(toml).unwrap();
    // Nodes parsed in key order, notes carried.
    let names: Vec<&str> = c.nodes.iter().map(|n| n.name.as_str()).collect();
    assert_eq!(names, vec!["ECU_1", "Sensor"]);
    assert_eq!(c.nodes[0].notes, vec!["the main controller".to_string()]);
    // Modbus frame: key, notes, and inherited device address / interval.
    let f = c.frames.iter().find(|f| f.key == "ems_control").unwrap();
    assert_eq!(f.frame_id, 13049);
    assert_eq!(f.modbus_register_type, Some(RegisterType::Holding));
    assert_eq!(f.notes, vec!["energy management".to_string()]);
    assert!(f.inherited_fields.contains(&"deviceAddress".to_string()));
    // explicit frame interval absent → inherited from meta default.
    assert!(f.inherited_fields.contains(&"interval".to_string()));
}

#[test]
fn parses_can_frame_with_signal_and_defaults() {
    let toml = r#"
[meta]
name = "Test"
version = 1

[meta.can]
default_byte_order = "little"

[frame.can.0x123]
length = 8
transmitter = "ECU1"
tx.interval_ms = 100

[[frame.can.0x123.signals]]
name = "RPM"
start_bit = 0
bit_length = 16
factor = 0.25
unit = "rpm"
byte_order = "big"
"#;
    let c = Catalog::parse(toml).unwrap();
    assert_eq!(c.protocol, Protocol::Can);
    assert_eq!(c.meta.name, "Test");
    assert_eq!(
        c.can.as_ref().unwrap().default_byte_order,
        Some(Endianness::Little)
    );
    let f = c.frame(0x123).unwrap();
    assert_eq!(f.length, 8);
    assert_eq!(f.transmitter.as_deref(), Some("ECU1"));
    assert_eq!(f.interval, Some(100));
    assert_eq!(f.is_extended, Some(false)); // 0x123 <= 0x7ff
    assert_eq!(f.is_fd, Some(false));
    let s = sig(f, "RPM");
    assert_eq!(s.start_bit, Some(0));
    assert_eq!(s.bit_length, Some(16));
    assert_eq!(as_float(s.factor), Some(0.25));
    // byte_order key maps onto endianness.
    assert_eq!(s.endianness, Some(Endianness::Big));
}

#[test]
fn extended_auto_detected_and_overridable() {
    let toml = r#"
[meta]
name = "x"
[frame.can.0x1ABCDE]
length = 8
[frame.can.0x100]
length = 8
extended = true
"#;
    let c = Catalog::parse(toml).unwrap();
    assert_eq!(c.frame(0x1ABCDE).unwrap().is_extended, Some(true)); // > 0x7ff
    assert_eq!(c.frame(0x100).unwrap().is_extended, Some(true)); // explicit
}

#[test]
fn default_extended_and_fd_from_config() {
    let toml = r#"
[meta]
name = "x"
[meta.can]
default_extended = true
default_fd = true
[frame.can.0x10]
length = 8
"#;
    let c = Catalog::parse(toml).unwrap();
    let f = c.frame(0x10).unwrap();
    assert_eq!(f.is_extended, Some(true)); // config default beats auto-detect
    assert_eq!(f.is_fd, Some(true));
}

#[test]
fn mirror_inherits_signals_and_marks_inherited() {
    let toml = r#"
[meta]
name = "x"

[frame.can.0x100]
length = 8
[[frame.can.0x100.signals]]
name = "A"
start_bit = 0
bit_length = 8
[[frame.can.0x100.signals]]
name = "B"
start_bit = 8
bit_length = 8

[frame.can.0x200]
mirror_of = "0x100"
[[frame.can.0x200.signals]]
name = "B_override"
start_bit = 8
bit_length = 8
"#;
    let c = Catalog::parse(toml).unwrap();
    let f = c.frame(0x200).unwrap();
    assert_eq!(f.mirror_of.as_deref(), Some("0x100"));
    // A inherited from primary (same position, no override).
    let a = sig(f, "A");
    assert!(a.inherited);
    // Position 8:8 overridden by the mirror's own signal.
    let b = sig(f, "B_override");
    assert!(!b.inherited);
    // Length inherited from the mirror source.
    assert_eq!(f.length, 8);
}

#[test]
fn copy_inherits_metadata_only() {
    let toml = r#"
[meta]
name = "x"
[frame.can.0x100]
length = 6
transmitter = "ECU"
tx.interval_ms = 250
[frame.can.0x200]
copy = "0x100"
[[frame.can.0x200.signals]]
name = "S"
start_bit = 0
bit_length = 8
"#;
    let c = Catalog::parse(toml).unwrap();
    let f = c.frame(0x200).unwrap();
    assert_eq!(f.copy_from.as_deref(), Some("0x100"));
    assert_eq!(f.length, 6);
    assert_eq!(f.transmitter.as_deref(), Some("ECU"));
    assert_eq!(f.interval, Some(250));
    // copy carries metadata only — signals are the frame's own.
    assert_eq!(f.signals.len(), 1);
    assert!(!sig(f, "S").inherited);
}

#[test]
fn parses_mux_with_ranges_lists_and_nesting() {
    let toml = r#"
[meta]
name = "x"
[frame.can.0x300]
length = 8
[frame.can.0x300.mux]
name = "sel"
start_bit = 0
bit_length = 8
[[frame.can.0x300.mux."0-3".signals]]
name = "low"
start_bit = 8
bit_length = 8
[[frame.can.0x300.mux."4,5".signals]]
name = "mid"
start_bit = 8
bit_length = 8
[frame.can.0x300.mux."6".mux]
name = "inner"
start_bit = 16
bit_length = 4
[[frame.can.0x300.mux."6".mux."0".signals]]
name = "deep"
start_bit = 24
bit_length = 8
"#;
    let c = Catalog::parse(toml).unwrap();
    let m = c.frame(0x300).unwrap().mux.as_ref().unwrap();
    assert_eq!(m.name.as_deref(), Some("sel"));
    assert!(find(&m.cases, "0-3").is_some());
    assert!(find(&m.cases, "4,5").is_some());
    let nested = find(&m.cases, "6").unwrap().mux.as_ref().unwrap();
    assert_eq!(nested.name.as_deref(), Some("inner"));
    assert_eq!(
        find(&nested.cases, "0").unwrap().signals[0].name.as_deref(),
        Some("deep")
    );
}

#[test]
fn parses_mux_and_case_notes() {
    let toml = r#"
[meta]
name = "x"
[frame.can.0x300]
length = 8
[frame.can.0x300.mux]
name = "sel"
start_bit = 0
bit_length = 8
notes = "the selector"
[frame.can.0x300.mux."0"]
notes = ["case zero", "second line"]
[[frame.can.0x300.mux."0".signals]]
name = "a"
start_bit = 8
bit_length = 8
"#;
    let c = Catalog::parse(toml).unwrap();
    let m = c.frame(0x300).unwrap().mux.as_ref().unwrap();
    assert_eq!(m.notes, vec!["the selector".to_string()]);
    assert_eq!(
        find(&m.cases, "0").unwrap().notes,
        vec!["case zero".to_string(), "second line".to_string()]
    );
}

#[test]
fn parses_serial_config_and_frames() {
    let toml = r#"
[meta]
name = "ser"
[meta.serial]
encoding = "slip"
byte_order = "big"

[meta.serial.checksum]
algorithm = "crc16"
start_byte = 6
byte_length = 2

[meta.serial.fields]
id = { start_byte = 0, bytes = 2 }
source_address = { start_byte = 2, bytes = 1 }

[frame.serial.0xFDE0]
length = 8
[[frame.serial.0xFDE0.signals]]
name = "V"
start_bit = 0
bit_length = 16
"#;
    let c = Catalog::parse(toml).unwrap();
    assert_eq!(c.protocol, Protocol::Serial);
    let s = c.serial.as_ref().unwrap();
    assert_eq!(s.encoding.as_deref(), Some("slip"));
    assert_eq!(s.byte_order, Some(Endianness::Big));
    assert_eq!(s.checksum.as_ref().unwrap().algorithm, "crc16");
    assert_eq!(s.checksum.as_ref().unwrap().byte_length, 2);
    // legacy start_byte/bytes → mask 0xFFFF for the first two bytes.
    assert_eq!(find(&s.fields, "id").unwrap().mask, 0xFFFF);
    // Byte positions derived from the masks at parse time.
    assert_eq!(s.frame_id_start_byte, Some(0));
    assert_eq!(s.frame_id_bytes, Some(2));
    assert_eq!(s.frame_id_byte_order, Some(Endianness::Big));
    assert_eq!(s.source_address_start_byte, Some(2));
    assert_eq!(s.source_address_bytes, Some(1));
    // One header_fields position entry per field (sorted by name in the map).
    assert_eq!(s.header_fields.len(), 2);
    let id_pos = s.header_fields.iter().find(|h| h.name == "id").unwrap();
    assert_eq!((id_pos.start_byte, id_pos.bytes), (0, 2));
    assert_eq!(id_pos.format, "hex");
    assert_eq!(c.frame(0xFDE0).unwrap().signals.len(), 1);
}

#[test]
fn reuses_modbus_shorthands() {
    let toml = r#"
[meta]
name = "mb"
[meta.modbus]
register_base = 0
default_word_order = "little"

[frame.modbus.0x138F]
register_type = "input"
length = 1
name = "Inverter_Temperature"
factor = 0.1
unit = "C"
"#;
    let c = Catalog::parse(toml).unwrap();
    assert_eq!(c.protocol, Protocol::Modbus);
    assert_eq!(
        c.modbus.as_ref().unwrap().default_word_order,
        Some(Endianness::Little)
    );
    let f = c.frame(0x138F).unwrap();
    // register-from-key + signal-less shorthands resolved by ModbusManifest.
    assert_eq!(f.modbus_register_type, Some(RegisterType::Input));
    assert_eq!(f.modbus_register_count, Some(1));
    assert_eq!(f.length, 2); // 1 register = 2 bytes
    let s = sig(f, "Inverter_Temperature");
    assert_eq!(as_float(s.factor), Some(0.1));
    assert_eq!(s.bit_length, Some(16));
    // Single-register signal sits on the frame's base register.
    assert_eq!(s.modbus_register, Some(0x138F));
    assert_eq!(s.modbus_register_count, Some(1));
}

#[test]
fn synthesises_per_signal_modbus_registers() {
    // A multi-register block: signals carry their own register + span,
    // derived from the frame's base register and each signal's bit offset.
    let toml = r#"
[meta]
name = "mb"
[meta.modbus]
register_base = 0

[frame.modbus.13019]
register_type = "input"
length = 9
name = "Battery_Block"
[[frame.modbus.13019.signals]]
name = "Battery_Voltage"
start_bit = 0
bit_length = 16
[[frame.modbus.13019.signals]]
name = "Battery_Energy"
start_bit = 32
bit_length = 32
"#;
    let c = Catalog::parse(toml).unwrap();
    let f = c.frame(13019).unwrap();
    let v = sig(f, "Battery_Voltage");
    assert_eq!(v.modbus_register, Some(13019)); // base + 0/16
    assert_eq!(v.modbus_register_count, Some(1)); // 16 bits → 1 register
    let e = sig(f, "Battery_Energy");
    assert_eq!(e.modbus_register, Some(13021)); // base + 32/16
    assert_eq!(e.modbus_register_count, Some(2)); // 32 bits → 2 registers
}

#[test]
fn protocol_defaults_to_can_and_respects_default_frame() {
    let mixed = r#"
[meta]
name = "x"
default_frame = "serial"
[frame.can.0x1]
length = 8
[frame.serial.0x2]
length = 8
"#;
    assert_eq!(Catalog::parse(mixed).unwrap().protocol, Protocol::Serial);

    let only_can = "[meta]\nname='x'\n[frame.can.0x1]\nlength=8\n";
    assert_eq!(Catalog::parse(only_can).unwrap().protocol, Protocol::Can);
}

#[test]
fn parse_invalid_toml_errors() {
    assert!(matches!(
        Catalog::parse("not = valid = toml ="),
        Err(CatalogError::Toml(_))
    ));
}
