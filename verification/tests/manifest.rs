//! Modbus manifests: reading, decoding and writing.

use rust_decimal::Decimal;
use wiretap::bits::{format_decimal, DecimalValue};
use wiretap::manifest::{
    set_frame_disabled, ManifestError, ModbusFrame, ModbusManifest, ModbusMeta, ModbusSignal,
};
use wiretap::model::{Endianness, RegisterType, SignalFormat};
use wiretap::value::Number;
use wiretap::writes::{
    decode_frame, encode_enum, encode_signal, group_contiguous, merge_register_writes,
    DecodedSignal, EncodeError, ModbusWrite,
};

/// A hybrid inverter's manifest.
const SUNGROW: &str = r#"
[meta.modbus]
device_address = 1
register_base = 0
default_interval = 5000
default_byte_order = "big"
default_word_order = "little"

[frame.modbus.version_1]
register_number = 2581
register_type = "input"
length = 11
[[frame.modbus.version_1.signals]]
name = "ARM_Software_Version"
start_bit = 0
bit_length = 176
format = "ascii"

[frame.modbus.solar_pv]
register_number = 5010
register_type = "input"
length = 8
[[frame.modbus.solar_pv.signals]]
name = "MPPT1_Voltage"
start_bit = 0
bit_length = 16
factor = 0.1
unit = "V"
[[frame.modbus.solar_pv.signals]]
name = "Total_DC_Power"
start_bit = 96
bit_length = 32
unit = "W"

[frame.modbus.battery_power]
register_number = 5213
register_type = "input"
length = 2
[[frame.modbus.battery_power.signals]]
name = "Battery_Power"
start_bit = 0
bit_length = 32
signed = true
unit = "W"

[frame.modbus.battery_status]
register_number = 13019
register_type = "input"
length = 9
tx.interval_ms = 10000
[[frame.modbus.battery_status.signals]]
name = "Battery_SoC"
start_bit = 48
bit_length = 16
factor = 0.1
unit = "%"
[[frame.modbus.battery_status.signals]]
name = "Battery_Temperature"
start_bit = 80
bit_length = 16
factor = 0.1
signed = true
"#;

fn decode_block(frame: &ModbusFrame, regs: &[u16], meta: &ModbusMeta) -> Vec<DecodedSignal> {
    decode_frame(frame, regs, meta).expect("in range")
}

fn same(value: DecimalValue, mantissa: i64, scale: u32) -> bool {
    Decimal::from_i128_with_scale(value.mantissa, value.scale) == Decimal::new(mantissa, scale)
}

fn as_float(n: Number) -> f64 {
    match n {
        Number::Integer(i) => i as f64,
        Number::Float { bits, .. } => f64::from_bits(bits),
    }
}

/// A write of a value in the signal's unit.
fn encode_value(
    manifest: &ModbusManifest,
    frame: &ModbusFrame,
    signal: &ModbusSignal,
    value: f64,
) -> Result<Vec<ModbusWrite>, EncodeError> {
    let factor = match signal.factor.map(as_float) {
        Some(f) if f != 0.0 => f,
        _ => 1.0,
    };
    let offset = signal.offset.map(as_float).unwrap_or(0.0);
    encode_signal(manifest, frame, signal, ((value - offset) / factor).round() as i128)
}

fn label<'a>(entries: &'a [(String, String)], value: &str) -> Option<&'a str> {
    entries.iter().find(|e| e.0 == value).map(|e| e.1.as_str())
}


fn parse_fixture() -> ModbusManifest {
    ModbusManifest::parse(SUNGROW).expect("fixture parses")
}

fn frame<'a>(m: &'a ModbusManifest, name: &str) -> &'a ModbusFrame {
    m.frames
        .iter()
        .find(|f| f.name == name)
        .unwrap_or_else(|| panic!("frame {name} present"))
}

fn signal<'a>(f: &'a ModbusFrame, name: &str) -> &'a ModbusSignal {
    f.signals
        .iter()
        .find(|s| s.name == name)
        .unwrap_or_else(|| panic!("signal {name} present"))
}

#[test]
fn parses_frames_and_meta() {
    let m = parse_fixture();
    assert_eq!(m.meta.device_address, 1);
    assert_eq!(m.meta.register_base, 0);
    assert_eq!(m.meta.default_word_order, Some(Endianness::Little));

    let bs = frame(&m, "battery_status");
    assert_eq!(bs.register_number, 13019);
    assert_eq!(bs.length, 9);
    assert_eq!(bs.register_type, RegisterType::Input);
    assert_eq!(bs.interval_ms, 10000); // frame tx override

    let soc = signal(bs, "Battery_SoC");
    assert_eq!(soc.start_bit, 48);
    assert_eq!(soc.bit_length, 16);

    // solar_pv has no per-frame interval → meta default (5000).
    assert_eq!(frame(&m, "solar_pv").interval_ms, 5000);
}

#[test]
fn decodes_register_aligned_soc() {
    let m = parse_fixture();
    let bs = frame(&m, "battery_status");
    // 9 registers; Battery_SoC at start_bit 48 = register index 3.
    let mut regs = [0u16; 9];
    regs[3] = 555; // ×0.1 → 55.5 %
    let decoded = decode_block(bs, &regs, &m.meta);
    let soc = decoded.iter().find(|d| d.name == "Battery_SoC").unwrap();
    assert!(same(soc.value, 555, 1));
    assert_eq!(soc.unit.as_deref(), Some("%"));
    // The ascii-free battery_status still skips nothing numeric; the
    // signed temperature decodes too.
    assert!(decoded.iter().any(|d| d.name == "Battery_Temperature"));
}

#[test]
fn decodes_word_swapped_signed_32bit_charging() {
    let m = parse_fixture();
    let bp = frame(&m, "battery_power");
    // -1000 W (charging). S32 = 0xFFFFFC18. Sungrow word order is
    // little (low word first), so registers arrive [low, high].
    let regs = [0xFC18u16, 0xFFFFu16];
    let decoded = decode_block(bp, &regs, &m.meta);
    let p = &decoded[0];
    assert_eq!(p.name, "Battery_Power");
    assert!(same(p.value, -1000, 0));
}

#[test]
fn decodes_word_swapped_unsigned_32bit_discharging() {
    let m = parse_fixture();
    let bp = frame(&m, "battery_power");
    // +2000 W: 0x000007D0 → registers [low=0x07D0, high=0x0000].
    let regs = [0x07D0u16, 0x0000u16];
    let p = &decode_block(bp, &regs, &m.meta)[0];
    assert!(same(p.value, 2000, 0));
}

#[test]
fn decodes_total_dc_power_mid_block() {
    let m = parse_fixture();
    let pv = frame(&m, "solar_pv");
    // length 8; Total_DC_Power at start_bit 96 = register index 6.
    // 5000 W word-swapped → [low=0x1388, high=0x0000] at idx 6,7.
    let mut regs = [0u16; 8];
    regs[0] = 2500; // MPPT1_Voltage ×0.1 = 250.0 V
    regs[6] = 0x1388;
    regs[7] = 0x0000;
    let decoded = decode_block(pv, &regs, &m.meta);
    let dc = decoded.iter().find(|d| d.name == "Total_DC_Power").unwrap();
    assert!(same(dc.value, 5000, 0));
    let v = decoded.iter().find(|d| d.name == "MPPT1_Voltage").unwrap();
    assert!(same(v.value, 250, 0));
}

#[test]
fn ascii_frame_decodes_to_nothing() {
    let m = parse_fixture();
    let v = frame(&m, "version_1");
    let regs = [0x4142u16; 11];
    assert!(decode_block(v, &regs, &m.meta).is_empty());
}

#[test]
fn decodes_non_register_aligned_signal() {
    // A 16-bit signal at start_bit 8 spans the low byte of reg0 and
    // the high byte of reg1 (no word swap; ≤16 bits).
    let toml = r#"
[meta.modbus]
register_base = 0
default_byte_order = "big"

[frame.modbus.misc]
register_number = 100
register_type = "input"
length = 2

[[frame.modbus.misc.signals]]
name = "Spanning"
start_bit = 8
bit_length = 16
"#;
    let m = ModbusManifest::parse(toml).unwrap();
    let f = frame(&m, "misc");
    // regs = [0x00AB, 0xCD00] → bytes 00 AB CD 00 → bits[8..24] = AB CD.
    let regs = [0x00ABu16, 0xCD00u16];
    let d = &decode_block(f, &regs, &m.meta)[0];
    assert!(same(d.value, 0xABCD, 0));
}

#[test]
fn register_base_one_strips_type_prefix() {
    let toml = r#"
[meta.modbus]
register_base = 1

[frame.modbus.cfg]
register_number = 40001
register_type = "holding"
length = 1

[[frame.modbus.cfg.signals]]
name = "X"
start_bit = 0
bit_length = 16
"#;
    let m = ModbusManifest::parse(toml).unwrap();
    let f = frame(&m, "cfg");
    assert_eq!(m.protocol_address(f), 0);
}

#[test]
fn register_base_zero_passes_address_through() {
    let m = parse_fixture();
    let bs = frame(&m, "battery_status");
    assert_eq!(m.protocol_address(bs), 13019);
}

#[test]
fn empty_manifest_is_rejected() {
    assert!(matches!(
        ModbusManifest::parse("[meta.modbus]\nregister_base = 0\n"),
        Err(ManifestError::NoFrames)
    ));
    assert!(matches!(
        ModbusManifest::parse("not = valid = toml ="),
        Err(ManifestError::Toml(_))
    ));
}

// ---------- shorthand: register-from-key ----------

#[test]
fn register_number_derived_from_hex_key() {
    let toml = r#"
[frame.modbus.0x32F9]
register_type = "holding"
length = 1
[[frame.modbus.0x32F9.signals]]
name = "EMS_Mode"
start_bit = 0
bit_length = 16
"#;
    let m = ModbusManifest::parse(toml).unwrap();
    assert_eq!(m.frames[0].register_number, 0x32F9); // 13049
}

#[test]
fn register_number_from_decimal_key_and_explicit_overrides() {
    let toml = r#"
[frame.modbus.13050]
register_type = "holding"
length = 1
[[frame.modbus.13050.signals]]
name = "A"
start_bit = 0
bit_length = 16

[frame.modbus.named]
register_number = 200
register_type = "holding"
length = 1
[[frame.modbus.named.signals]]
name = "B"
start_bit = 0
bit_length = 16
"#;
    let m = ModbusManifest::parse(toml).unwrap();
    assert_eq!(frame(&m, "13050").register_number, 13050);
    // Explicit register_number wins even when the key isn't numeric.
    assert_eq!(frame(&m, "named").register_number, 200);
}

#[test]
fn non_numeric_key_without_register_number_errors() {
    let toml = r#"
[frame.modbus.battery_status]
register_type = "input"
length = 1
[[frame.modbus.battery_status.signals]]
name = "A"
start_bit = 0
bit_length = 16
"#;
    assert!(matches!(
        ModbusManifest::parse(toml),
        Err(ManifestError::BadRegister(name)) if name == "battery_status"
    ));
}

// ---------- shorthand: signal-less register ----------

#[test]
fn signal_less_register_synthesises_full_width_signal() {
    // A register that IS a single scaled value — no [[signals]] block.
    let toml = r#"
[meta.modbus]
default_byte_order = "big"

[frame.modbus.0x138F]
register_type = "input"
length = 1
name = "Inverter_Temperature"
factor = 0.1
unit = "°C"
"#;
    let m = ModbusManifest::parse(toml).unwrap();
    let f = &m.frames[0];
    assert_eq!(f.register_number, 0x138F);
    assert_eq!(f.signals.len(), 1);
    let s = &f.signals[0];
    assert_eq!(s.name, "Inverter_Temperature");
    assert_eq!(s.start_bit, 0);
    assert_eq!(s.bit_length, 16);
    // 0x0199 = 409 ×0.1 = 40.9.
    let d = &decode_block(f, &[0x0199], &m.meta)[0];
    assert!(same(d.value, 409, 1));
    assert_eq!(d.unit.as_deref(), Some("°C"));
}

#[test]
fn scaled_value_stringifies_without_float_artifacts() {
    // f64 `3374 * 0.1` is 337.40000000000003, which
    // stringifies with binary-float noise. Decimal scaling is exact, so
    // the entity state the addon stores reads cleanly.
    let toml = r#"
[frame.modbus.0x138F]
register_type = "input"
length = 1
name = "MPPT_Voltage"
factor = 0.1
unit = "V"
"#;
    let m = ModbusManifest::parse(toml).unwrap();
    let d = &decode_block(&m.frames[0], &[3374], &m.meta)[0];
    assert!(same(d.value, 3374, 1));
    assert_eq!(format_decimal(d.value), "337.4");
}

#[test]
fn signal_less_ascii_register_spans_block_and_skips_decode() {
    let toml = r#"
[frame.modbus.0x1359]
register_type = "input"
length = 11
name = "ARM_Software_Version"
format = "ascii"
"#;
    let m = ModbusManifest::parse(toml).unwrap();
    let f = &m.frames[0];
    assert_eq!(f.signals.len(), 1);
    assert_eq!(f.signals[0].bit_length, 11 * 16);
    assert_eq!(f.signals[0].format, Some(SignalFormat::Ascii));
    // String formats are skipped by the numeric decoder.
    assert!(decode_block(f, &[0x4142u16; 11], &m.meta).is_empty());
}

#[test]
fn bare_register_block_without_fields_stays_signal_less() {
    // No signals AND no frame-level fields → still zero signals (raw block).
    let toml = r#"
[frame.modbus.0x100]
register_type = "input"
length = 2
"#;
    let m = ModbusManifest::parse(toml).unwrap();
    assert!(m.frames[0].signals.is_empty());
}

#[test]
fn combined_shorthands_key_and_signal_less() {
    // Both at once: register from the key, value from frame-level fields.
    let toml = r#"
[frame.modbus.0x145D]
register_type = "input"
length = 1
name = "Battery_Power"
signed = true
unit = "W"
"#;
    let m = ModbusManifest::parse(toml).unwrap();
    let f = &m.frames[0];
    assert_eq!(f.register_number, 0x145D);
    assert_eq!(f.signals.len(), 1);
    assert!(f.signals[0].signed);
    // 0xFF69 as signed 16-bit = -151.
    let d = &decode_block(f, &[0xFF69], &m.meta)[0];
    assert!(same(d.value, -151, 0));
}

#[test]
fn parses_disabled_frame_flag() {
    let toml = r#"
[frame.modbus.a]
register_number = 100
register_type = "input"
length = 1
disabled = true

[frame.modbus.b]
register_number = 200
register_type = "input"
length = 1
"#;
    let m = ModbusManifest::parse(toml).unwrap();
    assert!(frame(&m, "a").disabled);
    assert!(!frame(&m, "b").disabled); // default
}

#[test]
fn set_frame_disabled_toggles_and_preserves_comments() {
    let toml = r#"# top comment
[frame.modbus.a]
register_number = 100  # inline
register_type = "input"
length = 1

[frame.modbus.b]
register_number = 200
register_type = "input"
length = 1
"#;
    // Disable: flag added under frame a; comments + frame b untouched.
    let disabled = set_frame_disabled(toml, "a", true).unwrap();
    assert!(disabled.contains("# top comment"));
    assert!(disabled.contains("# inline"));
    assert!(disabled.contains("disabled = true"));
    let m = ModbusManifest::parse(&disabled).unwrap();
    assert!(frame(&m, "a").disabled);
    assert!(!frame(&m, "b").disabled);

    // Re-enable: the key is removed, not set to false.
    let enabled = set_frame_disabled(&disabled, "a", false).unwrap();
    assert!(!enabled.contains("disabled"));
    assert!(!ModbusManifest::parse(&enabled).unwrap().frames[0].disabled);

    // Unknown frame is an error.
    assert!(set_frame_disabled(toml, "missing", true).is_err());
}

// ---------- write/encode ----------

const WRITE_FIXTURE: &str = r#"
[meta.modbus]
register_base = 0
default_byte_order = "big"
default_word_order = "little"

[frame.modbus.ems_control]
register_number = 13049
register_type = "holding"
length = 3
tx.interval_ms = 30000

[[frame.modbus.ems_control.signals]]
name = "EMS_Mode"
start_bit = 0
bit_length = 16
[frame.modbus.ems_control.signals.enum]
0 = "self_consume"
2 = "forced"

[[frame.modbus.ems_control.signals]]
name = "Forced_Charge_Discharge_Cmd"
start_bit = 16
bit_length = 16
format = "enum"
[frame.modbus.ems_control.signals.enum]
170 = "charge"
187 = "discharge"
204 = "stop"

[[frame.modbus.ems_control.signals]]
name = "Forced_Charge_Discharge_Power"
start_bit = 32
bit_length = 16
unit = "W"

[frame.modbus.battery_power_limits]
register_number = 33046
register_type = "holding"
length = 2

[[frame.modbus.battery_power_limits.signals]]
name = "Battery_Max_Charge_Power"
start_bit = 0
bit_length = 16
factor = 10
unit = "W"

[frame.modbus.wide]
register_number = 100
register_type = "holding"
length = 2

[[frame.modbus.wide.signals]]
name = "Wide_Signed"
start_bit = 0
bit_length = 32
signed = true

[frame.modbus.readonly_block]
register_number = 5213
register_type = "input"
length = 2

[[frame.modbus.readonly_block.signals]]
name = "Battery_Power"
start_bit = 0
bit_length = 32
signed = true
unit = "W"
"#;

fn write_manifest() -> ModbusManifest {
    ModbusManifest::parse(WRITE_FIXTURE).expect("write fixture parses")
}

fn wsig<'a>(m: &'a ModbusManifest, name: &str) -> (&'a ModbusFrame, &'a ModbusSignal) {
    m.find_write_signal(name)
        .unwrap_or_else(|| panic!("write signal {name} present"))
}

#[test]
fn parses_enum_map_and_still_decodes_numeric() {
    let m = write_manifest();
    let (_, ems) = wsig(&m, "EMS_Mode");
    let map = ems.enum_map.as_ref().expect("enum map");
    assert_eq!(label(map, "0"), Some("self_consume"));
    assert_eq!(label(map, "2"), Some("forced"));
    // A `format = "enum"` signal still decodes to its numeric value so
    // its readback entity persists.
    let (frame, _) = wsig(&m, "Forced_Charge_Discharge_Cmd");
    let regs = [0u16, 204, 0]; // cmd register = 204 ("stop")
    let decoded = decode_block(frame, &regs, &m.meta);
    let cmd = decoded
        .iter()
        .find(|d| d.name == "Forced_Charge_Discharge_Cmd")
        .expect("enum signal decodes");
    assert!(same(cmd.value, 204, 0));
}

fn reg(address: u16, value: u16) -> ModbusWrite {
    ModbusWrite {
        address,
        value,
        mask: 0xffff,
    }
}

#[test]
fn encode_enum_resolves_canonical_name() {
    let m = write_manifest();
    let (f, s) = wsig(&m, "Forced_Charge_Discharge_Cmd");
    assert_eq!(
        encode_enum(&m, f, s, "charge").unwrap(),
        vec![reg(13050, 170)]
    );
    assert_eq!(
        encode_enum(&m, f, s, "stop").unwrap(),
        vec![reg(13050, 204)]
    );
}

#[test]
fn encode_signal_applies_scale_and_address_offset() {
    let m = write_manifest();
    // Forced power: register 13049 + start_bit 32/16 = 13051, factor 1.
    let (f, s) = wsig(&m, "Forced_Charge_Discharge_Power");
    assert_eq!(
        encode_value(&m, f, s, 3000.0).unwrap(),
        vec![reg(13051, 3000)]
    );
    // Max charge: 33046, W/10 (factor 10) → 5000 W encodes to 500.
    let (f, s) = wsig(&m, "Battery_Max_Charge_Power");
    assert_eq!(
        encode_value(&m, f, s, 5000.0).unwrap(),
        vec![reg(33046, 500)]
    );
}

#[test]
fn encode_decode_round_trips_signed_32bit_word_swapped() {
    let m = write_manifest();
    let (f, s) = wsig(&m, "Wide_Signed");
    let writes = encode_value(&m, f, s, -1000.0).unwrap();
    assert_eq!(writes.len(), 2);
    assert_eq!(writes[0].address, 100);
    assert_eq!(writes[1].address, 101);
    // Round-trip the written register block through the decoder.
    let regs: Vec<u16> = writes.iter().map(|w| w.value).collect();
    let decoded = decode_block(f, &regs, &m.meta);
    assert!(same(decoded[0].value, -1000, 0));
}

#[test]
fn encode_clamps_to_bit_width() {
    let m = write_manifest();
    let (f, s) = wsig(&m, "Forced_Charge_Discharge_Power"); // u16
    assert_eq!(encode_value(&m, f, s, -50.0).unwrap(), vec![reg(13051, 0)]);
    assert_eq!(
        encode_value(&m, f, s, 1_000_000.0).unwrap(),
        vec![reg(13051, 65535)]
    );
}

#[test]
fn encode_single_register_bitfield_is_masked() {
    // A 4-bit field at start_bit 4 of a holding register → masked write.
    let toml = r#"
[frame.modbus.flags]
register_number = 200
register_type = "holding"
length = 1

[[frame.modbus.flags.signals]]
name = "Nibble"
start_bit = 4
bit_length = 4
"#;
    let m = ModbusManifest::parse(toml).unwrap();
    let (f, s) = m.find_write_signal("Nibble").unwrap();
    // value 0b1010 = 10, field at bits [4,8) from the MSB → shift 8.
    let w = encode_value(&m, f, s, 10.0).unwrap();
    assert_eq!(
        w,
        vec![ModbusWrite {
            address: 200,
            value: 0x0A00,
            mask: 0x0F00
        }]
    );
}

#[test]
fn merge_combines_bitfields_and_rejects_overlap() {
    let a = ModbusWrite {
        address: 5,
        value: 0x0A00,
        mask: 0x0F00,
    };
    let b = ModbusWrite {
        address: 5,
        value: 0x000B,
        mask: 0x000F,
    };
    // Disjoint bit-fields in one register merge into a single write.
    let merged = merge_register_writes(vec![a, b]).unwrap();
    assert_eq!(
        merged,
        vec![ModbusWrite {
            address: 5,
            value: 0x0A0B,
            mask: 0x0F0F
        }]
    );
    // Overlapping masks are a conflict.
    let c = ModbusWrite {
        address: 5,
        value: 0x0100,
        mask: 0x0F00,
    };
    assert!(merge_register_writes(vec![a, c]).is_err());
}

#[test]
fn group_contiguous_runs_and_preserves_order() {
    // 13049,13050,13051 contiguous → one run; 13073 a separate run; order
    // kept (13086 before 13073 stays two runs in that order).
    let writes = vec![
        reg(13049, 2),
        reg(13050, 170),
        reg(13051, 3000),
        reg(13086, 1),
        reg(13073, 0),
    ];
    let runs = group_contiguous(&writes);
    assert_eq!(runs.len(), 3);
    assert_eq!(
        runs[0].iter().map(|w| w.address).collect::<Vec<_>>(),
        vec![13049, 13050, 13051]
    );
    assert_eq!(runs[1], vec![reg(13086, 1)]);
    assert_eq!(runs[2], vec![reg(13073, 0)]);
}

#[test]
fn encode_rejects_read_only_and_unknown_enum() {
    let m = write_manifest();
    // A signal that only exists in an input frame isn't a write target.
    assert!(m.find_write_signal("Battery_Power").is_none());
    let (f, s) = wsig(&m, "Forced_Charge_Discharge_Cmd");
    assert_eq!(
        encode_enum(&m, f, s, "frobnicate").unwrap_err(),
        EncodeError::UnknownEnumName {
            name: "Forced_Charge_Discharge_Cmd".into(),
            value: "frobnicate".into(),
        }
    );
}

#[test]
fn write_signal_options_carry_register_and_list_writable_only() {
    let opts = write_manifest().write_signal_options();
    let reg = |name: &str| opts.iter().find(|(n, _)| n == name).map(|(_, r)| *r);
    // ems_control @ 13049: EMS_Mode @ +0, Forced_Cmd @ +1 (start_bit 16).
    assert_eq!(reg("EMS_Mode"), Some(13049));
    assert_eq!(reg("Forced_Charge_Discharge_Cmd"), Some(13050));
    // battery_power_limits @ 33046.
    assert_eq!(reg("Battery_Max_Charge_Power"), Some(33046));
    // Input-frame signals aren't offered (read-only).
    assert_eq!(reg("Battery_Power"), None);
    // Register-sorted.
    assert!(opts.windows(2).all(|w| w[0].1 <= w[1].1));
}

#[test]
fn write_signal_enums_lists_only_enum_signals_value_sorted() {
    let m = write_manifest();
    let enums = m.write_signal_enums();
    let get = |name: &str| {
        enums
            .iter()
            .find(|(n, _)| n == name)
            .map(|(_, e)| e.clone())
    };
    // The enum command register, value-sorted.
    assert_eq!(
        get("Forced_Charge_Discharge_Cmd"),
        Some(vec![
            ("charge".into(), 170),
            ("discharge".into(), 187),
            ("stop".into(), 204),
        ])
    );
    // A plain numeric signal has no enum entry.
    assert_eq!(get("Forced_Charge_Discharge_Power"), None);
}
