//! Modbus function codes and limits.

use wiretap::model::RegisterType;
use wiretap::protocol::{
    function_name, MAX_COILS_PER_READ, MAX_REGISTERS_PER_READ,
};

#[test]
fn function_codes_round_trip_through_their_bank() {
    for rt in [
        RegisterType::Coil,
        RegisterType::Discrete,
        RegisterType::Holding,
        RegisterType::Input,
    ] {
        assert_eq!(
            RegisterType::from_function_code(rt.read_function_code()),
            Some(rt)
        );
    }
}

#[test]
fn an_exception_resolves_to_the_bank_its_request_asked_for() {
    assert_eq!(
        RegisterType::from_function_code(0x83),
        Some(RegisterType::Holding)
    );
    assert_eq!(
        RegisterType::from_function_code(0x81),
        Some(RegisterType::Coil)
    );
}

#[test]
fn write_codes_map_to_their_bank() {
    for (func, bank) in [
        (0x05, RegisterType::Coil),
        (0x0F, RegisterType::Coil),
        (0x06, RegisterType::Holding),
        (0x10, RegisterType::Holding),
    ] {
        assert_eq!(RegisterType::from_function_code(func), Some(bank));
    }
}

#[test]
fn unmodelled_codes_have_no_bank_and_no_name() {
    // 0x07 (Read Exception Status), 0x14 (Read File Record) and 0x2B
    // (Encapsulated Transport) are real codes that address no bank.
    for func in [0x00, 0x07, 0x14, 0x2B] {
        assert_eq!(RegisterType::from_function_code(func), None);
        assert_eq!(function_name(func), None);
    }
}

#[test]
fn only_writable_banks_have_a_write_cap() {
    for rt in [
        RegisterType::Coil,
        RegisterType::Discrete,
        RegisterType::Holding,
        RegisterType::Input,
    ] {
        assert_eq!(rt.max_per_write().is_some(), rt.is_writable());
    }
}

#[test]
fn coils_pack_eight_to_a_byte_and_registers_take_two() {
    assert_eq!(RegisterType::Holding.data_bytes(10), 20);
    assert_eq!(RegisterType::Input.data_bytes(1), 2);
    assert_eq!(RegisterType::Coil.data_bytes(8), 1);
    // A partial byte still costs a whole one.
    assert_eq!(RegisterType::Coil.data_bytes(9), 2);
    assert_eq!(RegisterType::Discrete.data_bytes(0), 0);
}

#[test]
fn caps_match_the_bank_they_describe() {
    assert_eq!(RegisterType::Holding.max_per_read(), MAX_REGISTERS_PER_READ);
    assert_eq!(RegisterType::Input.max_per_read(), MAX_REGISTERS_PER_READ);
    assert_eq!(RegisterType::Coil.max_per_read(), MAX_COILS_PER_READ);
    assert_eq!(RegisterType::Discrete.max_per_read(), MAX_COILS_PER_READ);
}
