//! Modbus wire-protocol facts: what a request may ask for, and which bank a
//! function code speaks to.
//!
//! These are properties of Modbus itself, not of any catalogue, and every layer
//! that talks to a device needs them — the RTU reassembler to judge whether a
//! candidate message contradicts itself, a poller to size a read, a scanner to
//! clamp a chunk. This is the one place the numbers and the function-code table
//! appear.

use crate::model::RegisterType;
use vstd::prelude::*;

verus! {

/// Longest Modbus RTU message: address + function + byte count + 252 data + CRC.
pub const MAX_RTU_LEN: usize = 256;

/// Largest data block any read or write carries: 125 registers, or 2000 coils
/// packed eight to a byte.
pub const MAX_DATA_BYTES: usize = 250;

/// What one Modbus request may read or write. A message claiming more than this
/// contradicts itself, whatever its CRC says, and a read asking for more than
/// this is one the device is entitled to refuse.
pub const MAX_REGISTERS_PER_READ: u16 = 125;

pub const MAX_COILS_PER_READ: u16 = 2000;

pub const MAX_REGISTERS_PER_WRITE: u16 = 123;

pub const MAX_COILS_PER_WRITE: u16 = 1968;

/// The name of a function code, where this library models it.
pub open spec fn function_title(function: u8) -> Option<Seq<char>> {
    match function {
        0x01 => Some("Read Coils"@),
        0x02 => Some("Read Discrete Inputs"@),
        0x03 => Some("Read Holding Registers"@),
        0x04 => Some("Read Input Registers"@),
        0x05 => Some("Write Single Coil"@),
        0x06 => Some("Write Single Register"@),
        0x0F => Some("Write Multiple Coils"@),
        0x10 => Some("Write Multiple Registers"@),
        _ => None,
    }
}

/// The name of a Modbus function code, or `None` for one this library does not
/// model. Bare names: how they are presented — with the code, translated, or at
/// all — is the caller's business.
pub fn function_name(function: u8) -> (r: Option<&'static str>)
    ensures
        r is Some <==> function_title(function) is Some,
        r matches Some(name) ==> function_title(function) == Some(name@),
{
    match function {
        0x01 => Some("Read Coils"),
        0x02 => Some("Read Discrete Inputs"),
        0x03 => Some("Read Holding Registers"),
        0x04 => Some("Read Input Registers"),
        0x05 => Some("Write Single Coil"),
        0x06 => Some("Write Single Register"),
        0x0F => Some("Write Multiple Coils"),
        0x10 => Some("Write Multiple Registers"),
        _ => None,
    }
}

/// The bank a function code addresses. The high bit marks an exception and is
/// set aside, so an exception resolves to the bank its request asked for.
pub open spec fn bank_of(function: u8) -> Option<RegisterType> {
    let code = function % 128;
    if code == 0x01 || code == 0x05 || code == 0x0F {
        Some(RegisterType::Coil)
    } else if code == 0x02 {
        Some(RegisterType::Discrete)
    } else if code == 0x03 || code == 0x06 || code == 0x10 {
        Some(RegisterType::Holding)
    } else if code == 0x04 {
        Some(RegisterType::Input)
    } else {
        None
    }
}

/// The function-code half of [`RegisterType`]. Kept beside the wire constants
/// rather than with the bank semantics in [`crate::model`], because it is the
/// same table the caps below are chosen from.
impl RegisterType {
    /// The most one request may read of the bank.
    pub open spec fn read_cap(self) -> u16 {
        if self.holds_registers() {
            MAX_REGISTERS_PER_READ
        } else {
            MAX_COILS_PER_READ
        }
    }

    /// The most one request may write of the bank, where it can be written.
    pub open spec fn write_cap(self) -> Option<u16> {
        match self {
            RegisterType::Holding => Some(MAX_REGISTERS_PER_WRITE),
            RegisterType::Coil => Some(MAX_COILS_PER_WRITE),
            RegisterType::Input | RegisterType::Discrete => None,
        }
    }

    /// How many bytes `quantity` of the bank take on the wire: two for each
    /// register, or one for every eight bits begun.
    pub open spec fn wire_bytes(self, quantity: int) -> int {
        if self.holds_registers() {
            quantity * 2
        } else {
            (quantity + 7) / 8
        }
    }

    /// The function code that reads the bank.
    pub open spec fn read_code(self) -> u8 {
        match self {
            RegisterType::Coil => 0x01,
            RegisterType::Discrete => 0x02,
            RegisterType::Holding => 0x03,
            RegisterType::Input => 0x04,
        }
    }

    /// Which bank a function code reads or writes, or `None` for a code that
    /// addresses no register bank (diagnostics, file records, and anything not
    /// modelled here). The high bit is masked first, so an exception response
    /// resolves to the bank its request asked for.
    pub fn from_function_code(function: u8) -> (r: Option<RegisterType>)
        ensures
            r == bank_of(function),
    {
        match function % 128 {
            0x01 | 0x05 | 0x0F => Some(RegisterType::Coil),
            0x02 => Some(RegisterType::Discrete),
            0x03 | 0x06 | 0x10 => Some(RegisterType::Holding),
            0x04 => Some(RegisterType::Input),
            _ => None,
        }
    }

    /// The function code that reads this bank.
    pub fn read_function_code(self) -> (r: u8)
        ensures
            r == self.read_code(),
    {
        match self {
            RegisterType::Coil => 0x01,
            RegisterType::Discrete => 0x02,
            RegisterType::Holding => 0x03,
            RegisterType::Input => 0x04,
        }
    }

    /// How many of this bank one request may read. Coils pack eight to a byte,
    /// so far more of them fit in the same data block.
    pub fn max_per_read(self) -> (r: u16)
        ensures
            r == self.read_cap(),
    {
        if self.is_register_bank() {
            MAX_REGISTERS_PER_READ
        } else {
            MAX_COILS_PER_READ
        }
    }

    /// How many data bytes `quantity` of this bank occupies on the wire.
    /// Register banks take two bytes each; coil banks pack eight to a byte.
    pub fn data_bytes(self, quantity: u16) -> (r: usize)
        ensures
            r == self.wire_bytes(quantity as int),
    {
        if self.is_register_bank() {
            quantity as usize * 2
        } else {
            (quantity as usize + 7) / 8
        }
    }

    /// How many of this bank one request may write, or `None` for a read-only
    /// bank. Lower than the read cap: a write request spends header bytes on the
    /// quantity and byte count that a read response does not.
    pub fn max_per_write(self) -> (r: Option<u16>)
        ensures
            r == self.write_cap(),
    {
        match self {
            RegisterType::Holding => Some(MAX_REGISTERS_PER_WRITE),
            RegisterType::Coil => Some(MAX_COILS_PER_WRITE),
            RegisterType::Input | RegisterType::Discrete => None,
        }
    }
}

/// The code that reads a bank addresses that bank.
pub proof fn law_read_codes_round_trip(bank: RegisterType)
    ensures
        bank_of(bank.read_code()) == Some(bank),
{
}

/// An exception resolves to the bank of the request it answers.
pub proof fn law_exceptions_keep_their_bank(function: u8)
    requires
        function < 128,
    ensures
        bank_of((function + 128) as u8) == bank_of(function),
{
}

/// Exactly the writable banks have a write cap.
pub proof fn law_write_caps_mark_writable_banks(bank: RegisterType)
    ensures
        bank.write_cap() is Some <==> bank.accepts_writes(),
{
}

/// A full read of any bank fits in the largest data block, and so does a full
/// write of a bank that takes one.
pub proof fn law_caps_fit_a_data_block(bank: RegisterType)
    ensures
        bank.wire_bytes(bank.read_cap() as int) <= MAX_DATA_BYTES,
        bank.write_cap() matches Some(cap) ==> bank.wire_bytes(cap as int) <= MAX_DATA_BYTES,
{
}

} // verus!
