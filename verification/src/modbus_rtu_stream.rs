//! Modbus RTU reassembly: recovering messages from a byte stream, whether it
//! arrives on a serial port or chopped across consecutive frames.
//!
//! There is no transport header — no sequence numbers, no length prefix, no
//! first/consecutive frame distinction. Message boundaries come from the Modbus
//! RTU length rules alone, gated by CRC-16/Modbus. A CRC failure usually means
//! "the rest hasn't arrived yet", so the reassembler waits until the buffer is
//! provably longer than any candidate before dropping a byte.
//!
//! [`ModbusRtuStream::push`] counts frames, [`ModbusRtuStream::push_bytes`] does
//! not, and [`ModbusRtuStream::interpret`] takes a boundary somebody else
//! already found. [`CrcPolicy::Lenient`] relaxes the CRC gate for a line whose
//! CRCs cannot be trusted; see its docs for the cost.

use crate::algorithms::crc16_modbus_valid;
use crate::model::{FrameTunnel, RegisterType};
use crate::protocol::{MAX_DATA_BYTES, MAX_RTU_LEN};
use vstd::prelude::*;

verus! {

/// Which side of the exchange a message came from.
#[derive(Debug, Clone, Copy, PartialEq, Eq, Structural)]
pub enum Direction {
    Request,
    Response,
}

impl Direction {
    /// The lowercase tag of the direction.
    pub open spec fn tag(self) -> Seq<char> {
        match self {
            Direction::Request => "request"@,
            Direction::Response => "response"@,
        }
    }

    pub fn as_str(self) -> (r: &'static str)
        ensures
            r@ == self.tag(),
    {
        match self {
            Direction::Request => "request",
            Direction::Response => "response",
        }
    }
}

/// What a boundary that fails its CRC is worth.
#[derive(Debug, Clone, Copy, PartialEq, Eq, Structural)]
pub enum CrcPolicy {
    /// Only a CRC-valid boundary is a message. A stream is never guessed at.
    Strict,
    /// A CRC-valid boundary still wins outright; only where [`CrcPolicy::Strict`]
    /// would give up and drop a byte does this emit the longest *structurally
    /// plausible* candidate instead, flagged `crc_valid: false`. On a stream
    /// whose CRCs are correct the two policies are identical.
    ///
    /// For a device with a broken CRC, or a line dropping bytes — the cases
    /// where strict framing shows nothing at all. The cost is real: with no
    /// declared `device_address` on a genuinely noisy line this will fabricate
    /// messages out of anything shaped like an address and a function code, and
    /// a fabricated request updates the outstanding-request state, so it can
    /// mis-pair the message after it. The `crc_valid` flag on every message is
    /// what keeps that honest.
    Lenient,
}

impl Default for CrcPolicy {
    fn default() -> (r: Self)
        ensures
            r == CrcPolicy::Strict,
    {
        CrcPolicy::Strict
    }
}

/// One complete Modbus RTU message recovered from the stream. CRC-validated
/// unless [`CrcPolicy::Lenient`] is in force — check `crc_valid`.
#[derive(Debug, Clone, PartialEq)]
pub struct ModbusRtuMessage {
    pub direction: Direction,
    pub device_address: u8,
    pub function: u8,
    /// First register. Present on requests and on write responses, which echo
    /// it; a read response carries only data, so this is filled in from the
    /// request it answers.
    pub start_register: Option<u16>,
    /// Register/coil count. Same provenance as `start_register`.
    pub quantity: Option<u16>,
    /// Register values, for messages that carry a data block.
    pub registers: Vec<u16>,
    /// Exception code, when the function code had its high bit set.
    pub exception: Option<u8>,
    /// The reassembled message, CRC included.
    pub raw: Vec<u8>,
    /// Whether the trailing CRC matches the body. Only ever false under
    /// [`CrcPolicy::Lenient`], where the boundary came from the length rules
    /// alone.
    pub crc_valid: bool,
    /// How many frames contributed bytes to this message. Always 1 for a
    /// message recovered from a raw byte stream or handed over already framed.
    pub frame_count: u32,
}

/// What a message says, as a mathematical value.
#[verifier::ext_equal]
pub struct MessageView {
    pub body: Body,
    pub device_address: u8,
    pub function: u8,
    pub raw: Seq<u8>,
    pub crc_valid: bool,
    pub frame_count: u32,
}

/// The part of a message that its layout and the outstanding request decide.
#[verifier::ext_equal]
pub struct Body {
    pub direction: Direction,
    pub start_register: Option<u16>,
    pub quantity: Option<u16>,
    pub registers: Seq<u16>,
    pub exception: Option<u8>,
}

impl View for ModbusRtuMessage {
    type V = MessageView;

    open spec fn view(&self) -> MessageView {
        MessageView {
            body: Body {
                direction: self.direction,
                start_register: self.start_register,
                quantity: self.quantity,
                registers: self.registers@,
                exception: self.exception,
            },
            device_address: self.device_address,
            function: self.function,
            raw: self.raw@,
            crc_valid: self.crc_valid,
            frame_count: self.frame_count,
        }
    }
}

/// What each of a list of messages says.
pub open spec fn said(messages: Seq<ModbusRtuMessage>) -> Seq<MessageView> {
    messages.map_values(|m: ModbusRtuMessage| m@)
}

/// Registers as big-endian bytes, high byte of each first.
pub open spec fn big_endian_bytes(registers: Seq<u16>) -> Seq<u8>
    decreases registers.len(),
{
    if registers.len() == 0 {
        Seq::empty()
    } else {
        big_endian_bytes(registers.drop_last()) + seq![
            (registers.last() / 256) as u8,
            (registers.last() % 256) as u8,
        ]
    }
}

/// Modbus registers to a big-endian byte buffer (MSB first per register), the
/// standard on-wire order.
pub fn registers_to_bytes(registers: &[u16]) -> (r: Vec<u8>)
    ensures
        r@ == big_endian_bytes(registers@),
{
    let mut bytes: Vec<u8> = Vec::new();
    for i in 0..registers.len()
        invariant
            bytes@ == big_endian_bytes(registers@.take(i as int)),
    {
        let register: u16 = registers[i];
        bytes.push((register / 256) as u8);
        bytes.push((register % 256) as u8);
        assert(registers@.take(i + 1).drop_last() == registers@.take(i as int));
    }
    assert(registers@.take(registers@.len() as int) == registers@);
    bytes
}

impl ModbusRtuMessage {
    /// The register block as big-endian bytes, for [`crate::decode`].
    pub fn register_bytes(&self) -> (r: Vec<u8>)
        ensures
            r@ == big_endian_bytes(self.registers@),
    {
        registers_to_bytes(self.registers.as_slice())
    }
}

/// Buffer ceiling. Two full messages of slack is enough to hold a
/// request/response pair mid-reassembly; past that the stream is desynced and
/// holding more bytes only delays recovery.
pub const MAX_BUFFER: usize = 512;

/// A candidate message layout at the head of the buffer.
#[derive(Debug, Clone, Copy, PartialEq, Eq, Structural)]
pub struct Candidate {
    pub len: usize,
    pub direction: Direction,
}

// ---------------------------------------------------------------------------
// The length rules
// ---------------------------------------------------------------------------

/// Whether a byte can start a message: the address to sync on, or any valid
/// slave address where none was given.
pub open spec fn address_accepts(address: Option<u8>, byte: u8) -> bool {
    match address {
        Some(a) => byte == a,
        None => 1 <= byte <= 247,
    }
}

pub open spec fn is_read(function: u8) -> bool {
    1 <= function <= 4
}

pub open spec fn is_write_single(function: u8) -> bool {
    function == 0x05 || function == 0x06
}

pub open spec fn is_write_multiple(function: u8) -> bool {
    function == 0x0F || function == 0x10
}

pub open spec fn is_exception(function: u8) -> bool {
    function >= 0x80
}

pub open spec fn request_of(len: int) -> Candidate {
    Candidate { len: len as usize, direction: Direction::Request }
}

pub open spec fn response_of(len: int) -> Candidate {
    Candidate { len: len as usize, direction: Direction::Response }
}

/// The layouts the head of a buffer may have, longest first; a request comes
/// before a response of the same length. A length that a byte count decides is
/// offered once that byte has arrived.
pub open spec fn layouts(head: Seq<u8>) -> Seq<Candidate> {
    let function = head[1];
    if is_exception(function) {
        seq![response_of(5)]
    } else if is_read(function) {
        if head.len() <= 2 {
            seq![request_of(8)]
        } else if 5 + head[2] > 8 {
            seq![response_of(5 + head[2]), request_of(8)]
        } else {
            seq![request_of(8), response_of(5 + head[2])]
        }
    } else if is_write_single(function) {
        seq![request_of(8)]
    } else if is_write_multiple(function) {
        if head.len() <= 6 {
            seq![response_of(8)]
        } else {
            seq![request_of(9 + head[6]), response_of(8)]
        }
    } else {
        Seq::empty()
    }
}

/// The first layout that passes a test. There are never more than two.
pub open spec fn pick(candidates: Seq<Candidate>, test: spec_fn(Candidate) -> bool) -> Option<
    Candidate,
> {
    if candidates.len() > 0 && test(candidates[0]) {
        Some(candidates[0])
    } else if candidates.len() > 1 && test(candidates[1]) {
        Some(candidates[1])
    } else {
        None
    }
}

/// The 16-bit big-endian value at `i`.
pub open spec fn be16(bytes: Seq<u8>, i: int) -> u16 {
    (bytes[i] * 256 + bytes[i + 1]) as u16
}

/// Whether a layout agrees with the header bytes that have arrived: an
/// exception code that exists, a quantity the bank can serve, a data block of
/// whole registers, a byte count that matches its quantity.
pub open spec fn plausible(head: Seq<u8>, c: Candidate) -> bool {
    let function = head[1];
    if is_exception(function) {
        head.len() > 2 ==> 1 <= head[2] <= 0x0B
    } else if is_read(function) && c.direction is Request {
        head.len() >= 6 ==> 1 <= be16(head, 4) <= crate::protocol::bank_of(
            function,
        )->Some_0.read_cap()
    } else if is_read(function) {
        head.len() > 2 ==> {
            &&& 1 <= head[2] <= MAX_DATA_BYTES
            &&& crate::protocol::bank_of(function)->Some_0.holds_registers() ==> head[2] % 2 == 0
        }
    } else if is_write_multiple(function) && c.direction is Request {
        let bank = crate::protocol::bank_of(function)->Some_0;
        head.len() > 6 ==> {
            &&& 1 <= be16(head, 4) <= bank.write_cap()->Some_0
            &&& head[6] == bank.wire_bytes(be16(head, 4) as int)
        }
    } else {
        true
    }
}

/// Big-endian `u16` at `i`.
pub(crate) fn be(raw: &[u8], i: usize) -> (r: u16)
    requires
        i + 1 < raw@.len(),
    ensures
        r == be16(raw@, i as int),
{
    raw[i] as u16 * 256 + raw[i + 1] as u16
}

/// Candidate layouts for the function code at the head of `buf`, longest first.
///
/// There are never more than two. Lengths a `byte_count` decides are only
/// offered once that byte has arrived. Reads are an 8-byte request, or a
/// `5 + byte_count` response. For FC03/04 the two cannot collide, because a
/// register byte count is even. For FC01/02 they can: 17..=24 coils pack into 3
/// bytes, making an 8-byte response. The tie goes to the request.
pub(crate) fn candidates(buf: &[u8]) -> (r: (Option<Candidate>, Option<Candidate>))
    requires
        buf@.len() >= 2,
    ensures
        layouts(buf@) == (match r {
            (Some(a), Some(b)) => seq![a, b],
            (Some(a), None) => seq![a],
            _ => Seq::empty(),
        }),
        r.0 is None ==> r.1 is None,
{
    let function: u8 = buf[1];
    if function >= 0x80 {
        // Exception: address, function, code, CRC.
        (Some(Candidate { len: 5, direction: Direction::Response }), None)
    } else if 1 <= function && function <= 4 {
        let request = Candidate { len: 8, direction: Direction::Request };
        if buf.len() <= 2 {
            (Some(request), None)
        } else {
            let response = Candidate { len: 5 + buf[2] as usize, direction: Direction::Response };
            if response.len > request.len {
                (Some(response), Some(request))
            } else {
                (Some(request), Some(response))
            }
        }
    } else if function == 0x05 || function == 0x06 {
        // Write single coil/register: request and response are identical.
        (Some(Candidate { len: 8, direction: Direction::Request }), None)
    } else if function == 0x0F || function == 0x10 {
        // Write multiple: `9 + byte_count` request, 8-byte response.
        let response = Candidate { len: 8, direction: Direction::Response };
        if buf.len() <= 6 {
            (Some(response), None)
        } else {
            (
                Some(Candidate { len: 9 + buf[6] as usize, direction: Direction::Request }),
                Some(response),
            )
        }
    } else {
        (None, None)
    }
}

/// Whether a candidate's own header is self-consistent — the only evidence left
/// when the CRC has already failed to vouch for it.
///
/// Used for two things: deciding which candidates earn the "wait for a longer
/// one" rule, and gating what [`CrcPolicy::Lenient`] is willing to guess.
/// Without it, line noise fabricates a message out of every byte pair that looks
/// like an address and a function code.
///
/// Only checks what the wire format guarantees independently of the CRC, so a
/// real message can never be rejected. A candidate whose header bytes have not
/// arrived yet is undecidable, and counts as plausible so that it still earns
/// the wait. The fixed-length layouts have nothing left to check — their length
/// rule *is* the check.
fn is_plausible(buf: &[u8], candidate: &Candidate) -> (r: bool)
    requires
        buf@.len() >= 2,
    ensures
        r == plausible(buf@, *candidate),
{
    let function: u8 = buf[1];
    let request = candidate.direction == Direction::Request;
    if function >= 0x80 {
        // There is no exception 0, and 0x0B is the highest defined.
        buf.len() <= 2 || (1 <= buf[2] && buf[2] <= 0x0B)
    } else if 1 <= function && function <= 4 && request {
        if buf.len() < 6 {
            return true;
        }
        let quantity: u16 = be(buf, 4);
        match RegisterType::from_function_code(function) {
            Some(bank) => 1 <= quantity && quantity <= bank.max_per_read(),
            None => false,
        }
    } else if 1 <= function && function <= 4 {
        // A data block, two bytes per register for the register banks. Coil
        // banks pack eight to a byte, so any count is possible.
        if buf.len() <= 2 {
            return true;
        }
        let n: usize = buf[2] as usize;
        match RegisterType::from_function_code(function) {
            Some(bank) => 1 <= n && n <= MAX_DATA_BYTES && (!bank.is_register_bank() || n % 2 == 0),
            None => false,
        }
    } else if (function == 0x0F || function == 0x10) && request {
        // The byte count has to match the quantity it claims to be writing.
        if buf.len() <= 6 {
            return true;
        }
        let quantity: u16 = be(buf, 4);
        let n: usize = buf[6] as usize;
        match RegisterType::from_function_code(function) {
            Some(bank) => match bank.max_per_write() {
                Some(max) => 1 <= quantity && quantity <= max && n == bank.data_bytes(quantity),
                None => false,
            },
            None => false,
        }
    } else {
        true
    }
}

// ---------------------------------------------------------------------------
// What a message says
// ---------------------------------------------------------------------------

/// The last request seen, as `(function, start_register, quantity)`.
pub type Outstanding = Option<(u8, u16, u16)>;

/// A data block as big-endian registers; a trailing odd byte is left out.
pub open spec fn registers_in(block: Seq<u8>) -> Seq<u16> {
    Seq::new(block.len() / 2, |i: int| be16(block, 2 * i))
}

/// A message whose bytes have the layout of its function and direction.
pub open spec fn well_laid_out(raw: Seq<u8>, direction: Direction) -> bool {
    &&& raw.len() >= 4
    &&& layouts(raw).contains(Candidate { len: raw.len() as usize, direction })
    &&& raw.len() <= usize::MAX
}

/// What the bytes of a message carry on their own, before the outstanding
/// request fills in what the wire leaves out.
pub open spec fn carried(raw: Seq<u8>, direction: Direction, outstanding: Outstanding) -> Body {
    let function = raw[1];
    let plain = Body {
        direction,
        start_register: None,
        quantity: None,
        registers: Seq::empty(),
        exception: None,
    };
    if is_exception(function) {
        Body { exception: Some(raw[2]), ..plain }
    } else if (is_read(function) && direction is Request) || (is_write_multiple(function)
        && direction is Response) {
        Body {
            start_register: Some(be16(raw, 2)),
            quantity: Some(be16(raw, 4)),
            ..plain
        }
    } else if is_read(function) {
        Body { registers: registers_in(raw.subrange(3, 3 + raw[2])), ..plain }
    } else if is_write_single(function) {
        Body {
            direction: if outstanding is Some && outstanding->Some_0.0 == function {
                Direction::Response
            } else {
                Direction::Request
            },
            start_register: Some(be16(raw, 2)),
            quantity: Some(1),
            registers: seq![be16(raw, 4)],
            exception: None,
        }
    } else if is_write_multiple(function) {
        Body {
            start_register: Some(be16(raw, 2)),
            quantity: Some(be16(raw, 4)),
            registers: registers_in(raw.subrange(7, 7 + raw[6])),
            ..plain
        }
    } else {
        plain
    }
}

/// The message in full: a response that carries no address of its own takes
/// that of the outstanding request.
pub open spec fn body_of(raw: Seq<u8>, direction: Direction, outstanding: Outstanding) -> Body {
    let body = carried(raw, direction, outstanding);
    if body.direction is Response && body.start_register is None && outstanding is Some {
        Body {
            start_register: Some(outstanding->Some_0.1),
            quantity: Some(outstanding->Some_0.2),
            ..body
        }
    } else {
        body
    }
}

/// What is outstanding after a message: a request becomes it; a response that
/// leaned on it, and any single write, uses it up.
pub open spec fn outstanding_after(
    raw: Seq<u8>,
    direction: Direction,
    outstanding: Outstanding,
) -> Outstanding {
    let body = carried(raw, direction, outstanding);
    if body.direction is Request {
        Some(
            (
                raw[1],
                match body.start_register {
                    Some(s) => s,
                    None => 0,
                },
                match body.quantity {
                    Some(q) => q,
                    None => 0,
                },
            ),
        )
    } else if is_write_single(raw[1]) || body.start_register is None {
        None
    } else {
        outstanding
    }
}

/// A data block as big-endian `u16` registers. A trailing odd byte — only
/// reachable from an odd `byte_count`, which no register read or write
/// produces — is dropped rather than zero-extended into a bogus register.
fn registers_be(block: &[u8]) -> (r: Vec<u16>)
    ensures
        r@ == registers_in(block@),
{
    let mut out: Vec<u16> = Vec::new();
    let pairs: usize = block.len() / 2;
    for i in 0..pairs
        invariant
            pairs == block@.len() / 2,
            block@.len() <= usize::MAX,
            out@ == registers_in(block@).take(i as int),
    {
        out.push(be(block, 2 * i));
        assert(registers_in(block@)[i as int] == be16(block@, 2 * i as int));
        assert(registers_in(block@).take(i as int).push(registers_in(block@)[i as int])
            == registers_in(block@).take(i + 1));
    }
    assert(registers_in(block@).take(pairs as int) == registers_in(block@));
    out
}

/// What the bytes and the outstanding request make of one message.
pub(crate) struct Interpreted {
    pub direction: Direction,
    pub start_register: Option<u16>,
    pub quantity: Option<u16>,
    pub registers: Vec<u16>,
    pub exception: Option<u8>,
    pub outstanding: Option<(u8, u16, u16)>,
}

/// Turn validated bytes into what they say, resolving what the wire leaves out.
pub(crate) fn interpret_bytes(
    raw: &[u8],
    direction: Direction,
    outstanding: Option<(u8, u16, u16)>,
) -> (r: Interpreted)
    requires
        well_laid_out(raw@, direction),
    ensures
        (Body {
            direction: r.direction,
            start_register: r.start_register,
            quantity: r.quantity,
            registers: r.registers@,
            exception: r.exception,
        }) == body_of(raw@, direction, outstanding),
        r.outstanding == outstanding_after(raw@, direction, outstanding),
{
    proof {
        let k = choose|k: int|
            0 <= k < layouts(raw@).len() && layouts(raw@)[k] == (Candidate {
                len: raw@.len() as usize,
                direction,
            });
        assert(layouts(raw@)[k].len == raw@.len());
    }
    let function: u8 = raw[1];
    let mut out = Interpreted {
        direction,
        start_register: None,
        quantity: None,
        registers: Vec::new(),
        exception: None,
        outstanding,
    };
    let request = direction == Direction::Request;
    let read = 1 <= function && function <= 4;
    let multiple = function == 0x0F || function == 0x10;
    if function >= 0x80 {
        // Exception: a bare code, answering whatever was outstanding.
        out.exception = Some(raw[2]);
    } else if (read && request) || (multiple && !request) {
        // Read request, or a write-multiple response echoing its header.
        out.start_register = Some(be(raw, 2));
        out.quantity = Some(be(raw, 4));
    } else if read {
        // Read response: data only — the address comes from the request.
        let count: usize = raw[2] as usize;
        out.registers = registers_be(vstd::slice::slice_subrange(raw, 3, 3 + count));
    } else if function == 0x05 || function == 0x06 {
        // Write single: the value is the payload. Identical on both sides, so
        // the outstanding request decides which this is.
        out.start_register = Some(be(raw, 2));
        out.quantity = Some(1);
        let mut registers: Vec<u16> = Vec::new();
        registers.push(be(raw, 4));
        assert(registers@ == seq![be16(raw@, 4)]);
        out.registers = registers;
        out.direction = match outstanding {
            Some(o) => if o.0 == function {
                Direction::Response
            } else {
                Direction::Request
            },
            None => Direction::Request,
        };
        out.outstanding = None;
    } else if multiple {
        // Write-multiple request: header plus the data being written.
        out.start_register = Some(be(raw, 2));
        out.quantity = Some(be(raw, 4));
        let count: usize = raw[6] as usize;
        out.registers = registers_be(vstd::slice::slice_subrange(raw, 7, 7 + count));
    }
    let ghost body = carried(raw@, direction, outstanding);
    assert(out.registers@ == body.registers);
    // A response that carries no address of its own takes the outstanding
    // request's — the only record of what was asked for.
    if out.direction == Direction::Response && out.start_register.is_none() {
        if let Some(o) = out.outstanding {
            out.start_register = Some(o.1);
            out.quantity = Some(o.2);
        }
        out.outstanding = None;
    }
    if out.direction == Direction::Request {
        out.outstanding = Some(
            (function, out.start_register.unwrap_or(0), out.quantity.unwrap_or(0)),
        );
    }
    out
}

// ---------------------------------------------------------------------------
// The stream
// ---------------------------------------------------------------------------

/// The state of a stream, as a mathematical value.
#[verifier::ext_equal]
pub struct StreamState {
    /// Bytes received and not yet consumed.
    pub buf: Seq<u8>,
    /// The address messages are synced on.
    pub address: Option<u8>,
    pub policy: CrcPolicy,
    /// Of each of those bytes, whether it is the first that a frame brought.
    pub starts: Seq<bool>,
    /// The request a response would answer.
    pub outstanding: Outstanding,
}

/// What the head of a buffer calls for.
pub enum Decision {
    /// A message of the given layout, with or without a CRC to vouch for it.
    Take(Candidate, bool),
    /// No message starts here.
    NoMessage,
    /// Nothing to do until more bytes arrive.
    NeedMore,
}

/// The first layout whose bytes have all arrived with a correct CRC.
pub open spec fn validated(buf: Seq<u8>) -> Option<Candidate> {
    pick(
        layouts(buf),
        |c: Candidate|
            c.len <= buf.len() && crate::algorithms::modbus_crc_holds(buf.take(c.len as int)),
    )
}

/// The first layout that agrees with its own header.
pub open spec fn expected(buf: Seq<u8>) -> Option<Candidate> {
    pick(layouts(buf), |c: Candidate| plausible(buf, c))
}

/// The first layout that has arrived in full and agrees with its own header.
pub open spec fn guessed(buf: Seq<u8>) -> Option<Candidate> {
    pick(layouts(buf), |c: Candidate| c.len <= buf.len() && plausible(buf, c))
}

/// What to do with the head of a buffer. A correct CRC wins outright. Failing
/// that, bytes that a plausible layout still lacks are waited for, unless the
/// stream has ended. Only then may the lenient policy guess.
pub open spec fn decision(buf: Seq<u8>, policy: CrcPolicy, at_end: bool) -> Decision {
    if buf.len() < 4 {
        Decision::NeedMore
    } else if validated(buf) is Some {
        Decision::Take(validated(buf)->Some_0, true)
    } else if !at_end && expected(buf) is Some && expected(buf)->Some_0.len > buf.len() {
        Decision::NeedMore
    } else if policy is Lenient && guessed(buf) is Some {
        Decision::Take(guessed(buf)->Some_0, false)
    } else {
        Decision::NoMessage
    }
}

/// A buffer without the bytes before the first that can start a message.
pub open spec fn synced(buf: Seq<u8>, address: Option<u8>) -> Seq<u8>
    decreases buf.len(),
{
    if buf.len() == 0 || address_accepts(address, buf[0]) {
        buf
    } else {
        synced(buf.skip(1), address)
    }
}

/// What is left of a list without its first `n` elements.
pub open spec fn behind(starts: Seq<bool>, n: int) -> Seq<bool> {
    if 0 <= n <= starts.len() {
        starts.skip(n)
    } else {
        Seq::empty()
    }
}

/// A state without the first `n` bytes of its buffer.
pub open spec fn advanced(state: StreamState, n: int) -> StreamState {
    StreamState { buf: state.buf.skip(n), starts: behind(state.starts, n), ..state }
}

/// A state without the bytes before the first that can start a message.
pub open spec fn headed(state: StreamState) -> StreamState {
    StreamState {
        buf: synced(state.buf, state.address),
        starts: behind(state.starts, state.buf.len() - synced(state.buf, state.address).len()),
        ..state
    }
}

/// How many frames brought the first `n` bytes: one, and one more for each frame that
/// starts behind the first byte.
pub open spec fn frames_in(starts: Seq<bool>, n: int) -> int
    decreases n,
{
    if n <= 1 {
        1
    } else {
        frames_in(starts, n - 1) + if n - 1 < starts.len() && starts[n - 1] {
            1int
        } else {
            0
        }
    }
}

/// The message made of `raw`, brought by some frames.
pub open spec fn message_of(
    state: StreamState,
    raw: Seq<u8>,
    direction: Direction,
    crc_valid: bool,
    frames: int,
) -> MessageView {
    MessageView {
        body: body_of(raw, direction, state.outstanding),
        device_address: raw[0],
        function: raw[1],
        raw,
        crc_valid,
        frame_count: frames as u32,
    }
}

/// The state once the first `c.len` bytes have left the buffer as a message.
pub open spec fn state_after(state: StreamState, c: Candidate) -> StreamState {
    let raw = state.buf.take(c.len as int);
    StreamState {
        outstanding: outstanding_after(raw, c.direction, state.outstanding),
        ..advanced(state, c.len as int)
    }
}

/// Every message a buffer yields, and the state that leaves. Mid-stream a byte
/// that starts nothing is junk and is dropped; at the end of the stream it is
/// the head of the residue and is kept.
pub open spec fn drained(state: StreamState, at_end: bool) -> (Seq<MessageView>, StreamState)
    decreases state.buf.len(),
{
    let here = headed(state);
    if here.buf.len() > state.buf.len() {
        (Seq::empty(), here)
    } else {
        match decision(here.buf, here.policy, at_end) {
            Decision::Take(c, crc_valid) => {
                if 0 < c.len <= here.buf.len() {
                    let message = message_of(
                        here,
                        here.buf.take(c.len as int),
                        c.direction,
                        crc_valid,
                        frames_in(here.starts, c.len as int),
                    );
                    let rest = drained(state_after(here, c), at_end);
                    (seq![message] + rest.0, rest.1)
                } else {
                    (Seq::empty(), here)
                }
            },
            Decision::NoMessage => {
                if !at_end {
                    drained(advanced(here, 1), at_end)
                } else {
                    (Seq::empty(), here)
                }
            },
            Decision::NeedMore => (Seq::empty(), here),
        }
    }
}

/// A state with at most the newest [`MAX_BUFFER`] bytes of its buffer.
pub open spec fn capped(state: StreamState) -> StreamState {
    if state.buf.len() > MAX_BUFFER {
        advanced(state, state.buf.len() - MAX_BUFFER)
    } else {
        state
    }
}

/// Which of `n` bytes is the first of a frame: the first, where a frame brought them.
pub open spec fn brought(n: nat, by_frame: bool) -> Seq<bool> {
    Seq::new(n, |i: int| by_frame && i == 0)
}

/// A state with bytes behind those it has buffered, a frame's or those of a serial line.
/// A serial line has no frames: with its bytes none of the buffered ones counts as the
/// first of a frame any more.
pub open spec fn grown(state: StreamState, bytes: Seq<u8>, by_frame: bool) -> StreamState {
    StreamState {
        buf: state.buf + bytes,
        starts: if by_frame {
            state.starts + brought(bytes.len(), true)
        } else {
            brought(state.buf.len() + bytes.len(), false)
        },
        ..state
    }
}

/// What feeding bytes yields, a frame's or those of a serial line, and the state that
/// leaves.
pub open spec fn fed(state: StreamState, bytes: Seq<u8>, by_frame: bool) -> (
    Seq<MessageView>,
    StreamState,
) {
    if bytes.len() == 0 {
        (Seq::empty(), state)
    } else {
        let result = drained(grown(state, bytes, by_frame), false);
        (result.0, capped(result.1))
    }
}

/// The layout an already framed message has, if its length is one of them.
pub open spec fn framed_layout(raw: Seq<u8>) -> Option<Candidate> {
    pick(layouts(raw), |c: Candidate| c.len == raw.len())
}

/// Whether an already framed message is accepted: its address is ours, its
/// length is one its function has, and either the CRC or its own header vouches
/// for it.
pub open spec fn framed_accepts(address: Option<u8>, raw: Seq<u8>) -> bool {
    &&& raw.len() >= 4
    &&& address_accepts(address, raw[0])
    &&& framed_layout(raw) is Some
    &&& crate::algorithms::modbus_crc_holds(raw) || plausible(raw, framed_layout(raw)->Some_0)
}

/// What one pass over the head of the buffer achieved.
enum Step {
    Message(ModbusRtuMessage),
    /// No message starts here. The caller decides what that means: mid-stream a
    /// byte is junk and gets dropped, at end of stream it is the head of the
    /// residue and gets kept.
    NoMessage,
    /// Nothing to do until more bytes arrive.
    NeedMore,
}

/// Reassembles one tunnel's byte stream and yields complete Modbus RTU messages.
///
/// One instance per (session, frame id) — the buffer is the tunnel's serial
/// line, and interleaving two tunnels into it would corrupt both.
#[derive(Debug)]
pub struct ModbusRtuStream {
    buf: Vec<u8>,
    device_address: Option<u8>,
    policy: CrcPolicy,
    /// Of each byte in `buf`, whether it is the first that a frame brought, so a
    /// completed message can report how many frames it spanned.
    starts: Vec<bool>,
    /// The last request seen, as `(function, start_register, quantity)`. Read
    /// responses carry no register address, and FC06's request and response are
    /// byte-identical in shape, so both lean on this.
    last_request: Option<(u8, u16, u16)>,
}

impl View for ModbusRtuStream {
    type V = StreamState;

    closed spec fn view(&self) -> StreamState {
        StreamState {
            buf: self.buf@,
            address: self.device_address,
            policy: self.policy,
            starts: self.starts@,
            outstanding: self.last_request,
        }
    }
}

/// A stream that has received nothing.
pub open spec fn fresh(address: Option<u8>, policy: CrcPolicy) -> StreamState {
    StreamState { buf: Seq::empty(), address, policy, starts: Seq::empty(), outstanding: None }
}

impl ModbusRtuStream {
    /// A tunnel the catalogue declared.
    pub fn new(tunnel: &FrameTunnel) -> (r: Self)
        ensures
            r@ == fresh(tunnel.device_address, CrcPolicy::Strict),
    {
        Self::for_address(tunnel.device_address)
    }

    /// An RTU stream nothing in a catalogue describes — a serial port, where the
    /// device address comes from the io profile rather than a `[…tunnel]` table.
    pub fn for_address(device_address: Option<u8>) -> (r: Self)
        ensures
            r@ == fresh(device_address, CrcPolicy::Strict),
    {
        Self::with_crc_policy(device_address, CrcPolicy::Strict)
    }

    pub fn with_crc_policy(device_address: Option<u8>, policy: CrcPolicy) -> (r: Self)
        ensures
            r@ == fresh(device_address, policy),
    {
        Self {
            buf: Vec::with_capacity(MAX_RTU_LEN),
            device_address,
            policy,
            starts: Vec::new(),
            last_request: None,
        }
    }

    /// The bytes received and not yet consumed.
    pub fn buffered(&self) -> (r: &[u8])
        ensures
            r@ == self@.buf,
    {
        self.buf.as_slice()
    }

    /// Feed one frame's payload; return every message it completed.
    pub fn push(&mut self, bytes: &[u8]) -> (r: Vec<ModbusRtuMessage>)
        ensures
            (said(r@), final(self)@) == fed(old(self)@, bytes@, true),
    {
        self.feed(bytes, true)
    }

    /// Feed raw bytes from a serial line. Same reassembly as [`Self::push`],
    /// without the frame accounting — there are no frames to count, so every
    /// message reports `frame_count: 1`.
    pub fn push_bytes(&mut self, bytes: &[u8]) -> (r: Vec<ModbusRtuMessage>)
        ensures
            (said(r@), final(self)@) == fed(old(self)@, bytes@, false),
            forall|k: int| 0 <= k < r@.len() ==> (#[trigger] r@[k]).frame_count == 1,
    {
        let out = self.feed(bytes, false);
        proof {
            assert forall|k: int| 0 <= k < out@.len() implies (#[trigger] out@[k]).frame_count
                == 1 by {
                law_messages_of_raw_bytes_count_one(old(self)@, bytes@, k);
                assert(said(out@)[k] == out@[k]@);
            }
        }
        out
    }

    fn feed(&mut self, bytes: &[u8], by_frame: bool) -> (r: Vec<ModbusRtuMessage>)
        ensures
            (said(r@), final(self)@) == fed(old(self)@, bytes@, by_frame),
    {
        if bytes.len() == 0 {
            assert(said(Seq::empty()) == Seq::<MessageView>::empty());
            return Vec::new();
        }
        self.buf.extend_from_slice(bytes);
        assert(self.buf@ == old(self).buf@ + bytes@);
        if by_frame {
            mark_starts(&mut self.starts, bytes.len(), true);
        } else {
            self.starts = Vec::new();
            mark_starts(&mut self.starts, self.buf.len(), false);
            assert(Seq::<bool>::empty() + brought(self.buf@.len(), false) == brought(
                self.buf@.len(),
                false,
            ));
        }
        assert(self@ == grown(old(self)@, bytes@, by_frame));
        let out = self.drain_messages(false);
        // A desynced stream would otherwise grow without bound.
        if self.buf.len() > MAX_BUFFER {
            let excess: usize = self.buf.len() - MAX_BUFFER;
            self.advance(excess);
        }
        out
    }

    /// Drop bytes from the front of the buffer.
    fn advance(&mut self, n: usize)
        requires
            n <= old(self)@.buf.len(),
        ensures
            final(self)@ == advanced(old(self)@, n as int),
    {
        self.buf = self.buf.split_off(n);
        drop_starts(&mut self.starts, n);
    }

    /// One message somebody else already framed — a serial reader that framed
    /// the port, or a replayed frame that holds a whole message.
    ///
    /// The boundary is taken as given: this reports whether the CRC agrees
    /// rather than using it to find the boundary, so a CRC-invalid message comes
    /// back flagged under either policy instead of being swallowed. It reads the
    /// same candidate table as [`Self::push_bytes`], so a message framed here and
    /// one recovered from a byte stream are labelled identically. The reassembly
    /// buffer is never touched, so the two can share an instance — which they
    /// must, because the outstanding-request state lives here.
    pub fn interpret(&mut self, raw: &[u8]) -> (r: Option<ModbusRtuMessage>)
        ensures
            r is Some <==> framed_accepts(old(self)@.address, raw@),
            r is None ==> final(self)@ == old(self)@,
            r matches Some(m) ==> {
                let direction = framed_layout(raw@)->Some_0.direction;
                &&& m@ == message_of(
                    old(self)@,
                    raw@,
                    direction,
                    crate::algorithms::modbus_crc_holds(raw@),
                    1,
                )
                &&& final(self)@ == (StreamState {
                    outstanding: outstanding_after(raw@, direction, old(self)@.outstanding),
                    ..old(self)@
                })
            },
    {
        if raw.len() < 4 || !self.address_matches(raw[0]) {
            return None;
        }
        let pair = candidates(raw);
        let chosen: Candidate = match pair.0 {
            Some(c) => if c.len == raw.len() {
                c
            } else {
                match pair.1 {
                    Some(d) => if d.len == raw.len() {
                        d
                    } else {
                        return None;
                    },
                    None => return None,
                }
            },
            None => return None,
        };
        let crc_valid = crc16_modbus_valid(raw);
        // A CRC that agrees vouches for the message outright, implausible header
        // or not — the length table does not model every function code, and the
        // checksum is far stronger evidence than the table is. Without one, the
        // header has to be self-consistent, which is the same bar
        // [`CrcPolicy::Lenient`] sets for a boundary it guessed.
        if !crc_valid && !is_plausible(raw, &chosen) {
            return None;
        }
        let copy = vstd::slice::slice_to_vec(raw);
        assert(copy@ == raw@);
        proof {
            let all = layouts(raw@);
            assert(all[0] == chosen || all[1] == chosen);
        }
        Some(self.build(copy, chosen.direction, crc_valid, 1))
    }

    /// End of stream: no more bytes are coming.
    ///
    /// [`Self::push_bytes`] withholds a message while a longer candidate could
    /// still be completed by bytes that have not arrived. At end of stream they
    /// never will, so that rule is dropped and whatever the buffer can still
    /// yield is yielded. Returns the messages recovered and the bytes left over,
    /// which are by construction not a message — a truncated message is reported
    /// whole rather than resynced away a byte at a time.
    pub fn finish(&mut self) -> (r: (Vec<ModbusRtuMessage>, Vec<u8>))
        ensures
            said(r.0@) == drained(old(self)@, true).0,
            r.1@ == drained(old(self)@, true).1.buf,
            final(self)@ == (StreamState {
                buf: Seq::empty(),
                starts: Seq::empty(),
                ..drained(old(self)@, true).1
            }),
    {
        let out = self.drain_messages(true);
        self.starts = Vec::new();
        let mut residue: Vec<u8> = Vec::new();
        std::mem::swap(&mut residue, &mut self.buf);
        (out, residue)
    }

    /// Drain every message the buffer can yield. `at_end` also drops the
    /// wait-for-a-longer-candidate rule: mid-stream a byte that starts nothing
    /// is junk to be dropped, at end of stream it is the head of the residue.
    fn drain_messages(&mut self, at_end: bool) -> (r: Vec<ModbusRtuMessage>)
        ensures
            (said(r@), final(self)@) == drained(old(self)@, at_end),
    {
        let ghost start = self@;
        let mut out: Vec<ModbusRtuMessage> = Vec::new();
        assert(said(out@) + drained(self@, at_end).0 == drained(start, at_end).0);
        loop
            invariant_except_break
                drained(start, at_end).0 == said(out@) + drained(self@, at_end).0,
                drained(start, at_end).1 == drained(self@, at_end).1,
            ensures
                (said(out@), self@) == drained(start, at_end),
            decreases self.buf@.len(),
        {
            let ghost before = self@;
            self.skip_to_address();
            let ghost here = self@;
            proof {
                lemma_synced_shrinks(before.buf, before.address);
            }
            match self.take_message(at_end) {
                Step::Message(msg) => {
                    let ghost done = said(out@);
                    let ghost rest = drained(self@, at_end).0;
                    out.push(msg);
                    assert(said(out@) == done.push(msg@));
                    assert(done + (seq![msg@] + rest) == done.push(msg@) + rest);
                },
                Step::NoMessage => {
                    if at_end {
                        assert(said(out@) + Seq::<MessageView>::empty() == said(out@));
                        break ;
                    }
                    // The real message may be right behind the byte we drop.
                    self.advance(1);
                },
                Step::NeedMore => {
                    assert(said(out@) + Seq::<MessageView>::empty() == said(out@));
                    break ;
                },
            }
        }
        out
    }

    /// Discard anything before a plausible address byte; a message can only
    /// start there.
    fn skip_to_address(&mut self)
        ensures
            final(self)@ == headed(old(self)@),
    {
        proof {
            lemma_synced_shrinks(self@.buf, self@.address);
        }
        let mut skip: usize = 0;
        assert(self.buf@.skip(0) == self.buf@);
        while skip < self.buf.len() && !self.address_matches(self.buf[skip])
            invariant
                skip <= self.buf@.len(),
                self@ == old(self)@,
                synced(self.buf@, self.device_address) == synced(
                    self.buf@.skip(skip as int),
                    self.device_address,
                ),
            decreases self.buf@.len() - skip,
        {
            assert(self.buf@.skip(skip as int).skip(1) == self.buf@.skip(skip + 1));
            skip = skip + 1;
        }
        assert(synced(self.buf@, self.device_address) == self.buf@.skip(skip as int));
        self.advance(skip);
    }

    fn address_matches(&self, byte: u8) -> (r: bool)
        ensures
            r == address_accepts(self@.address, byte),
    {
        match self.device_address {
            Some(addr) => byte == addr,
            // Broadcast (0) never gets a reply, so it cannot start a message
            // here; 248..=255 are reserved.
            None => 1 <= byte && byte <= 247,
        }
    }

    /// Whether a candidate has arrived in full with a correct CRC.
    fn validates(&self, c: &Candidate) -> (r: bool)
        ensures
            r == (c.len <= self@.buf.len() && crate::algorithms::modbus_crc_holds(
                self@.buf.take(c.len as int),
            )),
    {
        if c.len > self.buf.len() {
            return false;
        }
        let head = vstd::slice::slice_subrange(self.buf.as_slice(), 0, c.len);
        assert(head@ == self.buf@.take(c.len as int));
        crc16_modbus_valid(head)
    }

    /// Try to consume one message from the head of the buffer. `at_end` drops
    /// the "wait for a longer candidate" rule, which only makes sense while more
    /// bytes could still arrive.
    fn take_message(&mut self, at_end: bool) -> (r: Step)
        ensures
            match r {
                Step::Message(m) => {
                    &&& decision(old(self)@.buf, old(self)@.policy, at_end) matches Decision::Take(
                        c,
                        crc_valid,
                    )
                    &&& 0 < c.len <= old(self)@.buf.len()
                    &&& m@ == message_of(
                        old(self)@,
                        old(self)@.buf.take(c.len as int),
                        c.direction,
                        crc_valid,
                        frames_in(old(self)@.starts, c.len as int),
                    )
                    &&& final(self)@ == state_after(old(self)@, c)
                },
                Step::NoMessage => {
                    &&& decision(old(self)@.buf, old(self)@.policy, at_end) is NoMessage
                    &&& final(self)@ == old(self)@
                    &&& old(self)@.buf.len() > 0
                },
                Step::NeedMore => {
                    &&& decision(old(self)@.buf, old(self)@.policy, at_end) is NeedMore
                    &&& final(self)@ == old(self)@
                },
            },
    {
        let buffered: usize = self.buf.len();
        if buffered < 4 {
            return Step::NeedMore;
        }
        let pair = candidates(self.buf.as_slice());
        // Candidates come longest-first, so the first CRC hit is also the
        // longest: a data-bearing message outranks a short one that might
        // coincidentally validate. A 16-bit check is overwhelming evidence, so
        // it is not second-guessed by the structural rules below.
        if let Some(c) = pair.0 {
            if self.validates(&c) {
                return self.take(c, true);
            }
        }
        if let Some(c) = pair.1 {
            if self.validates(&c) {
                return self.take(c, true);
            }
        }
        // Only give up on a CRC hit once no candidate could still be completed
        // by more bytes — otherwise we would eat the head of a split message.
        // A candidate that contradicts its own header is not one we could be
        // halfway through, so it does not earn the wait; without that, one
        // corrupt byte where a `byte_count` should be invents a 200-byte
        // candidate and stalls the stream until `MAX_BUFFER` evicts it.
        let first_plausible = match pair.0 {
            Some(c) => is_plausible(self.buf.as_slice(), &c),
            None => false,
        };
        let second_plausible = match pair.1 {
            Some(c) => is_plausible(self.buf.as_slice(), &c),
            None => false,
        };
        if !at_end {
            if first_plausible {
                if let Some(c) = pair.0 {
                    if c.len > buffered {
                        return Step::NeedMore;
                    }
                }
            } else if second_plausible {
                if let Some(c) = pair.1 {
                    if c.len > buffered {
                        return Step::NeedMore;
                    }
                }
            }
        }
        // Nothing validated, and nothing more is coming for these candidates.

        if self.policy == CrcPolicy::Lenient {
            if let Some(c) = pair.0 {
                if first_plausible && c.len <= buffered {
                    return self.take(c, false);
                }
            }
            if let Some(c) = pair.1 {
                if second_plausible && c.len <= buffered {
                    return self.take(c, false);
                }
            }
        }
        Step::NoMessage
    }

    /// Consume a candidate's bytes off the head of the buffer as a message.
    fn take(&mut self, candidate: Candidate, crc_valid: bool) -> (r: Step)
        requires
            old(self)@.buf.len() >= 4,
            layouts(old(self)@.buf).contains(candidate),
            candidate.len <= old(self)@.buf.len(),
        ensures
            candidate.len > 0,
            r matches Step::Message(m) && {
                &&& m@ == message_of(
                    old(self)@,
                    old(self)@.buf.take(candidate.len as int),
                    candidate.direction,
                    crc_valid,
                    frames_in(old(self)@.starts, candidate.len as int),
                )
                &&& final(self)@ == state_after(old(self)@, candidate)
            },
    {
        let frames: u32 = count_frames(self.starts.as_slice(), candidate.len);
        let rest = self.buf.split_off(candidate.len);
        let mut raw: Vec<u8> = rest;
        std::mem::swap(&mut raw, &mut self.buf);
        proof {
            let all = layouts(old(self)@.buf);
            let k = choose|k: int| 0 <= k < all.len() && all[k] == candidate;
            assert(all[k].len >= 5);
            assert(raw@ == old(self)@.buf.take(candidate.len as int));
            assert(layouts(raw@) == all);
            assert(layouts(raw@)[k] == candidate);
        }
        drop_starts(&mut self.starts, candidate.len);
        Step::Message(self.build(raw, candidate.direction, crc_valid, frames))
    }

    /// Turn validated bytes into a message, resolving what the wire leaves out.
    fn build(&mut self, raw: Vec<u8>, direction: Direction, crc_valid: bool, frames: u32) -> (r:
        ModbusRtuMessage)
        requires
            well_laid_out(raw@, direction),
        ensures
            r@ == message_of(old(self)@, raw@, direction, crc_valid, frames as int),
            final(self)@ == (StreamState {
                outstanding: outstanding_after(raw@, direction, old(self)@.outstanding),
                ..old(self)@
            }),
    {
        let said = interpret_bytes(raw.as_slice(), direction, self.last_request);
        self.last_request = said.outstanding;
        ModbusRtuMessage {
            direction: said.direction,
            device_address: raw[0],
            function: raw[1],
            start_register: said.start_register,
            quantity: said.quantity,
            registers: said.registers,
            exception: said.exception,
            raw,
            crc_valid,
            frame_count: frames,
        }
    }
}

/// Mark which of some new bytes is the first of a frame.
pub(crate) fn mark_starts(starts: &mut Vec<bool>, n: usize, by_frame: bool)
    ensures
        final(starts)@ == old(starts)@ + brought(n as nat, by_frame),
{
    let ghost before = starts@;
    let ghost all = brought(n as nat, by_frame);
    assert(before + all.take(0) == before);
    for i in 0..n
        invariant
            all == brought(n as nat, by_frame),
            starts@ == before + all.take(i as int),
    {
        starts.push(by_frame && i == 0);
        assert(all.take(i + 1) == all.take(i as int).push(all[i as int]));
        assert(starts@ == before + all.take(i + 1));
    }
    assert(all.take(n as int) == all);
}

/// Drop the marks of the first `n` bytes.
pub(crate) fn drop_starts(starts: &mut Vec<bool>, n: usize)
    ensures
        final(starts)@ == behind(old(starts)@, n as int),
{
    if n <= starts.len() {
        *starts = starts.split_off(n);
    } else {
        *starts = Vec::new();
    }
}

/// How many frames brought the first `n` bytes.
pub(crate) fn count_frames(starts: &[bool], n: usize) -> (r: u32)
    requires
        n < u32::MAX,
    ensures
        r == frames_in(starts@, n as int),
{
    let mut count: u32 = 1;
    let mut i: usize = 1;
    while i < n
        invariant
            n < u32::MAX,
            1 <= i,
            i <= n || i == 1,
            1 <= count <= i,
            count == frames_in(starts@, i as int),
        decreases n - i,
    {
        if i < starts.len() && starts[i] {
            count = count + 1;
        }
        i = i + 1;
    }
    count
}

// ---------------------------------------------------------------------------
// Laws
// ---------------------------------------------------------------------------

/// Syncing only ever drops bytes from the front.
pub proof fn lemma_synced_shrinks(buf: Seq<u8>, address: Option<u8>)
    ensures
        synced(buf, address).len() <= buf.len(),
        synced(buf, address) == buf.skip(buf.len() - synced(buf, address).len()),
    decreases buf.len(),
{
    if buf.len() == 0 || address_accepts(address, buf[0]) {
        assert(buf.skip(0) == buf);
    } else {
        lemma_synced_shrinks(buf.skip(1), address);
        let tail = synced(buf.skip(1), address);
        assert(buf.skip(1).skip(buf.len() - 1 - tail.len()) == buf.skip(buf.len() - tail.len()));
    }
}

proof fn lemma_taken_layouts(buf: Seq<u8>, policy: CrcPolicy, at_end: bool)
    ensures
        decision(buf, policy, at_end) matches Decision::Take(c, crc_valid) ==> {
            &&& layouts(buf).contains(c)
            &&& 5 <= c.len <= buf.len()
            &&& crc_valid == crate::algorithms::modbus_crc_holds(buf.take(c.len as int))
            &&& policy is Strict ==> crc_valid
        },
{
    if let Decision::Take(c, crc_valid) = decision(buf, policy, at_end) {
        let all = layouts(buf);
        assert(all.len() <= 2);
        assert(all[0] == c || all[1] == c);
        assert(c.len >= 5);
    }
}

/// Every message reports truthfully whether its CRC holds, and under the strict
/// policy none is reported whose CRC does not.
pub proof fn law_crc_flags_are_honest(state: StreamState, at_end: bool, k: int)
    requires
        0 <= k < drained(state, at_end).0.len(),
    ensures
        ({
            let m = drained(state, at_end).0[k];
            &&& m.crc_valid == crate::algorithms::modbus_crc_holds(m.raw)
            &&& state.policy is Strict ==> m.crc_valid
        }),
    decreases state.buf.len(),
{
    lemma_synced_shrinks(state.buf, state.address);
    let here = headed(state);
    lemma_taken_layouts(here.buf, here.policy, at_end);
    match decision(here.buf, here.policy, at_end) {
        Decision::Take(c, crc_valid) => {
            if k > 0 {
                law_crc_flags_are_honest(state_after(here, c), at_end, k - 1);
            }
        },
        Decision::NoMessage => {
            if !at_end {
                law_crc_flags_are_honest(
                    advanced(here, 1),
                    at_end,
                    k,
                );
            }
        },
        Decision::NeedMore => {},
    }
}

/// Whether the given stretches lie in `buf` in order and without overlap.
pub open spec fn in_order(buf: Seq<u8>, stretches: Seq<Seq<u8>>) -> bool
    decreases stretches.len(),
{
    if stretches.len() == 0 {
        true
    } else {
        exists|at: int| #[trigger]
            starts_at(buf, stretches[0], at) && in_order(
                buf.skip(at + stretches[0].len()),
                stretches.skip(1),
            )
    }
}

/// Whether `stretch` lies in `buf` from `at` on.
pub open spec fn starts_at(buf: Seq<u8>, stretch: Seq<u8>, at: int) -> bool {
    &&& 0 <= at
    &&& at + stretch.len() <= buf.len()
    &&& buf.subrange(at, at + stretch.len()) == stretch
}

/// The bytes of each message.
pub open spec fn raws(messages: Seq<MessageView>) -> Seq<Seq<u8>> {
    messages.map_values(|m: MessageView| m.raw)
}

proof fn lemma_in_order_of_suffix(buf: Seq<u8>, dropped: int, stretches: Seq<Seq<u8>>)
    requires
        0 <= dropped <= buf.len(),
        in_order(buf.skip(dropped), stretches),
    ensures
        in_order(buf, stretches),
{
    if stretches.len() > 0 {
        let tail = buf.skip(dropped);
        let at = choose|at: int| #[trigger]
            starts_at(tail, stretches[0], at) && in_order(
                tail.skip(at + stretches[0].len()),
                stretches.skip(1),
            );
        let n = stretches[0].len();
        assert(buf.subrange(dropped + at, dropped + at + n) == tail.subrange(at, at + n));
        assert(buf.skip(dropped + at + n) == tail.skip(at + n));
        assert(starts_at(buf, stretches[0], dropped + at));
    }
}

/// Nothing is invented or reordered: the messages recovered are stretches of
/// the bytes received, in order and without overlap, and what stays buffered is
/// the end of those bytes.
#[verifier::spinoff_prover]
#[verifier::rlimit(40)]
pub proof fn law_messages_are_stretches_of_the_stream(state: StreamState, at_end: bool)
    ensures
        in_order(state.buf, raws(drained(state, at_end).0)),
        drained(state, at_end).1.buf.len() <= state.buf.len(),
        drained(state, at_end).1.buf == state.buf.skip(
            state.buf.len() - drained(state, at_end).1.buf.len(),
        ),
    decreases state.buf.len(),
{
    lemma_synced_shrinks(state.buf, state.address);
    let here = headed(state);
    let dropped = state.buf.len() - here.buf.len();
    lemma_taken_layouts(here.buf, here.policy, at_end);
    match decision(here.buf, here.policy, at_end) {
        Decision::Take(c, crc_valid) => {
            let after = state_after(here, c);
            law_messages_are_stretches_of_the_stream(after, at_end);
            let raw = here.buf.take(c.len as int);
            let rest = drained(after, at_end).0;
            let message = message_of(
                here,
                raw,
                c.direction,
                crc_valid,
                frames_in(here.starts, c.len as int),
            );
            let all = raws(seq![message] + rest);
            assert(all[0] == raw);
            assert(all.skip(1) == raws(rest));
            assert(here.buf.subrange(0, 0int + raw.len()) == raw);
            assert(here.buf.skip(0int + raw.len()) == after.buf);
            assert(starts_at(here.buf, raw, 0));
            assert(in_order(here.buf, all));
            lemma_in_order_of_suffix(state.buf, dropped, all);
            let left = drained(after, at_end).1.buf;
            assert(after.buf.skip(after.buf.len() - left.len()) == state.buf.skip(
                state.buf.len() - left.len(),
            ));
        },
        Decision::NoMessage => {
            if !at_end {
                let after = advanced(here, 1);
                law_messages_are_stretches_of_the_stream(after, at_end);
                assert(after.buf == state.buf.skip(dropped + 1));
                lemma_in_order_of_suffix(
                    state.buf,
                    dropped + 1,
                    raws(drained(after, at_end).0),
                );
                let left = drained(after, at_end).1.buf;
                assert(after.buf.skip(after.buf.len() - left.len()) == state.buf.skip(
                    state.buf.len() - left.len(),
                ));
            } else {
                assert(raws(Seq::empty()) == Seq::<Seq<u8>>::empty());
            }
        },
        Decision::NeedMore => {
            assert(raws(Seq::empty()) == Seq::<Seq<u8>>::empty());
        },
    }
}

/// Feeding never leaves more than [`MAX_BUFFER`] bytes buffered.
pub proof fn law_the_buffer_stays_bounded(state: StreamState, bytes: Seq<u8>, by_frame: bool)
    requires
        state.buf.len() <= MAX_BUFFER,
    ensures
        fed(state, bytes, by_frame).1.buf.len() <= MAX_BUFFER,
{
}

/// A state whose stream reads the same under the other policy.
pub open spec fn under(state: StreamState, policy: CrcPolicy) -> StreamState {
    StreamState { policy, ..state }
}

/// On a stream whose CRCs are correct the two policies are identical: where the
/// lenient one reports no message that fails its CRC, the strict one reports the
/// same messages and keeps the same bytes.
pub proof fn law_policies_agree_on_correct_crcs(state: StreamState, at_end: bool)
    requires
        forall|k: int|
            0 <= k < drained(under(state, CrcPolicy::Lenient), at_end).0.len() ==> (
            #[trigger] drained(under(state, CrcPolicy::Lenient), at_end).0[k]).crc_valid,
    ensures
        drained(under(state, CrcPolicy::Strict), at_end).0 == drained(
            under(state, CrcPolicy::Lenient),
            at_end,
        ).0,
        drained(under(state, CrcPolicy::Strict), at_end).1 == under(
            drained(under(state, CrcPolicy::Lenient), at_end).1,
            CrcPolicy::Strict,
        ),
    decreases state.buf.len(),
{
    let lenient = under(state, CrcPolicy::Lenient);
    let strict = under(state, CrcPolicy::Strict);
    lemma_synced_shrinks(state.buf, state.address);
    let here = headed(lenient);
    lemma_taken_layouts(here.buf, CrcPolicy::Lenient, at_end);
    lemma_taken_layouts(here.buf, CrcPolicy::Strict, at_end);
    match decision(here.buf, CrcPolicy::Lenient, at_end) {
        Decision::Take(c, crc_valid) => {
            assert(drained(lenient, at_end).0[0].crc_valid == crc_valid);
            assert(crc_valid);
            let after = state_after(here, c);
            let rest = drained(after, at_end).0;
            assert forall|k: int| 0 <= k < rest.len() implies (#[trigger] rest[k]).crc_valid by {
                assert(drained(lenient, at_end).0[k + 1] == rest[k]);
            }
            law_policies_agree_on_correct_crcs(after, at_end);
            assert(headed(strict) == under(here, CrcPolicy::Strict));
            assert(under(after, CrcPolicy::Lenient) == after);
            assert(under(after, CrcPolicy::Strict) == state_after(
                under(here, CrcPolicy::Strict),
                c,
            ));
        },
        Decision::NoMessage => {
            if !at_end {
                let after = advanced(here, 1);
                assert(under(after, CrcPolicy::Lenient) == after);
                law_policies_agree_on_correct_crcs(after, at_end);
            }
        },
        Decision::NeedMore => {},
    }
}

/// Pieces one behind the other.
pub open spec fn joined(pieces: Seq<Seq<u8>>) -> Seq<u8>
    decreases pieces.len(),
{
    if pieces.len() == 0 {
        Seq::empty()
    } else {
        pieces[0] + joined(pieces.skip(1))
    }
}

/// Whether bytes are a whole message for a device: they have a layout of their own
/// length that agrees with its header, and a correct CRC.
pub open spec fn is_whole(m: Seq<u8>, address: Option<u8>) -> bool {
    &&& m.len() >= 5
    &&& address_accepts(address, m[0])
    &&& crate::algorithms::modbus_crc_holds(m)
    &&& exists|k: int|
        0 <= k < layouts(m).len() && (#[trigger] layouts(m)[k]).len == m.len() && plausible(
            m,
            layouts(m)[k],
        )
}

/// Whether a stream can start with a message only: no layout of another length passes
/// its CRC on the bytes of the stream.
pub open spec fn reads_only_as(stream: Seq<u8>, m: Seq<u8>) -> bool {
    forall|k: int|
        0 <= k < layouts(m).len() && (#[trigger] layouts(m)[k]).len != m.len()
            && layouts(m)[k].len <= stream.len() ==> !crate::algorithms::modbus_crc_holds(
            stream.take(layouts(m)[k].len as int),
        )
}

/// Whether messages one behind the other make a stream with correct CRCs: each is
/// whole, and where it starts nothing else does.
pub open spec fn is_correct(messages: Seq<Seq<u8>>, address: Option<u8>) -> bool
    decreases messages.len(),
{
    messages.len() > 0 ==> {
        &&& is_whole(messages[0], address)
        &&& reads_only_as(joined(messages), messages[0])
        &&& is_correct(messages.skip(1), address)
    }
}

/// What feeding pieces one after the other yields, and the state that leaves.
pub open spec fn fed_all(state: StreamState, pieces: Seq<Seq<u8>>, by_frame: bool) -> (
    Seq<MessageView>,
    StreamState,
)
    decreases pieces.len(),
{
    if pieces.len() == 0 {
        (Seq::empty(), state)
    } else {
        let first = fed(state, pieces[0], by_frame);
        let rest = fed_all(first.1, pieces.skip(1), by_frame);
        (first.0 + rest.0, rest.1)
    }
}

/// How many of the messages at the front of a stream its first `n` bytes hold.
spec fn held(messages: Seq<Seq<u8>>, n: int) -> int
    decreases messages.len(),
{
    if messages.len() == 0 || messages[0].len() > n {
        0
    } else {
        1 + held(messages.skip(1), n - messages[0].len())
    }
}

/// How many of the first `n` bytes of a stream lie behind the messages they hold.
spec fn over(messages: Seq<Seq<u8>>, n: int) -> int
    decreases messages.len(),
{
    if messages.len() == 0 || messages[0].len() > n {
        n
    } else {
        over(messages.skip(1), n - messages[0].len())
    }
}

proof fn lemma_head_is_taken(stream: Seq<u8>, m: Seq<u8>, n: int, policy: CrcPolicy)
    requires
        exists|a: Option<u8>| #[trigger] is_whole(m, a),
        reads_only_as(stream, m),
        m.len() <= n <= stream.len(),
        m == stream.take(m.len() as int),
    ensures
        decision(stream.take(n), policy, false) matches Decision::Take(c, true) && c.len == m.len(),
{
    let buf = stream.take(n);
    assert(buf[1] == m[1] && buf[2] == m[2]);
    assert(layouts(m).len() <= 2);
    if is_write_multiple(m[1]) {
        assert(m.len() >= 8);
        assert(buf[6] == m[6]);
    }
    assert(layouts(buf) == layouts(m));
    assert(buf.take(m.len() as int) == m);
    assert forall|k: int|
        0 <= k < layouts(buf).len() && (#[trigger] layouts(buf)[k]).len != m.len()
            && layouts(buf)[k].len <= buf.len() implies !crate::algorithms::modbus_crc_holds(
        buf.take(layouts(buf)[k].len as int),
    ) by {
        assert(layouts(m)[k].len != m.len());
        assert(buf.take(layouts(m)[k].len as int) == stream.take(layouts(m)[k].len as int));
    }
    let k = choose|k: int|
        0 <= k < layouts(m).len() && (#[trigger] layouts(m)[k]).len == m.len() && plausible(
            m,
            layouts(m)[k],
        );
    assert(layouts(buf)[k].len == m.len());
    if layouts(buf).len() > 1 {
        assert(layouts(buf)[0].len == m.len() || layouts(buf)[1].len == m.len());
    }
}

proof fn lemma_part_is_kept(m: Seq<u8>, n: int, policy: CrcPolicy, stream: Seq<u8>)
    requires
        exists|a: Option<u8>| #[trigger] is_whole(m, a),
        reads_only_as(stream, m),
        0 <= n < m.len() <= stream.len(),
        m == stream.take(m.len() as int),
    ensures
        decision(stream.take(n), policy, false) is NeedMore,
{
    let buf = stream.take(n);
    if n >= 4 {
        assert(buf == m.take(n));
        assert(buf[1] == m[1] && buf[2] == m[2]);
        assert(layouts(m).len() <= 2);
        let k = choose|k: int|
            0 <= k < layouts(m).len() && (#[trigger] layouts(m)[k]).len == m.len() && plausible(
                m,
                layouts(m)[k],
            );
        if is_write_multiple(m[1]) && n <= 6 {
            assert(layouts(buf) == seq![response_of(8)]);
            assert(layouts(buf)[0].len == 8);
            assert(plausible(buf, layouts(buf)[0]));
        } else {
            if is_write_multiple(m[1]) {
                assert(buf[6] == m[6]);
            }
            assert(layouts(buf) == layouts(m));
            let c = layouts(buf)[k];
            if n >= 6 {
                assert(buf[4] == m[4] && buf[5] == m[5]);
                assert(be16(buf, 4) == be16(m, 4));
            }
            assert(plausible(buf, c));
            assert(layouts(buf)[0].len >= c.len);
            assert forall|j: int| 0 <= j < layouts(buf).len() && (#[trigger] layouts(buf)[j]).len
                <= n implies !crate::algorithms::modbus_crc_holds(
                buf.take(layouts(buf)[j].len as int),
            ) by {
                assert(layouts(m)[j].len != m.len());
                assert(buf.take(layouts(m)[j].len as int) == stream.take(
                    layouts(m)[j].len as int,
                ));
            }
            if layouts(buf).len() > 1 {
                assert(layouts(buf)[1] == layouts(m)[1]);
            }
        }
    }
}

proof fn lemma_correct_parts(messages: Seq<Seq<u8>>, n: int, address: Option<u8>)
    requires
        is_correct(messages, address),
        0 <= n <= joined(messages).len(),
    ensures
        0 <= held(messages, n) <= messages.len(),
        is_correct(messages.skip(held(messages, n)), address),
        0 <= over(messages, n) <= joined(messages.skip(held(messages, n))).len(),
        held(messages, n) < messages.len() ==> over(messages, n) < messages[held(
            messages,
            n,
        )].len(),
        joined(messages).skip(n) == joined(messages.skip(held(messages, n))).skip(
            over(messages, n),
        ),
    decreases messages.len(),
{
    assert(messages.skip(0) == messages);
    if messages.len() > 0 && messages[0].len() <= n {
        let rest = messages.skip(1);
        let m = n - messages[0].len();
        lemma_correct_parts(rest, m, address);
        assert(rest.skip(held(rest, m)) == messages.skip(held(messages, n)));
        assert(joined(messages).skip(n) == joined(rest).skip(m));
    }
}

proof fn lemma_correct_is_read(state: StreamState, messages: Seq<Seq<u8>>, n: int)
    requires
        is_correct(messages, state.address),
        0 <= n <= joined(messages).len(),
        state.buf == joined(messages).take(n),
    ensures
        raws(drained(state, false).0) == messages.take(held(messages, n)),
        forall|k: int|
            0 <= k < drained(state, false).0.len() ==> (#[trigger] drained(
                state,
                false,
            ).0[k]).crc_valid,
        drained(state, false).1.buf == joined(messages.skip(held(messages, n))).take(
            over(messages, n),
        ),
        drained(state, false).1.address == state.address,
        drained(state, false).1.policy == state.policy,
    decreases messages.len(),
{
    lemma_correct_parts(messages, n, state.address);
    let stream = joined(messages);
    let here = headed(state);
    assert(messages.skip(0) == messages);
    if messages.len() == 0 {
        assert(state.buf =~= Seq::<u8>::empty());
        assert(raws(drained(state, false).0) =~= messages.take(0));
    } else {
        let m = messages[0];
        assert(stream.take(m.len() as int) == m);
        assert(is_whole(m, state.address));
        assert(n > 0 ==> state.buf[0] == m[0]);
        assert(here.buf == state.buf);
        if m.len() > n {
            lemma_part_is_kept(m, n, state.policy, stream);
            assert(raws(drained(state, false).0) =~= messages.take(0));
        } else {
            lemma_head_is_taken(stream, m, n, state.policy);
            lemma_taken_layouts(here.buf, here.policy, false);
            let c = decision(here.buf, here.policy, false)->Take_0;
            let after = state_after(here, c);
            let rest = messages.skip(1);
            assert(after.buf == joined(rest).take(n - m.len()));
            lemma_correct_is_read(after, rest, n - m.len());
            lemma_correct_parts(rest, n - m.len(), state.address);
            assert(rest.skip(held(rest, n - m.len())) == messages.skip(held(messages, n)));
            let all = drained(state, false).0;
            let later = drained(after, false).0;
            assert(all.len() == later.len() + 1);
            assert(raws(later).len() == held(rest, n - m.len()));
            assert(later.len() == held(rest, n - m.len()));
            assert(all[0].raw == here.buf.take(c.len as int));
            assert(all[0].raw == m);
            assert forall|k: int| 0 <= k < all.len() implies (#[trigger] all[k]).crc_valid
                && all[k].raw == messages[k] by {
                if k > 0 {
                    assert(all[k] == later[k - 1]);
                    assert(raws(later)[k - 1] == rest[k - 1]);
                }
            }
            assert(raws(all) =~= messages.take(held(messages, n)));
        }
    }
}

proof fn lemma_whole_is_short(m: Seq<u8>, address: Option<u8>)
    requires
        is_whole(m, address),
    ensures
        m.len() <= 264,
{
    let k = choose|k: int|
        0 <= k < layouts(m).len() && (#[trigger] layouts(m)[k]).len == m.len() && plausible(
            m,
            layouts(m)[k],
        );
    assert(layouts(m)[k].len <= 264);
}

proof fn lemma_correct_piece(
    lenient: StreamState,
    messages: Seq<Seq<u8>>,
    n: int,
    piece: Seq<u8>,
    by_frame: bool,
)
    requires
        lenient.policy is Lenient,
        is_correct(messages, lenient.address),
        0 <= n,
        n + piece.len() <= joined(messages).len(),
        lenient.buf == joined(messages).take(n),
        piece == joined(messages).subrange(n, n + piece.len()),
        piece.len() > 0,
    ensures
        ({
            let k = held(messages, n + piece.len());
            let calm = fed(lenient, piece, by_frame);
            let rigid = fed(under(lenient, CrcPolicy::Strict), piece, by_frame);
            &&& calm.0 == rigid.0
            &&& rigid.1 == under(calm.1, CrcPolicy::Strict)
            &&& calm.1.policy is Lenient
            &&& calm.1.address == lenient.address
            &&& calm.1.buf == joined(messages.skip(k)).take(over(messages, n + piece.len()))
            &&& raws(calm.0) == messages.take(k)
            &&& forall|i: int| 0 <= i < calm.0.len() ==> (#[trigger] calm.0[i]).crc_valid
        }),
{
    let longer = grown(lenient, piece, by_frame);
    let m = n + piece.len();
    let k = held(messages, m);
    assert(longer.buf =~= joined(messages).take(m));
    lemma_correct_parts(messages, m, lenient.address);
    lemma_correct_is_read(longer, messages, m);
    assert(under(longer, CrcPolicy::Lenient) == longer);
    assert(under(longer, CrcPolicy::Strict) == grown(
        under(lenient, CrcPolicy::Strict),
        piece,
        by_frame,
    ));
    law_policies_agree_on_correct_crcs(longer, false);
    let left = drained(longer, false).1;
    if k < messages.len() {
        assert(messages.skip(k)[0] == messages[k]);
        lemma_whole_is_short(messages[k], lenient.address);
    } else {
        assert(joined(messages.skip(k)).len() == 0);
    }
    assert(left.buf.len() <= MAX_BUFFER);
    assert(capped(left) == left);
    assert(capped(under(left, CrcPolicy::Strict)) == under(left, CrcPolicy::Strict));
}

proof fn lemma_joined_piece(messages: Seq<Seq<u8>>, n: int, pieces: Seq<Seq<u8>>)
    requires
        pieces.len() > 0,
        0 <= n <= joined(messages).len(),
        joined(pieces) == joined(messages).skip(n),
    ensures
        n + pieces[0].len() <= joined(messages).len(),
        pieces[0] == joined(messages).subrange(n, n + pieces[0].len()),
        joined(pieces.skip(1)) == joined(messages).skip(n + pieces[0].len()),
{
    let stream = joined(messages);
    let piece = pieces[0];
    let tail = pieces.skip(1);
    let m = n + piece.len();
    assert(joined(pieces).len() == piece.len() + joined(tail).len());
    assert(piece =~= joined(pieces).take(piece.len() as int));
    assert(piece =~= stream.subrange(n, m));
    assert(joined(tail) =~= joined(pieces).skip(piece.len() as int));
    assert(joined(pieces).skip(piece.len() as int) =~= stream.skip(m));
}

proof fn lemma_raws_joined(
    first: Seq<MessageView>,
    later: Seq<MessageView>,
    messages: Seq<Seq<u8>>,
    k: int,
)
    requires
        0 <= k <= messages.len(),
        raws(first) == messages.take(k),
        raws(later) == messages.skip(k),
        forall|i: int| 0 <= i < first.len() ==> (#[trigger] first[i]).crc_valid,
        forall|i: int| 0 <= i < later.len() ==> (#[trigger] later[i]).crc_valid,
    ensures
        raws(first + later) == messages,
        forall|i: int| 0 <= i < (first + later).len() ==> (#[trigger] (first + later)[i]).crc_valid,
{
    assert(messages.take(k) + messages.skip(k) =~= messages);
    assert(raws(first + later) =~= raws(first) + raws(later));
}

#[verifier::rlimit(40)]
#[verifier::spinoff_prover]
proof fn lemma_correct_is_fed(
    lenient: StreamState,
    messages: Seq<Seq<u8>>,
    n: int,
    pieces: Seq<Seq<u8>>,
    by_frame: bool,
)
    requires
        lenient.policy is Lenient,
        is_correct(messages, lenient.address),
        0 <= n <= joined(messages).len(),
        messages.len() > 0 ==> n < messages[0].len(),
        lenient.buf == joined(messages).take(n),
        joined(pieces) == joined(messages).skip(n),
    ensures
        ({
            let calm = fed_all(lenient, pieces, by_frame);
            let rigid = fed_all(under(lenient, CrcPolicy::Strict), pieces, by_frame);
            &&& rigid.0 == calm.0
            &&& raws(calm.0) == messages
            &&& forall|k: int| 0 <= k < calm.0.len() ==> (#[trigger] calm.0[k]).crc_valid
            &&& calm.1.buf.len() == 0
            &&& rigid.1.buf.len() == 0
        }),
    decreases pieces.len(),
{
    let strict = under(lenient, CrcPolicy::Strict);
    if pieces.len() == 0 {
        assert(joined(messages).skip(n).len() == 0);
        assert(messages.len() == 0);
        assert(raws(fed_all(lenient, pieces, by_frame).0) =~= messages);
    } else {
        let piece = pieces[0];
        let tail = pieces.skip(1);
        if piece.len() == 0 {
            assert(joined(pieces) =~= joined(tail));
            lemma_correct_is_fed(lenient, messages, n, tail, by_frame);
            let later = fed_all(lenient, tail, by_frame).0;
            assert(Seq::<MessageView>::empty() + later =~= later);
        } else {
            let m = n + piece.len();
            lemma_joined_piece(messages, n, pieces);
            lemma_correct_parts(messages, m, lenient.address);
            lemma_correct_piece(lenient, messages, n, piece, by_frame);
            let k = held(messages, m);
            let rest = messages.skip(k);
            let left = over(messages, m);
            let calm = fed(lenient, piece, by_frame);
            if k < messages.len() {
                assert(rest[0] == messages[k]);
            }
            lemma_correct_is_fed(calm.1, rest, left, tail, by_frame);
            let later = fed_all(calm.1, tail, by_frame).0;
            lemma_raws_joined(calm.0, later, messages, k);
            assert(fed_all(lenient, pieces, by_frame).0 == calm.0 + later);
        }
    }
}

/// On a stream of correct messages the two policies are identical, however it is cut
/// into pieces: both report the messages that it is made of, each with its CRC
/// vouched for, and keep nothing back.
pub proof fn law_policies_agree_on_correct_streams(
    messages: Seq<Seq<u8>>,
    pieces: Seq<Seq<u8>>,
    address: Option<u8>,
    by_frame: bool,
)
    requires
        is_correct(messages, address),
        joined(pieces) == joined(messages),
    ensures
        ({
            let strict = fed_all(fresh(address, CrcPolicy::Strict), pieces, by_frame);
            let lenient = fed_all(fresh(address, CrcPolicy::Lenient), pieces, by_frame);
            &&& strict.0 == lenient.0
            &&& raws(strict.0) == messages
            &&& forall|k: int| 0 <= k < strict.0.len() ==> (#[trigger] strict.0[k]).crc_valid
            &&& strict.1.buf.len() == 0
            &&& lenient.1.buf.len() == 0
        }),
{
    let lenient = fresh(address, CrcPolicy::Lenient);
    let strict = fresh(address, CrcPolicy::Strict);
    assert(joined(messages).skip(0) =~= joined(messages));
    assert(joined(messages).take(0) =~= lenient.buf);
    if messages.len() > 0 {
        assert(is_whole(messages[0], address));
    }
    assert(strict == under(lenient, CrcPolicy::Strict));
    lemma_correct_is_fed(lenient, messages, 0, pieces, by_frame);
}

/// Two messages that differ at most in how many frames carried them.
pub open spec fn same_but_for_frames(a: MessageView, b: MessageView) -> bool {
    a == (MessageView { frame_count: a.frame_count, ..b })
}

/// Counting frames changes nothing but the counts: a stream whose bytes came in other
/// frames yields the same messages, apart from `frame_count`.
pub proof fn law_frame_counts_do_not_affect_reassembly(
    state: StreamState,
    starts: Seq<bool>,
    at_end: bool,
)
    ensures
        ({
            let other = drained(StreamState { starts, ..state }, at_end);
            let this = drained(state, at_end);
            &&& this.0.len() == other.0.len()
            &&& forall|k: int|
                0 <= k < this.0.len() ==> same_but_for_frames(#[trigger] this.0[k], other.0[k])
            &&& this.1 == (StreamState { starts: this.1.starts, ..other.1 })
        }),
    decreases state.buf.len(),
{
    let twin = StreamState { starts, ..state };
    lemma_synced_shrinks(state.buf, state.address);
    let here = headed(state);
    let there = headed(twin);
    lemma_taken_layouts(here.buf, here.policy, at_end);
    match decision(here.buf, here.policy, at_end) {
        Decision::Take(c, crc_valid) => {
            let mine = state_after(here, c);
            let its = state_after(there, c);
            assert(its == (StreamState { starts: its.starts, ..mine }));
            law_frame_counts_do_not_affect_reassembly(mine, its.starts, at_end);
            let this = drained(state, at_end).0;
            let other = drained(twin, at_end).0;
            assert forall|k: int| 0 <= k < this.len() implies same_but_for_frames(
                #[trigger] this[k],
                other[k],
            ) by {
                if k > 0 {
                    assert(this[k] == drained(mine, at_end).0[k - 1]);
                    assert(other[k] == drained(its, at_end).0[k - 1]);
                }
            }
        },
        Decision::NoMessage => {
            if !at_end {
                let mine = advanced(here, 1);
                let its = advanced(there, 1);
                assert(its == (StreamState { starts: its.starts, ..mine }));
                law_frame_counts_do_not_affect_reassembly(mine, its.starts, at_end);
            }
        },
        Decision::NeedMore => {},
    }
}

/// Whether a state marks each of its buffered bytes.
pub open spec fn is_marked(state: StreamState) -> bool {
    state.starts.len() == state.buf.len()
}

proof fn lemma_drained_is_marked(state: StreamState, at_end: bool)
    requires
        is_marked(state),
    ensures
        is_marked(drained(state, at_end).1),
    decreases state.buf.len(),
{
    lemma_synced_shrinks(state.buf, state.address);
    let here = headed(state);
    lemma_taken_layouts(here.buf, here.policy, at_end);
    match decision(here.buf, here.policy, at_end) {
        Decision::Take(c, _) => {
            lemma_drained_is_marked(state_after(here, c), at_end);
        },
        Decision::NoMessage => {
            if !at_end {
                lemma_drained_is_marked(advanced(here, 1), at_end);
            }
        },
        Decision::NeedMore => {},
    }
}

/// Every buffered byte stays marked with whether it is the first of a frame: a fresh
/// stream marks none of its no bytes, and feeding marks each new one.
pub proof fn law_every_buffered_byte_is_marked(
    state: StreamState,
    bytes: Seq<u8>,
    by_frame: bool,
    address: Option<u8>,
    policy: CrcPolicy,
)
    requires
        is_marked(state),
    ensures
        is_marked(fresh(address, policy)),
        is_marked(fed(state, bytes, by_frame).1),
{
    if bytes.len() > 0 {
        lemma_drained_is_marked(grown(state, bytes, by_frame), false);
    }
}

proof fn lemma_one_frame(starts: Seq<bool>, n: int)
    requires
        forall|i: int| 1 <= i < n && i < starts.len() ==> !#[trigger] starts[i],
    ensures
        frames_in(starts, n) == 1,
    decreases n,
{
    if n > 1 {
        lemma_one_frame(starts, n - 1);
    }
}

proof fn lemma_unframed_counts_one(state: StreamState, at_end: bool, k: int)
    requires
        forall|i: int| 0 <= i < state.starts.len() ==> !#[trigger] state.starts[i],
        0 <= k < drained(state, at_end).0.len(),
    ensures
        drained(state, at_end).0[k].frame_count == 1,
    decreases state.buf.len(),
{
    lemma_synced_shrinks(state.buf, state.address);
    let here = headed(state);
    lemma_taken_layouts(here.buf, here.policy, at_end);
    match decision(here.buf, here.policy, at_end) {
        Decision::Take(c, _) => {
            lemma_one_frame(here.starts, c.len as int);
            if k > 0 {
                lemma_unframed_counts_one(state_after(here, c), at_end, k - 1);
            }
        },
        Decision::NoMessage => {
            if !at_end {
                lemma_unframed_counts_one(advanced(here, 1), at_end, k);
            }
        },
        Decision::NeedMore => {},
    }
}

/// A message that raw bytes complete counts as one frame, whatever was buffered before.
pub proof fn law_messages_of_raw_bytes_count_one(state: StreamState, bytes: Seq<u8>, k: int)
    requires
        0 <= k < fed(state, bytes, false).0.len(),
    ensures
        fed(state, bytes, false).0[k].frame_count == 1,
{
    lemma_unframed_counts_one(grown(state, bytes, false), false, k);
}

/// A finished stream has nothing left: finishing again yields no message and no
/// residue.
pub proof fn law_finishing_twice_yields_nothing(state: StreamState)
    requires
        state.buf.len() == 0,
    ensures
        drained(state, true).0.len() == 0,
        drained(state, true).1.buf.len() == 0,
{
}

/// A message is labelled the same whether its boundary was found in the stream
/// or handed over: where the stream takes exactly the bytes of `raw`, the framed
/// reading chooses the same direction and gives the same verdict on the CRC. The
/// one exception is a lenient guess where both layouts have that length and the
/// first contradicts its header.
pub proof fn law_framed_and_streamed_readings_agree(
    state: StreamState,
    raw: Seq<u8>,
    at_end: bool,
)
    requires
        raw.len() >= 4,
        address_accepts(state.address, raw[0]),
        decision(raw, state.policy, at_end) matches Decision::Take(c, crc_valid) && {
            &&& c.len == raw.len()
            &&& crc_valid || layouts(raw)[0] == c || layouts(raw)[0].len != raw.len()
        },
    ensures
        framed_accepts(state.address, raw),
        decision(raw, state.policy, at_end) matches Decision::Take(c, crc_valid) && {
            &&& framed_layout(raw) == Some(c)
            &&& crc_valid == crate::algorithms::modbus_crc_holds(raw)
        },
{
    lemma_taken_layouts(raw, state.policy, at_end);
    if let Decision::Take(c, crc_valid) = decision(raw, state.policy, at_end) {
        assert(raw.take(c.len as int) == raw);
        let all = layouts(raw);
        assert(all[0] == c || all[1] == c);
        assert(all[0].len == raw.len() ==> raw.take(all[0].len as int) == raw);
    }
}

// ---------------------------------------------------------------------------
// What messages carry
// ---------------------------------------------------------------------------

/// The lengths a message may have: eight bytes for a request to read and for a single
/// write and its echo, five and its data for what a read answers, nine and its data for
/// a request to write several and eight for what answers it, and five for an exception.
pub proof fn law_messages_have_their_length(head: Seq<u8>, c: Candidate)
    requires
        head.len() >= 7,
        layouts(head).contains(c),
    ensures
        ({
            let f = head[1];
            &&& f >= 0x80 ==> c.len == 5 && c.direction is Response
            &&& 1 <= f <= 4 && c.direction is Request ==> c.len == 8
            &&& 1 <= f <= 4 && c.direction is Response ==> c.len == 5 + head[2]
            &&& f == 5 || f == 6 ==> c.len == 8
            &&& (f == 15 || f == 16) && c.direction is Request ==> c.len == 9 + head[6]
            &&& (f == 15 || f == 16) && c.direction is Response ==> c.len == 8
            &&& 1 <= f <= 6 || f == 15 || f == 16 || f >= 0x80
        }),
{
    let k = choose|k: int| 0 <= k < layouts(head).len() && layouts(head)[k] == c;
}

/// Every length that a message of a known function may have is tried.
pub proof fn law_every_layout_is_tried(head: Seq<u8>)
    requires
        head.len() >= 7,
    ensures
        ({
            let f = head[1];
            &&& f >= 0x80 ==> layouts(head).contains(
                Candidate { len: 5, direction: Direction::Response },
            )
            &&& 1 <= f <= 6 ==> layouts(head).contains(
                Candidate { len: 8, direction: Direction::Request },
            )
            &&& 1 <= f <= 4 ==> layouts(head).contains(
                Candidate { len: (5 + head[2]) as usize, direction: Direction::Response },
            )
            &&& f == 15 || f == 16 ==> layouts(head).contains(
                Candidate { len: 8, direction: Direction::Response },
            ) && layouts(head).contains(
                Candidate { len: (9 + head[6]) as usize, direction: Direction::Request },
            )
        }),
{
    let all = layouts(head);
    let f = head[1];
    if f >= 0x80 {
        assert(all[0] == Candidate { len: 5, direction: Direction::Response });
    } else if 1 <= f <= 4 {
        let request = Candidate { len: 8, direction: Direction::Request };
        let response = Candidate {
            len: (5 + head[2]) as usize,
            direction: Direction::Response,
        };
        assert(all[0] == request && all[1] == response || all[0] == response && all[1] == request);
    } else if f == 5 || f == 6 {
        assert(all[0] == Candidate { len: 8, direction: Direction::Request });
    } else if f == 15 || f == 16 {
        assert(all[0] == Candidate {
            len: (9 + head[6]) as usize,
            direction: Direction::Request,
        });
        assert(all[1] == Candidate { len: 8, direction: Direction::Response });
    }
}

/// A request to read carries a start register and a quantity, most significant byte
/// first, and becomes the outstanding one. What answers it carries the registers, and
/// takes its start and quantity from the request, which it uses up.
pub proof fn law_reads_are_answered(request: Seq<u8>, response: Seq<u8>, before: Outstanding, i: int)
    requires
        request.len() == 8,
        1 <= request[1] <= 4,
        response.len() >= 5,
        response[1] == request[1],
        response.len() == 5 + response[2],
    ensures
        ({
            let asked = body_of(request, Direction::Request, before);
            let outstanding = outstanding_after(request, Direction::Request, before);
            let told = body_of(response, Direction::Response, outstanding);
            &&& asked.direction is Request
            &&& asked.start_register == Some((request[2] * 256 + request[3]) as u16)
            &&& asked.quantity == Some((request[4] * 256 + request[5]) as u16)
            &&& asked.registers.len() == 0
            &&& asked.exception is None
            &&& told.direction is Response
            &&& told.start_register == asked.start_register
            &&& told.quantity == asked.quantity
            &&& told.exception is None
            &&& told.registers.len() == response[2] / 2
            &&& 0 <= i < told.registers.len() ==> told.registers[i] == response[3 + 2 * i] * 256
                + response[4 + 2 * i]
            &&& outstanding_after(response, Direction::Response, outstanding) is None
        }),
{
}

/// A single write carries its register and its value. The first is the request; one that
/// follows it with the same function is its echo.
pub proof fn law_single_writes_are_echoed(raw: Seq<u8>, before: Outstanding)
    requires
        raw.len() == 8,
        raw[1] == 5 || raw[1] == 6,
    ensures
        ({
            let body = body_of(raw, Direction::Request, before);
            let echo = body_of(
                raw,
                Direction::Request,
                outstanding_after(raw, Direction::Request, before),
            );
            &&& body.start_register == Some((raw[2] * 256 + raw[3]) as u16)
            &&& body.quantity == Some(1u16)
            &&& body.registers.len() == 1
            &&& body.registers[0] == raw[4] * 256 + raw[5]
            &&& body.exception is None
            &&& body.direction is Response <==> before is Some && before->Some_0.0 == raw[1]
            &&& before is None ==> echo.direction is Response
            &&& before is None ==> outstanding_after(
                raw,
                Direction::Request,
                outstanding_after(raw, Direction::Request, before),
            ) is None
        }),
{
}

/// A request to write several carries its start, its quantity and the registers; what
/// answers it carries the start and the quantity.
pub proof fn law_multiple_writes_carry_their_registers(raw: Seq<u8>, before: Outstanding, i: int)
    requires
        raw[1] == 15 || raw[1] == 16,
        raw.len() >= 8,
    ensures
        raw.len() == 9 + raw[6] ==> {
            let body = body_of(raw, Direction::Request, before);
            &&& body.direction is Request
            &&& body.start_register == Some((raw[2] * 256 + raw[3]) as u16)
            &&& body.quantity == Some((raw[4] * 256 + raw[5]) as u16)
            &&& body.registers.len() == raw[6] / 2
            &&& 0 <= i < body.registers.len() ==> body.registers[i] == raw[7 + 2 * i] * 256
                + raw[8 + 2 * i]
            &&& body.exception is None
            &&& outstanding_after(raw, Direction::Request, before) == Some(
                (raw[1], body.start_register->Some_0, body.quantity->Some_0),
            )
        },
        raw.len() == 8 ==> {
            let body = body_of(raw, Direction::Response, before);
            &&& body.direction is Response
            &&& body.start_register == Some((raw[2] * 256 + raw[3]) as u16)
            &&& body.quantity == Some((raw[4] * 256 + raw[5]) as u16)
            &&& body.registers.len() == 0
            &&& body.exception is None
        },
{
}

/// An exception carries its code, no registers, and where the request asked.
pub proof fn law_exceptions_carry_their_code(raw: Seq<u8>, function: u8, start: u16, quantity: u16)
    requires
        raw.len() == 5,
        raw[1] >= 0x80,
    ensures
        ({
            let body = body_of(raw, Direction::Response, Some((function, start, quantity)));
            &&& body.exception == Some(raw[2])
            &&& body.direction is Response
            &&& body.registers.len() == 0
            &&& body.start_register == Some(start)
            &&& body.quantity == Some(quantity)
            &&& outstanding_after(
                raw,
                Direction::Response,
                Some((function, start, quantity)),
            ) is None
        }),
{
}

} // verus!
