//! Tunnelled-protocol decoding: recovering messages from a byte stream that
//! was chopped across consecutive frames.
//!
//! A catalogue's bit layouts are stateless — one frame's bytes in, that frame's
//! signals out. A tunnel breaks that: a Sungrow SBR's CAN `0x1E0` carries a
//! Modbus RTU stream where a 17-byte response arrives as 8 + 8 + 1, and both the
//! request and the reply land on the same CAN id. Nothing in a bit-layout
//! catalogue can express "concatenate the next N payloads", so the framing lives
//! here and the catalogue only declares that the frame *is* a tunnel
//! ([`FrameTunnel`]).
//!
//! This is the plain form of the reassembler: it trusts nothing but the CRC, and
//! gives up on the head of the buffer only once every layout it could have has
//! arrived in full. [`crate::modbus_rtu_stream`] judges headers as well.

use crate::algorithms::crc16_modbus_valid;
use crate::modbus_rtu_stream::{
    candidates, count_frames, drop_starts, interpret_bytes, mark_starts, registers_to_bytes, Candidate,
};
use crate::model::FrameTunnel;
use crate::protocol::MAX_RTU_LEN;
use vstd::prelude::*;

pub use crate::modbus_rtu_stream::{Direction, MAX_BUFFER};

verus! {

/// One complete, CRC-validated Modbus RTU message recovered from the stream.
#[derive(Debug, Clone, PartialEq)]
pub struct TunnelMessage {
    pub direction: Direction,
    pub device_address: u8,
    pub function: u8,
    /// First register. Present on requests and on write responses, which echo
    /// it; a read response carries only data, so this is filled in from the
    /// request it answers.
    pub start_register: Option<u16>,
    /// Register/coil count. Same provenance as `start_register`.
    pub quantity: Option<u16>,
    /// Register values, for messages that carry a data block.
    pub registers: Vec<u16>,
    /// Exception code, when the function code had its high bit set.
    pub exception: Option<u8>,
    /// The reassembled message, CRC included.
    pub raw: Vec<u8>,
    /// How many frames contributed bytes to this message.
    pub frame_count: u32,
}

/// What a tunnel message says, as a mathematical value.
#[verifier::ext_equal]
pub struct TunnelMessageView {
    pub body: crate::modbus_rtu_stream::Body,
    pub device_address: u8,
    pub function: u8,
    pub raw: Seq<u8>,
    pub frame_count: u32,
}

impl View for TunnelMessage {
    type V = TunnelMessageView;

    open spec fn view(&self) -> TunnelMessageView {
        TunnelMessageView {
            body: crate::modbus_rtu_stream::Body {
                direction: self.direction,
                start_register: self.start_register,
                quantity: self.quantity,
                registers: self.registers@,
                exception: self.exception,
            },
            device_address: self.device_address,
            function: self.function,
            raw: self.raw@,
            frame_count: self.frame_count,
        }
    }
}

impl TunnelMessage {
    /// The register block as big-endian bytes, for [`crate::decode`].
    pub fn register_bytes(&self) -> (r: Vec<u8>)
        ensures
            r@ == crate::modbus_rtu_stream::big_endian_bytes(self.registers@),
    {
        registers_to_bytes(self.registers.as_slice())
    }
}

/// What each of a list of messages says.
pub open spec fn told(messages: Seq<TunnelMessage>) -> Seq<TunnelMessageView> {
    messages.map_values(|m: TunnelMessage| m@)
}

/// The state of a tunnel, as a mathematical value.
#[verifier::ext_equal]
pub struct TunnelState {
    pub buf: Seq<u8>,
    pub address: Option<u8>,
    /// Of each buffered byte, whether it is the first that a frame brought.
    pub starts: Seq<bool>,
    pub outstanding: crate::modbus_rtu_stream::Outstanding,
}

/// The longest layout the head of a buffer could have; 0 where it has none.
pub open spec fn longest_layout(buf: Seq<u8>) -> int {
    if crate::modbus_rtu_stream::layouts(buf).len() > 0 {
        crate::modbus_rtu_stream::layouts(buf)[0].len as int
    } else {
        0
    }
}

/// What the head of a buffer calls for: a layout whose CRC holds is a message;
/// otherwise the head is junk once the longest layout has arrived.
pub open spec fn head_of(buf: Seq<u8>) -> crate::modbus_rtu_stream::Decision {
    if buf.len() < 4 {
        crate::modbus_rtu_stream::Decision::NeedMore
    } else if crate::modbus_rtu_stream::validated(buf) is Some {
        crate::modbus_rtu_stream::Decision::Take(
            crate::modbus_rtu_stream::validated(buf)->Some_0,
            true,
        )
    } else if buf.len() >= longest_layout(buf) {
        crate::modbus_rtu_stream::Decision::NoMessage
    } else {
        crate::modbus_rtu_stream::Decision::NeedMore
    }
}

/// The message made of the first `c.len` bytes.
pub open spec fn tunnelled(state: TunnelState, c: Candidate) -> TunnelMessageView {
    let raw = state.buf.take(c.len as int);
    TunnelMessageView {
        body: crate::modbus_rtu_stream::body_of(raw, c.direction, state.outstanding),
        device_address: raw[0],
        function: raw[1],
        raw,
        frame_count: crate::modbus_rtu_stream::frames_in(state.starts, c.len as int) as u32,
    }
}

/// A state without the first `n` bytes of its buffer.
pub open spec fn passed(state: TunnelState, n: int) -> TunnelState {
    TunnelState {
        buf: state.buf.skip(n),
        starts: crate::modbus_rtu_stream::behind(state.starts, n),
        ..state
    }
}

/// A state without the bytes before the first that can start a message.
pub open spec fn at_address(state: TunnelState) -> TunnelState {
    let rest = crate::modbus_rtu_stream::synced(state.buf, state.address);
    TunnelState {
        buf: rest,
        starts: crate::modbus_rtu_stream::behind(state.starts, state.buf.len() - rest.len()),
        ..state
    }
}

/// The state once those bytes have left the buffer.
pub open spec fn tunnel_after(state: TunnelState, c: Candidate) -> TunnelState {
    let raw = state.buf.take(c.len as int);
    TunnelState {
        outstanding: crate::modbus_rtu_stream::outstanding_after(
            raw,
            c.direction,
            state.outstanding,
        ),
        ..passed(state, c.len as int)
    }
}

/// Every message a tunnel's buffer yields, and the state that leaves.
pub open spec fn emptied(state: TunnelState) -> (Seq<TunnelMessageView>, TunnelState)
    decreases state.buf.len(),
{
    let here = at_address(state);
    if here.buf.len() > state.buf.len() {
        (Seq::empty(), here)
    } else {
        match head_of(here.buf) {
            crate::modbus_rtu_stream::Decision::Take(c, _) => {
                if 0 < c.len <= here.buf.len() {
                    let rest = emptied(tunnel_after(here, c));
                    (seq![tunnelled(here, c)] + rest.0, rest.1)
                } else {
                    (Seq::empty(), here)
                }
            },
            crate::modbus_rtu_stream::Decision::NoMessage => {
                if here.buf.len() > 0 {
                    emptied(passed(here, 1))
                } else {
                    (Seq::empty(), here)
                }
            },
            crate::modbus_rtu_stream::Decision::NeedMore => (Seq::empty(), here),
        }
    }
}

/// What feeding one frame's payload yields, and the state that leaves.
pub open spec fn tunnel_fed(state: TunnelState, bytes: Seq<u8>) -> (
    Seq<TunnelMessageView>,
    TunnelState,
) {
    if bytes.len() == 0 {
        (Seq::empty(), state)
    } else {
        let result = emptied(
            TunnelState {
                buf: state.buf + bytes,
                starts: state.starts + crate::modbus_rtu_stream::brought(bytes.len(), true),
                ..state
            },
        );
        if result.1.buf.len() > MAX_BUFFER {
            (result.0, passed(result.1, result.1.buf.len() - MAX_BUFFER))
        } else {
            result
        }
    }
}

/// What one pass over the head of the buffer achieved.
enum Step {
    Message(TunnelMessage),
    /// A junk byte was dropped — the head moved, so it is worth another pass.
    Resynced,
    /// Nothing to do until more bytes arrive.
    NeedMore,
}

/// Reassembles one tunnel's byte stream and yields complete Modbus RTU messages.
///
/// One instance per (session, frame id) — the buffer is the tunnel's serial
/// line, and interleaving two tunnels into it would corrupt both.
#[derive(Debug)]
pub struct ModbusTunnel {
    buf: Vec<u8>,
    device_address: Option<u8>,
    /// Of each byte in `buf`, whether it is the first that a frame brought, so a
    /// completed message can report how many frames it spanned.
    starts: Vec<bool>,
    /// The last request seen, as `(function, start_register, quantity)`. Read
    /// responses carry no register address, and FC06's request and response are
    /// byte-identical in shape, so both lean on this.
    last_request: Option<(u8, u16, u16)>,
}

impl View for ModbusTunnel {
    type V = TunnelState;

    closed spec fn view(&self) -> TunnelState {
        TunnelState {
            buf: self.buf@,
            address: self.device_address,
            starts: self.starts@,
            outstanding: self.last_request,
        }
    }
}

impl ModbusTunnel {
    pub fn new(tunnel: &FrameTunnel) -> (r: Self)
        ensures
            r@ == (TunnelState {
                buf: Seq::empty(),
                address: tunnel.device_address,
                starts: Seq::empty(),
                outstanding: None,
            }),
    {
        Self {
            buf: Vec::with_capacity(MAX_RTU_LEN),
            device_address: tunnel.device_address,
            starts: Vec::new(),
            last_request: None,
        }
    }

    /// The bytes received and not yet consumed.
    pub fn buffered(&self) -> (r: &[u8])
        ensures
            r@ == self@.buf,
    {
        self.buf.as_slice()
    }

    /// Feed one frame's payload; return every message it completed.
    pub fn push(&mut self, bytes: &[u8]) -> (r: Vec<TunnelMessage>)
        ensures
            (told(r@), final(self)@) == tunnel_fed(old(self)@, bytes@),
    {
        let mut out: Vec<TunnelMessage> = Vec::new();
        assert(told(out@) == Seq::<TunnelMessageView>::empty());
        if bytes.len() == 0 {
            return out;
        }
        self.buf.extend_from_slice(bytes);
        assert(self.buf@ == old(self).buf@ + bytes@);
        mark_starts(&mut self.starts, bytes.len(), true);
        let ghost start = self@;
        assert(told(out@) + emptied(start).0 == emptied(start).0);
        loop
            invariant_except_break
                emptied(start).0 == told(out@) + emptied(self@).0,
                emptied(start).1 == emptied(self@).1,
            ensures
                (told(out@), self@) == emptied(start),
            decreases self.buf@.len(),
        {
            let ghost before = self@;
            proof {
                crate::modbus_rtu_stream::lemma_synced_shrinks(before.buf, before.address);
            }
            self.skip_to_address();
            let ghost here = self@;
            match self.take_message() {
                Step::Message(msg) => {
                    let ghost done = told(out@);
                    let ghost rest = emptied(self@).0;
                    out.push(msg);
                    assert(told(out@) == done.push(msg@));
                    assert(done + (seq![msg@] + rest) == done.push(msg@) + rest);
                },
                // The real message may be right behind the byte we dropped.
                Step::Resynced => {},
                Step::NeedMore => {
                    assert(told(out@) + Seq::<TunnelMessageView>::empty() == told(out@));
                    break ;
                },
            }
        }
        // A desynced stream would otherwise grow without bound.
        if self.buf.len() > MAX_BUFFER {
            let excess: usize = self.buf.len() - MAX_BUFFER;
            self.pass(excess);
        }
        out
    }

    /// Drop bytes from the front of the buffer.
    fn pass(&mut self, n: usize)
        requires
            n <= old(self)@.buf.len(),
        ensures
            final(self)@ == passed(old(self)@, n as int),
    {
        self.buf = self.buf.split_off(n);
        drop_starts(&mut self.starts, n);
    }

    /// Discard anything before a plausible address byte; a message can only
    /// start there.
    fn skip_to_address(&mut self)
        ensures
            final(self)@ == at_address(old(self)@),
    {
        proof {
            crate::modbus_rtu_stream::lemma_synced_shrinks(self@.buf, self@.address);
        }
        let mut skip: usize = 0;
        assert(self.buf@.skip(0) == self.buf@);
        while skip < self.buf.len() && !self.address_matches(self.buf[skip])
            invariant
                skip <= self.buf@.len(),
                self@ == old(self)@,
                crate::modbus_rtu_stream::synced(self.buf@, self.device_address)
                    == crate::modbus_rtu_stream::synced(
                    self.buf@.skip(skip as int),
                    self.device_address,
                ),
            decreases self.buf@.len() - skip,
        {
            assert(self.buf@.skip(skip as int).skip(1) == self.buf@.skip(skip + 1));
            skip = skip + 1;
        }
        assert(crate::modbus_rtu_stream::synced(self.buf@, self.device_address) == self.buf@.skip(
            skip as int,
        ));
        self.pass(skip);
    }

    fn address_matches(&self, byte: u8) -> (r: bool)
        ensures
            r == crate::modbus_rtu_stream::address_accepts(self@.address, byte),
    {
        match self.device_address {
            Some(addr) => byte == addr,
            // Broadcast (0) never gets a reply, so it cannot start a message
            // here; 248..=255 are reserved.
            None => 1 <= byte && byte <= 247,
        }
    }

    /// Whether a candidate has arrived in full with a correct CRC.
    fn validates(&self, c: &Candidate) -> (r: bool)
        ensures
            r == (c.len <= self@.buf.len() && crate::algorithms::modbus_crc_holds(
                self@.buf.take(c.len as int),
            )),
    {
        if c.len > self.buf.len() {
            return false;
        }
        let head = vstd::slice::slice_subrange(self.buf.as_slice(), 0, c.len);
        assert(head@ == self.buf@.take(c.len as int));
        crc16_modbus_valid(head)
    }

    /// Try to consume one message from the head of the buffer.
    fn take_message(&mut self) -> (r: Step)
        ensures
            match r {
                Step::Message(m) => {
                    &&& head_of(old(self)@.buf) matches crate::modbus_rtu_stream::Decision::Take(
                        c,
                        _,
                    )
                    &&& 0 < c.len <= old(self)@.buf.len()
                    &&& m@ == tunnelled(old(self)@, c)
                    &&& final(self)@ == tunnel_after(old(self)@, c)
                },
                Step::Resynced => {
                    &&& head_of(old(self)@.buf) is NoMessage
                    &&& old(self)@.buf.len() > 0
                    &&& final(self)@ == passed(old(self)@, 1)
                },
                Step::NeedMore => {
                    &&& head_of(old(self)@.buf) is NeedMore
                    &&& final(self)@ == old(self)@
                },
            },
    {
        if self.buf.len() < 4 {
            return Step::NeedMore;
        }
        // Sorted longest-first, so the first CRC hit is also the longest: a
        // data-bearing message outranks a short one that might coincidentally
        // validate.
        let pair = candidates(self.buf.as_slice());
        let longest: usize = match pair.0 {
            Some(c) => c.len,
            None => 0,
        };
        if let Some(c) = pair.0 {
            if self.validates(&c) {
                return Step::Message(self.build(c));
            }
        }
        if let Some(c) = pair.1 {
            if self.validates(&c) {
                return Step::Message(self.build(c));
            }
        }
        // Only resync once no candidate could still be completed by more bytes —
        // otherwise we would eat the head of a split message. Equality counts:
        // every candidate has been evaluated in full.
        if self.buf.len() >= longest {
            self.pass(1);
            return Step::Resynced;
        }
        Step::NeedMore
    }

    /// Turn validated bytes into a message, resolving what the wire leaves out.
    fn build(&mut self, candidate: Candidate) -> (r: TunnelMessage)
        requires
            old(self)@.buf.len() >= 4,
            crate::modbus_rtu_stream::layouts(old(self)@.buf).contains(candidate),
            candidate.len <= old(self)@.buf.len(),
        ensures
            candidate.len > 0,
            r@ == tunnelled(old(self)@, candidate),
            final(self)@ == tunnel_after(old(self)@, candidate),
    {
        proof {
            let all = crate::modbus_rtu_stream::layouts(self@.buf);
            let k = choose|k: int| 0 <= k < all.len() && all[k] == candidate;
            assert(5 <= all[k].len <= 264);
        }
        let frame_count: u32 = count_frames(self.starts.as_slice(), candidate.len);
        let mut raw: Vec<u8> = self.buf.split_off(candidate.len);
        std::mem::swap(&mut raw, &mut self.buf);
        proof {
            let all = crate::modbus_rtu_stream::layouts(old(self)@.buf);
            let k = choose|k: int| 0 <= k < all.len() && all[k] == candidate;
            assert(all[k].len >= 5);
            assert(raw@ == old(self)@.buf.take(candidate.len as int));
            assert(crate::modbus_rtu_stream::layouts(raw@) == all);
            assert(crate::modbus_rtu_stream::layouts(raw@)[k] == candidate);
        }
        let said = interpret_bytes(raw.as_slice(), candidate.direction, self.last_request);
        self.last_request = said.outstanding;
        drop_starts(&mut self.starts, candidate.len);
        TunnelMessage {
            direction: said.direction,
            device_address: raw[0],
            function: raw[1],
            start_register: said.start_register,
            quantity: said.quantity,
            registers: said.registers,
            exception: said.exception,
            raw,
            frame_count,
        }
    }
}

/// Every message a tunnel reports ends in a correct CRC.
pub proof fn law_tunnel_messages_are_validated(state: TunnelState, k: int)
    requires
        0 <= k < emptied(state).0.len(),
    ensures
        crate::algorithms::modbus_crc_holds(emptied(state).0[k].raw),
    decreases state.buf.len(),
{
    crate::modbus_rtu_stream::lemma_synced_shrinks(state.buf, state.address);
    let here = at_address(state);
    match head_of(here.buf) {
        crate::modbus_rtu_stream::Decision::Take(c, _) => {
            if k > 0 && 0 < c.len <= here.buf.len() {
                law_tunnel_messages_are_validated(tunnel_after(here, c), k - 1);
            }
        },
        crate::modbus_rtu_stream::Decision::NoMessage => {
            if here.buf.len() > 0 {
                law_tunnel_messages_are_validated(passed(here, 1), k);
            }
        },
        crate::modbus_rtu_stream::Decision::NeedMore => {},
    }
}

/// Feeding never leaves more than [`MAX_BUFFER`] bytes buffered.
pub proof fn law_the_tunnel_buffer_stays_bounded(state: TunnelState, bytes: Seq<u8>)
    requires
        state.buf.len() <= MAX_BUFFER,
    ensures
        tunnel_fed(state, bytes).1.buf.len() <= MAX_BUFFER,
{
}

} // verus!
