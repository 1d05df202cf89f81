//! Unified catalogue model shared by all protocols (CAN, Serial, Modbus).
//!
//! This is the *resolved* representation produced by [`crate::parse`]: authoring
//! shorthands are expanded, mirror/copy inheritance is applied, and per-frame
//! defaults are folded in. It is the input to [`crate::decode`].
//!
//! Maps are kept as lists of entries in key order. Each type has a mathematical
//! counterpart, over sequences of characters, that contracts speak of.

use crate::algorithms::ChecksumAlgorithm;
use crate::recover::RecoveredChecksum;
use crate::solve::{AdditiveOp, CrcParameters};
use crate::specification::{ChecksumSpecification, CRC_CUSTOM, SUM8_NEGATED};
use crate::text::{owned, push_decimal, push_text, str_eq};
use crate::value::Number;
use vstd::prelude::*;

verus! {

/// Byte / word ordering.
#[derive(Debug, Clone, Copy, PartialEq, Eq, Structural)]
pub enum Endianness {
    Big,
    Little,
}

/// Which wire protocol a frame/catalogue uses.
#[derive(Debug, Clone, Copy, PartialEq, Eq, Structural)]
pub enum Protocol {
    Can,
    Serial,
    Modbus,
}

/// Modbus register class — determines the function code the poller uses.
#[derive(Debug, Clone, Copy, PartialEq, Eq, Structural)]
pub enum RegisterType {
    Input,
    Holding,
    Coil,
    Discrete,
}

impl Default for RegisterType {
    fn default() -> (r: Self)
        ensures
            r == RegisterType::Holding,
    {
        RegisterType::Holding
    }
}

impl RegisterType {
    /// Whether the bank holds 16-bit registers rather than single bits.
    pub open spec fn holds_registers(self) -> bool {
        self is Input || self is Holding
    }

    /// Whether the bank can be written.
    pub open spec fn accepts_writes(self) -> bool {
        self is Holding || self is Coil
    }

    /// The manifest spelling of the bank.
    pub open spec fn tag(self) -> Seq<char> {
        match self {
            RegisterType::Input => "input"@,
            RegisterType::Holding => "holding"@,
            RegisterType::Coil => "coil"@,
            RegisterType::Discrete => "discrete"@,
        }
    }

    /// The first traditional (1-based) address of the bank.
    pub open spec fn traditional_base(self) -> u32 {
        match self {
            RegisterType::Coil => 1,
            RegisterType::Discrete => 10001,
            RegisterType::Input => 30001,
            RegisterType::Holding => 40001,
        }
    }

    /// Read-only telemetry only reads register banks (input/holding);
    /// coil/discrete are parsed but not polled.
    pub fn is_register_bank(self) -> (r: bool)
        ensures
            r == self.holds_registers(),
    {
        matches!(self, RegisterType::Input | RegisterType::Holding)
    }

    /// Whether this register class can be written. In Modbus, `holding`
    /// (FC06/16) and `coil` (FC05/15) are read/write; `input` (FC04) and
    /// `discrete` (FC02) are read-only.
    pub fn is_writable(self) -> (r: bool)
        ensures
            r == self.accepts_writes(),
    {
        matches!(self, RegisterType::Holding | RegisterType::Coil)
    }

    /// The traditional 1-based address prefix for this bank (`register_base = 1`),
    /// which a wire address is offset from. The only place these four numbers
    /// should appear.
    pub fn base_one_prefix(self) -> (r: u32)
        ensures
            r == self.traditional_base(),
    {
        match self {
            RegisterType::Coil => 1,
            RegisterType::Discrete => 10001,
            RegisterType::Input => 30001,
            RegisterType::Holding => 40001,
        }
    }

    /// Lowercase tag, matching the manifest spelling.
    pub fn as_str(self) -> (r: &'static str)
        ensures
            r@ == self.tag(),
    {
        match self {
            RegisterType::Input => "input",
            RegisterType::Holding => "holding",
            RegisterType::Coil => "coil",
            RegisterType::Discrete => "discrete",
        }
    }
}

/// The protocol carried inside a tunnel frame's payload.
#[derive(Debug, Clone, Copy, PartialEq, Eq, Structural)]
pub enum TunnelProtocol {
    /// Modbus RTU — a byte stream chopped across consecutive frames, with
    /// message boundaries recovered from the RTU length rules and CRC.
    ModbusRtu,
}

/// A frame that carries a tunnelled protocol rather than a fixed bit layout
/// (`[frame.can.<key>.tunnel]`).
///
/// The payloads of consecutive frames with this id concatenate into one byte
/// stream — both directions land on the same id — so decoding needs state
/// across frames. See [`crate::modbus_rtu_stream`] for the decoder.
#[derive(Debug, Clone, PartialEq, Eq)]
pub struct FrameTunnel {
    pub protocol: TunnelProtocol,
    /// The Modbus slave address to sync on. Absent means "any valid address"
    /// (`1..=247`), which resyncs more slowly after a dropped frame.
    pub device_address: Option<u8>,
    /// Free-text notes on the tunnel declaration.
    pub notes: Vec<String>,
}

/// An optional string as text.
pub open spec fn opt_text(s: Option<String>) -> Option<Seq<char>> {
    match s {
        Some(s) => Some(s@),
        None => None,
    }
}

/// A copy of an optional string.
pub fn copy_text(s: &Option<String>) -> (r: Option<String>)
    ensures
        opt_text(r) == opt_text(*s),
{
    match s {
        Some(s) => Some(crate::text::owned(s.as_str())),
        None => None,
    }
}

/// A tunnel declaration, as a mathematical value.
#[verifier::ext_equal]
pub struct TunnelView {
    pub protocol: TunnelProtocol,
    pub device_address: Option<u8>,
    pub notes: Seq<Seq<char>>,
}

impl View for FrameTunnel {
    type V = TunnelView;

    open spec fn view(&self) -> TunnelView {
        TunnelView {
            protocol: self.protocol,
            device_address: self.device_address,
            notes: crate::text::texts(self.notes@),
        }
    }
}

/// A signal's data format. Any value here marks the signal as non-numeric
/// (string/opaque) — [`crate::decode`] renders it specially rather than as a
/// plain scaled number. Absent = a plain scaled number.
#[derive(Debug, Clone, Copy, PartialEq, Eq, Structural)]
pub enum SignalFormat {
    Ascii,
    Utf8,
    Hex,
    Enum,
    UnixTime,
    Other,
}

/// Reverse-engineering confidence marker (carried through from the catalogue
/// for the editor/discovery UI; not used by decode).
#[derive(Debug, Clone, Copy, PartialEq, Eq, Structural)]
pub enum Confidence {
    Unrated,
    Low,
    Medium,
    High,
}

/// A single decoded field, resolved from the catalogue. Fields are optional
/// because mux-case and inherited signals may carry only overrides; a fully
/// resolved signal for decode has `name`/`start_bit`/`bit_length` set.
#[derive(Debug, Clone, PartialEq)]
pub struct Signal {
    pub name: Option<String>,
    pub start_bit: Option<u32>,
    pub bit_length: Option<u32>,
    pub signed: Option<bool>,
    /// Byte order (the catalogue's legacy key is `endianness`; the newer key is
    /// `byte_order`). Stored here as the resolved byte order.
    pub endianness: Option<Endianness>,
    pub word_order: Option<Endianness>,
    pub factor: Option<Number>,
    pub offset: Option<Number>,
    pub unit: Option<String>,
    pub min: Option<Number>,
    pub max: Option<Number>,
    pub format: Option<SignalFormat>,
    /// Value↔label map (`enum` table in the catalogue), in value order.
    pub enum_map: Option<Vec<(i64, String)>>,
    pub confidence: Option<Confidence>,
    /// Free-text notes on the signal (`notes` — a string or array in TOML).
    pub notes: Vec<String>,
    /// True when this signal was inherited from a mirror/copy source rather
    /// than defined directly on the frame.
    pub inherited: bool,
    /// Modbus-specific: the signal's own register number, synthesised from the
    /// frame's base register plus the signal's bit offset (word registers add
    /// `start_bit / 16`; coils/discretes add `start_bit`). `None` for non-Modbus.
    pub modbus_register: Option<u32>,
    /// Modbus-specific: how many registers (or coils) this signal spans.
    pub modbus_register_count: Option<u16>,
}

/// A signal, as a mathematical value.
#[verifier::ext_equal]
pub struct SignalView {
    pub name: Option<Seq<char>>,
    pub start_bit: Option<u32>,
    pub bit_length: Option<u32>,
    pub signed: Option<bool>,
    pub endianness: Option<Endianness>,
    pub word_order: Option<Endianness>,
    pub factor: Option<Number>,
    pub offset: Option<Number>,
    pub unit: Option<Seq<char>>,
    pub min: Option<Number>,
    pub max: Option<Number>,
    pub format: Option<SignalFormat>,
    pub enum_map: Option<Seq<(i64, Seq<char>)>>,
    pub confidence: Option<Confidence>,
    pub notes: Seq<Seq<char>>,
    pub inherited: bool,
    pub modbus_register: Option<u32>,
    pub modbus_register_count: Option<u16>,
}

/// Labelled values, as a mathematical value.
pub open spec fn labels(entries: Seq<(i64, String)>) -> Seq<(i64, Seq<char>)> {
    entries.map_values(|e: (i64, String)| (e.0, e.1@))
}

/// Optional labelled values.
pub open spec fn opt_labels(entries: Option<Vec<(i64, String)>>) -> Option<Seq<(i64, Seq<char>)>> {
    match entries {
        Some(e) => Some(labels(e@)),
        None => None,
    }
}

impl View for Signal {
    type V = SignalView;

    open spec fn view(&self) -> SignalView {
        SignalView {
            name: opt_text(self.name),
            start_bit: self.start_bit,
            bit_length: self.bit_length,
            signed: self.signed,
            endianness: self.endianness,
            word_order: self.word_order,
            factor: self.factor,
            offset: self.offset,
            unit: opt_text(self.unit),
            min: self.min,
            max: self.max,
            format: self.format,
            enum_map: opt_labels(self.enum_map),
            confidence: self.confidence,
            notes: crate::text::texts(self.notes@),
            inherited: self.inherited,
            modbus_register: self.modbus_register,
            modbus_register_count: self.modbus_register_count,
        }
    }
}

/// What each of a list of signals is.
pub open spec fn signal_views(signals: Seq<Signal>) -> Seq<SignalView> {
    signals.map_values(|s: Signal| s@)
}

/// A signal with nothing set.
pub open spec fn blank_signal() -> SignalView {
    SignalView {
        name: None,
        start_bit: None,
        bit_length: None,
        signed: None,
        endianness: None,
        word_order: None,
        factor: None,
        offset: None,
        unit: None,
        min: None,
        max: None,
        format: None,
        enum_map: None,
        confidence: None,
        notes: Seq::empty(),
        inherited: false,
        modbus_register: None,
        modbus_register_count: None,
    }
}

impl Default for Signal {
    fn default() -> (r: Self)
        ensures
            r@ == blank_signal(),
    {
        let notes: Vec<String> = Vec::new();
        assert(crate::text::texts(notes@) == Seq::<Seq<char>>::empty());
        Signal {
            name: None,
            start_bit: None,
            bit_length: None,
            signed: None,
            endianness: None,
            word_order: None,
            factor: None,
            offset: None,
            unit: None,
            min: None,
            max: None,
            format: None,
            enum_map: None,
            confidence: None,
            notes,
            inherited: false,
            modbus_register: None,
            modbus_register_count: None,
        }
    }
}

/// One case of a multiplexer: the signals (and optional nested mux) active when
/// the selector matches this case's key.
#[derive(Debug, PartialEq)]
pub struct MuxCase {
    pub signals: Vec<Signal>,
    pub mux: Option<Box<Mux>>,
    /// Free-text notes on the case.
    pub notes: Vec<String>,
}

/// A multiplexer: a selector bit-field plus the per-case signal sets, in key
/// order. Case keys are kept as strings to preserve the catalogue's range/list
/// syntax (`"0"`, `"0-3"`, `"1,2,5"`); [`crate::decode`] matches them.
#[derive(Debug, PartialEq)]
pub struct Mux {
    pub name: Option<String>,
    pub start_bit: u32,
    pub bit_length: u32,
    /// The default case key applied when the selector matches no explicit case.
    pub default: Option<String>,
    /// Free-text notes on the multiplexer.
    pub notes: Vec<String>,
    pub cases: Vec<(String, MuxCase)>,
}

/// A case of a multiplexer, as a mathematical value.
#[verifier::ext_equal]
pub struct MuxCaseView {
    pub signals: Seq<SignalView>,
    pub mux: Option<Box<MuxView>>,
    pub notes: Seq<Seq<char>>,
}

/// A multiplexer, as a mathematical value.
#[verifier::ext_equal]
pub struct MuxView {
    pub name: Option<Seq<char>>,
    pub start_bit: u32,
    pub bit_length: u32,
    pub default: Option<Seq<char>>,
    pub notes: Seq<Seq<char>>,
    pub cases: Seq<(Seq<char>, MuxCaseView)>,
}

impl MuxCase {
    /// The case, as a mathematical value.
    pub open spec fn model(self) -> MuxCaseView
        decreases self,
    {
        MuxCaseView {
            signals: signal_views(self.signals@),
            mux: match self.mux {
                Some(mux) => Some(Box::new((*mux).model())),
                None => None,
            },
            notes: crate::text::texts(self.notes@),
        }
    }
}

impl Mux {
    /// The multiplexer, as a mathematical value.
    pub open spec fn model(self) -> MuxView
        decreases self,
    {
        MuxView {
            name: opt_text(self.name),
            start_bit: self.start_bit,
            bit_length: self.bit_length,
            default: opt_text(self.default),
            notes: crate::text::texts(self.notes@),
            cases: Seq::new(
                self.cases@.len(),
                |i: int|
                    if 0 <= i < self.cases@.len() {
                        (self.cases@[i].0@, self.cases@[i].1.model())
                    } else {
                        (
                            Seq::empty(),
                            MuxCaseView {
                                signals: Seq::empty(),
                                mux: None,
                                notes: Seq::empty(),
                            },
                        )
                    },
            ),
        }
    }
}

/// An optional multiplexer.
pub open spec fn opt_mux(mux: Option<Mux>) -> Option<MuxView> {
    match mux {
        Some(m) => Some(m.model()),
        None => None,
    }
}

/// The parameters a solved checksum needs and a named one does not.
#[derive(Debug, Clone, Copy, PartialEq, Eq)]
pub struct ChecksumParameters {
    pub polynomial: Option<u16>,
    pub init: Option<u16>,
    pub xor_out: Option<u16>,
    pub reflect_in: Option<bool>,
    pub reflect_out: Option<bool>,
    /// The constant an additive checksum adds after summing.
    pub offset: Option<u8>,
}

/// No parameters.
pub open spec fn no_parameters() -> ChecksumParameters {
    ChecksumParameters {
        polynomial: None,
        init: None,
        xor_out: None,
        reflect_in: None,
        reflect_out: None,
        offset: None,
    }
}

impl Default for ChecksumParameters {
    fn default() -> (r: Self)
        ensures
            r == no_parameters(),
    {
        ChecksumParameters {
            polynomial: None,
            init: None,
            xor_out: None,
            reflect_in: None,
            reflect_out: None,
            offset: None,
        }
    }
}

/// A per-frame checksum definition (`[[frame.<proto>.<key>.checksum]]`).
/// Distinct from [`ChecksumConfig`] (the serial-level default); a frame may
/// declare several.
#[derive(Debug, Clone, PartialEq)]
pub struct FrameChecksum {
    pub name: Option<String>,
    /// A named algorithm, or one of the parameterised ids ([`CRC_CUSTOM`],
    /// [`SUM8_NEGATED`]).
    pub algorithm: String,
    /// Byte offset of the checksum. **Negative counts from the end**, which is
    /// how detection reports every position.
    pub start_byte: i32,
    pub byte_length: u32,
    pub endianness: Option<Endianness>,
    /// First byte of the calculation range.
    pub calc_start_byte: i32,
    /// Last byte of the calculation range, exclusive.
    pub calc_end_byte: Option<i32>,
    /// Parameters for a configuration no named algorithm can express.
    ///
    /// A recovered CRC carries all of `polynomial`/`init`/`xor_out` and the two
    /// reflections; an offset sum carries only `offset`. Absent for the named
    /// algorithms, which define their own.
    pub parameters: ChecksumParameters,
    /// Free text carried with the declaration. A recovered CRC records here that
    /// its `init`/`xorOut` pair is one of several that fit.
    pub notes: Vec<String>,
}

/// A checksum declaration, as a mathematical value.
#[verifier::ext_equal]
pub struct FrameChecksumView {
    pub name: Option<Seq<char>>,
    pub algorithm: Seq<char>,
    pub start_byte: i32,
    pub byte_length: u32,
    pub endianness: Option<Endianness>,
    pub calc_start_byte: i32,
    pub calc_end_byte: Option<i32>,
    pub parameters: ChecksumParameters,
    pub notes: Seq<Seq<char>>,
}

impl View for FrameChecksum {
    type V = FrameChecksumView;

    open spec fn view(&self) -> FrameChecksumView {
        FrameChecksumView {
            name: opt_text(self.name),
            algorithm: self.algorithm@,
            start_byte: self.start_byte,
            byte_length: self.byte_length,
            endianness: self.endianness,
            calc_start_byte: self.calc_start_byte,
            calc_end_byte: self.calc_end_byte,
            parameters: self.parameters,
            notes: crate::text::texts(self.notes@),
        }
    }
}

/// What each of a list of checksum declarations is.
pub open spec fn checksum_views(checksums: Seq<FrameChecksum>) -> Seq<FrameChecksumView> {
    checksums.map_values(|c: FrameChecksum| c@)
}

/// A value, or a default.
pub open spec fn or_else<A>(o: Option<A>, default: A) -> A {
    match o {
        Some(v) => v,
        None => default,
    }
}

/// The algorithm with the given id.
pub open spec fn algorithm_named(id: Seq<char>) -> Option<ChecksumAlgorithm> {
    if exists|a: ChecksumAlgorithm| #[trigger] a.id() == id {
        Some(choose|a: ChecksumAlgorithm| #[trigger] a.id() == id)
    } else {
        None
    }
}

impl FrameChecksumView {
    /// Whether the bits of the checksum can be counted, where they are: those of a CRC
    /// with its own parameters.
    pub open spec fn is_countable(self) -> bool {
        self.algorithm == CRC_CUSTOM@ ==> self.byte_length * 8 <= u32::MAX
    }

    /// The configuration the declaration describes, if it is coherent.
    pub open spec fn describes(self) -> Option<crate::specification::SpecificationView> {
        let p = self.parameters;
        if self.algorithm == CRC_CUSTOM@ {
            match p.polynomial {
                Some(polynomial) => Some(
                    crate::specification::SpecificationView::Crc(
                        crate::solve::CrcView {
                            width: (self.byte_length * 8 % 256) as u8,
                            polynomial,
                            reflect_in: or_else(p.reflect_in, false),
                            reflect_out: or_else(p.reflect_out, false),
                            init: or_else(p.init, 0),
                            xor_out: or_else(p.xor_out, 0),
                            well_known: false,
                            alternatives: Seq::empty(),
                        },
                    ),
                ),
                None => None,
            }
        } else if self.algorithm == SUM8_NEGATED@ {
            Some(
                crate::specification::SpecificationView::Additive {
                    op: AdditiveOp::NegatedSum,
                    offset: or_else(p.offset, 0),
                },
            )
        } else {
            match algorithm_named(self.algorithm) {
                Some(algorithm) => Some(
                    match (algorithm, p.offset) {
                        (
                            ChecksumAlgorithm::Xor,
                            Some(offset),
                        ) => crate::specification::SpecificationView::Additive {
                            op: AdditiveOp::Xor,
                            offset,
                        },
                        (
                            ChecksumAlgorithm::Sum8,
                            Some(offset),
                        ) => crate::specification::SpecificationView::Additive {
                            op: AdditiveOp::Sum,
                            offset,
                        },
                        _ => crate::specification::SpecificationView::Named { algorithm },
                    },
                ),
                None => None,
            }
        }
    }
}

/// The note a recovered CRC carries when its `init`/`xorOut` pair is one of
/// several.
pub open spec fn ambiguity_note(others: nat) -> Seq<char> {
    "init/xorOut are not separately identifiable from fixed-length payloads; "@
        + crate::text::decimal(others) + " other pair(s) reproduce this data identically"@
}

/// The parameters a recovered configuration is stored with.
pub open spec fn stored_parameters(
    specification: crate::specification::SpecificationView,
) -> ChecksumParameters {
    match specification {
        crate::specification::SpecificationView::Named { .. } => no_parameters(),
        crate::specification::SpecificationView::Additive { offset, .. } => ChecksumParameters {
            offset: Some(offset),
            ..no_parameters()
        },
        crate::specification::SpecificationView::Crc(crc) => ChecksumParameters {
            polynomial: Some(crc.polynomial),
            init: Some(crc.init),
            xor_out: Some(crc.xor_out),
            reflect_in: Some(crc.reflect_in),
            reflect_out: Some(crc.reflect_out),
            offset: None,
        },
    }
}

/// The catalogue entry for a recovered configuration.
pub open spec fn stored(
    name: Option<Seq<char>>,
    solved: crate::recover::RecoveredView,
) -> FrameChecksumView {
    FrameChecksumView {
        name,
        algorithm: solved.specification.id(),
        start_byte: solved.target.position,
        byte_length: (solved.target.byte_length as int % 0x1_0000_0000) as u32,
        endianness: if solved.target.byte_length > 1 {
            if solved.target.big_endian {
                Some(Endianness::Big)
            } else {
                Some(Endianness::Little)
            }
        } else {
            None
        },
        calc_start_byte: solved.target.calc_start_byte,
        calc_end_byte: Some(solved.target.calc_end_byte),
        parameters: stored_parameters(solved.specification),
        notes: match solved.specification {
            crate::specification::SpecificationView::Crc(crc) => if crc.alternatives.len() > 0 {
                seq![ambiguity_note(crc.alternatives.len())]
            } else {
                Seq::empty()
            },
            _ => Seq::empty(),
        },
    }
}

fn parameters_of(specification: &ChecksumSpecification) -> (r: ChecksumParameters)
    ensures
        r == stored_parameters(specification@),
{
    let mut parameters = ChecksumParameters::default();
    match specification {
        ChecksumSpecification::Named { .. } => {},
        ChecksumSpecification::Additive { offset, .. } => {
            parameters.offset = Some(*offset);
        },
        ChecksumSpecification::Crc(crc) => {
            parameters.polynomial = Some(crc.polynomial);
            parameters.init = Some(crc.init);
            parameters.xor_out = Some(crc.xor_out);
            parameters.reflect_in = Some(crc.reflect_in);
            parameters.reflect_out = Some(crc.reflect_out);
        },
    }
    parameters
}

fn ambiguity_notes(specification: &ChecksumSpecification) -> (r: Vec<String>)
    ensures
        crate::text::texts(r@) == match specification@ {
            crate::specification::SpecificationView::Crc(crc) => if crc.alternatives.len() > 0 {
                seq![ambiguity_note(crc.alternatives.len())]
            } else {
                Seq::empty()
            },
            _ => Seq::empty(),
        },
{
    // The engine is emphatic that `init`/`xorOut` are not separately
    // identifiable from fixed-length payloads. Storing the pair without saying
    // so would present a guess as the answer.
    let mut notes: Vec<String> = Vec::new();
    assert(crate::text::texts(notes@) == Seq::<Seq<char>>::empty());
    if let ChecksumSpecification::Crc(crc) = specification {
        if crc.alternatives.len() > 0 {
            let mut note = owned(
                "init/xorOut are not separately identifiable from fixed-length payloads; ",
            );
            push_decimal(&mut note, crc.alternatives.len() as u128);
            push_text(&mut note, " other pair(s) reproduce this data identically");
            notes.push(note);
            assert(crate::text::texts(notes@) == seq![
                ambiguity_note(crc.alternatives@.len()),
            ]);
        }
    }
    notes
}

impl FrameChecksum {
    /// A catalogue entry for a configuration discovery worked out.
    ///
    /// Takes the whole solved result rather than its parts: the geometry is five
    /// scalars of near-identical type, and the caller always holds them bundled
    /// already.
    pub fn from_solved(name: Option<String>, solved: &RecoveredChecksum) -> (r: Self)
        ensures
            r@ == stored(opt_text(name), solved@),
    {
        let target = solved.target;
        FrameChecksum {
            name,
            algorithm: owned(solved.specification.algorithm_id()),
            start_byte: target.position,
            byte_length: (target.byte_length as u64 % 0x1_0000_0000) as u32,
            endianness: if target.byte_length > 1 {
                if target.big_endian {
                    Some(Endianness::Big)
                } else {
                    Some(Endianness::Little)
                }
            } else {
                None
            },
            calc_start_byte: target.calc_start_byte,
            calc_end_byte: Some(target.calc_end_byte),
            parameters: parameters_of(&solved.specification),
            notes: ambiguity_notes(&solved.specification),
        }
    }

    /// The configuration this declaration describes, if it is coherent.
    ///
    /// The inverse of [`from_solved`](Self::from_solved): the algorithm id is
    /// not a faithful encoding on its own, because a plain sum and a sum with an
    /// offset are both stored as `sum8` and differ only by a field the id cannot
    /// carry. A reader with just the id mis-verifies the second as the first.
    pub fn specification(&self) -> (r: Option<ChecksumSpecification>)
        requires
            self@.is_countable(),
        ensures
            match r {
                Some(s) => self@.describes() == Some(s@),
                None => self@.describes() is None,
            },
    {
        let p = self.parameters;
        if str_eq(self.algorithm.as_str(), CRC_CUSTOM) {
            let polynomial: u16 = match p.polynomial {
                Some(polynomial) => polynomial,
                None => {
                    return None;
                },
            };
            let crc = CrcParameters {
                // The CRC's width *is* how many bytes the checksum occupies;
                // storing it again invites the two to disagree.
                width: (self.byte_length * 8 % 256) as u8,
                polynomial,
                reflect_in: p.reflect_in.unwrap_or(false),
                reflect_out: p.reflect_out.unwrap_or(false),
                init: p.init.unwrap_or(0),
                xor_out: p.xor_out.unwrap_or(0),
                well_known: false,
                alternatives: Vec::new(),
            };
            assert(crc@.alternatives == Seq::<crate::solve::CrcAlternative>::empty());
            return Some(ChecksumSpecification::Crc(crc));
        }
        if str_eq(self.algorithm.as_str(), SUM8_NEGATED) {
            return Some(
                ChecksumSpecification::Additive {
                    op: AdditiveOp::NegatedSum,
                    offset: p.offset.unwrap_or(0),
                },
            );
        }
        let algorithm: ChecksumAlgorithm = match ChecksumAlgorithm::from_id(
            self.algorithm.as_str(),
        ) {
            Ok(algorithm) => algorithm,
            Err(_) => {
                return None;
            },
        };
        proof {
            lemma_algorithm_named(algorithm);
        }
        // An offset is precisely what the fixed list cannot express, so a
        // declaration carrying one is the additive family however it is named.
        match (algorithm, p.offset) {
            (ChecksumAlgorithm::Xor, Some(offset)) => Some(
                ChecksumSpecification::Additive { op: AdditiveOp::Xor, offset },
            ),
            (ChecksumAlgorithm::Sum8, Some(offset)) => Some(
                ChecksumSpecification::Additive { op: AdditiveOp::Sum, offset },
            ),
            _ => Some(ChecksumSpecification::Named { algorithm }),
        }
    }
}

proof fn lemma_algorithm_named(a: ChecksumAlgorithm)
    ensures
        algorithm_named(a.id()) == Some(a),
{
    let b = choose|b: ChecksumAlgorithm| #[trigger] b.id() == a.id();
    crate::algorithms::law_ids_are_distinct(a, b);
}

/// A specification as a catalogue keeps it: without the alternatives a solver
/// found beside a CRC, and without the mark that its polynomial is a standard.
pub open spec fn without_alternatives(
    s: crate::specification::SpecificationView,
) -> crate::specification::SpecificationView {
    match s {
        crate::specification::SpecificationView::Crc(
            crc,
        ) => crate::specification::SpecificationView::Crc(
            crate::solve::CrcView { well_known: false, alternatives: Seq::empty(), ..crc },
        ),
        _ => s,
    }
}

/// What discovery worked out survives being stored in a catalogue and read back:
/// the entry describes the configuration it was made from, a CRC with the one
/// `init`/`xorOut` pair that was reported. One without alternatives, not known by
/// name, comes back exactly.
pub proof fn law_stored_checksums_describe_what_was_solved(
    name: Option<Seq<char>>,
    solved: crate::recover::RecoveredView,
)
    requires
        solved.specification matches crate::specification::SpecificationView::Crc(crc) ==> crc.width
            == solved.target.byte_length * 8,
    ensures
        stored(name, solved).is_countable(),
        stored(name, solved).describes() == Some(without_alternatives(solved.specification)),
        (solved.specification matches crate::specification::SpecificationView::Crc(crc)
            ==> !crc.well_known && crc.alternatives.len() == 0) ==> stored(
            name,
            solved,
        ).describes() == Some(solved.specification),
{
    lemma_custom_ids_are_unnamed();
    match solved.specification {
        crate::specification::SpecificationView::Named { algorithm } => {
            lemma_algorithm_named(algorithm);
        },
        crate::specification::SpecificationView::Additive { op, .. } => {
            lemma_algorithm_named(ChecksumAlgorithm::Xor);
            lemma_algorithm_named(ChecksumAlgorithm::Sum8);
        },
        crate::specification::SpecificationView::Crc(crc) => {},
    }
}

proof fn lemma_custom_ids_are_unnamed()
    ensures
        forall|a: ChecksumAlgorithm| #[trigger] a.id() != CRC_CUSTOM@ && a.id() != SUM8_NEGATED@,
        CRC_CUSTOM@ != SUM8_NEGATED@,
{
    reveal_strlit("crc_custom");
    reveal_strlit("sum8_negated");
    reveal_strlit("xor");
    reveal_strlit("sum8");
    reveal_strlit("crc8");
    reveal_strlit("crc8_sae_j1850");
    reveal_strlit("crc8_autosar");
    reveal_strlit("crc8_maxim");
    reveal_strlit("crc8_cdma2000");
    reveal_strlit("crc8_dvb_s2");
    reveal_strlit("crc8_nissan");
    reveal_strlit("crc16_modbus");
    reveal_strlit("crc16_ccitt");
    assert(CRC_CUSTOM@.len() != SUM8_NEGATED@.len());
    assert forall|a: ChecksumAlgorithm| #[trigger] a.id() != CRC_CUSTOM@ && a.id()
        != SUM8_NEGATED@ by {
        if a.id() == CRC_CUSTOM@ {
            assert(a.id().len() == CRC_CUSTOM@.len());
            assert(a.id()[3] == CRC_CUSTOM@[3]);
        }
        if a.id() == SUM8_NEGATED@ {
            assert(a.id().len() == SUM8_NEGATED@.len());
            assert(a.id()[0] == SUM8_NEGATED@[0]);
        }
    }
}

/// A resolved frame: one CAN message / serial frame / Modbus register read,
/// with its signals, mux, and inheritance applied.
#[derive(Debug, PartialEq)]
pub struct Frame {
    /// The authored catalogue table key (CAN: `"0x103"`; serial/modbus: the
    /// frame name). The stable identifier the editor uses for tree paths and
    /// comment-preserving edits — preserved verbatim, unlike the numeric
    /// `frame_id`.
    pub key: String,
    /// Numeric identifier: CAN arbitration ID, serial frame id, or Modbus
    /// register number.
    pub frame_id: u32,
    pub protocol: Protocol,
    /// The catalogue table key, when it carries meaning (e.g. a Modbus frame's
    /// `ems_control`).
    pub name: Option<String>,
    /// Frame length in bytes.
    pub length: u32,
    pub transmitter: Option<String>,
    pub interval: Option<u64>,
    pub bus: Option<u32>,
    pub is_extended: Option<bool>,
    pub is_fd: Option<bool>,
    pub signals: Vec<Signal>,
    pub mux: Option<Mux>,
    /// Set when the frame carries a tunnelled protocol instead of a bit layout.
    pub tunnel: Option<FrameTunnel>,
    pub mirror_of: Option<String>,
    pub copy_from: Option<String>,
    /// Modbus-specific: register class.
    pub modbus_register_type: Option<RegisterType>,
    /// Modbus-specific: register count (not bytes).
    pub modbus_register_count: Option<u16>,
    /// Modbus-specific: the slave node this register is read from.
    pub modbus_node: Option<String>,
    /// Modbus-specific: resolved device (slave) address — from the assigned
    /// node, the legacy `[meta.modbus].device_address`, else `1`.
    pub modbus_device_address: Option<u8>,
    /// Serial-specific: explicit frame delimiter bytes (raw encoding).
    pub delimiter: Option<Vec<u8>>,
    /// Free-text notes, normalised from the catalogue's `notes` (a string or an
    /// array of strings).
    pub notes: Vec<String>,
    /// Per-frame checksum definitions (CAN/serial; absent on Modbus).
    pub checksums: Vec<FrameChecksum>,
    /// Names of fields whose value was inherited (from a per-frame default,
    /// a `copy`/`mirror_of` source, or auto-detection) rather than set
    /// explicitly on this frame. Drives the editor's "(inherited)" labels.
    /// Possible entries: `length`, `transmitter`, `interval`, `extended`,
    /// `fd`, `deviceAddress`, `registerBase`.
    pub inherited_fields: Vec<String>,
}

/// A resolved frame, as a mathematical value.
#[verifier::ext_equal]
pub struct FrameView {
    pub key: Seq<char>,
    pub frame_id: u32,
    pub protocol: Protocol,
    pub name: Option<Seq<char>>,
    pub length: u32,
    pub transmitter: Option<Seq<char>>,
    pub interval: Option<u64>,
    pub bus: Option<u32>,
    pub is_extended: Option<bool>,
    pub is_fd: Option<bool>,
    pub signals: Seq<SignalView>,
    pub mux: Option<MuxView>,
    pub tunnel: Option<TunnelView>,
    pub mirror_of: Option<Seq<char>>,
    pub copy_from: Option<Seq<char>>,
    pub modbus_register_type: Option<RegisterType>,
    pub modbus_register_count: Option<u16>,
    pub modbus_node: Option<Seq<char>>,
    pub modbus_device_address: Option<u8>,
    pub delimiter: Option<Seq<u8>>,
    pub notes: Seq<Seq<char>>,
    pub checksums: Seq<FrameChecksumView>,
    pub inherited_fields: Seq<Seq<char>>,
}

impl View for Frame {
    type V = FrameView;

    open spec fn view(&self) -> FrameView {
        FrameView {
            key: self.key@,
            frame_id: self.frame_id,
            protocol: self.protocol,
            name: opt_text(self.name),
            length: self.length,
            transmitter: opt_text(self.transmitter),
            interval: self.interval,
            bus: self.bus,
            is_extended: self.is_extended,
            is_fd: self.is_fd,
            signals: signal_views(self.signals@),
            mux: opt_mux(self.mux),
            tunnel: match self.tunnel {
                Some(t) => Some(t@),
                None => None,
            },
            mirror_of: opt_text(self.mirror_of),
            copy_from: opt_text(self.copy_from),
            modbus_register_type: self.modbus_register_type,
            modbus_register_count: self.modbus_register_count,
            modbus_node: opt_text(self.modbus_node),
            modbus_device_address: self.modbus_device_address,
            delimiter: match self.delimiter {
                Some(d) => Some(d@),
                None => None,
            },
            notes: crate::text::texts(self.notes@),
            checksums: checksum_views(self.checksums@),
            inherited_fields: crate::text::texts(self.inherited_fields@),
        }
    }
}

/// What each of a list of frames is.
pub open spec fn frame_views(frames: Seq<Frame>) -> Seq<FrameView> {
    frames.map_values(|f: Frame| f@)
}

/// A header field defined by a bitmask over the frame's header bytes (CAN ID
/// bits, or serial header bytes).
#[derive(Debug, Clone, PartialEq)]
pub struct HeaderField {
    pub mask: u32,
    pub shift: Option<u32>,
    /// `hex` or `decimal` display.
    pub format: Option<String>,
    pub endianness: Option<Endianness>,
}

/// A header field, as a mathematical value.
#[verifier::ext_equal]
pub struct HeaderFieldView {
    pub mask: u32,
    pub shift: Option<u32>,
    pub format: Option<Seq<char>>,
    pub endianness: Option<Endianness>,
}

impl View for HeaderField {
    type V = HeaderFieldView;

    open spec fn view(&self) -> HeaderFieldView {
        HeaderFieldView {
            mask: self.mask,
            shift: self.shift,
            format: opt_text(self.format),
            endianness: self.endianness,
        }
    }
}

/// Named header fields, as a mathematical value.
pub open spec fn field_views(fields: Seq<(String, HeaderField)>) -> Seq<
    (Seq<char>, HeaderFieldView),
> {
    fields.map_values(|f: (String, HeaderField)| (f.0@, f.1@))
}

/// A serial header field with its byte position derived from the mask at parse
/// time (so consumers don't re-derive it). One entry per `[meta.serial.fields]`
/// field.
#[derive(Debug, Clone, PartialEq)]
pub struct HeaderFieldPosition {
    pub name: String,
    pub mask: u32,
    pub byte_order: Endianness,
    /// `hex` or `decimal` display.
    pub format: String,
    pub start_byte: u32,
    pub bytes: u32,
}

/// A header field position, as a mathematical value.
#[verifier::ext_equal]
pub struct PositionView {
    pub name: Seq<char>,
    pub mask: u32,
    pub byte_order: Endianness,
    pub format: Seq<char>,
    pub start_byte: u32,
    pub bytes: u32,
}

impl View for HeaderFieldPosition {
    type V = PositionView;

    open spec fn view(&self) -> PositionView {
        PositionView {
            name: self.name@,
            mask: self.mask,
            byte_order: self.byte_order,
            format: self.format@,
            start_byte: self.start_byte,
            bytes: self.bytes,
        }
    }
}

/// What each of a list of header field positions is.
pub open spec fn position_views(list: Seq<HeaderFieldPosition>) -> Seq<PositionView> {
    list.map_values(|p: HeaderFieldPosition| p@)
}

/// `[meta.can]` defaults.
#[derive(Debug, Clone, PartialEq)]
pub struct CanConfig {
    pub default_byte_order: Option<Endianness>,
    pub default_interval: Option<u64>,
    pub default_extended: Option<bool>,
    pub default_fd: Option<bool>,
    pub frame_id_mask: Option<u32>,
    pub fields: Vec<(String, HeaderField)>,
}

/// `[meta.can]` defaults, as a mathematical value.
#[verifier::ext_equal]
pub struct CanView {
    pub default_byte_order: Option<Endianness>,
    pub default_interval: Option<u64>,
    pub default_extended: Option<bool>,
    pub default_fd: Option<bool>,
    pub frame_id_mask: Option<u32>,
    pub fields: Seq<(Seq<char>, HeaderFieldView)>,
}

impl View for CanConfig {
    type V = CanView;

    open spec fn view(&self) -> CanView {
        CanView {
            default_byte_order: self.default_byte_order,
            default_interval: self.default_interval,
            default_extended: self.default_extended,
            default_fd: self.default_fd,
            frame_id_mask: self.frame_id_mask,
            fields: field_views(self.fields@),
        }
    }
}

/// `[meta.serial.checksum]`.
#[derive(Debug, Clone, PartialEq)]
pub struct ChecksumConfig {
    pub algorithm: String,
    /// End-relative when negative — see [`FrameChecksum::start_byte`].
    pub start_byte: i32,
    pub byte_length: u32,
    pub calc_start_byte: i32,
    pub calc_end_byte: Option<i32>,
    pub big_endian: bool,
}

/// `[meta.serial.checksum]`, as a mathematical value.
#[verifier::ext_equal]
pub struct ChecksumConfigView {
    pub algorithm: Seq<char>,
    pub start_byte: i32,
    pub byte_length: u32,
    pub calc_start_byte: i32,
    pub calc_end_byte: Option<i32>,
    pub big_endian: bool,
}

impl View for ChecksumConfig {
    type V = ChecksumConfigView;

    open spec fn view(&self) -> ChecksumConfigView {
        ChecksumConfigView {
            algorithm: self.algorithm@,
            start_byte: self.start_byte,
            byte_length: self.byte_length,
            calc_start_byte: self.calc_start_byte,
            calc_end_byte: self.calc_end_byte,
            big_endian: self.big_endian,
        }
    }
}

/// `[meta.serial]` defaults.
#[derive(Debug, Clone, PartialEq)]
pub struct SerialConfig {
    /// `slip` | `cobs` | `raw` | `length_prefixed`.
    pub encoding: Option<String>,
    pub byte_order: Option<Endianness>,
    pub frame_id_mask: Option<u32>,
    pub header_length: Option<u32>,
    pub min_frame_length: Option<u32>,
    pub checksum: Option<ChecksumConfig>,
    pub fields: Vec<(String, HeaderField)>,
    // ── Derived from `fields` at parse time (byte positions of named fields) ──
    /// Byte position of the `id` field, when present.
    pub frame_id_start_byte: Option<u32>,
    pub frame_id_bytes: Option<u32>,
    pub frame_id_byte_order: Option<Endianness>,
    /// Byte position of the `source_address` field, when present.
    pub source_address_start_byte: Option<u32>,
    pub source_address_bytes: Option<u32>,
    pub source_address_byte_order: Option<Endianness>,
    /// One position entry per header field (the resolved form of `fields`).
    pub header_fields: Vec<HeaderFieldPosition>,
}

/// `[meta.serial]` defaults, as a mathematical value.
#[verifier::ext_equal]
pub struct SerialView {
    pub encoding: Option<Seq<char>>,
    pub byte_order: Option<Endianness>,
    pub frame_id_mask: Option<u32>,
    pub header_length: Option<u32>,
    pub min_frame_length: Option<u32>,
    pub checksum: Option<ChecksumConfigView>,
    pub fields: Seq<(Seq<char>, HeaderFieldView)>,
    pub frame_id_start_byte: Option<u32>,
    pub frame_id_bytes: Option<u32>,
    pub frame_id_byte_order: Option<Endianness>,
    pub source_address_start_byte: Option<u32>,
    pub source_address_bytes: Option<u32>,
    pub source_address_byte_order: Option<Endianness>,
    pub header_fields: Seq<PositionView>,
}

impl View for SerialConfig {
    type V = SerialView;

    open spec fn view(&self) -> SerialView {
        SerialView {
            encoding: opt_text(self.encoding),
            byte_order: self.byte_order,
            frame_id_mask: self.frame_id_mask,
            header_length: self.header_length,
            min_frame_length: self.min_frame_length,
            checksum: match self.checksum {
                Some(c) => Some(c@),
                None => None,
            },
            fields: field_views(self.fields@),
            frame_id_start_byte: self.frame_id_start_byte,
            frame_id_bytes: self.frame_id_bytes,
            frame_id_byte_order: self.frame_id_byte_order,
            source_address_start_byte: self.source_address_start_byte,
            source_address_bytes: self.source_address_bytes,
            source_address_byte_order: self.source_address_byte_order,
            header_fields: position_views(self.header_fields@),
        }
    }
}

/// `[meta.modbus]` defaults.
#[derive(Debug, Clone, Copy, PartialEq, Eq)]
pub struct ModbusConfig {
    pub device_address: Option<u8>,
    /// 0 = IEC (0-based); 1 = traditional 1-based with a type prefix.
    pub register_base: Option<u8>,
    pub default_interval: Option<u64>,
    pub default_byte_order: Option<Endianness>,
    pub default_word_order: Option<Endianness>,
}

/// `[meta]` — catalogue identity.
#[derive(Debug, Clone, PartialEq)]
pub struct Meta {
    pub name: String,
    pub version: u32,
    pub default_frame: Option<Protocol>,
}

/// `[meta]`, as a mathematical value.
#[verifier::ext_equal]
pub struct MetaView {
    pub name: Seq<char>,
    pub version: u32,
    pub default_frame: Option<Protocol>,
}

impl View for Meta {
    type V = MetaView;

    open spec fn view(&self) -> MetaView {
        MetaView { name: self.name@, version: self.version, default_frame: self.default_frame }
    }
}

/// A network node/peer declared under `[node.<name>]`.
#[derive(Debug, Clone, PartialEq)]
pub struct NodeDef {
    pub name: String,
    /// Modbus-specific: the device (slave) address this node owns
    /// (`[node.<name>].device_address`). `None` for CAN/serial nodes.
    pub device_address: Option<u8>,
    pub notes: Vec<String>,
}

/// A network node, as a mathematical value.
#[verifier::ext_equal]
pub struct NodeDefView {
    pub name: Seq<char>,
    pub device_address: Option<u8>,
    pub notes: Seq<Seq<char>>,
}

impl View for NodeDef {
    type V = NodeDefView;

    open spec fn view(&self) -> NodeDefView {
        NodeDefView {
            name: self.name@,
            device_address: self.device_address,
            notes: crate::text::texts(self.notes@),
        }
    }
}

/// What each of a list of nodes is.
pub open spec fn node_views(nodes: Seq<NodeDef>) -> Seq<NodeDefView> {
    nodes.map_values(|n: NodeDef| n@)
}

/// A fully parsed, resolved catalogue.
#[derive(Debug, PartialEq)]
pub struct Catalog {
    pub meta: Meta,
    /// The catalogue's dominant protocol (from `meta.default_frame`, else
    /// inferred from which frame sections are present).
    pub protocol: Protocol,
    pub can: Option<CanConfig>,
    pub serial: Option<SerialConfig>,
    pub modbus: Option<ModbusConfig>,
    pub frames: Vec<Frame>,
    /// Network nodes/peers from the `[node]` table, in key order.
    pub nodes: Vec<NodeDef>,
}

/// A catalogue, as a mathematical value.
#[verifier::ext_equal]
pub struct CatalogView {
    pub meta: MetaView,
    pub protocol: Protocol,
    pub can: Option<CanView>,
    pub serial: Option<SerialView>,
    pub modbus: Option<ModbusConfig>,
    pub frames: Seq<FrameView>,
    pub nodes: Seq<NodeDefView>,
}

impl View for Catalog {
    type V = CatalogView;

    open spec fn view(&self) -> CatalogView {
        CatalogView {
            meta: self.meta@,
            protocol: self.protocol,
            can: match self.can {
                Some(c) => Some(c@),
                None => None,
            },
            serial: match self.serial {
                Some(c) => Some(c@),
                None => None,
            },
            modbus: self.modbus,
            frames: frame_views(self.frames@),
            nodes: node_views(self.nodes@),
        }
    }
}

/// A single validation finding (field path + human message).
#[derive(Debug, Clone, PartialEq, Eq)]
pub struct ValidationError {
    pub field: String,
    pub message: String,
}

/// A finding, as a mathematical value.
#[verifier::ext_equal]
pub struct FindingText {
    pub field: Seq<char>,
    pub message: Seq<char>,
}

impl View for ValidationError {
    type V = FindingText;

    open spec fn view(&self) -> FindingText {
        FindingText { field: self.field@, message: self.message@ }
    }
}

/// What each of a list of findings is.
pub open spec fn findings(errors: Seq<ValidationError>) -> Seq<FindingText> {
    errors.map_values(|e: ValidationError| e@)
}

// ---------------------------------------------------------------------------
// Names
// ---------------------------------------------------------------------------

/// The byte order with the given name.
pub open spec fn endianness_named(s: Seq<char>) -> Option<Endianness> {
    if s == "big"@ {
        Some(Endianness::Big)
    } else if s == "little"@ {
        Some(Endianness::Little)
    } else {
        None
    }
}

/// The byte order with the given name.
pub fn parse_endianness(s: &str) -> (r: Option<Endianness>)
    ensures
        r == endianness_named(s@),
{
    if str_eq(s, "big") {
        Some(Endianness::Big)
    } else if str_eq(s, "little") {
        Some(Endianness::Little)
    } else {
        None
    }
}

/// The signal format with the given name.
pub open spec fn format_named(s: Seq<char>) -> Option<SignalFormat> {
    if s == "enum"@ {
        Some(SignalFormat::Enum)
    } else if s == "ascii"@ {
        Some(SignalFormat::Ascii)
    } else if s == "utf8"@ {
        Some(SignalFormat::Utf8)
    } else if s == "hex"@ {
        Some(SignalFormat::Hex)
    } else if s == "unix_time"@ {
        Some(SignalFormat::UnixTime)
    } else {
        None
    }
}

/// The signal format with the given name.
pub fn parse_format(s: &str) -> (r: Option<SignalFormat>)
    ensures
        r == format_named(s@),
{
    if str_eq(s, "enum") {
        Some(SignalFormat::Enum)
    } else if str_eq(s, "ascii") {
        Some(SignalFormat::Ascii)
    } else if str_eq(s, "utf8") {
        Some(SignalFormat::Utf8)
    } else if str_eq(s, "hex") {
        Some(SignalFormat::Hex)
    } else if str_eq(s, "unix_time") {
        Some(SignalFormat::UnixTime)
    } else {
        None
    }
}

/// The confidence with the given name.
pub open spec fn confidence_named(s: Seq<char>) -> Option<Confidence> {
    if s == "none"@ {
        Some(Confidence::Unrated)
    } else if s == "low"@ {
        Some(Confidence::Low)
    } else if s == "medium"@ {
        Some(Confidence::Medium)
    } else if s == "high"@ {
        Some(Confidence::High)
    } else {
        None
    }
}

/// The confidence with the given name.
pub fn parse_confidence(s: &str) -> (r: Option<Confidence>)
    ensures
        r == confidence_named(s@),
{
    if str_eq(s, "none") {
        Some(Confidence::Unrated)
    } else if str_eq(s, "low") {
        Some(Confidence::Low)
    } else if str_eq(s, "medium") {
        Some(Confidence::Medium)
    } else if str_eq(s, "high") {
        Some(Confidence::High)
    } else {
        None
    }
}

/// The register class with the given name.
pub open spec fn register_type_named(s: Seq<char>) -> Option<RegisterType> {
    if s == "input"@ {
        Some(RegisterType::Input)
    } else if s == "holding"@ {
        Some(RegisterType::Holding)
    } else if s == "coil"@ {
        Some(RegisterType::Coil)
    } else if s == "discrete"@ {
        Some(RegisterType::Discrete)
    } else {
        None
    }
}

/// The register class with the given name.
pub fn parse_register_type(s: &str) -> (r: Option<RegisterType>)
    ensures
        r == register_type_named(s@),
{
    if str_eq(s, "input") {
        Some(RegisterType::Input)
    } else if str_eq(s, "holding") {
        Some(RegisterType::Holding)
    } else if str_eq(s, "coil") {
        Some(RegisterType::Coil)
    } else if str_eq(s, "discrete") {
        Some(RegisterType::Discrete)
    } else {
        None
    }
}

/// The protocol with the given name.
pub open spec fn protocol_named(s: Seq<char>) -> Option<Protocol> {
    if s == "can"@ {
        Some(Protocol::Can)
    } else if s == "serial"@ {
        Some(Protocol::Serial)
    } else if s == "modbus"@ {
        Some(Protocol::Modbus)
    } else {
        None
    }
}

/// The protocol with the given name.
pub fn parse_protocol(s: &str) -> (r: Option<Protocol>)
    ensures
        r == protocol_named(s@),
{
    if str_eq(s, "can") {
        Some(Protocol::Can)
    } else if str_eq(s, "serial") {
        Some(Protocol::Serial)
    } else if str_eq(s, "modbus") {
        Some(Protocol::Modbus)
    } else {
        None
    }
}

/// The byte order named under a key.
pub open spec fn endianness_at(n: crate::value::Node, key: Seq<char>) -> Option<Endianness> {
    match n.text_at(key) {
        Some(s) => endianness_named(s),
        None => None,
    }
}

/// The byte order named under a key.
pub fn read_endianness(t: &crate::value::Tree, key: &str) -> (r: Option<Endianness>)
    ensures
        r == endianness_at(t.node(), key@),
{
    match t.text_at(key) {
        Some(s) => parse_endianness(s),
        None => None,
    }
}

} // verus!
