//! Reading and writing the registers of a Modbus manifest.
//!
//! **Decode:** numeric input/holding reads — 16/32/64-bit signed/unsigned,
//! `factor`/`offset`, byte + word order. Skipped: string-ish `format`s
//! (`ascii`/`hex`/`utf8`/`unix_time` — version/firmware/serial frames). An
//! `enum` signal still decodes to its numeric value (its readback entity
//! persists) and may carry a value↔name map.
//! **Encode (writes):** [`encode_signal`]/[`encode_enum`] are the inverse,
//! returning one [`ModbusWrite`] per register (`register_type` holding/coil
//! is the writability test). [`merge_register_writes`] resolves co-located
//! bit-fields; [`group_contiguous`] batches contiguous registers for the
//! wire.

use crate::bits::{decimal_of, mask_value, power_of_two, read_signal, scale, DecimalValue};
use crate::manifest::{
    capped_sum, ModbusFrame, ModbusFrameView, ModbusManifest, ModbusMeta, ModbusSignal,
    ModbusSignalView,
};
use crate::modbus_rtu_stream::registers_to_bytes;
use crate::model::{copy_text, Endianness, SignalFormat};
use crate::text::{chars_of, owned, parse_integer, push_decimal, push_text, str_eq};
use crate::value::decimal_at;
use vstd::prelude::*;

verus! {

/// One **register's** worth of a desired write: an absolute (0-based
/// protocol) `address`, the `value` bits, and a `mask` of which bits this
/// write owns (`0xFFFF` = the whole register). The per-register granularity
/// is the canonical unit of comparison; a multi-register signal resolves to
/// several `ModbusWrite`s, and co-located bit-fields merge into one (see
/// [`merge_register_writes`]). The poller groups address-contiguous writes
/// into a single Modbus transaction ([`group_contiguous`]), read-modify-
/// writing any partially-owned register.
#[derive(Debug, Clone, Copy, PartialEq, Eq, Structural)]
pub struct ModbusWrite {
    pub address: u16,
    pub value: u16,
    pub mask: u16,
}

#[derive(Debug, Clone, PartialEq, Eq)]
pub enum EncodeError {
    NotWritable(String),
    UnsupportedLayout { name: String, start_bit: u32, bit_length: u32 },
    UnknownEnumName { name: String, value: String },
}

/// An encoding error, as a mathematical value.
#[verifier::ext_equal]
pub enum EncodeFault {
    NotWritable(Seq<char>),
    UnsupportedLayout { name: Seq<char>, start_bit: u32, bit_length: u32 },
    UnknownEnumName { name: Seq<char>, value: Seq<char> },
}

impl View for EncodeError {
    type V = EncodeFault;

    open spec fn view(&self) -> EncodeFault {
        match self {
            EncodeError::NotWritable(name) => EncodeFault::NotWritable(name@),
            EncodeError::UnsupportedLayout {
                name,
                start_bit,
                bit_length,
            } => EncodeFault::UnsupportedLayout {
                name: name@,
                start_bit: *start_bit,
                bit_length: *bit_length,
            },
            EncodeError::UnknownEnumName { name, value } => EncodeFault::UnknownEnumName {
                name: name@,
                value: value@,
            },
        }
    }
}

impl EncodeFault {
    /// What the error says.
    pub open spec fn text(self) -> Seq<char> {
        match self {
            EncodeFault::NotWritable(name) => "signal '"@ + name
                + "' is in a read-only register bank (input/discrete); only holding/coil are writable"@,
            EncodeFault::UnsupportedLayout { name, start_bit, bit_length } => "signal '"@ + name
                + "' has an unsupported write layout (start_bit "@ + crate::text::decimal(
                start_bit as nat,
            ) + ", bit_length "@ + crate::text::decimal(bit_length as nat)
                + "): v1 supports register-aligned 16/32/48/64-bit and single-register bit-fields"@,
            EncodeFault::UnknownEnumName { name, value } => "signal '"@ + name
                + "' has no enum value for '"@ + value + "'"@,
        }
    }
}

impl EncodeError {
    /// What the error says.
    pub fn message(&self) -> (r: String)
        ensures
            r@ == self@.text(),
    {
        let mut out = owned("signal '");
        match self {
            EncodeError::NotWritable(name) => {
                push_text(&mut out, name.as_str());
                push_text(
                    &mut out,
                    "' is in a read-only register bank (input/discrete); only holding/coil are writable",
                );
            },
            EncodeError::UnsupportedLayout { name, start_bit, bit_length } => {
                push_text(&mut out, name.as_str());
                push_text(&mut out, "' has an unsupported write layout (start_bit ");
                push_decimal(&mut out, *start_bit as u128);
                push_text(&mut out, ", bit_length ");
                push_decimal(&mut out, *bit_length as u128);
                push_text(
                    &mut out,
                    "): v1 supports register-aligned 16/32/48/64-bit and single-register bit-fields",
                );
            },
            EncodeError::UnknownEnumName { name, value } => {
                push_text(&mut out, name.as_str());
                push_text(&mut out, "' has no enum value for '");
                push_text(&mut out, value.as_str());
                push_text(&mut out, "'");
            },
        }
        out
    }
}

/// The low `n` words of a number, the least significant first.
pub open spec fn low_words(v: int, n: int) -> Seq<u16>
    decreases n,
{
    if n <= 0 {
        Seq::empty()
    } else {
        seq![(v % 65536) as u16] + low_words(v / 65536, n - 1)
    }
}

/// Whether a signal fills whole registers, one to four of them.
pub open spec fn is_aligned(start_bit: int, bit_length: int) -> bool {
    start_bit % 16 == 0 && bit_length % 16 == 0 && 16 <= bit_length <= 64
}

/// Whether a signal is a bit-field within one register.
pub open spec fn is_bit_field(start_bit: int, bit_length: int) -> bool {
    1 <= bit_length < 16 && start_bit / 16 == (start_bit + bit_length - 1) / 16
}

/// How far a bit-field lies above the lowest bit of its register.
pub open spec fn field_shift(start_bit: int, bit_length: int) -> int {
    16 - start_bit % 16 - bit_length
}

/// The word order of a signal: its own, the manifest's, or high word first.
pub open spec fn word_order_of(meta: ModbusMeta, signal: ModbusSignalView) -> Endianness {
    match signal.word_order {
        Some(order) => order,
        None => match meta.default_word_order {
            Some(order) => order,
            None => Endianness::Big,
        },
    }
}

/// The words of a signal in the order of their registers.
pub open spec fn register_words(
    meta: ModbusMeta,
    signal: ModbusSignalView,
    raw: int,
) -> Seq<u16> {
    let words = low_words(
        crate::bits::masked(raw, signal.bit_length as int),
        signal.bit_length as int / 16,
    );
    if word_order_of(meta, signal) == Endianness::Little {
        words
    } else {
        words.reverse()
    }
}

/// The writes of a signal that fills whole registers: one for each, from the
/// register it starts in.
pub open spec fn word_writes(base: int, offset: int, words: Seq<u16>) -> Seq<ModbusWrite> {
    Seq::new(
        words.len(),
        |i: int|
            ModbusWrite {
                address: crate::manifest::capped(base + (offset + i)) as u16,
                value: words[i],
                mask: 0xFFFF,
            },
    )
}

/// The write of a bit-field: its bits of one register.
pub open spec fn field_write(base: int, signal: ModbusSignalView, raw: int) -> ModbusWrite {
    let len = signal.bit_length as int;
    let step = vstd::arithmetic::power2::pow2(
        field_shift(signal.start_bit as int, len) as nat,
    );
    ModbusWrite {
        address: crate::manifest::capped(base + crate::manifest::register_offset(signal.start_bit as int)) as u16,
        value: (crate::bits::masked(raw, len) * step) as u16,
        mask: ((vstd::arithmetic::power2::pow2(len as nat) - 1) * step) as u16,
    }
}

/// The writes that set a signal to a raw value.
pub open spec fn encoded(
    meta: ModbusMeta,
    frame: ModbusFrameView,
    signal: ModbusSignalView,
    raw: int,
) -> Result<Seq<ModbusWrite>, EncodeFault> {
    let base = crate::manifest::start_address(meta, frame);
    let start = signal.start_bit as int;
    let len = signal.bit_length as int;
    if !frame.register_type.accepts_writes() {
        Err(EncodeFault::NotWritable(signal.name))
    } else if is_aligned(start, len) {
        Ok(word_writes(base, crate::manifest::register_offset(start), register_words(meta, signal, raw)))
    } else if is_bit_field(start, len) {
        Ok(seq![field_write(base, signal, raw)])
    } else {
        Err(
            EncodeFault::UnsupportedLayout {
                name: signal.name,
                start_bit: signal.start_bit,
                bit_length: signal.bit_length,
            },
        )
    }
}

/// Whether the registers of an aligned signal can be numbered.
pub open spec fn registers_numbered(start_bit: int, bit_length: int) -> bool {
    is_aligned(start_bit, bit_length) ==> crate::manifest::register_offset(start_bit) + bit_length / 16 <= 65536
}

fn split_words(v: u128, n: usize) -> (r: Vec<u16>)
    ensures
        r@ == low_words(v as int, n as int),
{
    let ghost all = low_words(v as int, n as int);
    let mut rest: u128 = v;
    let mut out: Vec<u16> = Vec::new();
    assert(out@ + low_words(rest as int, n as int) == all);
    for i in 0..n
        invariant
            out@ + low_words(rest as int, n - i) == all,
    {
        let ghost before = out@;
        let ghost tail = low_words(rest as int, n - i);
        out.push((rest % 65536) as u16);
        rest = rest / 65536;
        assert(out@ + low_words(rest as int, n - i - 1) == before + tail);
    }
    assert(out@ + low_words(rest as int, 0) == out@);
    out
}

proof fn lemma_low_words_length(v: int, n: int)
    requires
        n >= 0,
    ensures
        low_words(v, n).len() == n,
    decreases n,
{
    if n > 0 {
        lemma_low_words_length(v / 65536, n - 1);
    }
}

proof fn lemma_masked_bounded(raw: int, len: int)
    requires
        0 <= len <= 126,
    ensures
        0 <= crate::bits::masked(raw, len) < vstd::arithmetic::power2::pow2(len as nat),
{
    vstd::arithmetic::power2::lemma_pow2_pos(len as nat);
    vstd::arithmetic::div_mod::lemma_mod_bound(
        raw,
        vstd::arithmetic::power2::pow2(len as nat) as int,
    );
}

/// Resolve a raw integer to its register writes. Aligned full-width signals
/// (16/32/48/64-bit) yield one full-mask register each (word order applied
/// across registers); a single-register bit-field (big byte order) yields one
/// masked register.
pub fn encode_raw(
    manifest: &ModbusManifest,
    frame: &ModbusFrame,
    signal: &ModbusSignal,
    raw: i128,
) -> (r: Result<Vec<ModbusWrite>, EncodeError>)
    requires
        registers_numbered(signal.start_bit as int, signal.bit_length as int),
    ensures
        match r {
            Ok(writes) => encoded(manifest.meta, frame@, signal@, raw as int) == Ok::<
                Seq<ModbusWrite>,
                EncodeFault,
            >(writes@),
            Err(e) => encoded(manifest.meta, frame@, signal@, raw as int) == Err::<
                Seq<ModbusWrite>,
                EncodeFault,
            >(e@),
        },
{
    if !frame.register_type.is_writable() {
        return Err(EncodeError::NotWritable(owned(signal.name.as_str())));
    }
    let len: u32 = signal.bit_length;
    let start: u32 = signal.start_bit;
    let raw_bits: u128 = mask_value(raw, len);
    let base: u16 = manifest.protocol_address(frame);
    let offset: u16 = (start / 16 % 65536) as u16;
    // Aligned full-register signal (16/32/48/64-bit).
    if start % 16 == 0 && len % 16 == 0 && 16 <= len && len <= 64 {
        let count: usize = (len / 16) as usize;
        let words = split_words(raw_bits, count);
        proof {
            lemma_low_words_length(raw_bits as int, count as int);
        }
        let word_order: Endianness = match signal.word_order {
            Some(order) => order,
            None => match manifest.meta.default_word_order {
                Some(order) => order,
                None => Endianness::Big,
            },
        };
        let ghost ordered = register_words(manifest.meta, signal@, raw as int);
        let ghost all = word_writes(base as int, offset as int, ordered);
        let mut out: Vec<ModbusWrite> = Vec::new();
        for i in 0..count
            invariant
                count == words@.len(),
                1 <= count <= 4,
                offset + count <= 65536,
                ordered == if word_order == Endianness::Little {
                    words@
                } else {
                    words@.reverse()
                },
                all == word_writes(base as int, offset as int, ordered),
                out@ == all.take(i as int),
        {
            // Little word order (Sungrow "CDAB"): low word first on the wire.
            let value: u16 = if word_order == Endianness::Little {
                words[i]
            } else {
                words[count - 1 - i]
            };
            let w = ModbusWrite {
                address: capped_sum(base, offset + i as u16),
                value,
                mask: 0xFFFF,
            };
            out.push(w);
            assert(w == all[i as int]);
            assert(all.take(i + 1) == all.take(i as int).push(w));
        }
        assert(all.take(all.len() as int) == all);
        return Ok(out);
    }
    // Single-register bit-field (fits within one register), big byte order.

    if 1 <= len && len < 16 && (start / 16) as u64 == (start as u64 + len as u64 - 1) / 16 {
        let shift: u32 = 16 - start % 16 - len;
        let step: u128 = power_of_two(shift);
        let span: u128 = power_of_two(len);
        proof {
            lemma_masked_bounded(raw as int, len as int);
            vstd::arithmetic::power2::lemma_pow2_adds(len as nat, shift as nat);
            crate::bits::lemma_pow2_below((len + shift) as nat, 16);
            vstd::arithmetic::power2::lemma2_to64();
            let bits = raw_bits as int;
            assert((span - 1) * step < span * step) by (nonlinear_arith)
                requires
                    step >= 1,
            ;
            vstd::arithmetic::power2::lemma_pow2_pos(shift as nat);
            assert(bits * step <= (span - 1) * step) by (nonlinear_arith)
                requires
                    bits <= span - 1,
                    step >= 0,
            ;
            assert(0 <= bits * step && 0 <= (span - 1) * step) by (nonlinear_arith)
                requires
                    bits >= 0,
                    span >= 1,
                    step >= 0,
            ;
        }
        let w = ModbusWrite {
            address: capped_sum(base, offset),
            value: (raw_bits * step) as u16,
            mask: ((span - 1) * step) as u16,
        };
        let mut out: Vec<ModbusWrite> = Vec::new();
        out.push(w);
        assert(out@ == seq![field_write(base as int, signal@, raw as int)]);
        return Ok(out);
    }
    Err(
        EncodeError::UnsupportedLayout {
            name: owned(signal.name.as_str()),
            start_bit: start,
            bit_length: len,
        },
    )
}

/// The lowest raw value of a signal.
pub open spec fn lowest(signed: bool, bit_length: int) -> int {
    if signed {
        -vstd::arithmetic::power2::pow2((bit_length - 1) as nat)
    } else {
        0
    }
}

/// The highest raw value of a signal.
pub open spec fn highest(signed: bool, bit_length: int) -> int {
    if signed {
        vstd::arithmetic::power2::pow2((bit_length - 1) as nat) - 1
    } else {
        vstd::arithmetic::power2::pow2(bit_length as nat) - 1
    }
}

/// A number, brought into a range.
pub open spec fn clamped(n: int, low: int, high: int) -> int {
    if n < low {
        low
    } else if n > high {
        high
    } else {
        n
    }
}

/// Whether a signal's range of raw values can be computed.
pub open spec fn has_range(signed: bool, bit_length: int) -> bool {
    if signed {
        1 <= bit_length <= 127
    } else {
        0 <= bit_length <= 126
    }
}

fn clamp_to_width(signed: bool, bit_length: u32, raw: i128) -> (r: i128)
    requires
        has_range(signed, bit_length as int),
    ensures
        r == clamped(
            raw as int,
            lowest(signed, bit_length as int),
            highest(signed, bit_length as int),
        ),
{
    proof {
        crate::bits::lemma_pow2_127();
    }
    if signed {
        proof {
            crate::bits::lemma_pow2_below((bit_length - 1) as nat, 126);
        }
        let half: i128 = power_of_two(bit_length - 1) as i128;
        if raw < -half {
            -half
        } else if raw > half - 1 {
            half - 1
        } else {
            raw
        }
    } else {
        proof {
            crate::bits::lemma_pow2_below(bit_length as nat, 126);
        }
        let span: i128 = power_of_two(bit_length) as i128;
        if raw < 0 {
            0
        } else if raw > span - 1 {
            span - 1
        } else {
            raw
        }
    }
}

/// Encode a numeric value to the register(s) it occupies — the inverse of
/// [`decode_frame`], honouring the signal's sign, bit position and word order.
/// `unscaled` is the value with the signal's scale undone, rounded; it is clamped
/// to the signal's bit width. Returns one [`ModbusWrite`] per register (full-mask
/// for an aligned signal; a single masked register for a bit-field). Supports
/// register-aligned 16/32/48/64-bit signals and single-register bit-fields;
/// other layouts error rather than mis-pack.
pub fn encode_signal(
    manifest: &ModbusManifest,
    frame: &ModbusFrame,
    signal: &ModbusSignal,
    unscaled: i128,
) -> (r: Result<Vec<ModbusWrite>, EncodeError>)
    requires
        has_range(signal.signed, signal.bit_length as int),
        registers_numbered(signal.start_bit as int, signal.bit_length as int),
    ensures
        ({
            let raw = clamped(
                unscaled as int,
                lowest(signal.signed, signal.bit_length as int),
                highest(signal.signed, signal.bit_length as int),
            );
            match r {
                Ok(writes) => encoded(manifest.meta, frame@, signal@, raw) == Ok::<
                    Seq<ModbusWrite>,
                    EncodeFault,
                >(writes@),
                Err(e) => encoded(manifest.meta, frame@, signal@, raw) == Err::<
                    Seq<ModbusWrite>,
                    EncodeFault,
                >(e@),
            }
        }),
{
    let raw: i128 = clamp_to_width(signal.signed, signal.bit_length, unscaled);
    encode_raw(manifest, frame, signal, raw)
}

/// The register value of the first entry with the given label, if its key is an
/// integer.
pub open spec fn value_labelled(entries: Seq<(Seq<char>, Seq<char>)>, name: Seq<char>) -> Option<
    int,
>
    decreases entries.len(),
{
    if entries.len() == 0 {
        None
    } else if entries[0].1 == name {
        crate::text::within(
            crate::text::integer(entries[0].0, 10),
            i128::MIN as int,
            i128::MAX as int,
        )
    } else {
        value_labelled(entries.skip(1), name)
    }
}

impl ModbusSignalView {
    /// The register value of a canonical name.
    pub open spec fn enum_value(self, name: Seq<char>) -> Option<int> {
        match self.enum_map {
            Some(entries) => value_labelled(entries, name),
            None => None,
        }
    }

    /// Whether the numeric decoder skips this signal.
    pub open spec fn is_text(self) -> bool {
        self.format matches Some(f) && f != SignalFormat::Enum
    }
}

impl ModbusSignal {
    /// Numeric signals (no `format`) are the only ones offered as read role
    /// bindings.
    pub fn is_numeric(&self) -> (r: bool)
        ensures
            r == (self.format is None),
    {
        self.format.is_none()
    }

    /// String-ish formats the decoder skips (version/serial/firmware
    /// frames). `None` and `Enum` are *not* skipped — they decode to a
    /// numeric value so control/state readback entities persist.
    pub fn is_string_format(&self) -> (r: bool)
        ensures
            r == self@.is_text(),
    {
        match self.format {
            Some(SignalFormat::Enum) => false,
            Some(_) => true,
            None => false,
        }
    }

    /// Reverse-resolve a canonical enum name to its register value (e.g.
    /// `"charge"` → `170`). `None` if the signal has no `enum` map, the
    /// name isn't present, or the key isn't a valid integer.
    pub fn enum_value(&self, name: &str) -> (r: Option<i128>)
        ensures
            match r {
                Some(v) => self@.enum_value(name@) == Some(v as int),
                None => self@.enum_value(name@) is None,
            },
    {
        let entries = match &self.enum_map {
            Some(entries) => entries,
            None => {
                return None;
            },
        };
        let ghost all = crate::manifest::pair_texts(entries@);
        assert(all.skip(0) == all);
        for i in 0..entries.len()
            invariant
                all == crate::manifest::pair_texts(entries@),
                self@.enum_map == Some(all),
                value_labelled(all, name@) == value_labelled(all.skip(i as int), name@),
        {
            assert(all.skip(i as int)[0] == all[i as int]);
            assert(all.skip(i as int).skip(1) == all.skip(i + 1));
            if str_eq(entries[i].1.as_str(), name) {
                let chars = chars_of(entries[i].0.as_str());
                return parse_integer(chars.as_slice(), 10, i128::MIN, i128::MAX);
            }
        }
        assert(all.skip(all.len() as int).len() == 0);
        None
    }
}

/// Encode a write from a canonical enum name (e.g. `"charge"`), resolving
/// it to the register value via the signal's `enum` map.
pub fn encode_enum(
    manifest: &ModbusManifest,
    frame: &ModbusFrame,
    signal: &ModbusSignal,
    name: &str,
) -> (r: Result<Vec<ModbusWrite>, EncodeError>)
    requires
        registers_numbered(signal.start_bit as int, signal.bit_length as int),
    ensures
        match signal@.enum_value(name@) {
            Some(raw) => match r {
                Ok(writes) => encoded(manifest.meta, frame@, signal@, raw) == Ok::<
                    Seq<ModbusWrite>,
                    EncodeFault,
                >(writes@),
                Err(e) => encoded(manifest.meta, frame@, signal@, raw) == Err::<
                    Seq<ModbusWrite>,
                    EncodeFault,
                >(e@),
            },
            None => r matches Err(e) && e@ == (EncodeFault::UnknownEnumName {
                name: signal@.name,
                value: name@,
            }),
        },
{
    match signal.enum_value(name) {
        Some(value) => encode_raw(manifest, frame, signal, value),
        None => Err(
            EncodeError::UnknownEnumName { name: owned(signal.name.as_str()), value: owned(name) },
        ),
    }
}

// ---------------------------------------------------------------------------
// Merging and grouping
// ---------------------------------------------------------------------------

/// The place of the first write to a register.
pub open spec fn place_of(writes: Seq<ModbusWrite>, address: u16, from: int) -> Option<int>
    decreases writes.len() - from,
{
    if from < 0 || from >= writes.len() {
        None
    } else if writes[from].address == address {
        Some(from)
    } else {
        place_of(writes, address, from + 1)
    }
}

/// A list of merged writes with one more; or, where that write and an earlier
/// one own a common bit, its register.
pub open spec fn absorbed(out: Seq<ModbusWrite>, w: ModbusWrite) -> Result<Seq<ModbusWrite>, u16> {
    match place_of(out, w.address, 0) {
        Some(i) => if out[i].mask & w.mask != 0 {
            Err(w.address)
        } else {
            Ok(
                out.update(
                    i,
                    ModbusWrite {
                        address: w.address,
                        value: out[i].value | (w.value & w.mask),
                        mask: out[i].mask | w.mask,
                    },
                ),
            )
        },
        None => Ok(out.push(w)),
    }
}

/// Writes with one left per register, in the order the registers first occur;
/// or the first register with two writes to one bit.
pub open spec fn merged(writes: Seq<ModbusWrite>) -> Result<Seq<ModbusWrite>, u16>
    decreases writes.len(),
{
    if writes.len() == 0 {
        Ok(Seq::empty())
    } else {
        match merged(writes.drop_last()) {
            Ok(out) => absorbed(out, writes.last()),
            Err(address) => Err(address),
        }
    }
}

/// What is said of a register with two writes to one bit.
pub open spec fn overlap_text(address: u16) -> Seq<char> {
    "register "@ + crate::text::decimal(address as nat) + " written by overlapping commands"@
}

proof fn lemma_merged_error_stays(writes: Seq<ModbusWrite>, n: int)
    requires
        0 <= n <= writes.len(),
        merged(writes.take(n)) is Err,
    ensures
        merged(writes) == merged(writes.take(n)),
    decreases writes.len() - n,
{
    if n < writes.len() {
        assert(writes.take(n + 1).drop_last() == writes.take(n));
        lemma_merged_error_stays(writes, n + 1);
    } else {
        assert(writes.take(n) == writes);
    }
}

/// Merge writes that target the same register (co-located bit-fields from
/// different commands): OR their masked values and combine masks. Writes to
/// distinct registers pass through. Errors if two own overlapping bits.
pub fn merge_register_writes(writes: Vec<ModbusWrite>) -> (r: Result<Vec<ModbusWrite>, String>)
    ensures
        match r {
            Ok(out) => merged(writes@) == Ok::<Seq<ModbusWrite>, u16>(out@),
            Err(text) => merged(writes@) matches Err(address) && text@ == overlap_text(address),
        },
{
    let ghost all = writes@;
    let mut out: Vec<ModbusWrite> = Vec::new();
    for i in 0..writes.len()
        invariant
            all == writes@,
            merged(all.take(i as int)) == Ok::<Seq<ModbusWrite>, u16>(out@),
    {
        let w: ModbusWrite = writes[i];
        assert(all.take(i + 1).drop_last() == all.take(i as int));
        let mut at: usize = 0;
        while at < out.len() && out[at].address != w.address
            invariant
                at <= out@.len(),
                place_of(out@, w.address, 0) == place_of(out@, w.address, at as int),
            decreases out@.len() - at,
        {
            at = at + 1;
        }
        if at < out.len() {
            let existing: ModbusWrite = out[at];
            if existing.mask & w.mask != 0 {
                proof {
                    lemma_merged_error_stays(all, i + 1);
                }
                let mut text = owned("register ");
                push_decimal(&mut text, w.address as u128);
                push_text(&mut text, " written by overlapping commands");
                return Err(text);
            }
            out.set(
                at,
                ModbusWrite {
                    address: w.address,
                    value: existing.value | (w.value & w.mask),
                    mask: existing.mask | w.mask,
                },
            );
        } else {
            out.push(w);
        }
    }
    assert(all.take(all.len() as int) == all);
    Ok(out)
}

/// Writes split where the next register does not follow the last.
pub open spec fn runs_of(writes: Seq<ModbusWrite>) -> Seq<Seq<ModbusWrite>>
    decreases writes.len(),
{
    if writes.len() == 0 {
        Seq::empty()
    } else {
        let runs = runs_of(writes.drop_last());
        let w = writes.last();
        if runs.len() > 0 && runs.last().len() > 0 && runs.last().last().address + 1 == w.address {
            runs.drop_last().push(runs.last().push(w))
        } else {
            runs.push(seq![w])
        }
    }
}

/// What each of a list of runs holds.
pub open spec fn run_views(runs: Seq<Vec<ModbusWrite>>) -> Seq<Seq<ModbusWrite>> {
    runs.map_values(|run: Vec<ModbusWrite>| run@)
}

/// Group register writes into runs of consecutive addresses (ascending by 1,
/// in list order). Each run becomes one Modbus transaction.
pub fn group_contiguous(writes: &[ModbusWrite]) -> (r: Vec<Vec<ModbusWrite>>)
    ensures
        run_views(r@) == runs_of(writes@),
{
    let ghost all = writes@;
    let mut runs: Vec<Vec<ModbusWrite>> = Vec::new();
    assert(run_views(runs@) == runs_of(all.take(0)));
    for i in 0..writes.len()
        invariant
            all == writes@,
            run_views(runs@) == runs_of(all.take(i as int)),
    {
        let w: ModbusWrite = writes[i];
        assert(all.take(i + 1).drop_last() == all.take(i as int));
        let ghost before = runs_of(all.take(i as int));
        match runs.pop() {
            Some(last) => {
                assert(before.last() == last@);
                assert(run_views(runs@) == before.drop_last());
                let mut run = last;
                if run.len() > 0 && run[run.len() - 1].address < 65535 && run[run.len() - 1].address
                    + 1 == w.address {
                    run.push(w);
                    runs.push(run);
                    assert(run_views(runs@) == before.drop_last().push(before.last().push(w)));
                } else {
                    runs.push(run);
                    let mut fresh: Vec<ModbusWrite> = Vec::new();
                    fresh.push(w);
                    runs.push(fresh);
                    assert(fresh@ == seq![w]);
                    assert(run_views(runs@) == before.push(seq![w]));
                }
            },
            None => {
                let mut fresh: Vec<ModbusWrite> = Vec::new();
                fresh.push(w);
                runs.push(fresh);
                assert(fresh@ == seq![w]);
                assert(run_views(runs@) == before.push(seq![w]));
            },
        }
    }
    assert(all.take(all.len() as int) == all);
    runs
}

// ---------------------------------------------------------------------------
// Decoding
// ---------------------------------------------------------------------------

/// A decoded numeric reading.
#[derive(Debug, Clone, PartialEq)]
pub struct DecodedSignal {
    pub name: String,
    /// Scaled value as an exact decimal so `raw × factor + offset` doesn't
    /// pick up binary-float artifacts (e.g. `3374 × 0.1` is `337.4`, not
    /// `337.40000000000003`) when stringified for display or an entity state.
    pub value: DecimalValue,
    pub unit: Option<String>,
}

/// A decoded reading, as a mathematical value: the value as mantissa and scale.
#[verifier::ext_equal]
pub struct ReadingView {
    pub name: Seq<char>,
    pub value: (int, int),
    pub unit: Option<Seq<char>>,
}

impl View for DecodedSignal {
    type V = ReadingView;

    open spec fn view(&self) -> ReadingView {
        ReadingView {
            name: self.name@,
            value: (self.value.mantissa as int, self.value.scale as int),
            unit: crate::model::opt_text(self.unit),
        }
    }
}

/// What each of a list of readings says.
pub open spec fn reading_views(readings: Seq<DecodedSignal>) -> Seq<ReadingView> {
    readings.map_values(|r: DecodedSignal| r@)
}

/// The byte order of a signal: its own, the manifest's, or high byte first.
pub open spec fn byte_order_of(meta: ModbusMeta, signal: ModbusSignalView) -> Endianness {
    match signal.byte_order {
        Some(order) => order,
        None => match meta.default_byte_order {
            Some(order) => order,
            None => Endianness::Big,
        },
    }
}

/// The raw value of a signal in a register block.
pub open spec fn raw_reading(meta: ModbusMeta, signal: ModbusSignalView, block: Seq<u16>) -> int {
    crate::bits::signal_value(
        crate::modbus_rtu_stream::big_endian_bytes(block),
        signal.start_bit as int,
        signal.bit_length as int,
        byte_order_of(meta, signal),
        Some(word_order_of(meta, signal)),
        signal.signed,
    )
}

/// The scaled value of a signal in a register block, unless it is out of range.
pub open spec fn reading(meta: ModbusMeta, signal: ModbusSignalView, block: Seq<u16>) -> Option<
    (int, int),
> {
    crate::bits::scaled(
        crate::bits::whole_decimal(raw_reading(meta, signal, block)),
        crate::value::opt_decimal(signal.factor),
        crate::value::opt_decimal(signal.offset),
    )
}

/// The readings of the numeric ones of a list of signals, in their order,
/// unless one is out of range.
pub open spec fn readings_of(
    meta: ModbusMeta,
    signals: Seq<ModbusSignalView>,
    block: Seq<u16>,
) -> Option<Seq<ReadingView>>
    decreases signals.len(),
{
    if signals.len() == 0 {
        Some(Seq::empty())
    } else {
        let s = signals.last();
        match readings_of(meta, signals.drop_last(), block) {
            Some(before) => if s.is_text() {
                Some(before)
            } else {
                match reading(meta, s, block) {
                    Some(value) => Some(
                        before.push(ReadingView { name: s.name, value, unit: s.unit }),
                    ),
                    None => None,
                }
            },
            None => None,
        }
    }
}

proof fn lemma_readings_none_stays(
    meta: ModbusMeta,
    signals: Seq<ModbusSignalView>,
    block: Seq<u16>,
    n: int,
)
    requires
        0 <= n <= signals.len(),
        readings_of(meta, signals.take(n), block) is None,
    ensures
        readings_of(meta, signals, block) is None,
    decreases signals.len() - n,
{
    if n < signals.len() {
        assert(signals.take(n + 1).drop_last() == signals.take(n));
        lemma_readings_none_stays(meta, signals, block, n + 1);
    } else {
        assert(signals.take(n) == signals);
    }
}

/// Decode every numeric signal of a frame from its register block. String-ish
/// signals are skipped. `None` where a scaled value is out of the decimal range.
pub fn decode_frame(frame: &ModbusFrame, regs: &[u16], meta: &ModbusMeta) -> (r: Option<
    Vec<DecodedSignal>,
>)
    requires
        forall|i: int|
            0 <= i < frame.signals@.len() && (#[trigger] frame.signals@[i]).signed
                && !frame.signals@[i]@.is_text() ==> frame.signals@[i].bit_length <= 128,
    ensures
        match r {
            Some(list) => readings_of(*meta, frame@.signals, regs@) == Some(
                reading_views(list@),
            ),
            None => readings_of(*meta, frame@.signals, regs@) is None,
        },
{
    let bytes = registers_to_bytes(regs);
    let ghost all = frame@.signals;
    let mut out: Vec<DecodedSignal> = Vec::new();
    assert(reading_views(out@) == Seq::<ReadingView>::empty());
    for i in 0..frame.signals.len()
        invariant
            all == frame@.signals,
            all.len() == frame.signals@.len(),
            bytes@ == crate::modbus_rtu_stream::big_endian_bytes(regs@),
            forall|i: int|
                0 <= i < frame.signals@.len() && (#[trigger] frame.signals@[i]).signed
                    && !frame.signals@[i]@.is_text() ==> frame.signals@[i].bit_length <= 128,
            readings_of(*meta, all.take(i as int), regs@) == Some(reading_views(out@)),
    {
        let sig = &frame.signals[i];
        let ghost before = reading_views(out@);
        assert(all.take(i + 1).drop_last() == all.take(i as int));
        assert(all.take(i + 1).last() == sig@);
        if !sig.is_string_format() {
            let byte_order: Endianness = match sig.byte_order {
                Some(order) => order,
                None => match meta.default_byte_order {
                    Some(order) => order,
                    None => Endianness::Big,
                },
            };
            let word_order: Endianness = match sig.word_order {
                Some(order) => order,
                None => match meta.default_word_order {
                    Some(order) => order,
                    None => Endianness::Big,
                },
            };
            let raw: i128 = read_signal(
                bytes.as_slice(),
                sig.start_bit,
                sig.bit_length,
                byte_order,
                Some(word_order),
                sig.signed,
            );
            // Scale in exact decimal (shared with the general decode path), so
            // `3374 * 0.1` is `337.4`, not the float-noisy `337.40000000000003`.
            match scale(decimal_of(raw), decimal_at(sig.factor), decimal_at(sig.offset)) {
                Some(value) => {
                    let one = DecodedSignal {
                        name: owned(sig.name.as_str()),
                        value,
                        unit: copy_text(&sig.unit),
                    };
                    out.push(one);
                    assert(reading_views(out@) == before.push(one@));
                },
                None => {
                    proof {
                        lemma_readings_none_stays(*meta, all, regs@, i + 1);
                    }
                    return None;
                },
            }
        }
    }
    assert(all.take(all.len() as int) == all);
    Some(out)
}

// ---------------------------------------------------------------------------
// Laws
// ---------------------------------------------------------------------------

/// Whether two of the writes, at different places, own a common bit of one
/// register.
pub open spec fn overlapping(writes: Seq<ModbusWrite>) -> bool {
    exists|i: int, j: int|
        0 <= i < j < writes.len() && (#[trigger] writes[i]).address == (
        #[trigger] writes[j]).address && writes[i].mask & writes[j].mask != 0
}

/// Whether no two of the writes go to one register.
pub open spec fn one_per_register(writes: Seq<ModbusWrite>) -> bool {
    forall|i: int, j: int|
        0 <= i < j < writes.len() ==> (#[trigger] writes[i]).address != (
        #[trigger] writes[j]).address
}

/// Whether the bits of `m` are free of every write to a register.
pub open spec fn untouched(writes: Seq<ModbusWrite>, address: u16, m: u16) -> bool {
    forall|j: int|
        0 <= j < writes.len() && (#[trigger] writes[j]).address == address ==> writes[j].mask & m
            == 0
}

/// Whether merged writes own just the bits that the writes own.
spec fn owns_the_same(out: Seq<ModbusWrite>, writes: Seq<ModbusWrite>) -> bool {
    &&& forall|i: int, m: u16|
        #![trigger out[i], untouched(writes, out[i].address, m)]
        0 <= i < out.len() ==> (out[i].mask & m == 0 <==> untouched(writes, out[i].address, m))
    &&& forall|j: int|
        0 <= j < writes.len() ==> place_of(out, (#[trigger] writes[j]).address, 0) is Some
    &&& forall|i: int|
        0 <= i < out.len() ==> exists|j: int|
            0 <= j < writes.len() && (#[trigger] writes[j]).address == (
            #[trigger] out[i]).address
}

proof fn lemma_place_of(writes: Seq<ModbusWrite>, address: u16, from: int)
    requires
        0 <= from <= writes.len(),
    ensures
        match place_of(writes, address, from) {
            Some(i) => from <= i < writes.len() && writes[i].address == address,
            None => forall|i: int|
                from <= i < writes.len() ==> (#[trigger] writes[i]).address != address,
        },
    decreases writes.len() - from,
{
    if from < writes.len() && writes[from].address != address {
        lemma_place_of(writes, address, from + 1);
    }
}

proof fn lemma_masks_combine(a: u16, b: u16, m: u16)
    ensures
        (a | b) & m == 0 <==> a & m == 0 && b & m == 0,
{
    assert((a | b) & m == 0 <==> a & m == 0 && b & m == 0) by (bit_vector);
}

proof fn lemma_untouched_step(writes: Seq<ModbusWrite>, address: u16, m: u16)
    requires
        writes.len() > 0,
    ensures
        untouched(writes, address, m) <==> untouched(writes.drop_last(), address, m) && (
        writes.last().address == address ==> writes.last().mask & m == 0),
{
    let before = writes.drop_last();
    if untouched(writes, address, m) {
        assert forall|j: int| 0 <= j < before.len() && (#[trigger] before[j]).address
            == address implies before[j].mask & m == 0 by {
            assert(before[j] == writes[j]);
        }
    }
    if untouched(before, address, m) && (writes.last().address == address ==> writes.last().mask & m
        == 0) {
        assert forall|j: int| 0 <= j < writes.len() && (#[trigger] writes[j]).address
            == address implies writes[j].mask & m == 0 by {
            if j < before.len() {
                assert(before[j] == writes[j]);
            }
        }
    }
}

proof fn lemma_absorb_keeps_one(out: Seq<ModbusWrite>, w: ModbusWrite)
    requires
        one_per_register(out),
        absorbed(out, w) is Ok,
    ensures
        one_per_register(absorbed(out, w)->Ok_0),
{
    lemma_place_of(out, w.address, 0);
}

proof fn lemma_absorb_owns(writes: Seq<ModbusWrite>, out: Seq<ModbusWrite>)
    requires
        writes.len() > 0,
        one_per_register(out),
        owns_the_same(out, writes.drop_last()),
        absorbed(out, writes.last()) is Ok,
    ensures
        owns_the_same(absorbed(out, writes.last())->Ok_0, writes),
{
    let before = writes.drop_last();
    let w = writes.last();
    let new = absorbed(out, w)->Ok_0;
    lemma_place_of(out, w.address, 0);
    assert forall|i: int, m: u16|
        #![trigger new[i], untouched(writes, new[i].address, m)]
        0 <= i < new.len() implies (new[i].mask & m == 0 <==> untouched(
        writes,
        new[i].address,
        m,
    )) by {
        lemma_untouched_step(writes, new[i].address, m);
        if i < out.len() {
            assert(out[i].mask & m == 0 <==> untouched(before, out[i].address, m));
            lemma_masks_combine(out[i].mask, w.mask, m);
        } else {
            assert(untouched(before, w.address, m)) by {
                assert forall|j: int| 0 <= j < before.len() && (#[trigger] before[j]).address
                    == w.address implies before[j].mask & m == 0 by {
                    assert(place_of(out, before[j].address, 0) is Some);
                }
            }
        }
    }
    assert forall|j: int| 0 <= j < writes.len() implies place_of(
        new,
        (#[trigger] writes[j]).address,
        0,
    ) is Some by {
        let a = writes[j].address;
        lemma_place_of(new, a, 0);
        if j < before.len() {
            assert(before[j] == writes[j]);
            lemma_place_of(out, a, 0);
            let k = place_of(out, a, 0)->Some_0;
            assert(new[k].address == a);
        } else {
            let k = match place_of(out, a, 0) {
                Some(k) => k,
                None => out.len() as int,
            };
            assert(new[k].address == a);
        }
    }
    assert forall|i: int| 0 <= i < new.len() implies exists|j: int|
        0 <= j < writes.len() && (#[trigger] writes[j]).address == (
        #[trigger] new[i]).address by {
        if i < out.len() {
            let a = out[i].address;
            let j = choose|j: int|
                0 <= j < before.len() && (#[trigger] before[j]).address == out[i].address;
            assert(writes[j].address == new[i].address);
        } else {
            assert(writes[writes.len() - 1].address == new[i].address);
        }
    }
}

proof fn lemma_merged(writes: Seq<ModbusWrite>)
    ensures
        match merged(writes) {
            Ok(out) => one_per_register(out) && owns_the_same(out, writes) && !overlapping(writes),
            Err(address) => overlapping(writes),
        },
    decreases writes.len(),
{
    if writes.len() > 0 {
        let before = writes.drop_last();
        let w = writes.last();
        lemma_merged(before);
        match merged(before) {
            Err(_) => {
                let (i, j) = choose|i: int, j: int|
                    0 <= i < j < before.len() && (#[trigger] before[i]).address == (
                    #[trigger] before[j]).address && before[i].mask & before[j].mask != 0;
                assert(before[i] == writes[i] && before[j] == writes[j]);
            },
            Ok(out) => {
                lemma_place_of(out, w.address, 0);
                match place_of(out, w.address, 0) {
                    Some(i) => {
                        assert(out[i].mask & w.mask == 0 <==> untouched(
                            before,
                            out[i].address,
                            w.mask,
                        ));
                        if out[i].mask & w.mask != 0 {
                            let j = choose|j: int|
                                0 <= j < before.len() && (#[trigger] before[j]).address
                                    == w.address && before[j].mask & w.mask != 0;
                            assert(writes[j] == before[j]);
                            assert(writes[writes.len() - 1] == w);
                            assert(overlapping(writes));
                        }
                    },
                    None => {},
                }
                if absorbed(out, w) is Ok {
                    lemma_absorb_keeps_one(out, w);
                    lemma_absorb_owns(writes, out);
                    assert(!overlapping(writes)) by {
                        assert forall|i: int, j: int|
                            0 <= i < j < writes.len() && (#[trigger] writes[i]).address == (
                            #[trigger] writes[j]).address implies writes[i].mask & writes[j].mask
                            == 0 by {
                            assert(before[i] == writes[i]);
                            if j < before.len() {
                                assert(before[j] == writes[j]);
                            } else {
                                assert(place_of(out, before[i].address, 0) is Some);
                                let k = place_of(out, w.address, 0)->Some_0;
                                assert(out[k].mask & w.mask == 0);
                                assert(untouched(before, out[k].address, w.mask));
                            }
                        }
                    }
                }
            },
        }
    }
}

/// Merging fails exactly when two of the writes own a common bit of one
/// register.
pub proof fn law_merging_fails_on_overlap_alone(writes: Seq<ModbusWrite>)
    ensures
        merged(writes) is Err <==> overlapping(writes),
{
    lemma_merged(writes);
}

/// Whether each write sets only bits that it owns.
pub open spec fn within_masks(writes: Seq<ModbusWrite>) -> bool {
    forall|i: int|
        0 <= i < writes.len() ==> (#[trigger] writes[i]).value & writes[i].mask == writes[i].value
}

/// Whether a list of merged writes sets a register as a write does: it owns the
/// write's bits, and gives them the write's values.
pub open spec fn carries(out: Seq<ModbusWrite>, w: ModbusWrite) -> bool {
    exists|i: int|
        0 <= i < out.len() && (#[trigger] out[i]).address == w.address && out[i].mask & w.mask
            == w.mask && out[i].value & w.mask == w.value
}

proof fn lemma_absorb_carries(out: Seq<ModbusWrite>, w: ModbusWrite, x: ModbusWrite)
    requires
        one_per_register(out),
        within_masks(out),
        absorbed(out, w) is Ok,
        w.value & w.mask == w.value,
        x == w || carries(out, x),
    ensures
        within_masks(absorbed(out, w)->Ok_0),
        carries(absorbed(out, w)->Ok_0, x),
{
    let new = absorbed(out, w)->Ok_0;
    lemma_place_of(out, w.address, 0);
    match place_of(out, w.address, 0) {
        Some(i) => {
            let v = out[i].value;
            let m = out[i].mask;
            let (wv, wm, xv, xm) = (w.value, w.mask, x.value, x.mask);
            assert(new[i].value == (v | (wv & wm)) && new[i].mask == m | wm);
            assert((v | (wv & wm)) & (m | wm) == v | (wv & wm)) by (bit_vector)
                requires
                    v & m == v,
            ;
            assert((m | wm) & wm == wm && (v | (wv & wm)) & wm == wv) by (bit_vector)
                requires
                    v & m == v,
                    m & wm == 0,
                    wv & wm == wv,
            ;
            if x == w {
                assert(new[i].address == x.address);
            } else {
                let k = choose|k: int|
                    0 <= k < out.len() && (#[trigger] out[k]).address == x.address && out[k].mask
                        & x.mask == x.mask && out[k].value & x.mask == x.value;
                if k == i {
                    assert((m | wm) & xm == xm && (v | (wv & wm)) & xm == xv) by (bit_vector)
                        requires
                            m & xm == xm,
                            v & xm == xv,
                            m & wm == 0,
                    ;
                }
                assert(new[k].address == x.address);
            }
        },
        None => {
            if x == w {
                let (wv, wm) = (w.value, w.mask);
                assert(wm & wm == wm) by (bit_vector);
                assert(new[out.len() as int] == w);
            } else {
                let k = choose|k: int|
                    0 <= k < out.len() && (#[trigger] out[k]).address == x.address && out[k].mask
                        & x.mask == x.mask && out[k].value & x.mask == x.value;
                assert(new[k] == out[k]);
            }
        },
    }
}

proof fn lemma_merged_carries(writes: Seq<ModbusWrite>)
    requires
        within_masks(writes),
        merged(writes) is Ok,
    ensures
        within_masks(merged(writes)->Ok_0),
        forall|k: int| 0 <= k < writes.len() ==> carries(merged(writes)->Ok_0, #[trigger] writes[k]),
    decreases writes.len(),
{
    if writes.len() > 0 {
        let before = writes.drop_last();
        let w = writes.last();
        assert forall|i: int| 0 <= i < before.len() implies (#[trigger] before[i]).value
            & before[i].mask == before[i].value by {
            assert(before[i] == writes[i]);
        }
        assert(writes[writes.len() - 1] == w);
        lemma_merged_carries(before);
        lemma_merged(before);
        let out = merged(before)->Ok_0;
        lemma_absorb_carries(out, w, w);
        assert forall|k: int| 0 <= k < writes.len() implies carries(
            merged(writes)->Ok_0,
            #[trigger] writes[k],
        ) by {
            if k < before.len() {
                assert(before[k] == writes[k]);
                lemma_absorb_carries(out, w, writes[k]);
            }
        }
    }
}

/// What merging leaves goes to each register once, and sets every bit that any
/// of the writes owns to what that write gives it.
pub proof fn law_merging_keeps_every_write(writes: Seq<ModbusWrite>, k: int)
    requires
        within_masks(writes),
        merged(writes) is Ok,
        0 <= k < writes.len(),
    ensures
        one_per_register(merged(writes)->Ok_0),
        carries(merged(writes)->Ok_0, writes[k]),
{
    lemma_merged(writes);
    lemma_merged_carries(writes);
}

/// Whether the addresses of a run ascend by one.
pub open spec fn is_run(run: Seq<ModbusWrite>) -> bool {
    &&& run.len() > 0
    &&& forall|i: int|
        0 < i < run.len() ==> (#[trigger] run[i]).address == run[i - 1].address + 1
}

/// Grouping loses, adds and reorders nothing; each group is a run of ascending
/// addresses; and no group could take the first write of the next.
pub proof fn law_groups_are_the_longest_runs(writes: Seq<ModbusWrite>)
    ensures
        crate::detect::flat(runs_of(writes), |run: Seq<ModbusWrite>| run) == writes,
        forall|i: int| 0 <= i < runs_of(writes).len() ==> is_run(#[trigger] runs_of(writes)[i]),
        forall|i: int|
            0 < i < runs_of(writes).len() ==> runs_of(writes)[i - 1].last().address + 1 != (
            #[trigger] runs_of(writes)[i])[0].address,
    decreases writes.len(),
{
    let all = |run: Seq<ModbusWrite>| run;
    if writes.len() > 0 {
        let before = writes.drop_last();
        let w = writes.last();
        law_groups_are_the_longest_runs(before);
        let runs = runs_of(before);
        let new = runs_of(writes);
        assert(crate::detect::flat(runs, all) == before);
        if runs.len() > 0 && runs.last().len() > 0 && runs.last().last().address + 1 == w.address {
            let last = runs.last();
            assert(is_run(runs[runs.len() - 1]));
            assert(new.drop_last() == runs.drop_last());
            assert(new.last() == last.push(w));
            assert(crate::detect::flat(new, all) == crate::detect::flat(runs.drop_last(), all)
                + last.push(w));
            assert(crate::detect::flat(runs, all) == crate::detect::flat(runs.drop_last(), all)
                + last);
            assert(crate::detect::flat(new, all) == before.push(w));
            assert(is_run(last.push(w)));
            assert forall|i: int| 0 <= i < new.len() implies is_run(#[trigger] new[i]) by {
                if i < runs.len() - 1 {
                    assert(new[i] == runs[i]);
                }
            }
            assert forall|i: int| 0 < i < new.len() implies new[i - 1].last().address + 1 != (
            #[trigger] new[i])[0].address by {
                assert(new[i - 1] == runs[i - 1]);
                assert(is_run(runs[i]));
                assert(new[i][0] == runs[i][0]);
            }
        } else {
            assert(new.drop_last() == runs);
            assert(new.last() == seq![w]);
            assert(is_run(seq![w]));
            assert(crate::detect::flat(new, all) == before + seq![w]);
            assert forall|i: int| 0 <= i < new.len() implies is_run(#[trigger] new[i]) by {
                if i < runs.len() {
                    assert(new[i] == runs[i]);
                }
            }
            assert forall|i: int| 0 < i < new.len() implies new[i - 1].last().address + 1 != (
            #[trigger] new[i])[0].address by {
                assert(new[i - 1] == runs[i - 1]);
                assert(is_run(runs[i - 1]));
                if i < runs.len() {
                    assert(new[i] == runs[i]);
                }
            }
        }
        assert(before.push(w) == writes);
        assert(before + seq![w] == writes);
    } else {
        assert(runs_of(writes).len() == 0);
        assert(writes == Seq::<ModbusWrite>::empty());
    }
}

proof fn lemma_bytes_of_registers(registers: Seq<u16>, k: int)
    requires
        0 <= k < registers.len(),
    ensures
        crate::modbus_rtu_stream::big_endian_bytes(registers).len() == 2 * registers.len(),
        crate::modbus_rtu_stream::big_endian_bytes(registers)[2 * k] == registers[k] / 256,
        crate::modbus_rtu_stream::big_endian_bytes(registers)[2 * k + 1] == registers[k] % 256,
    decreases registers.len(),
{
    let before = registers.drop_last();
    lemma_bytes_length(before);
    if k < before.len() {
        lemma_bytes_of_registers(before, k);
        assert(before[k] == registers[k]);
    }
}

proof fn lemma_bytes_length(registers: Seq<u16>)
    ensures
        crate::modbus_rtu_stream::big_endian_bytes(registers).len() == 2 * registers.len(),
    decreases registers.len(),
{
    if registers.len() > 0 {
        lemma_bytes_length(registers.drop_last());
    }
}

proof fn lemma_words_spell(v: int, n: int)
    requires
        n >= 0,
        0 <= v < vstd::arithmetic::power2::pow2((16 * n) as nat),
    ensures
        crate::bits::big_endian_value(
            crate::modbus_rtu_stream::big_endian_bytes(low_words(v, n).reverse()),
        ) == v,
    decreases n,
{
    let words = low_words(v, n).reverse();
    let bytes = crate::modbus_rtu_stream::big_endian_bytes(words);
    lemma_low_words_length(v, n);
    vstd::arithmetic::power2::lemma2_to64();
    if n == 0 {
        assert(bytes.len() == 0);
    } else {
        vstd::arithmetic::power2::lemma_pow2_adds(16, (16 * (n - 1)) as nat);
        assert(16 + 16 * (n - 1) == 16 * n);
        lemma_low_words_length(v / 65536, n - 1);
        lemma_words_spell(v / 65536, n - 1);
        let w = (v % 65536) as u16;
        let rest = low_words(v / 65536, n - 1).reverse();
        assert(words == rest.push(w));
        assert(words.drop_last() == rest);
        let before = crate::modbus_rtu_stream::big_endian_bytes(rest);
        assert(bytes == before + seq![(w / 256) as u8, (w % 256) as u8]);
        assert(bytes.drop_last() == before.push((w / 256) as u8));
        assert(bytes.drop_last().drop_last() == before);
        assert(crate::bits::big_endian_value(bytes) == crate::bits::big_endian_value(
            bytes.drop_last(),
        ) * 256 + w % 256);
    }
}

/// The value of a field that fills whole registers, where the registers spell a
/// number high word first.
proof fn lemma_aligned_field(bytes: Seq<u8>, start: int, len: int, v: int)
    requires
        start >= 0,
        is_aligned(start, len),
        0 <= v < vstd::arithmetic::power2::pow2(len as nat),
        (start + len) / 8 <= bytes.len(),
        bytes.subrange(start / 8, (start + len) / 8)
            == crate::modbus_rtu_stream::big_endian_bytes(low_words(v, len / 16).reverse()),
    ensures
        crate::bits::unsigned_field(bytes, start, len, Endianness::Big) == v,
{
    crate::bits::lemma_whole_bytes(bytes, start / 8, (start + len) / 8);
    assert(16 * (len / 16) == len);
    lemma_words_spell(v, len / 16);
    assert(start / 8 * 8 == start && (start + len) / 8 * 8 == start + len);
}

/// What `masked` leaves of a number within a signal's range reads back as that
/// number.
proof fn lemma_masked_reads_back(bytes: Seq<u8>, start: int, len: int, raw: int, signed: bool)
    requires
        1 <= len <= 64,
        lowest(signed, len) <= raw <= highest(signed, len),
        crate::bits::unsigned_field(bytes, start, len, Endianness::Big) == crate::bits::masked(
            raw,
            len,
        ),
    ensures
        crate::bits::field_value(bytes, start, len, Endianness::Big, signed) == raw,
{
    let whole = vstd::arithmetic::power2::pow2(len as nat) as int;
    let half = vstd::arithmetic::power2::pow2((len - 1) as nat) as int;
    vstd::arithmetic::power2::lemma_pow2_unfold(len as nat);
    vstd::arithmetic::power2::lemma2_to64();
    crate::bits::lemma_pow2_below(len as nat, 64);
    vstd::arithmetic::power2::lemma_pow2_pos((len - 1) as nat);
    let n = crate::bits::masked(raw, len);
    if raw >= 0 {
        vstd::arithmetic::div_mod::lemma_small_mod(raw as nat, whole as nat);
        assert(n == raw);
    } else {
        vstd::arithmetic::div_mod::lemma_mod_add_multiples_vanish(raw, whole);
        vstd::arithmetic::div_mod::lemma_small_mod((raw + whole) as nat, whole as nat);
        assert(n == raw + whole);
    }
    assert(n < 0x1_0000_0000_0000_0000_0000_0000_0000_0000int);
    vstd::arithmetic::div_mod::lemma_small_mod(
        n as nat,
        0x1_0000_0000_0000_0000_0000_0000_0000_0000nat,
    );
}

/// Decoding gives back what encoding wrote: a block whose registers hold the
/// writes of an aligned signal, whatever its other registers hold, reads as the
/// raw value that was encoded, in either word order.
pub proof fn law_aligned_writes_read_back(
    meta: ModbusMeta,
    frame: ModbusFrameView,
    signal: ModbusSignalView,
    raw: int,
    block: Seq<u16>,
)
    requires
        frame.register_type.accepts_writes(),
        is_aligned(signal.start_bit as int, signal.bit_length as int),
        byte_order_of(meta, signal) == Endianness::Big,
        lowest(signal.signed, signal.bit_length as int) <= raw <= highest(
            signal.signed,
            signal.bit_length as int,
        ),
        signal.start_bit as int / 16 + signal.bit_length as int / 16 <= block.len(),
        encoded(meta, frame, signal, raw) matches Ok(writes) && forall|i: int|
            0 <= i < writes.len() ==> block[signal.start_bit as int / 16 + i] == (
            #[trigger] writes[i]).value,
    ensures
        raw_reading(meta, signal, block) == raw,
{
    let start = signal.start_bit as int;
    let len = signal.bit_length as int;
    let n = len / 16;
    let first = start / 16;
    let v = crate::bits::masked(raw, len);
    let writes = encoded(meta, frame, signal, raw)->Ok_0;
    let low = low_words(v, n);
    let high = low.reverse();
    let words = register_words(meta, signal, raw);
    let bytes = crate::modbus_rtu_stream::big_endian_bytes(block);
    let little = word_order_of(meta, signal) == Endianness::Little;
    lemma_masked_bounded(raw, len);
    lemma_low_words_length(v, n);
    lemma_bytes_length(block);
    lemma_bytes_length(high);
    assert(writes.len() == n);
    assert forall|i: int| 0 <= i < n implies #[trigger] block[first + i] == words[i] by {
        assert(writes[i].value == words[i]);
    }
    let swapped = crate::bits::is_swapped(Some(word_order_of(meta, signal)), len);
    let seen = if swapped {
        crate::bits::word_swapped(bytes, start, len)
    } else {
        bytes
    };
    let spelt = crate::modbus_rtu_stream::big_endian_bytes(high);
    let from = start / 8;
    assert(from == 2 * first && (start + len) / 8 == from + 2 * n);
    assert(seen.len() == bytes.len());
    let there = seen.subrange(from, from + 2 * n);
    assert forall|j: int| 0 <= j < 2 * n implies #[trigger] there[j] == spelt[j] by {
        let k = j / 2;
        lemma_bytes_of_registers(high, k);
        lemma_bytes_of_registers(block, first + k);
        assert(high[k] == low[n - 1 - k]);
        if swapped {
            let m = n - 1 - k;
            lemma_bytes_of_registers(block, first + m);
            assert(crate::bits::word_count(len) == n);
            let src = crate::bits::swap_source(from + j, from, n);
            assert(src == 2 * (first + m) + j % 2);
            assert(seen[from + j] == crate::bits::byte_or_zero(bytes, src));
            assert(block[first + m] == words[m]);
            assert(words == low);
        } else {
            assert(block[first + k] == words[k]);
            if little {
                assert(n == 1);
            }
            assert(seen[from + j] == bytes[2 * (first + k) + j % 2]);
        }
    }
    assert(there == spelt);
    lemma_aligned_field(seen, start, len, v);
    lemma_masked_reads_back(seen, start, len, raw, signal.signed);
}

proof fn lemma_bits_split(bytes: Seq<u8>, start: int, middle: int, end: int)
    requires
        0 <= start <= middle <= end <= bytes.len() * 8,
    ensures
        crate::bits::bits_value(bytes, start, end, Endianness::Big) == crate::bits::bits_value(
            bytes,
            start,
            middle,
            Endianness::Big,
        ) * vstd::arithmetic::power2::pow2((end - middle) as nat) + crate::bits::bits_value(
            bytes,
            middle,
            end,
            Endianness::Big,
        ),
    decreases end - middle,
{
    let big = Endianness::Big;
    if middle == end {
        vstd::arithmetic::power2::lemma2_to64();
    } else {
        lemma_bits_split(bytes, start, middle, end - 1);
        vstd::arithmetic::power2::lemma_pow2_unfold((end - middle) as nat);
        let high = crate::bits::bits_value(bytes, start, middle, big);
        let step = vstd::arithmetic::power2::pow2((end - 1 - middle) as nat) as int;
        assert(2 * (high * step) == high * (2 * step)) by (nonlinear_arith);
    }
}

/// The bits from `start` up to `end` of one register: the register's number,
/// without the bits below and above them.
proof fn lemma_field_of_register(block: Seq<u16>, start: int, end: int)
    requires
        0 <= start <= end,
        start / 16 * 16 + 16 >= end,
        start / 16 < block.len(),
    ensures
        crate::bits::bits_value(
            crate::modbus_rtu_stream::big_endian_bytes(block),
            start,
            end,
            Endianness::Big,
        ) == (block[start / 16] as int / vstd::arithmetic::power2::pow2(
            (start / 16 * 16 + 16 - end) as nat,
        ) as int) % (vstd::arithmetic::power2::pow2((end - start) as nat) as int),
{
    let big = Endianness::Big;
    let bytes = crate::modbus_rtu_stream::big_endian_bytes(block);
    let k = start / 16;
    let from = k * 16;
    let to = from + 16;
    let r = block[k] as int;
    lemma_bytes_of_registers(block, k);
    crate::bits::lemma_whole_bytes(bytes, 2 * k, 2 * k + 2);
    let two = bytes.subrange(2 * k, 2 * k + 2);
    assert(two.drop_last().drop_last().len() == 0);
    assert(two.drop_last().last() == bytes[2 * k]);
    assert(crate::bits::big_endian_value(two.drop_last().drop_last()) == 0);
    assert(crate::bits::big_endian_value(two.drop_last()) == bytes[2 * k]);
    assert(crate::bits::big_endian_value(two) == r);
    assert(crate::bits::bits_value(bytes, from, to, big) == r);
    lemma_bits_split(bytes, from, end, to);
    lemma_bits_split(bytes, from, start, end);
    crate::bits::lemma_bits_value_bounded(bytes, end, to, big);
    crate::bits::lemma_bits_value_bounded(bytes, start, end, big);
    let upper = crate::bits::bits_value(bytes, from, end, big);
    let below = crate::bits::bits_value(bytes, end, to, big);
    let low_step = vstd::arithmetic::power2::pow2((to - end) as nat) as int;
    let above = crate::bits::bits_value(bytes, from, start, big);
    let field = crate::bits::bits_value(bytes, start, end, big);
    let step = vstd::arithmetic::power2::pow2((end - start) as nat) as int;
    vstd::arithmetic::div_mod::lemma_fundamental_div_mod_converse(r, low_step, upper, below);
    vstd::arithmetic::div_mod::lemma_fundamental_div_mod_converse(upper, step, above, field);
}

/// The bits of a register under the mask of a field.
proof fn lemma_masked_register(r: u16, shift: int, len: int)
    requires
        0 <= shift,
        1 <= len < 16,
        shift + len <= 16,
    ensures
        ({
            let step = vstd::arithmetic::power2::pow2(shift as nat) as int;
            let span = vstd::arithmetic::power2::pow2(len as nat) as int;
            (r & (((span - 1) * step) as u16)) as int == (r as int / step) % span * step
        }),
{
    let step = vstd::arithmetic::power2::pow2(shift as nat) as int;
    let span = vstd::arithmetic::power2::pow2(len as nat) as int;
    let s = shift as u16;
    let l = len as u16;
    vstd::arithmetic::power2::lemma_pow2_pos(shift as nat);
    vstd::arithmetic::power2::lemma_pow2_pos(len as nat);
    vstd::arithmetic::power2::lemma_pow2_adds(len as nat, shift as nat);
    crate::bits::lemma_pow2_below((len + shift) as nat, 16);
    crate::bits::lemma_pow2_below(len as nat, 15);
    vstd::arithmetic::power2::lemma2_to64();
    assert((span - 1) * step < span * step) by (nonlinear_arith)
        requires
            step >= 1,
    ;
    assert(0 <= (span - 1) * step) by (nonlinear_arith)
        requires
            step >= 1,
            span >= 1,
    ;
    vstd::bits::lemma_u16_shl_is_mul(1, l);
    let low = ((1u16 << l) - 1) as u16;
    assert(low == span - 1);
    vstd::bits::lemma_u16_shl_is_mul(low, s);
    let mask = low << s;
    assert(mask == ((span - 1) * step) as u16);
    let f = (r >> s) & low;
    assert(r & (low << s) == ((r >> s) & low) << s) by (bit_vector);
    vstd::bits::lemma_u16_shr_is_div(r, s);
    vstd::bits::lemma_u16_low_bits_mask_is_mod((r >> s), len as nat);
    assert(low == vstd::bits::low_bits_mask(len as nat)) by {
        reveal(vstd::bits::low_bits_mask);
    }
    assert(f == (r as int / step) % span);
    assert(f * step <= (span - 1) * step) by (nonlinear_arith)
        requires
            f <= span - 1,
            step >= 1,
    ;
    vstd::bits::lemma_u16_shl_is_mul(f, s);
}

/// Decoding gives back what encoding wrote: a block in which the bits that the
/// write of a bit-field owns hold the write's value, whatever the other bits
/// hold, reads as the raw value that was encoded.
pub proof fn law_bit_field_writes_read_back(
    meta: ModbusMeta,
    frame: ModbusFrameView,
    signal: ModbusSignalView,
    raw: int,
    block: Seq<u16>,
)
    requires
        frame.register_type.accepts_writes(),
        is_bit_field(signal.start_bit as int, signal.bit_length as int),
        byte_order_of(meta, signal) == Endianness::Big,
        lowest(signal.signed, signal.bit_length as int) <= raw <= highest(
            signal.signed,
            signal.bit_length as int,
        ),
        signal.start_bit as int / 16 < block.len(),
        encoded(meta, frame, signal, raw) matches Ok(writes) && block[signal.start_bit as int / 16]
            & writes[0].mask == writes[0].value,
    ensures
        raw_reading(meta, signal, block) == raw,
{
    let start = signal.start_bit as int;
    let len = signal.bit_length as int;
    let shift = field_shift(start, len);
    let step = vstd::arithmetic::power2::pow2(shift as nat) as int;
    let span = vstd::arithmetic::power2::pow2(len as nat) as int;
    let v = crate::bits::masked(raw, len);
    let r = block[start / 16];
    let bytes = crate::modbus_rtu_stream::big_endian_bytes(block);
    assert(!is_aligned(start, len));
    lemma_masked_bounded(raw, len);
    lemma_masked_register(r, shift, len);
    lemma_field_of_register(block, start, start + len);
    lemma_bytes_length(block);
    assert(start / 16 * 16 + 16 - (start + len) == shift);
    let f = (r as int / step) % span;
    vstd::arithmetic::power2::lemma_pow2_pos(shift as nat);
    vstd::arithmetic::power2::lemma_pow2_pos(len as nat);
    vstd::arithmetic::power2::lemma_pow2_adds(len as nat, shift as nat);
    crate::bits::lemma_pow2_below((len + shift) as nat, 16);
    vstd::arithmetic::power2::lemma2_to64();
    assert(0 <= v * step < span * step) by (nonlinear_arith)
        requires
            0 <= v < span,
            step >= 1,
    ;
    assert(f * step == v * step);
    assert(f == v) by (nonlinear_arith)
        requires
            f * step == v * step,
            step >= 1,
    ;
    lemma_masked_reads_back(bytes, start, len, raw, signal.signed);
}

/// The writes that encoding gives set only bits that they own, and no two of
/// them go to one register unless the last register cuts their addresses off.
pub proof fn law_encoded_writes_stay_within_their_masks(
    meta: ModbusMeta,
    frame: ModbusFrameView,
    signal: ModbusSignalView,
    raw: int,
)
    requires
        encoded(meta, frame, signal, raw) is Ok,
    ensures
        within_masks(encoded(meta, frame, signal, raw)->Ok_0),
        crate::manifest::start_address(meta, frame) + crate::manifest::register_offset(
            signal.start_bit as int,
        ) + signal.bit_length as int / 16 <= 65535 ==> one_per_register(
            encoded(meta, frame, signal, raw)->Ok_0,
        ),
{
    let start = signal.start_bit as int;
    let len = signal.bit_length as int;
    let writes = encoded(meta, frame, signal, raw)->Ok_0;
    if is_aligned(start, len) {
        assert forall|i: int| 0 <= i < writes.len() implies (#[trigger] writes[i]).value
            & writes[i].mask == writes[i].value by {
            let v = writes[i].value;
            assert(v & 0xFFFF == v) by (bit_vector);
        }
        lemma_low_words_length(crate::bits::masked(raw, len), len / 16);
        assert(writes.len() == len / 16);
    } else {
        let shift = field_shift(start, len);
        let step = vstd::arithmetic::power2::pow2(shift as nat) as int;
        let span = vstd::arithmetic::power2::pow2(len as nat) as int;
        let v = crate::bits::masked(raw, len);
        lemma_masked_bounded(raw, len);
        vstd::arithmetic::power2::lemma_pow2_pos(shift as nat);
        vstd::arithmetic::power2::lemma_pow2_adds(len as nat, shift as nat);
        crate::bits::lemma_pow2_below((len + shift) as nat, 16);
        vstd::arithmetic::power2::lemma2_to64();
        assert(0 <= v * step < span * step) by (nonlinear_arith)
            requires
                0 <= v < span,
                step >= 1,
        ;
        let w = (v * step) as u16;
        lemma_masked_register(w, shift, len);
        assert(w as int == step * v + 0) by (nonlinear_arith)
            requires
                w as int == v * step,
        ;
        vstd::arithmetic::div_mod::lemma_fundamental_div_mod_converse(w as int, step, v, 0);
        vstd::arithmetic::div_mod::lemma_small_mod(v as nat, span as nat);
        assert(writes[0].value == w);
    }
}

/// A signal can be written if and only if its bank can and it fills one to four whole
/// registers or lies within one. Whole registers are written one by one, from the one it
/// starts in, all their bits; a part of a register is written once, its bits alone.
pub proof fn law_writes_go_where_the_signal_lies(
    meta: ModbusMeta,
    frame: ModbusFrameView,
    signal: ModbusSignalView,
    raw: int,
    i: int,
)
    ensures
        ({
            let start = signal.start_bit as int;
            let len = signal.bit_length as int;
            let whole = start % 16 == 0 && (len == 16 || len == 32 || len == 48 || len == 64);
            let part = 1 <= len < 16 && start / 16 == (start + len - 1) / 16;
            let writable = frame.register_type is Holding || frame.register_type is Coil;
            let base = crate::manifest::start_address(meta, frame);
            let r = encoded(meta, frame, signal, raw);
            &&& r is Ok <==> writable && (whole || part)
            &&& !writable ==> r == Err::<Seq<ModbusWrite>, EncodeFault>(
                EncodeFault::NotWritable(signal.name),
            )
            &&& r matches Ok(writes) ==> {
                &&& whole ==> writes.len() == len / 16
                &&& !whole ==> writes.len() == 1
                &&& whole && 0 <= i < writes.len() ==> writes[i].mask == 0xFFFF
                &&& 0 <= i < writes.len() && base + start / 16 + i <= 65535 && start < 16 * 65536
                    ==> writes[i].address == base + start / 16 + i
            }
        }),
{
    let len = signal.bit_length as int;
    lemma_low_words_length(crate::bits::masked(raw, len), len / 16);
}

/// A raw value is brought into the range of its signal: one within it stays, and others
/// become its nearest end, which for a signed signal of `n` bits are `-2^(n-1)` and
/// `2^(n-1) - 1`, and for an unsigned one 0 and `2^n - 1`.
pub proof fn law_values_are_brought_into_range(signed: bool, bit_length: int, n: int)
    requires
        has_range(signed, bit_length),
    ensures
        ({
            let r = clamped(n, lowest(signed, bit_length), highest(signed, bit_length));
            let half = vstd::arithmetic::power2::pow2((bit_length - 1) as nat) as int;
            &&& signed && -half <= n < half ==> r == n
            &&& signed && n < -half ==> r == -half
            &&& signed && n >= half ==> r == half - 1
            &&& !signed && 0 <= n < vstd::arithmetic::power2::pow2(bit_length as nat) ==> r == n
            &&& !signed && n < 0 ==> r == 0
            &&& !signed && n >= vstd::arithmetic::power2::pow2(bit_length as nat) ==> r
                == vstd::arithmetic::power2::pow2(bit_length as nat) - 1
        }),
{
    if bit_length > 0 {
        vstd::arithmetic::power2::lemma_pow2_pos((bit_length - 1) as nat);
    }
    vstd::arithmetic::power2::lemma_pow2_pos(bit_length as nat);
}

/// The value of a label is what the key of the first entry with that label spells.
pub proof fn law_labels_name_their_value(entries: Seq<(Seq<char>, Seq<char>)>, name: Seq<char>)
    ensures
        match value_labelled(entries, name) {
            Some(v) => exists|i: int|
                0 <= i < entries.len() && (#[trigger] entries[i]).1 == name && crate::text::integer(
                    entries[i].0,
                    10,
                ) == Some(v) && forall|j: int| 0 <= j < i ==> (#[trigger] entries[j]).1 != name,
            None => forall|i: int|
                0 <= i < entries.len() && (#[trigger] entries[i]).1 == name && (forall|j: int|
                    0 <= j < i ==> (#[trigger] entries[j]).1 != name) ==> crate::text::within(
                    crate::text::integer(entries[i].0, 10),
                    i128::MIN as int,
                    i128::MAX as int,
                ) is None,
        },
    decreases entries.len(),
{
    if entries.len() > 0 && entries[0].1 != name {
        let rest = entries.skip(1);
        law_labels_name_their_value(rest, name);
        assert(forall|i: int| 0 <= i < rest.len() ==> rest[i] == #[trigger] entries[i + 1]);
        match value_labelled(rest, name) {
            Some(v) => {
                let i = choose|i: int|
                    0 <= i < rest.len() && (#[trigger] rest[i]).1 == name && crate::text::integer(
                        rest[i].0,
                        10,
                    ) == Some(v) && forall|j: int| 0 <= j < i ==> (#[trigger] rest[j]).1 != name;
                assert(entries[i + 1] == rest[i]);
                assert forall|j: int| 0 <= j < i + 1 implies (#[trigger] entries[j]).1 != name by {
                    if j > 0 {
                        assert(rest[j - 1] == entries[j]);
                    }
                }
            },
            None => {
                assert forall|i: int|
                    0 <= i < entries.len() && (#[trigger] entries[i]).1 == name && (forall|j: int|
                        0 <= j < i ==> (#[trigger] entries[j]).1
                            != name) implies crate::text::within(
                    crate::text::integer(entries[i].0, 10),
                    i128::MIN as int,
                    i128::MAX as int,
                ) is None by {
                    assert(rest[i - 1] == entries[i]);
                    assert forall|j: int| 0 <= j < i - 1 implies (#[trigger] rest[j]).1 != name by {
                        assert(rest[j] == entries[j + 1]);
                    }
                }
            },
        }
    }
}

} // verus!
