//! Decode raw frame bytes into signal values against a [`Catalog`].
//!
//! This is the single decode implementation: [`crate::writes`]' `decode_frame`
//! shares its bit extraction.

use crate::bits::{
    decimal_of, decode_text, format_decimal, format_hex, format_unix_seconds, read_signal, scale,
    DecimalValue, MILLISECOND_THRESHOLD,
};
use crate::header::mask_to_byte_position;
use crate::model::{
    copy_text, CanConfig, Catalog, Endianness, Frame, HeaderField, Mux, MuxCase, Protocol,
    SerialConfig, Signal, SignalFormat,
};
use crate::mux::mux_case_matches;
use crate::text::{is_lowered, owned, push_decimal, push_hexadecimal, push_signed, str_eq};
use crate::value::decimal_at;
use vstd::prelude::*;

verus! {

/// A decoded signal value.
#[derive(Debug, Clone, PartialEq)]
pub struct Decoded {
    pub name: String,
    /// Raw integer value (pre-scale).
    pub value: i128,
    /// Scaled numeric value (`raw * factor + offset`), or the raw value for
    /// formats where scaling doesn't apply (enum/text).
    pub scaled: DecimalValue,
    /// Human display string (hex digits, enum label, decoded text, timestamp,
    /// or the scaled number).
    pub display: String,
    pub unit: Option<String>,
    /// For a signal from a mux case, the selector value of its mux (so consumers
    /// can track each mux case's signals separately). `None` for plain signals.
    pub mux_value: Option<i64>,
    /// The signal's declared format (enum/hex/ascii/…), carried through for the
    /// UI's per-format rendering. `None` for a plain numeric signal.
    pub format: Option<SignalFormat>,
}

/// A decoded signal value, as a mathematical value: the scaled value as mantissa
/// and scale.
#[verifier::ext_equal]
pub struct DecodedView {
    pub name: Seq<char>,
    pub value: int,
    pub scaled: (int, int),
    pub display: Seq<char>,
    pub unit: Option<Seq<char>>,
    pub mux_value: Option<i64>,
    pub format: Option<SignalFormat>,
}

impl View for Decoded {
    type V = DecodedView;

    open spec fn view(&self) -> DecodedView {
        DecodedView {
            name: self.name@,
            value: self.value as int,
            scaled: (self.scaled.mantissa as int, self.scaled.scale as int),
            display: self.display@,
            unit: crate::model::opt_text(self.unit),
            mux_value: self.mux_value,
            format: self.format,
        }
    }
}

/// What each of a list of decoded signals is.
pub open spec fn decoded_views(list: Seq<Decoded>) -> Seq<DecodedView> {
    list.map_values(|d: Decoded| d@)
}

/// A mux selector reading + the case it matched.
#[derive(Debug, Clone, PartialEq)]
pub struct MuxSelector {
    pub name: Option<String>,
    pub value: i64,
    pub matched_case: Option<String>,
    pub start_bit: u32,
    pub bit_length: u32,
}

/// A mux selector reading, as a mathematical value.
#[verifier::ext_equal]
pub struct SelectorView {
    pub name: Option<Seq<char>>,
    pub value: i64,
    pub matched_case: Option<Seq<char>>,
    pub start_bit: u32,
    pub bit_length: u32,
}

impl View for MuxSelector {
    type V = SelectorView;

    open spec fn view(&self) -> SelectorView {
        SelectorView {
            name: crate::model::opt_text(self.name),
            value: self.value,
            matched_case: crate::model::opt_text(self.matched_case),
            start_bit: self.start_bit,
            bit_length: self.bit_length,
        }
    }
}

/// What each of a list of selector readings is.
pub open spec fn selector_views(list: Seq<MuxSelector>) -> Seq<SelectorView> {
    list.map_values(|s: MuxSelector| s@)
}

/// A header field extracted from the CAN id (mask + shift) or serial header
/// bytes (mask → byte range).
#[derive(Debug, Clone, PartialEq)]
pub struct HeaderFieldValue {
    pub name: String,
    pub value: u64,
    pub display: String,
    /// `hex` or `decimal`.
    pub format: String,
}

/// An extracted header field, as a mathematical value.
#[verifier::ext_equal]
pub struct HeaderValueView {
    pub name: Seq<char>,
    pub value: u64,
    pub display: Seq<char>,
    pub format: Seq<char>,
}

impl View for HeaderFieldValue {
    type V = HeaderValueView;

    open spec fn view(&self) -> HeaderValueView {
        HeaderValueView {
            name: self.name@,
            value: self.value,
            display: self.display@,
            format: self.format@,
        }
    }
}

/// What each of a list of extracted header fields is.
pub open spec fn header_value_views(list: Seq<HeaderFieldValue>) -> Seq<HeaderValueView> {
    list.map_values(|h: HeaderFieldValue| h@)
}

/// The full decode of one frame: its signals, mux selector readings, and the
/// header fields extracted from the id/header bytes.
#[derive(Debug, Clone, PartialEq)]
pub struct FrameDecode {
    pub signals: Vec<Decoded>,
    pub selectors: Vec<MuxSelector>,
    pub header_fields: Vec<HeaderFieldValue>,
    /// Source address resolved from a CAN header field (source_address / sender
    /// / source / src / sa), when present.
    pub source_address: Option<u64>,
}

/// The decode of one frame, as a mathematical value.
#[verifier::ext_equal]
pub struct FrameDecodeView {
    pub signals: Seq<DecodedView>,
    pub selectors: Seq<SelectorView>,
    pub header_fields: Seq<HeaderValueView>,
    pub source_address: Option<u64>,
}

impl View for FrameDecode {
    type V = FrameDecodeView;

    open spec fn view(&self) -> FrameDecodeView {
        FrameDecodeView {
            signals: decoded_views(self.signals@),
            selectors: selector_views(self.selectors@),
            header_fields: header_value_views(self.header_fields@),
            source_address: self.source_address,
        }
    }
}

// ---------------------------------------------------------------------------
// Single signals
// ---------------------------------------------------------------------------

/// An integer, brought into the range of an `i64`.
pub open spec fn saturated(n: int) -> int {
    if n < i64::MIN {
        i64::MIN as int
    } else if n > i64::MAX {
        i64::MAX as int
    } else {
        n
    }
}

fn saturate(n: i128) -> (r: i64)
    ensures
        r == saturated(n as int),
{
    if n < -0x8000_0000_0000_0000 {
        -0x8000_0000_0000_0000
    } else if n > 0x7FFF_FFFF_FFFF_FFFF {
        0x7FFF_FFFF_FFFF_FFFF
    } else {
        n as i64
    }
}

/// A quotient, rounded towards zero.
pub open spec fn truncated(m: int, p: int) -> int {
    if m >= 0 {
        m / p
    } else {
        -((-m) / p)
    }
}

/// The second a decimal timestamp of seconds or milliseconds falls in.
pub open spec fn decimal_seconds(m: int, s: int) -> int {
    let whole = truncated(m, crate::bits::pow10(s));
    saturated(
        if m > MILLISECOND_THRESHOLD * crate::bits::pow10(s) {
            whole / 1000
        } else {
            whole
        },
    )
}

/// A second as `YYYY-MM-DD HH:MM:SS` (UTC).
pub open spec fn second_text(secs: int) -> Seq<char> {
    let t = choose|t: crate::bits::CivilTime| t.is_real() && t.unix() == secs;
    t.text()
}

fn power_of_ten(e: u32) -> (r: i128)
    requires
        e <= 28,
    ensures
        r == crate::bits::pow10(e as int),
        1 <= r <= 10_000_000_000_000_000_000_000_000_000,
{
    let mut r: i128 = 1;
    proof {
        reveal_with_fuel(crate::bits::pow10, 30);
        assert(crate::bits::pow10(28) == 10_000_000_000_000_000_000_000_000_000);
    }
    for i in 0..e
        invariant
            e <= 28,
            r == crate::bits::pow10(i as int),
            1 <= r,
            crate::bits::pow10(28) == 10_000_000_000_000_000_000_000_000_000,
    {
        proof {
            lemma_pow10_grows(i + 1, 28);
        }
        r = r * 10;
    }
    proof {
        lemma_pow10_grows(e as int, 28);
    }
    r
}

proof fn lemma_pow10_grows(a: int, b: int)
    requires
        0 <= a <= b,
    ensures
        1 <= crate::bits::pow10(a) <= crate::bits::pow10(b),
    decreases b,
{
    if a < b {
        lemma_pow10_grows(a, b - 1);
    } else if a > 0 {
        lemma_pow10_grows(a - 1, b - 1);
    }
}

fn format_decimal_time(d: DecimalValue) -> (r: String)
    requires
        d.wf(),
    ensures
        r@ == second_text(decimal_seconds(d.mantissa as int, d.scale as int)),
{
    let p: i128 = power_of_ten(d.scale);
    let m: i128 = d.mantissa;
    let negative: bool = m < 0;
    let size: i128 = if negative {
        -m
    } else {
        m
    };
    let quotient: i128 = size / p;
    let whole: i128 = if negative {
        -quotient
    } else {
        quotient
    };
    // > year ~3000 in seconds ⇒ treat as milliseconds.
    let threshold: i128 = MILLISECOND_THRESHOLD as i128;
    let late: bool = !negative && (quotient > threshold || (quotient == threshold && size % p > 0));
    proof {
        let t = threshold as int;
        let q = quotient as int;
        let pp = p as int;
        vstd::arithmetic::div_mod::lemma_fundamental_div_mod(size as int, pp);
        assert(size == pp * q + size as int % pp);
        if late {
            assert(m > t * pp) by (nonlinear_arith)
                requires
                    m as int == pp * q + size as int % pp,
                    0 <= size as int % pp < pp,
                    q > t || (q == t && size as int % pp > 0),
            ;
        } else if !negative {
            assert(m <= t * pp) by (nonlinear_arith)
                requires
                    m as int == pp * q + size as int % pp,
                    0 <= size as int % pp < pp,
                    q < t || (q == t && size as int % pp == 0),
            ;
        } else {
            assert(t * pp >= 0) by (nonlinear_arith)
                requires
                    t >= 0,
                    pp >= 0,
            ;
        }
    }
    let secs: i64 = saturate(
        if late {
            whole / 1000
        } else {
            whole
        },
    );
    assert(secs == decimal_seconds(m as int, d.scale as int));
    let text = format_unix_seconds(secs);
    proof {
        let a = choose|t: crate::bits::CivilTime|
            t.is_real() && t.unix() == secs && text@ == #[trigger] t.text();
        let b = choose|t: crate::bits::CivilTime| t.is_real() && t.unix() == secs as int;
        crate::bits::law_civil_times_are_unique(a, b);
    }
    text
}

/// What an enum signal displays: the label of its value, or that it is unknown.
pub open spec fn enum_text(map: Option<Seq<(i64, Seq<char>)>>, value: int) -> Seq<char> {
    let label = match map {
        Some(map) => crate::value::label_of(map, value),
        None => None,
    };
    match label {
        Some(label) => label,
        None => "Unknown ("@ + crate::text::signed_decimal(value) + ")"@,
    }
}

fn format_enum(map: &Option<Vec<(i64, String)>>, value: i64) -> (r: String)
    ensures
        r@ == enum_text(crate::model::opt_labels(*map), value as int),
{
    if let Some(list) = map {
        let ghost all = crate::model::labels(list@);
        assert(all.skip(0) == all);
        for i in 0..list.len()
            invariant
                all == crate::model::labels(list@),
                crate::model::opt_labels(*map) == Some(all),
                crate::value::label_of(all, value as int) == crate::value::label_of(
                    all.skip(i as int),
                    value as int,
                ),
        {
            assert(all.skip(i as int)[0] == all[i as int]);
            assert(all.skip(i as int).skip(1) == all.skip(i + 1));
            if list[i].0 == value {
                return owned(list[i].1.as_str());
            }
        }
        assert(all.skip(all.len() as int).len() == 0);
    }
    let mut out = owned("Unknown (");
    push_signed(&mut out, value as i128);
    crate::text::push_text(&mut out, ")");
    out
}

/// The text a signal displays where its format is text.
pub open spec fn shown_text(text: Seq<char>) -> Seq<char> {
    if text.len() == 0 {
        "(empty)"@
    } else {
        text
    }
}

/// The length of a signal, zero where it has none.
pub open spec fn length_of(sig: crate::model::SignalView) -> u32 {
    crate::model::or_else(sig.bit_length, 0)
}

/// The byte order of a signal.
pub open spec fn order_in(sig: crate::model::SignalView, default: Endianness) -> Endianness {
    crate::model::or_else(sig.endianness, default)
}

/// The raw value of a signal.
pub open spec fn raw_of(
    bytes: Seq<u8>,
    sig: crate::model::SignalView,
    endian: Endianness,
    word_order: Option<Endianness>,
) -> int {
    crate::bits::signal_value(
        bytes,
        crate::model::or_else(sig.start_bit, 0) as int,
        length_of(sig) as int,
        order_in(sig, endian),
        crate::header::first_of(sig.word_order, word_order),
        crate::model::or_else(sig.signed, false),
    )
}

/// What a signal displays, from its raw and its scaled value.
pub open spec fn display_of(
    bytes: Seq<u8>,
    sig: crate::model::SignalView,
    endian: Endianness,
    raw: int,
    scaled: (int, int),
) -> Seq<char> {
    match sig.format {
        Some(SignalFormat::Hex) => crate::bits::hex_text(
            raw,
            length_of(sig) as int,
            order_in(sig, endian),
        ),
        Some(SignalFormat::Enum) => enum_text(sig.enum_map, saturated(raw)),
        Some(SignalFormat::Utf8) | Some(SignalFormat::Ascii) => shown_text(
            crate::bits::byte_text(
                bytes,
                crate::model::or_else(sig.start_bit, 0) as int / 8,
                (length_of(sig) + 7) / 8,
            ),
        ),
        Some(SignalFormat::UnixTime) => second_text(decimal_seconds(scaled.0, scaled.1)),
        Some(SignalFormat::Other) | None => {
            let s = crate::bits::stripped(scaled.0, scaled.1);
            crate::bits::decimal_text(s.0, s.1)
        },
    }
}

/// Whether a format shows the raw value rather than the scaled one.
pub open spec fn shows_raw(format: Option<SignalFormat>) -> bool {
    format == Some(SignalFormat::Enum) || format == Some(SignalFormat::Utf8) || format == Some(
        SignalFormat::Ascii,
    )
}

/// Whether a format carries no unit.
pub open spec fn drops_unit(format: Option<SignalFormat>) -> bool {
    shows_raw(format) || format == Some(SignalFormat::UnixTime)
}

/// The raw value as a decimal.
pub open spec fn raw_decimal(raw: int) -> (int, int) {
    (crate::bits::whole_decimal(raw).mantissa as int, crate::bits::whole_decimal(raw).scale as int)
}

/// A decoded signal; `None` where its scaled value is out of the decimal range.
pub open spec fn decoded_signal(
    bytes: Seq<u8>,
    sig: crate::model::SignalView,
    fallback_name: Seq<char>,
    endian: Endianness,
    word_order: Option<Endianness>,
) -> Option<DecodedView> {
    let raw = raw_of(bytes, sig, endian, word_order);
    match crate::bits::scaled(
        crate::bits::whole_decimal(raw),
        crate::value::opt_decimal(sig.factor),
        crate::value::opt_decimal(sig.offset),
    ) {
        Some(scaled) => Some(
            DecodedView {
                name: crate::model::or_else(sig.name, fallback_name),
                value: raw,
                scaled: if shows_raw(sig.format) {
                    raw_decimal(raw)
                } else {
                    scaled
                },
                display: display_of(bytes, sig, endian, raw, scaled),
                unit: if drops_unit(sig.format) {
                    None
                } else {
                    sig.unit
                },
                mux_value: None,
                format: sig.format,
            },
        ),
        None => None,
    }
}

/// Whether a signal's raw value can be computed: a signed one has at most 128
/// bits.
pub open spec fn readable(sig: crate::model::SignalView) -> bool {
    sig.signed == Some(true) ==> length_of(sig) <= 128
}

/// Decode one signal from `bytes`. `default_endianness` applies when the signal
/// has no `byte_order`; `default_word_order` likewise (the meta word order, so
/// Modbus multi-register values word-swap without per-signal config). `None`
/// where the scaled value is out of the decimal range.
pub fn decode_signal(
    bytes: &[u8],
    sig: &Signal,
    fallback_name: &str,
    default_endianness: Endianness,
    default_word_order: Option<Endianness>,
) -> (r: Option<Decoded>)
    requires
        readable(sig@),
    ensures
        match r {
            Some(d) => decoded_signal(
                bytes@,
                sig@,
                fallback_name@,
                default_endianness,
                default_word_order,
            ) == Some(d@),
            None => decoded_signal(
                bytes@,
                sig@,
                fallback_name@,
                default_endianness,
                default_word_order,
            ) is None,
        },
{
    let name: String = match &sig.name {
        Some(name) => owned(name.as_str()),
        None => owned(fallback_name),
    };
    let start: u32 = match sig.start_bit {
        Some(n) => n,
        None => 0,
    };
    let len: u32 = match sig.bit_length {
        Some(n) => n,
        None => 0,
    };
    let endianness: Endianness = match sig.endianness {
        Some(e) => e,
        None => default_endianness,
    };
    let word_order: Option<Endianness> = match sig.word_order {
        Some(e) => Some(e),
        None => default_word_order,
    };
    let signed: bool = match sig.signed {
        Some(b) => b,
        None => false,
    };
    // Word-swap for multi-register (>16-bit) little-word-order values.
    let raw: i128 = read_signal(bytes, start, len, endianness, word_order, signed);
    // Scale in exact decimal so the display string carries no binary-float
    // artifacts.
    let plain: DecimalValue = decimal_of(raw);
    let scaled: DecimalValue = match scale(plain, decimal_at(sig.factor), decimal_at(sig.offset)) {
        Some(scaled) => scaled,
        None => {
            return None;
        },
    };
    // Per-format display + the scaled/unit that actually apply (enum/text don't
    // scale and carry no unit).
    let unit = copy_text(&sig.unit);
    let (display, value, shown_unit): (String, DecimalValue, Option<String>) = match sig.format {
        Some(SignalFormat::Hex) => (format_hex(raw, len, endianness), scaled, unit),
        Some(SignalFormat::Enum) => (format_enum(&sig.enum_map, saturate(raw)), plain, None),
        Some(SignalFormat::Utf8) | Some(SignalFormat::Ascii) => {
            let text = decode_text(bytes, start, len);
            let shown: String = if crate::text::chars_of(text.as_str()).len() == 0 {
                owned("(empty)")
            } else {
                text
            };
            (shown, plain, None)
        },
        Some(SignalFormat::UnixTime) => (format_decimal_time(scaled), scaled, None),
        Some(SignalFormat::Other) | None => (format_decimal(scaled), scaled, unit),
    };
    Some(
        Decoded {
            name,
            value: raw,
            scaled: value,
            display,
            unit: shown_unit,
            mux_value: None,
            format: sig.format,
        },
    )
}

// ---------------------------------------------------------------------------
// Frames
// ---------------------------------------------------------------------------

/// The decodes of a list of signals, in their order, tagged with a selector
/// value; `None` where one is out of range. A signal without a name gets one from
/// its place.
pub open spec fn decoded_list(
    bytes: Seq<u8>,
    signals: Seq<crate::model::SignalView>,
    prefix: Seq<char>,
    endian: Endianness,
    word_order: Option<Endianness>,
    mux_value: Option<i64>,
) -> Option<Seq<DecodedView>>
    decreases signals.len(),
{
    if signals.len() == 0 {
        Some(Seq::empty())
    } else {
        match decoded_list(bytes, signals.drop_last(), prefix, endian, word_order, mux_value) {
            Some(before) => match decoded_signal(
                bytes,
                signals.last(),
                prefix + crate::text::decimal(signals.len()),
                endian,
                word_order,
            ) {
                Some(d) => Some(before.push(DecodedView { mux_value, ..d })),
                None => None,
            },
            None => None,
        }
    }
}

/// Whether the raw value of each signal can be computed.
pub open spec fn all_readable(signals: Seq<crate::model::SignalView>) -> bool {
    forall|i: int| 0 <= i < signals.len() ==> readable(#[trigger] signals[i])
}

proof fn lemma_decoded_none_stays(
    bytes: Seq<u8>,
    signals: Seq<crate::model::SignalView>,
    prefix: Seq<char>,
    endian: Endianness,
    word_order: Option<Endianness>,
    mux_value: Option<i64>,
    n: int,
)
    requires
        0 <= n <= signals.len(),
        decoded_list(bytes, signals.take(n), prefix, endian, word_order, mux_value) is None,
    ensures
        decoded_list(bytes, signals, prefix, endian, word_order, mux_value) is None,
    decreases signals.len() - n,
{
    if n < signals.len() {
        assert(signals.take(n + 1).drop_last() == signals.take(n));
        lemma_decoded_none_stays(bytes, signals, prefix, endian, word_order, mux_value, n + 1);
    } else {
        assert(signals.take(n) == signals);
    }
}

fn push_signals(
    out: &mut Vec<Decoded>,
    bytes: &[u8],
    signals: &Vec<Signal>,
    prefix: &str,
    endian: Endianness,
    word_order: Option<Endianness>,
    mux_value: Option<i64>,
) -> (r: bool)
    requires
        all_readable(crate::model::signal_views(signals@)),
    ensures
        ({
            let list = decoded_list(
                bytes@,
                crate::model::signal_views(signals@),
                prefix@,
                endian,
                word_order,
                mux_value,
            );
            if r {
                list is Some && decoded_views(final(out)@) == decoded_views(old(out)@)
                    + list->Some_0
            } else {
                list is None
            }
        }),
{
    let ghost start = decoded_views(out@);
    let ghost all = crate::model::signal_views(signals@);
    assert(start + Seq::<DecodedView>::empty() == start);
    for i in 0..signals.len()
        invariant
            all == crate::model::signal_views(signals@),
            all_readable(all),
            decoded_list(bytes@, all.take(i as int), prefix@, endian, word_order, mux_value) is Some,
            decoded_views(out@) == start + decoded_list(
                bytes@,
                all.take(i as int),
                prefix@,
                endian,
                word_order,
                mux_value,
            )->Some_0,
    {
        let ghost before = decoded_views(out@);
        let ghost listed = decoded_list(
            bytes@,
            all.take(i as int),
            prefix@,
            endian,
            word_order,
            mux_value,
        )->Some_0;
        assert(all.take(i + 1).drop_last() == all.take(i as int));
        assert(all.take(i + 1).last() == signals@[i as int]@);
        assert(readable(all[i as int]));
        let mut name = owned(prefix);
        push_decimal(&mut name, i as u128 + 1);
        match decode_signal(bytes, &signals[i], name.as_str(), endian, word_order) {
            Some(d) => {
                // Tag with the mux's selector value so consumers can track each
                // mux case's signals separately.
                let mut tagged = d;
                tagged.mux_value = mux_value;
                let ghost view = tagged@;
                out.push(tagged);
                assert(decoded_views(out@) == before.push(view));
                assert(before.push(view) == start + listed.push(view));
            },
            None => {
                proof {
                    lemma_decoded_none_stays(
                        bytes@,
                        all,
                        prefix@,
                        endian,
                        word_order,
                        mux_value,
                        i + 1,
                    );
                }
                return false;
            },
        }
    }
    assert(all.take(all.len() as int) == all);
    true
}

/// The keys of a multiplexer's cases.
pub open spec fn case_keys(mux: crate::model::MuxView) -> Seq<Seq<char>> {
    mux.cases.map_values(|c: (Seq<char>, crate::model::MuxCaseView)| c.0)
}

/// The value of a multiplexer's selector.
pub open spec fn selector_value(bytes: Seq<u8>, mux: crate::model::MuxView, endian: Endianness) -> int {
    saturated(
        crate::bits::field_value(
            bytes,
            mux.start_bit as int,
            mux.bit_length as int,
            endian,
            false,
        ),
    )
}

/// The first place of a key among others.
pub open spec fn place_of(keys: Seq<Seq<char>>, key: Seq<char>) -> Option<int>
    decreases keys.len(),
{
    if keys.len() == 0 {
        None
    } else {
        match place_of(keys.drop_last(), key) {
            Some(i) => Some(i),
            None => if keys.last() == key {
                Some(keys.len() - 1)
            } else {
                None
            },
        }
    }
}

/// The place of the case that applies for a selector: the first that it matches, or
/// the default case.
pub open spec fn case_for(selector: int, mux: crate::model::MuxView) -> Option<int> {
    match crate::mux::matching_case(selector, case_keys(mux)) {
        Some(i) => Some(i),
        None => match mux.default {
            Some(key) => place_of(case_keys(mux), key),
            None => None,
        },
    }
}

/// The place of the case that a multiplexer's selector selects.
pub open spec fn selected(bytes: Seq<u8>, mux: crate::model::MuxView, endian: Endianness) -> Option<
    int,
> {
    case_for(selector_value(bytes, mux, endian), mux)
}

/// The reading of a multiplexer's selector.
pub open spec fn selector_reading(
    bytes: Seq<u8>,
    mux: crate::model::MuxView,
    endian: Endianness,
) -> SelectorView {
    SelectorView {
        name: mux.name,
        value: selector_value(bytes, mux, endian) as i64,
        matched_case: match selected(bytes, mux, endian) {
            Some(i) => Some(mux.cases[i].0),
            None => None,
        },
        start_bit: mux.start_bit,
        bit_length: mux.bit_length,
    }
}

/// A match is one of the keys.
pub proof fn lemma_match_in_range(selector: int, keys: Seq<Seq<char>>)
    ensures
        crate::mux::matching_case(selector, keys) matches Some(i) ==> 0 <= i < keys.len(),
    decreases keys.len(),
{
    if keys.len() > 0 {
        lemma_match_in_range(selector, keys.drop_last());
    }
}

/// The first place of a key is one of the keys, and holds it.
pub proof fn lemma_place_in_range(keys: Seq<Seq<char>>, key: Seq<char>)
    ensures
        match place_of(keys, key) {
            Some(i) => 0 <= i < keys.len() && keys[i] == key,
            None => !keys.contains(key),
        },
    decreases keys.len(),
{
    if keys.len() > 0 {
        lemma_place_in_range(keys.drop_last(), key);
        if keys.contains(key) {
            let i = choose|i: int| 0 <= i < keys.len() && keys[i] == key;
            if i < keys.len() - 1 {
                assert(keys.drop_last()[i] == key);
            }
        }
    }
}

/// A case that applies is one of the cases.
pub proof fn lemma_case_in_range(selector: int, mux: crate::model::MuxView)
    ensures
        case_for(selector, mux) matches Some(i) ==> 0 <= i < mux.cases.len(),
{
    lemma_match_in_range(selector, case_keys(mux));
    if let Some(key) = mux.default {
        lemma_place_in_range(case_keys(mux), key);
    }
}

/// What a multiplexer adds to a frame's decode: the signals of the case its
/// selector selects, with those of the multiplexer nested in it, and the selector
/// readings from the outer to the inner. `None` where a signal is out of range.
pub open spec fn mux_decode(
    bytes: Seq<u8>,
    mux: crate::model::MuxView,
    endian: Endianness,
    word_order: Option<Endianness>,
) -> Option<(Seq<DecodedView>, Seq<SelectorView>)>
    decreases mux,
{
    let own = seq![selector_reading(bytes, mux, endian)];
    match selected(bytes, mux, endian) {
        Some(i) => {
            proof {
                lemma_case_in_range(selector_value(bytes, mux, endian), mux);
                assert(decreases_to!(mux => mux.cases));
                assert(decreases_to!(mux.cases => mux.cases[i]));
                assert(decreases_to!(mux.cases[i] => mux.cases[i].1));
            }
            match case_decode(
                bytes,
                mux.cases[i].1,
                endian,
                word_order,
                selector_value(bytes, mux, endian) as i64,
            ) {
                Some((signals, selectors)) => Some((signals, own + selectors)),
                None => None,
            }
        },
        None => Some((Seq::empty(), own)),
    }
}

/// What a case of a multiplexer adds to a frame's decode.
pub open spec fn case_decode(
    bytes: Seq<u8>,
    case: crate::model::MuxCaseView,
    endian: Endianness,
    word_order: Option<Endianness>,
    selector: i64,
) -> Option<(Seq<DecodedView>, Seq<SelectorView>)>
    decreases case,
{
    match decoded_list(
        bytes,
        case.signals,
        "Mux Signal "@,
        endian,
        word_order,
        Some(selector),
    ) {
        Some(signals) => match case.mux {
            Some(nested) => match mux_decode(bytes, *nested, endian, word_order) {
                Some((more, selectors)) => Some((signals + more, selectors)),
                None => None,
            },
            None => Some((signals, Seq::empty())),
        },
        None => None,
    }
}

/// Whether the raw value of each signal that a multiplexer selects can be
/// computed.
pub open spec fn mux_readable(
    bytes: Seq<u8>,
    mux: crate::model::MuxView,
    endian: Endianness,
) -> bool
    decreases mux,
{
    match selected(bytes, mux, endian) {
        Some(i) => {
            proof {
                lemma_case_in_range(selector_value(bytes, mux, endian), mux);
                assert(decreases_to!(mux => mux.cases));
                assert(decreases_to!(mux.cases => mux.cases[i]));
                assert(decreases_to!(mux.cases[i] => mux.cases[i].1));
            }
            case_readable(bytes, mux.cases[i].1, endian)
        },
        None => true,
    }
}

/// Whether the raw value of each signal that a case adds can be computed.
pub open spec fn case_readable(
    bytes: Seq<u8>,
    case: crate::model::MuxCaseView,
    endian: Endianness,
) -> bool
    decreases case,
{
    all_readable(case.signals) && match case.mux {
        Some(nested) => mux_readable(bytes, *nested, endian),
        None => true,
    }
}

/// The place of the case that applies for a selector.
fn find_case(mux: &Mux, selector: i64) -> (r: Option<usize>)
    ensures
        match r {
            Some(at) => at < mux.cases@.len() && case_for(selector as int, mux.model()) == Some(
                at as int,
            ),
            None => case_for(selector as int, mux.model()) is None,
        },
{
    let ghost keys = case_keys(mux.model());
    for at in 0..mux.cases.len()
        invariant
            keys == case_keys(mux.model()),
            keys.len() == mux.cases@.len(),
            crate::mux::matching_case(selector as int, keys.take(at as int)) is None,
    {
        assert(keys.take(at + 1).drop_last() == keys.take(at as int));
        assert(keys.take(at + 1).last() == mux.cases@[at as int].0@);
        if mux_case_matches(selector, mux.cases[at].0.as_str()) {
            proof {
                crate::mux::lemma_match_stays(selector as int, keys, at + 1);
            }
            return Some(at);
        }
    }
    assert(keys.take(keys.len() as int) == keys);
    match &mux.default {
        Some(key) => find_key(mux, key.as_str()),
        None => None,
    }
}

fn find_key(mux: &Mux, key: &str) -> (r: Option<usize>)
    ensures
        match r {
            Some(at) => at < mux.cases@.len() && place_of(case_keys(mux.model()), key@) == Some(
                at as int,
            ),
            None => place_of(case_keys(mux.model()), key@) is None,
        },
{
    let ghost keys = case_keys(mux.model());
    for at in 0..mux.cases.len()
        invariant
            keys == case_keys(mux.model()),
            keys.len() == mux.cases@.len(),
            place_of(keys.take(at as int), key@) is None,
    {
        assert(keys.take(at + 1).drop_last() == keys.take(at as int));
        assert(keys.take(at + 1).last() == mux.cases@[at as int].0@);
        if str_eq(mux.cases[at].0.as_str(), key) {
            proof {
                lemma_place_stays(keys, key@, at + 1);
            }
            return Some(at);
        }
    }
    assert(keys.take(keys.len() as int) == keys);
    None
}

proof fn lemma_place_stays(keys: Seq<Seq<char>>, key: Seq<char>, n: int)
    requires
        0 <= n <= keys.len(),
        place_of(keys.take(n), key) is Some,
    ensures
        place_of(keys, key) == place_of(keys.take(n), key),
    decreases keys.len(),
{
    if n < keys.len() {
        assert(keys.drop_last().take(n) == keys.take(n));
        lemma_place_stays(keys.drop_last(), key, n);
    } else {
        assert(keys.take(n) == keys);
    }
}

fn decode_case(
    bytes: &[u8],
    case: &MuxCase,
    endian: Endianness,
    word_order: Option<Endianness>,
    selector: i64,
    signals: &mut Vec<Decoded>,
    selectors: &mut Vec<MuxSelector>,
) -> (r: bool)
    requires
        case_readable(bytes@, case.model(), endian),
    ensures
        ({
            let added = case_decode(bytes@, case.model(), endian, word_order, selector);
            if r {
                added is Some && decoded_views(final(signals)@) == decoded_views(old(signals)@)
                    + added->Some_0.0 && selector_views(final(selectors)@) == selector_views(
                    old(selectors)@,
                ) + added->Some_0.1
            } else {
                added is None
            }
        }),
    decreases case.model(),
{
    let ghost before = decoded_views(signals@);
    let ghost read = selector_views(selectors@);
    assert(read + Seq::<SelectorView>::empty() == read);
    if !push_signals(
        signals,
        bytes,
        &case.signals,
        "Mux Signal ",
        endian,
        word_order,
        Some(selector),
    ) {
        return false;
    }
    let ghost own = decoded_list(
        bytes@,
        case.model().signals,
        "Mux Signal "@,
        endian,
        word_order,
        Some(selector),
    )->Some_0;
    match &case.mux {
        Some(nested) => {
            assert(case.model().mux == Some(Box::new(nested.model())));
            if !decode_mux(bytes, nested, endian, word_order, signals, selectors) {
                return false;
            }
            proof {
                let more = mux_decode(bytes@, nested.model(), endian, word_order)->Some_0;
                assert(before + (own + more.0) == (before + own) + more.0);
            }
            true
        },
        None => true,
    }
}

fn decode_mux(
    bytes: &[u8],
    mux: &Mux,
    endian: Endianness,
    word_order: Option<Endianness>,
    signals: &mut Vec<Decoded>,
    selectors: &mut Vec<MuxSelector>,
) -> (r: bool)
    requires
        mux_readable(bytes@, mux.model(), endian),
    ensures
        ({
            let added = mux_decode(bytes@, mux.model(), endian, word_order);
            if r {
                added is Some && decoded_views(final(signals)@) == decoded_views(old(signals)@)
                    + added->Some_0.0 && selector_views(final(selectors)@) == selector_views(
                    old(selectors)@,
                ) + added->Some_0.1
            } else {
                added is None
            }
        }),
    decreases mux.model(),
{
    let ghost before = decoded_views(signals@);
    let ghost read = selector_views(selectors@);
    let ghost view = mux.model();
    assert(before + Seq::<DecodedView>::empty() == before);
    let selector: i64 = saturate(
        read_signal(bytes, mux.start_bit, mux.bit_length, endian, None, false),
    );
    assert(selector == selector_value(bytes@, view, endian));
    let found: Option<usize> = find_case(mux, selector);
    let matched_case: Option<String> = match found {
        Some(at) => Some(owned(mux.cases[at].0.as_str())),
        None => None,
    };
    let reading = MuxSelector {
        name: copy_text(&mux.name),
        value: selector,
        matched_case,
        start_bit: mux.start_bit,
        bit_length: mux.bit_length,
    };
    let ghost own = reading@;
    assert(own == selector_reading(bytes@, view, endian));
    selectors.push(reading);
    assert(selector_views(selectors@) == read + seq![own]);
    if let Some(at) = found {
        proof {
            assert(view.cases[at as int].1 == mux.cases@[at as int].1.model());
            assert(decreases_to!(view => view.cases));
            assert(decreases_to!(view.cases => view.cases[at as int]));
            assert(decreases_to!(view.cases[at as int] => view.cases[at as int].1));
        }
        let done = decode_case(
            bytes,
            &mux.cases[at].1,
            endian,
            word_order,
            selector,
            signals,
            selectors,
        );
        proof {
            if done {
                let added = case_decode(
                    bytes@,
                    view.cases[at as int].1,
                    endian,
                    word_order,
                    selector,
                )->Some_0;
                assert(read + (seq![own] + added.1) == (read + seq![own]) + added.1);
            }
        }
        done
    } else {
        true
    }
}

/// The default byte and word order of a frame's protocol.
pub open spec fn defaults_of(catalog: crate::model::CatalogView, protocol: Protocol) -> (
    Endianness,
    Option<Endianness>,
) {
    match protocol {
        Protocol::Modbus => match catalog.modbus {
            Some(c) => (
                crate::model::or_else(c.default_byte_order, Endianness::Big),
                c.default_word_order,
            ),
            None => (Endianness::Big, None),
        },
        Protocol::Can => match catalog.can {
            Some(c) => (crate::model::or_else(c.default_byte_order, Endianness::Little), None),
            None => (Endianness::Little, None),
        },
        Protocol::Serial => match catalog.serial {
            Some(c) => (crate::model::or_else(c.byte_order, Endianness::Little), None),
            None => (Endianness::Little, None),
        },
    }
}

/// The default byte/word order to apply for a frame's protocol.
fn frame_defaults(catalog: &Catalog, protocol: Protocol) -> (r: (Endianness, Option<Endianness>))
    ensures
        r == defaults_of(catalog@, protocol),
{
    match protocol {
        Protocol::Modbus => match &catalog.modbus {
            Some(c) => (
                match c.default_byte_order {
                    Some(e) => e,
                    None => Endianness::Big,
                },
                c.default_word_order,
            ),
            None => (Endianness::Big, None),
        },
        Protocol::Can => match &catalog.can {
            Some(c) => (
                match c.default_byte_order {
                    Some(e) => e,
                    None => Endianness::Little,
                },
                None,
            ),
            None => (Endianness::Little, None),
        },
        Protocol::Serial => match &catalog.serial {
            Some(c) => (
                match c.byte_order {
                    Some(e) => e,
                    None => Endianness::Little,
                },
                None,
            ),
            None => (Endianness::Little, None),
        },
    }
}

/// Whether the raw value of each signal that a frame's bytes hold can be computed.
pub open spec fn frame_readable(
    catalog: crate::model::CatalogView,
    frame: crate::model::FrameView,
    bytes: Seq<u8>,
) -> bool {
    all_readable(frame.signals) && match frame.mux {
        Some(mux) => mux_readable(bytes, mux, defaults_of(catalog, frame.protocol).0),
        None => true,
    }
}

/// The decode of a frame's bytes: its signals, then those of its multiplexer;
/// `None` where one is out of range. Header fields are left to the id.
pub open spec fn frame_decode(
    catalog: crate::model::CatalogView,
    frame: crate::model::FrameView,
    bytes: Seq<u8>,
) -> Option<FrameDecodeView> {
    let (endian, word_order) = defaults_of(catalog, frame.protocol);
    match decoded_list(bytes, frame.signals, "Signal "@, endian, word_order, None) {
        Some(signals) => match frame.mux {
            Some(mux) => match mux_decode(bytes, mux, endian, word_order) {
                Some((more, selectors)) => Some(
                    FrameDecodeView {
                        signals: signals + more,
                        selectors,
                        header_fields: Seq::empty(),
                        source_address: None,
                    },
                ),
                None => None,
            },
            None => Some(
                FrameDecodeView {
                    signals,
                    selectors: Seq::empty(),
                    header_fields: Seq::empty(),
                    source_address: None,
                },
            ),
        },
        None => None,
    }
}

/// Decode every signal (and resolve any mux) in `frame` from `bytes`, choosing
/// the per-protocol default byte/word order from `catalog`. `None` where a scaled
/// value is out of the decimal range.
pub fn decode_frame(catalog: &Catalog, frame: &Frame, bytes: &[u8]) -> (r: Option<FrameDecode>)
    requires
        frame_readable(catalog@, frame@, bytes@),
    ensures
        match r {
            Some(d) => frame_decode(catalog@, frame@, bytes@) == Some(d@),
            None => frame_decode(catalog@, frame@, bytes@) is None,
        },
{
    let (endian, word_order) = frame_defaults(catalog, frame.protocol);
    let mut signals: Vec<Decoded> = Vec::new();
    let mut selectors: Vec<MuxSelector> = Vec::new();
    let header_fields: Vec<HeaderFieldValue> = Vec::new();
    assert(decoded_views(signals@) == Seq::<DecodedView>::empty());
    assert(selector_views(selectors@) == Seq::<SelectorView>::empty());
    assert(header_value_views(header_fields@) == Seq::<HeaderValueView>::empty());
    if !push_signals(&mut signals, bytes, &frame.signals, "Signal ", endian, word_order, None) {
        return None;
    }
    let ghost own = decoded_list(bytes@, frame@.signals, "Signal "@, endian, word_order, None)->Some_0;
    assert(decoded_views(signals@) == own);
    if let Some(mux) = &frame.mux {
        if !decode_mux(bytes, mux, endian, word_order, &mut signals, &mut selectors) {
            return None;
        }
        proof {
            let more = mux_decode(bytes@, mux.model(), endian, word_order)->Some_0;
            assert(Seq::<SelectorView>::empty() + more.1 == more.1);
        }
    }
    Some(FrameDecode { signals, selectors, header_fields, source_address: None })
}

// ---------------------------------------------------------------------------
// Header fields
// ---------------------------------------------------------------------------

/// The place of the lowest bit of a mask that is set.
pub open spec fn lowest_bit(mask: nat) -> nat
    decreases mask,
{
    if mask == 0 || mask % 2 == 1 {
        0
    } else {
        1 + lowest_bit(mask / 2)
    }
}

proof fn lemma_lowest_bit_bounded(mask: nat, bits: nat)
    requires
        0 < mask < vstd::arithmetic::power2::pow2(bits),
    ensures
        lowest_bit(mask) < bits,
    decreases bits,
{
    vstd::arithmetic::power2::lemma2_to64();
    if bits > 0 {
        vstd::arithmetic::power2::lemma_pow2_unfold(bits);
        if mask % 2 == 0 {
            lemma_lowest_bit_bounded(mask / 2, (bits - 1) as nat);
        }
    }
}

fn trailing_zero_bits(mask: u32) -> (r: u32)
    requires
        mask > 0,
    ensures
        r == lowest_bit(mask as nat),
        r < 32,
    decreases mask,
{
    proof {
        vstd::arithmetic::power2::lemma2_to64();
        lemma_lowest_bit_bounded(mask as nat, 32);
    }
    if mask % 2 == 1 {
        0
    } else {
        1 + trailing_zero_bits(mask / 2)
    }
}

/// How far a CAN header field is moved down: its `shift`, else the place of its
/// mask's lowest bit.
pub open spec fn field_shift(field: crate::model::HeaderFieldView) -> u32 {
    match field.shift {
        Some(shift) => shift,
        None => lowest_bit(field.mask as nat) as u32,
    }
}

/// The value of a CAN header field.
pub open spec fn can_value(field: crate::model::HeaderFieldView, raw_id: u32) -> u64 {
    ((raw_id & field.mask) >> field_shift(field)) as u64
}

/// A header value as text.
pub open spec fn header_text(value: u64, format: Seq<char>) -> Seq<char> {
    if format == "decimal"@ {
        crate::text::decimal(value as nat)
    } else {
        "0x"@ + crate::text::hexadecimal(value as nat)
    }
}

/// A header field with its value.
pub open spec fn header_value(
    field: (Seq<char>, crate::model::HeaderFieldView),
    value: u64,
) -> HeaderValueView {
    let format = crate::model::or_else(field.1.format, "hex"@);
    HeaderValueView { name: field.0, value, display: header_text(value, format), format }
}

/// The header fields of a CAN id.
pub open spec fn can_values(
    fields: Seq<(Seq<char>, crate::model::HeaderFieldView)>,
    raw_id: u32,
) -> Seq<HeaderValueView> {
    fields.map_values(
        |f: (Seq<char>, crate::model::HeaderFieldView)| header_value(f, can_value(f.1, raw_id)),
    )
}

/// Whether a header field names the source address, in any case.
pub open spec fn names_source(name: Seq<char>) -> bool {
    let lower = crate::text::lowered(name);
    lower == "source_address"@ || lower == "sender"@ || lower == "source"@ || lower == "src"@
        || lower == "sa"@
}

/// The value of the last header field that names the source address.
pub open spec fn source_in(
    fields: Seq<(Seq<char>, crate::model::HeaderFieldView)>,
    raw_id: u32,
) -> Option<u64>
    decreases fields.len(),
{
    if fields.len() == 0 {
        None
    } else if names_source(fields.last().0) {
        Some(can_value(fields.last().1, raw_id))
    } else {
        source_in(fields.drop_last(), raw_id)
    }
}

/// The number bytes spell, the first the least significant.
pub open spec fn little_endian_value(bytes: Seq<u8>) -> int
    decreases bytes.len(),
{
    if bytes.len() == 0 {
        0
    } else {
        bytes[0] + 256 * little_endian_value(bytes.skip(1))
    }
}

/// The value of a serial header field: the number its bytes spell, as far as
/// they are there, under its mask. `None` where the field is the frame id, its
/// mask is zero, or the frame ends before it.
pub open spec fn serial_value(
    field: (Seq<char>, crate::model::HeaderFieldView),
    bytes: Seq<u8>,
) -> Option<u64> {
    if field.0 == "id"@ {
        None
    } else {
        match crate::header::byte_position(field.1.mask as int) {
            Some((start, count)) => if start >= bytes.len() {
                None
            } else {
                let end = if start + count <= bytes.len() {
                    start + count
                } else {
                    bytes.len() as int
                };
                let window = bytes.subrange(start, end);
                let number = if field.1.endianness == Some(Endianness::Little) {
                    little_endian_value(window)
                } else {
                    crate::bits::big_endian_value(window)
                };
                Some((number as u64) & ((field.1.mask as u64) >> ((start * 8) as u64)))
            },
            None => None,
        }
    }
}

/// The header fields of a serial frame's bytes.
pub open spec fn serial_values(
    fields: Seq<(Seq<char>, crate::model::HeaderFieldView)>,
    bytes: Seq<u8>,
) -> Seq<HeaderValueView>
    decreases fields.len(),
{
    if fields.len() == 0 {
        Seq::empty()
    } else {
        let before = serial_values(fields.drop_last(), bytes);
        match serial_value(fields.last(), bytes) {
            Some(value) => before.push(header_value(fields.last(), value)),
            None => before,
        }
    }
}

/// The header fields of a frame.
pub open spec fn header_values(
    catalog: crate::model::CatalogView,
    raw_id: u32,
    bytes: Seq<u8>,
) -> Seq<HeaderValueView> {
    match catalog.protocol {
        Protocol::Can => match catalog.can {
            Some(can) => can_values(can.fields, raw_id),
            None => Seq::empty(),
        },
        Protocol::Serial => match catalog.serial {
            Some(serial) => serial_values(serial.fields, bytes),
            None => Seq::empty(),
        },
        Protocol::Modbus => Seq::empty(),
    }
}

/// The source address of a frame.
pub open spec fn source_of(catalog: crate::model::CatalogView, raw_id: u32) -> Option<u64> {
    match (catalog.protocol, catalog.can) {
        (Protocol::Can, Some(can)) => source_in(can.fields, raw_id),
        _ => None,
    }
}

/// Whether no CAN header field is moved down more bits than an id has.
pub open spec fn shifts_fit(catalog: crate::model::CatalogView) -> bool {
    match catalog.can {
        Some(can) => forall|i: int|
            0 <= i < can.fields.len() ==> ((#[trigger] can.fields[i]).1.shift matches Some(shift)
                ==> shift < 32),
        None => true,
    }
}

fn format_header_value(value: u64, format: &str) -> (r: String)
    ensures
        r@ == header_text(value, format@),
{
    if str_eq(format, "decimal") {
        let mut out = String::new();
        push_decimal(&mut out, value as u128);
        assert(out@ == crate::text::decimal(value as nat));
        out
    } else {
        let mut out = owned("0x");
        push_hexadecimal(&mut out, value as u128);
        out
    }
}

fn named_value(name: &str, field: &HeaderField, value: u64) -> (r: HeaderFieldValue)
    ensures
        r@ == header_value((name@, field@), value),
{
    let format: String = match &field.format {
        Some(f) => owned(f.as_str()),
        None => owned("hex"),
    };
    HeaderFieldValue {
        name: owned(name),
        value,
        display: format_header_value(value, format.as_str()),
        format,
    }
}

fn is_source_name(name: &str) -> (r: bool)
    ensures
        r == names_source(name@),
{
    is_lowered(name, "source_address") || is_lowered(name, "sender") || is_lowered(name, "source")
        || is_lowered(name, "src") || is_lowered(name, "sa")
}

fn extract_can_fields(can: &CanConfig, raw_id: u32) -> (r: (Vec<HeaderFieldValue>, Option<u64>))
    requires
        forall|i: int|
            0 <= i < can@.fields.len() ==> ((#[trigger] can@.fields[i]).1.shift matches Some(shift)
                ==> shift < 32),
    ensures
        header_value_views(r.0@) == can_values(can@.fields, raw_id),
        r.1 == source_in(can@.fields, raw_id),
{
    let ghost all = can@.fields;
    let ghost values = can_values(all, raw_id);
    let mut out: Vec<HeaderFieldValue> = Vec::new();
    let mut source: Option<u64> = None;
    for i in 0..can.fields.len()
        invariant
            all == can@.fields,
            all.len() == can.fields@.len(),
            values == can_values(all, raw_id),
            forall|i: int|
                0 <= i < all.len() ==> ((#[trigger] all[i]).1.shift matches Some(shift) ==> shift
                    < 32),
            header_value_views(out@) == values.take(i as int),
            source == source_in(all.take(i as int), raw_id),
    {
        let ghost before = header_value_views(out@);
        let field = &can.fields[i].1;
        let name = can.fields[i].0.as_str();
        assert(all[i as int] == (name@, field@));
        assert(all.take(i + 1).drop_last() == all.take(i as int));
        assert(all.take(i + 1).last() == all[i as int]);
        // Shift defaults to the mask's trailing-zero count.
        let shift: u32 = match field.shift {
            Some(shift) => shift,
            None => if field.mask > 0 {
                trailing_zero_bits(field.mask)
            } else {
                0
            },
        };
        let value: u64 = ((raw_id & field.mask) >> shift) as u64;
        let h = named_value(name, field, value);
        let ghost view = h@;
        out.push(h);
        assert(header_value_views(out@) == before.push(view));
        assert(values[i as int] == view);
        assert(values.take(i + 1) == values.take(i as int).push(values[i as int]));
        if is_source_name(name) {
            source = Some(value);
        }
    }
    assert(values.take(values.len() as int) == values);
    assert(all.take(all.len() as int) == all);
    (out, source)
}

proof fn lemma_little_endian_bounded(bytes: Seq<u8>)
    requires
        bytes.len() <= 4,
    ensures
        0 <= little_endian_value(bytes) < 0x1_0000_0000,
        bytes.len() <= 3 ==> little_endian_value(bytes) < 0x100_0000,
        bytes.len() <= 2 ==> little_endian_value(bytes) < 0x1_0000,
        bytes.len() <= 1 ==> little_endian_value(bytes) < 0x100,
    decreases bytes.len(),
{
    if bytes.len() > 0 {
        lemma_little_endian_bounded(bytes.skip(1));
    }
}

fn read_window(window: &[u8], little: bool) -> (r: u64)
    requires
        window@.len() <= 4,
    ensures
        r == if little {
            little_endian_value(window@)
        } else {
            crate::bits::big_endian_value(window@)
        },
{
    if little {
        let mut value: u64 = 0;
        let mut n: usize = window.len();
        assert(window@.skip(n as int).len() == 0);
        while n > 0
            invariant
                n <= window@.len() <= 4,
                value == little_endian_value(window@.skip(n as int)),
            decreases n,
        {
            proof {
                lemma_little_endian_bounded(window@.skip(n as int));
                assert(window@.skip(n - 1)[0] == window@[n - 1]);
                assert(window@.skip(n - 1).skip(1) == window@.skip(n as int));
            }
            value = window[n - 1] as u64 + 256 * value;
            n = n - 1;
        }
        assert(window@.skip(0) == window@);
        value
    } else {
        let mut value: u64 = 0;
        for i in 0..window.len()
            invariant
                window@.len() <= 4,
                value == crate::bits::big_endian_value(window@.take(i as int)),
                i == 0 ==> value == 0,
                i <= 1 ==> value < 0x100,
                i <= 2 ==> value < 0x1_0000,
                i <= 3 ==> value < 0x100_0000,
                value < 0x1_0000_0000,
        {
            assert(window@.take(i + 1).drop_last() == window@.take(i as int));
            assert(window@.take(i + 1).last() == window@[i as int]);
            value = value * 256 + window[i] as u64;
        }
        assert(window@.take(window@.len() as int) == window@);
        value
    }
}

fn extract_serial_fields(serial: &SerialConfig, bytes: &[u8]) -> (r: Vec<HeaderFieldValue>)
    ensures
        header_value_views(r@) == serial_values(serial@.fields, bytes@),
{
    let ghost all = serial@.fields;
    let mut out: Vec<HeaderFieldValue> = Vec::new();
    assert(header_value_views(out@) == Seq::<HeaderValueView>::empty());
    for i in 0..serial.fields.len()
        invariant
            all == serial@.fields,
            all.len() == serial.fields@.len(),
            header_value_views(out@) == serial_values(all.take(i as int), bytes@),
    {
        let ghost before = header_value_views(out@);
        let field = &serial.fields[i].1;
        let name = serial.fields[i].0.as_str();
        assert(all[i as int] == (name@, field@));
        assert(all.take(i + 1).drop_last() == all.take(i as int));
        assert(all.take(i + 1).last() == all[i as int]);
        if !str_eq(name, "id") {
            if let Some((start, count)) = mask_to_byte_position(field.mask) {
                if start < bytes.len() {
                    let end: usize = if count <= bytes.len() - start {
                        start + count
                    } else {
                        bytes.len()
                    };
                    let window = vstd::slice::slice_subrange(bytes, start, end);
                    let little: bool = match field.endianness {
                        Some(e) => e == Endianness::Little,
                        None => false,
                    };
                    let number: u64 = read_window(window, little);
                    // The mask is relative to the header start; shift it down to
                    // the field.
                    let value: u64 = number & ((field.mask as u64) >> ((start * 8) as u64));
                    let h = named_value(name, field, value);
                    let ghost view = h@;
                    out.push(h);
                    assert(header_value_views(out@) == before.push(view));
                }
            }
        }
    }
    assert(all.take(all.len() as int) == all);
    out
}

/// Extract header fields — CAN from the raw id (mask + shift), serial from the
/// header bytes (mask → byte range).
fn extract_header_fields(catalog: &Catalog, raw_id: u32, bytes: &[u8]) -> (r: (
    Vec<HeaderFieldValue>,
    Option<u64>,
))
    requires
        shifts_fit(catalog@),
    ensures
        header_value_views(r.0@) == header_values(catalog@, raw_id, bytes@),
        r.1 == source_of(catalog@, raw_id),
{
    let none: Vec<HeaderFieldValue> = Vec::new();
    assert(header_value_views(none@) == Seq::<HeaderValueView>::empty());
    match catalog.protocol {
        Protocol::Can => match &catalog.can {
            Some(can) => extract_can_fields(can, raw_id),
            None => (none, None),
        },
        Protocol::Serial => match &catalog.serial {
            Some(serial) => (extract_serial_fields(serial, bytes), None),
            None => (none, None),
        },
        Protocol::Modbus => (none, None),
    }
}

// ---------------------------------------------------------------------------
// Lookup
// ---------------------------------------------------------------------------

/// The `frame_id_mask` of a catalogue's protocol.
pub open spec fn id_mask(catalog: crate::model::CatalogView) -> Option<u32> {
    match catalog.protocol {
        Protocol::Can => match catalog.can {
            Some(c) => c.frame_id_mask,
            None => None,
        },
        Protocol::Serial => match catalog.serial {
            Some(c) => c.frame_id_mask,
            None => None,
        },
        Protocol::Modbus => None,
    }
}

/// A frame id under a mask, where there is one.
pub open spec fn under_mask(mask: Option<u32>, raw: u32) -> u32 {
    match mask {
        Some(m) => raw & m,
        None => raw,
    }
}

/// The protocol's `frame_id_mask`, if any.
pub fn frame_id_mask(catalog: &Catalog) -> (r: Option<u32>)
    ensures
        r == id_mask(catalog@),
{
    match catalog.protocol {
        Protocol::Can => match &catalog.can {
            Some(c) => c.frame_id_mask,
            None => None,
        },
        Protocol::Serial => match &catalog.serial {
            Some(c) => c.frame_id_mask,
            None => None,
        },
        Protocol::Modbus => None,
    }
}

/// Apply the protocol's `frame_id_mask` (if any) before catalogue lookup, so a
/// catalogue keyed by message-type-only (e.g. J1939 PGN) matches frames that
/// carry extra id bits.
pub fn masked_frame_id(catalog: &Catalog, raw: u32) -> (r: u32)
    ensures
        r == under_mask(id_mask(catalog@), raw),
{
    match frame_id_mask(catalog) {
        Some(m) => raw & m,
        None => raw,
    }
}

/// The decode of a frame with a raw id, with its header fields.
pub open spec fn id_decode(
    catalog: crate::model::CatalogView,
    raw_id: u32,
    bytes: Seq<u8>,
) -> Option<FrameDecodeView> {
    match crate::catalog::frame_with_id(catalog.frames, under_mask(id_mask(catalog), raw_id)) {
        Some(i) => match frame_decode(catalog, catalog.frames[i], bytes) {
            Some(d) => Some(
                FrameDecodeView {
                    header_fields: header_values(catalog, raw_id, bytes),
                    source_address: source_of(catalog, raw_id),
                    ..d
                },
            ),
            None => None,
        },
        None => None,
    }
}

/// Whether the frame that a raw id names, if any, can be decoded.
pub open spec fn id_readable(
    catalog: crate::model::CatalogView,
    raw_id: u32,
    bytes: Seq<u8>,
) -> bool {
    match crate::catalog::frame_with_id(catalog.frames, under_mask(id_mask(catalog), raw_id)) {
        Some(i) => shifts_fit(catalog) && frame_readable(catalog, catalog.frames[i], bytes),
        None => true,
    }
}

proof fn lemma_frame_in_range(frames: Seq<crate::model::FrameView>, id: u32)
    ensures
        crate::catalog::frame_with_id(frames, id) matches Some(i) ==> 0 <= i < frames.len(),
    decreases frames.len(),
{
    if frames.len() > 0 {
        lemma_frame_in_range(frames.drop_last(), id);
    }
}

/// Decode a frame from its raw id + bytes: apply the protocol's `frame_id_mask`
/// to look up the catalogue frame, decode its signals/mux, and extract header
/// fields (CAN: from the raw id; serial: from the header bytes). Returns `None`
/// when no catalogue frame matches, or a scaled value is out of the decimal
/// range. This is the entry point the live stream uses.
pub fn decode_by_id(catalog: &Catalog, raw_frame_id: u32, bytes: &[u8]) -> (r: Option<FrameDecode>)
    requires
        id_readable(catalog@, raw_frame_id, bytes@),
    ensures
        match r {
            Some(d) => id_decode(catalog@, raw_frame_id, bytes@) == Some(d@),
            None => id_decode(catalog@, raw_frame_id, bytes@) is None,
        },
{
    let masked: u32 = masked_frame_id(catalog, raw_frame_id);
    proof {
        lemma_frame_in_range(catalog@.frames, masked);
    }
    let frame = match catalog.frame(masked) {
        Some(frame) => frame,
        None => {
            return None;
        },
    };
    match decode_frame(catalog, frame, bytes) {
        Some(d) => {
            let (header_fields, source_address) = extract_header_fields(
                catalog,
                raw_frame_id,
                bytes,
            );
            Some(
                FrameDecode {
                    signals: d.signals,
                    selectors: d.selectors,
                    header_fields,
                    source_address,
                },
            )
        },
        None => None,
    }
}

// ---------------------------------------------------------------------------
// Laws
// ---------------------------------------------------------------------------

/// A register block decodes the same through the catalogue as through the
/// Modbus manifest: the signal that the catalogue makes of a manifest's has the
/// same raw value, and, where it is a plain number, the same scaled value and
/// unit.
pub proof fn law_modbus_decodes_agree(
    meta: crate::manifest::ModbusMeta,
    signal: crate::manifest::ModbusSignalView,
    base: u32,
    bank: crate::model::RegisterType,
    block: Seq<u16>,
)
    ensures
        ({
            let bytes = crate::modbus_rtu_stream::big_endian_bytes(block);
            let sig = crate::catalog::modbus_signal(signal, base, bank);
            let endian = crate::model::or_else(meta.default_byte_order, Endianness::Big);
            let decoded = decoded_signal(
                bytes,
                sig,
                Seq::empty(),
                endian,
                meta.default_word_order,
            );
            &&& raw_of(bytes, sig, endian, meta.default_word_order) == crate::writes::raw_reading(
                meta,
                signal,
                block,
            )
            &&& decoded is None <==> crate::writes::reading(meta, signal, block) is None
            &&& signal.format is None && decoded is Some ==> Some(decoded->Some_0.scaled)
                == crate::writes::reading(meta, signal, block) && decoded->Some_0.name
                == signal.name && decoded->Some_0.unit == signal.unit
        }),
{
}

/// Nothing is dropped: a frame without a multiplexer decodes to one value for
/// each of its signals, in their order and under their names.
pub proof fn law_every_signal_is_decoded(
    catalog: crate::model::CatalogView,
    frame: crate::model::FrameView,
    bytes: Seq<u8>,
    i: int,
)
    requires
        frame.mux is None,
        frame_decode(catalog, frame, bytes) is Some,
        0 <= i < frame.signals.len(),
    ensures
        frame_decode(catalog, frame, bytes)->Some_0.signals.len() == frame.signals.len(),
        frame.signals[i].name matches Some(name) ==> frame_decode(
            catalog,
            frame,
            bytes,
        )->Some_0.signals[i].name == name,
        frame_decode(catalog, frame, bytes)->Some_0.signals[i].mux_value is None,
{
    let (endian, word_order) = defaults_of(catalog, frame.protocol);
    lemma_decoded_list(bytes, frame.signals, "Signal "@, endian, word_order, None, i);
}

proof fn lemma_decoded_list(
    bytes: Seq<u8>,
    signals: Seq<crate::model::SignalView>,
    prefix: Seq<char>,
    endian: Endianness,
    word_order: Option<Endianness>,
    mux_value: Option<i64>,
    i: int,
)
    requires
        decoded_list(bytes, signals, prefix, endian, word_order, mux_value) is Some,
    ensures
        ({
            let list = decoded_list(
                bytes,
                signals,
                prefix,
                endian,
                word_order,
                mux_value,
            )->Some_0;
            &&& list.len() == signals.len()
            &&& 0 <= i < signals.len() ==> {
                &&& signals[i].name matches Some(name) ==> list[i].name == name
                &&& list[i].mux_value == mux_value
            }
        }),
    decreases signals.len(),
{
    if signals.len() > 0 {
        lemma_decoded_list(
            bytes,
            signals.drop_last(),
            prefix,
            endian,
            word_order,
            mux_value,
            i,
        );
    }
}

/// Of a multiplexer only the case its selector selects is decoded: the one it
/// matches, or the default case where it matches none. Each of that case's signals
/// carries the selector's value. Where no case applies, nothing is decoded.
pub proof fn law_only_the_matching_case_is_decoded(
    bytes: Seq<u8>,
    mux: crate::model::MuxView,
    endian: Endianness,
    word_order: Option<Endianness>,
    i: int,
)
    requires
        mux_decode(bytes, mux, endian, word_order) is Some,
    ensures
        ({
            let (signals, selectors) = mux_decode(bytes, mux, endian, word_order)->Some_0;
            &&& selectors.len() > 0 && selectors[0] == selector_reading(bytes, mux, endian)
            &&& crate::mux::matching_case(selector_value(bytes, mux, endian), case_keys(mux)) is None
                && mux.default is None ==> selected(bytes, mux, endian) is None
            &&& match selected(bytes, mux, endian) {
                Some(k) => 0 <= k < mux.cases.len() && signals.len()
                    >= mux.cases[k].1.signals.len() && (0 <= i < mux.cases[k].1.signals.len()
                    ==> signals[i].mux_value == Some(
                    selector_value(bytes, mux, endian) as i64,
                )) && (mux.cases[k].1.mux is None ==> signals.len()
                    == mux.cases[k].1.signals.len()),
                None => signals.len() == 0,
            }
        }),
{
    lemma_case_in_range(selector_value(bytes, mux, endian), mux);
    if let Some(k) = selected(bytes, mux, endian) {
        let case = mux.cases[k].1;
        lemma_decoded_list(
            bytes,
            case.signals,
            "Mux Signal "@,
            endian,
            word_order,
            Some(selector_value(bytes, mux, endian) as i64),
            i,
        );
    }
}

/// The byte order that a frame's protocol has in a catalogue: the one its section
/// declares (`default_byte_order` of `[meta.can]` and `[meta.modbus]`, `byte_order` of
/// `[meta.serial]`), else big-endian for Modbus and little-endian for the others.
pub open spec fn is_order_of(
    order: Endianness,
    catalog: crate::model::CatalogView,
    protocol: Protocol,
) -> bool {
    &&& protocol is Can ==> {
        &&& (catalog.can matches Some(c) && c.default_byte_order is Some)
            ==> catalog.can->Some_0.default_byte_order == Some(order)
        &&& (catalog.can matches Some(c) ==> c.default_byte_order is None) ==> order is Little
    }
    &&& protocol is Serial ==> {
        &&& (catalog.serial matches Some(c) && c.byte_order is Some)
            ==> catalog.serial->Some_0.byte_order == Some(order)
        &&& (catalog.serial matches Some(c) ==> c.byte_order is None) ==> order is Little
    }
    &&& protocol is Modbus ==> {
        &&& (catalog.modbus matches Some(c) && c.default_byte_order is Some)
            ==> catalog.modbus->Some_0.default_byte_order == Some(order)
        &&& (catalog.modbus matches Some(c) ==> c.default_byte_order is None) ==> order is Big
    }
}

/// The word order that a frame's protocol has in a catalogue: only `[meta.modbus]`
/// declares one.
pub open spec fn word_order_of(
    catalog: crate::model::CatalogView,
    protocol: Protocol,
) -> Option<Endianness> {
    if protocol is Modbus && catalog.modbus is Some {
        catalog.modbus->Some_0.default_word_order
    } else {
        None
    }
}

/// A signal without a byte order of its own decodes as it would with the byte order of
/// its frame's protocol, whichever protocol that is; and likewise for the word order.
pub proof fn law_signals_take_the_declared_order(
    catalog: crate::model::CatalogView,
    frame: crate::model::FrameView,
    bytes: Seq<u8>,
    i: int,
    order: Endianness,
)
    requires
        0 <= i < frame.signals.len(),
        is_order_of(order, catalog, frame.protocol),
    ensures
        frame.signals[i].endianness is None ==> frame_decode(catalog, frame, bytes) == frame_decode(
            catalog,
            crate::model::FrameView {
                signals: frame.signals.update(
                    i,
                    crate::model::SignalView { endianness: Some(order), ..frame.signals[i] },
                ),
                ..frame
            },
            bytes,
        ),
        frame.signals[i].word_order is None ==> frame_decode(catalog, frame, bytes) == frame_decode(
            catalog,
            crate::model::FrameView {
                signals: frame.signals.update(
                    i,
                    crate::model::SignalView {
                        word_order: word_order_of(catalog, frame.protocol),
                        ..frame.signals[i]
                    },
                ),
                ..frame
            },
            bytes,
        ),
{
    let (endian, word_order) = defaults_of(catalog, frame.protocol);
    assert(endian == order);
    let s = frame.signals[i];
    let a = crate::model::SignalView { endianness: Some(order), ..s };
    let b = crate::model::SignalView { word_order, ..s };
    if s.endianness is None {
        lemma_same_list(bytes, frame.signals, "Signal "@, endian, word_order, None, i, a);
    }
    if s.word_order is None {
        lemma_same_list(bytes, frame.signals, "Signal "@, endian, word_order, None, i, b);
    }
}

proof fn lemma_same_list(
    bytes: Seq<u8>,
    signals: Seq<crate::model::SignalView>,
    prefix: Seq<char>,
    endian: Endianness,
    word_order: Option<Endianness>,
    mux_value: Option<i64>,
    i: int,
    other: crate::model::SignalView,
)
    requires
        0 <= i < signals.len(),
        forall|name: Seq<char>|
            decoded_signal(bytes, signals[i], name, endian, word_order) == #[trigger] decoded_signal(
                bytes,
                other,
                name,
                endian,
                word_order,
            ),
    ensures
        decoded_list(bytes, signals, prefix, endian, word_order, mux_value) == decoded_list(
            bytes,
            signals.update(i, other),
            prefix,
            endian,
            word_order,
            mux_value,
        ),
    decreases signals.len(),
{
    let now = signals.update(i, other);
    let front = signals.drop_last();
    if i < front.len() {
        assert(now.drop_last() =~= front.update(i, other));
        assert(front[i] == signals[i]);
        lemma_same_list(bytes, front, prefix, endian, word_order, mux_value, i, other);
    } else {
        assert(now.drop_last() =~= front);
    }
}

/// What a frame's protocol does not declare has no say: the decode of a CAN or serial
/// frame does not depend on `[meta.modbus]`, nor that of a CAN or Modbus frame on
/// `[meta.serial]`, nor that of a serial or Modbus frame on `[meta.can]`.
pub proof fn law_other_sections_have_no_say(
    catalog: crate::model::CatalogView,
    other: crate::model::CatalogView,
    frame: crate::model::FrameView,
    bytes: Seq<u8>,
)
    requires
        frame.protocol is Can ==> catalog.can == other.can,
        frame.protocol is Serial ==> catalog.serial == other.serial,
        frame.protocol is Modbus ==> catalog.modbus == other.modbus,
    ensures
        frame_decode(catalog, frame, bytes) == frame_decode(other, frame, bytes),
{
}

/// Each signal of a frame decodes to the number its bits spell, in its own byte and word
/// order, or else in those of its protocol: signed if it says so, from bit 0 where it has
/// no start bit. An unnamed one is named by its place, counted from 1. Formats that show
/// the raw value carry no unit, nor does a time.
pub proof fn law_values_are_read_from_their_bits(
    catalog: crate::model::CatalogView,
    frame: crate::model::FrameView,
    bytes: Seq<u8>,
    i: int,
    order: Endianness,
)
    requires
        0 <= i < frame.signals.len(),
        is_order_of(order, catalog, frame.protocol),
        frame_decode(catalog, frame, bytes) is Some,
    ensures
        ({
            let s = frame.signals[i];
            let d = frame_decode(catalog, frame, bytes)->Some_0.signals[i];
            &&& frame_decode(catalog, frame, bytes)->Some_0.signals.len() >= frame.signals.len()
            &&& d.value == crate::bits::signal_value(
                bytes,
                match s.start_bit {
                    Some(b) => b as int,
                    None => 0,
                },
                match s.bit_length {
                    Some(b) => b as int,
                    None => 0,
                },
                match s.endianness {
                    Some(e) => e,
                    None => order,
                },
                match s.word_order {
                    Some(e) => Some(e),
                    None => word_order_of(catalog, frame.protocol),
                },
                s.signed == Some(true),
            )
            &&& d.name == match s.name {
                Some(name) => name,
                None => "Signal "@ + crate::text::decimal((i + 1) as nat),
            }
            &&& d.mux_value is None
            &&& d.format == s.format
            &&& d.unit == if s.format == Some(SignalFormat::Enum) || s.format == Some(
                SignalFormat::Utf8,
            ) || s.format == Some(SignalFormat::Ascii) || s.format == Some(SignalFormat::UnixTime) {
                None
            } else {
                s.unit
            }
        }),
{
    let (endian, word_order) = defaults_of(catalog, frame.protocol);
    assert(endian == order);
    lemma_decoded_at(bytes, frame.signals, "Signal "@, endian, word_order, None, i);
}

proof fn lemma_decoded_at(
    bytes: Seq<u8>,
    signals: Seq<crate::model::SignalView>,
    prefix: Seq<char>,
    endian: Endianness,
    word_order: Option<Endianness>,
    mux_value: Option<i64>,
    i: int,
)
    requires
        0 <= i < signals.len(),
        decoded_list(bytes, signals, prefix, endian, word_order, mux_value) is Some,
    ensures
        ({
            let list = decoded_list(
                bytes,
                signals,
                prefix,
                endian,
                word_order,
                mux_value,
            )->Some_0;
            let d = decoded_signal(
                bytes,
                signals[i],
                prefix + crate::text::decimal((i + 1) as nat),
                endian,
                word_order,
            );
            &&& list.len() == signals.len()
            &&& d is Some
            &&& list[i] == DecodedView { mux_value, ..d->Some_0 }
        }),
    decreases signals.len(),
{
    let front = signals.drop_last();
    if i < front.len() {
        lemma_decoded_at(bytes, front, prefix, endian, word_order, mux_value, i);
    } else if front.len() > 0 {
        lemma_decoded_list(bytes, front, prefix, endian, word_order, mux_value, 0);
    }
}

/// A signal that shows labels shows the label of its value, where it has one. Text is
/// shown as its bytes, and labels and text are scaled by nothing.
pub proof fn law_labels_are_shown(
    bytes: Seq<u8>,
    sig: crate::model::SignalView,
    name: Seq<char>,
    endian: Endianness,
    word_order: Option<Endianness>,
)
    requires
        sig.format == Some(SignalFormat::Enum),
        decoded_signal(bytes, sig, name, endian, word_order) is Some,
        i64::MIN <= raw_of(bytes, sig, endian, word_order) <= i64::MAX,
    ensures
        ({
            let d = decoded_signal(bytes, sig, name, endian, word_order)->Some_0;
            sig.enum_map matches Some(map) ==> (crate::value::label_of(map, d.value) matches Some(
                label,
            ) ==> d.display == label)
        }),
{
}

/// A signal that a table declares as signed, whose bits are all ones, decodes to -1, and
/// one that it does not, to the largest number of its width.
pub proof fn law_declared_signs_are_kept(
    catalog: crate::model::CatalogView,
    frame: crate::model::FrameView,
    n: crate::value::Node,
    bytes: Seq<u8>,
    i: int,
    order: Endianness,
)
    requires
        0 <= i < frame.signals.len(),
        is_order_of(order, catalog, frame.protocol),
        frame_decode(catalog, frame, bytes) is Some,
        crate::contents::is_read_from(frame.signals[i], n),
        n.get("start_bit"@) == Some(crate::value::Node::Integer(0)),
        n.get("bit_length"@) == Some(crate::value::Node::Integer(16)),
        bytes.len() >= 2,
        forall|k: int| 0 <= k < bytes.len() ==> (#[trigger] bytes[k]) == 0xFF,
    ensures
        frame_decode(catalog, frame, bytes)->Some_0.signals[i].value == if n.get("signed"@) == Some(
            crate::value::Node::Boolean(true),
        ) {
            -1int
        } else {
            0xFFFF
        },
{
    let s = frame.signals[i];
    law_values_are_read_from_their_bits(catalog, frame, bytes, i, order);
    vstd::arithmetic::power2::lemma2_to64();
    let e = match s.endianness {
        Some(e) => e,
        None => order,
    };
    crate::bits::law_ones_are_minus_one(bytes, 0, 16, e);
}

/// The id that a frame is looked up by is the raw id under the mask of the catalogue's
/// protocol: that of `[meta.can]` or of `[meta.serial]`; without one, and for Modbus, it
/// is the raw id. Its bits outside the mask make no difference.
pub proof fn law_ids_are_masked(catalog: crate::model::CatalogView, raw: u32, other: u32, mask: u32)
    ensures
        catalog.protocol is Can && (catalog.can matches Some(c) && c.frame_id_mask == Some(mask))
            || catalog.protocol is Serial && (catalog.serial matches Some(c) && c.frame_id_mask
            == Some(mask)) ==> under_mask(id_mask(catalog), raw) == raw & mask,
        catalog.protocol is Modbus ==> under_mask(id_mask(catalog), raw) == raw,
        catalog.protocol is Can && (catalog.can matches Some(c) ==> c.frame_id_mask is None)
            ==> under_mask(id_mask(catalog), raw) == raw,
        catalog.protocol is Serial && (catalog.serial matches Some(c) ==> c.frame_id_mask is None)
            ==> under_mask(id_mask(catalog), raw) == raw,
{
}

/// A raw id decodes as the first frame with the masked id does, its header fields added.
pub proof fn law_frames_are_decoded_by_their_id(
    catalog: crate::model::CatalogView,
    raw: u32,
    bytes: Seq<u8>,
    k: int,
)
    requires
        0 <= k < catalog.frames.len(),
        catalog.frames[k].frame_id == under_mask(id_mask(catalog), raw),
        forall|m: int|
            0 <= m < k ==> (#[trigger] catalog.frames[m]).frame_id != catalog.frames[k].frame_id,
    ensures
        id_decode(catalog, raw, bytes) is Some <==> frame_decode(
            catalog,
            catalog.frames[k],
            bytes,
        ) is Some,
        id_decode(catalog, raw, bytes) is Some ==> {
            let d = id_decode(catalog, raw, bytes)->Some_0;
            let f = frame_decode(catalog, catalog.frames[k], bytes)->Some_0;
            d.signals == f.signals && d.selectors == f.selectors
        },
{
    let id = under_mask(id_mask(catalog), raw);
    let frames = catalog.frames;
    crate::contents::law_frames_are_found_by_id(frames, id);
    let i = crate::catalog::frame_with_id(frames, id)->Some_0;
    assert(frames[k].frame_id == id);
    assert(i == k) by {
        if i < k {
            assert(frames[i].frame_id != id);
        }
    }
}

/// The header of a CAN frame has one value for each declared field, in their order and
/// under their names: the bits of the raw id under the field's mask, moved down by its
/// shift. In decimal or, unless it says so, in hexadecimal, behind `0x`.
pub proof fn law_can_headers_hold_their_fields(
    catalog: crate::model::CatalogView,
    can: crate::model::CanView,
    raw: u32,
    bytes: Seq<u8>,
    i: int,
)
    requires
        catalog.protocol is Can,
        catalog.can == Some(can),
        0 <= i < can.fields.len(),
    ensures
        ({
            let values = header_values(catalog, raw, bytes);
            let (name, field) = can.fields[i];
            &&& values.len() == can.fields.len()
            &&& values[i].name == name
            &&& field.shift matches Some(s) ==> values[i].value == (raw & field.mask) >> s
            &&& field.format == Some("decimal"@) ==> values[i].format == "decimal"@
                && values[i].display == crate::text::decimal(values[i].value as nat)
            &&& field.format is None ==> values[i].format == "hex"@
            &&& values[i].format != "decimal"@ ==> values[i].display == "0x"@
                + crate::text::hexadecimal(values[i].value as nat)
        }),
{
}

/// The source address of a CAN frame is the value of the last header field that names it,
/// in whatever case: `source_address`, `sender`, `source`, `src` or `sa`.
pub proof fn law_source_addresses_are_found(
    fields: Seq<(Seq<char>, crate::model::HeaderFieldView)>,
    raw: u32,
    i: int,
)
    requires
        0 <= i < fields.len(),
        crate::text::lowered(fields[i].0) == "source_address"@ || crate::text::lowered(fields[i].0)
            == "sender"@ || crate::text::lowered(fields[i].0) == "source"@ || crate::text::lowered(
            fields[i].0,
        ) == "src"@ || crate::text::lowered(fields[i].0) == "sa"@,
        forall|j: int| i < j < fields.len() ==> !names_source((#[trigger] fields[j]).0),
    ensures
        source_in(fields, raw) == Some(can_value(fields[i].1, raw)),
    decreases fields.len(),
{
    let front = fields.drop_last();
    if i < front.len() {
        assert(front[i] == fields[i]);
        assert(!names_source(fields[fields.len() - 1].0));
        assert forall|j: int| i < j < front.len() implies !names_source((#[trigger] front[j]).0) by {
            assert(front[j] == fields[j]);
        }
        law_source_addresses_are_found(front, raw, i);
    }
}

proof fn lemma_low_byte(b: u8)
    ensures
        (b as u64) & (0xFFu64 >> 0u64) == b,
        (b as u64) & (0xFF00u64 >> 8u64) == b,
{
    assert((b as u64) & (0xFFu64 >> 0u64) == b as u64) by (bit_vector);
    assert((b as u64) & (0xFF00u64 >> 8u64) == b as u64) by (bit_vector);
}

/// A serial header field of one whole byte is the byte at its place. The field of the
/// frame id is none of them.
pub proof fn law_serial_headers_spell_their_bytes(
    name: Seq<char>,
    field: crate::model::HeaderFieldView,
    bytes: Seq<u8>,
)
    requires
        bytes.len() >= 2,
        name != "id"@,
        field.mask == 0xFF || field.mask == 0xFF00,
    ensures
        serial_value(("id"@, field), bytes) is None,
        serial_value((name, field), bytes) == Some(
            if field.mask == 0xFF {
                bytes[0] as u64
            } else {
                bytes[1] as u64
            },
        ),
{
    let k: int = if field.mask == 0xFF {
        0
    } else {
        1
    };
    let window = bytes.subrange(k, k + 1);
    assert(window[0] == bytes[k]);
    assert(window.skip(1).len() == 0 && window.drop_last().len() == 0);
    assert(little_endian_value(window.skip(1)) == 0);
    assert(little_endian_value(window) == bytes[k]);
    assert(crate::bits::big_endian_value(window.drop_last()) == 0);
    assert(crate::bits::big_endian_value(window) == bytes[k]);
    lemma_low_byte(bytes[k]);
}

/// From the document to the value: a CAN signal that a document declares with sixteen
/// bits from the first on decodes, in a payload of ones, to -1 where it is declared as
/// signed and to 65535 where it is not.
pub proof fn law_documents_decode_their_signs(
    root: crate::value::Node,
    i: int,
    j: int,
    raw: u32,
    bytes: Seq<u8>,
)
    requires
        0 <= i < crate::contents::can_entries(root).len(),
        ({
            let (key, n) = crate::contents::can_entries(root)[i];
            let catalog = crate::catalog::catalog_of(root);
            &&& key != "config"@
            &&& crate::parse::id_of(key) == Some(under_mask(id_mask(catalog), raw) as int)
            &&& crate::contents::reference_under(n, "mirror_of"@) is None
            &&& crate::contents::reference_under(n, "copy"@) is None
            &&& n.get("signals"@) matches Some(crate::value::Node::Array(items))
            &&& 0 <= j < items.len()
            &&& items[j].get("start_bit"@) == Some(crate::value::Node::Integer(0))
            &&& items[j].get("bit_length"@) == Some(crate::value::Node::Integer(16))
            &&& id_decode(catalog, raw, bytes) is Some
            &&& forall|a: int, b: int|
                0 <= a < b < catalog.frames.len() ==> (#[trigger] catalog.frames[a]).frame_id != (
                #[trigger] catalog.frames[b]).frame_id
        }),
        bytes.len() >= 2,
        forall|k: int| 0 <= k < bytes.len() ==> (#[trigger] bytes[k]) == 0xFF,
    ensures
        ({
            let n = crate::contents::can_entries(root)[i].1;
            let signal = n.get("signals"@)->Some_0->Array_0[j];
            let d = id_decode(crate::catalog::catalog_of(root), raw, bytes)->Some_0;
            d.signals[j].value == if signal.get("signed"@) == Some(
                crate::value::Node::Boolean(true),
            ) {
                -1int
            } else {
                0xFFFF
            }
        }),
{
    let (key, n) = crate::contents::can_entries(root)[i];
    let catalog = crate::catalog::catalog_of(root);
    let items = n.get("signals"@)->Some_0->Array_0;
    crate::contents::law_can_frames_are_read(root, i);
    let k = choose|k: int|
        0 <= k < catalog.frames.len() && crate::contents::is_can_frame_read_from(
            #[trigger] catalog.frames[k],
            key,
            n,
            catalog.can,
        ) && (crate::contents::reference_under(n, "mirror_of"@) is None
            && crate::contents::reference_under(n, "copy"@) is None
            ==> crate::contents::stands_alone(catalog.frames[k], n, catalog.can));
    let frame = catalog.frames[k];
    assert(frame.frame_id == under_mask(id_mask(catalog), raw));
    assert forall|m: int| 0 <= m < k implies (#[trigger] catalog.frames[m]).frame_id
        != catalog.frames[k].frame_id by {}
    law_frames_are_decoded_by_their_id(catalog, raw, bytes, k);
    let order = defaults_of(catalog, frame.protocol).0;
    assert(is_order_of(order, catalog, frame.protocol));
    assert(crate::contents::are_read_from(frame.signals, n.get("signals"@)));
    assert(crate::contents::is_read_from(frame.signals[j], items[j]));
    law_declared_signs_are_kept(catalog, frame, items[j], bytes, j, order);
}

} // verus!
