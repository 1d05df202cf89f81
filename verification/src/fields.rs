//! Granular field validators — the single source of truth for an editor's
//! per-form, save-time validation — and the check of a declared checksum against
//! real frames.

use crate::frame::{calculated_range, extract_checksum};
use crate::model::{Endianness, FrameChecksum, ValidationError};
use crate::number::is_greater;
use crate::parse::parse_id;
use crate::specification::all_algorithm_ids;
use crate::text::{
    are_digits, are_numeral, are_word, cat2, cat3, cat4, cat5, chars_of, contains_text, join,
    owned, signed_string, str_eq, strip_hex_prefix, trim_chars,
};
use crate::validate::flag;
use crate::value::Number;
use vstd::prelude::*;

verus! {

/// Whether a text is empty but for white space.
pub open spec fn is_blank(s: Seq<char>) -> bool {
    crate::text::trimmed(s).len() == 0
}

fn blank(s: &str) -> (r: bool)
    ensures
        r == is_blank(s@),
{
    let chars = chars_of(s);
    trim_chars(chars.as_slice()).len() == 0
}

/// Whether an optional name is neither of the two byte orders.
fn odd_order(name: &Option<String>) -> (r: bool)
    ensures
        r == crate::validate::is_odd_order(crate::model::opt_text(*name)),
{
    match name {
        Some(s) => !str_eq(s.as_str(), "little") && !str_eq(s.as_str(), "big"),
        None => false,
    }
}

// ---------------------------------------------------------------------------
// Meta
// ---------------------------------------------------------------------------

#[derive(Debug, Clone)]
pub struct MetaInput {
    pub name: String,
    pub version: i64,
}

/// What is found of the fields of a catalogue's identity.
pub open spec fn meta_field_findings(name: Seq<char>, version: i64) -> Seq<
    crate::model::FindingText,
> {
    crate::validate::note(is_blank(name), "meta.name"@, "Name is required"@) + crate::validate::note(
        version < 1,
        "meta.version"@,
        "Version must be at least 1"@,
    )
}

pub fn validate_meta_fields(m: &MetaInput) -> (r: Vec<ValidationError>)
    ensures
        crate::model::findings(r@) == meta_field_findings(m.name@, m.version),
{
    let mut e: Vec<ValidationError> = Vec::new();
    assert(crate::model::findings(e@) == Seq::<crate::model::FindingText>::empty());
    flag(&mut e, blank(m.name.as_str()), "meta.name", "Name is required");
    flag(&mut e, m.version < 1, "meta.version", "Version must be at least 1");
    assert(crate::model::findings(e@) == meta_field_findings(m.name@, m.version));
    e
}

// ---------------------------------------------------------------------------
// Signals
// ---------------------------------------------------------------------------

#[derive(Debug, Clone)]
pub struct SignalInput {
    pub name: String,
    pub start_bit: Option<i64>,
    pub bit_length: Option<i64>,
    pub endianness: Option<String>,
    pub min: Option<Number>,
    pub max: Option<Number>,
    pub format: Option<String>,
    /// Whether the `enum` given is a map.
    pub enum_is_map: Option<bool>,
}

/// Whether a format is a string format.
pub open spec fn is_string_format(format: Option<Seq<char>>) -> bool {
    format == Some("utf8"@) || format == Some("ascii"@) || format == Some("hex"@)
}

/// The most bits a signal may have.
pub open spec fn max_bits(format: Option<Seq<char>>) -> int {
    if is_string_format(format) {
        2048
    } else {
        64
    }
}

/// Whether an optional bit length lies outside its bounds.
pub open spec fn is_odd_length(length: Option<i64>, most: int) -> bool {
    match length {
        Some(b) => !(1 <= b <= most),
        None => true,
    }
}

/// Whether a range is upside down.
pub open spec fn is_inverted(min: Option<Number>, max: Option<Number>) -> bool {
    match (min, max) {
        (Some(min), Some(max)) => crate::number::exceeds(min, max),
        _ => false,
    }
}

/// What is found of the fields of a signal.
pub open spec fn signal_field_findings(s: SignalInput) -> Seq<crate::model::FindingText> {
    let format = crate::model::opt_text(s.format);
    crate::validate::note(is_blank(s.name@), "signal.name"@, "Name is required"@)
        + crate::validate::note(
        match s.start_bit {
            Some(b) => b < 0,
            None => true,
        },
        "signal.start_bit"@,
        "Start bit must be a non-negative integer"@,
    ) + crate::validate::note(
        is_odd_length(s.bit_length, max_bits(format)),
        "signal.bit_length"@,
        if is_string_format(format) {
            "Bit length must be an integer between 1 and 2048 for string formats"@
        } else {
            "Bit length must be an integer between 1 and 64"@
        },
    ) + crate::validate::note(
        crate::validate::is_odd_order(crate::model::opt_text(s.endianness)),
        "signal.endianness"@,
        "Endianness must be \"little\" or \"big\""@,
    ) + crate::validate::note(
        is_inverted(s.min, s.max),
        "signal.range"@,
        "Min cannot be greater than max"@,
    ) + crate::validate::note(
        s.enum_is_map == Some(false),
        "signal.enum"@,
        "Enum must be a map of string keys to string values"@,
    )
}

pub fn validate_signal_fields(s: &SignalInput) -> (r: Vec<ValidationError>)
    ensures
        crate::model::findings(r@) == signal_field_findings(*s),
{
    let mut e: Vec<ValidationError> = Vec::new();
    assert(crate::model::findings(e@) == Seq::<crate::model::FindingText>::empty());
    flag(&mut e, blank(s.name.as_str()), "signal.name", "Name is required");
    let odd_start: bool = match s.start_bit {
        Some(b) => b < 0,
        None => true,
    };
    flag(&mut e, odd_start, "signal.start_bit", "Start bit must be a non-negative integer");
    let string_format: bool = match &s.format {
        Some(f) => str_eq(f.as_str(), "utf8") || str_eq(f.as_str(), "ascii") || str_eq(
            f.as_str(),
            "hex",
        ),
        None => false,
    };
    let most: i64 = if string_format {
        2048
    } else {
        64
    };
    let odd_length: bool = match s.bit_length {
        Some(b) => !(1 <= b && b <= most),
        None => true,
    };
    let length_text: &str = if string_format {
        "Bit length must be an integer between 1 and 2048 for string formats"
    } else {
        "Bit length must be an integer between 1 and 64"
    };
    flag(&mut e, odd_length, "signal.bit_length", length_text);
    flag(
        &mut e,
        odd_order(&s.endianness),
        "signal.endianness",
        "Endianness must be \"little\" or \"big\"",
    );
    let inverted: bool = match (s.min, s.max) {
        (Some(min), Some(max)) => is_greater(min, max),
        _ => false,
    };
    flag(&mut e, inverted, "signal.range", "Min cannot be greater than max");
    let odd_enum: bool = match s.enum_is_map {
        Some(b) => !b,
        None => false,
    };
    flag(
        &mut e,
        odd_enum,
        "signal.enum",
        "Enum must be a map of string keys to string values",
    );
    assert(crate::model::findings(e@) == signal_field_findings(*s));
    e
}

// ---------------------------------------------------------------------------
// Checksums
// ---------------------------------------------------------------------------

#[derive(Debug, Clone)]
pub struct ChecksumInput {
    pub name: String,
    pub algorithm: String,
    pub start_byte: Option<i64>,
    pub byte_length: Option<i64>,
    pub endianness: Option<String>,
    pub calc_start_byte: Option<i64>,
    pub calc_end_byte: Option<i64>,
    /// How many bytes the frame has; 256 where it is not known.
    pub frame_length: i64,
}

/// A possibly-negative byte index resolved against a frame length (`-1` → last
/// byte).
pub open spec fn resolved_byte(index: int, frame_length: int) -> int {
    if index >= 0 {
        index
    } else if frame_length + index >= 0 {
        frame_length + index
    } else {
        0
    }
}

fn resolve_byte(index: i64, frame_length: i64) -> (r: i128)
    ensures
        r == resolved_byte(index as int, frame_length as int),
        0 <= r <= 0x7FFF_FFFF_FFFF_FFFF,
{
    let back: i128 = frame_length as i128 + index as i128;
    if index >= 0 {
        index as i128
    } else if back >= 0 {
        back
    } else {
        0
    }
}

/// What is found of the position of a checksum.
pub open spec fn start_findings(start: Option<i64>, length: int) -> Seq<
    crate::model::FindingText,
> {
    match start {
        None => crate::validate::note(
            true,
            "checksum.start_byte"@,
            "Start byte must be an integer"@,
        ),
        Some(sb) => crate::validate::note(
            resolved_byte(sb as int, length) >= length,
            "checksum.start_byte"@,
            if sb < 0 {
                "Start byte "@ + crate::text::signed_decimal(sb as int) + " resolves to "@
                    + crate::text::signed_decimal(resolved_byte(sb as int, length))
                    + ", which is out of range [0, "@ + crate::text::signed_decimal(length - 1)
                    + "]"@
            } else {
                "Start byte must be less than frame length ("@ + crate::text::signed_decimal(length)
                    + ")"@
            },
        ),
    }
}

/// What is found of a checksum that overruns its frame.
pub open spec fn overrun_findings(start: Option<i64>, bytes: int, length: int) -> Seq<
    crate::model::FindingText,
> {
    match start {
        None => Seq::empty(),
        Some(sb) => crate::validate::note(
            resolved_byte(sb as int, length) + bytes > length,
            "checksum.start_byte"@,
            "Checksum position (byte "@ + crate::text::signed_decimal(
                resolved_byte(sb as int, length),
            ) + " + "@ + crate::text::signed_decimal(bytes) + ") exceeds frame length ("@
                + crate::text::signed_decimal(length) + ")"@,
        ),
    }
}

/// What is found of the start of a calculation range.
pub open spec fn calc_start_findings(start: Option<i64>, length: int) -> Seq<
    crate::model::FindingText,
> {
    match start {
        None => crate::validate::note(
            true,
            "checksum.calc_start_byte"@,
            "Calculation start byte must be an integer"@,
        ),
        Some(cs) => crate::validate::note(
            resolved_byte(cs as int, length) >= length,
            "checksum.calc_start_byte"@,
            if cs < 0 {
                "Calculation start byte "@ + crate::text::signed_decimal(cs as int)
                    + " resolves to "@ + crate::text::signed_decimal(
                    resolved_byte(cs as int, length),
                ) + ", which is out of range"@
            } else {
                "Calculation start byte must be within frame bounds"@
            },
        ),
    }
}

/// What is found of the end of a calculation range.
pub open spec fn calc_end_findings(end: Option<i64>, length: int) -> Seq<
    crate::model::FindingText,
> {
    match end {
        None => crate::validate::note(
            true,
            "checksum.calc_end_byte"@,
            "Calculation end byte must be an integer"@,
        ),
        Some(ce) => crate::validate::note(
            !(1 <= resolved_byte(ce as int, length) <= length),
            "checksum.calc_end_byte"@,
            if ce < 0 {
                "Calculation end byte "@ + crate::text::signed_decimal(ce as int)
                    + " resolves to "@ + crate::text::signed_decimal(
                    resolved_byte(ce as int, length),
                ) + ", which is out of range"@
            } else {
                "Calculation end byte ("@ + crate::text::signed_decimal(ce as int)
                    + ") exceeds frame length ("@ + crate::text::signed_decimal(length) + ")"@
            },
        ),
    }
}

/// What is found of a calculation range as a whole.
pub open spec fn calc_range_findings(start: Option<i64>, end: Option<i64>, length: int) -> Seq<
    crate::model::FindingText,
> {
    match (start, end) {
        (Some(cs), Some(ce)) => crate::validate::note(
            resolved_byte(cs as int, length) >= resolved_byte(ce as int, length),
            "checksum.calc_range"@,
            "Calculation range is invalid: start ("@ + crate::text::signed_decimal(
                resolved_byte(cs as int, length),
            ) + ") must be less than end ("@ + crate::text::signed_decimal(
                resolved_byte(ce as int, length),
            ) + ")"@,
        ),
        _ => Seq::empty(),
    }
}

/// What is found of the fields of a checksum.
pub open spec fn checksum_field_findings(c: ChecksumInput) -> Seq<crate::model::FindingText> {
    let length = c.frame_length as int;
    let bytes = crate::model::or_else(c.byte_length, 0) as int;
    crate::validate::note(is_blank(c.name@), "checksum.name"@, "Name is required"@)
        + crate::validate::note(
        !crate::specification::declared_ids().contains(c.algorithm@),
        "checksum.algorithm"@,
        "Algorithm must be one of: "@ + crate::text::joined(crate::specification::declared_ids()),
    ) + start_findings(c.start_byte, length) + crate::validate::note(
        !(1 <= bytes <= 4),
        "checksum.byte_length"@,
        "Byte length must be an integer between 1 and 4"@,
    ) + overrun_findings(c.start_byte, bytes, length) + crate::validate::note(
        crate::validate::is_odd_order(crate::model::opt_text(c.endianness)),
        "checksum.endianness"@,
        "Endianness must be \"little\" or \"big\""@,
    ) + calc_start_findings(c.calc_start_byte, length) + calc_end_findings(
        c.calc_end_byte,
        length,
    ) + calc_range_findings(c.calc_start_byte, c.calc_end_byte, length)
}

/// The algorithm ids a catalogue may declare.
///
/// Owned by [`crate::specification`], beside the specification they serialise.
pub fn checksum_algorithm_ids() -> (r: Vec<String>)
    ensures
        crate::text::texts(r@) == crate::specification::declared_ids(),
{
    let ids = all_algorithm_ids();
    let ghost all = crate::specification::declared_ids();
    let mut out: Vec<String> = Vec::new();
    for i in 0..ids.len()
        invariant
            all == crate::specification::str_views(ids@),
            crate::text::texts(out@) == all.take(i as int),
    {
        let ghost before = crate::text::texts(out@);
        out.push(owned(ids[i]));
        assert(all[i as int] == ids@[i as int]@);
        assert(crate::text::texts(out@) == before.push(all[i as int]));
        assert(all.take(i + 1) == all.take(i as int).push(all[i as int]));
    }
    assert(all.take(all.len() as int) == all);
    out
}

fn flag_start(e: &mut Vec<ValidationError>, start: Option<i64>, frame_length: i64)
    ensures
        crate::model::findings(final(e)@) == crate::model::findings(old(e)@) + start_findings(
            start,
            frame_length as int,
        ),
{
    let sb: i64 = match start {
        Some(sb) => sb,
        None => {
            flag(e, true, "checksum.start_byte", "Start byte must be an integer");
            return;
        },
    };
    let at: i128 = resolve_byte(sb, frame_length);
    let message: String = if sb < 0 {
        let given = signed_string(sb as i128);
        let place = signed_string(at);
        let last = signed_string(frame_length as i128 - 1);
        let head = cat4("Start byte ", given.as_str(), " resolves to ", place.as_str());
        cat4(head.as_str(), ", which is out of range [0, ", last.as_str(), "]")
    } else {
        let whole = signed_string(frame_length as i128);
        cat3("Start byte must be less than frame length (", whole.as_str(), ")")
    };
    flag(e, at >= frame_length as i128, "checksum.start_byte", message.as_str());
}

fn flag_overrun(e: &mut Vec<ValidationError>, start: Option<i64>, bytes: i64, frame_length: i64)
    ensures
        crate::model::findings(final(e)@) == crate::model::findings(old(e)@) + overrun_findings(
            start,
            bytes as int,
            frame_length as int,
        ),
{
    let ghost before = crate::model::findings(e@);
    assert(before + Seq::<crate::model::FindingText>::empty() == before);
    if let Some(sb) = start {
        let at: i128 = resolve_byte(sb, frame_length);
        let place = signed_string(at);
        let count = signed_string(bytes as i128);
        let whole = signed_string(frame_length as i128);
        let head = cat4("Checksum position (byte ", place.as_str(), " + ", count.as_str());
        let message = cat4(head.as_str(), ") exceeds frame length (", whole.as_str(), ")");
        flag(
            e,
            at + bytes as i128 > frame_length as i128,
            "checksum.start_byte",
            message.as_str(),
        );
    }
}

fn flag_calc_start(e: &mut Vec<ValidationError>, start: Option<i64>, frame_length: i64)
    ensures
        crate::model::findings(final(e)@) == crate::model::findings(old(e)@) + calc_start_findings(
            start,
            frame_length as int,
        ),
{
    let cs: i64 = match start {
        Some(cs) => cs,
        None => {
            flag(
                e,
                true,
                "checksum.calc_start_byte",
                "Calculation start byte must be an integer",
            );
            return;
        },
    };
    let at: i128 = resolve_byte(cs, frame_length);
    let message: String = if cs < 0 {
        let given = signed_string(cs as i128);
        let place = signed_string(at);
        cat5(
            "Calculation start byte ",
            given.as_str(),
            " resolves to ",
            place.as_str(),
            ", which is out of range",
        )
    } else {
        owned("Calculation start byte must be within frame bounds")
    };
    flag(e, at >= frame_length as i128, "checksum.calc_start_byte", message.as_str());
}

fn flag_calc_end(e: &mut Vec<ValidationError>, end: Option<i64>, frame_length: i64)
    ensures
        crate::model::findings(final(e)@) == crate::model::findings(old(e)@) + calc_end_findings(
            end,
            frame_length as int,
        ),
{
    let ce: i64 = match end {
        Some(ce) => ce,
        None => {
            flag(e, true, "checksum.calc_end_byte", "Calculation end byte must be an integer");
            return;
        },
    };
    let at: i128 = resolve_byte(ce, frame_length);
    let given = signed_string(ce as i128);
    let message: String = if ce < 0 {
        let place = signed_string(at);
        cat5(
            "Calculation end byte ",
            given.as_str(),
            " resolves to ",
            place.as_str(),
            ", which is out of range",
        )
    } else {
        let whole = signed_string(frame_length as i128);
        cat5(
            "Calculation end byte (",
            given.as_str(),
            ") exceeds frame length (",
            whole.as_str(),
            ")",
        )
    };
    flag(
        e,
        at < 1 || at > frame_length as i128,
        "checksum.calc_end_byte",
        message.as_str(),
    );
}

fn flag_calc_range(
    e: &mut Vec<ValidationError>,
    start: Option<i64>,
    end: Option<i64>,
    frame_length: i64,
)
    ensures
        crate::model::findings(final(e)@) == crate::model::findings(old(e)@) + calc_range_findings(
            start,
            end,
            frame_length as int,
        ),
{
    let ghost before = crate::model::findings(e@);
    assert(before + Seq::<crate::model::FindingText>::empty() == before);
    if let (Some(cs), Some(ce)) = (start, end) {
        let from: i128 = resolve_byte(cs, frame_length);
        let to: i128 = resolve_byte(ce, frame_length);
        let first = signed_string(from);
        let last = signed_string(to);
        let message = cat5(
            "Calculation range is invalid: start (",
            first.as_str(),
            ") must be less than end (",
            last.as_str(),
            ")",
        );
        flag(e, from >= to, "checksum.calc_range", message.as_str());
    }
}

pub fn validate_checksum_fields(c: &ChecksumInput) -> (r: Vec<ValidationError>)
    ensures
        crate::model::findings(r@) == checksum_field_findings(*c),
{
    let mut e: Vec<ValidationError> = Vec::new();
    assert(crate::model::findings(e@) == Seq::<crate::model::FindingText>::empty());
    flag(&mut e, blank(c.name.as_str()), "checksum.name", "Name is required");
    let ids = checksum_algorithm_ids();
    let known: bool = contains_text(ids.as_slice(), c.algorithm.as_str());
    let list = join(ids.as_slice());
    let message = cat2("Algorithm must be one of: ", list.as_str());
    flag(&mut e, !known, "checksum.algorithm", message.as_str());
    // start_byte (supports negative indexing).
    flag_start(&mut e, c.start_byte, c.frame_length);
    let byte_length: i64 = match c.byte_length {
        Some(b) => b,
        None => 0,
    };
    flag(
        &mut e,
        !(1 <= byte_length && byte_length <= 4),
        "checksum.byte_length",
        "Byte length must be an integer between 1 and 4",
    );
    // Fits in frame (resolved start + length).
    flag_overrun(&mut e, c.start_byte, byte_length, c.frame_length);
    flag(
        &mut e,
        odd_order(&c.endianness),
        "checksum.endianness",
        "Endianness must be \"little\" or \"big\"",
    );
    // calc range (supports negative indexing).
    flag_calc_start(&mut e, c.calc_start_byte, c.frame_length);
    flag_calc_end(&mut e, c.calc_end_byte, c.frame_length);
    flag_calc_range(&mut e, c.calc_start_byte, c.calc_end_byte, c.frame_length);
    assert(crate::model::findings(e@) == checksum_field_findings(*c));
    e
}

// ---------------------------------------------------------------------------
// Verification against frames
// ---------------------------------------------------------------------------

/// How well a declared checksum reproduces real frames.
#[derive(Debug, Clone, Copy, PartialEq, Eq, Structural)]
pub struct ChecksumVerification {
    /// Frames the declaration reproduced.
    pub matched: usize,
    /// Frames it was measured against. Frames that cannot carry the checksum, or
    /// leave nothing to calculate over, are excluded rather than counted as
    /// failures — one bare acknowledgement sharing a link must not condemn the
    /// declaration.
    pub total: usize,
}

impl ChecksumVerification {
    /// Whether every frame it was measured against was reproduced, and there was
    /// one.
    pub open spec fn all_matched(self) -> bool {
        self.total > 0 && self.matched == self.total
    }

    pub fn holds(&self) -> (r: bool)
        ensures
            r == self.all_matched(),
    {
        self.total > 0 && self.matched == self.total
    }
}

/// Where the calculation range of a declaration ends.
pub open spec fn calc_end_of(c: crate::model::FrameChecksumView) -> i32 {
    crate::model::or_else(c.calc_end_byte, c.start_byte)
}

/// Whether a frame can carry a declared checksum and leaves something to
/// calculate over.
pub open spec fn carries(c: crate::model::FrameChecksumView, frame: Seq<u8>) -> bool {
    crate::frame::field_fits(frame.len() as int, c.start_byte as int, c.byte_length as int)
        && crate::frame::bounded(c.calc_start_byte as int, frame.len() as int)
        < crate::frame::bounded(calc_end_of(c) as int, frame.len() as int)
}

/// Whether a declaration reproduces the checksum that a frame stores.
pub open spec fn reproduces(
    c: crate::model::FrameChecksumView,
    specification: crate::specification::SpecificationView,
    frame: Seq<u8>,
) -> bool {
    specification.value(
        crate::frame::covered(frame, c.calc_start_byte as int, calc_end_of(c) as int),
    ) == crate::frame::stored_checksum(
        frame,
        c.start_byte as int,
        c.byte_length as int,
        c.endianness != Some(Endianness::Little),
    )
}

/// How many frames a declaration is measured against.
pub open spec fn carrying(c: crate::model::FrameChecksumView, frames: Seq<Seq<u8>>) -> int
    decreases frames.len(),
{
    if frames.len() == 0 {
        0
    } else {
        carrying(c, frames.drop_last()) + if carries(c, frames.last()) {
            1int
        } else {
            0
        }
    }
}

/// How many of those it reproduces.
pub open spec fn reproduced(
    c: crate::model::FrameChecksumView,
    specification: crate::specification::SpecificationView,
    frames: Seq<Seq<u8>>,
) -> int
    decreases frames.len(),
{
    if frames.len() == 0 {
        0
    } else {
        reproduced(c, specification, frames.drop_last()) + if carries(c, frames.last())
            && reproduces(c, specification, frames.last()) {
            1int
        } else {
            0
        }
    }
}

/// Frames as byte sequences.
pub open spec fn frame_bytes(frames: Seq<Vec<u8>>) -> Seq<Seq<u8>> {
    frames.map_values(|f: Vec<u8>| f@)
}

/// Check a declared checksum against real frames.
///
/// A catalogue's declaration is evaluated by the engine that discovers
/// checksums, rather than by a second implementation that can disagree with it.
///
/// It goes through [`FrameChecksum::specification`] rather than the algorithm id,
/// and that distinction is the whole point — a sum with a constant offset is
/// stored as `sum8` with the offset beside it, so a verifier reading only the id
/// would reproduce a *different* checksum and report a correct declaration as
/// completely broken.
///
/// `None` when the declaration is not coherent enough to evaluate: an unknown
/// algorithm, or a `crc_custom` missing its polynomial.
pub fn verify_frame_checksum(declared: &FrameChecksum, frames: &[Vec<u8>]) -> (r: Option<
    ChecksumVerification,
>)
    requires
        declared@.is_countable(),
    ensures
        match declared@.describes() {
            Some(specification) => r matches Some(v) && v.total == carrying(
                declared@,
                frame_bytes(frames@),
            ) && v.matched == reproduced(declared@, specification, frame_bytes(frames@)),
            None => r is None,
        },
{
    let specification = match declared.specification() {
        Some(specification) => specification,
        None => {
            return None;
        },
    };
    let big_endian: bool = match declared.endianness {
        Some(e) => e != Endianness::Little,
        None => true,
    };
    let byte_length: usize = declared.byte_length as usize;
    let calc_end: i32 = match declared.calc_end_byte {
        Some(end) => end,
        None => declared.start_byte,
    };
    let ghost all = frame_bytes(frames@);
    let mut matched: usize = 0;
    let mut total: usize = 0;
    for i in 0..frames.len()
        invariant
            all == frame_bytes(frames@),
            all.len() == frames@.len(),
            declared@.describes() == Some(specification@),
            big_endian == (declared.endianness != Some(Endianness::Little)),
            byte_length == declared.byte_length,
            calc_end == calc_end_of(declared@),
            matched <= total <= i,
            total == carrying(declared@, all.take(i as int)),
            matched == reproduced(declared@, specification@, all.take(i as int)),
    {
        assert(all.take(i + 1).drop_last() == all.take(i as int));
        assert(all.take(i + 1).last() == frames@[i as int]@);
        let frame = frames[i].as_slice();
        if let Some((from, to)) = calculated_range(
            frame.len(),
            declared.start_byte,
            byte_length,
            declared.calc_start_byte,
            calc_end,
        ) {
            total = total + 1;
            let expected: u16 = extract_checksum(
                frame,
                declared.start_byte,
                byte_length,
                big_endian,
            );
            if specification.calculate(vstd::slice::slice_subrange(frame, from, to)) == expected {
                matched = matched + 1;
            }
        }
    }
    assert(all.take(all.len() as int) == all);
    Some(ChecksumVerification { matched, total })
}

/// A declaration holds of frames exactly when one of them can carry it and it
/// reproduces every one that can; frames that cannot carry it never count
/// against it.
pub proof fn law_a_declaration_holds_when_every_carrier_is_reproduced(
    c: crate::model::FrameChecksumView,
    specification: crate::specification::SpecificationView,
    frames: Seq<Seq<u8>>,
)
    ensures
        0 <= reproduced(c, specification, frames) <= carrying(c, frames) <= frames.len(),
        reproduced(c, specification, frames) == carrying(c, frames) <==> forall|i: int|
            0 <= i < frames.len() && carries(c, #[trigger] frames[i]) ==> reproduces(
                c,
                specification,
                frames[i],
            ),
        carrying(c, frames) > 0 <==> exists|i: int|
            0 <= i < frames.len() && carries(c, #[trigger] frames[i]),
    decreases frames.len(),
{
    if frames.len() > 0 {
        let before = frames.drop_last();
        law_a_declaration_holds_when_every_carrier_is_reproduced(c, specification, before);
        assert(forall|i: int| 0 <= i < before.len() ==> #[trigger] before[i] == frames[i]);
        assert(frames[frames.len() - 1] == frames.last());
        if reproduced(c, specification, frames) == carrying(c, frames) {
            assert forall|i: int| 0 <= i < frames.len() && carries(
                c,
                #[trigger] frames[i],
            ) implies reproduces(c, specification, frames[i]) by {
                if i < before.len() {
                    assert(before[i] == frames[i]);
                }
            }
        } else {
            if reproduced(c, specification, before) != carrying(c, before) {
                let i = choose|i: int|
                    0 <= i < before.len() && carries(c, #[trigger] before[i]) && !reproduces(
                        c,
                        specification,
                        before[i],
                    );
                assert(carries(c, frames[i]) && !reproduces(c, specification, frames[i]));
            } else {
                let i = frames.len() - 1;
                assert(carries(c, frames[i]) && !reproduces(c, specification, frames[i]));
            }
        }
        if carrying(c, before) > 0 {
            let i = choose|i: int| 0 <= i < before.len() && carries(c, #[trigger] before[i]);
            assert(carries(c, frames[i]));
        }
        if exists|i: int| 0 <= i < frames.len() && carries(c, #[trigger] frames[i]) {
            let i = choose|i: int| 0 <= i < frames.len() && carries(c, #[trigger] frames[i]);
            if i < before.len() {
                assert(carries(c, before[i]));
            }
        }
    }
}

// ---------------------------------------------------------------------------
// Frames (common + protocol config)
// ---------------------------------------------------------------------------

#[derive(Debug, Clone)]
pub struct FrameInput {
    pub protocol: String,
    /// Identity: CAN id, serial frame_id, or the Modbus table key.
    pub key: String,
    pub length: Option<i64>,
    pub transmitter: Option<String>,
    pub interval: Option<i64>,
    pub max_length: Option<i64>,
    // CAN
    pub extended: Option<bool>,
    // Modbus
    pub register_number: Option<i64>,
    pub device_address: Option<i64>,
    pub register_type: Option<String>,
    pub register_base: Option<i64>,
    /// The device (slave) address a register is read from; matched to a node.
    pub node_address: Option<i64>,
    // Serial
    pub delimiter: Option<Vec<i64>>,
    // Context
    pub existing_keys: Vec<String>,
    pub original_key: Option<String>,
    pub available_peers: Vec<String>,
}

/// A frame with nothing filled in.
pub open spec fn blank_frame() -> FrameFields {
    FrameFields {
        protocol: Seq::empty(),
        key: Seq::empty(),
        length: None,
        transmitter: None,
        interval: None,
        max_length: None,
        extended: None,
        register_number: None,
        register_type: None,
        register_base: None,
        node_address: None,
        delimiter: None,
        existing_keys: Seq::empty(),
        original_key: None,
        available_peers: Seq::empty(),
    }
}

impl Default for FrameInput {
    fn default() -> (r: Self)
        ensures
            r@ == blank_frame(),
    {
        let existing_keys: Vec<String> = Vec::new();
        let available_peers: Vec<String> = Vec::new();
        assert(crate::text::texts(existing_keys@) == Seq::<Seq<char>>::empty());
        assert(crate::text::texts(available_peers@) == Seq::<Seq<char>>::empty());
        FrameInput {
            protocol: String::new(),
            key: String::new(),
            length: None,
            transmitter: None,
            interval: None,
            max_length: None,
            extended: None,
            register_number: None,
            device_address: None,
            register_type: None,
            register_base: None,
            node_address: None,
            delimiter: None,
            existing_keys,
            original_key: None,
            available_peers,
        }
    }
}

/// The fields of a frame that are checked, as a mathematical value.
#[verifier::ext_equal]
pub struct FrameFields {
    pub protocol: Seq<char>,
    pub key: Seq<char>,
    pub length: Option<i64>,
    pub transmitter: Option<Seq<char>>,
    pub interval: Option<i64>,
    pub max_length: Option<i64>,
    pub extended: Option<bool>,
    pub register_number: Option<i64>,
    pub register_type: Option<Seq<char>>,
    pub register_base: Option<i64>,
    pub node_address: Option<i64>,
    pub delimiter: Option<Seq<i64>>,
    pub existing_keys: Seq<Seq<char>>,
    pub original_key: Option<Seq<char>>,
    pub available_peers: Seq<Seq<char>>,
}

impl View for FrameInput {
    type V = FrameFields;

    open spec fn view(&self) -> FrameFields {
        FrameFields {
            protocol: self.protocol@,
            key: self.key@,
            length: self.length,
            transmitter: crate::model::opt_text(self.transmitter),
            interval: self.interval,
            max_length: self.max_length,
            extended: self.extended,
            register_number: self.register_number,
            register_type: crate::model::opt_text(self.register_type),
            register_base: self.register_base,
            node_address: self.node_address,
            delimiter: match self.delimiter {
                Some(d) => Some(d@),
                None => None,
            },
            existing_keys: crate::text::texts(self.existing_keys@),
            original_key: crate::model::opt_text(self.original_key),
            available_peers: crate::text::texts(self.available_peers@),
        }
    }
}

/// Whether a text is a hexadecimal id.
pub open spec fn is_hex_text(s: Seq<char>) -> bool {
    match crate::text::after_hex_prefix(s) {
        Some(digits) => crate::text::is_numeral(digits, 16),
        None => false,
    }
}

/// Whether a text is an identifier: a letter or an underscore, then letters,
/// digits and underscores.
pub open spec fn is_identifier_text(s: Seq<char>) -> bool {
    s.len() > 0 && (crate::text::is_letter(s[0]) || s[0] == '_') && crate::text::all_word(s)
}

fn is_hex_id(s: &[char]) -> (r: bool)
    ensures
        r == is_hex_text(s@),
{
    match strip_hex_prefix(s) {
        Some(digits) => are_numeral(digits.as_slice(), 16),
        None => false,
    }
}

fn is_identifier(s: &[char]) -> (r: bool)
    ensures
        r == is_identifier_text(s@),
{
    s.len() > 0 && (('a' <= s[0] && s[0] <= 'z') || ('A' <= s[0] && s[0] <= 'Z') || s[0] == '_')
        && are_word(s)
}

/// Whether a number is a byte.
pub open spec fn is_byte(n: i64) -> bool {
    0 <= n <= 255
}

impl FrameFields {
    /// The most bytes the frame may have.
    pub open spec fn most(self) -> i64 {
        crate::model::or_else(self.max_length, 64)
    }

    /// Whether a transmitter is named that is none of the known peers.
    pub open spec fn has_unknown_peer(self) -> bool {
        self.transmitter matches Some(tx) && tx.len() > 0 && self.available_peers.len() > 0
            && !self.available_peers.contains(tx)
    }

    /// Whether a key is taken by another frame.
    pub open spec fn is_taken(self, id: Seq<char>) -> bool {
        self.original_key != Some(id) && self.existing_keys.contains(id)
    }

    /// What is found of the fields every frame has.
    pub open spec fn common_findings(self) -> Seq<crate::model::FindingText> {
        crate::validate::note(
            self.length matches Some(len) && (len < 0 || len > self.most()),
            "length"@,
            "Length must be between 0 and "@ + crate::text::signed_decimal(self.most() as int),
        ) + crate::validate::note(
            self.interval matches Some(iv) && iv < 0,
            "interval"@,
            "Interval must be >= 0"@,
        ) + crate::validate::note(
            self.has_unknown_peer(),
            "transmitter"@,
            "Transmitter must be one of the known peers ("@ + crate::text::joined(
                self.available_peers,
            ) + ")"@,
        )
    }

    /// Whether a CAN id counts as extended: as set, else by its width.
    pub open spec fn counts_as_extended(self, num: int) -> bool {
        crate::model::or_else(self.extended, num > 0x7ff)
    }

    /// Whether a CAN id is too large for its kind.
    pub open spec fn is_too_large(self, id: Seq<char>) -> bool {
        (is_hex_text(id) || crate::text::all_digits(id)) && (crate::parse::id_of(
            id,
        ) matches Some(num) && num > if self.counts_as_extended(num) {
            0x1FFF_FFFFint
        } else {
            0x7FFint
        })
    }

    /// What is found of a CAN frame's id.
    pub open spec fn can_findings(self) -> Seq<crate::model::FindingText> {
        let id = crate::text::trimmed(self.key);
        if id.len() == 0 {
            crate::validate::note(true, "id"@, "ID is required"@)
        } else {
            crate::validate::note(
                !is_hex_text(id) && !crate::text::all_digits(id),
                "id"@,
                "ID must be hex (e.g., \"0x123\") or decimal (e.g., \"291\")"@,
            ) + crate::validate::note(
                self.is_too_large(id),
                "id"@,
                if self.counts_as_extended(crate::model::or_else(crate::parse::id_of(id), 0)) {
                    "Extended ID must be 0-536870911 (0x1FFFFFFF)"@
                } else {
                    "Standard ID must be 0-2047 (0x7FF)"@
                },
            ) + crate::validate::note(
                self.is_taken(id),
                "id"@,
                "CAN frame with ID "@ + id + " already exists"@,
            )
        }
    }

    /// What is found of a Modbus frame's fields.
    pub open spec fn modbus_findings(self) -> Seq<crate::model::FindingText> {
        crate::validate::note(
            self.register_number matches Some(reg) && !(0 <= reg <= 65535),
            "register_number"@,
            "Register number must be 0-65535"@,
        ) + crate::validate::note(
            self.node_address matches Some(a) && !(1 <= a <= 247),
            "node_address"@,
            "Slave address must be between 1 and 247"@,
        ) + crate::validate::note(
            self.register_type matches Some(rt) && crate::model::register_type_named(rt) is None,
            "register_type"@,
            "Register type must be: holding, input, coil, or discrete"@,
        ) + crate::validate::note(
            self.register_base matches Some(rb) && rb != 0 && rb != 1,
            "register_base"@,
            "Register base must be 0 or 1"@,
        ) + crate::validate::note(
            crate::parse::id_of(self.key) is None && self.register_number is None,
            "register_number"@,
            "Name isn't a register — enter a register number, or name the frame by its register (e.g. 2581 or 0x32F9)."@,
        )
    }

    /// Whether a delimiter holds a number that is no byte.
    pub open spec fn has_odd_delimiter(self) -> bool {
        self.delimiter matches Some(d) && exists|i: int|
            0 <= i < d.len() && !is_byte(#[trigger] d[i])
    }

    /// What is found of a serial frame's fields.
    pub open spec fn serial_findings(self) -> Seq<crate::model::FindingText> {
        let id = crate::text::trimmed(self.key);
        crate::validate::note(
            id.len() == 0,
            "frame_id"@,
            "Frame identifier is required"@,
        ) + crate::validate::note(
            id.len() > 0 && !is_hex_text(id) && !crate::text::all_digits(id)
                && !is_identifier_text(id),
            "frame_id"@,
            "Frame identifier must be hex like \"0x123\", a decimal number, or a valid identifier"@,
        ) + crate::validate::note(
            id.len() > 0 && self.is_taken(id),
            "frame_id"@,
            "Serial frame \""@ + id + "\" already exists"@,
        ) + crate::validate::note(
            self.has_odd_delimiter(),
            "delimiter"@,
            "Delimiter bytes must be integers 0-255"@,
        )
    }

    /// What is found of the fields of a frame.
    pub open spec fn findings(self) -> Seq<crate::model::FindingText> {
        self.common_findings() + if self.protocol == "can"@ {
            self.can_findings()
        } else if self.protocol == "modbus"@ {
            self.modbus_findings()
        } else if self.protocol == "serial"@ {
            self.serial_findings()
        } else {
            crate::validate::note(true, "protocol"@, "Unknown protocol: "@ + self.protocol)
        }
    }
}

fn flag_common(e: &mut Vec<ValidationError>, f: &FrameInput)
    ensures
        crate::model::findings(final(e)@) == crate::model::findings(old(e)@)
            + f@.common_findings(),
{
    let ghost start = crate::model::findings(e@);
    let most: i64 = match f.max_length {
        Some(m) => m,
        None => 64,
    };
    let odd_length: bool = match f.length {
        Some(len) => len < 0 || len > most,
        None => false,
    };
    let digits = signed_string(most as i128);
    let length_text = cat2("Length must be between 0 and ", digits.as_str());
    flag(e, odd_length, "length", length_text.as_str());
    let odd_interval: bool = match f.interval {
        Some(iv) => iv < 0,
        None => false,
    };
    flag(e, odd_interval, "interval", "Interval must be >= 0");
    let unknown: bool = match &f.transmitter {
        Some(tx) => chars_of(tx.as_str()).len() > 0 && f.available_peers.len() > 0
            && !contains_text(f.available_peers.as_slice(), tx.as_str()),
        None => false,
    };
    let peers = join(f.available_peers.as_slice());
    let peer_text = cat3(
        "Transmitter must be one of the known peers (",
        peers.as_str(),
        ")",
    );
    flag(e, unknown, "transmitter", peer_text.as_str());
    assert(crate::model::findings(e@) == start + f@.common_findings());
}

fn key_is_taken(f: &FrameInput, id: &str) -> (r: bool)
    ensures
        r == f@.is_taken(id@),
{
    let own: bool = match &f.original_key {
        Some(key) => str_eq(key.as_str(), id),
        None => false,
    };
    !own && contains_text(f.existing_keys.as_slice(), id)
}

fn flag_can(e: &mut Vec<ValidationError>, f: &FrameInput)
    ensures
        crate::model::findings(final(e)@) == crate::model::findings(old(e)@) + f@.can_findings(),
{
    let ghost start = crate::model::findings(e@);
    let chars = chars_of(f.key.as_str());
    let id_chars = trim_chars(chars.as_slice());
    if id_chars.len() == 0 {
        flag(e, true, "id", "ID is required");
        return;
    }
    let id = crate::text::string_of(id_chars.as_slice());
    let shaped: bool = is_hex_id(id_chars.as_slice()) || are_digits(id_chars.as_slice());
    flag(e, !shaped, "id", "ID must be hex (e.g., \"0x123\") or decimal (e.g., \"291\")");
    let number: Option<u32> = parse_id(id.as_str());
    let num: u32 = match number {
        Some(num) => num,
        None => 0,
    };
    // Extended when explicitly set, else inferred from the id width.
    let extended: bool = match f.extended {
        Some(b) => b,
        None => num > 0x7ff,
    };
    let most: u32 = if extended {
        0x1FFF_FFFF
    } else {
        0x7FF
    };
    let range_text: &str = if extended {
        "Extended ID must be 0-536870911 (0x1FFFFFFF)"
    } else {
        "Standard ID must be 0-2047 (0x7FF)"
    };
    flag(e, shaped && number.is_some() && num > most, "id", range_text);
    let taken = cat3("CAN frame with ID ", id.as_str(), " already exists");
    flag(e, key_is_taken(f, id.as_str()), "id", taken.as_str());
    assert(crate::model::findings(e@) == start + f@.can_findings());
}

fn flag_modbus(e: &mut Vec<ValidationError>, f: &FrameInput)
    ensures
        crate::model::findings(final(e)@) == crate::model::findings(old(e)@)
            + f@.modbus_findings(),
{
    let ghost start = crate::model::findings(e@);
    let odd_register: bool = match f.register_number {
        Some(reg) => !(0 <= reg && reg <= 65535),
        None => false,
    };
    flag(e, odd_register, "register_number", "Register number must be 0-65535");
    // A register names its slave by address (matched to a node by
    // `device_address`). Valid Modbus slave addresses are 1-247 (0 is broadcast,
    // 248-255 reserved).
    let odd_address: bool = match f.node_address {
        Some(a) => !(1 <= a && a <= 247),
        None => false,
    };
    flag(e, odd_address, "node_address", "Slave address must be between 1 and 247");
    let odd_type: bool = match &f.register_type {
        Some(rt) => crate::model::parse_register_type(rt.as_str()).is_none(),
        None => false,
    };
    flag(
        e,
        odd_type,
        "register_type",
        "Register type must be: holding, input, coil, or discrete",
    );
    let odd_base: bool = match f.register_base {
        Some(rb) => rb != 0 && rb != 1,
        None => false,
    };
    flag(e, odd_base, "register_base", "Register base must be 0 or 1");
    // Register comes from a numeric key OR an explicit register_number.
    flag(
        e,
        parse_id(f.key.as_str()).is_none() && f.register_number.is_none(),
        "register_number",
        "Name isn't a register — enter a register number, or name the frame by its register (e.g. 2581 or 0x32F9).",
    );
    assert(crate::model::findings(e@) == start + f@.modbus_findings());
}

fn has_odd_delimiter(f: &FrameInput) -> (r: bool)
    ensures
        r == f@.has_odd_delimiter(),
{
    if let Some(d) = &f.delimiter {
        for i in 0..d.len()
            invariant
                f@.delimiter == Some(d@),
                forall|j: int| 0 <= j < i ==> is_byte(#[trigger] d@[j]),
        {
            if d[i] < 0 || d[i] > 255 {
                let ghost all = f@.delimiter->Some_0;
                assert(all[i as int] == d@[i as int]);
                assert(f@.has_odd_delimiter());
                return true;
            }
        }
    }
    false
}

fn flag_serial(e: &mut Vec<ValidationError>, f: &FrameInput)
    ensures
        crate::model::findings(final(e)@) == crate::model::findings(old(e)@)
            + f@.serial_findings(),
{
    let ghost start = crate::model::findings(e@);
    let chars = chars_of(f.key.as_str());
    let id_chars = trim_chars(chars.as_slice());
    let id = crate::text::string_of(id_chars.as_slice());
    let empty: bool = id_chars.len() == 0;
    flag(e, empty, "frame_id", "Frame identifier is required");
    let shaped: bool = is_hex_id(id_chars.as_slice()) || are_digits(id_chars.as_slice())
        || is_identifier(id_chars.as_slice());
    flag(
        e,
        !empty && !shaped,
        "frame_id",
        "Frame identifier must be hex like \"0x123\", a decimal number, or a valid identifier",
    );
    let taken = cat3("Serial frame \"", id.as_str(), "\" already exists");
    flag(e, !empty && key_is_taken(f, id.as_str()), "frame_id", taken.as_str());
    flag(e, has_odd_delimiter(f), "delimiter", "Delimiter bytes must be integers 0-255");
    assert(crate::model::findings(e@) == start + f@.serial_findings());
}

pub fn validate_frame_fields(f: &FrameInput) -> (r: Vec<ValidationError>)
    ensures
        crate::model::findings(r@) == f@.findings(),
{
    let mut e: Vec<ValidationError> = Vec::new();
    assert(crate::model::findings(e@) == Seq::<crate::model::FindingText>::empty());
    flag_common(&mut e, f);
    assert(crate::model::findings(e@) == f@.common_findings());
    if str_eq(f.protocol.as_str(), "can") {
        flag_can(&mut e, f);
    } else if str_eq(f.protocol.as_str(), "modbus") {
        flag_modbus(&mut e, f);
    } else if str_eq(f.protocol.as_str(), "serial") {
        flag_serial(&mut e, f);
    } else {
        let message = cat2("Unknown protocol: ", f.protocol.as_str());
        flag(&mut e, true, "protocol", message.as_str());
    }
    e
}

// ---------------------------------------------------------------------------
// What is accepted
// ---------------------------------------------------------------------------

/// Whether a text holds more than white space.
pub open spec fn says_something(s: Seq<char>) -> bool {
    exists|i: int| 0 <= i < s.len() && !crate::text::is_space(#[trigger] s[i])
}

proof fn lemma_blank(s: Seq<char>)
    ensures
        is_blank(s) <==> !says_something(s),
{
    crate::text::law_trimming_takes_the_white_space(s);
}

/// An identity is accepted if and only if its name says something and its version is at
/// least 1.
pub proof fn law_fine_identities_are_accepted(name: Seq<char>, version: i64)
    ensures
        meta_field_findings(name, version).len() == 0 <==> says_something(name) && version >= 1,
{
    lemma_blank(name);
}

/// A signal is accepted if and only if its name says something, its start bit is there
/// and not negative, its length is there and between 1 and 64 (2048 for text and
/// hexadecimal), its byte order is one of the two or left out, its range is not upside
/// down, and its labels are a map or left out.
pub proof fn law_fine_signals_are_accepted(s: SignalInput)
    ensures
        signal_field_findings(s).len() == 0 <==> {
            let wide = s.format is Some && (s.format->Some_0@ == "utf8"@ || s.format->Some_0@
                == "ascii"@ || s.format->Some_0@ == "hex"@);
            &&& says_something(s.name@)
            &&& s.start_bit matches Some(b)
            &&& b >= 0
            &&& s.bit_length matches Some(n)
            &&& 1 <= n
            &&& n <= 2048
            &&& !wide ==> n <= 64
            &&& (s.endianness matches Some(e) ==> e@ == "little"@ || e@ == "big"@)
            &&& (s.min matches Some(min) ==> (s.max matches Some(max) ==> !crate::number::exceeds(
                min,
                max,
            )))
            &&& s.enum_is_map != Some(false)
        },
{
    lemma_blank(s.name@);
}

/// A checksum is accepted if and only if its name says something, its algorithm is one
/// that can be declared, it has between one and four bytes, and its own bytes and the
/// bytes it is calculated over lie within the frame, counted from its end where they
/// are negative, the latter not none.
pub proof fn law_fine_checksums_are_accepted(c: ChecksumInput)
    requires
        c.frame_length >= 0,
        c.start_byte matches Some(b) ==> b >= -c.frame_length,
        c.calc_start_byte matches Some(b) ==> b >= -c.frame_length,
        c.calc_end_byte matches Some(b) ==> b >= -c.frame_length,
    ensures
        checksum_field_findings(c).len() == 0 <==> {
            let length = c.frame_length as int;
            &&& says_something(c.name@)
            &&& crate::specification::declared_ids().contains(c.algorithm@)
            &&& c.byte_length matches Some(bytes)
            &&& 1 <= bytes <= 4
            &&& c.start_byte matches Some(start)
            &&& start >= 0 ==> start + bytes <= length
            &&& start < 0 ==> start + bytes <= 0
            &&& (c.endianness matches Some(e) ==> e@ == "little"@ || e@ == "big"@)
            &&& c.calc_start_byte matches Some(from)
            &&& c.calc_end_byte matches Some(to)
            &&& (if to >= 0 {
                to as int
            } else {
                length + to
            }) <= length
            &&& (if from >= 0 {
                from as int
            } else {
                length + from
            }) < (if to >= 0 {
                to as int
            } else {
                length + to
            })
        },
{
    lemma_blank(c.name@);
}

/// A frame's common fields are accepted if and only if its length, where it has one, lies
/// between 0 and the most allowed (64 where that is left out), its interval is not
/// negative, and its transmitter, where it names one and peers are known, is one of them.
pub proof fn law_fine_frames_are_accepted(f: FrameFields)
    ensures
        f.common_findings().len() == 0 <==> {
            &&& (f.length matches Some(n) ==> 0 <= n <= match f.max_length {
                Some(m) => m as int,
                None => 64,
            })
            &&& (f.interval matches Some(i) ==> i >= 0)
            &&& (f.transmitter matches Some(t) ==> t.len() == 0 || f.available_peers.len() == 0
                || f.available_peers.contains(t))
        },
        f.findings().len() == 0 ==> f.common_findings().len() == 0,
        f.findings().len() == 0 ==> f.protocol == "can"@ || f.protocol == "modbus"@ || f.protocol
            == "serial"@,
{
}

/// A CAN frame's id is accepted if and only if it is a number in hexadecimal after `0x`
/// or in decimal digits, no larger than a standard id (or an extended one, where the
/// frame is set to be extended or, unset, its id is above the standard ones), and no
/// other frame has it.
pub proof fn law_fine_can_ids_are_accepted(f: FrameFields)
    requires
        crate::text::trimmed(f.key).len() > 0,
        crate::parse::id_of(crate::text::trimmed(f.key)) is Some,
    ensures
        f.can_findings().len() == 0 <==> {
            let id = crate::text::trimmed(f.key);
            let num = crate::parse::id_of(id)->Some_0;
            &&& is_hex_text(id) || crate::text::all_digits(id)
            &&& f.extended == Some(false) ==> num <= 2047
            &&& num <= 536870911
            &&& f.existing_keys.contains(id) ==> f.original_key == Some(id)
        },
{
}

/// Without an id a CAN frame is refused.
pub proof fn law_can_frames_need_an_id(f: FrameFields)
    requires
        !says_something(f.key),
    ensures
        f.can_findings().len() == 1,
{
    lemma_blank(f.key);
}

/// A Modbus frame's fields are accepted if and only if it has a register, by number or by
/// its name, and each of its numbers lies in its range: registers up to 65535, slave
/// addresses from 1 to 247, the base 0 or 1, and its register type is one of the four.
pub proof fn law_fine_modbus_fields_are_accepted(f: FrameFields)
    ensures
        f.modbus_findings().len() == 0 <==> {
            &&& (f.register_number matches Some(n) ==> 0 <= n <= 65535)
            &&& (f.node_address matches Some(a) ==> 1 <= a <= 247)
            &&& (f.register_type matches Some(t) ==> t == "input"@ || t == "holding"@ || t
                == "coil"@ || t == "discrete"@)
            &&& (f.register_base matches Some(b) ==> b == 0 || b == 1)
            &&& f.register_number is Some || crate::parse::id_of(f.key) is Some
        },
{
}

/// A serial frame's fields are accepted if and only if its key says something, is a
/// number or an identifier, and is no other frame's, and its delimiter is made of bytes.
pub proof fn law_fine_serial_fields_are_accepted(f: FrameFields)
    ensures
        f.serial_findings().len() == 0 <==> {
            let id = crate::text::trimmed(f.key);
            &&& says_something(f.key)
            &&& is_hex_text(id) || crate::text::all_digits(id) || is_identifier_text(id)
            &&& f.existing_keys.contains(id) ==> f.original_key == Some(id)
            &&& (f.delimiter matches Some(d) ==> forall|i: int|
                0 <= i < d.len() ==> 0 <= #[trigger] d[i] <= 255)
        },
{
    lemma_blank(f.key);
    if let Some(d) = f.delimiter {
        if !f.has_odd_delimiter() {
            assert forall|i: int| 0 <= i < d.len() implies 0 <= #[trigger] d[i] <= 255 by {
                assert(is_byte(d[i]));
            }
        } else {
            let i = choose|i: int| 0 <= i < d.len() && !is_byte(#[trigger] d[i]);
            assert(!(0 <= d[i] <= 255));
        }
    }
}

} // verus!
