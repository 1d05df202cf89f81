//! Applying a checksum to a *frame*: end-relative byte addressing, reading a
//! stored checksum out of the bytes, and validating one against the other.
//!
//! Offsets are Python-style — a negative index counts from the end. Detection is
//! entirely end-relative, because that is the only way frames of different
//! lengths on one link line up.

use crate::algorithms::{calculate_checksum_simple, ChecksumAlgorithm};
use vstd::prelude::*;

verus! {

/// Where a possibly negative index lands in a frame of `length` bytes: a
/// negative one counts from the end and stops at the first byte.
pub open spec fn resolved(index: int, length: int) -> int {
    if index >= 0 {
        index
    } else if length + index >= 0 {
        length + index
    } else {
        0
    }
}

/// The same index held within the frame, as a range bound is.
pub open spec fn bounded(index: int, length: int) -> int {
    if resolved(index, length) <= length {
        resolved(index, length)
    } else {
        length
    }
}

/// The bytes a calculation range covers; empty where start is at or past end.
pub open spec fn covered(data: Seq<u8>, calc_start_byte: int, calc_end_byte: int) -> Seq<u8> {
    let start = bounded(calc_start_byte, data.len() as int);
    let end = bounded(calc_end_byte, data.len() as int);
    if start < end {
        data.subrange(start, end)
    } else {
        Seq::empty()
    }
}

/// Whether a field of `byte_length` bytes at `start_byte` lies in a frame of
/// `length` bytes.
pub open spec fn field_fits(length: int, start_byte: int, byte_length: int) -> bool {
    resolved(start_byte, length) + byte_length <= length
}

/// The checksum a frame stores: the one byte, or the first two of a longer
/// field in the given order; 0 where the field is empty or overruns the frame.
pub open spec fn stored_checksum(
    data: Seq<u8>,
    start_byte: int,
    byte_length: int,
    big_endian: bool,
) -> u16 {
    let start = resolved(start_byte, data.len() as int);
    if byte_length == 0 || !field_fits(data.len() as int, start_byte, byte_length) {
        0
    } else if byte_length == 1 {
        data[start] as u16
    } else if big_endian {
        (data[start] * 256 + data[start + 1]) as u16
    } else {
        (data[start] + data[start + 1] * 256) as u16
    }
}

/// The checksum calculated over a range of a frame; 0 for an empty range.
pub open spec fn calculated_checksum(
    algorithm: ChecksumAlgorithm,
    data: Seq<u8>,
    calc_start_byte: int,
    calc_end_byte: int,
) -> u16 {
    if covered(data, calc_start_byte, calc_end_byte).len() == 0 {
        0
    } else {
        crate::algorithms::checksum_of(algorithm, covered(data, calc_start_byte, calc_end_byte))
    }
}

/// Resolve a byte index, supporting Python-style negative indexing.
/// Negative indices count from the end: -1 = last byte, -2 = second-to-last, etc.
///
/// Saturates at 0, so an index more negative than the frame is long lands on the
/// first byte rather than wrapping.
pub fn resolve_byte_index(index: i32, frame_length: usize) -> (r: usize)
    ensures
        r == resolved(index as int, frame_length as int),
{
    if index >= 0 {
        index as usize
    } else {
        let back: u32 = (-(index as i64)) as u32;
        frame_length.saturating_sub(back as usize)
    }
}

/// `resolve_byte_index`, held within the frame.
pub fn bound_byte_index(index: i32, frame_length: usize) -> (r: usize)
    ensures
        r == bounded(index as int, frame_length as int),
        r <= frame_length,
{
    let at: usize = resolve_byte_index(index, frame_length);
    if at <= frame_length {
        at
    } else {
        frame_length
    }
}

/// The bytes a calculation range covers, as bounds into the frame, when the
/// frame can carry the checksum field and the range leaves something to
/// calculate over.
pub fn calculated_range(
    frame_length: usize,
    start_byte: i32,
    byte_length: usize,
    calc_start_byte: i32,
    calc_end_byte: i32,
) -> (r: Option<(usize, usize)>)
    ensures
        match r {
            Some(range) => {
                &&& field_fits(frame_length as int, start_byte as int, byte_length as int)
                &&& range.0 == bounded(calc_start_byte as int, frame_length as int)
                &&& range.1 == bounded(calc_end_byte as int, frame_length as int)
                &&& range.0 < range.1
            },
            None => {
                ||| !field_fits(frame_length as int, start_byte as int, byte_length as int)
                ||| bounded(calc_start_byte as int, frame_length as int) >= bounded(
                    calc_end_byte as int,
                    frame_length as int,
                )
            },
        },
{
    let at: usize = resolve_byte_index(start_byte, frame_length);
    if byte_length > frame_length || at > frame_length - byte_length {
        return None;
    }
    let start: usize = bound_byte_index(calc_start_byte, frame_length);
    let end: usize = bound_byte_index(calc_end_byte, frame_length);
    if start < end {
        Some((start, end))
    } else {
        None
    }
}

/// Result of checksum validation.
#[derive(Debug, Clone, Copy, PartialEq, Eq, Structural)]
pub struct ChecksumValidationResult {
    /// The checksum value extracted from the frame
    pub extracted: u16,
    /// The calculated checksum value
    pub calculated: u16,
    /// Whether the checksum is valid (extracted == calculated)
    pub valid: bool,
}

/// Calculate a checksum over a byte range of a frame.
///
/// `calc_end_byte` is exclusive. Both offsets support negative indexing. A
/// degenerate range (start at or past end) yields 0.
pub fn calculate_checksum(
    algorithm: ChecksumAlgorithm,
    data: &[u8],
    calc_start_byte: i32,
    calc_end_byte: i32,
) -> (r: u16)
    ensures
        r == calculated_checksum(
            algorithm,
            data@,
            calc_start_byte as int,
            calc_end_byte as int,
        ),
{
    let length: usize = data.len();
    let start: usize = bound_byte_index(calc_start_byte, length);
    let end: usize = bound_byte_index(calc_end_byte, length);
    if start >= end {
        return 0;
    }
    calculate_checksum_simple(algorithm, vstd::slice::slice_subrange(data, start, end))
}

/// Read the stored checksum value out of a frame.
///
/// Returns 0 when the field would overrun the frame. Lengths beyond 2 read only
/// the first two bytes — no supported algorithm is wider than 16 bits.
pub fn extract_checksum(
    data: &[u8],
    start_byte: i32,
    byte_length: usize,
    big_endian: bool,
) -> (r: u16)
    ensures
        r == stored_checksum(data@, start_byte as int, byte_length as int, big_endian),
{
    let length: usize = data.len();
    let start: usize = resolve_byte_index(start_byte, length);
    if byte_length == 0 || byte_length > length || start > length - byte_length {
        return 0;
    }
    if byte_length == 1 {
        data[start] as u16
    } else if big_endian {
        data[start] as u16 * 256 + data[start + 1] as u16
    } else {
        data[start] as u16 + data[start + 1] as u16 * 256
    }
}

/// Check a frame's stored checksum against a freshly calculated one.
pub fn validate_checksum(
    algorithm: ChecksumAlgorithm,
    data: &[u8],
    start_byte: i32,
    byte_length: usize,
    big_endian: bool,
    calc_start_byte: i32,
    calc_end_byte: i32,
) -> (r: ChecksumValidationResult)
    ensures
        r.extracted == stored_checksum(data@, start_byte as int, byte_length as int, big_endian),
        r.calculated == calculated_checksum(
            algorithm,
            data@,
            calc_start_byte as int,
            calc_end_byte as int,
        ),
        r.valid == (r.extracted == r.calculated),
{
    let extracted: u16 = extract_checksum(data, start_byte, byte_length, big_endian);
    let calculated: u16 = calculate_checksum(algorithm, data, calc_start_byte, calc_end_byte);
    ChecksumValidationResult { extracted, calculated, valid: extracted == calculated }
}

/// End-relative addressing lines frames of different lengths up: two frames
/// that end in the same `k` bytes store the same checksum, whatever precedes
/// those bytes, as long as the field lies within them.
pub proof fn law_end_relative_fields_ignore_length(
    a: Seq<u8>,
    b: Seq<u8>,
    k: nat,
    start_byte: int,
    byte_length: nat,
    big_endian: bool,
)
    requires
        k <= a.len(),
        k <= b.len(),
        a.skip(a.len() - k) == b.skip(b.len() - k),
        -k <= start_byte < 0,
        start_byte + byte_length <= 0,
    ensures
        stored_checksum(a, start_byte, byte_length as int, big_endian) == stored_checksum(
            b,
            start_byte,
            byte_length as int,
            big_endian,
        ),
{
    if byte_length > 0 {
        let i = k + start_byte;
        assert(a[a.len() + start_byte] == a.skip(a.len() - k)[i]);
        assert(b[b.len() + start_byte] == b.skip(b.len() - k)[i]);
        if byte_length > 1 {
            assert(a[a.len() + start_byte + 1] == a.skip(a.len() - k)[i + 1]);
            assert(b[b.len() + start_byte + 1] == b.skip(b.len() - k)[i + 1]);
        }
    }
}

/// A range from a place counted from the front to one counted from the end covers what
/// lies between them, and a negative place counts from the end.
pub proof fn law_ranges_cover_what_lies_between(data: Seq<u8>, start: int, back: int)
    requires
        0 <= start,
        0 < back,
        start + back <= data.len(),
    ensures
        covered(data, start, -back) == data.subrange(start, data.len() - back),
        covered(data, start - data.len(), -back) == data.subrange(start, data.len() - back)
            || start == data.len(),
        covered(data, start, data.len() as int) == data.subrange(start, data.len() as int),
        covered(data, data.len() as int, start).len() == 0,
{
    assert(data.subrange(start, start) =~= Seq::empty());
}

/// A checksum field is read as the byte at its place, or as the two bytes there in its
/// byte order, and as nothing where it does not lie in the frame.
pub proof fn law_stored_checksums_are_read_in_order(data: Seq<u8>, back: int)
    requires
        0 < back <= data.len(),
    ensures
        stored_checksum(data, -back, 1, true) == data[data.len() - back],
        stored_checksum(data, -back, 1, false) == data[data.len() - back],
        back >= 2 ==> stored_checksum(data, -back, 2, true) == data[data.len() - back] * 256
            + data[data.len() - back + 1],
        back >= 2 ==> stored_checksum(data, -back, 2, false) == data[data.len() - back]
            + data[data.len() - back + 1] * 256,
        back < 2 ==> stored_checksum(data, -back, 2, true) == 0,
        stored_checksum(data, data.len() - back, 1, true) == data[data.len() - back],
        stored_checksum(data, data.len() as int, 1, true) == 0,
{
}

} // verus!
