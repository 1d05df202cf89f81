//! Solving a checksum rather than searching for one.
//!
//! [`detect`](crate::detect) sweeps a fixed space of eleven named algorithms.
//! That answers "is it one of the usual ones", and most of the time it is. This
//! module answers the harder question — *what is it* — for the two families
//! where the answer can be computed instead of guessed.
//!
//! # Additive checksums are solved in one pass
//!
//! If a checksum is `sum(range) + k`, then `observed − sum(range)` is `k` for
//! every sample. Compute that residue once per sample and see whether it moves.
//! No search, no candidate list, and it finds the offset variants
//! (`sum + C`, two's complement) that a fixed algorithm list cannot express.
//!
//! # CRC `init` and `xorOut` are not search axes — they cancel
//!
//! A CRC register is affine in its initial value: after `L` bytes,
//!
//! ```text
//! R(init, m) = R(0, m) ⊕ T^{8L}(init)
//! CRC(m)     = R(init, m) ⊕ xorOut
//! ```
//!
//! so for messages of **equal length** the `init` and `xorOut` terms are one
//! constant. Define the residue
//!
//! ```text
//! K = observed ⊕ CRC(m, init = 0, xorOut = 0)
//! ```
//!
//! and a polynomial is correct exactly when `K` is the same for every sample.
//! The search collapses from `poly × init × xorOut × reflect` to
//! `poly × reflect`: 510 tests for CRC-8 and 262,140 for CRC-16.
//!
//! `(init = 0, xorOut = K)` always reproduces the data exactly, and is what this
//! module reports. It is not, however, the *only* pair that does: for
//! fixed-length payloads `init` and `xorOut` are not separately identifiable, so
//! [`CrcParameters::alternatives`] carries the conventional inits and the
//! `xorOut` each would imply. A caller must not present one of them as the
//! answer. Recovering a unique pair needs samples of two different lengths,
//! which CAN — one DLC per frame id — does not provide.

use crate::algorithms::{
    crc16_parameterised, crc8_parameterised, sum8_checksum, xor_checksum,
};
use crate::frame::{calculated_range, extract_checksum};
use rayon::iter::{IntoParallelRefIterator, ParallelIterator};
use vstd::prelude::*;

verus! {

/// Samples needed before a solution means anything. Two payloads agree on a
/// residue far too easily.
pub const MIN_SAMPLES: usize = 3;

/// Where the checksum sits and what it is calculated over. The geometry is the
/// caller's to decide — [`crate::detect`] or the identification pass upstream —
/// and this module only answers "what algorithm fits *here*".
#[derive(Debug, Clone, Copy, PartialEq, Eq, Structural)]
pub struct SolveTarget {
    /// Byte offset of the checksum; negative counts from the end.
    pub position: i32,
    pub byte_length: usize,
    pub big_endian: bool,
    pub calc_start_byte: i32,
    pub calc_end_byte: i32,
}

/// The additive families, in the order they are tried.
#[derive(Debug, Clone, Copy, PartialEq, Eq, Structural)]
pub enum AdditiveOp {
    /// `observed = XOR(range) ⊕ offset`
    Xor,
    /// `observed = SUM(range) + offset`
    Sum,
    /// `observed = offset − SUM(range)` — the two's-complement shape.
    NegatedSum,
}

/// One conventional `init` and the `xorOut` it implies for this residue.
#[derive(Debug, Clone, Copy, PartialEq, Eq, Structural)]
pub struct CrcAlternative {
    pub init: u16,
    pub xor_out: u16,
}

/// A recovered CRC. `init`/`xor_out` are the canonical pair — always exact, and
/// always one of several that fit; see [`alternatives`](Self::alternatives).
#[derive(Debug, Clone, PartialEq, Eq)]
pub struct CrcParameters {
    /// 8 or 16.
    pub width: u8,
    pub polynomial: u16,
    pub reflect_in: bool,
    pub reflect_out: bool,
    /// Canonically 0. Retained so a caller can write a complete CRC definition.
    pub init: u16,
    /// The residue `observed ⊕ CRC(m, 0, 0)`, constant across the samples.
    pub xor_out: u16,
    /// True when `polynomial` is a recognised standard.
    pub well_known: bool,
    /// Other `(init, xorOut)` pairs that reproduce the samples identically.
    /// Non-empty means `init` is not determined by this data.
    pub alternatives: Vec<CrcAlternative>,
}

/// A recovered CRC, as a mathematical value.
#[verifier::ext_equal]
pub struct CrcView {
    pub width: u8,
    pub polynomial: u16,
    pub reflect_in: bool,
    pub reflect_out: bool,
    pub init: u16,
    pub xor_out: u16,
    pub well_known: bool,
    pub alternatives: Seq<CrcAlternative>,
}

impl View for CrcParameters {
    type V = CrcView;

    open spec fn view(&self) -> CrcView {
        CrcView {
            width: self.width,
            polynomial: self.polynomial,
            reflect_in: self.reflect_in,
            reflect_out: self.reflect_out,
            init: self.init,
            xor_out: self.xor_out,
            well_known: self.well_known,
            alternatives: self.alternatives@,
        }
    }
}

#[derive(Debug, Clone, PartialEq, Eq)]
pub enum SolvedKind {
    Additive { op: AdditiveOp, offset: u8 },
    Crc(CrcParameters),
}

/// What was solved, as a mathematical value.
#[verifier::ext_equal]
pub enum KindView {
    Additive { op: AdditiveOp, offset: u8 },
    Crc(CrcView),
}

impl View for SolvedKind {
    type V = KindView;

    open spec fn view(&self) -> KindView {
        match self {
            SolvedKind::Additive { op, offset } => KindView::Additive {
                op: *op,
                offset: *offset,
            },
            SolvedKind::Crc(crc) => KindView::Crc(crc@),
        }
    }
}

/// A configuration that reproduces every sample it was solved against.
#[derive(Debug, Clone, PartialEq, Eq)]
pub struct SolvedChecksum {
    pub target: SolveTarget,
    pub kind: SolvedKind,
    /// Samples the solution was verified against. A solution is only reported
    /// when it reproduces all of them, so there is no match *rate* here.
    pub sample_count: usize,
    /// Samples excluded because their calculation range was a different length.
    /// Always 0 for the additive solutions.
    pub excluded_count: usize,
}

/// A solved configuration, as a mathematical value.
#[verifier::ext_equal]
pub struct SolvedView {
    pub target: SolveTarget,
    pub kind: KindView,
    pub sample_count: int,
    pub excluded_count: int,
}

impl View for SolvedChecksum {
    type V = SolvedView;

    open spec fn view(&self) -> SolvedView {
        SolvedView {
            target: self.target,
            kind: self.kind@,
            sample_count: self.sample_count as int,
            excluded_count: self.excluded_count as int,
        }
    }
}

/// What each of a list of solutions is.
pub open spec fn solved_views(solved: Seq<SolvedChecksum>) -> Seq<SolvedView> {
    solved.map_values(|s: SolvedChecksum| s@)
}

#[derive(Debug, Clone, Copy)]
pub struct CrcSolveOptions {
    /// Test only the recognised standards. Rarely worth setting — an exhaustive
    /// sweep is milliseconds — but it makes a scan over many frame ids cheaper.
    pub known_polynomials_only: bool,
    /// Cap on returned solutions. Several polynomials can fit a thin sample.
    pub max_solutions: usize,
}

impl Default for CrcSolveOptions {
    fn default() -> (r: Self)
        ensures
            r == (CrcSolveOptions { known_polynomials_only: false, max_solutions: 8 }),
    {
        Self { known_polynomials_only: false, max_solutions: 8 }
    }
}

// ---------------------------------------------------------------------------
// Observations
// ---------------------------------------------------------------------------

/// One sample reduced to what a solver needs: the bytes covered by the
/// calculation range, and the checksum value stored alongside them.
pub struct Observation {
    pub data: Vec<u8>,
    pub observed: u16,
}

/// A sample, as a mathematical value.
#[verifier::ext_equal]
pub struct Sample {
    pub data: Seq<u8>,
    pub observed: u16,
}

impl View for Observation {
    type V = Sample;

    open spec fn view(&self) -> Sample {
        Sample { data: self.data@, observed: self.observed }
    }
}

/// What each of a list of observations holds.
pub open spec fn samples_of(observations: Seq<Observation>) -> Seq<Sample> {
    observations.map_values(|o: Observation| o@)
}

/// Whether a frame is a sample for a target: it carries the field, and the
/// range covers something.
pub open spec fn observable(frame: Seq<u8>, target: SolveTarget) -> bool {
    &&& crate::frame::field_fits(
        frame.len() as int,
        target.position as int,
        target.byte_length as int,
    )
    &&& crate::frame::covered(
        frame,
        target.calc_start_byte as int,
        target.calc_end_byte as int,
    ).len() > 0
}

/// What a frame contributes.
pub open spec fn sample_of(frame: Seq<u8>, target: SolveTarget) -> Sample {
    Sample {
        data: crate::frame::covered(
            frame,
            target.calc_start_byte as int,
            target.calc_end_byte as int,
        ),
        observed: crate::frame::stored_checksum(
            frame,
            target.position as int,
            target.byte_length as int,
            target.big_endian,
        ),
    }
}

/// The samples a set of frames yields for a target, in order.
pub open spec fn observed_samples(frames: Seq<Seq<u8>>, target: SolveTarget) -> Seq<Sample>
    decreases frames.len(),
{
    if frames.len() == 0 {
        Seq::empty()
    } else {
        let before = observed_samples(frames.drop_last(), target);
        if observable(frames.last(), target) {
            before.push(sample_of(frames.last(), target))
        } else {
            before
        }
    }
}

fn observations(frames: &[Vec<u8>], target: &SolveTarget) -> (r: Vec<Observation>)
    ensures
        samples_of(r@) == observed_samples(crate::spec::frame_bytes(frames@), *target),
        r@.len() <= frames@.len(),
{
    let ghost all = crate::spec::frame_bytes(frames@);
    let mut out: Vec<Observation> = Vec::new();
    for i in 0..frames.len()
        invariant
            all == crate::spec::frame_bytes(frames@),
            samples_of(out@) == observed_samples(all.take(i as int), *target),
            out@.len() <= i,
    {
        assert(all.take(i + 1).drop_last() == all.take(i as int));
        let frame = frames[i].as_slice();
        let ghost before = samples_of(out@);
        if let Some(range) = calculated_range(
            frame.len(),
            target.position,
            target.byte_length,
            target.calc_start_byte,
            target.calc_end_byte,
        ) {
            let covered = vstd::slice::slice_subrange(frame, range.0, range.1);
            let observed: u16 = extract_checksum(
                frame,
                target.position,
                target.byte_length,
                target.big_endian,
            );
            let sample = Observation { data: vstd::slice::slice_to_vec(covered), observed };
            assert(sample@ == sample_of(frame@, *target));
            out.push(sample);
            assert(samples_of(out@) == before.push(sample@));
        }
    }
    assert(all.take(all.len() as int) == all);
    out
}

// ---------------------------------------------------------------------------
// Additive
// ---------------------------------------------------------------------------

/// The constant a sample implies for an additive family.
pub open spec fn additive_residue(op: AdditiveOp, sample: Sample) -> u8 {
    let observed = (sample.observed % 256) as u8;
    match op {
        AdditiveOp::Xor => observed ^ crate::algorithms::xor_of(sample.data),
        AdditiveOp::Sum => ((observed - crate::algorithms::byte_sum(sample.data)) % 256) as u8,
        AdditiveOp::NegatedSum => ((observed + crate::algorithms::byte_sum(sample.data))
            % 256) as u8,
    }
}

/// The value an additive checksum has over `data`.
pub open spec fn additive_value(op: AdditiveOp, offset: u8, data: Seq<u8>) -> u8 {
    match op {
        AdditiveOp::Xor => crate::algorithms::xor_of(data) ^ offset,
        AdditiveOp::Sum => ((crate::algorithms::byte_sum(data) + offset) % 256) as u8,
        AdditiveOp::NegatedSum => ((offset - crate::algorithms::byte_sum(data)) % 256) as u8,
    }
}

/// Whether every sample implies the same constant as the first.
pub open spec fn additive_agrees(op: AdditiveOp, samples: Seq<Sample>) -> bool {
    forall|i: int|
        0 <= i < samples.len() ==> additive_residue(op, #[trigger] samples[i]) == additive_residue(
            op,
            samples[0],
        )
}

/// The family an additive solve reports: the first that agrees.
pub open spec fn additive_family(samples: Seq<Sample>) -> Option<AdditiveOp> {
    if additive_agrees(AdditiveOp::Xor, samples) {
        Some(AdditiveOp::Xor)
    } else if additive_agrees(AdditiveOp::Sum, samples) {
        Some(AdditiveOp::Sum)
    } else if additive_agrees(AdditiveOp::NegatedSum, samples) {
        Some(AdditiveOp::NegatedSum)
    } else {
        None
    }
}

/// What an additive solve of the frames reports.
pub open spec fn additive_solution(frames: Seq<Seq<u8>>, target: SolveTarget) -> Option<
    SolvedView,
> {
    let samples = observed_samples(frames, target);
    if target.byte_length != 1 || samples.len() < MIN_SAMPLES {
        None
    } else {
        match additive_family(samples) {
            Some(op) => Some(
                SolvedView {
                    target,
                    kind: KindView::Additive { op, offset: additive_residue(op, samples[0]) },
                    sample_count: samples.len() as int,
                    excluded_count: 0,
                },
            ),
            None => None,
        }
    }
}

fn residue(op: AdditiveOp, sample: &Observation) -> (r: u8)
    ensures
        r == additive_residue(op, sample@),
{
    let observed: u8 = (sample.observed % 256) as u8;
    match op {
        AdditiveOp::Xor => observed ^ xor_checksum(sample.data.as_slice()),
        AdditiveOp::Sum => {
            let sum: u8 = sum8_checksum(sample.data.as_slice());
            proof {
                let whole = crate::algorithms::byte_sum(sample.data@);
                assert((observed - sum) % 256 == (observed - whole) % 256);
            }
            observed.wrapping_sub(sum)
        },
        AdditiveOp::NegatedSum => {
            let sum: u8 = sum8_checksum(sample.data.as_slice());
            proof {
                let whole = crate::algorithms::byte_sum(sample.data@);
                assert((observed + sum) % 256 == (observed + whole) % 256);
            }
            observed.wrapping_add(sum)
        },
    }
}

fn agrees(op: AdditiveOp, samples: &Vec<Observation>) -> (r: Option<u8>)
    requires
        samples@.len() > 0,
    ensures
        r is Some <==> additive_agrees(op, samples_of(samples@)),
        r matches Some(offset) ==> offset == additive_residue(op, samples_of(samples@)[0]),
{
    let ghost all = samples_of(samples@);
    let offset: u8 = residue(op, &samples[0]);
    for i in 1..samples.len()
        invariant
            all == samples_of(samples@),
            offset == additive_residue(op, all[0]),
            forall|j: int| 0 <= j < i ==> additive_residue(op, #[trigger] all[j]) == offset,
    {
        if residue(op, &samples[i]) != offset {
            assert(additive_residue(op, all[i as int]) != offset);
            return None;
        }
    }
    Some(offset)
}

/// Find the additive or XOR checksum that fits, if one does.
///
/// One pass per family, no search: the offset is whatever the first sample
/// implies, and the remaining samples either agree or rule the family out.
pub fn solve_additive(frames: &[Vec<u8>], target: &SolveTarget) -> (r: Option<SolvedChecksum>)
    ensures
        (match r {
            Some(s) => Some(s@),
            None => None,
        }) == additive_solution(crate::spec::frame_bytes(frames@), *target),
{
    if target.byte_length != 1 {
        return None;
    }
    let samples = observations(frames, target);
    if samples.len() < MIN_SAMPLES {
        return None;
    }
    let (op, offset): (AdditiveOp, u8) = match agrees(AdditiveOp::Xor, &samples) {
        Some(offset) => (AdditiveOp::Xor, offset),
        None => match agrees(AdditiveOp::Sum, &samples) {
            Some(offset) => (AdditiveOp::Sum, offset),
            None => match agrees(AdditiveOp::NegatedSum, &samples) {
                Some(offset) => (AdditiveOp::NegatedSum, offset),
                None => {
                    return None;
                },
            },
        },
    };
    Some(
        SolvedChecksum {
            target: *target,
            kind: SolvedKind::Additive { op, offset },
            sample_count: samples.len(),
            excluded_count: 0,
        },
    )
}

/// An additive solution reproduces every sample: what it calculates over the
/// covered bytes is what the frame stores.
#[verifier::spinoff_prover]
#[verifier::rlimit(60)]
pub proof fn law_additive_solutions_reproduce_every_sample(
    frames: Seq<Seq<u8>>,
    target: SolveTarget,
    i: int,
)
    requires
        additive_solution(frames, target) is Some,
        0 <= i < observed_samples(frames, target).len(),
    ensures
        additive_solution(frames, target)->Some_0.kind matches KindView::Additive { op, offset }
            && additive_value(op, offset, observed_samples(frames, target)[i].data)
            == observed_samples(frames, target)[i].observed,
{
    let samples = observed_samples(frames, target);
    lemma_samples_are_bytes(frames, target, i);
    let op = additive_family(samples)->Some_0;
    let offset = additive_residue(op, samples[0]);
    let s = samples[i];
    assert(additive_residue(op, s) == offset);
    match op {
        AdditiveOp::Xor => {
            let x = crate::algorithms::xor_of(s.data);
            let o = (s.observed % 256) as u8;
            assert(x ^ (o ^ x) == o) by (bit_vector);
        },
        AdditiveOp::Sum => {},
        AdditiveOp::NegatedSum => {},
    }
}

proof fn lemma_samples_are_bytes(frames: Seq<Seq<u8>>, target: SolveTarget, i: int)
    requires
        target.byte_length == 1,
        0 <= i < observed_samples(frames, target).len(),
    ensures
        observed_samples(frames, target)[i].observed < 256,
    decreases frames.len(),
{
    let before = observed_samples(frames.drop_last(), target);
    if i < before.len() {
        lemma_samples_are_bytes(frames.drop_last(), target, i);
    }
}

// ---------------------------------------------------------------------------
// CRC
// ---------------------------------------------------------------------------

/// The recognised CRC-8 polynomials, in ascending order.
pub open spec fn known8() -> Seq<u16> {
    seq![0x07, 0x1D, 0x2F, 0x31, 0x85, 0x9B, 0xD5]
}

/// The recognised CRC-16 polynomials, in ascending order.
pub open spec fn known16() -> Seq<u16> {
    seq![0x0589, 0x080D, 0x1021, 0x1DCF, 0x3D65, 0x8005, 0x8BB7, 0xC867]
}

/// Well-known polynomials of a width, preferred when several reproduce the data
/// equally well. Recognising a standard is worth more to a reader than an
/// arbitrary value that happens to fit.
pub open spec fn known_polynomials(width: u8) -> Seq<u16> {
    if width == 8 {
        known8()
    } else {
        known16()
    }
}

/// The polynomials from 1 up to `last` that are not recognised, ascending.
pub open spec fn unrecognised(width: u8, last: int) -> Seq<u16>
    decreases last,
{
    if last <= 0 {
        Seq::empty()
    } else {
        let before = unrecognised(width, last - 1);
        if known_polynomials(width).contains(last as u16) {
            before
        } else {
            before.push(last as u16)
        }
    }
}

/// The largest polynomial of a width.
pub open spec fn last_polynomial(width: u8) -> int {
    if width == 8 {
        0xFF
    } else {
        0xFFFF
    }
}

/// The polynomials a solve tries, in the order it reports them: the recognised
/// ones, then every other, each ascending.
pub open spec fn tried_polynomials(width: u8, known_only: bool) -> Seq<u16> {
    if known_only {
        known_polynomials(width)
    } else {
        known_polynomials(width) + unrecognised(width, last_polynomial(width))
    }
}

/// The CRC of a width; the 8-bit one couples input and output reflection.
pub open spec fn crc_value(
    width: u8,
    polynomial: u16,
    init: u16,
    xor_out: u16,
    reflect_in: bool,
    reflect_out: bool,
    data: Seq<u8>,
) -> u16 {
    if width == 8 {
        crate::algorithms::crc8_of(
            data,
            (polynomial % 256) as u8,
            (init % 256) as u8,
            (xor_out % 256) as u8,
            reflect_in,
        ) as u16
    } else {
        crate::algorithms::crc16_of(data, polynomial, init, xor_out, reflect_in, reflect_out)
    }
}

/// The residue of a sample under a polynomial.
pub open spec fn crc_residue(
    width: u8,
    polynomial: u16,
    reflect_in: bool,
    reflect_out: bool,
    sample: Sample,
) -> u16 {
    sample.observed ^ crc_value(width, polynomial, 0, 0, reflect_in, reflect_out, sample.data)
}

/// Whether every sample has the residue of the first.
pub open spec fn crc_agrees(
    width: u8,
    polynomial: u16,
    reflect_in: bool,
    reflect_out: bool,
    samples: Seq<Sample>,
) -> bool {
    forall|i: int|
        0 <= i < samples.len() ==> crc_residue(
            width,
            polynomial,
            reflect_in,
            reflect_out,
            #[trigger] samples[i],
        ) == crc_residue(width, polynomial, reflect_in, reflect_out, samples[0])
}

/// The conventional initial value other than zero.
pub open spec fn conventional_init(width: u8) -> u16 {
    if width == 8 {
        0x00FF
    } else {
        0xFFFF
    }
}

/// A message of `length` zero bytes.
pub open spec fn zeros(length: int) -> Seq<u8> {
    Seq::new(length as nat, |i: int| 0u8)
}

/// What is reported for a polynomial that fits.
pub open spec fn crc_fit(
    width: u8,
    polynomial: u16,
    reflect_in: bool,
    reflect_out: bool,
    samples: Seq<Sample>,
) -> CrcView {
    let residue = crc_residue(width, polynomial, reflect_in, reflect_out, samples[0]);
    let init = conventional_init(width);
    CrcView {
        width,
        polynomial,
        reflect_in,
        reflect_out,
        init: 0,
        xor_out: residue,
        well_known: known_polynomials(width).contains(polynomial),
        alternatives: seq![
            CrcAlternative {
                init,
                xor_out: residue ^ crc_value(
                    width,
                    polynomial,
                    init,
                    0,
                    reflect_in,
                    reflect_out,
                    zeros(samples[0].data.len() as int),
                ),
            },
        ],
    }
}

/// The reflections a width has, in the order they are reported. CRC-8 couples
/// input and output reflection, so it has two where CRC-16 has four.
pub open spec fn reflections(width: u8) -> Seq<(bool, bool)> {
    if width == 8 {
        seq![(false, false), (true, true)]
    } else {
        seq![(false, false), (false, true), (true, false), (true, true)]
    }
}

/// What is reported for one polynomial over the first `n` reflections.
pub open spec fn fits_of(width: u8, polynomial: u16, samples: Seq<Sample>, n: int) -> Seq<CrcView>
    decreases n,
{
    if n <= 0 {
        Seq::empty()
    } else {
        let before = fits_of(width, polynomial, samples, n - 1);
        let reflection = reflections(width)[n - 1];
        if crc_agrees(width, polynomial, reflection.0, reflection.1, samples) {
            before.push(crc_fit(width, polynomial, reflection.0, reflection.1, samples))
        } else {
            before
        }
    }
}

/// Everything that fits, over the given polynomials in order.
pub open spec fn all_fits(width: u8, polynomials: Seq<u16>, samples: Seq<Sample>) -> Seq<CrcView>
    decreases polynomials.len(),
{
    if polynomials.len() == 0 {
        Seq::empty()
    } else {
        all_fits(width, polynomials.drop_last(), samples) + fits_of(
            width,
            polynomials.last(),
            samples,
            reflections(width).len() as int,
        )
    }
}

/// How many samples cover `length` bytes.
pub open spec fn length_count(samples: Seq<Sample>, length: int) -> int
    decreases samples.len(),
{
    if samples.len() == 0 {
        0
    } else {
        length_count(samples.drop_last(), length) + if samples.last().data.len() == length {
            1int
        } else {
            0
        }
    }
}

/// The commonest covered length among the first `n` samples, counted over all
/// of them; a tie goes to the longer.
pub open spec fn commonest_length(samples: Seq<Sample>, n: int) -> int
    decreases n,
{
    if n <= 1 {
        samples[0].data.len() as int
    } else {
        let best = commonest_length(samples, n - 1);
        let other = samples[n - 1].data.len() as int;
        if length_count(samples, other) > length_count(samples, best) || (length_count(
            samples,
            other,
        ) == length_count(samples, best) && other > best) {
            other
        } else {
            best
        }
    }
}

/// The samples that cover `length` bytes, in order.
pub open spec fn of_length(samples: Seq<Sample>, length: int) -> Seq<Sample>
    decreases samples.len(),
{
    if samples.len() == 0 {
        Seq::empty()
    } else if samples.last().data.len() == length {
        of_length(samples.drop_last(), length).push(samples.last())
    } else {
        of_length(samples.drop_last(), length)
    }
}

/// The samples a CRC solve compares: those of the commonest length.
pub open spec fn comparable(samples: Seq<Sample>) -> Seq<Sample> {
    of_length(samples, commonest_length(samples, samples.len() as int))
}

/// The CRC width a field of `byte_length` bytes has.
pub open spec fn width_of(byte_length: int) -> Option<u8> {
    if byte_length == 1 {
        Some(8)
    } else if byte_length == 2 {
        Some(16)
    } else {
        None
    }
}

/// What a CRC solve of the frames reports.
pub open spec fn crc_solutions(
    frames: Seq<Seq<u8>>,
    target: SolveTarget,
    options: CrcSolveOptions,
) -> Seq<SolvedView> {
    let all = observed_samples(frames, target);
    let samples = comparable(all);
    if width_of(target.byte_length as int) is None || all.len() == 0 || samples.len()
        < MIN_SAMPLES {
        Seq::empty()
    } else {
        let width = width_of(target.byte_length as int)->Some_0;
        let fits = all_fits(
            width,
            tried_polynomials(width, options.known_polynomials_only),
            samples,
        );
        let kept = if fits.len() > options.max_solutions {
            fits.take(options.max_solutions as int)
        } else {
            fits
        };
        kept.map_values(
            |crc: CrcView|
                SolvedView {
                    target,
                    kind: KindView::Crc(crc),
                    sample_count: samples.len() as int,
                    excluded_count: all.len() - samples.len(),
                },
        )
    }
}

/// `CRC(data, init, xorOut = 0)` of the given width.
fn crc_carried(
    data: &[u8],
    width: u8,
    polynomial: u16,
    init: u16,
    reflect_in: bool,
    reflect_out: bool,
) -> (r: u16)
    ensures
        r == crc_value(width, polynomial, init, 0, reflect_in, reflect_out, data@),
{
    if width == 8 {
        crc8_parameterised(data, (polynomial % 256) as u8, (init % 256) as u8, 0, reflect_in)
            as u16
    } else {
        crc16_parameterised(data, polynomial, init, 0, reflect_in, reflect_out)
    }
}

/// The residue shared by every sample, or `None` if the polynomial is wrong.
fn shared_residue(
    samples: &Vec<Observation>,
    width: u8,
    polynomial: u16,
    reflect_in: bool,
    reflect_out: bool,
) -> (r: Option<u16>)
    requires
        samples@.len() > 0,
    ensures
        r is Some <==> crc_agrees(
            width,
            polynomial,
            reflect_in,
            reflect_out,
            samples_of(samples@),
        ),
        r matches Some(k) ==> k == crc_residue(
            width,
            polynomial,
            reflect_in,
            reflect_out,
            samples_of(samples@)[0],
        ),
{
    let ghost all = samples_of(samples@);
    let first: u16 = samples[0].observed ^ crc_carried(
        samples[0].data.as_slice(),
        width,
        polynomial,
        0,
        reflect_in,
        reflect_out,
    );
    for i in 1..samples.len()
        invariant
            all == samples_of(samples@),
            first == crc_residue(width, polynomial, reflect_in, reflect_out, all[0]),
            forall|j: int|
                0 <= j < i ==> crc_residue(
                    width,
                    polynomial,
                    reflect_in,
                    reflect_out,
                    #[trigger] all[j],
                ) == first,
    {
        let k: u16 = samples[i].observed ^ crc_carried(
            samples[i].data.as_slice(),
            width,
            polynomial,
            0,
            reflect_in,
            reflect_out,
        );
        if k != first {
            assert(crc_residue(width, polynomial, reflect_in, reflect_out, all[i as int])
                != first);
            return None;
        }
    }
    Some(first)
}

/// What each of a list of recovered CRCs is.
pub open spec fn crc_views(found: Seq<CrcParameters>) -> Seq<CrcView> {
    found.map_values(|c: CrcParameters| c@)
}

fn is_known(width: u8, polynomial: u16) -> (r: bool)
    ensures
        r == known_polynomials(width).contains(polynomial),
{
    let known = known_vec(width);
    for i in 0..known.len()
        invariant
            known@ == known_polynomials(width),
            forall|j: int| 0 <= j < i ==> known@[j] != polynomial,
    {
        if known[i] == polynomial {
            assert(known@[i as int] == polynomial);
            return true;
        }
    }
    false
}

fn known_vec(width: u8) -> (r: Vec<u16>)
    ensures
        r@ == known_polynomials(width),
{
    if width == 8 {
        vec![0x07, 0x1D, 0x2F, 0x31, 0x85, 0x9B, 0xD5]
    } else {
        vec![0x0589, 0x080D, 0x1021, 0x1DCF, 0x3D65, 0x8005, 0x8BB7, 0xC867]
    }
}

/// `xorOut` for the conventional `init`, given the residue.
///
/// `K = CRC(zeros_L, init, 0) ⊕ xorOut`, so `xorOut = K ⊕ CRC(zeros_L, init, 0)`
/// — the zero message isolates the `init` term.
fn conventional_alternatives(
    width: u8,
    polynomial: u16,
    reflect_in: bool,
    reflect_out: bool,
    length: usize,
    residue: u16,
) -> (r: Vec<CrcAlternative>)
    ensures
        r@ == seq![
            CrcAlternative {
                init: conventional_init(width),
                xor_out: residue ^ crc_value(
                    width,
                    polynomial,
                    conventional_init(width),
                    0,
                    reflect_in,
                    reflect_out,
                    zeros(length as int),
                ),
            },
        ],
{
    let mut blank: Vec<u8> = Vec::new();
    for i in 0..length
        invariant
            blank@ == zeros(i as int),
    {
        blank.push(0);
        assert(blank@ == zeros(i + 1));
    }
    let init: u16 = if width == 8 {
        0x00FF
    } else {
        0xFFFF
    };
    let carried: u16 = crc_carried(
        blank.as_slice(),
        width,
        polynomial,
        init,
        reflect_in,
        reflect_out,
    );
    let mut out: Vec<CrcAlternative> = Vec::new();
    out.push(CrcAlternative { init, xor_out: residue ^ carried });
    out
}

/// Try one polynomial under every reflection.
fn solve_polynomial(samples: &Vec<Observation>, width: u8, polynomial: u16) -> (r: Vec<
    CrcParameters,
>)
    requires
        samples@.len() > 0,
    ensures
        crc_views(r@) == fits_of(
            width,
            polynomial,
            samples_of(samples@),
            reflections(width).len() as int,
        ),
{
    let ghost all = samples_of(samples@);
    let combinations: Vec<(bool, bool)> = if width == 8 {
        vec![(false, false), (true, true)]
    } else {
        vec![(false, false), (false, true), (true, false), (true, true)]
    };
    assert(combinations@ == reflections(width));
    let mut out: Vec<CrcParameters> = Vec::new();
    for i in 0..combinations.len()
        invariant
            samples@.len() > 0,
            all == samples_of(samples@),
            combinations@ == reflections(width),
            crc_views(out@) == fits_of(width, polynomial, all, i as int),
    {
        let (reflect_in, reflect_out) = combinations[i];
        let ghost before = crc_views(out@);
        if let Some(residue) = shared_residue(samples, width, polynomial, reflect_in, reflect_out) {
            let found = CrcParameters {
                width,
                polynomial,
                reflect_in,
                reflect_out,
                init: 0,
                xor_out: residue,
                well_known: is_known(width, polynomial),
                alternatives: conventional_alternatives(
                    width,
                    polynomial,
                    reflect_in,
                    reflect_out,
                    samples[0].data.len(),
                    residue,
                ),
            };
            assert(found@ == crc_fit(width, polynomial, reflect_in, reflect_out, all));
            out.push(found);
            assert(crc_views(out@) == before.push(found@));
        }
    }
    out
}

/// `rayon`'s parallel `map` over a slice, collected into a `Vec`: the results
/// stand in the order of the slice, each what [`solve_polynomial`] returns for
/// its polynomial.
#[verifier::external_body]
fn solve_polynomials(samples: &Vec<Observation>, width: u8, polynomials: &Vec<u16>) -> (r: Vec<
    Vec<CrcParameters>,
>)
    requires
        samples@.len() > 0,
    ensures
        r@.len() == polynomials@.len(),
        forall|i: int|
            0 <= i < r@.len() ==> crc_views((#[trigger] r@[i])@) == fits_of(
                width,
                polynomials@[i],
                samples_of(samples@),
                reflections(width).len() as int,
            ),
{
    polynomials.par_iter().map(|p| solve_polynomial(samples, width, *p)).collect()
}

/// The polynomials to try, in the order solutions are reported: a recognised
/// standard beats an arbitrary value that fits equally well; otherwise the lower
/// polynomial, so the ordering is stable run to run.
fn polynomials_to_try(width: u8, known_only: bool) -> (r: Vec<u16>)
    ensures
        r@ == tried_polynomials(width, known_only),
{
    let mut out: Vec<u16> = known_vec(width);
    if known_only {
        return out;
    }
    let last: u32 = if width == 8 {
        0xFF
    } else {
        0xFFFF
    };
    assert(out@ + Seq::<u16>::empty() == out@);
    let mut p: u32 = 1;
    while p <= last
        invariant
            1 <= p <= last + 1,
            last == last_polynomial(width),
            out@ == known_polynomials(width) + unrecognised(width, p - 1),
        decreases last + 1 - p,
    {
        let ghost before = unrecognised(width, p - 1);
        if !is_known(width, p as u16) {
            out.push(p as u16);
            assert(out@ == known_polynomials(width) + before.push(p as u16));
        }
        p = p + 1;
    }
    out
}

fn count_length(samples: &Vec<Observation>, length: usize) -> (r: usize)
    ensures
        r == length_count(samples_of(samples@), length as int),
{
    let ghost all = samples_of(samples@);
    let mut count: usize = 0;
    for i in 0..samples.len()
        invariant
            all == samples_of(samples@),
            count == length_count(all.take(i as int), length as int),
            count <= i,
    {
        assert(all.take(i + 1).drop_last() == all.take(i as int));
        if samples[i].data.len() == length {
            count = count + 1;
        }
    }
    assert(all.take(all.len() as int) == all);
    count
}

fn largest_length_group(samples: &Vec<Observation>) -> (r: usize)
    requires
        samples@.len() > 0,
    ensures
        r == commonest_length(samples_of(samples@), samples@.len() as int),
{
    let ghost all = samples_of(samples@);
    let mut best: usize = samples[0].data.len();
    let mut best_count: usize = count_length(samples, best);
    for i in 1..samples.len()
        invariant
            samples@.len() > 0,
            all == samples_of(samples@),
            best == commonest_length(all, i as int),
            best_count == length_count(all, best as int),
    {
        // Ties break to the longer range: more bytes under the checksum is the
        // stronger evidence.
        let other: usize = samples[i].data.len();
        if other != best {
            let count: usize = count_length(samples, other);
            if count > best_count || (count == best_count && other > best) {
                best = other;
                best_count = count;
            }
        }
    }
    best
}

/// Recover the polynomial of a CRC by residue agreement.
///
/// Only samples whose calculation range is the same length take part — the
/// residue is length-dependent, so mixing lengths would compare incomparable
/// values. The largest such group is used and the rest are reported as
/// `excluded_count`.
pub fn solve_crc(
    frames: &[Vec<u8>],
    target: &SolveTarget,
    options: &CrcSolveOptions,
) -> (r: Vec<SolvedChecksum>)
    ensures
        solved_views(r@) == crc_solutions(crate::spec::frame_bytes(frames@), *target, *options),
{
    let mut out: Vec<SolvedChecksum> = Vec::new();
    assert(solved_views(out@) == Seq::<SolvedView>::empty());
    let width: u8 = if target.byte_length == 1 {
        8
    } else if target.byte_length == 2 {
        16
    } else {
        return out;
    };
    let all = observations(frames, target);
    let total: usize = all.len();
    if total == 0 {
        return out;
    }
    let ghost every = samples_of(all@);
    let length: usize = largest_length_group(&all);
    let mut samples: Vec<Observation> = Vec::new();
    for i in 0..all.len()
        invariant
            every == samples_of(all@),
            samples_of(samples@) == of_length(every.take(i as int), length as int),
            samples@.len() <= i,
    {
        assert(every.take(i + 1).drop_last() == every.take(i as int));
        let ghost before = samples_of(samples@);
        if all[i].data.len() == length {
            let copy = Observation {
                data: vstd::slice::slice_to_vec(all[i].data.as_slice()),
                observed: all[i].observed,
            };
            assert(copy@ == every[i as int]);
            samples.push(copy);
            assert(samples_of(samples@) == before.push(copy@));
        }
    }
    assert(every.take(every.len() as int) == every);
    if samples.len() < MIN_SAMPLES {
        return out;
    }
    let ghost used = samples_of(samples@);
    let polynomials = polynomials_to_try(width, options.known_polynomials_only);
    let found = solve_polynomials(&samples, width, &polynomials);
    let ghost tried = polynomials@;
    let ghost fits = all_fits(width, tried, used);
    let ghost describe = |crc: CrcView|
        SolvedView {
            target: *target,
            kind: KindView::Crc(crc),
            sample_count: used.len() as int,
            excluded_count: every.len() - used.len(),
        };
    let mut solutions: Vec<CrcParameters> = Vec::new();
    let mut groups = found;
    let ghost found_groups = groups@;
    let mut g: usize = 0;
    assert(crc_views(solutions@) == Seq::<CrcView>::empty());
    while g < groups.len()
        invariant
            g <= groups@.len(),
            groups@.len() == tried.len(),
            groups@.len() == found_groups.len(),
            used == samples_of(samples@),
            forall|i: int| g <= i < groups@.len() ==> groups@[i] == found_groups[i],
            forall|i: int|
                0 <= i < found_groups.len() ==> crc_views((#[trigger] found_groups[i])@)
                    == fits_of(width, tried[i], used, reflections(width).len() as int),
            crc_views(solutions@) == all_fits(width, tried.take(g as int), used),
        decreases groups@.len() - g,
    {
        let mut group: Vec<CrcParameters> = Vec::new();
        std::mem::swap(&mut group, &mut groups[g]);
        let ghost before = crc_views(solutions@);
        let ghost added = crc_views(group@);
        assert(group@ == found_groups[g as int]@);
        solutions.append(&mut group);
        assert(crc_views(solutions@) == before + added);
        assert(tried.take(g + 1).drop_last() == tried.take(g as int));
        assert(tried.take(g + 1).last() == tried[g as int]);
        g = g + 1;
    }
    assert(tried.take(tried.len() as int) == tried);
    let ghost every_fit = crc_views(solutions@);
    if solutions.len() > options.max_solutions {
        solutions.truncate(options.max_solutions);
        assert(crc_views(solutions@) == every_fit.take(options.max_solutions as int));
    }
    let ghost kept = crc_views(solutions@);
    let sample_count: usize = samples.len();
    let excluded_count: usize = total - sample_count;
    for crc in it: solutions
        invariant
            kept == crc_views(it.seq()),
            sample_count == used.len(),
            excluded_count == every.len() - used.len(),
            describe == (|crc: CrcView|
                SolvedView {
                    target: *target,
                    kind: KindView::Crc(crc),
                    sample_count: used.len() as int,
                    excluded_count: every.len() - used.len(),
                }),
            solved_views(out@) == kept.map_values(describe).take(it.index() as int),
    {
        let ghost before = solved_views(out@);
        let solved = SolvedChecksum {
            target: *target,
            kind: SolvedKind::Crc(crc),
            sample_count,
            excluded_count,
        };
        assert(solved@ == describe(kept[it.index() as int]));
        out.push(solved);
        assert(solved_views(out@) == before.push(solved@));
        assert(kept.map_values(describe).take(it.index() as int).push(solved@)
            == kept.map_values(describe).take(it.index() + 1));
    }
    assert(kept.map_values(describe).take(kept.len() as int) == kept.map_values(describe));
    out
}

// ---------------------------------------------------------------------------
// Laws
// ---------------------------------------------------------------------------

proof fn lemma_of_length(samples: Seq<Sample>, length: int, i: int)
    requires
        0 <= i < of_length(samples, length).len(),
    ensures
        of_length(samples, length)[i].data.len() == length,
        samples.contains(of_length(samples, length)[i]),
    decreases samples.len(),
{
    if samples.len() > 0 {
        let before = of_length(samples.drop_last(), length);
        if i < before.len() {
            lemma_of_length(samples.drop_last(), length, i);
            let k = choose|k: int|
                0 <= k < samples.drop_last().len() && samples.drop_last()[k] == before[i];
            assert(samples[k] == before[i]);
        } else {
            assert(samples[samples.len() - 1] == samples.last());
        }
    }
}

/// The samples a CRC solve compares all cover equally many bytes, and each is
/// one that was observed.
pub proof fn law_compared_samples_have_one_length(samples: Seq<Sample>, i: int, j: int)
    requires
        0 <= i < comparable(samples).len(),
        0 <= j < comparable(samples).len(),
    ensures
        comparable(samples)[i].data.len() == comparable(samples)[j].data.len(),
        samples.contains(comparable(samples)[i]),
{
    let length = commonest_length(samples, samples.len() as int);
    lemma_of_length(samples, length, i);
    lemma_of_length(samples, length, j);
}

/// The canonical pair reproduces every sample: with `init = 0` and the shared
/// residue as `xorOut`, a polynomial that fits calculates what each frame
/// stores.
pub proof fn law_the_canonical_pair_reproduces_every_sample(
    width: u8,
    polynomial: u16,
    reflect_in: bool,
    reflect_out: bool,
    samples: Seq<Sample>,
    i: int,
)
    requires
        width == 8 || width == 16,
        crc_agrees(width, polynomial, reflect_in, reflect_out, samples),
        0 <= i < samples.len(),
        width == 8 ==> samples[0].observed < 256 && samples[i].observed < 256,
    ensures
        ({
            let fit = crc_fit(width, polynomial, reflect_in, reflect_out, samples);
            crc_value(
                width,
                polynomial,
                fit.init,
                fit.xor_out,
                reflect_in,
                reflect_out,
                samples[i].data,
            ) == samples[i].observed
        }),
{
    let k = crc_residue(width, polynomial, reflect_in, reflect_out, samples[0]);
    let s = samples[i];
    assert(crc_residue(width, polynomial, reflect_in, reflect_out, s) == k);
    let plain = crc_value(width, polynomial, 0, 0, reflect_in, reflect_out, s.data);
    let observed = s.observed;
    assert(plain ^ (observed ^ plain) == observed) by (bit_vector);
    if width == 8 {
        let r = crate::algorithms::register8(
            s.data,
            (polynomial % 256) as u8,
            0,
            reflect_in,
        );
        assert(r ^ 0 == r) by (bit_vector);
        lemma_xor_of_bytes(plain, k, observed);
    } else {
        let r = crate::algorithms::read_out16(
            crate::algorithms::register16(s.data, polynomial, 0, reflect_in),
            reflect_in,
            reflect_out,
        );
        assert(r ^ 0 == r) by (bit_vector);
    }
}

proof fn lemma_xor_of_bytes(plain: u16, k: u16, observed: u16)
    requires
        plain < 256,
        observed < 256,
        k == observed ^ plain,
    ensures
        k < 256,
        ((plain as u8) ^ ((k % 256) as u8)) as u16 == observed,
{
    assert(k < 256 && ((plain as u8) ^ ((k % 256) as u8)) as u16 == observed) by (bit_vector)
        requires
            plain < 256,
            observed < 256,
            k == observed ^ plain,
    ;
}

proof fn lemma_init_term16(data: Seq<u8>, polynomial: u16, init: u16, reflected: bool)
    ensures
        crate::algorithms::register16(data, polynomial, init, reflected)
            == crate::algorithms::register16(data, polynomial, 0, reflected)
            ^ crate::algorithms::register16(
            zeros(data.len() as int),
            polynomial,
            init,
            reflected,
        ),
{
    let blank = zeros(data.len() as int);
    crate::algorithms::law_register16_is_linear(data, blank, polynomial, 0, init, reflected);
    assert(0u16 ^ init == init) by (bit_vector);
    assert forall|i: int| 0 <= i < data.len() implies crate::algorithms::xor_bytes(data, blank)[i]
        == data[i] by {
        let b = data[i];
        assert(b ^ 0 == b) by (bit_vector);
    }
    assert(crate::algorithms::xor_bytes(data, blank) == data);
}

proof fn lemma_init_term8(data: Seq<u8>, polynomial: u8, init: u8, reflected: bool)
    ensures
        crate::algorithms::register8(data, polynomial, init, reflected)
            == crate::algorithms::register8(data, polynomial, 0, reflected)
            ^ crate::algorithms::register8(zeros(data.len() as int), polynomial, init, reflected),
{
    let blank = zeros(data.len() as int);
    crate::algorithms::law_register8_is_linear(data, blank, polynomial, 0, init, reflected);
    assert(0u8 ^ init == init) by (bit_vector);
    assert forall|i: int| 0 <= i < data.len() implies crate::algorithms::xor_bytes(data, blank)[i]
        == data[i] by {
        let b = data[i];
        assert(b ^ 0 == b) by (bit_vector);
    }
    assert(crate::algorithms::xor_bytes(data, blank) == data);
}

/// For messages of one length `init` and `xorOut` cancel: the alternative pair
/// reported beside the canonical one reproduces every sample just as well, so
/// the data cannot tell the two apart.
pub proof fn law_the_alternative_pair_reproduces_every_sample(
    width: u8,
    polynomial: u16,
    reflect_in: bool,
    reflect_out: bool,
    samples: Seq<Sample>,
    i: int,
)
    requires
        width == 8 || width == 16,
        crc_agrees(width, polynomial, reflect_in, reflect_out, samples),
        0 <= i < samples.len(),
        samples[i].data.len() == samples[0].data.len(),
        width == 8 ==> samples[0].observed < 256 && samples[i].observed < 256,
    ensures
        ({
            let alternative = crc_fit(
                width,
                polynomial,
                reflect_in,
                reflect_out,
                samples,
            ).alternatives[0];
            crc_value(
                width,
                polynomial,
                alternative.init,
                alternative.xor_out,
                reflect_in,
                reflect_out,
                samples[i].data,
            ) == samples[i].observed
        }),
{
    let k = crc_residue(width, polynomial, reflect_in, reflect_out, samples[0]);
    let s = samples[i];
    assert(crc_residue(width, polynomial, reflect_in, reflect_out, s) == k);
    let init = conventional_init(width);
    let blank = zeros(s.data.len() as int);
    let observed = s.observed;
    if width == 8 {
        let p = (polynomial % 256) as u8;
        lemma_init_term8(s.data, p, 0xFF, reflect_in);
        let a = crate::algorithms::register8(s.data, p, 0, reflect_in);
        let b = crate::algorithms::register8(blank, p, 0xFF, reflect_in);
        assert(a ^ 0 == a && b ^ 0 == b) by (bit_vector);
        lemma_xor_of_bytes(a as u16, k, observed);
        let x = k ^ (b as u16);
        assert(((a ^ b) ^ ((x % 256) as u8)) as u16 == observed) by (bit_vector)
            requires
                x == k ^ (b as u16),
                k == observed ^ (a as u16),
                observed < 256,
        ;
    } else {
        lemma_init_term16(s.data, polynomial, init, reflect_in);
        let a = crate::algorithms::register16(s.data, polynomial, 0, reflect_in);
        let b = crate::algorithms::register16(blank, polynomial, init, reflect_in);
        let ra = crate::algorithms::read_out16(a, reflect_in, reflect_out);
        let rb = crate::algorithms::read_out16(b, reflect_in, reflect_out);
        assert(crate::algorithms::reversed16(a ^ b) == crate::algorithms::reversed16(a)
            ^ crate::algorithms::reversed16(b)) by (bit_vector);
        assert(ra ^ 0 == ra && rb ^ 0 == rb) by (bit_vector);
        assert((ra ^ rb) ^ ((observed ^ ra) ^ rb) == observed) by (bit_vector);
    }
}

proof fn lemma_fits_of_member(width: u8, polynomial: u16, samples: Seq<Sample>, n: int, k: int)
    requires
        0 <= n <= reflections(width).len(),
        0 <= k < fits_of(width, polynomial, samples, n).len(),
    ensures
        ({
            let fit = fits_of(width, polynomial, samples, n)[k];
            &&& crc_agrees(width, polynomial, fit.reflect_in, fit.reflect_out, samples)
            &&& fit == crc_fit(width, polynomial, fit.reflect_in, fit.reflect_out, samples)
        }),
    decreases n,
{
    if n > 0 {
        let before = fits_of(width, polynomial, samples, n - 1);
        if k < before.len() {
            lemma_fits_of_member(width, polynomial, samples, n - 1, k);
        }
    }
}

/// Everything reported fits: each solution's residue is shared by every sample.
pub proof fn law_every_reported_crc_fits(
    width: u8,
    polynomials: Seq<u16>,
    samples: Seq<Sample>,
    k: int,
)
    requires
        0 <= k < all_fits(width, polynomials, samples).len(),
    ensures
        ({
            let fit = all_fits(width, polynomials, samples)[k];
            &&& polynomials.contains(fit.polynomial)
            &&& crc_agrees(width, fit.polynomial, fit.reflect_in, fit.reflect_out, samples)
            &&& fit == crc_fit(
                width,
                fit.polynomial,
                fit.reflect_in,
                fit.reflect_out,
                samples,
            )
        }),
    decreases polynomials.len(),
{
    if polynomials.len() > 0 {
        let front = polynomials.drop_last();
        let before = all_fits(width, front, samples);
        if k < before.len() {
            law_every_reported_crc_fits(width, front, samples, k);
            let p = before[k].polynomial;
            let at = choose|at: int| 0 <= at < front.len() && front[at] == p;
            assert(polynomials[at] == p);
        } else {
            lemma_fits_of_member(
                width,
                polynomials.last(),
                samples,
                reflections(width).len() as int,
                k - before.len(),
            );
            assert(polynomials[polynomials.len() - 1] == polynomials.last());
        }
    }
}

proof fn lemma_fits_of_complete(
    width: u8,
    polynomial: u16,
    samples: Seq<Sample>,
    n: int,
    r: int,
)
    requires
        0 <= r < n <= reflections(width).len(),
        crc_agrees(width, polynomial, reflections(width)[r].0, reflections(width)[r].1, samples),
    ensures
        fits_of(width, polynomial, samples, n).contains(
            crc_fit(
                width,
                polynomial,
                reflections(width)[r].0,
                reflections(width)[r].1,
                samples,
            ),
        ),
    decreases n,
{
    let before = fits_of(width, polynomial, samples, n - 1);
    let all = fits_of(width, polynomial, samples, n);
    let fit = crc_fit(
        width,
        polynomial,
        reflections(width)[r].0,
        reflections(width)[r].1,
        samples,
    );
    if r == n - 1 {
        assert(all[before.len() as int] == fit);
    } else {
        lemma_fits_of_complete(width, polynomial, samples, n - 1, r);
        let k = choose|k: int| 0 <= k < before.len() && before[k] == fit;
        assert(all[k] == fit);
    }
}

/// Nothing that fits is missed: a polynomial that is tried and whose residue is
/// shared under some reflection is among the solutions, before the cap.
pub proof fn law_no_fitting_crc_is_missed(
    width: u8,
    polynomials: Seq<u16>,
    samples: Seq<Sample>,
    p: int,
    r: int,
)
    requires
        0 <= p < polynomials.len(),
        0 <= r < reflections(width).len(),
        crc_agrees(
            width,
            polynomials[p],
            reflections(width)[r].0,
            reflections(width)[r].1,
            samples,
        ),
    ensures
        all_fits(width, polynomials, samples).contains(
            crc_fit(
                width,
                polynomials[p],
                reflections(width)[r].0,
                reflections(width)[r].1,
                samples,
            ),
        ),
    decreases polynomials.len(),
{
    let front = polynomials.drop_last();
    let before = all_fits(width, front, samples);
    let last = fits_of(
        width,
        polynomials.last(),
        samples,
        reflections(width).len() as int,
    );
    let all = all_fits(width, polynomials, samples);
    let fit = crc_fit(
        width,
        polynomials[p],
        reflections(width)[r].0,
        reflections(width)[r].1,
        samples,
    );
    if p == polynomials.len() - 1 {
        lemma_fits_of_complete(
            width,
            polynomials[p],
            samples,
            reflections(width).len() as int,
            r,
        );
        let k = choose|k: int| 0 <= k < last.len() && last[k] == fit;
        assert(all[before.len() + k] == fit);
    } else {
        law_no_fitting_crc_is_missed(width, front, samples, p, r);
        let k = choose|k: int| 0 <= k < before.len() && before[k] == fit;
        assert(all[k] == fit);
    }
}

proof fn lemma_unrecognised_complete(width: u8, last: int, p: int)
    requires
        0 < p <= last <= 0xFFFF,
        !known_polynomials(width).contains(p as u16),
    ensures
        unrecognised(width, last).contains(p as u16),
    decreases last,
{
    let before = unrecognised(width, last - 1);
    let all = unrecognised(width, last);
    if p == last {
        assert(all[before.len() as int] == p as u16);
    } else {
        lemma_unrecognised_complete(width, last - 1, p);
        let k = choose|k: int| 0 <= k < before.len() && before[k] == p as u16;
        assert(all[k] == p as u16);
    }
}

/// An exhaustive solve tries every polynomial of the width but zero.
pub proof fn law_an_exhaustive_solve_tries_every_polynomial(width: u8, polynomial: u16)
    requires
        width == 8 || width == 16,
        0 < polynomial <= last_polynomial(width),
    ensures
        tried_polynomials(width, false).contains(polynomial),
{
    let known = known_polynomials(width);
    let rest = unrecognised(width, last_polynomial(width));
    let all = known + rest;
    if known.contains(polynomial) {
        let k = choose|k: int| 0 <= k < known.len() && known[k] == polynomial;
        assert(all[k] == polynomial);
    } else {
        lemma_unrecognised_complete(width, last_polynomial(width), polynomial as int);
        let k = choose|k: int| 0 <= k < rest.len() && rest[k] == polynomial;
        assert(all[known.len() + k] == polynomial);
    }
}

/// An additive checksum is found: where every sample of a one-byte target is an additive
/// checksum of its data, the solver reports an additive family.
pub proof fn law_additive_checksums_are_found(
    frames: Seq<Seq<u8>>,
    target: SolveTarget,
    op: AdditiveOp,
    offset: u8,
)
    requires
        target.byte_length == 1,
        observed_samples(frames, target).len() >= MIN_SAMPLES,
        forall|i: int|
            0 <= i < observed_samples(frames, target).len() ==> (#[trigger] observed_samples(
                frames,
                target,
            )[i]).observed == additive_value(op, offset, observed_samples(frames, target)[i].data),
    ensures
        additive_solution(frames, target) matches Some(solved) && {
            &&& solved.target == target
            &&& solved.kind is Additive
            &&& op is Xor ==> solved.kind == KindView::Additive { op, offset }
        },
{
    let samples = observed_samples(frames, target);
    assert forall|i: int| 0 <= i < samples.len() implies additive_residue(op, #[trigger] samples[i])
        == offset by {
        lemma_additive_residue(op, offset, samples[i]);
    }
    assert(additive_residue(op, samples[0]) == offset);
    assert(additive_agrees(op, samples));
}

proof fn lemma_offset_left(t: int, offset: int)
    requires
        0 <= offset < 256,
    ensures
        ((t + offset) % 256 - t) % 256 == offset,
        ((offset - t) % 256 + t) % 256 == offset,
{
}

proof fn lemma_additive_residue(op: AdditiveOp, offset: u8, sample: Sample)
    requires
        sample.observed == additive_value(op, offset, sample.data),
    ensures
        additive_residue(op, sample) == offset,
{
    let x = crate::algorithms::xor_of(sample.data);
    let t = crate::algorithms::byte_sum(sample.data);
    assert((x ^ offset) ^ x == offset) by (bit_vector);
    lemma_offset_left(t, offset as int);
    let v = additive_value(op, offset, sample.data);
    assert((sample.observed % 256) as u8 == v);
}

} // verus!
