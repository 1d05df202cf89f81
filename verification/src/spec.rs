//! One point in the checksum candidate space, and the sweep that measures many
//! of them against many frames at once.

use crate::algorithms::{calculate_checksum_simple, ChecksumAlgorithm};
use crate::frame::extract_checksum;
use crate::frame::{bound_byte_index, resolve_byte_index};
use vstd::prelude::*;

verus! {

/// One point in the checksum candidate space: where the checksum sits, how it is
/// read, and which bytes it is calculated over.
///
/// Both the unit the sweep iterates and the wire type for the single-spec live
/// check the dialog runs behind a hand-edited configuration.
#[derive(Debug, Clone, Copy, PartialEq, Eq, Structural)]
pub struct ChecksumSpec {
    pub algorithm: ChecksumAlgorithm,
    /// Byte offset of the checksum; negative counts from the end.
    pub position: i32,
    pub byte_length: usize,
    pub big_endian: bool,
    pub calc_start_byte: i32,
    pub calc_end_byte: i32,
}

/// How one spec fared across the sampled frames.
#[derive(Debug, Clone, Copy, PartialEq, Eq, Structural)]
pub struct ChecksumSpecResult {
    /// Index into the `specs` array the caller passed in.
    pub spec_index: usize,
    pub match_count: usize,
    /// Frames the spec actually fitted — frames too short for it are excluded
    /// rather than counted as misses.
    pub total_count: usize,
}

impl ChecksumSpec {
    /// Whether a frame can be measured: it carries the field, and the range
    /// leaves something to calculate over.
    pub open spec fn applies_to(self, frame: Seq<u8>) -> bool {
        &&& crate::frame::covered(
            frame,
            self.calc_start_byte as int,
            self.calc_end_byte as int,
        ).len() > 0
        &&& crate::frame::field_fits(
            frame.len() as int,
            self.position as int,
            self.byte_length as int,
        )
    }

    /// Whether a frame it applies to stores what the spec calculates.
    pub open spec fn reproduces(self, frame: Seq<u8>) -> bool {
        crate::frame::stored_checksum(
            frame,
            self.position as int,
            self.byte_length as int,
            self.big_endian,
        ) == crate::algorithms::checksum_of(
            self.algorithm,
            crate::frame::covered(frame, self.calc_start_byte as int, self.calc_end_byte as int),
        )
    }

    /// How many frames the spec applies to.
    pub open spec fn fitted(self, frames: Seq<Seq<u8>>) -> nat
        decreases frames.len(),
    {
        if frames.len() == 0 {
            0
        } else {
            self.fitted(frames.drop_last()) + if self.applies_to(frames.last()) {
                1nat
            } else {
                0
            }
        }
    }

    /// How many frames it applies to and reproduces.
    pub open spec fn matched(self, frames: Seq<Seq<u8>>) -> nat
        decreases frames.len(),
    {
        if frames.len() == 0 {
            0
        } else {
            self.matched(frames.drop_last()) + if self.applies_to(frames.last())
                && self.reproduces(frames.last()) {
                1nat
            } else {
                0
            }
        }
    }
}

/// The bytes of each frame.
pub open spec fn frame_bytes(frames: Seq<Vec<u8>>) -> Seq<Seq<u8>> {
    Seq::new(frames.len(), |i: int| frames[i]@)
}

/// What a sweep of the first `n` specs reports: one result for each spec that
/// fits some frame, in the order the specs were given.
pub open spec fn swept(frames: Seq<Seq<u8>>, specs: Seq<ChecksumSpec>) -> Seq<ChecksumSpecResult>
    decreases specs.len(),
{
    if specs.len() == 0 {
        Seq::empty()
    } else {
        let rest = swept(frames, specs.drop_last());
        let spec = specs.last();
        if spec.fitted(frames) > 0 {
            rest.push(
                (ChecksumSpecResult {
                    spec_index: (specs.len() - 1) as usize,
                    match_count: spec.matched(frames) as usize,
                    total_count: spec.fitted(frames) as usize,
                }),
            )
        } else {
            rest
        }
    }
}

/// A spec never matches more frames than it fits, nor fits more than there are.
pub proof fn law_matches_are_bounded(spec: ChecksumSpec, frames: Seq<Seq<u8>>)
    ensures
        spec.matched(frames) <= spec.fitted(frames) <= frames.len(),
    decreases frames.len(),
{
    if frames.len() > 0 {
        law_matches_are_bounded(spec, frames.drop_last());
    }
}

/// What a group of specs shares: the algorithm and the bytes it runs over.
struct SweepGroup {
    algorithm: ChecksumAlgorithm,
    calc_start_byte: i32,
    calc_end_byte: i32,
    /// The calculated value per frame; `None` where the range is degenerate for
    /// that frame.
    calculated: Vec<Option<u16>>,
}

impl SweepGroup {
    /// Whether a spec runs the algorithm of this group over the same bytes.
    spec fn shared_by(self, spec: ChecksumSpec) -> bool {
        &&& self.algorithm == spec.algorithm
        &&& self.calc_start_byte == spec.calc_start_byte
        &&& self.calc_end_byte == spec.calc_end_byte
    }

    spec fn holds_for(self, frames: Seq<Seq<u8>>) -> bool {
        &&& self.calculated@.len() == frames.len()
        &&& forall|i: int|
            0 <= i < frames.len() ==> #[trigger] self.calculated@[i] == group_value(
                frames[i],
                self.algorithm,
                self.calc_start_byte,
                self.calc_end_byte,
            )
    }
}

spec fn group_value(
    frame: Seq<u8>,
    algorithm: ChecksumAlgorithm,
    calc_start_byte: i32,
    calc_end_byte: i32,
) -> Option<u16> {
    let bytes = crate::frame::covered(frame, calc_start_byte as int, calc_end_byte as int);
    if bytes.len() > 0 {
        Some(crate::algorithms::checksum_of(algorithm, bytes))
    } else {
        None
    }
}

fn run_group(frames: &[Vec<u8>], spec: &ChecksumSpec) -> (r: SweepGroup)
    ensures
        r.algorithm == spec.algorithm,
        r.calc_start_byte == spec.calc_start_byte,
        r.calc_end_byte == spec.calc_end_byte,
        r.holds_for(frame_bytes(frames@)),
{
    let mut calculated: Vec<Option<u16>> = Vec::new();
    for i in 0..frames.len()
        invariant
            calculated@.len() == i,
            forall|j: int|
                0 <= j < i ==> #[trigger] calculated@[j] == group_value(
                    frames@[j]@,
                    spec.algorithm,
                    spec.calc_start_byte,
                    spec.calc_end_byte,
                ),
    {
        let frame = frames[i].as_slice();
        let start: usize = bound_byte_index(spec.calc_start_byte, frame.len());
        let end: usize = bound_byte_index(spec.calc_end_byte, frame.len());
        if start < end {
            calculated.push(
                Some(
                    calculate_checksum_simple(
                        spec.algorithm,
                        vstd::slice::slice_subrange(frame, start, end),
                    ),
                ),
            );
        } else {
            calculated.push(None);
        }
    }
    SweepGroup {
        algorithm: spec.algorithm,
        calc_start_byte: spec.calc_start_byte,
        calc_end_byte: spec.calc_end_byte,
        calculated,
    }
}

fn find_group(groups: &Vec<SweepGroup>, spec: &ChecksumSpec) -> (r: Option<usize>)
    ensures
        match r {
            Some(g) => {
                &&& g < groups@.len()
                &&& groups@[g as int].shared_by(*spec)
                &&& forall|i: int| 0 <= i < g ==> !(#[trigger] groups@[i]).shared_by(*spec)
            },
            None => forall|i: int|
                0 <= i < groups@.len() ==> !(#[trigger] groups@[i]).shared_by(*spec),
        },
{
    for g in 0..groups.len()
        invariant
            forall|i: int| 0 <= i < g ==> !(#[trigger] groups@[i]).shared_by(*spec),
    {
        let group = &groups[g];
        if group.algorithm == spec.algorithm && group.calc_start_byte == spec.calc_start_byte
            && group.calc_end_byte == spec.calc_end_byte {
            return Some(g);
        }
    }
    None
}

/// Run many checksum configurations against many frames.
///
/// Specs sharing an `(algorithm, calc_start_byte, calc_end_byte)` key are grouped
/// so the underlying CRC runs once per group per frame rather than once per spec —
/// the two endiannesses of a CRC-16, for instance, differ only in how the stored
/// value is read, never in what is calculated.
pub fn sweep_specs(frames: &[Vec<u8>], specs: &[ChecksumSpec]) -> (r: Vec<ChecksumSpecResult>)
    ensures
        r@ == swept(frame_bytes(frames@), specs@),
{
    let ghost all = frame_bytes(frames@);
    let mut groups: Vec<SweepGroup> = Vec::new();
    let mut results: Vec<ChecksumSpecResult> = Vec::new();
    for idx in 0..specs.len()
        invariant
            all == frame_bytes(frames@),
            forall|g: int| 0 <= g < groups@.len() ==> (#[trigger] groups@[g]).holds_for(all),
            results@ == swept(all, specs@.take(idx as int)),
    {
        let spec = &specs[idx];
        let g: usize = match find_group(&groups, spec) {
            Some(g) => g,
            None => {
                groups.push(run_group(frames, spec));
                groups.len() - 1
            },
        };
        let calculated = &groups[g].calculated;
        assert(groups@[g as int].holds_for(all));
        let mut match_count: usize = 0;
        let mut total_count: usize = 0;
        for i in 0..frames.len()
            invariant
                all == frame_bytes(frames@),
                calculated@.len() == all.len(),
                forall|j: int|
                    0 <= j < all.len() ==> #[trigger] calculated@[j] == group_value(
                        all[j],
                        spec.algorithm,
                        spec.calc_start_byte,
                        spec.calc_end_byte,
                    ),
                match_count == spec.matched(all.take(i as int)),
                total_count == spec.fitted(all.take(i as int)),
                match_count <= i,
                total_count <= i,
        {
            let frame = frames[i].as_slice();
            assert(all.take(i + 1).drop_last() == all.take(i as int));
            assert(all.take(i + 1).last() == frame@);
            let length: usize = frame.len();
            let at: usize = resolve_byte_index(spec.position, length);
            if let Some(value) = calculated[i] {
                if spec.byte_length <= length && at <= length - spec.byte_length {
                    total_count = total_count + 1;
                    let stored: u16 = extract_checksum(
                        frame,
                        spec.position,
                        spec.byte_length,
                        spec.big_endian,
                    );
                    if stored == value {
                        match_count = match_count + 1;
                    }
                }
            }
        }
        assert(all.take(all.len() as int) == all);
        assert(specs@.take(idx + 1).drop_last() == specs@.take(idx as int));
        if total_count > 0 {
            results.push(ChecksumSpecResult { spec_index: idx, match_count, total_count });
        }
    }
    assert(specs@.take(specs@.len() as int) == specs@);
    results
}

/// Grouping changes the work, never the answer: what a spec scores in a sweep
/// depends on the frames and that spec alone.
pub proof fn law_sweep_scores_each_spec_alone(
    frames: Seq<Seq<u8>>,
    specs: Seq<ChecksumSpec>,
    k: int,
)
    requires
        specs.len() <= usize::MAX,
        0 <= k < swept(frames, specs).len(),
    ensures
        ({
            let found = swept(frames, specs)[k];
            let alone = swept(frames, seq![specs[found.spec_index as int]]);
            &&& found.spec_index < specs.len()
            &&& alone.len() == 1
            &&& alone[0].match_count == found.match_count
            &&& alone[0].total_count == found.total_count
        }),
    decreases specs.len(),
{
    let found = swept(frames, specs)[k];
    let rest = swept(frames, specs.drop_last());
    if k < rest.len() {
        law_sweep_scores_each_spec_alone(frames, specs.drop_last(), k);
        assert(specs.drop_last()[found.spec_index as int] == specs[found.spec_index as int]);
    } else {
        let only = seq![specs.last()];
        assert(only.drop_last() == Seq::<ChecksumSpec>::empty());
        assert(swept(frames, only.drop_last()).len() == 0);
    }
}

} // verus!
