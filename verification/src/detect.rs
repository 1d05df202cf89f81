//! The detection engine: sweep a candidate space, score each candidate with a
//! composite confidence, return them ranked with notes explaining the verdict.

use crate::algorithms::{ChecksumAlgorithm, ALL_ALGORITHMS};
use crate::columns::{longest_length, profile, ColumnStats};
use crate::frame::{bound_byte_index, resolve_byte_index};
use crate::notes::{add_note, ChecksumNote};
use crate::spec::{sweep_specs, ChecksumSpec};
use crate::text::byte_hex;
use vstd::prelude::*;

verus! {

/// How many end-relative byte columns to profile, at minimum. The priors have to
/// reach every position being swept — a candidate past the profiled depth would
/// silently skip the constant-column rejection the whole design rests on.
pub const MIN_TAIL_DEPTH: i32 = 4;

/// Below this many samples, a constant column is not yet evidence of padding.
pub const CONSTANT_COLUMN_MIN_SAMPLES: usize = 8;

/// Cap on the returned candidate list.
pub const MAX_CANDIDATES: usize = 12;

/// Frames sampled for detection. The dialog reads the same number from the
/// capture, so both halves measure against one set.
pub const MAX_SAMPLES: usize = 200;

/// The percentage of samples a configuration has to reproduce to be worth
/// reporting by a scan.
pub const STRONG_MATCH_RATE: u32 = 95;

/// Confidence below which a configuration is not reported.
pub const MIN_CONFIDENCE: u8 = 35;

/// A percentage, as a fraction.
#[derive(Debug, Clone, Copy, PartialEq, Eq, Structural)]
pub struct Percentage {
    pub numerator: u32,
    pub denominator: u32,
}

impl Percentage {
    /// Whether `part` out of `whole` is at least this percentage.
    pub open spec fn reached_by(self, part: int, whole: int) -> bool {
        part * 100 * self.denominator >= self.numerator * whole
    }

    /// A whole number of percent.
    pub fn whole(percent: u32) -> (r: Self)
        ensures
            r == (Percentage { numerator: percent, denominator: 1 }),
    {
        Percentage { numerator: percent, denominator: 1 }
    }

    /// Whether `part` out of `whole` is at least this percentage.
    pub fn is_reached_by(self, part: usize, whole: usize) -> (r: bool)
        ensures
            r == self.reached_by(part as int, whole as int),
    {
        assert(part * 100 * self.denominator <= 0x1_0000_0000_0000_0000 * 100 * 0x1_0000_0000)
            by (nonlinear_arith)
            requires
                0 <= part <= usize::MAX,
                usize::MAX <= 0xFFFF_FFFF_FFFF_FFFF,
                0 <= self.denominator <= u32::MAX,
        ;
        assert(self.numerator * whole <= 0x1_0000_0000_0000_0000 * 0x1_0000_0000)
            by (nonlinear_arith)
            requires
                0 <= whole <= usize::MAX,
                usize::MAX <= 0xFFFF_FFFF_FFFF_FFFF,
                0 <= self.numerator <= u32::MAX,
        ;
        part as u128 * 100 * self.denominator as u128 >= self.numerator as u128 * whole as u128
    }
}

#[derive(Debug, Clone)]
pub struct ChecksumDetectionOptions {
    /// Checksum offsets to try, end-relative.
    pub positions: Vec<i32>,
    /// Restrict to checksums of these byte lengths. Empty means both.
    pub lengths: Vec<usize>,
    /// Byte offsets just past a declared header field, from the view's ID/Source
    /// chips. These widen the calculation-range candidates and earn a small
    /// confidence bonus; they never narrow the search.
    pub header_boundaries: Vec<i32>,
    /// Percentage below which a candidate is discarded.
    pub min_match_rate: Percentage,
    /// Confidence below which a candidate is discarded.
    pub min_confidence: u8,
}

/// Detection options, as a mathematical value.
#[verifier::ext_equal]
pub struct OptionsView {
    pub positions: Seq<i32>,
    pub lengths: Seq<usize>,
    pub header_boundaries: Seq<i32>,
    pub min_match_rate: Percentage,
    pub min_confidence: u8,
}

impl View for ChecksumDetectionOptions {
    type V = OptionsView;

    open spec fn view(&self) -> OptionsView {
        OptionsView {
            positions: self.positions@,
            lengths: self.lengths@,
            header_boundaries: self.header_boundaries@,
            min_match_rate: self.min_match_rate,
            min_confidence: self.min_confidence,
        }
    }
}

impl Default for ChecksumDetectionOptions {
    fn default() -> (r: Self)
        ensures
            r.positions@ == seq![-1i32, -2i32, -3i32],
            r.lengths@.len() == 0,
            r.header_boundaries@.len() == 0,
            r.min_match_rate == (Percentage { numerator: 50, denominator: 1 }),
            r.min_confidence == MIN_CONFIDENCE,
    {
        Self {
            positions: vec![-1, -2, -3],
            lengths: Vec::new(),
            header_boundaries: Vec::new(),
            min_match_rate: Percentage::whole(50),
            min_confidence: MIN_CONFIDENCE,
        }
    }
}

/// What one end-relative byte column looks like across the sample. This is the
/// structural evidence behind the priors: a column that never changes cannot be
/// a checksum, and one that takes many values probably is.
#[derive(Debug, Clone, Copy, PartialEq, Eq, Structural)]
pub struct ChecksumColumnStat {
    /// Negative index, e.g. -1 for the last byte.
    pub position: i32,
    pub distinct_values: usize,
    /// Set when the column holds one value across every sampled frame.
    pub constant_value: Option<u8>,
    pub sample_count: usize,
}

#[derive(Debug, Clone, Copy, PartialEq, Eq, Structural)]
pub struct CalcRange {
    pub calc_start_byte: i32,
    pub calc_end_byte: i32,
}

/// A checksum configuration that reproduces some or all of the sampled frames.
/// Its match rate is `match_count` out of `total_count`.
#[derive(Debug, PartialEq)]
pub struct ChecksumCandidate {
    pub algorithm: ChecksumAlgorithm,
    pub position: i32,
    pub length: usize,
    pub big_endian: bool,
    pub calc_start_byte: i32,
    pub calc_end_byte: i32,
    pub match_count: usize,
    pub total_count: usize,
    /// 0-100 composite score.
    pub confidence: u8,
    pub notes: Vec<ChecksumNote>,
    /// Other calculation ranges that scored identically. Kept rather than
    /// dropped, so a user who disagrees with the winner can see the alternatives.
    pub equivalent_ranges: Vec<CalcRange>,
}

#[derive(Debug, PartialEq)]
pub struct ChecksumDetectionResult {
    pub candidates: Vec<ChecksumCandidate>,
    pub best_candidate: Option<ChecksumCandidate>,
    pub tail_columns: Vec<ChecksumColumnStat>,
    /// Result-level explanation, including why nothing was found.
    pub notes: Vec<ChecksumNote>,
}

/// A candidate, as a mathematical value.
#[verifier::ext_equal]
pub struct CandidateView {
    pub spec: ChecksumSpec,
    pub match_count: usize,
    pub total_count: usize,
    pub confidence: u8,
    pub notes: Seq<crate::notes::NoteView>,
    pub equivalent_ranges: Seq<CalcRange>,
}

impl View for ChecksumCandidate {
    type V = CandidateView;

    open spec fn view(&self) -> CandidateView {
        CandidateView {
            spec: ChecksumSpec {
                algorithm: self.algorithm,
                position: self.position,
                byte_length: self.length,
                big_endian: self.big_endian,
                calc_start_byte: self.calc_start_byte,
                calc_end_byte: self.calc_end_byte,
            },
            match_count: self.match_count,
            total_count: self.total_count,
            confidence: self.confidence,
            notes: crate::notes::note_views(self.notes@),
            equivalent_ranges: self.equivalent_ranges@,
        }
    }
}

/// What each of a list of candidates is.
pub open spec fn candidate_views(candidates: Seq<ChecksumCandidate>) -> Seq<CandidateView> {
    candidates.map_values(|c: ChecksumCandidate| c@)
}

/// Copies of the given notes.
fn copy_notes(notes: &Vec<ChecksumNote>) -> (r: Vec<ChecksumNote>)
    ensures
        crate::notes::note_views(r@) == crate::notes::note_views(notes@),
{
    let mut out: Vec<ChecksumNote> = Vec::new();
    for i in 0..notes.len()
        invariant
            crate::notes::note_views(out@) == crate::notes::note_views(notes@).take(i as int),
    {
        add_note(&mut out, notes[i].clone());
        let ghost all = crate::notes::note_views(notes@);
        assert(all.take(i as int).push(all[i as int]) == all.take(i + 1));
    }
    let ghost all = crate::notes::note_views(notes@);
    assert(all.take(all.len() as int) == all);
    out
}

impl Clone for ChecksumCandidate {
    fn clone(&self) -> (r: Self)
        ensures
            r@ == self@,
    {
        let equivalent_ranges = vstd::slice::slice_to_vec(self.equivalent_ranges.as_slice());
        assert(equivalent_ranges@ == self.equivalent_ranges@);
        ChecksumCandidate {
            algorithm: self.algorithm,
            position: self.position,
            length: self.length,
            big_endian: self.big_endian,
            calc_start_byte: self.calc_start_byte,
            calc_end_byte: self.calc_end_byte,
            match_count: self.match_count,
            total_count: self.total_count,
            confidence: self.confidence,
            notes: copy_notes(&self.notes),
            equivalent_ranges,
        }
    }
}

// ---------------------------------------------------------------------------
// Columns
// ---------------------------------------------------------------------------

/// The statistics of the column `k` from the end.
pub open spec fn tail_stat(frames: Seq<Seq<u8>>, k: int) -> ChecksumColumnStat {
    let bytes = crate::columns::column_bytes(frames, k);
    ChecksumColumnStat {
        position: (-k) as i32,
        distinct_values: crate::columns::distinct_values(bytes) as usize,
        constant_value: crate::columns::sole_value(bytes),
        sample_count: bytes.len() as usize,
    }
}

/// How many tail columns a profile of the given depth has: as many as asked for
/// and at least [`MIN_TAIL_DEPTH`], but none that no frame reaches.
pub open spec fn tail_depth(frames: Seq<Seq<u8>>, depth: int) -> int {
    let wanted = if depth > MIN_TAIL_DEPTH {
        depth
    } else {
        MIN_TAIL_DEPTH as int
    };
    if wanted <= crate::columns::longest(frames) {
        wanted
    } else {
        crate::columns::longest(frames)
    }
}

/// The statistics of the last `tail_depth` columns, from the last byte back.
pub open spec fn tail_stats(frames: Seq<Seq<u8>>, depth: int) -> Seq<ChecksumColumnStat> {
    Seq::new(tail_depth(frames, depth) as nat, |i: int| tail_stat(frames, i + 1))
}

/// A profiled column as the sweep sees it.
pub open spec fn stat_of(column: ColumnStats) -> ChecksumColumnStat {
    ChecksumColumnStat {
        position: column.position,
        distinct_values: column.distinct_values,
        constant_value: column.constant_value,
        sample_count: column.sample_count,
    }
}

/// A profiled column as the sweep sees it.
pub fn tail_column(column: &ColumnStats) -> (r: ChecksumColumnStat)
    ensures
        r == stat_of(*column),
{
    ChecksumColumnStat {
        position: column.position,
        distinct_values: column.distinct_values,
        constant_value: column.constant_value,
        sample_count: column.sample_count,
    }
}

/// Profiled columns as the sweep sees them.
pub open spec fn stats_of(columns: Seq<ColumnStats>) -> Seq<ChecksumColumnStat> {
    columns.map_values(|c: ColumnStats| stat_of(c))
}

/// Profiled columns as the sweep sees them.
pub(crate) fn tail_columns(columns: &[ColumnStats]) -> (r: Vec<ChecksumColumnStat>)
    ensures
        r@ == stats_of(columns@),
{
    let mut out: Vec<ChecksumColumnStat> = Vec::new();
    for i in 0..columns.len()
        invariant
            out@ == stats_of(columns@).take(i as int),
    {
        out.push(tail_column(&columns[i]));
        assert(stats_of(columns@).take(i + 1) == stats_of(columns@).take(i as int).push(
            stat_of(columns@[i as int]),
        ));
    }
    out
}

/// Every column of a set of frames, as the sweep sees them.
pub open spec fn column_stats(frames: Seq<Seq<u8>>) -> Seq<ChecksumColumnStat> {
    Seq::new(crate::columns::longest(frames) as nat, |i: int| tail_stat(frames, i + 1))
}

/// Columns that describe the frames are the frames' columns.
pub proof fn lemma_column_stats(columns: Seq<ColumnStats>, frames: Seq<Seq<u8>>)
    requires
        columns.len() == crate::columns::longest(frames),
        columns.len() <= i32::MAX,
        forall|k: int|
            0 <= k < columns.len() ==> (#[trigger] columns[k]).describes(frames, k + 1),
    ensures
        stats_of(columns) == column_stats(frames),
{
    assert forall|k: int| 0 <= k < columns.len() implies stats_of(columns)[k] == column_stats(
        frames,
    )[k] by {
        assert(columns[k].describes(frames, k + 1));
    }
}

/// Profile the last `depth` byte columns (at least [`MIN_TAIL_DEPTH`]),
/// end-relative so frames of different lengths line up. Frames too short for a
/// column do not contribute.
pub fn analyse_tail_columns(frames: &[Vec<u8>], depth: i32) -> (r: Vec<ChecksumColumnStat>)
    ensures
        r@ == tail_stats(crate::spec::frame_bytes(frames@), depth as int),
{
    let ghost all = crate::spec::frame_bytes(frames@);
    let wanted: i32 = if depth > MIN_TAIL_DEPTH {
        depth
    } else {
        MIN_TAIL_DEPTH
    };
    let reach: usize = longest_length(frames);
    let count: usize = if wanted as usize <= reach {
        wanted as usize
    } else {
        reach
    };
    let mut out: Vec<ChecksumColumnStat> = Vec::new();
    for k in 0..count
        invariant
            all == crate::spec::frame_bytes(frames@),
            count <= reach,
            count <= i32::MAX,
            reach > 0 ==> exists|i: int|
                0 <= i < frames@.len() && (#[trigger] frames@[i])@.len() == reach,
            out@.len() == k,
            forall|j: int| 0 <= j < k ==> #[trigger] out@[j] == tail_stat(all, j + 1),
    {
        proof {
            let i = choose|i: int|
                0 <= i < frames@.len() && (#[trigger] frames@[i])@.len() == reach;
            assert(all[i] == frames@[i]@);
            crate::columns::lemma_column_reached(all, k + 1, i);
        }
        let column = profile(frames, k + 1);
        out.push(tail_column(&column));
    }
    out
}

/// The first column at a position.
pub open spec fn column_of(columns: Seq<ChecksumColumnStat>, position: int) -> Option<
    ChecksumColumnStat,
>
    decreases columns.len(),
{
    if columns.len() == 0 {
        None
    } else if columns[0].position == position {
        Some(columns[0])
    } else {
        column_of(columns.skip(1), position)
    }
}

fn column_at(columns: &[ChecksumColumnStat], position: i32) -> (r: Option<ChecksumColumnStat>)
    ensures
        r == column_of(columns@, position as int),
{
    assert(columns@.skip(0) == columns@);
    for i in 0..columns.len()
        invariant
            column_of(columns@, position as int) == column_of(
                columns@.skip(i as int),
                position as int,
            ),
    {
        assert(columns@.skip(i as int).skip(1) == columns@.skip(i + 1));
        if columns[i].position == position {
            return Some(columns[i]);
        }
    }
    None
}

/// Whether there is a column at a position, and it holds one value.
pub open spec fn is_constant_at(columns: Seq<ChecksumColumnStat>, position: int) -> bool {
    column_of(columns, position) matches Some(c) && c.constant_value is Some
}

/// Number of constant columns sitting immediately before `position`, of at most
/// `bound`.
pub open spec fn constant_run(
    columns: Seq<ChecksumColumnStat>,
    position: int,
    bound: nat,
) -> int
    decreases bound,
{
    if bound == 0 || !is_constant_at(columns, position - 1) {
        0
    } else {
        1 + constant_run(columns, position - 1, (bound - 1) as nat)
    }
}

proof fn lemma_run_in_range(columns: Seq<ChecksumColumnStat>, position: int, bound: nat)
    requires
        i32::MIN <= position <= i32::MAX,
    ensures
        0 <= constant_run(columns, position, bound) <= bound,
        position - constant_run(columns, position, bound) >= i32::MIN,
    decreases bound,
{
    if bound > 0 && is_constant_at(columns, position - 1) {
        lemma_column_position(columns, position - 1);
        lemma_run_in_range(columns, position - 1, (bound - 1) as nat);
    }
}

proof fn lemma_column_position(columns: Seq<ChecksumColumnStat>, position: int)
    ensures
        column_of(columns, position) matches Some(c) ==> c.position == position
            && columns.contains(c) && i32::MIN <= position <= i32::MAX,
    decreases columns.len(),
{
    if columns.len() > 0 {
        if columns[0].position == position {
            assert(columns.contains(columns[0]));
        } else {
            lemma_column_position(columns.skip(1), position);
            if let Some(c) = column_of(columns.skip(1), position) {
                let k = choose|k: int|
                    0 <= k < columns.skip(1).len() && columns.skip(1)[k] == c;
                assert(columns[k + 1] == c);
            }
        }
    }
}

/// Number of constant columns sitting immediately before `position`.
fn constant_run_before(position: i32, columns: &[ChecksumColumnStat]) -> (r: i32)
    requires
        columns@.len() <= i32::MAX,
    ensures
        r == constant_run(columns@, position as int, columns@.len()),
{
    let mut run: i32 = 0;
    let mut p: i32 = position;
    let bound: usize = columns.len();
    while (run as usize) < bound
        invariant_except_break
            bound == columns@.len(),
            columns@.len() <= i32::MAX,
            0 <= run <= bound,
            p == position - run,
            constant_run(columns@, position as int, columns@.len()) == run + constant_run(
                columns@,
                p as int,
                (bound - run) as nat,
            ),
        ensures
            run == constant_run(columns@, position as int, columns@.len()),
        decreases bound - run,
    {
        if p == i32::MIN {
            proof {
                lemma_column_position(columns@, p - 1);
            }
            break ;
        }
        match column_at(columns, p - 1) {
            Some(column) => {
                if column.constant_value.is_none() {
                    break ;
                }
            },
            None => {
                break ;
            },
        }
        run = run + 1;
        p = p - 1;
    }
    run
}

// ---------------------------------------------------------------------------
// The candidate space
// ---------------------------------------------------------------------------

/// The concatenation of what `f` makes of each element, in order.
pub open spec fn flat<A, B>(list: Seq<A>, f: spec_fn(A) -> Seq<B>) -> Seq<B>
    decreases list.len(),
{
    if list.len() == 0 {
        Seq::empty()
    } else {
        flat(list.drop_last(), f) + f(list.last())
    }
}

/// A strictly ascending list with `x` added, unless it is there.
pub open spec fn with_start(starts: Seq<i32>, x: i32) -> Seq<i32>
    decreases starts.len(),
{
    if starts.len() == 0 {
        seq![x]
    } else if starts.last() < x {
        starts.push(x)
    } else if starts.last() == x {
        starts
    } else {
        with_start(starts.drop_last(), x).push(starts.last())
    }
}

/// The calculation starts tried: the first three bytes, and just past every
/// declared header field, ascending.
pub open spec fn calc_starts(header_boundaries: Seq<i32>) -> Seq<i32>
    decreases header_boundaries.len(),
{
    if header_boundaries.len() == 0 {
        seq![0i32, 1, 2]
    } else {
        let before = calc_starts(header_boundaries.drop_last());
        if header_boundaries.last() >= 0 {
            with_start(before, header_boundaries.last())
        } else {
            before
        }
    }
}

/// The calculation ends tried for a position: the checksum itself, and before
/// the constant columns that precede it.
pub open spec fn calc_ends(columns: Seq<ChecksumColumnStat>, position: i32) -> Seq<i32> {
    let run = constant_run(columns, position as int, columns.len());
    if run > 0 {
        seq![position, (position - run) as i32]
    } else {
        seq![position]
    }
}

/// The calculation ranges tried for a position, end by end.
pub open spec fn ranges_for(
    columns: Seq<ChecksumColumnStat>,
    position: i32,
    header_boundaries: Seq<i32>,
) -> Seq<CalcRange> {
    flat(
        calc_ends(columns, position),
        |end: i32|
            calc_starts(header_boundaries).map_values(
                |start: i32| CalcRange { calc_start_byte: start, calc_end_byte: end },
            ),
    )
}

/// The byte orders worth trying: endianness only means something for a
/// multi-byte checksum.
pub open spec fn byte_orders(byte_length: int) -> Seq<bool> {
    if byte_length == 2 {
        seq![false, true]
    } else {
        seq![true]
    }
}

/// The specs of one algorithm, position and range: none where the range is
/// empty even in the longest frame.
pub open spec fn specs_of_range(
    algorithm: ChecksumAlgorithm,
    position: i32,
    range: CalcRange,
    max_length: int,
) -> Seq<ChecksumSpec> {
    if crate::frame::resolved(range.calc_end_byte as int, max_length) <= range.calc_start_byte {
        Seq::empty()
    } else {
        byte_orders(algorithm.width_bytes() as int).map_values(
            |big_endian: bool|
                ChecksumSpec {
                    algorithm,
                    position,
                    byte_length: algorithm.width_bytes() as usize,
                    big_endian,
                    calc_start_byte: range.calc_start_byte,
                    calc_end_byte: range.calc_end_byte,
                },
        )
    }
}

/// The specs of one algorithm at one position; none where the checksum would
/// overrun the end of the frame.
pub open spec fn specs_at(
    algorithm: ChecksumAlgorithm,
    position: i32,
    header_boundaries: Seq<i32>,
    columns: Seq<ChecksumColumnStat>,
    max_length: int,
) -> Seq<ChecksumSpec> {
    if position + algorithm.width_bytes() > 0 {
        Seq::empty()
    } else {
        flat(
            ranges_for(columns, position, header_boundaries),
            |range: CalcRange| specs_of_range(algorithm, position, range, max_length),
        )
    }
}

/// The specs of one algorithm; none where its width is excluded or no frame has
/// room for the checksum and a byte to calculate over.
pub open spec fn specs_for(
    algorithm: ChecksumAlgorithm,
    positions: Seq<i32>,
    lengths: Seq<usize>,
    header_boundaries: Seq<i32>,
    columns: Seq<ChecksumColumnStat>,
    max_length: int,
) -> Seq<ChecksumSpec> {
    let width = algorithm.width_bytes() as usize;
    if (lengths.len() > 0 && !lengths.contains(width)) || max_length < width + 1 {
        Seq::empty()
    } else {
        flat(
            positions,
            |position: i32|
                specs_at(algorithm, position, header_boundaries, columns, max_length),
        )
    }
}

/// The configurations worth testing.
pub open spec fn candidate_space(
    frames: Seq<Seq<u8>>,
    positions: Seq<i32>,
    lengths: Seq<usize>,
    header_boundaries: Seq<i32>,
    columns: Seq<ChecksumColumnStat>,
) -> Seq<ChecksumSpec> {
    flat(
        ALL_ALGORITHMS@,
        |algorithm: ChecksumAlgorithm|
            specs_for(
                algorithm,
                positions,
                lengths,
                header_boundaries,
                columns,
                crate::columns::longest(frames),
            ),
    )
}

fn insert_start(starts: &mut Vec<i32>, x: i32)
    ensures
        final(starts)@ == with_start(old(starts)@, x),
{
    let mut at: usize = starts.len();
    let ghost before = starts@;
    assert(before.take(before.len() as int) == before);
    assert(with_start(before, x) == with_start(before, x) + before.skip(before.len() as int));
    while at > 0 && starts[at - 1] > x
        invariant
            at <= starts@.len(),
            starts@ == before,
            with_start(before, x) == with_start(before.take(at as int), x) + before.skip(
                at as int,
            ),
        decreases at,
    {
        let ghost front = before.take(at as int);
        assert(front.drop_last() == before.take(at - 1));
        assert(before.skip(at - 1) == seq![front.last()] + before.skip(at as int));
        assert(with_start(front, x) == with_start(before.take(at - 1), x).push(front.last()));
        assert(with_start(before.take(at - 1), x).push(front.last()) + before.skip(at as int)
            == with_start(before.take(at - 1), x) + before.skip(at - 1));
        at = at - 1;
    }
    if at > 0 && starts[at - 1] == x {
        assert(before.take(at as int).last() == x);
        assert(with_start(before.take(at as int), x) == before.take(at as int));
        assert(before.take(at as int) + before.skip(at as int) == before);
        return ;
    }
    starts.insert(at, x);
    proof {
        let front = before.take(at as int);
        assert(with_start(front, x) == front.push(x));
        assert(starts@ == front.push(x) + before.skip(at as int));
    }
}

/// Every calculation range worth trying for a checksum at `position`.
///
/// `1` is not arbitrary as a start: a leading type/ID byte excluded from the
/// calculation is a common shape, and it is the one the declared-header hints
/// cannot supply when a field starts at byte 0.
pub fn calc_ranges(
    position: i32,
    columns: &[ChecksumColumnStat],
    header_boundaries: &[i32],
) -> (r: Vec<CalcRange>)
    requires
        columns@.len() <= i32::MAX,
    ensures
        r@ == ranges_for(columns@, position, header_boundaries@),
{
    let mut starts: Vec<i32> = vec![0, 1, 2];
    for i in 0..header_boundaries.len()
        invariant
            starts@ == calc_starts(header_boundaries@.take(i as int)),
    {
        let ghost next = header_boundaries@.take(i + 1);
        assert(next.drop_last() == header_boundaries@.take(i as int));
        if header_boundaries[i] >= 0 {
            insert_start(&mut starts, header_boundaries[i]);
        }
    }
    assert(header_boundaries@.take(header_boundaries@.len() as int) == header_boundaries@);
    let run: i32 = constant_run_before(position, columns);
    proof {
        lemma_run_in_range(columns@, position as int, columns@.len());
    }
    let mut ends: Vec<i32> = Vec::new();
    ends.push(position);
    if run > 0 {
        ends.push(position - run);
    }
    assert(ends@ == calc_ends(columns@, position));
    let ghost row = |end: i32|
        calc_starts(header_boundaries@).map_values(
            |start: i32| CalcRange { calc_start_byte: start, calc_end_byte: end },
        );
    let mut out: Vec<CalcRange> = Vec::new();
    for e in 0..ends.len()
        invariant
            starts@ == calc_starts(header_boundaries@),
            row == (|end: i32|
                calc_starts(header_boundaries@).map_values(
                    |start: i32| CalcRange { calc_start_byte: start, calc_end_byte: end },
                )),
            out@ == flat(ends@.take(e as int), row),
    {
        let calc_end_byte: i32 = ends[e];
        let ghost before = out@;
        for s in 0..starts.len()
            invariant
                starts@ == calc_starts(header_boundaries@),
                row == (|end: i32|
                    calc_starts(header_boundaries@).map_values(
                        |start: i32| CalcRange { calc_start_byte: start, calc_end_byte: end },
                    )),
                out@ == before + row(calc_end_byte).take(s as int),
        {
            out.push(CalcRange { calc_start_byte: starts[s], calc_end_byte });
            assert(out@ == before + row(calc_end_byte).take(s + 1));
        }
        assert(row(calc_end_byte).take(starts@.len() as int) == row(calc_end_byte));
        assert(ends@.take(e + 1).drop_last() == ends@.take(e as int));
        assert(ends@.take(e + 1).last() == calc_end_byte);
    }
    assert(ends@.take(ends@.len() as int) == ends@);
    out
}

fn push_range_specs(
    algorithm: ChecksumAlgorithm,
    position: i32,
    range: CalcRange,
    max_length: usize,
    specs: &mut Vec<ChecksumSpec>,
)
    ensures
        final(specs)@ == old(specs)@ + specs_of_range(
            algorithm,
            position,
            range,
            max_length as int,
        ),
{
    let byte_length: usize = algorithm.output_bytes();
    // Degenerate for every frame: an end-relative range is at its widest in the
    // longest frame, so if even that one has nothing to calculate over, none of
    // them do.
    let end: usize = resolve_byte_index(range.calc_end_byte, max_length);
    if range.calc_start_byte >= 0 && end <= range.calc_start_byte as usize {
        assert(specs@ == old(specs)@ + Seq::<ChecksumSpec>::empty());
        return ;
    }
    if byte_length == 2 {
        specs.push(
            ChecksumSpec {
                algorithm,
                position,
                byte_length,
                big_endian: false,
                calc_start_byte: range.calc_start_byte,
                calc_end_byte: range.calc_end_byte,
            },
        );
    }
    specs.push(
        ChecksumSpec {
            algorithm,
            position,
            byte_length,
            big_endian: true,
            calc_start_byte: range.calc_start_byte,
            calc_end_byte: range.calc_end_byte,
        },
    );
    proof {
        let added = specs_of_range(algorithm, position, range, max_length as int);
        assert(specs@ == old(specs)@ + added);
    }
}

fn contains_length(lengths: &Vec<usize>, x: usize) -> (r: bool)
    ensures
        r == lengths@.contains(x),
{
    for i in 0..lengths.len()
        invariant
            forall|j: int| 0 <= j < i ==> lengths@[j] != x,
    {
        if lengths[i] == x {
            assert(lengths@[i as int] == x);
            return true;
        }
    }
    false
}

/// The specs of one algorithm at one position, added to `specs`.
fn push_position_specs(
    algorithm: ChecksumAlgorithm,
    position: i32,
    header_boundaries: &[i32],
    columns: &[ChecksumColumnStat],
    max_length: usize,
    specs: &mut Vec<ChecksumSpec>,
)
    requires
        columns@.len() <= i32::MAX,
    ensures
        final(specs)@ == old(specs)@ + specs_at(
            algorithm,
            position,
            header_boundaries@,
            columns@,
            max_length as int,
        ),
{
    let byte_length: usize = algorithm.output_bytes();
    // The checksum must not overrun the end of the frame.
    if position as i64 + byte_length as i64 > 0 {
        assert(specs@ == old(specs)@ + Seq::<ChecksumSpec>::empty());
        return ;
    }
    let ranges = calc_ranges(position, columns, header_boundaries);
    let ghost start = specs@;
    let ghost of_range = |range: CalcRange|
        specs_of_range(algorithm, position, range, max_length as int);
    assert(specs@ == start + flat(ranges@.take(0), of_range));
    for i in 0..ranges.len()
        invariant
            of_range == (|range: CalcRange|
                specs_of_range(algorithm, position, range, max_length as int)),
            specs@ == start + flat(ranges@.take(i as int), of_range),
    {
        let ghost before = flat(ranges@.take(i as int), of_range);
        push_range_specs(algorithm, position, ranges[i], max_length, specs);
        assert(ranges@.take(i + 1).drop_last() == ranges@.take(i as int));
        assert(start + (before + of_range(ranges@[i as int])) == (start + before) + of_range(
            ranges@[i as int],
        ));
    }
    assert(ranges@.take(ranges@.len() as int) == ranges@);
}

/// Enumerate the configurations worth testing.
///
/// Length is not a free axis — the algorithm fixes it — so the space is
/// (algorithm × position) × calcStart × calcEnd × endianness, which stays in the
/// low hundreds rather than the thousands.
pub fn build_checksum_specs(
    frames: &[Vec<u8>],
    options: &ChecksumDetectionOptions,
    columns: &[ChecksumColumnStat],
) -> (r: Vec<ChecksumSpec>)
    requires
        columns@.len() <= i32::MAX,
    ensures
        r@ == candidate_space(
            crate::spec::frame_bytes(frames@),
            options.positions@,
            options.lengths@,
            options.header_boundaries@,
            columns@,
        ),
        all_fit(r@, options.positions@),
{
    proof {
        lemma_all_fit(
            crate::spec::frame_bytes(frames@),
            options.positions@,
            options.lengths@,
            options.header_boundaries@,
            columns@,
        );
    }
    // The longest frame, not the shortest. Feasibility here asks "can any frame
    // carry this configuration", because `sweep_specs` already excludes the
    // frames that individually cannot. Asking it of the shortest frame instead
    // lets one runt — a bare one-byte acknowledgement sharing the link — empty
    // the entire search space.
    let max_length: usize = longest_length(frames);
    let ghost of_algorithm = |algorithm: ChecksumAlgorithm|
        specs_for(
            algorithm,
            options.positions@,
            options.lengths@,
            options.header_boundaries@,
            columns@,
            max_length as int,
        );
    let all = ALL_ALGORITHMS;
    let mut specs: Vec<ChecksumSpec> = Vec::new();
    for a in 0..all.len()
        invariant
            columns@.len() <= i32::MAX,
            all@ == ALL_ALGORITHMS@,
            of_algorithm == (|algorithm: ChecksumAlgorithm|
                specs_for(
                    algorithm,
                    options.positions@,
                    options.lengths@,
                    options.header_boundaries@,
                    columns@,
                    max_length as int,
                )),
            specs@ == flat(all@.take(a as int), of_algorithm),
    {
        let algorithm: ChecksumAlgorithm = all[a];
        let ghost before = specs@;
        let byte_length: usize = algorithm.output_bytes();
        assert(all@.take(a + 1).drop_last() == all@.take(a as int));
        assert(before + Seq::<ChecksumSpec>::empty() == before);
        let wanted = options.lengths.len() == 0 || contains_length(&options.lengths, byte_length);
        // The checksum, plus at least one byte to calculate over, has to fit
        // inside a frame.
        if wanted && max_length >= byte_length + 1 {
            let ghost at = |position: i32|
                specs_at(
                    algorithm,
                    position,
                    options.header_boundaries@,
                    columns@,
                    max_length as int,
                );
            for p in 0..options.positions.len()
                invariant
                    columns@.len() <= i32::MAX,
                    at == (|position: i32|
                        specs_at(
                            algorithm,
                            position,
                            options.header_boundaries@,
                            columns@,
                            max_length as int,
                        )),
                    specs@ == before + flat(options.positions@.take(p as int), at),
            {
                let ghost so_far = flat(options.positions@.take(p as int), at);
                push_position_specs(
                    algorithm,
                    options.positions[p],
                    options.header_boundaries.as_slice(),
                    columns,
                    max_length,
                    &mut specs,
                );
                let ghost next = options.positions@.take(p + 1);
                assert(next.drop_last() == options.positions@.take(p as int));
                assert(before + (so_far + at(options.positions@[p as int])) == (before + so_far)
                    + at(options.positions@[p as int]));
            }
            assert(options.positions@.take(options.positions@.len() as int)
                == options.positions@);
            assert(of_algorithm(algorithm) == flat(options.positions@, at));
        } else {
            assert(of_algorithm(algorithm) == Seq::<ChecksumSpec>::empty());
        }
    }
    assert(all@.take(all@.len() as int) == all@);
    specs
}

// ---------------------------------------------------------------------------
// Scoring
// ---------------------------------------------------------------------------

/// Whether every frame was reproduced, of one at least.
pub open spec fn reproduces_all(match_count: int, total_count: int) -> bool {
    match_count >= total_count && match_count > 0
}

/// Points for the share of frames reproduced. A share of no frames is none.
pub open spec fn rate_points(match_count: int, total_count: int) -> int {
    if reproduces_all(match_count, total_count) {
        55
    } else if match_count == 0 {
        10
    } else if 100 * match_count >= 99 * total_count {
        48
    } else if 100 * match_count >= 95 * total_count {
        40
    } else if 100 * match_count >= 80 * total_count {
        25
    } else {
        10
    }
}

/// Points for how many frames were measured.
pub open spec fn volume_points(total_count: int) -> int {
    if total_count >= 200 {
        20
    } else if total_count >= 50 {
        15
    } else if total_count >= 20 {
        10
    } else if total_count >= 8 {
        5
    } else {
        0
    }
}

/// The most values a column could have shown, for a checksum of this width.
pub open spec fn value_span(column: ChecksumColumnStat, byte_length: int) -> int {
    let most = if byte_length == 2 {
        65536int
    } else {
        256
    };
    if column.sample_count <= most {
        column.sample_count as int
    } else {
        most
    }
}

/// Points for how much the checksum's column varies: a real checksum does.
pub open spec fn variety_points(column: Option<ChecksumColumnStat>, byte_length: int) -> int {
    match column {
        None => 0,
        Some(c) => {
            let span = value_span(c, byte_length);
            if span == 0 && c.distinct_values == 0 {
                0
            } else if 2 * c.distinct_values >= span {
                15
            } else if 5 * c.distinct_values >= span {
                8
            } else if 20 * c.distinct_values < span {
                -30
            } else {
                0
            }
        },
    }
}

/// The fewest bytes a range covers in any of the frames where it covers some; 0
/// where there is none.
pub open spec fn narrowest(frames: Seq<Seq<u8>>, start: int, end: int) -> int
    decreases frames.len(),
{
    if frames.len() == 0 {
        0
    } else {
        let before = narrowest(frames.drop_last(), start, end);
        let here = crate::frame::covered(frames.last(), start, end).len() as int;
        if here > 0 && (before == 0 || here < before) {
            here
        } else {
            before
        }
    }
}

/// Where the more significant byte of a two-byte checksum sits.
pub open spec fn high_byte(spec: ChecksumSpec) -> int {
    if spec.big_endian {
        spec.position as int
    } else {
        spec.position + 1
    }
}

/// Whether the column a checksum would sit in is padding.
pub open spec fn sits_on_padding(spec: ChecksumSpec, columns: Seq<ChecksumColumnStat>) -> bool {
    column_of(columns, spec.position as int) matches Some(c) && c.constant_value is Some
        && c.sample_count >= CONSTANT_COLUMN_MIN_SAMPLES
}

/// Whether a configuration leaves constant bytes before the checksum out of its
/// range.
pub open spec fn excludes_constant(spec: ChecksumSpec, columns: Seq<ChecksumColumnStat>) -> bool {
    spec.calc_end_byte < spec.position && is_constant_at(columns, spec.calc_end_byte as int)
}

/// The score of a configuration before it is held to 0–100.
pub open spec fn raw_score(
    spec: ChecksumSpec,
    match_count: int,
    total_count: int,
    columns: Seq<ChecksumColumnStat>,
    header_boundaries: Seq<i32>,
    frames: Seq<Seq<u8>>,
) -> int {
    rate_points(match_count, total_count) + volume_points(total_count) + variety_points(
        column_of(columns, spec.position as int),
        spec.byte_length as int,
    ) + (if spec.calc_end_byte == spec.position {
        10int
    } else {
        0
    }) + (if header_boundaries.contains(spec.calc_start_byte) {
        5int
    } else {
        0
    }) + (if excludes_constant(spec, columns) {
        5int
    } else {
        0
    }) - (if narrowest(frames, spec.calc_start_byte as int, spec.calc_end_byte as int) < 2 {
        15int
    } else {
        0
    }) - (if spec.byte_length == 2 && is_constant_at(columns, high_byte(spec)) {
        10int
    } else {
        0
    })
}

/// A score held to 0–100.
pub open spec fn confidence_of(score: int) -> u8 {
    if score < 0 {
        0
    } else if score > 100 {
        100
    } else {
        score as u8
    }
}

/// One note, where it applies.
pub open spec fn noted(applies: bool, note: crate::notes::NoteView) -> Seq<
    crate::notes::NoteView,
> {
    if applies {
        seq![note]
    } else {
        Seq::empty()
    }
}

/// The notes that explain a score, in order.
pub open spec fn score_notes(
    spec: ChecksumSpec,
    match_count: int,
    total_count: int,
    columns: Seq<ChecksumColumnStat>,
    header_boundaries: Seq<i32>,
    frames: Seq<Seq<u8>>,
) -> Seq<crate::notes::NoteView> {
    let column = column_of(columns, spec.position as int);
    let variety = variety_points(column, spec.byte_length as int);
    noted(
        reproduces_all(match_count, total_count),
        crate::notes::bare_note("matchesAll"@).number("count"@, total_count),
    ) + noted(
        !reproduces_all(match_count, total_count),
        crate::notes::bare_note("matchesSome"@).number("matched"@, match_count).number(
            "total"@,
            total_count,
        ),
    ) + noted(
        total_count < 8,
        crate::notes::bare_note("fewSamples"@).number("count"@, total_count),
    ) + noted(
        variety == 15,
        crate::notes::bare_note("columnVaries"@).number(
            "distinct"@,
            column->Some_0.distinct_values as int,
        ).number("samples"@, column->Some_0.sample_count as int),
    ) + noted(
        variety == -30,
        crate::notes::bare_note("columnNearlyConstant"@).number(
            "distinct"@,
            column->Some_0.distinct_values as int,
        ),
    ) + noted(
        header_boundaries.contains(spec.calc_start_byte),
        crate::notes::bare_note("startsAfterHeader"@).number(
            "byte"@,
            spec.calc_start_byte as int,
        ),
    ) + noted(
        excludes_constant(spec, columns),
        crate::notes::bare_note("constantExcluded"@).text(
            "value"@,
            "0x"@ + crate::text::hex_pair(
                column_of(columns, spec.calc_end_byte as int)->Some_0.constant_value->Some_0,
            ),
        ),
    ) + noted(
        narrowest(frames, spec.calc_start_byte as int, spec.calc_end_byte as int) < 2,
        crate::notes::bare_note("shortRange"@),
    ) + noted(
        spec.byte_length == 2 && is_constant_at(columns, high_byte(spec)),
        crate::notes::bare_note("highByteConstant"@),
    )
}

/// The candidate a swept configuration makes, unless it sits on padding.
pub open spec fn scored(
    spec: ChecksumSpec,
    match_count: usize,
    total_count: usize,
    columns: Seq<ChecksumColumnStat>,
    header_boundaries: Seq<i32>,
    frames: Seq<Seq<u8>>,
) -> Option<CandidateView> {
    if sits_on_padding(spec, columns) {
        None
    } else {
        Some(
            CandidateView {
                spec,
                match_count,
                total_count,
                confidence: confidence_of(
                    raw_score(
                        spec,
                        match_count as int,
                        total_count as int,
                        columns,
                        header_boundaries,
                        frames,
                    ),
                ),
                notes: score_notes(
                    spec,
                    match_count as int,
                    total_count as int,
                    columns,
                    header_boundaries,
                    frames,
                ),
                equivalent_ranges: Seq::empty(),
            },
        )
    }
}

/// Points for how many samples a configuration was measured on. Shared by every
/// scorer that ranks into one list.
pub fn volume_bonus(samples: usize) -> (r: i32)
    ensures
        r == volume_points(samples as int),
{
    if samples >= 200 {
        20
    } else if samples >= 50 {
        15
    } else if samples >= 20 {
        10
    } else if samples >= 8 {
        5
    } else {
        0
    }
}

/// The narrowest range this configuration ever actually calculates over, across
/// the frames it fits. Frames it does not fit are excluded here for the same
/// reason `sweep_specs` excludes them: they are not evidence about this spec.
fn narrowest_calc_span(spec: &ChecksumSpec, frames: &[Vec<u8>]) -> (r: usize)
    ensures
        r == narrowest(
            crate::spec::frame_bytes(frames@),
            spec.calc_start_byte as int,
            spec.calc_end_byte as int,
        ),
{
    let ghost all = crate::spec::frame_bytes(frames@);
    let mut span: usize = 0;
    for i in 0..frames.len()
        invariant
            all == crate::spec::frame_bytes(frames@),
            span == narrowest(
                all.take(i as int),
                spec.calc_start_byte as int,
                spec.calc_end_byte as int,
            ),
    {
        assert(all.take(i + 1).drop_last() == all.take(i as int));
        let length: usize = frames[i].len();
        let start: usize = bound_byte_index(spec.calc_start_byte, length);
        let end: usize = bound_byte_index(spec.calc_end_byte, length);
        if start < end && (span == 0 || end - start < span) {
            span = end - start;
        }
    }
    assert(all.take(all.len() as int) == all);
    span
}

fn contains_offset(list: &[i32], x: i32) -> (r: bool)
    ensures
        r == list@.contains(x),
{
    for i in 0..list.len()
        invariant
            forall|j: int| 0 <= j < i ==> list@[j] != x,
    {
        if list[i] == x {
            assert(list@[i as int] == x);
            return true;
        }
    }
    false
}

/// How much a column's variety is worth.
fn variety(column: Option<ChecksumColumnStat>, byte_length: usize) -> (r: i32)
    ensures
        r == variety_points(column, byte_length as int),
{
    match column {
        None => 0,
        Some(c) => {
            let most: usize = if byte_length == 2 {
                65536
            } else {
                256
            };
            let span: u128 = if c.sample_count <= most {
                c.sample_count as u128
            } else {
                most as u128
            };
            let distinct: u128 = c.distinct_values as u128;
            if span == 0 && distinct == 0 {
                0
            } else if 2 * distinct >= span {
                15
            } else if 5 * distinct >= span {
                8
            } else if 20 * distinct < span {
                -30
            } else {
                0
            }
        },
    }
}

/// How much the share of frames reproduced is worth.
fn rate(match_count: usize, total_count: usize) -> (r: i32)
    ensures
        r == rate_points(match_count as int, total_count as int),
{
    let m: u128 = match_count as u128;
    let t: u128 = total_count as u128;
    if m >= t && m > 0 {
        55
    } else if m == 0 {
        10
    } else if 100 * m >= 99 * t {
        48
    } else if 100 * m >= 95 * t {
        40
    } else if 100 * m >= 80 * t {
        25
    } else {
        10
    }
}

/// Add a note where it applies.
fn add_note_if(notes: &mut Vec<ChecksumNote>, applies: bool, note: ChecksumNote)
    ensures
        crate::notes::note_views(final(notes)@) == crate::notes::note_views(old(notes)@) + noted(
            applies,
            note@,
        ),
{
    let ghost before = crate::notes::note_views(notes@);
    if applies {
        add_note(notes, note);
        assert(before.push(note@) == before + seq![note@]);
    } else {
        assert(before + Seq::<crate::notes::NoteView>::empty() == before);
    }
}

fn note_rate(notes: &mut Vec<ChecksumNote>, match_count: usize, total_count: usize)
    ensures
        crate::notes::note_views(final(notes)@) == crate::notes::note_views(old(notes)@) + noted(
            reproduces_all(match_count as int, total_count as int),
            crate::notes::bare_note("matchesAll"@).number("count"@, total_count as int),
        ) + noted(
            !reproduces_all(match_count as int, total_count as int),
            crate::notes::bare_note("matchesSome"@).number(
                "matched"@,
                match_count as int,
            ).number("total"@, total_count as int),
        ) + noted(
            total_count < 8,
            crate::notes::bare_note("fewSamples"@).number("count"@, total_count as int),
        ),
{
    add_note_if(
        notes,
        match_count >= total_count && match_count > 0,
        ChecksumNote::new("matchesAll").with_count("count", total_count),
    );
    add_note_if(
        notes,
        match_count < total_count || match_count == 0,
        ChecksumNote::new("matchesSome").with_count("matched", match_count).with_count(
            "total",
            total_count,
        ),
    );
    add_note_if(
        notes,
        total_count < 8,
        ChecksumNote::new("fewSamples").with_count("count", total_count),
    );
}

fn note_variety(
    notes: &mut Vec<ChecksumNote>,
    column: Option<ChecksumColumnStat>,
    byte_length: usize,
) -> (r: i32)
    ensures
        r == variety_points(column, byte_length as int),
        crate::notes::note_views(final(notes)@) == crate::notes::note_views(old(notes)@) + noted(
            r == 15,
            crate::notes::bare_note("columnVaries"@).number(
                "distinct"@,
                column->Some_0.distinct_values as int,
            ).number("samples"@, column->Some_0.sample_count as int),
        ) + noted(
            r == -30,
            crate::notes::bare_note("columnNearlyConstant"@).number(
                "distinct"@,
                column->Some_0.distinct_values as int,
            ),
        ),
{
    let points: i32 = variety(column, byte_length);
    match column {
        Some(c) => {
            add_note_if(
                notes,
                points == 15,
                ChecksumNote::new("columnVaries").with_count(
                    "distinct",
                    c.distinct_values,
                ).with_count("samples", c.sample_count),
            );
            add_note_if(
                notes,
                points == -30,
                ChecksumNote::new("columnNearlyConstant").with_count(
                    "distinct",
                    c.distinct_values,
                ),
            );
        },
        None => {
            let ghost before = crate::notes::note_views(notes@);
            assert(before + Seq::<crate::notes::NoteView>::empty() == before);
        },
    }
    points
}

fn note_excluded(
    notes: &mut Vec<ChecksumNote>,
    spec: &ChecksumSpec,
    columns: &[ChecksumColumnStat],
) -> (r: bool)
    ensures
        r == excludes_constant(*spec, columns@),
        crate::notes::note_views(final(notes)@) == crate::notes::note_views(old(notes)@) + noted(
            r,
            crate::notes::bare_note("constantExcluded"@).text(
                "value"@,
                "0x"@ + crate::text::hex_pair(
                    column_of(columns@, spec.calc_end_byte as int)->Some_0.constant_value->Some_0,
                ),
            ),
        ),
{
    if spec.calc_end_byte < spec.position {
        if let Some(c) = column_at(columns, spec.calc_end_byte) {
            if let Some(value) = c.constant_value {
                add_note_if(
                    notes,
                    true,
                    ChecksumNote::new("constantExcluded").with_text("value", byte_hex(value)),
                );
                return true;
            }
        }
    }
    let ghost before = crate::notes::note_views(notes@);
    assert(before + Seq::<crate::notes::NoteView>::empty() == before);
    false
}

/// Whether the more significant byte of a two-byte checksum never moves.
fn high_byte_is_constant(spec: &ChecksumSpec, columns: &[ChecksumColumnStat]) -> (r: bool)
    ensures
        r == (spec.byte_length == 2 && is_constant_at(columns@, high_byte(*spec))),
{
    if spec.byte_length != 2 {
        return false;
    }
    let high: Option<ChecksumColumnStat> = if spec.big_endian {
        column_at(columns, spec.position)
    } else if spec.position == i32::MAX {
        proof {
            lemma_column_position(columns@, spec.position + 1);
        }
        None
    } else {
        column_at(columns, spec.position + 1)
    };
    match high {
        Some(c) => c.constant_value.is_some(),
        None => false,
    }
}

/// Score one swept configuration, or reject it.
///
/// Additive tiers plus corroboration bonuses and suspicion penalties. The
/// rejections matter as much as the score: an XOR or sum over an all-zero range
/// yields zero, which "matches" a constant 0x00 padding column perfectly and
/// would otherwise outrank the real answer.
#[verifier::rlimit(40)]
#[verifier::spinoff_prover]
pub fn score_candidate(
    spec: &ChecksumSpec,
    match_count: usize,
    total_count: usize,
    columns: &[ChecksumColumnStat],
    header_boundaries: &[i32],
    frames: &[Vec<u8>],
) -> (r: Option<ChecksumCandidate>)
    ensures
        (match r {
            Some(c) => Some(c@),
            None => None,
        }) == scored(
            *spec,
            match_count,
            total_count,
            columns@,
            header_boundaries@,
            crate::spec::frame_bytes(frames@),
        ),
{
    let column = column_at(columns, spec.position);
    // A constant column is padding, not a checksum — however well it matches.
    if let Some(c) = column {
        if c.constant_value.is_some() && c.sample_count >= CONSTANT_COLUMN_MIN_SAMPLES {
            return None;
        }
    }
    let mut notes: Vec<ChecksumNote> = Vec::new();
    let ghost none = crate::notes::note_views(notes@);
    assert(none == Seq::<crate::notes::NoteView>::empty());
    let mut score: i32 = rate(match_count, total_count) + volume_bonus(total_count);
    note_rate(&mut notes, match_count, total_count);
    // A real checksum column varies: cheap, structural, decisive.
    score = score + note_variety(&mut notes, column, spec.byte_length);
    if spec.calc_end_byte == spec.position {
        score = score + 10;
    }
    let after_header = contains_offset(header_boundaries, spec.calc_start_byte);
    if after_header {
        score = score + 5;
    }
    add_note_if(
        &mut notes,
        after_header,
        ChecksumNote::new("startsAfterHeader").with_offset("byte", spec.calc_start_byte),
    );
    if note_excluded(&mut notes, spec, columns) {
        score = score + 5;
    }
    // A short calculated range is matched by chance far too easily.

    let short = narrowest_calc_span(spec, frames) < 2;
    if short {
        score = score - 15;
    }
    add_note_if(&mut notes, short, ChecksumNote::new("shortRange"));
    // A 2-byte column whose high byte never moves is really a 1-byte checksum.
    let high_constant = high_byte_is_constant(spec, columns);
    if high_constant {
        score = score - 10;
    }
    add_note_if(&mut notes, high_constant, ChecksumNote::new("highByteConstant"));
    proof {
        let first = noted(
            reproduces_all(match_count as int, total_count as int),
            crate::notes::bare_note("matchesAll"@).number("count"@, total_count as int),
        );
        assert(none + first == first);
    }
    let confidence: u8 = if score < 0 {
        0
    } else if score > 100 {
        100
    } else {
        score as u8
    };
    Some(
        ChecksumCandidate {
            algorithm: spec.algorithm,
            position: spec.position,
            length: spec.byte_length,
            big_endian: spec.big_endian,
            calc_start_byte: spec.calc_start_byte,
            calc_end_byte: spec.calc_end_byte,
            match_count,
            total_count,
            confidence,
            notes,
            equivalent_ranges: Vec::new(),
        },
    )
}

// ---------------------------------------------------------------------------
// Ranking
// ---------------------------------------------------------------------------

/// Where an algorithm stands in the order of preference.
pub open spec fn preference(algorithm: ChecksumAlgorithm) -> int {
    match algorithm {
        ChecksumAlgorithm::Xor => 0,
        ChecksumAlgorithm::Sum8 => 1,
        ChecksumAlgorithm::Crc8 => 2,
        ChecksumAlgorithm::Crc8SaeJ1850 => 3,
        ChecksumAlgorithm::Crc8Autosar => 4,
        ChecksumAlgorithm::Crc8Maxim => 5,
        ChecksumAlgorithm::Crc8Cdma2000 => 6,
        ChecksumAlgorithm::Crc8DvbS2 => 7,
        ChecksumAlgorithm::Crc8Nissan => 8,
        ChecksumAlgorithm::Crc16Modbus => 9,
        ChecksumAlgorithm::Crc16Ccitt => 10,
    }
}

/// Whether one match rate is higher than another.
pub open spec fn higher_rate(a: CandidateView, b: CandidateView) -> bool {
    a.match_count * b.total_count > b.match_count * a.total_count
}

/// Whether two match rates are equal.
pub open spec fn same_rate(a: CandidateView, b: CandidateView) -> bool {
    a.match_count * b.total_count == b.match_count * a.total_count
}

/// Whether `a` ranks strictly before `b`: confidence, then match rate, then
/// parsimony — simpler explanations first.
pub open spec fn ranks_before(a: CandidateView, b: CandidateView) -> bool {
    if a.confidence != b.confidence {
        a.confidence > b.confidence
    } else if !same_rate(a, b) {
        higher_rate(a, b)
    } else if a.spec.byte_length != b.spec.byte_length {
        a.spec.byte_length < b.spec.byte_length
    } else if a.spec.calc_start_byte != b.spec.calc_start_byte {
        a.spec.calc_start_byte < b.spec.calc_start_byte
    } else {
        preference(a.spec.algorithm) < preference(b.spec.algorithm)
    }
}

/// A ranked list with `c` in its place, after everything it does not beat.
pub open spec fn with_ranked(ranked: Seq<CandidateView>, c: CandidateView) -> Seq<CandidateView>
    decreases ranked.len(),
{
    if ranked.len() == 0 {
        seq![c]
    } else if ranks_before(c, ranked.last()) {
        with_ranked(ranked.drop_last(), c).push(ranked.last())
    } else {
        ranked.push(c)
    }
}

/// A list in ranking order; equals keep the order they came in.
pub open spec fn ranked(candidates: Seq<CandidateView>) -> Seq<CandidateView>
    decreases candidates.len(),
{
    if candidates.len() == 0 {
        Seq::empty()
    } else {
        with_ranked(ranked(candidates.drop_last()), candidates.last())
    }
}

/// Whether two candidates differ at most in calculation range.
pub open spec fn same_geometry(a: CandidateView, b: CandidateView) -> bool {
    &&& a.spec.algorithm == b.spec.algorithm
    &&& a.spec.position == b.spec.position
    &&& a.spec.byte_length == b.spec.byte_length
    &&& a.spec.big_endian == b.spec.big_endian
}

/// The range a candidate calculates over.
pub open spec fn range_of(c: CandidateView) -> CalcRange {
    CalcRange { calc_start_byte: c.spec.calc_start_byte, calc_end_byte: c.spec.calc_end_byte }
}

/// A kept list with `c` folded in: into the first of its geometry, as one more
/// equivalent range if it matches equally well; as a new entry otherwise.
pub open spec fn fold_in(kept: Seq<CandidateView>, c: CandidateView) -> Seq<CandidateView>
    decreases kept.len(),
{
    if kept.len() == 0 {
        seq![c]
    } else if same_geometry(kept[0], c) {
        if same_rate(kept[0], c) {
            seq![
                CandidateView {
                    equivalent_ranges: kept[0].equivalent_ranges.push(range_of(c)),
                    ..kept[0]
                },
            ] + kept.skip(1)
        } else {
            kept
        }
    } else {
        seq![kept[0]] + fold_in(kept.skip(1), c)
    }
}

/// A ranked list with the entries of one geometry folded into the best of them.
pub open spec fn collapsed(candidates: Seq<CandidateView>) -> Seq<CandidateView>
    decreases candidates.len(),
{
    if candidates.len() == 0 {
        Seq::empty()
    } else {
        fold_in(collapsed(candidates.drop_last()), candidates.last())
    }
}

fn algorithm_rank(algorithm: ChecksumAlgorithm) -> (r: usize)
    ensures
        r == preference(algorithm),
{
    match algorithm {
        ChecksumAlgorithm::Xor => 0,
        ChecksumAlgorithm::Sum8 => 1,
        ChecksumAlgorithm::Crc8 => 2,
        ChecksumAlgorithm::Crc8SaeJ1850 => 3,
        ChecksumAlgorithm::Crc8Autosar => 4,
        ChecksumAlgorithm::Crc8Maxim => 5,
        ChecksumAlgorithm::Crc8Cdma2000 => 6,
        ChecksumAlgorithm::Crc8DvbS2 => 7,
        ChecksumAlgorithm::Crc8Nissan => 8,
        ChecksumAlgorithm::Crc16Modbus => 9,
        ChecksumAlgorithm::Crc16Ccitt => 10,
    }
}

/// The order of preference is the order of the list.
pub proof fn law_preference_is_the_listed_order(k: int)
    requires
        0 <= k < ALL_ALGORITHMS@.len(),
    ensures
        preference(ALL_ALGORITHMS@[k]) == k,
{
}

/// `a` out of `b`, cross-multiplied for comparison with `c` out of `d`.
pub(crate) fn cross(a: usize, d: usize) -> (r: u128)
    ensures
        r == a * d,
{
    assert(a * d <= 0xFFFF_FFFF_FFFF_FFFF * 0xFFFF_FFFF_FFFF_FFFF) by (nonlinear_arith)
        requires
            0 <= a <= usize::MAX,
            0 <= d <= usize::MAX,
            usize::MAX <= 0xFFFF_FFFF_FFFF_FFFF,
    ;
    a as u128 * d as u128
}

/// Confidence, then match rate, then parsimony: simpler explanations first.
fn is_better(a: &ChecksumCandidate, b: &ChecksumCandidate) -> (r: bool)
    ensures
        r == ranks_before(a@, b@),
{
    let rate_a: u128 = cross(a.match_count, b.total_count);
    let rate_b: u128 = cross(b.match_count, a.total_count);
    if a.confidence != b.confidence {
        a.confidence > b.confidence
    } else if rate_a != rate_b {
        rate_a > rate_b
    } else if a.length != b.length {
        a.length < b.length
    } else if a.calc_start_byte != b.calc_start_byte {
        a.calc_start_byte < b.calc_start_byte
    } else {
        algorithm_rank(a.algorithm) < algorithm_rank(b.algorithm)
    }
}

fn insert_ranked(list: &mut Vec<ChecksumCandidate>, c: ChecksumCandidate)
    ensures
        candidate_views(final(list)@) == with_ranked(candidate_views(old(list)@), c@),
{
    let ghost before = candidate_views(list@);
    let mut at: usize = list.len();
    assert(before.take(before.len() as int) == before);
    assert(with_ranked(before, c@) == with_ranked(before, c@) + before.skip(before.len() as int));
    while at > 0 && is_better(&c, &list[at - 1])
        invariant
            at <= list@.len(),
            list@ == old(list)@,
            before == candidate_views(list@),
            with_ranked(before, c@) == with_ranked(before.take(at as int), c@) + before.skip(
                at as int,
            ),
        decreases at,
    {
        let ghost front = before.take(at as int);
        assert(front.drop_last() == before.take(at - 1));
        assert(front.last() == list@[at - 1]@);
        assert(with_ranked(front, c@) == with_ranked(before.take(at - 1), c@).push(front.last()));
        assert(with_ranked(before.take(at - 1), c@).push(front.last()) + before.skip(at as int)
            == with_ranked(before.take(at - 1), c@) + before.skip(at - 1));
        at = at - 1;
    }
    proof {
        let front = before.take(at as int);
        if at > 0 {
            assert(front.last() == list@[at - 1]@);
        }
        assert(with_ranked(front, c@) == front.push(c@));
    }
    list.insert(at, c);
    assert(candidate_views(list@) == before.take(at as int).push(c@) + before.skip(at as int));
}

fn fold_candidate(kept: &mut Vec<ChecksumCandidate>, c: ChecksumCandidate)
    ensures
        candidate_views(final(kept)@) == fold_in(candidate_views(old(kept)@), c@),
{
    let ghost before = candidate_views(kept@);
    let mut at: usize = 0;
    assert(before.skip(0) == before);
    assert(fold_in(before, c@) == before.take(0) + fold_in(before, c@));
    while at < kept.len() && !(kept[at].algorithm == c.algorithm && kept[at].position == c.position
        && kept[at].length == c.length && kept[at].big_endian == c.big_endian)
        invariant
            at <= kept@.len(),
            kept@ == old(kept)@,
            before == candidate_views(kept@),
            fold_in(before, c@) == before.take(at as int) + fold_in(before.skip(at as int), c@),
        decreases kept@.len() - at,
    {
        let ghost rest = before.skip(at as int);
        assert(rest[0] == kept@[at as int]@);
        assert(rest.skip(1) == before.skip(at + 1));
        assert(before.take(at as int) + (seq![rest[0]] + fold_in(rest.skip(1), c@))
            == before.take(at + 1) + fold_in(before.skip(at + 1), c@));
        at = at + 1;
    }
    if at == kept.len() {
        assert(before.skip(at as int) == Seq::<CandidateView>::empty());
        kept.push(c);
        assert(candidate_views(kept@) == before.take(at as int) + seq![c@]);
    } else {
        let ghost rest = before.skip(at as int);
        assert(rest[0] == kept@[at as int]@);
        let rate_kept: u128 = cross(kept[at].match_count, c.total_count);
        let rate_new: u128 = cross(c.match_count, kept[at].total_count);
        if rate_kept == rate_new {
            let range = CalcRange {
                calc_start_byte: c.calc_start_byte,
                calc_end_byte: c.calc_end_byte,
            };
            let ghost winner = kept@[at as int]@;
            kept[at].equivalent_ranges.push(range);
            assert(kept@[at as int]@ == (CandidateView {
                equivalent_ranges: winner.equivalent_ranges.push(range),
                ..winner
            }));
            assert(candidate_views(kept@) == before.take(at as int) + (seq![kept@[at as int]@]
                + rest.skip(1)));
        } else {
            assert(before.take(at as int) + rest == before);
        }
    }
}

/// Rank, then fold configurations that differ only in calculation range into the
/// winner's `equivalent_ranges`.
///
/// Keying on the algorithm as well as the geometry keeps genuinely different
/// explanations visible while still collapsing the noise.
fn collapse_equivalent(candidates: Vec<ChecksumCandidate>) -> (r: Vec<ChecksumCandidate>)
    ensures
        candidate_views(r@) == collapsed(ranked(candidate_views(candidates@))),
{
    let ghost all = candidate_views(candidates@);
    let mut sorted: Vec<ChecksumCandidate> = Vec::new();
    assert(candidate_views(sorted@) == Seq::<CandidateView>::empty());
    for c in it: candidates
        invariant
            all == candidate_views(it.seq()),
            candidate_views(sorted@) == ranked(all.take(it.index() as int)),
    {
        assert(all.take(it.index() + 1).drop_last() == all.take(it.index() as int));
        assert(all.take(it.index() + 1).last() == c@);
        insert_ranked(&mut sorted, c);
    }
    assert(all.take(all.len() as int) == all);
    let ghost order = candidate_views(sorted@);
    let mut kept: Vec<ChecksumCandidate> = Vec::new();
    assert(candidate_views(kept@) == Seq::<CandidateView>::empty());
    for c in it: sorted
        invariant
            order == candidate_views(it.seq()),
            candidate_views(kept@) == collapsed(order.take(it.index() as int)),
    {
        assert(order.take(it.index() + 1).drop_last() == order.take(it.index() as int));
        assert(order.take(it.index() + 1).last() == c@);
        fold_candidate(&mut kept, c);
    }
    assert(order.take(order.len() as int) == order);
    kept
}

// ---------------------------------------------------------------------------
// Explaining
// ---------------------------------------------------------------------------

/// Why the search came up empty, from what the last byte does.
pub open spec fn empty_note(last: ChecksumColumnStat, frame_count: int) -> crate::notes::NoteView {
    match last.constant_value {
        Some(value) => crate::notes::bare_note("noneLastByteConstant"@).text(
            "value"@,
            "0x"@ + crate::text::hex_pair(value),
        ).number("frames"@, frame_count),
        None => crate::notes::bare_note("noneButLastByteVaries"@).number(
            "distinct"@,
            last.distinct_values as int,
        ).number("frames"@, frame_count),
    }
}

/// The columns sampled often enough to be called padding.
pub open spec fn well_sampled(columns: Seq<ChecksumColumnStat>) -> Seq<ChecksumColumnStat>
    decreases columns.len(),
{
    if columns.len() == 0 {
        Seq::empty()
    } else if columns.last().sample_count >= CONSTANT_COLUMN_MIN_SAMPLES {
        well_sampled(columns.drop_last()).push(columns.last())
    } else {
        well_sampled(columns.drop_last())
    }
}

/// Whether the column after `i` continues its run: the same constant, one byte
/// further from the end.
pub open spec fn continues(columns: Seq<ChecksumColumnStat>, i: int) -> bool {
    &&& i + 1 < columns.len()
    &&& columns[i + 1].constant_value == columns[i].constant_value
    &&& columns[i + 1].position == columns[i].position - 1
}

/// The last column of the run that `i` is in.
pub open spec fn run_end(columns: Seq<ChecksumColumnStat>, i: int) -> int
    decreases columns.len() - i,
{
    if continues(columns, i) {
        run_end(columns, i + 1)
    } else {
        i
    }
}

/// The note for a run of constant columns.
pub open spec fn run_note(
    columns: Seq<ChecksumColumnStat>,
    from: int,
    to: int,
) -> crate::notes::NoteView {
    let hex = "0x"@ + crate::text::hex_pair(columns[from].constant_value->Some_0);
    if to > from {
        crate::notes::bare_note("constantPaddingRun"@).number(
            "from"@,
            columns[to].position as int,
        ).number("to"@, columns[from].position as int).text("value"@, hex)
    } else {
        crate::notes::bare_note("constantPadding"@).number(
            "position"@,
            columns[from].position as int,
        ).text("value"@, hex)
    }
}

/// A run ends inside the list, at or after where it starts.
pub proof fn lemma_run_end(columns: Seq<ChecksumColumnStat>, i: int)
    requires
        0 <= i < columns.len(),
    ensures
        i <= run_end(columns, i) < columns.len(),
    decreases columns.len() - i,
{
    if continues(columns, i) {
        lemma_run_end(columns, i + 1);
    }
}

/// The notes for the runs of constant columns from `i` on, one for each run.
pub open spec fn run_notes(columns: Seq<ChecksumColumnStat>, i: int) -> Seq<
    crate::notes::NoteView,
>
    decreases columns.len() - i,
{
    if i >= columns.len() || i < 0 {
        Seq::empty()
    } else if columns[i].constant_value is None {
        run_notes(columns, i + 1)
    } else {
        let end = run_end(columns, i);
        proof {
            lemma_run_end(columns, i);
        }
        seq![run_note(columns, i, end)] + run_notes(columns, end + 1)
    }
}

/// Say why the search came up empty. A silent 0% reads as "your data is wrong";
/// naming what was looked at and what the tail actually looks like points at the
/// next thing to try.
fn explain_no_candidates(last: &ChecksumColumnStat, frame_count: usize) -> (r: ChecksumNote)
    ensures
        r@ == empty_note(*last, frame_count as int),
{
    match last.constant_value {
        Some(value) => ChecksumNote::new("noneLastByteConstant").with_text(
            "value",
            byte_hex(value),
        ).with_count("frames", frame_count),
        None => ChecksumNote::new("noneButLastByteVaries").with_count(
            "distinct",
            last.distinct_values,
        ).with_count("frames", frame_count),
    }
}

/// Report constant tail columns as runs rather than one note each.
///
/// An all-zero frame profiles four constant columns and produced four lines
/// saying the same thing in different words. Only columns sharing a value join a
/// run — `0x00` beside `0xFF` is two facts, not one.
fn constant_padding_notes(columns: &[ChecksumColumnStat]) -> (r: Vec<ChecksumNote>)
    ensures
        crate::notes::note_views(r@) == run_notes(well_sampled(columns@), 0),
{
    let mut padding: Vec<ChecksumColumnStat> = Vec::new();
    for i in 0..columns.len()
        invariant
            padding@ == well_sampled(columns@.take(i as int)),
    {
        assert(columns@.take(i + 1).drop_last() == columns@.take(i as int));
        if columns[i].sample_count >= CONSTANT_COLUMN_MIN_SAMPLES {
            padding.push(columns[i]);
        }
    }
    assert(columns@.take(columns@.len() as int) == columns@);
    let ghost all = padding@;
    let mut notes: Vec<ChecksumNote> = Vec::new();
    let mut index: usize = 0;
    assert(crate::notes::note_views(notes@) + run_notes(all, 0) == run_notes(all, 0));
    while index < padding.len()
        invariant
            index <= padding@.len(),
            all == padding@,
            crate::notes::note_views(notes@) + run_notes(all, index as int) == run_notes(all, 0),
        decreases padding@.len() - index,
    {
        let value: u8 = match padding[index].constant_value {
            Some(value) => value,
            None => {
                index = index + 1;
                continue ;
            },
        };
        // Columns arrive -1, -2, -3…, so a run is contiguous in this order.
        let start: usize = index;
        let mut end: usize = index;
        while end + 1 < padding.len() && padding[end + 1].constant_value == Some(value)
            && padding[end + 1].position as i64 == padding[end].position as i64 - 1
            invariant
                start <= end < padding@.len(),
                all == padding@,
                all[start as int].constant_value == Some(value),
                all[end as int].constant_value == Some(value),
                run_end(all, start as int) == run_end(all, end as int),
            decreases padding@.len() - end,
        {
            assert(continues(all, end as int));
            end = end + 1;
        }
        let ghost before = crate::notes::note_views(notes@);
        let note = if end > start {
            ChecksumNote::new("constantPaddingRun").with_offset(
                "from",
                padding[end].position,
            ).with_offset("to", padding[start].position).with_text("value", byte_hex(value))
        } else {
            ChecksumNote::new("constantPadding").with_offset(
                "position",
                padding[start].position,
            ).with_text("value", byte_hex(value))
        };
        assert(!continues(all, end as int));
        assert(note@ == run_note(all, start as int, end as int));
        add_note(&mut notes, note);
        index = end + 1;
        assert(before.push(note@) + run_notes(all, index as int) == before + (seq![note@]
            + run_notes(all, index as int)));
    }
    assert(crate::notes::note_views(notes@) + run_notes(all, index as int)
        == crate::notes::note_views(notes@));
    notes
}

// ---------------------------------------------------------------------------
// Detection
// ---------------------------------------------------------------------------

/// The candidates of a sweep that reach the match rate, in the order swept.
pub open spec fn scored_results(
    results: Seq<crate::spec::ChecksumSpecResult>,
    specs: Seq<ChecksumSpec>,
    floor: Percentage,
    columns: Seq<ChecksumColumnStat>,
    header_boundaries: Seq<i32>,
    frames: Seq<Seq<u8>>,
) -> Seq<CandidateView>
    decreases results.len(),
{
    if results.len() == 0 {
        Seq::empty()
    } else {
        let before = scored_results(
            results.drop_last(),
            specs,
            floor,
            columns,
            header_boundaries,
            frames,
        );
        let r = results.last();
        let candidate = scored(
            specs[r.spec_index as int],
            r.match_count,
            r.total_count,
            columns,
            header_boundaries,
            frames,
        );
        if floor.reached_by(r.match_count as int, r.total_count as int) && candidate is Some {
            before.push(candidate->Some_0)
        } else {
            before
        }
    }
}

/// The candidates of at least the given confidence.
pub open spec fn confident(candidates: Seq<CandidateView>, floor: u8) -> Seq<CandidateView>
    decreases candidates.len(),
{
    if candidates.len() == 0 {
        Seq::empty()
    } else if candidates.last().confidence >= floor {
        confident(candidates.drop_last(), floor).push(candidates.last())
    } else {
        confident(candidates.drop_last(), floor)
    }
}

/// At most the first `limit` of a list.
pub open spec fn at_most<A>(list: Seq<A>, limit: int) -> Seq<A> {
    if list.len() > limit {
        list.take(limit)
    } else {
        list
    }
}

/// The candidates detection reports over the given samples and columns.
pub open spec fn detected(
    frames: Seq<Seq<u8>>,
    options: OptionsView,
    columns: Seq<ChecksumColumnStat>,
) -> Seq<CandidateView> {
    let specs = candidate_space(
        frames,
        options.positions,
        options.lengths,
        options.header_boundaries,
        columns,
    );
    at_most(
        confident(
            collapsed(
                ranked(
                    scored_results(
                        crate::spec::swept(frames, specs),
                        specs,
                        options.min_match_rate,
                        columns,
                        options.header_boundaries,
                        frames,
                    ),
                ),
            ),
            options.min_confidence,
        ),
        MAX_CANDIDATES as int,
    )
}

/// The length of the shortest frame.
pub open spec fn shortest(frames: Seq<Seq<u8>>) -> int
    decreases frames.len(),
{
    if frames.len() == 0 {
        0
    } else if frames.len() == 1 {
        frames[0].len() as int
    } else {
        let before = shortest(frames.drop_last());
        if frames.last().len() < before {
            frames.last().len() as int
        } else {
            before
        }
    }
}

/// What detection says beside the candidates.
pub open spec fn detection_notes(
    frames: Seq<Seq<u8>>,
    options: OptionsView,
    columns: Seq<ChecksumColumnStat>,
) -> Seq<crate::notes::NoteView> {
    let specs = candidate_space(
        frames,
        options.positions,
        options.lengths,
        options.header_boundaries,
        columns,
    );
    let last = column_of(columns, -1);
    seq![
        crate::notes::bare_note("analysed"@).number("frames"@, frames.len() as int).number(
            "minLength"@,
            shortest(frames),
        ).number("maxLength"@, crate::columns::longest(frames)),
    ] + run_notes(well_sampled(columns), 0) + seq![
        crate::notes::bare_note("configurationsTested"@).number(
            "specs"@,
            specs.len() as int,
        ).number("algorithms"@, 11),
    ] + noted(
        detected(frames, options, columns).len() == 0 && last is Some,
        empty_note(last->Some_0, frames.len() as int),
    )
}

fn shortest_length(frames: &[Vec<u8>]) -> (r: usize)
    ensures
        r == shortest(crate::spec::frame_bytes(frames@)),
{
    let ghost all = crate::spec::frame_bytes(frames@);
    if frames.len() == 0 {
        return 0;
    }
    let mut least: usize = frames[0].len();
    for i in 1..frames.len()
        invariant
            frames@.len() > 0,
            all == crate::spec::frame_bytes(frames@),
            least == shortest(all.take(i as int)),
    {
        assert(all.take(i + 1).drop_last() == all.take(i as int));
        if frames[i].len() < least {
            least = frames[i].len();
        }
    }
    assert(all.take(all.len() as int) == all);
    least
}

proof fn lemma_swept_indices(frames: Seq<Seq<u8>>, specs: Seq<ChecksumSpec>, k: int)
    requires
        specs.len() <= usize::MAX,
        frames.len() <= usize::MAX,
        0 <= k < crate::spec::swept(frames, specs).len(),
    ensures
        ({
            let r = crate::spec::swept(frames, specs)[k];
            &&& r.spec_index < specs.len()
            &&& r.match_count == specs[r.spec_index as int].matched(frames)
            &&& r.total_count == specs[r.spec_index as int].fitted(frames)
            &&& r.total_count > 0
        }),
    decreases specs.len(),
{
    let before = crate::spec::swept(frames, specs.drop_last());
    if k < before.len() {
        lemma_swept_indices(frames, specs.drop_last(), k);
        let r = before[k];
        assert(specs.drop_last()[r.spec_index as int] == specs[r.spec_index as int]);
    } else {
        crate::spec::law_matches_are_bounded(specs.last(), frames);
    }
}

/// [`detect_checksum`] over samples already chosen and columns already profiled.
pub fn detect_checksum_with_columns(
    samples: &[Vec<u8>],
    options: &ChecksumDetectionOptions,
    columns: &[ChecksumColumnStat],
) -> (r: ChecksumDetectionResult)
    requires
        columns@.len() <= i32::MAX,
    ensures
        candidate_views(r.candidates@) == detected(
            crate::spec::frame_bytes(samples@),
            options@,
            columns@,
        ),
        r.best_candidate is Some <==> r.candidates@.len() > 0,
        r.best_candidate matches Some(best) ==> best@ == r.candidates@[0]@,
        is_searchable(crate::spec::frame_bytes(samples@), options@, columns@),
        is_sound_report(
            candidate_views(r.candidates@),
            crate::spec::frame_bytes(samples@),
            options@,
            columns@,
        ),
        r.tail_columns@ == columns@,
        crate::notes::note_views(r.notes@) == detection_notes(
            crate::spec::frame_bytes(samples@),
            options@,
            columns@,
        ),
{
    let ghost frames = crate::spec::frame_bytes(samples@);
    let mut notes: Vec<ChecksumNote> = Vec::new();
    add_note(
        &mut notes,
        ChecksumNote::new("analysed").with_count("frames", samples.len()).with_count(
            "minLength",
            shortest_length(samples),
        ).with_count("maxLength", longest_length(samples)),
    );
    let ghost opening = crate::notes::note_views(notes@);
    let mut padding = constant_padding_notes(columns);
    let ghost runs = crate::notes::note_views(padding@);
    notes.append(&mut padding);
    assert(crate::notes::note_views(notes@) == opening + runs);
    let specs = build_checksum_specs(samples, options, columns);
    let results = sweep_specs(samples, specs.as_slice());
    add_note(
        &mut notes,
        ChecksumNote::new("configurationsTested").with_count("specs", specs.len()).with_count(
            "algorithms",
            11,
        ),
    );
    let ghost so_far = crate::notes::note_views(notes@);
    let mut candidates: Vec<ChecksumCandidate> = Vec::new();
    assert(candidate_views(candidates@) == Seq::<CandidateView>::empty());
    for i in 0..results.len()
        invariant
            frames == crate::spec::frame_bytes(samples@),
            samples@.len() <= usize::MAX,
            specs@.len() <= usize::MAX,
            results@ == crate::spec::swept(frames, specs@),
            candidate_views(candidates@) == scored_results(
                results@.take(i as int),
                specs@,
                options.min_match_rate,
                columns@,
                options.header_boundaries@,
                frames,
            ),
    {
        let result = &results[i];
        proof {
            lemma_swept_indices(frames, specs@, i as int);
            assert(results@.take(i + 1).drop_last() == results@.take(i as int));
            assert(results@.take(i + 1).last() == *result);
        }
        let ghost before = candidate_views(candidates@);
        if options.min_match_rate.is_reached_by(result.match_count, result.total_count) {
            if let Some(c) = score_candidate(
                &specs[result.spec_index],
                result.match_count,
                result.total_count,
                columns,
                options.header_boundaries.as_slice(),
                samples,
            ) {
                candidates.push(c);
                assert(candidate_views(candidates@) == before.push(c@));
            }
        }
    }
    assert(results@.take(results@.len() as int) == results@);
    let folded = collapse_equivalent(candidates);
    let ghost list = candidate_views(folded@);
    let mut kept: Vec<ChecksumCandidate> = Vec::new();
    assert(candidate_views(kept@) == Seq::<CandidateView>::empty());
    for c in it: folded
        invariant
            list == candidate_views(it.seq()),
            candidate_views(kept@) == confident(
                list.take(it.index() as int),
                options.min_confidence,
            ),
    {
        assert(list.take(it.index() + 1).drop_last() == list.take(it.index() as int));
        assert(list.take(it.index() + 1).last() == c@);
        let ghost before = candidate_views(kept@);
        if c.confidence >= options.min_confidence {
            kept.push(c);
            assert(candidate_views(kept@) == before.push(c@));
        }
    }
    assert(list.take(list.len() as int) == list);
    let ghost every = candidate_views(kept@);
    if kept.len() > MAX_CANDIDATES {
        kept.truncate(MAX_CANDIDATES);
        assert(candidate_views(kept@) == every.take(MAX_CANDIDATES as int));
    }
    // Non-empty samples always yield a -1 column, so there is always something to
    // say about the byte a checksum would most likely occupy.

    let last = column_at(columns, -1);
    match last {
        Some(column) => {
            add_note_if(
                &mut notes,
                kept.len() == 0,
                explain_no_candidates(&column, samples.len()),
            );
        },
        None => {
            assert(so_far + Seq::<crate::notes::NoteView>::empty() == so_far);
        },
    }
    proof {
        let analysed = opening[0];
        assert(opening == seq![analysed]);
        assert(so_far == seq![analysed] + runs + seq![so_far.last()]);
    }
    let best_candidate: Option<ChecksumCandidate> = if kept.len() > 0 {
        Some(kept[0].clone())
    } else {
        None
    };
    let tail_columns = vstd::slice::slice_to_vec(columns);
    assert(tail_columns@ == columns@);
    proof {
        law_detection_reports_are_sound(frames, options@, columns@);
    }
    ChecksumDetectionResult { best_candidate, candidates: kept, tail_columns, notes }
}

/// Whether the configurations to test are few enough to be counted, as they are where
/// there was memory to list them.
pub open spec fn is_searchable(
    frames: Seq<Seq<u8>>,
    options: OptionsView,
    columns: Seq<ChecksumColumnStat>,
) -> bool {
    &&& frames.len() <= usize::MAX
    &&& candidate_space(
        frames,
        options.positions,
        options.lengths,
        options.header_boundaries,
        columns,
    ).len() <= usize::MAX
}

/// Whether a report keeps its promises: at most [`MAX_CANDIDATES`] candidates, best
/// first and in descending confidence, one of each geometry; each truthful, with the
/// confidence and the match rate asked for, and in a column that is not padding.
pub open spec fn is_sound_report(
    list: Seq<CandidateView>,
    frames: Seq<Seq<u8>>,
    options: OptionsView,
    columns: Seq<ChecksumColumnStat>,
) -> bool {
    &&& list.len() <= MAX_CANDIDATES
    &&& in_rank_order(list)
    &&& one_per_geometry(list)
    &&& forall|i: int, j: int|
        0 <= i < j < list.len() ==> (#[trigger] list[i]).confidence >= (
        #[trigger] list[j]).confidence
    &&& forall|i: int|
        0 <= i < list.len() ==> (#[trigger] list[i]).confidence >= options.min_confidence
            && truthful(list[i], frames, columns, options.min_match_rate)
}

/// The samples detection measures: the first [`MAX_SAMPLES`] frames that are not
/// empty.
pub open spec fn detection_samples(frames: Seq<Seq<u8>>) -> Seq<Seq<u8>> {
    at_most(crate::sampling::non_empty(frames), MAX_SAMPLES as int)
}

/// The samples are no longer than the frames they were taken from.
pub proof fn lemma_detection_samples_bounded(frames: Seq<Seq<u8>>, bound: int)
    requires
        bound >= 0,
        forall|i: int| 0 <= i < frames.len() ==> (#[trigger] frames[i]).len() <= bound,
    ensures
        crate::columns::longest(detection_samples(frames)) <= bound,
{
    lemma_non_empty_bounded(frames, bound);
    lemma_longest_bounded(detection_samples(frames), bound);
}

proof fn lemma_non_empty_bounded(frames: Seq<Seq<u8>>, bound: int)
    requires
        forall|i: int| 0 <= i < frames.len() ==> (#[trigger] frames[i]).len() <= bound,
    ensures
        forall|i: int|
            0 <= i < crate::sampling::non_empty(frames).len() ==> (
            #[trigger] crate::sampling::non_empty(frames)[i]).len() <= bound,
    decreases frames.len(),
{
    if frames.len() > 0 {
        let front = frames.drop_last();
        assert forall|i: int| 0 <= i < front.len() implies (#[trigger] front[i]).len() <= bound by {
            assert(front[i] == frames[i]);
        }
        lemma_non_empty_bounded(front, bound);
        let kept = crate::sampling::non_empty(front);
        assert forall|i: int| 0 <= i < crate::sampling::non_empty(frames).len() implies (
        #[trigger] crate::sampling::non_empty(frames)[i]).len() <= bound by {
            if i < kept.len() {
                assert(crate::sampling::non_empty(frames)[i] == kept[i]);
            } else {
                assert(frames[frames.len() - 1].len() <= bound);
            }
        }
    }
}

/// The longest of frames no longer than `bound` is no longer than that.
pub proof fn lemma_longest_bounded(frames: Seq<Seq<u8>>, bound: int)
    requires
        bound >= 0,
        forall|i: int| 0 <= i < frames.len() ==> (#[trigger] frames[i]).len() <= bound,
    ensures
        crate::columns::longest(frames) <= bound,
    decreases frames.len(),
{
    if frames.len() > 0 {
        lemma_longest_bounded(frames.drop_last(), bound);
        assert(frames[frames.len() - 1].len() <= bound);
    }
}

/// How deep the tail is profiled: to the deepest position swept.
pub open spec fn deepest(positions: Seq<i32>) -> int
    decreases positions.len(),
{
    if positions.len() == 0 {
        1
    } else if positions.len() == 1 {
        -(positions[0] as int)
    } else {
        let before = deepest(positions.drop_last());
        if -(positions.last() as int) > before {
            -(positions.last() as int)
        } else {
            before
        }
    }
}

pub(crate) fn first_samples(frames: &[Vec<u8>]) -> (r: Vec<Vec<u8>>)
    ensures
        crate::spec::frame_bytes(r@) == detection_samples(crate::spec::frame_bytes(frames@)),
{
    let ghost all = crate::spec::frame_bytes(frames@);
    let mut out: Vec<Vec<u8>> = Vec::new();
    assert(crate::spec::frame_bytes(out@) == Seq::<Seq<u8>>::empty());
    for i in 0..frames.len()
        invariant
            all == crate::spec::frame_bytes(frames@),
            crate::spec::frame_bytes(out@) == detection_samples(all.take(i as int)),
    {
        assert(all.take(i + 1).drop_last() == all.take(i as int));
        let ghost before = crate::spec::frame_bytes(out@);
        let ghost full = crate::sampling::non_empty(all.take(i as int));
        if frames[i].len() > 0 {
            if out.len() < MAX_SAMPLES {
                out.push(vstd::slice::slice_to_vec(frames[i].as_slice()));
                assert(crate::spec::frame_bytes(out@) == before.push(all[i as int]));
                assert(full.len() == before.len());
            } else {
                assert(full.push(all[i as int]).take(MAX_SAMPLES as int) == full.take(
                    MAX_SAMPLES as int,
                ));
                assert(full.len() == MAX_SAMPLES ==> full.take(MAX_SAMPLES as int) == full);
            }
        }
    }
    assert(all.take(all.len() as int) == all);
    out
}

/// Find the checksum configurations that best explain a set of frames.
pub fn detect_checksum(
    frames: &[Vec<u8>],
    options: &ChecksumDetectionOptions,
) -> (r: ChecksumDetectionResult)
    requires
        forall|i: int| 0 <= i < options.positions@.len() ==> #[trigger] options.positions@[i]
            > i32::MIN,
    ensures
        ({
            let samples = detection_samples(crate::spec::frame_bytes(frames@));
            let columns = tail_stats(samples, deepest(options.positions@));
            if samples.len() == 0 {
                &&& r.candidates@.len() == 0
                &&& r.best_candidate is None
                &&& r.tail_columns@.len() == 0
                &&& crate::notes::note_views(r.notes@) == seq![
                    crate::notes::bare_note("noFrames"@),
                ]
            } else {
                &&& candidate_views(r.candidates@) == detected(samples, options@, columns)
                &&& r.best_candidate is Some <==> r.candidates@.len() > 0
                &&& r.best_candidate matches Some(best) ==> best@ == r.candidates@[0]@
                &&& is_searchable(samples, options@, columns)
                &&& is_sound_report(candidate_views(r.candidates@), samples, options@, columns)
                &&& r.tail_columns@ == columns
                &&& crate::notes::note_views(r.notes@) == detection_notes(
                    samples,
                    options@,
                    columns,
                )
            }
        }),
{
    let samples = first_samples(frames);
    if samples.len() == 0 {
        let mut notes: Vec<ChecksumNote> = Vec::new();
        add_note(&mut notes, ChecksumNote::new("noFrames"));
        assert(crate::notes::note_views(notes@) == seq![crate::notes::bare_note("noFrames"@)]);
        return ChecksumDetectionResult {
            candidates: Vec::new(),
            best_candidate: None,
            tail_columns: Vec::new(),
            notes,
        };
    }
    // Profile at least as deep as the deepest position being swept.

    let mut depth: i32 = 1;
    for i in 0..options.positions.len()
        invariant
            forall|j: int| 0 <= j < options.positions@.len() ==> #[trigger] options.positions@[j]
                > i32::MIN,
            depth == deepest(options.positions@.take(i as int)),
    {
        let ghost next = options.positions@.take(i + 1);
        assert(next.drop_last() == options.positions@.take(i as int));
        assert(next.last() == options.positions@[i as int]);
        let back: i32 = -options.positions[i];
        if i == 0 || back > depth {
            depth = back;
        }
    }
    assert(options.positions@.take(options.positions@.len() as int) == options.positions@);
    let tail_columns = analyse_tail_columns(samples.as_slice(), depth);
    detect_checksum_with_columns(samples.as_slice(), options, tail_columns.as_slice())
}

// ---------------------------------------------------------------------------
// Laws
// ---------------------------------------------------------------------------

/// Whether everything in a list has a property.
pub open spec fn all_hold(list: Seq<CandidateView>, property: spec_fn(CandidateView) -> bool) -> bool {
    forall|i: int| 0 <= i < list.len() ==> property(#[trigger] list[i])
}

/// Whether a property does not depend on the equivalent ranges.
pub open spec fn ignores_ranges(property: spec_fn(CandidateView) -> bool) -> bool {
    forall|c: CandidateView, ranges: Seq<CalcRange>|
        property(c) ==> #[trigger] property(CandidateView { equivalent_ranges: ranges, ..c })
}

proof fn lemma_with_ranked_holds(
    list: Seq<CandidateView>,
    c: CandidateView,
    property: spec_fn(CandidateView) -> bool,
)
    requires
        all_hold(list, property),
        property(c),
    ensures
        all_hold(with_ranked(list, c), property),
    decreases list.len(),
{
    if list.len() > 0 && ranks_before(c, list.last()) {
        lemma_with_ranked_holds(list.drop_last(), c, property);
    }
}

proof fn lemma_ranked_holds(list: Seq<CandidateView>, property: spec_fn(CandidateView) -> bool)
    requires
        all_hold(list, property),
    ensures
        all_hold(ranked(list), property),
    decreases list.len(),
{
    if list.len() > 0 {
        lemma_ranked_holds(list.drop_last(), property);
        assert(property(list[list.len() - 1]));
        lemma_with_ranked_holds(ranked(list.drop_last()), list.last(), property);
    }
}

proof fn lemma_fold_in_holds(
    kept: Seq<CandidateView>,
    c: CandidateView,
    property: spec_fn(CandidateView) -> bool,
)
    requires
        ignores_ranges(property),
        all_hold(kept, property),
        property(c),
    ensures
        all_hold(fold_in(kept, c), property),
    decreases kept.len(),
{
    if kept.len() > 0 {
        assert(property(kept[0]));
        if same_geometry(kept[0], c) {
            let ranges = kept[0].equivalent_ranges.push(range_of(c));
            assert(property(CandidateView { equivalent_ranges: ranges, ..kept[0] }));
        } else {
            assert forall|i: int| 0 <= i < kept.skip(1).len() implies property(
                #[trigger] kept.skip(1)[i],
            ) by {
                assert(kept.skip(1)[i] == kept[i + 1]);
            }
            lemma_fold_in_holds(kept.skip(1), c, property);
            let rest = fold_in(kept.skip(1), c);
            assert forall|i: int| 0 <= i < fold_in(kept, c).len() implies property(
                #[trigger] fold_in(kept, c)[i],
            ) by {
                if i > 0 {
                    assert(fold_in(kept, c)[i] == rest[i - 1]);
                }
            }
        }
    }
}

proof fn lemma_collapsed_holds(list: Seq<CandidateView>, property: spec_fn(CandidateView) -> bool)
    requires
        ignores_ranges(property),
        all_hold(list, property),
    ensures
        all_hold(collapsed(list), property),
    decreases list.len(),
{
    if list.len() > 0 {
        lemma_collapsed_holds(list.drop_last(), property);
        assert(property(list[list.len() - 1]));
        lemma_fold_in_holds(collapsed(list.drop_last()), list.last(), property);
    }
}

proof fn lemma_confident_holds(
    list: Seq<CandidateView>,
    floor: u8,
    property: spec_fn(CandidateView) -> bool,
)
    requires
        all_hold(list, property),
    ensures
        all_hold(confident(list, floor), property),
        all_hold(confident(list, floor), |c: CandidateView| c.confidence >= floor),
    decreases list.len(),
{
    if list.len() > 0 {
        assert(property(list[list.len() - 1]));
        lemma_confident_holds(list.drop_last(), floor, property);
    }
}

/// Whether a candidate's counts are what its configuration really scores over
/// the frames, and it does not sit on padding.
pub open spec fn truthful(
    c: CandidateView,
    frames: Seq<Seq<u8>>,
    columns: Seq<ChecksumColumnStat>,
    floor: Percentage,
) -> bool {
    &&& c.match_count == c.spec.matched(frames)
    &&& c.total_count == c.spec.fitted(frames)
    &&& c.total_count > 0
    &&& !sits_on_padding(c.spec, columns)
    &&& floor.reached_by(c.match_count as int, c.total_count as int)
}

proof fn lemma_scored_results_truthful(
    frames: Seq<Seq<u8>>,
    specs: Seq<ChecksumSpec>,
    floor: Percentage,
    columns: Seq<ChecksumColumnStat>,
    header_boundaries: Seq<i32>,
    n: int,
)
    requires
        specs.len() <= usize::MAX,
        frames.len() <= usize::MAX,
        0 <= n <= crate::spec::swept(frames, specs).len(),
    ensures
        all_hold(
            scored_results(
                crate::spec::swept(frames, specs).take(n),
                specs,
                floor,
                columns,
                header_boundaries,
                frames,
            ),
            |c: CandidateView| truthful(c, frames, columns, floor),
        ),
    decreases n,
{
    if n > 0 {
        let results = crate::spec::swept(frames, specs);
        lemma_scored_results_truthful(frames, specs, floor, columns, header_boundaries, n - 1);
        lemma_swept_indices(frames, specs, n - 1);
        assert(results.take(n).drop_last() == results.take(n - 1));
        assert(results.take(n).last() == results[n - 1]);
    }
}

/// Every candidate reports its configuration truthfully: the counts are those
/// its spec has over the samples, they reach the asked match rate and
/// confidence, and the column it sits in is not padding, however well it
/// matches. There are never more than [`MAX_CANDIDATES`].
pub proof fn law_candidates_are_truthful(
    frames: Seq<Seq<u8>>,
    options: OptionsView,
    columns: Seq<ChecksumColumnStat>,
    k: int,
)
    requires
        is_searchable(frames, options, columns),
        0 <= k < detected(frames, options, columns).len(),
    ensures
        detected(frames, options, columns).len() <= MAX_CANDIDATES,
        truthful(
            detected(frames, options, columns)[k],
            frames,
            columns,
            options.min_match_rate,
        ),
        detected(frames, options, columns)[k].confidence >= options.min_confidence,
{
    let specs = candidate_space(
        frames,
        options.positions,
        options.lengths,
        options.header_boundaries,
        columns,
    );
    let results = crate::spec::swept(frames, specs);
    let property = |c: CandidateView| truthful(c, frames, columns, options.min_match_rate);
    lemma_scored_results_truthful(
        frames,
        specs,
        options.min_match_rate,
        columns,
        options.header_boundaries,
        results.len() as int,
    );
    assert(results.take(results.len() as int) == results);
    let list = scored_results(
        results,
        specs,
        options.min_match_rate,
        columns,
        options.header_boundaries,
        frames,
    );
    lemma_ranked_holds(list, property);
    lemma_collapsed_holds(ranked(list), property);
    lemma_confident_holds(collapsed(ranked(list)), options.min_confidence, property);
    let kept = confident(collapsed(ranked(list)), options.min_confidence);
    assert(detected(frames, options, columns)[k] == kept[k]);
    assert(property(kept[k]));
    let sure = |c: CandidateView| c.confidence >= options.min_confidence;
    assert(sure(kept[k]));
}

/// Whether a list is in ranking order.
pub open spec fn in_rank_order(list: Seq<CandidateView>) -> bool {
    forall|i: int, j: int|
        0 <= i < j < list.len() ==> !ranks_before(#[trigger] list[j], #[trigger] list[i])
}

/// Whether no two candidates of a list share a geometry.
pub open spec fn one_per_geometry(list: Seq<CandidateView>) -> bool {
    forall|i: int, j: int|
        0 <= i < j < list.len() ==> !same_geometry(#[trigger] list[i], #[trigger] list[j])
}

/// Whether `a` may stand before `b`.
pub open spec fn may_precede(a: CandidateView, b: CandidateView) -> bool {
    !ranks_before(b, a)
}

proof fn lemma_rates_chain(am: int, at: int, bm: int, bt: int, cm: int, ct: int)
    by (nonlinear_arith)
    requires
        at > 0,
        bt > 0,
        ct > 0,
        am * bt >= bm * at,
        bm * ct >= cm * bt,
    ensures
        am * ct >= cm * at,
        am * bt > bm * at ==> am * ct > cm * at,
        bm * ct > cm * bt ==> am * ct > cm * at,
{
    assert((am * ct - cm * at) * bt == (am * bt - bm * at) * ct + (bm * ct - cm * bt) * at);
}

proof fn lemma_precedence_is_transitive(a: CandidateView, b: CandidateView, c: CandidateView)
    requires
        a.total_count > 0,
        b.total_count > 0,
        c.total_count > 0,
        may_precede(a, b),
        may_precede(b, c),
    ensures
        may_precede(a, c),
{
    if a.confidence == b.confidence && b.confidence == c.confidence {
        lemma_rates_chain(
            a.match_count as int,
            a.total_count as int,
            b.match_count as int,
            b.total_count as int,
            c.match_count as int,
            c.total_count as int,
        );
    }
}

proof fn lemma_with_ranked_in_order(list: Seq<CandidateView>, c: CandidateView)
    requires
        in_rank_order(list),
        all_hold(list, |x: CandidateView| x.total_count > 0),
        c.total_count > 0,
    ensures
        in_rank_order(with_ranked(list, c)),
    decreases list.len(),
{
    let counted = |x: CandidateView| x.total_count > 0;
    assert forall|i: int| 0 <= i < list.len() implies (#[trigger] list[i]).total_count > 0 by {
        assert(counted(list[i]));
    }
    if list.len() > 0 {
        let last = list.last();
        if ranks_before(c, last) {
            let front = list.drop_last();
            lemma_with_ranked_in_order(front, c);
            let before_last = |x: CandidateView| may_precede(x, last);
            assert forall|i: int| 0 <= i < front.len() implies before_last(#[trigger] front[i]) by {
                assert(!ranks_before(list[list.len() - 1], list[i]));
            }
            lemma_with_ranked_holds(front, c, before_last);
            let rest = with_ranked(front, c);
            assert forall|i: int, j: int| 0 <= i < j < rest.push(last).len() implies !ranks_before(
                #[trigger] rest.push(last)[j],
                #[trigger] rest.push(last)[i],
            ) by {
                if j == rest.len() {
                    assert(before_last(rest[i]));
                } else {
                    assert(!ranks_before(rest[j], rest[i]));
                }
            }
        } else {
            assert forall|i: int, j: int| 0 <= i < j < list.push(c).len() implies !ranks_before(
                #[trigger] list.push(c)[j],
                #[trigger] list.push(c)[i],
            ) by {
                if j == list.len() {
                    if i < list.len() - 1 {
                        assert(!ranks_before(list[list.len() - 1], list[i]));
                        lemma_precedence_is_transitive(list[i], last, c);
                    }
                } else {
                    assert(!ranks_before(list[j], list[i]));
                }
            }
        }
    }
}

proof fn lemma_ranked_in_order(list: Seq<CandidateView>)
    requires
        all_hold(list, |x: CandidateView| x.total_count > 0),
    ensures
        in_rank_order(ranked(list)),
    decreases list.len(),
{
    let counted = |x: CandidateView| x.total_count > 0;
    if list.len() > 0 {
        assert(counted(list[list.len() - 1]));
        assert(all_hold(list.drop_last(), counted));
        lemma_ranked_in_order(list.drop_last());
        lemma_ranked_holds(list.drop_last(), counted);
        lemma_with_ranked_in_order(ranked(list.drop_last()), list.last());
    }
}

/// Whether two candidates differ at most in their equivalent ranges.
pub open spec fn same_but_ranges(a: CandidateView, b: CandidateView) -> bool {
    a == CandidateView { equivalent_ranges: a.equivalent_ranges, ..b }
}

proof fn lemma_fold_in_shape(kept: Seq<CandidateView>, c: CandidateView)
    ensures
        fold_in(kept, c).len() == kept.len() || fold_in(kept, c).len() == kept.len() + 1,
        forall|i: int|
            0 <= i < kept.len() ==> same_but_ranges(#[trigger] fold_in(kept, c)[i], kept[i]),
        fold_in(kept, c).len() == kept.len() + 1 ==> fold_in(kept, c).last() == c,
        fold_in(kept, c).len() == kept.len() + 1 ==> forall|i: int|
            0 <= i < kept.len() ==> !same_geometry(#[trigger] kept[i], c),
    decreases kept.len(),
{
    if kept.len() > 0 && !same_geometry(kept[0], c) {
        let rest = fold_in(kept.skip(1), c);
        lemma_fold_in_shape(kept.skip(1), c);
        assert forall|i: int| 0 <= i < kept.len() implies same_but_ranges(
            #[trigger] fold_in(kept, c)[i],
            kept[i],
        ) by {
            if i > 0 {
                assert(fold_in(kept, c)[i] == rest[i - 1]);
                assert(kept.skip(1)[i - 1] == kept[i]);
            }
        }
        if rest.len() == kept.len() {
            assert forall|i: int| 0 <= i < kept.len() implies !same_geometry(
                #[trigger] kept[i],
                c,
            ) by {
                if i > 0 {
                    assert(kept.skip(1)[i - 1] == kept[i]);
                }
            }
        }
    }
}

proof fn lemma_collapsed_in_order(list: Seq<CandidateView>)
    requires
        in_rank_order(list),
    ensures
        in_rank_order(collapsed(list)),
        one_per_geometry(collapsed(list)),
    decreases list.len(),
{
    if list.len() > 0 {
        let front = list.drop_last();
        let c = list.last();
        lemma_collapsed_in_order(front);
        let before_c = |x: CandidateView| may_precede(x, c);
        assert forall|i: int| 0 <= i < front.len() implies before_c(#[trigger] front[i]) by {
            assert(!ranks_before(list[list.len() - 1], list[i]));
        }
        lemma_collapsed_holds(front, before_c);
        let kept = collapsed(front);
        lemma_fold_in_shape(kept, c);
        let out = fold_in(kept, c);
        assert forall|i: int, j: int| 0 <= i < j < out.len() implies !ranks_before(
            #[trigger] out[j],
            #[trigger] out[i],
        ) && !same_geometry(out[i], out[j]) by {
            assert(same_but_ranges(out[i], kept[i]));
            if j < kept.len() {
                assert(same_but_ranges(out[j], kept[j]));
                assert(!ranks_before(kept[j], kept[i]));
                assert(!same_geometry(kept[i], kept[j]));
            } else {
                assert(before_c(kept[i]));
                assert(!same_geometry(kept[i], c));
            }
        }
    }
}

proof fn lemma_confident_in_order(list: Seq<CandidateView>, floor: u8)
    requires
        in_rank_order(list),
        one_per_geometry(list),
    ensures
        in_rank_order(confident(list, floor)),
        one_per_geometry(confident(list, floor)),
    decreases list.len(),
{
    if list.len() > 0 {
        let front = list.drop_last();
        let last = list.last();
        lemma_confident_in_order(front, floor);
        let apart = |x: CandidateView| may_precede(x, last) && !same_geometry(x, last);
        assert forall|i: int| 0 <= i < front.len() implies apart(#[trigger] front[i]) by {
            assert(!ranks_before(list[list.len() - 1], list[i]));
            assert(!same_geometry(list[i], list[list.len() - 1]));
        }
        lemma_confident_holds(front, floor, apart);
        let kept = confident(front, floor);
        assert forall|i: int, j: int| 0 <= i < j < kept.push(last).len() implies !ranks_before(
            #[trigger] kept.push(last)[j],
            #[trigger] kept.push(last)[i],
        ) && !same_geometry(kept.push(last)[i], kept.push(last)[j]) by {
            if j == kept.len() {
                assert(apart(kept[i]));
            } else {
                assert(!ranks_before(kept[j], kept[i]));
                assert(!same_geometry(kept[i], kept[j]));
            }
        }
    }
}

/// The candidates come best first, and each geometry — algorithm, position,
/// length and byte order — is reported once: the ranges that explain it equally
/// well are folded into that one entry.
pub proof fn law_candidates_are_ranked_and_distinct(
    frames: Seq<Seq<u8>>,
    options: OptionsView,
    columns: Seq<ChecksumColumnStat>,
)
    requires
        is_searchable(frames, options, columns),
    ensures
        in_rank_order(detected(frames, options, columns)),
        one_per_geometry(detected(frames, options, columns)),
{
    let specs = candidate_space(
        frames,
        options.positions,
        options.lengths,
        options.header_boundaries,
        columns,
    );
    let results = crate::spec::swept(frames, specs);
    lemma_scored_results_truthful(
        frames,
        specs,
        options.min_match_rate,
        columns,
        options.header_boundaries,
        results.len() as int,
    );
    assert(results.take(results.len() as int) == results);
    let list = scored_results(
        results,
        specs,
        options.min_match_rate,
        columns,
        options.header_boundaries,
        frames,
    );
    let honest = |c: CandidateView| truthful(c, frames, columns, options.min_match_rate);
    let counted = |x: CandidateView| x.total_count > 0;
    assert forall|i: int| 0 <= i < list.len() implies counted(#[trigger] list[i]) by {
        assert(honest(list[i]));
    }
    lemma_ranked_in_order(list);
    lemma_collapsed_in_order(ranked(list));
    lemma_confident_in_order(collapsed(ranked(list)), options.min_confidence);
}

/// What one of a list gives is among what the whole list gives.
pub proof fn lemma_flat_holds<A, B>(list: Seq<A>, f: spec_fn(A) -> Seq<B>, a: A, b: B)
    requires
        list.contains(a),
        f(a).contains(b),
    ensures
        flat(list, f).contains(b),
    decreases list.len(),
{
    let i = choose|i: int| 0 <= i < list.len() && list[i] == a;
    let front = flat(list.drop_last(), f);
    let last = f(list.last());
    if i == list.len() - 1 {
        let j = choose|j: int| 0 <= j < last.len() && last[j] == b;
        assert((front + last)[front.len() + j] == b);
    } else {
        assert(list.drop_last()[i] == a);
        lemma_flat_holds(list.drop_last(), f, a, b);
        let j = choose|j: int| 0 <= j < front.len() && front[j] == b;
        assert((front + last)[j] == b);
    }
}

proof fn lemma_flat_source<A, B>(list: Seq<A>, f: spec_fn(A) -> Seq<B>, b: B) -> (a: A)
    requires
        flat(list, f).contains(b),
    ensures
        list.contains(a),
        f(a).contains(b),
    decreases list.len(),
{
    let front = flat(list.drop_last(), f);
    let last = f(list.last());
    let j = choose|j: int| 0 <= j < (front + last).len() && (front + last)[j] == b;
    if j < front.len() {
        assert(front[j] == b);
        let a = lemma_flat_source(list.drop_last(), f, b);
        let i = choose|i: int| 0 <= i < list.drop_last().len() && list.drop_last()[i] == a;
        assert(list[i] == a);
        a
    } else {
        assert(last[j - front.len()] == b);
        assert(list[list.len() - 1] == list.last());
        list.last()
    }
}

proof fn lemma_with_start_keeps(starts: Seq<i32>, x: i32, s: i32)
    requires
        starts.contains(s),
    ensures
        with_start(starts, x).contains(s),
    decreases starts.len(),
{
    let i = choose|i: int| 0 <= i < starts.len() && starts[i] == s;
    if starts.last() < x {
        assert(starts.push(x)[i] == s);
    } else if starts.last() > x {
        let front = with_start(starts.drop_last(), x);
        if i == starts.len() - 1 {
            assert(front.push(starts.last())[front.len() as int] == s);
        } else {
            assert(starts.drop_last()[i] == s);
            lemma_with_start_keeps(starts.drop_last(), x, s);
            let j = choose|j: int| 0 <= j < front.len() && front[j] == s;
            assert(front.push(starts.last())[j] == s);
        }
    }
}

/// What detection reports keeps its promises, whatever the frames and the options.
pub proof fn law_detection_reports_are_sound(
    frames: Seq<Seq<u8>>,
    options: OptionsView,
    columns: Seq<ChecksumColumnStat>,
)
    requires
        is_searchable(frames, options, columns),
    ensures
        is_sound_report(detected(frames, options, columns), frames, options, columns),
{
    let list = detected(frames, options, columns);
    law_candidates_are_ranked_and_distinct(frames, options, columns);
    if list.len() > 0 {
        law_candidates_are_truthful(frames, options, columns, 0);
    }
    assert forall|i: int| 0 <= i < list.len() implies (#[trigger] list[i]).confidence
        >= options.min_confidence && truthful(list[i], frames, columns, options.min_match_rate) by {
        law_candidates_are_truthful(frames, options, columns, i);
    }
    assert forall|i: int, j: int| 0 <= i < j < list.len() implies (#[trigger] list[i]).confidence
        >= (#[trigger] list[j]).confidence by {
        assert(!ranks_before(list[j], list[i]));
    }
}

proof fn lemma_with_start_adds(starts: Seq<i32>, x: i32, s: i32)
    requires
        with_start(starts, x).contains(s),
    ensures
        s == x || starts.contains(s),
    decreases starts.len(),
{
    let out = with_start(starts, x);
    let i = choose|i: int| 0 <= i < out.len() && out[i] == s;
    if starts.len() > 0 && starts.last() < x {
        if i < starts.len() {
            assert(starts[i] == s);
        }
    } else if starts.len() > 0 && starts.last() > x {
        let front = with_start(starts.drop_last(), x);
        if i < front.len() {
            assert(front[i] == s);
            lemma_with_start_adds(starts.drop_last(), x, s);
            if s != x {
                let j = choose|j: int|
                    0 <= j < starts.drop_last().len() && starts.drop_last()[j] == s;
                assert(starts[j] == s);
            }
        } else {
            assert(starts[starts.len() - 1] == s);
        }
    }
}

proof fn lemma_more_hints_more_starts(hints: Seq<i32>, extra: Seq<i32>, s: i32)
    ensures
        calc_starts(hints).contains(s) ==> calc_starts(hints + extra).contains(s),
        calc_starts(hints + extra).contains(s) ==> calc_starts(hints).contains(s)
            || extra.contains(s),
    decreases extra.len(),
{
    let all = hints + extra;
    if extra.len() == 0 {
        assert(all == hints);
    } else {
        let front = extra.drop_last();
        lemma_more_hints_more_starts(hints, front, s);
        assert(all.drop_last() == hints + front);
        assert(all.last() == extra.last());
        let before = calc_starts(hints + front);
        if all.last() >= 0 {
            if before.contains(s) {
                lemma_with_start_keeps(before, all.last(), s);
            }
            if calc_starts(all).contains(s) {
                lemma_with_start_adds(before, all.last(), s);
            }
        }
        if front.contains(s) {
            let j = choose|j: int| 0 <= j < front.len() && front[j] == s;
            assert(extra[j] == s);
        }
        assert(extra[extra.len() - 1] == extra.last());
    }
}

/// Whether a configuration is worth testing: its checksum has the width of its
/// algorithm, one that was asked for, and stands at one of the positions with room to
/// the end of the frame; its range is one of those tried there and is not empty in
/// the longest frame; and its byte order is one that its width has.
pub open spec fn is_worth_testing(
    spec: ChecksumSpec,
    frames: Seq<Seq<u8>>,
    positions: Seq<i32>,
    lengths: Seq<usize>,
    hints: Seq<i32>,
    columns: Seq<ChecksumColumnStat>,
) -> bool {
    let width = spec.algorithm.width_bytes();
    let longest = crate::columns::longest(frames);
    &&& ALL_ALGORITHMS@.contains(spec.algorithm)
    &&& spec.byte_length == width
    &&& lengths.len() == 0 || lengths.contains(spec.byte_length)
    &&& longest >= width + 1
    &&& positions.contains(spec.position)
    &&& spec.position + width <= 0
    &&& calc_ends(columns, spec.position).contains(spec.calc_end_byte)
    &&& calc_starts(hints).contains(spec.calc_start_byte)
    &&& crate::frame::resolved(spec.calc_end_byte as int, longest) > spec.calc_start_byte
    &&& byte_orders(width as int).contains(spec.big_endian)
}

/// The configurations tested are exactly those worth testing.
pub proof fn law_the_search_covers_what_is_worth_testing(
    spec: ChecksumSpec,
    frames: Seq<Seq<u8>>,
    positions: Seq<i32>,
    lengths: Seq<usize>,
    hints: Seq<i32>,
    columns: Seq<ChecksumColumnStat>,
)
    ensures
        candidate_space(frames, positions, lengths, hints, columns).contains(spec)
            <==> is_worth_testing(spec, frames, positions, lengths, hints, columns),
{
    let longest = crate::columns::longest(frames);
    let by = |a: ChecksumAlgorithm| specs_for(a, positions, lengths, hints, columns, longest);
    if candidate_space(frames, positions, lengths, hints, columns).contains(spec) {
        let algorithm = lemma_flat_source(ALL_ALGORITHMS@, by, spec);
        let at = |p: i32| specs_at(algorithm, p, hints, columns, longest);
        let position = lemma_flat_source(positions, at, spec);
        let of_range = |r: CalcRange| specs_of_range(algorithm, position, r, longest);
        let range = lemma_flat_source(ranges_for(columns, position, hints), of_range, spec);
        let row = |end: i32|
            calc_starts(hints).map_values(
                |start: i32| CalcRange { calc_start_byte: start, calc_end_byte: end },
            );
        let end = lemma_flat_source(calc_ends(columns, position), row, range);
        let tried = row(end);
        let i = choose|i: int| 0 <= i < tried.len() && tried[i] == range;
        assert(calc_starts(hints)[i] == range.calc_start_byte);
        let orders = byte_orders(algorithm.width_bytes() as int);
        let made = of_range(range);
        let k = choose|k: int| 0 <= k < made.len() && made[k] == spec;
        assert(orders[k] == spec.big_endian);
    }
    if is_worth_testing(spec, frames, positions, lengths, hints, columns) {
        let at = |p: i32| specs_at(spec.algorithm, p, hints, columns, longest);
        let of_range = |r: CalcRange| specs_of_range(spec.algorithm, spec.position, r, longest);
        let row = |end: i32|
            calc_starts(hints).map_values(
                |start: i32| CalcRange { calc_start_byte: start, calc_end_byte: end },
            );
        let range = CalcRange {
            calc_start_byte: spec.calc_start_byte,
            calc_end_byte: spec.calc_end_byte,
        };
        let starts = calc_starts(hints);
        let i = choose|i: int| 0 <= i < starts.len() && starts[i] == spec.calc_start_byte;
        assert(row(spec.calc_end_byte)[i] == range);
        lemma_flat_holds(calc_ends(columns, spec.position), row, spec.calc_end_byte, range);
        let orders = byte_orders(spec.algorithm.width_bytes() as int);
        let k = choose|k: int| 0 <= k < orders.len() && orders[k] == spec.big_endian;
        assert(of_range(range)[k] == spec);
        lemma_flat_holds(ranges_for(columns, spec.position, hints), of_range, range, spec);
        lemma_flat_holds(positions, at, spec.position, spec);
        lemma_flat_holds(ALL_ALGORITHMS@, by, spec.algorithm, spec);
    }
}

/// Declared header fields widen the search and never narrow it: every configuration
/// tried with fewer is tried with more, and one that is tried only with more starts
/// right behind one of those added.
pub proof fn law_header_hints_never_narrow_the_search(
    spec: ChecksumSpec,
    frames: Seq<Seq<u8>>,
    positions: Seq<i32>,
    lengths: Seq<usize>,
    hints: Seq<i32>,
    extra: Seq<i32>,
    columns: Seq<ChecksumColumnStat>,
)
    ensures
        candidate_space(frames, positions, lengths, hints, columns).contains(spec)
            ==> candidate_space(frames, positions, lengths, hints + extra, columns).contains(spec),
        candidate_space(frames, positions, lengths, hints + extra, columns).contains(spec)
            && !candidate_space(frames, positions, lengths, hints, columns).contains(spec)
            ==> extra.contains(spec.calc_start_byte),
{
    law_the_search_covers_what_is_worth_testing(spec, frames, positions, lengths, hints, columns);
    law_the_search_covers_what_is_worth_testing(
        spec,
        frames,
        positions,
        lengths,
        hints + extra,
        columns,
    );
    lemma_more_hints_more_starts(hints, extra, spec.calc_start_byte);
}

/// A checksum of one byte is tried in big-endian only, one of two bytes in both byte
/// orders.
pub proof fn law_byte_orders_are_tried_where_they_matter(
    spec: ChecksumSpec,
    frames: Seq<Seq<u8>>,
    positions: Seq<i32>,
    lengths: Seq<usize>,
    hints: Seq<i32>,
    columns: Seq<ChecksumColumnStat>,
)
    requires
        candidate_space(frames, positions, lengths, hints, columns).contains(spec),
    ensures
        spec.byte_length == 1 || spec.byte_length == 2,
        spec.byte_length == 1 ==> spec.big_endian,
        spec.byte_length == 2 ==> candidate_space(
            frames,
            positions,
            lengths,
            hints,
            columns,
        ).contains(ChecksumSpec { big_endian: !spec.big_endian, ..spec }),
{
    let other = ChecksumSpec { big_endian: !spec.big_endian, ..spec };
    law_the_search_covers_what_is_worth_testing(spec, frames, positions, lengths, hints, columns);
    law_the_search_covers_what_is_worth_testing(other, frames, positions, lengths, hints, columns);
    assert(byte_orders(2)[0] == false && byte_orders(2)[1] == true);
}

/// Whether configurations fit their algorithms and positions: each checksum has the
/// width of its algorithm and stands at one of the positions with room to the end of
/// the frame; one of one byte is in big-endian, one of two bytes is there in both byte
/// orders.
pub open spec fn all_fit(specs: Seq<ChecksumSpec>, positions: Seq<i32>) -> bool {
    forall|k: int|
        0 <= k < specs.len() ==> {
            let s = #[trigger] specs[k];
            &&& s.byte_length == s.algorithm.width_bytes()
            &&& positions.contains(s.position)
            &&& s.position + s.byte_length <= 0
            &&& s.byte_length == 1 ==> s.big_endian
            &&& s.byte_length == 2 ==> specs.contains(
                ChecksumSpec { big_endian: !s.big_endian, ..s },
            )
        }
}

/// Declared header fields only widen the search, and every search fits: with fields
/// added, each configuration tried before is tried, each new one starts right behind an
/// added field, and all of them fit their algorithms and positions.
pub proof fn law_added_hints_only_widen_the_search(
    frames: Seq<Seq<u8>>,
    positions: Seq<i32>,
    lengths: Seq<usize>,
    hints: Seq<i32>,
    extra: Seq<i32>,
    columns: Seq<ChecksumColumnStat>,
)
    ensures
        ({
            let fewer = candidate_space(frames, positions, lengths, hints, columns);
            let more = candidate_space(frames, positions, lengths, hints + extra, columns);
            &&& forall|s: ChecksumSpec| fewer.contains(s) ==> #[trigger] more.contains(s)
            &&& forall|s: ChecksumSpec| #[trigger]
                more.contains(s) && !fewer.contains(s) ==> extra.contains(s.calc_start_byte)
            &&& all_fit(more, positions)
        }),
{
    let fewer = candidate_space(frames, positions, lengths, hints, columns);
    let more = candidate_space(frames, positions, lengths, hints + extra, columns);
    assert forall|s: ChecksumSpec| fewer.contains(s) implies #[trigger] more.contains(s) by {
        law_header_hints_never_narrow_the_search(
            s,
            frames,
            positions,
            lengths,
            hints,
            extra,
            columns,
        );
    }
    assert forall|s: ChecksumSpec| #[trigger]
        more.contains(s) && !fewer.contains(s) implies extra.contains(s.calc_start_byte) by {
        law_header_hints_never_narrow_the_search(
            s,
            frames,
            positions,
            lengths,
            hints,
            extra,
            columns,
        );
    }
    lemma_all_fit(frames, positions, lengths, hints + extra, columns);
}

proof fn lemma_all_fit(
    frames: Seq<Seq<u8>>,
    positions: Seq<i32>,
    lengths: Seq<usize>,
    hints: Seq<i32>,
    columns: Seq<ChecksumColumnStat>,
)
    ensures
        all_fit(candidate_space(frames, positions, lengths, hints, columns), positions),
{
    let specs = candidate_space(frames, positions, lengths, hints, columns);
    assert forall|k: int| 0 <= k < specs.len() implies {
        let s = #[trigger] specs[k];
        &&& s.byte_length == s.algorithm.width_bytes()
        &&& positions.contains(s.position)
        &&& s.position + s.byte_length <= 0
        &&& s.byte_length == 1 ==> s.big_endian
        &&& s.byte_length == 2 ==> specs.contains(
            ChecksumSpec { big_endian: !s.big_endian, ..s },
        )
    } by {
        let s = specs[k];
        assert(specs.contains(s));
        law_the_search_covers_what_is_worth_testing(
            s,
            frames,
            positions,
            lengths,
            hints,
            columns,
        );
        law_byte_orders_are_tried_where_they_matter(
            s,
            frames,
            positions,
            lengths,
            hints,
            columns,
        );
    }
}

// ---------------------------------------------------------------------------
// Completeness
// ---------------------------------------------------------------------------

/// Whether a frame ends in a checksum at a configuration's position: what stands there,
/// read in its byte order, is the algorithm's value over the bytes from its start to the
/// checksum, at least two of them.
pub open spec fn carries(frame: Seq<u8>, spec: ChecksumSpec) -> bool {
    let at = frame.len() + spec.position;
    let value = crate::algorithms::checksum_of(
        spec.algorithm,
        frame.subrange(spec.calc_start_byte as int, at),
    ) as int;
    &&& 0 <= spec.calc_start_byte
    &&& spec.calc_start_byte + 2 <= at
    &&& at + spec.byte_length <= frame.len()
    &&& spec.byte_length == 1 ==> frame[at] == value
    &&& spec.byte_length == 2 && spec.big_endian ==> frame[at] * 256 + frame[at + 1] == value
    &&& spec.byte_length == 2 && !spec.big_endian ==> frame[at] + frame[at + 1] * 256 == value
}

/// Whether a column, where it was profiled, moves as a checksum's does: it is not
/// constant, and shows at least one in twenty of the values it could.
pub open spec fn moves_enough(
    columns: Seq<ChecksumColumnStat>,
    position: int,
    byte_length: int,
) -> bool {
    forall|j: int|
        0 <= j < columns.len() && (#[trigger] columns[j]).position == position ==> {
            &&& columns[j].constant_value is None
            &&& 20 * columns[j].distinct_values >= columns[j].sample_count || (if byte_length == 2 {
                20 * columns[j].distinct_values >= 65536
            } else {
                20 * columns[j].distinct_values >= 256
            })
        }
}

/// Whether a list reports a configuration: an entry of its geometry has its range, or
/// names it as equivalent.
pub open spec fn reports(list: Seq<CandidateView>, spec: ChecksumSpec) -> bool {
    exists|k: int|
        0 <= k < list.len() && {
            let c = #[trigger] list[k];
            let range = CalcRange {
                calc_start_byte: spec.calc_start_byte,
                calc_end_byte: spec.calc_end_byte,
            };
            &&& c.spec.algorithm == spec.algorithm
            &&& c.spec.position == spec.position
            &&& c.spec.byte_length == spec.byte_length
            &&& c.spec.big_endian == spec.big_endian
            &&& range_of(c) == range || c.equivalent_ranges.contains(range)
            &&& c.match_count == c.total_count
            &&& c.confidence >= 75
        }
}

proof fn lemma_carrier_applies(spec: ChecksumSpec, frame: Seq<u8>)
    requires
        carries(frame, spec),
        spec.byte_length == 1 || spec.byte_length == 2,
        spec.position < 0,
        spec.calc_end_byte == spec.position,
    ensures
        spec.applies_to(frame),
        spec.reproduces(frame),
        crate::frame::covered(
            frame,
            spec.calc_start_byte as int,
            spec.calc_end_byte as int,
        ).len() >= 2,
{
}

proof fn lemma_carriers_counted(spec: ChecksumSpec, frames: Seq<Seq<u8>>)
    requires
        forall|i: int| 0 <= i < frames.len() ==> carries(#[trigger] frames[i], spec),
        spec.byte_length == 1 || spec.byte_length == 2,
        spec.position < 0,
        spec.calc_end_byte == spec.position,
    ensures
        spec.fitted(frames) == frames.len(),
        spec.matched(frames) == frames.len(),
        frames.len() > 0 ==> narrowest(
            frames,
            spec.calc_start_byte as int,
            spec.calc_end_byte as int,
        ) >= 2,
        frames.len() == 0 ==> narrowest(
            frames,
            spec.calc_start_byte as int,
            spec.calc_end_byte as int,
        ) == 0,
    decreases frames.len(),
{
    if frames.len() > 0 {
        let front = frames.drop_last();
        assert forall|i: int| 0 <= i < front.len() implies carries(#[trigger] front[i], spec) by {
            assert(front[i] == frames[i]);
        }
        lemma_carriers_counted(spec, front);
        assert(carries(frames[frames.len() - 1], spec));
        lemma_carrier_applies(spec, frames.last());
    }
}

proof fn lemma_longest_reaches(frames: Seq<Seq<u8>>, i: int)
    requires
        0 <= i < frames.len(),
    ensures
        crate::columns::longest(frames) >= frames[i].len(),
    decreases frames.len(),
{
    if i < frames.len() - 1 {
        lemma_longest_reaches(frames.drop_last(), i);
    }
}

proof fn lemma_with_start_holds(starts: Seq<i32>, x: i32)
    ensures
        with_start(starts, x).contains(x),
    decreases starts.len(),
{
    let now = with_start(starts, x);
    if starts.len() == 0 || starts.last() < x {
        assert(now[now.len() - 1] == x);
    } else if starts.last() == x {
        assert(now[starts.len() - 1] == x);
    } else {
        lemma_with_start_holds(starts.drop_last(), x);
        let front = with_start(starts.drop_last(), x);
        let k = choose|k: int| 0 <= k < front.len() && front[k] == x;
        assert(now[k] == x);
    }
}

proof fn lemma_starts_hold(hints: Seq<i32>, x: i32)
    requires
        0 <= x <= 2 || x >= 0 && hints.contains(x),
    ensures
        calc_starts(hints).contains(x),
    decreases hints.len(),
{
    if hints.len() == 0 {
        assert(calc_starts(hints)[x as int] == x);
    } else {
        let front = hints.drop_last();
        let before = calc_starts(front);
        if hints.last() == x {
            lemma_with_start_holds(before, x);
        } else {
            if hints.contains(x) {
                let k = choose|k: int| 0 <= k < hints.len() && hints[k] == x;
                assert(front[k] == x);
            }
            lemma_starts_hold(front, x);
            if hints.last() >= 0 {
                lemma_with_start_keeps(before, hints.last(), x);
            }
        }
    }
}

proof fn lemma_swept_holds(frames: Seq<Seq<u8>>, specs: Seq<ChecksumSpec>, spec: ChecksumSpec) -> (k:
    int)
    requires
        specs.contains(spec),
        specs.len() <= usize::MAX,
        frames.len() <= usize::MAX,
        spec.fitted(frames) > 0,
    ensures
        0 <= k < crate::spec::swept(frames, specs).len(),
        crate::spec::swept(frames, specs)[k].spec_index < specs.len(),
        specs[crate::spec::swept(frames, specs)[k].spec_index as int] == spec,
    decreases specs.len(),
{
    let front = specs.drop_last();
    let before = crate::spec::swept(frames, front);
    if specs.last() == spec {
        before.len() as int
    } else {
        let i = choose|i: int| 0 <= i < specs.len() && specs[i] == spec;
        assert(front[i] == spec);
        let k = lemma_swept_holds(frames, front, spec);
        assert(crate::spec::swept(frames, specs)[k] == before[k]);
        assert(front[before[k].spec_index as int] == specs[before[k].spec_index as int]);
        k
    }
}

/// Whether a candidate is one that scoring a configuration on its counts gives.
spec fn is_scored(
    c: CandidateView,
    frames: Seq<Seq<u8>>,
    columns: Seq<ChecksumColumnStat>,
    hints: Seq<i32>,
) -> bool {
    &&& c.match_count == c.spec.matched(frames)
    &&& c.total_count == c.spec.fitted(frames)
    &&& c.total_count > 0
    &&& c.confidence == confidence_of(
        raw_score(
            c.spec,
            c.match_count as int,
            c.total_count as int,
            columns,
            hints,
            frames,
        ),
    )
}

proof fn lemma_scored_results_scored(
    frames: Seq<Seq<u8>>,
    specs: Seq<ChecksumSpec>,
    floor: Percentage,
    columns: Seq<ChecksumColumnStat>,
    hints: Seq<i32>,
    n: int,
    k: int,
)
    requires
        specs.len() <= usize::MAX,
        frames.len() <= usize::MAX,
        0 <= n <= crate::spec::swept(frames, specs).len(),
    ensures
        all_hold(
            scored_results(
                crate::spec::swept(frames, specs).take(n),
                specs,
                floor,
                columns,
                hints,
                frames,
            ),
            |c: CandidateView| is_scored(c, frames, columns, hints),
        ),
        0 <= k < n ==> ({
            let r = crate::spec::swept(frames, specs)[k];
            let c = scored(
                specs[r.spec_index as int],
                r.match_count,
                r.total_count,
                columns,
                hints,
                frames,
            );
            floor.reached_by(r.match_count as int, r.total_count as int) && c is Some
                ==> scored_results(
                crate::spec::swept(frames, specs).take(n),
                specs,
                floor,
                columns,
                hints,
                frames,
            ).contains(c->Some_0)
        }),
    decreases n,
{
    if n > 0 {
        let results = crate::spec::swept(frames, specs);
        lemma_scored_results_scored(frames, specs, floor, columns, hints, n - 1, k);
        lemma_swept_indices(frames, specs, n - 1);
        assert(results.take(n).drop_last() == results.take(n - 1));
        assert(results.take(n).last() == results[n - 1]);
        let before = scored_results(results.take(n - 1), specs, floor, columns, hints, frames);
        let now = scored_results(results.take(n), specs, floor, columns, hints, frames);
        if 0 <= k < n - 1 {
            let r = results[k];
            let c = scored(
                specs[r.spec_index as int],
                r.match_count,
                r.total_count,
                columns,
                hints,
                frames,
            );
            if floor.reached_by(r.match_count as int, r.total_count as int) && c is Some {
                let j = choose|j: int| 0 <= j < before.len() && before[j] == c->Some_0;
                assert(now[j] == c->Some_0);
            }
        } else if k == n - 1 && now.len() > before.len() {
            assert(now[now.len() - 1] == now.last());
        }
    }
}

proof fn lemma_with_ranked_contains(list: Seq<CandidateView>, c: CandidateView, x: CandidateView)
    requires
        x == c || list.contains(x),
    ensures
        with_ranked(list, c).contains(x),
    decreases list.len(),
{
    let now = with_ranked(list, c);
    if list.len() == 0 {
        assert(now[0] == x);
    } else if ranks_before(c, list.last()) {
        let rest = with_ranked(list.drop_last(), c);
        if x != c && x == list.last() {
            assert(now[now.len() - 1] == x);
        } else {
            if x != c {
                let i = choose|i: int| 0 <= i < list.len() && list[i] == x;
                assert(list.drop_last()[i] == x);
            }
            lemma_with_ranked_contains(list.drop_last(), c, x);
            let j = choose|j: int| 0 <= j < rest.len() && rest[j] == x;
            assert(now[j] == x);
        }
    } else if x == c {
        assert(now[now.len() - 1] == x);
    } else {
        let i = choose|i: int| 0 <= i < list.len() && list[i] == x;
        assert(now[i] == x);
    }
}

proof fn lemma_ranked_contains(list: Seq<CandidateView>, x: CandidateView)
    requires
        list.contains(x),
    ensures
        ranked(list).contains(x),
    decreases list.len(),
{
    if x != list.last() {
        let i = choose|i: int| 0 <= i < list.len() && list[i] == x;
        assert(list.drop_last()[i] == x);
        lemma_ranked_contains(list.drop_last(), x);
    }
    lemma_with_ranked_contains(ranked(list.drop_last()), list.last(), x);
}

/// Whether an entry stands for a candidate: it has its geometry and its rate, and has
/// or names its range.
spec fn stands_for(k: CandidateView, c: CandidateView) -> bool {
    &&& same_geometry(k, c)
    &&& same_rate(k, c)
    &&& k.total_count > 0
    &&& k.confidence >= c.confidence
    &&& range_of(k) == range_of(c) || k.equivalent_ranges.contains(range_of(c))
}

proof fn lemma_fold_in_stands(kept: Seq<CandidateView>, x: CandidateView, c: CandidateView, i: int)
    requires
        0 <= i < kept.len(),
        stands_for(kept[i], c),
    ensures
        fold_in(kept, x).len() > i,
        stands_for(fold_in(kept, x)[i], c),
    decreases kept.len(),
{
    if same_geometry(kept[0], x) {
        if i == 0 && same_rate(kept[0], x) {
            let ranges = kept[0].equivalent_ranges;
            if ranges.contains(range_of(c)) {
                let j = choose|j: int| 0 <= j < ranges.len() && ranges[j] == range_of(c);
                assert(ranges.push(range_of(x))[j] == range_of(c));
            }
        }
    } else if i > 0 {
        assert(kept.skip(1)[i - 1] == kept[i]);
        lemma_fold_in_stands(kept.skip(1), x, c, i - 1);
        assert(fold_in(kept, x)[i] == fold_in(kept.skip(1), x)[i - 1]);
    }
}

proof fn lemma_fold_in_takes(kept: Seq<CandidateView>, c: CandidateView) -> (i: int)
    requires
        c.total_count > 0,
        forall|j: int|
            0 <= j < kept.len() && same_geometry(#[trigger] kept[j], c) ==> same_rate(kept[j], c)
                && kept[j].total_count > 0 && kept[j].confidence >= c.confidence,
    ensures
        0 <= i < fold_in(kept, c).len(),
        stands_for(fold_in(kept, c)[i], c),
    decreases kept.len(),
{
    if kept.len() == 0 {
        0
    } else if same_geometry(kept[0], c) {
        let ranges = kept[0].equivalent_ranges.push(range_of(c));
        assert(ranges[ranges.len() - 1] == range_of(c));
        0
    } else {
        let rest = kept.skip(1);
        assert forall|j: int|
            0 <= j < rest.len() && same_geometry(#[trigger] rest[j], c) implies same_rate(
            rest[j],
            c,
        ) && rest[j].total_count > 0 && rest[j].confidence >= c.confidence by {
            assert(rest[j] == kept[j + 1]);
        }
        let i = lemma_fold_in_takes(rest, c);
        assert(fold_in(kept, c)[i + 1] == fold_in(rest, c)[i]);
        i + 1
    }
}

proof fn lemma_collapsed_stands(list: Seq<CandidateView>, n: int, c: CandidateView, at: int) -> (i:
    int)
    requires
        0 <= at < n <= list.len(),
        list[at] == c,
        in_rank_order(list),
        all_hold(list, |x: CandidateView| x.total_count > 0),
        forall|j: int|
            0 <= j < list.len() && same_geometry(#[trigger] list[j], c) && !same_rate(list[j], c)
                ==> ranks_before(c, list[j]),
    ensures
        0 <= i < collapsed(list.take(n)).len(),
        stands_for(collapsed(list.take(n))[i], c),
    decreases n,
{
    let front = list.take(n - 1);
    assert(list.take(n).drop_last() == front);
    assert(list.take(n).last() == list[n - 1]);
    let kept = collapsed(front);
    if at < n - 1 {
        let i = lemma_collapsed_stands(list, n - 1, c, at);
        lemma_fold_in_stands(kept, list[n - 1], c, i);
        i
    } else {
        let counted = |x: CandidateView| x.total_count > 0;
        assert(counted(list[at]));
        let fine = |x: CandidateView|
            same_geometry(x, c) ==> same_rate(x, c) && x.total_count > 0 && x.confidence
                >= c.confidence;
        assert forall|j: int| 0 <= j < front.len() implies fine(#[trigger] front[j]) by {
            assert(front[j] == list[j]);
            assert(counted(list[j]));
            assert(!ranks_before(list[at], list[j]));
        }
        lemma_collapsed_holds(front, fine);
        assert forall|j: int|
            0 <= j < kept.len() && same_geometry(#[trigger] kept[j], c) implies same_rate(
            kept[j],
            c,
        ) && kept[j].total_count > 0 && kept[j].confidence >= c.confidence by {
            assert(fine(kept[j]));
        }
        lemma_fold_in_takes(kept, c)
    }
}

proof fn lemma_confident_contains(list: Seq<CandidateView>, floor: u8, x: CandidateView)
    requires
        list.contains(x),
        x.confidence >= floor,
    ensures
        confident(list, floor).contains(x),
    decreases list.len(),
{
    let now = confident(list, floor);
    if x == list.last() {
        assert(now[now.len() - 1] == x);
    } else {
        let i = choose|i: int| 0 <= i < list.len() && list[i] == x;
        assert(list.drop_last()[i] == x);
        lemma_confident_contains(list.drop_last(), floor, x);
        let before = confident(list.drop_last(), floor);
        let j = choose|j: int| 0 <= j < before.len() && before[j] == x;
        assert(now[j] == x);
    }
}

proof fn lemma_found_column(columns: Seq<ChecksumColumnStat>, position: int)
    ensures
        column_of(columns, position) matches Some(c) ==> c.position == position && exists|j: int|
            0 <= j < columns.len() && #[trigger] columns[j] == c,
    decreases columns.len(),
{
    if columns.len() > 0 && columns[0].position != position {
        lemma_found_column(columns.skip(1), position);
        if let Some(c) = column_of(columns.skip(1), position) {
            let j = choose|j: int| 0 <= j < columns.skip(1).len() && #[trigger] columns.skip(1)[j] == c;
            assert(columns[j + 1] == c);
        }
    }
}

proof fn lemma_lower_rates_rank_behind(
    c: CandidateView,
    x: CandidateView,
    frames: Seq<Seq<u8>>,
    columns: Seq<ChecksumColumnStat>,
    hints: Seq<i32>,
)
    requires
        is_scored(c, frames, columns, hints),
        is_scored(x, frames, columns, hints),
        c.match_count == frames.len(),
        c.total_count == frames.len(),
        c.spec.calc_end_byte == c.spec.position,
        narrowest(frames, c.spec.calc_start_byte as int, c.spec.calc_end_byte as int) >= 2,
        same_geometry(x, c),
        !same_rate(x, c),
    ensures
        ranks_before(c, x),
{
    crate::spec::law_matches_are_bounded(x.spec, frames);
    let n = frames.len() as int;
    let m = x.match_count as int;
    let t = x.total_count as int;
    assert(m != t) by {
        if m == t {
            assert(m * n == n * t) by (nonlinear_arith)
                requires
                    m == t,
            ;
        }
    }
    assert(n * t > m * n) by (nonlinear_arith)
        requires
            n > 0,
            m < t,
    ;
    assert(rate_points(m, t) <= 48);
    assert(raw_score(c.spec, n, n, columns, hints, frames) > raw_score(
        x.spec,
        m,
        t,
        columns,
        hints,
        frames,
    ));
}

/// Detection is complete: a configuration that every one of at least twenty frames
/// carries, whose column moves as a checksum's does, is reported, itself or as an
/// equivalent range of its geometry, with a confidence of 75 at least. Only a full list
/// of others with that confidence can crowd it out. The byte order, the position, the
/// start and the algorithm make no difference.
pub proof fn law_a_checksum_on_every_frame_is_detected(
    frames: Seq<Seq<u8>>,
    options: OptionsView,
    columns: Seq<ChecksumColumnStat>,
    spec: ChecksumSpec,
)
    requires
        is_searchable(frames, options, columns),
        frames.len() >= 20,
        forall|i: int| 0 <= i < frames.len() ==> carries(#[trigger] frames[i], spec),
        spec.byte_length == if spec.algorithm is Crc16Modbus || spec.algorithm is Crc16Ccitt {
            2int
        } else {
            1
        },
        spec.byte_length == 1 ==> spec.big_endian,
        options.positions.contains(spec.position),
        spec.position + spec.byte_length <= 0,
        spec.calc_end_byte == spec.position,
        spec.calc_start_byte <= 2 || options.header_boundaries.contains(spec.calc_start_byte),
        options.lengths.len() == 0 || options.lengths.contains(spec.byte_length),
        moves_enough(columns, spec.position as int, spec.byte_length as int),
        spec.byte_length == 2 ==> forall|j: int|
            0 <= j < columns.len() && (#[trigger] columns[j]).position == spec.position + 1
                ==> columns[j].constant_value is None,
        options.min_confidence <= 75,
        options.min_match_rate.numerator <= 100 * options.min_match_rate.denominator,
    ensures
        reports(detected(frames, options, columns), spec) || {
            let list = detected(frames, options, columns);
            &&& list.len() == MAX_CANDIDATES
            &&& forall|k: int| 0 <= k < list.len() ==> (#[trigger] list[k]).confidence >= 75
        },
{
    let hints = options.header_boundaries;
    let specs = candidate_space(frames, options.positions, options.lengths, hints, columns);
    let results = crate::spec::swept(frames, specs);
    let n = frames.len();
    assert(carries(frames[0], spec));
    lemma_longest_reaches(frames, 0);
    lemma_carriers_counted(spec, frames);
    lemma_starts_hold(hints, spec.calc_start_byte);
    assert(calc_ends(columns, spec.position)[0] == spec.position);
    assert(ALL_ALGORITHMS@[preference(spec.algorithm)] == spec.algorithm);
    let orders = byte_orders(spec.byte_length as int);
    if spec.byte_length == 1 || !spec.big_endian {
        assert(orders[0] == spec.big_endian);
    } else {
        assert(orders[1] == spec.big_endian);
    }
    assert(is_worth_testing(spec, frames, options.positions, options.lengths, hints, columns));
    law_the_search_covers_what_is_worth_testing(
        spec,
        frames,
        options.positions,
        options.lengths,
        hints,
        columns,
    );
    let k = lemma_swept_holds(frames, specs, spec);
    lemma_swept_indices(frames, specs, k);
    let r = results[k];
    lemma_found_column(columns, spec.position as int);
    lemma_found_column(columns, spec.position + 1);
    assert(options.min_match_rate.reached_by(n as int, n as int)) by (nonlinear_arith)
        requires
            options.min_match_rate.numerator <= 100 * options.min_match_rate.denominator,
            n >= 0,
    ;
    let c = scored(spec, r.match_count, r.total_count, columns, hints, frames)->Some_0;
    assert(r.match_count == n && r.total_count == n);
    assert(raw_score(spec, n as int, n as int, columns, hints, frames) >= 75);
    lemma_scored_results_scored(
        frames,
        specs,
        options.min_match_rate,
        columns,
        hints,
        results.len() as int,
        k,
    );
    assert(results.take(results.len() as int) == results);
    let list = scored_results(
        results,
        specs,
        options.min_match_rate,
        columns,
        hints,
        frames,
    );
    let made = |x: CandidateView| is_scored(x, frames, columns, hints);
    let counted = |x: CandidateView| x.total_count > 0;
    lemma_ranked_contains(list, c);
    lemma_ranked_holds(list, made);
    let order = ranked(list);
    assert forall|j: int| 0 <= j < list.len() implies counted(#[trigger] list[j]) by {
        assert(made(list[j]));
    }
    assert forall|j: int| 0 <= j < order.len() implies counted(#[trigger] order[j]) by {
        assert(made(order[j]));
    }
    lemma_ranked_in_order(list);
    let at = choose|at: int| 0 <= at < order.len() && order[at] == c;
    assert(made(order[at]));
    assert forall|j: int|
        0 <= j < order.len() && same_geometry(#[trigger] order[j], c) && !same_rate(
            order[j],
            c,
        ) implies ranks_before(c, order[j]) by {
        assert(made(order[j]));
        lemma_lower_rates_rank_behind(c, order[j], frames, columns, hints);
    }
    let i = lemma_collapsed_stands(order, order.len() as int, c, at);
    assert(order.take(order.len() as int) == order);
    let folded = collapsed(order);
    let held = folded[i];
    assert(folded.contains(held));
    lemma_confident_contains(folded, options.min_confidence, held);
    lemma_collapsed_in_order(order);
    lemma_confident_in_order(folded, options.min_confidence);
    let sure = confident(folded, options.min_confidence);
    let p = choose|p: int| 0 <= p < sure.len() && sure[p] == held;
    assert(held.match_count == held.total_count) by {
        let m = held.match_count as int;
        let t = held.total_count as int;
        let whole = n as int;
        assert(m * whole == whole * t);
        assert(m == t) by (nonlinear_arith)
            requires
                m * whole == whole * t,
                whole > 0,
        ;
    }
    let out = detected(frames, options, columns);
    if p < MAX_CANDIDATES {
        assert(out[p] == held);
    } else {
        assert forall|q: int| 0 <= q < out.len() implies (#[trigger] out[q]).confidence >= 75 by {
            assert(out[q] == sure[q]);
            assert(!ranks_before(sure[p], sure[q]));
        }
    }
}

/// The byte order of a two-byte configuration is no merit of its own: where the two
/// columns are constant both or neither, both byte orders with the same counts have the
/// same confidence.
pub proof fn law_byte_order_is_no_merit(
    spec: ChecksumSpec,
    match_count: usize,
    total_count: usize,
    columns: Seq<ChecksumColumnStat>,
    hints: Seq<i32>,
    frames: Seq<Seq<u8>>,
)
    requires
        is_constant_at(columns, spec.position as int) == is_constant_at(
            columns,
            spec.position + 1,
        ),
    ensures
        ({
            let other = ChecksumSpec { big_endian: !spec.big_endian, ..spec };
            let a = scored(spec, match_count, total_count, columns, hints, frames);
            let b = scored(other, match_count, total_count, columns, hints, frames);
            &&& a is Some <==> b is Some
            &&& a is Some ==> a->Some_0.confidence == b->Some_0.confidence
        }),
{
}

/// A configuration that every one of two hundred frames or more bears out, next to its
/// range, over two bytes at least, in a column that shows half the values it could, has
/// full confidence; one that none bears out has none to speak of.
pub proof fn law_perfect_configurations_have_full_confidence(
    spec: ChecksumSpec,
    total: usize,
    columns: Seq<ChecksumColumnStat>,
    hints: Seq<i32>,
    frames: Seq<Seq<u8>>,
)
    requires
        !sits_on_padding(spec, columns),
        total >= 200,
        column_of(columns, spec.position as int) matches Some(c) && (c.sample_count > 0 && 2
            * c.distinct_values >= c.sample_count),
        spec.calc_end_byte == spec.position,
        narrowest(frames, spec.calc_start_byte as int, spec.calc_end_byte as int) >= 2,
        !is_constant_at(columns, spec.position as int),
        !is_constant_at(columns, spec.position + 1),
    ensures
        scored(spec, total, total, columns, hints, frames) matches Some(c) && {
            &&& c.confidence == 100
            &&& c.spec == spec
            &&& c.match_count == total
            &&& c.total_count == total
        },
        scored(spec, 0, total, columns, hints, frames) matches Some(c) && c.confidence <= 60,
{
}

/// The more frames bear a configuration out, the more it is trusted.
pub proof fn law_confidence_rises_with_the_matches(
    spec: ChecksumSpec,
    fewer: usize,
    more: usize,
    total: usize,
    columns: Seq<ChecksumColumnStat>,
    hints: Seq<i32>,
    frames: Seq<Seq<u8>>,
)
    requires
        fewer <= more <= total,
        !sits_on_padding(spec, columns),
    ensures
        scored(spec, fewer, total, columns, hints, frames) matches Some(a) && (scored(
            spec,
            more,
            total,
            columns,
            hints,
            frames,
        ) matches Some(b) && a.confidence <= b.confidence),
        raw_score(spec, total as int, total as int, columns, hints, frames) >= raw_score(
            spec,
            fewer as int,
            total as int,
            columns,
            hints,
            frames,
        ),
{
}

} // verus!
