//! Scanning a whole capture for checksums, frame id by frame id.
//!
//! This is the orchestration: group by frame id, sample twice, identify, sweep,
//! solve, rank. Everything it does is a pure function of payloads — and of how
//! checksum-shaped each byte column was rated, which the caller supplies.
//!
//! # Two sample sets, because the halves want opposite things
//!
//! The sweep measures a *rate*, so it needs the population with its repeats:
//! "this column never moved in 400 frames" is exactly the claim the
//! constant-column rejection rests on, and deduplicating first leaves it one
//! sample to judge on — which is how an all-zero frame gets reported as a
//! flawless XOR. The solvers are killed only by disagreements, so repeats are
//! dead weight and what they want is *distinct* payloads.

use crate::columns::{analyse_columns, ColumnStats};
use crate::detect::{
    cross, detect_checksum_with_columns, tail_columns, volume_bonus, CalcRange, ChecksumCandidate,
    ChecksumColumnStat, ChecksumDetectionOptions, Percentage, MAX_SAMPLES, MIN_CONFIDENCE,
    STRONG_MATCH_RATE,
};
use crate::evidence::{
    checksum_evidence_with_columns, ranked_targets, ChecksumEvidence, RankedTarget,
};
use crate::notes::ChecksumNote;
use crate::recover::{solve_all, RecoveredChecksum};
use crate::sampling::{diverse_samples, strided_samples};
use crate::solve::{CrcSolveOptions, SolveTarget};
use crate::specification::ChecksumSpecification;
use rayon::iter::{IntoParallelRefIterator, ParallelIterator};
use std::cmp::Ordering;
use vstd::prelude::*;

verus! {

/// Default for [`ChecksumScanOptions::min_likeness`].
pub const DEFAULT_MIN_LIKENESS: u8 = 50;

/// Cap on candidates reported per frame id.
pub const MAX_CANDIDATES_PER_ID: usize = 6;

#[derive(Debug, Clone)]
pub struct ChecksumScanOptions {
    /// Frames an id needs before it is worth analysing.
    pub min_samples: usize,
    /// Checksum offsets to try, end-relative.
    pub positions: Vec<i32>,
    /// Recover arbitrary CRC polynomials, not only the named algorithms.
    pub search_custom_polynomials: bool,
    /// How checksum-shaped a byte column must look before the solver is asked
    /// about it. Zero solves every column that was not rejected outright.
    pub min_likeness: u8,
}

/// Scan options, as a mathematical value.
#[verifier::ext_equal]
pub struct ScanOptionsView {
    pub min_samples: int,
    pub positions: Seq<i32>,
    pub search_custom_polynomials: bool,
    pub min_likeness: u8,
}

impl View for ChecksumScanOptions {
    type V = ScanOptionsView;

    open spec fn view(&self) -> ScanOptionsView {
        ScanOptionsView {
            min_samples: self.min_samples as int,
            positions: self.positions@,
            search_custom_polynomials: self.search_custom_polynomials,
            min_likeness: self.min_likeness,
        }
    }
}

impl Default for ChecksumScanOptions {
    fn default() -> (r: Self)
        ensures
            r.min_samples == 10,
            r.positions@ == seq![-1i32, -2i32, -3i32],
            !r.search_custom_polynomials,
            r.min_likeness == DEFAULT_MIN_LIKENESS,
    {
        Self {
            min_samples: 10,
            positions: vec![-1, -2, -3],
            search_custom_polynomials: false,
            min_likeness: DEFAULT_MIN_LIKENESS,
        }
    }
}

/// A measured match rate: `matched` samples out of `total`.
#[derive(Debug, Clone, Copy, PartialEq, Eq, Structural)]
pub struct MatchRate {
    pub matched: usize,
    pub total: usize,
}

impl MatchRate {
    /// Whether this rate is higher than another.
    pub open spec fn above(self, other: MatchRate) -> bool {
        self.matched * other.total > other.matched * self.total
    }

    fn is_above(self, other: MatchRate) -> (r: bool)
        ensures
            r == self.above(other),
    {
        cross(self.matched, other.total) > cross(other.matched, self.total)
    }
}

/// One configuration that explains a frame id, with the evidence for it.
#[derive(Debug, Clone, PartialEq)]
pub struct DiscoveredChecksum {
    pub specification: ChecksumSpecification,
    pub position: i32,
    pub length: usize,
    pub big_endian: bool,
    pub calc_start_byte: i32,
    pub calc_end_byte: i32,
    /// Samples the configuration reproduced.
    pub match_count: usize,
    /// Samples it was measured against.
    pub total_count: usize,
    /// `None` for a solved configuration.
    ///
    /// A solve reproduces every sample it was verified against or is not
    /// reported at all, so there is no rate to state.
    pub match_rate: Option<MatchRate>,
    /// Samples left out because their calculation range was a different length.
    pub excluded_count: usize,
    /// 0-100 composite score.
    pub confidence: u8,
    pub notes: Vec<ChecksumNote>,
    pub equivalent_ranges: Vec<CalcRange>,
}

/// A discovered configuration, as a mathematical value.
#[verifier::ext_equal]
pub struct DiscoveredView {
    pub specification: crate::specification::SpecificationView,
    pub position: i32,
    pub length: usize,
    pub big_endian: bool,
    pub calc_start_byte: i32,
    pub calc_end_byte: i32,
    pub match_count: int,
    pub total_count: int,
    pub match_rate: Option<MatchRate>,
    pub excluded_count: int,
    pub confidence: u8,
    pub notes: Seq<crate::notes::NoteView>,
    pub equivalent_ranges: Seq<CalcRange>,
}

impl View for DiscoveredChecksum {
    type V = DiscoveredView;

    open spec fn view(&self) -> DiscoveredView {
        DiscoveredView {
            specification: self.specification@,
            position: self.position,
            length: self.length,
            big_endian: self.big_endian,
            calc_start_byte: self.calc_start_byte,
            calc_end_byte: self.calc_end_byte,
            match_count: self.match_count as int,
            total_count: self.total_count as int,
            match_rate: self.match_rate,
            excluded_count: self.excluded_count as int,
            confidence: self.confidence,
            notes: crate::notes::note_views(self.notes@),
            equivalent_ranges: self.equivalent_ranges@,
        }
    }
}

/// What each of a list of discovered configurations is.
pub open spec fn discovered_views(list: Seq<DiscoveredChecksum>) -> Seq<DiscoveredView> {
    list.map_values(|d: DiscoveredChecksum| d@)
}

impl From<ChecksumCandidate> for DiscoveredChecksum {
    fn from(c: ChecksumCandidate) -> (r: Self) {
        Self {
            specification: ChecksumSpecification::Named { algorithm: c.algorithm },
            position: c.position,
            length: c.length,
            big_endian: c.big_endian,
            calc_start_byte: c.calc_start_byte,
            calc_end_byte: c.calc_end_byte,
            match_count: c.match_count,
            total_count: c.total_count,
            match_rate: Some(MatchRate { matched: c.match_count, total: c.total_count }),
            excluded_count: 0,
            confidence: c.confidence,
            notes: c.notes,
            equivalent_ranges: c.equivalent_ranges,
        }
    }
}

impl vstd::std_specs::convert::FromSpecImpl<ChecksumCandidate> for DiscoveredChecksum {
    open spec fn obeys_from_spec() -> bool {
        true
    }

    open spec fn from_spec(c: ChecksumCandidate) -> Self {
        DiscoveredChecksum {
            specification: ChecksumSpecification::Named { algorithm: c.algorithm },
            position: c.position,
            length: c.length,
            big_endian: c.big_endian,
            calc_start_byte: c.calc_start_byte,
            calc_end_byte: c.calc_end_byte,
            match_count: c.match_count,
            total_count: c.total_count,
            match_rate: Some(MatchRate { matched: c.match_count, total: c.total_count }),
            excluded_count: 0,
            confidence: c.confidence,
            notes: c.notes,
            equivalent_ranges: c.equivalent_ranges,
        }
    }
}

/// A swept candidate as a discovered configuration: named, with a measured rate.
pub open spec fn measured(c: crate::detect::CandidateView) -> DiscoveredView {
    DiscoveredView {
        specification: crate::specification::SpecificationView::Named {
            algorithm: c.spec.algorithm,
        },
        position: c.spec.position,
        length: c.spec.byte_length,
        big_endian: c.spec.big_endian,
        calc_start_byte: c.spec.calc_start_byte,
        calc_end_byte: c.spec.calc_end_byte,
        match_count: c.match_count as int,
        total_count: c.total_count as int,
        match_rate: Some(MatchRate { matched: c.match_count, total: c.total_count }),
        excluded_count: 0,
        confidence: c.confidence,
        notes: c.notes,
        equivalent_ranges: c.equivalent_ranges,
    }
}

/// A recovered checksum as a discovered configuration: exact, with no rate.
pub open spec fn exact(r: crate::recover::RecoveredView, confidence: u8) -> DiscoveredView {
    DiscoveredView {
        specification: r.specification,
        position: r.target.position,
        length: r.target.byte_length,
        big_endian: r.target.big_endian,
        calc_start_byte: r.target.calc_start_byte,
        calc_end_byte: r.target.calc_end_byte,
        match_count: r.sample_count,
        total_count: r.sample_count,
        match_rate: None,
        excluded_count: r.excluded_count,
        confidence,
        notes: Seq::empty(),
        equivalent_ranges: r.equivalent_ranges,
    }
}

impl DiscoveredView {
    /// The rate to rank on. An absent one means exact, which is at least as good
    /// as any measured rate.
    pub open spec fn ranking_rate(self) -> MatchRate {
        match self.match_rate {
            Some(rate) => rate,
            None => MatchRate { matched: 1, total: 1 },
        }
    }
}

/// Whether `a` ranks strictly before `b`: confidence, then rate, then parsimony.
pub open spec fn discovered_before(a: DiscoveredView, b: DiscoveredView) -> bool {
    if a.confidence != b.confidence {
        a.confidence > b.confidence
    } else if a.ranking_rate().above(b.ranking_rate()) {
        true
    } else if b.ranking_rate().above(a.ranking_rate()) {
        false
    } else if a.length != b.length {
        a.length < b.length
    } else {
        a.calc_start_byte < b.calc_start_byte
    }
}

impl DiscoveredChecksum {
    /// The rate to rank on. An absent one means exact, which is at least as good
    /// as any measured rate — stated here once rather than at each comparison.
    pub fn rank_rate(&self) -> (r: MatchRate)
        ensures
            r == self@.ranking_rate(),
    {
        match self.match_rate {
            Some(rate) => rate,
            None => MatchRate { matched: 1, total: 1 },
        }
    }

    fn solved(solved: RecoveredChecksum, confidence: u8) -> (r: Self)
        ensures
            r@ == exact(solved@, confidence),
    {
        let target = solved.target;
        let notes: Vec<ChecksumNote> = Vec::new();
        assert(crate::notes::note_views(notes@) == Seq::<crate::notes::NoteView>::empty());
        Self {
            specification: solved.specification,
            position: target.position,
            length: target.byte_length,
            big_endian: target.big_endian,
            calc_start_byte: target.calc_start_byte,
            calc_end_byte: target.calc_end_byte,
            match_count: solved.sample_count,
            total_count: solved.sample_count,
            match_rate: None,
            excluded_count: solved.excluded_count,
            confidence,
            notes,
            equivalent_ranges: solved.equivalent_ranges,
        }
    }
}

/// Which frame a payload belongs to.
///
/// A standard and an extended id sharing a number are different frames, so the
/// pair is the identity — named rather than a positional `(u32, bool)`, because
/// a caller passing the wrong `bool` should not be silent.
#[derive(Debug, Clone, Copy, PartialEq, Eq, Hash, Structural)]
pub struct FrameKey {
    pub frame_id: u32,
    pub is_extended: bool,
}

impl FrameKey {
    pub fn new(frame_id: u32, is_extended: bool) -> (r: Self)
        ensures
            r == (FrameKey { frame_id, is_extended }),
    {
        Self { frame_id, is_extended }
    }
}

/// What the scan found for one frame id — including when it found nothing, so
/// the reason is visible rather than the id simply vanishing from the results.
#[derive(Debug, Clone, PartialEq)]
pub struct FrameChecksumFinding {
    pub key: FrameKey,
    /// Frames seen for this id.
    pub frame_count: usize,
    /// Distinct payloads among them. A checksum cannot be recovered from
    /// repeats, so this is the number that actually bounds the search.
    pub distinct_payloads: usize,
    pub candidates: Vec<DiscoveredChecksum>,
    /// What identification decided about each byte column, rejections included.
    /// This is the useful half of an empty result: not "nothing found" but
    /// "byte -1 never changes, byte -2 is a counter".
    pub columns: Vec<ChecksumEvidence>,
    pub notes: Vec<ChecksumNote>,
}

/// A finding, as a mathematical value.
#[verifier::ext_equal]
pub struct FindingView {
    pub key: FrameKey,
    pub frame_count: int,
    pub distinct_payloads: int,
    pub candidates: Seq<DiscoveredView>,
    pub columns: Seq<ChecksumEvidence>,
    pub notes: Seq<crate::notes::NoteView>,
}

impl View for FrameChecksumFinding {
    type V = FindingView;

    open spec fn view(&self) -> FindingView {
        FindingView {
            key: self.key,
            frame_count: self.frame_count as int,
            distinct_payloads: self.distinct_payloads as int,
            candidates: discovered_views(self.candidates@),
            columns: self.columns@,
            notes: crate::notes::note_views(self.notes@),
        }
    }
}

#[derive(Debug, Clone, PartialEq)]
pub struct ChecksumScanResult {
    pub findings: Vec<FrameChecksumFinding>,
    pub frame_count: usize,
    pub unique_frame_ids: usize,
    /// Ids skipped for having fewer than `min_samples` frames.
    pub skipped_frame_ids: usize,
}

// ---------------------------------------------------------------------------
// Scoring and ranking
// ---------------------------------------------------------------------------

/// Confidence for a solved configuration.
pub open spec fn solved_score(likeness: u8, sample_count: int) -> u8 {
    let score = 55 + crate::detect::volume_points(sample_count) + likeness * 25 / 100;
    if score > 100 {
        100
    } else {
        score as u8
    }
}

/// Confidence for a solved configuration.
///
/// Evidence weight is shared with the sweep through [`volume_bonus`], because
/// the two rank into one list; the rest is how checksum-shaped the column looked
/// before the solver was asked, which identification has already measured.
pub fn score_solved(likeness: u8, sample_count: usize) -> (r: u8)
    ensures
        r == solved_score(likeness, sample_count as int),
{
    let score: i32 = 55 + volume_bonus(sample_count) + likeness as i32 * 25 / 100;
    if score > 100 {
        100
    } else {
        score as u8
    }
}

fn is_before(a: &DiscoveredChecksum, b: &DiscoveredChecksum) -> (r: bool)
    ensures
        r == discovered_before(a@, b@),
{
    let rate_a = a.rank_rate();
    let rate_b = b.rank_rate();
    if a.confidence != b.confidence {
        a.confidence > b.confidence
    } else if rate_a.is_above(rate_b) {
        true
    } else if rate_b.is_above(rate_a) {
        false
    } else if a.length != b.length {
        a.length < b.length
    } else {
        a.calc_start_byte < b.calc_start_byte
    }
}

/// Confidence, then rate, then parsimony.
pub fn compare(a: &DiscoveredChecksum, b: &DiscoveredChecksum) -> (r: Ordering)
    ensures
        r == Ordering::Less <==> discovered_before(a@, b@),
        r == Ordering::Greater <==> discovered_before(b@, a@),
{
    if is_before(a, b) {
        Ordering::Less
    } else if is_before(b, a) {
        Ordering::Greater
    } else {
        Ordering::Equal
    }
}

/// A ranked list with `d` in its place, after everything it does not beat.
pub open spec fn with_discovered(list: Seq<DiscoveredView>, d: DiscoveredView) -> Seq<
    DiscoveredView,
>
    decreases list.len(),
{
    if list.len() == 0 {
        seq![d]
    } else if discovered_before(d, list.last()) {
        with_discovered(list.drop_last(), d).push(list.last())
    } else {
        list.push(d)
    }
}

/// A list in ranking order; equals keep the order they came in.
pub open spec fn discovered_ranked(list: Seq<DiscoveredView>) -> Seq<DiscoveredView>
    decreases list.len(),
{
    if list.len() == 0 {
        Seq::empty()
    } else {
        with_discovered(discovered_ranked(list.drop_last()), list.last())
    }
}

fn insert_discovered(list: &mut Vec<DiscoveredChecksum>, d: DiscoveredChecksum)
    ensures
        discovered_views(final(list)@) == with_discovered(discovered_views(old(list)@), d@),
{
    let ghost before = discovered_views(list@);
    let mut at: usize = list.len();
    assert(before.take(before.len() as int) == before);
    assert(with_discovered(before, d@) == with_discovered(before, d@) + before.skip(
        before.len() as int,
    ));
    while at > 0 && is_before(&d, &list[at - 1])
        invariant
            at <= list@.len(),
            list@ == old(list)@,
            before == discovered_views(list@),
            with_discovered(before, d@) == with_discovered(before.take(at as int), d@)
                + before.skip(at as int),
        decreases at,
    {
        let ghost front = before.take(at as int);
        assert(front.drop_last() == before.take(at - 1));
        assert(front.last() == list@[at - 1]@);
        assert(with_discovered(front, d@) == with_discovered(before.take(at - 1), d@).push(
            front.last(),
        ));
        assert(with_discovered(before.take(at - 1), d@).push(front.last()) + before.skip(at as int)
            == with_discovered(before.take(at - 1), d@) + before.skip(at - 1));
        at = at - 1;
    }
    proof {
        let front = before.take(at as int);
        if at > 0 {
            assert(front.last() == list@[at - 1]@);
        }
        assert(with_discovered(front, d@) == front.push(d@));
    }
    list.insert(at, d);
    assert(discovered_views(list@) == before.take(at as int).push(d@) + before.skip(at as int));
}

// ---------------------------------------------------------------------------
// One frame id
// ---------------------------------------------------------------------------

/// Evidence with the caller's likeness for each column; a column without one is
/// rated zero.
pub open spec fn rated_evidence(evidence: Seq<ChecksumEvidence>, likeness: Seq<u8>) -> Seq<
    ChecksumEvidence,
> {
    Seq::new(
        evidence.len(),
        |i: int|
            evidence[i].with_likeness(
                if i < likeness.len() {
                    likeness[i]
                } else {
                    0
                },
            ),
    )
}

/// The likeness a target was offered with.
pub open spec fn likeness_of(targets: Seq<RankedTarget>, target: SolveTarget) -> u8
    decreases targets.len(),
{
    if targets.len() == 0 {
        0
    } else if targets[0].target == target {
        targets[0].likeness
    } else {
        likeness_of(targets.skip(1), target)
    }
}

/// The recovered checksums worth reporting beside the sweep's: those the fixed
/// algorithm list cannot express.
pub open spec fn news(
    recovered: Seq<crate::recover::RecoveredView>,
    targets: Seq<RankedTarget>,
    sample_count: int,
) -> Seq<DiscoveredView>
    decreases recovered.len(),
{
    if recovered.len() == 0 {
        Seq::empty()
    } else {
        let before = news(recovered.drop_last(), targets, sample_count);
        let r = recovered.last();
        let confidence = solved_score(likeness_of(targets, r.target), sample_count);
        if !r.specification.is_swept() && confidence >= MIN_CONFIDENCE {
            before.push(exact(r, confidence))
        } else {
            before
        }
    }
}

/// How the solver is run by a scan.
pub open spec fn scan_crc_options(options: ScanOptionsView) -> CrcSolveOptions {
    CrcSolveOptions {
        known_polynomials_only: !options.search_custom_polynomials,
        max_solutions: 2,
    }
}

/// What the solver finds for the columns identification let through.
pub open spec fn solved_news(
    evidence: Seq<ChecksumEvidence>,
    columns: Seq<ChecksumColumnStat>,
    samples: Seq<Seq<u8>>,
    options: ScanOptionsView,
) -> Seq<DiscoveredView> {
    let targets = crate::evidence::targets_for(evidence, columns, options.min_likeness);
    news(
        crate::recover::recovered(
            samples,
            targets.map_values(|t: RankedTarget| t.target),
            scan_crc_options(options),
        ),
        targets,
        samples.len() as int,
    )
}

/// How the sweep is run by a scan.
pub open spec fn scan_sweep_options(options: ScanOptionsView) -> crate::detect::OptionsView {
    crate::detect::OptionsView {
        positions: options.positions,
        lengths: Seq::empty(),
        header_boundaries: Seq::empty(),
        min_match_rate: Percentage { numerator: STRONG_MATCH_RATE, denominator: 1 },
        min_confidence: MIN_CONFIDENCE,
    }
}

/// What the scan finds for one frame id.
pub open spec fn group_finding(
    key: FrameKey,
    frames: Seq<Seq<u8>>,
    options: ScanOptionsView,
    likeness: Seq<u8>,
) -> FindingView {
    let samples = crate::sampling::strided(frames, MAX_SAMPLES as int);
    let solver_samples = crate::sampling::diverse(frames, MAX_SAMPLES as int);
    let columns = crate::detect::column_stats(samples);
    let evidence = rated_evidence(crate::evidence::judgements(columns, samples), likeness);
    let swept = crate::detect::detected(samples, scan_sweep_options(options), columns).map_values(
        |c: crate::detect::CandidateView| measured(c),
    );
    FindingView {
        key,
        frame_count: frames.len() as int,
        distinct_payloads: solver_samples.len() as int,
        candidates: crate::detect::at_most(
            discovered_ranked(swept + solved_news(evidence, columns, solver_samples, options)),
            MAX_CANDIDATES_PER_ID as int,
        ),
        columns: evidence,
        notes: crate::detect::detection_notes(samples, scan_sweep_options(options), columns),
    }
}

/// The columns of one frame id, with what identification decided about each:
/// what a caller rates before the scan.
#[derive(Debug, Clone, PartialEq)]
pub struct GroupProfile {
    pub columns: Vec<ColumnStats>,
    pub evidence: Vec<ChecksumEvidence>,
}

proof fn lemma_samples_bounded(frames: Seq<Seq<u8>>, bound: int)
    requires
        bound >= 0,
        forall|i: int| 0 <= i < frames.len() ==> (#[trigger] frames[i]).len() <= bound,
    ensures
        crate::columns::longest(crate::sampling::strided(frames, MAX_SAMPLES as int)) <= bound,
{
    let samples = crate::sampling::strided(frames, MAX_SAMPLES as int);
    crate::sampling::law_strided_samples_stay_within_the_limit(frames, MAX_SAMPLES as int);
    assert forall|i: int| 0 <= i < samples.len() implies (#[trigger] samples[i]).len() <= bound by {
        assert(frames.contains(samples[i]));
    }
    crate::detect::lemma_longest_bounded(samples, bound);
}

/// Profile the columns of one frame id, over the sample a scan measures.
pub fn profile_group(frames: &[Vec<u8>]) -> (r: GroupProfile)
    requires
        forall|i: int| 0 <= i < frames@.len() ==> (#[trigger] frames@[i])@.len() <= i32::MAX,
    ensures
        ({
            let samples = crate::sampling::strided(
                crate::spec::frame_bytes(frames@),
                MAX_SAMPLES as int,
            );
            &&& r.columns@.len() == crate::columns::longest(samples)
            &&& forall|k: int|
                0 <= k < r.columns@.len() ==> (#[trigger] r.columns@[k]).describes(samples, k + 1)
            &&& r.evidence@ == crate::evidence::judgements(
                crate::detect::column_stats(samples),
                samples,
            )
        }),
{
    let samples = strided_samples(frames, MAX_SAMPLES);
    proof {
        lemma_samples_bounded(crate::spec::frame_bytes(frames@), i32::MAX as int);
    }
    let columns = analyse_columns(samples.as_slice());
    proof {
        crate::detect::lemma_column_stats(columns@, crate::spec::frame_bytes(samples@));
    }
    let evidence = checksum_evidence_with_columns(samples.as_slice(), columns.as_slice());
    GroupProfile { columns, evidence }
}

fn rate_evidence(evidence: &[ChecksumEvidence], likeness: &[u8]) -> (r: Vec<ChecksumEvidence>)
    ensures
        r@ == rated_evidence(evidence@, likeness@),
{
    let mut out: Vec<ChecksumEvidence> = Vec::new();
    for i in 0..evidence.len()
        invariant
            out@ == rated_evidence(evidence@, likeness@).take(i as int),
    {
        let rate: u8 = if i < likeness.len() {
            likeness[i]
        } else {
            0
        };
        out.push(evidence[i].rated(rate));
        assert(rated_evidence(evidence@, likeness@).take(i + 1) == rated_evidence(
            evidence@,
            likeness@,
        ).take(i as int).push(out@.last()));
    }
    assert(rated_evidence(evidence@, likeness@).take(evidence@.len() as int) == rated_evidence(
        evidence@,
        likeness@,
    ));
    out
}

fn find_likeness(targets: &Vec<RankedTarget>, target: &SolveTarget) -> (r: u8)
    ensures
        r == likeness_of(targets@, *target),
{
    assert(targets@.skip(0) == targets@);
    for i in 0..targets.len()
        invariant
            likeness_of(targets@, *target) == likeness_of(targets@.skip(i as int), *target),
    {
        assert(targets@.skip(i as int)[0] == targets@[i as int]);
        assert(targets@.skip(i as int).skip(1) == targets@.skip(i + 1));
        if targets[i].target == *target {
            return targets[i].likeness;
        }
    }
    0
}

/// Solve the columns identification let through.
fn solved_candidates(
    evidence: &[ChecksumEvidence],
    columns: &[ChecksumColumnStat],
    solver_samples: &[Vec<u8>],
    options: &ChecksumScanOptions,
) -> (r: Vec<DiscoveredChecksum>)
    requires
        columns@.len() <= i32::MAX,
        forall|i: int| 0 <= i < evidence@.len() ==> (#[trigger] evidence@[i]).position > i32::MIN,
    ensures
        discovered_views(r@) == solved_news(
            evidence@,
            columns@,
            crate::spec::frame_bytes(solver_samples@),
            options@,
        ),
{
    let crc_options = CrcSolveOptions {
        known_polynomials_only: !options.search_custom_polynomials,
        max_solutions: 2,
    };
    let ranked = ranked_targets(evidence, columns, options.min_likeness);
    let ghost every = ranked@.map_values(|t: RankedTarget| t.target);
    let mut targets: Vec<SolveTarget> = Vec::new();
    for i in 0..ranked.len()
        invariant
            every == ranked@.map_values(|t: RankedTarget| t.target),
            targets@ == every.take(i as int),
    {
        targets.push(ranked[i].target);
        assert(every.take(i + 1) == every.take(i as int).push(every[i as int]));
    }
    assert(every.take(every.len() as int) == every);
    let recovered = solve_all(solver_samples, targets.as_slice(), &crc_options);
    let ghost all = crate::recover::recovered_views(recovered@);
    let count: usize = solver_samples.len();
    let mut out: Vec<DiscoveredChecksum> = Vec::new();
    assert(discovered_views(out@) == Seq::<DiscoveredView>::empty());
    // Only the variants the fixed algorithm list cannot express are news; the
    // rest the sweep already reported, with a measured rate.
    //
    // Filtering *after* the fold matters: a constant prefix moves the offset, so
    // the narrow range of a plain sum looks like a sum-with-offset until the
    // widest range wins and reveals it for what it is.
    for s in it: recovered
        invariant
            all == crate::recover::recovered_views(it.seq()),
            discovered_views(out@) == news(all.take(it.index() as int), ranked@, count as int),
    {
        let ghost view = s@;
        assert(all.take(it.index() + 1).drop_last() == all.take(it.index() as int));
        assert(all.take(it.index() + 1).last() == view);
        let ghost before = discovered_views(out@);
        if !s.specification.is_expressible_by_sweep() {
            let confidence: u8 = score_solved(find_likeness(&ranked, &s.target), count);
            if confidence >= MIN_CONFIDENCE {
                let found = DiscoveredChecksum::solved(s, confidence);
                out.push(found);
                assert(discovered_views(out@) == before.push(found@));
            }
        }
    }
    assert(all.take(all.len() as int) == all);
    out
}

/// Analyse one frame id's payloads.
///
/// `likeness` rates the columns of [`profile_group`], in their order.
pub fn analyse_group(
    key: FrameKey,
    frames: &[Vec<u8>],
    options: &ChecksumScanOptions,
    likeness: &[u8],
) -> (r: FrameChecksumFinding)
    requires
        forall|i: int| 0 <= i < frames@.len() ==> (#[trigger] frames@[i])@.len() <= i32::MAX,
    ensures
        r@ == group_finding(key, crate::spec::frame_bytes(frames@), options@, likeness@),
{
    let ghost all = crate::spec::frame_bytes(frames@);
    let samples = strided_samples(frames, MAX_SAMPLES);
    let solver_samples = diverse_samples(frames, MAX_SAMPLES);
    let distinct_payloads: usize = solver_samples.len();
    // Profiled once and handed to both halves, so identification and the sweep
    // cannot reach different verdicts about the same byte.
    proof {
        lemma_samples_bounded(all, i32::MAX as int);
    }
    let column_stats = analyse_columns(samples.as_slice());
    proof {
        crate::detect::lemma_column_stats(column_stats@, crate::spec::frame_bytes(samples@));
    }
    // Identification first. Most byte columns on a real link are padding,
    // counters or sensor readings, and each one ruled out here is a whole
    // polynomial search not run.
    let judged = checksum_evidence_with_columns(samples.as_slice(), column_stats.as_slice());
    let columns = rate_evidence(judged.as_slice(), likeness);
    let tail = tail_columns(column_stats.as_slice());
    let sweep_options = ChecksumDetectionOptions {
        positions: vstd::slice::slice_to_vec(options.positions.as_slice()),
        lengths: Vec::new(),
        // A CAN frame declares no header fields to pass on. The 0/1/2 starts the
        // sweep always offers cover a leading id or type byte here.
        header_boundaries: Vec::new(),
        min_match_rate: Percentage::whole(STRONG_MATCH_RATE),
        min_confidence: MIN_CONFIDENCE,
    };
    assert(sweep_options@ == scan_sweep_options(options@));
    let swept = detect_checksum_with_columns(samples.as_slice(), &sweep_options, tail.as_slice());
    let solved = solved_candidates(
        columns.as_slice(),
        tail.as_slice(),
        solver_samples.as_slice(),
        options,
    );
    let ghost from_sweep = crate::detect::candidate_views(swept.candidates@).map_values(
        |c: crate::detect::CandidateView| measured(c),
    );
    let ghost from_solver = discovered_views(solved@);
    let ghost together = from_sweep + from_solver;
    let mut candidates: Vec<DiscoveredChecksum> = Vec::new();
    assert(discovered_views(candidates@) == Seq::<DiscoveredView>::empty());
    for c in it: swept.candidates
        invariant
            from_sweep == crate::detect::candidate_views(it.seq()).map_values(
                |c: crate::detect::CandidateView| measured(c),
            ),
            discovered_views(candidates@) == discovered_ranked(
                from_sweep.take(it.index() as int),
            ),
    {
        assert(from_sweep.take(it.index() + 1).drop_last() == from_sweep.take(it.index() as int));
        assert(from_sweep.take(it.index() + 1).last() == measured(c@));
        let found = DiscoveredChecksum::from(c);
        assert(found@ == measured(c@));
        insert_discovered(&mut candidates, found);
    }
    assert(from_sweep.take(from_sweep.len() as int) == from_sweep);
    assert(from_sweep + from_solver.take(0) == from_sweep);
    for d in it: solved
        invariant
            from_solver == discovered_views(it.seq()),
            discovered_views(candidates@) == discovered_ranked(
                from_sweep + from_solver.take(it.index() as int),
            ),
    {
        let ghost next = from_sweep + from_solver.take(it.index() + 1);
        assert(next.drop_last() == from_sweep + from_solver.take(it.index() as int));
        assert(next.last() == d@);
        insert_discovered(&mut candidates, d);
    }
    assert(from_solver.take(from_solver.len() as int) == from_solver);
    let ghost every = discovered_views(candidates@);
    if candidates.len() > MAX_CANDIDATES_PER_ID {
        candidates.truncate(MAX_CANDIDATES_PER_ID);
        assert(discovered_views(candidates@) == every.take(MAX_CANDIDATES_PER_ID as int));
    }
    FrameChecksumFinding {
        key,
        frame_count: frames.len(),
        distinct_payloads,
        candidates,
        columns,
        notes: swept.notes,
    }
}

// ---------------------------------------------------------------------------
// Whole captures
// ---------------------------------------------------------------------------

/// Payloads grouped by frame id, as a mathematical value.
pub open spec fn group_bytes(groups: Seq<(FrameKey, Vec<Vec<u8>>)>) -> Seq<
    (FrameKey, Seq<Seq<u8>>),
> {
    groups.map_values(|g: (FrameKey, Vec<Vec<u8>>)| (g.0, crate::spec::frame_bytes(g.1@)))
}

/// The likeness ratings of each group.
pub open spec fn likeness_lists(likeness: Seq<Vec<u8>>) -> Seq<Seq<u8>> {
    likeness.map_values(|l: Vec<u8>| l@)
}

/// The ratings of the group `i`; a group without them has none.
pub open spec fn rates_for(likeness: Seq<Seq<u8>>, i: int) -> Seq<u8> {
    if i < likeness.len() {
        likeness[i]
    } else {
        Seq::empty()
    }
}

/// The places of the groups with enough frames to analyse.
pub open spec fn eligible(groups: Seq<(FrameKey, Seq<Seq<u8>>)>, min_samples: int) -> Seq<int>
    decreases groups.len(),
{
    if groups.len() == 0 {
        Seq::empty()
    } else {
        let before = eligible(groups.drop_last(), min_samples);
        if groups.last().1.len() >= min_samples {
            before.push(groups.len() - 1)
        } else {
            before
        }
    }
}

/// What the scan finds for the group `i`.
pub open spec fn finding_at(
    groups: Seq<(FrameKey, Seq<Seq<u8>>)>,
    options: ScanOptionsView,
    likeness: Seq<Seq<u8>>,
    i: int,
) -> FindingView {
    group_finding(groups[i].0, groups[i].1, options, rates_for(likeness, i))
}

/// How many frames the groups hold.
pub open spec fn frames_in(groups: Seq<(FrameKey, Seq<Seq<u8>>)>) -> int
    decreases groups.len(),
{
    if groups.len() == 0 {
        0
    } else {
        frames_in(groups.drop_last()) + groups.last().1.len()
    }
}

/// Whether every payload is short enough for its columns to be numbered.
pub open spec fn numberable(groups: Seq<(FrameKey, Vec<Vec<u8>>)>) -> bool {
    forall|g: int, i: int|
        0 <= g < groups.len() && 0 <= i < groups[g].1@.len() ==> (#[trigger] groups[g].1@[i])@.len()
            <= i32::MAX
}

fn analyse_nth(
    groups: &[(FrameKey, Vec<Vec<u8>>)],
    at: usize,
    options: &ChecksumScanOptions,
    likeness: &[Vec<u8>],
) -> (r: FrameChecksumFinding)
    requires
        at < groups@.len(),
        numberable(groups@),
    ensures
        r@ == finding_at(
            group_bytes(groups@),
            options@,
            likeness_lists(likeness@),
            at as int,
        ),
{
    let group = &groups[at];
    assert(group_bytes(groups@)[at as int] == (group.0, crate::spec::frame_bytes(group.1@)));
    if at < likeness.len() {
        assert(likeness_lists(likeness@)[at as int] == likeness@[at as int]@);
        analyse_group(group.0, group.1.as_slice(), options, likeness[at].as_slice())
    } else {
        let none: Vec<u8> = Vec::new();
        assert(none@ == Seq::<u8>::empty());
        analyse_group(group.0, group.1.as_slice(), options, none.as_slice())
    }
}

/// `rayon`'s parallel `map` over a slice, collected into a `Vec`: the results
/// stand in the order of the slice, each what [`analyse_nth`] returns for its
/// group.
#[verifier::external_body]
fn analyse_chosen(
    groups: &[(FrameKey, Vec<Vec<u8>>)],
    chosen: &Vec<usize>,
    options: &ChecksumScanOptions,
    likeness: &[Vec<u8>],
) -> (r: Vec<FrameChecksumFinding>)
    requires
        numberable(groups@),
        forall|i: int| 0 <= i < chosen@.len() ==> (#[trigger] chosen@[i]) < groups@.len(),
    ensures
        r@.len() == chosen@.len(),
        forall|i: int|
            0 <= i < r@.len() ==> (#[trigger] r@[i])@ == finding_at(
                group_bytes(groups@),
                options@,
                likeness_lists(likeness@),
                chosen@[i] as int,
            ),
{
    chosen.par_iter().map(|at| analyse_nth(groups, *at, options, likeness)).collect()
}

impl ChecksumScanResult {
    /// Whether this is what a scan of the groups reports.
    pub open spec fn reports(
        self,
        groups: Seq<(FrameKey, Seq<Seq<u8>>)>,
        options: ScanOptionsView,
        likeness: Seq<Seq<u8>>,
    ) -> bool {
        let chosen = eligible(groups, options.min_samples);
        &&& self.findings@.len() == chosen.len()
        &&& forall|i: int|
            0 <= i < chosen.len() ==> (#[trigger] self.findings@[i])@ == finding_at(
                groups,
                options,
                likeness,
                chosen[i],
            )
        &&& self.frame_count == frames_in(groups)
        &&& self.unique_frame_ids == groups.len()
        &&& self.skipped_frame_ids == groups.len() - chosen.len()
    }
}

/// The places of the groups with enough frames to analyse, in order: those that a scan
/// reports a finding for.
pub fn eligible_groups(groups: &[(FrameKey, Vec<Vec<u8>>)], min_samples: usize) -> (r: Vec<usize>)
    ensures
        r@.map_values(|i: usize| i as int) == eligible(group_bytes(groups@), min_samples as int),
        forall|i: int| 0 <= i < r@.len() ==> (#[trigger] r@[i]) < groups@.len(),
        r@.len() <= groups@.len(),
{
    let ghost all = group_bytes(groups@);
    let mut chosen: Vec<usize> = Vec::new();
    assert(chosen@.map_values(|i: usize| i as int) == eligible(all.take(0), min_samples as int));
    for i in 0..groups.len()
        invariant
            all == group_bytes(groups@),
            chosen@.len() <= i,
            chosen@.map_values(|i: usize| i as int) == eligible(
                all.take(i as int),
                min_samples as int,
            ),
            forall|j: int| 0 <= j < chosen@.len() ==> (#[trigger] chosen@[j]) < groups@.len(),
    {
        assert(all.take(i + 1).drop_last() == all.take(i as int));
        assert(all.take(i + 1).last() == all[i as int]);
        assert(all[i as int].1.len() == groups@[i as int].1@.len());
        if groups[i].1.len() >= min_samples {
            let ghost before = chosen@.map_values(|i: usize| i as int);
            chosen.push(i);
            assert(chosen@.map_values(|i: usize| i as int) == before.push(i as int));
        }
    }
    assert(all.take(all.len() as int) == all);
    chosen
}

/// Scan payloads already grouped by frame id.
///
/// The shape a database-backed caller wants: it queried per id, so it should not
/// have to flatten only for the grouping to be redone. `likeness` rates the
/// columns of each group, as [`analyse_group`] takes them.
pub fn scan_groups(
    groups: &[(FrameKey, Vec<Vec<u8>>)],
    options: &ChecksumScanOptions,
    likeness: &[Vec<u8>],
) -> (r: ChecksumScanResult)
    requires
        numberable(groups@),
        frames_in(group_bytes(groups@)) <= usize::MAX,
    ensures
        r.reports(group_bytes(groups@), options@, likeness_lists(likeness@)),
{
    let ghost all = group_bytes(groups@);
    let chosen = eligible_groups(groups, options.min_samples);
    let ghost places = eligible(all, options.min_samples as int);
    assert forall|i: int| 0 <= i < chosen@.len() implies #[trigger] chosen@[i] == places[i] by {
        assert(chosen@.map_values(|i: usize| i as int)[i] == chosen@[i]);
    }
    assert(chosen@.len() == places.len());
    let mut frame_count: usize = 0;
    for i in 0..groups.len()
        invariant
            all == group_bytes(groups@),
            frames_in(all) <= usize::MAX,
            frame_count == frames_in(all.take(i as int)),
    {
        assert(all.take(i + 1).drop_last() == all.take(i as int));
        assert(all.take(i + 1).last() == all[i as int]);
        assert(all[i as int].1.len() == groups@[i as int].1@.len());
        proof {
            lemma_frames_in_grows(all, i + 1);
        }
        frame_count = frame_count + groups[i].1.len();
    }
    assert(all.take(all.len() as int) == all);
    let findings = analyse_chosen(groups, &chosen, options, likeness);
    let skipped: usize = groups.len() - findings.len();
    ChecksumScanResult {
        findings,
        frame_count,
        unique_frame_ids: groups.len(),
        skipped_frame_ids: skipped,
    }
}

proof fn lemma_frames_in_grows(groups: Seq<(FrameKey, Seq<Seq<u8>>)>, n: int)
    requires
        0 <= n <= groups.len(),
    ensures
        0 <= frames_in(groups.take(n)) <= frames_in(groups),
    decreases groups.len() - n, n,
{
    if n < groups.len() {
        lemma_frames_in_grows(groups, n + 1);
        lemma_frames_in_nonnegative(groups.take(n));
        assert(groups.take(n + 1).drop_last() == groups.take(n));
    } else {
        assert(groups.take(n) == groups);
        lemma_frames_in_nonnegative(groups);
    }
}

proof fn lemma_frames_in_nonnegative(groups: Seq<(FrameKey, Seq<Seq<u8>>)>)
    ensures
        frames_in(groups) >= 0,
    decreases groups.len(),
{
    if groups.len() > 0 {
        lemma_frames_in_nonnegative(groups.drop_last());
    }
}

/// Frames with their keys, as a mathematical value.
pub open spec fn keyed_bytes(frames: Seq<(FrameKey, Vec<u8>)>) -> Seq<(FrameKey, Seq<u8>)> {
    frames.map_values(|f: (FrameKey, Vec<u8>)| (f.0, f.1@))
}

/// Groups with one more frame: in its group, or in a new one at the end.
pub open spec fn with_frame(
    groups: Seq<(FrameKey, Seq<Seq<u8>>)>,
    key: FrameKey,
    bytes: Seq<u8>,
) -> Seq<(FrameKey, Seq<Seq<u8>>)>
    decreases groups.len(),
{
    if groups.len() == 0 {
        seq![(key, seq![bytes])]
    } else if groups[0].0 == key {
        seq![(key, groups[0].1.push(bytes))] + groups.skip(1)
    } else {
        seq![groups[0]] + with_frame(groups.skip(1), key, bytes)
    }
}

/// The frames that are not empty, grouped by key in arrival order.
pub open spec fn grouped(frames: Seq<(FrameKey, Seq<u8>)>) -> Seq<(FrameKey, Seq<Seq<u8>>)>
    decreases frames.len(),
{
    if frames.len() == 0 {
        Seq::empty()
    } else {
        let before = grouped(frames.drop_last());
        if frames.last().1.len() == 0 {
            before
        } else {
            with_frame(before, frames.last().0, frames.last().1)
        }
    }
}

fn add_frame(groups: &mut Vec<(FrameKey, Vec<Vec<u8>>)>, key: FrameKey, bytes: Vec<u8>)
    requires
        numberable(old(groups)@),
        bytes@.len() <= i32::MAX,
    ensures
        group_bytes(final(groups)@) == with_frame(group_bytes(old(groups)@), key, bytes@),
        numberable(final(groups)@),
{
    let ghost before = group_bytes(groups@);
    let ghost new = bytes@;
    let mut at: usize = 0;
    assert(before.skip(0) == before);
    assert(with_frame(before, key, new) == before.take(0) + with_frame(before, key, new));
    while at < groups.len() && groups[at].0 != key
        invariant
            at <= groups@.len(),
            groups@ == old(groups)@,
            before == group_bytes(groups@),
            with_frame(before, key, new) == before.take(at as int) + with_frame(
                before.skip(at as int),
                key,
                new,
            ),
        decreases groups@.len() - at,
    {
        let ghost rest = before.skip(at as int);
        assert(rest[0].0 == groups@[at as int].0);
        assert(rest.skip(1) == before.skip(at + 1));
        assert(before.take(at as int) + (seq![rest[0]] + with_frame(rest.skip(1), key, new))
            == before.take(at + 1) + with_frame(before.skip(at + 1), key, new));
        at = at + 1;
    }
    if at == groups.len() {
        assert(before.skip(at as int) == Seq::<(FrameKey, Seq<Seq<u8>>)>::empty());
        let mut payloads: Vec<Vec<u8>> = Vec::new();
        payloads.push(bytes);
        assert(crate::spec::frame_bytes(payloads@) == seq![new]);
        groups.push((key, payloads));
        assert(group_bytes(groups@) == before.take(at as int) + seq![(key, seq![new])]);
    } else {
        let ghost rest = before.skip(at as int);
        let ghost group = groups@[at as int];
        assert(rest[0] == (group.0, crate::spec::frame_bytes(group.1@)));
        groups[at].1.push(bytes);
        assert(groups@[at as int].1@ == group.1@.push(bytes));
        assert(crate::spec::frame_bytes(groups@[at as int].1@) == rest[0].1.push(new));
        assert(group_bytes(groups@) == before.take(at as int) + (seq![(key, rest[0].1.push(new))]
            + rest.skip(1)));
    }
}

/// Group a flat run of frames by id, in arrival order, leaving out empty ones.
pub fn group_frames(frames: Vec<(FrameKey, Vec<u8>)>) -> (r: Vec<(FrameKey, Vec<Vec<u8>>)>)
    requires
        forall|i: int| 0 <= i < frames@.len() ==> (#[trigger] frames@[i]).1@.len() <= i32::MAX,
    ensures
        group_bytes(r@) == grouped(keyed_bytes(frames@)),
        numberable(r@),
{
    let ghost all = keyed_bytes(frames@);
    // Groups in arrival order, so the results read the way the capture does.
    let mut groups: Vec<(FrameKey, Vec<Vec<u8>>)> = Vec::new();
    assert(group_bytes(groups@) == Seq::<(FrameKey, Seq<Seq<u8>>)>::empty());
    for f in it: frames
        invariant
            all == keyed_bytes(it.seq()),
            forall|i: int|
                0 <= i < it.seq().len() ==> (#[trigger] it.seq()[i]).1@.len() <= i32::MAX,
            group_bytes(groups@) == grouped(all.take(it.index() as int)),
            numberable(groups@),
    {
        assert(all.take(it.index() + 1).drop_last() == all.take(it.index() as int));
        assert(all.take(it.index() + 1).last() == (f.0, f.1@));
        assert(it.seq()[it.index() as int].1@.len() <= i32::MAX);
        let (key, bytes) = f;
        if bytes.len() > 0 {
            add_frame(&mut groups, key, bytes);
        }
    }
    assert(all.take(all.len() as int) == all);
    groups
}

/// Group a flat run of frames by id, in arrival order, then scan.
pub fn scan_frames(
    frames: Vec<(FrameKey, Vec<u8>)>,
    options: &ChecksumScanOptions,
    likeness: &[Vec<u8>],
) -> (r: ChecksumScanResult)
    requires
        forall|i: int| 0 <= i < frames@.len() ==> (#[trigger] frames@[i]).1@.len() <= i32::MAX,
    ensures
        r.reports(grouped(keyed_bytes(frames@)), options@, likeness_lists(likeness@)),
{
    let ghost all = keyed_bytes(frames@);
    let count: usize = frames.len();
    proof {
        assert(all.len() == count);
        lemma_grouping_counts(all);
    }
    let groups = group_frames(frames);
    scan_groups(groups.as_slice(), options, likeness)
}

// ---------------------------------------------------------------------------
// Laws
// ---------------------------------------------------------------------------

proof fn lemma_with_frame_counts(
    groups: Seq<(FrameKey, Seq<Seq<u8>>)>,
    key: FrameKey,
    bytes: Seq<u8>,
)
    ensures
        frames_in(with_frame(groups, key, bytes)) == frames_in(groups) + 1,
    decreases groups.len(),
{
    if groups.len() == 0 {
        assert(with_frame(groups, key, bytes).drop_last() == groups);
    } else if groups[0].0 == key {
        lemma_frames_in_front(groups);
        lemma_frames_in_front(with_frame(groups, key, bytes));
        assert(with_frame(groups, key, bytes).skip(1) == groups.skip(1));
    } else {
        lemma_with_frame_counts(groups.skip(1), key, bytes);
        lemma_frames_in_front(groups);
        lemma_frames_in_front(with_frame(groups, key, bytes));
        assert(with_frame(groups, key, bytes).skip(1) == with_frame(groups.skip(1), key, bytes));
    }
}

proof fn lemma_frames_in_front(groups: Seq<(FrameKey, Seq<Seq<u8>>)>)
    requires
        groups.len() > 0,
    ensures
        frames_in(groups) == groups[0].1.len() + frames_in(groups.skip(1)),
    decreases groups.len(),
{
    if groups.len() == 1 {
        assert(groups.drop_last() == groups.skip(1));
    } else {
        lemma_frames_in_front(groups.drop_last());
        assert(groups.drop_last().skip(1) == groups.skip(1).drop_last());
    }
}

proof fn lemma_grouping_counts(frames: Seq<(FrameKey, Seq<u8>)>)
    ensures
        frames_in(grouped(frames)) <= frames.len(),
    decreases frames.len(),
{
    if frames.len() > 0 {
        lemma_grouping_counts(frames.drop_last());
        lemma_with_frame_counts(
            grouped(frames.drop_last()),
            frames.last().0,
            frames.last().1,
        );
    }
}

/// The payloads of one frame id that are not empty, in arrival order.
pub open spec fn payloads_of(frames: Seq<(FrameKey, Seq<u8>)>, key: FrameKey) -> Seq<Seq<u8>>
    decreases frames.len(),
{
    if frames.len() == 0 {
        Seq::empty()
    } else if frames.last().0 == key && frames.last().1.len() > 0 {
        payloads_of(frames.drop_last(), key).push(frames.last().1)
    } else {
        payloads_of(frames.drop_last(), key)
    }
}

/// Whether the groups are one for each key that has a payload, holding exactly
/// the payloads of that key.
pub open spec fn partitions(
    groups: Seq<(FrameKey, Seq<Seq<u8>>)>,
    frames: Seq<(FrameKey, Seq<u8>)>,
) -> bool {
    &&& forall|i: int|
        0 <= i < groups.len() ==> (#[trigger] groups[i]).1 == payloads_of(frames, groups[i].0)
    &&& forall|i: int, j: int|
        0 <= i < j < groups.len() ==> (#[trigger] groups[i]).0 != (#[trigger] groups[j]).0
    &&& forall|key: FrameKey| #[trigger]
        payloads_of(frames, key).len() > 0 ==> exists|i: int|
            0 <= i < groups.len() && (#[trigger] groups[i]).0 == key
}

proof fn lemma_with_frame_shape(
    groups: Seq<(FrameKey, Seq<Seq<u8>>)>,
    key: FrameKey,
    bytes: Seq<u8>,
)
    requires
        forall|i: int, j: int|
            0 <= i < j < groups.len() ==> (#[trigger] groups[i]).0 != (#[trigger] groups[j]).0,
    ensures
        ({
            let out = with_frame(groups, key, bytes);
            &&& groups.len() <= out.len() <= groups.len() + 1
            &&& forall|i: int|
                0 <= i < groups.len() ==> {
                    &&& (#[trigger] out[i]).0 == groups[i].0
                    &&& groups[i].0 == key ==> out[i].1 == groups[i].1.push(bytes)
                    &&& groups[i].0 != key ==> out[i].1 == groups[i].1
                }
            &&& out.len() == groups.len() ==> exists|i: int|
                0 <= i < groups.len() && (#[trigger] groups[i]).0 == key
            &&& out.len() == groups.len() + 1 ==> {
                &&& out.last() == (key, seq![bytes])
                &&& forall|i: int| 0 <= i < groups.len() ==> (#[trigger] groups[i]).0 != key
            }
        }),
    decreases groups.len(),
{
    let out = with_frame(groups, key, bytes);
    if groups.len() > 0 {
        if groups[0].0 == key {
            assert(out.len() == groups.len());
            assert forall|i: int| 0 <= i < groups.len() implies {
                &&& (#[trigger] out[i]).0 == groups[i].0
                &&& groups[i].0 == key ==> out[i].1 == groups[i].1.push(bytes)
                &&& groups[i].0 != key ==> out[i].1 == groups[i].1
            } by {
                if i > 0 {
                    assert(groups[0].0 != groups[i].0);
                    assert(out[i] == groups.skip(1)[i - 1]);
                }
            }
        } else {
            let tail = groups.skip(1);
            assert forall|i: int, j: int| 0 <= i < j < tail.len() implies (#[trigger] tail[i]).0
                != (#[trigger] tail[j]).0 by {
                assert(groups[i + 1].0 != groups[j + 1].0);
            }
            lemma_with_frame_shape(tail, key, bytes);
            let rest = with_frame(tail, key, bytes);
            assert forall|i: int| 0 <= i < groups.len() implies {
                &&& (#[trigger] out[i]).0 == groups[i].0
                &&& groups[i].0 == key ==> out[i].1 == groups[i].1.push(bytes)
                &&& groups[i].0 != key ==> out[i].1 == groups[i].1
            } by {
                if i > 0 {
                    assert(out[i] == rest[i - 1]);
                    assert(tail[i - 1] == groups[i]);
                }
            }
            if out.len() == groups.len() {
                let k = choose|k: int| 0 <= k < tail.len() && (#[trigger] tail[k]).0 == key;
                assert(groups[k + 1].0 == key);
            } else {
                assert forall|i: int| 0 <= i < groups.len() implies (#[trigger] groups[i]).0
                    != key by {
                    if i > 0 {
                        assert(tail[i - 1] == groups[i]);
                    }
                }
            }
        }
    }
}

/// Grouping loses nothing and mixes nothing: there is one group for each frame
/// id that has a payload, and it holds exactly that id's payloads, in order. A
/// standard and an extended id sharing a number are different ids.
pub proof fn law_grouping_partitions_the_capture(frames: Seq<(FrameKey, Seq<u8>)>)
    ensures
        partitions(grouped(frames), frames),
    decreases frames.len(),
{
    if frames.len() > 0 {
        let front = frames.drop_last();
        let key = frames.last().0;
        let bytes = frames.last().1;
        law_grouping_partitions_the_capture(front);
        let groups = grouped(front);
        assert forall|k: FrameKey| #[trigger] payloads_of(frames, k) == if k == key && bytes.len()
            > 0 {
            payloads_of(front, k).push(bytes)
        } else {
            payloads_of(front, k)
        } by {}
        if bytes.len() > 0 {
            lemma_with_frame_shape(groups, key, bytes);
            let out = with_frame(groups, key, bytes);
            assert forall|i: int| 0 <= i < out.len() implies (#[trigger] out[i]).1 == payloads_of(
                frames,
                out[i].0,
            ) by {
                if i < groups.len() {
                    assert(groups[i].1 == payloads_of(front, groups[i].0));
                } else {
                    if payloads_of(front, key).len() > 0 {
                        let k = choose|k: int|
                            0 <= k < groups.len() && (#[trigger] groups[k]).0 == key;
                        assert(groups[k].0 == key);
                    }
                    assert(payloads_of(front, key) == Seq::<Seq<u8>>::empty());
                }
            }
            assert forall|k: FrameKey| #[trigger] payloads_of(frames, k).len() > 0 implies exists|
                i: int,
            | 0 <= i < out.len() && (#[trigger] out[i]).0 == k by {
                if k == key {
                    if out.len() == groups.len() {
                        let i = choose|i: int|
                            0 <= i < groups.len() && (#[trigger] groups[i]).0 == key;
                        assert(out[i].0 == key);
                    } else {
                        assert(out[out.len() - 1].0 == key);
                    }
                } else {
                    assert(payloads_of(front, k).len() > 0);
                    let i = choose|i: int| 0 <= i < groups.len() && (#[trigger] groups[i]).0 == k;
                    assert(out[i].0 == k);
                }
            }
        } else {
            assert forall|k: FrameKey| #[trigger] payloads_of(frames, k).len() > 0 implies exists|
                i: int,
            | 0 <= i < groups.len() && (#[trigger] groups[i]).0 == k by {
                assert(payloads_of(front, k).len() > 0);
            }
        }
    }
}

/// A solved configuration never ranks below a measured one of the same
/// confidence, width and range: an absent rate means exact.
pub proof fn law_exact_solutions_rank_no_lower_than_measured_ones(
    solved: DiscoveredView,
    other: DiscoveredView,
)
    requires
        solved.match_rate is None,
        other.match_rate matches Some(rate) ==> rate.matched <= rate.total,
        solved.confidence == other.confidence,
        solved.length == other.length,
        solved.calc_start_byte == other.calc_start_byte,
    ensures
        !discovered_before(other, solved),
{
    if let Some(rate) = other.match_rate {
        assert(rate.matched * 1 <= 1 * rate.total);
    }
}

/// A solved configuration is trusted more the likelier its column looked and the more
/// frames bear it out, from 55 up to 100.
pub proof fn law_solved_confidence_rises_with_the_evidence(
    likeness: u8,
    more: u8,
    samples: int,
    further: int,
)
    requires
        likeness <= more,
        0 <= samples <= further,
    ensures
        55 <= solved_score(likeness, samples) <= solved_score(more, further) <= 100,
        likeness >= 100 && samples >= 200 ==> solved_score(likeness, samples) == 100,
        likeness == 0 && samples < 8 ==> solved_score(likeness, samples) == 55,
{
}

/// Ranking puts the higher confidence first; at one confidence the higher rate, then the
/// shorter checksum, then the one that starts earlier. It is a strict order.
pub proof fn law_ranking_is_by_confidence(a: DiscoveredView, b: DiscoveredView)
    ensures
        a.confidence > b.confidence ==> discovered_before(a, b) && !discovered_before(b, a),
        a.confidence == b.confidence && a.match_rate == b.match_rate && a.length < b.length
            ==> discovered_before(a, b) && !discovered_before(b, a),
        a.confidence == b.confidence && a.match_rate == b.match_rate && a.length == b.length
            && a.calc_start_byte < b.calc_start_byte ==> discovered_before(a, b)
            && !discovered_before(b, a),
        a.confidence == b.confidence && (a.match_rate matches Some(x) && (b.match_rate matches Some(
            y,
        ) && x.matched * y.total > y.matched * x.total)) ==> discovered_before(a, b)
            && !discovered_before(b, a),
        !discovered_before(a, a),
{
}

proof fn lemma_with_discovered_holds(
    list: Seq<DiscoveredView>,
    d: DiscoveredView,
    x: DiscoveredView,
)
    requires
        x == d || list.contains(x),
    ensures
        with_discovered(list, d).contains(x),
    decreases list.len(),
{
    let now = with_discovered(list, d);
    if list.len() == 0 {
        assert(now[0] == x);
    } else if discovered_before(d, list.last()) {
        let rest = with_discovered(list.drop_last(), d);
        if x != d && x == list.last() {
            assert(now[now.len() - 1] == x);
        } else {
            if x != d {
                let i = choose|i: int| 0 <= i < list.len() && list[i] == x;
                assert(list.drop_last()[i] == x);
            }
            lemma_with_discovered_holds(list.drop_last(), d, x);
            let j = choose|j: int| 0 <= j < rest.len() && rest[j] == x;
            assert(now[j] == x);
        }
    } else if x == d {
        assert(now[now.len() - 1] == x);
    } else {
        let i = choose|i: int| 0 <= i < list.len() && list[i] == x;
        assert(now[i] == x);
    }
}

proof fn lemma_discovered_ranked_holds(list: Seq<DiscoveredView>, x: DiscoveredView)
    requires
        list.contains(x),
    ensures
        discovered_ranked(list).contains(x),
    decreases list.len(),
{
    if x != list.last() {
        let i = choose|i: int| 0 <= i < list.len() && list[i] == x;
        assert(list.drop_last()[i] == x);
        lemma_discovered_ranked_holds(list.drop_last(), x);
    }
    lemma_with_discovered_holds(discovered_ranked(list.drop_last()), list.last(), x);
}

/// What the sweep detects for a frame id is reported for it, with its geometry, its range,
/// its counts and its confidence, unless the report is full.
pub proof fn law_detected_configurations_are_reported(
    key: FrameKey,
    frames: Seq<Seq<u8>>,
    options: ScanOptionsView,
    likeness: Seq<u8>,
    i: int,
)
    requires
        ({
            let samples = crate::sampling::strided(frames, MAX_SAMPLES as int);
            0 <= i < crate::detect::detected(
                samples,
                scan_sweep_options(options),
                crate::detect::column_stats(samples),
            ).len()
        }),
    ensures
        ({
            let samples = crate::sampling::strided(frames, MAX_SAMPLES as int);
            let c = crate::detect::detected(
                samples,
                scan_sweep_options(options),
                crate::detect::column_stats(samples),
            )[i];
            let finding = group_finding(key, frames, options, likeness);
            &&& finding.key == key
            &&& finding.frame_count == frames.len()
            &&& finding.candidates.len() <= MAX_CANDIDATES_PER_ID
            &&& finding.candidates.len() < MAX_CANDIDATES_PER_ID ==> exists|k: int|
                0 <= k < finding.candidates.len() && ({
                    let d = #[trigger] finding.candidates[k];
                    &&& d.specification == crate::specification::SpecificationView::Named {
                        algorithm: c.spec.algorithm,
                    }
                    &&& d.position == c.spec.position
                    &&& d.length == c.spec.byte_length
                    &&& d.big_endian == c.spec.big_endian
                    &&& d.calc_start_byte == c.spec.calc_start_byte
                    &&& d.calc_end_byte == c.spec.calc_end_byte
                    &&& d.match_count == c.match_count
                    &&& d.total_count == c.total_count
                    &&& d.confidence == c.confidence
                    &&& d.equivalent_ranges == c.equivalent_ranges
                })
        }),
{
    let samples = crate::sampling::strided(frames, MAX_SAMPLES as int);
    let solver_samples = crate::sampling::diverse(frames, MAX_SAMPLES as int);
    let columns = crate::detect::column_stats(samples);
    let found = crate::detect::detected(samples, scan_sweep_options(options), columns);
    let evidence = rated_evidence(crate::evidence::judgements(columns, samples), likeness);
    let swept = found.map_values(|c: crate::detect::CandidateView| measured(c));
    let all = swept + solved_news(evidence, columns, solver_samples, options);
    let d = measured(found[i]);
    assert(all[i] == d);
    assert(all.contains(d));
    lemma_discovered_ranked_holds(all, d);
    let ranked = discovered_ranked(all);
    let k = choose|k: int| 0 <= k < ranked.len() && ranked[k] == d;
    let finding = group_finding(key, frames, options, likeness);
    if ranked.len() <= MAX_CANDIDATES_PER_ID {
        assert(finding.candidates[k] == d);
    }
}

} // verus!
