//! Which bytes are worth solving as a checksum.
//!
//! [`crate::solve`] answers *what algorithm is this byte*. It is cheap enough to
//! ask blindly — an exhaustive CRC-16 sweep is milliseconds — but asking blindly
//! still means asking the wrong question of most of a bus. This module asks the
//! prior question, from one pass over consecutive payloads.
//!
//! # The decisive test is a rejection, not a score
//!
//! A checksum is a *function of the other bytes*. So if two payloads agree on
//! every byte except this column, and this column differs, no function can
//! produce both — the column cannot be a checksum over any subset of the rest.
//! That is not a heuristic and it needs no threshold; it is arithmetic, and it
//! removes counters, sequence numbers and free-running timers outright.
//!
//! # What is left is separated by two conditional rates
//!
//! For the survivors, the useful signal is how reliably the column moves *with*
//! the payload: a real checksum changes almost every time the payload does,
//! while a sensor byte often sits still while other bytes move. Entropy alone
//! cannot make this distinction.

use crate::columns::{analyse_columns, ColumnStats};
use crate::detect::{calc_ranges, first_samples, tail_columns, CalcRange, ChecksumColumnStat};
use crate::sampling::same_bytes;
use crate::solve::SolveTarget;
use vstd::prelude::*;

verus! {

/// Below this many payload pairs, the conditional rates are noise.
pub const MIN_TRANSITIONS: usize = 8;

/// Why a column was ruled out. Kept so a scan can say what it decided rather
/// than silently omitting the byte.
#[derive(Debug, Clone, Copy, PartialEq, Eq, Structural)]
pub enum Rejection {
    /// One value across every payload — padding.
    Constant,
    /// Changed while every other byte stayed the same, so it is not a function
    /// of them. A counter or a timer.
    NotAFunctionOfTheOtherBytes,
    /// Sat still too often while the payload moved around it.
    TooOftenUnchanged,
    /// Not enough consecutive payload pairs to judge.
    TooFewTransitions,
    /// Took far fewer values than there were distinct payloads to checksum. A
    /// checksum is near-injective; a byte oscillating over four values while a
    /// hundred different payloads go past is measuring something else.
    TooFewDistinctValues,
}

/// What one column looks like as a checksum candidate.
#[derive(Debug, Clone, Copy, PartialEq, Eq)]
pub struct ChecksumEvidence {
    /// End-relative index: -1 is the last byte.
    pub position: i32,
    /// Payload pairs where the rest of the payload changed.
    pub payload_changed: usize,
    /// ...and this column changed with it. A checksum misses only on collision.
    pub changed_with_payload: usize,
    /// Payload pairs where the rest held still but this column moved. Any of
    /// these at all is disqualifying.
    pub changed_alone: usize,
    /// Distinct values against the most the column could have shown.
    pub distinct_ratio: (usize, usize),
    /// 0-100, once rated. Zero when `rejected` is set.
    pub likeness: u8,
    pub rejected: Option<Rejection>,
}

// ---------------------------------------------------------------------------
// What the payloads say about a column
// ---------------------------------------------------------------------------

/// Whether two payloads are compared for the column `k` from the end: both
/// reach it, and they are equally long.
pub open spec fn comparable(a: Seq<u8>, b: Seq<u8>, k: int) -> bool {
    &&& crate::columns::reaches(a, k)
    &&& crate::columns::reaches(b, k)
    &&& a.len() == b.len()
}

/// Whether any byte but the one `k` from the end differs.
pub open spec fn rest_moved(a: Seq<u8>, b: Seq<u8>, k: int) -> bool {
    exists|i: int| 0 <= i < a.len() && i != a.len() - k && a[i] != #[trigger] b[i]
}

/// Whether the byte `k` from the end differs.
pub open spec fn column_moved(a: Seq<u8>, b: Seq<u8>, k: int) -> bool {
    crate::columns::byte_at(a, k) != crate::columns::byte_at(b, k)
}

/// Consecutive comparable pairs in which the rest moved or did not, and the
/// column moved or did not.
pub open spec fn moves(payloads: Seq<Seq<u8>>, k: int, rest: bool, column: bool) -> int
    decreases payloads.len(),
{
    if payloads.len() <= 1 {
        0
    } else {
        let a = payloads[payloads.len() - 2];
        let b = payloads.last();
        moves(payloads.drop_last(), k, rest, column) + if comparable(a, b, k) && rest_moved(a, b, k)
            == rest && column_moved(a, b, k) == column {
            1int
        } else {
            0
        }
    }
}

/// How many different payloads there are.
pub open spec fn distinct_count(payloads: Seq<Seq<u8>>) -> int
    decreases payloads.len(),
{
    if payloads.len() == 0 {
        0
    } else {
        distinct_count(payloads.drop_last()) + if payloads.drop_last().contains(payloads.last()) {
            0int
        } else {
            1
        }
    }
}

/// The verdict on a column that is not padding.
///
/// A column changing while every other byte held still is disqualifying, but one
/// such pair on a long capture is more likely a dropped or interleaved frame
/// than proof: one in fifty is tolerated. An 8-bit checksum collides about 1 in
/// 256, so anything that moves with the payload less than nine times in ten
/// tracks something narrower than the whole payload. And a checksum is
/// near-injective: a quarter of the values it could have reached is well under
/// what one shows.
pub open spec fn verdict(
    changed: int,
    together: int,
    alone: int,
    values: int,
    distinct_payloads: int,
) -> Option<Rejection> {
    let reachable = if distinct_payloads <= 256 {
        distinct_payloads
    } else {
        256
    };
    if changed + alone < 8 {
        Some(Rejection::TooFewTransitions)
    } else if 50 * alone > changed + alone {
        Some(Rejection::NotAFunctionOfTheOtherBytes)
    } else if 10 * together < 9 * changed {
        Some(Rejection::TooOftenUnchanged)
    } else if 4 * values < reachable {
        Some(Rejection::TooFewDistinctValues)
    } else {
        None
    }
}

/// How deep a column lies; one that does not count from the end lies deeper than
/// any payload.
pub open spec fn depth_of(position: int) -> int {
    if position < 0 {
        -position
    } else {
        usize::MAX - position + 1
    }
}

/// The distinct values of a column against the most it could have shown.
pub open spec fn ratio_of(column: ChecksumColumnStat) -> (usize, usize) {
    let ceiling: usize = if column.sample_count <= 256 {
        column.sample_count
    } else {
        256
    };
    if ceiling == 0 {
        (0, 0)
    } else {
        (column.distinct_values, ceiling)
    }
}

/// What the payloads say about a column, not yet rated.
pub open spec fn judged(
    column: ChecksumColumnStat,
    payloads: Seq<Seq<u8>>,
    distinct_payloads: int,
) -> ChecksumEvidence {
    let k = depth_of(column.position as int);
    let together = moves(payloads, k, true, true);
    let changed = together + moves(payloads, k, true, false);
    let alone = moves(payloads, k, false, true);
    if column.sample_count >= 8 && column.constant_value is Some {
        ChecksumEvidence {
            position: column.position,
            payload_changed: 0,
            changed_with_payload: 0,
            changed_alone: 0,
            distinct_ratio: ratio_of(column),
            likeness: 0,
            rejected: Some(Rejection::Constant),
        }
    } else {
        ChecksumEvidence {
            position: column.position,
            payload_changed: changed as usize,
            changed_with_payload: together as usize,
            changed_alone: alone as usize,
            distinct_ratio: ratio_of(column),
            likeness: 0,
            rejected: verdict(
                changed,
                together,
                alone,
                column.distinct_values as int,
                distinct_payloads,
            ),
        }
    }
}

/// Whether evidence on a column is consistent: a rejected column has no likeness; a
/// column moves with the payload at most as often as the payload moves; and one that
/// stands is no padding, showed eight transitions at least, moved alone in at most one
/// of fifty, and followed the payload in nine of ten.
pub open spec fn is_consistent(e: ChecksumEvidence, column: ChecksumColumnStat) -> bool {
    &&& e.rejected is Some ==> e.likeness == 0
    &&& e.likeness <= 100
    &&& e.changed_with_payload <= e.payload_changed
    &&& e.rejected is None ==> {
        &&& !(column.sample_count >= 8 && column.constant_value is Some)
        &&& e.payload_changed + e.changed_alone >= 8
        &&& 50 * e.changed_alone <= e.payload_changed + e.changed_alone
        &&& 10 * e.changed_with_payload >= 9 * e.payload_changed
    }
}

impl ChecksumEvidence {
    pub fn is_candidate(&self) -> (r: bool)
        ensures
            r == (self.rejected is None),
    {
        self.rejected.is_none()
    }

    /// `changed_with_payload` out of `payload_changed`.
    pub fn responsiveness(&self) -> (r: (usize, usize))
        ensures
            r == (self.changed_with_payload, self.payload_changed),
    {
        (self.changed_with_payload, self.payload_changed)
    }

    /// This evidence with its likeness: of a rejected column none, and never
    /// above 100.
    pub open spec fn with_likeness(self, likeness: u8) -> Self {
        ChecksumEvidence {
            likeness: if self.rejected is Some {
                0
            } else if likeness > 100 {
                100
            } else {
                likeness
            },
            ..self
        }
    }

    /// Set how checksum-shaped the column looks, 0-100. A rejected column stays
    /// at zero.
    pub fn rated(self, likeness: u8) -> (r: Self)
        ensures
            r == self.with_likeness(likeness),
    {
        let mut rated = self;
        rated.likeness = if self.rejected.is_some() {
            0
        } else if likeness > 100 {
            100
        } else {
            likeness
        };
        rated
    }
}

proof fn lemma_moves_bounded(payloads: Seq<Seq<u8>>, k: int)
    ensures
        0 <= moves(payloads, k, true, true),
        0 <= moves(payloads, k, true, false),
        0 <= moves(payloads, k, false, true),
        moves(payloads, k, true, true) + moves(payloads, k, true, false) + moves(
            payloads,
            k,
            false,
            true,
        ) <= payloads.len(),
    decreases payloads.len(),
{
    if payloads.len() > 1 {
        lemma_moves_bounded(payloads.drop_last(), k);
    }
}

fn others_differ(a: &[u8], b: &[u8], index: usize) -> (r: bool)
    requires
        a@.len() == b@.len(),
        index <= a@.len(),
    ensures
        r == rest_moved(a@, b@, a@.len() - index),
{
    for i in 0..a.len()
        invariant
            a@.len() == b@.len(),
            forall|j: int| 0 <= j < i && j != index ==> a@[j] == b@[j],
    {
        if i != index && a[i] != b[i] {
            return true;
        }
    }
    false
}

/// Rate a single column.
fn evaluate(column: &ColumnStats, payloads: &[Vec<u8>], depth: usize, distinct_payloads: usize) -> (r:
    ChecksumEvidence)
    requires
        depth > 0,
        depth == depth_of(column.position as int),
    ensures
        r == judged(
            crate::detect::stat_of(*column),
            crate::spec::frame_bytes(payloads@),
            distinct_payloads as int,
        ),
        is_consistent(r, crate::detect::stat_of(*column)),
{
    proof {
        law_evidence_is_consistent(
            crate::detect::stat_of(*column),
            crate::spec::frame_bytes(payloads@),
            distinct_payloads as int,
            0,
        );
    }
    let ghost all = crate::spec::frame_bytes(payloads@);
    let ghost k = depth as int;
    let mut evidence = ChecksumEvidence {
        position: column.position,
        payload_changed: 0,
        changed_with_payload: 0,
        changed_alone: 0,
        distinct_ratio: column.distinct_ratio(),
        likeness: 0,
        rejected: None,
    };
    // Padding, not a checksum.
    if column.padding_value().is_some() {
        evidence.rejected = Some(Rejection::Constant);
        return evidence;
    }
    // Walk consecutive payloads that both reach this column, splitting each pair
    // on whether anything *other* than this byte moved.

    let mut together: usize = 0;
    let mut still: usize = 0;
    let mut alone: usize = 0;
    for i in 0..payloads.len()
        invariant
            all == crate::spec::frame_bytes(payloads@),
            k == depth,
            depth > 0,
            together == moves(all.take(i as int), k, true, true),
            still == moves(all.take(i as int), k, true, false),
            alone == moves(all.take(i as int), k, false, true),
    {
        let ghost front = all.take(i + 1);
        assert(front.drop_last() == all.take(i as int));
        proof {
            lemma_moves_bounded(front, k);
        }
        if i > 0 {
            let previous = &payloads[i - 1];
            let payload = &payloads[i];
            assert(front[front.len() - 2] == previous@);
            assert(front.last() == payload@);
            if previous.len() >= depth && payload.len() >= depth && previous.len()
                == payload.len() {
                let index: usize = payload.len() - depth;
                let moved: bool = previous[index] != payload[index];
                if others_differ(previous.as_slice(), payload.as_slice(), index) {
                    if moved {
                        together = together + 1;
                    } else {
                        still = still + 1;
                    }
                } else if moved {
                    alone = alone + 1;
                }
            }
        }
    }
    assert(all.take(all.len() as int) == all);
    proof {
        lemma_moves_bounded(all, k);
    }
    evidence.payload_changed = together + still;
    evidence.changed_with_payload = together;
    evidence.changed_alone = alone;
    let considered: usize = evidence.payload_changed + evidence.changed_alone;
    if considered < MIN_TRANSITIONS {
        evidence.rejected = Some(Rejection::TooFewTransitions);
        return evidence;
    }
    // The arithmetic rejection. A function of the other bytes cannot produce two
    // different outputs from the same input.

    if alone as u128 * 50 > considered as u128 {
        evidence.rejected = Some(Rejection::NotAFunctionOfTheOtherBytes);
        return evidence;
    }
    if together as u128 * 10 < evidence.payload_changed as u128 * 9 {
        evidence.rejected = Some(Rejection::TooOftenUnchanged);
        return evidence;
    }
    // Near-injectivity, checked last of the rejections: a byte that fails both
    // this and the responsiveness test is better described as not tracking the
    // payload than as having a narrow range, since the narrow range follows.

    let reachable: usize = if distinct_payloads <= 256 {
        distinct_payloads
    } else {
        256
    };
    if column.distinct_values as u128 * 4 < reachable as u128 {
        evidence.rejected = Some(Rejection::TooFewDistinctValues);
        return evidence;
    }
    evidence
}

fn count_distinct(sample: &[Vec<u8>]) -> (r: usize)
    ensures
        r == distinct_count(crate::spec::frame_bytes(sample@)),
        r <= sample@.len(),
{
    let ghost all = crate::spec::frame_bytes(sample@);
    let mut count: usize = 0;
    for i in 0..sample.len()
        invariant
            all == crate::spec::frame_bytes(sample@),
            count == distinct_count(all.take(i as int)),
            count <= i,
    {
        let ghost before = all.take(i as int);
        assert(all.take(i + 1).drop_last() == before);
        let mut seen = false;
        let mut k: usize = 0;
        while k < i && !seen
            invariant
                k <= i < sample@.len(),
                all == crate::spec::frame_bytes(sample@),
                before == all.take(i as int),
                seen ==> before.contains(all[i as int]),
                !seen ==> forall|j: int| 0 <= j < k ==> before[j] != all[i as int],
            decreases i - k,
        {
            if same_bytes(sample[k].as_slice(), sample[i].as_slice()) {
                seen = true;
                assert(before[k as int] == all[i as int]);
            }
            k = k + 1;
        }
        if !seen {
            count = count + 1;
        }
    }
    assert(all.take(all.len() as int) == all);
    count
}

/// What the payloads say about each of the columns.
pub open spec fn judgements(columns: Seq<ChecksumColumnStat>, payloads: Seq<Seq<u8>>) -> Seq<
    ChecksumEvidence,
> {
    columns.map_values(|c: ChecksumColumnStat| judged(c, payloads, distinct_count(payloads)))
}

/// [`checksum_evidence`] for a caller that has already profiled the columns and
/// already chosen its sample.
///
/// The sweep needs the same columns, so handing them over is one pass instead of
/// two and — the part that matters — leaves one verdict per byte rather than two
/// that can disagree.
pub fn checksum_evidence_with_columns(sample: &[Vec<u8>], columns: &[ColumnStats]) -> (r: Vec<
    ChecksumEvidence,
>)
    requires
        forall|i: int|
            0 <= i < columns@.len() ==> (#[trigger] columns@[i]).position != 0
                && columns@[i].position > i32::MIN,
    ensures
        r@ == judgements(crate::detect::stats_of(columns@), crate::spec::frame_bytes(sample@)),
        forall|i: int|
            0 <= i < r@.len() ==> is_consistent(
                #[trigger] r@[i],
                crate::detect::stats_of(columns@)[i],
            ),
{
    let distinct_payloads: usize = count_distinct(sample);
    let mut out: Vec<ChecksumEvidence> = Vec::new();
    for i in 0..columns.len()
        invariant
            forall|j: int|
                0 <= j < columns@.len() ==> (#[trigger] columns@[j]).position != 0
                    && columns@[j].position > i32::MIN,
            distinct_payloads == distinct_count(crate::spec::frame_bytes(sample@)),
            forall|j: int|
                0 <= j < i ==> is_consistent(
                    #[trigger] out@[j],
                    crate::detect::stats_of(columns@)[j],
                ),
            out@ == judgements(crate::detect::stats_of(columns@), crate::spec::frame_bytes(sample@)).take(i as int),
    {
        // Depth comes off the column's own position rather than its index, so
        // the slice need not arrive in any particular order.
        let position: i32 = columns[i].position;
        let depth: usize = if position < 0 {
            (-position) as usize
        } else {
            usize::MAX - (position as usize - 1)
        };
        out.push(evaluate(&columns[i], sample, depth, distinct_payloads));
        assert(judgements(crate::detect::stats_of(columns@), crate::spec::frame_bytes(sample@)).take(i + 1) == judgements(
            crate::detect::stats_of(columns@),
            crate::spec::frame_bytes(sample@),
        ).take(i as int).push(out@.last()));
    }
    out
}

/// Rate every column of a frame id's payloads as a possible checksum.
///
/// Returned in column order (-1 first), rejections included, so a caller can
/// report what it decided about each byte rather than only what survived.
pub fn checksum_evidence(payloads: &[Vec<u8>]) -> (r: Vec<ChecksumEvidence>)
    requires
        forall|i: int| 0 <= i < payloads@.len() ==> (#[trigger] payloads@[i])@.len() <= i32::MAX,
    ensures
        ({
            let samples = crate::detect::detection_samples(crate::spec::frame_bytes(payloads@));
            &&& r@ == judgements(crate::detect::column_stats(samples), samples)
            &&& forall|i: int|
                0 <= i < r@.len() ==> is_consistent(
                    #[trigger] r@[i],
                    crate::detect::column_stats(samples)[i],
                )
        }),
{
    let sample = first_samples(payloads);
    proof {
        crate::detect::lemma_detection_samples_bounded(
            crate::spec::frame_bytes(payloads@),
            i32::MAX as int,
        );
    }
    let columns = analyse_columns(sample.as_slice());
    proof {
        crate::detect::lemma_column_stats(columns@, crate::spec::frame_bytes(sample@));
    }
    checksum_evidence_with_columns(sample.as_slice(), columns.as_slice())
}

// ---------------------------------------------------------------------------
// What to solve
// ---------------------------------------------------------------------------

/// A geometry worth solving, with how checksum-shaped its column looked.
#[derive(Debug, Clone, Copy, PartialEq, Eq, Structural)]
pub struct RankedTarget {
    pub target: SolveTarget,
    pub likeness: u8,
}

/// Whether a column survived with at least the given likeness.
pub open spec fn worth_solving(e: ChecksumEvidence, min_likeness: u8) -> bool {
    e.rejected is None && e.likeness >= min_likeness
}

/// A list in descending likeness with `e` in its place, after its equals.
pub open spec fn with_likely(ranked: Seq<ChecksumEvidence>, e: ChecksumEvidence) -> Seq<
    ChecksumEvidence,
>
    decreases ranked.len(),
{
    if ranked.len() == 0 {
        seq![e]
    } else if e.likeness > ranked.last().likeness {
        with_likely(ranked.drop_last(), e).push(ranked.last())
    } else {
        ranked.push(e)
    }
}

/// The columns worth solving, likeliest first; equals keep their order.
pub open spec fn likeliest(evidence: Seq<ChecksumEvidence>, min_likeness: u8) -> Seq<
    ChecksumEvidence,
>
    decreases evidence.len(),
{
    if evidence.len() == 0 {
        Seq::empty()
    } else {
        let before = likeliest(evidence.drop_last(), min_likeness);
        if worth_solving(evidence.last(), min_likeness) {
            with_likely(before, evidence.last())
        } else {
            before
        }
    }
}

/// Whether the column at `position` survived.
pub open spec fn survived(evidence: Seq<ChecksumEvidence>, position: int) -> bool {
    exists|i: int|
        0 <= i < evidence.len() && (#[trigger] evidence[i]).position == position
            && evidence[i].rejected is None
}

/// The targets of one geometry: every calculation range, in each byte order
/// that means something.
pub open spec fn targets_of(
    position: i32,
    byte_length: usize,
    columns: Seq<ChecksumColumnStat>,
    likeness: u8,
) -> Seq<RankedTarget> {
    crate::detect::flat(
        crate::detect::ranges_for(columns, position, Seq::empty()),
        |range: CalcRange|
            crate::detect::byte_orders(byte_length as int).map_values(
                |big_endian: bool|
                    RankedTarget {
                        target: SolveTarget {
                            position,
                            byte_length,
                            big_endian,
                            calc_start_byte: range.calc_start_byte,
                            calc_end_byte: range.calc_end_byte,
                        },
                        likeness,
                    },
            ),
    )
}

/// The targets one column gives: itself, and the pair it forms with the byte
/// before it where that survived too.
pub open spec fn targets_at(
    e: ChecksumEvidence,
    evidence: Seq<ChecksumEvidence>,
    columns: Seq<ChecksumColumnStat>,
) -> Seq<RankedTarget> {
    let single = targets_of(e.position, 1, columns, e.likeness);
    if survived(evidence, e.position - 1) {
        single + targets_of((e.position - 1) as i32, 2, columns, e.likeness)
    } else {
        single
    }
}

/// The targets worth solving, best first.
pub open spec fn targets_for(
    evidence: Seq<ChecksumEvidence>,
    columns: Seq<ChecksumColumnStat>,
    min_likeness: u8,
) -> Seq<RankedTarget> {
    crate::detect::flat(
        likeliest(evidence, min_likeness),
        |e: ChecksumEvidence| targets_at(e, evidence, columns),
    )
}

fn insert_likely(list: &mut Vec<ChecksumEvidence>, e: ChecksumEvidence)
    ensures
        final(list)@ == with_likely(old(list)@, e),
{
    let ghost before = list@;
    let mut at: usize = list.len();
    assert(before.take(before.len() as int) == before);
    assert(with_likely(before, e) == with_likely(before, e) + before.skip(before.len() as int));
    while at > 0 && e.likeness > list[at - 1].likeness
        invariant
            at <= list@.len(),
            list@ == before,
            with_likely(before, e) == with_likely(before.take(at as int), e) + before.skip(
                at as int,
            ),
        decreases at,
    {
        let ghost front = before.take(at as int);
        assert(front.drop_last() == before.take(at - 1));
        assert(with_likely(front, e) == with_likely(before.take(at - 1), e).push(front.last()));
        assert(with_likely(before.take(at - 1), e).push(front.last()) + before.skip(at as int)
            == with_likely(before.take(at - 1), e) + before.skip(at - 1));
        at = at - 1;
    }
    assert(with_likely(before.take(at as int), e) == before.take(at as int).push(e));
    list.insert(at, e);
    assert(list@ == before.take(at as int).push(e) + before.skip(at as int));
}

fn has_survived(evidence: &[ChecksumEvidence], position: i32) -> (r: bool)
    ensures
        r == survived(evidence@, position as int),
{
    for i in 0..evidence.len()
        invariant
            forall|j: int|
                0 <= j < i ==> !((#[trigger] evidence@[j]).position == position
                    && evidence@[j].rejected is None),
    {
        if evidence[i].position == position && evidence[i].is_candidate() {
            return true;
        }
    }
    false
}

fn add_targets(
    out: &mut Vec<RankedTarget>,
    position: i32,
    byte_length: usize,
    columns: &[ChecksumColumnStat],
    likeness: u8,
)
    requires
        columns@.len() <= i32::MAX,
    ensures
        final(out)@ == old(out)@ + targets_of(position, byte_length, columns@, likeness),
{
    let ghost start = out@;
    let ranges = calc_ranges(position, columns, &[]);
    assert(ranges@ == crate::detect::ranges_for(columns@, position, Seq::empty()));
    let ghost row = |range: CalcRange|
        crate::detect::byte_orders(byte_length as int).map_values(
            |big_endian: bool|
                RankedTarget {
                    target: SolveTarget {
                        position,
                        byte_length,
                        big_endian,
                        calc_start_byte: range.calc_start_byte,
                        calc_end_byte: range.calc_end_byte,
                    },
                    likeness,
                },
        );
    assert(out@ == start + crate::detect::flat(ranges@.take(0), row));
    for i in 0..ranges.len()
        invariant
            row == (|range: CalcRange|
                crate::detect::byte_orders(byte_length as int).map_values(
                    |big_endian: bool|
                        RankedTarget {
                            target: SolveTarget {
                                position,
                                byte_length,
                                big_endian,
                                calc_start_byte: range.calc_start_byte,
                                calc_end_byte: range.calc_end_byte,
                            },
                            likeness,
                        },
                )),
            out@ == start + crate::detect::flat(ranges@.take(i as int), row),
    {
        let ghost before = out@;
        let target = SolveTarget {
            position,
            byte_length,
            big_endian: false,
            calc_start_byte: ranges[i].calc_start_byte,
            calc_end_byte: ranges[i].calc_end_byte,
        };
        // Endianness only means something for a multi-byte checksum, the same
        // rule the sweep applies.
        if byte_length == 2 {
            out.push(RankedTarget { target, likeness });
        }
        out.push(RankedTarget { target: SolveTarget { big_endian: true, ..target }, likeness });
        assert(ranges@.take(i + 1).drop_last() == ranges@.take(i as int));
        assert(ranges@.take(i + 1).last() == ranges@[i as int]);
        assert(out@ == before + row(ranges@[i as int]));
        assert(before + row(ranges@[i as int]) == start + (crate::detect::flat(
            ranges@.take(i as int),
            row,
        ) + row(ranges@[i as int])));
    }
    assert(ranges@.take(ranges@.len() as int) == ranges@);
}

/// The geometries worth handing to the solver, best first, each with the
/// likeness of the column it was offered for.
pub fn ranked_targets(
    evidence: &[ChecksumEvidence],
    columns: &[ChecksumColumnStat],
    min_likeness: u8,
) -> (r: Vec<RankedTarget>)
    requires
        columns@.len() <= i32::MAX,
        forall|i: int| 0 <= i < evidence@.len() ==> (#[trigger] evidence@[i]).position > i32::MIN,
    ensures
        r@ == targets_for(evidence@, columns@, min_likeness),
{
    let mut ranked: Vec<ChecksumEvidence> = Vec::new();
    for i in 0..evidence.len()
        invariant
            ranked@ == likeliest(evidence@.take(i as int), min_likeness),
            forall|j: int|
                0 <= j < evidence@.len() ==> (#[trigger] evidence@[j]).position > i32::MIN,
            forall|j: int| 0 <= j < ranked@.len() ==> (#[trigger] ranked@[j]).position > i32::MIN,
    {
        assert(evidence@.take(i + 1).drop_last() == evidence@.take(i as int));
        let e = evidence[i];
        if e.is_candidate() && e.likeness >= min_likeness {
            proof {
                lemma_with_likely_positions(ranked@, e);
            }
            insert_likely(&mut ranked, e);
        }
    }
    assert(evidence@.take(evidence@.len() as int) == evidence@);
    let ghost row = |e: ChecksumEvidence| targets_at(e, evidence@, columns@);
    let mut out: Vec<RankedTarget> = Vec::new();
    for i in 0..ranked.len()
        invariant
            columns@.len() <= i32::MAX,
            row == (|e: ChecksumEvidence| targets_at(e, evidence@, columns@)),
            forall|j: int| 0 <= j < ranked@.len() ==> (#[trigger] ranked@[j]).position > i32::MIN,
            out@ == crate::detect::flat(ranked@.take(i as int), row),
    {
        let e = ranked[i];
        let ghost before = out@;
        assert(ranked@.take(i + 1).drop_last() == ranked@.take(i as int));
        assert(ranked@.take(i + 1).last() == e);
        add_targets(&mut out, e.position, 1, columns, e.likeness);
        // A 16-bit checksum occupies this column and the one before it, so the
        // pair is only worth trying when that neighbour also survived.
        let neighbour: i32 = e.position - 1;
        if has_survived(evidence, neighbour) {
            add_targets(&mut out, neighbour, 2, columns, e.likeness);
        }
        assert(out@ == before + row(e));
    }
    assert(ranked@.take(ranked@.len() as int) == ranked@);
    out
}

proof fn lemma_with_likely_positions(list: Seq<ChecksumEvidence>, e: ChecksumEvidence)
    requires
        e.position > i32::MIN,
        forall|j: int| 0 <= j < list.len() ==> (#[trigger] list[j]).position > i32::MIN,
    ensures
        forall|j: int|
            0 <= j < with_likely(list, e).len() ==> (#[trigger] with_likely(list, e)[j]).position
                > i32::MIN,
    decreases list.len(),
{
    if list.len() > 0 && e.likeness > list.last().likeness {
        lemma_with_likely_positions(list.drop_last(), e);
    }
}

/// The geometries worth handing to the solver, best first.
///
/// One target per surviving column, plus the two-byte target that column would
/// form with the byte before it — a 16-bit checksum shows up as two adjacent
/// responsive columns. Each is crossed with every range [`calc_ranges`] offers,
/// so the solver searches the same calculation ranges the sweep does.
pub fn solve_targets(
    evidence: &[ChecksumEvidence],
    columns: &[ColumnStats],
    min_likeness: u8,
) -> (r: Vec<SolveTarget>)
    requires
        columns@.len() <= i32::MAX,
        forall|i: int| 0 <= i < evidence@.len() ==> (#[trigger] evidence@[i]).position > i32::MIN,
    ensures
        r@ == targets_for(evidence@, crate::detect::stats_of(columns@), min_likeness).map_values(
            |t: RankedTarget| t.target,
        ),
{
    let stats = tail_columns(columns);
    let ranked = ranked_targets(evidence, stats.as_slice(), min_likeness);
    let mut out: Vec<SolveTarget> = Vec::new();
    for i in 0..ranked.len()
        invariant
            out@ == ranked@.take(i as int).map_values(|t: RankedTarget| t.target),
    {
        out.push(ranked[i].target);
        assert(ranked@.take(i + 1).map_values(|t: RankedTarget| t.target) == ranked@.take(
            i as int,
        ).map_values(|t: RankedTarget| t.target).push(ranked@[i as int].target));
    }
    assert(ranked@.take(ranked@.len() as int) == ranked@);
    out
}

// ---------------------------------------------------------------------------
// Laws
// ---------------------------------------------------------------------------

/// A payload without the byte `k` from its end.
pub open spec fn without(payload: Seq<u8>, k: int) -> Seq<u8> {
    payload.remove(payload.len() - k)
}

/// A column that is a function of the other bytes — any checksum over any part
/// of them — never changes alone, so it is never rejected as a counter.
pub proof fn law_a_function_of_the_other_bytes_is_never_a_counter(
    payloads: Seq<Seq<u8>>,
    column: ChecksumColumnStat,
    f: spec_fn(Seq<u8>) -> u8,
    distinct_payloads: int,
)
    requires
        column.position < 0,
        payloads.len() <= usize::MAX,
        forall|i: int|
            0 <= i < payloads.len() && crate::columns::reaches(
                payloads[i],
                -(column.position as int),
            ) ==> crate::columns::byte_at(#[trigger] payloads[i], -(column.position as int)) == f(
                without(payloads[i], -(column.position as int)),
            ),
    ensures
        judged(column, payloads, distinct_payloads).changed_alone == 0,
        judged(column, payloads, distinct_payloads).rejected != Some(
            Rejection::NotAFunctionOfTheOtherBytes,
        ),
{
    lemma_never_alone(payloads, -(column.position as int), f);
    lemma_moves_bounded(payloads, -(column.position as int));
}

proof fn lemma_never_alone(payloads: Seq<Seq<u8>>, k: int, f: spec_fn(Seq<u8>) -> u8)
    requires
        k > 0,
        forall|i: int|
            0 <= i < payloads.len() && crate::columns::reaches(payloads[i], k)
                ==> crate::columns::byte_at(#[trigger] payloads[i], k) == f(
                without(payloads[i], k),
            ),
    ensures
        moves(payloads, k, false, true) == 0,
    decreases payloads.len(),
{
    if payloads.len() > 1 {
        let front = payloads.drop_last();
        assert forall|i: int| 0 <= i < front.len() && crate::columns::reaches(
            front[i],
            k,
        ) implies crate::columns::byte_at(#[trigger] front[i], k) == f(without(front[i], k)) by {
            assert(front[i] == payloads[i]);
        }
        lemma_never_alone(front, k, f);
        let a = payloads[payloads.len() - 2];
        let b = payloads[payloads.len() - 1];
        if comparable(a, b, k) && !rest_moved(a, b, k) {
            let at = a.len() - k;
            assert forall|i: int| 0 <= i < a.len() - 1 implies without(a, k)[i] == without(
                b,
                k,
            )[i] by {
                let j = if i < at {
                    i
                } else {
                    i + 1
                };
                assert(a[j] == b[j]);
            }
            assert(without(a, k) == without(b, k));
        }
    }
}

/// Evidence is consistent, whatever the column, the payloads and the rating.
pub proof fn law_evidence_is_consistent(
    column: ChecksumColumnStat,
    payloads: Seq<Seq<u8>>,
    distinct_payloads: int,
    likeness: u8,
)
    requires
        payloads.len() <= usize::MAX,
    ensures
        is_consistent(judged(column, payloads, distinct_payloads), column),
        is_consistent(
            judged(column, payloads, distinct_payloads).with_likeness(likeness),
            column,
        ),
{
    lemma_moves_bounded(payloads, depth_of(column.position as int));
}

/// Where every column is rejected, the solver is offered nothing at all.
pub proof fn law_rejected_columns_offer_no_targets(
    evidence: Seq<ChecksumEvidence>,
    columns: Seq<ChecksumColumnStat>,
    min_likeness: u8,
)
    requires
        forall|i: int| 0 <= i < evidence.len() ==> (#[trigger] evidence[i]).rejected is Some,
    ensures
        targets_for(evidence, columns, min_likeness) == Seq::<RankedTarget>::empty(),
{
    lemma_none_likely(evidence, min_likeness);
}

proof fn lemma_none_likely(evidence: Seq<ChecksumEvidence>, min_likeness: u8)
    requires
        forall|i: int| 0 <= i < evidence.len() ==> (#[trigger] evidence[i]).rejected is Some,
    ensures
        likeliest(evidence, min_likeness).len() == 0,
    decreases evidence.len(),
{
    if evidence.len() > 0 {
        lemma_none_likely(evidence.drop_last(), min_likeness);
    }
}

/// A column stands if and only if it is no padding, showed at least eight transitions,
/// moved alone in at most one of fifty, followed the payload in at least nine of ten, and
/// showed at least a quarter of the values it could have reached.
pub proof fn law_checksum_like_columns_stand(
    column: ChecksumColumnStat,
    payloads: Seq<Seq<u8>>,
    distinct_payloads: int,
)
    requires
        0 <= distinct_payloads,
    ensures
        ({
            let e = judged(column, payloads, distinct_payloads);
            let k = depth_of(column.position as int);
            let together = moves(payloads, k, true, true);
            let changed = together + moves(payloads, k, true, false);
            let alone = moves(payloads, k, false, true);
            &&& e.position == column.position
            &&& e.rejected is None <==> {
                &&& column.sample_count < 8 || column.constant_value is None
                &&& changed + alone >= 8
                &&& 50 * alone <= changed + alone
                &&& 10 * together >= 9 * changed
                &&& 4 * column.distinct_values >= distinct_payloads || column.distinct_values >= 64
            }
        }),
{
}

proof fn lemma_likeliest_holds(evidence: Seq<ChecksumEvidence>, min_likeness: u8, i: int)
    requires
        0 <= i < evidence.len(),
        evidence[i].rejected is None,
        evidence[i].likeness >= min_likeness,
    ensures
        likeliest(evidence, min_likeness).contains(evidence[i]),
    decreases evidence.len(),
{
    let front = evidence.drop_last();
    let before = likeliest(front, min_likeness);
    if i < front.len() {
        assert(front[i] == evidence[i]);
        lemma_likeliest_holds(front, min_likeness, i);
    }
    if worth_solving(evidence.last(), min_likeness) {
        lemma_with_likely_holds(before, evidence.last(), evidence[i]);
    }
}

proof fn lemma_with_likely_holds(
    list: Seq<ChecksumEvidence>,
    e: ChecksumEvidence,
    x: ChecksumEvidence,
)
    requires
        x == e || list.contains(x),
    ensures
        with_likely(list, e).contains(x),
    decreases list.len(),
{
    let now = with_likely(list, e);
    if list.len() == 0 {
        assert(now[0] == x);
    } else if e.likeness > list.last().likeness {
        let rest = with_likely(list.drop_last(), e);
        if x != e && x == list.last() {
            assert(now[now.len() - 1] == x);
        } else {
            if x != e {
                let i = choose|i: int| 0 <= i < list.len() && list[i] == x;
                assert(list.drop_last()[i] == x);
            }
            lemma_with_likely_holds(list.drop_last(), e, x);
            let j = choose|j: int| 0 <= j < rest.len() && rest[j] == x;
            assert(now[j] == x);
        }
    } else if x == e {
        assert(now[now.len() - 1] == x);
    } else {
        let i = choose|i: int| 0 <= i < list.len() && list[i] == x;
        assert(now[i] == x);
    }
}

/// Every column that stands with enough likeness is offered to the solver on its own, and
/// as a pair with the byte before it where that stands too, in both byte orders; from
/// the first byte of the frame up to the checksum, with the column's likeness.
pub proof fn law_standing_columns_are_offered(
    evidence: Seq<ChecksumEvidence>,
    columns: Seq<ChecksumColumnStat>,
    min_likeness: u8,
    i: int,
    j: int,
    big_endian: bool,
)
    requires
        0 <= i < evidence.len(),
        evidence[i].rejected is None,
        evidence[i].likeness >= min_likeness,
        evidence[i].position > i32::MIN,
    ensures
        targets_for(evidence, columns, min_likeness).contains(
            RankedTarget {
                target: SolveTarget {
                    position: evidence[i].position,
                    byte_length: 1,
                    big_endian: true,
                    calc_start_byte: 0,
                    calc_end_byte: evidence[i].position,
                },
                likeness: evidence[i].likeness,
            },
        ),
        0 <= j < evidence.len() && evidence[j].rejected is None && evidence[j].position
            == evidence[i].position - 1 ==> targets_for(evidence, columns, min_likeness).contains(
            RankedTarget {
                target: SolveTarget {
                    position: evidence[j].position,
                    byte_length: 2,
                    big_endian,
                    calc_start_byte: 0,
                    calc_end_byte: evidence[j].position,
                },
                likeness: evidence[i].likeness,
            },
        ),
{
    let e = evidence[i];
    lemma_likeliest_holds(evidence, min_likeness, i);
    let f = |e: ChecksumEvidence| targets_at(e, evidence, columns);
    let single = lemma_target_offered(e.position, 1, columns, e.likeness, true);
    let singles = targets_of(e.position, 1, columns, e.likeness);
    let k = choose|k: int| 0 <= k < singles.len() && singles[k] == single;
    assert(targets_at(e, evidence, columns)[k] == single);
    assert(f(e).contains(single));
    crate::detect::lemma_flat_holds(likeliest(evidence, min_likeness), f, e, single);
    if 0 <= j < evidence.len() && evidence[j].rejected is None && evidence[j].position == e.position
        - 1 {
        assert(survived(evidence, e.position - 1));
        let pair = lemma_target_offered(evidence[j].position, 2, columns, e.likeness, big_endian);
        let pairs = targets_of((e.position - 1) as i32, 2, columns, e.likeness);
        let m = choose|m: int| 0 <= m < pairs.len() && pairs[m] == pair;
        assert(targets_at(e, evidence, columns)[singles.len() + m] == pair);
        assert(f(e).contains(pair));
        crate::detect::lemma_flat_holds(likeliest(evidence, min_likeness), f, e, pair);
    }
}

proof fn lemma_target_offered(
    position: i32,
    byte_length: usize,
    columns: Seq<ChecksumColumnStat>,
    likeness: u8,
    big_endian: bool,
) -> (t: RankedTarget)
    requires
        byte_length == 1 || byte_length == 2,
        byte_length == 1 ==> big_endian,
    ensures
        t == (RankedTarget {
            target: SolveTarget {
                position,
                byte_length,
                big_endian,
                calc_start_byte: 0,
                calc_end_byte: position,
            },
            likeness,
        }),
        targets_of(position, byte_length, columns, likeness).contains(t),
{
    let range = CalcRange { calc_start_byte: 0, calc_end_byte: position };
    let t = RankedTarget {
        target: SolveTarget {
            position,
            byte_length,
            big_endian,
            calc_start_byte: 0,
            calc_end_byte: position,
        },
        likeness,
    };
    let g = |end: i32|
        crate::detect::calc_starts(Seq::empty()).map_values(
            |start: i32| CalcRange { calc_start_byte: start, calc_end_byte: end },
        );
    assert(crate::detect::calc_ends(columns, position)[0] == position);
    assert(crate::detect::calc_ends(columns, position).contains(position));
    assert(crate::detect::calc_starts(Seq::empty())[0] == 0);
    assert(g(position)[0] == range);
    assert(g(position).contains(range));
    crate::detect::lemma_flat_holds(
        crate::detect::calc_ends(columns, position),
        g,
        position,
        range,
    );
    let ranges = crate::detect::ranges_for(columns, position, Seq::empty());
    assert(ranges.contains(range));
    let h = |range: CalcRange|
        crate::detect::byte_orders(byte_length as int).map_values(
            |big_endian: bool|
                RankedTarget {
                    target: SolveTarget {
                        position,
                        byte_length,
                        big_endian,
                        calc_start_byte: range.calc_start_byte,
                        calc_end_byte: range.calc_end_byte,
                    },
                    likeness,
                },
        );
    let o: int = if byte_length == 2 && big_endian {
        1
    } else {
        0
    };
    assert(crate::detect::byte_orders(byte_length as int)[o] == big_endian);
    assert(h(range)[o] == t);
    assert(h(range).contains(t));
    crate::detect::lemma_flat_holds(ranges, h, range, t);
    t
}

} // verus!
