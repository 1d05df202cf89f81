//! Recovering checksums over many geometries at once, with the answers the data
//! cannot tell apart reported as one.

use crate::detect::CalcRange;
use crate::solve::{
    solve_additive, solve_crc, CrcSolveOptions, SolveTarget, SolvedChecksum,
};
use crate::specification::ChecksumSpecification;
use vstd::prelude::*;

verus! {

/// A recovered checksum, and the ranges that explain the data equally well.
#[derive(Debug, PartialEq, Eq)]
pub struct RecoveredChecksum {
    pub target: SolveTarget,
    pub specification: ChecksumSpecification,
    /// Samples the solution reproduces, which is all it was verified against.
    pub sample_count: usize,
    /// Samples excluded because their calculation range was a different length.
    pub excluded_count: usize,
    /// Narrower ranges that solve with the same family and another constant.
    pub equivalent_ranges: Vec<CalcRange>,
}

/// A recovered checksum, as a mathematical value.
#[verifier::ext_equal]
pub struct RecoveredView {
    pub target: SolveTarget,
    pub specification: crate::specification::SpecificationView,
    pub sample_count: int,
    pub excluded_count: int,
    pub equivalent_ranges: Seq<CalcRange>,
}

impl View for RecoveredChecksum {
    type V = RecoveredView;

    open spec fn view(&self) -> RecoveredView {
        RecoveredView {
            target: self.target,
            specification: self.specification@,
            sample_count: self.sample_count as int,
            excluded_count: self.excluded_count as int,
            equivalent_ranges: self.equivalent_ranges@,
        }
    }
}

/// What each of a list of recovered checksums is.
pub open spec fn recovered_views(recovered: Seq<RecoveredChecksum>) -> Seq<RecoveredView> {
    recovered.map_values(|r: RecoveredChecksum| r@)
}

/// What was solved, as a specification.
pub open spec fn specification_of(
    kind: crate::solve::KindView,
) -> crate::specification::SpecificationView {
    match kind {
        crate::solve::KindView::Additive {
            op,
            offset,
        } => crate::specification::SpecificationView::Additive { op, offset },
        crate::solve::KindView::Crc(crc) => crate::specification::SpecificationView::Crc(crc),
    }
}

/// A solution on its own, before any other range is folded into it.
pub open spec fn alone(solved: crate::solve::SolvedView) -> RecoveredView {
    RecoveredView {
        target: solved.target,
        specification: specification_of(solved.kind),
        sample_count: solved.sample_count,
        excluded_count: solved.excluded_count,
        equivalent_ranges: Seq::empty(),
    }
}

/// The solutions at one target: the additive one, or else the CRCs.
pub open spec fn solutions_at(
    frames: Seq<Seq<u8>>,
    target: SolveTarget,
    options: CrcSolveOptions,
) -> Seq<crate::solve::SolvedView> {
    match crate::solve::additive_solution(frames, target) {
        Some(solved) => seq![solved],
        None => crate::solve::crc_solutions(frames, target, options),
    }
}

/// Whether two specifications differ at most in the constants a constant prefix
/// of the range is absorbed into.
pub open spec fn same_family(
    a: crate::specification::SpecificationView,
    b: crate::specification::SpecificationView,
) -> bool {
    match (a, b) {
        (
            crate::specification::SpecificationView::Additive { op: x, .. },
            crate::specification::SpecificationView::Additive { op: y, .. },
        ) => x == y,
        (
            crate::specification::SpecificationView::Crc(x),
            crate::specification::SpecificationView::Crc(y),
        ) => x.width == y.width && x.polynomial == y.polynomial && x.reflect_in == y.reflect_in
            && x.reflect_out == y.reflect_out,
        (
            crate::specification::SpecificationView::Named { algorithm: x },
            crate::specification::SpecificationView::Named { algorithm: y },
        ) => x == y,
        _ => false,
    }
}

/// Whether two answers are one answer over different calculation ranges.
pub open spec fn same_answer(a: RecoveredView, b: RecoveredView) -> bool {
    &&& a.target.position == b.target.position
    &&& a.target.byte_length == b.target.byte_length
    &&& a.target.big_endian == b.target.big_endian
    &&& same_family(a.specification, b.specification)
}

/// The range a target calculates over.
pub open spec fn target_range(target: SolveTarget) -> CalcRange {
    CalcRange { calc_start_byte: target.calc_start_byte, calc_end_byte: target.calc_end_byte }
}

/// Two answers over different ranges as one: the range that starts first wins,
/// and the other is kept as an alternative.
pub open spec fn merged(kept: RecoveredView, c: RecoveredView) -> RecoveredView {
    if c.target.calc_start_byte < kept.target.calc_start_byte {
        RecoveredView {
            equivalent_ranges: seq![target_range(kept.target)] + kept.equivalent_ranges,
            ..c
        }
    } else {
        RecoveredView {
            equivalent_ranges: kept.equivalent_ranges.push(target_range(c.target)),
            ..kept
        }
    }
}

/// A list of answers with one more folded in.
pub open spec fn fold_answer(kept: Seq<RecoveredView>, c: RecoveredView) -> Seq<RecoveredView>
    decreases kept.len(),
{
    if kept.len() == 0 {
        seq![c]
    } else if same_answer(kept[0], c) {
        seq![merged(kept[0], c)] + kept.skip(1)
    } else {
        seq![kept[0]] + fold_answer(kept.skip(1), c)
    }
}

/// The answers of a list of solutions, folded.
pub open spec fn folded(solutions: Seq<crate::solve::SolvedView>) -> Seq<RecoveredView>
    decreases solutions.len(),
{
    if solutions.len() == 0 {
        Seq::empty()
    } else {
        fold_answer(folded(solutions.drop_last()), alone(solutions.last()))
    }
}

/// Everything the targets recover.
pub open spec fn recovered(
    frames: Seq<Seq<u8>>,
    targets: Seq<SolveTarget>,
    options: CrcSolveOptions,
) -> Seq<RecoveredView> {
    folded(
        crate::detect::flat(targets, |target: SolveTarget| solutions_at(frames, target, options)),
    )
}

fn is_same_family(a: &ChecksumSpecification, b: &ChecksumSpecification) -> (r: bool)
    ensures
        r == same_family(a@, b@),
{
    match (a, b) {
        (
            ChecksumSpecification::Additive { op: x, .. },
            ChecksumSpecification::Additive { op: y, .. },
        ) => *x == *y,
        (ChecksumSpecification::Crc(x), ChecksumSpecification::Crc(y)) => x.width == y.width
            && x.polynomial == y.polynomial && x.reflect_in == y.reflect_in && x.reflect_out
            == y.reflect_out,
        (
            ChecksumSpecification::Named { algorithm: x },
            ChecksumSpecification::Named { algorithm: y },
        ) => *x == *y,
        _ => false,
    }
}

fn is_same_answer(a: &RecoveredChecksum, b: &RecoveredChecksum) -> (r: bool)
    ensures
        r == same_answer(a@, b@),
{
    a.target.position == b.target.position && a.target.byte_length == b.target.byte_length
        && a.target.big_endian == b.target.big_endian && is_same_family(
        &a.specification,
        &b.specification,
    )
}

fn range_of_target(target: &SolveTarget) -> (r: CalcRange)
    ensures
        r == target_range(*target),
{
    CalcRange { calc_start_byte: target.calc_start_byte, calc_end_byte: target.calc_end_byte }
}

fn fold_recovered(kept: &mut Vec<RecoveredChecksum>, c: RecoveredChecksum)
    requires
        c@.equivalent_ranges.len() == 0,
    ensures
        recovered_views(final(kept)@) == fold_answer(recovered_views(old(kept)@), c@),
{
    let ghost before = recovered_views(kept@);
    let mut at: usize = 0;
    assert(before.skip(0) == before);
    assert(fold_answer(before, c@) == before.take(0) + fold_answer(before, c@));
    while at < kept.len() && !is_same_answer(&kept[at], &c)
        invariant
            at <= kept@.len(),
            kept@ == old(kept)@,
            before == recovered_views(kept@),
            fold_answer(before, c@) == before.take(at as int) + fold_answer(
                before.skip(at as int),
                c@,
            ),
        decreases kept@.len() - at,
    {
        let ghost rest = before.skip(at as int);
        assert(rest[0] == kept@[at as int]@);
        assert(rest.skip(1) == before.skip(at + 1));
        assert(before.take(at as int) + (seq![rest[0]] + fold_answer(rest.skip(1), c@))
            == before.take(at + 1) + fold_answer(before.skip(at + 1), c@));
        at = at + 1;
    }
    if at == kept.len() {
        assert(before.skip(at as int) == Seq::<RecoveredView>::empty());
        kept.push(c);
        assert(recovered_views(kept@) == before.take(at as int) + seq![c@]);
    } else {
        let ghost rest = before.skip(at as int);
        let ghost winner = kept@[at as int]@;
        let ghost new = c@;
        assert(rest[0] == winner);
        if c.target.calc_start_byte < kept[at].target.calc_start_byte {
            let mut other = c;
            std::mem::swap(&mut other, &mut kept[at]);
            let mut ranges: Vec<CalcRange> = Vec::new();
            ranges.push(range_of_target(&other.target));
            ranges.append(&mut other.equivalent_ranges);
            assert(ranges@ == seq![target_range(winner.target)] + winner.equivalent_ranges);
            kept[at].equivalent_ranges = ranges;
        } else {
            let range = range_of_target(&c.target);
            kept[at].equivalent_ranges.push(range);
        }
        assert(kept@[at as int]@ == merged(winner, new));
        assert(recovered_views(kept@) == before.take(at as int) + (seq![kept@[at as int]@]
            + rest.skip(1)));
    }
}

fn recovered_alone(solved: &SolvedChecksum) -> (r: RecoveredChecksum)
    ensures
        r@ == alone(solved@),
{
    RecoveredChecksum {
        target: solved.target,
        specification: ChecksumSpecification::from_kind(&solved.kind),
        sample_count: solved.sample_count,
        excluded_count: solved.excluded_count,
        equivalent_ranges: Vec::new(),
    }
}

/// The solutions at one target: the additive one, or else the CRCs.
fn solve_target(frames: &[Vec<u8>], target: &SolveTarget, options: &CrcSolveOptions) -> (r: Vec<
    SolvedChecksum,
>)
    ensures
        crate::solve::solved_views(r@) == solutions_at(
            crate::spec::frame_bytes(frames@),
            *target,
            *options,
        ),
{
    match solve_additive(frames, target) {
        Some(solved) => {
            let mut out: Vec<SolvedChecksum> = Vec::new();
            out.push(solved);
            assert(crate::solve::solved_views(out@) == seq![solved@]);
            out
        },
        None => solve_crc(frames, target, options),
    }
}

/// Solve every target, and fold the answers that differ only in calculation
/// range.
///
/// Bytes at the edge of a range that never change contribute a constant, so
/// every range that leaves them out solves too, with another offset. That is one
/// answer written several ways: the widest range is reported, and the others
/// stay with it as alternatives.
pub fn solve_all(frames: &[Vec<u8>], targets: &[SolveTarget], options: &CrcSolveOptions) -> (r: Vec<
    RecoveredChecksum,
>)
    ensures
        recovered_views(r@) == recovered(crate::spec::frame_bytes(frames@), targets@, *options),
{
    let ghost bytes = crate::spec::frame_bytes(frames@);
    let ghost row = |target: SolveTarget| solutions_at(bytes, target, *options);
    let mut kept: Vec<RecoveredChecksum> = Vec::new();
    assert(recovered_views(kept@) == Seq::<RecoveredView>::empty());
    for i in 0..targets.len()
        invariant
            bytes == crate::spec::frame_bytes(frames@),
            row == (|target: SolveTarget| solutions_at(bytes, target, *options)),
            recovered_views(kept@) == folded(crate::detect::flat(targets@.take(i as int), row)),
    {
        let solutions = solve_target(frames, &targets[i], options);
        let ghost new = crate::solve::solved_views(solutions@);
        let ghost before = crate::detect::flat(targets@.take(i as int), row);
        assert(targets@.take(i + 1).drop_last() == targets@.take(i as int));
        assert(targets@.take(i + 1).last() == targets@[i as int]);
        assert(before + new.take(0) == before);
        for j in 0..solutions.len()
            invariant
                new == crate::solve::solved_views(solutions@),
                recovered_views(kept@) == folded(before + new.take(j as int)),
        {
            let answer = recovered_alone(&solutions[j]);
            assert((before + new.take(j + 1)).drop_last() == before + new.take(j as int));
            assert((before + new.take(j + 1)).last() == solutions@[j as int]@);
            fold_recovered(&mut kept, answer);
        }
        assert(new.take(new.len() as int) == new);
        assert(crate::detect::flat(targets@.take(i + 1), row) == before + new);
    }
    assert(targets@.take(targets@.len() as int) == targets@);
    kept
}

/// Each answer is reported once: no two of them differ only in calculation
/// range.
pub proof fn law_answers_are_reported_once(solutions: Seq<crate::solve::SolvedView>, i: int, j: int)
    requires
        0 <= i < j < folded(solutions).len(),
    ensures
        !same_answer(folded(solutions)[i], folded(solutions)[j]),
    decreases solutions.len(),
{
    let kept = folded(solutions.drop_last());
    let c = alone(solutions.last());
    assert forall|a: int, b: int| 0 <= a < b < kept.len() implies !same_answer(
        #[trigger] kept[a],
        #[trigger] kept[b],
    ) by {
        law_answers_are_reported_once(solutions.drop_last(), a, b);
    }
    lemma_fold_keeps_answers(kept, c);
    let out = fold_answer(kept, c);
    assert(same_answer(out[i], kept[i]));
    if j < kept.len() {
        assert(same_answer(out[j], kept[j]));
        assert(!same_answer(kept[i], kept[j]));
    }
}

proof fn lemma_fold_keeps_answers(kept: Seq<RecoveredView>, c: RecoveredView)
    ensures
        fold_answer(kept, c).len() == kept.len() || fold_answer(kept, c).len() == kept.len() + 1,
        forall|i: int|
            0 <= i < kept.len() ==> same_answer(#[trigger] fold_answer(kept, c)[i], kept[i]),
        fold_answer(kept, c).len() == kept.len() + 1 ==> fold_answer(kept, c).last() == c,
        fold_answer(kept, c).len() == kept.len() + 1 ==> forall|i: int|
            0 <= i < kept.len() ==> !same_answer(#[trigger] kept[i], c),
    decreases kept.len(),
{
    if kept.len() > 0 {
        if same_answer(kept[0], c) {
            assert(same_answer(merged(kept[0], c), kept[0]));
        } else {
            let rest = fold_answer(kept.skip(1), c);
            lemma_fold_keeps_answers(kept.skip(1), c);
            assert forall|i: int| 0 <= i < kept.len() implies same_answer(
                #[trigger] fold_answer(kept, c)[i],
                kept[i],
            ) by {
                if i > 0 {
                    assert(fold_answer(kept, c)[i] == rest[i - 1]);
                    assert(kept.skip(1)[i - 1] == kept[i]);
                }
            }
            if rest.len() == kept.len() {
                assert forall|i: int| 0 <= i < kept.len() implies !same_answer(
                    #[trigger] kept[i],
                    c,
                ) by {
                    if i > 0 {
                        assert(kept.skip(1)[i - 1] == kept[i]);
                    }
                }
            }
        }
    }
}

/// Whether an answer stands for a solution: it has its geometry and its family, and has
/// or names its range.
pub open spec fn answers(r: RecoveredView, solved: crate::solve::SolvedView) -> bool {
    &&& r.target.position == solved.target.position
    &&& r.target.byte_length == solved.target.byte_length
    &&& r.target.big_endian == solved.target.big_endian
    &&& same_family(r.specification, specification_of(solved.kind))
    &&& target_range(r.target) == target_range(solved.target) || r.equivalent_ranges.contains(
        target_range(solved.target),
    )
}

proof fn lemma_merged_answers(
    kept: RecoveredView,
    c: RecoveredView,
    solved: crate::solve::SolvedView,
)
    requires
        same_answer(kept, c),
        answers(kept, solved) || c == alone(solved),
    ensures
        answers(merged(kept, c), solved),
{
    let now = merged(kept, c);
    let range = target_range(solved.target);
    if c.target.calc_start_byte < kept.target.calc_start_byte {
        let list = seq![target_range(kept.target)] + kept.equivalent_ranges;
        if answers(kept, solved) {
            if target_range(kept.target) == range {
                assert(list[0] == range);
            } else {
                let k = choose|k: int|
                    0 <= k < kept.equivalent_ranges.len() && kept.equivalent_ranges[k] == range;
                assert(list[k + 1] == range);
            }
            assert(now.equivalent_ranges.contains(range));
        }
    } else {
        let list = kept.equivalent_ranges.push(target_range(c.target));
        if answers(kept, solved) {
            if target_range(kept.target) != range {
                let k = choose|k: int|
                    0 <= k < kept.equivalent_ranges.len() && kept.equivalent_ranges[k] == range;
                assert(list[k] == range);
            }
        } else {
            assert(list[list.len() - 1] == range);
        }
    }
}

proof fn lemma_fold_answers(
    kept: Seq<RecoveredView>,
    c: RecoveredView,
    solved: crate::solve::SolvedView,
    i: int,
) -> (k: int)
    requires
        0 <= i < kept.len() && answers(kept[i], solved) || c == alone(solved),
    ensures
        0 <= k < fold_answer(kept, c).len(),
        answers(fold_answer(kept, c)[k], solved),
    decreases kept.len(),
{
    let now = fold_answer(kept, c);
    if kept.len() == 0 {
        0
    } else if same_answer(kept[0], c) {
        if 0 < i < kept.len() && answers(kept[i], solved) {
            assert(now[i] == kept[i]);
            i
        } else {
            lemma_merged_answers(kept[0], c, solved);
            0
        }
    } else if i == 0 && answers(kept[0], solved) {
        0
    } else {
        let rest = kept.skip(1);
        if 0 <= i < kept.len() && answers(kept[i], solved) {
            assert(rest[i - 1] == kept[i]);
        }
        let k = lemma_fold_answers(rest, c, solved, i - 1);
        assert(now[k + 1] == fold_answer(rest, c)[k]);
        k + 1
    }
}

/// Nothing that is solved is lost: each solution is reported, on its own or folded into
/// one of its geometry and family that has or names its range.
pub proof fn law_every_solution_is_reported(solutions: Seq<crate::solve::SolvedView>, i: int) -> (k:
    int)
    requires
        0 <= i < solutions.len(),
    ensures
        0 <= k < folded(solutions).len(),
        answers(folded(solutions)[k], solutions[i]),
    decreases solutions.len(),
{
    let front = solutions.drop_last();
    if i < front.len() {
        let m = law_every_solution_is_reported(front, i);
        lemma_fold_answers(folded(front), alone(solutions.last()), solutions[i], m)
    } else {
        lemma_fold_answers(folded(front), alone(solutions.last()), solutions[i], 0)
    }
}

} // verus!
