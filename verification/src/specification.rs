//! One complete checksum definition — a named algorithm, or the parameters of
//! one no name covers — and the ids catalogues store it under.

use crate::algorithms::{
    calculate_checksum_simple, crc16_parameterised, crc8_parameterised, sum8_checksum,
    xor_checksum, ChecksumAlgorithm, ALL_ALGORITHMS,
};
use crate::solve::{AdditiveOp, CrcAlternative, CrcParameters, SolvedKind};
use vstd::prelude::*;

verus! {

/// The id of a CRC that carries its own parameters.
pub const CRC_CUSTOM: &'static str = "crc_custom";

/// The id of the two's-complement sum.
pub const SUM8_NEGATED: &'static str = "sum8_negated";

/// What a checksum calculates, completely.
#[derive(Debug, PartialEq, Eq)]
pub enum ChecksumSpecification {
    /// One of the named algorithms.
    Named { algorithm: ChecksumAlgorithm },
    /// A sum or XOR with a constant.
    Additive { op: AdditiveOp, offset: u8 },
    /// A CRC with explicit parameters.
    Crc(CrcParameters),
}

/// A specification, as a mathematical value.
#[verifier::ext_equal]
pub enum SpecificationView {
    Named { algorithm: ChecksumAlgorithm },
    Additive { op: AdditiveOp, offset: u8 },
    Crc(crate::solve::CrcView),
}

impl View for ChecksumSpecification {
    type V = SpecificationView;

    open spec fn view(&self) -> SpecificationView {
        match self {
            ChecksumSpecification::Named { algorithm } => SpecificationView::Named {
                algorithm: *algorithm,
            },
            ChecksumSpecification::Additive { op, offset } => SpecificationView::Additive {
                op: *op,
                offset: *offset,
            },
            ChecksumSpecification::Crc(crc) => SpecificationView::Crc(crc@),
        }
    }
}

/// A copy of a recovered CRC.
pub fn copy_crc(crc: &CrcParameters) -> (r: CrcParameters)
    ensures
        r@ == crc@,
{
    let alternatives: Vec<CrcAlternative> = vstd::slice::slice_to_vec(crc.alternatives.as_slice());
    assert(alternatives@ == crc.alternatives@);
    CrcParameters {
        width: crc.width,
        polynomial: crc.polynomial,
        reflect_in: crc.reflect_in,
        reflect_out: crc.reflect_out,
        init: crc.init,
        xor_out: crc.xor_out,
        well_known: crc.well_known,
        alternatives,
    }
}

impl Clone for ChecksumSpecification {
    fn clone(&self) -> (r: Self)
        ensures
            r@ == self@,
    {
        match self {
            ChecksumSpecification::Named { algorithm } => ChecksumSpecification::Named {
                algorithm: *algorithm,
            },
            ChecksumSpecification::Additive { op, offset } => ChecksumSpecification::Additive {
                op: *op,
                offset: *offset,
            },
            ChecksumSpecification::Crc(crc) => ChecksumSpecification::Crc(copy_crc(crc)),
        }
    }
}

/// The parameters behind a named CRC.
pub struct NamedCrc {
    pub width: u8,
    pub polynomial: u16,
    pub init: u16,
    pub xor_out: u16,
    pub reflected: bool,
}

/// The parameters of the named CRCs; `None` for the sum and the XOR.
pub open spec fn named_crc(algorithm: ChecksumAlgorithm) -> Option<NamedCrc> {
    match algorithm {
        ChecksumAlgorithm::Xor | ChecksumAlgorithm::Sum8 => None,
        ChecksumAlgorithm::Crc8 => Some(
            NamedCrc { width: 8, polynomial: 0x07, init: 0, xor_out: 0, reflected: false },
        ),
        ChecksumAlgorithm::Crc8SaeJ1850 => Some(
            NamedCrc { width: 8, polynomial: 0x1D, init: 0xFF, xor_out: 0xFF, reflected: false },
        ),
        ChecksumAlgorithm::Crc8Autosar => Some(
            NamedCrc { width: 8, polynomial: 0x2F, init: 0xFF, xor_out: 0xFF, reflected: false },
        ),
        ChecksumAlgorithm::Crc8Maxim => Some(
            NamedCrc { width: 8, polynomial: 0x31, init: 0, xor_out: 0, reflected: true },
        ),
        ChecksumAlgorithm::Crc8Cdma2000 => Some(
            NamedCrc { width: 8, polynomial: 0x9B, init: 0xFF, xor_out: 0, reflected: false },
        ),
        ChecksumAlgorithm::Crc8DvbS2 => Some(
            NamedCrc { width: 8, polynomial: 0xD5, init: 0, xor_out: 0, reflected: false },
        ),
        ChecksumAlgorithm::Crc8Nissan => Some(
            NamedCrc { width: 8, polynomial: 0x85, init: 0, xor_out: 0, reflected: false },
        ),
        ChecksumAlgorithm::Crc16Modbus => Some(
            NamedCrc { width: 16, polynomial: 0x8005, init: 0xFFFF, xor_out: 0, reflected: true },
        ),
        ChecksumAlgorithm::Crc16Ccitt => Some(
            NamedCrc { width: 16, polynomial: 0x1021, init: 0xFFFF, xor_out: 0, reflected: false },
        ),
    }
}

/// The parameters of a named CRC are what the algorithm calculates with.
pub proof fn law_named_crcs_match_their_algorithm(algorithm: ChecksumAlgorithm, data: Seq<u8>)
    requires
        named_crc(algorithm) is Some,
    ensures
        ({
            let crc = named_crc(algorithm)->Some_0;
            crate::algorithms::checksum_of(algorithm, data) == crate::solve::crc_value(
                crc.width,
                crc.polynomial,
                crc.init,
                crc.xor_out,
                crc.reflected,
                crc.reflected,
                data,
            )
        }),
{
}

/// Whether a recovered CRC, or an alternative the data cannot tell from it, is
/// the given named one.
pub open spec fn crc_is_named(crc: crate::solve::CrcView, named: NamedCrc) -> bool {
    &&& crc.width == named.width
    &&& crc.polynomial == named.polynomial
    &&& crc.reflect_in == named.reflected
    &&& crc.reflect_out == named.reflected
    &&& (crc.init == named.init && crc.xor_out == named.xor_out) || crc.alternatives.contains(
        CrcAlternative { init: named.init, xor_out: named.xor_out },
    )
}

impl SpecificationView {
    /// The id a catalogue stores the specification under.
    pub open spec fn id(self) -> Seq<char> {
        match self {
            SpecificationView::Named { algorithm } => algorithm.id(),
            SpecificationView::Additive { op, .. } => match op {
                AdditiveOp::Xor => ChecksumAlgorithm::Xor.id(),
                AdditiveOp::Sum => ChecksumAlgorithm::Sum8.id(),
                AdditiveOp::NegatedSum => SUM8_NEGATED@,
            },
            SpecificationView::Crc(_) => CRC_CUSTOM@,
        }
    }

    /// What it calculates over `data`.
    pub open spec fn value(self, data: Seq<u8>) -> u16 {
        match self {
            SpecificationView::Named { algorithm } => crate::algorithms::checksum_of(
                algorithm,
                data,
            ),
            SpecificationView::Additive { op, offset } => crate::solve::additive_value(
                op,
                offset,
                data,
            ) as u16,
            SpecificationView::Crc(crc) => crate::solve::crc_value(
                crc.width,
                crc.polynomial,
                crc.init,
                crc.xor_out,
                crc.reflect_in,
                crc.reflect_out,
                data,
            ),
        }
    }

    /// Whether the fixed list of named algorithms already says the same.
    pub open spec fn is_swept(self) -> bool {
        match self {
            SpecificationView::Named { .. } => true,
            SpecificationView::Additive { op, offset } => offset == 0 && !(op is NegatedSum),
            SpecificationView::Crc(crc) => exists|algorithm: ChecksumAlgorithm| #[trigger]
                named_crc(algorithm) is Some && crc_is_named(crc, named_crc(algorithm)->Some_0),
        }
    }
}

fn named_parameters(algorithm: ChecksumAlgorithm) -> (r: Option<NamedCrc>)
    ensures
        r == named_crc(algorithm),
{
    match algorithm {
        ChecksumAlgorithm::Xor | ChecksumAlgorithm::Sum8 => None,
        ChecksumAlgorithm::Crc8 => Some(
            NamedCrc { width: 8, polynomial: 0x07, init: 0, xor_out: 0, reflected: false },
        ),
        ChecksumAlgorithm::Crc8SaeJ1850 => Some(
            NamedCrc { width: 8, polynomial: 0x1D, init: 0xFF, xor_out: 0xFF, reflected: false },
        ),
        ChecksumAlgorithm::Crc8Autosar => Some(
            NamedCrc { width: 8, polynomial: 0x2F, init: 0xFF, xor_out: 0xFF, reflected: false },
        ),
        ChecksumAlgorithm::Crc8Maxim => Some(
            NamedCrc { width: 8, polynomial: 0x31, init: 0, xor_out: 0, reflected: true },
        ),
        ChecksumAlgorithm::Crc8Cdma2000 => Some(
            NamedCrc { width: 8, polynomial: 0x9B, init: 0xFF, xor_out: 0, reflected: false },
        ),
        ChecksumAlgorithm::Crc8DvbS2 => Some(
            NamedCrc { width: 8, polynomial: 0xD5, init: 0, xor_out: 0, reflected: false },
        ),
        ChecksumAlgorithm::Crc8Nissan => Some(
            NamedCrc { width: 8, polynomial: 0x85, init: 0, xor_out: 0, reflected: false },
        ),
        ChecksumAlgorithm::Crc16Modbus => Some(
            NamedCrc { width: 16, polynomial: 0x8005, init: 0xFFFF, xor_out: 0, reflected: true },
        ),
        ChecksumAlgorithm::Crc16Ccitt => Some(
            NamedCrc { width: 16, polynomial: 0x1021, init: 0xFFFF, xor_out: 0, reflected: false },
        ),
    }
}

fn matches_named(crc: &CrcParameters, named: &NamedCrc) -> (r: bool)
    ensures
        r == crc_is_named(crc@, *named),
{
    if crc.width != named.width || crc.polynomial != named.polynomial || crc.reflect_in
        != named.reflected || crc.reflect_out != named.reflected {
        return false;
    }
    if crc.init == named.init && crc.xor_out == named.xor_out {
        return true;
    }
    let wanted = CrcAlternative { init: named.init, xor_out: named.xor_out };
    for i in 0..crc.alternatives.len()
        invariant
            crc.width == named.width,
            crc.polynomial == named.polynomial,
            crc.reflect_in == named.reflected,
            crc.reflect_out == named.reflected,
            wanted == (CrcAlternative { init: named.init, xor_out: named.xor_out }),
            forall|j: int| 0 <= j < i ==> crc.alternatives@[j] != wanted,
    {
        if crc.alternatives[i] == wanted {
            assert(crc.alternatives@[i as int] == wanted);
            return true;
        }
    }
    false
}

impl ChecksumSpecification {
    /// What a solve found, as a specification.
    pub fn from_kind(kind: &SolvedKind) -> (r: Self)
        ensures
            match kind {
                SolvedKind::Additive { op, offset } => r@ == (SpecificationView::Additive {
                    op: *op,
                    offset: *offset,
                }),
                SolvedKind::Crc(crc) => r@ == SpecificationView::Crc(crc@),
            },
    {
        match kind {
            SolvedKind::Additive { op, offset } => ChecksumSpecification::Additive {
                op: *op,
                offset: *offset,
            },
            SolvedKind::Crc(crc) => ChecksumSpecification::Crc(copy_crc(crc)),
        }
    }

    /// The id a catalogue stores this under. Not a faithful encoding on its own:
    /// a plain sum and a sum with an offset are both stored as `sum8` and differ
    /// only by a field the id cannot carry.
    pub fn algorithm_id(&self) -> (r: &'static str)
        ensures
            r@ == self@.id(),
    {
        match self {
            ChecksumSpecification::Named { algorithm } => algorithm.as_str(),
            ChecksumSpecification::Additive { op, .. } => match op {
                AdditiveOp::Xor => ChecksumAlgorithm::Xor.as_str(),
                AdditiveOp::Sum => ChecksumAlgorithm::Sum8.as_str(),
                AdditiveOp::NegatedSum => SUM8_NEGATED,
            },
            ChecksumSpecification::Crc(_) => CRC_CUSTOM,
        }
    }

    /// The checksum of `data`, zero-extended to 16 bits.
    pub fn calculate(&self, data: &[u8]) -> (r: u16)
        ensures
            r == self@.value(data@),
    {
        match self {
            ChecksumSpecification::Named { algorithm } => calculate_checksum_simple(
                *algorithm,
                data,
            ),
            ChecksumSpecification::Additive { op, offset } => match op {
                AdditiveOp::Xor => (xor_checksum(data) ^ *offset) as u16,
                AdditiveOp::Sum => {
                    let sum: u8 = sum8_checksum(data);
                    proof {
                        let whole = crate::algorithms::byte_sum(data@);
                        assert((sum + *offset) % 256 == (whole + *offset) % 256);
                    }
                    sum.wrapping_add(*offset) as u16
                },
                AdditiveOp::NegatedSum => {
                    let sum: u8 = sum8_checksum(data);
                    proof {
                        let whole = crate::algorithms::byte_sum(data@);
                        assert((*offset - sum) % 256 == (*offset - whole) % 256);
                    }
                    offset.wrapping_sub(sum) as u16
                },
            },
            ChecksumSpecification::Crc(crc) => if crc.width == 8 {
                crc8_parameterised(
                    data,
                    (crc.polynomial % 256) as u8,
                    (crc.init % 256) as u8,
                    (crc.xor_out % 256) as u8,
                    crc.reflect_in,
                ) as u16
            } else {
                crc16_parameterised(
                    data,
                    crc.polynomial,
                    crc.init,
                    crc.xor_out,
                    crc.reflect_in,
                    crc.reflect_out,
                )
            },
        }
    }

    /// Whether the sweep over the named algorithms would report the same answer.
    pub fn is_expressible_by_sweep(&self) -> (r: bool)
        ensures
            r == self@.is_swept(),
    {
        match self {
            ChecksumSpecification::Named { .. } => true,
            ChecksumSpecification::Additive { op, offset } => *offset == 0 && *op
                != AdditiveOp::NegatedSum,
            ChecksumSpecification::Crc(crc) => {
                let all = ALL_ALGORITHMS;
                for i in 0..all.len()
                    invariant
                        all@ == ALL_ALGORITHMS@,
                        self@ == SpecificationView::Crc(crc@),
                        forall|j: int|
                            0 <= j < i ==> !((#[trigger] named_crc(all@[j])) is Some
                                && crc_is_named(crc@, named_crc(all@[j])->Some_0)),
                {
                    if let Some(named) = named_parameters(all[i]) {
                        if matches_named(crc, &named) {
                            return true;
                        }
                    }
                }
                proof {
                    assert forall|algorithm: ChecksumAlgorithm|
                        !((#[trigger] named_crc(algorithm)) is Some && crc_is_named(
                            crc@,
                            named_crc(algorithm)->Some_0,
                        )) by {
                        let k = crate::algorithms::lemma_all_algorithms_listed(algorithm);
                        assert(!(named_crc(all@[k]) is Some && crc_is_named(
                            crc@,
                            named_crc(all@[k])->Some_0,
                        )));
                    }
                }
                false
            },
        }
    }
}

/// The ids a catalogue may declare: every named algorithm in preference order,
/// then the two that carry their own parameters.
pub open spec fn declared_ids() -> Seq<Seq<char>> {
    ALL_ALGORITHMS@.map_values(|a: ChecksumAlgorithm| a.id()).push(CRC_CUSTOM@).push(SUM8_NEGATED@)
}

/// The texts of a list of static strings.
pub open spec fn str_views(list: Seq<&'static str>) -> Seq<Seq<char>> {
    list.map_values(|s: &'static str| s@)
}

/// Every algorithm id a catalogue may declare.
pub fn all_algorithm_ids() -> (r: Vec<&'static str>)
    ensures
        str_views(r@) == declared_ids(),
{
    let all = ALL_ALGORITHMS;
    let ghost named = ALL_ALGORITHMS@.map_values(|a: ChecksumAlgorithm| a.id());
    let mut out: Vec<&'static str> = Vec::new();
    for i in 0..all.len()
        invariant
            all@ == ALL_ALGORITHMS@,
            named == ALL_ALGORITHMS@.map_values(|a: ChecksumAlgorithm| a.id()),
            str_views(out@) == named.take(i as int),
    {
        let ghost before = str_views(out@);
        let id = all[i].as_str();
        out.push(id);
        assert(str_views(out@) == before.push(id@));
        assert(named.take(i as int).push(named[i as int]) == named.take(i + 1));
    }
    assert(named.take(named.len() as int) == named);
    let ghost before = str_views(out@);
    out.push(CRC_CUSTOM);
    assert(str_views(out@) == before.push(CRC_CUSTOM@));
    let ghost before = str_views(out@);
    out.push(SUM8_NEGATED);
    assert(str_views(out@) == before.push(SUM8_NEGATED@));
    out
}

} // verus!
