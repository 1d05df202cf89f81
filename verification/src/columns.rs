//! Per-byte-column statistics over a set of payloads.
//!
//! Columns are indexed from the *end* of the payload, because that is where
//! checksums live and it is the only indexing that lines up across frames of
//! different lengths on one link.

use vstd::prelude::*;

verus! {

/// Below this many samples, one repeated value is not yet evidence of padding.
///
/// Deliberately private: both halves of the engine ask "is this column
/// constant". [`ColumnStats::padding_value`] is the only way to ask, and
/// exporting the threshold would only invite a caller to re-derive the check
/// around it.
const CONSTANT_COLUMN_MIN_SAMPLES: usize = 8;

/// What one byte column does across the sample.
#[derive(Debug, Clone, PartialEq)]
pub struct ColumnStats {
    /// End-relative index: -1 is the last byte.
    pub position: i32,
    pub distinct_values: usize,
    pub min: u8,
    pub max: u8,
    /// Set when the column holds one value across every sampled payload.
    pub constant_value: Option<u8>,
    /// Consecutive payload pairs in which this byte differed.
    pub changes: usize,
    /// Consecutive payload pairs the column took part in.
    pub transitions: usize,
    /// How often each value occurred, by value: what an entropy is taken over.
    pub histogram: Vec<usize>,
    pub sample_count: usize,
}

/// Whether a payload reaches the column `k` from its end.
pub open spec fn reaches(payload: Seq<u8>, k: int) -> bool {
    k <= payload.len()
}

/// The byte of a payload `k` from its end.
pub open spec fn byte_at(payload: Seq<u8>, k: int) -> u8 {
    payload[payload.len() - k]
}

/// The bytes a column holds, over the payloads that reach it, in order.
pub open spec fn column_bytes(payloads: Seq<Seq<u8>>, k: int) -> Seq<u8>
    decreases payloads.len(),
{
    if payloads.len() == 0 {
        Seq::empty()
    } else if reaches(payloads.last(), k) {
        column_bytes(payloads.drop_last(), k).push(byte_at(payloads.last(), k))
    } else {
        column_bytes(payloads.drop_last(), k)
    }
}

/// How often `value` occurs.
pub open spec fn occurrences(bytes: Seq<u8>, value: u8) -> int
    decreases bytes.len(),
{
    if bytes.len() == 0 {
        0
    } else {
        occurrences(bytes.drop_last(), value) + if bytes.last() == value {
            1int
        } else {
            0
        }
    }
}

/// How many values below `n` occur.
pub open spec fn values_below(bytes: Seq<u8>, n: int) -> int
    decreases n,
{
    if n <= 0 {
        0
    } else {
        values_below(bytes, n - 1) + if occurrences(bytes, (n - 1) as u8) > 0 {
            1int
        } else {
            0
        }
    }
}

/// How many different values occur.
pub open spec fn distinct_values(bytes: Seq<u8>) -> int {
    values_below(bytes, 256)
}

/// The one value a column holds, if it holds only one.
pub open spec fn sole_value(bytes: Seq<u8>) -> Option<u8> {
    if distinct_values(bytes) == 1 {
        Some(bytes[0])
    } else {
        None
    }
}

/// Consecutive payload pairs that both reach the column.
pub open spec fn pairs(payloads: Seq<Seq<u8>>, k: int) -> int
    decreases payloads.len(),
{
    if payloads.len() <= 1 {
        0
    } else {
        pairs(payloads.drop_last(), k) + if reaches(payloads[payloads.len() - 2], k) && reaches(
            payloads.last(),
            k,
        ) {
            1int
        } else {
            0
        }
    }
}

/// Those pairs in which the byte differs.
pub open spec fn changed_pairs(payloads: Seq<Seq<u8>>, k: int) -> int
    decreases payloads.len(),
{
    if payloads.len() <= 1 {
        0
    } else {
        let before = payloads[payloads.len() - 2];
        changed_pairs(payloads.drop_last(), k) + if reaches(before, k) && reaches(
            payloads.last(),
            k,
        ) && byte_at(before, k) != byte_at(payloads.last(), k) {
            1int
        } else {
            0
        }
    }
}

impl ColumnStats {
    /// Whether these are the statistics of the column `k` from the end.
    pub open spec fn describes(self, payloads: Seq<Seq<u8>>, k: int) -> bool {
        let bytes = column_bytes(payloads, k);
        &&& self.position == -k
        &&& self.sample_count == bytes.len()
        &&& self.distinct_values == distinct_values(bytes)
        &&& self.constant_value == sole_value(bytes)
        &&& bytes.contains(self.min)
        &&& bytes.contains(self.max)
        &&& forall|i: int| 0 <= i < bytes.len() ==> self.min <= #[trigger] bytes[i] <= self.max
        &&& self.transitions == pairs(payloads, k)
        &&& self.changes == changed_pairs(payloads, k)
        &&& self.histogram@.len() == 256
        &&& forall|v: int|
            0 <= v < 256 ==> #[trigger] self.histogram@[v] == occurrences(bytes, v as u8)
    }

    /// The most distinct values the column could have shown: bounded by the
    /// sample count as well as by the `span` a checksum of this width could
    /// reach — 256 for one byte, 65536 for two.
    pub fn distinct_ceiling(&self, span: usize) -> (r: usize)
        ensures
            r == if self.sample_count <= span {
                self.sample_count
            } else {
                span
            },
    {
        if self.sample_count <= span {
            self.sample_count
        } else {
            span
        }
    }

    /// Distinct values against the most this column could have shown, as a
    /// fraction; nothing out of nothing where it could have shown none.
    pub fn distinct_ratio_over(&self, span: usize) -> (r: (usize, usize))
        ensures
            r.1 == if self.sample_count <= span {
                self.sample_count
            } else {
                span
            },
            r.0 == if r.1 == 0 {
                0
            } else {
                self.distinct_values
            },
    {
        let ceiling: usize = self.distinct_ceiling(span);
        if ceiling == 0 {
            (0, 0)
        } else {
            (self.distinct_values, ceiling)
        }
    }

    /// Distinct values against the most a single byte column could have shown.
    pub fn distinct_ratio(&self) -> (r: (usize, usize))
        ensures
            r.1 == if self.sample_count <= 256 {
                self.sample_count
            } else {
                256
            },
            r.0 == if r.1 == 0 {
                0
            } else {
                self.distinct_values
            },
    {
        self.distinct_ratio_over(256)
    }

    /// The value the column is padded with, if enough samples agree.
    pub open spec fn padding(self) -> Option<u8> {
        if self.sample_count >= 8 {
            self.constant_value
        } else {
            None
        }
    }

    /// The value this column is padded with, if enough samples agree to call it
    /// padding rather than a coincidence.
    pub fn padding_value(&self) -> (r: Option<u8>)
        ensures
            r == self.padding(),
    {
        if self.sample_count >= CONSTANT_COLUMN_MIN_SAMPLES {
            self.constant_value
        } else {
            None
        }
    }
}

proof fn lemma_occurrences_positive(bytes: Seq<u8>, value: u8)
    ensures
        occurrences(bytes, value) >= 0,
        occurrences(bytes, value) <= bytes.len(),
        occurrences(bytes, value) > 0 <==> bytes.contains(value),
    decreases bytes.len(),
{
    if bytes.len() > 0 {
        let front = bytes.drop_last();
        lemma_occurrences_positive(front, value);
        if front.contains(value) {
            let k = choose|k: int| 0 <= k < front.len() && front[k] == value;
            assert(bytes[k] == value);
        }
        if bytes.last() == value {
            assert(bytes[bytes.len() - 1] == value);
        }
        if bytes.contains(value) {
            let k = choose|k: int| 0 <= k < bytes.len() && bytes[k] == value;
            if k < front.len() {
                assert(front[k] == value);
            }
        }
    }
}

proof fn lemma_values_below_bounds(bytes: Seq<u8>, n: int)
    requires
        0 <= n <= 256,
    ensures
        0 <= values_below(bytes, n) <= n,
        bytes.len() > 0 && n == 256 ==> values_below(bytes, n) >= 1,
    decreases n,
{
    if n > 0 {
        lemma_values_below_bounds(bytes, n - 1);
        if bytes.len() > 0 && n == 256 {
            lemma_values_below_hit(bytes, 256, bytes[0]);
        }
    }
}

proof fn lemma_values_below_hit(bytes: Seq<u8>, n: int, value: u8)
    requires
        value < n <= 256,
        bytes.contains(value),
    ensures
        values_below(bytes, n) >= 1,
    decreases n,
{
    lemma_occurrences_positive(bytes, value);
    if value == n - 1 {
        lemma_values_nonnegative(bytes, n - 1);
    } else {
        lemma_values_below_hit(bytes, n - 1, value);
    }
}

proof fn lemma_values_nonnegative(bytes: Seq<u8>, n: int)
    ensures
        values_below(bytes, n) >= 0,
    decreases n,
{
    if n > 0 {
        lemma_values_nonnegative(bytes, n - 1);
    }
}

pub proof fn lemma_column_reached(payloads: Seq<Seq<u8>>, k: int, i: int)
    requires
        0 <= i < payloads.len(),
        reaches(payloads[i], k),
    ensures
        column_bytes(payloads, k).len() > 0,
    decreases payloads.len(),
{
    if i < payloads.len() - 1 {
        lemma_column_reached(payloads.drop_last(), k, i);
    }
}

/// Profile the column `k` from the end.
pub(crate) fn profile(payloads: &[Vec<u8>], k: usize) -> (r: ColumnStats)
    requires
        1 <= k <= i32::MAX,
        column_bytes(crate::spec::frame_bytes(payloads@), k as int).len() > 0,
    ensures
        r.describes(crate::spec::frame_bytes(payloads@), k as int),
{
    let ghost all = crate::spec::frame_bytes(payloads@);
    let mut counts: Vec<usize> = Vec::new();
    for v in 0..256
        invariant
            counts@.len() == v,
            forall|j: int| 0 <= j < v ==> counts@[j] == 0,
    {
        counts.push(0);
    }
    let mut sample_count: usize = 0;
    let mut previous: Option<u8> = None;
    let mut changes: usize = 0;
    let mut transitions: usize = 0;
    let mut first: u8 = 0;
    for i in 0..payloads.len()
        invariant
            k >= 1,
            all == crate::spec::frame_bytes(payloads@),
            counts@.len() == 256,
            sample_count == column_bytes(all.take(i as int), k as int).len(),
            sample_count <= i,
            sample_count > 0 ==> first == column_bytes(all.take(i as int), k as int)[0],
            forall|v: int|
                0 <= v < 256 ==> #[trigger] counts@[v] == occurrences(
                    column_bytes(all.take(i as int), k as int),
                    v as u8,
                ),
            previous == (if i > 0 && reaches(all[i - 1], k as int) {
                Some(byte_at(all[i - 1], k as int))
            } else {
                None
            }),
            transitions == pairs(all.take(i as int), k as int),
            changes == changed_pairs(all.take(i as int), k as int),
            changes <= transitions <= i,
    {
        let payload = payloads[i].as_slice();
        let ghost bytes = column_bytes(all.take(i as int), k as int);
        let ghost next = all.take(i + 1);
        assert(next.drop_last() == all.take(i as int));
        assert(next.last() == payload@);
        assert(i > 0 ==> next[next.len() - 2] == all[i - 1]);
        let length: usize = payload.len();
        if length < k {
            // Too short for this column. It breaks the run of consecutive
            // samples as well as contributing nothing — otherwise two payloads
            // either side of a runt would read as adjacent.
            previous = None;
        } else {
            let byte: u8 = payload[length - k];
            proof {
                assert(column_bytes(next, k as int) == bytes.push(byte));
                assert(bytes.push(byte).drop_last() == bytes);
                lemma_occurrences_positive(bytes, byte);
            }
            let seen: usize = counts[byte as usize];
            counts.set(byte as usize, seen + 1);
            if sample_count == 0 {
                first = byte;
            }
            sample_count = sample_count + 1;
            if let Some(prev) = previous {
                transitions = transitions + 1;
                if prev != byte {
                    changes = changes + 1;
                }
            }
            previous = Some(byte);
        }
    }
    assert(all.take(all.len() as int) == all);
    let ghost bytes = column_bytes(all, k as int);
    let mut distinct: usize = 0;
    let mut min: u8 = 255;
    let mut max: u8 = 0;
    let mut met = false;
    for v in 0..256
        invariant
            counts@.len() == 256,
            forall|w: int|
                0 <= w < 256 ==> #[trigger] counts@[w] == occurrences(bytes, w as u8),
            distinct == values_below(bytes, v as int),
            distinct <= v,
            met ==> bytes.contains(min) && bytes.contains(max) && min <= max < v,
            met ==> forall|w: int|
                0 <= w < v && (#[trigger] occurrences(bytes, w as u8)) > 0 ==> min <= w <= max,
            !met ==> forall|w: int| 0 <= w < v ==> #[trigger] occurrences(bytes, w as u8) == 0,
    {
        proof {
            lemma_occurrences_positive(bytes, v as u8);
        }
        if counts[v] > 0 {
            distinct = distinct + 1;
            if !met {
                met = true;
                min = v as u8;
            }
            max = v as u8;
        }
    }
    proof {
        lemma_values_below_bounds(bytes, 256);
        lemma_occurrences_positive(bytes, bytes[0]);
        assert(occurrences(bytes, (bytes[0] as int) as u8) > 0);
        assert forall|i: int| 0 <= i < bytes.len() implies min <= #[trigger] bytes[i] <= max by {
            lemma_occurrences_positive(bytes, bytes[i]);
            assert(occurrences(bytes, (bytes[i] as int) as u8) > 0);
        }
    }
    ColumnStats {
        position: -(k as i32),
        distinct_values: distinct,
        min,
        max,
        constant_value: if distinct == 1 {
            Some(first)
        } else {
            None
        },
        changes,
        transitions,
        histogram: counts,
        sample_count,
    }
}

/// The length of the longest payload.
pub open spec fn longest(payloads: Seq<Seq<u8>>) -> int
    decreases payloads.len(),
{
    if payloads.len() == 0 {
        0
    } else {
        let before = longest(payloads.drop_last());
        if payloads.last().len() > before {
            payloads.last().len() as int
        } else {
            before
        }
    }
}

/// The length of the longest payload, and a payload that has it.
pub(crate) fn longest_length(payloads: &[Vec<u8>]) -> (r: usize)
    ensures
        r == longest(crate::spec::frame_bytes(payloads@)),
        r > 0 ==> exists|i: int| 0 <= i < payloads@.len() && (#[trigger] payloads@[i])@.len() == r,
        forall|i: int| 0 <= i < payloads@.len() ==> (#[trigger] payloads@[i])@.len() <= r,
{
    let ghost all = crate::spec::frame_bytes(payloads@);
    let mut depth: usize = 0;
    for i in 0..payloads.len()
        invariant
            all == crate::spec::frame_bytes(payloads@),
            depth == longest(all.take(i as int)),
            depth > 0 ==> exists|j: int|
                0 <= j < i && (#[trigger] payloads@[j])@.len() == depth,
            forall|j: int| 0 <= j < i ==> (#[trigger] payloads@[j])@.len() <= depth,
    {
        assert(all.take(i + 1).drop_last() == all.take(i as int));
        if payloads[i].len() > depth {
            depth = payloads[i].len();
        }
    }
    assert(all.take(all.len() as int) == all);
    depth
}

/// Profile every column of `payloads`, end-relative, out to the longest payload.
///
/// Payloads too short to reach a column simply do not contribute to it, the same
/// rule the checksum sweep uses — a one-byte acknowledgement sharing a link is
/// not evidence about byte -8.
pub fn analyse_columns(payloads: &[Vec<u8>]) -> (r: Vec<ColumnStats>)
    requires
        longest(crate::spec::frame_bytes(payloads@)) <= i32::MAX,
    ensures
        r@.len() == longest(crate::spec::frame_bytes(payloads@)),
        forall|k: int|
            0 <= k < r@.len() ==> (#[trigger] r@[k]).describes(
                crate::spec::frame_bytes(payloads@),
                k + 1,
            ),
{
    let ghost all = crate::spec::frame_bytes(payloads@);
    let depth: usize = longest_length(payloads);
    let mut out: Vec<ColumnStats> = Vec::new();
    for k in 0..depth
        invariant
            all == crate::spec::frame_bytes(payloads@),
            depth <= i32::MAX,
            depth > 0 ==> exists|i: int|
                0 <= i < payloads@.len() && (#[trigger] payloads@[i])@.len() == depth,
            out@.len() == k,
            forall|j: int| 0 <= j < k ==> (#[trigger] out@[j]).describes(all, j + 1),
    {
        proof {
            let i = choose|i: int|
                0 <= i < payloads@.len() && (#[trigger] payloads@[i])@.len() == depth;
            assert(all[i] == payloads@[i]@);
            lemma_column_reached(all, k + 1, i);
        }
        out.push(profile(payloads, k + 1));
    }
    out
}

/// A column that is padded never changes.
pub proof fn law_a_constant_column_never_changes(payloads: Seq<Seq<u8>>, k: int)
    requires
        k >= 1,
        sole_value(column_bytes(payloads, k)) is Some,
    ensures
        changed_pairs(payloads, k) == 0,
{
    let bytes = column_bytes(payloads, k);
    assert forall|i: int, j: int| 0 <= i < bytes.len() && 0 <= j < bytes.len() implies bytes[i]
        == bytes[j] by {
        if bytes[i] != bytes[j] {
            lemma_two_values(bytes, 256, bytes[i], bytes[j]);
        }
    }
    lemma_unchanging(payloads, k, bytes);
}

proof fn lemma_two_values(bytes: Seq<u8>, n: int, a: u8, b: u8)
    requires
        bytes.contains(a),
        bytes.contains(b),
        a != b,
        a < n,
        b < n,
        n <= 256,
    ensures
        values_below(bytes, n) >= 2,
    decreases n,
{
    lemma_occurrences_positive(bytes, a);
    lemma_occurrences_positive(bytes, b);
    if a == n - 1 {
        lemma_values_below_hit(bytes, n - 1, b);
    } else if b == n - 1 {
        lemma_values_below_hit(bytes, n - 1, a);
    } else {
        lemma_two_values(bytes, n - 1, a, b);
    }
}

proof fn lemma_unchanging(payloads: Seq<Seq<u8>>, k: int, bytes: Seq<u8>)
    requires
        k >= 1,
        forall|i: int, j: int|
            0 <= i < bytes.len() && 0 <= j < bytes.len() ==> bytes[i] == bytes[j],
        forall|i: int|
            0 <= i < column_bytes(payloads, k).len() ==> bytes.contains(
                #[trigger] column_bytes(payloads, k)[i],
            ),
    ensures
        changed_pairs(payloads, k) == 0,
    decreases payloads.len(),
{
    if payloads.len() > 1 {
        let front = payloads.drop_last();
        let own = column_bytes(payloads, k);
        let before = column_bytes(front, k);
        assert forall|i: int| 0 <= i < before.len() implies bytes.contains(
            #[trigger] before[i],
        ) by {
            assert(own[i] == before[i]);
        }
        lemma_unchanging(front, k, bytes);
        let p = payloads[payloads.len() - 2];
        let q = payloads.last();
        if reaches(p, k) && reaches(q, k) {
            assert(front.last() == p);
            assert(before.last() == byte_at(p, k));
            assert(own.last() == byte_at(q, k));
            assert(bytes.contains(own[own.len() - 1]));
            assert(bytes.contains(before[before.len() - 1]));
        }
    }
}

proof fn lemma_occurs(bytes: Seq<u8>, value: u8)
    ensures
        occurrences(bytes, value) >= 0,
        occurrences(bytes, value) > 0 <==> bytes.contains(value),
    decreases bytes.len(),
{
    if bytes.len() > 0 {
        let front = bytes.drop_last();
        lemma_occurs(front, value);
        if bytes.last() == value {
            assert(bytes[bytes.len() - 1] == value);
        } else if bytes.contains(value) {
            let i = choose|i: int| 0 <= i < bytes.len() && bytes[i] == value;
            assert(front[i] == value);
        } else if front.contains(value) {
            let i = choose|i: int| 0 <= i < front.len() && front[i] == value;
            assert(bytes[i] == value);
        }
    }
}

proof fn lemma_one_value(bytes: Seq<u8>, value: u8, n: int)
    requires
        bytes.len() > 0,
        forall|i: int| 0 <= i < bytes.len() ==> (#[trigger] bytes[i]) == value,
        0 <= n <= 256,
    ensures
        values_below(bytes, n) == if n > value {
            1int
        } else {
            0
        },
    decreases n,
{
    if n > 0 {
        lemma_one_value(bytes, value, n - 1);
        lemma_occurs(bytes, (n - 1) as u8);
        assert(bytes[0] == value);
        if bytes.contains((n - 1) as u8) {
            let i = choose|i: int| 0 <= i < bytes.len() && bytes[i] == (n - 1) as u8;
        }
    }
}

proof fn lemma_values_found(bytes: Seq<u8>, a: u8, b: u8, n: int)
    requires
        bytes.contains(a),
        bytes.contains(b),
        a < b,
        0 <= n <= 256,
    ensures
        values_below(bytes, n) >= 0,
        n > a ==> values_below(bytes, n) >= 1,
        n > b ==> values_below(bytes, n) >= 2,
    decreases n,
{
    if n > 0 {
        lemma_values_found(bytes, a, b, n - 1);
        lemma_occurs(bytes, (n - 1) as u8);
    }
}

/// A column holds one value alone if and only if it holds any and all are that one.
pub proof fn law_sole_values_are_shared(bytes: Seq<u8>, value: u8)
    ensures
        sole_value(bytes) == Some(value) <==> bytes.len() > 0 && forall|i: int|
            0 <= i < bytes.len() ==> (#[trigger] bytes[i]) == value,
{
    if bytes.len() > 0 {
        let first = bytes[0];
        if forall|i: int| 0 <= i < bytes.len() ==> (#[trigger] bytes[i]) == first {
            lemma_one_value(bytes, first, 256);
        } else {
            let i = choose|i: int| 0 <= i < bytes.len() && (#[trigger] bytes[i]) != first;
            assert(bytes.contains(first) && bytes.contains(bytes[i]));
            if bytes[i] < first {
                lemma_values_found(bytes, bytes[i], first, 256);
            } else {
                lemma_values_found(bytes, first, bytes[i], 256);
            }
            if forall|j: int| 0 <= j < bytes.len() ==> (#[trigger] bytes[j]) == value {
                assert(bytes[0] == value && bytes[i] == value);
            }
        }
    } else {
        lemma_no_value(bytes, 256);
    }
}

proof fn lemma_no_value(bytes: Seq<u8>, n: int)
    requires
        bytes.len() == 0,
    ensures
        values_below(bytes, n) == 0,
    decreases n,
{
    if n > 0 {
        lemma_no_value(bytes, n - 1);
    }
}

/// A column holds the byte, at its place from the end, of every payload that reaches it,
/// and no other.
pub proof fn law_columns_hold_the_bytes_at_their_place(payloads: Seq<Seq<u8>>, k: int, b: u8)
    ensures
        column_bytes(payloads, k).contains(b) <==> exists|i: int|
            0 <= i < payloads.len() && k <= (#[trigger] payloads[i]).len()
                && payloads[i][payloads[i].len() - k] == b,
        column_bytes(payloads, k).len() <= payloads.len(),
        (forall|i: int| 0 <= i < payloads.len() ==> k <= (#[trigger] payloads[i]).len())
            ==> column_bytes(payloads, k).len() == payloads.len(),
    decreases payloads.len(),
{
    let now = column_bytes(payloads, k);
    if payloads.len() > 0 {
        let front = payloads.drop_last();
        let before = column_bytes(front, k);
        law_columns_hold_the_bytes_at_their_place(front, k, b);
        assert(forall|i: int| 0 <= i < front.len() ==> front[i] == #[trigger] payloads[i]);
        if now.contains(b) {
            let j = choose|j: int| 0 <= j < now.len() && now[j] == b;
            if j < before.len() {
                assert(before[j] == b);
                let i = choose|i: int|
                    0 <= i < front.len() && k <= (#[trigger] front[i]).len()
                        && front[i][front[i].len() - k] == b;
                assert(payloads[i] == front[i]);
            } else {
                assert(payloads[payloads.len() - 1] == payloads.last());
            }
        }
        if exists|i: int|
            0 <= i < payloads.len() && k <= (#[trigger] payloads[i]).len()
                && payloads[i][payloads[i].len() - k] == b {
            let i = choose|i: int|
                0 <= i < payloads.len() && k <= (#[trigger] payloads[i]).len()
                    && payloads[i][payloads[i].len() - k] == b;
            if i < front.len() {
                assert(front[i] == payloads[i]);
                let j = choose|j: int| 0 <= j < before.len() && before[j] == b;
                assert(now[j] == b);
            } else {
                assert(now[now.len() - 1] == b);
            }
        }
        if forall|i: int| 0 <= i < payloads.len() ==> k <= (#[trigger] payloads[i]).len() {
            assert(k <= payloads[payloads.len() - 1].len());
        }
    }
}

} // verus!
