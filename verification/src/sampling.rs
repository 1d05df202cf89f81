//! Choosing which frames to solve against.
//!
//! A periodic link repeats itself. Taking the first N frames off one CAN id can
//! hand the solver a hundred copies of the same payload — enough samples by
//! count, and almost no evidence. What a solver actually needs is payloads that
//! *differ*, because every candidate it tests is killed by a disagreement and
//! nothing else.

use vstd::prelude::*;

verus! {

/// How many deduplicated payloads the farthest-point pass will consider, before
/// the pool is strided down to bound it at `MAX_POOL × limit` distance
/// computations.
///
/// Absolute, not a multiple of the limit. Striding is a blunt instrument — it
/// runs before the greedy pass and so can discard the outlier that would have
/// been the most informative pick — so it must not engage on a pool the greedy
/// pass could simply have handled.
pub const MAX_POOL: usize = 2048;

/// The number of bits set in a byte.
pub open spec fn ones(x: u8) -> int
    decreases x,
{
    if x == 0 {
        0
    } else {
        (x % 2) + ones(x / 2)
    }
}

/// The number of differing bits over the first `n` bytes of both.
pub open spec fn differing_bits(a: Seq<u8>, b: Seq<u8>, n: int) -> int
    decreases n,
{
    if n <= 0 {
        0
    } else {
        differing_bits(a, b, n - 1) + ones(a[n - 1] ^ b[n - 1])
    }
}

/// The number of differing bits between two payloads; a byte that only one of
/// them has counts as eight.
pub open spec fn distance(a: Seq<u8>, b: Seq<u8>) -> int {
    if a.len() <= b.len() {
        differing_bits(a, b, a.len() as int) + 8 * (b.len() - a.len())
    } else {
        differing_bits(a, b, b.len() as int) + 8 * (a.len() - b.len())
    }
}

fn count_ones(x: u8) -> (r: u128)
    ensures
        r == ones(x),
        r <= 8,
{
    let mut left: u8 = x;
    let mut count: u128 = 0;
    let mut steps: u8 = 0;
    assert(x < 256);
    while left != 0
        invariant
            count + ones(left) == ones(x),
            count <= steps <= 8,
            steps == 0 ==> left < 256,
            steps == 1 ==> left < 128,
            steps == 2 ==> left < 64,
            steps == 3 ==> left < 32,
            steps == 4 ==> left < 16,
            steps == 5 ==> left < 8,
            steps == 6 ==> left < 4,
            steps == 7 ==> left < 2,
            steps == 8 ==> left < 1,
        decreases left,
    {
        count = count + (left % 2) as u128;
        left = left / 2;
        steps = steps + 1;
    }
    count
}

/// Number of differing bits between two payloads. Bytes past the shorter one
/// count as fully different, so a length difference reads as the large
/// distinction it is.
pub fn hamming_distance(a: &[u8], b: &[u8]) -> (r: u128)
    ensures
        r == distance(a@, b@),
{
    let shared: usize = if a.len() <= b.len() {
        a.len()
    } else {
        b.len()
    };
    let mut common: u128 = 0;
    for i in 0..shared
        invariant
            shared <= a@.len(),
            shared <= b@.len(),
            common == differing_bits(a@, b@, i as int),
            common <= 8 * i,
    {
        common = common + count_ones(a[i] ^ b[i]);
    }
    let past: usize = if a.len() <= b.len() {
        b.len() - a.len()
    } else {
        a.len() - b.len()
    };
    common + past as u128 * 8
}

/// The payloads that are not empty, in order.
pub open spec fn non_empty(frames: Seq<Seq<u8>>) -> Seq<Seq<u8>>
    decreases frames.len(),
{
    if frames.len() == 0 {
        Seq::empty()
    } else if frames.last().len() > 0 {
        non_empty(frames.drop_last()).push(frames.last())
    } else {
        non_empty(frames.drop_last())
    }
}

/// The step that spreads at most `limit` samples over `n` payloads.
pub open spec fn stride_for(n: int, limit: int) -> int {
    if n <= limit {
        1
    } else {
        (n + limit - 1) / limit
    }
}

/// Every `stride_for`-th of the payloads that are not empty, from the first.
pub open spec fn strided(frames: Seq<Seq<u8>>, limit: int) -> Seq<Seq<u8>> {
    if limit == 0 {
        Seq::empty()
    } else {
        let usable = non_empty(frames);
        let stride = stride_for(usable.len() as int, limit);
        Seq::new(((usable.len() + stride - 1) / stride) as nat, |i: int| usable[i * stride])
    }
}

proof fn lemma_non_empty_members(frames: Seq<Seq<u8>>)
    ensures
        non_empty(frames).len() <= frames.len(),
        forall|i: int|
            0 <= i < non_empty(frames).len() ==> {
                &&& (#[trigger] non_empty(frames)[i]).len() > 0
                &&& frames.contains(non_empty(frames)[i])
            },
    decreases frames.len(),
{
    if frames.len() > 0 {
        lemma_non_empty_members(frames.drop_last());
        assert forall|i: int| 0 <= i < non_empty(frames).len() implies {
            &&& (#[trigger] non_empty(frames)[i]).len() > 0
            &&& frames.contains(non_empty(frames)[i])
        } by {
            let before = non_empty(frames.drop_last());
            if i < before.len() {
                assert(frames.drop_last().contains(before[i]));
                let k = choose|k: int|
                    0 <= k < frames.drop_last().len() && frames.drop_last()[k] == before[i];
                assert(frames[k] == before[i]);
            } else {
                assert(frames[frames.len() - 1] == frames.last());
            }
        }
    }
}

/// A strided sample never exceeds its limit, starts with the first usable
/// payload, and holds only payloads of the set.
pub proof fn law_strided_samples_stay_within_the_limit(frames: Seq<Seq<u8>>, limit: int)
    requires
        limit >= 0,
    ensures
        strided(frames, limit).len() <= limit,
        limit > 0 && non_empty(frames).len() > 0 ==> strided(frames, limit).len() > 0 && strided(
            frames,
            limit,
        )[0] == non_empty(frames)[0],
        forall|i: int|
            0 <= i < strided(frames, limit).len() ==> frames.contains(
                #[trigger] strided(frames, limit)[i],
            ),
{
    lemma_non_empty_members(frames);
    if limit > 0 {
        let n = non_empty(frames).len() as int;
        let stride = stride_for(n, limit);
        lemma_stride_covers(n, limit);
        assert(0 * stride == 0) by (nonlinear_arith);
        assert forall|i: int| 0 <= i < strided(frames, limit).len() implies frames.contains(
            #[trigger] strided(frames, limit)[i],
        ) by {
            lemma_stride_index(n, stride, i);
            assert(non_empty(frames)[i * stride].len() > 0);
        }
        if n > 0 {
            assert((n + stride - 1) / stride >= 1) by (nonlinear_arith)
                requires
                    n > 0,
                    stride >= 1,
            ;
        }
    }
}

proof fn lemma_stride_covers(n: int, limit: int)
    requires
        n >= 0,
        limit > 0,
    ensures
        stride_for(n, limit) >= 1,
        (n + stride_for(n, limit) - 1) / stride_for(n, limit) <= limit,
{
    let stride = stride_for(n, limit);
    if n > limit {
        assert(stride >= 1 && stride * limit >= n) by (nonlinear_arith)
            requires
                n > limit > 0,
                stride == (n + limit - 1) / limit,
        ;
        assert((n + stride - 1) / stride <= limit) by (nonlinear_arith)
            requires
                stride >= 1,
                stride * limit >= n,
        ;
    }
}

proof fn lemma_stride_index(n: int, stride: int, i: int)
    requires
        n >= 0,
        stride >= 1,
        0 <= i < (n + stride - 1) / stride,
    ensures
        0 <= i * stride < n,
{
    assert(0 <= i * stride < n) by (nonlinear_arith)
        requires
            n >= 0,
            stride >= 1,
            0 <= i < (n + stride - 1) / stride,
    ;
}

/// Up to `limit` payloads spread across the whole set, repeats included.
///
/// The counterpart to [`diverse_samples`], and the two exist because the halves
/// of the engine want opposite things. A sweep measures a *rate* and needs the
/// population — including its repeats, because "this column never moved in 400
/// frames" is exactly the claim the constant-column rejection rests on, and
/// deduplicating first would leave it one sample to judge on. A solver is killed
/// only by disagreements, so repeats are dead weight to it.
///
/// Strided rather than truncated, which is the whole point: taking a prefix
/// confines the answer to the first seconds of a capture.
pub fn strided_samples(frames: &[Vec<u8>], limit: usize) -> (r: Vec<Vec<u8>>)
    ensures
        crate::spec::frame_bytes(r@) == strided(
            crate::spec::frame_bytes(frames@),
            limit as int,
        ),
{
    let ghost all = crate::spec::frame_bytes(frames@);
    let mut out: Vec<Vec<u8>> = Vec::new();
    if limit == 0 {
        assert(crate::spec::frame_bytes(out@) == Seq::<Seq<u8>>::empty());
        return out;
    }
    let mut usable: Vec<usize> = Vec::new();
    for i in 0..frames.len()
        invariant
            all == crate::spec::frame_bytes(frames@),
            usable@.len() == non_empty(all.take(i as int)).len(),
            usable@.len() <= i,
            forall|j: int|
                0 <= j < usable@.len() ==> {
                    &&& (#[trigger] usable@[j]) < frames@.len()
                    &&& all[usable@[j] as int] == non_empty(all.take(i as int))[j]
                },
    {
        assert(all.take(i + 1).drop_last() == all.take(i as int));
        if frames[i].len() > 0 {
            usable.push(i);
        }
    }
    assert(all.take(all.len() as int) == all);
    let n: usize = usable.len();
    let stride: usize = if n <= limit {
        1
    } else {
        // One more than the whole steps, unless they come out even.
        let whole: usize = n / limit;
        if n % limit == 0 {
            whole
        } else {
            assert(limit >= 2);
            assert(whole < n) by (nonlinear_arith)
                requires
                    limit >= 2,
                    n > 0,
                    whole == n / limit,
            ;
            whole + 1
        }
    };
    proof {
        lemma_stride_covers(n as int, limit as int);
        if n > limit {
            assert(stride == (n + limit - 1) / limit as int) by (nonlinear_arith)
                requires
                    n > limit > 0,
                    stride == (if n % limit == 0 {
                        n as int / limit as int
                    } else {
                        n as int / limit as int + 1
                    }),
            ;
        }
    }
    let mut at: usize = 0;
    let ghost mut taken: int = 0;
    assert(n == 0 ==> (n + stride - 1) / stride as int == 0 && 0 * stride == 0) by (nonlinear_arith)
        requires
            stride >= 1,
    ;
    assert((n + stride - 1) / stride as int >= 0) by (nonlinear_arith)
        requires
            stride >= 1,
            n >= 0,
    ;
    while at < n
        invariant
            all == crate::spec::frame_bytes(frames@),
            n == usable@.len(),
            stride >= 1,
            limit > 0,
            stride == stride_for(n as int, limit as int),
            n == non_empty(all).len(),
            forall|j: int|
                0 <= j < n ==> {
                    &&& (#[trigger] usable@[j]) < frames@.len()
                    &&& all[usable@[j] as int] == non_empty(all)[j]
                },
            out@.len() == taken,
            at <= n,
            at == taken * stride || (at == n && n <= taken * stride),
            0 <= taken <= (n + stride - 1) / stride as int,
            at == n ==> taken == (n + stride - 1) / stride as int,
            forall|j: int| 0 <= j < taken ==> (#[trigger] out@[j])@ == non_empty(all)[j * stride],
        decreases n - at,
    {
        out.push(vstd::slice::slice_to_vec(frames[usable[at]].as_slice()));
        proof {
            let before = taken;
            taken = taken + 1;
            assert((before + 1) * stride == before * stride + stride) by (nonlinear_arith);
            assert(before + 1 <= (n + stride - 1) / stride as int) by (nonlinear_arith)
                requires
                    stride >= 1,
                    before * stride < n,
                    before >= 0,
            ;
            if n <= (before + 1) * stride {
                assert(before + 1 == (n + stride - 1) / stride as int) by (nonlinear_arith)
                    requires
                        stride >= 1,
                        before * stride < n,
                        n <= (before + 1) * stride,
                        before >= 0,
                ;
            }
        }
        if n - at <= stride {
            at = n;
        } else {
            at = at + stride;
        }
    }
    let ghost expected = strided(all, limit as int);
    assert(out@.len() == expected.len());
    assert forall|j: int| 0 <= j < expected.len() implies crate::spec::frame_bytes(out@)[j]
        == expected[j] by {
        assert(out@[j]@ == non_empty(all)[j * stride]);
    }
    assert(crate::spec::frame_bytes(out@) == expected);
    out
}

/// One of each distinct payload that is not empty, in first-seen order.
pub open spec fn distinct(frames: Seq<Seq<u8>>) -> Seq<Seq<u8>>
    decreases frames.len(),
{
    if frames.len() == 0 {
        Seq::empty()
    } else {
        let before = distinct(frames.drop_last());
        if frames.last().len() > 0 && !before.contains(frames.last()) {
            before.push(frames.last())
        } else {
            before
        }
    }
}

/// Whether two payloads are the same.
pub fn same_bytes(a: &[u8], b: &[u8]) -> (r: bool)
    ensures
        r == (a@ == b@),
{
    if a.len() != b.len() {
        return false;
    }
    for i in 0..a.len()
        invariant
            a@.len() == b@.len(),
            forall|j: int| 0 <= j < i ==> a@[j] == b@[j],
    {
        if a[i] != b[i] {
            return false;
        }
    }
    assert(a@ == b@);
    true
}

/// Keep one of each distinct payload, in first-seen order.
pub fn deduplicate(frames: &[Vec<u8>]) -> (r: Vec<Vec<u8>>)
    ensures
        crate::spec::frame_bytes(r@) == distinct(crate::spec::frame_bytes(frames@)),
{
    let ghost all = crate::spec::frame_bytes(frames@);
    let mut out: Vec<Vec<u8>> = Vec::new();
    for i in 0..frames.len()
        invariant
            all == crate::spec::frame_bytes(frames@),
            crate::spec::frame_bytes(out@) == distinct(all.take(i as int)),
    {
        assert(all.take(i + 1).drop_last() == all.take(i as int));
        let ghost kept = crate::spec::frame_bytes(out@);
        let frame = frames[i].as_slice();
        let mut seen = false;
        let mut k: usize = 0;
        while k < out.len() && !seen
            invariant
                k <= out@.len(),
                kept == crate::spec::frame_bytes(out@),
                seen ==> kept.contains(frame@),
                !seen ==> forall|j: int| 0 <= j < k ==> kept[j] != frame@,
            decreases out@.len() - k,
        {
            if same_bytes(out[k].as_slice(), frame) {
                seen = true;
                assert(kept[k as int] == frame@);
            }
            k = k + 1;
        }
        if frame.len() > 0 && !seen {
            out.push(vstd::slice::slice_to_vec(frame));
            assert(crate::spec::frame_bytes(out@) == kept.push(frame@));
        }
    }
    assert(all.take(all.len() as int) == all);
    out
}

proof fn lemma_distinct_members(frames: Seq<Seq<u8>>)
    ensures
        distinct(frames).len() <= frames.len(),
        forall|f: Seq<u8>|
            #[trigger] distinct(frames).contains(f) <==> f.len() > 0 && frames.contains(f),
    decreases frames.len(),
{
    if frames.len() > 0 {
        lemma_distinct_members(frames.drop_last());
        let before = distinct(frames.drop_last());
        let last = frames.last();
        assert forall|f: Seq<u8>| #[trigger] distinct(frames).contains(f) <==> f.len() > 0
            && frames.contains(f) by {
            assert(frames =~= frames.drop_last().push(last));
            if frames.contains(f) {
                let k = choose|k: int| 0 <= k < frames.len() && frames[k] == f;
                if k < frames.len() - 1 {
                    assert(frames.drop_last()[k] == f);
                }
            }
            if frames.drop_last().contains(f) {
                let k = choose|k: int|
                    0 <= k < frames.drop_last().len() && frames.drop_last()[k] == f;
                assert(frames[k] == f);
            }
            if distinct(frames).contains(f) {
                let k = choose|k: int| 0 <= k < distinct(frames).len() && distinct(frames)[k] == f;
                if k < before.len() {
                    assert(before[k] == f);
                    assert(before.contains(f));
                } else {
                    assert(frames[frames.len() - 1] == f);
                }
            }
            if before.contains(f) {
                let k = choose|k: int| 0 <= k < before.len() && before[k] == f;
                assert(distinct(frames)[k] == f);
            }
            if f == last && f.len() > 0 {
                if !before.contains(f) {
                    assert(distinct(frames)[before.len() as int] == f);
                }
            }
        }
    }
}

/// Deduplication keeps every payload that is not empty, and each once.
pub proof fn law_deduplicating_keeps_each_payload_once(frames: Seq<Seq<u8>>)
    ensures
        distinct(frames).no_duplicates(),
        forall|f: Seq<u8>|
            #[trigger] distinct(frames).contains(f) <==> f.len() > 0 && frames.contains(f),
    decreases frames.len(),
{
    lemma_distinct_members(frames);
    if frames.len() > 0 {
        law_deduplicating_keeps_each_payload_once(frames.drop_last());
        let before = distinct(frames.drop_last());
        assert forall|i: int, j: int|
            0 <= i < distinct(frames).len() && 0 <= j < distinct(frames).len() && i
                != j implies distinct(frames)[i] != distinct(frames)[j] by {
            if i < before.len() && j < before.len() {
                assert(before[i] != before[j]);
            } else if i < before.len() {
                assert(before.contains(before[i]));
            } else if j < before.len() {
                assert(before.contains(before[j]));
            }
        }
    }
}

/// Deduplicating what is already deduplicated changes nothing.
pub proof fn law_deduplicating_is_idempotent(frames: Seq<Seq<u8>>)
    ensures
        distinct(distinct(frames)) == distinct(frames),
{
    law_deduplicating_keeps_each_payload_once(frames);
    let unique = distinct(frames);
    assert forall|i: int| 0 <= i < unique.len() implies (#[trigger] unique[i]).len() > 0 by {
        assert(unique.contains(unique[i]));
    }
    lemma_distinct_of_unique(unique);
}

proof fn lemma_distinct_of_unique(frames: Seq<Seq<u8>>)
    requires
        frames.no_duplicates(),
        forall|i: int| 0 <= i < frames.len() ==> (#[trigger] frames[i]).len() > 0,
    ensures
        distinct(frames) == frames,
    decreases frames.len(),
{
    if frames.len() > 0 {
        let front = frames.drop_last();
        assert forall|i: int| 0 <= i < front.len() implies (#[trigger] front[i]).len() > 0 by {
            assert(frames[i].len() > 0);
        }
        lemma_distinct_of_unique(front);
        assert(frames[frames.len() - 1].len() > 0);
        if front.contains(frames.last()) {
            let k = choose|k: int| 0 <= k < front.len() && front[k] == frames.last();
            assert(frames[k] == frames[frames.len() - 1]);
        }
        assert(front.push(frames.last()) == frames);
    }
}

/// How far a payload is from the nearest of the chosen ones.
pub open spec fn nearest(pool: Seq<Seq<u8>>, chosen: Seq<int>, i: int) -> int
    decreases chosen.len(),
{
    if chosen.len() <= 1 {
        distance(pool[i], pool[chosen[0]])
    } else {
        let before = nearest(pool, chosen.drop_last(), i);
        let newest = distance(pool[i], pool[chosen.last()]);
        if newest < before {
            newest
        } else {
            before
        }
    }
}

/// The payload of the first `n` that is farthest from everything chosen; the
/// last of several equally far.
pub open spec fn farthest(pool: Seq<Seq<u8>>, chosen: Seq<int>, n: int) -> int
    decreases n,
{
    if n <= 1 {
        0
    } else {
        let before = farthest(pool, chosen, n - 1);
        if nearest(pool, chosen, n - 1) >= nearest(pool, chosen, before) {
            n - 1
        } else {
            before
        }
    }
}

/// Farthest-point selection: keep adding the payload farthest from everything
/// chosen, until `limit` are chosen or all that is left is a repeat.
pub open spec fn spread(pool: Seq<Seq<u8>>, chosen: Seq<int>, limit: int) -> Seq<int>
    decreases limit - chosen.len(),
{
    let next = farthest(pool, chosen, pool.len() as int);
    if chosen.len() >= limit || nearest(pool, chosen, next) <= 0 {
        chosen
    } else {
        spread(pool, chosen.push(next), limit)
    }
}

/// The payloads at the given places of a pool.
pub open spec fn picked(pool: Seq<Seq<u8>>, places: Seq<int>) -> Seq<Seq<u8>> {
    Seq::new(places.len(), |i: int| pool[places[i]])
}

/// What [`diverse_samples`] chooses.
pub open spec fn diverse(frames: Seq<Seq<u8>>, limit: int) -> Seq<Seq<u8>> {
    let unique = distinct(frames);
    if limit == 0 || unique.len() <= limit {
        unique
    } else {
        let pool = strided(unique, MAX_POOL as int);
        picked(pool, spread(pool, seq![0], limit))
    }
}

proof fn lemma_farthest_in_pool(pool: Seq<Seq<u8>>, chosen: Seq<int>, n: int)
    requires
        n >= 1,
    ensures
        0 <= farthest(pool, chosen, n) < n,
    decreases n,
{
    if n > 1 {
        lemma_farthest_in_pool(pool, chosen, n - 1);
    }
}

/// Up to `limit` payloads chosen to differ from each other as much as possible.
///
/// Deduplicates first — repeats carry no information a solver can use — then, if
/// still over the limit, strides the pool down and runs greedy farthest-point
/// selection on what is left. The first frame is always kept, so a caller
/// eyeballing the result recognises where it came from.
pub fn diverse_samples(frames: &[Vec<u8>], limit: usize) -> (r: Vec<Vec<u8>>)
    ensures
        crate::spec::frame_bytes(r@) == diverse(
            crate::spec::frame_bytes(frames@),
            limit as int,
        ),
{
    let unique = deduplicate(frames);
    if limit == 0 || unique.len() <= limit {
        return unique;
    }
    // Stride rather than truncate: the deduplicated set is in arrival order, so
    // taking a prefix would confine the pool to the start of the capture.

    let pool = strided_samples(unique.as_slice(), MAX_POOL);
    let ghost entries = crate::spec::frame_bytes(pool@);
    proof {
        let u = crate::spec::frame_bytes(unique@);
        law_strided_samples_stay_within_the_limit(u, MAX_POOL as int);
        law_deduplicating_keeps_each_payload_once(crate::spec::frame_bytes(frames@));
        assert forall|i: int| 0 <= i < u.len() implies (#[trigger] u[i]).len() > 0 by {
            assert(u.contains(u[i]));
        }
        lemma_non_empty_of_full(u);
    }
    let mut out: Vec<Vec<u8>> = Vec::new();
    out.push(vstd::slice::slice_to_vec(pool[0].as_slice()));
    let ghost mut chosen: Seq<int> = seq![0];
    // Distance from each pool entry to the nearest already-chosen payload,
    // maintained incrementally so each round is one pass, not a re-scan.
    let mut gaps: Vec<u128> = Vec::new();
    for i in 0..pool.len()
        invariant
            entries == crate::spec::frame_bytes(pool@),
            pool@.len() > 0,
            chosen == seq![0int],
            gaps@.len() == i,
            forall|j: int|
                0 <= j < i ==> #[trigger] gaps@[j] == nearest(entries, chosen, j),
    {
        gaps.push(hamming_distance(pool[i].as_slice(), pool[0].as_slice()));
    }
    assert(crate::spec::frame_bytes(out@) == picked(entries, chosen));
    while out.len() < limit
        invariant_except_break
            entries == crate::spec::frame_bytes(pool@),
            pool@.len() > 0,
            chosen.len() >= 1,
            chosen.len() == out@.len(),
            crate::spec::frame_bytes(out@) == picked(entries, chosen),
            gaps@.len() == pool@.len(),
            forall|j: int|
                0 <= j < pool@.len() ==> #[trigger] gaps@[j] == nearest(entries, chosen, j),
            forall|j: int| 0 <= j < chosen.len() ==> 0 <= #[trigger] chosen[j] < entries.len(),
            spread(entries, seq![0], limit as int) == spread(entries, chosen, limit as int),
        ensures
            crate::spec::frame_bytes(out@) == picked(
                entries,
                spread(entries, seq![0], limit as int),
            ),
        decreases limit - out@.len(),
    {
        let mut next: usize = 0;
        for i in 1..pool.len()
            invariant
                entries == crate::spec::frame_bytes(pool@),
                pool@.len() > 0,
                gaps@.len() == pool@.len(),
                next < pool@.len(),
                next == farthest(entries, chosen, i as int),
                forall|j: int|
                    0 <= j < pool@.len() ==> #[trigger] gaps@[j] == nearest(entries, chosen, j),
        {
            if gaps[i] >= gaps[next] {
                next = i;
            }
        }
        assert(next == farthest(entries, chosen, entries.len() as int));
        if gaps[next] == 0 {
            break ;
        }
        let ghost before = chosen;
        let ghost kept = crate::spec::frame_bytes(out@);
        out.push(vstd::slice::slice_to_vec(pool[next].as_slice()));
        proof {
            chosen = chosen.push(next as int);
            assert(crate::spec::frame_bytes(out@) == kept.push(entries[next as int]));
            assert(picked(entries, chosen) == picked(entries, before).push(entries[next as int]));
            assert(crate::spec::frame_bytes(out@) == picked(entries, chosen));
            assert(chosen.drop_last() == before);
        }
        for i in 0..pool.len()
            invariant
                entries == crate::spec::frame_bytes(pool@),
                gaps@.len() == pool@.len(),
                next < pool@.len(),
                before.len() >= 1,
                chosen == before.push(next as int),
                chosen.drop_last() == before,
                forall|j: int|
                    0 <= j < i ==> #[trigger] gaps@[j] == nearest(entries, chosen, j),
                forall|j: int|
                    i <= j < pool@.len() ==> #[trigger] gaps@[j] == nearest(entries, before, j),
        {
            let gap: u128 = hamming_distance(pool[i].as_slice(), pool[next].as_slice());
            if gap < gaps[i] {
                gaps.set(i, gap);
            }
        }
    }
    out
}

proof fn lemma_non_empty_of_full(frames: Seq<Seq<u8>>)
    requires
        forall|i: int| 0 <= i < frames.len() ==> (#[trigger] frames[i]).len() > 0,
    ensures
        non_empty(frames) == frames,
    decreases frames.len(),
{
    if frames.len() > 0 {
        let front = frames.drop_last();
        assert forall|i: int| 0 <= i < front.len() implies (#[trigger] front[i]).len() > 0 by {
            assert(frames[i].len() > 0);
        }
        lemma_non_empty_of_full(front);
        assert(frames[frames.len() - 1].len() > 0);
        assert(front.push(frames.last()) == frames);
    }
}

/// The diverse sample stays within its limit, keeps the first payload, and
/// holds only payloads of the capture.
pub proof fn law_diverse_samples_are_a_bounded_subset(frames: Seq<Seq<u8>>, limit: int)
    requires
        limit > 0,
    ensures
        diverse(frames, limit).len() <= limit,
        forall|i: int|
            0 <= i < diverse(frames, limit).len() ==> frames.contains(
                #[trigger] diverse(frames, limit)[i],
            ),
        distinct(frames).len() > 0 ==> diverse(frames, limit).len() > 0 && diverse(frames, limit)[0]
            == distinct(frames)[0],
{
    law_deduplicating_keeps_each_payload_once(frames);
    let unique = distinct(frames);
    assert forall|i: int| 0 <= i < unique.len() implies frames.contains(#[trigger] unique[i])
        && unique[i].len() > 0 by {
        assert(unique.contains(unique[i]));
    }
    if unique.len() > limit {
        let pool = strided(unique, MAX_POOL as int);
        law_strided_samples_stay_within_the_limit(unique, MAX_POOL as int);
        lemma_non_empty_of_full(unique);
        lemma_spread_grows(pool, seq![0], limit);
        let places = spread(pool, seq![0], limit);
        assert forall|i: int| 0 <= i < diverse(frames, limit).len() implies frames.contains(
            #[trigger] diverse(frames, limit)[i],
        ) by {
            assert(0 <= places[i] < pool.len());
            assert(unique.contains(pool[places[i]]));
        }
    }
}

proof fn lemma_spread_grows(pool: Seq<Seq<u8>>, chosen: Seq<int>, limit: int)
    requires
        pool.len() > 0,
        0 < chosen.len() <= limit,
        forall|i: int| 0 <= i < chosen.len() ==> 0 <= #[trigger] chosen[i] < pool.len(),
    ensures
        chosen.len() <= spread(pool, chosen, limit).len() <= limit,
        spread(pool, chosen, limit)[0] == chosen[0],
        forall|i: int|
            0 <= i < spread(pool, chosen, limit).len() ==> 0 <= #[trigger] spread(
                pool,
                chosen,
                limit,
            )[i] < pool.len(),
    decreases limit - chosen.len(),
{
    let next = farthest(pool, chosen, pool.len() as int);
    lemma_farthest_in_pool(pool, chosen, pool.len() as int);
    if chosen.len() < limit && nearest(pool, chosen, next) > 0 {
        lemma_spread_grows(pool, chosen.push(next), limit);
    }
}

/// Where there are no more usable payloads than the limit, a strided sample is all of
/// them; else it is spread evenly, from the first on.
pub proof fn law_strided_samples_are_spread_evenly(frames: Seq<Seq<u8>>, limit: int, i: int)
    requires
        limit > 0,
    ensures
        non_empty(frames).len() <= limit ==> strided(frames, limit) == non_empty(frames),
        0 <= i < strided(frames, limit).len() ==> ({
            let step = stride_for(non_empty(frames).len() as int, limit);
            &&& 1 <= step
            &&& step * limit >= non_empty(frames).len()
            &&& (step - 1) * limit < non_empty(frames).len() || step == 1
            &&& strided(frames, limit)[i] == non_empty(frames)[i * step]
        }),
{
    let n = non_empty(frames).len() as int;
    if n <= limit {
        assert(strided(frames, limit) =~= non_empty(frames));
    } else {
        let step = (n + limit - 1) / limit;
        assert(step * limit >= n && (step - 1) * limit < n && step >= 1) by (nonlinear_arith)
            requires
                step == (n + limit - 1) / limit,
                n > limit,
                limit > 0,
        ;
    }
}

} // verus!
