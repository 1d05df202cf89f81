//! Live mirror validation: does a `mirror_of` frame still agree with its source?
//!
//! A catalogue can declare that one frame duplicates another (`mirror_of`), and
//! [`crate::parse`] resolves the source's signals onto the mirror, marking each
//! copied one [`Signal::inherited`]. Only those inherited bytes are compared
//! here: a signal the mirror declares *itself* — at the same
//! `start_bit:bit_length`, which makes it an override rather than an inherited
//! copy — is deliberately different data and must not read as a fault.
//!
//! The two copies arrive milliseconds apart, so a comparison is only meaningful
//! when the samples are close enough in time — see [`MirrorTracker`] for the
//! window and the latch that keep a moving signal from flapping the verdict.
//!
//! Times are whole microseconds.

use crate::decode::frame_id_mask;
use crate::model::{Catalog, Frame, Signal};
use crate::parse::parse_id;
use vstd::prelude::*;

verus! {

/// Fuzz window basis when the source frame declares no interval. Doubled, as
/// every interval is, to give the pair room to arrive.
pub const DEFAULT_INTERVAL_MS: u64 = 1000;

/// Consecutive in-window comparisons that must fail before a mirror latches
/// invalid. A single differing sample is usually skew on a moving signal.
pub const MISMATCH_LATCH: u32 = 3;

// ---------------------------------------------------------------------------
// Inherited bytes
// ---------------------------------------------------------------------------

/// An ascending list without repeats, with one more index.
pub open spec fn with_index(list: Seq<usize>, index: usize) -> Seq<usize>
    decreases list.len(),
{
    if list.len() == 0 || list.last() < index {
        list.push(index)
    } else if list.last() == index {
        list
    } else {
        with_index(list.drop_last(), index).push(list.last())
    }
}

/// An ascending list without repeats, with the indices from `first` up to `end`.
pub open spec fn with_range(list: Seq<usize>, first: int, end: int) -> Seq<usize>
    decreases end - first,
{
    if first >= end {
        list
    } else {
        with_index(with_range(list, first, end - 1), (end - 1) as usize)
    }
}

/// Whether a signal is an inherited one that covers any byte.
pub open spec fn is_inherited(s: crate::model::SignalView) -> bool {
    s.inherited && s.start_bit is Some && s.bit_length is Some && s.bit_length->Some_0 > 0
}

/// The first byte a signal covers.
pub open spec fn first_covered(s: crate::model::SignalView) -> int {
    s.start_bit->Some_0 as int / 8
}

/// One past the last byte a signal covers.
pub open spec fn end_covered(s: crate::model::SignalView) -> int {
    (s.start_bit->Some_0 + s.bit_length->Some_0 - 1) / 8 + 1
}

/// The bytes that the inherited ones of a list of signals cover, ascending and
/// without repeats.
pub open spec fn inherited_indices(signals: Seq<crate::model::SignalView>) -> Seq<usize>
    decreases signals.len(),
{
    if signals.len() == 0 {
        Seq::empty()
    } else {
        let before = inherited_indices(signals.drop_last());
        let s = signals.last();
        if is_inherited(s) {
            with_range(before, first_covered(s), end_covered(s))
        } else {
            before
        }
    }
}

fn insert_index(list: &mut Vec<usize>, index: usize)
    ensures
        final(list)@ == with_index(old(list)@, index),
{
    let ghost before = list@;
    let mut at: usize = list.len();
    assert(before.take(at as int) == before);
    assert(before.skip(at as int) == Seq::<usize>::empty());
    assert(with_index(before, index) == with_index(before.take(at as int), index) + before.skip(
        at as int,
    ));
    while at > 0 && list[at - 1] > index
        invariant
            at <= list@.len(),
            list@ == before,
            with_index(before, index) == with_index(before.take(at as int), index) + before.skip(
                at as int,
            ),
        decreases at,
    {
        let ghost head = before.take(at as int);
        assert(head.last() == before[at - 1]);
        assert(head.drop_last() == before.take(at - 1));
        assert(with_index(before.take(at - 1), index).push(before[at - 1]) + before.skip(at as int)
            == with_index(before.take(at - 1), index) + before.skip(at - 1));
        at = at - 1;
    }
    let ghost head = before.take(at as int);
    assert(at > 0 ==> head.last() == before[at - 1]);
    if at > 0 && list[at - 1] == index {
        assert(head + before.skip(at as int) == before);
    } else {
        list.insert(at, index);
        assert(list@ == head.push(index) + before.skip(at as int));
    }
}

/// Payload byte indices covered by a frame's *inherited* signals — the bytes a
/// mirror is expected to reproduce verbatim — ascending.
///
/// Signals the frame declares itself are excluded, which is what lets a
/// catalogue document a legitimately different byte. Mux-case signals are not
/// considered: an inherited mux is copied wholesale and carries no per-signal
/// inheritance flag, so a mirror of a mux-only frame yields an empty list. Empty
/// means *cannot be compared*, never *compares equal* — see
/// [`MirrorTracker::new`], which refuses to track such a mirror rather than let
/// it report a vacuous match.
pub fn inherited_byte_indices(frame: &Frame) -> (r: Vec<usize>)
    ensures
        r@ == inherited_indices(frame@.signals),
{
    let ghost all = frame@.signals;
    let mut out: Vec<usize> = Vec::new();
    for i in 0..frame.signals.len()
        invariant
            all == frame@.signals,
            all.len() == frame.signals@.len(),
            out@ == inherited_indices(all.take(i as int)),
    {
        assert(all.take(i + 1).drop_last() == all.take(i as int));
        assert(all.take(i + 1).last() == frame.signals@[i as int]@);
        let signal: &Signal = &frame.signals[i];
        if signal.inherited {
            if let (Some(start), Some(length)) = (signal.start_bit, signal.bit_length) {
                if length > 0 {
                    let first: usize = (start / 8) as usize;
                    let end: usize = ((start as u64 + length as u64 - 1) / 8 + 1) as usize;
                    let ghost before = out@;
                    for index in first..end
                        invariant
                            out@ == with_range(before, first as int, index as int),
                    {
                        insert_index(&mut out, index);
                    }
                }
            }
        }
    }
    assert(all.take(all.len() as int) == all);
    out
}

/// Whether an inherited signal covers a byte.
pub open spec fn covers(s: crate::model::SignalView, index: int) -> bool {
    is_inherited(s) && first_covered(s) <= index < end_covered(s)
}

/// Whether a list ascends without repeats.
pub open spec fn ascending(list: Seq<usize>) -> bool {
    forall|i: int, j: int| 0 <= i < j < list.len() ==> list[i] < list[j]
}

proof fn lemma_with_index(list: Seq<usize>, index: usize)
    requires
        ascending(list),
    ensures
        ascending(with_index(list, index)),
        forall|k: usize|
            #[trigger] with_index(list, index).contains(k) <==> list.contains(k) || k == index,
    decreases list.len(),
{
    let new = with_index(list, index);
    if list.len() == 0 || list.last() < index {
        assert forall|k: usize| #[trigger] new.contains(k) <==> list.contains(k) || k == index by {
            if list.contains(k) {
                let i = choose|i: int| 0 <= i < list.len() && list[i] == k;
                assert(new[i] == k);
            }
            assert(new[list.len() as int] == index);
        }
    } else if list.last() == index {
        assert(list[list.len() - 1] == index);
    } else {
        let before = list.drop_last();
        let inner = with_index(before, index);
        lemma_with_index(before, index);
        assert forall|k: usize| #[trigger] new.contains(k) <==> list.contains(k) || k == index by {
            if new.contains(k) {
                let i = choose|i: int| 0 <= i < new.len() && new[i] == k;
                if i < inner.len() {
                    assert(inner[i] == k);
                    assert(inner.contains(k));
                    if before.contains(k) {
                        let j = choose|j: int| 0 <= j < before.len() && before[j] == k;
                        assert(list[j] == k);
                    }
                } else {
                    assert(list[list.len() - 1] == k);
                }
            }
            if list.contains(k) || k == index {
                if list.contains(k) {
                    let j = choose|j: int| 0 <= j < list.len() && list[j] == k;
                    if j < before.len() {
                        assert(before[j] == k);
                        assert(before.contains(k));
                        assert(inner.contains(k));
                    }
                }
                if k != list.last() {
                    assert(inner.contains(k));
                    let i = choose|i: int| 0 <= i < inner.len() && inner[i] == k;
                    assert(new[i] == k);
                } else {
                    assert(new[inner.len() as int] == k);
                }
            }
        }
        assert forall|i: int, j: int| 0 <= i < j < new.len() implies new[i] < new[j] by {
            if j == inner.len() {
                assert(inner.contains(inner[i]));
                if before.contains(inner[i]) {
                    let k = choose|k: int| 0 <= k < before.len() && before[k] == inner[i];
                    assert(list[k] < list[list.len() - 1]);
                }
            }
        }
    }
}

proof fn lemma_with_range(list: Seq<usize>, first: int, end: int)
    requires
        ascending(list),
        0 <= first,
        end <= usize::MAX,
    ensures
        ascending(with_range(list, first, end)),
        forall|k: usize|
            #[trigger] with_range(list, first, end).contains(k) <==> list.contains(k) || first <= k
                < end,
    decreases end - first,
{
    if first < end {
        lemma_with_range(list, first, end - 1);
        lemma_with_index(with_range(list, first, end - 1), (end - 1) as usize);
    }
}

/// The inherited bytes ascend without repeats, and are exactly the bytes that
/// some inherited signal covers: a byte that only the frame's own signals cover is
/// not among them.
pub proof fn law_inherited_bytes_are_the_covered_ones(
    signals: Seq<crate::model::SignalView>,
    index: usize,
)
    ensures
        ascending(inherited_indices(signals)),
        inherited_indices(signals).contains(index) <==> exists|i: int|
            0 <= i < signals.len() && covers(#[trigger] signals[i], index as int),
    decreases signals.len(),
{
    if signals.len() > 0 {
        let before = signals.drop_last();
        let s = signals.last();
        law_inherited_bytes_are_the_covered_ones(before, index);
        if is_inherited(s) {
            assert(end_covered(s) <= 0x4000_0000);
            lemma_with_range(inherited_indices(before), first_covered(s), end_covered(s));
        }
        if exists|i: int| 0 <= i < before.len() && covers(#[trigger] before[i], index as int) {
            let i = choose|i: int|
                0 <= i < before.len() && covers(#[trigger] before[i], index as int);
            assert(signals[i] == before[i]);
        }
        if exists|i: int| 0 <= i < signals.len() && covers(#[trigger] signals[i], index as int) {
            let i = choose|i: int|
                0 <= i < signals.len() && covers(#[trigger] signals[i], index as int);
            if i < before.len() {
                assert(before[i] == signals[i]);
            }
        }
        if covers(s, index as int) {
            assert(signals[signals.len() - 1] == s);
        }
    }
}

// ---------------------------------------------------------------------------
// One mirror
// ---------------------------------------------------------------------------

/// The current state of one mirror relationship, as reported to the UI.
#[derive(Debug, Clone, PartialEq, Eq)]
pub struct MirrorVerdict {
    /// Catalogue frame id this mirror is compared against.
    pub source_frame_id: u32,
    /// `None` until a first comparison has run inside the fuzz window.
    pub is_valid: Option<bool>,
    /// Gap between the two most recent samples, in microseconds. Reported even
    /// when it exceeded the window and so produced no comparison.
    pub time_delta_us: u64,
    /// Inherited byte indices that differed at the last in-window comparison.
    pub mismatched_byte_indices: Vec<usize>,
}

/// The state of a mirror relationship, as a mathematical value.
#[verifier::ext_equal]
pub struct VerdictView {
    pub source_frame_id: u32,
    pub is_valid: Option<bool>,
    pub time_delta_us: u64,
    pub mismatched: Seq<usize>,
}

impl View for MirrorVerdict {
    type V = VerdictView;

    open spec fn view(&self) -> VerdictView {
        VerdictView {
            source_frame_id: self.source_frame_id,
            is_valid: self.is_valid,
            time_delta_us: self.time_delta_us,
            mismatched: self.mismatched_byte_indices@,
        }
    }
}

/// One mirror and the newest sample from each side of the pair.
#[derive(Debug)]
struct MirrorState {
    source_frame_id: u32,
    inherited: Vec<usize>,
    fuzz_window_us: u128,
    mirror: Option<(Vec<u8>, i64)>,
    source: Option<(Vec<u8>, i64)>,
    is_valid: Option<bool>,
    time_delta_us: u64,
    mismatched: Vec<usize>,
    /// Comparisons in a row that failed, counted up to the latch.
    consecutive_mismatches: u32,
}

/// A mirror and its newest samples, as a mathematical value.
#[verifier::ext_equal]
pub struct StateView {
    pub source_frame_id: u32,
    pub inherited: Seq<usize>,
    pub window: int,
    pub mirror: Option<(Seq<u8>, i64)>,
    pub source: Option<(Seq<u8>, i64)>,
    pub is_valid: Option<bool>,
    pub delta: u64,
    pub mismatched: Seq<usize>,
    pub misses: u32,
}

/// An optional sample, as a mathematical value.
pub open spec fn sample(s: Option<(Vec<u8>, i64)>) -> Option<(Seq<u8>, i64)> {
    match s {
        Some((bytes, t)) => Some((bytes@, t)),
        None => None,
    }
}

impl MirrorState {
    spec fn view(self) -> StateView {
        StateView {
            source_frame_id: self.source_frame_id,
            inherited: self.inherited@,
            window: self.fuzz_window_us as int,
            mirror: sample(self.mirror),
            source: sample(self.source),
            is_valid: self.is_valid,
            delta: self.time_delta_us,
            mismatched: self.mismatched@,
            misses: self.consecutive_mismatches,
        }
    }
}

/// The byte at an index, where there is one.
pub open spec fn byte_at(bytes: Seq<u8>, index: usize) -> Option<u8> {
    if index < bytes.len() {
        Some(bytes[index as int])
    } else {
        None
    }
}

/// The indices at which two payloads differ.
pub open spec fn differing(indices: Seq<usize>, a: Seq<u8>, b: Seq<u8>) -> Seq<usize>
    decreases indices.len(),
{
    if indices.len() == 0 {
        Seq::empty()
    } else {
        let before = differing(indices.drop_last(), a, b);
        if byte_at(a, indices.last()) != byte_at(b, indices.last()) {
            before.push(indices.last())
        } else {
            before
        }
    }
}

/// The distance between two times.
pub open spec fn distance(a: i64, b: i64) -> int {
    if a >= b {
        a - b
    } else {
        b - a
    }
}

impl StateView {
    /// The state after its two newest samples are compared, if both have arrived
    /// and are close enough together.
    pub open spec fn compared(self) -> StateView {
        match (self.mirror, self.source) {
            (Some(m), Some(s)) => {
                let delta = distance(m.1, s.1);
                if delta > self.window {
                    StateView { delta: delta as u64, ..self }
                } else {
                    let mismatched = differing(self.inherited, m.0, s.0);
                    if mismatched.len() == 0 {
                        StateView {
                            delta: delta as u64,
                            mismatched,
                            misses: 0,
                            is_valid: Some(true),
                            ..self
                        }
                    } else {
                        let misses: int = if self.misses < MISMATCH_LATCH {
                            self.misses + 1
                        } else {
                            MISMATCH_LATCH as int
                        };
                        StateView {
                            delta: delta as u64,
                            mismatched,
                            misses: misses as u32,
                            is_valid: if misses >= MISMATCH_LATCH {
                                Some(false)
                            } else {
                                self.is_valid
                            },
                            ..self
                        }
                    }
                }
            },
            _ => self,
        }
    }

    /// The state with the newest sample from one side of the pair.
    pub open spec fn recorded(self, is_mirror: bool, bytes: Seq<u8>, t: i64) -> StateView {
        if is_mirror {
            (StateView { mirror: Some((bytes, t)), ..self }).compared()
        } else {
            (StateView { source: Some((bytes, t)), ..self }).compared()
        }
    }

    /// The state with every sample and verdict forgotten.
    pub open spec fn cleared(self) -> StateView {
        StateView {
            mirror: None,
            source: None,
            is_valid: None,
            delta: 0,
            mismatched: Seq::empty(),
            misses: 0,
            ..self
        }
    }

    /// What is reported of the state.
    pub open spec fn verdict(self) -> VerdictView {
        VerdictView {
            source_frame_id: self.source_frame_id,
            is_valid: self.is_valid,
            time_delta_us: self.delta,
            mismatched: self.mismatched,
        }
    }
}

fn get_byte(bytes: &Vec<u8>, index: usize) -> (r: Option<u8>)
    ensures
        r == byte_at(bytes@, index),
{
    if index < bytes.len() {
        Some(bytes[index])
    } else {
        None
    }
}

fn find_differing(indices: &Vec<usize>, a: &Vec<u8>, b: &Vec<u8>) -> (r: Vec<usize>)
    ensures
        r@ == differing(indices@, a@, b@),
{
    let mut out: Vec<usize> = Vec::new();
    for i in 0..indices.len()
        invariant
            out@ == differing(indices@.take(i as int), a@, b@),
    {
        assert(indices@.take(i + 1).drop_last() == indices@.take(i as int));
        assert(indices@.take(i + 1).last() == indices@[i as int]);
        let x: Option<u8> = get_byte(a, indices[i]);
        let y: Option<u8> = get_byte(b, indices[i]);
        let same: bool = match (x, y) {
            (Some(x), Some(y)) => x == y,
            (None, None) => true,
            _ => false,
        };
        if !same {
            out.push(indices[i]);
        }
    }
    assert(indices@.take(indices@.len() as int) == indices@);
    out
}

impl MirrorState {
    /// Record the newest sample from one side of the pair, then re-compare.
    fn record(&mut self, is_mirror: bool, bytes: &[u8], timestamp_us: i64)
        ensures
            final(self).view() == old(self).view().recorded(is_mirror, bytes@, timestamp_us),
    {
        let newest = Some((vstd::slice::slice_to_vec(bytes), timestamp_us));
        if is_mirror {
            self.mirror = newest;
        } else {
            self.source = newest;
        }
        self.check_pair();
    }

    /// Compare the two most recent samples, if both have arrived and are close
    /// enough together. Outside the window the previous verdict stands — a
    /// mirror that stops arriving keeps its last known state rather than
    /// silently reverting to "unknown".
    fn check_pair(&mut self)
        ensures
            final(self).view() == old(self).view().compared(),
    {
        let (delta, mismatched): (u64, Vec<usize>) = match (&self.mirror, &self.source) {
            (Some(m), Some(s)) => {
                let gap: i128 = m.1 as i128 - s.1 as i128;
                let delta: u64 = if gap >= 0 {
                    gap as u64
                } else {
                    (-gap) as u64
                };
                (delta, find_differing(&self.inherited, &m.0, &s.0))
            },
            _ => {
                return;
            },
        };
        self.time_delta_us = delta;
        if delta as u128 > self.fuzz_window_us {
            return;
        }
        let agree: bool = mismatched.len() == 0;
        self.mismatched = mismatched;
        if agree {
            self.consecutive_mismatches = 0;
            self.is_valid = Some(true);
        } else {
            if self.consecutive_mismatches < MISMATCH_LATCH {
                self.consecutive_mismatches = self.consecutive_mismatches + 1;
            } else {
                self.consecutive_mismatches = MISMATCH_LATCH;
            }
            if self.consecutive_mismatches >= MISMATCH_LATCH {
                self.is_valid = Some(false);
            }
        }
    }

    fn verdict(&self) -> (r: MirrorVerdict)
        ensures
            r@ == self.view().verdict(),
    {
        MirrorVerdict {
            source_frame_id: self.source_frame_id,
            is_valid: self.is_valid,
            time_delta_us: self.time_delta_us,
            mismatched_byte_indices: copy_indices(&self.mismatched),
        }
    }
}

fn copy_indices(list: &Vec<usize>) -> (r: Vec<usize>)
    ensures
        r@ == list@,
{
    let mut out: Vec<usize> = Vec::new();
    for i in 0..list.len()
        invariant
            out@ == list@.take(i as int),
    {
        out.push(list[i]);
        assert(list@.take(i + 1) == list@.take(i as int).push(list@[i as int]));
    }
    assert(list@.take(list@.len() as int) == list@);
    out
}

// ---------------------------------------------------------------------------
// The tracker
// ---------------------------------------------------------------------------

/// Per-session mirror comparison state for one catalogue.
///
/// Built from a resolved [`Catalog`], fed every frame the session delivers via
/// [`observe`](Self::observe), and read back with [`verdicts`](Self::verdicts).
/// Because the tracker belongs to the catalogue it was built from, re-attaching
/// a catalogue replaces it wholesale — there is no way for a verdict, or the
/// inherited byte set behind it, to outlive the catalogue that produced it.
///
/// The catalogue is needed only to build it: the frame-id mask is read once here
/// rather than re-derived per frame, so the streaming path never touches the
/// catalogue again and cannot be paired with the wrong one.
#[derive(Debug)]
pub struct MirrorTracker {
    /// The protocol's `frame_id_mask`, applied to every id fed in.
    mask: Option<u32>,
    /// Mirror frame id → its comparison state, in id order.
    states: Vec<(u32, MirrorState)>,
    /// Source frame id and a mirror that watches it, in the order declared.
    watchers: Vec<(u32, u32)>,
}

/// The tracker, as a mathematical value.
#[verifier::ext_equal]
pub struct TrackerView {
    pub mask: Option<u32>,
    pub states: Seq<(u32, StateView)>,
    pub watchers: Seq<(u32, u32)>,
}

spec fn state_views(states: Seq<(u32, MirrorState)>) -> Seq<(u32, StateView)> {
    states.map_values(|e: (u32, MirrorState)| (e.0, e.1.view()))
}

impl View for MirrorTracker {
    type V = TrackerView;

    closed spec fn view(&self) -> TrackerView {
        TrackerView {
            mask: self.mask,
            states: state_views(self.states@),
            watchers: self.watchers@,
        }
    }
}

/// The place of a mirror among the states.
pub open spec fn state_place(states: Seq<(u32, StateView)>, id: u32, from: int) -> Option<int>
    decreases states.len() - from,
{
    if from < 0 || from >= states.len() {
        None
    } else if states[from].0 == id {
        Some(from)
    } else {
        state_place(states, id, from + 1)
    }
}

/// The states with a sample recorded for one mirror, where it is tracked.
pub open spec fn with_sample(
    states: Seq<(u32, StateView)>,
    id: u32,
    is_mirror: bool,
    bytes: Seq<u8>,
    t: i64,
) -> Seq<(u32, StateView)> {
    match state_place(states, id, 0) {
        Some(i) => states.update(i, (id, states[i].1.recorded(is_mirror, bytes, t))),
        None => states,
    }
}

/// The states with a sample of a source recorded for each of its watchers.
pub open spec fn with_source_sample(
    states: Seq<(u32, StateView)>,
    watchers: Seq<(u32, u32)>,
    source: u32,
    bytes: Seq<u8>,
    t: i64,
) -> Seq<(u32, StateView)>
    decreases watchers.len(),
{
    if watchers.len() == 0 {
        states
    } else {
        let before = with_source_sample(states, watchers.drop_last(), source, bytes, t);
        if watchers.last().0 == source {
            with_sample(before, watchers.last().1, false, bytes, t)
        } else {
            before
        }
    }
}

/// A list in id order with one state set.
pub open spec fn with_state(states: Seq<(u32, StateView)>, id: u32, state: StateView) -> Seq<
    (u32, StateView),
>
    decreases states.len(),
{
    if states.len() == 0 || states.last().0 < id {
        states.push((id, state))
    } else if states.last().0 == id {
        states.drop_last().push((id, state))
    } else {
        with_state(states.drop_last(), id, state).push(states.last())
    }
}

/// The frame a frame mirrors.
pub open spec fn mirrored_frame(
    frame: crate::model::FrameView,
    frames: Seq<crate::model::FrameView>,
) -> Option<crate::model::FrameView> {
    match frame.mirror_of {
        Some(key) => match crate::parse::id_of(key) {
            Some(id) => match crate::catalog::frame_with_id(frames, id as u32) {
                Some(i) => Some(frames[i]),
                None => None,
            },
            None => None,
        },
        None => None,
    }
}

/// A mirror before its first sample.
pub open spec fn fresh_state(
    frame: crate::model::FrameView,
    source: crate::model::FrameView,
) -> StateView {
    StateView {
        source_frame_id: source.frame_id,
        inherited: inherited_indices(frame.signals),
        window: crate::model::or_else(source.interval, DEFAULT_INTERVAL_MS) * 2 * 1000,
        mirror: None,
        source: None,
        is_valid: None,
        delta: 0,
        mismatched: Seq::empty(),
        misses: 0,
    }
}

/// Whether a frame is a mirror that can be compared: its source is there, and it
/// inherits at least one byte.
pub open spec fn is_comparable(
    frame: crate::model::FrameView,
    frames: Seq<crate::model::FrameView>,
) -> bool {
    mirrored_frame(frame, frames) is Some && inherited_indices(frame.signals).len() > 0
}

/// The states of the comparable mirrors among the frames.
pub open spec fn states_of(
    list: Seq<crate::model::FrameView>,
    frames: Seq<crate::model::FrameView>,
) -> Seq<(u32, StateView)>
    decreases list.len(),
{
    if list.len() == 0 {
        Seq::empty()
    } else {
        let before = states_of(list.drop_last(), frames);
        let f = list.last();
        if is_comparable(f, frames) {
            with_state(before, f.frame_id, fresh_state(f, mirrored_frame(f, frames)->Some_0))
        } else {
            before
        }
    }
}

/// The source and the id of each of the comparable mirrors among the frames.
pub open spec fn watchers_of(
    list: Seq<crate::model::FrameView>,
    frames: Seq<crate::model::FrameView>,
) -> Seq<(u32, u32)>
    decreases list.len(),
{
    if list.len() == 0 {
        Seq::empty()
    } else {
        let before = watchers_of(list.drop_last(), frames);
        let f = list.last();
        if is_comparable(f, frames) {
            before.push((mirrored_frame(f, frames)->Some_0.frame_id, f.frame_id))
        } else {
            before
        }
    }
}

/// The tracker of a catalogue before any frame is delivered.
pub open spec fn tracker_of(catalog: crate::model::CatalogView) -> TrackerView {
    TrackerView {
        mask: crate::decode::id_mask(catalog),
        states: states_of(catalog.frames, catalog.frames),
        watchers: watchers_of(catalog.frames, catalog.frames),
    }
}

impl TrackerView {
    /// The tracker after one delivered frame.
    pub open spec fn observed(self, raw_id: u32, bytes: Seq<u8>, t: i64) -> TrackerView {
        let id = crate::decode::under_mask(self.mask, raw_id);
        TrackerView {
            states: with_source_sample(
                with_sample(self.states, id, true, bytes, t),
                self.watchers,
                id,
                bytes,
                t,
            ),
            ..self
        }
    }

    /// The tracker with every sample and verdict forgotten.
    pub open spec fn reset(self) -> TrackerView {
        TrackerView {
            states: self.states.map_values(|e: (u32, StateView)| (e.0, e.1.cleared())),
            ..self
        }
    }

    /// The verdict on every tracked mirror.
    pub open spec fn verdicts(self) -> Seq<(u32, VerdictView)> {
        self.states.map_values(|e: (u32, StateView)| (e.0, e.1.verdict()))
    }
}

/// Verdicts, as a mathematical value.
pub open spec fn verdict_views(list: Seq<(u32, MirrorVerdict)>) -> Seq<(u32, VerdictView)> {
    list.map_values(|e: (u32, MirrorVerdict)| (e.0, e.1@))
}

fn insert_state(states: &mut Vec<(u32, MirrorState)>, id: u32, state: MirrorState)
    ensures
        state_views(final(states)@) == with_state(state_views(old(states)@), id, state.view()),
{
    let ghost before = state_views(states@);
    let ghost sv = state.view();
    let mut at: usize = states.len();
    assert(before.take(at as int) == before);
    assert(before.skip(at as int) == Seq::<(u32, StateView)>::empty());
    assert(with_state(before, id, sv) == with_state(before.take(at as int), id, sv) + before.skip(
        at as int,
    ));
    while at > 0 && states[at - 1].0 > id
        invariant
            at <= states@.len(),
            before == state_views(states@),
            with_state(before, id, sv) == with_state(before.take(at as int), id, sv) + before.skip(
                at as int,
            ),
        decreases at,
    {
        let ghost head = before.take(at as int);
        assert(head.last() == before[at - 1]);
        assert(head.drop_last() == before.take(at - 1));
        assert(with_state(before.take(at - 1), id, sv).push(before[at - 1]) + before.skip(at as int)
            == with_state(before.take(at - 1), id, sv) + before.skip(at - 1));
        at = at - 1;
    }
    let ghost head = before.take(at as int);
    assert(at > 0 ==> head.last() == before[at - 1]);
    if at > 0 && states[at - 1].0 == id {
        states.set(at - 1, (id, state));
        assert(state_views(states@) == head.drop_last().push((id, sv)) + before.skip(at as int));
    } else {
        states.insert(at, (id, state));
        assert(state_views(states@) == head.push((id, sv)) + before.skip(at as int));
    }
}

fn record_sample(
    states: &mut Vec<(u32, MirrorState)>,
    id: u32,
    is_mirror: bool,
    bytes: &[u8],
    timestamp_us: i64,
)
    ensures
        state_views(final(states)@) == with_sample(
            state_views(old(states)@),
            id,
            is_mirror,
            bytes@,
            timestamp_us,
        ),
{
    let ghost before = state_views(states@);
    let mut at: usize = 0;
    while at < states.len() && states[at].0 != id
        invariant
            at <= states@.len(),
            before == state_views(states@),
            state_place(before, id, 0) == state_place(before, id, at as int),
        decreases states@.len() - at,
    {
        assert(before[at as int].0 == states@[at as int].0);
        at = at + 1;
    }
    if at < states.len() {
        assert(before[at as int].0 == states@[at as int].0);
        states[at].1.record(is_mirror, bytes, timestamp_us);
        assert(state_views(states@) == before.update(
            at as int,
            (id, before[at as int].1.recorded(is_mirror, bytes@, timestamp_us)),
        ));
    }
}

impl MirrorTracker {
    /// Build a tracker for every `mirror_of` frame in the catalogue whose source
    /// resolves **and** which inherits at least one byte. A mirror that inherits
    /// nothing (its source carries only a mux, so nothing is flagged inherited)
    /// is skipped rather than tracked: with no bytes to compare it could only
    /// ever report a match, and a validator that cannot check something must say
    /// nothing rather than pass it.
    pub fn new(catalog: &Catalog) -> (r: Self)
        ensures
            r@ == tracker_of(catalog@),
    {
        let ghost all = catalog@.frames;
        let mut states: Vec<(u32, MirrorState)> = Vec::new();
        let mut watchers: Vec<(u32, u32)> = Vec::new();
        assert(state_views(states@) == Seq::<(u32, StateView)>::empty());
        for i in 0..catalog.frames.len()
            invariant
                all == catalog@.frames,
                all.len() == catalog.frames@.len(),
                state_views(states@) == states_of(all.take(i as int), all),
                watchers@ == watchers_of(all.take(i as int), all),
        {
            let frame = &catalog.frames[i];
            assert(all.take(i + 1).drop_last() == all.take(i as int));
            assert(all.take(i + 1).last() == frame@);
            let source = match &frame.mirror_of {
                Some(key) => match parse_id(key.as_str()) {
                    Some(id) => catalog.frame(id),
                    None => None,
                },
                None => None,
            };
            if let Some(source) = source {
                let inherited = inherited_byte_indices(frame);
                if inherited.len() > 0 {
                    // The interval is already resolved explicit → mirror source →
                    // `[meta.can].default_interval` by the parser, so there is no
                    // fallback chain to repeat here.
                    let interval: u64 = match source.interval {
                        Some(ms) => ms,
                        None => DEFAULT_INTERVAL_MS,
                    };
                    let none: Vec<usize> = Vec::new();
                    assert(none@ == Seq::<usize>::empty());
                    let state = MirrorState {
                        source_frame_id: source.frame_id,
                        inherited,
                        fuzz_window_us: interval as u128 * 2 * 1000,
                        mirror: None,
                        source: None,
                        is_valid: None,
                        time_delta_us: 0,
                        mismatched: none,
                        consecutive_mismatches: 0,
                    };
                    assert(state.view() == fresh_state(frame@, source@));
                    insert_state(&mut states, frame.frame_id, state);
                    watchers.push((source.frame_id, frame.frame_id));
                }
            }
        }
        assert(all.take(all.len() as int) == all);
        MirrorTracker { mask: frame_id_mask(catalog), states, watchers }
    }

    /// True when the catalogue declares no comparable mirrors, so callers can
    /// skip the per-frame work entirely.
    pub fn is_empty(&self) -> (r: bool)
        ensures
            r == (self@.states.len() == 0),
    {
        self.states.len() == 0
    }

    /// Apply the catalogue's `frame_id_mask` to a raw frame id, so callers can
    /// key their own lookups the same way [`verdicts`](Self::verdicts) does.
    pub fn mask_id(&self, raw_frame_id: u32) -> (r: u32)
        ensures
            r == crate::decode::under_mask(self@.mask, raw_frame_id),
    {
        match self.mask {
            Some(m) => raw_frame_id & m,
            None => raw_frame_id,
        }
    }

    /// Feed in one delivered frame, as either side of a mirror pair.
    ///
    /// Must be called for **every** frame the session delivers, not just the
    /// ones the UI is showing: a mirror can only be judged if its source is
    /// also being seen. `timestamp_us` is the frame's arrival time in
    /// microseconds.
    pub fn observe(&mut self, raw_frame_id: u32, bytes: &[u8], timestamp_us: i64)
        ensures
            final(self)@ == old(self)@.observed(raw_frame_id, bytes@, timestamp_us),
    {
        let id: u32 = self.mask_id(raw_frame_id);
        let ghost watchers = self.watchers@;
        record_sample(&mut self.states, id, true, bytes, timestamp_us);
        let ghost first = state_views(self.states@);
        let count: usize = self.watchers.len();
        for i in 0..count
            invariant
                watchers == self.watchers@,
                count == watchers.len(),
                self.mask == old(self).mask,
                self.watchers@ == old(self).watchers@,
                state_views(self.states@) == with_source_sample(
                    first,
                    watchers.take(i as int),
                    id,
                    bytes@,
                    timestamp_us,
                ),
        {
            assert(watchers.take(i + 1).drop_last() == watchers.take(i as int));
            assert(watchers.take(i + 1).last() == watchers[i as int]);
            if self.watchers[i].0 == id {
                let mirror: u32 = self.watchers[i].1;
                record_sample(&mut self.states, mirror, false, bytes, timestamp_us);
            }
        }
        assert(watchers.take(watchers.len() as int) == watchers);
    }

    /// Forget every sample and verdict, keeping the catalogue-derived setup.
    ///
    /// For when the stream restarts under the same catalogue — a cleared
    /// capture, or a replay rewinding — where retained samples would otherwise
    /// re-assert a verdict the user cleared, or sit outside the fuzz window
    /// forever because time went backwards.
    pub fn reset(&mut self)
        ensures
            final(self)@ == old(self)@.reset(),
    {
        let ghost before = self@.states;
        let ghost after = self@.reset().states;
        let count: usize = self.states.len();
        for i in 0..count
            invariant
                count == before.len(),
                before.len() == self.states@.len(),
                after.len() == before.len(),
                self.mask == old(self).mask,
                self.watchers@ == old(self).watchers@,
                before == state_views(old(self).states@),
                after == before.map_values(|e: (u32, StateView)| (e.0, e.1.cleared())),
                state_views(self.states@) == after.take(i as int) + before.skip(i as int),
        {
            let ghost now = state_views(self.states@);
            assert(now[i as int] == before[i as int]);
            let none: Vec<usize> = Vec::new();
            assert(none@ == Seq::<usize>::empty());
            let id: u32 = self.states[i].0;
            let cleared = MirrorState {
                source_frame_id: self.states[i].1.source_frame_id,
                inherited: copy_indices(&self.states[i].1.inherited),
                fuzz_window_us: self.states[i].1.fuzz_window_us,
                mirror: None,
                source: None,
                is_valid: None,
                time_delta_us: 0,
                mismatched: none,
                consecutive_mismatches: 0,
            };
            assert(cleared.view() == before[i as int].1.cleared());
            let ghost view = cleared.view();
            self.states.set(i, (id, cleared));
            assert(state_views(self.states@) == now.update(i as int, (id, view)));
            assert(now.update(i as int, (id, view)) == after.take(i + 1) + before.skip(i + 1));
        }
        assert(after.take(after.len() as int) == after);
        assert(before.skip(before.len() as int) == Seq::<(u32, StateView)>::empty());
        assert(after + Seq::<(u32, StateView)>::empty() == after);
    }

    /// The current verdict for every tracked mirror, keyed by masked frame id.
    ///
    /// Yields one entry per mirror rather than one per observed frame, so a
    /// caller can build its lookup in O(mirrors) instead of walking the batch a
    /// second time.
    pub fn verdicts(&self) -> (r: Vec<(u32, MirrorVerdict)>)
        ensures
            verdict_views(r@) == self@.verdicts(),
    {
        let ghost all = self@.verdicts();
        let mut out: Vec<(u32, MirrorVerdict)> = Vec::new();
        for i in 0..self.states.len()
            invariant
                all == self@.verdicts(),
                all.len() == self.states@.len(),
                verdict_views(out@) == all.take(i as int),
        {
            let ghost before = verdict_views(out@);
            let v = self.states[i].1.verdict();
            let ghost view = v@;
            out.push((self.states[i].0, v));
            assert(verdict_views(out@) == before.push((self.states@[i as int].0, view)));
            assert(all[i as int] == (self.states@[i as int].0, view));
            assert(all.take(i + 1) == all.take(i as int).push(all[i as int]));
        }
        assert(all.take(all.len() as int) == all);
        out
    }
}

// ---------------------------------------------------------------------------
// Laws
// ---------------------------------------------------------------------------

proof fn lemma_differing(indices: Seq<usize>, a: Seq<u8>, b: Seq<u8>)
    ensures
        differing(indices, a, b).len() == 0 <==> forall|i: int|
            0 <= i < indices.len() ==> byte_at(a, #[trigger] indices[i]) == byte_at(b, indices[i]),
    decreases indices.len(),
{
    if indices.len() > 0 {
        let before = indices.drop_last();
        lemma_differing(before, a, b);
        if differing(before, a, b).len() == 0 && byte_at(a, indices.last()) == byte_at(
            b,
            indices.last(),
        ) {
            assert forall|i: int| 0 <= i < indices.len() implies byte_at(a, #[trigger] indices[i])
                == byte_at(b, indices[i]) by {
                if i < before.len() {
                    assert(before[i] == indices[i]);
                }
            }
        }
        if forall|i: int|
            0 <= i < indices.len() ==> byte_at(a, #[trigger] indices[i]) == byte_at(b, indices[i]) {
            assert forall|i: int| 0 <= i < before.len() implies byte_at(a, #[trigger] before[i])
                == byte_at(b, before[i]) by {
                assert(before[i] == indices[i]);
            }
            assert(byte_at(a, indices[indices.len() - 1]) == byte_at(
                b,
                indices[indices.len() - 1],
            ));
        }
    }
}

/// Two samples inside the window read as a match exactly when they agree in
/// every inherited byte, whatever the other bytes hold: an overridden byte never
/// invalidates a mirror.
pub proof fn law_only_inherited_bytes_are_compared(state: StateView)
    requires
        state.mirror is Some,
        state.source is Some,
        distance(state.mirror->Some_0.1, state.source->Some_0.1) <= state.window,
    ensures
        ({
            let m = state.mirror->Some_0.0;
            let s = state.source->Some_0.0;
            let agree = forall|i: int|
                0 <= i < state.inherited.len() ==> byte_at(m, #[trigger] state.inherited[i])
                    == byte_at(s, state.inherited[i]);
            &&& agree ==> state.compared().is_valid == Some(true)
            &&& agree <==> state.compared().mismatched.len() == 0
        }),
{
    lemma_differing(state.inherited, state.mirror->Some_0.0, state.source->Some_0.0);
}

/// Samples too far apart are not compared: the verdict stands, and the gap is
/// still reported.
pub proof fn law_distant_samples_leave_the_verdict(state: StateView)
    requires
        state.mirror is Some,
        state.source is Some,
        distance(state.mirror->Some_0.1, state.source->Some_0.1) > state.window,
    ensures
        state.compared().is_valid == state.is_valid,
        state.compared().mismatched == state.mismatched,
        state.compared().misses == state.misses,
        state.compared().delta == distance(state.mirror->Some_0.1, state.source->Some_0.1),
{
}

/// The state of one mirror after a list of samples.
pub open spec fn after_samples(state: StateView, samples: Seq<(bool, Seq<u8>, i64)>) -> StateView
    decreases samples.len(),
{
    if samples.len() == 0 {
        state
    } else {
        after_samples(state, samples.drop_last()).recorded(
            samples.last().0,
            samples.last().1,
            samples.last().2,
        )
    }
}

/// A mirror reads as invalid only while at least [`MISMATCH_LATCH`] comparisons
/// in a row have failed: whatever samples came, an invalid verdict stands with
/// the count at the latch, and the count is at most the latch.
pub proof fn law_invalid_means_latched(state: StateView, samples: Seq<(bool, Seq<u8>, i64)>)
    requires
        state == state.cleared(),
    ensures
        after_samples(state, samples).misses <= MISMATCH_LATCH,
        after_samples(state, samples).is_valid == Some(false) ==> after_samples(
            state,
            samples,
        ).misses == MISMATCH_LATCH,
    decreases samples.len(),
{
    if samples.len() > 0 {
        law_invalid_means_latched(state, samples.drop_last());
    }
}

/// One failed comparison more than allowed is what it takes: from any state, a
/// comparison that fails raises the count by one until the latch, and one that
/// succeeds sets it back.
pub proof fn law_failures_are_counted_in_a_row(state: StateView)
    requires
        state.mirror is Some,
        state.source is Some,
        distance(state.mirror->Some_0.1, state.source->Some_0.1) <= state.window,
        state.misses < MISMATCH_LATCH,
    ensures
        state.compared().misses == if state.compared().mismatched.len() == 0 {
            0
        } else {
            state.misses + 1
        },
        state.compared().misses < MISMATCH_LATCH && state.compared().misses > 0
            ==> state.compared().is_valid == state.is_valid,
{
}

proof fn lemma_sample_keeps_setup(
    states: Seq<(u32, StateView)>,
    id: u32,
    is_mirror: bool,
    bytes: Seq<u8>,
    t: i64,
)
    ensures
        with_sample(states, id, is_mirror, bytes, t).map_values(
            |e: (u32, StateView)| (e.0, e.1.cleared()),
        ) == states.map_values(|e: (u32, StateView)| (e.0, e.1.cleared())),
{
    lemma_state_place(states, id, 0);
    let clear = |e: (u32, StateView)| (e.0, e.1.cleared());
    let after = with_sample(states, id, is_mirror, bytes, t);
    assert(after.len() == states.len());
    assert forall|i: int| 0 <= i < states.len() implies #[trigger] after.map_values(clear)[i]
        == states.map_values(clear)[i] by {
        if state_place(states, id, 0) == Some(i) {
            assert(after[i].1 == states[i].1.recorded(is_mirror, bytes, t));
            assert(after[i].1.cleared() == states[i].1.cleared());
        }
    }
    assert(after.map_values(clear) == states.map_values(clear));
}

proof fn lemma_state_place(states: Seq<(u32, StateView)>, id: u32, from: int)
    ensures
        state_place(states, id, from) matches Some(i) ==> from <= i < states.len() && states[i].0
            == id,
    decreases states.len() - from,
{
    if 0 <= from < states.len() && states[from].0 != id {
        lemma_state_place(states, id, from + 1);
    }
}

proof fn lemma_source_keeps_setup(
    states: Seq<(u32, StateView)>,
    watchers: Seq<(u32, u32)>,
    source: u32,
    bytes: Seq<u8>,
    t: i64,
)
    ensures
        with_source_sample(states, watchers, source, bytes, t).map_values(
            |e: (u32, StateView)| (e.0, e.1.cleared()),
        ) == states.map_values(|e: (u32, StateView)| (e.0, e.1.cleared())),
    decreases watchers.len(),
{
    if watchers.len() > 0 {
        lemma_source_keeps_setup(states, watchers.drop_last(), source, bytes, t);
        let before = with_source_sample(states, watchers.drop_last(), source, bytes, t);
        if watchers.last().0 == source {
            lemma_sample_keeps_setup(before, watchers.last().1, false, bytes, t);
        }
    }
}

/// Resetting forgets every delivered frame: a tracker that saw one more resets to
/// the same.
pub proof fn law_resetting_forgets_what_was_observed(
    tracker: TrackerView,
    raw_id: u32,
    bytes: Seq<u8>,
    t: i64,
)
    ensures
        tracker.observed(raw_id, bytes, t).reset() == tracker.reset(),
{
    let id = crate::decode::under_mask(tracker.mask, raw_id);
    let first = with_sample(tracker.states, id, true, bytes, t);
    lemma_sample_keeps_setup(tracker.states, id, true, bytes, t);
    lemma_source_keeps_setup(first, tracker.watchers, id, bytes, t);
}

/// Whether each state is as before its first sample, and has a byte to compare.
spec fn all_fresh(states: Seq<(u32, StateView)>) -> bool {
    forall|i: int|
        0 <= i < states.len() ==> (#[trigger] states[i]).1 == states[i].1.cleared()
            && states[i].1.inherited.len() > 0
}

proof fn lemma_with_state_fresh(states: Seq<(u32, StateView)>, id: u32, state: StateView)
    requires
        all_fresh(states),
        state == state.cleared(),
        state.inherited.len() > 0,
    ensures
        all_fresh(with_state(states, id, state)),
    decreases states.len(),
{
    if states.len() > 0 && !(states.last().0 < id) && states.last().0 != id {
        let before = states.drop_last();
        assert forall|i: int| 0 <= i < before.len() implies (#[trigger] before[i]).1
            == before[i].1.cleared() && before[i].1.inherited.len() > 0 by {
            assert(before[i] == states[i]);
        }
        lemma_with_state_fresh(before, id, state);
        assert(states[states.len() - 1] == states.last());
    } else if states.len() > 0 && states.last().0 == id {
        let before = states.drop_last();
        assert forall|i: int| 0 <= i < before.len() implies (#[trigger] before[i]).1
            == before[i].1.cleared() && before[i].1.inherited.len() > 0 by {
            assert(before[i] == states[i]);
        }
    }
}

proof fn lemma_states_fresh(
    list: Seq<crate::model::FrameView>,
    frames: Seq<crate::model::FrameView>,
)
    ensures
        all_fresh(states_of(list, frames)),
    decreases list.len(),
{
    if list.len() > 0 {
        lemma_states_fresh(list.drop_last(), frames);
        let f = list.last();
        if is_comparable(f, frames) {
            let state = fresh_state(f, mirrored_frame(f, frames)->Some_0);
            assert(state == state.cleared());
            lemma_with_state_fresh(states_of(list.drop_last(), frames), f.frame_id, state);
        }
    }
}

/// No verdict is vacuous: every mirror that a catalogue's tracker follows has at
/// least one byte to compare, and starts with no verdict. Resetting a tracker that
/// saw nothing changes nothing.
pub proof fn law_tracked_mirrors_can_be_compared(catalog: crate::model::CatalogView, i: int)
    requires
        0 <= i < tracker_of(catalog).states.len(),
    ensures
        tracker_of(catalog).states[i].1.inherited.len() > 0,
        tracker_of(catalog).states[i].1.is_valid is None,
        tracker_of(catalog).reset() == tracker_of(catalog),
{
    lemma_states_fresh(catalog.frames, catalog.frames);
    let states = tracker_of(catalog).states;
    assert(tracker_of(catalog).reset().states == states);
}

/// How many comparisons in a row have failed after a list of samples. Samples too far
/// apart are not compared, and break no row.
pub open spec fn failures_in_a_row(state: StateView, samples: Seq<(bool, Seq<u8>, i64)>) -> int
    decreases samples.len(),
{
    if samples.len() == 0 {
        0
    } else {
        let before = failures_in_a_row(state, samples.drop_last());
        match after_samples(state, samples).newest_pair() {
            Some((m, s)) => if distance(m.1, s.1) > state.window {
                before
            } else if differing(state.inherited, m.0, s.0).len() == 0 {
                0
            } else {
                before + 1
            },
            None => before,
        }
    }
}

impl StateView {
    /// The newest samples of both sides, where both have come.
    pub open spec fn newest_pair(self) -> Option<((Seq<u8>, i64), (Seq<u8>, i64))> {
        match (self.mirror, self.source) {
            (Some(m), Some(s)) => Some((m, s)),
            _ => None,
        }
    }
}

proof fn lemma_misses_are_the_row(state: StateView, samples: Seq<(bool, Seq<u8>, i64)>)
    requires
        state == state.cleared(),
    ensures
        failures_in_a_row(state, samples) >= 0,
        after_samples(state, samples).window == state.window,
        after_samples(state, samples).inherited == state.inherited,
        after_samples(state, samples).misses == if failures_in_a_row(state, samples)
            < MISMATCH_LATCH {
            failures_in_a_row(state, samples)
        } else {
            MISMATCH_LATCH as int
        },
    decreases samples.len(),
{
    if samples.len() > 0 {
        lemma_misses_are_the_row(state, samples.drop_last());
    }
}

/// What every sample makes of a mirror's verdict, after any samples before it. Once
/// both sides have one, the gap between the newest is reported. Where it is above the
/// window the verdict stands; within it the bytes that differ are those inherited
/// ones in which the newest samples do, a match is valid at once, and a mismatch is
/// invalid where it is at least the [`MISMATCH_LATCH`]th comparison in a row that
/// failed, and otherwise leaves the verdict.
pub proof fn law_verdicts_follow_the_samples(
    state: StateView,
    samples: Seq<(bool, Seq<u8>, i64)>,
)
    requires
        state == state.cleared(),
        samples.len() > 0,
    ensures
        is_settled(
            after_samples(state, samples.drop_last()),
            after_samples(state, samples),
            state,
            samples,
        ),
{
    lemma_misses_are_the_row(state, samples.drop_last());
    lemma_misses_are_the_row(state, samples);
}

/// Whether no mirror is tracked twice.
pub open spec fn one_per_id(states: Seq<(u32, StateView)>) -> bool {
    forall|i: int, j: int|
        0 <= i < j < states.len() ==> (#[trigger] states[i]).0 < (#[trigger] states[j]).0
}

/// What a frame delivers to a mirror as samples of its source, one for each time the
/// mirror watches it.
pub open spec fn source_samples(
    watchers: Seq<(u32, u32)>,
    source: u32,
    mirror: u32,
    bytes: Seq<u8>,
    t: i64,
) -> Seq<(bool, Seq<u8>, i64)>
    decreases watchers.len(),
{
    if watchers.len() == 0 {
        Seq::empty()
    } else {
        let before = source_samples(watchers.drop_last(), source, mirror, bytes, t);
        if watchers.last() == (source, mirror) {
            before.push((false, bytes, t))
        } else {
            before
        }
    }
}

/// The samples that delivered frames, each with its id and time, bring to a mirror:
/// its own, then those of the source it watches.
pub open spec fn samples_for(
    tracker: TrackerView,
    mirror: u32,
    frames: Seq<(u32, Seq<u8>, i64)>,
) -> Seq<(bool, Seq<u8>, i64)>
    decreases frames.len(),
{
    if frames.len() == 0 {
        Seq::empty()
    } else {
        let f = frames.last();
        let id = crate::decode::under_mask(tracker.mask, f.0);
        let before = samples_for(tracker, mirror, frames.drop_last());
        let own = if id == mirror {
            before.push((true, f.1, f.2))
        } else {
            before
        };
        own + source_samples(tracker.watchers, id, mirror, f.1, f.2)
    }
}

/// A tracker after delivered frames.
pub open spec fn tracker_after(tracker: TrackerView, frames: Seq<(u32, Seq<u8>, i64)>) -> TrackerView
    decreases frames.len(),
{
    if frames.len() == 0 {
        tracker
    } else {
        tracker_after(tracker, frames.drop_last()).observed(
            frames.last().0,
            frames.last().1,
            frames.last().2,
        )
    }
}

proof fn lemma_no_place(states: Seq<(u32, StateView)>, id: u32, from: int, j: int)
    requires
        0 <= from <= j < states.len(),
        states[j].0 == id,
    ensures
        state_place(states, id, from) is Some,
    decreases states.len() - from,
{
    if states[from].0 != id {
        lemma_no_place(states, id, from + 1, j);
    }
}

proof fn lemma_sample_reaches_one(
    states: Seq<(u32, StateView)>,
    id: u32,
    is_mirror: bool,
    bytes: Seq<u8>,
    t: i64,
)
    requires
        one_per_id(states),
    ensures
        with_sample(states, id, is_mirror, bytes, t).len() == states.len(),
        one_per_id(with_sample(states, id, is_mirror, bytes, t)),
        forall|i: int|
            0 <= i < states.len() ==> #[trigger] with_sample(states, id, is_mirror, bytes, t)[i]
                == (
                states[i].0,
                if states[i].0 == id {
                    states[i].1.recorded(is_mirror, bytes, t)
                } else {
                    states[i].1
                },
            ),
{
    lemma_state_place(states, id, 0);
    let after = with_sample(states, id, is_mirror, bytes, t);
    assert forall|i: int| 0 <= i < states.len() implies #[trigger] after[i] == (
        states[i].0,
        if states[i].0 == id {
            states[i].1.recorded(is_mirror, bytes, t)
        } else {
            states[i].1
        },
    ) by {
        if states[i].0 == id {
            lemma_no_place(states, id, 0, i);
            let p = state_place(states, id, 0)->Some_0;
            if p < i {
                assert(states[p].0 < states[i].0);
            } else if i < p {
                assert(states[i].0 < states[p].0);
            }
        }
    }
    assert forall|i: int, j: int| 0 <= i < j < after.len() implies (#[trigger] after[i]).0 < (
    #[trigger] after[j]).0 by {
        assert(states[i].0 < states[j].0);
    }
}

proof fn lemma_source_reaches_watchers(
    states: Seq<(u32, StateView)>,
    watchers: Seq<(u32, u32)>,
    source: u32,
    bytes: Seq<u8>,
    t: i64,
    i: int,
)
    requires
        one_per_id(states),
        0 <= i < states.len(),
    ensures
        with_source_sample(states, watchers, source, bytes, t).len() == states.len(),
        one_per_id(with_source_sample(states, watchers, source, bytes, t)),
        with_source_sample(states, watchers, source, bytes, t)[i] == (
            states[i].0,
            after_samples(
                states[i].1,
                source_samples(watchers, source, states[i].0, bytes, t),
            ),
        ),
    decreases watchers.len(),
{
    if watchers.len() > 0 {
        let front = watchers.drop_last();
        lemma_source_reaches_watchers(states, front, source, bytes, t, i);
        let before = with_source_sample(states, front, source, bytes, t);
        let so_far = source_samples(front, source, states[i].0, bytes, t);
        if watchers.last().0 == source {
            lemma_sample_reaches_one(before, watchers.last().1, false, bytes, t);
            assert(so_far.push((false, bytes, t)).drop_last() == so_far);
        }
    }
}

proof fn lemma_samples_in_parts(
    state: StateView,
    a: Seq<(bool, Seq<u8>, i64)>,
    b: Seq<(bool, Seq<u8>, i64)>,
)
    ensures
        after_samples(state, a + b) == after_samples(after_samples(state, a), b),
    decreases b.len(),
{
    if b.len() == 0 {
        assert(a + b == a);
    } else {
        lemma_samples_in_parts(state, a, b.drop_last());
        assert((a + b).drop_last() == a + b.drop_last());
    }
}

/// Delivering frames records samples: each tracked mirror stands as the frames with its
/// own id and those with its source's, in order, have left it, and no other frame
/// touches it.
pub proof fn law_observing_records_the_samples(
    tracker: TrackerView,
    frames: Seq<(u32, Seq<u8>, i64)>,
    i: int,
)
    requires
        one_per_id(tracker.states),
        0 <= i < tracker.states.len(),
    ensures
        one_per_id(tracker_after(tracker, frames).states),
        tracker_after(tracker, frames).states.len() == tracker.states.len(),
        tracker_after(tracker, frames).mask == tracker.mask,
        tracker_after(tracker, frames).watchers == tracker.watchers,
        tracker_after(tracker, frames).states[i] == (
            tracker.states[i].0,
            after_samples(
                tracker.states[i].1,
                samples_for(tracker, tracker.states[i].0, frames),
            ),
        ),
    decreases frames.len(),
{
    if frames.len() > 0 {
        let f = frames.last();
        let id = crate::decode::under_mask(tracker.mask, f.0);
        let mirror = tracker.states[i].0;
        law_observing_records_the_samples(tracker, frames.drop_last(), i);
        let states = tracker_after(tracker, frames.drop_last()).states;
        lemma_sample_reaches_one(states, id, true, f.1, f.2);
        let first = with_sample(states, id, true, f.1, f.2);
        lemma_source_reaches_watchers(first, tracker.watchers, id, f.1, f.2, i);
        let before = samples_for(tracker, mirror, frames.drop_last());
        let own = if id == mirror {
            before.push((true, f.1, f.2))
        } else {
            before
        };
        assert(before.push((true, f.1, f.2)).drop_last() == before);
        lemma_samples_in_parts(
            tracker.states[i].1,
            own,
            source_samples(tracker.watchers, id, mirror, f.1, f.2),
        );
    }
}

proof fn lemma_with_state_distinct(states: Seq<(u32, StateView)>, id: u32, state: StateView)
    requires
        one_per_id(states),
    ensures
        one_per_id(with_state(states, id, state)),
        forall|i: int|
            0 <= i < with_state(states, id, state).len() ==> (#[trigger] with_state(
                states,
                id,
                state,
            )[i]) == (id, state) || states.contains(with_state(states, id, state)[i]),
    decreases states.len(),
{
    let after = with_state(states, id, state);
    if states.len() > 0 && !(states.last().0 < id) && states.last().0 != id {
        let front = states.drop_last();
        lemma_with_state_distinct(front, id, state);
        let rest = with_state(front, id, state);
        assert forall|i: int| 0 <= i < rest.len() implies (#[trigger] rest[i]).0
            < states.last().0 && (rest[i] == (id, state) || states.contains(rest[i])) by {
            if rest[i] != (id, state) {
                let j = choose|j: int| 0 <= j < front.len() && front[j] == rest[i];
                assert(states[j] == rest[i]);
                assert(states[j].0 < states[states.len() - 1].0);
            }
        }
        assert forall|i: int, j: int| 0 <= i < j < after.len() implies (#[trigger] after[i]).0 < (
        #[trigger] after[j]).0 by {
            assert(after[i] == rest[i]);
            if j < rest.len() {
                assert(after[j] == rest[j]);
            }
        }
        assert(states[states.len() - 1] == after.last());
    } else {
        assert forall|i: int| 0 <= i < after.len() - 1 implies (#[trigger] after[i]).0 < id
            && states.contains(after[i]) by {
            assert(after[i] == states[i]);
            assert(states[i].0 < states[states.len() - 1].0 || i == states.len() - 1);
        }
        assert forall|i: int, j: int| 0 <= i < j < after.len() implies (#[trigger] after[i]).0 < (
        #[trigger] after[j]).0 by {
            if j < after.len() - 1 {
                assert(states[i].0 < states[j].0);
            }
        }
    }
}

/// A catalogue's tracker follows each mirror once, as one of the catalogue's frames
/// describes it: the window is twice the interval of its source, or of
/// [`DEFAULT_INTERVAL_MS`] where the source has none.
pub proof fn law_trackers_follow_the_catalogue(
    list: Seq<crate::model::FrameView>,
    frames: Seq<crate::model::FrameView>,
)
    ensures
        one_per_id(states_of(list, frames)),
        forall|i: int|
            0 <= i < states_of(list, frames).len() ==> exists|k: int|
                0 <= k < list.len() && is_comparable(#[trigger] list[k], frames) && (
                #[trigger] states_of(list, frames)[i]) == (
                    list[k].frame_id,
                    fresh_state(list[k], mirrored_frame(list[k], frames)->Some_0),
                ),
    decreases list.len(),
{
    if list.len() > 0 {
        let front = list.drop_last();
        let f = list.last();
        law_trackers_follow_the_catalogue(front, frames);
        let before = states_of(front, frames);
        let after = states_of(list, frames);
        let made = (f.frame_id, fresh_state(f, mirrored_frame(f, frames)->Some_0));
        if is_comparable(f, frames) {
            lemma_with_state_distinct(before, made.0, made.1);
        }
        assert forall|i: int| 0 <= i < after.len() implies exists|k: int|
            0 <= k < list.len() && is_comparable(#[trigger] list[k], frames) && (
            #[trigger] after[i]) == (
                list[k].frame_id,
                fresh_state(list[k], mirrored_frame(list[k], frames)->Some_0),
            ) by {
            if is_comparable(f, frames) && after[i] == made {
                assert(is_comparable(list[list.len() - 1], frames));
            } else {
                assert(before.contains(after[i]));
                let j = choose|j: int| 0 <= j < before.len() && before[j] == after[i];
                let k = choose|k: int|
                    0 <= k < front.len() && is_comparable(#[trigger] front[k], frames)
                        && before[j] == (
                        front[k].frame_id,
                        fresh_state(front[k], mirrored_frame(front[k], frames)->Some_0),
                    );
                assert(list[k] == front[k]);
            }
        }
    }
}

proof fn lemma_same_bytes_agree(indices: Seq<usize>, bytes: Seq<u8>)
    ensures
        differing(indices, bytes, bytes).len() == 0,
    decreases indices.len(),
{
    if indices.len() > 0 {
        lemma_same_bytes_agree(indices.drop_last(), bytes);
    }
}

/// What samples make of a mirror's verdict, against what it was before the last of them
/// came.
pub open spec fn is_settled(
    before: StateView,
    after: StateView,
    state: StateView,
    samples: Seq<(bool, Seq<u8>, i64)>,
) -> bool {
    match after.newest_pair() {
        Some((m, s)) => {
            let mismatched = differing(state.inherited, m.0, s.0);
            &&& after.delta == distance(m.1, s.1)
            &&& distance(m.1, s.1) > state.window ==> after.is_valid == before.is_valid
                && after.mismatched == before.mismatched
            &&& distance(m.1, s.1) <= state.window ==> {
                &&& after.mismatched == mismatched
                &&& mismatched.len() == 0 ==> after.is_valid == Some(true)
                &&& mismatched.len() > 0 && failures_in_a_row(state, samples) >= MISMATCH_LATCH
                    ==> after.is_valid == Some(false)
                &&& mismatched.len() > 0 && failures_in_a_row(state, samples) < MISMATCH_LATCH
                    ==> after.is_valid == before.is_valid
            }
        },
        None => after.is_valid == before.is_valid && after.mismatched == before.mismatched,
    }
}

/// Samples of the source alone settle a verdict, however often each comes.
proof fn lemma_sources_settle(
    state: StateView,
    earlier: Seq<(bool, Seq<u8>, i64)>,
    watchers: Seq<(u32, u32)>,
    source: u32,
    mirror: u32,
    bytes: Seq<u8>,
    t: i64,
)
    requires
        state == state.cleared(),
        source_samples(watchers, source, mirror, bytes, t).len() > 0,
    ensures
        ({
            let samples = earlier + source_samples(watchers, source, mirror, bytes, t);
            let before = after_samples(state, earlier);
            let after = after_samples(state, samples);
            &&& after.source == Some((bytes, t))
            &&& after.mirror == before.mirror
            &&& is_settled(before, after, state, samples)
        }),
    decreases watchers.len(),
{
    let front = watchers.drop_last();
    let less = source_samples(front, source, mirror, bytes, t);
    let all = source_samples(watchers, source, mirror, bytes, t);
    if watchers.last() == (source, mirror) {
        assert(all == less.push((false, bytes, t)));
        assert((earlier + all).drop_last() == earlier + less);
        assert((earlier + all).last() == (false, bytes, t));
        law_verdicts_follow_the_samples(state, earlier + all);
        lemma_misses_are_the_row(state, earlier + less);
        if less.len() > 0 {
            lemma_sources_settle(state, earlier, front, source, mirror, bytes, t);
        } else {
            assert(earlier + less == earlier);
        }
    } else {
        lemma_sources_settle(state, earlier, front, source, mirror, bytes, t);
    }
}

proof fn lemma_watched(watchers: Seq<(u32, u32)>, source: u32, mirror: u32, bytes: Seq<u8>, t: i64)
    ensures
        watchers.contains((source, mirror)) <==> source_samples(
            watchers,
            source,
            mirror,
            bytes,
            t,
        ).len() > 0,
    decreases watchers.len(),
{
    if watchers.len() > 0 {
        let front = watchers.drop_last();
        lemma_watched(front, source, mirror, bytes, t);
        if front.contains((source, mirror)) {
            let k = choose|k: int| 0 <= k < front.len() && front[k] == (source, mirror);
            assert(watchers[k] == (source, mirror));
        }
        assert(watchers[watchers.len() - 1] == watchers.last());
        if watchers.contains((source, mirror)) && watchers.last() != (source, mirror) {
            let k = choose|k: int| 0 <= k < watchers.len() && watchers[k] == (source, mirror);
            assert(front[k] == (source, mirror));
        }
    }
}

/// What a delivered frame makes of the verdict on a mirror of a catalogue, after any
/// frames before it. A frame that is one side of the mirror settles it: once both sides
/// have been seen the gap between the newest is reported; above twice the interval of
/// the source (or of [`DEFAULT_INTERVAL_MS`]) the verdict stands; within it the bytes
/// that differ are the inherited ones in which the newest samples do, none makes the
/// mirror valid, and some make it invalid where this is at least the
/// [`MISMATCH_LATCH`]th comparison in a row that failed, and otherwise leave the
/// verdict. A frame that is neither side changes nothing.
pub proof fn law_observing_settles_the_verdict(
    catalog: crate::model::CatalogView,
    frames: Seq<(u32, Seq<u8>, i64)>,
    i: int,
)
    requires
        frames.len() > 0,
        0 <= i < tracker_of(catalog).states.len(),
    ensures
        ({
            let tracker = tracker_of(catalog);
            let mirror = tracker.states[i].0;
            let state = tracker.states[i].1;
            let id = crate::decode::under_mask(tracker.mask, frames.last().0);
            let before = tracker_after(tracker, frames.drop_last()).states[i];
            let after = tracker_after(tracker, frames).states[i];
            &&& exists|k: int|
                0 <= k < catalog.frames.len() && is_comparable(
                    #[trigger] catalog.frames[k],
                    catalog.frames,
                ) && tracker.states[i] == (
                    catalog.frames[k].frame_id,
                    fresh_state(
                        catalog.frames[k],
                        mirrored_frame(catalog.frames[k], catalog.frames)->Some_0,
                    ),
                )
            &&& before.0 == mirror && after.0 == mirror
            &&& id == mirror || tracker.watchers.contains((id, mirror)) ==> is_settled(
                before.1,
                after.1,
                state,
                samples_for(tracker, mirror, frames),
            )
            &&& id != mirror && !tracker.watchers.contains((id, mirror)) ==> after == before
        }),
{
    let tracker = tracker_of(catalog);
    let mirror = tracker.states[i].0;
    let state = tracker.states[i].1;
    let f = frames.last();
    let id = crate::decode::under_mask(tracker.mask, f.0);
    law_trackers_follow_the_catalogue(catalog.frames, catalog.frames);
    assert(tracker.states[i] == states_of(catalog.frames, catalog.frames)[i]);
    lemma_states_fresh(catalog.frames, catalog.frames);
    law_observing_records_the_samples(tracker, frames.drop_last(), i);
    law_observing_records_the_samples(tracker, frames, i);
    lemma_watched(tracker.watchers, id, mirror, f.1, f.2);
    let earlier = samples_for(tracker, mirror, frames.drop_last());
    let watched = source_samples(tracker.watchers, id, mirror, f.1, f.2);
    let all = samples_for(tracker, mirror, frames);
    if id == mirror {
        let own = earlier.push((true, f.1, f.2));
        assert(all == own + watched);
        assert(own.drop_last() == earlier);
        law_verdicts_follow_the_samples(state, own);
        if watched.len() == 0 {
            assert(own + watched == own);
        } else {
            lemma_sources_settle(state, own, tracker.watchers, id, mirror, f.1, f.2);
            lemma_same_bytes_agree(state.inherited, f.1);
            lemma_misses_are_the_row(state, own);
        }
    } else if watched.len() > 0 {
        assert(all == earlier + watched);
        lemma_sources_settle(state, earlier, tracker.watchers, id, mirror, f.1, f.2);
    } else {
        assert(earlier + watched == earlier);
    }
}

} // verus!
