//! Time-window based audio merger for multi-source capture.
//!
//! The merger aligns audio chunks from multiple sources by timestamp, grouping them into
//! windows and combining samples when all sources have contributed to a window.
use crate::chunk::ChunkModel;
use crate::event;
use crate::format::convert;
use crate::pipeline::ring_buffer;
use crate::pipeline::ring_buffer::samples_in_duration;
use crate::source::source_id::clone_ids;
use crate::source::SourceId;
use crate::time;
use crate::time::{Clock, Duration};
use crate::{AudioChunk, StreamEvent};
use std::collections::HashMap;
use std::sync::Arc;
use std::time::Instant;
use vstd::prelude::*;

verus! {

broadcast use vstd::std_specs::hash::group_hash_axioms;

/// A window that waits for chunks.
pub ghost struct WindowModel {
    /// The chunks that have arrived, at most one for each source.
    pub chunks: Seq<AudioChunk>,
    /// Where the window starts, in nanoseconds.
    pub timestamp: nat,
    /// When the first of its chunks arrived, in nanoseconds since the merger was made.
    pub created: nat,
}

/// The settings of a merger and the windows that it holds.
pub ghost struct MergerModel {
    /// The length of a window in nanoseconds.
    pub window_duration: nat,
    /// How long a window waits, in nanoseconds.
    pub window_timeout: nat,
    /// The sources that a complete window has.
    pub expected: Seq<Seq<char>>,
    /// Frames per second of generated silence.
    pub sample_rate: nat,
    /// Samples per frame of generated silence.
    pub channels: nat,
    /// How many windows may wait.
    pub max_pending: nat,
    /// The waiting windows.
    pub pending: Map<u64, WindowModel>,
    /// The moment at which the merger was made, from which it counts time.
    pub epoch: Instant,
}

/// What a merge gives.
pub ghost struct ResultModel {
    /// The merged chunk.
    pub chunk: ChunkModel,
    /// The window.
    pub window_id: u64,
    /// The sources that it lacked.
    pub missing: Seq<Seq<char>>,
}

/// Whole milliseconds in 64 bits.
pub open spec fn millis(nanos: nat) -> nat {
    (nanos / 1_000_000) % 0x1_0000_0000_0000_0000
}

/// The window that a moment lies in.
pub open spec fn window_at(timestamp: nat, window_duration: nat) -> u64 {
    (millis(timestamp) / millis(window_duration)) as u64
}

/// The source of a chunk that has one.
pub open spec fn source_of(chunk: AudioChunk) -> Seq<char> {
    chunk.source_id->0@
}

/// Whether a source has contributed.
pub open spec fn contributed(chunks: Seq<AudioChunk>, id: Seq<char>) -> bool {
    exists|i: int| 0 <= i < chunks.len() && #[trigger] source_of(chunks[i]) == id
}

/// The place of a source's chunk.
pub open spec fn place_of(chunks: Seq<AudioChunk>, id: Seq<char>) -> int {
    choose|i: int| 0 <= i < chunks.len() && #[trigger] source_of(chunks[i]) == id
}

/// The chunks of a window with one more, which replaces an earlier one of its source.
pub open spec fn with_chunk(chunks: Seq<AudioChunk>, chunk: AudioChunk) -> Seq<AudioChunk> {
    if contributed(chunks, source_of(chunk)) {
        chunks.update(place_of(chunks, source_of(chunk)), chunk)
    } else {
        chunks.push(chunk)
    }
}

/// The expected sources that have not contributed.
pub open spec fn missing_sources(expected: Seq<Seq<char>>, chunks: Seq<AudioChunk>) -> Seq<
    Seq<char>,
> {
    expected.filter(|id: Seq<char>| !contributed(chunks, id))
}

/// Whether all expected sources have contributed.
pub open spec fn is_covered(expected: Seq<Seq<char>>, chunks: Seq<AudioChunk>) -> bool {
    forall|i: int| 0 <= i < expected.len() ==> #[trigger] contributed(chunks, expected[i])
}

/// A sample of a chunk; silence after its end.
pub open spec fn sample_or_silence(chunk: AudioChunk, i: int) -> int {
    if i < chunk.samples@.len() {
        chunk.samples@[i] as int
    } else {
        0
    }
}

/// The sum of the chunks' samples at one place.
pub open spec fn mixed_sum(chunks: Seq<AudioChunk>, i: int) -> int
    decreases chunks.len(),
{
    if chunks.len() == 0 {
        0
    } else {
        mixed_sum(chunks.drop_last(), i) + sample_or_silence(chunks.last(), i)
    }
}

/// The number that a sum is divided by: missing sources count as silence.
pub open spec fn mix_divisor(chunks: Seq<AudioChunk>, expected: nat) -> nat {
    if chunks.len() < expected {
        expected
    } else {
        chunks.len()
    }
}

/// The average of the chunks, as long as the first of them.
pub open spec fn mixed_samples(chunks: Seq<AudioChunk>, expected: nat) -> Seq<i16> {
    Seq::new(
        chunks[0].samples@.len(),
        |i: int|
            convert::truncated_quotient(
                mixed_sum(chunks, i),
                mix_divisor(chunks, expected) as int,
            ) as i16,
    )
}

impl MergerModel {
    /// The chunk that a window's chunks make; a window of silence where there are none.
    pub open spec fn merged(self, chunks: Seq<AudioChunk>, timestamp: nat) -> ChunkModel {
        if chunks.len() == 0 {
            ChunkModel {
                samples: Seq::new(
                    ring_buffer::samples_in(self.sample_rate, self.channels, self.window_duration),
                    |i: int| 0i16,
                ),
                timestamp,
                sample_rate: self.sample_rate,
                channels: self.channels,
                source_id: None,
            }
        } else {
            ChunkModel {
                samples: mixed_samples(chunks, self.expected.len()),
                timestamp,
                sample_rate: chunks[0].sample_rate as nat,
                channels: chunks[0].channels as nat,
                source_id: None,
            }
        }
    }

    /// What a window gives when it is emitted.
    pub open spec fn result(self, id: u64, window: WindowModel) -> ResultModel {
        ResultModel {
            chunk: self.merged(window.chunks, window.timestamp),
            window_id: id,
            missing: missing_sources(self.expected, window.chunks),
        }
    }

    /// The results of some waiting windows.
    pub open spec fn results(self, ids: Seq<u64>) -> Seq<ResultModel> {
        ids.map_values(|id: u64| self.result(id, self.pending[id]))
    }

    /// The merger without some of its windows.
    pub open spec fn without(self, ids: Seq<u64>) -> MergerModel {
        MergerModel { pending: self.pending.remove_keys(ids.to_set()), ..self }
    }

    /// The chunks of the window that a chunk falls into, with the chunk among them.
    pub open spec fn chunks_with(self, chunk: AudioChunk) -> Seq<AudioChunk> {
        let id = window_at(chunk.timestamp@, self.window_duration);
        if self.pending.contains_key(id) {
            with_chunk(self.pending[id].chunks, chunk)
        } else {
            seq![chunk]
        }
    }

    /// The window that a chunk falls into, with the chunk in it; a new one has waited since
    /// `now`.
    pub open spec fn window_with(self, chunk: AudioChunk, now: nat) -> WindowModel {
        let id = window_at(chunk.timestamp@, self.window_duration);
        if self.pending.contains_key(id) {
            WindowModel { chunks: self.chunks_with(chunk), ..self.pending[id] }
        } else {
            WindowModel {
                chunks: self.chunks_with(chunk),
                timestamp: window_start(id, self.window_duration),
                created: now,
            }
        }
    }

    /// Whether a chunk is the last that its window waits for.
    pub open spec fn completed_by(self, chunk: AudioChunk) -> bool {
        is_covered(self.expected, self.chunks_with(chunk))
    }

    /// The merger once a chunk is in its window, and the window is gone if that completes
    /// it.
    pub open spec fn with_added(self, chunk: AudioChunk, now: nat) -> MergerModel {
        let id = window_at(chunk.timestamp@, self.window_duration);
        MergerModel {
            pending: if self.completed_by(chunk) {
                self.pending.remove(id)
            } else {
                self.pending.insert(id, self.window_with(chunk, now))
            },
            ..self
        }
    }

    /// What comes of the window that a chunk completes.
    pub open spec fn completed_results(self, chunk: AudioChunk, now: nat) -> Seq<ResultModel> {
        if self.completed_by(chunk) {
            seq![
                self.result(
                    window_at(chunk.timestamp@, self.window_duration),
                    self.window_with(chunk, now),
                ),
            ]
        } else {
            Seq::empty()
        }
    }

    /// Whether every waiting window waits for something.
    pub open spec fn all_waiting(self) -> bool {
        forall|id: u64| #[trigger]
            self.pending.contains_key(id) ==> !is_covered(self.expected, self.pending[id].chunks)
    }

    /// Whether adding a chunk that arrives at `now` may give these results and leave the
    /// merger so.
    pub open spec fn may_add(
        self,
        chunk: AudioChunk,
        now: nat,
        results: Seq<ResultModel>,
        after: MergerModel,
    ) -> bool {
        if chunk.source_id is None {
            results.len() == 0 && after == self
        } else {
            exists|ids: Seq<u64>| #[trigger]
                self.with_added(chunk, now).evicts(ids) && results == self.completed_results(
                    chunk,
                    now,
                ) + self.with_added(chunk, now).results(ids) && after == self.with_added(
                    chunk,
                    now,
                ).without(ids)
        }
    }

    /// Whether `ids` are the windows that have to go: the oldest, oldest first, and as many
    /// as there are too many.
    pub open spec fn evicts(self, ids: Seq<u64>) -> bool {
        &&& forall|i: int, j: int| 0 <= i < j < ids.len() ==> ids[i] < ids[j]
        &&& forall|i: int| 0 <= i < ids.len() ==> self.pending.contains_key(#[trigger] ids[i])
        &&& forall|i: int, k: u64|
            #![trigger ids[i], self.pending.contains_key(k)]
            0 <= i < ids.len() && self.pending.contains_key(k) && !ids.contains(k) ==> ids[i] < k
        &&& ids.len() == if self.pending.dom().len() > self.max_pending {
            self.pending.dom().len() - self.max_pending
        } else {
            0
        }
    }
}

/// Whether a window has waited for the timeout or longer.
pub open spec fn is_due(window: WindowModel, now: nat, timeout: nat) -> bool {
    timeout == 0 || now >= window.created + timeout
}

impl MergerModel {
    /// Whether `ids` are the windows that have waited for the timeout or longer, in some
    /// order.
    pub open spec fn lists_due(self, ids: Seq<u64>, now: nat) -> bool {
        &&& ids.no_duplicates()
        &&& forall|k: u64| #[trigger]
            ids.contains(k) <==> self.pending.contains_key(k) && is_due(
                self.pending[k],
                now,
                self.window_timeout,
            )
    }

    /// Whether emitting the windows that have waited long enough may give these results
    /// and leave the merger so.
    pub open spec fn may_emit(
        self,
        now: nat,
        results: Seq<ResultModel>,
        after: MergerModel,
    ) -> bool {
        exists|ids: Seq<u64>| #[trigger]
            self.lists_due(ids, now) && results == self.results(ids) && after == self.without(ids)
    }
}

/// A window awaiting completion.
struct PendingWindow {
    chunks: Vec<AudioChunk>,
    created_at: Duration,
    timestamp: Duration,
}

impl View for PendingWindow {
    type V = WindowModel;

    closed spec fn view(&self) -> WindowModel {
        WindowModel {
            chunks: self.chunks@,
            timestamp: self.timestamp@,
            created: self.created_at@,
        }
    }
}

/// Result of a merge operation.
#[derive(Debug)]
pub struct MergeResult {
    /// The merged audio chunk.
    pub chunk: AudioChunk,
    /// The window ID that was merged.
    pub window_id: u64,
    /// Sources that were missing from this window (filled with silence).
    pub missing: Vec<SourceId>,
}

impl View for MergeResult {
    type V = ResultModel;

    open spec fn view(&self) -> ResultModel {
        ResultModel {
            chunk: self.chunk@,
            window_id: self.window_id,
            missing: event::id_texts(self.missing@),
        }
    }
}

impl MergeResult {
    /// Returns true if this merge was complete (all sources present).
    pub fn is_complete(&self) -> (r: bool)
        ensures
            r == (self@.missing.len() == 0),
    {
        self.missing.len() == 0
    }

    /// The event that tells of an incomplete merge; none where it was complete.
    pub fn incomplete_event(&self) -> (r: Option<StreamEvent>)
        ensures
            match r {
                Some(event) => self@.missing.len() > 0 && event@ == (
                event::EventModel::MergeIncomplete {
                    window_id: self.window_id as nat,
                    missing: self@.missing,
                }),
                None => self@.missing.len() == 0,
            },
    {
        if self.is_complete() {
            None
        } else {
            Some(
                StreamEvent::MergeIncomplete {
                    window_id: self.window_id,
                    missing: clone_ids(&self.missing),
                },
            )
        }
    }
}

/// What some results hold.
pub open spec fn result_models(results: Seq<MergeResult>) -> Seq<ResultModel> {
    results.map_values(|r: MergeResult| r@)
}

/// Merges audio chunks from multiple sources by timestamp window.
///
/// Chunks are assigned to time windows based on their timestamp. When all expected sources
/// have contributed to a window, or its timeout expires, the merged chunk is emitted.
pub struct TimeWindowMerger {
    clock: Clock,
    window_duration: Duration,
    window_timeout: Duration,
    expected_sources: Vec<SourceId>,
    pending: HashMap<u64, PendingWindow>,
    sample_rate: u32,
    channels: u16,
    max_pending: usize,
}

impl View for TimeWindowMerger {
    type V = MergerModel;

    closed spec fn view(&self) -> MergerModel {
        MergerModel {
            window_duration: self.window_duration@,
            window_timeout: self.window_timeout@,
            expected: event::id_texts(self.expected_sources@),
            sample_rate: self.sample_rate as nat,
            channels: self.channels as nat,
            max_pending: self.max_pending as nat,
            pending: self.pending@.map_values(|w: PendingWindow| w@),
            epoch: self.clock.start(),
        }
    }
}

/// A window holds chunks, each with a source of its own.
pub open spec fn window_wf(window: WindowModel) -> bool {
    &&& window.chunks.len() > 0
    &&& forall|i: int|
        0 <= i < window.chunks.len() ==> (#[trigger] window.chunks[i]).source_id is Some
    &&& forall|i: int, j: int|
        0 <= i < j < window.chunks.len() ==> source_of(window.chunks[i]) != source_of(
            window.chunks[j],
        )
}

/// Where a window starts, in nanoseconds.
pub open spec fn window_start(id: u64, window_duration: nat) -> nat {
    (id * millis(window_duration) * 1_000_000) as nat
}

impl MergerModel {
    /// Windows last at least a millisecond, and the waiting ones, finite in number, are in
    /// order, start where they should and wait for something.
    pub open spec fn in_order(self) -> bool {
        &&& millis(self.window_duration) > 0
        &&& self.all_waiting()
        &&& self.pending.dom().finite()
        &&& forall|k: u64| self.pending.contains_key(k) ==> #[trigger] window_wf(self.pending[k])
        &&& forall|k: u64|
            self.pending.contains_key(k) ==> (#[trigger] self.pending[k]).timestamp
                == window_start(k, self.window_duration)
    }

    /// The waiting windows are in order and no more than may wait.
    pub open spec fn valid(self) -> bool {
        self.in_order() && self.pending.dom().len() <= self.max_pending
    }
}

/// Finds the smallest key.
fn oldest_key<V>(map: &HashMap<u64, V>) -> (r: Option<u64>)
    ensures
        map@.dom().len() == 0 ==> r is None,
        map@.dom().len() > 0 ==> r is Some && map@.contains_key(r->0) && forall|k: u64|
            map@.contains_key(k) ==> r->0 <= k,
{
    let mut best: Option<u64> = None;
    for key in iter: map.keys()
        invariant
            best is None <==> iter.index() == 0,
            best is Some ==> map@.contains_key(best->0),
            forall|i: int| 0 <= i < iter.index() ==> best->0 <= *#[trigger] iter.seq()[i],
    {
        match best {
            None => {
                best = Some(*key);
            },
            Some(b) => {
                if *key < b {
                    best = Some(*key);
                }
            },
        }
    }
    best
}

/// Lists the keys, in the order in which the map happens to be walked.
fn keys_of<V>(map: &HashMap<u64, V>) -> (r: Vec<u64>)
    ensures
        r@.no_duplicates(),
        forall|k: u64| map@.contains_key(k) <==> r@.contains(k),
{
    let mut r: Vec<u64> = Vec::new();
    for key in iter: map.keys()
        invariant
            r@.len() == iter.index(),
            forall|i: int| 0 <= i < r@.len() ==> #[trigger] r@[i] == *iter.seq()[i],
    {
        r.push(*key);
    }
    proof {
        let keys = vstd::std_specs::iter::IteratorSpec::remaining(
            &vstd::std_specs::hash::spec_keys_iter(map),
        ).unref();
        assert(r@ =~= keys);
        assert(keys.to_set() == map@.dom());
        assert forall|k: u64| map@.contains_key(k) <==> r@.contains(k) by {
            assert(map@.dom().contains(k) <==> keys.to_set().contains(k));
        }
    }
    r
}

/// Tells where the chunk of a source lies.
fn find_source(chunks: &Vec<AudioChunk>, id: &SourceId) -> (r: Option<usize>)
    requires
        forall|i: int| 0 <= i < chunks@.len() ==> (#[trigger] chunks@[i]).source_id is Some,
    ensures
        match r {
            Some(i) => i < chunks@.len() && source_of(chunks@[i as int]) == id@,
            None => !contributed(chunks@, id@),
        },
{
    let mut i: usize = 0;
    while i < chunks.len()
        invariant
            i <= chunks.len(),
            forall|j: int| 0 <= j < chunks@.len() ==> (#[trigger] chunks@[j]).source_id is Some,
            forall|j: int| 0 <= j < i ==> #[trigger] source_of(chunks@[j]) != id@,
        decreases chunks.len() - i,
    {
        match &chunks[i].source_id {
            Some(source) => {
                if *source == *id {
                    return Some(i);
                }
            },
            None => {},
        }
        i = i + 1;
    }
    None
}

/// A sum of samples is bounded by their number.
proof fn lemma_mixed_sum_bounds(chunks: Seq<AudioChunk>, i: int)
    requires
        i >= 0,
    ensures
        -32768 * chunks.len() <= mixed_sum(chunks, i) <= 32767 * chunks.len(),
    decreases chunks.len(),
{
    if chunks.len() > 0 {
        lemma_mixed_sum_bounds(chunks.drop_last(), i);
    }
}

/// Averaging cannot clip: no average leaves the range of a sample.
pub proof fn lemma_average_in_range(chunks: Seq<AudioChunk>, expected: nat, i: int)
    requires
        chunks.len() > 0,
        i >= 0,
    ensures
        -32768 <= convert::truncated_quotient(
            mixed_sum(chunks, i),
            mix_divisor(chunks, expected) as int,
        ) <= 32767,
{
    lemma_mixed_sum_bounds(chunks, i);
    let s = mixed_sum(chunks, i);
    let d = mix_divisor(chunks, expected) as int;
    let n = chunks.len() as int;
    if s >= 0 {
        assert(s / d <= 32767) by (nonlinear_arith)
            requires
                0 <= s <= 32767 * n,
                n <= d,
                d > 0,
        ;
        assert(s / d >= 0) by (nonlinear_arith)
            requires
                s >= 0,
                d > 0,
        ;
    } else {
        assert((-s) / d <= 32768) by (nonlinear_arith)
            requires
                0 <= -s <= 32768 * n,
                n <= d,
                d > 0,
        ;
        assert((-s) / d >= 0) by (nonlinear_arith)
            requires
                -s >= 0,
                d > 0,
        ;
    }
}

/// A result lacks no source exactly where its window was covered.
pub proof fn lemma_missing_none(expected: Seq<Seq<char>>, chunks: Seq<AudioChunk>)
    ensures
        missing_sources(expected, chunks).len() == 0 <==> is_covered(expected, chunks),
{
    let lacks = |id: Seq<char>| !contributed(chunks, id);
    expected.lemma_filter_len(lacks);
    if is_covered(expected, chunks) {
        if expected.filter(lacks).len() > 0 {
            expected.lemma_filter_pred(lacks, 0);
            expected.lemma_filter_contains_rev(lacks, expected.filter(lacks)[0]);
        }
    } else {
        let i = choose|i: int|
            0 <= i < expected.len() && !#[trigger] contributed(chunks, expected[i]);
        expected.lemma_filter_contains(lacks, i);
    }
}

impl TimeWindowMerger {
    /// The waiting windows are in order and no more than may wait.
    pub open spec fn wf(self) -> bool {
        self@.valid()
    }

    /// Creates a new merger with a custom max pending window limit.
    pub fn with_max_pending(
        window_duration: Duration,
        window_timeout: Duration,
        expected_sources: Vec<SourceId>,
        sample_rate: u32,
        channels: u16,
        max_pending: usize,
    ) -> (r: Self)
        requires
            millis(window_duration@) > 0,
        ensures
            r.wf(),
            r@ == (MergerModel {
                window_duration: window_duration@,
                window_timeout: window_timeout@,
                expected: event::id_texts(expected_sources@),
                sample_rate: sample_rate as nat,
                channels: channels as nat,
                max_pending: max_pending as nat,
                pending: Map::empty(),
                epoch: r@.epoch,
            }),
            time::is_now(r@.epoch),
    {
        let r = TimeWindowMerger {
            clock: Clock::new(),
            window_duration,
            window_timeout,
            expected_sources,
            pending: HashMap::new(),
            sample_rate,
            channels,
            max_pending,
        };
        assert(r@.pending =~= Map::empty());
        r
    }

    /// Whole milliseconds of a span, in 64 bits.
    fn whole_millis(duration: &Duration) -> (r: u64)
        ensures
            r == millis(duration@),
    {
        (duration.as_millis() % 0x1_0000_0000_0000_0000) as u64
    }

    /// Returns the window ID for a given timestamp.
    pub fn window_id_for_timestamp(&self, timestamp: Duration) -> (r: u64)
        requires
            self.wf(),
        ensures
            r == window_at(timestamp@, self@.window_duration),
            r * millis(self@.window_duration) <= millis(timestamp@),
    {
        let at: u64 = Self::whole_millis(&timestamp);
        let length: u64 = Self::whole_millis(&self.window_duration);
        proof {
            vstd::arithmetic::div_mod::lemma_fundamental_div_mod(at as int, length as int);
            let q = (at / length) as int;
            let l = length as int;
            assert(q * l == l * q) by (nonlinear_arith);
            vstd::arithmetic::div_mod::lemma_div_is_ordered_by_denominator(at as int, 1, l);
        }
        at / length
    }

    /// Checks if a window's chunks come from all expected sources.
    fn is_window_complete(&self, chunks: &Vec<AudioChunk>) -> (r: bool)
        requires
            forall|i: int| 0 <= i < chunks@.len() ==> (#[trigger] chunks@[i]).source_id is Some,
        ensures
            r == is_covered(self@.expected, chunks@),
    {
        let mut i: usize = 0;
        while i < self.expected_sources.len()
            invariant
                i <= self.expected_sources.len(),
                forall|j: int| 0 <= j < chunks@.len() ==> (#[trigger] chunks@[j]).source_id is Some,
                self@.expected == event::id_texts(self.expected_sources@),
                forall|j: int| 0 <= j < i ==> #[trigger] contributed(chunks@, self@.expected[j]),
            decreases self.expected_sources.len() - i,
        {
            match find_source(chunks, &self.expected_sources[i]) {
                Some(at) => {
                    assert(source_of(chunks@[at as int]) == self@.expected[i as int]);
                },
                None => {
                    assert(!contributed(chunks@, self@.expected[i as int]));
                    return false;
                },
            }
            i = i + 1;
        }
        true
    }

    /// Lists the expected sources that a window lacks.
    fn missing_from(&self, chunks: &Vec<AudioChunk>) -> (r: Vec<SourceId>)
        requires
            forall|i: int| 0 <= i < chunks@.len() ==> (#[trigger] chunks@[i]).source_id is Some,
        ensures
            event::id_texts(r@) == missing_sources(self@.expected, chunks@),
    {
        let mut missing: Vec<SourceId> = Vec::new();
        let mut i: usize = 0;
        let ghost lacks = |id: Seq<char>| !contributed(chunks@, id);
        assert(event::id_texts(missing@) =~= self@.expected.take(0).filter(lacks)) by {
            reveal(Seq::filter);
        }
        while i < self.expected_sources.len()
            invariant
                i <= self.expected_sources.len(),
                lacks == (|id: Seq<char>| !contributed(chunks@, id)),
                forall|j: int| 0 <= j < chunks@.len() ==> (#[trigger] chunks@[j]).source_id is Some,
                self@.expected == event::id_texts(self.expected_sources@),
                event::id_texts(missing@) == self@.expected.take(i as int).filter(lacks),
            decreases self.expected_sources.len() - i,
        {
            let ghost had = missing@;
            let ghost next = self@.expected.take(i + 1);
            match find_source(chunks, &self.expected_sources[i]) {
                Some(at) => {
                    assert(source_of(chunks@[at as int]) == self@.expected[i as int]);
                },
                None => {
                    missing.push(self.expected_sources[i].clone());
                },
            }
            proof {
                reveal(Seq::filter);
                assert(next.drop_last() =~= self@.expected.take(i as int));
                assert(next.last() == self.expected_sources@[i as int]@);
                assert(event::id_texts(missing@) =~= next.filter(lacks));
            }
            i = i + 1;
        }
        assert(self@.expected.take(i as int) =~= self@.expected);
        missing
    }

    /// Merges chunks from multiple sources into one using averaging.
    ///
    /// Averaging, not summing: the combined waveform cannot clip. The price is that the
    /// volume drops when a source is missing, since silence counts too.
    pub fn merge_chunks(&self, chunks: &Vec<AudioChunk>, timestamp: Duration) -> (r: AudioChunk)
        requires
            chunks@.len() == 0 ==> ring_buffer::frames_in(
                self@.sample_rate,
                self@.window_duration,
            ) <= usize::MAX && 2 * ring_buffer::samples_in(
                self@.sample_rate,
                self@.channels,
                self@.window_duration,
            ) <= isize::MAX,
        ensures
            r@ == self@.merged(chunks@, timestamp@),
    {
        if chunks.len() == 0 {
            let count: usize = samples_in_duration(
                self.sample_rate,
                self.channels,
                self.window_duration,
            );
            let silence: Vec<i16> = vec![0i16; count];
            let r = AudioChunk::new(silence, timestamp, self.sample_rate, self.channels);
            assert(r@.samples =~= self@.merged(chunks@, timestamp@).samples);
            return r;
        }
        let len: usize = chunks[0].samples.len();
        let expected: usize = self.expected_sources.len();
        let count: usize = if chunks.len() < expected {
            expected
        } else {
            chunks.len()
        };
        let ghost all = mixed_samples(chunks@, expected as nat);
        let mut samples: Vec<i16> = Vec::with_capacity(len);
        let mut i: usize = 0;
        while i < len
            invariant
                i <= len,
                chunks@.len() > 0,
                len == chunks@[0].samples@.len(),
                count == mix_divisor(chunks@, expected as nat),
                all == mixed_samples(chunks@, expected as nat),
                samples@ == all.take(i as int),
            decreases len - i,
        {
            let mut total: i128 = 0;
            let mut j: usize = 0;
            while j < chunks.len()
                invariant
                    j <= chunks.len(),
                    total == mixed_sum(chunks@.take(j as int), i as int),
                    -32768 * j <= total <= 32767 * j,
                decreases chunks.len() - j,
            {
                proof {
                    let next = chunks@.take(j + 1);
                    assert(next.drop_last() =~= chunks@.take(j as int));
                }
                if i < chunks[j].samples.len() {
                    total = total + chunks[j].samples[i] as i128;
                }
                j = j + 1;
            }
            proof {
                assert(chunks@.take(j as int) =~= chunks@);
                lemma_average_in_range(chunks@, expected as nat, i as int);
            }
            let average: i128 = if total >= 0 {
                total / count as i128
            } else {
                -((-total) / count as i128)
            };
            samples.push(average as i16);
            i = i + 1;
        }
        assert(all.take(i as int) =~= all);
        AudioChunk::from_arc(
            Arc::new(samples),
            timestamp,
            chunks[0].sample_rate,
            chunks[0].channels,
            None,
        )
    }

    /// The result of a window that is no longer waiting.
    fn result_of(&self, window_id: u64, window: &PendingWindow) -> (r: MergeResult)
        requires
            window_wf(window@),
        ensures
            r@ == self@.result(window_id, window@),
    {
        let missing = self.missing_from(&window.chunks);
        let chunk = self.merge_chunks(&window.chunks, window.timestamp);
        MergeResult { chunk, window_id, missing }
    }

    /// Emits a window (complete or timed out).
    fn emit_window(&mut self, window_id: u64) -> (r: Option<MergeResult>)
        requires
            old(self)@.in_order(),
        ensures
            final(self)@.in_order(),
            match r {
                Some(result) => {
                    &&& old(self)@.pending.contains_key(window_id)
                    &&& result@ == old(self)@.result(window_id, old(self)@.pending[window_id])
                    &&& final(self)@ == (MergerModel {
                        pending: old(self)@.pending.remove(window_id),
                        ..old(self)@
                    })
                },
                None => !old(self)@.pending.contains_key(window_id) && final(self)@ == old(self)@,
            },
    {
        let ghost before = self@;
        match self.pending.remove(&window_id) {
            Some(window) => {
                assert(self@.pending =~= before.pending.remove(window_id));
                assert(window@ == before.pending[window_id]);
                assert(before.pending.contains_key(window_id));
                assert(window_wf(window@));
                let result = self.result_of(window_id, &window);
                assert(self@.result(window_id, window@) == before.result(window_id, window@));
                Some(result)
            },
            None => {
                assert(self@.pending =~= before.pending);
                None
            },
        }
    }
}

/// Removing one more window.
proof fn lemma_without_push(m: MergerModel, ids: Seq<u64>, id: u64)
    ensures
        m.without(ids.push(id)).pending =~= m.without(ids).pending.remove(id),
{
    let more = ids.push(id);
    assert forall|k: u64| more.to_set().contains(k) <==> ids.to_set().insert(id).contains(k) by {
        if ids.contains(k) {
            let i = choose|i: int| 0 <= i < ids.len() && ids[i] == k;
            assert(more[i] == k);
        }
        if k == id {
            assert(more[ids.len() as int] == k);
        }
        if more.contains(k) && k != id {
            let i = choose|i: int| 0 <= i < more.len() && more[i] == k;
            assert(ids[i] == k);
        }
    }
}

/// The results of one more window.
proof fn lemma_results_push(
    m: MergerModel,
    ids: Seq<u64>,
    id: u64,
    results: Seq<MergeResult>,
    result: MergeResult,
)
    requires
        result_models(results) == m.results(ids),
        result@ == m.result(id, m.pending[id]),
    ensures
        result_models(results.push(result)) == m.results(ids.push(id)),
{
    assert(result_models(results.push(result)) =~= result_models(results).push(result@));
    assert(m.results(ids.push(id)) =~= m.results(ids).push(m.result(id, m.pending[id])));
}

/// Removing no window.
proof fn lemma_without_none(m: MergerModel)
    ensures
        m.without(Seq::empty()).pending =~= m.pending,
{
}

impl TimeWindowMerger {
    /// Evicts oldest windows if pending count exceeds `max_pending`.
    fn evict_excess_windows(&mut self) -> (r: Vec<MergeResult>)
        requires
            old(self)@.in_order(),
        ensures
            final(self).wf(),
            exists|ids: Seq<u64>| #[trigger]
                old(self)@.evicts(ids) && result_models(r@) == old(self)@.results(ids)
                    && final(self)@ == old(self)@.without(ids),
            final(self)@.pending.dom().len() <= old(self)@.max_pending,
    {
        let ghost before = self@;
        let ghost mut ids: Seq<u64> = Seq::empty();
        let mut results: Vec<MergeResult> = Vec::new();
        proof {
            lemma_without_none(before);
            assert(result_models(results@) =~= before.results(ids));
        }
        while self.pending.len() > self.max_pending
            invariant
                self@.in_order(),
                self@ == before.without(ids),
                self@.max_pending == before.max_pending,
                before.pending.dom().finite(),
                result_models(results@) == before.results(ids),
                self@.pending.dom().len() + ids.len() == before.pending.dom().len(),
                ids.len() == 0 || self@.pending.dom().len() >= before.max_pending,
                forall|i: int, j: int| 0 <= i < j < ids.len() ==> ids[i] < ids[j],
                forall|i: int|
                    0 <= i < ids.len() ==> before.pending.contains_key(#[trigger] ids[i]),
                forall|i: int, k: u64|
                    #![trigger ids[i], self@.pending.contains_key(k)]
                    0 <= i < ids.len() && self@.pending.contains_key(k) ==> ids[i] < k,
            decreases self@.pending.dom().len(),
        {
            let ghost now = self@;
            proof {
                assert(self.pending@.dom() =~= self@.pending.dom());
            }
            match oldest_key(&self.pending) {
                Some(oldest) => {
                    assert(now.pending.contains_key(oldest));
                    match self.emit_window(oldest) {
                        Some(result) => {
                            let ghost had = results@;
                            let ghost had_ids = ids;
                            results.push(result);
                            proof {
                                ids = ids.push(oldest);
                                lemma_without_push(before, had_ids, oldest);
                                assert(before.pending[oldest] == now.pending[oldest]);
                                assert(now.result(oldest, now.pending[oldest]) == before.result(
                                    oldest,
                                    before.pending[oldest],
                                ));
                                lemma_results_push(before, had_ids, oldest, had, result);
                                assert(self@.pending.dom() =~= now.pending.dom().remove(oldest));
                            }
                        },
                        None => {},
                    }
                },
                None => {},
            }
        }
        proof {
            assert(self.pending@.dom() =~= self@.pending.dom());
            assert forall|i: int, k: u64|
                #![trigger ids[i], before.pending.contains_key(k)]
                0 <= i < ids.len() && before.pending.contains_key(k) && !ids.contains(
                    k,
                ) implies ids[i] < k by {
                assert(self@.pending.contains_key(k));
            }
            assert(before.evicts(ids));
        }
        results
    }

    /// Adds a chunk to the merger.
    ///
    /// Returns merge results for any completed or evicted windows; none if still waiting
    /// for other sources. A chunk without a source is ignored: it leaves the merger as it
    /// was. The time at which the chunk arrives is what the clock says has passed since the
    /// merger was made.
    pub fn add_chunk(&mut self, chunk: &AudioChunk) -> (r: Vec<MergeResult>)
        requires
            old(self).wf(),
        ensures
            final(self).wf(),
            exists|now: nat|
                time::may_have_passed(old(self)@.epoch, now) && #[trigger] old(self)@.may_add(
                    *chunk,
                    now,
                    result_models(r@),
                    final(self)@,
                ),
            r@.len() <= 1,
    {
        let now = self.clock.now();
        let ghost before = self@;
        let r = self.add_chunk_at(chunk, now);
        assert(before.may_add(*chunk, now@, result_models(r@), self@));
        r
    }

    /// Adds a chunk that has arrived at a time.
    pub fn add_chunk_at(&mut self, chunk: &AudioChunk, now: Duration) -> (r: Vec<MergeResult>)
        requires
            old(self).wf(),
        ensures
            final(self).wf(),
            old(self)@.may_add(*chunk, now@, result_models(r@), final(self)@),
            r@.len() <= 1,
    {
        let ghost before = self@;
        let source_id: &SourceId = match &chunk.source_id {
            Some(id) => id,
            None => {
                let none: Vec<MergeResult> = Vec::new();
                assert(result_models(none@) =~= Seq::empty());
                return none;
            },
        };
        let window_id: u64 = self.window_id_for_timestamp(chunk.timestamp);
        let window: PendingWindow = match self.pending.remove(&window_id) {
            Some(mut window) => {
                assert(window@ == before.pending[window_id]);
                assert(before.pending.contains_key(window_id));
                assert(window_wf(window@));
                let ghost had = window@.chunks;
                match find_source(&window.chunks, source_id) {
                    Some(at) => {
                        window.chunks.set(at, chunk.clone());
                        proof {
                            assert(contributed(had, source_id@));
                            let place = place_of(had, source_id@);
                            assert(place == at);
                        }
                    },
                    None => {
                        window.chunks.push(chunk.clone());
                    },
                }
                assert(window@.chunks == with_chunk(had, *chunk));
                window
            },
            None => {
                let length: u64 = Self::whole_millis(&self.window_duration);
                let mut chunks: Vec<AudioChunk> = Vec::new();
                chunks.push(chunk.clone());
                assert(chunks@ =~= seq![*chunk]);
                PendingWindow {
                    chunks,
                    created_at: now,
                    timestamp: Duration::from_millis(window_id * length),
                }
            },
        };
        proof {
            assert(self@.pending =~= before.pending.remove(window_id));
            assert(window@ == before.window_with(*chunk, now@));
            assert(window_wf(window@));
        }
        let mut results: Vec<MergeResult> = Vec::new();
        if self.is_window_complete(&window.chunks) {
            let result = self.result_of(window_id, &window);
            results.push(result);
            proof {
                assert(result@ == before.result(window_id, window@));
                assert(self@.pending =~= before.with_added(*chunk, now@).pending);
            }
        } else {
            self.pending.insert(window_id, window);
            assert(self@.pending =~= before.with_added(*chunk, now@).pending);
        }
        proof {
            assert(result_models(results@) =~= before.completed_results(*chunk, now@));
            assert(self@ == before.with_added(*chunk, now@));
        }
        let ghost first = results@;
        let mut evicted = self.evict_excess_windows();
        let ghost second = evicted@;
        results.append(&mut evicted);
        proof {
            assert(result_models(results@) =~= result_models(first) + result_models(second));
        }
        results
    }

    /// Emits the windows that have waited for the timeout or longer at a time, in no
    /// particular order.
    pub fn emit_due(&mut self, now: Duration) -> (r: Vec<MergeResult>)
        requires
            old(self).wf(),
        ensures
            final(self).wf(),
            old(self)@.may_emit(now@, result_models(r@), final(self)@),
    {
        let ghost before = self@;
        let ids = keys_of(&self.pending);
        let ghost mut done: Seq<u64> = Seq::empty();
        let mut results: Vec<MergeResult> = Vec::new();
        let mut i: usize = 0;
        proof {
            assert(self.pending@.dom() =~= self@.pending.dom());
            lemma_without_none(before);
            assert(result_models(results@) =~= before.results(done));
        }
        while i < ids.len()
            invariant
                i <= ids.len(),
                self.wf(),
                self@ == before.without(done),
                self.window_timeout@ == before.window_timeout,
                ids@.no_duplicates(),
                forall|k: u64| before.pending.contains_key(k) <==> ids@.contains(k),
                done.no_duplicates(),
                forall|k: u64| #[trigger]
                    done.contains(k) <==> ids@.take(i as int).contains(k) && is_due(
                        before.pending[k],
                        now@,
                        before.window_timeout,
                    ),
                result_models(results@) == before.results(done),
            decreases ids.len() - i,
        {
            let id: u64 = ids[i];
            let ghost seen = ids@.take(i as int);
            let ghost next = ids@.take(i + 1);
            proof {
                assert(ids@.contains(id));
                assert(!seen.contains(id));
                assert(!done.contains(id));
                assert(self@.pending.contains_key(id));
                assert(self@.pending[id] == before.pending[id]);
                assert forall|k: u64| next.contains(k) <==> seen.contains(k) || k == id by {
                    if seen.contains(k) {
                        let at = choose|at: int| 0 <= at < seen.len() && seen[at] == k;
                        assert(next[at] == k);
                    }
                    assert(next[i as int] == id);
                    if next.contains(k) && k != id {
                        let at = choose|at: int| 0 <= at < next.len() && next[at] == k;
                        assert(seen[at] == k);
                    }
                }
            }
            let due: bool = match self.pending.get(&id) {
                Some(window) => {
                    assert(window@ == self@.pending[id]);
                    now.saturating_sub(&window.created_at).as_nanos()
                        >= self.window_timeout.as_nanos()
                },
                None => {
                    assert(self.pending@.contains_key(id));
                    false
                },
            };
            if due {
                match self.emit_window(id) {
                    Some(result) => {
                        let ghost had = results@;
                        results.push(result);
                        proof {
                            lemma_without_push(before, done, id);
                            lemma_results_push(before, done, id, had, result);
                            let more = done.push(id);
                            assert forall|k: u64| more.contains(k) <==> done.contains(k) || k
                                == id by {
                                if done.contains(k) {
                                    let at = choose|at: int| 0 <= at < done.len() && done[at] == k;
                                    assert(more[at] == k);
                                }
                                assert(more[done.len() as int] == id);
                                if more.contains(k) && k != id {
                                    let at = choose|at: int| 0 <= at < more.len() && more[at] == k;
                                    assert(done[at] == k);
                                }
                            }
                            done = more;
                        }
                    },
                    None => {},
                }
            }
            i = i + 1;
        }
        proof {
            assert(ids@.take(i as int) =~= ids@);
            assert(before.lists_due(done, now@));
        }
        results
    }

    /// Checks for timed-out windows and returns any that need emitting.
    ///
    /// Call this periodically to handle windows where some sources are missing. The time is
    /// what the clock says has passed since the merger was made; a timeout of zero has always
    /// expired.
    pub fn check_timeouts(&mut self) -> (r: Vec<MergeResult>)
        requires
            old(self).wf(),
        ensures
            final(self).wf(),
            exists|now: nat|
                time::may_have_passed(old(self)@.epoch, now) && #[trigger] old(self)@.may_emit(
                    now,
                    result_models(r@),
                    final(self)@,
                ),
    {
        let now = self.clock.now();
        let ghost before = self@;
        let r = self.emit_due(now);
        assert(before.may_emit(now@, result_models(r@), self@));
        r
    }

    /// Returns the number of pending windows.
    pub fn pending_count(&self) -> (r: usize)
        requires
            self.wf(),
        ensures
            r == self@.pending.dom().len(),
    {
        assert(self.pending@.dom() =~= self@.pending.dom());
        self.pending.len()
    }

    /// Clears all pending windows.
    pub fn clear(&mut self)
        requires
            old(self).wf(),
        ensures
            final(self).wf(),
            final(self)@ == (MergerModel { pending: Map::empty(), ..old(self)@ }),
    {
        self.pending.clear();
        assert(self@.pending =~= Map::empty());
    }
}

/// A chunk gives at most one result: its own window if the chunk completes it, or else the
/// window that has to go because there is one too many. In the latter case that is the
/// oldest of them. Afterwards no more windows wait than may.
pub proof fn lemma_one_result(
    m: MergerModel,
    chunk: AudioChunk,
    now: nat,
    results: Seq<ResultModel>,
    after: MergerModel,
)
    requires
        m.valid(),
        m.may_add(chunk, now, results, after),
    ensures
        after.pending.dom().finite(),
        after.pending.dom().len() <= after.max_pending,
        results.len() <= 1,
        results.len() == 1 && results[0].missing.len() > 0 ==> {
            &&& m.with_added(chunk, now).pending.dom().len() == m.max_pending + 1
            &&& m.with_added(chunk, now).pending.contains_key(results[0].window_id)
            &&& !after.pending.contains_key(results[0].window_id)
            &&& forall|k: u64| #[trigger]
                after.pending.contains_key(k) ==> results[0].window_id < k
        },
{
    if chunk.source_id is Some {
        let id = window_at(chunk.timestamp@, m.window_duration);
        let added = m.with_added(chunk, now);
        let ids = choose|ids: Seq<u64>| #[trigger]
            added.evicts(ids) && results == m.completed_results(chunk, now) + added.results(ids)
                && after == added.without(ids);
        if m.completed_by(chunk) {
            assert(added.pending.dom() =~= m.pending.dom().remove(id));
            lemma_completed_lacks_nothing(m, chunk, now, 0);
            assert(ids.len() == 0);
            assert(after.pending =~= added.pending);
        } else {
            assert(added.pending.dom() =~= m.pending.dom().insert(id));
            assert(ids.len() <= 1);
            if ids.len() == 0 {
                assert(after.pending =~= added.pending);
            } else {
                let gone = ids[0];
                assert(ids =~= seq![gone]);
                assert(added.pending.contains_key(gone));
                assert(ids.to_set() =~= set![gone]) by {
                    assert forall|k: u64| ids.to_set().contains(k) <==> k == gone by {
                        if k == gone {
                            assert(ids[0] == k);
                        }
                    }
                }
                assert(after.pending.dom() =~= added.pending.dom().remove(gone));
                assert(results[0] == added.result(gone, added.pending[gone]));
                assert forall|k: u64| #[trigger] after.pending.contains_key(k) implies gone < k by {
                    assert(added.pending.contains_key(k));
                    assert(!ids.contains(k));
                    assert(ids[0] < k);
                }
            }
        }
    }
}

/// A window that is emitted because it has waited lacks a source, and none stays that has
/// waited for the timeout; none leaves earlier.
pub proof fn lemma_due_windows_leave(
    m: MergerModel,
    now: nat,
    results: Seq<ResultModel>,
    after: MergerModel,
    id: u64,
)
    requires
        m.all_waiting(),
        m.may_emit(now, results, after),
    ensures
        after.pending.contains_key(id) <==> m.pending.contains_key(id) && !is_due(
            m.pending[id],
            now,
            m.window_timeout,
        ),
        m.pending.contains_key(id) && is_due(m.pending[id], now, m.window_timeout) ==> exists|
            i: int,
        |
            0 <= i < results.len() && (#[trigger] results[i]).window_id == id
                && results[i].missing.len() > 0,
{
    let ids = choose|ids: Seq<u64>| #[trigger]
        m.lists_due(ids, now) && results == m.results(ids) && after == m.without(ids);
    assert(ids.to_set().contains(id) <==> ids.contains(id));
    if ids.contains(id) {
        let i = choose|i: int| 0 <= i < ids.len() && ids[i] == id;
        lemma_missing_none(m.expected, m.pending[id].chunks);
        assert(results[i].window_id == id);
    }
}

/// Where nothing is waited for, every window leaves.
pub proof fn lemma_no_timeout_empties(
    m: MergerModel,
    now: nat,
    results: Seq<ResultModel>,
    after: MergerModel,
)
    requires
        m.pending.dom().finite(),
        m.window_timeout == 0,
        m.may_emit(now, results, after),
    ensures
        after.pending == Map::<u64, WindowModel>::empty(),
        results.len() == m.pending.dom().len(),
{
    let ids = choose|ids: Seq<u64>| #[trigger]
        m.lists_due(ids, now) && results == m.results(ids) && after == m.without(ids);
    ids.unique_seq_to_set();
    assert(ids.to_set() =~= m.pending.dom());
    assert(after.pending =~= Map::empty());
}

/// Which windows have to go, and in which order, is fully determined.
pub proof fn lemma_evicts_unique(m: MergerModel, a: Seq<u64>, b: Seq<u64>)
    requires
        m.evicts(a),
        m.evicts(b),
    ensures
        a == b,
{
    assert forall|i: int| 0 <= i < a.len() implies a[i] == b[i] by {
        lemma_evicts_agree(m, a, b, i);
    }
    assert(a =~= b);
}

proof fn lemma_evicts_agree(m: MergerModel, a: Seq<u64>, b: Seq<u64>, i: int)
    requires
        m.evicts(a),
        m.evicts(b),
        0 <= i < a.len(),
    ensures
        a[i] == b[i],
    decreases i,
{
    assert forall|j: int| 0 <= j < i implies a[j] == b[j] by {
        lemma_evicts_agree(m, a, b, j);
    }
    if a[i] < b[i] {
        lemma_evicts_first(m, a, b, i);
    } else if b[i] < a[i] {
        lemma_evicts_first(m, b, a, i);
    }
}

proof fn lemma_evicts_first(m: MergerModel, a: Seq<u64>, b: Seq<u64>, i: int)
    requires
        m.evicts(a),
        m.evicts(b),
        0 <= i < a.len(),
        forall|j: int| 0 <= j < i ==> a[j] == b[j],
    ensures
        a[i] >= b[i],
{
    if a[i] < b[i] {
        if b.contains(a[i]) {
            let j = choose|j: int| 0 <= j < b.len() && b[j] == a[i];
            if j < i {
                assert(a[j] < a[i]);
            } else if j > i {
                assert(b[i] < b[j]);
            }
        }
        assert(m.pending.contains_key(a[i]));
        assert(b[i] < a[i]);
    }
}

/// A result of a completed window lacks no source.
pub proof fn lemma_completed_lacks_nothing(m: MergerModel, chunk: AudioChunk, now: nat, i: int)
    requires
        0 <= i < m.completed_results(chunk, now).len(),
    ensures
        m.completed_results(chunk, now)[i].missing.len() == 0,
{
    lemma_missing_none(m.expected, m.chunks_with(chunk));
}

impl TimeWindowMerger {
    /// A window that leaves before it is complete lacks a source, so that an event tells of
    /// it.
    pub proof fn lemma_waiting_lacks(self, id: u64)
        requires
            self.wf(),
            self@.pending.contains_key(id),
        ensures
            self@.result(id, self@.pending[id]).missing.len() > 0,
    {
        lemma_missing_none(self@.expected, self@.pending[id].chunks);
    }
}

/// A chunk that is added counts for its source.
pub proof fn lemma_added_contributes(m: MergerModel, chunk: AudioChunk)
    ensures
        contributed(m.chunks_with(chunk), source_of(chunk)),
{
    let id = window_at(chunk.timestamp@, m.window_duration);
    let chunks = m.chunks_with(chunk);
    if m.pending.contains_key(id) {
        let had = m.pending[id].chunks;
        if contributed(had, source_of(chunk)) {
            let place = place_of(had, source_of(chunk));
            assert(source_of(chunks[place]) == source_of(chunk));
        } else {
            assert(source_of(chunks[had.len() as int]) == source_of(chunk));
        }
    } else {
        assert(source_of(chunks[0]) == source_of(chunk));
    }
}

proof fn lemma_mixed_sum_remove(chunks: Seq<AudioChunk>, j: int, i: int)
    requires
        0 <= j < chunks.len(),
    ensures
        mixed_sum(chunks, i) == mixed_sum(chunks.remove(j), i) + sample_or_silence(chunks[j], i),
    decreases chunks.len(),
{
    if j == chunks.len() - 1 {
        assert(chunks.remove(j) =~= chunks.drop_last());
    } else {
        let shorter = chunks.drop_last();
        lemma_mixed_sum_remove(shorter, j, i);
        assert(chunks.remove(j).drop_last() =~= shorter.remove(j));
        assert(chunks.remove(j).last() == chunks.last());
    }
}

/// The sum of samples does not depend on the order of the chunks.
proof fn lemma_mixed_sum_order(a: Seq<AudioChunk>, b: Seq<AudioChunk>, i: int)
    requires
        a.to_multiset() == b.to_multiset(),
    ensures
        a.len() == b.len(),
        mixed_sum(a, i) == mixed_sum(b, i),
    decreases a.len(),
{
    broadcast use vstd::seq_lib::group_to_multiset_ensures;

    assert(a.to_multiset().len() == a.len());
    assert(b.to_multiset().len() == b.len());
    if a.len() > 0 {
        let last = b.last();
        assert(b[b.len() - 1] == last);
        b.to_multiset_ensures();
        a.to_multiset_ensures();
        assert(b.contains(last));
        assert(a.to_multiset().count(last) > 0);
        let j = choose|j: int| 0 <= j < a.len() && a[j] == last;
        lemma_mixed_sum_remove(a, j, i);
        assert(b.remove(b.len() - 1) =~= b.drop_last());
        lemma_mixed_sum_order(a.remove(j), b.drop_last(), i);
    }
}

/// Chunks of one length mix to the same samples in whatever order they arrived.
pub proof fn lemma_mix_order(a: Seq<AudioChunk>, b: Seq<AudioChunk>, expected: nat)
    requires
        a.len() > 0,
        a.to_multiset() == b.to_multiset(),
        a[0].samples@.len() == b[0].samples@.len(),
    ensures
        mixed_samples(a, expected) == mixed_samples(b, expected),
{
    assert forall|i: int| 0 <= i < a[0].samples@.len() implies mixed_sum(a, i) == mixed_sum(
        b,
        i,
    ) && a.len() == b.len() by {
        lemma_mixed_sum_order(a, b, i);
    }
    lemma_mixed_sum_order(a, b, 0);
    assert(mixed_samples(a, expected) =~= mixed_samples(b, expected));
}

proof fn lemma_mixed_sum_is_fold(
    chunks: Seq<AudioChunk>,
    i: int,
    parts: Seq<int>,
    plus: spec_fn(int, int) -> int,
)
    requires
        forall|x: int, y: int| #[trigger] plus(x, y) == x + y,
        parts.len() == chunks.len(),
        forall|j: int| 0 <= j < parts.len() ==> #[trigger] parts[j] == sample_or_silence(chunks[j], i),
    ensures
        mixed_sum(chunks, i) == parts.fold_left(0, plus),
    decreases chunks.len(),
{
    reveal_with_fuel(Seq::fold_left, 2);
    if chunks.len() > 0 {
        lemma_mixed_sum_is_fold(chunks.drop_last(), i, parts.drop_last(), plus);
    }
}

/// A merged chunk is the average of a window's chunks: as long as the first of them, each of
/// its samples the sum of theirs at that place, where a chunk that has ended is silent, over
/// the number of sources or of chunks, whichever is larger, cut toward zero.
pub proof fn lemma_merge_is_average(m: MergerModel, chunks: Seq<AudioChunk>, timestamp: nat, i: int)
    requires
        chunks.len() > 0,
    ensures
        ({
            let merged = m.merged(chunks, timestamp);
            let parts = Seq::new(
                chunks.len(),
                |j: int|
                    if i < chunks[j].samples@.len() {
                        chunks[j].samples@[i] as int
                    } else {
                        0
                    },
            );
            let total = parts.fold_left(0int, |x: int, y: int| x + y);
            let count = if m.expected.len() > chunks.len() {
                m.expected.len()
            } else {
                chunks.len()
            };
            &&& merged.samples.len() == chunks[0].samples@.len()
            &&& merged.sample_rate == chunks[0].sample_rate
            &&& merged.channels == chunks[0].channels
            &&& merged.timestamp == timestamp
            &&& merged.source_id is None
            &&& 0 <= i < merged.samples.len() ==> {
                let mean = merged.samples[i] as int;
                if total >= 0 {
                    mean * count <= total < (mean + 1) * count
                } else {
                    (mean - 1) * count < total <= mean * count
                }
            }
        }),
{
    let parts = Seq::new(
        chunks.len(),
        |j: int|
            if i < chunks[j].samples@.len() {
                chunks[j].samples@[i] as int
            } else {
                0
            },
    );
    let plus = |x: int, y: int| x + y;
    let total = parts.fold_left(0int, plus);
    lemma_mixed_sum_is_fold(chunks, i, parts, plus);
    if 0 <= i < chunks[0].samples@.len() {
        lemma_average_in_range(chunks, m.expected.len(), i);
        let d = mix_divisor(chunks, m.expected.len()) as int;
        let mean = m.merged(chunks, timestamp).samples[i] as int;
        if total >= 0 {
            vstd::arithmetic::div_mod::lemma_fundamental_div_mod(total, d);
            assert(mean * d == d * mean && (mean + 1) * d == d * mean + d) by (nonlinear_arith);
        } else {
            vstd::arithmetic::div_mod::lemma_fundamental_div_mod(-total, d);
            let q = (-total) / d;
            assert(mean == -q);
            assert((mean - 1) * d == -(d * q) - d && mean * d == -(d * q)) by (nonlinear_arith)
                requires
                    mean == -q,
            ;
        }
    }
}

/// A window that nothing came for is a window of silence, in the merger's own format.
pub proof fn lemma_merge_of_none(m: MergerModel, timestamp: nat)
    requires
        0 < m.sample_rate <= u32::MAX,
        m.sample_rate * m.window_duration <= 1_000_000_000 * 0x100_0000_0000,
    ensures
        ({
            let merged = m.merged(Seq::empty(), timestamp);
            &&& merged.timestamp == timestamp
            &&& merged.sample_rate == m.sample_rate
            &&& merged.channels == m.channels
            &&& merged.source_id is None
            &&& forall|i: int| 0 <= i < merged.samples.len() ==> #[trigger] merged.samples[i] == 0
            &&& exists|frames: nat|
                {
                    &&& merged.samples.len() == #[trigger] (frames * m.channels)
                    &&& frames * 1_000_000_000 <= m.sample_rate * m.window_duration + 1_000_000
                    &&& m.sample_rate * m.window_duration < (frames + 1) * 1_000_000_000 + 1_000_000
                }
        }),
{
    ring_buffer::lemma_frames_in_span(m.sample_rate as u32, m.channels, m.window_duration);
    let frames = ring_buffer::frames_in(m.sample_rate, m.window_duration);
    assert(m.merged(Seq::empty(), timestamp).samples.len() == frames * m.channels);
}

/// A moment lies in the window that starts last of those that start no later: windows follow
/// one another without a break, each as long as the whole milliseconds that were asked for.
pub proof fn lemma_window_holds_moment(m: MergerModel, timestamp: nat)
    requires
        1_000_000 <= m.window_duration < 1_000_000 * 0x1_0000_0000_0000_0000,
        timestamp < 1_000_000 * 0x1_0000_0000_0000_0000,
    ensures
        ({
            let id = window_at(timestamp, m.window_duration);
            let length = 1_000_000 * (m.window_duration / 1_000_000);
            &&& window_start(id, m.window_duration) == id * length
            &&& id * length <= timestamp < (id + 1) * length
        }),
{
    let t = timestamp / 1_000_000;
    let ms = m.window_duration / 1_000_000;
    vstd::arithmetic::div_mod::lemma_small_mod(t, 0x1_0000_0000_0000_0000);
    vstd::arithmetic::div_mod::lemma_small_mod(ms, 0x1_0000_0000_0000_0000);
    vstd::arithmetic::div_mod::lemma_fundamental_div_mod(t as int, ms as int);
    vstd::arithmetic::div_mod::lemma_div_is_ordered_by_denominator(t as int, 1, ms as int);
    let id = window_at(timestamp, m.window_duration);
    assert(id == t / ms);
    assert(id * (1_000_000 * ms) == id * ms * 1_000_000) by (nonlinear_arith);
    assert((id + 1) * (1_000_000 * ms) == (ms * id + ms) * 1_000_000) by (nonlinear_arith);
    assert(id * ms == ms * id) by (nonlinear_arith);
}

/// A result names, in the order in which they are expected, the sources of which its window
/// has no chunk, and only those.
pub proof fn lemma_missing_are_absent(
    m: MergerModel,
    more: MergerModel,
    id: u64,
    window: WindowModel,
    source: Seq<char>,
)
    requires
        more.expected == m.expected.push(source),
    ensures
        m.expected.len() == 0 ==> m.result(id, window).missing.len() == 0,
        (exists|j: int|
            0 <= j < window.chunks.len() && (#[trigger] window.chunks[j]).source_id->0@ == source)
            ==> more.result(id, window).missing == m.result(id, window).missing,
        (forall|j: int|
            0 <= j < window.chunks.len() ==> (#[trigger] window.chunks[j]).source_id->0@ != source)
            ==> more.result(id, window).missing == m.result(id, window).missing.push(source),
        m.result(id, window).window_id == id,
        m.result(id, window).chunk.timestamp == window.timestamp,
{
    let lacks = |s: Seq<char>| !contributed(window.chunks, s);
    reveal(Seq::filter);
    assert(more.expected.drop_last() =~= m.expected);
    assert(more.expected.last() == source);
    if exists|j: int|
        0 <= j < window.chunks.len() && (#[trigger] window.chunks[j]).source_id->0@ == source {
        let j = choose|j: int|
            0 <= j < window.chunks.len() && (#[trigger] window.chunks[j]).source_id->0@ == source;
        assert(source_of(window.chunks[j]) == source);
        assert(!lacks(source));
    } else {
        assert forall|j: int| 0 <= j < window.chunks.len() implies #[trigger] source_of(
            window.chunks[j],
        ) != source by {
            assert(window.chunks[j].source_id->0@ != source);
        }
        assert(lacks(source));
    }
}

/// A chunk joins its window: it takes the place of an earlier one of its source, or comes
/// last, and the chunks of other sources stay where they are.
pub proof fn lemma_chunk_joins_window(m: MergerModel, chunk: AudioChunk, id: u64)
    requires
        m.in_order(),
        chunk.source_id is Some,
        id == window_at(chunk.timestamp@, m.window_duration),
        m.pending.contains_key(id),
    ensures
        ({
            let had = m.pending[id].chunks;
            let has = m.chunks_with(chunk);
            &&& has.len() == had.len() || has.len() == had.len() + 1
            &&& has.len() == had.len() <==> exists|j: int|
                0 <= j < had.len() && (#[trigger] had[j]).source_id->0@ == chunk.source_id->0@
            &&& forall|j: int|
                0 <= j < had.len() ==> (#[trigger] has[j] == if had[j].source_id->0@
                    == chunk.source_id->0@ {
                    chunk
                } else {
                    had[j]
                })
            &&& has.len() > had.len() ==> has.last() == chunk
        }),
{
    let had = m.pending[id].chunks;
    let source = source_of(chunk);
    assert(window_wf(m.pending[id]));
    if contributed(had, source) {
        let place = place_of(had, source);
        assert(source_of(had[place]) == source);
        assert(had[place].source_id->0@ == chunk.source_id->0@);
        assert forall|j: int| 0 <= j < had.len() && j != place implies source_of(had[j]) != source by {
            if j < place {
                assert(source_of(had[j]) != source_of(had[place]));
            } else {
                assert(source_of(had[place]) != source_of(had[j]));
            }
        }
    } else {
        assert forall|j: int| 0 <= j < had.len() implies (#[trigger] had[j]).source_id->0@
            != chunk.source_id->0@ by {
            assert(source_of(had[j]) != source);
        }
    }
}

/// The first chunk of a window is its only one; the window starts to wait then.
pub proof fn lemma_chunk_opens_window(m: MergerModel, chunk: AudioChunk, now: nat, id: u64)
    requires
        chunk.source_id is Some,
        id == window_at(chunk.timestamp@, m.window_duration),
        !m.pending.contains_key(id),
    ensures
        m.chunks_with(chunk) == seq![chunk],
        m.window_with(chunk, now).created == now,
        m.window_with(chunk, now).chunks == seq![chunk],
        m.window_with(chunk, now).timestamp == window_start(id, m.window_duration),
{
}

/// A chunk after which its window has one of every expected source is answered with that
/// window, which waits no longer; other windows are left as they are.
pub proof fn lemma_last_source_completes(
    m: MergerModel,
    chunk: AudioChunk,
    now: nat,
    results: Seq<ResultModel>,
    after: MergerModel,
    id: u64,
)
    requires
        m.valid(),
        chunk.source_id is Some,
        id == window_at(chunk.timestamp@, m.window_duration),
        m.may_add(chunk, now, results, after),
        forall|i: int|
            0 <= i < m.expected.len() ==> #[trigger] m.expected[i] == chunk.source_id->0@ || (
            m.pending.contains_key(id) && exists|j: int|
                0 <= j < m.pending[id].chunks.len() && (
                #[trigger] m.pending[id].chunks[j]).source_id->0@ == m.expected[i]),
    ensures
        results.len() == 1,
        results[0].window_id == id,
        results[0].missing.len() == 0,
        results[0].chunk.samples == m.merged(m.chunks_with(chunk), 0).samples,
        results[0].chunk.timestamp == window_start(id, m.window_duration),
        after.pending == m.pending.remove(id),
{
    let has = m.chunks_with(chunk);
    lemma_added_contributes(m, chunk);
    assert forall|i: int| 0 <= i < m.expected.len() implies #[trigger] contributed(
        has,
        m.expected[i],
    ) by {
        if m.expected[i] != source_of(chunk) {
            lemma_chunk_joins_window(m, chunk, id);
            let had = m.pending[id].chunks;
            let j = choose|j: int|
                0 <= j < had.len() && (#[trigger] had[j]).source_id->0@ == m.expected[i];
            assert(has[j] == had[j]);
            assert(source_of(has[j]) == m.expected[i]);
        }
    }
    assert(m.completed_by(chunk));
    lemma_completed_lacks_nothing(m, chunk, now, 0);
    let added = m.with_added(chunk, now);
    let ids = choose|ids: Seq<u64>| #[trigger]
        added.evicts(ids) && results == m.completed_results(chunk, now) + added.results(ids)
            && after == added.without(ids);
    assert(added.pending.dom() =~= m.pending.dom().remove(id));
    assert(ids.len() == 0);
    assert(ids.to_set() =~= Set::empty()) by {
        assert forall|k: u64| !ids.to_set().contains(k) by {}
    }
    assert(after.pending =~= m.pending.remove(id));
    assert(has.len() > 0) by {
        assert(contributed(has, source_of(chunk)));
    }
    assert(m.pending.contains_key(id) ==> m.pending[id].timestamp == window_start(
        id,
        m.window_duration,
    ));
}

/// A chunk after which its window still lacks a source leaves the window waiting, unless more
/// windows wait than may; then the oldest leaves. Other windows are left as they are.
pub proof fn lemma_incomplete_waits(
    m: MergerModel,
    chunk: AudioChunk,
    now: nat,
    results: Seq<ResultModel>,
    after: MergerModel,
    id: u64,
    k: u64,
)
    requires
        m.valid(),
        chunk.source_id is Some,
        id == window_at(chunk.timestamp@, m.window_duration),
        m.may_add(chunk, now, results, after),
        exists|i: int|
            0 <= i < m.expected.len() && #[trigger] m.expected[i] != chunk.source_id->0@ && !(
            m.pending.contains_key(id) && exists|j: int|
                0 <= j < m.pending[id].chunks.len() && (
                #[trigger] m.pending[id].chunks[j]).source_id->0@ == m.expected[i]),
    ensures
        results.len() == 0 <==> m.pending.contains_key(id) || m.pending.dom().len()
            < m.max_pending,
        results.len() <= 1,
        results.len() == 1 ==> {
            &&& results[0].window_id == k ==> !after.pending.contains_key(k)
            &&& after.pending.contains_key(k) ==> results[0].window_id < k
            &&& results[0].window_id == id || m.pending.contains_key(results[0].window_id)
        },
        after.pending.contains_key(k) <==> (k == id || m.pending.contains_key(k)) && (
        results.len() == 1 ==> results[0].window_id != k),
        after.pending.contains_key(k) && k != id ==> after.pending[k] == m.pending[k],
        after.pending.contains_key(id) ==> {
            &&& after.pending[id].chunks == m.chunks_with(chunk)
            &&& after.pending[id].timestamp == window_start(id, m.window_duration)
            &&& after.pending[id].created == if m.pending.contains_key(id) {
                m.pending[id].created
            } else {
                now
            }
        },
{
    let has = m.chunks_with(chunk);
    let i = choose|i: int|
        0 <= i < m.expected.len() && #[trigger] m.expected[i] != chunk.source_id->0@ && !(
        m.pending.contains_key(id) && exists|j: int|
            0 <= j < m.pending[id].chunks.len() && (
            #[trigger] m.pending[id].chunks[j]).source_id->0@ == m.expected[i]);
    assert(!contributed(has, m.expected[i])) by {
        if contributed(has, m.expected[i]) {
            let j = choose|j: int| 0 <= j < has.len() && #[trigger] source_of(has[j]) == m.expected[i];
            if m.pending.contains_key(id) {
                lemma_chunk_joins_window(m, chunk, id);
                let had = m.pending[id].chunks;
                if j < had.len() {
                    assert(had[j].source_id->0@ == m.expected[i]);
                }
            }
        }
    }
    assert(!m.completed_by(chunk));
    let added = m.with_added(chunk, now);
    let ids = choose|ids: Seq<u64>| #[trigger]
        added.evicts(ids) && results == m.completed_results(chunk, now) + added.results(ids)
            && after == added.without(ids);
    assert(added.pending.dom() =~= m.pending.dom().insert(id));
    assert(results =~= added.results(ids));
    assert(ids.len() <= 1);
    assert(ids.to_set().contains(k) <==> ids.contains(k));
    assert(ids.to_set().contains(id) <==> ids.contains(id));
    if ids.len() == 1 {
        assert(results[0].window_id == ids[0]);
        assert(added.pending.contains_key(ids[0]));
        assert(ids.contains(k) <==> k == ids[0]) by {
            if k == ids[0] {
                assert(ids[0] == k);
            }
        }
        if after.pending.contains_key(k) {
            assert(added.pending.contains_key(k) && !ids.contains(k));
            assert(ids[0] < k);
        }
    }
}

/// A window leaves once it has waited for the timeout, and stays as it is until then.
pub proof fn lemma_timeout_ends_wait(
    m: MergerModel,
    now: nat,
    results: Seq<ResultModel>,
    after: MergerModel,
    id: u64,
)
    requires
        m.all_waiting(),
        m.may_emit(now, results, after),
        m.pending.contains_key(id),
        m.pending[id].created <= now,
    ensures
        now - m.pending[id].created < m.window_timeout ==> after.pending.contains_key(id)
            && after.pending[id] == m.pending[id] && forall|i: int|
            0 <= i < results.len() ==> (#[trigger] results[i]).window_id != id,
        now - m.pending[id].created >= m.window_timeout ==> !after.pending.contains_key(id)
            && exists|i: int|
            0 <= i < results.len() && (#[trigger] results[i]).window_id == id
                && results[i].missing.len() > 0 && results[i].chunk.timestamp
                == m.pending[id].timestamp && results[i].chunk.samples == m.merged(
                m.pending[id].chunks,
                0,
            ).samples,
{
    lemma_due_windows_leave(m, now, results, after, id);
    let ids = choose|ids: Seq<u64>| #[trigger]
        m.lists_due(ids, now) && results == m.results(ids) && after == m.without(ids);
    assert(ids.to_set().contains(id) <==> ids.contains(id));
    if ids.contains(id) {
        let i = choose|i: int| 0 <= i < ids.len() && ids[i] == id;
        lemma_missing_none(m.expected, m.pending[id].chunks);
        assert(results[i].window_id == id);
    } else {
        assert forall|i: int| 0 <= i < results.len() implies (#[trigger] results[i]).window_id
            != id by {
            assert(ids.contains(ids[i]));
        }
    }
}

/// A chunk of no source belongs to no window: it gives nothing and changes nothing.
pub proof fn lemma_no_source_no_window(
    m: MergerModel,
    chunk: AudioChunk,
    now: nat,
    results: Seq<ResultModel>,
    after: MergerModel,
)
    requires
        chunk.source_id is None,
        m.may_add(chunk, now, results, after),
    ensures
        results.len() == 0,
        after == m,
{
}

} // verus!
