//! Detection of suspicious gaps in a stream.
//!
//! A device that is shared with other programs, or starved, delivers zeros in place of
//! audio. A long enough run of zeros that ends is reported as a gap.
use crate::chunk;
use crate::chunk::{duration_of_index, index_has_time};
use crate::event;
use crate::event::EventModel;
use crate::source::source_id;
use crate::source::source_id::id_or_default;
use crate::source::SourceId;
use crate::time::MAX_NANOS;
use crate::StreamEvent;
use vstd::prelude::*;

verus! {

/// Minimum gap duration to report as suspicious (50ms catches audible gaps).
pub const GAP_THRESHOLD_MS: u64 = 50;

/// A run of zeros.
pub ghost struct Run {
    /// How many zeros.
    pub len: nat,
    /// The place of the first, counted in samples from the start of the stream.
    pub start: nat,
}

/// How far a scan has come.
pub ghost struct Scan {
    /// The run of zeros that has not ended yet.
    pub open: Run,
    /// The gaps that have ended.
    pub gaps: Seq<Run>,
}

/// A scan that has taken in one more sample.
pub open spec fn scan_sample(scan: Scan, sample: i16, at: nat, threshold: nat) -> Scan {
    if sample == 0 {
        Scan {
            open: Run {
                len: scan.open.len + 1,
                start: if scan.open.len == 0 {
                    at
                } else {
                    scan.open.start
                },
            },
            ..scan
        }
    } else {
        Scan {
            open: Run { len: 0, ..scan.open },
            gaps: if scan.open.len >= threshold {
                scan.gaps.push(scan.open)
            } else {
                scan.gaps
            },
        }
    }
}

/// A scan that has taken in some samples, the first of which lies at `at`.
pub open spec fn scanned(scan: Scan, samples: Seq<i16>, at: nat, threshold: nat) -> Scan
    decreases samples.len(),
{
    if samples.len() == 0 {
        scan
    } else {
        scan_sample(
            scanned(scan, samples.drop_last(), at, threshold),
            samples.last(),
            (at + samples.len() - 1) as nat,
            threshold,
        )
    }
}

/// Milliseconds that so many samples last.
pub open spec fn samples_ms(samples: nat, sample_rate: nat) -> nat {
    samples * 1000 / sample_rate
}

/// Milliseconds that some gaps last, each cut to whole milliseconds.
pub open spec fn gaps_ms(gaps: Seq<Run>, sample_rate: nat) -> nat
    decreases gaps.len(),
{
    if gaps.len() == 0 {
        0
    } else {
        gaps_ms(gaps.drop_last(), sample_rate) + samples_ms(gaps.last().len, sample_rate)
    }
}

/// What a gap monitor has been told and has seen.
pub ghost struct GapModel {
    /// The name under which gaps are reported.
    pub source: Seq<char>,
    /// Samples per second.
    pub sample_rate: nat,
    /// The run of zeros at the end of what was scanned.
    pub open: Run,
    /// The number of gaps so far.
    pub count: nat,
    /// The milliseconds of all gaps so far.
    pub total_ms: nat,
}

impl GapModel {
    /// The length from which a run of zeros is a gap.
    pub open spec fn threshold(self) -> nat {
        self.sample_rate * (GAP_THRESHOLD_MS as nat) / 1000
    }

    /// The event that reports the last of some new gaps.
    pub open spec fn event(self, gaps: Seq<Run>) -> EventModel {
        EventModel::AudioGapDetected {
            source_id: self.source,
            gap_duration_ms: samples_ms(gaps.last().len, self.sample_rate),
            gap_samples: gaps.last().len,
            position: chunk::frames_duration(gaps.last().start, self.sample_rate),
            cumulative_gaps: self.count + gaps.len(),
            cumulative_gap_ms: self.total_ms + gaps_ms(gaps, self.sample_rate),
        }
    }

    /// The events that report some new gaps, one each, with the running totals.
    pub open spec fn events(self, gaps: Seq<Run>) -> Seq<EventModel> {
        Seq::new(gaps.len(), |i: int| self.event(gaps.take(i + 1)))
    }

    /// The monitor once some new gaps are counted.
    pub open spec fn counted(self, gaps: Seq<Run>) -> GapModel {
        GapModel {
            count: self.count + gaps.len(),
            total_ms: self.total_ms + gaps_ms(gaps, self.sample_rate),
            ..self
        }
    }

    /// Whether some new gaps can be counted and given a time.
    pub open spec fn countable(self, gaps: Seq<Run>) -> bool {
        &&& self.count + gaps.len() <= u32::MAX
        &&& self.total_ms + gaps_ms(gaps, self.sample_rate) <= u64::MAX
        &&& gaps.len() > 0 ==> self.sample_rate > 0
        &&& forall|i: int|
            0 <= i < gaps.len() ==> chunk::frames_duration(
                (#[trigger] gaps[i]).start,
                self.sample_rate,
            ) <= MAX_NANOS
    }

    /// The scan of a chunk that starts at `at`.
    pub open spec fn scan(self, samples: Seq<i16>, at: nat) -> Scan {
        scanned(
            Scan {
                open: Run {
                    len: self.open.len,
                    start: if self.open.len > 0 {
                        self.open.start
                    } else {
                        at
                    },
                },
                gaps: Seq::empty(),
            },
            samples,
            at,
            self.threshold(),
        )
    }

    /// Whether a chunk can be scanned: no run of zeros and no count grows out of its range.
    pub open spec fn scannable(self, samples: Seq<i16>, at: nat) -> bool {
        &&& at + samples.len() <= u64::MAX
        &&& forall|i: int|
            0 <= i <= samples.len() ==> (#[trigger] self.scan(samples.take(i), at)).open.len
                <= u32::MAX
        &&& self.countable(self.scan(samples, at).gaps)
    }

    /// The monitor once a chunk is scanned.
    pub open spec fn after(self, samples: Seq<i16>, at: nat) -> GapModel {
        GapModel {
            open: self.scan(samples, at).open,
            ..self.counted(self.scan(samples, at).gaps)
        }
    }

    /// The gap at the end of the stream, if what has not ended is long enough.
    pub open spec fn last_gap(self) -> Seq<Run> {
        if self.open.len >= self.threshold() {
            seq![self.open]
        } else {
            Seq::empty()
        }
    }
}

/// Monitors for suspicious zero-sample gaps that indicate device issues.
pub struct GapMonitor {
    source_id: Option<SourceId>,
    sample_rate: u32,
    pending_zeros: u32,
    pending_gap_start_samples: u64,
    cumulative_gaps: u32,
    cumulative_gap_ms: u64,
}

impl View for GapMonitor {
    type V = GapModel;

    closed spec fn view(&self) -> GapModel {
        GapModel {
            source: source_id::text_or_default(self.source_id),
            sample_rate: self.sample_rate as nat,
            open: Run {
                len: self.pending_zeros as nat,
                start: self.pending_gap_start_samples as nat,
            },
            count: self.cumulative_gaps as nat,
            total_ms: self.cumulative_gap_ms as nat,
        }
    }
}

/// Scanning more samples keeps the gaps that were found.
proof fn lemma_scan_grows(scan: Scan, samples: Seq<i16>, at: nat, threshold: nat, i: int)
    requires
        0 <= i <= samples.len(),
    ensures
        scanned(scan, samples.take(i), at, threshold).gaps.is_prefix_of(
            scanned(scan, samples, at, threshold).gaps,
        ),
    decreases samples.len() - i,
{
    if i == samples.len() {
        assert(samples.take(i) =~= samples);
    } else {
        lemma_scan_grows(scan, samples, at, threshold, i + 1);
        assert(samples.take(i + 1).drop_last() =~= samples.take(i));
    }
}

/// The first gaps last no longer than all of them.
proof fn lemma_gaps_ms_grows(gaps: Seq<Run>, sample_rate: nat, i: int)
    requires
        0 <= i <= gaps.len(),
    ensures
        gaps_ms(gaps.take(i), sample_rate) <= gaps_ms(gaps, sample_rate),
    decreases gaps.len() - i,
{
    if i == gaps.len() {
        assert(gaps.take(i) =~= gaps);
    } else {
        lemma_gaps_ms_grows(gaps, sample_rate, i + 1);
        assert(gaps.take(i + 1).drop_last() =~= gaps.take(i));
    }
}

impl GapMonitor {
    /// Creates a monitor for a stream of so many samples per second.
    pub fn new(source_id: Option<SourceId>, sample_rate: u32) -> (r: Self)
        ensures
            r@ == (GapModel {
                source: source_id::text_or_default(source_id),
                sample_rate: sample_rate as nat,
                open: Run { len: 0, start: 0 },
                count: 0,
                total_ms: 0,
            }),
    {
        GapMonitor {
            source_id,
            sample_rate,
            pending_zeros: 0,
            pending_gap_start_samples: 0,
            cumulative_gaps: 0,
            cumulative_gap_ms: 0,
        }
    }

    /// The length from which a run of zeros is a gap.
    pub fn threshold_samples(&self) -> (r: u32)
        ensures
            r == self@.threshold(),
    {
        (self.sample_rate as u64 * GAP_THRESHOLD_MS / 1000) as u32
    }

    /// Returns the current cumulative stats: number of gaps and their milliseconds.
    pub fn stats(&self) -> (r: (u32, u64))
        ensures
            r.0 == self@.count,
            r.1 == self@.total_ms,
    {
        (self.cumulative_gaps, self.cumulative_gap_ms)
    }

    /// Counts a gap and makes its event.
    fn emit_gap_event(&mut self, gap_samples: u32, gap_start_samples: u64) -> (r: StreamEvent)
        requires
            old(self)@.countable(
                seq![Run { len: gap_samples as nat, start: gap_start_samples as nat }],
            ),
        ensures
            final(self)@ == old(self)@.counted(
                seq![Run { len: gap_samples as nat, start: gap_start_samples as nat }],
            ),
            r@ == old(self)@.event(
                seq![Run { len: gap_samples as nat, start: gap_start_samples as nat }],
            ),
    {
        let ghost run = Run { len: gap_samples as nat, start: gap_start_samples as nat };
        proof {
            assert(seq![run].drop_last() =~= Seq::empty());
            assert(gaps_ms(seq![run].drop_last(), self@.sample_rate) == 0);
            assert(gaps_ms(seq![run], self@.sample_rate) == samples_ms(
                run.len,
                self@.sample_rate,
            ));
            assert(seq![run][0].start == gap_start_samples);
        }
        let gap_duration_ms: u64 = gap_samples as u64 * 1000 / self.sample_rate as u64;
        self.cumulative_gaps = self.cumulative_gaps + 1;
        self.cumulative_gap_ms = self.cumulative_gap_ms + gap_duration_ms;
        let position = duration_of_index(gap_start_samples, self.sample_rate);
        StreamEvent::AudioGapDetected {
            source_id: id_or_default(&self.source_id),
            gap_duration_ms,
            gap_samples,
            position,
            cumulative_gaps: self.cumulative_gaps,
            cumulative_gap_ms: self.cumulative_gap_ms,
        }
    }

    /// Tells whether a chunk can be scanned: no run of zeros and no count grows out of its
    /// range.
    pub fn can_scan(&self, samples: &[i16], chunk_start_samples: u64) -> (r: bool)
        ensures
            r == self@.scannable(samples@, chunk_start_samples as nat),
    {
        let ghost at = chunk_start_samples as nat;
        let ghost all = self@.scan(samples@, at).gaps;
        let ghost first = Scan {
            open: Run {
                len: self@.open.len,
                start: if self@.open.len > 0 {
                    self@.open.start
                } else {
                    at
                },
            },
            gaps: Seq::empty(),
        };
        if samples.len() as u64 > u64::MAX - chunk_start_samples {
            return false;
        }
        let mut zeros: u32 = self.pending_zeros;
        let mut start: u64 = if self.pending_zeros > 0 {
            self.pending_gap_start_samples
        } else {
            chunk_start_samples
        };
        let threshold: u32 = self.threshold_samples();
        let mut count: u32 = self.cumulative_gaps;
        let mut total_ms: u64 = self.cumulative_gap_ms;
        let mut i: usize = 0;
        assert(self@.scan(samples@.take(0), at) == first);
        while i < samples.len()
            invariant
                i <= samples.len(),
                at == chunk_start_samples,
                at + samples@.len() <= u64::MAX,
                threshold == self@.threshold(),
                all == self@.scan(samples@, at).gaps,
                first == (Scan {
                    open: Run {
                        len: self@.open.len,
                        start: if self@.open.len > 0 {
                            self@.open.start
                        } else {
                            at
                        },
                    },
                    gaps: Seq::empty(),
                }),
                self@.scan(samples@.take(i as int), at).open == (Run {
                    len: zeros as nat,
                    start: start as nat,
                }),
                forall|j: int|
                    0 <= j <= i ==> (#[trigger] self@.scan(samples@.take(j), at)).open.len
                        <= u32::MAX,
                self@.countable(self@.scan(samples@.take(i as int), at).gaps),
                count == self@.count + self@.scan(samples@.take(i as int), at).gaps.len(),
                total_ms == self@.total_ms + gaps_ms(
                    self@.scan(samples@.take(i as int), at).gaps,
                    self@.sample_rate,
                ),
            decreases samples.len() - i,
        {
            let ghost here = self@.scan(samples@.take(i as int), at);
            let ghost next = self@.scan(samples@.take(i + 1), at);
            let ghost run = Run { len: zeros as nat, start: start as nat };
            proof {
                lemma_scan_step(self@, samples@, at, i as int);
                lemma_scan_grows(first, samples@, at, self@.threshold(), i + 1);
            }
            if samples[i] == 0 {
                if zeros == 0 {
                    start = chunk_start_samples + i as u64;
                }
                if zeros == u32::MAX {
                    assert(next.open.len > u32::MAX);
                    return false;
                }
                zeros = zeros + 1;
            } else {
                if zeros >= threshold {
                    proof {
                        assert(next.gaps == here.gaps.push(run));
                        assert(all.take(next.gaps.len() as int) =~= next.gaps);
                        assert(next.gaps[here.gaps.len() as int] == run);
                        assert(all[here.gaps.len() as int] == run);
                        lemma_one_more(self@, here.gaps, run);
                        lemma_one_more(self@, Seq::empty(), run);
                        lemma_gaps_ms_grows(all, self@.sample_rate, next.gaps.len() as int);
                    }
                    if self.sample_rate == 0 || count == u32::MAX {
                        return false;
                    }
                    let gap_ms: u64 = zeros as u64 * 1000 / self.sample_rate as u64;
                    assert(gaps_ms(next.gaps, self@.sample_rate) == gaps_ms(
                        here.gaps,
                        self@.sample_rate,
                    ) + gap_ms) by {
                        assert(next.gaps.drop_last() =~= here.gaps);
                    }
                    if gap_ms > u64::MAX - total_ms || !index_has_time(start, self.sample_rate) {
                        return false;
                    }
                    count = count + 1;
                    total_ms = total_ms + gap_ms;
                    assert forall|j: int| 0 <= j < next.gaps.len() implies chunk::frames_duration(
                        (#[trigger] next.gaps[j]).start,
                        self@.sample_rate,
                    ) <= MAX_NANOS by {
                        if j < here.gaps.len() {
                            assert(next.gaps[j] == here.gaps[j]);
                        }
                    }
                }
                zeros = 0;
            }
            proof {
                assert forall|j: int| 0 <= j <= i + 1 implies (#[trigger] self@.scan(
                    samples@.take(j),
                    at,
                )).open.len <= u32::MAX by {
                    if j == i + 1 {
                        assert(self@.scan(samples@.take(j), at) == next);
                    }
                }
            }
            i = i + 1;
        }
        assert(samples@.take(i as int) =~= samples@);
        true
    }

    /// Tells whether `flush` can be called: a pending gap can be counted.
    pub fn can_flush(&self) -> (r: bool)
        ensures
            r == self@.countable(self@.last_gap()),
    {
        proof {
            lemma_one_more(self@, Seq::empty(), self@.open);
            assert(seq![self@.open].drop_last() =~= Seq::empty());
            assert(gaps_ms(seq![self@.open].drop_last(), self@.sample_rate) == 0);
            assert(gaps_ms(seq![self@.open], self@.sample_rate) == samples_ms(
                self@.open.len,
                self@.sample_rate,
            ));
            assert(seq![self@.open][0] == self@.open);
        }
        if self.pending_zeros < self.threshold_samples() {
            return true;
        }
        if self.sample_rate == 0 || self.cumulative_gaps == u32::MAX {
            return false;
        }
        let gap_ms: u64 = self.pending_zeros as u64 * 1000 / self.sample_rate as u64;
        gap_ms <= u64::MAX - self.cumulative_gap_ms && index_has_time(
            self.pending_gap_start_samples,
            self.sample_rate,
        )
    }

    /// Scans a chunk for zero gaps and returns events for any gaps found.
    ///
    /// A gap may span chunks: zeros at the end of one count for the next.
    pub fn scan_chunk(&mut self, samples: &[i16], chunk_start_samples: u64) -> (r: Vec<StreamEvent>)
        requires
            old(self)@.scannable(samples@, chunk_start_samples as nat),
        ensures
            final(self)@ == old(self)@.after(samples@, chunk_start_samples as nat),
            event::event_models(r@) == old(self)@.events(
                old(self)@.scan(samples@, chunk_start_samples as nat).gaps,
            ),
    {
        let ghost before = self@;
        let ghost at = chunk_start_samples as nat;
        let ghost all = before.scan(samples@, at).gaps;
        let threshold: u32 = self.threshold_samples();
        let mut events: Vec<StreamEvent> = Vec::new();
        let mut zeros: u32 = self.pending_zeros;
        let mut start: u64 = if self.pending_zeros > 0 {
            self.pending_gap_start_samples
        } else {
            chunk_start_samples
        };
        let mut i: usize = 0;
        proof {
            let none = before.scan(samples@.take(0), at).gaps;
            assert(none =~= Seq::empty());
            assert(event::event_models(events@) =~= before.events(none));
            assert(before.counted(none) == before);
        }
        while i < samples.len()
            invariant
                i <= samples.len(),
                at == chunk_start_samples,
                before.scannable(samples@, at),
                all == before.scan(samples@, at).gaps,
                before.scan(samples@.take(i as int), at).open == (Run {
                    len: zeros as nat,
                    start: start as nat,
                }),
                event::event_models(events@) == before.events(
                    before.scan(samples@.take(i as int), at).gaps,
                ),
                self@ == before.counted(before.scan(samples@.take(i as int), at).gaps),
                threshold == before.threshold(),
            decreases samples.len() - i,
        {
            let ghost here = before.scan(samples@.take(i as int), at);
            let ghost next = before.scan(samples@.take(i + 1), at);
            proof {
                assert(samples@.take(i + 1).drop_last() =~= samples@.take(i as int));
                assert(samples@.take(i + 1).last() == samples@[i as int]);
                assert(next.open.len <= u32::MAX);
                let first = Scan {
                    open: Run {
                        len: before.open.len,
                        start: if before.open.len > 0 {
                            before.open.start
                        } else {
                            at
                        },
                    },
                    gaps: Seq::empty(),
                };
                lemma_scan_grows(first, samples@, at, before.threshold(), i + 1);
            }
            if samples[i] == 0 {
                if zeros == 0 {
                    start = chunk_start_samples + i as u64;
                }
                zeros = zeros + 1;
            } else {
                if zeros >= threshold {
                    let ghost run = Run { len: zeros as nat, start: start as nat };
                    let ghost now = self@;
                    proof {
                        assert(next.gaps == here.gaps.push(run));
                        lemma_one_more(before, here.gaps, run);
                        lemma_gaps_ms_grows(all, before.sample_rate, next.gaps.len() as int);
                        assert(all.take(next.gaps.len() as int) =~= next.gaps);
                        assert(all[here.gaps.len() as int] == run);
                        assert(now.countable(seq![run])) by {
                            assert(seq![run].len() == 1 && seq![run][0] == run);
                        }
                    }
                    let event = self.emit_gap_event(zeros, start);
                    let ghost had = events@;
                    events.push(event);
                    proof {
                        assert(event::event_models(events@) =~= event::event_models(had).push(
                            event@,
                        ));
                        lemma_events_push(before, here.gaps, run);
                    }
                }
                zeros = 0;
            }
            i = i + 1;
        }
        self.pending_zeros = zeros;
        self.pending_gap_start_samples = start;
        assert(samples@.take(i as int) =~= samples@);
        events
    }

    /// Flushes any pending gap at end of stream.
    pub fn flush(&mut self) -> (r: Option<StreamEvent>)
        requires
            old(self)@.countable(old(self)@.last_gap()),
        ensures
            match r {
                Some(event) => {
                    &&& old(self)@.open.len >= old(self)@.threshold()
                    &&& event@ == old(self)@.event(old(self)@.last_gap())
                    &&& final(self)@ == (GapModel {
                        open: Run { len: 0, ..old(self)@.open },
                        ..old(self)@.counted(old(self)@.last_gap())
                    })
                },
                None => old(self)@.open.len < old(self)@.threshold() && final(self)@ == old(self)@,
            },
    {
        if self.pending_zeros >= self.threshold_samples() {
            let event = self.emit_gap_event(self.pending_zeros, self.pending_gap_start_samples);
            self.pending_zeros = 0;
            return Some(event);
        }
        None
    }
}

/// One more gap has one more event.
proof fn lemma_events_push(m: GapModel, gaps: Seq<Run>, run: Run)
    ensures
        m.events(gaps.push(run)) == m.events(gaps).push(m.event(gaps.push(run))),
{
    let more = gaps.push(run);
    assert forall|j: int| 0 <= j < gaps.len() implies #[trigger] m.events(more)[j] == m.events(
        gaps,
    )[j] by {
        assert(more.take(j + 1) =~= gaps.take(j + 1));
    }
    assert(more.take(more.len() as int) =~= more);
    assert(m.events(more) =~= m.events(gaps).push(m.event(more)));
}

/// Counting some gaps and then one more is counting them together.
proof fn lemma_one_more(m: GapModel, gaps: Seq<Run>, run: Run)
    ensures
        m.counted(gaps).counted(seq![run]) == m.counted(gaps.push(run)),
        m.counted(gaps).event(seq![run]) == m.event(gaps.push(run)),
        gaps_ms(gaps.push(run), m.sample_rate) == gaps_ms(gaps, m.sample_rate) + gaps_ms(
            seq![run],
            m.sample_rate,
        ),
{
    assert(gaps.push(run).drop_last() =~= gaps);
    assert(seq![run].drop_last() =~= Seq::empty());
    assert(gaps_ms(seq![run].drop_last(), m.sample_rate) == 0);
}

/// Where a scan of a chunk starts.
proof fn lemma_scan_step(m: GapModel, samples: Seq<i16>, at: nat, i: int)
    requires
        0 <= i < samples.len(),
    ensures
        m.scan(samples.take(i + 1), at) == scan_sample(
            m.scan(samples.take(i), at),
            samples[i],
            (at + i) as nat,
            m.threshold(),
        ),
{
    assert(samples.take(i + 1).drop_last() =~= samples.take(i));
    assert(samples.take(i + 1).last() == samples[i]);
}

/// Whether two scans agree: in the length of the open run, and in its place if there is one.
pub open spec fn same_open(a: Run, b: Run) -> bool {
    a.len == b.len && (a.len > 0 ==> a.start == b.start)
}

/// Gaps may span chunks: scanning two chunks one after the other finds the gaps that
/// scanning them as one finds, and ends in the same open run.
pub proof fn lemma_scan_spans_chunks(m: GapModel, a: Seq<i16>, b: Seq<i16>, at: nat)
    requires
        m.sample_rate >= 20,
    ensures
        m.scan(a + b, at).gaps == m.scan(a, at).gaps + m.after(a, at).scan(b, at + a.len()).gaps,
        same_open(m.scan(a + b, at).open, m.after(a, at).scan(b, at + a.len()).open),
{
    lemma_scan_spans_from(m, a, b, at, b.len() as int);
    assert(b.take(b.len() as int) =~= b);
}

proof fn lemma_scan_spans_from(m: GapModel, a: Seq<i16>, b: Seq<i16>, at: nat, i: int)
    requires
        m.threshold() > 0,
        0 <= i <= b.len(),
    ensures
        m.scan(a + b.take(i), at).gaps == m.scan(a, at).gaps + m.after(a, at).scan(
            b.take(i),
            at + a.len(),
        ).gaps,
        same_open(
            m.scan(a + b.take(i), at).open,
            m.after(a, at).scan(b.take(i), at + a.len()).open,
        ),
    decreases i,
{
    let second = m.after(a, at);
    if i == 0 {
        assert(a + b.take(0) =~= a);
        assert(m.scan(a, at).gaps + Seq::<Run>::empty() =~= m.scan(a, at).gaps);
    } else {
        lemma_scan_spans_from(m, a, b, at, i - 1);
        lemma_scan_step(second, b, at + a.len(), i - 1);
        let whole = a + b.take(i);
        lemma_scan_step(m, whole, at, a.len() + i - 1);
        assert(whole.take(a.len() + i) =~= whole);
        assert(whole.take(a.len() + i - 1) =~= a + b.take(i - 1));
        let x = m.scan(a + b.take(i - 1), at);
        let y = second.scan(b.take(i - 1), at + a.len());
        assert(x.gaps.push(x.open) =~= m.scan(a, at).gaps + y.gaps.push(x.open));
    }
}

/// Whether two monitors are in the same state: they differ at most in the place of a run of
/// no zeros.
pub open spec fn same_state(a: GapModel, b: GapModel) -> bool {
    same_open(a.open, b.open) && a == (GapModel { open: a.open, ..b })
}

/// Some gaps last as long as the first of them and the rest together.
proof fn lemma_gaps_ms_append(a: Seq<Run>, b: Seq<Run>, sample_rate: nat)
    ensures
        gaps_ms(a + b, sample_rate) == gaps_ms(a, sample_rate) + gaps_ms(b, sample_rate),
    decreases b.len(),
{
    if b.len() == 0 {
        assert(a + b =~= a);
    } else {
        lemma_gaps_ms_append(a, b.drop_last(), sample_rate);
        assert((a + b).drop_last() =~= a + b.drop_last());
    }
}

/// Reporting some gaps and then others is reporting them together.
proof fn lemma_events_append(m: GapModel, a: Seq<Run>, b: Seq<Run>)
    ensures
        m.events(a + b) == m.events(a) + m.counted(a).events(b),
{
    let whole = m.events(a + b);
    let parts = m.events(a) + m.counted(a).events(b);
    assert forall|i: int| 0 <= i < a.len() + b.len() implies #[trigger] whole[i] == parts[i] by {
        if i < a.len() {
            assert((a + b).take(i + 1) =~= a.take(i + 1));
        } else {
            let rest = b.take(i - a.len() + 1);
            assert((a + b).take(i + 1) =~= a + rest);
            assert((a + rest).last() == rest.last());
            lemma_gaps_ms_append(a, rest, m.sample_rate);
        }
    }
    assert(whole =~= parts);
}

/// Where a stream is cut into chunks does not matter: scanning two chunks one after the other
/// gives the events that scanning them as one gives, with all that they tell. Afterwards the
/// totals, what a flush gives, and what a scan of any further chunk gives agree as well.
///
/// At less than 20 samples per second a run of no zeros would count as a gap.
pub proof fn lemma_cut_does_not_matter(
    m: GapModel,
    a: Seq<i16>,
    b: Seq<i16>,
    at: nat,
    further: Seq<i16>,
    further_at: nat,
)
    requires
        m.sample_rate >= 20,
    ensures
        m.events(m.scan(a + b, at).gaps) == m.events(m.scan(a, at).gaps) + m.after(a, at).events(
            m.after(a, at).scan(b, at + a.len()).gaps,
        ),
        ({
            let whole = m.after(a + b, at);
            let cut = m.after(a, at).after(b, at + a.len());
            &&& same_state(whole, cut)
            &&& whole.count == cut.count
            &&& whole.total_ms == cut.total_ms
            &&& whole.last_gap() == cut.last_gap()
            &&& whole.event(whole.last_gap()) == cut.event(cut.last_gap())
            &&& whole.events(whole.scan(further, further_at).gaps) == cut.events(
                cut.scan(further, further_at).gaps,
            )
            &&& whole.after(further, further_at) == cut.after(further, further_at)
        }),
{
    let first = m.scan(a, at).gaps;
    let second = m.after(a, at).scan(b, at + a.len()).gaps;
    lemma_scan_spans_chunks(m, a, b, at);
    lemma_events_append(m, first, second);
    lemma_gaps_ms_append(first, second, m.sample_rate);
    assert(m.counted(first).events(second) =~= m.after(a, at).events(second));
    lemma_same_state_same_reports(
        m.after(a + b, at),
        m.after(a, at).after(b, at + a.len()),
        further,
        further_at,
    );
}

/// Monitors in the same state cannot be told apart: they flush the same gap with the same
/// event into the same state, and from any chunk on give the same events and come to the very
/// same state.
pub proof fn lemma_same_state_same_reports(
    x: GapModel,
    y: GapModel,
    samples: Seq<i16>,
    at: nat,
)
    requires
        x.sample_rate >= 20,
        same_state(x, y),
    ensures
        x.last_gap() == y.last_gap(),
        x.countable(x.last_gap()) == y.countable(y.last_gap()),
        x.event(x.last_gap()) == y.event(y.last_gap()),
        same_state(
            GapModel { open: Run { len: 0, ..x.open }, ..x.counted(x.last_gap()) },
            GapModel { open: Run { len: 0, ..y.open }, ..y.counted(y.last_gap()) },
        ),
        x.scannable(samples, at) == y.scannable(samples, at),
        x.events(x.scan(samples, at).gaps) == y.events(y.scan(samples, at).gaps),
        x.after(samples, at) == y.after(samples, at),
{
    let gaps = x.scan(samples, at).gaps;
    assert(x.events(gaps) =~= y.events(gaps)) by {
        assert forall|i: int| 0 <= i < gaps.len() implies #[trigger] x.events(gaps)[i] == y.events(
            gaps,
        )[i] by {
            assert(x.event(gaps.take(i + 1)) == y.event(gaps.take(i + 1)));
        }
    }
    assert(x.countable(gaps) == y.countable(gaps));
    if x.scannable(samples, at) {
        lemma_same_state_scannable(x, y, samples, at);
    }
    if y.scannable(samples, at) {
        lemma_same_state_scannable(y, x, samples, at);
    }
}

proof fn lemma_same_state_scannable(x: GapModel, y: GapModel, samples: Seq<i16>, at: nat)
    requires
        same_state(x, y),
        x.scannable(samples, at),
    ensures
        y.scannable(samples, at),
{
    assert forall|i: int| 0 <= i <= samples.len() implies (#[trigger] y.scan(
        samples.take(i),
        at,
    )).open.len <= u32::MAX by {
        assert(x.scan(samples.take(i), at) == y.scan(samples.take(i), at));
    }
    let gaps = x.scan(samples, at).gaps;
    assert(y.scan(samples, at).gaps == gaps);
    assert(y.countable(gaps));
}

/// Two chunks can be scanned one after the other exactly where they can be scanned as one.
pub proof fn lemma_cut_keeps_scannable(m: GapModel, a: Seq<i16>, b: Seq<i16>, at: nat)
    requires
        m.sample_rate >= 20,
    ensures
        m.scannable(a + b, at) <==> m.scannable(a, at) && m.after(a, at).scannable(
            b,
            at + a.len(),
        ),
{
    let second = m.after(a, at);
    let whole = a + b;
    let first_gaps = m.scan(a, at).gaps;
    let more = second.scan(b, at + a.len()).gaps;
    lemma_scan_spans_chunks(m, a, b, at);
    lemma_gaps_ms_append(first_gaps, more, m.sample_rate);
    assert forall|i: int| 0 <= i <= a.len() implies m.scan(whole.take(i), at) == #[trigger] m.scan(
        a.take(i),
        at,
    ) by {
        assert(whole.take(i) =~= a.take(i));
    }
    assert forall|i: int| 0 <= i <= b.len() implies m.scan(
        whole.take(a.len() + i),
        at,
    ).open.len == (#[trigger] second.scan(b.take(i), at + a.len())).open.len by {
        assert(whole.take(a.len() + i) =~= a + b.take(i));
        lemma_scan_spans_chunks(m, a, b.take(i), at);
    }
    assert(m.countable(first_gaps + more) <==> m.countable(first_gaps) && second.countable(more))
        by {
        let all = first_gaps + more;
        if m.countable(all) {
            assert forall|i: int| 0 <= i < first_gaps.len() implies chunk::frames_duration(
                (#[trigger] first_gaps[i]).start,
                m.sample_rate,
            ) <= MAX_NANOS by {
                assert(all[i] == first_gaps[i]);
            }
            assert forall|i: int| 0 <= i < more.len() implies chunk::frames_duration(
                (#[trigger] more[i]).start,
                m.sample_rate,
            ) <= MAX_NANOS by {
                assert(all[first_gaps.len() + i] == more[i]);
            }
        }
    }
    if m.scannable(whole, at) {
        assert forall|i: int| 0 <= i <= a.len() implies (#[trigger] m.scan(
            a.take(i),
            at,
        )).open.len <= u32::MAX by {
            assert(m.scan(whole.take(i), at).open.len <= u32::MAX);
        }
        assert forall|i: int| 0 <= i <= b.len() implies (#[trigger] second.scan(
            b.take(i),
            at + a.len(),
        )).open.len <= u32::MAX by {
            assert(m.scan(whole.take(a.len() + i), at).open.len <= u32::MAX);
        }
    }
    if m.scannable(a, at) && second.scannable(b, at + a.len()) {
        assert forall|i: int| 0 <= i <= whole.len() implies (#[trigger] m.scan(
            whole.take(i),
            at,
        )).open.len <= u32::MAX by {
            if i <= a.len() {
                assert(m.scan(a.take(i), at).open.len <= u32::MAX);
            } else {
                assert(second.scan(b.take(i - a.len()), at + a.len()).open.len <= u32::MAX);
                assert(whole.take(i) == whole.take(a.len() + (i - a.len())));
            }
        }
    }
}

/// Whether a run is a maximal run of zeros of a chunk at `at`, long enough, that ends
/// before the chunk does.
pub open spec fn is_gap(samples: Seq<i16>, at: nat, threshold: nat, run: Run) -> bool {
    let first = run.start - at;
    &&& run.len >= threshold
    &&& 0 <= first
    &&& first + run.len < samples.len()
    &&& forall|k: int| first <= k < first + run.len ==> #[trigger] samples[k] == 0
    &&& samples[first + run.len] != 0
    &&& first == 0 || samples[first - 1] != 0
}

/// A monitor without an open run reports exactly the gaps that a chunk holds.
pub proof fn lemma_scan_finds_gaps(m: GapModel, samples: Seq<i16>, at: nat, run: Run)
    requires
        m.sample_rate >= 20,
        m.open.len == 0,
    ensures
        m.scan(samples, at).gaps.contains(run) <==> is_gap(samples, at, m.threshold(), run),
{
    lemma_scan_finds_from(m, samples, at, samples.len() as int);
    assert(samples.take(samples.len() as int) =~= samples);
}

proof fn lemma_scan_finds_from(m: GapModel, samples: Seq<i16>, at: nat, i: int)
    requires
        m.threshold() > 0,
        m.open.len == 0,
        0 <= i <= samples.len(),
    ensures
        ({
            let scan = m.scan(samples.take(i), at);
            let first = i - scan.open.len;
            &&& forall|run: Run|
                scan.gaps.contains(run) <==> is_gap(samples.take(i), at, m.threshold(), run)
            &&& 0 <= first
            &&& scan.open.len > 0 ==> scan.open.start == at + first
            &&& forall|k: int| first <= k < i ==> #[trigger] samples[k] == 0
            &&& first == 0 || samples[first - 1] != 0
        }),
    decreases i,
{
    let part = samples.take(i);
    let scan = m.scan(part, at);
    if i == 0 {
        assert(scan.gaps =~= Seq::empty());
    } else {
        lemma_scan_finds_from(m, samples, at, i - 1);
        lemma_scan_step(m, samples, at, i - 1);
        let shorter = samples.take(i - 1);
        let had = m.scan(shorter, at);
        let first = i - 1 - had.open.len;
        assert forall|run: Run|
            scan.gaps.contains(run) <==> is_gap(part, at, m.threshold(), run) by {
            let start = run.start - at;
            // A run that ended earlier is a gap of the shorter part as well.
            if start + run.len < i - 1 {
                if is_gap(part, at, m.threshold(), run) {
                    assert(shorter[start + run.len as int] == part[start + run.len as int]);
                    assert forall|k: int| start <= k < start + run.len implies #[trigger] shorter[k]
                        == 0 by {
                        assert(part[k] == 0);
                    }
                    assert(is_gap(shorter, at, m.threshold(), run));
                }
                if is_gap(shorter, at, m.threshold(), run) {
                    assert forall|k: int| start <= k < start + run.len implies #[trigger] part[k]
                        == 0 by {
                        assert(shorter[k] == 0);
                    }
                    assert(is_gap(part, at, m.threshold(), run));
                }
            }
            if samples[i - 1] != 0 && had.open.len >= m.threshold() {
                lemma_contains_push(had.gaps, had.open, run);
                if run == had.open {
                    assert forall|k: int| start <= k < start + run.len implies #[trigger] part[k]
                        == 0 by {
                        assert(samples[k] == 0);
                    }
                    assert(is_gap(part, at, m.threshold(), run));
                }
            }
            if is_gap(part, at, m.threshold(), run) && start + run.len == i - 1 {
                // Both runs end at the same place; neither can be longer than the other.
                if start < first {
                    assert(samples[first - 1] != 0);
                    assert(part[first - 1] == 0);
                } else if first < start {
                    assert(samples[start - 1] == 0);
                    assert(part[start - 1] != 0);
                }
                assert(run.len == had.open.len);
                assert(run == had.open);
            }
        }
    }
}

proof fn lemma_contains_push(gaps: Seq<Run>, last: Run, run: Run)
    ensures
        gaps.push(last).contains(run) <==> gaps.contains(run) || run == last,
{
    if gaps.contains(run) {
        let i = choose|i: int| 0 <= i < gaps.len() && gaps[i] == run;
        assert(gaps.push(last)[i] == run);
    }
    if run == last {
        assert(gaps.push(last)[gaps.len() as int] == run);
    }
    if gaps.push(last).contains(run) && run != last {
        let i = choose|i: int| 0 <= i < gaps.len() + 1 && gaps.push(last)[i] == run;
        assert(gaps[i] == run);
    }
}

/// A stretch of a chunk is reported, by a monitor without an open run, exactly where it holds
/// zeros only, sound or the start of the chunk lies before it and sound behind it, and one more
/// sample would make it longer than 50 milliseconds.
pub proof fn lemma_gaps_are_zeros(m: GapModel, samples: Seq<i16>, at: nat, first: nat, len: nat)
    requires
        m.sample_rate >= 20,
        m.open.len == 0,
    ensures
        m.scan(samples, at).gaps.contains(Run { len, start: at + first }) <==> {
            &&& 1000 * (len + 1) > 50 * m.sample_rate
            &&& first + len < samples.len()
            &&& forall|k: int| first <= k < first + len ==> #[trigger] samples[k] == 0
            &&& samples[(first + len) as int] != 0
            &&& first == 0 || samples[first - 1] != 0
        },
{
    let run = Run { len, start: at + first };
    lemma_scan_finds_gaps(m, samples, at, run);
    let t = m.threshold();
    assert(len >= t <==> 1000 * (len + 1) > 50 * m.sample_rate);
}

/// A monitor without an open run holds, after a chunk, the zeros that the chunk ends with.
pub proof fn lemma_open_run_is_the_end(m: GapModel, samples: Seq<i16>, at: nat)
    requires
        m.sample_rate >= 20,
        m.open.len == 0,
    ensures
        ({
            let open = m.after(samples, at).open;
            &&& open.len <= samples.len()
            &&& forall|k: int|
                samples.len() - open.len <= k < samples.len() ==> #[trigger] samples[k] == 0
            &&& open.len < samples.len() ==> samples[samples.len() - open.len - 1] != 0
            &&& open.len > 0 ==> open.start == at + samples.len() - open.len
        }),
{
    lemma_scan_finds_from(m, samples, at, samples.len() as int);
    assert(samples.take(samples.len() as int) =~= samples);
}

/// What has not ended when the stream ends is a gap exactly where one more sample would make
/// it longer than 50 milliseconds.
pub proof fn lemma_last_gap(m: GapModel)
    ensures
        1000 * (m.open.len + 1) > 50 * m.sample_rate ==> m.last_gap() == seq![m.open],
        1000 * (m.open.len + 1) <= 50 * m.sample_rate ==> m.last_gap().len() == 0,
{
}

/// Gaps are reported one by one: each event tells of its own gap, in samples and in whole
/// milliseconds, and adds it to what the event before it told.
pub proof fn lemma_gap_reports(m: GapModel, gaps: Seq<Run>, i: int)
    requires
        m.sample_rate > 0,
        0 <= i < gaps.len(),
    ensures
        m.events(gaps).len() == gaps.len(),
        m.events(gaps)[i] matches EventModel::AudioGapDetected {
            source_id,
            gap_duration_ms,
            gap_samples,
            position,
            cumulative_gaps,
            cumulative_gap_ms,
        } && {
            &&& source_id == m.source
            &&& gap_samples == gaps[i].len
            &&& gap_duration_ms * m.sample_rate <= 1000 * gaps[i].len < (gap_duration_ms + 1)
                * m.sample_rate
            &&& position == chunk::frames_duration(gaps[i].start, m.sample_rate)
            &&& cumulative_gaps == m.count + i + 1
            &&& cumulative_gap_ms == gap_duration_ms + if i == 0 {
                m.total_ms
            } else {
                m.events(gaps)[i - 1]->AudioGapDetected_cumulative_gap_ms
            }
            &&& i == gaps.len() - 1 ==> m.counted(gaps).count == cumulative_gaps && m.counted(
                gaps,
            ).total_ms == cumulative_gap_ms
        },
{
    let part = gaps.take(i + 1);
    assert(part.last() == gaps[i]);
    assert(part.drop_last() =~= gaps.take(i));
    if i == 0 {
        assert(gaps.take(0) =~= Seq::empty());
    }
    if i == gaps.len() - 1 {
        assert(part =~= gaps);
    }
    let (n, r) = (gaps[i].len * 1000, m.sample_rate);
    vstd::arithmetic::div_mod::lemma_fundamental_div_mod(n as int, r as int);
    let q = n / r;
    assert(q * r == r * q && (q + 1) * r == r * q + r) by (nonlinear_arith);
}

/// A gap is placed where its first sample lies, to within two nanoseconds.
pub proof fn lemma_gap_position(m: GapModel, gaps: Seq<Run>, i: int)
    requires
        0 < m.sample_rate <= u32::MAX,
        0 <= i < gaps.len(),
        gaps[i].start < 0x20_0000_0000_0000,
        gaps[i].start * 1_000_000_000 <= m.sample_rate * 0x20_0000_0000_0000,
    ensures
        gaps[i].start * 1_000_000_000 - 2 * m.sample_rate
            <= m.events(gaps)[i]->AudioGapDetected_position * m.sample_rate <= gaps[i].start
            * 1_000_000_000 + 2 * m.sample_rate,
{
    lemma_gap_reports(m, gaps, i);
    chunk::lemma_duration_of_frames(gaps[i].start, m.sample_rate as u32);
}

/// Gaps of a chunk are reported in the order in which they lie, with sound between them.
pub proof fn lemma_gaps_in_order(m: GapModel, samples: Seq<i16>, at: nat, i: int, j: int)
    requires
        m.sample_rate >= 20,
        m.open.len == 0,
        0 <= i < j < m.scan(samples, at).gaps.len(),
    ensures
        ({
            let gaps = m.scan(samples, at).gaps;
            gaps[i].start + gaps[i].len < gaps[j].start
        }),
{
    lemma_gaps_in_order_from(m, samples, at, samples.len() as int);
    assert(samples.take(samples.len() as int) =~= samples);
}

proof fn lemma_gaps_in_order_from(m: GapModel, samples: Seq<i16>, at: nat, n: int)
    requires
        m.threshold() > 0,
        m.open.len == 0,
        0 <= n <= samples.len(),
    ensures
        ({
            let scan = m.scan(samples.take(n), at);
            &&& scan.open.len > 0 ==> scan.open.start + scan.open.len == at + n
            &&& scan.open.len <= n
            &&& forall|i: int|
                0 <= i < scan.gaps.len() ==> (#[trigger] scan.gaps[i]).start + scan.gaps[i].len
                    < at + n - scan.open.len
            &&& forall|i: int, j: int|
                0 <= i < j < scan.gaps.len() ==> (#[trigger] scan.gaps[i]).start + scan.gaps[i].len
                    < (#[trigger] scan.gaps[j]).start
        }),
    decreases n,
{
    let scan = m.scan(samples.take(n), at);
    if n == 0 {
        assert(scan.gaps =~= Seq::empty());
    } else {
        lemma_gaps_in_order_from(m, samples, at, n - 1);
        lemma_scan_step(m, samples, at, n - 1);
    }
}

} // verus!
