//! Signal metrics of each chunk.
use crate::event::EventModel;
use crate::source::source_id;
use crate::source::source_id::id_or_default;
use crate::source::SourceId;
use crate::time::Duration;
use crate::StreamEvent;
use vstd::prelude::*;

verus! {

/// The absolute value of a sample, within the range of a sample.
pub open spec fn amplitude(sample: i16) -> int {
    if sample == -32768 {
        32767
    } else if sample < 0 {
        -sample
    } else {
        sample as int
    }
}

/// The largest absolute value of some samples.
pub open spec fn peak_of(samples: Seq<i16>) -> int
    decreases samples.len(),
{
    if samples.len() == 0 {
        0
    } else {
        let before = peak_of(samples.drop_last());
        if amplitude(samples.last()) > before {
            amplitude(samples.last())
        } else {
            before
        }
    }
}

/// The sum of some samples.
pub open spec fn sum_of(samples: Seq<i16>) -> int
    decreases samples.len(),
{
    if samples.len() == 0 {
        0
    } else {
        sum_of(samples.drop_last()) + samples.last()
    }
}

/// The sum of the squares of some samples.
pub open spec fn sum_squares_of(samples: Seq<i16>) -> nat
    decreases samples.len(),
{
    if samples.len() == 0 {
        0
    } else {
        (sum_squares_of(samples.drop_last()) + samples.last() * samples.last()) as nat
    }
}

/// Whether a sample lies at an end of its range.
pub open spec fn is_clipped(sample: i16) -> bool {
    sample == 32767 || sample == -32768
}

/// How many samples lie at an end of their range.
pub open spec fn clipped_in(samples: Seq<i16>) -> nat
    decreases samples.len(),
{
    if samples.len() == 0 {
        0
    } else {
        clipped_in(samples.drop_last()) + if is_clipped(samples.last()) {
            1nat
        } else {
            0nat
        }
    }
}

/// The report on some samples, where so many samples were clipped before.
pub open spec fn quality_model(
    source: Seq<char>,
    samples: Seq<i16>,
    position: nat,
    clipped_before: nat,
) -> EventModel {
    EventModel::AudioQualityReport {
        source_id: source,
        position,
        peak_amplitude: peak_of(samples),
        sample_count: samples.len(),
        sum_squares: sum_squares_of(samples),
        sum: sum_of(samples),
        clipped_samples: clipped_in(samples),
        total_clipped_samples: clipped_before + clipped_in(samples),
    }
}

/// Monitors audio quality metrics per-chunk (peak, level, clipping, offset).
///
/// A report holds the sums from which level and offset follow.
pub struct QualityMonitor {
    source_id: Option<SourceId>,
    total_clipped: u64,
}

/// Every square of a sample is bounded.
proof fn lemma_square(s: i16)
    ensures
        0 <= s * s <= 0x4000_0000,
{
    assert(0 <= s * s <= 0x4000_0000) by (nonlinear_arith)
        requires
            -32768 <= s <= 32767,
    ;
}

proof fn lemma_clipped_grows(samples: Seq<i16>, i: int)
    requires
        0 <= i <= samples.len(),
    ensures
        clipped_in(samples.take(i)) <= clipped_in(samples),
    decreases samples.len() - i,
{
    if i == samples.len() {
        assert(samples.take(i) =~= samples);
    } else {
        lemma_clipped_grows(samples, i + 1);
        assert(samples.take(i + 1).drop_last() =~= samples.take(i));
    }
}

impl QualityMonitor {
    /// The name under which reports are made.
    pub closed spec fn source(self) -> Seq<char> {
        source_id::text_or_default(self.source_id)
    }

    /// How many samples were clipped so far.
    pub closed spec fn clipped(self) -> nat {
        self.total_clipped as nat
    }

    /// Creates a monitor that has seen nothing.
    pub fn new(source_id: Option<SourceId>) -> (r: Self)
        ensures
            r.source() == source_id::text_or_default(source_id),
            r.clipped() == 0,
    {
        QualityMonitor { source_id, total_clipped: 0 }
    }

    /// Counts the samples at the ends of their range.
    fn count_clipped(samples: &[i16]) -> (r: u64)
        ensures
            r == clipped_in(samples@),
    {
        let mut r: u64 = 0;
        let mut i: usize = 0;
        while i < samples.len()
            invariant
                i <= samples.len(),
                r == clipped_in(samples@.take(i as int)),
                r <= i,
            decreases samples.len() - i,
        {
            assert(samples@.take(i + 1).drop_last() =~= samples@.take(i as int));
            if samples[i] == i16::MAX || samples[i] == i16::MIN {
                r = r + 1;
            }
            i = i + 1;
        }
        assert(samples@.take(i as int) =~= samples@);
        r
    }

    /// Tells whether the clipped samples of a chunk can be counted.
    pub fn can_analyze(&self, samples: &[i16]) -> (r: bool)
        ensures
            r == (clipped_in(samples@) <= u32::MAX && self.clipped() + clipped_in(samples@)
                <= u64::MAX),
    {
        let clipped: u64 = Self::count_clipped(samples);
        clipped <= u32::MAX as u64 && clipped <= u64::MAX - self.total_clipped
    }

    /// Analyzes a chunk and returns a quality report event.
    pub fn analyze_chunk(&mut self, samples: &[i16], position: Duration) -> (r: StreamEvent)
        requires
            clipped_in(samples@) <= u32::MAX,
            old(self).clipped() + clipped_in(samples@) <= u64::MAX,
        ensures
            r@ == quality_model(old(self).source(), samples@, position@, old(self).clipped()),
            final(self).source() == old(self).source(),
            final(self).clipped() == old(self).clipped() + clipped_in(samples@),
    {
        if samples.len() == 0 {
            return self.empty_report(position);
        }
        let mut peak: i16 = 0;
        let mut sum_squares: u128 = 0;
        let mut sum: i128 = 0;
        let mut clipped: u32 = 0;
        let mut i: usize = 0;
        while i < samples.len()
            invariant
                i <= samples.len(),
                clipped_in(samples@) <= u32::MAX,
                peak == peak_of(samples@.take(i as int)),
                sum == sum_of(samples@.take(i as int)),
                -32768 * i <= sum <= 32767 * i,
                sum_squares == sum_squares_of(samples@.take(i as int)),
                sum_squares <= 0x4000_0000 * i,
                clipped == clipped_in(samples@.take(i as int)),
            decreases samples.len() - i,
        {
            let s: i16 = samples[i];
            proof {
                assert(samples@.take(i + 1).drop_last() =~= samples@.take(i as int));
                lemma_clipped_grows(samples@, i + 1);
                lemma_square(s);
            }
            let abs: i16 = if s == i16::MIN {
                i16::MAX
            } else if s < 0 {
                -s
            } else {
                s
            };
            if abs > peak {
                peak = abs;
            }
            let wide: i64 = s as i64;
            sum_squares = sum_squares + (wide * wide) as u128;
            sum = sum + s as i128;
            if s == i16::MAX || s == i16::MIN {
                clipped = clipped + 1;
            }
            i = i + 1;
        }
        assert(samples@.take(i as int) =~= samples@);
        self.total_clipped = self.total_clipped + clipped as u64;
        StreamEvent::AudioQualityReport {
            source_id: id_or_default(&self.source_id),
            position,
            peak_amplitude: peak,
            sample_count: samples.len(),
            sum_squares,
            sum,
            clipped_samples: clipped,
            total_clipped_samples: self.total_clipped,
        }
    }

    /// Returns a report for empty chunks.
    fn empty_report(&self, position: Duration) -> (r: StreamEvent)
        ensures
            r@ == quality_model(self.source(), Seq::empty(), position@, self.clipped()),
    {
        StreamEvent::AudioQualityReport {
            source_id: id_or_default(&self.source_id),
            position,
            peak_amplitude: 0,
            sample_count: 0,
            sum_squares: 0,
            sum: 0,
            clipped_samples: 0,
            total_clipped_samples: self.total_clipped,
        }
    }

    /// Returns cumulative clipped sample count.
    pub fn total_clipped(&self) -> (r: u64)
        ensures
            r == self.clipped(),
    {
        self.total_clipped
    }
}

/// The peak is the largest amplitude: none exceeds it, and some sample has it unless all
/// are silent.
pub proof fn lemma_peak(samples: Seq<i16>)
    ensures
        forall|i: int| 0 <= i < samples.len() ==> amplitude(#[trigger] samples[i]) <= peak_of(
            samples,
        ),
        peak_of(samples) == 0 || exists|i: int|
            0 <= i < samples.len() && amplitude(#[trigger] samples[i]) == peak_of(samples),
    decreases samples.len(),
{
    if samples.len() > 0 {
        let shorter = samples.drop_last();
        lemma_peak(shorter);
        assert forall|i: int| 0 <= i < samples.len() implies amplitude(#[trigger] samples[i])
            <= peak_of(samples) by {
            if i < shorter.len() {
                assert(shorter[i] == samples[i]);
            }
        }
        if peak_of(samples) != 0 {
            if amplitude(samples.last()) > peak_of(shorter) {
                assert(amplitude(samples[samples.len() - 1]) == peak_of(samples));
            } else {
                let i = choose|i: int|
                    0 <= i < shorter.len() && amplitude(#[trigger] shorter[i]) == peak_of(shorter);
                assert(amplitude(samples[i]) == peak_of(samples));
            }
        }
    }
}

/// Clipped samples of a stream can be counted chunk by chunk.
pub proof fn lemma_clipped_adds(a: Seq<i16>, b: Seq<i16>)
    ensures
        clipped_in(a + b) == clipped_in(a) + clipped_in(b),
    decreases b.len(),
{
    if b.len() == 0 {
        assert(a + b =~= a);
    } else {
        lemma_clipped_adds(a, b.drop_last());
        assert((a + b).drop_last() =~= a + b.drop_last());
    }
}

/// One sample alone: its peak is its absolute value within the range of a sample, its sums are
/// itself and its square, and it is clipped exactly at an end of the range.
pub proof fn lemma_report_of_one(source: Seq<char>, sample: i16, position: nat, before: nat)
    ensures
        quality_model(source, seq![sample], position, before) == (
        EventModel::AudioQualityReport {
            source_id: source,
            position,
            peak_amplitude: if sample >= 0 {
                sample as int
            } else if sample > -32768 {
                -sample
            } else {
                32767
            },
            sample_count: 1,
            sum_squares: (sample * sample) as nat,
            sum: sample as int,
            clipped_samples: if sample == 32767 || sample == -32768 {
                1
            } else {
                0
            },
            total_clipped_samples: if sample == 32767 || sample == -32768 {
                before + 1
            } else {
                before
            },
        }),
{
    let one = seq![sample];
    assert(one.drop_last() =~= Seq::empty());
    assert(one.last() == sample);
    reveal_with_fuel(peak_of, 2);
    reveal_with_fuel(sum_of, 2);
    reveal_with_fuel(sum_squares_of, 2);
    reveal_with_fuel(clipped_in, 2);
}

/// Of two stretches of samples, one after the other, the sums and counts of the whole are
/// those of the parts together, and its peak is the larger of theirs.
pub proof fn lemma_report_of_both(
    source: Seq<char>,
    a: Seq<i16>,
    b: Seq<i16>,
    position: nat,
    before: nat,
)
    ensures
        match (
            quality_model(source, a, position, before),
            quality_model(source, b, position, before),
            quality_model(source, a + b, position, before),
        ) {
            (
                EventModel::AudioQualityReport {
                    peak_amplitude: peak_a,
                    sample_count: count_a,
                    sum_squares: squares_a,
                    sum: sum_a,
                    clipped_samples: clipped_a,
                    ..
                },
                EventModel::AudioQualityReport {
                    peak_amplitude: peak_b,
                    sample_count: count_b,
                    sum_squares: squares_b,
                    sum: sum_b,
                    clipped_samples: clipped_b,
                    ..
                },
                EventModel::AudioQualityReport {
                    source_id,
                    position: place,
                    peak_amplitude,
                    sample_count,
                    sum_squares,
                    sum,
                    clipped_samples,
                    total_clipped_samples,
                },
            ) => {
                &&& source_id == source
                &&& place == position
                &&& peak_amplitude == if peak_a > peak_b {
                    peak_a
                } else {
                    peak_b
                }
                &&& sample_count == count_a + count_b
                &&& sum_squares == squares_a + squares_b
                &&& sum == sum_a + sum_b
                &&& clipped_samples == clipped_a + clipped_b
                &&& total_clipped_samples == before + clipped_a + clipped_b
            },
            _ => false,
        },
    decreases b.len(),
{
    let whole = a + b;
    if b.len() == 0 {
        assert(whole =~= a);
        lemma_peak_not_negative(a);
    } else {
        lemma_report_of_both(source, a, b.drop_last(), position, before);
        assert(whole.drop_last() =~= a + b.drop_last());
        assert(whole.last() == b.last());
        lemma_square(b.last());
    }
}

proof fn lemma_peak_not_negative(samples: Seq<i16>)
    ensures
        peak_of(samples) >= 0,
    decreases samples.len(),
{
    if samples.len() > 0 {
        lemma_peak_not_negative(samples.drop_last());
    }
}

/// A chunk without samples is reported with zeros and what was clipped before it.
pub proof fn lemma_report_of_none(source: Seq<char>, position: nat, before: nat)
    ensures
        quality_model(source, Seq::empty(), position, before) == (
        EventModel::AudioQualityReport {
            source_id: source,
            position,
            peak_amplitude: 0,
            sample_count: 0,
            sum_squares: 0,
            sum: 0,
            clipped_samples: 0,
            total_clipped_samples: before,
        }),
{
}

} // verus!
