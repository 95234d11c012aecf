//! Audio data chunk with metadata.
use crate::binary64;
use crate::binary64::Binary64;
use crate::source::source_id::share;
use crate::source::SourceId;
use crate::time;
use crate::time::Duration;
use std::sync::Arc;
use vstd::prelude::*;

verus! {

/// What a chunk holds.
pub ghost struct ChunkModel {
    /// PCM samples.
    pub samples: Seq<i16>,
    /// Nanoseconds from the start of the recording.
    pub timestamp: nat,
    /// Frames per second.
    pub sample_rate: nat,
    /// Samples per frame.
    pub channels: nat,
    /// The text of the source's identifier.
    pub source_id: Option<Seq<char>>,
}

/// A discrete buffer of audio samples with associated metadata.
///
/// Samples are shared: cloning a chunk copies none of them.
#[derive(Debug)]
pub struct AudioChunk {
    /// PCM audio samples in 16-bit signed integer format.
    pub samples: Arc<Vec<i16>>,
    /// Timestamp from the start of the recording session.
    pub timestamp: Duration,
    /// Sample rate in Hz (e.g., 16000, 44100, 48000).
    pub sample_rate: u32,
    /// Number of audio channels (1 = mono, 2 = stereo).
    pub channels: u16,
    /// The source of the chunk; `None` for merged chunks or single-source capture.
    pub source_id: Option<SourceId>,
}

/// The text of an optional source.
pub open spec fn source_text(id: Option<SourceId>) -> Option<Seq<char>> {
    match id {
        Some(id) => Some(id@),
        None => None,
    }
}

impl View for AudioChunk {
    type V = ChunkModel;

    open spec fn view(&self) -> ChunkModel {
        ChunkModel {
            samples: self.samples@,
            timestamp: self.timestamp@,
            sample_rate: self.sample_rate as nat,
            channels: self.channels as nat,
            source_id: source_text(self.source_id),
        }
    }
}

/// The time, in nanoseconds, that so many frames last at a rate.
pub open spec fn frames_duration(frames: nat, sample_rate: nat) -> nat {
    binary64::nanoseconds(
        binary64::quotient(binary64::of_nat(frames), binary64::of_nat(sample_rate)),
    )
}

impl ChunkModel {
    /// The number of complete frames.
    pub open spec fn frame_count(self) -> nat {
        if self.channels == 0 {
            0
        } else {
            self.samples.len() / self.channels
        }
    }

    /// How long the chunk lasts, in nanoseconds.
    pub open spec fn duration(self) -> nat {
        if self.sample_rate == 0 || self.channels == 0 {
            0
        } else {
            frames_duration(self.frame_count(), self.sample_rate)
        }
    }
}

impl Clone for AudioChunk {
    fn clone(&self) -> (r: Self)
        ensures
            r == *self,
    {
        AudioChunk {
            samples: share(&self.samples),
            timestamp: self.timestamp,
            sample_rate: self.sample_rate,
            channels: self.channels,
            source_id: match &self.source_id {
                Some(id) => Some(id.clone()),
                None => None,
            },
        }
    }
}

/// The time that so many frames last at a rate that is not zero.
pub(crate) fn duration_of_frames(frames: usize, sample_rate: u32) -> (r: Duration)
    requires
        sample_rate > 0,
        frames <= isize::MAX,
    ensures
        r@ == frames_duration(frames as nat, sample_rate as nat),
{
    let secs = Binary64::from_u64(frames as u64).divided_by(
        Binary64::from_u64(sample_rate as u64),
    );
    proof {
        binary64::lemma_quotient_bound(frames as u64, sample_rate as u64);
    }
    Duration::from_seconds(secs)
}

/// Tells whether the time at which a frame lies is one that a `Duration` can hold.
pub(crate) fn index_has_time(frame: u64, sample_rate: u32) -> (r: bool)
    requires
        sample_rate > 0,
    ensures
        r == (frames_duration(frame as nat, sample_rate as nat) <= time::MAX_NANOS),
{
    Binary64::from_u64(frame).divided_by(Binary64::from_u64(sample_rate as u64)).to_nanoseconds()
        <= time::MAX_NANOS
}

/// The time at which a frame lies in a stream with a rate that is not zero.
pub(crate) fn duration_of_index(frame: u64, sample_rate: u32) -> (r: Duration)
    requires
        sample_rate > 0,
        frames_duration(frame as nat, sample_rate as nat) <= time::MAX_NANOS,
    ensures
        r@ == frames_duration(frame as nat, sample_rate as nat),
{
    Duration::from_seconds(
        Binary64::from_u64(frame).divided_by(Binary64::from_u64(sample_rate as u64)),
    )
}

impl AudioChunk {
    /// Creates a new `AudioChunk` without a source.
    pub fn new(samples: Vec<i16>, timestamp: Duration, sample_rate: u32, channels: u16) -> (r: Self)
        ensures
            r@ == (ChunkModel {
                samples: samples@,
                timestamp: timestamp@,
                sample_rate: sample_rate as nat,
                channels: channels as nat,
                source_id: None,
            }),
            r.timestamp == timestamp,
    {
        AudioChunk { samples: Arc::new(samples), timestamp, sample_rate, channels, source_id: None }
    }

    /// Creates a new `AudioChunk` with a source identifier.
    pub fn with_source(
        samples: Vec<i16>,
        timestamp: Duration,
        sample_rate: u32,
        channels: u16,
        source_id: SourceId,
    ) -> (r: Self)
        ensures
            r@ == (ChunkModel {
                samples: samples@,
                timestamp: timestamp@,
                sample_rate: sample_rate as nat,
                channels: channels as nat,
                source_id: Some(source_id@),
            }),
            r.timestamp == timestamp,
            r.source_id == Some(source_id),
    {
        AudioChunk {
            samples: Arc::new(samples),
            timestamp,
            sample_rate,
            channels,
            source_id: Some(source_id),
        }
    }

    /// Creates a new `AudioChunk` from samples that are already shared.
    pub fn from_arc(
        samples: Arc<Vec<i16>>,
        timestamp: Duration,
        sample_rate: u32,
        channels: u16,
        source_id: Option<SourceId>,
    ) -> (r: Self)
        ensures
            r == (AudioChunk { samples, timestamp, sample_rate, channels, source_id }),
    {
        AudioChunk { samples, timestamp, sample_rate, channels, source_id }
    }

    /// Returns the duration of this audio chunk.
    ///
    /// Calculated from the number of samples, sample rate, and channel count.
    pub fn duration(&self) -> (r: Duration)
        requires
            self.samples@.len() <= isize::MAX,
        ensures
            r@ == self@.duration(),
    {
        if self.sample_rate == 0 || self.channels == 0 {
            return Duration::zero();
        }
        let frames: usize = self.frame_count();
        duration_of_frames(frames, self.sample_rate)
    }

    /// Returns the number of audio frames in this chunk.
    ///
    /// A frame contains one sample per channel.
    pub fn frame_count(&self) -> (r: usize)
        ensures
            r == self@.frame_count(),
            r <= self.samples@.len(),
    {
        if self.channels == 0 {
            return 0;
        }
        proof {
            vstd::arithmetic::div_mod::lemma_div_is_ordered_by_denominator(
                self.samples@.len() as int,
                1,
                self.channels as int,
            );
        }
        self.samples.len() / self.channels as usize
    }

    /// Returns `true` if this chunk contains no samples.
    pub fn is_empty(&self) -> (r: bool)
        ensures
            r == (self@.samples.len() == 0),
    {
        self.samples.len() == 0
    }
}

/// Frames last as long as their number says at their rate, to within two nanoseconds.
pub proof fn lemma_duration_of_frames(frames: nat, sample_rate: u32)
    requires
        sample_rate > 0,
        frames < 0x20_0000_0000_0000,
        frames * 1_000_000_000 <= sample_rate * 0x20_0000_0000_0000,
    ensures
        frames * 1_000_000_000 - 2 * sample_rate <= frames_duration(frames, sample_rate as nat)
            * sample_rate <= frames * 1_000_000_000 + 2 * sample_rate,
{
    vstd::arithmetic::power2::lemma2_to64_rest();
    binary64::lemma_nanoseconds_close(frames, sample_rate as nat);
}

/// A chunk has one frame for each full set of samples, one per channel.
pub proof fn lemma_frames_are_complete(chunk: ChunkModel)
    ensures
        chunk.channels > 0 ==> chunk.frame_count() * chunk.channels <= chunk.samples.len() < (
        chunk.frame_count() + 1) * chunk.channels,
        chunk.channels == 0 ==> chunk.frame_count() == 0,
{
    if chunk.channels > 0 {
        let (n, c) = (chunk.samples.len() as int, chunk.channels as int);
        vstd::arithmetic::div_mod::lemma_fundamental_div_mod(n, c);
        let q = n / c;
        assert(q * c == c * q && (q + 1) * c == c * q + c) by (nonlinear_arith);
    }
}

/// A chunk lasts as long as its frames at its rate, to within two nanoseconds; without a rate
/// or channels it lasts no time.
pub proof fn lemma_chunk_duration(chunk: AudioChunk)
    requires
        chunk.samples@.len() < 0x20_0000_0000_0000,
        chunk@.frame_count() * 1_000_000_000 <= chunk.sample_rate * 0x20_0000_0000_0000,
    ensures
        chunk.sample_rate == 0 || chunk.channels == 0 ==> chunk@.duration() == 0,
        chunk.sample_rate > 0 && chunk.channels > 0 ==> {
            let frames = chunk.samples@.len() / (chunk.channels as nat);
            frames * 1_000_000_000 - 2 * chunk.sample_rate <= chunk@.duration() * chunk.sample_rate
                <= frames * 1_000_000_000 + 2 * chunk.sample_rate
        },
{
    if chunk.sample_rate > 0 && chunk.channels > 0 {
        let (n, c) = (chunk.samples@.len() as int, chunk.channels as int);
        vstd::arithmetic::div_mod::lemma_div_is_ordered_by_denominator(n, 1, c);
        lemma_duration_of_frames(chunk@.frame_count(), chunk.sample_rate);
    }
}

} // verus!
