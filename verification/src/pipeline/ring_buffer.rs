//! Ring buffer wrapper for audio capture.
use crate::binary64;
use crate::binary64::Binary64;
use crate::chunk::ChunkModel;
use crate::ring;
use crate::ring::{SampleConsumer, SampleProducer, SampleRing};
use crate::time;
use crate::time::{Duration, MAX_NANOS};
use crate::AudioChunk;
use vstd::prelude::*;

verus! {

/// The complete frames in a span of so many nanoseconds.
pub open spec fn frames_in(sample_rate: nat, nanos: nat) -> nat {
    binary64::floor(binary64::product(binary64::of_nat(sample_rate), time::seconds(nanos)))
}

/// The samples of the complete frames in a span of so many nanoseconds.
pub open spec fn samples_in(sample_rate: nat, channels: nat, nanos: nat) -> nat {
    frames_in(sample_rate, nanos) * channels
}

/// The time at which a sample of a stream lies, in nanoseconds from its start.
pub open spec fn sample_time(index: nat, sample_rate: nat, channels: nat) -> nat {
    binary64::nanoseconds(
        binary64::quotient(
            binary64::quotient(binary64::of_nat(index), binary64::of_nat(sample_rate)),
            binary64::of_nat(channels),
        ),
    )
}

/// The samples of some chunks, one chunk after the other.
pub open spec fn chunk_samples(chunks: Seq<AudioChunk>) -> Seq<i16>
    decreases chunks.len(),
{
    if chunks.len() == 0 {
        Seq::empty()
    } else {
        chunk_samples(chunks.drop_last()) + chunks.last().samples@
    }
}

/// The number of samples of the complete frames in a span of time.
pub fn samples_in_duration(sample_rate: u32, channels: u16, duration: Duration) -> (r: usize)
    requires
        samples_in(sample_rate as nat, channels as nat, duration@) <= usize::MAX,
        frames_in(sample_rate as nat, duration@) <= usize::MAX,
    ensures
        r == samples_in(sample_rate as nat, channels as nat, duration@),
{
    let frames: u128 = Binary64::from_u64(sample_rate as u64).times(
        duration.as_seconds(),
    ).to_floor();
    frames as usize * channels as usize
}

/// Tells whether the samples of the complete frames in a span of time can be counted.
pub fn can_count_samples(sample_rate: u32, channels: u16, duration: Duration) -> (r: bool)
    ensures
        r == (frames_in(sample_rate as nat, duration@) <= usize::MAX && samples_in(
            sample_rate as nat,
            channels as nat,
            duration@,
        ) <= usize::MAX),
{
    let frames: u128 = Binary64::from_u64(sample_rate as u64).times(
        duration.as_seconds(),
    ).to_floor();
    if frames > usize::MAX as u128 {
        return false;
    }
    proof {
        let c = channels as int;
        let f = frames as int;
        assert(0 <= f * c <= usize::MAX * u16::MAX) by (nonlinear_arith)
            requires
                0 <= f <= usize::MAX,
                0 <= c <= u16::MAX,
        ;
    }
    frames * channels as u128 <= usize::MAX as u128
}

/// The time at which a sample of a stream lies.
fn time_of_sample(index: u64, sample_rate: u32, channels: u16) -> (r: u128)
    requires
        sample_rate > 0,
        channels > 0,
    ensures
        r == sample_time(index as nat, sample_rate as nat, channels as nat),
{
    Binary64::from_u64(index).divided_by(Binary64::from_u64(sample_rate as u64)).divided_by(
        Binary64::from_u64(channels as u64),
    ).to_nanoseconds()
}

/// A ring buffer for audio samples with chunk-based reading.
pub struct AudioBuffer {
    consumer: SampleConsumer,
    sample_rate: u32,
    channels: u16,
    chunk_size: usize,
    samples_read: u64,
}

/// What an audio buffer has been told and has done so far.
pub ghost struct BufferModel {
    /// Frames per second.
    pub sample_rate: nat,
    /// Samples per frame.
    pub channels: nat,
    /// Samples per chunk.
    pub chunk_size: nat,
    /// Samples that have been read.
    pub samples_read: nat,
    /// Samples that are known to wait.
    pub waiting: Seq<i16>,
    /// Which ring buffer they come from.
    pub ring: int,
    /// All samples that are pushed into the ring buffer, from first to last.
    pub stream: Seq<i16>,
    /// Samples that have been popped from the ring buffer: the place of the next in the
    /// stream.
    pub popped: nat,
}

impl BufferModel {
    /// Whether so many more samples can be counted, and the next of them can be given
    /// a time.
    pub open spec fn room_for(self, n: nat) -> bool {
        self.samples_read + n <= u64::MAX && sample_time(
            self.samples_read,
            self.sample_rate,
            self.channels,
        ) <= MAX_NANOS
    }

    /// How many samples are known to have been pushed into the ring buffer.
    pub open spec fn seen(self) -> nat {
        self.popped + self.waiting.len()
    }

    /// So many samples of the stream, from the next on.
    pub open spec fn upcoming(self, n: nat) -> Seq<i16> {
        ring::stretch(self.stream, self.popped, n)
    }

    /// Whether what waits is what the stream has next.
    pub open spec fn in_place(self) -> bool {
        self.waiting == self.upcoming(self.waiting.len())
    }

    /// Whether the buffer may come out so when the next so many samples are read and others
    /// may have arrived.
    pub open spec fn advanced(self, n: nat, after: BufferModel) -> bool {
        &&& self.seen() <= after.seen()
        &&& after.in_place()
        &&& after == (BufferModel {
            popped: self.popped + n,
            samples_read: self.samples_read + n,
            waiting: after.waiting,
            ..self
        })
    }

    /// Whether an attempt to read a chunk may give this and leave the buffer so.
    pub open spec fn may_read(self, chunk: Option<ChunkModel>, after: BufferModel) -> bool {
        match chunk {
            None => {
                &&& self.advanced(0, after)
                &&& self.chunk_size == 0 || after.waiting.len() < self.chunk_size
            },
            Some(chunk) => {
                &&& self.chunk_size > 0
                &&& self.advanced(self.chunk_size, after)
                &&& chunk == self.next_chunk(self.upcoming(self.chunk_size))
            },
        }
    }

    /// Whether emptying the buffer may give these chunks and leave it so: they hold what the
    /// stream has next, and what is left can no longer be counted.
    pub open spec fn may_drain(self, chunks: Seq<AudioChunk>, after: BufferModel) -> bool {
        &&& drained(self, chunks)
        &&& chunk_samples(chunks) == self.upcoming(chunk_samples(chunks).len())
        &&& self.advanced(chunk_samples(chunks).len(), after)
        &&& after.waiting.len() == 0 || !after.room_for(self.chunk_size)
    }

    /// The chunk of the given samples that comes next.
    pub open spec fn next_chunk(self, samples: Seq<i16>) -> ChunkModel {
        ChunkModel {
            samples,
            timestamp: sample_time(self.samples_read, self.sample_rate, self.channels),
            sample_rate: self.sample_rate,
            channels: self.channels,
            source_id: None,
        }
    }
}

impl View for AudioBuffer {
    type V = BufferModel;

    closed spec fn view(&self) -> BufferModel {
        BufferModel {
            sample_rate: self.sample_rate as nat,
            channels: self.channels as nat,
            chunk_size: self.chunk_size as nat,
            samples_read: self.samples_read as nat,
            waiting: ring::consumer_contents(self.consumer),
            ring: ring::consumer_ring(self.consumer),
            stream: ring::consumer_stream(self.consumer),
            popped: ring::consumer_popped(self.consumer),
        }
    }
}

impl AudioBuffer {
    /// A buffer reads chunks, if it reads any, from a stream with a rate and channels, and
    /// what waits is what the stream has next.
    pub open spec fn wf(self) -> bool {
        &&& self@.chunk_size > 0 ==> self@.sample_rate > 0 && self@.channels > 0
        &&& self@.in_place()
    }

    /// Creates a new audio buffer from a ring buffer consumer.
    pub fn new(
        consumer: SampleConsumer,
        sample_rate: u32,
        channels: u16,
        chunk_duration: Duration,
    ) -> (r: Self)
        requires
            frames_in(sample_rate as nat, chunk_duration@) <= usize::MAX,
            samples_in(sample_rate as nat, channels as nat, chunk_duration@) <= usize::MAX,
        ensures
            r.wf(),
            r@ == (BufferModel {
                sample_rate: sample_rate as nat,
                channels: channels as nat,
                chunk_size: samples_in(sample_rate as nat, channels as nat, chunk_duration@),
                samples_read: 0,
                waiting: ring::consumer_contents(consumer),
                ring: ring::consumer_ring(consumer),
                stream: ring::consumer_stream(consumer),
                popped: ring::consumer_popped(consumer),
            }),
    {
        let chunk_size: usize = samples_in_duration(sample_rate, channels, chunk_duration);
        proof {
            if sample_rate == 0 {
                binary64::lemma_zero_product(time::seconds(chunk_duration@));
            }
            let frames = frames_in(sample_rate as nat, chunk_duration@);
            assert(frames * 0 == 0 && 0 * (channels as nat) == 0) by (nonlinear_arith);
        }
        AudioBuffer { consumer, sample_rate, channels, chunk_size, samples_read: 0 }
    }

    /// Attempts to read a complete chunk from the buffer.
    ///
    /// Returns `None` if not enough samples are available.
    pub fn try_read_chunk(&mut self) -> (r: Option<AudioChunk>)
        requires
            old(self).wf(),
            old(self)@.chunk_size > 0 ==> old(self)@.room_for(old(self)@.chunk_size),
        ensures
            final(self).wf(),
            old(self)@.may_read(optional_chunk(r), final(self)@),
    {
        let ghost before = self@;
        if self.consumer.occupied_len() < self.chunk_size {
            return None;
        }
        let mut samples: Vec<i16> = Vec::with_capacity(self.chunk_size);
        let mut i: usize = 0;
        assert(samples@ =~= before.upcoming(0));
        while i < self.chunk_size
            invariant
                i <= self.chunk_size,
                samples@ == before.upcoming(i as nat),
                before.seen() <= self@.seen(),
                before.popped + before.chunk_size <= self@.seen(),
                self.chunk_size == before.chunk_size,
                self@ == (BufferModel {
                    popped: (before.popped + i) as nat,
                    waiting: self@.waiting,
                    ..before
                }),
            decreases self.chunk_size - i,
        {
            match self.consumer.try_pop() {
                Some(sample) => {
                    samples.push(sample);
                    assert(samples@ =~= before.upcoming((i + 1) as nat));
                },
                None => {},
            }
            i = i + 1;
        }
        if samples.len() == 0 {
            return None;
        }
        let timestamp = Duration::from_nanos(
            time_of_sample(self.samples_read, self.sample_rate, self.channels),
        );
        self.samples_read = self.samples_read + samples.len() as u64;
        Some(AudioChunk::new(samples, timestamp, self.sample_rate, self.channels))
    }

    /// Returns the number of samples currently in the buffer.
    pub fn available(&mut self) -> (r: usize)
        ensures
            r == final(self)@.waiting.len(),
            old(self)@.advanced(0, final(self)@),
    {
        self.consumer.occupied_len()
    }

    /// Returns true if enough samples are available for a complete chunk.
    pub fn has_chunk(&mut self) -> (r: bool)
        ensures
            r == (final(self)@.waiting.len() >= old(self)@.chunk_size),
            old(self)@.advanced(0, final(self)@),
    {
        let available: usize = self.available();
        available >= self.chunk_size
    }
}

/// What a chunk holds, if there is one.
pub open spec fn optional_chunk(chunk: Option<AudioChunk>) -> Option<ChunkModel> {
    match chunk {
        Some(chunk) => Some(chunk@),
        None => None,
    }
}

/// Whether `chunks` are what a buffer gives when it is emptied: complete chunks, each at
/// the time of its first sample, and at most one more of another size at the end. That one
/// is larger than a complete chunk only where more was read than had been waiting.
pub open spec fn drained(before: BufferModel, chunks: Seq<AudioChunk>) -> bool {
    forall|i: int| #![trigger chunks[i]]
        0 <= i < chunks.len() ==> {
            let reached = BufferModel {
                samples_read: (before.samples_read + i * before.chunk_size) as nat,
                ..before
            };
            &&& chunks[i]@ == reached.next_chunk(chunks[i]@.samples)
            &&& chunks[i]@.samples.len() > 0
            &&& i < chunks.len() - 1 ==> chunks[i]@.samples.len() == before.chunk_size
            &&& chunk_samples(chunks).len() <= before.waiting.len() ==> chunks[i]@.samples.len()
                <= before.chunk_size
        }
}

impl AudioBuffer {
    /// Tells whether so many more samples can be counted, and the next of them can be
    /// given a time.
    pub fn has_room_for(&self, n: usize) -> (r: bool)
        requires
            self@.sample_rate > 0,
            self@.channels > 0,
        ensures
            r == self@.room_for(n as nat),
    {
        n as u64 <= u64::MAX - self.samples_read && time_of_sample(
            self.samples_read,
            self.sample_rate,
            self.channels,
        ) <= MAX_NANOS
    }

    /// Tells whether another chunk can be counted and given a time, if chunks have a size.
    pub fn can_read(&self) -> (r: bool)
        requires
            self.wf(),
        ensures
            r == (self@.chunk_size == 0 || self@.room_for(self@.chunk_size)),
    {
        self.chunk_size == 0 || self.has_room_for(self.chunk_size)
    }

    /// Drains all remaining samples from the buffer.
    ///
    /// Returns chunks until the buffer is empty. The last chunk may be smaller than the
    /// configured chunk size; it is larger only where samples arrive during the call. The
    /// buffer is left with samples only where they can no longer be counted.
    pub fn drain(&mut self) -> (chunks: Vec<AudioChunk>)
        requires
            old(self).wf(),
            old(self)@.chunk_size > 0,
        ensures
            final(self).wf(),
            old(self)@.may_drain(chunks@, final(self)@),
    {
        let ghost before = self@;
        let mut chunks: Vec<AudioChunk> = Vec::new();
        assert(chunk_samples(chunks@) =~= before.upcoming(0));
        while self.has_room_for(self.chunk_size) && self.has_chunk()
            invariant
                self.wf(),
                before.chunk_size > 0,
                before.sample_rate > 0,
                before.channels > 0,
                before.advanced(chunk_samples(chunks@).len(), self@),
                chunk_samples(chunks@) == before.upcoming(chunk_samples(chunks@).len()),
                chunk_samples(chunks@).len() == chunks@.len() * before.chunk_size,
                drained(before, chunks@),
                forall|i: int| 0 <= i < chunks@.len() ==> (#[trigger] chunks@[i])@.samples.len()
                    == before.chunk_size,
            decreases u64::MAX - self@.samples_read,
        {
            let ghost had = chunks@;
            match self.try_read_chunk() {
                Some(chunk) => {
                    chunks.push(chunk);
                    proof {
                        assert(chunks@.drop_last() =~= had);
                        assert(chunk_samples(chunks@) == chunk_samples(had) + chunk@.samples);
                        ring::lemma_stretch_append(
                            before.stream,
                            before.popped,
                            chunk_samples(had).len(),
                            before.chunk_size,
                        );
                        assert((had.len() + 1) * before.chunk_size == had.len() * before.chunk_size
                            + before.chunk_size) by (nonlinear_arith);
                    }
                },
                None => {},
            }
        }
        let ghost had = chunks@;
        if self.has_room_for(self.chunk_size) && self.available() > 0 {
            let limit: u64 = u64::MAX - self.samples_read;
            let ghost reached = self@;
            let mut samples: Vec<i16> = Vec::new();
            let mut empty: bool = false;
            assert(samples@ =~= reached.upcoming(0));
            while !empty && (samples.len() as u64) < limit
                invariant
                    self@ == (BufferModel {
                        popped: reached.popped + samples@.len(),
                        waiting: self@.waiting,
                        ..reached
                    }),
                    self@.in_place(),
                    reached.seen() <= self@.seen(),
                    samples@ == reached.upcoming(samples@.len()),
                    samples@.len() <= limit,
                    empty ==> self@.waiting.len() == 0,
                    reached.waiting.len() > 0,
                decreases
                        if empty {
                            0
                        } else {
                            limit - samples.len() + 1
                        },
            {
                match self.consumer.try_pop() {
                    Some(sample) => {
                        samples.push(sample);
                        assert(samples@ =~= reached.upcoming(samples@.len()));
                    },
                    None => {
                        empty = true;
                    },
                }
            }
            if samples.len() > 0 {
                let timestamp = Duration::from_nanos(
                    time_of_sample(self.samples_read, self.sample_rate, self.channels),
                );
                self.samples_read = self.samples_read + samples.len() as u64;
                let ghost out = samples@;
                chunks.push(AudioChunk::new(samples, timestamp, self.sample_rate, self.channels));
                proof {
                    assert(chunks@.drop_last() =~= had);
                    assert(chunk_samples(chunks@) == chunk_samples(had) + out);
                    ring::lemma_stretch_append(
                        before.stream,
                        before.popped,
                        chunk_samples(had).len(),
                        out.len(),
                    );
                }
            }
        }
        chunks
    }
}

/// While nobody pushes, a chunk is given exactly where enough samples wait. It holds the first
/// of them, the rest is left, and without a chunk the buffer is as it was.
pub proof fn lemma_read_alone(
    before: BufferModel,
    chunk: Option<ChunkModel>,
    after: BufferModel,
)
    requires
        before.in_place(),
        before.chunk_size > 0,
        before.may_read(chunk, after),
        after.seen() == before.seen(),
    ensures
        chunk is Some <==> before.waiting.len() >= before.chunk_size,
        chunk matches Some(chunk) ==> chunk == before.next_chunk(
            before.waiting.take(before.chunk_size as int),
        ) && after.waiting == before.waiting.skip(before.chunk_size as int),
        chunk is None ==> after == before,
{
    let n = before.chunk_size;
    match chunk {
        Some(_) => {
            assert(before.upcoming(n) =~= before.waiting.take(n as int));
            assert(after.waiting =~= before.waiting.skip(n as int));
        },
        None => {
            assert(after.waiting =~= before.waiting);
        },
    }
}

/// While nobody pushes, emptying a buffer gives exactly what waits in it, in order, in chunks
/// that are complete but for the last, which may be smaller; where nothing waits there is no
/// chunk.
pub proof fn lemma_drain_alone(before: BufferModel, chunks: Seq<AudioChunk>, after: BufferModel)
    requires
        before.in_place(),
        before.chunk_size > 0,
        before.may_drain(chunks, after),
        after.seen() == before.seen(),
        after.room_for(before.chunk_size),
    ensures
        chunk_samples(chunks) == before.waiting,
        after.waiting.len() == 0,
        forall|i: int|
            0 <= i < chunks.len() ==> 1 <= (#[trigger] chunks[i])@.samples.len()
                <= before.chunk_size,
        forall|i: int|
            0 <= i < chunks.len() - 1 ==> (#[trigger] chunks[i])@.samples.len()
                == before.chunk_size,
        before.waiting.len() == 0 ==> chunks.len() == 0,
{
    assert(chunk_samples(chunks) =~= before.waiting);
    if chunks.len() > 0 {
        assert(chunk_samples(chunks) == chunk_samples(chunks.drop_last())
            + chunks.last().samples@);
        assert(chunks[chunks.len() - 1]@.samples.len() > 0);
    }
}

/// Nothing that waits is lost or reordered: it is what is read and what waits after that, as
/// far as it goes.
pub proof fn lemma_nothing_is_lost(before: BufferModel, n: nat, after: BufferModel)
    requires
        before.in_place(),
        before.advanced(n, after),
    ensures
        before.waiting.is_prefix_of(before.upcoming(n) + after.waiting),
{
    ring::lemma_stretch_append(before.stream, before.popped, n, after.waiting.len());
    assert(before.waiting =~= (before.upcoming(n) + after.waiting).take(
        before.waiting.len() as int,
    ));
}

/// Creates a ring buffer pair for audio capture.
///
/// Returns a producer (for the audio callback) and an `AudioBuffer` (for the router).
pub fn create_audio_buffer(
    capacity_duration: Duration,
    sample_rate: u32,
    channels: u16,
    chunk_duration: Duration,
) -> (r: (SampleProducer, AudioBuffer))
    requires
        0 < samples_in(sample_rate as nat, channels as nat, capacity_duration@),
        2 * samples_in(sample_rate as nat, channels as nat, capacity_duration@) <= isize::MAX,
        frames_in(sample_rate as nat, chunk_duration@) <= usize::MAX,
        samples_in(sample_rate as nat, channels as nat, chunk_duration@) <= usize::MAX,
    ensures
        ring::producer_written(r.0) == 0,
        ring::producer_contents(r.0) == Seq::<i16>::empty(),
        ring::producer_capacity(r.0) == samples_in(
            sample_rate as nat,
            channels as nat,
            capacity_duration@,
        ),
        r.1.wf(),
        r.1@ == (BufferModel {
            sample_rate: sample_rate as nat,
            channels: channels as nat,
            chunk_size: samples_in(sample_rate as nat, channels as nat, chunk_duration@),
            samples_read: 0,
            waiting: Seq::empty(),
            ring: ring::producer_ring(r.0),
            stream: ring::producer_stream(r.0),
            popped: 0,
        }),
{
    proof {
        let frames = frames_in(sample_rate as nat, capacity_duration@);
        let c = channels as nat;
        assert(frames <= frames * c || frames * c == 0) by (nonlinear_arith);
    }
    let capacity: usize = samples_in_duration(sample_rate, channels, capacity_duration);
    let (producer, consumer) = SampleRing::new(capacity).split();
    proof {
        assert(ring::producer_contents(producer) =~= Seq::empty());
        assert(ring::consumer_contents(consumer) =~= Seq::empty());
    }
    let buffer = AudioBuffer::new(consumer, sample_rate, channels, chunk_duration);
    (producer, buffer)
}

/// The complete frames in a span of time are as many as rate and span give, to within a
/// thousandth of a frame, and each has one sample per channel.
pub proof fn lemma_frames_in_span(sample_rate: u32, channels: nat, nanos: nat)
    requires
        sample_rate > 0,
        sample_rate * nanos <= 1_000_000_000 * 0x100_0000_0000,
    ensures
        ({
            let frames = frames_in(sample_rate as nat, nanos);
            &&& frames * 1_000_000_000 <= sample_rate * nanos + 1_000_000
            &&& sample_rate * nanos < (frames + 1) * 1_000_000_000 + 1_000_000
            &&& samples_in(sample_rate as nat, channels, nanos) == frames * channels
        }),
{
    binary64::lemma_frames_close(sample_rate as nat, nanos);
}

/// A sample lies where its number says at so many samples per second and channels, to within
/// two nanoseconds.
pub proof fn lemma_time_of_sample(index: nat, sample_rate: u32, channels: u16)
    requires
        sample_rate > 0,
        channels > 0,
        index < 0x20_0000_0000_0000,
        index * 1_000_000_000 <= (sample_rate * channels) * 0x10_0000_0000_0000,
    ensures
        ({
            let at = sample_time(index, sample_rate as nat, channels as nat);
            let per_second = sample_rate * channels;
            index * 1_000_000_000 - 2 * per_second <= at * per_second <= index * 1_000_000_000 + 2
                * per_second
        }),
{
    vstd::arithmetic::power2::lemma2_to64_rest();
    binary64::lemma_place_close(index, sample_rate as nat, channels as nat);
}

/// A chunk that is read holds the samples that the stream has next, as many as a chunk has and
/// in their order, in the buffer's format, and the next chunk goes on behind them.
pub proof fn lemma_chunk_goes_on(before: BufferModel, chunk: ChunkModel, after: BufferModel, i: int)
    requires
        before.may_read(Some(chunk), after),
    ensures
        chunk.samples.len() == before.chunk_size,
        before.chunk_size > 0,
        0 <= i < chunk.samples.len() ==> chunk.samples[i] == before.stream[before.popped + i],
        chunk.sample_rate == before.sample_rate,
        chunk.channels == before.channels,
        chunk.source_id is None,
        chunk.timestamp == sample_time(before.samples_read, before.sample_rate, before.channels),
        after.popped == before.popped + chunk.samples.len(),
        after.samples_read == before.samples_read + chunk.samples.len(),
        after.stream == before.stream,
        after.ring == before.ring,
        after.chunk_size == before.chunk_size,
{
}

/// Where no chunk is read, none is complete, and nothing is taken from the stream.
pub proof fn lemma_no_chunk_without_samples(before: BufferModel, after: BufferModel)
    requires
        before.may_read(None, after),
    ensures
        before.chunk_size > 0 ==> after.waiting.len() < before.chunk_size,
        after.popped == before.popped,
        after.samples_read == before.samples_read,
        after.stream == before.stream,
{
}

} // verus!
