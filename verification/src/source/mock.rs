//! Mock audio source for testing without hardware.
use crate::chunk;
use crate::chunk::duration_of_frames;
use crate::format::convert;
use crate::ring;
use crate::ring::{filled_ring, SampleConsumer};
use crate::time::Duration;
use vstd::prelude::*;

verus! {

/// The smallest ring buffer that is made for samples.
pub const MIN_RING_CAPACITY: usize = 1024;

/// The samples of the complete frames in so many milliseconds.
pub open spec fn samples_in_ms(sample_rate: nat, channels: nat, ms: nat) -> nat {
    sample_rate * ms / 1000 * channels
}

/// The state of the noise generator after so many steps.
pub open spec fn noise_seed(n: nat) -> nat
    decreases n,
{
    if n == 0 {
        12345
    } else {
        (noise_seed((n - 1) as nat) * 1_103_515_245 + 12345) % 0x1_0000_0000
    }
}

/// A number as 16 bits with a sign.
pub open spec fn wrapped_i16(n: int) -> int {
    (n + 32768) % 65536 - 32768
}

/// A sample of noise.
pub open spec fn noise_sample(i: nat, amplitude: int) -> i16 {
    wrapped_i16(
        convert::truncated_quotient((noise_seed(i + 1) / 65536 - 32768) * amplitude, 32767),
    ) as i16
}

/// A mock audio source that generates synthetic audio for testing.
pub struct MockSource {
    sample_rate: u32,
    channels: u16,
    samples: Vec<i16>,
}

/// What a mock source holds.
pub ghost struct MockModel {
    /// Frames per second.
    pub sample_rate: nat,
    /// Samples per frame.
    pub channels: nat,
    /// The samples so far.
    pub samples: Seq<i16>,
}

impl View for MockSource {
    type V = MockModel;

    closed spec fn view(&self) -> MockModel {
        MockModel {
            sample_rate: self.sample_rate as nat,
            channels: self.channels as nat,
            samples: self.samples@,
        }
    }
}

impl MockModel {
    /// Whether so many milliseconds of samples can be counted and added.
    pub open spec fn has_room_for(self, duration_ms: u64) -> bool {
        &&& self.sample_rate * duration_ms <= u64::MAX
        &&& self.sample_rate * duration_ms / 1000 <= usize::MAX
        &&& 2 * (self.samples.len() + samples_in_ms(
            self.sample_rate,
            self.channels,
            duration_ms as nat,
        )) <= isize::MAX
    }
}

impl MockSource {
    /// Creates a new mock source with the given format.
    pub fn new(sample_rate: u32, channels: u16) -> (r: Self)
        ensures
            r@ == (MockModel {
                sample_rate: sample_rate as nat,
                channels: channels as nat,
                samples: Seq::empty(),
            }),
    {
        MockSource { sample_rate, channels, samples: Vec::new() }
    }

    /// Creates a mock source configured for transcription (16kHz mono).
    pub fn transcription() -> (r: Self)
        ensures
            r@ == (MockModel { sample_rate: 16000, channels: 1, samples: Seq::empty() }),
    {
        Self::new(16000, 1)
    }

    /// Returns the sample rate.
    pub fn sample_rate(&self) -> (r: u32)
        ensures
            r == self@.sample_rate,
    {
        self.sample_rate
    }

    /// Returns the channel count.
    pub fn channels(&self) -> (r: u16)
        ensures
            r == self@.channels,
    {
        self.channels
    }

    /// Tells whether so many milliseconds of samples can be counted and added.
    pub fn has_room_for(&self, duration_ms: u64) -> (r: bool)
        ensures
            r == self@.has_room_for(duration_ms),
    {
        assert(0 <= self.sample_rate * duration_ms <= 0xffff_ffff * 0xffff_ffff_ffff_ffff)
            by (nonlinear_arith)
            requires
                self.sample_rate <= 0xffff_ffff,
                duration_ms <= 0xffff_ffff_ffff_ffff,
        ;
        let thousandths: u128 = self.sample_rate as u128 * duration_ms as u128;
        if thousandths > u64::MAX as u128 || thousandths / 1000 > usize::MAX as u128 {
            return false;
        }
        let frames: u128 = thousandths / 1000;
        assert(0 <= frames * self.channels <= 0xffff_ffff_ffff_ffff * 0xffff) by (nonlinear_arith)
            requires
                frames <= 0xffff_ffff_ffff_ffff,
                self.channels <= 0xffff,
        ;
        let more: u128 = frames * self.channels as u128;
        self.samples.len() as u128 + more <= isize::MAX as u128 / 2
    }

    /// The number of samples in so many milliseconds.
    pub fn samples_for_duration(&self, duration_ms: u64) -> (r: usize)
        requires
            self@.has_room_for(duration_ms),
        ensures
            r == samples_in_ms(self@.sample_rate, self@.channels, duration_ms as nat),
    {
        proof {
            let rate = self.sample_rate as nat;
            let ms = duration_ms as nat;
            assert(rate * ms == rate * ms / 1000 * 1000 + rate * ms % 1000);
        }
        let frames: usize = (self.sample_rate as u64 * duration_ms / 1000) as usize;
        frames * self.channels as usize
    }

    /// Generates silence for the given duration in milliseconds.
    pub fn generate_silence(&mut self, duration_ms: u64)
        requires
            old(self)@.has_room_for(duration_ms),
        ensures
            final(self)@ == (MockModel {
                samples: old(self)@.samples + Seq::new(
                    samples_in_ms(
                        old(self)@.sample_rate,
                        old(self)@.channels,
                        duration_ms as nat,
                    ),
                    |i: int| 0i16,
                ),
                ..old(self)@
            }),
    {
        let count: usize = self.samples_for_duration(duration_ms);
        let ghost before = self@;
        let ghost silence = Seq::new(count as nat, |i: int| 0i16);
        let mut i: usize = 0;
        assert(before.samples + silence.take(0) =~= before.samples);
        while i < count
            invariant
                i <= count,
                silence == Seq::new(count as nat, |i: int| 0i16),
                self@ == (MockModel {
                    samples: before.samples + silence.take(i as int),
                    ..before
                }),
            decreases count - i,
        {
            self.samples.push(0);
            assert(self@.samples =~= before.samples + silence.take(i + 1));
            i = i + 1;
        }
        assert(silence.take(i as int) =~= silence);
    }

    /// Generates noise of a given amplitude for the given duration: always the same.
    pub fn generate_noise(&mut self, duration_ms: u64, amplitude: i16)
        requires
            old(self)@.has_room_for(duration_ms),
        ensures
            final(self)@ == (MockModel {
                samples: old(self)@.samples + Seq::new(
                    samples_in_ms(
                        old(self)@.sample_rate,
                        old(self)@.channels,
                        duration_ms as nat,
                    ),
                    |i: int| noise_sample(i as nat, amplitude as int),
                ),
                ..old(self)@
            }),
    {
        let count: usize = self.samples_for_duration(duration_ms);
        let ghost before = self@;
        let ghost noise = Seq::new(count as nat, |i: int| noise_sample(i as nat, amplitude as int));
        let mut seed: u32 = 12345;
        let mut i: usize = 0;
        assert(before.samples + noise.take(0) =~= before.samples);
        while i < count
            invariant
                i <= count,
                seed == noise_seed(i as nat),
                noise == Seq::new(
                    count as nat,
                    |i: int| noise_sample(i as nat, amplitude as int),
                ),
                self@ == (MockModel {
                    samples: before.samples + noise.take(i as int),
                    ..before
                }),
            decreases count - i,
        {
            seed = ((seed as u64 * 1_103_515_245 + 12345) % 0x1_0000_0000) as u32;
            let random: i32 = (seed / 65536) as i32 - 32768;
            let level: i32 = amplitude as i32;
            proof {
                assert(-0x4000_0000 <= random * level <= 0x4000_0000) by (nonlinear_arith)
                    requires
                        -32768 <= random <= 32767,
                        -32768 <= level <= 32767,
                ;
            }
            let scaled: i32 = random * level;
            let quotient: i32 = if scaled >= 0 {
                scaled / 32767
            } else {
                -((-scaled) / 32767)
            };
            let sample: i16 = if quotient > 32767 {
                (quotient - 65536) as i16
            } else if quotient < -32768 {
                (quotient + 65536) as i16
            } else {
                quotient as i16
            };
            self.samples.push(sample);
            assert(sample == noise_sample(i as nat, amplitude as int));
            assert(self@.samples =~= before.samples + noise.take(i + 1));
            i = i + 1;
        }
        assert(noise.take(i as int) =~= noise);
    }

    /// Adds raw samples directly.
    pub fn add_samples(&mut self, samples: &[i16])
        ensures
            final(self)@ == (MockModel {
                samples: old(self)@.samples + samples@,
                ..old(self)@
            }),
    {
        self.samples.extend_from_slice(samples);
        assert(self@.samples =~= old(self)@.samples + samples@);
    }

    /// Takes all accumulated samples, clearing the internal buffer.
    pub fn take_samples(&mut self) -> (r: Vec<i16>)
        ensures
            r@ == old(self)@.samples,
            final(self)@ == (MockModel { samples: Seq::empty(), ..old(self)@ }),
    {
        let mut taken: Vec<i16> = Vec::new();
        std::mem::swap(&mut taken, &mut self.samples);
        taken
    }

    /// Returns a reference to the accumulated samples.
    pub fn samples(&self) -> (r: &[i16])
        ensures
            r@ == self@.samples,
    {
        self.samples.as_slice()
    }

    /// Returns the duration of accumulated samples.
    pub fn duration(&self) -> (r: Duration)
        requires
            self@.sample_rate > 0,
            self@.channels > 0,
            self@.samples.len() <= isize::MAX,
        ensures
            r@ == chunk::frames_duration(
                self@.samples.len() / self@.channels,
                self@.sample_rate,
            ),
    {
        proof {
            vstd::arithmetic::div_mod::lemma_div_is_ordered_by_denominator(
                self.samples@.len() as int,
                1,
                self.channels as int,
            );
        }
        let frames: usize = self.samples.len() / self.channels as usize;
        duration_of_frames(frames, self.sample_rate)
    }

    /// Creates a ring buffer consumer filled with the accumulated samples.
    pub fn into_ring_buffer(self) -> (r: SampleConsumer)
        requires
            2 * self@.samples.len() <= isize::MAX,
        ensures
            ring::consumer_contents(r) == self@.samples,
    {
        let capacity: usize = if self.samples.len() > MIN_RING_CAPACITY {
            self.samples.len()
        } else {
            MIN_RING_CAPACITY
        };
        let r = filled_ring(capacity, self.samples.as_slice());
        assert(self@.samples.take(self@.samples.len() as int) =~= self@.samples);
        r
    }
}

/// Noise stays within its amplitude, but for one step below.
pub proof fn lemma_noise_scales(i: nat, amplitude: int)
    requires
        0 <= amplitude <= 32767,
    ensures
        -amplitude - 1 <= noise_sample(i, amplitude) <= amplitude,
{
    let random = noise_seed(i + 1) / 65536 - 32768;
    assert(0 <= noise_seed(i + 1) < 0x1_0000_0000);
    let scaled = random * amplitude;
    assert(-32768 * amplitude <= scaled <= 32767 * amplitude) by (nonlinear_arith)
        requires
            -32768 <= random <= 32767,
            amplitude >= 0,
            scaled == random * amplitude,
    ;
}

/// So many milliseconds hold the frames that are complete by then, each with one sample per
/// channel.
pub proof fn lemma_frames_of_time(sample_rate: nat, channels: nat, ms: nat)
    ensures
        exists|frames: nat|
            samples_in_ms(sample_rate, channels, ms) == #[trigger] (frames * channels) && frames
                * 1000 <= sample_rate * ms < (frames + 1) * 1000,
{
    let frames = sample_rate * ms / 1000;
    assert(samples_in_ms(sample_rate, channels, ms) == frames * channels);
}

/// Noise of one amplitude is that of the full amplitude, scaled and cut toward zero.
pub proof fn lemma_noise_is_scaled(i: nat, amplitude: int)
    requires
        0 <= amplitude <= 32767,
    ensures
        ({
            let full = noise_sample(i, 32767);
            let scaled = noise_sample(i, amplitude);
            &&& full >= 0 ==> scaled * 32767 <= full * amplitude < (scaled + 1) * 32767
            &&& full < 0 ==> (scaled - 1) * 32767 < full * amplitude <= scaled * 32767
        }),
{
    let random = noise_seed(i + 1) / 65536 - 32768;
    assert(0 <= noise_seed(i + 1) < 0x1_0000_0000);
    let p = random * amplitude;
    assert(-32768 * 32767 <= p <= 32767 * 32767) by (nonlinear_arith)
        requires
            -32768 <= random <= 32767,
            0 <= amplitude <= 32767,
            p == random * amplitude,
    ;
    assert(random * 32767 == 32767 * random);
    assert(noise_sample(i, 32767) == random);
    assert(random >= 0 ==> p >= 0) by (nonlinear_arith)
        requires
            amplitude >= 0,
            p == random * amplitude,
    ;
    assert(random < 0 ==> p <= 0) by (nonlinear_arith)
        requires
            amplitude >= 0,
            p == random * amplitude,
    ;
}

} // verus!
