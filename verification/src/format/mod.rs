//! Audio format conversion: channels and sample rates.
use crate::format::convert::copied;
use vstd::prelude::*;

pub mod convert;
pub mod resample;

pub use convert::{mono_to_stereo, stereo_to_mono};
pub use resample::{resample, resample_stereo, try_resample, try_resample_stereo};

verus! {

/// Why samples could not be converted.
#[derive(Debug, Clone, Copy, PartialEq, Eq, Structural)]
pub enum FormatError {
    /// The source sample rate is zero.
    ZeroSampleRate,
    /// Interleaved stereo data that ends in half a frame.
    OddSampleCount {
        /// The number of samples that were given.
        count: usize,
    },
}

/// Sample rate and channel count of a stream.
pub ghost struct StreamFormat {
    /// Frames per second.
    pub rate: nat,
    /// Samples per frame.
    pub channels: nat,
}

/// Samples after the channel step: stereo to mono, mono to stereo, or as they are.
pub open spec fn channels_converted(
    samples: Seq<i16>,
    source: StreamFormat,
    target: StreamFormat,
) -> Seq<i16> {
    if source.channels == 2 && target.channels == 1 {
        convert::averaged_frames(samples)
    } else if source.channels == 1 && target.channels == 2 {
        convert::doubled_samples(samples)
    } else {
        samples
    }
}

/// Samples in the target format: channels first, then the rate.
pub open spec fn converted(samples: Seq<i16>, source: StreamFormat, target: StreamFormat) -> Seq<
    i16,
> {
    let data = channels_converted(samples, source, target);
    if source == target {
        samples
    } else if source.rate == target.rate {
        data
    } else if target.channels == 2 {
        resample::resampled_stereo(data, source.rate, target.rate)
    } else {
        resample::resampled(data, source.rate, target.rate)
    }
}

/// Whether the conversion is possible: the source has a rate where rates differ, two
/// channels come in whole frames, and the result can be allocated.
pub open spec fn convertible(
    samples: Seq<i16>,
    source: StreamFormat,
    target: StreamFormat,
) -> bool {
    let data = channels_converted(samples, source, target);
    source != target ==> {
        &&& 2 * data.len() <= isize::MAX
        &&& source.rate != target.rate ==> {
            &&& source.rate > 0
            &&& target.channels == 2 ==> data.len() % 2 == 0
                && resample::resample_stereo_fits(data.len(), source.rate, target.rate)
            &&& target.channels != 2 ==> resample::resample_fits(
                data.len(),
                source.rate,
                target.rate,
            )
        }
    }
}

/// Converts audio between formats.
///
/// The channels are converted first, so that fewer samples have to be resampled after
/// a downmix.
#[derive(Debug, Clone, Copy)]
pub struct FormatConverter {
    source_rate: u32,
    source_channels: u16,
    target_rate: u32,
    target_channels: u16,
}

impl FormatConverter {
    /// The format that goes in.
    pub closed spec fn source(self) -> StreamFormat {
        StreamFormat { rate: self.source_rate as nat, channels: self.source_channels as nat }
    }

    /// The format that comes out.
    pub closed spec fn target(self) -> StreamFormat {
        StreamFormat { rate: self.target_rate as nat, channels: self.target_channels as nat }
    }

    /// Creates a new format converter.
    pub fn new(
        source_rate: u32,
        source_channels: u16,
        target_rate: u32,
        target_channels: u16,
    ) -> (r: Self)
        ensures
            r.source() == (StreamFormat {
                rate: source_rate as nat,
                channels: source_channels as nat,
            }),
            r.target() == (StreamFormat {
                rate: target_rate as nat,
                channels: target_channels as nat,
            }),
    {
        FormatConverter { source_rate, source_channels, target_rate, target_channels }
    }

    /// Returns true if no conversion is needed (formats match).
    pub fn is_passthrough(&self) -> (r: bool)
        ensures
            r == (self.source() == self.target()),
    {
        self.source_rate == self.target_rate && self.source_channels == self.target_channels
    }

    /// Tells whether `convert` can be called on these samples.
    pub fn can_convert(&self, samples: &[i16]) -> (r: bool)
        ensures
            r == convertible(samples@, self.source(), self.target()),
    {
        if self.is_passthrough() {
            return true;
        }
        let limit: u128 = isize::MAX as u128;
        let len: u128 = if self.source_channels == 2 && self.target_channels == 1 {
            samples.len() as u128 / 2
        } else if self.source_channels == 1 && self.target_channels == 2 {
            samples.len() as u128 * 2
        } else {
            samples.len() as u128
        };
        if 2 * len > limit {
            return false;
        }
        if self.source_rate == self.target_rate {
            return true;
        }
        if self.source_rate == 0 {
            return false;
        }
        if self.target_channels == 2 {
            len % 2 == 0 && (len == 0 || resample::output_len(
                (len / 2) as usize,
                self.source_rate,
                self.target_rate,
            ) <= limit / 4)
        } else {
            len == 0 || resample::output_len(len as usize, self.source_rate, self.target_rate)
                <= limit / 2
        }
    }

    /// Converts samples from source format to target format.
    pub fn convert(&self, samples: &[i16]) -> (r: Vec<i16>)
        requires
            convertible(samples@, self.source(), self.target()),
        ensures
            r@ == converted(samples@, self.source(), self.target()),
    {
        if self.is_passthrough() {
            return copied(samples);
        }
        let data = if self.source_channels == 2 && self.target_channels == 1 {
            stereo_to_mono(samples)
        } else if self.source_channels == 1 && self.target_channels == 2 {
            mono_to_stereo(samples)
        } else {
            copied(samples)
        };
        if self.source_rate != self.target_rate {
            if self.target_channels == 2 {
                resample_stereo(&data, self.source_rate, self.target_rate)
            } else {
                resample(&data, self.source_rate, self.target_rate)
            }
        } else {
            data
        }
    }
}

/// A conversion between equal formats hands the samples through.
pub proof fn lemma_passthrough(samples: Seq<i16>, format: StreamFormat)
    ensures
        convertible(samples, format, format),
        converted(samples, format, format) == samples,
{
}

/// Stereo stays stereo: whatever the rates are, the left channel of a conversion is the mono
/// conversion of the left channel, the right one that of the right channel, and neither has
/// anything of the other.
pub proof fn lemma_stereo_channels_apart(samples: Seq<i16>, from_rate: nat, to_rate: nat, i: int)
    requires
        samples.len() % 2 == 0,
    ensures
        ({
            let left = Seq::new(samples.len() / 2, |k: int| samples[2 * k]);
            let right = Seq::new(samples.len() / 2, |k: int| samples[2 * k + 1]);
            let mono = |channel: Seq<i16>|
                converted(
                    channel,
                    StreamFormat { rate: from_rate, channels: 1 },
                    StreamFormat { rate: to_rate, channels: 1 },
                );
            let stereo = converted(
                samples,
                StreamFormat { rate: from_rate, channels: 2 },
                StreamFormat { rate: to_rate, channels: 2 },
            );
            &&& mono(left).len() == mono(right).len()
            &&& stereo.len() == 2 * mono(left).len()
            &&& 0 <= i < mono(left).len() ==> stereo[2 * i] == mono(left)[i] && stereo[2 * i + 1]
                == mono(right)[i]
        }),
{
    let left = Seq::new(samples.len() / 2, |k: int| samples[2 * k]);
    let right = Seq::new(samples.len() / 2, |k: int| samples[2 * k + 1]);
    assert(resample::left_channel(samples) =~= left);
    assert(resample::right_channel(samples) =~= right);
    let (source, target) = (
        StreamFormat { rate: from_rate, channels: 2 },
        StreamFormat { rate: to_rate, channels: 2 },
    );
    if from_rate == to_rate {
        assert(source == target);
    }
}

/// A left channel that stays the same stays the same in the conversion, whatever becomes of
/// the right one, and the other way round.
pub proof fn lemma_stereo_channels_independent(
    a: Seq<i16>,
    b: Seq<i16>,
    from_rate: nat,
    to_rate: nat,
    side: int,
    i: int,
)
    requires
        a.len() == b.len(),
        a.len() % 2 == 0,
        0 <= side < 2,
        forall|k: int| 0 <= k < a.len() / 2 ==> #[trigger] a[2 * k + side] == b[2 * k + side],
    ensures
        ({
            let stereo = |samples: Seq<i16>|
                converted(
                    samples,
                    StreamFormat { rate: from_rate, channels: 2 },
                    StreamFormat { rate: to_rate, channels: 2 },
                );
            &&& stereo(a).len() == stereo(b).len()
            &&& 0 <= i < stereo(a).len() / 2 ==> stereo(a)[2 * i + side] == stereo(b)[2 * i + side]
        }),
{
    lemma_stereo_channels_apart(a, from_rate, to_rate, i);
    lemma_stereo_channels_apart(b, from_rate, to_rate, i);
    let of_a = Seq::new(a.len() / 2, |k: int| a[2 * k + side]);
    let of_b = Seq::new(b.len() / 2, |k: int| b[2 * k + side]);
    assert(of_a =~= of_b);
    if side == 0 {
        assert(of_a =~= Seq::new(a.len() / 2, |k: int| a[2 * k]));
        assert(of_b =~= Seq::new(b.len() / 2, |k: int| b[2 * k]));
    } else {
        assert(of_a =~= Seq::new(a.len() / 2, |k: int| a[2 * k + 1]));
        assert(of_b =~= Seq::new(b.len() / 2, |k: int| b[2 * k + 1]));
    }
}

/// Stereo becomes mono by the mean of each frame, to the nearest half and towards zero; an
/// incomplete frame at the end is dropped.
pub proof fn lemma_downmix_is_mean(samples: Seq<i16>, rate: nat, i: int)
    ensures
        ({
            let mono = converted(
                samples,
                StreamFormat { rate, channels: 2 },
                StreamFormat { rate, channels: 1 },
            );
            &&& mono.len() == samples.len() / 2
            &&& 0 <= i < mono.len() ==> {
                let sum = samples[2 * i] + samples[2 * i + 1];
                &&& sum >= 0 ==> 2 * mono[i] <= sum <= 2 * mono[i] + 1
                &&& sum < 0 ==> 2 * mono[i] - 1 <= sum <= 2 * mono[i]
            }
        }),
{
}

/// Mono becomes stereo with two equal channels, each of which is what the mono conversion
/// gives.
pub proof fn lemma_upmix_is_mono_twice(samples: Seq<i16>, from_rate: nat, to_rate: nat, i: int)
    ensures
        ({
            let source = StreamFormat { rate: from_rate, channels: 1 };
            let mono = converted(samples, source, StreamFormat { rate: to_rate, channels: 1 });
            let stereo = converted(samples, source, StreamFormat { rate: to_rate, channels: 2 });
            &&& stereo.len() == 2 * mono.len()
            &&& 0 <= i < mono.len() ==> stereo[2 * i] == mono[i] && stereo[2 * i + 1] == mono[i]
        }),
{
    let source = StreamFormat { rate: from_rate, channels: 1 };
    let stereo = converted(samples, source, StreamFormat { rate: to_rate, channels: 2 });
    let doubled = convert::doubled_samples(samples);
    if from_rate == to_rate {
        assert(stereo == doubled);
        if 0 <= i < samples.len() {
            convert::lemma_doubled_channels_equal(samples, i);
        }
    } else {
        assert(resample::left_channel(doubled) =~= samples);
        assert(resample::right_channel(doubled) =~= samples);
        let mono = resample::resampled(samples, from_rate, to_rate);
        assert(stereo == resample::interleaved(mono, mono));
        if 0 <= i < mono.len() {
            lemma_interleaved_at(mono, mono, i);
        }
    }
}

/// Where the samples of two channels lie.
proof fn lemma_interleaved_at(left: Seq<i16>, right: Seq<i16>, i: int)
    requires
        0 <= i < left.len(),
    ensures
        resample::interleaved(left, right)[2 * i] == left[i],
        resample::interleaved(left, right)[2 * i + 1] == right[i],
{
}

/// A conversion is one of the channels at the rate of the source, followed by one of the rate.
pub proof fn lemma_channels_before_rate(samples: Seq<i16>, source: StreamFormat, target: StreamFormat)
    requires
        source.channels == 1 || source.channels == 2,
        target.channels == 1 || target.channels == 2,
    ensures
        ({
            let middle = StreamFormat { channels: target.channels, ..source };
            converted(samples, source, target) == converted(
                converted(samples, source, middle),
                middle,
                target,
            )
        }),
{
}

/// Where rates agree and channels are not mono on one side and stereo on the other, samples
/// are handed through.
pub proof fn lemma_other_channels_kept(samples: Seq<i16>, source: StreamFormat, target: StreamFormat)
    requires
        source.rate == target.rate,
        !(source.channels == 1 && target.channels == 2),
        !(source.channels == 2 && target.channels == 1),
    ensures
        converted(samples, source, target) == samples,
{
}

/// A conversion of mono samples between two rates: it starts on the first sample, and twice
/// the rate puts the mean of two samples between them, cut off towards zero.
pub proof fn lemma_double_rate(samples: Seq<i16>, rate: u32, i: int)
    requires
        0 < rate,
        2 * rate <= u32::MAX,
        samples.len() < 0x4_0000_0000_0000,
        0 <= i < samples.len(),
    ensures
        ({
            let r = converted(
                samples,
                StreamFormat { rate: rate as nat, channels: 1 },
                StreamFormat { rate: 2 * rate as nat, channels: 1 },
            );
            &&& r.len() == 2 * samples.len()
            &&& r[2 * i] == samples[i]
            &&& i + 1 < samples.len() ==> {
                let sum = samples[i] + samples[i + 1];
                &&& sum >= 0 ==> 2 * r[2 * i + 1] <= sum <= 2 * r[2 * i + 1] + 1
                &&& sum < 0 ==> 2 * r[2 * i + 1] - 1 <= sum <= 2 * r[2 * i + 1]
            }
            &&& i + 1 == samples.len() ==> r[2 * i + 1] == samples[i]
        }),
{
    resample::lemma_resampled_multiple(samples, rate, (2 * rate) as u32, 2, i);
    resample::lemma_resampled_halfway(samples, rate, (2 * rate) as u32, i);
}

/// Audio that has its format already can always be converted. Otherwise a source without a rate
/// cannot be brought to another rate, nor can two channels with half a frame; whole frames of
/// up to 2^28 samples, before and after, can.
pub proof fn lemma_what_can_be_converted(
    samples: Seq<i16>,
    source: StreamFormat,
    target: StreamFormat,
)
    ensures
        source == target ==> convertible(samples, source, target),
        source.rate == 0 && target.rate > 0 ==> !convertible(samples, source, target),
        source.rate != target.rate && source.channels == 2 && target.channels == 2 && samples.len()
            % 2 != 0 ==> !convertible(samples, source, target),
        ({
            &&& 0 < source.rate <= u32::MAX
            &&& 0 < target.rate <= u32::MAX
            &&& samples.len() <= 0x1000_0000
            &&& samples.len() * target.rate <= source.rate * 0x1000_0000
            &&& target.channels == 2 && source.channels != 1 ==> samples.len() % 2 == 0
        }) ==> convertible(samples, source, target),
{
    let data = channels_converted(samples, source, target);
    if source != target && 0 < source.rate <= u32::MAX && 0 < target.rate <= u32::MAX
        && samples.len() <= 0x1000_0000 && samples.len() * target.rate <= source.rate * 0x1000_0000
        && (target.channels == 2 && source.channels != 1 ==> samples.len() % 2 == 0) {
        let n = if target.channels == 2 {
            data.len() / 2
        } else {
            data.len()
        };
        assert(n <= samples.len());
        assert(n * target.rate <= source.rate * 0x1000_0000) by (nonlinear_arith)
            requires
                n <= samples.len(),
                samples.len() * target.rate <= source.rate * 0x1000_0000,
        ;
        crate::binary64::lemma_converted_len_close(n, source.rate, target.rate);
        let count = resample::resampled_len(n, source.rate, target.rate);
        assert(count <= 0x1000_0001) by (nonlinear_arith)
            requires
                1000 * (count * source.rate) < 1000 * (n * target.rate) + 1001 * source.rate,
                n * target.rate <= source.rate * 0x1000_0000,
                source.rate > 0,
        {
            if count >= 0x1000_0002 {
                assert(count * source.rate >= 0x1000_0002 * source.rate);
            }
        }
    }
}

} // verus!
