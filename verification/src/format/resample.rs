//! Sample rate conversion by linear interpolation.
//!
//! Fast, but with artifacts for large rate changes. Suitable for speech.
use super::FormatError;
use crate::binary64;
use crate::binary64::Binary64;
use crate::format::convert::copied;
use vstd::prelude::*;

verus! {

/// Output samples per input sample.
pub open spec fn rate_ratio(from_rate: nat, to_rate: nat) -> nat {
    binary64::quotient(binary64::of_nat(to_rate), binary64::of_nat(from_rate))
}

/// How many samples come out when the rates differ.
pub open spec fn resampled_len(len: nat, from_rate: nat, to_rate: nat) -> nat {
    binary64::ceil(binary64::product(binary64::of_nat(len), rate_ratio(from_rate, to_rate)))
}

/// The place in the input, counted in samples, from which output sample `i` is taken.
pub open spec fn source_position(i: nat, from_rate: nat, to_rate: nat) -> nat {
    binary64::quotient(binary64::of_nat(i), rate_ratio(from_rate, to_rate))
}

/// The sample at a place of the input: on the line between the two around it, or the
/// last one where there is no second.
pub open spec fn sample_at(samples: Seq<i16>, position: nat) -> i16 {
    let index = binary64::floor(position) as int;
    if index + 1 < samples.len() {
        binary64::interpolated(
            samples[index] as int,
            samples[index + 1] as int,
            binary64::fraction(position),
        ) as i16
    } else {
        samples.last()
    }
}

/// Mono samples at another rate.
pub open spec fn resampled(samples: Seq<i16>, from_rate: nat, to_rate: nat) -> Seq<i16> {
    if from_rate == to_rate || samples.len() == 0 {
        samples
    } else {
        Seq::new(
            resampled_len(samples.len(), from_rate, to_rate),
            |i: int| sample_at(samples, source_position(i as nat, from_rate, to_rate)),
        )
    }
}

/// Whether the output of a conversion of `len` samples can be allocated.
pub open spec fn resample_fits(len: nat, from_rate: nat, to_rate: nat) -> bool {
    from_rate == 0 || from_rate == to_rate || len == 0 || 2 * resampled_len(
        len,
        from_rate,
        to_rate,
    ) <= isize::MAX
}

/// The number of samples that a conversion between two different rates gives.
pub fn output_len(len: usize, from_rate: u32, to_rate: u32) -> (r: u128)
    requires
        from_rate > 0,
    ensures
        r == resampled_len(len as nat, from_rate as nat, to_rate as nat),
{
    let ratio = Binary64::from_u64(to_rate as u64).divided_by(Binary64::from_u64(from_rate as u64));
    Binary64::from_u64(len as u64).times(ratio).to_ceil()
}

/// Resamples audio from one sample rate to another.
///
/// Fails where `from_rate` is zero, and only there.
pub fn try_resample(samples: &[i16], from_rate: u32, to_rate: u32) -> (r: Result<
    Vec<i16>,
    FormatError,
>)
    requires
        resample_fits(samples@.len(), from_rate as nat, to_rate as nat),
    ensures
        from_rate == 0 ==> r == Err::<Vec<i16>, FormatError>(FormatError::ZeroSampleRate),
        from_rate > 0 ==> r is Ok && r->Ok_0@ == resampled(
            samples@,
            from_rate as nat,
            to_rate as nat,
        ),
{
    if from_rate == 0 {
        return Err(FormatError::ZeroSampleRate);
    }
    let len: usize = samples.len();
    if from_rate == to_rate || len == 0 {
        return Ok(copied(samples));
    }
    let ratio = Binary64::from_u64(to_rate as u64).divided_by(Binary64::from_u64(from_rate as u64));
    let output_len: usize = output_len(len, from_rate, to_rate) as usize;
    let mut output: Vec<i16> = Vec::with_capacity(output_len);
    if to_rate == 0 {
        proof {
            binary64::lemma_product_zero(binary64::of_nat(len as nat));
        }
        assert(output@ =~= resampled(samples@, from_rate as nat, to_rate as nat));
        return Ok(output);
    }
    let mut i: usize = 0;
    while i < output_len
        invariant
            i <= output_len,
            len == samples.len(),
            len > 0,
            from_rate != to_rate,
            ratio.wf(),
            ratio@ == rate_ratio(from_rate as nat, to_rate as nat),
            ratio@ > 0,
            988 <= ratio.exponent() <= 1_056,
            output_len == resampled_len(len as nat, from_rate as nat, to_rate as nat),
            output@ == resampled(samples@, from_rate as nat, to_rate as nat).take(i as int),
        decreases output_len - i,
    {
        let position = Binary64::from_u64(i as u64).divided_by(ratio);
        let index: u128 = position.to_floor();
        let sample: i16 = if index < (len - 1) as u128 {
            position.interpolate(samples[index as usize], samples[index as usize + 1])
        } else {
            samples[len - 1]
        };
        output.push(sample);
        i = i + 1;
    }
    assert(output@ =~= resampled(samples@, from_rate as nat, to_rate as nat));
    Ok(output)
}

/// Resamples audio from one sample rate to another that is known not to be zero.
pub fn resample(samples: &[i16], from_rate: u32, to_rate: u32) -> (r: Vec<i16>)
    requires
        from_rate > 0,
        resample_fits(samples@.len(), from_rate as nat, to_rate as nat),
    ensures
        r@ == resampled(samples@, from_rate as nat, to_rate as nat),
{
    match try_resample(samples, from_rate, to_rate) {
        Ok(r) => r,
        Err(_) => Vec::new(),
    }
}

/// The left channel of interleaved samples.
pub open spec fn left_channel(samples: Seq<i16>) -> Seq<i16> {
    Seq::new(samples.len() / 2, |i: int| samples[2 * i])
}

/// The right channel of interleaved samples.
pub open spec fn right_channel(samples: Seq<i16>) -> Seq<i16> {
    Seq::new(samples.len() / 2, |i: int| samples[2 * i + 1])
}

/// Two channels of one length as interleaved samples.
pub open spec fn interleaved(left: Seq<i16>, right: Seq<i16>) -> Seq<i16> {
    Seq::new(
        2 * left.len(),
        |i: int|
            if i % 2 == 0 {
                left[i / 2]
            } else {
                right[i / 2]
            },
    )
}

/// Stereo samples at another rate: each channel by itself.
pub open spec fn resampled_stereo(samples: Seq<i16>, from_rate: nat, to_rate: nat) -> Seq<i16> {
    interleaved(
        resampled(left_channel(samples), from_rate, to_rate),
        resampled(right_channel(samples), from_rate, to_rate),
    )
}

/// Whether the output of a stereo conversion of `len` samples can be allocated.
pub open spec fn resample_stereo_fits(len: nat, from_rate: nat, to_rate: nat) -> bool {
    len % 2 != 0 || from_rate == 0 || from_rate == to_rate || len == 0 || 4 * resampled_len(
        len / 2,
        from_rate,
        to_rate,
    ) <= isize::MAX
}

/// Resamples stereo audio, each channel separately.
///
/// Fails on an odd number of samples, whatever the rates are, and on a `from_rate` of
/// zero.
pub fn try_resample_stereo(samples: &[i16], from_rate: u32, to_rate: u32) -> (r: Result<
    Vec<i16>,
    FormatError,
>)
    requires
        resample_stereo_fits(samples@.len(), from_rate as nat, to_rate as nat),
    ensures
        samples@.len() % 2 != 0 ==> r == Err::<Vec<i16>, FormatError>(
            FormatError::OddSampleCount { count: samples@.len() as usize },
        ),
        samples@.len() % 2 == 0 && from_rate == 0 ==> r == Err::<Vec<i16>, FormatError>(
            FormatError::ZeroSampleRate,
        ),
        samples@.len() % 2 == 0 && from_rate > 0 ==> r is Ok && r->Ok_0@ == resampled_stereo(
            samples@,
            from_rate as nat,
            to_rate as nat,
        ),
{
    if samples.len() % 2 != 0 {
        return Err(FormatError::OddSampleCount { count: samples.len() });
    }
    if from_rate == 0 {
        return Err(FormatError::ZeroSampleRate);
    }
    let ghost left_out = resampled(left_channel(samples@), from_rate as nat, to_rate as nat);
    let ghost right_out = resampled(right_channel(samples@), from_rate as nat, to_rate as nat);
    if from_rate == to_rate || samples.len() == 0 {
        assert(interleaved(left_channel(samples@), right_channel(samples@)) =~= samples@);
        return Ok(copied(samples));
    }
    let frames: usize = samples.len() / 2;
    let mut left: Vec<i16> = Vec::with_capacity(frames);
    let mut right: Vec<i16> = Vec::with_capacity(frames);
    let mut i: usize = 0;
    while i < frames
        invariant
            i <= frames,
            frames == samples.len() / 2,
            left@ == left_channel(samples@).take(i as int),
            right@ == right_channel(samples@).take(i as int),
        decreases frames - i,
    {
        left.push(samples[2 * i]);
        right.push(samples[2 * i + 1]);
        i = i + 1;
    }
    assert(left@ =~= left_channel(samples@));
    assert(right@ =~= right_channel(samples@));
    let left_resampled = resample(&left, from_rate, to_rate);
    let right_resampled = resample(&right, from_rate, to_rate);
    let mut output: Vec<i16> = Vec::with_capacity(left_resampled.len() * 2);
    let mut j: usize = 0;
    while j < left_resampled.len()
        invariant
            j <= left_resampled.len(),
            left_resampled@ == left_out,
            right_resampled@ == right_out,
            left_out.len() == right_out.len(),
            output@ == interleaved(left_out, right_out).take(2 * j),
        decreases left_resampled.len() - j,
    {
        output.push(left_resampled[j]);
        output.push(right_resampled[j]);
        j = j + 1;
    }
    assert(output@ =~= interleaved(left_out, right_out));
    Ok(output)
}

/// Resamples stereo audio of whole frames, from a rate that is known not to be zero.
pub fn resample_stereo(samples: &[i16], from_rate: u32, to_rate: u32) -> (r: Vec<i16>)
    requires
        samples@.len() % 2 == 0,
        from_rate > 0,
        resample_stereo_fits(samples@.len(), from_rate as nat, to_rate as nat),
    ensures
        r@ == resampled_stereo(samples@, from_rate as nat, to_rate as nat),
{
    match try_resample_stereo(samples, from_rate, to_rate) {
        Ok(r) => r,
        Err(_) => Vec::new(),
    }
}

/// Resampling to the rate that the audio already has changes nothing.
pub proof fn lemma_resampled_same_rate(samples: Seq<i16>, rate: nat)
    ensures
        resampled(samples, rate, rate) == samples,
        samples.len() % 2 == 0 ==> resampled_stereo(samples, rate, rate) == samples,
{
    if samples.len() % 2 == 0 {
        assert(resampled_stereo(samples, rate, rate) =~= samples);
    }
}

/// Stereo output always consists of whole frames.
pub proof fn lemma_resampled_stereo_even(samples: Seq<i16>, from_rate: nat, to_rate: nat)
    ensures
        resampled_stereo(samples, from_rate, to_rate).len() % 2 == 0,
{
}

/// A conversion to a rate that is not zero gives samples, and starts on the first of the
/// input.
pub proof fn lemma_resampled_first(samples: Seq<i16>, from_rate: u32, to_rate: u32)
    requires
        samples.len() > 0,
        from_rate > 0,
        to_rate > 0,
    ensures
        resampled(samples, from_rate as nat, to_rate as nat).len() > 0,
        resampled(samples, from_rate as nat, to_rate as nat)[0] == samples[0],
{
    if from_rate != to_rate {
        let ratio = rate_ratio(from_rate as nat, to_rate as nat);
        binary64::lemma_rate_positive(to_rate, from_rate);
        binary64::lemma_rate_rounded(to_rate, from_rate);
        binary64::lemma_product_positive(samples.len(), ratio);
        binary64::lemma_zero_quotient(ratio);
        if samples.len() > 1 {
            binary64::lemma_interpolated_on_sample(samples[0] as int, samples[1] as int);
        }
    }
}

/// At a place that lies on a sample, that sample is taken.
proof fn lemma_sample_at_place(samples: Seq<i16>, at: nat)
    requires
        at < samples.len(),
        at < 0x20_0000_0000_0000,
    ensures
        sample_at(samples, at * binary64::unit()) == samples[at as int],
{
    vstd::arithmetic::power2::lemma2_to64_rest();
    binary64::lemma_whole_exact(at);
    if at + 1 < samples.len() {
        binary64::lemma_interpolated_on_sample(
            samples[at as int] as int,
            samples[(at + 1) as int] as int,
        );
    }
}

/// A conversion to a whole multiple of the rate gives as many times the samples, and keeps
/// each of the input.
pub proof fn lemma_resampled_multiple(
    samples: Seq<i16>,
    from_rate: u32,
    to_rate: u32,
    factor: nat,
    i: int,
)
    requires
        from_rate > 0,
        factor > 0,
        to_rate == factor * from_rate,
        samples.len() * factor < 0x20_0000_0000_0000,
        0 <= i < samples.len(),
    ensures
        resampled(samples, from_rate as nat, to_rate as nat).len() == samples.len() * factor,
        i * factor < samples.len() * factor,
        resampled(samples, from_rate as nat, to_rate as nat)[i * factor] == samples[i],
{
    vstd::arithmetic::power2::lemma2_to64_rest();
    let (from, to) = (from_rate as nat, to_rate as nat);
    let len = samples.len();
    assert(i * factor < len * factor) by (nonlinear_arith)
        requires
            0 <= i < len,
            factor > 0,
    ;
    assert(len <= len * factor) by (nonlinear_arith)
        requires
            factor > 0,
    ;
    if factor == 1 {
        assert(i * 1 == i && len * 1 == len);
    } else {
        assert(to != from) by (nonlinear_arith)
            requires
                to == factor * from,
                factor > 1,
                from > 0,
        ;
        binary64::lemma_whole_quotient(to, from, factor);
        binary64::lemma_whole_product(len, factor);
        assert(factor <= to) by (nonlinear_arith)
            requires
                to == factor * from,
                from > 0,
        ;
        binary64::lemma_whole_exact(factor);
        let at = (i * factor) as nat;
        assert(0 <= i * factor) by (nonlinear_arith)
            requires
                0 <= i,
                factor > 0,
        ;
        binary64::lemma_whole_quotient(at, factor, i as nat);
        lemma_sample_at_place(samples, i as nat);
    }
}

/// A conversion to twice the rate puts the mean of two samples between them, cut off towards
/// zero, and repeats the last.
pub proof fn lemma_resampled_halfway(samples: Seq<i16>, from_rate: u32, to_rate: u32, i: int)
    requires
        from_rate > 0,
        to_rate == 2 * from_rate,
        samples.len() < 0x4_0000_0000_0000,
        0 <= i < samples.len(),
    ensures
        resampled(samples, from_rate as nat, to_rate as nat).len() == 2 * samples.len(),
        i + 1 < samples.len() ==> resampled(samples, from_rate as nat, to_rate as nat)[2 * i + 1]
            == crate::format::convert::truncated_quotient(samples[i] + samples[i + 1], 2),
        i + 1 == samples.len() ==> resampled(samples, from_rate as nat, to_rate as nat)[2 * i + 1]
            == samples[i],
{
    vstd::arithmetic::power2::lemma2_to64_rest();
    let (from, to) = (from_rate as nat, to_rate as nat);
    lemma_resampled_multiple(samples, from_rate, to_rate, 2, i);
    binary64::lemma_whole_quotient(to, from, 2);
    binary64::lemma_halfway((2 * i + 1) as nat);
    if i + 1 < samples.len() {
        binary64::lemma_interpolated_halfway(samples[i] as int, samples[i + 1] as int);
    }
}

/// A conversion to a third of the rate, as from 48kHz to 16kHz, keeps every third sample from
/// the first on, and no other.
pub proof fn lemma_resampled_third(samples: Seq<i16>, from_rate: u32, to_rate: u32, i: int)
    requires
        to_rate > 0,
        from_rate == 3 * to_rate,
        samples.len() < 0x4_0000_0000_0000,
        0 <= i < (samples.len() + 2) / 3,
    ensures
        resampled(samples, from_rate as nat, to_rate as nat).len() == (samples.len() + 2) / 3,
        resampled(samples, from_rate as nat, to_rate as nat)[i] == samples[3 * i],
{
    vstd::arithmetic::power2::lemma2_to64_rest();
    binary64::lemma_third_of_len(to_rate as nat, samples.len());
    binary64::lemma_divided_by_third(to_rate as nat, i as nat);
    lemma_sample_at_place(samples, (3 * i) as nat);
}

/// No output sample leaves the range that the input keeps to.
pub proof fn lemma_resampled_in_range(
    samples: Seq<i16>,
    from_rate: nat,
    to_rate: nat,
    low: int,
    high: int,
    i: int,
)
    requires
        forall|j: int| 0 <= j < samples.len() ==> low <= #[trigger] samples[j] <= high,
        0 <= i < resampled(samples, from_rate, to_rate).len(),
    ensures
        low <= resampled(samples, from_rate, to_rate)[i] <= high,
{
    if from_rate == to_rate || samples.len() == 0 {
        assert(resampled(samples, from_rate, to_rate)[i] == samples[i]);
    } else {
        let position = source_position(i as nat, from_rate, to_rate);
        let index = binary64::floor(position) as int;
        if index + 1 < samples.len() {
            binary64::lemma_fraction_below_one(position);
            binary64::lemma_interpolated_between(
                samples[index] as int,
                samples[index + 1] as int,
                binary64::fraction(position),
            );
        } else {
            assert(samples.last() == samples[samples.len() - 1]);
        }
    }
}

/// A stereo conversion is that of its left samples and that of its right samples, in turn.
pub proof fn lemma_stereo_is_two_channels(
    samples: Seq<i16>,
    from_rate: nat,
    to_rate: nat,
    frame: int,
)
    requires
        samples.len() % 2 == 0,
    ensures
        ({
            let left = resampled(
                Seq::new(samples.len() / 2, |k: int| samples[2 * k]),
                from_rate,
                to_rate,
            );
            let right = resampled(
                Seq::new(samples.len() / 2, |k: int| samples[2 * k + 1]),
                from_rate,
                to_rate,
            );
            let stereo = resampled_stereo(samples, from_rate, to_rate);
            &&& left.len() == right.len()
            &&& stereo.len() == 2 * left.len()
            &&& 0 <= frame < left.len() ==> stereo[2 * frame] == left[frame] && stereo[2 * frame
                + 1] == right[frame]
        }),
{
    assert(left_channel(samples) =~= Seq::new(samples.len() / 2, |k: int| samples[2 * k]));
    assert(right_channel(samples) =~= Seq::new(samples.len() / 2, |k: int| samples[2 * k + 1]));
}

/// How far a line that goes through some samples at full steps moves between two places less
/// than a step apart: by no more than the largest slope times their distance. Places are given
/// as a number of full steps and what is left over.
proof fn lemma_line_is_steady(
    g: spec_fn(int) -> int,
    step: int,
    q: int,
    rest: int,
    index: int,
    part: int,
    off: int,
)
    requires
        forall|k: int| -32768 <= #[trigger] g(k) <= 32767,
        0 <= rest < step,
        0 <= part < step,
        off == (index * step + part) - (q * step + rest),
        -step < off < step,
    ensures
        ({
            let moved = (g(index) * step + (g(index + 1) - g(index)) * part) - (g(q) * step + (g(
                q + 1,
            ) - g(q)) * rest);
            &&& off >= 0 ==> -65535 * off <= moved <= 65535 * off
            &&& off <= 0 ==> 65535 * off <= moved <= -65535 * off
        }),
{
    assert(index == q || index == q + 1 || index == q - 1) by (nonlinear_arith)
        requires
            0 <= rest < step,
            0 <= part < step,
            off == (index * step + part) - (q * step + rest),
            -step < off < step,
    {
        let k = index - q;
        assert(off == k * step + part - rest);
        if k >= 2 {
            assert(k * step >= 2 * step);
        }
        if k <= -2 {
            assert(k * step <= -2 * step);
        }
    }
    if index == q {
        let slope = g(q + 1) - g(q);
        assert(off == part - rest);
        assert(slope * part - slope * rest == slope * off) by (nonlinear_arith)
            requires
                off == part - rest,
        ;
        lemma_slope_bound(slope, off);
    } else if index == q + 1 {
        let s1 = g(q + 1) - g(q);
        let s2 = g(q + 2) - g(q + 1);
        let left = step - rest;
        assert((q + 1) * step == q * step + step) by (nonlinear_arith);
        assert(off == left + part);
        assert(g(q + 1) * step + s2 * part - (g(q) * step + s1 * rest) == s1 * left + s2 * part)
            by (nonlinear_arith)
            requires
                s1 == g(q + 1) - g(q),
                left == step - rest,
        ;
        lemma_slope_bound(s1, left);
        lemma_slope_bound(s2, part);
    } else {
        let s1 = g(q + 1) - g(q);
        let s0 = g(q) - g(q - 1);
        let left = step - part;
        assert((q - 1) * step == q * step - step) by (nonlinear_arith);
        assert(off == -(left + rest));
        assert(g(q - 1) * step + s0 * part - (g(q) * step + s1 * rest) == -(s0 * left + s1 * rest))
            by (nonlinear_arith)
            requires
                s0 == g(q) - g(q - 1),
                left == step - part,
        ;
        lemma_slope_bound(s0, left);
        lemma_slope_bound(s1, rest);
    }
}

proof fn lemma_slope_bound(slope: int, by: int)
    requires
        -65535 <= slope <= 65535,
    ensures
        by >= 0 ==> -65535 * by <= slope * by <= 65535 * by,
        by <= 0 ==> 65535 * by <= slope * by <= -65535 * by,
{
    assert(by >= 0 ==> -65535 * by <= slope * by <= 65535 * by) by (nonlinear_arith)
        requires
            -65535 <= slope <= 65535,
    ;
    assert(by <= 0 ==> 65535 * by <= slope * by <= -65535 * by) by (nonlinear_arith)
        requires
            -65535 <= slope <= 65535,
    ;
}

/// A conversion lies on the line through its input: at the place that the rates give for an
/// output sample, `q` full samples and `r` parts of another behind the first, it is what the
/// line between the two samples around gives, to within two; after the last sample the line
/// stays where it is.
pub proof fn lemma_resampled_on_line(samples: Seq<i16>, from_rate: u32, to_rate: u32, i: nat)
    requires
        from_rate > 0,
        to_rate > 0,
        i < resampled(samples, from_rate as nat, to_rate as nat).len(),
        i < 0x20_0000_0000_0000,
        i * from_rate <= to_rate * 0x1_0000_0000,
    ensures
        ({
            let out = resampled(samples, from_rate as nat, to_rate as nat)[i as int];
            let q = (i * (from_rate as nat)) / (to_rate as nat);
            let r = (i * (from_rate as nat)) % (to_rate as nat);
            let a = if q < samples.len() {
                samples[q as int]
            } else {
                samples[samples.len() - 1]
            };
            let b = if q + 1 < samples.len() {
                samples[q + 1int]
            } else {
                samples[samples.len() - 1]
            };
            -2 * to_rate <= out * to_rate - (a * to_rate + (b - a) * r) <= 2 * to_rate
        }),
{
    let u = binary64::unit() as int;
    vstd::arithmetic::power2::lemma_pow2_pos(1074);
    let (from, to) = (from_rate as int, to_rate as int);
    let x = i * from;
    let (q, r) = (x / to, x % to);
    vstd::arithmetic::div_mod::lemma_fundamental_div_mod(x, to);
    assert(q >= 0) by {
        vstd::arithmetic::div_mod::lemma_div_pos_is_pos(x, to);
    }
    let last = samples.len() - 1;
    if from_rate == to_rate {
        assert(q == i && r == 0) by (nonlinear_arith)
            requires
                x == i * to,
                x == to * q + r,
                0 <= r < to,
        {
            assert(to * (i - q) == r);
            if i > q {
                assert(to * (i - q) >= to);
            }
            if i < q {
                assert(to * (i - q) <= -to);
            }
        }
        let a = samples[i as int] as int;
        assert((samples[if q + 1 < samples.len() {
            q + 1
        } else {
            last
        }] - a) * 0 == 0);
    } else {
        assert(samples.len() > 0);
        let g = |k: int|
            if k < 0 {
                samples[0] as int
            } else if k <= last {
                samples[k] as int
            } else {
                samples[last] as int
            };
        let position = source_position(i, from_rate as nat, to_rate as nat);
        let index = binary64::floor(position) as int;
        let f = binary64::fraction(position) as int;
        let out = resampled(samples, from_rate as nat, to_rate as nat)[i as int] as int;
        assert(out == sample_at(samples, position));
        vstd::arithmetic::div_mod::lemma_fundamental_div_mod(position as int, u);
        binary64::lemma_position_close(i, from_rate as nat, to_rate as nat);
        let t = to * u;
        assert(t > 0) by (nonlinear_arith)
            requires
                to > 0,
                u > 0,
                t == to * u,
        ;
        let (rest, part) = (r * u, f * to);
        let xu = x * u;
        let near = position * to;
        assert(xu == q * t + rest && 0 <= rest < t) by (nonlinear_arith)
            requires
                x == to * q + r,
                0 <= r < to,
                u > 0,
                t == to * u,
                rest == r * u,
                xu == x * u,
        ;
        assert(near == index * t + part && 0 <= part < t) by (nonlinear_arith)
            requires
                position == u * index + f,
                0 <= f < u,
                to > 0,
                t == to * u,
                part == f * to,
                near == position * to,
        ;
        let off = near - xu;
        assert(-t <= 0x8_0000 * off <= t);
        lemma_line_is_steady(g, t, q, rest, index, part, off);
        let made = g(index) * t + (g(index + 1) - g(index)) * part;
        let aim = g(q) * t + (g(q + 1) - g(q)) * rest;
        assert(-9 * t <= 8 * (out * t - made) <= 9 * t) by {
            if index + 1 < samples.len() {
                let (s1, s2) = (samples[index] as int, samples[index + 1] as int);
                binary64::lemma_interpolated_close(s1, s2, f as nat);
                let e = out * u - (s1 * u + (s2 - s1) * f);
                assert(g(index) == s1 && g(index + 1) == s2);
                assert(out * t - made == e * to) by (nonlinear_arith)
                    requires
                        e == out * u - (s1 * u + (s2 - s1) * f),
                        made == s1 * t + (s2 - s1) * part,
                        t == to * u,
                        part == f * to,
                ;
                assert(-9 * t <= 8 * (e * to) <= 9 * t) by (nonlinear_arith)
                    requires
                        -9 * u <= 8 * e <= 9 * u,
                        t == to * u,
                        to > 0,
                ;
            } else {
                assert(g(index) == out && g(index + 1) == out);
                assert((out - out) * part == 0) by (nonlinear_arith);
            }
        }
        let (a, b) = (g(q), g(q + 1));
        let difference = out * to - (a * to + (b - a) * r);
        assert(-16 * t <= 8 * (out * t - aim) <= 16 * t);
        assert(out * t - aim == difference * u) by (nonlinear_arith)
            requires
                difference == out * to - (a * to + (b - a) * r),
                aim == a * t + (b - a) * rest,
                t == to * u,
                rest == r * u,
        ;
        assert(-2 * to <= difference <= 2 * to) by (nonlinear_arith)
            requires
                -16 * t <= 8 * (difference * u) <= 16 * t,
                t == to * u,
                u > 0,
        ;
    }
}

/// A conversion gives as many samples as the rates make of the input, rounded up, to within a
/// thousandth of a sample.
pub proof fn lemma_resampled_count(samples: Seq<i16>, from_rate: u32, to_rate: u32)
    requires
        from_rate > 0,
        to_rate > 0,
        samples.len() < 0x20_0000_0000_0000,
        samples.len() * to_rate <= from_rate * 0x100_0000_0000,
    ensures
        ({
            let count = resampled(samples, from_rate as nat, to_rate as nat).len();
            &&& 1000 * (samples.len() * to_rate) <= 1000 * (count * from_rate) + from_rate
            &&& 1000 * (count * from_rate) < 1000 * (samples.len() * to_rate) + 1001 * from_rate
        }),
{
    if samples.len() == 0 {
        assert(samples.len() * to_rate == 0 && samples.len() * from_rate == 0) by (nonlinear_arith)
            requires
                samples.len() == 0,
        ;
    } else {
        binary64::lemma_converted_len_close(samples.len(), from_rate as nat, to_rate as nat);
    }
}

} // verus!
