//! Channel conversion.
use vstd::prelude::*;

verus! {

/// The integer quotient of `a` and `d`, cut off towards zero.
pub open spec fn truncated_quotient(a: int, d: int) -> int {
    if a >= 0 {
        a / d
    } else {
        -((-a) / d)
    }
}

/// What `stereo_to_mono` makes of interleaved samples: one average per complete frame.
pub open spec fn averaged_frames(stereo: Seq<i16>) -> Seq<i16> {
    Seq::new(
        stereo.len() / 2,
        |i: int| truncated_quotient(stereo[2 * i] + stereo[2 * i + 1], 2) as i16,
    )
}

/// What `mono_to_stereo` makes of its samples: each of them twice.
pub open spec fn doubled_samples(mono: Seq<i16>) -> Seq<i16> {
    Seq::new(2 * mono.len(), |i: int| mono[i / 2])
}

/// A fresh vector with the samples of a slice.
pub(crate) fn copied(samples: &[i16]) -> (r: Vec<i16>)
    ensures
        r@ == samples@,
{
    let mut r: Vec<i16> = Vec::new();
    let mut i: usize = 0;
    while i < samples.len()
        invariant
            i <= samples.len(),
            r@ == samples@.take(i as int),
        decreases samples.len() - i,
    {
        r.push(samples[i]);
        i = i + 1;
    }
    assert(samples@.take(i as int) == samples@);
    r
}

/// Converts stereo samples to mono by averaging channels.
///
/// The input is a sequence of left and right pairs; half a pair at the end is dropped.
pub fn stereo_to_mono(stereo: &[i16]) -> (mono: Vec<i16>)
    ensures
        mono@ == averaged_frames(stereo@),
{
    let frames: usize = stereo.len() / 2;
    let mut mono: Vec<i16> = Vec::with_capacity(frames);
    let mut i: usize = 0;
    while i < frames
        invariant
            i <= frames,
            frames == stereo.len() / 2,
            mono@ == averaged_frames(stereo@).take(i as int),
        decreases frames - i,
    {
        let total: i32 = stereo[2 * i] as i32 + stereo[2 * i + 1] as i32;
        let half: i32 = if total >= 0 {
            total / 2
        } else {
            -((-total) / 2)
        };
        mono.push(half as i16);
        i = i + 1;
    }
    mono
}

/// Converts mono samples to stereo by duplicating each sample.
pub fn mono_to_stereo(mono: &[i16]) -> (stereo: Vec<i16>)
    requires
        2 * mono.len() <= usize::MAX,
    ensures
        stereo@ == doubled_samples(mono@),
{
    let mut stereo: Vec<i16> = Vec::with_capacity(2 * mono.len());
    let mut i: usize = 0;
    while i < mono.len()
        invariant
            i <= mono.len(),
            2 * mono.len() <= usize::MAX,
            stereo@ == doubled_samples(mono@).take(2 * i),
        decreases mono.len() - i,
    {
        stereo.push(mono[i]);
        stereo.push(mono[i]);
        i = i + 1;
    }
    stereo
}

/// Going from mono to stereo and back loses nothing.
pub proof fn lemma_mono_round_trip(mono: Seq<i16>)
    ensures
        averaged_frames(doubled_samples(mono)) == mono,
{
    assert(averaged_frames(doubled_samples(mono)) =~= mono);
}

/// The two channels that `mono_to_stereo` writes are equal.
pub proof fn lemma_doubled_channels_equal(mono: Seq<i16>, frame: int)
    requires
        0 <= frame < mono.len(),
    ensures
        doubled_samples(mono)[2 * frame] == mono[frame],
        doubled_samples(mono)[2 * frame + 1] == mono[frame],
{
}

/// A mono sample lies halfway between the two channels of its frame, cut toward zero; half a
/// frame at the end has none.
pub proof fn lemma_average_of_frame(stereo: Seq<i16>, frame: int)
    requires
        0 <= frame,
        2 * frame + 1 < stereo.len(),
    ensures
        2 * averaged_frames(stereo).len() <= stereo.len() <= 2 * averaged_frames(stereo).len() + 1,
        ({
            let total = stereo[2 * frame] + stereo[2 * frame + 1];
            let mono = averaged_frames(stereo)[frame];
            if total >= 0 {
                2 * mono <= total <= 2 * mono + 1
            } else {
                2 * mono - 1 <= total <= 2 * mono
            }
        }),
{
}

/// Stereo has two samples for each of mono, and no more.
pub proof fn lemma_doubled_len(mono: Seq<i16>)
    ensures
        doubled_samples(mono).len() == 2 * mono.len(),
{
}

} // verus!
