//! Choosing and configuring input devices.
use crate::pipeline::ring_buffer;
use crate::pipeline::ring_buffer::{can_count_samples, samples_in_duration};
use crate::ring;
use crate::ring::{can_make_ring, SampleConsumer, SampleProducer, SampleRing};
use crate::time::Duration;
use crate::StreamAudioError;
use vstd::prelude::*;
use vstd::string::*;

verus! {

/// Configuration for audio capture.
#[derive(Debug, Clone, Copy, PartialEq, Eq, Structural)]
pub struct DeviceConfig {
    /// Target sample rate in Hz.
    pub sample_rate: u32,
    /// Number of channels (1 = mono, 2 = stereo).
    pub channels: u16,
    /// Ring buffer capacity in samples.
    pub buffer_capacity: usize,
}

impl Default for DeviceConfig {
    /// 30 seconds at 16kHz mono.
    fn default() -> (r: Self)
        ensures
            r == (DeviceConfig { sample_rate: 16000, channels: 1, buffer_capacity: 480_000 }),
    {
        DeviceConfig { sample_rate: 16000, channels: 1, buffer_capacity: 480_000 }
    }
}

/// Whether a ring buffer for a span of so many nanoseconds can be made.
pub open spec fn can_buffer(sample_rate: nat, channels: nat, nanos: nat) -> bool {
    &&& ring_buffer::frames_in(sample_rate, nanos) <= usize::MAX
    &&& 0 < ring_buffer::samples_in(sample_rate, channels, nanos)
    &&& 2 * ring_buffer::samples_in(sample_rate, channels, nanos) <= isize::MAX
}

impl DeviceConfig {
    /// The configuration for a format with a ring buffer that holds a span of time; none
    /// where such a buffer cannot be made.
    pub fn for_duration(sample_rate: u32, channels: u16, duration: Duration) -> (r: Option<Self>)
        ensures
            match r {
                Some(config) => {
                    &&& can_buffer(sample_rate as nat, channels as nat, duration@)
                    &&& config.sample_rate == sample_rate
                    &&& config.channels == channels
                    &&& config.buffer_capacity == ring_buffer::samples_in(
                        sample_rate as nat,
                        channels as nat,
                        duration@,
                    )
                },
                None => !can_buffer(sample_rate as nat, channels as nat, duration@),
            },
    {
        if !can_count_samples(sample_rate, channels, duration) {
            return None;
        }
        let buffer_capacity: usize = samples_in_duration(sample_rate, channels, duration);
        if !can_make_ring(buffer_capacity as u128) {
            return None;
        }
        Some(DeviceConfig { sample_rate, channels, buffer_capacity })
    }
}

/// The form in which a device delivers samples.
#[derive(Debug)]
pub enum SampleKind {
    /// 16-bit integers.
    I16,
    /// 32-bit floating point numbers.
    F32,
    /// Anything else, by its name.
    Other(String),
}

/// How samples get from a device into the ring buffer.
#[derive(Debug, Clone, Copy, PartialEq, Eq, Structural)]
pub enum CaptureKind {
    /// As they are, in blocks.
    Integers,
    /// One by one, after conversion.
    Floats,
}

/// Decides how samples get into the ring buffer.
///
/// Fails on a form that is not supported.
pub fn capture_kind(kind: &SampleKind) -> (r: Result<CaptureKind, StreamAudioError>)
    ensures
        match *kind {
            SampleKind::I16 => r is Ok && r->Ok_0 == CaptureKind::Integers,
            SampleKind::F32 => r is Ok && r->Ok_0 == CaptureKind::Floats,
            SampleKind::Other(name) => r matches Err(error)
                && error matches StreamAudioError::UnsupportedFormat { format } && format@ == name@,
        },
{
    match kind {
        SampleKind::I16 => Ok(CaptureKind::Integers),
        SampleKind::F32 => Ok(CaptureKind::Floats),
        SampleKind::Other(name) => Err(StreamAudioError::UnsupportedFormat { format: name.clone() }),
    }
}

/// Whether device `i` has a name, and this one.
pub open spec fn is_named(names: Seq<Option<String>>, i: int, name: Seq<char>) -> bool {
    names[i] is Some && names[i]->0@ == name
}

/// Finds the first device with a name; devices whose name is not known are passed over.
pub fn find_device(names: &Vec<Option<String>>, name: &str) -> (r: Result<usize, StreamAudioError>)
    ensures
        match r {
            Ok(i) => i < names@.len() && is_named(names@, i as int, name@) && forall|j: int|
                0 <= j < i ==> !#[trigger] is_named(names@, j, name@),
            Err(error) => (error matches StreamAudioError::DeviceNotFound { name: n } && n@
                == name@) && forall|j: int|
                0 <= j < names@.len() ==> !#[trigger] is_named(names@, j, name@),
        },
{
    let wanted = String::from_str(name);
    let mut i: usize = 0;
    while i < names.len()
        invariant
            i <= names.len(),
            wanted@ == name@,
            forall|j: int| 0 <= j < i ==> !#[trigger] is_named(names@, j, name@),
        decreases names.len() - i,
    {
        match &names[i] {
            Some(candidate) => {
                if *candidate == wanted {
                    return Ok(i);
                }
            },
            None => {},
        }
        i = i + 1;
    }
    Err(StreamAudioError::DeviceNotFound { name: wanted })
}

/// The names that are known, in order.
pub open spec fn known_names(names: Seq<Option<String>>) -> Seq<String>
    decreases names.len(),
{
    if names.len() == 0 {
        Seq::empty()
    } else {
        let before = known_names(names.drop_last());
        match names.last() {
            Some(name) => before.push(name),
            None => before,
        }
    }
}

/// Lists the devices whose names are known.
pub fn list_known(names: &Vec<Option<String>>) -> (r: Vec<String>)
    ensures
        r@ == known_names(names@),
{
    let mut r: Vec<String> = Vec::new();
    let mut i: usize = 0;
    while i < names.len()
        invariant
            i <= names.len(),
            r@ == known_names(names@.take(i as int)),
        decreases names.len() - i,
    {
        assert(names@.take(i + 1).drop_last() =~= names@.take(i as int));
        match &names[i] {
            Some(name) => {
                r.push(name.clone());
            },
            None => {},
        }
        i = i + 1;
    }
    assert(names@.take(i as int) =~= names@);
    r
}

/// The name of a device, or `unknown`.
pub fn name_or_unknown(name: Option<String>) -> (r: String)
    ensures
        r@ == match name {
            Some(name) => name@,
            None => "unknown"@,
        },
{
    match name {
        Some(name) => name,
        None => String::from_str("unknown"),
    }
}

/// Makes the ring buffer between a device and the pipeline.
pub fn capture_ring(config: &DeviceConfig) -> (r: (SampleProducer, SampleConsumer))
    requires
        config.buffer_capacity > 0,
        2 * config.buffer_capacity <= isize::MAX,
    ensures
        ring::new_ends(r.0, r.1),
        ring::producer_contents(r.0) == Seq::<i16>::empty(),
        ring::producer_capacity(r.0) == config.buffer_capacity,
        ring::consumer_contents(r.1) == Seq::<i16>::empty(),
{
    let (producer, consumer) = SampleRing::new(config.buffer_capacity).split();
    proof {
        assert(ring::producer_contents(producer) =~= Seq::empty());
        assert(ring::consumer_contents(consumer) =~= Seq::empty());
    }
    (producer, consumer)
}

/// Names that are not known are left out of a list; the others stay, in order.
pub proof fn lemma_known_names_grow(names: Seq<Option<String>>, name: String)
    ensures
        known_names(Seq::empty()) == Seq::<String>::empty(),
        known_names(names.push(Some(name))) == known_names(names).push(name),
        known_names(names.push(None)) == known_names(names),
{
    assert(names.push(Some(name)).drop_last() =~= names);
    assert(names.push(None).drop_last() =~= names);
}

/// A device goes by the name that is known of it, letter by letter, and by none where none is.
pub proof fn lemma_name_is_exact(names: Seq<Option<String>>, i: int, a: Seq<char>, b: Seq<char>)
    ensures
        names[i] is None ==> !is_named(names, i, a),
        names[i] matches Some(name) ==> is_named(names, i, name@),
        is_named(names, i, a) && is_named(names, i, b) ==> a == b,
{
}

} // verus!
