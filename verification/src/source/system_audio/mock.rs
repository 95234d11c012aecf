//! Mock system audio backend for testing.
use super::{DEFAULT_SYSTEM_AUDIO_CHANNELS, DEFAULT_SYSTEM_AUDIO_SAMPLE_RATE};
use crate::ring;
use crate::ring::{filled_ring, SampleConsumer};
use crate::source::system_audio;
use crate::StreamAudioError;
use vstd::prelude::*;
use vstd::string::*;

verus! {

/// Ring buffer capacity for mock system audio (30 seconds at 48kHz stereo).
pub const MOCK_BUFFER_CAPACITY: usize = 2_880_000;

/// Mock system audio backend for testing: silent, or filled with test data.
#[derive(Debug)]
pub struct MockSystemAudioBackend {
    sample_rate: u32,
    channels: u16,
    prefill_samples: Vec<i16>,
}

impl MockSystemAudioBackend {
    /// Rate and channels.
    pub closed spec fn native(self) -> (u32, u16) {
        (self.sample_rate, self.channels)
    }

    /// The test data.
    pub closed spec fn prefill(self) -> Seq<i16> {
        self.prefill_samples@
    }

    /// Create a mock backend with default configuration.
    pub fn new() -> (r: Self)
        ensures
            r.native() == (DEFAULT_SYSTEM_AUDIO_SAMPLE_RATE, DEFAULT_SYSTEM_AUDIO_CHANNELS),
            r.prefill() == Seq::<i16>::empty(),
    {
        MockSystemAudioBackend {
            sample_rate: DEFAULT_SYSTEM_AUDIO_SAMPLE_RATE,
            channels: DEFAULT_SYSTEM_AUDIO_CHANNELS,
            prefill_samples: Vec::new(),
        }
    }

    /// Create a mock backend with specific configuration.
    pub fn with_config(sample_rate: u32, channels: u16) -> (r: Self)
        ensures
            r.native() == (sample_rate, channels),
            r.prefill() == Seq::<i16>::empty(),
    {
        MockSystemAudioBackend { sample_rate, channels, prefill_samples: Vec::new() }
    }

    /// Create a mock backend with pre-filled test samples.
    pub fn with_samples(samples: Vec<i16>) -> (r: Self)
        ensures
            r.native() == (DEFAULT_SYSTEM_AUDIO_SAMPLE_RATE, DEFAULT_SYSTEM_AUDIO_CHANNELS),
            r.prefill() == samples@,
    {
        MockSystemAudioBackend {
            sample_rate: DEFAULT_SYSTEM_AUDIO_SAMPLE_RATE,
            channels: DEFAULT_SYSTEM_AUDIO_CHANNELS,
            prefill_samples: samples,
        }
    }

    /// Starts capture where the build has a native backend: a ring buffer with the test
    /// data, as far as it has room.
    pub fn start_capture(self, sck_native: bool) -> (r: Result<SampleConsumer, StreamAudioError>)
        ensures
            match r {
                Ok(consumer) => sck_native && ring::consumer_contents(consumer)
                    == self.prefill().take(
                    if self.prefill().len() < MOCK_BUFFER_CAPACITY {
                        self.prefill().len() as int
                    } else {
                        MOCK_BUFFER_CAPACITY as int
                    },
                ),
                Err(error) => !sck_native && system_audio::unavailable(
                    error,
                    "mock backend requires sck-native feature"@,
                ),
            },
    {
        if sck_native {
            Ok(filled_ring(MOCK_BUFFER_CAPACITY, self.prefill_samples.as_slice()))
        } else {
            Err(
                StreamAudioError::SystemAudioUnavailable {
                    reason: String::from_str("mock backend requires sck-native feature"),
                },
            )
        }
    }

    /// Returns the sample rate and channel count.
    pub fn native_config(&self) -> (r: (u32, u16))
        ensures
            r == self.native(),
    {
        (self.sample_rate, self.channels)
    }

    /// Backend name for logging/debugging.
    pub fn name(&self) -> (r: &'static str)
        ensures
            r@ == "MockSystemAudio"@,
    {
        "MockSystemAudio"
    }
}

impl Default for MockSystemAudioBackend {
    fn default() -> (r: Self)
        ensures
            r.native() == (DEFAULT_SYSTEM_AUDIO_SAMPLE_RATE, DEFAULT_SYSTEM_AUDIO_CHANNELS),
            r.prefill() == Seq::<i16>::empty(),
    {
        Self::new()
    }
}

} // verus!
