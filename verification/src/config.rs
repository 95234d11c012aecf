//! Configuration types for audio streams.
use crate::time::Duration;
use vstd::prelude::*;

verus! {

/// Preset audio formats for common use cases.
#[derive(Debug, Clone, Copy, PartialEq, Eq, Structural)]
pub enum FormatPreset {
    /// 16kHz mono - optimal for speech-to-text services.
    Transcription,
    /// Use the device's native format without conversion.
    Native,
}

impl Default for FormatPreset {
    fn default() -> (r: Self)
        ensures
            r == FormatPreset::Transcription,
    {
        FormatPreset::Transcription
    }
}

impl FormatPreset {
    /// Returns the target sample rate for this preset, or `None` for native.
    pub fn sample_rate(&self) -> (r: Option<u32>)
        ensures
            r == match *self {
                FormatPreset::Transcription => Some(16000u32),
                FormatPreset::Native => None,
            },
    {
        match self {
            FormatPreset::Transcription => Some(16000),
            FormatPreset::Native => None,
        }
    }

    /// Returns the target channel count for this preset, or `None` for native.
    pub fn channels(&self) -> (r: Option<u16>)
        ensures
            r == match *self {
                FormatPreset::Transcription => Some(1u16),
                FormatPreset::Native => None,
            },
    {
        match self {
            FormatPreset::Transcription => Some(1),
            FormatPreset::Native => None,
        }
    }
}

/// Configuration for stream behavior.
#[derive(Debug, Clone, Copy)]
pub struct StreamConfig {
    /// Duration of each audio chunk sent to sinks. Default: 100ms
    ///
    /// Smaller values reduce latency but increase overhead.
    pub chunk_duration: Duration,
    /// Size of the ring buffer for resilience. Default: 30 seconds
    ///
    /// This buffer absorbs pressure from slow sinks. If it fills, audio is dropped and a
    /// [`StreamEvent::BufferOverflow`](crate::StreamEvent::BufferOverflow) is emitted. The
    /// audio callback holds only the end into which samples are pushed, which cannot remove
    /// older audio, so it is the newest audio that is dropped. This is the size for input
    /// devices; system audio is buffered for 30 seconds.
    pub ring_buffer_duration: Duration,
    /// Number of retry attempts for failed sink writes. Default: 3
    pub sink_retry_attempts: u32,
    /// Initial delay between sink retry attempts. Default: 100ms
    ///
    /// The delay doubles with each attempt.
    pub sink_retry_delay: Duration,
    /// Duration of merge windows for multi-source capture. Default: 100ms
    ///
    /// Chunks are aligned by timestamp into windows of this duration. Should typically
    /// match `chunk_duration`.
    pub merge_window_duration: Duration,
    /// Timeout for incomplete merge windows. Default: 200ms
    ///
    /// A window that lacks a source after this time is emitted without it.
    pub merge_window_timeout: Duration,
    /// Maximum pending merge windows before the oldest is evicted. Default: 10
    pub max_pending_windows: usize,
}

/// About one second at 100ms windows.
const DEFAULT_MAX_PENDING_WINDOWS: usize = 10;

impl Default for StreamConfig {
    fn default() -> (r: Self)
        ensures
            r.chunk_duration@ == 100_000_000,
            r.ring_buffer_duration@ == 30_000_000_000,
            r.sink_retry_attempts == 3,
            r.sink_retry_delay@ == 100_000_000,
            r.merge_window_duration@ == 100_000_000,
            r.merge_window_timeout@ == 200_000_000,
            r.max_pending_windows == 10,
    {
        StreamConfig {
            chunk_duration: Duration::from_millis(100),
            ring_buffer_duration: Duration::from_secs(30),
            sink_retry_attempts: 3,
            sink_retry_delay: Duration::from_millis(100),
            merge_window_duration: Duration::from_millis(100),
            merge_window_timeout: Duration::from_millis(200),
            max_pending_windows: DEFAULT_MAX_PENDING_WINDOWS,
        }
    }
}

} // verus!
