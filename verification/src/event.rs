//! Runtime events for monitoring stream health.
//!
//! Events are non-fatal: the stream keeps running. They serve logging and metrics.
use crate::source::source_id::clone_ids;
use crate::source::SourceId;
use crate::time::Duration;
use std::sync::Arc;
use vstd::prelude::*;

verus! {

/// Runtime events emitted during audio capture.
#[derive(Debug)]
pub enum StreamEvent {
    /// The ring buffer dropped audio because sinks couldn't keep up.
    ///
    /// This happens when sinks are slower than real-time for so long that the buffer fills.
    /// What arrives while it is full is dropped.
    BufferOverflow {
        /// Approximate duration of audio that was dropped.
        dropped_ms: u64,
    },
    /// A sink encountered an error during write.
    SinkError {
        /// Name of the sink that errored.
        sink_name: String,
        /// Description of the error.
        error: String,
    },
    /// The audio stream was temporarily interrupted.
    StreamInterrupted {
        /// Description of why the stream was interrupted.
        reason: String,
    },
    /// A source started producing audio.
    SourceStarted {
        /// ID of the source that started.
        source_id: SourceId,
    },
    /// A source stopped producing audio.
    SourceStopped {
        /// ID of the source that stopped.
        source_id: SourceId,
        /// Why the source stopped.
        reason: String,
    },
    /// Audio device configuration changed during capture.
    ///
    /// This typically happens with Bluetooth devices when activating the microphone
    /// causes a profile switch.
    AudioConfigChanged {
        /// Source affected by the config change.
        source_id: SourceId,
        /// Previous configuration (`sample_rate`, `channels`).
        previous: (u32, u16),
        /// Current configuration (`sample_rate`, `channels`).
        current: (u32, u16),
        /// Human-readable explanation of the change.
        message: String,
    },
    /// No samples were received for an extended period.
    AudioFlowStopped {
        /// Source that stopped producing audio.
        source_id: SourceId,
        /// Duration of silence before this event was emitted.
        silent_duration_ms: u64,
    },
    /// Audio flow resumed after being stopped.
    AudioFlowResumed {
        /// Source that resumed producing audio.
        source_id: SourceId,
    },
    /// Detected a suspicious gap of zero samples in the audio stream.
    AudioGapDetected {
        /// Source where the gap was detected.
        source_id: SourceId,
        /// Duration of this gap in milliseconds.
        gap_duration_ms: u64,
        /// Number of zero samples in this gap.
        gap_samples: u32,
        /// Position in the recording where the gap occurred.
        position: Duration,
        /// Total number of gaps detected so far in this session.
        cumulative_gaps: u32,
        /// Total gap duration in milliseconds across all gaps.
        cumulative_gap_ms: u64,
    },
    /// Signal metrics of one chunk.
    ///
    /// Level and offset are given by the sums that they are computed from.
    AudioQualityReport {
        /// Source that the chunk came from.
        source_id: SourceId,
        /// Timestamp of the chunk.
        position: Duration,
        /// Largest absolute sample value.
        peak_amplitude: i16,
        /// Number of samples in the chunk.
        sample_count: usize,
        /// Sum of the squares of the samples.
        sum_squares: u128,
        /// Sum of the samples.
        sum: i128,
        /// Samples of this chunk at either end of the range.
        clipped_samples: u32,
        /// Such samples in all chunks so far.
        total_clipped_samples: u64,
    },
    /// A merge window was emitted without all of its sources.
    MergeIncomplete {
        /// The window.
        window_id: u64,
        /// The sources that it lacked.
        missing: Vec<SourceId>,
    },
}

/// What an event says.
pub ghost enum EventModel {
    /// See [`StreamEvent::BufferOverflow`].
    BufferOverflow { dropped_ms: nat },
    /// See [`StreamEvent::SinkError`].
    SinkError { sink_name: Seq<char>, error: Seq<char> },
    /// See [`StreamEvent::StreamInterrupted`].
    StreamInterrupted { reason: Seq<char> },
    /// See [`StreamEvent::SourceStarted`].
    SourceStarted { source_id: Seq<char> },
    /// See [`StreamEvent::SourceStopped`].
    SourceStopped { source_id: Seq<char>, reason: Seq<char> },
    /// See [`StreamEvent::AudioConfigChanged`].
    AudioConfigChanged {
        source_id: Seq<char>,
        previous: (u32, u16),
        current: (u32, u16),
        message: Seq<char>,
    },
    /// See [`StreamEvent::AudioFlowStopped`].
    AudioFlowStopped { source_id: Seq<char>, silent_duration_ms: nat },
    /// See [`StreamEvent::AudioFlowResumed`].
    AudioFlowResumed { source_id: Seq<char> },
    /// See [`StreamEvent::AudioGapDetected`].
    AudioGapDetected {
        source_id: Seq<char>,
        gap_duration_ms: nat,
        gap_samples: nat,
        position: nat,
        cumulative_gaps: nat,
        cumulative_gap_ms: nat,
    },
    /// See [`StreamEvent::AudioQualityReport`].
    AudioQualityReport {
        source_id: Seq<char>,
        position: nat,
        peak_amplitude: int,
        sample_count: nat,
        sum_squares: nat,
        sum: int,
        clipped_samples: nat,
        total_clipped_samples: nat,
    },
    /// See [`StreamEvent::MergeIncomplete`].
    MergeIncomplete { window_id: nat, missing: Seq<Seq<char>> },
}

/// The texts of some identifiers.
pub open spec fn id_texts(ids: Seq<SourceId>) -> Seq<Seq<char>> {
    ids.map_values(|id: SourceId| id@)
}

impl View for StreamEvent {
    type V = EventModel;

    open spec fn view(&self) -> EventModel {
        match *self {
            StreamEvent::BufferOverflow { dropped_ms } => EventModel::BufferOverflow {
                dropped_ms: dropped_ms as nat,
            },
            StreamEvent::SinkError { sink_name, error } => EventModel::SinkError {
                sink_name: sink_name@,
                error: error@,
            },
            StreamEvent::StreamInterrupted { reason } => EventModel::StreamInterrupted {
                reason: reason@,
            },
            StreamEvent::SourceStarted { source_id } => EventModel::SourceStarted {
                source_id: source_id@,
            },
            StreamEvent::SourceStopped { source_id, reason } => EventModel::SourceStopped {
                source_id: source_id@,
                reason: reason@,
            },
            StreamEvent::AudioConfigChanged { source_id, previous, current, message } =>
            EventModel::AudioConfigChanged {
                source_id: source_id@,
                previous,
                current,
                message: message@,
            },
            StreamEvent::AudioFlowStopped { source_id, silent_duration_ms } =>
            EventModel::AudioFlowStopped {
                source_id: source_id@,
                silent_duration_ms: silent_duration_ms as nat,
            },
            StreamEvent::AudioFlowResumed { source_id } => EventModel::AudioFlowResumed {
                source_id: source_id@,
            },
            StreamEvent::AudioGapDetected {
                source_id,
                gap_duration_ms,
                gap_samples,
                position,
                cumulative_gaps,
                cumulative_gap_ms,
            } => EventModel::AudioGapDetected {
                source_id: source_id@,
                gap_duration_ms: gap_duration_ms as nat,
                gap_samples: gap_samples as nat,
                position: position@,
                cumulative_gaps: cumulative_gaps as nat,
                cumulative_gap_ms: cumulative_gap_ms as nat,
            },
            StreamEvent::AudioQualityReport {
                source_id,
                position,
                peak_amplitude,
                sample_count,
                sum_squares,
                sum,
                clipped_samples,
                total_clipped_samples,
            } => EventModel::AudioQualityReport {
                source_id: source_id@,
                position: position@,
                peak_amplitude: peak_amplitude as int,
                sample_count: sample_count as nat,
                sum_squares: sum_squares as nat,
                sum: sum as int,
                clipped_samples: clipped_samples as nat,
                total_clipped_samples: total_clipped_samples as nat,
            },
            StreamEvent::MergeIncomplete { window_id, missing } => EventModel::MergeIncomplete {
                window_id: window_id as nat,
                missing: id_texts(missing@),
            },
        }
    }
}

impl Clone for StreamEvent {
    fn clone(&self) -> (r: Self)
        ensures
            r@ == self@,
    {
        match self {
            StreamEvent::BufferOverflow { dropped_ms } => StreamEvent::BufferOverflow {
                dropped_ms: *dropped_ms,
            },
            StreamEvent::SinkError { sink_name, error } => StreamEvent::SinkError {
                sink_name: sink_name.clone(),
                error: error.clone(),
            },
            StreamEvent::StreamInterrupted { reason } => StreamEvent::StreamInterrupted {
                reason: reason.clone(),
            },
            StreamEvent::SourceStarted { source_id } => StreamEvent::SourceStarted {
                source_id: source_id.clone(),
            },
            StreamEvent::SourceStopped { source_id, reason } => StreamEvent::SourceStopped {
                source_id: source_id.clone(),
                reason: reason.clone(),
            },
            StreamEvent::AudioConfigChanged { source_id, previous, current, message } =>
            StreamEvent::AudioConfigChanged {
                source_id: source_id.clone(),
                previous: *previous,
                current: *current,
                message: message.clone(),
            },
            StreamEvent::AudioFlowStopped { source_id, silent_duration_ms } =>
            StreamEvent::AudioFlowStopped {
                source_id: source_id.clone(),
                silent_duration_ms: *silent_duration_ms,
            },
            StreamEvent::AudioFlowResumed { source_id } => StreamEvent::AudioFlowResumed {
                source_id: source_id.clone(),
            },
            StreamEvent::AudioGapDetected {
                source_id,
                gap_duration_ms,
                gap_samples,
                position,
                cumulative_gaps,
                cumulative_gap_ms,
            } => StreamEvent::AudioGapDetected {
                source_id: source_id.clone(),
                gap_duration_ms: *gap_duration_ms,
                gap_samples: *gap_samples,
                position: *position,
                cumulative_gaps: *cumulative_gaps,
                cumulative_gap_ms: *cumulative_gap_ms,
            },
            StreamEvent::AudioQualityReport {
                source_id,
                position,
                peak_amplitude,
                sample_count,
                sum_squares,
                sum,
                clipped_samples,
                total_clipped_samples,
            } => StreamEvent::AudioQualityReport {
                source_id: source_id.clone(),
                position: *position,
                peak_amplitude: *peak_amplitude,
                sample_count: *sample_count,
                sum_squares: *sum_squares,
                sum: *sum,
                clipped_samples: *clipped_samples,
                total_clipped_samples: *total_clipped_samples,
            },
            StreamEvent::MergeIncomplete { window_id, missing } => StreamEvent::MergeIncomplete {
                window_id: *window_id,
                missing: clone_ids(missing),
            },
        }
    }
}

/// What a list of events says.
pub open spec fn event_models(events: Seq<StreamEvent>) -> Seq<EventModel> {
    events.map_values(|e: StreamEvent| e@)
}

/// Makes a handler of runtime events out of a closure.
pub fn event_callback<F>(f: F) -> (r: Arc<F>) where F: Fn(StreamEvent)
    ensures
        *r == f,
{
    Arc::new(f)
}

} // verus!
