//! Building a capture session.
//!
//! A builder collects sources, sinks and settings, checks them, and lays down in which
//! order and with which formats capture starts. Sinks and the event callback are whatever
//! the caller uses for them; the builder only keeps them.
use crate::event;
use crate::event::EventModel;
use crate::pipeline::capture::CaptureConfig;
use crate::pipeline::ring_buffer;
use crate::pipeline::router;
use crate::pipeline::router::Router;
use crate::pipeline::routing;
use crate::pipeline::routing::SinkRoute;
use crate::source::device;
use crate::source::device::DeviceConfig;
use crate::source::SourceId;
use crate::text;
use crate::text::decimal;
use crate::{FormatPreset, StreamAudioError, StreamConfig, StreamEvent};
use std::time::Instant;
use vstd::prelude::*;
use vstd::string::*;

verus! {

/// Channel capacity for audio chunks flowing to the router: about 10 seconds at 100ms
/// chunks.
pub const CHUNK_CHANNEL_CAPACITY: usize = 100;

/// Channel capacity for router commands, which are rare.
pub const COMMAND_CHANNEL_CAPACITY: usize = 1;

/// Specifies which audio input device to use.
#[derive(Debug)]
pub enum DeviceSelection {
    /// Use the system's default input device.
    SystemDefault,
    /// Use a specific device by name.
    ByName(String),
    /// Capture system audio output.
    SystemAudio,
}

impl Default for DeviceSelection {
    fn default() -> (r: Self)
        ensures
            r is SystemDefault,
    {
        DeviceSelection::SystemDefault
    }
}

impl Clone for DeviceSelection {
    fn clone(&self) -> (r: Self)
        ensures
            r == *self,
    {
        match self {
            DeviceSelection::SystemDefault => DeviceSelection::SystemDefault,
            DeviceSelection::ByName(name) => DeviceSelection::ByName(name.clone()),
            DeviceSelection::SystemAudio => DeviceSelection::SystemAudio,
        }
    }
}

/// Configuration for an audio source.
#[derive(Debug)]
pub struct AudioSource {
    /// Device selection for this source.
    pub device: DeviceSelection,
}

impl AudioSource {
    /// Create a source from the system default input device.
    pub fn default_device() -> (r: Self)
        ensures
            r.device is SystemDefault,
    {
        AudioSource { device: DeviceSelection::SystemDefault }
    }

    /// Create a source from a specific device by name.
    pub fn device(name: &str) -> (r: Self)
        ensures
            r.device matches DeviceSelection::ByName(n) && n@ == name@,
    {
        AudioSource { device: DeviceSelection::ByName(String::from_str(name)) }
    }

    /// Create a source that captures system audio (speaker output).
    pub fn system_audio() -> (r: Self)
        ensures
            r.device is SystemAudio,
    {
        AudioSource { device: DeviceSelection::SystemAudio }
    }

    /// Checks if this is a system audio source.
    pub fn is_system_audio(&self) -> (r: bool)
        ensures
            r == (self.device is SystemAudio),
    {
        match self.device {
            DeviceSelection::SystemAudio => true,
            _ => false,
        }
    }
}

impl Clone for AudioSource {
    fn clone(&self) -> (r: Self)
        ensures
            r == *self,
    {
        AudioSource { device: self.device.clone() }
    }
}

/// The formats of a source that has been opened.
#[derive(Debug, Clone, Copy, PartialEq, Eq, Structural)]
pub struct ResolvedAudioConfig {
    /// What sinks receive: frames per second.
    pub target_sample_rate: u32,
    /// What sinks receive: samples per frame.
    pub target_channels: u16,
    /// What the source captures: frames per second.
    pub device_sample_rate: u32,
    /// What the source captures: samples per frame.
    pub device_channels: u16,
}

/// Builder for configuring and starting audio capture.
pub struct StreamAudioBuilder<S, C> {
    /// Source configurations: `(source_id, source_config)` pairs.
    pub sources: Vec<(SourceId, AudioSource)>,
    /// Format preset for all sources.
    pub format: FormatPreset,
    /// Configured sinks.
    pub sinks: Vec<S>,
    /// Routing for each sink (parallel to `sinks`).
    pub sink_routes: Vec<SinkRoute>,
    /// Event callback.
    pub event_callback: Option<C>,
    /// Stream configuration.
    pub config: StreamConfig,
}

/// The identifiers of some sources.
pub open spec fn ids_of(sources: Seq<(SourceId, AudioSource)>) -> Seq<SourceId> {
    sources.map_values(|s: (SourceId, AudioSource)| s.0)
}

/// Whether source `i` has the identifier of an earlier one.
pub open spec fn repeats(sources: Seq<(SourceId, AudioSource)>, i: int) -> bool {
    exists|j: int| 0 <= j < i && (#[trigger] sources[j]).0@ == sources[i].0@
}

/// Whether `i` is the first source with the identifier of an earlier one.
pub open spec fn first_repeat(sources: Seq<(SourceId, AudioSource)>, i: int) -> bool {
    &&& 0 <= i < sources.len()
    &&& repeats(sources, i)
    &&& forall|k: int| 0 <= k < i ==> !#[trigger] repeats(sources, k)
}

/// The places of those sources that are, or are not, system audio, in order.
pub open spec fn places_of(sources: Seq<(SourceId, AudioSource)>, system_audio: bool) -> Seq<usize>
    decreases sources.len(),
{
    if sources.len() == 0 {
        Seq::empty()
    } else {
        let before = places_of(sources.drop_last(), system_audio);
        if (sources.last().1.device is SystemAudio) == system_audio {
            before.push((sources.len() - 1) as usize)
        } else {
            before
        }
    }
}

/// The order in which sources start: system audio last, so that it is captured in the
/// format that is left once microphones are in use.
pub open spec fn start_order(sources: Seq<(SourceId, AudioSource)>) -> Seq<usize> {
    places_of(sources, false) + places_of(sources, true)
}

/// The explanation of a change of the output device's format.
pub open spec fn config_change_text(previous: (u32, u16), current: (u32, u16)) -> Seq<char> {
    "Output device config changed from "@ + text::decimal_text(previous.0 as nat) + "Hz/"@
        + text::decimal_text(previous.1 as nat) + "ch to "@ + text::decimal_text(current.0 as nat)
        + "Hz/"@ + text::decimal_text(current.1 as nat)
        + "ch. This may indicate Bluetooth profile switching (A2DP to HFP). System audio will capture at the new config."@
}

/// A step of starting capture. The first that fails ends the start.
#[derive(Debug, Clone, Copy, PartialEq, Eq, Structural)]
pub enum StartStep {
    /// Start a sink.
    StartSink {
        /// Its place.
        index: usize,
    },
    /// Start the router task.
    SpawnRouter,
    /// Note the output device's format before any source starts.
    NoteOutput,
    /// Start a source and report that it has started.
    StartSource {
        /// Its place.
        index: usize,
    },
    /// Note the output device's format again.
    NoteOutputAgain,
    /// Report it if the output device's format has changed.
    ReportOutput {
        /// The place of the source that the report is for.
        index: usize,
    },
}

/// Sources that start one after the other.
pub open spec fn plain_steps(places: Seq<usize>) -> Seq<StartStep> {
    places.map_values(|i: usize| StartStep::StartSource { index: i })
}

/// Sources that start one after the other, each after a look at the output device.
pub open spec fn reported_steps(places: Seq<usize>) -> Seq<StartStep>
    decreases places.len(),
{
    if places.len() == 0 {
        Seq::empty()
    } else {
        reported_steps(places.drop_last()) + seq![
            StartStep::ReportOutput { index: places.last() },
            StartStep::StartSource { index: places.last() },
        ]
    }
}

/// Sinks that start one after the other.
pub open spec fn sink_steps(sinks: nat) -> Seq<StartStep> {
    Seq::new(sinks, |i: int| StartStep::StartSink { index: i as usize })
}

/// The steps of starting capture up to the first source.
pub open spec fn first_steps(sinks: nat) -> Seq<StartStep> {
    sink_steps(sinks) + seq![StartStep::SpawnRouter, StartStep::NoteOutput]
}

/// All steps of starting capture for so many sinks.
pub open spec fn start_steps(sinks: nat, sources: Seq<(SourceId, AudioSource)>) -> Seq<StartStep> {
    first_steps(sinks) + plain_steps(places_of(sources, false)) + seq![
        StartStep::NoteOutputAgain,
    ] + reported_steps(places_of(sources, true))
}

/// The step that comes once so many are done: none after one that failed, and none after the
/// last.
pub open spec fn step_after(steps: Seq<StartStep>, done: nat, failed: bool) -> Option<StartStep> {
    if failed || done >= steps.len() {
        None
    } else {
        Some(steps[done as int])
    }
}

/// The sources that steps start, in order.
pub open spec fn started_by(steps: Seq<StartStep>) -> Seq<usize>
    decreases steps.len(),
{
    if steps.len() == 0 {
        Seq::empty()
    } else {
        let before = started_by(steps.drop_last());
        match steps.last() {
            StartStep::StartSource { index } => before.push(index),
            _ => before,
        }
    }
}

/// How capture starts.
pub struct StartPlan {
    /// The router for the sinks.
    pub router: Router,
    /// What is to be done, in order.
    pub steps: Vec<StartStep>,
}

/// Tells what to do once so many steps are done, the last of which may have failed.
///
/// The first step that fails ends the start: nothing comes after it.
pub fn next_step(steps: &Vec<StartStep>, done: usize, failed: bool) -> (r: Option<StartStep>)
    ensures
        r == step_after(steps@, done as nat, failed),
{
    if failed || done >= steps.len() {
        None
    } else {
        Some(steps[done])
    }
}

impl<S, C> StreamAudioBuilder<S, C> {
    /// Every sink has a route.
    pub open spec fn wf(self) -> bool {
        self.sinks@.len() == self.sink_routes@.len()
    }

    /// Nothing has been configured: 16kHz mono, and the usual settings.
    pub open spec fn is_fresh(self) -> bool {
        &&& self.sources@.len() == 0
        &&& self.sinks@.len() == 0
        &&& self.format == FormatPreset::Transcription
        &&& self.event_callback is None
        &&& self.config.chunk_duration@ == 100_000_000
        &&& self.config.ring_buffer_duration@ == 30_000_000_000
        &&& self.config.sink_retry_attempts == 3
        &&& self.config.sink_retry_delay@ == 100_000_000
        &&& self.config.merge_window_duration@ == 100_000_000
        &&& self.config.merge_window_timeout@ == 200_000_000
        &&& self.config.max_pending_windows == 10
    }

    /// Creates a new builder with default settings.
    pub fn new() -> (r: Self)
        ensures
            r.wf(),
            r.is_fresh(),
    {
        StreamAudioBuilder {
            sources: Vec::new(),
            format: FormatPreset::default(),
            sinks: Vec::new(),
            sink_routes: Vec::new(),
            event_callback: None,
            config: StreamConfig::default(),
        }
    }

    /// Set the audio format preset.
    pub fn format(self, format: FormatPreset) -> (r: Self)
        ensures
            r == (StreamAudioBuilder { format, ..self }),
    {
        let mut r = self;
        r.format = format;
        r
    }

    /// Add a sink to receive audio from all sources.
    pub fn add_sink(self, sink: S) -> (r: Self)
        requires
            self.wf(),
        ensures
            r.wf(),
            r.sinks@ == self.sinks@.push(sink),
            r.sink_routes@ == self.sink_routes@.push(SinkRoute::Broadcast),
            r == (StreamAudioBuilder { sinks: r.sinks, sink_routes: r.sink_routes, ..self }),
    {
        let mut r = self;
        r.sinks.push(sink);
        r.sink_routes.push(SinkRoute::Broadcast);
        r
    }

    /// Add an audio source with an identifier.
    pub fn add_source(self, id: &str, source: AudioSource) -> (r: Self)
        ensures
            r.sources@.len() == self.sources@.len() + 1,
            r.sources@.drop_last() == self.sources@,
            r.sources@.last().0@ == id@,
            r.sources@.last().1 == source,
            r == (StreamAudioBuilder { sources: r.sources, ..self }),
    {
        let mut r = self;
        r.sources.push((SourceId::new(id), source));
        assert(r.sources@.drop_last() =~= self.sources@);
        r
    }

    /// Add a sink that receives audio from a specific source.
    pub fn add_sink_from(self, sink: S, source_id: &str) -> (r: Self)
        requires
            self.wf(),
        ensures
            r.wf(),
            r.sinks@ == self.sinks@.push(sink),
            r.sink_routes@.drop_last() == self.sink_routes@,
            r.sink_routes@.last() matches SinkRoute::Single(id) && id@ == source_id@,
            r == (StreamAudioBuilder { sinks: r.sinks, sink_routes: r.sink_routes, ..self }),
    {
        let mut r = self;
        r.sinks.push(sink);
        r.sink_routes.push(SinkRoute::Single(SourceId::new(source_id)));
        assert(r.sink_routes@.drop_last() =~= self.sink_routes@);
        r
    }

    /// Returns the configured source IDs.
    pub fn source_ids(&self) -> (r: Vec<SourceId>)
        ensures
            r@ == ids_of(self.sources@),
    {
        let mut r: Vec<SourceId> = Vec::new();
        let mut i: usize = 0;
        while i < self.sources.len()
            invariant
                i <= self.sources.len(),
                r@ == ids_of(self.sources@).take(i as int),
            decreases self.sources.len() - i,
        {
            r.push(self.sources[i].0.clone());
            i = i + 1;
        }
        assert(r@ =~= ids_of(self.sources@));
        r
    }

    /// Set a callback to receive runtime events.
    pub fn on_event(self, callback: C) -> (r: Self)
        ensures
            r == (StreamAudioBuilder { event_callback: Some(callback), ..self }),
    {
        let mut r = self;
        r.event_callback = Some(callback);
        r
    }

    /// Set custom stream configuration.
    pub fn with_config(self, config: StreamConfig) -> (r: Self)
        ensures
            r == (StreamAudioBuilder { config, ..self }),
    {
        let mut r = self;
        r.config = config;
        r
    }

    /// Validates the builder configuration.
    ///
    /// Sources are needed, then sinks, and no identifier may occur twice.
    pub fn validate(&self) -> (r: Result<(), StreamAudioError>)
        ensures
            match r {
                Ok(()) => self.sources@.len() > 0 && self.sinks@.len() > 0 && forall|i: int|
                    0 <= i < self.sources@.len() ==> !#[trigger] repeats(self.sources@, i),
                Err(error) => self.invalid(error),
            },
    {
        if self.sources.len() == 0 {
            return Err(StreamAudioError::NoSourcesConfigured);
        }
        if self.sinks.len() == 0 {
            return Err(StreamAudioError::NoSinksConfigured);
        }
        let mut i: usize = 0;
        while i < self.sources.len()
            invariant
                i <= self.sources.len(),
                self.sources@.len() > 0,
                self.sinks@.len() > 0,
                forall|k: int| 0 <= k < i ==> !#[trigger] repeats(self.sources@, k),
            decreases self.sources.len() - i,
        {
            let mut j: usize = 0;
            while j < i
                invariant
                    j <= i < self.sources.len(),
                    self.sources@.len() > 0,
                    self.sinks@.len() > 0,
                    forall|k: int| 0 <= k < i ==> !#[trigger] repeats(self.sources@, k),
                    forall|k: int|
                        0 <= k < j ==> (#[trigger] self.sources@[k]).0@ != self.sources@[i as int].0@,
                decreases i - j,
            {
                if self.sources[j].0 == self.sources[i].0 {
                    assert(self.sources@[j as int].0@ == self.sources@[i as int].0@);
                    assert(first_repeat(self.sources@, i as int));
                    return Err(
                        StreamAudioError::DuplicateSourceId {
                            source_id: self.sources[i].0.to_text(),
                        },
                    );
                }
                j = j + 1;
            }
            assert(!repeats(self.sources@, i as int));
            i = i + 1;
        }
        Ok(())
    }

    /// Whether the configuration has the fault that an error names.
    pub open spec fn invalid(self, error: StreamAudioError) -> bool {
        match error {
            StreamAudioError::NoSourcesConfigured => self.sources@.len() == 0,
            StreamAudioError::NoSinksConfigured => self.sources@.len() > 0 && self.sinks@.len()
                == 0,
            StreamAudioError::DuplicateSourceId { source_id } => self.sources@.len() > 0
                && self.sinks@.len() > 0 && exists|i: int|
                first_repeat(self.sources@, i) && source_id@ == (#[trigger] self.sources@[i]).0@,
            _ => false,
        }
    }

    /// Decides how capture starts: which sinks get what, and which source comes when.
    ///
    /// Fails on a fault of the configuration, and then on a route to an unknown source.
    pub fn plan_start(&self) -> (r: Result<StartPlan, StreamAudioError>)
        requires
            self.wf(),
        ensures
            match r {
                Ok(plan) => {
                    &&& self.sources@.len() > 0 && self.sinks@.len() > 0
                    &&& forall|i: int|
                        0 <= i < self.sources@.len() ==> !#[trigger] repeats(self.sources@, i)
                    &&& forall|i: int|
                        0 <= i < self.sink_routes@.len() ==> routing::is_valid(
                            #[trigger] self.sink_routes@[i],
                            ids_of(self.sources@),
                        )
                    &&& plan.router.wf()
                    &&& plan.router.settings() == self.config
                    &&& plan.router.follows(self.sink_routes@)
                    &&& plan.steps@ == start_steps(self.sinks@.len(), self.sources@)
                },
                Err(error) => self.invalid(error) || {
                    &&& self.sources@.len() > 0 && self.sinks@.len() > 0
                    &&& forall|i: int|
                        0 <= i < self.sources@.len() ==> !#[trigger] repeats(self.sources@, i)
                    &&& exists|i: int| #[trigger]
                        routing::first_invalid(
                            router::numbered(self.sink_routes@),
                            ids_of(self.sources@),
                            i,
                        ) && routing::unknown_source(error, self.sink_routes@[i])
                },
            },
    {
        match self.validate() {
            Ok(()) => {},
            Err(error) => {
                return Err(error);
            },
        }
        let source_ids = self.source_ids();
        match Router::with_routing(&self.sink_routes, &source_ids, self.config) {
            Ok(router) => Ok(StartPlan { router, steps: self.start_sequence() }),
            Err(error) => Err(error),
        }
    }

    /// Lists what is to be done to start capture.
    fn start_sequence(&self) -> (r: Vec<StartStep>)
        ensures
            r@ == start_steps(self.sinks@.len(), self.sources@),
    {
        let mut steps: Vec<StartStep> = Vec::new();
        let ghost first = first_steps(self.sinks@.len());
        let mut i: usize = 0;
        while i < self.sinks.len()
            invariant
                i <= self.sinks.len(),
                steps@ == sink_steps(i as nat),
            decreases self.sinks.len() - i,
        {
            steps.push(StartStep::StartSink { index: i });
            i = i + 1;
            assert(steps@ =~= sink_steps(i as nat));
        }
        steps.push(StartStep::SpawnRouter);
        steps.push(StartStep::NoteOutput);
        assert(steps@ =~= first);
        assert(steps@ =~= first + plain_steps(places_of(self.sources@.take(0), false)));
        let mut i: usize = 0;
        while i < self.sources.len()
            invariant
                i <= self.sources.len(),
                steps@ == first + plain_steps(places_of(self.sources@.take(i as int), false)),
            decreases self.sources.len() - i,
        {
            let ghost next = places_of(self.sources@.take(i + 1), false);
            assert(self.sources@.take(i + 1).drop_last() =~= self.sources@.take(i as int));
            if !self.sources[i].1.is_system_audio() {
                steps.push(StartStep::StartSource { index: i });
                assert(steps@ =~= first + plain_steps(next));
            }
            i = i + 1;
        }
        assert(self.sources@.take(i as int) =~= self.sources@);
        steps.push(StartStep::NoteOutputAgain);
        let ghost second = first + plain_steps(places_of(self.sources@, false)) + seq![
            StartStep::NoteOutputAgain,
        ];
        assert(steps@ =~= second + reported_steps(places_of(self.sources@.take(0), true)));
        let mut i: usize = 0;
        while i < self.sources.len()
            invariant
                i <= self.sources.len(),
                steps@ == second + reported_steps(places_of(self.sources@.take(i as int), true)),
            decreases self.sources.len() - i,
        {
            let ghost before = places_of(self.sources@.take(i as int), true);
            assert(self.sources@.take(i + 1).drop_last() =~= self.sources@.take(i as int));
            if self.sources[i].1.is_system_audio() {
                steps.push(StartStep::ReportOutput { index: i });
                steps.push(StartStep::StartSource { index: i });
                assert(before.push(i).drop_last() =~= before);
                assert(steps@ =~= second + reported_steps(before.push(i)));
            }
            i = i + 1;
        }
        assert(self.sources@.take(i as int) =~= self.sources@);
        steps
    }

    /// Decides the formats of a source that captures at a given rate and channel count.
    pub fn resolve_formats(&self, native: (u32, u16)) -> (r: ResolvedAudioConfig)
        ensures
            r == match self.format {
                FormatPreset::Transcription => ResolvedAudioConfig {
                    target_sample_rate: 16000,
                    target_channels: 1,
                    device_sample_rate: native.0,
                    device_channels: native.1,
                },
                FormatPreset::Native => ResolvedAudioConfig {
                    target_sample_rate: native.0,
                    target_channels: native.1,
                    device_sample_rate: native.0,
                    device_channels: native.1,
                },
            },
    {
        let target_sample_rate: u32 = match self.format.sample_rate() {
            Some(rate) => rate,
            None => native.0,
        };
        let target_channels: u16 = match self.format.channels() {
            Some(channels) => channels,
            None => native.1,
        };
        ResolvedAudioConfig {
            target_sample_rate,
            target_channels,
            device_sample_rate: native.0,
            device_channels: native.1,
        }
    }

    /// Decides the ring buffer of a device that captures at a given rate and channel count:
    /// it holds the configured time. None where such a buffer cannot be made.
    pub fn device_config(&self, native: (u32, u16)) -> (r: Option<DeviceConfig>)
        ensures
            match r {
                Some(config) => {
                    &&& device::can_buffer(
                        native.0 as nat,
                        native.1 as nat,
                        self.config.ring_buffer_duration@,
                    )
                    &&& (config.sample_rate, config.channels) == native
                    &&& config.buffer_capacity == ring_buffer::samples_in(
                        native.0 as nat,
                        native.1 as nat,
                        self.config.ring_buffer_duration@,
                    )
                },
                None => !device::can_buffer(
                    native.0 as nat,
                    native.1 as nat,
                    self.config.ring_buffer_duration@,
                ),
            },
    {
        DeviceConfig::for_duration(native.0, native.1, self.config.ring_buffer_duration)
    }

    /// Creates the capture configuration from resolved audio parameters.
    pub fn create_capture_config(
        &self,
        audio_config: &ResolvedAudioConfig,
        source_id: SourceId,
        session_start: Instant,
    ) -> (r: CaptureConfig)
        ensures
            r == (CaptureConfig {
                device_sample_rate: audio_config.device_sample_rate,
                device_channels: audio_config.device_channels,
                target_sample_rate: audio_config.target_sample_rate,
                target_channels: audio_config.target_channels,
                chunk_duration: self.config.chunk_duration,
                source_id: Some(source_id),
                session_start,
            }),
    {
        CaptureConfig {
            device_sample_rate: audio_config.device_sample_rate,
            device_channels: audio_config.device_channels,
            target_sample_rate: audio_config.target_sample_rate,
            target_channels: audio_config.target_channels,
            chunk_duration: self.config.chunk_duration,
            source_id: Some(source_id),
            session_start,
        }
    }
}

/// Explains a change of the output device's format.
fn config_change_message(previous: (u32, u16), current: (u32, u16)) -> (r: String)
    ensures
        r@ == config_change_text(previous, current),
{
    let mut r = String::from_str("Output device config changed from ");
    r.append(decimal(previous.0 as u64).as_str());
    r.append("Hz/");
    r.append(decimal(previous.1 as u64).as_str());
    r.append("ch to ");
    r.append(decimal(current.0 as u64).as_str());
    r.append("Hz/");
    r.append(decimal(current.1 as u64).as_str());
    r.append(
        "ch. This may indicate Bluetooth profile switching (A2DP to HFP). System audio will capture at the new config.",
    );
    r
}

/// The event to emit before a system audio source starts: one where the output device had
/// a format before the other sources started, has one now, and they differ.
pub fn config_change_event(
    source_id: &SourceId,
    initial: Option<(u32, u16)>,
    current: Option<(u32, u16)>,
) -> (r: Option<StreamEvent>)
    ensures
        r is Some <==> initial is Some && current is Some && initial->0 != current->0,
        r matches Some(event) ==> event@ == (EventModel::AudioConfigChanged {
            source_id: source_id@,
            previous: initial->0,
            current: current->0,
            message: config_change_text(initial->0, current->0),
        }),
{
    match (initial, current) {
        (Some(initial), Some(current)) => {
            if initial.0 == current.0 && initial.1 == current.1 {
                None
            } else {
                Some(
                    StreamEvent::AudioConfigChanged {
                        source_id: source_id.clone(),
                        previous: initial,
                        current,
                        message: config_change_message(initial, current),
                    },
                )
            }
        },
        _ => None,
    }
}

/// The event that reports a source that has started.
pub fn source_started_event(source_id: &SourceId) -> (r: StreamEvent)
    ensures
        r@ == (EventModel::SourceStarted { source_id: source_id@ }),
{
    StreamEvent::SourceStarted { source_id: source_id.clone() }
}

impl<S, C> Default for StreamAudioBuilder<S, C> {
    fn default() -> (r: Self)
        ensures
            r.wf(),
            r.is_fresh(),
    {
        Self::new()
    }
}

/// Main entry point.
pub struct StreamAudio;

impl StreamAudio {
    /// Creates a new builder for configuring audio capture.
    pub fn builder<S, C>() -> (r: StreamAudioBuilder<S, C>)
        ensures
            r.wf(),
            r.is_fresh(),
    {
        StreamAudioBuilder::new()
    }
}

proof fn lemma_places(sources: Seq<(SourceId, AudioSource)>, system_audio: bool, i: usize)
    requires
        sources.len() <= usize::MAX,
    ensures
        places_of(sources, system_audio).contains(i) <==> i < sources.len() && (
        sources[i as int].1.device is SystemAudio) == system_audio,
        forall|a: int, b: int|
            #![trigger places_of(sources, system_audio)[a], places_of(sources, system_audio)[b]]
            0 <= a < b < places_of(sources, system_audio).len() ==> places_of(
                sources,
                system_audio,
            )[a] < places_of(sources, system_audio)[b],
        forall|a: int|
            0 <= a < places_of(sources, system_audio).len() ==> #[trigger] places_of(
                sources,
                system_audio,
            )[a] < sources.len(),
    decreases sources.len(),
{
    if sources.len() > 0 {
        let shorter = sources.drop_last();
        let had = places_of(shorter, system_audio);
        let all = places_of(sources, system_audio);
        let last = (sources.len() - 1) as usize;
        lemma_places(shorter, system_audio, i);
        if all.contains(i) {
            let a = choose|a: int| 0 <= a < all.len() && all[a] == i;
            if a < had.len() {
                assert(had[a] == i);
            }
        }
        if had.contains(i) {
            let a = choose|a: int| 0 <= a < had.len() && had[a] == i;
            assert(all[a] == i);
        }
        if i == last && all.len() > had.len() {
            assert(all[had.len() as int] == i);
        }
    }
}

proof fn lemma_started_append(a: Seq<StartStep>, b: Seq<StartStep>)
    ensures
        started_by(a + b) == started_by(a) + started_by(b),
    decreases b.len(),
{
    if b.len() == 0 {
        assert(a + b =~= a);
        assert(started_by(a) + started_by(b) =~= started_by(a));
    } else {
        lemma_started_append(a, b.drop_last());
        assert((a + b).drop_last() =~= a + b.drop_last());
        assert(started_by(a + b) =~= started_by(a) + started_by(b));
    }
}

proof fn lemma_started_places(places: Seq<usize>)
    ensures
        started_by(plain_steps(places)) == places,
        started_by(reported_steps(places)) == places,
    decreases places.len(),
{
    if places.len() > 0 {
        let shorter = places.drop_last();
        let last = places.last();
        lemma_started_places(shorter);
        assert(plain_steps(places).drop_last() =~= plain_steps(shorter));
        assert(shorter.push(last) =~= places);
        let pair = seq![
            StartStep::ReportOutput { index: last },
            StartStep::StartSource { index: last },
        ];
        lemma_started_append(reported_steps(shorter), pair);
        assert(started_by(pair) =~= seq![last]) by {
            reveal_with_fuel(started_by, 3);
        }
        assert(shorter + seq![last] =~= places);
    }
}

proof fn lemma_sinks_start_no_source(sinks: nat)
    ensures
        started_by(sink_steps(sinks)) == Seq::<usize>::empty(),
    decreases sinks,
{
    if sinks > 0 {
        lemma_sinks_start_no_source((sinks - 1) as nat);
        assert(sink_steps(sinks).drop_last() =~= sink_steps((sinks - 1) as nat));
    }
}

proof fn lemma_reported_start_no_sink(places: Seq<usize>, i: int)
    requires
        0 <= i < reported_steps(places).len(),
    ensures
        !(reported_steps(places)[i] is StartSink),
    decreases places.len(),
{
    if places.len() > 0 {
        let before = reported_steps(places.drop_last());
        if i < before.len() {
            lemma_reported_start_no_sink(places.drop_last(), i);
        }
    }
}

/// Sinks start first, in their order, each once, and before anything else is done.
pub proof fn lemma_sinks_start_first(
    sinks: nat,
    sources: Seq<(SourceId, AudioSource)>,
    i: int,
)
    requires
        0 <= i < start_steps(sinks, sources).len(),
    ensures
        i < sinks ==> start_steps(sinks, sources)[i] == (StartStep::StartSink {
            index: i as usize,
        }),
        i >= sinks ==> !(start_steps(sinks, sources)[i] is StartSink),
{
    let regular = plain_steps(places_of(sources, false));
    let system_audio = reported_steps(places_of(sources, true));
    let at = i - (first_steps(sinks).len() + regular.len() + 1);
    if at >= 0 {
        lemma_reported_start_no_sink(places_of(sources, true), at);
    }
}

/// A sink that fails to start ends the start: the sinks up to it have been started, each once
/// and in order, and no later sink, no router task and no source is.
pub proof fn lemma_failed_sink_ends_start(
    sinks: nat,
    sources: Seq<(SourceId, AudioSource)>,
    failed: nat,
)
    requires
        failed < sinks,
    ensures
        start_steps(sinks, sources).take((failed + 1) as int) == sink_steps(failed + 1),
        step_after(start_steps(sinks, sources), failed, false) == Some(
            StartStep::StartSink { index: failed as usize },
        ),
        step_after(start_steps(sinks, sources), failed + 1, true) is None,
{
    assert(start_steps(sinks, sources).take((failed + 1) as int) =~= sink_steps(failed + 1));
}

/// The steps start the sources in their order.
pub proof fn lemma_steps_follow_order(sinks: nat, sources: Seq<(SourceId, AudioSource)>)
    ensures
        started_by(start_steps(sinks, sources)) == start_order(sources),
{
    let first = first_steps(sinks);
    let rest = seq![StartStep::SpawnRouter, StartStep::NoteOutput];
    let regular = plain_steps(places_of(sources, false));
    let again = seq![StartStep::NoteOutputAgain];
    let system_audio = reported_steps(places_of(sources, true));
    assert(started_by(rest) =~= Seq::empty()) by {
        reveal_with_fuel(started_by, 3);
    }
    lemma_sinks_start_no_source(sinks);
    lemma_started_append(sink_steps(sinks), rest);
    assert(started_by(again) =~= Seq::empty()) by {
        reveal_with_fuel(started_by, 2);
    }
    lemma_started_append(first, regular);
    lemma_started_append(first + regular, again);
    lemma_started_append(first + regular + again, system_audio);
    lemma_started_places(places_of(sources, false));
    lemma_started_places(places_of(sources, true));
    assert(started_by(start_steps(sinks, sources)) =~= start_order(sources));
}

/// Every source starts, and none twice.
pub proof fn lemma_start_order_complete(sources: Seq<(SourceId, AudioSource)>, i: usize)
    requires
        sources.len() <= usize::MAX,
    ensures
        start_order(sources).contains(i) <==> i < sources.len(),
        start_order(sources).no_duplicates(),
{
    let regular = places_of(sources, false);
    let system_audio = places_of(sources, true);
    let order = start_order(sources);
    lemma_places(sources, false, i);
    lemma_places(sources, true, i);
    if regular.contains(i) {
        let a = choose|a: int| 0 <= a < regular.len() && regular[a] == i;
        assert(order[a] == i);
    }
    if system_audio.contains(i) {
        let a = choose|a: int| 0 <= a < system_audio.len() && system_audio[a] == i;
        assert(order[regular.len() + a] == i);
    }
    assert forall|a: int, b: int| 0 <= a < b < order.len() implies order[a] != order[b] by {
        if a < regular.len() && b >= regular.len() {
            lemma_places(sources, false, order[a]);
            lemma_places(sources, true, order[b]);
            assert(regular[a] == order[a] && system_audio[b - regular.len()] == order[b]);
            assert(regular.contains(order[a]));
            assert(system_audio.contains(order[b]));
        } else if b < regular.len() {
            assert(regular[a] == order[a] && regular[b] == order[b]);
        } else {
            assert(system_audio[a - regular.len()] == order[a]);
            assert(system_audio[b - regular.len()] == order[b]);
        }
    }
}

/// System audio starts after all other sources.
pub proof fn lemma_system_audio_last(sources: Seq<(SourceId, AudioSource)>, a: int, b: int)
    requires
        sources.len() <= usize::MAX,
        0 <= a < b < start_order(sources).len(),
        sources[start_order(sources)[a] as int].1.device is SystemAudio,
    ensures
        sources[start_order(sources)[b] as int].1.device is SystemAudio,
{
    let regular = places_of(sources, false);
    let system_audio = places_of(sources, true);
    let order = start_order(sources);
    if a < regular.len() {
        lemma_places(sources, false, order[a]);
        assert(regular[a] == order[a]);
        assert(regular.contains(order[a]));
    } else {
        lemma_places(sources, true, order[b]);
        assert(system_audio[b - regular.len()] == order[b]);
        assert(system_audio.contains(order[b]));
    }
}

/// A builder is without repeated sources exactly where no two of them have one identifier.
pub proof fn lemma_sources_differ(sources: Seq<(SourceId, AudioSource)>)
    ensures
        (forall|i: int| 0 <= i < sources.len() ==> !#[trigger] repeats(sources, i)) <==> (forall|
            i: int,
            j: int,
        |
            0 <= i < j < sources.len() ==> (#[trigger] sources[i]).0@ != (
            #[trigger] sources[j]).0@),
        ids_of(sources).len() == sources.len(),
        forall|i: int| 0 <= i < sources.len() ==> #[trigger] ids_of(sources)[i] == sources[i].0,
{
    if forall|i: int| 0 <= i < sources.len() ==> !#[trigger] repeats(sources, i) {
        assert forall|i: int, j: int| 0 <= i < j < sources.len() implies (#[trigger] sources[i]).0@
            != (#[trigger] sources[j]).0@ by {
            assert(!repeats(sources, j));
        }
    }
}

/// The source that is refused has the identifier of an earlier one, and is the first that has:
/// those before it all differ.
pub proof fn lemma_first_repeat(sources: Seq<(SourceId, AudioSource)>, i: int)
    requires
        first_repeat(sources, i),
    ensures
        0 < i < sources.len(),
        exists|j: int| 0 <= j < i && (#[trigger] sources[j]).0@ == sources[i].0@,
        forall|a: int, b: int|
            0 <= a < b < i ==> (#[trigger] sources[a]).0@ != (#[trigger] sources[b]).0@,
{
    assert forall|a: int, b: int| 0 <= a < b < i implies (#[trigger] sources[a]).0@ != (
    #[trigger] sources[b]).0@ by {
        assert(!repeats(sources, b));
    }
}

proof fn lemma_reported_step(places: Seq<usize>, k: int)
    requires
        0 <= k < places.len(),
    ensures
        reported_steps(places).len() == 2 * places.len(),
        reported_steps(places)[2 * k] == (StartStep::ReportOutput { index: places[k] }),
        reported_steps(places)[2 * k + 1] == (StartStep::StartSource { index: places[k] }),
    decreases places.len(),
{
    let shorter = places.drop_last();
    if places.len() > 1 {
        lemma_reported_step(shorter, if k < shorter.len() {
            k
        } else {
            0
        });
    } else {
        assert(reported_steps(shorter).len() == 0);
    }
}

/// The output device is looked at before any source starts and again once all sources but
/// system audio have; each system audio source starts after that, directly after the report on
/// the output device for it.
pub proof fn lemma_output_is_watched(
    sinks: nat,
    sources: Seq<(SourceId, AudioSource)>,
    at: int,
    source: usize,
)
    requires
        sources.len() <= usize::MAX,
        0 <= at < start_steps(sinks, sources).len(),
        start_steps(sinks, sources)[at] == (StartStep::StartSource { index: source }),
    ensures
        ({
            let steps = start_steps(sinks, sources);
            exists|noted: int, again: int|
                {
                    &&& 0 <= noted < again < steps.len()
                    &&& #[trigger] steps[noted] is NoteOutput
                    &&& #[trigger] steps[again] is NoteOutputAgain
                    &&& source < sources.len()
                    &&& noted < at
                    &&& if sources[source as int].1.device is SystemAudio {
                        again + 1 < at && steps[at - 1] == (StartStep::ReportOutput {
                            index: source,
                        })
                    } else {
                        at < again
                    }
                }
        }),
{
    let steps = start_steps(sinks, sources);
    let plain = places_of(sources, false);
    let last = places_of(sources, true);
    let noted = sinks as int + 1;
    let again = noted + 1 + plain.len();
    assert(steps[noted] is NoteOutput);
    assert(steps[again] is NoteOutputAgain);
    if at < again {
        let k = at - noted - 1;
        if at <= noted {
            assert(first_steps(sinks)[at] == steps[at]);
            assert(false);
        }
        assert(plain_steps(plain)[k] == steps[at]);
        assert(plain[k] == source);
        assert(plain.contains(source));
        lemma_places(sources, false, source);
    } else {
        let k = at - again - 1;
        assert(at != again);
        assert(reported_steps(last)[k] == steps[at]);
        if last.len() == 0 {
            assert(reported_steps(last).len() == 0);
        } else {
            lemma_reported_step(last, 0);
            lemma_reported_step(last, k / 2);
            assert(k == 2 * (k / 2) || k == 2 * (k / 2) + 1);
            assert(last[k / 2] == source);
            assert(last.contains(source));
            lemma_places(sources, true, source);
            assert(steps[at - 1] == reported_steps(last)[k - 1]);
        }
    }
}

/// The explanation of a change gives the former rate and channels and then the present ones, in
/// decimal.
pub proof fn lemma_change_names_both(previous: (u32, u16), current: (u32, u16))
    ensures
        ("Output device config changed from "@ + text::decimal_text(previous.0 as nat) + "Hz/"@
            + text::decimal_text(previous.1 as nat) + "ch to "@ + text::decimal_text(
            current.0 as nat,
        ) + "Hz/"@ + text::decimal_text(current.1 as nat)).is_prefix_of(
            config_change_text(previous, current),
        ),
{
}

} // verus!
