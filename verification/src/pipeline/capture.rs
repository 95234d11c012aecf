//! The capture bridge: reads from the ring buffer, converts, watches the signal.
//!
//! The bridge turns what a device delivers into chunks of the target format, stamps
//! them, and reports what it notices on the way.
use crate::chunk;
use crate::chunk::ChunkModel;
use crate::event;
use crate::event::EventModel;
use crate::format::{FormatConverter, StreamFormat};
use crate::pipeline::flow;
use crate::pipeline::flow::{FlowModel, FlowMonitor};
use crate::pipeline::gap;
use crate::pipeline::gap::{GapModel, GapMonitor, Run};
use crate::pipeline::quality;
use crate::pipeline::quality::QualityMonitor;
use crate::pipeline::ring_buffer;
use crate::pipeline::ring_buffer::{AudioBuffer, BufferModel};
use crate::ring;
use crate::ring::SampleConsumer;
use crate::session::SessionState;
use crate::source::source_id;
use crate::source::source_id::clone_id;
use crate::source::SourceId;
use crate::time;
use crate::time::{elapsed_since, Duration, MAX_NANOS};
use crate::{AudioChunk, StreamEvent};
use std::time::Instant;
use vstd::prelude::*;

verus! {

/// Configuration for the capture bridge task.
#[derive(Debug)]
pub struct CaptureConfig {
    /// Device-native sample rate
    pub device_sample_rate: u32,
    /// Device-native channel count
    pub device_channels: u16,
    /// Target sample rate for output
    pub target_sample_rate: u32,
    /// Target channel count for output
    pub target_channels: u16,
    /// Duration of each chunk
    pub chunk_duration: Duration,
    /// Source identifier for multi-source capture (None for single-source).
    pub source_id: Option<SourceId>,
    /// Session start time for synchronized timestamps across sources.
    pub session_start: Instant,
}

impl CaptureConfig {
    /// What the device delivers.
    pub open spec fn source_format(self) -> StreamFormat {
        StreamFormat {
            rate: self.device_sample_rate as nat,
            channels: self.device_channels as nat,
        }
    }

    /// What the sinks get.
    pub open spec fn target_format(self) -> StreamFormat {
        StreamFormat {
            rate: self.target_sample_rate as nat,
            channels: self.target_channels as nat,
        }
    }
}

/// The capture bridge reads audio from the ring buffer and makes converted chunks of it.
pub struct CaptureBridge {
    audio_buffer: AudioBuffer,
    converter: FormatConverter,
    target_sample_rate: u32,
    target_channels: u16,
    poll_interval: Duration,
    source_id: Option<SourceId>,
    flow_monitor: FlowMonitor,
    gap_monitor: GapMonitor,
    quality_monitor: QualityMonitor,
    session_start: Instant,
    samples_processed: u64,
}

/// What a bridge has been told and has seen.
pub ghost struct BridgeModel {
    /// The buffer that it reads from.
    pub buffer: BufferModel,
    /// What the device delivers.
    pub source: StreamFormat,
    /// What the sinks get.
    pub target: StreamFormat,
    /// The source of the chunks.
    pub source_id: Option<Seq<char>>,
    /// The name under which events are reported.
    pub name: Seq<char>,
    /// The time between two looks at the buffer, in nanoseconds.
    pub poll_interval: nat,
    /// Whether audio flows, since when it does not, and from when on its time is counted.
    pub flow: FlowModel,
    /// The gaps so far.
    pub gaps: GapModel,
    /// The clipped samples so far.
    pub clipped: nat,
    /// The samples made so far.
    pub processed: nat,
    /// When the session has started.
    pub session_start: Instant,
}

/// Whether any sample is not zero.
pub open spec fn has_audio(samples: Seq<i16>) -> bool {
    exists|i: int| 0 <= i < samples.len() && #[trigger] samples[i] != 0
}

/// An optional event as a list.
pub open spec fn as_list(event: Option<EventModel>) -> Seq<EventModel> {
    match event {
        Some(event) => seq![event],
        None => Seq::empty(),
    }
}

impl BridgeModel {
    /// The chunk that device samples make at a time.
    pub open spec fn output(self, device: Seq<i16>, timestamp: nat) -> ChunkModel {
        ChunkModel {
            samples: crate::format::converted(device, self.source, self.target),
            timestamp,
            sample_rate: self.target.rate,
            channels: self.target.channels,
            source_id: self.source_id,
        }
    }

    /// Whether device samples can be converted and the time after them be told.
    pub open spec fn can_convert(self, device: Seq<i16>, timestamp: nat) -> bool {
        &&& crate::format::convertible(device, self.source, self.target)
        &&& self.output(device, timestamp).samples.len() <= isize::MAX
        &&& timestamp + self.output(device, timestamp).duration() <= MAX_NANOS
    }

    /// Whether everything that is counted of some samples can be counted.
    pub open spec fn can_monitor(self, samples: Seq<i16>) -> bool {
        &&& self.gaps.scannable(samples, self.processed)
        &&& quality::clipped_in(samples) <= u32::MAX
        &&& self.clipped + quality::clipped_in(samples) <= u64::MAX
    }

    /// Whether device samples can be taken in.
    pub open spec fn accepts(self, device: Seq<i16>, timestamp: nat) -> bool {
        self.can_convert(device, timestamp) && self.can_monitor(
            self.output(device, timestamp).samples,
        )
    }

    /// The gaps that end within some samples.
    pub open spec fn new_gaps(self, samples: Seq<i16>) -> Seq<Run> {
        self.gaps.scan(samples, self.processed).gaps
    }

    /// Whether so many nanoseconds may be the time on the clock of the flow monitor.
    pub open spec fn may_be_now(self, now: nat) -> bool {
        time::may_have_passed(self.flow.epoch, now)
    }

    /// The bridge once it has watched a chunk go by. `now` is the time on the clock of the
    /// flow monitor, in nanoseconds.
    pub open spec fn monitored(self, chunk: ChunkModel, now: nat) -> BridgeModel {
        BridgeModel {
            flow: flow::flow_step(
                self.name,
                self.flow,
                has_audio(chunk.samples),
                now,
            ).0,
            gaps: self.gaps.after(chunk.samples, self.processed),
            clipped: self.clipped + quality::clipped_in(chunk.samples),
            processed: self.processed + chunk.samples.len(),
            ..self
        }
    }

    /// What is reported of a chunk: a change of flow, gaps that ended, and its metrics.
    pub open spec fn reports(self, chunk: ChunkModel, now: nat) -> Seq<EventModel> {
        as_list(
            flow::flow_step(self.name, self.flow, has_audio(chunk.samples), now).1,
        ) + self.gaps.events(self.new_gaps(chunk.samples)) + seq![
            quality::quality_model(self.name, chunk.samples, chunk.timestamp, self.clipped),
        ]
    }

    /// The session's counters once new gaps are noted.
    pub open spec fn gaps_noted(self, state: SessionState, samples: Seq<i16>) -> SessionState {
        if self.new_gaps(samples).len() > 0 {
            SessionState {
                audio_gaps_detected: self.gaps.after(samples, self.processed).count as u64,
                total_gap_duration_ms: self.gaps.after(samples, self.processed).total_ms as u64,
                ..state
            }
        } else {
            state
        }
    }

    /// The session's counters once a chunk has gone by.
    pub open spec fn noted(self, state: SessionState, chunk: ChunkModel) -> SessionState {
        SessionState {
            clipped_samples: (self.clipped + quality::clipped_in(chunk.samples)) as u64,
            ..self.gaps_noted(state, chunk.samples)
        }.with_chunk(chunk.samples.len())
    }
}

impl View for CaptureBridge {
    type V = BridgeModel;

    closed spec fn view(&self) -> BridgeModel {
        BridgeModel {
            buffer: self.audio_buffer@,
            source: self.converter.source(),
            target: self.converter.target(),
            source_id: chunk::source_text(self.source_id),
            name: source_id::text_or_default(self.source_id),
            poll_interval: self.poll_interval@,
            flow: self.flow_monitor@,
            gaps: self.gap_monitor@,
            clipped: self.quality_monitor.clipped(),
            processed: self.samples_processed as nat,
            session_start: self.session_start,
        }
    }
}

/// What came of looking at the buffer.
pub enum CaptureStep {
    /// There was no complete chunk; perhaps audio has been found to have stopped.
    Waiting {
        /// The event to emit.
        event: Option<StreamEvent>,
    },
    /// A chunk to send on.
    Ready {
        /// The chunk.
        chunk: AudioChunk,
        /// The events to emit before it is sent.
        events: Vec<StreamEvent>,
    },
    /// The next chunk cannot be converted, timed or counted: capture cannot go on.
    Refused,
}

impl CaptureBridge {
    /// The parts of a bridge belong together.
    pub closed spec fn wf(self) -> bool {
        &&& self.audio_buffer.wf()
        &&& self.target_sample_rate == self@.target.rate
        &&& self.target_channels == self@.target.channels
        &&& self.flow_monitor.source() == self@.name
        &&& self.gap_monitor@.source == self@.name
        &&& self.quality_monitor.source() == self@.name
    }

    /// Creates a new capture bridge.
    pub fn new(ring_consumer: SampleConsumer, config: &CaptureConfig) -> (r: Self)
        requires
            ring_buffer::frames_in(config.device_sample_rate as nat, config.chunk_duration@)
                <= usize::MAX,
            ring_buffer::samples_in(
                config.device_sample_rate as nat,
                config.device_channels as nat,
                config.chunk_duration@,
            ) <= usize::MAX,
        ensures
            r.wf(),
            r@ == (BridgeModel {
                buffer: BufferModel {
                    sample_rate: config.device_sample_rate as nat,
                    channels: config.device_channels as nat,
                    chunk_size: ring_buffer::samples_in(
                        config.device_sample_rate as nat,
                        config.device_channels as nat,
                        config.chunk_duration@,
                    ),
                    samples_read: 0,
                    waiting: ring::consumer_contents(ring_consumer),
                    ring: ring::consumer_ring(ring_consumer),
                    stream: ring::consumer_stream(ring_consumer),
                    popped: ring::consumer_popped(ring_consumer),
                },
                source: config.source_format(),
                target: config.target_format(),
                source_id: chunk::source_text(config.source_id),
                name: source_id::text_or_default(config.source_id),
                poll_interval: config.chunk_duration@ / 2,
                flow: FlowModel { flowing: true, last_audio: 0, epoch: r@.flow.epoch },
                gaps: GapModel {
                    source: source_id::text_or_default(config.source_id),
                    sample_rate: config.target_sample_rate as nat,
                    open: Run { len: 0, start: 0 },
                    count: 0,
                    total_ms: 0,
                },
                clipped: 0,
                processed: 0,
                session_start: config.session_start,
            }),
            time::is_now(r@.flow.epoch),
    {
        let audio_buffer = AudioBuffer::new(
            ring_consumer,
            config.device_sample_rate,
            config.device_channels,
            config.chunk_duration,
        );
        let converter = FormatConverter::new(
            config.device_sample_rate,
            config.device_channels,
            config.target_sample_rate,
            config.target_channels,
        );
        CaptureBridge {
            audio_buffer,
            converter,
            target_sample_rate: config.target_sample_rate,
            target_channels: config.target_channels,
            poll_interval: config.chunk_duration.half(),
            source_id: clone_id(&config.source_id),
            flow_monitor: FlowMonitor::new(clone_id(&config.source_id)),
            gap_monitor: GapMonitor::new(clone_id(&config.source_id), config.target_sample_rate),
            quality_monitor: QualityMonitor::new(clone_id(&config.source_id)),
            session_start: config.session_start,
            samples_processed: 0,
        }
    }

    /// The time between two looks at the buffer: half a chunk, for responsiveness.
    pub fn poll_interval(&self) -> (r: Duration)
        ensures
            r@ == self@.poll_interval,
    {
        self.poll_interval
    }

    /// The time since the session has started, for the first chunk's timestamp.
    ///
    /// How much time that is depends on the system's clock.
    pub fn start_timestamp(&self) -> (r: Duration)
        ensures
            time::may_have_passed(self@.session_start, r@),
    {
        elapsed_since(&self.session_start)
    }

    /// Makes the chunk in target format that a device-format chunk gives at a time.
    fn make_chunk(&self, device_chunk: &AudioChunk, timestamp: Duration) -> (r: AudioChunk)
        requires
            self.wf(),
            crate::format::convertible(device_chunk.samples@, self@.source, self@.target),
        ensures
            r@ == self@.output(device_chunk.samples@, timestamp@),
    {
        let converted = self.converter.convert(device_chunk.samples.as_slice());
        AudioChunk::from_arc(
            std::sync::Arc::new(converted),
            timestamp,
            self.target_sample_rate,
            self.target_channels,
            clone_id(&self.source_id),
        )
    }

    /// Converts a device-format chunk to target format and moves the time on.
    pub fn convert_chunk(&self, device_chunk: &AudioChunk, output_timestamp: &mut Duration) -> (r:
        AudioChunk)
        requires
            self.wf(),
            self@.can_convert(device_chunk.samples@, old(output_timestamp)@),
        ensures
            r@ == self@.output(device_chunk.samples@, old(output_timestamp)@),
            final(output_timestamp)@ == old(output_timestamp)@ + r@.duration(),
    {
        let chunk = self.make_chunk(device_chunk, *output_timestamp);
        *output_timestamp = Duration::from_nanos(
            output_timestamp.as_nanos() + chunk.duration().as_nanos(),
        );
        chunk
    }
}

/// Tells whether any sample is not zero.
fn any_audio(samples: &[i16]) -> (r: bool)
    ensures
        r == has_audio(samples@),
{
    let mut i: usize = 0;
    while i < samples.len()
        invariant
            i <= samples.len(),
            forall|j: int| 0 <= j < i ==> #[trigger] samples@[j] == 0,
        decreases samples.len() - i,
    {
        if samples[i] != 0 {
            return true;
        }
        i = i + 1;
    }
    false
}

/// Adds events to a list.
fn append_events(events: &mut Vec<StreamEvent>, more: Vec<StreamEvent>)
    ensures
        event::event_models(final(events)@) == event::event_models(old(events)@)
            + event::event_models(more@),
{
    let ghost before = events@;
    let mut more = more;
    let ghost added = more@;
    events.append(&mut more);
    assert(event::event_models(events@) =~= event::event_models(before) + event::event_models(
        added,
    ));
}

/// Adds an event to a list.
fn push_event(events: &mut Vec<StreamEvent>, event: StreamEvent)
    ensures
        event::event_models(final(events)@) == event::event_models(old(events)@).push(event@),
{
    let ghost before = events@;
    events.push(event);
    assert(event::event_models(events@) =~= event::event_models(before).push(event@));
}

impl CaptureBridge {
    /// Updates session state with current gap statistics.
    fn update_gap_stats(&self, state: &mut SessionState)
        ensures
            *final(state) == (SessionState {
                audio_gaps_detected: self@.gaps.count as u64,
                total_gap_duration_ms: self@.gaps.total_ms as u64,
                ..*old(state)
            }),
    {
        let (gaps, gap_ms) = self.gap_monitor.stats();
        state.audio_gaps_detected = gaps as u64;
        state.total_gap_duration_ms = gap_ms;
    }

    /// Monitors a chunk for audio flow, gaps, and quality issues, and returns what is to be
    /// reported.
    ///
    /// Flow is judged by the time that the clock says has passed since the bridge was made.
    pub fn monitor_chunk(&mut self, chunk: &AudioChunk, state: &mut SessionState) -> (r: Vec<
        StreamEvent,
    >)
        requires
            old(self).wf(),
            old(self)@.can_monitor(chunk.samples@),
        ensures
            final(self).wf(),
            exists|now: nat|
                old(self)@.may_be_now(now) && final(self)@ == old(self)@.monitored(chunk@, now)
                    && event::event_models(r@) == #[trigger] old(self)@.reports(chunk@, now),
            *final(state) == (SessionState {
                clipped_samples: final(self)@.clipped as u64,
                ..old(self)@.gaps_noted(*old(state), chunk.samples@)
            }),
    {
        let ghost before = self@;
        let samples: &[i16] = chunk.samples.as_slice();
        let mut events: Vec<StreamEvent> = Vec::new();
        assert(event::event_models(events@) =~= Seq::empty());
        let audible: bool = any_audio(samples);
        let change = self.flow_monitor.update(audible);
        let ghost now = choose|now: nat|
            time::may_have_passed(before.flow.epoch, now) && (
                self.flow_monitor@,
                flow::optional_model(change),
            ) == #[trigger] flow::flow_step(before.name, before.flow, audible, now);
        match change {
            Some(event) => {
                push_event(&mut events, event);
            },
            None => {},
        }
        let ghost first = as_list(
            flow::flow_step(before.name, before.flow, has_audio(samples@), now).1,
        );
        assert(event::event_models(events@) =~= first);
        let gap_events = self.gap_monitor.scan_chunk(samples, self.samples_processed);
        assert(event::event_models(gap_events@).len() == gap_events@.len());
        if gap_events.len() > 0 {
            self.update_gap_stats(state);
        }
        append_events(&mut events, gap_events);
        let quality_event = self.quality_monitor.analyze_chunk(samples, chunk.timestamp);
        state.clipped_samples = self.quality_monitor.total_clipped();
        push_event(&mut events, quality_event);
        self.samples_processed = self.samples_processed + samples.len() as u64;
        proof {
            assert(event::event_models(events@) =~= before.reports(chunk@, now));
            assert(self@ == before.monitored(chunk@, now));
        }
        events
    }

    /// Tells whether everything that is counted of some samples can be counted.
    fn can_monitor(&self, samples: &[i16]) -> (r: bool)
        ensures
            r == self@.can_monitor(samples@),
    {
        self.gap_monitor.can_scan(samples, self.samples_processed)
            && self.quality_monitor.can_analyze(samples)
    }

    /// Converts a device-format chunk if that is possible, and moves the time on.
    fn try_convert(&self, device_chunk: &AudioChunk, output_timestamp: &mut Duration) -> (r: Option<
        AudioChunk,
    >)
        requires
            self.wf(),
        ensures
            match r {
                Some(chunk) => {
                    &&& self@.can_convert(device_chunk.samples@, old(output_timestamp)@)
                    &&& chunk@ == self@.output(device_chunk.samples@, old(output_timestamp)@)
                    &&& final(output_timestamp)@ == old(output_timestamp)@ + chunk@.duration()
                },
                None => !self@.can_convert(device_chunk.samples@, old(output_timestamp)@)
                    && *final(output_timestamp) == *old(output_timestamp),
            },
    {
        if !self.converter.can_convert(device_chunk.samples.as_slice()) {
            return None;
        }
        let chunk = self.make_chunk(device_chunk, *output_timestamp);
        if chunk.samples.len() > isize::MAX as usize {
            return None;
        }
        let after: u128 = output_timestamp.as_nanos() + chunk.duration().as_nanos();
        if after > MAX_NANOS {
            return None;
        }
        *output_timestamp = Duration::from_nanos(after);
        Some(chunk)
    }

    /// Takes in a chunk that was read from the device: converts it, watches it go by and
    /// counts it. Does nothing at all where that is not possible.
    pub fn take_chunk(
        &mut self,
        device_chunk: &AudioChunk,
        output_timestamp: &mut Duration,
        state: &mut SessionState,
    ) -> (r: Option<(AudioChunk, Vec<StreamEvent>)>)
        requires
            old(self).wf(),
        ensures
            final(self).wf(),
            match r {
                Some((chunk, events)) => {
                    &&& old(self)@.accepts(device_chunk.samples@, old(output_timestamp)@)
                    &&& chunk@ == old(self)@.output(
                        device_chunk.samples@,
                        old(output_timestamp)@,
                    )
                    &&& final(output_timestamp)@ == old(output_timestamp)@ + chunk@.duration()
                    &&& exists|now: nat|
                        old(self)@.may_be_now(now) && final(self)@ == old(self)@.monitored(
                            chunk@,
                            now,
                        ) && event::event_models(events@) == #[trigger] old(self)@.reports(
                            chunk@,
                            now,
                        )
                    &&& *final(state) == old(self)@.noted(*old(state), chunk@)
                },
                None => {
                    &&& !old(self)@.accepts(device_chunk.samples@, old(output_timestamp)@)
                    &&& final(self)@ == old(self)@
                    &&& *final(output_timestamp) == *old(output_timestamp)
                    &&& *final(state) == *old(state)
                },
            },
    {
        let ghost before = self@;
        let mut after = *output_timestamp;
        let chunk = match self.try_convert(device_chunk, &mut after) {
            Some(chunk) => chunk,
            None => {
                return None;
            },
        };
        if !self.can_monitor(chunk.samples.as_slice()) {
            return None;
        }
        *output_timestamp = after;
        let events = self.monitor_chunk(&chunk, state);
        state.count_chunk(chunk.samples.len());
        Some((chunk, events))
    }

    /// Checks for silence timeout when no chunks are available.
    ///
    /// Silence is measured on the clock that was started when the bridge was made.
    pub fn check_flow_timeout(&mut self) -> (r: Option<StreamEvent>)
        requires
            old(self).wf(),
        ensures
            final(self).wf(),
            exists|now: nat|
                {
                    &&& old(self)@.may_be_now(now)
                    &&& final(self)@ == (BridgeModel {
                        flow: flow::flow_step(
                            old(self)@.name,
                            old(self)@.flow,
                            false,
                            now,
                        ).0,
                        ..old(self)@
                    })
                    &&& flow::optional_model(r) == (#[trigger] flow::flow_step(
                        old(self)@.name,
                        old(self)@.flow,
                        false,
                        now,
                    )).1
                },
    {
        let ghost before = self@;
        let r = self.flow_monitor.update(false);
        proof {
            let now = choose|now: nat|
                time::may_have_passed(before.flow.epoch, now) && (
                    self.flow_monitor@,
                    flow::optional_model(r),
                ) == #[trigger] flow::flow_step(before.name, before.flow, false, now);
            assert(before.may_be_now(now));
            assert(flow::flow_step(before.name, before.flow, false, now).0
                == self.flow_monitor@);
        }
        r
    }
}

/// Whether a look at the buffer may leave its reading end so: nothing was read, and
/// samples may have arrived.
pub open spec fn only_arrivals(before: BufferModel, after: BufferModel) -> bool {
    before.advanced(0, after)
}

/// Whether a look at the buffer may leave its reading end so: one chunk was read, and it holds
/// what the stream has next.
pub open spec fn one_chunk_read(before: BufferModel, device: Seq<i16>, after: BufferModel) -> bool {
    &&& before.chunk_size > 0
    &&& device == before.upcoming(before.chunk_size)
    &&& before.advanced(before.chunk_size, after)
}

/// Whether a bridge may have read a chunk and come out so, with this chunk to send on and
/// these events to emit.
pub open spec fn processed(
    before: BridgeModel,
    timestamp: nat,
    after: BridgeModel,
    chunk: ChunkModel,
    events: Seq<EventModel>,
) -> bool {
    exists|device: Seq<i16>, now: nat| #[trigger]
        chunk_made(before, timestamp, device, now, after, chunk, events)
}

/// Whether a bridge that found no complete chunk may come out so, with this event.
pub open spec fn waited(
    before: BridgeModel,
    after: BridgeModel,
    event: Option<EventModel>,
) -> bool {
    &&& only_arrivals(before.buffer, after.buffer)
    &&& before.buffer.chunk_size == 0 ==> event is None && after == (BridgeModel {
        buffer: after.buffer,
        ..before
    })
    &&& before.buffer.chunk_size > 0 ==> after.buffer.waiting.len() < before.buffer.chunk_size
        && exists|now: nat|
        before.may_be_now(now) && (after, event) == (
            BridgeModel {
                buffer: after.buffer,
                flow: flow::flow_step(before.name, before.flow, false, now).0,
                ..before
            },
            (#[trigger] flow::flow_step(before.name, before.flow, false, now)).1,
        )
}

/// Whether a bridge may have found its next chunk impossible: it can no longer be counted,
/// or it was read but not accepted.
pub open spec fn refused(before: BridgeModel, timestamp: nat, after: BridgeModel) -> bool {
    &&& after == (BridgeModel { buffer: after.buffer, ..before })
    &&& {
        ||| only_arrivals(before.buffer, after.buffer) && !before.buffer.room_for(
            before.buffer.chunk_size,
        )
        ||| exists|device: Seq<i16>| #[trigger]
            one_chunk_read(before.buffer, device, after.buffer) && !before.accepts(
                device,
                timestamp,
            )
    }
}

/// Whether a bridge that has read device samples may have made this chunk of them and
/// reported these events. `timestamp` is the chunk's time, `now` that of the clock.
pub open spec fn chunk_made(
    before: BridgeModel,
    timestamp: nat,
    device: Seq<i16>,
    now: nat,
    after: BridgeModel,
    chunk: ChunkModel,
    events: Seq<EventModel>,
) -> bool {
    &&& before.may_be_now(now)
    &&& one_chunk_read(before.buffer, device, after.buffer)
    &&& before.accepts(device, timestamp)
    &&& chunk == before.output(device, timestamp)
    &&& after == (BridgeModel { buffer: after.buffer, ..before.monitored(chunk, now) })
    &&& events == before.reports(chunk, now)
}

impl CaptureBridge {
    /// Processes the next available chunk from the ring buffer.
    ///
    /// Which samples have arrived is up to the producer. Flow is judged by the time that the
    /// clock says has passed since the bridge was made.
    pub fn process_next_chunk(
        &mut self,
        output_timestamp: &mut Duration,
        state: &mut SessionState,
    ) -> (r: CaptureStep)
        requires
            old(self).wf(),
        ensures
            final(self).wf(),
            r matches CaptureStep::Waiting { event } ==> *final(output_timestamp) == *old(
                output_timestamp,
            ) && *final(state) == *old(state) && waited(
                old(self)@,
                final(self)@,
                flow::optional_model(event),
            ),
            r matches CaptureStep::Ready { chunk, events } ==> final(output_timestamp)@ == old(
                output_timestamp,
            )@ + chunk@.duration() && *final(state) == old(self)@.noted(*old(state), chunk@)
                && processed(
                old(self)@,
                old(output_timestamp)@,
                final(self)@,
                chunk@,
                event::event_models(events@),
            ),
            r is Refused ==> *final(output_timestamp) == *old(output_timestamp) && *final(state)
                == *old(state) && refused(old(self)@, old(output_timestamp)@, final(self)@),
    {
        let ghost before = self@;
        if !self.audio_buffer.has_chunk() {
            let event = self.check_flow_timeout();
            assert(waited(before, self@, flow::optional_model(event)));
            return CaptureStep::Waiting { event };
        }
        if !self.audio_buffer.can_read() {
            assert(refused(before, output_timestamp@, self@));
            return CaptureStep::Refused;
        }
        let device_chunk = match self.audio_buffer.try_read_chunk() {
            Some(chunk) => chunk,
            None => {
                assert(waited(before, self@, None));
                return CaptureStep::Waiting { event: None };
            },
        };
        let ghost read = self@;
        let ghost device = device_chunk.samples@;
        assert(one_chunk_read(before.buffer, device, read.buffer));
        let ghost timestamp = output_timestamp@;
        let ghost counters = *state;
        match self.take_chunk(&device_chunk, output_timestamp, state) {
            Some((chunk, events)) => {
                proof {
                    let now = choose|now: nat|
                        read.may_be_now(now) && self@ == read.monitored(chunk@, now)
                            && event::event_models(events@) == #[trigger] read.reports(chunk@, now);
                    assert(read.reports(chunk@, now) == before.reports(chunk@, now));
                    assert(chunk_made(
                        before,
                        timestamp,
                        device,
                        now,
                        self@,
                        chunk@,
                        event::event_models(events@),
                    ));
                    assert(read.noted(counters, chunk@) == before.noted(counters, chunk@));
                }
                assert(processed(
                    before,
                    timestamp,
                    self@,
                    chunk@,
                    event::event_models(events@),
                ));
                CaptureStep::Ready { chunk, events }
            },
            None => {
                assert(!before.accepts(device, timestamp));
                assert(one_chunk_read(before.buffer, device, self@.buffer));
                assert(refused(before, timestamp, self@));
                CaptureStep::Refused
            },
        }
    }
}

/// How far a shutdown has come.
pub ghost struct DrainModel {
    /// The bridge.
    pub bridge: BridgeModel,
    /// The time of the next chunk.
    pub timestamp: nat,
    /// The session's counters.
    pub state: SessionState,
    /// The chunks to send on.
    pub chunks: Seq<ChunkModel>,
    /// The events to emit.
    pub events: Seq<EventModel>,
    /// For each chunk, how many of the events are emitted before it is sent on.
    pub events_before: Seq<nat>,
}

impl BridgeModel {
    /// Whether device samples can be taken in during a shutdown.
    pub open spec fn can_drain(self, device: Seq<i16>, timestamp: nat) -> bool {
        self.can_convert(device, timestamp) && self.gaps.scannable(
            self.output(device, timestamp).samples,
            self.processed,
        )
    }

    /// The bridge once the gap at the end of the stream, if there is one, is counted.
    pub open spec fn flushed(self) -> BridgeModel {
        if self.gaps.open.len >= self.gaps.threshold() {
            BridgeModel {
                gaps: GapModel {
                    open: Run { len: 0, ..self.gaps.open },
                    ..self.gaps.counted(self.gaps.last_gap())
                },
                ..self
            }
        } else {
            self
        }
    }
}

impl DrainModel {
    /// One more device chunk: it is converted, and only gaps are looked for.
    pub open spec fn with(self, device: Seq<i16>) -> DrainModel {
        let chunk = self.bridge.output(device, self.timestamp);
        let events = self.events + self.bridge.gaps.events(self.bridge.new_gaps(chunk.samples));
        DrainModel {
            bridge: BridgeModel {
                gaps: self.bridge.gaps.after(chunk.samples, self.bridge.processed),
                processed: self.bridge.processed + chunk.samples.len(),
                ..self.bridge
            },
            timestamp: self.timestamp + chunk.duration(),
            state: self.bridge.gaps_noted(self.state, chunk.samples),
            chunks: self.chunks.push(chunk),
            events,
            events_before: self.events_before.push(events.len()),
        }
    }

    /// Some more device chunks.
    pub open spec fn with_all(self, devices: Seq<AudioChunk>) -> DrainModel
        decreases devices.len(),
    {
        if devices.len() == 0 {
            self
        } else {
            self.with_all(devices.drop_last()).with(devices.last().samples@)
        }
    }

    /// The end: the gap that is still open, if it is one, is reported.
    pub open spec fn flushed(self) -> DrainModel {
        if self.bridge.gaps.open.len >= self.bridge.gaps.threshold() {
            DrainModel {
                bridge: self.bridge.flushed(),
                state: SessionState {
                    audio_gaps_detected: self.bridge.flushed().gaps.count as u64,
                    total_gap_duration_ms: self.bridge.flushed().gaps.total_ms as u64,
                    ..self.state
                },
                events: self.events.push(
                    self.bridge.gaps.event(self.bridge.gaps.last_gap()),
                ),
                ..self
            }
        } else {
            self
        }
    }
}

/// What some chunks hold.
pub open spec fn chunk_models(chunks: Seq<AudioChunk>) -> Seq<ChunkModel> {
    chunks.map_values(|c: AudioChunk| c@)
}

/// Some counts.
pub open spec fn counts(values: Seq<usize>) -> Seq<nat> {
    values.map_values(|n: usize| n as nat)
}

/// What comes of a shutdown.
pub struct DrainOutcome {
    /// The chunks to send on.
    pub chunks: Vec<AudioChunk>,
    /// The events to emit.
    pub events: Vec<StreamEvent>,
    /// For each chunk, how many of the events are to be emitted before it is sent on.
    pub events_before: Vec<usize>,
    /// Whether all that was left could be taken in.
    pub complete: bool,
}

impl CaptureBridge {
    /// Takes in device chunks during a shutdown, up to the first that is not possible, and
    /// then, if all of them were, looks for a gap at the end.
    pub fn drain_chunks(
        &mut self,
        device_chunks: &Vec<AudioChunk>,
        output_timestamp: &mut Duration,
        state: &mut SessionState,
    ) -> (r: DrainOutcome)
        requires
            old(self).wf(),
        ensures
            final(self).wf(),
            drain_done(
                DrainModel {
                    bridge: old(self)@,
                    timestamp: old(output_timestamp)@,
                    state: *old(state),
                    chunks: Seq::empty(),
                    events: Seq::empty(),
                    events_before: Seq::empty(),
                },
                device_chunks@,
                DrainModel {
                    bridge: final(self)@,
                    timestamp: final(output_timestamp)@,
                    state: *final(state),
                    chunks: chunk_models(r.chunks@),
                    events: event::event_models(r.events@),
                    events_before: counts(r.events_before@),
                },
                r.complete,
            ),
    {
        let ghost start = DrainModel {
            bridge: self@,
            timestamp: output_timestamp@,
            state: *state,
            chunks: Seq::empty(),
            events: Seq::empty(),
            events_before: Seq::empty(),
        };
        let mut chunks: Vec<AudioChunk> = Vec::new();
        let mut events: Vec<StreamEvent> = Vec::new();
        let mut events_before: Vec<usize> = Vec::new();
        let mut i: usize = 0;
        proof {
            assert(counts(events_before@) =~= Seq::empty());
            assert(chunk_models(chunks@) =~= Seq::empty());
            assert(event::event_models(events@) =~= Seq::empty());
        }
        while i < device_chunks.len()
            invariant
                i <= device_chunks.len(),
                i == chunks@.len(),
                self.wf(),
                start == (DrainModel {
                    bridge: old(self)@,
                    timestamp: old(output_timestamp)@,
                    state: *old(state),
                    chunks: Seq::empty(),
                    events: Seq::empty(),
                    events_before: Seq::empty(),
                }),
                start.with_all(device_chunks@.take(i as int)) == (DrainModel {
                    bridge: self@,
                    timestamp: output_timestamp@,
                    state: *state,
                    chunks: chunk_models(chunks@),
                    events: event::event_models(events@),
                    events_before: counts(events_before@),
                }),
            decreases device_chunks.len() - i,
        {
            let ghost here = start.with_all(device_chunks@.take(i as int));
            let ghost device = device_chunks@[i as int].samples@;
            proof {
                let next = device_chunks@.take(i + 1);
                assert(next.drop_last() =~= device_chunks@.take(i as int));
                assert(start.with_all(next) == here.with(device));
            }
            let mut after = *output_timestamp;
            let chunk = match self.try_convert(&device_chunks[i], &mut after) {
                Some(chunk) => chunk,
                None => {
                    return DrainOutcome { chunks, events, events_before, complete: false };
                },
            };
            if !self.gap_monitor.can_scan(chunk.samples.as_slice(), self.samples_processed) {
                return DrainOutcome { chunks, events, events_before, complete: false };
            }
            *output_timestamp = after;
            let gap_events = self.gap_monitor.scan_chunk(
                chunk.samples.as_slice(),
                self.samples_processed,
            );
            assert(event::event_models(gap_events@).len() == gap_events@.len());
            if gap_events.len() > 0 {
                self.update_gap_stats(state);
            }
            append_events(&mut events, gap_events);
            let ghost marked = events_before@;
            assert(event::event_models(events@).len() == events@.len());
            events_before.push(events.len());
            assert(counts(events_before@) =~= counts(marked).push(events@.len()));
            self.samples_processed = self.samples_processed + chunk.samples.len() as u64;
            let ghost had = chunks@;
            chunks.push(chunk);
            assert(chunk_models(chunks@) =~= chunk_models(had).push(chunk@));
            i = i + 1;
        }
        assert(device_chunks@.take(i as int) =~= device_chunks@);
        if !self.gap_monitor.can_flush() {
            return DrainOutcome { chunks, events, events_before, complete: false };
        }
        match self.gap_monitor.flush() {
            Some(event) => {
                self.update_gap_stats(state);
                push_event(&mut events, event);
            },
            None => {},
        }
        DrainOutcome { chunks, events, events_before, complete: true }
    }

    /// Drains all remaining audio from the buffer at the end of capture.
    ///
    /// Which samples are left is up to the producer.
    pub fn drain_remaining(
        &mut self,
        output_timestamp: &mut Duration,
        state: &mut SessionState,
    ) -> (r: DrainOutcome)
        requires
            old(self).wf(),
            old(self)@.buffer.chunk_size > 0,
        ensures
            final(self).wf(),
            shut_down(
                DrainModel {
                    bridge: old(self)@,
                    timestamp: old(output_timestamp)@,
                    state: *old(state),
                    chunks: Seq::empty(),
                    events: Seq::empty(),
                    events_before: Seq::empty(),
                },
                DrainModel {
                    bridge: final(self)@,
                    timestamp: final(output_timestamp)@,
                    state: *final(state),
                    chunks: chunk_models(r.chunks@),
                    events: event::event_models(r.events@),
                    events_before: counts(r.events_before@),
                },
                r.complete,
            ),
    {
        let ghost before = self@;
        let ghost start = DrainModel {
            bridge: self@,
            timestamp: output_timestamp@,
            state: *state,
            chunks: Seq::empty(),
            events: Seq::empty(),
            events_before: Seq::empty(),
        };
        let device_chunks = self.audio_buffer.drain();
        let ghost emptied = DrainModel { bridge: self@, ..start };
        let r = self.drain_chunks(&device_chunks, output_timestamp, state);
        proof {
            let after = DrainModel {
                bridge: self@,
                timestamp: output_timestamp@,
                state: *state,
                chunks: chunk_models(r.chunks@),
                events: event::event_models(r.events@),
                events_before: counts(r.events_before@),
            };
            assert(drain_done(emptied, device_chunks@, after, r.complete));
            lemma_drain_keeps_buffer(emptied, device_chunks@);
            lemma_drain_keeps_buffer(
                emptied,
                device_chunks@.take(after.chunks.len() as int),
            );
            assert(after.bridge.buffer == emptied.bridge.buffer);
            assert(before.buffer.may_drain(device_chunks@, after.bridge.buffer));
        }
        r
    }
}

/// Whether a shutdown that is given some device chunks comes to this end.
pub open spec fn drain_done(
    start: DrainModel,
    devices: Seq<AudioChunk>,
    end: DrainModel,
    complete: bool,
) -> bool {
    let taken = end.chunks.len() as int;
    let run = start.with_all(devices.take(taken));
    &&& taken <= devices.len()
    &&& complete ==> taken == devices.len() && run.bridge.gaps.countable(run.bridge.gaps.last_gap())
        && end == run.flushed()
    &&& !complete ==> end == run && if taken < devices.len() {
        !run.bridge.can_drain(devices[taken].samples@, run.timestamp)
    } else {
        !run.bridge.gaps.countable(run.bridge.gaps.last_gap())
    }
}

/// Whether a shutdown may come to this end: the buffer is emptied, and what was in it is
/// taken in.
pub open spec fn shut_down(start: DrainModel, end: DrainModel, complete: bool) -> bool {
    exists|devices: Seq<AudioChunk>| #[trigger]
        start.bridge.buffer.may_drain(devices, end.bridge.buffer) && drain_done(
            DrainModel {
                bridge: BridgeModel { buffer: end.bridge.buffer, ..start.bridge },
                ..start
            },
            devices,
            end,
            complete,
        )
}

/// The events of a shutdown are emitted in turn with its chunks: before each chunk is sent on,
/// at least those that were emitted before the one before it, and no more than there are.
pub proof fn lemma_drain_takes_turns(start: DrainModel, devices: Seq<AudioChunk>)
    requires
        start.chunks.len() == 0,
        start.events_before.len() == 0,
    ensures
        start.with_all(devices).events_before.len() == start.with_all(devices).chunks.len(),
        start.events.len() <= start.with_all(devices).events.len(),
        forall|i: int, j: int|
            #![trigger start.with_all(devices).events_before[i], start.with_all(devices).events_before[j]]
            0 <= i <= j < devices.len() ==> start.with_all(devices).events_before[i]
                <= start.with_all(devices).events_before[j] <= start.with_all(devices).events.len(),
        start.with_all(devices).chunks.len() == devices.len(),
    decreases devices.len(),
{
    if devices.len() > 0 {
        lemma_drain_takes_turns(start, devices.drop_last());
        let before = start.with_all(devices.drop_last());
        let after = start.with_all(devices);
        assert forall|i: int, j: int|
            #![trigger after.events_before[i], after.events_before[j]]
            0 <= i <= j < devices.len() implies after.events_before[i] <= after.events_before[j]
            <= after.events.len() by {
            if j < devices.len() - 1 {
                assert(after.events_before[i] == before.events_before[i]);
                assert(after.events_before[j] == before.events_before[j]);
            } else if i < j {
                assert(after.events_before[i] == before.events_before[i]);
                assert(before.events_before[i] <= before.events_before[i]);
            }
        }
    }
}

/// Taking in chunks during a shutdown does not touch the buffer.
proof fn lemma_drain_keeps_buffer(start: DrainModel, devices: Seq<AudioChunk>)
    ensures
        start.with_all(devices).bridge.buffer == start.bridge.buffer,
    decreases devices.len(),
{
    if devices.len() > 0 {
        lemma_drain_keeps_buffer(start, devices.drop_last());
    }
}

/// The chunks of a shutdown follow each other without a hole: each starts where the one
/// before it ends, and the first where the shutdown started.
pub proof fn lemma_drain_contiguous(start: DrainModel, devices: Seq<AudioChunk>)
    requires
        start.chunks.len() == 0,
    ensures
        start.with_all(devices).chunks.len() == devices.len(),
        forall|i: int|
            #![trigger start.with_all(devices).chunks[i]]
            0 <= i < devices.len() ==> start.with_all(devices).chunks[i].timestamp == if i == 0 {
                start.timestamp
            } else {
                start.with_all(devices).chunks[i - 1].timestamp + start.with_all(devices).chunks[i
                    - 1].duration()
            },
        start.with_all(devices).timestamp == if devices.len() == 0 {
            start.timestamp
        } else {
            start.with_all(devices).chunks.last().timestamp + start.with_all(
                devices,
            ).chunks.last().duration()
        },
    decreases devices.len(),
{
    if devices.len() > 0 {
        lemma_drain_contiguous(start, devices.drop_last());
    }
}

/// Whether an event tells of a change of flow.
pub open spec fn is_flow_event(event: EventModel) -> bool {
    event is AudioFlowStopped || event is AudioFlowResumed
}

/// A chunk of zeros is silence: it does not renew the time at which audio was last heard, and
/// once there has been none for more than half a second, the first report on it is that audio
/// has stopped, and for how long. Otherwise nothing is reported of flow.
pub proof fn lemma_zeros_are_silence(m: BridgeModel, chunk: ChunkModel, now: nat)
    requires
        forall|i: int| 0 <= i < chunk.samples.len() ==> chunk.samples[i] == 0,
        m.flow.last_audio <= now,
        now - m.flow.last_audio < 18_446_744_073_709_551_616_000_000,
    ensures
        m.monitored(chunk, now).flow.last_audio == m.flow.last_audio,
        m.flow.flowing && now - m.flow.last_audio > 500_000_000 ==> {
            &&& !m.monitored(chunk, now).flow.flowing
            &&& m.reports(chunk, now).len() > 0
            &&& m.reports(chunk, now)[0] matches EventModel::AudioFlowStopped {
                source_id,
                silent_duration_ms,
            } && source_id == m.name && silent_duration_ms * 1_000_000 <= now - m.flow.last_audio
                < (silent_duration_ms + 1) * 1_000_000
            &&& forall|i: int|
                0 < i < m.reports(chunk, now).len() ==> !is_flow_event(
                    #[trigger] m.reports(chunk, now)[i],
                )
        },
        !(m.flow.flowing && now - m.flow.last_audio > 500_000_000) ==> {
            &&& m.monitored(chunk, now).flow == m.flow
            &&& forall|i: int|
                0 <= i < m.reports(chunk, now).len() ==> !is_flow_event(
                    #[trigger] m.reports(chunk, now)[i],
                )
        },
{
    flow::lemma_silence_report(m.name, m.flow, now);
    lemma_reports_layout(m, chunk, now);
}

/// A chunk with any sample that is not zero is audio: it sets the time at which audio was last
/// heard to now, and the first report on it is that audio has resumed where it had stopped.
/// Otherwise nothing is reported of flow.
pub proof fn lemma_sound_is_audio(m: BridgeModel, chunk: ChunkModel, now: nat, at: int)
    requires
        0 <= at < chunk.samples.len(),
        chunk.samples[at] != 0,
    ensures
        m.monitored(chunk, now).flow.last_audio == now,
        m.monitored(chunk, now).flow.flowing,
        m.monitored(chunk, now).flow.epoch == m.flow.epoch,
        !m.flow.flowing ==> {
            &&& m.reports(chunk, now).len() > 0
            &&& m.reports(chunk, now)[0] == (EventModel::AudioFlowResumed { source_id: m.name })
            &&& forall|i: int|
                0 < i < m.reports(chunk, now).len() ==> !is_flow_event(
                    #[trigger] m.reports(chunk, now)[i],
                )
        },
        m.flow.flowing ==> forall|i: int|
            0 <= i < m.reports(chunk, now).len() ==> !is_flow_event(
                #[trigger] m.reports(chunk, now)[i],
            ),
{
    assert(has_audio(chunk.samples));
    flow::lemma_audio_report(m.name, m.flow, now);
    lemma_reports_layout(m, chunk, now);
}

/// After a change of flow, if there is one, come the gaps and the metrics, which are none.
proof fn lemma_reports_layout(m: BridgeModel, chunk: ChunkModel, now: nat)
    ensures
        ({
            let change = as_list(
                flow::flow_step(m.name, m.flow, has_audio(chunk.samples), now).1,
            );
            &&& change.len() <= 1
            &&& change.len() < m.reports(chunk, now).len()
            &&& change.len() == 1 ==> m.reports(chunk, now)[0] == change[0]
            &&& forall|i: int|
                change.len() <= i < m.reports(chunk, now).len() ==> !is_flow_event(
                    #[trigger] m.reports(chunk, now)[i],
                )
        }),
{
    let change = as_list(flow::flow_step(m.name, m.flow, has_audio(chunk.samples), now).1);
    let gaps = m.gaps.events(m.new_gaps(chunk.samples));
    let all = m.reports(chunk, now);
    assert forall|i: int| change.len() <= i < all.len() implies !is_flow_event(
        #[trigger] all[i],
    ) by {
        if i < change.len() + gaps.len() {
            assert(all[i] == gaps[i - change.len()]);
        }
    }
}

/// The last report on a chunk is on its quality: it gives the chunk's place in time and the
/// number of its samples. Before it, gaps are reported, one for each that has ended.
pub proof fn lemma_quality_comes_last(m: BridgeModel, chunk: ChunkModel, now: nat)
    ensures
        m.reports(chunk, now).len() > 0,
        m.reports(chunk, now).last() matches EventModel::AudioQualityReport {
            source_id,
            position,
            sample_count,
            ..
        } && source_id == m.name && position == chunk.timestamp && sample_count
            == chunk.samples.len(),
        forall|i: int|
            0 <= i < m.reports(chunk, now).len() - 1 ==> !((#[trigger] m.reports(
                chunk,
                now,
            )[i]) is AudioQualityReport),
{
    let change = as_list(flow::flow_step(m.name, m.flow, has_audio(chunk.samples), now).1);
    let gaps = m.gaps.events(m.new_gaps(chunk.samples));
    let all = m.reports(chunk, now);
    assert forall|i: int| 0 <= i < all.len() - 1 implies !((#[trigger] all[i])
        is AudioQualityReport) by {
        if i >= change.len() {
            assert(all[i] == gaps[i - change.len()]);
        }
    }
}

/// What is counted of a chunk: one more chunk and so many more samples, the clipped ones among
/// them, and the gaps so far where one has ended; nothing else changes.
pub proof fn lemma_chunk_is_counted(m: BridgeModel, state: SessionState, chunk: ChunkModel)
    requires
        state.samples_captured + chunk.samples.len() < 0x1_0000_0000_0000_0000,
        state.chunks_processed < 0xffff_ffff_ffff_ffff,
        m.can_monitor(chunk.samples),
    ensures
        ({
            let after = m.noted(state, chunk);
            &&& after.chunks_processed == state.chunks_processed + 1
            &&& after.samples_captured == state.samples_captured + chunk.samples.len()
            &&& after.clipped_samples == m.clipped + quality::clipped_in(chunk.samples)
            &&& after.running == state.running
            &&& after.buffer_overflows == state.buffer_overflows
            &&& m.new_gaps(chunk.samples).len() > 0 ==> after.audio_gaps_detected == m.gaps.count
                + m.new_gaps(chunk.samples).len()
            &&& m.new_gaps(chunk.samples).len() == 0 ==> after.audio_gaps_detected
                == state.audio_gaps_detected && after.total_gap_duration_ms
                == state.total_gap_duration_ms
        }),
{
}

/// What goes to the sinks is in the format that they get, from the source that was captured,
/// at the time that it is given; audio that has this format already is passed on as it is.
pub proof fn lemma_output_format(m: BridgeModel, device: Seq<i16>, timestamp: nat)
    ensures
        ({
            let chunk = m.output(device, timestamp);
            &&& chunk.sample_rate == m.target.rate
            &&& chunk.channels == m.target.channels
            &&& chunk.source_id == m.source_id
            &&& chunk.timestamp == timestamp
            &&& m.source == m.target ==> chunk.samples == device
        }),
{
    crate::format::lemma_passthrough(device, m.source);
}

/// A look at the buffer that finds no complete chunk is silence: it never renews the time at
/// which audio was last heard, never reports that audio has resumed, and reports that it has
/// stopped exactly once it has been missing for more than half a second. Nothing is counted.
pub proof fn lemma_waiting_is_silence(
    before: BridgeModel,
    after: BridgeModel,
    event: Option<EventModel>,
)
    requires
        waited(before, after, event),
    ensures
        after.flow.last_audio == before.flow.last_audio,
        event is Some ==> event->0 is AudioFlowStopped && before.flow.flowing
            && !after.flow.flowing,
        event is None ==> after.flow.flowing == before.flow.flowing,
        before.buffer.chunk_size > 0 ==> exists|now: nat| #[trigger]
            before.may_be_now(now) && (event is Some <==> before.flow.flowing && now
                > before.flow.last_audio + 500_000_000),
        after.gaps == before.gaps,
        after.clipped == before.clipped,
        after.processed == before.processed,
        after.source_id == before.source_id,
        after.buffer.popped == before.buffer.popped,
{
    if before.buffer.chunk_size > 0 {
        let now = choose|now: nat|
            before.may_be_now(now) && (after, event) == (
                BridgeModel {
                    buffer: after.buffer,
                    flow: flow::flow_step(before.name, before.flow, false, now).0,
                    ..before
                },
                (#[trigger] flow::flow_step(before.name, before.flow, false, now)).1,
            );
        assert(after.flow == flow::flow_step(before.name, before.flow, false, now).0);
    }
}

/// Where a gap has ended, the session's counters are what the last report on gaps says.
pub proof fn lemma_gaps_are_counted(m: BridgeModel, state: SessionState, chunk: ChunkModel)
    requires
        m.can_monitor(chunk.samples),
        m.new_gaps(chunk.samples).len() > 0,
    ensures
        m.gaps.events(m.new_gaps(chunk.samples)).last() matches EventModel::AudioGapDetected {
            cumulative_gaps,
            cumulative_gap_ms,
            ..
        } && m.noted(state, chunk).audio_gaps_detected == cumulative_gaps && m.noted(
            state,
            chunk,
        ).total_gap_duration_ms == cumulative_gap_ms,
{
    let gaps = m.new_gaps(chunk.samples);
    assert(gaps.take(gaps.len() as int) =~= gaps);
}

/// A shutdown converts each device chunk that was left, in order, and looks for gaps only: the
/// state of flow and the count of clipped samples stay, and gaps are looked for right behind
/// the samples that were taken in before.
pub proof fn lemma_drain_converts(start: DrainModel, devices: Seq<AudioChunk>, i: int)
    requires
        start.chunks.len() == 0,
        0 <= i < devices.len(),
    ensures
        ({
            let end = start.with_all(devices);
            &&& end.chunks.len() == devices.len()
            &&& end.chunks[i].samples == crate::format::converted(
                devices[i].samples@,
                start.bridge.source,
                start.bridge.target,
            )
            &&& end.chunks[i].sample_rate == start.bridge.target.rate
            &&& end.chunks[i].channels == start.bridge.target.channels
            &&& end.chunks[i].source_id == start.bridge.source_id
            &&& end.bridge.flow == start.bridge.flow
            &&& end.bridge.clipped == start.bridge.clipped
            &&& end.bridge.source == start.bridge.source
            &&& end.bridge.target == start.bridge.target
            &&& end.bridge.source_id == start.bridge.source_id
        }),
    decreases devices.len(),
{
    lemma_drain_keeps_settings(start, devices.drop_last());
    if i < devices.len() - 1 {
        lemma_drain_converts(start, devices.drop_last(), i);
    }
}

proof fn lemma_drain_keeps_settings(start: DrainModel, devices: Seq<AudioChunk>)
    ensures
        ({
            let end = start.with_all(devices);
            &&& end.chunks.len() == start.chunks.len() + devices.len()
            &&& end.bridge.flow == start.bridge.flow
            &&& end.bridge.clipped == start.bridge.clipped
            &&& end.bridge.source == start.bridge.source
            &&& end.bridge.target == start.bridge.target
            &&& end.bridge.source_id == start.bridge.source_id
        }),
    decreases devices.len(),
{
    if devices.len() > 0 {
        lemma_drain_keeps_settings(start, devices.drop_last());
    }
}

/// At the end of a shutdown the zeros that are still open are reported exactly where one more
/// sample would make them longer than 50 milliseconds, as the last event.
pub proof fn lemma_drain_ends_with_gap(end: DrainModel)
    ensures
        1000 * (end.bridge.gaps.open.len + 1) <= 50 * end.bridge.gaps.sample_rate ==> end.flushed()
            == end,
        1000 * (end.bridge.gaps.open.len + 1) > 50 * end.bridge.gaps.sample_rate ==> {
            let after = end.flushed();
            &&& after.events.len() == end.events.len() + 1
            &&& after.events.drop_last() == end.events
            &&& after.events.last() matches EventModel::AudioGapDetected {
                source_id,
                gap_samples,
                cumulative_gaps,
                ..
            } && source_id == end.bridge.gaps.source && gap_samples == end.bridge.gaps.open.len
                && cumulative_gaps == end.bridge.gaps.count + 1
            &&& after.bridge.gaps.open.len == 0
            &&& after.bridge.gaps.count == end.bridge.gaps.count + 1
            &&& after.chunks == end.chunks
            &&& after.timestamp == end.timestamp
        },
{
    if 1000 * (end.bridge.gaps.open.len + 1) > 50 * end.bridge.gaps.sample_rate {
        assert(end.flushed().events.drop_last() =~= end.events);
    }
}

/// Monitoring goes on from chunk to chunk: after a chunk the next one is taken to lie right
/// behind it, what was clipped is what the last report on it says, and one more gap is counted
/// for each that was reported. What the bridge was set up with stays.
pub proof fn lemma_monitoring_goes_on(m: BridgeModel, chunk: ChunkModel, now: nat)
    ensures
        ({
            let after = m.monitored(chunk, now);
            &&& after.processed == m.processed + chunk.samples.len()
            &&& after.clipped
                == m.reports(chunk, now).last()->AudioQualityReport_total_clipped_samples
            &&& after.gaps.count == m.gaps.count + m.new_gaps(chunk.samples).len()
            &&& after.gaps.source == m.gaps.source
            &&& after.gaps.sample_rate == m.gaps.sample_rate
            &&& after.buffer == m.buffer
            &&& after.source == m.source
            &&& after.target == m.target
            &&& after.source_id == m.source_id
            &&& after.name == m.name
        }),
{
}

/// Zeros that go on from one chunk into the next are one gap: what is reported of gaps for two
/// chunks, one after the other, is what would be reported of them as one.
pub proof fn lemma_gaps_span_chunks(m: BridgeModel, a: ChunkModel, b: ChunkModel, now: nat)
    requires
        m.gaps.sample_rate >= 20,
    ensures
        ({
            let between = m.monitored(a, now);
            m.gaps.events(m.new_gaps(a.samples)) + between.gaps.events(between.new_gaps(b.samples))
                == m.gaps.events(m.new_gaps(a.samples + b.samples))
        }),
{
    crate::pipeline::gap::lemma_cut_does_not_matter(
        m.gaps,
        a.samples,
        b.samples,
        m.processed,
        Seq::empty(),
        0,
    );
}

/// The reports on a chunk hold one for each gap that ended in it, in order, before the last.
pub proof fn lemma_gaps_are_reported(m: BridgeModel, chunk: ChunkModel, now: nat, i: int)
    requires
        0 <= i < m.new_gaps(chunk.samples).len(),
    ensures
        ({
            let reports = m.reports(chunk, now);
            let gaps = m.new_gaps(chunk.samples);
            reports[reports.len() - 1 - gaps.len() + i] matches EventModel::AudioGapDetected {
                source_id,
                gap_samples,
                cumulative_gaps,
                ..
            } && source_id == m.gaps.source && gap_samples == gaps[i].len && cumulative_gaps
                == m.gaps.count + i + 1
        }),
{
    let change = as_list(flow::flow_step(m.name, m.flow, has_audio(chunk.samples), now).1);
    let gaps = m.new_gaps(chunk.samples);
    let all = m.reports(chunk, now);
    assert(all[change.len() + i] == m.gaps.events(gaps)[i]);
    assert(gaps.take(i + 1).last() == gaps[i]);
}

/// A shutdown looks for gaps across its chunks: what is reported for two of them, one after the
/// other, is what would be reported of them as one, right behind what was taken in before.
pub proof fn lemma_drain_spans_chunks(d: DrainModel, a: Seq<i16>, b: Seq<i16>)
    requires
        d.bridge.gaps.sample_rate >= 20,
    ensures
        ({
            let end = d.with(a).with(b);
            let (first, second) = (end.chunks[end.chunks.len() - 2], end.chunks.last());
            let samples = first.samples + second.samples;
            &&& end.chunks.len() == d.chunks.len() + 2
            &&& end.events == d.events + d.bridge.gaps.events(d.bridge.new_gaps(samples))
            &&& end.bridge.processed == d.bridge.processed + samples.len()
            &&& end.bridge.gaps.count == d.bridge.gaps.count + d.bridge.new_gaps(samples).len()
            &&& end.events_before.last() == end.events.len()
        }),
{
    let first = d.bridge.output(a, d.timestamp).samples;
    let second = d.with(a).bridge.output(b, d.with(a).timestamp).samples;
    crate::pipeline::gap::lemma_cut_does_not_matter(
        d.bridge.gaps,
        first,
        second,
        d.bridge.processed,
        Seq::empty(),
        0,
    );
    let end = d.with(a).with(b);
    assert(end.chunks[end.chunks.len() - 2].samples == first);
    assert(end.chunks.last().samples == second);
    assert(end.events =~= d.events + d.bridge.gaps.events(d.bridge.new_gaps(first + second)));
    assert(end.bridge.gaps.count == d.bridge.gaps.after(first + second, d.bridge.processed).count);
}

/// Where a chunk of a shutdown ends a gap, the session's counters are what the last event says;
/// otherwise they stay. No other counter changes.
pub proof fn lemma_drain_counts_gaps(d: DrainModel, device: Seq<i16>)
    requires
        d.bridge.can_drain(device, d.timestamp),
    ensures
        ({
            let end = d.with(device);
            &&& end.events == d.events ==> end.state == d.state
            &&& end.events != d.events ==> (end.events.last() matches
                EventModel::AudioGapDetected { cumulative_gaps, cumulative_gap_ms, .. }
                && end.state.audio_gaps_detected == cumulative_gaps
                && end.state.total_gap_duration_ms == cumulative_gap_ms)
            &&& end.state.running == d.state.running
            &&& end.state.chunks_processed == d.state.chunks_processed
            &&& end.state.samples_captured == d.state.samples_captured
            &&& end.state.clipped_samples == d.state.clipped_samples
            &&& end.state.buffer_overflows == d.state.buffer_overflows
        }),
{
    let end = d.with(device);
    let chunk = d.bridge.output(device, d.timestamp);
    let gaps = d.bridge.new_gaps(chunk.samples);
    if gaps.len() == 0 {
        assert(end.events =~= d.events);
    } else {
        assert(end.events.len() > d.events.len());
        assert(gaps.take(gaps.len() as int) =~= gaps);
        assert(end.events.last() == d.bridge.gaps.event(gaps));
    }
}

} // verus!
