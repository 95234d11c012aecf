//! Audio capture session management.
use crate::event;
use crate::event::EventModel;
use crate::source::SourceId;
use crate::StreamEvent;
use vstd::prelude::*;
use vstd::string::*;

verus! {

/// How long a shutdown waits for each background task.
pub const SHUTDOWN_TIMEOUT_MS: u64 = 5_000;

/// How long a shutdown waits for room in the router's command channel.
pub const STOP_COMMAND_TIMEOUT_MS: u64 = 100;

/// Statistics about a recording session.
#[derive(Debug, Clone, Copy, PartialEq, Eq, Structural)]
pub struct SessionStats {
    /// Total chunks processed.
    pub chunks_processed: u64,
    /// Total samples captured.
    pub samples_captured: u64,
    /// Number of buffer overflows.
    pub buffer_overflows: u64,
    /// Number of audio gaps detected (suspicious zero-sample runs).
    pub audio_gaps_detected: u64,
    /// Total duration of detected gaps in milliseconds.
    pub total_gap_duration_ms: u64,
    /// Total samples that hit max amplitude (clipping indicator).
    pub clipped_samples: u64,
}

impl Default for SessionStats {
    fn default() -> (r: Self)
        ensures
            r == (SessionStats {
                chunks_processed: 0,
                samples_captured: 0,
                buffer_overflows: 0,
                audio_gaps_detected: 0,
                total_gap_duration_ms: 0,
                clipped_samples: 0,
            }),
    {
        SessionStats {
            chunks_processed: 0,
            samples_captured: 0,
            buffer_overflows: 0,
            audio_gaps_detected: 0,
            total_gap_duration_ms: 0,
            clipped_samples: 0,
        }
    }
}

/// What a session and its background tasks share.
#[derive(Debug, Clone, Copy, PartialEq, Eq, Structural)]
pub struct SessionState {
    /// Whether capture goes on.
    pub running: bool,
    /// Chunks processed.
    pub chunks_processed: u64,
    /// Samples captured.
    pub samples_captured: u64,
    /// Buffer overflows.
    pub buffer_overflows: u64,
    /// Audio gaps.
    pub audio_gaps_detected: u64,
    /// Length of all audio gaps in milliseconds.
    pub total_gap_duration_ms: u64,
    /// Clipped samples.
    pub clipped_samples: u64,
}

/// A step of a shutdown.
#[derive(Debug, Clone, Copy, PartialEq, Eq, Structural)]
pub enum ShutdownStep {
    /// Stop the capture streams, so that no more samples arrive.
    StopStreams,
    /// Send the router the command to stop, waiting at most so long for room.
    SendStop {
        /// The limit in milliseconds.
        timeout_ms: u64,
    },
    /// Send the router the command to stop if there is room.
    TrySendStop,
    /// Wait for a capture task.
    AwaitCapture {
        /// Which one.
        index: usize,
        /// The limit in milliseconds.
        timeout_ms: u64,
    },
    /// Wait for the router task.
    AwaitRouter {
        /// The limit in milliseconds.
        timeout_ms: u64,
    },
    /// Report that the sources have stopped.
    ReportStopped,
}

/// A counter of 64 bits starts again at zero.
pub open spec fn wrapped(n: int) -> u64 {
    (n % 0x1_0000_0000_0000_0000) as u64
}

/// The waiting for all capture tasks. Each of them sends on what is left in its buffer
/// before it ends.
pub open spec fn capture_steps(captures: nat) -> Seq<ShutdownStep> {
    Seq::new(
        captures,
        |i: int|
            ShutdownStep::AwaitCapture { index: i as usize, timeout_ms: SHUTDOWN_TIMEOUT_MS },
    )
}

/// The waiting for the router task, if there is one.
pub open spec fn router_steps(router: bool) -> Seq<ShutdownStep> {
    if router {
        seq![ShutdownStep::AwaitRouter { timeout_ms: SHUTDOWN_TIMEOUT_MS }]
    } else {
        Seq::empty()
    }
}

/// What is to be done to stop a running session: no more samples arrive, what was captured
/// goes to the router, and only then the router is told to write it and to stop the sinks.
pub open spec fn stop_steps(captures: nat, router: bool) -> Seq<ShutdownStep> {
    seq![ShutdownStep::StopStreams] + capture_steps(captures) + seq![
        ShutdownStep::SendStop { timeout_ms: STOP_COMMAND_TIMEOUT_MS },
    ] + router_steps(router) + seq![ShutdownStep::ReportStopped]
}

/// The state after a session was told to stop, and what is to be done then.
pub open spec fn stopped(state: SessionState, captures: nat, router: bool) -> (
    SessionState,
    Seq<ShutdownStep>,
) {
    (
        SessionState { running: false, ..state },
        if state.running {
            stop_steps(captures, router)
        } else {
            Seq::empty()
        },
    )
}

/// Adds the waiting for all capture tasks to a list of steps.
fn push_capture_steps(steps: &mut Vec<ShutdownStep>, captures: usize)
    ensures
        final(steps)@ == old(steps)@ + capture_steps(captures as nat),
{
    let ghost before = steps@;
    let mut i: usize = 0;
    while i < captures
        invariant
            i <= captures,
            steps@ == before + capture_steps(captures as nat).take(i as int),
        decreases captures - i,
    {
        steps.push(ShutdownStep::AwaitCapture { index: i, timeout_ms: SHUTDOWN_TIMEOUT_MS });
        i = i + 1;
    }
    assert(steps@ =~= before + capture_steps(captures as nat));
}

/// Adds the waiting for the router task to a list of steps, if there is one.
fn push_router_steps(steps: &mut Vec<ShutdownStep>, router: bool)
    ensures
        final(steps)@ == old(steps)@ + router_steps(router),
{
    let ghost before = steps@;
    if router {
        steps.push(ShutdownStep::AwaitRouter { timeout_ms: SHUTDOWN_TIMEOUT_MS });
    }
    assert(steps@ =~= before + router_steps(router));
}

impl SessionState {
    /// The state of a session that has just started.
    pub fn new() -> (r: Self)
        ensures
            r == (SessionState {
                running: true,
                chunks_processed: 0,
                samples_captured: 0,
                buffer_overflows: 0,
                audio_gaps_detected: 0,
                total_gap_duration_ms: 0,
                clipped_samples: 0,
            }),
    {
        SessionState {
            running: true,
            chunks_processed: 0,
            samples_captured: 0,
            buffer_overflows: 0,
            audio_gaps_detected: 0,
            total_gap_duration_ms: 0,
            clipped_samples: 0,
        }
    }

    /// Returns `true` if the session is still running.
    pub fn is_running(&self) -> (r: bool)
        ensures
            r == self.running,
    {
        self.running
    }

    /// Returns current session statistics.
    pub fn stats(&self) -> (r: SessionStats)
        ensures
            r == (SessionStats {
                chunks_processed: self.chunks_processed,
                samples_captured: self.samples_captured,
                buffer_overflows: self.buffer_overflows,
                audio_gaps_detected: self.audio_gaps_detected,
                total_gap_duration_ms: self.total_gap_duration_ms,
                clipped_samples: self.clipped_samples,
            }),
    {
        SessionStats {
            chunks_processed: self.chunks_processed,
            samples_captured: self.samples_captured,
            buffer_overflows: self.buffer_overflows,
            audio_gaps_detected: self.audio_gaps_detected,
            total_gap_duration_ms: self.total_gap_duration_ms,
            clipped_samples: self.clipped_samples,
        }
    }

    /// Marks the session as stopped and lists what is left to do for that: nothing if it
    /// is stopped already.
    ///
    /// Capture tasks end once the session is marked as stopped. They are waited for before
    /// the router is told to stop, so that what they have captured is written.
    pub fn stop_internal(&mut self, captures: usize, router: bool) -> (steps: Vec<ShutdownStep>)
        ensures
            (*final(self), steps@) == stopped(*old(self), captures as nat, router),
    {
        let mut steps: Vec<ShutdownStep> = Vec::new();
        if !self.running {
            return steps;
        }
        self.running = false;
        steps.push(ShutdownStep::StopStreams);
        push_capture_steps(&mut steps, captures);
        steps.push(ShutdownStep::SendStop { timeout_ms: STOP_COMMAND_TIMEOUT_MS });
        push_router_steps(&mut steps, router);
        steps.push(ShutdownStep::ReportStopped);
        assert(steps@ =~= stop_steps(captures as nat, router));
        steps
    }

    /// Marks a session that is dropped as stopped and lists what is left to do.
    ///
    /// This does what can be done without waiting: the router is told to stop at once, and
    /// what is still in the buffers may not reach the sinks. Without a runtime the tasks
    /// cannot be waited for. A session that was stopped before leaves nothing to do.
    pub fn cleanup(&mut self, captures: usize, router: bool, has_runtime: bool) -> (steps: Vec<
        ShutdownStep,
    >)
        ensures
            *final(self) == (SessionState { running: false, ..*old(self) }),
            steps@ == if !old(self).running {
                Seq::empty()
            } else if has_runtime {
                seq![ShutdownStep::TrySendStop] + capture_steps(captures as nat) + router_steps(
                    router,
                )
            } else {
                seq![ShutdownStep::TrySendStop]
            },
    {
        let mut steps: Vec<ShutdownStep> = Vec::new();
        if !self.running {
            return steps;
        }
        self.running = false;
        steps.push(ShutdownStep::TrySendStop);
        assert(steps@ =~= seq![ShutdownStep::TrySendStop]);
        if has_runtime {
            push_capture_steps(&mut steps, captures);
            push_router_steps(&mut steps, router);
        }
        steps
    }

    /// The state once a chunk of so many samples is counted.
    pub open spec fn with_chunk(self, samples: nat) -> SessionState {
        SessionState {
            samples_captured: wrapped(self.samples_captured + samples),
            chunks_processed: wrapped(self.chunks_processed + 1),
            ..self
        }
    }

    /// Counts a chunk of so many samples.
    pub fn count_chunk(&mut self, samples: usize)
        ensures
            *final(self) == old(self).with_chunk(samples as nat),
    {
        self.samples_captured = self.samples_captured.wrapping_add(samples as u64);
        self.chunks_processed = self.chunks_processed.wrapping_add(1);
    }
}

/// How many milliseconds so many samples last, in 64 bits; with no frames in a second they
/// last no time that could be told.
pub open spec fn dropped_ms(samples: nat, sample_rate: nat, channels: nat) -> nat {
    if sample_rate * channels == 0 {
        0
    } else {
        samples * 1000 / (sample_rate * channels)
    }
}

impl SessionState {
    /// Takes in that samples were dropped because a ring buffer was full: counts the
    /// overflow and gives the event that reports it. Where none were dropped, nothing
    /// changes and nothing is reported.
    pub fn note_overflow(&mut self, dropped: u64, sample_rate: u32, channels: u16) -> (r: Option<
        StreamEvent,
    >)
        ensures
            dropped == 0 ==> r is None && *final(self) == *old(self),
            dropped > 0 ==> {
                &&& *final(self) == (SessionState {
                    buffer_overflows: wrapped(old(self).buffer_overflows + 1),
                    ..*old(self)
                })
                &&& r matches Some(event) && event@ == (EventModel::BufferOverflow {
                    dropped_ms: dropped_ms(dropped as nat, sample_rate as nat, channels as nat)
                        % 0x1_0000_0000_0000_0000,
                })
            },
    {
        if dropped == 0 {
            return None;
        }
        self.buffer_overflows = self.buffer_overflows.wrapping_add(1);
        proof {
            let (rate, count) = (sample_rate as int, channels as int);
            assert(0 <= rate * count <= 0xffff_ffff * 0xffff) by (nonlinear_arith)
                requires
                    0 <= rate <= 0xffff_ffff,
                    0 <= count <= 0xffff,
            ;
        }
        let per_second: u128 = sample_rate as u128 * channels as u128;
        let ms: u128 = if per_second == 0 {
            0
        } else {
            dropped as u128 * 1000 / per_second
        };
        Some(
            StreamEvent::BufferOverflow { dropped_ms: (ms % 0x1_0000_0000_0000_0000) as u64 },
        )
    }
}

/// What is reported of the sources when their session has stopped.
pub open spec fn stopped_models(ids: Seq<SourceId>) -> Seq<EventModel> {
    ids.map_values(
        |id: SourceId|
            EventModel::SourceStopped { source_id: id@, reason: "session stopped"@ },
    )
}

/// The events that report the sources when their session has stopped.
pub fn source_stopped_events(ids: &Vec<SourceId>) -> (r: Vec<StreamEvent>)
    ensures
        event::event_models(r@) == stopped_models(ids@),
{
    let mut r: Vec<StreamEvent> = Vec::new();
    let mut i: usize = 0;
    while i < ids.len()
        invariant
            i <= ids.len(),
            event::event_models(r@) == stopped_models(ids@).take(i as int),
        decreases ids.len() - i,
    {
        let ghost had = r@;
        let next = StreamEvent::SourceStopped {
            source_id: ids[i].clone(),
            reason: String::from_str("session stopped"),
        };
        r.push(next);
        proof {
            assert(event::event_models(r@) =~= event::event_models(had).push(next@));
            assert(stopped_models(ids@).take(i + 1) =~= stopped_models(ids@).take(i as int).push(
                next@,
            ));
        }
        i = i + 1;
    }
    assert(stopped_models(ids@).take(i as int) =~= stopped_models(ids@));
    r
}

/// Stopping a session that has been stopped does nothing.
pub proof fn lemma_stop_once(
    state: SessionState,
    captures: nat,
    router: bool,
    later_captures: nat,
    later_router: bool,
)
    ensures
        stopped(stopped(state, captures, router).0, later_captures, later_router) == (
            stopped(state, captures, router).0,
            Seq::<ShutdownStep>::empty(),
        ),
{
}

/// A shutdown drains before it stops the sinks: every capture task is waited for before the
/// router is told to stop, the router is told once, it is waited for after that, and the
/// report comes last.
pub proof fn lemma_stop_drains_first(captures: nat, router: bool, i: int, j: int)
    requires
        0 <= i < stop_steps(captures, router).len(),
        0 <= j < stop_steps(captures, router).len(),
    ensures
        stop_steps(captures, router)[i] is StopStreams <==> i == 0,
        stop_steps(captures, router)[i] is AwaitCapture <==> 1 <= i <= captures,
        stop_steps(captures, router)[i] is SendStop <==> i == captures + 1,
        stop_steps(captures, router)[i] is AwaitRouter <==> router && i == captures + 2,
        stop_steps(captures, router)[i] is ReportStopped <==> i == stop_steps(
            captures,
            router,
        ).len() - 1,
        stop_steps(captures, router)[i] is AwaitCapture && stop_steps(
            captures,
            router,
        )[j] is SendStop ==> i < j,
        stop_steps(captures, router)[i] is SendStop && stop_steps(
            captures,
            router,
        )[j] is AwaitRouter ==> i < j,
{
}

/// What is done to stop a running session, step by step: the streams stop; each capture task is
/// waited for, at most five seconds; the router is told to stop, with a tenth of a second for
/// room; it is waited for, at most five seconds; and the end is reported.
pub proof fn lemma_stop_step_by_step(state: SessionState, captures: nat, router: bool, i: int)
    requires
        state.running,
        captures <= usize::MAX,
    ensures
        ({
            let (after, steps) = stopped(state, captures, router);
            &&& after == (SessionState { running: false, ..state })
            &&& steps.len() == captures + if router {
                4nat
            } else {
                3nat
            }
            &&& steps[0] is StopStreams
            &&& 0 <= i < captures ==> (steps[1 + i] matches ShutdownStep::AwaitCapture {
                index,
                timeout_ms,
            } && index == i && timeout_ms == 5_000)
            &&& steps[captures + 1int] == (ShutdownStep::SendStop { timeout_ms: 100 })
            &&& router ==> steps[captures + 2int] == (ShutdownStep::AwaitRouter { timeout_ms: 5_000 })
            &&& steps.last() is ReportStopped
        }),
{
}

/// Nothing is left to do for a session that does not run.
pub proof fn lemma_stopped_stays_stopped(state: SessionState, captures: nat, router: bool)
    requires
        !state.running,
    ensures
        stopped(state, captures, router) == (state, Seq::<ShutdownStep>::empty()),
{
}

/// A chunk adds its samples to those captured and one to the chunks, until a counter starts
/// again at zero; what else is counted stays.
pub proof fn lemma_chunk_adds(state: SessionState, samples: nat)
    ensures
        ({
            let after = state.with_chunk(samples);
            &&& (after.samples_captured - (state.samples_captured + samples)) % 0x1_0000_0000_0000_0000
                == 0
            &&& state.samples_captured + samples <= u64::MAX ==> after.samples_captured
                == state.samples_captured + samples
            &&& state.chunks_processed < u64::MAX ==> after.chunks_processed
                == state.chunks_processed + 1
            &&& state.chunks_processed == u64::MAX ==> after.chunks_processed == 0
            &&& after.running == state.running
            &&& after.buffer_overflows == state.buffer_overflows
            &&& after.audio_gaps_detected == state.audio_gaps_detected
            &&& after.total_gap_duration_ms == state.total_gap_duration_ms
            &&& after.clipped_samples == state.clipped_samples
        }),
{
}

/// A counter goes on by what is added until it would exceed 64 bits.
pub proof fn lemma_counter_goes_on(count: u64, more: nat)
    ensures
        count + more <= u64::MAX ==> wrapped(count + more) == count + more,
        count == u64::MAX ==> wrapped(count + 1) == 0,
{
}

/// Dropped samples last as many whole milliseconds as fit: the samples of that time are no
/// more than were dropped, and those of one millisecond more would be.
pub proof fn lemma_dropped_time(samples: nat, sample_rate: nat, channels: nat)
    ensures
        sample_rate > 0 && channels > 0 ==> {
            let ms = dropped_ms(samples, sample_rate, channels);
            ms * (sample_rate * channels) <= 1000 * samples < (ms + 1) * (sample_rate * channels)
        },
        sample_rate == 0 || channels == 0 ==> dropped_ms(samples, sample_rate, channels) == 0,
{
    let per = sample_rate * channels;
    if sample_rate > 0 && channels > 0 {
        assert(per > 0) by (nonlinear_arith)
            requires
                sample_rate > 0,
                channels > 0,
                per == sample_rate * channels,
        ;
        let n = samples * 1000;
        vstd::arithmetic::div_mod::lemma_fundamental_div_mod(n as int, per as int);
        let q = n / per;
        assert(q * per == per * q && (q + 1) * per == per * q + per) by (nonlinear_arith);
    } else {
        assert(per == 0) by (nonlinear_arith)
            requires
                sample_rate == 0 || channels == 0,
                per == sample_rate * channels,
        ;
    }
}

/// Each source is reported as stopped, once and in order, with the same reason.
pub proof fn lemma_each_source_stopped(ids: Seq<SourceId>, i: int)
    requires
        0 <= i < ids.len(),
    ensures
        stopped_models(ids).len() == ids.len(),
        stopped_models(ids)[i] matches EventModel::SourceStopped { source_id, reason } && source_id
            == ids[i]@ && reason == "session stopped"@,
{
}

} // verus!
