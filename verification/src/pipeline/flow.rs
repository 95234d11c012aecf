//! Detection of audio that stops and resumes.
use crate::event::EventModel;
use crate::source::source_id;
use crate::source::source_id::id_or_default;
use crate::source::SourceId;
use crate::time;
use crate::time::{Clock, Duration};
use crate::StreamEvent;
use std::time::Instant;
use vstd::prelude::*;

verus! {

/// Audio counts as stopped after more than this time without a sample that is not zero.
pub const SILENCE_THRESHOLD_NANOS: u128 = 500_000_000;

/// What a flow monitor has seen.
pub ghost struct FlowModel {
    /// Whether audio is taken to be flowing.
    pub flowing: bool,
    /// When audio was last heard, in nanoseconds since the monitor was made.
    pub last_audio: nat,
    /// The moment at which the monitor was made, from which it counts time.
    pub epoch: Instant,
}

impl FlowModel {
    /// How long there has been no audio, in nanoseconds.
    pub open spec fn silence(self, now: nat) -> nat {
        if now < self.last_audio {
            0
        } else {
            (now - self.last_audio) as nat
        }
    }
}

/// What an observation at a time changes, and what is reported.
pub open spec fn flow_step(source: Seq<char>, flow: FlowModel, has_audio: bool, now: nat) -> (
    FlowModel,
    Option<EventModel>,
) {
    if has_audio {
        (
            FlowModel { flowing: true, last_audio: now, ..flow },
            if flow.flowing {
                None
            } else {
                Some(EventModel::AudioFlowResumed { source_id: source })
            },
        )
    } else if flow.flowing && flow.silence(now) > SILENCE_THRESHOLD_NANOS {
        (
            FlowModel { flowing: false, ..flow },
            Some(
                EventModel::AudioFlowStopped {
                    source_id: source,
                    silent_duration_ms: (flow.silence(now) / 1_000_000) % 0x1_0000_0000_0000_0000,
                },
            ),
        )
    } else {
        (flow, None)
    }
}

/// What an optional event says.
pub open spec fn optional_model(event: Option<StreamEvent>) -> Option<EventModel> {
    match event {
        Some(event) => Some(event@),
        None => None,
    }
}

/// Monitors audio flow and detects when audio stops/resumes.
pub struct FlowMonitor {
    clock: Clock,
    last_audio_time: Duration,
    is_flowing: bool,
    source_id: Option<SourceId>,
}

impl View for FlowMonitor {
    type V = FlowModel;

    closed spec fn view(&self) -> FlowModel {
        FlowModel {
            flowing: self.is_flowing,
            last_audio: self.last_audio_time@,
            epoch: self.clock.start(),
        }
    }
}

impl FlowMonitor {
    /// The name under which events are reported.
    pub closed spec fn source(self) -> Seq<char> {
        source_id::text_or_default(self.source_id)
    }

    /// Creates a monitor that takes audio to be flowing.
    ///
    /// It counts time from now.
    pub fn new(source_id: Option<SourceId>) -> (r: Self)
        ensures
            r@ == (FlowModel { flowing: true, last_audio: 0, epoch: r@.epoch }),
            time::is_now(r@.epoch),
            r.source() == source_id::text_or_default(source_id),
    {
        FlowMonitor {
            clock: Clock::new(),
            last_audio_time: Duration::zero(),
            is_flowing: true,
            source_id,
        }
    }

    /// Whether audio is taken to be flowing.
    pub fn is_flowing(&self) -> (r: bool)
        ensures
            r == self@.flowing,
    {
        self.is_flowing
    }

    /// Takes in whether there is audio at a time.
    ///
    /// Returns an event to emit if the state changed.
    pub fn observe(&mut self, has_audio: bool, now: Duration) -> (r: Option<StreamEvent>)
        ensures
            final(self).source() == old(self).source(),
            (final(self)@, optional_model(r)) == flow_step(
                old(self).source(),
                old(self)@,
                has_audio,
                now@,
            ),
    {
        if has_audio {
            let was_stopped: bool = !self.is_flowing;
            self.last_audio_time = now;
            self.is_flowing = true;
            if was_stopped {
                return Some(
                    StreamEvent::AudioFlowResumed { source_id: id_or_default(&self.source_id) },
                );
            }
        } else {
            let silence = now.saturating_sub(&self.last_audio_time);
            if self.is_flowing && silence.as_nanos() > SILENCE_THRESHOLD_NANOS {
                self.is_flowing = false;
                return Some(
                    StreamEvent::AudioFlowStopped {
                        source_id: id_or_default(&self.source_id),
                        silent_duration_ms: (silence.as_millis() % 0x1_0000_0000_0000_0000) as u64,
                    },
                );
            }
        }
        None
    }

    /// Updates flow state based on whether samples contain non-zero audio.
    ///
    /// The time is what the clock says has passed since the monitor was made.
    pub fn update(&mut self, has_audio: bool) -> (r: Option<StreamEvent>)
        ensures
            final(self).source() == old(self).source(),
            exists|now: nat|
                time::may_have_passed(old(self)@.epoch, now) && (final(self)@, optional_model(r))
                    == #[trigger] flow_step(old(self).source(), old(self)@, has_audio, now),
    {
        let ghost (source, flow) = (self.source(), self@);
        let now = self.clock.now();
        let r = self.observe(has_audio, now);
        assert((self@, optional_model(r)) == flow_step(source, flow, has_audio, now@));
        r
    }
}

/// Audio stops and resumes in turn: after a report that it has stopped, silence is not
/// reported again, and after a report that it has resumed, audio is not.
pub proof fn lemma_flow_alternates(
    source: Seq<char>,
    flow: FlowModel,
    has_audio: bool,
    now: nat,
    later: nat,
)
    requires
        flow_step(source, flow, has_audio, now).1 is Some,
    ensures
        flow_step(source, flow, has_audio, now).0.flowing == has_audio,
        flow_step(source, flow_step(source, flow, has_audio, now).0, has_audio, later).1 is None,
{
}

/// A monitor goes on counting from the moment at which it was made.
pub proof fn lemma_epoch_kept(source: Seq<char>, flow: FlowModel, has_audio: bool, now: nat)
    ensures
        flow_step(source, flow, has_audio, now).0.epoch == flow.epoch,
{
}

/// Audio begins the wait for silence anew: until the threshold has passed since it was
/// heard, nothing is reported.
pub proof fn lemma_short_silence_unreported(
    source: Seq<char>,
    flow: FlowModel,
    heard: nat,
    now: nat,
)
    requires
        now <= heard + SILENCE_THRESHOLD_NANOS,
    ensures
        flow_step(source, flow_step(source, flow, true, heard).0, false, now) == (
            flow_step(source, flow, true, heard).0,
            None::<EventModel>,
        ),
{
}

/// Audio that has flowed counts as stopped once there has been silence for longer than the
/// threshold.
pub proof fn lemma_long_silence_reported(
    source: Seq<char>,
    flow: FlowModel,
    heard: nat,
    now: nat,
)
    requires
        now > heard + SILENCE_THRESHOLD_NANOS,
    ensures
        !flow_step(source, flow_step(source, flow, true, heard).0, false, now).0.flowing,
        flow_step(source, flow_step(source, flow, true, heard).0, false, now).1 is Some,
{
}

/// A monitor that has made observations, each with its time, and what it has reported.
pub open spec fn flow_run(source: Seq<char>, flow: FlowModel, seen: Seq<(bool, nat)>) -> (
    FlowModel,
    Seq<EventModel>,
)
    decreases seen.len(),
{
    if seen.len() == 0 {
        (flow, Seq::empty())
    } else {
        let (before, events) = flow_run(source, flow, seen.drop_last());
        let (after, event) = flow_step(source, before, seen.last().0, seen.last().1);
        (
            after,
            match event {
                Some(event) => events.push(event),
                None => events,
            },
        )
    }
}

/// When audio was last heard after some observations.
pub open spec fn last_heard(start: nat, seen: Seq<(bool, nat)>) -> nat
    decreases seen.len(),
{
    if seen.len() == 0 {
        start
    } else if seen.last().0 {
        seen.last().1
    } else {
        last_heard(start, seen.drop_last())
    }
}

/// Whatever a monitor observes from a time on at which audio flows, its reports alternate,
/// beginning with one that audio has stopped; whether audio counts as flowing is told by the
/// last report; and silence is counted from when audio was last heard.
pub proof fn lemma_reports_alternate(source: Seq<char>, flow: FlowModel, seen: Seq<(bool, nat)>)
    requires
        flow.flowing,
    ensures
        forall|i: int|
            #![trigger flow_run(source, flow, seen).1[i]]
            0 <= i < flow_run(source, flow, seen).1.len() ==> if i % 2 == 0 {
                flow_run(source, flow, seen).1[i] is AudioFlowStopped
            } else {
                flow_run(source, flow, seen).1[i] is AudioFlowResumed
            },
        flow_run(source, flow, seen).0.flowing <==> flow_run(source, flow, seen).1.len() % 2 == 0,
        flow_run(source, flow, seen).0.last_audio == last_heard(flow.last_audio, seen),
        flow_run(source, flow, seen).0.epoch == flow.epoch,
    decreases seen.len(),
{
    if seen.len() > 0 {
        lemma_reports_alternate(source, flow, seen.drop_last());
    }
}

/// Silence is reported once it has lasted for more than half a second, and not before; the
/// report says for how many whole milliseconds, and names the source. When audio was last
/// heard is not changed by it.
pub proof fn lemma_silence_report(source: Seq<char>, flow: FlowModel, now: nat)
    requires
        flow.last_audio <= now,
        now - flow.last_audio < 18_446_744_073_709_551_616_000_000,
    ensures
        ({
            let (after, event) = flow_step(source, flow, false, now);
            let silent = now - flow.last_audio;
            &&& after.last_audio == flow.last_audio
            &&& after.epoch == flow.epoch
            &&& event is Some <==> flow.flowing && silent > 500_000_000
            &&& event matches Some(event) ==> !after.flowing && (event matches
                EventModel::AudioFlowStopped { source_id, silent_duration_ms } && source_id
                == source && silent_duration_ms * 1_000_000 <= silent < (silent_duration_ms + 1)
                * 1_000_000)
            &&& event is None ==> after == flow
        }),
{
}

/// Audio sets the time at which it was last heard to now, and is reported where it had been
/// found to have stopped, and only there.
pub proof fn lemma_audio_report(source: Seq<char>, flow: FlowModel, now: nat)
    ensures
        ({
            let (after, event) = flow_step(source, flow, true, now);
            &&& after == (FlowModel { flowing: true, last_audio: now, epoch: flow.epoch })
            &&& event == if flow.flowing {
                None
            } else {
                Some(EventModel::AudioFlowResumed { source_id: source })
            }
        }),
{
}

} // verus!
