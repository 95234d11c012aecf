//! Native system audio capture: the part between the system's callback and the pipeline.
use crate::ring;
use crate::ring::{SampleConsumer, SampleProducer, SampleRing};
use crate::source::system_audio;
use crate::source::system_audio::{SystemAudioEvent, SystemEventModel};
use crate::text;
use crate::text::{join2, signed_decimal};
use crate::StreamAudioError;
use vstd::prelude::*;
use vstd::string::*;

verus! {

/// Ring buffer duration in seconds.
pub const BUFFER_DURATION_SECS: usize = 30;

/// Error codes of the native library.
#[derive(Debug, Clone, Copy, PartialEq, Eq, Structural)]
pub enum SCKError {
    /// Success.
    Success,
    /// The screen may not be recorded.
    PermissionDenied,
    /// There is no display.
    NoDisplays,
    /// Capture failed.
    CaptureFailed,
    /// Capture was started before.
    AlreadyRunning,
    /// Capture was not started.
    NotRunning,
    /// There is no such session.
    InvalidSession,
}

impl SCKError {
    /// What a code means; one that is not known means failure.
    pub open spec fn of_code(code: i32) -> SCKError {
        if code == 0 {
            SCKError::Success
        } else if code == 1 {
            SCKError::PermissionDenied
        } else if code == 2 {
            SCKError::NoDisplays
        } else if code == 4 {
            SCKError::AlreadyRunning
        } else if code == 5 {
            SCKError::NotRunning
        } else if code == 6 {
            SCKError::InvalidSession
        } else {
            SCKError::CaptureFailed
        }
    }

    /// Converts a code of the native library.
    pub fn from_i32(value: i32) -> (r: Self)
        ensures
            r == SCKError::of_code(value),
    {
        match value {
            0 => SCKError::Success,
            1 => SCKError::PermissionDenied,
            2 => SCKError::NoDisplays,
            3 => SCKError::CaptureFailed,
            4 => SCKError::AlreadyRunning,
            5 => SCKError::NotRunning,
            6 => SCKError::InvalidSession,
            _ => SCKError::CaptureFailed,
        }
    }
}

/// Whether this is what a code and a message mean.
pub open spec fn start_outcome(
    code: i32,
    message: Option<String>,
    r: Result<(), StreamAudioError>,
) -> bool {
    match SCKError::of_code(code) {
        SCKError::Success => r is Ok,
        SCKError::PermissionDenied => r is Err && r->Err_0 is SystemAudioPermissionDenied,
        SCKError::NoDisplays => r is Err && system_audio::unavailable(
            r->Err_0,
            "No displays available"@,
        ),
        _ => r is Err && system_audio::failed(
            r->Err_0,
            "start capture"@,
            match message {
                Some(message) => message@,
                None => "Capture failed with error "@ + text::signed_text(code as int),
            },
        ),
    }
}

/// What is made of the code that starting capture gave.
///
/// `message` is what the native library says of its last error.
pub fn start_result(code: i32, message: Option<String>) -> (r: Result<(), StreamAudioError>)
    ensures
        start_outcome(code, message, r),
{
    match SCKError::from_i32(code) {
        SCKError::Success => Ok(()),
        SCKError::PermissionDenied => Err(StreamAudioError::SystemAudioPermissionDenied),
        SCKError::NoDisplays => Err(
            StreamAudioError::SystemAudioUnavailable {
                reason: String::from_str("No displays available"),
            },
        ),
        _ => Err(
            StreamAudioError::SystemAudioRuntimeFailure {
                context: String::from_str("start capture"),
                cause: match message {
                    Some(message) => message,
                    None => join2("Capture failed with error ", signed_decimal(code).as_str()),
                },
            },
        ),
    }
}

/// Calculates the ring buffer capacity for a format.
pub fn buffer_capacity(sample_rate: u32, channels: u16) -> (r: usize)
    requires
        sample_rate * channels * 30 <= usize::MAX,
    ensures
        r == sample_rate * channels * 30,
{
    proof {
        let (a, b) = (sample_rate as int, channels as int);
        assert(0 <= a * b <= a * b * 30) by (nonlinear_arith)
            requires
                a >= 0,
                b >= 0,
        ;
    }
    sample_rate as usize * channels as usize * BUFFER_DURATION_SECS
}

/// What the system's callback works on.
pub struct CallbackContext {
    producer: Option<SampleProducer>,
    overflow_count: u64,
    is_active: bool,
}

impl CallbackContext {
    /// The end into which samples go, once capture has been started.
    pub closed spec fn target(self) -> Option<SampleProducer> {
        self.producer
    }

    /// Samples that were dropped since somebody asked.
    pub closed spec fn dropped(self) -> u64 {
        self.overflow_count
    }

    /// Whether samples are wanted.
    pub closed spec fn active(self) -> bool {
        self.is_active
    }

    /// A context for capture that has not been started.
    pub fn new() -> (r: Self)
        ensures
            r.target() is None,
            r.dropped() == 0,
            !r.active(),
    {
        CallbackContext { producer: None, overflow_count: 0, is_active: false }
    }

    /// Makes a fresh ring buffer for capture in a format and begins to take samples.
    pub fn activate(&mut self, sample_rate: u32, channels: u16) -> (r: SampleConsumer)
        requires
            0 < sample_rate * channels * 30,
            2 * (sample_rate * channels * 30) <= isize::MAX,
        ensures
            ring::consumer_contents(r) == Seq::<i16>::empty(),
            final(self).active(),
            final(self).dropped() == old(self).dropped(),
            final(self).target() is Some,
            ring::new_ends(final(self).target()->0, r),
            ring::producer_contents(final(self).target()->0) == Seq::<i16>::empty(),
            ring::producer_capacity(final(self).target()->0) == sample_rate * channels * 30,
    {
        let (producer, consumer) = SampleRing::new(buffer_capacity(sample_rate, channels)).split();
        proof {
            assert(ring::producer_contents(producer) =~= Seq::empty());
            assert(ring::consumer_contents(consumer) =~= Seq::empty());
        }
        self.producer = Some(producer);
        self.is_active = true;
        consumer
    }

    /// No longer takes samples.
    pub fn deactivate(&mut self)
        ensures
            !final(self).active(),
            final(self).dropped() == old(self).dropped(),
            final(self).target() == old(self).target(),
    {
        self.is_active = false;
    }

    /// Takes samples from the system; those that the buffer has no room for are counted.
    ///
    /// Before capture has started, and after it has ended, they are ignored.
    pub fn audio_callback(&mut self, samples: &[i16])
        ensures
            after_callback(*old(self), samples@, *final(self)),
    {
        if !self.is_active {
            return;
        }
        let ghost before = *self;
        let mut slot: Option<SampleProducer> = None;
        std::mem::swap(&mut slot, &mut self.producer);
        match slot {
            None => {
                self.producer = None;
                assert(*self == before);
            },
            Some(mut producer) => {
                let overflow: u64 = producer.push_all(samples);
                if overflow > 0 {
                    self.overflow_count = self.overflow_count.wrapping_add(overflow);
                }
                self.producer = Some(producer);
                assert(ring::took_samples(
                    before.target()->0,
                    samples@,
                    self.target()->0,
                    overflow as int,
                ));
            },
        }
    }

    /// Returns and drains any pending events since the last call.
    pub fn poll_events(&mut self) -> (r: Vec<SystemAudioEvent>)
        ensures
            system_audio::system_event_models(r@) == pending_events(*old(self)),
            final(self).dropped() == 0,
            final(self).active() == old(self).active(),
            final(self).target() == old(self).target(),
    {
        let overflow: u64 = self.overflow_count;
        self.overflow_count = 0;
        let mut events: Vec<SystemAudioEvent> = Vec::new();
        if overflow > 0 {
            events.push(SystemAudioEvent::Overflow { dropped_frames: overflow });
            assert(system_audio::system_event_models(events@) =~= seq![
                SystemEventModel::Overflow { dropped_frames: overflow as nat },
            ]);
        } else {
            assert(system_audio::system_event_models(events@) =~= Seq::empty());
        }
        events
    }
}

/// Whether a callback may leave the context so.
pub open spec fn after_callback(
    before: CallbackContext,
    samples: Seq<i16>,
    after: CallbackContext,
) -> bool {
    if before.active() && before.target() is Some {
        &&& after.active()
        &&& after.target() is Some
        &&& exists|overflow: int|
            after.dropped() == (before.dropped() + overflow) % 0x1_0000_0000_0000_0000
                && #[trigger] ring::took_samples(
                before.target()->0,
                samples,
                after.target()->0,
                overflow,
            )
    } else {
        after == before
    }
}

/// What is reported when somebody asks: how many samples were dropped, if any.
pub open spec fn pending_events(context: CallbackContext) -> Seq<SystemEventModel> {
    if context.dropped() > 0 {
        seq![SystemEventModel::Overflow { dropped_frames: context.dropped() as nat }]
    } else {
        Seq::empty()
    }
}

/// Native backend for system audio capture.
pub struct SCKNativeBackend {
    context: CallbackContext,
    sample_rate: u32,
    channels: u16,
}

impl SCKNativeBackend {
    /// What the system's callback works on.
    pub closed spec fn callback(self) -> CallbackContext {
        self.context
    }

    /// Rate and channels.
    pub closed spec fn native(self) -> (u32, u16) {
        (self.sample_rate, self.channels)
    }

    /// Creates a backend, given whether the native library could create a session and the
    /// format in which it delivers.
    pub fn new(session_created: bool, sample_rate: u32, channels: u16) -> (r: Result<
        Self,
        StreamAudioError,
    >)
        ensures
            match r {
                Ok(backend) => session_created && backend.native() == (sample_rate, channels)
                    && backend.callback().target() is None && backend.callback().dropped() == 0
                    && !backend.callback().active(),
                Err(error) => !session_created && system_audio::unavailable(
                    error,
                    "Failed to create SCK session (macOS 13+ required)"@,
                ),
            },
    {
        if !session_created {
            return Err(
                StreamAudioError::SystemAudioUnavailable {
                    reason: String::from_str("Failed to create SCK session (macOS 13+ required)"),
                },
            );
        }
        Ok(SCKNativeBackend { context: CallbackContext::new(), sample_rate, channels })
    }

    /// Tells whether a capture can be started: its ring buffer can be made.
    pub fn can_start_capture(&self) -> (r: bool)
        ensures
            r == (0 < self.native().0 * self.native().1 * 30 && 2 * (self.native().0
                * self.native().1 * 30) <= isize::MAX),
    {
        proof {
            let (rate, channels) = (self.sample_rate as int, self.channels as int);
            assert(0 <= rate * channels <= 0xffff_ffff * 0xffff) by (nonlinear_arith)
                requires
                    0 <= rate <= 0xffff_ffff,
                    0 <= channels <= 0xffff,
            ;
        }
        ring::can_make_ring(self.sample_rate as u128 * self.channels as u128 * 30)
    }

    /// Makes the ring buffer of a capture and begins to take samples; the native library is
    /// to be started next.
    pub fn start_capture(&mut self) -> (r: SampleConsumer)
        requires
            0 < old(self).native().0 * old(self).native().1 * 30,
            2 * (old(self).native().0 * old(self).native().1 * 30) <= isize::MAX,
        ensures
            ring::consumer_contents(r) == Seq::<i16>::empty(),
            final(self).native() == old(self).native(),
            final(self).callback().active(),
            final(self).callback().dropped() == old(self).callback().dropped(),
            final(self).callback().target() is Some,
            ring::new_ends(final(self).callback().target()->0, r),
            ring::producer_contents(final(self).callback().target()->0) == Seq::<i16>::empty(),
            ring::producer_capacity(final(self).callback().target()->0) == old(self).native().0
                * old(self).native().1 * 30,
    {
        self.context.activate(self.sample_rate, self.channels)
    }

    /// What is made of the code that starting the native library gave.
    ///
    /// `message` is what it says of its last error. Where it failed, no samples are taken
    /// any more.
    pub fn capture_started(&mut self, code: i32, message: Option<String>) -> (r: Result<
        (),
        StreamAudioError,
    >)
        ensures
            start_outcome(code, message, r),
            final(self).native() == old(self).native(),
            final(self).callback().active() == (old(self).callback().active() && r is Ok),
            final(self).callback().dropped() == old(self).callback().dropped(),
            final(self).callback().target() == old(self).callback().target(),
    {
        let r = start_result(code, message);
        if r.is_err() {
            self.context.deactivate();
        }
        r
    }

    /// Ends the capture: what the system still delivers is ignored.
    pub fn close(&mut self)
        ensures
            !final(self).callback().active(),
            final(self).native() == old(self).native(),
            final(self).callback().dropped() == old(self).callback().dropped(),
            final(self).callback().target() == old(self).callback().target(),
    {
        self.context.deactivate();
    }

    /// Takes samples from the system; see [`CallbackContext::audio_callback`].
    pub fn audio_callback(&mut self, samples: &[i16])
        ensures
            final(self).native() == old(self).native(),
            after_callback(old(self).callback(), samples@, final(self).callback()),
    {
        self.context.audio_callback(samples);
    }

    /// Returns the native sample rate and channel count.
    pub fn native_config(&self) -> (r: (u32, u16))
        ensures
            r == self.native(),
    {
        (self.sample_rate, self.channels)
    }

    /// Backend name for logging/debugging.
    pub fn name(&self) -> (r: &'static str)
        ensures
            r@ == "SCKNative"@,
    {
        "SCKNative"
    }

    /// Returns and drains any pending events since the last call.
    pub fn poll_events(&mut self) -> (r: Vec<SystemAudioEvent>)
        ensures
            system_audio::system_event_models(r@) == pending_events(old(self).callback()),
            final(self).native() == old(self).native(),
            final(self).callback().dropped() == 0,
            final(self).callback().active() == old(self).callback().active(),
            final(self).callback().target() == old(self).callback().target(),
    {
        self.context.poll_events()
    }
}

/// Capture has started exactly where the native library says so with a zero; one means that
/// the permission is missing, two that there is no display, and anything else is a failure,
/// with the library's own message where there is one.
pub proof fn lemma_codes_told_apart(
    code: i32,
    message: Option<String>,
    r: Result<(), StreamAudioError>,
)
    requires
        start_outcome(code, message, r),
    ensures
        r is Ok <==> code == 0,
        code == 1 <==> r is Err && r->Err_0 is SystemAudioPermissionDenied,
        code == 2 <==> r is Err && r->Err_0 is SystemAudioUnavailable,
        code != 0 && code != 1 && code != 2 ==> (r matches Err(error) && error matches
            StreamAudioError::SystemAudioRuntimeFailure { cause, .. } && (message matches Some(said)
            ==> cause@ == said@)),
{
}

/// Dropped samples are reported with their whole number, and only where there are any.
pub proof fn lemma_pending_tells_all(context: CallbackContext)
    ensures
        pending_events(context).len() == 0 <==> context.dropped() == 0,
        forall|i: int|
            0 <= i < pending_events(context).len() ==> (#[trigger] pending_events(context)[i])
                == (SystemEventModel::Overflow { dropped_frames: context.dropped() as nat }),
        pending_events(context).len() <= 1,
{
}

} // verus!
