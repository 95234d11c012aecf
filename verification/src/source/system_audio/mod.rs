//! System audio capture (speaker output).
//!
//! What the system does is up to its own libraries; here stands what is made of it.
use crate::platform::permissions::ScreenCapturePermission;
use crate::StreamAudioError;
use vstd::prelude::*;
use vstd::string::*;

pub mod cpal_loopback;
pub mod mock;
pub mod sck_native;
pub mod screencapturekit;
pub mod test_support;

verus! {

/// Default sample rate for system audio capture (48kHz).
pub const DEFAULT_SYSTEM_AUDIO_SAMPLE_RATE: u32 = 48000;

/// Default channel count for system audio capture (stereo).
pub const DEFAULT_SYSTEM_AUDIO_CHANNELS: u16 = 2;

/// Runtime events from system audio capture.
///
/// They don't prevent capture but may affect audio quality or availability.
#[derive(Debug)]
pub enum SystemAudioEvent {
    /// Default audio output device changed.
    OutputDeviceChanged,
    /// Capture may be degraded due to OS restrictions or errors.
    CaptureDegraded {
        /// Description of the degradation.
        reason: String,
    },
    /// Ring buffer overrun: some audio frames were dropped.
    Overflow {
        /// Number of frames dropped.
        dropped_frames: u64,
    },
}

/// What a runtime event says.
pub ghost enum SystemEventModel {
    /// See [`SystemAudioEvent::OutputDeviceChanged`].
    OutputDeviceChanged,
    /// See [`SystemAudioEvent::CaptureDegraded`].
    CaptureDegraded { reason: Seq<char> },
    /// See [`SystemAudioEvent::Overflow`].
    Overflow { dropped_frames: nat },
}

impl View for SystemAudioEvent {
    type V = SystemEventModel;

    open spec fn view(&self) -> SystemEventModel {
        match *self {
            SystemAudioEvent::OutputDeviceChanged => SystemEventModel::OutputDeviceChanged,
            SystemAudioEvent::CaptureDegraded { reason } => SystemEventModel::CaptureDegraded {
                reason: reason@,
            },
            SystemAudioEvent::Overflow { dropped_frames } => SystemEventModel::Overflow {
                dropped_frames: dropped_frames as nat,
            },
        }
    }
}

impl Clone for SystemAudioEvent {
    fn clone(&self) -> (r: Self)
        ensures
            r == *self,
    {
        match self {
            SystemAudioEvent::OutputDeviceChanged => SystemAudioEvent::OutputDeviceChanged,
            SystemAudioEvent::CaptureDegraded { reason } => SystemAudioEvent::CaptureDegraded {
                reason: reason.clone(),
            },
            SystemAudioEvent::Overflow { dropped_frames } => SystemAudioEvent::Overflow {
                dropped_frames: *dropped_frames,
            },
        }
    }
}

/// What some runtime events say.
pub open spec fn system_event_models(events: Seq<SystemAudioEvent>) -> Seq<SystemEventModel> {
    events.map_values(|e: SystemAudioEvent| e@)
}

/// Runtime events that wait to be asked for.
#[derive(Debug)]
pub struct EventQueue {
    events: Vec<SystemAudioEvent>,
}

impl View for EventQueue {
    type V = Seq<SystemAudioEvent>;

    closed spec fn view(&self) -> Seq<SystemAudioEvent> {
        self.events@
    }
}

impl EventQueue {
    /// An empty queue.
    pub fn new() -> (r: Self)
        ensures
            r@ == Seq::<SystemAudioEvent>::empty(),
    {
        EventQueue { events: Vec::new() }
    }

    /// Adds an event at the end.
    pub fn push(&mut self, event: SystemAudioEvent)
        ensures
            final(self)@ == old(self)@.push(event),
    {
        self.events.push(event);
    }

    /// Takes all events, in the order in which they were added.
    pub fn drain(&mut self) -> (r: Vec<SystemAudioEvent>)
        ensures
            r@ == old(self)@,
            final(self)@ == Seq::<SystemAudioEvent>::empty(),
    {
        let mut taken: Vec<SystemAudioEvent> = Vec::new();
        std::mem::swap(&mut taken, &mut self.events);
        taken
    }
}

/// What a build offers for system audio.
#[derive(Debug, Clone, Copy, PartialEq, Eq, Structural)]
pub enum SystemAudioSupport {
    /// macOS, with the native backend.
    Native,
    /// macOS, without the native backend.
    FeatureDisabled,
    /// Another operating system.
    OtherPlatform,
}

/// Decides whether a system audio backend can be created.
///
/// Where the native backend is built in, permission to record the screen is needed;
/// elsewhere there is none.
pub fn create_system_audio_backend(
    support: SystemAudioSupport,
    permission: ScreenCapturePermission,
) -> (r: Result<(), StreamAudioError>)
    ensures
        match (support, r) {
            (SystemAudioSupport::Native, Ok(())) => permission == ScreenCapturePermission::Granted,
            (SystemAudioSupport::Native, Err(error)) => permission
                != ScreenCapturePermission::Granted && error is SystemAudioPermissionDenied,
            (SystemAudioSupport::FeatureDisabled, Err(error)) => unavailable(
                error,
                "sck-native feature not enabled - add `features = [\"sck-native\"]` to Cargo.toml"@,
            ),
            (SystemAudioSupport::OtherPlatform, Err(error)) => unavailable(
                error,
                "System audio capture is only available on macOS"@,
            ),
            _ => false,
        },
{
    match support {
        SystemAudioSupport::Native => {
            if permission != ScreenCapturePermission::Granted {
                return Err(StreamAudioError::SystemAudioPermissionDenied);
            }
            Ok(())
        },
        SystemAudioSupport::FeatureDisabled => Err(
            StreamAudioError::SystemAudioUnavailable {
                reason: String::from_str(
                    "sck-native feature not enabled - add `features = [\"sck-native\"]` to Cargo.toml",
                ),
            },
        ),
        SystemAudioSupport::OtherPlatform => Err(
            StreamAudioError::SystemAudioUnavailable {
                reason: String::from_str("System audio capture is only available on macOS"),
            },
        ),
    }
}

/// Whether an error says that system audio is not to be had, for a reason.
pub open spec fn unavailable(error: StreamAudioError, text: Seq<char>) -> bool {
    error matches StreamAudioError::SystemAudioUnavailable { reason } && reason@ == text
}

/// Whether an error says that something failed, for a cause.
pub open spec fn failed(error: StreamAudioError, doing: Seq<char>, because: Seq<char>) -> bool {
    error matches StreamAudioError::SystemAudioRuntimeFailure { context, cause } && context@
        == doing && cause@ == because
}

} // verus!
