//! Error types.
//!
//! Fatal errors prevent a stream from starting. What goes wrong while it runs is
//! reported by events instead.
use crate::text;
use crate::text::{decimal, decimal_list, join2, join4};
use vstd::prelude::*;
use vstd::string::*;

verus! {

/// Fatal errors that prevent an audio stream from starting.
#[derive(Debug)]
pub enum StreamAudioError {
    /// The requested audio device was not found.
    DeviceNotFound {
        /// Name of the device that wasn't found.
        name: String,
    },
    /// The requested device exists but is unavailable.
    DeviceUnavailable {
        /// Name of the unavailable device.
        name: String,
        /// Reason the device is unavailable.
        reason: String,
    },
    /// No default input device is configured on this system.
    NoDefaultDevice,
    /// Permission to capture audio was denied.
    ///
    /// On macOS, check System Preferences > Security & Privacy > Microphone.
    PermissionDenied,
    /// The requested sample format is not supported by the device.
    UnsupportedFormat {
        /// The format that wasn't supported.
        format: String,
    },
    /// The requested sample rate is not supported by the device.
    UnsupportedSampleRate {
        /// The requested sample rate.
        requested: u32,
        /// Sample rates that are supported.
        available: Vec<u32>,
    },
    /// No sinks were configured before starting.
    NoSinksConfigured,
    /// A sink failed during initialization.
    SinkStartFailed {
        /// Name of the sink that failed.
        sink_name: String,
        /// Why the sink failed to start.
        reason: String,
    },
    /// An error from the underlying audio library.
    BackendError(String),
    /// No sources were configured before starting.
    NoSourcesConfigured,
    /// A sink route references an unknown source ID.
    UnknownSourceInRoute {
        /// The source ID that wasn't found.
        source_id: String,
    },
    /// A source ID was used more than once.
    DuplicateSourceId {
        /// The duplicated source ID.
        source_id: String,
    },
    /// System audio capture is not available on this platform or configuration.
    SystemAudioUnavailable {
        /// Why system audio is unavailable.
        reason: String,
    },
    /// Permission to capture system audio was denied.
    ///
    /// On macOS, check System Preferences > Security & Privacy > Screen Recording.
    SystemAudioPermissionDenied,
    /// The application whose audio was asked for is not running.
    SystemAudioAppNotFound {
        /// How the application was named.
        identifier: String,
    },
    /// System audio capture failed after the system had agreed to it.
    SystemAudioRuntimeFailure {
        /// What was being done.
        context: String,
        /// What went wrong.
        cause: String,
    },
}

impl StreamAudioError {
    /// The text of the error.
    pub open spec fn text(self) -> Seq<char> {
        match self {
            StreamAudioError::DeviceNotFound { name } => "device not found: "@ + name@,
            StreamAudioError::DeviceUnavailable { name, reason } => "device unavailable: "@ + name@
                + " - "@ + reason@,
            StreamAudioError::NoDefaultDevice => "no default input device configured"@,
            StreamAudioError::PermissionDenied =>
            "permission denied for audio capture (check OS settings)"@,
            StreamAudioError::UnsupportedFormat { format } => "unsupported sample format: "@
                + format@,
            StreamAudioError::UnsupportedSampleRate { requested, available } => "sample rate "@
                + text::decimal_text(requested as nat) + "Hz not supported (available: "@
                + text::decimal_list_text(available@) + ")"@,
            StreamAudioError::NoSinksConfigured => "no sinks configured - add at least one sink"@,
            StreamAudioError::SinkStartFailed { sink_name, reason } => "sink '"@ + sink_name@
                + "' failed to start: "@ + reason@,
            StreamAudioError::BackendError(detail) => "audio backend error: "@ + detail@,
            StreamAudioError::NoSourcesConfigured =>
            "no sources configured - use add_source() to add at least one audio source before calling start()"@,
            StreamAudioError::UnknownSourceInRoute { source_id } => "unknown source in route: "@
                + source_id@,
            StreamAudioError::DuplicateSourceId { source_id } => "duplicate source ID: "@
                + source_id@,
            StreamAudioError::SystemAudioUnavailable { reason } =>
            "system audio capture unavailable: "@ + reason@,
            StreamAudioError::SystemAudioPermissionDenied =>
            "system audio permission denied (check Screen Recording in System Preferences)"@,
            StreamAudioError::SystemAudioAppNotFound { identifier } =>
            "application for system audio not found: "@ + identifier@,
            StreamAudioError::SystemAudioRuntimeFailure { context, cause } =>
            "system audio failure: "@ + context@ + ": "@ + cause@,
        }
    }

    /// The text of the error.
    pub fn message(&self) -> (r: String)
        ensures
            r@ == self.text(),
    {
        match self {
            StreamAudioError::DeviceNotFound { name } => join2("device not found: ", name.as_str()),
            StreamAudioError::DeviceUnavailable { name, reason } => join4(
                "device unavailable: ",
                name.as_str(),
                " - ",
                reason.as_str(),
            ),
            StreamAudioError::NoDefaultDevice => String::from_str(
                "no default input device configured",
            ),
            StreamAudioError::PermissionDenied => String::from_str(
                "permission denied for audio capture (check OS settings)",
            ),
            StreamAudioError::UnsupportedFormat { format } => join2(
                "unsupported sample format: ",
                format.as_str(),
            ),
            StreamAudioError::UnsupportedSampleRate { requested, available } => {
                let mut r = join4(
                    "sample rate ",
                    decimal(*requested as u64).as_str(),
                    "Hz not supported (available: ",
                    decimal_list(available).as_str(),
                );
                r.append(")");
                r
            },
            StreamAudioError::NoSinksConfigured => String::from_str(
                "no sinks configured - add at least one sink",
            ),
            StreamAudioError::SinkStartFailed { sink_name, reason } => join4(
                "sink '",
                sink_name.as_str(),
                "' failed to start: ",
                reason.as_str(),
            ),
            StreamAudioError::BackendError(detail) => join2(
                "audio backend error: ",
                detail.as_str(),
            ),
            StreamAudioError::NoSourcesConfigured => String::from_str(
                "no sources configured - use add_source() to add at least one audio source before calling start()",
            ),
            StreamAudioError::UnknownSourceInRoute { source_id } => join2(
                "unknown source in route: ",
                source_id.as_str(),
            ),
            StreamAudioError::DuplicateSourceId { source_id } => join2(
                "duplicate source ID: ",
                source_id.as_str(),
            ),
            StreamAudioError::SystemAudioUnavailable { reason } => join2(
                "system audio capture unavailable: ",
                reason.as_str(),
            ),
            StreamAudioError::SystemAudioPermissionDenied => String::from_str(
                "system audio permission denied (check Screen Recording in System Preferences)",
            ),
            StreamAudioError::SystemAudioAppNotFound { identifier } => join2(
                "application for system audio not found: ",
                identifier.as_str(),
            ),
            StreamAudioError::SystemAudioRuntimeFailure { context, cause } => join4(
                "system audio failure: ",
                context.as_str(),
                ": ",
                cause.as_str(),
            ),
        }
    }
}

/// Errors that can occur within a sink.
///
/// They are recoverable: the router reports them and may retry the operation.
#[derive(Debug)]
pub enum SinkError {
    /// A write operation failed.
    WriteFailed {
        /// Description of what went wrong.
        reason: String,
    },
    /// File I/O error.
    FileError {
        /// Path to the file.
        path: String,
        /// The text of the underlying I/O error.
        source: String,
    },
    /// The receiving channel was closed.
    ChannelClosed,
    /// The sink was used before initialization.
    NotInitialized,
    /// Custom error for user-implemented sinks.
    Custom(String),
}

impl SinkError {
    /// The text of the error.
    pub open spec fn text(self) -> Seq<char> {
        match self {
            SinkError::WriteFailed { reason } => "write failed: "@ + reason@,
            SinkError::FileError { path, source } => "file error: "@ + path@ + ": "@ + source@,
            SinkError::ChannelClosed => "channel closed"@,
            SinkError::NotInitialized => "sink not initialized (call on_start first)"@,
            SinkError::Custom(msg) => msg@,
        }
    }

    /// The text of the error.
    pub fn message(&self) -> (r: String)
        ensures
            r@ == self.text(),
    {
        match self {
            SinkError::WriteFailed { reason } => join2("write failed: ", reason.as_str()),
            SinkError::FileError { path, source } => join4(
                "file error: ",
                path.as_str(),
                ": ",
                source.as_str(),
            ),
            SinkError::ChannelClosed => String::from_str("channel closed"),
            SinkError::NotInitialized => String::from_str(
                "sink not initialized (call on_start first)",
            ),
            SinkError::Custom(msg) => String::from_str(msg.as_str()),
        }
    }

    /// Creates a custom sink error with the given message.
    pub fn custom(msg: &str) -> (r: Self)
        ensures
            r matches SinkError::Custom(m) && m@ == msg@,
    {
        SinkError::Custom(String::from_str(msg))
    }

    /// Creates a write failed error with the given reason.
    pub fn write_failed(reason: &str) -> (r: Self)
        ensures
            r matches SinkError::WriteFailed { reason: m } && m@ == reason@,
    {
        SinkError::WriteFailed { reason: String::from_str(reason) }
    }

    /// Creates a file error for the given path and the text of an I/O error.
    pub fn file_error(path: &str, source: &str) -> (r: Self)
        ensures
            r matches SinkError::FileError { path: p, source: s } && p@ == path@ && s@ == source@,
    {
        SinkError::FileError { path: String::from_str(path), source: String::from_str(source) }
    }
}

/// The text of an error ends with what it is about: the name, the identifier or the cause that
/// it holds, and where it holds two of them, the first comes before the second.
pub proof fn lemma_error_names_subject(error: StreamAudioError)
    ensures
        match error {
            StreamAudioError::DeviceNotFound { name } => name@.is_suffix_of(error.text()),
            StreamAudioError::DeviceUnavailable { name, reason } => (name@ + " - "@
                + reason@).is_suffix_of(error.text()),
            StreamAudioError::UnsupportedFormat { format } => format@.is_suffix_of(error.text()),
            StreamAudioError::SinkStartFailed { sink_name, reason } => (sink_name@
                + "' failed to start: "@ + reason@).is_suffix_of(error.text()),
            StreamAudioError::BackendError(detail) => detail@.is_suffix_of(error.text()),
            StreamAudioError::UnknownSourceInRoute { source_id } => source_id@.is_suffix_of(
                error.text(),
            ),
            StreamAudioError::DuplicateSourceId { source_id } => source_id@.is_suffix_of(
                error.text(),
            ),
            StreamAudioError::SystemAudioUnavailable { reason } => reason@.is_suffix_of(
                error.text(),
            ),
            StreamAudioError::SystemAudioAppNotFound { identifier } => identifier@.is_suffix_of(
                error.text(),
            ),
            StreamAudioError::SystemAudioRuntimeFailure { context, cause } => (context@ + ": "@
                + cause@).is_suffix_of(error.text()),
            _ => error.text().len() > 0,
        },
{
    reveal_strlit("no default input device configured");
    reveal_strlit("permission denied for audio capture (check OS settings)");
    reveal_strlit("no sinks configured - add at least one sink");
    reveal_strlit(
        "no sources configured - use add_source() to add at least one audio source before calling start()",
    );
    reveal_strlit("system audio permission denied (check Screen Recording in System Preferences)");
    reveal_strlit("sample rate ");
    match error {
        StreamAudioError::DeviceUnavailable { name, reason } => {
            assert((name@ + " - "@ + reason@) =~= error.text().skip(
                "device unavailable: "@.len() as int,
            ));
        },
        StreamAudioError::SinkStartFailed { sink_name, reason } => {
            assert((sink_name@ + "' failed to start: "@ + reason@) =~= error.text().skip(
                "sink '"@.len() as int,
            ));
        },
        StreamAudioError::SystemAudioRuntimeFailure { context, cause } => {
            assert((context@ + ": "@ + cause@) =~= error.text().skip(
                "system audio failure: "@.len() as int,
            ));
        },
        _ => {},
    }
}

/// The text of a sink's error ends with its reason; that of a file names the file before it.
pub proof fn lemma_sink_error_names_subject(error: SinkError)
    ensures
        match error {
            SinkError::WriteFailed { reason } => reason@.is_suffix_of(error.text()),
            SinkError::FileError { path, source } => (path@ + ": "@ + source@).is_suffix_of(
                error.text(),
            ),
            SinkError::Custom(msg) => error.text() == msg@,
            _ => error.text().len() > 0,
        },
{
    reveal_strlit("channel closed");
    reveal_strlit("sink not initialized (call on_start first)");
    match error {
        SinkError::FileError { path, source } => {
            assert((path@ + ": "@ + source@) =~= error.text().skip("file error: "@.len() as int));
        },
        _ => {},
    }
}

} // verus!
