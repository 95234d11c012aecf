//! Real-time audio capture with several sources and sinks.
pub mod binary64;
pub mod builder;
pub mod chunk;
pub mod config;
pub mod error;
pub mod event;
pub mod format;
pub mod pipeline;
pub mod platform;
pub mod ring;
pub mod session;
pub mod sink;
pub mod source;
pub mod text;
pub mod time;

pub use builder::{AudioSource, DeviceSelection, StreamAudio, StreamAudioBuilder};
pub use chunk::AudioChunk;
pub use config::{FormatPreset, StreamConfig};
pub use error::{SinkError, StreamAudioError};
pub use event::{event_callback, StreamEvent};
pub use session::{SessionState, SessionStats};
pub use sink::FileSink;
pub use source::{DeviceConfig, MockSource, SourceId};
