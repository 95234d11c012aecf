//! What happens to audio between a source and the sinks.
pub mod capture;
pub mod flow;
pub mod gap;
pub mod merger;
pub mod quality;
pub mod ring_buffer;
pub mod router;
pub mod routing;

pub use capture::{CaptureBridge, CaptureConfig, CaptureStep, DrainOutcome};
pub use merger::{MergeResult, TimeWindowMerger};
pub use ring_buffer::{create_audio_buffer, AudioBuffer};
pub use router::{Router, RouterCommand};
pub use routing::{RoutingTable, SinkRoute};
