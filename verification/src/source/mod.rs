//! Where audio comes from.
pub mod device;
pub mod mock;
pub mod source_id;
pub mod system_audio;

pub use device::DeviceConfig;
pub use mock::MockSource;
pub use source_id::SourceId;
