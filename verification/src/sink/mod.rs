//! Destinations for audio.
pub mod file;

pub use file::FileSink;
