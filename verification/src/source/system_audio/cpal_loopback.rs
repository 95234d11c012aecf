//! Loopback of the default output device.
use vstd::prelude::*;
use vstd::string::*;

verus! {

/// Captures the default output device's audio: what you hear.
#[derive(Debug)]
pub struct CpalLoopbackBackend {
    native: Option<(u32, u16)>,
}

impl CpalLoopbackBackend {
    /// The format that the device was found to have.
    pub closed spec fn found(self) -> Option<(u32, u16)> {
        self.native
    }

    /// Creates a backend for a device with a format, if it is known.
    pub fn new(native: Option<(u32, u16)>) -> (r: Self)
        ensures
            r.found() == native,
    {
        CpalLoopbackBackend { native }
    }

    /// Returns the sample rate and channel count: 48kHz stereo where the device does not
    /// tell.
    pub fn native_config(&self) -> (r: (u32, u16))
        ensures
            r == match self.found() {
                Some(config) => config,
                None => (48000u32, 2u16),
            },
    {
        match self.native {
            Some(config) => config,
            None => (48000, 2),
        }
    }

    /// Backend name for logging/debugging.
    pub fn name(&self) -> (r: &'static str)
        ensures
            r@ == "Core Audio Tap (CPAL)"@,
    {
        "Core Audio Tap (CPAL)"
    }
}

} // verus!
