//! Permission to capture system audio.
use vstd::prelude::*;

verus! {

/// Permission status for screen/audio capture.
#[derive(Debug, Clone, Copy, PartialEq, Eq, Structural)]
pub enum ScreenCapturePermission {
    /// Permission has been granted.
    Granted,
    /// Permission has been denied or not yet requested.
    Denied,
    /// Unable to determine permission status (API unavailable).
    Unknown,
}

impl ScreenCapturePermission {
    /// What the system's answer means, both when it is asked and when the user is.
    pub fn from_answer(granted: bool) -> (r: Self)
        ensures
            r == if granted {
                ScreenCapturePermission::Granted
            } else {
                ScreenCapturePermission::Denied
            },
    {
        if granted {
            ScreenCapturePermission::Granted
        } else {
            ScreenCapturePermission::Denied
        }
    }
}

} // verus!
