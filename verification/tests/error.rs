use stream_audio::{SinkError, StreamAudioError};

#[test]
fn test_stream_audio_error_display() {
    let err = StreamAudioError::DeviceNotFound {
        name: "USB Mic".to_string(),
    };
    assert_eq!(err.message(), "device not found: USB Mic");
}

#[test]
fn test_sink_error_custom() {
    let err = SinkError::custom("something went wrong");
    assert_eq!(err.message(), "something went wrong");
}

#[test]
fn test_sink_error_write_failed() {
    let err = SinkError::write_failed("buffer full");
    assert_eq!(err.message(), "write failed: buffer full");
}

#[test]
fn test_sink_error_file_error() {
    let io_err = std::io::Error::new(std::io::ErrorKind::NotFound, "file not found");
    let err = SinkError::file_error("/tmp/test.wav", &io_err.to_string());
    assert!(err.message().contains("/tmp/test.wav"));
}

#[test]
fn every_stream_error_has_its_text() {
    let text = |s: &str| s.to_string();
    let cases = vec![
        (
            StreamAudioError::DeviceUnavailable { name: text("Mic"), reason: text("busy") },
            "device unavailable: Mic - busy",
        ),
        (StreamAudioError::NoDefaultDevice, "no default input device configured"),
        (
            StreamAudioError::PermissionDenied,
            "permission denied for audio capture (check OS settings)",
        ),
        (
            StreamAudioError::UnsupportedFormat { format: text("u8") },
            "unsupported sample format: u8",
        ),
        (
            StreamAudioError::UnsupportedSampleRate {
                requested: 11025,
                available: vec![44100, 48000],
            },
            "sample rate 11025Hz not supported (available: [44100, 48000])",
        ),
        (
            StreamAudioError::UnsupportedSampleRate { requested: 0, available: vec![] },
            "sample rate 0Hz not supported (available: [])",
        ),
        (StreamAudioError::NoSinksConfigured, "no sinks configured - add at least one sink"),
        (
            StreamAudioError::SinkStartFailed { sink_name: text("file"), reason: text("full") },
            "sink 'file' failed to start: full",
        ),
        (StreamAudioError::BackendError(text("alsa")), "audio backend error: alsa"),
        (
            StreamAudioError::NoSourcesConfigured,
            "no sources configured - use add_source() to add at least one audio source before calling start()",
        ),
        (
            StreamAudioError::UnknownSourceInRoute { source_id: text("x") },
            "unknown source in route: x",
        ),
        (StreamAudioError::DuplicateSourceId { source_id: text("x") }, "duplicate source ID: x"),
        (
            StreamAudioError::SystemAudioUnavailable { reason: text("no") },
            "system audio capture unavailable: no",
        ),
        (
            StreamAudioError::SystemAudioPermissionDenied,
            "system audio permission denied (check Screen Recording in System Preferences)",
        ),
    ];
    for (error, expected) in cases {
        assert_eq!(error.message(), expected);
    }
}

#[test]
fn every_sink_error_has_its_text() {
    assert_eq!(
        SinkError::file_error("/tmp/a.wav", "disk full").message(),
        "file error: /tmp/a.wav: disk full"
    );
    assert_eq!(SinkError::ChannelClosed.message(), "channel closed");
    assert_eq!(
        SinkError::NotInitialized.message(),
        "sink not initialized (call on_start first)"
    );
}
