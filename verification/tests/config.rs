use stream_audio::time::Duration;
use stream_audio::{FormatPreset, StreamConfig};

#[test]
fn test_format_preset_transcription() {
    let preset = FormatPreset::Transcription;
    assert_eq!(preset.sample_rate(), Some(16000));
    assert_eq!(preset.channels(), Some(1));
}

#[test]
fn test_format_preset_native() {
    let preset = FormatPreset::Native;
    assert_eq!(preset.sample_rate(), None);
    assert_eq!(preset.channels(), None);
}

#[test]
fn test_format_preset_default() {
    assert_eq!(FormatPreset::default(), FormatPreset::Transcription);
}

#[test]
fn test_stream_config_defaults() {
    let config = StreamConfig::default();
    assert_eq!(config.chunk_duration, Duration::from_millis(100));
    assert_eq!(config.ring_buffer_duration, Duration::from_secs(30));
    assert_eq!(config.sink_retry_attempts, 3);
    assert_eq!(config.sink_retry_delay, Duration::from_millis(100));
    assert_eq!(config.merge_window_duration, Duration::from_millis(100));
    assert_eq!(config.merge_window_timeout, Duration::from_millis(200));
    assert_eq!(config.max_pending_windows, 10);
}
