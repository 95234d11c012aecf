use std::sync::Arc;
use std::time::Instant;
use stream_audio::builder::{config_change_event, next_step, source_started_event, StartStep};
use stream_audio::pipeline::SinkRoute;
use stream_audio::time::Duration;
use stream_audio::{
    AudioChunk, AudioSource, DeviceSelection, FormatPreset, SourceId, StreamAudio,
    StreamAudioBuilder, StreamAudioError, StreamConfig, StreamEvent,
};
use tokio::sync::mpsc;

type Callback = Arc<dyn Fn(StreamEvent) + Send + Sync>;
type ChunkSender = mpsc::Sender<AudioChunk>;

fn builder() -> StreamAudioBuilder<ChunkSender, Callback> {
    StreamAudio::builder::<ChunkSender, Callback>()
}

fn sink() -> ChunkSender {
    mpsc::channel(1).0
}

#[test]
fn test_builder_default() {
    let builder: StreamAudioBuilder<ChunkSender, Callback> = StreamAudioBuilder::new();
    assert!(builder.sources.is_empty());
    assert!(builder.sinks.is_empty());
}

#[test]
fn test_builder_format() {
    let builder = builder().format(FormatPreset::Native);
    assert_eq!(builder.format, FormatPreset::Native);
}

#[test]
fn test_builder_add_source() {
    let builder = builder()
        .add_source("mic", AudioSource::device("Microphone"))
        .add_source("speaker", AudioSource::device("BlackHole"));

    assert_eq!(builder.sources.len(), 2);
    assert_eq!(builder.source_ids().len(), 2);
}

#[test]
fn test_builder_sink_routing() {
    let builder = builder()
        .add_source("mic", AudioSource::default_device())
        .add_source("speaker", AudioSource::default_device())
        .add_sink_from(sink(), "mic")
        .add_sink_from(sink(), "speaker");

    assert_eq!(builder.sinks.len(), 2);
    assert_eq!(builder.sink_routes.len(), 2);
    assert!(matches!(&builder.sink_routes[0], SinkRoute::Single(_)));
    assert!(matches!(&builder.sink_routes[1], SinkRoute::Single(_)));
}

#[test]
fn test_builder_broadcast_sink() {
    let builder = builder()
        .add_source("default", AudioSource::default_device())
        .add_sink(sink());

    assert_eq!(builder.sinks.len(), 1);
    assert!(matches!(&builder.sink_routes[0], SinkRoute::Broadcast));
}

#[test]
fn test_builder_rejects_duplicate_source_ids() {
    let builder = builder()
        .add_source("mic", AudioSource::default_device())
        .add_source("mic", AudioSource::default_device()) // Duplicate!
        .add_sink(sink());

    let result = builder.validate();
    assert!(matches!(
        result,
        Err(StreamAudioError::DuplicateSourceId { .. })
    ));
}

#[test]
fn test_builder_rejects_no_sources() {
    let builder = builder().add_sink(sink());

    let result = builder.validate();
    assert!(matches!(result, Err(StreamAudioError::NoSourcesConfigured)));
}

#[test]
fn sources_are_asked_for_before_sinks() {
    assert!(matches!(builder().validate(), Err(StreamAudioError::NoSourcesConfigured)));
    let builder = builder().add_source("mic", AudioSource::default_device());
    assert!(matches!(builder.validate(), Err(StreamAudioError::NoSinksConfigured)));
}

#[test]
fn the_first_duplicate_is_reported() {
    let result = builder()
        .add_source("a", AudioSource::default_device())
        .add_source("b", AudioSource::default_device())
        .add_source("b", AudioSource::default_device())
        .add_source("a", AudioSource::default_device())
        .add_sink(sink())
        .validate();
    match result {
        Err(StreamAudioError::DuplicateSourceId { source_id }) => assert_eq!(source_id, "b"),
        _ => panic!("Expected DuplicateSourceId"),
    }
}

#[test]
fn system_audio_starts_last() {
    let plan = builder()
        .add_source("speaker", AudioSource::system_audio())
        .add_source("mic", AudioSource::default_device())
        .add_source("line", AudioSource::device("Line In"))
        .add_sink_from(sink(), "mic")
        .add_sink(sink())
        .plan_start()
        .unwrap();
    assert_eq!(
        plan.steps,
        vec![
            StartStep::StartSink { index: 0 },
            StartStep::StartSink { index: 1 },
            StartStep::SpawnRouter,
            StartStep::NoteOutput,
            StartStep::StartSource { index: 1 },
            StartStep::StartSource { index: 2 },
            StartStep::NoteOutputAgain,
            StartStep::ReportOutput { index: 0 },
            StartStep::StartSource { index: 0 },
        ]
    );
    let chunk = AudioChunk::with_source(vec![1], Duration::zero(), 16000, 1, SourceId::new("mic"));
    assert_eq!(plan.router.targets(&chunk), vec![1, 0]);
    let other = AudioChunk::with_source(vec![1], Duration::zero(), 16000, 1, SourceId::new("line"));
    assert_eq!(plan.router.targets(&other), vec![1]);
}

#[test]
fn a_step_that_fails_ends_the_start() {
    let plan = builder()
        .add_source("mic", AudioSource::default_device())
        .add_sink(sink())
        .add_sink(sink())
        .plan_start()
        .unwrap();
    assert_eq!(next_step(&plan.steps, 0, false), Some(StartStep::StartSink { index: 0 }));
    assert_eq!(next_step(&plan.steps, 1, false), Some(StartStep::StartSink { index: 1 }));
    assert_eq!(next_step(&plan.steps, 1, true), None);
    assert_eq!(next_step(&plan.steps, 2, false), Some(StartStep::SpawnRouter));
    assert_eq!(next_step(&plan.steps, plan.steps.len(), false), None);
}

#[test]
fn routes_to_unknown_sources_are_refused() {
    let result = builder()
        .add_source("mic", AudioSource::default_device())
        .add_sink_from(sink(), "speaker")
        .plan_start();
    match result {
        Err(StreamAudioError::UnknownSourceInRoute { source_id }) => {
            assert_eq!(source_id, "speaker")
        }
        _ => panic!("Expected UnknownSourceInRoute"),
    }
}

#[test]
fn a_preset_overrides_what_the_device_delivers() {
    let resolved = builder().resolve_formats((48000, 2));
    assert_eq!((resolved.target_sample_rate, resolved.target_channels), (16000, 1));
    assert_eq!((resolved.device_sample_rate, resolved.device_channels), (48000, 2));
    let native = builder().format(FormatPreset::Native).resolve_formats((44100, 2));
    assert_eq!((native.target_sample_rate, native.target_channels), (44100, 2));
}

#[test]
fn a_capture_gets_the_settings_of_its_builder() {
    let mut config = StreamConfig::default();
    config.chunk_duration = Duration::from_millis(20);
    let builder = builder().with_config(config);
    let resolved = builder.resolve_formats((48000, 2));
    let capture = builder.create_capture_config(&resolved, SourceId::new("mic"), Instant::now());
    assert_eq!(capture.chunk_duration, Duration::from_millis(20));
    assert_eq!(capture.device_sample_rate, 48000);
    assert_eq!(capture.device_channels, 2);
    assert_eq!(capture.target_sample_rate, 16000);
    assert_eq!(capture.target_channels, 1);
    assert_eq!(capture.source_id.unwrap().as_str(), "mic");
}

#[test]
fn a_changed_output_device_is_reported() {
    let id = SourceId::new("mic");
    assert!(config_change_event(&id, Some((48000, 2)), Some((48000, 2))).is_none());
    assert!(config_change_event(&id, None, Some((48000, 2))).is_none());
    assert!(config_change_event(&id, Some((48000, 2)), None).is_none());
    match config_change_event(&id, Some((48000, 2)), Some((16000, 1))) {
        Some(StreamEvent::AudioConfigChanged { source_id, previous, current, message }) => {
            assert_eq!(source_id.as_str(), "mic");
            assert_eq!(previous, (48000, 2));
            assert_eq!(current, (16000, 1));
            assert!(message.contains("48000"));
            assert!(message.contains("16000"));
        }
        _ => panic!("Expected AudioConfigChanged"),
    }
}

#[test]
fn a_started_source_is_reported() {
    match source_started_event(&SourceId::new("mic")) {
        StreamEvent::SourceStarted { source_id } => assert_eq!(source_id.as_str(), "mic"),
        _ => panic!("Expected SourceStarted"),
    }
}

#[test]
fn the_callback_is_kept() {
    let callback: Callback = Arc::new(|_| {});
    assert!(builder().event_callback.is_none());
    assert!(builder().on_event(callback).event_callback.is_some());
}

#[test]
fn sources_know_what_they_capture() {
    assert!(matches!(DeviceSelection::default(), DeviceSelection::SystemDefault));
    assert!(AudioSource::system_audio().is_system_audio());
    assert!(!AudioSource::default_device().is_system_audio());
    match AudioSource::device("USB Mic").device.clone() {
        DeviceSelection::ByName(name) => assert_eq!(name, "USB Mic"),
        _ => panic!("Expected ByName"),
    }
}

#[test]
fn a_device_ring_holds_the_configured_time() {
    let config = builder().device_config((48000, 2)).unwrap();
    assert_eq!(config.buffer_capacity, 2_880_000);
    let mut settings = StreamConfig::default();
    settings.ring_buffer_duration = Duration::from_millis(250);
    let config = builder().with_config(settings).device_config((44100, 1)).unwrap();
    assert_eq!(config.buffer_capacity, 11_025);
    assert!(builder().device_config((48000, 0)).is_none());
}
