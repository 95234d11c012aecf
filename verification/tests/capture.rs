use std::time::Instant;
use stream_audio::pipeline::flow::FlowMonitor;
use stream_audio::pipeline::gap::GapMonitor;
use stream_audio::pipeline::quality::QualityMonitor;
use stream_audio::pipeline::{CaptureBridge, CaptureConfig, CaptureStep, DrainOutcome};
use stream_audio::ring::{SampleConsumer, SampleProducer};
use stream_audio::source::device::capture_ring;
use stream_audio::time::Duration;
use stream_audio::{AudioChunk, DeviceConfig, SessionState, SourceId, StreamEvent};

const SILENCE_FLOOR_DB: f32 = -96.0;

/// The level that a report stands for, in dB relative to full scale.
fn rms_db(sum_squares: u128, sample_count: usize) -> f32 {
    if sample_count == 0 {
        return SILENCE_FLOOR_DB;
    }
    let rms = (sum_squares as f64 / sample_count as f64).sqrt();
    if rms > 0.0 {
        20.0 * (rms / f64::from(i16::MAX)).log10() as f32
    } else {
        SILENCE_FLOOR_DB
    }
}

/// The offset that a report stands for, as a ratio of full scale.
fn dc_offset(sum: i128, sample_count: usize) -> f32 {
    if sample_count == 0 {
        return 0.0;
    }
    (sum as f64 / sample_count as f64 / f64::from(i16::MAX)) as f32
}

/// Lets time pass.
fn wait_ms(ms: u64) {
    let start = Instant::now();
    while start.elapsed() < std::time::Duration::from_millis(ms) {
        std::hint::spin_loop();
    }
}


#[test]
fn test_flow_monitor_initial_state_is_flowing() {
    let monitor = FlowMonitor::new(Some(SourceId::new("test")));
    assert!(monitor.is_flowing());
}

#[test]
fn test_flow_monitor_audio_keeps_flowing_no_event() {
    let mut monitor = FlowMonitor::new(Some(SourceId::new("test")));
    // Continuous audio should not emit any events
    assert!(monitor.update(true).is_none());
    assert!(monitor.update(true).is_none());
    assert!(monitor.update(true).is_none());
    assert!(monitor.is_flowing());
}

#[test]
fn test_flow_monitor_silence_under_threshold_no_event() {
    let mut monitor = FlowMonitor::new(Some(SourceId::new("test")));
    // Start with audio
    assert!(monitor.update(true).is_none());
    // Brief silence under 500ms threshold should not emit
    wait_ms(100);
    assert!(monitor.update(false).is_none());
    assert!(monitor.is_flowing()); // Still considered flowing
}

#[test]
fn test_flow_monitor_silence_over_threshold_emits_stopped() {
    let mut monitor = FlowMonitor::new(Some(SourceId::new("test")));
    // Start with audio
    assert!(monitor.update(true).is_none());
    // Wait past silence threshold
    wait_ms(510);
    let event = monitor.update(false);
    assert!(event.is_some());
    if let Some(StreamEvent::AudioFlowStopped {
        source_id,
        silent_duration_ms,
    }) = event
    {
        assert_eq!(source_id.as_str(), "test");
        assert!(silent_duration_ms >= 500);
    } else {
        panic!("Expected AudioFlowStopped event");
    }
    assert!(!monitor.is_flowing());
}

#[test]
fn test_flow_monitor_audio_resumes_after_stopped_emits_resumed() {
    let mut monitor = FlowMonitor::new(Some(SourceId::new("test")));
    // Get into stopped state
    wait_ms(510);
    let _ = monitor.update(false);
    assert!(!monitor.is_flowing());

    // Resume with audio
    let event = monitor.update(true);
    assert!(event.is_some());
    if let Some(StreamEvent::AudioFlowResumed { source_id }) = event {
        assert_eq!(source_id.as_str(), "test");
    } else {
        panic!("Expected AudioFlowResumed event");
    }
    assert!(monitor.is_flowing());
}

#[test]
fn test_flow_monitor_resumed_only_emits_once() {
    let mut monitor = FlowMonitor::new(Some(SourceId::new("test")));
    // Get into stopped state
    wait_ms(510);
    let _ = monitor.update(false);

    // First audio should emit resumed
    assert!(monitor.update(true).is_some());
    // Subsequent audio should not emit again
    assert!(monitor.update(true).is_none());
    assert!(monitor.update(true).is_none());
}

#[test]
fn test_flow_monitor_stopped_only_emits_once() {
    let mut monitor = FlowMonitor::new(Some(SourceId::new("test")));
    // Wait past threshold and emit stopped
    wait_ms(510);
    assert!(monitor.update(false).is_some());
    // Further silence should not emit again
    wait_ms(100);
    assert!(monitor.update(false).is_none());
}

#[test]
fn test_flow_monitor_without_source_id_uses_default() {
    let mut monitor = FlowMonitor::new(None);
    wait_ms(510);
    let event = monitor.update(false);
    if let Some(StreamEvent::AudioFlowStopped { source_id, .. }) = event {
        assert_eq!(source_id.as_str(), "default");
    } else {
        panic!("Expected AudioFlowStopped event");
    }
}

// ==================== GapMonitor Tests ====================

#[test]
fn test_gap_monitor_no_gap_when_nonzero_samples() {
    let mut monitor = GapMonitor::new(Some(SourceId::new("test")), 16000);
    let samples: Vec<i16> = vec![100; 1000];
    let events = monitor.scan_chunk(&samples, 0);
    assert!(events.is_empty());
}

#[test]
fn test_gap_monitor_short_gap_under_threshold_no_event() {
    let mut monitor = GapMonitor::new(Some(SourceId::new("test")), 16000);
    // At 16kHz, 50ms = 800 samples. Create a 400-sample gap (25ms).
    let mut samples = vec![100i16; 100];
    samples.extend(vec![0i16; 400]); // Under threshold
    samples.extend(vec![100i16; 100]);

    let events = monitor.scan_chunk(&samples, 0);
    assert!(events.is_empty());
}

#[test]
fn test_gap_monitor_gap_at_threshold_emits_event() {
    let mut monitor = GapMonitor::new(Some(SourceId::new("test")), 16000);
    // At 16kHz, 50ms = 800 samples
    let mut samples = vec![100i16; 100];
    samples.extend(vec![0i16; 800]); // Exactly at threshold
    samples.extend(vec![100i16; 100]);

    let events = monitor.scan_chunk(&samples, 0);
    assert_eq!(events.len(), 1);
    if let StreamEvent::AudioGapDetected {
        gap_duration_ms,
        gap_samples,
        ..
    } = &events[0]
    {
        assert_eq!(*gap_samples, 800);
        assert_eq!(*gap_duration_ms, 50);
    } else {
        panic!("Expected AudioGapDetected event");
    }
}

#[test]
fn test_gap_monitor_gap_over_threshold_emits_event() {
    let mut monitor = GapMonitor::new(Some(SourceId::new("test")), 16000);
    // 1600 samples = 100ms at 16kHz
    let mut samples = vec![100i16; 100];
    samples.extend(vec![0i16; 1600]);
    samples.extend(vec![100i16; 100]);

    let events = monitor.scan_chunk(&samples, 0);
    assert_eq!(events.len(), 1);
    if let StreamEvent::AudioGapDetected {
        gap_duration_ms,
        gap_samples,
        ..
    } = &events[0]
    {
        assert_eq!(*gap_samples, 1600);
        assert_eq!(*gap_duration_ms, 100);
    } else {
        panic!("Expected AudioGapDetected event");
    }
}

#[test]
fn test_gap_monitor_gap_spanning_chunks() {
    let mut monitor = GapMonitor::new(Some(SourceId::new("test")), 16000);
    // First chunk ends with 400 zeros
    let mut chunk1 = vec![100i16; 100];
    chunk1.extend(vec![0i16; 400]);
    let events1 = monitor.scan_chunk(&chunk1, 0);
    assert!(events1.is_empty()); // Not enough yet

    // Second chunk starts with 500 zeros (total 900 > 800 threshold)
    let mut chunk2 = vec![0i16; 500];
    chunk2.extend(vec![100i16; 100]);
    let events2 = monitor.scan_chunk(&chunk2, 500);
    assert_eq!(events2.len(), 1);
    if let StreamEvent::AudioGapDetected { gap_samples, .. } = &events2[0] {
        assert_eq!(*gap_samples, 900); // 400 + 500
    } else {
        panic!("Expected AudioGapDetected event");
    }
}

#[test]
fn test_gap_monitor_multiple_gaps_in_chunk() {
    let mut monitor = GapMonitor::new(Some(SourceId::new("test")), 16000);
    // Two separate gaps in one chunk
    let mut samples = vec![100i16; 50];
    samples.extend(vec![0i16; 900]); // First gap
    samples.extend(vec![100i16; 50]);
    samples.extend(vec![0i16; 1000]); // Second gap
    samples.extend(vec![100i16; 50]);

    let events = monitor.scan_chunk(&samples, 0);
    assert_eq!(events.len(), 2);
}

#[test]
fn test_gap_monitor_flush_emits_pending_gap() {
    let mut monitor = GapMonitor::new(Some(SourceId::new("test")), 16000);
    // Chunk ending with zeros at threshold
    let mut samples = vec![100i16; 100];
    samples.extend(vec![0i16; 900]);
    let events = monitor.scan_chunk(&samples, 0);
    assert!(events.is_empty()); // Gap not closed yet

    // Flush should emit the pending gap
    let flush_event = monitor.flush();
    assert!(flush_event.is_some());
    if let Some(StreamEvent::AudioGapDetected { gap_samples, .. }) = flush_event {
        assert_eq!(gap_samples, 900);
    } else {
        panic!("Expected AudioGapDetected event");
    }
}

#[test]
fn test_gap_monitor_flush_no_event_when_under_threshold() {
    let mut monitor = GapMonitor::new(Some(SourceId::new("test")), 16000);
    // Chunk ending with zeros under threshold
    let mut samples = vec![100i16; 100];
    samples.extend(vec![0i16; 400]);
    let _ = monitor.scan_chunk(&samples, 0);

    // Flush should not emit (under threshold)
    assert!(monitor.flush().is_none());
}

#[test]
fn test_gap_monitor_cumulative_stats() {
    let mut monitor = GapMonitor::new(Some(SourceId::new("test")), 16000);
    // Create multiple gaps
    let mut samples = vec![100i16; 50];
    samples.extend(vec![0i16; 800]); // 50ms gap
    samples.extend(vec![100i16; 50]);
    samples.extend(vec![0i16; 1600]); // 100ms gap
    samples.extend(vec![100i16; 50]);

    let _ = monitor.scan_chunk(&samples, 0);
    let (gaps, total_ms) = monitor.stats();
    assert_eq!(gaps, 2);
    assert_eq!(total_ms, 150); // 50 + 100
}

#[test]
fn test_gap_monitor_threshold_calculation_44100hz() {
    let monitor = GapMonitor::new(None, 44100);
    // 50ms at 44100Hz = 2205 samples
    assert_eq!(monitor.threshold_samples(), 2205);
}

#[test]
fn test_gap_monitor_threshold_calculation_16000hz() {
    let monitor = GapMonitor::new(None, 16000);
    // 50ms at 16000Hz = 800 samples
    assert_eq!(monitor.threshold_samples(), 800);
}

// ==================== QualityMonitor Tests ====================

#[test]
fn test_quality_monitor_peak_amplitude_positive() {
    let mut monitor = QualityMonitor::new(Some(SourceId::new("test")));
    let samples = vec![100i16, 200, 300, 150];
    let event = monitor.analyze_chunk(&samples, Duration::zero());
    if let StreamEvent::AudioQualityReport { peak_amplitude, .. } = event {
        assert_eq!(peak_amplitude, 300);
    } else {
        panic!("Expected AudioQualityReport");
    }
}

#[test]
fn test_quality_monitor_peak_amplitude_negative() {
    let mut monitor = QualityMonitor::new(Some(SourceId::new("test")));
    let samples = vec![-100i16, -500, -200];
    let event = monitor.analyze_chunk(&samples, Duration::zero());
    if let StreamEvent::AudioQualityReport { peak_amplitude, .. } = event {
        assert_eq!(peak_amplitude, 500); // Absolute value
    } else {
        panic!("Expected AudioQualityReport");
    }
}

#[test]
fn test_quality_monitor_peak_amplitude_mixed() {
    let mut monitor = QualityMonitor::new(Some(SourceId::new("test")));
    let samples = vec![100i16, -600, 300, -200];
    let event = monitor.analyze_chunk(&samples, Duration::zero());
    if let StreamEvent::AudioQualityReport { peak_amplitude, .. } = event {
        assert_eq!(peak_amplitude, 600);
    } else {
        panic!("Expected AudioQualityReport");
    }
}

#[test]
fn test_quality_monitor_rms_silence() {
    let mut monitor = QualityMonitor::new(Some(SourceId::new("test")));
    let samples = vec![0i16; 100];
    let event = monitor.analyze_chunk(&samples, Duration::zero());
    if let StreamEvent::AudioQualityReport { sum_squares, sample_count, .. } = event {
        assert_eq!(rms_db(sum_squares, sample_count), SILENCE_FLOOR_DB);
    } else {
        panic!("Expected AudioQualityReport");
    }
}

#[test]
fn test_quality_monitor_rms_full_scale() {
    let mut monitor = QualityMonitor::new(Some(SourceId::new("test")));
    // All samples at max should give ~0dB
    let samples = vec![i16::MAX; 100];
    let event = monitor.analyze_chunk(&samples, Duration::zero());
    if let StreamEvent::AudioQualityReport { sum_squares, sample_count, .. } = event {
        assert!((rms_db(sum_squares, sample_count) - 0.0).abs() < 0.1);
    } else {
        panic!("Expected AudioQualityReport");
    }
}

#[test]
fn test_quality_monitor_clipping_at_max() {
    let mut monitor = QualityMonitor::new(Some(SourceId::new("test")));
    let samples = vec![i16::MAX, i16::MAX, 100, 200];
    let event = monitor.analyze_chunk(&samples, Duration::zero());
    if let StreamEvent::AudioQualityReport {
        clipped_samples,
        total_clipped_samples,
        ..
    } = event
    {
        assert_eq!(clipped_samples, 2);
        assert_eq!(total_clipped_samples, 2);
    } else {
        panic!("Expected AudioQualityReport");
    }
}

#[test]
fn test_quality_monitor_clipping_at_min() {
    let mut monitor = QualityMonitor::new(Some(SourceId::new("test")));
    let samples = vec![i16::MIN, i16::MIN, i16::MIN, 100];
    let event = monitor.analyze_chunk(&samples, Duration::zero());
    if let StreamEvent::AudioQualityReport {
        clipped_samples, ..
    } = event
    {
        assert_eq!(clipped_samples, 3);
    } else {
        panic!("Expected AudioQualityReport");
    }
}

#[test]
fn test_quality_monitor_cumulative_clipping() {
    let mut monitor = QualityMonitor::new(Some(SourceId::new("test")));

    // First chunk with 2 clipped
    let samples1 = vec![i16::MAX, i16::MAX, 100];
    let _ = monitor.analyze_chunk(&samples1, Duration::zero());

    // Second chunk with 3 clipped
    let samples2 = vec![i16::MIN, i16::MIN, i16::MIN];
    let event = monitor.analyze_chunk(&samples2, Duration::from_millis(100));

    if let StreamEvent::AudioQualityReport {
        clipped_samples,
        total_clipped_samples,
        ..
    } = event
    {
        assert_eq!(clipped_samples, 3); // This chunk
        assert_eq!(total_clipped_samples, 5); // Cumulative
    } else {
        panic!("Expected AudioQualityReport");
    }
    assert_eq!(monitor.total_clipped(), 5);
}

#[test]
fn test_quality_monitor_dc_offset_zero_for_centered() {
    let mut monitor = QualityMonitor::new(Some(SourceId::new("test")));
    // Balanced positive and negative
    let samples = vec![1000i16, -1000, 500, -500];
    let event = monitor.analyze_chunk(&samples, Duration::zero());
    if let StreamEvent::AudioQualityReport { sum, sample_count, .. } = event {
        assert!(dc_offset(sum, sample_count).abs() < 0.001);
    } else {
        panic!("Expected AudioQualityReport");
    }
}

#[test]
fn test_quality_monitor_dc_offset_positive_bias() {
    let mut monitor = QualityMonitor::new(Some(SourceId::new("test")));
    // All positive samples at half max
    let half_max = i16::MAX / 2;
    let samples = vec![half_max; 100];
    let event = monitor.analyze_chunk(&samples, Duration::zero());
    if let StreamEvent::AudioQualityReport { sum, sample_count, .. } = event {
        assert!((dc_offset(sum, sample_count) - 0.5).abs() < 0.01);
    } else {
        panic!("Expected AudioQualityReport");
    }
}

#[test]
fn test_quality_monitor_dc_offset_negative_bias() {
    let mut monitor = QualityMonitor::new(Some(SourceId::new("test")));
    let half_min = i16::MIN / 2;
    let samples = vec![half_min; 100];
    let event = monitor.analyze_chunk(&samples, Duration::zero());
    if let StreamEvent::AudioQualityReport { sum, sample_count, .. } = event {
        assert!((dc_offset(sum, sample_count) - (-0.5)).abs() < 0.01);
    } else {
        panic!("Expected AudioQualityReport");
    }
}

#[test]
fn test_quality_monitor_empty_chunk() {
    let mut monitor = QualityMonitor::new(Some(SourceId::new("test")));
    let samples: Vec<i16> = vec![];
    let event = monitor.analyze_chunk(&samples, Duration::zero());
    if let StreamEvent::AudioQualityReport {
        peak_amplitude,
        sum_squares,
        sum,
        sample_count,
        clipped_samples,
        ..
    } = event
    {
        assert_eq!(peak_amplitude, 0);
        assert_eq!(rms_db(sum_squares, sample_count), SILENCE_FLOOR_DB);
        assert_eq!(clipped_samples, 0);
        assert_eq!(dc_offset(sum, sample_count), 0.0);
    } else {
        panic!("Expected AudioQualityReport");
    }
}

#[test]
fn test_quality_monitor_without_source_id_uses_default() {
    let mut monitor = QualityMonitor::new(None);
    let samples = vec![100i16; 10];
    let event = monitor.analyze_chunk(&samples, Duration::zero());
    if let StreamEvent::AudioQualityReport { source_id, .. } = event {
        assert_eq!(source_id.as_str(), "default");
    } else {
        panic!("Expected AudioQualityReport");
    }
}
// ==================== CaptureBridge Tests ====================

fn create_test_ring_buffer(capacity: usize) -> (SampleProducer, SampleConsumer) {
    capture_ring(&DeviceConfig { sample_rate: 16000, channels: 1, buffer_capacity: capacity })
}

fn create_test_config(
    device_sample_rate: u32,
    device_channels: u16,
    target_sample_rate: u32,
    target_channels: u16,
) -> CaptureConfig {
    CaptureConfig {
        device_sample_rate,
        device_channels,
        target_sample_rate,
        target_channels,
        chunk_duration: Duration::from_millis(100),
        source_id: Some(SourceId::new("test")),
        session_start: Instant::now(),
    }
}

/// What a bridge makes of samples: the chunks and events while it runs, then those of the
/// shutdown.
struct Run {
    chunks: Vec<AudioChunk>,
    events: Vec<StreamEvent>,
    state: SessionState,
}

/// Pushes samples and runs a bridge over them until it finds nothing more, unless it is
/// stopped at once; then drains it.
fn run_bridge(
    capacity: usize,
    config: &CaptureConfig,
    samples: &[i16],
    stopped_at_once: bool,
) -> Run {
    let (mut producer, consumer) = create_test_ring_buffer(capacity);
    assert_eq!(producer.push_all(samples), 0);
    let mut bridge = CaptureBridge::new(consumer, config);
    let mut state = SessionState::new();
    let mut timestamp = bridge.start_timestamp();
    let mut run = Run { chunks: Vec::new(), events: Vec::new(), state };
    if stopped_at_once {
        state.running = false;
    }
    while state.running {
        match bridge.process_next_chunk(&mut timestamp, &mut state) {
            CaptureStep::Ready { chunk, events } => {
                run.chunks.push(chunk);
                run.events.extend(events);
            }
            CaptureStep::Waiting { event } => {
                run.events.extend(event);
                state.running = false;
            }
            CaptureStep::Refused => panic!("capture cannot go on"),
        }
    }
    let DrainOutcome { chunks, events, complete, .. } =
        bridge.drain_remaining(&mut timestamp, &mut state);
    assert!(complete);
    run.chunks.extend(chunks);
    run.events.extend(events);
    run.state = state;
    run
}

#[test]
fn test_capture_bridge_processes_single_chunk() {
    let config = create_test_config(16000, 1, 16000, 1);
    // Push exactly one chunk worth of samples (100ms at 16kHz = 1600 samples)
    let samples: Vec<i16> = (0..1600i16).collect();
    let run = run_bridge(10000, &config, &samples, false);

    // Should have received one chunk
    let chunk = &run.chunks[0];
    assert_eq!(chunk.samples.len(), 1600);
    assert_eq!(chunk.sample_rate, 16000);
    assert_eq!(chunk.channels, 1);
    assert_eq!(*chunk.samples, samples);
}

#[test]
fn test_capture_bridge_processes_multiple_chunks() {
    let config = create_test_config(16000, 1, 16000, 1);
    // Push 3 chunks worth of samples (4800 samples)
    let samples: Vec<i16> = (0..4800i16).map(|i| i % 1000).collect();
    let run = run_bridge(20000, &config, &samples, false);
    assert_eq!(run.chunks.len(), 3);
}

#[test]
fn test_capture_bridge_applies_format_conversion() {
    // Device: 48kHz stereo -> Target: 16kHz mono
    let config = create_test_config(48000, 2, 16000, 1);
    // Push 100ms at 48kHz stereo = 9600 samples (4800 frames * 2 channels)
    // Stereo pairs: L=500, R=300 -> mono average = 400
    let mut samples = Vec::new();
    for _ in 0..4800 {
        samples.push(500);
        samples.push(300);
    }
    let run = run_bridge(20000, &config, &samples, false);
    let chunk = &run.chunks[0];
    // 48kHz -> 16kHz = 3:1, so 4800 frames -> 1600 frames
    // mono = 1 channel, so 1600 samples
    assert_eq!(chunk.sample_rate, 16000);
    assert_eq!(chunk.channels, 1);
    assert_eq!(chunk.samples.len(), 1600);
    // Verify conversion: stereo (500, 300) -> mono 400
    assert!(chunk.samples.iter().all(|&s| s == 400));
}

#[test]
fn test_capture_bridge_timestamps_monotonic() {
    let config = create_test_config(16000, 1, 16000, 1);
    // Push 3 chunks worth
    let run = run_bridge(20000, &config, &[100i16; 4800], false);
    let chunks = run.chunks;

    // Verify timestamps are monotonically increasing
    for i in 1..chunks.len() {
        assert!(
            chunks[i].timestamp > chunks[i - 1].timestamp,
            "Timestamps should be monotonically increasing"
        );
    }

    // Each chunk is 100ms, so second chunk should be ~100ms after first
    assert!(chunks.len() >= 2);
    let diff = chunks[1].timestamp.as_nanos() - chunks[0].timestamp.as_nanos();
    assert!(
        ((diff / 1_000_000) as i64 - 100).abs() < 10,
        "Chunk spacing should be ~100ms"
    );
}

#[test]
fn test_capture_bridge_updates_samples_captured() {
    let config = create_test_config(16000, 1, 16000, 1);
    // Push 2 chunks worth (3200 samples)
    let run = run_bridge(10000, &config, &[100i16; 3200], false);
    // Should have captured 3200 samples (2 chunks)
    assert_eq!(run.state.samples_captured, 3200, "Should track samples captured correctly");
}

#[test]
fn test_capture_bridge_updates_chunks_processed() {
    let config = create_test_config(16000, 1, 16000, 1);
    // Push 2 chunks worth
    let run = run_bridge(10000, &config, &[100i16; 3200], false);
    assert_eq!(run.state.chunks_processed, 2, "Should track chunks processed correctly");
}

#[test]
fn test_capture_bridge_tracks_clipped_samples() {
    let config = create_test_config(16000, 1, 16000, 1);
    // Push chunk with clipped samples (i16::MAX and i16::MIN count as clipped)
    let samples: Vec<i16> = (0..1600i16)
        .map(|i| {
            if i < 10 {
                i16::MAX
            } else if i < 20 {
                i16::MIN
            } else {
                100
            }
        })
        .collect();
    let run = run_bridge(10000, &config, &samples, false);
    assert_eq!(
        run.state.clipped_samples, 20,
        "Should track 20 clipped samples (10 MAX + 10 MIN)"
    );
}

#[test]
fn test_capture_bridge_drains_remaining_on_stop() {
    let config = create_test_config(16000, 1, 16000, 1);
    // Push 2.5 chunks worth (4000 samples = 2 full + 800 partial)
    let samples: Vec<i16> = (0..4000i16).map(|i| i % 1000).collect();
    let run = run_bridge(10000, &config, &samples, true);
    let chunks = run.chunks;

    // Should have 3 chunks (2 full of 1600 + 1 partial of 800)
    assert_eq!(chunks.len(), 3);
    assert_eq!(chunks[0].samples.len(), 1600);
    assert_eq!(chunks[1].samples.len(), 1600);
    assert_eq!(chunks[2].samples.len(), 800);
}

#[test]
fn test_capture_bridge_flushes_gaps_on_drain() {
    let config = create_test_config(16000, 1, 16000, 1);
    // Push chunk that ends with a long gap (over threshold)
    // 100 non-zero samples, then 1500 zeros
    let mut samples: Vec<i16> = (0..100i16).map(|i| i + 1).collect();
    samples.extend([0i16; 1500]);
    let run = run_bridge(10000, &config, &samples, true);
    let gap_events: Vec<_> = run
        .events
        .iter()
        .filter(|e| matches!(e, StreamEvent::AudioGapDetected { .. }))
        .collect();

    // The gap monitor should detect and flush the trailing gap
    // (1500 consecutive zeros > 800 threshold at 16kHz)
    assert!(!gap_events.is_empty(), "Should emit gap event for trailing zeros");
}

#[test]
fn test_capture_bridge_emits_quality_events() {
    let config = create_test_config(16000, 1, 16000, 1);
    // Push one chunk with known characteristics
    let run = run_bridge(10000, &config, &[500i16; 1600], false);
    let quality_events: Vec<_> = run
        .events
        .iter()
        .filter(|e| matches!(e, StreamEvent::AudioQualityReport { .. }))
        .collect();

    assert!(!quality_events.is_empty(), "Should emit quality events");
    if let StreamEvent::AudioQualityReport { peak_amplitude, .. } = quality_events[0] {
        assert_eq!(*peak_amplitude, 500, "Peak should match input");
    }
}

#[test]
fn test_capture_bridge_emits_gap_events() {
    let config = create_test_config(16000, 1, 16000, 1);
    // Push chunk with a gap exceeding threshold (800 samples = 50ms at 16kHz)
    let samples: Vec<i16> =
        (0..1600i16).map(|i| if i < 100 || i >= 1000 { 500 } else { 0 }).collect();
    let run = run_bridge(10000, &config, &samples, false);
    let gap_events: Vec<_> = run
        .events
        .iter()
        .filter(|e| matches!(e, StreamEvent::AudioGapDetected { .. }))
        .collect();

    assert!(!gap_events.is_empty(), "Should emit gap event for 900 zeros");
    if let StreamEvent::AudioGapDetected { gap_samples, .. } = gap_events[0] {
        assert_eq!(*gap_samples, 900, "Gap should be 900 samples");
    }
}

// ==================== Further Tests ====================

#[test]
fn test_capture_bridge_stops_on_running_false() {
    let config = create_test_config(16000, 1, 16000, 1);
    let run = run_bridge(50000, &config, &[100i16; 32000], true);
    assert!(!run.state.running, "Bridge should stop when running is false");
    assert_eq!(run.chunks.len(), 20);
    // What a shutdown drains is sent on, but not counted.
    assert_eq!(run.state.samples_captured, 0);
    assert_eq!(run.state.chunks_processed, 0);
}

#[test]
fn a_device_without_a_rate_never_has_a_chunk() {
    let (mut producer, consumer) = create_test_ring_buffer(100);
    assert_eq!(producer.push_all(&[1, 2, 3]), 0);
    let mut bridge = CaptureBridge::new(consumer, &create_test_config(0, 1, 16000, 1));
    let mut state = SessionState::new();
    let mut timestamp = Duration::zero();
    assert!(matches!(
        bridge.process_next_chunk(&mut timestamp, &mut state),
        CaptureStep::Waiting { event: None }
    ));
}

#[test]
fn drained_chunks_follow_one_another() {
    let config = create_test_config(48000, 2, 16000, 1);
    let run = run_bridge(60000, &config, &[7i16; 24000], true);
    for pair in run.chunks.windows(2) {
        assert_eq!(
            pair[0].timestamp.as_nanos() + pair[0].duration().as_nanos(),
            pair[1].timestamp.as_nanos()
        );
    }
    assert_eq!(run.chunks.len(), 3);
    assert_eq!(run.chunks[2].samples.len(), 800);
}

#[test]
fn a_bridge_looks_twice_per_chunk() {
    let (_producer, consumer) = create_test_ring_buffer(10);
    let bridge = CaptureBridge::new(consumer, &create_test_config(16000, 1, 16000, 1));
    assert_eq!(bridge.poll_interval(), Duration::from_millis(50));
}

#[test]
fn a_chunk_that_cannot_be_converted_is_refused() {
    let (mut producer, consumer) = create_test_ring_buffer(100);
    // Five frames of three samples are no stereo.
    let config = create_test_config(50, 3, 100, 2);
    assert_eq!(producer.push_all(&[1; 15]), 0);
    let mut bridge = CaptureBridge::new(consumer, &config);
    let mut state = SessionState::new();
    let mut timestamp = Duration::zero();
    let before = state;
    assert!(matches!(
        bridge.process_next_chunk(&mut timestamp, &mut state),
        CaptureStep::Refused
    ));
    assert_eq!(state, before);
    assert_eq!(timestamp, Duration::zero());
}

#[test]
fn audio_that_stops_and_resumes_is_reported_in_turn() {
    let mut monitor = FlowMonitor::new(Some(SourceId::new("mic")));
    assert!(monitor.observe(false, Duration::from_millis(500)).is_none());
    assert!(monitor.observe(true, Duration::from_millis(700)).is_none());
    assert!(monitor.observe(false, Duration::from_millis(1200)).is_none());
    match monitor.observe(false, Duration::from_nanos(1_200_000_001)) {
        Some(StreamEvent::AudioFlowStopped { source_id, silent_duration_ms }) => {
            assert_eq!(source_id.as_str(), "mic");
            assert_eq!(silent_duration_ms, 500);
        }
        _ => panic!("Expected AudioFlowStopped"),
    }
    assert!(monitor.observe(false, Duration::from_secs(9)).is_none());
    assert!(matches!(
        monitor.observe(true, Duration::from_secs(10)),
        Some(StreamEvent::AudioFlowResumed { .. })
    ));
    assert!(monitor.observe(true, Duration::from_secs(11)).is_none());
}

#[test]
fn chunk_borders_do_not_matter_to_gaps() {
    let mut samples = vec![5i16; 300];
    samples.extend([0i16; 900]);
    samples.extend([5i16; 10]);
    samples.extend([0i16; 799]);
    samples.push(1);
    samples.extend([0i16; 850]);
    let mut whole = GapMonitor::new(None, 16000);
    let all = whole.scan_chunk(&samples, 0);
    assert_eq!(all.len(), 1);
    let totals = whole.stats();
    let flushed = whole.flush();
    assert!(flushed.is_some());
    for split in [0, 1, 300, 301, 700, 1200, 1209, 2010, 2500, 2860] {
        let mut halves = GapMonitor::new(None, 16000);
        let mut events = halves.scan_chunk(&samples[..split], 0);
        events.extend(halves.scan_chunk(&samples[split..], split as u64));
        assert_eq!(format!("{events:?}"), format!("{all:?}"));
        assert_eq!(halves.stats(), totals);
        assert_eq!(format!("{:?}", halves.flush()), format!("{flushed:?}"));
        assert_eq!(halves.stats(), whole.stats());
    }
    match &all[0] {
        StreamEvent::AudioGapDetected { position, cumulative_gaps, cumulative_gap_ms, .. } => {
            // 300 samples at 16kHz
            assert_eq!(position.as_nanos(), 18_750_000);
            assert_eq!(*cumulative_gaps, 1);
            assert_eq!(*cumulative_gap_ms, 56);
        }
        _ => panic!("Expected AudioGapDetected"),
    }
}

#[test]
fn a_report_holds_exact_sums() {
    let mut monitor = QualityMonitor::new(None);
    let event = monitor.analyze_chunk(&[i16::MIN, 3, -4], Duration::from_millis(7));
    match event {
        StreamEvent::AudioQualityReport {
            peak_amplitude, sum, sum_squares, sample_count, position, ..
        } => {
            assert_eq!(peak_amplitude, i16::MAX);
            assert_eq!(sum, -32769);
            assert_eq!(sum_squares, 32768 * 32768 + 9 + 16);
            assert_eq!(sample_count, 3);
            assert_eq!(position, Duration::from_millis(7));
        }
        _ => panic!("Expected AudioQualityReport"),
    }
}

#[test]
fn a_chunk_is_converted_and_the_time_moved_on() {
    let (_producer, consumer) = create_test_ring_buffer(10);
    let bridge = CaptureBridge::new(consumer, &create_test_config(1000, 2, 1000, 1));
    let device = AudioChunk::new(vec![10, 20, 30, 50], Duration::zero(), 1000, 2);
    let mut timestamp = Duration::from_millis(7);
    let chunk = bridge.convert_chunk(&device, &mut timestamp);
    assert_eq!(*chunk.samples, vec![15, 40]);
    assert_eq!(chunk.timestamp, Duration::from_millis(7));
    assert_eq!(chunk.source_id, Some(SourceId::new("test")));
    assert_eq!(timestamp, Duration::from_millis(9));
}

#[test]
fn a_chunk_is_watched_and_counted() {
    let (_producer, consumer) = create_test_ring_buffer(10);
    let mut bridge = CaptureBridge::new(consumer, &create_test_config(1000, 1, 1000, 1));
    let mut state = SessionState::new();
    let mut timestamp = Duration::zero();
    let mut samples = vec![0i16; 50];
    samples.push(i16::MAX);
    let device = AudioChunk::new(samples, Duration::zero(), 1000, 1);
    let (chunk, events) = bridge.take_chunk(&device, &mut timestamp, &mut state).unwrap();
    assert_eq!(chunk.samples.len(), 51);
    assert!(matches!(events[0], StreamEvent::AudioGapDetected { gap_samples: 50, .. }));
    assert!(matches!(events[1], StreamEvent::AudioQualityReport { clipped_samples: 1, .. }));
    assert_eq!(events.len(), 2);
    assert_eq!(state.audio_gaps_detected, 1);
    assert_eq!(state.total_gap_duration_ms, 50);
    assert_eq!(state.clipped_samples, 1);
    assert_eq!((state.chunks_processed, state.samples_captured), (1, 51));
    let again = bridge.monitor_chunk(&chunk, &mut state);
    assert_eq!(again.len(), 2);
    assert_eq!(state.clipped_samples, 2);
    assert_eq!(state.chunks_processed, 1);
    assert!(bridge.check_flow_timeout().is_none());
}

#[test]
fn a_shutdown_reports_gaps_in_turn_with_its_chunks() {
    let (mut producer, consumer) = create_test_ring_buffer(10000);
    let config = create_test_config(16000, 1, 16000, 1);
    let mut samples = vec![5i16; 1600];
    samples.extend([0i16; 900]);
    samples.extend([5i16; 700]);
    samples.extend([5i16; 700]);
    samples.extend([0i16; 850]);
    assert_eq!(producer.push_all(&samples), 0);
    let mut bridge = CaptureBridge::new(consumer, &config);
    let mut timestamp = Duration::zero();
    let mut state = SessionState::new();
    let outcome = bridge.drain_remaining(&mut timestamp, &mut state);
    assert!(outcome.complete);
    assert_eq!(outcome.chunks.len(), 3);
    // The first gap ends in the second chunk, the other is still open at the end.
    assert_eq!(outcome.events_before, vec![0, 1, 1]);
    assert_eq!(outcome.events.len(), 2);
}
