use stream_audio::format::{resample, FormatConverter};
use stream_audio::time::Duration;
use stream_audio::{AudioChunk, MockSource};

/// A sine wave at full scale.
fn sine(frequency: f64, sample_rate: u32, frames: usize) -> Vec<i16> {
    (0..frames)
        .map(|i| {
            let t = i as f64 / f64::from(sample_rate);
            ((2.0 * std::f64::consts::PI * frequency * t).sin() * 32767.0) as i16
        })
        .collect()
}

#[test]
fn test_audio_chunk_duration() {
    // 100ms at 16kHz mono
    let chunk = AudioChunk::new(vec![0; 1600], Duration::zero(), 16000, 1);
    assert_eq!(chunk.duration(), Duration::from_millis(100));

    // 100ms at 48kHz stereo
    let chunk = AudioChunk::new(vec![0; 9600], Duration::zero(), 48000, 2);
    assert_eq!(chunk.duration(), Duration::from_millis(100));
}

#[test]
fn test_mock_source_generates_audio() {
    let mut mock = MockSource::transcription();

    // Generate 500ms of audio
    mock.generate_silence(250);
    let frames = mock.samples_for_duration(250);
    mock.add_samples(&sine(440.0, mock.sample_rate(), frames));

    assert_eq!(mock.duration(), Duration::from_millis(500));

    let samples = mock.take_samples();
    // 500ms at 16kHz = 8000 samples
    assert_eq!(samples.len(), 8000);
}

#[test]
fn test_resampling() {
    // Downsample 48kHz to 16kHz
    let samples: Vec<i16> = (0..4800).map(|i| i as i16).collect();
    let resampled = resample(&samples, 48000, 16000);

    // Should be ~1/3 the size
    assert_eq!(resampled.len(), 1600);
}

/// Tests the full pipeline using MockSource without requiring hardware.
#[test]
fn test_full_pipeline_with_mock_source() {
    // Create mock audio source with test data
    let mut mock = MockSource::transcription(); // 16kHz mono
    let frames = mock.samples_for_duration(200);
    mock.add_samples(&sine(440.0, mock.sample_rate(), frames)); // 200ms of 440Hz tone

    // Get the ring buffer consumer
    let mut consumer = mock.into_ring_buffer();
    let converter = FormatConverter::new(16000, 1, 16000, 1); // passthrough
    let samples = consumer.take_all();

    // Convert and send through a channel
    let converted = converter.convert(&samples);
    let chunk = AudioChunk::new(converted, Duration::zero(), 16000, 1);
    let (tx, mut rx) = tokio::sync::mpsc::channel::<AudioChunk>(100);
    tx.try_send(chunk).unwrap();

    // Verify we received the audio
    let received = rx.try_recv().unwrap();
    assert_eq!(received.sample_rate, 16000);
    assert_eq!(received.channels, 1);
    // 200ms at 16kHz = 3200 samples
    assert_eq!(received.samples.len(), 3200);
    // Verify it's not silence (sine wave should have non-zero samples)
    assert!(received.samples.iter().any(|&s| s != 0));
}
