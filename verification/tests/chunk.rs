use std::sync::Arc;
use stream_audio::time::Duration;
use stream_audio::{AudioChunk, SourceId};

#[test]
fn test_duration_mono_16khz() {
    let chunk = AudioChunk::new(vec![0i16; 1600], Duration::zero(), 16000, 1);
    assert_eq!(chunk.duration(), Duration::from_millis(100));
}

#[test]
fn test_duration_stereo_48khz() {
    let chunk = AudioChunk::new(vec![0i16; 9600], Duration::zero(), 48000, 2);
    // 9600 samples / 2 channels = 4800 frames / 48000 Hz = 100ms
    assert_eq!(chunk.duration(), Duration::from_millis(100));
}

#[test]
fn test_frame_count() {
    let chunk = AudioChunk::new(vec![0i16; 200], Duration::zero(), 16000, 2);
    assert_eq!(chunk.frame_count(), 100);
}

#[test]
fn test_empty_chunk() {
    let chunk = AudioChunk::new(vec![], Duration::zero(), 16000, 1);
    assert!(chunk.is_empty());
    assert_eq!(chunk.frame_count(), 0);
    assert_eq!(chunk.duration(), Duration::zero());
}

#[test]
fn test_zero_sample_rate() {
    let chunk = AudioChunk::new(vec![0i16; 100], Duration::zero(), 0, 1);
    assert_eq!(chunk.duration(), Duration::zero());
}

#[test]
fn test_zero_channels() {
    let chunk = AudioChunk::new(vec![0i16; 100], Duration::zero(), 16000, 0);
    assert_eq!(chunk.duration(), Duration::zero());
    assert_eq!(chunk.frame_count(), 0);
}

#[test]
fn durations_are_those_of_binary64() {
    for &(frames, rate) in &[(1usize, 44100u32), (441, 44100), (7, 22050), (12345, 96000), (1, 3)] {
        let chunk = AudioChunk::new(vec![0i16; frames], Duration::zero(), rate, 1);
        let expected = std::time::Duration::from_secs_f64(frames as f64 / f64::from(rate));
        assert_eq!(chunk.duration().as_nanos(), expected.as_nanos());
    }
}

#[test]
fn a_clone_shares_its_samples() {
    let samples = Arc::new(vec![1i16, 2, 3]);
    let chunk = AudioChunk::from_arc(
        Arc::clone(&samples),
        Duration::from_millis(5),
        8000,
        1,
        Some(SourceId::new("mic")),
    );
    let copy = chunk.clone();
    assert!(Arc::ptr_eq(&copy.samples, &samples));
    assert_eq!(copy.timestamp, Duration::from_millis(5));
    assert_eq!(copy.source_id, Some(SourceId::new("mic")));
}
