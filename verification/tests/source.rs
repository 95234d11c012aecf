use std::collections::HashSet;
use stream_audio::ring::can_make_ring;
use stream_audio::source::device::{
    capture_kind, capture_ring, find_device, list_known, name_or_unknown, CaptureKind, SampleKind,
};
use stream_audio::time::Duration;
use stream_audio::{DeviceConfig, MockSource, SourceId, StreamAudioError};

#[test]
fn test_device_config_default() {
    let config = DeviceConfig::default();
    assert_eq!(config.sample_rate, 16000);
    assert_eq!(config.channels, 1);
    assert_eq!(config.buffer_capacity, 16000 * 30);
}

#[test]
fn test_device_config_custom_values() {
    let config = DeviceConfig {
        sample_rate: 48000,
        channels: 2,
        buffer_capacity: 48000 * 60, // 60 seconds stereo
    };
    assert_eq!(config.sample_rate, 48000);
    assert_eq!(config.channels, 2);
    assert_eq!(config.buffer_capacity, 48000 * 60);
}

#[test]
fn test_device_not_found_error() {
    // Try to find a device with a name that definitely doesn't exist
    let names = vec![Some("Built-in Microphone".to_string()), None];
    let result = find_device(&names, "NonexistentDevice12345XYZ");
    assert!(result.is_err());

    if let Err(StreamAudioError::DeviceNotFound { name }) = result {
        assert_eq!(name, "NonexistentDevice12345XYZ");
    } else {
        panic!("Expected DeviceNotFound error");
    }
}

#[test]
fn devices_are_found_by_name() {
    let text = |s: &str| Some(s.to_string());
    let names = vec![text("a"), None, text("b"), text("b")];
    assert_eq!(find_device(&names, "b").unwrap(), 2);
    assert_eq!(list_known(&names), vec!["a", "b", "b"]);
    assert_eq!(name_or_unknown(text("a")), "a");
    assert_eq!(name_or_unknown(None), "unknown");
}

#[test]
fn sample_forms_decide_how_samples_are_taken() {
    assert_eq!(capture_kind(&SampleKind::I16).unwrap(), CaptureKind::Integers);
    assert_eq!(capture_kind(&SampleKind::F32).unwrap(), CaptureKind::Floats);
    match capture_kind(&SampleKind::Other("u8".to_string())) {
        Err(StreamAudioError::UnsupportedFormat { format }) => assert_eq!(format, "u8"),
        _ => panic!("Expected UnsupportedFormat"),
    }
}

#[test]
fn a_device_ring_holds_what_it_is_made_for() {
    let (mut producer, mut consumer) =
        capture_ring(&DeviceConfig { sample_rate: 8000, channels: 1, buffer_capacity: 3 });
    assert_eq!(producer.push_block(&[1, 2, 3, 4]), 1);
    assert_eq!(consumer.take_all(), vec![1, 2, 3]);
}

#[test]
fn test_mock_source_silence() {
    let mut mock = MockSource::new(16000, 1);
    mock.generate_silence(100);

    let samples = mock.take_samples();
    assert_eq!(samples.len(), 1600); // 16000 * 0.1 = 1600
    assert!(samples.iter().all(|&s| s == 0));
}

#[test]
fn test_mock_source_stereo() {
    let mut mock = MockSource::new(48000, 2);
    mock.generate_silence(100);

    let samples = mock.take_samples();
    // 48000 * 0.1 * 2 channels = 9600
    assert_eq!(samples.len(), 9600);
}

#[test]
fn test_mock_source_duration() {
    let mut mock = MockSource::transcription();
    mock.generate_silence(500);

    assert_eq!(mock.duration(), Duration::from_millis(500));
}

#[test]
fn test_mock_source_ring_buffer() {
    let mut mock = MockSource::new(16000, 1);
    mock.add_samples(&[1, 2, 3, 4, 5]);

    let mut consumer = mock.into_ring_buffer();
    let output = consumer.take_all();

    assert_eq!(output, vec![1, 2, 3, 4, 5]);
}

#[test]
fn an_empty_source_makes_an_empty_ring() {
    let mut consumer = MockSource::new(16000, 1).into_ring_buffer();
    assert!(consumer.take_all().is_empty());
}

#[test]
fn noise_stays_within_its_amplitude() {
    let mut mock = MockSource::new(16000, 2);
    mock.generate_noise(10, 1000);
    assert_eq!(mock.samples().len(), 320);
    assert!(mock.samples().iter().all(|&s| (-1001..=1000).contains(&s)));
    assert!(mock.samples().iter().any(|&s| s > 0));
    assert!(mock.samples().iter().any(|&s| s < 0));
    let mut again = MockSource::new(16000, 2);
    again.generate_noise(10, 1000);
    assert_eq!(again.samples(), mock.samples());
}

#[test]
fn test_source_id_equality() {
    let a = SourceId::new("mic");
    let b = SourceId::new("mic");
    let c = SourceId::new("speaker");

    assert_eq!(a, b);
    assert_ne!(a, c);
}

#[test]
fn test_source_id_display() {
    let id = SourceId::new("microphone");
    assert_eq!(id.to_text(), "microphone");
}

#[test]
fn test_source_id_from_str() {
    let id: SourceId = "test".into();
    assert_eq!(id.as_str(), "test");
}

#[test]
fn test_source_id_from_string() {
    let id: SourceId = String::from("test").into();
    assert_eq!(id.as_str(), "test");
}

#[test]
fn test_source_id_hash() {
    let mut set = HashSet::new();
    set.insert(SourceId::new("mic"));
    set.insert(SourceId::new("speaker"));
    set.insert(SourceId::new("mic")); // duplicate

    assert_eq!(set.len(), 2);
}

#[test]
fn a_source_without_a_name_is_the_default_one() {
    assert_eq!(SourceId::default().as_str(), "default");
    let id = SourceId::new("mic");
    assert_eq!(id.clone().as_str().as_ptr(), id.as_str().as_ptr());
    let text: &str = id.as_ref();
    assert_eq!(text, "mic");
}

#[test]
fn noise_comes_from_a_fixed_sequence() {
    let mut mock = MockSource::new(1000, 1);
    mock.generate_noise(4, i16::MAX);
    let mut seed: u32 = 12345;
    let mut expected = Vec::new();
    for _ in 0..4 {
        seed = seed.wrapping_mul(1_103_515_245).wrapping_add(12345);
        expected.push(((seed >> 16) as i32 - 32768) as i16);
    }
    assert_eq!(mock.samples(), &expected[..]);
}

#[test]
fn a_mock_source_tells_what_it_has_room_for() {
    let mut source = MockSource::new(48000, 2);
    assert!(source.has_room_for(0));
    assert!(source.has_room_for(60_000));
    assert!(!source.has_room_for(u64::MAX));
    // As much as can be counted in 64 bits, and one more
    assert!(source.has_room_for(u64::MAX / 48000));
    assert!(!source.has_room_for(u64::MAX / 48000 + 1));
    assert!(!MockSource::new(48000, u16::MAX).has_room_for(u64::MAX / 48000));
    source.generate_silence(10);
    assert!(source.has_room_for(60_000));
    assert!(MockSource::new(0, 2).has_room_for(u64::MAX));
}

#[test]
fn rings_hold_at_least_one_sample() {
    assert!(!can_make_ring(0));
    assert!(can_make_ring(1));
    assert!(can_make_ring(isize::MAX as u128 / 2));
    assert!(!can_make_ring(isize::MAX as u128 / 2 + 1));
    assert!(!can_make_ring(u128::MAX));
}

#[test]
fn a_device_buffers_a_span_of_time() {
    let config = DeviceConfig::for_duration(48000, 2, Duration::from_secs(30)).unwrap();
    assert_eq!((config.sample_rate, config.channels), (48000, 2));
    assert_eq!(config.buffer_capacity, 2_880_000);
    assert!(DeviceConfig::for_duration(48000, 2, Duration::zero()).is_none());
    assert!(DeviceConfig::for_duration(0, 2, Duration::from_secs(30)).is_none());
    assert!(DeviceConfig::for_duration(u32::MAX, 2, Duration::from_secs(u64::MAX)).is_none());
}

#[test]
fn a_device_ring_connects_its_ends() {
    let config = DeviceConfig { sample_rate: 8000, channels: 1, buffer_capacity: 3 };
    let (mut producer, mut consumer) = capture_ring(&config);
    assert!(consumer.take_all().is_empty());
    assert_eq!(producer.push_all(&[1, 2, 3, 4]), 1);
    assert_eq!(consumer.take_all(), vec![1, 2, 3]);
    assert_eq!(producer.push_block(&[5, 6]), 0);
    assert_eq!(consumer.take_all(), vec![5, 6]);
}
