use stream_audio::pipeline::create_audio_buffer;
use stream_audio::pipeline::ring_buffer::{can_count_samples, samples_in_duration};
use stream_audio::time::Duration;

#[test]
fn test_audio_buffer_read_chunk() {
    let (mut producer, mut buffer) =
        create_audio_buffer(Duration::from_secs(1), 16000, 1, Duration::from_millis(100));

    // Push 100ms worth of samples (1600 at 16kHz)
    let samples: Vec<i16> = (0..1600i16).collect();
    producer.push_all(&samples);

    assert!(buffer.has_chunk());
    let chunk = buffer.try_read_chunk().unwrap();
    assert_eq!(chunk.samples.len(), 1600);
    assert_eq!(chunk.sample_rate, 16000);
    assert_eq!(chunk.channels, 1);
    assert_eq!(*chunk.samples, samples);
}

#[test]
fn test_audio_buffer_not_enough_samples() {
    let (mut producer, mut buffer) =
        create_audio_buffer(Duration::from_secs(1), 16000, 1, Duration::from_millis(100));

    // Push only 50ms worth
    let samples: Vec<i16> = (0..800i16).collect();
    producer.push_all(&samples);

    assert!(!buffer.has_chunk());
    assert!(buffer.try_read_chunk().is_none());
}

#[test]
fn test_audio_buffer_drain() {
    let (mut producer, mut buffer) =
        create_audio_buffer(Duration::from_secs(1), 16000, 1, Duration::from_millis(100));

    // Push 250ms worth (2.5 chunks)
    let samples: Vec<i16> = (0..4000i16).map(|i| i % 1000).collect();
    producer.push_all(&samples);

    let chunks = buffer.drain();
    assert_eq!(chunks.len(), 3); // 2 full chunks + 1 partial
    assert_eq!(chunks[0].samples.len(), 1600);
    assert_eq!(chunks[1].samples.len(), 1600);
    assert_eq!(chunks[2].samples.len(), 800); // remaining
}

#[test]
fn test_audio_buffer_timestamp() {
    let (mut producer, mut buffer) =
        create_audio_buffer(Duration::from_secs(1), 16000, 1, Duration::from_millis(100));

    // Push 200ms worth
    producer.push_all(&[0i16; 3200]);

    let chunk1 = buffer.try_read_chunk().unwrap();
    let chunk2 = buffer.try_read_chunk().unwrap();

    assert_eq!(chunk1.timestamp, Duration::from_millis(0));
    assert_eq!(chunk2.timestamp, Duration::from_millis(100));
}

#[test]
fn a_full_buffer_drops_the_newest_samples() {
    let (mut producer, mut buffer) =
        create_audio_buffer(Duration::from_millis(1), 4000, 1, Duration::from_millis(1));
    assert_eq!(producer.push_all(&[1, 2, 3, 4, 5, 6]), 2);
    assert_eq!(buffer.available(), 4);
    assert_eq!(*buffer.try_read_chunk().unwrap().samples, vec![1, 2, 3, 4]);
    // What was popped makes room again.
    assert_eq!(producer.push_all(&[7, 8]), 0);
    assert_eq!(producer.push_block(&[9, 10, 11]), 1);
    assert_eq!(*buffer.try_read_chunk().unwrap().samples, vec![7, 8, 9, 10]);
    assert_eq!(buffer.available(), 0);
}

#[test]
fn what_is_drained_is_what_was_pushed() {
    let (mut producer, mut buffer) =
        create_audio_buffer(Duration::from_secs(1), 8000, 2, Duration::from_millis(10));
    let samples: Vec<i16> = (0..1001i16).collect();
    assert_eq!(producer.push_block(&samples), 0);
    let chunks = buffer.drain();
    let all: Vec<i16> = chunks.iter().flat_map(|c| c.samples.iter().copied()).collect();
    assert_eq!(all, samples);
    assert_eq!(chunks.len(), 7);
    assert_eq!(chunks[6].samples.len(), 41);
    assert_eq!(chunks[6].timestamp, Duration::from_millis(60));
    assert!(buffer.drain().is_empty());
}

#[test]
fn what_is_read_is_what_was_pushed() {
    let (mut producer, mut buffer) =
        create_audio_buffer(Duration::from_millis(5), 1000, 1, Duration::from_millis(3));
    assert!(buffer.try_read_chunk().is_none());
    assert!(buffer.drain().is_empty());
    assert_eq!(producer.push_block(&[1, 2]), 0);
    assert!(buffer.try_read_chunk().is_none());
    assert_eq!(producer.push_all(&[3, 4, 5, 6]), 1);
    assert_eq!(*buffer.try_read_chunk().unwrap().samples, vec![1, 2, 3]);
    assert_eq!(producer.push_all(&[7, 8]), 0);
    assert_eq!(*buffer.try_read_chunk().unwrap().samples, vec![4, 5, 7]);
    let rest = buffer.drain();
    assert_eq!(rest.len(), 1);
    assert_eq!(*rest[0].samples, vec![8]);
    assert_eq!(rest[0].timestamp, Duration::from_millis(6));
}

#[test]
fn without_a_chunk_size_there_is_no_chunk() {
    let (mut producer, mut buffer) =
        create_audio_buffer(Duration::from_millis(5), 1000, 1, Duration::zero());
    assert_eq!(producer.push_all(&[1, 2]), 0);
    assert!(buffer.try_read_chunk().is_none());
    assert_eq!(buffer.available(), 2);
}

#[test]
fn lengths_are_rounded_as_binary64_does() {
    // 48000 * 0.009 falls just short of 432.
    assert_eq!(samples_in_duration(48000, 1, Duration::from_millis(9)), 431);
    for &(rate, millis) in &[(48000u32, 9u64), (44100, 10), (44100, 29), (22050, 7), (16000, 33)] {
        let expected = (f64::from(rate) * std::time::Duration::from_millis(millis).as_secs_f64())
            as usize;
        assert_eq!(samples_in_duration(rate, 2, Duration::from_millis(millis)), 2 * expected);
    }
}

#[test]
fn lengths_that_cannot_be_counted_are_recognised() {
    assert!(can_count_samples(48000, 2, Duration::from_millis(100)));
    assert!(!can_count_samples(u32::MAX, 1, Duration::from_secs(u64::MAX)));
    assert!(!can_count_samples(1, u16::MAX, Duration::from_secs(u64::MAX / 2)));
}
