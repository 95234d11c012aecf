use stream_audio::pipeline::TimeWindowMerger;
use stream_audio::time::Duration;
use stream_audio::{AudioChunk, SourceId, StreamEvent};

/// Default max pending windows for tests (~1 second at 100ms windows).
const DEFAULT_MAX_PENDING: usize = 10;

/// Creates a merger with default max pending.
fn new_merger(
    window_duration: Duration,
    window_timeout: Duration,
    expected_sources: Vec<SourceId>,
    sample_rate: u32,
    channels: u16,
) -> TimeWindowMerger {
    TimeWindowMerger::with_max_pending(
        window_duration,
        window_timeout,
        expected_sources,
        sample_rate,
        channels,
        DEFAULT_MAX_PENDING,
    )
}

/// Creates a test chunk with the given source, timestamp, and samples.
fn make_chunk(source: &str, timestamp_ms: u64, samples: Vec<i16>) -> AudioChunk {
    AudioChunk::with_source(
        samples,
        Duration::from_millis(timestamp_ms),
        16000,
        1,
        SourceId::new(source),
    )
}

#[test]
fn test_merger_complete_window() {
    let mut merger = new_merger(
        Duration::from_millis(100),
        Duration::from_millis(200),
        vec![SourceId::new("mic"), SourceId::new("speaker")],
        16000,
        1,
    );

    // Add mic chunk for window 0 (0-100ms)
    let mic_chunk = make_chunk("mic", 50, vec![100, 200, 300]);
    let results = merger.add_chunk(&mic_chunk);
    assert!(results.is_empty()); // Not complete yet

    // Add speaker chunk for same window
    let speaker_chunk = make_chunk("speaker", 50, vec![50, 100, 150]);
    let results = merger.add_chunk(&speaker_chunk);
    assert_eq!(results.len(), 1); // Complete!

    let result = &results[0];
    assert!(result.is_complete());
    assert_eq!(result.window_id, 0);
    // Average of [100,200,300] and [50,100,150] = [75,150,225]
    assert_eq!(*result.chunk.samples, vec![75, 150, 225]);
}

#[test]
fn test_merger_different_windows() {
    let mut merger = new_merger(
        Duration::from_millis(100),
        Duration::from_millis(200),
        vec![SourceId::new("mic"), SourceId::new("speaker")],
        16000,
        1,
    );

    // Add chunks to different windows
    let mic_chunk = make_chunk("mic", 50, vec![100]); // Window 0
    let results = merger.add_chunk(&mic_chunk);
    assert!(results.is_empty());

    let speaker_chunk = make_chunk("speaker", 150, vec![200]); // Window 1
    let results = merger.add_chunk(&speaker_chunk);
    assert!(results.is_empty());

    // Both windows still pending
    assert_eq!(merger.pending_count(), 2);
}

#[test]
fn test_merger_timeout() {
    let mut merger = new_merger(
        Duration::from_millis(100),
        Duration::from_millis(0), // Immediate timeout
        vec![SourceId::new("mic"), SourceId::new("speaker")],
        16000,
        1,
    );

    // Add only mic chunk
    let mic_chunk = make_chunk("mic", 50, vec![100, 200]);
    merger.add_chunk(&mic_chunk);

    // Check timeouts - should emit incomplete window
    let results = merger.check_timeouts();
    assert_eq!(results.len(), 1);

    let result = &results[0];
    assert!(!result.is_complete());
    assert_eq!(result.missing.len(), 1);
    assert_eq!(result.missing[0], SourceId::new("speaker"));

    // With only 1 source of 2, average is: [100,200] / 2 = [50,100]
    assert_eq!(*result.chunk.samples, vec![50, 100]);
}

#[test]
fn test_merger_window_id_calculation() {
    let merger = new_merger(
        Duration::from_millis(100),
        Duration::from_millis(200),
        vec![SourceId::new("mic")],
        16000,
        1,
    );

    assert_eq!(merger.window_id_for_timestamp(Duration::from_millis(0)), 0);
    assert_eq!(merger.window_id_for_timestamp(Duration::from_millis(50)), 0);
    assert_eq!(merger.window_id_for_timestamp(Duration::from_millis(99)), 0);
    assert_eq!(
        merger.window_id_for_timestamp(Duration::from_millis(100)),
        1
    );
    assert_eq!(
        merger.window_id_for_timestamp(Duration::from_millis(250)),
        2
    );
}

#[test]
fn test_merger_empty_chunks() {
    let merger = new_merger(
        Duration::from_millis(100),
        Duration::from_millis(200),
        vec![SourceId::new("mic")],
        16000,
        1,
    );

    // merge_chunks without chunks
    let chunk = merger.merge_chunks(&Vec::new(), Duration::zero());
    // Should be silence with expected sample count
    assert_eq!(chunk.samples.len(), 1600); // 100ms at 16kHz mono
    assert!(chunk.samples.iter().all(|&s| s == 0));
}

#[test]
fn test_merger_clear() {
    let mut merger = new_merger(
        Duration::from_millis(100),
        Duration::from_millis(200),
        vec![SourceId::new("mic"), SourceId::new("speaker")], // Two sources
        16000,
        1,
    );

    // Add only one source - window stays pending
    merger.add_chunk(&make_chunk("mic", 50, vec![100]));
    assert_eq!(merger.pending_count(), 1);

    merger.clear();
    assert_eq!(merger.pending_count(), 0);
}

#[test]
fn test_merger_evicts_oldest_when_over_limit() {
    // Create merger with max 2 pending windows
    let mut merger = TimeWindowMerger::with_max_pending(
        Duration::from_millis(100),
        Duration::from_millis(1000), // Long timeout so we test eviction not timeout
        vec![SourceId::new("mic"), SourceId::new("speaker")],
        16000,
        1,
        2, // max 2 pending
    );

    // Add chunks to windows 0, 1 (from mic only - incomplete)
    merger.add_chunk(&make_chunk("mic", 50, vec![100])); // Window 0
    merger.add_chunk(&make_chunk("mic", 150, vec![200])); // Window 1
    assert_eq!(merger.pending_count(), 2);

    // Add chunk to window 2 - should evict window 0
    let results = merger.add_chunk(&make_chunk("mic", 250, vec![300])); // Window 2
    assert_eq!(results.len(), 1); // Window 0 evicted
    assert_eq!(results[0].window_id, 0);
    assert!(!results[0].is_complete()); // Missing speaker

    // Should now have windows 1 and 2
    assert_eq!(merger.pending_count(), 2);
}

fn two_sources() -> TimeWindowMerger {
    new_merger(
        Duration::from_millis(100),
        Duration::from_millis(200),
        vec![SourceId::new("mic"), SourceId::new("speaker")],
        16000,
        1,
    )
}

#[test]
fn a_chunk_without_a_source_is_ignored() {
    let mut merger = two_sources();
    let chunk = AudioChunk::new(vec![1], Duration::zero(), 16000, 1);
    assert!(merger.add_chunk(&chunk).is_empty());
    assert_eq!(merger.pending_count(), 0);
}

#[test]
fn a_second_chunk_of_a_source_replaces_the_first() {
    let mut merger = two_sources();
    assert!(merger.add_chunk(&make_chunk("mic", 10, vec![100])).is_empty());
    assert!(merger.add_chunk(&make_chunk("mic", 20, vec![200])).is_empty());
    let results = merger.add_chunk(&make_chunk("speaker", 30, vec![400]));
    assert_eq!(*results[0].chunk.samples, vec![300]);
    assert_eq!(results[0].chunk.timestamp, Duration::zero());
    assert!(results[0].chunk.source_id.is_none());
}

#[test]
fn windows_leave_when_they_have_waited() {
    let mut merger = two_sources();
    merger.add_chunk_at(&make_chunk("mic", 50, vec![100]), Duration::from_millis(1001));
    merger.add_chunk_at(&make_chunk("mic", 150, vec![300]), Duration::from_millis(1000));
    // A second chunk does not make its window wait longer.
    merger.add_chunk_at(&make_chunk("mic", 150, vec![300]), Duration::from_millis(1150));
    assert!(merger.emit_due(Duration::from_millis(1199)).is_empty());
    let results = merger.emit_due(Duration::from_millis(1200));
    assert_eq!(results.len(), 1);
    assert_eq!(results[0].window_id, 1);
    assert_eq!(results[0].chunk.timestamp, Duration::from_millis(100));
    assert_eq!(merger.pending_count(), 1);
    assert!(merger.check_timeouts().is_empty());
    assert_eq!(merger.emit_due(Duration::from_secs(9)).len(), 1);
}

#[test]
fn only_incomplete_merges_are_reported() {
    let mut merger = two_sources();
    merger.add_chunk(&make_chunk("mic", 350, vec![100]));
    let results = merger.emit_due(Duration::from_secs(1));
    match results[0].incomplete_event() {
        Some(StreamEvent::MergeIncomplete { window_id, missing }) => {
            assert_eq!(window_id, 3);
            assert_eq!(missing, vec![SourceId::new("speaker")]);
        }
        _ => panic!("Expected MergeIncomplete"),
    }
    merger.add_chunk(&make_chunk("mic", 50, vec![100]));
    let complete = merger.add_chunk(&make_chunk("speaker", 50, vec![100]));
    assert!(complete[0].incomplete_event().is_none());
}

#[test]
fn mixing_does_not_depend_on_the_order() {
    let merger = two_sources();
    let a = make_chunk("mic", 0, vec![-3, i16::MIN, 7]);
    let b = make_chunk("speaker", 0, vec![-4, i16::MIN, 8]);
    let one = merger.merge_chunks(&vec![a.clone(), b.clone()], Duration::zero());
    let other = merger.merge_chunks(&vec![b, a], Duration::zero());
    assert_eq!(*one.samples, vec![-3, i16::MIN, 7]);
    assert_eq!(one.samples, other.samples);
}

#[test]
fn a_shorter_chunk_is_filled_with_silence() {
    let merger = two_sources();
    let a = make_chunk("mic", 0, vec![10, 20, 30]);
    let b = make_chunk("speaker", 0, vec![30]);
    let merged = merger.merge_chunks(&vec![a, b], Duration::zero());
    assert_eq!(*merged.samples, vec![20, 10, 15]);
}

#[test]
fn no_more_windows_wait_than_may() {
    let mut merger = TimeWindowMerger::with_max_pending(
        Duration::from_millis(100),
        Duration::from_secs(1),
        vec![SourceId::new("mic"), SourceId::new("speaker")],
        16000,
        1,
        0,
    );
    let results = merger.add_chunk(&make_chunk("mic", 50, vec![100]));
    assert_eq!(results.len(), 1);
    assert_eq!(merger.pending_count(), 0);
}

#[test]
fn the_oldest_window_goes_when_there_is_one_too_many() {
    let mut merger = TimeWindowMerger::with_max_pending(
        Duration::from_millis(100),
        Duration::from_secs(1),
        vec![SourceId::new("mic"), SourceId::new("speaker")],
        16000,
        1,
        2,
    );
    assert!(merger.add_chunk(&make_chunk("mic", 550, vec![1])).is_empty());
    assert!(merger.add_chunk(&make_chunk("mic", 350, vec![2])).is_empty());
    let results = merger.add_chunk(&make_chunk("mic", 750, vec![3]));
    assert_eq!(results.len(), 1);
    assert_eq!(results[0].window_id, 3);
    assert_eq!(results[0].chunk.timestamp, Duration::from_millis(300));
    assert_eq!(results[0].missing, vec![SourceId::new("speaker")]);
    assert_eq!(merger.pending_count(), 2);
    // A chunk for an older window still is the one to go.
    let results = merger.add_chunk(&make_chunk("mic", 50, vec![4]));
    assert_eq!(results[0].window_id, 0);
    assert_eq!(merger.pending_count(), 2);
}

#[test]
fn timeouts_are_measured_on_one_clock() {
    let mut merger = new_merger(
        Duration::from_millis(100),
        Duration::from_millis(60),
        vec![SourceId::new("mic"), SourceId::new("speaker")],
        16000,
        1,
    );
    assert!(merger.add_chunk(&make_chunk("mic", 50, vec![100])).is_empty());
    let start = std::time::Instant::now();
    while start.elapsed() < std::time::Duration::from_millis(80) {
        // Neither of these makes the window wait longer.
        merger.add_chunk(&make_chunk("mic", 50, vec![100]));
        merger.add_chunk(&AudioChunk::new(vec![1], Duration::zero(), 16000, 1));
    }
    assert_eq!(merger.check_timeouts().len(), 1);
    assert_eq!(merger.pending_count(), 0);
}
