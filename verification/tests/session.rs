use stream_audio::session::{
    source_stopped_events, ShutdownStep, SHUTDOWN_TIMEOUT_MS, STOP_COMMAND_TIMEOUT_MS,
};
use stream_audio::{SessionState, SessionStats, SourceId, StreamEvent};

#[test]
fn test_session_state_new() {
    let state = SessionState::new();
    assert!(state.running);
    assert_eq!(state.chunks_processed, 0);
}

#[test]
fn test_session_stats_default() {
    let stats = SessionStats::default();
    assert_eq!(stats.chunks_processed, 0);
    assert_eq!(stats.samples_captured, 0);
    assert_eq!(stats.buffer_overflows, 0);
}

#[test]
fn test_session_is_running_initial_true() {
    assert!(SessionState::new().is_running());
}

#[test]
fn test_session_is_running_after_stop_false() {
    let mut state = SessionState::new();
    assert!(state.is_running());
    state.stop_internal(0, true);
    assert!(!state.is_running());
}

#[test]
fn test_session_stop_sets_running_false() {
    let mut state = SessionState::new();
    assert!(state.running);
    state.stop_internal(0, true);
    assert!(!state.running);
}

#[test]
fn test_session_stop_twice_is_safe() {
    let mut state = SessionState::new();
    assert!(!state.stop_internal(2, true).is_empty());
    // Second stop has nothing to do
    assert!(state.stop_internal(2, true).is_empty());
    assert!(!state.running);
}

#[test]
fn test_session_stop_sends_router_command() {
    let mut state = SessionState::new();
    let steps = state.stop_internal(0, true);
    assert!(steps.contains(&ShutdownStep::SendStop { timeout_ms: STOP_COMMAND_TIMEOUT_MS }));
}

#[test]
fn test_session_stats_reflects_state() {
    let mut state = SessionState::new();
    state.chunks_processed = 100;
    state.samples_captured = 160000;
    state.buffer_overflows = 2;
    state.audio_gaps_detected = 3;
    state.total_gap_duration_ms = 150;
    state.clipped_samples = 50;

    let stats = state.stats();
    assert_eq!(stats.chunks_processed, 100);
    assert_eq!(stats.samples_captured, 160000);
    assert_eq!(stats.buffer_overflows, 2);
    assert_eq!(stats.audio_gaps_detected, 3);
    assert_eq!(stats.total_gap_duration_ms, 150);
    assert_eq!(stats.clipped_samples, 50);
}

#[test]
fn test_session_stop_emits_source_stopped_events() {
    let mut state = SessionState::new();
    let steps = state.stop_internal(0, true);
    assert_eq!(*steps.last().unwrap(), ShutdownStep::ReportStopped);

    let ids = vec![SourceId::new("source1"), SourceId::new("source2")];
    let captured_events = source_stopped_events(&ids);
    assert_eq!(captured_events.len(), 2); // Two sources

    // Check first event
    if let StreamEvent::SourceStopped { source_id, reason } = &captured_events[0] {
        assert_eq!(source_id.as_str(), "source1");
        assert_eq!(reason, "session stopped");
    } else {
        panic!("Expected SourceStopped event");
    }

    // Check second event
    if let StreamEvent::SourceStopped { source_id, reason } = &captured_events[1] {
        assert_eq!(source_id.as_str(), "source2");
        assert_eq!(reason, "session stopped");
    } else {
        panic!("Expected SourceStopped event");
    }
}

#[test]
fn test_session_drop_without_stop_triggers_cleanup() {
    let mut state = SessionState::new();
    let steps = state.cleanup(0, true, true);

    // State should be set to not running
    assert!(!state.running);

    // Stop command should have been sent
    assert!(steps.contains(&ShutdownStep::TrySendStop));
}

#[test]
fn test_session_drop_after_stop_no_double_cleanup() {
    let mut state = SessionState::new();
    let first = state.stop_internal(0, true);
    let second = state.cleanup(0, true, true);

    // Only one Stop command should have been sent
    let sent = first.iter().filter(|s| matches!(s, ShutdownStep::SendStop { .. })).count();
    assert_eq!(sent, 1);
    assert!(second.is_empty());
}

#[test]
fn a_shutdown_drains_the_captures_before_the_router_stops() {
    let mut state = SessionState::new();
    assert_eq!(
        state.stop_internal(2, true),
        vec![
            ShutdownStep::StopStreams,
            ShutdownStep::AwaitCapture { index: 0, timeout_ms: 5000 },
            ShutdownStep::AwaitCapture { index: 1, timeout_ms: 5000 },
            ShutdownStep::SendStop { timeout_ms: 100 },
            ShutdownStep::AwaitRouter { timeout_ms: SHUTDOWN_TIMEOUT_MS },
            ShutdownStep::ReportStopped,
        ]
    );
}

#[test]
fn without_a_runtime_a_cleanup_does_not_wait() {
    let mut state = SessionState::new();
    let steps = state.cleanup(2, true, false);
    assert!(!steps.iter().any(|s| matches!(
        s,
        ShutdownStep::AwaitCapture { .. } | ShutdownStep::AwaitRouter { .. }
    )));
    assert!(!state.running);
}

#[test]
fn chunks_are_counted() {
    let mut state = SessionState::new();
    state.count_chunk(1600);
    state.count_chunk(800);
    assert_eq!(state.chunks_processed, 2);
    assert_eq!(state.samples_captured, 2400);
}

#[test]
fn dropped_samples_are_counted_and_reported() {
    let mut state = SessionState::new();
    assert!(state.note_overflow(0, 16000, 1).is_none());
    assert_eq!(state.stats().buffer_overflows, 0);
    // 24000 samples at 48kHz stereo
    match state.note_overflow(24000, 48000, 2) {
        Some(StreamEvent::BufferOverflow { dropped_ms }) => assert_eq!(dropped_ms, 250),
        _ => panic!("Expected BufferOverflow"),
    }
    match state.note_overflow(1, 0, 2) {
        Some(StreamEvent::BufferOverflow { dropped_ms }) => assert_eq!(dropped_ms, 0),
        _ => panic!("Expected BufferOverflow"),
    }
    assert_eq!(state.stats().buffer_overflows, 2);
}
