use stream_audio::pipeline::router::{
    next_action, sink_start_error, stop_error_event, RetryDecision, RouterAction, RouterInput,
    RouterPhase,
};
use stream_audio::pipeline::{Router, RouterCommand, RoutingTable, SinkRoute};
use stream_audio::time::Duration;
use stream_audio::{
    AudioChunk, SinkError, SourceId, StreamAudioError, StreamConfig, StreamEvent,
};

/// A sink that fails some times before it writes.
struct TestSink {
    write_count: usize,
    fail_count: usize,
}

impl TestSink {
    fn new() -> Self {
        Self { write_count: 0, fail_count: 0 }
    }

    fn failing(fail_times: usize) -> Self {
        Self { write_count: 0, fail_count: fail_times }
    }

    fn write(&mut self, _chunk: &AudioChunk) -> Result<(), SinkError> {
        if self.fail_count > 0 {
            self.fail_count -= 1;
            return Err(SinkError::custom("intentional failure"));
        }
        self.write_count += 1;
        Ok(())
    }
}

/// Writes a chunk to the sinks that the router names, trying again as it says; returns the
/// pauses and the events.
fn write_chunk(
    router: &Router,
    sinks: &mut [TestSink],
    chunk: &AudioChunk,
) -> (Vec<Duration>, Vec<StreamEvent>) {
    let mut pauses = Vec::new();
    let mut events = Vec::new();
    for target in router.targets(chunk) {
        let mut attempts = router.start_write();
        while let Err(error) = sinks[target].write(chunk) {
            assert!(attempts.can_fail());
            let (event, decision) = attempts.record_failure("sink", &error);
            events.push(event);
            match decision {
                RetryDecision::RetryAfter(pause) => pauses.push(pause),
                RetryDecision::GiveUp => break,
            }
        }
    }
    (pauses, events)
}

#[test]
fn test_router_writes_to_all_sinks() {
    let mut sinks = [TestSink::new(), TestSink::new()];
    let router = Router::new(2, StreamConfig::default());

    let chunk = AudioChunk::new(vec![0; 100], Duration::zero(), 16000, 1);
    write_chunk(&router, &mut sinks, &chunk);

    assert_eq!(sinks[0].write_count, 1);
    assert_eq!(sinks[1].write_count, 1);
}

#[test]
fn test_router_retries_on_failure() {
    let mut sinks = [TestSink::failing(2)]; // Fail twice, then succeed

    let mut config = StreamConfig::default();
    config.sink_retry_delay = Duration::from_millis(1); // Fast for testing

    let router = Router::new(1, config);

    let chunk = AudioChunk::new(vec![0; 100], Duration::zero(), 16000, 1);
    let (pauses, events) = write_chunk(&router, &mut sinks, &chunk);

    assert_eq!(sinks[0].write_count, 1); // Should succeed on 3rd attempt
    assert_eq!(pauses, vec![Duration::from_millis(1), Duration::from_millis(2)]);
    assert_eq!(events.len(), 2);
}

#[test]
fn test_router_run_stops_on_command() {
    let mut sinks = [TestSink::new()];
    let router = Router::new(1, StreamConfig::default());

    // A chunk is waiting when the stop command comes in.
    let mut waiting = vec![AudioChunk::new(vec![0; 100], Duration::zero(), 16000, 1)];
    let mut stopped = Vec::new();
    let mut phase = RouterPhase::Receiving;
    loop {
        let mut received = None;
        let input = match phase {
            RouterPhase::Receiving => RouterInput::Command(RouterCommand::Stop),
            RouterPhase::Draining => {
                received = waiting.pop();
                if received.is_some() {
                    RouterInput::Chunk
                } else {
                    RouterInput::Empty
                }
            }
            _ => RouterInput::SinkStopped,
        };
        let (next, action) = next_action(phase, input, sinks.len());
        match action {
            RouterAction::Write => {
                assert!(stopped.is_empty());
                write_chunk(&router, &mut sinks, &received.unwrap());
            }
            RouterAction::StopSink { index } => stopped.push(index),
            RouterAction::Proceed => {}
            RouterAction::End => break,
        }
        phase = next;
    }

    assert_eq!(sinks[0].write_count, 1);
    assert_eq!(stopped, vec![0]);
}

#[test]
fn chunks_are_written_and_the_end_stops_the_sinks() {
    let receiving = RouterPhase::Receiving;
    assert_eq!(
        next_action(receiving, RouterInput::Chunk, 2),
        (receiving, RouterAction::Write)
    );
    let (phase, action) = next_action(receiving, RouterInput::Closed, 2);
    assert_eq!(action, RouterAction::StopSink { index: 0 });
    let (phase, action) = next_action(phase, RouterInput::SinkStopped, 2);
    assert_eq!(action, RouterAction::StopSink { index: 1 });
    let (phase, action) = next_action(phase, RouterInput::SinkStopped, 2);
    assert_eq!((phase, action), (RouterPhase::Ended, RouterAction::End));
    assert_eq!(next_action(receiving, RouterInput::Closed, 0).1, RouterAction::End);
}

#[test]
fn every_failure_is_reported() {
    let mut sinks = [TestSink::failing(3)];
    let router = Router::new(1, StreamConfig::default());
    let chunk = AudioChunk::new(vec![0; 100], Duration::zero(), 16000, 1);
    let (pauses, events) = write_chunk(&router, &mut sinks, &chunk);
    assert_eq!(pauses, vec![Duration::from_millis(100), Duration::from_millis(200)]);
    assert_eq!(events.len(), 3);
    for event in &events {
        match event {
            StreamEvent::SinkError { sink_name, error } => {
                assert_eq!(sink_name, "sink");
                assert_eq!(error, "intentional failure");
            }
            _ => panic!("Expected SinkError"),
        }
    }
    assert_eq!(sinks[0].write_count, 0);
}

#[test]
fn without_retries_there_is_one_attempt() {
    let mut config = StreamConfig::default();
    config.sink_retry_attempts = 0;
    let router = Router::new(1, config);
    let mut attempts = router.start_write();
    assert!(attempts.can_fail());
    let (_, decision) = attempts.record_failure("sink", &SinkError::ChannelClosed);
    assert!(matches!(decision, RetryDecision::GiveUp));
}

#[test]
fn sinks_get_what_their_routes_want() {
    let ids = vec![SourceId::new("mic"), SourceId::new("speaker")];
    let routes = vec![
        SinkRoute::single("speaker"),
        SinkRoute::Broadcast,
        SinkRoute::single("mic"),
        SinkRoute::single("speaker"),
    ];
    let router = Router::with_routing(&routes, &ids, StreamConfig::default()).unwrap();
    for id in ["mic", "speaker"] {
        let chunk = AudioChunk::with_source(vec![1], Duration::zero(), 8000, 1, SourceId::new(id));
        let mut targets = router.targets(&chunk);
        targets.sort_unstable();
        let wanted: Vec<usize> =
            (0..4).filter(|&i| routes[i].wants_source(&SourceId::new(id))).collect();
        assert_eq!(targets, wanted);
    }
    let anonymous = AudioChunk::new(vec![1], Duration::zero(), 8000, 1);
    assert_eq!(router.targets(&anonymous), vec![1]);
}

#[test]
fn failures_of_sinks_have_their_texts() {
    match stop_error_event("file", &SinkError::ChannelClosed) {
        StreamEvent::SinkError { sink_name, error } => {
            assert_eq!(sink_name, "file");
            assert_eq!(error, "Error during shutdown: channel closed");
        }
        _ => panic!("Expected SinkError"),
    }
    match sink_start_error("file", &SinkError::write_failed("no room")) {
        StreamAudioError::SinkStartFailed { sink_name, reason } => {
            assert_eq!(sink_name, "file");
            assert_eq!(reason, "write failed: no room");
        }
        _ => panic!("Expected SinkStartFailed"),
    }
}

#[test]
fn test_sink_route_broadcast() {
    let route = SinkRoute::Broadcast;
    assert!(route.wants_source(&SourceId::new("mic")));
    assert!(route.wants_source(&SourceId::new("speaker")));
}

#[test]
fn test_sink_route_single() {
    let route = SinkRoute::single("mic");
    assert!(route.wants_source(&SourceId::new("mic")));
    assert!(!route.wants_source(&SourceId::new("speaker")));
}

#[test]
fn test_routing_table_direct() {
    let sources = vec![SourceId::new("mic"), SourceId::new("speaker")];
    let routes = vec![
        (0, SinkRoute::single("mic")),
        (1, SinkRoute::single("speaker")),
    ];

    let table = RoutingTable::new(&routes, &sources).unwrap();

    assert_eq!(table.direct_sinks(&SourceId::new("mic")), &[0]);
    assert_eq!(table.direct_sinks(&SourceId::new("speaker")), &[1]);
    assert!(table.broadcast_sinks().is_empty());
}

#[test]
fn test_routing_table_broadcast() {
    let sources = vec![SourceId::new("mic")];
    let routes = vec![(0, SinkRoute::Broadcast), (1, SinkRoute::Broadcast)];

    let table = RoutingTable::new(&routes, &sources).unwrap();

    assert_eq!(table.broadcast_sinks(), &[0, 1]);
}

#[test]
fn test_routing_table_unknown_source() {
    let sources = vec![SourceId::new("mic")];
    let routes = vec![(0, SinkRoute::single("unknown"))];

    let result = RoutingTable::new(&routes, &sources);

    assert!(matches!(
        result,
        Err(StreamAudioError::UnknownSourceInRoute { .. })
    ));
}
