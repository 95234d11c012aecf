use std::sync::atomic::{AtomicBool, Ordering};
use std::sync::Arc;
use stream_audio::{event_callback, StreamEvent};

#[test]
fn test_stream_event_debug() {
    let event = StreamEvent::BufferOverflow { dropped_ms: 100 };
    let debug = format!("{:?}", event);
    assert!(debug.contains("BufferOverflow"));
    assert!(debug.contains("100"));
}

#[test]
fn test_stream_event_clone() {
    let event = StreamEvent::SinkError {
        sink_name: "file".to_string(),
        error: "disk full".to_string(),
    };
    let cloned = event.clone();
    if let StreamEvent::SinkError { sink_name, error } = cloned {
        assert_eq!(sink_name, "file");
        assert_eq!(error, "disk full");
    } else {
        panic!("Expected SinkError variant");
    }
}

#[test]
fn test_event_callback_helper() {
    let called = Arc::new(AtomicBool::new(false));
    let called_clone = called.clone();

    let callback = event_callback(move |_| {
        called_clone.store(true, Ordering::SeqCst);
    });

    callback(StreamEvent::BufferOverflow { dropped_ms: 0 });
    assert!(called.load(Ordering::SeqCst));
}
