use stream_audio::platform::permissions::ScreenCapturePermission;
use stream_audio::source::system_audio::cpal_loopback::CpalLoopbackBackend;
use stream_audio::source::system_audio::mock::MockSystemAudioBackend;
use stream_audio::source::system_audio::sck_native::{
    buffer_capacity, start_result, SCKError, SCKNativeBackend,
};
use stream_audio::source::system_audio::screencapturekit::{
    extract_audio_samples, find_app, start_error, AppIdentifier, BufferInfo, CapturePlan,
    CaptureTarget, RunningApp, ScreenCaptureKitBackend, ScreenCaptureKitConfig, ShareableContent,
    StreamSettings, BUFFER_CAPACITY,
};
use stream_audio::source::system_audio::test_support::{
    can_run_system_audio_tests, ci_env_var, SystemAudioTestSupport, CI_ENV_VAR_COUNT,
};
use stream_audio::source::system_audio::{
    create_system_audio_backend, EventQueue, SystemAudioEvent, SystemAudioSupport,
    DEFAULT_SYSTEM_AUDIO_CHANNELS, DEFAULT_SYSTEM_AUDIO_SAMPLE_RATE,
};
use stream_audio::StreamAudioError;

#[test]
fn test_constants() {
    assert_eq!(DEFAULT_SYSTEM_AUDIO_SAMPLE_RATE, 48000);
    assert_eq!(DEFAULT_SYSTEM_AUDIO_CHANNELS, 2);
}

#[test]
fn test_create_backend_without_feature() {
    for support in [SystemAudioSupport::FeatureDisabled, SystemAudioSupport::OtherPlatform] {
        let result = create_system_audio_backend(support, ScreenCapturePermission::Granted);
        assert!(result.is_err());
    }
}

#[test]
fn a_native_backend_needs_permission() {
    let native = SystemAudioSupport::Native;
    assert!(create_system_audio_backend(native, ScreenCapturePermission::Granted).is_ok());
    for permission in [ScreenCapturePermission::Denied, ScreenCapturePermission::Unknown] {
        assert!(matches!(
            create_system_audio_backend(native, permission),
            Err(StreamAudioError::SystemAudioPermissionDenied)
        ));
    }
}

#[test]
fn the_reason_why_there_is_no_backend_is_told() {
    let message = |support| {
        create_system_audio_backend(support, ScreenCapturePermission::Granted)
            .unwrap_err()
            .message()
    };
    assert_eq!(
        message(SystemAudioSupport::FeatureDisabled),
        "system audio capture unavailable: sck-native feature not enabled - add `features = [\"sck-native\"]` to Cargo.toml"
    );
    assert_eq!(
        message(SystemAudioSupport::OtherPlatform),
        "system audio capture unavailable: System audio capture is only available on macOS"
    );
}

#[test]
fn test_permission_check_returns_valid_status() {
    for granted in [true, false] {
        let status = ScreenCapturePermission::from_answer(granted);
        assert!(matches!(
            status,
            ScreenCapturePermission::Granted | ScreenCapturePermission::Denied
        ));
        assert_eq!(status == ScreenCapturePermission::Granted, granted);
    }
}

#[test]
fn test_mock_backend_default() {
    let backend = MockSystemAudioBackend::new();
    let (sample_rate, channels) = backend.native_config();
    assert_eq!(sample_rate, DEFAULT_SYSTEM_AUDIO_SAMPLE_RATE);
    assert_eq!(channels, DEFAULT_SYSTEM_AUDIO_CHANNELS);
    assert_eq!(backend.name(), "MockSystemAudio");
}

#[test]
fn test_mock_backend_custom_config() {
    let backend = MockSystemAudioBackend::with_config(44100, 1);
    let (sample_rate, channels) = backend.native_config();
    assert_eq!(sample_rate, 44100);
    assert_eq!(channels, 1);
}

#[test]
fn test_mock_backend_with_samples() {
    let samples = vec![100, 200, 300, 400];
    let backend = MockSystemAudioBackend::with_samples(samples.clone());
    let mut consumer = backend.start_capture(true).unwrap();

    // Verify pre-filled samples
    assert_eq!(consumer.take_all(), samples);
}

#[test]
fn a_mock_backend_needs_the_native_build() {
    let result = MockSystemAudioBackend::default().start_capture(false);
    match result {
        Err(StreamAudioError::SystemAudioUnavailable { reason }) => {
            assert_eq!(reason, "mock backend requires sck-native feature")
        }
        _ => panic!("Expected SystemAudioUnavailable"),
    }
}

#[test]
fn test_sck_error_from_i32() {
    assert_eq!(SCKError::from_i32(0), SCKError::Success);
    assert_eq!(SCKError::from_i32(1), SCKError::PermissionDenied);
    assert_eq!(SCKError::from_i32(99), SCKError::CaptureFailed);
}

#[test]
fn every_code_of_the_native_library_is_known() {
    assert_eq!(SCKError::from_i32(2), SCKError::NoDisplays);
    assert_eq!(SCKError::from_i32(3), SCKError::CaptureFailed);
    assert_eq!(SCKError::from_i32(4), SCKError::AlreadyRunning);
    assert_eq!(SCKError::from_i32(5), SCKError::NotRunning);
    assert_eq!(SCKError::from_i32(6), SCKError::InvalidSession);
    assert_eq!(SCKError::from_i32(-1), SCKError::CaptureFailed);
}

#[test]
fn a_failed_start_is_told_apart() {
    assert!(start_result(0, None).is_ok());
    assert!(matches!(
        start_result(1, None),
        Err(StreamAudioError::SystemAudioPermissionDenied)
    ));
    match start_result(2, None) {
        Err(StreamAudioError::SystemAudioUnavailable { reason }) => {
            assert_eq!(reason, "No displays available")
        }
        _ => panic!("Expected SystemAudioUnavailable"),
    }
    match start_result(-17, None) {
        Err(StreamAudioError::SystemAudioRuntimeFailure { context, cause }) => {
            assert_eq!(context, "start capture");
            assert_eq!(cause, "Capture failed with error -17");
        }
        _ => panic!("Expected SystemAudioRuntimeFailure"),
    }
    match start_result(5, Some("not running".to_string())) {
        Err(StreamAudioError::SystemAudioRuntimeFailure { cause, .. }) => {
            assert_eq!(cause, "not running")
        }
        _ => panic!("Expected SystemAudioRuntimeFailure"),
    }
    match start_result(i32::MIN, None) {
        Err(StreamAudioError::SystemAudioRuntimeFailure { cause, .. }) => {
            assert_eq!(cause, format!("Capture failed with error {}", i32::MIN))
        }
        _ => panic!("Expected SystemAudioRuntimeFailure"),
    }
}

#[test]
fn a_native_buffer_holds_thirty_seconds() {
    assert_eq!(buffer_capacity(48000, 2), 2_880_000);
    assert_eq!(BUFFER_CAPACITY, buffer_capacity(48000, 2));
}

#[test]
fn a_native_backend_takes_samples_while_it_is_active() {
    assert!(SCKNativeBackend::new(false, 1, 1).is_err());
    // 30 samples of room
    let mut backend = SCKNativeBackend::new(true, 1, 1).unwrap();
    assert_eq!(backend.native_config(), (1, 1));
    assert_eq!(backend.name(), "SCKNative");
    backend.audio_callback(&[1, 2, 3]);
    let mut consumer = backend.start_capture();
    assert!(backend.capture_started(0, None).is_ok());
    backend.audio_callback(&[4; 20]);
    assert!(backend.poll_events().is_empty());
    backend.audio_callback(&[5; 15]);
    backend.audio_callback(&[6; 2]);
    match &backend.poll_events()[..] {
        [SystemAudioEvent::Overflow { dropped_frames }] => assert_eq!(*dropped_frames, 7),
        _ => panic!("Expected one Overflow"),
    }
    assert!(backend.poll_events().is_empty());
    let mut expected = vec![4; 20];
    expected.extend([5; 10]);
    assert_eq!(consumer.take_all(), expected);
    backend.close();
    backend.audio_callback(&[7, 8]);
    assert!(consumer.take_all().is_empty());
}

#[test]
fn a_native_backend_needs_a_format_to_start() {
    assert!(SCKNativeBackend::new(true, 48000, 2).unwrap().can_start_capture());
    assert!(!SCKNativeBackend::new(true, 0, 2).unwrap().can_start_capture());
    assert!(!SCKNativeBackend::new(true, 48000, 0).unwrap().can_start_capture());
}

#[test]
fn a_native_backend_that_failed_to_start_ignores_samples() {
    let mut backend = SCKNativeBackend::new(true, 8000, 1).unwrap();
    let mut consumer = backend.start_capture();
    assert!(backend.capture_started(3, None).is_err());
    backend.audio_callback(&[1, 2, 3]);
    assert!(consumer.take_all().is_empty());
}

#[test]
fn test_config_default() {
    let config = ScreenCaptureKitConfig::default();
    assert!(matches!(config.target, CaptureTarget::AllApps));
    assert!(config.exclude_self);
}

#[test]
fn test_config_app_by_bundle_id() {
    let config = ScreenCaptureKitConfig::app_by_bundle_id("com.spotify.client");
    assert!(matches!(
        config.target,
        CaptureTarget::App(AppIdentifier::BundleId(ref id)) if id == "com.spotify.client"
    ));
}

#[test]
fn test_config_app_by_name() {
    let config = ScreenCaptureKitConfig::app_by_name("Spotify");
    assert!(matches!(
        config.target,
        CaptureTarget::App(AppIdentifier::Name(ref name)) if name == "Spotify"
    ));
}

#[test]
fn test_app_identifier_display() {
    let bundle = AppIdentifier::BundleId("com.example.app".to_string());
    assert_eq!(bundle.to_text(), "bundle:com.example.app");

    let name = AppIdentifier::Name("Example".to_string());
    assert_eq!(name.to_text(), "name:Example");
}

fn backend(config: ScreenCaptureKitConfig) -> ScreenCaptureKitBackend {
    ScreenCaptureKitBackend::new(config, Ok(())).unwrap()
}

fn content(displays: usize, apps: &[(&str, &str)]) -> Result<ShareableContent, String> {
    Ok(ShareableContent {
        displays,
        apps: apps
            .iter()
            .map(|(bundle_id, name)| RunningApp {
                bundle_id: bundle_id.to_string(),
                name: name.to_string(),
            })
            .collect(),
    })
}

fn open_stream(backend: &ScreenCaptureKitBackend) -> CapturePlan {
    backend.start_capture(&content(1, &APPS), &None).unwrap()
}

const APPS: [(&str, &str); 4] =
    [("com.a", "A"), ("com.b", "B"), ("com.a", "A helper"), ("com.c", "B")];

#[test]
fn all_applications_but_this_one_are_captured() {
    let all = backend(ScreenCaptureKitConfig::all_apps());
    let own = Some("com.a".to_string());
    assert_eq!(all.build_filter(&content(1, &APPS), &own).unwrap(), vec![1, 3]);
    assert_eq!(all.build_filter(&content(1, &APPS), &None).unwrap(), vec![0, 1, 2, 3]);
    let with_self = backend(ScreenCaptureKitConfig {
        target: CaptureTarget::AllApps,
        exclude_self: false,
    });
    assert_eq!(with_self.build_filter(&content(2, &APPS), &own).unwrap(), vec![0, 1, 2, 3]);
}

#[test]
fn one_application_is_found_by_its_identifier() {
    let by_id = backend(ScreenCaptureKitConfig::app_by_bundle_id("com.c"));
    assert_eq!(by_id.build_filter(&content(1, &APPS), &None).unwrap(), vec![3]);
    let by_name = backend(ScreenCaptureKitConfig::app_by_name("B"));
    assert_eq!(by_name.build_filter(&content(1, &APPS), &None).unwrap(), vec![1]);
    match by_name.build_filter(&content(1, &[]), &None) {
        Err(StreamAudioError::SystemAudioAppNotFound { identifier }) => {
            assert_eq!(identifier, "name:B")
        }
        _ => panic!("Expected SystemAudioAppNotFound"),
    }
    let apps = content(1, &APPS).unwrap().apps;
    assert_eq!(find_app(&apps, &AppIdentifier::Name("A helper".to_string())).unwrap(), 2);
}

#[test]
fn content_that_cannot_be_had_is_told() {
    let all = backend(ScreenCaptureKitConfig::all_apps());
    match all.build_filter(&content(0, &APPS), &None) {
        Err(StreamAudioError::SystemAudioUnavailable { reason }) => {
            assert_eq!(reason, "no displays available")
        }
        _ => panic!("Expected SystemAudioUnavailable"),
    }
    match all.build_filter(&Err("gone".to_string()), &None) {
        Err(StreamAudioError::SystemAudioRuntimeFailure { context, cause }) => {
            assert_eq!(context, "get shareable content");
            assert_eq!(cause, "gone");
        }
        _ => panic!("Expected SystemAudioRuntimeFailure"),
    }
}

#[test]
fn errors_that_speak_of_permission_are_recognised() {
    let new = |message: &str| {
        ScreenCaptureKitBackend::new(ScreenCaptureKitConfig::all_apps(), Err(message.to_string()))
            .unwrap_err()
    };
    assert!(matches!(new("no permission here"), StreamAudioError::SystemAudioPermissionDenied));
    assert_eq!(
        new("permissio").message(),
        "system audio capture unavailable: failed to access ScreenCaptureKit: permissio"
    );
    for text in ["permission", "was denied", "deniedenied"] {
        assert!(matches!(
            start_error(text.to_string()),
            StreamAudioError::SystemAudioPermissionDenied
        ));
    }
    match start_error("denie".to_string()) {
        StreamAudioError::SystemAudioRuntimeFailure { context, cause } => {
            assert_eq!(context, "start capture");
            assert_eq!(cause, "denie");
        }
        _ => panic!("Expected SystemAudioRuntimeFailure"),
    }
}

#[test]
fn samples_are_extracted_from_all_buffers() {
    let one = [1.0f32, -0.5].iter().flat_map(|s| s.to_le_bytes()).collect::<Vec<u8>>();
    let mut two = 0.25f32.to_le_bytes().to_vec();
    two.extend([9, 9, 9]);
    let words = extract_audio_samples(&vec![one, vec![], two]).unwrap();
    let samples: Vec<f32> = words.into_iter().map(f32::from_bits).collect();
    assert_eq!(samples, vec![1.0, -0.5, 0.25]);
    assert!(extract_audio_samples(&vec![vec![1, 2, 3]]).is_none());
    assert!(extract_audio_samples(&vec![]).is_none());
}

#[test]
fn only_the_first_audio_buffer_is_checked() {
    let backend = backend(ScreenCaptureKitConfig::all_apps());
    assert_eq!(backend.native_config(), (48000, 2));
    assert_eq!(backend.name(), "ScreenCaptureKit");
    let mut handler = open_stream(&backend).handler;
    let mut events = EventQueue::new();
    let odd = BufferInfo { is_audio: true, num_samples: 10, total_size: 40 };
    let video = BufferInfo { is_audio: false, ..odd };
    assert!(!handler.inspect_buffer(&video, &mut events));
    assert!(handler.inspect_buffer(&odd, &mut events));
    assert!(handler.inspect_buffer(&odd, &mut events));
    match &events.drain()[..] {
        [SystemAudioEvent::CaptureDegraded { reason }] => {
            assert_eq!(reason, "unexpected audio format: 4 bytes/sample")
        }
        _ => panic!("Expected one CaptureDegraded"),
    }
    let mut other = open_stream(&backend).handler;
    let usual = BufferInfo { is_audio: true, num_samples: 10, total_size: 80 };
    assert!(other.inspect_buffer(&usual, &mut events));
    assert!(events.drain().is_empty());
}

#[test]
fn large_overflows_and_round_totals_are_reported() {
    let backend = backend(ScreenCaptureKitConfig::all_apps());
    let plan = open_stream(&backend);
    let (mut handler, mut consumer) = (plan.handler, plan.consumer);
    let mut events = EventQueue::new();
    handler.take_samples(&vec![1i16; BUFFER_CAPACITY], &mut events);
    assert!(events.drain().is_empty());
    handler.take_samples(&[2i16; 100], &mut events);
    assert!(events.drain().is_empty());
    handler.take_samples(&[2i16; 101], &mut events);
    assert!(matches!(
        events.drain()[..],
        [SystemAudioEvent::Overflow { dropped_frames: 101 }]
    ));
    handler.take_samples(&[2i16; 99], &mut events);
    assert!(events.drain().is_empty());
    for _ in 0..7 {
        handler.take_samples(&[2i16; 100], &mut events);
    }
    assert!(matches!(
        events.drain()[..],
        [SystemAudioEvent::Overflow { dropped_frames: 100 }]
    ));
    assert_eq!(consumer.take_all().len(), BUFFER_CAPACITY);
}

#[test]
fn events_are_handed_out_once_and_in_order() {
    let mut backend = backend(ScreenCaptureKitConfig::all_apps());
    backend.event_queue.push(SystemAudioEvent::OutputDeviceChanged);
    let degraded = SystemAudioEvent::CaptureDegraded { reason: "load".to_string() };
    backend.event_queue.push(degraded.clone());
    let events = backend.poll_events();
    assert_eq!(events.len(), 2);
    assert!(matches!(events[0], SystemAudioEvent::OutputDeviceChanged));
    assert_eq!(format!("{:?}", events[1]), format!("{degraded:?}"));
    assert!(backend.poll_events().is_empty());
}

#[test]
fn a_loopback_backend_asks_its_device() {
    let backend = CpalLoopbackBackend::new(Some((44100, 1)));
    assert_eq!(backend.native_config(), (44100, 1));
    assert_eq!(CpalLoopbackBackend::new(None).native_config(), (48000, 2));
    assert_eq!(backend.name(), "Core Audio Tap (CPAL)");
}

#[test]
fn test_support_struct_methods() {
    let supported = SystemAudioTestSupport {
        can_run: true,
        reason: "test",
    };
    assert!(!supported.should_skip());

    let unsupported = SystemAudioTestSupport {
        can_run: false,
        reason: "test",
    };
    assert!(unsupported.should_skip());
}

#[test]
fn test_can_run_returns_valid_result() {
    let result =
        can_run_system_audio_tests(false, &vec![false; 5], ScreenCapturePermission::Unknown);
    assert!(!result.reason.is_empty());
}

#[test]
fn tests_run_where_everything_is_in_place() {
    let none = vec![false; CI_ENV_VAR_COUNT];
    let granted = ScreenCapturePermission::Granted;
    let result = can_run_system_audio_tests(true, &none, granted);
    assert!(result.can_run);
    assert_eq!(result.reason, "all checks passed");
    assert!(!can_run_system_audio_tests(false, &none, granted).can_run);
    for i in 0..CI_ENV_VAR_COUNT {
        let mut vars = none.clone();
        vars[i] = true;
        let result = can_run_system_audio_tests(true, &vars, granted);
        assert_eq!(result.reason, "running in CI environment (no display/permissions)");
        assert!(!result.can_run);
    }
    let denied = can_run_system_audio_tests(true, &none, ScreenCapturePermission::Denied);
    assert_eq!(
        denied.reason,
        "Screen Recording permission not granted (check System Settings)"
    );
    let unknown = can_run_system_audio_tests(true, &none, ScreenCapturePermission::Unknown);
    assert_eq!(unknown.reason, "could not determine permission status");
    assert!(!denied.can_run && !unknown.can_run);
    let names: Vec<&str> = (0..CI_ENV_VAR_COUNT).map(ci_env_var).collect();
    assert_eq!(names, vec!["CI", "GITHUB_ACTIONS", "JENKINS_URL", "GITLAB_CI", "CIRCLECI"]);
}

#[test]
fn a_capture_is_planned_and_its_buffers_are_taken() {
    let backend = backend(ScreenCaptureKitConfig::app_by_name("B"));
    let plan = open_stream(&backend);
    assert_eq!(plan.apps, vec![1]);
    assert_eq!(
        plan.settings,
        StreamSettings {
            width: 1,
            height: 1,
            captures_audio: true,
            sample_rate: 48000,
            channel_count: 2,
        }
    );
    assert!(backend.capture_started(Ok(())).is_ok());
    assert!(matches!(
        backend.capture_started(Err("access denied".to_string())),
        Err(StreamAudioError::SystemAudioPermissionDenied)
    ));
    let (mut handler, mut consumer) = (plan.handler, plan.consumer);
    let mut events = EventQueue::new();
    let audio = BufferInfo { is_audio: true, num_samples: 1, total_size: 6 };
    let video = BufferInfo { is_audio: false, num_samples: 1, total_size: 6 };
    handler.did_output_sample_buffer(&video, &Some(vec![9, 9]), &mut events);
    handler.did_output_sample_buffer(&audio, &None, &mut events);
    handler.did_output_sample_buffer(&audio, &Some(vec![1, 2]), &mut events);
    assert_eq!(consumer.take_all(), vec![1, 2]);
    match &events.drain()[..] {
        [SystemAudioEvent::CaptureDegraded { reason }] => {
            assert_eq!(reason, "unexpected audio format: 6 bytes/sample")
        }
        _ => panic!("Expected one CaptureDegraded"),
    }
    assert!(backend.start_capture(&content(1, &[]), &None).is_err());
}
