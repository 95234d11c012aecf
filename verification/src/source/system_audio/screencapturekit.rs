//! System audio of single applications or of all.
//!
//! The system lists displays and applications and delivers buffers; here is decided what
//! is captured and what becomes of a buffer.
use super::{
    EventQueue, SystemAudioEvent, DEFAULT_SYSTEM_AUDIO_CHANNELS, DEFAULT_SYSTEM_AUDIO_SAMPLE_RATE,
};
use crate::ring;
use crate::ring::{SampleConsumer, SampleProducer, SampleRing};
use crate::source::system_audio;
use crate::text;
use crate::text::{contains_text, decimal, join2, join3};
use crate::StreamAudioError;
use vstd::prelude::*;
use vstd::string::*;

verus! {

/// Ring buffer capacity: 30 seconds of stereo 48kHz audio.
pub const BUFFER_CAPACITY: usize = 2_880_000;

/// Bytes of a stereo frame of 32-bit samples.
pub const EXPECTED_BYTES_PER_FRAME: usize = 8;

/// Names an application.
#[derive(Debug)]
pub enum AppIdentifier {
    /// By its bundle ID.
    BundleId(String),
    /// By its name.
    Name(String),
}

impl AppIdentifier {
    /// The identifier in messages.
    pub open spec fn text(self) -> Seq<char> {
        match self {
            AppIdentifier::BundleId(id) => "bundle:"@ + id@,
            AppIdentifier::Name(name) => "name:"@ + name@,
        }
    }

    /// The identifier in messages.
    pub fn to_text(&self) -> (r: String)
        ensures
            r@ == self.text(),
    {
        match self {
            AppIdentifier::BundleId(id) => join2("bundle:", id.as_str()),
            AppIdentifier::Name(name) => join2("name:", name.as_str()),
        }
    }

    /// Whether it is this application that is named.
    pub open spec fn matches_app(self, app: RunningApp) -> bool {
        match self {
            AppIdentifier::BundleId(id) => app.bundle_id@ == id@,
            AppIdentifier::Name(name) => app.name@ == name@,
        }
    }

    /// Tells whether it is this application that is named.
    pub fn names(&self, app: &RunningApp) -> (r: bool)
        ensures
            r == self.matches_app(*app),
    {
        match self {
            AppIdentifier::BundleId(id) => app.bundle_id == *id,
            AppIdentifier::Name(name) => app.name == *name,
        }
    }
}

/// What to capture.
#[derive(Debug)]
pub enum CaptureTarget {
    /// All applications.
    AllApps,
    /// One application.
    App(AppIdentifier),
}

/// What a capture is asked for.
#[derive(Debug)]
pub struct ScreenCaptureKitConfig {
    /// What to capture.
    pub target: CaptureTarget,
    /// Whether to leave out this process.
    pub exclude_self: bool,
}

impl Default for ScreenCaptureKitConfig {
    fn default() -> (r: Self)
        ensures
            r.target is AllApps,
            r.exclude_self,
    {
        Self::all_apps()
    }
}

impl ScreenCaptureKitConfig {
    /// All applications but this process.
    pub fn all_apps() -> (r: Self)
        ensures
            r.target is AllApps,
            r.exclude_self,
    {
        ScreenCaptureKitConfig { target: CaptureTarget::AllApps, exclude_self: true }
    }

    /// The application with a bundle ID.
    pub fn app_by_bundle_id(bundle_id: &str) -> (r: Self)
        ensures
            r.target matches CaptureTarget::App(AppIdentifier::BundleId(id)) && id@ == bundle_id@,
            r.exclude_self,
    {
        ScreenCaptureKitConfig {
            target: CaptureTarget::App(AppIdentifier::BundleId(String::from_str(bundle_id))),
            exclude_self: true,
        }
    }

    /// The application with a name.
    pub fn app_by_name(name: &str) -> (r: Self)
        ensures
            r.target matches CaptureTarget::App(AppIdentifier::Name(n)) && n@ == name@,
            r.exclude_self,
    {
        ScreenCaptureKitConfig {
            target: CaptureTarget::App(AppIdentifier::Name(String::from_str(name))),
            exclude_self: true,
        }
    }
}

/// An application that runs.
#[derive(Debug)]
pub struct RunningApp {
    /// Its bundle ID.
    pub bundle_id: String,
    /// Its name.
    pub name: String,
}

/// What the system offers for capture.
#[derive(Debug)]
pub struct ShareableContent {
    /// The number of displays.
    pub displays: usize,
    /// The applications that run.
    pub apps: Vec<RunningApp>,
}

/// The text, where there is one.
pub open spec fn text_of(text: Option<String>) -> Option<Seq<char>> {
    match text {
        Some(text) => Some(text@),
        None => None,
    }
}

/// Whether an application is captured along with all others, given the bundle ID to leave
/// out.
pub open spec fn is_included(app: RunningApp, excluded: Option<Seq<char>>) -> bool {
    excluded != Some(app.bundle_id@)
}

/// Whether these are the positions of the applications that are included, in order.
pub open spec fn selects(
    chosen: Seq<usize>,
    apps: Seq<RunningApp>,
    excluded: Option<Seq<char>>,
) -> bool {
    &&& forall|i: int, j: int| 0 <= i < j < chosen.len() ==> chosen[i] < chosen[j]
    &&& forall|i: int|
        0 <= i < chosen.len() ==> #[trigger] chosen[i] < apps.len() && is_included(
            apps[chosen[i] as int],
            excluded,
        )
    &&& forall|k: usize|
        k < apps.len() && is_included(apps[k as int], excluded) ==> #[trigger] chosen.contains(k)
}

/// Lists the applications that are included.
fn select_apps(apps: &Vec<RunningApp>, excluded: &Option<String>) -> (r: Vec<usize>)
    ensures
        selects(r@, apps@, text_of(*excluded)),
{
    let ghost left_out = text_of(*excluded);
    let mut r: Vec<usize> = Vec::new();
    let mut i: usize = 0;
    while i < apps.len()
        invariant
            i <= apps.len(),
            left_out == text_of(*excluded),
            forall|a: int, b: int| 0 <= a < b < r@.len() ==> r@[a] < r@[b],
            forall|a: int|
                0 <= a < r@.len() ==> #[trigger] r@[a] < i && is_included(
                    apps@[r@[a] as int],
                    left_out,
                ),
            forall|k: usize|
                k < i && is_included(apps@[k as int], left_out) ==> #[trigger] r@.contains(k),
        decreases apps.len() - i,
    {
        let keep: bool = match excluded {
            Some(id) => !(apps[i].bundle_id == *id),
            None => true,
        };
        assert(keep == is_included(apps@[i as int], left_out));
        if keep {
            let ghost before = r@;
            r.push(i);
            assert forall|k: usize| k < i + 1 && is_included(apps@[k as int], left_out) implies
                #[trigger] r@.contains(k) by {
                if k == i {
                    assert(r@[before.len() as int] == k);
                } else {
                    assert(before.contains(k));
                    let at = choose|at: int| 0 <= at < before.len() && before[at] == k;
                    assert(r@[at] == k);
                }
            }
        }
        i = i + 1;
    }
    r
}

/// Finds the first application that an identifier names.
pub fn find_app(apps: &Vec<RunningApp>, identifier: &AppIdentifier) -> (r: Result<
    usize,
    StreamAudioError,
>)
    ensures
        match r {
            Ok(i) => first_match(i, apps@, *identifier),
            Err(error) => not_found(error, apps@, *identifier),
        },
{
    let mut i: usize = 0;
    while i < apps.len()
        invariant
            i <= apps.len(),
            forall|j: int| 0 <= j < i ==> !#[trigger] identifier.matches_app(apps@[j]),
        decreases apps.len() - i,
    {
        if identifier.names(&apps[i]) {
            return Ok(i);
        }
        i = i + 1;
    }
    Err(StreamAudioError::SystemAudioAppNotFound { identifier: identifier.to_text() })
}

/// Whether this is what the system's message means when starting a capture failed.
pub open spec fn is_start_error(error: StreamAudioError, failure: Seq<char>) -> bool {
    if text::occurs_in(failure, "permission"@) || text::occurs_in(failure, "denied"@) {
        error is SystemAudioPermissionDenied
    } else {
        system_audio::failed(error, "start capture"@, failure)
    }
}

/// What starting a capture failed with.
///
/// `failure` is the message of the system.
pub fn start_error(failure: String) -> (r: StreamAudioError)
    ensures
        is_start_error(r, failure@),
{
    if contains_text(failure.as_str(), "permission") || contains_text(failure.as_str(), "denied") {
        StreamAudioError::SystemAudioPermissionDenied
    } else {
        StreamAudioError::SystemAudioRuntimeFailure {
            context: String::from_str("start capture"),
            cause: failure,
        }
    }
}

/// Whether these are the positions of the applications that a configuration captures, on
/// a display that is there.
pub open spec fn chosen_apps(
    config: ScreenCaptureKitConfig,
    content: Result<ShareableContent, String>,
    own_bundle_id: Option<String>,
    chosen: Seq<usize>,
) -> bool {
    &&& content is Ok
    &&& content->Ok_0.displays > 0
    &&& match config.target {
        CaptureTarget::AllApps => selects(
            chosen,
            content->Ok_0.apps@,
            if config.exclude_self {
                text_of(own_bundle_id)
            } else {
                None
            },
        ),
        CaptureTarget::App(identifier) => chosen.len() == 1 && first_match(
            chosen[0],
            content->Ok_0.apps@,
            identifier,
        ),
    }
}

/// Whether a configuration cannot be captured, for the reason that an error names.
pub open spec fn filter_failure(
    config: ScreenCaptureKitConfig,
    content: Result<ShareableContent, String>,
    error: StreamAudioError,
) -> bool {
    match content {
        Err(message) => system_audio::failed(error, "get shareable content"@, message@),
        Ok(content) => if content.displays == 0 {
            system_audio::unavailable(error, "no displays available"@)
        } else {
            match config.target {
                CaptureTarget::AllApps => false,
                CaptureTarget::App(identifier) => not_found(error, content.apps@, identifier),
            }
        },
    }
}

/// Whether an identifier names no application, and an error says so.
pub open spec fn not_found(
    error: StreamAudioError,
    apps: Seq<RunningApp>,
    identifier: AppIdentifier,
) -> bool {
    &&& error matches StreamAudioError::SystemAudioAppNotFound { identifier: id } && id@
        == identifier.text()
    &&& forall|j: int| 0 <= j < apps.len() ==> !#[trigger] identifier.matches_app(apps[j])
}

/// What the system is asked to deliver. Video cannot be switched off: it is as small as
/// can be.
#[derive(Debug, Clone, Copy, PartialEq, Eq, Structural)]
pub struct StreamSettings {
    /// Pixels per row.
    pub width: u32,
    /// Rows.
    pub height: u32,
    /// Whether audio is delivered.
    pub captures_audio: bool,
    /// Frames per second.
    pub sample_rate: i32,
    /// Samples per frame.
    pub channel_count: i32,
}

/// A capture that is about to start.
pub struct CapturePlan {
    /// The positions of the applications to capture on the first display.
    pub apps: Vec<usize>,
    /// What the system is asked to deliver.
    pub settings: StreamSettings,
    /// What handles the system's buffers.
    pub handler: AudioHandler,
    /// The end from which samples are popped.
    pub consumer: SampleConsumer,
}

/// Backend that captures the audio of applications.
#[derive(Debug)]
pub struct ScreenCaptureKitBackend {
    /// What to capture.
    pub config: ScreenCaptureKitConfig,
    /// Events that nobody has asked for yet.
    pub event_queue: EventQueue,
}

impl ScreenCaptureKitBackend {
    /// Creates a backend, given whether the system's content can be accessed.
    ///
    /// An error that speaks of permission means that it was not granted.
    pub fn new(config: ScreenCaptureKitConfig, access: Result<(), String>) -> (r: Result<
        Self,
        StreamAudioError,
    >)
        ensures
            match (access, r) {
                (Ok(()), Ok(backend)) => backend.config == config && backend.event_queue@ == Seq::<
                    SystemAudioEvent,
                >::empty(),
                (Err(message), Err(error)) => if text::occurs_in(message@, "permission"@) {
                    error is SystemAudioPermissionDenied
                } else {
                    system_audio::unavailable(
                        error,
                        "failed to access ScreenCaptureKit: "@ + message@,
                    )
                },
                _ => false,
            },
    {
        match access {
            Ok(()) => Ok(ScreenCaptureKitBackend { config, event_queue: EventQueue::new() }),
            Err(message) => {
                if contains_text(message.as_str(), "permission") {
                    Err(StreamAudioError::SystemAudioPermissionDenied)
                } else {
                    Err(
                        StreamAudioError::SystemAudioUnavailable {
                            reason: join2(
                                "failed to access ScreenCaptureKit: ",
                                message.as_str(),
                            ),
                        },
                    )
                }
            },
        }
    }

    /// Chooses the applications to capture on the first display, by their positions.
    ///
    /// `own_bundle_id` is that of this process, where it is known.
    pub fn build_filter(
        &self,
        content: &Result<ShareableContent, String>,
        own_bundle_id: &Option<String>,
    ) -> (r: Result<Vec<usize>, StreamAudioError>)
        ensures
            match r {
                Ok(chosen) => chosen_apps(self.config, *content, *own_bundle_id, chosen@),
                Err(error) => filter_failure(self.config, *content, error),
            },
    {
        match content {
            Err(message) => Err(
                StreamAudioError::SystemAudioRuntimeFailure {
                    context: String::from_str("get shareable content"),
                    cause: message.clone(),
                },
            ),
            Ok(content) => {
                if content.displays == 0 {
                    return Err(
                        StreamAudioError::SystemAudioUnavailable {
                            reason: String::from_str("no displays available"),
                        },
                    );
                }
                match &self.config.target {
                    CaptureTarget::AllApps => {
                        if self.config.exclude_self {
                            Ok(select_apps(&content.apps, own_bundle_id))
                        } else {
                            Ok(select_apps(&content.apps, &None))
                        }
                    },
                    CaptureTarget::App(identifier) => {
                        match find_app(&content.apps, identifier) {
                            Ok(i) => {
                                let mut chosen: Vec<usize> = Vec::new();
                                chosen.push(i);
                                Ok(chosen)
                            },
                            Err(error) => Err(error),
                        }
                    },
                }
            },
        }
    }

    /// Decides what is captured, and makes the ring buffer and what handles the system's
    /// buffers; the system's stream is to be started next.
    pub fn start_capture(
        &self,
        content: &Result<ShareableContent, String>,
        own_bundle_id: &Option<String>,
    ) -> (r: Result<CapturePlan, StreamAudioError>)
        ensures
            match r {
                Ok(plan) => {
                    &&& chosen_apps(self.config, *content, *own_bundle_id, plan.apps@)
                    &&& plan.settings == (StreamSettings {
                        width: 1,
                        height: 1,
                        captures_audio: true,
                        sample_rate: 48000,
                        channel_count: 2,
                    })
                    &&& plan.handler.dropped() == 0
                    &&& !plan.handler.seen()
                    &&& ring::new_ends(plan.handler.target(), plan.consumer)
                    &&& ring::producer_contents(plan.handler.target()) == Seq::<i16>::empty()
                    &&& ring::producer_capacity(plan.handler.target()) == BUFFER_CAPACITY
                    &&& ring::consumer_contents(plan.consumer) == Seq::<i16>::empty()
                },
                Err(error) => filter_failure(self.config, *content, error),
            },
    {
        let apps = match self.build_filter(content, own_bundle_id) {
            Ok(apps) => apps,
            Err(error) => {
                return Err(error);
            },
        };
        let (producer, consumer) = SampleRing::new(BUFFER_CAPACITY).split();
        proof {
            assert(ring::producer_contents(producer) =~= Seq::empty());
            assert(ring::consumer_contents(consumer) =~= Seq::empty());
        }
        Ok(
            CapturePlan {
                apps,
                settings: StreamSettings {
                    width: 1,
                    height: 1,
                    captures_audio: true,
                    sample_rate: DEFAULT_SYSTEM_AUDIO_SAMPLE_RATE as i32,
                    channel_count: DEFAULT_SYSTEM_AUDIO_CHANNELS as i32,
                },
                handler: AudioHandler { producer, overflow_count: 0, first_sample_logged: false },
                consumer,
            },
        )
    }

    /// What is made of the answer when the system's stream was started.
    pub fn capture_started(&self, answer: Result<(), String>) -> (r: Result<(), StreamAudioError>)
        ensures
            match (answer, r) {
                (Ok(()), Ok(())) => true,
                (Err(failure), Err(error)) => is_start_error(error, failure@),
                _ => false,
            },
    {
        match answer {
            Ok(()) => Ok(()),
            Err(failure) => Err(start_error(failure)),
        }
    }

    /// Returns the native sample rate and channel count.
    pub fn native_config(&self) -> (r: (u32, u16))
        ensures
            r == (DEFAULT_SYSTEM_AUDIO_SAMPLE_RATE, DEFAULT_SYSTEM_AUDIO_CHANNELS),
    {
        (DEFAULT_SYSTEM_AUDIO_SAMPLE_RATE, DEFAULT_SYSTEM_AUDIO_CHANNELS)
    }

    /// Backend name for logging/debugging.
    pub fn name(&self) -> (r: &'static str)
        ensures
            r@ == "ScreenCaptureKit"@,
    {
        "ScreenCaptureKit"
    }

    /// Returns and drains any pending events since the last call.
    pub fn poll_events(&mut self) -> (r: Vec<SystemAudioEvent>)
        ensures
            r@ == old(self).event_queue@,
            final(self).event_queue@ == Seq::<SystemAudioEvent>::empty(),
            final(self).config == old(self).config,
    {
        self.event_queue.drain()
    }
}

/// Whether this is the position of the first application that an identifier names.
pub open spec fn first_match(i: usize, apps: Seq<RunningApp>, identifier: AppIdentifier) -> bool {
    &&& i < apps.len()
    &&& identifier.matches_app(apps[i as int])
    &&& forall|j: int| 0 <= j < i ==> !#[trigger] identifier.matches_app(apps[j])
}

/// The four bytes of a sample, the lowest first, as a number.
pub open spec fn word_of(bytes: Seq<u8>, i: int) -> int {
    bytes[4 * i] + 0x100 * bytes[4 * i + 1] + 0x1_0000 * bytes[4 * i + 2] + 0x100_0000 * bytes[4 * i
        + 3]
}

/// The samples of one buffer, as the bits that they consist of; bytes that do not fill a
/// sample are left out.
pub open spec fn words_of(bytes: Seq<u8>) -> Seq<u32> {
    Seq::new(bytes.len() / 4, |i: int| word_of(bytes, i) as u32)
}

/// The samples of several buffers, one after the other.
pub open spec fn all_words(buffers: Seq<Vec<u8>>) -> Seq<u32>
    decreases buffers.len(),
{
    if buffers.len() == 0 {
        Seq::empty()
    } else {
        all_words(buffers.drop_last()) + words_of(buffers.last()@)
    }
}

/// Extracts the samples of several buffers, as the bits of 32-bit floating point numbers.
///
/// Returns `None` where there is none.
pub fn extract_audio_samples(buffers: &Vec<Vec<u8>>) -> (r: Option<Vec<u32>>)
    ensures
        match r {
            Some(words) => words@ == all_words(buffers@) && words@.len() > 0,
            None => all_words(buffers@).len() == 0,
        },
{
    let mut samples: Vec<u32> = Vec::new();
    let mut b: usize = 0;
    while b < buffers.len()
        invariant
            b <= buffers.len(),
            samples@ == all_words(buffers@.take(b as int)),
        decreases buffers.len() - b,
    {
        assert(buffers@.take(b + 1).drop_last() =~= buffers@.take(b as int));
        let data = &buffers[b];
        let ghost before = samples@;
        let count: usize = data.len() / 4;
        let mut i: usize = 0;
        while i < count
            invariant
                i <= count,
                count == data.len() / 4,
                samples@ == before + words_of(data@).take(i as int),
            decreases count - i,
        {
            let word: u32 = data[4 * i] as u32 + 0x100 * (data[4 * i + 1] as u32) + 0x1_0000 * (
            data[4 * i + 2] as u32) + 0x100_0000 * (data[4 * i + 3] as u32);
            samples.push(word);
            i = i + 1;
        }
        assert(words_of(data@).take(i as int) =~= words_of(data@));
        b = b + 1;
    }
    assert(buffers@.take(b as int) =~= buffers@);
    if samples.len() == 0 {
        None
    } else {
        Some(samples)
    }
}

/// What the system says of a buffer.
#[derive(Debug, Clone, Copy, PartialEq, Eq, Structural)]
pub struct BufferInfo {
    /// Whether it holds audio.
    pub is_audio: bool,
    /// The number of frames.
    pub num_samples: usize,
    /// The number of bytes.
    pub total_size: usize,
}

/// The event that a buffer of an unexpected form gives rise to.
pub open spec fn format_events(info: BufferInfo) -> Seq<system_audio::SystemEventModel> {
    if info.total_size > 0 && info.num_samples > 0 && info.total_size / info.num_samples
        != EXPECTED_BYTES_PER_FRAME {
        seq![
            system_audio::SystemEventModel::CaptureDegraded {
                reason: "unexpected audio format: "@ + text::decimal_text(
                    (info.total_size / info.num_samples) as nat,
                ) + " bytes/sample"@,
            },
        ]
    } else {
        Seq::empty()
    }
}

/// The event that dropped samples give rise to: it is reported where many were dropped at
/// once, or where all together make a round number.
pub open spec fn overflow_events(overflow: u64, total: u64) -> Seq<
    system_audio::SystemEventModel,
> {
    if overflow > 0 && (total % 1000 == 0 || overflow > 100) {
        seq![system_audio::SystemEventModel::Overflow { dropped_frames: overflow as nat }]
    } else {
        Seq::empty()
    }
}

/// Receives audio samples from the system.
pub struct AudioHandler {
    producer: SampleProducer,
    overflow_count: u64,
    first_sample_logged: bool,
}

impl AudioHandler {
    /// The end into which samples go.
    pub closed spec fn target(self) -> SampleProducer {
        self.producer
    }

    /// Samples that were dropped in all.
    pub closed spec fn dropped(self) -> u64 {
        self.overflow_count
    }

    /// Whether an audio buffer has been seen.
    pub closed spec fn seen(self) -> bool {
        self.first_sample_logged
    }

    /// Looks at a buffer before its samples are taken.
    ///
    /// Returns whether they are to be taken: only audio is. The first audio buffer is
    /// checked for its form.
    pub fn inspect_buffer(&mut self, info: &BufferInfo, events: &mut EventQueue) -> (r: bool)
        ensures
            r == info.is_audio,
            final(self).target() == old(self).target(),
            final(self).dropped() == old(self).dropped(),
            final(self).seen() == (old(self).seen() || info.is_audio),
            old(events)@.is_prefix_of(final(events)@),
            system_audio::system_event_models(final(events)@.skip(old(events)@.len() as int))
                == if info.is_audio && !old(self).seen() {
                format_events(*info)
            } else {
                Seq::empty()
            },
    {
        let ghost before = events@;
        assert(system_audio::system_event_models(before.skip(before.len() as int)) =~= Seq::empty());
        if !info.is_audio {
            return false;
        }
        let first: bool = !self.first_sample_logged;
        self.first_sample_logged = true;
        if first && info.total_size > 0 && info.num_samples > 0 {
            let bytes_per_sample: usize = info.total_size / info.num_samples;
            if bytes_per_sample != EXPECTED_BYTES_PER_FRAME {
                events.push(
                    SystemAudioEvent::CaptureDegraded {
                        reason: join3(
                            "unexpected audio format: ",
                            decimal(bytes_per_sample as u64).as_str(),
                            " bytes/sample",
                        ),
                    },
                );
                assert(system_audio::system_event_models(events@.skip(before.len() as int))
                    =~= format_events(*info));
            }
        }
        true
    }

    /// Takes samples; those that the buffer has no room for are counted and, now and then,
    /// reported.
    pub fn take_samples(&mut self, samples: &[i16], events: &mut EventQueue)
        ensures
            old(events)@.is_prefix_of(final(events)@),
            exists|overflow: u64| #[trigger]
                delivered(*old(self), samples@, *final(self), overflow)
                    && system_audio::system_event_models(
                    final(events)@.skip(old(events)@.len() as int),
                ) == overflow_events(overflow, final(self).dropped()),
    {
        let ghost before = events@;
        let ghost entry = *self;
        let overflow: u64 = self.producer.push_all(samples);
        assert(system_audio::system_event_models(before.skip(before.len() as int)) =~= Seq::empty());
        if overflow > 0 {
            let total: u64 = self.overflow_count.wrapping_add(overflow);
            self.overflow_count = total;
            if total % 1000 == 0 || overflow > 100 {
                events.push(SystemAudioEvent::Overflow { dropped_frames: overflow });
                assert(system_audio::system_event_models(events@.skip(before.len() as int))
                    =~= overflow_events(overflow, total));
            }
        }
        assert(delivered(entry, samples@, *self, overflow));
    }
}

impl AudioHandler {
    /// Takes in what the system has delivered: a buffer and the samples in it, if any.
    pub fn did_output_sample_buffer(
        &mut self,
        info: &BufferInfo,
        samples: &Option<Vec<i16>>,
        events: &mut EventQueue,
    )
        ensures
            !info.is_audio ==> final(self).target() == old(self).target(),
            !info.is_audio ==> final(self).dropped() == old(self).dropped(),
            !info.is_audio ==> final(self).seen() == old(self).seen(),
            !info.is_audio ==> final(events)@ == old(events)@,
            info.is_audio ==> final(self).seen() && old(events)@.is_prefix_of(final(events)@)
                && exists|overflow: u64| #[trigger]
                buffer_taken(*old(self), *samples, *final(self), overflow)
                    && system_audio::system_event_models(
                    final(events)@.skip(old(events)@.len() as int),
                ) == (if old(self).seen() {
                    Seq::empty()
                } else {
                    format_events(*info)
                }) + overflow_events(overflow, final(self).dropped()),
    {
        let ghost before = events@;
        let ghost entry = *self;
        if !self.inspect_buffer(info, events) {
            proof {
                assert(events@.skip(before.len() as int).len() == 0) by {
                    assert(system_audio::system_event_models(
                        events@.skip(before.len() as int),
                    ).len() == 0);
                }
                assert(events@ =~= before);
            }
            return;
        }
        let ghost looked = *self;
        let ghost checked = events@;
        let ghost first = system_audio::system_event_models(checked.skip(before.len() as int));
        match samples {
            Some(samples) => {
                self.take_samples(samples.as_slice(), events);
                proof {
                    let overflow = choose|overflow: u64| #[trigger]
                        delivered(looked, samples@, *self, overflow)
                            && system_audio::system_event_models(
                            events@.skip(checked.len() as int),
                        ) == overflow_events(overflow, self.dropped());
                    assert(buffer_taken(entry, Some(*samples), *self, overflow));
                    assert(events@.skip(before.len() as int) =~= checked.skip(before.len() as int)
                        + events@.skip(checked.len() as int));
                    assert(system_audio::system_event_models(events@.skip(before.len() as int))
                        =~= first + overflow_events(overflow, self.dropped()));
                    assert(before =~= events@.take(before.len() as int));
                }
            },
            None => {
                proof {
                    assert(buffer_taken(entry, None, *self, 0));
                    assert(first + overflow_events(0, self.dropped()) =~= first);
                }
            },
        }
    }
}

/// Whether a handler may come out so when it takes the samples of a buffer, if any, of
/// which so many are dropped.
pub open spec fn buffer_taken(
    before: AudioHandler,
    samples: Option<Vec<i16>>,
    after: AudioHandler,
    overflow: u64,
) -> bool {
    match samples {
        Some(samples) => {
            &&& ring::took_samples(before.target(), samples@, after.target(), overflow as int)
            &&& after.dropped() == (before.dropped() + overflow) % 0x1_0000_0000_0000_0000
        },
        None => overflow == 0 && after.target() == before.target() && after.dropped()
            == before.dropped(),
    }
}

/// Whether a handler may come out so when it takes samples, of which so many are dropped.
pub open spec fn delivered(
    before: AudioHandler,
    samples: Seq<i16>,
    after: AudioHandler,
    overflow: u64,
) -> bool {
    &&& ring::took_samples(before.target(), samples, after.target(), overflow as int)
    &&& after.dropped() == (before.dropped() + overflow) % 0x1_0000_0000_0000_0000
    &&& after.seen() == before.seen()
}

/// Of all applications those are captured, in order, that are not the program itself, where it
/// is to be left out and its bundle ID is known.
pub proof fn lemma_all_apps_but_own(
    config: ScreenCaptureKitConfig,
    content: ShareableContent,
    own_bundle_id: Option<String>,
    chosen: Seq<usize>,
    k: usize,
)
    requires
        config.target is AllApps,
        chosen_apps(config, Ok(content), own_bundle_id, chosen),
    ensures
        chosen.contains(k) <==> k < content.apps@.len() && !(config.exclude_self && own_bundle_id
            is Some && own_bundle_id->0@ == content.apps@[k as int].bundle_id@),
        forall|i: int, j: int| 0 <= i < j < chosen.len() ==> chosen[i] < chosen[j],
        content.displays > 0,
{
    let own = if config.exclude_self {
        text_of(own_bundle_id)
    } else {
        None
    };
    assert(k < content.apps@.len() ==> (is_included(content.apps@[k as int], own) <==> !(
    config.exclude_self && own_bundle_id is Some && own_bundle_id->0@
        == content.apps@[k as int].bundle_id@)));
    if chosen.contains(k) {
        let i = choose|i: int| 0 <= i < chosen.len() && chosen[i] == k;
        assert(chosen[i] < content.apps@.len());
    }
}

/// Of one application that is named, the first with this bundle ID, or with this name, is
/// captured alone.
pub proof fn lemma_one_app_alone(
    config: ScreenCaptureKitConfig,
    content: ShareableContent,
    own_bundle_id: Option<String>,
    chosen: Seq<usize>,
)
    requires
        config.target is App,
        chosen_apps(config, Ok(content), own_bundle_id, chosen),
    ensures
        chosen.len() == 1,
        chosen[0] < content.apps@.len(),
        match config.target->App_0 {
            AppIdentifier::BundleId(id) => content.apps@[chosen[0] as int].bundle_id@ == id@
                && forall|j: int|
                0 <= j < chosen[0] ==> (#[trigger] content.apps@[j]).bundle_id@ != id@,
            AppIdentifier::Name(name) => content.apps@[chosen[0] as int].name@ == name@
                && forall|j: int|
                0 <= j < chosen[0] ==> (#[trigger] content.apps@[j]).name@ != name@,
        },
{
    assert(first_match(chosen[0], content.apps@, config.target->App_0));
    assert forall|j: int| 0 <= j < chosen[0] implies !config.target->App_0.matches_app(
        #[trigger] content.apps@[j],
    ) by {}
}

/// The bits of a sample are its four bytes, the lowest first; bytes that do not fill a sample
/// give none.
pub proof fn lemma_word_from_bytes(bytes: Seq<u8>, i: int)
    requires
        0 <= i,
        4 * i + 3 < bytes.len(),
    ensures
        4 * words_of(bytes).len() <= bytes.len() < 4 * words_of(bytes).len() + 4,
        words_of(bytes)[i] % 0x100 == bytes[4 * i],
        words_of(bytes)[i] / 0x100 % 0x100 == bytes[4 * i + 1],
        words_of(bytes)[i] / 0x1_0000 % 0x100 == bytes[4 * i + 2],
        words_of(bytes)[i] / 0x100_0000 == bytes[4 * i + 3],
{
}

/// The samples of several buffers come one buffer after the other.
pub proof fn lemma_buffers_in_order(buffers: Seq<Vec<u8>>, more: Vec<u8>)
    ensures
        all_words(Seq::empty()).len() == 0,
        all_words(buffers.push(more)) == all_words(buffers) + words_of(more@),
{
    assert(buffers.push(more).drop_last() =~= buffers);
}

/// A buffer is reported exactly where it holds frames and bytes, and not eight bytes for each
/// frame.
pub proof fn lemma_other_format_reported(info: BufferInfo)
    ensures
        info.total_size == 0 || info.num_samples == 0 ==> format_events(info).len() == 0,
        info.num_samples > 0 && 8 * info.num_samples <= info.total_size < 9 * info.num_samples ==>
            format_events(info).len() == 0,
        info.num_samples > 0 && 0 < info.total_size && (info.total_size < 8 * info.num_samples || 9
            * info.num_samples <= info.total_size) ==> format_events(info).len() == 1
            && format_events(info)[0] is CaptureDegraded,
{
    if info.num_samples > 0 {
        let (t, n) = (info.total_size as int, info.num_samples as int);
        vstd::arithmetic::div_mod::lemma_fundamental_div_mod(t, n);
        let q = t / n;
        assert(q == 8 <==> 8 * n <= t < 9 * n) by (nonlinear_arith)
            requires
                t == n * q + t % n,
                0 <= t % n < n,
        {
            if 8 * n <= t < 9 * n {
                assert(q < 9);
                assert(q > 7);
            }
        }
    }
}

/// Dropped samples are reported, with their number, exactly where more than a hundred were
/// dropped at once or all that were dropped make full thousands.
pub proof fn lemma_drops_reported(overflow: u64, total: u64)
    ensures
        overflow == 0 ==> overflow_events(overflow, total).len() == 0,
        0 < overflow <= 100 && total % 1000 != 0 ==> overflow_events(overflow, total).len() == 0,
        overflow > 100 || (overflow > 0 && total % 1000 == 0) ==> overflow_events(overflow, total)
            == seq![system_audio::SystemEventModel::Overflow { dropped_frames: overflow as nat }],
{
}

} // verus!
