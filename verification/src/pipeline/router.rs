//! The router fans audio out to sinks.
//!
//! Which sinks get a chunk, what happens when a write fails, and when the router ends is
//! decided here; the sinks themselves are known by their place in the list of sinks.
use crate::event::EventModel;
use crate::pipeline::routing;
use crate::pipeline::routing::{RoutingTable, SinkRoute};
use crate::source::SourceId;
use crate::text::join2;
use crate::time::{Duration, MAX_NANOS};
use crate::{AudioChunk, SinkError, StreamAudioError, StreamConfig, StreamEvent};
use vstd::arithmetic::power2::*;
use vstd::prelude::*;
use vstd::string::*;

verus! {

/// Command sent to the router task.
#[derive(Debug, Clone, Copy, PartialEq, Eq, Structural)]
pub enum RouterCommand {
    /// Stop the router gracefully.
    Stop,
}

/// How far the router task has come.
#[derive(Debug, Clone, Copy, PartialEq, Eq, Structural)]
pub enum RouterPhase {
    /// It waits for chunks and commands.
    Receiving,
    /// It was told to stop and takes the chunks that are waiting.
    Draining,
    /// It stops the sinks.
    Stopping {
        /// The place of the sink that is stopped next.
        next: usize,
    },
    /// It has ended.
    Ended,
}

/// What the router task gets to know.
#[derive(Debug, Clone, Copy, PartialEq, Eq, Structural)]
pub enum RouterInput {
    /// A chunk has come in.
    Chunk,
    /// A command has come in.
    Command(RouterCommand),
    /// No chunk is waiting.
    Empty,
    /// Nothing can come in any more.
    Closed,
    /// A sink has been stopped.
    SinkStopped,
}

/// What the router task does next.
#[derive(Debug, Clone, Copy, PartialEq, Eq, Structural)]
pub enum RouterAction {
    /// Write the chunk and go on.
    Write,
    /// Go on.
    Proceed,
    /// Stop a sink and go on.
    StopSink {
        /// Its place.
        index: usize,
    },
    /// End.
    End,
}

/// Stopping so many sinks from one on: that one comes next, and the end after the last.
pub open spec fn stopping_from(next: nat, sinks: nat) -> (RouterPhase, RouterAction) {
    if next < sinks {
        (
            RouterPhase::Stopping { next: (next + 1) as usize },
            RouterAction::StopSink { index: next as usize },
        )
    } else {
        (RouterPhase::Ended, RouterAction::End)
    }
}

/// What an input leads to. What does not belong to a phase changes nothing.
pub open spec fn router_step(phase: RouterPhase, input: RouterInput, sinks: nat) -> (
    RouterPhase,
    RouterAction,
) {
    match (phase, input) {
        (RouterPhase::Receiving, RouterInput::Chunk) => (phase, RouterAction::Write),
        (RouterPhase::Receiving, RouterInput::Command(RouterCommand::Stop)) => (
            RouterPhase::Draining,
            RouterAction::Proceed,
        ),
        (RouterPhase::Receiving, RouterInput::Closed) => stopping_from(0, sinks),
        (RouterPhase::Draining, RouterInput::Chunk) => (phase, RouterAction::Write),
        (RouterPhase::Draining, RouterInput::Empty) => stopping_from(0, sinks),
        (RouterPhase::Draining, RouterInput::Closed) => stopping_from(0, sinks),
        (RouterPhase::Stopping { next }, RouterInput::SinkStopped) => stopping_from(
            next as nat,
            sinks,
        ),
        (RouterPhase::Ended, _) => (phase, RouterAction::End),
        _ => (phase, RouterAction::Proceed),
    }
}

/// Stops the sink at a place, or ends after the last.
fn stop_next(next: usize, sinks: usize) -> (r: (RouterPhase, RouterAction))
    ensures
        r == stopping_from(next as nat, sinks as nat),
{
    if next < sinks {
        (RouterPhase::Stopping { next: next + 1 }, RouterAction::StopSink { index: next })
    } else {
        (RouterPhase::Ended, RouterAction::End)
    }
}

/// Decides what the router task does next, and how far it has come then.
pub fn next_action(phase: RouterPhase, input: RouterInput, sinks: usize) -> (r: (
    RouterPhase,
    RouterAction,
))
    ensures
        r == router_step(phase, input, sinks as nat),
{
    match (phase, input) {
        (RouterPhase::Receiving, RouterInput::Chunk) => (phase, RouterAction::Write),
        (RouterPhase::Receiving, RouterInput::Command(RouterCommand::Stop)) => (
            RouterPhase::Draining,
            RouterAction::Proceed,
        ),
        (RouterPhase::Receiving, RouterInput::Closed) => stop_next(0, sinks),
        (RouterPhase::Draining, RouterInput::Chunk) => (phase, RouterAction::Write),
        (RouterPhase::Draining, RouterInput::Empty) => stop_next(0, sinks),
        (RouterPhase::Draining, RouterInput::Closed) => stop_next(0, sinks),
        (RouterPhase::Stopping { next }, RouterInput::SinkStopped) => stop_next(next, sinks),
        (RouterPhase::Ended, _) => (phase, RouterAction::End),
        _ => (phase, RouterAction::Proceed),
    }
}

/// What some inputs lead to, and what is done on the way.
pub open spec fn router_run(phase: RouterPhase, inputs: Seq<RouterInput>, sinks: nat) -> (
    RouterPhase,
    Seq<RouterAction>,
)
    decreases inputs.len(),
{
    if inputs.len() == 0 {
        (phase, Seq::empty())
    } else {
        let (before, actions) = router_run(phase, inputs.drop_last(), sinks);
        let (after, action) = router_step(before, inputs.last(), sinks);
        (after, actions.push(action))
    }
}

/// So many chunks.
pub open spec fn chunk_inputs(n: nat) -> Seq<RouterInput> {
    Seq::new(n, |i: int| RouterInput::Chunk)
}

/// Each of so many chunks is written.
pub open spec fn write_actions(n: nat) -> Seq<RouterAction> {
    Seq::new(n, |i: int| RouterAction::Write)
}

/// What a router that is told to stop gets to know: the chunks that came in before, the
/// command, the chunks that are waiting then, that there are no more, and that each of so many
/// sinks has been stopped.
pub open spec fn shutdown_inputs(before: nat, waiting: nat, sinks: nat) -> Seq<RouterInput> {
    chunk_inputs(before) + seq![RouterInput::Command(RouterCommand::Stop)] + chunk_inputs(waiting)
        + seq![RouterInput::Empty] + Seq::new(sinks, |i: int| RouterInput::SinkStopped)
}

/// Each of so many sinks is stopped, in order.
pub open spec fn stop_actions(sinks: nat) -> Seq<RouterAction> {
    Seq::new(sinks, |i: int| RouterAction::StopSink { index: i as usize })
}

/// A router that is told to stop writes every chunk that was sent before, and only then stops
/// the sinks, each once and in order; then it ends.
pub proof fn lemma_shutdown_writes_then_stops(before: nat, waiting: nat, sinks: nat)
    requires
        sinks <= usize::MAX,
    ensures
        router_run(RouterPhase::Receiving, shutdown_inputs(before, waiting, sinks), sinks) == (
            RouterPhase::Ended,
            write_actions(before) + seq![RouterAction::Proceed] + write_actions(waiting)
                + stop_actions(sinks) + seq![RouterAction::End],
        ),
{
    let stop = seq![RouterInput::Command(RouterCommand::Stop)];
    let empty = seq![RouterInput::Empty];
    let told = chunk_inputs(before) + stop;
    let drained = told + chunk_inputs(waiting);
    lemma_chunks_are_written(RouterPhase::Receiving, before, sinks);
    assert(told.drop_last() =~= chunk_inputs(before));
    lemma_chunks_are_written(RouterPhase::Draining, waiting, sinks);
    lemma_run_append(RouterPhase::Receiving, told, chunk_inputs(waiting), sinks);
    let all = drained + empty;
    assert(all.drop_last() =~= drained);
    lemma_sinks_are_stopped(all, sinks, sinks);
    assert(all + Seq::new(sinks, |i: int| RouterInput::SinkStopped) =~= shutdown_inputs(
        before,
        waiting,
        sinks,
    ));
    let done = router_run(RouterPhase::Receiving, drained, sinks).1;
    assert(done =~= write_actions(before) + seq![RouterAction::Proceed] + write_actions(waiting));
}

proof fn lemma_run_append(
    phase: RouterPhase,
    first: Seq<RouterInput>,
    second: Seq<RouterInput>,
    sinks: nat,
)
    ensures
        ({
            let (middle, actions) = router_run(phase, first, sinks);
            let (end, more) = router_run(middle, second, sinks);
            router_run(phase, first + second, sinks) == (end, actions + more)
        }),
    decreases second.len(),
{
    if second.len() == 0 {
        assert(first + second =~= first);
        assert(router_run(phase, first, sinks).1 + Seq::<RouterAction>::empty() =~= router_run(
            phase,
            first,
            sinks,
        ).1);
    } else {
        lemma_run_append(phase, first, second.drop_last(), sinks);
        assert((first + second).drop_last() =~= first + second.drop_last());
        let (middle, actions) = router_run(phase, first, sinks);
        let (before, more) = router_run(middle, second.drop_last(), sinks);
        let action = router_step(before, second.last(), sinks).1;
        assert((actions + more).push(action) =~= actions + more.push(action));
    }
}

proof fn lemma_chunks_are_written(phase: RouterPhase, n: nat, sinks: nat)
    requires
        phase == RouterPhase::Receiving || phase == RouterPhase::Draining,
    ensures
        router_run(phase, chunk_inputs(n), sinks) == (phase, write_actions(n)),
    decreases n,
{
    if n == 0 {
        assert(write_actions(n) =~= Seq::empty());
    } else {
        let m = (n - 1) as nat;
        lemma_chunks_are_written(phase, m, sinks);
        assert(chunk_inputs(n).drop_last() =~= chunk_inputs(m));
        assert(write_actions(n) =~= write_actions(m).push(RouterAction::Write));
    }
}

proof fn lemma_sinks_are_stopped(inputs: Seq<RouterInput>, n: nat, sinks: nat)
    requires
        n <= sinks <= usize::MAX,
        inputs.len() > 0,
        inputs.last() == RouterInput::Empty,
        router_run(RouterPhase::Receiving, inputs.drop_last(), sinks).0 == RouterPhase::Draining,
    ensures
        ({
            let done = router_run(RouterPhase::Receiving, inputs.drop_last(), sinks).1;
            let (phase, action) = stopping_from(n, sinks);
            router_run(
                RouterPhase::Receiving,
                inputs + Seq::new(n, |i: int| RouterInput::SinkStopped),
                sinks,
            ) == (phase, done + stop_actions(n) + seq![action])
        }),
    decreases n,
{
    let done = router_run(RouterPhase::Receiving, inputs.drop_last(), sinks).1;
    let stopped = Seq::new(n, |i: int| RouterInput::SinkStopped);
    let action = stopping_from(n, sinks).1;
    if n == 0 {
        assert(inputs + stopped =~= inputs);
        assert(done.push(action) =~= done + stop_actions(0) + seq![action]);
    } else {
        let m = (n - 1) as nat;
        lemma_sinks_are_stopped(inputs, m, sinks);
        assert((inputs + stopped).drop_last() =~= inputs + Seq::new(
            m,
            |i: int| RouterInput::SinkStopped,
        ));
        let last = stopping_from(m, sinks).1;
        assert((done + stop_actions(m) + seq![last]).push(action) =~= done + stop_actions(n) + seq![
            action,
        ]);
    }
}

/// What to do after a failed write.
#[derive(Debug, Clone, Copy)]
pub enum RetryDecision {
    /// Drop the chunk for this sink.
    GiveUp,
    /// Try again after a pause.
    RetryAfter(Duration),
}

/// The attempts at writing one chunk to one sink.
#[derive(Debug, Clone, Copy)]
pub struct WriteAttempts {
    failed: u32,
    limit: u32,
    delay: Duration,
}

/// What has been tried, and what will be.
pub ghost struct AttemptsModel {
    /// Attempts that failed.
    pub failed: nat,
    /// Failures after which the chunk is dropped; the first always counts.
    pub limit: nat,
    /// The next pause in nanoseconds.
    pub delay: nat,
}

impl AttemptsModel {
    /// Whether one more failure is the last.
    pub open spec fn exhausted_by_failure(self) -> bool {
        self.failed + 1 >= self.limit
    }

    /// The attempts after one more failure.
    pub open spec fn after_failure(self) -> AttemptsModel {
        AttemptsModel {
            failed: self.failed + 1,
            delay: if self.exhausted_by_failure() {
                self.delay
            } else {
                2 * self.delay
            },
            ..self
        }
    }

    /// The attempts after so many more failures.
    pub open spec fn after_failures(self, n: nat) -> AttemptsModel
        decreases n,
    {
        if n == 0 {
            self
        } else {
            self.after_failures((n - 1) as nat).after_failure()
        }
    }
}

impl View for WriteAttempts {
    type V = AttemptsModel;

    closed spec fn view(&self) -> AttemptsModel {
        AttemptsModel {
            failed: self.failed as nat,
            limit: self.limit as nat,
            delay: self.delay@,
        }
    }
}

impl WriteAttempts {
    /// Whether another attempt may be under way.
    pub open spec fn active(self) -> bool {
        self@.failed == 0 || self@.failed < self@.limit
    }

    /// Starts the attempts at one write.
    pub fn new(config: &StreamConfig) -> (r: Self)
        ensures
            r.active(),
            r@ == (AttemptsModel {
                failed: 0,
                limit: config.sink_retry_attempts as nat,
                delay: config.sink_retry_delay@,
            }),
    {
        WriteAttempts {
            failed: 0,
            limit: config.sink_retry_attempts,
            delay: config.sink_retry_delay,
        }
    }

    /// Tells whether a failure can be recorded: the pause can still be doubled if there
    /// has to be one.
    pub fn can_fail(&self) -> (r: bool)
        requires
            self.active(),
        ensures
            r == (self@.exhausted_by_failure() || 2 * self@.delay <= MAX_NANOS),
    {
        self.limit == 0 || self.failed >= self.limit - 1 || self.delay.as_nanos() <= MAX_NANOS / 2
    }

    /// Records a failed attempt, says what to report and decides what to do.
    ///
    /// Every failure is reported, also those after which the write is tried again. The
    /// pause between attempts doubles each time.
    pub fn record_failure(&mut self, sink_name: &str, error: &SinkError) -> (r: (
        StreamEvent,
        RetryDecision,
    ))
        requires
            old(self).active(),
            old(self)@.exhausted_by_failure() || 2 * old(self)@.delay <= MAX_NANOS,
        ensures
            final(self)@ == old(self)@.after_failure(),
            r.0@ == (EventModel::SinkError { sink_name: sink_name@, error: error.text() }),
            match r.1 {
                RetryDecision::GiveUp => old(self)@.exhausted_by_failure(),
                RetryDecision::RetryAfter(pause) => {
                    &&& !old(self)@.exhausted_by_failure()
                    &&& pause@ == old(self)@.delay
                    &&& final(self).active()
                },
            },
    {
        let event = StreamEvent::SinkError {
            sink_name: String::from_str(sink_name),
            error: error.message(),
        };
        self.failed = self.failed + 1;
        if self.failed >= self.limit {
            return (event, RetryDecision::GiveUp);
        }
        let pause = self.delay;
        self.delay = Duration::from_nanos(2 * pause.as_nanos());
        (event, RetryDecision::RetryAfter(pause))
    }
}

/// Before the last failure every pause is twice as long as the one before.
pub proof fn lemma_backoff_doubles(start: AttemptsModel, n: nat)
    requires
        start.failed == 0,
        n == 0 || n < start.limit,
    ensures
        start.after_failures(n).failed == n,
        start.after_failures(n).limit == start.limit,
        start.after_failures(n).delay == start.delay * pow2(n),
    decreases n,
{
    if n == 0 {
        lemma2_to64();
        assert(start.delay * 1 == start.delay);
    } else {
        let m = (n - 1) as nat;
        lemma_backoff_doubles(start, m);
        lemma_pow2_unfold(n);
        let d = start.delay;
        assert(2 * (d * pow2(m)) == d * (2 * pow2(m))) by (nonlinear_arith);
    }
}

/// A write is given up exactly with failure number `limit`, or with the first where the
/// limit is lower.
pub proof fn lemma_attempts_limited(start: AttemptsModel, n: nat)
    requires
        start.failed == 0,
        n == 0 || n < start.limit,
    ensures
        start.after_failures(n).exhausted_by_failure() <==> n + 1 >= start.limit,
{
    lemma_backoff_doubles(start, n);
}

/// The router decides which sinks get a chunk.
pub struct Router {
    table: RoutingTable,
    config: StreamConfig,
}

/// Routes by the place of their sinks.
pub open spec fn numbered(routes: Seq<SinkRoute>) -> Seq<(usize, SinkRoute)> {
    Seq::new(routes.len(), |i: int| (i as usize, routes[i]))
}

/// The sinks that get a chunk of a source, or one without a source.
pub open spec fn targets_of(routes: Seq<(usize, SinkRoute)>, source: Option<Seq<char>>) -> Seq<
    usize,
> {
    routing::broadcast_of(routes) + match source {
        Some(source) => routing::direct_of(routes, source),
        None => Seq::empty(),
    }
}

impl Router {
    /// The sinks that get a chunk of a source, or one without a source.
    pub closed spec fn targets_spec(self, source: Option<Seq<char>>) -> Seq<usize> {
        self.table.broadcast() + match source {
            Some(source) => self.table.direct(source),
            None => Seq::empty(),
        }
    }

    /// The settings.
    pub closed spec fn settings(self) -> StreamConfig {
        self.config
    }

    /// The table is in order.
    pub closed spec fn wf(self) -> bool {
        self.table.wf()
    }

    /// Whether the router follows some routes.
    pub open spec fn follows(self, routes: Seq<SinkRoute>) -> bool {
        forall|source: Option<Seq<char>>| #[trigger]
            self.targets_spec(source) == targets_of(numbered(routes), source)
    }

    /// Creates a router that sends every chunk to so many sinks.
    pub fn new(sink_count: usize, config: StreamConfig) -> (r: Self)
        ensures
            r.wf(),
            r.settings() == config,
            forall|source: Option<Seq<char>>| #[trigger]
                r.targets_spec(source) == Seq::new(sink_count as nat, |i: int| i as usize),
    {
        let table = RoutingTable::broadcast_to(sink_count);
        let r = Router { table, config };
        proof {
            assert forall|source: Option<Seq<char>>| #[trigger]
                r.targets_spec(source) == Seq::new(sink_count as nat, |i: int| i as usize) by {
                assert(r.targets_spec(source) =~= Seq::new(
                    sink_count as nat,
                    |i: int| i as usize,
                ));
            }
        }
        r
    }

    /// Creates a router for sinks with routes.
    ///
    /// Fails on the first route that references an unknown source.
    pub fn with_routing(
        routes: &Vec<SinkRoute>,
        source_ids: &Vec<SourceId>,
        config: StreamConfig,
    ) -> (r: Result<Self, StreamAudioError>)
        ensures
            match r {
                Ok(router) => router.wf() && router.settings() == config && router.follows(routes@)
                    && forall|i: int|
                    0 <= i < routes@.len() ==> routing::is_valid(#[trigger] routes@[i], source_ids@),
                Err(error) => exists|i: int| #[trigger]
                    routing::first_invalid(numbered(routes@), source_ids@, i)
                        && routing::unknown_source(error, routes@[i]),
            },
    {
        let mut list: Vec<(usize, SinkRoute)> = Vec::new();
        let mut i: usize = 0;
        while i < routes.len()
            invariant
                i <= routes.len(),
                list@ == numbered(routes@).take(i as int),
            decreases routes.len() - i,
        {
            list.push((i, routes[i].clone()));
            i = i + 1;
        }
        assert(list@ =~= numbered(routes@));
        match RoutingTable::new(&list, source_ids) {
            Ok(table) => {
                let router = Router { table, config };
                proof {
                    assert forall|source: Option<Seq<char>>| #[trigger]
                        router.targets_spec(source) == targets_of(numbered(routes@), source) by {
                        match source {
                            Some(source) => {
                                assert(table.direct(source) == routing::direct_of(list@, source));
                            },
                            None => {},
                        }
                    }
                    assert forall|i: int| 0 <= i < routes@.len() implies routing::is_valid(
                        #[trigger] routes@[i],
                        source_ids@,
                    ) by {
                        assert(list@[i].1 == routes@[i]);
                    }
                }
                Ok(router)
            },
            Err(error) => {
                proof {
                    let i = choose|i: int| #[trigger]
                        routing::first_invalid(list@, source_ids@, i) && routing::unknown_source(
                            error,
                            list@[i].1,
                        );
                    assert(routing::first_invalid(numbered(routes@), source_ids@, i));
                }
                Err(error)
            },
        }
    }

    /// Lists the sinks that get a chunk.
    pub fn targets(&self, chunk: &AudioChunk) -> (r: Vec<usize>)
        requires
            self.wf(),
        ensures
            r@ == self.targets_spec(chunk@.source_id),
    {
        let mut r: Vec<usize> = Vec::new();
        r.extend_from_slice(self.table.broadcast_sinks());
        match &chunk.source_id {
            Some(source_id) => {
                r.extend_from_slice(self.table.direct_sinks(source_id));
            },
            None => {},
        }
        assert(r@ =~= self.targets_spec(chunk@.source_id));
        r
    }

    /// Starts the attempts at writing a chunk to a sink.
    pub fn start_write(&self) -> (r: WriteAttempts)
        ensures
            r.active(),
            r@ == (AttemptsModel {
                failed: 0,
                limit: self.settings().sink_retry_attempts as nat,
                delay: self.settings().sink_retry_delay@,
            }),
    {
        WriteAttempts::new(&self.config)
    }
}

/// The event for a sink that failed to stop.
pub fn stop_error_event(sink_name: &str, error: &SinkError) -> (r: StreamEvent)
    ensures
        r@ == (EventModel::SinkError {
            sink_name: sink_name@,
            error: "Error during shutdown: "@ + error.text(),
        }),
{
    StreamEvent::SinkError {
        sink_name: String::from_str(sink_name),
        error: join2("Error during shutdown: ", error.message().as_str()),
    }
}

/// The error for a sink that failed to start.
pub fn sink_start_error(sink_name: &str, error: &SinkError) -> (r: StreamAudioError)
    ensures
        r matches StreamAudioError::SinkStartFailed { sink_name: n, reason } && n@ == sink_name@
            && reason@ == error.text(),
{
    StreamAudioError::SinkStartFailed {
        sink_name: String::from_str(sink_name),
        reason: error.message(),
    }
}

/// A sink gets a source's chunk exactly where its route wants that source.
pub proof fn lemma_target_iff_wanted(routes: Seq<SinkRoute>, source: Seq<char>, sink: usize)
    requires
        routes.len() <= usize::MAX,
    ensures
        targets_of(numbered(routes), Some(source)).contains(sink) <==> sink < routes.len()
            && routing::wants(routes[sink as int], source),
{
    let list = numbered(routes);
    let b = routing::broadcast_of(list);
    let d = routing::direct_of(list, source);
    routing::lemma_routes_are_kept(list, source, sink);
    assert((b + d).contains(sink) <==> b.contains(sink) || d.contains(sink)) by {
        if b.contains(sink) {
            let i = choose|i: int| 0 <= i < b.len() && b[i] == sink;
            assert((b + d)[i] == sink);
        }
        if d.contains(sink) {
            let i = choose|i: int| 0 <= i < d.len() && d[i] == sink;
            assert((b + d)[b.len() + i] == sink);
        }
    }
    if sink < routes.len() && routing::wants(routes[sink as int], source) {
        assert(list[sink as int].0 == sink);
    }
}

proof fn lemma_numbered_shorter(routes: Seq<SinkRoute>)
    requires
        routes.len() > 0,
    ensures
        numbered(routes).drop_last() == numbered(routes.drop_last()),
        numbered(routes).last() == ((routes.len() - 1) as usize, routes.last()),
{
    assert(numbered(routes).drop_last() =~= numbered(routes.drop_last()));
}

/// The sinks of one kind come in order, each once, and each is of that kind.
proof fn lemma_kinds_in_order(routes: Seq<SinkRoute>, source: Seq<char>)
    requires
        routes.len() <= usize::MAX,
    ensures
        ({
            let b = routing::broadcast_of(numbered(routes));
            let d = routing::direct_of(numbered(routes), source);
            &&& forall|i: int|
                0 <= i < b.len() ==> #[trigger] b[i] < routes.len() && routes[b[i] as int] is Broadcast
            &&& forall|i: int|
                0 <= i < d.len() ==> #[trigger] d[i] < routes.len() && (
                routes[d[i] as int] matches SinkRoute::Single(id) && id@ == source)
            &&& forall|i: int, j: int| 0 <= i < j < b.len() ==> #[trigger] b[i] < #[trigger] b[j]
            &&& forall|i: int, j: int| 0 <= i < j < d.len() ==> #[trigger] d[i] < #[trigger] d[j]
        }),
    decreases routes.len(),
{
    if routes.len() > 0 {
        lemma_numbered_shorter(routes);
        lemma_kinds_in_order(routes.drop_last(), source);
        let shorter = routes.drop_last();
        assert(forall|i: int| 0 <= i < shorter.len() ==> shorter[i] == routes[i]);
    }
}

/// A chunk goes to the sinks for all sources and to those for its own source only; to the
/// former first, and among each in the order in which the sinks were added, to each once.
pub proof fn lemma_target_order(routes: Seq<SinkRoute>, source: Seq<char>, i: int, j: int)
    requires
        routes.len() <= usize::MAX,
        0 <= i < j < targets_of(numbered(routes), Some(source)).len(),
    ensures
        ({
            let targets = targets_of(numbered(routes), Some(source));
            let (first, second) = (targets[i], targets[j]);
            &&& first < routes.len() && second < routes.len()
            &&& first != second
            &&& routes[first as int] is Broadcast || routes[second as int] is Single
            &&& (routes[first as int] is Broadcast <==> routes[second as int] is Broadcast) ==> first
                < second
        }),
{
    lemma_kinds_in_order(routes, source);
}

/// A sink gets a source's chunk exactly where it was added for all sources or for that one.
pub proof fn lemma_target_iff_added_for(routes: Seq<SinkRoute>, source: Seq<char>, sink: usize)
    requires
        routes.len() <= usize::MAX,
    ensures
        targets_of(numbered(routes), Some(source)).contains(sink) <==> sink < routes.len()
            && match routes[sink as int] {
            SinkRoute::Broadcast => true,
            SinkRoute::Single(id) => id@ == source,
        },
{
    lemma_target_iff_wanted(routes, source, sink);
}

/// A chunk of no source goes to the sinks for all sources, and to no other.
pub proof fn lemma_target_without_source(routes: Seq<SinkRoute>, sink: usize)
    requires
        routes.len() <= usize::MAX,
    ensures
        targets_of(numbered(routes), None).contains(sink) <==> sink < routes.len()
            && routes[sink as int] is Broadcast,
    decreases routes.len(),
{
    let b = routing::broadcast_of(numbered(routes));
    assert(targets_of(numbered(routes), None) =~= b);
    if routes.len() > 0 {
        lemma_numbered_shorter(routes);
        lemma_target_without_source(routes.drop_last(), sink);
        let last = (routes.len() - 1) as usize;
        let had = routing::broadcast_of(numbered(routes.drop_last()));
        assert(targets_of(numbered(routes.drop_last()), None) =~= had);
        if had.contains(sink) {
            let i = choose|i: int| 0 <= i < had.len() && had[i] == sink;
            assert(b[i] == sink);
        }
        if b.contains(sink) {
            let i = choose|i: int| 0 <= i < b.len() && b[i] == sink;
            if i < had.len() {
                assert(had[i] == sink);
            }
        }
        if routes.last() is Broadcast {
            assert(b[had.len() as int] == last);
        }
    }
}

/// A router that is told to stop, step by step: it writes what came before the command and what
/// is waiting, stops the sinks from the first to the last, and ends; the command itself and
/// nothing else is answered with going on.
pub proof fn lemma_shutdown_step_by_step(before: nat, waiting: nat, sinks: nat, i: int)
    requires
        sinks <= usize::MAX,
    ensures
        ({
            let inputs = Seq::new(
                before + waiting + sinks + 2,
                |k: int|
                    if k == before {
                        RouterInput::Command(RouterCommand::Stop)
                    } else if k < before + waiting + 1 {
                        RouterInput::Chunk
                    } else if k == before + waiting + 1 {
                        RouterInput::Empty
                    } else {
                        RouterInput::SinkStopped
                    },
            );
            let (phase, actions) = router_run(RouterPhase::Receiving, inputs, sinks);
            &&& phase is Ended
            &&& actions.len() == inputs.len()
            &&& 0 <= i < before ==> actions[i] is Write
            &&& actions[before as int] is Proceed
            &&& before < i <= before + waiting ==> actions[i] is Write
            &&& 0 <= i < sinks ==> (actions[before + waiting + 1 + i] matches
                RouterAction::StopSink { index } && index == i)
            &&& actions.last() is End
        }),
{
    let inputs = Seq::new(
        before + waiting + sinks + 2,
        |k: int|
            if k == before {
                RouterInput::Command(RouterCommand::Stop)
            } else if k < before + waiting + 1 {
                RouterInput::Chunk
            } else if k == before + waiting + 1 {
                RouterInput::Empty
            } else {
                RouterInput::SinkStopped
            },
    );
    assert(inputs =~= shutdown_inputs(before, waiting, sinks));
    lemma_shutdown_writes_then_stops(before, waiting, sinks);
}

} // verus!
