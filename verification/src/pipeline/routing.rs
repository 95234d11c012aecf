//! Sink routing configuration for multi-source capture.
//!
//! Sinks can receive audio from a single source (direct routing) or from all sources
//! (broadcast routing).
use crate::source::SourceId;
use crate::StreamAudioError;
use vstd::prelude::*;

verus! {

/// Specifies which sources a sink should receive audio from.
#[derive(Debug)]
pub enum SinkRoute {
    /// Receive audio from each source independently (broadcast).
    Broadcast,
    /// Receive audio from a single source only.
    Single(SourceId),
}

impl Default for SinkRoute {
    fn default() -> (r: Self)
        ensures
            r is Broadcast,
    {
        SinkRoute::Broadcast
    }
}

impl Clone for SinkRoute {
    fn clone(&self) -> (r: Self)
        ensures
            r == *self,
    {
        match self {
            SinkRoute::Broadcast => SinkRoute::Broadcast,
            SinkRoute::Single(id) => SinkRoute::Single(id.clone()),
        }
    }
}

/// Whether a route takes audio from a source.
pub open spec fn wants(route: SinkRoute, source: Seq<char>) -> bool {
    match route {
        SinkRoute::Broadcast => true,
        SinkRoute::Single(id) => id@ == source,
    }
}

impl SinkRoute {
    /// Creates a route for a single source.
    pub fn single(source_id: &str) -> (r: Self)
        ensures
            r matches SinkRoute::Single(id) && id@ == source_id@,
    {
        SinkRoute::Single(SourceId::new(source_id))
    }

    /// Returns true if this route wants chunks from the given source.
    pub fn wants_source(&self, source_id: &SourceId) -> (r: bool)
        ensures
            r == wants(*self, source_id@),
    {
        match self {
            SinkRoute::Broadcast => true,
            SinkRoute::Single(id) => *id == *source_id,
        }
    }
}

/// The sinks, in order, that are routed to one source only, and to this one.
pub open spec fn direct_of(routes: Seq<(usize, SinkRoute)>, source: Seq<char>) -> Seq<usize>
    decreases routes.len(),
{
    if routes.len() == 0 {
        Seq::empty()
    } else {
        let before = direct_of(routes.drop_last(), source);
        match routes.last().1 {
            SinkRoute::Single(id) => if id@ == source {
                before.push(routes.last().0)
            } else {
                before
            },
            SinkRoute::Broadcast => before,
        }
    }
}

/// The sinks, in order, that are routed to all sources.
pub open spec fn broadcast_of(routes: Seq<(usize, SinkRoute)>) -> Seq<usize>
    decreases routes.len(),
{
    if routes.len() == 0 {
        Seq::empty()
    } else {
        let before = broadcast_of(routes.drop_last());
        match routes.last().1 {
            SinkRoute::Single(_) => before,
            SinkRoute::Broadcast => before.push(routes.last().0),
        }
    }
}

/// Whether a source is among some.
pub open spec fn is_known(sources: Seq<SourceId>, source: Seq<char>) -> bool {
    exists|i: int| 0 <= i < sources.len() && (#[trigger] sources[i])@ == source
}

/// Whether a route names no source that is not among some.
pub open spec fn is_valid(route: SinkRoute, sources: Seq<SourceId>) -> bool {
    match route {
        SinkRoute::Broadcast => true,
        SinkRoute::Single(id) => is_known(sources, id@),
    }
}

/// Whether `i` is the first route that names a source which is not among some.
pub open spec fn first_invalid(
    routes: Seq<(usize, SinkRoute)>,
    sources: Seq<SourceId>,
    i: int,
) -> bool {
    &&& 0 <= i < routes.len()
    &&& !is_valid(routes[i].1, sources)
    &&& forall|j: int| 0 <= j < i ==> is_valid((#[trigger] routes[j]).1, sources)
}

/// Pre-computed routing table for efficient chunk dispatch.
///
/// Built once at startup from sink configurations.
#[derive(Debug)]
pub struct RoutingTable {
    direct_routes: Vec<(SourceId, Vec<usize>)>,
    broadcast_sinks: Vec<usize>,
    no_sinks: Vec<usize>,
}

/// The place of a source among the direct routes.
spec fn place_of(entries: Seq<(SourceId, Vec<usize>)>, source: Seq<char>) -> int {
    choose|i: int| 0 <= i < entries.len() && (#[trigger] entries[i]).0@ == source
}

/// Whether a source is among the direct routes.
spec fn has_place(entries: Seq<(SourceId, Vec<usize>)>, source: Seq<char>) -> bool {
    exists|i: int| 0 <= i < entries.len() && (#[trigger] entries[i]).0@ == source
}

/// Tells where a source is among the direct routes.
fn find_entry(entries: &Vec<(SourceId, Vec<usize>)>, source_id: &SourceId) -> (r: Option<usize>)
    ensures
        match r {
            Some(i) => i < entries@.len() && entries@[i as int].0@ == source_id@,
            None => !has_place(entries@, source_id@),
        },
{
    let mut i: usize = 0;
    while i < entries.len()
        invariant
            i <= entries.len(),
            forall|j: int| 0 <= j < i ==> (#[trigger] entries@[j]).0@ != source_id@,
        decreases entries.len() - i,
    {
        if entries[i].0 == *source_id {
            return Some(i);
        }
        i = i + 1;
    }
    None
}

/// Tells whether a source is among some.
fn contains_source(sources: &Vec<SourceId>, source_id: &SourceId) -> (r: bool)
    ensures
        r == is_known(sources@, source_id@),
{
    let mut i: usize = 0;
    while i < sources.len()
        invariant
            i <= sources.len(),
            forall|j: int| 0 <= j < i ==> (#[trigger] sources@[j])@ != source_id@,
        decreases sources.len() - i,
    {
        if sources[i] == *source_id {
            return true;
        }
        i = i + 1;
    }
    false
}

impl RoutingTable {
    /// The sinks that get a source's chunks directly.
    pub closed spec fn direct(self, source: Seq<char>) -> Seq<usize> {
        if has_place(self.direct_routes@, source) {
            self.direct_routes@[place_of(self.direct_routes@, source)].1@
        } else {
            Seq::empty()
        }
    }

    /// The sinks that get every chunk.
    pub closed spec fn broadcast(self) -> Seq<usize> {
        self.broadcast_sinks@
    }

    /// Every source has at most one entry.
    pub closed spec fn wf(self) -> bool {
        &&& self.no_sinks@.len() == 0
        &&& forall|i: int, j: int|
            0 <= i < j < self.direct_routes@.len() ==> (#[trigger] self.direct_routes@[i]).0@ != (
            #[trigger] self.direct_routes@[j]).0@
    }

    /// Whether the table says of every source what the routes say.
    pub open spec fn follows(self, routes: Seq<(usize, SinkRoute)>) -> bool {
        &&& forall|source: Seq<char>| #[trigger] self.direct(source) == direct_of(routes, source)
        &&& self.broadcast() == broadcast_of(routes)
    }

    /// Creates a new routing table from sink routes.
    ///
    /// Fails on the first route that references an unknown source.
    pub fn new(routes: &Vec<(usize, SinkRoute)>, source_ids: &Vec<SourceId>) -> (r: Result<
        Self,
        StreamAudioError,
    >)
        ensures
            match r {
                Ok(table) => table.wf() && table.follows(routes@) && forall|i: int|
                    0 <= i < routes@.len() ==> is_valid((#[trigger] routes@[i]).1, source_ids@),
                Err(error) => exists|i: int| #[trigger]
                    first_invalid(routes@, source_ids@, i) && unknown_source(error, routes@[i].1),
            },
    {
        let mut table = RoutingTable {
            direct_routes: Vec::new(),
            broadcast_sinks: Vec::new(),
            no_sinks: Vec::new(),
        };
        let mut i: usize = 0;
        while i < routes.len()
            invariant
                i <= routes.len(),
                table.wf(),
                table.follows(routes@.take(i as int)),
                forall|j: int| 0 <= j < i ==> is_valid((#[trigger] routes@[j]).1, source_ids@),
            decreases routes.len() - i,
        {
            let ghost before = table;
            let ghost next = routes@.take(i + 1);
            proof {
                assert(next.drop_last() =~= routes@.take(i as int));
                assert(next.last() == routes@[i as int]);
            }
            let sink: usize = routes[i].0;
            match &routes[i].1 {
                SinkRoute::Broadcast => {
                    table.broadcast_sinks.push(sink);
                    proof {
                        assert forall|source: Seq<char>| #[trigger]
                            table.direct(source) == direct_of(next, source) by {
                            assert(before.direct(source) == direct_of(
                                routes@.take(i as int),
                                source,
                            ));
                        }
                    }
                },
                SinkRoute::Single(source_id) => {
                    if !contains_source(source_ids, source_id) {
                        assert(first_invalid(routes@, source_ids@, i as int));
                        return Err(
                            StreamAudioError::UnknownSourceInRoute {
                                source_id: source_id.to_text(),
                            },
                        );
                    }
                    table.add_direct(source_id, sink);
                    proof {
                        assert forall|source: Seq<char>| #[trigger]
                            table.direct(source) == direct_of(next, source) by {
                            assert(before.direct(source) == direct_of(
                                routes@.take(i as int),
                                source,
                            ));
                        }
                    }
                },
            }
            i = i + 1;
        }
        assert(routes@.take(i as int) =~= routes@);
        Ok(table)
    }

    /// A table that sends every chunk to each of so many sinks.
    pub fn broadcast_to(sink_count: usize) -> (r: Self)
        ensures
            r.wf(),
            r.broadcast() == Seq::new(sink_count as nat, |i: int| i as usize),
            forall|source: Seq<char>| #[trigger] r.direct(source) == Seq::<usize>::empty(),
    {
        let ghost all = Seq::new(sink_count as nat, |i: int| i as usize);
        let mut broadcast_sinks: Vec<usize> = Vec::new();
        let mut i: usize = 0;
        while i < sink_count
            invariant
                i <= sink_count,
                all == Seq::new(sink_count as nat, |i: int| i as usize),
                broadcast_sinks@ == all.take(i as int),
            decreases sink_count - i,
        {
            broadcast_sinks.push(i);
            i = i + 1;
        }
        assert(broadcast_sinks@ =~= all);
        RoutingTable { direct_routes: Vec::new(), broadcast_sinks, no_sinks: Vec::new() }
    }

    /// Adds a sink that gets a source's chunks directly.
    fn add_direct(&mut self, source_id: &SourceId, sink: usize)
        requires
            old(self).wf(),
        ensures
            final(self).wf(),
            final(self).broadcast() == old(self).broadcast(),
            forall|source: Seq<char>| #[trigger]
                final(self).direct(source) == if source == source_id@ {
                    old(self).direct(source).push(sink)
                } else {
                    old(self).direct(source)
                },
    {
        let ghost before = *self;
        match find_entry(&self.direct_routes, source_id) {
            Some(at) => {
                let (id, mut sinks) = self.direct_routes.remove(at);
                sinks.push(sink);
                self.direct_routes.insert(at, (id, sinks));
                proof {
                    let (old_entries, new_entries) = (before.direct_routes@, self.direct_routes@);
                    assert(new_entries.len() == old_entries.len());
                    assert forall|j: int| 0 <= j < new_entries.len() implies (
                    #[trigger] new_entries[j]).0@ == old_entries[j].0@ && (j != at ==> new_entries[j]
                        == old_entries[j]) by {}
                    assert forall|source: Seq<char>| #[trigger]
                        self.direct(source) == if source == source_id@ {
                            before.direct(source).push(sink)
                        } else {
                            before.direct(source)
                        } by {
                        if has_place(old_entries, source) {
                            let p = place_of(old_entries, source);
                            assert(new_entries[p].0@ == source);
                            let q = place_of(new_entries, source);
                            assert(old_entries[q].0@ == source);
                            assert(p == q);
                        }
                        if has_place(new_entries, source) {
                            let q = place_of(new_entries, source);
                            assert(old_entries[q].0@ == source);
                        }
                        if source == source_id@ {
                            assert(old_entries[at as int].0@ == source);
                        }
                    }
                }
            },
            None => {
                let mut sinks: Vec<usize> = Vec::new();
                sinks.push(sink);
                self.direct_routes.push((source_id.clone(), sinks));
                proof {
                    let (old_entries, new_entries) = (before.direct_routes@, self.direct_routes@);
                    let last = old_entries.len() as int;
                    assert forall|source: Seq<char>| #[trigger]
                        self.direct(source) == if source == source_id@ {
                            before.direct(source).push(sink)
                        } else {
                            before.direct(source)
                        } by {
                        assert(new_entries[last].0@ == source_id@);
                        if has_place(old_entries, source) {
                            let p = place_of(old_entries, source);
                            assert(new_entries[p].0@ == source);
                            let q = place_of(new_entries, source);
                            if q < last {
                                assert(old_entries[q].0@ == source);
                            }
                            assert(p == q);
                        } else if has_place(new_entries, source) {
                            let q = place_of(new_entries, source);
                            if q < last {
                                assert(old_entries[q].0@ == source);
                            }
                            assert(q == last);
                            assert(sinks@ =~= Seq::<usize>::empty().push(sink));
                        }
                    }
                }
            },
        }
    }

    /// Returns sink indices that should receive direct chunks from a source.
    pub fn direct_sinks(&self, source_id: &SourceId) -> (r: &[usize])
        requires
            self.wf(),
        ensures
            r@ == self.direct(source_id@),
    {
        match find_entry(&self.direct_routes, source_id) {
            Some(at) => {
                proof {
                    let entries = self.direct_routes@;
                    let p = place_of(entries, source_id@);
                    assert(entries[at as int].0@ == source_id@);
                    assert(p == at);
                }
                self.direct_routes[at].1.as_slice()
            },
            None => {
                assert(self.no_sinks@ =~= Seq::empty());
                self.no_sinks.as_slice()
            },
        }
    }

    /// Returns sink indices that want all sources.
    pub fn broadcast_sinks(&self) -> (r: &[usize])
        ensures
            r@ == self.broadcast(),
    {
        self.broadcast_sinks.as_slice()
    }
}

/// Whether an error names the source of a route.
pub open spec fn unknown_source(error: StreamAudioError, route: SinkRoute) -> bool {
    match (error, route) {
        (
            StreamAudioError::UnknownSourceInRoute { source_id },
            SinkRoute::Single(id),
        ) => source_id@ == id@,
        _ => false,
    }
}

/// A sink is reached exactly by the chunks that its route wants.
pub proof fn lemma_routes_are_kept(
    routes: Seq<(usize, SinkRoute)>,
    source: Seq<char>,
    sink: usize,
)
    ensures
        (direct_of(routes, source).contains(sink) || broadcast_of(routes).contains(sink)) <==> (
        exists|i: int|
            0 <= i < routes.len() && (#[trigger] routes[i]).0 == sink && wants(
                routes[i].1,
                source,
            )),
    decreases routes.len(),
{
    if routes.len() > 0 {
        let shorter = routes.drop_last();
        let last = routes.len() - 1;
        lemma_routes_are_kept(shorter, source, sink);
        lemma_contains_pushed(direct_of(shorter, source), routes.last().0, sink);
        lemma_contains_pushed(broadcast_of(shorter), routes.last().0, sink);
        if exists|i: int|
            0 <= i < shorter.len() && (#[trigger] shorter[i]).0 == sink && wants(
                shorter[i].1,
                source,
            ) {
            let i = choose|i: int|
                0 <= i < shorter.len() && (#[trigger] shorter[i]).0 == sink && wants(
                    shorter[i].1,
                    source,
                );
            assert(routes[i] == shorter[i]);
        }
        if exists|i: int|
            0 <= i < routes.len() && (#[trigger] routes[i]).0 == sink && wants(
                routes[i].1,
                source,
            ) {
            let i = choose|i: int|
                0 <= i < routes.len() && (#[trigger] routes[i]).0 == sink && wants(
                    routes[i].1,
                    source,
                );
            if i < last {
                assert(shorter[i] == routes[i]);
            }
        }
        assert(routes[last] == routes.last());
    }
}

proof fn lemma_contains_pushed(s: Seq<usize>, last: usize, x: usize)
    ensures
        s.push(last).contains(x) <==> s.contains(x) || x == last,
{
    if s.contains(x) {
        let i = choose|i: int| 0 <= i < s.len() && s[i] == x;
        assert(s.push(last)[i] == x);
    }
    if x == last {
        assert(s.push(last)[s.len() as int] == x);
    }
    if s.push(last).contains(x) && x != last {
        let i = choose|i: int| 0 <= i < s.len() + 1 && s.push(last)[i] == x;
        assert(s[i] == x);
    }
}

/// A route is refused exactly where it is for one source that is not among the known ones; the
/// first such route is refused, and the error names its source.
pub proof fn lemma_refused_route(
    routes: Seq<(usize, SinkRoute)>,
    sources: Seq<SourceId>,
    i: int,
    error: StreamAudioError,
)
    requires
        first_invalid(routes, sources, i),
        unknown_source(error, routes[i].1),
    ensures
        0 <= i < routes.len(),
        routes[i].1 matches SinkRoute::Single(id) && (forall|k: int|
            0 <= k < sources.len() ==> (#[trigger] sources[k])@ != id@) && (error matches
            StreamAudioError::UnknownSourceInRoute { source_id } && source_id@ == id@),
        forall|j: int|
            0 <= j < i ==> match (#[trigger] routes[j]).1 {
                SinkRoute::Broadcast => true,
                SinkRoute::Single(id) => exists|k: int|
                    0 <= k < sources.len() && (#[trigger] sources[k])@ == id@,
            },
{
}

/// A route is accepted exactly where it is for all sources, or for one of the known ones.
pub proof fn lemma_accepted_route(route: SinkRoute, sources: Seq<SourceId>)
    ensures
        is_valid(route, sources) <==> match route {
            SinkRoute::Broadcast => true,
            SinkRoute::Single(id) => exists|k: int|
                0 <= k < sources.len() && (#[trigger] sources[k])@ == id@,
        },
{
}

/// Every source is wanted by a route for all of them, and by one for a single source only that
/// one.
pub proof fn lemma_wanted_sources(route: SinkRoute, a: Seq<char>, b: Seq<char>)
    ensures
        route is Broadcast ==> wants(route, a),
        route is Single && wants(route, a) && wants(route, b) ==> a == b,
        route matches SinkRoute::Single(id) ==> wants(route, id@),
{
}

} // verus!
