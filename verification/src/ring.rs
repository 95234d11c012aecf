//! The ring buffer between an audio callback and the pipeline.
//!
//! The buffer is that of the `ringbuf` crate. All samples that are pushed into a buffer over
//! its life, one after the other, are its stream: those of the past and those to come. Each
//! of the two ends has a place in the stream up to which samples have been popped, and knows
//! of so many samples after that place that wait in the buffer; what the other end has done
//! it finds out from time to time.
use ringbuf::traits::{Consumer, Observer, Producer, Split};
use vstd::prelude::*;

verus! {

/// A ring buffer that has not been split into its ends.
#[verifier::external_body]
pub struct SampleRing {
    inner: ringbuf::HeapRb<i16>,
}

/// The end into which samples are pushed.
#[verifier::external_body]
pub struct SampleProducer {
    inner: ringbuf::HeapProd<i16>,
}

/// The end from which samples are popped.
#[verifier::external_body]
pub struct SampleConsumer {
    inner: ringbuf::HeapCons<i16>,
}

/// The samples in an unsplit buffer, oldest first.
pub uninterp spec fn ring_contents(ring: SampleRing) -> Seq<i16>;

/// How many samples an unsplit buffer can hold.
pub uninterp spec fn ring_capacity(ring: SampleRing) -> nat;

/// Which buffer the producer belongs to.
pub uninterp spec fn producer_ring(producer: SampleProducer) -> int;

/// All samples that are ever pushed into the producer's buffer, in that order. Samples that
/// are handed back because the buffer is full are not among them.
pub uninterp spec fn producer_stream(producer: SampleProducer) -> Seq<i16>;

/// How many samples have been popped as far as the producer knows.
pub uninterp spec fn producer_popped(producer: SampleProducer) -> nat;

/// How many samples wait in the buffer as far as the producer knows.
pub uninterp spec fn producer_waiting(producer: SampleProducer) -> nat;

/// How many samples the producer's buffer can hold.
pub uninterp spec fn producer_capacity(producer: SampleProducer) -> nat;

/// Which buffer the consumer belongs to.
pub uninterp spec fn consumer_ring(consumer: SampleConsumer) -> int;

/// All samples that are ever pushed into the consumer's buffer, in that order.
pub uninterp spec fn consumer_stream(consumer: SampleConsumer) -> Seq<i16>;

/// How many samples the consumer has popped.
pub uninterp spec fn consumer_popped(consumer: SampleConsumer) -> nat;

/// How many samples wait in the buffer as far as the consumer knows.
pub uninterp spec fn consumer_waiting(consumer: SampleConsumer) -> nat;

/// So many samples of a stream from a place on.
pub open spec fn stretch(stream: Seq<i16>, from: nat, n: nat) -> Seq<i16> {
    Seq::new(n, |i: int| stream[from + i])
}

/// The samples that, as far as the producer knows, have not been popped, oldest first.
pub open spec fn producer_contents(producer: SampleProducer) -> Seq<i16> {
    stretch(
        producer_stream(producer),
        producer_popped(producer),
        producer_waiting(producer),
    )
}

/// How many samples the producer's buffer has been given: the place of the next one.
pub open spec fn producer_written(producer: SampleProducer) -> nat {
    producer_popped(producer) + producer_waiting(producer)
}

/// The samples that, as far as the consumer knows, are there to be popped, oldest first.
pub open spec fn consumer_contents(consumer: SampleConsumer) -> Seq<i16> {
    stretch(
        consumer_stream(consumer),
        consumer_popped(consumer),
        consumer_waiting(consumer),
    )
}

/// How many samples the consumer knows to have been pushed.
pub open spec fn consumer_seen(consumer: SampleConsumer) -> nat {
    consumer_popped(consumer) + consumer_waiting(consumer)
}

/// Whether two values of a producer are of one buffer.
pub open spec fn same_producer(a: SampleProducer, b: SampleProducer) -> bool {
    &&& producer_ring(a) == producer_ring(b)
    &&& producer_stream(a) == producer_stream(b)
    &&& producer_capacity(a) == producer_capacity(b)
}

/// Whether two values of a consumer are of one buffer.
pub open spec fn same_consumer(a: SampleConsumer, b: SampleConsumer) -> bool {
    consumer_ring(a) == consumer_ring(b) && consumer_stream(a) == consumer_stream(b)
}

/// Whether a producer and a consumer are the two ends of one buffer, so that what the one
/// pushes is what the other pops.
pub open spec fn connected(producer: SampleProducer, consumer: SampleConsumer) -> bool {
    &&& producer_ring(producer) == consumer_ring(consumer)
    &&& producer_stream(producer) == consumer_stream(consumer)
}

/// Whether a producer and a consumer are the two ends of one buffer into which nothing has
/// been pushed yet: what is pushed first is what is popped first.
pub open spec fn new_ends(producer: SampleProducer, consumer: SampleConsumer) -> bool {
    &&& connected(producer, consumer)
    &&& producer_written(producer) == 0
    &&& consumer_seen(consumer) == 0
}

/// Tells whether a ring buffer for so many samples can be made.
pub fn can_make_ring(capacity: u128) -> (r: bool)
    ensures
        r == (0 < capacity && 2 * capacity <= isize::MAX),
{
    0 < capacity && capacity <= isize::MAX as u128 / 2
}

impl SampleRing {
    /// Calls `HeapRb::new`: an empty buffer for exactly so many samples.
    ///
    /// That function panics on a capacity of zero, and on one that no allocation can
    /// have.
    #[verifier::external_body]
    pub(crate) fn new(capacity: usize) -> (r: Self)
        requires
            0 < capacity,
            2 * capacity <= isize::MAX,
        ensures
            ring_contents(r) == Seq::<i16>::empty(),
            ring_capacity(r) == capacity,
    {
        SampleRing { inner: ringbuf::HeapRb::<i16>::new(capacity) }
    }

    /// Calls `Producer::try_push` of the whole buffer: appends the sample where there is
    /// room and hands it back where there is none.
    #[verifier::external_body]
    pub(crate) fn try_push(&mut self, sample: i16) -> (r: Result<(), i16>)
        ensures
            ring_capacity(*final(self)) == ring_capacity(*old(self)),
            ring_contents(*old(self)).len() < ring_capacity(*old(self)) ==> r is Ok
                && ring_contents(*final(self)) == ring_contents(*old(self)).push(sample),
            ring_contents(*old(self)).len() >= ring_capacity(*old(self)) ==> r is Err && r->Err_0
                == sample && ring_contents(*final(self)) == ring_contents(*old(self)),
    {
        self.inner.try_push(sample)
    }

    /// Calls `Split::split`: the two ends of the buffer, which both know its contents.
    ///
    /// Both ends hold a reference to the one buffer. Its stream begins with what it holds
    /// now.
    #[verifier::external_body]
    pub(crate) fn split(self) -> (r: (SampleProducer, SampleConsumer))
        ensures
            producer_ring(r.0) == consumer_ring(r.1),
            producer_stream(r.0) == consumer_stream(r.1),
            producer_popped(r.0) == 0,
            producer_waiting(r.0) == ring_contents(self).len(),
            producer_capacity(r.0) == ring_capacity(self),
            consumer_popped(r.1) == 0,
            consumer_waiting(r.1) == ring_contents(self).len(),
            ring_contents(self).is_prefix_of(consumer_stream(r.1)),
    {
        let (producer, consumer) = self.inner.split();
        (SampleProducer { inner: producer }, SampleConsumer { inner: consumer })
    }
}

/// Whether a producer, before or after finding out how many of its oldest samples have
/// been popped meanwhile, goes from one picture to the next by appending.
pub open spec fn appended(before: Seq<i16>, popped: nat, added: Seq<i16>) -> Seq<i16> {
    before.skip(popped as int) + added
}

impl SampleProducer {
    /// Calls `Producer::try_push` of the producing end: puts the sample at the end of what
    /// has been pushed where there is room, and hands it back where there is none.
    ///
    /// A producer that takes the buffer to be full first looks how many samples have been
    /// popped since; it hands the sample back only where none has.
    #[verifier::external_body]
    pub(crate) fn try_push(&mut self, sample: i16) -> (r: Result<(), i16>)
        ensures
            producer_ring(*final(self)) == producer_ring(*old(self)),
            producer_stream(*final(self)) == producer_stream(*old(self)),
            producer_capacity(*final(self)) == producer_capacity(*old(self)),
            producer_written(*final(self)) <= producer_stream(*final(self)).len(),
            producer_waiting(*old(self)) < producer_capacity(*old(self)) ==> r is Ok
                && producer_popped(*final(self)) == producer_popped(*old(self)),
            producer_waiting(*old(self)) >= producer_capacity(*old(self)) && r is Ok ==>
                producer_popped(*old(self)) < producer_popped(*final(self)) <= producer_written(
                *old(self),
            ),
            r is Ok ==> producer_written(*final(self)) == producer_written(*old(self)) + 1
                && producer_stream(*final(self))[producer_written(*old(self)) as int] == sample,
            r is Err ==> r->Err_0 == sample && producer_popped(*final(self)) == producer_popped(
                *old(self),
            ) && producer_waiting(*final(self)) == producer_waiting(*old(self)),
    {
        self.inner.try_push(sample)
    }

    /// Calls `Producer::push_slice` of the producing end: puts as many of the samples, from
    /// the first on, as there is room for at the end of what has been pushed, and tells how
    /// many.
    ///
    /// The producer first looks how many samples have been popped since.
    #[verifier::external_body]
    pub(crate) fn push_slice(&mut self, samples: &[i16]) -> (r: usize)
        ensures
            producer_ring(*final(self)) == producer_ring(*old(self)),
            producer_stream(*final(self)) == producer_stream(*old(self)),
            producer_capacity(*final(self)) == producer_capacity(*old(self)),
            producer_written(*final(self)) <= producer_stream(*final(self)).len(),
            r <= samples@.len(),
            producer_written(*final(self)) == producer_written(*old(self)) + r,
            stretch(producer_stream(*final(self)), producer_written(*old(self)), r as nat)
                == samples@.take(r as int),
            producer_popped(*old(self)) <= producer_popped(*final(self)) <= producer_written(
                *old(self),
            ),
            r == samples@.len() || producer_waiting(*final(self)) == producer_capacity(*old(self)),
    {
        self.inner.push_slice(samples)
    }
}

impl SampleConsumer {
    /// Calls `Observer::occupied_len` of the consuming end: how many samples are there to
    /// be popped.
    ///
    /// The consumer first looks how many samples have been pushed since. How many these are
    /// is up to the other end and the moment of the look.
    #[verifier::external_body]
    pub(crate) fn occupied_len(&mut self) -> (r: usize)
        ensures
            consumer_ring(*final(self)) == consumer_ring(*old(self)),
            consumer_stream(*final(self)) == consumer_stream(*old(self)),
            consumer_popped(*final(self)) == consumer_popped(*old(self)),
            consumer_waiting(*old(self)) <= consumer_waiting(*final(self)),
            consumer_seen(*final(self)) <= consumer_stream(*final(self)).len(),
            r == consumer_waiting(*final(self)),
    {
        self.inner.occupied_len()
    }

    /// Calls `Consumer::try_pop` of the consuming end: takes the oldest sample, which is the
    /// next of the stream.
    ///
    /// A consumer that takes the buffer to be empty first looks how many samples have been
    /// pushed since. Whether there are any is up to the other end and the moment of the
    /// look.
    #[verifier::external_body]
    pub(crate) fn try_pop(&mut self) -> (r: Option<i16>)
        ensures
            consumer_ring(*final(self)) == consumer_ring(*old(self)),
            consumer_stream(*final(self)) == consumer_stream(*old(self)),
            consumer_seen(*old(self)) <= consumer_seen(*final(self)) <= consumer_stream(
                *final(self),
            ).len(),
            consumer_waiting(*old(self)) > 0 ==> r is Some && consumer_seen(*final(self))
                == consumer_seen(*old(self)),
            match r {
                Some(sample) => consumer_popped(*final(self)) == consumer_popped(*old(self)) + 1
                    && sample == consumer_stream(*final(self))[consumer_popped(*old(self)) as int],
                None => consumer_popped(*final(self)) == consumer_popped(*old(self))
                    && consumer_waiting(*final(self)) == 0,
            },
    {
        self.inner.try_pop()
    }
}

/// Two stretches that follow one another are one.
pub(crate) proof fn lemma_stretch_append(stream: Seq<i16>, from: nat, a: nat, b: nat)
    ensures
        stretch(stream, from, a) + stretch(stream, from + a, b) == stretch(stream, from, a + b),
{
    assert(stretch(stream, from, a) + stretch(stream, from + a, b) =~= stretch(
        stream,
        from,
        a + b,
    ));
}

/// The samples that are marked to be kept, in their order.
pub open spec fn kept_samples(samples: Seq<i16>, kept: Seq<bool>) -> Seq<i16>
    decreases samples.len(),
{
    if samples.len() == 0 {
        Seq::empty()
    } else if kept.last() {
        kept_samples(samples.drop_last(), kept.drop_last()).push(samples.last())
    } else {
        kept_samples(samples.drop_last(), kept.drop_last())
    }
}

/// Whether a producer may go from one picture to another when it pushes a sample, which is
/// kept or dropped.
///
/// It is dropped only where the buffer is full and nothing has been popped.
pub open spec fn push_step(
    capacity: nat,
    before: Seq<i16>,
    sample: i16,
    kept: bool,
    after: Seq<i16>,
) -> bool {
    if before.len() < capacity {
        kept && after == before.push(sample)
    } else if kept {
        exists|popped: nat|
            0 < popped <= before.len() && after == #[trigger] appended(before, popped, seq![sample])
    } else {
        after == before
    }
}

/// Whether these are the pictures that a producer has while it pushes samples one by one.
pub open spec fn push_run(
    capacity: nat,
    pictures: Seq<Seq<i16>>,
    samples: Seq<i16>,
    kept: Seq<bool>,
) -> bool {
    &&& pictures.len() == samples.len() + 1
    &&& kept.len() == samples.len()
    &&& forall|i: int|
        0 <= i < samples.len() ==> #[trigger] push_step(
            capacity,
            pictures[i],
            samples[i],
            kept[i],
            pictures[i + 1],
        )
}

/// Whether a producer that knew of `before` may know of `after` once it has pushed samples
/// one by one, of which only `added` were kept.
pub open spec fn pushed(
    capacity: nat,
    before: Seq<i16>,
    samples: Seq<i16>,
    after: Seq<i16>,
    added: Seq<i16>,
) -> bool {
    exists|pictures: Seq<Seq<i16>>, kept: Seq<bool>| #[trigger]
        push_run(capacity, pictures, samples, kept) && pictures[0] == before && pictures.last()
            == after && added == kept_samples(samples, kept)
}

/// Whether a producer may come out so when samples are pushed one by one, of which so many
/// are dropped: the others are what its stream goes on with.
pub open spec fn took_samples(
    before: SampleProducer,
    samples: Seq<i16>,
    after: SampleProducer,
    dropped: int,
) -> bool {
    &&& same_producer(before, after)
    &&& 0 <= dropped <= samples.len()
    &&& producer_written(after) == producer_written(before) + samples.len() - dropped
    &&& pushed(
        producer_capacity(before),
        producer_contents(before),
        samples,
        producer_contents(after),
        stretch(
            producer_stream(before),
            producer_written(before),
            (samples.len() - dropped) as nat,
        ),
    )
}

/// What a producer has pushed lies in the buffer in its order: the oldest samples may have
/// been popped, nothing else is missing but what was dropped, and nothing is there twice.
pub proof fn lemma_push_keeps_order(
    capacity: nat,
    pictures: Seq<Seq<i16>>,
    samples: Seq<i16>,
    kept: Seq<bool>,
) -> (popped: nat)
    requires
        push_run(capacity, pictures, samples, kept),
    ensures
        popped <= pictures[0].len() + kept_samples(samples, kept).len(),
        pictures.last() == (pictures[0] + kept_samples(samples, kept)).skip(popped as int),
    decreases samples.len(),
{
    if samples.len() == 0 {
        assert((pictures[0] + kept_samples(samples, kept)).skip(0) =~= pictures[0]);
        0
    } else {
        let n = samples.len() - 1;
        let sel = kept_samples(samples.drop_last(), kept.drop_last());
        let before = pictures.drop_last();
        assert(push_step(capacity, pictures[n], samples[n], kept[n], pictures[n + 1]));
        assert forall|i: int| 0 <= i < n implies #[trigger] push_step(
            capacity,
            before[i],
            samples.drop_last()[i],
            kept.drop_last()[i],
            before[i + 1],
        ) by {
            assert(push_step(capacity, pictures[i], samples[i], kept[i], pictures[i + 1]));
        }
        let popped = lemma_push_keeps_order(
            capacity,
            before,
            samples.drop_last(),
            kept.drop_last(),
        );
        let known = pictures[n];
        let sample = samples[n];
        if kept[n] && known.len() >= capacity {
            let more = choose|more: nat|
                0 < more <= known.len() && pictures[n + 1] == #[trigger] appended(
                    known,
                    more,
                    seq![sample],
                );
            assert(pictures[n + 1] =~= (pictures[0] + sel.push(sample)).skip((popped + more) as int));
            popped + more
        } else {
            if kept[n] {
                assert(pictures[n + 1] =~= (pictures[0] + sel.push(sample)).skip(popped as int));
            }
            popped
        }
    }
}

/// Where there is room for all samples, none is dropped and all are appended.
pub proof fn lemma_push_with_room(
    capacity: nat,
    before: Seq<i16>,
    samples: Seq<i16>,
    after: Seq<i16>,
    added: Seq<i16>,
)
    requires
        pushed(capacity, before, samples, after, added),
        before.len() + samples.len() <= capacity,
    ensures
        added == samples,
        after == before + samples,
{
    let (pictures, kept) = choose|pictures: Seq<Seq<i16>>, kept: Seq<bool>| #[trigger]
        push_run(capacity, pictures, samples, kept) && pictures[0] == before && pictures.last()
            == after && added == kept_samples(samples, kept);
    lemma_room_run(capacity, pictures, samples, kept, samples.len());
    assert(samples.take(samples.len() as int) =~= samples);
    assert(kept.take(samples.len() as int) =~= kept);
}

proof fn lemma_room_run(
    capacity: nat,
    pictures: Seq<Seq<i16>>,
    samples: Seq<i16>,
    kept: Seq<bool>,
    n: nat,
)
    requires
        push_run(capacity, pictures, samples, kept),
        pictures[0].len() + samples.len() <= capacity,
        n <= samples.len(),
    ensures
        pictures[n as int] == pictures[0] + samples.take(n as int),
        kept_samples(samples.take(n as int), kept.take(n as int)) == samples.take(n as int),
    decreases n,
{
    if n == 0 {
        assert(pictures[0] + samples.take(0) =~= pictures[0]);
        assert(kept_samples(samples.take(0), kept.take(0)) =~= samples.take(0));
    } else {
        let m = n - 1;
        lemma_room_run(capacity, pictures, samples, kept, m as nat);
        assert(push_step(capacity, pictures[m], samples[m], kept[m], pictures[m + 1]));
        assert(pictures[n as int] =~= pictures[0] + samples.take(n as int));
        assert(samples.take(n as int).drop_last() =~= samples.take(m));
        assert(kept.take(n as int).drop_last() =~= kept.take(m));
        assert(samples.take(m).push(samples[m]) =~= samples.take(n as int));
    }
}

impl SampleProducer {
    /// Pushes the samples one by one without waiting and counts those that are dropped
    /// because the buffer is full.
    ///
    /// This end of the buffer cannot remove what lies in it, so what is dropped is the new
    /// samples.
    pub fn push_all(&mut self, samples: &[i16]) -> (dropped: u64)
        ensures
            took_samples(*old(self), samples@, *final(self), dropped as int),
    {
        let ghost before = *self;
        let ghost capacity = producer_capacity(before);
        let ghost stream = producer_stream(before);
        let ghost start = producer_written(before);
        let ghost mut kept: Seq<bool> = Seq::empty();
        let ghost mut pictures: Seq<Seq<i16>> = seq![producer_contents(*self)];
        let mut dropped: u64 = 0;
        let mut i: usize = 0;
        assert(stretch(stream, start, 0) =~= kept_samples(samples@.take(0), kept));
        while i < samples.len()
            invariant
                i <= samples.len(),
                before == *old(self),
                capacity == producer_capacity(before),
                stream == producer_stream(before),
                start == producer_written(before),
                same_producer(before, *self),
                push_run(capacity, pictures, samples@.take(i as int), kept),
                pictures[0] == producer_contents(before),
                pictures.last() == producer_contents(*self),
                dropped <= i,
                producer_written(*self) == start + i - dropped,
                stretch(stream, start, (i - dropped) as nat) == kept_samples(
                    samples@.take(i as int),
                    kept,
                ),
            decreases samples.len() - i,
        {
            let ghost taken = samples@.take(i as int);
            let ghost next = samples@.take(i + 1);
            let ghost known = *self;
            assert(next.drop_last() =~= taken);
            let ok: bool = match self.try_push(samples[i]) {
                Ok(()) => true,
                Err(_) => {
                    dropped = dropped + 1;
                    false
                },
            };
            proof {
                let seen = pictures;
                let marked = kept;
                lemma_push_step(known, samples@[i as int], ok, *self);
                kept = kept.push(ok);
                pictures = pictures.push(producer_contents(*self));
                assert(kept.drop_last() =~= marked);
                assert forall|j: int| 0 <= j < next.len() implies #[trigger] push_step(
                    capacity,
                    pictures[j],
                    next[j],
                    kept[j],
                    pictures[j + 1],
                ) by {
                    if j < i {
                        assert(push_step(capacity, seen[j], taken[j], marked[j], seen[j + 1]));
                    }
                }
                assert(stretch(stream, start, (i + 1 - dropped) as nat) =~= kept_samples(next, kept));
            }
            i = i + 1;
        }
        assert(samples@.take(i as int) =~= samples@);
        dropped
    }
}

/// What a push does to the producer's picture of the buffer.
proof fn lemma_push_step(
    before: SampleProducer,
    sample: i16,
    kept: bool,
    after: SampleProducer,
)
    requires
        same_producer(before, after),
        producer_waiting(before) < producer_capacity(before) ==> kept && producer_popped(after)
            == producer_popped(before),
        producer_waiting(before) >= producer_capacity(before) && kept ==> producer_popped(before)
            < producer_popped(after) <= producer_written(before),
        kept ==> producer_written(after) == producer_written(before) + 1 && producer_stream(
            after,
        )[producer_written(before) as int] == sample,
        !kept ==> producer_popped(after) == producer_popped(before) && producer_waiting(after)
            == producer_waiting(before),
    ensures
        push_step(
            producer_capacity(before),
            producer_contents(before),
            sample,
            kept,
            producer_contents(after),
        ),
{
    if kept {
        let popped = (producer_popped(after) - producer_popped(before)) as nat;
        assert(producer_contents(after) =~= appended(
            producer_contents(before),
            popped,
            seq![sample],
        ));
        if popped == 0 {
            assert(producer_contents(after) =~= producer_contents(before).push(sample));
        }
    }
}

/// Makes a ring buffer that holds as many of the samples, from the first on, as it has
/// room for, and gives its consuming end.
pub(crate) fn filled_ring(capacity: usize, samples: &[i16]) -> (r: SampleConsumer)
    requires
        0 < capacity,
        2 * capacity <= isize::MAX,
    ensures
        consumer_contents(r) == samples@.take(
            if samples@.len() < capacity {
                samples@.len() as int
            } else {
                capacity as int
            },
        ),
{
    let mut ring = SampleRing::new(capacity);
    let mut i: usize = 0;
    while i < samples.len()
        invariant
            i <= samples.len(),
            ring_capacity(ring) == capacity,
            ring_contents(ring) == samples@.take(
                if i < capacity {
                    i as int
                } else {
                    capacity as int
                },
            ),
        decreases samples.len() - i,
    {
        match ring.try_push(samples[i]) {
            Ok(()) => {},
            Err(_) => {},
        }
        i = i + 1;
    }
    let ghost held = ring_contents(ring);
    let consumer = ring.split().1;
    assert(consumer_contents(consumer) =~= held);
    consumer
}

impl SampleProducer {
    /// Pushes a block of samples without waiting and counts those at its end that are
    /// dropped because the buffer is full.
    ///
    /// This end of the buffer cannot remove what lies in it, so what is dropped is the new
    /// samples.
    pub fn push_block(&mut self, samples: &[i16]) -> (dropped: usize)
        ensures
            same_producer(*old(self), *final(self)),
            dropped <= samples@.len(),
            producer_written(*final(self)) == producer_written(*old(self)) + samples@.len()
                - dropped,
            stretch(
                producer_stream(*old(self)),
                producer_written(*old(self)),
                (samples@.len() - dropped) as nat,
            ) == samples@.take(samples@.len() - dropped),
            producer_popped(*old(self)) <= producer_popped(*final(self)) <= producer_written(
                *old(self),
            ),
            dropped == 0 || producer_waiting(*final(self)) == producer_capacity(*old(self)),
    {
        let pushed: usize = self.push_slice(samples);
        samples.len() - pushed
    }
}

impl SampleConsumer {
    /// Pops samples until none is left.
    ///
    /// Should samples arrive faster than they are popped, it ends with as many as a
    /// vector can count.
    pub fn take_all(&mut self) -> (r: Vec<i16>)
        ensures
            same_consumer(*old(self), *final(self)),
            consumer_popped(*final(self)) == consumer_popped(*old(self)) + r@.len(),
            consumer_seen(*old(self)) <= consumer_seen(*final(self)),
            r@ == stretch(consumer_stream(*old(self)), consumer_popped(*old(self)), r@.len()),
            consumer_waiting(*final(self)) == 0 || r@.len() == usize::MAX,
    {
        let mut r: Vec<i16> = Vec::new();
        let ghost stream = consumer_stream(*self);
        let ghost start = consumer_popped(*self);
        assert(r@ =~= stretch(stream, start, 0));
        while r.len() < usize::MAX
            invariant
                same_consumer(*old(self), *self),
                stream == consumer_stream(*old(self)),
                start == consumer_popped(*old(self)),
                consumer_popped(*self) == start + r@.len(),
                consumer_seen(*old(self)) <= consumer_seen(*self),
                r@ == stretch(stream, start, r@.len()),
            decreases usize::MAX - r.len(),
        {
            match self.try_pop() {
                Some(sample) => {
                    r.push(sample);
                    assert(r@ =~= stretch(stream, start, r@.len()));
                },
                None => {
                    return r;
                },
            }
        }
        r
    }
}

/// What is popped is what was pushed: wherever the stretch that a consumer has popped between
/// two moments and the one that the producer of its buffer has pushed between two others
/// overlap, they hold the same samples.
pub proof fn lemma_popped_was_pushed(
    producer: SampleProducer,
    consumer: SampleConsumer,
    pushed_from: nat,
    pushed: Seq<i16>,
    popped_from: nat,
    popped: Seq<i16>,
    place: nat,
)
    requires
        connected(producer, consumer),
        pushed == stretch(producer_stream(producer), pushed_from, pushed.len()),
        popped == stretch(consumer_stream(consumer), popped_from, popped.len()),
        pushed_from <= place < pushed_from + pushed.len(),
        popped_from <= place < popped_from + popped.len(),
    ensures
        popped[place - popped_from] == pushed[place - pushed_from],
{
}

} // verus!
