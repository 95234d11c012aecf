//! Spans of time, and the clock they are measured with.
use crate::binary64;
use crate::binary64::Binary64;
use vstd::prelude::*;

verus! {

/// Nanoseconds in a second.
pub const NANOS_PER_SEC: u128 = 1_000_000_000;

/// Nanoseconds in a millisecond.
pub const NANOS_PER_MILLI: u128 = 1_000_000;

/// The longest span: `2^64 - 1` seconds and all but one of the next second's nanoseconds.
pub const MAX_NANOS: u128 = 18_446_744_073_709_551_615_999_999_999;

/// A span of time in whole nanoseconds.
#[derive(Debug, Clone, Copy, PartialEq, Eq, PartialOrd, Ord, Hash, Structural)]
pub struct Duration {
    nanos: u128,
}

impl View for Duration {
    type V = nat;

    /// The span in nanoseconds.
    closed spec fn view(&self) -> nat {
        self.nanos as nat
    }
}

/// A span of so many nanoseconds as a binary64 number of seconds.
pub open spec fn seconds(nanos: nat) -> nat {
    binary64::sum(
        binary64::of_nat(nanos / 1_000_000_000),
        binary64::quotient(
            binary64::of_nat(nanos % 1_000_000_000),
            binary64::of_nat(1_000_000_000),
        ),
    )
}

impl Duration {
    #[verifier::type_invariant]
    spec fn in_range(self) -> bool {
        self.nanos <= MAX_NANOS
    }

    /// No time at all.
    pub fn zero() -> (r: Self)
        ensures
            r@ == 0,
    {
        Duration { nanos: 0 }
    }

    /// A span of so many nanoseconds.
    pub fn from_nanos(nanos: u128) -> (r: Self)
        requires
            nanos <= MAX_NANOS,
        ensures
            r@ == nanos,
    {
        Duration { nanos }
    }

    /// A span of so many milliseconds.
    pub fn from_millis(millis: u64) -> (r: Self)
        ensures
            r@ == millis * 1_000_000,
    {
        Duration { nanos: millis as u128 * NANOS_PER_MILLI }
    }

    /// A span of so many seconds.
    pub fn from_secs(secs: u64) -> (r: Self)
        ensures
            r@ == secs * 1_000_000_000,
    {
        Duration { nanos: secs as u128 * NANOS_PER_SEC }
    }

    /// A span of a binary64 number of seconds, in the nearest whole nanosecond.
    pub fn from_seconds(secs: Binary64) -> (r: Self)
        requires
            secs.wf(),
            secs.exponent() <= 1_110,
            binary64::nanoseconds(secs@) <= MAX_NANOS,
        ensures
            r@ == binary64::nanoseconds(secs@),
    {
        Duration { nanos: secs.to_nanoseconds() }
    }

    /// The span as a binary64 number of seconds.
    pub fn as_seconds(&self) -> (r: Binary64)
        ensures
            r.wf(),
            r@ == seconds(self@),
            r@ == 0 <==> self@ == 0,
            908 <= r.exponent() <= 1_093,
    {
        proof {
            use_type_invariant(self);
        }
        let secs: u64 = (self.nanos / NANOS_PER_SEC) as u64;
        let rest: u64 = (self.nanos % NANOS_PER_SEC) as u64;
        let whole = Binary64::from_u64(secs);
        let part = Binary64::from_u64(rest).divided_by(Binary64::from_u64(1_000_000_000));
        whole.plus(part)
    }

    /// The span in nanoseconds.
    pub fn as_nanos(&self) -> (r: u128)
        ensures
            r == self@,
            r <= MAX_NANOS,
    {
        proof {
            use_type_invariant(self);
        }
        self.nanos
    }

    /// The whole milliseconds of the span.
    pub fn as_millis(&self) -> (r: u128)
        ensures
            r == self@ / 1_000_000,
            r <= MAX_NANOS / NANOS_PER_MILLI,
    {
        proof {
            use_type_invariant(self);
        }
        self.nanos / NANOS_PER_MILLI
    }

    /// The span without another; none where the other is longer.
    pub fn saturating_sub(&self, other: &Duration) -> (r: Self)
        ensures
            r@ == if self@ < other@ {
                0
            } else {
                (self@ - other@) as nat
            },
    {
        proof {
            use_type_invariant(self);
        }
        if self.nanos < other.nanos {
            Duration { nanos: 0 }
        } else {
            Duration { nanos: self.nanos - other.nanos }
        }
    }

    /// Half of the span, without a nanosecond that does not divide.
    pub fn half(&self) -> (r: Self)
        ensures
            r@ == self@ / 2,
    {
        proof {
            use_type_invariant(self);
        }
        Duration { nanos: self.nanos / 2 }
    }
}

/// A moment on the system's monotonic clock: `std::time::Instant`, of which nothing but
/// the spans between moments can be seen.
#[verifier::external_type_specification]
#[verifier::external_body]
pub struct ExInstant(std::time::Instant);

/// `Instant::now` reads the clock; nothing is claimed of what it reads.
pub assume_specification[ std::time::Instant::now ]() -> (r: std::time::Instant);

/// `Instant::elapsed` gives the time since a moment, which depends on the clock; nothing
/// is claimed of it.
pub assume_specification[ std::time::Instant::elapsed ](
    instant: &std::time::Instant,
) -> (r: core::time::Duration);

/// `Duration::as_nanos` gives the length of a span in nanoseconds. A span of std's has at
/// most `2^64 - 1` seconds and less than one more second of nanoseconds, so that bounds
/// what comes back. Spans come from the clock alone here, so no more is said.
pub assume_specification[ core::time::Duration::as_nanos ](duration: &core::time::Duration) -> (r:
    u128)
    ensures
        r <= 18_446_744_073_709_551_615_999_999_999,
;

/// Whether a moment is one that `Instant::now` may give.
pub open spec fn is_now(moment: std::time::Instant) -> bool {
    call_ensures(std::time::Instant::now, (), moment)
}

/// Whether a span of std's is one that `Instant::elapsed` may give for a moment, and
/// `Duration::as_nanos` may give so many nanoseconds for that span.
pub open spec fn is_reading(
    moment: std::time::Instant,
    span: core::time::Duration,
    nanos: u128,
) -> bool {
    &&& call_ensures(std::time::Instant::elapsed, (&moment,), span)
    &&& call_ensures(core::time::Duration::as_nanos, (&span,), nanos)
}

/// Whether so many nanoseconds may be what the clock says has passed since a moment.
pub open spec fn may_have_passed(moment: std::time::Instant, nanos: nat) -> bool {
    exists|span: core::time::Duration, n: u128| #[trigger]
        is_reading(moment, span, n) && nanos == n
}

/// The time since a moment, as the system's clock has it.
pub(crate) fn elapsed_since(instant: &std::time::Instant) -> (r: Duration)
    ensures
        may_have_passed(*instant, r@),
{
    let span = instant.elapsed();
    let nanos: u128 = span.as_nanos();
    assert(is_reading(*instant, span, nanos));
    Duration::from_nanos(nanos)
}

/// A clock that counts from the moment at which it was made.
pub(crate) struct Clock {
    started: std::time::Instant,
}

impl Clock {
    /// The moment from which the clock counts.
    pub(crate) closed spec fn start(self) -> std::time::Instant {
        self.started
    }

    /// A clock that counts from now.
    pub(crate) fn new() -> (r: Self)
        ensures
            is_now(r.start()),
    {
        Clock { started: std::time::Instant::now() }
    }

    /// The time since the clock was made, as the system's clock has it.
    pub(crate) fn now(&self) -> (r: Duration)
        ensures
            may_have_passed(self.start(), r@),
    {
        elapsed_since(&self.started)
    }
}

} // verus!
