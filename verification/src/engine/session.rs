//! Inactivity tracking for an unlocked vault.
//!
//! A [`Session`] is held while a vault is unlocked. Every user interaction
//! records activity; a session that has been idle for its timeout is expired.
//! Time comes from a [`Clock`], so that it can be advanced by hand.

use vstd::prelude::*;

verus! {

/// A span of time, in nanoseconds.
#[derive(Debug, Clone, Copy, PartialEq, Eq, Structural)]
pub struct Duration {
    pub nanos: u64,
}

impl Duration {
    /// The span of this many seconds.
    pub fn from_secs(secs: u64) -> (r: Self)
        requires
            secs * 1_000_000_000 <= u64::MAX,
        ensures
            r.nanos == secs * 1_000_000_000,
    {
        Duration { nanos: secs * 1_000_000_000 }
    }

    /// The whole seconds of this span.
    pub fn as_secs(&self) -> (r: u64)
        ensures
            r == self.nanos / 1_000_000_000,
    {
        self.nanos / 1_000_000_000
    }
}

/// A point in time, in nanoseconds since some fixed point.
#[derive(Debug, Clone, Copy, PartialEq, Eq, Structural)]
pub struct Instant {
    pub nanos: u64,
}

impl Instant {
    /// The nanoseconds from `earlier` to this point; none if `earlier` comes
    /// later.
    pub open spec fn since(self, earlier: Instant) -> int {
        if self.nanos >= earlier.nanos {
            self.nanos - earlier.nanos
        } else {
            0
        }
    }

    /// The span from `earlier` to this point; zero if `earlier` comes later.
    pub fn duration_since(&self, earlier: Instant) -> (r: Duration)
        ensures
            r.nanos == self.since(earlier),
    {
        if self.nanos >= earlier.nanos {
            Duration { nanos: self.nanos - earlier.nanos }
        } else {
            Duration { nanos: 0 }
        }
    }
}

/// How long a session may be idle by default, in seconds.
pub const DEFAULT_TIMEOUT_SECS: u64 = 30;

/// Whatever can tell the time.
pub trait Clock {
    /// Whether the clock may show `t` now.
    spec fn shows(&self, t: Instant) -> bool;

    /// The current time.
    fn now(&self) -> (r: Instant)
        ensures
            self.shows(r),
    ;
}

/// `std::time::Instant`: a reading of the system's monotonic clock. Nothing is
/// known of its value.
#[verifier::external_type_specification]
#[verifier::external_body]
pub struct ExInstant(std::time::Instant);

/// `std::time::Instant::now`. Nothing is known of the result.
#[verifier::external_body]
fn monotonic_now() -> (r: std::time::Instant) {
    std::time::Instant::now()
}

/// `std::time::Instant::elapsed`, in nanoseconds; the largest number for spans
/// of more than 500 years. Nothing is known of the result.
#[verifier::external_body]
fn nanos_since(origin: &std::time::Instant) -> (r: u64) {
    u64::try_from(origin.elapsed().as_nanos()).unwrap_or(u64::MAX)
}

/// The system's monotonic clock, counting from its own creation. Nothing is
/// known of what it shows.
#[derive(Debug, Clone, Copy)]
pub struct SystemClock {
    origin: std::time::Instant,
}

impl SystemClock {
    /// A clock that starts counting now.
    pub fn new() -> (r: Self) {
        SystemClock { origin: monotonic_now() }
    }
}

impl Default for SystemClock {
    fn default() -> (r: Self) {
        Self::new()
    }
}

impl Clock for SystemClock {
    closed spec fn shows(&self, t: Instant) -> bool {
        true
    }

    fn now(&self) -> (r: Instant) {
        Instant { nanos: nanos_since(&self.origin) }
    }
}

/// A clock that only advances when told to.
#[derive(Debug, Clone)]
pub struct ManualClock {
    pub now: Instant,
}

impl ManualClock {
    /// A clock that starts at the fixed point.
    pub fn new() -> (r: Self)
        ensures
            r.now.nanos == 0,
    {
        ManualClock { now: Instant { nanos: 0 } }
    }

    /// Moves the clock on.
    pub fn advance(&mut self, d: Duration)
        requires
            old(self).now.nanos + d.nanos <= u64::MAX,
        ensures
            final(self).now.nanos == old(self).now.nanos + d.nanos,
    {
        self.now = Instant { nanos: self.now.nanos + d.nanos };
    }
}

impl Default for ManualClock {
    fn default() -> (r: Self)
        ensures
            r.now.nanos == 0,
    {
        Self::new()
    }
}

impl Clock for ManualClock {
    open spec fn shows(&self, t: Instant) -> bool {
        t == self.now
    }

    fn now(&self) -> (r: Instant) {
        self.now
    }
}

/// The last activity in an unlocked vault, and how long it may lie back.
pub struct Session<C: Clock> {
    pub clock: C,
    pub last_activity: Instant,
    pub timeout: Duration,
}

impl Session<SystemClock> {
    /// A session on the system's clock, with the default timeout.
    pub fn new() -> (r: Self)
        ensures
            r.timeout.nanos == DEFAULT_TIMEOUT_SECS * 1_000_000_000,
    {
        Session::with_clock(SystemClock::new())
    }
}

impl Default for Session<SystemClock> {
    fn default() -> (r: Self)
        ensures
            r.timeout.nanos == DEFAULT_TIMEOUT_SECS * 1_000_000_000,
    {
        Self::new()
    }
}

impl<C: Clock> Session<C> {
    /// Whether the session is expired at `now`: it was idle for its timeout or
    /// longer.
    pub open spec fn expired(self, now: Instant) -> bool {
        now.since(self.last_activity) >= self.timeout.nanos
    }

    /// A session on this clock, with the default timeout.
    pub fn with_clock(clock: C) -> (r: Self)
        ensures
            r.clock == clock,
            clock.shows(r.last_activity),
            r.timeout.nanos == DEFAULT_TIMEOUT_SECS * 1_000_000_000,
    {
        Self::with_clock_and_timeout(clock, Duration::from_secs(DEFAULT_TIMEOUT_SECS))
    }

    /// A session on this clock, with this timeout.
    pub fn with_clock_and_timeout(clock: C, timeout: Duration) -> (r: Self)
        ensures
            r.clock == clock,
            clock.shows(r.last_activity),
            r.timeout == timeout,
    {
        let now = clock.now();
        Session { clock, last_activity: now, timeout }
    }

    /// Starts the idle time over.
    pub fn record_activity(&mut self)
        ensures
            final(self).clock == old(self).clock,
            final(self).timeout == old(self).timeout,
            old(self).clock.shows(final(self).last_activity),
    {
        self.last_activity = self.clock.now();
    }

    /// Starts the idle time over at `now`.
    pub fn record_activity_at(&mut self, now: Instant)
        ensures
            *final(self) == (Session { last_activity: now, ..*old(self) }),
    {
        self.last_activity = now;
    }

    /// Whether the session is expired now.
    pub fn is_expired(&self) -> (r: bool)
        ensures
            exists|now: Instant| #[trigger] self.clock.shows(now) && r == self.expired(now),
    {
        let now = self.clock.now();
        self.is_expired_at(now)
    }

    /// Whether the session is expired at `now`.
    pub fn is_expired_at(&self, now: Instant) -> (r: bool)
        ensures
            r == self.expired(now),
    {
        now.duration_since(self.last_activity).nanos >= self.timeout.nanos
    }

    /// How long the session has been idle.
    pub fn idle_for(&self) -> (r: Duration)
        ensures
            exists|now: Instant| #[trigger]
                self.clock.shows(now) && r.nanos == now.since(self.last_activity),
    {
        let now = self.clock.now();
        now.duration_since(self.last_activity)
    }
}

/// A session whose last activity is less than its timeout ago is not expired,
/// and an expired session stays expired until there is activity.
pub proof fn law_expiry<C: Clock>(s: Session<C>, now: Instant, later: Instant)
    requires
        now.nanos <= later.nanos,
    ensures
        now.since(s.last_activity) < s.timeout.nanos ==> !s.expired(now),
        s.expired(now) ==> s.expired(later),
{
}

/// Activity starts the idle time over: the session expires one timeout after
/// it, and not before.
pub proof fn law_activity_resets<C: Clock>(s: Session<C>, active: Instant, now: Instant)
    requires
        active.nanos <= now.nanos,
    ensures
        ({
            let t = Session { last_activity: active, ..s };
            t.expired(now) <==> now.nanos - active.nanos >= s.timeout.nanos
        }),
{
}

/// A session on any clock expires by what that clock shows: it is not expired for
/// thirty seconds after its last activity by default, and is from then on.
pub proof fn law_default_timeout<C: Clock>(s: Session<C>, now: Instant)
    requires
        s.timeout.nanos == DEFAULT_TIMEOUT_SECS * 1_000_000_000,
        s.last_activity.nanos <= now.nanos,
    ensures
        s.expired(now) <==> now.nanos >= s.last_activity.nanos + 30_000_000_000,
{
}

} // verus!
