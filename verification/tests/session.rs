use ruvault::engine::session::{Duration, ManualClock, Session};

#[test]
fn fresh_session_is_not_expired() {
    let session = Session::with_clock(ManualClock::new());
    assert!(!session.is_expired());
}

#[test]
fn expires_after_timeout_with_no_activity() {
    let mut session = TestableSession::new(Duration::from_secs(30));
    assert!(!session.is_expired());
    session.advance(Duration::from_secs(29));
    assert!(!session.is_expired());
    session.advance(Duration::from_secs(1));
    assert!(session.is_expired());
}

#[test]
fn activity_resets_the_timer() {
    let mut session = TestableSession::new(Duration::from_secs(30));
    session.advance(Duration::from_secs(25));
    assert!(!session.is_expired());
    session.record_activity();
    session.advance(Duration::from_secs(25));
    assert!(!session.is_expired(), "activity should have reset the 30s window");
    session.advance(Duration::from_secs(6));
    assert!(session.is_expired());
}

/// Small helper that owns a `ManualClock` alongside the `Session` so
/// tests can both advance time and query expiry without borrow
/// conflicts.
struct TestableSession {
    session: Session<ManualClock>,
}

impl TestableSession {
    fn new(timeout: Duration) -> Self {
        let clock = ManualClock::new();
        TestableSession { session: Session::with_clock_and_timeout(clock, timeout) }
    }

    fn advance(&mut self, d: Duration) {
        self.session.clock.advance(d);
    }

    fn is_expired(&self) -> bool {
        self.session.is_expired()
    }

    fn record_activity(&mut self) {
        self.session.record_activity();
    }
}
