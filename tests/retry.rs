use indexer::retry::{delay_for, AttemptEvent, AttemptState, RetryPolicy, Supervisor, SupervisorAction};

const POLICY: RetryPolicy = RetryPolicy { base_delay_ms: 500, cap: 8 };

#[test]
fn delay_formula_values() {
    assert_eq!(delay_for(POLICY, 0), 500);
    assert_eq!(delay_for(POLICY, 1), 1000);
    assert_eq!(delay_for(POLICY, 3), 4000);
    assert_eq!(delay_for(POLICY, 8), 128_000);
    assert_eq!(delay_for(POLICY, 9), 128_000);
    assert_eq!(delay_for(POLICY, u64::MAX), 128_000);
    assert_eq!(delay_for(RetryPolicy { base_delay_ms: 1, cap: 63 }, 63), 1u64 << 63);
}

#[test]
fn backoff_grows_then_resets_after_success() {
    let mut s = Supervisor::new(POLICY);
    for n in 1..=12u64 {
        let expected = 500 * (1u64 << n.min(8));
        assert_eq!(s.step(AttemptEvent::TransientFailure), SupervisorAction::Wait { delay_ms: expected });
        assert_eq!(s.failures(), n);
        assert_eq!(s.state(), AttemptState::BackoffWait);
        assert_eq!(s.step(AttemptEvent::BackoffElapsed), SupervisorAction::AcquireConnection);
        assert_eq!(s.step(AttemptEvent::ConnectionAcquired), SupervisorAction::Attempt);
    }
    assert_eq!(s.step(AttemptEvent::Committed), SupervisorAction::Proceed);
    assert_eq!(s.failures(), 0);
    assert_eq!(s.state(), AttemptState::Succeeded);
}

#[test]
fn pool_failure_is_fatal() {
    let mut s = Supervisor::new(POLICY);
    s.step(AttemptEvent::TransientFailure);
    s.step(AttemptEvent::BackoffElapsed);
    assert_eq!(s.step(AttemptEvent::PoolUnavailable), SupervisorAction::Abort);
    assert_eq!(s.state(), AttemptState::Failed);
    assert_eq!(s.step(AttemptEvent::ConnectionAcquired), SupervisorAction::Rejected);
}

#[test]
fn events_out_of_place_are_rejected() {
    let mut s = Supervisor::new(POLICY);
    assert_eq!(s.step(AttemptEvent::BackoffElapsed), SupervisorAction::Rejected);
    assert_eq!(s.step(AttemptEvent::ConnectionAcquired), SupervisorAction::Rejected);
    assert_eq!(s.step(AttemptEvent::PoolUnavailable), SupervisorAction::Rejected);
    assert_eq!(s.state(), AttemptState::Attempting);
    s.step(AttemptEvent::TransientFailure);
    assert_eq!(s.step(AttemptEvent::Committed), SupervisorAction::Rejected);
    assert_eq!(s.failures(), 1);
}

#[test]
fn checked_policy_accepts_only_fitting_delays() {
    assert_eq!(RetryPolicy::checked(500, 8), Some(POLICY));
    assert_eq!(RetryPolicy::checked(1, 63), Some(RetryPolicy { base_delay_ms: 1, cap: 63 }));
    assert_eq!(RetryPolicy::checked(1, 64), None);
    assert_eq!(RetryPolicy::checked(2, 63), None);
    assert_eq!(RetryPolicy::checked(u64::MAX, 0), Some(RetryPolicy { base_delay_ms: u64::MAX, cap: 0 }));
    assert_eq!(RetryPolicy::standard(), POLICY);
}
