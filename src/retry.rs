use vstd::arithmetic::mul::lemma_mul_inequality;
use vstd::arithmetic::power2::{lemma2_to64, lemma_pow2_strictly_increases, pow2};
use vstd::bits::{lemma_u64_pow2_no_overflow, lemma_u64_shl_is_mul};
use vstd::prelude::*;

verus! {

/// The bounded exponential backoff: the `n`-th consecutive failure waits
/// `base_delay_ms * 2^min(n, cap)` milliseconds.
#[derive(Clone, Copy, Debug, PartialEq, Eq, Structural)]
pub struct RetryPolicy {
    pub base_delay_ms: u64,
    pub cap: u32,
}

impl RetryPolicy {
    /// The largest delay fits in a `u64`.
    pub open spec fn wf(self) -> bool {
        self.cap < 64 && self.base_delay_ms * pow2(self.cap as nat) <= u64::MAX
    }

    /// The policy with the given base delay and cap, if its largest delay
    /// fits in a `u64`.
    pub fn checked(base_delay_ms: u64, cap: u32) -> (r: Option<RetryPolicy>)
        ensures
            r is Some <==> (RetryPolicy { base_delay_ms, cap }).wf(),
            r matches Some(p) ==> p == (RetryPolicy { base_delay_ms, cap }),
    {
        if cap >= 64 {
            return None;
        }
        proof {
            lemma_u64_pow2_no_overflow(cap as nat);
            lemma_u64_shl_is_mul(1, cap as u64);
        }
        let factor: u64 = 1u64 << cap as u64;
        match base_delay_ms.checked_mul(factor) {
            Some(_) => Some(RetryPolicy { base_delay_ms, cap }),
            None => None,
        }
    }

    /// Half a second, doubling up to eight times.
    pub fn standard() -> (r: RetryPolicy)
        ensures
            r.wf(),
            r == (RetryPolicy { base_delay_ms: 500, cap: 8 }),
    {
        proof {
            lemma2_to64();
        }
        RetryPolicy { base_delay_ms: 500, cap: 8 }
    }
}

pub open spec fn min_u64(a: u64, b: u64) -> u64 {
    if a <= b {
        a
    } else {
        b
    }
}

/// The delay after `n` consecutive failures.
pub open spec fn backoff_delay(p: RetryPolicy, n: u64) -> int {
    p.base_delay_ms * pow2(min_u64(n, p.cap as u64) as nat)
}

/// The delay, in milliseconds, after `failures` consecutive failures.
pub fn delay_for(policy: RetryPolicy, failures: u64) -> (r: u64)
    requires
        policy.wf(),
    ensures
        r == backoff_delay(policy, failures),
{
    let e: u64 = if failures <= policy.cap as u64 {
        failures
    } else {
        policy.cap as u64
    };
    proof {
        if e < policy.cap {
            lemma_pow2_strictly_increases(e as nat, policy.cap as nat);
        }
        lemma_mul_inequality(
            pow2(e as nat) as int,
            pow2(policy.cap as nat) as int,
            policy.base_delay_ms as int,
        );
        vstd::arithmetic::mul::lemma_mul_is_commutative(
            policy.base_delay_ms as int,
            pow2(e as nat) as int,
        );
        vstd::arithmetic::mul::lemma_mul_is_commutative(
            policy.base_delay_ms as int,
            pow2(policy.cap as nat) as int,
        );
        lemma_u64_shl_is_mul(policy.base_delay_ms, e);
    }
    policy.base_delay_ms << e
}

/// Where the write of one event stands.
#[derive(Clone, Copy, Debug, PartialEq, Eq, Structural)]
pub enum AttemptState {
    /// The write is being attempted.
    Attempting,
    /// The last attempt failed; waiting before reconnecting.
    BackoffWait,
    /// Waiting for a fresh connection from the pool.
    Reconnect,
    /// The write was committed.
    Succeeded,
    /// No connection could be had: the pipeline must stop.
    Failed,
}

/// What the outside world reports to the supervisor.
#[derive(Clone, Copy, Debug, PartialEq, Eq, Structural)]
pub enum AttemptEvent {
    /// The write transaction committed (or found its event already stored).
    Committed,
    /// The write failed at the statement level; the connection is discarded.
    TransientFailure,
    /// The backoff delay has passed.
    BackoffElapsed,
    /// The pool handed out a fresh connection.
    ConnectionAcquired,
    /// The pool could not hand out a connection.
    PoolUnavailable,
}

/// What the supervisor asks of the outside world.
#[derive(Clone, Copy, Debug, PartialEq, Eq, Structural)]
pub enum SupervisorAction {
    /// The write is done: go on with the next event.
    Proceed,
    /// Sleep this many milliseconds, then report `BackoffElapsed`.
    Wait { delay_ms: u64 },
    /// Take a fresh connection from the pool.
    AcquireConnection,
    /// Attempt the write again.
    Attempt,
    /// Stop: storage is unreachable.
    Abort,
    /// The event does not fit the current state; nothing changed.
    Rejected,
}

/// The retry state machine for writing one event at a time.
#[derive(Clone, Copy, Debug)]
pub struct Supervisor {
    policy: RetryPolicy,
    failures: u64,
    state: AttemptState,
}

/// Mathematical form of a [`Supervisor`].
pub struct SupervisorView {
    pub policy: RetryPolicy,
    pub failures: u64,
    pub state: AttemptState,
}

impl View for Supervisor {
    type V = SupervisorView;

    closed spec fn view(&self) -> SupervisorView {
        SupervisorView { policy: self.policy, failures: self.failures, state: self.state }
    }
}

/// The failure counter after one more failure; it stops at its largest value.
pub open spec fn count_failure(n: u64) -> u64 {
    if n == u64::MAX {
        n
    } else {
        (n + 1) as u64
    }
}

/// One transition of the retry state machine.
pub open spec fn supervisor_step(s: SupervisorView, ev: AttemptEvent) -> (
    SupervisorView,
    SupervisorAction,
) {
    match (s.state, ev) {
        (AttemptState::Attempting, AttemptEvent::Committed) => (
            SupervisorView { failures: 0, state: AttemptState::Succeeded, ..s },
            SupervisorAction::Proceed,
        ),
        (AttemptState::Attempting, AttemptEvent::TransientFailure) => {
            let n = count_failure(s.failures);
            (
                SupervisorView { failures: n, state: AttemptState::BackoffWait, ..s },
                SupervisorAction::Wait { delay_ms: backoff_delay(s.policy, n) as u64 },
            )
        },
        (AttemptState::BackoffWait, AttemptEvent::BackoffElapsed) => (
            SupervisorView { state: AttemptState::Reconnect, ..s },
            SupervisorAction::AcquireConnection,
        ),
        (AttemptState::Reconnect, AttemptEvent::ConnectionAcquired) => (
            SupervisorView { state: AttemptState::Attempting, ..s },
            SupervisorAction::Attempt,
        ),
        (AttemptState::Reconnect, AttemptEvent::PoolUnavailable) => (
            SupervisorView { state: AttemptState::Failed, ..s },
            SupervisorAction::Abort,
        ),
        _ => (s, SupervisorAction::Rejected),
    }
}

impl Supervisor {
    /// A supervisor about to attempt a write, with no failures counted.
    pub fn new(policy: RetryPolicy) -> (r: Supervisor)
        requires
            policy.wf(),
        ensures
            r@ == (SupervisorView { policy, failures: 0, state: AttemptState::Attempting }),
    {
        Supervisor { policy, failures: 0, state: AttemptState::Attempting }
    }

    /// The number of consecutive failures of the current write.
    pub fn failures(&self) -> (r: u64)
        ensures
            r == self@.failures,
    {
        self.failures
    }

    /// The current state.
    pub fn state(&self) -> (r: AttemptState)
        ensures
            r == self@.state,
    {
        self.state
    }

    /// The backoff policy.
    pub fn policy(&self) -> (r: RetryPolicy)
        ensures
            r == self@.policy,
    {
        self.policy
    }

    /// Takes one transition (see [`supervisor_step`]).
    pub fn step(&mut self, ev: AttemptEvent) -> (r: SupervisorAction)
        requires
            old(self)@.policy.wf(),
        ensures
            (final(self)@, r) == supervisor_step(old(self)@, ev),
    {
        match (self.state, ev) {
            (AttemptState::Attempting, AttemptEvent::Committed) => {
                self.failures = 0;
                self.state = AttemptState::Succeeded;
                SupervisorAction::Proceed
            },
            (AttemptState::Attempting, AttemptEvent::TransientFailure) => {
                self.failures = self.failures.saturating_add(1);
                self.state = AttemptState::BackoffWait;
                SupervisorAction::Wait { delay_ms: delay_for(self.policy, self.failures) }
            },
            (AttemptState::BackoffWait, AttemptEvent::BackoffElapsed) => {
                self.state = AttemptState::Reconnect;
                SupervisorAction::AcquireConnection
            },
            (AttemptState::Reconnect, AttemptEvent::ConnectionAcquired) => {
                self.state = AttemptState::Attempting;
                SupervisorAction::Attempt
            },
            (AttemptState::Reconnect, AttemptEvent::PoolUnavailable) => {
                self.state = AttemptState::Failed;
                SupervisorAction::Abort
            },
            _ => SupervisorAction::Rejected,
        }
    }
}

/// The supervisor after `n` rounds of failure, backoff and reconnection.
pub open spec fn after_failures(s: SupervisorView, n: nat) -> SupervisorView
    decreases n,
{
    if n == 0 {
        s
    } else {
        let a = supervisor_step(after_failures(s, (n - 1) as nat), AttemptEvent::TransientFailure).0;
        let b = supervisor_step(a, AttemptEvent::BackoffElapsed).0;
        supervisor_step(b, AttemptEvent::ConnectionAcquired).0
    }
}

/// Starting from no failures, the `k`-th consecutive transient failure waits
/// `base * 2^min(k, cap)`; after `n` failures the counter is `n`, and one
/// commit sets it back to zero.
pub proof fn lemma_backoff_growth(s: SupervisorView, n: nat)
    requires
        s.policy.wf(),
        s.failures == 0,
        s.state == AttemptState::Attempting,
        n < u64::MAX,
    ensures
        forall|k: nat|
            1 <= k <= n ==> supervisor_step(
                #[trigger] after_failures(s, (k - 1) as nat),
                AttemptEvent::TransientFailure,
            ).1 == (SupervisorAction::Wait { delay_ms: backoff_delay(s.policy, k as u64) as u64 }),
        after_failures(s, n).failures == n,
        after_failures(s, n).policy == s.policy,
        after_failures(s, n).state == AttemptState::Attempting,
        supervisor_step(after_failures(s, n), AttemptEvent::Committed).0.failures == 0,
        supervisor_step(after_failures(s, n), AttemptEvent::Committed).1
            == SupervisorAction::Proceed,
    decreases n,
{
    if n > 0 {
        lemma_backoff_growth(s, (n - 1) as nat);
        assert(supervisor_step(after_failures(s, (n - 1) as nat), AttemptEvent::TransientFailure).1
            == (SupervisorAction::Wait { delay_ms: backoff_delay(s.policy, n as u64) as u64 }));
    }
}

} // verus!
