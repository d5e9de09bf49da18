//! Circuit breaker: stops calling a failing service for a while.
use vstd::prelude::*;
use std::time::Instant;
use crate::clock::{instant_now, elapsed_nanos, at_least_secs, secs_in_nanos};

verus! {

/// The state of a circuit breaker.
#[derive(Debug, PartialEq)]
pub enum CircuitState {
    /// Calls go through.
    Closed,
    /// Calls are rejected; the circuit opened at `opened_at`.
    Open { opened_at: Instant },
    /// One probe call is let through.
    HalfOpen,
}

/// Circuit breaker: opens after `failure_threshold` consecutive failures,
/// lets a probe through once `probe_timeout_secs` have passed, and closes
/// again on success.
pub struct CircuitBreaker {
    state: CircuitState,
    consecutive_failures: u32,
    failure_threshold: u32,
    probe_timeout_secs: u64,
    /// The time since the circuit opened, in nanoseconds, as the clock gave
    /// it at the last `is_open` on an open circuit.
    elapsed_seen: Ghost<u128>,
}

impl CircuitBreaker {
    /// The current state.
    pub closed spec fn state(&self) -> CircuitState {
        self.state
    }

    /// Consecutive failures counted so far.
    pub closed spec fn failures(&self) -> u32 {
        self.consecutive_failures
    }

    /// The number of consecutive failures that opens the circuit.
    pub closed spec fn threshold(&self) -> u32 {
        self.failure_threshold
    }

    /// Seconds an open circuit waits before letting a probe through.
    pub closed spec fn probe_timeout(&self) -> u64 {
        self.probe_timeout_secs
    }

    /// The time since the circuit opened, in nanoseconds, that the last
    /// `is_open` on an open circuit read from the clock.
    pub closed spec fn last_elapsed(&self) -> u128 {
        self.elapsed_seen@
    }

    /// A closed breaker with no failures.
    pub fn new(failure_threshold: u32, probe_timeout_secs: u64) -> (cb: CircuitBreaker)
        ensures
            cb.state() == CircuitState::Closed,
            cb.failures() == 0,
            cb.threshold() == failure_threshold,
            cb.probe_timeout() == probe_timeout_secs,
    {
        CircuitBreaker {
            state: CircuitState::Closed,
            consecutive_failures: 0,
            failure_threshold,
            probe_timeout_secs,
            elapsed_seen: Ghost(0),
        }
    }

    /// Whether calls are to be rejected now, given whether the probe timeout
    /// has passed since the circuit opened. An open circuit whose timeout
    /// has passed turns half-open and lets the probe through.
    pub fn is_open_after(&mut self, timed_out: bool) -> (r: bool)
        ensures
            final(self).last_elapsed() == old(self).last_elapsed(),
            final(self).failures() == old(self).failures(),
            final(self).threshold() == old(self).threshold(),
            final(self).probe_timeout() == old(self).probe_timeout(),
            match old(self).state() {
                CircuitState::Open { .. } => if timed_out {
                    !r && final(self).state() == CircuitState::HalfOpen
                } else {
                    r && final(self).state() == old(self).state()
                },
                _ => !r && final(self).state() == old(self).state(),
            },
    {
        match self.state {
            CircuitState::Open { .. } => {
                if timed_out {
                    self.state = CircuitState::HalfOpen;
                    false
                } else {
                    true
                }
            },
            _ => false,
        }
    }

    /// Whether calls are to be rejected now. For an open circuit the time
    /// since it opened is read from the clock (and kept as `last_elapsed`):
    /// once it is at least the probe timeout, the circuit turns half-open
    /// and the probe goes through; before that, calls are rejected.
    pub fn is_open(&mut self) -> (r: bool)
        ensures
            final(self).failures() == old(self).failures(),
            final(self).threshold() == old(self).threshold(),
            final(self).probe_timeout() == old(self).probe_timeout(),
            match old(self).state() {
                CircuitState::Open { .. } => (!r && final(self).state() == CircuitState::HalfOpen)
                    || (r && final(self).state() == old(self).state()),
                _ => !r && final(self).state() == old(self).state(),
            },
            old(self).state() is Open ==> (r <==> final(self).last_elapsed() < secs_in_nanos(old(self).probe_timeout())),
    {
        let timed_out = match &self.state {
            CircuitState::Open { opened_at } => {
                let nanos = elapsed_nanos(opened_at);
                self.elapsed_seen = Ghost(nanos);
                at_least_secs(nanos, self.probe_timeout_secs)
            },
            _ => false,
        };
        self.is_open_after(timed_out)
    }

    /// Records a successful call: no failures, circuit closed.
    pub fn call_succeeded(&mut self)
        ensures
            final(self).failures() == 0,
            final(self).state() == CircuitState::Closed,
            final(self).threshold() == old(self).threshold(),
            final(self).probe_timeout() == old(self).probe_timeout(),
    {
        self.consecutive_failures = 0;
        self.state = CircuitState::Closed;
    }

    /// Records a failed call at instant `now`: a failed probe reopens the
    /// circuit and restarts the count; a closed circuit opens once the
    /// consecutive failures reach the threshold.
    pub fn call_failed_at(&mut self, now: Instant)
        ensures
            final(self).threshold() == old(self).threshold(),
            final(self).probe_timeout() == old(self).probe_timeout(),
            ({
                let failures = old(self).failures().wrapping_add(1);
                match old(self).state() {
                    CircuitState::HalfOpen => final(self).state() == (CircuitState::Open { opened_at: now })
                        && final(self).failures() == 0,
                    CircuitState::Closed => final(self).failures() == failures && final(self).state() == if failures
                        >= old(self).threshold() {
                        CircuitState::Open { opened_at: now }
                    } else {
                        CircuitState::Closed
                    },
                    CircuitState::Open { .. } => final(self).failures() == failures && final(self).state()
                        == old(self).state(),
                }
            }),
    {
        let failures = self.consecutive_failures.wrapping_add(1);
        self.consecutive_failures = failures;
        match self.state {
            CircuitState::HalfOpen => {
                self.state = CircuitState::Open { opened_at: now };
                self.consecutive_failures = 0;
            },
            CircuitState::Closed => {
                if failures >= self.failure_threshold {
                    self.state = CircuitState::Open { opened_at: now };
                }
            },
            CircuitState::Open { .. } => {},
        }
    }

    /// Records a failed call now (reads the clock).
    pub fn call_failed(&mut self)
        ensures
            final(self).threshold() == old(self).threshold(),
            final(self).probe_timeout() == old(self).probe_timeout(),
            ({
                let failures = old(self).failures().wrapping_add(1);
                match old(self).state() {
                    CircuitState::HalfOpen => final(self).state() is Open && final(self).failures() == 0,
                    CircuitState::Closed => final(self).failures() == failures && (if failures >= old(self).threshold() {
                        final(self).state() is Open
                    } else {
                        final(self).state() == CircuitState::Closed
                    }),
                    CircuitState::Open { .. } => final(self).failures() == failures && final(self).state()
                        == old(self).state(),
                }
            }),
    {
        let now = instant_now();
        self.call_failed_at(now);
    }

    /// The current state.
    pub fn get_state(&self) -> (s: CircuitState)
        ensures
            s == self.state(),
    {
        match &self.state {
            CircuitState::Closed => CircuitState::Closed,
            CircuitState::Open { opened_at } => CircuitState::Open { opened_at: *opened_at },
            CircuitState::HalfOpen => CircuitState::HalfOpen,
        }
    }
}

} // verus!
