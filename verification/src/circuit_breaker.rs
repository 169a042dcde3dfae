//! Circuit breaker for protecting external service calls.
//!
//! A closed circuit lets requests through and opens after too many failures. An
//! open one rejects them until a timeout has passed, and then lets a few probe
//! requests through: the first success closes the circuit, the first failure
//! opens it again.
//!
//! All mutable state but the start of the failure window is one 64-bit word, so
//! that each step can be one compare-and-swap where the breaker is shared. The
//! step functions say what the new word is; `CircuitBreaker` applies them to a
//! word of its own.

use vstd::prelude::*;
use crate::time::{system_seconds, Duration};

verus! {

/// How failures are counted before opening the circuit.
#[derive(Debug, Clone, Copy, PartialEq, Eq, Structural)]
pub enum FailurePolicy {
    /// N consecutive failures opens the circuit. Any success resets the count.
    Consecutive {
        /// Number of consecutive failures before opening.
        threshold: u32,
    },
    /// N failures within the window opens the circuit.
    /// Failures older than the window are forgotten.
    Windowed {
        /// Number of failures within the window before opening.
        threshold: u32,
        /// Time window for counting failures.
        window: Duration,
    },
}

impl Default for FailurePolicy {
    fn default() -> (policy: Self)
        ensures
            policy == (FailurePolicy::Consecutive { threshold: 5 }),
    {
        FailurePolicy::Consecutive { threshold: 5 }
    }
}

/// Circuit breaker configuration.
#[derive(Debug, Clone, Copy)]
pub struct CircuitBreakerConfig {
    /// How failures are counted.
    pub failure_policy: FailurePolicy,
    /// Time to wait in open state before transitioning to half-open.
    pub reset_timeout: Duration,
    /// Number of probe requests allowed in half-open state.
    pub half_open_permits: u32,
}

/// The configuration with everything left at its default.
pub open spec fn default_config() -> CircuitBreakerConfig {
    CircuitBreakerConfig {
        failure_policy: FailurePolicy::Consecutive { threshold: 5 },
        reset_timeout: Duration { secs: 30, nanos: 0 },
        half_open_permits: 3,
    }
}

impl Default for CircuitBreakerConfig {
    fn default() -> (config: Self)
        ensures
            config == default_config(),
    {
        CircuitBreakerConfig {
            failure_policy: FailurePolicy::Consecutive { threshold: 5 },
            reset_timeout: Duration::from_secs(30),
            half_open_permits: 3,
        }
    }
}

impl CircuitBreakerConfig {
    /// Create a config with consecutive failure detection.
    pub fn consecutive(threshold: u32) -> (config: Self)
        ensures
            config == (CircuitBreakerConfig {
                failure_policy: FailurePolicy::Consecutive { threshold },
                ..default_config()
            }),
    {
        CircuitBreakerConfig {
            failure_policy: FailurePolicy::Consecutive { threshold },
            ..CircuitBreakerConfig::default()
        }
    }

    /// Create a config with windowed failure detection.
    pub fn windowed(threshold: u32, window: Duration) -> (config: Self)
        ensures
            config == (CircuitBreakerConfig {
                failure_policy: FailurePolicy::Windowed { threshold, window },
                ..default_config()
            }),
    {
        CircuitBreakerConfig {
            failure_policy: FailurePolicy::Windowed { threshold, window },
            ..CircuitBreakerConfig::default()
        }
    }

    /// Set the reset timeout (time in open state before half-open).
    pub fn reset_timeout(self, timeout: Duration) -> (config: Self)
        ensures
            config == (CircuitBreakerConfig { reset_timeout: timeout, ..self }),
    {
        CircuitBreakerConfig { reset_timeout: timeout, ..self }
    }

    /// Set the number of half-open permits.
    pub fn half_open_permits(self, permits: u32) -> (config: Self)
        ensures
            config == (CircuitBreakerConfig { half_open_permits: permits, ..self }),
    {
        CircuitBreakerConfig { half_open_permits: permits, ..self }
    }

    /// The failure threshold of a policy.
    pub open spec fn spec_threshold(&self) -> u32 {
        match self.failure_policy {
            FailurePolicy::Consecutive { threshold } => threshold,
            FailurePolicy::Windowed { threshold, .. } => threshold,
        }
    }

    /// Get the failure threshold from the policy.
    pub fn threshold(&self) -> (threshold: u32)
        ensures
            threshold == self.spec_threshold(),
    {
        match self.failure_policy {
            FailurePolicy::Consecutive { threshold } => threshold,
            FailurePolicy::Windowed { threshold, .. } => threshold,
        }
    }
}

/// Error returned when the circuit is open.
#[derive(Debug, Clone, Copy, PartialEq, Eq, Structural)]
pub struct CircuitOpen;

impl CircuitOpen {
    /// The text of the error.
    pub fn message(&self) -> (text: &'static str)
        ensures
            text@ == "circuit breaker is open"@,
    {
        "circuit breaker is open"
    }
}

/// Observable circuit state.
#[derive(Debug, Clone, Copy, PartialEq, Eq, Structural)]
pub enum CircuitState {
    /// Circuit is closed, requests flow through normally.
    Closed {
        /// Number of failures since last success/reset.
        failure_count: u32,
    },
    /// Circuit is open, requests are rejected immediately.
    Open,
    /// Circuit is half-open, limited probe requests allowed.
    HalfOpen {
        /// Number of probe requests still allowed.
        permits_remaining: u32,
    },
}

/// State of a closed circuit.
pub const STATE_CLOSED: u64 = 0;

/// State of an open circuit.
pub const STATE_OPEN: u64 = 1;

/// State of a half-open circuit.
pub const STATE_HALF_OPEN: u64 = 2;

/// Two bits of state.
pub const STATE_MASK: u64 = 3;

/// 14 bits of failures.
pub const FAILURE_MASK: u64 = 0x3FFF;

/// 16 bits of permits.
pub const PERMIT_MASK: u64 = 0xFFFF;

/// 32 bits of timestamp.
pub const TIMESTAMP_MASK: u64 = 0xFFFF_FFFF;

/// What the state word holds.
pub struct Circuit {
    /// Closed, open or half-open; one more value fits but stands for nothing.
    pub state: int,
    /// Failures since the last success.
    pub failures: int,
    /// Probe requests that are still allowed.
    pub permits: int,
    /// Seconds at the last change.
    pub timestamp: int,
}

/// The fields of a state word, from the highest bits down: 2 bits of state, 14 of
/// failures, 16 of permits, 32 of timestamp.
pub open spec fn fields(word: u64) -> Circuit {
    Circuit {
        state: word as int / 0x4000_0000_0000_0000,
        failures: word as int / 0x1_0000_0000_0000 % 0x4000,
        permits: word as int / 0x1_0000_0000 % 0x1_0000,
        timestamp: word as int % 0x1_0000_0000,
    }
}

/// The fields with each value cut to the bits that it has.
pub open spec fn cut(state: u64, failures: u64, permits: u64, timestamp: u64) -> Circuit {
    Circuit {
        state: state as int % 4,
        failures: failures as int % 0x4000,
        permits: permits as int % 0x1_0000,
        timestamp: timestamp as int % 0x1_0000_0000,
    }
}

/// As many failures as the word has room for.
pub open spec fn kept_failures(failures: u32) -> u32 {
    if failures <= 0x3FFF {
        failures
    } else {
        0x3FFF
    }
}

/// As many permits as the word has room for.
pub open spec fn kept_permits(permits: u32) -> u32 {
    if permits <= 0xFFFF {
        permits
    } else {
        0xFFFF
    }
}

/// The number of failures that opens the circuit: the threshold, or one more than
/// the word has room for if that is less.
pub open spec fn opening_count(threshold: u32) -> u32 {
    if threshold <= 0x4000 {
        threshold
    } else {
        0x4000
    }
}

/// A closed circuit with `failures` failures.
pub open spec fn closed_circuit(failures: int, now: u64) -> Circuit {
    cut(STATE_CLOSED, failures as u64, 0, now)
}

/// An open circuit.
pub open spec fn open_circuit(now: u64) -> Circuit {
    cut(STATE_OPEN, 0, 0, now)
}

/// `now - then`, wrapping around below zero.
pub open spec fn elapsed(now: u64, then: int) -> int {
    if now >= then {
        now - then
    } else {
        now - then + 0x1_0000_0000_0000_0000
    }
}

/// The circuit after a request asked to be let through, and whether it was.
pub open spec fn asked(config: CircuitBreakerConfig, c: Circuit, now: u64) -> (Circuit, bool) {
    if c.state == STATE_CLOSED {
        (c, true)
    } else if c.state == STATE_OPEN {
        if elapsed(now, c.timestamp) >= config.reset_timeout.secs {
            probed(cut(STATE_HALF_OPEN, 0, kept_permits(config.half_open_permits) as u64, now))
        } else {
            (c, false)
        }
    } else if c.state == STATE_HALF_OPEN {
        probed(c)
    } else {
        (closed_circuit(0, now), true)
    }
}

/// A half-open circuit after a request asked to be let through, and whether it
/// was.
pub open spec fn probed(c: Circuit) -> (Circuit, bool) {
    if c.permits == 0 {
        (c, false)
    } else {
        (Circuit { permits: c.permits - 1, ..c }, true)
    }
}

/// The circuit after a success.
pub open spec fn succeeded(c: Circuit, now: u64) -> Circuit {
    if c.state == STATE_CLOSED || c.state == STATE_HALF_OPEN {
        closed_circuit(0, now)
    } else {
        c
    }
}

/// The circuit after a failure. `fresh` says that it is the first one that counts.
pub open spec fn failed(c: Circuit, threshold: u32, fresh: bool, now: u64) -> Circuit {
    let failures = if fresh {
        1
    } else {
        c.failures + 1
    };
    if c.state == STATE_CLOSED {
        if failures >= opening_count(threshold) {
            open_circuit(now)
        } else {
            closed_circuit(failures, now)
        }
    } else if c.state == STATE_HALF_OPEN {
        open_circuit(now)
    } else {
        c
    }
}

/// Whether a failure at `now` starts a new window. A start of zero means that
/// there is no window.
pub open spec fn starts_window(window_start: u64, window_secs: u64, now: u64) -> bool {
    window_start == 0 || elapsed(now, window_start as int) >= window_secs
}

/// What an observer sees.
pub open spec fn observed(c: Circuit) -> CircuitState {
    if c.state == STATE_CLOSED {
        CircuitState::Closed { failure_count: c.failures as u32 }
    } else if c.state == STATE_OPEN {
        CircuitState::Open
    } else if c.state == STATE_HALF_OPEN {
        CircuitState::HalfOpen { permits_remaining: c.permits as u32 }
    } else {
        CircuitState::Closed { failure_count: 0 }
    }
}

/// One step of `allow` on the state word.
#[derive(Debug, Clone, Copy, PartialEq, Eq, Structural)]
pub enum AllowStep {
    /// Let the request through.
    Allow,
    /// Reject the request.
    Reject,
    /// Replace the word, then ask again.
    Retry(u64),
    /// Replace the word; if that succeeds, let the request through.
    Take(u64),
    /// Try to replace the word, and let the request through in any case.
    Reset(u64),
}

/// What one step of `allow` comes to.
pub open spec fn allow_step_spec(
    config: CircuitBreakerConfig,
    word: u64,
    now: u64,
    step: AllowStep,
) -> bool {
    let c = fields(word);
    if c.state == STATE_CLOSED {
        step is Allow
    } else if c.state == STATE_OPEN {
        if elapsed(now, c.timestamp) >= config.reset_timeout.secs {
            step matches AllowStep::Retry(next) && fields(next) == cut(
                STATE_HALF_OPEN,
                0,
                kept_permits(config.half_open_permits) as u64,
                now,
            )
        } else {
            step is Reject
        }
    } else if c.state == STATE_HALF_OPEN {
        if c.permits == 0 {
            step is Reject
        } else {
            step matches AllowStep::Take(next) && fields(next) == (Circuit {
                permits: c.permits - 1,
                ..c
            })
        }
    } else {
        step matches AllowStep::Reset(next) && fields(next) == closed_circuit(0, now)
    }
}

/// The lower 32 bits of the seconds since the Unix epoch; zero before it.
pub open spec fn clock_seconds(since_epoch: Option<u64>) -> u64 {
    match since_epoch {
        Some(secs) => (secs % 0x1_0000_0000) as u64,
        None => 0,
    }
}

/// Circuit breaker.
#[derive(Debug)]
pub struct CircuitBreaker {
    /// Packed state word.
    pub word: u64,
    /// Seconds at the first failure of the current window; 0 if there is none.
    pub window_start: u64,
    /// Configuration (immutable after construction).
    pub config: CircuitBreakerConfig,
}

impl CircuitBreaker {
    /// The fields of the state word.
    pub open spec fn circuit(&self) -> Circuit {
        fields(self.word)
    }

    /// Pack state components into a single u64. Each is cut to the bits it has.
    pub fn pack(state: u64, failures: u64, permits: u64, timestamp: u64) -> (word: u64)
        ensures
            fields(word) == cut(state, failures, permits, timestamp),
    {
        let word: u64 = ((state & STATE_MASK) << 62) | ((failures & FAILURE_MASK) << 48) | ((permits
            & PERMIT_MASK) << 32) | (timestamp & TIMESTAMP_MASK);
        proof {
            lemma_pack(word, state, failures, permits, timestamp);
        }
        word
    }

    /// Unpack a u64 into state, failures, permits and timestamp.
    pub fn unpack(word: u64) -> (parts: (u64, u64, u64, u64))
        ensures
            fields(word) == (Circuit {
                state: parts.0 as int,
                failures: parts.1 as int,
                permits: parts.2 as int,
                timestamp: parts.3 as int,
            }),
            parts.0 < 4,
            parts.1 < 0x4000,
            parts.2 < 0x1_0000,
            parts.3 < 0x1_0000_0000,
    {
        let state: u64 = (word >> 62) & STATE_MASK;
        let failures: u64 = (word >> 48) & FAILURE_MASK;
        let permits: u64 = (word >> 32) & PERMIT_MASK;
        let timestamp: u64 = word & TIMESTAMP_MASK;
        proof {
            lemma_unpack(word);
        }
        (state, failures, permits, timestamp)
    }

    fn permits_to_keep(permits: u32) -> (kept: u32)
        ensures
            kept == kept_permits(permits),
    {
        if permits <= 0xFFFF {
            permits
        } else {
            0xFFFF
        }
    }

    fn failures_to_keep(failures: u32) -> (kept: u32)
        ensures
            kept == kept_failures(failures),
    {
        if failures <= 0x3FFF {
            failures
        } else {
            0x3FFF
        }
    }

    /// One step of `allow`, for a breaker whose word is shared.
    pub fn allow_step(config: &CircuitBreakerConfig, word: u64, now: u64) -> (step: AllowStep)
        ensures
            allow_step_spec(*config, word, now, step),
    {
        let (state, failures, permits, timestamp) = CircuitBreaker::unpack(word);
        if state == STATE_CLOSED {
            AllowStep::Allow
        } else if state == STATE_OPEN {
            if now.wrapping_sub(timestamp) >= config.reset_timeout.as_secs() {
                AllowStep::Retry(
                    CircuitBreaker::pack(
                        STATE_HALF_OPEN,
                        0,
                        CircuitBreaker::permits_to_keep(config.half_open_permits) as u64,
                        now,
                    ),
                )
            } else {
                AllowStep::Reject
            }
        } else if state == STATE_HALF_OPEN {
            if permits == 0 {
                AllowStep::Reject
            } else {
                AllowStep::Take(
                    CircuitBreaker::pack(STATE_HALF_OPEN, failures, permits - 1, timestamp),
                )
            }
        } else {
            AllowStep::Reset(CircuitBreaker::pack(STATE_CLOSED, 0, 0, now))
        }
    }

    /// The word after a success, if it changes.
    pub fn success_step(word: u64, now: u64) -> (next: Option<u64>)
        ensures
            match next {
                Some(next) => fields(next) == succeeded(fields(word), now) && (fields(word).state
                    == STATE_CLOSED || fields(word).state == STATE_HALF_OPEN),
                None => fields(word).state != STATE_CLOSED && fields(word).state
                    != STATE_HALF_OPEN,
            },
    {
        let (state, _, _, _) = CircuitBreaker::unpack(word);
        if state == STATE_CLOSED || state == STATE_HALF_OPEN {
            Some(CircuitBreaker::pack(STATE_CLOSED, 0, 0, now))
        } else {
            None
        }
    }

    /// The word after a failure, if it changes. `fresh` says that it is the first
    /// failure that counts.
    pub fn failure_step(word: u64, threshold: u32, fresh: bool, now: u64) -> (next: Option<u64>)
        ensures
            match next {
                Some(next) => fields(next) == failed(fields(word), threshold, fresh, now) && (
                fields(word).state == STATE_CLOSED || fields(word).state == STATE_HALF_OPEN),
                None => fields(word).state != STATE_CLOSED && fields(word).state
                    != STATE_HALF_OPEN,
            },
    {
        let (state, failures, _, _) = CircuitBreaker::unpack(word);
        if state == STATE_CLOSED {
            let new_failures: u64 = if fresh {
                1
            } else {
                failures + 1
            };
            let opening: u32 = if threshold <= 0x4000 {
                threshold
            } else {
                0x4000
            };
            if new_failures >= opening as u64 {
                Some(CircuitBreaker::pack(STATE_OPEN, 0, 0, now))
            } else {
                Some(CircuitBreaker::pack(STATE_CLOSED, new_failures, 0, now))
            }
        } else if state == STATE_HALF_OPEN {
            Some(CircuitBreaker::pack(STATE_OPEN, 0, 0, now))
        } else {
            None
        }
    }

    /// Whether a failure at `now` starts a new window.
    pub fn window_step(window_start: u64, window_secs: u64, now: u64) -> (fresh: bool)
        ensures
            fresh == starts_window(window_start, window_secs, now),
    {
        window_start == 0 || now.wrapping_sub(window_start) >= window_secs
    }

    /// Create a new circuit breaker with the given configuration.
    pub fn new(config: CircuitBreakerConfig) -> (cb: Self)
        ensures
            cb.config == config,
            cb.window_start == 0,
            exists|now: u64| cb.circuit() == #[trigger] closed_circuit(0, now),
    {
        CircuitBreaker::with_clock(config, CircuitBreaker::system_clock())
    }

    /// Create a circuit breaker at the given time in seconds.
    pub fn with_clock(config: CircuitBreakerConfig, now: u64) -> (cb: Self)
        ensures
            cb.config == config,
            cb.window_start == 0,
            cb.circuit() == closed_circuit(0, now),
    {
        CircuitBreaker {
            word: CircuitBreaker::pack(STATE_CLOSED, 0, 0, now),
            window_start: 0,
            config,
        }
    }

    /// What the system clock shows now.
    fn system_clock() -> (now: u64)
        ensures
            now <= TIMESTAMP_MASK,
            exists|since_epoch: Option<u64>| now == #[trigger] clock_seconds(since_epoch),
    {
        CircuitBreaker::clock_reading(system_seconds())
    }

    /// Seconds since the Unix epoch, cut to 32 bits. A clock that stands before the
    /// epoch counts as zero.
    pub fn clock_reading(since_epoch: Option<u64>) -> (now: u64)
        ensures
            now == clock_seconds(since_epoch),
            now <= TIMESTAMP_MASK,
    {
        match since_epoch {
            Some(secs) => {
                assert(secs & 0xFFFF_FFFF == secs % 0x1_0000_0000) by (bit_vector);
                secs & TIMESTAMP_MASK
            },
            None => 0,
        }
    }

    /// Check if a request at `now` should be allowed through the circuit. In the
    /// half-open state this takes one of the permits.
    pub fn allow_at(&mut self, now: u64) -> (result: Result<(), CircuitOpen>)
        ensures
            final(self).config == old(self).config,
            final(self).window_start == old(self).window_start,
            final(self).circuit() == asked(old(self).config, old(self).circuit(), now).0,
            result == (if asked(old(self).config, old(self).circuit(), now).1 {
                Ok::<(), CircuitOpen>(())
            } else {
                Err::<(), CircuitOpen>(CircuitOpen)
            }),
    {
        let mut step = CircuitBreaker::allow_step(&self.config, self.word, now);
        if let AllowStep::Retry(next) = step {
            self.word = next;
            step = CircuitBreaker::allow_step(&self.config, self.word, now);
        }
        match step {
            AllowStep::Allow => Ok(()),
            AllowStep::Reject => Err(CircuitOpen),
            AllowStep::Retry(next) => {
                self.word = next;
                Ok(())
            },
            AllowStep::Take(next) => {
                self.word = next;
                Ok(())
            },
            AllowStep::Reset(next) => {
                self.word = next;
                Ok(())
            },
        }
    }

    /// Check if a request should be allowed through the circuit now.
    pub fn allow(&mut self) -> (result: Result<(), CircuitOpen>)
        ensures
            final(self).config == old(self).config,
            final(self).window_start == old(self).window_start,
            exists|now: u64|
                now <= TIMESTAMP_MASK && (#[trigger] asked(
                    old(self).config,
                    old(self).circuit(),
                    now,
                )).0 == final(self).circuit() && asked(
                    old(self).config,
                    old(self).circuit(),
                    now,
                ).1 == (result is Ok),
    {
        let now: u64 = CircuitBreaker::system_clock();
        self.allow_at(now)
    }

    /// Record a successful request at `now`.
    ///
    /// In closed state, resets the failure counter (and window for windowed mode).
    /// In half-open state, closes the circuit (service is healthy again).
    pub fn record_success_at(&mut self, now: u64)
        ensures
            final(self).config == old(self).config,
            final(self).window_start == 0,
            final(self).circuit() == succeeded(old(self).circuit(), now),
    {
        self.window_start = 0;
        if let Some(next) = CircuitBreaker::success_step(self.word, now) {
            self.word = next;
        }
    }

    /// Record a successful request.
    pub fn record_success(&mut self)
        ensures
            final(self).config == old(self).config,
            final(self).window_start == 0,
            exists|now: u64|
                now <= TIMESTAMP_MASK && final(self).circuit() == #[trigger] succeeded(
                    old(self).circuit(),
                    now,
                ),
    {
        let now: u64 = CircuitBreaker::system_clock();
        self.record_success_at(now)
    }

    /// Record a failed request at `now`.
    ///
    /// In closed state, increments the failure counter and opens the circuit if
    /// the threshold is reached. In half-open state, reopens the circuit
    /// immediately.
    pub fn record_failure_at(&mut self, now: u64)
        ensures
            final(self).config == old(self).config,
            failure_recorded(*old(self), now, *final(self)),
    {
        match self.config.failure_policy {
            FailurePolicy::Consecutive { threshold } => {
                self.record_failure_consecutive(threshold, now);
            },
            FailurePolicy::Windowed { threshold, window } => {
                self.record_failure_windowed(threshold, window.as_secs(), now);
            },
        }
    }

    /// Record a failed request.
    pub fn record_failure(&mut self)
        ensures
            final(self).config == old(self).config,
            exists|now: u64|
                now <= TIMESTAMP_MASK && #[trigger] failure_recorded(
                    *old(self),
                    now,
                    *final(self),
                ),
    {
        let now: u64 = CircuitBreaker::system_clock();
        self.record_failure_at(now)
    }

    fn record_failure_consecutive(&mut self, threshold: u32, now: u64)
        ensures
            final(self).config == old(self).config,
            final(self).window_start == old(self).window_start,
            final(self).circuit() == failed(old(self).circuit(), threshold, false, now),
    {
        if let Some(next) = CircuitBreaker::failure_step(self.word, threshold, false, now) {
            self.word = next;
        }
    }

    fn record_failure_windowed(&mut self, threshold: u32, window_secs: u64, now: u64)
        ensures
            final(self).config == old(self).config,
            windowed_failure(*old(self), threshold, window_secs, now, *final(self)),
    {
        let fresh: bool = CircuitBreaker::window_step(self.window_start, window_secs, now);
        if fresh {
            self.window_start = now;
        }
        if let Some(next) = CircuitBreaker::failure_step(self.word, threshold, fresh, now) {
            let (state, _, _, _) = CircuitBreaker::unpack(next);
            if state == STATE_OPEN {
                self.window_start = 0;
            }
            self.word = next;
        }
    }

    /// Get the current circuit state for observability.
    pub fn state(&self) -> (state: CircuitState)
        ensures
            state == observed(self.circuit()),
    {
        let (state, failures, permits, _) = CircuitBreaker::unpack(self.word);
        if state == STATE_CLOSED {
            CircuitState::Closed { failure_count: failures as u32 }
        } else if state == STATE_OPEN {
            CircuitState::Open
        } else if state == STATE_HALF_OPEN {
            CircuitState::HalfOpen { permits_remaining: permits as u32 }
        } else {
            CircuitState::Closed { failure_count: 0 }
        }
    }

    /// Reset the circuit breaker to closed state at `now`.
    pub fn reset_at(&mut self, now: u64)
        ensures
            final(self).config == old(self).config,
            final(self).window_start == 0,
            final(self).circuit() == closed_circuit(0, now),
    {
        self.window_start = 0;
        self.word = CircuitBreaker::pack(STATE_CLOSED, 0, 0, now);
    }

    /// Reset the circuit breaker to closed state.
    pub fn reset(&mut self)
        ensures
            final(self).config == old(self).config,
            final(self).window_start == 0,
            exists|now: u64|
                now <= TIMESTAMP_MASK && final(self).circuit() == #[trigger] closed_circuit(0, now),
    {
        let now: u64 = CircuitBreaker::system_clock();
        self.reset_at(now)
    }

    /// Force the circuit to a specific state at `now` (for testing/admin).
    pub fn force_state_at(&mut self, new_state: CircuitState, now: u64)
        ensures
            final(self).config == old(self).config,
            final(self).window_start == old(self).window_start,
            final(self).circuit() == forced(new_state, now),
    {
        self.word =
        match new_state {
            CircuitState::Closed { failure_count } => CircuitBreaker::pack(
                STATE_CLOSED,
                CircuitBreaker::failures_to_keep(failure_count) as u64,
                0,
                now,
            ),
            CircuitState::Open => CircuitBreaker::pack(STATE_OPEN, 0, 0, now),
            CircuitState::HalfOpen { permits_remaining } => CircuitBreaker::pack(
                STATE_HALF_OPEN,
                0,
                CircuitBreaker::permits_to_keep(permits_remaining) as u64,
                now,
            ),
        };
    }

    /// Force the circuit to a specific state (for testing/admin).
    pub fn force_state(&mut self, new_state: CircuitState)
        ensures
            final(self).config == old(self).config,
            final(self).window_start == old(self).window_start,
            exists|now: u64|
                now <= TIMESTAMP_MASK && final(self).circuit() == #[trigger] forced(new_state, now),
    {
        let now: u64 = CircuitBreaker::system_clock();
        self.force_state_at(new_state, now)
    }
}

/// A circuit forced into a state.
pub open spec fn forced(state: CircuitState, now: u64) -> Circuit {
    match state {
        CircuitState::Closed { failure_count } => cut(
            STATE_CLOSED,
            kept_failures(failure_count) as u64,
            0,
            now,
        ),
        CircuitState::Open => open_circuit(now),
        CircuitState::HalfOpen { permits_remaining } => cut(
            STATE_HALF_OPEN,
            0,
            kept_permits(permits_remaining) as u64,
            now,
        ),
    }
}

/// A breaker before and after a failure that is counted in a window. The window
/// ends when the circuit opens.
pub open spec fn windowed_failure(
    before: CircuitBreaker,
    threshold: u32,
    window_secs: u64,
    now: u64,
    after: CircuitBreaker,
) -> bool {
    let fresh = starts_window(before.window_start, window_secs, now);
    let c = before.circuit();
    let d = failed(c, threshold, fresh, now);
    &&& after.circuit() == d
    &&& after.window_start == if (c.state == STATE_CLOSED || c.state == STATE_HALF_OPEN) && d.state
        == STATE_OPEN {
        0
    } else if fresh {
        now
    } else {
        before.window_start
    }
}

/// A breaker before and after a failure.
pub open spec fn failure_recorded(before: CircuitBreaker, now: u64, after: CircuitBreaker) -> bool {
    match before.config.failure_policy {
        FailurePolicy::Consecutive { threshold } => {
            &&& after.window_start == before.window_start
            &&& after.circuit() == failed(before.circuit(), threshold, false, now)
        },
        FailurePolicy::Windowed { threshold, window } => windowed_failure(
            before,
            threshold,
            window.secs,
            now,
            after,
        ),
    }
}

proof fn lemma_unpack(word: u64)
    ensures
        (word >> 62) & 3 == word / 0x4000_0000_0000_0000,
        (word >> 48) & 0x3FFF == word / 0x1_0000_0000_0000 % 0x4000,
        (word >> 32) & 0xFFFF == word / 0x1_0000_0000 % 0x1_0000,
        word & 0xFFFF_FFFF == word % 0x1_0000_0000,
{
    assert((word >> 62) & 3 == word / 0x4000_0000_0000_0000) by (bit_vector);
    assert((word >> 48) & 0x3FFF == word / 0x1_0000_0000_0000 % 0x4000) by (bit_vector);
    assert((word >> 32) & 0xFFFF == word / 0x1_0000_0000 % 0x1_0000) by (bit_vector);
    assert(word & 0xFFFF_FFFF == word % 0x1_0000_0000) by (bit_vector);
}

proof fn lemma_pack(word: u64, state: u64, failures: u64, permits: u64, timestamp: u64)
    requires
        word == ((state & 3) << 62) | ((failures & 0x3FFF) << 48) | ((permits & 0xFFFF) << 32) | (
        timestamp & 0xFFFF_FFFF),
    ensures
        fields(word) == cut(state, failures, permits, timestamp),
{
    lemma_unpack(word);
    assert((word >> 62) & 3 == state % 4 && (word >> 48) & 0x3FFF == failures % 0x4000 && (word
        >> 32) & 0xFFFF == permits % 0x1_0000 && word & 0xFFFF_FFFF == timestamp % 0x1_0000_0000)
        by (bit_vector)
        requires
            word == ((state & 3) << 62) | ((failures & 0x3FFF) << 48) | ((permits & 0xFFFF) << 32)
                | (timestamp & 0xFFFF_FFFF),
    ;
}

/// The circuit after failures at the given times, counted consecutively.
pub open spec fn after_failures(c: Circuit, threshold: u32, times: Seq<u64>) -> Circuit
    decreases times.len(),
{
    if times.len() == 0 {
        c
    } else {
        failed(after_failures(c, threshold, times.drop_last()), threshold, false, times.last())
    }
}

/// A circuit that was closed without failures counts failures in a row, opens
/// with the one that reaches the threshold, and stays open. A threshold above
/// 16384, which the count cannot reach, is taken as 16384: as many failures as the
/// threshold says always open the circuit.
pub proof fn law_opens_at_threshold(threshold: u32, start: u64, times: Seq<u64>)
    requires
        1 <= threshold,
    ensures
        ({
            let c = after_failures(closed_circuit(0, start), threshold, times);
            &&& times.len() >= threshold ==> c.state == STATE_OPEN
            &&& if times.len() < opening_count(threshold) {
                c.state == STATE_CLOSED && c.failures == times.len()
            } else {
                c.state == STATE_OPEN
            }
        }),
    decreases times.len(),
{
    if times.len() > 0 {
        law_opens_at_threshold(threshold, start, times.drop_last());
    }
}

/// A success forgets all failures before it: from any closed circuit, the next
/// success leads to a circuit that counts from zero.
pub proof fn law_success_resets_failures(c: Circuit, now: u64)
    requires
        c.state == STATE_CLOSED || c.state == STATE_HALF_OPEN,
    ensures
        succeeded(c, now) == closed_circuit(0, now),
        observed(succeeded(c, now)) == (CircuitState::Closed { failure_count: 0 }),
{
}

/// The circuit after requests at the given times, and how many were let through.
pub open spec fn after_requests(
    config: CircuitBreakerConfig,
    c: Circuit,
    times: Seq<u64>,
) -> (Circuit, nat)
    decreases times.len(),
{
    if times.len() == 0 {
        (c, 0)
    } else {
        let (before, n) = after_requests(config, c, times.drop_last());
        let (after, through) = asked(config, before, times.last());
        (
            after,
            n + if through {
                1nat
            } else {
                0nat
            },
        )
    }
}

/// A half-open circuit lets exactly as many requests through as it has permits,
/// whenever they come, and then rejects until a success or a failure is recorded.
pub proof fn law_half_open_respects_permits(
    config: CircuitBreakerConfig,
    c: Circuit,
    times: Seq<u64>,
)
    requires
        c.state == STATE_HALF_OPEN,
        c.permits >= 0,
    ensures
        ({
            let (after, through) = after_requests(config, c, times);
            &&& after.state == STATE_HALF_OPEN
            &&& through == if times.len() < c.permits {
                times.len() as int
            } else {
                c.permits
            }
            &&& after.permits == c.permits - through
        }),
    decreases times.len(),
{
    if times.len() > 0 {
        law_half_open_respects_permits(config, c, times.drop_last());
    }
}

/// An open circuit rejects every request until the reset timeout has passed since
/// it opened, and does not change. The first request after that makes it
/// half-open.
pub proof fn law_open_rejects_until_timeout(config: CircuitBreakerConfig, c: Circuit, now: u64)
    requires
        c.state == STATE_OPEN,
    ensures
        elapsed(now, c.timestamp) < config.reset_timeout.secs ==> asked(config, c, now) == (
            c,
            false,
        ),
        elapsed(now, c.timestamp) >= config.reset_timeout.secs ==> asked(config, c, now).0.state
            == STATE_HALF_OPEN,
        elapsed(now, c.timestamp) >= config.reset_timeout.secs && 0 < config.half_open_permits
            ==> asked(config, c, now).1 && asked(config, c, now).0.permits == kept_permits(
            config.half_open_permits,
        ) - 1,
{
}

/// In the half-open state the first verdict counts: a success closes the circuit,
/// a failure opens it.
pub proof fn law_half_open_verdict(c: Circuit, threshold: u32, fresh: bool, now: u64)
    requires
        c.state == STATE_HALF_OPEN,
    ensures
        succeeded(c, now).state == STATE_CLOSED,
        failed(c, threshold, fresh, now).state == STATE_OPEN,
{
}

/// A failure that comes when the window has passed counts as the first: what came
/// before is forgotten.
pub proof fn law_window_forgets(before: CircuitBreaker, threshold: u32, window_secs: u64, now: u64, after: CircuitBreaker)
    requires
        before.circuit().state == STATE_CLOSED,
        threshold > 1,
        starts_window(before.window_start, window_secs, now),
        windowed_failure(before, threshold, window_secs, now, after),
    ensures
        observed(after.circuit()) == (CircuitState::Closed { failure_count: 1 }),
        after.window_start == now,
{
}

/// Packing and unpacking a state word gives its parts back, where they fit.
pub proof fn law_pack_unpack_roundtrip(
    word: u64,
    state: u64,
    failures: u64,
    permits: u64,
    timestamp: u64,
)
    requires
        state <= STATE_MASK,
        failures <= FAILURE_MASK,
        permits <= PERMIT_MASK,
        timestamp <= TIMESTAMP_MASK,
        fields(word) == cut(state, failures, permits, timestamp),
    ensures
        fields(word) == (Circuit {
            state: state as int,
            failures: failures as int,
            permits: permits as int,
            timestamp: timestamp as int,
        }),
{
}

/// Below the threshold the circuit stays closed and shows how many failures there were in
/// a row; with as many as the threshold says it is open.
pub proof fn law_failures_in_a_row(threshold: u32, start: u64, times: Seq<u64>)
    requires
        1 <= threshold,
    ensures
        ({
            let seen = observed(after_failures(closed_circuit(0, start), threshold, times));
            &&& times.len() < threshold && times.len() <= 0x3FFF ==> seen == (CircuitState::Closed {
                failure_count: times.len() as u32,
            })
            &&& times.len() >= threshold ==> seen == CircuitState::Open
        }),
{
    law_opens_at_threshold(threshold, start, times);
}

/// A closed circuit lets every request through, and that changes nothing.
pub proof fn law_closed_lets_through(config: CircuitBreakerConfig, word: u64, now: u64)
    requires
        observed(fields(word)) is Closed,
        word < 0xC000_0000_0000_0000,
    ensures
        asked(config, fields(word), now) == (fields(word), true),
{
}

/// What is recorded while a circuit is open changes nothing: the answer to a request that
/// was let through earlier neither closes the circuit nor makes it stay open longer.
pub proof fn law_open_ignores_verdicts(before: CircuitBreaker, now: u64, after: CircuitBreaker)
    requires
        observed(before.circuit()) == CircuitState::Open,
        failure_recorded(before, now, after),
    ensures
        after.circuit() == before.circuit(),
        succeeded(before.circuit(), now) == before.circuit(),
{
}

/// A circuit that a failure has opened at `opened` rejects every request before the reset
/// timeout has passed, and lets the first one through after it.
pub proof fn law_opened_circuit_waits(before: CircuitBreaker, opened: u64, after: CircuitBreaker, now: u64)
    requires
        !(observed(before.circuit()) is Open),
        failure_recorded(before, opened, after),
        observed(after.circuit()) == CircuitState::Open,
        opened <= now,
        opened <= 0xFFFF_FFFF,
    ensures
        now - opened < before.config.reset_timeout.secs ==> asked(
            before.config,
            after.circuit(),
            now,
        ) == (after.circuit(), false),
        now - opened >= before.config.reset_timeout.secs && before.config.half_open_permits > 0
            ==> asked(before.config, after.circuit(), now).1,
        now - opened >= before.config.reset_timeout.secs ==> observed(
            asked(before.config, after.circuit(), now).0,
        ) is HalfOpen,
{
    assert(opened as int % 0x1_0000_0000 == opened);
}

/// From the time that an open circuit may be probed, as many requests get through as the
/// configuration has permits, and no more, until one of them is answered.
pub proof fn law_probes_are_limited(config: CircuitBreakerConfig, word: u64, times: Seq<u64>)
    requires
        observed(fields(word)) == CircuitState::Open,
        times.len() > 0,
        times[0] >= fields(word).timestamp,
        times[0] - fields(word).timestamp >= config.reset_timeout.secs,
    ensures
        times.len() <= config.half_open_permits && times.len() <= 0xFFFF ==> after_requests(
            config,
            fields(word),
            times,
        ).1 == times.len(),
        times.len() > config.half_open_permits && config.half_open_permits <= 0xFFFF
            ==> after_requests(config, fields(word), times).1 == config.half_open_permits,
        times.len() > 0xFFFF && config.half_open_permits > 0xFFFF ==> after_requests(
            config,
            fields(word),
            times,
        ).1 == 0xFFFF,
{
    let c = fields(word);
    lemma_probes(config, c, times);
}

proof fn lemma_probes(config: CircuitBreakerConfig, c: Circuit, times: Seq<u64>)
    requires
        c.state == STATE_OPEN,
        times.len() > 0,
        times[0] >= c.timestamp,
        times[0] - c.timestamp >= config.reset_timeout.secs,
    ensures
        ({
            let (after, through) = after_requests(config, c, times);
            &&& after.state == STATE_HALF_OPEN
            &&& through == if times.len() < kept_permits(config.half_open_permits) {
                times.len()
            } else {
                kept_permits(config.half_open_permits) as nat
            }
            &&& after.permits == kept_permits(config.half_open_permits) - through
        }),
    decreases times.len(),
{
    let before = times.drop_last();
    if times.len() == 1 {
        assert(before =~= Seq::empty());
        assert(after_requests(config, c, before) == (c, 0nat));
        assert(times.last() == times[0]);
    } else {
        assert(before[0] == times[0]);
        lemma_probes(config, c, before);
    }
}

/// A circuit that is forced into a state shows that state. A number that the word has no
/// room for shows as the largest that it has room for.
pub proof fn law_forced_state_is_seen(state: CircuitState, now: u64)
    ensures
        match state {
            CircuitState::Open => observed(forced(state, now)) == CircuitState::Open,
            CircuitState::Closed { failure_count } => observed(forced(state, now)) matches
                CircuitState::Closed { failure_count: seen } && (failure_count <= 0x3FFF ==> seen
                == failure_count) && (failure_count > 0x3FFF ==> seen == 0x3FFF),
            CircuitState::HalfOpen { permits_remaining } => observed(forced(state, now)) matches
                CircuitState::HalfOpen { permits_remaining: seen } && (permits_remaining <= 0xFFFF
                ==> seen == permits_remaining) && (permits_remaining > 0xFFFF ==> seen == 0xFFFF),
        },
{
}

/// A fresh circuit is closed without failures.
pub proof fn law_fresh_circuit_is_closed(now: u64)
    ensures
        observed(closed_circuit(0, now)) == (CircuitState::Closed { failure_count: 0 }),
{
}

/// The steps on a shared word come to what a request on a word of its own comes to: it is
/// let through or rejected alike, and leaves the same circuit behind.
pub proof fn law_steps_come_to_a_request(
    config: CircuitBreakerConfig,
    word: u64,
    now: u64,
    step: AllowStep,
)
    requires
        allow_step_spec(config, word, now, step),
    ensures
        match step {
            AllowStep::Allow => asked(config, fields(word), now) == (fields(word), true),
            AllowStep::Reject => asked(config, fields(word), now) == (fields(word), false),
            AllowStep::Take(next) => asked(config, fields(word), now) == (fields(next), true),
            AllowStep::Reset(next) => asked(config, fields(word), now) == (fields(next), true),
            AllowStep::Retry(next) => asked(config, fields(word), now) == asked(
                config,
                fields(next),
                now,
            ) && observed(fields(next)) is HalfOpen,
        },
{
}

/// Whether `states` are a breaker before and after each of several failures.
pub open spec fn failing(states: Seq<CircuitBreaker>, times: Seq<u64>) -> bool {
    &&& states.len() == times.len() + 1
    &&& forall|i: int|
        0 <= i < times.len() ==> #[trigger] failure_recorded(states[i], times[i], states[i + 1])
            && states[i + 1].config == states[i].config
}

/// In a closed circuit the count is that of the failures since the window began, all of
/// which lie in the window.
proof fn lemma_window(states: Seq<CircuitBreaker>, times: Seq<u64>, threshold: u32, window: Duration, n: int) -> (start: int)
    requires
        failing(states, times),
        0 < n <= times.len(),
        states[0].config.failure_policy == (FailurePolicy::Windowed { threshold, window }),
        observed(states[0].circuit()) == (CircuitState::Closed { failure_count: 0 }),
        states[0].word < 0xC000_0000_0000_0000,
        states[0].window_start == 0,
        times[0] > 0,
        forall|i: int, j: int| 0 <= i < j < times.len() ==> times[i] <= times[j],
        forall|i: int| 0 <= i <= n ==> observed((#[trigger] states[i]).circuit()) is Closed,
    ensures
        0 <= start < n,
        states[n].circuit().state == STATE_CLOSED,
        states[n].circuit().failures == n - start,
        states[n].window_start == times[start],
        n - 1 > start ==> times[n - 1] - times[start] < window.secs,
        states[n].config == states[0].config,
        times[n - 1] - times[0] < window.secs ==> start == 0,
    decreases n,
{
    assert(failure_recorded(states[n - 1], times[n - 1], states[n - 1 + 1]));
    assert(observed(states[n].circuit()) is Closed);
    if n == 1 {
        0
    } else {
        let start = lemma_window(states, times, threshold, window, n - 1);
        assert(times[start] <= times[n - 1]);
        assert(times[0] <= times[n - 2] <= times[n - 1]);
        assert(times[0] <= times[start]);
        if times[n - 1] - times[start] >= window.secs {
            n - 1
        } else {
            start
        }
    }
}

/// Failures older than the window are forgotten: where a circuit opens because of failures
/// that are counted in a window, as many of them as the threshold says lie within the
/// window before it opened.
pub proof fn law_only_recent_failures_open(
    states: Seq<CircuitBreaker>,
    times: Seq<u64>,
    threshold: u32,
    window: Duration,
)
    requires
        failing(states, times),
        times.len() > 0,
        states[0].config.failure_policy == (FailurePolicy::Windowed { threshold, window }),
        observed(states[0].circuit()) == (CircuitState::Closed { failure_count: 0 }),
        states[0].word < 0xC000_0000_0000_0000,
        states[0].window_start == 0,
        times[0] > 0,
        forall|i: int, j: int| 0 <= i < j < times.len() ==> times[i] <= times[j],
        forall|i: int|
            0 <= i < times.len() ==> observed((#[trigger] states[i]).circuit()) is Closed,
        observed(states[times.len() as int].circuit()) == CircuitState::Open,
        2 <= threshold <= 0x4000,
    ensures
        times.len() >= threshold,
        times.last() - times[times.len() - threshold] < window.secs,
{
    let n = times.len() as int;
    assert(failure_recorded(states[n - 1], times[n - 1], states[n - 1 + 1]));
    if n > 1 {
        let start = lemma_window(states, times, threshold, window, n - 1);
        assert(times[start] <= times[n - 1]);
        assert(n - start >= threshold);
        if start < n - threshold {
            assert(times[start] <= times[n - threshold]);
        }
    }
}

/// As many failures within a window as the threshold says open the circuit, where the
/// first of them comes to a circuit without failures; fewer do not.
pub proof fn law_failures_in_window_open(
    states: Seq<CircuitBreaker>,
    times: Seq<u64>,
    threshold: u32,
    window: Duration,
)
    requires
        failing(states, times),
        0 < times.len() <= threshold,
        threshold <= 0x4000,
        states[0].config.failure_policy == (FailurePolicy::Windowed { threshold, window }),
        observed(states[0].circuit()) == (CircuitState::Closed { failure_count: 0 }),
        states[0].word < 0xC000_0000_0000_0000,
        states[0].window_start == 0,
        times[0] > 0,
        forall|i: int, j: int| 0 <= i < j < times.len() ==> times[i] <= times[j],
        times.last() - times[0] < window.secs,
    ensures
        observed(states.last().circuit()) == if times.len() == threshold {
            CircuitState::Open
        } else {
            CircuitState::Closed { failure_count: times.len() as u32 }
        },
    decreases times.len(),
{
    let n = times.len() as int;
    assert(failure_recorded(states[n - 1], times[n - 1], states[n - 1 + 1]));
    if n > 1 {
        let before = times.drop_last();
        let s = states.drop_last();
        assert forall|i: int| 0 <= i < before.len() implies #[trigger] failure_recorded(
            s[i],
            before[i],
            s[i + 1],
        ) && s[i + 1].config == s[i].config by {
            assert(failure_recorded(states[i], times[i], states[i + 1]));
        }
        assert(before[0] == times[0] && before.last() == times[n - 2]);
        assert(times[n - 2] <= times[n - 1]);
        law_failures_in_window_open(s, before, threshold, window);
        assert(s.last() == states[n - 1]);
        lemma_all_closed(states, times, threshold, window, n - 1);
        let start = lemma_window(states, times, threshold, window, n - 1);
    }
}

proof fn lemma_all_closed(
    states: Seq<CircuitBreaker>,
    times: Seq<u64>,
    threshold: u32,
    window: Duration,
    n: int,
)
    requires
        failing(states, times),
        0 <= n < times.len() <= threshold,
        threshold <= 0x4000,
        states[0].config.failure_policy == (FailurePolicy::Windowed { threshold, window }),
        observed(states[0].circuit()) == (CircuitState::Closed { failure_count: 0 }),
        states[0].word < 0xC000_0000_0000_0000,
        states[0].window_start == 0,
        times[0] > 0,
        forall|i: int, j: int| 0 <= i < j < times.len() ==> times[i] <= times[j],
    ensures
        forall|i: int| 0 <= i <= n ==> observed((#[trigger] states[i]).circuit()) is Closed,
        states[n].circuit().state == STATE_CLOSED,
        states[n].circuit().failures <= n,
        states[n].config == states[0].config,
    decreases n,
{
    if n > 0 {
        lemma_all_closed(states, times, threshold, window, n - 1);
        assert(failure_recorded(states[n - 1], times[n - 1], states[n - 1 + 1]));
    }
}

/// Inside a window a failure that leaves the circuit closed moves nothing but the count.
pub proof fn law_window_stays(before: CircuitBreaker, now: u64, after: CircuitBreaker, threshold: u32, window: Duration)
    requires
        before.config.failure_policy == (FailurePolicy::Windowed { threshold, window }),
        failure_recorded(before, now, after),
        0 < before.window_start <= now,
        now - before.window_start < window.secs,
        observed(after.circuit()) is Closed,
        before.word < 0xC000_0000_0000_0000,
    ensures
        after.window_start == before.window_start,
        after.circuit().failures == before.circuit().failures + 1,
{
}

proof fn lemma_word(word: u64)
    ensures
        ({
            let c = fields(word);
            &&& word == c.state * 0x4000_0000_0000_0000 + c.failures * 0x1_0000_0000_0000
                + c.permits * 0x1_0000_0000 + c.timestamp
            &&& 0 <= c.state < 4
            &&& 0 <= c.failures < 0x4000
            &&& 0 <= c.permits < 0x1_0000
            &&& 0 <= c.timestamp < 0x1_0000_0000
        }),
{
    let w = word as int;
    assert(w / 0x1_0000_0000 / 0x1_0000 == w / 0x1_0000_0000_0000);
    assert(w / 0x1_0000_0000_0000 / 0x4000 == w / 0x4000_0000_0000_0000);
}

/// A state word is the sum of its parts, each from its own bit on: the timestamp from bit
/// 0, the permits from bit 32, the failures from bit 48, the state from bit 62.
pub proof fn law_word_layout(
    state: u64,
    failures: u64,
    permits: u64,
    timestamp: u64,
    word: u64,
    parts: (u64, u64, u64, u64),
)
    requires
        state < 4,
        failures < 0x4000,
        permits < 0x1_0000,
        timestamp < 0x1_0000_0000,
        call_ensures(CircuitBreaker::pack, (state, failures, permits, timestamp), word),
        call_ensures(CircuitBreaker::unpack, (word,), parts),
    ensures
        word == state * 0x4000_0000_0000_0000 + failures * 0x1_0000_0000_0000 + permits
            * 0x1_0000_0000 + timestamp,
        parts == (state, failures, permits, timestamp),
{
    lemma_word(word);
}

/// The state that is shown is the one that the two highest bits say: closed, open or
/// half-open, with the count that goes with it. A word with both bits set shows a closed
/// circuit without failures.
pub proof fn law_shown_state(cb: CircuitBreaker, state: CircuitState)
    requires
        call_ensures(CircuitBreaker::state, (&cb,), state),
    ensures
        cb.word < 0x4000_0000_0000_0000 ==> state == (CircuitState::Closed {
            failure_count: (cb.word as int / 0x1_0000_0000_0000) as u32,
        }),
        0x4000_0000_0000_0000 <= cb.word < 0x8000_0000_0000_0000 ==> state == CircuitState::Open,
        0x8000_0000_0000_0000 <= cb.word < 0xC000_0000_0000_0000 ==> state == (
        CircuitState::HalfOpen {
            permits_remaining: (cb.word as int / 0x1_0000_0000 % 0x1_0000) as u32,
        }),
        0xC000_0000_0000_0000 <= cb.word ==> state == (CircuitState::Closed { failure_count: 0 }),
{
    lemma_word(cb.word);
}

/// What a request does to the word. A closed circuit lets it through unchanged. A half-open
/// one lets it through for one permit, and rejects it without. An open one rejects it
/// unchanged before the timeout; from then on it turns half-open with all its permits, and
/// treats the request as such a circuit does. The window does not change.
pub proof fn law_request(cb: &mut CircuitBreaker, now: u64, result: Result<(), CircuitOpen>)
    requires
        call_ensures(CircuitBreaker::allow_at, (cb, now), result),
    ensures
        ({
            let before = mut_ref_current(cb);
            let after = mut_ref_future(cb);
            let opened = before.word as int % 0x1_0000_0000;
            let permits = before.word as int / 0x1_0000_0000 % 0x1_0000;
            let granted = before.config.half_open_permits;
            &&& after.config == before.config
            &&& after.window_start == before.window_start
            &&& before.word < 0x4000_0000_0000_0000 ==> result is Ok && after.word == before.word
            &&& 0x4000_0000_0000_0000 <= before.word < 0x8000_0000_0000_0000 ==> {
                let waited = if opened <= now {
                    now - opened
                } else {
                    now - opened + 0x1_0000_0000_0000_0000
                };
                &&& waited < before.config.reset_timeout.secs ==> result is Err && after.word
                    == before.word
                &&& waited >= before.config.reset_timeout.secs && granted == 0 ==> result is Err
                    && after.word == 0x8000_0000_0000_0000 + now as int % 0x1_0000_0000
                &&& waited >= before.config.reset_timeout.secs && 0 < granted <= 0xFFFF
                    ==> result is Ok && after.word == 0x8000_0000_0000_0000 + (granted - 1)
                    * 0x1_0000_0000 + now as int % 0x1_0000_0000
                &&& waited >= before.config.reset_timeout.secs && granted > 0xFFFF ==> result is Ok
                    && after.word == 0x8000_0000_0000_0000 + 0xFFFE * 0x1_0000_0000 + now as int
                    % 0x1_0000_0000
            }
            &&& 0x8000_0000_0000_0000 <= before.word < 0xC000_0000_0000_0000 ==> {
                &&& permits == 0 ==> result is Err && after.word == before.word
                &&& permits > 0 ==> result is Ok && after.word == before.word - 0x1_0000_0000
            }
            &&& 0xC000_0000_0000_0000 <= before.word ==> result is Ok && after.word == now as int
                % 0x1_0000_0000
        }),
{
    lemma_word(mut_ref_current(cb).word);
    lemma_word(mut_ref_future(cb).word);
}

/// What a success does to the word: a closed and a half-open circuit are closed without
/// failures from then on, and another one does not change. No window is left.
pub proof fn law_success(cb: &mut CircuitBreaker, now: u64)
    requires
        call_ensures(CircuitBreaker::record_success_at, (cb, now), ()),
    ensures
        ({
            let before = mut_ref_current(cb);
            let after = mut_ref_future(cb);
            let acts = before.word < 0x4000_0000_0000_0000 || 0x8000_0000_0000_0000 <= before.word
                < 0xC000_0000_0000_0000;
            &&& after.config == before.config
            &&& after.window_start == 0
            &&& acts ==> after.word == now as int % 0x1_0000_0000
            &&& !acts ==> after.word == before.word
        }),
{
    lemma_word(mut_ref_current(cb).word);
    lemma_word(mut_ref_future(cb).word);
}

/// What a failure does to the word. In a closed circuit it counts one more than before, or
/// one where a window starts with it, and opens the circuit if that reaches the threshold
/// or more than the word has room for. A half-open circuit opens, and another one does not
/// change.
pub proof fn law_failure(cb: &mut CircuitBreaker, now: u64)
    requires
        call_ensures(CircuitBreaker::record_failure_at, (cb, now), ()),
    ensures
        ({
            let before = mut_ref_current(cb);
            let after = mut_ref_future(cb);
            let closed = before.word < 0x4000_0000_0000_0000;
            let half_open = 0x8000_0000_0000_0000 <= before.word < 0xC000_0000_0000_0000;
            let open_now = 0x4000_0000_0000_0000 + now as int % 0x1_0000_0000;
            let count = before.word as int / 0x1_0000_0000_0000;
            &&& after.config == before.config
            &&& half_open ==> after.word == open_now
            &&& !half_open && !closed ==> after.word == before.word
            &&& match before.config.failure_policy {
                FailurePolicy::Consecutive { threshold } => {
                    &&& after.window_start == before.window_start
                    &&& closed && (count + 1 >= threshold || count + 1 > 0x3FFF) ==> after.word
                        == open_now
                    &&& closed && count + 1 < threshold && count + 1 <= 0x3FFF ==> after.word == (
                    count + 1) * 0x1_0000_0000_0000 + now as int % 0x1_0000_0000
                },
                FailurePolicy::Windowed { threshold, window } => {
                    let begun = before.window_start;
                    let age = if begun <= now {
                        now - begun
                    } else {
                        now - begun + 0x1_0000_0000_0000_0000
                    };
                    let inside = begun != 0 && age < window.secs;
                    &&& closed && inside && (count + 1 >= threshold || count + 1 > 0x3FFF)
                        ==> after.word == open_now && after.window_start == 0
                    &&& closed && inside && count + 1 < threshold && count + 1 <= 0x3FFF
                        ==> after.word == (count + 1) * 0x1_0000_0000_0000 + now as int
                        % 0x1_0000_0000 && after.window_start == begun
                    &&& closed && !inside && threshold <= 1 ==> after.word == open_now
                        && after.window_start == 0
                    &&& closed && !inside && threshold > 1 ==> after.word == 0x1_0000_0000_0000
                        + now as int % 0x1_0000_0000 && after.window_start == now
                    &&& half_open ==> after.window_start == 0
                    &&& !closed && !half_open ==> after.window_start == if inside {
                        begun
                    } else {
                        now
                    }
                },
            }
        }),
{
    lemma_word(mut_ref_current(cb).word);
    lemma_word(mut_ref_future(cb).word);
}

/// A reset leaves the circuit as a fresh one at that time: closed, without failures and
/// without a window.
pub proof fn law_reset_is_fresh(
    config: CircuitBreakerConfig,
    fresh: CircuitBreaker,
    cb: &mut CircuitBreaker,
    now: u64,
)
    requires
        call_ensures(CircuitBreaker::with_clock, (config, now), fresh),
        call_ensures(CircuitBreaker::reset_at, (cb, now), ()),
    ensures
        fresh.word == now as int % 0x1_0000_0000,
        fresh.window_start == 0,
        fresh.config == config,
        mut_ref_future(cb).word == fresh.word,
        mut_ref_future(cb).window_start == fresh.window_start,
        mut_ref_future(cb).config == mut_ref_current(cb).config,
{
    lemma_word(fresh.word);
    lemma_word(mut_ref_future(cb).word);
}

/// A configuration has the policy and the numbers that it is given, and three permits and
/// 30 seconds until the first probe where it is given none.
pub proof fn law_configuration(
    threshold: u32,
    window: Duration,
    timeout: Duration,
    permits: u32,
    row: CircuitBreakerConfig,
    within: CircuitBreakerConfig,
    timed: CircuitBreakerConfig,
    permitted: CircuitBreakerConfig,
)
    requires
        call_ensures(CircuitBreakerConfig::consecutive, (threshold,), row),
        call_ensures(CircuitBreakerConfig::windowed, (threshold, window), within),
        call_ensures(CircuitBreakerConfig::reset_timeout, (within, timeout), timed),
        call_ensures(CircuitBreakerConfig::half_open_permits, (timed, permits), permitted),
    ensures
        row.failure_policy == (FailurePolicy::Consecutive { threshold }),
        within.failure_policy == (FailurePolicy::Windowed { threshold, window }),
        row.half_open_permits == 3 && within.half_open_permits == 3,
        row.reset_timeout.secs == 30 && within.reset_timeout.secs == 30,
        permitted.failure_policy == within.failure_policy,
        permitted.reset_timeout == timeout,
        permitted.half_open_permits == permits,
        row.spec_threshold() == threshold && permitted.spec_threshold() == threshold,
{
}

/// The clock shows the seconds since the epoch in 32 bits: it goes on second by second and
/// starts anew after 136 years. Before the epoch it shows zero.
pub proof fn law_clock_goes_on(secs: u64, now: u64, before_epoch: u64)
    requires
        call_ensures(CircuitBreaker::clock_reading, (Some(secs),), now),
        call_ensures(CircuitBreaker::clock_reading, (None,), before_epoch),
    ensures
        secs < 0x1_0000_0000 ==> now == secs,
        now < 0x1_0000_0000,
        exists|rounds: int| secs == #[trigger] (rounds * 0x1_0000_0000) + now,
        before_epoch == 0,
{
    assert(secs == (secs as int / 0x1_0000_0000) * 0x1_0000_0000 + now);
}

/// The steps on a shared word leave the word that a breaker of its own is left with after
/// a success or a failure. A step that gives no word stands for one that changes nothing.
pub proof fn law_steps_come_to_a_verdict(
    well: &mut CircuitBreaker,
    badly: &mut CircuitBreaker,
    threshold: u32,
    now: u64,
    after_success: Option<u64>,
    after_failure: Option<u64>,
)
    requires
        mut_ref_current(badly).config.failure_policy == (FailurePolicy::Consecutive { threshold }),
        call_ensures(CircuitBreaker::record_success_at, (well, now), ()),
        call_ensures(CircuitBreaker::record_failure_at, (badly, now), ()),
        call_ensures(
            CircuitBreaker::success_step,
            (mut_ref_current(well).word, now),
            after_success,
        ),
        call_ensures(
            CircuitBreaker::failure_step,
            (mut_ref_current(badly).word, threshold, false, now),
            after_failure,
        ),
    ensures
        mut_ref_future(well).word == match after_success {
            Some(word) => word,
            None => mut_ref_current(well).word,
        },
        mut_ref_future(badly).word == match after_failure {
            Some(word) => word,
            None => mut_ref_current(badly).word,
        },
{
    lemma_word(mut_ref_current(well).word);
    lemma_word(mut_ref_future(well).word);
    lemma_word(mut_ref_current(badly).word);
    lemma_word(mut_ref_future(badly).word);
    if let Some(word) = after_success {
        lemma_word(word);
    }
    if let Some(word) = after_failure {
        lemma_word(word);
    }
}

/// A failure starts a window where there is none, and where the window has lasted; one that
/// comes earlier does not.
pub proof fn law_window_lasts(window_start: u64, window_secs: u64, now: u64, fresh: bool)
    requires
        call_ensures(CircuitBreaker::window_step, (window_start, window_secs, now), fresh),
        window_start <= now,
    ensures
        fresh <==> window_start == 0 || window_start + window_secs <= now,
{
}

/// A circuit is forced into a state by its word alone: closed with the failures, or half-open
/// with the permits, as far as the word has room for them, or open.
pub proof fn law_forced_word(cb: &mut CircuitBreaker, state: CircuitState, now: u64)
    requires
        call_ensures(CircuitBreaker::force_state_at, (cb, state, now), ()),
    ensures
        ({
            let before = mut_ref_current(cb);
            let after = mut_ref_future(cb);
            let time = now as int % 0x1_0000_0000;
            &&& after.config == before.config
            &&& after.window_start == before.window_start
            &&& state is Open ==> after.word == 0x4000_0000_0000_0000 + time
            &&& state matches CircuitState::Closed { failure_count } ==> {
                &&& failure_count <= 0x3FFF ==> after.word == failure_count * 0x1_0000_0000_0000 + time
                &&& failure_count > 0x3FFF ==> after.word == 0x3FFF * 0x1_0000_0000_0000 + time
            }
            &&& state matches CircuitState::HalfOpen { permits_remaining } ==> {
                &&& permits_remaining <= 0xFFFF ==> after.word == 0x8000_0000_0000_0000
                    + permits_remaining * 0x1_0000_0000 + time
                &&& permits_remaining > 0xFFFF ==> after.word == 0x8000_0000_0000_0000 + 0xFFFF
                    * 0x1_0000_0000 + time
            }
        }),
{
    lemma_word(mut_ref_future(cb).word);
}

/// A step on a shared word lets a request through at once only in a closed circuit, and rejects
/// it only in an open one before the timeout or in a half-open one without permits. It takes
/// one permit of the word, or makes an open circuit half-open.
pub proof fn law_request_step(config: CircuitBreakerConfig, word: u64, now: u64, step: AllowStep)
    requires
        call_ensures(CircuitBreaker::allow_step, (&config, word, now), step),
        word as int % 0x1_0000_0000 <= now,
    ensures
        ({
            let opened = word as int % 0x1_0000_0000;
            let permits = word as int / 0x1_0000_0000 % 0x1_0000;
            let open = 0x4000_0000_0000_0000 <= word < 0x8000_0000_0000_0000;
            let half_open = 0x8000_0000_0000_0000 <= word < 0xC000_0000_0000_0000;
            &&& step is Allow <==> word < 0x4000_0000_0000_0000
            &&& step is Reject <==> (open && now - opened < config.reset_timeout.secs) || (half_open
                && permits == 0)
            &&& step matches AllowStep::Take(next) ==> half_open && next == word - 0x1_0000_0000
            &&& step matches AllowStep::Retry(next) ==> open && next >= 0x8000_0000_0000_0000 && next
                < 0xC000_0000_0000_0000 && next as int % 0x1_0000_0000 == now as int % 0x1_0000_0000
            &&& step matches AllowStep::Reset(next) ==> word >= 0xC000_0000_0000_0000 && next
                == now as int % 0x1_0000_0000
        }),
{
    lemma_word(word);
    match step {
        AllowStep::Take(next) => lemma_word(next),
        AllowStep::Retry(next) => lemma_word(next),
        AllowStep::Reset(next) => lemma_word(next),
        _ => {},
    }
}

/// The threshold of a configuration is that of its policy.
pub proof fn law_threshold(config: CircuitBreakerConfig, threshold: u32)
    requires
        call_ensures(CircuitBreakerConfig::threshold, (&config,), threshold),
    ensures
        match config.failure_policy {
            FailurePolicy::Consecutive { threshold: t } => t == threshold,
            FailurePolicy::Windowed { threshold: t, .. } => t == threshold,
        },
{
}

/// What requests and verdicts do whenever they come: a closed circuit lets a request through
/// unchanged, a half-open one for a permit. A success closes a half-open circuit, a failure
/// opens it, and neither changes an open one. A reset closes the circuit, and a fresh one is
/// closed, without failures.
pub proof fn law_whenever(
    asked_now: &mut CircuitBreaker,
    result: Result<(), CircuitOpen>,
    well: &mut CircuitBreaker,
    badly: &mut CircuitBreaker,
    cleared: &mut CircuitBreaker,
    config: CircuitBreakerConfig,
    fresh: CircuitBreaker,
)
    requires
        call_ensures(CircuitBreaker::allow, (asked_now,), result),
        call_ensures(CircuitBreaker::record_success, (well,), ()),
        call_ensures(CircuitBreaker::record_failure, (badly,), ()),
        call_ensures(CircuitBreaker::reset, (cleared,), ()),
        call_ensures(CircuitBreaker::new, (config,), fresh),
    ensures
        ({
            let before = mut_ref_current(asked_now).word;
            let after = mut_ref_future(asked_now).word;
            &&& before < 0x4000_0000_0000_0000 ==> result is Ok && after == before
            &&& 0x8000_0000_0000_0000 <= before < 0xC000_0000_0000_0000 ==> {
                let permits = before as int / 0x1_0000_0000 % 0x1_0000;
                &&& permits == 0 ==> result is Err && after == before
                &&& permits > 0 ==> result is Ok && after == before - 0x1_0000_0000
            }
        }),
        ({
            let before = mut_ref_current(well).word;
            let after = mut_ref_future(well).word;
            &&& before < 0x4000_0000_0000_0000 || 0x8000_0000_0000_0000 <= before
                < 0xC000_0000_0000_0000 ==> after < 0x1_0000_0000
            &&& 0x4000_0000_0000_0000 <= before < 0x8000_0000_0000_0000 ==> after == before
            &&& mut_ref_future(well).window_start == 0
        }),
        ({
            let before = mut_ref_current(badly).word;
            let after = mut_ref_future(badly).word;
            &&& 0x8000_0000_0000_0000 <= before < 0xC000_0000_0000_0000 ==> 0x4000_0000_0000_0000
                <= after < 0x4000_0001_0000_0000
            &&& 0x4000_0000_0000_0000 <= before < 0x8000_0000_0000_0000 ==> after == before
            &&& before < 0x4000_0000_0000_0000 ==> match mut_ref_current(badly).config.failure_policy {
                FailurePolicy::Consecutive { threshold } => {
                    let count = before as int / 0x1_0000_0000_0000 + 1;
                    &&& count >= threshold ==> 0x4000_0000_0000_0000 <= after
                        < 0x4000_0001_0000_0000
                    &&& count < threshold && count <= 0x3FFF ==> after as int / 0x1_0000_0000_0000
                        == count
                },
                FailurePolicy::Windowed { .. } => true,
            }
        }),
        mut_ref_future(cleared).word < 0x1_0000_0000 && mut_ref_future(cleared).window_start == 0,
        fresh.word < 0x1_0000_0000 && fresh.window_start == 0 && fresh.config == config,
{
    lemma_word(mut_ref_current(asked_now).word);
    lemma_word(mut_ref_future(asked_now).word);
    lemma_word(mut_ref_current(well).word);
    lemma_word(mut_ref_future(well).word);
    lemma_word(mut_ref_current(badly).word);
    lemma_word(mut_ref_future(badly).word);
    lemma_word(mut_ref_future(cleared).word);
    lemma_word(fresh.word);
}

} // verus!
