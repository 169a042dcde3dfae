use glidefs::circuit_breaker::{
    AllowStep, CircuitBreaker, CircuitBreakerConfig, CircuitOpen, CircuitState, FailurePolicy,
    FAILURE_MASK, PERMIT_MASK, STATE_CLOSED, STATE_HALF_OPEN, STATE_OPEN, TIMESTAMP_MASK,
};
use glidefs::time::Duration;

#[test]
fn test_initial_state_is_closed() {
    let cb = CircuitBreaker::new(CircuitBreakerConfig::default());
    assert_eq!(cb.state(), CircuitState::Closed { failure_count: 0 });
}

#[test]
fn test_allow_when_closed() {
    let mut cb = CircuitBreaker::new(CircuitBreakerConfig::default());
    assert!(cb.allow().is_ok());
}

#[test]
fn test_consecutive_failures_increment() {
    let mut cb = CircuitBreaker::new(CircuitBreakerConfig::consecutive(5));

    cb.record_failure();
    assert_eq!(cb.state(), CircuitState::Closed { failure_count: 1 });

    cb.record_failure();
    cb.record_failure();
    assert_eq!(cb.state(), CircuitState::Closed { failure_count: 3 });
}

#[test]
fn test_consecutive_success_resets_failures() {
    let mut cb = CircuitBreaker::new(CircuitBreakerConfig::consecutive(5));

    cb.record_failure();
    cb.record_failure();
    cb.record_failure();
    assert_eq!(cb.state(), CircuitState::Closed { failure_count: 3 });

    cb.record_success();
    assert_eq!(cb.state(), CircuitState::Closed { failure_count: 0 });
}

#[test]
fn test_consecutive_opens_at_threshold() {
    let mut cb = CircuitBreaker::new(CircuitBreakerConfig::consecutive(3));

    cb.record_failure();
    cb.record_failure();
    assert!(matches!(cb.state(), CircuitState::Closed { .. }));

    cb.record_failure();
    assert_eq!(cb.state(), CircuitState::Open);
}

#[test]
fn test_rejects_when_open() {
    let mut cb = CircuitBreaker::new(
        CircuitBreakerConfig::consecutive(1).reset_timeout(Duration::from_secs(3600)),
    );

    cb.record_failure();
    assert_eq!(cb.state(), CircuitState::Open);
    assert!(cb.allow().is_err());
}

#[test]
fn test_half_open_after_timeout() {
    let mut cb = CircuitBreaker::with_clock(
        CircuitBreakerConfig::consecutive(1)
            .reset_timeout(Duration::from_millis(1))
            .half_open_permits(2),
        1000,
    );

    cb.record_failure_at(1000);
    assert_eq!(cb.state(), CircuitState::Open);

    assert!(cb.allow_at(1000).is_ok());
    assert!(matches!(cb.state(), CircuitState::HalfOpen { .. }));
}

#[test]
fn test_half_open_permits_decrement() {
    let mut cb = CircuitBreaker::with_clock(
        CircuitBreakerConfig::consecutive(1)
            .reset_timeout(Duration::from_millis(1))
            .half_open_permits(3),
        1000,
    );

    cb.record_failure_at(1000);

    assert!(cb.allow_at(1001).is_ok());
    assert_eq!(cb.state(), CircuitState::HalfOpen { permits_remaining: 2 });

    assert!(cb.allow_at(1001).is_ok());
    assert_eq!(cb.state(), CircuitState::HalfOpen { permits_remaining: 1 });

    assert!(cb.allow_at(1001).is_ok());
    assert_eq!(cb.state(), CircuitState::HalfOpen { permits_remaining: 0 });

    assert_eq!(cb.allow_at(1001), Err(CircuitOpen));
}

#[test]
fn test_half_open_success_closes() {
    let mut cb = CircuitBreaker::with_clock(
        CircuitBreakerConfig::consecutive(1)
            .reset_timeout(Duration::from_millis(1))
            .half_open_permits(3),
        1000,
    );

    cb.record_failure_at(1000);
    let _ = cb.allow_at(1001);

    cb.record_success_at(1001);
    assert_eq!(cb.state(), CircuitState::Closed { failure_count: 0 });
}

#[test]
fn test_half_open_failure_reopens() {
    let mut cb = CircuitBreaker::with_clock(
        CircuitBreakerConfig::consecutive(1)
            .reset_timeout(Duration::from_millis(1))
            .half_open_permits(3),
        1000,
    );

    cb.record_failure_at(1000);
    let _ = cb.allow_at(1001);

    cb.record_failure_at(1001);
    assert_eq!(cb.state(), CircuitState::Open);
}

#[test]
fn test_windowed_opens_at_threshold() {
    let mut cb = CircuitBreaker::new(CircuitBreakerConfig::windowed(3, Duration::from_secs(10)));

    cb.record_failure();
    cb.record_failure();
    assert!(matches!(cb.state(), CircuitState::Closed { .. }));

    cb.record_failure();
    assert_eq!(cb.state(), CircuitState::Open);
}

#[test]
fn test_windowed_resets_after_window() {
    let mut cb =
        CircuitBreaker::with_clock(CircuitBreakerConfig::windowed(3, Duration::from_secs(1)), 50);

    cb.record_failure_at(50);
    cb.record_failure_at(50);
    assert_eq!(cb.state(), CircuitState::Closed { failure_count: 2 });

    // This failure starts a new window
    cb.record_failure_at(51);
    assert_eq!(cb.state(), CircuitState::Closed { failure_count: 1 });

    // Two more to hit threshold
    cb.record_failure_at(51);
    cb.record_failure_at(51);
    assert_eq!(cb.state(), CircuitState::Open);
}

#[test]
fn test_windowed_success_resets_window() {
    let mut cb = CircuitBreaker::new(CircuitBreakerConfig::windowed(3, Duration::from_secs(10)));

    cb.record_failure();
    cb.record_failure();
    assert_eq!(cb.state(), CircuitState::Closed { failure_count: 2 });

    // Success resets the failure count
    cb.record_success();
    assert_eq!(cb.state(), CircuitState::Closed { failure_count: 0 });

    // Need 3 fresh failures to open
    cb.record_failure();
    cb.record_failure();
    assert!(matches!(cb.state(), CircuitState::Closed { .. }));

    cb.record_failure();
    assert_eq!(cb.state(), CircuitState::Open);
}

#[test]
fn test_windowed_half_open_recovery() {
    let mut cb = CircuitBreaker::with_clock(
        CircuitBreakerConfig::windowed(2, Duration::from_secs(10))
            .reset_timeout(Duration::from_millis(1)),
        700,
    );

    cb.record_failure_at(700);
    cb.record_failure_at(700);
    assert_eq!(cb.state(), CircuitState::Open);
    assert_eq!(cb.window_start, 0);

    assert!(cb.allow_at(701).is_ok());
    assert!(matches!(cb.state(), CircuitState::HalfOpen { .. }));

    cb.record_success_at(701);
    assert_eq!(cb.state(), CircuitState::Closed { failure_count: 0 });
}

#[test]
fn test_pack_unpack_roundtrip() {
    let test_cases = [
        (STATE_CLOSED, 0, 0, 0),
        (STATE_OPEN, 0, 0, 12345),
        (STATE_HALF_OPEN, 100, 50, 999999),
        (STATE_CLOSED, FAILURE_MASK, PERMIT_MASK, TIMESTAMP_MASK),
    ];

    for (state, failures, permits, timestamp) in test_cases {
        let packed = CircuitBreaker::pack(state, failures, permits, timestamp);
        let (s, f, p, t) = CircuitBreaker::unpack(packed);
        assert_eq!(s, state, "state mismatch");
        assert_eq!(f, failures, "failures mismatch");
        assert_eq!(p, permits, "permits mismatch");
        assert_eq!(t, timestamp, "timestamp mismatch");
    }
}

#[test]
fn test_builder_consecutive() {
    let config = CircuitBreakerConfig::consecutive(5)
        .reset_timeout(Duration::from_secs(60))
        .half_open_permits(10);

    assert_eq!(config.failure_policy, FailurePolicy::Consecutive { threshold: 5 });
    assert_eq!(config.reset_timeout, Duration::from_secs(60));
    assert_eq!(config.half_open_permits, 10);
}

#[test]
fn test_builder_windowed() {
    let config = CircuitBreakerConfig::windowed(3, Duration::from_secs(10))
        .reset_timeout(Duration::from_secs(30))
        .half_open_permits(5);

    assert_eq!(
        config.failure_policy,
        FailurePolicy::Windowed { threshold: 3, window: Duration::from_secs(10) }
    );
    assert_eq!(config.reset_timeout, Duration::from_secs(30));
    assert_eq!(config.half_open_permits, 5);
}

#[test]
fn packed_word_has_its_fields_where_they_belong() {
    assert_eq!(CircuitBreaker::pack(STATE_HALF_OPEN, 1, 2, 3), 0x8001_0002_0000_0003);
    // Values are cut to their fields.
    assert_eq!(CircuitBreaker::pack(7, 0x4001, 0x1_0002, 0x1_0000_0003), 0xC001_0002_0000_0003);
}

#[test]
fn open_circuit_rejects_until_the_timeout() {
    let mut cb = CircuitBreaker::with_clock(
        CircuitBreakerConfig::consecutive(1).reset_timeout(Duration::from_secs(30)),
        100,
    );
    cb.record_failure_at(100);
    assert!(cb.allow_at(129).is_err());
    assert_eq!(cb.state(), CircuitState::Open);
    assert!(cb.allow_at(130).is_ok());
    assert_eq!(cb.state(), CircuitState::HalfOpen { permits_remaining: 2 });
}

#[test]
fn no_permits_reject_in_half_open() {
    let mut cb = CircuitBreaker::with_clock(
        CircuitBreakerConfig::consecutive(1).reset_timeout(Duration::from_secs(0)).half_open_permits(0),
        100,
    );
    cb.record_failure_at(100);
    assert!(cb.allow_at(100).is_err());
    assert_eq!(cb.state(), CircuitState::HalfOpen { permits_remaining: 0 });
}

#[test]
fn large_thresholds_open_the_circuit() {
    let mut cb = CircuitBreaker::with_clock(CircuitBreakerConfig::consecutive(20000), 1000);
    for _ in 0..0x3FFF {
        cb.record_failure_at(1000);
    }
    assert_eq!(cb.state(), CircuitState::Closed { failure_count: 0x3FFF });
    for _ in 0x3FFF..20000 {
        cb.record_failure_at(1000);
    }
    assert_eq!(cb.state(), CircuitState::Open);
}

#[test]
fn large_numbers_of_permits_let_probes_through() {
    let config = CircuitBreakerConfig::consecutive(1)
        .reset_timeout(Duration::from_secs(0))
        .half_open_permits(65536);
    let mut cb = CircuitBreaker::with_clock(config, 1000);
    cb.record_failure_at(1000);
    assert_eq!(cb.allow_at(1000), Ok(()));
    assert_eq!(cb.state(), CircuitState::HalfOpen { permits_remaining: 65534 });
    cb.force_state_at(CircuitState::HalfOpen { permits_remaining: 65536 }, 1000);
    assert_eq!(cb.state(), CircuitState::HalfOpen { permits_remaining: 65535 });
    cb.force_state_at(CircuitState::Closed { failure_count: 20000 }, 1000);
    assert_eq!(cb.state(), CircuitState::Closed { failure_count: 16383 });
}

#[test]
fn open_circuit_ignores_verdicts() {
    let mut cb = CircuitBreaker::with_clock(CircuitBreakerConfig::consecutive(1), 5);
    cb.record_failure_at(5);
    cb.record_success_at(6);
    assert_eq!(cb.state(), CircuitState::Open);
    cb.record_failure_at(6);
    assert_eq!(cb.state(), CircuitState::Open);
    cb.reset_at(7);
    assert_eq!(cb.state(), CircuitState::Closed { failure_count: 0 });
}

#[test]
fn forced_states_are_observed() {
    let mut cb = CircuitBreaker::new(CircuitBreakerConfig::default());
    cb.force_state(CircuitState::HalfOpen { permits_remaining: 9 });
    assert_eq!(cb.state(), CircuitState::HalfOpen { permits_remaining: 9 });
    cb.force_state(CircuitState::Open);
    assert_eq!(cb.state(), CircuitState::Open);
    cb.force_state(CircuitState::Closed { failure_count: 4 });
    assert_eq!(cb.state(), CircuitState::Closed { failure_count: 4 });
    cb.record_failure();
    assert_eq!(cb.state(), CircuitState::Open);
    cb.reset();
    assert_eq!(cb.state(), CircuitState::Closed { failure_count: 0 });
}

#[test]
fn a_word_that_stands_for_nothing_is_reset() {
    let mut cb = CircuitBreaker::with_clock(CircuitBreakerConfig::default(), 5);
    cb.word = 0xC000_0000_0000_0000;
    assert_eq!(cb.state(), CircuitState::Closed { failure_count: 0 });
    assert!(cb.allow_at(8).is_ok());
    assert_eq!(CircuitBreaker::unpack(cb.word), (STATE_CLOSED, 0, 0, 8));
}

#[test]
fn steps_say_what_a_shared_word_becomes() {
    let config = CircuitBreakerConfig::consecutive(2).half_open_permits(1);
    let open = CircuitBreaker::pack(STATE_OPEN, 0, 0, 10);
    let half = CircuitBreaker::pack(STATE_HALF_OPEN, 0, 1, 50);
    assert_eq!(CircuitBreaker::allow_step(&config, open, 39), AllowStep::Reject);
    assert_eq!(CircuitBreaker::allow_step(&config, open, 50), AllowStep::Retry(half));
    assert_eq!(
        CircuitBreaker::allow_step(&config, half, 50),
        AllowStep::Take(CircuitBreaker::pack(STATE_HALF_OPEN, 0, 0, 50))
    );
    assert_eq!(CircuitBreaker::success_step(open, 60), None);
    assert_eq!(
        CircuitBreaker::failure_step(half, 2, false, 60),
        Some(CircuitBreaker::pack(STATE_OPEN, 0, 0, 60))
    );
    assert!(CircuitBreaker::window_step(0, 10, 5));
    assert!(!CircuitBreaker::window_step(5, 10, 14));
    assert!(CircuitBreaker::window_step(5, 10, 15));
}

#[test]
fn thresholds_and_messages() {
    assert_eq!(CircuitBreakerConfig::default().threshold(), 5);
    assert_eq!(CircuitBreakerConfig::windowed(7, Duration::from_secs(1)).threshold(), 7);
    assert_eq!(FailurePolicy::default(), FailurePolicy::Consecutive { threshold: 5 });
    assert_eq!(CircuitOpen.message(), "circuit breaker is open");
}

#[test]
fn clock_is_cut_to_its_lower_bits() {
    assert_eq!(CircuitBreaker::clock_reading(None), 0);
    assert_eq!(CircuitBreaker::clock_reading(Some(1_700_000_000)), 1_700_000_000);
    assert_eq!(CircuitBreaker::clock_reading(Some(u32::MAX as u64)), TIMESTAMP_MASK);
    assert_eq!(CircuitBreaker::clock_reading(Some((1 << 32) + 7)), 7);
}
