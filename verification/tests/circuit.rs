use raptor::circuit::CircuitBreaker;
use raptor::clock::Clock;
use raptor::config::CircuitBreakerConfig;

const SECOND: u128 = 1_000_000_000;

fn config(failure_threshold: u32, open_duration_secs: u64) -> CircuitBreakerConfig {
    CircuitBreakerConfig { failure_threshold, open_duration_secs }
}

#[test]
fn starts_closed_and_available() {
    let mut cb = CircuitBreaker::new(&config(3, 30));
    assert!(cb.is_available());
    assert!(!cb.is_open());
}

#[test]
fn trips_open_after_threshold_failures() {
    let mut cb = CircuitBreaker::new(&config(3, 30));
    cb.record_failure();
    cb.record_failure();
    assert!(cb.is_available(), "todavía no llegamos al threshold");
    cb.record_failure();
    assert!(cb.is_open());
    assert!(!cb.is_available());
}

#[test]
fn success_resets_failure_count() {
    let mut cb = CircuitBreaker::new(&config(3, 30));
    cb.record_failure();
    cb.record_failure();
    cb.record_success();
    cb.record_failure();
    cb.record_failure();
    assert!(!cb.is_open());
}

#[test]
fn transitions_to_half_open_after_cooldown_and_allows_single_probe() {
    let mut cb = CircuitBreaker::new(&config(1, 0));
    cb.record_failure();
    assert!(cb.is_open());
    assert!(cb.is_available());
    assert!(!cb.is_available());
}

#[test]
fn failed_probe_reopens_circuit() {
    let mut cb = CircuitBreaker::new(&config(1, 0));
    cb.record_failure();
    assert!(cb.is_available());
    cb.record_failure();
    assert!(cb.is_open());
}

#[test]
fn successful_probe_closes_circuit() {
    let mut cb = CircuitBreaker::new(&config(1, 0));
    cb.record_failure();
    assert!(cb.is_available());
    cb.record_success();
    assert!(!cb.is_open());
    assert!(cb.is_available());
}

#[test]
fn open_circuit_waits_for_the_whole_cooldown() {
    let mut cb = CircuitBreaker::with_clock(&config(1, 30), Clock::start());
    cb.record_failure_at(5 * SECOND);
    assert!(cb.snapshot_open_at(5 * SECOND));
    assert!(!cb.is_available_at(35 * SECOND - 1));
    assert_eq!(cb.state_label(), "open");
    assert!(!cb.snapshot_open_at(35 * SECOND));
    assert!(cb.is_available_at(35 * SECOND));
    assert_eq!(cb.state_label(), "half_open");
    assert!(!cb.is_available_at(36 * SECOND));
}

#[test]
fn looking_at_a_circuit_does_not_take_the_probe() {
    let mut cb = CircuitBreaker::with_clock(&config(1, 1), Clock::start());
    cb.record_failure_at(0);
    assert!(!cb.snapshot_open_at(SECOND));
    assert!(!cb.snapshot_open_at(SECOND));
    assert!(cb.is_available_at(SECOND));
}

#[test]
fn failed_probe_starts_the_cooldown_anew() {
    let mut cb = CircuitBreaker::with_clock(&config(2, 10), Clock::start());
    cb.record_failure_at(0);
    cb.record_failure_at(0);
    assert!(cb.is_available_at(10 * SECOND));
    cb.record_failure_at(11 * SECOND);
    assert!(!cb.is_available_at(20 * SECOND));
    assert!(cb.is_available_at(21 * SECOND));
    cb.record_success();
    assert_eq!(cb.state_label(), "closed");
}
