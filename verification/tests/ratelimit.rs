use raptor::clock::Clock;
use raptor::config::RateLimitConfig;
use raptor::ratelimit::{RateLimiter, TokenBucket};

const MILLI: u128 = 1_000_000;

#[test]
fn allows_up_to_capacity_then_rejects() {
    let mut bucket = TokenBucket::new(3, 60);
    assert!(bucket.try_consume());
    assert!(bucket.try_consume());
    assert!(bucket.try_consume());
    assert!(!bucket.try_consume());
}

#[test]
fn refills_over_time() {
    let mut bucket = TokenBucket::full(10, 1, 0, Clock::start());
    for _ in 0..10 {
        assert!(bucket.try_consume_at(0));
    }
    assert!(!bucket.try_consume_at(0), "balde recién vaciado, no debería quedar nada");
    assert!(bucket.try_consume_at(250 * MILLI));
    assert!(bucket.try_consume_at(250 * MILLI));
    assert!(!bucket.try_consume_at(250 * MILLI));
}

#[test]
fn rate_limiter_tracks_clients_independently() {
    let mut limiter = RateLimiter::new(RateLimitConfig { requests: 1, window_secs: 60 });
    assert!(limiter.check("client-a"));
    assert!(!limiter.check("client-a"));
    assert!(limiter.check("client-b"));
}

#[test]
fn token_comes_back_to_the_nanosecond() {
    let mut bucket = TokenBucket::full(2, 1, 0, Clock::start());
    assert!(bucket.try_consume_at(0));
    assert!(bucket.try_consume_at(0));
    assert!(!bucket.try_consume_at(500 * MILLI - 1));
    assert!(bucket.try_consume_at(500 * MILLI));
    assert!(!bucket.try_consume_at(500 * MILLI));
}

#[test]
fn bucket_never_holds_more_than_its_capacity() {
    let mut bucket = TokenBucket::full(2, 1, 0, Clock::start());
    assert!(bucket.try_consume_at(1_000_000 * MILLI));
    assert!(bucket.try_consume_at(1_000_000 * MILLI));
    assert!(!bucket.try_consume_at(1_000_000 * MILLI));
}

#[test]
fn limit_of_zero_lets_nobody_through() {
    let mut bucket = TokenBucket::full(0, 0, 0, Clock::start());
    assert!(!bucket.try_consume_at(0));
    assert!(!bucket.try_consume_at(u128::MAX));
}

#[test]
fn window_of_zero_seconds_is_one_second() {
    let mut bucket = TokenBucket::full(1, 0, 0, Clock::start());
    assert!(bucket.try_consume_at(0));
    assert!(!bucket.try_consume_at(999 * MILLI));
    assert!(bucket.try_consume_at(1000 * MILLI));
}

#[test]
fn limiter_refills_each_client() {
    let mut limiter =
        RateLimiter::with_clock(RateLimitConfig { requests: 1, window_secs: 1 }, Clock::start());
    assert!(limiter.check_at("a", 0));
    assert!(limiter.check_at("b", 500 * MILLI));
    assert!(limiter.check_at("a", 1000 * MILLI));
    assert!(!limiter.check_at("b", 1000 * MILLI));
    assert!(limiter.check_at("b", 1500 * MILLI));
}

#[test]
fn first_requests_pass_whenever_they_come() {
    let mut bucket = TokenBucket::full(3, 1, 0, Clock::start());
    for now in [7, 3, 900 * MILLI] {
        assert!(bucket.try_consume_at(now));
    }
}

#[test]
fn refused_request_passes_a_share_of_the_window_later() {
    let mut bucket = TokenBucket::full(4, 2, 0, Clock::start());
    for _ in 0..4 {
        assert!(bucket.try_consume_at(0));
    }
    assert!(!bucket.try_consume_at(100 * MILLI));
    assert!(bucket.try_consume_at(600 * MILLI));
    let mut none = TokenBucket::full(0, 2, 0, Clock::start());
    assert!(!none.try_consume_at(u128::MAX));
}

#[test]
fn grants_in_a_span_are_bounded() {
    let mut bucket = TokenBucket::full(2, 1, 0, Clock::start());
    let from = 10_000 * MILLI;
    let granted = (0..=1000).filter(|k| bucket.try_consume_at(from + k * MILLI)).count();
    assert_eq!(granted, 4);
}
