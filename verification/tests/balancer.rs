use raptor::balancer::{pseudo_random_from, pseudo_random_u64, Backend, UpstreamManager, UpstreamPool};
use raptor::config::{
    CircuitBreakerConfig, HealthCheckConfig, LoadBalancerStrategy, RetryConfig, ServerEntry,
    UpstreamConfig,
};
use raptor::sorted_map::SortedMap;

fn upstream_config(servers: &[&str]) -> UpstreamConfig {
    UpstreamConfig {
        load_balancer: LoadBalancerStrategy::RoundRobin,
        servers: servers.iter().map(|s| ServerEntry::from(s)).collect(),
        health_check: HealthCheckConfig::default(),
        timeout_ms: 5000,
        retry: RetryConfig::default(),
        circuit_breaker: CircuitBreakerConfig::default(),
        allow_link_local_upstreams: false,
    }
}

fn weighted_upstream(entries: &[(&str, u32)], strategy: LoadBalancerStrategy) -> UpstreamConfig {
    let mut config = upstream_config(&[]);
    config.load_balancer = strategy;
    config.servers = entries
        .iter()
        .map(|(url, weight)| ServerEntry::Weighted { url: url.to_string(), weight: *weight })
        .collect();
    config
}

fn pick(pool: &mut UpstreamPool) -> String {
    let i = pool.select().unwrap();
    pool.backends()[i].url.clone()
}

fn mark_unhealthy(pool: &mut UpstreamPool, i: usize) {
    for _ in 0..pool.health_check().unhealthy_threshold {
        pool.record_check_result(i, false);
    }
    assert!(!pool.backends()[i].is_healthy());
}

#[test]
fn round_robin_cycles_through_all_backends() {
    let mut pool = UpstreamPool::new(
        "test".into(),
        &upstream_config(&["http://a", "http://b", "http://c"]),
    );
    let selections: Vec<String> = (0..6).map(|_| pick(&mut pool)).collect();
    assert_eq!(
        selections,
        vec!["http://a", "http://b", "http://c", "http://a", "http://b", "http://c"]
    );
}

#[test]
fn skips_unhealthy_backends() {
    let mut pool = UpstreamPool::new(
        "test".into(),
        &upstream_config(&["http://a", "http://b", "http://c"]),
    );
    mark_unhealthy(&mut pool, 1);
    let selections: Vec<String> = (0..4).map(|_| pick(&mut pool)).collect();
    assert!(!selections.contains(&"http://b".to_string()));
    assert_eq!(selections, vec!["http://a", "http://c", "http://c", "http://a"]);
}

#[test]
fn returns_none_when_all_backends_unhealthy() {
    let mut pool = UpstreamPool::new("test".into(), &upstream_config(&["http://a", "http://b"]));
    mark_unhealthy(&mut pool, 0);
    mark_unhealthy(&mut pool, 1);
    assert!(pool.select().is_none());
}

#[test]
fn returns_none_for_empty_pool() {
    let mut pool = UpstreamPool::new("test".into(), &upstream_config(&[]));
    assert!(pool.select().is_none());
}

#[test]
fn skips_backend_with_open_circuit() {
    let mut pool = UpstreamPool::new("test".into(), &upstream_config(&["http://a", "http://b"]));
    let threshold = CircuitBreakerConfig::default().failure_threshold;
    for _ in 0..threshold {
        pool.record_outcome(0, false);
    }
    assert!(pool.backends()[0].is_healthy(), "sigue healthy, sólo el circuito está abierto");
    let selections: Vec<String> = (0..4).map(|_| pick(&mut pool)).collect();
    assert!(selections.iter().all(|s| s == "http://b"));
}

#[test]
fn backend_becomes_unhealthy_after_threshold_failures() {
    let mut backend = Backend::new("http://a".into(), 1, &CircuitBreakerConfig::default());
    assert!(backend.is_healthy());
    assert_eq!(backend.record_check_result(false, 2, 3), None);
    assert_eq!(backend.record_check_result(false, 2, 3), None);
    assert_eq!(backend.record_check_result(false, 2, 3), Some(false));
    assert!(!backend.is_healthy());
}

#[test]
fn backend_does_not_flap_on_single_failure() {
    let mut backend = Backend::new("http://a".into(), 1, &CircuitBreakerConfig::default());
    assert_eq!(backend.record_check_result(false, 2, 3), None);
    assert!(backend.is_healthy());
    assert_eq!(backend.record_check_result(true, 2, 3), None);
    assert!(backend.is_healthy());
}

#[test]
fn backend_recovers_after_threshold_successes() {
    let mut backend = Backend::new("http://a".into(), 1, &CircuitBreakerConfig::default());
    assert_eq!(backend.record_check_result(false, 2, 1), Some(false));
    assert_eq!(backend.record_check_result(true, 2, 3), None);
    assert_eq!(backend.record_check_result(true, 2, 3), Some(true));
    assert!(backend.is_healthy());
}

#[test]
fn weighted_round_robin_distributes_proportionally_to_weight() {
    let mut pool = UpstreamPool::new(
        "test".into(),
        &weighted_upstream(
            &[("http://a", 3), ("http://b", 1)],
            LoadBalancerStrategy::WeightedRoundRobin,
        ),
    );
    let selections: Vec<String> = (0..8).map(|_| pick(&mut pool)).collect();
    let count_a = selections.iter().filter(|s| *s == "http://a").count();
    let count_b = selections.iter().filter(|s| *s == "http://b").count();
    assert_eq!(count_a, 6);
    assert_eq!(count_b, 2);
}

#[test]
fn weighted_round_robin_does_not_starve_the_minority_backend() {
    let mut pool = UpstreamPool::new(
        "test".into(),
        &weighted_upstream(
            &[("http://a", 5), ("http://b", 1)],
            LoadBalancerStrategy::WeightedRoundRobin,
        ),
    );
    let selections: Vec<String> = (0..24).map(|_| pick(&mut pool)).collect();
    let b_positions: Vec<usize> = selections
        .iter()
        .enumerate()
        .filter(|(_, s)| *s == "http://b")
        .map(|(i, _)| i)
        .collect();
    assert!(b_positions.len() >= 3, "b apareció muy poco: {b_positions:?}");
    let max_gap = b_positions.windows(2).map(|w| w[1] - w[0]).max().unwrap_or(0);
    assert!(max_gap <= 6, "hueco máximo entre apariciones de b fue {max_gap}, esperado <= 6");
}

#[test]
fn least_connections_prefers_backend_with_fewer_active_connections() {
    let mut config = upstream_config(&["http://a", "http://b"]);
    config.load_balancer = LoadBalancerStrategy::LeastConnections;
    let mut pool = UpstreamPool::new("test".into(), &config);
    let guard1 = pool.track_connection(0);
    let guard2 = pool.track_connection(0);
    let guard3 = pool.track_connection(0);
    let selected = pick(&mut pool);
    assert_eq!(selected, "http://b", "debería elegir el backend con menos conexiones");
    pool.release(guard1);
    pool.release(guard2);
    pool.release(guard3);
    assert_eq!(pool.backends()[0].active_connections(), 0);
}

#[test]
fn connection_guard_decrements_on_drop() {
    let mut backend = Backend::new("http://a".into(), 1, &CircuitBreakerConfig::default());
    assert_eq!(backend.active_connections(), 0);
    let guard = backend.track_connection();
    assert_eq!(backend.active_connections(), 1);
    backend.release(guard);
    assert_eq!(backend.active_connections(), 0);
}

#[test]
fn random_only_selects_among_available_backends() {
    let mut config = upstream_config(&["http://a", "http://b"]);
    config.load_balancer = LoadBalancerStrategy::Random;
    let mut pool = UpstreamPool::new("test".into(), &config);
    mark_unhealthy(&mut pool, 0);
    for _ in 0..20 {
        assert_eq!(pick(&mut pool), "http://b");
    }
}

#[test]
fn weighted_round_robin_follows_weights_exactly() {
    let mut pool = UpstreamPool::new(
        "test".into(),
        &weighted_upstream(
            &[("a", 3), ("b", 2), ("c", 0)],
            LoadBalancerStrategy::WeightedRoundRobin,
        ),
    );
    let order: Vec<Option<usize>> = (0..5).map(|_| pool.select_at(0, 0)).collect();
    assert_eq!(order, vec![Some(0), Some(1), Some(0), Some(1), Some(0)]);
}

#[test]
fn least_connections_takes_the_first_of_equals() {
    let mut config = upstream_config(&["a", "b", "c"]);
    config.load_balancer = LoadBalancerStrategy::LeastConnections;
    let mut pool = UpstreamPool::new("test".into(), &config);
    let _first = pool.track_connection(0);
    assert_eq!(pool.select_at(0, 0), Some(1));
    assert_eq!(pool.select_at(0, 0), Some(1));
}

#[test]
fn random_selection_follows_the_generator() {
    let mut config = upstream_config(&["a", "b", "c"]);
    config.load_balancer = LoadBalancerStrategy::Random;
    let mut pool = UpstreamPool::new("test".into(), &config);
    let mut state: u64 = 0;
    for _ in 0..10 {
        let number = pseudo_random_from(&mut state, 42);
        assert_eq!(pool.select_at(0, 42), Some((number as usize) % 3));
    }
}

#[test]
fn generator_is_xorshift() {
    let mut state: u64 = 1;
    assert_eq!(pseudo_random_from(&mut state, 0), 1082269761);
    assert_eq!(state, 1082269761);
    let mut fresh: u64 = 0;
    assert_ne!(pseudo_random_u64(&mut fresh), 0);
    assert_ne!(fresh, 0);
}

#[test]
fn half_open_backend_gets_one_probe() {
    let mut config = upstream_config(&["a"]);
    config.circuit_breaker = CircuitBreakerConfig { failure_threshold: 1, open_duration_secs: 1 };
    let mut pool = UpstreamPool::new("test".into(), &config);
    pool.record_outcome_at(0, false, 0);
    assert_eq!(pool.select_at(999_999_999, 0), None);
    assert_eq!(pool.select_at(1_000_000_000, 0), Some(0));
    assert_eq!(pool.select_at(1_000_000_001, 0), None);
    pool.record_outcome_at(0, true, 2_000_000_000);
    assert_eq!(pool.select_at(2_000_000_001, 0), Some(0));
}

#[test]
fn manager_finds_pools_by_name() {
    let mut upstreams: SortedMap<String, UpstreamConfig> = SortedMap::new();
    upstreams.insert("users".to_string(), upstream_config(&["http://u"]));
    upstreams.insert("auth".to_string(), upstream_config(&["http://a1", "http://a2"]));
    assert!(UpstreamManager::can_build(&upstreams));
    let mut manager = UpstreamManager::from_config(&upstreams);
    assert_eq!(manager.len(), 2);
    assert_eq!(manager.get("users").unwrap().name(), "users");
    assert_eq!(manager.get("auth").unwrap().backends().len(), 2);
    assert!(manager.get("nobody").is_none());
    let names: Vec<&str> = manager.pools().iter().map(|p| p.name()).collect();
    assert_eq!(names, vec!["auth", "users"]);
    let i = manager.index_of("auth").unwrap();
    assert_eq!(manager.pool_at_mut(i).select(), Some(0));
    assert_eq!(manager.pool_at_mut(i).select(), Some(1));
    assert_eq!(manager.pool_at(i).timeout_ms(), 5000);
    assert_eq!(manager.pool_at(i).retry().max_attempts, RetryConfig::default().max_attempts);
    assert_eq!(manager.pool_at(i).load_balancer().label(), "RoundRobin");
}

/// An upstream of two backends, the first of which has its trial request under
/// way.
fn half_open_pool(strategy: LoadBalancerStrategy) -> UpstreamPool {
    let mut config = weighted_upstream(&[("http://a", 1), ("http://b", 1)], strategy);
    config.circuit_breaker = CircuitBreakerConfig { failure_threshold: 1, open_duration_secs: 0 };
    let mut pool = UpstreamPool::new("test".into(), &config);
    pool.record_outcome_at(0, false, 0);
    for _ in 0..64 {
        if pool.backends()[0].circuit.state_label() == "half_open" {
            break;
        }
        let guard = pool.track_connection(1);
        pool.select_at(0, 1);
        pool.release(guard);
    }
    assert_eq!(pool.backends()[0].circuit.state_label(), "half_open");
    pool
}

#[test]
fn somebody_is_chosen_while_a_trial_is_under_way() {
    for strategy in [
        LoadBalancerStrategy::RoundRobin,
        LoadBalancerStrategy::WeightedRoundRobin,
        LoadBalancerStrategy::LeastConnections,
        LoadBalancerStrategy::Random,
    ] {
        let mut pool = half_open_pool(strategy);
        let first = &pool.backends()[0];
        assert!(first.is_candidate_at(0) && !first.is_usable_at(0));
        for _ in 0..8 {
            assert_eq!(pick(&mut pool), "http://b");
        }
        mark_unhealthy(&mut pool, 1);
        assert_eq!(pool.select(), None);
    }
}

#[test]
fn guards_know_their_backend() {
    let mut pool = UpstreamPool::new("test".into(), &upstream_config(&["http://a", "http://b"]));
    let first = pool.track_connection(0);
    let second = pool.track_connection(1);
    let third = pool.track_connection(1);
    assert_eq!((first.backend(), second.backend()), (0, 1));
    pool.release(second);
    let counts = |pool: &UpstreamPool| -> Vec<usize> {
        pool.backends().iter().map(|b| b.active_connections()).collect()
    };
    assert_eq!(counts(&pool), vec![1, 1]);
    pool.release(first);
    assert_eq!(counts(&pool), vec![0, 1]);
    pool.release(third);
    assert_eq!(counts(&pool), vec![0, 0]);
}

#[test]
fn weights_hold_over_any_requests_in_a_row() {
    let config = weighted_upstream(
        &[("http://a", 5), ("http://b", 1), ("http://c", 1), ("http://d", 0)],
        LoadBalancerStrategy::WeightedRoundRobin,
    );
    let mut pool = UpstreamPool::new("test".into(), &config);
    let picks: Vec<usize> = (0..21).map(|k| pool.select_at(k, 0).unwrap()).collect();
    assert_eq!(picks[..7], [0, 0, 1, 0, 2, 0, 0]);
    for from in 0..=14 {
        let row = &picks[from..from + 7];
        let times = |i: usize| row.iter().filter(|p| **p == i).count();
        assert_eq!((times(0), times(1), times(2), times(3)), (5, 1, 1, 0));
        assert_eq!(picks[from], picks[from % 7]);
    }
}

#[test]
fn the_last_checks_decide_about_health() {
    let mut backend = Backend::new("http://a".into(), 1, &CircuitBreakerConfig::default());
    let results = [false, true, false, false, true, false, true, true, true, false];
    let changes: Vec<Option<bool>> =
        results.iter().map(|r| backend.record_check_result(*r, 3, 2)).collect();
    let mut expected = vec![None; 10];
    expected[3] = Some(false);
    expected[8] = Some(true);
    assert_eq!(changes, expected);
}
