use raptor::admin::{
    health_report, reload_decision, route_infos, stats, upstream_infos, ReloadDecision,
};
use raptor::balancer::UpstreamManager;
use raptor::config::{
    AuthConfig, CircuitBreakerConfig, Config, ConfigError, HealthCheckConfig, LoadBalancerStrategy,
    LoggingConfig, RateLimitConfig, RetryConfig, RouteConfig, ServerConfig, ServerEntry,
    UpstreamConfig,
};
use raptor::metrics::Metrics;
use raptor::router::Router;
use raptor::sorted_map::SortedMap;

fn manager(names: &[&str]) -> UpstreamManager {
    let mut upstreams = SortedMap::new();
    for name in names {
        upstreams.insert(
            name.to_string(),
            UpstreamConfig {
                load_balancer: LoadBalancerStrategy::LeastConnections,
                servers: vec![ServerEntry::Weighted { url: format!("http://{name}-1"), weight: 4 }],
                health_check: HealthCheckConfig::default(),
                timeout_ms: 5000,
                retry: RetryConfig::default(),
                circuit_breaker: CircuitBreakerConfig {
                    failure_threshold: 1,
                    open_duration_secs: 0,
                },
                allow_link_local_upstreams: false,
            },
        );
    }
    UpstreamManager::from_config(&upstreams)
}

fn route(path: &str, auth: Option<AuthConfig>) -> RouteConfig {
    RouteConfig { path: path.to_string(), upstream: "users".to_string(), auth, rate_limit: None }
}

#[test]
fn admin_routes_lists_configured_routes() {
    let router = Router::new(vec![route("/api/users", None)]);
    let infos = route_infos(&router);
    assert_eq!(infos.len(), 1);
    assert_eq!(infos[0].path, "/api/users");
    assert_eq!(infos[0].upstream, "users");
    assert!(!infos[0].rate_limited);
    assert_eq!(infos[0].auth, None);
}

#[test]
fn admin_routes_tell_how_callers_are_authenticated() {
    let key = AuthConfig::ApiKey { header: "k".to_string(), keys: vec![] };
    let jwt = AuthConfig::Jwt { secret: "s".to_string(), issuer: None, audience: None };
    let mut limited = route("/ccc", Some(jwt));
    limited.rate_limit = Some(RateLimitConfig { requests: 1, window_secs: 1 });
    let router = Router::new(vec![route("/a", Some(key)), limited]);
    let infos = route_infos(&router);
    assert_eq!((infos[0].auth, infos[0].rate_limited), (Some("jwt"), true));
    assert_eq!((infos[1].auth, infos[1].rate_limited), (Some("api_key"), false));
}

#[test]
fn admin_upstreams_reports_backend_health() {
    let infos = upstream_infos(&manager(&["users"]));
    assert_eq!(infos[0].name, "users");
    assert!(infos[0].backends[0].healthy);
    assert_eq!(infos[0].backends[0].circuit_state, "closed");
    assert_eq!(infos[0].backends[0].weight, 4);
    assert_eq!(infos[0].backends[0].url, "http://users-1");
    assert_eq!(infos[0].load_balancer, "LeastConnections");
}

#[test]
fn admin_upstreams_follow_the_state() {
    let mut m = manager(&["users", "auth"]);
    let _guard = m.pool_at_mut(0).track_connection(0);
    m.pool_at_mut(0).record_outcome(0, false);
    for _ in 0..3 {
        m.pool_at_mut(1).record_check_result(0, false);
    }
    let infos = upstream_infos(&m);
    assert_eq!(infos[0].name, "auth");
    assert_eq!(infos[0].backends[0].active_connections, 1);
    assert_eq!(infos[0].backends[0].circuit_state, "open");
    assert!(!infos[1].backends[0].healthy);
    assert_eq!(m.pool_at_mut(0).select(), Some(0));
    assert_eq!(upstream_infos(&m)[0].backends[0].circuit_state, "half_open");
}

#[test]
fn admin_health_returns_503_when_upstream_has_no_available_backend() {
    let mut m = manager(&["auth", "users"]);
    for _ in 0..3 {
        m.pool_at_mut(1).record_check_result(0, false);
    }
    let report = health_report(&m);
    assert_eq!(report.status, 503);
    assert_eq!(report.degraded_upstreams, vec!["users"]);
    m.pool_at_mut(0).record_outcome(0, false);
    assert_eq!(health_report(&m).degraded_upstreams, vec!["auth", "users"]);
}

#[test]
fn admin_health_returns_200_when_all_upstreams_available() {
    let report = health_report(&manager(&["users"]));
    assert_eq!(report.status, 200);
    assert!(report.degraded_upstreams.is_empty());
}

#[test]
fn admin_stats_reports_uptime_and_request_counts() {
    let mut metrics = Metrics::new();
    metrics.record_request("GET", "/api/users", 200, 3);
    let router = Router::new(vec![route("/api/users", None)]);
    let before = metrics.uptime_nanos();
    let s = stats(&metrics, &router, &manager(&["users", "auth"]));
    assert!(before <= s.uptime_nanos && s.uptime_nanos <= metrics.uptime_nanos());
    assert!(s.uptime_nanos as f64 / 1e9 >= 0.0);
    assert_eq!(s.total_requests, 1);
    assert_eq!(s.total_gateway_failures, 0);
    assert_eq!(s.routes_configured, 1);
    assert_eq!(s.upstreams_configured, 2);
}

fn loaded() -> Config {
    let mut upstreams = SortedMap::new();
    upstreams.insert(
        "users".to_string(),
        UpstreamConfig {
            load_balancer: LoadBalancerStrategy::RoundRobin,
            servers: vec![ServerEntry::from("http://a")],
            health_check: HealthCheckConfig::default(),
            timeout_ms: 5000,
            retry: RetryConfig::default(),
            circuit_breaker: CircuitBreakerConfig::default(),
            allow_link_local_upstreams: false,
        },
    );
    Config {
        server: ServerConfig {
            address: "127.0.0.1:0".to_string(),
            tls: None,
            admin: None,
            max_body_bytes: 1,
        },
        routes: vec![route("/a", None), route("/b", None)],
        upstreams,
        logging: LoggingConfig::default(),
    }
}

#[test]
fn only_a_usable_configuration_replaces_the_state() {
    match reload_decision(true, Some(Ok(loaded()))) {
        ReloadDecision::Replace { status, config, routes, upstreams } => {
            assert_eq!((status, routes, upstreams), (200, 2, 1));
            assert_eq!(config.routes.len(), 2);
        }
        other => panic!("{other:?}"),
    }
    let refused = |has_path: bool, loaded: Option<Result<Config, ConfigError>>| -> (u16, String) {
        match reload_decision(has_path, loaded) {
            ReloadDecision::Refuse { status, message } => (status, message),
            other => panic!("{other:?}"),
        }
    };
    assert_eq!(
        refused(true, Some(Err(ConfigError::Invalid("x".to_string())))),
        (400, "configuración inválida: x".to_string())
    );
    assert_eq!(refused(false, None).0, 501);
    assert!(refused(false, Some(Ok(loaded()))).1.starts_with("esta instancia no sabe"));
}
