use raptor::balancer::UpstreamManager;
use raptor::config::{
    CircuitBreakerConfig, HealthCheckConfig, LoadBalancerStrategy, RetryConfig, ServerEntry,
    UpstreamConfig,
};
use raptor::metrics::Metrics;
use raptor::sorted_map::SortedMap;

fn empty_upstream_manager() -> UpstreamManager {
    UpstreamManager::from_config(&SortedMap::new())
}

fn two_upstreams() -> UpstreamManager {
    let mut upstreams = SortedMap::new();
    for name in ["users", "auth"] {
        upstreams.insert(
            name.to_string(),
            UpstreamConfig {
                load_balancer: LoadBalancerStrategy::RoundRobin,
                servers: vec![ServerEntry::from(&format!("http://{name}"))],
                health_check: HealthCheckConfig::default(),
                timeout_ms: 5000,
                retry: RetryConfig::default(),
                circuit_breaker: CircuitBreakerConfig {
                    failure_threshold: 1,
                    open_duration_secs: 30,
                },
                allow_link_local_upstreams: false,
            },
        );
    }
    UpstreamManager::from_config(&upstreams)
}

#[test]
fn records_request_counts_by_method_route_status() {
    let mut metrics = Metrics::new();
    metrics.record_request("GET", "/api/users", 200, 12);
    metrics.record_request("GET", "/api/users", 200, 8);
    metrics.record_request("GET", "/api/users", 502, 5000);
    assert_eq!(metrics.total_requests(), 3);
    assert_eq!(metrics.total_gateway_failures(), 1);
}

#[test]
fn does_not_count_backend_5xx_as_gateway_failure() {
    let mut metrics = Metrics::new();
    metrics.record_request("GET", "/api/users", 500, 10);
    assert_eq!(metrics.total_gateway_failures(), 0);
}

#[test]
fn records_rate_limit_rejections_per_route() {
    let mut metrics = Metrics::new();
    metrics.record_rate_limit_rejection("/api/auth");
    metrics.record_rate_limit_rejection("/api/auth");
    metrics.record_rate_limit_rejection("/api/users");
    let rendered = metrics.render_prometheus(&empty_upstream_manager());
    assert!(rendered.contains("raptor_rate_limit_rejections_total{route=\"/api/auth\"} 2"));
    assert!(rendered.contains("raptor_rate_limit_rejections_total{route=\"/api/users\"} 1"));
}

#[test]
fn latency_histogram_places_values_in_correct_buckets() {
    let mut metrics = Metrics::new();
    metrics.record_request("GET", "/api/users", 200, 3);
    metrics.record_request("GET", "/api/users", 200, 3000);
    let rendered = metrics.render_prometheus(&empty_upstream_manager());
    assert!(rendered.contains("raptor_http_request_duration_seconds_bucket{route=\"/api/users\",le=\"0.005\"} 1"));
    assert!(rendered.contains("raptor_http_request_duration_seconds_bucket{route=\"/api/users\",le=\"+Inf\"} 2"));
    assert!(rendered.contains("raptor_http_request_duration_seconds_count{route=\"/api/users\"} 2"));
}

#[test]
fn renders_valid_prometheus_text_with_no_data() {
    let metrics = Metrics::new();
    let rendered = metrics.render_prometheus(&empty_upstream_manager());
    assert!(rendered.contains("raptor_uptime_seconds"));
    assert!(rendered.contains("# TYPE raptor_http_requests_total counter"));
}

#[test]
fn whole_text_is_as_expected() {
    let mut metrics = Metrics::new();
    metrics.record_request("POST", "/b", 503, 7);
    metrics.record_request("GET", "/b", 504, 1250);
    metrics.record_request("GET", "/a", 200, 6000);
    metrics.record_relayed("GET", "/a", 404, 250);
    metrics.record_rate_limit_rejection("/a");
    let mut upstreams = two_upstreams();
    upstreams.pool_at_mut(1).record_outcome(0, false);
    for _ in 0..3 {
        upstreams.pool_at_mut(0).record_check_result(0, false);
    }
    let expected = r#"# HELP raptor_uptime_seconds Segundos desde que arrancó el proceso.
# TYPE raptor_uptime_seconds gauge
raptor_uptime_seconds 12.05

# HELP raptor_http_requests_total Requests procesados, por método, ruta y status.
# TYPE raptor_http_requests_total counter
raptor_http_requests_total{method="GET",route="/a",status="200"} 1
raptor_http_requests_total{method="GET",route="/a",status="404"} 1
raptor_http_requests_total{method="GET",route="/b",status="504"} 1
raptor_http_requests_total{method="POST",route="/b",status="503"} 1

# HELP raptor_http_requests_failed_total Requests que Raptor no pudo completar contra ningún backend (502/503/504), por ruta.
# TYPE raptor_http_requests_failed_total counter
raptor_http_requests_failed_total{route="/b"} 2

# HELP raptor_rate_limit_rejections_total Requests rechazados por rate limiting, por ruta.
# TYPE raptor_rate_limit_rejections_total counter
raptor_rate_limit_rejections_total{route="/a"} 1

# HELP raptor_http_request_duration_seconds Latencia de los requests manejados por Raptor, por ruta.
# TYPE raptor_http_request_duration_seconds histogram
raptor_http_request_duration_seconds_bucket{route="/a",le="0.005"} 0
raptor_http_request_duration_seconds_bucket{route="/a",le="0.01"} 0
raptor_http_request_duration_seconds_bucket{route="/a",le="0.025"} 0
raptor_http_request_duration_seconds_bucket{route="/a",le="0.05"} 0
raptor_http_request_duration_seconds_bucket{route="/a",le="0.1"} 0
raptor_http_request_duration_seconds_bucket{route="/a",le="0.25"} 1
raptor_http_request_duration_seconds_bucket{route="/a",le="0.5"} 1
raptor_http_request_duration_seconds_bucket{route="/a",le="1"} 1
raptor_http_request_duration_seconds_bucket{route="/a",le="2.5"} 1
raptor_http_request_duration_seconds_bucket{route="/a",le="5"} 1
raptor_http_request_duration_seconds_bucket{route="/a",le="+Inf"} 2
raptor_http_request_duration_seconds_sum{route="/a"} 6.25
raptor_http_request_duration_seconds_count{route="/a"} 2
raptor_http_request_duration_seconds_bucket{route="/b",le="0.005"} 0
raptor_http_request_duration_seconds_bucket{route="/b",le="0.01"} 1
raptor_http_request_duration_seconds_bucket{route="/b",le="0.025"} 1
raptor_http_request_duration_seconds_bucket{route="/b",le="0.05"} 1
raptor_http_request_duration_seconds_bucket{route="/b",le="0.1"} 1
raptor_http_request_duration_seconds_bucket{route="/b",le="0.25"} 1
raptor_http_request_duration_seconds_bucket{route="/b",le="0.5"} 1
raptor_http_request_duration_seconds_bucket{route="/b",le="1"} 1
raptor_http_request_duration_seconds_bucket{route="/b",le="2.5"} 2
raptor_http_request_duration_seconds_bucket{route="/b",le="5"} 2
raptor_http_request_duration_seconds_bucket{route="/b",le="+Inf"} 2
raptor_http_request_duration_seconds_sum{route="/b"} 1.257
raptor_http_request_duration_seconds_count{route="/b"} 2

# HELP raptor_upstream_backend_healthy Si el health checker considera este backend sano (1) o no (0).
# TYPE raptor_upstream_backend_healthy gauge
raptor_upstream_backend_healthy{upstream="auth",backend="http://auth"} 0
raptor_upstream_backend_healthy{upstream="users",backend="http://users"} 1

# HELP raptor_upstream_circuit_open Si el circuit breaker de este backend está abierto (1) o no (0).
# TYPE raptor_upstream_circuit_open gauge
raptor_upstream_circuit_open{upstream="auth",backend="http://auth"} 0
raptor_upstream_circuit_open{upstream="users",backend="http://users"} 1
"#;
    assert_eq!(metrics.render_prometheus_at(&upstreams, 12_050_000_000), expected);
}

#[test]
fn answers_of_backends_are_not_failures() {
    let mut metrics = Metrics::new();
    metrics.record_relayed("GET", "/a", 503, 1);
    metrics.record_request("GET", "/a", 503, 1);
    let rendered = metrics.render_prometheus(&empty_upstream_manager());
    assert!(rendered
        .contains("raptor_http_requests_total{method=\"GET\",route=\"/a\",status=\"503\"} 2\n"));
    assert!(rendered.contains("raptor_http_requests_failed_total{route=\"/a\"} 1\n"));
    assert_eq!(metrics.total_gateway_failures(), 1);
}

#[test]
fn sums_are_written_as_seconds() {
    for ms in [0u64, 1, 10, 999, 1000, 1001, 123456] {
        let mut metrics = Metrics::default();
        metrics.record_request("GET", "/", 200, ms);
        let line = format!(
            "raptor_http_request_duration_seconds_sum{{route=\"/\"}} {}\n",
            ms as f64 / 1000.0
        );
        assert!(metrics.render_prometheus(&empty_upstream_manager()).contains(&line));
    }
}

#[test]
fn metrics_know_when_they_are_full() {
    let mut metrics = Metrics::new();
    assert!(metrics.can_record("/", u64::MAX));
    metrics.record_request("GET", "/", 200, u64::MAX);
    assert!(!metrics.can_record("/", 1));
    assert!(metrics.can_record("/", 0));
    assert!(metrics.can_record("/other", 1));
    assert_eq!(metrics.rejections("/"), 0);
    metrics.record_rate_limit_rejection("/");
    assert_eq!(metrics.rejections("/"), 1);
}

#[test]
fn latencies_match_the_requests_of_a_route() {
    let mut metrics = Metrics::new();
    for (method, status, ms) in [("GET", 200, 5), ("POST", 502, 6), ("GET", 404, 5001)] {
        metrics.record_request(method, "/a", status, ms);
    }
    metrics.record_relayed("GET", "/b", 200, 1);
    let text = metrics.render_prometheus(&empty_upstream_manager());
    let start = "raptor_http_request_duration_seconds";
    assert!(text.contains(&format!("{start}_bucket{{route=\"/a\",le=\"0.005\"}} 1\n")));
    assert!(text.contains(&format!("{start}_bucket{{route=\"/a\",le=\"0.01\"}} 2\n")));
    assert!(text.contains(&format!("{start}_bucket{{route=\"/a\",le=\"5\"}} 2\n")));
    assert!(text.contains(&format!("{start}_bucket{{route=\"/a\",le=\"+Inf\"}} 3\n")));
    assert!(text.contains(&format!("{start}_count{{route=\"/a\"}} 3\n")));
    assert!(text.contains(&format!("{start}_count{{route=\"/b\"}} 1\n")));
    assert_eq!((metrics.total_requests(), metrics.total_gateway_failures()), (4, 1));
}

#[test]
fn only_counted_routes_are_listed() {
    let mut metrics = Metrics::new();
    metrics.record_request("GET", "/a", 200, 1);
    metrics.record_request("GET", "/b", 502, 1);
    metrics.record_rate_limit_rejection("/c");
    let text = metrics.render_prometheus(&empty_upstream_manager());
    assert!(text.contains("raptor_http_request_duration_seconds_count{route=\"/a\"} 1\n"));
    assert!(text.contains("raptor_http_request_duration_seconds_count{route=\"/b\"} 1\n"));
    assert!(!text.contains("raptor_http_request_duration_seconds_count{route=\"/c\"}"));
    assert!(text.contains("raptor_http_requests_failed_total{route=\"/b\"} 1\n"));
    assert!(!text.contains("raptor_http_requests_failed_total{route=\"/a\"}"));
    assert!(text.contains("raptor_rate_limit_rejections_total{route=\"/c\"} 1\n"));
    assert!(!text.contains("raptor_rate_limit_rejections_total{route=\"/a\"}"));
}
