use axum::http::{HeaderMap, HeaderName, HeaderValue};
use raptor::balancer::UpstreamManager;
use raptor::clock::Clock;
use raptor::config::{
    AuthConfig, CircuitBreakerConfig, HealthCheckConfig, LoadBalancerStrategy, RateLimitConfig,
    RetryConfig, RouteConfig, ServerEntry, UpstreamConfig,
};
use raptor::exchange::{admit_request, Admitted, Exchange, Moment, Next, RequestHead, Settled};
use raptor::metrics::Metrics;
use raptor::proxy::{new_request_id, BodyRead, Outcome, Shared};
use raptor::router::Router;
use raptor::sorted_map::SortedMap;

fn route(path: &str) -> RouteConfig {
    RouteConfig {
        path: path.to_string(),
        upstream: "users".to_string(),
        auth: None,
        rate_limit: None,
    }
}

fn shared_with(routes: Vec<RouteConfig>, servers: &[&str], max_attempts: u32) -> Shared {
    let mut upstreams = SortedMap::new();
    upstreams.insert(
        "users".to_string(),
        UpstreamConfig {
            load_balancer: LoadBalancerStrategy::RoundRobin,
            servers: servers.iter().map(|s| ServerEntry::from(s)).collect(),
            health_check: HealthCheckConfig::default(),
            timeout_ms: 750,
            retry: RetryConfig { max_attempts, backoff_ms: 20 },
            circuit_breaker: CircuitBreakerConfig { failure_threshold: 5, open_duration_secs: 30 },
            allow_link_local_upstreams: false,
        },
    );
    Shared { router: Router::new(routes), upstreams: UpstreamManager::from_config(&upstreams) }
}

fn head(method: &str, path: &str, headers: HeaderMap) -> RequestHead {
    RequestHead {
        method: method.to_string(),
        path: path.to_string(),
        path_and_query: Some(format!("{path}?q=1")),
        headers,
        client_ip: Some("10.0.0.9".to_string()),
    }
}

fn moment() -> Moment {
    Moment { secs: 1_700_000_000, router: 0, upstreams: 0, seed: 1, elapsed_ms: 12 }
}

fn admitted(shared: &mut Shared, metrics: &mut Metrics, method: &str) -> Admitted {
    let mut headers = HeaderMap::new();
    headers.insert("host", HeaderValue::from_static("shop.example"));
    headers.insert("connection", HeaderValue::from_static("close"));
    headers.insert("accept", HeaderValue::from_static("text/plain"));
    admit_request(shared, metrics, head(method, "/api/users", headers), &moment()).unwrap()
}

fn begun(shared: &mut Shared, metrics: &mut Metrics, method: &str) -> Exchange {
    let read = BodyRead::Complete(3);
    admitted(shared, metrics, method)
        .with_body(read, 10, "https", "id-1".to_string(), shared, metrics, &moment())
        .unwrap()
        .unwrap()
}

fn connections(shared: &Shared) -> Vec<usize> {
    shared.upstreams.pool_at(0).backends().iter().map(|b| b.active_connections()).collect()
}

#[test]
fn answer_of_a_backend_is_relayed_and_counted() {
    let mut shared = shared_with(vec![route("/api/users")], &["http://a:1/"], 1);
    let mut metrics = Metrics::new();
    let mut exchange = begun(&mut shared, &mut metrics, "GET");
    let next = exchange.next(&mut shared, &mut metrics, &moment());
    let Next::Send { forward, timeout_ms } = next else { panic!() };
    assert_eq!(timeout_ms, 750);
    assert_eq!(forward.uri, "http://a:1/api/users?q=1");
    assert_eq!(forward.headers["host"], "a:1");
    assert_eq!(forward.headers["x-forwarded-host"], "shop.example");
    assert_eq!(forward.headers["x-forwarded-for"], "10.0.0.9");
    assert_eq!(forward.headers["x-forwarded-proto"], "https");
    assert_eq!(forward.headers["x-request-id"], "id-1");
    assert_eq!(forward.headers["accept"], "text/plain");
    assert!(!forward.headers.contains_key("connection"));
    assert_eq!(connections(&shared), vec![1]);
    assert_eq!(metrics.total_requests(), 0);

    let settled =
        exchange.settle(&mut shared, &mut metrics, Outcome::Answered, 503, &moment());
    assert!(matches!(settled, Settled::Relay));
    assert_eq!(connections(&shared), vec![0]);
    assert_eq!((metrics.total_requests(), metrics.total_gateway_failures()), (1, 0));
}

#[test]
fn failed_attempt_is_made_up_for_by_another_backend() {
    let mut shared = shared_with(vec![route("/api/users")], &["http://a:1", "http://b:1"], 2);
    let mut metrics = Metrics::new();
    let mut exchange = begun(&mut shared, &mut metrics, "GET");
    let Next::Send { forward, .. } = exchange.next(&mut shared, &mut metrics, &moment()) else {
        panic!()
    };
    assert_eq!(forward.uri, "http://a:1/api/users?q=1");
    let settled = exchange.settle(&mut shared, &mut metrics, Outcome::TimedOut, 0, &moment());
    assert!(matches!(settled, Settled::Wait(20)));
    assert_eq!(metrics.total_requests(), 0);
    let Next::Send { forward, .. } = exchange.next(&mut shared, &mut metrics, &moment()) else {
        panic!()
    };
    assert_eq!(forward.uri, "http://b:1/api/users?q=1");
    let settled = exchange.settle(&mut shared, &mut metrics, Outcome::Answered, 200, &moment());
    assert!(matches!(settled, Settled::Relay));
    assert_eq!(metrics.total_requests(), 1);
    assert_eq!(connections(&shared), vec![0, 0]);
}

#[test]
fn gateway_answers_when_the_attempts_are_used_up() {
    let mut shared = shared_with(vec![route("/api/users")], &["http://a:1"], 3);
    let mut metrics = Metrics::new();
    let mut exchange = begun(&mut shared, &mut metrics, "POST");
    let next = exchange.next(&mut shared, &mut metrics, &moment());
    assert!(matches!(next, Next::Send { .. }));
    let settled = exchange.settle(&mut shared, &mut metrics, Outcome::TimedOut, 0, &moment());
    let Settled::Refuse(refusal) = settled else { panic!() };
    assert_eq!((refusal.status, refusal.message.as_str()), (504, "upstream timeout"));
    assert_eq!(refusal.route, "/api/users");
    assert_eq!((metrics.total_requests(), metrics.total_gateway_failures()), (1, 1));
}

#[test]
fn gateway_answers_when_no_backend_is_left() {
    let mut shared = shared_with(vec![route("/api/users")], &["http://a:1"], 1);
    for _ in 0..3 {
        shared.upstreams.pool_at_mut(0).record_check_result(0, false);
    }
    let mut metrics = Metrics::new();
    let mut exchange = begun(&mut shared, &mut metrics, "GET");
    let Next::Refuse(refusal) = exchange.next(&mut shared, &mut metrics, &moment()) else {
        panic!()
    };
    assert_eq!(refusal.status, 503);
    assert_eq!((metrics.total_requests(), metrics.total_gateway_failures()), (1, 1));
    assert_eq!(connections(&shared), vec![0]);
}

#[test]
fn backend_that_makes_no_uri_counts_as_unreachable() {
    let mut shared = shared_with(vec![route("/api/users")], &["http://a b"], 2);
    let mut metrics = Metrics::new();
    let mut exchange = begun(&mut shared, &mut metrics, "GET");
    let next = exchange.next(&mut shared, &mut metrics, &moment());
    assert!(matches!(next, Next::Wait(20)));
    assert_eq!(connections(&shared), vec![0]);
    assert_eq!(metrics.total_requests(), 0);
    let Next::Refuse(refusal) = exchange.next(&mut shared, &mut metrics, &moment()) else {
        panic!()
    };
    assert_eq!((refusal.status, refusal.message.as_str()), (502, "upstream unreachable"));
    assert_eq!(connections(&shared), vec![0]);
    assert_eq!(metrics.total_requests(), 1);
}

#[test]
fn abandoned_attempt_leaves_no_connection_behind() {
    let mut shared = shared_with(vec![route("/api/users")], &["http://a:1"], 1);
    let mut metrics = Metrics::new();
    let mut exchange = begun(&mut shared, &mut metrics, "GET");
    exchange.next(&mut shared, &mut metrics, &moment());
    assert_eq!(connections(&shared), vec![1]);
    exchange.abandon(&mut shared);
    assert_eq!(connections(&shared), vec![0]);
    exchange.abandon(&mut shared);
    assert_eq!(connections(&shared), vec![0]);
}

#[test]
fn refused_heads_are_counted_under_their_route() {
    let mut routes = vec![route("/api/users"), route("/keyed"), route("/limited")];
    routes[1].auth = Some(AuthConfig::ApiKey {
        header: "x-api-key".to_string(),
        keys: vec!["k".to_string()],
    });
    routes[2].rate_limit = Some(RateLimitConfig { requests: 0, window_secs: 60 });
    let mut shared = shared_with(routes, &["http://a:1"], 1);
    let mut metrics = Metrics::new();
    for (path, status) in [("/other", 404), ("/keyed", 401), ("/limited", 429)] {
        let head = head("GET", path, HeaderMap::new());
        let refusal = admit_request(&mut shared, &mut metrics, head, &moment()).unwrap_err();
        assert_eq!(refusal.status, status);
    }
    assert_eq!(metrics.total_requests(), 3);
    assert_eq!(metrics.total_gateway_failures(), 0);
    assert_eq!(metrics.rejections("/limited"), 1);
}

#[test]
fn refused_bodies_reach_no_backend() {
    let mut shared = shared_with(vec![route("/api/users")], &["http://a:1"], 1);
    let mut metrics = Metrics::new();
    for (read, status, total) in [(BodyRead::TooLarge, 413, 1), (BodyRead::Unreadable, 400, 1)] {
        let refusal = admitted(&mut shared, &mut metrics, "POST")
            .with_body(read, 10, "http", "id".to_string(), &shared, &mut metrics, &moment())
            .unwrap()
            .unwrap_err();
        assert_eq!(refusal.status, status);
        assert_eq!(metrics.total_requests(), total);
    }
}

/// What becomes of a request with so many headers once its body has been read.
fn begun_with(names: usize) -> Option<(Shared, Metrics, Exchange)> {
    let mut shared = shared_with(vec![route("/api/users")], &["http://a:1"], 1);
    let mut metrics = Metrics::new();
    let mut headers = HeaderMap::new();
    for i in 0..names {
        let name = HeaderName::from_bytes(format!("x-{i}").as_bytes()).unwrap();
        headers.try_insert(name, HeaderValue::from_static("v")).unwrap();
    }
    let head = head("GET", "/api/users", headers);
    let admitted = admit_request(&mut shared, &mut metrics, head, &moment()).unwrap();
    let read = BodyRead::Complete(0);
    let id = "id".to_string();
    let begun = admitted.with_body(read, 10, "http", id, &shared, &mut metrics, &moment());
    begun.map(|exchange| (shared, metrics, exchange.unwrap()))
}

#[test]
fn exchange_begins_only_where_its_headers_have_room() {
    let (mut shared, mut metrics, mut exchange) = begun_with(10_000).unwrap();
    let next = exchange.next(&mut shared, &mut metrics, &moment());
    let Next::Send { forward, .. } = next else { panic!() };
    assert_eq!(forward.headers.len(), 10_004);
    assert!(begun_with(24_576).is_none());
    let (mut shared, mut metrics, mut exchange) = begun_with(24_574).unwrap();
    let next = exchange.next(&mut shared, &mut metrics, &moment());
    let Next::Refuse(refusal) = next else { panic!() };
    assert_eq!(refusal.status, 502);
}

#[test]
fn moments_follow_the_clocks() {
    let shared = shared_with(vec![route("/api/users")], &["http://a:1"], 1);
    let started = Clock::start();
    let first = Moment::now(&shared, &started);
    let second = Moment::now(&shared, &started);
    assert!(first.secs > 1_600_000_000);
    assert!(first.router <= second.router);
    assert!(first.upstreams <= second.upstreams);
    assert!(first.elapsed_ms <= second.elapsed_ms);
}

/// Sends a request to the gateway, and tells what comes next for it.
fn sent(shared: &mut Shared, metrics: &mut Metrics, path: &str) -> (Exchange, Next) {
    let mut head = head("GET", path, HeaderMap::new());
    head.path_and_query = Some(path.to_string());
    let admitted = admit_request(shared, metrics, head, &moment()).unwrap();
    let read = BodyRead::Complete(0);
    let mut exchange = admitted
        .with_body(read, 10, "http", new_request_id(), shared, metrics, &moment())
        .unwrap()
        .unwrap();
    let next = exchange.next(shared, metrics, &moment());
    (exchange, next)
}

/// Sends a request to the gateway, has it answered, and tells which URI and
/// headers the backend has seen.
fn relayed(shared: &mut Shared, metrics: &mut Metrics, path: &str) -> (String, HeaderMap) {
    let (mut exchange, next) = sent(shared, metrics, path);
    let Next::Send { forward, .. } = next else { panic!() };
    let settled = exchange.settle(shared, metrics, Outcome::Answered, 200, &moment());
    assert!(matches!(settled, Settled::Relay));
    (forward.uri, forward.headers)
}

#[test]
fn forwards_request_to_the_only_backend_of_an_upstream() {
    let mut shared = shared_with(vec![route("/api/users")], &["http://users-1"], 1);
    let (uri, _) = relayed(&mut shared, &mut Metrics::new(), "/api/users/42");
    assert_eq!(uri, "http://users-1/api/users/42");
}

#[test]
fn round_robin_distributes_requests_across_backends() {
    let servers = ["http://users-1", "http://users-2", "http://users-3"];
    let mut shared = shared_with(vec![route("/api/users")], &servers, 1);
    let mut metrics = Metrics::new();
    let mut seen = Vec::new();
    for _ in 0..6 {
        seen.push(relayed(&mut shared, &mut metrics, "/api/users/1").0);
    }
    for server in servers {
        let uri = format!("{server}/api/users/1");
        assert_eq!(seen.iter().filter(|u| **u == uri).count(), 2);
    }
}

#[test]
fn excludes_unhealthy_backend_from_rotation() {
    let servers = ["http://users-1", "http://users-2"];
    let mut shared = shared_with(vec![route("/api/users")], &servers, 1);
    for _ in 0..3 {
        shared.upstreams.pool_at_mut(0).record_check_result(1, false);
    }
    assert!(!shared.upstreams.pool_at(0).backends()[1].is_healthy());
    for _ in 0..4 {
        let (uri, _) = relayed(&mut shared, &mut Metrics::new(), "/api/users/1");
        assert_eq!(uri, "http://users-1/api/users/1");
    }
}

#[test]
fn returns_502_when_backend_connection_is_refused() {
    let mut shared = shared_with(vec![route("/api/auth")], &["http://127.0.0.1:1"], 1);
    let mut metrics = Metrics::new();
    let (mut exchange, next) = sent(&mut shared, &mut metrics, "/api/auth/login");
    assert!(matches!(next, Next::Send { .. }));
    let settled = exchange.settle(&mut shared, &mut metrics, Outcome::Unreachable, 0, &moment());
    let Settled::Refuse(refusal) = settled else { panic!() };
    assert_eq!(refusal.status, 502);
}

#[test]
fn propagates_x_request_id_header_to_upstream() {
    let mut shared = shared_with(vec![route("/api/users")], &["http://users-1"], 1);
    let (_, headers) = relayed(&mut shared, &mut Metrics::new(), "/api/users/1");
    let request_id = headers["x-request-id"].to_str().unwrap();
    assert!(uuid::Uuid::parse_str(request_id).is_ok());
    assert_eq!(request_id.as_bytes()[14], b'4');
}

#[test]
fn metrics_endpoint_reflects_traffic_from_the_public_router() {
    let mut shared = shared_with(vec![route("/api/users")], &["http://users-1"], 1);
    let mut metrics = Metrics::new();
    for _ in 0..3 {
        relayed(&mut shared, &mut metrics, "/api/users/1");
    }
    let text = metrics.render_prometheus(&shared.upstreams);
    assert!(text.contains(
        "raptor_http_requests_total{method=\"GET\",route=\"/api/users\",status=\"200\"} 3"
    ));
    assert!(text.contains("raptor_upstream_backend_healthy{upstream=\"users\""));
}
