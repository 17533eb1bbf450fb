use axum::http::{HeaderMap, HeaderName, HeaderValue};
use raptor::auth::{sign_hs256, AuthError};
use raptor::balancer::{UpstreamManager, UpstreamPool};
use raptor::config::{
    AuthConfig, CircuitBreakerConfig, Config, HealthCheckConfig, LoadBalancerStrategy,
    LoggingConfig, RateLimitConfig, RetryConfig, RouteConfig, ServerConfig, ServerEntry,
    UpstreamConfig,
};
use raptor::headers::{room_for, text_of_header};
use raptor::metrics::Metrics;
use raptor::proxy::{
    check_auth, check_body, check_response, is_retryable_method, is_uri, new_request_id,
    note_refusal, note_response, plan_forward, sanitize_and_augment_headers,
    AfterAttempt, AttemptFailure, Attempts, BodyRead, Outcome, Shared, Step,
};
use raptor::router::Router;
use raptor::sorted_map::SortedMap;

fn upstream_with(
    servers: &[&str],
    retry: RetryConfig,
    circuit_breaker: CircuitBreakerConfig,
) -> UpstreamConfig {
    UpstreamConfig {
        load_balancer: LoadBalancerStrategy::RoundRobin,
        servers: servers.iter().map(|s| ServerEntry::from(s)).collect(),
        health_check: HealthCheckConfig::default(),
        timeout_ms: 2000,
        retry,
        circuit_breaker,
        allow_link_local_upstreams: false,
    }
}

fn upstream(servers: &[&str]) -> UpstreamConfig {
    upstream_with(servers, RetryConfig::default(), CircuitBreakerConfig::default())
}

fn route(path: &str, upstream: &str) -> RouteConfig {
    RouteConfig {
        path: path.to_string(),
        upstream: upstream.to_string(),
        auth: None,
        rate_limit: None,
    }
}

fn shared(routes: Vec<RouteConfig>, names: &[&str]) -> Shared {
    let mut upstreams = SortedMap::new();
    for name in names {
        upstreams.insert(name.to_string(), upstream(&["http://127.0.0.1:1"]));
    }
    Shared { router: Router::new(routes), upstreams: UpstreamManager::from_config(&upstreams) }
}

fn bearer(token: &str) -> HeaderMap {
    let mut headers = HeaderMap::new();
    headers.insert("Authorization", HeaderValue::from_str(&format!("Bearer {token}")).unwrap());
    headers
}

fn refused(shared: &mut Shared, path: &str, headers: &HeaderMap, ip: Option<&str>) -> (u16, String) {
    let r = shared.decide(path, headers, ip).unwrap_err();
    (r.status, r.message)
}

#[test]
fn returns_404_when_no_route_matches() {
    let mut s = shared(vec![route("/api/users", "users")], &["users"]);
    let r = s.decide("/no-existe", &HeaderMap::new(), None).unwrap_err();
    assert_eq!((r.status, r.message.as_str()), (404, "no matching route"));
    assert_eq!(r.route, "unmatched");
}

#[test]
fn routes_independently_to_multiple_upstreams() {
    let mut s = shared(
        vec![route("/api/users", "users"), route("/api/auth", "auth")],
        &["users", "auth"],
    );
    let a = s.decide("/api/users/5", &HeaderMap::new(), None).unwrap();
    assert_eq!(s.upstreams.pool_at(a.upstream).name(), "users");
    let b = s.decide("/api/auth/login", &HeaderMap::new(), None).unwrap();
    assert_eq!(s.upstreams.pool_at(b.upstream).name(), "auth");
    assert_eq!(s.router.routes()[b.route].path, "/api/auth");
}

#[test]
fn api_key_auth_rejects_request_without_key() {
    let mut r = route("/api/users", "users");
    r.auth = Some(AuthConfig::ApiKey {
        header: "X-API-Key".to_string(),
        keys: vec!["clave-secreta".to_string()],
    });
    let mut s = shared(vec![r], &["users"]);
    assert_eq!(
        refused(&mut s, "/api/users/1", &HeaderMap::new(), None),
        (401, "falta el header de autenticación".to_string())
    );
}

#[test]
fn api_key_auth_accepts_request_with_valid_key() {
    let config = AuthConfig::ApiKey {
        header: "X-API-Key".to_string(),
        keys: vec!["clave-secreta".to_string()],
    };
    let mut headers = HeaderMap::new();
    headers.insert("X-API-Key", HeaderValue::from_static("clave-secreta"));
    assert!(check_auth(&config, &headers).is_ok());
    let mut r = route("/api/users", "users");
    r.auth = Some(config);
    let mut s = shared(vec![r], &["users"]);
    assert!(s.decide("/api/users/1", &headers, None).is_ok());
}

#[test]
fn jwt_auth_rejects_token_signed_with_wrong_secret() {
    let mut r = route("/api/users", "users");
    r.auth = Some(AuthConfig::Jwt {
        secret: "secreto-de-raptor".to_string(),
        issuer: None,
        audience: None,
    });
    let mut s = shared(vec![r], &["users"]);
    let bad_token = sign_hs256("secreto-equivocado", r#"{"exp":9999999999}"#);
    assert_eq!(
        refused(&mut s, "/api/users/1", &bearer(&bad_token), None),
        (401, "firma del JWT inválida".to_string())
    );
}

#[test]
fn jwt_auth_accepts_valid_signed_token() {
    let mut r = route("/api/users", "users");
    r.auth = Some(AuthConfig::Jwt {
        secret: "secreto-de-raptor".to_string(),
        issuer: None,
        audience: None,
    });
    let mut s = shared(vec![r], &["users"]);
    let token = sign_hs256("secreto-de-raptor", r#"{"exp":9999999999}"#);
    assert!(s.decide("/api/users/1", &bearer(&token), None).is_ok());
}

#[test]
fn public_route_ignores_missing_credentials() {
    let mut s = shared(vec![route("/api/users", "users")], &["users"]);
    assert!(s.decide("/api/users/1", &HeaderMap::new(), None).is_ok());
}

fn limited(requests: u32) -> Shared {
    let mut r = route("/api/users", "users");
    r.rate_limit = Some(RateLimitConfig { requests, window_secs: 60 });
    shared(vec![r], &["users"])
}

#[test]
fn rate_limit_returns_429_after_exceeding_the_budget() {
    let mut s = limited(2);
    let headers = HeaderMap::new();
    assert!(s.decide("/api/users/1", &headers, Some("203.0.113.10")).is_ok());
    assert!(s.decide("/api/users/1", &headers, Some("203.0.113.10")).is_ok());
    let r = s.decide("/api/users/1", &headers, Some("203.0.113.10")).unwrap_err();
    assert_eq!((r.status, r.message.as_str()), (429, "rate limit exceeded"));
    assert!(r.over_limit && r.counted);
}

#[test]
fn rate_limit_tracks_clients_independently_end_to_end() {
    let mut s = limited(1);
    let headers = HeaderMap::new();
    assert!(s.decide("/api/users/1", &headers, Some("203.0.113.10")).is_ok());
    assert_eq!(refused(&mut s, "/api/users/1", &headers, Some("203.0.113.10")).0, 429);
    assert!(s.decide("/api/users/1", &headers, Some("203.0.113.20")).is_ok());
}

#[test]
fn clients_without_an_address_share_a_bucket() {
    let mut s = limited(1);
    let headers = HeaderMap::new();
    assert!(s.decide_at("/api/users", &headers, None, 0, 0).is_ok());
    assert!(s.decide_at("/api/users", &headers, None, 0, 0).is_err());
    assert!(s.decide_at("/api/users", &headers, Some("unknown"), 0, 0).is_err());
    assert!(s.decide_at("/api/users", &headers, None, 0, 60_000_000_000).is_ok());
}

#[test]
fn refused_credentials_spend_no_token() {
    let mut r = route("/x", "users");
    r.rate_limit = Some(RateLimitConfig { requests: 1, window_secs: 60 });
    r.auth = Some(AuthConfig::ApiKey { header: "k".to_string(), keys: vec!["v".to_string()] });
    let mut s = shared(vec![r], &["users"]);
    assert_eq!(refused(&mut s, "/x", &HeaderMap::new(), None).0, 401);
    let mut headers = HeaderMap::new();
    headers.insert("k", HeaderValue::from_static("v"));
    assert!(s.decide("/x", &headers, None).is_ok());
    assert_eq!(refused(&mut s, "/x", &headers, None).0, 429);
}

#[test]
fn unknown_upstream_is_a_bad_gateway() {
    let mut s = shared(vec![route("/x", "nobody")], &["users"]);
    assert_eq!(
        refused(&mut s, "/x", &HeaderMap::new(), None),
        (502, "unknown upstream".to_string())
    );
}

#[test]
fn hop_by_hop_headers_are_not_forwarded_to_backend() {
    let mut headers = HeaderMap::new();
    headers.insert("Connection", HeaderValue::from_static("keep-alive"));
    headers.insert("X-Custom-Header", HeaderValue::from_static("esto-si-tiene-que-llegar"));
    for name in [
        "keep-alive",
        "proxy-authenticate",
        "proxy-authorization",
        "te",
        "trailers",
        "transfer-encoding",
        "upgrade",
    ] {
        headers.append(name, HeaderValue::from_static("x"));
        headers.append(name, HeaderValue::from_static("y"));
    }
    sanitize_and_augment_headers(&mut headers, None, "https");
    assert_eq!(headers.len(), 2);
    assert_eq!(headers["x-custom-header"], "esto-si-tiene-que-llegar");
    assert_eq!(headers["x-forwarded-proto"], "https");
}

#[test]
fn forwarded_for_grows_at_its_end() {
    let mut headers = HeaderMap::new();
    sanitize_and_augment_headers(&mut headers, Some("10.0.0.1"), "http");
    assert_eq!(headers["x-forwarded-for"], "10.0.0.1");
    sanitize_and_augment_headers(&mut headers, Some("10.0.0.2"), "http");
    assert_eq!(headers["x-forwarded-for"], "10.0.0.1, 10.0.0.2");
    headers.insert("x-forwarded-for", HeaderValue::from_bytes(b"\xff").unwrap());
    sanitize_and_augment_headers(&mut headers, Some("10.0.0.3"), "bad\nscheme");
    assert_eq!(headers["x-forwarded-for"], "10.0.0.3");
    assert_eq!(headers["x-forwarded-proto"], "http");
}

#[test]
fn request_is_planned_for_the_backend() {
    let mut headers = HeaderMap::new();
    headers.insert("host", HeaderValue::from_static("public.example"));
    headers.insert("accept", HeaderValue::from_static("*/*"));
    let plan = plan_forward(
        "http://backend:3001//",
        Some("/api/users?x=1"),
        &headers,
        Some("public.example"),
        "id-1",
    )
    .unwrap();
    assert_eq!(plan.uri, "http://backend:3001/api/users?x=1");
    assert_eq!(plan.headers["host"], "backend:3001");
    assert_eq!(plan.headers["x-forwarded-host"], "public.example");
    assert_eq!(plan.headers["x-request-id"], "id-1");
    assert_eq!(plan.headers["accept"], "*/*");
    assert_eq!(plan.headers.len(), 4);
    assert_eq!(headers.len(), 2);
}

#[test]
fn request_without_a_path_goes_to_the_root() {
    let plan = plan_forward("http://b", None, &HeaderMap::new(), None, "i").unwrap();
    assert_eq!(plan.uri, "http://b/");
    assert!(plan.headers.get("x-forwarded-host").is_none());
    let no_authority = plan_forward("", Some("/x"), &HeaderMap::new(), None, "i").unwrap();
    assert!(no_authority.headers.get("host").is_none());
}

#[test]
fn bad_uri_or_id_is_a_connect_error() {
    let headers = HeaderMap::new();
    let bad = plan_forward("http://a b", Some("/"), &headers, None, "i");
    assert!(matches!(bad, Err(AttemptFailure::ConnectError)));
    let bad = plan_forward("http://a", Some("/"), &headers, None, "a\nb");
    assert!(matches!(bad, Err(AttemptFailure::ConnectError)));
    let skipped = plan_forward("http://a", Some("/"), &headers, Some("a\nb"), "i").unwrap();
    assert!(skipped.headers.get("x-forwarded-host").is_none());
    assert!(is_uri("http://a/b"));
    assert!(!is_uri("http://a b"));
}

#[test]
fn request_id_is_forwarded_behind_the_one_that_came() {
    let mut headers = HeaderMap::new();
    headers.insert("x-request-id", HeaderValue::from_static("from-client"));
    let plan = plan_forward("http://a", None, &headers, None, "ours").unwrap();
    let ids: Vec<&HeaderValue> = plan.headers.get_all("x-request-id").iter().collect();
    assert_eq!(ids, vec!["from-client", "ours"]);
}

#[test]
fn request_ids_are_uuids() {
    let id = new_request_id();
    assert_eq!(id.len(), 36);
    assert!(uuid::Uuid::parse_str(&id).is_ok());
    assert_ne!(id, new_request_id());
}

#[test]
fn only_idempotent_methods_are_retried() {
    for method in ["GET", "HEAD", "OPTIONS", "PUT", "DELETE"] {
        assert!(is_retryable_method(method));
    }
    for method in ["POST", "PATCH", "CONNECT", "TRACE", "get"] {
        assert!(!is_retryable_method(method));
    }
}

fn pool(servers: &[&str], max_attempts: u32) -> UpstreamPool {
    UpstreamPool::new(
        "users".to_string(),
        &upstream_with(
            servers,
            RetryConfig { max_attempts, backoff_ms: 10 },
            CircuitBreakerConfig::default(),
        ),
    )
}

#[test]
fn retries_against_a_different_backend_when_first_is_unreachable() {
    let mut pool = pool(&["http://127.0.0.1:1", "http://healthy"], 2);
    let mut attempts = Attempts::new("GET", &pool);
    let Step::Forward(guard) = attempts.next(&mut pool) else { panic!() };
    assert_eq!(guard.backend(), 0);
    assert_eq!(pool.backends()[0].active_connections(), 1);
    let after = attempts.finish(&mut pool, guard, Outcome::Unreachable);
    assert_eq!(after, AfterAttempt::Retry(10));
    let Step::Forward(guard) = attempts.next(&mut pool) else { panic!() };
    assert_eq!(guard.backend(), 1);
    let after = attempts.finish(&mut pool, guard, Outcome::Answered);
    assert_eq!(after, AfterAttempt::Reply);
    assert_eq!(pool.backends()[0].active_connections(), 0);
    assert_eq!(pool.backends()[1].active_connections(), 0);
}

#[test]
fn does_not_retry_non_idempotent_methods() {
    let mut pool = pool(&["http://127.0.0.1:1"], 3);
    let mut attempts = Attempts::new("POST", &pool);
    let Step::Forward(guard) = attempts.next(&mut pool) else { panic!() };
    let after = attempts.finish(&mut pool, guard, Outcome::Unreachable);
    assert_eq!(after, AfterAttempt::GiveUp);
    assert!(matches!(attempts.next(&mut pool), Step::GiveUp));
    let reply = attempts.reply("/api/users");
    assert_eq!((reply.status, reply.message.as_str()), (502, "upstream unreachable"));
}

#[test]
fn returns_504_when_backend_exceeds_timeout() {
    let config = UpstreamConfig { timeout_ms: 300, ..upstream(&["http://slow"]) };
    let mut pool = UpstreamPool::new("users".to_string(), &config);
    let mut attempts = Attempts::new("GET", &pool);
    let Step::Forward(guard) = attempts.next(&mut pool) else { panic!() };
    let after = attempts.finish(&mut pool, guard, Outcome::TimedOut);
    assert_eq!(after, AfterAttempt::GiveUp);
    let reply = attempts.reply("/api/users");
    assert_eq!((reply.status, reply.message.as_str()), (504, "upstream timeout"));
}

#[test]
fn returns_503_when_no_healthy_backend_in_upstream() {
    let mut pool = pool(&["http://users-1"], 1);
    for _ in 0..3 {
        pool.record_check_result(0, false);
    }
    let mut attempts = Attempts::new("GET", &pool);
    assert!(matches!(attempts.next(&mut pool), Step::GiveUp));
    let reply = attempts.reply("/api/users");
    assert_eq!((reply.status, reply.message.as_str()), (503, "no healthy backend available"));
    assert_eq!(reply.route, "/api/users");
}

#[test]
fn circuit_breaker_opens_after_repeated_real_failures() {
    let mut pool = UpstreamPool::new(
        "users".to_string(),
        &upstream_with(
            &["http://127.0.0.1:1"],
            RetryConfig::default(),
            CircuitBreakerConfig { failure_threshold: 2, open_duration_secs: 30 },
        ),
    );
    for _ in 0..2 {
        let mut attempts = Attempts::new("GET", &pool);
        let Step::Forward(guard) = attempts.next_at(&mut pool, 0, 0) else { panic!() };
        attempts.finish_at(&mut pool, guard, Outcome::Unreachable, 0);
        assert_eq!(attempts.reply("/").status, 502);
    }
    let mut attempts = Attempts::new("GET", &pool);
    assert!(matches!(attempts.next_at(&mut pool, 0, 0), Step::GiveUp));
    assert_eq!(attempts.reply("/").status, 503);
}

#[test]
fn last_failure_is_the_answer() {
    let mut pool = pool(&["http://a"], 3);
    let mut attempts = Attempts::new("GET", &pool);
    for outcome in [Outcome::Unreachable, Outcome::TimedOut] {
        let Step::Forward(guard) = attempts.next(&mut pool) else { panic!() };
        assert_eq!(
            attempts.finish(&mut pool, guard, outcome),
            AfterAttempt::Retry(10)
        );
    }
    for _ in 0..3 {
        pool.record_check_result(0, false);
    }
    assert!(matches!(attempts.next(&mut pool), Step::GiveUp));
    assert_eq!(attempts.reply("/").status, 503);
}

#[test]
fn body_may_be_as_long_as_allowed() {
    assert!(check_body(BodyRead::Complete(10), 10, "/x").is_none());
    let long = check_body(BodyRead::Complete(11), 10, "/x").unwrap();
    assert_eq!((long.status, long.counted), (413, true));
    assert_eq!(check_body(BodyRead::TooLarge, 10, "/x").unwrap().status, 413);
    let broken = check_body(BodyRead::Unreadable, 10, "/x").unwrap();
    assert_eq!((broken.status, broken.counted), (400, false));
    assert_eq!(broken.message, "could not read request body");
}

#[test]
fn refusals_are_counted() {
    let mut metrics = Metrics::new();
    let mut s = limited(0);
    let r = s.decide("/api/users", &HeaderMap::new(), None).unwrap_err();
    note_refusal(&mut metrics, "GET", &r, 1);
    assert_eq!(metrics.total_requests(), 1);
    assert_eq!(metrics.rejections("/api/users"), 1);
    let broken = check_body(BodyRead::Unreadable, 10, "/x").unwrap();
    note_refusal(&mut metrics, "GET", &broken, 1);
    assert_eq!(metrics.total_requests(), 1);
    assert_eq!(metrics.total_gateway_failures(), 0);
}

#[test]
fn relayed_errors_are_no_gateway_failures() {
    let mut metrics = Metrics::new();
    note_response(&mut metrics, "GET", "/x", 502, 1);
    assert_eq!((metrics.total_requests(), metrics.total_gateway_failures()), (1, 0));
    let pool = pool(&[], 1);
    let reply = Attempts::new("GET", &pool).reply("/x");
    note_refusal(&mut metrics, "GET", &reply, 1);
    assert_eq!((metrics.total_requests(), metrics.total_gateway_failures()), (2, 1));
}

#[test]
fn answer_that_is_too_long_counts_for_none() {
    assert_eq!(check_response(BodyRead::Complete(10), 10), Outcome::Answered);
    assert_eq!(check_response(BodyRead::Complete(11), 10), Outcome::Unreachable);
    assert_eq!(check_response(BodyRead::TooLarge, 10), Outcome::Unreachable);
    assert_eq!(check_response(BodyRead::Unreadable, 10), Outcome::Unreachable);
}

fn headers_with(names: usize) -> HeaderMap {
    let mut headers = HeaderMap::new();
    for i in 0..names {
        let name = HeaderName::from_bytes(format!("h{i}").as_bytes()).unwrap();
        headers.try_insert(name, HeaderValue::from_static("v")).unwrap();
    }
    headers
}

#[test]
fn headers_are_prepared_while_there_is_room() {
    let mut headers = HeaderMap::new();
    assert!(room_for(&headers, 6554));
    assert!(!room_for(&headers, 6555));
    assert!(sanitize_and_augment_headers(&mut headers, Some("1.2.3.4"), "http"));
    assert_eq!(headers.len(), 2);
    let mut many = headers_with(10_000);
    assert!(!room_for(&many, 1));
    assert!(sanitize_and_augment_headers(&mut many, Some("1.2.3.4"), "http"));
    assert_eq!(many.len(), 10_002);
    let mut full = headers_with(24_576);
    assert!(!sanitize_and_augment_headers(&mut full, Some("1.2.3.4"), "http"));
    assert_eq!(full.len(), 24_576);
    assert!(plan_forward("http://a", None, &full, None, "id").is_err());
}

#[test]
fn names_with_quotation_marks_are_not_looked_for() {
    let mut headers = HeaderMap::new();
    let name = HeaderName::from_lowercase(b"x\"y").unwrap();
    headers.insert(name, HeaderValue::from_static("k"));
    assert_eq!(text_of_header(&headers, "x\"y"), None);
    let config = AuthConfig::ApiKey { header: "x\"y".to_string(), keys: vec!["k".to_string()] };
    assert_eq!(check_auth(&config, &headers), Err(AuthError::MissingCredentials));
    headers.insert("x-y", HeaderValue::from_static("k"));
    assert_eq!(text_of_header(&headers, "X-Y"), Some("k".to_string()));
}

#[test]
fn long_texts_that_are_no_names_are_not_looked_for() {
    let text = "x-very-long header-name-with-a-space-in-it-that-no-header-can-have-0";
    assert!(text.len() > 64);
    let mut headers = HeaderMap::new();
    headers.insert(text, HeaderValue::from_static("k"));
    assert_eq!(text_of_header(&headers, text), None);
    let config = AuthConfig::ApiKey { header: text.to_string(), keys: vec!["k".to_string()] };
    assert_eq!(check_auth(&config, &headers), Err(AuthError::MissingCredentials));
    let name = "X-Very-Long-Header-Name-Without-A-Space-In-It-That-A-Header-Can-Have-0";
    headers.insert(name, HeaderValue::from_static("v"));
    assert_eq!(text_of_header(&headers, name), Some("v".to_string()));
}

fn config(routes: Vec<RouteConfig>) -> Config {
    let mut upstreams = SortedMap::new();
    upstreams.insert("users".to_string(), upstream(&["http://a"]));
    Config {
        server: ServerConfig {
            address: "0.0.0.0:8080".to_string(),
            tls: None,
            admin: None,
            max_body_bytes: 1,
        },
        routes,
        upstreams,
        logging: LoggingConfig::default(),
    }
}

#[test]
fn invalid_configuration_is_not_taken() {
    let s = Shared::from_config(config(vec![route("/", "users")])).unwrap();
    assert_eq!(s.router.routes().len(), 1);
    assert_eq!(s.upstreams.len(), 1);
    let e = Shared::from_config(config(vec![])).unwrap_err();
    assert_eq!(
        e.message(),
        "configuración inválida: debe existir al menos una ruta configurada"
    );
}
