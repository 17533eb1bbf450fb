use raptor::config::{RateLimitConfig, RouteConfig};
use raptor::router::Router;

fn route(path: &str, upstream: &str) -> RouteConfig {
    RouteConfig {
        path: path.to_string(),
        upstream: upstream.to_string(),
        auth: None,
        rate_limit: None,
    }
}

#[test]
fn matches_exact_path() {
    let router = Router::new(vec![route("/api/users", "http://localhost:3001")]);
    let m = router.match_route("/api/users").unwrap();
    assert_eq!(m.upstream, "http://localhost:3001");
}

#[test]
fn matches_prefix_with_subpath() {
    let router = Router::new(vec![route("/api/users", "http://localhost:3001")]);
    let m = router.match_route("/api/users/42").unwrap();
    assert_eq!(m.upstream, "http://localhost:3001");
}

#[test]
fn does_not_match_unrelated_prefix() {
    let router = Router::new(vec![route("/api/users", "http://localhost:3001")]);
    assert!(router.match_route("/api/usersomething").is_none());
}

#[test]
fn longest_prefix_wins() {
    let router = Router::new(vec![
        route("/api", "http://generic:3000"),
        route("/api/users", "http://users:3001"),
    ]);
    let m = router.match_route("/api/users/42").unwrap();
    assert_eq!(m.upstream, "http://users:3001");
}

#[test]
fn no_match_returns_none() {
    let router = Router::new(vec![route("/api/users", "http://localhost:3001")]);
    assert!(router.match_route("/nope").is_none());
}

#[test]
fn route_without_rate_limit_has_none() {
    let mut router = Router::new(vec![route("/api/users", "http://users:3001")]);
    assert!(router.rate_limiter_for("/api/users").is_none());
}

#[test]
fn route_with_rate_limit_gets_its_own_limiter() {
    let mut r = route("/api/users", "http://users:3001");
    r.rate_limit = Some(RateLimitConfig { requests: 2, window_secs: 60 });
    let mut router = Router::new(vec![r]);
    let limiter = router.rate_limiter_for("/api/users").unwrap();
    assert!(limiter.check("client-a"));
    assert!(limiter.check("client-a"));
    assert!(!limiter.check("client-a"));
}

#[test]
fn routes_are_sorted_by_byte_length_and_stable() {
    let router = Router::new(vec![
        route("/a", "1"),
        route("/bb", "2"),
        route("/c", "3"),
        route("/ñ", "4"),
        route("/dddd", "5"),
    ]);
    let order: Vec<&str> = router.routes().iter().map(|r| r.upstream.as_str()).collect();
    assert_eq!(order, vec!["5", "2", "4", "1", "3"]);
}

#[test]
fn route_that_ends_in_a_slash_serves_everything_below() {
    let router = Router::new(vec![route("/static/", "files")]);
    assert!(router.match_route("/static/app.js").is_some());
    assert!(router.match_route("/static/").is_some());
    assert!(router.match_route("/static").is_none());
    let root = Router::new(vec![route("/", "all")]);
    assert!(root.match_route("/anything").is_some());
}

#[test]
fn of_equal_paths_the_first_route_serves() {
    let router = Router::new(vec![route("/x", "first"), route("/x", "second")]);
    assert_eq!(router.match_route("/x/1").unwrap().upstream, "first");
}

#[test]
fn of_equal_paths_the_last_limit_stands() {
    let mut a = route("/x", "first");
    a.rate_limit = Some(RateLimitConfig { requests: 5, window_secs: 60 });
    let mut b = route("/x", "second");
    b.rate_limit = Some(RateLimitConfig { requests: 1, window_secs: 60 });
    let mut router = Router::new(vec![a, b]);
    let limiter = router.rate_limiter_for("/x").unwrap();
    assert!(limiter.check_at("c", 0));
    assert!(!limiter.check_at("c", 0));
}
