use raptor::config::{
    extract_host, CircuitBreakerConfig, Config, ConfigError, ConfigSource, HealthCheckConfig,
    LoadBalancerStrategy, LoggingConfig, RetryConfig, RouteConfig, ServerConfig, ServerEntry,
    UpstreamConfig,
};
use raptor::sorted_map::SortedMap;

fn minimal_upstream(servers: Vec<&str>) -> UpstreamConfig {
    UpstreamConfig {
        load_balancer: LoadBalancerStrategy::RoundRobin,
        servers: servers.into_iter().map(ServerEntry::from).collect(),
        health_check: HealthCheckConfig::default(),
        timeout_ms: 5000,
        retry: RetryConfig::default(),
        circuit_breaker: CircuitBreakerConfig::default(),
        allow_link_local_upstreams: false,
    }
}

fn minimal_config(upstream: UpstreamConfig) -> Config {
    let mut upstreams = SortedMap::new();
    upstreams.insert("svc".to_string(), upstream);
    Config {
        server: ServerConfig {
            address: "0.0.0.0:8080".to_string(),
            tls: None,
            admin: None,
            max_body_bytes: 10 * 1024 * 1024,
        },
        routes: vec![RouteConfig {
            path: "/api".to_string(),
            upstream: "svc".to_string(),
            auth: None,
            rate_limit: None,
        }],
        upstreams,
        logging: LoggingConfig::default(),
    }
}

fn finding(config: &Config) -> String {
    match config.validate() {
        Err(ConfigError::Invalid(m)) => m,
        other => panic!("{other:?}"),
    }
}

#[test]
fn rejects_link_local_upstream_by_default() {
    let config = minimal_config(minimal_upstream(vec!["http://169.254.169.254"]));
    let err = config.validate().unwrap_err();
    assert!(matches!(err, ConfigError::Invalid(_)));
}

#[test]
fn allows_link_local_upstream_when_explicitly_enabled() {
    let mut upstream = minimal_upstream(vec!["http://169.254.169.254"]);
    upstream.allow_link_local_upstreams = true;
    let config = minimal_config(upstream);
    assert!(config.validate().is_ok());
}

#[test]
fn allows_ordinary_private_and_loopback_upstreams() {
    let config = minimal_config(minimal_upstream(vec![
        "http://10.0.0.5:3001",
        "http://192.168.1.20:3001",
        "http://127.0.0.1:3001",
        "http://localhost:3001",
    ]));
    assert!(config.validate().is_ok());
}

#[test]
fn rejects_upstream_without_servers() {
    let config = minimal_config(minimal_upstream(vec![]));
    assert!(config.validate().is_err());
    assert_eq!(finding(&config), "el upstream 'svc' debe tener al menos un servidor");
}

#[test]
fn extract_host_handles_scheme_port_and_path() {
    assert_eq!(extract_host("http://10.0.0.5:3001/algo"), Some("10.0.0.5"));
    assert_eq!(extract_host("https://example.com"), Some("example.com"));
    assert_eq!(extract_host("http://localhost:8080"), Some("localhost"));
}

#[test]
fn extract_host_needs_a_scheme() {
    assert_eq!(extract_host("localhost:8080"), None);
    assert_eq!(extract_host("http://"), Some(""));
    assert_eq!(extract_host("a://b://c"), Some("b"));
}

#[test]
fn host_stands_behind_user_information() {
    assert_eq!(extract_host("http://u@10.0.0.5:3001/a@b"), Some("10.0.0.5"));
    assert_eq!(extract_host("http://u:p@x@example.com:80"), Some("example.com"));
    assert_eq!(extract_host("http://example.com?x=@y"), Some("example.com"));
    assert_eq!(extract_host("http://example.com#x"), Some("example.com"));
}

#[test]
fn user_information_does_not_hide_a_link_local_server() {
    for url in [
        "http://u@169.254.169.254",
        "http://u:p@169.254.169.254:80/x",
        "http://a@b@169.254.0.1",
        "http://169.254.169.254?x",
        "http://169.254.169.254#x",
    ] {
        let mut upstream = minimal_upstream(vec![url]);
        assert!(matches!(
            minimal_config(upstream.clone()).validate(),
            Err(ConfigError::Invalid(_))
        ));
        upstream.allow_link_local_upstreams = true;
        assert!(minimal_config(upstream).validate().is_ok());
    }
    let other = minimal_upstream(vec!["http://169.254.169.254@example.com"]);
    assert!(minimal_config(other).validate().is_ok());
}

#[test]
fn link_local_is_a_range_of_addresses() {
    let host = |h: &str| minimal_config(minimal_upstream(vec![h])).validate().is_ok();
    assert!(!host("http://169.254.0.0:80/x"));
    assert!(!host("https://169.254.255.255"));
    assert!(host("http://169.254.256.1"));
    assert!(host("http://169.254.1"));
    assert!(host("http://169.254.01.1"));
    assert!(host("http://169.255.1.1"));
}

#[test]
fn every_rule_is_told() {
    let good = || minimal_upstream(vec!["http://a"]);
    let mut config = minimal_config(good());
    config.routes = vec![];
    assert_eq!(finding(&config), "debe existir al menos una ruta configurada");
    let mut config = minimal_config(good());
    config.upstreams = SortedMap::new();
    assert_eq!(finding(&config), "debe existir al menos un upstream configurado");
    let config = minimal_config(minimal_upstream(vec!["http://a", "ftp://b"]));
    assert_eq!(
        finding(&config),
        "el servidor 'ftp://b' del upstream 'svc' debe ser una URL http(s) válida"
    );
    let mut u = good();
    u.health_check.healthy_threshold = 0;
    assert_eq!(
        finding(&minimal_config(u)),
        "healthy_threshold del upstream 'svc' debe ser mayor a 0"
    );
    let mut u = good();
    u.health_check.unhealthy_threshold = 0;
    assert_eq!(
        finding(&minimal_config(u)),
        "unhealthy_threshold del upstream 'svc' debe ser mayor a 0"
    );
    let mut u = good();
    u.timeout_ms = 0;
    assert_eq!(finding(&minimal_config(u)), "timeout_ms del upstream 'svc' debe ser mayor a 0");
    let mut u = good();
    u.retry.max_attempts = 0;
    assert_eq!(
        finding(&minimal_config(u)),
        "retry.max_attempts del upstream 'svc' debe ser al menos 1"
    );
    let mut u = good();
    u.circuit_breaker.failure_threshold = 0;
    assert_eq!(
        finding(&minimal_config(u)),
        "circuit_breaker.failure_threshold del upstream 'svc' debe ser mayor a 0"
    );
    let mut config = minimal_config(good());
    config.routes[0].path = "api".to_string();
    assert_eq!(finding(&config), "la ruta 'api' debe comenzar con '/'");
    let mut config = minimal_config(good());
    config.routes[0].upstream = "otro".to_string();
    assert_eq!(
        finding(&config),
        "la ruta '/api' referencia el upstream 'otro', que no existe en 'upstreams'"
    );
}

#[test]
fn loading_tells_what_went_wrong() {
    let read = Config::load("r.yaml", ConfigSource::Unreadable("no such file".to_string()));
    assert_eq!(
        read.unwrap_err().message(),
        "no se pudo leer el archivo de configuración 'r.yaml': no such file"
    );
    let parse = Config::load("r.yaml", ConfigSource::Malformed("line 1".to_string()));
    assert_eq!(parse.unwrap_err().message(), "error de parseo YAML en 'r.yaml': line 1");
    let bad = minimal_config(minimal_upstream(vec![]));
    let invalid = Config::load("r.yaml", ConfigSource::Parsed(bad));
    assert_eq!(
        invalid.unwrap_err().message(),
        "configuración inválida: el upstream 'svc' debe tener al menos un servidor"
    );
    let good = minimal_config(minimal_upstream(vec!["http://a"]));
    let loaded = Config::load("r.yaml", ConfigSource::Parsed(good)).unwrap();
    assert_eq!(loaded.routes[0].path, "/api");
}

#[test]
fn defaults_are_the_documented_ones() {
    let h = HealthCheckConfig::default();
    assert_eq!(h.path, "/health");
    assert_eq!((h.interval_secs, h.timeout_secs), (10, 2));
    assert_eq!((h.healthy_threshold, h.unhealthy_threshold), (2, 3));
    let c = CircuitBreakerConfig::default();
    assert_eq!((c.failure_threshold, c.open_duration_secs), (5, 30));
    assert_eq!(LoggingConfig::default().level, "info");
    assert_eq!(raptor::config::default_max_body_bytes(), 10485760);
    assert_eq!(raptor::config::default_timeout_ms(), 5000);
    assert_eq!(raptor::config::default_api_key_header(), "X-API-Key");
}

#[test]
fn server_entries_have_a_weight() {
    let plain = ServerEntry::from("http://a");
    assert_eq!((plain.url(), plain.weight()), ("http://a", 1));
    let heavy = ServerEntry::Weighted { url: "http://b".to_string(), weight: 7 };
    assert_eq!((heavy.url(), heavy.weight()), ("http://b", 7));
}
