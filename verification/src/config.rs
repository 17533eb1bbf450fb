//! Configuration of the gateway, and the rules that a configuration has to
//! meet before it is put to use.

use crate::sorted_map::SortedMap;
use crate::text;
use vstd::prelude::*;

verus! {

/// Where the certificate and the private key of the TLS listener are.
#[derive(Debug, Clone)]
pub struct TlsConfig {
    /// Path of the certificate chain, in PEM format.
    pub cert_path: String,
    /// Path of the private key, in PEM format.
    pub key_path: String,
}

/// The listener of the admin API, apart from the public one.
#[derive(Debug, Clone)]
pub struct AdminConfig {
    /// Address to listen on, such as `127.0.0.1:9090`.
    pub address: String,
}

/// The public listener.
#[derive(Debug, Clone)]
pub struct ServerConfig {
    /// Address to listen on, such as `0.0.0.0:8080`.
    pub address: String,
    /// When present, the listener terminates TLS; otherwise it serves plain HTTP.
    pub tls: Option<TlsConfig>,
    /// When present, a second listener serves the admin API and the metrics.
    pub admin: Option<AdminConfig>,
    /// The largest body, of a request or of a response, that is held in memory.
    pub max_body_bytes: u64,
}

/// How many requests a client may send to a route.
#[derive(Debug, Clone, Copy)]
pub struct RateLimitConfig {
    /// Requests allowed in a window.
    pub requests: u32,
    /// Length of the window, in seconds.
    pub window_secs: u64,
}

/// How a route authenticates its callers. A route without one is public.
#[derive(Debug, Clone)]
pub enum AuthConfig {
    ApiKey {
        /// Name of the header that carries the key.
        header: String,
        /// The keys that are accepted.
        keys: Vec<String>,
    },
    Jwt {
        /// The shared HS256 secret.
        secret: String,
        issuer: Option<String>,
        audience: Option<String>,
    },
}

/// A path prefix and the upstream that serves it.
#[derive(Debug, Clone)]
pub struct RouteConfig {
    /// Path prefix, such as `/api/users`.
    pub path: String,
    /// Name of the upstream.
    pub upstream: String,
    pub auth: Option<AuthConfig>,
    pub rate_limit: Option<RateLimitConfig>,
}

/// How an upstream spreads its requests over its servers.
#[derive(Debug, Clone, Copy, PartialEq, Eq, Structural)]
pub enum LoadBalancerStrategy {
    RoundRobin,
    WeightedRoundRobin,
    LeastConnections,
    Random,
}

impl Default for LoadBalancerStrategy {
    fn default() -> (s: Self)
        ensures
            s == LoadBalancerStrategy::RoundRobin,
    {
        LoadBalancerStrategy::RoundRobin
    }
}

impl LoadBalancerStrategy {
    /// The name of the strategy, as the admin API shows it.
    pub open spec fn spec_label(self) -> Seq<char> {
        match self {
            LoadBalancerStrategy::RoundRobin => "RoundRobin"@,
            LoadBalancerStrategy::WeightedRoundRobin => "WeightedRoundRobin"@,
            LoadBalancerStrategy::LeastConnections => "LeastConnections"@,
            LoadBalancerStrategy::Random => "Random"@,
        }
    }

    /// The name of the strategy, as the admin API shows it.
    pub fn label(&self) -> (s: &'static str)
        ensures
            s@ == self.spec_label(),
            *self == LoadBalancerStrategy::RoundRobin ==> s@ == "RoundRobin"@,
            *self == LoadBalancerStrategy::WeightedRoundRobin ==> s@ == "WeightedRoundRobin"@,
            *self == LoadBalancerStrategy::LeastConnections ==> s@ == "LeastConnections"@,
            *self == LoadBalancerStrategy::Random ==> s@ == "Random"@,
    {
        match self {
            LoadBalancerStrategy::RoundRobin => "RoundRobin",
            LoadBalancerStrategy::WeightedRoundRobin => "WeightedRoundRobin",
            LoadBalancerStrategy::LeastConnections => "LeastConnections",
            LoadBalancerStrategy::Random => "Random",
        }
    }
}

/// Header that carries an API key where a route names none.
pub fn default_api_key_header() -> (s: String)
    ensures
        s@ == "X-API-Key"@,
{
    "X-API-Key".to_string()
}

/// The periodic probes of an upstream's servers.
#[derive(Debug)]
pub struct HealthCheckConfig {
    /// Path to request.
    pub path: String,
    /// Seconds between two probes.
    pub interval_secs: u64,
    /// Seconds after which a probe has failed.
    pub timeout_secs: u64,
    /// Successful probes in a row that make a server healthy again.
    pub healthy_threshold: u32,
    /// Failed probes in a row that make a server unhealthy.
    pub unhealthy_threshold: u32,
}

impl Clone for HealthCheckConfig {
    fn clone(&self) -> (c: Self)
        ensures
            c == *self,
    {
        HealthCheckConfig {
            path: self.path.clone(),
            interval_secs: self.interval_secs,
            timeout_secs: self.timeout_secs,
            healthy_threshold: self.healthy_threshold,
            unhealthy_threshold: self.unhealthy_threshold,
        }
    }
}

/// Path that is probed where an upstream names none.
pub fn default_health_path() -> (s: String)
    ensures
        s@ == "/health"@,
{
    "/health".to_string()
}

/// Seconds between two probes where an upstream names none.
pub fn default_interval_secs() -> (n: u64)
    ensures
        n == 10,
{
    10
}

/// Seconds after which a probe has failed where an upstream names none.
pub fn default_timeout_secs() -> (n: u64)
    ensures
        n == 2,
{
    2
}

/// Successful probes that make a server healthy where an upstream names none.
pub fn default_healthy_threshold() -> (n: u32)
    ensures
        n == 2,
{
    2
}

/// Failed probes that make a server unhealthy where an upstream names none.
pub fn default_unhealthy_threshold() -> (n: u32)
    ensures
        n == 3,
{
    3
}

impl Default for HealthCheckConfig {
    fn default() -> (c: Self)
        ensures
            c.path@ == "/health"@,
            c.interval_secs == 10,
            c.timeout_secs == 2,
            c.healthy_threshold == 2,
            c.unhealthy_threshold == 3,
    {
        HealthCheckConfig {
            path: default_health_path(),
            interval_secs: default_interval_secs(),
            timeout_secs: default_timeout_secs(),
            healthy_threshold: default_healthy_threshold(),
            unhealthy_threshold: default_unhealthy_threshold(),
        }
    }
}

/// How often a failed request is sent again.
#[derive(Debug, Clone, Copy)]
pub struct RetryConfig {
    /// Attempts in all, the first one among them.
    pub max_attempts: u32,
    /// Milliseconds between two attempts.
    pub backoff_ms: u64,
}

/// Attempts where an upstream names none: no retry.
pub fn default_max_attempts() -> (n: u32)
    ensures
        n == 1,
{
    1
}

/// Milliseconds between two attempts where an upstream names none.
pub fn default_backoff_ms() -> (n: u64)
    ensures
        n == 100,
{
    100
}

impl Default for RetryConfig {
    fn default() -> (c: Self)
        ensures
            c == (RetryConfig { max_attempts: 1, backoff_ms: 100 }),
    {
        RetryConfig { max_attempts: default_max_attempts(), backoff_ms: default_backoff_ms() }
    }
}

/// When a server's circuit opens, and for how long.
#[derive(Debug, Clone, Copy)]
pub struct CircuitBreakerConfig {
    /// Failed requests in a row that open the circuit.
    pub failure_threshold: u32,
    /// Seconds that the circuit stays open before a trial request.
    pub open_duration_secs: u64,
}

/// Failed requests that open a circuit where an upstream names none.
pub fn default_cb_failure_threshold() -> (n: u32)
    ensures
        n == 5,
{
    5
}

/// Seconds that a circuit stays open where an upstream names none.
pub fn default_cb_open_duration_secs() -> (n: u64)
    ensures
        n == 30,
{
    30
}

impl Default for CircuitBreakerConfig {
    fn default() -> (c: Self)
        ensures
            c == (CircuitBreakerConfig { failure_threshold: 5, open_duration_secs: 30 }),
    {
        CircuitBreakerConfig {
            failure_threshold: default_cb_failure_threshold(),
            open_duration_secs: default_cb_open_duration_secs(),
        }
    }
}

/// Milliseconds that an attempt may take where an upstream names none.
pub fn default_timeout_ms() -> (n: u64)
    ensures
        n == 5000,
{
    5000
}

/// Largest body in bytes where the server section names none: 10 MiB.
pub fn default_max_body_bytes() -> (n: u64)
    ensures
        n == 10 * 1024 * 1024,
{
    10 * 1024 * 1024
}

/// A server of an upstream: its URL alone, or with a weight.
#[derive(Debug, Clone)]
pub enum ServerEntry {
    Plain(String),
    Weighted { url: String, weight: u32 },
}

impl ServerEntry {
    /// The URL of the server.
    pub open spec fn spec_url(self) -> Seq<char> {
        match self {
            ServerEntry::Plain(url) => url@,
            ServerEntry::Weighted { url, .. } => url@,
        }
    }

    /// The weight of the server. A bare URL weighs one.
    pub open spec fn spec_weight(self) -> u32 {
        match self {
            ServerEntry::Plain(_) => 1,
            ServerEntry::Weighted { weight, .. } => weight,
        }
    }

    /// An entry with a URL alone.
    pub fn from(url: &str) -> (e: Self)
        ensures
            e is Plain,
            e.spec_url() == url@,
            e.spec_weight() == 1,
    {
        ServerEntry::Plain(url.to_string())
    }

    /// The URL of the server.
    pub fn url(&self) -> (s: &str)
        ensures
            s@ == self.spec_url(),
    {
        match self {
            ServerEntry::Plain(url) => url.as_str(),
            ServerEntry::Weighted { url, .. } => url.as_str(),
        }
    }

    /// The weight of the server. A bare URL weighs one.
    pub fn weight(&self) -> (w: u32)
        ensures
            w == self.spec_weight(),
    {
        match self {
            ServerEntry::Plain(_) => 1,
            ServerEntry::Weighted { weight, .. } => *weight,
        }
    }
}

/// A group of servers that serve the same requests.
#[derive(Debug, Clone)]
pub struct UpstreamConfig {
    pub load_balancer: LoadBalancerStrategy,
    pub servers: Vec<ServerEntry>,
    pub health_check: HealthCheckConfig,
    /// Milliseconds that an attempt against a server may take.
    pub timeout_ms: u64,
    pub retry: RetryConfig,
    pub circuit_breaker: CircuitBreakerConfig,
    /// Whether a server may have a link-local address (`169.254.0.0/16`).
    /// Cloud providers serve instance metadata there, so that such an address
    /// is more often a slip than a wish.
    pub allow_link_local_upstreams: bool,
}

/// What is logged.
#[derive(Debug, Clone)]
pub struct LoggingConfig {
    /// One of `trace`, `debug`, `info`, `warn` and `error`.
    pub level: String,
}

/// Log level where the configuration names none.
pub fn default_log_level() -> (s: String)
    ensures
        s@ == "info"@,
{
    "info".to_string()
}

impl Default for LoggingConfig {
    fn default() -> (c: Self)
        ensures
            c.level@ == "info"@,
    {
        LoggingConfig { level: default_log_level() }
    }
}

/// A whole configuration.
#[derive(Debug)]
pub struct Config {
    pub server: ServerConfig,
    pub routes: Vec<RouteConfig>,
    pub upstreams: SortedMap<String, UpstreamConfig>,
    pub logging: LoggingConfig,
}

/// Why a configuration cannot be used.
#[derive(Debug, Clone)]
pub enum ConfigError {
    /// The file could not be read.
    Read { path: String, source: String },
    /// The file is no YAML document of the right shape.
    Parse { path: String, source: String },
    /// The document breaks one of the rules; the text says which.
    Invalid(String),
}

impl ConfigError {
    /// The error as a text for people.
    pub open spec fn spec_message(self) -> Seq<char> {
        match self {
            ConfigError::Read { path, source } => "no se pudo leer el archivo de configuración '"@
                + path@ + "': "@ + source@,
            ConfigError::Parse { path, source } => "error de parseo YAML en '"@ + path@ + "': "@
                + source@,
            ConfigError::Invalid(problem) => "configuración inválida: "@ + problem@,
        }
    }

    /// The error as a text for people.
    pub fn message(&self) -> (s: String)
        ensures
            s@ == self.spec_message(),
    {
        match self {
            ConfigError::Read { path, source } => {
                let mut s = text::concat3(
                    "no se pudo leer el archivo de configuración '",
                    path.as_str(),
                    "': ",
                );
                s.append(source.as_str());
                s
            },
            ConfigError::Parse { path, source } => {
                let mut s = text::concat3("error de parseo YAML en '", path.as_str(), "': ");
                s.append(source.as_str());
                s
            },
            ConfigError::Invalid(problem) => text::concat2(
                "configuración inválida: ",
                problem.as_str(),
            ),
        }
    }
}

/// The host in what follows the scheme of a URL: the authority ends before the
/// first `/`, `?` or `#`, and in it the host stands behind the last `@`, with
/// which user information ends, and before the `:` of a port.
pub open spec fn host_in(rest: Seq<char>) -> Seq<char> {
    let authority = text::before_first_of(text::before_first_of(rest, '/', '?'), '#', '#');
    text::before_first_of(text::behind_last(authority, '@'), ':', ':')
}

/// The host that a URL names, which is looked for behind the first `://`.
pub open spec fn host_of(url: Seq<char>) -> Option<Seq<char>> {
    if exists|i: int| text::occurs_at(url, "://"@, i) {
        let i = choose|i: int| first_scheme_end(url, i);
        Some(host_in(url.skip(i + "://"@.len())))
    } else {
        None
    }
}

/// Whether the first `://` of a URL stands at `i`.
pub open spec fn first_scheme_end(url: Seq<char>, i: int) -> bool {
    &&& text::occurs_at(url, "://"@, i)
    &&& forall|j: int| 0 <= j < i ==> !#[trigger] text::occurs_at(url, "://"@, j)
}

/// The host that a URL names, if it has a scheme.
pub fn extract_host(url: &str) -> (host: Option<&str>)
    ensures
        match host {
            Some(h) => host_of(url@) == Some(h@),
            None => host_of(url@) is None,
        },
{
    match text::find_text(url, "://") {
        Some(i) => {
            proof {
                assert(first_scheme_end(url@, i as int));
                let c = choose|c: int| first_scheme_end(url@, c);
                if c < i {
                    assert(text::occurs_at(url@, "://"@, c));
                } else if i < c {
                    assert(!text::occurs_at(url@, "://"@, i as int));
                }
            }
            let end: usize = url.unicode_len();
            let start: usize = i + "://".unicode_len();
            let rest = url.substring_char(start, end);
            assert(rest@ =~= url@.skip(start as int));
            let authority = text::cut_at(text::cut_at(rest, '/', '?'), '#', '#');
            Some(text::cut_at(text::cut_behind(authority, '@'), ':', ':'))
        },
        None => None,
    }
}

/// Whether `host` is an IPv4 address in `169.254.0.0/16`, in dotted decimal
/// notation.
pub open spec fn is_link_local(host: Seq<char>) -> bool {
    exists|c: u8, d: u8|
        host == #[trigger] link_local_address(c, d)
}

/// `169.254.c.d`.
pub open spec fn link_local_address(c: u8, d: u8) -> Seq<char> {
    "169.254."@ + text::decimal(c as nat) + seq!['.'] + text::decimal(d as nat)
}

/// Whether `host` is an IPv4 address in `169.254.0.0/16`.
pub fn link_local(host: &str) -> (r: bool)
    ensures
        r == is_link_local(host@),
{
    let rest = match text::strip_prefix(host, "169.254.") {
        Some(rest) => rest,
        None => {
            proof {
                assert forall|c: u8, d: u8| host@ != #[trigger] link_local_address(c, d) by {
                    assert("169.254."@.is_prefix_of(link_local_address(c, d)));
                }
            }
            return false;
        },
    };
    let parts = text::split_on(rest, '.');
    proof {
        assert forall|c: u8, d: u8| host@ == #[trigger] link_local_address(c, d) implies {
            &&& parts@.len() == 2
            &&& text::is_octet(parts@[0]@)
            &&& text::is_octet(parts@[1]@)
        } by {
            let left = text::decimal(c as nat);
            let right = text::decimal(d as nat);
            assert(rest@ =~= left.push('.') + right) by {
                assert(host@ =~= "169.254."@ + (left.push('.') + right));
                assert(rest@ =~= host@.skip("169.254."@.len() as int));
            }
            text::decimal_digits(c as nat);
            text::decimal_digits(d as nat);
            assert(!left.contains('.'));
            assert(!right.contains('.'));
            text::lemma_pieces_of_joined(left, right, '.');
            text::lemma_pieces_of_joined(right, right, '.');
            assert(text::texts(parts@) == seq![left] + seq![right]);
            assert(text::texts(parts@)[0] == left);
            assert(text::texts(parts@)[1] == right);
        }
    }
    if parts.len() != 2 {
        return false;
    }
    let r = text::octet_text(parts[0].as_str()) && text::octet_text(parts[1].as_str());
    proof {
        if r {
            let c = choose|v: u8| parts@[0]@ == #[trigger] text::decimal(v as nat);
            let d = choose|v: u8| parts@[1]@ == #[trigger] text::decimal(v as nat);
            assert(text::texts(parts@) =~= seq![parts@[0]@, parts@[1]@]);
            text::lemma_two_pieces(rest@, '.', parts@[0]@, parts@[1]@);
            assert(host@ =~= link_local_address(c, d));
        }
    }
    r
}

/// The first of a list of findings, if there is any.
pub open spec fn first_finding(findings: Seq<Option<Seq<char>>>) -> Option<Seq<char>>
    decreases findings.len(),
{
    if findings.len() == 0 {
        None
    } else if findings[0] is Some {
        findings[0]
    } else {
        first_finding(findings.drop_first())
    }
}

proof fn lemma_first_finding(findings: Seq<Option<Seq<char>>>, k: int)
    requires
        0 <= k <= findings.len(),
        forall|i: int| 0 <= i < k ==> #[trigger] findings[i] is None,
        k < findings.len() ==> findings[k] is Some,
    ensures
        first_finding(findings) == if k < findings.len() {
            findings[k]
        } else {
            None
        },
    decreases findings.len(),
{
    if k > 0 {
        assert(findings[0] is None);
        assert forall|i: int| 0 <= i < k - 1 implies #[trigger] findings.drop_first()[i] is None by {
            assert(findings[i + 1] is None);
        }
        lemma_first_finding(findings.drop_first(), k - 1);
    }
}

/// Whether a URL has one of the two schemes that a server may have.
pub open spec fn is_http_url(url: Seq<char>) -> bool {
    "http://"@.is_prefix_of(url) || "https://"@.is_prefix_of(url)
}

/// Whether a URL names a link-local address.
pub open spec fn points_to_link_local(url: Seq<char>) -> bool {
    match host_of(url) {
        Some(host) => is_link_local(host),
        None => false,
    }
}

/// What is wrong with a server of the upstream `name`.
pub open spec fn server_finding(
    name: Seq<char>,
    url: Seq<char>,
    allow_link_local: bool,
) -> Option<Seq<char>> {
    let subject = "el servidor '"@ + url + "' del upstream '"@ + name;
    if !is_http_url(url) {
        Some(subject + "' debe ser una URL http(s) válida"@)
    } else if !allow_link_local && points_to_link_local(url) {
        Some(
            subject
                + "' apunta a una dirección link-local (169.254.0.0/16) -- típicamente el endpoint de metadata del cloud. Si es realmente lo que querés, seteá 'allow_link_local_upstreams: true' en el upstream"@,
        )
    } else {
        None
    }
}

/// What is wrong with each server of an upstream.
pub open spec fn server_findings(name: Seq<char>, upstream: UpstreamConfig) -> Seq<
    Option<Seq<char>>,
> {
    Seq::new(
        upstream.servers@.len(),
        |i: int|
            server_finding(
                name,
                upstream.servers@[i].spec_url(),
                upstream.allow_link_local_upstreams,
            ),
    )
}

/// What is wrong with the upstream `name`.
pub open spec fn upstream_finding(name: Seq<char>, upstream: UpstreamConfig) -> Option<Seq<char>> {
    if upstream.servers@.len() == 0 {
        Some("el upstream '"@ + name + "' debe tener al menos un servidor"@)
    } else if first_finding(server_findings(name, upstream)) is Some {
        first_finding(server_findings(name, upstream))
    } else if upstream.health_check.healthy_threshold == 0 {
        Some("healthy_threshold del upstream '"@ + name + "' debe ser mayor a 0"@)
    } else if upstream.health_check.unhealthy_threshold == 0 {
        Some("unhealthy_threshold del upstream '"@ + name + "' debe ser mayor a 0"@)
    } else if upstream.timeout_ms == 0 {
        Some("timeout_ms del upstream '"@ + name + "' debe ser mayor a 0"@)
    } else if upstream.retry.max_attempts == 0 {
        Some("retry.max_attempts del upstream '"@ + name + "' debe ser al menos 1"@)
    } else if upstream.circuit_breaker.failure_threshold == 0 {
        Some(
            "circuit_breaker.failure_threshold del upstream '"@ + name + "' debe ser mayor a 0"@,
        )
    } else {
        None
    }
}

/// What is wrong with a route, among the given upstreams.
pub open spec fn route_finding(
    route: RouteConfig,
    upstreams: Map<Seq<char>, UpstreamConfig>,
) -> Option<Seq<char>> {
    if !"/"@.is_prefix_of(route.path@) {
        Some("la ruta '"@ + route.path@ + "' debe comenzar con '/'"@)
    } else if !upstreams.contains_key(route.upstream@) {
        Some(
            "la ruta '"@ + route.path@ + "' referencia el upstream '"@ + route.upstream@
                + "', que no existe en 'upstreams'"@,
        )
    } else {
        None
    }
}

/// What is wrong with each upstream, in the order of their names.
pub open spec fn upstream_findings(upstreams: SortedMap<String, UpstreamConfig>) -> Seq<
    Option<Seq<char>>,
> {
    Seq::new(
        upstreams.keys().len(),
        |i: int| upstream_finding(upstreams.keys()[i], upstreams.values()[i]),
    )
}

/// What is wrong with each route.
pub open spec fn route_findings(config: Config) -> Seq<Option<Seq<char>>> {
    Seq::new(
        config.routes@.len(),
        |i: int| route_finding(config.routes@[i], config.upstreams@),
    )
}

/// What is wrong with a configuration: the first rule that it breaks, in the
/// order in which the rules are tried.
pub open spec fn config_finding(config: Config) -> Option<Seq<char>> {
    if config.routes@.len() == 0 {
        Some("debe existir al menos una ruta configurada"@)
    } else if config.upstreams.keys().len() == 0 {
        Some("debe existir al menos un upstream configurado"@)
    } else if first_finding(upstream_findings(config.upstreams)) is Some {
        first_finding(upstream_findings(config.upstreams))
    } else {
        first_finding(route_findings(config))
    }
}

fn check_server(name: &str, url: &str, allow_link_local: bool) -> (r: Option<String>)
    ensures
        match r {
            Some(m) => server_finding(name@, url@, allow_link_local) == Some(m@),
            None => server_finding(name@, url@, allow_link_local) is None,
        },
{
    if !(text::starts_with(url, "http://") || text::starts_with(url, "https://")) {
        return Some(
            text::concat5(
                "el servidor '",
                url,
                "' del upstream '",
                name,
                "' debe ser una URL http(s) válida",
            ),
        );
    }
    if !allow_link_local {
        if let Some(host) = extract_host(url) {
            if link_local(host) {
                return Some(
                    text::concat5(
                        "el servidor '",
                        url,
                        "' del upstream '",
                        name,
                        "' apunta a una dirección link-local (169.254.0.0/16) -- típicamente el endpoint de metadata del cloud. Si es realmente lo que querés, seteá 'allow_link_local_upstreams: true' en el upstream",
                    ),
                );
            }
        }
    }
    None
}

fn check_upstream(name: &str, upstream: &UpstreamConfig) -> (r: Option<String>)
    ensures
        match r {
            Some(m) => upstream_finding(name@, *upstream) == Some(m@),
            None => upstream_finding(name@, *upstream) is None,
        },
{
    let n: usize = upstream.servers.len();
    if n == 0 {
        return Some(
            text::concat3("el upstream '", name, "' debe tener al menos un servidor"),
        );
    }
    let ghost findings = server_findings(name@, *upstream);
    let mut i: usize = 0;
    while i < n
        invariant
            i <= n,
            n == upstream.servers@.len(),
            findings == server_findings(name@, *upstream),
            n > 0,
            forall|k: int| 0 <= k < i ==> #[trigger] findings[k] is None,
        decreases n - i,
    {
        let found = check_server(
            name,
            upstream.servers[i].url(),
            upstream.allow_link_local_upstreams,
        );
        if found.is_some() {
            proof {
                lemma_first_finding(findings, i as int);
            }
            return found;
        }
        i = i + 1;
    }
    proof {
        lemma_first_finding(findings, n as int);
    }
    if upstream.health_check.healthy_threshold == 0 {
        Some(text::concat3("healthy_threshold del upstream '", name, "' debe ser mayor a 0"))
    } else if upstream.health_check.unhealthy_threshold == 0 {
        Some(text::concat3("unhealthy_threshold del upstream '", name, "' debe ser mayor a 0"))
    } else if upstream.timeout_ms == 0 {
        Some(text::concat3("timeout_ms del upstream '", name, "' debe ser mayor a 0"))
    } else if upstream.retry.max_attempts == 0 {
        Some(text::concat3("retry.max_attempts del upstream '", name, "' debe ser al menos 1"))
    } else if upstream.circuit_breaker.failure_threshold == 0 {
        Some(
            text::concat3(
                "circuit_breaker.failure_threshold del upstream '",
                name,
                "' debe ser mayor a 0",
            ),
        )
    } else {
        None
    }
}

fn check_route(route: &RouteConfig, upstreams: &SortedMap<String, UpstreamConfig>) -> (r: Option<
    String,
>)
    ensures
        match r {
            Some(m) => route_finding(*route, upstreams@) == Some(m@),
            None => route_finding(*route, upstreams@) is None,
        },
{
    if !text::starts_with(route.path.as_str(), "/") {
        return Some(
            text::concat3("la ruta '", route.path.as_str(), "' debe comenzar con '/'"),
        );
    }
    if !upstreams.contains_key(&route.upstream) {
        return Some(
            text::concat5(
                "la ruta '",
                route.path.as_str(),
                "' referencia el upstream '",
                route.upstream.as_str(),
                "', que no existe en 'upstreams'",
            ),
        );
    }
    None
}

/// What has become of reading a configuration file.
#[derive(Debug)]
pub enum ConfigSource {
    /// The file could not be read, for this reason.
    Unreadable(String),
    /// The file is not a configuration, for this reason.
    Malformed(String),
    /// The file is this configuration.
    Parsed(Config),
}

impl Config {
    /// Takes a configuration that was read from the file at `path`, if it could
    /// be read and is valid.
    pub fn load(path: &str, source: ConfigSource) -> (r: Result<Config, ConfigError>)
        ensures
            match source {
                ConfigSource::Unreadable(why) => r matches Err(
                    ConfigError::Read { path: p, source: s },
                ) && p@ == path@ && s@ == why@,
                ConfigSource::Malformed(why) => r matches Err(
                    ConfigError::Parse { path: p, source: s },
                ) && p@ == path@ && s@ == why@,
                ConfigSource::Parsed(config) => match config_finding(config) {
                    None => r == Ok::<Config, ConfigError>(config),
                    Some(finding) => r matches Err(ConfigError::Invalid(m)) && m@ == finding,
                },
            },
    {
        match source {
            ConfigSource::Unreadable(source) => Err(
                ConfigError::Read { path: path.to_string(), source },
            ),
            ConfigSource::Malformed(source) => Err(
                ConfigError::Parse { path: path.to_string(), source },
            ),
            ConfigSource::Parsed(config) => match config.validate() {
                Ok(_) => Ok(config),
                Err(e) => Err(e),
            },
        }
    }

    /// Tries the rules that a configuration has to meet.
    pub fn validate(&self) -> (r: Result<(), ConfigError>)
        ensures
            match r {
                Ok(_) => config_finding(*self) is None,
                Err(ConfigError::Invalid(m)) => config_finding(*self) == Some(m@),
                Err(_) => false,
            },
    {
        let n_routes: usize = self.routes.len();
        let n_upstreams: usize = self.upstreams.len();
        if n_routes == 0 {
            return Err(
                ConfigError::Invalid("debe existir al menos una ruta configurada".to_string()),
            );
        }
        if n_upstreams == 0 {
            return Err(
                ConfigError::Invalid("debe existir al menos un upstream configurado".to_string()),
            );
        }
        let ghost upstream_list = upstream_findings(self.upstreams);
        let mut i: usize = 0;
        while i < n_upstreams
            invariant
                i <= n_upstreams,
                n_upstreams == self.upstreams.keys().len(),
                n_upstreams == self.upstreams.values().len(),
                n_upstreams > 0,
                self.routes@.len() > 0,
                upstream_list == upstream_findings(self.upstreams),
                forall|k: int| 0 <= k < i ==> #[trigger] upstream_list[k] is None,
            decreases n_upstreams - i,
        {
            let name = self.upstreams.key_at(i);
            if let Some(m) = check_upstream(name.as_str(), self.upstreams.value_at(i)) {
                proof {
                    lemma_first_finding(upstream_list, i as int);
                }
                return Err(ConfigError::Invalid(m));
            }
            i = i + 1;
        }
        proof {
            lemma_first_finding(upstream_list, n_upstreams as int);
        }
        let ghost route_list = route_findings(*self);
        let mut j: usize = 0;
        while j < n_routes
            invariant
                j <= n_routes,
                n_routes == self.routes@.len(),
                n_routes > 0,
                self.upstreams.keys().len() > 0,
                first_finding(upstream_findings(self.upstreams)) is None,
                route_list == route_findings(*self),
                forall|k: int| 0 <= k < j ==> #[trigger] route_list[k] is None,
            decreases n_routes - j,
        {
            if let Some(m) = check_route(&self.routes[j], &self.upstreams) {
                proof {
                    lemma_first_finding(route_list, j as int);
                }
                return Err(ConfigError::Invalid(m));
            }
            j = j + 1;
        }
        proof {
            lemma_first_finding(route_list, n_routes as int);
        }
        Ok(())
    }
}

/// Whether a server may be sent requests.
pub open spec fn server_is_sound(url: Seq<char>, allow_link_local: bool) -> bool {
    is_http_url(url) && (allow_link_local || !points_to_link_local(url))
}

/// Whether an upstream has servers, all of them sound, and no setting at zero
/// that must not be.
pub open spec fn upstream_is_sound(upstream: UpstreamConfig) -> bool {
    &&& upstream.servers@.len() > 0
    &&& forall|i: int|
        0 <= i < upstream.servers@.len() ==> server_is_sound(
            #[trigger] upstream.servers@[i].spec_url(),
            upstream.allow_link_local_upstreams,
        )
    &&& upstream.health_check.healthy_threshold > 0
    &&& upstream.health_check.unhealthy_threshold > 0
    &&& upstream.timeout_ms > 0
    &&& upstream.retry.max_attempts > 0
    &&& upstream.circuit_breaker.failure_threshold > 0
}

/// A configuration is accepted exactly when it has routes and upstreams, all
/// its upstreams are sound, and every route has a path that begins with `/`
/// and leads to an upstream that exists.
pub proof fn accepted_configurations(config: Config)
    requires
        config.upstreams.keys().len() == config.upstreams.values().len(),
    ensures
        config_finding(config) is None <==> {
            &&& config.routes@.len() > 0
            &&& config.upstreams.keys().len() > 0
            &&& forall|i: int|
                0 <= i < config.upstreams.values().len() ==> upstream_is_sound(
                    #[trigger] config.upstreams.values()[i],
                )
            &&& forall|i: int|
                0 <= i < config.routes@.len() ==> {
                    &&& "/"@.is_prefix_of((#[trigger] config.routes@[i]).path@)
                    &&& config.upstreams@.contains_key(config.routes@[i].upstream@)
                }
        },
{
    let ups = upstream_findings(config.upstreams);
    let routes = route_findings(config);
    lemma_no_finding(ups);
    lemma_no_finding(routes);
    assert forall|i: int| 0 <= i < config.upstreams.values().len() implies (ups[i] is None
        <==> upstream_is_sound(#[trigger] config.upstreams.values()[i])) by {
        lemma_sound_upstream(config.upstreams.keys()[i], config.upstreams.values()[i]);
    }
    if forall|i: int| 0 <= i < ups.len() ==> #[trigger] ups[i] is None {
        assert forall|i: int| 0 <= i < config.upstreams.values().len() implies upstream_is_sound(
            #[trigger] config.upstreams.values()[i],
        ) by {
            assert(ups[i] is None);
        }
    }
    if forall|i: int| 0 <= i < routes.len() ==> #[trigger] routes[i] is None {
        assert forall|i: int| 0 <= i < config.routes@.len() implies {
            &&& "/"@.is_prefix_of((#[trigger] config.routes@[i]).path@)
            &&& config.upstreams@.contains_key(config.routes@[i].upstream@)
        } by {
            assert(routes[i] is None);
        }
    }
}

proof fn lemma_no_finding(findings: Seq<Option<Seq<char>>>)
    ensures
        first_finding(findings) is None <==> forall|i: int|
            0 <= i < findings.len() ==> #[trigger] findings[i] is None,
    decreases findings.len(),
{
    if findings.len() > 0 {
        let rest = findings.drop_first();
        lemma_no_finding(rest);
        if findings[0] is None && first_finding(findings) is None {
            assert forall|i: int| 0 <= i < findings.len() implies #[trigger] findings[i] is None by {
                if i > 0 {
                    assert(rest[i - 1] is None);
                }
            }
        }
        if forall|i: int| 0 <= i < findings.len() ==> #[trigger] findings[i] is None {
            assert(findings[0] is None);
            assert forall|i: int| 0 <= i < rest.len() implies #[trigger] rest[i] is None by {
                assert(findings[i + 1] is None);
            }
        }
    }
}

proof fn lemma_sound_upstream(name: Seq<char>, upstream: UpstreamConfig)
    ensures
        upstream_finding(name, upstream) is None <==> upstream_is_sound(upstream),
{
    let servers = server_findings(name, upstream);
    lemma_no_finding(servers);
    assert forall|i: int| 0 <= i < servers.len() implies (#[trigger] servers[i] is None
        <==> server_is_sound(
        upstream.servers@[i].spec_url(),
        upstream.allow_link_local_upstreams,
    )) by {}
    if upstream_is_sound(upstream) {
        assert forall|i: int| 0 <= i < servers.len() implies #[trigger] servers[i] is None by {
            assert(server_is_sound(
                upstream.servers@[i].spec_url(),
                upstream.allow_link_local_upstreams,
            ));
        }
    }
    if forall|i: int| 0 <= i < servers.len() ==> #[trigger] servers[i] is None {
        assert forall|i: int| 0 <= i < upstream.servers@.len() implies server_is_sound(
            #[trigger] upstream.servers@[i].spec_url(),
            upstream.allow_link_local_upstreams,
        ) by {
            assert(servers[i] is None);
        }
    }
}

/// Whether what follows the scheme of a URL is made of user information, a host,
/// a port and the rest, each in its place and all but the host dispensable.
pub open spec fn is_authority_and_rest(
    user: Seq<char>,
    host: Seq<char>,
    port: Seq<char>,
    tail: Seq<char>,
) -> bool {
    &&& user.len() == 0 || user.last() == '@'
    &&& !host.contains('@') && !host.contains(':')
    &&& port.len() == 0 || port[0] == ':'
    &&& !port.contains('@')
    &&& tail.len() == 0 || tail[0] == '/' || tail[0] == '?' || tail[0] == '#'
    &&& forall|i: int|
        0 <= i < (user + host + port).len() ==> {
            let c = #[trigger] (user + host + port)[i];
            c != '/' && c != '?' && c != '#'
        }
}

/// The host of a URL is found between the user information and the port, whatever
/// stands in these and behind them.
pub proof fn the_host_is_found(
    scheme: Seq<char>,
    user: Seq<char>,
    host: Seq<char>,
    port: Seq<char>,
    tail: Seq<char>,
)
    requires
        !scheme.contains(':'),
        is_authority_and_rest(user, host, port, tail),
    ensures
        host_of(scheme + "://"@ + (user + host + port + tail)) == Some(host),
{
    let authority = user + host + port;
    let rest = user + host + port + tail;
    let url = scheme + "://"@ + rest;
    reveal_strlit("://");
    assert(rest =~= authority + tail);
    let n = scheme.len() as int;
    assert(text::occurs_at(url, "://"@, n)) by {
        assert(url.subrange(n, n + 3) =~= "://"@);
    }
    assert forall|j: int| 0 <= j < n implies !#[trigger] text::occurs_at(url, "://"@, j) by {
        if text::occurs_at(url, "://"@, j) {
            assert(url.subrange(j, j + 3)[0] == ':');
            assert(scheme[j] == ':');
        }
    }
    assert(first_scheme_end(url, n));
    let c = choose|c: int| first_scheme_end(url, c);
    if c < n {
        assert(!text::occurs_at(url, "://"@, c));
    } else if n < c {
        assert(!text::occurs_at(url, "://"@, n));
    }
    assert(url.skip(n + 3) =~= rest);
    assert(!authority.contains('/') && !authority.contains('?') && !authority.contains('#'));
    text::cutting_leaves_what_stands_before(authority, tail, '/', '?');
    let left = text::before_first_of(tail, '/', '?');
    if tail.len() == 0 || tail[0] != '#' {
        assert(left =~= Seq::<char>::empty());
    } else {
        assert(tail[0] == '#');
        text::cutting_leaves_what_stands_before(Seq::empty(), tail, '/', '?');
        assert(left[0] == '#') by {
            text::cutting_leaves_what_stands_before(seq!['#'], tail.drop_first(), '/', '?');
            assert(tail =~= seq!['#'] + tail.drop_first());
        }
    }
    text::cutting_leaves_what_stands_before(authority, left, '#', '#');
    let tail_of_host = host + port;
    assert(authority =~= user + tail_of_host);
    assert(!tail_of_host.contains('@')) by {
        if tail_of_host.contains('@') {
            let k = tail_of_host.index_of('@');
            if k < host.len() {
                assert(host[k] == '@');
            } else {
                assert(port[k - host.len()] == '@');
            }
        }
    }
    text::what_stands_behind_the_last(user, tail_of_host, '@');
    text::cutting_leaves_what_stands_before(host, port, ':', ':');
}

/// A server whose URL has the scheme `http` or `https` is accepted unless its host
/// is an address of `169.254.0.0/16`, and then exactly when its upstream allows
/// it, whatever user information, port and path there are.
pub proof fn link_local_servers_are_refused(
    name: Seq<char>,
    scheme: Seq<char>,
    user: Seq<char>,
    host: Seq<char>,
    port: Seq<char>,
    tail: Seq<char>,
    allowed: bool,
)
    requires
        scheme == "http"@ || scheme == "https"@,
        is_authority_and_rest(user, host, port, tail),
    ensures
        ({
            let url = scheme + "://"@ + (user + host + port + tail);
            let metadata = exists|c: u8, d: u8|
                host == "169.254."@ + #[trigger] text::decimal(c as nat) + seq!['.']
                    + #[trigger] text::decimal(d as nat);
            server_finding(name, url, allowed) is None <==> allowed || !metadata
        }),
{
    let url = scheme + "://"@ + (user + host + port + tail);
    reveal_strlit("://");
    reveal_strlit("http");
    reveal_strlit("https");
    reveal_strlit("http://");
    reveal_strlit("https://");
    if scheme == "http"@ {
        assert("http://"@ =~= url.subrange(0, 7));
        assert("http://"@.is_prefix_of(url));
    } else {
        assert("https://"@ =~= url.subrange(0, 8));
        assert("https://"@.is_prefix_of(url));
    }
    assert(!scheme.contains(':'));
    the_host_is_found(scheme, user, host, port, tail);
    if is_link_local(host) {
        let (c, d) = choose|c: u8, d: u8| host == #[trigger] link_local_address(c, d);
        assert(host == "169.254."@ + text::decimal(c as nat) + seq!['.'] + text::decimal(
            d as nat,
        ));
    }
    if exists|c: u8, d: u8|
        host == "169.254."@ + #[trigger] text::decimal(c as nat) + seq!['.']
            + #[trigger] text::decimal(d as nat) {
        let (c, d) = choose|c: u8, d: u8|
            host == "169.254."@ + #[trigger] text::decimal(c as nat) + seq!['.']
                + #[trigger] text::decimal(d as nat);
        assert(host == link_local_address(c, d));
    }
}

/// A server whose URL begins with neither `http://` nor `https://` is refused,
/// even where its upstream allows link-local addresses.
pub proof fn servers_need_a_scheme(name: Seq<char>, url: Seq<char>, allowed: bool)
    requires
        !"http://"@.is_prefix_of(url),
        !"https://"@.is_prefix_of(url),
    ensures
        server_finding(name, url, allowed) is Some,
{
}

/// An upstream is accepted exactly when it has a server, all its servers are
/// accepted, and its thresholds, its timeout and its attempts are not zero.
pub proof fn accepted_upstreams(name: Seq<char>, upstream: UpstreamConfig)
    ensures
        upstream_finding(name, upstream) is None <==> {
            &&& upstream.servers@.len() >= 1
            &&& forall|i: int|
                0 <= i < upstream.servers@.len() ==> server_finding(
                    name,
                    match #[trigger] upstream.servers@[i] {
                        ServerEntry::Plain(url) => url@,
                        ServerEntry::Weighted { url, weight: _ } => url@,
                    },
                    upstream.allow_link_local_upstreams,
                ) is None
            &&& upstream.health_check.healthy_threshold >= 1
            &&& upstream.health_check.unhealthy_threshold >= 1
            &&& upstream.timeout_ms >= 1
            &&& upstream.retry.max_attempts >= 1
            &&& upstream.circuit_breaker.failure_threshold >= 1
        },
{
    let servers = server_findings(name, upstream);
    lemma_no_finding(servers);
    assert forall|i: int| 0 <= i < servers.len() implies servers[i] == server_finding(
        name,
        match #[trigger] upstream.servers@[i] {
            ServerEntry::Plain(url) => url@,
            ServerEntry::Weighted { url, weight: _ } => url@,
        },
        upstream.allow_link_local_upstreams,
    ) by {}
    if forall|i: int| 0 <= i < servers.len() ==> #[trigger] servers[i] is None {
        assert forall|i: int| 0 <= i < upstream.servers@.len() implies server_finding(
            name,
            match #[trigger] upstream.servers@[i] {
                ServerEntry::Plain(url) => url@,
                ServerEntry::Weighted { url, weight: _ } => url@,
            },
            upstream.allow_link_local_upstreams,
        ) is None by {
            assert(servers[i] is None);
        }
    } else {
        let i = choose|i: int| 0 <= i < servers.len() && !(#[trigger] servers[i] is None);
        assert(upstream.servers@[i] == upstream.servers@[i]);
    }
}

/// A configuration is told the first rule that it breaks: that it has no routes,
/// then that it has no upstreams, then what is wrong with the first upstream of
/// which anything is, by name, and then with the first such route.
pub proof fn the_first_broken_rule_is_told(config: Config, k: int)
    requires
        config.upstreams.keys().len() == config.upstreams.values().len(),
    ensures
        config.routes@.len() == 0 ==> config_finding(config) == Some(
            "debe existir al menos una ruta configurada"@,
        ),
        config.routes@.len() > 0 && config.upstreams.keys().len() == 0 ==> config_finding(config)
            == Some("debe existir al menos un upstream configurado"@),
        config.routes@.len() > 0 && 0 <= k < config.upstreams.keys().len() && upstream_finding(
            config.upstreams.keys()[k],
            config.upstreams.values()[k],
        ) is Some && (forall|i: int|
            0 <= i < k ==> upstream_finding(
                #[trigger] config.upstreams.keys()[i],
                config.upstreams.values()[i],
            ) is None) ==> config_finding(config) == upstream_finding(
            config.upstreams.keys()[k],
            config.upstreams.values()[k],
        ),
        config.upstreams.keys().len() > 0 && 0 <= k < config.routes@.len() && route_finding(
            config.routes@[k],
            config.upstreams@,
        ) is Some && (forall|i: int|
            0 <= i < config.upstreams.keys().len() ==> upstream_finding(
                #[trigger] config.upstreams.keys()[i],
                config.upstreams.values()[i],
            ) is None) && (forall|i: int|
            0 <= i < k ==> route_finding(#[trigger] config.routes@[i], config.upstreams@)
                is None) ==> config_finding(config) == route_finding(
            config.routes@[k],
            config.upstreams@,
        ),
{
    let ups = upstream_findings(config.upstreams);
    let routes = route_findings(config);
    lemma_no_finding(ups);
    if 0 <= k < ups.len() && ups[k] is Some && (forall|i: int|
        0 <= i < k ==> upstream_finding(
            #[trigger] config.upstreams.keys()[i],
            config.upstreams.values()[i],
        ) is None) {
        assert forall|i: int| 0 <= i < k implies #[trigger] ups[i] is None by {
            assert(upstream_finding(config.upstreams.keys()[i], config.upstreams.values()[i])
                is None);
        }
        lemma_first_finding(ups, k);
    }
    if 0 <= k < routes.len() && routes[k] is Some && (forall|i: int|
        0 <= i < config.upstreams.keys().len() ==> upstream_finding(
            #[trigger] config.upstreams.keys()[i],
            config.upstreams.values()[i],
        ) is None) && (forall|i: int|
        0 <= i < k ==> route_finding(#[trigger] config.routes@[i], config.upstreams@) is None) {
        assert forall|i: int| 0 <= i < ups.len() implies #[trigger] ups[i] is None by {
            assert(upstream_finding(config.upstreams.keys()[i], config.upstreams.values()[i])
                is None);
        }
        assert forall|i: int| 0 <= i < k implies #[trigger] routes[i] is None by {
            assert(route_finding(config.routes@[i], config.upstreams@) is None);
        }
        lemma_first_finding(routes, k);
    }
}

/// A route is accepted exactly when its path begins with a slash and there is an
/// upstream of the name that it gives.
pub proof fn accepted_routes(route: RouteConfig, upstreams: Map<Seq<char>, UpstreamConfig>)
    ensures
        route_finding(route, upstreams) is None <==> route.path@.len() > 0 && route.path@[0] == '/'
            && upstreams.contains_key(route.upstream@),
{
    reveal_strlit("/");
    if route.path@.len() > 0 && route.path@[0] == '/' {
        assert("/"@ =~= route.path@.subrange(0, 1));
    }
    if "/"@.is_prefix_of(route.path@) {
        assert(route.path@.subrange(0, 1)[0] == '/');
    }
}

/// What is told of a configuration that cannot be used names the file and the
/// reason, or the rule that is broken.
pub proof fn errors_say_where_and_why(path: String, source: String)
    ensures
        (ConfigError::Read { path, source }).spec_message()
            == "no se pudo leer el archivo de configuración '"@ + path@ + "': "@ + source@,
        (ConfigError::Parse { path, source }).spec_message() == "error de parseo YAML en '"@ + path@
            + "': "@ + source@,
        ConfigError::Invalid(source).spec_message() == "configuración inválida: "@ + source@,
{
}

/// The rules for an upstream are tried in order, and the first that is broken is
/// told: it must have a server, its servers must be accepted, and neither its
/// thresholds for health nor its timeout, its attempts or the threshold of its
/// circuits may be zero.
pub proof fn upstream_rules_are_told(name: Seq<char>, upstream: UpstreamConfig)
    ensures
        ({
            let r = upstream_finding(name, upstream);
            let servers = first_finding(server_findings(name, upstream)) is None;
            let h = upstream.health_check;
            if upstream.servers@.len() == 0 {
                r == Some("el upstream '"@ + name + "' debe tener al menos un servidor"@)
            } else if !servers {
                r == first_finding(server_findings(name, upstream))
            } else if h.healthy_threshold == 0 {
                r == Some("healthy_threshold del upstream '"@ + name + "' debe ser mayor a 0"@)
            } else if h.unhealthy_threshold == 0 {
                r == Some("unhealthy_threshold del upstream '"@ + name + "' debe ser mayor a 0"@)
            } else if upstream.timeout_ms == 0 {
                r == Some("timeout_ms del upstream '"@ + name + "' debe ser mayor a 0"@)
            } else if upstream.retry.max_attempts == 0 {
                r == Some("retry.max_attempts del upstream '"@ + name + "' debe ser al menos 1"@)
            } else if upstream.circuit_breaker.failure_threshold == 0 {
                r == Some(
                    "circuit_breaker.failure_threshold del upstream '"@ + name
                        + "' debe ser mayor a 0"@,
                )
            } else {
                r is None
            }
        }),
{
}

/// What is told of a server or a route that is not accepted.
pub proof fn server_and_route_rules_are_told(
    name: Seq<char>,
    url: Seq<char>,
    allowed: bool,
    route: RouteConfig,
    upstreams: Map<Seq<char>, UpstreamConfig>,
)
    ensures
        ({
            let http = "http://"@.is_prefix_of(url) || "https://"@.is_prefix_of(url);
            let found = server_finding(name, url, allowed);
            let subject = "el servidor '"@ + url + "' del upstream '"@ + name;
            &&& !http ==> found == Some(subject + "' debe ser una URL http(s) válida"@)
            &&& http && found is Some ==> found == Some(
                subject
                    + "' apunta a una dirección link-local (169.254.0.0/16) -- típicamente el endpoint de metadata del cloud. Si es realmente lo que querés, seteá 'allow_link_local_upstreams: true' en el upstream"@,
            )
            &&& !"/"@.is_prefix_of(route.path@) ==> route_finding(route, upstreams) == Some(
                "la ruta '"@ + route.path@ + "' debe comenzar con '/'"@,
            )
            &&& "/"@.is_prefix_of(route.path@) && !upstreams.contains_key(route.upstream@)
                ==> route_finding(route, upstreams) == Some(
                "la ruta '"@ + route.path@ + "' referencia el upstream '"@ + route.upstream@
                    + "', que no existe en 'upstreams'"@,
            )
        }),
{
}

} // verus!
