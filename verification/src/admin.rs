//! What the admin API tells: the routes, the upstreams and how they are doing.

use crate::balancer;
use crate::balancer::{Backend, BackendView, PoolView, UpstreamManager, UpstreamPool};
use crate::circuit;
use crate::circuit::CircuitState;
use crate::clock;
use crate::config::{AuthConfig, Config, ConfigError, RouteConfig};
use crate::counts;
use crate::metrics::Metrics;
use crate::router::Router;
use crate::text;
use vstd::prelude::*;

verus! {

/// What is told of a route.
#[derive(Debug)]
pub struct RouteInfo {
    pub path: String,
    pub upstream: String,
    /// How callers are authenticated, if they are.
    pub auth: Option<&'static str>,
    pub rate_limited: bool,
}

/// The word for a way of authentication.
pub open spec fn auth_label(auth: Option<AuthConfig>) -> Option<Seq<char>> {
    match auth {
        Some(AuthConfig::ApiKey { .. }) => Some("api_key"@),
        Some(AuthConfig::Jwt { .. }) => Some("jwt"@),
        None => None,
    }
}

/// Whether `info` tells what is to be told of `route`.
pub open spec fn tells_route(info: RouteInfo, route: RouteConfig) -> bool {
    &&& info.path@ == route.path@
    &&& info.upstream@ == route.upstream@
    &&& match info.auth {
        Some(s) => auth_label(route.auth) == Some(s@),
        None => auth_label(route.auth) is None,
    }
    &&& info.rate_limited == (route.rate_limit is Some)
}

/// What is told of the routes, in matching order.
pub fn route_infos(router: &Router) -> (r: Vec<RouteInfo>)
    ensures
        r@.len() == router.spec_routes().len(),
        forall|i: int|
            0 <= i < r@.len() ==> tells_route(#[trigger] r@[i], router.spec_routes()[i]),
        forall|i: int|
            0 <= i < r@.len() ==> {
                let route = router.spec_routes()[i];
                let info = #[trigger] r@[i];
                &&& info.path@ == route.path@
                &&& info.upstream@ == route.upstream@
                &&& info.rate_limited <==> route.rate_limit is Some
                &&& info.auth is None <==> route.auth is None
                &&& info.auth is Some && info.auth->0@ == "api_key"@ <==> route.auth is Some
                    && route.auth->0 is ApiKey
                &&& info.auth is Some && info.auth->0@ == "jwt"@ <==> route.auth is Some
                    && route.auth->0 is Jwt
            },
{
    let routes = router.routes();
    let n: usize = routes.len();
    let mut r: Vec<RouteInfo> = Vec::new();
    let mut i: usize = 0;
    while i < n
        invariant
            i <= n,
            n == routes@.len(),
            r@.len() == i,
            forall|k: int| 0 <= k < i ==> tells_route(#[trigger] r@[k], routes@[k]),
        decreases n - i,
    {
        let route = &routes[i];
        let auth = match &route.auth {
            Some(AuthConfig::ApiKey { header: _, keys: _ }) => Some("api_key"),
            Some(AuthConfig::Jwt { secret: _, issuer: _, audience: _ }) => Some("jwt"),
            None => None,
        };
        r.push(
            RouteInfo {
                path: route.path.clone(),
                upstream: route.upstream.clone(),
                auth,
                rate_limited: route.rate_limit.is_some(),
            },
        );
        i = i + 1;
    }
    proof {
        reveal_strlit("api_key");
        reveal_strlit("jwt");
        assert("api_key"@.len() != "jwt"@.len());
        assert forall|k: int| 0 <= k < r@.len() implies {
            let route = router.spec_routes()[k];
            let info = #[trigger] r@[k];
            &&& info.path@ == route.path@
            &&& info.upstream@ == route.upstream@
            &&& info.rate_limited <==> route.rate_limit is Some
            &&& info.auth is None <==> route.auth is None
            &&& info.auth is Some && info.auth->0@ == "api_key"@ <==> route.auth is Some
                && route.auth->0 is ApiKey
            &&& info.auth is Some && info.auth->0@ == "jwt"@ <==> route.auth is Some
                && route.auth->0 is Jwt
        } by {
            assert(tells_route(r@[k], routes@[k]));
        }
    }
    r
}

/// What is told of a backend.
#[derive(Debug)]
pub struct BackendInfo {
    pub url: String,
    pub weight: u32,
    pub healthy: bool,
    pub circuit_state: &'static str,
    pub active_connections: usize,
}

/// Whether `info` tells what is to be told of a backend.
pub open spec fn tells_backend(info: BackendInfo, b: BackendView) -> bool {
    &&& info.url@ == b.url
    &&& info.weight == b.weight
    &&& info.healthy == b.healthy
    &&& info.circuit_state@ == circuit::state_name(b.circuit.state)
    &&& info.active_connections == b.connections
}

/// What is told of an upstream.
#[derive(Debug)]
pub struct UpstreamInfo {
    pub name: String,
    pub load_balancer: &'static str,
    pub backends: Vec<BackendInfo>,
}

/// Whether `info` tells what is to be told of an upstream.
pub open spec fn tells_upstream(info: UpstreamInfo, p: PoolView) -> bool {
    &&& info.name@ == p.name
    &&& info.load_balancer@ == p.strategy.spec_label()
    &&& info.backends@.len() == p.backends.len()
    &&& forall|i: int|
        0 <= i < p.backends.len() ==> tells_backend(#[trigger] info.backends@[i], p.backends[i])
}

/// What is told of an upstream.
fn upstream_info(pool: &UpstreamPool) -> (r: UpstreamInfo)
    ensures
        tells_upstream(r, pool@),
{
    let backends = pool.backends();
    let n: usize = backends.len();
    let mut list: Vec<BackendInfo> = Vec::new();
    let mut i: usize = 0;
    while i < n
        invariant
            i <= n,
            n == backends@.len(),
            balancer::backend_views(backends@) == pool@.backends,
            list@.len() == i,
            forall|k: int|
                0 <= k < i ==> tells_backend(#[trigger] list@[k], pool@.backends[k]),
        decreases n - i,
    {
        assert(pool@.backends[i as int] == backends@[i as int]@);
        let b = &backends[i];
        list.push(
            BackendInfo {
                url: b.url().to_string(),
                weight: b.weight(),
                healthy: b.is_healthy(),
                circuit_state: b.circuit().state_label(),
                active_connections: b.active_connections(),
            },
        );
        i = i + 1;
    }
    UpstreamInfo {
        name: pool.name().to_string(),
        load_balancer: pool.load_balancer().label(),
        backends: list,
    }
}

/// What is told of the upstreams, in the order of their names.
pub fn upstream_infos(upstreams: &UpstreamManager) -> (r: Vec<UpstreamInfo>)
    ensures
        r@.len() == upstreams.states().len(),
        forall|i: int|
            0 <= i < r@.len() ==> tells_upstream(#[trigger] r@[i], upstreams.states()[i]),
        forall|i: int|
            0 <= i < r@.len() ==> (#[trigger] r@[i]).name@ == upstreams.states()[i].name
                && r@[i].backends@.len() == upstreams.states()[i].backends.len(),
        forall|i: int, j: int|
            0 <= i < r@.len() && 0 <= j < r@[i].backends@.len() ==> {
                let info = #[trigger] r@[i].backends@[j];
                let b = upstreams.states()[i].backends[j];
                &&& info.url@ == b.url
                &&& info.weight == b.weight
                &&& info.healthy == b.healthy
                &&& info.active_connections == b.connections
                &&& b.circuit.state == CircuitState::Closed ==> info.circuit_state@ == "closed"@
                &&& b.circuit.state == CircuitState::Open ==> info.circuit_state@ == "open"@
                &&& b.circuit.state == CircuitState::HalfOpen ==> info.circuit_state@
                    == "half_open"@
            },
{
    let n: usize = upstreams.len();
    let mut r: Vec<UpstreamInfo> = Vec::new();
    let mut i: usize = 0;
    while i < n
        invariant
            i <= n,
            n == upstreams.states().len(),
            r@.len() == i,
            forall|k: int|
                0 <= k < i ==> tells_upstream(#[trigger] r@[k], upstreams.states()[k]),
        decreases n - i,
    {
        r.push(upstream_info(upstreams.pool_at(i)));
        i = i + 1;
    }
    proof {
        assert forall|k: int, j: int| 0 <= k < r@.len() && 0 <= j < r@[k].backends@.len() implies {
            let info = #[trigger] r@[k].backends@[j];
            let b = upstreams.states()[k].backends[j];
            &&& info.url@ == b.url
            &&& info.weight == b.weight
            &&& info.healthy == b.healthy
            &&& info.active_connections == b.connections
            &&& b.circuit.state == CircuitState::Closed ==> info.circuit_state@ == "closed"@
            &&& b.circuit.state == CircuitState::Open ==> info.circuit_state@ == "open"@
            &&& b.circuit.state == CircuitState::HalfOpen ==> info.circuit_state@ == "half_open"@
        } by {
            assert(tells_upstream(r@[k], upstreams.states()[k]));
            assert(tells_backend(r@[k].backends@[j], upstreams.states()[k].backends[j]));
        }
    }
    r
}

/// Whether a backend is healthy and its circuit is not open.
pub open spec fn is_up(b: BackendView) -> bool {
    b.healthy && b.circuit.state != CircuitState::Open
}

/// Whether one of the backends of an upstream is up.
pub open spec fn has_backend_up(p: PoolView) -> bool {
    exists|i: int| 0 <= i < p.backends.len() && is_up(#[trigger] p.backends[i])
}

/// Whether one of the backends of an upstream is up.
fn any_backend_up(pool: &UpstreamPool) -> (r: bool)
    ensures
        r == has_backend_up(pool@),
{
    let backends = pool.backends();
    let n: usize = backends.len();
    let mut i: usize = 0;
    while i < n
        invariant
            i <= n,
            n == backends@.len(),
            balancer::backend_views(backends@) == pool@.backends,
            forall|k: int| 0 <= k < i ==> !is_up(#[trigger] pool@.backends[k]),
        decreases n - i,
    {
        assert(pool@.backends[i as int] == backends@[i as int]@);
        if backends[i].is_healthy() && !backends[i].circuit().is_open() {
            assert(is_up(pool@.backends[i as int]));
            return true;
        }
        i = i + 1;
    }
    false
}

/// The names of the upstreams that have no backend up, among the first `n`.
pub open spec fn degraded(states: Seq<PoolView>, n: nat) -> Seq<Seq<char>>
    decreases n,
{
    if n == 0 {
        Seq::empty()
    } else {
        let rest = degraded(states, (n - 1) as nat);
        if has_backend_up(states[n - 1]) {
            rest
        } else {
            rest.push(states[n - 1].name)
        }
    }
}

/// The health of the gateway as a whole.
#[derive(Debug)]
pub struct HealthReport {
    /// 200 where every upstream has a backend up, and 503 elsewhere.
    pub status: u16,
    /// The upstreams that have none.
    pub degraded_upstreams: Vec<String>,
}

/// The health of the gateway: well where every upstream has a backend up.
pub fn health_report(upstreams: &UpstreamManager) -> (r: HealthReport)
    ensures
        text::texts(r.degraded_upstreams@) == degraded(
            upstreams.states(),
            upstreams.states().len(),
        ),
        r.status == if r.degraded_upstreams@.len() == 0 {
            200u16
        } else {
            503u16
        },
        r.status == 200 <==> forall|i: int|
            0 <= i < upstreams.states().len() ==> exists|j: int|
                {
                    &&& 0 <= j < (#[trigger] upstreams.states()[i]).backends.len()
                    &&& (#[trigger] upstreams.states()[i].backends[j]).healthy
                    &&& upstreams.states()[i].backends[j].circuit.state != CircuitState::Open
                },
        r.status == 200 || r.status == 503,
{
    let n: usize = upstreams.len();
    let ghost states = upstreams.states();
    let mut list: Vec<String> = Vec::new();
    let mut i: usize = 0;
    assert(text::texts(list@) =~= degraded(states, 0));
    while i < n
        invariant
            i <= n,
            n == states.len(),
            states == upstreams.states(),
            text::texts(list@) == degraded(states, i as nat),
        decreases n - i,
    {
        let pool = upstreams.pool_at(i);
        let ghost before = list@;
        if !any_backend_up(pool) {
            list.push(pool.name().to_string());
            assert(text::texts(list@) =~= text::texts(before).push(pool@.name));
        }
        i = i + 1;
    }
    proof {
        healthy_means_every_upstream_has_a_backend(states, states.len());
        assert(list@.len() == degraded(states, states.len()).len());
        assert forall|i: int| 0 <= i < states.len() implies (has_backend_up(#[trigger] states[i])
            <==> exists|j: int|
            {
                &&& 0 <= j < states[i].backends.len()
                &&& (#[trigger] states[i].backends[j]).healthy
                &&& states[i].backends[j].circuit.state != CircuitState::Open
            }) by {
            if has_backend_up(states[i]) {
                let j = choose|j: int|
                    0 <= j < states[i].backends.len() && is_up(#[trigger] states[i].backends[j]);
                assert(states[i].backends[j].healthy);
            }
            if exists|j: int|
                {
                    &&& 0 <= j < states[i].backends.len()
                    &&& (#[trigger] states[i].backends[j]).healthy
                    &&& states[i].backends[j].circuit.state != CircuitState::Open
                } {
                let j = choose|j: int|
                    {
                        &&& 0 <= j < states[i].backends.len()
                        &&& (#[trigger] states[i].backends[j]).healthy
                        &&& states[i].backends[j].circuit.state != CircuitState::Open
                    };
                assert(is_up(states[i].backends[j]));
            }
        }
    }
    let status: u16 = if list.len() == 0 {
        200
    } else {
        503
    };
    HealthReport { status, degraded_upstreams: list }
}

/// The gateway is well exactly when every upstream has a backend up.
pub proof fn healthy_means_every_upstream_has_a_backend(states: Seq<PoolView>, n: nat)
    requires
        n <= states.len(),
    ensures
        degraded(states, n).len() == 0 <==> forall|i: int|
            0 <= i < n ==> has_backend_up(#[trigger] states[i]),
    decreases n,
{
    if n > 0 {
        healthy_means_every_upstream_has_a_backend(states, (n - 1) as nat);
        if forall|i: int| 0 <= i < n ==> has_backend_up(#[trigger] states[i]) {
            assert(has_backend_up(states[n - 1]));
        }
    }
}

/// What is done when the configuration is to be read again.
#[derive(Debug)]
pub enum ReloadDecision {
    /// Nothing changes, and the caller is told why.
    Refuse { status: u16, message: String },
    /// The routes and upstreams of this configuration take the place of those
    /// that there are.
    Replace { status: u16, config: Config, routes: usize, upstreams: usize },
}

/// What the caller is told where it is not known which file to read.
pub open spec fn no_path_message() -> Seq<char> {
    "esta instancia no sabe de qué archivo recargar (¿se está usando AppState sin config_path, ej. en tests?)"@
}

/// Decides what is done when the configuration is to be read again: whether a
/// file is known, and what reading it came to, if it was read. Only a
/// configuration that can be used replaces anything.
pub fn reload_decision(has_path: bool, loaded: Option<Result<Config, ConfigError>>) -> (r:
    ReloadDecision)
    ensures
        match (has_path, loaded) {
            (true, Some(Ok(c))) => r matches ReloadDecision::Replace {
                status,
                config,
                routes,
                upstreams,
            } && status == 200 && config == c && routes == c.routes@.len() && upstreams
                == c.upstreams.keys().len(),
            (true, Some(Err(e))) => r matches ReloadDecision::Refuse { status, message } && status
                == 400 && message@ == e.spec_message(),
            _ => r matches ReloadDecision::Refuse { status, message } && status == 501
                && message@ == no_path_message(),
        },
{
    match loaded {
        Some(Ok(config)) if has_path => {
            let routes: usize = config.routes.len();
            let upstreams: usize = config.upstreams.len();
            ReloadDecision::Replace { status: 200, config, routes, upstreams }
        },
        Some(Err(e)) if has_path => ReloadDecision::Refuse { status: 400, message: e.message() },
        _ => ReloadDecision::Refuse {
            status: 501,
            message: "esta instancia no sabe de qué archivo recargar (¿se está usando AppState sin config_path, ej. en tests?)".to_string(),
        },
    }
}

/// A few numbers on the gateway.
#[derive(Debug, Clone, Copy)]
pub struct Stats {
    pub uptime_nanos: u128,
    pub total_requests: u64,
    pub total_gateway_failures: u64,
    pub routes_configured: usize,
    pub upstreams_configured: usize,
}

/// A few numbers on the gateway.
pub fn stats(m: &Metrics, router: &Router, upstreams: &UpstreamManager) -> (r: Stats)
    ensures
        clock::is_reading(m@.clock, r.uptime_nanos as int),
        r.total_requests == m@.total,
        r.total_gateway_failures == counts::counted::<String>(
            m@.failures,
            counts::every_key::<String>(),
        ),
        r.routes_configured == router.spec_routes().len(),
        r.upstreams_configured == upstreams.names().len(),
{
    Stats {
        uptime_nanos: m.uptime_nanos(),
        total_requests: m.total_requests(),
        total_gateway_failures: m.total_gateway_failures(),
        routes_configured: router.routes().len(),
        upstreams_configured: upstreams.len(),
    }
}

/// The upstreams that are told to be degraded are exactly those in which every
/// backend is unhealthy or has an open circuit.
pub proof fn upstreams_without_a_backend_are_told(states: Seq<PoolView>, n: nat)
    requires
        n <= states.len(),
    ensures
        forall|name: Seq<char>| #[trigger]
            degraded(states, n).contains(name) <==> exists|i: int|
                {
                    &&& 0 <= i < n
                    &&& (#[trigger] states[i]).name == name
                    &&& forall|j: int|
                        0 <= j < states[i].backends.len() ==> !(
                        #[trigger] states[i].backends[j]).healthy
                            || states[i].backends[j].circuit.state == CircuitState::Open
                },
    decreases n,
{
    if n > 0 {
        let rest = degraded(states, (n - 1) as nat);
        let all = degraded(states, n);
        let last = states[n - 1];
        upstreams_without_a_backend_are_told(states, (n - 1) as nat);
        let out = forall|j: int|
            0 <= j < last.backends.len() ==> !(#[trigger] last.backends[j]).healthy
                || last.backends[j].circuit.state == CircuitState::Open;
        assert(out <==> !has_backend_up(last)) by {
            if has_backend_up(last) {
                let j = choose|j: int|
                    0 <= j < last.backends.len() && is_up(#[trigger] last.backends[j]);
                assert(last.backends[j].healthy);
            } else {
                assert forall|j: int| 0 <= j < last.backends.len() implies !(
                #[trigger] last.backends[j]).healthy || last.backends[j].circuit.state
                    == CircuitState::Open by {
                    assert(!is_up(last.backends[j]));
                }
            }
        }
        assert forall|name: Seq<char>| #[trigger] all.contains(name) <==> exists|i: int|
            {
                &&& 0 <= i < n
                &&& (#[trigger] states[i]).name == name
                &&& forall|j: int|
                    0 <= j < states[i].backends.len() ==> !(#[trigger] states[i].backends[j]).healthy
                        || states[i].backends[j].circuit.state == CircuitState::Open
            } by {
            if out {
                assert(all =~= rest.push(last.name));
                if all.contains(name) {
                    let k = all.index_of(name);
                    if k < rest.len() {
                        assert(rest[k] == name);
                        assert(rest.contains(name));
                    } else {
                        assert(states[n - 1].name == name);
                    }
                }
                if rest.contains(name) {
                    assert(all[rest.index_of(name)] == name);
                }
                if last.name == name {
                    assert(all[rest.len() as int] == name);
                }
            } else {
                assert(all == rest);
            }
            assert(rest.contains(name) ==> exists|i: int|
                {
                    &&& 0 <= i < n - 1
                    &&& (#[trigger] states[i]).name == name
                    &&& forall|j: int|
                        0 <= j < states[i].backends.len() ==> !(
                        #[trigger] states[i].backends[j]).healthy
                            || states[i].backends[j].circuit.state == CircuitState::Open
                });
        }
    }
}

} // verus!
