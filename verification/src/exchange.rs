//! A request on its way through the gateway, from its head to the answer.
//!
//! What takes time happens elsewhere: reading the body, asking a backend,
//! waiting. Here it is decided what comes next, and noted how it went.

use crate::balancer;
use crate::balancer::{ConnectionGuard, PoolView};
use crate::circuit::CircuitState;
use crate::clock;
use crate::clock::Clock;
use crate::counts;
use crate::headers;
use crate::metrics;
use crate::metrics::{Metrics, MetricsView};
use crate::proxy;
use crate::proxy::{
    AfterAttempt, Attempts, AttemptsView, BodyRead, Forward, Outcome, Refusal, RefusalView, Shared,
    Step, StepView,
};
use crate::text;
use axum::http::HeaderMap;
use vstd::prelude::*;

verus! {

/// Readings of the clocks, and a seed for random numbers.
#[derive(Debug, Clone, Copy)]
pub struct Moment {
    /// Seconds since the Unix epoch.
    pub secs: i64,
    /// The time on the clock of the router.
    pub router: u128,
    /// The time on the clock of the upstreams.
    pub upstreams: u128,
    pub seed: u64,
    /// Milliseconds since the request came.
    pub elapsed_ms: u64,
}

impl Moment {
    /// The moment of the call, for a request that came when `started` was
    /// started.
    pub fn now(shared: &Shared, started: &Clock) -> (m: Moment)
        ensures
            clock::is_unix_seconds(m.secs),
            clock::is_reading(shared.router.spec_clock(), m.router as int),
            clock::is_reading(shared.upstreams.spec_clock(), m.upstreams as int),
            clock::is_unix_nanos(m.seed, balancer::SEED_FALLBACK),
            exists|at: std::time::Instant|
                m.elapsed_ms == (#[trigger] clock::reading(*started, at) / 1_000_000) as u64,
    {
        Moment {
            secs: clock::unix_seconds(),
            router: shared.router.now(),
            upstreams: shared.upstreams.now(),
            seed: clock::unix_nanos_or(balancer::SEED_FALLBACK),
            elapsed_ms: (started.now() / 1_000_000) as u64,
        }
    }
}

/// The head of a request.
#[derive(Debug)]
pub struct RequestHead {
    pub method: String,
    pub path: String,
    pub path_and_query: Option<String>,
    pub headers: HeaderMap,
    /// The address of the client, if it is known.
    pub client_ip: Option<String>,
}

/// A request that has a route and an upstream, and may be sent on once its body
/// has been read.
#[derive(Debug)]
pub struct Admitted {
    pub head: RequestHead,
    /// The path of the route.
    pub route: String,
    /// The place of the upstream.
    pub upstream: usize,
}

/// Decides of a request by its head. A refusal is counted.
pub fn admit_request(
    shared: &mut Shared,
    metrics: &mut Metrics,
    head: RequestHead,
    at: &Moment,
) -> (r: Result<Admitted, Refusal>)
    ensures
        ({
            let routes = old(shared).router.spec_routes();
            let (decision, limiters) = proxy::entry_decision(
                routes,
                old(shared).router.limiters(),
                old(shared).upstreams.names(),
                head.path@,
                headers::header_lines(head.headers),
                text::opt_text(head.client_ip),
                at.secs,
                at.router as int,
            );
            &&& final(shared).router.spec_routes() == routes
            &&& final(shared).router.limiters() == limiters
            &&& final(shared).upstreams == old(shared).upstreams
            &&& match decision {
                Err(refusal) => {
                    &&& r matches Err(e) && e@ == refusal
                    &&& final(metrics)@ == proxy::noted_refusal(
                        old(metrics)@,
                        head.method@,
                        refusal,
                        at.elapsed_ms,
                    )
                },
                Ok(target) => {
                    &&& r matches Ok(a) && a.head == head && a.route@ == routes[target.route].path@
                        && a.upstream == target.upstream
                    &&& final(metrics)@ == old(metrics)@
                },
            }
        }),
        r matches Ok(a) ==> a.upstream < final(shared).upstreams.states().len(),
{
    let client_ip = proxy::borrowed(&head.client_ip);
    let decision = shared.decide_at(
        head.path.as_str(),
        &head.headers,
        client_ip,
        at.secs,
        at.router,
    );
    match decision {
        Ok(admission) => {
            let route = shared.router.routes()[admission.route].path.clone();
            Ok(Admitted { head, route, upstream: admission.upstream })
        },
        Err(refusal) => {
            proxy::note_refusal(metrics, head.method.as_str(), &refusal, at.elapsed_ms);
            Err(refusal)
        },
    }
}

/// An exchange as its contracts see it.
#[verifier::ext_equal]
pub struct ExchangeView {
    pub method: Seq<char>,
    pub path_and_query: Option<Seq<char>>,
    /// The header lines as they are sent on.
    pub lines: Map<Seq<char>, Seq<Seq<u8>>>,
    /// The host that the client has asked for.
    pub original_host: Option<Seq<char>>,
    pub request_id: Seq<char>,
    /// The path of the route.
    pub route: Seq<char>,
    /// The place of the upstream.
    pub upstream: int,
    pub attempts: AttemptsView,
    /// The place of the backend that is being asked.
    pub under_way: Option<int>,
}

/// What is sent on of a request, the same in every attempt.
#[derive(Debug)]
struct Outgoing {
    method: String,
    path_and_query: Option<String>,
    headers: HeaderMap,
    original_host: Option<String>,
    request_id: String,
    route: String,
    upstream: usize,
}

impl Outgoing {
    /// What is sent to the backend at `url`, if it makes a URI and the headers
    /// take what is added to them.
    fn forward_to(&self, url: &str) -> (r: Option<Forward>)
        ensures
            ({
                let uri = proxy::backend_uri(url@, text::opt_text(self.path_and_query));
                match r {
                    Some(f) => {
                        &&& proxy::can_forward(uri, self.request_id@)
                        &&& f.uri@ == uri
                        &&& headers::header_lines(f.headers) == proxy::forwarded_lines(
                            headers::header_lines(self.headers),
                            proxy::host_for(uri),
                            text::opt_text(self.original_host),
                            self.request_id@,
                        )
                    },
                    None => !(proxy::can_forward(uri, self.request_id@) && headers::has_room(
                        self.headers,
                        3,
                    )),
                }
            }),
    {
        let plan = proxy::plan_forward(
            url,
            proxy::borrowed(&self.path_and_query),
            &self.headers,
            proxy::borrowed(&self.original_host),
            self.request_id.as_str(),
        );
        match plan {
            Ok(forward) => Some(forward),
            Err(_) => None,
        }
    }
}

/// A request that is sent on.
#[derive(Debug)]
pub struct Exchange {
    request: Outgoing,
    attempts: Attempts,
    under_way: Option<ConnectionGuard>,
}

impl View for Exchange {
    type V = ExchangeView;

    closed spec fn view(&self) -> ExchangeView {
        ExchangeView {
            method: self.request.method@,
            path_and_query: text::opt_text(self.request.path_and_query),
            lines: headers::header_lines(self.request.headers),
            original_host: text::opt_text(self.request.original_host),
            request_id: self.request.request_id@,
            route: self.request.route@,
            upstream: self.request.upstream as int,
            attempts: self.attempts@,
            under_way: match self.under_way {
                Some(guard) => Some(guard.spec_backend()),
                None => None,
            },
        }
    }
}

/// Whether the upstream of the exchange, and the backend that is being asked,
/// are among these.
pub open spec fn fits(x: ExchangeView, states: Seq<PoolView>) -> bool {
    &&& 0 <= x.upstream < states.len()
    &&& match x.under_way {
        Some(j) => 0 <= j < states[x.upstream].backends.len(),
        None => true,
    }
}

/// The exchange that a request begins once its body has been read.
pub open spec fn fresh_exchange(
    a: Admitted,
    scheme: Seq<char>,
    request_id: Seq<char>,
    pool: PoolView,
) -> ExchangeView {
    let lines = headers::header_lines(a.head.headers);
    ExchangeView {
        method: a.head.method@,
        path_and_query: text::opt_text(a.head.path_and_query),
        lines: proxy::augmented(lines, text::opt_text(a.head.client_ip), scheme),
        original_host: headers::header_text(lines, "host"@),
        request_id,
        route: a.route@,
        upstream: a.upstream as int,
        attempts: proxy::fresh_attempts(a.head.method@, pool.retry),
        under_way: None,
    }
}

impl Admitted {
    /// Begins the exchange with a backend, if the body of the request allows
    /// it. A refusal is counted. Nothing is begun where the headers are full.
    pub fn with_body(
        self,
        read: BodyRead,
        max_body_bytes: u64,
        scheme: &str,
        request_id: String,
        shared: &Shared,
        metrics: &mut Metrics,
        at: &Moment,
    ) -> (r: Option<Result<Exchange, Refusal>>)
        requires
            self.upstream < shared.upstreams.states().len(),
        ensures
            match (proxy::body_decision(read, max_body_bytes, self.route@), r) {
                (Some(refusal), Some(Err(e))) => {
                    &&& e@ == refusal
                    &&& final(metrics)@ == proxy::noted_refusal(
                        old(metrics)@,
                        self.head.method@,
                        refusal,
                        at.elapsed_ms,
                    )
                },
                (None, Some(Ok(x))) => {
                    &&& x@ == fresh_exchange(
                        self,
                        scheme@,
                        request_id@,
                        shared.upstreams.states()[self.upstream as int],
                    )
                    &&& fits(x@, shared.upstreams.states())
                    &&& final(metrics)@ == old(metrics)@
                },
                (None, None) => {
                    &&& !headers::has_room(self.head.headers, 2)
                    &&& final(metrics)@ == old(metrics)@
                },
                _ => false,
            },
    {
        if let Some(refusal) = proxy::check_body(read, max_body_bytes, self.route.as_str()) {
            proxy::note_refusal(metrics, self.head.method.as_str(), &refusal, at.elapsed_ms);
            return Some(Err(refusal));
        }
        let attempts = Attempts::new(
            self.head.method.as_str(),
            shared.upstreams.pool_at(self.upstream),
        );
        let Admitted { head, route, upstream } = self;
        let RequestHead { method, path: _, path_and_query, mut headers, client_ip } = head;
        let original_host = headers::text_of_header(&headers, "host");
        let done = proxy::sanitize_and_augment_headers(
            &mut headers,
            proxy::borrowed(&client_ip),
            scheme,
        );
        if !done {
            return None;
        }
        let request = Outgoing {
            method,
            path_and_query,
            headers,
            original_host,
            request_id,
            route,
            upstream,
        };
        Some(Ok(Exchange { request, attempts, under_way: None }))
    }
}

/// What comes next for an exchange.
pub enum NextView {
    /// The request is sent to a backend.
    Send { uri: Seq<char>, lines: Map<Seq<char>, Seq<Seq<u8>>>, timeout_ms: u64 },
    /// So many milliseconds are waited.
    Wait(u64),
    /// The gateway answers.
    Refuse(RefusalView),
}

/// What comes next for an exchange, and the exchange, the upstream and the
/// metrics behind it. A backend whose URL makes no URI, or for which the headers
/// do not take what is added to them, counts as one that could not be reached.
pub open spec fn next_of(
    x: ExchangeView,
    p: PoolView,
    m: MetricsView,
    at: Moment,
    taken: bool,
) -> (NextView, ExchangeView, PoolView, MetricsView) {
    let (step, attempts, pool) = proxy::next_step(x.attempts, p, at.upstreams as int, at.seed);
    match step {
        StepView::GiveUp => given_up(ExchangeView { attempts, ..x }, pool, m, at),
        StepView::Forward(j) => {
            let uri = proxy::backend_uri(p.backends[j].url, x.path_and_query);
            if proxy::can_forward(uri, x.request_id) && taken {
                (
                    NextView::Send {
                        uri,
                        lines: proxy::forwarded_lines(
                            x.lines,
                            proxy::host_for(uri),
                            x.original_host,
                            x.request_id,
                        ),
                        timeout_ms: p.timeout_ms,
                    },
                    ExchangeView { attempts, under_way: Some(j), ..x },
                    pool,
                    m,
                )
            } else {
                let (after, more) = proxy::after_attempt(attempts, Outcome::Unreachable);
                let settled = proxy::settled_pool(
                    pool,
                    j,
                    Outcome::Unreachable,
                    at.upstreams as int,
                );
                let behind = ExchangeView { attempts: more, ..x };
                match after {
                    AfterAttempt::Retry(ms) => (NextView::Wait(ms), behind, settled, m),
                    _ => given_up(behind, settled, m, at),
                }
            }
        },
    }
}

/// The gateway answers with the last failure, and counts it.
pub open spec fn given_up(x: ExchangeView, p: PoolView, m: MetricsView, at: Moment) -> (
    NextView,
    ExchangeView,
    PoolView,
    MetricsView,
) {
    let refusal = proxy::failure_reply(x.attempts.last_failure, x.route);
    (
        NextView::Refuse(refusal),
        x,
        p,
        proxy::noted_refusal(m, x.method, refusal, at.elapsed_ms),
    )
}

/// What comes next for an exchange.
#[derive(Debug)]
pub enum Next {
    /// The request is sent to a backend, which may take so many milliseconds.
    Send { forward: Forward, timeout_ms: u64 },
    /// So many milliseconds are waited, and then it is asked again what comes
    /// next.
    Wait(u64),
    /// The gateway answers.
    Refuse(Refusal),
}

/// What comes next, as the contracts see it.
pub open spec fn next_view(n: Next) -> NextView {
    match n {
        Next::Send { forward, timeout_ms } => NextView::Send {
            uri: forward.uri@,
            lines: headers::header_lines(forward.headers),
            timeout_ms,
        },
        Next::Wait(ms) => NextView::Wait(ms),
        Next::Refuse(r) => NextView::Refuse(r@),
    }
}

/// What is done with the outcome of an attempt.
pub enum SettledView {
    /// The answer of the backend goes to the client.
    Relay,
    /// So many milliseconds are waited.
    Wait(u64),
    /// The gateway answers.
    Refuse(RefusalView),
}

/// What is done with the outcome of an attempt, and the exchange, the upstream
/// and the metrics behind it. An answer is counted with its status.
pub open spec fn settled_with(
    x: ExchangeView,
    p: PoolView,
    m: MetricsView,
    outcome: Outcome,
    status: u16,
    at: Moment,
) -> (SettledView, ExchangeView, PoolView, MetricsView) {
    let (after, attempts) = proxy::after_attempt(x.attempts, outcome);
    let pool = proxy::settled_pool(p, x.under_way->0, outcome, at.upstreams as int);
    let behind = ExchangeView { attempts, under_way: None, ..x };
    match after {
        AfterAttempt::Reply => (
            SettledView::Relay,
            behind,
            pool,
            proxy::noted_response(m, x.method, x.route, status, at.elapsed_ms),
        ),
        AfterAttempt::Retry(ms) => (SettledView::Wait(ms), behind, pool, m),
        AfterAttempt::GiveUp => {
            let refusal = proxy::failure_reply(attempts.last_failure, x.route);
            (
                SettledView::Refuse(refusal),
                behind,
                pool,
                proxy::noted_refusal(m, x.method, refusal, at.elapsed_ms),
            )
        },
    }
}

/// What is done with the outcome of an attempt.
#[derive(Debug)]
pub enum Settled {
    /// The answer of the backend goes to the client.
    Relay,
    /// So many milliseconds are waited, and then it is asked what comes next.
    Wait(u64),
    /// The gateway answers.
    Refuse(Refusal),
}

/// What is done, as the contracts see it.
pub open spec fn settled_view(s: Settled) -> SettledView {
    match s {
        Settled::Relay => SettledView::Relay,
        Settled::Wait(ms) => SettledView::Wait(ms),
        Settled::Refuse(r) => SettledView::Refuse(r@),
    }
}

impl Exchange {
    /// The answer of the gateway after the last failure, which is counted.
    fn give_up(&self, metrics: &mut Metrics, at: &Moment) -> (refusal: Refusal)
        ensures
            refusal@ == proxy::failure_reply(self@.attempts.last_failure, self@.route),
            final(metrics)@ == proxy::noted_refusal(
                old(metrics)@,
                self@.method,
                refusal@,
                at.elapsed_ms,
            ),
    {
        let refusal = self.attempts.reply(self.request.route.as_str());
        proxy::note_refusal(metrics, self.request.method.as_str(), &refusal, at.elapsed_ms);
        refusal
    }

    /// Decides what comes next. An answer of the gateway is counted.
    pub fn next(&mut self, shared: &mut Shared, metrics: &mut Metrics, at: &Moment) -> (next: Next)
        requires
            fits(old(self)@, old(shared).upstreams.states()),
            old(self)@.under_way is None,
        ensures
            ({
                let i = old(self)@.upstream;
                let states = old(shared).upstreams.states();
                exists|taken: bool|
                    (headers::leaves_room(old(self)@.lines, 3) ==> taken) && (
                        next_view(next),
                        final(self)@,
                        final(shared).upstreams.states()[i],
                        final(metrics)@,
                    ) == #[trigger] next_of(old(self)@, states[i], old(metrics)@, *at, taken)
            }),
            final(shared).upstreams.states() == old(shared).upstreams.states().update(
                old(self)@.upstream,
                final(shared).upstreams.states()[old(self)@.upstream],
            ),
            final(shared).router == old(shared).router,
            final(shared).upstreams.names() == old(shared).upstreams.names(),
            fits(final(self)@, final(shared).upstreams.states()),
            next is Send <==> final(self)@.under_way is Some,
            next matches Next::Send { forward: _, timeout_ms } ==> timeout_ms == old(
                shared,
            ).upstreams.states()[old(self)@.upstream].timeout_ms,
            next matches Next::Wait(ms) ==> ms == old(self)@.attempts.backoff_ms,
            next matches Next::Refuse(r) ==> r.route@ == old(self)@.route && (r.status == 502
                || r.status == 503 || r.status == 504),
    {
        let ghost mut taken: bool = true;
        let pool = shared.upstreams.pool_at_mut(self.request.upstream);
        let ghost before = pool@;
        let next = match self.attempts.next_at(pool, at.upstreams, at.seed) {
            Step::GiveUp => Next::Refuse(self.give_up(metrics, at)),
            Step::Forward(guard) => {
                proof {
                    balancer::selected_backend_is_available(before, at.upstreams as int, at.seed);
                }
                let url = pool.backends()[guard.backend()].url().to_string();
                match self.request.forward_to(url.as_str()) {
                    Some(forward) => {
                        self.under_way = Some(guard);
                        Next::Send { forward, timeout_ms: pool.timeout_ms() }
                    },
                    None => {
                        proof {
                            taken = headers::has_room(self.request.headers, 3);
                        }
                        let after = self.attempts.finish_at(
                            pool,
                            guard,
                            Outcome::Unreachable,
                            at.upstreams,
                        );
                        match after {
                            AfterAttempt::Retry(ms) => Next::Wait(ms),
                            _ => Next::Refuse(self.give_up(metrics, at)),
                        }
                    },
                }
            },
        };
        assert((
            next_view(next),
            self@,
            shared.upstreams.states()[self@.upstream],
            metrics@,
        ) == next_of(old(self)@, before, old(metrics)@, *at, taken));
        next
    }

    /// Takes note of how the attempt that is under way has ended, with the
    /// status of the answer where there is one, and decides what is done then.
    pub fn settle(
        &mut self,
        shared: &mut Shared,
        metrics: &mut Metrics,
        outcome: Outcome,
        status: u16,
        at: &Moment,
    ) -> (settled: Settled)
        requires
            fits(old(self)@, old(shared).upstreams.states()),
            old(self)@.under_way is Some,
        ensures
            ({
                let i = old(self)@.upstream;
                let states = old(shared).upstreams.states();
                let (expected, x, p, m) = settled_with(
                    old(self)@,
                    states[i],
                    old(metrics)@,
                    outcome,
                    status,
                    *at,
                );
                &&& settled_view(settled) == expected
                &&& final(self)@ == x
                &&& final(shared).upstreams.states() == states.update(i, p)
                &&& final(metrics)@ == m
            }),
            final(shared).router == old(shared).router,
            final(shared).upstreams.names() == old(shared).upstreams.names(),
            fits(final(self)@, final(shared).upstreams.states()),
            settled is Relay <==> outcome == Outcome::Answered,
            settled matches Settled::Wait(ms) ==> ms == old(self)@.attempts.backoff_ms,
            settled is Wait <==> outcome != Outcome::Answered && old(self)@.attempts.made < old(
                self,
            )@.attempts.allowed,
            settled matches Settled::Refuse(r) ==> r.route@ == old(self)@.route && r.status
                == if outcome == Outcome::TimedOut {
                504u16
            } else {
                502u16
            },
    {
        let pool = shared.upstreams.pool_at_mut(self.request.upstream);
        let mut under_way: Option<ConnectionGuard> = None;
        std::mem::swap(&mut under_way, &mut self.under_way);
        let after = match under_way {
            Some(guard) => self.attempts.finish_at(pool, guard, outcome, at.upstreams),
            None => AfterAttempt::GiveUp,
        };
        match after {
            AfterAttempt::Reply => {
                proxy::note_response(
                    metrics,
                    self.request.method.as_str(),
                    self.request.route.as_str(),
                    status,
                    at.elapsed_ms,
                );
                Settled::Relay
            },
            AfterAttempt::Retry(ms) => Settled::Wait(ms),
            AfterAttempt::GiveUp => Settled::Refuse(self.give_up(metrics, at)),
        }
    }

    /// Gives the attempt that is under way up, if there is one, because the
    /// client has gone away. The backend has one request less under way.
    pub fn abandon(&mut self, shared: &mut Shared)
        requires
            fits(old(self)@, old(shared).upstreams.states()),
        ensures
            final(self)@ == (ExchangeView { under_way: None, ..old(self)@ }),
            ({
                let i = old(self)@.upstream;
                let states = old(shared).upstreams.states();
                final(shared).upstreams.states() == match old(self)@.under_way {
                    Some(j) => states.update(
                        i,
                        balancer::with_backend(
                            states[i],
                            j,
                            balancer::one_connection_less(states[i].backends[j]),
                        ),
                    ),
                    None => states,
                }
            }),
            old(self)@.under_way matches Some(j) ==> {
                let i = old(self)@.upstream;
                let before = old(shared).upstreams.states()[i].backends[j];
                let after = final(shared).upstreams.states()[i].backends[j];
                &&& after.circuit == before.circuit
                &&& after.healthy == before.healthy
                &&& before.connections > 0 ==> after.connections == before.connections - 1
            },
            final(shared).router == old(shared).router,
            final(shared).upstreams.names() == old(shared).upstreams.names(),
            fits(final(self)@, final(shared).upstreams.states()),
    {
        let mut under_way: Option<ConnectionGuard> = None;
        std::mem::swap(&mut under_way, &mut self.under_way);
        if let Some(guard) = under_way {
            shared.upstreams.pool_at_mut(self.request.upstream).release(guard);
        }
    }
}

/// An exchange comes to an end: each time it is asked what comes next, the
/// gateway answers or one more of the allowed attempts has been made. The
/// outcome of an attempt takes none of them back.
pub proof fn an_exchange_ends(
    x: ExchangeView,
    p: PoolView,
    m: MetricsView,
    outcome: Outcome,
    status: u16,
    at: Moment,
    taken: bool,
)
    requires
        x.attempts.made <= x.attempts.allowed,
    ensures
        ({
            let (next, after, _, _) = next_of(x, p, m, at, taken);
            &&& after.attempts.allowed == x.attempts.allowed
            &&& after.attempts.made <= after.attempts.allowed
            &&& next is Refuse || after.attempts.made == x.attempts.made + 1
            &&& next is Wait ==> after.attempts.made < after.attempts.allowed
        }),
        ({
            let (settled, after, _, _) = settled_with(x, p, m, outcome, status, at);
            &&& after.attempts.allowed == x.attempts.allowed
            &&& after.attempts.made == x.attempts.made
            &&& settled is Wait ==> after.attempts.made < after.attempts.allowed
        }),
{
}

/// A request is counted when the client is answered, once, and not while
/// another attempt is to come.
pub proof fn an_answer_is_counted_once(
    x: ExchangeView,
    p: PoolView,
    m: MetricsView,
    outcome: Outcome,
    status: u16,
    at: Moment,
    taken: bool,
)
    requires
        metrics::has_room(m, x.route, at.elapsed_ms as int),
    ensures
        ({
            let (next, _, _, after) = next_of(x, p, m, at, taken);
            if next is Refuse {
                after.total == m.total + 1
            } else {
                after == m
            }
        }),
        ({
            let (settled, _, _, after) = settled_with(x, p, m, outcome, status, at);
            if settled is Wait {
                after == m
            } else {
                after.total == m.total + 1
            }
        }),
{
}

/// Whatever becomes of an attempt, its backends have as many requests under way
/// behind it as before: where the outcome is taken note of, where the attempt
/// is given up, and where nothing was sent.
pub proof fn an_attempt_leaves_the_connections_as_they_were(
    x: ExchangeView,
    p: PoolView,
    m: MetricsView,
    outcome: Outcome,
    status: u16,
    at: Moment,
    taken: bool,
    later: Moment,
    i: int,
)
    requires
        balancer::is_sound(p),
        x.under_way is None,
        0 <= i < p.backends.len(),
    ensures
        ({
            let (next, sent, q, n) = next_of(x, p, m, at, taken);
            match sent.under_way {
                Some(j) => {
                    let settled = settled_with(sent, q, n, outcome, status, later).2;
                    let abandoned = balancer::with_backend(
                        q,
                        j,
                        balancer::one_connection_less(q.backends[j]),
                    );
                    &&& next is Send
                    &&& settled.backends[i].connections == p.backends[i].connections
                    &&& abandoned.backends[i].connections == p.backends[i].connections
                },
                None => {
                    &&& !(next is Send)
                    &&& q.backends[i].connections == p.backends[i].connections
                },
            }
        }),
{
    balancer::selected_backend_is_available(p, at.upstreams as int, at.seed);
    proxy::attempt_leaves_no_connection_behind(
        x.attempts,
        p,
        at.upstreams as int,
        at.seed,
        Outcome::Unreachable,
        at.upstreams as int,
    );
    proxy::attempt_leaves_no_connection_behind(
        x.attempts,
        p,
        at.upstreams as int,
        at.seed,
        outcome,
        later.upstreams as int,
    );
    if let StepView::Forward(j) = proxy::next_step(
        x.attempts,
        p,
        at.upstreams as int,
        at.seed,
    ).0 {
        let chosen = balancer::choose_backend(p, at.upstreams as int, at.seed).1;
        balancer::release_undoes_track(chosen.backends[j]);
    }
}

/// A request is sent to a backend of its upstream that is healthy and whose
/// circuit lets it through, at its URL and with the path and query that it came
/// with; with the header lines that it came with, but for what the gateway takes
/// away and sets, the host that the client has asked for and the id of the
/// request among them; and it may take as long as the upstream says. The backend
/// has one request more under way, one attempt has been made, and nothing is
/// counted yet.
pub proof fn a_request_is_sent_to_a_backend_in_rotation(
    a: Admitted,
    scheme: Seq<char>,
    request_id: Seq<char>,
    p: PoolView,
    m: MetricsView,
    at: Moment,
    taken: bool,
)
    requires
        balancer::is_sound(p),
    ensures
        ({
            let x = fresh_exchange(a, scheme, request_id, p);
            let (next, sent, q, n) = next_of(x, p, m, at, taken);
            next matches NextView::Send { uri, lines, timeout_ms } ==> {
                &&& sent.under_way is Some
                &&& {
                    let j = sent.under_way->0;
                    let came = headers::header_lines(a.head.headers);
                    &&& 0 <= j < p.backends.len()
                    &&& p.backends[j].healthy
                    &&& !balancer::is_out(p.backends[j], at.upstreams as int)
                    &&& uri == proxy::backend_uri(
                        p.backends[j].url,
                        text::opt_text(a.head.path_and_query),
                    )
                    &&& lines == proxy::lines_sent(
                        came,
                        text::opt_text(a.head.client_ip),
                        scheme,
                        proxy::host_for(uri),
                        headers::header_text(came, "host"@),
                        request_id,
                    )
                    &&& timeout_ms == p.timeout_ms
                    &&& p.backends[j].connections < usize::MAX ==> q.backends[j].connections
                        == p.backends[j].connections + 1
                    &&& sent.attempts.made == 1
                    &&& n == m
                }
            }
        }),
{
    let now = at.upstreams as int;
    balancer::selected_backend_is_available(p, now, at.seed);
    if let Some(j) = balancer::choose_backend(p, now, at.seed).0 {
        balancer::usable_backends(p.backends[j], now);
    }
}

/// While a backend is well and an attempt is left, the request is sent, as long
/// as the URLs of the backends make URIs and the headers leave room for what is
/// added to them.
pub proof fn a_request_is_sent_while_a_backend_is_well(
    x: ExchangeView,
    p: PoolView,
    m: MetricsView,
    at: Moment,
    i: int,
)
    requires
        balancer::is_sound(p),
        x.attempts.made < x.attempts.allowed,
        0 <= i < p.backends.len(),
        p.backends[i].healthy,
        p.backends[i].circuit.state == CircuitState::Closed,
        forall|j: int|
            0 <= j < p.backends.len() ==> proxy::can_forward(
                proxy::backend_uri((#[trigger] p.backends[j]).url, x.path_and_query),
                x.request_id,
            ),
    ensures
        next_of(x, p, m, at, true).0 is Send,
        next_of(x, p, m, at, true).1.attempts.made == x.attempts.made + 1,
        next_of(x, p, m, at, true).3 == m,
{
    let now = at.upstreams as int;
    balancer::a_well_backend_means_selection(p, now, at.seed, i);
    balancer::selected_backend_is_available(p, now, at.seed);
    let j = balancer::choose_backend(p, now, at.seed).0->0;
    assert(proxy::can_forward(
        proxy::backend_uri(p.backends[j].url, x.path_and_query),
        x.request_id,
    ));
}

/// An exchange begins with what the request came with: its method, by which the
/// number of its attempts goes, its path and query, the host that the client has
/// asked for, and its route and upstream. Nothing has been sent yet.
pub proof fn exchanges_begin_as_requests_come(
    a: Admitted,
    scheme: Seq<char>,
    request_id: Seq<char>,
    p: PoolView,
)
    ensures
        ({
            let x = fresh_exchange(a, scheme, request_id, p);
            let method = a.head.method@;
            let again = method == "GET"@ || method == "HEAD"@ || method == "OPTIONS"@ || method
                == "PUT"@ || method == "DELETE"@;
            &&& x.method == method
            &&& x.path_and_query == text::opt_text(a.head.path_and_query)
            &&& x.original_host == headers::header_text(
                headers::header_lines(a.head.headers),
                "host"@,
            )
            &&& x.request_id == request_id
            &&& x.route == a.route@
            &&& x.upstream == a.upstream
            &&& x.under_way is None
            &&& x.attempts.made == 0
            &&& x.attempts.allowed == if again {
                p.retry.max_attempts as int
            } else {
                1
            }
            &&& x.attempts.backoff_ms == p.retry.backoff_ms
        }),
{
    proxy::attempts_go_by_the_method(a.head.method@, p.retry);
}

/// The answer of a backend goes to the client, whatever its status is, and is
/// counted with that status. After a timeout, or where the backend could not be
/// reached, the next attempt follows after the backoff while one is left, with
/// nothing counted; else the client is answered 504 or 502, which is counted as a
/// failure of the route. The circuit of the backend knows each outcome.
pub proof fn outcomes_are_answered(
    x: ExchangeView,
    p: PoolView,
    m: MetricsView,
    outcome: Outcome,
    status: u16,
    at: Moment,
)
    requires
        x.under_way is Some,
        0 <= x.under_way->0 < p.backends.len(),
        p.backends[x.under_way->0].circuit.failures < u32::MAX,
        m.total < u64::MAX,
        metrics::latencies_of(m, x.route).sum_ms + at.elapsed_ms <= u64::MAX,
    ensures
        ({
            let (settled, after, q, n) = settled_with(x, p, m, outcome, status, at);
            let j = x.under_way->0;
            let before = p.backends[j].circuit;
            let behind = q.backends[j].circuit;
            &&& after.under_way is None
            &&& after.attempts.made == x.attempts.made
            &&& outcome == Outcome::Answered ==> {
                &&& settled is Relay
                &&& n.total == m.total + 1
                &&& counts::count_of(n.requests, (x.method, x.route, status)) == counts::count_of(
                    m.requests,
                    (x.method, x.route, status),
                ) + 1
                &&& n.failures == m.failures
                &&& n.rejections == m.rejections
                &&& behind.state == CircuitState::Closed
                &&& behind.failures == 0
            }
            &&& outcome != Outcome::Answered ==> {
                let code = if outcome == Outcome::TimedOut {
                    504u16
                } else {
                    502u16
                };
                &&& before.state == CircuitState::Closed ==> behind.failures == before.failures + 1
                &&& before.state == CircuitState::Closed && before.failures + 1 >= before.threshold
                    || before.state == CircuitState::HalfOpen ==> behind.state
                    == CircuitState::Open
                &&& x.attempts.made < x.attempts.allowed ==> settled == SettledView::Wait(
                    x.attempts.backoff_ms,
                ) && n == m
                &&& x.attempts.made >= x.attempts.allowed ==> {
                    &&& settled matches SettledView::Refuse(r) && r.status == code && r.route
                        == x.route && r.message == if outcome == Outcome::TimedOut {
                        "upstream timeout"@
                    } else {
                        "upstream unreachable"@
                    }
                    &&& n.total == m.total + 1
                    &&& counts::count_of(n.requests, (x.method, x.route, code)) == counts::count_of(
                        m.requests,
                        (x.method, x.route, code),
                    ) + 1
                    &&& counts::count_of(n.failures, x.route) == counts::count_of(
                        m.failures,
                        x.route,
                    ) + 1
                }
            }
        }),
{
    proxy::outcomes_reach_the_circuit(p, x.under_way->0, outcome, at.upstreams as int);
}

/// Where no backend is in rotation, nothing is sent, and the client is answered
/// 503, which is counted as a failure of the route.
pub proof fn no_backend_means_unavailable(
    x: ExchangeView,
    p: PoolView,
    m: MetricsView,
    at: Moment,
    taken: bool,
)
    requires
        balancer::is_sound(p),
        x.attempts.made < x.attempts.allowed,
        forall|i: int|
            0 <= i < p.backends.len() ==> balancer::is_out(
                #[trigger] p.backends[i],
                at.upstreams as int,
            ),
        m.total < u64::MAX,
        metrics::latencies_of(m, x.route).sum_ms + at.elapsed_ms <= u64::MAX,
    ensures
        ({
            let (next, after, q, n) = next_of(x, p, m, at, taken);
            &&& next matches NextView::Refuse(r) && r.status == 503 && r.route == x.route
                && r.message == "no healthy backend available"@
            &&& after.attempts.made == x.attempts.made
            &&& q.backends == p.backends
            &&& n.total == m.total + 1
            &&& counts::count_of(n.requests, (x.method, x.route, 503u16)) == counts::count_of(
                m.requests,
                (x.method, x.route, 503u16),
            ) + 1
            &&& counts::count_of(n.failures, x.route) == counts::count_of(m.failures, x.route) + 1
        }),
{
    proxy::nothing_is_sent_without_a_backend(
        x.attempts,
        p,
        at.upstreams as int,
        at.seed,
        x.route,
    );
}

/// A backend whose URL makes no URI counts as one that could not be reached:
/// nothing is sent, its circuit has one failure more, and the next attempt
/// follows or the client is answered 502.
pub proof fn a_url_that_is_no_uri_is_a_failure(
    x: ExchangeView,
    p: PoolView,
    m: MetricsView,
    at: Moment,
    taken: bool,
    i: int,
)
    requires
        balancer::is_sound(p),
        x.under_way is None,
        x.attempts.made < x.attempts.allowed,
        0 <= i < p.backends.len(),
        balancer::choose_backend(p, at.upstreams as int, at.seed).0 == Some(i),
        proxy::uri_authority(proxy::backend_uri(p.backends[i].url, x.path_and_query)) is None,
        p.backends[i].circuit.state == CircuitState::Closed,
        p.backends[i].circuit.failures < u32::MAX,
    ensures
        ({
            let (next, after, q, _) = next_of(x, p, m, at, taken);
            &&& after.attempts.made == x.attempts.made + 1
            &&& after.under_way is None
            &&& q.backends[i].circuit.failures == p.backends[i].circuit.failures + 1
            &&& q.backends[i].connections == p.backends[i].connections
            &&& if x.attempts.made + 1 < x.attempts.allowed {
                next == NextView::Wait(x.attempts.backoff_ms)
            } else {
                next matches NextView::Refuse(r) && r.status == 502 && r.route == x.route
            }
        }),
{
    let now = at.upstreams as int;
    balancer::selected_backend_is_available(p, now, at.seed);
    let chosen = balancer::choose_backend(p, now, at.seed).1;
    let begun = balancer::with_backend(
        chosen,
        i,
        balancer::one_connection_more(chosen.backends[i]),
    );
    assert(chosen.backends[i] == p.backends[i]);
    proxy::outcomes_reach_the_circuit(begun, i, Outcome::Unreachable, now);
    balancer::release_undoes_track(chosen.backends[i]);
}

} // verus!
