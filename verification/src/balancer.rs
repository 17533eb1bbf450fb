//! Upstreams: the backends of each, how they are doing, and which of them gets
//! the next request.

use crate::circuit;
use crate::circuit::{CircuitBreaker, CircuitView};
use crate::clock;
use crate::clock::Clock;
use crate::config::{
    CircuitBreakerConfig, HealthCheckConfig, LoadBalancerStrategy, RetryConfig, ServerEntry,
    UpstreamConfig,
};
use crate::sorted_map;
use crate::sorted_map::{OrderedKey, SortedMap};
use crate::weighted;
use crate::weighted::SmoothWeights;
use vstd::prelude::*;

verus! {

/// A backend as its contracts see it.
pub struct BackendView {
    pub url: Seq<char>,
    pub weight: u32,
    pub healthy: bool,
    /// Successful health checks since the last failed one.
    pub successes: u32,
    /// Failed health checks since the last successful one.
    pub failures: u32,
    /// Requests under way.
    pub connections: usize,
    pub circuit: CircuitView,
    /// The place of the backend in its upstream.
    pub place: int,
}

/// A server of an upstream.
#[derive(Debug)]
pub struct Backend {
    pub url: String,
    pub weight: u32,
    healthy: bool,
    consecutive_successes: u32,
    consecutive_failures: u32,
    active_connections: usize,
    pub circuit: CircuitBreaker,
    place: usize,
}

impl View for Backend {
    type V = BackendView;

    closed spec fn view(&self) -> BackendView {
        BackendView {
            url: self.url@,
            weight: self.weight,
            healthy: self.healthy,
            successes: self.consecutive_successes,
            failures: self.consecutive_failures,
            connections: self.active_connections,
            circuit: self.circuit@,
            place: self.place as int,
        }
    }
}

/// A backend that nothing is known of yet. It is taken to be healthy, so that
/// traffic is not turned away before the first health check.
pub open spec fn fresh_backend(
    url: Seq<char>,
    weight: u32,
    config: CircuitBreakerConfig,
    clock: Clock,
    place: int,
) -> BackendView {
    BackendView {
        url,
        weight,
        healthy: true,
        successes: 0,
        failures: 0,
        connections: 0,
        circuit: circuit::closed_circuit(config, clock),
        place,
    }
}

/// What the outcome of a health check does, and which change of health it
/// brings about, if any: it takes a number of equal outcomes in a row.
pub open spec fn checked(
    b: BackendView,
    success: bool,
    healthy_threshold: u32,
    unhealthy_threshold: u32,
) -> (Option<bool>, BackendView) {
    if success {
        let counted = BackendView { failures: 0, successes: circuit::one_more(b.successes), ..b };
        if !b.healthy && counted.successes >= healthy_threshold {
            (Some(true), BackendView { healthy: true, ..counted })
        } else {
            (None, counted)
        }
    } else {
        let counted = BackendView { successes: 0, failures: circuit::one_more(b.failures), ..b };
        if b.healthy && counted.failures >= unhealthy_threshold {
            (Some(false), BackendView { healthy: false, ..counted })
        } else {
            (None, counted)
        }
    }
}

/// Whether a backend may be thought of for a request: it is healthy and its
/// circuit is not in its cooldown.
pub open spec fn is_candidate(b: BackendView, now: int) -> bool {
    b.healthy && !circuit::in_cooldown(b.circuit, now)
}

/// Whether a backend gets a request when it is asked: it is healthy and its
/// circuit lets the request through.
pub open spec fn is_usable(b: BackendView, now: int) -> bool {
    b.healthy && circuit::ask(b.circuit, now).0
}

/// A backend that has been given a request.
pub open spec fn claimed(b: BackendView, now: int) -> BackendView {
    BackendView { circuit: circuit::ask(b.circuit, now).1, ..b }
}

/// Stands for one request under way against a backend, from
/// `Backend::track_connection` until it is handed back to `Backend::release`.
/// It cannot be copied, and knows the place of its backend in the upstream.
#[derive(Debug)]
pub struct ConnectionGuard {
    place: usize,
}

impl ConnectionGuard {
    /// The place of the backend.
    pub closed spec fn spec_backend(&self) -> int {
        self.place as int
    }

    /// The place of the backend.
    pub fn backend(&self) -> (i: usize)
        ensures
            i == self.spec_backend(),
    {
        self.place
    }
}

impl Backend {
    /// A backend that nothing is known of yet, at the first place, with a clock
    /// of its own.
    pub fn new(url: String, weight: u32, circuit_breaker_config: &CircuitBreakerConfig) -> (b: Self)
        ensures
            b@ == fresh_backend(url@, weight, *circuit_breaker_config, b@.circuit.clock, 0),
    {
        Backend::with_clock(url, weight, circuit_breaker_config, Clock::start(), 0)
    }

    /// A backend that nothing is known of yet, which reads times on `clock`.
    pub fn with_clock(
        url: String,
        weight: u32,
        circuit_breaker_config: &CircuitBreakerConfig,
        clock: Clock,
        place: usize,
    ) -> (b: Self)
        ensures
            b@ == fresh_backend(url@, weight, *circuit_breaker_config, clock, place as int),
    {
        Backend {
            url,
            weight,
            healthy: true,
            consecutive_successes: 0,
            consecutive_failures: 0,
            active_connections: 0,
            circuit: CircuitBreaker::with_clock(circuit_breaker_config, clock),
            place,
        }
    }

    /// Where the backend is reached.
    pub fn url(&self) -> (r: &str)
        ensures
            r@ == self@.url,
    {
        self.url.as_str()
    }

    /// The share of requests of the backend under weighted round robin.
    pub fn weight(&self) -> (w: u32)
        ensures
            w == self@.weight,
    {
        self.weight
    }

    /// The circuit breaker of the backend.
    pub fn circuit(&self) -> (c: &CircuitBreaker)
        ensures
            c@ == self@.circuit,
    {
        &self.circuit
    }

    /// Whether the health checks hold the backend healthy.
    pub fn is_healthy(&self) -> (r: bool)
        ensures
            r == self@.healthy,
    {
        self.healthy
    }

    /// The number of requests under way.
    pub fn active_connections(&self) -> (n: usize)
        ensures
            n == self@.connections,
    {
        self.active_connections
    }

    /// Counts one request more under way. The count starts again at zero
    /// behind the largest `usize`.
    pub fn track_connection(&mut self) -> (guard: ConnectionGuard)
        ensures
            final(self)@ == one_connection_more(old(self)@),
            guard.spec_backend() == old(self)@.place,
    {
        self.begin_request();
        ConnectionGuard { place: self.place }
    }

    /// Counts a request that was under way as over. The guard is one of this
    /// backend.
    pub fn release(&mut self, guard: ConnectionGuard)
        requires
            guard.spec_backend() == old(self)@.place,
        ensures
            final(self)@ == one_connection_less(old(self)@),
    {
        self.end_request();
    }

    fn begin_request(&mut self)
        ensures
            final(self)@ == one_connection_more(old(self)@),
    {
        self.active_connections = self.active_connections.wrapping_add(1);
    }

    fn end_request(&mut self)
        ensures
            final(self)@ == one_connection_less(old(self)@),
    {
        self.active_connections = self.active_connections.wrapping_sub(1);
    }

    /// Notes the outcome of a health check. Returns the new health if it has
    /// changed.
    pub fn record_check_result(
        &mut self,
        success: bool,
        healthy_threshold: u32,
        unhealthy_threshold: u32,
    ) -> (change: Option<bool>)
        ensures
            (change, final(self)@) == checked(
                old(self)@,
                success,
                healthy_threshold,
                unhealthy_threshold,
            ),
    {
        let was_healthy = self.healthy;
        if success {
            self.consecutive_failures = 0;
            self.consecutive_successes = self.consecutive_successes.wrapping_add(1);
            if !was_healthy && self.consecutive_successes >= healthy_threshold {
                self.healthy = true;
                return Some(true);
            }
        } else {
            self.consecutive_successes = 0;
            self.consecutive_failures = self.consecutive_failures.wrapping_add(1);
            if was_healthy && self.consecutive_failures >= unhealthy_threshold {
                self.healthy = false;
                return Some(false);
            }
        }
        None
    }

    /// Whether the backend may be thought of for a request at the time `now`.
    pub fn is_candidate_at(&self, now: u128) -> (r: bool)
        ensures
            r == is_candidate(self@, now as int),
    {
        self.healthy && !self.circuit.snapshot_open_at(now)
    }

    /// Whether the backend would get a request at the time `now`.
    pub fn is_usable_at(&self, now: u128) -> (r: bool)
        ensures
            r == is_usable(self@, now as int),
    {
        self.healthy && self.circuit.allows_at(now)
    }

    /// Gives the backend a request at the time `now`, if it takes one.
    pub fn claim_at(&mut self, now: u128) -> (r: bool)
        ensures
            r == is_usable(old(self)@, now as int),
            final(self)@ == if r {
                claimed(old(self)@, now as int)
            } else {
                old(self)@
            },
    {
        self.healthy && self.circuit.is_available_at(now)
    }

    /// Notes at the time `now` whether a request has succeeded.
    pub fn record_outcome_at(&mut self, success: bool, now: u128)
        ensures
            final(self)@ == after_outcome(old(self)@, success, now as int),
    {
        if success {
            self.circuit.record_success();
        } else {
            self.circuit.record_failure_at(now);
        }
    }
}

/// A backend after a request against it has succeeded or failed.
pub open spec fn after_outcome(b: BackendView, success: bool, now: int) -> BackendView {
    BackendView {
        circuit: if success {
            circuit::succeed(b.circuit)
        } else {
            circuit::fail(b.circuit, now)
        },
        ..b
    }
}

/// A backend with one request more under way.
pub open spec fn one_connection_more(b: BackendView) -> BackendView {
    BackendView {
        connections: if b.connections == usize::MAX {
            0
        } else {
            (b.connections + 1) as usize
        },
        ..b
    }
}

/// A backend with one request less under way.
pub open spec fn one_connection_less(b: BackendView) -> BackendView {
    BackendView {
        connections: if b.connections == 0 {
            usize::MAX
        } else {
            (b.connections - 1) as usize
        },
        ..b
    }
}

/// Handing a guard back undoes what taking it did.
pub proof fn release_undoes_track(b: BackendView)
    ensures
        one_connection_less(one_connection_more(b)) == b,
{
}

/// The backend after health checks with the same outcome, one after the other.
pub open spec fn checked_times(
    b: BackendView,
    success: bool,
    healthy_threshold: u32,
    unhealthy_threshold: u32,
    n: nat,
) -> BackendView
    decreases n,
{
    if n == 0 {
        b
    } else {
        checked(
            checked_times(b, success, healthy_threshold, unhealthy_threshold, (n - 1) as nat),
            success,
            healthy_threshold,
            unhealthy_threshold,
        ).1
    }
}

/// A healthy backend whose last check succeeded stays healthy through fewer
/// failed checks than the threshold, and becomes unhealthy with the one that
/// reaches it.
pub proof fn failures_below_the_threshold_do_not_flap(b: BackendView, ht: u32, ut: u32, n: nat)
    requires
        b.healthy,
        b.failures == 0,
        0 < n <= ut,
    ensures
        checked_times(b, false, ht, ut, n) == (BackendView {
            healthy: n < ut,
            successes: 0,
            failures: n as u32,
            ..b
        }),
    decreases n,
{
    if n > 1 {
        failures_below_the_threshold_do_not_flap(b, ht, ut, (n - 1) as nat);
    } else {
        reveal_with_fuel(checked_times, 2);
    }
}

/// An unhealthy backend whose last check failed stays unhealthy through fewer
/// successful checks than the threshold, and becomes healthy with the one that
/// reaches it.
pub proof fn successes_up_to_the_threshold_recover(b: BackendView, ht: u32, ut: u32, n: nat)
    requires
        !b.healthy,
        b.successes == 0,
        0 < n <= ht,
    ensures
        checked_times(b, true, ht, ut, n) == (BackendView {
            healthy: n >= ht,
            failures: 0,
            successes: n as u32,
            ..b
        }),
    decreases n,
{
    if n > 1 {
        successes_up_to_the_threshold_recover(b, ht, ut, (n - 1) as nat);
    } else {
        reveal_with_fuel(checked_times, 2);
    }
}

/// The backend after health checks with these outcomes, one after the other.
pub open spec fn checked_history(
    b: BackendView,
    results: Seq<bool>,
    healthy_threshold: u32,
    unhealthy_threshold: u32,
) -> BackendView
    decreases results.len(),
{
    if results.len() == 0 {
        b
    } else {
        checked(
            checked_history(b, results.drop_last(), healthy_threshold, unhealthy_threshold),
            results.last(),
            healthy_threshold,
            unhealthy_threshold,
        ).1
    }
}

/// Whether the last `n` outcomes are all the same.
pub open spec fn last_are(results: Seq<bool>, outcome: bool, n: int) -> bool {
    &&& n <= results.len()
    &&& forall|i: int|
        results.len() - n <= i < results.len() ==> #[trigger] results[i] == outcome
}

/// How many outcomes at the end are the same.
spec fn run(results: Seq<bool>, outcome: bool) -> nat
    decreases results.len(),
{
    if results.len() == 0 || results.last() != outcome {
        0
    } else {
        run(results.drop_last(), outcome) + 1
    }
}

proof fn lemma_run(results: Seq<bool>, outcome: bool, n: int)
    requires
        n > 0,
    ensures
        run(results, outcome) >= n <==> last_are(results, outcome, n),
        run(results, outcome) <= results.len(),
    decreases results.len(),
{
    if results.len() > 0 {
        let rest = results.drop_last();
        lemma_run(rest, outcome, if n > 1 { n - 1 } else { 1 });
        if last_are(results, outcome, n) {
            assert(results[results.len() - 1] == outcome);
            assert(forall|i: int| 0 <= i < rest.len() ==> #[trigger] rest[i] == results[i]);
        }
        if run(results, outcome) >= n {
            assert forall|i: int| results.len() - n <= i < results.len() implies #[trigger] results[i]
                == outcome by {
                if i < rest.len() {
                    assert(rest[i] == outcome);
                }
            }
        }
    }
}

proof fn lemma_counts_are_runs(b: BackendView, results: Seq<bool>, ht: u32, ut: u32)
    requires
        b.successes == 0,
        b.failures == 0,
        results.len() <= u32::MAX,
    ensures
        ({
            let after = checked_history(b, results, ht, ut);
            &&& after.successes == run(results, true)
            &&& after.failures == run(results, false)
            &&& after == (BackendView {
                healthy: after.healthy,
                successes: after.successes,
                failures: after.failures,
                ..b
            })
        }),
    decreases results.len(),
{
    if results.len() > 0 {
        lemma_counts_are_runs(b, results.drop_last(), ht, ut);
        lemma_run(results.drop_last(), true, 1);
        lemma_run(results.drop_last(), false, 1);
    }
}

/// Whatever the health checks of a fresh backend came to, it becomes unhealthy
/// exactly when it was healthy and the last checks, as many as the one
/// threshold says, have all failed, and healthy again exactly when it was not
/// and the last checks, as many as the other says, have all succeeded. Nothing
/// but its health and the two counts changes.
pub proof fn the_last_checks_decide(b: BackendView, results: Seq<bool>, ht: u32, ut: u32)
    requires
        b.successes == 0,
        b.failures == 0,
        0 < results.len() <= u32::MAX,
        ht > 0,
        ut > 0,
    ensures
        ({
            let before = checked_history(b, results.drop_last(), ht, ut);
            let (change, after) = checked(before, results.last(), ht, ut);
            &&& after == checked_history(b, results, ht, ut)
            &&& change == Some(false) <==> before.healthy && last_are(results, false, ut as int)
            &&& change == Some(true) <==> !before.healthy && last_are(results, true, ht as int)
            &&& after.healthy == match change {
                Some(health) => health,
                None => before.healthy,
            }
            &&& after.circuit == b.circuit
            &&& after.connections == b.connections
            &&& after.url == b.url
            &&& after.weight == b.weight
        }),
{
    lemma_counts_are_runs(b, results.drop_last(), ht, ut);
    lemma_counts_are_runs(b, results, ht, ut);
    lemma_run(results, true, ht as int);
    lemma_run(results, false, ut as int);
}

/// A usable backend is one that may be thought of.
pub proof fn usable_is_candidate(b: BackendView, now: int)
    requires
        is_usable(b, now),
    ensures
        is_candidate(b, now),
{
}

/// The seed where the system clock stands before the Unix epoch.
pub const SEED_FALLBACK: u64 = 0x2545F4914F6CDD1D;

/// Whether a generator in this state is seeded with the time of the system
/// clock, where it needs a seed at all.
pub open spec fn is_seed(seed: u64, state: u64) -> bool {
    state == 0 ==> clock::is_unix_nanos(seed, SEED_FALLBACK)
}

/// One step of the xorshift generator with shifts 13, 7 and 17.
pub open spec fn xorshift64(x: u64) -> u64 {
    let a = x ^ (x << 13);
    let b = a ^ (a >> 7);
    b ^ (b << 17)
}

/// The next pseudo-random number and the generator's state behind it. A state
/// of zero has not been seeded yet.
pub open spec fn next_random(state: u64, seed: u64) -> u64 {
    xorshift64(
        if state == 0 {
            seed | 1
        } else {
            state
        },
    )
}

/// The generator never gets stuck at zero, the one state that it cannot leave.
pub proof fn random_state_is_never_zero(state: u64, seed: u64)
    ensures
        next_random(state, seed) != 0,
{
    assert(seed | 1 != 0) by (bit_vector);
    let x = if state == 0 {
        seed | 1
    } else {
        state
    };
    assert(x != 0 ==> {
        let a = x ^ (x << 13);
        let b = a ^ (a >> 7);
        b ^ (b << 17) != 0
    }) by (bit_vector);
}

/// Draws the next pseudo-random number, with `seed` for a generator that has
/// no state yet.
pub fn pseudo_random_from(state: &mut u64, seed: u64) -> (r: u64)
    ensures
        r == next_random(*old(state), seed),
        *final(state) == r,
        r != 0,
{
    let mut x: u64 = *state;
    if x == 0 {
        x = seed | 1;
    }
    proof {
        random_state_is_never_zero(*old(state), seed);
    }
    x = x ^ (x << 13);
    x = x ^ (x >> 7);
    x = x ^ (x << 17);
    *state = x;
    x
}

/// Draws the next pseudo-random number. It spreads requests and keeps no
/// secrets; a generator that has no state yet is seeded from the system clock.
pub fn pseudo_random_u64(state: &mut u64) -> (r: u64)
    ensures
        exists|seed: u64|
            is_seed(seed, *old(state)) && r == #[trigger] next_random(*old(state), seed),
        *final(state) == r,
        r != 0,
{
    let seed: u64 = if *state == 0 {
        clock::unix_nanos_or(SEED_FALLBACK)
    } else {
        0
    };
    pseudo_random_from(state, seed)
}

/// An upstream as its contracts see it.
#[verifier::ext_equal]
pub struct PoolView {
    pub name: Seq<char>,
    pub strategy: LoadBalancerStrategy,
    pub backends: Seq<BackendView>,
    /// Where the next round of round robin begins.
    pub cursor: usize,
    /// The weights and running balances of weighted round robin.
    pub weights: Seq<int>,
    pub balances: Seq<int>,
    /// The state of the random numbers.
    pub random: u64,
    pub health_check: HealthCheckConfig,
    pub timeout_ms: u64,
    pub retry: RetryConfig,
    /// The clock that times are read on.
    pub clock: Clock,
}

/// What holds of every upstream: each backend has a weight and a balance.
pub open spec fn is_sound(p: PoolView) -> bool {
    &&& p.weights.len() == p.backends.len()
    &&& p.balances.len() == p.backends.len()
}

/// The backends that an upstream starts with.
pub open spec fn fresh_backends(config: UpstreamConfig, clock: Clock) -> Seq<BackendView> {
    Seq::new(
        config.servers@.len(),
        |i: int|
            fresh_backend(
                config.servers@[i].spec_url(),
                config.servers@[i].spec_weight(),
                config.circuit_breaker,
                clock,
                i,
            ),
    )
}

/// An upstream that has not been used yet.
pub open spec fn fresh_pool(name: Seq<char>, config: UpstreamConfig, clock: Clock) -> PoolView {
    PoolView {
        name,
        strategy: config.load_balancer,
        backends: fresh_backends(config, clock),
        cursor: 0,
        weights: Seq::new(config.servers@.len(), |i: int| config.servers@[i].spec_weight() as int),
        balances: Seq::new(config.servers@.len(), |i: int| 0int),
        random: 0,
        health_check: config.health_check,
        timeout_ms: config.timeout_ms,
        retry: config.retry,
        clock,
    }
}

/// Whether the search that begins at place `start` and wraps round at the end
/// finds its first usable backend after `offset` steps.
pub open spec fn is_first_usable(
    backends: Seq<BackendView>,
    now: int,
    start: int,
    offset: int,
) -> bool {
    &&& 0 <= offset < backends.len()
    &&& is_usable(backends[(start + offset) % (backends.len() as int)], now)
    &&& forall|k: int|
        0 <= k < offset ==> !is_usable(
            #[trigger] backends[(start + k) % (backends.len() as int)],
            now,
        )
}

/// An upstream whose backend `j` is asked to take a request: it takes it or
/// nobody does.
pub open spec fn claim(p: PoolView, j: int, now: int) -> (Option<int>, PoolView) {
    if is_usable(p.backends[j], now) {
        (Some(j), PoolView { backends: p.backends.update(j, claimed(p.backends[j], now)), ..p })
    } else {
        (None, p)
    }
}

/// The count behind `n`. It starts again at zero behind the largest `usize`.
pub open spec fn next_cursor(n: usize) -> usize {
    if n == usize::MAX {
        0
    } else {
        (n + 1) as usize
    }
}

/// Round robin: the first usable backend from the cursor on, which moves by
/// one place for each request.
pub open spec fn choose_round_robin(p: PoolView, now: int) -> (Option<int>, PoolView) {
    let n = p.backends.len() as int;
    if n == 0 {
        (None, p)
    } else {
        let start = p.cursor as int % n;
        let moved = PoolView { cursor: next_cursor(p.cursor), ..p };
        if exists|offset: int| is_first_usable(p.backends, now, start, offset) {
            let offset = choose|offset: int| is_first_usable(p.backends, now, start, offset);
            claim(moved, (start + offset) % n, now)
        } else {
            (None, moved)
        }
    }
}

/// Whether `j` is the first usable backend with the fewest requests under way.
pub open spec fn is_least_busy(backends: Seq<BackendView>, now: int, j: int) -> bool {
    &&& 0 <= j < backends.len()
    &&& is_usable(backends[j], now)
    &&& forall|i: int|
        0 <= i < j && is_usable(backends[i], now) ==> (#[trigger] backends[i]).connections
            > backends[j].connections
    &&& forall|i: int|
        j < i < backends.len() && is_usable(backends[i], now) ==> (#[trigger] backends[i]).connections
            >= backends[j].connections
}

/// Least connections: the usable backend with the fewest requests under way.
pub open spec fn choose_least_busy(p: PoolView, now: int) -> (Option<int>, PoolView) {
    if exists|j: int| is_least_busy(p.backends, now, j) {
        claim(p, choose|j: int| is_least_busy(p.backends, now, j), now)
    } else {
        (None, p)
    }
}

/// The places of the usable backends among the first `n` backends, in order.
pub open spec fn usable_places(backends: Seq<BackendView>, now: int, n: nat) -> Seq<int>
    decreases n,
{
    if n == 0 {
        Seq::empty()
    } else {
        let rest = usable_places(backends, now, (n - 1) as nat);
        if is_usable(backends[n - 1], now) {
            rest.push(n - 1)
        } else {
            rest
        }
    }
}

/// The place among `n` that a random number points to.
pub open spec fn random_place(number: u64, n: nat) -> int {
    (number as usize) as int % (n as int)
}

/// Random: one usable backend, by the next random number.
pub open spec fn choose_random(p: PoolView, now: int, seed: u64) -> (Option<int>, PoolView) {
    let places = usable_places(p.backends, now, p.backends.len());
    if places.len() == 0 {
        (None, p)
    } else {
        let number = next_random(p.random, seed);
        claim(
            PoolView { random: number, ..p },
            places[random_place(number, places.len())],
            now,
        )
    }
}

/// Which backends are usable.
pub open spec fn usable_mask(backends: Seq<BackendView>, now: int) -> Seq<bool> {
    Seq::new(backends.len(), |i: int| is_usable(backends[i], now))
}

/// Weighted round robin: one round among the usable backends.
pub open spec fn choose_weighted(p: PoolView, now: int) -> (Option<int>, PoolView) {
    let (winner, balances) = weighted::play_round(
        p.weights,
        p.balances,
        usable_mask(p.backends, now),
    );
    match winner {
        Some(j) => claim(PoolView { balances, ..p }, j, now),
        None => (None, p),
    }
}

/// Which backend gets the next request, and the upstream behind the choice.
pub open spec fn choose_backend(p: PoolView, now: int, seed: u64) -> (Option<int>, PoolView) {
    match p.strategy {
        LoadBalancerStrategy::RoundRobin => choose_round_robin(p, now),
        LoadBalancerStrategy::WeightedRoundRobin => choose_weighted(p, now),
        LoadBalancerStrategy::LeastConnections => choose_least_busy(p, now),
        LoadBalancerStrategy::Random => choose_random(p, now, seed),
    }
}

/// A place that may be missing, as a number.
pub open spec fn place(i: Option<usize>) -> Option<int> {
    match i {
        Some(i) => Some(i as int),
        None => None,
    }
}

/// The backends that stand for one service, and how requests are spread over
/// them.
#[derive(Debug)]
pub struct UpstreamPool {
    name: String,
    backends: Vec<Backend>,
    cursor: usize,
    load_balancer: LoadBalancerStrategy,
    weighted: SmoothWeights,
    random_state: u64,
    health_check: HealthCheckConfig,
    timeout_ms: u64,
    retry: RetryConfig,
    clock: Clock,
}

/// The views of a list of backends.
pub open spec fn backend_views(backends: Seq<Backend>) -> Seq<BackendView> {
    backends.map_values(|b: Backend| b@)
}

impl View for UpstreamPool {
    type V = PoolView;

    closed spec fn view(&self) -> PoolView {
        PoolView {
            name: self.name@,
            strategy: self.load_balancer,
            backends: backend_views(self.backends@),
            cursor: self.cursor,
            weights: self.weighted.weights(),
            balances: self.weighted.balances(),
            random: self.random_state,
            health_check: self.health_check,
            timeout_ms: self.timeout_ms,
            retry: self.retry,
            clock: self.clock,
        }
    }
}

impl UpstreamPool {
    #[verifier::type_invariant]
    spec fn well_formed(self) -> bool {
        &&& self.backends@.len() == self.weighted.weights().len()
        &&& self.backends@.len() == self.weighted.balances().len()
    }

    /// An upstream that has not been used yet, with a clock of its own.
    pub fn new(name: String, config: &UpstreamConfig) -> (p: Self)
        requires
            config.servers@.len() <= u32::MAX,
        ensures
            p@ == fresh_pool(name@, *config, p@.clock),
    {
        UpstreamPool::with_clock(name, config, Clock::start())
    }

    /// An upstream that has not been used yet, which reads times on `clock`.
    pub fn with_clock(name: String, config: &UpstreamConfig, clock: Clock) -> (p: Self)
        requires
            config.servers@.len() <= u32::MAX,
        ensures
            p@ == fresh_pool(name@, *config, clock),
    {
        let mut backends: Vec<Backend> = Vec::new();
        let mut weights: Vec<u32> = Vec::new();
        let n: usize = config.servers.len();
        let mut i: usize = 0;
        while i < n
            invariant
                i <= n,
                n == config.servers@.len(),
                backends@.len() == i,
                weights@.len() == i,
                forall|k: int|
                    0 <= k < i ==> (#[trigger] backends@[k])@ == fresh_backends(*config, clock)[k],
                forall|k: int|
                    0 <= k < i ==> #[trigger] weights@[k] == config.servers@[k].spec_weight(),
            decreases n - i,
        {
            let entry = &config.servers[i];
            let url = entry.url().to_string();
            let weight: u32 = entry.weight();
            backends.push(Backend::with_clock(url, weight, &config.circuit_breaker, clock, i));
            weights.push(weight);
            i = i + 1;
        }
        let weighted = SmoothWeights::new(weights);
        let p = UpstreamPool {
            name,
            backends,
            cursor: 0,
            load_balancer: config.load_balancer,
            weighted,
            random_state: 0,
            health_check: config.health_check.clone(),
            timeout_ms: config.timeout_ms,
            retry: config.retry,
            clock,
        };
        assert(p@ =~= fresh_pool(name@, *config, clock));
        p
    }

    /// The name of the upstream.
    pub fn name(&self) -> (s: &str)
        ensures
            s@ == self@.name,
    {
        self.name.as_str()
    }

    /// The backends, in the order in which they are configured.
    pub fn backends(&self) -> (b: &Vec<Backend>)
        ensures
            backend_views(b@) == self@.backends,
            is_sound(self@),
    {
        proof {
            use_type_invariant(self);
        }
        &self.backends
    }

    /// How requests are spread over the backends.
    pub fn load_balancer(&self) -> (s: &LoadBalancerStrategy)
        ensures
            *s == self@.strategy,
    {
        &self.load_balancer
    }

    /// How the health of the backends is checked.
    pub fn health_check(&self) -> (h: &HealthCheckConfig)
        ensures
            *h == self@.health_check,
    {
        &self.health_check
    }

    /// How long one attempt against a backend may take.
    pub fn timeout_ms(&self) -> (t: u64)
        ensures
            t == self@.timeout_ms,
    {
        self.timeout_ms
    }

    /// How often a failed request is tried again.
    pub fn retry(&self) -> (r: RetryConfig)
        ensures
            r == self@.retry,
    {
        self.retry
    }

    /// The time on the clock of the upstream.
    pub fn now(&self) -> (nanos: u128)
        ensures
            clock::is_reading(self@.clock, nanos as int),
    {
        self.clock.now()
    }

    /// Notes the outcome of a health check of backend `i`. Returns its new
    /// health if it has changed.
    pub fn record_check_result(&mut self, i: usize, success: bool) -> (change: Option<bool>)
        requires
            i < old(self)@.backends.len(),
        ensures
            ({
                let h = old(self)@.health_check;
                let (expected, b) = checked(
                    old(self)@.backends[i as int],
                    success,
                    h.healthy_threshold,
                    h.unhealthy_threshold,
                );
                &&& change == expected
                &&& final(self)@ == with_backend(old(self)@, i as int, b)
            }),
            final(self)@ == after_event(old(self)@, PoolEvent::Check(i as int, success)),
            change == if final(self)@.backends[i as int].healthy == old(
                self,
            )@.backends[i as int].healthy {
                None
            } else {
                Some(final(self)@.backends[i as int].healthy)
            },
    {
        let up: u32 = self.health_check.healthy_threshold;
        let down: u32 = self.health_check.unhealthy_threshold;
        proof {
            use_type_invariant(&*self);
        }
        let change = self.backends[i].record_check_result(success, up, down);
        assert(self@ =~= with_backend(old(self)@, i as int, self.backends@[i as int]@));
        change
    }

    /// Notes whether a request against backend `i` has succeeded.
    pub fn record_outcome(&mut self, i: usize, success: bool)
        requires
            i < old(self)@.backends.len(),
        ensures
            exists|now: int|
                clock::is_reading(old(self)@.clock, now) && final(self)@
                    == #[trigger] noted_outcome(old(self)@, i as int, success, now),
    {
        let now: u128 = self.clock.now();
        self.record_outcome_at(i, success, now);
    }

    /// `record_outcome` at the time `now`.
    pub fn record_outcome_at(&mut self, i: usize, success: bool, now: u128)
        requires
            i < old(self)@.backends.len(),
        ensures
            final(self)@ == noted_outcome(old(self)@, i as int, success, now as int),
            final(self)@ == after_event(
                old(self)@,
                PoolEvent::Outcome(i as int, success, now as int),
            ),
    {
        proof {
            use_type_invariant(&*self);
        }
        self.backends[i].record_outcome_at(success, now);
        assert(self@ =~= noted_outcome(old(self)@, i as int, success, now as int));
    }

    /// Counts one request more under way against backend `i`.
    pub fn track_connection(&mut self, i: usize) -> (guard: ConnectionGuard)
        requires
            i < old(self)@.backends.len(),
        ensures
            final(self)@ == with_backend(
                old(self)@,
                i as int,
                one_connection_more(old(self)@.backends[i as int]),
            ),
            final(self)@ == after_event(old(self)@, PoolEvent::Begin(i as int)),
            guard.spec_backend() == i,
    {
        proof {
            use_type_invariant(&*self);
        }
        self.backends[i].begin_request();
        assert(self@ =~= with_backend(old(self)@, i as int, self.backends@[i as int]@));
        ConnectionGuard { place: i }
    }

    /// Counts a request against the backend of the guard as over.
    pub fn release(&mut self, guard: ConnectionGuard)
        requires
            guard.spec_backend() < old(self)@.backends.len(),
        ensures
            final(self)@ == with_backend(
                old(self)@,
                guard.spec_backend(),
                one_connection_less(old(self)@.backends[guard.spec_backend()]),
            ),
            final(self)@ == after_event(old(self)@, PoolEvent::End(guard.spec_backend())),
    {
        let i: usize = guard.backend();
        proof {
            use_type_invariant(&*self);
        }
        self.backends[i].end_request();
        assert(self@ =~= with_backend(old(self)@, i as int, self.backends@[i as int]@));
    }

    /// Asks backend `i` to take a request.
    fn claim(&mut self, i: usize, now: u128) -> (r: Option<usize>)
        requires
            i < old(self)@.backends.len(),
        ensures
            (place(r), final(self)@) == claim(old(self)@, i as int, now as int),
    {
        proof {
            use_type_invariant(&*self);
        }
        let taken = self.backends[i].claim_at(now);
        if taken {
            assert(self@ =~= claim(old(self)@, i as int, now as int).1);
            Some(i)
        } else {
            assert(self@ =~= old(self)@);
            None
        }
    }

    fn select_round_robin(&mut self, now: u128) -> (r: Option<usize>)
        ensures
            (place(r), final(self)@) == choose_round_robin(old(self)@, now as int),
    {
        proof {
            use_type_invariant(&*self);
        }
        let ghost before = self@;
        let len: usize = self.backends.len();
        if len == 0 {
            return None;
        }
        let start: usize = self.cursor % len;
        self.cursor = self.cursor.wrapping_add(1);
        let ghost moved = self@;
        assert(moved =~= (PoolView { cursor: next_cursor(before.cursor), ..before }));
        let mut offset: usize = 0;
        while offset < len
            invariant
                offset <= len,
                0 < len,
                start < len,
                before == old(self)@,
                len == before.backends.len(),
                self@ == moved,
                moved.backends == before.backends,
                moved == (PoolView { cursor: next_cursor(before.cursor), ..before }),
                start == before.cursor as int % (len as int),
                forall|k: int|
                    0 <= k < offset ==> !is_usable(
                        #[trigger] before.backends[(start + k) % (len as int)],
                        now as int,
                    ),
            decreases len - offset,
        {
            let i: usize = wrapped_place(start, offset, len);
            let taken = self.claim(i, now);
            if taken.is_some() {
                proof {
                    let o = offset as int;
                    assert(is_first_usable(before.backends, now as int, start as int, o));
                    let chosen = choose|c: int|
                        is_first_usable(before.backends, now as int, start as int, c);
                    if chosen < o {
                        assert(!is_usable(before.backends[(start + chosen) % (len as int)], now as int));
                    } else if o < chosen {
                        assert(!is_usable(before.backends[(start + o) % (len as int)], now as int));
                    }
                }
                return taken;
            }
            offset = offset + 1;
        }
        proof {
            assert forall|c: int| !is_first_usable(before.backends, now as int, start as int, c) by {
                if 0 <= c < len {
                    assert(!is_usable(before.backends[(start + c) % (len as int)], now as int));
                }
            }
        }
        None
    }

    fn select_least_connections(&mut self, now: u128) -> (r: Option<usize>)
        ensures
            (place(r), final(self)@) == choose_least_busy(old(self)@, now as int),
    {
        let ghost backends = self@.backends;
        let mut best: Option<usize> = None;
        let n: usize = self.backends.len();
        let mut i: usize = 0;
        while i < n
            invariant
                i <= n,
                self@ == old(self)@,
                backends == self@.backends,
                n == backends.len(),
                n == self.backends@.len(),
                match best {
                    Some(j) => j < i && is_least_busy(backends.take(i as int), now as int, j as int),
                    None => forall|k: int|
                        0 <= k < i ==> !is_usable(#[trigger] backends[k], now as int),
                },
            decreases n - i,
        {
            let ghost part = backends.take(i as int);
            let ghost more = backends.take(i + 1);
            assert(forall|k: int| 0 <= k < i ==> #[trigger] more[k] == part[k]);
            assert(backends[i as int] == self.backends@[i as int]@);
            if self.backends[i].is_usable_at(now) {
                let better = match best {
                    Some(j) => {
                        assert(backends[j as int] == self.backends@[j as int]@);
                        self.backends[i].active_connections() < self.backends[j].active_connections()
                    },
                    None => true,
                };
                if better {
                    assert forall|k: int| 0 <= k < i && is_usable(more[k], now as int) implies (
                    #[trigger] more[k]).connections > more[i as int].connections by {
                        assert(part[k] == backends[k]);
                    }
                    best = Some(i);
                }
            }
            i = i + 1;
        }
        assert(backends.take(n as int) =~= backends);
        match best {
            Some(j) => {
                proof {
                    let chosen = choose|c: int| is_least_busy(backends, now as int, c);
                    let j = j as int;
                    assert(is_least_busy(backends, now as int, j));
                    if chosen < j {
                        assert(backends[chosen].connections > backends[j].connections);
                    } else if j < chosen {
                        assert(backends[j].connections > backends[chosen].connections);
                    }
                }
                self.claim(j, now)
            },
            None => None,
        }
    }

    fn select_random(&mut self, now: u128, seed: u64) -> (r: Option<usize>)
        ensures
            (place(r), final(self)@) == choose_random(old(self)@, now as int, seed),
    {
        let ghost backends = self@.backends;
        let mut candidates: Vec<usize> = Vec::new();
        let n: usize = self.backends.len();
        let mut i: usize = 0;
        while i < n
            invariant
                i <= n,
                self@ == old(self)@,
                backends == self@.backends,
                n == backends.len(),
                n == self.backends@.len(),
                places(candidates@) == usable_places(backends, now as int, i as nat),
                forall|k: int| 0 <= k < candidates@.len() ==> #[trigger] candidates@[k] < n,
            decreases n - i,
        {
            assert(backends[i as int] == self.backends@[i as int]@);
            let ghost before = candidates@;
            if self.backends[i].is_usable_at(now) {
                candidates.push(i);
                assert(places(candidates@) =~= places(before).push(i as int));
            }
            i = i + 1;
        }
        let count: usize = candidates.len();
        if count == 0 {
            return None;
        }
        proof {
            use_type_invariant(&*self);
        }
        let mut state: u64 = self.random_state;
        let number: u64 = pseudo_random_from(&mut state, seed);
        self.random_state = state;
        let idx: usize = (number as usize) % count;
        assert(self@ =~= (PoolView { random: number, ..old(self)@ }));
        assert(places(candidates@)[idx as int] == candidates@[idx as int]);
        self.claim(candidates[idx], now)
    }

    /// Chooses the backend that gets the next request, by the strategy of the
    /// upstream: one that the health checks hold healthy and whose circuit
    /// lets the request through. If there is none, nobody gets it.
    pub fn select(&mut self) -> (r: Option<usize>)
        ensures
            exists|now: int, seed: u64|
                clock::is_reading(old(self)@.clock, now) && is_seed(seed, old(self)@.random) && (
                place(r), final(self)@) == #[trigger] choose_backend(old(self)@, now, seed),
    {
        let now: u128 = self.clock.now();
        let seed: u64 = if self.random_state == 0 {
            clock::unix_nanos_or(SEED_FALLBACK)
        } else {
            0
        };
        self.select_at(now, seed)
    }

    /// `select` at the time `now`, with `seed` for random numbers that have
    /// not been seeded yet.
    pub fn select_at(&mut self, now: u128, seed: u64) -> (r: Option<usize>)
        ensures
            (place(r), final(self)@) == choose_backend(old(self)@, now as int, seed),
            r matches Some(i) ==> choose_backend(old(self)@, now as int, seed).0 == Some(i as int),
            final(self)@ == after_event(
                old(self)@,
                PoolEvent::Select(Call { now: now as int, seed }),
            ),
            is_sound(old(self)@),
            r is Some <==> exists|i: int|
                0 <= i < old(self)@.backends.len() && is_usable(
                    #[trigger] old(self)@.backends[i],
                    now as int,
                ),
    {
        proof {
            use_type_invariant(&*self);
            selection_means_a_usable_backend(self@, now as int, seed);
        }
        match self.load_balancer {
            LoadBalancerStrategy::RoundRobin => self.select_round_robin(now),
            LoadBalancerStrategy::WeightedRoundRobin => self.select_weighted_round_robin(now),
            LoadBalancerStrategy::LeastConnections => self.select_least_connections(now),
            LoadBalancerStrategy::Random => self.select_random(now, seed),
        }
    }

    /// An upstream without a name and without backends, at which no attempt is
    /// made.
    fn empty(clock: Clock) -> (p: Self)
        ensures
            p@ == (PoolView {
                name: Seq::empty(),
                strategy: LoadBalancerStrategy::RoundRobin,
                backends: Seq::empty(),
                cursor: 0,
                weights: Seq::empty(),
                balances: Seq::empty(),
                random: 0,
                health_check: p@.health_check,
                timeout_ms: 0,
                retry: (RetryConfig { max_attempts: 0, backoff_ms: 0 }),
                clock,
            }),
            p@.health_check.path@ == "/health"@,
            p@.health_check.interval_secs == 10,
            p@.health_check.timeout_secs == 2,
            p@.health_check.healthy_threshold == 2,
            p@.health_check.unhealthy_threshold == 3,
    {
        UpstreamPool {
            name: String::new(),
            backends: Vec::new(),
            cursor: 0,
            load_balancer: LoadBalancerStrategy::RoundRobin,
            weighted: SmoothWeights::new(Vec::new()),
            random_state: 0,
            health_check: HealthCheckConfig::default(),
            timeout_ms: 0,
            retry: RetryConfig { max_attempts: 0, backoff_ms: 0 },
            clock,
        }
    }

    /// Plays a round of weighted round robin among the backends marked in
    /// `eligible`.
    fn play_round(&mut self, eligible: &Vec<bool>) -> (winner: Option<usize>)
        requires
            eligible@.len() == old(self)@.backends.len(),
        ensures
            ({
                let (expected, balances) = weighted::play_round(
                    old(self)@.weights,
                    old(self)@.balances,
                    eligible@,
                );
                &&& place(winner) == expected
                &&& final(self)@ == (PoolView { balances, ..old(self)@ })
            }),
    {
        proof {
            use_type_invariant(&*self);
        }
        let mut rest = UpstreamPool::empty(self.clock);
        std::mem::swap(self, &mut rest);
        let UpstreamPool {
            name,
            backends,
            cursor,
            load_balancer,
            mut weighted,
            random_state,
            health_check,
            timeout_ms,
            retry,
            clock,
        } = rest;
        let winner = weighted.pick(eligible);
        *self = UpstreamPool {
            name,
            backends,
            cursor,
            load_balancer,
            weighted,
            random_state,
            health_check,
            timeout_ms,
            retry,
            clock,
        };
        winner
    }

    fn select_weighted_round_robin(&mut self, now: u128) -> (r: Option<usize>)
        ensures
            (place(r), final(self)@) == choose_weighted(old(self)@, now as int),
    {
        proof {
            use_type_invariant(&*self);
        }
        let ghost backends = self@.backends;
        let mut eligible: Vec<bool> = Vec::new();
        let n: usize = self.backends.len();
        let mut i: usize = 0;
        while i < n
            invariant
                i <= n,
                self@ == old(self)@,
                backends == self@.backends,
                n == backends.len(),
                n == self.backends@.len(),
                eligible@.len() == i,
                forall|k: int|
                    0 <= k < i ==> #[trigger] eligible@[k] == is_usable(backends[k], now as int),
            decreases n - i,
        {
            assert(backends[i as int] == self.backends@[i as int]@);
            eligible.push(self.backends[i].is_usable_at(now));
            i = i + 1;
        }
        assert(eligible@ =~= usable_mask(backends, now as int));
        let winner = self.play_round(&eligible);
        match winner {
            Some(j) => self.claim(j, now),
            None => None,
        }
    }
}

/// A list of places, as numbers.
pub open spec fn places(s: Seq<usize>) -> Seq<int> {
    s.map_values(|i: usize| i as int)
}

/// The place `offset` steps behind `start` on a ring of `len` places.
fn wrapped_place(start: usize, offset: usize, len: usize) -> (i: usize)
    requires
        start < len,
        offset < len,
    ensures
        i < len,
        i == (start + offset) % (len as int),
{
    if offset < len - start {
        proof {
            vstd::arithmetic::div_mod::lemma_small_mod((start + offset) as nat, len as nat);
        }
        start + offset
    } else {
        let i: usize = offset - (len - start);
        proof {
            vstd::arithmetic::div_mod::lemma_mod_add_multiples_vanish(i as int, len as int);
            vstd::arithmetic::div_mod::lemma_small_mod(i as nat, len as nat);
        }
        i
    }
}

/// An upstream with another state of backend `i`.
pub open spec fn with_backend(p: PoolView, i: int, b: BackendView) -> PoolView {
    PoolView { backends: p.backends.update(i, b), ..p }
}

/// An upstream after a request against backend `i` has succeeded or failed.
pub open spec fn noted_outcome(p: PoolView, i: int, success: bool, now: int) -> PoolView {
    with_backend(p, i, after_outcome(p.backends[i], success, now))
}

/// A request goes only to a backend that is healthy and whose circuit lets it
/// through. Nothing changes in the other backends, and in that one nothing but
/// its circuit.
pub proof fn selected_backend_is_available(p: PoolView, now: int, seed: u64)
    requires
        is_sound(p),
    ensures
        ({
            let (choice, after) = choose_backend(p, now, seed);
            &&& match choice {
                Some(j) => {
                    &&& 0 <= j < p.backends.len()
                    &&& p.backends[j].healthy
                    &&& !circuit::in_cooldown(p.backends[j].circuit, now)
                    &&& is_usable(p.backends[j], now)
                    &&& after.backends == p.backends.update(j, claimed(p.backends[j], now))
                },
                None => after.backends == p.backends,
            }
            &&& is_sound(after)
            &&& after.weights == p.weights
            &&& after.name == p.name
            &&& after.strategy == p.strategy
        }),
{
    let n = p.backends.len();
    match p.strategy {
        LoadBalancerStrategy::RoundRobin => {
            if n > 0 {
                let start = p.cursor as int % (n as int);
                if exists|o: int| is_first_usable(p.backends, now, start, o) {
                    let o = choose|o: int| is_first_usable(p.backends, now, start, o);
                    vstd::arithmetic::div_mod::lemma_mod_bound(start + o, n as int);
                }
            }
        },
        LoadBalancerStrategy::WeightedRoundRobin => {},
        LoadBalancerStrategy::LeastConnections => {},
        LoadBalancerStrategy::Random => {
            let places = usable_places(p.backends, now, n);
            lemma_usable_places(p.backends, now, n);
            if places.len() > 0 {
                let number = next_random(p.random, seed);
                vstd::arithmetic::div_mod::lemma_mod_bound(
                    (number as usize) as int,
                    places.len() as int,
                );
            }
        },
    }
}

/// The usable places are places of usable backends, and all of them.
proof fn lemma_usable_places(backends: Seq<BackendView>, now: int, n: nat)
    requires
        n <= backends.len(),
    ensures
        forall|k: int|
            0 <= k < usable_places(backends, now, n).len() ==> {
                let i = #[trigger] usable_places(backends, now, n)[k];
                0 <= i < n && is_usable(backends[i], now)
            },
        forall|i: int|
            0 <= i < n && is_usable(#[trigger] backends[i], now) ==> usable_places(
                backends,
                now,
                n,
            ).contains(i),
    decreases n,
{
    if n > 0 {
        let rest = usable_places(backends, now, (n - 1) as nat);
        lemma_usable_places(backends, now, (n - 1) as nat);
        let all = usable_places(backends, now, n);
        assert forall|i: int| 0 <= i < n && is_usable(#[trigger] backends[i], now) implies all.contains(
            i,
        ) by {
            if i < n - 1 {
                assert(rest.contains(i));
                let k = rest.index_of(i);
                assert(all[k] == i);
            } else {
                assert(all.last() == i);
            }
        }
    }
}

/// Somebody gets the request if and only if some backend is usable, whatever
/// the strategy.
pub proof fn selection_means_a_usable_backend(p: PoolView, now: int, seed: u64)
    requires
        is_sound(p),
    ensures
        choose_backend(p, now, seed).0 is Some <==> exists|i: int|
            0 <= i < p.backends.len() && is_usable(#[trigger] p.backends[i], now),
{
    selected_backend_is_available(p, now, seed);
    if exists|i: int| 0 <= i < p.backends.len() && is_usable(#[trigger] p.backends[i], now) {
        let i = choose|i: int|
            0 <= i < p.backends.len() && is_usable(#[trigger] p.backends[i], now);
        usable_means_selection(p, now, seed, i);
    }
}

/// Where some backend is healthy with a closed circuit, somebody gets the
/// request, whatever the strategy and whatever the state of the others.
pub proof fn a_well_backend_means_selection(p: PoolView, now: int, seed: u64, i: int)
    requires
        is_sound(p),
        0 <= i < p.backends.len(),
        p.backends[i].healthy,
        p.backends[i].circuit.state == circuit::CircuitState::Closed,
    ensures
        choose_backend(p, now, seed).0 is Some,
{
    usable_means_selection(p, now, seed, i);
}

/// Where some backend is usable, somebody gets the request, whatever the
/// strategy.
pub proof fn usable_means_selection(p: PoolView, now: int, seed: u64, i: int)
    requires
        is_sound(p),
        0 <= i < p.backends.len(),
        is_usable(p.backends[i], now),
    ensures
        choose_backend(p, now, seed).0 is Some,
{
    let n = p.backends.len() as int;
    match p.strategy {
        LoadBalancerStrategy::RoundRobin => {
            let start = p.cursor as int % n;
            let o = (i - start) % n;
            vstd::arithmetic::div_mod::lemma_mod_bound(i - start, n);
            vstd::arithmetic::div_mod::lemma_add_mod_noop_right(start, i - start, n);
            vstd::arithmetic::div_mod::lemma_small_mod(i as nat, n as nat);
            assert((start + o) % n == i);
            lemma_first_usable(p.backends, now, start, o);
            let c = choose|c: int| is_first_usable(p.backends, now, start, c);
            vstd::arithmetic::div_mod::lemma_mod_bound(start + c, n);
        },
        LoadBalancerStrategy::WeightedRoundRobin => {
            let mask = usable_mask(p.backends, now);
            assert(mask[i]);
            weighted::somebody_wins(p.weights, p.balances, mask, i);
            let j = weighted::play_round(p.weights, p.balances, mask).0->0;
            assert(mask[j] == is_usable(p.backends[j], now));
        },
        LoadBalancerStrategy::LeastConnections => {
            lemma_least_busy(p.backends, now, n, i);
            assert(p.backends.take(n) =~= p.backends);
            let j = choose|j: int| is_least_busy(p.backends, now, j);
            assert(is_usable(p.backends[j], now));
        },
        LoadBalancerStrategy::Random => {
            let places = usable_places(p.backends, now, p.backends.len());
            lemma_usable_places(p.backends, now, p.backends.len());
            assert(places.contains(i));
            let number = next_random(p.random, seed);
            vstd::arithmetic::div_mod::lemma_mod_bound(
                (number as usize) as int,
                places.len() as int,
            );
            let j = places[random_place(number, places.len())];
            assert(is_usable(p.backends[j], now));
        },
    }
}

/// If a usable backend stands `o` steps on, there is a first one.
proof fn lemma_first_usable(backends: Seq<BackendView>, now: int, start: int, o: int)
    requires
        0 <= o < backends.len(),
        is_usable(backends[(start + o) % (backends.len() as int)], now),
    ensures
        exists|c: int| is_first_usable(backends, now, start, c),
    decreases o,
{
    let n = backends.len() as int;
    if forall|k: int| 0 <= k < o ==> !is_usable(#[trigger] backends[(start + k) % n], now) {
        assert(is_first_usable(backends, now, start, o));
    } else {
        let k = choose|k: int| 0 <= k < o && is_usable(#[trigger] backends[(start + k) % n], now);
        lemma_first_usable(backends, now, start, k);
    }
}

/// If there is a usable one among the first `n` backends, one of them is the
/// least busy.
proof fn lemma_least_busy(backends: Seq<BackendView>, now: int, n: int, i: int)
    requires
        0 <= i < n <= backends.len(),
        is_usable(backends[i], now),
    ensures
        exists|j: int| is_least_busy(backends.take(n), now, j),
    decreases n,
{
    let part = backends.take(n);
    let last = n - 1;
    if exists|k: int| 0 <= k < last && is_usable(backends[k], now) {
        let k = choose|k: int| 0 <= k < last && is_usable(backends[k], now);
        lemma_least_busy(backends, now, last, k);
        let before = backends.take(last);
        let j = choose|j: int| is_least_busy(before, now, j);
        assert(forall|m: int| 0 <= m < last ==> #[trigger] part[m] == before[m]);
        if is_usable(backends[last], now) && backends[last].connections
            < backends[j].connections {
            assert forall|m: int| 0 <= m < last && is_usable(part[m], now) implies (
            #[trigger] part[m]).connections > part[last].connections by {
                assert(before[m].connections >= before[j].connections);
            }
            assert(is_least_busy(part, now, last));
        } else {
            assert(is_least_busy(part, now, j));
        }
    } else {
        assert(is_least_busy(part, now, last));
    }
}

/// The backend that least connections chooses has no more requests under way
/// than any other usable one.
pub proof fn least_connections_is_least(p: PoolView, now: int, seed: u64, i: int)
    requires
        p.strategy == LoadBalancerStrategy::LeastConnections,
        0 <= i < p.backends.len(),
        is_usable(p.backends[i], now),
    ensures
        match choose_backend(p, now, seed).0 {
            Some(j) => p.backends[j].connections <= p.backends[i].connections,
            None => true,
        },
{
    if let Some(j) = choose_backend(p, now, seed).0 {
        assert(is_least_busy(p.backends, now, j));
        assert(p.backends[i].connections >= p.backends[j].connections);
    }
}

/// Whether every backend is healthy and its circuit is closed.
pub open spec fn all_well(backends: Seq<BackendView>) -> bool {
    forall|i: int|
        0 <= i < backends.len() ==> {
            let b = #[trigger] backends[i];
            b.healthy && b.circuit.state == circuit::CircuitState::Closed
        }
}

/// The backends of an upstream that has not been used yet are all well, and
/// round robin begins with the first of them.
pub proof fn fresh_pools_are_well(name: Seq<char>, config: UpstreamConfig, clock: Clock)
    ensures
        all_well(fresh_pool(name, config, clock).backends),
        is_sound(fresh_pool(name, config, clock)),
        fresh_pool(name, config, clock).cursor == 0,
        config.load_balancer == LoadBalancerStrategy::WeightedRoundRobin ==> is_fresh_weighted(
            fresh_pool(name, config, clock),
        ),
{
}

/// A call of `select`: the time, and a seed for random numbers.
pub struct Call {
    pub now: int,
    pub seed: u64,
}

/// An upstream after these calls, one after the other.
pub open spec fn after_calls(p: PoolView, calls: Seq<Call>) -> PoolView
    decreases calls.len(),
{
    if calls.len() == 0 {
        p
    } else {
        choose_backend(
            after_calls(p, calls.drop_last()),
            calls.last().now,
            calls.last().seed,
        ).1
    }
}

/// Who gets the request of the call at place `k`.
pub open spec fn selection(p: PoolView, calls: Seq<Call>, k: int) -> Option<int> {
    choose_backend(after_calls(p, calls.take(k)), calls[k].now, calls[k].seed).0
}

proof fn lemma_turn(p: PoolView, calls: Seq<Call>)
    requires
        p.strategy == LoadBalancerStrategy::RoundRobin,
        p.backends.len() > 0,
        all_well(p.backends),
        p.cursor + calls.len() <= usize::MAX,
    ensures
        after_calls(p, calls) == (PoolView { cursor: (p.cursor + calls.len()) as usize, ..p }),
    decreases calls.len(),
{
    if calls.len() > 0 {
        lemma_turn(p, calls.drop_last());
        lemma_turn_choice(after_calls(p, calls.drop_last()), calls.last().now);
    }
}

/// Round robin gives a request to the backend whose turn it is, if that one is
/// usable.
pub proof fn first_in_turn_is_chosen(p: PoolView, now: int)
    requires
        p.backends.len() > 0,
        is_usable(p.backends[p.cursor as int % p.backends.len() as int], now),
    ensures
        choose_round_robin(p, now).0 == Some(p.cursor as int % p.backends.len() as int),
{
    let n = p.backends.len() as int;
    let start = p.cursor as int % n;
    vstd::arithmetic::div_mod::lemma_mod_bound(p.cursor as int, n);
    vstd::arithmetic::div_mod::lemma_small_mod(start as nat, n as nat);
    assert((start + 0) % n == start);
    assert(is_first_usable(p.backends, now, start, 0));
    let c = choose|c: int| is_first_usable(p.backends, now, start, c);
    if c > 0 {
        assert(!is_usable(p.backends[(start + 0) % n], now));
    }
}

proof fn lemma_turn_choice(p: PoolView, now: int)
    requires
        p.backends.len() > 0,
        all_well(p.backends),
    ensures
        choose_round_robin(p, now) == (
            Some(p.cursor as int % p.backends.len() as int),
            PoolView { cursor: next_cursor(p.cursor), ..p },
        ),
{
    let n = p.backends.len() as int;
    let start = p.cursor as int % n;
    vstd::arithmetic::div_mod::lemma_mod_bound(p.cursor as int, n);
    assert(p.backends[start].healthy);
    first_in_turn_is_chosen(p, now);
    assert(p.backends.update(start, p.backends[start]) =~= p.backends);
}

/// While all backends are well, round robin gives them one request each in
/// turn, in the order in which they are configured, whenever the requests come.
pub proof fn round_robin_takes_turns(p: PoolView, calls: Seq<Call>, k: int)
    requires
        p.strategy == LoadBalancerStrategy::RoundRobin,
        p.backends.len() > 0,
        all_well(p.backends),
        0 <= k < calls.len(),
        p.cursor + k <= usize::MAX,
    ensures
        selection(p, calls, k) == Some((p.cursor + k) % p.backends.len() as int),
{
    lemma_turn(p, calls.take(k));
    lemma_turn_choice(after_calls(p, calls.take(k)), calls[k].now);
}

/// While all backends are well, round robin gives no backend a second request
/// before every other has had one.
pub proof fn round_robin_repeats_nobody_within_a_round(
    p: PoolView,
    calls: Seq<Call>,
    k: int,
    l: int,
)
    requires
        p.strategy == LoadBalancerStrategy::RoundRobin,
        all_well(p.backends),
        0 <= k < l < k + p.backends.len(),
        l < calls.len(),
        p.cursor + l <= usize::MAX,
    ensures
        selection(p, calls, k) != selection(p, calls, l),
{
    let n = p.backends.len() as int;
    round_robin_takes_turns(p, calls, k);
    round_robin_takes_turns(p, calls, l);
    let a = p.cursor + k;
    let d = l - k;
    if (a + d) % n == a % n {
        vstd::arithmetic::div_mod::lemma_sub_mod_noop(a + d, a, n);
        vstd::arithmetic::div_mod::lemma_small_mod(d as nat, n as nat);
        assert((a + d - a) % n == d);
        assert(((a + d) % n - a % n) % n == 0) by {
            vstd::arithmetic::div_mod::lemma_small_mod(0, n as nat);
        }
    }
}

/// While all backends are well, round robin gives every backend one out of as
/// many requests in a row as there are backends.
pub proof fn round_robin_serves_everybody_in_a_round(
    p: PoolView,
    calls: Seq<Call>,
    from: int,
    j: int,
)
    requires
        p.strategy == LoadBalancerStrategy::RoundRobin,
        all_well(p.backends),
        0 <= from,
        from + p.backends.len() <= calls.len(),
        p.cursor + from + p.backends.len() <= usize::MAX,
        0 <= j < p.backends.len(),
    ensures
        exists|k: int|
            from <= k < from + p.backends.len() && #[trigger] selection(p, calls, k) == Some(j),
        forall|k: int, l: int|
            from <= k < l < from + p.backends.len() ==> #[trigger] selection(p, calls, k)
                != #[trigger] selection(p, calls, l),
{
    let n = p.backends.len() as int;
    let a = p.cursor + from;
    let d = (j - a) % n;
    vstd::arithmetic::div_mod::lemma_mod_bound(j - a, n);
    vstd::arithmetic::div_mod::lemma_add_mod_noop_right(a, j - a, n);
    vstd::arithmetic::div_mod::lemma_small_mod(j as nat, n as nat);
    assert((a + d) % n == j);
    round_robin_takes_turns(p, calls, from + d);
    assert(selection(p, calls, from + d) == Some(j));
    assert forall|k: int, l: int| from <= k < l < from + n implies #[trigger] selection(p, calls, k)
        != #[trigger] selection(p, calls, l) by {
        round_robin_repeats_nobody_within_a_round(p, calls, k, l);
    }
}

/// How many of the calls from place `from` to before place `to` go to backend
/// `j`.
pub open spec fn times_selected(p: PoolView, calls: Seq<Call>, from: int, to: int, j: int) -> int
    decreases to - from,
{
    if to <= from {
        0
    } else {
        times_selected(p, calls, from, to - 1, j) + if selection(p, calls, to - 1) == Some(j) {
            1int
        } else {
            0
        }
    }
}

/// An upstream that weighted round robin has not been used on, with all backends
/// well.
pub open spec fn is_fresh_weighted(p: PoolView) -> bool {
    &&& p.strategy == LoadBalancerStrategy::WeightedRoundRobin
    &&& is_sound(p)
    &&& all_well(p.backends)
    &&& p.balances == Seq::new(p.backends.len(), |i: int| 0int)
    &&& weighted::not_negative(p.weights)
}

/// Whether a backend takes no request at the time `now`: it is unhealthy, or its
/// circuit is open with its cooldown still running, or the one trial request of
/// its half-open circuit is under way.
pub open spec fn is_out(b: BackendView, now: int) -> bool {
    ||| !b.healthy
    ||| b.circuit.state == circuit::CircuitState::HalfOpen && b.circuit.probe_taken
    ||| b.circuit.state == circuit::CircuitState::Open && match b.circuit.opened_at {
        Some(t) => 0 < b.circuit.cooldown && now < t + b.circuit.cooldown,
        None => false,
    }
}

/// Whether those backends that `mask` picks out are well, and the others are out
/// at the time `now`.
pub open spec fn are_split_at(backends: Seq<BackendView>, mask: Seq<bool>, now: int) -> bool {
    &&& mask.len() == backends.len()
    &&& forall|i: int|
        0 <= i < backends.len() ==> if #[trigger] mask[i] {
            backends[i].healthy && backends[i].circuit.state == circuit::CircuitState::Closed
        } else {
            is_out(backends[i], now)
        }
}

/// Whether those backends that `mask` picks out are well, and the others are out
/// at the time of every call.
pub open spec fn are_split(backends: Seq<BackendView>, mask: Seq<bool>, calls: Seq<Call>) -> bool {
    forall|k: int|
        0 <= k < calls.len() ==> are_split_at(backends, mask, (#[trigger] calls[k]).now)
}

/// An upstream that weighted round robin has not been used on, whatever the
/// state of its backends.
pub open spec fn is_unplayed(p: PoolView) -> bool {
    &&& p.strategy == LoadBalancerStrategy::WeightedRoundRobin
    &&& is_sound(p)
    &&& p.balances == Seq::new(p.backends.len(), |i: int| 0int)
    &&& weighted::not_negative(p.weights)
}

proof fn lemma_split_is_usable(backends: Seq<BackendView>, mask: Seq<bool>, now: int)
    requires
        are_split_at(backends, mask, now),
    ensures
        usable_mask(backends, now) == mask,
        forall|i: int| 0 <= i < backends.len() ==> is_usable(backends[i], now) == #[trigger] mask[i],
{
    assert forall|i: int| 0 <= i < backends.len() implies is_usable(backends[i], now)
        == #[trigger] mask[i] by {}
    assert(usable_mask(backends, now) =~= mask);
}

proof fn lemma_all_well_are_split(backends: Seq<BackendView>, calls: Seq<Call>)
    requires
        all_well(backends),
    ensures
        are_split(backends, weighted::everyone(backends.len()), calls),
{
    let mask = weighted::everyone(backends.len());
    assert forall|k: int| 0 <= k < calls.len() implies are_split_at(
        backends,
        mask,
        (#[trigger] calls[k]).now,
    ) by {
        assert forall|i: int| 0 <= i < backends.len() implies if #[trigger] mask[i] {
            backends[i].healthy && backends[i].circuit.state == circuit::CircuitState::Closed
        } else {
            is_out(backends[i], calls[k].now)
        } by {
            assert(backends[i].healthy);
        }
    }
}

proof fn lemma_weighted_choice(p: PoolView, mask: Seq<bool>, now: int)
    requires
        is_sound(p),
        are_split_at(p.backends, mask, now),
    ensures
        ({
            let (winner, balances) = weighted::play_round(p.weights, p.balances, mask);
            choose_weighted(p, now) == (winner, PoolView { balances, ..p })
        }),
{
    lemma_split_is_usable(p.backends, mask, now);
    if let Some(j) = weighted::play_round(p.weights, p.balances, mask).0 {
        assert(mask[j]);
        assert(p.backends.update(j, p.backends[j]) =~= p.backends);
    }
}

proof fn lemma_weighted_rounds(p: PoolView, mask: Seq<bool>, calls: Seq<Call>)
    requires
        is_unplayed(p),
        are_split(p.backends, mask, calls),
    ensures
        ({
            let balances = weighted::play_rounds(p.weights, mask, calls.len()).0;
            &&& after_calls(p, calls) == (PoolView { balances, ..p })
            &&& balances.len() == p.backends.len()
        }),
    decreases calls.len(),
{
    if calls.len() > 0 {
        let rest = calls.drop_last();
        assert forall|k: int| 0 <= k < rest.len() implies are_split_at(
            p.backends,
            mask,
            (#[trigger] rest[k]).now,
        ) by {
            assert(rest[k] == calls[k]);
        }
        lemma_weighted_rounds(p, mask, rest);
        assert(are_split_at(p.backends, mask, calls[calls.len() - 1].now));
        lemma_weighted_choice(after_calls(p, rest), mask, calls.last().now);
    }
}

/// While the same backends are usable, weighted round robin goes by its rounds,
/// whenever the requests come.
proof fn lemma_weighted_selection(p: PoolView, mask: Seq<bool>, calls: Seq<Call>, k: int)
    requires
        is_unplayed(p),
        are_split(p.backends, mask, calls),
        0 <= k < calls.len(),
    ensures
        selection(p, calls, k) == weighted::round_winner(p.weights, mask, k as nat),
{
    let before = calls.take(k);
    assert forall|i: int| 0 <= i < before.len() implies are_split_at(
        p.backends,
        mask,
        (#[trigger] before[i]).now,
    ) by {
        assert(before[i] == calls[i]);
    }
    lemma_weighted_rounds(p, mask, before);
    assert(are_split_at(p.backends, mask, calls[k].now));
    lemma_weighted_choice(after_calls(p, before), mask, calls[k].now);
}

proof fn lemma_weighted_times(
    p: PoolView,
    mask: Seq<bool>,
    calls: Seq<Call>,
    from: int,
    to: int,
    j: int,
)
    requires
        is_unplayed(p),
        are_split(p.backends, mask, calls),
        0 <= from <= to <= calls.len(),
        0 <= j < p.backends.len(),
    ensures
        times_selected(p, calls, from, to, j) == weighted::play_rounds(
            p.weights,
            mask,
            to as nat,
        ).1[j] - weighted::play_rounds(p.weights, mask, from as nat).1[j],
    decreases to - from,
{
    if from < to {
        lemma_weighted_times(p, mask, calls, from, to - 1, j);
        lemma_weighted_selection(p, mask, calls, to - 1);
        weighted::lemma_wins_length(p.weights, mask, (to - 1) as nat);
    }
}

/// While the same backends are usable, be it all of them or not, weighted round
/// robin gives each of them, out of as many requests in a row as their weights
/// sum to, exactly as many as its weight, whenever the requests come. The others
/// get none.
pub proof fn weighted_round_robin_follows_the_weights_of_the_usable(
    p: PoolView,
    mask: Seq<bool>,
    calls: Seq<Call>,
    from: int,
    j: int,
)
    requires
        is_unplayed(p),
        mask.len() == p.backends.len(),
        are_split(p.backends, mask, calls),
        0 <= from,
        from + weighted::masked_sum(p.weights, mask) <= calls.len(),
        0 <= j < p.backends.len(),
    ensures
        times_selected(p, calls, from, from + weighted::masked_sum(p.weights, mask), j)
            == if mask[j] {
            p.weights[j]
        } else {
            0
        },
{
    weighted::lemma_sum_monotone(p.weights, mask, mask);
    lemma_weighted_times(
        p,
        mask,
        calls,
        from,
        from + weighted::masked_sum(p.weights, mask),
        j,
    );
    weighted::any_rounds_in_a_row_are_proportional(p.weights, mask, from as nat, j);
}

/// How far a backend is behind its share of the first `k` requests and the next
/// one, in parts of a request as small as the weights of the usable backends sum
/// to.
pub open spec fn owed(p: PoolView, mask: Seq<bool>, calls: Seq<Call>, k: int, i: int) -> int {
    (k + 1) * p.weights[i] - times_selected(p, calls, 0, k, i) * weighted::masked_sum(
        p.weights,
        mask,
    )
}

/// While the same backends are usable, weighted round robin gives every request
/// to the usable backend that is furthest behind its share, the first of several.
pub proof fn weighted_round_robin_takes_the_one_furthest_behind(
    p: PoolView,
    mask: Seq<bool>,
    calls: Seq<Call>,
    k: int,
    i: int,
)
    requires
        is_unplayed(p),
        mask.len() == p.backends.len(),
        are_split(p.backends, mask, calls),
        0 <= k < calls.len(),
        0 <= i < p.backends.len(),
        mask[i],
    ensures
        match selection(p, calls, k) {
            Some(j) => {
                &&& 0 <= j < p.backends.len()
                &&& mask[j]
                &&& owed(p, mask, calls, k, i) <= owed(p, mask, calls, k, j)
                &&& i < j ==> owed(p, mask, calls, k, i) < owed(p, mask, calls, k, j)
            },
            None => false,
        },
{
    lemma_weighted_selection(p, mask, calls, k);
    weighted::winner_is_furthest_behind(p.weights, mask, k as nat, i);
    let j = selection(p, calls, k)->0;
    lemma_weighted_times(p, mask, calls, 0, k, i);
    lemma_weighted_times(p, mask, calls, 0, k, j);
}

/// While all backends are well, weighted round robin gives every backend, out
/// of as many requests in a row as the weights sum to, exactly as many as its
/// weight, whenever the requests come.
pub proof fn weighted_round_robin_follows_the_weights(
    p: PoolView,
    calls: Seq<Call>,
    from: int,
    j: int,
)
    requires
        is_fresh_weighted(p),
        0 <= from,
        from + weighted::total_weight(p.weights) <= calls.len(),
        0 <= j < p.backends.len(),
    ensures
        times_selected(p, calls, from, from + weighted::total_weight(p.weights), j)
            == p.weights[j],
{
    let mask = weighted::everyone(p.backends.len());
    lemma_all_well_are_split(p.backends, calls);
    weighted_round_robin_follows_the_weights_of_the_usable(p, mask, calls, from, j);
}

/// While all backends are well, the choices of weighted round robin repeat: the
/// request that comes as many requests later as the weights sum to goes to the
/// same backend.
pub proof fn weighted_round_robin_repeats(p: PoolView, calls: Seq<Call>, k: int)
    requires
        is_fresh_weighted(p),
        0 <= k,
        k + weighted::total_weight(p.weights) < calls.len(),
    ensures
        selection(p, calls, k + weighted::total_weight(p.weights)) == selection(p, calls, k),
{
    let mask = weighted::everyone(p.backends.len());
    let total = weighted::total_weight(p.weights);
    weighted::total_is_not_negative(p.weights);
    lemma_all_well_are_split(p.backends, calls);
    lemma_weighted_selection(p, mask, calls, k);
    lemma_weighted_selection(p, mask, calls, k + total);
    weighted::rounds_repeat(p.weights, mask, k as nat);
}

/// While all backends are well and some have a weight, weighted round robin
/// never chooses one without.
pub proof fn weightless_backends_are_not_chosen(p: PoolView, calls: Seq<Call>, k: int, j: int)
    requires
        is_fresh_weighted(p),
        0 <= k < calls.len(),
        weighted::total_weight(p.weights) > 0,
        0 <= j < p.backends.len(),
        p.weights[j] == 0,
    ensures
        selection(p, calls, k) != Some(j),
{
    let mask = weighted::everyone(p.backends.len());
    lemma_all_well_are_split(p.backends, calls);
    lemma_weighted_selection(p, mask, calls, k);
    weighted::weightless_members_never_win(p.weights, mask, k as nat, j);
}

/// A backend is usable exactly when it is healthy and its circuit is closed, is
/// half-open with its trial request still to be had, or has been open for its
/// cooldown. It may be thought of as long as it is healthy and its circuit is not
/// in its cooldown.
pub proof fn usable_backends(b: BackendView, now: int)
    ensures
        is_usable(b, now) <==> b.healthy && match b.circuit.state {
            circuit::CircuitState::Closed => true,
            circuit::CircuitState::HalfOpen => !b.circuit.probe_taken,
            circuit::CircuitState::Open => match b.circuit.opened_at {
                Some(t) => b.circuit.cooldown <= 0 || now - t >= b.circuit.cooldown,
                None => true,
            },
        },
        is_candidate(b, now) <==> b.healthy && !(b.circuit.state == circuit::CircuitState::Open
            && match b.circuit.opened_at {
            Some(t) => 0 < b.circuit.cooldown && now < t + b.circuit.cooldown,
            None => false,
        }),
        is_out(b, now) ==> !is_usable(b, now),
        b.healthy && b.circuit.state == circuit::CircuitState::Closed ==> is_usable(b, now),
{
}

/// A selection changes nothing of an upstream but the circuit of the backend
/// that is chosen, which holds its trial request then unless it is closed, and
/// what the strategy goes by: the cursor, the balances or the random state.
pub proof fn selection_changes_little(p: PoolView, now: int, seed: u64)
    requires
        is_sound(p),
    ensures
        ({
            let (choice, after) = choose_backend(p, now, seed);
            &&& after == (PoolView {
                backends: after.backends,
                cursor: after.cursor,
                balances: after.balances,
                random: after.random,
                ..p
            })
            &&& p.strategy != LoadBalancerStrategy::RoundRobin ==> after.cursor == p.cursor
            &&& p.strategy != LoadBalancerStrategy::WeightedRoundRobin ==> after.balances
                == p.balances
            &&& p.strategy != LoadBalancerStrategy::Random ==> after.random == p.random
            &&& after.backends.len() == p.backends.len()
            &&& forall|i: int|
                0 <= i < p.backends.len() ==> #[trigger] after.backends[i] == if choice == Some(i)
                    && p.backends[i].circuit.state != circuit::CircuitState::Closed {
                    BackendView {
                        circuit: CircuitView {
                            state: circuit::CircuitState::HalfOpen,
                            probe_taken: true,
                            ..p.backends[i].circuit
                        },
                        ..p.backends[i]
                    }
                } else {
                    p.backends[i]
                }
        }),
{
    selected_backend_is_available(p, now, seed);
}

/// Round robin chooses the usable backend that comes first from the cursor on,
/// going round, and moves the cursor by one place. Nobody usable is passed over.
pub proof fn round_robin_takes_the_next_usable(p: PoolView, now: int, seed: u64, i: int)
    requires
        p.strategy == LoadBalancerStrategy::RoundRobin,
        is_sound(p),
        0 <= i < p.backends.len(),
        is_usable(p.backends[i], now),
    ensures
        ({
            let n = p.backends.len() as int;
            let (choice, after) = choose_backend(p, now, seed);
            &&& match choice {
                Some(j) => {
                    &&& 0 <= j < n
                    &&& is_usable(p.backends[j], now)
                    &&& (j - p.cursor) % n <= (i - p.cursor) % n
                },
                None => false,
            }
            &&& p.cursor < usize::MAX ==> after.cursor == p.cursor + 1
        }),
{
    let n = p.backends.len() as int;
    let start = p.cursor as int % n;
    selected_backend_is_available(p, now, seed);
    usable_means_selection(p, now, seed, i);
    let o = (i - start) % n;
    vstd::arithmetic::div_mod::lemma_mod_bound(i - start, n);
    vstd::arithmetic::div_mod::lemma_mod_bound(p.cursor as int, n);
    vstd::arithmetic::div_mod::lemma_add_mod_noop_right(start, i - start, n);
    vstd::arithmetic::div_mod::lemma_small_mod(i as nat, n as nat);
    assert((start + o) % n == i);
    lemma_first_usable(p.backends, now, start, o);
    let c = choose|c: int| is_first_usable(p.backends, now, start, c);
    let j = (start + c) % n;
    if o < c {
        assert(!is_usable(p.backends[(start + o) % n], now));
    }
    assert((j - p.cursor) % n == c) by {
        vstd::arithmetic::div_mod::lemma_sub_mod_noop(start + c, p.cursor as int, n);
        vstd::arithmetic::div_mod::lemma_sub_mod_noop(j, p.cursor as int, n);
        vstd::arithmetic::div_mod::lemma_mod_twice(start + c, n);
        vstd::arithmetic::div_mod::lemma_mod_twice(p.cursor as int, n);
        vstd::arithmetic::div_mod::lemma_sub_mod_noop(start + c, start, n);
        vstd::arithmetic::div_mod::lemma_small_mod(c as nat, n as nat);
    }
    assert((i - p.cursor) % n == o) by {
        vstd::arithmetic::div_mod::lemma_sub_mod_noop(i, p.cursor as int, n);
        vstd::arithmetic::div_mod::lemma_sub_mod_noop(i, start, n);
        vstd::arithmetic::div_mod::lemma_mod_twice(p.cursor as int, n);
    }
}

proof fn lemma_split_turn(p: PoolView, mask: Seq<bool>, calls: Seq<Call>)
    requires
        p.strategy == LoadBalancerStrategy::RoundRobin,
        is_sound(p),
        are_split(p.backends, mask, calls),
        p.backends.len() > 0,
        p.cursor + calls.len() <= usize::MAX,
    ensures
        after_calls(p, calls) == (PoolView { cursor: (p.cursor + calls.len()) as usize, ..p }),
    decreases calls.len(),
{
    if calls.len() > 0 {
        let rest = calls.drop_last();
        assert forall|k: int| 0 <= k < rest.len() implies are_split_at(
            p.backends,
            mask,
            (#[trigger] rest[k]).now,
        ) by {
            assert(rest[k] == calls[k]);
        }
        lemma_split_turn(p, mask, rest);
        let before = after_calls(p, rest);
        let now = calls.last().now;
        assert(are_split_at(p.backends, mask, calls[calls.len() - 1].now));
        lemma_split_is_usable(p.backends, mask, now);
        selection_changes_little(before, now, calls.last().seed);
        selected_backend_is_available(before, now, calls.last().seed);
        let after = choose_backend(before, now, calls.last().seed).1;
        assert forall|i: int| 0 <= i < p.backends.len() implies #[trigger] after.backends[i]
            == p.backends[i] by {
            assert(is_usable(p.backends[i], now) == mask[i]);
        }
        assert(after.backends =~= p.backends);
    }
}

/// While the same backends are usable, be it all of them or not, round robin
/// gives each of them one at least out of as many requests in a row as there are
/// backends, and the others none.
pub proof fn round_robin_serves_every_usable_backend(
    p: PoolView,
    mask: Seq<bool>,
    calls: Seq<Call>,
    from: int,
    j: int,
)
    requires
        p.strategy == LoadBalancerStrategy::RoundRobin,
        is_sound(p),
        are_split(p.backends, mask, calls),
        0 <= from,
        from + p.backends.len() <= calls.len(),
        p.cursor + from + p.backends.len() <= usize::MAX,
        0 <= j < p.backends.len(),
    ensures
        mask[j] ==> exists|k: int|
            from <= k < from + p.backends.len() && #[trigger] selection(p, calls, k) == Some(j),
        !mask[j] ==> forall|k: int|
            from <= k < from + p.backends.len() ==> #[trigger] selection(p, calls, k) != Some(j),
{
    let n = p.backends.len() as int;
    assert forall|k: int| from <= k < from + n implies {
        &&& after_calls(p, calls.take(k)) == (PoolView { cursor: (p.cursor + k) as usize, ..p })
        &&& !mask[j] ==> #[trigger] selection(p, calls, k) != Some(j)
    } by {
        let before = calls.take(k);
        assert forall|i: int| 0 <= i < before.len() implies are_split_at(
            p.backends,
            mask,
            (#[trigger] before[i]).now,
        ) by {
            assert(before[i] == calls[i]);
        }
        lemma_split_turn(p, mask, before);
        assert(are_split_at(p.backends, mask, calls[k].now));
        lemma_split_is_usable(p.backends, mask, calls[k].now);
        selected_backend_is_available(after_calls(p, before), calls[k].now, calls[k].seed);
        assert(is_usable(p.backends[j], calls[k].now) == mask[j]);
    }
    if mask[j] {
        let a = p.cursor + from;
        let d = (j - a) % n;
        vstd::arithmetic::div_mod::lemma_mod_bound(j - a, n);
        vstd::arithmetic::div_mod::lemma_add_mod_noop_right(a, j - a, n);
        vstd::arithmetic::div_mod::lemma_small_mod(j as nat, n as nat);
        assert((a + d) % n == j);
        let k = from + d;
        assert(are_split_at(p.backends, mask, calls[k].now));
        assert(selection(p, calls, k) == Some(j)) by {
            first_in_turn_is_chosen(after_calls(p, calls.take(k)), calls[k].now);
        }
    }
}

/// Least connections chooses the usable backend with the fewest requests under
/// way, the first of several.
pub proof fn least_connections_takes_the_first_of_the_least(
    p: PoolView,
    now: int,
    seed: u64,
    i: int,
)
    requires
        p.strategy == LoadBalancerStrategy::LeastConnections,
        is_sound(p),
        0 <= i < p.backends.len(),
        is_usable(p.backends[i], now),
    ensures
        match choose_backend(p, now, seed).0 {
            Some(j) => {
                &&& 0 <= j < p.backends.len()
                &&& is_usable(p.backends[j], now)
                &&& p.backends[j].connections <= p.backends[i].connections
                &&& i < j ==> p.backends[j].connections < p.backends[i].connections
            },
            None => false,
        },
{
    selected_backend_is_available(p, now, seed);
    usable_means_selection(p, now, seed, i);
    let j = choose_backend(p, now, seed).0->0;
    assert(is_least_busy(p.backends, now, j));
    assert(i < j ==> p.backends[i].connections > p.backends[j].connections);
    assert(j < i ==> p.backends[i].connections >= p.backends[j].connections);
}

/// How many of the first `n` backends are usable.
pub open spec fn usable_among(backends: Seq<BackendView>, now: int, n: int) -> int
    decreases n,
{
    if n <= 0 {
        0
    } else {
        usable_among(backends, now, n - 1) + if is_usable(backends[n - 1], now) {
            1int
        } else {
            0
        }
    }
}

proof fn lemma_usable_among(backends: Seq<BackendView>, now: int, n: nat)
    requires
        n <= backends.len(),
    ensures
        usable_places(backends, now, n).len() == usable_among(backends, now, n as int),
        forall|k: int|
            0 <= k < usable_places(backends, now, n).len() ==> usable_among(
                backends,
                now,
                #[trigger] usable_places(backends, now, n)[k],
            ) == k,
    decreases n,
{
    if n > 0 {
        lemma_usable_among(backends, now, (n - 1) as nat);
        let rest = usable_places(backends, now, (n - 1) as nat);
        let all = usable_places(backends, now, n);
        assert forall|k: int| 0 <= k < all.len() implies usable_among(
            backends,
            now,
            #[trigger] all[k],
        ) == k by {
            if k < rest.len() {
                assert(all[k] == rest[k]);
            }
        }
    }
}

/// Random chooses among the usable backends by the next random number, each of
/// them by as many of the numbers as any other: the number of usable backends
/// before the one that is chosen is what is left of the number when it is divided
/// by the number of all of them. The next choice goes by another number.
pub proof fn random_spreads_over_the_usable(p: PoolView, now: int, seed: u64)
    requires
        p.strategy == LoadBalancerStrategy::Random,
        is_sound(p),
        usable_among(p.backends, now, p.backends.len() as int) > 0,
    ensures
        ({
            let number = next_random(p.random, seed);
            let (choice, after) = choose_backend(p, now, seed);
            &&& match choice {
                Some(j) => {
                    &&& 0 <= j < p.backends.len()
                    &&& is_usable(p.backends[j], now)
                    &&& usable_among(p.backends, now, j) == (number as usize) as int
                        % usable_among(p.backends, now, p.backends.len() as int)
                },
                None => false,
            }
            &&& after.random == number
        }),
{
    let n = p.backends.len();
    lemma_usable_among(p.backends, now, n);
    lemma_usable_places(p.backends, now, n);
    let places = usable_places(p.backends, now, n);
    let number = next_random(p.random, seed);
    vstd::arithmetic::div_mod::lemma_mod_bound((number as usize) as int, places.len() as int);
    let j = places[random_place(number, places.len())];
    assert(is_usable(p.backends[j], now));
}

/// Two different states of the random numbers lead to different numbers, so that
/// the numbers do not repeat before they have come round to where they began.
pub proof fn random_numbers_do_not_run_together(x: u64, y: u64, seed: u64)
    requires
        x != 0,
        y != 0,
    ensures
        next_random(x, seed) == next_random(y, seed) ==> x == y,
        next_random(x, seed) == {
            let a = x ^ (x << 13u64);
            let b = a ^ (a >> 7u64);
            b ^ (b << 17u64)
        },
        next_random(0, seed) == next_random(seed | 1, seed),
{
    assert(seed | 1 != 0) by (bit_vector);
    lemma_steps_are_one_to_one(x, y);
    let a = x ^ (x << 13);
    let b = y ^ (y << 13);
    let c = a ^ (a >> 7);
    let d = b ^ (b >> 7);
    lemma_steps_are_one_to_one(a, b);
    lemma_steps_are_one_to_one(c, d);
}

proof fn lemma_steps_are_one_to_one(x: u64, y: u64)
    ensures
        x ^ (x << 13) == y ^ (y << 13) ==> x == y,
        x ^ (x >> 7) == y ^ (y >> 7) ==> x == y,
        x ^ (x << 17) == y ^ (y << 17) ==> x == y,
{
    assert(x ^ (x << 13) == y ^ (y << 13) ==> x == y) by (bit_vector);
    assert(x ^ (x >> 7) == y ^ (y >> 7) ==> x == y) by (bit_vector);
    assert(x ^ (x << 17) == y ^ (y << 17) ==> x == y) by (bit_vector);
}

/// A round of weighted round robin hands out nothing: what the usable backends
/// gain by their weights, the one that is chosen pays back. It is the one with
/// the highest balance then, the first of several, and the balances of the
/// others that are not usable stay as they are.
pub proof fn weighted_rounds_are_settled(p: PoolView, now: int, seed: u64, i: int)
    requires
        p.strategy == LoadBalancerStrategy::WeightedRoundRobin,
        is_sound(p),
        0 <= i < p.backends.len(),
    ensures
        ({
            let (choice, after) = choose_backend(p, now, seed);
            let all = weighted::everyone(p.backends.len());
            &&& weighted::masked_sum(after.balances, all) == weighted::masked_sum(p.balances, all)
            &&& choice != Some(i) ==> after.balances[i] == p.balances[i] + if is_usable(
                p.backends[i],
                now,
            ) {
                p.weights[i]
            } else {
                0
            }
            &&& is_usable(p.backends[i], now) ==> match choice {
                Some(j) => {
                    let gained = p.balances[j] + p.weights[j];
                    &&& p.balances[i] + p.weights[i] <= gained
                    &&& i < j ==> p.balances[i] + p.weights[i] < gained
                },
                None => false,
            }
        }),
{
    let mask = usable_mask(p.backends, now);
    if is_usable(p.backends[i], now) {
        assert(mask[i]);
        usable_means_selection(p, now, seed, i);
    }
    selected_backend_is_available(p, now, seed);
    let up = weighted::raised(p.weights, p.balances, mask);
    if exists|j: int| weighted::is_winner(up, mask, j) {
        let j = choose|j: int| weighted::is_winner(up, mask, j);
        assert(mask[j] == is_usable(p.backends[j], now));
        assert(mask[i] == is_usable(p.backends[i], now));
        weighted::rounds_hand_out_nothing(p.weights, p.balances, mask, j);
        assert(i < j && mask[i] ==> up[i] < up[j]);
        assert(j < i && mask[i] ==> up[i] <= up[j]);
    }
}

/// An upstream starts with a backend for every configured server, in order, each
/// with its URL, its weight (one where none is given) and a closed circuit with
/// the configured threshold and cooldown, and with the other settings as they are
/// configured.
pub proof fn fresh_pools_are_as_configured(
    name: Seq<char>,
    config: UpstreamConfig,
    clock: Clock,
    i: int,
)
    requires
        0 <= i < config.servers@.len(),
    ensures
        ({
            let p = fresh_pool(name, config, clock);
            let b = p.backends[i];
            let weight = match config.servers@[i] {
                ServerEntry::Plain(_) => 1u32,
                ServerEntry::Weighted { url: _, weight } => weight,
            };
            &&& p.name == name
            &&& p.strategy == config.load_balancer
            &&& p.backends.len() == config.servers@.len()
            &&& p.cursor == 0
            &&& p.timeout_ms == config.timeout_ms
            &&& p.retry == config.retry
            &&& p.health_check == config.health_check
            &&& b.url == match config.servers@[i] {
                ServerEntry::Plain(url) => url@,
                ServerEntry::Weighted { url, weight: _ } => url@,
            }
            &&& b.weight == weight
            &&& p.weights[i] == weight
            &&& p.balances[i] == 0
            &&& b.healthy
            &&& b.successes == 0 && b.failures == 0
            &&& b.connections == 0
            &&& b.place == i
            &&& b.circuit.state == circuit::CircuitState::Closed
            &&& b.circuit.failures == 0
            &&& b.circuit.threshold == config.circuit_breaker.failure_threshold
            &&& b.circuit.cooldown == config.circuit_breaker.open_duration_secs * 1_000_000_000
        }),
{
}

/// Something that happens to an upstream.
pub enum PoolEvent {
    /// A backend is chosen for a request.
    Select(Call),
    /// A request against the backend at a place begins.
    Begin(int),
    /// A request against the backend at a place ends.
    End(int),
    /// The backend at a place has been checked.
    Check(int, bool),
    /// A request against the backend at a place has succeeded or failed, at
    /// this time.
    Outcome(int, bool, int),
}

/// An upstream behind something that has happened to it.
pub open spec fn after_event(p: PoolView, e: PoolEvent) -> PoolView {
    match e {
        PoolEvent::Select(call) => choose_backend(p, call.now, call.seed).1,
        PoolEvent::Begin(i) => with_backend(p, i, one_connection_more(p.backends[i])),
        PoolEvent::End(i) => with_backend(p, i, one_connection_less(p.backends[i])),
        PoolEvent::Check(i, success) => with_backend(
            p,
            i,
            checked(
                p.backends[i],
                success,
                p.health_check.healthy_threshold,
                p.health_check.unhealthy_threshold,
            ).1,
        ),
        PoolEvent::Outcome(i, success, now) => noted_outcome(p, i, success, now),
    }
}

/// An upstream behind all that has happened to it, one thing after the other.
pub open spec fn after_events(p: PoolView, events: Seq<PoolEvent>) -> PoolView
    decreases events.len(),
{
    if events.len() == 0 {
        p
    } else {
        after_event(after_events(p, events.drop_last()), events.last())
    }
}

/// Whether the backend that an event is about is one of `n`.
pub open spec fn is_about(e: PoolEvent, n: int) -> bool {
    match e {
        PoolEvent::Select(_) => true,
        PoolEvent::Begin(i) => 0 <= i < n,
        PoolEvent::End(i) => 0 <= i < n,
        PoolEvent::Check(i, _) => 0 <= i < n,
        PoolEvent::Outcome(i, _, _) => 0 <= i < n,
    }
}

/// How many requests against backend `j` have begun and not ended: the guards
/// of the backend that are still held.
pub open spec fn live_guards(events: Seq<PoolEvent>, j: int) -> int
    decreases events.len(),
{
    if events.len() == 0 {
        0
    } else {
        live_guards(events.drop_last(), j) + match events.last() {
            PoolEvent::Begin(i) => if i == j {
                1int
            } else {
                0
            },
            PoolEvent::End(i) => if i == j {
                -1int
            } else {
                0
            },
            _ => 0,
        }
    }
}

/// Whether no request ends that has not begun: a guard is handed back once.
pub open spec fn guards_are_handed_back_once(events: Seq<PoolEvent>) -> bool {
    forall|k: int|
        0 <= k < events.len() ==> match #[trigger] events[k] {
            PoolEvent::End(j) => live_guards(events.take(k), j) > 0,
            _ => true,
        }
}

/// Whatever happens to an upstream, its backends stay the same ones, in the same
/// order.
pub proof fn backends_stay_in_place(p: PoolView, events: Seq<PoolEvent>)
    requires
        is_sound(p),
        forall|k: int|
            0 <= k < events.len() ==> is_about(#[trigger] events[k], p.backends.len() as int),
    ensures
        ({
            let after = after_events(p, events);
            &&& is_sound(after)
            &&& after.name == p.name
            &&& after.weights == p.weights
            &&& after.backends.len() == p.backends.len()
            &&& forall|i: int|
                0 <= i < p.backends.len() ==> (#[trigger] after.backends[i]).url
                    == p.backends[i].url && after.backends[i].weight == p.backends[i].weight
                    && after.backends[i].place == p.backends[i].place
        }),
    decreases events.len(),
{
    if events.len() > 0 {
        let rest = events.drop_last();
        assert forall|k: int| 0 <= k < rest.len() implies is_about(
            #[trigger] rest[k],
            p.backends.len() as int,
        ) by {
            assert(rest[k] == events[k]);
        }
        backends_stay_in_place(p, rest);
        assert(is_about(events[events.len() - 1], p.backends.len() as int));
        if let PoolEvent::Select(call) = events.last() {
            selected_backend_is_available(after_events(p, rest), call.now, call.seed);
        }
    }
}

/// Whatever happens to an upstream, the number of requests under way against a
/// backend is that of its guards that are still held. Guards of other backends
/// do not count.
pub proof fn connections_are_the_live_guards(p: PoolView, events: Seq<PoolEvent>, j: int)
    requires
        is_sound(p),
        forall|k: int|
            0 <= k < events.len() ==> is_about(#[trigger] events[k], p.backends.len() as int),
        guards_are_handed_back_once(events),
        events.len() <= usize::MAX,
        0 <= j < p.backends.len(),
        p.backends[j].connections == 0,
    ensures
        after_events(p, events).backends[j].connections == live_guards(events, j),
        0 <= live_guards(events, j) <= events.len(),
    decreases events.len(),
{
    if events.len() > 0 {
        let rest = events.drop_last();
        assert forall|k: int| 0 <= k < rest.len() implies is_about(
            #[trigger] rest[k],
            p.backends.len() as int,
        ) by {
            assert(rest[k] == events[k]);
        }
        assert forall|k: int| 0 <= k < rest.len() implies match #[trigger] rest[k] {
            PoolEvent::End(j) => live_guards(rest.take(k), j) > 0,
            _ => true,
        } by {
            assert(rest[k] == events[k]);
            assert(rest.take(k) =~= events.take(k));
        }
        connections_are_the_live_guards(p, rest, j);
        backends_stay_in_place(p, rest);
        let last = events.len() - 1;
        assert(is_about(events[last], p.backends.len() as int));
        assert(events.take(last) =~= rest);
        match events[last] {
            PoolEvent::Select(call) => {
                selected_backend_is_available(after_events(p, rest), call.now, call.seed);
            },
            _ => {},
        }
    }
}

/// Health checks of the backend at place `i`, with these outcomes.
pub open spec fn checks_of(i: int, results: Seq<bool>) -> Seq<PoolEvent> {
    results.map_values(|success: bool| PoolEvent::Check(i, success))
}

proof fn lemma_checks(p: PoolView, i: int, results: Seq<bool>)
    requires
        0 <= i < p.backends.len(),
    ensures
        after_events(p, checks_of(i, results)) == with_backend(
            p,
            i,
            checked_history(
                p.backends[i],
                results,
                p.health_check.healthy_threshold,
                p.health_check.unhealthy_threshold,
            ),
        ),
    decreases results.len(),
{
    if results.len() > 0 {
        lemma_checks(p, i, results.drop_last());
        assert(checks_of(i, results).drop_last() =~= checks_of(i, results.drop_last()));
        assert(checks_of(i, results).last() == PoolEvent::Check(i, results.last()));
    }
    assert(after_events(p, checks_of(i, results)).backends =~= with_backend(
        p,
        i,
        checked_history(
            p.backends[i],
            results,
            p.health_check.healthy_threshold,
            p.health_check.unhealthy_threshold,
        ),
    ).backends);
}

/// The health of a backend goes by the thresholds of its upstream: one that is
/// healthy becomes unhealthy with as many failed checks in a row as
/// `unhealthy_threshold` says, and not before; one that is not becomes healthy
/// with as many successful ones as `healthy_threshold` says, and not before. No
/// other backend and nothing else of the upstream is changed.
pub proof fn checks_go_by_the_thresholds(p: PoolView, i: int, results: Seq<bool>)
    requires
        0 <= i < p.backends.len(),
        p.backends[i].successes == 0,
        p.backends[i].failures == 0,
        0 < results.len() <= u32::MAX,
        p.health_check.healthy_threshold > 0,
        p.health_check.unhealthy_threshold > 0,
    ensures
        ({
            let up = p.health_check.healthy_threshold as int;
            let down = p.health_check.unhealthy_threshold as int;
            let n = results.len() as int;
            let before = after_events(p, checks_of(i, results.drop_last()));
            let after = after_events(p, checks_of(i, results));
            &&& after.backends[i].healthy <==> if before.backends[i].healthy {
                n < down || exists|k: int| n - down <= k < n && #[trigger] results[k]
            } else {
                n >= up && forall|k: int| n - up <= k < n ==> #[trigger] results[k]
            }
            &&& after.backends.len() == p.backends.len()
            &&& forall|j: int|
                0 <= j < p.backends.len() && j != i ==> #[trigger] after.backends[j]
                    == p.backends[j]
            &&& after == (PoolView { backends: after.backends, ..p })
            &&& after.backends[i].circuit == p.backends[i].circuit
            &&& after.backends[i].connections == p.backends[i].connections
        }),
{
    let up = p.health_check.healthy_threshold;
    let down = p.health_check.unhealthy_threshold;
    lemma_checks(p, i, results);
    lemma_checks(p, i, results.drop_last());
    the_last_checks_decide(p.backends[i], results, up, down);
    if last_are(results, false, down as int) {
        assert(forall|k: int|
            results.len() - down <= k < results.len() ==> !(#[trigger] results[k]));
    }
}

/// As many failed checks in a row as the threshold says take a healthy backend
/// out, and as many successful ones bring an unhealthy one back.
pub proof fn failures_in_a_row_take_a_backend_out(p: PoolView, i: int, results: Seq<bool>)
    requires
        is_sound(p),
        0 <= i < p.backends.len(),
        p.backends[i].successes == 0,
        p.backends[i].failures == 0,
        results.len() > 0,
        p.health_check.healthy_threshold > 0,
        p.health_check.unhealthy_threshold > 0,
    ensures
        ({
            let after = after_events(p, checks_of(i, results));
            &&& is_sound(after)
            &&& p.backends[i].healthy && results.len() == p.health_check.unhealthy_threshold && (
            forall|k: int| 0 <= k < results.len() ==> !(#[trigger] results[k]))
                ==> !after.backends[i].healthy
            &&& !p.backends[i].healthy && results.len() == p.health_check.healthy_threshold && (
            forall|k: int| 0 <= k < results.len() ==> #[trigger] results[k])
                ==> after.backends[i].healthy
        }),
{
    let b = p.backends[i];
    let up = p.health_check.healthy_threshold;
    let down = p.health_check.unhealthy_threshold;
    lemma_checks(p, i, results);
    if b.healthy && results.len() == down && (forall|k: int|
        0 <= k < results.len() ==> !(#[trigger] results[k])) {
        lemma_equal_checks(b, results, false, up, down);
        failures_below_the_threshold_do_not_flap(b, up, down, results.len());
    }
    if !b.healthy && results.len() == up && (forall|k: int|
        0 <= k < results.len() ==> #[trigger] results[k]) {
        lemma_equal_checks(b, results, true, up, down);
        successes_up_to_the_threshold_recover(b, up, down, results.len());
    }
}

proof fn lemma_equal_checks(b: BackendView, results: Seq<bool>, outcome: bool, ht: u32, ut: u32)
    requires
        forall|k: int| 0 <= k < results.len() ==> #[trigger] results[k] == outcome,
    ensures
        checked_history(b, results, ht, ut) == checked_times(b, outcome, ht, ut, results.len()),
    decreases results.len(),
{
    if results.len() > 0 {
        assert(results[results.len() - 1] == outcome);
        assert forall|k: int| 0 <= k < results.drop_last().len() implies #[trigger] results.drop_last()[k]
            == outcome by {
            assert(results[k] == outcome);
        }
        lemma_equal_checks(b, results.drop_last(), outcome, ht, ut);
    }
}

/// The upstream that is found by a name, if there is one.
pub open spec fn found_by_name(
    names: Seq<Seq<char>>,
    states: Seq<PoolView>,
    name: Seq<char>,
) -> Option<PoolView> {
    if names.contains(name) {
        Some(states[names.index_of(name)])
    } else {
        None
    }
}

/// Something that happens to the upstream at a place.
pub struct Change {
    pub place: int,
    pub event: PoolEvent,
}

/// The upstreams behind all changes, one after the other.
pub open spec fn after_changes(states: Seq<PoolView>, changes: Seq<Change>) -> Seq<PoolView>
    decreases changes.len(),
{
    if changes.len() == 0 {
        states
    } else {
        let before = after_changes(states, changes.drop_last());
        let last = changes.last();
        before.update(last.place, after_event(before[last.place], last.event))
    }
}

/// What has happened to the upstream at place `i`.
pub open spec fn events_at(changes: Seq<Change>, i: int) -> Seq<PoolEvent>
    decreases changes.len(),
{
    if changes.len() == 0 {
        Seq::empty()
    } else {
        let before = events_at(changes.drop_last(), i);
        if changes.last().place == i {
            before.push(changes.last().event)
        } else {
            before
        }
    }
}

/// What is changed at a place of the upstreams is seen by name: after any
/// changes the upstream that is found by a name is the one that was there, with
/// all that has happened to it and nothing that has happened to others. No name
/// comes or goes.
pub proof fn changes_are_seen_by_name(
    names: Seq<Seq<char>>,
    states: Seq<PoolView>,
    changes: Seq<Change>,
    name: Seq<char>,
)
    requires
        names.len() == states.len(),
        forall|k: int| 0 <= k < changes.len() ==> 0 <= (#[trigger] changes[k]).place < states.len(),
    ensures
        after_changes(states, changes).len() == states.len(),
        found_by_name(names, after_changes(states, changes), name) == if names.contains(name) {
            Some(
                after_events(
                    states[names.index_of(name)],
                    events_at(changes, names.index_of(name)),
                ),
            )
        } else {
            None
        },
    decreases changes.len(),
{
    if changes.len() > 0 {
        let rest = changes.drop_last();
        assert forall|k: int| 0 <= k < rest.len() implies 0 <= (#[trigger] rest[k]).place
            < states.len() by {
            assert(rest[k] == changes[k]);
        }
        changes_are_seen_by_name(names, states, rest, name);
        assert(0 <= changes[changes.len() - 1].place < states.len());
        if names.contains(name) {
            let i = names.index_of(name);
            let before = events_at(rest, i);
            assert(before.push(changes.last().event).drop_last() =~= before);
        }
    }
}

/// The views of a list of upstreams.
pub open spec fn pool_views(pools: Seq<UpstreamPool>) -> Seq<PoolView> {
    pools.map_values(|p: UpstreamPool| p@)
}

/// Whether upstreams with these settings can be built: none of them lists
/// more servers than a `u32` counts.
pub open spec fn can_build(upstreams: SortedMap<String, UpstreamConfig>) -> bool {
    forall|i: int|
        0 <= i < upstreams.values().len() ==> (#[trigger] upstreams.values()[i]).servers@.len()
            <= u32::MAX
}

/// The upstreams that a configuration starts with, in the order of their
/// names.
pub open spec fn fresh_pools(
    upstreams: SortedMap<String, UpstreamConfig>,
    clock: Clock,
) -> Seq<PoolView> {
    Seq::new(
        upstreams.keys().len(),
        |i: int| fresh_pool(upstreams.keys()[i], upstreams.values()[i], clock),
    )
}

/// All upstreams, by name.
#[derive(Debug)]
pub struct UpstreamManager {
    pools: SortedMap<String, UpstreamPool>,
    clock: Clock,
}

impl UpstreamManager {
    /// The names of the upstreams, in order.
    pub closed spec fn names(&self) -> Seq<Seq<char>> {
        self.pools.keys()
    }

    /// The upstreams, in the order of their names.
    pub closed spec fn states(&self) -> Seq<PoolView> {
        pool_views(self.pools.values())
    }

    /// The clock that the upstreams share.
    pub closed spec fn spec_clock(&self) -> Clock {
        self.clock
    }

    /// Whether `from_config` can build these upstreams.
    pub fn can_build(upstreams: &SortedMap<String, UpstreamConfig>) -> (r: bool)
        ensures
            r == can_build(*upstreams),
    {
        let n: usize = upstreams.len();
        let mut i: usize = 0;
        while i < n
            invariant
                i <= n,
                n == upstreams.values().len(),
                forall|k: int|
                    0 <= k < i ==> (#[trigger] upstreams.values()[k]).servers@.len() <= u32::MAX,
            decreases n - i,
        {
            let servers: usize = upstreams.value_at(i).servers.len();
            if servers > u32::MAX as usize {
                return false;
            }
            i = i + 1;
        }
        true
    }

    /// The upstreams of a configuration, none of them used yet. They share a
    /// clock.
    pub fn from_config(upstreams: &SortedMap<String, UpstreamConfig>) -> (m: Self)
        requires
            can_build(*upstreams),
        ensures
            m.names() == upstreams.keys(),
            forall|name: Seq<char>| #[trigger]
                m.names().contains(name) <==> upstreams@.contains_key(name),
            m.states() == fresh_pools(*upstreams, m.spec_clock()),
    {
        let clock = Clock::start();
        let mut pools: SortedMap<String, UpstreamPool> = SortedMap::new();
        let n: usize = upstreams.len();
        let ghost names = upstreams.keys();
        let ghost expected = fresh_pools(*upstreams, clock);
        let mut i: usize = 0;
        while i < n
            invariant
                i <= n,
                can_build(*upstreams),
                n == names.len(),
                n == upstreams.values().len(),
                names == upstreams.keys(),
                sorted_map::ascending::<String>(names),
                expected == fresh_pools(*upstreams, clock),
                pools.keys() == names.take(i as int),
                pools.keys().len() == pools.values().len(),
                pool_views(pools.values()) == expected.take(i as int),
            decreases n - i,
        {
            let name = upstreams.key_at(i).clone();
            let config = upstreams.value_at(i);
            assert(upstreams.values()[i as int].servers@.len() <= u32::MAX);
            let pool = UpstreamPool::with_clock(name.clone(), config, clock);
            let ghost old_keys = pools.keys();
            let ghost old_values = pools.values();
            pools.insert(name, pool);
            proof {
                assert forall|k: int| 0 <= k < old_keys.len() implies <String as OrderedKey>::before(
                    #[trigger] old_keys[k],
                    name@,
                ) by {
                    assert(old_keys[k] == names[k]);
                }
                sorted_map::last_entry_is_pushed::<String, UpstreamPool>(
                    old_keys,
                    old_values,
                    name@,
                    pool,
                    pools.keys(),
                    pools.values(),
                );
                assert(pools.keys() =~= names.take(i + 1));
                assert(pool_views(pools.values()) =~= pool_views(old_values).push(pool@));
                assert(pool_views(pools.values()) =~= expected.take(i + 1));
            }
            i = i + 1;
        }
        let m = UpstreamManager { pools, clock };
        assert(m.names() =~= upstreams.keys());
        assert(m.states() =~= expected);
        m
    }

    /// The time on the clock that the upstreams share.
    pub fn now(&self) -> (nanos: u128)
        ensures
            clock::is_reading(self.spec_clock(), nanos as int),
    {
        self.clock.now()
    }

    /// The number of upstreams.
    pub fn len(&self) -> (n: usize)
        ensures
            n == self.names().len(),
            n == self.states().len(),
    {
        self.pools.len()
    }

    /// The place of the upstream called `name`, if there is one.
    pub fn index_of(&self, name: &str) -> (r: Option<usize>)
        ensures
            match r {
                Some(i) => {
                    &&& i < self.names().len()
                    &&& i < self.states().len()
                    &&& self.names()[i as int] == name@
                    &&& i == self.names().index_of(name@)
                },
                None => !self.names().contains(name@),
            },
    {
        let key = name.to_string();
        let r = self.pools.index_of(&key);
        match r {
            Some(i) => {
                proof {
                    sorted_map::ascending_keys_are_distinct::<String>(
                        self.names(),
                        i as int,
                        self.names().index_of(name@),
                    );
                }
            },
            None => {
                assert(!self.pools@.contains_key(key@));
            },
        }
        r
    }

    /// The upstream at place `i`.
    pub fn pool_at(&self, i: usize) -> (p: &UpstreamPool)
        requires
            i < self.states().len(),
        ensures
            p@ == self.states()[i as int],
    {
        self.pools.value_at(i)
    }

    /// The upstream at place `i`, to be changed in place.
    pub fn pool_at_mut(&mut self, i: usize) -> (p: &mut UpstreamPool)
        requires
            i < old(self).states().len(),
        ensures
            p@ == old(self).states()[i as int],
            final(self).names() == old(self).names(),
            final(self).states() == old(self).states().update(i as int, final(p)@),
    {
        self.pools.value_at_mut(i)
    }

    /// The upstream called `name`, if there is one.
    pub fn get(&self, name: &str) -> (r: Option<&UpstreamPool>)
        ensures
            match r {
                Some(p) => found_by_name(self.names(), self.states(), name@) == Some(p@),
                None => found_by_name(self.names(), self.states(), name@) is None,
            },
    {
        match self.index_of(name) {
            Some(i) => Some(self.pool_at(i)),
            None => None,
        }
    }

    /// The upstreams, in the order of their names.
    pub fn pools(&self) -> (r: Vec<&UpstreamPool>)
        ensures
            r@.len() == self.states().len(),
            forall|i: int| 0 <= i < r@.len() ==> (#[trigger] r@[i])@ == self.states()[i],
    {
        let mut r: Vec<&UpstreamPool> = Vec::new();
        let n: usize = self.len();
        let mut i: usize = 0;
        while i < n
            invariant
                i <= n,
                n == self.states().len(),
                r@.len() == i,
                forall|k: int| 0 <= k < i ==> (#[trigger] r@[k])@ == self.states()[k],
            decreases n - i,
        {
            r.push(self.pool_at(i));
            i = i + 1;
        }
        r
    }
}

/// Every configured upstream is there under its name, with its own settings and
/// servers.
pub proof fn every_upstream_is_as_configured(
    upstreams: SortedMap<String, UpstreamConfig>,
    clock: Clock,
    i: int,
    j: int,
)
    requires
        0 <= i < upstreams.keys().len(),
        0 <= j < upstreams.values()[i].servers@.len(),
    ensures
        ({
            let pools = fresh_pools(upstreams, clock);
            let config = upstreams.values()[i];
            &&& pools.len() == upstreams.keys().len()
            &&& pools[i].name == upstreams.keys()[i]
            &&& pools[i].strategy == config.load_balancer
            &&& pools[i].timeout_ms == config.timeout_ms
            &&& pools[i].retry == config.retry
            &&& pools[i].health_check == config.health_check
            &&& pools[i].backends.len() == config.servers@.len()
            &&& pools[i].backends[j].url == match config.servers@[j] {
                ServerEntry::Plain(url) => url@,
                ServerEntry::Weighted { url, weight: _ } => url@,
            }
            &&& pools[i].weights[j] == match config.servers@[j] {
                ServerEntry::Plain(_) => 1,
                ServerEntry::Weighted { url: _, weight } => weight as int,
            }
            &&& pools[i].backends[j].healthy
            &&& pools[i].backends[j].circuit.state == circuit::CircuitState::Closed
            &&& pools[i].backends[j].circuit.threshold == config.circuit_breaker.failure_threshold
        }),
{
    fresh_pools_are_as_configured(
        upstreams.keys()[i],
        upstreams.values()[i],
        clock,
        j,
    );
}

/// Round robin moves its cursor by one place with every request, whoever gets it
/// and even if nobody does, and begins again at zero behind the largest number.
/// Where nobody is usable, nothing else is changed by any strategy.
pub proof fn every_request_moves_the_cursor(p: PoolView, now: int, seed: u64)
    requires
        is_sound(p),
    ensures
        p.strategy == LoadBalancerStrategy::RoundRobin && p.backends.len() > 0 ==> choose_backend(
            p,
            now,
            seed,
        ).1.cursor == if p.cursor == usize::MAX {
            0
        } else {
            p.cursor + 1
        },
        (forall|i: int| 0 <= i < p.backends.len() ==> !is_usable(#[trigger] p.backends[i], now))
            ==> ({
            let (choice, after) = choose_backend(p, now, seed);
            &&& choice is None
            &&& after == (PoolView { cursor: after.cursor, ..p })
        }),
{
    selection_means_a_usable_backend(p, now, seed);
    selected_backend_is_available(p, now, seed);
    if forall|i: int| 0 <= i < p.backends.len() ==> !is_usable(#[trigger] p.backends[i], now) {
        lemma_usable_places(p.backends, now, p.backends.len());
        let places = usable_places(p.backends, now, p.backends.len());
        if places.len() > 0 {
            assert(is_usable(p.backends[places[0]], now));
        }
        let mask = usable_mask(p.backends, now);
        let up = weighted::raised(p.weights, p.balances, mask);
        assert forall|j: int| !weighted::is_winner(up, mask, j) by {
            if 0 <= j < p.backends.len() {
                assert(mask[j] == is_usable(p.backends[j], now));
            }
        }
    }
}

/// An upstream is found by its name, and by no other.
pub proof fn upstreams_are_found_by_their_name(
    names: Seq<Seq<char>>,
    states: Seq<PoolView>,
    name: Seq<char>,
    i: int,
)
    requires
        sorted_map::ascending::<String>(names),
    ensures
        0 <= i < names.len() && names[i] == name ==> found_by_name(names, states, name) == Some(
            states[i],
        ),
        (forall|k: int| 0 <= k < names.len() ==> #[trigger] names[k] != name) ==> found_by_name(
            names,
            states,
            name,
        ) is None,
{
    if 0 <= i < names.len() && names[i] == name {
        assert(names.contains(name));
        sorted_map::ascending_keys_are_distinct::<String>(names, i, names.index_of(name));
    }
}

} // verus!
