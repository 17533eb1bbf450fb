//! Circuit breakers, one for each backend.
//!
//! A health check asks a backend from time to time how it is; a circuit
//! breaker looks at what becomes of the real requests. After a number of
//! failures in a row the circuit opens and the backend gets no requests for a
//! while. Then one trial request is let through, and its outcome closes the
//! circuit or opens it again.
//!
//! ```text
//! CLOSED --(failures in a row)--> OPEN --(cooldown over)--> HALF-OPEN
//!   ^                              ^                            |
//!   |                              +-------(trial failed)-------+
//!   +----------------------(trial succeeded)--------------------+
//! ```

use crate::clock;
use crate::clock::Clock;
use crate::config::CircuitBreakerConfig;
use vstd::prelude::*;

verus! {

/// Where a circuit stands.
#[derive(Debug, Clone, Copy, PartialEq, Eq, Structural)]
pub enum CircuitState {
    Closed,
    Open,
    HalfOpen,
}

/// A circuit breaker as its contracts see it. Times are in nanoseconds.
pub struct CircuitView {
    pub state: CircuitState,
    /// Failures since the last success.
    pub failures: u32,
    /// When the circuit was opened last.
    pub opened_at: Option<int>,
    /// Whether the trial request of the half-open circuit is under way.
    pub probe_taken: bool,
    /// Failures that open the circuit.
    pub threshold: u32,
    /// How long the circuit stays open.
    pub cooldown: int,
    /// The clock that times are read on.
    pub clock: Clock,
}

/// Whether the time for which the circuit stays open is over.
pub open spec fn cooled_down(c: CircuitView, now: int) -> bool {
    match c.opened_at {
        Some(t) => clock::elapsed(t, now) >= c.cooldown,
        None => true,
    }
}

/// Whether the circuit is open with its cooldown still running.
pub open spec fn in_cooldown(c: CircuitView, now: int) -> bool {
    c.state == CircuitState::Open && !cooled_down(c, now)
}

/// Asking whether a request may be sent, and what the asking does: the first
/// to ask after the cooldown gets the trial request.
pub open spec fn ask(c: CircuitView, now: int) -> (bool, CircuitView) {
    match c.state {
        CircuitState::Closed => (true, c),
        CircuitState::HalfOpen => (!c.probe_taken, CircuitView { probe_taken: true, ..c }),
        CircuitState::Open => if cooled_down(c, now) {
            (true, CircuitView { state: CircuitState::HalfOpen, probe_taken: true, ..c })
        } else {
            (false, c)
        },
    }
}

/// What a successful request does.
pub open spec fn succeed(c: CircuitView) -> CircuitView {
    CircuitView { state: CircuitState::Closed, failures: 0, probe_taken: false, ..c }
}

/// What opening the circuit does.
pub open spec fn trip(c: CircuitView, now: int) -> CircuitView {
    CircuitView { state: CircuitState::Open, probe_taken: false, opened_at: Some(now), ..c }
}

/// One failure more. The count starts again at zero behind the largest `u32`.
pub open spec fn one_more(failures: u32) -> u32 {
    if failures == u32::MAX {
        0
    } else {
        (failures + 1) as u32
    }
}

/// What a failed request does: in a half-open circuit it was the trial, which
/// opens the circuit again; in a closed one it counts towards the threshold.
pub open spec fn fail(c: CircuitView, now: int) -> CircuitView {
    if c.state == CircuitState::HalfOpen {
        trip(c, now)
    } else {
        let counted = CircuitView { failures: one_more(c.failures), ..c };
        if c.state == CircuitState::Closed && counted.failures >= c.threshold {
            trip(counted, now)
        } else {
            counted
        }
    }
}

#[derive(Debug)]
pub struct CircuitBreaker {
    state: CircuitState,
    failure_count: u32,
    opened_at: Option<u128>,
    half_open_probe_taken: bool,
    failure_threshold: u32,
    open_nanos: u128,
    clock: Clock,
}

impl View for CircuitBreaker {
    type V = CircuitView;

    closed spec fn view(&self) -> CircuitView {
        CircuitView {
            state: self.state,
            failures: self.failure_count,
            opened_at: match self.opened_at {
                Some(t) => Some(t as int),
                None => None,
            },
            probe_taken: self.half_open_probe_taken,
            threshold: self.failure_threshold,
            cooldown: self.open_nanos as int,
            clock: self.clock,
        }
    }
}

impl CircuitBreaker {
    /// A closed circuit with a clock of its own.
    pub fn new(config: &CircuitBreakerConfig) -> (c: Self)
        ensures
            c@ == closed_circuit(*config, c@.clock),
    {
        CircuitBreaker::with_clock(config, Clock::start())
    }

    /// A closed circuit that reads its times on `clock`.
    pub fn with_clock(config: &CircuitBreakerConfig, clock: Clock) -> (c: Self)
        ensures
            c@ == closed_circuit(*config, clock),
    {
        CircuitBreaker {
            state: CircuitState::Closed,
            failure_count: 0,
            opened_at: None,
            half_open_probe_taken: false,
            failure_threshold: config.failure_threshold,
            open_nanos: config.open_duration_secs as u128 * clock::NANOS_PER_SEC,
            clock,
        }
    }

    /// Whether the backend may get the next request. This is more than a
    /// question: when the cooldown of an open circuit is over, the circuit
    /// becomes half-open and the caller holds its trial request.
    pub fn is_available(&mut self) -> (r: bool)
        ensures
            exists|now: int|
                clock::is_reading(old(self)@.clock, now) && (r, final(self)@) == #[trigger] ask(
                    old(self)@,
                    now,
                ),
    {
        let now: u128 = self.clock.now();
        let r = self.is_available_at(now);
        assert((r, self@) == ask(old(self)@, now as int));
        r
    }

    /// `is_available` at the time `now`.
    pub fn is_available_at(&mut self, now: u128) -> (r: bool)
        ensures
            (r, final(self)@) == ask(old(self)@, now as int),
    {
        match self.state {
            CircuitState::Closed => true,
            CircuitState::HalfOpen => {
                let free = !self.half_open_probe_taken;
                self.half_open_probe_taken = true;
                free
            },
            CircuitState::Open => {
                if !self.cooldown_over(now) {
                    return false;
                }
                self.state = CircuitState::HalfOpen;
                self.half_open_probe_taken = true;
                true
            },
        }
    }

    fn cooldown_over(&self, now: u128) -> (r: bool)
        ensures
            r == cooled_down(self@, now as int),
    {
        match self.opened_at {
            Some(t) => {
                let passed: u128 = if now >= t {
                    now - t
                } else {
                    0
                };
                passed >= self.open_nanos
            },
            None => true,
        }
    }

    /// Notes that a request has succeeded.
    pub fn record_success(&mut self)
        ensures
            final(self)@ == succeed(old(self)@),
    {
        self.state = CircuitState::Closed;
        self.failure_count = 0;
        self.half_open_probe_taken = false;
    }

    /// Notes that a request has failed.
    pub fn record_failure(&mut self)
        ensures
            exists|now: int|
                clock::is_reading(old(self)@.clock, now) && final(self)@ == #[trigger] fail(
                    old(self)@,
                    now,
                ),
    {
        let now: u128 = self.clock.now();
        self.record_failure_at(now);
        assert(self@ == fail(old(self)@, now as int));
    }

    /// `record_failure` at the time `now`.
    pub fn record_failure_at(&mut self, now: u128)
        ensures
            final(self)@ == fail(old(self)@, now as int),
    {
        let current = self.state;
        if current == CircuitState::HalfOpen {
            self.trip_open(now);
            return ;
        }
        let failures: u32 = self.failure_count.wrapping_add(1);
        self.failure_count = failures;
        if current == CircuitState::Closed && failures >= self.failure_threshold {
            self.trip_open(now);
        }
    }

    fn trip_open(&mut self, now: u128)
        ensures
            final(self)@ == trip(old(self)@, now as int),
    {
        self.state = CircuitState::Open;
        self.half_open_probe_taken = false;
        self.opened_at = Some(now);
    }

    /// Whether the circuit is open, cooldown over or not.
    pub fn is_open(&self) -> (r: bool)
        ensures
            r == (self@.state == CircuitState::Open),
    {
        self.state == CircuitState::Open
    }

    /// Whether the circuit is open with its cooldown still running. Unlike
    /// `is_available` this changes nothing, so that backends can be looked at
    /// that are not picked in the end.
    pub fn snapshot_open(&self) -> (r: bool)
        ensures
            exists|now: int|
                clock::is_reading(self@.clock, now) && r == #[trigger] in_cooldown(self@, now),
    {
        let now: u128 = self.clock.now();
        let r = self.snapshot_open_at(now);
        assert(r == in_cooldown(self@, now as int));
        r
    }

    /// `snapshot_open` at the time `now`.
    pub fn snapshot_open_at(&self, now: u128) -> (r: bool)
        ensures
            r == in_cooldown(self@, now as int),
    {
        self.state == CircuitState::Open && !self.cooldown_over(now)
    }

    /// Whether the circuit would let a request through at the time `now`.
    /// Unlike `is_available` this changes nothing.
    pub fn allows_at(&self, now: u128) -> (r: bool)
        ensures
            r == ask(self@, now as int).0,
    {
        match self.state {
            CircuitState::Closed => true,
            CircuitState::HalfOpen => !self.half_open_probe_taken,
            CircuitState::Open => self.cooldown_over(now),
        }
    }

    /// The state as a word, for the admin API.
    pub fn state_label(&self) -> (s: &'static str)
        ensures
            s@ == state_name(self@.state),
            self@.state == CircuitState::Closed ==> s@ == "closed"@,
            self@.state == CircuitState::Open ==> s@ == "open"@,
            self@.state == CircuitState::HalfOpen ==> s@ == "half_open"@,
    {
        match self.state {
            CircuitState::Closed => "closed",
            CircuitState::Open => "open",
            CircuitState::HalfOpen => "half_open",
        }
    }
}

/// The state as a word.
pub open spec fn state_name(state: CircuitState) -> Seq<char> {
    match state {
        CircuitState::Closed => "closed"@,
        CircuitState::Open => "open"@,
        CircuitState::HalfOpen => "half_open"@,
    }
}

/// A closed circuit that has seen no request.
pub open spec fn closed_circuit(config: CircuitBreakerConfig, clock: Clock) -> CircuitView {
    CircuitView {
        state: CircuitState::Closed,
        failures: 0,
        opened_at: None,
        probe_taken: false,
        threshold: config.failure_threshold,
        cooldown: config.open_duration_secs * clock::NANOS_PER_SEC as int,
        clock,
    }
}

/// The circuit after failures at the given times, one after the other.
pub open spec fn fail_at_times(c: CircuitView, times: Seq<int>) -> CircuitView
    decreases times.len(),
{
    if times.len() == 0 {
        c
    } else {
        fail(fail_at_times(c, times.drop_last()), times.last())
    }
}

/// As many failures in a row as the threshold says open a closed circuit, at
/// the time of the last one; with fewer it stays closed.
pub proof fn threshold_failures_open_the_circuit(c: CircuitView, times: Seq<int>)
    requires
        c.state == CircuitState::Closed,
        c.failures == 0,
        c.threshold > 0,
        times.len() <= c.threshold,
    ensures
        times.len() < c.threshold ==> fail_at_times(c, times) == (CircuitView {
            failures: times.len() as u32,
            ..c
        }),
        times.len() == c.threshold ==> fail_at_times(c, times) == trip(
            CircuitView { failures: c.threshold, ..c },
            times.last(),
        ),
    decreases times.len(),
{
    if times.len() > 0 {
        threshold_failures_open_the_circuit(c, times.drop_last());
    }
}

/// A success forgets the failures before it: the circuit then needs a whole
/// threshold of failures again.
pub proof fn success_resets_the_failures(c: CircuitView, times: Seq<int>)
    requires
        0 < times.len() < c.threshold,
    ensures
        succeed(c).state == CircuitState::Closed,
        succeed(c).failures == 0,
        fail_at_times(succeed(c), times).state == CircuitState::Closed,
{
    threshold_failures_open_the_circuit(succeed(c), times);
}

/// Until its cooldown is over, an open circuit lets nothing through, and
/// asking changes nothing.
pub proof fn open_circuit_refuses_until_cooled_down(c: CircuitView, opened: int, now: int)
    requires
        opened <= now < opened + c.cooldown,
    ensures
        ask(trip(c, opened), now) == (false, trip(c, opened)),
        in_cooldown(trip(c, opened), now),
{
}

/// After the cooldown one request is let through, and no other until its
/// outcome is known, whenever that is asked.
pub proof fn half_open_circuit_allows_a_single_probe(
    c: CircuitView,
    opened: int,
    first: int,
    later: int,
)
    requires
        c.cooldown >= 0,
        first >= opened + c.cooldown,
    ensures
        ask(trip(c, opened), first).0,
        ask(trip(c, opened), first).1.state == CircuitState::HalfOpen,
        !ask(ask(trip(c, opened), first).1, later).0,
        ask(ask(trip(c, opened), first).1, later).1 == ask(trip(c, opened), first).1,
{
}

/// A trial request that fails opens the circuit again, with a new cooldown;
/// one that succeeds closes it.
pub proof fn probe_outcome_decides(c: CircuitView, now: int)
    requires
        c.state == CircuitState::HalfOpen,
    ensures
        fail(c, now) == trip(c, now),
        succeed(c).state == CircuitState::Closed,
        forall|later: int| #[trigger] ask(succeed(c), later) == (true, succeed(c)),
{
}

/// A failure counts: in a closed circuit it is one more, and opens the circuit
/// at its time where it reaches the threshold; in a half-open one it opens the
/// circuit again at its time; in an open one it does not put the cooldown off.
pub proof fn failures_count(c: CircuitView, now: int)
    requires
        c.failures < u32::MAX,
    ensures
        ({
            let after = fail(c, now);
            &&& after.threshold == c.threshold
            &&& after.cooldown == c.cooldown
            &&& after.clock == c.clock
            &&& match c.state {
                CircuitState::Closed => {
                    &&& after.failures == c.failures + 1
                    &&& after.state == if c.failures + 1 >= c.threshold {
                        CircuitState::Open
                    } else {
                        CircuitState::Closed
                    }
                    &&& after.opened_at == if c.failures + 1 >= c.threshold {
                        Some(now)
                    } else {
                        c.opened_at
                    }
                },
                CircuitState::HalfOpen => {
                    &&& after.state == CircuitState::Open
                    &&& after.opened_at == Some(now)
                    &&& !after.probe_taken
                },
                CircuitState::Open => {
                    &&& after.state == CircuitState::Open
                    &&& after.opened_at == c.opened_at
                },
            }
        }),
{
}

/// A success closes the circuit, whatever its state, and forgets the failures.
/// It then lets every request through, whenever it is asked.
pub proof fn success_closes_the_circuit(c: CircuitView, now: int)
    ensures
        succeed(c) == (CircuitView {
            state: CircuitState::Closed,
            failures: 0,
            probe_taken: false,
            ..c
        }),
        ask(succeed(c), now) == (true, succeed(c)),
{
}

/// A circuit of a configuration lets everything through until as many requests
/// in a row have failed as its `failure_threshold` says. From the last of them
/// on it lets nothing through for `open_duration_secs` seconds, and then a single
/// request until its outcome is known: a failure shuts it for as long again, a
/// success opens the way for all.
pub proof fn a_circuit_runs_its_course(
    config: CircuitBreakerConfig,
    clock: Clock,
    times: Seq<int>,
    early: int,
    first: int,
    second: int,
    end: int,
    late: int,
)
    requires
        0 < times.len() <= config.failure_threshold,
        times.last() <= early < times.last() + config.open_duration_secs * 1_000_000_000,
        times.last() + config.open_duration_secs * 1_000_000_000 <= first,
        end <= late < end + config.open_duration_secs * 1_000_000_000,
    ensures
        ({
            let c = fail_at_times(closed_circuit(config, clock), times);
            if times.len() < config.failure_threshold {
                ask(c, first) == (true, c)
            } else {
                let (granted, trial) = ask(c, first);
                &&& !ask(c, early).0
                &&& ask(c, early).1 == c
                &&& granted
                &&& !ask(trial, second).0
                &&& !ask(fail(trial, end), late).0
                &&& ask(succeed(trial), late) == (true, succeed(trial))
            }
        }),
{
    let c = closed_circuit(config, clock);
    threshold_failures_open_the_circuit(c, times);
}

/// A closed circuit lets every request through; an open one none before its
/// cooldown is over, and then one, which makes it half-open; a half-open one the
/// trial request, if nobody has it yet. Asking changes nothing otherwise.
pub proof fn what_asking_does(c: CircuitView, now: int)
    ensures
        ({
            let cooled = match c.opened_at {
                Some(t) => c.cooldown <= 0 || now - t >= c.cooldown,
                None => true,
            };
            let trial = CircuitView { state: CircuitState::HalfOpen, probe_taken: true, ..c };
            ask(c, now) == match c.state {
                CircuitState::Closed => (true, c),
                CircuitState::Open => if cooled {
                    (true, trial)
                } else {
                    (false, c)
                },
                CircuitState::HalfOpen => if c.probe_taken {
                    (false, c)
                } else {
                    (true, trial)
                },
            }
        }),
{
}

/// A circuit is in its cooldown exactly when it is open and less time than its
/// cooldown has gone by since it was opened, which is none where the clock seems
/// to have gone back.
pub proof fn cooldowns_end(c: CircuitView, now: int)
    ensures
        in_cooldown(c, now) <==> c.state == CircuitState::Open && match c.opened_at {
            Some(t) => c.cooldown > 0 && now < t + c.cooldown,
            None => false,
        },
        c.state == CircuitState::Open ==> (ask(c, now).0 <==> !in_cooldown(c, now)),
{
}

} // verus!
