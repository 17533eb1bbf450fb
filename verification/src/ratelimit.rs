//! Rate limits by token bucket.
//!
//! Every client has a bucket of tokens and spends one on each request. The
//! bucket fills up again as time goes by, by its whole content in one window.
//! Nothing runs in the background for that: what has flowed in since the last
//! request is worked out when the next one comes.
//!
//! Tokens are counted in whole parts, as many to a token as the window has
//! nanoseconds, so that one nanosecond brings a whole number of parts.

use crate::clock;
use crate::clock::Clock;
use crate::config::RateLimitConfig;
use crate::sorted_map::SortedMap;
use vstd::prelude::*;

verus! {

/// A token bucket as its contracts see it. Times are in nanoseconds.
pub struct BucketView {
    /// The tokens of a full bucket.
    pub capacity: int,
    /// The time in which an empty bucket fills up, which is also the number of
    /// parts to a token.
    pub window: int,
    /// The parts in the bucket.
    pub level: int,
    /// When the level was worked out last.
    pub refilled_at: int,
    /// The clock that times are read on.
    pub clock: Clock,
}

/// A full bucket.
pub open spec fn full_bucket(requests: u32, window_secs: u64, now: int, clock: Clock) -> BucketView {
    let window = window_nanos(window_secs);
    BucketView {
        capacity: requests as int,
        window,
        level: requests * window,
        refilled_at: now,
        clock,
    }
}

/// The length of a window, which is at least a second.
pub open spec fn window_nanos(window_secs: u64) -> int {
    if window_secs == 0 {
        clock::NANOS_PER_SEC as int
    } else {
        window_secs * clock::NANOS_PER_SEC
    }
}

/// What holds of every bucket.
pub open spec fn is_sound(b: BucketView) -> bool {
    &&& 0 < b.window
    &&& 0 <= b.capacity
    &&& 0 <= b.level <= b.capacity * b.window
}

/// The bucket with what has flowed in by the time `now`.
pub open spec fn refilled(b: BucketView, now: int) -> BucketView {
    let level = b.level + clock::elapsed(b.refilled_at, now) * b.capacity;
    BucketView {
        level: if level < b.capacity * b.window {
            level
        } else {
            b.capacity * b.window
        },
        refilled_at: now,
        ..b
    }
}

/// A request at the time `now`: whether it gets a token, and the bucket behind
/// it.
pub open spec fn consume(b: BucketView, now: int) -> (bool, BucketView) {
    let b = refilled(b, now);
    if b.level >= b.window {
        (true, BucketView { level: b.level - b.window, ..b })
    } else {
        (false, b)
    }
}

/// The tokens of one client.
#[derive(Debug)]
pub struct TokenBucket {
    capacity: u32,
    window: u128,
    level: u128,
    refilled_at: u128,
    clock: Clock,
}

impl View for TokenBucket {
    type V = BucketView;

    closed spec fn view(&self) -> BucketView {
        BucketView {
            capacity: self.capacity as int,
            window: self.window as int,
            level: self.level as int,
            refilled_at: self.refilled_at as int,
            clock: self.clock,
        }
    }
}

/// The longest window there is.
const LONGEST_WINDOW: u128 = 0xffff_ffff_ffff_ffff * 1_000_000_000;

impl TokenBucket {
    #[verifier::type_invariant]
    spec fn well_formed(self) -> bool {
        &&& is_sound(self@)
        &&& self.window <= LONGEST_WINDOW
    }

    /// A full bucket of `requests` tokens that an empty one takes
    /// `window_secs` seconds to become, with a clock of its own.
    pub fn new(requests: u32, window_secs: u64) -> (b: Self)
        ensures
            exists|now: int|
                clock::is_reading(b@.clock, now) && b@ == #[trigger] full_bucket(
                    requests,
                    window_secs,
                    now,
                    b@.clock,
                ),
    {
        let clock = Clock::start();
        let now: u128 = clock.now();
        let b = TokenBucket::full(requests, window_secs, now, clock);
        assert(b@ == full_bucket(requests, window_secs, now as int, b@.clock));
        b
    }

    /// A bucket that is full at the time `now` on `clock`.
    pub fn full(requests: u32, window_secs: u64, now: u128, clock: Clock) -> (b: Self)
        ensures
            b@ == full_bucket(requests, window_secs, now as int, clock),
    {
        let secs: u64 = if window_secs == 0 {
            1
        } else {
            window_secs
        };
        let window: u128 = secs as u128 * clock::NANOS_PER_SEC;
        proof {
            lemma_capacity_fits(requests, window);
        }
        TokenBucket {
            capacity: requests,
            window,
            level: requests as u128 * window,
            refilled_at: now,
            clock,
        }
    }

    /// Takes a token, if there is one.
    pub fn try_consume(&mut self) -> (r: bool)
        ensures
            exists|now: int|
                clock::is_reading(old(self)@.clock, now) && (r, final(self)@)
                    == #[trigger] consume(old(self)@, now),
    {
        let now: u128 = self.clock.now();
        let r = self.try_consume_at(now);
        assert((r, self@) == consume(old(self)@, now as int));
        r
    }

    /// `try_consume` at the time `now`.
    pub fn try_consume_at(&mut self, now: u128) -> (r: bool)
        ensures
            (r, final(self)@) == consume(old(self)@, now as int),
            is_sound(final(self)@),
    {
        proof {
            use_type_invariant(&*self);
            lemma_capacity_fits(self.capacity, self.window);
        }
        let ghost before = self@;
        let most: u128 = self.capacity as u128 * self.window;
        let gone: u128 = if now >= self.refilled_at {
            now - self.refilled_at
        } else {
            0
        };
        let refilled: u128 = if gone >= self.window {
            proof {
                assert(gone * before.capacity >= before.capacity * before.window) by (nonlinear_arith)
                    requires
                        gone >= before.window,
                        before.capacity >= 0,
                ;
            }
            most
        } else {
            proof {
                assert(gone * self.capacity <= self.capacity * self.window) by (nonlinear_arith)
                    requires
                        gone <= self.window,
                        self.capacity >= 0,
                ;
                assert(0 <= gone * self.capacity) by (nonlinear_arith);
            }
            let sum: u128 = self.level + gone * self.capacity as u128;
            if sum < most {
                sum
            } else {
                most
            }
        };
        let granted = refilled >= self.window;
        let level: u128 = if granted {
            refilled - self.window
        } else {
            refilled
        };
        let TokenBucket { capacity, window, level: _, refilled_at: _, clock } = *self;
        *self = TokenBucket { capacity, window, level, refilled_at: now, clock };
        granted
    }
}

/// The parts of a full bucket, twice over, are a number that `u128` holds.
proof fn lemma_capacity_fits(requests: u32, window: u128)
    requires
        0 < window <= LONGEST_WINDOW,
    ensures
        0 <= requests * window,
        2 * (requests * window) <= u128::MAX,
{
    assert(requests * window <= 0xffff_ffff * LONGEST_WINDOW) by (nonlinear_arith)
        requires
            requests <= 0xffff_ffff,
            0 < window <= LONGEST_WINDOW,
    ;
    assert(0 <= requests * window) by (nonlinear_arith);
}

/// The buckets of a limiter as its contracts see them.
pub open spec fn bucket_views(buckets: Map<Seq<char>, TokenBucket>) -> Map<Seq<char>, BucketView> {
    buckets.map_values(|b: TokenBucket| b@)
}

/// A limiter as its contracts see it.
#[verifier::ext_equal]
pub struct LimiterView {
    pub config: RateLimitConfig,
    /// The bucket of each client that has been seen.
    pub buckets: Map<Seq<char>, BucketView>,
    pub clock: Clock,
}

/// A limiter that has seen no client.
pub open spec fn fresh_limiter(config: RateLimitConfig, clock: Clock) -> LimiterView {
    LimiterView { config, buckets: Map::empty(), clock }
}

/// The bucket that a client has at the time `now`: a full one at first.
pub open spec fn bucket_of(l: LimiterView, client: Seq<char>, now: int) -> BucketView {
    if l.buckets.contains_key(client) {
        l.buckets[client]
    } else {
        full_bucket(l.config.requests, l.config.window_secs, now, l.clock)
    }
}

/// A request of `client` at the time `now`: whether it may pass, and the
/// limiter behind it.
pub open spec fn pass(l: LimiterView, client: Seq<char>, now: int) -> (bool, LimiterView) {
    let (granted, bucket) = consume(bucket_of(l, client, now), now);
    (granted, LimiterView { buckets: l.buckets.insert(client, bucket), ..l })
}

/// The rate limit of one route: a bucket for each client.
#[derive(Debug)]
pub struct RateLimiter {
    config: RateLimitConfig,
    buckets: SortedMap<String, TokenBucket>,
    clock: Clock,
}

impl View for RateLimiter {
    type V = LimiterView;

    closed spec fn view(&self) -> LimiterView {
        LimiterView {
            config: self.config,
            buckets: bucket_views(self.buckets@),
            clock: self.clock,
        }
    }
}

impl RateLimiter {
    /// A limiter that has seen no client, with a clock of its own.
    pub fn new(config: RateLimitConfig) -> (l: Self)
        ensures
            l@ == fresh_limiter(config, l@.clock),
    {
        RateLimiter::with_clock(config, Clock::start())
    }

    /// A limiter that has seen no client, which reads times on `clock`.
    pub fn with_clock(config: RateLimitConfig, clock: Clock) -> (l: Self)
        ensures
            l@ == fresh_limiter(config, clock),
    {
        let l = RateLimiter { config, buckets: SortedMap::new(), clock };
        assert(l@.buckets =~= Map::<Seq<char>, BucketView>::empty());
        l
    }

    /// Whether a request of the client may pass.
    pub fn check(&mut self, client_id: &str) -> (r: bool)
        ensures
            exists|now: int|
                clock::is_reading(old(self)@.clock, now) && (r, final(self)@) == #[trigger] pass(
                    old(self)@,
                    client_id@,
                    now,
                ),
    {
        let now: u128 = self.clock.now();
        let r = self.check_at(client_id, now);
        assert((r, self@) == pass(old(self)@, client_id@, now as int));
        r
    }

    /// `check` at the time `now`.
    pub fn check_at(&mut self, client_id: &str, now: u128) -> (r: bool)
        ensures
            (r, final(self)@) == pass(old(self)@, client_id@, now as int),
    {
        let client = client_id.to_string();
        let ghost before = self@;
        let r = match self.buckets.index_of(&client) {
            Some(i) => {
                let bucket = self.buckets.value_at_mut(i);
                bucket.try_consume_at(now)
            },
            None => {
                let mut bucket = TokenBucket::full(
                    self.config.requests,
                    self.config.window_secs,
                    now,
                    self.clock,
                );
                let r = bucket.try_consume_at(now);
                self.buckets.insert(client, bucket);
                r
            },
        };
        assert(self@ =~= pass(before, client_id@, now as int).1);
        r
    }
}

/// A request leaves a sound bucket sound, and keeps its size.
pub proof fn consume_keeps_bucket_sound(b: BucketView, now: int)
    requires
        is_sound(b),
    ensures
        is_sound(consume(b, now).1),
        consume(b, now).1.capacity == b.capacity,
        consume(b, now).1.window == b.window,
        consume(b, now).1.refilled_at == now,
{
    assert(0 <= clock::elapsed(b.refilled_at, now) * b.capacity) by (nonlinear_arith)
        requires
            0 <= clock::elapsed(b.refilled_at, now),
            0 <= b.capacity,
    ;
}

/// Requests at the given times, one after the other: how many get a token, and
/// the bucket behind them.
pub open spec fn consume_all(b: BucketView, times: Seq<int>) -> (nat, BucketView)
    decreases times.len(),
{
    if times.len() == 0 {
        (0, b)
    } else {
        let (granted, before) = consume_all(b, times.drop_last());
        let (more, after) = consume(before, times.last());
        (
            if more {
                granted + 1
            } else {
                granted
            },
            after,
        )
    }
}

/// Whether times never go back, from `start` on.
pub open spec fn in_order(start: int, times: Seq<int>) -> bool {
    &&& forall|i: int| 0 <= i < times.len() ==> start <= #[trigger] times[i]
    &&& forall|i: int, j: int|
        0 <= i <= j < times.len() ==> #[trigger] times[i] <= #[trigger] times[j]
}

/// The time of the last of the requests.
pub open spec fn last_time(start: int, times: Seq<int>) -> int {
    if times.len() == 0 {
        start
    } else {
        times.last()
    }
}

/// A bucket grants no more than what was in it and what has flowed in since:
/// as many tokens as fit the time that has gone by, and at most a full bucket
/// on top.
pub proof fn grants_are_bounded(b: BucketView, times: Seq<int>)
    requires
        is_sound(b),
        in_order(b.refilled_at, times),
    ensures
        ({
            let (granted, after) = consume_all(b, times);
            let gone = last_time(b.refilled_at, times) - b.refilled_at;
            &&& granted * b.window + after.level <= b.level + gone * b.capacity
            &&& granted * b.window <= b.capacity * (b.window + gone)
            &&& is_sound(after)
            &&& after.capacity == b.capacity
            &&& after.window == b.window
            &&& after.refilled_at == last_time(b.refilled_at, times)
        }),
    decreases times.len(),
{
    let gone = last_time(b.refilled_at, times) - b.refilled_at;
    let (granted, after) = consume_all(b, times);
    if times.len() > 0 {
        let rest = times.drop_last();
        assert(in_order(b.refilled_at, rest));
        grants_are_bounded(b, rest);
        let (granted_before, before) = consume_all(b, rest);
        let now = times.last();
        consume_keeps_bucket_sound(before, now);
        if rest.len() > 0 {
            assert(times[rest.len() - 1] <= times[times.len() - 1]);
        }
        let gone_before = before.refilled_at - b.refilled_at;
        let step = now - before.refilled_at;
        assert((gone_before + step) * b.capacity == gone_before * b.capacity + step * b.capacity)
            by (nonlinear_arith);
        assert((granted_before + 1) * b.window == granted_before * b.window + b.window)
            by (nonlinear_arith);
    } else {
        assert(0 * b.window == 0);
        assert(0 * b.capacity == 0);
    }
    assert(b.capacity * (b.window + gone) == b.capacity * b.window + gone * b.capacity)
        by (nonlinear_arith);
}

/// A bucket is the same to requests whether what has flowed in by the first of
/// them is worked out before or with it.
proof fn lemma_refilled_first(b: BucketView, times: Seq<int>)
    requires
        is_sound(b),
        times.len() > 0,
    ensures
        consume_all(refilled(b, times[0]), times) == consume_all(b, times),
    decreases times.len(),
{
    if times.len() == 1 {
        reveal_with_fuel(consume_all, 2);
        consume_keeps_bucket_sound(b, times[0]);
        assert(0 * b.capacity == 0);
    } else {
        lemma_refilled_first(b, times.drop_last());
    }
}

/// In any span of time a bucket grants no more than a full bucket and what flows
/// in during the span, whatever was asked for before.
pub proof fn grants_in_any_span_are_bounded(b: BucketView, times: Seq<int>)
    requires
        is_sound(b),
        times.len() > 0,
        in_order(times[0], times),
    ensures
        consume_all(b, times).0 * b.window <= b.capacity * (b.window + (times.last() - times[0])),
{
    consume_keeps_bucket_sound(b, times[0]);
    assert(0 <= clock::elapsed(b.refilled_at, times[0]) * b.capacity) by (nonlinear_arith)
        requires
            0 <= clock::elapsed(b.refilled_at, times[0]),
            0 <= b.capacity,
    ;
    lemma_refilled_first(b, times);
    grants_are_bounded(refilled(b, times[0]), times);
}

/// The first requests against a full bucket, as many as it has tokens, all get
/// one, whenever they come.
pub proof fn first_requests_are_granted(b: BucketView, times: Seq<int>)
    requires
        is_sound(b),
        b.level == b.capacity * b.window,
        times.len() <= b.capacity,
    ensures
        consume_all(b, times).0 == times.len(),
        consume_all(b, times).1.level >= (b.capacity - times.len()) * b.window,
        is_sound(consume_all(b, times).1),
        consume_all(b, times).1.capacity == b.capacity,
        consume_all(b, times).1.window == b.window,
    decreases times.len(),
{
    if times.len() > 0 {
        let rest = times.drop_last();
        first_requests_are_granted(b, rest);
        let before = consume_all(b, rest).1;
        let now = times.last();
        consume_keeps_bucket_sound(before, now);
        assert(0 <= clock::elapsed(before.refilled_at, now) * b.capacity) by (nonlinear_arith)
            requires
                0 <= clock::elapsed(before.refilled_at, now),
                0 <= b.capacity,
        ;
        let left = b.capacity - rest.len();
        assert(left * b.window >= b.window) by (nonlinear_arith)
            requires
                left >= 1,
                0 < b.window,
        ;
        assert(left * b.window <= b.capacity * b.window) by (nonlinear_arith)
            requires
                left <= b.capacity,
                0 < b.window,
        ;
        assert((left - 1) * b.window == left * b.window - b.window) by (nonlinear_arith);
    }
}

/// After a refusal a request is granted once the share of the window that
/// brings one token has gone by with nothing asked for in between.
pub proof fn a_refused_request_is_granted_later(b: BucketView, now: int, later: int)
    requires
        is_sound(b),
        b.capacity > 0,
        !consume(b, now).0,
        (later - now) * b.capacity >= b.window,
    ensures
        consume(consume(b, now).1, later).0,
{
    consume_keeps_bucket_sound(b, now);
    assert(later >= now) by (nonlinear_arith)
        requires
            (later - now) * b.capacity >= b.window,
            b.window > 0,
            b.capacity > 0,
    ;
    assert(b.capacity * b.window >= b.window) by (nonlinear_arith)
        requires
            b.capacity >= 1,
            b.window > 0,
    ;
}

/// A bucket without capacity grants nothing.
pub proof fn no_capacity_means_no_grants(b: BucketView, now: int)
    requires
        is_sound(b),
        b.capacity == 0,
    ensures
        !consume(b, now).0,
{
    assert(b.capacity * b.window == 0) by (nonlinear_arith)
        requires
            b.capacity == 0,
    ;
    assert(clock::elapsed(b.refilled_at, now) * b.capacity == 0) by (nonlinear_arith)
        requires
            b.capacity == 0,
    ;
}

/// A bucket that has not been asked for a whole window is full again.
pub proof fn a_window_fills_the_bucket(b: BucketView, now: int)
    requires
        is_sound(b),
        now >= b.refilled_at + b.window,
    ensures
        refilled(b, now).level == b.capacity * b.window,
{
    assert((now - b.refilled_at) * b.capacity >= b.capacity * b.window) by (nonlinear_arith)
        requires
            now - b.refilled_at >= b.window,
            0 <= b.capacity,
    ;
}

/// A full bucket grants as many requests at one moment as it has tokens, and
/// not one more.
pub proof fn full_bucket_grants_its_capacity(b: BucketView, now: int, n: nat)
    requires
        is_sound(b),
        b.level == b.capacity * b.window,
    ensures
        ({
            let (granted, after) = consume_all(b, Seq::new(n, |i: int| now));
            &&& granted == if n <= b.capacity {
                n as int
            } else {
                b.capacity
            }
            &&& after.level == (b.capacity - granted) * b.window
            &&& after.capacity == b.capacity
            &&& after.window == b.window
            &&& n > 0 ==> after.refilled_at == now
        }),
    decreases n,
{
    let times = Seq::new(n, |i: int| now);
    if n > 0 {
        let rest = Seq::new((n - 1) as nat, |i: int| now);
        assert(times.drop_last() =~= rest);
        full_bucket_grants_its_capacity(b, now, (n - 1) as nat);
        let (granted, before) = consume_all(b, rest);
        let left = b.capacity - granted;
        assert(0 * b.capacity == 0);
        if n == 1 {
            assert(0 <= clock::elapsed(b.refilled_at, now) * b.capacity) by (nonlinear_arith)
                requires
                    0 <= clock::elapsed(b.refilled_at, now),
                    0 <= b.capacity,
            ;
        }
        assert(left * b.window <= b.capacity * b.window) by (nonlinear_arith)
            requires
                left <= b.capacity,
                0 < b.window,
        ;
        assert((left - 1) * b.window == left * b.window - b.window) by (nonlinear_arith);
        if left >= 1 {
            assert(left * b.window >= b.window) by (nonlinear_arith)
                requires
                    left >= 1,
                    0 < b.window,
            ;
        } else {
            assert(left * b.window == 0) by (nonlinear_arith)
                requires
                    left == 0,
            ;
        }
    } else {
        assert(times =~= Seq::<int>::empty());
        assert((b.capacity - 0) * b.window == b.capacity * b.window);
    }
}

/// What one client asks for does not touch the bucket of another.
pub proof fn clients_are_independent(
    l: LimiterView,
    client: Seq<char>,
    other: Seq<char>,
    now: int,
    later: int,
)
    requires
        client != other,
    ensures
        bucket_of(pass(l, client, now).1, other, later) == bucket_of(l, other, later),
        pass(pass(l, client, now).1, other, later).0 == pass(l, other, later).0,
{
}

/// A bucket of a limit holds as many tokens as the limit has requests, and fills
/// up in the seconds of its window, in one second where it has none.
pub proof fn buckets_are_as_configured(requests: u32, window_secs: u64, now: int, clock: Clock)
    ensures
        ({
            let b = full_bucket(requests, window_secs, now, clock);
            &&& b.capacity == requests
            &&& b.window == if window_secs == 0 {
                1_000_000_000
            } else {
                window_secs * 1_000_000_000
            }
            &&& b.level == b.capacity * b.window
            &&& b.refilled_at == now
            &&& is_sound(b)
        }),
{
    let b = full_bucket(requests, window_secs, now, clock);
    assert(0 <= b.capacity * b.window) by (nonlinear_arith)
        requires
            0 <= b.capacity,
            0 < b.window,
    ;
}

/// Nothing is lost and nothing is made up: while the bucket does not overflow,
/// what has flowed in since the last request is in it, less one token where the
/// request got one. It gets one exactly when a whole one is there. Nothing flows
/// in where the clock seems to have gone back.
pub proof fn tokens_are_conserved(b: BucketView, now: int)
    requires
        is_sound(b),
    ensures
        ({
            let (granted, after) = consume(b, now);
            let full = b.capacity * b.window;
            let gone = if b.refilled_at <= now {
                now - b.refilled_at
            } else {
                0
            };
            let flowed = b.level + gone * b.capacity;
            let there = if flowed <= full {
                flowed
            } else {
                full
            };
            &&& granted <==> there >= b.window
            &&& after.level == there - if granted {
                b.window
            } else {
                0
            }
            &&& after.refilled_at == now
            &&& after.capacity == b.capacity
            &&& after.window == b.window
        }),
{
}

/// A request that is refused costs nothing: whatever comes later finds the bucket
/// as if it had not been asked.
pub proof fn a_refused_request_costs_nothing(b: BucketView, now: int, later: int)
    requires
        is_sound(b),
        b.refilled_at <= now <= later,
        !consume(b, now).0,
    ensures
        consume(consume(b, now).1, later) == consume(b, later),
{
    let gone = now - b.refilled_at;
    let more = later - now;
    assert((gone + more) * b.capacity == gone * b.capacity + more * b.capacity) by (nonlinear_arith);
    assert(0 <= gone * b.capacity && 0 <= more * b.capacity) by (nonlinear_arith)
        requires
            0 <= gone,
            0 <= more,
            0 <= b.capacity,
    ;
    if b.capacity >= 1 {
        assert(b.capacity * b.window >= b.window) by (nonlinear_arith)
            requires
                b.capacity >= 1,
                b.window > 0,
        ;
    } else {
        assert(gone * b.capacity == 0 && more * b.capacity == 0 && b.capacity * b.window == 0)
            by (nonlinear_arith)
            requires
                b.capacity == 0,
        ;
    }
}

/// Requests of a client at the given times, one after the other: how many pass,
/// and the limiter behind them.
pub open spec fn pass_all(l: LimiterView, client: Seq<char>, times: Seq<int>) -> (nat, LimiterView)
    decreases times.len(),
{
    if times.len() == 0 {
        (0, l)
    } else {
        let (granted, before) = pass_all(l, client, times.drop_last());
        let (more, after) = pass(before, client, times.last());
        (
            if more {
                granted + 1
            } else {
                granted
            },
            after,
        )
    }
}

proof fn lemma_pass_all(l: LimiterView, client: Seq<char>, times: Seq<int>)
    requires
        times.len() > 0,
    ensures
        ({
            let (granted, after) = pass_all(l, client, times);
            let (tokens, bucket) = consume_all(bucket_of(l, client, times[0]), times);
            &&& granted == tokens
            &&& after == (LimiterView { buckets: l.buckets.insert(client, bucket), ..l })
        }),
    decreases times.len(),
{
    let rest = times.drop_last();
    if rest.len() > 0 {
        lemma_pass_all(l, client, rest);
        let bucket = consume_all(bucket_of(l, client, times[0]), rest).1;
        let newer = consume_all(bucket_of(l, client, times[0]), times).1;
        assert(l.buckets.insert(client, bucket).insert(client, newer) =~= l.buckets.insert(
            client,
            newer,
        ));
    } else {
        reveal_with_fuel(pass_all, 2);
        reveal_with_fuel(consume_all, 2);
        assert(times.last() == times[0]);
    }
}

/// A client that has not been seen yet passes at one moment as often as the limit
/// says, and not once more.
pub proof fn a_new_client_passes_as_often_as_the_limit_says(
    l: LimiterView,
    client: Seq<char>,
    now: int,
    n: nat,
)
    requires
        !l.buckets.contains_key(client),
    ensures
        pass_all(l, client, Seq::new(n, |i: int| now)).0 == if n <= l.config.requests {
            n as int
        } else {
            l.config.requests as int
        },
{
    let times = Seq::new(n, |i: int| now);
    if n > 0 {
        let b = full_bucket(l.config.requests, l.config.window_secs, now, l.clock);
        buckets_are_as_configured(l.config.requests, l.config.window_secs, now, l.clock);
        lemma_pass_all(l, client, times);
        full_bucket_grants_its_capacity(b, now, n);
    }
}

/// In any span of time a new client passes no more often than the limit says and
/// once more for each share of the window that the span is long: with `requests`
/// in `window_secs` seconds, the passes times the window are at most the requests
/// times the window and the span together.
pub proof fn a_new_client_does_not_pass_more_often(
    l: LimiterView,
    client: Seq<char>,
    times: Seq<int>,
)
    requires
        !l.buckets.contains_key(client),
        l.config.window_secs > 0,
        times.len() > 0,
        in_order(times[0], times),
    ensures
        pass_all(l, client, times).0 * (l.config.window_secs * 1_000_000_000)
            <= l.config.requests * (l.config.window_secs * 1_000_000_000 + (times.last()
            - times[0])),
{
    let b = full_bucket(l.config.requests, l.config.window_secs, times[0], l.clock);
    buckets_are_as_configured(l.config.requests, l.config.window_secs, times[0], l.clock);
    lemma_pass_all(l, client, times);
    grants_in_any_span_are_bounded(b, times);
}

/// A request goes by the bucket of its client, a full one where it has none yet,
/// and changes that bucket and nothing else of a limiter.
pub proof fn a_request_changes_the_bucket_of_its_client(
    l: LimiterView,
    client: Seq<char>,
    other: Seq<char>,
    now: int,
)
    requires
        other != client,
    ensures
        ({
            let (passed, after) = pass(l, client, now);
            let bucket = if l.buckets.contains_key(client) {
                l.buckets[client]
            } else {
                full_bucket(l.config.requests, l.config.window_secs, now, l.clock)
            };
            &&& passed == consume(bucket, now).0
            &&& after.config == l.config
            &&& after.clock == l.clock
            &&& after.buckets.contains_key(client)
            &&& after.buckets[client] == consume(bucket, now).1
            &&& after.buckets.contains_key(other) <==> l.buckets.contains_key(other)
            &&& l.buckets.contains_key(other) ==> after.buckets[other] == l.buckets[other]
        }),
{
}

/// A limiter starts with the limit that it is made with, and without buckets.
pub proof fn fresh_limiters_have_seen_nobody(config: RateLimitConfig, clock: Clock, client: Seq<char>)
    ensures
        fresh_limiter(config, clock).config.requests == config.requests,
        fresh_limiter(config, clock).config.window_secs == config.window_secs,
        !fresh_limiter(config, clock).buckets.contains_key(client),
{
}

} // verus!
