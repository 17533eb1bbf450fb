//! Counters and latencies, and their exposition as Prometheus text.

use crate::balancer;
use crate::balancer::{Backend, BackendView, PoolView, UpstreamManager, UpstreamPool};
use crate::circuit::CircuitState;
use crate::clock;
use crate::clock::Clock;
use crate::counts;
use crate::sorted_map;
use crate::sorted_map::{OrderedKey, SortedMap};
use crate::text;
use crate::text::Order;
use vstd::prelude::*;

verus! {

/// What requests are counted by: method, route and status.
#[derive(Debug)]
pub struct RequestKey {
    pub method: String,
    pub route: String,
    pub status: u16,
}

/// A method, a route and a status.
pub type KeyView = (Seq<char>, Seq<char>, u16);

impl View for RequestKey {
    type V = KeyView;

    open spec fn view(&self) -> KeyView {
        (self.method@, self.route@, self.status)
    }
}

impl OrderedKey for RequestKey {
    open spec fn before(a: KeyView, b: KeyView) -> bool {
        ||| text::text_before(a.0, b.0)
        ||| a.0 == b.0 && text::text_before(a.1, b.1)
        ||| a.0 == b.0 && a.1 == b.1 && a.2 < b.2
    }

    proof fn before_irreflexive(a: KeyView) {
        text::text_before_irreflexive(a.0);
        text::text_before_irreflexive(a.1);
    }

    proof fn before_transitive(a: KeyView, b: KeyView, c: KeyView) {
        if text::text_before(a.0, b.0) && text::text_before(b.0, c.0) {
            text::text_before_transitive(a.0, b.0, c.0);
        }
        if text::text_before(a.1, b.1) && text::text_before(b.1, c.1) {
            text::text_before_transitive(a.1, b.1, c.1);
        }
    }

    proof fn before_total(a: KeyView, b: KeyView) {
        text::text_before_total(a.0, b.0);
        text::text_before_total(a.1, b.1);
    }

    fn order(&self, other: &RequestKey) -> (o: Order) {
        match text::text_order(self.method.as_str(), other.method.as_str()) {
            Order::Less => Order::Less,
            Order::Greater => Order::Greater,
            Order::Equal => match text::text_order(self.route.as_str(), other.route.as_str()) {
                Order::Less => Order::Less,
                Order::Greater => Order::Greater,
                Order::Equal => {
                    if self.status < other.status {
                        Order::Less
                    } else if self.status == other.status {
                        Order::Equal
                    } else {
                        Order::Greater
                    }
                },
            },
        }
    }
}

/// The upper bounds of the latency buckets, in milliseconds.
pub open spec fn bucket_bounds() -> Seq<int> {
    seq![5, 10, 25, 50, 100, 250, 500, 1000, 2500, 5000]
}

/// The upper bound of latency bucket `i`, in milliseconds.
fn bucket_bound(i: usize) -> (ms: u64)
    requires
        i < 10,
    ensures
        ms == bucket_bounds()[i as int],
{
    if i == 0 {
        5
    } else if i == 1 {
        10
    } else if i == 2 {
        25
    } else if i == 3 {
        50
    } else if i == 4 {
        100
    } else if i == 5 {
        250
    } else if i == 6 {
        500
    } else if i == 7 {
        1000
    } else if i == 8 {
        2500
    } else {
        5000
    }
}

/// The latencies of a route as the contracts see them.
#[verifier::ext_equal]
pub struct StatsView {
    pub count: int,
    pub sum_ms: int,
    /// For each bound, how many took no longer.
    pub buckets: Seq<int>,
}

/// No latencies.
pub open spec fn no_latencies() -> StatsView {
    StatsView { count: 0, sum_ms: 0, buckets: Seq::new(10, |i: int| 0int) }
}

/// The latencies with one more.
pub open spec fn with_latency(s: StatsView, ms: int) -> StatsView {
    StatsView {
        count: s.count + 1,
        sum_ms: s.sum_ms + ms,
        buckets: Seq::new(
            10,
            |i: int|
                s.buckets[i] + if ms <= bucket_bounds()[i] {
                    1int
                } else {
                    0
                },
        ),
    }
}

/// Whether the buckets are those of a histogram: each holds what the ones
/// before it hold, and none more than all.
pub open spec fn is_histogram(s: StatsView) -> bool {
    &&& s.buckets.len() == 10
    &&& 0 <= s.sum_ms
    &&& forall|i: int| 0 <= i < 10 ==> 0 <= #[trigger] s.buckets[i] <= s.count
    &&& forall|i: int, j: int|
        0 <= i <= j < 10 ==> #[trigger] s.buckets[i] <= #[trigger] s.buckets[j]
}

/// A histogram stays one, whatever is recorded.
pub proof fn latencies_are_a_histogram(s: StatsView, ms: int)
    ensures
        is_histogram(no_latencies()),
        is_histogram(s) && 0 <= ms ==> is_histogram(with_latency(s, ms)),
{
    if is_histogram(s) && 0 <= ms {
        let t = with_latency(s, ms);
        assert forall|i: int, j: int| 0 <= i <= j < 10 implies #[trigger] t.buckets[i]
            <= #[trigger] t.buckets[j] by {
            assert(s.buckets[i] <= s.buckets[j]);
            assert(bucket_bounds()[i] <= bucket_bounds()[j]);
        }
        assert forall|i: int| 0 <= i < 10 implies 0 <= #[trigger] t.buckets[i] <= t.count by {
            assert(0 <= s.buckets[i] <= s.count);
        }
    }
}

/// The latencies that have been recorded, one after the other.
pub open spec fn recorded(values: Seq<int>) -> StatsView
    decreases values.len(),
{
    if values.len() == 0 {
        no_latencies()
    } else {
        with_latency(recorded(values.drop_last()), values.last())
    }
}

/// How many of these values are no larger than a bound.
pub open spec fn at_most(values: Seq<int>, bound: int) -> int
    decreases values.len(),
{
    if values.len() == 0 {
        0
    } else {
        at_most(values.drop_last(), bound) + if values.last() <= bound {
            1int
        } else {
            0
        }
    }
}

/// The sum of these values.
pub open spec fn sum_of(values: Seq<int>) -> int
    decreases values.len(),
{
    if values.len() == 0 {
        0
    } else {
        sum_of(values.drop_last()) + values.last()
    }
}

/// Each bucket holds the number of the recorded values up to its bound, next to
/// their number and their sum.
pub proof fn buckets_count_the_recorded_values(values: Seq<int>)
    ensures
        recorded(values).count == values.len(),
        recorded(values).sum_ms == sum_of(values),
        recorded(values).buckets.len() == 10,
        forall|i: int|
            0 <= i < 10 ==> #[trigger] recorded(values).buckets[i] == at_most(
                values,
                bucket_bounds()[i],
            ),
        (forall|k: int| 0 <= k < values.len() ==> 0 <= #[trigger] values[k]) ==> is_histogram(
            recorded(values),
        ),
    decreases values.len(),
{
    if values.len() > 0 {
        let rest = values.drop_last();
        buckets_count_the_recorded_values(rest);
        assert forall|i: int| 0 <= i < 10 implies #[trigger] recorded(values).buckets[i] == at_most(
            values,
            bucket_bounds()[i],
        ) by {
            assert(recorded(rest).buckets[i] == at_most(rest, bucket_bounds()[i]));
        }
        if forall|k: int| 0 <= k < values.len() ==> 0 <= #[trigger] values[k] {
            assert(forall|k: int| 0 <= k < rest.len() ==> #[trigger] rest[k] == values[k]);
            assert(values[values.len() - 1] >= 0);
            latencies_are_a_histogram(recorded(rest), values.last());
        }
    } else {
        latencies_are_a_histogram(no_latencies(), 0);
    }
}

/// The latencies of a route.
#[derive(Debug)]
pub struct LatencyStats {
    count: u64,
    sum_ms: u64,
    bucket_counts: Vec<u64>,
}

impl View for LatencyStats {
    type V = StatsView;

    closed spec fn view(&self) -> StatsView {
        StatsView {
            count: self.count as int,
            sum_ms: self.sum_ms as int,
            buckets: self.bucket_counts@.map_values(|c: u64| c as int),
        }
    }
}

impl LatencyStats {
    /// No latencies.
    fn new() -> (s: Self)
        ensures
            s@ == no_latencies(),
    {
        let s = LatencyStats {
            count: 0,
            sum_ms: 0,
            bucket_counts: vec![0, 0, 0, 0, 0, 0, 0, 0, 0, 0],
        };
        assert(s@ =~= no_latencies());
        s
    }

    /// Records a latency.
    fn record(&mut self, duration_ms: u64)
        requires
            is_histogram(old(self)@),
            old(self)@.count < u64::MAX,
            old(self)@.sum_ms + duration_ms <= u64::MAX,
        ensures
            final(self)@ == with_latency(old(self)@, duration_ms as int),
    {
        let ghost before = self@;
        self.count = self.count + 1;
        self.sum_ms = self.sum_ms + duration_ms;
        let mut i: usize = 0;
        while i < 10
            invariant
                i <= 10,
                is_histogram(before),
                before.count < u64::MAX,
                self.bucket_counts@.len() == 10,
                self.count == before.count + 1,
                self.sum_ms == before.sum_ms + duration_ms,
                forall|k: int|
                    0 <= k < i ==> #[trigger] self.bucket_counts@[k] == with_latency(
                        before,
                        duration_ms as int,
                    ).buckets[k],
                forall|k: int|
                    i <= k < 10 ==> #[trigger] self.bucket_counts@[k] == before.buckets[k],
            decreases 10 - i,
        {
            assert(self.bucket_counts@[i as int] == before.buckets[i as int]);
            if duration_ms <= bucket_bound(i) {
                let more: u64 = self.bucket_counts[i] + 1;
                self.bucket_counts.set(i, more);
            }
            i = i + 1;
        }
        assert(self@ =~= with_latency(before, duration_ms as int));
    }
}

/// Whether a status says that no backend could answer a request.
pub open spec fn is_gateway_failure(status: u16) -> bool {
    status == 502 || status == 503 || status == 504
}

/// Holds of the keys with such a status.
pub open spec fn failing() -> spec_fn(KeyView) -> bool {
    |k: KeyView| is_gateway_failure(k.2)
}

/// Holds of the keys of one route with such a status.
pub open spec fn failing_on(route: Seq<char>) -> spec_fn(KeyView) -> bool {
    |k: KeyView| k.1 == route && is_gateway_failure(k.2)
}

/// Holds of the keys of one route.
pub open spec fn of_route(route: Seq<char>) -> spec_fn(KeyView) -> bool {
    |k: KeyView| k.1 == route
}

/// The metrics as their contracts see them.
#[verifier::ext_equal]
pub struct MetricsView {
    /// All requests.
    pub total: int,
    /// Requests by method, route and status.
    pub requests: Map<KeyView, int>,
    /// Requests that the gateway has answered itself because no backend could,
    /// by route.
    pub failures: Map<Seq<char>, int>,
    /// Requests that a rate limit has turned away, by route.
    pub rejections: Map<Seq<char>, int>,
    /// Latencies by route.
    pub latencies: Map<Seq<char>, StatsView>,
    /// The clock that was started with the metrics.
    pub clock: Clock,
}

/// The latencies of a route, none where it has not been seen.
pub open spec fn latencies_of(m: MetricsView, route: Seq<char>) -> StatsView {
    if m.latencies.contains_key(route) {
        m.latencies[route]
    } else {
        no_latencies()
    }
}

/// The metrics with one request more that a backend has answered.
pub open spec fn with_relayed(
    m: MetricsView,
    method: Seq<char>,
    route: Seq<char>,
    status: u16,
    ms: int,
) -> MetricsView {
    MetricsView {
        total: m.total + 1,
        requests: counts::one_more(m.requests, (method, route, status)),
        latencies: m.latencies.insert(route, with_latency(latencies_of(m, route), ms)),
        ..m
    }
}

/// The metrics with one request more that the gateway has answered itself.
pub open spec fn with_request(
    m: MetricsView,
    method: Seq<char>,
    route: Seq<char>,
    status: u16,
    ms: int,
) -> MetricsView {
    let more = with_relayed(m, method, route, status, ms);
    if is_gateway_failure(status) {
        MetricsView { failures: counts::one_more(m.failures, route), ..more }
    } else {
        more
    }
}

/// Whether one request more, of so many milliseconds, can be counted.
pub open spec fn has_room(m: MetricsView, route: Seq<char>, ms: int) -> bool {
    m.total < u64::MAX && latencies_of(m, route).sum_ms + ms <= u64::MAX
}

/// What holds of the metrics at any time: all requests are counted under some
/// key, nothing stands under a key that has not been counted, the failures of
/// the gateway are among the requests of their route that have a status to go
/// with it, and the latencies of a route are a histogram of all its requests.
pub open spec fn is_consistent(m: MetricsView) -> bool {
    &&& m.total == counts::counted::<RequestKey>(m.requests, counts::every_key::<RequestKey>())
    &&& counts::counts_are_sound(m.requests)
    &&& counts::counts_are_sound(m.failures)
    &&& counts::counts_are_sound(m.rejections)
    &&& m.latencies.dom().finite()
    &&& counts::counted::<String>(m.failures, counts::every_key::<String>()) <= counts::counted::<
        RequestKey,
    >(m.requests, failing())
    &&& forall|route: Seq<char>| #[trigger]
        counts::count_of(m.failures, route) <= counts::counted::<RequestKey>(
            m.requests,
            failing_on(route),
        )
    &&& forall|route: Seq<char>|
        is_histogram(#[trigger] latencies_of(m, route)) && latencies_of(m, route).count
            == counts::counted::<RequestKey>(m.requests, of_route(route)) && (
        m.latencies.contains_key(route) <==> latencies_of(m, route).count >= 1)
}

/// Counting a request, answered by a backend or by the gateway itself, keeps
/// the metrics consistent.
pub proof fn counting_keeps_metrics_consistent(
    m: MetricsView,
    method: Seq<char>,
    route: Seq<char>,
    status: u16,
    ms: int,
)
    requires
        is_consistent(m),
        0 <= ms,
    ensures
        is_consistent(with_relayed(m, method, route, status, ms)),
        is_consistent(with_request(m, method, route, status, ms)),
{
    let key = (method, route, status);
    let every = counts::every_key::<RequestKey>();
    counts::counting_adds_one::<RequestKey>(m.requests, key, every);
    counts::counting_adds_one::<RequestKey>(m.requests, key, failing());
    counts::counting_adds_one::<String>(m.failures, route, counts::every_key::<String>());
    let relayed = with_relayed(m, method, route, status, ms);
    let own = with_request(m, method, route, status, ms);
    assert forall|r: Seq<char>| #[trigger]
        counts::count_of(relayed.failures, r) <= counts::counted::<RequestKey>(
            relayed.requests,
            failing_on(r),
        ) by {
        counts::counting_adds_one::<RequestKey>(m.requests, key, failing_on(r));
        assert(counts::count_of(m.failures, r) <= counts::counted::<RequestKey>(
            m.requests,
            failing_on(r),
        ));
    }
    assert forall|r: Seq<char>| #[trigger]
        counts::count_of(own.failures, r) <= counts::counted::<RequestKey>(
            own.requests,
            failing_on(r),
        ) by {
        counts::counting_adds_one::<RequestKey>(m.requests, key, failing_on(r));
        assert(counts::count_of(m.failures, r) <= counts::counted::<RequestKey>(
            m.requests,
            failing_on(r),
        ));
    }
    latencies_are_a_histogram(latencies_of(m, route), ms);
    assert forall|r: Seq<char>|
        is_histogram(#[trigger] latencies_of(relayed, r)) && latencies_of(relayed, r).count
            == counts::counted::<RequestKey>(relayed.requests, of_route(r)) && (
        relayed.latencies.contains_key(r) <==> latencies_of(relayed, r).count >= 1) by {
        counts::counting_adds_one::<RequestKey>(m.requests, key, of_route(r));
        assert(is_histogram(latencies_of(m, r)));
    }
    assert forall|r: Seq<char>|
        is_histogram(#[trigger] latencies_of(own, r)) && latencies_of(own, r).count
            == counts::counted::<RequestKey>(own.requests, of_route(r)) && (
        own.latencies.contains_key(r) <==> latencies_of(own, r).count >= 1) by {
        assert(is_histogram(latencies_of(relayed, r)));
        assert(latencies_of(own, r) == latencies_of(relayed, r));
    }
}

/// Recording a request that the gateway has answered itself adds one to the
/// requests, and one to the failures of the gateway exactly when its status is
/// 502, 503 or 504.
pub proof fn recording_counts_once(
    m: MetricsView,
    method: Seq<char>,
    route: Seq<char>,
    status: u16,
    ms: int,
)
    requires
        is_consistent(m),
    ensures
        ({
            let after = with_request(m, method, route, status, ms);
            let every = counts::every_key::<String>();
            &&& after.total == m.total + 1
            &&& counts::counted::<String>(after.failures, every) == counts::counted::<String>(
                m.failures,
                every,
            ) + if status == 502 || status == 503 || status == 504 {
                1int
            } else {
                0
            }
        }),
{
    counts::counting_adds_one::<String>(m.failures, route, counts::every_key::<String>());
}

/// For each route, the number of its latencies is the sum of its requests over
/// all methods and statuses, and the requests of all routes are the total.
pub proof fn latencies_match_the_requests(m: MetricsView, route: Seq<char>)
    requires
        is_consistent(m),
    ensures
        latencies_of(m, route).count == counts::counted::<RequestKey>(m.requests, of_route(route)),
        m.total == counts::counted::<RequestKey>(m.requests, counts::every_key::<RequestKey>()),
        latencies_of(m, route).count <= m.total,
{
    assert(is_histogram(latencies_of(m, route)));
    let any: KeyView = (Seq::empty(), Seq::empty(), 0);
    counts::counts_are_parts_of_the_total::<RequestKey>(m.requests, of_route(route), any);
}

/// What stands under a key has been counted: there are latencies of exactly the
/// routes that have had a request, and a count of failures or rejections of
/// exactly those that have had one.
pub proof fn counted_routes_are_listed(m: MetricsView, route: Seq<char>)
    requires
        is_consistent(m),
    ensures
        m.latencies.contains_key(route) <==> counts::counted::<RequestKey>(
            m.requests,
            of_route(route),
        ) >= 1,
        m.failures.contains_key(route) <==> counts::count_of(m.failures, route) >= 1,
        m.rejections.contains_key(route) <==> counts::count_of(m.rejections, route) >= 1,
{
    assert(is_histogram(latencies_of(m, route)));
}

/// An answer of a backend is never a failure of the gateway, whatever its
/// status.
pub proof fn relayed_answers_are_no_gateway_failures(
    m: MetricsView,
    method: Seq<char>,
    route: Seq<char>,
    status: u16,
    ms: int,
)
    ensures
        with_relayed(m, method, route, status, ms).failures == m.failures,
{
}

/// No more requests fail at the gateway than there are.
pub proof fn failures_are_among_the_requests(m: MetricsView)
    requires
        is_consistent(m),
    ensures
        0 <= counts::counted::<String>(m.failures, counts::every_key::<String>()) <= m.total,
{
    let any: KeyView = (Seq::empty(), Seq::empty(), 0);
    counts::counts_are_parts_of_the_total::<RequestKey>(m.requests, failing(), any);
    counts::counts_are_parts_of_the_total::<String>(
        m.failures,
        counts::every_key::<String>(),
        Seq::empty(),
    );
}

/// The latencies of a map.
pub open spec fn stats_views(m: Map<Seq<char>, LatencyStats>) -> Map<Seq<char>, StatsView> {
    m.map_values(|s: LatencyStats| s@)
}

/// What the gateway has done since it was started.
#[derive(Debug)]
pub struct Metrics {
    clock: Clock,
    requests_total: SortedMap<RequestKey, u64>,
    gateway_failures_total: SortedMap<String, u64>,
    rate_limit_rejections_total: SortedMap<String, u64>,
    latency_by_route: SortedMap<String, LatencyStats>,
    total_requests_seen: u64,
}

impl View for Metrics {
    type V = MetricsView;

    closed spec fn view(&self) -> MetricsView {
        MetricsView {
            total: self.total_requests_seen as int,
            requests: counts::numbers(self.requests_total@),
            failures: counts::numbers(self.gateway_failures_total@),
            rejections: counts::numbers(self.rate_limit_rejections_total@),
            latencies: stats_views(self.latency_by_route@),
            clock: self.clock,
        }
    }
}

/// Metrics that have seen nothing yet.
pub open spec fn nothing_seen(clock: Clock) -> MetricsView {
    MetricsView {
        total: 0,
        requests: Map::empty(),
        failures: Map::empty(),
        rejections: Map::empty(),
        latencies: Map::empty(),
        clock,
    }
}

/// Records a latency under a route.
fn record_latency(latencies: &mut SortedMap<String, LatencyStats>, route: &str, duration_ms: u64)
    requires
        ({
            let s = if stats_views(old(latencies)@).contains_key(route@) {
                stats_views(old(latencies)@)[route@]
            } else {
                no_latencies()
            };
            &&& is_histogram(s)
            &&& s.count < u64::MAX
            &&& s.sum_ms + duration_ms <= u64::MAX
        }),
    ensures
        ({
            let before = stats_views(old(latencies)@);
            let s = if before.contains_key(route@) {
                before[route@]
            } else {
                no_latencies()
            };
            stats_views(final(latencies)@) == before.insert(
                route@,
                with_latency(s, duration_ms as int),
            )
        }),
{
    let ghost before = stats_views(latencies@);
    let key = route.to_string();
    match latencies.index_of(&key) {
        Some(i) => {
            assert(before.contains_key(route@));
            let stats = latencies.value_at_mut(i);
            stats.record(duration_ms);
            assert(stats_views(latencies@) =~= before.insert(
                route@,
                with_latency(before[route@], duration_ms as int),
            ));
        },
        None => {
            let mut stats = LatencyStats::new();
            stats.record(duration_ms);
            latencies.insert(key, stats);
            assert(stats_views(latencies@) =~= before.insert(
                route@,
                with_latency(no_latencies(), duration_ms as int),
            ));
        },
    }
}

impl Metrics {
    #[verifier::type_invariant]
    spec fn well_formed(self) -> bool {
        is_consistent(self@)
    }

    /// Metrics that have seen nothing yet.
    pub fn new() -> (m: Self)
        ensures
            m@ == nothing_seen(m@.clock),
            is_consistent(m@),
    {
        let m = Metrics::with_clock(Clock::start());
        proof {
            use_type_invariant(&m);
        }
        m
    }

    /// Metrics that have seen nothing yet, on a clock that has been started.
    fn with_clock(clock: Clock) -> (m: Self)
        ensures
            m@ == nothing_seen(clock),
    {
        let requests_total: SortedMap<RequestKey, u64> = SortedMap::new();
        let gateway_failures_total: SortedMap<String, u64> = SortedMap::new();
        let rate_limit_rejections_total: SortedMap<String, u64> = SortedMap::new();
        let latency_by_route: SortedMap<String, LatencyStats> = SortedMap::new();
        proof {
            assert(counts::numbers(requests_total@) =~= Map::<KeyView, int>::empty());
            assert(counts::numbers(gateway_failures_total@) =~= Map::<Seq<char>, int>::empty());
            assert(counts::numbers(rate_limit_rejections_total@) =~= Map::<
                Seq<char>,
                int,
            >::empty());
            assert(stats_views(latency_by_route@) =~= Map::<Seq<char>, StatsView>::empty());
            sorted_map::keys_list_the_domain::<RequestKey, u64>(requests_total);
            sorted_map::keys_list_the_domain::<String, u64>(gateway_failures_total);
            assert(counts::numbers(requests_total@).dom() =~= requests_total@.dom());
            assert(counts::numbers(gateway_failures_total@).dom()
                =~= gateway_failures_total@.dom());
        }
        Metrics {
            clock,
            requests_total,
            gateway_failures_total,
            rate_limit_rejections_total,
            latency_by_route,
            total_requests_seen: 0,
        }
    }

    /// Whether one request more, of so many milliseconds, can be counted.
    pub fn can_record(&self, route: &str, duration_ms: u64) -> (r: bool)
        ensures
            r == has_room(self@, route@, duration_ms as int),
    {
        let key = route.to_string();
        let spent: u64 = match self.latency_by_route.get(&key) {
            Some(stats) => stats.sum_ms,
            None => 0,
        };
        self.total_requests_seen < u64::MAX && duration_ms <= u64::MAX - spent
    }

    /// Counts a request that the gateway has answered itself.
    pub fn record_request(&mut self, method: &str, route: &str, status: u16, duration_ms: u64)
        requires
            has_room(old(self)@, route@, duration_ms as int),
        ensures
            final(self)@ == with_request(
                old(self)@,
                method@,
                route@,
                status,
                duration_ms as int,
            ),
            is_consistent(final(self)@),
    {
        let failed = status == 502 || status == 503 || status == 504;
        self.count(method, route, status, duration_ms, failed);
    }

    /// Counts a request that a backend has answered.
    pub fn record_relayed(&mut self, method: &str, route: &str, status: u16, duration_ms: u64)
        requires
            has_room(old(self)@, route@, duration_ms as int),
        ensures
            final(self)@ == with_relayed(
                old(self)@,
                method@,
                route@,
                status,
                duration_ms as int,
            ),
            is_consistent(final(self)@),
    {
        self.count(method, route, status, duration_ms, false);
    }

    /// Counts a request, and a failure of the gateway if it is one.
    fn count(&mut self, method: &str, route: &str, status: u16, duration_ms: u64, failed: bool)
        requires
            has_room(old(self)@, route@, duration_ms as int),
            failed ==> is_gateway_failure(status),
        ensures
            ({
                let ms = duration_ms as int;
                final(self)@ == if failed {
                    with_request(old(self)@, method@, route@, status, ms)
                } else {
                    with_relayed(old(self)@, method@, route@, status, ms)
                }
            }),
            is_consistent(final(self)@),
    {
        proof {
            use_type_invariant(&*self);
        }
        let ghost before = self@;
        let mut rest = Metrics::with_clock(self.clock);
        std::mem::swap(self, &mut rest);
        let Metrics {
            clock,
            mut requests_total,
            mut gateway_failures_total,
            rate_limit_rejections_total,
            mut latency_by_route,
            total_requests_seen,
        } = rest;
        let key = RequestKey { method: method.to_string(), route: route.to_string(), status };
        proof {
            let every = counts::every_key::<RequestKey>();
            counts::counts_are_parts_of_the_total::<RequestKey>(before.requests, every, key@);
            counts::counts_are_parts_of_the_total::<String>(
                before.failures,
                counts::every_key::<String>(),
                route@,
            );
            failures_are_among_the_requests(before);
            counting_keeps_metrics_consistent(before, method@, route@, status, duration_ms as int);
            latencies_match_the_requests(before, route@);
            assert(is_histogram(latencies_of(before, route@)));
        }
        counts::count_one(&mut requests_total, key);
        if failed {
            counts::count_one(&mut gateway_failures_total, route.to_string());
        }
        record_latency(&mut latency_by_route, route, duration_ms);
        *self = Metrics {
            clock,
            requests_total,
            gateway_failures_total,
            rate_limit_rejections_total,
            latency_by_route,
            total_requests_seen: total_requests_seen + 1,
        };
    }

    /// How many requests of a route a rate limit has turned away.
    pub fn rejections(&self, route: &str) -> (n: u64)
        ensures
            n == counts::count_of(self@.rejections, route@),
    {
        let key = route.to_string();
        match self.rate_limit_rejections_total.get(&key) {
            Some(n) => *n,
            None => 0,
        }
    }

    /// Counts a request that a rate limit has turned away.
    pub fn record_rate_limit_rejection(&mut self, route: &str)
        requires
            counts::count_of(old(self)@.rejections, route@) < u64::MAX,
        ensures
            final(self)@ == (MetricsView {
                rejections: counts::one_more(old(self)@.rejections, route@),
                ..old(self)@
            }),
            is_consistent(final(self)@),
    {
        proof {
            use_type_invariant(&*self);
        }
        let ghost before = self@;
        let mut rest = Metrics::with_clock(self.clock);
        std::mem::swap(self, &mut rest);
        let Metrics {
            clock,
            requests_total,
            gateway_failures_total,
            mut rate_limit_rejections_total,
            latency_by_route,
            total_requests_seen,
        } = rest;
        counts::count_one(&mut rate_limit_rejections_total, route.to_string());
        proof {
            let after = MetricsView {
                rejections: counts::numbers(rate_limit_rejections_total@),
                ..before
            };
            assert forall|r: Seq<char>|
                is_histogram(#[trigger] latencies_of(after, r)) && latencies_of(after, r).count
                    == counts::counted::<RequestKey>(after.requests, of_route(r)) && (
                after.latencies.contains_key(r) <==> latencies_of(after, r).count >= 1) by {
                assert(is_histogram(latencies_of(before, r)));
            }
        }
        *self = Metrics {
            clock,
            requests_total,
            gateway_failures_total,
            rate_limit_rejections_total,
            latency_by_route,
            total_requests_seen,
        };
    }

    /// Nanoseconds since the metrics were started.
    pub fn uptime_nanos(&self) -> (nanos: u128)
        ensures
            clock::is_reading(self@.clock, nanos as int),
    {
        self.clock.now()
    }

    /// The number of requests.
    pub fn total_requests(&self) -> (n: u64)
        ensures
            n == self@.total,
            is_consistent(self@),
    {
        proof {
            use_type_invariant(self);
        }
        self.total_requests_seen
    }

    /// The number of requests that the gateway has answered itself because no
    /// backend could. An error that came from a backend is not among them.
    pub fn total_gateway_failures(&self) -> (n: u64)
        ensures
            n == counts::counted::<String>(self@.failures, counts::every_key::<String>()),
            n <= self@.total,
    {
        proof {
            use_type_invariant(self);
            failures_are_among_the_requests(self@);
        }
        counts::sum_of_all(&self.gateway_failures_total)
    }
}

impl Default for Metrics {
    fn default() -> (m: Self)
        ensures
            m@ == nothing_seen(m@.clock),
    {
        Metrics::new()
    }
}

/// The line that counts the requests of one method, route and status.
pub open spec fn request_line(key: KeyView, count: int) -> Seq<char> {
    "raptor_http_requests_total{method=\""@ + key.0 + "\",route=\""@ + key.1 + "\",status=\""@
        + text::decimal(key.2 as nat) + "\"} "@ + text::decimal(count as nat) + "\n"@
}

/// The line of a metric that has a value for each route.
pub open spec fn route_line(start: Seq<char>, route: Seq<char>, value: Seq<char>) -> Seq<char> {
    start + route + "\"} "@ + value + "\n"@
}

/// The lines of the requests, in the order of their keys.
pub open spec fn request_lines(requests: Map<KeyView, int>) -> Seq<Seq<char>> {
    sorted_map::sorted::<RequestKey>(requests.dom()).map_values(
        |k: KeyView| request_line(k, requests[k]),
    )
}

/// The lines of a counter by route, in the order of the routes.
pub open spec fn counter_lines(start: Seq<char>, by_route: Map<Seq<char>, int>) -> Seq<Seq<char>> {
    sorted_map::sorted::<String>(by_route.dom()).map_values(
        |route: Seq<char>| route_line(start, route, text::decimal(by_route[route] as nat)),
    )
}

/// The lines of the failures of the gateway.
pub open spec fn failure_lines(failures: Map<Seq<char>, int>) -> Seq<Seq<char>> {
    counter_lines("raptor_http_requests_failed_total{route=\""@, failures)
}

/// The lines of the rejections by rate limit.
pub open spec fn rejection_lines(rejections: Map<Seq<char>, int>) -> Seq<Seq<char>> {
    counter_lines("raptor_rate_limit_rejections_total{route=\""@, rejections)
}

/// The line of a latency bucket.
pub open spec fn bucket_line(route: Seq<char>, bound: Seq<char>, count: int) -> Seq<char> {
    "raptor_http_request_duration_seconds_bucket{route=\""@ + route + "\",le=\""@ + bound + "\"} "@
        + text::decimal(count as nat) + "\n"@
}

/// The lines of the latencies of a route: a bucket for each bound, one for all,
/// the sum in seconds, and the count.
pub open spec fn latency_text(route: Seq<char>, s: StatsView) -> Seq<char> {
    text::joined(
        Seq::new(
            10,
            |i: int|
                bucket_line(
                    route,
                    text::fraction(bucket_bounds()[i] as nat, 1000, 3),
                    s.buckets[i],
                ),
        ),
    ) + bucket_line(route, "+Inf"@, s.count) + route_line(
        "raptor_http_request_duration_seconds_sum{route=\""@,
        route,
        text::fraction(s.sum_ms as nat, 1000, 3),
    ) + route_line(
        "raptor_http_request_duration_seconds_count{route=\""@,
        route,
        text::decimal(s.count as nat),
    )
}

/// The latencies, in the order of their routes.
pub open spec fn latency_texts(latencies: Map<Seq<char>, StatsView>) -> Seq<Seq<char>> {
    sorted_map::sorted::<String>(latencies.dom()).map_values(
        |route: Seq<char>| latency_text(route, latencies[route]),
    )
}

/// The line of a metric that has a value of 0 or 1 for each backend.
pub open spec fn backend_line(
    start: Seq<char>,
    upstream: Seq<char>,
    backend: Seq<char>,
    value: bool,
) -> Seq<char> {
    start + upstream + "\",backend=\""@ + backend + "\"} "@ + if value {
        "1"@
    } else {
        "0"@
    } + "\n"@
}

/// Whether the circuit of a backend is open.
pub open spec fn circuit_is_open(b: BackendView) -> bool {
    b.circuit.state == CircuitState::Open
}

/// The health lines of an upstream.
pub open spec fn health_lines(p: PoolView) -> Seq<Seq<char>> {
    p.backends.map_values(
        |b: BackendView|
            backend_line(
                "raptor_upstream_backend_healthy{upstream=\""@,
                p.name,
                b.url,
                b.healthy,
            ),
    )
}

/// The circuit lines of an upstream.
pub open spec fn circuit_lines(p: PoolView) -> Seq<Seq<char>> {
    p.backends.map_values(
        |b: BackendView|
            backend_line(
                "raptor_upstream_circuit_open{upstream=\""@,
                p.name,
                b.url,
                circuit_is_open(b),
            ),
    )
}

/// The health lines of all upstreams.
pub open spec fn health_texts(pools: Seq<PoolView>) -> Seq<Seq<char>> {
    pools.map_values(|p: PoolView| text::joined(health_lines(p)))
}

/// The circuit lines of all upstreams.
pub open spec fn circuit_texts(pools: Seq<PoolView>) -> Seq<Seq<char>> {
    pools.map_values(|p: PoolView| text::joined(circuit_lines(p)))
}

/// The metrics in the text format of Prometheus, after the given uptime.
pub open spec fn exposition(m: MetricsView, pools: Seq<PoolView>, uptime_nanos: nat) -> Seq<char> {
    uptime_head() + text::fraction(uptime_nanos, 1_000_000_000, 9) + "\n"@ + requests_head()
        + text::joined(request_lines(m.requests)) + failures_head() + text::joined(
        failure_lines(m.failures),
    ) + rejections_head() + text::joined(rejection_lines(m.rejections)) + latencies_head()
        + text::joined(latency_texts(m.latencies)) + health_head() + text::joined(
        health_texts(pools),
    ) + circuit_head() + text::joined(circuit_texts(pools))
}

pub open spec fn uptime_head() -> Seq<char> {
    "# HELP raptor_uptime_seconds Segundos desde que arrancó el proceso.\n# TYPE raptor_uptime_seconds gauge\nraptor_uptime_seconds "@
}

pub open spec fn requests_head() -> Seq<char> {
    "\n# HELP raptor_http_requests_total Requests procesados, por método, ruta y status.\n# TYPE raptor_http_requests_total counter\n"@
}

pub open spec fn failures_head() -> Seq<char> {
    "\n# HELP raptor_http_requests_failed_total Requests que Raptor no pudo completar contra ningún backend (502/503/504), por ruta.\n# TYPE raptor_http_requests_failed_total counter\n"@
}

pub open spec fn rejections_head() -> Seq<char> {
    "\n# HELP raptor_rate_limit_rejections_total Requests rechazados por rate limiting, por ruta.\n# TYPE raptor_rate_limit_rejections_total counter\n"@
}

pub open spec fn latencies_head() -> Seq<char> {
    "\n# HELP raptor_http_request_duration_seconds Latencia de los requests manejados por Raptor, por ruta.\n# TYPE raptor_http_request_duration_seconds histogram\n"@
}

pub open spec fn health_head() -> Seq<char> {
    "\n# HELP raptor_upstream_backend_healthy Si el health checker considera este backend sano (1) o no (0).\n# TYPE raptor_upstream_backend_healthy gauge\n"@
}

pub open spec fn circuit_head() -> Seq<char> {
    "\n# HELP raptor_upstream_circuit_open Si el circuit breaker de este backend está abierto (1) o no (0).\n# TYPE raptor_upstream_circuit_open gauge\n"@
}

/// Writes a line of a metric that has a value for each route.
fn write_route_line(start: &str, route: &str, value: &str) -> (s: String)
    ensures
        s@ == route_line(start@, route@, value@),
{
    text::concat5(start, route, "\"} ", value, "\n")
}

/// Writes the line of a latency bucket.
fn write_bucket_line(route: &str, bound: &str, count: u64) -> (s: String)
    ensures
        s@ == bucket_line(route@, bound@, count as int),
{
    let start = text::concat5(
        "raptor_http_request_duration_seconds_bucket{route=\"",
        route,
        "\",le=\"",
        bound,
        "\"} ",
    );
    text::concat3(start.as_str(), text::decimal_text(count as u128).as_str(), "\n")
}

/// Writes a line of a metric that has a value of 0 or 1 for each backend.
fn write_backend_line(start: &str, upstream: &str, backend: &str, value: bool) -> (s: String)
    ensures
        s@ == backend_line(start@, upstream@, backend@, value),
{
    let head = text::concat5(start, upstream, "\",backend=\"", backend, "\"} ");
    if value {
        text::concat3(head.as_str(), "1", "\n")
    } else {
        text::concat3(head.as_str(), "0", "\n")
    }
}

/// Writes the latencies of a route.
fn write_latencies(route: &str, stats: &LatencyStats) -> (s: String)
    requires
        is_histogram(stats@),
    ensures
        s@ == latency_text(route@, stats@),
{
    let ghost lines = Seq::new(
        10,
        |i: int|
            bucket_line(
                route@,
                text::fraction(bucket_bounds()[i] as nat, 1000, 3),
                stats@.buckets[i],
            ),
    );
    let mut s = String::new();
    let mut i: usize = 0;
    assert(s@ =~= text::joined(lines.take(0)));
    while i < 10
        invariant
            i <= 10,
            stats.bucket_counts@.len() == 10,
            lines == Seq::new(
                10,
                |i: int|
                    bucket_line(
                        route@,
                        text::fraction(bucket_bounds()[i] as nat, 1000, 3),
                        stats@.buckets[i],
                    ),
            ),
            s@ == text::joined(lines.take(i as int)),
        decreases 10 - i,
    {
        let bound: u64 = bucket_bound(i);
        let label = text::fraction_text(bound as u128, 1000, 3);
        let line = write_bucket_line(route, label.as_str(), stats.bucket_counts[i]);
        s.append(line.as_str());
        assert(lines.take(i + 1).drop_last() =~= lines.take(i as int));
        assert(line@ == lines[i as int]);
        i = i + 1;
    }
    assert(lines.take(10) =~= lines);
    let all = write_bucket_line(route, "+Inf", stats.count);
    let sum = text::fraction_text(stats.sum_ms as u128, 1000, 3);
    let sum_line = write_route_line(
        "raptor_http_request_duration_seconds_sum{route=\"",
        route,
        sum.as_str(),
    );
    let count = text::decimal_text(stats.count as u128);
    let count_line = write_route_line(
        "raptor_http_request_duration_seconds_count{route=\"",
        route,
        count.as_str(),
    );
    s.append(all.as_str());
    s.append(sum_line.as_str());
    s.append(count_line.as_str());
    s
}

impl Metrics {
    /// Writes the lines of the requests.
    fn write_requests(&self) -> (s: String)
        ensures
            s@ == text::joined(request_lines(self@.requests)),
    {
        let ghost requests = self@.requests;
        let ghost lines = request_lines(requests);
        let n: usize = self.requests_total.len();
        let ghost keys = self.requests_total.keys();
        proof {
            sorted_map::keys_list_the_domain::<RequestKey, u64>(self.requests_total);
            assert(requests.dom() =~= self.requests_total@.dom());
        }
        let mut s = String::new();
        let mut i: usize = 0;
        assert(s@ =~= text::joined(lines.take(0)));
        while i < n
            invariant
                i <= n,
                n == keys.len(),
                n == self.requests_total.values().len(),
                keys == self.requests_total.keys(),
                sorted_map::ascending::<RequestKey>(keys),
                requests == counts::numbers(self.requests_total@),
                lines == keys.map_values(|k: KeyView| request_line(k, requests[k])),
                s@ == text::joined(lines.take(i as int)),
            decreases n - i,
        {
            proof {
                sorted_map::value_stands_under_its_key::<RequestKey, u64>(
                    self.requests_total,
                    i as int,
                );
                assert(lines.take(i + 1).drop_last() =~= lines.take(i as int));
            }
            let key = self.requests_total.key_at(i);
            let count: u64 = *self.requests_total.value_at(i);
            let start = text::concat5(
                "raptor_http_requests_total{method=\"",
                key.method.as_str(),
                "\",route=\"",
                key.route.as_str(),
                "\",status=\"",
            );
            let line = text::concat5(
                start.as_str(),
                text::decimal_text(key.status as u128).as_str(),
                "\"} ",
                text::decimal_text(count as u128).as_str(),
                "\n",
            );
            s.append(line.as_str());
            assert(line@ == lines[i as int]);
            i = i + 1;
        }
        assert(lines.take(n as int) =~= lines);
        s
    }

    /// Writes the latencies of all routes.
    fn write_latency_section(&self) -> (s: String)
        ensures
            s@ == text::joined(latency_texts(self@.latencies)),
    {
        proof {
            use_type_invariant(self);
        }
        let ghost latencies = self@.latencies;
        let ghost lines = latency_texts(latencies);
        let stats = &self.latency_by_route;
        let n: usize = stats.len();
        let ghost keys = stats.keys();
        proof {
            sorted_map::keys_list_the_domain::<String, LatencyStats>(*stats);
            assert(latencies.dom() =~= stats@.dom());
            assert forall|route: Seq<char>| #[trigger] latencies.contains_key(
                route,
            ) implies is_histogram(latencies[route]) by {
                assert(is_histogram(latencies_of(self@, route)));
            }
        }
        let mut s = String::new();
        let mut i: usize = 0;
        assert(s@ =~= text::joined(lines.take(0)));
        while i < n
            invariant
                i <= n,
                n == keys.len(),
                n == stats.values().len(),
                keys == stats.keys(),
                sorted_map::ascending::<String>(keys),
                keys == sorted_map::sorted::<String>(latencies.dom()),
                latencies == stats_views(stats@),
                forall|route: Seq<char>| #[trigger]
                    latencies.contains_key(route) ==> is_histogram(latencies[route]),
                lines == latency_texts(latencies),
                s@ == text::joined(lines.take(i as int)),
            decreases n - i,
        {
            proof {
                sorted_map::value_stands_under_its_key::<String, LatencyStats>(*stats, i as int);
                assert(lines.take(i + 1).drop_last() =~= lines.take(i as int));
                assert(latencies.contains_key(keys[i as int]));
            }
            let line = write_latencies(stats.key_at(i).as_str(), stats.value_at(i));
            s.append(line.as_str());
            assert(line@ == lines[i as int]);
            i = i + 1;
        }
        assert(lines.take(n as int) =~= lines);
        s
    }

    /// The metrics, and the state of the upstreams, in the text format of
    /// Prometheus.
    pub fn render_prometheus(&self, upstreams: &UpstreamManager) -> (s: String)
        ensures
            exists|uptime: nat|
                clock::is_reading(self@.clock, uptime as int) && s@ == #[trigger] exposition(
                    self@,
                    upstreams.states(),
                    uptime,
                ),
    {
        let uptime: u128 = self.clock.now();
        self.render_prometheus_at(upstreams, uptime)
    }

    /// `render_prometheus` after so many nanoseconds.
    pub fn render_prometheus_at(&self, upstreams: &UpstreamManager, uptime_nanos: u128) -> (s:
        String)
        ensures
            s@ == exposition(self@, upstreams.states(), uptime_nanos as nat),
    {
        let mut s = String::from_str(
            "# HELP raptor_uptime_seconds Segundos desde que arrancó el proceso.\n# TYPE raptor_uptime_seconds gauge\nraptor_uptime_seconds ",
        );
        s.append(text::fraction_text(uptime_nanos, 1_000_000_000, 9).as_str());
        s.append("\n");
        s.append(
            "\n# HELP raptor_http_requests_total Requests procesados, por método, ruta y status.\n# TYPE raptor_http_requests_total counter\n",
        );
        s.append(self.write_requests().as_str());
        s.append(
            "\n# HELP raptor_http_requests_failed_total Requests que Raptor no pudo completar contra ningún backend (502/503/504), por ruta.\n# TYPE raptor_http_requests_failed_total counter\n",
        );
        s.append(write_counter(
                "raptor_http_requests_failed_total{route=\"",
                &self.gateway_failures_total,
            ).as_str());
        s.append(
            "\n# HELP raptor_rate_limit_rejections_total Requests rechazados por rate limiting, por ruta.\n# TYPE raptor_rate_limit_rejections_total counter\n",
        );
        s.append(write_counter(
                "raptor_rate_limit_rejections_total{route=\"",
                &self.rate_limit_rejections_total,
            ).as_str());
        s.append(
            "\n# HELP raptor_http_request_duration_seconds Latencia de los requests manejados por Raptor, por ruta.\n# TYPE raptor_http_request_duration_seconds histogram\n",
        );
        s.append(self.write_latency_section().as_str());
        s.append(
            "\n# HELP raptor_upstream_backend_healthy Si el health checker considera este backend sano (1) o no (0).\n# TYPE raptor_upstream_backend_healthy gauge\n",
        );
        s.append(write_health(upstreams).as_str());
        s.append(
            "\n# HELP raptor_upstream_circuit_open Si el circuit breaker de este backend está abierto (1) o no (0).\n# TYPE raptor_upstream_circuit_open gauge\n",
        );
        s.append(write_circuits(upstreams).as_str());
        s
    }
}

/// Writes the lines of a counter by route.
fn write_counter(start: &str, counter: &SortedMap<String, u64>) -> (s: String)
    ensures
        s@ == text::joined(counter_lines(start@, counts::numbers(counter@))),
{
    let ghost by_route = counts::numbers(counter@);
    let ghost lines = counter_lines(start@, by_route);
    let n: usize = counter.len();
    let ghost keys = counter.keys();
    proof {
        sorted_map::keys_list_the_domain::<String, u64>(*counter);
        assert(by_route.dom() =~= counter@.dom());
    }
    let mut s = String::new();
    let mut i: usize = 0;
    assert(s@ =~= text::joined(lines.take(0)));
    while i < n
        invariant
            i <= n,
            n == keys.len(),
            n == counter.values().len(),
            keys == counter.keys(),
            sorted_map::ascending::<String>(keys),
            keys == sorted_map::sorted::<String>(by_route.dom()),
            by_route == counts::numbers(counter@),
            lines == counter_lines(start@, by_route),
            s@ == text::joined(lines.take(i as int)),
        decreases n - i,
    {
        proof {
            sorted_map::value_stands_under_its_key::<String, u64>(*counter, i as int);
            assert(lines.take(i + 1).drop_last() =~= lines.take(i as int));
        }
        let count = text::decimal_text(*counter.value_at(i) as u128);
        let line = write_route_line(start, counter.key_at(i).as_str(), count.as_str());
        s.append(line.as_str());
        assert(line@ == lines[i as int]);
        i = i + 1;
    }
    assert(lines.take(n as int) =~= lines);
    s
}

/// Writes the health lines of an upstream.
fn write_pool_health(pool: &UpstreamPool) -> (s: String)
    ensures
        s@ == text::joined(health_lines(pool@)),
{
    let ghost lines = health_lines(pool@);
    let backends = pool.backends();
    let n: usize = backends.len();
    let mut s = String::new();
    let mut i: usize = 0;
    assert(s@ =~= text::joined(lines.take(0)));
    while i < n
        invariant
            i <= n,
            n == backends@.len(),
            balancer::backend_views(backends@) == pool@.backends,
            lines == health_lines(pool@),
            s@ == text::joined(lines.take(i as int)),
        decreases n - i,
    {
        assert(pool@.backends[i as int] == backends@[i as int]@);
        assert(lines.take(i + 1).drop_last() =~= lines.take(i as int));
        let b = &backends[i];
        let line = write_backend_line(
            "raptor_upstream_backend_healthy{upstream=\"",
            pool.name(),
            b.url(),
            b.is_healthy(),
        );
        s.append(line.as_str());
        assert(line@ == lines[i as int]);
        i = i + 1;
    }
    assert(lines.take(n as int) =~= lines);
    s
}

/// Writes the circuit lines of an upstream.
fn write_pool_circuits(pool: &UpstreamPool) -> (s: String)
    ensures
        s@ == text::joined(circuit_lines(pool@)),
{
    let ghost lines = circuit_lines(pool@);
    let backends = pool.backends();
    let n: usize = backends.len();
    let mut s = String::new();
    let mut i: usize = 0;
    assert(s@ =~= text::joined(lines.take(0)));
    while i < n
        invariant
            i <= n,
            n == backends@.len(),
            balancer::backend_views(backends@) == pool@.backends,
            lines == circuit_lines(pool@),
            s@ == text::joined(lines.take(i as int)),
        decreases n - i,
    {
        assert(pool@.backends[i as int] == backends@[i as int]@);
        assert(lines.take(i + 1).drop_last() =~= lines.take(i as int));
        let b = &backends[i];
        let line = write_backend_line(
            "raptor_upstream_circuit_open{upstream=\"",
            pool.name(),
            b.url(),
            b.circuit().is_open(),
        );
        s.append(line.as_str());
        assert(line@ == lines[i as int]);
        i = i + 1;
    }
    assert(lines.take(n as int) =~= lines);
    s
}

/// Writes the health lines of all upstreams.
fn write_health(upstreams: &UpstreamManager) -> (s: String)
    ensures
        s@ == text::joined(health_texts(upstreams.states())),
{
    let ghost texts = health_texts(upstreams.states());
    let n: usize = upstreams.len();
    let mut s = String::new();
    let mut i: usize = 0;
    assert(s@ =~= text::joined(texts.take(0)));
    while i < n
        invariant
            i <= n,
            n == upstreams.states().len(),
            texts == health_texts(upstreams.states()),
            s@ == text::joined(texts.take(i as int)),
        decreases n - i,
    {
        assert(texts.take(i + 1).drop_last() =~= texts.take(i as int));
        s.append(write_pool_health(upstreams.pool_at(i)).as_str());
        i = i + 1;
    }
    assert(texts.take(n as int) =~= texts);
    s
}

/// Writes the circuit lines of all upstreams.
fn write_circuits(upstreams: &UpstreamManager) -> (s: String)
    ensures
        s@ == text::joined(circuit_texts(upstreams.states())),
{
    let ghost texts = circuit_texts(upstreams.states());
    let n: usize = upstreams.len();
    let mut s = String::new();
    let mut i: usize = 0;
    assert(s@ =~= text::joined(texts.take(0)));
    while i < n
        invariant
            i <= n,
            n == upstreams.states().len(),
            texts == circuit_texts(upstreams.states()),
            s@ == text::joined(texts.take(i as int)),
        decreases n - i,
    {
        assert(texts.take(i + 1).drop_last() =~= texts.take(i as int));
        s.append(write_pool_circuits(upstreams.pool_at(i)).as_str());
        i = i + 1;
    }
    assert(texts.take(n as int) =~= texts);
    s
}

/// The latency buckets end at 5, 10, 25, 50, 100, 250 and 500 milliseconds and at
/// 1, 2.5 and 5 seconds. A latency of just that counts as no longer.
pub proof fn buckets_end_where_they_should(s: StatsView, ms: int)
    requires
        s.buckets.len() == 10,
    ensures
        ({
            let bounds: Seq<int> = seq![5, 10, 25, 50, 100, 250, 500, 1000, 2500, 5000];
            let after = with_latency(s, ms);
            &&& after.count == s.count + 1
            &&& after.sum_ms == s.sum_ms + ms
            &&& after.buckets.len() == 10
            &&& forall|i: int|
                0 <= i < 10 ==> #[trigger] after.buckets[i] == s.buckets[i] + if ms <= bounds[i] {
                    1int
                } else {
                    0
                }
        }),
{
}

/// A request is counted once under its method, route and status, and under no
/// other key; its latency is recorded under its route, and under no other. One
/// that the gateway has answered itself with 502, 503 or 504 is one failure more
/// of its route. Rejections are another matter.
pub proof fn requests_are_counted_under_their_key(
    m: MetricsView,
    method: Seq<char>,
    route: Seq<char>,
    status: u16,
    ms: int,
    key: KeyView,
    other: Seq<char>,
)
    ensures
        ({
            let own = with_request(m, method, route, status, ms);
            let relayed = with_relayed(m, method, route, status, ms);
            let more = counts::count_of(m.requests, key) + if key == (method, route, status) {
                1int
            } else {
                0
            };
            let latencies = if other == route {
                with_latency(latencies_of(m, route), ms)
            } else {
                latencies_of(m, other)
            };
            &&& own.total == m.total + 1 && relayed.total == m.total + 1
            &&& counts::count_of(own.requests, key) == more
            &&& counts::count_of(relayed.requests, key) == more
            &&& latencies_of(own, other) == latencies
            &&& latencies_of(relayed, other) == latencies
            &&& own.rejections == m.rejections && relayed.rejections == m.rejections
            &&& relayed.failures == m.failures
            &&& counts::count_of(own.failures, other) == counts::count_of(m.failures, other)
                + if other == route && (status == 502 || status == 503 || status == 504) {
                1int
            } else {
                0
            }
        }),
{
}

proof fn lemma_parts_of_exposition(m: MetricsView, pools: Seq<PoolView>, uptime: nat, part: Seq<char>)
    ensures
        text::is_part_of(part, text::joined(request_lines(m.requests))) || text::is_part_of(
            part,
            text::joined(failure_lines(m.failures)),
        ) || text::is_part_of(part, text::joined(rejection_lines(m.rejections)))
            || text::is_part_of(part, text::joined(latency_texts(m.latencies)))
            || text::is_part_of(part, text::joined(health_texts(pools))) || text::is_part_of(
            part,
            text::joined(circuit_texts(pools)),
        ) ==> text::is_part_of(part, exposition(m, pools, uptime)),
{
    let none = Seq::<Seq<char>>::empty();
    let list = none.push(uptime_head());
    text::joined_with_one_more(none, uptime_head());
    assert(text::joined(list) =~= uptime_head());
    let list = lemma_section(list, text::fraction(uptime, 1_000_000_000, 9), part);
    let list = lemma_section(list, "\n"@, part);
    let list = lemma_section(list, requests_head(), part);
    let list = lemma_section(list, text::joined(request_lines(m.requests)), part);
    let list = lemma_section(list, failures_head(), part);
    let list = lemma_section(list, text::joined(failure_lines(m.failures)), part);
    let list = lemma_section(list, rejections_head(), part);
    let list = lemma_section(list, text::joined(rejection_lines(m.rejections)), part);
    let list = lemma_section(list, latencies_head(), part);
    let list = lemma_section(list, text::joined(latency_texts(m.latencies)), part);
    let list = lemma_section(list, health_head(), part);
    let list = lemma_section(list, text::joined(health_texts(pools)), part);
    let list = lemma_section(list, circuit_head(), part);
    let list = lemma_section(list, text::joined(circuit_texts(pools)), part);
    assert(text::joined(list) == exposition(m, pools, uptime));
}

/// A text with one section more holds what it held before, and what the section
/// holds.
proof fn lemma_section(list: Seq<Seq<char>>, section: Seq<char>, part: Seq<char>) -> (longer: Seq<
    Seq<char>,
>)
    ensures
        longer == list.push(section),
        text::joined(longer) == text::joined(list) + section,
        text::is_part_of(part, text::joined(list)) || text::is_part_of(part, section)
            ==> text::is_part_of(part, text::joined(longer)),
{
    let none = Seq::<char>::empty();
    text::joined_with_one_more(list, section);
    let whole = text::joined(list) + section;
    if text::is_part_of(part, text::joined(list)) {
        text::parts_stay_parts(part, none, text::joined(list), section);
        assert(none + text::joined(list) + section =~= whole);
    }
    if text::is_part_of(part, section) {
        text::parts_stay_parts(part, text::joined(list), section, none);
        assert(text::joined(list) + section + none =~= whole);
    }
    list.push(section)
}

proof fn lemma_listed<K: OrderedKey>(keys: Set<K::V>, key: K::V) -> (i: int)
    requires
        keys.finite(),
        keys.contains(key),
    ensures
        0 <= i < sorted_map::sorted::<K>(keys).len(),
        sorted_map::sorted::<K>(keys)[i] == key,
{
    sorted_map::finite_set_is_listed::<K>(keys);
    let list = sorted_map::sorted::<K>(keys);
    assert(list.to_set().contains(key));
    list.index_of(key)
}

/// Every count is exposed: the requests of each method, route and status, and the
/// failures and rejections of each route, in a line of their own with the number.
pub proof fn every_count_is_exposed(
    m: MetricsView,
    pools: Seq<PoolView>,
    uptime: nat,
    key: KeyView,
    route: Seq<char>,
)
    requires
        is_consistent(m),
    ensures
        m.requests.contains_key(key) ==> text::is_part_of(
            "raptor_http_requests_total{method=\""@ + key.0 + "\",route=\""@ + key.1
                + "\",status=\""@ + text::decimal(key.2 as nat) + "\"} "@ + text::decimal(
                m.requests[key] as nat,
            ) + "\n"@,
            exposition(m, pools, uptime),
        ),
        m.failures.contains_key(route) ==> text::is_part_of(
            "raptor_http_requests_failed_total{route=\""@ + route + "\"} "@ + text::decimal(
                m.failures[route] as nat,
            ) + "\n"@,
            exposition(m, pools, uptime),
        ),
        m.rejections.contains_key(route) ==> text::is_part_of(
            "raptor_rate_limit_rejections_total{route=\""@ + route + "\"} "@ + text::decimal(
                m.rejections[route] as nat,
            ) + "\n"@,
            exposition(m, pools, uptime),
        ),
{
    if m.requests.contains_key(key) {
        let i = lemma_listed::<RequestKey>(m.requests.dom(), key);
        text::joined_texts_are_parts(request_lines(m.requests), i);
        lemma_parts_of_exposition(m, pools, uptime, request_lines(m.requests)[i]);
    }
    if m.failures.contains_key(route) {
        let i = lemma_listed::<String>(m.failures.dom(), route);
        text::joined_texts_are_parts(failure_lines(m.failures), i);
        lemma_parts_of_exposition(m, pools, uptime, failure_lines(m.failures)[i]);
    }
    if m.rejections.contains_key(route) {
        let i = lemma_listed::<String>(m.rejections.dom(), route);
        text::joined_texts_are_parts(rejection_lines(m.rejections), i);
        lemma_parts_of_exposition(m, pools, uptime, rejection_lines(m.rejections)[i]);
    }
}

/// The latencies of every route are exposed: a line for each bucket with its bound
/// in seconds, one for all of them, the sum in seconds and the count.
pub proof fn latencies_are_exposed(
    m: MetricsView,
    pools: Seq<PoolView>,
    uptime: nat,
    route: Seq<char>,
    k: int,
)
    requires
        is_consistent(m),
        m.latencies.contains_key(route),
        0 <= k < 10,
    ensures
        ({
            let s = m.latencies[route];
            let bounds: Seq<int> = seq![5, 10, 25, 50, 100, 250, 500, 1000, 2500, 5000];
            let all = exposition(m, pools, uptime);
            &&& text::is_part_of(
                "raptor_http_request_duration_seconds_bucket{route=\""@ + route + "\",le=\""@
                    + text::fraction(bounds[k] as nat, 1000, 3) + "\"} "@ + text::decimal(
                    s.buckets[k] as nat,
                ) + "\n"@,
                all,
            )
            &&& text::is_part_of(
                "raptor_http_request_duration_seconds_bucket{route=\""@ + route + "\",le=\""@
                    + "+Inf"@ + "\"} "@ + text::decimal(s.count as nat) + "\n"@,
                all,
            )
            &&& text::is_part_of(
                "raptor_http_request_duration_seconds_sum{route=\""@ + route + "\"} "@
                    + text::fraction(s.sum_ms as nat, 1000, 3) + "\n"@,
                all,
            )
            &&& text::is_part_of(
                "raptor_http_request_duration_seconds_count{route=\""@ + route + "\"} "@
                    + text::decimal(s.count as nat) + "\n"@,
                all,
            )
        }),
{
    let s = m.latencies[route];
    let i = lemma_listed::<String>(m.latencies.dom(), route);
    let texts = latency_texts(m.latencies);
    assert(texts[i] == latency_text(route, s));
    text::joined_texts_are_parts(texts, i);
    let lines = Seq::new(
        10,
        |i: int|
            bucket_line(route, text::fraction(bucket_bounds()[i] as nat, 1000, 3), s.buckets[i]),
    );
    let a = text::joined(lines);
    let b = bucket_line(route, "+Inf"@, s.count);
    let c = route_line(
        "raptor_http_request_duration_seconds_sum{route=\""@,
        route,
        text::fraction(s.sum_ms as nat, 1000, 3),
    );
    let d = route_line(
        "raptor_http_request_duration_seconds_count{route=\""@,
        route,
        text::decimal(s.count as nat),
    );
    let whole = latency_text(route, s);
    let none = Seq::<char>::empty();
    assert(whole == a + b + c + d);
    text::joined_texts_are_parts(lines, k);
    assert(whole =~= none + a + (b + c + d));
    text::parts_stay_parts(lines[k], none, a, b + c + d);
    assert(text::is_part_of(b, whole)) by {
        assert(whole =~= a + b + (c + d));
    }
    assert(text::is_part_of(c, whole)) by {
        assert(whole =~= (a + b) + c + d);
    }
    assert(text::is_part_of(d, whole)) by {
        assert(whole =~= (a + b + c) + d + none);
    }
    lemma_inner_part(lines[k], texts, i);
    lemma_inner_part(b, texts, i);
    lemma_inner_part(c, texts, i);
    lemma_inner_part(d, texts, i);
    lemma_parts_of_exposition(m, pools, uptime, lines[k]);
    lemma_parts_of_exposition(m, pools, uptime, b);
    lemma_parts_of_exposition(m, pools, uptime, c);
    lemma_parts_of_exposition(m, pools, uptime, d);
}

proof fn lemma_inner_part(part: Seq<char>, list: Seq<Seq<char>>, i: int)
    requires
        0 <= i < list.len(),
        text::is_part_of(part, list[i]),
    ensures
        text::is_part_of(part, text::joined(list)),
{
    text::joined_texts_are_parts(list, i);
    let (a, b) = choose|a: Seq<char>, b: Seq<char>|
        text::joined(list) == #[trigger] (a + list[i] + b);
    text::parts_stay_parts(part, a, list[i], b);
}

/// The state of every backend is exposed: 1 or 0 for whether it is healthy, and
/// for whether its circuit is open.
pub proof fn backends_are_exposed(
    m: MetricsView,
    pools: Seq<PoolView>,
    uptime: nat,
    i: int,
    j: int,
)
    requires
        0 <= i < pools.len(),
        0 <= j < pools[i].backends.len(),
    ensures
        ({
            let b = pools[i].backends[j];
            let all = exposition(m, pools, uptime);
            &&& text::is_part_of(
                "raptor_upstream_backend_healthy{upstream=\""@ + pools[i].name + "\",backend=\""@
                    + b.url + "\"} "@ + (if b.healthy {
                    "1"@
                } else {
                    "0"@
                }) + "\n"@,
                all,
            )
            &&& text::is_part_of(
                "raptor_upstream_circuit_open{upstream=\""@ + pools[i].name + "\",backend=\""@
                    + b.url + "\"} "@ + (if b.circuit.state == CircuitState::Open {
                    "1"@
                } else {
                    "0"@
                }) + "\n"@,
                all,
            )
        }),
{
    let health = health_lines(pools[i]);
    let circuits = circuit_lines(pools[i]);
    text::joined_texts_are_parts(health, j);
    text::joined_texts_are_parts(circuits, j);
    assert(health_texts(pools)[i] == text::joined(health));
    assert(circuit_texts(pools)[i] == text::joined(circuits));
    lemma_inner_part(health[j], health_texts(pools), i);
    lemma_inner_part(circuits[j], circuit_texts(pools), i);
    lemma_parts_of_exposition(m, pools, uptime, health[j]);
    lemma_parts_of_exposition(m, pools, uptime, circuits[j]);
}

/// Metrics start with nothing: no requests, failures, rejections or latencies.
pub proof fn metrics_start_with_nothing(clock: Clock, key: KeyView, route: Seq<char>)
    ensures
        ({
            let m = nothing_seen(clock);
            &&& m.total == 0
            &&& !m.requests.contains_key(key)
            &&& !m.failures.contains_key(route)
            &&& !m.rejections.contains_key(route)
            &&& !m.latencies.contains_key(route)
            &&& latencies_of(m, route).count == 0
            &&& latencies_of(m, route).sum_ms == 0
            &&& m.clock == clock
        }),
{
}

/// Requests are listed by method, then by route and then by status.
pub proof fn requests_are_listed_by_method(a: KeyView, b: KeyView)
    ensures
        a.0 != b.0 ==> (<RequestKey as OrderedKey>::before(a, b) <==> text::text_before(a.0, b.0)),
        a.0 == b.0 && a.1 != b.1 ==> (<RequestKey as OrderedKey>::before(a, b)
            <==> text::text_before(a.1, b.1)),
        a.0 == b.0 && a.1 == b.1 ==> (<RequestKey as OrderedKey>::before(a, b) <==> a.2 < b.2),
{
    text::text_before_irreflexive(a.0);
    text::text_before_irreflexive(a.1);
}

} // verus!
