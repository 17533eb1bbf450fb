//! Which route a path belongs to, and the rate limits of the routes.

use crate::clock;
use crate::clock::Clock;
use crate::config::{RateLimitConfig, RouteConfig};
use crate::ratelimit;
use crate::ratelimit::{LimiterView, RateLimiter};
use crate::sorted_map::SortedMap;
use crate::text;
use vstd::prelude::*;

verus! {

/// The length of a path in bytes.
pub open spec fn path_size(path: Seq<char>) -> usize {
    text::utf8(path).len() as usize
}

/// Whether a route for `route_path` serves `path`: the same path, or one below
/// it. A route path without a slash at its end ends a path segment.
pub open spec fn serves(route_path: Seq<char>, path: Seq<char>) -> bool {
    &&& route_path.is_prefix_of(path)
    &&& {
        ||| path.len() == route_path.len()
        ||| route_path.len() > 0 && route_path.last() == '/'
        ||| path[route_path.len() as int] == '/'
    }
}

/// Whether longer paths stand before shorter ones.
pub open spec fn longest_first(routes: Seq<RouteConfig>) -> bool {
    forall|i: int, j: int|
        0 <= i < j < routes.len() ==> path_size((#[trigger] routes[i]).path@) >= path_size(
            (#[trigger] routes[j]).path@,
        )
}

/// The routes with paths of one length, in the order in which they stand.
pub open spec fn of_size(routes: Seq<RouteConfig>, size: usize) -> Seq<RouteConfig> {
    routes.filter(|r: RouteConfig| path_size(r.path@) == size)
}

/// Whether `sorted` holds the routes of `routes`, longer paths first, and
/// those of one length in the order that they had.
pub open spec fn in_matching_order(routes: Seq<RouteConfig>, sorted: Seq<RouteConfig>) -> bool {
    &&& longest_first(sorted)
    &&& forall|size: usize| #[trigger] of_size(sorted, size) == of_size(routes, size)
}

/// Whether the route at place `i` is the first that serves `path`.
pub open spec fn is_first_match(routes: Seq<RouteConfig>, path: Seq<char>, i: int) -> bool {
    &&& 0 <= i < routes.len()
    &&& serves(routes[i].path@, path)
    &&& forall|k: int| 0 <= k < i ==> !serves((#[trigger] routes[k]).path@, path)
}

/// The place of the route that serves `path`: the first that does.
pub open spec fn route_for(routes: Seq<RouteConfig>, path: Seq<char>) -> Option<int> {
    if exists|i: int| is_first_match(routes, path, i) {
        Some(choose|i: int| is_first_match(routes, path, i))
    } else {
        None
    }
}

/// There is one first route that serves a path.
pub proof fn first_match_is_unique(routes: Seq<RouteConfig>, path: Seq<char>, i: int)
    requires
        is_first_match(routes, path, i),
    ensures
        route_for(routes, path) == Some(i),
{
    let c = choose|c: int| is_first_match(routes, path, c);
    if c < i {
        assert(!serves(routes[c].path@, path));
    } else if i < c {
        assert(!serves(routes[i].path@, path));
    }
}

/// The rate limits of the routes, by path. Of two for one path the later
/// stands.
pub open spec fn rate_limits(routes: Seq<RouteConfig>) -> Map<Seq<char>, RateLimitConfig>
    decreases routes.len(),
{
    if routes.len() == 0 {
        Map::empty()
    } else {
        let rest = rate_limits(routes.drop_last());
        match routes.last().rate_limit {
            Some(config) => rest.insert(routes.last().path@, config),
            None => rest,
        }
    }
}

/// Whether there is a limiter that has seen no client for each of the limits.
pub open spec fn fresh_limiters(
    limits: Map<Seq<char>, RateLimitConfig>,
    limiters: Map<Seq<char>, LimiterView>,
    clock: Clock,
) -> bool {
    &&& limiters.dom() == limits.dom()
    &&& forall|path: Seq<char>| #[trigger]
        limiters.contains_key(path) ==> limiters[path] == ratelimit::fresh_limiter(
            limits[path],
            clock,
        )
}

proof fn lemma_of_size_insert(routes: Seq<RouteConfig>, at: int, route: RouteConfig, size: usize)
    requires
        0 <= at <= routes.len(),
        longest_first(routes),
        forall|k: int| 0 <= k < at ==> path_size((#[trigger] routes[k]).path@) > path_size(route.path@),
    ensures
        of_size(routes.insert(at, route), size) == of_size(seq![route] + routes, size),
{
    let pred = |r: RouteConfig| path_size(r.path@) == size;
    let head = routes.take(at);
    let tail = routes.skip(at);
    assert(routes =~= head + tail);
    assert(routes.insert(at, route) =~= head + (seq![route] + tail));
    assert(seq![route] + routes =~= seq![route] + (head + tail));
    Seq::filter_distributes_over_add(head, seq![route] + tail, pred);
    Seq::filter_distributes_over_add(seq![route], tail, pred);
    Seq::filter_distributes_over_add(seq![route], head + tail, pred);
    Seq::filter_distributes_over_add(head, tail, pred);
    if path_size(route.path@) == size {
        lemma_filter_nothing(head, pred);
        assert(head.filter(pred) + (seq![route].filter(pred) + tail.filter(pred)) =~= seq![route].filter(
            pred,
        ) + (head.filter(pred) + tail.filter(pred)));
    } else {
        lemma_filter_nothing(seq![route], pred);
        assert(head.filter(pred) + (seq![route].filter(pred) + tail.filter(pred)) =~= seq![route].filter(
            pred,
        ) + (head.filter(pred) + tail.filter(pred)));
    }
}

proof fn lemma_filter_nothing(routes: Seq<RouteConfig>, pred: spec_fn(RouteConfig) -> bool)
    requires
        forall|i: int| 0 <= i < routes.len() ==> !pred(#[trigger] routes[i]),
    ensures
        routes.filter(pred) == Seq::<RouteConfig>::empty(),
    decreases routes.len(),
{
    reveal(Seq::filter);
    if routes.len() > 0 {
        let rest = routes.drop_last();
        assert forall|i: int| 0 <= i < rest.len() implies !pred(#[trigger] rest[i]) by {
            assert(rest[i] == routes[i]);
        }
        lemma_filter_nothing(rest, pred);
        assert(!pred(routes[routes.len() - 1]));
    }
}

/// The routes, longer paths first.
fn sort_routes(routes: Vec<RouteConfig>) -> (sorted: Vec<RouteConfig>)
    ensures
        in_matching_order(routes@, sorted@),
{
    let ghost all = routes@;
    let mut left = routes;
    let mut sorted: Vec<RouteConfig> = Vec::new();
    assert(all.skip(all.len() as int) =~= sorted@);
    while left.len() > 0
        invariant
            left@.len() <= all.len(),
            left@ == all.take(left@.len() as int),
            in_matching_order(all.skip(left@.len() as int), sorted@),
        decreases left@.len(),
    {
        let ghost done = all.skip(left@.len() as int);
        let ghost n = left@.len() as int;
        let last = left.pop();
        if let Some(route) = last {
            let size: usize = route.path.as_str().len();
            let count: usize = sorted.len();
            let mut at: usize = 0;
            while at < count && sorted[at].path.as_str().len() > size
                invariant
                    at <= count,
                    count == sorted@.len(),
                    forall|k: int|
                        0 <= k < at ==> path_size((#[trigger] sorted@[k]).path@) > size,
                decreases count - at,
            {
                at = at + 1;
            }
            let ghost before = sorted@;
            sorted.insert(at, route);
            proof {
                assert(route == all[n - 1]);
                assert(all.skip(n - 1) =~= seq![route] + done);
                assert forall|s: usize| #[trigger] of_size(sorted@, s) == of_size(all.skip(n - 1), s) by {
                    lemma_of_size_insert(before, at as int, route, s);
                    let pred = |r: RouteConfig| path_size(r.path@) == s;
                    Seq::filter_distributes_over_add(seq![route], before, pred);
                    Seq::filter_distributes_over_add(seq![route], done, pred);
                    assert(of_size(before, s) == of_size(done, s));
                }
                assert(left@ =~= all.take(n - 1));
            }
        }
    }
    assert(all.skip(0) =~= all);
    sorted
}

/// The limiters of a router as its contracts see them.
pub open spec fn limiter_views(limiters: Map<Seq<char>, RateLimiter>) -> Map<
    Seq<char>,
    LimiterView,
> {
    limiters.map_values(|l: RateLimiter| l@)
}

/// The routes in matching order, and the limiters of those that have one.
#[derive(Debug)]
pub struct Router {
    routes: Vec<RouteConfig>,
    rate_limiters: SortedMap<String, RateLimiter>,
    clock: Clock,
}

impl Router {
    /// The routes, in the order in which they are held against a path.
    pub closed spec fn spec_routes(&self) -> Seq<RouteConfig> {
        self.routes@
    }

    /// The rate limiters, by the path of their route.
    pub closed spec fn limiters(&self) -> Map<Seq<char>, LimiterView> {
        limiter_views(self.rate_limiters@)
    }

    /// The clock that the limiters share.
    pub closed spec fn spec_clock(&self) -> Clock {
        self.clock
    }

    /// A router for the routes, and a limiter for each that has a rate limit.
    pub fn new(routes: Vec<RouteConfig>) -> (r: Self)
        ensures
            in_matching_order(routes@, r.spec_routes()),
            fresh_limiters(rate_limits(r.spec_routes()), r.limiters(), r.spec_clock()),
    {
        let clock = Clock::start();
        let routes = sort_routes(routes);
        let mut rate_limiters: SortedMap<String, RateLimiter> = SortedMap::new();
        let n: usize = routes.len();
        let mut i: usize = 0;
        assert(routes@.take(0) =~= Seq::<RouteConfig>::empty());
        assert(limiter_views(rate_limiters@).dom() =~= rate_limits(routes@.take(0)).dom());
        while i < n
            invariant
                i <= n,
                n == routes@.len(),
                fresh_limiters(
                    rate_limits(routes@.take(i as int)),
                    limiter_views(rate_limiters@),
                    clock,
                ),
            decreases n - i,
        {
            let ghost limits = rate_limits(routes@.take(i as int));
            let ghost before = rate_limiters@;
            assert(routes@.take(i + 1).drop_last() =~= routes@.take(i as int));
            assert(routes@.take(i + 1).last() == routes@[i as int]);
            match routes[i].rate_limit {
                Some(config) => {
                    let path = routes[i].path.clone();
                    let limiter = RateLimiter::with_clock(config, clock);
                    rate_limiters.insert(path, limiter);
                    proof {
                        let after = limiter_views(rate_limiters@);
                        assert(after =~= limiter_views(before).insert(path@, limiter@));
                        assert(after.dom() =~= limits.insert(path@, config).dom());
                        assert forall|p: Seq<char>| #[trigger] after.contains_key(p) implies after[p]
                            == ratelimit::fresh_limiter(
                            limits.insert(path@, config)[p],
                            clock,
                        ) by {
                            if p != path@ {
                                assert(limiter_views(before).contains_key(p));
                            }
                        }
                    }
                },
                None => {},
            }
            i = i + 1;
        }
        assert(routes@.take(n as int) =~= routes@);
        Router { routes, rate_limiters, clock }
    }

    /// The route that serves a path: of several the one with the longest path.
    pub fn match_route(&self, path: &str) -> (r: Option<&RouteConfig>)
        ensures
            match r {
                Some(route) => match route_for(self.spec_routes(), path@) {
                    Some(i) => 0 <= i < self.spec_routes().len() && *route
                        == self.spec_routes()[i],
                    None => false,
                },
                None => route_for(self.spec_routes(), path@) is None,
            },
    {
        match self.match_index(path) {
            Some(i) => Some(&self.routes[i]),
            None => None,
        }
    }

    /// The place of the route that `match_route` finds.
    pub fn match_index(&self, path: &str) -> (r: Option<usize>)
        ensures
            match r {
                Some(i) => i < self.spec_routes().len() && route_for(self.spec_routes(), path@)
                    == Some(i as int),
                None => route_for(self.spec_routes(), path@) is None,
            },
    {
        let n: usize = self.routes.len();
        let mut i: usize = 0;
        while i < n
            invariant
                i <= n,
                n == self.routes@.len(),
                forall|k: int| 0 <= k < i ==> !serves((#[trigger] self.routes@[k]).path@, path@),
            decreases n - i,
        {
            if route_serves(self.routes[i].path.as_str(), path) {
                proof {
                    first_match_is_unique(self.routes@, path@, i as int);
                }
                return Some(i);
            }
            i = i + 1;
        }
        assert forall|c: int| !is_first_match(self.routes@, path@, c) by {
            if 0 <= c < n {
                assert(!serves(self.routes@[c].path@, path@));
            }
        }
        None
    }

    /// The rate limiter of a route, if the route has a limit.
    pub fn rate_limiter_for(&mut self, route_path: &str) -> (r: Option<&mut RateLimiter>)
        ensures
            match r {
                Some(limiter) => {
                    &&& old(self).limiters().contains_key(route_path@)
                    &&& limiter@ == old(self).limiters()[route_path@]
                    &&& final(self).limiters() == old(self).limiters().insert(
                        route_path@,
                        final(limiter)@,
                    )
                },
                None => {
                    &&& !old(self).limiters().contains_key(route_path@)
                    &&& final(self).limiters() == old(self).limiters()
                },
            },
            final(self).spec_routes() == old(self).spec_routes(),
            final(self).spec_clock() == old(self).spec_clock(),
    {
        let key = route_path.to_string();
        let n: usize = self.rate_limiters.len();
        match self.rate_limiters.index_of(&key) {
            Some(i) => {
                let ghost before = self.limiters();
                let ghost map = self.rate_limiters@;
                let limiter = self.rate_limiters.value_at_mut(i);
                proof {
                    assert forall|l: RateLimiter| limiter_views(#[trigger] map.insert(key@, l))
                        == before.insert(key@, l@) by {
                        assert(limiter_views(map.insert(key@, l)) =~= before.insert(key@, l@));
                    }
                }
                Some(limiter)
            },
            None => None,
        }
    }

    /// The time on the clock that the limiters share.
    pub fn now(&self) -> (nanos: u128)
        ensures
            clock::is_reading(self.spec_clock(), nanos as int),
    {
        self.clock.now()
    }

    /// All routes, in matching order.
    pub fn routes(&self) -> (r: &Vec<RouteConfig>)
        ensures
            r@ == self.spec_routes(),
    {
        &self.routes
    }
}

/// Whether a route for `route_path` serves `path`.
fn route_serves(route_path: &str, path: &str) -> (r: bool)
    ensures
        r == serves(route_path@, path@),
{
    if !text::starts_with(path, route_path) {
        return false;
    }
    let n: usize = route_path.unicode_len();
    let m: usize = path.unicode_len();
    if n == m {
        return true;
    }
    if n > 0 && route_path.get_char(n - 1) == '/' {
        return true;
    }
    path.get_char(n) == '/'
}

/// A path is served by the route with the longest path among those that serve
/// it.
pub proof fn longest_match_wins(routes: Seq<RouteConfig>, path: Seq<char>, i: int, k: int)
    requires
        longest_first(routes),
        route_for(routes, path) == Some(i),
        0 <= k < routes.len(),
        serves(routes[k].path@, path),
    ensures
        path_size(routes[k].path@) <= path_size(routes[i].path@),
{
    if k < i {
        assert(!serves(routes[k].path@, path));
    }
}

/// Sorting keeps every route and adds none: a path finds a route in the sorted
/// list if and only if one of the configured routes serves it.
pub proof fn sorting_keeps_the_routes(
    routes: Seq<RouteConfig>,
    sorted: Seq<RouteConfig>,
    route: RouteConfig,
)
    requires
        in_matching_order(routes, sorted),
    ensures
        routes.contains(route) <==> sorted.contains(route),
{
    let size = path_size(route.path@);
    let pred = |r: RouteConfig| path_size(r.path@) == size;
    assert(of_size(sorted, size) == of_size(routes, size));
    if routes.contains(route) {
        let i = routes.index_of(route);
        routes.lemma_filter_contains(pred, i);
        assert(sorted.filter(pred).contains(route));
        sorted.lemma_filter_contains_rev(pred, route);
    }
    if sorted.contains(route) {
        let i = sorted.index_of(route);
        sorted.lemma_filter_contains(pred, i);
        assert(routes.filter(pred).contains(route));
        routes.lemma_filter_contains_rev(pred, route);
    }
}

/// A route serves its own path, and what stands below it after a slash.
pub proof fn route_serves_what_is_below(route_path: Seq<char>, rest: Seq<char>)
    ensures
        serves(route_path, route_path),
        serves(route_path, route_path + seq!['/'] + rest),
{
    let below = route_path + seq!['/'] + rest;
    assert(below[route_path.len() as int] == '/');
    assert(route_path =~= below.take(route_path.len() as int));
}

/// A route path without a slash at its end does not serve a path that goes on
/// within the last segment.
pub proof fn route_ends_a_segment(route_path: Seq<char>, next: char, rest: Seq<char>)
    requires
        next != '/',
        route_path.len() > 0 ==> route_path.last() != '/',
    ensures
        !serves(route_path, route_path + seq![next] + rest),
{
    let longer = route_path + seq![next] + rest;
    assert(longer[route_path.len() as int] == next);
}

/// A route serves exactly its own path, what stands below it after a slash, and,
/// where its path ends with a slash, whatever begins with it.
pub proof fn a_route_serves_its_path_and_what_is_below(route_path: Seq<char>, path: Seq<char>)
    ensures
        serves(route_path, path) <==> {
            ||| path == route_path
            ||| (route_path + seq!['/']).is_prefix_of(path)
            ||| route_path.len() > 0 && route_path.last() == '/' && route_path.is_prefix_of(path)
        },
{
    let below = route_path + seq!['/'];
    let n = route_path.len() as int;
    if serves(route_path, path) {
        if path.len() == n {
            assert(path =~= route_path);
        } else if path[n] == '/' {
            assert(below =~= path.subrange(0, below.len() as int));
        }
    }
    if below.is_prefix_of(path) {
        assert(below =~= path.subrange(0, below.len() as int));
        assert(path[n] == below[n]);
        assert(route_path =~= path.subrange(0, n));
    }
    if path == route_path {
        assert(route_path =~= path.subrange(0, n));
    }
}

/// A path has a route exactly when one of the configured routes serves it. The
/// route is one of them, serves the path, and no other that serves the path has a
/// longer path.
pub proof fn a_path_goes_to_the_longest_route(
    routes: Seq<RouteConfig>,
    sorted: Seq<RouteConfig>,
    path: Seq<char>,
)
    requires
        in_matching_order(routes, sorted),
    ensures
        route_for(sorted, path) is Some <==> exists|k: int|
            0 <= k < routes.len() && serves((#[trigger] routes[k]).path@, path),
        match route_for(sorted, path) {
            Some(i) => {
                &&& 0 <= i < sorted.len()
                &&& routes.contains(sorted[i])
                &&& serves(sorted[i].path@, path)
                &&& forall|k: int|
                    0 <= k < routes.len() && serves((#[trigger] routes[k]).path@, path)
                        ==> path_size(routes[k].path@) <= path_size(sorted[i].path@)
            },
            None => true,
        },
{
    assert forall|k: int|
        0 <= k < routes.len() && serves((#[trigger] routes[k]).path@, path) implies route_for(
        sorted,
        path,
    ) is Some && path_size(routes[k].path@) <= path_size(
        sorted[route_for(sorted, path)->0].path@,
    ) by {
        sorting_keeps_the_routes(routes, sorted, routes[k]);
        assert(routes.contains(routes[k]));
        let c = sorted.index_of(routes[k]);
        assert(serves(sorted[c].path@, path));
        lemma_some_match(sorted, path, c);
        let i = route_for(sorted, path)->0;
        longest_match_wins(sorted, path, i, c);
    }
    if let Some(i) = route_for(sorted, path) {
        assert(is_first_match(sorted, path, i));
        assert(sorted.contains(sorted[i]));
        sorting_keeps_the_routes(routes, sorted, sorted[i]);
        let k = routes.index_of(sorted[i]);
        assert(serves(routes[k].path@, path));
    }
}

/// Where a route serves a path, there is a first that does.
proof fn lemma_some_match(routes: Seq<RouteConfig>, path: Seq<char>, c: int)
    requires
        0 <= c < routes.len(),
        serves(routes[c].path@, path),
    ensures
        route_for(routes, path) is Some,
        is_first_match(routes, path, route_for(routes, path)->0),
    decreases c,
{
    if forall|k: int| 0 <= k < c ==> !serves((#[trigger] routes[k]).path@, path) {
        assert(is_first_match(routes, path, c));
    } else {
        let k = choose|k: int| 0 <= k < c && serves((#[trigger] routes[k]).path@, path);
        lemma_some_match(routes, path, k);
    }
}

/// Of the configured routes that serve a path, the one that the path goes to has
/// the longest path, counted in characters as well.
pub proof fn no_longer_route_serves_the_path(
    routes: Seq<RouteConfig>,
    sorted: Seq<RouteConfig>,
    path: Seq<char>,
    i: int,
    k: int,
)
    requires
        in_matching_order(routes, sorted),
        vstd::utf8::encode_utf8(path).len() <= usize::MAX,
        route_for(sorted, path) == Some(i),
        0 <= k < routes.len(),
        serves(routes[k].path@, path),
    ensures
        0 <= i < sorted.len(),
        routes[k].path@.len() <= sorted[i].path@.len(),
{
    a_path_goes_to_the_longest_route(routes, sorted, path);
    let a = routes[k].path@;
    let b = sorted[i].path@;
    assert(path_size(a) <= path_size(b));
    text::prefixes_have_fewer_bytes(a, path);
    text::prefixes_have_fewer_bytes(b, path);
    if b.len() < a.len() {
        assert(b =~= a.subrange(0, b.len() as int)) by {
            assert forall|m: int| 0 <= m < b.len() implies b[m] == a[m] by {
                assert(b[m] == path[m] && a[m] == path[m]);
            }
        }
        text::prefixes_have_fewer_bytes(b, a);
    }
}

/// A path has a rate limit exactly when a route for it has one, and it is that
/// of the last of them.
pub proof fn rate_limits_are_those_of_the_routes(routes: Seq<RouteConfig>, path: Seq<char>)
    ensures
        rate_limits(routes).contains_key(path) <==> exists|k: int|
            0 <= k < routes.len() && (#[trigger] routes[k]).path@ == path
                && routes[k].rate_limit is Some,
        forall|k: int|
            {
                &&& 0 <= k < routes.len()
                &&& (#[trigger] routes[k]).path@ == path
                &&& routes[k].rate_limit is Some
                &&& forall|l: int|
                    k < l < routes.len() && (#[trigger] routes[l]).path@ == path
                        ==> routes[l].rate_limit is None
            } ==> rate_limits(routes)[path] == routes[k].rate_limit->0,
    decreases routes.len(),
{
    if routes.len() > 0 {
        let rest = routes.drop_last();
        let last = routes.len() - 1;
        rate_limits_are_those_of_the_routes(rest, path);
        assert(forall|k: int| 0 <= k < last ==> #[trigger] rest[k] == routes[k]);
        if rate_limits(rest).contains_key(path) {
            let k = choose|k: int|
                0 <= k < rest.len() && (#[trigger] rest[k]).path@ == path && rest[k].rate_limit
                    is Some;
            assert(routes[k].path@ == path);
        }
        if rate_limits(routes).contains_key(path) && !rate_limits(rest).contains_key(path) {
            assert(routes[last].path@ == path);
        }
        if exists|k: int|
            0 <= k < routes.len() && (#[trigger] routes[k]).path@ == path && routes[k].rate_limit
                is Some {
            let k = choose|k: int|
                0 <= k < routes.len() && (#[trigger] routes[k]).path@ == path
                    && routes[k].rate_limit is Some;
            if k < last {
                assert(rest[k].path@ == path);
            }
        }
        assert forall|k: int|
            {
                &&& 0 <= k < routes.len()
                &&& (#[trigger] routes[k]).path@ == path
                &&& routes[k].rate_limit is Some
                &&& forall|l: int|
                    k < l < routes.len() && (#[trigger] routes[l]).path@ == path
                        ==> routes[l].rate_limit is None
            } implies rate_limits(routes)[path] == routes[k].rate_limit->0 by {
            if k < last {
                assert(rest[k].path@ == path);
                assert forall|l: int| k < l < rest.len() && (#[trigger] rest[l]).path@ == path implies rest[l].rate_limit
                    is None by {
                    assert(routes[l].path@ == path);
                }
                if routes[last].path@ == path {
                    assert(routes[last].rate_limit is None);
                }
            }
        }
    }
}

/// Of the routes with paths of one length, the first with a path stays the first
/// with it.
proof fn lemma_first_in_filter(routes: Seq<RouteConfig>, path: Seq<char>, k: int) -> (j: int)
    requires
        0 <= k < routes.len(),
        routes[k].path@ == path,
        forall|l: int| 0 <= l < k ==> (#[trigger] routes[l]).path@ != path,
    ensures
        0 <= j < of_size(routes, path_size(path)).len(),
        of_size(routes, path_size(path))[j] == routes[k],
        forall|l: int|
            0 <= l < j ==> (#[trigger] of_size(routes, path_size(path))[l]).path@ != path,
    decreases routes.len(),
{
    reveal(Seq::filter);
    let size = path_size(path);
    let rest = routes.drop_last();
    let last = routes.len() - 1;
    let before = of_size(rest, size);
    let after = of_size(routes, size);
    if k < last {
        assert(rest[k] == routes[k]);
        assert(forall|l: int| 0 <= l < k ==> #[trigger] rest[l] == routes[l]);
        let j = lemma_first_in_filter(rest, path, k);
        assert forall|l: int| 0 <= l < j implies (#[trigger] after[l]).path@ != path by {
            assert(after[l] == before[l]);
        }
        j
    } else {
        assert forall|l: int| 0 <= l < before.len() implies (#[trigger] after[l]).path@ != path by {
            let pred = |r: RouteConfig| path_size(r.path@) == size;
            assert(after[l] == before[l]);
            assert(rest.filter(pred).contains(before[l]));
            rest.lemma_filter_contains_rev(pred, before[l]);
            let c = rest.index_of(before[l]);
            assert(rest[c] == routes[c]);
        }
        before.len() as int
    }
}

/// Of several configured routes with the same path, a path goes to the first.
pub proof fn the_first_of_equal_routes_is_taken(
    routes: Seq<RouteConfig>,
    sorted: Seq<RouteConfig>,
    path: Seq<char>,
    i: int,
    k: int,
)
    requires
        in_matching_order(routes, sorted),
        route_for(sorted, path) == Some(i),
        0 <= k < routes.len(),
        routes[k].path@ == sorted[i].path@,
        forall|l: int| 0 <= l < k ==> (#[trigger] routes[l]).path@ != sorted[i].path@,
    ensures
        sorted[i] == routes[k],
{
    assert(is_first_match(sorted, path, i));
    let taken = sorted[i].path@;
    let size = path_size(taken);
    assert forall|l: int| 0 <= l < i implies (#[trigger] sorted[l]).path@ != taken by {
        assert(!serves(sorted[l].path@, path));
    }
    let a = lemma_first_in_filter(routes, taken, k);
    let b = lemma_first_in_filter(sorted, taken, i);
    assert(of_size(sorted, size) == of_size(routes, size));
    if a < b {
        assert(of_size(sorted, size)[a].path@ != taken);
    } else if b < a {
        assert(of_size(routes, size)[b].path@ != taken);
    }
}

/// Every route with a rate limit has a limiter of its own under its path, with
/// that limit and without any client yet. Of several for one path the limit of
/// the last stands. A path without one has no limiter.
pub proof fn limited_routes_have_their_limiter(
    routes: Seq<RouteConfig>,
    limiters: Map<Seq<char>, LimiterView>,
    clock: Clock,
    path: Seq<char>,
    k: int,
    client: Seq<char>,
)
    requires
        fresh_limiters(rate_limits(routes), limiters, clock),
    ensures
        limiters.contains_key(path) <==> exists|l: int|
            0 <= l < routes.len() && (#[trigger] routes[l]).path@ == path
                && routes[l].rate_limit is Some,
        0 <= k < routes.len() && routes[k].path@ == path && routes[k].rate_limit is Some && (
        forall|l: int|
            k < l < routes.len() && (#[trigger] routes[l]).path@ == path ==> routes[l].rate_limit
                is None) ==> {
            &&& limiters.contains_key(path)
            &&& limiters[path].config == routes[k].rate_limit->0
            &&& !limiters[path].buckets.contains_key(client)
        },
{
    rate_limits_are_those_of_the_routes(routes, path);
    assert(limiters.contains_key(path) <==> rate_limits(routes).contains_key(path)) by {
        assert(limiters.dom().contains(path) <==> rate_limits(routes).dom().contains(path));
    }
}

} // verus!
