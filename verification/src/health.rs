//! Health checks: what is asked of a backend, how often, and which answers are
//! good.

use crate::balancer;
use crate::balancer::PoolView;
use crate::config::HealthCheckConfig;
use crate::proxy;
use crate::text;
use vstd::prelude::*;

verus! {

/// A number of seconds, but at least one.
pub open spec fn at_least_one(secs: u64) -> u64 {
    if secs == 0 {
        1
    } else {
        secs
    }
}

/// The seconds between two rounds of checks.
pub fn check_interval_secs(config: &HealthCheckConfig) -> (secs: u64)
    ensures
        secs == at_least_one(config.interval_secs),
        secs >= 1,
        config.interval_secs >= 1 ==> secs == config.interval_secs,
        config.interval_secs == 0 ==> secs == 1,
{
    if config.interval_secs == 0 {
        1
    } else {
        config.interval_secs
    }
}

/// The seconds that a backend has to answer a check.
pub fn probe_timeout_secs(config: &HealthCheckConfig) -> (secs: u64)
    ensures
        secs == at_least_one(config.timeout_secs),
        secs >= 1,
        config.timeout_secs >= 1 ==> secs == config.timeout_secs,
        config.timeout_secs == 0 ==> secs == 1,
{
    if config.timeout_secs == 0 {
        1
    } else {
        config.timeout_secs
    }
}

/// What is asked of a backend, if it makes a URI.
pub open spec fn probe_target(base_url: Seq<char>, path: Seq<char>) -> Option<Seq<char>> {
    let uri = text::trimmed_end(base_url, '/') + path;
    if proxy::uri_authority(uri) is Some {
        Some(uri)
    } else {
        None
    }
}

/// The URI that is asked for to check a backend. Where there is none, the check
/// has failed.
pub fn probe_uri(base_url: &str, path: &str) -> (r: Option<String>)
    ensures
        text::opt_text(r) == probe_target(base_url@, path@),
{
    let uri = text::concat2(text::trim_end_of(base_url, '/'), path);
    if proxy::is_uri(uri.as_str()) {
        Some(uri)
    } else {
        None
    }
}

/// How asking a backend has ended.
#[derive(Debug, Clone, Copy, PartialEq, Eq, Structural)]
pub enum ProbeOutcome {
    /// It has answered with this status.
    Status(u16),
    /// It has not answered in time, or could not be asked.
    NoAnswer,
}

/// Whether an answer is good: any status from 200 to 299.
pub open spec fn is_good(outcome: ProbeOutcome) -> bool {
    match outcome {
        ProbeOutcome::Status(s) => 200 <= s < 300,
        ProbeOutcome::NoAnswer => false,
    }
}

/// Whether a check has succeeded.
pub fn probe_succeeded(outcome: ProbeOutcome) -> (r: bool)
    ensures
        r == is_good(outcome),
        outcome matches ProbeOutcome::Status(s) ==> (r <==> s / 100 == 2),
        outcome == ProbeOutcome::NoAnswer ==> !r,
{
    match outcome {
        ProbeOutcome::Status(s) => 200 <= s && s < 300,
        ProbeOutcome::NoAnswer => false,
    }
}

/// A check has succeeded exactly when the backend has answered with a status of
/// the two hundreds. Every other status, and no answer at all, is a failed check.
pub proof fn only_the_two_hundreds_are_good(s: u16)
    ensures
        is_good(ProbeOutcome::Status(s)) <==> s / 100 == 2,
        !is_good(ProbeOutcome::NoAnswer),
{
}

/// A backend is asked at its URL, without the slashes at its end, with the path
/// of the check behind it, if that makes a URI.
pub proof fn probes_ask_for_the_path_at_the_backend(base: Seq<char>, slashes: nat, path: Seq<char>)
    requires
        base.len() > 0 ==> base.last() != '/',
    ensures
        ({
            let url = base + Seq::new(slashes, |i: int| '/');
            probe_target(url, path) == if proxy::uri_authority(base + path) is Some {
                Some(base + path)
            } else {
                None
            }
        }),
{
    text::trimming_takes_the_end_away(base, slashes, '/');
}

/// A backend of which as many checks in a row as the threshold of its upstream
/// says have ended with a status outside the two hundreds, or with no answer, is
/// out of rotation: it is unhealthy, and gets no request.
pub proof fn failed_checks_take_a_backend_out(
    p: PoolView,
    i: int,
    outcomes: Seq<ProbeOutcome>,
    now: int,
    seed: u64,
)
    requires
        balancer::is_sound(p),
        0 <= i < p.backends.len(),
        p.backends[i].healthy,
        p.backends[i].successes == 0,
        p.backends[i].failures == 0,
        outcomes.len() == p.health_check.unhealthy_threshold,
        p.health_check.healthy_threshold > 0,
        outcomes.len() > 0,
        forall|k: int|
            0 <= k < outcomes.len() ==> match #[trigger] outcomes[k] {
                ProbeOutcome::Status(s) => s < 200 || s >= 300,
                ProbeOutcome::NoAnswer => true,
            },
    ensures
        ({
            let results = outcomes.map_values(|o: ProbeOutcome| is_good(o));
            let after = balancer::after_events(p, balancer::checks_of(i, results));
            &&& !after.backends[i].healthy
            &&& balancer::choose_backend(after, now, seed).0 != Some(i)
        }),
{
    let results = outcomes.map_values(|o: ProbeOutcome| is_good(o));
    assert forall|k: int| 0 <= k < results.len() implies !(#[trigger] results[k]) by {
        assert(!is_good(outcomes[k]));
    }
    balancer::failures_in_a_row_take_a_backend_out(p, i, results);
    let after = balancer::after_events(p, balancer::checks_of(i, results));
    balancer::selected_backend_is_available(after, now, seed);
}

} // verus!
