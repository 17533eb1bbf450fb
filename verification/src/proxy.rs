//! What the gateway does with a request: where it goes, who may send it, what
//! is sent on to a backend, and what is tried again when a backend fails.

use crate::auth;
use crate::auth::AuthError;
use crate::balancer;
use crate::balancer::{ConnectionGuard, PoolView, UpstreamManager, UpstreamPool};
use crate::circuit;
use crate::circuit::CircuitState;
use crate::clock;
use crate::config;
use crate::config::{
    AuthConfig, Config, ConfigError, LoadBalancerStrategy, RetryConfig, RouteConfig,
};
use crate::counts;
use crate::headers;
use crate::json;
use crate::metrics;
use crate::metrics::{Metrics, MetricsView};
use crate::ratelimit;
use crate::ratelimit::LimiterView;
use crate::router;
use crate::router::Router;
use crate::text;
use axum::http::{HeaderMap, HeaderValue};
use vstd::prelude::*;

verus! {

/// The methods of requests that may be sent again: sending them twice does what
/// sending them once does.
pub open spec fn is_idempotent(method: Seq<char>) -> bool {
    ||| method == "GET"@
    ||| method == "HEAD"@
    ||| method == "OPTIONS"@
    ||| method == "PUT"@
    ||| method == "DELETE"@
}

/// Whether a request with this method may be sent again.
pub fn is_retryable_method(method: &str) -> (r: bool)
    ensures
        r == is_idempotent(method@),
        r <==> method@ == "GET"@ || method@ == "HEAD"@ || method@ == "OPTIONS"@ || method@
            == "PUT"@ || method@ == "DELETE"@,
{
    text::same_text(method, "GET") || text::same_text(method, "HEAD") || text::same_text(
        method,
        "OPTIONS",
    ) || text::same_text(method, "PUT") || text::same_text(method, "DELETE")
}

/// The names of the headers that speak of one connection only.
pub open spec fn hop_by_hop() -> Seq<Seq<char>> {
    seq![
        "connection"@,
        "keep-alive"@,
        "proxy-authenticate"@,
        "proxy-authorization"@,
        "te"@,
        "trailers"@,
        "transfer-encoding"@,
        "upgrade"@,
    ]
}

/// Header lines without those of the listed names.
pub open spec fn without(lines: Map<Seq<char>, Seq<Seq<u8>>>, names: Seq<Seq<char>>) -> Map<
    Seq<char>,
    Seq<Seq<u8>>,
>
    decreases names.len(),
{
    if names.len() == 0 {
        lines
    } else {
        without(lines, names.drop_last()).remove(names.last())
    }
}

/// Whether a text may be a header value.
pub open spec fn fits_header(s: Seq<char>) -> bool {
    forall|i: int|
        0 <= i < text::utf8(s).len() ==> headers::is_value_byte(#[trigger] text::utf8(s)[i])
}

/// Header lines with one value under `name`, if the text may be one.
pub open spec fn with_text(
    lines: Map<Seq<char>, Seq<Seq<u8>>>,
    name: Seq<char>,
    value: Seq<char>,
) -> Map<Seq<char>, Seq<Seq<u8>>> {
    if fits_header(value) {
        lines.insert(name, seq![text::utf8(value)])
    } else {
        lines
    }
}

/// The chain of clients with one more at its end.
pub open spec fn forwarded_for(lines: Map<Seq<char>, Seq<Seq<u8>>>, ip: Seq<char>) -> Seq<char> {
    match headers::header_text(lines, "x-forwarded-for"@) {
        Some(chain) => chain + ", "@ + ip,
        None => ip,
    }
}

/// The header lines of a request as they are sent on, but for those that are
/// set for each backend.
pub open spec fn augmented(
    lines: Map<Seq<char>, Seq<Seq<u8>>>,
    client_ip: Option<Seq<char>>,
    scheme: Seq<char>,
) -> Map<Seq<char>, Seq<Seq<u8>>> {
    let kept = without(lines, hop_by_hop());
    let chained = match client_ip {
        Some(ip) => with_text(kept, "x-forwarded-for"@, forwarded_for(kept, ip)),
        None => kept,
    };
    with_text(chained, "x-forwarded-proto"@, scheme)
}

proof fn lemma_room_after_removal(before: HeaderMap, after: HeaderMap, name: Seq<char>, more: int)
    requires
        headers::has_room(before, more),
        headers::header_lines(after) == headers::header_lines(before).remove(name),
    ensures
        headers::has_room(after, more),
{
    let a = headers::header_lines(before).dom();
    assert(headers::header_lines(after).dom() =~= a.remove(name));
}

proof fn lemma_room_after_insertion(
    before: HeaderMap,
    after: HeaderMap,
    name: Seq<char>,
    value: Seq<Seq<u8>>,
    more: int,
)
    requires
        headers::has_room(before, more),
        headers::header_lines(after) == headers::header_lines(before).insert(name, value),
    ensures
        headers::has_room(after, more - 1),
{
    let a = headers::header_lines(before).dom();
    assert(headers::header_lines(after).dom() =~= a.insert(name));
}

/// Puts a text under a name, if it may be a header value. Fails where the
/// headers are full.
fn set_header(headers: &mut HeaderMap, name: &'static str, value: &str) -> (r: bool)
    requires
        headers::is_plain_name(name@),
    ensures
        headers::header_lines(*final(headers)) == if r {
            with_text(headers::header_lines(*old(headers)), name@, value@)
        } else {
            headers::header_lines(*old(headers))
        },
        headers::has_room(*old(headers), 1) ==> r,
        forall|more: int|
            r && headers::has_room(*old(headers), more) ==> #[trigger] headers::has_room(
                *final(headers),
                more - 1,
            ),
{
    match HeaderValue::from_str(value) {
        Ok(v) => {
            let ghost bytes = headers::value_bytes(v);
            let r = headers::try_replace_lines(headers, name, v);
            proof {
                let before = headers::header_lines(*old(headers));
                if r && before.dom().finite() {
                    assert(before.insert(name@, seq![bytes]).dom() =~= before.dom().insert(name@));
                }
            }
            r
        },
        Err(_) => true,
    }
}

/// Takes away the headers that speak of the connection of the client, and says
/// in `x-forwarded-for` and `x-forwarded-proto` where the request came from.
/// Fails where the headers are full, with only a part of that done.
pub fn sanitize_and_augment_headers(
    headers: &mut HeaderMap,
    client_ip: Option<&str>,
    scheme: &str,
) -> (done: bool)
    ensures
        ({
            let lines = headers::header_lines(*old(headers));
            let kept = without(lines, hop_by_hop());
            let sent = headers::header_lines(*final(headers));
            if done {
                sent == augmented(lines, auth::opt_str(client_ip), scheme@)
            } else {
                sent == kept || client_ip is Some && sent == with_text(
                    kept,
                    "x-forwarded-for"@,
                    forwarded_for(kept, client_ip->0@),
                )
            }
        }),
        headers::has_room(*old(headers), 2) ==> done,
        forall|more: int|
            done && headers::has_room(*old(headers), more) ==> #[trigger] headers::has_room(
                *final(headers),
                more - 2,
            ),
{
    let ghost lines = headers::header_lines(*headers);
    proof {
        lemma_hop_by_hop_names();
        assert(hop_by_hop()[0] == "connection"@);
        assert(hop_by_hop()[1] == "keep-alive"@);
        assert(hop_by_hop()[2] == "proxy-authenticate"@);
        assert(hop_by_hop()[3] == "proxy-authorization"@);
        assert(hop_by_hop()[4] == "te"@);
        assert(hop_by_hop()[5] == "trailers"@);
        assert(hop_by_hop()[6] == "transfer-encoding"@);
        assert(hop_by_hop()[7] == "upgrade"@);
    }
    headers::remove_lines(headers, "connection");
    headers::remove_lines(headers, "keep-alive");
    headers::remove_lines(headers, "proxy-authenticate");
    headers::remove_lines(headers, "proxy-authorization");
    headers::remove_lines(headers, "te");
    headers::remove_lines(headers, "trailers");
    headers::remove_lines(headers, "transfer-encoding");
    headers::remove_lines(headers, "upgrade");
    proof {
        lemma_hop_by_hop(lines);
        lemma_plain_names();
        lemma_room_without(lines, hop_by_hop());
    }
    let ghost kept = *headers;
    if let Some(ip) = client_ip {
        let chain = match headers::text_of_header(headers, "x-forwarded-for") {
            Some(existing) => text::concat3(existing.as_str(), ", ", ip),
            None => ip.to_string(),
        };
        if !set_header(headers, "x-forwarded-for", chain.as_str()) {
            return false;
        }
    }
    let ghost chained = *headers;
    proof {
        assert forall|more: int| headers::has_room(*old(headers), more) implies
            #[trigger] headers::has_room(chained, more - 1) by {
            assert(headers::has_room(kept, more));
        }
    }
    let done = set_header(headers, "x-forwarded-proto", scheme);
    proof {
        if headers::has_room(*old(headers), 2) {
            assert(headers::has_room(chained, 2 - 1));
        }
        assert forall|more: int| done && headers::has_room(*old(headers), more) implies
            #[trigger] headers::has_room(*headers, more - 2) by {
            assert(headers::has_room(chained, more - 1));
            assert(headers::has_room(*headers, (more - 1) - 1));
        }
    }
    done
}

/// Taking names away leaves no less room.
proof fn lemma_room_without(lines: Map<Seq<char>, Seq<Seq<u8>>>, names: Seq<Seq<char>>)
    ensures
        forall|more: int|
            headers::leaves_room(lines, more) ==> #[trigger] headers::leaves_room(
                without(lines, names),
                more,
            ),
    decreases names.len(),
{
    if names.len() > 0 {
        let rest = without(lines, names.drop_last());
        lemma_room_without(lines, names.drop_last());
        assert(without(lines, names).dom() =~= rest.dom().remove(names.last()));
        assert forall|more: int| headers::leaves_room(lines, more) implies
            #[trigger] headers::leaves_room(without(lines, names), more) by {
            assert(headers::leaves_room(rest, more));
        }
    }
}

/// Taking away one name after the other is taking all of them away.
proof fn lemma_hop_by_hop(lines: Map<Seq<char>, Seq<Seq<u8>>>)
    ensures
        without(lines, hop_by_hop()) == lines.remove("connection"@).remove("keep-alive"@).remove(
            "proxy-authenticate"@,
        ).remove("proxy-authorization"@).remove("te"@).remove("trailers"@).remove(
            "transfer-encoding"@,
        ).remove("upgrade"@),
{
    let names = hop_by_hop();
    reveal_with_fuel(without, 9);
    assert(names.drop_last().drop_last().drop_last().drop_last().drop_last().drop_last().drop_last().drop_last()
        =~= Seq::<Seq<char>>::empty());
}

proof fn lemma_plain_names()
    ensures
        headers::is_plain_name("x-forwarded-for"@),
        headers::is_plain_name("x-forwarded-proto"@),
        headers::is_plain_name("x-forwarded-host"@),
        headers::is_plain_name("x-request-id"@),
        headers::is_plain_name("host"@),
{
    reveal_strlit("x-forwarded-for");
    reveal_strlit("x-forwarded-proto");
    reveal_strlit("x-forwarded-host");
    reveal_strlit("x-request-id");
    reveal_strlit("host");
}

/// The authority of a URI, if it has one; nothing where the text is no URI.
pub uninterp spec fn uri_authority(uri: Seq<char>) -> Option<Option<Seq<char>>>;

/// An authority that may be missing, as its characters.
pub open spec fn authority_view(a: Option<Option<String>>) -> Option<Option<Seq<char>>> {
    match a {
        Some(a) => Some(text::opt_text(a)),
        None => None,
    }
}

/// `Uri::from_str` and `Uri::authority` of the `http` crate: reads a URI and
/// hands out its authority. What the authority of a text is is named.
#[verifier::external_body]
fn authority_of(uri: &str) -> (r: Option<Option<String>>)
    ensures
        authority_view(r) == uri_authority(uri@),
{
    let read: Option<axum::http::Uri> = uri.parse().ok();
    read.map(|u| u.authority().map(|a| a.as_str().to_string()))
}

/// Whether a text is a URI.
pub fn is_uri(uri: &str) -> (r: bool)
    ensures
        r == (uri_authority(uri@) is Some),
{
    authority_of(uri).is_some()
}

/// Whether a character is a hexadecimal digit, in lower case.
pub open spec fn is_hex_digit(c: char) -> bool {
    ('0' <= c && c <= '9') || ('a' <= c && c <= 'f')
}

/// Whether a text is a random UUID (version 4) in its usual notation: groups of
/// 8, 4, 4, 4 and 12 hexadecimal digits with hyphens between them, of which one
/// tells the version and one the variant.
pub open spec fn is_uuid_text(s: Seq<char>) -> bool {
    &&& s.len() == 36
    &&& forall|i: int|
        0 <= i < s.len() ==> if i == 8 || i == 13 || i == 18 || i == 23 {
            #[trigger] s[i] == '-'
        } else {
            is_hex_digit(s[i])
        }
    &&& s[14] == '4'
    &&& s[19] == '8' || s[19] == '9' || s[19] == 'a' || s[19] == 'b'
}

/// `Uuid::new_v4`, written as a text by `Uuid::to_string`: a random UUID. Which
/// one is left open. It panics where the system has no random bytes to give.
#[verifier::external_body]
fn random_uuid() -> (id: String)
    ensures
        is_uuid_text(id@),
{
    uuid::Uuid::new_v4().to_string()
}

/// An id for a request, which goes with it to the backend.
pub fn new_request_id() -> (id: String)
    ensures
        is_uuid_text(id@),
        fits_header(id@),
{
    let id = random_uuid();
    proof {
        uuid_fits_header(id@);
    }
    id
}

/// A UUID may be a header value.
pub proof fn uuid_fits_header(s: Seq<char>)
    requires
        is_uuid_text(s),
    ensures
        fits_header(s),
{
    assert(vstd::utf8::is_ascii_chars(s));
    vstd::utf8::is_ascii_chars_encode_utf8(s);
    assert forall|i: int| 0 <= i < text::utf8(s).len() implies headers::is_value_byte(
        #[trigger] text::utf8(s)[i],
    ) by {
        assert(text::utf8(s)[i] == s[i] as u8);
    }
}

/// Why an attempt against a backend has failed.
#[derive(Debug, Clone, Copy, PartialEq, Eq, Structural)]
pub enum AttemptFailure {
    NoBackendAvailable,
    Timeout,
    ConnectError,
}

/// The URI of a request at a backend.
pub open spec fn backend_uri(backend_url: Seq<char>, path_and_query: Option<Seq<char>>) -> Seq<char> {
    text::trimmed_end(backend_url, '/') + match path_and_query {
        Some(p) => p,
        None => "/"@,
    }
}

/// Header lines with the authority of the backend for a host, if it has one.
pub open spec fn with_host(lines: Map<Seq<char>, Seq<Seq<u8>>>, authority: Seq<char>) -> Map<
    Seq<char>,
    Seq<Seq<u8>>,
> {
    if authority.len() > 0 {
        headers::with_line(lines, "host"@, text::utf8(authority))
    } else {
        lines
    }
}

/// Header lines with the host that the client has asked for, if it has and it
/// may be a header value.
pub open spec fn with_forwarded_host(
    lines: Map<Seq<char>, Seq<Seq<u8>>>,
    host: Option<Seq<char>>,
) -> Map<Seq<char>, Seq<Seq<u8>>> {
    match host {
        Some(h) => if fits_header(h) {
            headers::with_line(lines, "x-forwarded-host"@, text::utf8(h))
        } else {
            lines
        },
        None => lines,
    }
}

/// The header lines that a backend gets: those of the client but for its host,
/// the authority of the backend for a host, the host that the client has asked
/// for, and the id of the request.
pub open spec fn forwarded_lines(
    lines: Map<Seq<char>, Seq<Seq<u8>>>,
    authority: Seq<char>,
    original_host: Option<Seq<char>>,
    request_id: Seq<char>,
) -> Map<Seq<char>, Seq<Seq<u8>>> {
    headers::with_line(
        with_forwarded_host(
            with_host(lines.remove("host"@), authority),
            original_host,
        ),
        "x-request-id"@,
        text::utf8(request_id),
    )
}

/// The authority that goes into the host header of a request to `uri`.
pub open spec fn host_for(uri: Seq<char>) -> Seq<char> {
    match uri_authority(uri) {
        Some(Some(a)) => a,
        _ => Seq::empty(),
    }
}

/// Whether a request can be made of a URI and an id.
pub open spec fn can_forward(uri: Seq<char>, request_id: Seq<char>) -> bool {
    &&& uri_authority(uri) is Some
    &&& fits_header(host_for(uri))
    &&& fits_header(request_id)
}

/// What is sent to a backend.
#[derive(Debug)]
pub struct Forward {
    pub uri: String,
    pub headers: HeaderMap,
}

/// Adds a text under a name. Fails where it may not be a header value, or the
/// headers are full.
fn add_header(headers: &mut HeaderMap, name: &'static str, value: &str, Ghost(more): Ghost<int>) -> (r:
    bool)
    requires
        headers::is_plain_name(name@),
        more >= 1,
    ensures
        r ==> fits_header(value@) && headers::header_lines(*final(headers)) == headers::with_line(
            headers::header_lines(*old(headers)),
            name@,
            text::utf8(value@),
        ),
        fits_header(value@) && headers::has_room(*old(headers), more) ==> r && headers::has_room(
            *final(headers),
            more - 1,
        ),
{
    match HeaderValue::from_str(value) {
        Ok(v) => {
            let ghost bytes = headers::value_bytes(v);
            let r = headers::try_add_line(headers, name, v);
            proof {
                if r && headers::has_room(*old(headers), more) {
                    let lines = headers::header_lines(*old(headers));
                    lemma_room_after_insertion(
                        *old(headers),
                        *headers,
                        name@,
                        headers::lines_under(lines, name@).push(bytes),
                        more,
                    );
                }
            }
            r
        },
        Err(_) => false,
    }
}

/// What is sent to a backend for a request. It fails where the URL of the
/// backend makes no URI, and may fail where the headers are full.
pub fn plan_forward(
    backend_url: &str,
    path_and_query: Option<&str>,
    headers: &HeaderMap,
    original_host: Option<&str>,
    request_id: &str,
) -> (r: Result<Forward, AttemptFailure>)
    ensures
        ({
            let uri = backend_uri(backend_url@, auth::opt_str(path_and_query));
            &&& match r {
                Ok(f) => {
                    &&& can_forward(uri, request_id@)
                    &&& f.uri@ == uri
                    &&& headers::header_lines(f.headers) == forwarded_lines(
                        headers::header_lines(*headers),
                        host_for(uri),
                        auth::opt_str(original_host),
                        request_id@,
                    )
                },
                Err(e) => e == AttemptFailure::ConnectError,
            }
            &&& can_forward(uri, request_id@) && headers::has_room(*headers, 3) ==> r is Ok
        }),
{
    proof {
        lemma_plain_names();
    }
    let uri = text::concat2(
        text::trim_end_of(backend_url, '/'),
        match path_and_query {
            Some(p) => p,
            None => "/",
        },
    );
    let authority = match authority_of(uri.as_str()) {
        Some(Some(a)) => a,
        Some(None) => String::new(),
        None => {
            return Err(AttemptFailure::ConnectError);
        },
    };
    assert(authority@ =~= host_for(uri@));
    let mut sent = headers::copy_headers(headers);
    headers::remove_lines(&mut sent, "host");
    proof {
        if headers::has_room(*headers, 3) {
            lemma_room_after_removal(*headers, sent, "host"@, 3);
        }
    }
    if authority.as_str().unicode_len() > 0 {
        if !add_header(&mut sent, "host", authority.as_str(), Ghost(3)) {
            return Err(AttemptFailure::ConnectError);
        }
    } else {
        proof {
            assert(authority@ =~= Seq::<char>::empty());
            lemma_empty_fits();
        }
    }
    if let Some(host) = original_host {
        match HeaderValue::from_str(host) {
            Ok(_) => {
                if !add_header(&mut sent, "x-forwarded-host", host, Ghost(2)) {
                    return Err(AttemptFailure::ConnectError);
                }
            },
            Err(_) => {},
        }
    }
    if !add_header(&mut sent, "x-request-id", request_id, Ghost(1)) {
        return Err(AttemptFailure::ConnectError);
    }
    Ok(Forward { uri, headers: sent })
}

proof fn lemma_empty_fits()
    ensures
        fits_header(Seq::<char>::empty()),
{
}

/// A request that the gateway answers itself.
#[derive(Debug)]
pub struct Refusal {
    pub status: u16,
    pub message: String,
    /// What the request is counted under.
    pub route: String,
    /// Whether a rate limit has turned the request away.
    pub over_limit: bool,
    /// Whether the request is counted at all.
    pub counted: bool,
}

/// A refusal as the contracts see it.
pub struct RefusalView {
    pub status: u16,
    pub message: Seq<char>,
    pub route: Seq<char>,
    pub over_limit: bool,
    pub counted: bool,
}

impl View for Refusal {
    type V = RefusalView;

    open spec fn view(&self) -> RefusalView {
        RefusalView {
            status: self.status,
            message: self.message@,
            route: self.route@,
            over_limit: self.over_limit,
            counted: self.counted,
        }
    }
}

/// A refusal that is counted and has nothing to do with a rate limit.
pub open spec fn refusal(status: u16, message: Seq<char>, route: Seq<char>) -> RefusalView {
    RefusalView { status, message, route, over_limit: false, counted: true }
}

/// A refusal that is counted and has nothing to do with a rate limit.
fn refuse(status: u16, message: &str, route: &str) -> (r: Refusal)
    ensures
        r@ == refusal(status, message@, route@),
{
    Refusal {
        status,
        message: message.to_string(),
        route: route.to_string(),
        over_limit: false,
        counted: true,
    }
}

/// What becomes of the credentials of a request, at `now` seconds.
pub open spec fn auth_outcome(
    config: AuthConfig,
    lines: Map<Seq<char>, Seq<Seq<u8>>>,
    now: i64,
) -> Result<(), AuthError> {
    match config {
        AuthConfig::ApiKey { header, keys } => auth::api_key_outcome(
            headers::header_text(lines, header@),
            text::texts(keys@),
        ),
        AuthConfig::Jwt { secret, issuer, audience } => auth::jwt_outcome(
            lines,
            secret@,
            text::opt_text(issuer),
            text::opt_text(audience),
            now,
        ),
    }
}

/// A text that may be missing, borrowed.
pub(crate) fn borrowed(s: &Option<String>) -> (r: Option<&str>)
    ensures
        auth::opt_str(r) == text::opt_text(*s),
{
    match s {
        Some(s) => Some(s.as_str()),
        None => None,
    }
}

/// Whether a request shows the credentials that a route asks for.
pub fn check_auth(auth_config: &AuthConfig, headers: &HeaderMap) -> (r: Result<(), AuthError>)
    ensures
        exists|now: i64|
            clock::is_unix_seconds(now) && r == #[trigger] auth_outcome(
                *auth_config,
                headers::header_lines(*headers),
                now,
            ),
{
    let now: i64 = clock::unix_seconds();
    check_auth_at(auth_config, headers, now)
}

/// `check_auth` at `now` seconds since the Unix epoch.
pub fn check_auth_at(auth_config: &AuthConfig, headers: &HeaderMap, now: i64) -> (r: Result<
    (),
    AuthError,
>)
    ensures
        r == auth_outcome(*auth_config, headers::header_lines(*headers), now),
        r is Ok <==> shows_credentials(*auth_config, headers::header_lines(*headers), now),
{
    proof {
        credentials_are_those_of_the_route(*auth_config, headers::header_lines(*headers), now);
    }
    match auth_config {
        AuthConfig::ApiKey { header, keys } => auth::verify_api_key(
            headers,
            header.as_str(),
            keys.as_slice(),
        ),
        AuthConfig::Jwt { secret, issuer, audience } => auth::verify_jwt_at(
            headers,
            secret.as_str(),
            borrowed(issuer),
            borrowed(audience),
            now,
        ),
    }
}

/// Whom a rate limit counts a request for. Clients without an address share a
/// bucket.
pub open spec fn client_id(client_ip: Option<Seq<char>>) -> Seq<char> {
    match client_ip {
        Some(ip) => ip,
        None => "unknown"@,
    }
}

/// Whether the rate limit of a route lets a request through, and the limiters
/// behind it.
pub open spec fn limit(
    route: RouteConfig,
    limiters: Map<Seq<char>, LimiterView>,
    client_ip: Option<Seq<char>>,
    now: int,
) -> (bool, Map<Seq<char>, LimiterView>) {
    if route.rate_limit is Some && limiters.contains_key(route.path@) {
        let (passed, limiter) = ratelimit::pass(
            limiters[route.path@],
            client_id(client_ip),
            now,
        );
        (passed, limiters.insert(route.path@, limiter))
    } else {
        (true, limiters)
    }
}

/// Where a request goes: the place of its route and that of its upstream.
pub struct Target {
    pub route: int,
    pub upstream: int,
}

/// What is decided of a request before its body is read, and the limiters
/// behind the decision. The order is fixed: first there must be a route, then
/// the credentials must be right, then the rate limit must let the request
/// through, and then there must be the upstream.
pub open spec fn entry_decision(
    routes: Seq<RouteConfig>,
    limiters: Map<Seq<char>, LimiterView>,
    upstreams: Seq<Seq<char>>,
    path: Seq<char>,
    lines: Map<Seq<char>, Seq<Seq<u8>>>,
    client_ip: Option<Seq<char>>,
    now_secs: i64,
    now: int,
) -> (Result<Target, RefusalView>, Map<Seq<char>, LimiterView>) {
    match router::route_for(routes, path) {
        None => (Err(refusal(404, "no matching route"@, "unmatched"@)), limiters),
        Some(i) => {
            let route = routes[i];
            let credentials = match route.auth {
                Some(config) => auth_outcome(config, lines, now_secs),
                None => Ok(()),
            };
            match credentials {
                Err(e) => (Err(refusal(401, e.spec_message(), route.path@)), limiters),
                Ok(_) => {
                    let (passed, after) = limit(route, limiters, client_ip, now);
                    if !passed {
                        (
                            Err(
                                RefusalView {
                                    over_limit: true,
                                    ..refusal(429, "rate limit exceeded"@, route.path@)
                                },
                            ),
                            after,
                        )
                    } else if !upstreams.contains(route.upstream@) {
                        (Err(refusal(502, "unknown upstream"@, route.path@)), after)
                    } else {
                        (
                            Ok(
                                Target {
                                    route: i,
                                    upstream: upstreams.index_of(route.upstream@),
                                },
                            ),
                            after,
                        )
                    }
                },
            }
        },
    }
}

/// A request that may go to a backend.
#[derive(Debug)]
pub struct Admission {
    /// The place of its route in the router.
    pub route: usize,
    /// The place of its upstream.
    pub upstream: usize,
}

/// A decision, as the contracts see it.
pub open spec fn decision_view(r: Result<Admission, Refusal>) -> Result<Target, RefusalView> {
    match r {
        Ok(a) => Ok(Target { route: a.route as int, upstream: a.upstream as int }),
        Err(e) => Err(e@),
    }
}

/// What a configuration is made into: the routes and the upstreams. Requests
/// that are under way keep the one they started with when another takes its
/// place.
#[derive(Debug)]
pub struct Shared {
    pub router: Router,
    pub upstreams: UpstreamManager,
}

impl Shared {
    /// What a configuration is made into, if it is valid. One that is not
    /// changes nothing.
    pub fn from_config(config: Config) -> (r: Result<Shared, ConfigError>)
        requires
            balancer::can_build(config.upstreams),
        ensures
            match (r, config::config_finding(config)) {
                (Ok(s), None) => {
                    &&& router::in_matching_order(config.routes@, s.router.spec_routes())
                    &&& router::fresh_limiters(
                        router::rate_limits(s.router.spec_routes()),
                        s.router.limiters(),
                        s.router.spec_clock(),
                    )
                    &&& s.upstreams.names() == config.upstreams.keys()
                    &&& s.upstreams.states() == balancer::fresh_pools(
                        config.upstreams,
                        s.upstreams.spec_clock(),
                    )
                },
                (Err(e), Some(finding)) => e matches ConfigError::Invalid(m) && m@ == finding,
                _ => false,
            },
    {
        match config.validate() {
            Ok(_) => {
                let upstreams = UpstreamManager::from_config(&config.upstreams);
                let router = Router::new(config.routes);
                Ok(Shared { router, upstreams })
            },
            Err(e) => Err(e),
        }
    }

    /// Decides of a request before its body is read.
    pub fn decide(&mut self, path: &str, headers: &HeaderMap, client_ip: Option<&str>) -> (r: Result<
        Admission,
        Refusal,
    >)
        ensures
            exists|now_secs: i64, now: int|
                clock::is_unix_seconds(now_secs) && clock::is_reading(
                    old(self).router.spec_clock(),
                    now,
                ) && (decision_view(r), final(self).router.limiters())
                    == #[trigger] entry_decision(
                    old(self).router.spec_routes(),
                    old(self).router.limiters(),
                    old(self).upstreams.names(),
                    path@,
                    headers::header_lines(*headers),
                    auth::opt_str(client_ip),
                    now_secs,
                    now,
                ),
            final(self).router.spec_routes() == old(self).router.spec_routes(),
            final(self).upstreams == old(self).upstreams,
    {
        let now_secs: i64 = clock::unix_seconds();
        let now: u128 = self.router.now();
        self.decide_at(path, headers, client_ip, now_secs, now)
    }

    /// `decide` at `now_secs` seconds since the Unix epoch and at the time
    /// `now` on the clock of the router.
    pub fn decide_at(
        &mut self,
        path: &str,
        headers: &HeaderMap,
        client_ip: Option<&str>,
        now_secs: i64,
        now: u128,
    ) -> (r: Result<Admission, Refusal>)
        ensures
            (decision_view(r), final(self).router.limiters()) == entry_decision(
                old(self).router.spec_routes(),
                old(self).router.limiters(),
                old(self).upstreams.names(),
                path@,
                headers::header_lines(*headers),
                auth::opt_str(client_ip),
                now_secs,
                now as int,
            ),
            final(self).router.spec_routes() == old(self).router.spec_routes(),
            final(self).upstreams == old(self).upstreams,
            r matches Ok(a) ==> a.upstream < final(self).upstreams.states().len(),
            r matches Ok(a) ==> {
                let route = old(self).router.spec_routes()[a.route as int];
                &&& a.route < old(self).router.spec_routes().len()
                &&& router::serves(route.path@, path@)
                &&& old(self).upstreams.names()[a.upstream as int] == route.upstream@
                &&& route.auth matches Some(config) ==> shows_credentials(
                    config,
                    headers::header_lines(*headers),
                    now_secs,
                )
            },
            r matches Err(e) ==> e.status == 404 || e.status == 401 || e.status == 429 || e.status
                == 502,
            r matches Err(e) ==> (e.over_limit <==> e.status == 429),
            r matches Err(e) ==> (e.status == 404 <==> router::route_for(
                old(self).router.spec_routes(),
                path@,
            ) is None),
    {
        let i: usize = match self.router.match_index(path) {
            Some(i) => i,
            None => {
                return Err(refuse(404, "no matching route", "unmatched"));
            },
        };
        let ghost route = self.router.spec_routes()[i as int];
        let routes = self.router.routes();
        let route_path = routes[i].path.clone();
        let upstream = routes[i].upstream.clone();
        let limited = routes[i].rate_limit.is_some();
        let credentials = match &routes[i].auth {
            Some(config) => check_auth_at(config, headers, now_secs),
            None => Ok(()),
        };
        if let Err(e) = credentials {
            return Err(refuse(401, e.message(), route_path.as_str()));
        }
        if limited {
            let id = match client_ip {
                Some(ip) => ip.to_string(),
                None => "unknown".to_string(),
            };
            let passed = match self.router.rate_limiter_for(route_path.as_str()) {
                Some(limiter) => limiter.check_at(id.as_str(), now),
                None => true,
            };
            if !passed {
                return Err(
                    Refusal {
                        status: 429,
                        message: "rate limit exceeded".to_string(),
                        route: route_path,
                        over_limit: true,
                        counted: true,
                    },
                );
            }
        }
        match self.upstreams.index_of(upstream.as_str()) {
            Some(u) => Ok(Admission { route: i, upstream: u }),
            None => Err(refuse(502, "unknown upstream", route_path.as_str())),
        }
    }
}

/// How reading the body of a request has ended.
#[derive(Debug, Clone, Copy, PartialEq, Eq, Structural)]
pub enum BodyRead {
    /// All of it has been read: so many bytes.
    Complete(u64),
    /// It was given up because it is longer than allowed.
    TooLarge,
    /// It could not be read.
    Unreadable,
}

/// Why a request is refused for its body, if it is. A body that could not be
/// read is not counted.
pub open spec fn body_decision(read: BodyRead, max_body_bytes: u64, route: Seq<char>) -> Option<
    RefusalView,
> {
    match read {
        BodyRead::Complete(n) => if n > max_body_bytes {
            Some(refusal(413, "request body too large"@, route))
        } else {
            None
        },
        BodyRead::TooLarge => Some(refusal(413, "request body too large"@, route)),
        BodyRead::Unreadable => Some(
            RefusalView {
                counted: false,
                ..refusal(400, "could not read request body"@, route)
            },
        ),
    }
}

/// A refusal that may be missing, as the contracts see it.
pub open spec fn opt_refusal(r: Option<Refusal>) -> Option<RefusalView> {
    match r {
        Some(r) => Some(r@),
        None => None,
    }
}

/// Why a request is refused for its body, if it is.
pub fn check_body(read: BodyRead, max_body_bytes: u64, route: &str) -> (r: Option<Refusal>)
    ensures
        opt_refusal(r) == body_decision(read, max_body_bytes, route@),
        r is None <==> (read matches BodyRead::Complete(n) && n <= max_body_bytes),
        r matches Some(e) ==> e.status == if read == BodyRead::Unreadable {
            400u16
        } else {
            413u16
        },
{
    match read {
        BodyRead::Complete(n) => {
            if n > max_body_bytes {
                Some(refuse(413, "request body too large", route))
            } else {
                None
            }
        },
        BodyRead::TooLarge => Some(refuse(413, "request body too large", route)),
        BodyRead::Unreadable => Some(
            Refusal {
                status: 400,
                message: "could not read request body".to_string(),
                route: route.to_string(),
                over_limit: false,
                counted: false,
            },
        ),
    }
}

/// What an answer of a backend counts for, by how reading its body has ended:
/// one that cannot be read, or is longer than allowed, is none.
pub open spec fn response_decision(read: BodyRead, max_body_bytes: u64) -> Outcome {
    match read {
        BodyRead::Complete(n) => if n > max_body_bytes {
            Outcome::Unreachable
        } else {
            Outcome::Answered
        },
        _ => Outcome::Unreachable,
    }
}

/// What an answer of a backend counts for.
pub fn check_response(read: BodyRead, max_body_bytes: u64) -> (r: Outcome)
    ensures
        r == response_decision(read, max_body_bytes),
        r != Outcome::TimedOut,
        r == Outcome::Answered <==> (read matches BodyRead::Complete(n) && n <= max_body_bytes),
{
    match read {
        BodyRead::Complete(n) => {
            if n > max_body_bytes {
                Outcome::Unreachable
            } else {
                Outcome::Answered
            }
        },
        BodyRead::TooLarge => Outcome::Unreachable,
        BodyRead::Unreadable => Outcome::Unreachable,
    }
}

/// How often a request is tried.
pub open spec fn attempts_allowed(method: Seq<char>, max_attempts: u32) -> int {
    if is_idempotent(method) {
        max_attempts as int
    } else {
        1
    }
}

/// The attempts of a request as their contracts see them.
pub struct AttemptsView {
    /// Attempts that have been made.
    pub made: int,
    /// Attempts that may be made.
    pub allowed: int,
    /// Milliseconds between two of them.
    pub backoff_ms: u64,
    /// Why the last one has failed.
    pub last_failure: AttemptFailure,
}

/// The attempts of a request, none of them made yet.
pub open spec fn fresh_attempts(method: Seq<char>, retry: RetryConfig) -> AttemptsView {
    AttemptsView {
        made: 0,
        allowed: attempts_allowed(method, retry.max_attempts),
        backoff_ms: retry.backoff_ms,
        last_failure: AttemptFailure::NoBackendAvailable,
    }
}

/// What comes next.
pub enum StepView {
    /// An attempt against the backend at this place.
    Forward(int),
    /// Nothing: the last failure is the answer.
    GiveUp,
}

/// What comes next for a request, and its attempts and the upstream behind it.
/// The backend that gets the request has one more under way.
pub open spec fn next_step(a: AttemptsView, p: PoolView, now: int, seed: u64) -> (
    StepView,
    AttemptsView,
    PoolView,
) {
    if a.made >= a.allowed {
        (StepView::GiveUp, a, p)
    } else {
        let (choice, after) = balancer::choose_backend(p, now, seed);
        match choice {
            Some(j) => (
                StepView::Forward(j),
                AttemptsView { made: a.made + 1, ..a },
                balancer::with_backend(
                    after,
                    j,
                    balancer::one_connection_more(after.backends[j]),
                ),
            ),
            None => (
                StepView::GiveUp,
                AttemptsView { last_failure: AttemptFailure::NoBackendAvailable, ..a },
                after,
            ),
        }
    }
}

/// How an attempt has ended.
#[derive(Debug, Clone, Copy, PartialEq, Eq, Structural)]
pub enum Outcome {
    /// The backend has answered, whatever the answer is.
    Answered,
    /// The backend has taken too long.
    TimedOut,
    /// The backend could not be reached, or its answer could not be read.
    Unreachable,
}

/// The failure that an attempt has ended with, if it has failed.
pub open spec fn failure_of(outcome: Outcome) -> Option<AttemptFailure> {
    match outcome {
        Outcome::Answered => None,
        Outcome::TimedOut => Some(AttemptFailure::Timeout),
        Outcome::Unreachable => Some(AttemptFailure::ConnectError),
    }
}

/// The upstream after an attempt against backend `i`: one request less under
/// way, and its circuit knows how it went.
pub open spec fn settled_pool(p: PoolView, i: int, outcome: Outcome, now: int) -> PoolView {
    balancer::noted_outcome(
        balancer::with_backend(p, i, balancer::one_connection_less(p.backends[i])),
        i,
        outcome == Outcome::Answered,
        now,
    )
}

/// What is done after an attempt.
#[derive(Debug, Clone, Copy, PartialEq, Eq, Structural)]
pub enum AfterAttempt {
    /// The answer of the backend goes to the client.
    Reply,
    /// After so many milliseconds the next attempt follows.
    Retry(u64),
    /// The last failure is the answer.
    GiveUp,
}

/// What is done after an attempt, and the attempts behind it.
pub open spec fn after_attempt(a: AttemptsView, outcome: Outcome) -> (AfterAttempt, AttemptsView) {
    match failure_of(outcome) {
        None => (AfterAttempt::Reply, a),
        Some(f) => (
            if a.made < a.allowed {
                AfterAttempt::Retry(a.backoff_ms)
            } else {
                AfterAttempt::GiveUp
            },
            AttemptsView { last_failure: f, ..a },
        ),
    }
}

/// What a client is told after the last failure.
pub open spec fn failure_reply(failure: AttemptFailure, route: Seq<char>) -> RefusalView {
    match failure {
        AttemptFailure::NoBackendAvailable => refusal(503, "no healthy backend available"@, route),
        AttemptFailure::Timeout => refusal(504, "upstream timeout"@, route),
        AttemptFailure::ConnectError => refusal(502, "upstream unreachable"@, route),
    }
}

/// What comes next for a request.
#[derive(Debug)]
pub enum Step {
    /// An attempt against the backend of the guard, which stands for it.
    Forward(ConnectionGuard),
    /// Nothing: the last failure is the answer.
    GiveUp,
}

/// A step as the contracts see it.
pub open spec fn step_view(s: Step) -> StepView {
    match s {
        Step::Forward(guard) => StepView::Forward(guard.spec_backend()),
        Step::GiveUp => StepView::GiveUp,
    }
}

/// The attempts that are made to get an answer for a request.
#[derive(Debug)]
pub struct Attempts {
    made: u32,
    allowed: u32,
    backoff_ms: u64,
    last_failure: AttemptFailure,
}

impl View for Attempts {
    type V = AttemptsView;

    closed spec fn view(&self) -> AttemptsView {
        AttemptsView {
            made: self.made as int,
            allowed: self.allowed as int,
            backoff_ms: self.backoff_ms,
            last_failure: self.last_failure,
        }
    }
}

impl Attempts {
    /// The attempts for a request with this method, none of them made yet.
    pub fn new(method: &str, pool: &UpstreamPool) -> (a: Self)
        ensures
            a@ == fresh_attempts(method@, pool@.retry),
            a@.made == 0,
            a@.allowed == if method@ == "GET"@ || method@ == "HEAD"@ || method@ == "OPTIONS"@
                || method@ == "PUT"@ || method@ == "DELETE"@ {
                pool@.retry.max_attempts as int
            } else {
                1
            },
            a@.backoff_ms == pool@.retry.backoff_ms,
    {
        let retry = pool.retry();
        let allowed: u32 = if is_retryable_method(method) {
            retry.max_attempts
        } else {
            1
        };
        Attempts {
            made: 0,
            allowed,
            backoff_ms: retry.backoff_ms,
            last_failure: AttemptFailure::NoBackendAvailable,
        }
    }

    /// Decides what comes next.
    pub fn next(&mut self, pool: &mut UpstreamPool) -> (step: Step)
        ensures
            exists|now: int, seed: u64|
                clock::is_reading(old(pool)@.clock, now) && balancer::is_seed(
                    seed,
                    old(pool)@.random,
                ) && (step_view(step), final(self)@, final(pool)@) == #[trigger] next_step(
                    old(self)@,
                    old(pool)@,
                    now,
                    seed,
                ),
            step matches Step::Forward(guard) ==> 0 <= guard.spec_backend()
                < final(pool)@.backends.len(),
    {
        let now: u128 = pool.now();
        let seed: u64 = clock::unix_nanos_or(balancer::SEED_FALLBACK);
        self.next_at(pool, now, seed)
    }

    /// `next` at the time `now`, with `seed` for random numbers that have not
    /// been seeded yet.
    pub fn next_at(&mut self, pool: &mut UpstreamPool, now: u128, seed: u64) -> (step: Step)
        ensures
            (step_view(step), final(self)@, final(pool)@) == next_step(
                old(self)@,
                old(pool)@,
                now as int,
                seed,
            ),
            step matches Step::Forward(guard) ==> 0 <= guard.spec_backend()
                < final(pool)@.backends.len() && balancer::is_sound(old(pool)@),
            step is Forward <==> final(self)@.made == old(self)@.made + 1,
            step matches Step::Forward(guard) ==> {
                &&& old(self)@.made < old(self)@.allowed
                &&& old(pool)@.backends[guard.spec_backend()].healthy
                &&& !balancer::is_out(old(pool)@.backends[guard.spec_backend()], now as int)
            },
    {
        if self.made >= self.allowed {
            return Step::GiveUp;
        }
        let choice = pool.select_at(now, seed);
        proof {
            balancer::selected_backend_is_available(old(pool)@, now as int, seed);
            if let Some(i) = choice {
                balancer::usable_backends(old(pool)@.backends[i as int], now as int);
            }
        }
        match choice {
            Some(backend) => {
                self.made = self.made + 1;
                Step::Forward(pool.track_connection(backend))
            },
            None => {
                self.last_failure = AttemptFailure::NoBackendAvailable;
                Step::GiveUp
            },
        }
    }

    /// Takes note of how the attempt that a guard stands for has ended, and
    /// decides what is done then.
    pub fn finish(
        &mut self,
        pool: &mut UpstreamPool,
        guard: ConnectionGuard,
        outcome: Outcome,
    ) -> (after: AfterAttempt)
        requires
            guard.spec_backend() < old(pool)@.backends.len(),
        ensures
            (after, final(self)@) == after_attempt(old(self)@, outcome),
            exists|now: int|
                clock::is_reading(old(pool)@.clock, now) && final(pool)@
                    == #[trigger] settled_pool(
                    old(pool)@,
                    guard.spec_backend(),
                    outcome,
                    now,
                ),
    {
        let now: u128 = pool.now();
        self.finish_at(pool, guard, outcome, now)
    }

    /// `finish` at the time `now`.
    pub fn finish_at(
        &mut self,
        pool: &mut UpstreamPool,
        guard: ConnectionGuard,
        outcome: Outcome,
        now: u128,
    ) -> (after: AfterAttempt)
        requires
            guard.spec_backend() < old(pool)@.backends.len(),
        ensures
            (after, final(self)@) == after_attempt(old(self)@, outcome),
            final(pool)@ == settled_pool(
                old(pool)@,
                guard.spec_backend(),
                outcome,
                now as int,
            ),
            ({
                let before = old(pool)@.backends[guard.spec_backend()].circuit;
                final(pool)@.backends[guard.spec_backend()].circuit == if outcome
                    == Outcome::Answered {
                    circuit::succeed(before)
                } else {
                    circuit::fail(before, now as int)
                }
            }),
            after == if outcome == Outcome::Answered {
                AfterAttempt::Reply
            } else if old(self)@.made < old(self)@.allowed {
                AfterAttempt::Retry(old(self)@.backoff_ms)
            } else {
                AfterAttempt::GiveUp
            },
            final(self)@.made == old(self)@.made,
            final(self)@.last_failure == match outcome {
                Outcome::Answered => old(self)@.last_failure,
                Outcome::TimedOut => AttemptFailure::Timeout,
                Outcome::Unreachable => AttemptFailure::ConnectError,
            },
    {
        let backend: usize = guard.backend();
        pool.release(guard);
        pool.record_outcome_at(backend, outcome == Outcome::Answered, now);
        let failure = match outcome {
            Outcome::Answered => {
                return AfterAttempt::Reply;
            },
            Outcome::TimedOut => AttemptFailure::Timeout,
            Outcome::Unreachable => AttemptFailure::ConnectError,
        };
        self.last_failure = failure;
        if self.made < self.allowed {
            AfterAttempt::Retry(self.backoff_ms)
        } else {
            AfterAttempt::GiveUp
        }
    }

    /// What the client is told after the last failure.
    pub fn reply(&self, route: &str) -> (r: Refusal)
        ensures
            r@ == failure_reply(self@.last_failure, route@),
            r.status == match self@.last_failure {
                AttemptFailure::NoBackendAvailable => 503u16,
                AttemptFailure::Timeout => 504u16,
                AttemptFailure::ConnectError => 502u16,
            },
    {
        match self.last_failure {
            AttemptFailure::NoBackendAvailable => refuse(
                503,
                "no healthy backend available",
                route,
            ),
            AttemptFailure::Timeout => refuse(504, "upstream timeout", route),
            AttemptFailure::ConnectError => refuse(502, "upstream unreachable", route),
        }
    }
}

/// The metrics after a backend has answered a request, if there is room for it.
pub open spec fn noted_response(
    m: MetricsView,
    method: Seq<char>,
    route: Seq<char>,
    status: u16,
    ms: u64,
) -> MetricsView {
    if metrics::has_room(m, route, ms as int) {
        metrics::with_relayed(m, method, route, status, ms as int)
    } else {
        m
    }
}

/// Counts a request that a backend has answered, if there is room for it.
pub fn note_response(m: &mut Metrics, method: &str, route: &str, status: u16, duration_ms: u64)
    ensures
        final(m)@ == noted_response(old(m)@, method@, route@, status, duration_ms),
{
    if m.can_record(route, duration_ms) {
        m.record_relayed(method, route, status, duration_ms);
    }
}

/// The metrics after a request has been turned away by a rate limit, if there
/// is room for it.
pub open spec fn noted_rejection(m: MetricsView, route: Seq<char>) -> MetricsView {
    if counts::count_of(m.rejections, route) < u64::MAX {
        MetricsView { rejections: counts::one_more(m.rejections, route), ..m }
    } else {
        m
    }
}

/// The metrics after the gateway has refused a request, as far as there is room
/// for it.
pub open spec fn noted_refusal(
    m: MetricsView,
    method: Seq<char>,
    r: RefusalView,
    ms: u64,
) -> MetricsView {
    let rejected = if r.over_limit {
        noted_rejection(m, r.route)
    } else {
        m
    };
    if r.counted && metrics::has_room(rejected, r.route, ms as int) {
        metrics::with_request(rejected, method, r.route, r.status, ms as int)
    } else {
        rejected
    }
}

/// Counts a request that the gateway has refused, as far as there is room for
/// it.
pub fn note_refusal(m: &mut Metrics, method: &str, refusal: &Refusal, duration_ms: u64)
    ensures
        final(m)@ == noted_refusal(old(m)@, method@, refusal@, duration_ms),
{
    if refusal.over_limit {
        let seen: u64 = m.rejections(refusal.route.as_str());
        if seen < u64::MAX {
            m.record_rate_limit_rejection(refusal.route.as_str());
        }
    }
    if refusal.counted && m.can_record(refusal.route.as_str(), duration_ms) {
        m.record_request(method, refusal.route.as_str(), refusal.status, duration_ms);
    }
}

/// The hop-by-hop names are plain, and none of them is a name that the gateway
/// sets.
proof fn lemma_hop_by_hop_names()
    ensures
        forall|i: int|
            0 <= i < hop_by_hop().len() ==> {
                let name = #[trigger] hop_by_hop()[i];
                &&& headers::is_plain_name(name)
                &&& !is_set_by_gateway(name)
            },
{
    reveal_strlit("connection");
    reveal_strlit("keep-alive");
    reveal_strlit("proxy-authenticate");
    reveal_strlit("proxy-authorization");
    reveal_strlit("te");
    reveal_strlit("trailers");
    reveal_strlit("transfer-encoding");
    reveal_strlit("upgrade");
    reveal_strlit("x-forwarded-for");
    reveal_strlit("x-forwarded-proto");
    reveal_strlit("x-forwarded-host");
    reveal_strlit("x-request-id");
    reveal_strlit("host");
    assert forall|i: int| 0 <= i < hop_by_hop().len() implies {
        let name = #[trigger] hop_by_hop()[i];
        &&& headers::is_plain_name(name)
        &&& !is_set_by_gateway(name)
    } by {
        let name = hop_by_hop()[i];
        assert(headers::is_plain_name(name));
        assert(name[0] != 'x' && name[0] != 'h');
    }
}

/// The names of the headers that the gateway sets itself.
pub open spec fn is_set_by_gateway(name: Seq<char>) -> bool {
    ||| name == "x-forwarded-for"@
    ||| name == "x-forwarded-proto"@
    ||| name == "x-forwarded-host"@
    ||| name == "x-request-id"@
    ||| name == "host"@
}

proof fn lemma_without(lines: Map<Seq<char>, Seq<Seq<u8>>>, names: Seq<Seq<char>>, name: Seq<char>)
    ensures
        without(lines, names).contains_key(name) <==> lines.contains_key(name) && forall|i: int|
            0 <= i < names.len() ==> (#[trigger] names[i]) != name,
        without(lines, names).contains_key(name) ==> without(lines, names)[name] == lines[name],
    decreases names.len(),
{
    if names.len() > 0 {
        let rest = names.drop_last();
        lemma_without(lines, rest, name);
        if forall|i: int| 0 <= i < names.len() ==> (#[trigger] names[i]) != name {
            assert forall|i: int| 0 <= i < rest.len() implies (#[trigger] rest[i]) != name by {
                assert(names[i] != name);
            }
            assert(names[names.len() - 1] != name);
        }
        if without(lines, names).contains_key(name) {
            assert forall|i: int| 0 <= i < names.len() implies (#[trigger] names[i]) != name by {
                if i < names.len() - 1 {
                    assert(rest[i] != name);
                }
            }
        }
    }
}

/// No header that speaks of the connection of the client reaches a backend.
pub proof fn hop_by_hop_headers_are_not_forwarded(
    lines: Map<Seq<char>, Seq<Seq<u8>>>,
    client_ip: Option<Seq<char>>,
    scheme: Seq<char>,
    authority: Seq<char>,
    original_host: Option<Seq<char>>,
    request_id: Seq<char>,
    i: int,
)
    requires
        0 <= i < hop_by_hop().len(),
    ensures
        !forwarded_lines(
            augmented(lines, client_ip, scheme),
            authority,
            original_host,
            request_id,
        ).contains_key(hop_by_hop()[i]),
{
    let name = hop_by_hop()[i];
    lemma_hop_by_hop_names();
    lemma_without(lines, hop_by_hop(), name);
}

/// Any other header reaches the backend as it came, but for those that the
/// gateway sets itself.
pub proof fn other_headers_are_kept(
    lines: Map<Seq<char>, Seq<Seq<u8>>>,
    client_ip: Option<Seq<char>>,
    scheme: Seq<char>,
    authority: Seq<char>,
    original_host: Option<Seq<char>>,
    request_id: Seq<char>,
    name: Seq<char>,
)
    requires
        !hop_by_hop().contains(name),
        !is_set_by_gateway(name),
    ensures
        ({
            let sent = forwarded_lines(
                augmented(lines, client_ip, scheme),
                authority,
                original_host,
                request_id,
            );
            &&& sent.contains_key(name) <==> lines.contains_key(name)
            &&& lines.contains_key(name) ==> sent[name] == lines[name]
        }),
{
    lemma_hop_by_hop_names();
    lemma_without(lines, hop_by_hop(), name);
    assert forall|i: int| 0 <= i < hop_by_hop().len() implies (#[trigger] hop_by_hop()[i]) != name by {
        assert(hop_by_hop().contains(hop_by_hop()[i]));
    }
    lemma_lower_host();
}

proof fn lemma_lower_host()
    ensures
        headers::lower_name("host"@) == "host"@,
        headers::lower_name("x-forwarded-for"@) == "x-forwarded-for"@,
        "host"@ != "x-request-id"@,
        "host"@ != "x-forwarded-host"@,
{
    reveal_strlit("host");
    reveal_strlit("x-request-id");
    reveal_strlit("x-forwarded-host");
    reveal_strlit("x-forwarded-for");
    assert(headers::lower_name("host"@) =~= "host"@);
    assert(headers::lower_name("x-forwarded-for"@) =~= "x-forwarded-for"@);
    assert("host"@.len() != "x-request-id"@.len());
    assert("host"@.len() != "x-forwarded-host"@.len());
}

/// The host that a backend sees is its own, never the one that the client has
/// named.
pub proof fn backend_sees_its_own_host(
    lines: Map<Seq<char>, Seq<Seq<u8>>>,
    authority: Seq<char>,
    original_host: Option<Seq<char>>,
    request_id: Seq<char>,
)
    requires
        authority.len() > 0,
    ensures
        ({
            let sent = forwarded_lines(lines, authority, original_host, request_id);
            &&& sent.contains_key("host"@)
            &&& sent["host"@] == seq![text::utf8(authority)]
        }),
{
    lemma_lower_host();
    assert(Seq::<Seq<u8>>::empty().push(text::utf8(authority)) =~= seq![text::utf8(authority)]);
}

/// The id of the request reaches the backend.
pub proof fn request_id_is_forwarded(
    lines: Map<Seq<char>, Seq<Seq<u8>>>,
    authority: Seq<char>,
    original_host: Option<Seq<char>>,
    request_id: Seq<char>,
)
    ensures
        ({
            let sent = forwarded_lines(lines, authority, original_host, request_id);
            &&& sent.contains_key("x-request-id"@)
            &&& sent["x-request-id"@].last() == text::utf8(request_id)
        }),
{
}

/// A client that other proxies have already named stays in the chain, with the
/// nearest one at its end.
pub proof fn forwarded_chain_is_kept(
    lines: Map<Seq<char>, Seq<Seq<u8>>>,
    ip: Seq<char>,
    scheme: Seq<char>,
)
    requires
        fits_header(forwarded_for(lines, ip)),
    ensures
        ({
            let sent = augmented(lines, Some(ip), scheme);
            &&& sent.contains_key("x-forwarded-for"@)
            &&& sent["x-forwarded-for"@] == seq![text::utf8(forwarded_for(lines, ip))]
        }),
{
    let name = "x-forwarded-for"@;
    lemma_hop_by_hop_names();
    lemma_lower_host();
    lemma_without(lines, hop_by_hop(), name);
    assert forall|i: int| 0 <= i < hop_by_hop().len() implies (#[trigger] hop_by_hop()[i]) != name by {
        assert(!is_set_by_gateway(hop_by_hop()[i]));
    }
    assert(forwarded_for(without(lines, hop_by_hop()), ip) == forwarded_for(lines, ip));
    assert("x-forwarded-proto"@ != name) by {
        reveal_strlit("x-forwarded-proto");
        reveal_strlit("x-forwarded-for");
        assert("x-forwarded-proto"@.len() != name.len());
    }
}

/// No more attempts are made than are allowed, and a request that must not be
/// sent twice is sent once at most.
pub proof fn attempts_are_bounded(a: AttemptsView, p: PoolView, now: int, seed: u64)
    requires
        a.made <= a.allowed,
    ensures
        ({
            let (step, after, pool) = next_step(a, p, now, seed);
            &&& after.made <= after.allowed
            &&& after.allowed == a.allowed
            &&& step is Forward <==> after.made == a.made + 1
            &&& step is GiveUp <==> after.made == a.made
        }),
        forall|outcome: Outcome|
            (#[trigger] after_attempt(a, outcome)).1.made == a.made && after_attempt(
                a,
                outcome,
            ).1.allowed == a.allowed,
        forall|method: Seq<char>, max: u32|
            !is_idempotent(method) ==> #[trigger] attempts_allowed(method, max) == 1,
{
}

/// Under round robin, with two backends or more that are all well, a retry goes
/// to another backend than the attempt that has failed.
pub proof fn retry_goes_to_another_backend(
    a: AttemptsView,
    p: PoolView,
    now: int,
    seed: u64,
    outcome: Outcome,
    then: int,
    later: int,
)
    requires
        p.strategy == LoadBalancerStrategy::RoundRobin,
        balancer::is_sound(p),
        balancer::all_well(p.backends),
        p.backends.len() >= 2,
        p.cursor < usize::MAX,
        a.made + 1 < a.allowed,
        outcome != Outcome::Answered,
    ensures
        ({
            let (first, attempts, pool) = next_step(a, p, now, seed);
            match first {
                StepView::Forward(j) => {
                    let (after, more) = after_attempt(attempts, outcome);
                    let settled = settled_pool(pool, j, outcome, then);
                    &&& after is Retry
                    &&& match next_step(more, settled, later, seed).0 {
                        StepView::Forward(k) => k != j,
                        StepView::GiveUp => false,
                    }
                },
                StepView::GiveUp => false,
            }
        }),
{
    let n = p.backends.len() as int;
    let calls = seq![balancer::Call { now, seed }, balancer::Call { now, seed }];
    balancer::round_robin_takes_turns(p, calls, 0);
    let j = p.cursor as int % n;
    let (choice, chosen) = balancer::choose_backend(p, now, seed);
    assert(choice == Some(j)) by {
        assert(balancer::after_calls(p, calls.take(0)) == p);
    }
    balancer::selected_backend_is_available(p, now, seed);
    let pool = next_step(a, p, now, seed).2;
    let settled = settled_pool(pool, j, outcome, then);
    let k = (p.cursor + 1) % n;
    vstd::arithmetic::div_mod::lemma_mod_bound(p.cursor as int, n);
    vstd::arithmetic::div_mod::lemma_mod_bound(p.cursor + 1, n);
    assert(k != j) by {
        balancer::round_robin_repeats_nobody_within_a_round(p, calls, 0, 1);
        balancer::round_robin_takes_turns(p, calls, 1);
    }
    assert(settled.backends[k] == p.backends[k]);
    assert(p.backends[k].healthy);
    balancer::first_in_turn_is_chosen(settled, later);
}

/// Whatever becomes of an attempt, the backend has as many requests under way
/// behind it as before, and no other backend has changed.
pub proof fn attempt_leaves_no_connection_behind(
    a: AttemptsView,
    p: PoolView,
    now: int,
    seed: u64,
    outcome: Outcome,
    later: int,
)
    requires
        balancer::is_sound(p),
    ensures
        match next_step(a, p, now, seed).0 {
            StepView::Forward(j) => {
                let after = settled_pool(next_step(a, p, now, seed).2, j, outcome, later);
                &&& after.backends.len() == p.backends.len()
                &&& after.backends[j].connections == p.backends[j].connections
                &&& forall|i: int|
                    0 <= i < p.backends.len() && i != j ==> #[trigger] after.backends[i]
                        == p.backends[i]
            },
            StepView::GiveUp => next_step(a, p, now, seed).2.backends == p.backends,
        },
{
    balancer::selected_backend_is_available(p, now, seed);
    if let StepView::Forward(j) = next_step(a, p, now, seed).0 {
        let after = balancer::choose_backend(p, now, seed).1;
        balancer::release_undoes_track(after.backends[j]);
    }
}

/// When the attempts are used up or no backend is available, the answer is an
/// error of the gateway, and is counted as one.
pub proof fn failures_count_as_gateway_failures(failure: AttemptFailure, route: Seq<char>)
    ensures
        metrics::is_gateway_failure(failure_reply(failure, route).status),
        failure_reply(failure, route).counted,
{
}

/// A request with wrong credentials spends nothing of its rate limit, and one
/// without a route neither.
pub proof fn refused_credentials_spend_no_token(
    routes: Seq<RouteConfig>,
    limiters: Map<Seq<char>, LimiterView>,
    upstreams: Seq<Seq<char>>,
    path: Seq<char>,
    lines: Map<Seq<char>, Seq<Seq<u8>>>,
    client_ip: Option<Seq<char>>,
    now_secs: i64,
    now: int,
)
    ensures
        ({
            let (decision, after) = entry_decision(
                routes,
                limiters,
                upstreams,
                path,
                lines,
                client_ip,
                now_secs,
                now,
            );
            decision is Err && (decision->Err_0.status == 401 || decision->Err_0.status == 404)
                ==> after == limiters
        }),
{
}

/// A route that asks for no credentials serves every caller alike.
pub proof fn public_route_ignores_credentials(
    routes: Seq<RouteConfig>,
    limiters: Map<Seq<char>, LimiterView>,
    upstreams: Seq<Seq<char>>,
    path: Seq<char>,
    lines: Map<Seq<char>, Seq<Seq<u8>>>,
    other_lines: Map<Seq<char>, Seq<Seq<u8>>>,
    client_ip: Option<Seq<char>>,
    now_secs: i64,
    now: int,
)
    requires
        match router::route_for(routes, path) {
            Some(i) => routes[i].auth is None,
            None => true,
        },
    ensures
        entry_decision(routes, limiters, upstreams, path, lines, client_ip, now_secs, now)
            == entry_decision(
            routes,
            limiters,
            upstreams,
            path,
            other_lines,
            client_ip,
            now_secs,
            now,
        ),
{
}

/// Under an accepted configuration every request with a route has an upstream
/// to go to.
pub proof fn accepted_configuration_knows_every_upstream(
    config: Config,
    sorted: Seq<RouteConfig>,
    limiters: Map<Seq<char>, LimiterView>,
    path: Seq<char>,
    lines: Map<Seq<char>, Seq<Seq<u8>>>,
    client_ip: Option<Seq<char>>,
    now_secs: i64,
    now: int,
)
    requires
        config.upstreams.keys().len() == config.upstreams.values().len(),
        config::config_finding(config) is None,
        router::in_matching_order(config.routes@, sorted),
    ensures
        ({
            let decision = entry_decision(
                sorted,
                limiters,
                config.upstreams.keys(),
                path,
                lines,
                client_ip,
                now_secs,
                now,
            ).0;
            decision is Err ==> decision->Err_0.status != 502
        }),
{
    config::accepted_configurations(config);
    if let Some(i) = router::route_for(sorted, path) {
        assert(router::is_first_match(sorted, path, i));
        assert(sorted.contains(sorted[i]));
        router::sorting_keeps_the_routes(config.routes@, sorted, sorted[i]);
        let k = config.routes@.index_of(sorted[i]);
        assert(config.upstreams@.contains_key(config.routes@[k].upstream@));
    }
}

/// A request with one of the methods `GET`, `HEAD`, `OPTIONS`, `PUT` and `DELETE`
/// is tried as often as its upstream says, and one with any other method, such as
/// `POST`, once. Before the first attempt none has been made.
pub proof fn attempts_go_by_the_method(method: Seq<char>, retry: RetryConfig)
    ensures
        method == "GET"@ || method == "HEAD"@ || method == "OPTIONS"@ || method == "PUT"@
            || method == "DELETE"@ ==> fresh_attempts(method, retry).allowed == retry.max_attempts,
        method != "GET"@ && method != "HEAD"@ && method != "OPTIONS"@ && method != "PUT"@
            && method != "DELETE"@ ==> fresh_attempts(method, retry).allowed == 1,
        fresh_attempts(method, retry).made == 0,
        fresh_attempts(method, retry).backoff_ms == retry.backoff_ms,
        fresh_attempts(method, retry).last_failure == AttemptFailure::NoBackendAvailable,
{
}

/// While a backend is usable, a failed attempt is followed by another, after the
/// backoff of the upstream, until as many have been made as the method and the
/// upstream allow. Then the failure is the answer: 504 where the last attempt has
/// timed out, and 502 where the backend could not be reached.
pub proof fn a_failed_attempt_is_followed_by_another(
    method: Seq<char>,
    retry: RetryConfig,
    made: int,
    p: PoolView,
    now: int,
    seed: u64,
    outcome: Outcome,
    i: int,
    route: Seq<char>,
)
    requires
        balancer::is_sound(p),
        0 <= i < p.backends.len(),
        p.backends[i].healthy,
        p.backends[i].circuit.state == CircuitState::Closed,
        0 <= made,
        outcome == Outcome::TimedOut || outcome == Outcome::Unreachable,
        made < if method == "GET"@ || method == "HEAD"@ || method == "OPTIONS"@ || method == "PUT"@
            || method == "DELETE"@ {
            retry.max_attempts as int
        } else {
            1
        },
    ensures
        ({
            let allowed = if method == "GET"@ || method == "HEAD"@ || method == "OPTIONS"@ || method
                == "PUT"@ || method == "DELETE"@ {
                retry.max_attempts as int
            } else {
                1
            };
            let a = AttemptsView { made, ..fresh_attempts(method, retry) };
            let (step, more, _) = next_step(a, p, now, seed);
            let (after, then) = after_attempt(more, outcome);
            let reply = failure_reply(then.last_failure, route);
            &&& step is Forward
            &&& more.made == made + 1
            &&& then.made == made + 1
            &&& after == if made + 1 < allowed {
                AfterAttempt::Retry(retry.backoff_ms)
            } else {
                AfterAttempt::GiveUp
            }
            &&& reply.status == if outcome == Outcome::TimedOut {
                504u16
            } else {
                502u16
            }
            &&& reply.message == if outcome == Outcome::TimedOut {
                "upstream timeout"@
            } else {
                "upstream unreachable"@
            }
            &&& reply.route == route
            &&& reply.counted
            &&& !reply.over_limit
        }),
{
    attempts_go_by_the_method(method, retry);
    balancer::a_well_backend_means_selection(p, now, seed, i);
}

/// A backend that has answered is not asked again, whatever it has answered: its
/// answer goes to the client, and the attempts stay as they are.
pub proof fn an_answer_ends_the_attempts(a: AttemptsView)
    ensures
        after_attempt(a, Outcome::Answered) == (AfterAttempt::Reply, a),
{
}

/// Where no backend is usable, or the attempts are used up, nothing is sent. In
/// the first case the answer is 503, whatever has failed before.
pub proof fn nothing_is_sent_without_a_backend(
    a: AttemptsView,
    p: PoolView,
    now: int,
    seed: u64,
    route: Seq<char>,
)
    requires
        balancer::is_sound(p),
        a.made < a.allowed,
        forall|i: int| 0 <= i < p.backends.len() ==> balancer::is_out(#[trigger] p.backends[i], now),
    ensures
        ({
            let (step, after, pool) = next_step(a, p, now, seed);
            let reply = failure_reply(after.last_failure, route);
            &&& step is GiveUp
            &&& after.made == a.made
            &&& pool.backends == p.backends
            &&& reply.status == 503
            &&& reply.message == "no healthy backend available"@
            &&& reply.route == route
            &&& reply.counted
        }),
{
    balancer::selected_backend_is_available(p, now, seed);
    if let Some(j) = balancer::choose_backend(p, now, seed).0 {
        balancer::usable_backends(p.backends[j], now);
        assert(balancer::is_out(p.backends[j], now));
    }
}

/// The circuit of a backend knows how an attempt against it has ended. A timeout
/// is a failure, as is a backend that cannot be reached: one more in a closed
/// circuit, which opens with it where it reaches the threshold, and enough to
/// open a half-open one again. An answer closes the circuit and forgets the
/// failures. No other backend is touched.
pub proof fn outcomes_reach_the_circuit(p: PoolView, i: int, outcome: Outcome, now: int)
    requires
        0 <= i < p.backends.len(),
        p.backends[i].circuit.failures < u32::MAX,
    ensures
        ({
            let c = p.backends[i].circuit;
            let after = settled_pool(p, i, outcome, now);
            let d = after.backends[i].circuit;
            &&& after.backends.len() == p.backends.len()
            &&& forall|j: int|
                0 <= j < p.backends.len() && j != i ==> #[trigger] after.backends[j]
                    == p.backends[j]
            &&& after == (PoolView { backends: after.backends, ..p })
            &&& after.backends[i].healthy == p.backends[i].healthy
            &&& p.backends[i].connections > 0 ==> after.backends[i].connections
                == p.backends[i].connections - 1
            &&& d.threshold == c.threshold
            &&& d.cooldown == c.cooldown
            &&& match outcome {
                Outcome::Answered => {
                    &&& d.state == CircuitState::Closed
                    &&& d.failures == 0
                    &&& !d.probe_taken
                },
                Outcome::TimedOut | Outcome::Unreachable => match c.state {
                    CircuitState::Closed => {
                        &&& d.failures == c.failures + 1
                        &&& d.state == if c.failures + 1 >= c.threshold {
                            CircuitState::Open
                        } else {
                            CircuitState::Closed
                        }
                        &&& c.failures + 1 >= c.threshold ==> d.opened_at == Some(now)
                    },
                    CircuitState::HalfOpen => {
                        &&& d.state == CircuitState::Open
                        &&& d.opened_at == Some(now)
                        &&& !d.probe_taken
                    },
                    CircuitState::Open => {
                        &&& d.state == CircuitState::Open
                        &&& d.opened_at == c.opened_at
                    },
                },
            }
        }),
{
    circuit::failures_count(p.backends[i].circuit, now);
    circuit::success_closes_the_circuit(p.backends[i].circuit, now);
}

/// An upstream after attempts against backend `i` have ended with these outcomes
/// at these times.
pub open spec fn settled_pools(p: PoolView, i: int, outcomes: Seq<Outcome>, times: Seq<int>) -> PoolView
    decreases outcomes.len(),
{
    if outcomes.len() == 0 {
        p
    } else {
        settled_pool(
            settled_pools(p, i, outcomes.drop_last(), times),
            i,
            outcomes.last(),
            times[outcomes.len() - 1],
        )
    }
}

proof fn lemma_settled_pools(p: PoolView, i: int, outcomes: Seq<Outcome>, times: Seq<int>)
    requires
        0 <= i < p.backends.len(),
        p.backends[i].circuit.state == CircuitState::Closed,
        p.backends[i].circuit.failures == 0,
        outcomes.len() <= p.backends[i].circuit.threshold,
        forall|k: int| 0 <= k < outcomes.len() ==> #[trigger] outcomes[k] != Outcome::Answered,
    ensures
        ({
            let c = p.backends[i].circuit;
            let after = settled_pools(p, i, outcomes, times);
            let d = after.backends[i].circuit;
            let last = outcomes.len() - 1;
            &&& after == (PoolView { backends: after.backends, ..p })
            &&& after.backends.len() == p.backends.len()
            &&& d.failures == outcomes.len()
            &&& d.threshold == c.threshold
            &&& d.cooldown == c.cooldown
            &&& d.state == if outcomes.len() == c.threshold && c.threshold > 0 {
                CircuitState::Open
            } else {
                CircuitState::Closed
            }
            &&& outcomes.len() == c.threshold && c.threshold > 0 ==> d.opened_at == Some(
                times[last],
            )
        }),
    decreases outcomes.len(),
{
    if outcomes.len() > 0 {
        let rest = outcomes.drop_last();
        assert forall|k: int| 0 <= k < rest.len() implies #[trigger] rest[k] != Outcome::Answered by {
            assert(outcomes[k] != Outcome::Answered);
        }
        lemma_settled_pools(p, i, rest, times);
        assert(outcomes[outcomes.len() - 1] != Outcome::Answered);
        outcomes_reach_the_circuit(
            settled_pools(p, i, rest, times),
            i,
            outcomes.last(),
            times[outcomes.len() - 1],
        );
    }
}

/// As many attempts in a row as the threshold says that end without an answer,
/// with a timeout as well as without a connection, open the circuit of a backend.
/// Until its cooldown is over the backend gets no request. With fewer the circuit
/// stays closed.
pub proof fn failed_attempts_open_the_circuit(
    p: PoolView,
    i: int,
    outcomes: Seq<Outcome>,
    times: Seq<int>,
    now: int,
    seed: u64,
)
    requires
        balancer::is_sound(p),
        0 <= i < p.backends.len(),
        p.backends[i].circuit.state == CircuitState::Closed,
        p.backends[i].circuit.failures == 0,
        0 < outcomes.len() <= p.backends[i].circuit.threshold,
        times.len() == outcomes.len(),
        times.last() <= now < times.last() + p.backends[i].circuit.cooldown,
        forall|k: int|
            0 <= k < outcomes.len() ==> #[trigger] outcomes[k] == Outcome::TimedOut || outcomes[k]
                == Outcome::Unreachable,
    ensures
        ({
            let after = settled_pools(p, i, outcomes, times);
            if outcomes.len() == p.backends[i].circuit.threshold {
                &&& after.backends[i].circuit.state == CircuitState::Open
                &&& balancer::choose_backend(after, now, seed).0 != Some(i)
            } else {
                after.backends[i].circuit.state == CircuitState::Closed
            }
        }),
{
    assert forall|k: int| 0 <= k < outcomes.len() implies #[trigger] outcomes[k]
        != Outcome::Answered by {
        assert(outcomes[k] == Outcome::TimedOut || outcomes[k] == Outcome::Unreachable);
    }
    lemma_settled_pools(p, i, outcomes, times);
    let after = settled_pools(p, i, outcomes, times);
    balancer::selected_backend_is_available(after, now, seed);
    balancer::usable_backends(after.backends[i], now);
}

/// A body is refused exactly when it could not be read, or is longer than
/// allowed; one of just the size that is allowed passes. One that is too long is
/// answered 413 and counted, and one that could not be read 400, uncounted.
pub proof fn bodies_up_to_the_limit_pass(n: u64, max_body_bytes: u64, route: Seq<char>)
    ensures
        body_decision(BodyRead::Complete(n), max_body_bytes, route) is None <==> n
            <= max_body_bytes,
        n > max_body_bytes ==> body_decision(BodyRead::Complete(n), max_body_bytes, route) == Some(
            RefusalView {
                status: 413,
                message: "request body too large"@,
                route,
                over_limit: false,
                counted: true,
            },
        ),
        body_decision(BodyRead::TooLarge, max_body_bytes, route) == Some(
            RefusalView {
                status: 413,
                message: "request body too large"@,
                route,
                over_limit: false,
                counted: true,
            },
        ),
        body_decision(BodyRead::Unreadable, max_body_bytes, route) == Some(
            RefusalView {
                status: 400,
                message: "could not read request body"@,
                route,
                over_limit: false,
                counted: false,
            },
        ),
        response_decision(BodyRead::Complete(n), max_body_bytes) == Outcome::Answered <==> n
            <= max_body_bytes,
        n > max_body_bytes ==> response_decision(BodyRead::Complete(n), max_body_bytes)
            == Outcome::Unreachable,
        response_decision(BodyRead::TooLarge, max_body_bytes) == Outcome::Unreachable,
        response_decision(BodyRead::Unreadable, max_body_bytes) == Outcome::Unreachable,
{
}

/// Whether a request shows the credentials that a route asks for: in the header
/// of the route one of its API keys, or, as bearer, a token that is signed by the
/// secret of the route, valid, and from its issuer and for its audience, if it
/// has any.
pub open spec fn shows_credentials(
    config: AuthConfig,
    lines: Map<Seq<char>, Seq<Seq<u8>>>,
    now: i64,
) -> bool {
    match config {
        AuthConfig::ApiKey { header, keys } => exists|k: int|
            0 <= k < keys@.len() && headers::header_text(lines, header@) == Some(
                (#[trigger] keys@[k])@,
            ),
        AuthConfig::Jwt { secret, issuer, audience } => {
            exists|token: Seq<char>|
                headers::header_text(lines, "authorization"@) == Some("Bearer "@ + token)
                    && #[trigger] auth::is_good_token(
                    token,
                    secret@,
                    text::opt_text(issuer),
                    text::opt_text(audience),
                    now,
                )
        },
    }
}

/// Credentials are accepted exactly when they are those that the route asks for,
/// with the header and keys, or the secret, issuer and audience of the route.
pub proof fn credentials_are_those_of_the_route(
    config: AuthConfig,
    lines: Map<Seq<char>, Seq<Seq<u8>>>,
    now: i64,
)
    ensures
        auth_outcome(config, lines, now) is Ok <==> shows_credentials(config, lines, now),
        match config {
            AuthConfig::ApiKey { header, keys } => auth_outcome(config, lines, now) is Err ==> (
            auth_outcome(config, lines, now) == Err::<(), AuthError>(AuthError::MissingCredentials)
                <==> headers::header_text(lines, header@) is None),
            AuthConfig::Jwt { secret, issuer, audience } => auth_outcome(config, lines, now)
                == auth::jwt_outcome(
                lines,
                secret@,
                match issuer {
                    Some(s) => Some(s@),
                    None => None,
                },
                match audience {
                    Some(s) => Some(s@),
                    None => None,
                },
                now,
            ),
        },
{
    match config {
        AuthConfig::ApiKey { header, keys } => {
            let provided = headers::header_text(lines, header@);
            let list = text::texts(keys@);
            auth::exactly_the_listed_keys_pass(provided, list);
            if provided is Some && (exists|k: int|
                0 <= k < list.len() && #[trigger] list[k] == provided->0) {
                let k = choose|k: int| 0 <= k < list.len() && #[trigger] list[k] == provided->0;
                assert(provided == Some(keys@[k]@));
                assert(shows_credentials(config, lines, now));
            }
            if shows_credentials(config, lines, now) {
                let k = choose|k: int|
                    0 <= k < keys@.len() && headers::header_text(lines, header@) == Some(
                        (#[trigger] keys@[k])@,
                    );
                assert(list[k] == provided->0);
                assert(auth_outcome(config, lines, now) is Ok);
            }
        },
        AuthConfig::Jwt { secret, issuer, audience } => {
            auth::exactly_bearers_of_good_tokens_pass(
                lines,
                secret@,
                text::opt_text(issuer),
                text::opt_text(audience),
                now,
            );
        },
    }
}

/// Where a request is admitted on a route with an issuer or an audience, the
/// claims of its bearer token have that issuer and hold that audience, and the
/// token is signed by the secret of the route and valid now.
pub proof fn admitted_tokens_are_for_the_route(
    routes: Seq<RouteConfig>,
    limiters: Map<Seq<char>, LimiterView>,
    upstreams: Seq<Seq<char>>,
    path: Seq<char>,
    lines: Map<Seq<char>, Seq<Seq<u8>>>,
    client_ip: Option<Seq<char>>,
    now_secs: i64,
    now: int,
)
    ensures
        match entry_decision(
            routes,
            limiters,
            upstreams,
            path,
            lines,
            client_ip,
            now_secs,
            now,
        ).0 {
            Ok(target) => {
                &&& 0 <= target.route < routes.len()
                &&& match routes[target.route].auth {
                    Some(config) => shows_credentials(config, lines, now_secs),
                    None => true,
                }
                &&& routes[target.route].auth matches Some(AuthConfig::Jwt { secret, issuer, audience })
                    ==> exists|token: Seq<char>|
                    {
                        &&& headers::header_text(lines, "authorization"@) == Some(
                            #[trigger] ("Bearer "@ + token),
                        )
                        &&& auth::base64_decoded(text::pieces(token, '.')[1]) is Some
                        &&& auth::base64_decoded(text::pieces(token, '.')[2]) == Some(
                            auth::hmac_sha256(
                                vstd::utf8::encode_utf8(secret@),
                                vstd::utf8::encode_utf8(
                                    text::pieces(token, '.')[0] + "."@ + text::pieces(
                                        token,
                                        '.',
                                    )[1],
                                ),
                            ),
                        )
                        &&& match auth::claims_of(
                            auth::base64_decoded(text::pieces(token, '.')[1])->0,
                        ) {
                            Some(claims) => {
                                &&& claims.exp is Some ==> now_secs < claims.exp->0
                                &&& claims.nbf is Some ==> now_secs >= claims.nbf->0
                                &&& issuer matches Some(s) ==> claims.iss == Some(s@)
                                &&& audience matches Some(s) ==> match claims.aud {
                                    json::AudienceView::One(one) => one == s@,
                                    json::AudienceView::Many(list) => list.contains(Some(s@)),
                                    json::AudienceView::Absent => false,
                                    json::AudienceView::Other => false,
                                }
                            },
                            None => false,
                        }
                    }
            },
            Err(_) => true,
        },
{
    let decision = entry_decision(
        routes,
        limiters,
        upstreams,
        path,
        lines,
        client_ip,
        now_secs,
        now,
    ).0;
    if let Ok(target) = decision {
        assert(router::is_first_match(routes, path, target.route));
        if let Some(config) = routes[target.route].auth {
            credentials_are_those_of_the_route(config, lines, now_secs);
            if let AuthConfig::Jwt { secret, issuer, audience } = config {
                let token = choose|token: Seq<char>|
                    headers::header_text(lines, "authorization"@) == Some("Bearer "@ + token)
                        && #[trigger] auth::is_good_token(
                        token,
                        secret@,
                        text::opt_text(issuer),
                        text::opt_text(audience),
                        now_secs,
                    );
                let claims = auth::claims_of(
                    auth::base64_decoded(text::pieces(token, '.')[1])->0,
                )->0;
                assert(headers::header_text(lines, "authorization"@) == Some("Bearer "@ + token));
                assert(auth::claims_of(auth::base64_decoded(text::pieces(token, '.')[1])->0)
                    == Some(claims));
                if let Some(s) = audience {
                    if let json::AudienceView::Many(list) = claims.aud {
                        let k = choose|k: int|
                            0 <= k < list.len() && #[trigger] list[k] == Some(s@);
                        assert(list.contains(Some(s@)));
                    }
                }
            }
        }
    }
}

/// A request is decided in order. Where no route serves its path, it is answered
/// 404. Where the route asks for credentials that it does not show, 401, with the
/// reason, and its rate limit is not touched. Where the bucket of the client, or
/// of all clients without an address, under the route is empty, 429. Where there
/// is no upstream of the name that the route gives, 502. Else it goes to that
/// upstream. Only the limiter of the route is changed, and only by one request of
/// the client.
pub proof fn requests_are_decided_in_order(
    routes: Seq<RouteConfig>,
    limiters: Map<Seq<char>, LimiterView>,
    upstreams: Seq<Seq<char>>,
    path: Seq<char>,
    lines: Map<Seq<char>, Seq<Seq<u8>>>,
    client_ip: Option<Seq<char>>,
    now_secs: i64,
    now: int,
    i: int,
)
    requires
        0 <= i < routes.len(),
        router::serves(routes[i].path@, path),
        forall|k: int| 0 <= k < i ==> !router::serves((#[trigger] routes[k]).path@, path),
    ensures
        ({
            let (decision, after) = entry_decision(
                routes,
                limiters,
                upstreams,
                path,
                lines,
                client_ip,
                now_secs,
                now,
            );
            let route = routes[i];
            let refused = match route.auth {
                Some(config) => !shows_credentials(config, lines, now_secs),
                None => false,
            };
            let client = if client_ip is Some {
                client_ip->0
            } else {
                "unknown"@
            };
            let limited = route.rate_limit is Some && limiters.contains_key(route.path@);
            let (passed, limiter) = ratelimit::pass(limiters[route.path@], client, now);
            let over = limited && !passed;
            &&& refused ==> after == limiters && decision is Err && decision->Err_0.status == 401
                && decision->Err_0.route == route.path@ && decision->Err_0.counted
                && !decision->Err_0.over_limit && match auth_outcome(
                route.auth->0,
                lines,
                now_secs,
            ) {
                Err(e) => decision->Err_0.message == e.spec_message(),
                Ok(_) => false,
            }
            &&& !refused ==> after == if limited {
                limiters.insert(route.path@, limiter)
            } else {
                limiters
            }
            &&& !refused && over ==> decision == Err::<Target, RefusalView>(
                RefusalView {
                    status: 429,
                    message: "rate limit exceeded"@,
                    route: route.path@,
                    over_limit: true,
                    counted: true,
                },
            )
            &&& !refused && !over && !upstreams.contains(route.upstream@) ==> decision == Err::<
                Target,
                RefusalView,
            >(
                RefusalView {
                    status: 502,
                    message: "unknown upstream"@,
                    route: route.path@,
                    over_limit: false,
                    counted: true,
                },
            )
            &&& !refused && !over && upstreams.contains(route.upstream@) ==> match decision {
                Ok(target) => {
                    &&& target.route == i
                    &&& 0 <= target.upstream < upstreams.len()
                    &&& upstreams[target.upstream] == route.upstream@
                },
                Err(_) => false,
            }
        }),
{
    assert(router::is_first_match(routes, path, i));
    router::first_match_is_unique(routes, path, i);
    if let Some(config) = routes[i].auth {
        credentials_are_those_of_the_route(config, lines, now_secs);
    }
}

/// A path that no route serves is answered 404, and nothing is changed.
pub proof fn paths_without_a_route_are_not_found(
    routes: Seq<RouteConfig>,
    limiters: Map<Seq<char>, LimiterView>,
    upstreams: Seq<Seq<char>>,
    path: Seq<char>,
    lines: Map<Seq<char>, Seq<Seq<u8>>>,
    client_ip: Option<Seq<char>>,
    now_secs: i64,
    now: int,
)
    requires
        forall|k: int|
            0 <= k < routes.len() ==> !router::serves((#[trigger] routes[k]).path@, path),
    ensures
        entry_decision(routes, limiters, upstreams, path, lines, client_ip, now_secs, now) == (
            Err::<Target, RefusalView>(
                RefusalView {
                    status: 404,
                    message: "no matching route"@,
                    route: "unmatched"@,
                    over_limit: false,
                    counted: true,
                },
            ),
            limiters,
        ),
{
    assert forall|i: int| !router::is_first_match(routes, path, i) by {}
}

/// What one client sends does not bear on what is decided of another: the next
/// request of the other, on whatever path, is decided as if it had not been.
pub proof fn clients_do_not_spend_for_each_other(
    routes: Seq<RouteConfig>,
    limiters: Map<Seq<char>, LimiterView>,
    upstreams: Seq<Seq<char>>,
    path: Seq<char>,
    lines: Map<Seq<char>, Seq<Seq<u8>>>,
    ip: Seq<char>,
    now_secs: i64,
    now: int,
    other_path: Seq<char>,
    other_lines: Map<Seq<char>, Seq<Seq<u8>>>,
    other_ip: Seq<char>,
    later_secs: i64,
    later: int,
)
    requires
        ip != other_ip,
    ensures
        ({
            let after = entry_decision(
                routes,
                limiters,
                upstreams,
                path,
                lines,
                Some(ip),
                now_secs,
                now,
            ).1;
            entry_decision(
                routes,
                after,
                upstreams,
                other_path,
                other_lines,
                Some(other_ip),
                later_secs,
                later,
            ).0 == entry_decision(
                routes,
                limiters,
                upstreams,
                other_path,
                other_lines,
                Some(other_ip),
                later_secs,
                later,
            ).0
        }),
{
    if let Some(i) = router::route_for(routes, path) {
        if limiters.contains_key(routes[i].path@) {
            ratelimit::clients_are_independent(
                limiters[routes[i].path@],
                ip,
                other_ip,
                now,
                later,
            );
        }
    }
}

/// The header lines that reach a backend, from those that came with a request.
pub open spec fn lines_sent(
    lines: Map<Seq<char>, Seq<Seq<u8>>>,
    client_ip: Option<Seq<char>>,
    scheme: Seq<char>,
    authority: Seq<char>,
    original_host: Option<Seq<char>>,
    request_id: Seq<char>,
) -> Map<Seq<char>, Seq<Seq<u8>>> {
    forwarded_lines(augmented(lines, client_ip, scheme), authority, original_host, request_id)
}

proof fn lemma_names_set_differ()
    ensures
        "x-forwarded-for"@.len() == 15,
        "x-forwarded-proto"@.len() == 17,
        "x-forwarded-host"@.len() == 16,
        "x-request-id"@.len() == 12,
        "host"@.len() == 4,
{
    reveal_strlit("x-forwarded-for");
    reveal_strlit("x-forwarded-proto");
    reveal_strlit("x-forwarded-host");
    reveal_strlit("x-request-id");
    reveal_strlit("host");
}

/// None of the headers that speak of the connection of the client reaches a
/// backend, and every other reaches it as it came, all its values in order, but
/// for the five that the gateway sets.
pub proof fn headers_of_the_connection_stay_behind(
    lines: Map<Seq<char>, Seq<Seq<u8>>>,
    client_ip: Option<Seq<char>>,
    scheme: Seq<char>,
    authority: Seq<char>,
    original_host: Option<Seq<char>>,
    request_id: Seq<char>,
    name: Seq<char>,
)
    ensures
        ({
            let sent = lines_sent(lines, client_ip, scheme, authority, original_host, request_id);
            let of_connection = name == "connection"@ || name == "keep-alive"@ || name
                == "proxy-authenticate"@ || name == "proxy-authorization"@ || name == "te"@ || name
                == "trailers"@ || name == "transfer-encoding"@ || name == "upgrade"@;
            let set = name == "x-forwarded-for"@ || name == "x-forwarded-proto"@ || name
                == "x-forwarded-host"@ || name == "x-request-id"@ || name == "host"@;
            &&& of_connection ==> !sent.contains_key(name)
            &&& !of_connection && !set ==> (sent.contains_key(name) <==> lines.contains_key(name))
            &&& !of_connection && !set && lines.contains_key(name) ==> sent[name] == lines[name]
        }),
{
    let names = hop_by_hop();
    assert(names[0] == "connection"@ && names[1] == "keep-alive"@ && names[2]
        == "proxy-authenticate"@ && names[3] == "proxy-authorization"@ && names[4] == "te"@
        && names[5] == "trailers"@ && names[6] == "transfer-encoding"@ && names[7] == "upgrade"@);
    if names.contains(name) {
        hop_by_hop_headers_are_not_forwarded(
            lines,
            client_ip,
            scheme,
            authority,
            original_host,
            request_id,
            names.index_of(name),
        );
    } else if !is_set_by_gateway(name) {
        other_headers_are_kept(
            lines,
            client_ip,
            scheme,
            authority,
            original_host,
            request_id,
            name,
        );
    }
    assert(forall|k: int| 0 <= k < names.len() ==> names.contains(#[trigger] names[k]));
}

/// Whether a text holds no control character but the tab, so that it may be a
/// header value.
pub open spec fn is_value_text(s: Seq<char>) -> bool {
    forall|i: int|
        0 <= i < vstd::utf8::encode_utf8(s).len() ==> {
            let b = #[trigger] vstd::utf8::encode_utf8(s)[i];
            b == 9 || (b >= 32 && b != 127)
        }
}

/// A backend is told where a request came from: the address of the client stands
/// at the end of the chain in `x-forwarded-for`, which is begun with it where
/// there is none; `x-forwarded-proto` is the scheme alone; the host that the
/// client has asked for is added to `x-forwarded-host`, and the id of the request
/// to `x-request-id`. The host of the request is the authority of the backend
/// alone. What may not be a header value is not added, and changes nothing.
pub proof fn a_backend_is_told_where_a_request_came_from(
    lines: Map<Seq<char>, Seq<Seq<u8>>>,
    client_ip: Option<Seq<char>>,
    scheme: Seq<char>,
    authority: Seq<char>,
    original_host: Option<Seq<char>>,
    request_id: Seq<char>,
)
    ensures
        ({
            let sent = lines_sent(lines, client_ip, scheme, authority, original_host, request_id);
            let chain = match headers::header_text(lines, "x-forwarded-for"@) {
                Some(chain) => chain + ", "@ + client_ip->0,
                None => client_ip->0,
            };
            let hosts = if lines.contains_key("x-forwarded-host"@) {
                lines["x-forwarded-host"@]
            } else {
                Seq::empty()
            };
            let ids = if lines.contains_key("x-request-id"@) {
                lines["x-request-id"@]
            } else {
                Seq::empty()
            };
            &&& client_ip is Some && is_value_text(chain) ==> sent.contains_key(
                "x-forwarded-for"@,
            ) && sent["x-forwarded-for"@] == seq![vstd::utf8::encode_utf8(chain)]
            &&& client_ip is None || !is_value_text(chain) ==> (sent.contains_key(
                "x-forwarded-for"@,
            )
                <==> lines.contains_key("x-forwarded-for"@)) && (lines.contains_key(
                "x-forwarded-for"@,
            ) ==> sent["x-forwarded-for"@] == lines["x-forwarded-for"@])
            &&& is_value_text(scheme) ==> sent.contains_key("x-forwarded-proto"@)
                && sent["x-forwarded-proto"@] == seq![vstd::utf8::encode_utf8(scheme)]
            &&& !is_value_text(scheme) ==> (sent.contains_key("x-forwarded-proto"@)
                <==> lines.contains_key("x-forwarded-proto"@)) && (lines.contains_key(
                "x-forwarded-proto"@,
            ) ==> sent["x-forwarded-proto"@] == lines["x-forwarded-proto"@])
            &&& original_host is Some && is_value_text(original_host->0) ==> sent.contains_key(
                "x-forwarded-host"@,
            ) && sent["x-forwarded-host"@] == hosts.push(
                vstd::utf8::encode_utf8(original_host->0),
            )
            &&& original_host is None || !is_value_text(original_host->0) ==> (sent.contains_key(
                "x-forwarded-host"@,
            )
                <==> lines.contains_key("x-forwarded-host"@)) && (lines.contains_key(
                "x-forwarded-host"@,
            ) ==> sent["x-forwarded-host"@] == hosts)
            &&& sent.contains_key("x-request-id"@)
            &&& sent["x-request-id"@] == ids.push(vstd::utf8::encode_utf8(request_id))
            &&& sent.contains_key("host"@) <==> authority.len() > 0
            &&& authority.len() > 0 ==> sent["host"@] == seq![vstd::utf8::encode_utf8(authority)]
        }),
{
    lemma_names_set_differ();
    lemma_lower_host();
    lemma_hop_by_hop_names();
    let kept = without(lines, hop_by_hop());
    lemma_kept(lines, "x-forwarded-for"@);
    lemma_kept(lines, "x-forwarded-proto"@);
    lemma_kept(lines, "x-forwarded-host"@);
    lemma_kept(lines, "x-request-id"@);
    if client_ip is Some {
        lemma_value_text(forwarded_for(kept, client_ip->0));
    }
    lemma_value_text(scheme);
    if original_host is Some {
        lemma_value_text(original_host->0);
    }
    assert(Seq::<Seq<u8>>::empty().push(text::utf8(authority)) =~= seq![text::utf8(authority)]);
}

proof fn lemma_value_text(s: Seq<char>)
    ensures
        is_value_text(s) <==> fits_header(s),
{
    if fits_header(s) {
        assert forall|i: int| 0 <= i < vstd::utf8::encode_utf8(s).len() implies {
            let b = #[trigger] vstd::utf8::encode_utf8(s)[i];
            b == 9 || (b >= 32 && b != 127)
        } by {
            assert(headers::is_value_byte(text::utf8(s)[i]));
        }
    }
    if is_value_text(s) {
        assert forall|i: int| 0 <= i < text::utf8(s).len() implies headers::is_value_byte(
            #[trigger] text::utf8(s)[i],
        ) by {
            let b = vstd::utf8::encode_utf8(s)[i];
            assert(b == 9 || (b >= 32 && b != 127));
        }
    }
}

proof fn lemma_kept(lines: Map<Seq<char>, Seq<Seq<u8>>>, name: Seq<char>)
    requires
        is_set_by_gateway(name),
    ensures
        without(lines, hop_by_hop()).contains_key(name) <==> lines.contains_key(name),
        lines.contains_key(name) ==> without(lines, hop_by_hop())[name] == lines[name],
{
    lemma_hop_by_hop_names();
    lemma_without(lines, hop_by_hop(), name);
    assert forall|i: int| 0 <= i < hop_by_hop().len() implies (#[trigger] hop_by_hop()[i]) != name by {
        assert(!is_set_by_gateway(hop_by_hop()[i]));
    }
}

/// A request is sent to the URL of the backend, without the slashes at its end,
/// with the path and query of the request behind it, or a slash where it has
/// none.
pub proof fn requests_keep_their_path(base: Seq<char>, slashes: nat, path: Seq<char>)
    requires
        base.len() > 0 ==> base.last() != '/',
    ensures
        backend_uri(base + Seq::new(slashes, |i: int| '/'), Some(path)) == base + path,
        backend_uri(base + Seq::new(slashes, |i: int| '/'), None) == base + "/"@,
{
    text::trimming_takes_the_end_away(base, slashes, '/');
}

/// A refusal is counted once under its method, route and status, with its
/// duration, unless it is one that is not counted; as a rejection of its route
/// where a rate limit has turned the request away; and as a failure of its route
/// where its status is 502, 503 or 504. Nothing else is counted.
pub proof fn refusals_are_counted(
    m: MetricsView,
    method: Seq<char>,
    r: RefusalView,
    ms: u64,
    key: metrics::KeyView,
    route: Seq<char>,
)
    requires
        m.total < u64::MAX,
        metrics::latencies_of(m, r.route).sum_ms + ms <= u64::MAX,
        counts::count_of(m.rejections, r.route) < u64::MAX,
    ensures
        ({
            let after = noted_refusal(m, method, r, ms);
            let failed = r.status == 502 || r.status == 503 || r.status == 504;
            &&& after.total == m.total + if r.counted {
                1int
            } else {
                0
            }
            &&& counts::count_of(after.requests, key) == counts::count_of(m.requests, key)
                + if r.counted && key == (method, r.route, r.status) {
                1int
            } else {
                0
            }
            &&& counts::count_of(after.rejections, route) == counts::count_of(m.rejections, route)
                + if r.over_limit && route == r.route {
                1int
            } else {
                0
            }
            &&& counts::count_of(after.failures, route) == counts::count_of(m.failures, route)
                + if r.counted && failed && route == r.route {
                1int
            } else {
                0
            }
            &&& metrics::latencies_of(after, route).count == metrics::latencies_of(m, route).count
                + if r.counted && route == r.route {
                1int
            } else {
                0
            }
            &&& metrics::latencies_of(after, route).sum_ms == metrics::latencies_of(m, route).sum_ms
                + if r.counted && route == r.route {
                ms as int
            } else {
                0
            }
        }),
{
}

/// An answer of a backend is counted once under its method, route and status,
/// with its duration, and never as a failure of the gateway or a rejection.
pub proof fn answers_are_counted(
    m: MetricsView,
    method: Seq<char>,
    route: Seq<char>,
    status: u16,
    ms: u64,
    key: metrics::KeyView,
    other: Seq<char>,
)
    requires
        m.total < u64::MAX,
        metrics::latencies_of(m, route).sum_ms + ms <= u64::MAX,
    ensures
        ({
            let after = noted_response(m, method, route, status, ms);
            &&& after.total == m.total + 1
            &&& counts::count_of(after.requests, key) == counts::count_of(m.requests, key) + if key
                == (method, route, status) {
                1int
            } else {
                0
            }
            &&& after.failures == m.failures
            &&& after.rejections == m.rejections
            &&& metrics::latencies_of(after, other).count == metrics::latencies_of(m, other).count
                + if other == route {
                1int
            } else {
                0
            }
            &&& metrics::latencies_of(after, other).sum_ms == metrics::latencies_of(m, other).sum_ms
                + if other == route {
                ms as int
            } else {
                0
            }
        }),
{
}

/// Something can be sent to a backend exactly when its URL makes a URI with the
/// path, and both the authority of that, if it has one, and the id of the request
/// may be header values. The authority is that of the URI.
pub proof fn what_can_be_sent(uri: Seq<char>, request_id: Seq<char>)
    ensures
        can_forward(uri, request_id) <==> match uri_authority(uri) {
            Some(Some(authority)) => is_value_text(authority) && is_value_text(request_id),
            Some(None) => is_value_text(request_id),
            None => false,
        },
        host_for(uri) == match uri_authority(uri) {
            Some(Some(authority)) => authority,
            Some(None) => Seq::empty(),
            None => Seq::empty(),
        },
{
    lemma_value_text(request_id);
    lemma_value_text(host_for(uri));
    lemma_value_text(Seq::empty());
    lemma_empty_fits();
}

/// A step is an attempt against the backend that the upstream chooses, as long as
/// attempts are left: one more is made then, and the backend has one request more
/// under way. Where the upstream chooses none, or no attempt is left, nothing is
/// tried. Only the choice changes the upstream otherwise.
pub proof fn steps_follow_the_choice(a: AttemptsView, p: PoolView, now: int, seed: u64)
    requires
        balancer::is_sound(p),
    ensures
        ({
            let (step, after, pool) = next_step(a, p, now, seed);
            let (choice, chosen) = balancer::choose_backend(p, now, seed);
            &&& a.made >= a.allowed ==> step is GiveUp && after == a && pool == p
            &&& a.made < a.allowed && choice is None ==> {
                &&& step is GiveUp
                &&& after == (AttemptsView {
                    last_failure: AttemptFailure::NoBackendAvailable,
                    ..a
                })
                &&& pool == chosen
            }
            &&& a.made < a.allowed && choice is Some ==> {
                let j = choice->0;
                &&& step == StepView::Forward(j)
                &&& after == (AttemptsView { made: a.made + 1, ..a })
                &&& pool == (PoolView { backends: pool.backends, ..chosen })
                &&& pool.backends.len() == p.backends.len()
                &&& chosen.backends[j].connections < usize::MAX ==> pool.backends[j]
                    == (balancer::BackendView {
                    connections: (chosen.backends[j].connections + 1) as usize,
                    ..chosen.backends[j]
                })
                &&& forall|i: int|
                    0 <= i < p.backends.len() && i != j ==> #[trigger] pool.backends[i]
                        == p.backends[i]
            }
        }),
{
    balancer::selected_backend_is_available(p, now, seed);
}

} // verus!
