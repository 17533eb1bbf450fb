//! Who may use a route: API keys, and JSON web tokens signed with HS256.

use crate::clock;
use crate::headers;
use crate::json;
use crate::json::{Audience, AudienceView};
use crate::text;
use axum::http::HeaderMap;
use base64::engine::general_purpose::URL_SAFE_NO_PAD;
use base64::Engine;
use hmac::{Hmac, Mac};
use sha2::Sha256;
use vstd::prelude::*;

verus! {

/// Why credentials are refused.
#[derive(Debug, Clone, Copy, PartialEq, Eq, Structural)]
pub enum AuthError {
    MissingCredentials,
    InvalidApiKey,
    MalformedToken,
    InvalidSignature,
    Expired,
    NotYetValid,
    InvalidIssuer,
    InvalidAudience,
    UnsupportedAlgorithm,
}

impl AuthError {
    /// What the caller is told.
    pub open spec fn spec_message(self) -> Seq<char> {
        match self {
            AuthError::MissingCredentials => "falta el header de autenticación"@,
            AuthError::InvalidApiKey => "api key inválida"@,
            AuthError::MalformedToken => "token JWT malformado"@,
            AuthError::InvalidSignature => "firma del JWT inválida"@,
            AuthError::Expired => "el JWT expiró"@,
            AuthError::NotYetValid => "el JWT todavía no es válido (nbf)"@,
            AuthError::InvalidIssuer => "issuer del JWT no coincide"@,
            AuthError::InvalidAudience => "audience del JWT no coincide"@,
            AuthError::UnsupportedAlgorithm => "algoritmo del JWT no soportado (sólo HS256 por ahora)"@,
        }
    }

    /// What the caller is told.
    pub fn message(&self) -> (s: &'static str)
        ensures
            s@ == self.spec_message(),
    {
        match self {
            AuthError::MissingCredentials => "falta el header de autenticación",
            AuthError::InvalidApiKey => "api key inválida",
            AuthError::MalformedToken => "token JWT malformado",
            AuthError::InvalidSignature => "firma del JWT inválida",
            AuthError::Expired => "el JWT expiró",
            AuthError::NotYetValid => "el JWT todavía no es válido (nbf)",
            AuthError::InvalidIssuer => "issuer del JWT no coincide",
            AuthError::InvalidAudience => "audience del JWT no coincide",
            AuthError::UnsupportedAlgorithm => "algoritmo del JWT no soportado (sólo HS256 por ahora)",
        }
    }
}

/// What becomes of a request that shows `provided` for an API key.
pub open spec fn api_key_outcome(provided: Option<Seq<char>>, keys: Seq<Seq<char>>) -> Result<
    (),
    AuthError,
> {
    match provided {
        None => Err(AuthError::MissingCredentials),
        Some(key) => if keys.contains(key) {
            Ok(())
        } else {
            Err(AuthError::InvalidApiKey)
        },
    }
}

/// Whether the header called `header_name` holds one of the valid keys.
pub fn verify_api_key(headers: &HeaderMap, header_name: &str, valid_keys: &[String]) -> (r: Result<
    (),
    AuthError,
>)
    ensures
        r == api_key_outcome(
            headers::header_text(headers::header_lines(*headers), header_name@),
            text::texts(valid_keys@),
        ),
        r is Ok <==> exists|k: int|
            0 <= k < valid_keys@.len() && headers::header_text(
                headers::header_lines(*headers),
                header_name@,
            ) == Some((#[trigger] valid_keys@[k])@),
{
    proof {
        let provided = headers::header_text(headers::header_lines(*headers), header_name@);
        let list = text::texts(valid_keys@);
        exactly_the_listed_keys_pass(provided, list);
        if provided is Some && (exists|k: int|
            0 <= k < list.len() && #[trigger] list[k] == provided->0) {
            let k = choose|k: int| 0 <= k < list.len() && #[trigger] list[k] == provided->0;
            assert(provided == Some(valid_keys@[k]@));
        }
        if exists|k: int| 0 <= k < valid_keys@.len() && provided == Some((#[trigger] valid_keys@[k])@) {
            let k = choose|k: int|
                0 <= k < valid_keys@.len() && provided == Some((#[trigger] valid_keys@[k])@);
            assert(list[k] == provided->0);
        }
    }
    match headers::text_of_header(headers, header_name) {
        None => Err(AuthError::MissingCredentials),
        Some(provided) => {
            if one_of(provided.as_str(), valid_keys) {
                Ok(())
            } else {
                Err(AuthError::InvalidApiKey)
            }
        },
    }
}

/// Whether `s` is one of the texts of a list.
fn one_of(s: &str, list: &[String]) -> (r: bool)
    ensures
        r == text::texts(list@).contains(s@),
{
    let n: usize = list.len();
    let mut i: usize = 0;
    while i < n
        invariant
            i <= n,
            n == list@.len(),
            forall|k: int| 0 <= k < i ==> (#[trigger] list@[k])@ != s@,
        decreases n - i,
    {
        if text::same_text(list[i].as_str(), s) {
            assert(text::texts(list@)[i as int] == s@);
            return true;
        }
        i = i + 1;
    }
    proof {
        if text::texts(list@).contains(s@) {
            let k = text::texts(list@).index_of(s@);
            assert(list@[k]@ == s@);
        }
    }
    false
}

/// The bytes that a text of the URL-safe base64 alphabet without padding
/// stands for, if it is one.
pub uninterp spec fn base64_decoded(s: Seq<char>) -> Option<Seq<u8>>;

/// Bytes in the URL-safe base64 alphabet without padding.
pub uninterp spec fn base64_encoded(bytes: Seq<u8>) -> Seq<char>;

/// A list of bytes that may be missing.
pub open spec fn opt_bytes(b: Option<Vec<u8>>) -> Option<Seq<u8>> {
    match b {
        Some(b) => Some(b@),
        None => None,
    }
}

/// `Engine::decode` of the `base64` crate, with the URL-safe alphabet and
/// without padding. What a text decodes to is named.
#[verifier::external_body]
fn base64_decode(s: &str) -> (r: Option<Vec<u8>>)
    ensures
        opt_bytes(r) == base64_decoded(s@),
{
    URL_SAFE_NO_PAD.decode(s).ok()
}

/// `Engine::encode` of the `base64` crate, with the URL-safe alphabet and
/// without padding. What bytes are encoded as is named; decoding gives them
/// back, and a dot is not in the alphabet. It panics where the result does not
/// fit into memory, which a third more than the bytes does.
#[verifier::external_body]
fn base64_encode(bytes: &[u8]) -> (r: String)
    requires
        bytes@.len() <= usize::MAX / 4,
    ensures
        r@ == base64_encoded(bytes@),
        base64_decoded(r@) == Some(bytes@),
        !r@.contains('.'),
{
    URL_SAFE_NO_PAD.encode(bytes)
}

/// The HMAC of a message by a key, with SHA-256.
pub uninterp spec fn hmac_sha256(key: Seq<u8>, message: Seq<u8>) -> Seq<u8>;

/// `Mac::verify_slice` of the `hmac` crate, with SHA-256: whether a tag is the
/// HMAC of the message. A key of any length is accepted.
#[verifier::external_body]
fn hmac_matches(key: &[u8], message: &[u8], tag: &[u8]) -> (r: bool)
    ensures
        r == (tag@ == hmac_sha256(key@, message@)),
{
    match Hmac::<Sha256>::new_from_slice(key) {
        Ok(mac) => mac.chain_update(message).verify_slice(tag).is_ok(),
        Err(_) => false,
    }
}

/// `Mac::finalize` of the `hmac` crate, with SHA-256: the HMAC of a message,
/// which is 32 bytes long. A key of any length is accepted.
#[verifier::external_body]
fn hmac_of(key: &[u8], message: &[u8]) -> (r: Vec<u8>)
    ensures
        r@ == hmac_sha256(key@, message@),
        r@.len() == 32,
{
    let mac = Hmac::<Sha256>::new_from_slice(key).unwrap();
    mac.chain_update(message).finalize().into_bytes().to_vec()
}

/// What a token says of itself.
#[derive(Debug)]
pub struct JwtClaims {
    /// Second from which on the token is no longer valid.
    pub exp: Option<i64>,
    /// Second before which the token is not valid.
    pub nbf: Option<i64>,
    /// Who has issued the token.
    pub iss: Option<String>,
    /// Whom the token is meant for.
    pub aud: Audience,
}

/// Claims as the contracts see them.
pub struct ClaimsView {
    pub exp: Option<i64>,
    pub nbf: Option<i64>,
    pub iss: Option<Seq<char>>,
    pub aud: AudienceView,
}

impl View for JwtClaims {
    type V = ClaimsView;

    open spec fn view(&self) -> ClaimsView {
        ClaimsView {
            exp: self.exp,
            nbf: self.nbf,
            iss: text::opt_text(self.iss),
            aud: self.aud@,
        }
    }
}

/// Whether a token for `aud` is meant for `expected`.
pub open spec fn audience_holds(aud: AudienceView, expected: Seq<char>) -> bool {
    match aud {
        AudienceView::One(s) => s == expected,
        AudienceView::Many(list) => list.contains(Some(expected)),
        _ => false,
    }
}

/// What becomes of a token with these claims, at `now` seconds.
pub open spec fn claims_outcome(
    claims: ClaimsView,
    issuer: Option<Seq<char>>,
    audience: Option<Seq<char>>,
    now: i64,
) -> Result<(), AuthError> {
    if claims.exp is Some && now >= claims.exp->0 {
        Err(AuthError::Expired)
    } else if claims.nbf is Some && now < claims.nbf->0 {
        Err(AuthError::NotYetValid)
    } else if issuer is Some && claims.iss != issuer {
        Err(AuthError::InvalidIssuer)
    } else if audience is Some && !audience_holds(claims.aud, audience->0) {
        Err(AuthError::InvalidAudience)
    } else {
        Ok(())
    }
}

/// A borrowed text that may be missing, as its characters.
pub open spec fn opt_str(s: Option<&str>) -> Option<Seq<char>> {
    match s {
        Some(s) => Some(s@),
        None => None,
    }
}

/// Whether a token with these claims is valid at `now` seconds, and comes from
/// the issuer and is meant for the audience that are expected, if any.
pub fn check_claims(
    claims: &JwtClaims,
    expected_issuer: Option<&str>,
    expected_audience: Option<&str>,
    now: i64,
) -> (r: Result<(), AuthError>)
    ensures
        r == claims_outcome(claims@, opt_str(expected_issuer), opt_str(expected_audience), now),
{
    if let Some(exp) = claims.exp {
        if now >= exp {
            return Err(AuthError::Expired);
        }
    }
    if let Some(nbf) = claims.nbf {
        if now < nbf {
            return Err(AuthError::NotYetValid);
        }
    }
    if let Some(expected) = expected_issuer {
        let same = match &claims.iss {
            Some(iss) => text::same_text(iss.as_str(), expected),
            None => false,
        };
        if !same {
            return Err(AuthError::InvalidIssuer);
        }
    }
    if let Some(expected) = expected_audience {
        if !is_meant_for(&claims.aud, expected) {
            return Err(AuthError::InvalidAudience);
        }
    }
    Ok(())
}

/// Whether a token for `aud` is meant for `expected`.
fn is_meant_for(aud: &Audience, expected: &str) -> (r: bool)
    ensures
        r == audience_holds(aud@, expected@),
{
    match aud {
        Audience::One(s) => text::same_text(s.as_str(), expected),
        Audience::Many(list) => {
            let ghost views = aud@->Many_0;
            let n: usize = list.len();
            let mut i: usize = 0;
            while i < n
                invariant
                    i <= n,
                    n == list@.len(),
                    aud@ == AudienceView::Many(views),
                    views == list@.map_values(|s: Option<String>| text::opt_text(s)),
                    forall|k: int| 0 <= k < i ==> #[trigger] views[k] != Some(expected@),
                decreases n - i,
            {
                assert(views[i as int] == text::opt_text(list@[i as int]));
                if let Some(s) = &list[i] {
                    if text::same_text(s.as_str(), expected) {
                        assert(views[i as int] == Some(expected@));
                        return true;
                    }
                }
                i = i + 1;
            }
            proof {
                if views.contains(Some(expected@)) {
                    let k = views.index_of(Some(expected@));
                    assert(views[k] == Some(expected@));
                }
            }
            false
        },
        Audience::Absent => false,
        Audience::Other => false,
    }
}

/// The value of the first member called `name`, if there is one.
pub open spec fn member_value(members: Seq<(Seq<u8>, Seq<u8>)>, name: Seq<char>) -> Option<Seq<u8>>
    decreases members.len(),
{
    if members.len() == 0 {
        None
    } else if json::json_string(members[0].0) == Some(name) {
        Some(members[0].1)
    } else {
        member_value(members.drop_first(), name)
    }
}

/// How many members are called `name`.
pub open spec fn times_named(members: Seq<(Seq<u8>, Seq<u8>)>, name: Seq<char>) -> nat
    decreases members.len(),
{
    if members.len() == 0 {
        0
    } else {
        times_named(members.drop_first(), name) + if json::json_string(members[0].0) == Some(name) {
            1nat
        } else {
            0
        }
    }
}

/// Whether two members are called `name`.
pub open spec fn is_repeated(members: Seq<(Seq<u8>, Seq<u8>)>, name: Seq<char>) -> bool {
    times_named(members, name) > 1
}

/// The algorithm that the header of a token names: a string, the value of the
/// only member called `alg`, or the only element of an array.
pub open spec fn algorithm_of(header: Seq<u8>) -> Option<Seq<char>> {
    if json::json_is_object(header) {
        let members = json::members_from(header, 0);
        if is_repeated(members, "alg"@) {
            None
        } else {
            match member_value(members, "alg"@) {
                Some(value) => json::json_string(value),
                None => None,
            }
        }
    } else {
        match json::json_elements(header) {
            Some(elements) => if elements.len() == 1 {
                json::json_string(elements[0])
            } else {
                None
            },
            None => None,
        }
    }
}

/// The claims that four values stand for, if each is what it should be. A
/// value that is missing is no claim.
pub open spec fn claims_from(
    exp: Option<Seq<u8>>,
    nbf: Option<Seq<u8>>,
    iss: Option<Seq<u8>>,
    aud: Option<Seq<u8>>,
) -> Option<ClaimsView> {
    let exp = match exp {
        Some(v) => json::json_optional_integer(v),
        None => Some(None),
    };
    let nbf = match nbf {
        Some(v) => json::json_optional_integer(v),
        None => Some(None),
    };
    let iss = match iss {
        Some(v) => json::json_optional_string(v),
        None => Some(None),
    };
    let aud = match aud {
        Some(v) => json::audience_of(v),
        None => Some(AudienceView::Absent),
    };
    if exp is Some && nbf is Some && iss is Some && aud is Some {
        Some(ClaimsView { exp: exp->0, nbf: nbf->0, iss: iss->0, aud: aud->0 })
    } else {
        None
    }
}

/// The claims in the payload of a token: members of an object, none of which
/// may stand twice, or the four elements of an array. Other members are passed
/// over.
pub open spec fn claims_of(payload: Seq<u8>) -> Option<ClaimsView> {
    if json::json_is_object(payload) {
        let members = json::members_from(payload, 0);
        if is_repeated(members, "exp"@) || is_repeated(members, "nbf"@) || is_repeated(
            members,
            "iss"@,
        ) || is_repeated(members, "aud"@) {
            None
        } else {
            claims_from(
                member_value(members, "exp"@),
                member_value(members, "nbf"@),
                member_value(members, "iss"@),
                member_value(members, "aud"@),
            )
        }
    } else {
        match json::json_elements(payload) {
            Some(e) => if e.len() == 4 {
                claims_from(Some(e[0]), Some(e[1]), Some(e[2]), Some(e[3]))
            } else {
                None
            },
            None => None,
        }
    }
}

/// Whether a text is read from a JSON string, where it is a plain one.
spec fn is_read(text: Seq<u8>) -> bool {
    forall|x: Seq<char>|
        json::is_plain(x) && text == text::utf8(#[trigger] json::quoted(x)) ==> json::json_string(
            text,
        ) == Some(x)
}

/// The places of the members called `name`: how many they are, and the first.
fn find_members(members: &Vec<(Vec<u8>, Vec<u8>)>, name: &str) -> (r: (usize, usize))
    ensures
        r.0 == times_named(json::member_views(members@), name@),
        match member_value(json::member_views(members@), name@) {
            Some(v) => r.0 > 0 && r.1 < members@.len() && members@[r.1 as int].1@ == v,
            None => r.0 == 0,
        },
        forall|k: int| 0 <= k < members@.len() ==> is_read((#[trigger] members@[k]).0@),
{
    let ghost views = json::member_views(members@);
    let n: usize = members.len();
    let mut count: usize = 0;
    let mut first: usize = 0;
    let mut i: usize = n;
    assert(views.skip(n as int) =~= Seq::<(Seq<u8>, Seq<u8>)>::empty());
    while i > 0
        invariant
            i <= n,
            n == members@.len(),
            views == json::member_views(members@),
            count <= n - i,
            count == times_named(views.skip(i as int), name@),
            match member_value(views.skip(i as int), name@) {
                Some(v) => count > 0 && first < n && members@[first as int].1@ == v,
                None => count == 0,
            },
            forall|k: int| i <= k < n ==> is_read((#[trigger] members@[k]).0@),
        decreases i,
    {
        i = i - 1;
        assert(views.skip(i as int).drop_first() =~= views.skip(i + 1));
        assert(views.skip(i as int)[0] == views[i as int]);
        let read = json::read_string(members[i].0.as_slice());
        assert(is_read(members@[i as int].0@));
        if let Some(s) = read {
            if text::same_text(s.as_str(), name) {
                count = count + 1;
                first = i;
            }
        }
    }
    assert(views.skip(0) =~= views);
    (count, first)
}

/// The standard header is an object of two plain members.
proof fn lemma_standard_header()
    ensures
        standard_header() == json::object_of_two("alg"@, "HS256"@, "typ"@, "JWT"@),
        json::is_plain("alg"@),
        json::is_plain("HS256"@),
        json::is_plain("typ"@),
        json::is_plain("JWT"@),
        "alg"@ != "typ"@,
        json::members_from(text::utf8(standard_header()), 0) == seq![
            (text::utf8(json::quoted("alg"@)), text::utf8(json::quoted("HS256"@))),
            (text::utf8(json::quoted("typ"@)), text::utf8(json::quoted("JWT"@))),
        ],
{
    reveal_strlit("{\"alg\":\"HS256\",\"typ\":\"JWT\"}");
    reveal_strlit("alg");
    reveal_strlit("HS256");
    reveal_strlit("typ");
    reveal_strlit("JWT");
    assert(standard_header() =~= json::object_of_two("alg"@, "HS256"@, "typ"@, "JWT"@));
    assert("alg"@[0] != "typ"@[0]);
    json::members_of_object_of_two("alg"@, "HS256"@, "typ"@, "JWT"@);
}

/// Reads the algorithm that the header of a token names.
fn read_algorithm(header: &[u8]) -> (r: Option<String>)
    ensures
        text::opt_text(r) == algorithm_of(header@),
        header@ == text::utf8(standard_header()) ==> algorithm_of(header@) == Some("HS256"@),
{
    proof {
        lemma_standard_header();
    }
    if json::reads_as_object(header) {
        let members = json::members(header);
        let (count, first) = find_members(&members, "alg");
        let ghost views = json::member_views(members@);
        proof {
            if header@ == text::utf8(standard_header()) {
                assert(views[0] == (members@[0].0@, members@[0].1@));
                assert(views[1] == (members@[1].0@, members@[1].1@));
                assert(is_read(members@[0].0@) && is_read(members@[1].0@));
                assert(json::json_string(views[0].0) == Some("alg"@));
                assert(json::json_string(views[1].0) == Some("typ"@));
                reveal_with_fuel(times_named, 3);
                assert(views.drop_first()[0] == views[1]);
                assert(views.drop_first().drop_first() =~= Seq::<(Seq<u8>, Seq<u8>)>::empty());
                assert(member_value(views, "alg"@) == Some(views[0].1));
            }
        }
        if count == 1 {
            json::read_string(members[first].1.as_slice())
        } else {
            None
        }
    } else {
        match json::read_elements(header) {
            Some(elements) => {
                let ghost views = elements@.map_values(|e: Vec<u8>| e@);
                if elements.len() == 1 {
                    assert(views[0] == elements@[0]@);
                    json::read_string(elements[0].as_slice())
                } else {
                    None
                }
            },
            None => None,
        }
    }
}

/// A borrowed list of bytes that may be missing.
pub open spec fn opt_slice(b: Option<&Vec<u8>>) -> Option<Seq<u8>> {
    match b {
        Some(b) => Some(b@),
        None => None,
    }
}

/// Claims that may be missing.
pub open spec fn opt_claims(c: Option<JwtClaims>) -> Option<ClaimsView> {
    match c {
        Some(c) => Some(c@),
        None => None,
    }
}

/// Reads the claims that four values stand for.
fn read_claim_values(
    exp: Option<&Vec<u8>>,
    nbf: Option<&Vec<u8>>,
    iss: Option<&Vec<u8>>,
    aud: Option<&Vec<u8>>,
) -> (r: Option<JwtClaims>)
    ensures
        opt_claims(r) == claims_from(opt_slice(exp), opt_slice(nbf), opt_slice(iss), opt_slice(aud)),
{
    let exp = match exp {
        Some(v) => json::read_optional_integer(v.as_slice()),
        None => Some(None),
    };
    let nbf = match nbf {
        Some(v) => json::read_optional_integer(v.as_slice()),
        None => Some(None),
    };
    let iss = match iss {
        Some(v) => json::read_optional_string(v.as_slice()),
        None => Some(None),
    };
    let aud = match aud {
        Some(v) => json::read_audience(v.as_slice()),
        None => Some(Audience::Absent),
    };
    match (exp, nbf, iss, aud) {
        (Some(exp), Some(nbf), Some(iss), Some(aud)) => Some(JwtClaims { exp, nbf, iss, aud }),
        _ => None,
    }
}

/// The value of the member called `name`. Fails where two are called so.
fn value_of<'a>(members: &'a Vec<(Vec<u8>, Vec<u8>)>, name: &str) -> (r: Result<
    Option<&'a Vec<u8>>,
    (),
>)
    ensures
        match r {
            Ok(v) => !is_repeated(json::member_views(members@), name@) && opt_slice(v)
                == member_value(json::member_views(members@), name@),
            Err(_) => is_repeated(json::member_views(members@), name@),
        },
{
    let (count, first) = find_members(members, name);
    if count > 1 {
        Err(())
    } else if count == 1 {
        Ok(Some(&members[first].1))
    } else {
        Ok(None)
    }
}

/// Reads the claims in the payload of a token.
fn read_claims(payload: &[u8]) -> (r: Option<JwtClaims>)
    ensures
        opt_claims(r) == claims_of(payload@),
{
    if json::reads_as_object(payload) {
        let members = json::members(payload);
        let exp = value_of(&members, "exp");
        let nbf = value_of(&members, "nbf");
        let iss = value_of(&members, "iss");
        let aud = value_of(&members, "aud");
        match (exp, nbf, iss, aud) {
            (Ok(exp), Ok(nbf), Ok(iss), Ok(aud)) => read_claim_values(exp, nbf, iss, aud),
            _ => None,
        }
    } else {
        match json::read_elements(payload) {
            Some(e) => {
                let ghost views = e@.map_values(|e: Vec<u8>| e@);
                if e.len() == 4 {
                    assert(views[0] == e@[0]@ && views[1] == e@[1]@ && views[2] == e@[2]@
                        && views[3] == e@[3]@);
                    read_claim_values(Some(&e[0]), Some(&e[1]), Some(&e[2]), Some(&e[3]))
                } else {
                    None
                }
            },
            None => None,
        }
    }
}

/// The token that a request shows: what follows `Bearer ` in its
/// `authorization` header.
pub open spec fn bearer_token(lines: Map<Seq<char>, Seq<Seq<u8>>>) -> Option<Seq<char>> {
    match headers::header_text(lines, "authorization"@) {
        Some(value) => if "Bearer "@.is_prefix_of(value) {
            Some(value.skip("Bearer "@.len() as int))
        } else {
            None
        },
        None => None,
    }
}

/// What is signed of a token: its first two parts, with a dot between them.
pub open spec fn signing_input(header: Seq<char>, payload: Seq<char>) -> Seq<char> {
    header + "."@ + payload
}

/// What becomes of the payload of a token whose signature is right.
pub open spec fn payload_outcome(
    payload: Option<Seq<u8>>,
    issuer: Option<Seq<char>>,
    audience: Option<Seq<char>>,
    now: i64,
) -> Result<(), AuthError> {
    match payload {
        Some(bytes) => match claims_of(bytes) {
            Some(claims) => claims_outcome(claims, issuer, audience, now),
            None => Err(AuthError::MalformedToken),
        },
        None => Err(AuthError::MalformedToken),
    }
}

/// What becomes of a token of three parts for which HS256 is named. Nothing of
/// the payload counts before the signature is found to be right.
pub open spec fn signed_outcome(
    header: Seq<char>,
    payload: Seq<char>,
    signature: Seq<char>,
    secret: Seq<char>,
    issuer: Option<Seq<char>>,
    audience: Option<Seq<char>>,
    now: i64,
) -> Result<(), AuthError> {
    match base64_decoded(signature) {
        Some(tag) => if tag == hmac_sha256(
            text::utf8(secret),
            text::utf8(signing_input(header, payload)),
        ) {
            payload_outcome(base64_decoded(payload), issuer, audience, now)
        } else {
            Err(AuthError::InvalidSignature)
        },
        None => Err(AuthError::MalformedToken),
    }
}

/// What becomes of a token, at `now` seconds.
pub open spec fn token_outcome(
    token: Seq<char>,
    secret: Seq<char>,
    issuer: Option<Seq<char>>,
    audience: Option<Seq<char>>,
    now: i64,
) -> Result<(), AuthError> {
    let parts = text::pieces(token, '.');
    if parts.len() != 3 {
        Err(AuthError::MalformedToken)
    } else {
        match base64_decoded(parts[0]) {
            Some(header) => match algorithm_of(header) {
                Some(algorithm) => if algorithm == "HS256"@ {
                    signed_outcome(parts[0], parts[1], parts[2], secret, issuer, audience, now)
                } else {
                    Err(AuthError::UnsupportedAlgorithm)
                },
                None => Err(AuthError::MalformedToken),
            },
            None => Err(AuthError::MalformedToken),
        }
    }
}

/// Whether a token has three parts and the standard header.
pub open spec fn has_standard_header(token: Seq<char>) -> bool {
    let parts = text::pieces(token, '.');
    parts.len() == 3 && base64_decoded(parts[0]) == Some(text::utf8(standard_header()))
}

/// What becomes of a token with the standard header, at `now` seconds.
pub open spec fn standard_outcome(
    token: Seq<char>,
    secret: Seq<char>,
    issuer: Option<Seq<char>>,
    audience: Option<Seq<char>>,
    now: i64,
) -> Result<(), AuthError> {
    let parts = text::pieces(token, '.');
    signed_outcome(parts[0], parts[1], parts[2], secret, issuer, audience, now)
}

/// What becomes of a request with these header lines, at `now` seconds.
pub open spec fn jwt_outcome(
    lines: Map<Seq<char>, Seq<Seq<u8>>>,
    secret: Seq<char>,
    issuer: Option<Seq<char>>,
    audience: Option<Seq<char>>,
    now: i64,
) -> Result<(), AuthError> {
    match bearer_token(lines) {
        Some(token) => token_outcome(token, secret, issuer, audience, now),
        None => Err(AuthError::MissingCredentials),
    }
}

/// Whether a request shows a token that is signed with HS256 by the secret,
/// valid now, and from the issuer and for the audience that are expected.
pub fn verify_jwt(
    headers: &HeaderMap,
    secret: &str,
    expected_issuer: Option<&str>,
    expected_audience: Option<&str>,
) -> (r: Result<(), AuthError>)
    ensures
        exists|now: i64|
            clock::is_unix_seconds(now) && r == #[trigger] jwt_outcome(
                headers::header_lines(*headers),
                secret@,
                opt_str(expected_issuer),
                opt_str(expected_audience),
                now,
            ),
{
    let now: i64 = clock::unix_seconds();
    verify_jwt_at(headers, secret, expected_issuer, expected_audience, now)
}

/// `verify_jwt` at `now` seconds since the Unix epoch.
pub fn verify_jwt_at(
    headers: &HeaderMap,
    secret: &str,
    expected_issuer: Option<&str>,
    expected_audience: Option<&str>,
    now: i64,
) -> (r: Result<(), AuthError>)
    ensures
        r == jwt_outcome(
            headers::header_lines(*headers),
            secret@,
            opt_str(expected_issuer),
            opt_str(expected_audience),
            now,
        ),
        match bearer_token(headers::header_lines(*headers)) {
            Some(token) => has_standard_header(token) ==> r == standard_outcome(
                token,
                secret@,
                opt_str(expected_issuer),
                opt_str(expected_audience),
                now,
            ),
            None => r == Err::<(), AuthError>(AuthError::MissingCredentials),
        },
        r is Ok <==> exists|token: Seq<char>|
            headers::header_text(headers::header_lines(*headers), "authorization"@) == Some(
                "Bearer "@ + token,
            ) && #[trigger] is_good_token(
                token,
                secret@,
                opt_str(expected_issuer),
                opt_str(expected_audience),
                now,
            ),
{
    proof {
        exactly_bearers_of_good_tokens_pass(
            headers::header_lines(*headers),
            secret@,
            opt_str(expected_issuer),
            opt_str(expected_audience),
            now,
        );
    }
    let value = match headers::text_of_header(headers, "authorization") {
        Some(value) => value,
        None => {
            return Err(AuthError::MissingCredentials);
        },
    };
    match text::strip_prefix(value.as_str(), "Bearer ") {
        Some(token) => {
            proof {
                assert("Bearer "@.is_prefix_of(value@)) by {
                    assert(value@.take("Bearer "@.len() as int) =~= "Bearer "@);
                }
                assert(value@.skip("Bearer "@.len() as int) =~= token@);
            }
            verify_token_at(token, secret, expected_issuer, expected_audience, now)
        },
        None => Err(AuthError::MissingCredentials),
    }
}

/// Whether a token is signed with HS256 by the secret, valid at `now` seconds
/// since the Unix epoch, and from the issuer and for the audience that are
/// expected. The standard header names HS256.
pub fn verify_token_at(
    token: &str,
    secret: &str,
    expected_issuer: Option<&str>,
    expected_audience: Option<&str>,
    now: i64,
) -> (r: Result<(), AuthError>)
    ensures
        r == token_outcome(
            token@,
            secret@,
            opt_str(expected_issuer),
            opt_str(expected_audience),
            now,
        ),
        has_standard_header(token@) ==> r == standard_outcome(
            token@,
            secret@,
            opt_str(expected_issuer),
            opt_str(expected_audience),
            now,
        ),
{
    let parts = text::split_on(token, '.');
    if parts.len() != 3 {
        return Err(AuthError::MalformedToken);
    }
    let ghost views = text::texts(parts@);
    assert(views[0] == parts@[0]@ && views[1] == parts@[1]@ && views[2] == parts@[2]@);
    let header = match base64_decode(parts[0].as_str()) {
        Some(header) => header,
        None => {
            return Err(AuthError::MalformedToken);
        },
    };
    match read_algorithm(header.as_slice()) {
        Some(algorithm) => {
            if !text::same_text(algorithm.as_str(), "HS256") {
                return Err(AuthError::UnsupportedAlgorithm);
            }
        },
        None => {
            return Err(AuthError::MalformedToken);
        },
    }
    let signature = match base64_decode(parts[2].as_str()) {
        Some(signature) => signature,
        None => {
            return Err(AuthError::MalformedToken);
        },
    };
    let input = text::concat3(parts[0].as_str(), ".", parts[1].as_str());
    if !hmac_matches(secret.as_bytes(), input.as_str().as_bytes(), signature.as_slice()) {
        return Err(AuthError::InvalidSignature);
    }
    let payload = match base64_decode(parts[1].as_str()) {
        Some(payload) => payload,
        None => {
            return Err(AuthError::MalformedToken);
        },
    };
    match read_claims(payload.as_slice()) {
        Some(claims) => check_claims(&claims, expected_issuer, expected_audience, now),
        None => Err(AuthError::MalformedToken),
    }
}

/// The header of the tokens that `sign_hs256` makes.
pub open spec fn standard_header() -> Seq<char> {
    "{\"alg\":\"HS256\",\"typ\":\"JWT\"}"@
}

/// A token with the standard header.
pub open spec fn signed_token(secret: Seq<char>, claims: Seq<char>) -> Seq<char> {
    let header = base64_encoded(text::utf8(standard_header()));
    let payload = base64_encoded(text::utf8(claims));
    let input = signing_input(header, payload);
    input + "."@ + base64_encoded(hmac_sha256(text::utf8(secret), text::utf8(input)))
}

/// Signs claims, given as JSON, with HS256. Whoever verifies the token with the
/// secret finds its signature right and decides by the claims.
pub fn sign_hs256(secret: &str, claims_json: &str) -> (token: String)
    requires
        text::utf8(claims_json@).len() <= usize::MAX / 4,
    ensures
        token@ == signed_token(secret@, claims_json@),
        ({
            let parts = text::pieces(token@, '.');
            &&& parts.len() == 3
            &&& base64_decoded(parts[0]) == Some(
                vstd::utf8::encode_utf8("{\"alg\":\"HS256\",\"typ\":\"JWT\"}"@),
            )
            &&& base64_decoded(parts[1]) == Some(vstd::utf8::encode_utf8(claims_json@))
            &&& base64_decoded(parts[2]) == Some(
                hmac_sha256(
                    vstd::utf8::encode_utf8(secret@),
                    vstd::utf8::encode_utf8(parts[0] + "."@ + parts[1]),
                ),
            )
        }),
        has_standard_header(token@),
        forall|issuer: Option<Seq<char>>, audience: Option<Seq<char>>, now: i64|
            #[trigger] standard_outcome(token@, secret@, issuer, audience, now) == payload_outcome(
                Some(text::utf8(claims_json@)),
                issuer,
                audience,
                now,
            ),
{
    let header_json = "{\"alg\":\"HS256\",\"typ\":\"JWT\"}";
    proof {
        reveal_strlit("{\"alg\":\"HS256\",\"typ\":\"JWT\"}");
        vstd::utf8::is_ascii_chars_encode_utf8(header_json@);
    }
    let header = base64_encode(header_json.as_bytes());
    let payload = base64_encode(claims_json.as_bytes());
    let input = text::concat3(header.as_str(), ".", payload.as_str());
    let tag = hmac_of(secret.as_bytes(), input.as_str().as_bytes());
    let signature = base64_encode(tag.as_slice());
    let token = text::concat3(input.as_str(), ".", signature.as_str());
    proof {
        reveal_strlit(".");
        lemma_three_parts(header@, payload@, signature@);
        assert(token@ =~= header@.push('.') + (payload@.push('.') + signature@));
    }
    token
}

/// Three texts without dots, with dots between them, are the parts of what they
/// make.
proof fn lemma_three_parts(a: Seq<char>, b: Seq<char>, c: Seq<char>)
    requires
        !a.contains('.'),
        !b.contains('.'),
        !c.contains('.'),
    ensures
        text::pieces(a.push('.') + (b.push('.') + c), '.') == seq![a, b, c],
{
    text::lemma_pieces_of_joined(a, b.push('.') + c, '.');
    text::lemma_pieces_of_joined(b, c, '.');
    text::lemma_pieces_of_joined(c, c, '.');
    assert(seq![a] + (seq![b] + seq![c]) =~= seq![a, b, c]);
}

/// A token is accepted only if it names HS256, its third part is the HMAC of
/// the two others by the secret, and its claims hold: it has not expired, it is
/// valid already, and it comes from the issuer and is meant for the audience
/// that are expected.
pub proof fn accepted_tokens_are_signed_and_valid(
    token: Seq<char>,
    secret: Seq<char>,
    issuer: Option<Seq<char>>,
    audience: Option<Seq<char>>,
    now: i64,
)
    requires
        token_outcome(token, secret, issuer, audience, now) == Ok::<(), AuthError>(()),
    ensures
        ({
            let parts = text::pieces(token, '.');
            let input = text::utf8(signing_input(parts[0], parts[1]));
            &&& parts.len() == 3
            &&& base64_decoded(parts[0]) is Some
            &&& algorithm_of(base64_decoded(parts[0])->0) == Some("HS256"@)
            &&& base64_decoded(parts[2]) == Some(hmac_sha256(text::utf8(secret), input))
            &&& base64_decoded(parts[1]) is Some
            &&& match claims_of(base64_decoded(parts[1])->0) {
                Some(claims) => {
                    &&& claims.exp is Some ==> now < claims.exp->0
                    &&& claims.nbf is Some ==> now >= claims.nbf->0
                    &&& issuer is Some ==> claims.iss == issuer
                    &&& audience is Some ==> audience_holds(claims.aud, audience->0)
                },
                None => false,
            }
        }),
{
}

/// An expired token does not become valid again, and one whose time has not
/// come is not valid earlier: between two moments at which a token is accepted
/// it is accepted throughout.
pub proof fn tokens_are_valid_for_one_stretch_of_time(
    token: Seq<char>,
    secret: Seq<char>,
    issuer: Option<Seq<char>>,
    audience: Option<Seq<char>>,
    first: i64,
    now: i64,
    last: i64,
)
    requires
        first <= now <= last,
        token_outcome(token, secret, issuer, audience, first) == Ok::<(), AuthError>(()),
        token_outcome(token, secret, issuer, audience, last) == Ok::<(), AuthError>(()),
    ensures
        token_outcome(token, secret, issuer, audience, now) == Ok::<(), AuthError>(()),
{
}

/// Whether a token has three parts, the first of which names HS256 and the third
/// of which is the HMAC of the two others by the secret, and the claims in its
/// second part hold: it has not expired, it is valid already, and it comes from
/// the issuer and is meant for the audience that are expected, if any are.
pub open spec fn is_good_token(
    token: Seq<char>,
    secret: Seq<char>,
    issuer: Option<Seq<char>>,
    audience: Option<Seq<char>>,
    now: i64,
) -> bool {
    let parts = text::pieces(token, '.');
    let signed = vstd::utf8::encode_utf8(parts[0] + "."@ + parts[1]);
    &&& parts.len() == 3
    &&& base64_decoded(parts[0]) is Some
    &&& algorithm_of(base64_decoded(parts[0])->0) == Some("HS256"@)
    &&& base64_decoded(parts[2]) == Some(hmac_sha256(vstd::utf8::encode_utf8(secret), signed))
    &&& base64_decoded(parts[1]) is Some
    &&& match claims_of(base64_decoded(parts[1])->0) {
        Some(claims) => {
            &&& claims.exp is Some ==> now < claims.exp->0
            &&& claims.nbf is Some ==> now >= claims.nbf->0
            &&& issuer is Some ==> claims.iss == issuer
            &&& match audience {
                Some(expected) => match claims.aud {
                    AudienceView::One(s) => s == expected,
                    AudienceView::Many(list) => exists|k: int|
                        0 <= k < list.len() && #[trigger] list[k] == Some(expected),
                    AudienceView::Absent => false,
                    AudienceView::Other => false,
                },
                None => true,
            }
        },
        None => false,
    }
}

/// Exactly the good tokens are accepted.
pub proof fn exactly_the_good_tokens_are_accepted(
    token: Seq<char>,
    secret: Seq<char>,
    issuer: Option<Seq<char>>,
    audience: Option<Seq<char>>,
    now: i64,
)
    ensures
        token_outcome(token, secret, issuer, audience, now) is Ok <==> is_good_token(
            token,
            secret,
            issuer,
            audience,
            now,
        ),
{
    let parts = text::pieces(token, '.');
    if parts.len() == 3 && base64_decoded(parts[1]) is Some && audience is Some {
        if let Some(claims) = claims_of(base64_decoded(parts[1])->0) {
            if let AudienceView::Many(list) = claims.aud {
                let expected = audience->0;
                if list.contains(Some(expected)) {
                    assert(list[list.index_of(Some(expected))] == Some(expected));
                }
            }
        }
    }
}

/// A request is let through by its token exactly when its `authorization` header
/// is `Bearer `, with a space, and a good token behind it.
pub proof fn exactly_bearers_of_good_tokens_pass(
    lines: Map<Seq<char>, Seq<Seq<u8>>>,
    secret: Seq<char>,
    issuer: Option<Seq<char>>,
    audience: Option<Seq<char>>,
    now: i64,
)
    ensures
        jwt_outcome(lines, secret, issuer, audience, now) is Ok <==> exists|token: Seq<char>|
            headers::header_text(lines, "authorization"@) == Some("Bearer "@ + token)
                && #[trigger] is_good_token(token, secret, issuer, audience, now),
        jwt_outcome(lines, secret, issuer, audience, now) == Err::<(), AuthError>(
            AuthError::MissingCredentials,
        ) <==> !(exists|token: Seq<char>|
            headers::header_text(lines, "authorization"@) == Some(#[trigger] ("Bearer "@ + token))),
{
    match headers::header_text(lines, "authorization"@) {
        Some(value) => {
            if "Bearer "@.is_prefix_of(value) {
                let token = value.skip("Bearer "@.len() as int);
                assert(value =~= "Bearer "@ + token);
                exactly_the_good_tokens_are_accepted(token, secret, issuer, audience, now);
                assert forall|other: Seq<char>| value == #[trigger] ("Bearer "@ + other) implies other
                    == token by {
                    assert(other =~= ("Bearer "@ + other).skip("Bearer "@.len() as int));
                }
                assert forall|other: Seq<char>|
                    headers::header_text(lines, "authorization"@) == Some("Bearer "@ + other)
                        && #[trigger] is_good_token(other, secret, issuer, audience, now) implies other
                    == token by {
                    assert(value == "Bearer "@ + other);
                }
            } else {
                assert forall|other: Seq<char>| value != #[trigger] ("Bearer "@ + other) by {
                    assert("Bearer "@.is_prefix_of("Bearer "@ + other));
                }
                assert forall|other: Seq<char>| !(headers::header_text(lines, "authorization"@)
                    == Some("Bearer "@ + other) && #[trigger] is_good_token(
                    other,
                    secret,
                    issuer,
                    audience,
                    now,
                )) by {
                    assert(value != "Bearer "@ + other);
                }
            }
        },
        None => {},
    }
}

/// Why a token is refused: it is malformed where it has not three parts or its
/// first names no algorithm; another algorithm than HS256 is not supported; and a
/// signature that is not the HMAC of the two other parts by the secret is wrong,
/// whatever the claims are.
pub proof fn refused_tokens(
    token: Seq<char>,
    secret: Seq<char>,
    issuer: Option<Seq<char>>,
    audience: Option<Seq<char>>,
    now: i64,
)
    ensures
        ({
            let parts = text::pieces(token, '.');
            let r = token_outcome(token, secret, issuer, audience, now);
            let named = match base64_decoded(parts[0]) {
                Some(header) => algorithm_of(header),
                None => None,
            };
            let tag = hmac_sha256(
                vstd::utf8::encode_utf8(secret),
                vstd::utf8::encode_utf8(parts[0] + "."@ + parts[1]),
            );
            &&& parts.len() != 3 || named is None ==> r == Err::<(), AuthError>(
                AuthError::MalformedToken,
            )
            &&& r == Err::<(), AuthError>(AuthError::UnsupportedAlgorithm) <==> parts.len() == 3
                && named is Some && named != Some("HS256"@)
            &&& r == Err::<(), AuthError>(AuthError::InvalidSignature) <==> parts.len() == 3
                && named == Some("HS256"@) && base64_decoded(parts[2]) is Some && base64_decoded(
                parts[2],
            ) != Some(tag)
            &&& r != Err::<(), AuthError>(AuthError::MissingCredentials)
            &&& r != Err::<(), AuthError>(AuthError::InvalidApiKey)
        }),
{
}

/// Claims are tried in order: a token is expired from its `exp` second on; else
/// it is not yet valid before its `nbf` second; else its issuer must be the
/// expected one; else it must be meant for the expected audience. A claim that
/// is missing does no harm where nothing is expected of it.
pub proof fn claims_are_tried_in_order(
    claims: ClaimsView,
    issuer: Option<Seq<char>>,
    audience: Option<Seq<char>>,
    now: i64,
)
    ensures
        ({
            let r = claims_outcome(claims, issuer, audience, now);
            let expired = claims.exp is Some && claims.exp->0 <= now;
            let early = claims.nbf is Some && now < claims.nbf->0;
            let foreign = issuer is Some && (claims.iss is None || claims.iss->0 != issuer->0);
            let meant = audience is None || match claims.aud {
                AudienceView::One(s) => s == audience->0,
                AudienceView::Many(list) => exists|k: int|
                    0 <= k < list.len() && #[trigger] list[k] == Some(audience->0),
                AudienceView::Absent => false,
                AudienceView::Other => false,
            };
            &&& r == Err::<(), AuthError>(AuthError::Expired) <==> expired
            &&& r == Err::<(), AuthError>(AuthError::NotYetValid) <==> !expired && early
            &&& r == Err::<(), AuthError>(AuthError::InvalidIssuer) <==> !expired && !early
                && foreign
            &&& r == Err::<(), AuthError>(AuthError::InvalidAudience) <==> !expired && !early
                && !foreign && !meant
            &&& r == Ok::<(), AuthError>(()) <==> !expired && !early && !foreign && meant
        }),
{
    if let AudienceView::Many(list) = claims.aud {
        if audience is Some && list.contains(Some(audience->0)) {
            assert(list[list.index_of(Some(audience->0))] == Some(audience->0));
        }
    }
}

/// A request is let through by its API key exactly when the key is one of those
/// that are accepted, letter for letter. One without a key lacks credentials,
/// and one with another key has a wrong one.
pub proof fn exactly_the_listed_keys_pass(provided: Option<Seq<char>>, keys: Seq<Seq<char>>)
    ensures
        api_key_outcome(provided, keys) is Ok <==> provided is Some && exists|k: int|
            0 <= k < keys.len() && #[trigger] keys[k] == provided->0,
        api_key_outcome(provided, keys) == Err::<(), AuthError>(AuthError::MissingCredentials)
            <==> provided is None,
        api_key_outcome(provided, keys) == Err::<(), AuthError>(AuthError::InvalidApiKey)
            <==> provided is Some && forall|k: int|
            0 <= k < keys.len() ==> #[trigger] keys[k] != provided->0,
{
    if provided is Some && keys.contains(provided->0) {
        assert(keys[keys.index_of(provided->0)] == provided->0);
    }
}

/// The name of a member at place `k`, if it can be read.
pub open spec fn name_at(members: Seq<(Seq<u8>, Seq<u8>)>, k: int) -> Option<Seq<char>> {
    json::json_string(members[k].0)
}

/// Whether a value is that of the one member of an object with a name, or there
/// is no such member and no value.
pub open spec fn is_value_of(
    members: Seq<(Seq<u8>, Seq<u8>)>,
    name: Seq<char>,
    value: Option<Seq<u8>>,
) -> bool {
    match value {
        Some(v) => exists|k: int|
            {
                &&& 0 <= k < members.len()
                &&& #[trigger] name_at(members, k) == Some(name)
                &&& members[k].1 == v
                &&& forall|l: int|
                    0 <= l < members.len() && #[trigger] name_at(members, l) == Some(name) ==> l
                        == k
            },
        None => forall|k: int|
            0 <= k < members.len() ==> #[trigger] name_at(members, k) != Some(name),
    }
}

proof fn lemma_member_value(members: Seq<(Seq<u8>, Seq<u8>)>, name: Seq<char>)
    ensures
        times_named(members, name) == 0 <==> member_value(members, name) is None,
        times_named(members, name) == 0 <==> forall|k: int|
            0 <= k < members.len() ==> #[trigger] name_at(members, k) != Some(name),
        times_named(members, name) <= 1 ==> is_value_of(members, name, member_value(members, name)),
        times_named(members, name) > 1 ==> exists|k: int, l: int|
            0 <= k < l < members.len() && #[trigger] name_at(members, k) == Some(name)
                && #[trigger] name_at(members, l) == Some(name),
    decreases members.len(),
{
    if members.len() > 0 {
        let rest = members.drop_first();
        lemma_member_value(rest, name);
        assert forall|k: int| 0 <= k < rest.len() implies #[trigger] name_at(rest, k) == name_at(
            members,
            k + 1,
        ) by {}
        assert forall|k: int| 1 <= k < members.len() implies #[trigger] name_at(members, k)
            == name_at(rest, k - 1) by {}
        if name_at(members, 0) == Some(name) {
            if times_named(rest, name) == 0 {
                assert forall|l: int|
                    0 <= l < members.len() && #[trigger] name_at(members, l) == Some(name) implies l
                    == 0 by {
                    if l > 0 {
                        assert(name_at(rest, l - 1) != Some(name));
                    }
                }
                assert(is_value_of(members, name, Some(members[0].1)));
            } else {
                let l = choose|l: int| 0 <= l < rest.len() && #[trigger] name_at(rest, l) == Some(name);
                assert(name_at(members, 0) == Some(name) && name_at(members, l + 1) == Some(name));
            }
        } else if times_named(rest, name) == 0 {
            assert forall|k: int| 0 <= k < members.len() implies #[trigger] name_at(members, k)
                != Some(name) by {
                if k > 0 {
                    assert(name_at(rest, k - 1) != Some(name));
                }
            }
        } else {
            if times_named(rest, name) == 1 {
                let v = member_value(rest, name)->0;
                let k = choose|k: int|
                    {
                        &&& 0 <= k < rest.len()
                        &&& #[trigger] name_at(rest, k) == Some(name)
                        &&& rest[k].1 == v
                        &&& forall|l: int|
                            0 <= l < rest.len() && #[trigger] name_at(rest, l) == Some(name) ==> l
                                == k
                    };
                assert(name_at(members, k + 1) == Some(name));
                assert forall|l: int|
                    0 <= l < members.len() && #[trigger] name_at(members, l) == Some(name) implies l
                    == k + 1 by {
                    assert(name_at(rest, l - 1) == Some(name));
                }
                assert(is_value_of(members, name, Some(v)));
            } else {
                let (k, l) = choose|k: int, l: int|
                    0 <= k < l < rest.len() && #[trigger] name_at(rest, k) == Some(name)
                        && #[trigger] name_at(rest, l) == Some(name);
                assert(name_at(members, k + 1) == Some(name) && name_at(members, l + 1) == Some(
                    name,
                ));
            }
            let k = choose|k: int| 0 <= k < rest.len() && #[trigger] name_at(rest, k) == Some(name);
            assert(name_at(members, k + 1) == Some(name));
        }
    }
}

/// The claims of a token are the members `exp`, `nbf`, `iss` and `aud` of the
/// object in its payload, each read for what it is; what is not there is no
/// claim, and `null` is none. No claim is taken from a member of another name.
pub proof fn claims_are_the_members_of_their_names(payload: Seq<u8>)
    requires
        json::json_is_object(payload),
        claims_of(payload) is Some,
    ensures
        ({
            let members = json::members_from(payload, 0);
            let claims = claims_of(payload)->0;
            &&& exists|v: Option<Seq<u8>>| #[trigger]
                is_value_of(members, "exp"@, v) && (if v is Some {
                    json::json_optional_integer(v->0) == Some(claims.exp)
                } else {
                    claims.exp is None
                })
            &&& exists|v: Option<Seq<u8>>| #[trigger]
                is_value_of(members, "nbf"@, v) && (if v is Some {
                    json::json_optional_integer(v->0) == Some(claims.nbf)
                } else {
                    claims.nbf is None
                })
            &&& exists|v: Option<Seq<u8>>| #[trigger]
                is_value_of(members, "iss"@, v) && (if v is Some {
                    json::json_optional_string(v->0) == Some(claims.iss)
                } else {
                    claims.iss is None
                })
            &&& exists|v: Option<Seq<u8>>| #[trigger]
                is_value_of(members, "aud"@, v) && (if v is Some {
                    json::audience_of(v->0) == Some(claims.aud)
                } else {
                    claims.aud == AudienceView::Absent
                })
        }),
{
    let members = json::members_from(payload, 0);
    lemma_member_value(members, "exp"@);
    lemma_member_value(members, "nbf"@);
    lemma_member_value(members, "iss"@);
    lemma_member_value(members, "aud"@);
    assert(is_value_of(members, "exp"@, member_value(members, "exp"@)));
    assert(is_value_of(members, "nbf"@, member_value(members, "nbf"@)));
    assert(is_value_of(members, "iss"@, member_value(members, "iss"@)));
    assert(is_value_of(members, "aud"@, member_value(members, "aud"@)));
}

/// A payload in which two members are called `exp`, `nbf`, `iss` or `aud` makes
/// no claims, and a header in which two are called `alg` names no algorithm. An
/// algorithm is the string under `alg`.
pub proof fn repeated_members_are_refused(json: Seq<u8>, name: Seq<char>, k: int, l: int)
    requires
        json::json_is_object(json),
        0 <= k < l < json::members_from(json, 0).len(),
        name_at(json::members_from(json, 0), k) == Some(name),
        name_at(json::members_from(json, 0), l) == Some(name),
    ensures
        name == "exp"@ || name == "nbf"@ || name == "iss"@ || name == "aud"@ ==> claims_of(json)
            is None,
        name == "alg"@ ==> algorithm_of(json) is None,
{
    let members = json::members_from(json, 0);
    lemma_member_value(members, name);
    if times_named(members, name) <= 1 {
        assert(is_value_of(members, name, member_value(members, name)));
    }
}

/// The algorithm that a header names is the string under its one member called
/// `alg`, if it is an object.
pub proof fn the_algorithm_stands_under_its_name(header: Seq<u8>)
    requires
        json::json_is_object(header),
        algorithm_of(header) is Some,
    ensures
        exists|v: Option<Seq<u8>>| #[trigger]
            is_value_of(json::members_from(header, 0), "alg"@, v) && v is Some
                && json::json_string(v->0) == algorithm_of(header),
{
    let members = json::members_from(header, 0);
    lemma_member_value(members, "alg"@);
    assert(is_value_of(members, "alg"@, member_value(members, "alg"@)));
}

/// A token that is signed by a secret is accepted by whoever has the secret, as
/// far as its claims go, and its signature is found wrong by whoever has a secret
/// that gives another HMAC.
pub proof fn signed_tokens_are_recognised(
    token: Seq<char>,
    secret: Seq<char>,
    other: Seq<char>,
    issuer: Option<Seq<char>>,
    audience: Option<Seq<char>>,
    now: i64,
)
    requires
        ({
            let parts = text::pieces(token, '.');
            &&& parts.len() == 3
            &&& base64_decoded(parts[0]) is Some
            &&& algorithm_of(base64_decoded(parts[0])->0) == Some("HS256"@)
            &&& base64_decoded(parts[2]) == Some(
                hmac_sha256(
                    vstd::utf8::encode_utf8(secret),
                    vstd::utf8::encode_utf8(parts[0] + "."@ + parts[1]),
                ),
            )
        }),
    ensures
        ({
            let parts = text::pieces(token, '.');
            let input = vstd::utf8::encode_utf8(parts[0] + "."@ + parts[1]);
            let claims = match base64_decoded(parts[1]) {
                Some(payload) => claims_of(payload),
                None => None,
            };
            &&& token_outcome(token, secret, issuer, audience, now) == match claims {
                Some(c) => claims_outcome(c, issuer, audience, now),
                None => Err::<(), AuthError>(AuthError::MalformedToken),
            }
            &&& hmac_sha256(vstd::utf8::encode_utf8(other), input) != hmac_sha256(
                vstd::utf8::encode_utf8(secret),
                input,
            ) ==> token_outcome(token, other, issuer, audience, now) == Err::<(), AuthError>(
                AuthError::InvalidSignature,
            )
        }),
{
}

/// What a caller is told, by the reason for which the credentials are refused.
pub proof fn refusals_are_told_apart()
    ensures
        AuthError::MissingCredentials.spec_message() == "falta el header de autenticación"@,
        AuthError::InvalidApiKey.spec_message() == "api key inválida"@,
        AuthError::MalformedToken.spec_message() == "token JWT malformado"@,
        AuthError::InvalidSignature.spec_message() == "firma del JWT inválida"@,
        AuthError::Expired.spec_message() == "el JWT expiró"@,
        AuthError::NotYetValid.spec_message() == "el JWT todavía no es válido (nbf)"@,
        AuthError::InvalidIssuer.spec_message() == "issuer del JWT no coincide"@,
        AuthError::InvalidAudience.spec_message() == "audience del JWT no coincide"@,
        AuthError::UnsupportedAlgorithm.spec_message()
            == "algoritmo del JWT no soportado (sólo HS256 por ahora)"@,
{
}

/// Claims may also come as an array of four, in the order `exp`, `nbf`, `iss` and
/// `aud`, and the algorithm as an array of one. Any other array makes no claims
/// and names no algorithm, as does what is neither an object nor an array.
pub proof fn arrays_are_read_in_order(json: Seq<u8>)
    requires
        !json::json_is_object(json),
    ensures
        match (json::json_elements(json), claims_of(json)) {
            (Some(e), Some(claims)) => {
                &&& e.len() == 4
                &&& json::json_optional_integer(e[0]) == Some(claims.exp)
                &&& json::json_optional_integer(e[1]) == Some(claims.nbf)
                &&& json::json_optional_string(e[2]) == Some(claims.iss)
                &&& json::audience_of(e[3]) == Some(claims.aud)
            },
            (Some(e), None) => e.len() != 4 || json::json_optional_integer(e[0]) is None
                || json::json_optional_integer(e[1]) is None || json::json_optional_string(e[2])
                is None || json::audience_of(e[3]) is None,
            (None, claims) => claims is None,
        },
        match json::json_elements(json) {
            Some(e) => algorithm_of(json) == if e.len() == 1 {
                json::json_string(e[0])
            } else {
                None
            },
            None => algorithm_of(json) is None,
        },
{
}

} // verus!
