use axum::http::{HeaderMap, HeaderValue};
use base64::engine::general_purpose::URL_SAFE_NO_PAD;
use base64::Engine;
use hmac::{Hmac, Mac};
use raptor::auth::{
    check_claims, sign_hs256, verify_api_key, verify_jwt, verify_jwt_at, verify_token_at,
    AuthError, JwtClaims,
};
use raptor::json::Audience;
use sha2::Sha256;

fn headers_with_bearer(token: &str) -> HeaderMap {
    let mut headers = HeaderMap::new();
    headers.insert(
        axum::http::header::AUTHORIZATION,
        HeaderValue::from_str(&format!("Bearer {token}")).unwrap(),
    );
    headers
}

fn b64(s: &str) -> String {
    base64::engine::general_purpose::URL_SAFE_NO_PAD.encode(s)
}

/// A token that takes its header and its signature from a signed one.
fn verify_claims(claims: &str, now: i64) -> Result<(), AuthError> {
    verify_token_at(&sign_hs256("s", claims), "s", None, None, now)
}

#[test]
fn api_key_accepts_valid_key() {
    let mut headers = HeaderMap::new();
    headers.insert("x-api-key", HeaderValue::from_static("clave-buena"));
    let keys = vec!["clave-buena".to_string(), "otra-clave".to_string()];
    assert!(verify_api_key(&headers, "x-api-key", &keys).is_ok());
}

#[test]
fn api_key_rejects_missing_header() {
    let headers = HeaderMap::new();
    let keys = vec!["clave-buena".to_string()];
    assert!(matches!(
        verify_api_key(&headers, "x-api-key", &keys),
        Err(AuthError::MissingCredentials)
    ));
}

#[test]
fn api_key_rejects_wrong_key() {
    let mut headers = HeaderMap::new();
    headers.insert("x-api-key", HeaderValue::from_static("trucho"));
    let keys = vec!["clave-buena".to_string()];
    assert!(matches!(
        verify_api_key(&headers, "x-api-key", &keys),
        Err(AuthError::InvalidApiKey)
    ));
}

#[test]
fn jwt_accepts_valid_token() {
    let secret = "un-secreto-cualquiera";
    let claims = r#"{"sub":"user-1","exp":9999999999}"#;
    let token = sign_hs256(secret, claims);
    let headers = headers_with_bearer(&token);
    assert!(verify_jwt(&headers, secret, None, None).is_ok());
}

#[test]
fn jwt_rejects_bad_signature() {
    let token = sign_hs256("secreto-correcto", r#"{"exp":9999999999}"#);
    let headers = headers_with_bearer(&token);
    assert!(matches!(
        verify_jwt(&headers, "otro-secreto", None, None),
        Err(AuthError::InvalidSignature)
    ));
}

#[test]
fn jwt_rejects_expired_token() {
    let secret = "un-secreto";
    let token = sign_hs256(secret, r#"{"exp":1}"#);
    let headers = headers_with_bearer(&token);
    assert!(matches!(verify_jwt(&headers, secret, None, None), Err(AuthError::Expired)));
}

#[test]
fn jwt_validates_issuer_and_audience() {
    let secret = "un-secreto";
    let claims = r#"{"exp":9999999999,"iss":"raptor-auth","aud":"raptor-api"}"#;
    let token = sign_hs256(secret, claims);
    let headers = headers_with_bearer(&token);
    assert!(verify_jwt(&headers, secret, Some("raptor-auth"), Some("raptor-api")).is_ok());
    assert!(matches!(
        verify_jwt(&headers, secret, Some("otro-issuer"), None),
        Err(AuthError::InvalidIssuer)
    ));
    assert!(matches!(
        verify_jwt(&headers, secret, None, Some("otra-audience")),
        Err(AuthError::InvalidAudience)
    ));
}

#[test]
fn jwt_rejects_missing_bearer_header() {
    let headers = HeaderMap::new();
    assert!(matches!(
        verify_jwt(&headers, "secreto", None, None),
        Err(AuthError::MissingCredentials)
    ));
}

#[test]
fn jwt_rejects_malformed_token() {
    let headers = headers_with_bearer("esto-no-es-un-jwt");
    assert!(matches!(
        verify_jwt(&headers, "secreto", None, None),
        Err(AuthError::MalformedToken)
    ));
}

#[test]
fn api_key_header_name_has_no_case() {
    let mut headers = HeaderMap::new();
    headers.append("x-api-key", HeaderValue::from_static("first"));
    headers.append("x-api-key", HeaderValue::from_static("second"));
    assert!(verify_api_key(&headers, "X-API-Key", &["first".to_string()]).is_ok());
    assert_eq!(
        verify_api_key(&headers, "X-Api-KEY", &["second".to_string()]),
        Err(AuthError::InvalidApiKey)
    );
}

#[test]
fn api_key_that_is_no_text_is_missing() {
    let mut headers = HeaderMap::new();
    headers.insert("x-api-key", HeaderValue::from_bytes(b"caf\xc3\xa9").unwrap());
    assert_eq!(
        verify_api_key(&headers, "x-api-key", &["café".to_string()]),
        Err(AuthError::MissingCredentials)
    );
    assert_eq!(
        verify_api_key(&headers, "not a header name", &[]),
        Err(AuthError::MissingCredentials)
    );
}

#[test]
fn signed_token_is_the_known_one() {
    assert_eq!(
        sign_hs256("secret", "{}"),
        "eyJhbGciOiJIUzI1NiIsInR5cCI6IkpXVCJ9.e30.t-IDcSemACt8x4iTMCda8Yhe3iZaWbvV5XKSTbuAn0M"
    );
}

#[test]
fn token_is_valid_from_nbf_until_exp() {
    let claims = r#"{"nbf":100,"exp":200}"#;
    assert_eq!(verify_claims(claims, 99), Err(AuthError::NotYetValid));
    assert_eq!(verify_claims(claims, 100), Ok(()));
    assert_eq!(verify_claims(claims, 199), Ok(()));
    assert_eq!(verify_claims(claims, 200), Err(AuthError::Expired));
    let headers = headers_with_bearer(&sign_hs256("s", claims));
    assert_eq!(verify_jwt_at(&headers, "s", None, None, 150), Ok(()));
}

#[test]
fn token_without_claims_is_valid() {
    assert_eq!(verify_claims("{}", 0), Ok(()));
    assert_eq!(verify_claims(r#"{"exp":null,"nbf":null,"iss":null,"aud":null}"#, 0), Ok(()));
}

#[test]
fn other_algorithms_are_not_supported() {
    let token = format!("{}.{}.{}", b64(r#"{"alg":"none"}"#), b64("{}"), "");
    assert_eq!(
        verify_token_at(&token, "s", None, None, 0),
        Err(AuthError::UnsupportedAlgorithm)
    );
    let no_name = format!("{}.{}.{}", b64(r#"{"typ":"JWT"}"#), b64("{}"), "");
    assert_eq!(verify_token_at(&no_name, "s", None, None, 0), Err(AuthError::MalformedToken));
}

#[test]
fn header_names_one_algorithm() {
    let twice = b64(r#"{"alg":"HS256","alg":"HS256"}"#);
    let token = format!("{twice}.{}.{}", b64("{}"), "");
    assert_eq!(verify_token_at(&token, "s", None, None, 0), Err(AuthError::MalformedToken));
    let escaped = b64(r#"{"alg":"HS256","\u0061lg":"HS256"}"#);
    let token = format!("{escaped}.{}.{}", b64("{}"), "");
    assert_eq!(verify_token_at(&token, "s", None, None, 0), Err(AuthError::MalformedToken));
    let other_twice = b64(r#"{"x":1,"x":{"alg":2},"alg":"HS256"}"#);
    let token = format!("{other_twice}.{}.{}", b64("{}"), "");
    assert_eq!(verify_token_at(&token, "s", None, None, 0), Err(AuthError::InvalidSignature));
    let array = b64(r#"["HS256"]"#);
    let token = format!("{array}.{}.{}", b64("{}"), "");
    assert_eq!(verify_token_at(&token, "s", None, None, 0), Err(AuthError::InvalidSignature));
}

#[test]
fn signature_counts_before_the_payload() {
    let header = b64(r#"{"alg":"HS256"}"#);
    let token = format!("{header}.{}.{}", "!!", b64("not the tag"));
    assert_eq!(verify_token_at(&token, "s", None, None, 0), Err(AuthError::InvalidSignature));
    let token = format!("{header}.{}.{}", b64("{}"), "!!");
    assert_eq!(verify_token_at(&token, "s", None, None, 0), Err(AuthError::MalformedToken));
}

#[test]
fn token_has_three_parts() {
    let token = sign_hs256("s", "{}");
    assert_eq!(verify_token_at(&token, "s", None, None, 0), Ok(()));
    assert_eq!(
        verify_token_at(&format!("{token}."), "s", None, None, 0),
        Err(AuthError::MalformedToken)
    );
    assert_eq!(verify_token_at("", "s", None, None, 0), Err(AuthError::MalformedToken));
    assert_eq!(verify_token_at("!.a.b", "s", None, None, 0), Err(AuthError::MalformedToken));
}

#[test]
fn claims_of_the_wrong_kind_are_malformed() {
    assert_eq!(verify_claims(r#"{"exp":"soon"}"#, 0), Err(AuthError::MalformedToken));
    assert_eq!(verify_claims(r#"{"exp":1.5}"#, 0), Err(AuthError::MalformedToken));
    assert_eq!(verify_claims(r#"{"nbf":[]}"#, 0), Err(AuthError::MalformedToken));
    assert_eq!(verify_claims(r#"{"iss":7}"#, 0), Err(AuthError::MalformedToken));
    assert_eq!(verify_claims(r#"{"exp":9,"exp":9}"#, 0), Err(AuthError::MalformedToken));
    assert_eq!(verify_claims("not json", 0), Err(AuthError::MalformedToken));
    assert_eq!(verify_claims("[9,null,null,null]", 0), Ok(()));
    assert_eq!(verify_claims("[9,null,null]", 0), Err(AuthError::MalformedToken));
}

#[test]
fn audience_may_be_one_or_many() {
    let token = |aud: &str| sign_hs256("s", &format!(r#"{{"aud":{aud}}}"#));
    let check = |aud: &str| verify_token_at(&token(aud), "s", None, Some("me"), 0);
    assert_eq!(check(r#""me""#), Ok(()));
    assert_eq!(check(r#"["you","me"]"#), Ok(()));
    assert_eq!(check(r#"[1,"me"]"#), Ok(()));
    assert_eq!(check(r#"["you"]"#), Err(AuthError::InvalidAudience));
    assert_eq!(check("7"), Err(AuthError::InvalidAudience));
    assert_eq!(check("null"), Err(AuthError::InvalidAudience));
}

#[test]
fn audience_may_be_nested_only_so_deep() {
    let nested = |n: usize| format!(r#"{{"aud":{}{}}}"#, "[".repeat(n), "]".repeat(n));
    assert_eq!(verify_claims(&nested(126), 0), Ok(()));
    assert_eq!(verify_claims(&nested(127), 0), Err(AuthError::MalformedToken));
}

#[test]
fn only_the_claims_have_to_be_held() {
    assert_eq!(verify_claims(r#"{"aud":1e999}"#, 0), Err(AuthError::MalformedToken));
    assert_eq!(verify_claims(r#"{"aud":["\ud800"]}"#, 0), Err(AuthError::MalformedToken));
    assert_eq!(verify_claims(r#"{"other":1e999}"#, 0), Ok(()));
    let claims = r#"{"aud":{"$serde_json::private::RawValue":"\"me\""}}"#;
    assert_eq!(
        verify_token_at(&sign_hs256("s", claims), "s", None, Some("me"), 0),
        Err(AuthError::InvalidAudience)
    );
}

/// A token with the standard header and any bytes for its payload.
fn token_of(secret: &str, payload: &[u8]) -> String {
    let header = URL_SAFE_NO_PAD.encode(r#"{"alg":"HS256","typ":"JWT"}"#);
    let input = format!("{header}.{}", URL_SAFE_NO_PAD.encode(payload));
    let mac = Hmac::<Sha256>::new_from_slice(secret.as_bytes()).unwrap();
    let tag = mac.chain_update(input.as_bytes()).finalize().into_bytes();
    format!("{input}.{}", URL_SAFE_NO_PAD.encode(tag))
}

#[test]
fn members_that_are_no_claims_are_passed_over() {
    let check = |payload: &[u8]| verify_token_at(&token_of("s", payload), "s", None, None, 0);
    assert_eq!(check(b"{\"exp\":9,\"other\":\"\xff\"}"), Ok(()));
    assert_eq!(check(b"{\"other\":[\"\xff\",{\"exp\":0}],\"exp\":9}"), Ok(()));
    assert_eq!(check(b"{\"other\":\"\xff\",\"exp\":0}"), Err(AuthError::Expired));
    assert_eq!(check(b"{\"iss\":\"\xff\"}"), Err(AuthError::MalformedToken));
    assert_eq!(check(b"{\"\xff\":1}"), Err(AuthError::MalformedToken));
    assert_eq!(check(b"{\"other\":}"), Err(AuthError::MalformedToken));
    assert_eq!(check(b"{\"e\\u0078p\":0}"), Err(AuthError::Expired));
    assert_eq!(check(b"{\"exp\":9,\"e\\u0078p\":9}"), Err(AuthError::MalformedToken));
}

#[test]
fn claims_are_checked_in_order() {
    let claims = JwtClaims {
        exp: Some(10),
        nbf: Some(20),
        iss: Some("a".to_string()),
        aud: Audience::Many(vec![None, Some("x".to_string())]),
    };
    assert_eq!(check_claims(&claims, Some("b"), Some("y"), 10), Err(AuthError::Expired));
    assert_eq!(check_claims(&claims, Some("b"), Some("y"), 9), Err(AuthError::NotYetValid));
    let open = JwtClaims { exp: None, nbf: None, ..claims };
    assert_eq!(check_claims(&open, Some("b"), Some("y"), 9), Err(AuthError::InvalidIssuer));
    assert_eq!(check_claims(&open, Some("a"), Some("y"), 9), Err(AuthError::InvalidAudience));
    assert_eq!(check_claims(&open, Some("a"), Some("x"), 9), Ok(()));
}

#[test]
fn scheme_of_the_authorization_header_is_bearer() {
    let mut headers = HeaderMap::new();
    headers.insert("authorization", HeaderValue::from_static("Basic abc"));
    assert_eq!(
        verify_jwt_at(&headers, "s", None, None, 0),
        Err(AuthError::MissingCredentials)
    );
}

#[test]
fn auth_errors_have_their_texts() {
    assert_eq!(AuthError::MissingCredentials.message(), "falta el header de autenticación");
    assert_eq!(AuthError::InvalidApiKey.message(), "api key inválida");
    assert_eq!(AuthError::MalformedToken.message(), "token JWT malformado");
    assert_eq!(AuthError::InvalidSignature.message(), "firma del JWT inválida");
    assert_eq!(AuthError::Expired.message(), "el JWT expiró");
    assert_eq!(AuthError::NotYetValid.message(), "el JWT todavía no es válido (nbf)");
    assert_eq!(AuthError::InvalidIssuer.message(), "issuer del JWT no coincide");
    assert_eq!(AuthError::InvalidAudience.message(), "audience del JWT no coincide");
    assert_eq!(
        AuthError::UnsupportedAlgorithm.message(),
        "algoritmo del JWT no soportado (sólo HS256 por ahora)"
    );
}
