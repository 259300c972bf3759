use vstd::prelude::*;
use vstd::string::*;

use rand::Rng;

use crate::xid::{is_xid_text, xid_bytes_of, xid_text_of, Xid};

verus! {

/// Issuer named in every access token.
pub const TOKEN_ISSUER: &'static str = "floppy";

/// How long an access token stays valid, in seconds.
pub const ACCESS_TOKEN_LIFETIME: u64 = 900;

/// Length of a refresh token.
pub const REFRESH_TOKEN_LENGTH: usize = 128;

/// An ASCII letter or digit.
pub open spec fn is_alphanumeric(c: char) -> bool {
    ('a' <= c && c <= 'z') || ('A' <= c && c <= 'Z') || ('0' <= c && c <= '9')
}

/// The HS256-signed JSON Web Token, with the default header, of the claims `iss`, `sub`,
/// `exp` and `iat`, under the secret `secret`.
pub uninterp spec fn hs256_token_of(secret: Seq<char>, iss: Seq<char>, sub: Seq<char>, exp: u64, iat: u64) -> Seq<char>;

/// The SHA3-384 digest of the UTF-8 bytes of a text.
pub uninterp spec fn sha3_384_of(s: Seq<char>) -> Seq<u8>;

/// Relies on `rand::Rng::sample_iter` over `rand::thread_rng` with
/// `rand::distributions::Alphanumeric`: `n` characters, each an ASCII letter or digit.
#[verifier::external_body]
fn sample_alphanumeric(n: usize) -> (r: String)
    ensures
        r@.len() == n,
        forall|i: int| 0 <= i < n ==> is_alphanumeric(#[trigger] r@[i]),
{
    rand::thread_rng().sample_iter(&rand::distributions::Alphanumeric).take(n).map(char::from).collect()
}

/// Relies on `sha3::Sha3_384` through `sha3::Digest`: the 48-byte digest of the text's
/// bytes.
#[verifier::external_body]
fn sha3_384(s: &str) -> (r: Vec<u8>)
    ensures
        r@ == sha3_384_of(s@),
        r@.len() == 48,
{
    <sha3::Sha3_384 as sha3::Digest>::digest(s.as_bytes()).to_vec()
}

/// Relies on `chrono::Utc::now` and `DateTime::timestamp`: the current time in whole
/// seconds since the Unix epoch. `Utc::now` panics on a clock before the epoch, so a
/// returned value is never negative.
#[verifier::external_body]
fn unix_now() -> (r: i64)
    ensures
        r >= 0,
{
    chrono::Utc::now().timestamp()
}

/// Relies on `jsonwebtoken::encode` with `Header::default()` (HS256) and
/// `EncodingKey::from_secret`: the signed token of a claims object. An HMAC key made
/// from a secret always matches HS256, the rust_crypto HMAC signer accepts any key
/// length, and a map of strings and integers always serialises, so signing succeeds.
#[verifier::external_body]
fn sign_claims(secret: &str, iss: &str, sub: &str, exp: u64, iat: u64) -> (r: Option<String>)
    ensures
        r is Some,
        r is Some ==> r->0@ == hs256_token_of(secret@, iss@, sub@, exp, iat),
{
    let mut claims = serde_json::Map::new();
    claims.insert("iss".to_string(), serde_json::Value::from(iss));
    claims.insert("sub".to_string(), serde_json::Value::from(sub));
    claims.insert("exp".to_string(), serde_json::Value::from(exp));
    claims.insert("iat".to_string(), serde_json::Value::from(iat));
    let key = jsonwebtoken::EncodingKey::from_secret(secret.as_bytes());
    jsonwebtoken::encode(&jsonwebtoken::Header::default(), &claims, &key).ok()
}

/// The claims of an access token, each where it is present with the expected type.
pub struct TokenClaims {
    pub iss: Option<String>,
    pub sub: Option<String>,
    pub exp: Option<u64>,
    pub iat: Option<u64>,
}

/// Relies on `jsonwebtoken::decode` with `DecodingKey::from_secret` and
/// `Validation::new(Algorithm::default())`: the claims of a token whose signature and
/// expiry it accepts. Whether it accepts depends on the time, so nothing is stated.
#[verifier::external_body]
fn verified_claims(token: &str, secret: &str) -> (r: Option<TokenClaims>) {
    let key = jsonwebtoken::DecodingKey::from_secret(secret.as_bytes());
    let validation = jsonwebtoken::Validation::new(jsonwebtoken::Algorithm::default());
    let data = jsonwebtoken::decode::<serde_json::Map<String, serde_json::Value>>(token, &key, &validation).ok()?;
    Some(TokenClaims {
        iss: data.claims.get("iss").and_then(serde_json::Value::as_str).map(String::from),
        sub: data.claims.get("sub").and_then(serde_json::Value::as_str).map(String::from),
        exp: data.claims.get("exp").and_then(serde_json::Value::as_u64),
        iat: data.claims.get("iat").and_then(serde_json::Value::as_u64),
    })
}

/// Prefix of the authorization header that carries an access token.
pub const BEARER_PREFIX: &'static str = "Bearer ";

/// Why a caller was not authenticated.
#[derive(Debug, Clone, Copy, PartialEq, Eq, Structural)]
pub enum AuthError {
    /// No authorization header was sent.
    MissingHeader,
    /// The header does not start with the bearer prefix.
    BadFormat,
    /// The token was not accepted, or does not name a user.
    InvalidToken,
}

impl AuthError {
    /// The text shown for this error.
    pub fn message(&self) -> (r: String)
        ensures
            r@ == match self {
                AuthError::MissingHeader => "This route requires authentication via the Authorization header"@,
                AuthError::BadFormat => "Invalid format for Authorization header, expected: \"Bearer <token>\""@,
                AuthError::InvalidToken => "Authorization header was invalid"@,
            },
    {
        let r = match self {
            AuthError::MissingHeader => String::from_str(
                "This route requires authentication via the Authorization header",
            ),
            AuthError::BadFormat => String::from_str(
                "Invalid format for Authorization header, expected: \"Bearer <token>\"",
            ),
            AuthError::InvalidToken => String::from_str("Authorization header was invalid"),
        };
        r
    }
}

/// What follows `prefix` in `s`, where `s` starts with it.
pub fn strip_text_prefix(s: &str, prefix: &str) -> (r: Option<String>)
    ensures
        match r {
            Some(rest) => s@ == prefix@ + rest@,
            None => !(prefix@.len() <= s@.len() && s@.take(prefix@.len() as int) == prefix@),
        },
{
    let n = s.unicode_len();
    let m = prefix.unicode_len();
    if m > n {
        return None;
    }
    let mut i: usize = 0;
    while i < m
        invariant
            n == s@.len(),
            m == prefix@.len(),
            m <= n,
            i <= m,
            forall|k: int| 0 <= k < i ==> s@[k] == prefix@[k],
        decreases m - i,
    {
        if s.get_char(i) != prefix.get_char(i) {
            assert(s@.take(m as int)[i as int] != prefix@[i as int]);
            return None;
        }
        i = i + 1;
    }
    let rest = String::from_str(s.substring_char(m, n));
    assert(s@ =~= prefix@ + rest@);
    Some(rest)
}

/// The claims carry every field that an access token has, and the subject is the text
/// of an identifier.
pub open spec fn claims_accepted(c: TokenClaims) -> bool {
    c.iss is Some && c.exp is Some && c.iat is Some && c.sub is Some && is_xid_text(c.sub->0@)
}

/// The caller that the accepted claims of `token` name: the user whose identifier is
/// the subject claim.
pub fn user_from_claims(token: String, claims: Option<TokenClaims>) -> (r: Result<AuthenticatedUser, AuthError>)
    ensures
        (r is Ok) == (claims is Some && claims_accepted(claims->0)),
        r is Err ==> r == Err::<AuthenticatedUser, AuthError>(AuthError::InvalidToken),
        r is Ok ==> r->Ok_0.access_token@ == token@ && r->Ok_0.id@ == xid_bytes_of(claims->0.sub->0@),
{
    match claims {
        Some(TokenClaims { iss: Some(_), sub: Some(sub), exp: Some(_), iat: Some(_) }) => {
            match Xid::from_text(sub.as_str()) {
                None => Err(AuthError::InvalidToken),
                Some(id) => Ok(AuthenticatedUser { access_token: token, id }),
            }
        },
        _ => Err(AuthError::InvalidToken),
    }
}

/// The caller named by an authorization header: a bearer access token that the
/// signing key accepts, that carries the issuer, subject, expiry and issue time
/// claims, and whose subject is a user's identifier.
pub fn authenticate(auth_header: Option<&str>, jwt_signing_key: &str) -> (r: Result<
    AuthenticatedUser,
    AuthError,
>)
    ensures
        auth_header is None ==> r == Err::<AuthenticatedUser, AuthError>(AuthError::MissingHeader),
        auth_header is Some ==> {
            let h = auth_header->0@;
            &&& !(BEARER_PREFIX@.len() <= h.len() && h.take(BEARER_PREFIX@.len() as int)
                == BEARER_PREFIX@) ==> r == Err::<AuthenticatedUser, AuthError>(AuthError::BadFormat)
            &&& (BEARER_PREFIX@.len() <= h.len() && h.take(BEARER_PREFIX@.len() as int) == BEARER_PREFIX@)
                ==> r != Err::<AuthenticatedUser, AuthError>(AuthError::BadFormat)
            &&& r is Ok ==> h == BEARER_PREFIX@ + r->Ok_0.access_token@ && exists|sub: Seq<char>|
                r->Ok_0.id@ == #[trigger] xid_bytes_of(sub)
        },
{
    let header = match auth_header {
        None => return Err(AuthError::MissingHeader),
        Some(h) => h,
    };
    let token = match strip_text_prefix(header, BEARER_PREFIX) {
        None => return Err(AuthError::BadFormat),
        Some(t) => t,
    };
    assert((BEARER_PREFIX@ + token@).take(BEARER_PREFIX@.len() as int) =~= BEARER_PREFIX@);
    let claims = verified_claims(token.as_str(), jwt_signing_key);
    user_from_claims(token, claims)
}

/// A random text of `n` ASCII letters and digits.
pub fn random_string(n: usize) -> (r: String)
    ensures
        r@.len() == n,
        forall|i: int| 0 <= i < n ==> is_alphanumeric(#[trigger] r@[i]),
{
    sample_alphanumeric(n)
}

/// The digest under which a refresh token is stored.
pub fn hash_refresh_token(refresh_token: &str) -> (r: Vec<u8>)
    ensures
        r@ == sha3_384_of(refresh_token@),
        r@.len() == 48,
{
    sha3_384(refresh_token)
}

/// A freshly issued access token.
pub struct UserAccessToken {
    pub access_token: String,
}

/// A freshly issued pair of access and refresh tokens.
pub struct UserTokens {
    pub access_token: String,
    pub refresh_token: String,
}

/// A caller whose access token was accepted.
pub struct AuthenticatedUser {
    pub access_token: String,
    pub id: Xid,
}

/// The access token for `user_id` issued at `now` (seconds since the Unix epoch): it
/// names the issuer and the user, and expires fifteen minutes later. There is none for
/// a time before the epoch, nor where signing fails.
pub fn generate_access_token_at(jwt_signing_key: &str, user_id: &Xid, now: i64) -> (r: Option<
    UserAccessToken,
>)
    ensures
        now < 0 ==> r is None,
        now >= 0 ==> r is Some,
        r is Some ==> r->0.access_token@ == hs256_token_of(
            jwt_signing_key@,
            TOKEN_ISSUER@,
            xid_text_of(user_id@),
            (now + ACCESS_TOKEN_LIFETIME) as u64,
            now as u64,
        ),
{
    if now < 0 {
        return None;
    }
    let iat = now as u64;
    let exp = iat + ACCESS_TOKEN_LIFETIME;
    let sub = user_id.to_string();
    match sign_claims(jwt_signing_key, TOKEN_ISSUER, sub.as_str(), exp, iat) {
        Some(t) => Some(UserAccessToken { access_token: t }),
        None => None,
    }
}

/// An access token for `user_id`, issued now.
pub fn generate_access_token(jwt_signing_key: &str, user_id: &Xid) -> (r: UserAccessToken)
    ensures
        exists|now: i64|
            now >= 0 && r.access_token@ == #[trigger] hs256_token_of(
                jwt_signing_key@,
                TOKEN_ISSUER@,
                xid_text_of(user_id@),
                (now + ACCESS_TOKEN_LIFETIME) as u64,
                now as u64,
            ),
{
    let now = unix_now();
    match generate_access_token_at(jwt_signing_key, user_id, now) {
        Some(token) => token,
        None => {
            assert(false);
            UserAccessToken { access_token: String::new() }
        },
    }
}

/// An access token for `user_id`, issued now, and a random refresh token of letters
/// and digits.
pub fn generate_tokens(jwt_signing_key: &str, user_id: &Xid) -> (r: UserTokens)
    ensures
        r.refresh_token@.len() == REFRESH_TOKEN_LENGTH,
        forall|i: int| 0 <= i < REFRESH_TOKEN_LENGTH ==> is_alphanumeric(#[trigger] r.refresh_token@[i]),
        exists|now: i64|
            now >= 0 && r.access_token@ == #[trigger] hs256_token_of(
                jwt_signing_key@,
                TOKEN_ISSUER@,
                xid_text_of(user_id@),
                (now + ACCESS_TOKEN_LIFETIME) as u64,
                now as u64,
            ),
{
    let access = generate_access_token(jwt_signing_key, user_id);
    let refresh_token = random_string(REFRESH_TOKEN_LENGTH);
    UserTokens { access_token: access.access_token, refresh_token }
}

} // verus!
