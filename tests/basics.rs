use floppy::errors::{ArgumentError, CommandError, ForbiddenError};
use floppy::folders::FileType;
use floppy::paths::{file_name, is_beneath, is_within, last_slash_index, parent_path, same_text};
use floppy::security::{authenticate, user_from_claims, TokenClaims, strip_text_prefix, AuthError, generate_access_token, generate_access_token_at, generate_tokens, hash_refresh_token, random_string};
use floppy::xid::{compare_ids, Xid};

const SAMPLE: [u8; 12] = [0x4d, 0x88, 0xe1, 0x5b, 0x60, 0xf4, 0x86, 0xe4, 0x28, 0x41, 0x2d, 0xc9];

#[test]
fn file_type_text() {
    assert_eq!(FileType::File.to_string(), "file");
    assert_eq!(FileType::Folder.to_string(), "folder");
    assert_eq!(FileType::parse("folder"), Some(FileType::Folder));
    assert_eq!(FileType::parse("file"), Some(FileType::File));
    assert_eq!(FileType::parse("dir"), None);
}

#[test]
fn path_parts() {
    assert_eq!(parent_path("/v/a/b.txt"), "/v/a");
    assert_eq!(parent_path("/a"), "");
    assert_eq!(parent_path("a"), "");
    assert_eq!(file_name("/v/a/b.txt"), "b.txt");
    assert_eq!(file_name("b.txt"), "b.txt");
    assert_eq!(last_slash_index("/v/a"), Some(2));
    assert_eq!(last_slash_index("va"), None);
    assert!(is_beneath("/v", "/v/a"));
    assert!(!is_beneath("/v", "/v"));
    assert!(!is_beneath("/v", "/vx/a"));
    assert!(is_within("/v", "/v"));
    assert!(same_text("a/x", "a/x"));
    assert!(!same_text("a", "ab"));
}

#[test]
fn xid_text_form() {
    let x = Xid(SAMPLE);
    assert_eq!(x.to_string(), "9m4e2mr0ui3e8a215n4g");
    assert_eq!(x.as_bytes(), &SAMPLE);
}

#[test]
fn xid_order_and_freshness() {
    let a = Xid([0, 0, 0, 0, 0, 0, 0, 0, 0, 0, 1, 0]);
    let b = Xid([0, 0, 0, 0, 0, 0, 0, 0, 0, 0, 0, 255]);
    assert!(compare_ids(&a, &b) > 0);
    assert!(compare_ids(&b, &a) < 0);
    assert_eq!(compare_ids(&a, &a), 0);
    let first = Xid::new();
    let second = Xid::new();
    assert_ne!(first.as_bytes(), second.as_bytes());
    assert_eq!(first.to_string().len(), 20);
}

#[test]
fn random_string_is_alphanumeric() {
    let s = random_string(128);
    assert_eq!(s.chars().count(), 128);
    assert!(s.chars().all(|c| c.is_ascii_alphanumeric()));
    assert_eq!(random_string(0), "");
}

#[test]
fn refresh_token_hash_is_sha3_384() {
    let h = hash_refresh_token("abc");
    let hex: String = h.iter().map(|b| format!("{:02x}", b)).collect();
    assert_eq!(
        hex,
        "ec01498288516fc926459f58e2c6ad8df9b473cb0fc08c2596da7cf0e49be4b298d88cea927ac7f539f1edf228376d25"
    );
}

fn claims_of(token: &str, key: &str) -> serde_json::Value {
    let mut validation = jsonwebtoken::Validation::new(jsonwebtoken::Algorithm::HS256);
    validation.validate_exp = false;
    jsonwebtoken::decode::<serde_json::Value>(
        token,
        &jsonwebtoken::DecodingKey::from_secret(key.as_bytes()),
        &validation,
    )
    .unwrap()
    .claims
}

#[test]
fn access_token_claims() {
    let user = Xid(SAMPLE);
    let token = generate_access_token_at("signing-key", &user, 1_000).unwrap();
    let claims = claims_of(&token.access_token, "signing-key");
    assert_eq!(claims["iss"], "floppy");
    assert_eq!(claims["sub"], "9m4e2mr0ui3e8a215n4g");
    assert_eq!(claims["iat"], 1_000);
    assert_eq!(claims["exp"], 1_900);
    assert!(generate_access_token_at("signing-key", &user, -1).is_none());
}

#[test]
fn issued_tokens() {
    let user = Xid(SAMPLE);
    let access = generate_access_token("k", &user);
    let claims = claims_of(&access.access_token, "k");
    assert_eq!(claims["exp"].as_u64().unwrap(), claims["iat"].as_u64().unwrap() + 900);
    let tokens = generate_tokens("k", &user);
    assert_eq!(tokens.refresh_token.len(), 128);
    assert_eq!(claims_of(&tokens.access_token, "k")["sub"], "9m4e2mr0ui3e8a215n4g");
}

#[test]
fn error_messages() {
    let missing = ArgumentError::Missing { arg_name: "vault_id".to_string() };
    assert_eq!(missing.message(), "Missing argument vault_id");
    let wrong = ArgumentError::Type { arg_name: "n".to_string(), arg_type: "u32".to_string() };
    assert_eq!(wrong.message(), "Expected argument n to be of type u32");
    assert_eq!(CommandError("no such vault".to_string()).message(), "no such vault");
    assert_eq!(ForbiddenError.message(), "Forbidden");
}

#[test]
fn vault_id_parsing() {
    assert_eq!(Xid::parse("9m4e2mr0ui3e8a215n4g").unwrap().as_bytes(), &SAMPLE);
    assert_eq!(Xid::parse("4d88e15b60f486e428412dc9").unwrap().as_bytes(), &SAMPLE);
    assert_eq!(Xid::from_hex("4D88E15B60F486E428412DC9").unwrap().as_bytes(), &SAMPLE);
    assert!(Xid::parse("4d88e15b60f486e428412dcz").is_none());
    assert!(Xid::parse("9m4e2mr0ui3e8a215n4w").is_none());
    assert!(Xid::parse("short").is_none());
    assert!(Xid::from_text("9m4e2mr0ui3e8a215n4").is_none());
}

#[test]
fn bearer_authentication() {
    let user = Xid(SAMPLE);
    assert_eq!(authenticate(None, "k").err(), Some(AuthError::MissingHeader));
    assert_eq!(authenticate(Some("Token abc"), "k").err(), Some(AuthError::BadFormat));
    assert_eq!(authenticate(Some("Bearer"), "k").err(), Some(AuthError::BadFormat));
    assert_eq!(authenticate(Some("Bearer garbage"), "k").err(), Some(AuthError::InvalidToken));
    let token = generate_access_token("k", &user).access_token;
    let header = format!("Bearer {token}");
    let who = authenticate(Some(&header), "k").ok().unwrap();
    assert_eq!(who.id.as_bytes(), &SAMPLE);
    assert_eq!(who.access_token, token);
    assert_eq!(authenticate(Some(&header), "other").err(), Some(AuthError::InvalidToken));
    let expired = generate_access_token_at("k", &user, 1_000).unwrap().access_token;
    assert_eq!(authenticate(Some(&format!("Bearer {expired}")), "k").err(), Some(AuthError::InvalidToken));
    assert_eq!(strip_text_prefix("Bearer x", "Bearer "), Some("x".to_string()));
    assert_eq!(strip_text_prefix("Bear", "Bearer "), None);
    assert_eq!(AuthError::InvalidToken.message(), "Authorization header was invalid");
}

#[test]
fn token_without_all_claims_is_refused() {
    let mut claims = serde_json::Map::new();
    claims.insert("sub".to_string(), serde_json::Value::from("9m4e2mr0ui3e8a215n4g"));
    claims.insert("exp".to_string(), serde_json::Value::from(4_000_000_000u64));
    let token = jsonwebtoken::encode(
        &jsonwebtoken::Header::default(),
        &claims,
        &jsonwebtoken::EncodingKey::from_secret(b"k"),
    )
    .unwrap();
    let header = format!("Bearer {token}");
    assert_eq!(authenticate(Some(&header), "k").err(), Some(AuthError::InvalidToken));
}

#[test]
fn claims_name_the_user() {
    let full = || TokenClaims {
        iss: Some("floppy".to_string()),
        sub: Some("9m4e2mr0ui3e8a215n4g".to_string()),
        exp: Some(1_900),
        iat: Some(1_000),
    };
    let user = user_from_claims("t".to_string(), Some(full())).ok().unwrap();
    assert_eq!(user.id.as_bytes(), &SAMPLE);
    assert_eq!(user.access_token, "t");
    assert_eq!(user_from_claims("t".to_string(), None).err(), Some(AuthError::InvalidToken));
    let mut no_iat = full();
    no_iat.iat = None;
    assert_eq!(user_from_claims("t".to_string(), Some(no_iat)).err(), Some(AuthError::InvalidToken));
    let mut bad_sub = full();
    bad_sub.sub = Some("not-an-id".to_string());
    assert_eq!(user_from_claims("t".to_string(), Some(bad_sub)).err(), Some(AuthError::InvalidToken));
}

#[test]
fn auth_error_texts() {
    assert_eq!(
        AuthError::MissingHeader.message(),
        "This route requires authentication via the Authorization header"
    );
    assert_eq!(
        AuthError::BadFormat.message(),
        "Invalid format for Authorization header, expected: \"Bearer <token>\""
    );
}

#[test]
fn identifier_from_raw_bytes() {
    assert_eq!(Xid::from_bytes(&SAMPLE).unwrap().as_bytes(), &SAMPLE);
    assert!(Xid::from_bytes(&SAMPLE[..11]).is_none());
    assert!(Xid::from_bytes(&[0u8; 13]).is_none());
}

#[test]
fn zero_identifier_text() {
    let zero = Xid([0u8; 12]);
    assert_eq!(zero.to_string(), "00000000000000000000");
    assert_eq!(Xid::from_text("00000000000000000000").unwrap().as_bytes(), &[0u8; 12]);
    assert!(Xid::from_text("0000000000000000000h").is_none());
    assert_eq!(Xid([255u8; 12]).to_string(), "vvvvvvvvvvvvvvvvvvvg");
}
