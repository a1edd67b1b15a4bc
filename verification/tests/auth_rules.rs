use room_relay::auth::{parse_bearer, token_claims, TOKEN_LIFETIME_SECONDS};

fn bearer(h: &str) -> Option<Vec<u8>> {
    parse_bearer(&h.as_bytes().to_vec())
}

#[test]
fn bearer_credential_is_extracted() {
    assert_eq!(bearer("Bearer abc.def.ghi"), Some(b"abc.def.ghi".to_vec()));
}

#[test]
fn bearer_scheme_is_case_insensitive() {
    assert_eq!(bearer("bearer tok"), Some(b"tok".to_vec()));
    assert_eq!(bearer("BEARER tok"), Some(b"tok".to_vec()));
    assert_eq!(bearer("BeArEr tok"), Some(b"tok".to_vec()));
}

#[test]
fn bearer_tolerates_extra_whitespace_and_trailing_words() {
    assert_eq!(bearer("  Bearer\t tok  more"), Some(b"tok".to_vec()));
}

#[test]
fn bearer_refuses_other_shapes() {
    assert_eq!(bearer(""), None);
    assert_eq!(bearer("Bearer"), None);
    assert_eq!(bearer("Bearer   "), None);
    assert_eq!(bearer("Basic dXNlcjpwYXNz"), None);
    assert_eq!(bearer("tok"), None);
    assert_eq!(bearer("Bearer2 tok"), None);
}

#[test]
fn token_claims_span_one_week() {
    let now = 1_700_000_000i64;
    let claims = token_claims(now).expect("ordinary clock reading");
    assert_eq!(claims.iat, now as u64);
    assert_eq!(claims.nbf, now as u64);
    assert_eq!(claims.exp, (now + TOKEN_LIFETIME_SECONDS) as u64);
    assert_eq!(claims.exp - claims.iat, 604_800);
}

#[test]
fn token_claims_refuse_preepoch_and_unrepresentable_clocks() {
    assert!(token_claims(-1).is_none());
    assert!(token_claims(i64::MIN).is_none());
    assert!(token_claims(i64::MAX).is_none());
    assert!(token_claims(i64::MAX - TOKEN_LIFETIME_SECONDS).is_some());
}

#[test]
fn token_claims_at_epoch() {
    let claims = token_claims(0).expect("the epoch itself is fine");
    assert_eq!(claims.iat, 0);
    assert_eq!(claims.exp, TOKEN_LIFETIME_SECONDS as u64);
}
