use account_auth::token::{SigningFailure, TokenIssuer, TOKEN_LIFETIME};

fn issuer() -> TokenIssuer {
    TokenIssuer::new(b"process signing key".to_vec())
}

#[test]
fn issued_token_round_trips() {
    let i = issuer();
    let t = i.issue("alice", 1_000).unwrap();
    assert!(!t.is_empty());
    assert_eq!(i.verify(&t, 1_000), Some(String::from("alice")));
    assert_eq!(i.verify(&t, 1_000 + TOKEN_LIFETIME), Some(String::from("alice")));
}

#[test]
fn token_layout_is_identity_expiry_and_tag() {
    let t = issuer().issue("alice", 0).unwrap();
    // 3600 seconds later, as sixteen hex digits
    assert!(t.starts_with("alice.0000000000000e10."));
    let tag = &t["alice.0000000000000e10.".len()..];
    assert_eq!(tag.len(), 64);
    assert!(tag.chars().all(|c| c.is_ascii_hexdigit() && !c.is_ascii_uppercase()));
}

#[test]
fn token_tag_is_hmac_sha256_of_signed_part() {
    let t = issuer().issue("alice", 0).unwrap();
    assert_eq!(
        t,
        "alice.0000000000000e10.9dfc7a40f4476188c70143a5cd25e8aec7ec9d20667b171113b91ed0738d0fca"
    );
}

#[test]
fn expired_token_is_refused() {
    let i = issuer();
    let t = i.issue("alice", 1_000).unwrap();
    assert_eq!(i.verify(&t, 1_000 + TOKEN_LIFETIME + 1), None);
    assert_eq!(i.verify(&t, u64::MAX), None);
}

#[test]
fn altered_token_is_refused() {
    let i = issuer();
    let t = i.issue("alice", 1_000).unwrap();
    let bytes = t.as_bytes();
    for pos in 0..bytes.len() {
        let mut altered = bytes.to_vec();
        altered[pos] = if altered[pos] == b'0' { b'1' } else { b'0' };
        let altered = String::from_utf8(altered).unwrap();
        assert_eq!(i.verify(&altered, 1_000), None, "position {}", pos);
    }
}

#[test]
fn token_of_another_key_is_refused() {
    let t = issuer().issue("alice", 1_000).unwrap();
    let other = TokenIssuer::new(b"another key".to_vec());
    assert_eq!(other.verify(&t, 1_000), None);
}

#[test]
fn identity_with_dots_round_trips() {
    let i = issuer();
    let t = i.issue("a.b.c", 5).unwrap();
    assert_eq!(i.verify(&t, 5), Some(String::from("a.b.c")));
}

#[test]
fn malformed_tokens_are_refused() {
    let i = issuer();
    assert_eq!(i.verify("", 0), None);
    assert_eq!(i.verify("alice", 0), None);
    assert_eq!(i.verify("alice.0000000000000e10.", 0), None);
}

#[test]
fn expiry_saturates_near_the_end_of_time() {
    let i = issuer();
    let t = i.issue("alice", u64::MAX - 1).unwrap();
    assert!(t.starts_with("alice.ffffffffffffffff."));
    assert_eq!(i.verify(&t, u64::MAX - 1), Some(String::from("alice")));
    let last = i.issue("alice", u64::MAX).unwrap();
    assert_eq!(i.verify(&last, u64::MAX), Some(String::from("alice")));
}

#[test]
fn empty_key_cannot_sign() {
    let i = TokenIssuer::new(Vec::new());
    assert_eq!(i.issue("alice", 0), Err(SigningFailure));
    assert_eq!(i.verify("alice.0000000000000e10.00", 0), None);
}
