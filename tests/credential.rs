use account_auth::credential::{
    constant_time_eq, count_matches, credential_matches, hash_credential, new_stored_credential, StoredCredential,
    SALT_BYTES,
};

fn salt() -> Vec<u8> {
    (0u8..16).collect()
}

fn hex(b: &[u8]) -> String {
    b.iter().map(|x| format!("{:02x}", x)).collect()
}

#[test]
fn hash_is_sha256_of_salt_then_credential() {
    let h = hash_credential(&salt(), "pw1");
    assert_eq!(hex(&h), "113b3a127f41d8a6d725b1d72aacbe9cf4f1a387925bada271c79b6e0af8a6ef");
    assert_ne!(h, b"pw1".to_vec());
}

#[test]
fn hash_depends_on_salt() {
    let other: Vec<u8> = (1u8..17).collect();
    assert_ne!(hash_credential(&salt(), "pw1"), hash_credential(&other, "pw1"));
}

#[test]
fn stored_credential_is_salted_hash() {
    let a = new_stored_credential("pw1").unwrap();
    let b = new_stored_credential("pw1").unwrap();
    assert_eq!(a.salt.len(), SALT_BYTES);
    assert_eq!(a.hash, hash_credential(&a.salt, "pw1"));
    assert_ne!(a.hash, b"pw1".to_vec());
    // fresh salts make equal passwords hash apart
    assert_ne!(a.salt, b.salt);
    assert_ne!(a.hash, b.hash);
}

#[test]
fn matching_credentials() {
    let h = hash_credential(&salt(), "right");
    assert!(credential_matches(&salt(), &h, "right"));
    assert!(!credential_matches(&salt(), &h, "wrong"));
    assert!(!credential_matches(&salt(), &h, ""));
}

#[test]
fn constant_time_equality() {
    assert!(constant_time_eq(b"", b""));
    assert!(constant_time_eq(b"abc", b"abc"));
    assert!(!constant_time_eq(b"abc", b"abd"));
    assert!(!constant_time_eq(b"abc", b"ab"));
    assert!(!constant_time_eq(b"xbc", b"abc"));
}

#[test]
fn count_of_matching_rows() {
    let row = |pw: &str| StoredCredential { salt: salt(), hash: hash_credential(&salt(), pw) };
    assert_eq!(count_matches(&vec![], "pw"), 0);
    assert_eq!(count_matches(&vec![row("pw")], "pw"), 1);
    assert_eq!(count_matches(&vec![row("other")], "pw"), 0);
    assert_eq!(count_matches(&vec![row("pw"), row("x"), row("pw")], "pw"), 2);
}
