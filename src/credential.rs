use vstd::prelude::*;
use vstd::utf8::encode_utf8;
use sha2::{Digest, Sha256};

verus! {

/// The number of random bytes that salt each stored credential.
pub const SALT_BYTES: usize = 16;

/// The SHA-256 digest of `data`.
pub uninterp spec fn sha256_of(data: Seq<u8>) -> Seq<u8>;

/// Relies on `sha2::Sha256::digest`: the digest of the given bytes, 32 bytes
/// long, a function of those bytes alone.
#[verifier::external_body]
fn sha256(data: &[u8]) -> (r: Vec<u8>)
    ensures
        r@ == sha256_of(data@),
        r@.len() == 32,
{
    Sha256::digest(data).to_vec()
}

/// Relies on `getrandom::getrandom`: fills the buffer from the operating
/// system's random source, or reports that it could not. Nothing is known of
/// the bytes but their number.
#[verifier::external_body]
fn random_bytes(n: usize) -> (r: Option<Vec<u8>>)
    ensures
        r matches Some(b) ==> b@.len() == n,
{
    let mut b = vec![0u8; n];
    match getrandom::getrandom(&mut b) {
        Ok(()) => Some(b),
        Err(_) => None,
    }
}

/// What is stored in place of `credential` under `salt`: the SHA-256 digest
/// of the salt followed by the UTF-8 bytes of the credential.
pub open spec fn credential_hash(salt: Seq<u8>, credential: Seq<char>) -> Seq<u8> {
    sha256_of(salt + encode_utf8(credential))
}

/// A salt and the hash of a credential under it; the credential itself is
/// not kept.
pub struct StoredCredential {
    pub salt: Vec<u8>,
    pub hash: Vec<u8>,
}

/// The salted hash of `credential` under `salt`.
pub fn hash_credential(salt: &[u8], credential: &str) -> (r: Vec<u8>)
    ensures
        r@ == credential_hash(salt@, credential@),
{
    let bytes = credential.as_bytes();
    let mut data: Vec<u8> = Vec::new();
    let mut i: usize = 0;
    while i < salt.len()
        invariant
            0 <= i <= salt@.len(),
            data@ == salt@.subrange(0, i as int),
        decreases salt@.len() - i,
    {
        data.push(salt[i]);
        i += 1;
        assert(data@ =~= salt@.subrange(0, i as int));
    }
    let mut j: usize = 0;
    while j < bytes.len()
        invariant
            0 <= j <= bytes@.len(),
            data@ == salt@ + bytes@.subrange(0, j as int),
        decreases bytes@.len() - j,
    {
        data.push(bytes[j]);
        j += 1;
        assert(data@ =~= salt@ + bytes@.subrange(0, j as int));
    }
    assert(salt@.subrange(0, salt@.len() as int) =~= salt@);
    assert(bytes@.subrange(0, bytes@.len() as int) =~= bytes@);
    sha256(data.as_slice())
}

impl View for StoredCredential {
    type V = (Seq<u8>, Seq<u8>);

    open spec fn view(&self) -> (Seq<u8>, Seq<u8>) {
        (self.salt@, self.hash@)
    }
}

/// How many of the stored (salt, hash) pairs hold the hash of `credential`.
pub open spec fn matches_count(stored: Seq<(Seq<u8>, Seq<u8>)>, credential: Seq<char>) -> nat
    decreases stored.len(),
{
    if stored.len() == 0 {
        0
    } else {
        matches_count(stored.drop_last(), credential) + if credential_hash(stored.last().0, credential)
            == stored.last().1 {
            1nat
        } else {
            0nat
        }
    }
}

/// The number of stored credentials that `credential` matches, each
/// compared with `credential_matches`.
pub fn count_matches(stored: &Vec<StoredCredential>, credential: &str) -> (r: usize)
    ensures
        r == matches_count(stored@.map_values(|s: StoredCredential| s@), credential@),
{
    let ghost all = stored@.map_values(|s: StoredCredential| s@);
    let n = stored.len();
    let mut count: usize = 0;
    let mut i: usize = 0;
    while i < n
        invariant
            n == stored@.len(),
            all == stored@.map_values(|s: StoredCredential| s@),
            0 <= i <= n,
            count <= i,
            count == matches_count(all.subrange(0, i as int), credential@),
        decreases n - i,
    {
        assert(all.subrange(0, i + 1).drop_last() =~= all.subrange(0, i as int));
        assert(all[i as int] == stored@[i as int]@);
        if credential_matches(stored[i].salt.as_slice(), stored[i].hash.as_slice(), credential) {
            count += 1;
        }
        i += 1;
    }
    assert(all.subrange(0, n as int) =~= all);
    count
}

/// A fresh random salt and the hash of `credential` under it, or `None`
/// when no random bytes could be had.
pub fn new_stored_credential(credential: &str) -> (r: Option<StoredCredential>)
    ensures
        r matches Some(s) ==> s.salt@.len() == SALT_BYTES && s.hash@ == credential_hash(s.salt@, credential@),
{
    match random_bytes(SALT_BYTES) {
        None => None,
        Some(salt) => {
            let hash = hash_credential(salt.as_slice(), credential);
            Some(StoredCredential { salt, hash })
        },
    }
}

/// Whether `a` and `b` hold the same bytes. Every byte pair is looked at
/// whatever the earlier ones were, so the time taken depends on the lengths
/// alone.
pub fn constant_time_eq(a: &[u8], b: &[u8]) -> (r: bool)
    ensures
        r == (a@ == b@),
{
    if a.len() != b.len() {
        return false;
    }
    let n = a.len();
    let mut diff: u8 = 0;
    let mut i: usize = 0;
    while i < n
        invariant
            n == a@.len(),
            n == b@.len(),
            0 <= i <= n,
            (diff == 0) <==> forall|k: int| 0 <= k < i ==> a@[k] == b@[k],
        decreases n - i,
    {
        let x = a[i];
        let y = b[i];
        assert((diff | (x ^ y)) == 0 <==> (diff == 0 && x == y)) by (bit_vector);
        diff = diff | (x ^ y);
        i += 1;
    }
    if diff == 0 {
        assert(a@ =~= b@);
        true
    } else {
        false
    }
}

/// Whether `credential` is the one whose salted hash is `hash`, compared
/// with `constant_time_eq`.
pub fn credential_matches(salt: &[u8], hash: &[u8], credential: &str) -> (r: bool)
    ensures
        r == (credential_hash(salt@, credential@) == hash@),
{
    let h = hash_credential(salt, credential);
    constant_time_eq(h.as_slice(), hash)
}

} // verus!
