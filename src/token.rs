use vstd::prelude::*;
use vstd::arithmetic::div_mod::lemma_mod_breakdown;
use hmac::{Hmac, Mac};
use sha2::Sha256;

verus! {

broadcast use vstd::seq_lib::group_seq_properties;

/// How long a session token stays valid, in seconds.
pub const TOKEN_LIFETIME: u64 = 3600;

/// The number of hex digits that carry a token's expiry time.
pub const EXPIRY_DIGITS: usize = 16;

/// The HMAC-SHA256 tag of the UTF-8 encoding of `msg` under `key`.
pub uninterp spec fn hmac_sha256_of(key: Seq<u8>, msg: Seq<char>) -> Seq<u8>;

/// Relies on hmac's `Mac::new_from_slice`, `Mac::update` and `Mac::finalize`
/// for `Hmac<sha2::Sha256>`: the tag depends on the key and the message bytes
/// alone. For HMAC, `new_from_slice` returns `Ok` for a key of any length
/// (longer keys are hashed first), so the `expect` never fires.
#[verifier::external_body]
fn hmac_sha256(key: &[u8], msg: &str) -> (r: Vec<u8>)
    ensures
        r@ == hmac_sha256_of(key@, msg@),
{
    let mut mac = <Hmac<Sha256> as Mac>::new_from_slice(key).expect("HMAC takes keys of any length");
    mac.update(msg.as_bytes());
    mac.finalize().into_bytes().to_vec()
}

/// Relies on `String: FromIterator<char>`: the string of exactly these
/// characters, in order.
#[verifier::external_body]
fn string_of(chars: &[char]) -> (r: String)
    ensures
        r@ == chars@,
{
    chars.iter().collect()
}

/// The characters of `s`, in order.
fn chars_of(s: &str) -> (r: Vec<char>)
    ensures
        r@ == s@,
{
    let n = s.unicode_len();
    let mut r: Vec<char> = Vec::new();
    let mut i: usize = 0;
    while i < n
        invariant
            n == s@.len(),
            0 <= i <= n,
            r@ == s@.subrange(0, i as int),
        decreases n - i,
    {
        r.push(s.get_char(i));
        i += 1;
        assert(r@ =~= s@.subrange(0, i as int));
    }
    assert(r@ =~= s@);
    r
}

pub open spec fn hex_alphabet() -> Seq<char> {
    seq!['0', '1', '2', '3', '4', '5', '6', '7', '8', '9', 'a', 'b', 'c', 'd', 'e', 'f']
}

/// The value of a lowercase hex digit, or -1 for any other character.
pub open spec fn digit_value(c: char) -> int {
    if '0' <= c && c <= '9' {
        c as int - '0' as int
    } else if 'a' <= c && c <= 'f' {
        c as int - 'a' as int + 10
    } else {
        -1
    }
}

pub open spec fn all_hex(s: Seq<char>) -> bool {
    forall|i: int| 0 <= i < s.len() ==> 0 <= #[trigger] digit_value(s[i])
}

/// Two lowercase hex digits for each byte, high nibble first.
pub open spec fn hex_of(bytes: Seq<u8>) -> Seq<char>
    decreases bytes.len(),
{
    if bytes.len() == 0 {
        Seq::empty()
    } else {
        let b = bytes.last();
        hex_of(bytes.drop_last()) + seq![hex_alphabet()[(b / 16) as int], hex_alphabet()[(b % 16) as int]]
    }
}

/// The `width` lowest hex digits of `n`, most significant first.
pub open spec fn hex_digits(n: nat, width: nat) -> Seq<char>
    decreases width,
{
    if width == 0 {
        Seq::empty()
    } else {
        hex_digits(n / 16, (width - 1) as nat).push(hex_alphabet()[(n % 16) as int])
    }
}

/// The number written by a sequence of hex digits.
pub open spec fn hex_value(s: Seq<char>) -> int
    decreases s.len(),
{
    if s.len() == 0 {
        0
    } else {
        16 * hex_value(s.drop_last()) + digit_value(s.last())
    }
}

pub open spec fn pow16(width: nat) -> nat
    decreases width,
{
    if width == 0 {
        1
    } else {
        16 * pow16((width - 1) as nat)
    }
}

proof fn lemma_alphabet_values()
    ensures
        forall|d: int| 0 <= d < 16 ==> digit_value(#[trigger] hex_alphabet()[d]) == d,
        hex_alphabet().len() == 16,
{
    assert forall|d: int| 0 <= d < 16 implies digit_value(#[trigger] hex_alphabet()[d]) == d by {
        if d == 0 {} else if d == 1 {} else if d == 2 {} else if d == 3 {}
        else if d == 4 {} else if d == 5 {} else if d == 6 {} else if d == 7 {}
        else if d == 8 {} else if d == 9 {} else if d == 10 {} else if d == 11 {}
        else if d == 12 {} else if d == 13 {} else if d == 14 {} else {}
    }
}

proof fn lemma_pow16_positive(width: nat)
    ensures
        pow16(width) > 0,
    decreases width,
{
    if width > 0 {
        lemma_pow16_positive((width - 1) as nat);
    }
}

proof fn lemma_hex_of_len(bytes: Seq<u8>)
    ensures
        hex_of(bytes).len() == 2 * bytes.len(),
    decreases bytes.len(),
{
    if bytes.len() > 0 {
        lemma_hex_of_len(bytes.drop_last());
    }
}

proof fn lemma_hex_digits_shape(n: nat, width: nat)
    ensures
        hex_digits(n, width).len() == width,
        all_hex(hex_digits(n, width)),
        hex_value(hex_digits(n, width)) == n % pow16(width),
    decreases width,
{
    lemma_alphabet_values();
    if width > 0 {
        let w1 = (width - 1) as nat;
        lemma_hex_digits_shape(n / 16, w1);
        let s = hex_digits(n, width);
        assert(s.drop_last() =~= hex_digits(n / 16, w1));
        assert(digit_value(s.last()) == n % 16);
        lemma_pow16_positive(w1);
        lemma_mod_breakdown(n as int, 16, pow16(w1) as int);
    }
}

proof fn lemma_hex_value_bound(s: Seq<char>)
    requires
        all_hex(s),
    ensures
        0 <= hex_value(s) < pow16(s.len()),
    decreases s.len(),
{
    if s.len() > 0 {
        let p = s.drop_last();
        assert(all_hex(p)) by {
            assert forall|i: int| 0 <= i < p.len() implies 0 <= #[trigger] digit_value(p[i]) by {
                assert(p[i] == s[i]);
            }
        }
        lemma_hex_value_bound(p);
        assert(0 <= digit_value(s[s.len() - 1]));
        let a = hex_value(p);
        let b = pow16(p.len());
        assert(16 * a + 15 < 16 * b) by (nonlinear_arith)
            requires a < b;
    }
}

proof fn lemma_pow16_expiry()
    ensures
        pow16(EXPIRY_DIGITS as nat) == 0x1_0000_0000_0000_0000,
{
    reveal_with_fuel(pow16, 17);
}

/// The expiry time of a token issued at `now`: `TOKEN_LIFETIME` seconds
/// later, or the largest time that can be written when that would overflow.
pub open spec fn expiry_after(now: u64) -> nat {
    if now <= u64::MAX - TOKEN_LIFETIME {
        (now + TOKEN_LIFETIME) as nat
    } else {
        u64::MAX as nat
    }
}

/// The part of a token that the tag covers: the identity, a dot and the
/// expiry digits.
pub open spec fn signed_part(identity: Seq<char>, expiry: Seq<char>) -> Seq<char> {
    identity + seq!['.'] + expiry
}

/// A token: the signed part, a dot, and the hex of its HMAC-SHA256 tag.
pub open spec fn signed_token(key: Seq<u8>, identity: Seq<char>, expiry: Seq<char>) -> Seq<char> {
    signed_part(identity, expiry) + seq!['.'] + hex_of(hmac_sha256_of(key, signed_part(identity, expiry)))
}

/// The token issued for `identity` at time `now`.
pub open spec fn issued_token(key: Seq<u8>, identity: Seq<char>, now: u64) -> Seq<char> {
    signed_token(key, identity, hex_digits(expiry_after(now), EXPIRY_DIGITS as nat))
}

/// `token` was signed under `key` for `identity`, and its expiry time, read
/// from its digits, is not before `now`.
pub open spec fn token_valid_for(key: Seq<u8>, token: Seq<char>, identity: Seq<char>, now: u64) -> bool {
    &&& key.len() > 0
    &&& exists|x: Seq<char>|
        x.len() == EXPIRY_DIGITS && all_hex(x) && hex_value(x) >= now && #[trigger] signed_token(key, identity, x) == token
}

proof fn lemma_hex_of_digits(bytes: Seq<u8>)
    ensures
        all_hex(hex_of(bytes)),
    decreases bytes.len(),
{
    lemma_alphabet_values();
    if bytes.len() > 0 {
        let p = bytes.drop_last();
        lemma_hex_of_digits(p);
        let h = hex_of(bytes);
        let b = bytes.last();
        assert forall|i: int| 0 <= i < h.len() implies 0 <= #[trigger] digit_value(h[i]) by {
            if i < hex_of(p).len() {
                assert(h[i] == hex_of(p)[i]);
            } else if i == hex_of(p).len() {
                assert(h[i] == hex_alphabet()[(b / 16) as int]);
            } else {
                assert(h[i] == hex_alphabet()[(b % 16) as int]);
            }
        }
    }
}

proof fn lemma_token_layout(key: Seq<u8>, identity: Seq<char>, x: Seq<char>)
    requires
        x.len() == EXPIRY_DIGITS,
    ensures
        ({
            let t = signed_token(key, identity, x);
            let m = identity.len() as int;
            &&& t.len() >= m + 18
            &&& t.subrange(0, m as int) == identity
            &&& t[m as int] == '.'
            &&& t.subrange(m + 1, m + 17) == x
            &&& t[m + 17] == '.'
            &&& forall|k: int| m + 17 < k < t.len() ==> #[trigger] t[k] != '.'
            &&& t.subrange(0, m + 17) == signed_part(identity, x)
            &&& t.subrange(m + 18, t.len() as int) == hex_of(hmac_sha256_of(key, signed_part(identity, x)))
        }),
{
    let t = signed_token(key, identity, x);
    let m = identity.len() as int;
    let p = signed_part(identity, x);
    let h = hex_of(hmac_sha256_of(key, p));
    lemma_hex_of_digits(hmac_sha256_of(key, p));
    assert(t.subrange(0, m as int) =~= identity);
    assert(t.subrange(m + 1, m + 17) =~= x);
    assert(t.subrange(0, m + 17) =~= p);
    assert(t.subrange(m + 18, t.len() as int) =~= h);
    assert forall|k: int| m + 17 < k < t.len() implies #[trigger] t[k] != '.' by {
        assert(t[k] == h[k - m - 18]);
        assert(0 <= digit_value(h[k - m - 18]));
    }
}

/// What a valid token looks like: `dot` is its last dot.
proof fn lemma_valid_parts(key: Seq<u8>, t: Seq<char>, identity: Seq<char>, now: u64) -> (dot: int)
    requires
        token_valid_for(key, t, identity, now),
    ensures
        key.len() > 0,
        17 <= dot < t.len(),
        dot == identity.len() + 17,
        t[dot] == '.',
        forall|k: int| dot < k < t.len() ==> #[trigger] t[k] != '.',
        identity == t.subrange(0, dot - 17),
        t[dot - 17] == '.',
        all_hex(t.subrange(dot - 16, dot)),
        hex_value(t.subrange(dot - 16, dot)) >= now,
        t.subrange(dot + 1, t.len() as int) == hex_of(hmac_sha256_of(key, t.subrange(0, dot))),
{
    let x = choose|x: Seq<char>|
        x.len() == EXPIRY_DIGITS && all_hex(x) && hex_value(x) >= now && #[trigger] signed_token(key, identity, x) == t;
    lemma_token_layout(key, identity, x);
    identity.len() + 17 as int
}

/// A token issued for `identity` verifies, under the same key and at any
/// time up to its expiry (the time of issue included), for that identity
/// and for no other.
pub proof fn lemma_issued_token_verifies(key: Seq<u8>, identity: Seq<char>, now: u64, later: u64)
    requires
        key.len() > 0,
        later <= expiry_after(now),
    ensures
        token_valid_for(key, issued_token(key, identity, now), identity, later),
        forall|other: Seq<char>|
            token_valid_for(key, issued_token(key, identity, now), other, later) ==> other == identity,
{
    let e = expiry_after(now);
    let x = hex_digits(e, EXPIRY_DIGITS as nat);
    lemma_hex_digits_shape(e, EXPIRY_DIGITS as nat);
    lemma_pow16_expiry();
    assert(e % pow16(EXPIRY_DIGITS as nat) == e);
    assert(signed_token(key, identity, x) == issued_token(key, identity, now));
    let t = issued_token(key, identity, now);
    assert forall|other: Seq<char>| token_valid_for(key, t, other, later) implies other == identity by {
        let d1 = lemma_valid_parts(key, t, identity, later);
        let d2 = lemma_valid_parts(key, t, other, later);
        if d1 < d2 {
            assert(t[d2] != '.');
        } else if d2 < d1 {
            assert(t[d1] != '.');
        }
    }
}

/// The lowercase hex digit for `d`.
fn hex_char(d: u8) -> (c: char)
    requires
        d < 16,
    ensures
        c == hex_alphabet()[d as int],
{
    let alphabet = ['0', '1', '2', '3', '4', '5', '6', '7', '8', '9', 'a', 'b', 'c', 'd', 'e', 'f'];
    assert(alphabet@ =~= hex_alphabet());
    alphabet[d as usize]
}

/// The value of `c` as a lowercase hex digit, if it is one.
fn hex_char_value(c: char) -> (r: Option<u8>)
    ensures
        r matches Some(d) ==> d < 16 && d as int == digit_value(c),
        r is None <==> digit_value(c) < 0,
{
    if '0' <= c && c <= '9' {
        Some((c as u32 - '0' as u32) as u8)
    } else if 'a' <= c && c <= 'f' {
        Some((c as u32 - 'a' as u32 + 10) as u8)
    } else {
        None
    }
}

/// Appends two lowercase hex digits for each byte, high nibble first.
fn push_hex_bytes(bytes: &[u8], out: &mut Vec<char>)
    ensures
        final(out)@ == old(out)@ + hex_of(bytes@),
{
    let n = bytes.len();
    let mut i: usize = 0;
    while i < n
        invariant
            n == bytes@.len(),
            0 <= i <= n,
            out@ == old(out)@ + hex_of(bytes@.subrange(0, i as int)),
        decreases n - i,
    {
        let b = bytes[i];
        out.push(hex_char(b / 16));
        out.push(hex_char(b % 16));
        let ghost prefix = bytes@.subrange(0, i + 1);
        assert(prefix.drop_last() =~= bytes@.subrange(0, i as int));
        i += 1;
        assert(out@ =~= old(out)@ + hex_of(bytes@.subrange(0, i as int)));
    }
    assert(bytes@.subrange(0, n as int) =~= bytes@);
}

/// Appends the `width` lowest hex digits of `n`, most significant first.
fn push_hex_digits(n: u64, width: usize, out: &mut Vec<char>)
    ensures
        final(out)@ == old(out)@ + hex_digits(n as nat, width as nat),
    decreases width,
{
    if width > 0 {
        push_hex_digits(n / 16, width - 1, out);
        out.push(hex_char((n % 16) as u8));
        assert(final(out)@ =~= old(out)@ + hex_digits(n as nat, width as nat));
    }
}

/// The number written by the hex digits `chars[from..from + EXPIRY_DIGITS]`,
/// or `None` if one of them is not a lowercase hex digit.
fn parse_expiry(chars: &Vec<char>, from: usize) -> (r: Option<u64>)
    requires
        from + EXPIRY_DIGITS <= chars@.len(),
    ensures
        ({
            let s = chars@.subrange(from as int, from + EXPIRY_DIGITS);
            &&& r is Some <==> all_hex(s)
            &&& r matches Some(v) ==> v as int == hex_value(s)
        }),
{
    let ghost s = chars@.subrange(from as int, from + EXPIRY_DIGITS);
    let n = chars.len();
    let mut v: u64 = 0;
    let mut i: usize = 0;
    while i < EXPIRY_DIGITS
        invariant
            n == chars@.len(),
            from + EXPIRY_DIGITS <= chars@.len(),
            s == chars@.subrange(from as int, from + EXPIRY_DIGITS),
            0 <= i <= EXPIRY_DIGITS,
            all_hex(s.subrange(0, i as int)),
            v as int == hex_value(s.subrange(0, i as int)),
        decreases EXPIRY_DIGITS - i,
    {
        let ghost done = s.subrange(0, i as int);
        let ghost next = s.subrange(0, i + 1);
        assert(next.drop_last() =~= done);
        match hex_char_value(chars[from + i]) {
            None => {
                assert(s[i as int] == chars@[from + i]);
                return None;
            },
            Some(d) => {
                proof {
                    lemma_hex_value_bound(done);
                    lemma_pow16_expiry();
                    lemma_pow16_grows(i as nat, (EXPIRY_DIGITS - 1) as nat);
                    assert(16 * (v as int) + 15 < 16 * pow16((EXPIRY_DIGITS - 1) as nat)) by (nonlinear_arith)
                        requires (v as int) < pow16(i as nat), pow16(i as nat) <= pow16((EXPIRY_DIGITS - 1) as nat);
                    reveal_with_fuel(pow16, 2);
                    assert forall|k: int| 0 <= k < next.len() implies 0 <= #[trigger] digit_value(next[k]) by {
                        if k < i {
                            assert(next[k] == done[k]);
                        }
                    }
                }
                v = v * 16 + d as u64;
                i += 1;
            },
        }
    }
    assert(s.subrange(0, EXPIRY_DIGITS as int) =~= s);
    Some(v)
}

/// `chars[from..to]` as a vector of its own.
fn sub_chars(chars: &Vec<char>, from: usize, to: usize) -> (r: Vec<char>)
    requires
        from <= to <= chars@.len(),
    ensures
        r@ == chars@.subrange(from as int, to as int),
{
    let mut r: Vec<char> = Vec::new();
    let mut i: usize = from;
    while i < to
        invariant
            from <= i <= to <= chars@.len(),
            r@ == chars@.subrange(from as int, i as int),
        decreases to - i,
    {
        r.push(chars[i]);
        i += 1;
        assert(r@ =~= chars@.subrange(from as int, i as int));
    }
    r
}

/// Signing was not possible: no key material is configured.
#[derive(Debug, Clone, Copy, PartialEq, Eq, Structural)]
pub struct SigningFailure;

/// Issues and checks session tokens under one signing key, fixed when the
/// issuer is made.
pub struct TokenIssuer {
    key: Vec<u8>,
}

impl TokenIssuer {
    pub closed spec fn signing_key(&self) -> Seq<u8> {
        self.key@
    }

    /// An issuer that signs with `key`. An empty key stands for a key that
    /// is not available: such an issuer signs nothing.
    pub fn new(key: Vec<u8>) -> (r: TokenIssuer)
        ensures
            r.signing_key() == key@,
    {
        TokenIssuer { key }
    }

    /// A token for `identity`, valid until `TOKEN_LIFETIME` seconds after
    /// `now`. It fails only when no key is available.
    pub fn issue(&self, identity: &str, now: u64) -> (r: Result<String, SigningFailure>)
        ensures
            r is Err <==> self.signing_key().len() == 0,
            r matches Ok(t) ==> t@ == issued_token(self.signing_key(), identity@, now),
    {
        if self.key.len() == 0 {
            return Err(SigningFailure);
        }
        let expiry: u64 = if now <= u64::MAX - TOKEN_LIFETIME {
            now + TOKEN_LIFETIME
        } else {
            u64::MAX
        };
        let mut chars = chars_of(identity);
        chars.push('.');
        push_hex_digits(expiry, EXPIRY_DIGITS, &mut chars);
        let ghost part = signed_part(identity@, hex_digits(expiry as nat, EXPIRY_DIGITS as nat));
        assert(chars@ =~= part);
        let signed = string_of(chars.as_slice());
        let tag = hmac_sha256(self.key.as_slice(), signed.as_str());
        chars.push('.');
        push_hex_bytes(tag.as_slice(), &mut chars);
        assert(chars@ =~= issued_token(self.key@, identity@, now));
        Ok(string_of(chars.as_slice()))
    }

    /// The identity that `token` was issued for, when it carries a valid
    /// signature under this issuer's key and has not expired at `now`;
    /// `None` otherwise. A token is still valid at its expiry time.
    pub fn verify(&self, token: &str, now: u64) -> (r: Option<String>)
        ensures
            r matches Some(id) ==> token_valid_for(self.signing_key(), token@, id@, now),
            r is None ==> forall|id: Seq<char>| !token_valid_for(self.signing_key(), token@, id, now),
    {
        let ghost key = self.key@;
        let ghost t = token@;
        let chars = chars_of(token);
        let n = chars.len();
        if self.key.len() == 0 {
            return None;
        }
        // The tag is written in hex digits, so the last dot ends the signed part.
        let mut dot: usize = n;
        let mut k: usize = n;
        while k > 0
            invariant
                chars@ == t,
                n == t.len(),
                0 <= k <= n,
                dot <= n,
                dot == n ==> forall|j: int| k <= j < n ==> #[trigger] t[j] != '.',
                dot < n ==> k == 0 && t[dot as int] == '.' && forall|j: int| dot < j < n ==> #[trigger] t[j] != '.',
            decreases k,
        {
            if chars[k - 1] == '.' {
                dot = k - 1;
                k = 0;
            } else {
                k -= 1;
            }
        }
        if dot == n || dot < 17 {
            proof {
                assert forall|id: Seq<char>| !token_valid_for(key, t, id, now) by {
                    if token_valid_for(key, t, id, now) {
                        let d = lemma_valid_parts(key, t, id, now);
                        if dot < n {
                            assert(d <= dot);
                        }
                    }
                }
            }
            return None;
        }
        if chars[dot - 17] != '.' {
            proof {
                assert forall|id: Seq<char>| !token_valid_for(key, t, id, now) by {
                    if token_valid_for(key, t, id, now) {
                        let d = lemma_valid_parts(key, t, id, now);
                        assert(d == dot);
                    }
                }
            }
            return None;
        }
        let expiry = parse_expiry(&chars, dot - 16);
        let ghost x = t.subrange(dot - 16, dot as int);
        let ok = match expiry {
            Some(v) => v >= now,
            None => false,
        };
        if !ok {
            proof {
                assert forall|id: Seq<char>| !token_valid_for(key, t, id, now) by {
                    if token_valid_for(key, t, id, now) {
                        let d = lemma_valid_parts(key, t, id, now);
                        assert(d == dot);
                    }
                }
            }
            return None;
        }
        let signed_chars = sub_chars(&chars, 0, dot);
        let signed = string_of(signed_chars.as_slice());
        let tag = hmac_sha256(self.key.as_slice(), signed.as_str());
        let mut expected: Vec<char> = Vec::new();
        push_hex_bytes(tag.as_slice(), &mut expected);
        let ghost h = hex_of(hmac_sha256_of(key, t.subrange(0, dot as int)));
        assert(expected@ =~= h);
        let ghost tail = t.subrange(dot + 1, n as int);
        // Every digit pair is compared, so the time taken does not tell
        // how long a prefix of a forged tag was right.
        let same_len = expected.len() == n - dot - 1;
        let mut same = same_len;
        let mut i: usize = 0;
        let m: usize = if same_len { expected.len() } else { 0 };
        while i < m
            invariant
                chars@ == t,
                n == t.len(),
                dot < n,
                expected@ == h,
                tail == t.subrange(dot + 1, n as int),
                same_len ==> m == expected@.len() && expected@.len() == tail.len(),
                !same_len ==> m == 0 && !same && expected@.len() != tail.len(),
                0 <= i <= m,
                same <==> same_len && forall|j: int| 0 <= j < i ==> expected@[j] == tail[j],
            decreases m - i,
        {
            let eq = expected[i] == chars[dot + 1 + i];
            assert(tail[i as int] == t[dot + 1 + i]);
            assert(eq == (expected@[i as int] == tail[i as int]));
            if !eq {
                same = false;
            }
            i += 1;
        }
        if !same && same_len {
            let ghost j = choose|j: int| 0 <= j < m && expected@[j] != tail[j];
            assert(expected@[j] != tail[j]);
        }
        if !same {
            proof {
                assert forall|id: Seq<char>| !token_valid_for(key, t, id, now) by {
                    if token_valid_for(key, t, id, now) {
                        let d = lemma_valid_parts(key, t, id, now);
                        assert(d == dot);
                    }
                }
            }
            return None;
        }
        assert(expected@ =~= tail);
        let id_chars = sub_chars(&chars, 0, dot - 17);
        let ghost id = id_chars@;
        proof {
            assert(signed_part(id, x) =~= t.subrange(0, dot as int));
            assert(signed_token(key, id, x) =~= t);
        }
        Some(string_of(id_chars.as_slice()))
    }
}

proof fn lemma_pow16_grows(a: nat, b: nat)
    requires
        a <= b,
    ensures
        pow16(a) <= pow16(b),
    decreases b,
{
    if a < b {
        lemma_pow16_grows(a, (b - 1) as nat);
        lemma_pow16_positive((b - 1) as nat);
    }
}

} // verus!
