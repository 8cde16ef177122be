//! Opaque sync and cursor tokens: a sequence id, sealed with ChaCha20-Poly1305
//! under a process-wide key and a fresh random nonce, written in hex.
//!
//! All accounts share one sequence counter, so a plain id would let one account
//! watch how fast the others write. The token hides it.
use vstd::prelude::*;
use ring::aead::{Aad, LessSafeKey, Nonce, UnboundKey, CHACHA20_POLY1305};
use crate::decimal::{decimal_bytes, decimal_of, lemma_parse_decimal, parse_i64, parsed_i64};

verus! {

/// Length of a ChaCha20-Poly1305 nonce.
pub const NONCE_LEN: usize = 12;

/// Length of the authentication tag appended to a sealed message.
pub const TAG_LEN: usize = 16;

/// Iterations of PBKDF2-HMAC-SHA256 that turn the operator's secret into the key.
pub const KEY_ITERATIONS: u32 = 100;

/// The longest message that ChaCha20-Poly1305 seals (RFC 8439, section 2.8).
pub const MAX_SEALED_INPUT: u64 = 274_877_906_880;

/// Why a token was refused.
#[derive(Debug, Clone, Copy, PartialEq, Eq, Structural)]
pub enum TokenError {
    /// Not hex, too short to hold a nonce, or not a number once opened.
    Malformed,
    /// The ciphertext does not open under the key: tampered with or forged.
    AuthenticationFailed,
}

/// hex's decoding error, mapped to `TokenError::Malformed`.
#[verifier::external_type_specification]
#[verifier::external_body]
pub struct ExFromHexError(hex::FromHexError);

/// ring's opaque error, mapped to the library's own errors.
#[verifier::external_type_specification]
#[verifier::external_body]
pub struct ExUnspecified(ring::error::Unspecified);

/// The lower-case hex digit of `v`, for `0 <= v < 16`.
pub open spec fn hex_char(v: int) -> char {
    if v < 10 {
        (48 + v) as char
    } else {
        (87 + v) as char
    }
}

/// The value of a hex digit of either case, or -1 for any other character.
pub open spec fn hex_value(c: char) -> int {
    let u = c as u32;
    if 48 <= u <= 57 {
        u - 48
    } else if 97 <= u <= 102 {
        u - 87
    } else if 65 <= u <= 70 {
        u - 55
    } else {
        -1
    }
}

/// Two lower-case hex digits per byte, high half first.
pub open spec fn hex_lower(b: Seq<u8>) -> Seq<char> {
    Seq::new(
        2 * b.len(),
        |i: int|
            if i % 2 == 0 {
                hex_char(b[i / 2] as int / 16)
            } else {
                hex_char(b[i / 2] as int % 16)
            },
    )
}

/// The bytes that a hex text stands for; none unless it has an even number of
/// characters, each a hex digit.
pub open spec fn hex_decoded(s: Seq<char>) -> Option<Seq<u8>> {
    if s.len() % 2 == 0 && forall|i: int| 0 <= i < s.len() ==> hex_value(#[trigger] s[i]) >= 0 {
        Some(Seq::new((s.len() / 2) as nat, |i: int| (hex_value(s[2 * i]) * 16 + hex_value(s[2 * i + 1])) as u8))
    } else {
        None
    }
}

/// The ciphertext and tag that ChaCha20-Poly1305 makes of `plain`.
pub uninterp spec fn sealed(key: Seq<u8>, nonce: Seq<u8>, plain: Seq<u8>) -> Seq<u8>;

/// What ChaCha20-Poly1305 opens `data` to: the plaintext, or none where the tag
/// does not authenticate.
pub uninterp spec fn opened(key: Seq<u8>, nonce: Seq<u8>, data: Seq<u8>) -> Option<Seq<u8>>;

/// The key that PBKDF2-HMAC-SHA256 derives.
pub uninterp spec fn pbkdf2_sha256(iterations: u32, salt: Seq<u8>, secret: Seq<u8>) -> Seq<u8>;

/// The token text for sequence id `n` sealed under `nonce`: the sealed decimal
/// text of `n`, then the nonce, all in hex.
pub open spec fn token_for(key: Seq<u8>, nonce: Seq<u8>, n: i64) -> Seq<char> {
    hex_lower(sealed(key, nonce, decimal_of(n as int)) + nonce)
}

/// What a token decodes to under `key`.
pub open spec fn token_value(key: Seq<u8>, token: Seq<char>) -> Result<i64, TokenError> {
    match hex_decoded(token) {
        None => Err(TokenError::Malformed),
        Some(data) => {
            if data.len() <= NONCE_LEN {
                Err(TokenError::Malformed)
            } else {
                let split = data.len() - NONCE_LEN;
                match opened(key, data.subrange(split, data.len() as int), data.subrange(0, split)) {
                    None => Err(TokenError::AuthenticationFailed),
                    Some(plain) => match parsed_i64(plain) {
                        Some(n) => Ok(n),
                        None => Err(TokenError::Malformed),
                    },
                }
            }
        },
    }
}

/// Relies on hex::encode: two lower-case hex digits per byte, in order.
#[verifier::external_body]
fn hex_encode(b: &[u8]) -> (r: String)
    ensures
        r@ == hex_lower(b@),
{
    hex::encode(b)
}

/// Relies on hex::decode: it accepts an even number of hex digits of either
/// case and fails on anything else.
#[verifier::external_body]
fn hex_decode(s: &str) -> (r: Result<Vec<u8>, hex::FromHexError>)
    ensures
        match r {
            Ok(b) => hex_decoded(s@) == Some(b@),
            Err(_) => hex_decoded(s@) is None,
        },
{
    hex::decode(s)
}

/// Relies on ring::pbkdf2::derive with PBKDF2_HMAC_SHA256, filling 32 bytes.
/// It panics only where the salt or the secret is too long for SHA-256.
#[verifier::external_body]
fn pbkdf2_derive(iterations: u32, salt: &[u8], secret: &[u8]) -> (r: [u8; 32])
    requires
        iterations > 0,
        salt@.len() < 0x1000_0000_0000_0000,
        secret@.len() < 0x1000_0000_0000_0000,
    ensures
        r@ == pbkdf2_sha256(iterations, salt@, secret@),
{
    let mut out = [0u8; 32];
    let n = std::num::NonZeroU32::new(iterations).unwrap();
    ring::pbkdf2::derive(ring::pbkdf2::PBKDF2_HMAC_SHA256, n, salt, secret, &mut out);
    out
}

/// Relies on ring::rand::SystemRandom::fill for 12 bytes from the operating
/// system; it may fail.
#[verifier::external_body]
pub(crate) fn random_nonce() -> (r: Result<[u8; 12], ring::error::Unspecified>) {
    let mut nonce = [0u8; 12];
    ring::rand::SecureRandom::fill(&ring::rand::SystemRandom::new(), &mut nonce).map(|_| nonce)
}

/// Relies on ring's LessSafeKey::seal_in_place_append_tag with CHACHA20_POLY1305
/// and no associated data. A 32-byte key is always accepted, and sealing fails
/// only on an input longer than the RFC allows. The ciphertext is as long as the
/// input, followed by a 16-byte tag, and opens to the input again.
#[verifier::external_body]
fn aead_seal(key: &[u8; 32], nonce: &[u8; 12], plain: &[u8]) -> (r: Result<Vec<u8>, ring::error::Unspecified>)
    ensures
        plain@.len() <= MAX_SEALED_INPUT ==> r is Ok,
        r matches Ok(c) ==> c@ == sealed(key@, nonce@, plain@) && c@.len() == plain@.len() + TAG_LEN
            && opened(key@, nonce@, c@) == Some(plain@),
{
    let k = LessSafeKey::new(UnboundKey::new(&CHACHA20_POLY1305, key)?);
    let mut buf = plain.to_vec();
    k.seal_in_place_append_tag(Nonce::assume_unique_for_key(*nonce), Aad::empty(), &mut buf)?;
    Ok(buf)
}

/// Relies on ring's LessSafeKey::open_in_place with CHACHA20_POLY1305 and no
/// associated data: the plaintext where the tag authenticates, else an error.
#[verifier::external_body]
fn aead_open(key: &[u8; 32], nonce: &[u8; 12], data: &[u8]) -> (r: Result<Vec<u8>, ring::error::Unspecified>)
    ensures
        match r {
            Ok(p) => opened(key@, nonce@, data@) == Some(p@),
            Err(_) => opened(key@, nonce@, data@) is None,
        },
{
    let k = LessSafeKey::new(UnboundKey::new(&CHACHA20_POLY1305, key)?);
    let mut buf = data.to_vec();
    let plain = k.open_in_place(Nonce::assume_unique_for_key(*nonce), Aad::empty(), &mut buf)?;
    Ok(plain.to_vec())
}

proof fn lemma_hex_round_trip(b: Seq<u8>)
    ensures
        hex_decoded(hex_lower(b)) == Some(b),
{
    let s = hex_lower(b);
    assert forall|i: int| 0 <= i < s.len() implies hex_value(#[trigger] s[i]) >= 0 by {
        let v = if i % 2 == 0 { b[i / 2] / 16 } else { b[i / 2] % 16 };
        assert(0 <= v < 16);
    }
    let d = hex_decoded(s)->Some_0;
    assert forall|i: int| 0 <= i < b.len() implies d[i] == b[i] by {
        assert((2 * i) / 2 == i && (2 * i) % 2 == 0);
        assert((2 * i + 1) / 2 == i && (2 * i + 1) % 2 == 1);
        let hi = b[i] / 16;
        let lo = b[i] % 16;
        assert(hex_value(hex_char(hi as int)) == hi);
        assert(hex_value(hex_char(lo as int)) == lo);
        assert(hi * 16 + lo == b[i]);
    }
    assert(d =~= b);
}

/// The bytes of `src` from `from` up to `to`.
fn copy_range(src: &[u8], from: usize, to: usize) -> (r: Vec<u8>)
    requires
        from <= to <= src@.len(),
    ensures
        r@ == src@.subrange(from as int, to as int),
{
    let mut out: Vec<u8> = Vec::new();
    let mut i = from;
    while i < to
        invariant
            from <= i <= to <= src@.len(),
            out@ == src@.subrange(from as int, i as int),
        decreases to - i,
    {
        out.push(src[i]);
        i = i + 1;
        assert(out@ =~= src@.subrange(from as int, i as int));
    }
    out
}

/// The process-wide token key, derived from the operator's secret and salt.
pub fn get_token_key(secret: &[u8], salt: &[u8]) -> (r: [u8; 32])
    requires
        salt@.len() < 0x1000_0000_0000_0000,
        secret@.len() < 0x1000_0000_0000_0000,
    ensures
        r@ == pbkdf2_sha256(KEY_ITERATIONS, salt@, secret@),
{
    pbkdf2_derive(KEY_ITERATIONS, salt, secret)
}

/// The token for `max_id` under a given nonce. Decoding it gives `max_id` back.
pub fn seal_token(key: &[u8; 32], nonce: &[u8; 12], max_id: i64) -> (r: String)
    ensures
        r@ == token_for(key@, nonce@, max_id),
        r@.len() == 2 * (decimal_of(max_id as int).len() + TAG_LEN + NONCE_LEN),
        token_value(key@, r@) == Ok::<i64, TokenError>(max_id),
{
    let plain = decimal_bytes(max_id);
    proof {
        lemma_parse_decimal(max_id);
    }
    assert(plain@.len() <= 21) by {
        lemma_decimal_len(max_id);
    }
    match aead_seal(key, nonce, plain.as_slice()) {
        Ok(mut data) => {
            let ghost c = data@;
            let mut i: usize = 0;
            while i < NONCE_LEN
                invariant
                    0 <= i <= NONCE_LEN,
                    data@ == c + nonce@.subrange(0, i as int),
                decreases NONCE_LEN - i,
            {
                data.push(nonce[i]);
                i = i + 1;
                assert(data@ =~= c + nonce@.subrange(0, i as int));
            }
            assert(data@ =~= c + nonce@);
            let token = hex_encode(data.as_slice());
            proof {
                lemma_hex_round_trip(data@);
                let split = data@.len() - NONCE_LEN;
                assert(data@.subrange(split, data@.len() as int) =~= nonce@);
                assert(data@.subrange(0, split) =~= c);
            }
            token
        },
        Err(_) => {
            // aead_seal accepts any input of this length
            proof {
                assert(false);
            }
            String::new()
        },
    }
}

proof fn lemma_digits_len_below(n: nat, k: nat)
    requires
        n < pow10(k),
    ensures
        crate::decimal::digits_of(n).len() <= k + 1,
    decreases n,
{
    if n >= 10 {
        assert(k > 0) by {
            if k == 0 {
                assert(pow10(0) == 1);
            }
        }
        assert(n / 10 < pow10((k - 1) as nat)) by {
            assert(pow10(k) == 10 * pow10((k - 1) as nat));
        }
        lemma_digits_len_below(n / 10, (k - 1) as nat);
    }
}

spec fn pow10(k: nat) -> nat
    decreases k,
{
    if k == 0 {
        1
    } else {
        10 * pow10((k - 1) as nat)
    }
}

proof fn lemma_decimal_len(n: i64)
    ensures
        decimal_of(n as int).len() <= 21,
{
    reveal_with_fuel(pow10, 20);
    assert(pow10(19) == 10_000_000_000_000_000_000nat);
    let m: int = if n < 0 { -(n as int) } else { n as int };
    lemma_digits_len_below(m as nat, 19);
}

/// A fresh token for `max_id`, sealed under a random nonce; none only where the
/// operating system gives no random bytes.
pub fn max_id_to_token(key: &[u8; 32], max_id: i64) -> (r: Option<String>)
    ensures
        r matches Some(t) ==> token_value(key@, t@) == Ok::<i64, TokenError>(max_id)
            && t@.len() == 2 * (decimal_of(max_id as int).len() + TAG_LEN + NONCE_LEN)
            && exists|nonce: Seq<u8>| nonce.len() == NONCE_LEN && t@ == token_for(key@, nonce, max_id),
{
    match random_nonce() {
        Ok(nonce) => Some(seal_token(key, &nonce, max_id)),
        Err(_) => None,
    }
}

/// The sequence id inside a token, or why the token was refused.
pub fn token_to_max_id(key: &[u8; 32], token: &str) -> (r: Result<i64, TokenError>)
    ensures
        r == token_value(key@, token@),
{
    let data = match hex_decode(token) {
        Ok(d) => d,
        Err(_) => {
            return Err(TokenError::Malformed);
        },
    };
    let len = data.len();
    if len <= NONCE_LEN {
        return Err(TokenError::Malformed);
    }
    let split = len - NONCE_LEN;
    let body = copy_range(data.as_slice(), 0, split);
    let mut nonce = [0u8; 12];
    let mut i: usize = 0;
    while i < NONCE_LEN
        invariant
            0 <= i <= NONCE_LEN,
            split + NONCE_LEN == len,
            len == data@.len(),
            forall|k: int| 0 <= k < i ==> nonce@[k] == data@[split + k],
        decreases NONCE_LEN - i,
    {
        nonce[i] = data[split + i];
        i = i + 1;
    }
    assert(nonce@ =~= data@.subrange(split as int, len as int));
    match aead_open(key, &nonce, body.as_slice()) {
        Ok(plain) => match parse_i64(plain.as_slice()) {
            Some(n) => Ok(n),
            None => Err(TokenError::Malformed),
        },
        Err(_) => Err(TokenError::AuthenticationFailed),
    }
}

} // verus!
