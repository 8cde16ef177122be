use sfrs::decimal::{decimal_bytes, parse_i64};
use sfrs::sync_tokens::{get_token_key, max_id_to_token, seal_token, token_to_max_id, TokenError};

fn test_key() -> [u8; 32] {
    get_token_key(b"test-secret", b"test-salt")
}

#[test]
fn sync_token_enc_dec_1() {
    let key = test_key();
    let token = max_id_to_token(&key, 114514).unwrap();
    let id = token_to_max_id(&key, &token).unwrap();
    assert_eq!(id, 114514);
}

#[test]
fn sync_token_enc_dec_2() {
    let key = test_key();
    let token = max_id_to_token(&key, 1919810).unwrap();
    let id = token_to_max_id(&key, &token).unwrap();
    assert_eq!(id, 1919810);
}

#[test]
fn token_round_trip_extremes() {
    let key = test_key();
    for n in [0i64, 1, -1, 42, i64::MAX, i64::MIN] {
        let token = max_id_to_token(&key, n).unwrap();
        assert_eq!(token_to_max_id(&key, &token), Ok(n));
    }
}

#[test]
fn encoding_is_not_deterministic() {
    let key = test_key();
    let a = max_id_to_token(&key, 7).unwrap();
    let b = max_id_to_token(&key, 7).unwrap();
    assert_ne!(a, b);
    assert_eq!(token_to_max_id(&key, &a), Ok(7));
    assert_eq!(token_to_max_id(&key, &b), Ok(7));
}

#[test]
fn token_layout_is_hex_of_ciphertext_tag_and_nonce() {
    let key = test_key();
    let token = max_id_to_token(&key, 12345).unwrap();
    // five digits, a 16-byte tag and a 12-byte nonce, two hex digits each
    assert_eq!(token.len(), 2 * (5 + 16 + 12));
    assert!(token.chars().all(|c| c.is_ascii_digit() || ('a'..='f').contains(&c)));
}

#[test]
fn sealing_under_a_fixed_nonce_is_deterministic() {
    let key = test_key();
    let nonce = [3u8; 12];
    let a = seal_token(&key, &nonce, 99);
    let b = seal_token(&key, &nonce, 99);
    assert_eq!(a, b);
    assert!(a.ends_with(&"03".repeat(12)));
    assert_eq!(token_to_max_id(&key, &a), Ok(99));
    assert_ne!(seal_token(&key, &nonce, 98), a);
}

#[test]
fn bit_flipped_token_fails_authentication() {
    let key = test_key();
    let token = max_id_to_token(&key, 5).unwrap();
    let mut bytes = hex::decode(&token).unwrap();
    for i in 0..bytes.len() {
        bytes[i] ^= 0x01;
        let forged = hex::encode(&bytes);
        assert_eq!(token_to_max_id(&key, &forged), Err(TokenError::AuthenticationFailed));
        bytes[i] ^= 0x01;
    }
}

#[test]
fn token_under_another_key_fails_authentication() {
    let token = max_id_to_token(&test_key(), 5).unwrap();
    let other = get_token_key(b"test-secret", b"other-salt");
    assert_eq!(token_to_max_id(&other, &token), Err(TokenError::AuthenticationFailed));
}

#[test]
fn malformed_tokens() {
    let key = test_key();
    assert_eq!(token_to_max_id(&key, ""), Err(TokenError::Malformed));
    assert_eq!(token_to_max_id(&key, "abc"), Err(TokenError::Malformed));
    assert_eq!(token_to_max_id(&key, "zz"), Err(TokenError::Malformed));
    assert_eq!(token_to_max_id(&key, "114514"), Err(TokenError::Malformed));
    // exactly a nonce and nothing else
    assert_eq!(token_to_max_id(&key, &"00".repeat(12)), Err(TokenError::Malformed));
    // long enough, but not sealed under the key
    assert_eq!(token_to_max_id(&key, &"00".repeat(40)), Err(TokenError::AuthenticationFailed));
}

#[test]
fn upper_case_hex_is_accepted() {
    let key = test_key();
    let token = max_id_to_token(&key, 31337).unwrap();
    assert_eq!(token_to_max_id(&key, &token.to_uppercase()), Ok(31337));
}

#[test]
fn key_depends_on_secret_and_salt() {
    let a = get_token_key(b"s", b"salt-one");
    assert_eq!(a, get_token_key(b"s", b"salt-one"));
    assert_ne!(a, get_token_key(b"s", b"salt-two"));
    assert_ne!(a, get_token_key(b"t", b"salt-one"));
    assert_ne!(a, [0u8; 32]);
}

#[test]
fn decimal_text() {
    assert_eq!(decimal_bytes(0), b"0".to_vec());
    assert_eq!(decimal_bytes(114514), b"114514".to_vec());
    assert_eq!(decimal_bytes(-123), b"-123".to_vec());
    assert_eq!(decimal_bytes(i64::MIN), b"-9223372036854775808".to_vec());
    assert_eq!(decimal_bytes(i64::MAX), b"9223372036854775807".to_vec());
}

#[test]
fn decimal_parsing_follows_from_str() {
    let cases: [&[u8]; 12] = [
        b"0", b"+5", b"-5", b"007", b"", b"-", b"+", b"1a", b"--1",
        b"9223372036854775807", b"9223372036854775808", b"-9223372036854775808",
    ];
    for s in cases {
        let expected = std::str::from_utf8(s).unwrap().parse::<i64>().ok();
        assert_eq!(parse_i64(s), expected, "{:?}", s);
    }
    assert_eq!(parse_i64(b"-9223372036854775809"), None);
    assert_eq!(parse_i64(b"99999999999999999999999999"), None);
}
