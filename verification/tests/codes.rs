use keycode::base32::encode;
use keycode::{Key, KEY_TTL_SECONDS};
use sha2::{Digest, Sha512};

#[test]
fn generated_secret_is_256_bytes() {
    let key = Key::generate();
    assert_eq!(key.as_bytes().len(), 256);
}

#[test]
fn generated_secrets_differ() {
    let a = Key::generate();
    let b = Key::generate();
    assert_ne!(a.as_bytes(), b.as_bytes());
}

#[test]
fn import_keeps_bytes() {
    let key = Key::import(vec![1, 2, 3, 4]);
    assert_eq!(key.as_bytes(), &[1, 2, 3, 4]);
}

#[test]
fn ttl_spans_the_window() {
    let key = Key::import(vec![7; 16]);
    assert_eq!(key.code(0).ttl(), 60);
    assert_eq!(key.code(1).ttl(), 59);
    assert_eq!(key.code(59).ttl(), 1);
    assert_eq!(key.code(60).ttl(), 60);
    assert_eq!(key.code(61).ttl(), 59);
    assert_eq!(key.code(119).ttl(), 1);
    assert_eq!(key.code(120).ttl(), 60);
}

#[test]
fn ttl_always_in_bounds() {
    let key = Key::import(vec![9; 8]);
    for iat in [0u64, 1, 30, 59, 60, 61, 3599, 3600, 123_456_789] {
        let ttl = key.code(iat).ttl();
        assert!(ttl >= 1 && ttl <= KEY_TTL_SECONDS, "ttl {ttl} at {iat}");
    }
}

#[test]
fn same_window_same_code() {
    let key = Key::import(vec![42; 32]);
    let a = key.code(120);
    let b = key.code(179);
    assert_eq!(a.text(), b.text());
}

#[test]
fn adjacent_windows_differ() {
    let key = Key::import(vec![42; 32]);
    let a = key.code(179);
    let b = key.code(180);
    assert_ne!(a.text(), b.text());
}

#[test]
fn code_text_is_8_alphabet_characters() {
    let alphabet = "0123456789ABCDEFGHJKMNPQRSTVWXYZ";
    let key = Key::import(vec![0xAA, 0xBB, 0xCC]);
    let text = key.code(12345).text();
    assert_eq!(text.len(), 8);
    for c in text.chars() {
        assert!(alphabet.contains(c));
    }
}

#[test]
fn code_matches_sha512_of_secret_and_window() {
    let secret = vec![5u8; 24];
    let iat: u64 = 98765;
    let window = iat / 60;
    let mut material = secret.clone();
    material.extend_from_slice(&window.to_be_bytes());
    let digest = Sha512::digest(&material);
    let expected = encode(&digest[..5]);

    let key = Key::import(secret);
    assert_eq!(key.code(iat).text(), expected);
}
