use credvault::crypto::{
    decrypt_password, derive_key, encrypt_password, encrypt_then_decrypt, generate_salt,
};
use credvault::VaultError;

fn test_key() -> credvault::crypto::MasterKey {
    let salt = vec![7u8; 16];
    derive_key("master passphrase", &salt).unwrap()
}

#[test]
fn roundtrip_simple() {
    let key = test_key();
    let blob = encrypt_password("p@ss", &key).unwrap();
    assert_eq!(decrypt_password(&blob, &key).unwrap(), "p@ss");
}

#[test]
fn roundtrip_empty_password() {
    let key = test_key();
    let blob = encrypt_password("", &key).unwrap();
    assert_eq!(decrypt_password(&blob, &key).unwrap(), "");
}

#[test]
fn roundtrip_unicode_password() {
    let key = test_key();
    let blob = encrypt_password("p\u{e4}ssw\u{f6}rd \u{2713} \u{1f511}", &key).unwrap();
    assert_eq!(
        decrypt_password(&blob, &key).unwrap(),
        "p\u{e4}ssw\u{f6}rd \u{2713} \u{1f511}"
    );
}

#[test]
fn roundtrip_long_password() {
    let key = test_key();
    let long: String = "x7!".repeat(400);
    let blob = encrypt_password(&long, &key).unwrap();
    assert_eq!(decrypt_password(&blob, &key).unwrap(), long);
}

#[test]
fn roundtrip_witness_function() {
    let key = test_key();
    assert_eq!(encrypt_then_decrypt("some secret", &key).unwrap(), "some secret");
}

#[test]
fn tamper_any_bit_fails() {
    let key = test_key();
    let blob = encrypt_password("secret", &key).unwrap();
    let bytes = base64::Engine::decode(
        &base64::engine::general_purpose::STANDARD_NO_PAD,
        blob.as_str(),
    )
    .unwrap();
    // 12-byte nonce + 6-byte ciphertext + 16-byte tag
    assert_eq!(bytes.len(), 12 + 6 + 16);
    for i in 0..bytes.len() {
        for bit in 0..8 {
            let mut tampered = bytes.clone();
            tampered[i] ^= 1u8 << bit;
            let reencoded = base64::Engine::encode(
                &base64::engine::general_purpose::STANDARD_NO_PAD,
                &tampered,
            );
            assert_eq!(
                decrypt_password(&reencoded, &key),
                Err(VaultError::DecryptError),
                "bit {} of byte {} went undetected",
                bit,
                i
            );
        }
    }
}

#[test]
fn malformed_blobs_fail() {
    let key = test_key();
    assert_eq!(decrypt_password("", &key), Err(VaultError::DecryptError));
    assert_eq!(decrypt_password("!!!not base64!!!", &key), Err(VaultError::DecryptError));
    // decodes, but shorter than a nonce
    assert_eq!(decrypt_password("AAAA", &key), Err(VaultError::DecryptError));
    // padded base64 is not the canonical unpadded form
    let key2 = test_key();
    let blob = encrypt_password("x", &key2).unwrap();
    let mut padded = blob.clone();
    padded.push('=');
    assert_eq!(decrypt_password(&padded, &key), Err(VaultError::DecryptError));
}

#[test]
fn nonce_freshness_gives_distinct_blobs() {
    let key = test_key();
    let b1 = encrypt_password("same plaintext", &key).unwrap();
    let b2 = encrypt_password("same plaintext", &key).unwrap();
    assert_ne!(b1, b2);
    // both still decrypt to the same plaintext
    assert_eq!(decrypt_password(&b1, &key).unwrap(), "same plaintext");
    assert_eq!(decrypt_password(&b2, &key).unwrap(), "same plaintext");
}

#[test]
fn derivation_is_deterministic_in_passphrase_and_salt() {
    let salt = vec![3u8; 16];
    let k1 = derive_key("pass", &salt).unwrap();
    let k2 = derive_key("pass", &salt).unwrap();
    let blob = encrypt_password("data", &k1).unwrap();
    assert_eq!(decrypt_password(&blob, &k2).unwrap(), "data");
}

#[test]
fn wrong_key_fails() {
    let salt = vec![3u8; 16];
    let k1 = derive_key("pass", &salt).unwrap();
    let blob = encrypt_password("data", &k1).unwrap();
    let other_salt = vec![4u8; 16];
    let k_other_salt = derive_key("pass", &other_salt).unwrap();
    assert_eq!(decrypt_password(&blob, &k_other_salt), Err(VaultError::DecryptError));
    let k_other_pass = derive_key("wrong", &salt).unwrap();
    assert_eq!(decrypt_password(&blob, &k_other_pass), Err(VaultError::DecryptError));
}

#[test]
fn generated_salts_have_sixteen_bytes_and_vary() {
    let s1 = generate_salt();
    let s2 = generate_salt();
    assert_eq!(s1.len(), 16);
    assert_eq!(s2.len(), 16);
    assert_ne!(s1, s2);
}
