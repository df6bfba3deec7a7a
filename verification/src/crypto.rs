//! Key derivation and authenticated encryption of a single secret.
//!
//! A secret is encrypted under a 32-byte key with AES-256-GCM and a fresh
//! random 12-byte nonce; the blob stored on disk is the unpadded standard
//! base64 encoding of `nonce || ciphertext || tag`.
use vstd::prelude::*;
use vstd::slice::{slice_subrange, slice_to_vec};
use vstd::string::*;
use vstd::utf8::*;

use aes_gcm::aead::Aead;
use aes_gcm::KeyInit;

use crate::VaultError;

verus! {

broadcast use vstd::utf8::encode_utf8_valid_utf8;

/// The bytes that AES-256-GCM produces for a given key, nonce and plaintext
/// (ciphertext followed by the 16-byte tag). A function of its arguments alone.
pub uninterp spec fn aes_gcm_seal(key: Seq<u8>, nonce: Seq<u8>, plain: Seq<u8>) -> Seq<u8>;

/// The unpadded standard base64 encoding of a byte sequence.
pub uninterp spec fn b64_of(bytes: Seq<u8>) -> Seq<char>;

/// The 32 bytes Argon2id (default parameters) derives from a passphrase and salt.
pub uninterp spec fn argon2_key_of(pass: Seq<u8>, salt: Seq<u8>) -> Seq<u8>;

/// A character of the standard base64 alphabet.
pub open spec fn base64_char(c: char) -> bool {
    ('A' <= c && c <= 'Z') || ('a' <= c && c <= 'z') || ('0' <= c && c <= '9') || c == '+' || c
        == '/'
}

/// `blob` is a well-formed encryption of the password `p` under `key`:
/// base64 of some 12-byte nonce followed by the sealed UTF-8 bytes of `p`.
pub open spec fn is_encryption_of(blob: Seq<char>, key: Seq<u8>, p: Seq<char>) -> bool {
    exists|n: Seq<u8>| n.len() == 12 && blob == b64_of(n + aes_gcm_seal(key, n, encode_utf8(p)))
}

/// The plaintext is within AES-GCM's message bound of 2^36 - 32 bytes; the
/// cipher seals exactly the plaintexts of at most this length.
pub open spec fn seal_fits(plain: Seq<u8>) -> bool {
    plain.len() <= 0xF_FFFF_FFE0
}

/// Each character encodes to at most four UTF-8 bytes.
pub proof fn lemma_encode_utf8_len(s: Seq<char>)
    ensures
        encode_utf8(s).len() <= 4 * s.len(),
    decreases s.len(),
{
    if s.len() > 0 {
        lemma_encode_utf8_len(s.drop_first());
        assert(encode_scalar(s[0] as u32).len() <= 4);
    }
}

/// The 32-byte symmetric key of an unlocked session. Never persisted.
pub struct MasterKey {
    bytes: Vec<u8>,
}

impl View for MasterKey {
    type V = Seq<u8>;

    closed spec fn view(&self) -> Seq<u8> {
        self.bytes@
    }
}

impl MasterKey {
    pub open spec fn wf(&self) -> bool {
        self@.len() == 32
    }
}

/// Relies on `rand::random`: 16 fresh bytes from a cryptographically secure
/// generator. Nothing is promised of their values.
#[verifier::external_body]
pub fn generate_salt() -> (r: Vec<u8>)
    ensures
        r@.len() == 16,
{
    rand::random::<[u8; 16]>().to_vec()
}

/// Relies on `rand::random`: 12 fresh bytes from a cryptographically secure
/// generator. Nothing is promised of their values.
#[verifier::external_body]
fn fresh_nonce() -> (r: Vec<u8>)
    ensures
        r@.len() == 12,
{
    rand::random::<[u8; 12]>().to_vec()
}

/// Relies on `argon2::Argon2::hash_password_into` with default parameters:
/// the output is a function of the password and salt alone, and has exactly
/// the requested 32 bytes. It refuses only on bad parameter sizes or
/// allocation failure.
#[verifier::external_body]
fn argon2_derive(pass: &[u8], salt: &Vec<u8>) -> (r: Option<Vec<u8>>)
    requires
        salt@.len() == 16,
    ensures
        r matches Some(k) ==> k@ == argon2_key_of(pass@, salt@) && k@.len() == 32,
{
    let mut out = [0u8; 32];
    match argon2::Argon2::default().hash_password_into(pass, salt.as_slice(), &mut out) {
        Ok(()) => Some(out.to_vec()),
        Err(_) => None,
    }
}

/// Relies on `aes_gcm::Aes256Gcm` (`aead::Aead::encrypt`): the result is the
/// ciphertext followed by the 16-byte tag, a function of key, nonce and
/// plaintext alone. With a 32-byte key and 12-byte nonce its only error is a
/// plaintext longer than the message bound of 2^36 - 32 bytes.
#[verifier::external_body]
fn aead_seal(key: &Vec<u8>, nonce: &Vec<u8>, plain: &[u8]) -> (r: Option<Vec<u8>>)
    requires
        key@.len() == 32,
        nonce@.len() == 12,
    ensures
        r matches Some(c) ==> c@ == aes_gcm_seal(key@, nonce@, plain@) && c@.len() == plain@.len()
            + 16,
        r is None ==> !seal_fits(plain@),
{
    let cipher = match aes_gcm::Aes256Gcm::new_from_slice(key.as_slice()) {
        Ok(c) => c,
        Err(_) => return None,
    };
    let nonce_arr = match aes_gcm::Nonce::<aes_gcm::aead::consts::U12>::try_from(nonce.as_slice()) {
        Ok(n) => n,
        Err(_) => return None,
    };
    cipher.encrypt(&nonce_arr, plain).ok()
}

/// Relies on `aes_gcm::Aes256Gcm` (`aead::Aead::decrypt`): it returns the
/// plaintext exactly when the ciphertext is what sealing that plaintext under
/// this key and nonce produces, and fails on any inauthentic input.
#[verifier::external_body]
fn aead_open(key: &Vec<u8>, nonce: &Vec<u8>, ct: &[u8]) -> (r: Option<Vec<u8>>)
    requires
        key@.len() == 32,
        nonce@.len() == 12,
    ensures
        r matches Some(p) ==> ct@ == aes_gcm_seal(key@, nonce@, p@),
        r is None ==> forall|p: Seq<u8>| ct@ != aes_gcm_seal(key@, nonce@, p),
        r matches Some(q) ==> forall|p: Seq<u8>| ct@ == aes_gcm_seal(key@, nonce@, p) ==> q@ == p,
{
    let cipher = match aes_gcm::Aes256Gcm::new_from_slice(key.as_slice()) {
        Ok(c) => c,
        Err(_) => return None,
    };
    let nonce_arr = match aes_gcm::Nonce::<aes_gcm::aead::consts::U12>::try_from(nonce.as_slice()) {
        Ok(n) => n,
        Err(_) => return None,
    };
    cipher.decrypt(&nonce_arr, ct).ok()
}

/// Relies on base64's `STANDARD_NO_PAD` engine: the unpadded standard-alphabet
/// encoding, over the 64 characters `A-Z a-z 0-9 + /`.
#[verifier::external_body]
fn b64_encode(bytes: &Vec<u8>) -> (r: String)
    ensures
        r@ == b64_of(bytes@),
        forall|i: int| 0 <= i < r@.len() ==> base64_char(#[trigger] r@[i]),
{
    base64::Engine::encode(&base64::engine::general_purpose::STANDARD_NO_PAD, bytes.as_slice())
}

/// Relies on base64's `STANDARD_NO_PAD` engine: decoding inverts encoding and
/// accepts exactly the canonical unpadded encodings (trailing bits and padding
/// are rejected).
#[verifier::external_body]
fn b64_decode(s: &str) -> (r: Option<Vec<u8>>)
    ensures
        r matches Some(d) ==> s@ == b64_of(d@),
        r is None ==> forall|b: Seq<u8>| s@ != b64_of(b),
        r matches Some(d) ==> forall|b: Seq<u8>| s@ == b64_of(b) ==> d@ == b,
{
    base64::Engine::decode(&base64::engine::general_purpose::STANDARD_NO_PAD, s).ok()
}

/// Relies on `String::from_utf8`: succeeds exactly on valid UTF-8, returning
/// the string those bytes encode.
#[verifier::external_body]
fn bytes_to_string(bytes: Vec<u8>) -> (r: Option<String>)
    ensures
        r matches Some(s) ==> bytes@ == encode_utf8(s@),
        valid_utf8(bytes@) ==> r is Some,
{
    String::from_utf8(bytes).ok()
}

/// Derive the session key from the master passphrase and a 16-byte salt.
///
/// The same `(passphrase, salt)` pair always yields the same key, so a salt
/// persisted beside the store lets a later session reproduce the key.
pub fn derive_key(master_password: &str, salt: &Vec<u8>) -> (r: Result<MasterKey, VaultError>)
    requires
        salt@.len() == 16,
    ensures
        r matches Ok(k) ==> k.wf() && k@ == argon2_key_of(encode_utf8(master_password@), salt@),
        r matches Err(e) ==> e == VaultError::DerivationError,
{
    match argon2_derive(master_password.as_bytes(), salt) {
        Some(bytes) => Ok(MasterKey { bytes }),
        None => Err(VaultError::DerivationError),
    }
}

/// Encrypt a password under the session key: a fresh random 12-byte nonce,
/// AES-256-GCM over the UTF-8 bytes, and base64 over `nonce || ciphertext || tag`.
///
/// Succeeds on every password within the cipher's message bound; a password
/// beyond it is the only failure.
pub fn encrypt_password(password: &str, master_key: &MasterKey) -> (r: Result<String, VaultError>)
    requires
        master_key.wf(),
    ensures
        r matches Ok(b) ==> is_encryption_of(b@, master_key@, password@) && forall|i: int|
            0 <= i < b@.len() ==> base64_char(#[trigger] b@[i]),
        r matches Err(e) ==> e == VaultError::EncryptError && !seal_fits(encode_utf8(password@)),
{
    let nonce = fresh_nonce();
    match aead_seal(&master_key.bytes, &nonce, password.as_bytes()) {
        Some(ct) => {
            let ghost nonce_view = nonce@;
            let mut combined = nonce;
            let mut ct = ct;
            combined.append(&mut ct);
            let blob = b64_encode(&combined);
            proof {
                assert(combined@ == nonce_view + aes_gcm_seal(
                    master_key@,
                    nonce_view,
                    encode_utf8(password@),
                ));
            }
            Ok(blob)
        },
        None => Err(VaultError::EncryptError),
    }
}

/// Decrypt a blob produced by `encrypt_password` under the same key.
///
/// Succeeds exactly on well-formed encryptions under this key, returning the
/// password they seal; every malformed, truncated, tampered or wrong-key blob
/// yields `DecryptError`, never partial plaintext.
pub fn decrypt_password(encrypted: &str, master_key: &MasterKey) -> (r: Result<String, VaultError>)
    requires
        master_key.wf(),
    ensures
        r matches Ok(p) ==> is_encryption_of(encrypted@, master_key@, p@),
        forall|p: Seq<char>|
            is_encryption_of(encrypted@, master_key@, p) ==> (r matches Ok(q) && q@ == p),
        r matches Err(e) ==> e == VaultError::DecryptError,
{
    let decoded = match b64_decode(encrypted) {
        Some(d) => d,
        None => {
            proof {
                assert forall|p: Seq<char>| !is_encryption_of(encrypted@, master_key@, p) by {
                    if is_encryption_of(encrypted@, master_key@, p) {
                        let n = choose|n: Seq<u8>|
                            n.len() == 12 && encrypted@ == b64_of(
                                n + aes_gcm_seal(master_key@, n, encode_utf8(p)),
                            );
                        assert(false);
                    }
                }
            }
            return Err(VaultError::DecryptError);
        },
    };
    let ghost dec = decoded@;
    if decoded.len() < 12 {
        proof {
            assert forall|p: Seq<char>| !is_encryption_of(encrypted@, master_key@, p) by {
                if is_encryption_of(encrypted@, master_key@, p) {
                    let n = choose|n: Seq<u8>|
                        n.len() == 12 && encrypted@ == b64_of(
                            n + aes_gcm_seal(master_key@, n, encode_utf8(p)),
                        );
                    assert(dec == n + aes_gcm_seal(master_key@, n, encode_utf8(p)));
                    assert(false);
                }
            }
        }
        return Err(VaultError::DecryptError);
    }
    let nonce = slice_to_vec(slice_subrange(decoded.as_slice(), 0, 12));
    let ct = slice_subrange(decoded.as_slice(), 12, decoded.len());
    proof {
        assert(nonce@ == dec.subrange(0, 12));
        assert(ct@ == dec.subrange(12, dec.len() as int));
    }
    let pt = match aead_open(&master_key.bytes, &nonce, ct) {
        Some(p) => p,
        None => {
            proof {
                assert forall|p: Seq<char>| !is_encryption_of(encrypted@, master_key@, p) by {
                    if is_encryption_of(encrypted@, master_key@, p) {
                        let n = choose|n: Seq<u8>|
                            n.len() == 12 && encrypted@ == b64_of(
                                n + aes_gcm_seal(master_key@, n, encode_utf8(p)),
                            );
                        let sealed = aes_gcm_seal(master_key@, n, encode_utf8(p));
                        assert(dec == n + sealed);
                        assert(nonce@ =~= n);
                        assert(ct@ =~= sealed);
                        assert(false);
                    }
                }
            }
            return Err(VaultError::DecryptError);
        },
    };
    match bytes_to_string(pt) {
        Some(s) => {
            proof {
                assert(is_encryption_of(encrypted@, master_key@, s@)) by {
                    let n = dec.subrange(0, 12);
                    assert(dec =~= n + dec.subrange(12, dec.len() as int));
                }
                assert forall|p: Seq<char>|
                    is_encryption_of(encrypted@, master_key@, p) implies s@ == p by {
                    let n = choose|n: Seq<u8>|
                        n.len() == 12 && encrypted@ == b64_of(
                            n + aes_gcm_seal(master_key@, n, encode_utf8(p)),
                        );
                    let sealed = aes_gcm_seal(master_key@, n, encode_utf8(p));
                    assert(dec == n + sealed);
                    assert(nonce@ =~= n);
                    assert(ct@ =~= sealed);
                    // the forall clause of `aead_open` pins the plaintext bytes
                    assert(encode_utf8(s@) == encode_utf8(p));
                    encode_utf8_decode_utf8(s@);
                    encode_utf8_decode_utf8(p);
                }
            }
            Ok(s)
        },
        None => {
            proof {
                assert forall|p: Seq<char>| !is_encryption_of(encrypted@, master_key@, p) by {
                    if is_encryption_of(encrypted@, master_key@, p) {
                        let n = choose|n: Seq<u8>|
                            n.len() == 12 && encrypted@ == b64_of(
                                n + aes_gcm_seal(master_key@, n, encode_utf8(p)),
                            );
                        let sealed = aes_gcm_seal(master_key@, n, encode_utf8(p));
                        assert(dec == n + sealed);
                        assert(nonce@ =~= n);
                        assert(ct@ =~= sealed);
                        // `aead_open` returned the sealed plaintext's bytes
                        assert(pt@ == encode_utf8(p));
                        assert(false);
                    }
                }
            }
            Err(VaultError::DecryptError)
        },
    }
}

/// Round trip: decrypting what `encrypt_password` produced, under the same
/// key, always returns the original password; on every password within the
/// cipher's message bound this succeeds, and a decryption failure is
/// impossible.
pub fn encrypt_then_decrypt(password: &str, master_key: &MasterKey) -> (r: Result<
    String,
    VaultError,
>)
    requires
        master_key.wf(),
    ensures
        r matches Ok(p) ==> p@ == password@,
        r matches Err(e) ==> e == VaultError::EncryptError && !seal_fits(encode_utf8(password@)),
{
    match encrypt_password(password, master_key) {
        Ok(blob) => decrypt_password(blob.as_str(), master_key),
        Err(e) => Err(e),
    }
}

} // verus!
