//! A local credential vault: per-domain username/password pairs, each password
//! encrypted under a key derived from a master passphrase, persisted as a
//! flat three-field record file.
use vstd::prelude::*;

pub mod crypto;
pub mod domain;
pub mod ops;
pub mod shell;
pub mod unlock;
pub mod store;
pub mod text;
pub mod vault;

verus! {

/// Every failure an operation of this library can report.
#[derive(Clone, Copy, Debug, PartialEq, Eq, Structural)]
pub enum VaultError {
    /// The domain input could not be normalized to a registrable root domain.
    InvalidFormat,
    /// An entry for the domain is already present.
    AlreadyExists,
    /// No entry for the domain is present.
    NotFound,
    /// The reserved key `"domain"` (case-insensitive) may not be targeted.
    ReservedKey,
    /// The blob is malformed, was tampered with, or the key is wrong.
    DecryptError,
    /// The password-hashing backend refused the derivation.
    DerivationError,
    /// The AEAD backend refused to encrypt.
    EncryptError,
    /// A requested generated-password length is zero or too large.
    InvalidLength,
}

} // verus!
