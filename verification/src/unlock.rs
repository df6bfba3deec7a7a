//! The unlock gate's check: the stored master-password digest against the
//! digest of what was typed.
use vstd::prelude::*;
use vstd::string::*;

verus! {

/// The lower-case hex SHA-256 digest `sha256::digest` computes for a string.
/// A function of the input alone.
pub uninterp spec fn sha256_hex_of(s: Seq<char>) -> Seq<char>;

/// Relies on `sha256::digest`: the digest depends on the input characters
/// alone, and is the 64-character hex form of a 32-byte hash.
#[verifier::external_body]
fn sha256_hex(s: &str) -> (r: String)
    ensures
        r@ == sha256_hex_of(s@),
        r@.len() == 64,
{
    sha256::digest(s)
}

/// Whether the entered master password matches the stored digest: its
/// SHA-256 hex digest equals the stored string exactly.
pub fn check_master_password(entered: &str, stored_digest: &str) -> (r: bool)
    ensures
        r == (sha256_hex_of(entered@) == stored_digest@),
{
    let digest = sha256_hex(entered);
    let stored = String::from_str(stored_digest);
    digest == stored
}

} // verus!
