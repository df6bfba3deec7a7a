//! The vault operations: create, delete, update, login, list, generate and
//! help, over an in-memory vault.
//!
//! Persistence is the caller's step: after a successful mutating operation
//! the caller saves the serialized vault, and on a failed save undoes the
//! mutation with the returned undo data (`Vault::remove`, `Vault::set_value`,
//! `Vault::restore_at`); the rollback lemmas below state that this restores
//! the previous vault exactly.
use vstd::prelude::*;
use vstd::string::*;

use vstd::utf8::encode_utf8;

use crate::crypto::{
    base64_char, decrypt_password, encrypt_password, is_encryption_of, lemma_encode_utf8_len,
    seal_fits, MasterKey,
};
use crate::domain::{parse_domain, spec_normalize};
use crate::store::{lemma_spec_insert_wf, spec_insert};
use crate::text::field_ok;
use crate::vault::{
    entry_ok, has_key, idx_of, lemma_idx_of, lemma_remove_wf, lemma_set_wf, vault_wf,
    Rec, Vault,
};
use crate::VaultError;

verus! {

/// The longest password `generate` will produce.
pub const MAX_GENERATED_LEN: usize = 256;

/// A successful `create`: the normalized domain, the stored blob, and the
/// confirmation message.
#[derive(Debug)]
pub struct Created {
    pub domain: String,
    pub secret: String,
    pub message: String,
}

/// A successful `update`: the replaced entry's previous value is kept so a
/// failed persist can be rolled back with `Vault::set_value`.
#[derive(Debug)]
pub struct Updated {
    pub domain: String,
    pub secret: String,
    pub prev_username: String,
    pub prev_secret: String,
    pub message: String,
}

/// A successful `delete`: the removed entry and its position are kept so a
/// failed persist can be rolled back with `Vault::restore_at`.
#[derive(Debug)]
pub struct Deleted {
    pub domain: String,
    pub index: usize,
    pub username: String,
    pub secret: String,
    pub message: String,
}

/// A successful `login`: the stored username and the decrypted password.
#[derive(Debug)]
pub struct LoginOk {
    pub domain: String,
    pub username: String,
    pub password: String,
    pub message: String,
}

/// A successful `generate`: as `create`, plus the generated password.
#[derive(Debug)]
pub struct Generated {
    pub domain: String,
    pub password: String,
    pub secret: String,
    pub message: String,
}

pub open spec fn created_msg(d: Seq<char>) -> Seq<char> {
    "Account created successfully for "@ + d
}

pub open spec fn deleted_msg(d: Seq<char>) -> Seq<char> {
    "Account for "@ + d + " deleted successfully"@
}

pub open spec fn updated_msg(d: Seq<char>) -> Seq<char> {
    "Account updated successfully for "@ + d
}

pub open spec fn login_msg(d: Seq<char>) -> Seq<char> {
    "Credentials for "@ + d + " copied to clipboard"@
}

pub open spec fn generated_msg(d: Seq<char>, pw: Seq<char>) -> Seq<char> {
    "Account created successfully for "@ + d + " with generated password: "@ + pw
}

fn msg2(a: &str, b: &str) -> (r: String)
    ensures
        r@ == a@ + b@,
{
    let mut s = String::from_str(a);
    s.append(b);
    s
}

fn msg3(a: &str, b: &str, c: &str) -> (r: String)
    ensures
        r@ == a@ + b@ + c@,
{
    let mut s = String::from_str(a);
    s.append(b);
    s.append(c);
    s
}

fn msg4(a: &str, b: &str, c: &str, d: &str) -> (r: String)
    ensures
        r@ == a@ + b@ + c@ + d@,
{
    let mut s = String::from_str(a);
    s.append(b);
    s.append(c);
    s.append(d);
    s
}

/// The input normalizes to a domain already present in `s`.
pub open spec fn norm_present(input: Seq<char>, s: Seq<Rec>) -> bool {
    spec_normalize(input) matches Some(d) && has_key(s, d)
}

/// The input normalizes to a domain absent from `s`.
pub open spec fn norm_absent(input: Seq<char>, s: Seq<Rec>) -> bool {
    spec_normalize(input) matches Some(d) && !has_key(s, d)
}

/// The input names a stored entry whose blob is no well-formed encryption
/// under this key (tampered, corrupt, or sealed under another key).
pub open spec fn norm_undecryptable(input: Seq<char>, s: Seq<Rec>, key: Seq<u8>) -> bool {
    spec_normalize(input) matches Some(d) && ({
        let i = idx_of(s, d);
        i >= 0 && forall|p: Seq<char>| !is_encryption_of(s[i].2, key, p)
    })
}

/// The reserved key: equal to `domain`, compared case-insensitively.
pub open spec fn reserved_key(d: Seq<char>) -> bool {
    d.len() == 6 && (d[0] == 'd' || d[0] == 'D') && (d[1] == 'o' || d[1] == 'O') && (d[2] == 'm'
        || d[2] == 'M') && (d[3] == 'a' || d[3] == 'A') && (d[4] == 'i' || d[4] == 'I') && (d[5]
        == 'n' || d[5] == 'N')
}

fn is_reserved(d: &str) -> (r: bool)
    ensures
        r == reserved_key(d@),
{
    if d.unicode_len() != 6 {
        return false;
    }
    let c0 = d.get_char(0);
    let c1 = d.get_char(1);
    let c2 = d.get_char(2);
    let c3 = d.get_char(3);
    let c4 = d.get_char(4);
    let c5 = d.get_char(5);
    (c0 == 'd' || c0 == 'D') && (c1 == 'o' || c1 == 'O') && (c2 == 'm' || c2 == 'M') && (c3 == 'a'
        || c3 == 'A') && (c4 == 'i' || c4 == 'I') && (c5 == 'n' || c5 == 'N')
}

/// The position of a domain's entry in the vault, if any.
#[verifier::loop_isolation(false)]
fn vault_index_of(v: &Vault, domain: &String) -> (r: Option<usize>)
    ensures
        r matches Some(i) ==> idx_of(v@, domain@) == i,
        r is None ==> idx_of(v@, domain@) == -1,
{
    let items = v.entries();
    let mut i: usize = 0;
    while i < items.len()
        invariant
            i <= items@.len(),
            forall|j: int| 0 <= j < i ==> (#[trigger] v@[j]).0 != domain@,
        decreases items@.len() - i,
    {
        if items[i].0 == *domain {
            proof {
                lemma_idx_of(v@, domain@);
                let f = idx_of(v@, domain@);
                if f < i {
                    assert(v@[f].0 == domain@);
                    assert(false);
                }
                if f > i {
                    assert(v@[i as int].0 != domain@);
                    assert(false);
                }
            }
            return Some(i);
        }
        i = i + 1;
    }
    proof {
        lemma_idx_of(v@, domain@);
        if idx_of(v@, domain@) >= 0 {
            let f = idx_of(v@, domain@);
            assert(v@[f].0 == domain@);
            assert(false);
        }
    }
    None
}

/// Encrypt the password and add a new entry for the domain.
///
/// Succeeds exactly when the domain normalizes, is not yet present, and the
/// password is within the cipher's message bound; every failure leaves the
/// vault untouched. The new entry is appended at the back.
pub fn create(
    domain: &str,
    username: &str,
    password: &str,
    logins: &mut Vault,
    master_key: &MasterKey,
) -> (r: Result<Created, VaultError>)
    requires
        vault_wf(old(logins)@),
        master_key.wf(),
        field_ok(username@),
    ensures
        vault_wf(final (logins)@),
        match r {
            Ok(c) => {
                &&& spec_normalize(domain@) == Some(c.domain@)
                &&& !has_key(old(logins)@, c.domain@)
                &&& is_encryption_of(c.secret@, master_key@, password@)
                &&& final (logins)@ == old(logins)@.push((c.domain@, username@, c.secret@))
                &&& c.message@ == created_msg(c.domain@)
            },
            Err(e) => final (logins)@ == old(logins)@ && ((e == VaultError::InvalidFormat
                && spec_normalize(domain@) is None) || (e == VaultError::AlreadyExists
                && norm_present(domain@, old(logins)@)) || (e == VaultError::EncryptError
                && norm_absent(domain@, old(logins)@) && !seal_fits(encode_utf8(password@)))),
        },
{
    let parsed = match parse_domain(domain) {
        Some(d) => d,
        None => {
            return Err(VaultError::InvalidFormat);
        },
    };
    if logins.contains(&parsed) {
        return Err(VaultError::AlreadyExists);
    }
    let secret = match encrypt_password(password, master_key) {
        Ok(s) => s,
        Err(e) => {
            return Err(e);
        },
    };
    let message = msg2("Account created successfully for ", parsed.as_str());
    let ghost s = logins@;
    let ghost e = (parsed@, username@, secret@);
    logins.insert(parsed.clone(), String::from_str(username), secret.clone());
    proof {
        assert(field_ok(secret@)) by {
            assert forall|i: int| 0 <= i < secret@.len() implies secret@[i] != ','
                && secret@[i] != '\n' by {
                assert(base64_char(secret@[i]));
            }
        }
        assert(entry_ok(e));
        assert(spec_insert(s, e) == s.push(e));
        lemma_spec_insert_wf(s, e);
    }
    Ok(Created { domain: parsed, secret, message })
}

/// Remove the entry for a domain.
///
/// The reserved key is refused before anything else; otherwise the
/// operation succeeds exactly when the domain normalizes and is present.
/// Every failure leaves the vault untouched.
pub fn delete(domain: &str, logins: &mut Vault) -> (r: Result<Deleted, VaultError>)
    requires
        vault_wf(old(logins)@),
    ensures
        vault_wf(final (logins)@),
        match r {
            Ok(del) => {
                &&& !reserved_key(domain@)
                &&& spec_normalize(domain@) == Some(del.domain@)
                &&& del.index == idx_of(old(logins)@, del.domain@)
                &&& del.index < old(logins)@.len()
                &&& old(logins)@[del.index as int] == (del.domain@, del.username@, del.secret@)
                &&& final (logins)@ == old(logins)@.remove(del.index as int)
                &&& del.message@ == deleted_msg(del.domain@)
            },
            Err(e) => final (logins)@ == old(logins)@ && ((e == VaultError::ReservedKey
                && reserved_key(domain@)) || (e == VaultError::InvalidFormat && !reserved_key(
                domain@,
            ) && spec_normalize(domain@) is None) || (e == VaultError::NotFound && !reserved_key(
                domain@,
            ) && norm_absent(domain@, old(logins)@))),
        },
{
    if is_reserved(domain) {
        return Err(VaultError::ReservedKey);
    }
    let parsed = match parse_domain(domain) {
        Some(d) => d,
        None => {
            return Err(VaultError::InvalidFormat);
        },
    };
    let idx = match vault_index_of(logins, &parsed) {
        Some(i) => i,
        None => {
            return Err(VaultError::NotFound);
        },
    };
    let message = msg3("Account for ", parsed.as_str(), " deleted successfully");
    let ghost s = logins@;
    proof {
        lemma_idx_of(s, parsed@);
    }
    let got = logins.remove(&parsed);
    proof {
        lemma_remove_wf(s, idx as int);
    }
    match got {
        Some(v) => Ok(
            Deleted { domain: parsed, index: idx, username: v.0, secret: v.1, message },
        ),
        None => {
            proof {
                assert(false);
            }
            Err(VaultError::NotFound)
        },
    }
}

/// Re-encrypt the password (fresh nonce) and replace an existing entry's
/// value, keeping its place in the order.
///
/// The reserved key is refused before anything else; otherwise the
/// operation succeeds exactly when the domain normalizes, is present, and
/// the password is within the cipher's message bound. Every failure leaves
/// the vault untouched.
pub fn update(
    domain: &str,
    username: &str,
    password: &str,
    logins: &mut Vault,
    master_key: &MasterKey,
) -> (r: Result<Updated, VaultError>)
    requires
        vault_wf(old(logins)@),
        master_key.wf(),
        field_ok(username@),
    ensures
        vault_wf(final (logins)@),
        match r {
            Ok(u) => {
                &&& !reserved_key(domain@)
                &&& spec_normalize(domain@) == Some(u.domain@)
                &&& ({
                    let i = idx_of(old(logins)@, u.domain@);
                    &&& i >= 0
                    &&& u.prev_username@ == old(logins)@[i].1
                    &&& u.prev_secret@ == old(logins)@[i].2
                    &&& is_encryption_of(u.secret@, master_key@, password@)
                    &&& final (logins)@ == old(logins)@.update(
                        i,
                        (u.domain@, username@, u.secret@),
                    )
                })
                &&& u.message@ == updated_msg(u.domain@)
            },
            Err(e) => final (logins)@ == old(logins)@ && ((e == VaultError::ReservedKey
                && reserved_key(domain@)) || (e == VaultError::InvalidFormat && !reserved_key(
                domain@,
            ) && spec_normalize(domain@) is None) || (e == VaultError::NotFound && !reserved_key(
                domain@,
            ) && norm_absent(domain@, old(logins)@)) || (e == VaultError::EncryptError
                && !reserved_key(domain@) && norm_present(domain@, old(logins)@) && !seal_fits(
                encode_utf8(password@),
            ))),
        },
{
    if is_reserved(domain) {
        return Err(VaultError::ReservedKey);
    }
    let parsed = match parse_domain(domain) {
        Some(d) => d,
        None => {
            return Err(VaultError::InvalidFormat);
        },
    };
    if !logins.contains(&parsed) {
        return Err(VaultError::NotFound);
    }
    let secret = match encrypt_password(password, master_key) {
        Ok(s) => s,
        Err(e) => {
            return Err(e);
        },
    };
    let message = msg2("Account updated successfully for ", parsed.as_str());
    let ghost s = logins@;
    let ghost e = (parsed@, username@, secret@);
    let got = logins.set_value(&parsed, String::from_str(username), secret.clone());
    proof {
        let i = idx_of(s, parsed@);
        assert(field_ok(secret@)) by {
            assert forall|k: int| 0 <= k < secret@.len() implies secret@[k] != ','
                && secret@[k] != '\n' by {
                assert(base64_char(secret@[k]));
            }
        }
        lemma_idx_of(s, parsed@);
        lemma_set_wf(s, i, e);
    }
    match got {
        Some(v) => Ok(
            Updated {
                domain: parsed,
                secret,
                prev_username: v.0,
                prev_secret: v.1,
                message,
            },
        ),
        None => {
            proof {
                assert(false);
            }
            Err(VaultError::NotFound)
        },
    }
}

/// Look up a domain's entry and decrypt its password.
///
/// The reserved key is refused before anything else; otherwise the lookup
/// succeeds exactly when the domain normalizes, is present, and its stored
/// blob is a well-formed encryption under this key; the returned password
/// is the one the blob seals.
pub fn login(domain: &str, logins: &Vault, master_key: &MasterKey) -> (r: Result<
    LoginOk,
    VaultError,
>)
    requires
        vault_wf(logins@),
        master_key.wf(),
    ensures
        match r {
            Ok(ok) => {
                &&& !reserved_key(domain@)
                &&& spec_normalize(domain@) == Some(ok.domain@)
                &&& ({
                    let i = idx_of(logins@, ok.domain@);
                    &&& i >= 0
                    &&& ok.username@ == logins@[i].1
                    &&& is_encryption_of(logins@[i].2, master_key@, ok.password@)
                    &&& forall|p: Seq<char>|
                        is_encryption_of(logins@[i].2, master_key@, p) ==> ok.password@ == p
                })
                &&& ok.message@ == login_msg(ok.domain@)
            },
            Err(e) => (e == VaultError::ReservedKey && reserved_key(domain@)) || (e
                == VaultError::InvalidFormat && !reserved_key(domain@) && spec_normalize(
                domain@,
            ) is None) || (e == VaultError::NotFound && !reserved_key(domain@) && norm_absent(
                domain@,
                logins@,
            )) || (e == VaultError::DecryptError && !reserved_key(domain@) && norm_undecryptable(
                domain@,
                logins@,
                master_key@,
            )),
        },
{
    if is_reserved(domain) {
        return Err(VaultError::ReservedKey);
    }
    let parsed = match parse_domain(domain) {
        Some(d) => d,
        None => {
            return Err(VaultError::InvalidFormat);
        },
    };
    let entry = match logins.get(&parsed) {
        Some(v) => v,
        None => {
            return Err(VaultError::NotFound);
        },
    };
    match decrypt_password(entry.1.as_str(), master_key) {
        Ok(password) => {
            let message = msg3("Credentials for ", parsed.as_str(), " copied to clipboard");
            Ok(LoginOk { domain: parsed, username: entry.0, password, message })
        },
        Err(_) => {
            proof {
                let i = idx_of(logins@, parsed@);
                assert forall|p: Seq<char>| !is_encryption_of(
                    logins@[i].2,
                    master_key@,
                    p,
                ) by {
                    if is_encryption_of(entry.1@, master_key@, p) {
                        assert(false);
                    }
                }
            }
            Err(VaultError::DecryptError)
        },
    }
}

/// The two lines handed to the clipboard: username, newline, password.
pub fn credentials_text(username: &str, password: &str) -> (r: String)
    ensures
        r@ == username@ + seq!['\n'] + password@,
{
    let mut s = String::from_str(username);
    s.append("\n");
    s.append(password);
    proof {
        reveal_strlit("\n");
        assert("\n"@ =~= seq!['\n']);
        assert(s@ =~= username@ + seq!['\n'] + password@);
    }
    s
}

/// One listed line per entry, each preceded by a newline.
pub open spec fn listing_lines(s: Seq<Rec>) -> Seq<char>
    decreases s.len(),
{
    if s.len() == 0 {
        Seq::<char>::empty()
    } else {
        seq!['\n'] + s[0].0 + ": "@ + s[0].1 + listing_lines(s.drop_first())
    }
}

/// The listing: every domain with its username, in insertion order, and no
/// secrets.
pub open spec fn list_text(s: Seq<Rec>) -> Seq<char> {
    if s.len() == 0 {
        "No accounts stored"@
    } else {
        "List of accounts:"@ + listing_lines(s)
    }
}

proof fn lemma_listing_concat(a: Seq<Rec>, b: Seq<Rec>)
    ensures
        listing_lines(a + b) == listing_lines(a) + listing_lines(b),
    decreases a.len(),
{
    if a.len() == 0 {
        assert(a + b =~= b);
        assert(listing_lines(a) + listing_lines(b) =~= listing_lines(b));
    } else {
        assert((a + b)[0] == a[0]);
        assert((a + b).drop_first() =~= a.drop_first() + b);
        lemma_listing_concat(a.drop_first(), b);
        assert(listing_lines(a + b) =~= listing_lines(a) + listing_lines(b));
    }
}

/// Render the listing of all stored domains and usernames. Never fails.
#[verifier::loop_isolation(false)]
pub fn list(logins: &Vault) -> (r: String)
    ensures
        r@ == list_text(logins@),
{
    let items = logins.entries();
    if items.len() == 0 {
        return String::from_str("No accounts stored");
    }
    let mut out = String::from_str("List of accounts:");
    proof {
        reveal_strlit("\n");
        assert(logins@.take(0) =~= Seq::<Rec>::empty());
    }
    let mut i: usize = 0;
    while i < items.len()
        invariant
            i <= items@.len(),
            out@ == "List of accounts:"@ + listing_lines(logins@.take(i as int)),
        decreases items@.len() - i,
    {
        let e = &items[i];
        out.append("\n");
        out.append(e.0.as_str());
        out.append(": ");
        out.append(e.1.as_str());
        proof {
            let rec = logins@[i as int];
            assert("\n"@ =~= seq!['\n']);
            lemma_listing_concat(logins@.take(i as int), seq![rec]);
            assert(logins@.take(i as int + 1) =~= logins@.take(i as int) + seq![rec]);
            assert(seq![rec].drop_first() =~= Seq::<Rec>::empty());
            assert(listing_lines(Seq::<Rec>::empty()) == Seq::<char>::empty());
            assert(seq![rec][0] == rec);
            assert(listing_lines(seq![rec]) == seq!['\n'] + rec.0 + ": "@ + rec.1
                + listing_lines(Seq::<Rec>::empty()));
            assert(listing_lines(seq![rec]) =~= seq!['\n'] + rec.0 + ": "@ + rec.1);
            assert(out@ =~= "List of accounts:"@ + listing_lines(logins@.take(i as int + 1)));
        }
        i = i + 1;
    }
    proof {
        assert(logins@.take(logins@.len() as int) =~= logins@);
    }
    out
}

/// The password alphabet `generate` draws from.
pub open spec fn charset_text() -> Seq<char> {
    "ABCDEFGHIJKLMNOPQRSTUVWXYZabcdefghijklmnopqrstuvwxyz0123456789!@#$%^&*()_+-=[]{}|;:.<>?"@
}

/// `c` is a character of the password alphabet.
pub open spec fn in_charset(c: char) -> bool {
    exists|i: int| 0 <= i < charset_text().len() && charset_text()[i] == c
}

/// Relies on `rand::random_range`: a random index below the bound, from a
/// cryptographically secure generator. Nothing is promised of its
/// distribution.
#[verifier::external_body]
fn rand_index(bound: usize) -> (r: usize)
    requires
        bound > 0,
    ensures
        r < bound,
{
    rand::random_range(0..bound)
}

/// Generate a random password of the requested length from the fixed
/// alphabet, then create an entry with it as `create` does.
///
/// Fails with `InvalidLength` exactly when the length is zero or above
/// `MAX_GENERATED_LEN`; otherwise as `create`, and since a generated
/// password is far below the cipher's message bound, it succeeds exactly
/// when the domain normalizes and is not yet present.
#[verifier::loop_isolation(false)]
pub fn generate(
    domain: &str,
    username: &str,
    length: usize,
    logins: &mut Vault,
    master_key: &MasterKey,
) -> (r: Result<Generated, VaultError>)
    requires
        vault_wf(old(logins)@),
        master_key.wf(),
        field_ok(username@),
    ensures
        vault_wf(final (logins)@),
        match r {
            Ok(g) => {
                &&& 1 <= length <= MAX_GENERATED_LEN
                &&& spec_normalize(domain@) == Some(g.domain@)
                &&& !has_key(old(logins)@, g.domain@)
                &&& g.password@.len() == length
                &&& (forall|i: int| 0 <= i < length ==> in_charset(#[trigger] g.password@[i]))
                &&& is_encryption_of(g.secret@, master_key@, g.password@)
                &&& final (logins)@ == old(logins)@.push((g.domain@, username@, g.secret@))
                &&& g.message@ == generated_msg(g.domain@, g.password@)
            },
            Err(e) => final (logins)@ == old(logins)@ && ((e == VaultError::InvalidLength && (
            length == 0 || length > MAX_GENERATED_LEN)) || (1 <= length <= MAX_GENERATED_LEN && ((
            e == VaultError::InvalidFormat && spec_normalize(domain@) is None) || (e
                == VaultError::AlreadyExists && norm_present(domain@, old(logins)@))))),
        },
{
    if length == 0 || length > MAX_GENERATED_LEN {
        return Err(VaultError::InvalidLength);
    }
    let cs = "ABCDEFGHIJKLMNOPQRSTUVWXYZabcdefghijklmnopqrstuvwxyz0123456789!@#$%^&*()_+-=[]{}|;:.<>?";
    proof {
        reveal_strlit(
            "ABCDEFGHIJKLMNOPQRSTUVWXYZabcdefghijklmnopqrstuvwxyz0123456789!@#$%^&*()_+-=[]{}|;:.<>?",
        );
    }
    let n = cs.unicode_len();
    let mut pw = String::new();
    let mut k: usize = 0;
    while k < length
        invariant
            k <= length,
            pw@.len() == k,
            forall|i: int| 0 <= i < k ==> in_charset(#[trigger] pw@[i]),
        decreases length - k,
    {
        let idx = rand_index(n);
        let piece = cs.substring_char(idx, idx + 1);
        pw.append(piece);
        proof {
            assert(pw@[k as int] == charset_text()[idx as int]);
            assert(in_charset(pw@[k as int]));
        }
        k = k + 1;
    }
    proof {
        // a generated password is at most 256 characters, so its UTF-8 form
        // stays far below the cipher's message bound
        lemma_encode_utf8_len(pw@);
        assert(seal_fits(encode_utf8(pw@)));
    }
    match create(domain, username, pw.as_str(), logins, master_key) {
        Ok(c) => {
            let message = msg4(
                "Account created successfully for ",
                c.domain.as_str(),
                " with generated password: ",
                pw.as_str(),
            );
            Ok(Generated { domain: c.domain, password: pw, secret: c.secret, message })
        },
        Err(e) => Err(e),
    }
}

/// The help text, listing every command and its usage.
pub open spec fn help_text() -> Seq<char> {
    "Commands:
      - `create {domain} {username} {password}`: Save new credentials for a domain
      - `delete {domain}`: Remove credentials for a specified domain
      - `update {domain} {username} {password}`: Update existing credentials
      - `generate {domain} {username} {length}`: Create a new login with a generated password

      - `login {domain}`: Retrieve and autofill credentials on the target website
      - `list`: Display all saved domains and usernames

      - `lock`: Prompts for master password
      - `help`: List all commands
      - `exit` or `quit`: Exit the program"@
}

/// List every command and its usage.
pub fn help() -> (r: String)
    ensures
        r@ == help_text(),
{
    String::from_str(
        "Commands:
      - `create {domain} {username} {password}`: Save new credentials for a domain
      - `delete {domain}`: Remove credentials for a specified domain
      - `update {domain} {username} {password}`: Update existing credentials
      - `generate {domain} {username} {length}`: Create a new login with a generated password

      - `login {domain}`: Retrieve and autofill credentials on the target website
      - `list`: Display all saved domains and usernames

      - `lock`: Prompts for master password
      - `help`: List all commands
      - `exit` or `quit`: Exit the program",
    )
}

/// A failed persist after `create` is undone by removing the fresh entry:
/// the vault is then exactly what it was before the operation.
pub proof fn lemma_create_rollback(s: Seq<Rec>, e: Rec)
    requires
        !has_key(s, e.0),
    ensures
        idx_of(s.push(e), e.0) == s.len(),
        s.push(e).remove(s.len() as int) == s,
{
    let t = s.push(e);
    lemma_idx_of(s, e.0);
    lemma_idx_of(t, e.0);
    assert(t[s.len() as int].0 == e.0);
    let f = idx_of(t, e.0);
    if f < s.len() {
        assert(t[f] == s[f]);
        assert(s[f].0 == e.0);
        assert(false);
    }
    assert(t.remove(s.len() as int) =~= s);
}

/// A failed persist after `update` is undone by putting the previous value
/// back in place: the vault is then exactly what it was before.
pub proof fn lemma_update_rollback(s: Seq<Rec>, k: Seq<char>, user: Seq<char>, secret: Seq<char>)
    requires
        has_key(s, k),
    ensures
        ({
            let i = idx_of(s, k);
            let t = s.update(i, (k, user, secret));
            idx_of(t, k) == i && t.update(i, (k, s[i].1, s[i].2)) == s
        }),
{
    let i = idx_of(s, k);
    lemma_idx_of(s, k);
    let t = s.update(i, (k, user, secret));
    lemma_idx_of(t, k);
    assert(t[i].0 == k);
    let f = idx_of(t, k);
    if f < i {
        assert(t[f] == s[f]);
        assert(s[f].0 == k);
        assert(false);
    }
    if f > i {
        assert(t[i].0 != k);
        assert(false);
    }
    assert(s[i].0 == k);
    assert(t.update(i, (k, s[i].1, s[i].2)) =~= s);
}

/// A failed persist after `delete` is undone by restoring the removed entry
/// at its old position: the vault is then exactly what it was before.
pub proof fn lemma_delete_rollback(s: Seq<Rec>, i: int)
    requires
        0 <= i < s.len(),
    ensures
        s.remove(i).insert(i, s[i]) == s,
{
    assert(s.remove(i).insert(i, s[i]) =~= s);
}

} // verus!
