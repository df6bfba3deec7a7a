use credvault::crypto::{derive_key, MasterKey};
use credvault::ops::{
    create, credentials_text, delete, generate, help, list, login, update,
};
use credvault::vault::Vault;
use credvault::VaultError;

fn key() -> MasterKey {
    derive_key("master", &vec![9u8; 16]).unwrap()
}

#[test]
fn end_to_end_create_login_delete() {
    let k = key();
    let mut v = Vault::new();
    let c = create("example.com", "alice", "p@ss", &mut v, &k).unwrap();
    assert_eq!(c.domain, "example.com");
    assert_eq!(c.message, "Account created successfully for example.com");

    let ok = login("example.com", &v, &k).unwrap();
    assert_eq!(ok.username, "alice");
    assert_eq!(ok.password, "p@ss");
    assert_eq!(ok.message, "Credentials for example.com copied to clipboard");

    assert_eq!(
        create("example.com", "bob", "other", &mut v, &k).unwrap_err(),
        VaultError::AlreadyExists
    );

    let d = delete("example.com", &mut v).unwrap();
    assert_eq!(d.username, "alice");
    assert_eq!(d.message, "Account for example.com deleted successfully");
    assert_eq!(login("example.com", &v, &k).unwrap_err(), VaultError::NotFound);
}

#[test]
fn normalization_unifies_inputs() {
    let k = key();
    let mut v = Vault::new();
    create("https://www.example.com/login", "alice", "pw", &mut v, &k).unwrap();
    // a different spelling of the same registrable domain hits the same entry
    let ok = login("http://example.com/x", &v, &k).unwrap();
    assert_eq!(ok.username, "alice");
    assert_eq!(
        create("example.com", "bob", "pw2", &mut v, &k).unwrap_err(),
        VaultError::AlreadyExists
    );
}

#[test]
fn reserved_key_always_refused() {
    let k = key();
    let mut v = Vault::new();
    assert_eq!(delete("domain", &mut v).unwrap_err(), VaultError::ReservedKey);
    assert_eq!(
        update("domain", "u", "p", &mut v, &k).unwrap_err(),
        VaultError::ReservedKey
    );
    assert_eq!(login("domain", &v, &k).unwrap_err(), VaultError::ReservedKey);
    // case-insensitive
    assert_eq!(delete("DOMAIN", &mut v).unwrap_err(), VaultError::ReservedKey);
    assert_eq!(delete("Domain", &mut v).unwrap_err(), VaultError::ReservedKey);
    // still refused when an entry under that literal key exists (a header row)
    v.insert("domain".to_string(), "username".to_string(), "password".to_string());
    assert_eq!(delete("domain", &mut v).unwrap_err(), VaultError::ReservedKey);
    assert_eq!(
        update("domain", "u", "p", &mut v, &k).unwrap_err(),
        VaultError::ReservedKey
    );
    assert_eq!(v.len(), 1);
}

#[test]
fn invalid_domain_reports_invalid_format() {
    let k = key();
    let mut v = Vault::new();
    assert_eq!(
        create("not a domain", "u", "p", &mut v, &k).unwrap_err(),
        VaultError::InvalidFormat
    );
    assert_eq!(delete("not a domain", &mut v).unwrap_err(), VaultError::InvalidFormat);
    assert_eq!(
        update("not a domain", "u", "p", &mut v, &k).unwrap_err(),
        VaultError::InvalidFormat
    );
    assert_eq!(login("not a domain", &v, &k).unwrap_err(), VaultError::InvalidFormat);
    assert_eq!(v.len(), 0);
}

#[test]
fn missing_domain_reports_not_found() {
    let k = key();
    let mut v = Vault::new();
    assert_eq!(delete("absent.com", &mut v).unwrap_err(), VaultError::NotFound);
    assert_eq!(
        update("absent.com", "u", "p", &mut v, &k).unwrap_err(),
        VaultError::NotFound
    );
    assert_eq!(login("absent.com", &v, &k).unwrap_err(), VaultError::NotFound);
}

#[test]
fn update_replaces_in_place_and_reencrypts() {
    let k = key();
    let mut v = Vault::new();
    create("a.com", "u1", "p1", &mut v, &k).unwrap();
    create("b.com", "u2", "p2", &mut v, &k).unwrap();
    let old_secret = v.get(&"a.com".to_string()).unwrap().1;
    let u = update("a.com", "u1b", "p1b", &mut v, &k).unwrap();
    assert_eq!(u.message, "Account updated successfully for a.com");
    assert_eq!(u.prev_username, "u1");
    assert_eq!(u.prev_secret, old_secret);
    // the entry kept its place
    let entries = v.entries();
    assert_eq!(entries[0].0, "a.com");
    assert_eq!(entries[0].1, "u1b");
    assert_eq!(entries[1].0, "b.com");
    let ok = login("a.com", &v, &k).unwrap();
    assert_eq!(ok.password, "p1b");
}

#[test]
fn wrong_session_key_surfaces_decrypt_error() {
    let k = key();
    let mut v = Vault::new();
    create("a.com", "u", "p", &mut v, &k).unwrap();
    let other = derive_key("another master", &vec![9u8; 16]).unwrap();
    assert_eq!(login("a.com", &v, &other).unwrap_err(), VaultError::DecryptError);
}

#[test]
fn create_rollback_restores_previous_vault() {
    let k = key();
    let mut v = Vault::new();
    create("stay.com", "u0", "p0", &mut v, &k).unwrap();
    let before = v.entries();
    let c = create("new.com", "u1", "p1", &mut v, &k).unwrap();
    // the persist step failed: undo the insert
    v.remove(&c.domain);
    assert_eq!(v.entries(), before);
    assert!(!v.contains(&"new.com".to_string()));
}

#[test]
fn update_rollback_restores_previous_vault() {
    let k = key();
    let mut v = Vault::new();
    create("a.com", "u1", "p1", &mut v, &k).unwrap();
    create("b.com", "u2", "p2", &mut v, &k).unwrap();
    let before = v.entries();
    let u = update("a.com", "ux", "px", &mut v, &k).unwrap();
    // the persist step failed: put the old value back in place
    v.set_value(&u.domain, u.prev_username, u.prev_secret);
    assert_eq!(v.entries(), before);
}

#[test]
fn delete_rollback_restores_previous_vault() {
    let k = key();
    let mut v = Vault::new();
    create("a.com", "u1", "p1", &mut v, &k).unwrap();
    create("b.com", "u2", "p2", &mut v, &k).unwrap();
    create("c.com", "u3", "p3", &mut v, &k).unwrap();
    let before = v.entries();
    let d = delete("b.com", &mut v).unwrap();
    assert_eq!(d.index, 1);
    // the persist step failed: restore the entry at its old position
    v.restore_at(d.index, d.domain, d.username, d.secret);
    assert_eq!(v.entries(), before);
}

#[test]
fn list_output_formats() {
    let k = key();
    let mut v = Vault::new();
    assert_eq!(list(&v), "No accounts stored");
    create("example.com", "alice", "p", &mut v, &k).unwrap();
    create("google.com", "bob", "q", &mut v, &k).unwrap();
    assert_eq!(list(&v), "List of accounts:\nexample.com: alice\ngoogle.com: bob");
}

#[test]
fn generate_makes_password_of_requested_length() {
    let k = key();
    let mut v = Vault::new();
    let g = generate("example.com", "alice", 12, &mut v, &k).unwrap();
    assert_eq!(g.password.chars().count(), 12);
    let charset =
        "ABCDEFGHIJKLMNOPQRSTUVWXYZabcdefghijklmnopqrstuvwxyz0123456789!@#$%^&*()_+-=[]{}|;:.<>?";
    for c in g.password.chars() {
        assert!(charset.contains(c), "character {:?} outside the alphabet", c);
    }
    assert_eq!(
        g.message,
        format!("Account created successfully for example.com with generated password: {}", g.password)
    );
    // the stored secret decrypts to the generated password
    let ok = login("example.com", &v, &k).unwrap();
    assert_eq!(ok.password, g.password);
}

#[test]
fn generate_rejects_bad_lengths() {
    let k = key();
    let mut v = Vault::new();
    assert_eq!(
        generate("example.com", "u", 0, &mut v, &k).unwrap_err(),
        VaultError::InvalidLength
    );
    assert_eq!(
        generate("example.com", "u", 1000, &mut v, &k).unwrap_err(),
        VaultError::InvalidLength
    );
    assert_eq!(v.len(), 0);
}

#[test]
fn generate_refuses_existing_domain() {
    let k = key();
    let mut v = Vault::new();
    create("example.com", "u", "p", &mut v, &k).unwrap();
    assert_eq!(
        generate("example.com", "u", 8, &mut v, &k).unwrap_err(),
        VaultError::AlreadyExists
    );
}

#[test]
fn help_lists_the_commands() {
    let h = help();
    assert!(h.starts_with("Commands:"));
    assert!(h.contains("`create {domain} {username} {password}`"));
    assert!(h.contains("`delete {domain}`"));
    assert!(h.contains("`update {domain} {username} {password}`"));
    assert!(h.contains("`generate {domain} {username} {length}`"));
    assert!(h.contains("`login {domain}`"));
    assert!(h.contains("`list`"));
    assert!(h.contains("`lock`"));
    assert!(h.contains("`exit` or `quit`"));
}

#[test]
fn credentials_text_joins_with_newline() {
    assert_eq!(credentials_text("alice", "p@ss"), "alice\np@ss");
}
