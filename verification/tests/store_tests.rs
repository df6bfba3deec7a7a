use credvault::store::{read_csv, write_csv};
use credvault::vault::Vault;

fn two_entry_vault() -> Vault {
    let mut v = Vault::new();
    v.insert("a.com".to_string(), "u1".to_string(), "blob1".to_string());
    v.insert("b.com".to_string(), "u2".to_string(), "blob2".to_string());
    v
}

#[test]
fn serializes_one_line_per_entry() {
    let v = two_entry_vault();
    assert_eq!(write_csv(&v), "a.com,u1,blob1\nb.com,u2,blob2\n");
}

#[test]
fn store_roundtrip_preserves_entries_and_order() {
    let v = two_entry_vault();
    let text = write_csv(&v);
    let (reloaded, skipped) = read_csv(&text);
    assert_eq!(reloaded.entries(), v.entries());
    // only the empty piece after the final newline is skipped
    assert_eq!(skipped, 1);
}

#[test]
fn empty_vault_roundtrip() {
    let v = Vault::new();
    let text = write_csv(&v);
    assert_eq!(text, "");
    let (reloaded, skipped) = read_csv(&text);
    assert_eq!(reloaded.len(), 0);
    assert_eq!(skipped, 1);
}

#[test]
fn malformed_lines_are_skipped() {
    let text = "a.com,u1,b1\ngarbage\nx,y\n,u,s\nw,x,y,z\nb.com,u2,b2\n";
    let (v, skipped) = read_csv(text);
    assert_eq!(
        v.entries(),
        vec![
            ("a.com".to_string(), "u1".to_string(), "b1".to_string()),
            ("b.com".to_string(), "u2".to_string(), "b2".to_string()),
        ]
    );
    // one field, two fields, empty domain, four fields, and the trailing empty piece
    assert_eq!(skipped, 5);
}

#[test]
fn duplicate_domain_on_load_keeps_last_value() {
    let text = "a.com,u1,b1\na.com,u2,b2\n";
    let (v, _) = read_csv(text);
    assert_eq!(
        v.entries(),
        vec![("a.com".to_string(), "u2".to_string(), "b2".to_string())]
    );
}

#[test]
fn file_without_final_newline_loads() {
    let (v, skipped) = read_csv("a.com,u1,b1");
    assert_eq!(
        v.entries(),
        vec![("a.com".to_string(), "u1".to_string(), "b1".to_string())]
    );
    assert_eq!(skipped, 0);
}
