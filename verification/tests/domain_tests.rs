use credvault::domain::parse_domain;

#[test]
fn normalizes_scheme_www_and_path() {
    assert_eq!(parse_domain("https://www.example.com/login").unwrap(), "example.com");
}

#[test]
fn normalizes_bare_domain() {
    assert_eq!(parse_domain("example.com").unwrap(), "example.com");
}

#[test]
fn normalizes_http_with_path() {
    assert_eq!(parse_domain("http://example.com/x").unwrap(), "example.com");
}

#[test]
fn rejects_non_domain() {
    assert_eq!(parse_domain("not a domain"), None);
}

#[test]
fn extracts_registrable_root_under_public_suffix() {
    assert_eq!(parse_domain("mail.example.co.uk").unwrap(), "example.co.uk");
}

#[test]
fn strips_subdomains() {
    assert_eq!(parse_domain("https://accounts.google.com/signin").unwrap(), "google.com");
}

#[test]
fn rejects_ip_literal() {
    assert_eq!(parse_domain("127.0.0.1"), None);
}

#[test]
fn rejects_empty_input() {
    assert_eq!(parse_domain(""), None);
}

#[test]
fn prefixes_stripped_once_in_order() {
    // `www.` alone is stripped, and a path after it is cut
    assert_eq!(parse_domain("www.example.com/a/b").unwrap(), "example.com");
    // the query and path never reach the parser
    assert_eq!(parse_domain("https://example.com/?q=1").unwrap(), "example.com");
}
