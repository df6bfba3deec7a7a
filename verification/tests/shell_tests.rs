use credvault::shell::{parse_command, Command};
use credvault::unlock::check_master_password;

#[test]
fn blank_input_is_no_command() {
    assert!(matches!(parse_command(""), Ok(None)));
    assert!(matches!(parse_command("   \t  "), Ok(None)));
}

#[test]
fn parses_create() {
    match parse_command("create example.com alice p@ss").unwrap().unwrap() {
        Command::Create(d, u, p) => {
            assert_eq!(d, "example.com");
            assert_eq!(u, "alice");
            assert_eq!(p, "p@ss");
        },
        _ => panic!("wrong command"),
    }
}

#[test]
fn parses_with_extra_whitespace() {
    match parse_command("  delete \t example.com ").unwrap().unwrap() {
        Command::Delete(d) => assert_eq!(d, "example.com"),
        _ => panic!("wrong command"),
    }
}

#[test]
fn parses_update_login_list_help_lock() {
    assert!(matches!(
        parse_command("update a.com u p").unwrap().unwrap(),
        Command::Update(..)
    ));
    assert!(matches!(
        parse_command("login a.com").unwrap().unwrap(),
        Command::Login(..)
    ));
    assert!(matches!(parse_command("list").unwrap().unwrap(), Command::List));
    assert!(matches!(parse_command("help").unwrap().unwrap(), Command::Help));
    assert!(matches!(parse_command("lock").unwrap().unwrap(), Command::Lock));
}

#[test]
fn wrong_arity_yields_usage() {
    assert_eq!(
        parse_command("create a b").unwrap_err(),
        "Usage: create <domain> <username> <password>"
    );
    assert_eq!(parse_command("delete").unwrap_err(), "Usage: delete <domain>");
    assert_eq!(
        parse_command("update a").unwrap_err(),
        "Usage: update <domain> <username> <password>"
    );
    assert_eq!(parse_command("login a b").unwrap_err(), "Usage: login <domain>");
    assert_eq!(parse_command("list extra").unwrap_err(), "Usage: list");
    assert_eq!(
        parse_command("generate a u").unwrap_err(),
        "Usage: generate <domain> <username> <length>"
    );
    assert_eq!(parse_command("help me").unwrap_err(), "Usage: help");
    assert_eq!(parse_command("lock now").unwrap_err(), "Usage: lock");
}

#[test]
fn unknown_command_is_reported() {
    assert_eq!(parse_command("bogus x").unwrap_err(), "Unknown command: bogus");
}

#[test]
fn parses_generate_length() {
    match parse_command("generate a.com u 12").unwrap().unwrap() {
        Command::Generate(d, u, l) => {
            assert_eq!(d, "a.com");
            assert_eq!(u, "u");
            assert_eq!(l, 12);
        },
        _ => panic!("wrong command"),
    }
    // a leading plus sign is accepted, as the standard parser does
    assert!(matches!(
        parse_command("generate a.com u +7").unwrap().unwrap(),
        Command::Generate(_, _, 7)
    ));
}

#[test]
fn bad_generate_length_is_reported() {
    assert_eq!(parse_command("generate a u abc").unwrap_err(), "Invalid length parameter");
    assert_eq!(parse_command("generate a u -3").unwrap_err(), "Invalid length parameter");
    assert_eq!(parse_command("generate a u 12x").unwrap_err(), "Invalid length parameter");
    assert_eq!(parse_command("generate a u +").unwrap_err(), "Invalid length parameter");
    assert_eq!(
        parse_command("generate a u 99999999999999999999999").unwrap_err(),
        "Invalid length parameter"
    );
}

#[test]
fn master_password_check_matches_digest() {
    // the SHA-256 of "abc", in hex
    let abc = "ba7816bf8f01cfea414140de5dae2223b00361a396177a9cb410ff61f20015ad";
    assert!(check_master_password("abc", abc));
    assert!(!check_master_password("abd", abc));
    assert!(check_master_password("hello", &sha256::digest("hello")));
    assert!(!check_master_password("hello", &sha256::digest("other")));
}
