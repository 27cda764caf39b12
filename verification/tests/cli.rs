use iana_gen::cli::{Command, Selection};
use iana_gen::error::Error;

fn parse(args: &[&str]) -> Result<Command, Error> {
    Command::parse(args.iter().map(|arg| (*arg).to_owned()).collect())
}

#[test]
fn updates_discover_all_groups_by_default() {
    assert_eq!(parse(&["iana", "update"]).unwrap(), Command::Update(Selection::All));
    assert_eq!(parse(&["iana", "fetch", "--all"]).unwrap(), Command::Fetch(Selection::All));
}

#[test]
fn simple_commands_take_no_arguments() {
    assert_eq!(parse(&["iana", "discover"]).unwrap(), Command::Discover);
    assert_eq!(parse(&["iana", "generate"]).unwrap(), Command::Generate);
    assert_eq!(parse(&["iana", "check"]).unwrap(), Command::Check);
    assert!(matches!(parse(&["iana", "check", "x"]), Err(Error::Usage)));
    assert!(matches!(parse(&["iana"]), Err(Error::Usage)));
    assert!(matches!(parse(&[]), Err(Error::Usage)));
    assert!(matches!(parse(&["other", "check"]), Err(Error::Usage)));
    assert!(matches!(parse(&["iana", "frobnicate"]), Err(Error::Usage)));
}

#[test]
fn groups_are_sorted_and_deduplicated() {
    assert_eq!(
        parse(&["iana", "fetch", "tls-parameters", "sdp-parameters", "tls-parameters"]).unwrap(),
        Command::Fetch(Selection::Groups(vec!["sdp-parameters".to_owned(), "tls-parameters".to_owned()]))
    );
    assert_eq!(
        parse(&["iana", "update", "b", "a", "B"]).unwrap(),
        Command::Update(Selection::Groups(vec!["B".to_owned(), "a".to_owned(), "b".to_owned()]))
    );
}

#[test]
fn flags_and_bad_groups_are_refused() {
    assert!(matches!(parse(&["iana", "fetch", "--all", "x"]), Err(Error::Usage)));
    assert!(matches!(parse(&["iana", "fetch", "-x"]), Err(Error::Usage)));
    match parse(&["iana", "fetch", "ok", "../secret"]) {
        Err(Error::InvalidGroupId(id)) => assert_eq!(id, "../secret"),
        other => panic!("unexpected {other:?}"),
    }
    let usage = Error::Usage.message();
    assert!(usage.starts_with("usage: cargo run -p xtask -- iana <discover|"));
}
