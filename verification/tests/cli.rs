use csv_pg_schema::cli::{database_url, parse_args, value, Cli, Command, USAGE};
use csv_pg_schema::error::Error;
use csv_pg_schema::number::read_count;

fn words(items: &[&str]) -> Vec<String> {
    items.iter().map(|w| w.to_string()).collect()
}

fn cli(items: &[&str]) -> Cli {
    match parse_args(&words(items)) {
        Ok(cli) => cli,
        Err(e) => panic!("{}", e.describe()),
    }
}

fn usage(items: &[&str]) -> String {
    match parse_args(&words(items)) {
        Err(Error::Usage(m)) => m,
        _ => unreachable!(),
    }
}

#[test]
fn defaults_of_a_run() {
    let c = cli(&["report", "--list", "list.txt"]);
    assert_eq!(c.command, Command::Report);
    assert_eq!(c.list, "list.txt");
    assert_eq!(c.options.schema, "account");
    assert_eq!(c.options.key, None);
    assert_eq!(c.options.enum_max, 32);
    assert!(c.options.null_tokens.is_empty() && c.options.strict);
    assert_eq!((c.out, c.database_url), (None, None));
    assert!(!c.create_schema && !c.with_checks);
}

#[test]
fn every_option() {
    let c = cli(&[
        "load", "--key", "ACCT", "--schema", "s", "--enum-max", "+7", "--null-token", "NA",
        "--null-token", "-", "--lenient", "-o", "a", "--out", "b", "--database-url", "postgres://x",
        "--create-schema", "--with-checks", "--list", "l1", "--list", "--help",
    ]);
    assert_eq!(c.command, Command::Load);
    assert_eq!(c.list, "--help");
    assert_eq!(c.options.key.as_deref(), Some("ACCT"));
    assert_eq!(c.options.schema, "s");
    assert_eq!(c.options.enum_max, 7);
    assert_eq!(c.options.null_tokens, ["NA", "-"]);
    assert!(!c.options.strict && c.create_schema && c.with_checks);
    assert_eq!(c.out.as_deref(), Some("b"));
    assert_eq!(c.database_url.as_deref(), Some("postgres://x"));
}

#[test]
fn commands() {
    assert_eq!(cli(&["analyze", "--list", "l"]).command, Command::Analyze);
    assert_eq!(cli(&["rust", "--list", "l"]).command, Command::Rust);
}

#[test]
fn usage_errors() {
    assert_eq!(usage(&[]), USAGE);
    assert_eq!(usage(&["help"]), USAGE);
    assert_eq!(usage(&["-h"]), USAGE);
    assert_eq!(usage(&["report", "--list", "l", "--help"]), USAGE);
    assert_eq!(usage(&["dump"]), format!("unknown command `dump`\n\n{USAGE}"));
    assert_eq!(usage(&["report", "-x"]), format!("unknown option `-x`\n\n{USAGE}"));
    assert_eq!(usage(&["report"]), format!("--list is required\n\n{USAGE}"));
    assert_eq!(usage(&["report", "--list"]), "--list expects a value");
    assert_eq!(usage(&["report", "-o"]), "--out expects a value");
    assert_eq!(
        usage(&["report", "--enum-max", "many"]),
        "--enum-max expects an integer, got `many`"
    );
}

#[test]
fn counts_are_read_as_whole_numbers() {
    assert_eq!(read_count("0"), Some(0));
    assert_eq!(read_count("+007"), Some(7));
    assert_eq!(read_count(&usize::MAX.to_string()), Some(usize::MAX));
    for bad in ["", "+", "-0", "1.0", " 1", "99999999999999999999999"] {
        assert_eq!(read_count(bad), None);
    }
}

#[test]
fn values_of_options() {
    let args = words(&["a", "b"]);
    assert_eq!(value(&args, 1, "--key").unwrap(), "b");
    match value(&args, 2, "--key") {
        Err(Error::Usage(m)) => assert_eq!(m, "--key expects a value"),
        _ => unreachable!(),
    }
}

#[test]
fn the_connection_string() {
    let (a, b, none) = ("a".to_owned(), "b".to_owned(), String::new());
    assert_eq!(database_url(Some(&a), Some(&b)).unwrap(), "a");
    assert_eq!(database_url(None, Some(&b)).unwrap(), "b");
    assert!(matches!(database_url(None, None), Err(Error::MissingEnv("DATABASE_URL"))));
    assert!(matches!(database_url(Some(&none), Some(&b)), Err(Error::MissingEnv(_))));
}
