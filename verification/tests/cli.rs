use clap::{Arg, Command};
use sloccrunch::cli::{default_thread_count, parse_thread_count};

fn command() -> Command {
    Command::new("sloccrunch").arg(
        Arg::new("threads")
            .short('j')
            .long("threads")
            .value_parser(parse_thread_count),
    )
}

#[test]
fn parses_threads_flag() {
    let matches = command()
        .try_get_matches_from(["sloccrunch", "--threads", "4"])
        .unwrap();
    assert_eq!(*matches.get_one::<usize>("threads").unwrap(), 4);
}

#[test]
fn rejects_zero_threads() {
    assert!(command()
        .try_get_matches_from(["sloccrunch", "--threads", "0"])
        .is_err());
}

#[test]
fn parses_plain_and_signed_counts() {
    assert_eq!(parse_thread_count("4"), Ok(4));
    assert_eq!(parse_thread_count("+12"), Ok(12));
    assert_eq!(parse_thread_count("007"), Ok(7));
}

#[test]
fn zero_threads_message() {
    assert_eq!(
        parse_thread_count("0"),
        Err("thread count must be at least 1".to_owned())
    );
}

#[test]
fn invalid_thread_count_messages() {
    for text in ["", "+", "-1", " 4", "4 ", "four", "1.5", "99999999999999999999999"] {
        assert_eq!(
            parse_thread_count(text),
            Err(format!("invalid thread count: {text}"))
        );
    }
}

#[test]
fn largest_thread_count_is_accepted() {
    let text = usize::MAX.to_string();
    assert_eq!(parse_thread_count(&text), Ok(usize::MAX));
}

#[test]
fn default_thread_count_leaves_one_core() {
    assert_eq!(default_thread_count(Some(8)), 7);
    assert_eq!(default_thread_count(Some(2)), 1);
}

#[test]
fn default_thread_count_is_at_least_one() {
    assert_eq!(default_thread_count(Some(1)), 1);
    assert_eq!(default_thread_count(Some(0)), 1);
    assert_eq!(default_thread_count(None), 1);
}
