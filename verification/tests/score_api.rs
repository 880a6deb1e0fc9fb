use rusty_pelican::score::{parse_score, Score};

#[test]
fn parses_plain_integers() {
    assert_eq!(parse_score("1").unwrap().units, 1_000_000_000);
    assert_eq!(parse_score("-3").unwrap().units, -3_000_000_000);
    assert_eq!(parse_score("+20").unwrap().units, 20_000_000_000);
}

#[test]
fn parses_decimals() {
    assert_eq!(parse_score("2.5").unwrap().units, 2_500_000_000);
    assert_eq!(parse_score("0.05").unwrap().units, 50_000_000);
    assert_eq!(parse_score("-1.25").unwrap().units, -1_250_000_000);
    assert_eq!(parse_score(".5").unwrap().units, 500_000_000);
    assert_eq!(parse_score("5.").unwrap().units, 5_000_000_000);
}

#[test]
fn rejects_junk() {
    assert!(parse_score("").is_err());
    assert!(parse_score("abc").is_err());
    assert!(parse_score("1.2.3").is_err());
    assert!(parse_score(".").is_err());
    assert!(parse_score("1e3").is_err());
    assert!(parse_score("0.0000000001").is_err());
}

#[test]
fn renders_canonically() {
    assert_eq!(parse_score("1").unwrap().render(), "1");
    assert_eq!(parse_score("5").unwrap().render(), "5");
    assert_eq!(parse_score("2.50").unwrap().render(), "2.5");
    assert_eq!(parse_score("-0.05").unwrap().render(), "-0.05");
    assert_eq!(Score { units: 0 }.render(), "0");
}
