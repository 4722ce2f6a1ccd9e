use satsval::rate::{parse_rate, rate_from_feed};

#[test]
fn whole_rate_parses() {
    assert_eq!(parse_rate("50000"), 5_000_000_000_000);
}

#[test]
fn decimal_rate_parses() {
    assert_eq!(parse_rate("59432.23"), 5_943_223_000_000);
}

#[test]
fn sub_unit_rate_parses() {
    assert_eq!(parse_rate("0.5"), 50_000_000);
}

#[test]
fn bare_fraction_parses() {
    assert_eq!(parse_rate(".5"), 50_000_000);
}

#[test]
fn trailing_dot_parses() {
    assert_eq!(parse_rate("5."), 500_000_000);
}

#[test]
fn empty_rate_is_zero() {
    assert_eq!(parse_rate(""), 0);
}

#[test]
fn lone_dot_rate_is_zero() {
    assert_eq!(parse_rate("."), 0);
}

#[test]
fn two_dots_rate_is_zero() {
    assert_eq!(parse_rate("1.2.3"), 0);
}

#[test]
fn signed_rate_is_zero() {
    assert_eq!(parse_rate("-5"), 0);
}

#[test]
fn exponent_rate_is_zero() {
    assert_eq!(parse_rate("1e5"), 0);
}

#[test]
fn padded_rate_is_zero() {
    assert_eq!(parse_rate(" 123"), 0);
}

#[test]
fn huge_rate_saturates() {
    assert_eq!(parse_rate("18446744073709551616"), u64::MAX);
}

#[test]
fn feed_answer_yields_rate() {
    let body = "{\"data\":{\"currency\":\"BTC\",\"rates\":{\"EUR\":\"46000.00\",\"USD\":\"50000.00\"}}}";
    assert_eq!(rate_from_feed(body), 5_000_000_000_000);
}

#[test]
fn feed_answer_missing_path_is_zero() {
    let body = "{\"data\":{\"rates\":{\"EUR\":\"46000.00\"}}}";
    assert_eq!(rate_from_feed(body), 0);
}

#[test]
fn feed_answer_not_json_is_zero() {
    assert_eq!(rate_from_feed("no json here"), 0);
}

#[test]
fn feed_answer_numeric_rate_is_zero() {
    // The feed sends the rate as a string; a bare number is not one.
    let body = "{\"data\":{\"rates\":{\"USD\":50000}}}";
    assert_eq!(rate_from_feed(body), 0);
}

#[test]
fn feed_answer_bad_rate_text_is_zero() {
    let body = "{\"data\":{\"rates\":{\"USD\":\"fifty\"}}}";
    assert_eq!(rate_from_feed(body), 0);
}
