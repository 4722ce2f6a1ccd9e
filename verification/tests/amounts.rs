use satsval::amount::sanitize;

#[test]
fn plain_decimal_is_kept_losslessly() {
    // A string that is already a plain decimal survives sanitizing exactly.
    let a = sanitize("123.456");
    assert_eq!(a.render(), "123.456");
    assert_eq!(a.btc_units(), 12_345_600_000);
}

#[test]
fn second_dot_ends_the_amount() {
    let a = sanitize("12.34.56");
    assert_eq!(a.render(), "12.34");
    assert_eq!(a.btc_units(), 1_234_000_000);
}

#[test]
fn letters_degrade_to_zero() {
    let a = sanitize("abc");
    assert_eq!(a.render(), "");
    assert_eq!(a.btc_units(), 0);
}

#[test]
fn empty_input_degrades_to_zero() {
    let a = sanitize("");
    assert_eq!(a.render(), "");
    assert_eq!(a.btc_units(), 0);
}

#[test]
fn currency_punctuation_is_dropped() {
    let a = sanitize("$1,234.50");
    assert_eq!(a.render(), "1234.50");
    assert_eq!(a.btc_units(), 123_450_000_000);
}

#[test]
fn fraction_beyond_eight_digits_is_truncated() {
    let a = sanitize("0.123456789");
    assert_eq!(a.render(), "0.123456789");
    assert_eq!(a.btc_units(), 12_345_678);
}

#[test]
fn value_above_supply_clamps() {
    let a = sanitize("30000000");
    assert!(a.exceeds_btc_cap());
    assert_eq!(a.btc_units(), 2_100_000_000_000_000);
}

#[test]
fn supply_bound_itself_is_not_above_it() {
    let a = sanitize("21000000");
    assert!(!a.exceeds_btc_cap());
    assert_eq!(a.btc_units(), 2_100_000_000_000_000);
}

#[test]
fn a_hair_above_supply_counts_as_above() {
    // Even a fraction the fixed point cannot hold pushes the exact value
    // over the bound.
    let a = sanitize("21000000.000000001");
    assert!(a.exceeds_btc_cap());
    assert_eq!(a.btc_units(), 2_100_000_000_000_000);
}

#[test]
fn lone_dot_is_kept_in_text_but_worth_zero() {
    let a = sanitize(".");
    assert_eq!(a.render(), ".");
    assert_eq!(a.btc_units(), 0);
}
