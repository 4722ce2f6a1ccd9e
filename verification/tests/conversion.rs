use satsval::amount::sanitize;
use satsval::convert::{convert, Currency};

#[test]
fn btc_above_supply_is_clamped_both_sides() {
    // 30,000,000 BTC at 50,000 USD/BTC: BTC shows the supply bound, USD
    // the bound times the rate.
    let a = sanitize("30000000");
    let r = convert(&a, Currency::Btc, 5_000_000_000_000);
    assert_eq!(r.btc, "21,000,000");
    assert_eq!(r.usd, "1,050,000,000,000");
}

#[test]
fn usd_at_zero_rate_yields_zero_btc() {
    // With no usable rate the BTC side degrades to zero, never a
    // non-finite value.
    let a = sanitize("100");
    let r = convert(&a, Currency::Usd, 0);
    assert_eq!(r.btc, "0");
    assert_eq!(r.usd, "100");
}

#[test]
fn btc_fraction_converts_to_usd() {
    let a = sanitize("0.5");
    let r = convert(&a, Currency::Btc, 5_000_000_000_000);
    assert_eq!(r.btc, "0.5");
    assert_eq!(r.usd, "25,000");
}

#[test]
fn usd_converts_to_whole_btc() {
    let a = sanitize("50000");
    let r = convert(&a, Currency::Usd, 5_000_000_000_000);
    assert_eq!(r.btc, "1");
    assert_eq!(r.usd, "50000");
}

#[test]
fn usd_converts_to_small_btc_fraction() {
    let a = sanitize("100");
    let r = convert(&a, Currency::Usd, 5_000_000_000_000);
    assert_eq!(r.btc, "0.002");
    assert_eq!(r.usd, "100");
}

#[test]
fn usd_larger_than_supply_clamps_btc() {
    // 2,000,000,000,000 USD at 50,000 USD/BTC would be 40,000,000 BTC.
    let a = sanitize("2000000000000");
    let r = convert(&a, Currency::Usd, 5_000_000_000_000);
    assert_eq!(r.btc, "21,000,000");
    assert_eq!(r.usd, "2000000000000");
}

#[test]
fn btc_side_echoes_cleaned_text_unclamped() {
    // Exactly the supply bound is not above it: the typed text is echoed,
    // without regrouping.
    let a = sanitize("21000000");
    let r = convert(&a, Currency::Btc, 100_000_000);
    assert_eq!(r.btc, "21000000");
    assert_eq!(r.usd, "21,000,000");
}

#[test]
fn btc_zero_rate_shows_zero_usd() {
    let a = sanitize("2");
    let r = convert(&a, Currency::Btc, 0);
    assert_eq!(r.btc, "2");
    assert_eq!(r.usd, "0");
}

#[test]
fn usd_truncates_to_satoshi_precision() {
    // 1 USD at 30,000.50 USD/BTC: 1 / 30000.50 BTC, truncated to eight
    // decimals.
    let a = sanitize("1");
    let r = convert(&a, Currency::Usd, 3_000_050_000_000);
    assert_eq!(r.btc, "0.00003333");
    assert_eq!(r.usd, "1");
}
