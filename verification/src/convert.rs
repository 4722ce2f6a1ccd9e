//! Conversion between BTC and USD at a given exchange rate.
//!
//! The driving side keeps its cleaned text; the derived side is computed in
//! hundred-millionths, clamped at the BTC supply bound, and formatted with
//! thousands separators — two decimal digits for USD, eight for BTC. A zero
//! rate never produces a division: the BTC side degrades to zero.

use crate::amount::{Amount, BTC_SUPPLY_UNITS};
use crate::digits::{all_digits, lemma_seq_val_bounds, min_int, pad8, seq_val};
use crate::format::{fixed_text, format_units, UNITS_PER_WHOLE};
use vstd::arithmetic::div_mod::{lemma_div_by_multiple, lemma_div_is_ordered};
use vstd::prelude::*;

verus! {

/// The currency the typed amount is denominated in.
#[derive(Clone, Copy, Debug, PartialEq, Eq, Structural)]
pub enum Currency {
    /// The typed amount is BTC; USD is derived.
    Btc,
    /// The typed amount is USD; BTC is derived.
    Usd,
}

/// The two display strings a conversion produces.
pub struct ConversionResult {
    /// Display text of the BTC side.
    pub btc: String,
    /// Display text of the USD side.
    pub usd: String,
}

/// Cap on the integer digits' value when a USD amount is evaluated.
pub const USD_INT_CAP: u128 = 10_000_000_000_000_000_000_000;

/// Cap on a USD amount in hundred-millionths; any amount at or above it
/// converts to a clamped BTC value at every representable rate.
pub const USD_UNITS_CAP: u128 = 10_000_000_000_000_000_000_000 * 100_000_000;

/// USD hundred-millionths derived from a BTC amount: the amount clamped at
/// the supply bound, times the rate, truncated to the fixed scale.
pub open spec fn usd_units_of(a: Amount, rate: u64) -> int {
    min_int(BTC_SUPPLY_UNITS as int, a.units()) * rate / (UNITS_PER_WHOLE as int)
}

/// BTC hundred-millionths derived from a USD amount: the amount divided by
/// the rate, truncated, clamped to `[0, BTC_SUPPLY_UNITS]`; zero when the
/// rate is zero.
pub open spec fn btc_units_of(a: Amount, rate: u64) -> int {
    if rate == 0 {
        0
    } else {
        min_int(BTC_SUPPLY_UNITS as int, a.units() * (UNITS_PER_WHOLE as int) / (rate as int))
    }
}

/// The BTC display string of a conversion: the cleaned input text when BTC
/// drives (the formatted supply bound if the input exceeded it), else the
/// derived BTC value with eight decimals.
pub open spec fn btc_display(a: Amount, from: Currency, rate: u64) -> Seq<char> {
    match from {
        Currency::Btc => if a.exceeds_btc_supply() {
            fixed_text(false, BTC_SUPPLY_UNITS as nat, 8)
        } else {
            a.text()
        },
        Currency::Usd => fixed_text(false, btc_units_of(a, rate) as nat, 8),
    }
}

/// The USD display string of a conversion: the derived USD value with two
/// decimals when BTC drives, else the cleaned input text echoed back.
pub open spec fn usd_display(a: Amount, from: Currency, rate: u64) -> Seq<char> {
    match from {
        Currency::Btc => fixed_text(false, usd_units_of(a, rate) as nat, 2),
        Currency::Usd => a.text(),
    }
}

/// An amount's fixed-point value is non-negative.
proof fn lemma_units_nonneg(a: Amount)
    requires
        a.wf(),
    ensures
        a.units() >= 0,
{
    lemma_seq_val_bounds(a.int_digits@);
    assert(all_digits(pad8(a.frac_digits@)));
    lemma_seq_val_bounds(pad8(a.frac_digits@));
    assert(seq_val(a.int_digits@) * (UNITS_PER_WHOLE as int) >= 0) by (nonlinear_arith)
        requires
            seq_val(a.int_digits@) >= 0,
    ;
}

/// Converts a sanitized amount at the given rate (USD hundred-millionths
/// per BTC) and returns the two display strings.
pub fn convert(amount: &Amount, from: Currency, rate: u64) -> (r: ConversionResult)
    requires
        amount.wf(),
    ensures
        r.btc@ == btc_display(*amount, from, rate),
        r.usd@ == usd_display(*amount, from, rate),
{
    match from {
        Currency::Btc => {
            let clamped = amount.btc_units();
            proof {
                lemma_units_nonneg(*amount);
                assert((clamped as int) * (rate as int) <= (BTC_SUPPLY_UNITS as int) * (
                u64::MAX as int)) by (nonlinear_arith)
                    requires
                        0 <= clamped <= BTC_SUPPLY_UNITS as int,
                        0 <= rate <= u64::MAX as int,
                ;
            }
            let usd128 = (clamped as u128) * (rate as u128) / (UNITS_PER_WHOLE as u128);
            let usd_str = format_units(usd128, 2);
            let btc_str = if amount.exceeds_btc_cap() {
                format_units(BTC_SUPPLY_UNITS as u128, 8)
            } else {
                amount.render()
            };
            ConversionResult { btc: btc_str, usd: usd_str }
        },
        Currency::Usd => {
            if rate == 0 {
                let btc_str = format_units(0, 8);
                let usd_str = amount.render();
                ConversionResult { btc: btc_str, usd: usd_str }
            } else {
                let usd_in = amount.units_capped(USD_INT_CAP, USD_UNITS_CAP);
                proof {
                    lemma_units_nonneg(*amount);
                    assert(usd_in * (UNITS_PER_WHOLE as u128) <= USD_UNITS_CAP * (UNITS_PER_WHOLE
                        as u128)) by (nonlinear_arith)
                        requires
                            0 <= usd_in <= USD_UNITS_CAP,
                    ;
                }
                let scaled = usd_in * (UNITS_PER_WHOLE as u128);
                let q = scaled / (rate as u128);
                let btc_units: u64 = if q < BTC_SUPPLY_UNITS as u128 {
                    q as u64
                } else {
                    BTC_SUPPLY_UNITS
                };
                proof {
                    lemma_btc_units_saturation(*amount, rate, usd_in as int, q as int);
                }
                let btc_str = format_units(btc_units as u128, 8);
                let usd_str = amount.render();
                ConversionResult { btc: btc_str, usd: usd_str }
            }
        },
    }
}

/// Evaluating a USD amount capped at `USD_UNITS_CAP` before dividing by the
/// rate leaves the clamped BTC value unchanged: any capped amount already
/// converts to more than the whole BTC supply.
proof fn lemma_btc_units_saturation(a: Amount, rate: u64, usd_in: int, q: int)
    requires
        a.wf(),
        rate > 0,
        usd_in == min_int(USD_UNITS_CAP as int, a.units()),
        q == usd_in * (UNITS_PER_WHOLE as int) / (rate as int),
    ensures
        min_int(BTC_SUPPLY_UNITS as int, q) == btc_units_of(a, rate),
{
    let e = UNITS_PER_WHOLE as int;
    let u = a.units();
    lemma_units_nonneg(a);
    if u < USD_UNITS_CAP as int {
        assert(usd_in == u);
    } else {
        let c = USD_UNITS_CAP as int;
        let big = c * e;
        assert(usd_in == c);
        assert(u * e >= big) by (nonlinear_arith)
            requires
                u >= c,
                e > 0,
                big == c * e,
        ;
        // Any value at or above the cap divides down to more than the
        // supply bound, whatever representable rate divides it.
        let cap1 = (BTC_SUPPLY_UNITS + 1) as int;
        assert(cap1 * (rate as int) <= cap1 * (u64::MAX as int)) by (nonlinear_arith)
            requires
                0 < rate <= u64::MAX as int,
                cap1 > 0,
        ;
        assert(cap1 * (u64::MAX as int) <= big);
        assert(cap1 * (rate as int) <= big);
        lemma_div_is_ordered(((BTC_SUPPLY_UNITS + 1) as int) * (rate as int), big, rate as int);
        lemma_div_by_multiple((BTC_SUPPLY_UNITS + 1) as int, rate as int);
        assert(big / (rate as int) >= (BTC_SUPPLY_UNITS + 1) as int);
        lemma_div_is_ordered(big, u * e, rate as int);
    }
}

} // verus!
