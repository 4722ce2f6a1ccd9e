//! Core logic for a BTC/USD currency-converter service.
//!
//! The library sanitizes free-form numeric input ([`amount`]), converts
//! between the two currencies at a given exchange rate ([`convert`]),
//! formats amounts with thousands separators and truncated decimals
//! ([`format`]), reads the rate out of a price feed's answer ([`rate`]),
//! and caches it with a time-to-live ([`cache`]). Amounts are carried as
//! decimal digit sequences ([`digits`]) and evaluated in fixed point, in
//! hundred-millionths of a unit, so no floating point is involved
//! anywhere.

pub mod amount;
pub mod cache;
pub mod convert;
pub mod digits;
pub mod format;
pub mod rate;
