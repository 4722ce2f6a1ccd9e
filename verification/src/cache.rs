//! The exchange-rate cache.
//!
//! A single slot holds the last good BTC→USD rate and the time it was
//! stored. A reading within the time-to-live gets the cached rate; an older
//! cache asks its caller for a fresh fetch, whose outcome is then recorded.
//! A failed fetch never erases the last good rate; a rate of zero counts as
//! failed, so a reader sees zero only while no rate was ever stored. The
//! caller owns the clock (milliseconds, monotone in practice) and the
//! network; this module owns every decision.

use vstd::prelude::*;

verus! {

/// How long a stored rate stays fresh, in milliseconds.
pub const RATE_TTL_MS: u64 = 3000;

/// One cached exchange rate and the time it was stored.
pub struct RateCache {
    /// Whether a rate was ever stored.
    pub has_rate: bool,
    /// The last good rate, in USD hundred-millionths per BTC.
    pub rate_units: u64,
    /// The caller's clock reading when the rate was stored, in
    /// milliseconds.
    pub fetched_at_ms: u64,
}

impl RateCache {
    /// Whether the stored rate is still fresh at the given time. A clock
    /// that moved backwards counts as fresh: the stored rate is younger
    /// than the time-to-live either way.
    pub open spec fn fresh_at(self, now_ms: u64) -> bool {
        self.has_rate && (now_ms as int) < self.fetched_at_ms + RATE_TTL_MS
    }

    /// What a read at the given time answers: the stored rate while fresh,
    /// nothing — fetch first — otherwise.
    pub open spec fn lookup_spec(self, now_ms: u64) -> Option<u64> {
        if self.fresh_at(now_ms) {
            Some(self.rate_units)
        } else {
            None
        }
    }

    /// The cache after a fetch outcome is recorded: a positive rate is
    /// stored with its time; a failed fetch — or a zero rate, which is no
    /// usable rate — changes nothing.
    pub open spec fn after_fetch(self, now_ms: u64, outcome: Option<u64>) -> RateCache {
        match outcome {
            Some(r) => if r > 0 {
                RateCache { has_rate: true, rate_units: r, fetched_at_ms: now_ms }
            } else {
                self
            },
            None => self,
        }
    }

    /// The rate shown to callers that need a number in any case: the last
    /// good rate, or zero while none was ever stored.
    pub open spec fn display_rate(self) -> u64 {
        if self.has_rate {
            self.rate_units
        } else {
            0
        }
    }

    /// An empty cache: no rate stored yet.
    pub fn new() -> (c: RateCache)
        ensures
            !c.has_rate,
            c.rate_units == 0,
            c.fetched_at_ms == 0,
            c.display_rate() == 0,
    {
        RateCache { has_rate: false, rate_units: 0, fetched_at_ms: 0 }
    }

    /// Reads the cache at the given time: the stored rate while fresh,
    /// `None` when the caller must fetch and record first.
    pub fn lookup(&self, now_ms: u64) -> (r: Option<u64>)
        ensures
            r == self.lookup_spec(now_ms),
    {
        if self.has_rate {
            let fresh = if now_ms <= self.fetched_at_ms {
                true
            } else {
                now_ms - self.fetched_at_ms < RATE_TTL_MS
            };
            if fresh {
                Some(self.rate_units)
            } else {
                None
            }
        } else {
            None
        }
    }

    /// Records a fetch outcome at the given time: a positive rate becomes
    /// the stored rate, anything else leaves the cache exactly as it was.
    pub fn record_fetch(&mut self, now_ms: u64, outcome: Option<u64>)
        ensures
            *final(self) == old(self).after_fetch(now_ms, outcome),
    {
        match outcome {
            Some(r) => if r > 0 {
                self.has_rate = true;
                self.rate_units = r;
                self.fetched_at_ms = now_ms;
            },
            None => (),
        }
    }

    /// The rate for display: the last good rate, or zero while none was
    /// ever stored.
    pub fn current_rate(&self) -> (r: u64)
        ensures
            r == self.display_rate(),
    {
        if self.has_rate {
            self.rate_units
        } else {
            0
        }
    }
}

/// Within the time-to-live window of a stored rate, every read gives back
/// that same rate and asks for no fetch: two reads inside the window are
/// identical.
pub proof fn lemma_reads_identical_within_ttl(c: RateCache, t: u64, r: u64, now1: u64, now2: u64)
    requires
        r > 0,
        (now1 as int) < t + RATE_TTL_MS,
        (now2 as int) < t + RATE_TTL_MS,
    ensures
        c.after_fetch(t, Some(r)).lookup_spec(now1) == Some(r),
        c.after_fetch(t, Some(r)).lookup_spec(now1) == c.after_fetch(t, Some(r)).lookup_spec(now2),
{
}

/// Once the time-to-live has passed, a read answers nothing — exactly one
/// fetch is called for — and recording its outcome leaves the cache either
/// as it was (failure) or holding the new rate (success), never anything
/// in between.
pub proof fn lemma_expiry_forces_one_fetch(c: RateCache, now: u64, r: u64)
    requires
        !c.fresh_at(now),
        r > 0,
    ensures
        c.lookup_spec(now) is None,
        c.after_fetch(now, Some(r)).lookup_spec(now) == Some(r),
        c.after_fetch(now, None) == c,
        c.after_fetch(now, None).display_rate() == c.display_rate(),
{
}

} // verus!
