use satsval::cache::RateCache;

#[test]
fn empty_cache_shows_zero() {
    let c = RateCache::new();
    assert_eq!(c.current_rate(), 0);
    assert_eq!(c.lookup(0), None);
}

#[test]
fn fresh_rate_is_served_without_fetching() {
    // Two reads inside the TTL window: byte-identical answers, and the
    // fake feed is asked exactly once.
    let mut c = RateCache::new();
    let mut fetches = 0;
    let now0: u64 = 10_000;

    let first = match c.lookup(now0) {
        Some(r) => r,
        None => {
            fetches += 1;
            c.record_fetch(now0, Some(5_000_000_000_000));
            c.current_rate()
        }
    };
    let second = match c.lookup(now0 + 2_999) {
        Some(r) => r,
        None => {
            fetches += 1;
            c.record_fetch(now0 + 2_999, Some(6_000_000_000_000));
            c.current_rate()
        }
    };

    assert_eq!(fetches, 1);
    assert_eq!(first, 5_000_000_000_000);
    assert_eq!(first, second);
}

#[test]
fn expiry_triggers_exactly_one_fetch() {
    let mut c = RateCache::new();
    let mut fetches = 0;
    let now0: u64 = 10_000;

    if c.lookup(now0) == None {
        fetches += 1;
        c.record_fetch(now0, Some(5_000_000_000_000));
    }
    // TTL has passed: the next read must ask the feed once.
    let later = now0 + 3_000;
    if c.lookup(later) == None {
        fetches += 1;
        c.record_fetch(later, Some(6_000_000_000_000));
    }
    assert_eq!(fetches, 2);
    assert_eq!(c.lookup(later), Some(6_000_000_000_000));
    // And a read right after needs no further fetch.
    assert_eq!(c.lookup(later + 1), Some(6_000_000_000_000));
}

#[test]
fn failed_fetch_keeps_last_good_rate() {
    let mut c = RateCache::new();
    c.record_fetch(0, Some(5_000_000_000_000));
    c.record_fetch(4_000, None);
    assert_eq!(c.current_rate(), 5_000_000_000_000);
}

#[test]
fn zero_rate_counts_as_failed_fetch() {
    let mut c = RateCache::new();
    c.record_fetch(0, Some(5_000_000_000_000));
    c.record_fetch(4_000, Some(0));
    assert_eq!(c.current_rate(), 5_000_000_000_000);
}

#[test]
fn failed_fetch_on_empty_cache_shows_zero() {
    let mut c = RateCache::new();
    c.record_fetch(0, None);
    assert_eq!(c.current_rate(), 0);
    assert_eq!(c.lookup(0), None);
}

#[test]
fn stale_rate_is_still_the_display_rate() {
    // A reader that must show a number gets the stale rate, not zero.
    let mut c = RateCache::new();
    c.record_fetch(0, Some(5_000_000_000_000));
    assert_eq!(c.lookup(10_000), None);
    assert_eq!(c.current_rate(), 5_000_000_000_000);
}
