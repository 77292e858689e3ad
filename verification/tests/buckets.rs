use multi_bucket::bucket::Bucket;
use multi_bucket::rate::Rate;
use multi_bucket::Buckets;
use multi_bucket::Error;

/// The registry returns the right number of available tokens.
#[test]
fn simple() {
    let mut buckets = Buckets::new(1, 1000, 100, 5000);

    // Used bucket
    buckets.try_acquire(1, 30).unwrap();
    assert_eq!(buckets.available(1), 70);
    assert!(matches!(buckets.try_acquire(1, 90), Err(_)));

    // New bucket
    assert_eq!(buckets.available(2), 100);
}

/// A key never seen before starts at full capacity.
#[test]
fn fresh_key_starts_full() {
    let mut buckets = Buckets::new(3, 500, 42, 0);
    assert_eq!(buckets.available_at(5, 0), 42);
    assert_eq!(buckets.len(), 1);
}

/// Withdrawing more than is available fails with NotEnoughTokens and leaves
/// the count unchanged.
#[test]
fn acquire_more_than_available_fails_unchanged() {
    let mut b = Bucket::new(5, 1000);
    assert_eq!(b.try_acquire(6), Err(Error::NotEnoughTokens));
    assert_eq!(b.available(), 5);
    assert_eq!(b.refill_at_ms, 1000);
}

/// A successful withdrawal subtracts exactly the requested amount.
#[test]
fn acquire_success_subtracts() {
    let mut b = Bucket::new(5, 1000);
    assert_eq!(b.try_acquire(3), Ok(3));
    assert_eq!(b.available(), 2);
    assert_eq!(b.try_acquire(2), Ok(2));
    assert_eq!(b.available(), 0);
    assert_eq!(b.try_acquire(1), Err(Error::NotEnoughTokens));
}

/// Tokens come back in proportion to the number of whole intervals due.
#[test]
fn refill_proportional_exact() {
    let rate = Rate::new(7, 1000, 100);
    // Two intervals due: one for reaching 1000, one whole interval since.
    let mut b = Bucket::new(10, 1000);
    b.refill(2999, &rate);
    assert_eq!(b.available(), 24);
    assert_eq!(b.refill_at_ms, 3000);
    // Exactly one interval due.
    let mut c = Bucket::new(0, 500);
    c.refill(500, &rate);
    assert_eq!(c.available(), 7);
    assert_eq!(c.refill_at_ms, 1500);
}

/// A refill never pushes the count past the capacity.
#[test]
fn refill_clamps_at_capacity() {
    let rate = Rate::new(10, 100, 25);
    let mut b = Bucket::new(20, 100);
    b.refill(100, &rate);
    assert_eq!(b.available(), 25);
    let mut c = Bucket::new(0, 100);
    c.refill(1_000_000, &rate);
    assert_eq!(c.available(), 25);
}

/// Before the scheduled instant, a refill changes nothing.
#[test]
fn refill_not_due_is_noop() {
    let rate = Rate::new(7, 1000, 100);
    let mut b = Bucket::new(10, 1000);
    b.refill(999, &rate);
    assert_eq!(b.available(), 10);
    assert_eq!(b.refill_at_ms, 1000);
}

/// The full-refill instant counts one interval per refill still needed.
#[test]
fn full_at_formula() {
    let rate = Rate::new(7, 500, 100);
    let b = Bucket::new(40, 1000);
    // 60 tokens short, 9 refills of 7 needed, 9 intervals of 500 ms.
    assert_eq!(b.full_at(&rate), 1000 + 9 * 500);
}

/// A full bucket is full at its next scheduled refill instant already.
#[test]
fn full_at_of_full_bucket() {
    let rate = Rate::new(7, 500, 100);
    let b = Bucket::new(100, 1234);
    assert_eq!(b.full_at(&rate), 1234);
}

/// An entry is evicted once elapsed time passes its full-refill instant plus
/// the buffer, and the next access for its key starts a brand-new full bucket.
#[test]
fn eviction_after_grace() {
    let mut buckets = Buckets::new(100, 1, 100, 0);

    assert_eq!(buckets.try_acquire_at(1, 1, 0), Ok(1));
    assert_eq!(buckets.try_acquire_at(2, 1, 0), Ok(1));
    assert_eq!(buckets.len(), 2);
    // Both buckets are full again at 2 ms; past that plus the zero buffer,
    // an access sweeps them out and key 2 starts over at full capacity.
    assert_eq!(buckets.try_acquire_at(2, 1, 3), Ok(1));
    assert_eq!(buckets.len(), 1);
    assert_eq!(buckets.available_at(2, 3), 99);
}

/// Within the grace buffer an idle entry survives the sweep.
#[test]
fn eviction_respects_buffer() {
    let mut buckets = Buckets::new(100, 1, 100, 10);

    assert_eq!(buckets.try_acquire_at(1, 1, 0), Ok(1));
    // Full again at 2 ms, but the 10 ms buffer keeps it until past 12 ms.
    assert_eq!(buckets.try_acquire_at(2, 1, 12), Ok(1));
    assert_eq!(buckets.len(), 2);
    assert_eq!(buckets.try_acquire_at(2, 1, 13), Ok(1));
    assert_eq!(buckets.len(), 1);
}

/// Along a whole sequence of withdrawals the count stays within 0..=max.
#[test]
fn acquire_sequence_stays_bounded() {
    let mut buckets = Buckets::new(5, 1000, 50, 100_000);
    let mut granted: u64 = 0;
    for _ in 0..20 {
        if let Ok(n) = buckets.try_acquire_at(1, 7, 0) {
            granted += n;
        }
    }
    let left = buckets.available_at(1, 0);
    assert!(left <= 50);
    assert_eq!(granted + left, 50);
    assert_eq!(buckets.try_acquire_at(1, 7, 0), Err(Error::NotEnoughTokens));
}

/// len and is_empty report the live entries.
#[test]
fn registry_counts() {
    let mut buckets = Buckets::new(1, 1000, 100, 5000);
    assert!(buckets.is_empty());
    assert_eq!(buckets.len(), 0);
    buckets.try_acquire_at(1, 1, 0).unwrap();
    buckets.try_acquire_at(2, 1, 0).unwrap();
    buckets.try_acquire_at(1, 1, 0).unwrap();
    assert!(!buckets.is_empty());
    assert_eq!(buckets.len(), 2);
}

/// available reports the stored count as-is; only an acquire refills first.
#[test]
fn available_reports_stale_count() {
    let mut buckets = Buckets::new(1, 1000, 100, 1_000_000);
    assert_eq!(buckets.try_acquire_at(1, 30, 0), Ok(30));
    // Ten intervals later the raw count is still the old one...
    assert_eq!(buckets.available_at(1, 10_000), 70);
    // ...but an acquire refills first: ten tokens are due, then one is taken.
    assert_eq!(buckets.try_acquire_at(1, 1, 10_000), Ok(1));
    assert_eq!(buckets.available_at(1, 10_000), 79);
}
