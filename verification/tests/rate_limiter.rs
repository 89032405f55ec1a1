use block_analysis::rate_limiter::TokenBucketLimiter;

const SECOND: u64 = 1_000_000_000;

#[test]
fn token_bucket_enforces_sustained_rate() {
    // Ten tokens per second, bursts of ten.
    let mut limiter = TokenBucketLimiter::new(10 * SECOND, 10 * SECOND, 0);
    let mut now: u64 = 0;
    let mut granted = 0u64;
    while now <= 2 * SECOND {
        match limiter.acquire(now) {
            None => granted += 1,
            Some(wait) => {
                assert_eq!(wait, SECOND / 10);
                now += wait;
            }
        }
    }
    assert_eq!(granted, 30);
}

#[test]
fn a_wait_is_long_enough_and_no_longer() {
    let mut limiter = TokenBucketLimiter::new(3 * SECOND, SECOND, 0);
    assert_eq!(limiter.acquire(0), None);
    let wait = limiter.acquire(0).unwrap();
    assert_eq!(wait, 333_333_334);
    assert_eq!(limiter.acquire(wait - 1), Some(1));
    assert_eq!(limiter.acquire(wait), None);
}

#[test]
fn a_bucket_never_holds_more_than_its_burst() {
    let mut limiter = TokenBucketLimiter::new(10 * SECOND, 2 * SECOND, 0);
    let later = 1000 * SECOND;
    assert_eq!(limiter.acquire(later), None);
    assert_eq!(limiter.acquire(later), None);
    assert!(limiter.acquire(later).is_some());
}

#[test]
fn a_clock_that_goes_back_refills_nothing() {
    let mut limiter = TokenBucketLimiter::new(SECOND, SECOND, 5 * SECOND);
    assert_eq!(limiter.acquire(5 * SECOND), None);
    assert_eq!(limiter.acquire(SECOND), Some(SECOND));
    assert_eq!(limiter.acquire(2 * SECOND), None);
}

#[test]
fn a_bucket_below_one_token_grants_nothing() {
    let mut limiter = TokenBucketLimiter::new(SECOND / 2, SECOND / 2, 0);
    assert_eq!(limiter.acquire(0), Some(SECOND));
    assert!(limiter.acquire(100 * SECOND).is_some());
}
