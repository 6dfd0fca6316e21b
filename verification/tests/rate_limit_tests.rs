use petaddr::rate_limit::{
    decide, prune, still_counts, sweep_record, RateLimiter, SWEEP_PERIOD_SECS,
};

#[test]
fn rate_window_correctness() {
    let mut limiter = RateLimiter::new(5, 60);
    for i in 0..5u64 {
        assert!(limiter.check_rate_limit_at("10.0.0.1", 1_000 + i * 10_000));
    }
    assert!(!limiter.check_rate_limit_at("10.0.0.1", 50_000));
    assert!(!limiter.check_rate_limit_at("10.0.0.1", 60_999));
    assert!(limiter.check_rate_limit_at("10.0.0.1", 41_000 + 60_000));
}

#[test]
fn window_frees_one_place_when_the_oldest_request_leaves() {
    let mut limiter = RateLimiter::new(5, 60);
    for i in 0..5u64 {
        assert!(limiter.check_rate_limit_at("k", i * 1_000));
    }
    assert!(!limiter.check_rate_limit_at("k", 59_999));
    assert!(limiter.check_rate_limit_at("k", 60_000));
    assert!(!limiter.check_rate_limit_at("k", 60_500));
    assert!(limiter.check_rate_limit_at("k", 61_000));
}

#[test]
fn denied_requests_are_not_counted() {
    let mut limiter = RateLimiter::new(2, 10);
    assert!(limiter.check_rate_limit_at("k", 0));
    assert!(limiter.check_rate_limit_at("k", 1));
    for now in 2..1_000u64 {
        assert!(!limiter.check_rate_limit_at("k", now));
    }
    assert!(limiter.check_rate_limit_at("k", 10_000));
    assert!(limiter.check_rate_limit_at("k", 10_001));
    assert!(!limiter.check_rate_limit_at("k", 10_002));
}

#[test]
fn clients_are_counted_apart() {
    let mut limiter = RateLimiter::new(1, 60);
    assert!(limiter.check_rate_limit_at("a", 0));
    assert!(limiter.check_rate_limit_at("b", 0));
    assert!(!limiter.check_rate_limit_at("a", 1));
    assert!(!limiter.check_rate_limit_at("b", 1));
    assert!(limiter.check_rate_limit_at("c", 1));
}

#[test]
fn limit_of_zero_admits_nobody() {
    let mut limiter = RateLimiter::new(0, 60);
    assert!(!limiter.check_rate_limit_at("k", 0));
    assert!(!limiter.check_rate_limit_at("k", 1_000_000));
}

#[test]
fn window_of_zero_counts_nothing() {
    let mut limiter = RateLimiter::new(1, 0);
    assert!(limiter.check_rate_limit_at("k", 5));
    assert!(limiter.check_rate_limit_at("k", 5));
    assert!(limiter.check_rate_limit_at("k", 6));
}

#[test]
fn sweep_keeps_what_still_counts() {
    let mut limiter = RateLimiter::new(1, 60);
    assert!(limiter.check_rate_limit_at("old", 0));
    assert!(limiter.check_rate_limit_at("new", 30_000));
    limiter.cleanup_at(60_000);
    assert!(limiter.check_rate_limit_at("old", 60_001));
    assert!(!limiter.check_rate_limit_at("new", 60_002));
}

#[test]
fn sweep_now_and_check_now_use_the_clock() {
    let mut limiter = RateLimiter::new(2, 3_600);
    assert!(limiter.check_rate_limit("k"));
    limiter.cleanup();
    assert!(limiter.check_rate_limit("k"));
    assert!(!limiter.check_rate_limit("k"));
    let a = limiter.now();
    let b = limiter.now();
    assert!(a <= b);
    assert!(b < 60_000);
}

#[test]
fn still_counts_is_strict_at_the_window() {
    assert!(still_counts(0, 59_999, 60));
    assert!(!still_counts(0, 60_000, 60));
    assert!(!still_counts(0, 60_001, 60));
    assert!(still_counts(100, 100, 60));
    assert!(!still_counts(100, 100, 0));
    assert!(still_counts(101, 100, 0));
    assert!(still_counts(0, u64::MAX, u64::MAX));
    assert!(!still_counts(0, u64::MAX, 1));
}

#[test]
fn prune_keeps_the_order() {
    let mut times = vec![0u64, 50_000, 10_000, 70_000, 61_000];
    prune(&mut times, 70_000, 60);
    assert_eq!(times, vec![50_000, 70_000, 61_000]);
}

#[test]
fn sweep_record_tells_whether_anything_is_left() {
    let mut times = vec![0u64, 1];
    assert!(sweep_record(&mut times, 59_000, 60));
    assert_eq!(times, vec![0, 1]);
    assert!(!sweep_record(&mut times, 60_001, 60));
    assert!(times.is_empty());
}

#[test]
fn decide_records_admitted_requests_only() {
    let mut times = vec![0u64];
    assert!(decide(&mut times, 5, 60, 2));
    assert_eq!(times, vec![0, 5]);
    assert!(!decide(&mut times, 6, 60, 2));
    assert_eq!(times, vec![0, 5]);
    assert!(decide(&mut times, 60_000, 60, 2));
    assert_eq!(times, vec![5, 60_000]);
}

#[test]
fn sweep_period_is_a_minute() {
    assert_eq!(SWEEP_PERIOD_SECS, 60);
}
