use ipserve::rate_limiter::{check_rate_limit, RateLimiter};

#[test]
fn thirty_requests_allowed_thirty_first_rejected() {
    let mut limiter = RateLimiter::new();
    let ip = String::from("10.0.0.1");
    for i in 0..30u64 {
        assert!(check_rate_limit(&mut limiter, &ip, i * 100));
    }
    assert!(!check_rate_limit(&mut limiter, &ip, 3000));
}

#[test]
fn rejection_occupies_no_slot() {
    let mut with_rejection = RateLimiter::new();
    let mut without_rejection = RateLimiter::new();
    let ip = String::from("10.0.0.2");
    for i in 0..30u64 {
        assert!(check_rate_limit(&mut with_rejection, &ip, i));
        assert!(check_rate_limit(&mut without_rejection, &ip, i));
    }
    // One extra, rejected, attempt on the first limiter only.
    assert!(!check_rate_limit(&mut with_rejection, &ip, 100));
    // Every later check sees identical verdicts on both limiters.
    for now in [1000u64, 30_000, 59_999, 60_030, 60_031, 120_000] {
        let a = check_rate_limit(&mut with_rejection, &ip, now);
        let b = check_rate_limit(&mut without_rejection, &ip, now);
        assert_eq!(a, b);
    }
}

#[test]
fn stale_oldest_entry_evicted_frees_slot() {
    let mut limiter = RateLimiter::new();
    let ip = String::from("10.0.0.3");
    assert!(check_rate_limit(&mut limiter, &ip, 0));
    for _ in 0..29 {
        assert!(check_rate_limit(&mut limiter, &ip, 1000));
    }
    // Full window: a 31st attempt inside it is rejected.
    assert!(!check_rate_limit(&mut limiter, &ip, 2000));
    // The entry recorded at time 0 has left the window; its slot is free.
    assert!(check_rate_limit(&mut limiter, &ip, 60_500));
    // The freed slot is taken again: the window is full once more.
    assert!(!check_rate_limit(&mut limiter, &ip, 60_600));
}

#[test]
fn distinct_keys_do_not_share_quota() {
    let mut limiter = RateLimiter::new();
    let a = String::from("10.0.0.4");
    let b = String::from("10.0.0.5");
    for i in 0..30u64 {
        assert!(check_rate_limit(&mut limiter, &a, i));
    }
    assert!(!check_rate_limit(&mut limiter, &a, 50));
    // Key A's exhaustion has no effect on key B.
    assert!(check_rate_limit(&mut limiter, &b, 50));
    // And B's acceptance changed nothing for A.
    assert!(!check_rate_limit(&mut limiter, &a, 51));
}

#[test]
fn fresh_key_starts_with_empty_history() {
    let mut limiter = RateLimiter::new();
    let ip = String::from("192.0.2.9");
    assert!(check_rate_limit(&mut limiter, &ip, 999_999));
}
