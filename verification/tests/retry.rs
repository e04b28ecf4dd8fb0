use arch_toolkit::client::{
    archlinux_paced_wait_ms, archlinux_wait_ms, extract_retry_after, is_retryable_error,
    next_retry_delay_ms, retry_delay_with_jitter_ms, ArchLinuxRateLimiter, RequestFailure,
    RetryPolicy, ARCHLINUX_JITTER_MAX_MS,
};

fn failure(status: Option<u16>) -> RequestFailure {
    RequestFailure {
        timeout: false,
        connect: false,
        request: false,
        status,
    }
}

#[test]
fn retryable_failures() {
    let mut timeout = failure(None);
    timeout.timeout = true;
    assert_eq!(is_retryable_error(&timeout), (true, None));
    let mut connect = failure(Some(404));
    connect.connect = true;
    assert_eq!(is_retryable_error(&connect), (true, None));
    assert_eq!(is_retryable_error(&failure(Some(503))), (true, None));
    assert_eq!(is_retryable_error(&failure(Some(429))), (true, None));
    assert_eq!(is_retryable_error(&failure(Some(404))), (false, None));
    assert_eq!(is_retryable_error(&failure(Some(301))), (false, None));
    assert_eq!(is_retryable_error(&failure(None)), (false, None));
}

#[test]
fn retry_after_headers() {
    assert_eq!(extract_retry_after(Some("120")), Some(120));
    assert_eq!(extract_retry_after(Some("Wed, 21 Oct 2015 07:28:00 GMT")), None);
    assert_eq!(extract_retry_after(None), None);
}

#[test]
fn retry_delays_add_jitter() {
    let policy = RetryPolicy::default();
    assert_eq!(retry_delay_with_jitter_ms(&policy, 0, None, 0), 1000);
    assert_eq!(retry_delay_with_jitter_ms(&policy, 2, None, 250), 4250);
    assert_eq!(retry_delay_with_jitter_ms(&policy, 10, None, 500), 30_500);
    assert_eq!(retry_delay_with_jitter_ms(&policy, 0, Some(7), 1), 7001);
    for attempt in 0..5 {
        let d = next_retry_delay_ms(&policy, attempt, None);
        let base = retry_delay_with_jitter_ms(&policy, attempt, None, 0);
        assert!(base <= d && d <= base + policy.jitter_max_ms);
    }
}

#[test]
fn paced_waits() {
    let limiter = ArchLinuxRateLimiter::new();
    assert_eq!(archlinux_wait_ms(&limiter, 600, 200), 0);
    assert_eq!(archlinux_wait_ms(&limiter, 100, 200), 600);
    assert_eq!(archlinux_paced_wait_ms(&limiter, 500), 0);
    let w = archlinux_paced_wait_ms(&limiter, 0);
    assert!(500 <= w && w <= 500 + ARCHLINUX_JITTER_MAX_MS);
}
