use arch_toolkit::client::{
    archlinux_delay_ms, increase_archlinux_backoff, is_archlinux_url, reset_archlinux_backoff,
    retry_delay_ms, should_retry, ArchClientBuilder, ArchLinuxRateLimiter, RetryPolicy,
};
use std::time::Duration;

#[test]
fn test_retry_policy_default() {
    let policy = RetryPolicy::default();
    assert_eq!(policy.max_retries, 3);
    assert_eq!(policy.initial_delay_ms, 1000);
    assert_eq!(policy.max_delay_ms, 30_000);
    assert_eq!(policy.jitter_max_ms, 500);
    assert!(policy.enabled);
    assert!(policy.retry_search);
    assert!(policy.retry_info);
    assert!(policy.retry_comments);
    assert!(policy.retry_pkgbuild);
}

#[test]
fn test_retry_policy_clone() {
    let policy1 = RetryPolicy::default();
    let policy2 = policy1.clone();
    assert_eq!(policy1.max_retries, policy2.max_retries);
    assert_eq!(policy1.enabled, policy2.enabled);
}

#[test]
fn builder_max_retries_keeps_other_defaults() {
    let settings = ArchClientBuilder::new().max_retries(5).settings();
    assert_eq!(settings.retry_policy.max_retries, 5);
    assert!(settings.retry_policy.enabled);
    assert_eq!(settings.retry_policy.initial_delay_ms, 1000);
}

#[test]
fn builder_retry_enabled_and_operation() {
    let settings = ArchClientBuilder::new().retry_enabled(false).settings();
    assert!(!settings.retry_policy.enabled);
    let settings = ArchClientBuilder::new().retry_operation("pkgbuild", false).settings();
    assert!(!settings.retry_policy.retry_pkgbuild);
    assert!(settings.retry_policy.retry_search);
    let settings = ArchClientBuilder::new().retry_operation("unknown", false).settings();
    assert!(settings.retry_policy.retry_search && settings.retry_policy.retry_info);
}

#[test]
fn builder_defaults_and_overrides() {
    let settings = ArchClientBuilder::default().settings();
    assert_eq!(settings.timeout, Duration::from_secs(30));
    assert_eq!(settings.user_agent, "arch-toolkit/0.1.0");
    assert_eq!(settings.health_check_timeout, Duration::from_secs(5));
    assert!(settings.cache_config.is_none());
    assert_eq!(settings.validation_config.max_package_name_length, 127);
    let settings = ArchClientBuilder::new()
        .timeout(Duration::from_secs(45))
        .user_agent("my-app/2.0")
        .health_check_timeout(Duration::from_secs(10))
        .settings();
    assert_eq!(settings.timeout, Duration::from_secs(45));
    assert_eq!(settings.user_agent, "my-app/2.0");
    assert_eq!(settings.health_check_timeout, Duration::from_secs(10));
}

#[test]
fn retry_delays_double_and_cap() {
    let policy = RetryPolicy::default();
    assert_eq!(retry_delay_ms(&policy, 0, None), 1000);
    assert_eq!(retry_delay_ms(&policy, 1, None), 2000);
    assert_eq!(retry_delay_ms(&policy, 4, None), 16000);
    assert_eq!(retry_delay_ms(&policy, 5, None), 30000);
    assert_eq!(retry_delay_ms(&policy, 40, None), 30000);
    assert_eq!(retry_delay_ms(&policy, 0, Some(7)), 7000);
    assert_eq!(retry_delay_ms(&policy, 0, Some(90)), 30000);
}

#[test]
fn retries_stop_when_exhausted_or_disabled() {
    let policy = RetryPolicy::default();
    assert!(should_retry(&policy, 0, true));
    assert!(should_retry(&policy, 2, true));
    assert!(!should_retry(&policy, 3, true));
    assert!(!should_retry(&policy, 0, false));
    let disabled = RetryPolicy { enabled: false, ..RetryPolicy::default() };
    assert!(!should_retry(&disabled, 0, true));
}

#[test]
fn backoff_doubles_caps_and_resets() {
    let mut limiter = ArchLinuxRateLimiter::new();
    assert_eq!(limiter.current_backoff_ms, 500);
    increase_archlinux_backoff(&mut limiter, None);
    assert_eq!(limiter.current_backoff_ms, 1000);
    assert_eq!(limiter.consecutive_failures, 1);
    increase_archlinux_backoff(&mut limiter, Some(120));
    assert_eq!(limiter.current_backoff_ms, 60_000);
    increase_archlinux_backoff(&mut limiter, None);
    assert_eq!(limiter.current_backoff_ms, 60_000);
    assert_eq!(limiter.consecutive_failures, 3);
    reset_archlinux_backoff(&mut limiter);
    assert_eq!(limiter.current_backoff_ms, 500);
    assert_eq!(limiter.consecutive_failures, 0);
    increase_archlinux_backoff(&mut limiter, Some(u64::MAX));
    assert_eq!(limiter.current_backoff_ms, 60_000);
    increase_archlinux_backoff(&mut limiter, Some(2));
    assert_eq!(limiter.current_backoff_ms, 2_000);
}

#[test]
fn delay_is_remaining_backoff() {
    let limiter = ArchLinuxRateLimiter::new();
    assert_eq!(archlinux_delay_ms(&limiter, 200), 300);
    assert_eq!(archlinux_delay_ms(&limiter, 500), 0);
    assert_eq!(archlinux_delay_ms(&limiter, 9000), 0);
}

#[test]
fn archlinux_urls_are_recognised() {
    assert!(is_archlinux_url("https://archlinux.org/packages/search/json/"));
    assert!(is_archlinux_url("https://aur.archlinux.org/rpc"));
    assert!(!is_archlinux_url("https://example.com"));
}
