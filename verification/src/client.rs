//! Client configuration and the decisions of its request pacing: retry policy, builder
//! settings, rate-limit backoff and retry delays.
use crate::aur::validation::ValidationConfig;
use crate::cache::config::{duration_from_secs, secs, CacheConfig};
use crate::text::{contains, contains_str, to_chars};
use core::time::Duration;
use rand::Rng;
use vstd::prelude::*;

verus! {

/// How failed requests are retried.
#[derive(Debug, Clone, Copy)]
pub struct RetryPolicy {
    /// Retries after the first attempt.
    pub max_retries: u32,
    /// Delay before the first retry, in milliseconds; it doubles with each retry.
    pub initial_delay_ms: u64,
    /// Largest delay, in milliseconds.
    pub max_delay_ms: u64,
    /// Largest random delay added to each retry, in milliseconds.
    pub jitter_max_ms: u64,
    /// Whether failed requests are retried at all.
    pub enabled: bool,
    /// Retry searches.
    pub retry_search: bool,
    /// Retry package-information requests.
    pub retry_info: bool,
    /// Retry comment requests.
    pub retry_comments: bool,
    /// Retry `PKGBUILD` requests.
    pub retry_pkgbuild: bool,
}

/// The default retry policy: up to 3 retries, from 1 s doubling up to 30 s, with up to 0.5 s of
/// jitter, for every operation.
pub open spec fn default_retry_policy(p: RetryPolicy) -> bool {
    &&& p.max_retries == 3
    &&& p.initial_delay_ms == 1000
    &&& p.max_delay_ms == 30_000
    &&& p.jitter_max_ms == 500
    &&& p.enabled
    &&& p.retry_search
    &&& p.retry_info
    &&& p.retry_comments
    &&& p.retry_pkgbuild
}

impl Default for RetryPolicy {
    fn default() -> (r: RetryPolicy)
        ensures
            default_retry_policy(r),
    {
        RetryPolicy {
            max_retries: 3,
            initial_delay_ms: 1000,
            max_delay_ms: 30_000,
            jitter_max_ms: 500,
            enabled: true,
            retry_search: true,
            retry_info: true,
            retry_comments: true,
            retry_pkgbuild: true,
        }
    }
}

/// Delay before retry number `attempt + 1` (without jitter), in milliseconds: the server's
/// `Retry-After` seconds when given, else the initial delay doubled `attempt` times (at most 20),
/// in both cases at most the policy's largest delay.
pub open spec fn retry_base_delay(p: RetryPolicy, attempt: u32, retry_after: Option<u64>) -> int {
    match retry_after {
        Some(s) => min_int(s * 1000, p.max_delay_ms as int),
        None => min_int(
            p.initial_delay_ms * vstd::arithmetic::power2::pow2(min_int(attempt as int, 20) as nat),
            p.max_delay_ms as int,
        ),
    }
}

/// The smaller of two integers.
pub open spec fn min_int(a: int, b: int) -> int {
    if a < b {
        a
    } else {
        b
    }
}

/// Delay before the next retry, without jitter.
pub fn retry_delay_ms(policy: &RetryPolicy, attempt: u32, retry_after: Option<u64>) -> (r: u64)
    requires
        match retry_after {
            Some(s) => s * 1000 <= u64::MAX,
            None => policy.initial_delay_ms * vstd::arithmetic::power2::pow2(
                min_int(attempt as int, 20) as nat,
            ) <= u64::MAX,
        },
    ensures
        r == retry_base_delay(*policy, attempt, retry_after),
{
    match retry_after {
        Some(s) => {
            let d = s * 1000;
            if d < policy.max_delay_ms {
                d
            } else {
                policy.max_delay_ms
            }
        },
        None => {
            let e: u32 = if attempt < 20 {
                attempt
            } else {
                20
            };
            let mut factor: u64 = 1;
            let mut i: u32 = 0;
            proof {
                vstd::arithmetic::power2::lemma2_to64();
            }
            while i < e
                invariant
                    i <= e <= 20,
                    factor == vstd::arithmetic::power2::pow2(i as nat),
                decreases e - i,
            {
                proof {
                    vstd::arithmetic::power2::lemma_pow2_unfold((i + 1) as nat);
                    vstd::arithmetic::power2::lemma_pow2_strictly_increases(i as nat, 20);
                    vstd::arithmetic::power2::lemma2_to64();
                }
                factor = factor * 2;
                i += 1;
            }
            assert(e as int == min_int(attempt as int, 20));
            let d = policy.initial_delay_ms * factor;
            if d < policy.max_delay_ms {
                d
            } else {
                policy.max_delay_ms
            }
        },
    }
}

/// Whether a failed attempt numbered `attempt` (from 0) is followed by another: retries are
/// enabled, the error is retryable, and retries remain.
pub fn should_retry(policy: &RetryPolicy, attempt: u32, retryable: bool) -> (r: bool)
    ensures
        r == (policy.enabled && retryable && attempt < policy.max_retries),
{
    policy.enabled && retryable && attempt < policy.max_retries
}

/// Pacing state of requests to archlinux.org: the minimum delay between requests and the
/// number of consecutive failures.
#[derive(Debug, Clone, Copy)]
pub struct ArchLinuxRateLimiter {
    /// Minimum delay between requests, in milliseconds.
    pub current_backoff_ms: u64,
    /// Failures since the last success.
    pub consecutive_failures: u32,
}

/// Base delay between requests to archlinux.org, in milliseconds.
pub const ARCHLINUX_BASE_DELAY_MS: u64 = 500;

/// Largest delay between requests to archlinux.org, in milliseconds.
pub const ARCHLINUX_MAX_BACKOFF_MS: u64 = 60_000;

impl ArchLinuxRateLimiter {
    /// The delay never exceeds the maximum backoff.
    pub open spec fn wf(self) -> bool {
        self.current_backoff_ms <= ARCHLINUX_MAX_BACKOFF_MS
    }

    /// The initial state: base delay, no failures.
    pub fn new() -> (r: ArchLinuxRateLimiter)
        ensures
            r.wf(),
            r.current_backoff_ms == ARCHLINUX_BASE_DELAY_MS,
            r.consecutive_failures == 0,
    {
        ArchLinuxRateLimiter { current_backoff_ms: ARCHLINUX_BASE_DELAY_MS, consecutive_failures: 0 }
    }
}

/// Records a failed (rate-limited) request: one more failure, and a delay of the server's
/// `Retry-After` seconds when given (however large), else twice the current delay; at most the
/// maximum backoff.
pub fn increase_archlinux_backoff(limiter: &mut ArchLinuxRateLimiter, retry_after_seconds: Option<u64>)
    requires
        old(limiter).wf(),
        old(limiter).consecutive_failures < u32::MAX,
    ensures
        final(limiter).wf(),
        final(limiter).consecutive_failures == old(limiter).consecutive_failures + 1,
        final(limiter).current_backoff_ms == min_int(
            match retry_after_seconds {
                Some(s) => s * 1000,
                None => old(limiter).current_backoff_ms * 2,
            },
            ARCHLINUX_MAX_BACKOFF_MS as int,
        ),
{
    limiter.consecutive_failures = limiter.consecutive_failures + 1;
    let next = match retry_after_seconds {
        Some(s) => match s.checked_mul(1000) {
            Some(ms) => ms,
            None => ARCHLINUX_MAX_BACKOFF_MS,
        },
        None => limiter.current_backoff_ms * 2,
    };
    limiter.current_backoff_ms = if next < ARCHLINUX_MAX_BACKOFF_MS {
        next
    } else {
        ARCHLINUX_MAX_BACKOFF_MS
    };
}

/// Records a successful request: back to the base delay and no failures.
pub fn reset_archlinux_backoff(limiter: &mut ArchLinuxRateLimiter)
    ensures
        final(limiter).wf(),
        final(limiter).current_backoff_ms == ARCHLINUX_BASE_DELAY_MS,
        final(limiter).consecutive_failures == 0,
{
    limiter.current_backoff_ms = ARCHLINUX_BASE_DELAY_MS;
    limiter.consecutive_failures = 0;
}

/// Milliseconds still to wait before the next request, `elapsed_ms` after the previous one.
pub fn archlinux_delay_ms(limiter: &ArchLinuxRateLimiter, elapsed_ms: u64) -> (r: u64)
    ensures
        r == (if elapsed_ms < limiter.current_backoff_ms {
            limiter.current_backoff_ms - elapsed_ms
        } else {
            0
        }),
{
    if elapsed_ms < limiter.current_backoff_ms {
        limiter.current_backoff_ms - elapsed_ms
    } else {
        0
    }
}

/// Whether a URL points to archlinux.org (and is subject to its pacing).
pub fn is_archlinux_url(url: &str) -> (r: bool)
    ensures
        r == contains(url@, "archlinux.org"@),
{
    let v = to_chars(url);
    contains_str(v.as_slice(), "archlinux.org")
}

/// Builds an AUR client configuration, one option at a time; unset options take defaults.
#[derive(Debug, Clone)]
pub struct ArchClientBuilder {
    /// Request timeout.
    pub timeout: Option<Duration>,
    /// User agent.
    pub user_agent: Option<String>,
    /// Retry policy.
    pub retry_policy: Option<RetryPolicy>,
    /// Cache configuration; no caching when unset.
    pub cache_config: Option<CacheConfig>,
    /// Input validation limits.
    pub validation_config: Option<ValidationConfig>,
    /// Timeout of health checks.
    pub health_check_timeout: Option<Duration>,
}

/// The retry policy a builder holds, or the default one.
pub open spec fn policy_or_default(p: Option<RetryPolicy>, q: RetryPolicy) -> bool {
    match p {
        Some(x) => q == x,
        None => default_retry_policy(q),
    }
}

impl ArchClientBuilder {
    /// A builder with no option set.
    pub fn new() -> (r: ArchClientBuilder)
        ensures
            r.timeout is None,
            r.user_agent is None,
            r.retry_policy is None,
            r.cache_config is None,
            r.validation_config is None,
            r.health_check_timeout is None,
    {
        ArchClientBuilder {
            timeout: None,
            user_agent: None,
            retry_policy: None,
            cache_config: None,
            validation_config: None,
            health_check_timeout: None,
        }
    }

    /// Sets the request timeout.
    pub fn timeout(self, timeout: Duration) -> (r: ArchClientBuilder)
        ensures
            r == (ArchClientBuilder { timeout: Some(timeout), ..self }),
    {
        ArchClientBuilder { timeout: Some(timeout), ..self }
    }

    /// Sets the user agent.
    pub fn user_agent(self, user_agent: &str) -> (r: ArchClientBuilder)
        ensures
            r.user_agent matches Some(u) && u@ == user_agent@,
            r.timeout == self.timeout,
            r.retry_policy == self.retry_policy,
            r.cache_config == self.cache_config,
            r.validation_config == self.validation_config,
            r.health_check_timeout == self.health_check_timeout,
    {
        ArchClientBuilder { user_agent: Some(user_agent.to_owned()), ..self }
    }

    /// Sets the retry policy.
    pub fn retry_policy(self, policy: RetryPolicy) -> (r: ArchClientBuilder)
        ensures
            r == (ArchClientBuilder { retry_policy: Some(policy), ..self }),
    {
        ArchClientBuilder { retry_policy: Some(policy), ..self }
    }

    /// The policy held, or the default one.
    fn policy(&self) -> (p: RetryPolicy)
        ensures
            policy_or_default(self.retry_policy, p),
    {
        match self.retry_policy {
            Some(p) => p,
            None => RetryPolicy::default(),
        }
    }

    /// Sets the number of retries of the policy held (or of the default policy).
    pub fn max_retries(self, max_retries: u32) -> (r: ArchClientBuilder)
        ensures
            r.retry_policy matches Some(p) && exists|q: RetryPolicy|
                policy_or_default(self.retry_policy, q) && p == (RetryPolicy {
                    max_retries: max_retries,
                    ..q
                }),
            r == (ArchClientBuilder { retry_policy: r.retry_policy, ..self }),
    {
        let mut p = self.policy();
        let ghost q = p;
        p.max_retries = max_retries;
        ArchClientBuilder { retry_policy: Some(p), ..self }
    }

    /// Enables or disables retries in the policy held (or in the default policy).
    pub fn retry_enabled(self, enabled: bool) -> (r: ArchClientBuilder)
        ensures
            r.retry_policy matches Some(p) && exists|q: RetryPolicy|
                policy_or_default(self.retry_policy, q) && p == (RetryPolicy { enabled: enabled, ..q }),
            r == (ArchClientBuilder { retry_policy: r.retry_policy, ..self }),
    {
        let mut p = self.policy();
        let ghost q = p;
        p.enabled = enabled;
        ArchClientBuilder { retry_policy: Some(p), ..self }
    }

    /// Enables or disables retries of one operation (`search`, `info`, `comments` or
    /// `pkgbuild`; other names change nothing) in the policy held (or in the default policy).
    pub fn retry_operation(self, operation: &str, enabled: bool) -> (r: ArchClientBuilder)
        ensures
            r.retry_policy matches Some(p) && exists|q: RetryPolicy|
                policy_or_default(self.retry_policy, q) && p == (if operation@ == "search"@ {
                    RetryPolicy { retry_search: enabled, ..q }
                } else if operation@ == "info"@ {
                    RetryPolicy { retry_info: enabled, ..q }
                } else if operation@ == "comments"@ {
                    RetryPolicy { retry_comments: enabled, ..q }
                } else if operation@ == "pkgbuild"@ {
                    RetryPolicy { retry_pkgbuild: enabled, ..q }
                } else {
                    q
                }),
            r == (ArchClientBuilder { retry_policy: r.retry_policy, ..self }),
    {
        let mut p = self.policy();
        let ghost q = p;
        let op = to_chars(operation);
        if crate::text::chars_eq_str(op.as_slice(), "search") {
            p.retry_search = enabled;
        } else if crate::text::chars_eq_str(op.as_slice(), "info") {
            p.retry_info = enabled;
        } else if crate::text::chars_eq_str(op.as_slice(), "comments") {
            p.retry_comments = enabled;
        } else if crate::text::chars_eq_str(op.as_slice(), "pkgbuild") {
            p.retry_pkgbuild = enabled;
        }
        ArchClientBuilder { retry_policy: Some(p), ..self }
    }

    /// Sets the cache configuration.
    pub fn cache_config(self, config: CacheConfig) -> (r: ArchClientBuilder)
        ensures
            r == (ArchClientBuilder { cache_config: Some(config), ..self }),
    {
        ArchClientBuilder { cache_config: Some(config), ..self }
    }

    /// Sets the validation limits.
    pub fn validation_config(self, config: ValidationConfig) -> (r: ArchClientBuilder)
        ensures
            r == (ArchClientBuilder { validation_config: Some(config), ..self }),
    {
        ArchClientBuilder { validation_config: Some(config), ..self }
    }

    /// Sets the timeout of health checks.
    pub fn health_check_timeout(self, timeout: Duration) -> (r: ArchClientBuilder)
        ensures
            r == (ArchClientBuilder { health_check_timeout: Some(timeout), ..self }),
    {
        ArchClientBuilder { health_check_timeout: Some(timeout), ..self }
    }

    /// The settings a client is built with: each option held, else its default (a timeout of
    /// 30 s, the user agent `arch-toolkit/0.1.0`, the default retry policy and validation limits,
    /// a health-check timeout of 5 s, no caching).
    pub fn settings(self) -> (r: ClientSettings)
        ensures
            r.timeout == (match self.timeout {
                Some(t) => t,
                None => secs(30),
            }),
            r.user_agent@ == (match self.user_agent {
                Some(u) => u@,
                None => "arch-toolkit/0.1.0"@,
            }),
            policy_or_default(self.retry_policy, r.retry_policy),
            r.cache_config == self.cache_config,
            match self.validation_config {
                Some(v) => r.validation_config == v,
                None => r.validation_config.strict_empty && r.validation_config.max_query_length
                    == 256 && r.validation_config.max_package_name_length == 127,
            },
            r.health_check_timeout == (match self.health_check_timeout {
                Some(t) => t,
                None => secs(5),
            }),
    {
        let retry_policy = self.policy();
        let timeout = match self.timeout {
            Some(t) => t,
            None => duration_from_secs(30),
        };
        let user_agent = match self.user_agent {
            Some(u) => u,
            None => "arch-toolkit/0.1.0".to_owned(),
        };
        let validation_config = match self.validation_config {
            Some(v) => v,
            None => ValidationConfig::default(),
        };
        let health_check_timeout = match self.health_check_timeout {
            Some(t) => t,
            None => duration_from_secs(5),
        };
        ClientSettings {
            timeout,
            user_agent,
            retry_policy,
            cache_config: self.cache_config,
            validation_config,
            health_check_timeout,
        }
    }
}

impl Default for ArchClientBuilder {
    fn default() -> (r: ArchClientBuilder)
        ensures
            r.timeout is None,
            r.user_agent is None,
            r.retry_policy is None,
            r.cache_config is None,
            r.validation_config is None,
            r.health_check_timeout is None,
    {
        ArchClientBuilder::new()
    }
}

/// The complete settings of a client.
#[derive(Debug, Clone)]
pub struct ClientSettings {
    /// Request timeout.
    pub timeout: Duration,
    /// User agent.
    pub user_agent: String,
    /// Retry policy.
    pub retry_policy: RetryPolicy,
    /// Cache configuration; no caching when `None`.
    pub cache_config: Option<CacheConfig>,
    /// Input validation limits.
    pub validation_config: ValidationConfig,
    /// Timeout of health checks.
    pub health_check_timeout: Duration,
}

/// What a failed request reports about itself: a timeout, a connection failure, a failure
/// to build or send the request, and the HTTP status, if one came back.
#[derive(Clone, Copy, Debug, PartialEq, Eq)]
pub struct RequestFailure {
    /// The request timed out.
    pub timeout: bool,
    /// The connection failed.
    pub connect: bool,
    /// Building or sending the request failed.
    pub request: bool,
    /// HTTP status of the response, if any.
    pub status: Option<u16>,
}

/// Whether a failure is worth retrying: timeouts, connection and request failures, server
/// errors (5xx) and "too many requests" (429); other statuses and failures are not.
pub open spec fn retryable(f: RequestFailure) -> bool {
    f.timeout || f.connect || f.request || match f.status {
        Some(code) => (500 <= code < 600) || code == 429,
        None => false,
    }
}

/// Whether a failed request should be retried; the delay requested by the server is read from
/// the response (`extract_retry_after`), never from the failure, so it is always `None` here.
pub fn is_retryable_error(error: &RequestFailure) -> (r: (bool, Option<u64>))
    ensures
        r == (retryable(*error), None::<u64>),
{
    if error.timeout {
        return (true, None);
    }
    if error.connect || error.request {
        return (true, None);
    }
    if let Some(code) = error.status {
        if 500 <= code && code < 600 {
            return (true, None);
        }
        if code == 429 {
            return (true, None);
        }
        if 400 <= code && code < 500 {
            return (false, None);
        }
        if 300 <= code && code < 400 {
            return (false, None);
        }
    }
    (false, None)
}

/// Seconds to wait according to a `Retry-After` header value: its decimal number of seconds;
/// nothing when the header is absent or not such a number.
pub fn extract_retry_after(header: Option<&str>) -> (r: Option<u64>)
    ensures
        r == (match header {
            Some(h) => crate::text::parse_u64(h@),
            None => None,
        }),
{
    match header {
        Some(h) => {
            let c = crate::text::to_chars(h);
            crate::text::parse_u64_chars(c.as_slice())
        },
        None => None,
    }
}

/// Largest random delay added to a paced request to archlinux.org, in milliseconds.
pub const ARCHLINUX_JITTER_MAX_MS: u64 = 500;

/// A random number of milliseconds from 0 to `max` inclusive
/// (`rand::rng().random_range(0..=max)`).
#[verifier::external_body]
fn random_jitter_ms(max: u64) -> (r: u64)
    ensures
        r <= max,
{
    rand::rng().random_range(0..=max)
}

/// Delay before a retry with a given jitter: the base delay (`retry_delay_ms`) plus
/// `jitter_ms`.
pub fn retry_delay_with_jitter_ms(
    policy: &RetryPolicy,
    attempt: u32,
    retry_after: Option<u64>,
    jitter_ms: u64,
) -> (r: u64)
    requires
        match retry_after {
            Some(s) => s * 1000 <= u64::MAX,
            None => policy.initial_delay_ms * vstd::arithmetic::power2::pow2(
                min_int(attempt as int, 20) as nat,
            ) <= u64::MAX,
        },
        jitter_ms <= policy.jitter_max_ms,
        policy.max_delay_ms + policy.jitter_max_ms <= u64::MAX,
    ensures
        r == retry_base_delay(*policy, attempt, retry_after) + jitter_ms,
{
    let base = retry_delay_ms(policy, attempt, retry_after);
    base + jitter_ms
}

/// Delay before a retry: the base delay plus a random jitter of at most `jitter_max_ms`.
pub fn next_retry_delay_ms(policy: &RetryPolicy, attempt: u32, retry_after: Option<u64>) -> (r: u64)
    requires
        match retry_after {
            Some(s) => s * 1000 <= u64::MAX,
            None => policy.initial_delay_ms * vstd::arithmetic::power2::pow2(
                min_int(attempt as int, 20) as nat,
            ) <= u64::MAX,
        },
        policy.max_delay_ms + policy.jitter_max_ms <= u64::MAX,
    ensures
        retry_base_delay(*policy, attempt, retry_after) <= r <= retry_base_delay(
            *policy,
            attempt,
            retry_after,
        ) + policy.jitter_max_ms,
{
    let jitter = random_jitter_ms(policy.jitter_max_ms);
    retry_delay_with_jitter_ms(policy, attempt, retry_after, jitter)
}

/// Wait before a request to archlinux.org with a given jitter: none when the backoff has
/// already passed (`archlinux_delay_ms` is 0), otherwise the remaining backoff plus
/// `jitter_ms`.
pub fn archlinux_wait_ms(limiter: &ArchLinuxRateLimiter, elapsed_ms: u64, jitter_ms: u64) -> (r: u64)
    requires
        limiter.wf(),
        jitter_ms <= ARCHLINUX_JITTER_MAX_MS,
    ensures
        r == (if elapsed_ms < limiter.current_backoff_ms {
            limiter.current_backoff_ms - elapsed_ms + jitter_ms
        } else {
            0
        }),
{
    let d = archlinux_delay_ms(limiter, elapsed_ms);
    if d == 0 {
        0
    } else {
        d + jitter_ms
    }
}

/// Wait before a request to archlinux.org: none when the backoff has passed, otherwise the
/// remaining backoff plus a random jitter of at most `ARCHLINUX_JITTER_MAX_MS`.
pub fn archlinux_paced_wait_ms(limiter: &ArchLinuxRateLimiter, elapsed_ms: u64) -> (r: u64)
    requires
        limiter.wf(),
    ensures
        elapsed_ms >= limiter.current_backoff_ms ==> r == 0,
        elapsed_ms < limiter.current_backoff_ms ==> limiter.current_backoff_ms - elapsed_ms <= r
            <= limiter.current_backoff_ms - elapsed_ms + ARCHLINUX_JITTER_MAX_MS,
{
    let jitter = random_jitter_ms(ARCHLINUX_JITTER_MAX_MS);
    archlinux_wait_ms(limiter, elapsed_ms, jitter)
}

} // verus!
