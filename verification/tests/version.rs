use arch_toolkit::deps::{
    compare_versions, extract_major_component, is_major_version_bump, normalize_version,
    version_satisfies,
};
use std::cmp::Ordering;


#[test]
fn test_normalize_version() {
    // Pkgrel stripping
    assert_eq!(normalize_version("1.2.3-1"), "1.2.3");
    assert_eq!(normalize_version("1.2.3-42"), "1.2.3");
    assert_eq!(normalize_version("2.0.0-1"), "2.0.0");

    // Text suffixes preserved
    assert_eq!(normalize_version("1.2.3-alpha"), "1.2.3-alpha");
    assert_eq!(normalize_version("1.2.3-beta1"), "1.2.3-beta1");

    // No dash, unchanged
    assert_eq!(normalize_version("1.2.3"), "1.2.3");
    assert_eq!(normalize_version("2.0"), "2.0");
}

#[test]
fn test_compare_versions_basic() {
    // Basic numeric comparisons
    assert_eq!(compare_versions("1.0.0", "1.0.1"), Ordering::Less);
    assert_eq!(compare_versions("1.0.1", "1.0.0"), Ordering::Greater);
    assert_eq!(compare_versions("1.0.0", "1.0.0"), Ordering::Equal);
    assert_eq!(compare_versions("2.0.0", "1.9.9"), Ordering::Greater);
    assert_eq!(compare_versions("1.9.9", "2.0.0"), Ordering::Less);
}

#[test]
fn test_compare_versions_missing_segments() {
    // Missing segments treated as "0"
    assert_eq!(compare_versions("1.0", "1.0.0"), Ordering::Equal);
    assert_eq!(compare_versions("1.2", "1.2.0"), Ordering::Equal);
    assert_eq!(compare_versions("1", "1.0.0"), Ordering::Equal);
    assert_eq!(compare_versions("1.2", "1.2.1"), Ordering::Less);
}

/// What: Verify pkgrel participates in full Arch package version ordering.
///
/// Inputs:
/// - Fixed versions with equal pkgver and different numeric pkgrel values.
///
/// Output:
/// - Confirms pkgrel breaks pkgver ties without overriding pkgver ordering.
///
/// Details:
/// - Libalpm compares pkgrel only when both operands declare one.
#[test]
fn test_compare_versions_pkgrel() {
    assert_eq!(compare_versions("1.2.3-1", "1.2.3-2"), Ordering::Less);
    assert_eq!(compare_versions("1.2.3-1", "1.2.3"), Ordering::Equal);
    assert_eq!(compare_versions("1.2.3", "1.2.3-1"), Ordering::Equal);
    assert_eq!(compare_versions("1.2.3-10", "1.2.4-1"), Ordering::Less);
}

/// What: Verify epoch precedes pkgver and pkgrel ordering.
///
/// Inputs:
/// - Fixed versions with different epochs and release values.
///
/// Output:
/// - Confirms epoch-aware comparisons and requirements are deterministic.
///
/// Details:
/// - A higher epoch wins even when its pkgver is lexically lower.
#[test]
fn test_compare_versions_epoch() {
    assert_eq!(compare_versions("2:1.0-1", "1:99.0-9"), Ordering::Greater);
    assert_eq!(compare_versions("1:1.0-1", "1.0-99"), Ordering::Greater);
    assert!(version_satisfies("1:2.0-3", ">=1:2.0-3"));
    assert!(!version_satisfies("1:2.0-2", ">=1:2.0-3"));
}

#[test]
fn test_compare_versions_text_segments() {
    // Numeric < text (pacman behavior)
    assert_eq!(compare_versions("1.2.3", "1.2.3alpha"), Ordering::Greater);
    assert_eq!(compare_versions("1.2.3alpha", "1.2.3"), Ordering::Less);
    assert_eq!(compare_versions("1.2.3alpha", "1.2.3beta"), Ordering::Less);
    assert_eq!(
        compare_versions("1.2.3beta", "1.2.3alpha"),
        Ordering::Greater
    );
}

#[test]
fn test_compare_versions_mixed() {
    // Mixed numeric and text
    assert_eq!(compare_versions("1.2.3", "1.2.4"), Ordering::Less);
    assert_eq!(compare_versions("1.2.3alpha", "1.2.3beta"), Ordering::Less);
    assert_eq!(compare_versions("1.2.3", "1.2.3alpha"), Ordering::Greater);
    assert_eq!(compare_versions("1.2.3alpha", "1.2.4"), Ordering::Less);
}

#[test]
fn test_compare_versions_edge_cases() {
    // Edge cases
    assert_eq!(compare_versions("", ""), Ordering::Equal);
    assert_eq!(compare_versions("0", "0.0.0"), Ordering::Equal);
    assert_eq!(compare_versions("10.0.0", "9.9.9"), Ordering::Greater);
    assert_eq!(compare_versions("1.10.0", "1.9.9"), Ordering::Greater);
}

#[test]
fn test_version_satisfies_greater_equal() {
    assert!(version_satisfies("2.0", ">=1.5"));
    assert!(version_satisfies("1.5", ">=1.5"));
    assert!(!version_satisfies("1.0", ">=1.5"));
    assert!(version_satisfies("1.5.1", ">=1.5"));
    assert!(version_satisfies("2.0.0", ">=1.5.0"));
}

#[test]
fn test_version_satisfies_less_equal() {
    assert!(version_satisfies("1.0", "<=1.5"));
    assert!(version_satisfies("1.5", "<=1.5"));
    assert!(!version_satisfies("2.0", "<=1.5"));
    assert!(version_satisfies("1.4.9", "<=1.5"));
}

#[test]
fn test_version_satisfies_equal() {
    assert!(version_satisfies("1.5", "=1.5"));
    assert!(!version_satisfies("1.6", "=1.5"));
    assert!(!version_satisfies("1.4", "=1.5"));
    assert!(version_satisfies("1.5.0", "=1.5"));
}

#[test]
fn test_version_satisfies_greater() {
    assert!(version_satisfies("1.6", ">1.5"));
    assert!(!version_satisfies("1.5", ">1.5"));
    assert!(!version_satisfies("1.4", ">1.5"));
    assert!(version_satisfies("2.0", ">1.5"));
}

#[test]
fn test_version_satisfies_less() {
    assert!(version_satisfies("1.4", "<1.5"));
    assert!(!version_satisfies("1.5", "<1.5"));
    assert!(!version_satisfies("1.6", "<1.5"));
    assert!(version_satisfies("1.0", "<1.5"));
}

#[test]
fn test_version_satisfies_empty() {
    // Empty requirement = no constraint = satisfied
    assert!(version_satisfies("2.0", ""));
    assert!(version_satisfies("1.0", ""));
    assert!(version_satisfies("any-version", ""));
}

#[test]
fn test_version_satisfies_no_operator() {
    // No operator = no constraint = satisfied
    assert!(version_satisfies("2.0", "n/a"));
    assert!(version_satisfies("1.0", "some-text"));
}

/// What: Verify pkgrel-aware dependency requirement checks.
///
/// Inputs:
/// - Fixed package versions and requirements containing numeric release suffixes.
///
/// Output:
/// - Confirms requirements retain release precision.
///
/// Details:
/// - An absent pkgrel compares equal to a matching pkgver, while two explicit releases retain
///   their ordering.
#[test]
fn test_version_satisfies_pkgrel() {
    assert!(version_satisfies("1.2.3-1", "=1.2.3"));
    assert!(version_satisfies("1.2.3", "<=1.2.3-1"));
    assert!(version_satisfies("1.2.3-10", ">=1.2.3"));
    assert!(!version_satisfies("1.2.3-5", "=1.2.3-1"));
}

#[test]
fn test_extract_major_component() {
    assert_eq!(extract_major_component("1.2.3"), Some(1));
    assert_eq!(extract_major_component("2.0.0"), Some(2));
    assert_eq!(extract_major_component("10.5.2"), Some(10));
    assert_eq!(extract_major_component("2.0.0-alpha"), Some(2));
    assert_eq!(extract_major_component("1.2.3-1"), Some(1));
    assert_eq!(extract_major_component("alpha"), None);
    assert_eq!(extract_major_component(""), None);
}

#[test]
fn test_is_major_version_bump() {
    // Major version increases
    assert!(is_major_version_bump("1.2.3", "2.0.0"));
    assert!(is_major_version_bump("1.0.0", "2.0.0"));
    assert!(is_major_version_bump("0.9.9", "1.0.0"));

    // Same major version
    assert!(!is_major_version_bump("1.2.3", "1.3.0"));
    assert!(!is_major_version_bump("1.2.3", "1.2.4"));
    assert!(!is_major_version_bump("1.0.0", "1.9.9"));

    // Downgrade
    assert!(!is_major_version_bump("2.0.0", "1.9.9"));
    assert!(!is_major_version_bump("2.0.0", "1.0.0"));

    // Parsing failures
    assert!(!is_major_version_bump("alpha", "1.0.0"));
    assert!(!is_major_version_bump("1.0.0", "beta"));
    assert!(!is_major_version_bump("", "1.0.0"));
}

#[test]
fn test_is_major_version_bump_pkgrel() {
    // Pkgrel should not affect major version detection
    assert!(is_major_version_bump("1.2.3-1", "2.0.0-1"));
    assert!(!is_major_version_bump("1.2.3-1", "1.3.0-1"));
}

