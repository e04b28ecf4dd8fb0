use arch_toolkit::cache::disk::{entry_expired, entry_location};
use arch_toolkit::cache::{
    cache_key_comments, cache_key_info, cache_key_pkgbuild, cache_key_search, CacheError,
};

#[test]
fn search_key_trims_query() {
    assert_eq!(cache_key_search("  yay  "), "search:yay");
}

#[test]
fn info_key_is_order_independent() {
    assert_eq!(cache_key_info(&["yay", "paru"]), "info:paru,yay");
    assert_eq!(cache_key_info(&["paru", "yay"]), "info:paru,yay");
    assert_eq!(cache_key_info(&[]), "info:");
}

#[test]
fn comments_and_pkgbuild_keys() {
    assert_eq!(cache_key_comments("yay"), "comments:yay");
    assert_eq!(cache_key_pkgbuild("paru"), "pkgbuild:paru");
}

#[test]
fn entry_locations_follow_key_kind() {
    assert_eq!(entry_location("search:yay"), ("search".to_string(), "yay.json".to_string()));
    assert_eq!(entry_location("info:a,b"), ("info".to_string(), "a_b.json".to_string()));
    assert_eq!(entry_location("comments:x/y"), ("comments".to_string(), "x_y.json".to_string()));
    assert_eq!(entry_location("pkgbuild:p.q"), ("pkgbuild".to_string(), "p.q.json".to_string()));
    assert_eq!(entry_location("other"), ("search".to_string(), "other.json".to_string()));
}

#[test]
fn long_names_are_hashed() {
    let key = format!("search:{}", "a".repeat(250));
    let (dir, name) = entry_location(&key);
    assert_eq!(dir, "search");
    assert!(name.ends_with(".json"));
    assert!(name.len() <= 16 + 5);
    assert!(name.trim_end_matches(".json").chars().all(|c| c.is_ascii_hexdigit()));
}

#[test]
fn expiry_compares_end_of_life_with_now() {
    assert!(!entry_expired(100, 50, 150));
    assert!(entry_expired(100, 50, 151));
}

#[test]
fn cache_error_messages() {
    assert_eq!(CacheError::Other("x".to_string()).message(), "Cache error: x");
    assert_eq!(
        CacheError::Serialization("bad".to_string()).message(),
        "Cache serialization error: bad"
    );
}
