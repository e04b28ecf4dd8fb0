use arch_toolkit::env::{
    parse_env_switch, parse_env_u32, parse_env_u64, parse_env_user_agent, parse_env_usize,
};

#[test]
fn switches_accept_common_spellings() {
    for on in ["true", "1", "yes", "on", "TRUE", "Yes", "ON"] {
        assert_eq!(parse_env_switch(on), Some(true), "{on}");
    }
    for off in ["false", "0", "no", "off", "False", "NO"] {
        assert_eq!(parse_env_switch(off), Some(false), "{off}");
    }
    assert_eq!(parse_env_switch("maybe"), None);
    assert_eq!(parse_env_switch(""), None);
}

#[test]
fn numbers_must_be_plain_decimals_in_range() {
    assert_eq!(parse_env_u64("60"), Some(60));
    assert_eq!(parse_env_u64("+5"), Some(5));
    assert_eq!(parse_env_u64("-5"), None);
    assert_eq!(parse_env_u64("abc"), None);
    assert_eq!(parse_env_u64(""), None);
    assert_eq!(parse_env_u64("18446744073709551615"), Some(u64::MAX));
    assert_eq!(parse_env_u64("18446744073709551616"), None);
    assert_eq!(parse_env_u32("4294967295"), Some(u32::MAX));
    assert_eq!(parse_env_u32("4294967296"), None);
    assert_eq!(parse_env_usize("100"), Some(100));
}

#[test]
fn user_agents_must_not_be_empty() {
    assert_eq!(parse_env_user_agent("agent/1.0"), Some("agent/1.0".to_string()));
    assert_eq!(parse_env_user_agent(""), None);
}
