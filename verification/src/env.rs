//! Interpretation of the values of the library's `ARCH_TOOLKIT_*` environment settings; reading
//! the environment itself is left to the caller.
use crate::text::{chars_eq_str, lower_chars, lowercase, parse_u64, parse_u64_chars, to_chars};
use vstd::prelude::*;

verus! {

/// Meaning of a lower-cased switch value: `true`, `1`, `yes` or `on` turn it on; `false`,
/// `0`, `no` or `off` turn it off; anything else is not understood.
pub open spec fn switch_value(lower: Seq<char>) -> Option<bool> {
    if lower == "true"@ || lower == "1"@ || lower == "yes"@ || lower == "on"@ {
        Some(true)
    } else if lower == "false"@ || lower == "0"@ || lower == "no"@ || lower == "off"@ {
        Some(false)
    } else {
        None
    }
}

/// Reads a switch setting (such as `ARCH_TOOLKIT_RETRY_ENABLED`), ignoring letter case.
pub fn parse_env_switch(value: &str) -> (r: Option<bool>)
    ensures
        r == switch_value(lowercase(value@)),
{
    let v = to_chars(value);
    let l = lower_chars(v.as_slice());
    let s = l.as_slice();
    if chars_eq_str(s, "true") || chars_eq_str(s, "1") || chars_eq_str(s, "yes") || chars_eq_str(
        s,
        "on",
    ) {
        Some(true)
    } else if chars_eq_str(s, "false") || chars_eq_str(s, "0") || chars_eq_str(s, "no")
        || chars_eq_str(s, "off") {
        Some(false)
    } else {
        None
    }
}

/// Reads a count or duration setting: decimal digits, optionally preceded by `+`, within the
/// range of `u64`.
pub fn parse_env_u64(value: &str) -> (r: Option<u64>)
    ensures
        r == parse_u64(value@),
{
    let v = to_chars(value);
    parse_u64_chars(v.as_slice())
}

/// Reads a setting that must fit in `u32` (such as `ARCH_TOOLKIT_MAX_RETRIES`).
pub fn parse_env_u32(value: &str) -> (r: Option<u32>)
    ensures
        r == (match parse_u64(value@) {
            Some(n) => if n <= u32::MAX {
                Some(n as u32)
            } else {
                None
            },
            None => None,
        }),
{
    match parse_env_u64(value) {
        Some(n) => if n <= u32::MAX as u64 {
            Some(n as u32)
        } else {
            None
        },
        None => None,
    }
}

/// Reads a setting that must fit in `usize` (such as `ARCH_TOOLKIT_CACHE_SIZE`).
pub fn parse_env_usize(value: &str) -> (r: Option<usize>)
    ensures
        r == (match parse_u64(value@) {
            Some(n) => if n <= usize::MAX {
                Some(n as usize)
            } else {
                None
            },
            None => None,
        }),
{
    match parse_env_u64(value) {
        Some(n) => if n <= usize::MAX as u64 {
            Some(n as usize)
        } else {
            None
        },
        None => None,
    }
}

/// A user-agent setting, unless it is empty.
pub fn parse_env_user_agent(value: &str) -> (r: Option<String>)
    ensures
        match r {
            Some(s) => s@ == value@ && value@.len() > 0,
            None => value@.len() == 0,
        },
{
    if value.is_empty() {
        None
    } else {
        Some(value.to_owned())
    }
}

} // verus!
