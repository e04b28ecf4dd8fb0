//! Where the disk cache keeps an entry, and when an entry has expired.
use crate::text::{
    alphanumeric, char_is_alphanumeric, chars_to_string, extend_chars, starts_with,
    starts_with_str, to_chars, utf8_len, utf8_len_chars,
};
use std::hash::{Hash, Hasher};
use vstd::prelude::*;

verus! {

/// A cache of serialized entries kept as files under `cache_dir`, one subdirectory per kind of
/// request.
#[derive(Debug)]
pub struct DiskCache {
    /// Root directory of the cache.
    pub cache_dir: String,
}

/// `DefaultHasher` digest of a string (`Hash for str` fed to `DefaultHasher::new()`). A fresh
/// `DefaultHasher` has fixed keys, so the digest depends on the string alone within one build of
/// std; std does not promise the same digest across Rust releases, so cache files written by a
/// build with another std may be looked up under other names (and are then simply missed).
pub uninterp spec fn default_hash(key: Seq<char>) -> u64;

/// Hashes `key` with a fresh `DefaultHasher` (std's `Hash for str`, then `Hasher::finish`); the
/// contract names the digest and claims only that it depends on `key` alone.
#[verifier::external_body]
fn hash_key(key: &str) -> (h: u64)
    ensures
        h == default_hash(key@),
{
    let mut hasher = std::collections::hash_map::DefaultHasher::new();
    key.hash(&mut hasher);
    hasher.finish()
}

/// Subdirectory and name part of a cache key: the kind prefix (`search:`, `info:`,
/// `comments:`, `pkgbuild:`) selects the subdirectory; keys without one go to `search`.
pub open spec fn key_parts(key: Seq<char>) -> (Seq<char>, Seq<char>) {
    if starts_with(key, "search:"@) {
        ("search"@, key.skip(7))
    } else if starts_with(key, "info:"@) {
        ("info"@, key.skip(5))
    } else if starts_with(key, "comments:"@) {
        ("comments"@, key.skip(9))
    } else if starts_with(key, "pkgbuild:"@) {
        ("pkgbuild"@, key.skip(9))
    } else {
        ("search"@, key)
    }
}

/// A character kept in file names: alphanumeric, `-`, `_` and `.` stay; others become `_`.
pub open spec fn safe_char(c: char) -> char {
    if alphanumeric(c) || c == '-' || c == '_' || c == '.' {
        c
    } else {
        '_'
    }
}

/// Lower-case hexadecimal digit of `d` (0 to 15).
pub open spec fn hex_digit(d: int) -> char {
    if d < 10 {
        ((d + 48) as u8) as char
    } else {
        ((d + 87) as u8) as char
    }
}

/// Lower-case hexadecimal notation of `n`, without leading zeros.
pub open spec fn hex(n: nat) -> Seq<char>
    decreases n,
{
    if n < 16 {
        seq![hex_digit(n as int)]
    } else {
        hex(n / 16).push(hex_digit((n % 16) as int))
    }
}

/// File name (without directory) of the entry under `key`: its name part with unsafe
/// characters replaced, or, when that is longer than 200 bytes, the hexadecimal hash of the
/// whole key; then `.json`.
pub open spec fn entry_file_name(key: Seq<char>) -> Seq<char> {
    let safe = key_parts(key).1.map_values(|c: char| safe_char(c));
    let stem = if utf8_len(safe) > 200 {
        hex(default_hash(key) as nat)
    } else {
        safe
    };
    stem + ".json"@
}

/// Hexadecimal notation of `n`.
fn hex_chars(n: u64) -> (r: Vec<char>)
    ensures
        r@ == hex(n as nat),
    decreases n,
{
    let d = n % 16;
    let c = if d < 10 {
        ((d + 48) as u8) as char
    } else {
        ((d + 87) as u8) as char
    };
    if n < 16 {
        let mut v = Vec::new();
        v.push(c);
        assert(v@ =~= seq![hex_digit(n as int)]);
        v
    } else {
        let mut v = hex_chars(n / 16);
        v.push(c);
        v
    }
}

/// Subdirectory and file name of the entry under `key`.
pub fn entry_location(key: &str) -> (r: (String, String))
    ensures
        r.0@ == key_parts(key@).0,
        r.1@ == entry_file_name(key@),
{
    let k = to_chars(key);
    let ks = k.as_slice();
    let (sub, skip): (&str, usize) = if starts_with_str(ks, "search:") {
        ("search", 7)
    } else if starts_with_str(ks, "info:") {
        ("info", 5)
    } else if starts_with_str(ks, "comments:") {
        ("comments", 9)
    } else if starts_with_str(ks, "pkgbuild:") {
        ("pkgbuild", 9)
    } else {
        ("search", 0)
    };
    proof {
        reveal_strlit("search:");
        reveal_strlit("info:");
        reveal_strlit("comments:");
        reveal_strlit("pkgbuild:");
    }
    assert(key_parts(key@).0 == sub@);
    assert(key_parts(key@).1 == key@.skip(skip as int));
    let mut safe: Vec<char> = Vec::new();
    let mut i: usize = skip;
    while i < ks.len()
        invariant
            skip <= i <= ks@.len(),
            ks@ == key@,
            safe@ == key@.subrange(skip as int, i as int).map_values(|c: char| safe_char(c)),
        decreases ks@.len() - i,
    {
        let c = ks[i];
        let s = if char_is_alphanumeric(c) || c == '-' || c == '_' || c == '.' {
            c
        } else {
            '_'
        };
        safe.push(s);
        assert(key@.subrange(skip as int, i + 1) =~= key@.subrange(skip as int, i as int).push(c));
        assert(safe@ =~= key@.subrange(skip as int, i + 1).map_values(|c: char| safe_char(c)));
        i += 1;
    }
    assert(key@.subrange(skip as int, ks@.len() as int) =~= key@.skip(skip as int));
    let mut name = if utf8_len_chars(safe.as_slice()) > 200 {
        hex_chars(hash_key(key))
    } else {
        safe
    };
    let ext = to_chars(".json");
    extend_chars(&mut name, ext.as_slice());
    (sub.to_owned(), chars_to_string(name.as_slice()))
}

/// Whether an entry cached at `cached_at` (seconds since the epoch) with a lifetime of
/// `ttl_seconds` has expired at `now`.
pub fn entry_expired(cached_at: u64, ttl_seconds: u64, now: u64) -> (r: bool)
    requires
        cached_at + ttl_seconds <= u64::MAX,
    ensures
        r == (cached_at + ttl_seconds < now),
{
    cached_at + ttl_seconds < now
}

} // verus!
