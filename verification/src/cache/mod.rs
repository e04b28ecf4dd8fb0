//! Response caching: cache keys, the cache interface, errors and configuration.
pub mod config;
pub mod disk;
pub mod memory;

pub use config::{CacheConfig, CacheConfigBuilder};
pub use disk::DiskCache;
pub use memory::MemoryCache;

use crate::text::{
    chars_to_string, extend_chars, lex_leq, sort_chars_vec, to_chars, trim, trim_chars, vv,
};
use core::time::Duration;
use vstd::prelude::*;

verus! {

/// Declares `std::io::Error` to the verifier; its contents stay opaque.
#[verifier::external_type_specification]
#[verifier::external_body]
pub struct ExIoError(std::io::Error);

/// A store of values by key with a time to live. Implementations may keep values in memory or
/// on disk; every operation may fail with a [`CacheError`].
pub trait Cache<K, V> {
    /// The value stored under `key`, if present and not expired.
    fn get(&self, key: &K) -> Option<V>;

    /// Stores `value` under `key` for `ttl`.
    fn set(&self, key: &K, value: &V, ttl: Duration) -> Result<(), CacheError>;

    /// Removes the entry under `key`.
    fn invalidate(&self, key: &K) -> Result<(), CacheError>;

    /// Removes every entry.
    fn clear(&self) -> Result<(), CacheError>;
}

/// Why a cache operation failed.
#[derive(Debug)]
pub enum CacheError {
    /// A value could not be serialized.
    Serialization(String),
    /// A stored value could not be deserialized.
    Deserialization(String),
    /// A storage operation failed.
    Io(std::io::Error),
    /// Any other failure.
    Other(String),
}

/// Display text of an I/O error (`std::io::Error`'s `Display`).
#[verifier::external_body]
fn io_error_text(e: &std::io::Error) -> String {
    format!("{e}")
}

/// `prefix` followed by `rest`.
fn concat_str(prefix: &str, rest: &str) -> (r: String)
    ensures
        r@ == prefix@ + rest@,
{
    let mut v = to_chars(prefix);
    let w = to_chars(rest);
    extend_chars(&mut v, w.as_slice());
    chars_to_string(v.as_slice())
}

impl CacheError {
    /// Human-readable description of the error.
    pub fn message(&self) -> (r: String)
        ensures
            match self {
                CacheError::Serialization(m) => r@ == "Cache serialization error: "@ + m@,
                CacheError::Deserialization(m) => r@ == "Cache deserialization error: "@ + m@,
                CacheError::Io(_) => starts_with_text(r@, "Cache I/O error: "@),
                CacheError::Other(m) => r@ == "Cache error: "@ + m@,
            },
    {
        match self {
            CacheError::Serialization(m) => concat_str("Cache serialization error: ", m.as_str()),
            CacheError::Deserialization(m) => concat_str(
                "Cache deserialization error: ",
                m.as_str(),
            ),
            CacheError::Io(e) => {
                let t = io_error_text(e);
                let r = concat_str("Cache I/O error: ", t.as_str());
                assert(r@.take("Cache I/O error: "@.len() as int) =~= "Cache I/O error: "@);
                r
            },
            CacheError::Other(m) => concat_str("Cache error: ", m.as_str()),
        }
    }
}

/// Whether `s` starts with `p`.
pub open spec fn starts_with_text(s: Seq<char>, p: Seq<char>) -> bool {
    p.len() <= s.len() && s.take(p.len() as int) == p
}

/// Views of string slices.
pub open spec fn strs_view(names: Seq<&str>) -> Seq<Seq<char>> {
    names.map_values(|s: &str| s@)
}

/// Parts joined with commas.
pub open spec fn join_comma(parts: Seq<Seq<char>>) -> Seq<char>
    decreases parts.len(),
{
    if parts.len() == 0 {
        seq![]
    } else if parts.len() == 1 {
        parts[0]
    } else {
        join_comma(parts.drop_last()) + seq![','] + parts.last()
    }
}

/// Cache key of a search: `search:` and the trimmed query.
pub fn cache_key_search(query: &str) -> (r: String)
    ensures
        r@ == "search:"@ + trim(query@),
{
    let q = to_chars(query);
    let t = trim_chars(q.as_slice());
    let mut v = to_chars("search:");
    extend_chars(&mut v, t.as_slice());
    chars_to_string(v.as_slice())
}

/// Cache key of a package-info request: `info:` and the names in lexicographic order, joined
/// with commas, so that the order of the request does not matter.
pub fn cache_key_info(names: &[&str]) -> (r: String)
    ensures
        r@ == "info:"@ + join_comma(strs_view(names@).sort_by(lex_leq())),
{
    let mut all: Vec<Vec<char>> = Vec::new();
    let mut i: usize = 0;
    while i < names.len()
        invariant
            i <= names@.len(),
            vv(all@) == strs_view(names@).take(i as int),
        decreases names@.len() - i,
    {
        let c = to_chars(names[i]);
        let ghost before = vv(all@);
        all.push(c);
        assert(vv(all@) =~= before.push(names@[i as int]@));
        assert(strs_view(names@).take(i + 1) =~= strs_view(names@).take(i as int).push(
            names@[i as int]@,
        ));
        i += 1;
    }
    assert(strs_view(names@).take(names@.len() as int) =~= strs_view(names@));
    let sorted = sort_chars_vec(&all);
    let ghost parts = vv(sorted@);
    let mut v = to_chars("info:");
    let ghost head = v@;
    let mut k: usize = 0;
    assert(parts.take(0) =~= Seq::<Seq<char>>::empty());
    while k < sorted.len()
        invariant
            k <= sorted@.len(),
            parts == vv(sorted@),
            v@ == head + join_comma(parts.take(k as int)),
        decreases sorted@.len() - k,
    {
        assert(parts.take(k + 1).drop_last() =~= parts.take(k as int));
        assert(parts[k as int] == sorted@[k as int]@);
        if k > 0 {
            v.push(',');
        }
        extend_chars(&mut v, sorted[k].as_slice());
        assert(v@ =~= head + join_comma(parts.take(k + 1)));
        k += 1;
    }
    assert(parts.take(sorted@.len() as int) =~= parts);
    chars_to_string(v.as_slice())
}

/// Cache key of a comments request: `comments:` and the package name.
pub fn cache_key_comments(pkgname: &str) -> (r: String)
    ensures
        r@ == "comments:"@ + pkgname@,
{
    concat_str("comments:", pkgname)
}

/// Cache key of a `PKGBUILD` request: `pkgbuild:` and the package name.
pub fn cache_key_pkgbuild(package: &str) -> (r: String)
    ensures
        r@ == "pkgbuild:"@ + package@,
{
    concat_str("pkgbuild:", package)
}

} // verus!
