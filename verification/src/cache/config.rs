//! Which responses are cached, for how long, and how many entries are kept in memory.
use core::time::Duration;
use vstd::prelude::*;

verus! {

/// The duration of `secs` seconds (`Duration::from_secs`).
pub uninterp spec fn secs(secs: u64) -> Duration;

/// `Duration::from_secs(s)`.
#[verifier::external_body]
pub(crate) fn duration_from_secs(s: u64) -> (d: Duration)
    ensures
        d == secs(s),
{
    Duration::from_secs(s)
}

/// `Duration` is `Copy`: its `clone` returns the same duration.
pub assume_specification[ <Duration as Clone>::clone ](d: &Duration) -> (r: Duration)
    ensures
        r == *d,
;

/// Caching options per operation.
#[derive(Debug, Clone)]
pub struct CacheConfig {
    /// Cache search results.
    pub enable_search: bool,
    /// Lifetime of cached search results.
    pub search_ttl: Duration,
    /// Cache package information.
    pub enable_info: bool,
    /// Lifetime of cached package information.
    pub info_ttl: Duration,
    /// Cache package comments.
    pub enable_comments: bool,
    /// Lifetime of cached comments.
    pub comments_ttl: Duration,
    /// Cache `PKGBUILD` texts.
    pub enable_pkgbuild: bool,
    /// Lifetime of cached `PKGBUILD` texts.
    pub pkgbuild_ttl: Duration,
    /// Maximum number of entries kept in memory.
    pub memory_cache_size: usize,
    /// Also keep entries on disk.
    pub enable_disk_cache: bool,
}

/// The default configuration: nothing cached; lifetimes of 5 minutes for searches, 15 for
/// package information, 10 for comments and an hour for `PKGBUILD`s; 100 entries in memory.
pub open spec fn default_cache_config(c: CacheConfig) -> bool {
    &&& !c.enable_search
    &&& c.search_ttl == secs(300)
    &&& !c.enable_info
    &&& c.info_ttl == secs(900)
    &&& !c.enable_comments
    &&& c.comments_ttl == secs(600)
    &&& !c.enable_pkgbuild
    &&& c.pkgbuild_ttl == secs(3600)
    &&& c.memory_cache_size == 100
    &&& !c.enable_disk_cache
}

impl Default for CacheConfig {
    fn default() -> (r: CacheConfig)
        ensures
            default_cache_config(r),
    {
        CacheConfig {
            enable_search: false,
            search_ttl: duration_from_secs(300),
            enable_info: false,
            info_ttl: duration_from_secs(900),
            enable_comments: false,
            comments_ttl: duration_from_secs(600),
            enable_pkgbuild: false,
            pkgbuild_ttl: duration_from_secs(3600),
            memory_cache_size: 100,
            enable_disk_cache: false,
        }
    }
}

/// Builds a [`CacheConfig`] from the defaults, one option at a time.
#[derive(Debug, Clone)]
pub struct CacheConfigBuilder {
    /// The configuration being built.
    pub config: CacheConfig,
}

impl CacheConfigBuilder {
    /// A builder holding the default configuration.
    pub fn new() -> (r: CacheConfigBuilder)
        ensures
            default_cache_config(r.config),
    {
        CacheConfigBuilder { config: CacheConfig::default() }
    }

    /// Sets whether searches are cached.
    pub fn enable_search(self, enable: bool) -> (r: CacheConfigBuilder)
        ensures
            r.config == (CacheConfig { enable_search: enable, ..self.config }),
    {
        let mut s = self;
        s.config.enable_search = enable;
        s
    }

    /// Sets the lifetime of cached searches.
    pub fn search_ttl(self, ttl: Duration) -> (r: CacheConfigBuilder)
        ensures
            r.config == (CacheConfig { search_ttl: ttl, ..self.config }),
    {
        let mut s = self;
        s.config.search_ttl = ttl;
        s
    }

    /// Sets whether package information is cached.
    pub fn enable_info(self, enable: bool) -> (r: CacheConfigBuilder)
        ensures
            r.config == (CacheConfig { enable_info: enable, ..self.config }),
    {
        let mut s = self;
        s.config.enable_info = enable;
        s
    }

    /// Sets the lifetime of cached package information.
    pub fn info_ttl(self, ttl: Duration) -> (r: CacheConfigBuilder)
        ensures
            r.config == (CacheConfig { info_ttl: ttl, ..self.config }),
    {
        let mut s = self;
        s.config.info_ttl = ttl;
        s
    }

    /// Sets whether comments are cached.
    pub fn enable_comments(self, enable: bool) -> (r: CacheConfigBuilder)
        ensures
            r.config == (CacheConfig { enable_comments: enable, ..self.config }),
    {
        let mut s = self;
        s.config.enable_comments = enable;
        s
    }

    /// Sets the lifetime of cached comments.
    pub fn comments_ttl(self, ttl: Duration) -> (r: CacheConfigBuilder)
        ensures
            r.config == (CacheConfig { comments_ttl: ttl, ..self.config }),
    {
        let mut s = self;
        s.config.comments_ttl = ttl;
        s
    }

    /// Sets whether `PKGBUILD` texts are cached.
    pub fn enable_pkgbuild(self, enable: bool) -> (r: CacheConfigBuilder)
        ensures
            r.config == (CacheConfig { enable_pkgbuild: enable, ..self.config }),
    {
        let mut s = self;
        s.config.enable_pkgbuild = enable;
        s
    }

    /// Sets the lifetime of cached `PKGBUILD` texts.
    pub fn pkgbuild_ttl(self, ttl: Duration) -> (r: CacheConfigBuilder)
        ensures
            r.config == (CacheConfig { pkgbuild_ttl: ttl, ..self.config }),
    {
        let mut s = self;
        s.config.pkgbuild_ttl = ttl;
        s
    }

    /// Sets the number of entries kept in memory.
    pub fn memory_cache_size(self, size: usize) -> (r: CacheConfigBuilder)
        ensures
            r.config == (CacheConfig { memory_cache_size: size, ..self.config }),
    {
        let mut s = self;
        s.config.memory_cache_size = size;
        s
    }

    /// Sets whether entries are also kept on disk.
    pub fn enable_disk_cache(self, enable: bool) -> (r: CacheConfigBuilder)
        ensures
            r.config == (CacheConfig { enable_disk_cache: enable, ..self.config }),
    {
        let mut s = self;
        s.config.enable_disk_cache = enable;
        s
    }

    /// The configuration built.
    pub fn build(self) -> (r: CacheConfig)
        ensures
            r == self.config,
    {
        self.config
    }
}

impl Default for CacheConfigBuilder {
    fn default() -> (r: CacheConfigBuilder)
        ensures
            default_cache_config(r.config),
    {
        CacheConfigBuilder::new()
    }
}

} // verus!
