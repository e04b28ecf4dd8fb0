use arch_toolkit::cache::config::{CacheConfig, CacheConfigBuilder};
use std::time::Duration;


    #[test]
    fn test_cache_config_default() {
        let config = CacheConfig::default();
        assert!(!config.enable_search);
        assert!(!config.enable_info);
        assert!(!config.enable_comments);
        assert!(!config.enable_pkgbuild);
        assert!(!config.enable_disk_cache);
        assert_eq!(config.memory_cache_size, 100);
        assert_eq!(config.search_ttl, Duration::from_secs(300));
        assert_eq!(config.info_ttl, Duration::from_secs(900));
        assert_eq!(config.comments_ttl, Duration::from_secs(600));
        assert_eq!(config.pkgbuild_ttl, Duration::from_secs(3600));
    }

    #[test]
    fn test_cache_config_builder() {
        let config = CacheConfigBuilder::new()
            .enable_search(true)
            .search_ttl(Duration::from_secs(600))
            .enable_info(true)
            .info_ttl(Duration::from_secs(1800))
            .memory_cache_size(200)
            .enable_disk_cache(true)
            .build();

        assert!(config.enable_search);
        assert!(config.enable_info);
        assert_eq!(config.search_ttl, Duration::from_secs(600));
        assert_eq!(config.info_ttl, Duration::from_secs(1800));
        assert_eq!(config.memory_cache_size, 200);
        assert!(config.enable_disk_cache);
    }
