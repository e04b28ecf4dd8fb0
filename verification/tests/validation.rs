use arch_toolkit::aur::validation::{
    validate_package_name, validate_package_names, validate_search_query, ValidationConfig,
};
use arch_toolkit::error::ArchToolkitError;


    #[test]
    fn test_validate_package_name_valid() {
        let valid_names = [
            "yay",
            "paru",
            "linux-zen",
            "lib32-mesa",
            "python-numpy",
            "gcc@12",
            "package_name",
            "pkg+plus",
            "123package",
        ];

        for name in &valid_names {
            assert!(
                validate_package_name(name, None).is_ok(),
                "Package name '{name}' should be valid"
            );
        }
    }

    #[test]
    fn test_validate_package_name_empty() {
        // Strict mode (default)
        let result = validate_package_name("", None);
        assert!(result.is_err());
        match result.expect_err("Expected validation error") {
            ArchToolkitError::EmptyInput { field, .. } => {
                assert_eq!(field, "package name");
            }
            _ => panic!("Expected EmptyInput error"),
        }

        // Lenient mode
        let config = ValidationConfig {
            strict_empty: false,
            ..Default::default()
        };
        assert!(validate_package_name("", Some(&config)).is_ok());
    }

    #[test]
    fn test_validate_package_name_starts_with_hyphen() {
        let result = validate_package_name("-invalid", None);
        assert!(result.is_err());
        match result.expect_err("Expected validation error") {
            ArchToolkitError::InvalidPackageName { name, reason } => {
                assert_eq!(name, "-invalid");
                assert!(reason.contains("hyphen"));
            }
            _ => panic!("Expected InvalidPackageName error"),
        }
    }

    #[test]
    fn test_validate_package_name_starts_with_period() {
        let result = validate_package_name(".invalid", None);
        assert!(result.is_err());
        match result.expect_err("Expected validation error") {
            ArchToolkitError::InvalidPackageName { name, reason } => {
                assert_eq!(name, ".invalid");
                assert!(reason.contains("period"));
            }
            _ => panic!("Expected InvalidPackageName error"),
        }
    }

    #[test]
    fn test_validate_package_name_uppercase() {
        let result = validate_package_name("Invalid", None);
        assert!(result.is_err());
        match result.expect_err("Expected validation error") {
            ArchToolkitError::InvalidPackageName { name, reason } => {
                assert_eq!(name, "Invalid");
                assert!(reason.contains("invalid character"));
            }
            _ => panic!("Expected InvalidPackageName error"),
        }
    }

    #[test]
    fn test_validate_package_name_special_chars() {
        let invalid = ["package#name", "package name", "package!"];

        for name in &invalid {
            let result = validate_package_name(name, None);
            assert!(result.is_err(), "Package name '{name}' should be invalid");
            match result.expect_err("Expected validation error") {
                ArchToolkitError::InvalidPackageName { .. } => {}
                _ => panic!("Expected InvalidPackageName error for '{name}'"),
            }
        }
    }

    #[test]
    fn test_validate_package_name_too_long() {
        let long_name = "a".repeat(128); // Exceeds default max of 127
        let result = validate_package_name(&long_name, None);
        assert!(result.is_err());
        match result.expect_err("Expected validation error") {
            ArchToolkitError::InputTooLong {
                field,
                max_length,
                actual_length,
            } => {
                assert_eq!(field, "package name");
                assert_eq!(max_length, 127);
                assert_eq!(actual_length, 128);
            }
            _ => panic!("Expected InputTooLong error"),
        }
    }

    #[test]
    fn test_validate_package_name_custom_max_length() {
        let config = ValidationConfig {
            max_package_name_length: 10,
            ..Default::default()
        };
        let name = "a".repeat(11);
        let result = validate_package_name(&name, Some(&config));
        assert!(result.is_err());
        match result.expect_err("Expected validation error") {
            ArchToolkitError::InputTooLong { max_length, .. } => {
                assert_eq!(max_length, 10);
            }
            _ => panic!("Expected InputTooLong error"),
        }
    }

    #[test]
    fn test_validate_package_names_valid() {
        let names = &["yay", "paru", "linux-zen"];
        assert!(validate_package_names(names, None).is_ok());
    }

    #[test]
    fn test_validate_package_names_empty() {
        // Strict mode (default)
        let result = validate_package_names(&[], None);
        assert!(result.is_err());
        match result.expect_err("Expected validation error") {
            ArchToolkitError::EmptyInput { field, .. } => {
                assert_eq!(field, "package names");
            }
            _ => panic!("Expected EmptyInput error"),
        }

        // Lenient mode
        let config = ValidationConfig {
            strict_empty: false,
            ..Default::default()
        };
        assert!(validate_package_names(&[], Some(&config)).is_ok());
    }

    #[test]
    fn test_validate_package_names_invalid() {
        let names = &["yay", "-invalid", "paru"];
        let result = validate_package_names(names, None);
        assert!(result.is_err());
        match result.expect_err("Expected validation error") {
            ArchToolkitError::InvalidPackageName { name, .. } => {
                assert_eq!(name, "-invalid");
            }
            _ => panic!("Expected InvalidPackageName error"),
        }
    }

    #[test]
    fn test_validate_search_query_valid() {
        let queries = ["yay", "paru helper", "linux", "  trimmed  "];

        for query in &queries {
            let result = validate_search_query(query, None);
            assert!(result.is_ok(), "Query '{query}' should be valid");
            // Should return trimmed version
            if let Ok(trimmed) = result {
                assert_eq!(trimmed, query.trim());
            }
        }
    }

    #[test]
    fn test_validate_search_query_empty() {
        // Strict mode (default)
        let result = validate_search_query("", None);
        assert!(result.is_err());
        match result.expect_err("Expected validation error") {
            ArchToolkitError::EmptyInput { field, .. } => {
                assert_eq!(field, "search query");
            }
            _ => panic!("Expected EmptyInput error"),
        }

        // Whitespace-only
        let result = validate_search_query("   ", None);
        assert!(result.is_err());

        // Lenient mode
        let config = ValidationConfig {
            strict_empty: false,
            ..Default::default()
        };
        assert!(validate_search_query("", Some(&config)).is_ok());
        assert!(validate_search_query("   ", Some(&config)).is_ok());
    }

    #[test]
    fn test_validate_search_query_too_long() {
        let long_query = "a".repeat(257); // Exceeds default max of 256
        let result = validate_search_query(&long_query, None);
        assert!(result.is_err());
        match result.expect_err("Expected validation error") {
            ArchToolkitError::InputTooLong {
                field,
                max_length,
                actual_length,
            } => {
                assert_eq!(field, "search query");
                assert_eq!(max_length, 256);
                assert_eq!(actual_length, 257);
            }
            _ => panic!("Expected InputTooLong error"),
        }
    }

    #[test]
    fn test_validate_search_query_custom_max_length() {
        let config = ValidationConfig {
            max_query_length: 10,
            ..Default::default()
        };
        let query = "a".repeat(11);
        let result = validate_search_query(&query, Some(&config));
        assert!(result.is_err());
        match result.expect_err("Expected validation error") {
            ArchToolkitError::InputTooLong { max_length, .. } => {
                assert_eq!(max_length, 10);
            }
            _ => panic!("Expected InputTooLong error"),
        }
    }

    #[test]
    fn test_validation_config_default() {
        let config = ValidationConfig::default();
        assert!(config.strict_empty);
        assert_eq!(config.max_query_length, 256);
        assert_eq!(config.max_package_name_length, 127);
    }
