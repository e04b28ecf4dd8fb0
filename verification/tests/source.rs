use arch_toolkit::deps::source::{dependency_source_from_query, is_system_package, parse_repository};
use arch_toolkit::types::DependencySource;

#[test]
fn test_is_system_package_detects_core() {
    assert!(is_system_package("glibc"));
    assert!(is_system_package("linux"));
    assert!(is_system_package("systemd"));
    assert!(is_system_package("pacman"));
    assert!(is_system_package("bash"));
    assert!(is_system_package("coreutils"));
    assert!(is_system_package("gcc"));
    assert!(is_system_package("binutils"));
    assert!(is_system_package("filesystem"));
    assert!(is_system_package("util-linux"));
    assert!(is_system_package("shadow"));
    assert!(is_system_package("sed"));
    assert!(is_system_package("grep"));
    assert!(!is_system_package("firefox"));
    assert!(!is_system_package("vim"));
    assert!(!is_system_package("nonexistent"));
    assert!(!is_system_package(""));
}

#[test]
fn test_determine_dependency_source_installed_core() {
    let sample_output = "Repository      : core\nName            : glibc\n";
    let (source, is_core) = dependency_source_from_query("glibc", true, Some(sample_output));
    let found_repo = match source {
        DependencySource::Official { repo } => Some((repo, is_core)),
        _ => None,
    };
    assert_eq!(found_repo, Some(("core".to_string(), true)));
}

#[test]
fn test_determine_dependency_source_installed_extra() {
    let sample_output = "Repository      : extra\nName            : firefox\n";
    let (source, is_core) = dependency_source_from_query("firefox", true, Some(sample_output));
    let found_repo = match source {
        DependencySource::Official { repo } => Some((repo, is_core)),
        _ => None,
    };
    assert_eq!(found_repo, Some(("extra".to_string(), false)));
}

#[test]
fn test_determine_dependency_source_installed_local() {
    let sample_output = "Repository      : local\nName            : custom-package\n";
    let (source, _) = dependency_source_from_query("custom-package", true, Some(sample_output));
    let found_repo = match source {
        DependencySource::Local => Some("local"),
        _ => None,
    };
    assert_eq!(found_repo, Some("local"));
}

#[test]
fn test_determine_dependency_source_not_installed_official() {
    let sample_output = "Repository      : extra\nName            : firefox\n";
    let (source, is_core) = dependency_source_from_query("firefox", false, Some(sample_output));
    let found_repo = match source {
        DependencySource::Official { repo } => Some((repo, is_core)),
        _ => None,
    };
    assert_eq!(found_repo, Some(("extra".to_string(), false)));
}

#[test]
fn test_determine_dependency_source_fallback() {
    let (source, is_core) = dependency_source_from_query("glibc", true, None);
    assert!(is_core);
    assert_eq!(source, DependencySource::Official { repo: "core".to_string() });

    let (source, is_core) = dependency_source_from_query("firefox", true, None);
    assert!(!is_core);
    assert_eq!(source, DependencySource::Official { repo: "extra".to_string() });
}

#[test]
fn test_parse_repository_field() {
    let test_cases = vec![
        ("Repository      : core", ("core", true)),
        ("Repository      : extra", ("extra", false)),
        ("Repository      : community", ("community", false)),
        ("Repository      : local", ("local", false)),
        ("Repository: core", ("core", true)),
        ("Repository : extra", ("extra", false)),
    ];

    for (input, (expected_repo, expected_is_core)) in test_cases {
        let repo = parse_repository(input).expect("repository field");
        let is_core = repo == "core";
        assert_eq!(repo, expected_repo);
        assert_eq!(is_core, expected_is_core);
    }
}

#[test]
fn missing_query_means_aur_for_names_not_installed() {
    let (source, is_core) = dependency_source_from_query("yay", false, None);
    assert_eq!(source, DependencySource::Aur);
    assert!(!is_core);
}

#[test]
fn query_without_repository_field_means_extra() {
    let (source, is_core) = dependency_source_from_query("foo", false, Some("Name : foo\n"));
    assert_eq!(source, DependencySource::Official { repo: "extra".to_string() });
    assert!(!is_core);
}

#[test]
fn repository_is_lower_cased() {
    assert_eq!(parse_repository("Repository : Core\n"), Some("core".to_string()));
    assert_eq!(parse_repository("Name : x\n"), None);
}
