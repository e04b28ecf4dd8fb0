use arch_toolkit::deps::query::{
    check_if_provided, get_provided_packages, is_package_installed_or_provided, parse_available_version,
    parse_installed_packages, parse_installed_version, parse_upgradable_packages,
};

#[test]
fn test_parse_installed_packages_output() {
    let sample_output = "pacman\nfirefox\nvim\n";
    let packages = parse_installed_packages(sample_output);
    assert_eq!(packages.len(), 3);
    assert!(packages.contains(&"pacman".to_string()));
    assert!(packages.contains(&"firefox".to_string()));
    assert!(packages.contains(&"vim".to_string()));
}

#[test]
fn test_parse_upgradable_packages_output() {
    let sample_output = "firefox 121.0-1 -> 122.0-1\nvim 9.0.0000-1 -> 9.0.1000-1\npackage-name\n";
    let packages = parse_upgradable_packages(sample_output);
    assert_eq!(packages.len(), 3);
    assert!(packages.contains(&"firefox".to_string()));
    assert!(packages.contains(&"vim".to_string()));
    assert!(packages.contains(&"package-name".to_string()));
}

#[test]
fn test_parse_installed_version_output() {
    let sample_output = "pacman 6.1.0-1\n";
    assert_eq!(parse_installed_version(sample_output), Some("6.1.0".to_string()));
}

#[test]
fn test_parse_available_version_output() {
    let sample_output = "Repository      : extra\nName            : pacman\nVersion         : 6.1.0-1\n";
    assert_eq!(parse_available_version(sample_output), Some("6.1.0".to_string()));
}

#[test]
fn test_get_provided_packages_returns_empty() {
    let installed = vec!["pacman".to_string()];
    let provided = get_provided_packages(&installed);
    assert!(provided.is_empty());
}

#[test]
fn test_is_package_installed_or_provided_direct_install() {
    let installed = vec!["pacman".to_string(), "vim".to_string()];
    let provided: Vec<String> = Vec::new();
    assert!(is_package_installed_or_provided("pacman", &installed, &provided, None));
    assert!(is_package_installed_or_provided("vim", &installed, &provided, None));
    assert!(!is_package_installed_or_provided("nonexistent", &installed, &provided, None));
}

#[test]
fn installed_names_are_trimmed_and_listed_once() {
    let packages = parse_installed_packages("  vim \n\nvim\r\nbash\n");
    assert_eq!(packages, vec!["vim".to_string(), "bash".to_string()]);
}

#[test]
fn installed_version_needs_a_space() {
    assert_eq!(parse_installed_version("pacman\n"), None);
    assert_eq!(parse_installed_version(""), None);
    assert_eq!(parse_installed_version("glibc 2.39+r52-1\n"), Some("2.39+r52".to_string()));
}

#[test]
fn available_version_without_field_is_none() {
    assert_eq!(parse_available_version("Name : pacman\n"), None);
    assert_eq!(parse_available_version("Version\nVersion : 1:2.0-3"), Some("1:2.0".to_string()));
}

#[test]
fn provided_names_count_as_available() {
    let installed: Vec<String> = Vec::new();
    let provided: Vec<String> = Vec::new();
    assert!(is_package_installed_or_provided("rust", &installed, &provided, Some("rustup\n")));
    assert!(!is_package_installed_or_provided("rust", &installed, &provided, Some("")));
    assert!(!is_package_installed_or_provided("rust", &installed, &vec!["rust".to_string()], None));
    assert_eq!(check_if_provided(Some("  rustup \nother\n")), Some("rustup".to_string()));
    assert_eq!(check_if_provided(None), None);
}
