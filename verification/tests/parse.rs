use arch_toolkit::deps::{
    is_valid_package_token, parse_dep_spec, parse_pacman_si_conflicts, parse_pacman_si_deps,
};


// === parse_dep_spec tests ===

#[test]
fn parse_dep_spec_no_version() {
    let spec = parse_dep_spec("glibc");
    assert_eq!(spec.name, "glibc");
    assert!(spec.version_req.is_empty());
    assert!(!spec.has_version_req());
}

#[test]
fn parse_dep_spec_greater_equal() {
    let spec = parse_dep_spec("python>=3.12");
    assert_eq!(spec.name, "python");
    assert_eq!(spec.version_req, ">=3.12");
}

#[test]
fn parse_dep_spec_less_equal() {
    let spec = parse_dep_spec("openssl<=1.1.1");
    assert_eq!(spec.name, "openssl");
    assert_eq!(spec.version_req, "<=1.1.1");
}

#[test]
fn parse_dep_spec_equal() {
    let spec = parse_dep_spec("firefox=121.0");
    assert_eq!(spec.name, "firefox");
    assert_eq!(spec.version_req, "=121.0");
}

#[test]
fn parse_dep_spec_greater() {
    let spec = parse_dep_spec("rust>1.70");
    assert_eq!(spec.name, "rust");
    assert_eq!(spec.version_req, ">1.70");
}

#[test]
fn parse_dep_spec_less() {
    let spec = parse_dep_spec("cmake<4.0");
    assert_eq!(spec.name, "cmake");
    assert_eq!(spec.version_req, "<4.0");
}

#[test]
fn parse_dep_spec_with_whitespace() {
    let spec = parse_dep_spec("  python >= 3.12  ");
    assert_eq!(spec.name, "python");
    assert_eq!(spec.version_req, ">= 3.12");
}

#[test]
fn parse_dep_spec_complex_version() {
    let spec = parse_dep_spec("qt5-base>=5.15.10-1");
    assert_eq!(spec.name, "qt5-base");
    assert_eq!(spec.version_req, ">=5.15.10-1");
}

// === is_valid_package_token tests ===

#[test]
fn is_valid_package_token_valid() {
    assert!(is_valid_package_token("glibc"));
    assert!(is_valid_package_token("qt5-base"));
    assert!(is_valid_package_token("python3"));
    assert!(is_valid_package_token("lib32-glibc"));
}

#[test]
fn is_valid_package_token_so_files() {
    assert!(!is_valid_package_token("libedit.so"));
    assert!(!is_valid_package_token("libgit2.so.1"));
    assert!(!is_valid_package_token("libfoo.so=0-64"));
}

#[test]
fn is_valid_package_token_common_words() {
    assert!(!is_valid_package_token("for"));
    assert!(!is_valid_package_token("with"));
    assert!(!is_valid_package_token("the"));
}

#[test]
fn is_valid_package_token_short() {
    assert!(!is_valid_package_token("a"));
    assert!(!is_valid_package_token(""));
}

#[test]
fn is_valid_package_token_invalid_start() {
    assert!(!is_valid_package_token("(test)"));
    assert!(!is_valid_package_token("[optional]"));
}

#[test]
fn is_valid_package_token_colon_ending() {
    assert!(!is_valid_package_token("error:"));
}

// === parse_pacman_si_deps tests ===

#[test]
fn parse_pacman_si_deps_basic() {
    let text = "Name            : firefox\nDepends On      : glibc gtk3 nss\n";
    let deps = parse_pacman_si_deps(text);
    assert_eq!(deps.len(), 3);
    assert!(deps.contains(&"glibc".to_string()));
    assert!(deps.contains(&"gtk3".to_string()));
    assert!(deps.contains(&"nss".to_string()));
}

#[test]
fn parse_pacman_si_deps_with_versions() {
    let text = "Depends On      : python>=3.10 rust>=1.70\n";
    let deps = parse_pacman_si_deps(text);
    assert_eq!(deps.len(), 2);
    assert!(deps.contains(&"python>=3.10".to_string()));
    assert!(deps.contains(&"rust>=1.70".to_string()));
}

#[test]
fn parse_pacman_si_deps_none() {
    let text = "Depends On      : None\n";
    let deps = parse_pacman_si_deps(text);
    assert!(deps.is_empty());
}

#[test]
fn parse_pacman_si_deps_empty() {
    let text = "Depends On      :\n";
    let deps = parse_pacman_si_deps(text);
    assert!(deps.is_empty());
}

#[test]
fn parse_pacman_si_deps_filters_so() {
    let text = "Depends On      : glibc libedit.so libgit2.so.1 nss\n";
    let deps = parse_pacman_si_deps(text);
    assert_eq!(deps.len(), 2);
    assert!(deps.contains(&"glibc".to_string()));
    assert!(deps.contains(&"nss".to_string()));
}

#[test]
fn parse_pacman_si_deps_no_depends_line() {
    let text = "Name            : firefox\nVersion         : 121.0\n";
    let deps = parse_pacman_si_deps(text);
    assert!(deps.is_empty());
}

#[test]
fn parse_pacman_si_deps_deduplicates() {
    let text = "Depends On      : glibc gtk3 glibc nss gtk3\n";
    let deps = parse_pacman_si_deps(text);
    assert_eq!(deps.len(), 3, "Should deduplicate dependencies");
    assert!(deps.contains(&"glibc".to_string()));
    assert!(deps.contains(&"gtk3".to_string()));
    assert!(deps.contains(&"nss".to_string()));
}

#[test]
fn parse_pacman_si_deps_multiline() {
    let text = "Name            : firefox\nDepends On      : glibc gtk3 libpulse nss\n                  libxt libxss libxcomposite\n                  libx11 libxcb\n";
    let deps = parse_pacman_si_deps(text);
    assert_eq!(deps.len(), 9);
    assert!(deps.contains(&"glibc".to_string()));
    assert!(deps.contains(&"gtk3".to_string()));
    assert!(deps.contains(&"libpulse".to_string()));
    assert!(deps.contains(&"nss".to_string()));
    assert!(deps.contains(&"libxt".to_string()));
    assert!(deps.contains(&"libxss".to_string()));
    assert!(deps.contains(&"libxcomposite".to_string()));
    assert!(deps.contains(&"libx11".to_string()));
    assert!(deps.contains(&"libxcb".to_string()));
}

// === parse_pacman_si_conflicts tests ===

#[test]
fn parse_pacman_si_conflicts_basic() {
    let text = "Conflicts With  : conflicting-pkg1 conflicting-pkg2\n";
    let conflicts = parse_pacman_si_conflicts(text);
    assert_eq!(conflicts.len(), 2);
    assert!(conflicts.contains(&"conflicting-pkg1".to_string()));
    assert!(conflicts.contains(&"conflicting-pkg2".to_string()));
}

#[test]
fn parse_pacman_si_conflicts_with_versions() {
    let text = "Conflicts With  : old-pkg<2.0 new-pkg>=3.0\n";
    let conflicts = parse_pacman_si_conflicts(text);
    assert_eq!(conflicts.len(), 2);
    assert!(conflicts.contains(&"old-pkg".to_string()));
    assert!(conflicts.contains(&"new-pkg".to_string()));
}

#[test]
fn parse_pacman_si_conflicts_none() {
    let text = "Conflicts With  : None\n";
    let conflicts = parse_pacman_si_conflicts(text);
    assert!(conflicts.is_empty());
}

#[test]
fn parse_pacman_si_conflicts_empty() {
    let text = "Conflicts With  :\n";
    let conflicts = parse_pacman_si_conflicts(text);
    assert!(conflicts.is_empty());
}

#[test]
fn parse_pacman_si_conflicts_no_conflicts_line() {
    let text = "Name            : firefox\nVersion         : 121.0\n";
    let conflicts = parse_pacman_si_conflicts(text);
    assert!(conflicts.is_empty());
}

#[test]
fn parse_pacman_si_conflicts_deduplicates() {
    let text = "Conflicts With  : pkg1 pkg2 pkg1 pkg3\n";
    let conflicts = parse_pacman_si_conflicts(text);
    assert_eq!(conflicts.len(), 3, "Should deduplicate conflicts");
    assert!(conflicts.contains(&"pkg1".to_string()));
    assert!(conflicts.contains(&"pkg2".to_string()));
    assert!(conflicts.contains(&"pkg3".to_string()));
}


// === multi-package -Si output ===

#[test]
fn test_batch_fetch_official_deps_parsing() {
    let sample_output = "Name            : firefox\nDepends On      : glibc\n\nName            : vim\nDepends On      : glibc\n";
    let package_blocks = arch_toolkit::deps::parse::package_blocks(sample_output);
    assert_eq!(package_blocks.len(), 2);
    assert!(package_blocks[0].contains("firefox"));
    assert!(package_blocks[1].contains("vim"));
}

#[test]
fn package_blocks_skip_repeated_blank_lines() {
    let text = "\n\nName : a\n  \n\nName : b\nDepends On : c\n\n";
    let blocks = arch_toolkit::deps::parse::package_blocks(text);
    assert_eq!(blocks, vec!["Name : a\n".to_string(), "Name : b\nDepends On : c\n".to_string()]);
}

#[test]
fn block_name_takes_first_name_line() {
    assert_eq!(arch_toolkit::deps::parse::block_name("Repository : extra\nName : firefox \nName : other\n"), Some("firefox".to_string()));
    assert_eq!(arch_toolkit::deps::parse::block_name("Version : 1\n"), None);
    assert_eq!(arch_toolkit::deps::parse::block_name("Name without colon\nName : late\n"), None);
}

#[test]
fn batch_output_pairs_names_with_dependencies() {
    let text = "Name            : firefox\nDepends On      : glibc  gtk3>=3.0\n\nVersion : 2\n\nName            : vim\nDepends On      : None\n";
    let entries = arch_toolkit::deps::parse::parse_batch_si_output(text);
    assert_eq!(entries.len(), 2);
    assert_eq!(entries[0].0, "firefox");
    assert_eq!(entries[0].1, vec!["glibc".to_string(), "gtk3>=3.0".to_string()]);
    assert_eq!(entries[1].0, "vim");
    assert!(entries[1].1.is_empty());
}

#[test]
fn replacement_follows_str_replace() {
    let r = |s: &str, from: &str, to: &str| -> String {
        let c: Vec<char> = s.chars().collect();
        let f: Vec<char> = from.chars().collect();
        let t: Vec<char> = to.chars().collect();
        arch_toolkit::text::replace_chars(&c, &f, &t).into_iter().collect()
    };
    for (s, from, to) in [
        ("aaa", "aa", "b"),
        ("abcabc", "bc", "XY"),
        ("ab", "", "x"),
        ("", "", "x"),
        ("", "a", "x"),
        ("héllo wörld", "ö", "oe"),
        ("xyz", "xyzw", "q"),
    ] {
        assert_eq!(r(s, from, to), s.replace(from, to), "{s:?} {from:?} {to:?}");
    }
}
