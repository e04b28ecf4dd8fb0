use arch_toolkit::deps::resolve::{
    conflicts_from_answer, dependencies_from_answer, dependency_priority, determine_status,
    merge_dependency, package_queries, pkgbuild_fallback_deps, process_dependency_spec,
    should_filter_dependency, package_facts, DependencyResolver, HostFacts, PackageFacts,
};
use arch_toolkit::types::{
    Dependency, DependencySource, DependencyStatus, PackageRef, PackageSource, ResolverConfig,
};

fn no_host() -> HostFacts {
    HostFacts {
        installed: Vec::new(),
        provided: Vec::new(),
        upgradable: Vec::new(),
        installed_versions: Vec::new(),
        available_versions: Vec::new(),
    }
}

#[test]
fn test_should_filter_dependency() {
    assert!(should_filter_dependency("libfoo.so", "package"));
    assert!(should_filter_dependency("libfoo.so.1", "package"));
    assert!(should_filter_dependency("libfoo.so=1", "package"));
    assert!(should_filter_dependency("package", "package"));
    assert!(!should_filter_dependency("glibc", "package"));
    assert!(!should_filter_dependency("firefox", "package"));
}

#[test]
fn test_determine_status_not_installed() {
    let installed: Vec<String> = Vec::new();
    let provided: Vec<String> = Vec::new();
    let upgradable: Vec<String> = Vec::new();

    let status = determine_status("nonexistent", "", &installed, &provided, &upgradable, None, None);
    assert!(matches!(status, DependencyStatus::ToInstall));
}

#[test]
fn test_dependency_priority() {
    assert_eq!(dependency_priority(&DependencyStatus::Conflict { reason: "test".to_string() }), 0);
    assert_eq!(dependency_priority(&DependencyStatus::Missing), 1);
    assert_eq!(dependency_priority(&DependencyStatus::ToInstall), 2);
    assert_eq!(
        dependency_priority(&DependencyStatus::ToUpgrade {
            current: "1.0".to_string(),
            required: "2.0".to_string(),
        }),
        3
    );
    assert_eq!(dependency_priority(&DependencyStatus::Installed { version: "1.0".to_string() }), 4);
}

#[test]
fn test_dependency_resolver_new() {
    let resolver = DependencyResolver::new();
    assert!(matches!(resolver.config.max_depth, 0));
}

#[test]
fn test_dependency_resolver_with_config() {
    let config = ResolverConfig {
        include_optdepends: true,
        include_makedepends: true,
        include_checkdepends: true,
        max_depth: 2,
        pkgbuild_cache: None,
        check_aur: true,
    };
    let resolver = DependencyResolver::with_config(config);
    assert_eq!(resolver.config.max_depth, 2);
    assert!(resolver.config.include_optdepends);
    assert!(resolver.config.check_aur);
}

#[test]
fn test_dependency_resolver_resolve_empty() {
    let resolver = DependencyResolver::new();
    let result = resolver
        .resolve(&[], &no_host(), &[])
        .expect("resolve should succeed for empty packages");
    assert_eq!(result.dependencies.len(), 0);
    assert_eq!(result.conflicts.len(), 0);
    assert_eq!(result.missing.len(), 0);
}

fn host() -> HostFacts {
    HostFacts {
        installed: vec!["glibc".into(), "python".into(), "vim".into()],
        provided: vec!["sh".into()],
        upgradable: vec!["vim".into()],
        installed_versions: vec![("glibc".into(), "2.39".into()), ("python".into(), "3.11.0".into()), ("vim".into(), "9.0".into())],
        available_versions: vec![("vim".into(), "9.1".into())],
    }
}

#[test]
fn status_covers_each_case() {
    let h = host();
    let st = |n: &str, r: &str| {
        let iv = h.installed_versions.iter().find(|(k, _)| k == n).map(|(_, v)| v.as_str());
        let av = h.available_versions.iter().find(|(k, _)| k == n).map(|(_, v)| v.as_str());
        determine_status(n, r, &h.installed, &h.provided, &h.upgradable, iv, av)
    };
    assert_eq!(st("glibc", ""), DependencyStatus::Installed { version: "2.39".into() });
    assert_eq!(st("python", ">=3.12"), DependencyStatus::ToUpgrade { current: "3.11.0".into(), required: ">=3.12".into() });
    assert_eq!(st("python", ">=3.10"), DependencyStatus::Installed { version: "3.11.0".into() });
    assert_eq!(st("vim", ""), DependencyStatus::ToUpgrade { current: "9.0".into(), required: "9.1".into() });
    assert_eq!(st("sh", ""), DependencyStatus::Installed { version: "installed".into() });
    assert_eq!(st("zsh", ""), DependencyStatus::ToInstall);
    assert_eq!(h.status_of("vim", ">=8"), DependencyStatus::ToUpgrade { current: "9.0".into(), required: "9.1".into() });
}

fn dep(name: &str, req: &str, status: DependencyStatus) -> Dependency {
    Dependency {
        name: name.into(),
        version_req: req.into(),
        status,
        source: DependencySource::Official { repo: "extra".into() },
        required_by: vec!["x".into()],
        depends_on: Vec::new(),
        is_core: false,
        is_system: false,
    }
}

#[test]
fn merge_keeps_worst_status_and_requesters() {
    let h = host();
    let mut deps = Vec::new();
    merge_dependency(&dep("python", "", DependencyStatus::Installed { version: "3.11.0".into() }), "a", &h, &mut deps);
    merge_dependency(&dep("python", "", DependencyStatus::ToInstall), "b", &h, &mut deps);
    assert_eq!(deps.len(), 1);
    assert_eq!(deps[0].status, DependencyStatus::ToInstall);
    assert_eq!(deps[0].required_by, vec!["a".to_string(), "b".to_string()]);
    merge_dependency(&dep("python", ">=3.12", DependencyStatus::ToInstall), "b", &h, &mut deps);
    assert_eq!(deps[0].version_req, ">=3.12");
}

#[test]
fn resolve_orders_by_severity_then_name_and_lists_conflicts() {
    let h = host();
    let pkgs = vec![
        PackageRef { name: "app".into(), version: "1".into(), source: PackageSource::Aur },
        PackageRef { name: "tool".into(), version: "1".into(), source: PackageSource::Official { repo: "extra".into(), arch: "x86_64".into() } },
    ];
    let record = |spec: &str| {
        process_dependency_spec(spec, "app", &h, DependencySource::Official { repo: "extra".into() }, false).unwrap()
    };
    let facts = vec![
        PackageFacts {
            conflicts: vec!["vim".into(), "emacs".into()],
            dependencies: Some(vec![record("glibc"), record("libx"), record("zlib"), record("vim")]),
        },
        PackageFacts { conflicts: Vec::new(), dependencies: None },
    ];
    let res = DependencyResolver::new().resolve(&pkgs, &h, &facts).unwrap();
    assert_eq!(res.conflicts, vec!["vim".to_string()]);
    assert_eq!(res.missing, vec!["tool".to_string()]);
    let names: Vec<&str> = res.dependencies.iter().map(|d| d.name.as_str()).collect();
    assert_eq!(names, vec!["vim", "libx", "zlib", "glibc"]);
    match &res.dependencies[0].status {
        DependencyStatus::Conflict { reason } => assert_eq!(reason, "Conflicts with app"),
        _ => panic!("expected conflict"),
    }
    assert_eq!(res.dependencies[0].required_by, vec!["app".to_string()]);
    for d in &res.dependencies[1..] {
        assert!(!matches!(d.status, DependencyStatus::Conflict { .. }));
    }
}

#[test]
fn process_spec_filters_and_builds_records() {
    let h = host();
    assert!(process_dependency_spec("app", "app", &h, DependencySource::Aur, false).is_none());
    assert!(process_dependency_spec("libfoo.so=1", "app", &h, DependencySource::Aur, false).is_none());
    let d = process_dependency_spec("glibc>=2.30", "app", &h, DependencySource::Official { repo: "core".into() }, true).unwrap();
    assert_eq!(d.name, "glibc");
    assert_eq!(d.version_req, ">=2.30");
    assert_eq!(d.status, DependencyStatus::Installed { version: "2.39".into() });
    assert!(d.is_core && d.is_system);
    assert_eq!(d.required_by, vec!["app".to_string()]);
}

fn official(repo: &str) -> PackageSource {
    PackageSource::Official { repo: repo.to_string(), arch: "x86_64".to_string() }
}

#[test]
fn package_queries_follow_the_source() {
    let q = package_queries(&official("local"), true, true);
    assert_eq!(q.len(), 1);
    assert_eq!((q[0].program.as_str(), q[0].option.as_str()), ("pacman", "-Qi"));
    let q = package_queries(&official("extra"), false, false);
    assert_eq!((q[0].program.as_str(), q[0].option.as_str()), ("pacman", "-Si"));
    let q = package_queries(&PackageSource::Aur, true, true);
    assert_eq!(q.len(), 2);
    assert_eq!(q[0].program, "paru");
    assert_eq!(q[1].program, "yay");
    let q = package_queries(&PackageSource::Aur, false, true);
    assert_eq!(q.len(), 1);
    assert_eq!(q[0].program, "yay");
    assert!(package_queries(&PackageSource::Aur, false, false).is_empty());
}

#[test]
fn conflict_answers_settle_official_at_once_and_aur_when_named() {
    let text = "Name            : foo\nConflicts With  : bar>=1.0  baz\n";
    assert_eq!(
        conflicts_from_answer(&official("extra"), Some(text)),
        Some(vec!["bar".to_string(), "baz".to_string()])
    );
    assert_eq!(conflicts_from_answer(&official("extra"), None), Some(Vec::new()));
    assert_eq!(
        conflicts_from_answer(&PackageSource::Aur, Some(text)),
        Some(vec!["bar".to_string(), "baz".to_string()])
    );
    assert_eq!(
        conflicts_from_answer(&PackageSource::Aur, Some("Conflicts With  : None\n")),
        None
    );
    assert_eq!(conflicts_from_answer(&PackageSource::Aur, None), None);
}

#[test]
fn dependency_answers_follow_the_source() {
    let text = "Name            : foo\nDepends On      : glibc  bash>=5\n";
    let deps = vec!["glibc".to_string(), "bash>=5".to_string()];
    assert_eq!(dependencies_from_answer("foo", &official("extra"), Ok(text)), Some(Ok(deps.clone())));
    assert_eq!(dependencies_from_answer("foo", &official("local"), Err("error: x")), Some(Ok(Vec::new())));
    assert_eq!(
        dependencies_from_answer("foo", &official("extra"), Err("error: target not found")),
        Some(Err(arch_toolkit::error::ArchToolkitError::Parse(
            "pacman -Si failed for foo: error: target not found".to_string()
        )))
    );
    assert_eq!(dependencies_from_answer("foo", &PackageSource::Aur, Ok(text)), Some(Ok(deps)));
    assert_eq!(dependencies_from_answer("foo", &PackageSource::Aur, Ok("Depends On : None\n")), None);
    assert_eq!(dependencies_from_answer("foo", &PackageSource::Aur, Err("boom")), None);
}

#[test]
fn cached_pkgbuilds_give_fallback_dependencies() {
    let cache = vec![
        ("other".to_string(), "depends=('x')".to_string()),
        ("foo".to_string(), "pkgname=foo\ndepends=('glibc' 'zlib')\nmakedepends=('cmake')\n".to_string()),
        ("foo".to_string(), "depends=('ignored')".to_string()),
    ];
    assert_eq!(
        pkgbuild_fallback_deps("foo", Some(&cache)),
        vec!["glibc".to_string(), "zlib".to_string()]
    );
    assert!(pkgbuild_fallback_deps("bar", Some(&cache)).is_empty());
    assert!(pkgbuild_fallback_deps("foo", None).is_empty());
}

#[test]
fn package_facts_records_statuses_from_the_host() {
    let h = host();
    let specs = vec!["glibc".to_string(), "python>=3.12".to_string(), "app".to_string(), "libfoo.so".to_string()];
    let sources = vec![(DependencySource::Local, false); 4];
    let f = package_facts(vec!["old-app".to_string()], Some((specs, sources)), "app", &h);
    assert_eq!(f.conflicts, vec!["old-app".to_string()]);
    let deps = f.dependencies.expect("dependencies");
    let names: Vec<&str> = deps.iter().map(|d| d.name.as_str()).collect();
    assert_eq!(names, vec!["glibc", "python"]);
    assert_eq!(deps[0].status, DependencyStatus::Installed { version: "2.39".into() });
    assert_eq!(deps[1].status, DependencyStatus::ToUpgrade { current: "3.11.0".into(), required: ">=3.12".into() });
    assert_eq!(deps[1].required_by, vec!["app".to_string()]);
    let none = package_facts(Vec::new(), None, "app", &h);
    assert!(none.dependencies.is_none());
}
