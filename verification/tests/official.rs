use arch_toolkit::aur::official::{
    bounded_detail, exact_official_match, invalid_mirror_health, mirror_health_of_probe,
    official_detail_from_document, parse_official_package, parse_official_package_detail,
    response_too_large, validate_metadata_request, validate_probe_request, MetadataFetchLimits,
    MirrorHealthLimits, MirrorHealthStatus, OfficialPackage, ProbeOutcome,
};
use arch_toolkit::aur::utils::{JsonNumber, JsonValue};
use arch_toolkit::error::ArchToolkitError;

fn package(name: &str, repo: &str, arch: &str) -> OfficialPackage {
    OfficialPackage {
        name: name.to_string(),
        repo: repo.to_string(),
        arch: arch.to_string(),
        version: String::new(),
        description: String::new(),
    }
}

#[test]
fn rejects_invalid_probe_requests() {
    assert!(validate_probe_request("/../etc/passwd", MirrorHealthLimits { max_mirrors: 1 }).is_err());
    assert!(validate_probe_request("/core.db", MirrorHealthLimits { max_mirrors: 0 }).is_err());
}

#[test]
fn probe_paths_must_be_plain_absolute_paths() {
    let limits = MirrorHealthLimits { max_mirrors: 3 };
    assert!(validate_probe_request("/core/os/x86_64/core.db", limits).is_ok());
    assert!(validate_probe_request("/a..b/c", limits).is_ok());
    assert!(validate_probe_request("relative/path", limits).is_err());
    assert!(validate_probe_request("/x?y", limits).is_err());
    assert!(validate_probe_request("/x#y", limits).is_err());
    assert!(validate_probe_request("/x/..", limits).is_err());
    assert_eq!(
        validate_probe_request("/x", MirrorHealthLimits { max_mirrors: 0 }),
        Err(ArchToolkitError::InvalidInput(
            "mirror health maximum probes must be greater than zero".to_string()
        ))
    );
}

#[test]
fn metadata_requests_need_a_name_and_bounds() {
    let limits = MetadataFetchLimits {
        max_response_bytes: 1024,
        max_candidates: 16,
    };
    assert!(validate_metadata_request(&package("bash", "", ""), limits).is_ok());
    assert!(matches!(
        validate_metadata_request(&package("  ", "", ""), limits),
        Err(ArchToolkitError::EmptyInput { .. })
    ));
    assert!(matches!(
        validate_metadata_request(
            &package("bash", "", ""),
            MetadataFetchLimits {
                max_response_bytes: 0,
                max_candidates: 16
            }
        ),
        Err(ArchToolkitError::InvalidInput(_))
    ));
}

#[test]
fn selectors_match_name_repo_and_arch() {
    let candidate = package("bash", "core", "x86_64");
    assert!(exact_official_match(&candidate, &package("bash", "", "")));
    assert!(exact_official_match(&candidate, &package("bash", "core", "x86_64")));
    assert!(!exact_official_match(&candidate, &package("bash", "extra", "")));
    assert!(!exact_official_match(&candidate, &package("zsh", "", "")));
}

#[test]
fn details_are_bounded_and_invalid_mirrors_reported() {
    assert_eq!(bounded_detail("abcdef", 3), "abc…");
    assert_eq!(bounded_detail("abc", 3), "abc");
    assert_eq!(
        response_too_large("package detail", 10),
        ArchToolkitError::InputTooLong {
            field: "package detail response".to_string(),
            max_length: 10,
            actual_length: 11
        }
    );
    let report = invalid_mirror_health(
        "https://mirror".to_string(),
        &ArchToolkitError::InvalidInput("bad".to_string()),
    );
    assert_eq!(report.status, MirrorHealthStatus::Invalid);
    assert_eq!(report.detail.as_deref(), Some("Invalid input: bad"));
    assert_eq!(report.status_code, None);
}

fn row(fields: &[(&str, &str)]) -> JsonValue {
    JsonValue::Object(
        fields
            .iter()
            .map(|(k, v)| (k.to_string(), JsonValue::Str(v.to_string())))
            .collect(),
    )
}

#[test]
fn rows_become_official_packages() {
    let r = row(&[
        ("pkgname", "bash"),
        ("pkgver", "5.2.037"),
        ("pkgrel", "5"),
        ("repo", "core"),
        ("arch", "x86_64"),
        ("pkgdesc", "The GNU Bourne Again shell"),
    ]);
    let p = parse_official_package(&r).unwrap();
    assert_eq!(p.name, "bash");
    assert_eq!(p.version, "5.2.037-5");
    assert_eq!(p.repo, "core");
    assert_eq!(p.arch, "x86_64");
    assert_eq!(p.description, "The GNU Bourne Again shell");

    let no_rel = parse_official_package(&row(&[("pkgname", "a"), ("pkgver", "1"), ("pkgrel", "")])).unwrap();
    assert_eq!(no_rel.version, "1");
    let no_ver = parse_official_package(&row(&[("pkgname", "a"), ("pkgrel", "2")])).unwrap();
    assert_eq!(no_ver.version, "");
    assert_eq!(no_ver.repo, "");
    assert!(parse_official_package(&row(&[("pkgver", "1")])).is_none());
    let numeric_name = JsonValue::Object(vec![(
        "pkgname".to_string(),
        JsonValue::Number(JsonNumber::PosInt(3)),
    )]);
    assert!(parse_official_package(&numeric_name).is_none());
}

#[test]
fn detail_picks_first_exact_candidate_within_bound() {
    let doc = JsonValue::Object(vec![(
        "results".to_string(),
        JsonValue::Array(vec![
            row(&[("pkgname", "bash-completion"), ("repo", "extra")]),
            row(&[("pkgname", "bash"), ("repo", "testing"), ("pkgver", "6")]),
            row(&[("pkgname", "bash"), ("repo", "core"), ("pkgver", "5")]),
        ]),
    )]);
    let any_repo = package("bash", "", "");
    let core = package("bash", "core", "");
    let found = official_detail_from_document(&doc, &any_repo, 10).unwrap().unwrap();
    assert_eq!(found.repo, "testing");
    let found = official_detail_from_document(&doc, &core, 10).unwrap().unwrap();
    assert_eq!(found.version, "5");
    assert_eq!(official_detail_from_document(&doc, &core, 2), Ok(None));
    assert_eq!(official_detail_from_document(&doc, &package("zsh", "", ""), 10), Ok(None));
    let no_results = JsonValue::Object(vec![("results".to_string(), JsonValue::Null)]);
    assert_eq!(
        official_detail_from_document(&no_results, &core, 10),
        Err(ArchToolkitError::Parse(
            "official package detail response is missing a 'results' array".to_string()
        ))
    );
}

#[test]
fn detail_reads_json_text() {
    let body = r#"{"results": [{"pkgname": "vim", "pkgver": "9.1", "pkgrel": "1", "repo": "extra", "arch": "x86_64", "pkgdesc": "Vi Improved"}]}"#;
    let found = parse_official_package_detail(body, &package("vim", "extra", "x86_64"), 5)
        .unwrap()
        .unwrap();
    assert_eq!(found.version, "9.1-1");
    assert_eq!(found.description, "Vi Improved");
    assert!(matches!(
        parse_official_package_detail("{not json", &package("vim", "", ""), 5),
        Err(ArchToolkitError::Json(_))
    ));
    assert!(matches!(
        parse_official_package_detail("[]", &package("vim", "", ""), 5),
        Err(ArchToolkitError::Parse(_))
    ));
}

#[test]
fn probe_outcomes_become_health_reports() {
    let ok = mirror_health_of_probe(
        "https://m.example/".to_string(),
        ProbeOutcome::Answered { status_code: 204, status_line: "204 No Content".to_string() },
    );
    assert_eq!(ok.status, MirrorHealthStatus::Reachable);
    assert_eq!(ok.status_code, Some(204));
    assert_eq!(ok.detail, None);
    let missing = mirror_health_of_probe(
        "https://m.example/".to_string(),
        ProbeOutcome::Answered { status_code: 404, status_line: "404 Not Found".to_string() },
    );
    assert_eq!(missing.status, MirrorHealthStatus::Unreachable);
    assert_eq!(missing.detail.as_deref(), Some("probe returned HTTP 404 Not Found"));
    let failed = mirror_health_of_probe(
        "https://m.example/".to_string(),
        ProbeOutcome::Failed { detail: "x".repeat(300) },
    );
    assert_eq!(failed.status, MirrorHealthStatus::Unreachable);
    assert_eq!(failed.status_code, None);
    assert_eq!(failed.detail.unwrap().chars().count(), 241);
}
