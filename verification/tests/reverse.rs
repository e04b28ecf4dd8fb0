use arch_toolkit::deps::reverse::{
    convert_entry, field_get, get_installed_required_by, has_installed_required_by,
    parse_key_value_output, pkg_info_from_output, split_ws_or_none, AggregatedEntry, PkgInfo,
    RecordGathering, ReverseDependencyAnalyzer, ReverseResolverState, RootRelation,
};
use arch_toolkit::types::{DependencySource, DependencyStatus, PackageRef, PackageSource};

fn pkg_ref(name: &str) -> PackageRef {
    PackageRef {
        name: name.into(),
        version: "1.0".into(),
        source: PackageSource::Official { repo: "extra".into(), arch: "x86_64".into() },
    }
}

fn pkg_info_stub(name: &str) -> PkgInfo {
    PkgInfo {
        name: name.into(),
        version: "2.0".into(),
        repo: Some("extra".into()),
        groups: Vec::new(),
        required_by: Vec::new(),
        explicit: false,
    }
}

#[test]
fn update_entry_tracks_root_relations_and_selection() {
    let targets = vec![pkg_ref("root"), pkg_ref("app")];
    let mut state = ReverseResolverState::new(&targets, vec![pkg_info_stub("app")]);
    state.update_entry("app", "root", "root", 1);
    let entry = &state
        .aggregated
        .iter()
        .find(|(name, _)| name == "app")
        .expect("aggregated entry populated")
        .1;
    assert!(entry.selected_for_removal, "target membership flagged");
    assert_eq!(entry.info.name, "app");
    let relation = &entry
        .per_root
        .iter()
        .find(|(root, _)| root == "root")
        .expect("relation stored for root")
        .1;
    assert_eq!(relation.min_depth(), 1);
    assert!(relation.parents.contains(&"root".to_string()));
}

#[test]
fn convert_entry_produces_conflict_reason_and_flags() {
    let mut relation_a = RootRelation::new();
    relation_a.record("root", 1);
    let mut relation_b = RootRelation::new();
    relation_b.record("parent_x", 2);
    relation_b.record("parent_y", 2);
    let entry = AggregatedEntry {
        info: PkgInfo {
            name: "dep_alias".into(),
            version: "3.1".into(),
            repo: Some("core".into()),
            groups: vec!["base".into()],
            required_by: Vec::new(),
            explicit: true,
        },
        per_root: vec![("root".into(), relation_a), ("other".into(), relation_b)],
        selected_for_removal: true,
    };
    let info = convert_entry("dep".into(), entry);
    let DependencyStatus::Conflict { reason } = &info.status else {
        panic!("expected conflict status");
    };
    assert!(reason.contains("requires root"));
    assert!(reason.contains("blocks other"));
    assert!(reason.contains("already selected for removal"));
    assert!(reason.contains("explicitly installed"));
    assert_eq!(info.required_by, vec!["other", "root"]);
    assert_eq!(info.depends_on, vec!["parent_x", "parent_y", "root"]);
    assert!(info.is_core);
    assert!(info.is_system);
    assert_eq!(info.name, "dep_alias");
}

#[test]
fn parse_key_value_output_merges_wrapped_lines() {
    let sample = "Name            : pkg\nDescription     : Short desc\n                continuation line\nRequired By     : foo bar\nInstall Reason  : Explicitly installed\n";
    let map = parse_key_value_output(sample);
    assert_eq!(field_get(&map, "Name"), Some(&"pkg".to_string()));
    assert_eq!(field_get(&map, "Description"), Some(&"Short desc continuation line".to_string()));
    assert_eq!(field_get(&map, "Required By"), Some(&"foo bar".to_string()));
}

#[test]
fn split_ws_or_none_handles_none_and_empty() {
    assert!(split_ws_or_none(Some(&"None".to_string())).is_empty());
    assert!(split_ws_or_none(Some(&"   ".to_string())).is_empty());
    let list = split_ws_or_none(Some(&"foo bar".to_string()));
    assert_eq!(list, vec!["foo", "bar"]);
    assert!(split_ws_or_none(None).is_empty());
}

#[test]
fn root_relation_tracks_depth_and_parents() {
    let mut relation = RootRelation::new();
    assert_eq!(relation.min_depth(), usize::MAX);
    relation.record("parent1", 2);
    assert_eq!(relation.min_depth(), 2);
    assert!(relation.parents.contains(&"parent1".to_string()));
    relation.record("parent2", 1);
    assert_eq!(relation.min_depth(), 1);
    assert!(relation.parents.contains(&"parent1".to_string()));
    assert!(relation.parents.contains(&"parent2".to_string()));
    relation.record("", 3);
    assert_eq!(relation.min_depth(), 1);
    assert_eq!(relation.parents.len(), 2);
}

#[test]
fn pkg_info_reads_query_fields() {
    let text = "Name            : foo\nVersion         : 1.2-3\nRepository      : Core\nGroups          : base\nRequired By     : bar baz\nInstall Reason  : Explicitly installed\n";
    let info = pkg_info_from_output("ignored", text);
    assert_eq!(info.name, "foo");
    assert_eq!(info.version, "1.2-3");
    assert_eq!(info.repo, Some("Core".to_string()));
    assert_eq!(info.groups, vec!["base".to_string()]);
    assert_eq!(info.required_by, vec!["bar".to_string(), "baz".to_string()]);
    assert!(info.explicit);
    let info = pkg_info_from_output("fallback", "Required By : None\n");
    assert_eq!(info.name, "fallback");
    assert!(info.required_by.is_empty());
    assert!(!info.explicit);
}

fn info(name: &str, required_by: &[&str]) -> PkgInfo {
    PkgInfo {
        name: name.into(),
        version: "1".into(),
        repo: Some("extra".into()),
        groups: Vec::new(),
        required_by: required_by.iter().map(|s| s.to_string()).collect(),
        explicit: false,
    }
}

#[test]
fn analyze_reports_direct_and_transitive_dependents() {
    let db = vec![info("lib", &["app"]), info("app", &["plugin"]), info("plugin", &[])];
    let report = ReverseDependencyAnalyzer::new().analyze(&[pkg_ref("lib")], db).unwrap();
    let names: Vec<&str> = report.dependents.iter().map(|d| d.name.as_str()).collect();
    assert_eq!(names, vec!["app", "plugin"]);
    assert_eq!(report.summaries.len(), 1);
    let s = &report.summaries[0];
    assert_eq!(s.package, "lib");
    assert_eq!(s.direct_dependents, 1);
    assert_eq!(s.transitive_dependents, 1);
    assert_eq!(s.total_dependents, 2);
    let plugin = &report.dependents[1];
    match &plugin.status {
        DependencyStatus::Conflict { reason } => assert_eq!(reason, "blocks lib (depth 2 via app)"),
        _ => panic!("expected conflict"),
    }
    assert_eq!(plugin.source, DependencySource::Official { repo: "extra".into() });
}

#[test]
fn analyze_of_nothing_is_empty_and_missing_targets_get_summaries() {
    let report = ReverseDependencyAnalyzer::new().analyze(&[], Vec::new()).unwrap();
    assert!(report.dependents.is_empty() && report.summaries.is_empty());
    let report = ReverseDependencyAnalyzer::new().analyze(&[pkg_ref("ghost")], Vec::new()).unwrap();
    assert!(report.dependents.is_empty());
    assert_eq!(report.summaries.len(), 1);
    assert_eq!(report.summaries[0].total_dependents, 0);
}

#[test]
fn installed_dependents_are_filtered() {
    let i = info("lib", &["app", "gone", "tool"]);
    let installed = vec!["tool".to_string(), "app".to_string()];
    assert_eq!(get_installed_required_by(&i, &installed), vec!["app".to_string(), "tool".to_string()]);
    assert!(has_installed_required_by(&i, &installed));
    assert!(!has_installed_required_by(&i, &[]));
}

#[test]
fn analyze_keeps_breadth_first_depth_and_all_parents() {
    let db = vec![
        info("lib", &["a", "b"]),
        info("a", &["c"]),
        info("b", &["c", "d"]),
        info("c", &["d"]),
        info("d", &[]),
    ];
    let targets = [pkg_ref("lib"), pkg_ref(" lib ")];
    let report = ReverseDependencyAnalyzer::new().analyze(&targets, db).unwrap();
    let names: Vec<&str> = report.dependents.iter().map(|d| d.name.as_str()).collect();
    assert_eq!(names, vec!["a", "b", "c", "d"]);
    let d = &report.dependents[3];
    assert_eq!(d.depends_on, vec!["b".to_string(), "c".to_string()]);
    assert_eq!(d.required_by, vec!["lib".to_string()]);
    match &d.status {
        DependencyStatus::Conflict { reason } => assert_eq!(reason, "blocks lib (depth 2 via b, c)"),
        _ => panic!("expected conflict"),
    }
    let c = &report.dependents[2];
    assert_eq!(c.depends_on, vec!["a".to_string(), "b".to_string()]);
    let packages: Vec<&str> = report.summaries.iter().map(|s| s.package.as_str()).collect();
    assert_eq!(packages, vec![" lib ", "lib"]);
    let padded = &report.summaries[0];
    assert_eq!((padded.direct_dependents, padded.transitive_dependents, padded.total_dependents), (0, 0, 0));
    let lib = &report.summaries[1];
    assert_eq!((lib.direct_dependents, lib.transitive_dependents, lib.total_dependents), (2, 2, 4));
}

#[test]
fn record_gathering_asks_breadth_first_once_per_name() {
    let targets = [pkg_ref(" lib "), pkg_ref(""), pkg_ref("lib")];
    let mut g = RecordGathering::start(&targets);
    assert_eq!(g.step(None), Some("lib".to_string()));
    assert_eq!(g.step(Some(info("lib", &["a", "", "b"]))), Some("a".to_string()));
    assert_eq!(g.step(Some(info("a", &["b"]))), Some("b".to_string()));
    assert_eq!(g.step(None), None);
    let db = g.records();
    let names: Vec<&str> = db.iter().map(|i| i.name.as_str()).collect();
    assert_eq!(names, vec!["lib", "a"]);
}
