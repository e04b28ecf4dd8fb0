use std::time::Duration;

use arch_toolkit::deps::graph::{
    intersect_requirement, mark_expansion, requirement_is_well_formed, resolve_dependency_graph,
    validate_graph_config, DependencyConstraintRange, DependencyGraphConfig,
    DependencyGraphDiagnosticKind, DependencyGraphNodeStatus, DependencyMetadata,
    DependencyMetadataProvider, DependencyMetadataResponse,
};
use arch_toolkit::error::ArchToolkitError;
use arch_toolkit::types::{DependencySource, PackageRef, PackageSource};

/// Answers from a fixed table of `.SRCINFO` documents keyed by requested name; a name maps to
/// the selected package output and its document.
struct Fixtures {
    entries: Vec<(String, String, String)>,
}

impl Fixtures {
    fn new(entries: &[(&str, &str, &str)]) -> Fixtures {
        Fixtures {
            entries: entries
                .iter()
                .map(|(r, p, s)| (r.to_string(), p.to_string(), s.to_string()))
                .collect(),
        }
    }
}

impl DependencyMetadataProvider for Fixtures {
    fn fetch_metadata(
        &self,
        requested_names: &[String],
        _timeout: Duration,
    ) -> Vec<DependencyMetadataResponse> {
        requested_names
            .iter()
            .map(|name| {
                match self.entries.iter().find(|(requested, _, _)| requested == name) {
                    Some((requested, package, srcinfo)) => {
                        DependencyMetadataResponse::Found(DependencyMetadata {
                            requested_name: requested.clone(),
                            package_name: package.clone(),
                            source: DependencySource::Aur,
                            srcinfo: srcinfo.clone(),
                        })
                    }
                    None => DependencyMetadataResponse::Missing {
                        requested_name: name.clone(),
                        reason: "not found".to_string(),
                    },
                }
            })
            .collect()
    }
}

fn root(name: &str) -> PackageRef {
    PackageRef {
        name: name.to_string(),
        version: String::new(),
        source: PackageSource::Aur,
    }
}

fn srcinfo(name: &str, version: &str, fields: &[(&str, &str)]) -> String {
    let mut text = format!("pkgbase = {name}\n\tpkgver = {version}\n\tpkgrel = 1\n");
    for (key, value) in fields {
        text.push_str(&format!("\t{key} = {value}\n"));
    }
    text.push_str(&format!("\npkgname = {name}\n"));
    text
}

#[test]
fn intersect_requirement_handles_epoch_and_pkgrel() {
    let range = intersect_requirement(&DependencyConstraintRange::default(), ">=1:2.0-3")
        .unwrap_or_default();
    let range = intersect_requirement(&range, "<=1:3.0-1").unwrap_or_default();
    assert_eq!(
        range.lower.as_ref().map(|bound| bound.version.as_str()),
        Some("1:2.0-3")
    );
    assert_eq!(
        range.upper.as_ref().map(|bound| bound.version.as_str()),
        Some("1:3.0-1")
    );
    assert!(intersect_requirement(&range, "<1:2.0-3").is_none());
}

#[test]
fn validate_graph_config_rejects_zero_mandatory_bounds() {
    assert!(
        validate_graph_config(&DependencyGraphConfig {
            max_nodes: 0,
            ..DependencyGraphConfig::default()
        })
        .is_err()
    );
    assert!(
        validate_graph_config(&DependencyGraphConfig {
            metadata_timeout: Duration::ZERO,
            ..DependencyGraphConfig::default()
        })
        .is_err()
    );
    assert!(
        validate_graph_config(&DependencyGraphConfig {
            max_concurrency: 0,
            ..DependencyGraphConfig::default()
        })
        .is_err()
    );
}

#[test]
fn expansion_memoization_bounds_shared_paths() {
    let mut expanded = Vec::new();
    assert!(mark_expansion(&mut expanded, "shared", 4));
    assert!(!mark_expansion(&mut expanded, "shared", 4));
    assert!(!mark_expansion(&mut expanded, "shared", 6));
    assert!(mark_expansion(&mut expanded, "shared", 2));
    assert!(!mark_expansion(&mut expanded, "shared", 3));
}

#[test]
fn requirement_validation_distinguishes_malformed_constraints() {
    assert!(requirement_is_well_formed(""));
    assert!(requirement_is_well_formed(">=1.0"));
    assert!(!requirement_is_well_formed("1.0"));
    assert!(!requirement_is_well_formed(">="));
}

#[test]
fn graph_config_defaults_and_zero_depth() {
    let config = DependencyGraphConfig::default();
    assert_eq!(config.max_depth, 10);
    assert_eq!(config.max_nodes, 1000);
    assert_eq!(config.metadata_timeout, Duration::from_secs(30));
    assert_eq!(config.max_concurrency, 8);
    assert!(validate_graph_config(&DependencyGraphConfig {
        max_depth: 0,
        ..DependencyGraphConfig::default()
    })
    .is_ok());
}

#[test]
fn graph_config_error_messages() {
    let result = validate_graph_config(&DependencyGraphConfig {
        max_nodes: 0,
        max_concurrency: 0,
        ..DependencyGraphConfig::default()
    });
    match result {
        Err(ArchToolkitError::InvalidInput(message)) => {
            assert_eq!(message, "dependency graph max_nodes must be greater than zero")
        }
        other => panic!("unexpected result {other:?}"),
    }
    let result = validate_graph_config(&DependencyGraphConfig {
        max_concurrency: 0,
        ..DependencyGraphConfig::default()
    });
    match result {
        Err(ArchToolkitError::InvalidInput(message)) => {
            assert_eq!(message, "dependency graph max_concurrency must be greater than zero")
        }
        other => panic!("unexpected result {other:?}"),
    }
}

#[test]
fn intersect_requirement_exact_and_exclusive_bounds() {
    let range = intersect_requirement(&DependencyConstraintRange::default(), "=2.0").unwrap();
    assert_eq!(range.lower.as_ref().map(|b| b.inclusive), Some(true));
    assert_eq!(range.upper.as_ref().map(|b| b.inclusive), Some(true));
    assert!(intersect_requirement(&range, ">2.0").is_none());
    assert!(intersect_requirement(&range, "<2.0").is_none());
    let same = intersect_requirement(&range, "").unwrap();
    assert_eq!(same, range);
    let open = intersect_requirement(&DependencyConstraintRange::default(), ">1.0").unwrap();
    let narrowed = intersect_requirement(&open, ">=1.0").unwrap();
    assert_eq!(narrowed.lower.as_ref().map(|b| b.inclusive), Some(false));
    assert!(intersect_requirement(&open, "~1.0").is_none());
}

#[test]
fn resolve_graph_walks_dependencies_and_renders_tree() {
    let provider = Fixtures::new(&[
        ("app", "app", &srcinfo("app", "1.0", &[("depends", "lib>=2.0"), ("depends", "tool")])),
        ("lib", "lib", &srcinfo("lib", "2.1", &[("depends", "tool")])),
        ("tool", "tool", &srcinfo("tool", "0.5", &[])),
    ]);
    let graph = resolve_dependency_graph(
        &[root("app")],
        &provider,
        DependencyGraphConfig::default(),
        false,
        false,
        false,
    )
    .unwrap();
    assert_eq!(graph.roots, vec!["app".to_string()]);
    let names: Vec<&str> = graph.nodes.iter().map(|n| n.name.as_str()).collect();
    assert_eq!(names, vec!["app", "lib", "tool"]);
    let edges: Vec<(&str, &str, &str)> = graph
        .edges
        .iter()
        .map(|e| (e.from.as_str(), e.to.as_str(), e.version_req.as_str()))
        .collect();
    assert_eq!(
        edges,
        vec![("app", "lib", ">=2.0"), ("app", "tool", ""), ("lib", "tool", "")]
    );
    assert!(graph.diagnostics.is_empty());
    let lib = &graph.nodes[1];
    assert_eq!(lib.version.as_deref(), Some("2.1-1"));
    assert_eq!(lib.depth, 1);
    assert_eq!(
        lib.constraints.lower.as_ref().map(|b| b.version.as_str()),
        Some("2.0")
    );
    assert_eq!(graph.nodes[2].depth, 1);
    assert_eq!(
        graph.render_tree(),
        "└── app\n    ├── lib\n    │   └── tool\n    └── tool\n"
    );
}

#[test]
fn resolve_graph_reports_missing_metadata() {
    let provider = Fixtures::new(&[(
        "app",
        "app",
        &srcinfo("app", "1.0", &[("depends", "ghost")]),
    )]);
    let graph = resolve_dependency_graph(
        &[root("app")],
        &provider,
        DependencyGraphConfig::default(),
        false,
        false,
        false,
    )
    .unwrap();
    let ghost = graph.nodes.iter().find(|n| n.name == "ghost").unwrap();
    assert_eq!(ghost.status, DependencyGraphNodeStatus::Missing);
    assert!(ghost.provenance.source.is_none());
    assert_eq!(graph.diagnostics.len(), 1);
    assert_eq!(
        graph.diagnostics[0].kind,
        DependencyGraphDiagnosticKind::MissingMetadata
    );
    assert_eq!(graph.diagnostics[0].message, "metadata unavailable: not found");
    assert_eq!(graph.diagnostics[0].related_package.as_deref(), Some("app"));
}

#[test]
fn resolve_graph_stops_cycles() {
    let provider = Fixtures::new(&[
        ("a", "a", &srcinfo("a", "1", &[("depends", "b")])),
        ("b", "b", &srcinfo("b", "1", &[("depends", "a")])),
    ]);
    let graph = resolve_dependency_graph(
        &[root("a")],
        &provider,
        DependencyGraphConfig::default(),
        false,
        false,
        false,
    )
    .unwrap();
    assert_eq!(graph.nodes.len(), 2);
    assert!(graph
        .diagnostics
        .iter()
        .any(|d| d.kind == DependencyGraphDiagnosticKind::Cycle && d.package == "a"));
    assert_eq!(graph.render_tree(), "└── a\n    └── b\n        └── a\n            ↺\n");
}

#[test]
fn resolve_graph_marks_conflicts() {
    let provider = Fixtures::new(&[
        ("one", "one", &srcinfo("one", "1", &[("conflicts", "two")])),
        ("two", "two", &srcinfo("two", "1", &[])),
        ("three", "three", &srcinfo("three", "1", &[])),
    ]);
    let graph = resolve_dependency_graph(
        &[root("two"), root("one"), root("three")],
        &provider,
        DependencyGraphConfig::default(),
        false,
        false,
        false,
    )
    .unwrap();
    assert_eq!(graph.roots, vec!["one", "three", "two"]);
    let status = |name: &str| graph.nodes.iter().find(|n| n.name == name).unwrap().status;
    assert_eq!(status("one"), DependencyGraphNodeStatus::Conflicting);
    assert_eq!(status("two"), DependencyGraphNodeStatus::Conflicting);
    assert_eq!(status("three"), DependencyGraphNodeStatus::Resolved);
    assert_eq!(graph.diagnostics.len(), 1);
    assert_eq!(graph.diagnostics[0].kind, DependencyGraphDiagnosticKind::Conflict);
    assert_eq!(graph.diagnostics[0].package, "one");
    assert_eq!(graph.diagnostics[0].related_package.as_deref(), Some("two"));
}

#[test]
fn resolve_graph_respects_depth_and_node_limits() {
    let provider = Fixtures::new(&[
        ("app", "app", &srcinfo("app", "1", &[("depends", "lib")])),
        ("lib", "lib", &srcinfo("lib", "1", &[])),
    ]);
    let shallow = resolve_dependency_graph(
        &[root("app")],
        &provider,
        DependencyGraphConfig {
            max_depth: 0,
            ..DependencyGraphConfig::default()
        },
        false,
        false,
        false,
    )
    .unwrap();
    assert_eq!(shallow.nodes.len(), 1);
    assert_eq!(shallow.diagnostics.len(), 1);
    assert_eq!(shallow.diagnostics[0].kind, DependencyGraphDiagnosticKind::DepthLimit);
    assert_eq!(
        shallow.diagnostics[0].message,
        "dependency graph depth limit (0) reached"
    );
    let small = resolve_dependency_graph(
        &[root("app")],
        &provider,
        DependencyGraphConfig {
            max_nodes: 1,
            ..DependencyGraphConfig::default()
        },
        false,
        false,
        false,
    )
    .unwrap();
    assert_eq!(small.nodes.len(), 1);
    assert!(small.edges.is_empty());
    assert_eq!(small.diagnostics[0].kind, DependencyGraphDiagnosticKind::NodeLimit);
    assert_eq!(small.diagnostics[0].message, "dependency graph node limit (1) reached");
}

#[test]
fn resolve_graph_selects_virtual_providers() {
    let provider = Fixtures::new(&[
        ("app", "app", &srcinfo("app", "1", &[("depends", "java-runtime>=11")])),
        (
            "java-runtime",
            "jre",
            &srcinfo("jre", "17", &[("provides", "java-runtime=17")]),
        ),
    ]);
    let graph = resolve_dependency_graph(
        &[root("app")],
        &provider,
        DependencyGraphConfig::default(),
        false,
        false,
        false,
    )
    .unwrap();
    let jre = graph.nodes.iter().find(|n| n.name == "jre").unwrap();
    assert_eq!(jre.provenance.requested_name, "java-runtime");
    assert_eq!(jre.provenance.provider.as_deref(), Some("jre"));
    assert_eq!(graph.render_tree(), "└── app\n    └── jre (for java-runtime)\n");
}

#[test]
fn resolve_graph_rejects_unverified_provider() {
    let provider = Fixtures::new(&[
        ("app", "app", &srcinfo("app", "1", &[("depends", "virt")])),
        ("virt", "other", &srcinfo("other", "1", &[])),
    ]);
    let graph = resolve_dependency_graph(
        &[root("app")],
        &provider,
        DependencyGraphConfig::default(),
        false,
        false,
        false,
    )
    .unwrap();
    let virt = graph.nodes.iter().find(|n| n.name == "virt").unwrap();
    assert_eq!(virt.status, DependencyGraphNodeStatus::Missing);
    assert_eq!(virt.provenance.source, Some(DependencySource::Aur));
    assert_eq!(graph.diagnostics[0].kind, DependencyGraphDiagnosticKind::MetadataProtocol);
}

#[test]
fn resolve_graph_without_roots_is_empty_and_bad_config_fails() {
    let provider = Fixtures::new(&[]);
    let graph =
        resolve_dependency_graph(&[], &provider, DependencyGraphConfig::default(), true, true, true)
            .unwrap();
    assert!(graph.nodes.is_empty() && graph.edges.is_empty());
    assert_eq!(graph.render_tree(), "");
    let refused = resolve_dependency_graph(
        &[root("x")],
        &provider,
        DependencyGraphConfig {
            max_nodes: 0,
            ..DependencyGraphConfig::default()
        },
        false,
        false,
        false,
    );
    assert!(matches!(refused, Err(ArchToolkitError::InvalidInput(_))));
}

/// Answers every batch with the same fixed responses, whatever was asked.
struct Scripted {
    responses: Vec<DependencyMetadataResponse>,
}

impl DependencyMetadataProvider for Scripted {
    fn fetch_metadata(
        &self,
        _requested_names: &[String],
        _timeout: Duration,
    ) -> Vec<DependencyMetadataResponse> {
        self.responses.clone()
    }
}

fn has_diagnostic(
    graph: &arch_toolkit::deps::graph::DependencyGraphResolution,
    kind: DependencyGraphDiagnosticKind,
    package: &str,
    message: &str,
) -> bool {
    graph
        .diagnostics
        .iter()
        .any(|d| d.kind == kind && d.package == package && d.message == message)
}

#[test]
fn resolve_graph_keeps_roots_when_provider_answers_nothing() {
    let provider = Scripted { responses: Vec::new() };
    let graph = resolve_dependency_graph(
        &[root("beta"), root("alpha")],
        &provider,
        DependencyGraphConfig::default(),
        false,
        false,
        false,
    )
    .unwrap();
    assert_eq!(graph.roots, vec!["alpha".to_string(), "beta".to_string()]);
    assert_eq!(graph.nodes.len(), 2);
    assert!(graph
        .nodes
        .iter()
        .all(|n| n.status == DependencyGraphNodeStatus::Missing && n.depth == 0));
    for name in ["alpha", "beta"] {
        assert!(has_diagnostic(
            &graph,
            DependencyGraphDiagnosticKind::MetadataProtocol,
            name,
            "metadata provider omitted a response for the request",
        ));
        assert!(has_diagnostic(
            &graph,
            DependencyGraphDiagnosticKind::MetadataFailure,
            name,
            "metadata retrieval failed: metadata provider omitted a response",
        ));
    }
    assert_eq!(graph.diagnostics.len(), 4);
}

#[test]
fn resolve_graph_diagnoses_unrequested_and_duplicate_responses() {
    let found = DependencyMetadataResponse::Found(DependencyMetadata {
        requested_name: "app".to_string(),
        package_name: "app".to_string(),
        source: DependencySource::Aur,
        srcinfo: srcinfo("app", "2", &[]),
    });
    let second = DependencyMetadataResponse::Missing {
        requested_name: "app".to_string(),
        reason: "gone".to_string(),
    };
    let stray = DependencyMetadataResponse::Missing {
        requested_name: "stray".to_string(),
        reason: "unasked".to_string(),
    };
    let provider = Scripted { responses: vec![stray, found, second] };
    let graph = resolve_dependency_graph(
        &[root("app")],
        &provider,
        DependencyGraphConfig::default(),
        false,
        false,
        false,
    )
    .unwrap();
    assert_eq!(graph.roots, vec!["app".to_string()]);
    assert_eq!(graph.nodes.len(), 1);
    assert_eq!(graph.nodes[0].status, DependencyGraphNodeStatus::Resolved);
    assert_eq!(graph.nodes[0].version.as_deref(), Some("2-1"));
    assert!(has_diagnostic(
        &graph,
        DependencyGraphDiagnosticKind::MetadataProtocol,
        "stray",
        "metadata provider returned a response for an unrequested name",
    ));
    assert!(has_diagnostic(
        &graph,
        DependencyGraphDiagnosticKind::MetadataProtocol,
        "app",
        "metadata provider returned duplicate responses for one request",
    ));
    assert_eq!(graph.diagnostics.len(), 2);
}

#[test]
fn resolve_graph_reports_missing_output_in_srcinfo() {
    let provider = Fixtures::new(&[("app", "app-bin", &srcinfo("app", "1", &[]))]);
    let graph = resolve_dependency_graph(
        &[root("app")],
        &provider,
        DependencyGraphConfig::default(),
        false,
        false,
        false,
    )
    .unwrap();
    assert_eq!(graph.roots, vec!["app".to_string()]);
    assert_eq!(graph.nodes[0].status, DependencyGraphNodeStatus::Missing);
    assert!(has_diagnostic(
        &graph,
        DependencyGraphDiagnosticKind::MalformedSrcinfo,
        "app",
        ".SRCINFO does not contain selected package output 'app-bin'",
    ));
}

#[test]
fn rendered_tree_ignores_edge_order_and_ends_lines() {
    let provider = Fixtures::new(&[
        ("app", "app", &srcinfo("app", "1", &[("depends", "lib"), ("depends", "zlib")])),
        ("lib", "lib", &srcinfo("lib", "1", &[("depends", "zlib")])),
        ("zlib", "zlib", &srcinfo("zlib", "1", &[])),
    ]);
    let graph = resolve_dependency_graph(
        &[root("app")],
        &provider,
        DependencyGraphConfig::default(),
        false,
        false,
        false,
    )
    .unwrap();
    let mut shuffled = graph.clone();
    shuffled.edges.reverse();
    let text = graph.render_tree();
    assert_eq!(shuffled.render_tree(), text);
    assert!(text.ends_with('\n'));
    assert_eq!(text, "└── app\n    ├── lib\n    │   └── zlib\n    └── zlib\n");
    let empty = resolve_dependency_graph(
        &[],
        &provider,
        DependencyGraphConfig::default(),
        false,
        false,
        false,
    )
    .unwrap();
    assert_eq!(empty.render_tree(), "");
}
