use lockgraph::dist::{DistSource, Diagnostic, PinnedDist};
use lockgraph::resolution::{ResolutionGraph, Resolution, ResolveError};
use lockgraph::solver::{Justification, PackageVariant, SelectionEntry, TraceEntry};
use lockgraph::tables::{EditableEntry, Editables, FilePins, IdDetail, MetadataEntry,
    MetadataTable, PackageVersions, PinEntry, RedirectEntry, Redirects};
use lockgraph::version::{Version, VersionInterval, VersionRange};

fn b(s: &str) -> Vec<u8> {
    s.as_bytes().to_vec()
}

fn ver(parts: &[u64]) -> Version {
    Version { release: parts.to_vec() }
}

fn any_range() -> VersionRange {
    VersionRange { segments: vec![VersionInterval { lower: ver(&[]), upper: None }] }
}

fn base(name: &str) -> PackageVariant {
    PackageVariant::Package { name: b(name), extra: None, url: None }
}

fn with_extra(name: &str, extra: &str) -> PackageVariant {
    PackageVariant::Package { name: b(name), extra: Some(b(extra)), url: None }
}

fn registry_pin(name: &str, version: &[u64], verbatim: &str) -> PinEntry {
    PinEntry {
        name: b(name),
        version: ver(version),
        dist: PinnedDist {
            name: b(name),
            source: DistSource::Registry { version: ver(version), verbatim: b(verbatim) },
        },
    }
}

fn selected(name: &str, version: &[u64]) -> SelectionEntry {
    SelectionEntry { package: base(name), version: ver(version) }
}

fn empty_tables() -> (PackageVersions, MetadataTable, Redirects) {
    (
        PackageVersions { entries: vec![] },
        MetadataTable { entries: vec![] },
        Redirects { entries: vec![] },
    )
}

fn dependency(from: &str, to: &str) -> TraceEntry {
    TraceEntry {
        package: base(from),
        justification: Justification::DependencyOf {
            source: base(from),
            source_range: any_range(),
            target: base(to),
            target_range: any_range(),
        },
    }
}

#[test]
fn one_node_per_package_name() {
    let selection = vec![
        selected("pkg", &[1, 0, 0]),
        SelectionEntry { package: with_extra("pkg", "extra1"), version: ver(&[1, 0, 0]) },
        SelectionEntry { package: PackageVariant::Bookkeeping, version: ver(&[0]) },
    ];
    let pins = FilePins { entries: vec![registry_pin("pkg", &[1, 0, 0], "pkg==1.0.0")] };
    let (packages, _, redirects) = empty_tables();
    let distributions = MetadataTable {
        entries: vec![MetadataEntry {
            name: b("pkg"),
            detail: IdDetail::Version(ver(&[1, 0, 0])),
            extras: vec![b("extra1")],
        }],
    };
    let graph = ResolutionGraph::from_state(
        &selection,
        &pins,
        &packages,
        &distributions,
        &redirects,
        &vec![],
        Editables { entries: vec![] },
    )
    .unwrap();
    assert_eq!(graph.len(), 1);
    assert!(!graph.is_empty());
    assert!(graph.contains(&b("pkg")));
    assert!(!graph.contains(&b("other")));
    assert_eq!(graph.diagnostics().len(), 0);
    let resolution = Resolution::from_graph(&graph);
    assert_eq!(resolution.entries.len(), 1);
    assert_eq!(resolution.entries[0].name, b("pkg"));
}

#[test]
fn editable_precedence_over_pin() {
    let selection = vec![selected("proj", &[2, 0])];
    let pins = FilePins { entries: vec![registry_pin("proj", &[2, 0], "proj==2.0")] };
    let (packages, distributions, redirects) = empty_tables();
    let editables = Editables {
        entries: vec![EditableEntry { name: b("proj"), verbatim: b("./proj"), extras: vec![] }],
    };
    let graph = ResolutionGraph::from_state(
        &selection,
        &pins,
        &packages,
        &distributions,
        &redirects,
        &vec![],
        editables,
    )
    .unwrap();
    let resolution = Resolution::from_graph(&graph);
    assert_eq!(resolution.entries.len(), 1);
    match &resolution.entries[0].source {
        DistSource::Editable { verbatim } => assert_eq!(verbatim, &b("./proj")),
        other => panic!("expected an editable distribution, got {:?}", other),
    }
}

#[test]
fn missing_extra_diagnostic() {
    let selection = vec![
        selected("p", &[1, 0, 0]),
        SelectionEntry { package: with_extra("p", "c"), version: ver(&[1, 0, 0]) },
    ];
    let pins = FilePins { entries: vec![registry_pin("p", &[1, 0, 0], "p==1.0.0")] };
    let (packages, _, redirects) = empty_tables();
    let distributions = MetadataTable {
        entries: vec![MetadataEntry {
            name: b("p"),
            detail: IdDetail::Version(ver(&[1, 0, 0])),
            extras: vec![b("a"), b("b")],
        }],
    };
    let graph = ResolutionGraph::from_state(
        &selection,
        &pins,
        &packages,
        &distributions,
        &redirects,
        &vec![],
        Editables { entries: vec![] },
    )
    .unwrap();
    assert_eq!(graph.len(), 1);
    assert_eq!(graph.diagnostics().len(), 1);
    let diag = &graph.diagnostics()[0];
    let Diagnostic::MissingExtra { dist, extra } = diag;
    assert_eq!(dist.name, b("p"));
    assert_eq!(extra, &b("c"));
    assert!(diag.includes(&b("p")));
    assert!(!diag.includes(&b("q")));
    assert_eq!(
        diag.message(),
        b("The package `p==1.0.0` does not have an extra named `c`.")
    );
}

#[test]
fn declared_extra_gives_no_diagnostic() {
    let selection = vec![
        selected("p", &[1]),
        SelectionEntry { package: with_extra("p", "a"), version: ver(&[1]) },
    ];
    let pins = FilePins { entries: vec![registry_pin("p", &[1], "p==1")] };
    let (packages, _, redirects) = empty_tables();
    let distributions = MetadataTable {
        entries: vec![MetadataEntry {
            name: b("p"),
            detail: IdDetail::Version(ver(&[1])),
            extras: vec![b("a")],
        }],
    };
    let graph = ResolutionGraph::from_state(
        &selection,
        &pins,
        &packages,
        &distributions,
        &redirects,
        &vec![],
        Editables { entries: vec![] },
    )
    .unwrap();
    assert_eq!(graph.diagnostics().len(), 0);
}

#[test]
fn missing_pin_is_fatal() {
    let selection = vec![selected("ghost", &[1])];
    let pins = FilePins { entries: vec![] };
    let (packages, distributions, redirects) = empty_tables();
    let err = ResolutionGraph::from_state(
        &selection,
        &pins,
        &packages,
        &distributions,
        &redirects,
        &vec![],
        Editables { entries: vec![] },
    )
    .unwrap_err();
    match err {
        ResolveError::MissingPin { name, version } => {
            assert_eq!(name, b("ghost"));
            assert_eq!(version.release, vec![1]);
        },
        other => panic!("expected a missing pin, got {:?}", other),
    }
}

#[test]
fn missing_metadata_is_fatal() {
    let selection = vec![
        SelectionEntry { package: with_extra("p", "x"), version: ver(&[1]) },
    ];
    let pins = FilePins { entries: vec![registry_pin("p", &[1], "p==1")] };
    let (packages, distributions, redirects) = empty_tables();
    let err = ResolutionGraph::from_state(
        &selection,
        &pins,
        &packages,
        &distributions,
        &redirects,
        &vec![],
        Editables { entries: vec![] },
    )
    .unwrap_err();
    match err {
        ResolveError::MissingMetadata { name } => assert_eq!(name, b("p")),
        other => panic!("expected missing metadata, got {:?}", other),
    }
}

#[test]
fn url_pin_follows_redirect() {
    let selection = vec![SelectionEntry {
        package: PackageVariant::Package {
            name: b("w"),
            extra: None,
            url: Some(b("https://old.example/w.whl")),
        },
        version: ver(&[1]),
    }];
    let pins = FilePins { entries: vec![] };
    let packages = PackageVersions { entries: vec![] };
    let distributions = MetadataTable { entries: vec![] };
    let redirects = Redirects {
        entries: vec![RedirectEntry {
            from: b("https://old.example/w.whl"),
            to: b("https://new.example/w.whl"),
        }],
    };
    let graph = ResolutionGraph::from_state(
        &selection,
        &pins,
        &packages,
        &distributions,
        &redirects,
        &vec![],
        Editables { entries: vec![] },
    )
    .unwrap();
    let resolution = Resolution::from_graph(&graph);
    match &resolution.entries[0].source {
        DistSource::DirectUrl { url } => assert_eq!(url, &b("https://new.example/w.whl")),
        other => panic!("expected a URL distribution, got {:?}", other),
    }
    assert_eq!(resolution.entries[0].verbatim(), b("w @ https://new.example/w.whl"));
}

#[test]
fn duplicate_justifications_upsert_one_edge() {
    let selection = vec![selected("a", &[1]), selected("x", &[1])];
    let pins = FilePins {
        entries: vec![registry_pin("a", &[1], "a==1"), registry_pin("x", &[1], "x==1")],
    };
    let (packages, distributions, redirects) = empty_tables();
    let trace = vec![dependency("a", "x"), dependency("a", "x")];
    let graph = ResolutionGraph::from_state(
        &selection,
        &pins,
        &packages,
        &distributions,
        &redirects,
        &trace,
        Editables { entries: vec![] },
    )
    .unwrap();
    assert_eq!(graph.petgraph().edge_count(), 1);
    assert_eq!(graph.petgraph().node_count(), 2);
}

#[test]
fn self_justification_makes_no_edge() {
    let selection = vec![selected("a", &[1])];
    let pins = FilePins { entries: vec![registry_pin("a", &[1], "a==1")] };
    let (packages, distributions, redirects) = empty_tables();
    let trace = vec![TraceEntry {
        package: base("a"),
        justification: Justification::DependencyOf {
            source: PackageVariant::Package { name: b("a"), extra: Some(b("e")), url: None },
            source_range: any_range(),
            target: base("a"),
            target_range: any_range(),
        },
    }];
    let graph = ResolutionGraph::from_state(
        &selection,
        &pins,
        &packages,
        &distributions,
        &redirects,
        &trace,
        Editables { entries: vec![] },
    )
    .unwrap();
    assert_eq!(graph.petgraph().edge_count(), 0);
}

#[test]
fn stale_justification_is_ignored() {
    let selection = vec![selected("a", &[1]), selected("x", &[1])];
    let pins = FilePins {
        entries: vec![registry_pin("a", &[1], "a==1"), registry_pin("x", &[1], "x==1")],
    };
    let (packages, distributions, redirects) = empty_tables();
    // The recorded range [5, _) does not contain the selected version 1.
    let trace = vec![TraceEntry {
        package: base("a"),
        justification: Justification::DependencyOf {
            source: base("a"),
            source_range: VersionRange {
                segments: vec![VersionInterval { lower: ver(&[5]), upper: None }],
            },
            target: base("x"),
            target_range: any_range(),
        },
    }];
    let graph = ResolutionGraph::from_state(
        &selection,
        &pins,
        &packages,
        &distributions,
        &redirects,
        &trace,
        Editables { entries: vec![] },
    )
    .unwrap();
    assert_eq!(graph.petgraph().edge_count(), 0);
}

#[test]
fn version_range_membership() {
    let range = VersionRange {
        segments: vec![VersionInterval { lower: ver(&[1, 0]), upper: Some(ver(&[2])) }],
    };
    assert!(range.contains(&ver(&[1, 0])));
    assert!(range.contains(&ver(&[1, 9, 9])));
    assert!(!range.contains(&ver(&[2])));
    assert!(!range.contains(&ver(&[2, 0, 1])));
    assert!(!range.contains(&ver(&[0, 9])));
    // Zero padding: 1.0 and 1.0.0 compare equal.
    assert!(ver(&[1, 0]).le(&ver(&[1, 0, 0])));
    assert!(ver(&[1, 0, 0]).le(&ver(&[1, 0])));
    assert!(ver(&[1, 0]).eq_to(&ver(&[1, 0])));
    assert!(!ver(&[1, 0]).eq_to(&ver(&[1, 0, 0])));
}
