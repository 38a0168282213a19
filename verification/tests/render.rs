use lockgraph::display::{AnnotationStyle, DisplayResolutionGraph};
use lockgraph::dist::{DistSource, PinnedDist};
use lockgraph::resolution::ResolutionGraph;
use lockgraph::solver::{Justification, PackageVariant, SelectionEntry, TraceEntry};
use lockgraph::tables::{EditableEntry, Editables, FilePins, MetadataTable, PackageVersions,
    PinEntry, Redirects, VersionFiles, VersionsEntry, VersionsResponse};
use lockgraph::version::{Version, VersionInterval, VersionRange};

fn b(s: &str) -> Vec<u8> {
    s.as_bytes().to_vec()
}

fn ver(parts: &[u64]) -> Version {
    Version { release: parts.to_vec() }
}

fn any_range() -> VersionRange {
    VersionRange { segments: vec![VersionInterval { lower: ver(&[]), upper: None }] }
}

fn base(name: &str) -> PackageVariant {
    PackageVariant::Package { name: b(name), extra: None, url: None }
}

fn registry_pin(name: &str, version: &[u64], verbatim: &str) -> PinEntry {
    PinEntry {
        name: b(name),
        version: ver(version),
        dist: PinnedDist {
            name: b(name),
            source: DistSource::Registry { version: ver(version), verbatim: b(verbatim) },
        },
    }
}

fn selected(name: &str, version: &[u64]) -> SelectionEntry {
    SelectionEntry { package: base(name), version: ver(version) }
}

fn dependency(from: &str, to: &str) -> TraceEntry {
    TraceEntry {
        package: base(from),
        justification: Justification::DependencyOf {
            source: base(from),
            source_range: any_range(),
            target: base(to),
            target_range: any_range(),
        },
    }
}

/// A graph with packages a, b and x, where x is depended on by a and b.
fn diamond_graph(hashes_for_x: Vec<Vec<u8>>) -> ResolutionGraph {
    let selection = vec![
        selected("a", &[1, 0, 0]),
        selected("b", &[1, 0, 0]),
        selected("x", &[1, 0, 0]),
    ];
    let pins = FilePins {
        entries: vec![
            registry_pin("a", &[1, 0, 0], "a==1.0.0"),
            registry_pin("b", &[1, 0, 0], "b==1.0.0"),
            registry_pin("x", &[1, 0, 0], "x==1.0.0"),
        ],
    };
    let packages = PackageVersions {
        entries: vec![VersionsEntry {
            name: b("x"),
            response: VersionsResponse::Found {
                files: vec![VersionFiles { version: ver(&[1, 0, 0]), hashes: hashes_for_x }],
            },
        }],
    };
    let trace = vec![dependency("b", "x"), dependency("a", "x")];
    ResolutionGraph::from_state(
        &selection,
        &pins,
        &packages,
        &MetadataTable { entries: vec![] },
        &Redirects { entries: vec![] },
        &trace,
        Editables { entries: vec![] },
    )
    .unwrap()
}

fn render(
    graph: &ResolutionGraph,
    no_emit: &[Vec<u8>],
    show_hashes: bool,
    annotate: bool,
    style: AnnotationStyle,
) -> String {
    let display = DisplayResolutionGraph::new(graph, no_emit, show_hashes, annotate, style);
    String::from_utf8(display.render()).unwrap()
}

#[test]
fn line_style_annotations() {
    let graph = diamond_graph(vec![]);
    let out = render(&graph, &[], false, true, AnnotationStyle::Line);
    assert_eq!(
        out,
        "a==1.0.0\nb==1.0.0\nx==1.0.0                  # via a, b\n"
    );
}

#[test]
fn split_style_annotations() {
    let graph = diamond_graph(vec![]);
    let out = render(&graph, &[], false, true, AnnotationStyle::Split);
    assert_eq!(
        out,
        "a==1.0.0\nb==1.0.0\nx==1.0.0\n    # via\n    #   a\n    #   b\n"
    );
}

#[test]
fn split_style_single_dependent() {
    let selection = vec![selected("a", &[1]), selected("x", &[1])];
    let pins = FilePins {
        entries: vec![registry_pin("a", &[1], "a==1"), registry_pin("x", &[1], "x==1")],
    };
    let trace = vec![dependency("a", "x")];
    let graph = ResolutionGraph::from_state(
        &selection,
        &pins,
        &PackageVersions { entries: vec![] },
        &MetadataTable { entries: vec![] },
        &Redirects { entries: vec![] },
        &trace,
        Editables { entries: vec![] },
    )
    .unwrap();
    let out = render(&graph, &[], false, true, AnnotationStyle::Split);
    assert_eq!(out, "a==1\nx==1\n    # via a\n");
}

#[test]
fn hash_separator_is_a_continuation() {
    let graph = diamond_graph(vec![b("sha256:aaa")]);
    let out = render(&graph, &[], true, true, AnnotationStyle::Line);
    assert_eq!(
        out,
        "a==1.0.0\nb==1.0.0\nx==1.0.0 \\\n    --hash=sha256:aaa\n    # via a, b\n"
    );
    assert!(!out.contains("sha256:aaa  # via"));
}

#[test]
fn hashes_render_sorted() {
    let graph = diamond_graph(vec![b("sha256:bbb"), b("sha256:aaa")]);
    let out = render(&graph, &[], true, false, AnnotationStyle::Line);
    assert_eq!(
        out,
        "a==1.0.0\nb==1.0.0\nx==1.0.0 \\\n    --hash=sha256:aaa \\\n    --hash=sha256:bbb\n"
    );
}

#[test]
fn editables_sort_first() {
    let selection = vec![selected("alpha-project", &[1]), selected("zeta", &[1])];
    let pins = FilePins {
        entries: vec![
            registry_pin("alpha-project", &[1], "alpha-project==1"),
            registry_pin("zeta", &[1], "zeta==1"),
        ],
    };
    let editables = Editables {
        entries: vec![EditableEntry {
            name: b("zeta"),
            verbatim: b("./zeta-src"),
            extras: vec![],
        }],
    };
    let graph = ResolutionGraph::from_state(
        &selection,
        &pins,
        &PackageVersions { entries: vec![] },
        &MetadataTable { entries: vec![] },
        &Redirects { entries: vec![] },
        &vec![],
        editables,
    )
    .unwrap();
    let out = render(&graph, &[], false, false, AnnotationStyle::Line);
    // The editable renders first although "zeta" sorts after "alpha-project".
    assert_eq!(out, "-e ./zeta-src\nalpha-project==1\n");
}

#[test]
fn excluded_package_is_not_rendered() {
    let graph = diamond_graph(vec![]);
    let out = render(&graph, &[b("x")], false, true, AnnotationStyle::Line);
    assert_eq!(out, "a==1.0.0\nb==1.0.0\n");
    // An excluded dependent may still be named in another package's comment.
    let out2 = render(&graph, &[b("a")], false, true, AnnotationStyle::Line);
    assert_eq!(out2, "b==1.0.0\nx==1.0.0                  # via a, b\n");
}

#[test]
fn rendering_is_deterministic() {
    let graph = diamond_graph(vec![b("sha256:aaa")]);
    let one = render(&graph, &[], true, true, AnnotationStyle::Split);
    let two = render(&graph, &[], true, true, AnnotationStyle::Split);
    assert_eq!(one, two);
}

#[test]
fn default_rendering_uses_split_annotations() {
    assert_eq!(AnnotationStyle::default(), AnnotationStyle::Split);
    let graph = diamond_graph(vec![]);
    let display = DisplayResolutionGraph::from(&graph);
    let out = String::from_utf8(display.render()).unwrap();
    assert_eq!(
        out,
        "a==1.0.0\nb==1.0.0\nx==1.0.0\n    # via\n    #   a\n    #   b\n"
    );
}

#[test]
fn no_annotations_writes_bare_lines() {
    let graph = diamond_graph(vec![]);
    let out = render(&graph, &[], false, false, AnnotationStyle::Line);
    assert_eq!(out, "a==1.0.0\nb==1.0.0\nx==1.0.0\n");
}
