//! Building a resolution graph from a finished solver state.
//!
//! Pass one materializes one node per selected base package variant,
//! snapshots its sorted content hashes, and collects missing-extra
//! diagnostics for extra variants. Pass two derives dependency edges from
//! the solver's dependency-shaped justifications. The whole construction is
//! a pure function of its inputs, stated by `from_state_spec`.

use vstd::prelude::*;
use crate::dist::{dists_view, DistSource, DistSourceView, DistView, Diagnostic, DiagView,
    diags_view, PinnedDist};
use crate::graph_store::{edges_wf, graph_add_node, graph_edges, graph_new, graph_node,
    graph_node_count, graph_nodes, graph_update_edge, DistGraph, GraphEdge, spec_update_edge,
    lemma_update_edge_wf};
use crate::lex::{bytes_eq, bytes_view, contains_bytes, copy_bytes, sort_bytes, sort_bytes_seq};
use crate::solver::{selection_view, trace_view, Justification, JustificationView, PackageVariant,
    SelectionEntry, SelectionEntryView, TraceEntry, TraceEntryView, VariantView};
use crate::tables::{editables_find, metadata_find, pins_find, spec_hashes_of, spec_resolve_url,
    Editables, EditableEntryView, FilePins, IdDetail, IdDetailView, MetadataTable,
    MetadataEntryView, PackageVersions, PinEntryView, RedirectEntryView, Redirects,
    VersionsEntryView};
use crate::version::{range_contains, Version};

verus! {

/// An unrecoverable construction failure: the selection and the lookup
/// tables are out of sync.
#[derive(Debug)]
pub enum ResolveError {
    /// A selected package has neither an editable entry nor a pin.
    MissingPin { name: Vec<u8>, version: Version },
    /// No metadata is recorded for a selected package's identity.
    MissingMetadata { name: Vec<u8> },
}

/// The mathematical content of a `ResolveError`.
#[verifier::ext_equal]
pub ghost enum ErrView {
    MissingPin { name: Seq<u8>, version: Seq<u64> },
    MissingMetadata { name: Seq<u8> },
}

impl View for ResolveError {
    type V = ErrView;

    open spec fn view(&self) -> ErrView {
        match self {
            ResolveError::MissingPin { name, version } => ErrView::MissingPin {
                name: name@,
                version: version@,
            },
            ResolveError::MissingMetadata { name } => ErrView::MissingMetadata { name: name@ },
        }
    }
}

/// The sorted content hashes snapshotted for one package.
#[derive(Debug)]
pub struct HashEntry {
    pub name: Vec<u8>,
    pub hashes: Vec<Vec<u8>>,
}

/// The mathematical content of a `HashEntry`.
#[verifier::ext_equal]
pub ghost struct HashEntryView {
    pub name: Seq<u8>,
    pub hashes: Seq<Seq<u8>>,
}

impl View for HashEntry {
    type V = HashEntryView;

    open spec fn view(&self) -> HashEntryView {
        HashEntryView { name: self.name@, hashes: bytes_view(self.hashes@) }
    }
}

/// The views of a sequence of hash entries.
pub open spec fn hashes_view(s: Seq<HashEntry>) -> Seq<HashEntryView> {
    s.map_values(|e: HashEntry| e@)
}

/// The read-only tables a construction consults.
#[verifier::ext_equal]
pub ghost struct TablesView {
    pub eds: Seq<EditableEntryView>,
    pub reds: Seq<RedirectEntryView>,
    pub pins: Seq<PinEntryView>,
    pub meta: Seq<MetadataEntryView>,
    pub versions: Seq<VersionsEntryView>,
}

/// What materialization yields for `(name, version)`, optionally reached
/// through `url`: the editable entry always wins; else a URL variant becomes
/// a URL distribution with redirects applied; else the recorded pin.
pub open spec fn materialize_spec(
    name: Seq<u8>,
    version: Seq<u64>,
    url: Option<Seq<u8>>,
    t: TablesView,
) -> Option<DistView> {
    match editables_find(t.eds, name) {
        Some(e) => Some(
            DistView { name, source: DistSourceView::Editable { verbatim: e.verbatim } },
        ),
        None => match url {
            Some(u) => Some(
                DistView {
                    name,
                    source: DistSourceView::DirectUrl { url: spec_resolve_url(t.reds, u) },
                },
            ),
            None => match pins_find(t.pins, name, version) {
                Some(p) => Some(p.dist),
                None => None,
            },
        },
    }
}

/// The metadata identity of a selected variant: its URL when it has one,
/// else its exact version.
pub open spec fn id_detail_of(version: Seq<u64>, url: Option<Seq<u8>>) -> IdDetailView {
    match url {
        Some(u) => IdDetailView::Url(u),
        None => IdDetailView::Version(version),
    }
}

/// What checking an extra variant yields: no diagnostic when the declared
/// extras contain the extra; a missing-extra diagnostic against the
/// materialized base distribution when they do not; an error when the
/// metadata or the pin needed for that is absent.
pub open spec fn extra_check_spec(
    name: Seq<u8>,
    version: Seq<u64>,
    extra: Seq<u8>,
    url: Option<Seq<u8>>,
    t: TablesView,
) -> Result<Option<DiagView>, ErrView> {
    match editables_find(t.eds, name) {
        Some(e) => if contains_bytes(e.extras, extra) {
            Ok(None)
        } else {
            Ok(
                Some(
                    DiagView::MissingExtra {
                        dist: DistView {
                            name,
                            source: DistSourceView::Editable { verbatim: e.verbatim },
                        },
                        extra,
                    },
                ),
            )
        },
        None => match metadata_find(t.meta, name, id_detail_of(version, url)) {
            None => Err(ErrView::MissingMetadata { name }),
            Some(m) => if contains_bytes(m.extras, extra) {
                Ok(None)
            } else {
                match materialize_spec(name, version, url, t) {
                    Some(d) => Ok(Some(DiagView::MissingExtra { dist: d, extra })),
                    None => Err(ErrView::MissingPin { name, version }),
                }
            },
        },
    }
}

/// The nodes, hash snapshots and diagnostics accumulated by the node pass.
#[verifier::ext_equal]
pub ghost struct BuildState {
    pub nodes: Seq<DistView>,
    pub hashes: Seq<HashEntryView>,
    pub diags: Seq<DiagView>,
}

/// The empty accumulator.
pub open spec fn empty_build() -> BuildState {
    BuildState { nodes: Seq::empty(), hashes: Seq::empty(), diags: Seq::empty() }
}

/// One node-pass step: a base variant materializes a node and snapshots its
/// sorted hashes; an extra variant only checks its extra; a bookkeeping
/// variant does nothing.
pub open spec fn step1_spec(e: SelectionEntryView, st: BuildState, t: TablesView) -> Result<
    BuildState,
    ErrView,
> {
    match e.package {
        VariantView::Bookkeeping => Ok(st),
        VariantView::Package { name, extra: None, url } => {
            match materialize_spec(name, e.version, url, t) {
                None => Err(ErrView::MissingPin { name, version: e.version }),
                Some(d) => Ok(
                    BuildState {
                        nodes: st.nodes.push(d),
                        hashes: match spec_hashes_of(t.versions, name, e.version) {
                            Some(hs) => st.hashes.push(
                                HashEntryView { name, hashes: sort_bytes_seq(hs) },
                            ),
                            None => st.hashes,
                        },
                        diags: st.diags,
                    },
                ),
            }
        },
        VariantView::Package { name, extra: Some(x), url } => {
            match extra_check_spec(name, e.version, x, url, t) {
                Err(er) => Err(er),
                Ok(None) => Ok(st),
                Ok(Some(dg)) => Ok(
                    BuildState { nodes: st.nodes, hashes: st.hashes, diags: st.diags.push(dg) },
                ),
            }
        },
    }
}

/// The node pass over the selection from position `i` on.
pub open spec fn pass1_from(
    sel: Seq<SelectionEntryView>,
    i: int,
    st: BuildState,
    t: TablesView,
) -> Result<BuildState, ErrView>
    decreases sel.len() - i,
{
    if i < 0 || i >= sel.len() {
        Ok(st)
    } else {
        match step1_spec(sel[i], st, t) {
            Err(e) => Err(e),
            Ok(st2) => pass1_from(sel, i + 1, st2, t),
        }
    }
}

/// Whether an entry selects the base variant (no extra) of `name`.
pub open spec fn is_base_named(e: SelectionEntryView, name: Seq<u8>) -> bool {
    match e.package {
        VariantView::Package { name: n, extra: None, .. } => n == name,
        _ => false,
    }
}

/// Whether an entry selects any base variant.
pub open spec fn is_base(e: SelectionEntryView) -> bool {
    match e.package {
        VariantView::Package { extra: None, .. } => true,
        _ => false,
    }
}

/// The package name of a variant; bookkeeping variants have none.
pub open spec fn variant_name(v: VariantView) -> Seq<u8> {
    match v {
        VariantView::Package { name, .. } => name,
        VariantView::Bookkeeping => Seq::empty(),
    }
}

/// Whether some entry of the selection selects the base variant of `name`.
pub open spec fn base_selected(sel: Seq<SelectionEntryView>, name: Seq<u8>) -> bool {
    exists|j: int| 0 <= j < sel.len() && is_base_named(#[trigger] sel[j], name)
}

/// At most one base variant per package name: the solver selects one
/// identity per real package, plus one wrapped identity per requested extra.
pub open spec fn selection_base_unique(sel: Seq<SelectionEntryView>) -> bool {
    forall|i: int, j: int|
        0 <= i < j < sel.len() && is_base(#[trigger] sel[i]) && is_base(#[trigger] sel[j])
            ==> variant_name(sel[i].package) != variant_name(sel[j].package)
}

/// Every pin is recorded under the name its distribution carries.
pub open spec fn pins_wf(pins: Seq<PinEntryView>) -> bool {
    forall|i: int| 0 <= i < pins.len() ==> (#[trigger] pins[i]).dist.name == pins[i].name
}

/// Whether some node carries `name`.
pub open spec fn contains_node_name(nodes: Seq<DistView>, name: Seq<u8>) -> bool {
    exists|k: int| 0 <= k < nodes.len() && (#[trigger] nodes[k]).name == name
}

/// Position of the first node carrying `name`; the length when absent.
pub open spec fn node_index_of(nodes: Seq<DistView>, name: Seq<u8>) -> int
    decreases nodes.len(),
{
    if nodes.len() == 0 {
        0
    } else if nodes[0].name == name {
        0
    } else {
        1 + node_index_of(nodes.skip(1), name)
    }
}

/// When present, the first node carrying `name` sits at `node_index_of`.
pub proof fn lemma_node_index(nodes: Seq<DistView>, name: Seq<u8>)
    requires
        contains_node_name(nodes, name),
    ensures
        0 <= node_index_of(nodes, name) < nodes.len(),
        nodes[node_index_of(nodes, name)].name == name,
    decreases nodes.len(),
{
    if nodes.len() > 0 && nodes[0].name != name {
        assert(contains_node_name(nodes.skip(1), name)) by {
            let k = choose|k: int|
                0 <= k < nodes.len() && (#[trigger] nodes[k]).name == name;
            assert(nodes.skip(1)[k - 1] == nodes[k]);
        }
        lemma_node_index(nodes.skip(1), name);
        assert(nodes[node_index_of(nodes, name)] == nodes.skip(1)[node_index_of(
            nodes.skip(1),
            name,
        )]);
    }
}

/// With no match among the first `i` nodes, the position is decided by the
/// rest.
proof fn lemma_node_index_skip(nodes: Seq<DistView>, name: Seq<u8>, i: int)
    requires
        0 <= i <= nodes.len(),
        forall|j: int| 0 <= j < i ==> (#[trigger] nodes[j]).name != name,
    ensures
        node_index_of(nodes, name) == i + node_index_of(nodes.skip(i), name),
    decreases i,
{
    if i > 0 {
        lemma_node_index_skip(nodes.skip(1), name, i - 1);
        assert(nodes.skip(1).skip(i - 1) =~= nodes.skip(i));
    } else {
        assert(nodes.skip(0) =~= nodes);
    }
}

/// One edge-pass step: a justification recorded under the selected variant,
/// of the dependency shape, between distinct package names, and whose source
/// range contains the selected version, upserts one edge; anything else
/// leaves the edges unchanged.
pub open spec fn edge_step(
    te: TraceEntryView,
    package: VariantView,
    version: Seq<u64>,
    nodes: Seq<DistView>,
    edges: Seq<GraphEdge>,
) -> Seq<GraphEdge> {
    if te.package == package {
        match te.justification {
            JustificationView::DependencyOf { source, source_range, target, target_range } => {
                match (source, target) {
                    (
                        VariantView::Package { name: sn, .. },
                        VariantView::Package { name: tn, .. },
                    ) => {
                        if sn != tn && range_contains(source_range, version) {
                            spec_update_edge(
                                edges,
                                node_index_of(nodes, sn) as usize,
                                node_index_of(nodes, tn) as usize,
                                target_range,
                            )
                        } else {
                            edges
                        }
                    },
                    _ => edges,
                }
            },
            JustificationView::Other => edges,
        }
    } else {
        edges
    }
}

/// The edge-pass steps of one selection entry, over the log from `k` on.
pub open spec fn edges_for_entry(
    tr: Seq<TraceEntryView>,
    k: int,
    package: VariantView,
    version: Seq<u64>,
    nodes: Seq<DistView>,
    edges: Seq<GraphEdge>,
) -> Seq<GraphEdge>
    decreases tr.len() - k,
{
    if k < 0 || k >= tr.len() {
        edges
    } else {
        edges_for_entry(tr, k + 1, package, version, nodes, edge_step(
            tr[k],
            package,
            version,
            nodes,
            edges,
        ))
    }
}

/// The edge pass over the selection from position `i` on.
pub open spec fn pass2_from(
    sel: Seq<SelectionEntryView>,
    i: int,
    tr: Seq<TraceEntryView>,
    nodes: Seq<DistView>,
    edges: Seq<GraphEdge>,
) -> Seq<GraphEdge>
    decreases sel.len() - i,
{
    if i < 0 || i >= sel.len() {
        edges
    } else {
        pass2_from(sel, i + 1, tr, nodes, edges_for_entry(
            tr,
            0,
            sel[i].package,
            sel[i].version,
            nodes,
            edges,
        ))
    }
}

/// Every justification that survives the edge filters names two packages
/// whose base variants are selected: the solver only justifies pins it
/// selected.
pub open spec fn trace_consistent(
    sel: Seq<SelectionEntryView>,
    tr: Seq<TraceEntryView>,
) -> bool {
    forall|i: int, k: int|
        #![trigger sel[i], tr[k]]
        0 <= i < sel.len() && 0 <= k < tr.len() && tr[k].package == sel[i].package
            ==> match tr[k].justification {
            JustificationView::DependencyOf { source, source_range, target, .. } => {
                match (source, target) {
                    (
                        VariantView::Package { name: sn, .. },
                        VariantView::Package { name: tn, .. },
                    ) => (sn != tn && range_contains(source_range, sel[i].version))
                        ==> (base_selected(sel, sn) && base_selected(sel, tn)),
                    _ => true,
                }
            },
            JustificationView::Other => true,
        }
}

/// The complete mathematical content of a built resolution graph.
#[verifier::ext_equal]
pub ghost struct GraphModelView {
    pub nodes: Seq<DistView>,
    pub edges: Seq<GraphEdge>,
    pub hashes: Seq<HashEntryView>,
    pub diags: Seq<DiagView>,
}

/// What the whole construction yields: the node pass, then the edge pass
/// over its nodes.
pub open spec fn from_state_spec(
    sel: Seq<SelectionEntryView>,
    tr: Seq<TraceEntryView>,
    t: TablesView,
) -> Result<GraphModelView, ErrView> {
    match pass1_from(sel, 0, empty_build(), t) {
        Err(e) => Err(e),
        Ok(st) => Ok(
            GraphModelView {
                nodes: st.nodes,
                edges: pass2_from(sel, 0, tr, st.nodes, Seq::empty()),
                hashes: st.hashes,
                diags: st.diags,
            },
        ),
    }
}

/// The view of an optional borrowed URL.
pub open spec fn opt_url_view(u: Option<&Vec<u8>>) -> Option<Seq<u8>> {
    match u {
        Some(x) => Some(x@),
        None => None,
    }
}

/// Materialize the one concrete distribution that `(name, version)` denotes,
/// optionally reached through `url`: an editable entry always wins over a
/// registry or URL pin.
pub fn materialize(
    name: &Vec<u8>,
    version: &Version,
    url: Option<&Vec<u8>>,
    editables: &Editables,
    redirects: &Redirects,
    pins: &FilePins,
) -> (r: Option<PinnedDist>)
    ensures
        match r {
            Some(d) => materialize_spec(
                name@,
                version@,
                opt_url_view(url),
                tables_partial(editables@, redirects@, pins@),
            ) == Some(d@),
            None => materialize_spec(
                name@,
                version@,
                opt_url_view(url),
                tables_partial(editables@, redirects@, pins@),
            ) is None,
        },
{
    let ghost t = tables_partial(editables@, redirects@, pins@);
    match editables.get(name) {
        Some(e) => {
            let d = PinnedDist {
                name: copy_bytes(name),
                source: DistSource::Editable { verbatim: copy_bytes(&e.verbatim) },
            };
            proof {
                assert(materialize_spec(name@, version@, opt_url_view(url), t) == Some(d@));
            }
            Some(d)
        },
        None => match url {
            Some(u) => {
                let d = PinnedDist {
                    name: copy_bytes(name),
                    source: DistSource::DirectUrl { url: redirects.resolve(u) },
                };
                proof {
                    assert(materialize_spec(name@, version@, opt_url_view(url), t) == Some(d@));
                }
                Some(d)
            },
            None => match pins.get(name, version) {
                Some(d) => Some(d.duplicate()),
                None => None,
            },
        },
    }
}

/// A table view with only the parts materialization consults; the metadata
/// and version tables do not matter to it.
pub open spec fn tables_partial(
    eds: Seq<EditableEntryView>,
    reds: Seq<RedirectEntryView>,
    pins: Seq<PinEntryView>,
) -> TablesView {
    TablesView { eds, reds, pins, meta: Seq::empty(), versions: Seq::empty() }
}

/// Materialization reads only the editable, redirect and pin tables.
pub proof fn lemma_materialize_tables(
    name: Seq<u8>,
    version: Seq<u64>,
    url: Option<Seq<u8>>,
    t: TablesView,
)
    ensures
        materialize_spec(name, version, url, t) == materialize_spec(
            name,
            version,
            url,
            tables_partial(t.eds, t.reds, t.pins),
        ),
{
}


/// All five tables together.
pub open spec fn tables_all(
    eds: Seq<EditableEntryView>,
    reds: Seq<RedirectEntryView>,
    pins: Seq<PinEntryView>,
    meta: Seq<MetadataEntryView>,
    versions: Seq<VersionsEntryView>,
) -> TablesView {
    TablesView { eds, reds, pins, meta, versions }
}

/// A table view with only the parts an extra check consults.
pub open spec fn tables_for_check(
    eds: Seq<EditableEntryView>,
    reds: Seq<RedirectEntryView>,
    pins: Seq<PinEntryView>,
    meta: Seq<MetadataEntryView>,
) -> TablesView {
    TablesView { eds, reds, pins, meta, versions: Seq::empty() }
}

/// An extra check reads only the editable, redirect, pin and metadata
/// tables.
pub proof fn lemma_extra_check_tables(
    name: Seq<u8>,
    version: Seq<u64>,
    extra: Seq<u8>,
    url: Option<Seq<u8>>,
    t: TablesView,
)
    ensures
        extra_check_spec(name, version, extra, url, t) == extra_check_spec(
            name,
            version,
            extra,
            url,
            tables_for_check(t.eds, t.reds, t.pins, t.meta),
        ),
{
    lemma_materialize_tables(name, version, url, t);
    lemma_materialize_tables(name, version, url, tables_for_check(t.eds, t.reds, t.pins, t.meta));
}

/// Check one extra variant: no diagnostic when the extra is declared, a
/// missing-extra diagnostic against the materialized base distribution when
/// it is not, an error when the metadata or pin that takes is absent.
fn check_extra(
    name: &Vec<u8>,
    version: &Version,
    extra: &Vec<u8>,
    url: Option<&Vec<u8>>,
    editables: &Editables,
    distributions: &MetadataTable,
    redirects: &Redirects,
    pins: &FilePins,
) -> (r: Result<Option<Diagnostic>, ResolveError>)
    ensures
        ({
            let sr = extra_check_spec(
                name@,
                version@,
                extra@,
                opt_url_view(url),
                tables_for_check(editables@, redirects@, pins@, distributions@),
            );
            match r {
                Ok(None) => sr == Ok::<Option<DiagView>, ErrView>(None),
                Ok(Some(dg)) => sr == Ok::<Option<DiagView>, ErrView>(Some(dg@)),
                Err(e) => sr == Err::<Option<DiagView>, ErrView>(e@),
            }
        }),
{
    let ghost t = tables_for_check(editables@, redirects@, pins@, distributions@);
    match editables.get(name) {
        Some(e) => {
            if crate::lex::list_contains(&e.extras, extra) {
                Ok(None)
            } else {
                let dg = Diagnostic::MissingExtra {
                    dist: PinnedDist {
                        name: copy_bytes(name),
                        source: DistSource::Editable { verbatim: copy_bytes(&e.verbatim) },
                    },
                    extra: copy_bytes(extra),
                };
                proof {
                    assert(extra_check_spec(name@, version@, extra@, opt_url_view(url), t)
                        == Ok::<Option<DiagView>, ErrView>(Some(dg@)));
                }
                Ok(Some(dg))
            }
        },
        None => {
            let detail = match url {
                Some(u) => IdDetail::Url(copy_bytes(u)),
                None => IdDetail::Version(version.duplicate()),
            };
            proof {
                assert(detail@ == id_detail_of(version@, opt_url_view(url)));
            }
            match distributions.get(name, &detail) {
                None => {
                    let e = ResolveError::MissingMetadata { name: copy_bytes(name) };
                    proof {
                        assert(e@ == ErrView::MissingMetadata { name: name@ });
                    }
                    Err(e)
                },
                Some(m) => {
                    if crate::lex::list_contains(&m.extras, extra) {
                        Ok(None)
                    } else {
                        match materialize(name, version, url, editables, redirects, pins) {
                            Some(d) => {
                                proof {
                                    lemma_materialize_tables(
                                        name@,
                                        version@,
                                        opt_url_view(url),
                                        t,
                                    );
                                }
                                Ok(Some(Diagnostic::MissingExtra {
                                    dist: d,
                                    extra: copy_bytes(extra),
                                }))
                            },
                            None => {
                                proof {
                                    lemma_materialize_tables(
                                        name@,
                                        version@,
                                        opt_url_view(url),
                                        t,
                                    );
                                }
                                Err(ResolveError::MissingPin {
                                    name: copy_bytes(name),
                                    version: version.duplicate(),
                                })
                            },
                        }
                    }
                },
            }
        },
    }
}

/// Base variants selected among the first `i` entries.
pub open spec fn base_selected_upto(sel: Seq<SelectionEntryView>, i: int, name: Seq<u8>) -> bool {
    exists|j: int| 0 <= j < i && is_base_named(#[trigger] sel[j], name)
}

/// Position of the node carrying `name`, found by a scan.
fn find_node(g: &DistGraph, name: &Vec<u8>) -> (ix: usize)
    requires
        contains_node_name(dists_view(graph_nodes(*g)), name@),
    ensures
        ix == node_index_of(dists_view(graph_nodes(*g)), name@),
        ix < graph_nodes(*g).len(),
        dists_view(graph_nodes(*g))[ix as int].name == name@,
{
    let ghost nodes = dists_view(graph_nodes(*g));
    let n = graph_node_count(g);
    let mut i: usize = 0;
    while i < n
        invariant
            nodes == dists_view(graph_nodes(*g)),
            contains_node_name(nodes, name@),
            n == graph_nodes(*g).len(),
            i <= n,
            forall|j: int| 0 <= j < i ==> (#[trigger] nodes[j]).name != name@,
        decreases n - i,
    {
        let d = graph_node(g, i);
        proof {
            assert(nodes[i as int] == graph_nodes(*g)[i as int]@);
        }
        if bytes_eq(&d.name, name) {
            proof {
                lemma_node_index_skip(nodes, name@, i as int);
                assert(nodes.skip(i as int)[0] == nodes[i as int]);
            }
            return i;
        }
        i = i + 1;
    }
    proof {
        let k = choose|k: int| 0 <= k < nodes.len() && (#[trigger] nodes[k]).name == name@;
        assert(false);
    }
    0
}

/// A complete resolution: one node per pinned package, one edge per
/// justified dependency relation, with hash snapshots, the editable
/// registry, and the diagnostics gathered along the way.
#[derive(Debug)]
pub struct ResolutionGraph {
    /// The underlying graph.
    pub petgraph: DistGraph,
    /// The sorted hash snapshot of every package that had a version listing.
    pub hashes: Vec<HashEntry>,
    /// The editable registry the graph was built against.
    pub editables: Editables,
    /// The diagnostics encountered while building the graph.
    pub diagnostics: Vec<Diagnostic>,
}

impl ResolutionGraph {
    /// Well-formed: node names are pairwise distinct, and every edge joins
    /// two distinct, in-bounds nodes, one edge at most per ordered pair.
    pub open spec fn wf(self) -> bool {
        &&& forall|k: int, l: int|
            0 <= k < l < graph_nodes(self.petgraph).len()
                ==> (#[trigger] dists_view(graph_nodes(self.petgraph))[k]).name != (
            #[trigger] dists_view(graph_nodes(self.petgraph))[l]).name
        &&& edges_wf(graph_edges(self.petgraph), graph_nodes(self.petgraph).len() as int)
    }

    /// The number of packages in the graph.
    pub fn len(&self) -> (r: usize)
        ensures
            r == graph_nodes(self.petgraph).len(),
    {
        graph_node_count(&self.petgraph)
    }

    /// Whether the graph holds no packages.
    pub fn is_empty(&self) -> (r: bool)
        ensures
            r == (graph_nodes(self.petgraph).len() == 0),
    {
        graph_node_count(&self.petgraph) == 0
    }

    /// Whether the graph holds a package of the given name.
    pub fn contains(&self, name: &Vec<u8>) -> (r: bool)
        ensures
            r == contains_node_name(dists_view(graph_nodes(self.petgraph)), name@),
    {
        let ghost nodes = dists_view(graph_nodes(self.petgraph));
        let n = graph_node_count(&self.petgraph);
        let mut i: usize = 0;
        while i < n
            invariant
                nodes == dists_view(graph_nodes(self.petgraph)),
                n == graph_nodes(self.petgraph).len(),
                i <= n,
                forall|j: int| 0 <= j < i ==> (#[trigger] nodes[j]).name != name@,
            decreases n - i,
        {
            let d = graph_node(&self.petgraph, i);
            proof {
                assert(nodes[i as int] == graph_nodes(self.petgraph)[i as int]@);
            }
            if bytes_eq(&d.name, name) {
                return true;
            }
            i = i + 1;
        }
        false
    }

    /// The diagnostics encountered while building the graph.
    pub fn diagnostics(&self) -> (r: &Vec<Diagnostic>)
        ensures
            r == &self.diagnostics,
    {
        &self.diagnostics
    }

    /// The underlying graph.
    pub fn petgraph(&self) -> (r: &DistGraph)
        ensures
            r == &self.petgraph,
    {
        &self.petgraph
    }
}


impl ResolutionGraph {
    /// Build the resolution graph from a finished solver state: one node per
    /// selected base variant, a sorted hash snapshot for each node whose
    /// package has a version listing, one diagnostic per missing extra, and one
    /// edge per justified dependency relation whose source range contains the
    /// selected version.
    pub fn from_state(
        selection: &Vec<SelectionEntry>,
        pins: &FilePins,
        packages: &PackageVersions,
        distributions: &MetadataTable,
        redirects: &Redirects,
        trace: &Vec<TraceEntry>,
        editables: Editables,
    ) -> (r: Result<ResolutionGraph, ResolveError>)
        requires
            selection_base_unique(selection_view(selection@)),
            pins_wf(pins@),
            trace_consistent(selection_view(selection@), trace_view(trace@)),
        ensures
            ({
                let sr = from_state_spec(
                    selection_view(selection@),
                    trace_view(trace@),
                    tables_all(editables@, redirects@, pins@, distributions@, packages@),
                );
                match r {
                    Ok(g) => sr matches Ok(m) && g.wf() && dists_view(graph_nodes(g.petgraph))
                        == m.nodes && graph_edges(g.petgraph) == m.edges && hashes_view(g.hashes@)
                        == m.hashes && diags_view(g.diagnostics@) == m.diags && g.editables@
                        == editables@ && (forall|j: int|
                        0 <= j < selection_view(selection@).len() && is_base(
                            #[trigger] selection_view(selection@)[j],
                        ) ==> contains_node_name(
                            m.nodes,
                            variant_name(selection_view(selection@)[j].package),
                        )) && (forall|k: int|
                        0 <= k < m.nodes.len() ==> base_selected(
                            selection_view(selection@),
                            (#[trigger] m.nodes[k]).name,
                        )),
                    Err(e) => sr == Err::<GraphModelView, ErrView>(e@),
                }
            }),
    {
        let ghost selv = selection_view(selection@);
        let ghost tracev = trace_view(trace@);
        let ghost t = tables_all(editables@, redirects@, pins@, distributions@, packages@);
        let mut g = graph_new(selection.len(), selection.len());
        let mut hashes: Vec<HashEntry> = Vec::new();
        let mut diagnostics: Vec<Diagnostic> = Vec::new();
        proof {
            assert(dists_view(graph_nodes(g)) =~= Seq::<DistView>::empty());
            assert(hashes_view(hashes@) =~= Seq::<HashEntryView>::empty());
            assert(diags_view(diagnostics@) =~= Seq::<DiagView>::empty());
            assert((BuildState {
                nodes: dists_view(graph_nodes(g)),
                hashes: hashes_view(hashes@),
                diags: diags_view(diagnostics@),
            }) =~= empty_build());
        }
        let mut i: usize = 0;
        while i < selection.len()
            invariant
                selv == selection_view(selection@),
                tracev == trace_view(trace@),
                t == tables_all(editables@, redirects@, pins@, distributions@, packages@),
                selection_base_unique(selv),
                pins_wf(pins@),
                trace_consistent(selv, tracev),
                i <= selection.len(),
                selv.len() == selection.len(),
                graph_edges(g) == Seq::<GraphEdge>::empty(),
                pass1_from(selv, 0, empty_build(), t) == pass1_from(
                    selv,
                    i as int,
                    (BuildState {
                        nodes: dists_view(graph_nodes(g)),
                        hashes: hashes_view(hashes@),
                        diags: diags_view(diagnostics@),
                    }),
                    t,
                ),
                forall|k: int, l: int|
                    0 <= k < l < graph_nodes(g).len() ==> (#[trigger] dists_view(graph_nodes(g))[k]).name
                        != (#[trigger] dists_view(graph_nodes(g))[l]).name,
                forall|k: int|
                    0 <= k < graph_nodes(g).len() ==> base_selected_upto(
                        selv,
                        i as int,
                        (#[trigger] dists_view(graph_nodes(g))[k]).name,
                    ),
                forall|j: int|
                    0 <= j < i && is_base(#[trigger] selv[j]) ==> contains_node_name(
                        dists_view(graph_nodes(g)),
                        variant_name(selv[j].package),
                    ),
            decreases selection.len() - i,
        {
            let ghost cur = BuildState {
                nodes: dists_view(graph_nodes(g)),
                hashes: hashes_view(hashes@),
                diags: diags_view(diagnostics@),
            };
            proof {
                assert(selv[i as int] == selection@[i as int]@);
            }
            let entry = &selection[i];
            match &entry.package {
                PackageVariant::Bookkeeping => {
                    proof {
                        assert(step1_spec(selv[i as int], cur, t) == Ok::<BuildState, ErrView>(cur));
                    }
                },
                PackageVariant::Package { name, extra: None, url } => {
                    let url_ref = match url {
                        Some(u) => Some(u),
                        None => None,
                    };
                    let ghost uv = opt_url_view(url_ref);
                    proof {
                        assert(selv[i as int].package matches VariantView::Package { url: u2, .. }
                            && u2 == uv);
                    }
                    match materialize(name, &entry.version, url_ref, &editables, redirects, pins) {
                        None => {
                            proof {
                                lemma_materialize_tables(name@, entry.version@, uv, t);
                                assert(step1_spec(selv[i as int], cur, t) == Err::<
                                    BuildState,
                                    ErrView,
                                >(ErrView::MissingPin { name: name@, version: entry.version@ }));
                            }
                            let e = ResolveError::MissingPin {
                                name: copy_bytes(name),
                                version: entry.version.duplicate(),
                            };
                            proof {
                                assert(e@ =~= ErrView::MissingPin {
                                    name: name@,
                                    version: entry.version@,
                                });
                            }
                            return Err(e);
                        },
                        Some(d) => {
                            proof {
                                lemma_materialize_tables(name@, entry.version@, uv, t);
                                crate::tables::lemma_pins_find_found(t.pins, name@, entry.version@);
                                assert(d@.name == name@);
                                assert(is_base_named(selv[i as int], name@));
                                assert forall|k: int| 0 <= k < cur.nodes.len() implies (
                                #[trigger] cur.nodes[k]).name != name@ by {
                                    if cur.nodes[k].name == name@ {
                                        let j = choose|j: int|
                                            0 <= j < i && is_base_named(
                                                #[trigger] selv[j],
                                                cur.nodes[k].name,
                                            );
                                        assert(is_base(selv[j]));
                                        assert(is_base(selv[i as int]));
                                    }
                                }
                            }
                            let ghost d_view = d@;
                            match packages.hashes_of(name, &entry.version) {
                                Some(hs) => {
                                    let sorted = sort_bytes(&hs);
                                    hashes.push(HashEntry { name: copy_bytes(name), hashes: sorted });
                                    proof {
                                        assert(hashes_view(hashes@) =~= cur.hashes.push(
                                            HashEntryView {
                                                name: name@,
                                                hashes: sort_bytes_seq(bytes_view(hs@)),
                                            },
                                        ));
                                    }
                                },
                                None => {},
                            }
                            let ix = graph_add_node(&mut g, d);
                            proof {
                                assert(dists_view(graph_nodes(g)) =~= cur.nodes.push(d_view));
                                assert(step1_spec(selv[i as int], cur, t) == Ok::<
                                    BuildState,
                                    ErrView,
                                >(BuildState {
                                    nodes: dists_view(graph_nodes(g)),
                                    hashes: hashes_view(hashes@),
                                    diags: diags_view(diagnostics@),
                                }));
                                assert(base_selected_upto(selv, i + 1, name@));
                                assert forall|k: int| 0 <= k < graph_nodes(g).len() implies
                                    base_selected_upto(
                                    selv,
                                    i + 1,
                                    (#[trigger] dists_view(graph_nodes(g))[k]).name,
                                ) by {
                                    if k < cur.nodes.len() {
                                        assert(dists_view(graph_nodes(g))[k] == cur.nodes[k]);
                                        assert(base_selected_upto(selv, i as int, cur.nodes[k].name));
                                    } else {
                                        assert(dists_view(graph_nodes(g))[k] == d_view);
                                    }
                                }
                                assert forall|j: int|
                                    0 <= j < i + 1 && is_base(#[trigger] selv[j]) implies
                                    contains_node_name(
                                    dists_view(graph_nodes(g)),
                                    variant_name(selv[j].package),
                                ) by {
                                    if j < i {
                                        assert(contains_node_name(
                                            cur.nodes,
                                            variant_name(selv[j].package),
                                        ));
                                        let k = choose|k: int|
                                            0 <= k < cur.nodes.len() && (#[trigger] cur.nodes[k]).name
                                                == variant_name(selv[j].package);
                                        assert(dists_view(graph_nodes(g))[k] == cur.nodes[k]);
                                    } else {
                                        assert(dists_view(graph_nodes(g))[cur.nodes.len() as int]
                                            == d_view);
                                    }
                                }
                            }
                        },
                    }
                },
                PackageVariant::Package { name, extra: Some(x), url } => {
                    let url_ref = match url {
                        Some(u) => Some(u),
                        None => None,
                    };
                    let ghost uv = opt_url_view(url_ref);
                    proof {
                        assert(selv[i as int].package matches VariantView::Package { url: u2, .. }
                            && u2 == uv);
                        lemma_extra_check_tables(name@, entry.version@, x@, uv, t);
                    }
                    match check_extra(
                        name,
                        &entry.version,
                        x,
                        url_ref,
                        &editables,
                        distributions,
                        redirects,
                        pins,
                    ) {
                        Err(e) => {
                            proof {
                                assert(step1_spec(selv[i as int], cur, t) == Err::<
                                    BuildState,
                                    ErrView,
                                >(e@));
                            }
                            return Err(e);
                        },
                        Ok(None) => {
                            proof {
                                assert(step1_spec(selv[i as int], cur, t) == Ok::<
                                    BuildState,
                                    ErrView,
                                >(cur));
                            }
                        },
                        Ok(Some(dg)) => {
                            let ghost dgv = dg@;
                            diagnostics.push(dg);
                            proof {
                                assert(diags_view(diagnostics@) =~= cur.diags.push(dgv));
                                assert(step1_spec(selv[i as int], cur, t) == Ok::<
                                    BuildState,
                                    ErrView,
                                >(BuildState {
                                    nodes: cur.nodes,
                                    hashes: cur.hashes,
                                    diags: diags_view(diagnostics@),
                                }));
                            }
                        },
                    }
                },
            }
            i = i + 1;
        }
        let ghost st = BuildState {
            nodes: dists_view(graph_nodes(g)),
            hashes: hashes_view(hashes@),
            diags: diags_view(diagnostics@),
        };
        let ghost nodesv = dists_view(graph_nodes(g));
        proof {
            assert(pass1_from(selv, 0, empty_build(), t) == Ok::<BuildState, ErrView>(st));
            assert(graph_edges(g) =~= Seq::<GraphEdge>::empty());
            assert(edges_wf(graph_edges(g), nodesv.len() as int));
        }
        let mut i: usize = 0;
        while i < selection.len()
            invariant
                selv == selection_view(selection@),
                tracev == trace_view(trace@),
                trace_consistent(selv, tracev),
                i <= selection.len(),
                selv.len() == selection.len(),
                tracev.len() == trace.len(),
                nodesv == dists_view(graph_nodes(g)),
                st.nodes == nodesv,
                edges_wf(graph_edges(g), nodesv.len() as int),
                pass2_from(selv, 0, tracev, nodesv, Seq::<GraphEdge>::empty()) == pass2_from(
                    selv,
                    i as int,
                    tracev,
                    nodesv,
                    graph_edges(g),
                ),
                forall|j: int|
                    0 <= j < selv.len() && is_base(#[trigger] selv[j]) ==> contains_node_name(
                        nodesv,
                        variant_name(selv[j].package),
                    ),
            decreases selection.len() - i,
        {
            let entry = &selection[i];
            proof {
                assert(selv[i as int] == selection@[i as int]@);
            }
            let ghost pkgv = selv[i as int].package;
            let ghost verv = selv[i as int].version;
            let ghost e_entry = graph_edges(g);
            let mut k: usize = 0;
            while k < trace.len()
                invariant
                    selv == selection_view(selection@),
                    tracev == trace_view(trace@),
                    trace_consistent(selv, tracev),
                    i < selection.len(),
                    selv.len() == selection.len(),
                    tracev.len() == trace.len(),
                    entry@ == selv[i as int],
                    pkgv == selv[i as int].package,
                    verv == selv[i as int].version,
                    k <= trace.len(),
                    nodesv == dists_view(graph_nodes(g)),
                    edges_wf(graph_edges(g), nodesv.len() as int),
                    pass2_from(selv, 0, tracev, nodesv, Seq::<GraphEdge>::empty()) == pass2_from(
                        selv,
                        i + 1,
                        tracev,
                        nodesv,
                        edges_for_entry(tracev, k as int, pkgv, verv, nodesv, graph_edges(g)),
                    ),
                    forall|j: int|
                        0 <= j < selv.len() && is_base(#[trigger] selv[j]) ==> contains_node_name(
                            nodesv,
                            variant_name(selv[j].package),
                        ),
                decreases trace.len() - k,
            {
                let te = &trace[k];
                proof {
                    assert(tracev[k as int] == trace@[k as int]@);
                }
                let ghost cur_edges = graph_edges(g);
                if te.package.eq_to(&entry.package) {
                    match &te.justification {
                        Justification::Other => {
                            proof {
                                assert(edge_step(tracev[k as int], pkgv, verv, nodesv, cur_edges)
                                    == cur_edges);
                            }
                        },
                        Justification::DependencyOf { source, source_range, target, target_range } => {
                            match (source, target) {
                                (
                                    PackageVariant::Package { name: sn, .. },
                                    PackageVariant::Package { name: tn, .. },
                                ) => {
                                    if !bytes_eq(sn, tn) {
                                        if source_range.contains(&entry.version) {
                                            proof {
                                                assert(base_selected(selv, sn@) && base_selected(
                                                    selv,
                                                    tn@,
                                                )) by {
                                                    assert(tracev[k as int].package == selv[i as int].package);
                                                }
                                                assert(contains_node_name(nodesv, sn@)) by {
                                                    let j = choose|j: int|
                                                        0 <= j < selv.len() && is_base_named(
                                                            #[trigger] selv[j],
                                                            sn@,
                                                        );
                                                    assert(is_base(selv[j]));
                                                    assert(variant_name(selv[j].package) == sn@);
                                                }
                                                assert(contains_node_name(nodesv, tn@)) by {
                                                    let j = choose|j: int|
                                                        0 <= j < selv.len() && is_base_named(
                                                            #[trigger] selv[j],
                                                            tn@,
                                                        );
                                                    assert(is_base(selv[j]));
                                                    assert(variant_name(selv[j].package) == tn@);
                                                }
                                            }
                                            let ia = find_node(&g, sn);
                                            let ib = find_node(&g, tn);
                                            proof {
                                                assert(ia != ib);
                                                lemma_update_edge_wf(
                                                    cur_edges,
                                                    ia,
                                                    ib,
                                                    target_range@,
                                                    nodesv.len() as int,
                                                );
                                            }
                                            graph_update_edge(&mut g, ia, ib, target_range.duplicate());
                                            proof {
                                                assert(edge_step(
                                                    tracev[k as int],
                                                    pkgv,
                                                    verv,
                                                    nodesv,
                                                    cur_edges,
                                                ) == graph_edges(g));
                                            }
                                        } else {
                                            proof {
                                                assert(edge_step(
                                                    tracev[k as int],
                                                    pkgv,
                                                    verv,
                                                    nodesv,
                                                    cur_edges,
                                                ) == cur_edges);
                                            }
                                        }
                                    } else {
                                        proof {
                                            assert(edge_step(
                                                tracev[k as int],
                                                pkgv,
                                                verv,
                                                nodesv,
                                                cur_edges,
                                            ) == cur_edges);
                                        }
                                    }
                                },
                                _ => {
                                    proof {
                                        assert(edge_step(tracev[k as int], pkgv, verv, nodesv, cur_edges)
                                            == cur_edges);
                                    }
                                },
                            }
                        },
                    }
                } else {
                    proof {
                        assert(edge_step(tracev[k as int], pkgv, verv, nodesv, cur_edges) == cur_edges);
                    }
                }
                proof {
                    assert(edges_for_entry(tracev, k as int, pkgv, verv, nodesv, cur_edges)
                        == edges_for_entry(tracev, k + 1, pkgv, verv, nodesv, graph_edges(g)));
                }
                k = k + 1;
            }
            i = i + 1;
        }
        proof {
            assert(pass2_from(selv, 0, tracev, nodesv, Seq::<GraphEdge>::empty()) == graph_edges(g));
        }
        let result = ResolutionGraph { petgraph: g, hashes, editables, diagnostics };
        proof {
            assert(result.wf());
            assert(from_state_spec(selv, tracev, t) == Ok::<GraphModelView, ErrView>(GraphModelView {
                nodes: st.nodes,
                edges: graph_edges(result.petgraph),
                hashes: st.hashes,
                diags: st.diags,
            }));
            assert forall|k: int| 0 <= k < nodesv.len() implies base_selected(
                selv,
                (#[trigger] nodesv[k]).name,
            ) by {
                assert(base_selected_upto(selv, selv.len() as int, nodesv[k].name));
                let j = choose|j: int|
                    0 <= j < selv.len() && is_base_named(#[trigger] selv[j], nodesv[k].name);
            }
        }
        Ok(result)
    }
}


/// First hash snapshot recorded for `name`, if any.
pub open spec fn hashes_find(s: Seq<HashEntryView>, name: Seq<u8>) -> Option<HashEntryView>
    decreases s.len(),
{
    if s.len() == 0 {
        None
    } else if s[0].name == name {
        Some(s[0])
    } else {
        hashes_find(s.skip(1), name)
    }
}

/// With no match among the first `i` entries, the lookup is decided by the
/// rest.
proof fn lemma_hashes_find_skip(s: Seq<HashEntryView>, name: Seq<u8>, i: int)
    requires
        0 <= i <= s.len(),
        forall|j: int| 0 <= j < i ==> (#[trigger] s[j]).name != name,
    ensures
        hashes_find(s, name) == hashes_find(s.skip(i), name),
    decreases i,
{
    if i > 0 {
        lemma_hashes_find_skip(s.skip(1), name, i - 1);
        assert(s.skip(1).skip(i - 1) =~= s.skip(i));
    } else {
        assert(s.skip(0) =~= s);
    }
}

/// Look up the hash snapshot recorded for `name`.
pub fn hashes_get<'a>(hs: &'a Vec<HashEntry>, name: &Vec<u8>) -> (r: Option<&'a HashEntry>)
    ensures
        match r {
            Some(e) => hashes_find(hashes_view(hs@), name@) == Some(e@),
            None => hashes_find(hashes_view(hs@), name@) is None,
        },
{
    let mut i: usize = 0;
    while i < hs.len()
        invariant
            i <= hs.len(),
            forall|j: int| 0 <= j < i ==> (#[trigger] hashes_view(hs@)[j]).name != name@,
        decreases hs.len() - i,
    {
        proof {
            lemma_hashes_find_skip(hashes_view(hs@), name@, i as int);
        }
        proof {
            assert(hashes_view(hs@)[i as int] == hs@[i as int]@);
        }
        if crate::lex::bytes_eq(&hs[i].name, name) {
            proof {
                assert(hashes_view(hs@).skip(i as int)[0] == hashes_view(hs@)[i as int]);
            }
            return Some(&hs[i]);
        }
        i = i + 1;
    }
    proof {
        lemma_hashes_find_skip(hashes_view(hs@), name@, i as int);
        assert(hashes_view(hs@).skip(i as int).len() == 0);
    }
    None
}


/// A resolution reduced to its mapping from package names to pinned
/// distributions, in node order.
#[derive(Debug)]
pub struct Resolution {
    pub entries: Vec<PinnedDist>,
}

impl Resolution {
    /// The mapping held by a resolution graph.
    pub fn from_graph(graph: &ResolutionGraph) -> (r: Resolution)
        ensures
            dists_view(r.entries@) == dists_view(graph_nodes(graph.petgraph)),
    {
        let mut entries: Vec<PinnedDist> = Vec::new();
        let n = graph_node_count(&graph.petgraph);
        let mut i: usize = 0;
        while i < n
            invariant
                n == graph_nodes(graph.petgraph).len(),
                i <= n,
                entries@.len() == i,
                forall|j: int|
                    0 <= j < i ==> #[trigger] entries@[j]@ == graph_nodes(graph.petgraph)[j]@,
            decreases n - i,
        {
            entries.push(graph_node(&graph.petgraph, i).duplicate());
            i = i + 1;
        }
        proof {
            assert forall|j: int| 0 <= j < entries@.len() implies #[trigger] dists_view(
                entries@,
            )[j] == dists_view(graph_nodes(graph.petgraph))[j] by {
                assert(dists_view(entries@)[j] == entries@[j]@);
                assert(dists_view(graph_nodes(graph.petgraph))[j] == graph_nodes(
                    graph.petgraph,
                )[j]@);
            }
            assert(dists_view(entries@) =~= dists_view(graph_nodes(graph.petgraph)));
        }
        Resolution { entries }
    }
}

} // verus!
