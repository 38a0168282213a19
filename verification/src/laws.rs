//! The library's laws: properties of graph construction and rendering,
//! proved once and for all inputs.

use vstd::prelude::*;
use crate::dist::{DistSourceView, DistView};
use crate::display::{annotation_spec, collect_from, lemma_editables_first,
    lemma_sort_nodes_elements, lemma_sort_nodes_sorted, sort_nodes_spec, AnnotationStyle};
use crate::graph_store::{graph_edges, graph_nodes};
use crate::lex::{contains_bytes, lemma_lex_sorted_unique, lemma_sort_bytes_multiset,
    lemma_sort_bytes_sorted, lit_bytes, sort_bytes_seq};
use crate::resolution::{base_selected, contains_node_name, extra_check_spec, materialize_spec,
    ResolutionGraph, TablesView};
use crate::tables::{editables_find, metadata_find, EditableEntryView};

verus! {

/// Node uniqueness: a package name selected as a base variant names exactly
/// one node — one exists, and any two nodes carrying it are the same node.
pub proof fn lemma_node_uniqueness(
    nodes: Seq<DistView>,
    sel: Seq<crate::solver::SelectionEntryView>,
    name: Seq<u8>,
)
    requires
        forall|k: int, l: int|
            0 <= k < l < nodes.len() ==> (#[trigger] nodes[k]).name != (#[trigger] nodes[l]).name,
        forall|j: int|
            0 <= j < sel.len() && crate::resolution::is_base(#[trigger] sel[j])
                ==> contains_node_name(nodes, crate::resolution::variant_name(sel[j].package)),
        base_selected(sel, name),
    ensures
        exists|k: int| 0 <= k < nodes.len() && (#[trigger] nodes[k]).name == name,
        forall|k: int, l: int|
            0 <= k < nodes.len() && 0 <= l < nodes.len() && (#[trigger] nodes[k]).name == name && (
            #[trigger] nodes[l]).name == name ==> k == l,
{
    let j = choose|j: int| 0 <= j < sel.len() && crate::resolution::is_base_named(
        #[trigger] sel[j],
        name,
    );
    assert(crate::resolution::is_base(sel[j]));
    assert(crate::resolution::variant_name(sel[j].package) == name);
    assert(contains_node_name(nodes, name));
    assert forall|k: int, l: int|
        0 <= k < nodes.len() && 0 <= l < nodes.len() && (#[trigger] nodes[k]).name == name && (
        #[trigger] nodes[l]).name == name implies k == l by {
        if k < l {
        } else if l < k {
        }
    }
}

/// No self-loops: in a well-formed graph, no edge joins two nodes of the
/// same package name.
pub proof fn lemma_no_self_loops(g: ResolutionGraph)
    requires
        g.wf(),
    ensures
        forall|i: int|
            0 <= i < graph_edges(g.petgraph).len() ==> crate::dist::dists_view(
                graph_nodes(g.petgraph),
            )[(#[trigger] graph_edges(g.petgraph)[i]).from as int].name != crate::dist::dists_view(
                graph_nodes(g.petgraph),
            )[graph_edges(g.petgraph)[i].to as int].name,
{
    let nodes = crate::dist::dists_view(graph_nodes(g.petgraph));
    let edges = graph_edges(g.petgraph);
    assert forall|i: int| 0 <= i < edges.len() implies nodes[(#[trigger] edges[i]).from as int].name
        != nodes[edges[i].to as int].name by {
        assert(edges[i].from != edges[i].to);
        if edges[i].from < edges[i].to {
            assert(nodes[edges[i].from as int].name != nodes[edges[i].to as int].name);
        } else {
            assert(nodes[edges[i].to as int].name != nodes[edges[i].from as int].name);
        }
    }
}

/// Editable precedence: a name present in the editable registry always
/// materializes to its editable distribution, whatever the version or URL.
pub proof fn lemma_editable_precedence(
    name: Seq<u8>,
    version: Seq<u64>,
    url: Option<Seq<u8>>,
    t: TablesView,
    e: EditableEntryView,
)
    requires
        editables_find(t.eds, name) == Some(e),
    ensures
        materialize_spec(name, version, url, t) == Some(
            DistView { name, source: DistSourceView::Editable { verbatim: e.verbatim } },
        ),
{
}

/// Missing-extra detection: an extra absent from the resolved metadata of a
/// non-editable package yields exactly the missing-extra diagnostic against
/// the materialized base distribution, and nothing else.
pub proof fn lemma_missing_extra(
    name: Seq<u8>,
    version: Seq<u64>,
    extra: Seq<u8>,
    url: Option<Seq<u8>>,
    t: TablesView,
    m: crate::tables::MetadataEntryView,
    d: DistView,
)
    requires
        editables_find(t.eds, name) is None,
        metadata_find(t.meta, name, crate::resolution::id_detail_of(version, url)) == Some(m),
        !contains_bytes(m.extras, extra),
        materialize_spec(name, version, url, t) == Some(d),
    ensures
        extra_check_spec(name, version, extra, url, t) == Ok::<
            Option<crate::dist::DiagView>,
            crate::resolution::ErrView,
        >(Some(crate::dist::DiagView::MissingExtra { dist: d, extra })),
{
}

/// Deterministic rendering: the rendered text is a function of the graph
/// and the options alone, so any two renderings of the same graph with the
/// same options are byte-identical.
pub proof fn lemma_render_deterministic(
    r1: Seq<u8>,
    r2: Seq<u8>,
    g: ResolutionGraph,
    no_emit: Seq<Seq<u8>>,
    show_hashes: bool,
    include_annotations: bool,
    style: AnnotationStyle,
)
    requires
        r1 == crate::display::render_spec(g, no_emit, show_hashes, include_annotations, style),
        r2 == crate::display::render_spec(g, no_emit, show_hashes, include_annotations, style),
    ensures
        r1 == r2,
{
}

/// Sort order: among the entries a rendering emits, every editable entry
/// stands before every distribution entry, whatever the names.
pub proof fn lemma_editables_render_first(
    nodes: Seq<DistView>,
    eds: Seq<EditableEntryView>,
    no_emit: Seq<Seq<u8>>,
)
    ensures
        forall|i: int, j: int|
            0 <= i < j < sort_nodes_spec(collect_from(nodes, eds, no_emit, 0)).len() && (
            #[trigger] sort_nodes_spec(collect_from(nodes, eds, no_emit, 0))[j]).editable ==> (
            #[trigger] sort_nodes_spec(collect_from(nodes, eds, no_emit, 0))[i]).editable,
{
    lemma_sort_nodes_sorted(collect_from(nodes, eds, no_emit, 0));
    lemma_editables_first(sort_nodes_spec(collect_from(nodes, eds, no_emit, 0)));
}

/// Hash separator: with hashes shown and line-style annotations, the
/// separator before the comment is a newline continuation, never the
/// double space.
pub proof fn lemma_hash_separator(deps: Seq<Seq<u8>>)
    requires
        deps.len() > 0,
    ensures
        match annotation_spec(deps, true, true, AnnotationStyle::Line) {
            Some(sc) => sc.0 == lit_bytes("\n    "),
            None => false,
        },
{
}

/// Exclusion: no entry a rendering emits carries an excluded package name.
pub proof fn lemma_exclusion(
    nodes: Seq<DistView>,
    eds: Seq<EditableEntryView>,
    no_emit: Seq<Seq<u8>>,
    name: Seq<u8>,
)
    requires
        contains_bytes(no_emit, name),
    ensures
        forall|j: int|
            0 <= j < sort_nodes_spec(collect_from(nodes, eds, no_emit, 0)).len() ==> (
            #[trigger] sort_nodes_spec(collect_from(nodes, eds, no_emit, 0))[j]).name != name,
{
    lemma_collect_excludes(nodes, eds, no_emit, name, 0);
    lemma_sort_nodes_elements(collect_from(nodes, eds, no_emit, 0));
    let coll = collect_from(nodes, eds, no_emit, 0);
    let sorted = sort_nodes_spec(coll);
    assert forall|j: int| 0 <= j < sorted.len() implies (#[trigger] sorted[j]).name != name by {
        assert(coll.contains(sorted[j]));
        let k = choose|k: int| 0 <= k < coll.len() && coll[k] == sorted[j];
    }
}

/// No collected entry carries an excluded name.
proof fn lemma_collect_excludes(
    nodes: Seq<DistView>,
    eds: Seq<EditableEntryView>,
    no_emit: Seq<Seq<u8>>,
    name: Seq<u8>,
    i: int,
)
    requires
        contains_bytes(no_emit, name),
    ensures
        forall|j: int|
            0 <= j < collect_from(nodes, eds, no_emit, i).len() ==> (#[trigger] collect_from(
                nodes,
                eds,
                no_emit,
                i,
            )[j]).name != name,
    decreases nodes.len() - i,
{
    if 0 <= i < nodes.len() {
        lemma_collect_excludes(nodes, eds, no_emit, name, i + 1);
        let full = collect_from(nodes, eds, no_emit, i);
        let rest = collect_from(nodes, eds, no_emit, i + 1);
        assert forall|j: int| 0 <= j < full.len() implies (#[trigger] full[j]).name != name by {
            if contains_bytes(no_emit, nodes[i].name) {
                assert(full[j] == rest[j]);
            } else {
                if j == 0 {
                    assert(full[0].name == nodes[i].name);
                } else {
                    assert(full[j] == rest[j - 1]);
                }
            }
        }
    }
}


/// Canonical sorting: two listings holding the same hashes, in any order,
/// sort to the same sequence — so the rendered hash block does not depend
/// on the order an upstream table was walked in.
pub proof fn lemma_sort_canonical(s1: Seq<Seq<u8>>, s2: Seq<Seq<u8>>)
    requires
        s1.to_multiset() == s2.to_multiset(),
    ensures
        sort_bytes_seq(s1) == sort_bytes_seq(s2),
{
    lemma_sort_bytes_multiset(s1);
    lemma_sort_bytes_multiset(s2);
    lemma_sort_bytes_sorted(s1);
    lemma_sort_bytes_sorted(s2);
    lemma_lex_sorted_unique(sort_bytes_seq(s1), sort_bytes_seq(s2));
}

} // verus!
