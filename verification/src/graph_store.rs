//! The dependency-graph store, kept in a `petgraph` directed graph.
//!
//! The graph itself is opaque to verification; these declarations give it a
//! mathematical content through two names — `graph_nodes`, the node weights
//! in insertion order, and `graph_edges`, the edge records in insertion
//! order — and a small set of trusted wrappers whose contracts state, over
//! those names, what the `petgraph` sources show each call to do.

use vstd::prelude::*;
use crate::dist::PinnedDist;
use crate::version::{IntervalView, VersionRange};

verus! {

#[verifier::external_type_specification]
#[verifier::external_body]
#[verifier::reject_recursive_types(N)]
#[verifier::reject_recursive_types(E)]
#[verifier::reject_recursive_types(Ty)]
#[verifier::reject_recursive_types(Ix)]
pub struct ExGraph<N, E, Ty, Ix>(petgraph::graph::Graph<N, E, Ty, Ix>);

#[verifier::external_type_specification]
#[verifier::external_body]
pub struct ExDirected(petgraph::Directed);

/// The concrete graph type of a resolution: pinned distributions on the
/// nodes, the constraining version ranges on the edges.
pub type DistGraph = petgraph::graph::Graph<PinnedDist, VersionRange, petgraph::Directed, usize>;

/// One directed edge: node positions of its endpoints and the content of its
/// range weight.
#[verifier::ext_equal]
pub ghost struct GraphEdge {
    pub from: usize,
    pub to: usize,
    pub range: Seq<IntervalView>,
}

/// The node weights of `g`, in insertion order.
pub uninterp spec fn graph_nodes(g: DistGraph) -> Seq<PinnedDist>;

/// The edges of `g`, in insertion order; an updated edge keeps its position.
pub uninterp spec fn graph_edges(g: DistGraph) -> Seq<GraphEdge>;

/// Whether an edge from `a` to `b` is present.
pub open spec fn has_edge(edges: Seq<GraphEdge>, a: usize, b: usize) -> bool {
    exists|i: int| 0 <= i < edges.len() && (#[trigger] edges[i]).from == a && edges[i].to == b
}

/// Position of the first edge from `a` to `b`; the length when absent.
pub open spec fn edge_index(edges: Seq<GraphEdge>, a: usize, b: usize) -> int
    decreases edges.len(),
{
    if edges.len() == 0 {
        0
    } else if edges[0].from == a && edges[0].to == b {
        0
    } else {
        1 + edge_index(edges.skip(1), a, b)
    }
}

/// What updating the edge `a -> b` does to the edge list: the weight of the
/// existing edge is replaced in place, or a new edge is appended.
pub open spec fn spec_update_edge(
    edges: Seq<GraphEdge>,
    a: usize,
    b: usize,
    range: Seq<IntervalView>,
) -> Seq<GraphEdge> {
    if has_edge(edges, a, b) {
        edges.update(edge_index(edges, a, b), GraphEdge { from: a, to: b, range })
    } else {
        edges.push(GraphEdge { from: a, to: b, range })
    }
}

/// No two edges share their endpoint pair.
pub open spec fn edges_unique(edges: Seq<GraphEdge>) -> bool {
    forall|i: int, j: int|
        0 <= i < j < edges.len() ==> !((#[trigger] edges[i]).from == (#[trigger] edges[j]).from
            && edges[i].to == edges[j].to)
}

/// Edges well-formed against `n` nodes: endpoints in bounds and distinct,
/// and no duplicated endpoint pair.
pub open spec fn edges_wf(edges: Seq<GraphEdge>, n: int) -> bool {
    &&& forall|i: int|
        0 <= i < edges.len() ==> (#[trigger] edges[i]).from < n && edges[i].to < n
            && edges[i].from != edges[i].to
    &&& edges_unique(edges)
}

/// When present, the first `a -> b` edge sits at `edge_index`, with those
/// endpoints; earlier edges have other endpoints.
pub proof fn lemma_edge_index(edges: Seq<GraphEdge>, a: usize, b: usize)
    requires
        has_edge(edges, a, b),
    ensures
        0 <= edge_index(edges, a, b) < edges.len(),
        edges[edge_index(edges, a, b)].from == a,
        edges[edge_index(edges, a, b)].to == b,
    decreases edges.len(),
{
    if edges.len() > 0 && !(edges[0].from == a && edges[0].to == b) {
        assert(has_edge(edges.skip(1), a, b)) by {
            let i = choose|i: int|
                0 <= i < edges.len() && (#[trigger] edges[i]).from == a && edges[i].to == b;
            assert(edges.skip(1)[i - 1] == edges[i]);
        }
        lemma_edge_index(edges.skip(1), a, b);
        assert(edges[edge_index(edges, a, b)] == edges.skip(1)[edge_index(edges.skip(1), a, b)]);
    }
}

/// Updating an edge between distinct, in-bounds nodes keeps the edge list
/// well-formed.
pub proof fn lemma_update_edge_wf(
    edges: Seq<GraphEdge>,
    a: usize,
    b: usize,
    range: Seq<IntervalView>,
    n: int,
)
    requires
        edges_wf(edges, n),
        a < n,
        b < n,
        a != b,
    ensures
        edges_wf(spec_update_edge(edges, a, b, range), n),
{
    let out = spec_update_edge(edges, a, b, range);
    if has_edge(edges, a, b) {
        lemma_edge_index(edges, a, b);
        let k = edge_index(edges, a, b);
        assert(forall|i: int|
            0 <= i < out.len() ==> (#[trigger] out[i]).from == edges[i].from && out[i].to
                == edges[i].to);
    }
}

/// The predicate selecting the edges that target `to`.
pub open spec fn targets_pred(to: usize) -> spec_fn(GraphEdge) -> bool {
    |e: GraphEdge| e.to == to
}

/// The function reading an edge's source.
pub open spec fn source_of() -> spec_fn(GraphEdge) -> usize {
    |e: GraphEdge| e.from
}

/// The incoming sources of node `to`: the sources of the edges that target
/// it, most recently created first, as `petgraph` walks them.
pub open spec fn incoming_sources_spec(edges: Seq<GraphEdge>, to: usize) -> Seq<usize> {
    edges.filter(targets_pred(to)).map_values(source_of()).reverse()
}

/// Every filtered edge is an edge of the list.
proof fn lemma_filter_in(edges: Seq<GraphEdge>, to: usize)
    ensures
        forall|i: int|
            0 <= i < edges.filter(targets_pred(to)).len() ==> edges.contains(
                #[trigger] edges.filter(targets_pred(to))[i],
            ),
    decreases edges.len(),
{
    reveal(Seq::filter);
    if edges.len() > 0 {
        lemma_filter_in(edges.drop_last(), to);
        let sub = edges.drop_last().filter(targets_pred(to));
        let full = edges.filter(targets_pred(to));
        assert forall|i: int| 0 <= i < full.len() implies edges.contains(#[trigger] full[i]) by {
            if i < sub.len() {
                assert(full[i] == sub[i]);
                assert(edges.drop_last().contains(sub[i]));
                let k = choose|k: int|
                    0 <= k < edges.drop_last().len() && edges.drop_last()[k] == sub[i];
                assert(edges[k] == sub[i]);
            } else {
                assert(full[i] == edges.last());
                assert(edges[edges.len() - 1] == edges.last());
            }
        }
    }
}

/// With well-formed edges, every incoming source is an in-bounds node.
pub proof fn lemma_incoming_bounds(edges: Seq<GraphEdge>, to: usize, n: int)
    requires
        edges_wf(edges, n),
    ensures
        forall|j: int|
            0 <= j < incoming_sources_spec(edges, to).len() ==> (
            #[trigger] incoming_sources_spec(edges, to)[j]) < n,
{
    lemma_filter_in(edges, to);
    let f = edges.filter(targets_pred(to));
    let m = f.map_values(source_of());
    let inc = incoming_sources_spec(edges, to);
    assert forall|j: int| 0 <= j < inc.len() implies (#[trigger] inc[j]) < n by {
        assert(inc[j] == m[m.len() - 1 - j]);
        assert(m[m.len() - 1 - j] == f[m.len() - 1 - j].from);
        assert(edges.contains(f[m.len() - 1 - j]));
        let k = choose|k: int| 0 <= k < edges.len() && edges[k] == f[m.len() - 1 - j];
        assert(edges[k].from < n);
    }
}

/// Relies on `petgraph::graph::Graph::with_capacity`: a graph made this way
/// has no nodes and no edges.
#[verifier::external_body]
pub fn graph_new(nodes: usize, edges: usize) -> (g: DistGraph)
    ensures
        graph_nodes(g) == Seq::<PinnedDist>::empty(),
        graph_edges(g) == Seq::<GraphEdge>::empty(),
{
    petgraph::graph::Graph::with_capacity(nodes, edges)
}

/// Relies on `petgraph::graph::Graph::add_node`: appends a node and returns
/// its index; with a `usize` index type it does not panic.
#[verifier::external_body]
pub fn graph_add_node(g: &mut DistGraph, dist: PinnedDist) -> (ix: usize)
    ensures
        graph_nodes(*final(g)) == graph_nodes(*old(g)).push(dist),
        graph_edges(*final(g)) == graph_edges(*old(g)),
        ix == graph_nodes(*old(g)).len(),
{
    g.add_node(dist).index()
}

/// Relies on `petgraph::graph::Graph::node_count`: the number of nodes.
#[verifier::external_body]
pub fn graph_node_count(g: &DistGraph) -> (n: usize)
    ensures
        n == graph_nodes(*g).len(),
{
    g.node_count()
}

/// Relies on `petgraph::graph::Graph::node_weight`: the weight stored at an
/// existing node index.
#[verifier::external_body]
pub fn graph_node(g: &DistGraph, ix: usize) -> (d: &PinnedDist)
    requires
        ix < graph_nodes(*g).len(),
    ensures
        *d == graph_nodes(*g)[ix as int],
{
    g.node_weight(petgraph::graph::NodeIndex::new(ix)).unwrap()
}

/// Relies on `petgraph::graph::Graph::update_edge`: with no duplicate
/// endpoint pairs present, it replaces the weight of the existing `a -> b`
/// edge in place, or else appends a new edge; it panics only on a missing
/// node index.
#[verifier::external_body]
pub fn graph_update_edge(g: &mut DistGraph, a: usize, b: usize, range: VersionRange)
    requires
        a < graph_nodes(*old(g)).len(),
        b < graph_nodes(*old(g)).len(),
        edges_unique(graph_edges(*old(g))),
    ensures
        graph_nodes(*final(g)) == graph_nodes(*old(g)),
        graph_edges(*final(g)) == spec_update_edge(graph_edges(*old(g)), a, b, range@),
{
    g.update_edge(
        petgraph::graph::NodeIndex::new(a),
        petgraph::graph::NodeIndex::new(b),
        range,
    );
}

/// Relies on `petgraph::graph::Graph::edges_directed` with the incoming
/// direction: it yields the edges targeting `ix`, most recently created
/// first; each is converted to its source's index.
#[verifier::external_body]
pub fn graph_incoming_sources(g: &DistGraph, ix: usize) -> (srcs: Vec<usize>)
    requires
        ix < graph_nodes(*g).len(),
    ensures
        srcs@ == incoming_sources_spec(graph_edges(*g), ix),
{
    g.edges_directed(petgraph::graph::NodeIndex::new(ix), petgraph::Direction::Incoming)
        .map(|e| petgraph::visit::EdgeRef::source(&e).index())
        .collect()
}

} // verus!
