//! The edge store of the power grid: petgraph's undirected `GraphMap` over
//! entity ids, with a `u64` transfer capacity on each edge.
use petgraph::graphmap::GraphMap;
use petgraph::Undirected;
use vstd::prelude::*;

verus! {

#[verifier::external_type_specification]
#[verifier::external_body]
#[verifier::reject_recursive_types(N)]
#[verifier::reject_recursive_types(E)]
#[verifier::reject_recursive_types(Ty)]
pub struct ExGraphMap<N, E, Ty>(GraphMap<N, E, Ty>);

#[verifier::external_type_specification]
#[verifier::external_body]
pub struct ExUndirected(Undirected);

/// The undirected graph map that stores the power grid's edges.
pub type LinkGraph = GraphMap<u64, u64, Undirected>;

/// The nodes that a graph map holds.
pub uninterp spec fn graph_nodes(g: GraphMap<u64, u64, Undirected>) -> Set<u64>;

/// The edges that a graph map holds, by canonical key, with their weights.
pub uninterp spec fn graph_edges(g: GraphMap<u64, u64, Undirected>) -> Map<(u64, u64), u64>;

/// The canonical key of the undirected edge between `a` and `b`: the smaller
/// id first.
pub open spec fn edge_key(a: u64, b: u64) -> (u64, u64) {
    if a <= b {
        (a, b)
    } else {
        (b, a)
    }
}

/// Relies on GraphMap::new: an empty graph.
#[verifier::external_body]
pub(crate) fn graph_new() -> (r: LinkGraph)
    ensures
        forall|n: u64| !graph_nodes(r).contains(n),
        forall|k: (u64, u64)| !graph_edges(r).contains_key(k),
{
    GraphMap::new()
}

/// Relies on GraphMap::add_node: inserts the node, leaves the edges alone.
#[verifier::external_body]
pub(crate) fn graph_add_node(g: &mut LinkGraph, n: u64)
    ensures
        graph_nodes(*final(g)) == graph_nodes(*old(g)).insert(n),
        graph_edges(*final(g)) == graph_edges(*old(g)),
{
    g.add_node(n);
}

/// Relies on GraphMap::remove_node: removes the node and every edge that
/// touches it; reports whether the node was there.
#[verifier::external_body]
pub(crate) fn graph_remove_node(g: &mut LinkGraph, n: u64) -> (r: bool)
    ensures
        r == graph_nodes(*old(g)).contains(n),
        graph_nodes(*final(g)) == graph_nodes(*old(g)).remove(n),
        graph_edges(*final(g)) == graph_edges(*old(g)).restrict(
            graph_edges(*old(g)).dom().filter(|k: (u64, u64)| k.0 != n && k.1 != n),
        ),
{
    g.remove_node(n)
}

/// Relies on GraphMap::add_edge: stores the weight under the canonical key,
/// adds both ends as nodes, and returns the weight that was replaced.
#[verifier::external_body]
pub(crate) fn graph_add_edge(g: &mut LinkGraph, a: u64, b: u64, w: u64) -> (r: Option<u64>)
    ensures
        graph_nodes(*final(g)) == graph_nodes(*old(g)).insert(a).insert(b),
        graph_edges(*final(g)) == graph_edges(*old(g)).insert(edge_key(a, b), w),
        r == (if graph_edges(*old(g)).contains_key(edge_key(a, b)) {
            Some(graph_edges(*old(g))[edge_key(a, b)])
        } else {
            None::<u64>
        }),
{
    g.add_edge(a, b, w)
}

/// Relies on GraphMap::remove_edge: drops the canonical key and returns its
/// weight; the nodes stay.
#[verifier::external_body]
pub(crate) fn graph_remove_edge(g: &mut LinkGraph, a: u64, b: u64) -> (r: Option<u64>)
    ensures
        graph_nodes(*final(g)) == graph_nodes(*old(g)),
        graph_edges(*final(g)) == graph_edges(*old(g)).remove(edge_key(a, b)),
        r == (if graph_edges(*old(g)).contains_key(edge_key(a, b)) {
            Some(graph_edges(*old(g))[edge_key(a, b)])
        } else {
            None::<u64>
        }),
{
    g.remove_edge(a, b)
}

/// Relies on GraphMap::contains_edge: looks up the canonical key.
#[verifier::external_body]
pub(crate) fn graph_contains_edge(g: &LinkGraph, a: u64, b: u64) -> (r: bool)
    ensures
        r == graph_edges(*g).contains_key(edge_key(a, b)),
{
    g.contains_edge(a, b)
}

/// Relies on GraphMap::neighbors: each node that shares an edge with `a`,
/// once.
#[verifier::external_body]
pub(crate) fn graph_neighbors(g: &LinkGraph, a: u64) -> (r: Vec<u64>)
    ensures
        r@.no_duplicates(),
        forall|b: u64| r@.contains(b) <==> graph_edges(*g).contains_key(edge_key(a, b)),
{
    g.neighbors(a).collect()
}

/// Relies on GraphMap::nodes: each node, once.
#[verifier::external_body]
pub(crate) fn graph_node_list(g: &LinkGraph) -> (r: Vec<u64>)
    ensures
        r@.no_duplicates(),
        forall|n: u64| r@.contains(n) <==> graph_nodes(*g).contains(n),
{
    g.nodes().collect()
}

/// Relies on GraphMap::all_edges: each canonical key, once, with its weight.
#[verifier::external_body]
pub(crate) fn graph_edge_list(g: &LinkGraph) -> (r: Vec<(u64, u64, u64)>)
    ensures
        r@.no_duplicates(),
        forall|a: u64, b: u64, w: u64|
            r@.contains((a, b, w)) <==> (graph_edges(*g).contains_key((a, b))
                && graph_edges(*g)[(a, b)] == w),
{
    g.all_edges().map(|(a, b, w)| (a, b, *w)).collect()
}

} // verus!
