//! Trusted boundary around petgraph's directed `Graph`.
//!
//! The network keeps its topology in a petgraph graph whose node and edge
//! weights are plain `u64` bookkeeping indices.  The two uninterpreted
//! functions below name what the graph holds: its sequence of node weights
//! and its sequence of `(source, target, weight)` edge records, both in
//! insertion order.  Every wrapper states, over those names, what the
//! petgraph source shows for the call it makes.

use petgraph::graph::Graph;
use petgraph::graph::NodeIndex;
use vstd::prelude::*;

verus! {

#[verifier::external_type_specification]
#[verifier::external_body]
#[verifier::reject_recursive_types(N)]
#[verifier::reject_recursive_types(E)]
#[verifier::reject_recursive_types(Ty)]
#[verifier::reject_recursive_types(Ix)]
pub struct ExGraph<N, E, Ty, Ix>(Graph<N, E, Ty, Ix>);

#[verifier::external_type_specification]
#[verifier::external_body]
pub struct ExDirected(petgraph::Directed);

/// The node weights held by the graph, in insertion order.
pub uninterp spec fn graph_nodes(g: Graph<u64, u64>) -> Seq<u64>;

/// The edges held by the graph as `(source, target, weight)` records,
/// in insertion order; sources and targets are node positions.
pub uninterp spec fn graph_edges(g: Graph<u64, u64>) -> Seq<(u64, u64, u64)>;

/// Targets of the edges leaving `a`, most recently inserted first.
pub open spec fn out_targets(edges: Seq<(u64, u64, u64)>, a: u64) -> Seq<u64>
    decreases edges.len(),
{
    if edges.len() == 0 {
        Seq::empty()
    } else {
        (if edges.last().0 == a {
            seq![edges.last().1]
        } else {
            Seq::empty()
        }) + out_targets(edges.drop_last(), a)
    }
}

/// Relies on `Graph::new`: an empty directed graph.
#[verifier::external_body]
pub fn graph_new() -> (g: Graph<u64, u64>)
    ensures
        graph_nodes(g) == Seq::<u64>::empty(),
        graph_edges(g) == Seq::<(u64, u64, u64)>::empty(),
{
    Graph::new()
}

/// Relies on `Graph::add_node`: appends one node and returns its index,
/// which equals the previous node count.  Panics only at the index type's
/// capacity, which the precondition rules out.
#[verifier::external_body]
pub fn graph_add_node(g: &mut Graph<u64, u64>, w: u64) -> (ix: usize)
    requires
        graph_nodes(*old(g)).len() < 0xffff_ffff,
    ensures
        graph_nodes(*final(g)) == graph_nodes(*old(g)).push(w),
        graph_edges(*final(g)) == graph_edges(*old(g)),
        ix == graph_nodes(*old(g)).len(),
{
    g.add_node(w).index()
}

/// Relies on `Graph::add_edge`: appends one `a -> b` edge and returns its
/// index, which equals the previous edge count.  Panics if an endpoint is
/// out of bounds or at the index type's capacity, which the preconditions
/// rule out.
#[verifier::external_body]
pub fn graph_add_edge(g: &mut Graph<u64, u64>, a: usize, b: usize, w: u64) -> (ix: usize)
    requires
        a < graph_nodes(*old(g)).len(),
        b < graph_nodes(*old(g)).len(),
        graph_edges(*old(g)).len() < 0xffff_ffff,
    ensures
        graph_nodes(*final(g)) == graph_nodes(*old(g)),
        graph_edges(*final(g)) == graph_edges(*old(g)).push((a as u64, b as u64, w)),
        ix == graph_edges(*old(g)).len(),
{
    g.add_edge(NodeIndex::new(a), NodeIndex::new(b), w).index()
}

/// Relies on `Graph::node_count`: the number of nodes.
#[verifier::external_body]
pub fn graph_node_count(g: &Graph<u64, u64>) -> (n: usize)
    ensures
        n == graph_nodes(*g).len(),
{
    g.node_count()
}

/// Relies on `Graph::edge_count`: the number of edges.
#[verifier::external_body]
pub fn graph_edge_count(g: &Graph<u64, u64>) -> (n: usize)
    ensures
        n == graph_edges(*g).len(),
{
    g.edge_count()
}

/// Relies on `Graph::neighbors`: for a directed graph, the targets of the
/// edges leaving `a`, most recently inserted first; empty if `a` has no
/// outgoing edges.
#[verifier::external_body]
pub fn graph_neighbors(g: &Graph<u64, u64>, a: usize) -> (r: Vec<usize>)
    requires
        a < graph_nodes(*g).len(),
    ensures
        r@.map_values(|x: usize| x as u64) == out_targets(graph_edges(*g), a as u64),
{
    g.neighbors(NodeIndex::new(a)).map(NodeIndex::index).collect()
}

} // verus!
