//! The directed graph that holds the reply relation of a mailbox. The graph
//! is `petgraph`'s; this module says what the library relies on of it.

use vstd::prelude::*;
use petgraph::graph::{Graph, NodeIndex};
use petgraph::visit::Dfs;
use petgraph::{Directed, Direction};

verus! {

/// `petgraph::graph::Graph`, of which only what this module states is known.
#[verifier::external_type_specification]
#[verifier::external_body]
#[verifier::reject_recursive_types(N)]
#[verifier::reject_recursive_types(E)]
#[verifier::reject_recursive_types(Ty)]
#[verifier::reject_recursive_types(Ix)]
pub struct ExGraph<N, E, Ty, Ix>(Graph<N, E, Ty, Ix>);

/// `petgraph::Directed`, the marker of graphs whose edges have a direction.
#[verifier::external_type_specification]
#[verifier::external_body]
pub struct ExDirected(Directed);

/// The edges of the graph, in the order in which they were added: for each
/// the vertex it leaves and the vertex it enters.
pub uninterp spec fn graph_edges(g: Graph<(), (), Directed, u32>) -> Seq<(usize, usize)>;

/// The number of vertices of the graph. They are numbered from zero.
pub uninterp spec fn graph_order(g: Graph<(), (), Directed, u32>) -> nat;

/// The vertices that the edges leaving `v` enter, the edge added last first.
pub open spec fn successors(edges: Seq<(usize, usize)>, v: usize) -> Seq<usize>
    decreases edges.len(),
{
    if edges.len() == 0 {
        seq![]
    } else if edges.last().0 == v {
        seq![edges.last().1] + successors(edges.drop_last(), v)
    } else {
        successors(edges.drop_last(), v)
    }
}

/// The vertices that the edges entering `v` leave, the edge added last first.
pub open spec fn predecessors(edges: Seq<(usize, usize)>, v: usize) -> Seq<usize>
    decreases edges.len(),
{
    if edges.len() == 0 {
        seq![]
    } else if edges.last().1 == v {
        seq![edges.last().0] + predecessors(edges.drop_last(), v)
    } else {
        predecessors(edges.drop_last(), v)
    }
}

/// Whether an edge leads from the vertex at index `i` of `p` to the next one.
pub open spec fn joined_at(edges: Seq<(usize, usize)>, p: Seq<usize>, i: int) -> bool {
    edges.contains((p[i], p[i + 1]))
}

/// Whether `p` is a walk: a vertex, or vertices of which each is joined to the
/// next by an edge.
pub open spec fn is_walk(edges: Seq<(usize, usize)>, p: Seq<usize>) -> bool {
    p.len() >= 1 && forall|i: int| 0 <= i < p.len() - 1 ==> #[trigger] joined_at(edges, p, i)
}

/// Whether a walk leads from `a` to `b`. Every vertex reaches itself.
pub open spec fn reaches(edges: Seq<(usize, usize)>, a: usize, b: usize) -> bool {
    exists|p: Seq<usize>| is_walk(edges, p) && p[0] == a && #[trigger] p.last() == b
}

/// The graph without vertices.
///
/// Calls `Graph::new`, which makes a graph with no vertex and no edge.
#[verifier::external_body]
pub(crate) fn graph_new() -> (g: Graph<(), (), Directed, u32>)
    ensures
        graph_order(g) == 0,
        graph_edges(g) == Seq::<(usize, usize)>::empty(),
{
    Graph::new()
}

/// The number of edges of the graph.
///
/// Calls `Graph::edge_count`.
#[verifier::external_body]
pub(crate) fn edge_count(g: &Graph<(), (), Directed, u32>) -> (n: usize)
    ensures
        n == graph_edges(*g).len(),
{
    g.edge_count()
}

/// Adds a vertex and gives its number.
///
/// Calls `Graph::add_node`, which appends the vertex, gives the index it got,
/// the number of vertices before the call, and panics only where the graph is
/// at the limit of its index type: that is left out.
#[verifier::external_body]
pub(crate) fn graph_add_node(g: &mut Graph<(), (), Directed, u32>) -> (v: usize)
    requires
        graph_order(*old(g)) < u32::MAX,
    ensures
        v == graph_order(*old(g)),
        graph_order(*final(g)) == graph_order(*old(g)) + 1,
        graph_edges(*final(g)) == graph_edges(*old(g)),
{
    g.add_node(()).index()
}

/// Adds an edge from `a` to `b`.
///
/// Calls `Graph::add_edge`, which appends the edge and panics where a vertex
/// does not exist or the graph is at the limit of its index type: both are
/// left out.
#[verifier::external_body]
pub(crate) fn graph_add_edge(g: &mut Graph<(), (), Directed, u32>, a: usize, b: usize)
    requires
        a < graph_order(*old(g)),
        b < graph_order(*old(g)),
        graph_edges(*old(g)).len() < u32::MAX,
    ensures
        graph_order(*final(g)) == graph_order(*old(g)),
        graph_edges(*final(g)) == graph_edges(*old(g)).push((a, b)),
{
    g.add_edge(NodeIndex::new(a), NodeIndex::new(b), ());
}

/// The neighbours of `v` along the edges that enter it, or along those that
/// leave it.
///
/// Calls `Graph::neighbors_directed`, which for a directed graph lists the
/// neighbours in reverse order of the addition of their edges, and nothing
/// for a vertex that does not exist.
#[verifier::external_body]
pub(crate) fn graph_neighbors(g: &Graph<(), (), Directed, u32>, v: usize, incoming: bool) -> (r:
    Vec<usize>)
    requires
        v < graph_order(*g),
    ensures
        r@ == if incoming {
            predecessors(graph_edges(*g), v)
        } else {
            successors(graph_edges(*g), v)
        },
{
    let dir = if incoming {
        Direction::Incoming
    } else {
        Direction::Outgoing
    };
    g.neighbors_directed(NodeIndex::new(v), dir).map(|n| n.index()).collect()
}

/// The vertices that `start` reaches.
///
/// Runs `petgraph::visit::Dfs` from `start` to its end. It visits the
/// vertices reachable from the start, each once; the contract says no more
/// than that, and nothing on their order.
#[verifier::external_body]
pub(crate) fn graph_reach(g: &Graph<(), (), Directed, u32>, start: usize) -> (r: Vec<usize>)
    requires
        start < graph_order(*g),
    ensures
        r@.no_duplicates(),
        forall|v: usize| r@.contains(v) <==> reaches(graph_edges(*g), start, v),
{
    let mut dfs = Dfs::new(g, NodeIndex::new(start));
    let mut r = Vec::new();
    while let Some(n) = dfs.next(g) {
        r.push(n.index());
    }
    r
}

} // verus!
