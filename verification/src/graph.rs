// SPDX-License-Identifier: LGPL-3.0

//! The dependency graph: an adjacency list of nodes, held by `petgraph`.

use crate::node::{DepNode, NodeView};
use petgraph::graph::NodeIndex;
use vstd::prelude::*;

verus! {

/// `petgraph::graph::Graph`, an adjacency-list graph whose nodes are numbered
/// from zero in the order of their insertion.
#[verifier::external_type_specification]
#[verifier::external_body]
#[verifier::reject_recursive_types(N)]
#[verifier::reject_recursive_types(E)]
#[verifier::reject_recursive_types(Ty)]
#[verifier::reject_recursive_types(Ix)]
pub struct ExGraph<N, E, Ty, Ix>(petgraph::graph::Graph<N, E, Ty, Ix>);

/// `petgraph::Directed`, the marker of graphs whose edges have a direction.
#[verifier::external_type_specification]
#[verifier::external_body]
pub struct ExDirected(petgraph::Directed);

/// No data is attached to an edge: it only says that its source keeps its
/// target alive.
pub type Edge = ();

/// Nodes and edges are indexed by `usize`, so that no insertion can exhaust
/// the index type.
pub type DepGraph = petgraph::graph::Graph<DepNode, Edge, petgraph::Directed, usize>;

/// One vertex of a graph: its weight and the vertices that its outgoing edges
/// lead to, the most recently added edge first.
pub struct Vertex {
    pub weight: NodeView,
    pub succ: Seq<usize>,
}

/// What a graph holds: its vertices by index.
pub uninterp spec fn graph_view(g: &DepGraph) -> Seq<Vertex>;

/// There is an edge from `a` to `b`.
pub open spec fn has_edge(view: Seq<Vertex>, a: int, b: int) -> bool {
    0 <= a < view.len() && exists|j: int| 0 <= j < view[a].succ.len() && #[trigger] view[a].succ[j] == b
}

/// Every edge leads to a vertex of the graph.
pub open spec fn closed(view: Seq<Vertex>) -> bool {
    forall|a: int, j: int|
        0 <= a < view.len() && 0 <= j < view[a].succ.len() ==> #[trigger] view[a].succ[j]
            < view.len()
}

/// The graph after a new edge from `a` to `b`: `b` comes first among the
/// successors of `a`.
pub open spec fn with_edge(view: Seq<Vertex>, a: int, b: usize) -> Seq<Vertex> {
    view.update(a, Vertex { weight: view[a].weight, succ: seq![b] + view[a].succ })
}

/// `Graph::with_capacity(0, 0)` makes a graph without nodes.
#[verifier::external_body]
pub(crate) fn graph_new() -> (g: DepGraph)
    ensures
        graph_view(&g) == Seq::<Vertex>::empty(),
{
    DepGraph::with_capacity(0, 0)
}

/// `Graph::clone` makes a graph with the same nodes and edges.
#[verifier::external_body]
pub(crate) fn clone_graph(g: &DepGraph) -> (res: DepGraph)
    ensures
        graph_view(&res) == graph_view(g),
{
    g.clone()
}

/// `Graph::node_count` gives the number of nodes.
#[verifier::external_body]
pub(crate) fn node_count(g: &DepGraph) -> (n: usize)
    ensures
        n == graph_view(g).len(),
{
    g.node_count()
}

/// `Graph::add_node` appends a node without edges and returns its index.
/// With `usize` indices it never refuses a node.
#[verifier::external_body]
pub(crate) fn add_node(g: &mut DepGraph, weight: DepNode) -> (idx: usize)
    ensures
        idx == graph_view(old(g)).len(),
        graph_view(final(g)) == graph_view(old(g)).push(
            Vertex { weight: weight@, succ: Seq::empty() },
        ),
{
    g.add_node(weight).index()
}

/// `Graph::add_edge` puts a new edge at the head of the outgoing edges of
/// `a`, whether or not the two nodes are joined already. It panics when one
/// of the nodes does not exist.
#[verifier::external_body]
pub(crate) fn add_edge(g: &mut DepGraph, a: usize, b: usize)
    requires
        a < graph_view(old(g)).len(),
        b < graph_view(old(g)).len(),
    ensures
        graph_view(final(g)) == with_edge(graph_view(old(g)), a as int, b),
{
    g.add_edge(NodeIndex::new(a), NodeIndex::new(b), ());
}

/// `Graph::update_edge` adds an edge from `a` to `b` unless there is one,
/// in which case the graph is left as it is (an edge carries no data that
/// could change). It panics when one of the nodes does not exist.
#[verifier::external_body]
pub(crate) fn update_edge(g: &mut DepGraph, a: usize, b: usize)
    requires
        a < graph_view(old(g)).len(),
        b < graph_view(old(g)).len(),
    ensures
        graph_view(final(g)) == if graph_view(old(g))[a as int].succ.contains(b) {
            graph_view(old(g))
        } else {
            with_edge(graph_view(old(g)), a as int, b)
        },
{
    g.update_edge(NodeIndex::new(a), NodeIndex::new(b), ());
}

/// Indexing a `Graph` by a node index gives the weight of that node. It
/// panics when the node does not exist.
#[verifier::external_body]
pub(crate) fn node_weight(g: &DepGraph, a: usize) -> (w: &DepNode)
    requires
        a < graph_view(g).len(),
    ensures
        w@ == graph_view(g)[a as int].weight,
{
    &g[NodeIndex::new(a)]
}

/// `Graph::neighbors` walks the targets of the outgoing edges of `a`, the
/// most recently added edge first.
#[verifier::external_body]
pub(crate) fn neighbors(g: &DepGraph, a: usize) -> (res: Vec<usize>)
    requires
        a < graph_view(g).len(),
    ensures
        res@ == graph_view(g)[a as int].succ,
{
    g.neighbors(NodeIndex::new(a)).map(|n| n.index()).collect()
}

/// Adds to `graph` the edges from `from` to the nodes of `targets`, so that
/// they come to stand before the edges that already leave `from`, in the
/// order of `targets`.
pub(crate) fn add_edges_to(graph: &mut DepGraph, from: usize, targets: &Vec<usize>)
    requires
        from < graph_view(old(graph)).len(),
        forall|p: int| 0 <= p < targets.len() ==> #[trigger] targets[p] < graph_view(old(graph)).len(),
    ensures
        graph_view(final(graph)) == graph_view(old(graph)).update(
            from as int,
            Vertex {
                weight: graph_view(old(graph))[from as int].weight,
                succ: targets@ + graph_view(old(graph))[from as int].succ,
            },
        ),
{
    let ghost start = graph_view(graph);
    let mut p: usize = targets.len();
    assert(start =~= start.update(
        from as int,
        Vertex {
            weight: start[from as int].weight,
            succ: targets@.skip(p as int) + start[from as int].succ,
        },
    ));
    while p > 0
        invariant
            p <= targets.len(),
            from < start.len(),
            forall|i: int| 0 <= i < targets.len() ==> #[trigger] targets[i] < start.len(),
            graph_view(graph) == start.update(
                from as int,
                Vertex {
                    weight: start[from as int].weight,
                    succ: targets@.skip(p as int) + start[from as int].succ,
                },
            ),
        decreases p,
    {
        p -= 1;
        add_edge(graph, from, targets[p]);
        assert(seq![targets@[p as int]] + (targets@.skip(p as int + 1) + start[from as int].succ)
            =~= targets@.skip(p as int) + start[from as int].succ);
        assert(graph_view(graph) =~= start.update(
            from as int,
            Vertex {
                weight: start[from as int].weight,
                succ: targets@.skip(p as int) + start[from as int].succ,
            },
        ));
    }
    assert(targets@.skip(0) =~= targets@);
}

} // verus!
