// SPDX-License-Identifier: LGPL-3.0

//! Walks through a graph: what a node reaches, and the traversals that find
//! it.

use crate::graph::{graph_view, has_edge, DepGraph, Edge, Vertex};
use petgraph::graph::NodeIndex;
use petgraph::visit::Bfs;
use petgraph::visit::Dfs;
use petgraph::visit::EdgeFiltered;
use petgraph::visit::EdgeRef;
use petgraph::visit::Walker;
use vstd::prelude::*;

verus! {

/// `p` is a walk along the edges of the graph that passes through no vertex
/// of `barrier` strictly between its two ends.
pub open spec fn is_walk(view: Seq<Vertex>, barrier: Set<int>, p: Seq<int>) -> bool {
    &&& p.len() > 0
    &&& forall|i: int| 0 <= i < p.len() ==> 0 <= #[trigger] p[i] < view.len()
    &&& forall|i: int| 0 <= i < p.len() - 1 ==> has_edge(view, #[trigger] p[i], p[i + 1])
    &&& forall|i: int| 0 < i < p.len() - 1 ==> !barrier.contains(#[trigger] p[i])
}

/// Some walk leads from `a` to `b` without passing through `barrier` in
/// between. Every vertex of the graph reaches itself.
pub open spec fn reaches(view: Seq<Vertex>, barrier: Set<int>, a: int, b: int) -> bool {
    exists|p: Seq<int>| #[trigger] is_walk(view, barrier, p) && p[0] == a && p.last() == b
}

/// `b` can be reached from `a` along the edges of the graph.
pub open spec fn reachable(view: Seq<Vertex>, a: int, b: int) -> bool {
    reaches(view, Set::empty(), a, b)
}

/// Every node of the graph can be reached from the root.
pub open spec fn connected(view: Seq<Vertex>, root: int) -> bool {
    forall|v: int| 0 <= v < view.len() ==> reachable(view, root, v)
}

/// The vertices that are marked in `flags`.
pub open spec fn marked(flags: Seq<bool>) -> Set<int> {
    Set::new(|v: int| 0 <= v < flags.len() && flags[v])
}

/// `order` holds each node that can be reached from the root, once.
pub open spec fn is_traversal(view: Seq<Vertex>, root: int, order: Seq<usize>) -> bool {
    &&& order.no_duplicates()
    &&& forall|w: usize| order.contains(w) <==> reachable(view, root, w as int)
}

/// The order in which a depth-first traversal that starts at `start` emits
/// the vertices of a graph.
pub uninterp spec fn dfs_sequence(view: Seq<Vertex>, start: usize) -> Seq<usize>;

/// The order in which a breadth-first traversal that starts at `start`
/// emits the vertices of a graph.
pub uninterp spec fn bfs_sequence(view: Seq<Vertex>, start: usize) -> Seq<usize>;

/// `Dfs` emits each node that can be reached from `start`, once, and in an
/// order that only the edges and `start` decide. It panics when `start` is
/// not a node of the graph.
#[verifier::external_body]
pub(crate) fn dfs_order(g: &DepGraph, start: usize) -> (order: Vec<usize>)
    requires
        start < graph_view(g).len(),
    ensures
        order@ == dfs_sequence(graph_view(g), start),
        is_traversal(graph_view(g), start as int, order@),
{
    Dfs::new(g, NodeIndex::new(start)).iter(g).map(|n| n.index()).collect()
}

/// `Bfs` emits each node that can be reached from `start`, once, and in an
/// order that only the edges and `start` decide. It panics when `start` is
/// not a node of the graph.
#[verifier::external_body]
pub(crate) fn bfs_order(g: &DepGraph, start: usize) -> (order: Vec<usize>)
    requires
        start < graph_view(g).len(),
    ensures
        order@ == bfs_sequence(graph_view(g), start),
        is_traversal(graph_view(g), start as int, order@),
{
    Bfs::new(g, NodeIndex::new(start)).iter(g).map(|n| n.index()).collect()
}

/// Whether a traversal that started at `start` goes on along the edges that
/// leave `source`: it does so from `start` itself and from every vertex that
/// is not marked in `boundary`.
pub fn passes_through(source: usize, start: usize, boundary: &Vec<bool>) -> (res: bool)
    ensures
        res == (source == start || !marked(boundary@).contains(source as int)),
{
    source == start || !(source < boundary.len() && boundary[source])
}

/// The graph without the edges that leave a vertex marked in `flags`, but
/// for those that leave `start`.
pub open spec fn filtered(view: Seq<Vertex>, start: int, flags: Seq<bool>) -> Seq<Vertex> {
    Seq::new(
        view.len(),
        |a: int|
            if a == start || !marked(flags).contains(a) {
                view[a]
            } else {
                Vertex { weight: view[a].weight, succ: Seq::empty() }
            },
    )
}

/// `Dfs` over `EdgeFiltered` emits each node that can be reached from
/// `start` along the edges that the filter lets through, once. The filter
/// lets an edge through when it leaves `start` or a vertex that is not
/// marked in `boundary`. It panics when `start` is not a node of the graph.
#[verifier::external_body]
pub(crate) fn filtered_dfs_order(g: &DepGraph, start: usize, boundary: &Vec<bool>) -> (order: Vec<
    usize,
>)
    requires
        start < graph_view(g).len(),
    ensures
        is_traversal(filtered(graph_view(g), start as int, boundary@), start as int, order@),
{
    let filtered = EdgeFiltered::from_fn(
        g,
        |e: petgraph::graph::EdgeReference<'_, Edge, usize>|
            passes_through(e.source().index(), start, boundary),
    );
    Dfs::new(&filtered, NodeIndex::new(start)).iter(&filtered).map(|n| n.index()).collect()
}

/// The nodes that `start` reaches without passing through a vertex marked in
/// `boundary`, each once.
pub fn region_order(g: &DepGraph, start: usize, boundary: &Vec<bool>) -> (order: Vec<usize>)
    requires
        start < graph_view(g).len(),
    ensures
        order@.no_duplicates(),
        forall|v: usize|
            order@.contains(v) <==> reaches(
                graph_view(g),
                marked(boundary@),
                start as int,
                v as int,
            ),
{
    let order = filtered_dfs_order(g, start, boundary);
    proof {
        assert forall|v: usize|
            order@.contains(v) <==> reaches(
                graph_view(g),
                marked(boundary@),
                start as int,
                v as int,
            ) by {
            lemma_filtered_reaches(graph_view(g), start as int, boundary@, v as int);
        }
    }
    order
}

/// What `start` reaches along the edges that leave it or an unmarked vertex
/// is what it reaches without passing through a marked vertex.
pub proof fn lemma_filtered_reaches(view: Seq<Vertex>, start: int, flags: Seq<bool>, v: int)
    ensures
        reachable(filtered(view, start, flags), start, v) <==> reaches(
            view,
            marked(flags),
            start,
            v,
        ),
{
    let sub = filtered(view, start, flags);
    if reachable(sub, start, v) {
        let p = choose|p: Seq<int>|
            #[trigger] is_walk(sub, Set::empty(), p) && p[0] == start && p.last() == v;
        lemma_filtered_walk(view, start, flags, p, p.len() - 1);
    }
    if reaches(view, marked(flags), start, v) {
        let p = choose|p: Seq<int>|
            #[trigger] is_walk(view, marked(flags), p) && p[0] == start && p.last() == v;
        assert(is_walk(sub, Set::empty(), p)) by {
            assert forall|i: int| 0 <= i < p.len() - 1 implies has_edge(
                sub,
                #[trigger] p[i],
                p[i + 1],
            ) by {
                assert(has_edge(view, p[i], p[i + 1]));
                if i > 0 {
                    assert(!marked(flags).contains(p[i]));
                }
                assert(sub[p[i]] == view[p[i]]);
            }
        }
    }
}

/// Each node of a walk along the edges that leave `start` or an unmarked
/// vertex can be reached from `start` without passing through a marked
/// vertex.
proof fn lemma_filtered_walk(view: Seq<Vertex>, start: int, flags: Seq<bool>, p: Seq<int>, k: int)
    requires
        is_walk(filtered(view, start, flags), Set::empty(), p),
        p[0] == start,
        0 <= k < p.len(),
    ensures
        reaches(view, marked(flags), start, p[k]),
    decreases k,
{
    let sub = filtered(view, start, flags);
    assert(0 <= p[k] < sub.len());
    if k == 0 {
        lemma_reaches_self(view, marked(flags), start);
    } else {
        lemma_filtered_walk(view, start, flags, p, k - 1);
        let u = p[k - 1];
        assert(has_edge(sub, p[k - 1], p[k - 1 + 1]));
        assert(0 <= u < sub.len());
        let j = choose|j: int| 0 <= j < sub[u].succ.len() && #[trigger] sub[u].succ[j] == p[k];
        assert(u == start || !marked(flags).contains(u));
        assert(sub[u] == view[u]);
        assert(view[u].succ[j] == p[k]);
        assert(has_edge(view, u, p[k]));
        lemma_reaches_step(view, marked(flags), start, u, p[k]);
    }
}

/// A walk ends at a node of the graph.
pub proof fn lemma_reaches_in_bounds(view: Seq<Vertex>, barrier: Set<int>, a: int, b: int)
    requires
        reaches(view, barrier, a, b),
    ensures
        0 <= a < view.len(),
        0 <= b < view.len(),
{
    let p = choose|p: Seq<int>| #[trigger] is_walk(view, barrier, p) && p[0] == a && p.last() == b;
    assert(0 <= p[0] < view.len());
    assert(0 <= p[p.len() - 1] < view.len());
}

/// A node reaches itself.
pub proof fn lemma_reaches_self(view: Seq<Vertex>, barrier: Set<int>, a: int)
    requires
        0 <= a < view.len(),
    ensures
        reaches(view, barrier, a, a),
{
    let p = seq![a];
    assert(is_walk(view, barrier, p));
    assert(p[0] == a && p.last() == a);
}

/// A walk can be taken one edge further, unless it would pass through the
/// barrier.
pub proof fn lemma_reaches_step(view: Seq<Vertex>, barrier: Set<int>, a: int, b: int, c: int)
    requires
        reaches(view, barrier, a, b),
        has_edge(view, b, c),
        0 <= c < view.len(),
        b == a || !barrier.contains(b),
    ensures
        reaches(view, barrier, a, c),
{
    let p = choose|p: Seq<int>| #[trigger] is_walk(view, barrier, p) && p[0] == a && p.last() == b;
    if b == a {
        let w = seq![a, c];
        assert(is_walk(view, barrier, w)) by {
            assert forall|i: int| 0 <= i < w.len() - 1 implies has_edge(
                view,
                #[trigger] w[i],
                w[i + 1],
            ) by {}
        }
        assert(w[0] == a && w.last() == c);
    } else {
        let w = p.push(c);
        assert(is_walk(view, barrier, w)) by {
            assert forall|i: int| 0 <= i < w.len() - 1 implies has_edge(
                view,
                #[trigger] w[i],
                w[i + 1],
            ) by {
                if i < p.len() - 1 {
                    assert(has_edge(view, p[i], p[i + 1]));
                }
            }
            assert forall|i: int| 0 < i < w.len() - 1 implies !barrier.contains(#[trigger] w[i]) by {
                if i < p.len() - 1 {
                    assert(!barrier.contains(p[i]));
                } else {
                    assert(w[i] == b);
                }
            }
        }
        assert(w[0] == a && w.last() == c);
    }
}

/// Each node of a walk can be reached from the start of the walk.
pub proof fn lemma_walk_prefix(view: Seq<Vertex>, barrier: Set<int>, p: Seq<int>, k: int)
    requires
        is_walk(view, barrier, p),
        0 < k <= p.len(),
    ensures
        is_walk(view, barrier, p.take(k)),
        p.take(k)[0] == p[0],
        p.take(k).last() == p[k - 1],
{
    let w = p.take(k);
    assert forall|i: int| 0 <= i < w.len() - 1 implies has_edge(view, #[trigger] w[i], w[i + 1]) by {
        assert(has_edge(view, p[i], p[i + 1]));
    }
    assert forall|i: int| 0 < i < w.len() - 1 implies !barrier.contains(#[trigger] w[i]) by {
        assert(!barrier.contains(p[i]));
    }
}

/// Each node of a walk can be reached from its start.
pub proof fn lemma_walk_reaches(view: Seq<Vertex>, barrier: Set<int>, p: Seq<int>, k: int)
    requires
        is_walk(view, barrier, p),
        0 <= k < p.len(),
    ensures
        reaches(view, barrier, p[0], p[k]),
{
    lemma_walk_prefix(view, barrier, p, k + 1);
    let w = p.take(k + 1);
    assert(is_walk(view, barrier, w) && w[0] == p[0] && w.last() == p[k]);
}

} // verus!
