// SPDX-License-Identifier: LGPL-3.0

//! The graph of what the root reaches.

use crate::depgraph::DepInfos;
use crate::graph::{
    add_edges_to, add_node, closed, graph_new, graph_view, has_edge, neighbors, node_count,
    node_weight, Vertex,
};
use crate::metadata::{fresh_metadata, Reachability, SizeMetadata};
use crate::sizes::{
    lemma_connected_sizes, lemma_prefix_set_step, lemma_size_in_agree, lemma_size_in_empty,
    lemma_size_in_insert, lemma_size_in_subset, lemma_total_size_push,
    lemma_total_size_same_weights, prefix_set, reachable_set, reachable_size, size_in, total_size,
};
use crate::traversal::{
    connected, dfs_order, dfs_sequence, is_traversal, is_walk, lemma_reaches_in_bounds,
    lemma_reaches_self, lemma_reaches_step, reachable,
};
use vstd::prelude::*;

verus! {

/// `out` holds the nodes of `order`, in that order and with the edges that
/// join them in `view`.
pub open spec fn is_restriction(view: Seq<Vertex>, order: Seq<usize>, out: Seq<Vertex>) -> bool {
    &&& out.len() == order.len()
    &&& forall|i: int|
        0 <= i < order.len() ==> (#[trigger] out[i]).weight == view[order[i] as int].weight
    &&& forall|i: int|
        0 <= i < order.len() ==> (#[trigger] out[i]).succ.len() == view[order[i] as int].succ.len()
    &&& forall|i: int, p: int|
        0 <= i < order.len() && 0 <= p < out[i].succ.len() ==> 0 <= #[trigger] out[i].succ[p]
            < order.len() && order[out[i].succ[p] as int] == view[order[i] as int].succ[p]
}

/// Creates a new graph retaining only reachable nodes
pub fn keep_reachable(di: DepInfos) -> (out: DepInfos)
    requires
        di.wf(),
    ensures
        out.wf(),
        is_restriction(di@, dfs_sequence(di@, di.root), out@),
        dfs_sequence(di@, di.root)[out.root as int] == di.root,
        total_size(out@) == reachable_size(di@, di.root as int),
        connected(out@, out.root as int),
        reachable_size(out@, out.root as int) == reachable_size(di@, di.root as int),
        out.metadata == fresh_metadata(Reachability::Connected, di.metadata),
        out.metadata_consistent(),
{
    let order = dfs_order(&di.graph, di.root);
    keep_reachable_along(di, &order)
}

/// Creates a new graph retaining only reachable nodes, given the order in
/// which a traversal from the root meets them: `order` holds each node that
/// can be reached from the root, once. The nodes of the new graph stand in
/// that order.
pub fn keep_reachable_along(di: DepInfos, order: &Vec<usize>) -> (out: DepInfos)
    requires
        di.wf(),
        is_traversal(di@, di.root as int, order@),
    ensures
        out.wf(),
        is_restriction(di@, order@, out@),
        order@[out.root as int] == di.root,
        total_size(out@) == reachable_size(di@, di.root as int),
        connected(out@, out.root as int),
        reachable_size(out@, out.root as int) == reachable_size(di@, di.root as int),
        out.metadata == fresh_metadata(Reachability::Connected, di.metadata),
        out.metadata_consistent(),
{
    let n = node_count(&di.graph);
    let ghost view = di@;
    let mut new_graph = graph_new();
    // ids of nodes put in new_graph
    let mut new_ids: Vec<usize> = vec![0; n];
    let mut i: usize = 0;
    proof {
        lemma_size_in_empty(view, prefix_set(order@, 0), n as int);
        assert forall|j: int| 0 <= j < order.len() implies #[trigger] order@[j] < n by {
            assert(order@.contains(order@[j]));
            lemma_reaches_in_bounds(view, Set::empty(), di.root as int, order@[j] as int);
        }
    }
    while i < order.len()
        invariant
            i <= order.len(),
            di.wf(),
            n == di@.len(),
            view == di@,
            order@.no_duplicates(),
            forall|j: int| 0 <= j < order.len() ==> #[trigger] order@[j] < n,
            forall|w: usize| order@.contains(w) <==> reachable(view, di.root as int, w as int),
            new_ids.len() == n,
            graph_view(&new_graph).len() == i,
            forall|j: int|
                0 <= j < i ==> #[trigger] graph_view(&new_graph)[j] == (Vertex {
                    weight: view[order@[j] as int].weight,
                    succ: Seq::empty(),
                }),
            forall|j: int| 0 <= j < i ==> new_ids[#[trigger] order@[j] as int] == j,
            total_size(graph_view(&new_graph)) == size_in(
                view,
                prefix_set(order@, i as int),
                n as int,
            ),
        decreases order.len() - i,
    {
        let idx = order[i];
        let ghost before = graph_view(&new_graph);
        proof {
            assert(order@.contains(idx));
            lemma_reaches_in_bounds(view, Set::empty(), di.root as int, idx as int);
            lemma_prefix_set_step(order@, i as int);
            lemma_size_in_insert(view, prefix_set(order@, i as int), idx as int, n as int);
        }
        let new_w = node_weight(&di.graph, idx).duplicate();
        let new_node = add_node(&mut new_graph, new_w);
        new_ids.set(idx, new_node);
        proof {
            lemma_total_size_push(
                before,
                Vertex { weight: view[idx as int].weight, succ: Seq::empty() },
            );
            assert forall|j: int| 0 <= j < i + 1 implies new_ids[#[trigger] order@[j] as int]
                == j by {
                if j < i {
                    assert(order@[j] != order@[i as int]);
                }
            }
        }
        i += 1;
    }
    proof {
        assert forall|v: int| 0 <= v < n implies prefix_set(order@, order.len() as int).contains(v)
            == reachable_set(view, di.root as int).contains(v) by {
            if reachable(view, di.root as int, v) {
                assert(order@.contains(v as usize));
                let j = choose|j: int| 0 <= j < order@.len() && order@[j] == v as usize;
                assert(order@[j] == v);
            }
            if prefix_set(order@, order.len() as int).contains(v) {
                let j = choose|j: int|
                    0 <= j < order.len() && j < order@.len() && #[trigger] order@[j] == v;
                assert(order@.contains(order@[j]));
            }
        }
        lemma_size_in_agree(
            view,
            prefix_set(order@, order.len() as int),
            reachable_set(view, di.root as int),
            n as int,
        );
        lemma_size_in_subset(view, reachable_set(view, di.root as int), Set::full(), n as int);
    }
    let ghost nodes = graph_view(&new_graph);
    // keep edges
    let mut i: usize = 0;
    while i < order.len()
        invariant
            i <= order.len(),
            di.wf(),
            n == di@.len(),
            view == di@,
            order@.no_duplicates(),
            forall|j: int| 0 <= j < order.len() ==> #[trigger] order@[j] < n,
            forall|w: usize| order@.contains(w) <==> reachable(view, di.root as int, w as int),
            new_ids.len() == n,
            forall|j: int| 0 <= j < order.len() ==> new_ids[#[trigger] order@[j] as int] == j,
            graph_view(&new_graph).len() == order.len(),
            nodes.len() == order.len(),
            forall|j: int|
                0 <= j < order.len() ==> (#[trigger] nodes[j]).weight
                    == view[order@[j] as int].weight,
            forall|j: int|
                0 <= j < order.len() ==> (#[trigger] graph_view(&new_graph)[j]).weight
                    == nodes[j].weight,
            forall|j: int|
                i <= j < order.len() ==> (#[trigger] graph_view(&new_graph)[j]).succ == Seq::<
                    usize,
                >::empty(),
            forall|j: int|
                0 <= j < i ==> (#[trigger] graph_view(&new_graph)[j]).succ.len()
                    == view[order@[j] as int].succ.len(),
            forall|j: int, p: int|
                0 <= j < i && 0 <= p < graph_view(&new_graph)[j].succ.len() ==> 0
                    <= #[trigger] graph_view(&new_graph)[j].succ[p] < order.len()
                    && order@[graph_view(&new_graph)[j].succ[p] as int]
                    == view[order@[j] as int].succ[p],
        decreases order.len() - i,
    {
        let idx = order[i];
        proof {
            assert(order@.contains(idx));
            lemma_reaches_in_bounds(view, Set::empty(), di.root as int, idx as int);
        }
        let succ = neighbors(&di.graph, idx);
        let mut targets: Vec<usize> = Vec::new();
        let mut p: usize = 0;
        while p < succ.len()
            invariant
                p <= succ.len(),
                di.wf(),
                n == di@.len(),
                view == di@,
                idx < n,
                reachable(view, di.root as int, idx as int),
                succ@ == view[idx as int].succ,
                forall|w: usize| order@.contains(w) <==> reachable(view, di.root as int, w as int),
                forall|j: int| 0 <= j < order.len() ==> #[trigger] order@[j] < n,
                new_ids.len() == n,
                forall|j: int| 0 <= j < order.len() ==> new_ids[#[trigger] order@[j] as int] == j,
                targets.len() == p,
                forall|t: int|
                    0 <= t < p ==> 0 <= #[trigger] targets[t] < order.len()
                        && order@[targets[t] as int] == succ@[t],
            decreases succ.len() - p,
        {
            let w = succ[p];
            proof {
                assert(view[idx as int].succ[p as int] < view.len());
                assert(has_edge(view, idx as int, w as int));
                lemma_reaches_step(view, Set::empty(), di.root as int, idx as int, w as int);
                assert(order@.contains(w));
                let j = choose|j: int| 0 <= j < order@.len() && order@[j] == w;
                assert(new_ids[order@[j] as int] == j);
            }
            targets.push(new_ids[w]);
            p += 1;
        }
        add_edges_to(&mut new_graph, i, &targets);
        proof {
            assert(targets@ + Seq::<usize>::empty() =~= targets@);
            assert(graph_view(&new_graph)[i as int].succ == targets@);
        }
        i += 1;
    }
    proof {
        lemma_reaches_self(view, Set::empty(), di.root as int);
        assert(order@.contains(di.root));
        let j = choose|j: int| 0 <= j < order@.len() && order@[j] == di.root;
        assert(new_ids[order@[j] as int] == j);
    }
    let root = new_ids[di.root];
    let metadata = SizeMetadata::unset(Reachability::Connected, di.metadata.dedup);
    let out = DepInfos { graph: new_graph, root, metadata };
    proof {
        lemma_total_size_same_weights(nodes, out@);
        lemma_restriction_connected(view, di.root as int, order@, out@, root as int);
        lemma_connected_sizes(out@, root as int);
    }
    out
}

/// The node of the restriction that stands for a node of a walk from the
/// root can be reached from the node that stands for the root.
pub proof fn lemma_restriction_walk(
    view: Seq<Vertex>,
    root: int,
    order: Seq<usize>,
    out: Seq<Vertex>,
    top: int,
    p: Seq<int>,
    k: int,
) -> (i: int)
    requires
        0 <= root < view.len(),
        view.len() <= usize::MAX,
        closed(view),
        is_traversal(view, root, order),
        is_restriction(view, order, out),
        0 <= top < order.len(),
        order[top] == root,
        is_walk(view, Set::empty(), p),
        p[0] == root,
        0 <= k < p.len(),
    ensures
        0 <= i < order.len(),
        order[i] == p[k],
        reachable(out, top, i),
    decreases k,
{
    if k == 0 {
        lemma_reaches_self(out, Set::empty(), top);
        top
    } else {
        let j = lemma_restriction_walk(view, root, order, out, top, p, k - 1);
        assert(has_edge(view, p[k - 1], p[k - 1 + 1]));
        let t = choose|t: int| 0 <= t < view[p[k - 1]].succ.len() && #[trigger] view[p[k - 1]].succ[t] == p[k];
        let i = out[j].succ[t] as int;
        assert(order[i] == view[order[j] as int].succ[t]);
        assert(has_edge(out, j, i));
        lemma_reaches_step(out, Set::empty(), top, j, i);
        i
    }
}

/// Every node of the restriction of a graph to what the root reaches can be
/// reached from the node that stands for the root.
pub proof fn lemma_restriction_connected(
    view: Seq<Vertex>,
    root: int,
    order: Seq<usize>,
    out: Seq<Vertex>,
    top: int,
)
    requires
        0 <= root < view.len(),
        view.len() <= usize::MAX,
        closed(view),
        is_traversal(view, root, order),
        is_restriction(view, order, out),
        0 <= top < order.len(),
        order[top] == root,
    ensures
        forall|i: int| 0 <= i < out.len() ==> reachable(out, top, i),
{
    assert forall|i: int| 0 <= i < out.len() implies reachable(out, top, i) by {
        assert(order.contains(order[i]));
        let v = order[i] as int;
        let p = choose|p: Seq<int>|
            #[trigger] is_walk(view, Set::empty(), p) && p[0] == root && p.last() == v;
        let j = lemma_restriction_walk(view, root, order, out, top, p, p.len() - 1);
        assert(order[j] == order[i]);
    }
}

} // verus!
