// SPDX-License-Identifier: LGPL-3.0

//! A dependency graph with its designated root: how it is made from what the
//! store reports, and what it weighs.

use crate::graph::{
    add_edge, add_node, clone_graph, closed, graph_new, graph_view, neighbors, node_count,
    node_weight, update_edge, with_edge, DepGraph, Vertex,
};
use crate::metadata::{DedupAwareness, Reachability, SizeMetadata, SizeTable};
use crate::node::{classify, DepNode, DescriptionView, NodeView, Path};
use crate::sizes::{
    lemma_prefix_set_grows, lemma_prefix_set_step, lemma_size_in_agree, lemma_size_in_bound,
    lemma_size_in_empty, lemma_size_in_insert, lemma_size_in_same_weights, lemma_size_in_subset,
    prefix_set, reachable_set, reachable_size, size_in, total_size,
};
use crate::traversal::{
    connected, dfs_order, dfs_sequence, lemma_reaches_in_bounds, reachable,
};
use std::borrow::Cow;
use vstd::prelude::*;
use vstd::slice::slice_to_vec;

verus! {

/// A dependency graph with its designated root and the sizes recorded of it.
#[derive(Debug)]
pub struct DepInfos {
    pub graph: DepGraph,
    pub root: usize,
    pub metadata: SizeMetadata,
}

/// Why no dependency graph could be had from the store.
#[derive(Debug, Clone, Copy, PartialEq, Eq)]
pub enum BuildError {
    /// Reading the store failed with this status.
    Ingestion(i32),
    /// A root was asked for, and the store reported no node.
    MissingRoot,
    /// The sizes of all nodes together exceed what 64 bits hold.
    SizeOverflow,
}

impl Clone for DepInfos {
    fn clone(&self) -> (res: DepInfos)
        ensures
            res@ == self@,
            res.root == self.root,
            res.metadata == self.metadata,
    {
        DepInfos { graph: clone_graph(&self.graph), root: self.root, metadata: self.metadata }
    }
}

impl DepInfos {
    /// The graph as a mathematical value: its vertices by index.
    pub open spec fn view(&self) -> Seq<Vertex> {
        graph_view(&self.graph)
    }

    /// The root is a node of the graph, every edge joins nodes of the graph,
    /// and the sizes of all nodes together fit 64 bits.
    pub open spec fn wf(&self) -> bool {
        &&& self.root < self@.len()
        &&& closed(self@)
        &&& total_size(self@) <= u64::MAX
    }

    /// All nodes are reachable where the metadata says so, and the size
    /// recorded for the way the graph is read is that of all nodes.
    pub open spec fn metadata_consistent(&self) -> bool {
        &&& self.metadata.reachable == Reachability::Connected ==> connected(
            self@,
            self.root as int,
        )
        &&& self.metadata.size.cell(self.metadata.dedup, self.metadata.reachable) matches Some(s)
            ==> s == total_size(self@)
    }

    /// returns the sum of the size of all the derivations reachable from the root
    pub fn reachable_size(&self) -> (res: u64)
        requires
            self.wf(),
        ensures
            res == reachable_size(self@, self.root as int),
    {
        let order = dfs_order(&self.graph, self.root);
        let n = node_count(&self.graph);
        let ghost view = self@;
        let mut sum: u64 = 0;
        let mut i: usize = 0;
        proof {
            lemma_size_in_empty(view, prefix_set(order@, 0), n as int);
        }
        while i < order.len()
            invariant
                i <= order.len(),
                view == self@,
                n == view.len(),
                total_size(view) <= u64::MAX,
                order@.no_duplicates(),
                forall|v: usize|
                    order@.contains(v) <==> reachable(view, self.root as int, v as int),
                sum == size_in(view, prefix_set(order@, i as int), n as int),
            decreases order.len() - i,
        {
            let v = order[i];
            assert(order@.contains(v));
            assert(reachable(view, self.root as int, v as int));
            let w = node_weight(&self.graph, v);
            proof {
                lemma_prefix_set_step(order@, i as int);
                lemma_size_in_insert(view, prefix_set(order@, i as int), v as int, n as int);
                lemma_size_in_subset(
                    view,
                    prefix_set(order@, i as int + 1),
                    Set::full(),
                    n as int,
                );
            }
            sum = sum + w.size;
            i += 1;
        }
        proof {
            assert forall|v: int| 0 <= v < n implies prefix_set(order@, order.len() as int).contains(
                v,
            ) == reachable_set(view, self.root as int).contains(v) by {
                if reachable(view, self.root as int, v) {
                    assert(order@.contains(v as usize));
                    let j = choose|j: int| 0 <= j < order@.len() && order@[j] == v as usize;
                    assert(order@[j] == v);
                }
                if prefix_set(order@, order.len() as int).contains(v) {
                    let j = choose|j: int|
                        0 <= j < order.len() && j < order@.len() && #[trigger] order@[j] == v;
                    assert(order@.contains(order@[j]));
                }
            }
            lemma_size_in_agree(
                view,
                prefix_set(order@, order.len() as int),
                reachable_set(view, self.root as int),
                n as int,
            );
        }
        sum
    }

    /// returns the sum of the size of all the derivations
    pub fn size(&self) -> (res: u64)
        requires
            self.wf(),
        ensures
            res == total_size(self@),
    {
        let n = node_count(&self.graph);
        let ghost view = self@;
        let mut sum: u64 = 0;
        let mut i: usize = 0;
        while i < n
            invariant
                i <= n,
                n == view.len(),
                view == self@,
                total_size(view) <= u64::MAX,
                sum == size_in(view, Set::full(), i as int),
            decreases n - i,
        {
            let w = node_weight(&self.graph, i);
            proof {
                lemma_size_in_bound(view, Set::full(), i as int + 1, n as int);
            }
            sum = sum + w.size;
            i += 1;
        }
        sum
    }

    /// records the current size of the graph in its metadata field.
    pub fn record_metadata(&mut self)
        requires
            old(self).wf(),
        ensures
            final(self)@ == old(self)@,
            final(self).root == old(self).root,
            final(self).metadata == old(self).metadata.recorded(
                reachable_size(old(self)@, old(self).root as int) as u64,
                total_size(old(self)@) as u64,
            ),
            final(self).wf(),
    {
        let dedup = self.metadata.dedup;
        if self.metadata.size.get(dedup, Reachability::Connected).is_none() {
            let size = self.reachable_size();
            self.metadata.size.set(dedup, Reachability::Connected, Some(size));
        }
        if self.metadata.reachable == Reachability::Disconnected && self.metadata.size.get(
            dedup,
            Reachability::Disconnected,
        ).is_none() {
            let size = self.size();
            self.metadata.size.set(dedup, Reachability::Disconnected, Some(size));
        }
    }

    /// Makes the dependency graph from what the store reader left: the graph
    /// it filled and the status it ended with. A status other than zero is an
    /// error. Where a root was asked for, the reader has put it first, and all
    /// nodes count as reachable. Else a dummy root is added, with an edge to
    /// every node whose kind is that of a root. The sizes are recorded in the
    /// metadata.
    pub fn read_from_store(graph: DepGraph, status: i32, explicit_root: bool) -> (res: Result<
        DepInfos,
        BuildError,
    >)
        requires
            closed(graph_view(&graph)),
        ensures
            match res {
                Err(BuildError::Ingestion(code)) => status != 0 && code == status,
                Err(BuildError::MissingRoot) => status == 0 && explicit_root && graph_view(
                    &graph,
                ).len() == 0,
                Err(BuildError::SizeOverflow) => status == 0 && !(explicit_root && graph_view(
                    &graph,
                ).len() == 0) && total_size(graph_view(&graph)) > u64::MAX,
                Ok(di) => {
                    &&& status == 0
                    &&& total_size(graph_view(&graph)) <= u64::MAX
                    &&& di.wf()
                    &&& explicit_root ==> {
                        &&& graph_view(&graph).len() > 0
                        &&& di@ == graph_view(&graph)
                        &&& di.root == 0
                        &&& di.metadata == (SizeMetadata {
                            reachable: Reachability::Connected,
                            dedup: DedupAwareness::Unaware,
                            size: SizeTable::spec_empty(),
                        }).recorded(
                            reachable_size(di@, 0) as u64,
                            total_size(di@) as u64,
                        )
                    }
                    &&& !explicit_root ==> {
                        &&& di@ == with_dummy_root(graph_view(&graph))
                        &&& di.root == graph_view(&graph).len()
                        &&& di.metadata == (SizeMetadata {
                            reachable: Reachability::Disconnected,
                            dedup: DedupAwareness::Unaware,
                            size: SizeTable::spec_empty(),
                        }).recorded(
                            reachable_size(di@, di.root as int) as u64,
                            total_size(di@) as u64,
                        )
                    }
                },
            },
    {
        if status != 0 {
            return Err(BuildError::Ingestion(status));
        }
        let n = node_count(&graph);
        if explicit_root && n == 0 {
            return Err(BuildError::MissingRoot);
        }
        if checked_total(&graph).is_none() {
            return Err(BuildError::SizeOverflow);
        }
        let ghost view = graph_view(&graph);
        let mut graph = graph;
        let root = if explicit_root {
            0
        } else {
            add_node(&mut graph, DepNode::dummy())
        };
        let reachable = if explicit_root {
            Reachability::Connected
        } else {
            Reachability::Disconnected
        };
        if !explicit_root {
            let ghost dummy = NodeView { description: DescriptionView::Dummy, size: 0 };
            let mut idx: usize = 0;
            while idx < n
                invariant
                    idx <= n,
                    n == view.len(),
                    root == n,
                    graph_view(&graph) == view.push(
                        Vertex { weight: dummy, succ: gc_roots_below(view, idx as int) },
                    ),
                decreases n - idx,
            {
                if node_weight(&graph, idx).kind().is_gc_root() {
                    add_edge(&mut graph, root, idx);
                    assert(graph_view(&graph) =~= view.push(
                        Vertex { weight: dummy, succ: gc_roots_below(view, idx as int + 1) },
                    ));
                }
                idx += 1;
            }
            proof {
                lemma_gc_roots_in_bounds(view, n as int);
                lemma_size_in_same_weights(view, graph_view(&graph), Set::full(), n as int);
                assert(closed(graph_view(&graph))) by {
                    let out = graph_view(&graph);
                    assert forall|a: int, j: int|
                        0 <= a < out.len() && 0 <= j < out[a].succ.len() implies #[trigger] out[a].succ[j]
                        < out.len() by {
                        if a < n {
                            assert(out[a] == view[a]);
                            assert(view[a].succ[j] < view.len());
                        }
                    }
                }
            }
        }
        let metadata = SizeMetadata { reachable, dedup: DedupAwareness::Unaware, size: SizeTable::empty() };
        let mut di = DepInfos { graph, root, metadata };
        di.record_metadata();
        Ok(di)
    }

    /// The nodes that a depth-first traversal from the root visits, in the
    /// order of their visit: each node that can be reached from the root,
    /// once.
    pub fn dfs(&self) -> (order: Vec<usize>)
        requires
            self.wf(),
        ensures
            order@ == dfs_sequence(self@, self.root),
            order@.no_duplicates(),
            forall|v: usize| order@.contains(v) <==> reachable(self@, self.root as int, v as int),
    {
        dfs_order(&self.graph, self.root)
    }

    /// Returns the roots: the children of the designated root.
    pub fn roots(&self) -> (res: Vec<usize>)
        requires
            self.wf(),
        ensures
            res@ == self@[self.root as int].succ,
    {
        neighbors(&self.graph, self.root)
    }

    /// returns the names of the roots, in the order of `roots`
    pub fn roots_name(&self) -> (res: Vec<Vec<u8>>)
        requires
            self.wf(),
        ensures
            res.len() == self@[self.root as int].succ.len(),
            forall|i: int|
                0 <= i < res.len() ==> (#[trigger] res[i])@ == self@[self@[self.root as int].succ[i] as int].weight.description.name(),
    {
        let roots = self.roots();
        let mut names: Vec<Vec<u8>> = Vec::new();
        let mut i: usize = 0;
        while i < roots.len()
            invariant
                i <= roots.len(),
                self.wf(),
                roots@ == self@[self.root as int].succ,
                names.len() == i,
                forall|j: int|
                    0 <= j < i ==> (#[trigger] names[j])@
                        == self@[roots@[j] as int].weight.description.name(),
            decreases roots.len() - i,
        {
            assert(self@[self.root as int].succ[i as int] < self@.len());
            let name = match node_weight(&self.graph, roots[i]).name() {
                Cow::Borrowed(bytes) => slice_to_vec(bytes),
                Cow::Owned(bytes) => bytes,
            };
            names.push(name);
            i += 1;
        }
        names
    }

    /// checks metadata is consistent
    pub fn check_metadata(&self) -> (res: bool)
        requires
            self.wf(),
        ensures
            res == self.metadata_consistent(),
    {
        let n = node_count(&self.graph);
        let mut all_seen = true;
        if self.metadata.reachable == Reachability::Connected {
            let order = self.dfs();
            let mut seen: Vec<bool> = vec![false; n];
            let mut i: usize = 0;
            while i < order.len()
                invariant
                    i <= order.len(),
                    n == self@.len(),
                    seen.len() == n,
                    forall|v: usize|
                        order@.contains(v) <==> reachable(self@, self.root as int, v as int),
                    forall|v: int|
                        0 <= v < n ==> #[trigger] seen[v] == prefix_set(order@, i as int).contains(v),
                decreases order.len() - i,
            {
                let v = order[i];
                proof {
                    assert(order@.contains(v));
                    lemma_reaches_in_bounds(self@, Set::empty(), self.root as int, v as int);
                    lemma_prefix_set_grows(order@, i as int);
                }
                seen.set(v, true);
                i += 1;
            }
            let mut v: usize = 0;
            while v < n
                invariant
                    v <= n,
                    seen.len() == n,
                    all_seen == (forall|u: int| 0 <= u < v ==> #[trigger] seen[u]),
                decreases n - v,
            {
                if !seen[v] {
                    all_seen = false;
                }
                v += 1;
            }
            proof {
                assert forall|u: int| 0 <= u < n implies #[trigger] seen[u] == reachable(
                    self@,
                    self.root as int,
                    u,
                ) by {
                    if reachable(self@, self.root as int, u) {
                        assert(order@.contains(u as usize));
                        let j = choose|j: int| 0 <= j < order@.len() && order@[j] == u as usize;
                        assert(order@[j] == u);
                    }
                    if prefix_set(order@, order.len() as int).contains(u) {
                        let j = choose|j: int|
                            0 <= j < order.len() && j < order@.len() && #[trigger] order@[j] == u;
                        assert(order@.contains(order@[j]));
                    }
                }
                if all_seen {
                    assert forall|u: int| 0 <= u < n implies reachable(self@, self.root as int, u) by {
                        assert(seen[u]);
                    }
                } else {
                    let u = choose|u: int| 0 <= u < n && !#[trigger] seen[u];
                    assert(!reachable(self@, self.root as int, u));
                }
            }
        }
        let recorded = match self.metadata.size.get(self.metadata.dedup, self.metadata.reachable) {
            Some(s) => s == self.size(),
            None => true,
        };
        all_seen && recorded
    }

    /// Tests whether the graph is well formed.
    pub fn is_well_formed(&self) -> (res: bool)
        ensures
            res == self.wf(),
    {
        let n = node_count(&self.graph);
        if self.root >= n {
            return false;
        }
        let mut a: usize = 0;
        while a < n
            invariant
                a <= n,
                n == self@.len(),
                forall|b: int, j: int|
                    0 <= b < a && 0 <= j < self@[b].succ.len() ==> #[trigger] self@[b].succ[j] < n,
            decreases n - a,
        {
            let succ = neighbors(&self.graph, a);
            let mut j: usize = 0;
            while j < succ.len()
                invariant
                    j <= succ.len(),
                    a < n,
                    n == self@.len(),
                    succ@ == self@[a as int].succ,
                    forall|i: int| 0 <= i < j ==> #[trigger] succ@[i] < n,
                decreases succ.len() - j,
            {
                if succ[j] >= n {
                    assert(!(self@[a as int].succ[j as int] < self@.len()));
                    return false;
                }
                j += 1;
            }
            a += 1;
        }
        checked_total(&self.graph).is_some()
    }
}

/// The nodes below `k` whose kind is that of a root, the highest first.
pub open spec fn gc_roots_below(view: Seq<Vertex>, k: int) -> Seq<usize>
    decreases k,
{
    if k <= 0 {
        Seq::empty()
    } else if view[k - 1].weight.description.kind().spec_is_gc_root() {
        seq![(k - 1) as usize] + gc_roots_below(view, k - 1)
    } else {
        gc_roots_below(view, k - 1)
    }
}

/// The graph with one more node, a dummy without size, from which an edge
/// leads to every node whose kind is that of a root.
pub open spec fn with_dummy_root(view: Seq<Vertex>) -> Seq<Vertex> {
    view.push(
        Vertex {
            weight: NodeView { description: DescriptionView::Dummy, size: 0 },
            succ: gc_roots_below(view, view.len() as int),
        },
    )
}

/// The roots listed below `k` are nodes below `k`.
pub proof fn lemma_gc_roots_in_bounds(view: Seq<Vertex>, k: int)
    requires
        k <= usize::MAX,
    ensures
        forall|j: int|
            0 <= j < gc_roots_below(view, k).len() ==> 0 <= #[trigger] gc_roots_below(view, k)[j]
                < k,
    decreases k,
{
    if k > 0 {
        lemma_gc_roots_in_bounds(view, k - 1);
        let rest = gc_roots_below(view, k - 1);
        assert forall|j: int| 0 <= j < gc_roots_below(view, k).len() implies 0
            <= #[trigger] gc_roots_below(view, k)[j] < k by {
            if view[k - 1].weight.description.kind().spec_is_gc_root() {
                if j > 0 {
                    assert(gc_roots_below(view, k)[j] == rest[j - 1]);
                }
            } else {
                assert(gc_roots_below(view, k)[j] == rest[j]);
            }
        }
    }
}

/// The sizes of all nodes together, or `None` where they exceed 64 bits.
pub fn checked_total(graph: &DepGraph) -> (res: Option<u64>)
    ensures
        match res {
            Some(t) => t == total_size(graph_view(graph)),
            None => total_size(graph_view(graph)) > u64::MAX,
        },
{
    let n = node_count(graph);
    let ghost view = graph_view(graph);
    let mut sum: u64 = 0;
    let mut i: usize = 0;
    while i < n
        invariant
            i <= n,
            n == view.len(),
            view == graph_view(graph),
            sum == size_in(view, Set::full(), i as int),
        decreases n - i,
    {
        let w = node_weight(graph, i);
        match sum.checked_add(w.size) {
            Some(s) => {
                sum = s;
            },
            None => {
                proof {
                    lemma_size_in_bound(view, Set::full(), i as int + 1, n as int);
                }
                return None;
            },
        }
        i += 1;
    }
    Some(sum)
}

/// A graph without nodes, for the store reader to fill.
pub fn new_graph() -> (g: DepGraph)
    ensures
        graph_view(&g).len() == 0,
        closed(graph_view(&g)),
{
    graph_new()
}

/// Adds to the graph the node for an object that the store reports, and
/// returns its index. Where the path of the object has none of the known
/// shapes, the graph is left as it is and the path is handed back.
pub fn register_node(g: &mut DepGraph, path: Path, is_root: bool, size: u64) -> (res: Result<
    usize,
    Path,
>)
    requires
        closed(graph_view(old(g))),
    ensures
        closed(graph_view(final(g))),
        match res {
            Ok(idx) => {
                &&& classify(path@, is_root) is Some
                &&& idx == graph_view(old(g)).len()
                &&& graph_view(final(g)) == graph_view(old(g)).push(
                    Vertex {
                        weight: NodeView {
                            description: classify(path@, is_root).unwrap(),
                            size,
                        },
                        succ: Seq::empty(),
                    },
                )
            },
            Err(p) => {
                &&& classify(path@, is_root) is None
                &&& p@ == path@
                &&& graph_view(final(g)) == graph_view(old(g))
            },
        },
{
    let ghost before = graph_view(g);
    match DepNode::new(path, is_root, size) {
        Ok(node) => {
            let idx = add_node(g, node);
            proof {
                let after = graph_view(g);
                assert forall|a: int, j: int|
                    0 <= a < after.len() && 0 <= j < after[a].succ.len() implies #[trigger] after[a].succ[j]
                    < after.len() by {
                    if a < before.len() {
                        assert(before[a].succ[j] < before.len());
                    }
                }
            }
            Ok(idx)
        },
        Err(p) => Err(p),
    }
}

/// Adds to the graph an edge that the store reports, unless the graph has
/// that edge already. Nothing is added where the two ends are one node, or
/// where one of them is no node of the graph; the result says whether the
/// edge is one that the graph can have.
pub fn register_edge(g: &mut DepGraph, from: usize, to: usize) -> (accepted: bool)
    requires
        closed(graph_view(old(g))),
    ensures
        closed(graph_view(final(g))),
        accepted == (from != to && from < graph_view(old(g)).len() && to < graph_view(
            old(g),
        ).len()),
        graph_view(final(g)) == if accepted && !graph_view(old(g))[from as int].succ.contains(to) {
            with_edge(graph_view(old(g)), from as int, to)
        } else {
            graph_view(old(g))
        },
{
    if from == to {
        return false;
    }
    let n = node_count(g);
    if from >= n || to >= n {
        return false;
    }
    let ghost before = graph_view(g);
    update_edge(g, from, to);
    proof {
        let after = graph_view(g);
        assert forall|a: int, j: int|
            0 <= a < after.len() && 0 <= j < after[a].succ.len() implies #[trigger] after[a].succ[j]
            < after.len() by {
            if a == from && !before[from as int].succ.contains(to) {
                if j > 0 {
                    assert(after[a].succ[j] == before[a].succ[j - 1]);
                }
            } else {
                assert(before[a].succ[j] < before.len());
            }
        }
    }
    true
}

} // verus!
