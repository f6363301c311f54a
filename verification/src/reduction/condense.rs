// SPDX-License-Identifier: LGPL-3.0

//! The quotient of a graph by "the same roots depend on it".

use crate::bitset::{bitset_view, same_bits};
use crate::depgraph::DepInfos;
use crate::graph::{
    add_node, closed, graph_new, graph_view, has_edge, neighbors, node_count, node_weight,
    update_edge, DepGraph, Vertex,
};
use crate::metadata::{fresh_metadata, Reachability, SizeMetadata};
use crate::node::{DepNode, NodeView};
use crate::reduction::condense_laws::lemma_quotient_connected;
use crate::sizes::{
    lemma_connected_sizes, lemma_prefix_set_step, lemma_size_in_agree, lemma_size_in_empty,
    lemma_size_in_insert, lemma_size_in_subset, lemma_total_size_push,
    lemma_total_size_same_weights, lemma_union_step, prefix_set, reachable_set, reachable_size,
    size_in, total_size, union_below,
};
use crate::traversal::{
    bfs_order, bfs_sequence, connected, is_traversal, lemma_reaches_in_bounds, lemma_reaches_self,
    reachable,
};
use fixedbitset::FixedBitSet;
use vstd::prelude::*;

verus! {

/// What the quotient works on: a graph, its root, and the order in which a
/// breadth-first traversal from the root meets the nodes.
pub struct Quotient {
    pub view: Seq<Vertex>,
    pub root: int,
    pub order: Seq<usize>,
}

impl Quotient {
    /// The number of nodes of the graph.
    pub open spec fn n(self) -> int {
        self.view.len() as int
    }

    /// The children of the root from which `v` can be reached: the roots
    /// that depend on `v`.
    pub open spec fn label(self, v: int) -> Set<int> {
        Set::new(|r: int| has_edge(self.view, self.root, r) && reachable(self.view, r, v))
    }

    /// The node is met by the traversal and is not the root.
    pub open spec fn member(self, v: int) -> bool {
        v != self.root && exists|i: int| 0 <= i < self.order.len() && #[trigger] self.order[i] == v
    }

    /// The node met at position `i` is the first of its label.
    pub open spec fn is_rep(self, i: int) -> bool {
        &&& 0 <= i < self.order.len()
        &&& self.order[i] != self.root
        &&& forall|j: int|
            0 <= j < i && #[trigger] self.order[j] != self.root ==> self.label(self.order[j] as int)
                != self.label(self.order[i] as int)
    }

    /// The representatives among the first `i` nodes met, in that order.
    pub open spec fn reps_below(self, i: int) -> Seq<usize>
        decreases i,
    {
        if i <= 0 {
            Seq::empty()
        } else if self.is_rep(i - 1) {
            self.reps_below(i - 1).push(self.order[i - 1])
        } else {
            self.reps_below(i - 1)
        }
    }

    /// The representatives of all classes, in the order in which they are
    /// met.
    pub open spec fn reps(self) -> Seq<usize> {
        self.reps_below(self.order.len() as int)
    }

    /// The nodes of the label of `rep`.
    pub open spec fn class_set(self, rep: int) -> Set<int> {
        Set::new(|v: int| self.member(v) && self.label(v) == self.label(rep))
    }

    /// The size of a class.
    pub open spec fn class_size(self, rep: int) -> int {
        size_in(self.view, self.class_set(rep), self.n())
    }

    /// The node `v` of the input is merged into the node `z` of the output:
    /// the root into the first, another node into the one after as many
    /// nodes as its class has classes before it.
    pub open spec fn cls(self, v: int, z: int) -> bool {
        ||| v == self.root && z == 0
        ||| self.member(v) && 1 <= z <= self.reps().len() && self.label(self.reps()[z - 1] as int)
            == self.label(v)
    }

    /// The output has an edge from its node `c1` to its node `c2`: they are
    /// two nodes, and some node merged into the first has an edge to some
    /// node merged into the second.
    pub open spec fn out_edge(self, c1: int, c2: int) -> bool {
        c1 != c2 && exists|u: int, v: int|
            #[trigger] has_edge(self.view, u, v) && self.cls(u, c1) && self.cls(v, c2)
    }

    /// `out` is the quotient graph: first the root as it was, then a node for
    /// each class, with the description of its representative and the size
    /// of the whole class; and the edges that `out_edge` gives, each once.
    pub open spec fn is_output(self, out: Seq<Vertex>, out_root: int) -> bool {
        &&& out.len() == self.reps().len() + 1
        &&& out_root == 0
        &&& out[0].weight == self.view[self.root].weight
        &&& forall|c: int|
            0 <= c < self.reps().len() ==> (#[trigger] out[c + 1]).weight == (NodeView {
                description: self.view[self.reps()[c] as int].weight.description,
                size: self.class_size(self.reps()[c] as int) as u64,
            })
        &&& forall|c1: int, c2: usize|
            0 <= c1 < out.len() ==> (#[trigger] out[c1].succ.contains(c2) <==> self.out_edge(
                c1,
                c2 as int,
            ))
        &&& forall|c: int| 0 <= c < out.len() ==> (#[trigger] out[c]).succ.no_duplicates()
    }

    /// One of `reps` has the label of `v`.
    pub open spec fn has_rep(self, reps: Seq<usize>, v: int) -> bool {
        exists|c: int|
            0 <= c < reps.len() && self.label(#[trigger] reps[c] as int) == self.label(v)
    }

    /// The nodes of the label of `rep` among the first `i` met.
    pub open spec fn class_prefix(self, rep: int, i: int) -> Set<int> {
        Set::new(
            |v: int|
                v != self.root && prefix_set(self.order, i).contains(v) && self.label(v)
                    == self.label(rep),
        )
    }

    /// The classes by their index: the nodes merged into each.
    pub open spec fn classes(self, reps: Seq<usize>) -> spec_fn(int) -> Set<int> {
        |c: int|
            if 0 <= c < reps.len() {
                self.class_set(reps[c] as int)
            } else {
                Set::empty()
            }
    }

    /// The node of the output that stands for the class of `rep`, before it
    /// has edges.
    pub open spec fn class_vertex(self, rep: int) -> Vertex {
        Vertex {
            weight: NodeView {
                description: self.view[rep].weight.description,
                size: self.class_size(rep) as u64,
            },
            succ: Seq::empty(),
        }
    }

    /// The root as it stands in the output, before it has edges.
    pub open spec fn root_vertex(self) -> Vertex {
        Vertex { weight: self.view[self.root].weight, succ: Seq::empty() }
    }

    /// `p` is the position of an edge among those that leave `a`.
    pub open spec fn edge_at(self, a: int, p: int) -> bool {
        0 <= a < self.n() && 0 <= p < self.view[a].succ.len()
    }

    /// Among the edges that leave a node below `k`, and the first `j` of
    /// those that leave `k`, one joins a node merged into `c1` with a node
    /// merged into `c2`, and these are two nodes.
    pub open spec fn seen_edge(self, k: int, j: int, c1: int, c2: int) -> bool {
        c1 != c2 && exists|a: int, p: int|
            #[trigger] self.edge_at(a, p) && (a < k || (a == k && p < j)) && self.cls(a, c1)
                && self.cls(self.view[a].succ[p] as int, c2)
    }
}

/// The quotient for a graph and the order of a traversal of it.
pub open spec fn quotient_of(di: &DepInfos, order: Seq<usize>) -> Quotient {
    Quotient { view: di@, root: di.root as int, order }
}

/// The bits of a label say from which children of the root the node can be
/// reached, child by child.
pub open spec fn is_label_of(view: Seq<Vertex>, root: int, v: int, bits: Seq<bool>) -> bool {
    &&& bits.len() == view[root].succ.len()
    &&& forall|k: int|
        0 <= k < bits.len() ==> #[trigger] bits[k] == reachable(view, view[root].succ[k] as int, v)
}

/// Computes a sort of condensation of the graph.
///
/// Precisely, let `roots(v)` be the set of roots depending transitively on a
/// vertex `v`. Let the input graph be `G=(V, E)`. This function returns the
/// graph `(V', E')` where `V'` is the quotient of `V` by the equivalence
/// relation "two vertices are equivalent if they have the same image by
/// `roots`" and an edge is in `E'` if there are vertices in the source and
/// target equivalence class which have a corresponding edge in `G`.
///
/// The representative of a class is the first of its vertices that a
/// breadth-first traversal from the root meets.
pub fn condense(di: DepInfos) -> (out: DepInfos)
    requires
        di.wf(),
    ensures
        out.wf(),
        quotient_of(&di, bfs_sequence(di@, di.root)).is_output(out@, out.root as int),
        total_size(out@) == reachable_size(di@, di.root as int),
        connected(out@, out.root as int),
        reachable_size(out@, out.root as int) == reachable_size(di@, di.root as int),
        out.metadata == fresh_metadata(Reachability::Connected, di.metadata),
        out.metadata_consistent(),
{
    let order = bfs_order(&di.graph, di.root);
    condense_along(di, &order)
}

/// Computes the quotient of the graph, given the order in which a traversal
/// from the root meets the nodes: `order` holds each node that can be
/// reached from the root, once. The first node met of each class stands for
/// the class.
pub fn condense_along(di: DepInfos, order: &Vec<usize>) -> (out: DepInfos)
    requires
        di.wf(),
        is_traversal(di@, di.root as int, order@),
    ensures
        out.wf(),
        quotient_of(&di, order@).is_output(out@, out.root as int),
        total_size(out@) == reachable_size(di@, di.root as int),
        connected(out@, out.root as int),
        reachable_size(out@, out.root as int) == reachable_size(di@, di.root as int),
        out.metadata == fresh_metadata(Reachability::Connected, di.metadata),
        out.metadata_consistent(),
{
    let ghost q = quotient_of(&di, order@);
    let labels = label_nodes(&di);
    let g = group(&di, order, &labels, Ghost(q));
    proof {
        assert forall|v: int| 0 <= v < di@.len() && q.member(v) implies q.has_rep(g.reps@, v) by {
            assert(g.class_of[v] is Some);
            let z = g.class_of[v].unwrap();
            assert(q.cls(v, z as int));
            assert(q.label(g.reps@[z - 1] as int) == q.label(v));
        }
    }
    let mut graph = quotient_nodes(&di, &g, Ghost(q));
    let ghost nodes = graph_view(&graph);
    proof {
        assert forall|c: int| 0 <= c < nodes.len() implies (#[trigger] nodes[c]).succ == Seq::<
            usize,
        >::empty() by {
            if c > 0 {
                assert(nodes[(c - 1) + 1] == q.class_vertex(g.reps[c - 1] as int));
            }
        }
    }
    quotient_edges(&mut graph, &di, &g.class_of, Ghost(q));
    let metadata = SizeMetadata::unset(Reachability::Connected, di.metadata.dedup);
    let out = DepInfos { graph, root: 0, metadata };
    proof {
        let view = out@;
        lemma_total_size_same_weights(nodes, view);
        assert forall|c: int| 0 <= c < q.reps().len() implies (#[trigger] view[c + 1]).weight
            == q.class_vertex(q.reps()[c] as int).weight by {
            assert(nodes[c + 1] == q.class_vertex(g.reps[c] as int));
        }
        assert(closed(view)) by {
            assert forall|a: int, j: int|
                0 <= a < view.len() && 0 <= j < view[a].succ.len() implies #[trigger] view[a].succ[j]
                < view.len() by {
                let z = view[a].succ[j];
                assert(view[a].succ.contains(z));
                assert(q.out_edge(a, z as int));
                let (u, v) = choose|u: int, v: int|
                    #[trigger] has_edge(q.view, u, v) && q.cls(u, a) && q.cls(v, z as int);
            }
        }
        lemma_quotient_connected(q, view);
        lemma_connected_sizes(view, 0);
    }
    out
}

/// The classes of the nodes that the traversal met.
struct Grouping {
    /// the first node met of each class
    reps: Vec<usize>,
    /// the size of each class
    sizes: Vec<u64>,
    /// for each node of the input, the node of the output that it is merged
    /// into
    class_of: Vec<Option<usize>>,
}

/// Labels each node with the children of the root from which it can be
/// reached.
fn label_nodes(di: &DepInfos) -> (labels: Vec<FixedBitSet>)
    requires
        di.wf(),
    ensures
        labels.len() == di@.len(),
        forall|v: int|
            0 <= v < di@.len() ==> is_label_of(
                di@,
                di.root as int,
                v,
                #[trigger] bitset_view(&labels[v]),
            ),
{
    let n = node_count(&di.graph);
    let roots = neighbors(&di.graph, di.root);
    let r = roots.len();
    let ghost view = di@;
    let mut labels: Vec<FixedBitSet> = Vec::new();
    let mut v: usize = 0;
    while v < n
        invariant
            v <= n,
            labels.len() == v,
            forall|u: int|
                0 <= u < v ==> #[trigger] bitset_view(&labels[u]) == Seq::new(
                    r as nat,
                    |k: int| false,
                ),
        decreases n - v,
    {
        labels.push(FixedBitSet::with_capacity(r));
        v += 1;
    }
    let mut i: usize = 0;
    while i < r
        invariant
            i <= r,
            di.wf(),
            n == di@.len(),
            view == di@,
            roots@ == view[di.root as int].succ,
            r == roots.len(),
            labels.len() == n,
            forall|u: int| 0 <= u < n ==> (#[trigger] bitset_view(&labels[u])).len() == r,
            forall|u: int, k: int|
                0 <= u < n && 0 <= k < r ==> #[trigger] bitset_view(&labels[u])[k] == (k < i
                    && reachable(view, roots@[k] as int, u)),
        decreases r - i,
    {
        let start = roots[i];
        assert(view[di.root as int].succ[i as int] < view.len());
        let order = bfs_order(&di.graph, start);
        let mut j: usize = 0;
        while j < order.len()
            invariant
                j <= order.len(),
                i < r,
                n == view.len(),
                start == roots@[i as int],
                labels.len() == n,
                forall|w: usize| order@.contains(w) <==> reachable(view, start as int, w as int),
                forall|u: int| 0 <= u < n ==> (#[trigger] bitset_view(&labels[u])).len() == r,
                forall|u: int, k: int|
                    0 <= u < n && 0 <= k < r ==> #[trigger] bitset_view(&labels[u])[k] == ((k < i
                        && reachable(view, roots@[k] as int, u)) || (k == i && prefix_set(
                        order@,
                        j as int,
                    ).contains(u))),
            decreases order.len() - j,
        {
            let w = order[j];
            proof {
                assert(order@.contains(w));
                lemma_reaches_in_bounds(view, Set::empty(), start as int, w as int);
                assert(prefix_set(order@, j as int + 1).contains(w as int));
                assert forall|u: int|
                    prefix_set(order@, j as int + 1).contains(u) == (prefix_set(
                        order@,
                        j as int,
                    ).contains(u) || u == w) by {
                    if prefix_set(order@, j as int + 1).contains(u) {
                        let q = choose|q: int|
                            0 <= q < j + 1 && q < order@.len() && #[trigger] order@[q] == u;
                        if q < j {
                            assert(prefix_set(order@, j as int).contains(u));
                        }
                    }
                    if prefix_set(order@, j as int).contains(u) {
                        let q = choose|q: int|
                            0 <= q < j && q < order@.len() && #[trigger] order@[q] == u;
                        assert(0 <= q < j + 1);
                    }
                }
            }
            labels[w].insert(i);
            j += 1;
        }
        proof {
            assert forall|u: int, k: int| 0 <= u < n && 0 <= k < r implies #[trigger] bitset_view(
                &labels[u],
            )[k] == (k < i + 1 && reachable(view, roots@[k] as int, u)) by {
                if k == i {
                    if reachable(view, start as int, u) {
                        assert(order@.contains(u as usize));
                        let q = choose|q: int| 0 <= q < order@.len() && order@[q] == u as usize;
                        assert(order@[q] == u);
                    }
                    if prefix_set(order@, order.len() as int).contains(u) {
                        let q = choose|q: int|
                            0 <= q < order.len() && q < order@.len() && #[trigger] order@[q] == u;
                        assert(order@.contains(order@[q]));
                    }
                }
            }
        }
        i += 1;
    }
    labels
}

/// Searches the class of a label among the classes found so far.
fn find_class(
    reps: &Vec<usize>,
    labels: &Vec<FixedBitSet>,
    v: usize,
    Ghost(q): Ghost<Quotient>,
) -> (res: Option<usize>)
    requires
        0 <= q.root < q.n(),
        labels.len() == q.n(),
        v < q.n(),
        forall|u: int|
            0 <= u < q.n() ==> is_label_of(q.view, q.root, u, #[trigger] bitset_view(&labels[u])),
        forall|c: int| 0 <= c < reps.len() ==> #[trigger] reps[c] < q.n(),
    ensures
        match res {
            Some(c) => c < reps.len() && q.label(reps[c as int] as int) == q.label(v as int),
            None => forall|c: int|
                0 <= c < reps.len() ==> q.label(#[trigger] reps[c] as int) != q.label(v as int),
        },
{
    let mut c: usize = 0;
    while c < reps.len()
        invariant
            c <= reps.len(),
            0 <= q.root < q.n(),
            labels.len() == q.n(),
            v < q.n(),
            forall|u: int|
                0 <= u < q.n() ==> is_label_of(
                    q.view,
                    q.root,
                    u,
                    #[trigger] bitset_view(&labels[u]),
                ),
            forall|d: int| 0 <= d < reps.len() ==> #[trigger] reps[d] < q.n(),
            forall|d: int| 0 <= d < c ==> q.label(#[trigger] reps[d] as int) != q.label(v as int),
        decreases reps.len() - c,
    {
        let rep = reps[c];
        proof {
            lemma_same_label(
                q,
                rep as int,
                v as int,
                bitset_view(&labels[rep as int]),
                bitset_view(&labels[v as int]),
            );
        }
        if same_bits(&labels[rep], &labels[v]) {
            return Some(c);
        }
        c += 1;
    }
    None
}

/// Groups the nodes that the traversal met by their labels, in the order
/// in which it met them.
fn group(
    di: &DepInfos,
    order: &Vec<usize>,
    labels: &Vec<FixedBitSet>,
    Ghost(q): Ghost<Quotient>,
) -> (res: Grouping)
    requires
        di.wf(),
        q.view == di@,
        q.root == di.root,
        q.order == order@,
        order@.no_duplicates(),
        forall|w: usize| order@.contains(w) <==> reachable(di@, di.root as int, w as int),
        labels.len() == di@.len(),
        forall|u: int|
            0 <= u < di@.len() ==> is_label_of(di@, di.root as int, u, #[trigger] bitset_view(&labels[u])),
    ensures
        res.reps@ == q.reps(),
        res.sizes.len() == res.reps.len(),
        res.class_of.len() == di@.len(),
        forall|c: int|
            0 <= c < res.reps.len() ==> #[trigger] res.reps[c] < di@.len() && res.reps[c] != q.root
                && q.member(res.reps[c] as int),
        forall|c: int, d: int|
            0 <= c < d < res.reps.len() ==> q.label(#[trigger] res.reps[c] as int) != q.label(
                #[trigger] res.reps[d] as int,
            ),
        forall|c: int|
            0 <= c < res.reps.len() ==> #[trigger] res.sizes[c] == q.class_size(res.reps[c] as int),
        forall|v: int|
            0 <= v < di@.len() ==> match #[trigger] res.class_of[v] {
                Some(z) => q.cls(v, z as int),
                None => v != q.root && !q.member(v),
            },
{
    let n = node_count(&di.graph);
    let ghost view = di@;
    let mut reps: Vec<usize> = Vec::new();
    let mut sizes: Vec<u64> = Vec::new();
    let mut class_of: Vec<Option<usize>> = Vec::new();
    let mut v: usize = 0;
    while v < n
        invariant
            v <= n,
            class_of.len() == v,
            forall|u: int|
                0 <= u < v ==> #[trigger] class_of[u] == if u == di.root {
                    Some(0usize)
                } else {
                    None::<usize>
                },
        decreases n - v,
    {
        class_of.push(if v == di.root { Some(0) } else { None });
        v += 1;
    }
    let mut i: usize = 0;
    while i < order.len()
        invariant
            i <= order.len(),
            di.wf(),
            n == di@.len(),
            view == di@,
            q.view == view,
            q.root == di.root,
            q.order == order@,
            order@.no_duplicates(),
            forall|w: usize| order@.contains(w) <==> reachable(view, di.root as int, w as int),
            labels.len() == n,
            forall|u: int|
                0 <= u < n ==> is_label_of(
                    view,
                    di.root as int,
                    u,
                    #[trigger] bitset_view(&labels[u]),
                ),
            reps@ == q.reps_below(i as int),
            sizes.len() == reps.len(),
            class_of.len() == n,
            forall|c: int| 0 <= c < reps.len() ==> #[trigger] reps[c] < n && reps[c] != q.root,
            forall|c: int|
                0 <= c < reps.len() ==> prefix_set(order@, i as int).contains(
                    #[trigger] reps[c] as int,
                ),
            forall|c: int, d: int|
                0 <= c < d < reps.len() ==> q.label(#[trigger] reps[c] as int) != q.label(
                    #[trigger] reps[d] as int,
                ),
            forall|j: int|
                0 <= j < i && #[trigger] order@[j] != q.root ==> q.has_rep(
                    reps@,
                    order@[j] as int,
                ),
            forall|c: int|
                0 <= c < reps.len() ==> #[trigger] sizes[c] == size_in(
                    view,
                    q.class_prefix(reps[c] as int, i as int),
                    n as int,
                ),
            forall|u: int|
                0 <= u < n ==> match #[trigger] class_of[u] {
                    Some(z) => (u == q.root && z == 0) || (u != q.root && prefix_set(
                        order@,
                        i as int,
                    ).contains(u) && 1 <= z <= reps.len() && q.label(reps[z - 1] as int)
                        == q.label(u)),
                    None => u != q.root && !prefix_set(order@, i as int).contains(u),
                },
        decreases order.len() - i,
    {
        let v = order[i];
        let ghost before = prefix_set(order@, i as int);
        let ghost after = prefix_set(order@, i as int + 1);
        let ghost old_reps = reps@;
        let ghost old_sizes = sizes@;
        proof {
            assert(order@.contains(v));
            lemma_reaches_in_bounds(view, Set::empty(), di.root as int, v as int);
            lemma_prefix_set_step(order@, i as int);
        }
        if v != di.root {
            let found = find_class(&reps, labels, v, Ghost(q));
            let c = match found {
                Some(c) => {
                    proof {
                        assert(before.contains(reps[c as int] as int));
                        let j = choose|j: int|
                            0 <= j < i && j < order@.len() && #[trigger] order@[j]
                                == reps[c as int] as int;
                        assert(order@[j] != q.root);
                        assert(!q.is_rep(i as int));
                    }
                    c
                },
                None => {
                    proof {
                        assert(q.is_rep(i as int)) by {
                            assert forall|j: int|
                                0 <= j < i && #[trigger] order@[j] != q.root implies q.label(
                                order@[j] as int,
                            ) != q.label(order@[i as int] as int) by {
                                assert(q.has_rep(reps@, order@[j] as int));
                                let c = choose|c: int|
                                    0 <= c < reps.len() && q.label(#[trigger] reps[c] as int)
                                        == q.label(order@[j] as int);
                            }
                        }
                        assert(q.class_prefix(v as int, i as int) =~= Set::empty()) by {
                            assert forall|u: int| !q.class_prefix(v as int, i as int).contains(
                                u,
                            ) by {
                                if q.class_prefix(v as int, i as int).contains(u) {
                                    let j = choose|j: int|
                                        0 <= j < i && j < order@.len() && #[trigger] order@[j]
                                            == u;
                                    assert(q.has_rep(reps@, order@[j] as int));
                                    let c = choose|c: int|
                                        0 <= c < reps.len() && q.label(#[trigger] reps[c] as int)
                                            == q.label(order@[j] as int);
                                }
                            }
                        }
                        lemma_size_in_empty(view, Set::empty(), n as int);
                    }
                    reps.push(v);
                    sizes.push(0);
                    reps.len() - 1
                },
            };
            let ghost mid_sizes = sizes@;
            proof {
                assert(q.label(reps[c as int] as int) == q.label(v as int));
                assert(q.class_prefix(reps[c as int] as int, i as int + 1) =~= q.class_prefix(
                    reps[c as int] as int,
                    i as int,
                ).insert(v as int));
                lemma_size_in_insert(
                    view,
                    q.class_prefix(reps[c as int] as int, i as int),
                    v as int,
                    n as int,
                );
                lemma_size_in_subset(
                    view,
                    q.class_prefix(reps[c as int] as int, i as int + 1),
                    Set::full(),
                    n as int,
                );
                assert(q.class_prefix(reps[c as int] as int, i as int) == q.class_prefix(
                    v as int,
                    i as int,
                ));
            }
            let size = node_weight(&di.graph, v).size;
            let sum = sizes[c] + size;
            sizes.set(c, sum);
            class_of.set(v, Some(c + 1));
            proof {
                assert forall|d: int| 0 <= d < reps.len() implies #[trigger] sizes[d] == size_in(
                    view,
                    q.class_prefix(reps[d] as int, i as int + 1),
                    n as int,
                ) by {
                    if d != c {
                        assert(q.label(reps[d] as int) != q.label(v as int));
                        assert(q.class_prefix(reps[d] as int, i as int + 1) =~= q.class_prefix(
                            reps[d] as int,
                            i as int,
                        ));
                        assert(sizes[d] == mid_sizes[d]);
                        assert(d < old_reps.len());
                        assert(mid_sizes[d] == old_sizes[d]);
                    }
                }
                assert forall|j: int|
                    0 <= j < i + 1 && #[trigger] order@[j] != q.root implies q.has_rep(
                    reps@,
                    order@[j] as int,
                ) by {
                    if j < i {
                        assert(q.has_rep(old_reps, order@[j] as int));
                        let d = choose|d: int|
                            0 <= d < old_reps.len() && q.label(#[trigger] old_reps[d] as int)
                                == q.label(order@[j] as int);
                        assert(reps[d] == old_reps[d]);
                    } else {
                        assert(q.label(reps[c as int] as int) == q.label(order@[j] as int));
                    }
                }
                assert forall|d: int| 0 <= d < reps.len() implies after.contains(
                    #[trigger] reps[d] as int,
                ) by {
                    if d < old_reps.len() {
                        assert(reps[d] == old_reps[d]);
                        assert(before.contains(old_reps[d] as int));
                    }
                }
            }
        } else {
            proof {
                assert(!q.is_rep(i as int));
                assert forall|d: int| 0 <= d < reps.len() implies #[trigger] sizes[d] == size_in(
                    view,
                    q.class_prefix(reps[d] as int, i as int + 1),
                    n as int,
                ) by {
                    assert(q.class_prefix(reps[d] as int, i as int + 1) =~= q.class_prefix(
                        reps[d] as int,
                        i as int,
                    ));
                }
                assert forall|d: int| 0 <= d < reps.len() implies after.contains(
                    #[trigger] reps[d] as int,
                ) by {
                    assert(before.contains(old_reps[d] as int));
                }
            }
        }
        i += 1;
    }
    proof {
        let full = prefix_set(order@, order.len() as int);
        assert forall|u: int| q.member(u) == (u != q.root && full.contains(u)) by {
            if q.member(u) {
                let j = choose|j: int| 0 <= j < order@.len() && #[trigger] order@[j] == u;
                assert(full.contains(u));
            }
            if u != q.root && full.contains(u) {
                let j = choose|j: int|
                    0 <= j < order.len() && j < order@.len() && #[trigger] order@[j] == u;
                assert(q.member(u));
            }
        }
        assert forall|c: int| 0 <= c < reps.len() implies #[trigger] sizes[c] == q.class_size(
            reps[c] as int,
        ) by {
            assert(q.class_prefix(reps[c] as int, order.len() as int) =~= q.class_set(
                reps[c] as int,
            ));
        }
        assert forall|c: int| 0 <= c < reps.len() implies q.member(#[trigger] reps[c] as int) by {
            assert(full.contains(reps[c] as int));
        }
    }
    Grouping { reps, sizes, class_of }
}

/// Makes the nodes of the quotient: the root, then one node for each class.
fn quotient_nodes(di: &DepInfos, g: &Grouping, Ghost(q): Ghost<Quotient>) -> (graph: DepGraph)
    requires
        di.wf(),
        q.view == di@,
        q.root == di.root,
        forall|w: usize| q.order.contains(w) <==> reachable(di@, di.root as int, w as int),
        g.sizes.len() == g.reps.len(),
        g.class_of.len() == di@.len(),
        forall|c: int|
            0 <= c < g.reps.len() ==> #[trigger] g.reps[c] < di@.len() && g.reps[c] != q.root
                && q.member(g.reps[c] as int),
        forall|c: int, d: int|
            0 <= c < d < g.reps.len() ==> q.label(#[trigger] g.reps[c] as int) != q.label(
                #[trigger] g.reps[d] as int,
            ),
        forall|c: int|
            0 <= c < g.reps.len() ==> #[trigger] g.sizes[c] == q.class_size(g.reps[c] as int),
        forall|v: int|
            0 <= v < di@.len() && q.member(v) ==> q.has_rep(g.reps@, v),
    ensures
        graph_view(&graph).len() == g.reps.len() + 1,
        graph_view(&graph)[0] == q.root_vertex(),
        forall|c: int|
            0 <= c < g.reps.len() ==> #[trigger] graph_view(&graph)[c + 1] == q.class_vertex(
                g.reps[c] as int,
            ),
        total_size(graph_view(&graph)) == reachable_size(di@, di.root as int),
        total_size(graph_view(&graph)) <= u64::MAX,
{
    let n = node_count(&di.graph);
    let ghost view = di@;
    let ghost family = q.classes(g.reps@);
    let mut graph = graph_new();
    add_node(&mut graph, node_weight(&di.graph, di.root).duplicate());
    proof {
        lemma_total_size_push(Seq::empty(), q.root_vertex());
        lemma_size_in_empty(view, union_below(family, 0), n as int);
        lemma_size_in_insert(view, union_below(family, 0), di.root as int, n as int);
        lemma_size_in_subset(
            view,
            union_below(family, 0).insert(di.root as int),
            Set::full(),
            n as int,
        );
    }
    let mut c: usize = 0;
    while c < g.reps.len()
        invariant
            c <= g.reps.len(),
            di.wf(),
            n == di@.len(),
            view == di@,
            q.view == view,
            q.root == di.root,
            family == q.classes(g.reps@),
            g.sizes.len() == g.reps.len(),
            forall|d: int|
                0 <= d < g.reps.len() ==> #[trigger] g.reps[d] < n && g.reps[d] != q.root
                    && q.member(g.reps[d] as int),
            forall|d: int, e: int|
                0 <= d < e < g.reps.len() ==> q.label(#[trigger] g.reps[d] as int) != q.label(
                    #[trigger] g.reps[e] as int,
                ),
            forall|d: int|
                0 <= d < g.reps.len() ==> #[trigger] g.sizes[d] == q.class_size(g.reps[d] as int),
            graph_view(&graph).len() == c + 1,
            graph_view(&graph)[0] == q.root_vertex(),
            forall|d: int|
                0 <= d < c ==> #[trigger] graph_view(&graph)[d + 1] == q.class_vertex(
                    g.reps[d] as int,
                ),
            total_size(graph_view(&graph)) == view[di.root as int].weight.size + size_in(
                view,
                union_below(family, c as int),
                n as int,
            ),
            view[di.root as int].weight.size + size_in(view, union_below(family, c as int), n as int)
                <= total_size(view),
        decreases g.reps.len() - c,
    {
        let rep = g.reps[c];
        let ghost before = graph_view(&graph);
        proof {
            assert forall|d: int, y: int| 0 <= d < c && 0 <= y < n implies !(#[trigger] family(
                d,
            ).contains(y) && family(c as int).contains(y)) by {
                assert(q.label(g.reps[d] as int) != q.label(g.reps[c as int] as int));
            }
            lemma_union_step(view, family, c as int, n as int);
            let next = union_below(family, c as int + 1);
            assert(!next.contains(di.root as int)) by {
                if next.contains(di.root as int) {
                    let d = choose|d: int|
                        0 <= d < c + 1 && #[trigger] family(d).contains(di.root as int);
                }
            }
            lemma_size_in_insert(view, next, di.root as int, n as int);
            lemma_size_in_subset(view, next.insert(di.root as int), Set::full(), n as int);
            lemma_total_size_push(before, q.class_vertex(rep as int));
        }
        let node = DepNode {
            description: node_weight(&di.graph, rep).description.duplicate(),
            size: g.sizes[c],
        };
        add_node(&mut graph, node);
        proof {
            assert forall|d: int| 0 <= d < c + 1 implies #[trigger] graph_view(&graph)[d + 1]
                == q.class_vertex(g.reps[d] as int) by {
                if d < c {
                    assert(before[d + 1] == q.class_vertex(g.reps[d] as int));
                }
            }
        }
        c += 1;
    }
    proof {
        let all = union_below(family, g.reps.len() as int);
        assert(!all.contains(di.root as int)) by {
            if all.contains(di.root as int) {
                let d = choose|d: int|
                    0 <= d < g.reps.len() && #[trigger] family(d).contains(di.root as int);
            }
        }
        lemma_size_in_insert(view, all, di.root as int, n as int);
        assert forall|v: int| 0 <= v < n implies all.insert(di.root as int).contains(v)
            == reachable_set(view, di.root as int).contains(v) by {
            if all.contains(v) {
                let d = choose|d: int| 0 <= d < g.reps.len() && #[trigger] family(d).contains(v);
                assert(q.member(v));
                let j = choose|j: int| 0 <= j < q.order.len() && #[trigger] q.order[j] == v;
                assert(q.order.contains(q.order[j]));
            }
            if v == di.root {
                lemma_reaches_self(view, Set::empty(), v);
            }
            if reachable(view, di.root as int, v) && v != di.root {
                assert(q.order.contains(v as usize));
                let j = choose|j: int| 0 <= j < q.order.len() && q.order[j] == v as usize;
                assert(q.order[j] == v);
                assert(q.member(v));
                assert(q.has_rep(g.reps@, v));
                let d = choose|d: int|
                    0 <= d < g.reps@.len() && q.label(#[trigger] g.reps@[d] as int) == q.label(v);
                assert(family(d).contains(v));
            }
        }
        lemma_size_in_agree(
            view,
            all.insert(di.root as int),
            reachable_set(view, di.root as int),
            n as int,
        );
    }
    graph
}

/// Adds to the quotient an edge for each pair of its nodes that an edge of
/// the input joins.
fn quotient_edges(
    graph: &mut DepGraph,
    di: &DepInfos,
    class_of: &Vec<Option<usize>>,
    Ghost(q): Ghost<Quotient>,
)
    requires
        di.wf(),
        q.view == di@,
        q.root == di.root,
        class_of.len() == di@.len(),
        forall|c: int, d: int|
            0 <= c < d < q.reps().len() ==> q.label(#[trigger] q.reps()[c] as int) != q.label(
                #[trigger] q.reps()[d] as int,
            ),
        forall|c: int| 0 <= c < q.reps().len() ==> #[trigger] q.reps()[c] != q.root,
        forall|v: int|
            0 <= v < di@.len() ==> match #[trigger] class_of[v] {
                Some(z) => q.cls(v, z as int),
                None => v != q.root && !q.member(v),
            },
        graph_view(old(graph)).len() == q.reps().len() + 1,
        forall|c: int|
            0 <= c < graph_view(old(graph)).len() ==> (#[trigger] graph_view(old(graph))[c]).succ
                == Seq::<usize>::empty(),
    ensures
        graph_view(final(graph)).len() == graph_view(old(graph)).len(),
        forall|c: int|
            0 <= c < graph_view(old(graph)).len() ==> (#[trigger] graph_view(final(graph))[c]).weight
                == graph_view(old(graph))[c].weight,
        forall|c1: int, c2: usize|
            0 <= c1 < graph_view(old(graph)).len() ==> (#[trigger] graph_view(
                final(graph),
            )[c1].succ.contains(c2) <==> q.out_edge(c1, c2 as int)),
        forall|c: int|
            0 <= c < graph_view(old(graph)).len() ==> (#[trigger] graph_view(
                final(graph),
            )[c]).succ.no_duplicates(),
{
    let n = node_count(&di.graph);
    let ghost view = di@;
    let ghost start = graph_view(graph);
    let mut u: usize = 0;
    while u < n
        invariant
            u <= n,
            di.wf(),
            n == di@.len(),
            view == di@,
            q.view == view,
            q.root == di.root,
            class_of.len() == n,
            forall|c: int, d: int|
                0 <= c < d < q.reps().len() ==> q.label(#[trigger] q.reps()[c] as int) != q.label(
                    #[trigger] q.reps()[d] as int,
                ),
            forall|c: int| 0 <= c < q.reps().len() ==> #[trigger] q.reps()[c] != q.root,
            forall|v: int|
                0 <= v < n ==> match #[trigger] class_of[v] {
                    Some(z) => q.cls(v, z as int),
                    None => v != q.root && !q.member(v),
                },
            start.len() == q.reps().len() + 1,
            graph_view(graph).len() == start.len(),
            forall|c: int|
                0 <= c < start.len() ==> (#[trigger] graph_view(graph)[c]).weight
                    == start[c].weight,
            forall|c1: int, c2: usize|
                0 <= c1 < start.len() ==> (#[trigger] graph_view(graph)[c1].succ.contains(c2)
                    <==> q.seen_edge(u as int, 0, c1, c2 as int)),
            forall|c: int|
                0 <= c < start.len() ==> (#[trigger] graph_view(graph)[c]).succ.no_duplicates(),
        decreases n - u,
    {
        let succ = neighbors(&di.graph, u);
        let mut p: usize = 0;
        while p < succ.len()
            invariant
                p <= succ.len(),
                u < n,
                di.wf(),
                n == di@.len(),
                view == di@,
                q.view == view,
                q.root == di.root,
                succ@ == view[u as int].succ,
                class_of.len() == n,
                forall|c: int, d: int|
                    0 <= c < d < q.reps().len() ==> q.label(#[trigger] q.reps()[c] as int)
                        != q.label(#[trigger] q.reps()[d] as int),
                forall|c: int| 0 <= c < q.reps().len() ==> #[trigger] q.reps()[c] != q.root,
                forall|v: int|
                    0 <= v < n ==> match #[trigger] class_of[v] {
                        Some(z) => q.cls(v, z as int),
                        None => v != q.root && !q.member(v),
                    },
                start.len() == q.reps().len() + 1,
                graph_view(graph).len() == start.len(),
                forall|c: int|
                    0 <= c < start.len() ==> (#[trigger] graph_view(graph)[c]).weight
                        == start[c].weight,
                forall|c1: int, c2: usize|
                    0 <= c1 < start.len() ==> (#[trigger] graph_view(graph)[c1].succ.contains(c2)
                        <==> q.seen_edge(u as int, p as int, c1, c2 as int)),
                forall|c: int|
                    0 <= c < start.len() ==> (#[trigger] graph_view(graph)[c]).succ.no_duplicates(),
            decreases succ.len() - p,
        {
            let v = succ[p];
            assert(view[u as int].succ[p as int] < view.len());
            let ghost before = graph_view(graph);
            let ghost added = match (class_of[u as int], class_of[v as int]) {
                (Some(cu), Some(cv)) => cu != cv,
                _ => false,
            };
            let ghost cu = class_of[u as int].unwrap_or(0);
            let ghost cv = class_of[v as int].unwrap_or(0);
            match (class_of[u], class_of[v]) {
                (Some(from), Some(to)) => {
                    if from != to {
                        update_edge(graph, from, to);
                    }
                },
                _ => {},
            }
            proof {
                let after = graph_view(graph);
                assert forall|c1: int, c2: int|
                    q.seen_edge(u as int, p as int + 1, c1, c2) == (q.seen_edge(
                        u as int,
                        p as int,
                        c1,
                        c2,
                    ) || (added && c1 == cu && c2 == cv)) by {
                    lemma_seen_edge_step(q, u as int, p as int, c1, c2);
                    if c1 != c2 && q.cls(u as int, c1) && q.cls(v as int, c2) {
                        assert(class_of[u as int] is Some);
                        assert(class_of[v as int] is Some);
                        lemma_cls_unique(q, u as int, c1, cu as int);
                        lemma_cls_unique(q, v as int, c2, cv as int);
                    }
                }
                assert forall|c1: int, c2: usize| 0 <= c1 < start.len() implies (#[trigger] after[c1].succ.contains(
                    c2,
                ) <==> q.seen_edge(u as int, p as int + 1, c1, c2 as int)) by {
                    assert(before[c1].succ.contains(c2) <==> q.seen_edge(
                        u as int,
                        p as int,
                        c1,
                        c2 as int,
                    ));
                    if added && !before[cu as int].succ.contains(cv) && c1 == cu {
                        assert(after[c1].succ == seq![cv] + before[c1].succ);
                        if after[c1].succ.contains(c2) {
                            let i = choose|i: int|
                                0 <= i < after[c1].succ.len() && after[c1].succ[i] == c2;
                            if i > 0 {
                                assert(before[c1].succ[i - 1] == c2);
                            }
                        }
                        if before[c1].succ.contains(c2) {
                            let i = choose|i: int|
                                0 <= i < before[c1].succ.len() && before[c1].succ[i] == c2;
                            assert(after[c1].succ[i + 1] == c2);
                        }
                        if c2 == cv {
                            assert(after[c1].succ[0] == c2);
                        }
                    }
                }
            }
            p += 1;
        }
        proof {
            assert forall|c1: int, c2: int|
                q.seen_edge(u as int + 1, 0, c1, c2) == q.seen_edge(
                    u as int,
                    succ.len() as int,
                    c1,
                    c2,
                ) by {
                lemma_seen_edge_next(q, u as int, c1, c2);
            }
        }
        u += 1;
    }
    proof {
        assert forall|c1: int, c2: usize| 0 <= c1 < start.len() implies (#[trigger] graph_view(
            graph,
        )[c1].succ.contains(c2) <==> q.out_edge(c1, c2 as int)) by {
            lemma_seen_edge_all(q, c1, c2 as int);
        }
    }
}

/// Two nodes have the same bits in their labels exactly when the same
/// children of the root reach them.
pub proof fn lemma_same_label(q: Quotient, u: int, v: int, bu: Seq<bool>, bv: Seq<bool>)
    requires
        0 <= q.root < q.n(),
        is_label_of(q.view, q.root, u, bu),
        is_label_of(q.view, q.root, v, bv),
    ensures
        (bu == bv) == (q.label(u) == q.label(v)),
{
    let succ = q.view[q.root].succ;
    if bu == bv {
        assert forall|r: int| q.label(u).contains(r) == q.label(v).contains(r) by {
            if has_edge(q.view, q.root, r) {
                let k = choose|k: int| 0 <= k < succ.len() && #[trigger] succ[k] == r;
                assert(bu[k] == reachable(q.view, succ[k] as int, u));
                assert(bv[k] == reachable(q.view, succ[k] as int, v));
            }
        }
        assert(q.label(u) =~= q.label(v));
    }
    if q.label(u) == q.label(v) {
        assert forall|k: int| 0 <= k < bu.len() implies bu[k] == bv[k] by {
            let r = succ[k] as int;
            assert(has_edge(q.view, q.root, r));
            assert(q.label(u).contains(r) == reachable(q.view, r, u));
            assert(q.label(v).contains(r) == reachable(q.view, r, v));
        }
        assert(bu =~= bv);
    }
}

/// A node is merged into one node of the output at most.
pub proof fn lemma_cls_unique(q: Quotient, v: int, z1: int, z2: int)
    requires
        forall|c: int, d: int|
            0 <= c < d < q.reps().len() ==> q.label(#[trigger] q.reps()[c] as int) != q.label(
                #[trigger] q.reps()[d] as int,
            ),
        forall|c: int| 0 <= c < q.reps().len() ==> #[trigger] q.reps()[c] != q.root,
        q.cls(v, z1),
        q.cls(v, z2),
    ensures
        z1 == z2,
{
    if v != q.root {
        let c = z1 - 1;
        let d = z2 - 1;
        if c < d {
            assert(q.label(q.reps()[c] as int) != q.label(q.reps()[d] as int));
        } else if d < c {
            assert(q.label(q.reps()[d] as int) != q.label(q.reps()[c] as int));
        }
    }
}

/// One more edge of `k` is seen: it joins the nodes that its two ends are
/// merged into.
proof fn lemma_seen_edge_step(q: Quotient, k: int, j: int, c1: int, c2: int)
    requires
        q.edge_at(k, j),
    ensures
        q.seen_edge(k, j + 1, c1, c2) == (q.seen_edge(k, j, c1, c2) || (c1 != c2 && q.cls(k, c1)
            && q.cls(q.view[k].succ[j] as int, c2))),
{
    if q.seen_edge(k, j + 1, c1, c2) {
        let (a, p) = choose|a: int, p: int|
            #[trigger] q.edge_at(a, p) && (a < k || (a == k && p < j + 1)) && q.cls(a, c1) && q.cls(
                q.view[a].succ[p] as int,
                c2,
            );
        if a < k || p < j {
            assert(q.edge_at(a, p) && (a < k || (a == k && p < j)));
        }
    }
    if q.seen_edge(k, j, c1, c2) {
        let (a, p) = choose|a: int, p: int|
            #[trigger] q.edge_at(a, p) && (a < k || (a == k && p < j)) && q.cls(a, c1) && q.cls(
                q.view[a].succ[p] as int,
                c2,
            );
        assert(q.edge_at(a, p) && (a < k || (a == k && p < j + 1)));
    }
    if c1 != c2 && q.cls(k, c1) && q.cls(q.view[k].succ[j] as int, c2) {
        assert(q.edge_at(k, j) && (k < k || (k == k && j < j + 1)));
    }
}

/// When all edges of `k` are seen, the turn of the next node begins.
proof fn lemma_seen_edge_next(q: Quotient, k: int, c1: int, c2: int)
    requires
        0 <= k < q.n(),
    ensures
        q.seen_edge(k + 1, 0, c1, c2) == q.seen_edge(k, q.view[k].succ.len() as int, c1, c2),
{
    let len = q.view[k].succ.len() as int;
    if q.seen_edge(k + 1, 0, c1, c2) {
        let (a, p) = choose|a: int, p: int|
            #[trigger] q.edge_at(a, p) && (a < k + 1 || (a == k + 1 && p < 0)) && q.cls(a, c1)
                && q.cls(q.view[a].succ[p] as int, c2);
        assert(q.edge_at(a, p) && (a < k || (a == k && p < len)));
    }
    if q.seen_edge(k, len, c1, c2) {
        let (a, p) = choose|a: int, p: int|
            #[trigger] q.edge_at(a, p) && (a < k || (a == k && p < len)) && q.cls(a, c1) && q.cls(
                q.view[a].succ[p] as int,
                c2,
            );
        assert(q.edge_at(a, p) && (a < k + 1 || (a == k + 1 && p < 0)));
    }
}

/// When the edges of all nodes are seen, the edges of the quotient are
/// known.
proof fn lemma_seen_edge_all(q: Quotient, c1: int, c2: int)
    ensures
        q.seen_edge(q.n(), 0, c1, c2) == q.out_edge(c1, c2),
{
    if q.seen_edge(q.n(), 0, c1, c2) {
        let (a, p) = choose|a: int, p: int|
            #[trigger] q.edge_at(a, p) && (a < q.n() || (a == q.n() && p < 0)) && q.cls(a, c1)
                && q.cls(q.view[a].succ[p] as int, c2);
        assert(has_edge(q.view, a, q.view[a].succ[p] as int));
    }
    if q.out_edge(c1, c2) {
        let (u, v) = choose|u: int, v: int|
            #[trigger] has_edge(q.view, u, v) && q.cls(u, c1) && q.cls(v, c2);
        let p = choose|p: int| 0 <= p < q.view[u].succ.len() && #[trigger] q.view[u].succ[p] == v;
        assert(q.edge_at(u, p));
    }
}

} // verus!
