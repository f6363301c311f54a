// SPDX-License-Identifier: LGPL-3.0

//! The filter that drops nodes and keeps their sizes.

use crate::depgraph::DepInfos;
use crate::graph::{closed, graph_view, has_edge, node_count, node_weight, Vertex};
use crate::metadata::{fresh_metadata, SizeMetadata};
use crate::node::{DepNode, DescriptionView, NodeView};
use crate::reduction::absorb::{absorb, boundary_flags};
use crate::reduction::assemble::{connect_regions, connect_root, materialize};
use crate::reduction::filter_laws::{lemma_filter_connected, lemma_filter_covers};
use crate::sizes::{
    lemma_connected_sizes, lemma_size_in_subset, lemma_size_in_union, lemma_total_size_same_weights,
    prefix_set, reachable_size, size_in, total_size,
};
use crate::traversal::{connected, reaches};
use vstd::prelude::*;

verus! {

/// What the filter works on: a graph, its root, and for each node whether
/// the predicate holds of it.
pub struct Filter {
    pub view: Seq<Vertex>,
    pub root: int,
    pub mask: Seq<bool>,
}

impl Filter {
    /// The number of nodes of the graph.
    pub open spec fn n(self) -> int {
        self.view.len() as int
    }

    /// The node is retained for its own sake: the predicate holds of it, or
    /// it is the root.
    pub open spec fn kept(self, v: int) -> bool {
        0 <= v < self.n() && (v == self.root || self.mask[v])
    }

    /// The node is a direct child of the root.
    pub open spec fn child(self, v: int) -> bool {
        0 <= v < self.n() && v != self.root && has_edge(self.view, self.root, v)
    }

    /// A child of the root of which the predicate does not hold: it is only
    /// retained if a retained node hangs below it.
    pub open spec fn lazy(self, v: int) -> bool {
        self.child(v) && !self.kept(v)
    }

    /// Retained nodes and children of the root bound the regions.
    pub open spec fn boundary(self, v: int) -> bool {
        self.kept(v) || self.child(v)
    }

    /// The boundary nodes.
    pub open spec fn barrier(self) -> Set<int> {
        Set::new(|v: int| self.boundary(v))
    }

    /// `y` lies in the region of `x`: a walk leads from `x` to `y` that meets
    /// no boundary node in between.
    pub open spec fn region(self, x: int, y: int) -> bool {
        reaches(self.view, self.barrier(), x, y)
    }

    /// `y` lies in the region of a boundary node below `k`.
    pub open spec fn claimed_before(self, y: int, k: int) -> bool {
        exists|x: int| 0 <= x < k && self.boundary(x) && #[trigger] self.region(x, y)
    }

    /// The size of `y` is folded into `x`: `y` is no boundary node, and `x`
    /// is the lowest boundary node in whose region it lies.
    pub open spec fn absorbs(self, x: int, y: int) -> bool {
        &&& self.boundary(x)
        &&& 0 <= y < self.n()
        &&& !self.boundary(y)
        &&& self.region(x, y)
        &&& !self.claimed_before(y, x)
    }

    /// A boundary node together with the nodes that it absorbs.
    pub open spec fn territory(self, x: int) -> Set<int> {
        Set::new(|y: int| y == x || self.absorbs(x, y))
    }

    /// The size that a boundary node stands for.
    pub open spec fn acc(self, x: int) -> int {
        size_in(self.view, self.territory(x), self.n())
    }

    /// A retained node other than `x` lies in the region of `x`.
    pub open spec fn linked(self, x: int) -> bool {
        exists|y: int| self.kept(y) && y != x && #[trigger] self.region(x, y)
    }

    /// The node has a node of its own in the output.
    pub open spec fn materialized(self, v: int) -> bool {
        self.kept(v) || (self.lazy(v) && self.linked(v))
    }

    /// The number of nodes below `v` that have a node in the output, which is
    /// the index of the node of `v` there.
    pub open spec fn rank(self, v: int) -> int
        decreases v,
    {
        if v <= 0 {
            0
        } else {
            self.rank(v - 1) + if self.materialized(v - 1) {
                1int
            } else {
                0int
            }
        }
    }

    /// The territories of the boundary nodes below `k` that lie in `sel`,
    /// taken together.
    pub open spec fn gathered(self, sel: Set<int>, k: int) -> Set<int> {
        Set::new(
            |y: int|
                exists|x: int|
                    0 <= x < k && sel.contains(x) && self.boundary(x)
                        && #[trigger] self.territory(x).contains(y),
        )
    }

    /// The children of the root that get no node of their own.
    pub open spec fn dropped(self) -> Set<int> {
        Set::new(|x: int| self.lazy(x) && !self.linked(x))
    }

    /// The nodes whose size goes to the node that gathers what was filtered
    /// out: the children of the root that have no node of their own, and what
    /// they absorb.
    pub open spec fn leftover(self) -> Set<int> {
        self.gathered(self.dropped(), self.n())
    }

    /// The size of the node that gathers what was filtered out.
    pub open spec fn remaining(self) -> int {
        size_in(self.view, self.leftover(), self.n())
    }

    /// The nodes whose size is found in the output: the boundary nodes and
    /// what they absorb.
    pub open spec fn covered(self) -> Set<int> {
        self.gathered(Set::full(), self.n())
    }

    /// The output has an edge from the node of `x` to its node `z`: `z` is
    /// the node of a retained node in the region of `x`, or `x` is the root
    /// and `z` is the node of a child that got one, or the node that gathers
    /// what was filtered out.
    pub open spec fn out_edge(self, x: int, z: int) -> bool {
        ||| exists|y: int| self.kept(y) && y != x && #[trigger] self.region(x, y) && z == self.rank(y)
        ||| x == self.root && exists|y: int|
            self.lazy(y) && self.linked(y) && z == #[trigger] self.rank(y)
        ||| x == self.root && self.remaining() > 0 && z == self.rank(self.n())
    }

    /// `out` is the filtered graph: a node for each materialized node, in
    /// their order, with the size of its territory; after them the node that
    /// gathers what was filtered out, if that has any size; and the edges
    /// that `out_edge` gives, each once.
    pub open spec fn is_output(self, out: Seq<Vertex>, out_root: int) -> bool {
        &&& out.len() == self.rank(self.n()) + if self.remaining() > 0 {
            1int
        } else {
            0int
        }
        &&& out_root == self.rank(self.root)
        &&& forall|v: int|
            0 <= v < self.n() && self.materialized(v) ==> (#[trigger] out[self.rank(v)]).weight == (
            NodeView {
                description: self.view[v].weight.description,
                size: self.acc(v) as u64,
            })
        &&& forall|v: int, z: usize|
            0 <= v < self.n() && self.materialized(v) ==> (#[trigger] out[self.rank(v)].succ.contains(
                z,
            ) <==> self.out_edge(v, z as int))
        &&& self.remaining() > 0 ==> out.last() == (Vertex {
            weight: NodeView {
                description: DescriptionView::FilteredOut,
                size: self.remaining() as u64,
            },
            succ: Seq::empty(),
        })
        &&& forall|a: int| 0 <= a < out.len() ==> (#[trigger] out[a]).succ.no_duplicates()
    }

    /// What the boundary node `x` stands for once the first `j` nodes of a
    /// walk through its region have been seen.
    pub open spec fn part(self, x: int, order: Seq<usize>, j: int) -> Set<int> {
        Set::new(|y: int| y == x || (prefix_set(order, j).contains(y) && self.absorbs(x, y)))
    }

    /// The nodes that have a node of their own in the output.
    pub open spec fn chosen(self) -> Set<int> {
        Set::new(|x: int| self.materialized(x))
    }

    /// The node that stands for `v` in the output, before it has edges.
    pub open spec fn out_vertex(self, v: int) -> Vertex {
        Vertex {
            weight: NodeView {
                description: self.view[v].weight.description,
                size: self.acc(v) as u64,
            },
            succ: Seq::empty(),
        }
    }

    /// The node that gathers what was filtered out.
    pub open spec fn gathering_vertex(self) -> Vertex {
        Vertex {
            weight: NodeView {
                description: DescriptionView::FilteredOut,
                size: self.remaining() as u64,
            },
            succ: Seq::empty(),
        }
    }

    /// A retained node `b` lies in the region of the boundary node `a`.
    pub open spec fn links(self, a: int, b: int) -> bool {
        self.boundary(a) && self.kept(b) && b != a && self.region(a, b)
    }

    /// One of the first `i` pairs joins the nodes of rank `p` and `z`.
    pub open spec fn joined(self, edges: Seq<(usize, usize)>, i: int, p: int, z: int) -> bool {
        exists|j: int|
            0 <= j < i && j < edges.len() && self.rank((#[trigger] edges[j]).0 as int) == p
                && self.rank(edges[j].1 as int) == z
    }

    /// One of the children below `k` that get a node of their own has rank
    /// `z`.
    pub open spec fn adopted(self, k: int, z: int) -> bool {
        exists|y: int| 0 <= y < k && self.lazy(y) && self.linked(y) && z == #[trigger] self.rank(y)
    }

    /// The nodes of rank `p` and `z` are a boundary node and a retained node
    /// in its region.
    pub open spec fn region_edge(self, p: int, z: int) -> bool {
        exists|a: int, b: int| #[trigger] self.links(a, b) && self.rank(a) == p && self.rank(b) == z
    }

    /// The output has an edge from its node `p` to its node `z`.
    pub open spec fn out_succ(self, p: int, z: int) -> bool {
        ||| self.region_edge(p, z)
        ||| p == self.rank(self.root) && self.adopted(self.n(), z)
        ||| p == self.rank(self.root) && self.remaining() > 0 && z == self.rank(self.n())
    }
}

/// The filter for a graph and the answers of the predicate.
pub open spec fn filter_of(di: &DepInfos, mask: Seq<bool>) -> Filter {
    Filter { view: di@, root: di.root as int, mask }
}

/// `b` is an answer that the predicate may give for a node of value `w`.
pub open spec fn answers<T: Fn(&DepNode) -> bool>(filter: T, w: NodeView, b: bool) -> bool {
    exists|node: DepNode| node@ == w && #[trigger] call_ensures(filter, (&node,), b)
}

/// `mask` holds, for each node of the graph, an answer of the predicate.
pub open spec fn is_mask_of<T: Fn(&DepNode) -> bool>(filter: T, view: Seq<Vertex>, mask: Seq<bool>) -> bool {
    &&& mask.len() == view.len()
    &&& forall|v: int| 0 <= v < view.len() ==> answers(filter, view[v].weight, #[trigger] mask[v])
}

/// Creates a new graph retaining only nodes whose weight return `true` when
/// passed to `filter`. The nodes which are dropped are merged into an
/// arbitrary parent (ie. the name is dropped, but edges and size are merged).
/// Roots which have at least a transitive child kept are kept as well. Other
/// roots (and the size gathered below) are merged in a dummy root.
///
/// Note that `filter` will be called at most once per node.
pub fn keep<T: Fn(&DepNode) -> bool>(di: DepInfos, filter: T) -> (out: DepInfos)
    requires
        di.wf(),
        forall|node: &DepNode| call_requires(filter, (node,)),
    ensures
        out.wf(),
        exists|mask: Seq<bool>|
            {
                &&& #[trigger] is_mask_of(filter, di@, mask)
                &&& filter_of(&di, mask).is_output(out@, out.root as int)
                &&& total_size(out@) == size_in(
                    di@,
                    filter_of(&di, mask).covered(),
                    di@.len() as int,
                )
            },
        connected(di@, di.root as int) ==> {
            &&& connected(out@, out.root as int)
            &&& total_size(out@) == total_size(di@)
            &&& reachable_size(out@, out.root as int) == reachable_size(di@, di.root as int)
        },
        out.metadata == fresh_metadata(di.metadata.reachable, di.metadata),
        di.metadata_consistent() ==> out.metadata_consistent(),
{
    let mask = evaluate(&di, &filter);
    let out = keep_marked(di, &mask);
    assert(is_mask_of(filter, di@, mask@));
    out
}

/// Asks the predicate about each node of the graph, once.
pub fn evaluate<T: Fn(&DepNode) -> bool>(di: &DepInfos, filter: &T) -> (mask: Vec<bool>)
    requires
        forall|node: &DepNode| call_requires(*filter, (node,)),
    ensures
        is_mask_of(*filter, di@, mask@),
{
    let n = node_count(&di.graph);
    let mut mask: Vec<bool> = Vec::new();
    let mut v: usize = 0;
    while v < n
        invariant
            v <= n,
            n == di@.len(),
            mask.len() == v,
            forall|node: &DepNode| call_requires(*filter, (node,)),
            forall|u: int| 0 <= u < v ==> answers(*filter, di@[u].weight, #[trigger] mask[u]),
        decreases n - v,
    {
        let node = node_weight(&di.graph, v);
        let b = filter(node);
        assert(call_ensures(*filter, (&*node,), b));
        mask.push(b);
        v += 1;
    }
    mask
}

/// Creates a new graph retaining the root, the nodes that are marked in
/// `mask`, and the children of the root below which a retained node hangs.
///
/// The retained nodes and the children of the root are the boundary nodes.
/// The region of a boundary node is what it reaches without passing through
/// another boundary node. The output has an edge from a boundary node to each
/// retained node in its region. A node that is no boundary node is merged
/// into the lowest boundary node in whose region it lies: its name is
/// dropped, and its size is added. A child of the root that is not marked
/// gets a node of its own only if a retained node lies in its region; an edge
/// then leads to it from the root, and from no other node. The other children
/// of the root are merged, with what they absorbed, into one node that
/// gathers what was filtered out, and that is there only if it has a size.
///
/// A node that lies in no region is lost with its size. Where the root
/// reaches every node, there is no such node.
pub fn keep_marked(di: DepInfos, mask: &Vec<bool>) -> (out: DepInfos)
    requires
        di.wf(),
        mask.len() == di@.len(),
    ensures
        out.wf(),
        filter_of(&di, mask@).is_output(out@, out.root as int),
        total_size(out@) == size_in(di@, filter_of(&di, mask@).covered(), di@.len() as int),
        connected(di@, di.root as int) ==> {
            &&& connected(out@, out.root as int)
            &&& total_size(out@) == total_size(di@)
            &&& reachable_size(out@, out.root as int) == reachable_size(di@, di.root as int)
        },
        out.metadata == fresh_metadata(di.metadata.reachable, di.metadata),
        di.metadata_consistent() ==> out.metadata_consistent(),
{
    let ghost f = filter_of(&di, mask@);
    let (kept, boundary) = boundary_flags(&di, mask, Ghost(f));
    let ab = absorb(&di, &kept, &boundary, Ghost(f));
    let made = materialize(&di, &kept, &boundary, &ab, Ghost(f));
    let mut graph = made.graph;
    let ghost nodes = graph_view(&graph);
    proof {
        assert forall|a: usize, b: usize| #[trigger]
            ab.edges@.contains((a, b)) <==> f.links(a as int, b as int) by {}
    }
    connect_regions(&mut graph, &made.new_id, &ab.edges, Ghost(f));
    proof {
        let mid = graph_view(&graph);
        assert forall|p: int, z: usize| 0 <= p < mid.len() implies (#[trigger] mid[p].succ.contains(z)
            <==> f.region_edge(p, z as int)) by {
            if f.joined(ab.edges@, ab.edges@.len() as int, p, z as int) {
                let j = choose|j: int|
                    0 <= j < ab.edges@.len() && j < ab.edges@.len() && f.rank(
                        (#[trigger] ab.edges@[j]).0 as int,
                    ) == p && f.rank(ab.edges@[j].1 as int) == z;
                assert(ab.edges@.contains(ab.edges@[j]));
                assert(f.links(ab.edges@[j].0 as int, ab.edges@[j].1 as int));
            }
            if f.region_edge(p, z as int) {
                let (a, b) = choose|a: int, b: int| #[trigger]
                    f.links(a, b) && f.rank(a) == p && f.rank(b) == z;
                assert(ab.edges@.contains((a as usize, b as usize)));
                let j = choose|j: int|
                    0 <= j < ab.edges@.len() && ab.edges@[j] == (a as usize, b as usize);
                assert(f.rank(ab.edges@[j].0 as int) == p);
            }
        }
    }
    connect_root(
        &mut graph,
        &made.new_id,
        &kept,
        &boundary,
        &ab.linked,
        di.root,
        made.remaining,
        Ghost(f),
    );
    let root = made.new_id[di.root];
    let metadata = SizeMetadata::unset(di.metadata.reachable, di.metadata.dedup);
    let out = DepInfos { graph, root, metadata };
    proof {
        let view = out@;
        lemma_rank_monotone(f, f.root, f.n());
        assert(f.materialized(f.root));
        lemma_total_size_same_weights(nodes, view);
        assert forall|v: int| 0 <= v < f.n() && f.materialized(v) implies (#[trigger] view[f.rank(
            v,
        )]).weight == f.out_vertex(v).weight by {
            lemma_rank_monotone(f, v, f.n());
            assert(nodes[f.rank(v)] == f.out_vertex(v));
        }
        assert forall|v: int, z: usize| 0 <= v < f.n() && f.materialized(v) implies (#[trigger] view[f.rank(
            v,
        )].succ.contains(z) <==> f.out_edge(v, z as int)) by {
            lemma_rank_monotone(f, v, f.n());
            lemma_out_edges(f, v, z as int);
        }
        if f.remaining() > 0 {
            assert(view.last().weight == f.gathering_vertex().weight);
            assert(view.last().succ =~= Seq::<usize>::empty()) by {
                if view.last().succ.len() > 0 {
                    let z = view.last().succ[0];
                    assert(view.last().succ.contains(z));
                    lemma_no_edge_from_gathering(f, z as int);
                }
            }
        }
        assert(closed(view)) by {
            assert forall|a: int, j: int|
                0 <= a < view.len() && 0 <= j < view[a].succ.len() implies #[trigger] view[a].succ[j]
                < view.len() by {
                let z = view[a].succ[j];
                assert(view[a].succ.contains(z));
                lemma_out_succ_in_bounds(f, a, z as int);
            }
        }
        if connected(di@, di.root as int) {
            lemma_filter_covers(f);
            lemma_filter_connected(f, view);
            lemma_connected_sizes(view, root as int);
            lemma_connected_sizes(di@, di.root as int);
        }
    }
    out
}

/// A node lies in the region of a boundary node up to `x` when it lies in
/// that of one below `x`, or in that of `x`.
pub proof fn lemma_claimed_step(f: Filter, y: int, x: int)
    requires
        0 <= x,
        f.boundary(x),
    ensures
        f.claimed_before(y, x + 1) == (f.claimed_before(y, x) || f.region(x, y)),
{
    if f.claimed_before(y, x + 1) {
        let w = choose|w: int| 0 <= w < x + 1 && f.boundary(w) && #[trigger] f.region(w, y);
        if w < x {
            assert(f.claimed_before(y, x));
        }
    }
    if f.claimed_before(y, x) {
        let w = choose|w: int| 0 <= w < x && f.boundary(w) && #[trigger] f.region(w, y);
        assert(0 <= w < x + 1 && f.boundary(w) && f.region(w, y));
    }
    if f.region(x, y) {
        assert(0 <= x < x + 1 && f.boundary(x) && f.region(x, y));
    }
}

/// A child below `v + 1` is a child below `v`, or `v`.
pub proof fn lemma_adopted_step(f: Filter, v: int, z: int)
    requires
        0 <= v,
    ensures
        f.adopted(v + 1, z) == (f.adopted(v, z) || (f.lazy(v) && f.linked(v) && z == f.rank(v))),
{
    if f.adopted(v + 1, z) {
        let y = choose|y: int| 0 <= y < v + 1 && f.lazy(y) && f.linked(y) && z == #[trigger] f.rank(y);
        if y < v {
            assert(f.adopted(v, z));
        }
    }
    if f.adopted(v, z) {
        let y = choose|y: int| 0 <= y < v && f.lazy(y) && f.linked(y) && z == #[trigger] f.rank(y);
        assert(0 <= y < v + 1);
    }
    if f.lazy(v) && f.linked(v) && z == f.rank(v) {
        assert(0 <= v < v + 1 && f.lazy(v) && f.linked(v) && z == f.rank(v));
    }
}

/// The rank grows with the node, and strictly past a materialized node.
pub proof fn lemma_rank_monotone(f: Filter, u: int, v: int)
    requires
        0 <= u <= v,
    ensures
        0 <= f.rank(u) <= f.rank(v),
        f.rank(v) <= v,
        u < v && f.materialized(u) ==> f.rank(u) < f.rank(v),
    decreases v,
{
    if u < v {
        lemma_rank_monotone(f, u, v - 1);
    } else if v > 0 {
        lemma_rank_monotone(f, 0, v - 1);
    }
}

/// Two materialized nodes of the same rank are one node.
pub proof fn lemma_rank_injective(f: Filter, u: int, v: int)
    requires
        0 <= u,
        0 <= v,
        f.materialized(u),
        f.materialized(v),
        f.rank(u) == f.rank(v),
    ensures
        u == v,
{
    if u < v {
        lemma_rank_monotone(f, u, v);
    } else if v < u {
        lemma_rank_monotone(f, v, u);
    }
}

/// The territories of two boundary nodes have no node in common.
pub proof fn lemma_territories_disjoint(f: Filter, x: int, w: int, y: int)
    requires
        f.boundary(x),
        f.boundary(w),
        x != w,
    ensures
        !(f.territory(x).contains(y) && f.territory(w).contains(y)),
{
    if f.territory(x).contains(y) && f.territory(w).contains(y) {
        if y == x {
            assert(f.absorbs(w, y));
        } else if y == w {
            assert(f.absorbs(x, y));
        } else {
            assert(f.absorbs(x, y) && f.absorbs(w, y));
            if x < w {
                assert(0 <= x < w && f.boundary(x) && f.region(x, y));
                assert(f.claimed_before(y, w));
            } else {
                assert(0 <= w < x && f.boundary(w) && f.region(w, y));
                assert(f.claimed_before(y, x));
            }
        }
    }
}

/// Going one node further gathers the territory of that node, if it is a
/// boundary node of the selection, and nothing else.
pub proof fn lemma_gathered_step(f: Filter, sel: Set<int>, k: int)
    requires
        0 <= k < f.n(),
    ensures
        size_in(f.view, f.gathered(sel, k + 1), f.n()) == size_in(
            f.view,
            f.gathered(sel, k),
            f.n(),
        ) + if sel.contains(k) && f.boundary(k) {
            f.acc(k)
        } else {
            0
        },
        0 <= size_in(f.view, f.gathered(sel, k + 1), f.n()) <= total_size(f.view),
{
    let before = f.gathered(sel, k);
    let after = f.gathered(sel, k + 1);
    if sel.contains(k) && f.boundary(k) {
        assert forall|y: int| after.contains(y) == before.union(f.territory(k)).contains(y) by {
            if after.contains(y) {
                let x = choose|x: int|
                    0 <= x < k + 1 && sel.contains(x) && f.boundary(x) && #[trigger] f.territory(
                        x,
                    ).contains(y);
                if x < k {
                    assert(before.contains(y));
                }
            }
            if before.contains(y) {
                let x = choose|x: int|
                    0 <= x < k && sel.contains(x) && f.boundary(x) && #[trigger] f.territory(
                        x,
                    ).contains(y);
                assert(0 <= x < k + 1);
            }
            if f.territory(k).contains(y) {
                assert(0 <= k < k + 1 && sel.contains(k) && f.boundary(k));
            }
        }
        assert(after =~= before.union(f.territory(k)));
        assert forall|y: int| 0 <= y < f.n() implies !(before.contains(y) && f.territory(
            k,
        ).contains(y)) by {
            if before.contains(y) {
                let x = choose|x: int|
                    0 <= x < k && sel.contains(x) && f.boundary(x) && #[trigger] f.territory(
                        x,
                    ).contains(y);
                lemma_territories_disjoint(f, x, k, y);
            }
        }
        lemma_size_in_union(f.view, before, f.territory(k), f.n());
    } else {
        assert forall|y: int| after.contains(y) == before.contains(y) by {
            if after.contains(y) {
                let x = choose|x: int|
                    0 <= x < k + 1 && sel.contains(x) && f.boundary(x) && #[trigger] f.territory(
                        x,
                    ).contains(y);
                assert(x < k);
            }
            if before.contains(y) {
                let x = choose|x: int|
                    0 <= x < k && sel.contains(x) && f.boundary(x) && #[trigger] f.territory(
                        x,
                    ).contains(y);
                assert(0 <= x < k + 1);
            }
        }
        assert(after =~= before);
    }
    lemma_size_in_subset(f.view, after, Set::full(), f.n());
}

/// An edge of the output leads to a node of the output.
proof fn lemma_out_succ_in_bounds(f: Filter, p: int, z: int)
    requires
        f.out_succ(p, z),
    ensures
        0 <= z < f.rank(f.n()) + if f.remaining() > 0 {
            1int
        } else {
            0int
        },
{
    lemma_rank_monotone(f, 0, f.n());
    if f.region_edge(p, z) {
        let (a, b) = choose|a: int, b: int| #[trigger] f.links(a, b) && f.rank(a) == p && f.rank(b) == z;
        lemma_rank_monotone(f, b, f.n());
    } else if f.adopted(f.n(), z) {
        let y = choose|y: int| 0 <= y < f.n() && f.lazy(y) && f.linked(y) && z == #[trigger] f.rank(y);
        lemma_rank_monotone(f, y, f.n());
    }
}

/// No edge of the output leaves the node that gathers what was filtered
/// out.
proof fn lemma_no_edge_from_gathering(f: Filter, z: int)
    requires
        0 <= f.root < f.n(),
    ensures
        !f.out_succ(f.rank(f.n()), z),
{
    lemma_rank_monotone(f, f.root, f.n());
    assert(f.materialized(f.root));
    if f.region_edge(f.rank(f.n()), z) {
        let (a, b) = choose|a: int, b: int| #[trigger]
            f.links(a, b) && f.rank(a) == f.rank(f.n()) && f.rank(b) == z;
        assert(f.materialized(a));
        lemma_rank_monotone(f, a, f.n());
    }
}

/// The edges that leave the node of a materialized node are those that
/// `out_edge` gives.
proof fn lemma_out_edges(f: Filter, v: int, z: int)
    requires
        0 <= f.root < f.n(),
        0 <= v < f.n(),
        f.materialized(v),
    ensures
        f.out_succ(f.rank(v), z) == f.out_edge(v, z),
{
    assert(f.materialized(f.root));
    if f.region_edge(f.rank(v), z) {
        let (a, b) = choose|a: int, b: int| #[trigger]
            f.links(a, b) && f.rank(a) == f.rank(v) && f.rank(b) == z;
        assert(f.materialized(a));
        lemma_rank_injective(f, a, v);
        assert(f.kept(b) && b != v && f.region(v, b) && z == f.rank(b));
    }
    if exists|y: int| f.kept(y) && y != v && #[trigger] f.region(v, y) && z == f.rank(y) {
        let y = choose|y: int| f.kept(y) && y != v && #[trigger] f.region(v, y) && z == f.rank(y);
        assert(f.links(v, y));
    }
    if f.rank(v) == f.rank(f.root) {
        lemma_rank_injective(f, v, f.root);
    }
    if f.adopted(f.n(), z) {
        let y = choose|y: int| 0 <= y < f.n() && f.lazy(y) && f.linked(y) && z == #[trigger] f.rank(y);
        assert(f.lazy(y) && f.linked(y) && z == f.rank(y));
    }
    if exists|y: int| f.lazy(y) && f.linked(y) && z == #[trigger] f.rank(y) {
        let y = choose|y: int| f.lazy(y) && f.linked(y) && z == #[trigger] f.rank(y);
        assert(0 <= y < f.n());
    }
}

} // verus!
