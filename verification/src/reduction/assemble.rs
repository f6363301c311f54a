// SPDX-License-Identifier: LGPL-3.0

//! The second half of the filter: making the graph of what is retained.

use crate::depgraph::DepInfos;
use crate::graph::{add_edge, add_node, graph_new, graph_view, node_count, node_weight, DepGraph};
use crate::node::{DepNode, NodeDescription};
use crate::reduction::absorb::Absorption;
use crate::reduction::filter::{
    lemma_adopted_step, lemma_gathered_step, lemma_rank_injective, lemma_rank_monotone, Filter,
};
use crate::sizes::{
    lemma_size_in_empty, lemma_size_in_subset, lemma_total_size_push, size_in, total_size,
};
use vstd::prelude::*;

verus! {

/// The nodes of the output, without edges.
pub(crate) struct Materialized {
    pub(crate) graph: DepGraph,
    /// for each node of the input, its rank
    pub(crate) new_id: Vec<usize>,
    /// the size of what was filtered out
    pub(crate) remaining: u64,
}

/// Makes the nodes of the output: one for each materialized node, then the
/// node that gathers what was filtered out, if that has any size.
pub(crate) fn materialize(
    di: &DepInfos,
    kept: &Vec<bool>,
    boundary: &Vec<bool>,
    ab: &Absorption,
    Ghost(f): Ghost<Filter>,
) -> (res: Materialized)
    requires
        di.wf(),
        f.view == di@,
        f.root == di.root,
        f.mask.len() == di@.len(),
        kept.len() == di@.len(),
        boundary.len() == di@.len(),
        forall|v: int| 0 <= v < di@.len() ==> kept[v] == f.kept(v),
        forall|v: int| 0 <= v < di@.len() ==> boundary[v] == f.boundary(v),
        ab.acc.len() == di@.len(),
        ab.linked.len() == di@.len(),
        forall|v: int| 0 <= v < di@.len() && f.boundary(v) ==> #[trigger] ab.acc[v] == f.acc(v),
        forall|v: int|
            0 <= v < di@.len() ==> #[trigger] ab.linked[v] == (f.boundary(v) && f.linked(v)),
    ensures
        graph_view(&res.graph).len() == f.rank(f.n()) + if f.remaining() > 0 {
            1int
        } else {
            0int
        },
        res.new_id.len() == di@.len(),
        forall|v: int| 0 <= v < di@.len() ==> #[trigger] res.new_id[v] == f.rank(v),
        res.remaining == f.remaining(),
        forall|v: int|
            0 <= v < di@.len() && f.materialized(v) ==> #[trigger] graph_view(&res.graph)[f.rank(v)]
                == f.out_vertex(v),
        f.remaining() > 0 ==> graph_view(&res.graph).last() == f.gathering_vertex(),
        forall|p: int|
            0 <= p < graph_view(&res.graph).len() ==> (#[trigger] graph_view(&res.graph)[p]).succ
                == Seq::<usize>::empty(),
        total_size(graph_view(&res.graph)) == size_in(f.view, f.covered(), f.n()),
        total_size(graph_view(&res.graph)) <= u64::MAX,
{
    let n = node_count(&di.graph);
    let ghost view = di@;
    let mut graph = graph_new();
    let mut new_id: Vec<usize> = Vec::new();
    let mut remaining: u64 = 0;
    let mut v: usize = 0;
    proof {
        lemma_size_in_empty(view, f.gathered(f.chosen(), 0), n as int);
        lemma_size_in_empty(view, f.gathered(f.dropped(), 0), n as int);
        lemma_size_in_empty(view, f.gathered(Set::full(), 0), n as int);
    }
    while v < n
        invariant
            v <= n,
            di.wf(),
            n == di@.len(),
            view == di@,
            f.view == view,
            f.root == di.root,
            f.mask.len() == n,
            kept.len() == n,
            boundary.len() == n,
            ab.acc.len() == n,
            ab.linked.len() == n,
            forall|u: int| 0 <= u < n ==> kept[u] == f.kept(u),
            forall|u: int| 0 <= u < n ==> boundary[u] == f.boundary(u),
            forall|u: int| 0 <= u < n && f.boundary(u) ==> #[trigger] ab.acc[u] == f.acc(u),
            forall|u: int| 0 <= u < n ==> #[trigger] ab.linked[u] == (f.boundary(u) && f.linked(u)),
            graph_view(&graph).len() == f.rank(v as int),
            new_id.len() == v,
            forall|u: int| 0 <= u < v ==> #[trigger] new_id[u] == f.rank(u),
            forall|u: int|
                0 <= u < v && f.materialized(u) ==> #[trigger] graph_view(&graph)[f.rank(u)]
                    == f.out_vertex(u),
            forall|p: int|
                0 <= p < graph_view(&graph).len() ==> (#[trigger] graph_view(&graph)[p]).succ
                    == Seq::<usize>::empty(),
            total_size(graph_view(&graph)) == size_in(
                view,
                f.gathered(f.chosen(), v as int),
                n as int,
            ),
            remaining == size_in(view, f.gathered(f.dropped(), v as int), n as int),
            total_size(graph_view(&graph)) + remaining == size_in(
                view,
                f.gathered(Set::full(), v as int),
                n as int,
            ),
        decreases n - v,
    {
        proof {
            lemma_gathered_step(f, f.chosen(), v as int);
            lemma_gathered_step(f, f.dropped(), v as int);
            lemma_gathered_step(f, Set::full(), v as int);
            lemma_rank_monotone(f, 0, v as int);
        }
        let ghost before = graph_view(&graph);
        new_id.push(node_count(&graph));
        if kept[v] || (boundary[v] && ab.linked[v]) {
            assert(f.materialized(v as int));
            let node = DepNode {
                description: node_weight(&di.graph, v).description.duplicate(),
                size: ab.acc[v],
            };
            add_node(&mut graph, node);
            proof {
                lemma_total_size_push(before, f.out_vertex(v as int));
                assert forall|u: int| 0 <= u < v + 1 && f.materialized(u) implies #[trigger] graph_view(
                    &graph,
                )[f.rank(u)] == f.out_vertex(u) by {
                    if u < v {
                        lemma_rank_monotone(f, u, v as int);
                        assert(before[f.rank(u)] == f.out_vertex(u));
                    }
                }
            }
        } else if boundary[v] {
            assert(f.dropped().contains(v as int));
            assert(!f.materialized(v as int));
            remaining = remaining + ab.acc[v];
        } else {
            assert(!f.materialized(v as int));
        }
        v += 1;
    }
    proof {
        assert(f.gathered(Set::full(), n as int) == f.covered());
        assert(f.gathered(f.dropped(), n as int) == f.leftover());
        lemma_size_in_subset(view, f.covered(), Set::full(), n as int);
    }
    if remaining > 0 {
        let ghost before = graph_view(&graph);
        add_node(&mut graph, DepNode { description: NodeDescription::FilteredOut, size: remaining });
        proof {
            lemma_total_size_push(before, f.gathering_vertex());
            assert(graph_view(&graph).last() == f.gathering_vertex());
            assert forall|u: int| 0 <= u < n && f.materialized(u) implies #[trigger] graph_view(
                &graph,
            )[f.rank(u)] == f.out_vertex(u) by {
                lemma_rank_monotone(f, u, n as int);
                assert(before[f.rank(u)] == f.out_vertex(u));
            }
        }
    }
    Materialized { graph, new_id, remaining }
}

/// Adds to the output an edge for each pair of a boundary node and a
/// retained node in its region.
pub(crate) fn connect_regions(
    graph: &mut DepGraph,
    new_id: &Vec<usize>,
    edges: &Vec<(usize, usize)>,
    Ghost(f): Ghost<Filter>,
)
    requires
        new_id.len() == f.n(),
        forall|v: int| 0 <= v < f.n() ==> #[trigger] new_id[v] == f.rank(v),
        forall|a: usize, b: usize|
            #[trigger] edges@.contains((a, b)) <==> f.links(a as int, b as int),
        edges@.no_duplicates(),
        f.rank(f.n()) <= graph_view(old(graph)).len(),
        forall|p: int|
            0 <= p < graph_view(old(graph)).len() ==> (#[trigger] graph_view(old(graph))[p]).succ
                == Seq::<usize>::empty(),
    ensures
        graph_view(final(graph)).len() == graph_view(old(graph)).len(),
        forall|p: int|
            0 <= p < graph_view(old(graph)).len() ==> (#[trigger] graph_view(final(graph))[p]).weight
                == graph_view(old(graph))[p].weight,
        forall|p: int, z: usize|
            0 <= p < graph_view(old(graph)).len() ==> (#[trigger] graph_view(
                final(graph),
            )[p].succ.contains(z) <==> f.joined(edges@, edges@.len() as int, p, z as int)),
        forall|p: int|
            0 <= p < graph_view(old(graph)).len() ==> (#[trigger] graph_view(
                final(graph),
            )[p]).succ.no_duplicates(),
{
    let ghost start = graph_view(graph);
    let mut i: usize = 0;
    while i < edges.len()
        invariant
            i <= edges.len(),
            new_id.len() == f.n(),
            forall|v: int| 0 <= v < f.n() ==> #[trigger] new_id[v] == f.rank(v),
            forall|a: usize, b: usize|
                #[trigger] edges@.contains((a, b)) <==> f.links(a as int, b as int),
            edges@.no_duplicates(),
            f.rank(f.n()) <= start.len(),
            graph_view(graph).len() == start.len(),
            forall|p: int|
                0 <= p < start.len() ==> (#[trigger] graph_view(graph)[p]).weight
                    == start[p].weight,
            forall|p: int, z: usize|
                0 <= p < start.len() ==> (#[trigger] graph_view(graph)[p].succ.contains(z)
                    <==> f.joined(edges@, i as int, p, z as int)),
            forall|p: int|
                0 <= p < start.len() ==> (#[trigger] graph_view(graph)[p]).succ.no_duplicates(),
        decreases edges.len() - i,
    {
        let (a, b) = edges[i];
        let ghost before = graph_view(graph);
        proof {
            assert(edges@.contains((a, b)));
            assert(f.links(a as int, b as int));
            assert(f.materialized(a as int) && f.materialized(b as int));
            lemma_rank_monotone(f, a as int, f.n());
            lemma_rank_monotone(f, b as int, f.n());
        }
        let from = new_id[a];
        let to = new_id[b];
        add_edge(graph, from, to);
        proof {
            let after = graph_view(graph);
            assert(!before[from as int].succ.contains(to)) by {
                if before[from as int].succ.contains(to) {
                    assert(f.joined(edges@, i as int, from as int, to as int));
                    let j = choose|j: int|
                        0 <= j < i && j < edges@.len() && f.rank((#[trigger] edges@[j]).0 as int)
                            == from && f.rank(edges@[j].1 as int) == to;
                    assert(edges@.contains(edges@[j]));
                    assert(f.links(edges@[j].0 as int, edges@[j].1 as int));
                    lemma_rank_injective(f, edges@[j].0 as int, a as int);
                    lemma_rank_injective(f, edges@[j].1 as int, b as int);
                    assert(edges@[j] == edges@[i as int]);
                }
            }
            assert(after[from as int].succ == seq![to] + before[from as int].succ);
            assert forall|p: int, z: usize| 0 <= p < start.len() implies (#[trigger] after[p].succ.contains(
                z,
            ) <==> f.joined(edges@, i as int + 1, p, z as int)) by {
                if f.joined(edges@, i as int + 1, p, z as int) {
                    let j = choose|j: int|
                        0 <= j < i + 1 && j < edges@.len() && f.rank(
                            (#[trigger] edges@[j]).0 as int,
                        ) == p && f.rank(edges@[j].1 as int) == z;
                    if j < i {
                        assert(f.joined(edges@, i as int, p, z as int));
                        assert(before[p].succ.contains(z));
                        if p == from {
                            let q = choose|q: int|
                                0 <= q < before[p].succ.len() && before[p].succ[q] == z;
                            assert(after[p].succ[q + 1] == z);
                        }
                    } else {
                        assert(after[p].succ[0] == z);
                    }
                }
                if after[p].succ.contains(z) {
                    if p == from {
                        let q = choose|q: int| 0 <= q < after[p].succ.len() && after[p].succ[q] == z;
                        if q == 0 {
                            assert(f.rank(edges@[i as int].0 as int) == p);
                        } else {
                            assert(before[p].succ[q - 1] == z);
                            assert(before[p].succ.contains(z));
                            let j = choose|j: int|
                                0 <= j < i && j < edges@.len() && f.rank(
                                    (#[trigger] edges@[j]).0 as int,
                                ) == p && f.rank(edges@[j].1 as int) == z;
                            assert(0 <= j < i + 1);
                        }
                    } else {
                        assert(before[p].succ.contains(z));
                        let j = choose|j: int|
                            0 <= j < i && j < edges@.len() && f.rank(
                                (#[trigger] edges@[j]).0 as int,
                            ) == p && f.rank(edges@[j].1 as int) == z;
                        assert(0 <= j < i + 1);
                    }
                }
            }
        }
        i += 1;
    }
}

/// Adds to the output the edges from the root to the children that got a
/// node of their own, and to the node that gathers what was filtered out.
pub(crate) fn connect_root(
    graph: &mut DepGraph,
    new_id: &Vec<usize>,
    kept: &Vec<bool>,
    boundary: &Vec<bool>,
    linked: &Vec<bool>,
    root: usize,
    remaining: u64,
    Ghost(f): Ghost<Filter>,
)
    requires
        0 <= f.root < f.n(),
        root == f.root,
        remaining == f.remaining(),
        new_id.len() == f.n(),
        kept.len() == f.n(),
        boundary.len() == f.n(),
        linked.len() == f.n(),
        forall|v: int| 0 <= v < f.n() ==> #[trigger] new_id[v] == f.rank(v),
        forall|v: int| 0 <= v < f.n() ==> kept[v] == f.kept(v),
        forall|v: int| 0 <= v < f.n() ==> boundary[v] == f.boundary(v),
        forall|v: int| 0 <= v < f.n() ==> #[trigger] linked[v] == (f.boundary(v) && f.linked(v)),
        graph_view(old(graph)).len() == f.rank(f.n()) + if f.remaining() > 0 {
            1int
        } else {
            0int
        },
        forall|p: int, z: usize|
            0 <= p < graph_view(old(graph)).len() ==> (#[trigger] graph_view(
                old(graph),
            )[p].succ.contains(z) <==> f.region_edge(p, z as int)),
        forall|p: int|
            0 <= p < graph_view(old(graph)).len() ==> (#[trigger] graph_view(
                old(graph),
            )[p]).succ.no_duplicates(),
    ensures
        graph_view(final(graph)).len() == graph_view(old(graph)).len(),
        forall|p: int|
            0 <= p < graph_view(old(graph)).len() ==> (#[trigger] graph_view(final(graph))[p]).weight
                == graph_view(old(graph))[p].weight,
        forall|p: int, z: usize|
            0 <= p < graph_view(old(graph)).len() ==> (#[trigger] graph_view(
                final(graph),
            )[p].succ.contains(z) <==> f.out_succ(p, z as int)),
        forall|p: int|
            0 <= p < graph_view(old(graph)).len() ==> (#[trigger] graph_view(
                final(graph),
            )[p]).succ.no_duplicates(),
{
    let n = new_id.len();
    let ghost start = graph_view(graph);
    let top = new_id[root];
    proof {
        assert(f.materialized(root as int));
        lemma_rank_monotone(f, root as int, n as int);
    }
    let mut v: usize = 0;
    while v < n
        invariant
            v <= n,
            n == f.n(),
            0 <= f.root < f.n(),
            root == f.root,
            top == f.rank(root as int),
            top < f.rank(f.n()) <= start.len(),
            new_id.len() == n,
            kept.len() == n,
            boundary.len() == n,
            linked.len() == n,
            forall|u: int| 0 <= u < n ==> #[trigger] new_id[u] == f.rank(u),
            forall|u: int| 0 <= u < n ==> kept[u] == f.kept(u),
            forall|u: int| 0 <= u < n ==> boundary[u] == f.boundary(u),
            forall|u: int| 0 <= u < n ==> #[trigger] linked[u] == (f.boundary(u) && f.linked(u)),
            graph_view(graph).len() == start.len(),
            forall|p: int|
                0 <= p < start.len() ==> (#[trigger] graph_view(graph)[p]).weight
                    == start[p].weight,
            forall|p: int, z: usize|
                0 <= p < start.len() ==> (#[trigger] graph_view(graph)[p].succ.contains(z) <==> (
                f.region_edge(p, z as int) || (p == top && f.adopted(v as int, z as int)))),
            forall|p: int|
                0 <= p < start.len() ==> (#[trigger] graph_view(graph)[p]).succ.no_duplicates(),
        decreases n - v,
    {
        let ghost before = graph_view(graph);
        if boundary[v] && !kept[v] && linked[v] {
            let to = new_id[v];
            proof {
                assert(f.lazy(v as int) && f.linked(v as int));
                assert(f.materialized(v as int));
                lemma_rank_monotone(f, v as int, n as int);
                assert(!before[top as int].succ.contains(to)) by {
                    if f.region_edge(top as int, to as int) {
                        let (a, b) = choose|a: int, b: int| #[trigger]
                            f.links(a, b) && f.rank(a) == top && f.rank(b) == to;
                        lemma_rank_injective(f, b, v as int);
                    }
                    if f.adopted(v as int, to as int) {
                        let y = choose|y: int|
                            0 <= y < v && f.lazy(y) && f.linked(y) && to == #[trigger] f.rank(y);
                        lemma_rank_injective(f, y, v as int);
                    }
                }
            }
            add_edge(graph, top, to);
            proof {
                let after = graph_view(graph);
                assert(after[top as int].succ == seq![to] + before[top as int].succ);
                assert forall|p: int, z: usize| 0 <= p < start.len() implies (#[trigger] after[p].succ.contains(
                    z,
                ) <==> (f.region_edge(p, z as int) || (p == top && f.adopted(
                    v as int + 1,
                    z as int,
                )))) by {
                    lemma_adopted_step(f, v as int, z as int);
                    if p == top {
                        if after[p].succ.contains(z) {
                            let q = choose|q: int|
                                0 <= q < after[p].succ.len() && after[p].succ[q] == z;
                            if q > 0 {
                                assert(before[p].succ[q - 1] == z);
                                assert(before[p].succ.contains(z));
                            }
                        }
                        if before[p].succ.contains(z) {
                            let q = choose|q: int|
                                0 <= q < before[p].succ.len() && before[p].succ[q] == z;
                            assert(after[p].succ[q + 1] == z);
                        }
                        if z == to {
                            assert(after[p].succ[0] == z);
                        }
                    }
                }
            }
        } else {
            proof {
                assert(kept[v as int] == f.kept(v as int));
                assert(boundary[v as int] == f.boundary(v as int));
                assert(linked[v as int] == (f.boundary(v as int) && f.linked(v as int)));
                assert(!(f.lazy(v as int) && f.linked(v as int)));
                assert forall|z: int| f.adopted(v as int + 1, z) == f.adopted(v as int, z) by {
                    lemma_adopted_step(f, v as int, z);
                }
            }
        }
        v += 1;
    }
    if remaining > 0 {
        let ghost before = graph_view(graph);
        let last = node_count(graph) - 1;
        proof {
            assert(last == f.rank(f.n()));
            assert(!before[top as int].succ.contains(last)) by {
                if f.region_edge(top as int, last as int) {
                    let (a, b) = choose|a: int, b: int| #[trigger]
                        f.links(a, b) && f.rank(a) == top && f.rank(b) == last;
                    lemma_rank_monotone(f, b, f.n());
                }
                if f.adopted(n as int, last as int) {
                    let y = choose|y: int|
                        0 <= y < n && f.lazy(y) && f.linked(y) && last == #[trigger] f.rank(y);
                    lemma_rank_monotone(f, y, f.n());
                }
            }
        }
        add_edge(graph, top, last);
        proof {
            let after = graph_view(graph);
            assert(after[top as int].succ == seq![last] + before[top as int].succ);
            assert forall|p: int, z: usize| 0 <= p < start.len() implies (#[trigger] after[p].succ.contains(
                z,
            ) <==> f.out_succ(p, z as int)) by {
                if p == top {
                    if after[p].succ.contains(z) {
                        let q = choose|q: int| 0 <= q < after[p].succ.len() && after[p].succ[q] == z;
                        if q > 0 {
                            assert(before[p].succ[q - 1] == z);
                            assert(before[p].succ.contains(z));
                        }
                    }
                    if before[p].succ.contains(z) {
                        let q = choose|q: int|
                            0 <= q < before[p].succ.len() && before[p].succ[q] == z;
                        assert(after[p].succ[q + 1] == z);
                    }
                    if z == last {
                        assert(after[p].succ[0] == z);
                    }
                }
            }
        }
    }
}

} // verus!
