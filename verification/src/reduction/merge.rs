// SPDX-License-Identifier: LGPL-3.0

//! Merging the in-memory and temporary roots below one node.

use crate::depgraph::DepInfos;
use crate::graph::{
    add_edge, add_edges_to, add_node, closed, graph_new, graph_view, has_edge, neighbors,
    node_count, node_weight, Vertex,
};
use crate::metadata::{fresh_metadata, SizeMetadata};
use crate::node::{DepNode, DescriptionView, NodeDescription, NodeView};
use crate::sizes::{
    lemma_size_in_agree, lemma_size_in_same_weights, lemma_total_size_push,
    lemma_total_size_same_weights, reachable_set, reachable_size, total_size,
};
use crate::traversal::{connected, is_walk, lemma_reaches_self, lemma_reaches_step, reachable};
use vstd::prelude::*;

verus! {

/// For each node, whether it is an in-memory or a temporary root.
pub open spec fn transient_flags(view: Seq<Vertex>) -> Seq<bool> {
    Seq::new(view.len(), |v: int| view[v].weight.description.kind().spec_is_transient())
}

/// The nodes of `s` whose flag is `want`, in their order.
pub open spec fn pick(s: Seq<usize>, flags: Seq<bool>, want: bool) -> Seq<usize>
    decreases s.len(),
{
    if s.len() == 0 {
        Seq::empty()
    } else if flags[s[0] as int] == want {
        seq![s[0]] + pick(s.drop_first(), flags, want)
    } else {
        pick(s.drop_first(), flags, want)
    }
}

/// The node that gathers the transient roots.
pub open spec fn transient_node() -> NodeView {
    NodeView { description: DescriptionView::Transient, size: 0 }
}

/// The graph in which the transient children of the root hang below one new
/// node, the last, which is the first child of the root. The other children
/// of the root, and the edges of all other nodes, are as they were.
pub open spec fn merged(view: Seq<Vertex>, root: int) -> Seq<Vertex> {
    Seq::new(
        view.len() + 1,
        |a: int|
            if a == view.len() {
                Vertex {
                    weight: transient_node(),
                    succ: pick(view[root].succ, transient_flags(view), true),
                }
            } else if a == root {
                Vertex {
                    weight: view[a].weight,
                    succ: seq![view.len() as usize] + pick(
                        view[root].succ,
                        transient_flags(view),
                        false,
                    ),
                }
            } else {
                view[a]
            },
    )
}

/// Merges all the in memory roots in one root.
pub fn merge_transient_roots(di: DepInfos) -> (out: DepInfos)
    requires
        di.wf(),
    ensures
        out.wf(),
        out@ == merged(di@, di.root as int),
        out.root == di.root,
        total_size(out@) == total_size(di@),
        reachable_size(out@, out.root as int) == reachable_size(di@, di.root as int),
        connected(di@, di.root as int) ==> connected(out@, out.root as int),
        out.metadata == fresh_metadata(di.metadata.reachable, di.metadata),
        di.metadata_consistent() ==> out.metadata_consistent(),
{
    let n = node_count(&di.graph);
    let ghost view = di@;
    let mut graph = graph_new();
    let mut flags: Vec<bool> = Vec::new();
    let mut a: usize = 0;
    while a < n
        invariant
            a <= n,
            n == di@.len(),
            view == di@,
            flags.len() == a,
            graph_view(&graph).len() == a,
            forall|b: int|
                0 <= b < a ==> #[trigger] graph_view(&graph)[b] == (Vertex {
                    weight: view[b].weight,
                    succ: Seq::empty(),
                }),
            forall|b: int| 0 <= b < a ==> #[trigger] flags[b] == transient_flags(view)[b],
        decreases n - a,
    {
        let node = node_weight(&di.graph, a);
        flags.push(node.kind().is_transient());
        add_node(&mut graph, node.duplicate());
        a += 1;
    }
    assert(flags@ =~= transient_flags(view));
    let fake_root = DepNode { description: NodeDescription::Transient, size: 0 };
    let fake_root_idx = add_node(&mut graph, fake_root);
    let mut a: usize = 0;
    while a < n
        invariant
            a <= n,
            di.wf(),
            n == di@.len(),
            view == di@,
            fake_root_idx == n,
            graph_view(&graph).len() == n + 1,
            graph_view(&graph)[n as int] == (Vertex {
                weight: transient_node(),
                succ: Seq::empty(),
            }),
            forall|b: int|
                0 <= b < n ==> #[trigger] graph_view(&graph)[b] == if b < a && b != di.root {
                    view[b]
                } else {
                    Vertex { weight: view[b].weight, succ: Seq::empty() }
                },
        decreases n - a,
    {
        if a != di.root {
            let targets = neighbors(&di.graph, a);
            assert forall|p: int| 0 <= p < targets.len() implies #[trigger] targets[p] < n + 1 by {
                assert(view[a as int].succ[p] < view.len());
            }
            add_edges_to(&mut graph, a, &targets);
            assert(targets@ + Seq::<usize>::empty() =~= targets@);
        }
        a += 1;
    }
    let roots = neighbors(&di.graph, di.root);
    assert forall|p: int| 0 <= p < roots.len() implies #[trigger] roots[p] < n by {
        assert(view[di.root as int].succ[p] < view.len());
    }
    let (transient, others) = split(&roots, &flags);
    proof {
        lemma_pick_in_bounds(roots@, flags@, true, n as int);
        lemma_pick_in_bounds(roots@, flags@, false, n as int);
    }
    add_edges_to(&mut graph, fake_root_idx, &transient);
    add_edges_to(&mut graph, di.root, &others);
    add_edge(&mut graph, di.root, fake_root_idx);
    let metadata = SizeMetadata::unset(di.metadata.reachable, di.metadata.dedup);
    let out = DepInfos { graph, root: di.root, metadata };
    proof {
        assert(transient@ + Seq::<usize>::empty() =~= transient@);
        assert(others@ + Seq::<usize>::empty() =~= others@);
        assert(out@ =~= merged(view, di.root as int));
        lemma_merged_sound(view, di.root as int);
        lemma_merge_keeps_reachable_size(view, di.root as int);
        if connected(view, di.root as int) {
            assert forall|v: int| 0 <= v < out@.len() implies reachable(out@, di.root as int, v) by {
                if v < n {
                    assert(reachable(view, di.root as int, v));
                }
            }
        }
    }
    out
}

/// Splits the nodes of `s` by their flag: those whose flag is set, and the
/// others.
fn split(s: &Vec<usize>, flags: &Vec<bool>) -> (res: (Vec<usize>, Vec<usize>))
    requires
        forall|p: int| 0 <= p < s.len() ==> #[trigger] s[p] < flags.len(),
    ensures
        res.0@ == pick(s@, flags@, true),
        res.1@ == pick(s@, flags@, false),
{
    let mut set: Vec<usize> = Vec::new();
    let mut unset: Vec<usize> = Vec::new();
    let mut p: usize = 0;
    assert(s@.take(0) =~= Seq::empty());
    while p < s.len()
        invariant
            p <= s.len(),
            forall|i: int| 0 <= i < s.len() ==> #[trigger] s[i] < flags.len(),
            set@ == pick(s@.take(p as int), flags@, true),
            unset@ == pick(s@.take(p as int), flags@, false),
        decreases s.len() - p,
    {
        let v = s[p];
        proof {
            lemma_pick_push(s@.take(p as int), v, flags@, true);
            lemma_pick_push(s@.take(p as int), v, flags@, false);
            assert(s@.take(p as int).push(v) =~= s@.take(p as int + 1));
        }
        if flags[v] {
            set.push(v);
        } else {
            unset.push(v);
        }
        p += 1;
    }
    assert(s@.take(s.len() as int) =~= s@);
    (set, unset)
}

/// A node appended to a sequence is picked last, if its flag is the one
/// wanted.
pub proof fn lemma_pick_push(s: Seq<usize>, v: usize, flags: Seq<bool>, want: bool)
    ensures
        pick(s.push(v), flags, want) == if flags[v as int] == want {
            pick(s, flags, want).push(v)
        } else {
            pick(s, flags, want)
        },
    decreases s.len(),
{
    if s.len() == 0 {
        assert(s.push(v).drop_first() =~= Seq::empty());
        assert(pick(s.push(v).drop_first(), flags, want) =~= Seq::empty());
        assert(seq![v] + Seq::<usize>::empty() =~= Seq::<usize>::empty().push(v));
    } else {
        assert(s.push(v).drop_first() =~= s.drop_first().push(v));
        lemma_pick_push(s.drop_first(), v, flags, want);
        if flags[s[0] as int] == want {
            if flags[v as int] == want {
                assert(seq![s[0]] + pick(s.drop_first(), flags, want).push(v) =~= (seq![s[0]]
                    + pick(s.drop_first(), flags, want)).push(v));
            }
        }
    }
}

/// What is picked from nodes of the graph are nodes of the graph.
pub proof fn lemma_pick_in_bounds(s: Seq<usize>, flags: Seq<bool>, want: bool, n: int)
    requires
        forall|p: int| 0 <= p < s.len() ==> #[trigger] s[p] < n,
    ensures
        forall|p: int|
            0 <= p < pick(s, flags, want).len() ==> #[trigger] pick(s, flags, want)[p] < n,
    decreases s.len(),
{
    if s.len() > 0 {
        let rest = s.drop_first();
        lemma_pick_in_bounds(rest, flags, want, n);
        let tail = pick(rest, flags, want);
        assert forall|p: int| 0 <= p < pick(s, flags, want).len() implies #[trigger] pick(
            s,
            flags,
            want,
        )[p] < n by {
            if flags[s[0] as int] == want {
                if p > 0 {
                    assert(pick(s, flags, want)[p] == tail[p - 1]);
                }
            }
        }
    }
}

/// What is picked from a sequence are its members whose flag is the one
/// wanted.
pub proof fn lemma_pick_members(s: Seq<usize>, flags: Seq<bool>, want: bool, v: usize)
    ensures
        pick(s, flags, want).contains(v) <==> s.contains(v) && flags[v as int] == want,
    decreases s.len(),
{
    let all = pick(s, flags, want);
    if s.len() == 0 {
        assert(all =~= Seq::empty());
    } else {
        let rest = s.drop_first();
        let tail = pick(rest, flags, want);
        lemma_pick_members(rest, flags, want, v);
        let head = flags[s[0] as int] == want;
        if all.contains(v) {
            let p = choose|p: int| 0 <= p < all.len() && all[p] == v;
            if head && p == 0 {
                assert(s[0] == v);
            } else {
                let t = if head {
                    p - 1
                } else {
                    p
                };
                assert(tail[t] == v);
                assert(tail.contains(v));
                assert(rest.contains(v));
                let i = choose|i: int| 0 <= i < rest.len() && rest[i] == v;
                assert(rest[i] == s[i + 1]);
                assert(s[i + 1] == v);
            }
        }
        if s.contains(v) && flags[v as int] == want {
            let i = choose|i: int| 0 <= i < s.len() && s[i] == v;
            if i == 0 {
                assert(all[0] == v);
            } else {
                assert(rest[i - 1] == s[i]);
                assert(rest.contains(v));
                assert(tail.contains(v));
                let t = choose|t: int| 0 <= t < tail.len() && tail[t] == v;
                if head {
                    assert(all[t + 1] == v);
                } else {
                    assert(all[t] == v);
                }
            }
        }
    }
}

/// The merged graph is well formed when the graph is, and as big.
pub proof fn lemma_merged_sound(view: Seq<Vertex>, root: int)
    requires
        0 <= root < view.len(),
        view.len() <= usize::MAX,
        closed(view),
    ensures
        closed(merged(view, root)),
        total_size(merged(view, root)) == total_size(view),
{
    let out = merged(view, root);
    let n = view.len() as int;
    let flags = transient_flags(view);
    assert forall|p: int| 0 <= p < view[root].succ.len() implies #[trigger] view[root].succ[p]
        < n by {}
    lemma_pick_in_bounds(view[root].succ, flags, true, n);
    lemma_pick_in_bounds(view[root].succ, flags, false, n);
    assert forall|a: int, j: int| 0 <= a < out.len() && 0 <= j < out[a].succ.len() implies #[trigger] out[a].succ[j]
        < out.len() by {
        if a == n {
        } else if a == root {
            if j > 0 {
                assert(out[a].succ[j] == pick(view[root].succ, flags, false)[j - 1]);
            }
        } else {
            assert(view[a].succ[j] < view.len());
        }
    }
    let without = out.drop_last();
    assert(out =~= without.push(out[n]));
    lemma_total_size_push(without, out[n]);
    lemma_total_size_same_weights(without, view);
}

/// An edge of the graph is found again in the merged graph, or leads there
/// from the root over the new node.
pub proof fn lemma_merged_forward(view: Seq<Vertex>, root: int, u: int, v: int)
    requires
        0 <= root < view.len(),
        view.len() <= usize::MAX,
        closed(view),
        has_edge(view, u, v),
        reachable(merged(view, root), root, u),
    ensures
        reachable(merged(view, root), root, v),
{
    let out = merged(view, root);
    let n = view.len() as int;
    let flags = transient_flags(view);
    let j = choose|j: int| 0 <= j < view[u].succ.len() && #[trigger] view[u].succ[j] == v;
    assert(view[u].succ[j] < view.len());
    if u != root {
        assert(out[u].succ[j] == v);
        assert(has_edge(out, u, v));
        lemma_reaches_step(out, Set::empty(), root, u, v);
    } else {
        assert(view[root].succ.contains(v as usize));
        lemma_pick_members(view[root].succ, flags, true, v as usize);
        lemma_pick_members(view[root].succ, flags, false, v as usize);
        if flags[v] {
            assert(out[root].succ[0] == n);
            assert(has_edge(out, root, n));
            lemma_reaches_step(out, Set::empty(), root, root, n);
            let t = choose|t: int| 0 <= t < out[n].succ.len() && out[n].succ[t] == v as usize;
            assert(out[n].succ[t] == v);
            assert(has_edge(out, n, v));
            lemma_reaches_step(out, Set::empty(), root, n, v);
        } else {
            let rest = pick(view[root].succ, flags, false);
            let t = choose|t: int| 0 <= t < rest.len() && rest[t] == v as usize;
            assert(out[root].succ[t + 1] == v);
            assert(has_edge(out, root, v));
            lemma_reaches_step(out, Set::empty(), root, root, v);
        }
    }
}

/// An edge of the merged graph that leads to a node of the graph leaves a
/// node that the root reaches in the graph, if it reaches it in the merged
/// graph, and leads to one.
pub proof fn lemma_merged_backward(view: Seq<Vertex>, root: int, u: int, v: int)
    requires
        0 <= root < view.len(),
        view.len() <= usize::MAX,
        closed(view),
        has_edge(merged(view, root), u, v),
        0 <= v < view.len(),
        u < view.len() ==> reachable(view, root, u),
    ensures
        reachable(view, root, v),
{
    let out = merged(view, root);
    let n = view.len() as int;
    let flags = transient_flags(view);
    let j = choose|j: int| 0 <= j < out[u].succ.len() && #[trigger] out[u].succ[j] == v;
    lemma_pick_members(view[root].succ, flags, true, v as usize);
    lemma_pick_members(view[root].succ, flags, false, v as usize);
    lemma_reaches_self(view, Set::empty(), root);
    if u == n {
        assert(out[n].succ.contains(v as usize));
        assert(view[root].succ.contains(v as usize));
        let t = choose|t: int| 0 <= t < view[root].succ.len() && view[root].succ[t] == v as usize;
        assert(view[root].succ[t] == v);
        assert(has_edge(view, root, v));
        lemma_reaches_step(view, Set::empty(), root, root, v);
    } else if u == root {
        assert(j > 0);
        let rest = pick(view[root].succ, flags, false);
        assert(rest[j - 1] == v);
        assert(rest.contains(v as usize));
        let t = choose|t: int| 0 <= t < view[root].succ.len() && view[root].succ[t] == v as usize;
        assert(view[root].succ[t] == v);
        assert(has_edge(view, root, v));
        lemma_reaches_step(view, Set::empty(), root, root, v);
    } else {
        assert(view[u].succ[j] == v);
        assert(has_edge(view, u, v));
        lemma_reaches_step(view, Set::empty(), root, u, v);
    }
}

/// What the root reaches along a walk of the graph, it reaches in the
/// merged graph.
pub proof fn lemma_merged_walk_forward(view: Seq<Vertex>, root: int, p: Seq<int>, k: int)
    requires
        0 <= root < view.len(),
        view.len() <= usize::MAX,
        closed(view),
        is_walk(view, Set::empty(), p),
        p[0] == root,
        0 <= k < p.len(),
    ensures
        reachable(merged(view, root), root, p[k]),
    decreases k,
{
    if k == 0 {
        lemma_reaches_self(merged(view, root), Set::empty(), root);
    } else {
        lemma_merged_walk_forward(view, root, p, k - 1);
        assert(has_edge(view, p[k - 1], p[k - 1 + 1]));
        lemma_merged_forward(view, root, p[k - 1], p[k]);
    }
}

/// What the root reaches along a walk of the merged graph, it reaches in
/// the graph, but for the new node.
pub proof fn lemma_merged_walk_backward(view: Seq<Vertex>, root: int, p: Seq<int>, k: int)
    requires
        0 <= root < view.len(),
        view.len() <= usize::MAX,
        closed(view),
        is_walk(merged(view, root), Set::empty(), p),
        p[0] == root,
        0 <= k < p.len(),
    ensures
        p[k] < view.len() ==> reachable(view, root, p[k]),
    decreases k,
{
    if k == 0 {
        lemma_reaches_self(view, Set::empty(), root);
    } else {
        lemma_merged_walk_backward(view, root, p, k - 1);
        assert(has_edge(merged(view, root), p[k - 1], p[k - 1 + 1]));
        if p[k] < view.len() {
            lemma_merged_backward(view, root, p[k - 1], p[k]);
        }
    }
}

/// Merging the transient roots keeps the reachable size: the nodes of the
/// graph that the root reaches are the same, and the new node has no size.
pub proof fn lemma_merge_keeps_reachable_size(view: Seq<Vertex>, root: int)
    requires
        0 <= root < view.len(),
        view.len() <= usize::MAX,
        closed(view),
    ensures
        forall|v: int|
            0 <= v < view.len() ==> reachable(merged(view, root), root, v) == reachable(
                view,
                root,
                v,
            ),
        reachable(merged(view, root), root, view.len() as int),
        reachable_size(merged(view, root), root) == reachable_size(view, root),
{
    let out = merged(view, root);
    let n = view.len() as int;
    assert forall|v: int| 0 <= v < n implies reachable(out, root, v) == reachable(view, root, v) by {
        if reachable(view, root, v) {
            let p = choose|p: Seq<int>|
                #[trigger] is_walk(view, Set::empty(), p) && p[0] == root && p.last() == v;
            lemma_merged_walk_forward(view, root, p, p.len() - 1);
        }
        if reachable(out, root, v) {
            let p = choose|p: Seq<int>|
                #[trigger] is_walk(out, Set::empty(), p) && p[0] == root && p.last() == v;
            lemma_merged_walk_backward(view, root, p, p.len() - 1);
        }
    }
    lemma_reaches_self(out, Set::empty(), root);
    assert(out[root].succ[0] == n);
    assert(has_edge(out, root, n));
    lemma_reaches_step(out, Set::empty(), root, root, n);
    lemma_size_in_same_weights(out, view, reachable_set(out, root), n);
    lemma_size_in_agree(view, reachable_set(out, root), reachable_set(view, root), n);
}

} // verus!
