// SPDX-License-Identifier: LGPL-3.0

//! What holds of every filtered graph: where the root reaches every node, no
//! size is lost; and its roots are roots of the graph.

use crate::graph::{closed, has_edge, Vertex};
use crate::node::filtered_out_name;
use crate::reduction::filter::{lemma_rank_injective, lemma_rank_monotone, Filter};
use crate::sizes::{
    lemma_size_in_agree, lemma_size_in_empty, lemma_size_in_insert, size_in, total_size,
};
use crate::traversal::{connected, is_walk, lemma_reaches_self, lemma_reaches_step, reachable};
use vstd::prelude::*;

verus! {

/// Where every node can be reached from the root, the filter keeps the
/// size of every node: in the node of the node itself, in that of the
/// boundary node that absorbs it, or in the node that gathers what was
/// filtered out.
pub proof fn lemma_filter_covers(f: Filter)
    requires
        0 <= f.root < f.n(),
        closed(f.view),
        forall|v: int| 0 <= v < f.n() ==> reachable(f.view, f.root, v),
    ensures
        forall|y: int| 0 <= y < f.n() ==> f.covered().contains(y),
        size_in(f.view, f.covered(), f.n()) == total_size(f.view),
{
    assert forall|y: int| 0 <= y < f.n() implies f.covered().contains(y) by {
        if f.boundary(y) {
            assert(f.territory(y).contains(y));
            assert(0 <= y < f.n() && Set::<int>::full().contains(y) && f.boundary(y));
        } else {
            assert(reachable(f.view, f.root, y));
            let p = choose|p: Seq<int>|
                #[trigger] is_walk(f.view, Set::empty(), p) && p[0] == f.root && p.last() == y;
            let w = lemma_region_exists(f, p, p.len() - 1);
            assert(0 <= w < f.n() && f.boundary(w) && f.region(w, y));
            assert(f.claimed_before(y, f.n()));
            let x = lemma_first_claim(f, y, f.n());
            assert(f.absorbs(x, y));
            assert(f.territory(x).contains(y));
            assert(0 <= x < f.n() && Set::<int>::full().contains(x) && f.boundary(x));
        }
    }
    lemma_size_in_agree(f.view, f.covered(), Set::full(), f.n());
}

/// Where every node can be reached from the root, every node of the filtered
/// graph can be reached from its root.
pub proof fn lemma_filter_connected(f: Filter, out: Seq<Vertex>)
    requires
        0 <= f.root < f.n(),
        f.n() <= usize::MAX,
        closed(f.view),
        f.is_output(out, f.rank(f.root)),
        forall|v: int| 0 <= v < f.n() ==> reachable(f.view, f.root, v),
    ensures
        forall|z: int| 0 <= z < out.len() ==> reachable(out, f.rank(f.root), z),
{
    let top = f.rank(f.root);
    lemma_rank_monotone(f, f.root, f.n());
    assert(f.materialized(f.root));
    assert forall|z: int| 0 <= z < out.len() implies reachable(out, top, z) by {
        if z < f.rank(f.n()) {
            let v = lemma_rank_surjective(f, z, f.n());
            if f.kept(v) {
                assert(reachable(f.view, f.root, v));
                let p = choose|p: Seq<int>|
                    #[trigger] is_walk(f.view, Set::empty(), p) && p[0] == f.root && p.last() == v;
                lemma_filter_walk(f, out, p, p.len() - 1);
            } else {
                lemma_filter_adopted(f, out, v);
            }
        } else {
            assert(f.remaining() > 0 && z == f.rank(f.n()));
            assert(f.out_edge(f.root, z));
            lemma_filter_edge(f, out, f.root, z);
            lemma_reaches_self(out, Set::empty(), top);
            lemma_reaches_step(out, Set::empty(), top, top, z);
        }
    }
}

/// The roots of the filtered graph are roots of the graph, but for the node
/// that gathers what was filtered out: an edge from the root of the output
/// leads to the node of a child of the root, or to that node.
pub proof fn lemma_filter_roots_are_roots(f: Filter, z: int)
    requires
        0 <= f.root < f.n(),
        f.out_edge(f.root, z),
    ensures
        (exists|y: int| f.child(y) && f.materialized(y) && z == #[trigger] f.rank(y)) || (
        f.remaining() > 0 && z == f.rank(f.n())),
{
    if exists|y: int| f.kept(y) && y != f.root && #[trigger] f.region(f.root, y) && z == f.rank(y) {
        let y = choose|y: int|
            f.kept(y) && y != f.root && #[trigger] f.region(f.root, y) && z == f.rank(y);
        lemma_region_of_root(f, y);
        assert(f.child(y) && f.materialized(y) && z == f.rank(y));
    } else if exists|y: int| f.lazy(y) && f.linked(y) && z == #[trigger] f.rank(y) {
        let y = choose|y: int| f.lazy(y) && f.linked(y) && z == #[trigger] f.rank(y);
        assert(f.child(y) && f.materialized(y) && z == f.rank(y));
    }
}

/// Where the predicate holds of every node, the roots of the filtered graph
/// are the roots of the graph: each child of the root has a node of its own,
/// to which an edge leads from the root of the output, and nothing is
/// gathered as filtered out.
pub proof fn lemma_filter_keeps_all_roots(f: Filter)
    requires
        0 <= f.root < f.n(),
        f.mask.len() == f.n(),
        forall|v: int| 0 <= v < f.n() ==> #[trigger] f.mask[v],
    ensures
        f.remaining() == 0,
        forall|y: int|
            f.child(y) ==> f.materialized(y) && f.out_edge(f.root, #[trigger] f.rank(y)),
{
    assert forall|y: int| 0 <= y < f.n() implies !f.leftover().contains(y) by {
        if f.leftover().contains(y) {
            let x = choose|x: int|
                0 <= x < f.n() && f.dropped().contains(x) && f.boundary(x)
                    && #[trigger] f.territory(x).contains(y);
            assert(f.lazy(x));
            assert(f.kept(x));
        }
    }
    lemma_size_in_empty(f.view, f.leftover(), f.n());
    assert forall|y: int| f.child(y) implies f.materialized(y) && f.out_edge(
        f.root,
        #[trigger] f.rank(y),
    ) by {
        assert(f.kept(y));
        lemma_reaches_self(f.view, f.barrier(), f.root);
        lemma_reaches_step(f.view, f.barrier(), f.root, f.root, y);
        assert(f.kept(y) && y != f.root && f.region(f.root, y) && f.rank(y) == f.rank(y));
    }
}

/// Where the predicate holds of no node, and no edge leads back to the
/// root, the filtered graph has no root but the node that gathers what was
/// filtered out, which is there when anything of a size was gathered.
pub proof fn lemma_filter_drops_all_roots(f: Filter, z: int)
    requires
        0 <= f.root < f.n(),
        f.mask.len() == f.n(),
        forall|v: int| 0 <= v < f.n() ==> !#[trigger] f.mask[v],
        forall|u: int| !has_edge(f.view, u, f.root),
    ensures
        f.out_edge(f.root, z) <==> f.remaining() > 0 && z == f.rank(f.n()),
{
    if exists|y: int| f.kept(y) && y != f.root && #[trigger] f.region(f.root, y) && z == f.rank(y) {
        let y = choose|y: int|
            f.kept(y) && y != f.root && #[trigger] f.region(f.root, y) && z == f.rank(y);
        assert(f.mask[y]);
    }
    if exists|y: int| f.lazy(y) && f.linked(y) && z == #[trigger] f.rank(y) {
        let y = choose|y: int| f.lazy(y) && f.linked(y) && z == #[trigger] f.rank(y);
        let w = choose|w: int| f.kept(w) && w != y && #[trigger] f.region(y, w);
        if w != f.root {
            assert(f.mask[w]);
        }
        let p = choose|p: Seq<int>|
            #[trigger] is_walk(f.view, f.barrier(), p) && p[0] == y && p.last() == f.root;
        assert(p.len() >= 2);
        assert(has_edge(f.view, p[p.len() - 2], p[p.len() - 2 + 1]));
    }
}

/// The names of the roots of a graph: of the children of its root.
pub open spec fn root_names(view: Seq<Vertex>, root: int) -> Set<Seq<u8>> {
    Set::new(
        |name: Seq<u8>|
            exists|c: int|
                c != root && #[trigger] has_edge(view, root, c) && view[c].weight.description.name()
                    == name,
    )
}

/// A root of the filtered graph is the node of a child of the root, or the
/// node that gathers what was filtered out.
pub proof fn lemma_filter_root(f: Filter, out: Seq<Vertex>, out_root: int, c: int)
    requires
        0 <= f.root < f.n(),
        f.n() <= usize::MAX,
        f.is_output(out, out_root),
        has_edge(out, out_root, c),
    ensures
        (exists|y: int| f.child(y) && f.materialized(y) && c == #[trigger] f.rank(y)) || (
        f.remaining() > 0 && c == f.rank(f.n())),
{
    lemma_rank_monotone(f, f.root, f.n());
    assert(f.materialized(f.root));
    let j = choose|j: int| 0 <= j < out[out_root].succ.len() && #[trigger] out[out_root].succ[j] == c;
    assert(out[f.rank(f.root)].succ.contains(out[out_root].succ[j]));
    assert(f.out_edge(f.root, c));
    lemma_filter_roots_are_roots(f, c);
}

/// The roots of the filtered graph are roots of the graph, but for the node
/// that gathers what was filtered out: the name of each is the name of a
/// root of the graph, or `{filtered out}`.
pub proof fn lemma_filter_root_names(f: Filter, out: Seq<Vertex>, out_root: int)
    requires
        0 <= f.root < f.n(),
        f.n() <= usize::MAX,
        f.is_output(out, out_root),
    ensures
        forall|name: Seq<u8>| #[trigger]
            root_names(out, out_root).contains(name) ==> root_names(f.view, f.root).contains(name)
                || name == filtered_out_name(),
{
    assert forall|name: Seq<u8>| #[trigger]
        root_names(out, out_root).contains(name) implies root_names(f.view, f.root).contains(name)
        || name == filtered_out_name() by {
        let c = choose|c: int|
            c != out_root && #[trigger] has_edge(out, out_root, c)
                && out[c].weight.description.name() == name;
        lemma_filter_root(f, out, out_root, c);
        if exists|y: int| f.child(y) && f.materialized(y) && c == #[trigger] f.rank(y) {
            let y = choose|y: int| f.child(y) && f.materialized(y) && c == #[trigger] f.rank(y);
            assert(out[f.rank(y)].weight.description == f.view[y].weight.description);
            assert(y != f.root && has_edge(f.view, f.root, y));
        } else {
            assert(out.last().weight.description.name() == filtered_out_name());
        }
    }
}

/// Where the predicate holds of every node, the filtered graph has the
/// roots of the graph: the names of its roots are the names of theirs.
pub proof fn lemma_filter_keeps_root_names(f: Filter, out: Seq<Vertex>, out_root: int)
    requires
        0 <= f.root < f.n(),
        f.n() <= usize::MAX,
        closed(f.view),
        f.mask.len() == f.n(),
        forall|v: int| 0 <= v < f.n() ==> #[trigger] f.mask[v],
        f.is_output(out, out_root),
    ensures
        root_names(out, out_root) == root_names(f.view, f.root),
{
    lemma_filter_root_names(f, out, out_root);
    lemma_filter_keeps_all_roots(f);
    lemma_rank_monotone(f, f.root, f.n());
    assert(f.materialized(f.root));
    assert forall|name: Seq<u8>|
        root_names(out, out_root).contains(name) == root_names(f.view, f.root).contains(name) by {
        if root_names(out, out_root).contains(name) {
            let c = choose|c: int|
                c != out_root && #[trigger] has_edge(out, out_root, c)
                    && out[c].weight.description.name() == name;
            lemma_filter_root(f, out, out_root, c);
            let y = choose|y: int| f.child(y) && f.materialized(y) && c == #[trigger] f.rank(y);
            assert(out[f.rank(y)].weight.description == f.view[y].weight.description);
            assert(y != f.root && has_edge(f.view, f.root, y));
        }
        if root_names(f.view, f.root).contains(name) {
            let y = choose|y: int|
                y != f.root && #[trigger] has_edge(f.view, f.root, y)
                    && f.view[y].weight.description.name() == name;
            let j = choose|j: int|
                0 <= j < f.view[f.root].succ.len() && #[trigger] f.view[f.root].succ[j] == y;
            assert(f.view[f.root].succ[j] < f.view.len());
            assert(f.child(y));
            lemma_rank_monotone(f, y, f.n());
            assert(f.out_edge(f.root, f.rank(y)));
            lemma_filter_edge(f, out, f.root, f.rank(y));
            lemma_rank_injective_of(f, y);
            assert(out[f.rank(y)].weight.description == f.view[y].weight.description);
        }
    }
    assert(root_names(out, out_root) =~= root_names(f.view, f.root));
}

/// The node of a child of the root is not the node of the root.
proof fn lemma_rank_injective_of(f: Filter, y: int)
    requires
        0 <= f.root < f.n(),
        f.child(y),
        f.materialized(y),
    ensures
        f.rank(y) != f.rank(f.root),
{
    assert(f.materialized(f.root));
    if f.rank(y) == f.rank(f.root) {
        lemma_rank_injective(f, y, f.root);
    }
}

/// Where the predicate holds of no node, and no edge leads back to the
/// root, the filtered graph has one root, the node that gathers what was
/// filtered out, or none where nothing of a size was gathered. Where the
/// root reaches every node, all but the root is gathered.
pub proof fn lemma_filter_drops_root_names(f: Filter, out: Seq<Vertex>, out_root: int)
    requires
        0 <= f.root < f.n(),
        f.n() <= usize::MAX,
        closed(f.view),
        f.mask.len() == f.n(),
        forall|v: int| 0 <= v < f.n() ==> !#[trigger] f.mask[v],
        forall|u: int| !has_edge(f.view, u, f.root),
        f.is_output(out, out_root),
    ensures
        root_names(out, out_root) == if f.remaining() > 0 {
            set![filtered_out_name()]
        } else {
            Set::empty()
        },
        connected(f.view, f.root) ==> f.remaining() == total_size(f.view)
            - f.view[f.root].weight.size,
{
    lemma_rank_monotone(f, f.root, f.n());
    lemma_rank_monotone(f, 0, f.n());
    assert(f.materialized(f.root));
    let expected = if f.remaining() > 0 {
        set![filtered_out_name()]
    } else {
        Set::<Seq<u8>>::empty()
    };
    assert forall|name: Seq<u8>| root_names(out, out_root).contains(name) == expected.contains(
        name,
    ) by {
        if root_names(out, out_root).contains(name) {
            let c = choose|c: int|
                c != out_root && #[trigger] has_edge(out, out_root, c)
                    && out[c].weight.description.name() == name;
            let j = choose|j: int|
                0 <= j < out[out_root].succ.len() && #[trigger] out[out_root].succ[j] == c;
            assert(out[f.rank(f.root)].succ.contains(out[out_root].succ[j]));
            assert(f.out_edge(f.root, c));
            lemma_filter_drops_all_roots(f, c);
            assert(out.last().weight.description.name() == filtered_out_name());
        }
        if expected.contains(name) {
            let last = f.rank(f.n());
            lemma_filter_drops_all_roots(f, last);
            assert(f.out_edge(f.root, last));
            lemma_filter_edge(f, out, f.root, last);
            assert(out.last().weight.description.name() == filtered_out_name());
            assert(last != out_root);
        }
    }
    assert(root_names(out, out_root) =~= expected);
    if connected(f.view, f.root) {
        lemma_filter_covers(f);
        let rest = f.leftover();
        assert(!rest.contains(f.root)) by {
            if rest.contains(f.root) {
                let x = choose|x: int|
                    0 <= x < f.n() && f.dropped().contains(x) && f.boundary(x)
                        && #[trigger] f.territory(x).contains(f.root);
                assert(f.kept(f.root));
            }
        }
        assert forall|y: int| 0 <= y < f.n() implies rest.insert(f.root).contains(y) by {
            if y != f.root {
                assert(f.covered().contains(y));
                let x = choose|x: int|
                    0 <= x < f.n() && Set::<int>::full().contains(x) && f.boundary(x)
                        && #[trigger] f.territory(x).contains(y);
                if x == f.root {
                    assert(f.absorbs(x, y));
                    lemma_region_of_root(f, y);
                } else {
                    assert(!f.kept(x)) by {
                        if f.kept(x) {
                            assert(f.mask[x]);
                        }
                    }
                    assert(f.lazy(x));
                    if f.linked(x) {
                        lemma_rank_monotone(f, x, f.n());
                        assert(f.lazy(x) && f.linked(x) && f.rank(x) == f.rank(x));
                        assert(f.out_edge(f.root, f.rank(x)));
                        lemma_filter_drops_all_roots(f, f.rank(x));
                    }
                    assert(f.dropped().contains(x));
                }
            }
        }
        lemma_size_in_insert(f.view, rest, f.root, f.n());
        lemma_size_in_agree(f.view, rest.insert(f.root), Set::full(), f.n());
    }
}

/// Each node of a walk from the root lies in the region of a boundary node.
pub proof fn lemma_region_exists(f: Filter, p: Seq<int>, k: int) -> (x: int)
    requires
        0 <= f.root < f.n(),
        closed(f.view),
        is_walk(f.view, Set::empty(), p),
        p[0] == f.root,
        0 <= k < p.len(),
    ensures
        f.boundary(x),
        f.region(x, p[k]),
    decreases k,
{
    if k == 0 {
        lemma_reaches_self(f.view, f.barrier(), f.root);
        f.root
    } else {
        let x = lemma_region_exists(f, p, k - 1);
        let u = p[k - 1];
        assert(has_edge(f.view, p[k - 1], p[k - 1 + 1]));
        assert(0 <= p[k] < f.n());
        if f.boundary(u) {
            lemma_reaches_self(f.view, f.barrier(), u);
            lemma_reaches_step(f.view, f.barrier(), u, u, p[k]);
            u
        } else {
            lemma_reaches_step(f.view, f.barrier(), x, u, p[k]);
            x
        }
    }
}

/// A node that lies in the region of a boundary node below `k` lies in that
/// of a lowest one.
pub proof fn lemma_first_claim(f: Filter, y: int, k: int) -> (x: int)
    requires
        f.claimed_before(y, k),
    ensures
        0 <= x < k,
        f.boundary(x),
        f.region(x, y),
        !f.claimed_before(y, x),
    decreases k,
{
    let w = choose|w: int| 0 <= w < k && f.boundary(w) && #[trigger] f.region(w, y);
    if f.claimed_before(y, w) {
        lemma_first_claim(f, y, w)
    } else {
        w
    }
}

/// A node of the output below the gathering node is the node of a
/// materialized node.
pub proof fn lemma_rank_surjective(f: Filter, z: int, k: int) -> (v: int)
    requires
        0 <= z < f.rank(k),
    ensures
        0 <= v < k,
        f.materialized(v),
        f.rank(v) == z,
    decreases k,
{
    if k <= 0 {
        0
    } else if f.materialized(k - 1) && f.rank(k - 1) == z {
        k - 1
    } else {
        lemma_rank_surjective(f, z, k - 1)
    }
}

/// An edge that `out_edge` gives is an edge of the output.
pub proof fn lemma_filter_edge(f: Filter, out: Seq<Vertex>, x: int, z: int)
    requires
        0 <= f.root < f.n(),
        f.n() <= usize::MAX,
        f.is_output(out, f.rank(f.root)),
        0 <= x < f.n(),
        f.materialized(x),
        f.out_edge(x, z),
        0 <= z < out.len(),
    ensures
        0 <= f.rank(x) < out.len(),
        has_edge(out, f.rank(x), z),
{
    lemma_rank_monotone(f, x, f.n());
    lemma_rank_monotone(f, 0, f.n());
    assert(out[f.rank(x)].succ.contains(z as usize));
    let j = choose|j: int| 0 <= j < out[f.rank(x)].succ.len() && out[f.rank(x)].succ[j] == z as usize;
    assert(out[f.rank(x)].succ[j] == z);
}

/// The node of a child of the root that got a node of its own can be
/// reached from the root of the output.
pub proof fn lemma_filter_adopted(f: Filter, out: Seq<Vertex>, x: int)
    requires
        0 <= f.root < f.n(),
        f.n() <= usize::MAX,
        f.is_output(out, f.rank(f.root)),
        f.lazy(x),
        f.linked(x),
    ensures
        reachable(out, f.rank(f.root), f.rank(x)),
{
    lemma_rank_monotone(f, x, f.n());
    lemma_rank_monotone(f, f.root, f.n());
    assert(f.materialized(f.root));
    assert(f.out_edge(f.root, f.rank(x)));
    lemma_filter_edge(f, out, f.root, f.rank(x));
    lemma_reaches_self(out, Set::empty(), f.rank(f.root));
    lemma_reaches_step(out, Set::empty(), f.rank(f.root), f.rank(f.root), f.rank(x));
}

/// Along a walk from the root: each node lies in the region of a boundary
/// node whose node, if it is retained, can be reached from the root of the
/// output; and so can the node of the node itself, if it is retained.
pub proof fn lemma_filter_walk(f: Filter, out: Seq<Vertex>, p: Seq<int>, k: int) -> (x: int)
    requires
        0 <= f.root < f.n(),
        f.n() <= usize::MAX,
        closed(f.view),
        f.is_output(out, f.rank(f.root)),
        is_walk(f.view, Set::empty(), p),
        p[0] == f.root,
        0 <= k < p.len(),
    ensures
        f.boundary(x),
        f.region(x, p[k]),
        f.kept(x) ==> reachable(out, f.rank(f.root), f.rank(x)),
        f.kept(p[k]) ==> reachable(out, f.rank(f.root), f.rank(p[k])),
    decreases k,
{
    let top = f.rank(f.root);
    lemma_rank_monotone(f, f.root, f.n());
    assert(f.materialized(f.root));
    if k == 0 {
        lemma_reaches_self(f.view, f.barrier(), f.root);
        lemma_reaches_self(out, Set::empty(), top);
        f.root
    } else {
        let before = lemma_filter_walk(f, out, p, k - 1);
        let u = p[k - 1];
        let w = p[k];
        assert(has_edge(f.view, p[k - 1], p[k - 1 + 1]));
        assert(0 <= p[k] < f.n());
        let x = if f.boundary(u) {
            lemma_reaches_self(f.view, f.barrier(), u);
            lemma_reaches_step(f.view, f.barrier(), u, u, w);
            u
        } else {
            lemma_reaches_step(f.view, f.barrier(), before, u, w);
            before
        };
        if f.kept(w) && x != w {
            lemma_rank_monotone(f, w, f.n());
            assert(f.kept(w) && w != x && f.region(x, w));
            assert(f.linked(x));
            assert(f.materialized(x));
            if !f.kept(x) {
                lemma_filter_adopted(f, out, x);
            }
            assert(f.out_edge(x, f.rank(w)));
            lemma_filter_edge(f, out, x, f.rank(w));
            lemma_reaches_step(out, Set::empty(), top, f.rank(x), f.rank(w));
        }
        x
    }
}

/// A node other than the root in the region of the root is a child of the
/// root.
pub proof fn lemma_region_of_root(f: Filter, y: int)
    requires
        0 <= f.root < f.n(),
        f.region(f.root, y),
        y != f.root,
    ensures
        f.child(y),
{
    let p = choose|p: Seq<int>|
        #[trigger] is_walk(f.view, f.barrier(), p) && p[0] == f.root && p.last() == y;
    assert(p.len() >= 2);
    assert(has_edge(f.view, p[0int], p[0int + 1]));
    assert(0 <= p[1] < f.n());
    if p.len() > 2 {
        assert(!f.barrier().contains(p[1]));
        if p[1] == f.root {
            assert(f.kept(p[1]));
        } else {
            assert(f.child(p[1]));
        }
        assert(f.boundary(p[1]));
    }
}

} // verus!
