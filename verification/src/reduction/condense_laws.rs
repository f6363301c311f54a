// SPDX-License-Identifier: LGPL-3.0

//! What holds of every quotient: its classes are apart, and every node of it
//! can be reached from its root.

use crate::graph::{has_edge, Vertex};
use crate::reduction::condense::Quotient;
use crate::traversal::{
    is_traversal, is_walk, lemma_reaches_in_bounds, lemma_reaches_self, lemma_reaches_step,
    lemma_walk_reaches, reachable,
};
use vstd::prelude::*;

verus! {

/// The quotient has one node, besides the root, for each set of dependent
/// roots that is met: the nodes of two classes have different sets of
/// dependent roots, the representative of a class is one of the nodes met,
/// and each node met belongs to a class.
pub proof fn lemma_class_separation(q: Quotient)
    ensures
        forall|c: int, d: int|
            0 <= c < q.reps().len() && 0 <= d < q.reps().len() && c != d ==> q.label(
                #[trigger] q.reps()[c] as int,
            ) != q.label(#[trigger] q.reps()[d] as int),
        forall|c: int| 0 <= c < q.reps().len() ==> q.member(#[trigger] q.reps()[c] as int),
        forall|v: int|
            q.member(v) ==> exists|c: int|
                0 <= c < q.reps().len() && q.label(#[trigger] q.reps()[c] as int) == q.label(v),
{
    lemma_reps(q);
    assert forall|c: int, d: int|
        0 <= c < q.reps().len() && 0 <= d < q.reps().len() && c != d implies q.label(
        #[trigger] q.reps()[c] as int,
    ) != q.label(#[trigger] q.reps()[d] as int) by {
        if c < d {
        } else {
            assert(q.label(q.reps()[d] as int) != q.label(q.reps()[c] as int));
        }
    }
    assert forall|v: int| q.member(v) implies exists|c: int|
        0 <= c < q.reps().len() && q.label(#[trigger] q.reps()[c] as int) == q.label(v) by {
        assert(q.has_rep(q.reps(), v));
    }
}

/// The quotient has an edge between two of its nodes exactly when an edge
/// of the graph leads from a node merged into the first to a node merged
/// into the second, and no edge from a node to itself.
pub proof fn lemma_quotient_edges(q: Quotient, out: Seq<Vertex>, c1: int, c2: int)
    requires
        q.is_output(out, 0),
        0 <= c1 < out.len(),
        0 <= c2 <= usize::MAX,
    ensures
        has_edge(out, c1, c2) <==> c1 != c2 && exists|u: int, v: int|
            #[trigger] has_edge(q.view, u, v) && q.cls(u, c1) && q.cls(v, c2),
        !has_edge(out, c1, c1),
{
    if has_edge(out, c1, c2) {
        let j = choose|j: int| 0 <= j < out[c1].succ.len() && #[trigger] out[c1].succ[j] == c2;
        assert(out[c1].succ.contains(out[c1].succ[j]));
    }
    if q.out_edge(c1, c2) {
        assert(out[c1].succ.contains(c2 as usize));
        let j = choose|j: int| 0 <= j < out[c1].succ.len() && out[c1].succ[j] == c2 as usize;
        assert(out[c1].succ[j] == c2);
    }
    if has_edge(out, c1, c1) {
        let j = choose|j: int| 0 <= j < out[c1].succ.len() && #[trigger] out[c1].succ[j] == c1;
        assert(out[c1].succ.contains(out[c1].succ[j]));
    }
}

/// The sets of dependent roots of the nodes that the traversal meets,
/// other than the root.
pub open spec fn labels_met(q: Quotient) -> Set<Set<int>> {
    Set::new(|l: Set<int>| exists|v: int| #[trigger] q.member(v) && q.label(v) == l)
}

/// The quotient has as many nodes, besides the root, as there are sets of
/// dependent roots among the nodes that the traversal meets.
pub proof fn lemma_class_count(q: Quotient)
    ensures
        labels_met(q).finite(),
        labels_met(q).len() == q.reps().len(),
{
    lemma_reps(q);
    lemma_labels_of(q, q.reps().len() as int);
    let all = labels_of(q, q.reps().len() as int);
    assert forall|l: Set<int>| labels_met(q).contains(l) == all.contains(l) by {
        if labels_met(q).contains(l) {
            let v = choose|v: int| #[trigger] q.member(v) && q.label(v) == l;
            assert(q.has_rep(q.reps(), v));
            let c = choose|c: int|
                0 <= c < q.reps().len() && q.label(#[trigger] q.reps()[c] as int) == q.label(v);
            assert(all.contains(l));
        }
        if all.contains(l) {
            let c = choose|c: int|
                0 <= c < q.reps().len() && c < q.reps().len() && q.label(
                    #[trigger] q.reps()[c] as int,
                ) == l;
            assert(q.member(q.reps()[c] as int));
        }
    }
    assert(labels_met(q) =~= all);
}

/// Every node of the quotient can be reached from its root.
pub proof fn lemma_quotient_connected(q: Quotient, out: Seq<Vertex>)
    requires
        0 <= q.root < q.n(),
        q.n() <= usize::MAX,
        is_traversal(q.view, q.root, q.order),
        q.is_output(out, 0),
        q.reps().len() <= usize::MAX,
    ensures
        forall|c: int| 0 <= c < out.len() ==> reachable(out, 0, c),
{
    lemma_reps(q);
    assert forall|c: int| 0 <= c < out.len() implies reachable(out, 0, c) by {
        if c == 0 {
            lemma_reaches_self(out, Set::empty(), 0);
        } else {
            let rep = q.reps()[c - 1] as int;
            assert(q.member(rep));
            let j = choose|j: int| 0 <= j < q.order.len() && #[trigger] q.order[j] == rep;
            assert(q.order.contains(q.order[j]));
            assert(reachable(q.view, q.root, rep));
            let p = choose|p: Seq<int>|
                #[trigger] is_walk(q.view, Set::empty(), p) && p[0] == q.root && p.last() == rep;
            assert(q.cls(rep, c));
            lemma_project_walk(q, out, p, p.len() - 1, c);
        }
    }
}

/// Of the representatives among the first `i` nodes met: each is one of
/// these nodes and not the root, no two have the same label, and each of
/// these nodes but the root has the label of one of them.
pub proof fn lemma_reps_below(q: Quotient, i: int)
    requires
        0 <= i <= q.order.len(),
    ensures
        q.reps_below(i).len() <= i,
        forall|c: int|
            0 <= c < q.reps_below(i).len() ==> #[trigger] q.reps_below(i)[c] != q.root && exists|
                j: int,
            |
                0 <= j < i && #[trigger] q.order[j] == q.reps_below(i)[c],
        forall|c: int, d: int|
            0 <= c < d < q.reps_below(i).len() ==> q.label(#[trigger] q.reps_below(i)[c] as int)
                != q.label(#[trigger] q.reps_below(i)[d] as int),
        forall|j: int|
            0 <= j < i && #[trigger] q.order[j] != q.root ==> q.has_rep(
                q.reps_below(i),
                q.order[j] as int,
            ),
    decreases i,
{
    if i > 0 {
        lemma_reps_below(q, i - 1);
        let before = q.reps_below(i - 1);
        let now = q.reps_below(i);
        let v = q.order[i - 1];
        assert forall|c: int| 0 <= c < now.len() implies #[trigger] now[c] != q.root && exists|
            j: int,
        |
            0 <= j < i && #[trigger] q.order[j] == now[c] by {
            if c < before.len() {
                assert(now[c] == before[c]);
                let j = choose|j: int| 0 <= j < i - 1 && #[trigger] q.order[j] == before[c];
                assert(0 <= j < i && q.order[j] == now[c]);
            } else {
                assert(q.order[i - 1] == now[c]);
            }
        }
        assert forall|c: int, d: int| 0 <= c < d < now.len() implies q.label(
            #[trigger] now[c] as int,
        ) != q.label(#[trigger] now[d] as int) by {
            if d < before.len() {
                assert(now[c] == before[c] && now[d] == before[d]);
            } else {
                assert(now[c] == before[c]);
                let j = choose|j: int| 0 <= j < i - 1 && #[trigger] q.order[j] == before[c];
                assert(q.order[j] != q.root);
            }
        }
        assert forall|j: int| 0 <= j < i && #[trigger] q.order[j] != q.root implies q.has_rep(
            now,
            q.order[j] as int,
        ) by {
            if q.is_rep(i - 1) {
                if j < i - 1 {
                    let c = choose|c: int|
                        0 <= c < before.len() && q.label(#[trigger] before[c] as int) == q.label(
                            q.order[j] as int,
                        );
                    assert(now[c] == before[c]);
                } else {
                    assert(now[now.len() - 1] == v);
                }
            } else {
                if j < i - 1 {
                } else {
                    let k = choose|k: int|
                        0 <= k < i - 1 && #[trigger] q.order[k] != q.root && q.label(
                            q.order[k] as int,
                        ) == q.label(q.order[i - 1] as int);
                    assert(q.has_rep(before, q.order[k] as int));
                    let c = choose|c: int|
                        0 <= c < before.len() && q.label(#[trigger] before[c] as int) == q.label(
                            q.order[k] as int,
                        );
                }
            }
        }
    }
}

/// The representatives of the quotient: each is met by the traversal and is
/// not the root, no two have the same label, and each node met but the root
/// has the label of one of them.
pub proof fn lemma_reps(q: Quotient)
    ensures
        forall|c: int|
            0 <= c < q.reps().len() ==> #[trigger] q.reps()[c] != q.root && q.member(
                q.reps()[c] as int,
            ),
        forall|c: int, d: int|
            0 <= c < d < q.reps().len() ==> q.label(#[trigger] q.reps()[c] as int) != q.label(
                #[trigger] q.reps()[d] as int,
            ),
        forall|v: int| q.member(v) ==> q.has_rep(q.reps(), v),
{
    lemma_reps_below(q, q.order.len() as int);
    assert forall|c: int| 0 <= c < q.reps().len() implies #[trigger] q.reps()[c] != q.root
        && q.member(q.reps()[c] as int) by {
        let j = choose|j: int| 0 <= j < q.order.len() && #[trigger] q.order[j] == q.reps()[c];
    }
    assert forall|v: int| q.member(v) implies q.has_rep(q.reps(), v) by {
        let j = choose|j: int| 0 <= j < q.order.len() && #[trigger] q.order[j] == v;
        assert(q.order[j] != q.root);
    }
}

/// A node that can be reached from the root is merged into some node of the
/// quotient.
pub proof fn lemma_cls_exists(q: Quotient, v: int) -> (z: int)
    requires
        is_traversal(q.view, q.root, q.order),
        v <= usize::MAX,
        reachable(q.view, q.root, v),
    ensures
        q.cls(v, z),
        0 <= z <= q.reps().len(),
{
    if v == q.root {
        0
    } else {
        lemma_reaches_in_bounds(q.view, Set::empty(), q.root, v);
        assert(q.order.contains(v as usize));
        let j = choose|j: int| 0 <= j < q.order.len() && q.order[j] == v as usize;
        assert(q.order[j] == v);
        assert(q.member(v));
        lemma_reps(q);
        assert(q.has_rep(q.reps(), v));
        let c = choose|c: int|
            0 <= c < q.reps().len() && q.label(#[trigger] q.reps()[c] as int) == q.label(v);
        c + 1
    }
}

/// An edge between nodes that are merged into two nodes of the quotient is
/// an edge of the quotient.
pub proof fn lemma_quotient_edge(q: Quotient, out: Seq<Vertex>, u: int, w: int, zu: int, z: int)
    requires
        q.is_output(out, 0),
        has_edge(q.view, u, w),
        q.cls(u, zu),
        q.cls(w, z),
        zu != z,
        0 <= z <= usize::MAX,
    ensures
        0 <= zu < out.len(),
        has_edge(out, zu, z),
{
    assert(q.out_edge(zu, z));
    assert(out[zu].succ.contains(z as usize));
    let j = choose|j: int| 0 <= j < out[zu].succ.len() && out[zu].succ[j] == z as usize;
    assert(out[zu].succ[j] == z);
}

/// The node of the quotient into which a node of a walk from the root is
/// merged can be reached from the root of the quotient.
pub proof fn lemma_project_walk(q: Quotient, out: Seq<Vertex>, p: Seq<int>, k: int, z: int)
    requires
        0 <= q.root < q.n(),
        q.n() <= usize::MAX,
        is_traversal(q.view, q.root, q.order),
        q.is_output(out, 0),
        q.reps().len() <= usize::MAX,
        is_walk(q.view, Set::empty(), p),
        p[0] == q.root,
        0 <= k < p.len(),
        q.cls(p[k], z),
    ensures
        reachable(out, 0, z),
    decreases k,
{
    let w = p[k];
    if w == q.root {
        assert(z == 0);
        assert(out.len() > 0);
        lemma_reaches_self(out, Set::empty(), 0);
    } else {
        assert(k > 0);
        let u = p[k - 1];
        assert(has_edge(q.view, p[k - 1], p[k - 1 + 1]));
        lemma_walk_reaches(q.view, Set::empty(), p, k - 1);
        assert(0 <= p[k - 1] < q.n());
        let zu = lemma_cls_exists(q, u);
        lemma_project_walk(q, out, p, k - 1, zu);
        if zu != z {
            assert(1 <= z <= q.reps().len());
            assert(out.len() == q.reps().len() + 1);
            lemma_quotient_edge(q, out, u, w, zu, z);
            lemma_reaches_step(out, Set::empty(), 0, zu, z);
        }
    }
}

/// The labels of the first `k` representatives.
pub open spec fn labels_of(q: Quotient, k: int) -> Set<Set<int>> {
    Set::new(
        |l: Set<int>| exists|c: int| 0 <= c < k && c < q.reps().len() && q.label(#[trigger] q.reps()[c] as int) == l,
    )
}

/// The first `k` representatives have `k` labels.
pub proof fn lemma_labels_of(q: Quotient, k: int)
    requires
        0 <= k <= q.reps().len(),
    ensures
        labels_of(q, k).finite(),
        labels_of(q, k).len() == k,
    decreases k,
{
    if k == 0 {
        assert(labels_of(q, 0) =~= Set::empty());
    } else {
        lemma_labels_of(q, k - 1);
        lemma_reps(q);
        let before = labels_of(q, k - 1);
        let l = q.label(q.reps()[k - 1] as int);
        assert(!before.contains(l)) by {
            if before.contains(l) {
                let c = choose|c: int|
                    0 <= c < k - 1 && c < q.reps().len() && q.label(#[trigger] q.reps()[c] as int)
                        == l;
                assert(q.label(q.reps()[c] as int) != q.label(q.reps()[k - 1] as int));
            }
        }
        assert forall|m: Set<int>| labels_of(q, k).contains(m) == before.insert(l).contains(m) by {
            if labels_of(q, k).contains(m) {
                let c = choose|c: int|
                    0 <= c < k && c < q.reps().len() && q.label(#[trigger] q.reps()[c] as int)
                        == m;
                if c < k - 1 {
                    assert(before.contains(m));
                }
            }
            if before.contains(m) {
                let c = choose|c: int|
                    0 <= c < k - 1 && c < q.reps().len() && q.label(#[trigger] q.reps()[c] as int)
                        == m;
                assert(0 <= c < k);
            }
            if m == l {
                assert(0 <= k - 1 < k && q.label(q.reps()[k - 1] as int) == m);
            }
        }
        assert(labels_of(q, k) =~= before.insert(l));
    }
}

} // verus!
