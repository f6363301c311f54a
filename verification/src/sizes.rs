// SPDX-License-Identifier: LGPL-3.0

//! Sizes of sets of nodes, added up.

use crate::graph::Vertex;
use crate::traversal::reachable;
use vstd::prelude::*;

verus! {

/// The sizes of the vertices below `k` that lie in `s`, added up.
pub open spec fn size_in(view: Seq<Vertex>, s: Set<int>, k: int) -> int
    decreases k,
{
    if k <= 0 {
        0
    } else {
        size_in(view, s, k - 1) + if s.contains(k - 1) {
            view[k - 1].weight.size as int
        } else {
            0
        }
    }
}

/// The sizes of all vertices, added up.
pub open spec fn total_size(view: Seq<Vertex>) -> int {
    size_in(view, Set::full(), view.len() as int)
}

/// The vertices that can be reached from `root`.
pub open spec fn reachable_set(view: Seq<Vertex>, root: int) -> Set<int> {
    Set::new(|v: int| reachable(view, root, v))
}

/// The sizes of the vertices that can be reached from `root`, added up.
pub open spec fn reachable_size(view: Seq<Vertex>, root: int) -> int {
    size_in(view, reachable_set(view, root), view.len() as int)
}

/// The vertices among the first `i` of `order`.
pub open spec fn prefix_set(order: Seq<usize>, i: int) -> Set<int> {
    Set::new(|v: int| exists|j: int| 0 <= j < i && j < order.len() && #[trigger] order[j] == v)
}

/// The sets of a family with an index below `k`, taken together.
pub open spec fn union_below(family: spec_fn(int) -> Set<int>, k: int) -> Set<int> {
    Set::new(|y: int| exists|c: int| 0 <= c < k && #[trigger] family(c).contains(y))
}

/// Two sets with the same members below `k` have the same size below `k`.
pub proof fn lemma_size_in_agree(view: Seq<Vertex>, s: Set<int>, t: Set<int>, k: int)
    requires
        forall|v: int| 0 <= v < k ==> s.contains(v) == t.contains(v),
    ensures
        size_in(view, s, k) == size_in(view, t, k),
    decreases k,
{
    if k > 0 {
        lemma_size_in_agree(view, s, t, k - 1);
    }
}

/// A set without a member below `k` has no size below `k`.
pub proof fn lemma_size_in_empty(view: Seq<Vertex>, s: Set<int>, k: int)
    requires
        forall|v: int| 0 <= v < k ==> !s.contains(v),
    ensures
        size_in(view, s, k) == 0,
    decreases k,
{
    if k > 0 {
        lemma_size_in_empty(view, s, k - 1);
    }
}

/// A set weighs no more than a set that holds it, and nothing weighs less
/// than zero.
pub proof fn lemma_size_in_subset(view: Seq<Vertex>, s: Set<int>, t: Set<int>, k: int)
    requires
        forall|v: int| 0 <= v < k && s.contains(v) ==> t.contains(v),
    ensures
        0 <= size_in(view, s, k) <= size_in(view, t, k),
    decreases k,
{
    if k > 0 {
        lemma_size_in_subset(view, s, t, k - 1);
    }
}

/// A vertex that joins a set adds its own size to the size of the set.
pub proof fn lemma_size_in_insert(view: Seq<Vertex>, s: Set<int>, j: int, k: int)
    requires
        0 <= j < k,
        !s.contains(j),
    ensures
        size_in(view, s.insert(j), k) == size_in(view, s, k) + view[j].weight.size,
    decreases k,
{
    if k - 1 == j {
        lemma_size_in_agree(view, s, s.insert(j), k - 1);
    } else {
        lemma_size_in_insert(view, s, j, k - 1);
    }
}

/// Vertices at or above `k` do not count below `k`.
pub proof fn lemma_size_in_bound(view: Seq<Vertex>, s: Set<int>, k: int, n: int)
    requires
        k <= n,
    ensures
        size_in(view, s, k) <= size_in(view, s, n),
    decreases n - k,
{
    if k < n {
        lemma_size_in_bound(view, s, k, n - 1);
        lemma_size_in_subset(view, s, s, n - 1);
    }
}

/// The size of a set depends only on the weights of the vertices counted.
pub proof fn lemma_size_in_same_weights(a: Seq<Vertex>, b: Seq<Vertex>, s: Set<int>, k: int)
    requires
        k <= a.len(),
        k <= b.len(),
        forall|v: int| 0 <= v < k ==> (#[trigger] a[v]).weight.size == b[v].weight.size,
    ensures
        size_in(a, s, k) == size_in(b, s, k),
    decreases k,
{
    if k > 0 {
        lemma_size_in_same_weights(a, b, s, k - 1);
    }
}

/// Two sets without a common member below `k` weigh together what each
/// weighs.
pub proof fn lemma_size_in_union(view: Seq<Vertex>, s: Set<int>, t: Set<int>, k: int)
    requires
        forall|v: int| 0 <= v < k ==> !(s.contains(v) && t.contains(v)),
    ensures
        size_in(view, s.union(t), k) == size_in(view, s, k) + size_in(view, t, k),
    decreases k,
{
    if k > 0 {
        lemma_size_in_union(view, s, t, k - 1);
    }
}

/// A node that is appended adds its size to the total.
pub proof fn lemma_total_size_push(view: Seq<Vertex>, x: Vertex)
    ensures
        total_size(view.push(x)) == total_size(view) + x.weight.size,
{
    lemma_size_in_same_weights(view, view.push(x), Set::full(), view.len() as int);
}

/// The total depends only on the weights of the nodes.
pub proof fn lemma_total_size_same_weights(a: Seq<Vertex>, b: Seq<Vertex>)
    requires
        a.len() == b.len(),
        forall|v: int| 0 <= v < a.len() ==> (#[trigger] a[v]).weight.size == b[v].weight.size,
    ensures
        total_size(a) == total_size(b),
{
    lemma_size_in_same_weights(a, b, Set::full(), a.len() as int);
}

/// Where every node can be reached from the root, the reachable size is the
/// total size.
pub proof fn lemma_connected_sizes(view: Seq<Vertex>, root: int)
    requires
        forall|v: int| 0 <= v < view.len() ==> reachable(view, root, v),
    ensures
        reachable_size(view, root) == total_size(view),
{
    lemma_size_in_agree(view, reachable_set(view, root), Set::full(), view.len() as int);
}

/// The next vertex of a sequence without repetition joins the set of those
/// before it.
pub proof fn lemma_prefix_set_step(order: Seq<usize>, i: int)
    requires
        0 <= i < order.len(),
        order.no_duplicates(),
    ensures
        prefix_set(order, i + 1) == prefix_set(order, i).insert(order[i] as int),
        !prefix_set(order, i).contains(order[i] as int),
{
    assert forall|v: int|
        prefix_set(order, i + 1).contains(v) == prefix_set(order, i).insert(
            order[i] as int,
        ).contains(v) by {
        if prefix_set(order, i + 1).contains(v) {
            let j = choose|j: int| 0 <= j < i + 1 && j < order.len() && #[trigger] order[j] == v;
            if j < i {
                assert(prefix_set(order, i).contains(v));
            }
        }
        if prefix_set(order, i).insert(order[i] as int).contains(v) {
            if v == order[i] as int {
                assert(order[i] == v);
            } else {
                let j = choose|j: int| 0 <= j < i && j < order.len() && #[trigger] order[j] == v;
                assert(order[j] == v);
            }
        }
    }
    assert(prefix_set(order, i + 1) =~= prefix_set(order, i).insert(order[i] as int));
}

/// The first `i + 1` nodes of a sequence are the first `i` and the next.
pub proof fn lemma_prefix_set_grows(order: Seq<usize>, i: int)
    requires
        0 <= i < order.len(),
    ensures
        forall|v: int|
            prefix_set(order, i + 1).contains(v) == (prefix_set(order, i).contains(v) || v
                == order[i]),
{
    assert forall|v: int|
        prefix_set(order, i + 1).contains(v) == (prefix_set(order, i).contains(v) || v
            == order[i]) by {
        if prefix_set(order, i + 1).contains(v) {
            let j = choose|j: int| 0 <= j < i + 1 && j < order.len() && #[trigger] order[j] == v;
            if j < i {
                assert(prefix_set(order, i).contains(v));
            }
        }
        if prefix_set(order, i).contains(v) {
            let j = choose|j: int| 0 <= j < i && j < order.len() && #[trigger] order[j] == v;
            assert(0 <= j < i + 1);
        }
        if v == order[i] {
            assert(order[i] == v);
        }
    }
}

/// One more set of a family, which shares no member with those before it,
/// adds its size to theirs.
pub proof fn lemma_union_step(
    view: Seq<Vertex>,
    family: spec_fn(int) -> Set<int>,
    k: int,
    n: int,
)
    requires
        0 <= k,
        forall|c: int, y: int|
            0 <= c < k && 0 <= y < n ==> !(#[trigger] family(c).contains(y) && family(k).contains(
                y,
            )),
    ensures
        size_in(view, union_below(family, k + 1), n) == size_in(view, union_below(family, k), n)
            + size_in(view, family(k), n),
{
    let before = union_below(family, k);
    let after = union_below(family, k + 1);
    assert forall|y: int| after.contains(y) == before.union(family(k)).contains(y) by {
        if after.contains(y) {
            let c = choose|c: int| 0 <= c < k + 1 && #[trigger] family(c).contains(y);
            if c < k {
                assert(before.contains(y));
            }
        }
        if before.contains(y) {
            let c = choose|c: int| 0 <= c < k && #[trigger] family(c).contains(y);
            assert(0 <= c < k + 1);
        }
        if family(k).contains(y) {
            assert(0 <= k < k + 1);
        }
    }
    assert(after =~= before.union(family(k)));
    assert forall|y: int| 0 <= y < n implies !(before.contains(y) && family(k).contains(y)) by {
        if before.contains(y) {
            let c = choose|c: int| 0 <= c < k && #[trigger] family(c).contains(y);
        }
    }
    lemma_size_in_union(view, before, family(k), n);
}

} // verus!
