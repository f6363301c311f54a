// SPDX-License-Identifier: LGPL-3.0

//! The first half of the filter: walking through the regions of the boundary
//! nodes and folding the sizes of the nodes that are dropped.

use crate::depgraph::DepInfos;
use crate::graph::{has_edge, neighbors, node_count, node_weight};
use crate::reduction::filter::{lemma_claimed_step, Filter};
use crate::sizes::{
    lemma_prefix_set_step, lemma_size_in_empty, lemma_size_in_insert, lemma_size_in_subset,
    prefix_set, size_in,
};
use crate::traversal::{lemma_reaches_in_bounds, marked, region_order};
use vstd::prelude::*;

verus! {

/// What the walks through all regions yield.
pub(crate) struct Absorption {
    /// for each boundary node, the size of its territory
    pub(crate) acc: Vec<u64>,
    /// for each node, whether it is a boundary node with a retained node in
    /// its region
    pub(crate) linked: Vec<bool>,
    /// the pairs of a boundary node and a retained node in its region
    pub(crate) edges: Vec<(usize, usize)>,
}

/// For each node, whether it is retained for its own sake, and whether it
/// bounds the regions.
pub(crate) fn boundary_flags(di: &DepInfos, mask: &Vec<bool>, Ghost(f): Ghost<Filter>) -> (res: (
    Vec<bool>,
    Vec<bool>,
))
    requires
        di.wf(),
        f.view == di@,
        f.root == di.root,
        f.mask == mask@,
        mask.len() == di@.len(),
    ensures
        res.0.len() == di@.len(),
        res.1.len() == di@.len(),
        forall|v: int| 0 <= v < di@.len() ==> res.0[v] == f.kept(v),
        forall|v: int| 0 <= v < di@.len() ==> res.1[v] == f.boundary(v),
        marked(res.1@) == f.barrier(),
{
    let n = node_count(&di.graph);
    let children = child_flags(di);
    let mut kept: Vec<bool> = Vec::new();
    let mut boundary: Vec<bool> = Vec::new();
    let mut v: usize = 0;
    while v < n
        invariant
            v <= n,
            n == di@.len(),
            f.view == di@,
            f.root == di.root,
            f.mask == mask@,
            mask.len() == n,
            children.len() == n,
            forall|u: int|
                0 <= u < n ==> children[u] == (u != di.root && has_edge(di@, di.root as int, u)),
            kept.len() == v,
            boundary.len() == v,
            forall|u: int| 0 <= u < v ==> kept[u] == f.kept(u),
            forall|u: int| 0 <= u < v ==> boundary[u] == f.boundary(u),
        decreases n - v,
    {
        let k = v == di.root || mask[v];
        kept.push(k);
        boundary.push(k || children[v]);
        v += 1;
    }
    assert(marked(boundary@) =~= f.barrier());
    (kept, boundary)
}

/// For each node, whether it is a child of the root.
fn child_flags(di: &DepInfos) -> (res: Vec<bool>)
    requires
        di.wf(),
    ensures
        res.len() == di@.len(),
        forall|v: int|
            0 <= v < di@.len() ==> res[v] == (v != di.root && has_edge(di@, di.root as int, v)),
{
    let n = node_count(&di.graph);
    let roots = neighbors(&di.graph, di.root);
    let mut flags: Vec<bool> = vec![false; n];
    let mut i: usize = 0;
    while i < roots.len()
        invariant
            i <= roots.len(),
            di.wf(),
            n == di@.len(),
            roots@ == di@[di.root as int].succ,
            flags.len() == n,
            forall|v: int|
                0 <= v < n ==> flags[v] == (v != di.root && exists|j: int|
                    0 <= j < i && #[trigger] roots@[j] == v),
        decreases roots.len() - i,
    {
        let r = roots[i];
        assert(di@[di.root as int].succ[i as int] < di@.len());
        if r != di.root {
            flags.set(r, true);
        }
        i += 1;
    }
    flags
}

/// Walks through the region of each boundary node, the lowest first.
pub(crate) fn absorb(di: &DepInfos, kept: &Vec<bool>, boundary: &Vec<bool>, Ghost(f): Ghost<Filter>) -> (res:
    Absorption)
    requires
        di.wf(),
        f.view == di@,
        f.root == di.root,
        f.mask.len() == di@.len(),
        kept.len() == di@.len(),
        boundary.len() == di@.len(),
        forall|v: int| 0 <= v < di@.len() ==> kept[v] == f.kept(v),
        forall|v: int| 0 <= v < di@.len() ==> boundary[v] == f.boundary(v),
        marked(boundary@) == f.barrier(),
    ensures
        res.acc.len() == di@.len(),
        res.linked.len() == di@.len(),
        forall|v: int| 0 <= v < di@.len() && f.boundary(v) ==> #[trigger] res.acc[v] == f.acc(v),
        forall|v: int|
            0 <= v < di@.len() ==> #[trigger] res.linked[v] == (f.boundary(v) && f.linked(v)),
        forall|a: usize, b: usize|
            #[trigger] res.edges@.contains((a, b)) <==> f.boundary(a as int) && f.kept(b as int)
                && b != a && f.region(a as int, b as int),
        res.edges@.no_duplicates(),
{
    let n = node_count(&di.graph);
    let ghost view = di@;
    let mut acc: Vec<u64> = Vec::new();
    let mut absorbed: Vec<bool> = Vec::new();
    let mut linked: Vec<bool> = Vec::new();
    let mut edges: Vec<(usize, usize)> = Vec::new();
    let mut v: usize = 0;
    while v < n
        invariant
            v <= n,
            n == di@.len(),
            view == di@,
            boundary.len() == n,
            acc.len() == v,
            absorbed.len() == v,
            linked.len() == v,
            forall|u: int| 0 <= u < v ==> #[trigger] acc[u] == view[u].weight.size,
            forall|u: int| 0 <= u < v ==> #[trigger] absorbed[u] == boundary[u],
            forall|u: int| 0 <= u < v ==> !#[trigger] linked[u],
        decreases n - v,
    {
        acc.push(node_weight(&di.graph, v).size);
        absorbed.push(boundary[v]);
        linked.push(false);
        v += 1;
    }
    let mut x: usize = 0;
    while x < n
        invariant
            x <= n,
            di.wf(),
            n == di@.len(),
            view == di@,
            f.view == view,
            f.root == di.root,
            f.mask.len() == n,
            kept.len() == n,
            boundary.len() == n,
            acc.len() == n,
            absorbed.len() == n,
            linked.len() == n,
            forall|v: int| 0 <= v < n ==> kept[v] == f.kept(v),
            forall|v: int| 0 <= v < n ==> boundary[v] == f.boundary(v),
            marked(boundary@) == f.barrier(),
            forall|y: int|
                0 <= y < n ==> #[trigger] absorbed[y] == (f.boundary(y) || f.claimed_before(
                    y,
                    x as int,
                )),
            forall|v: int|
                0 <= v < n ==> #[trigger] acc[v] == if v < x && f.boundary(v) {
                    f.acc(v)
                } else {
                    view[v].weight.size as int
                },
            forall|v: int|
                0 <= v < n ==> #[trigger] linked[v] == (v < x && f.boundary(v) && f.linked(v)),
            forall|a: usize, b: usize|
                #[trigger] edges@.contains((a, b)) <==> a < x && f.boundary(a as int) && f.kept(
                    b as int,
                ) && b != a && f.region(a as int, b as int),
            edges@.no_duplicates(),
        decreases n - x,
    {
        if boundary[x] {
            absorb_from(
                di,
                x,
                kept,
                boundary,
                &mut acc,
                &mut absorbed,
                &mut linked,
                &mut edges,
                Ghost(f),
            );
        } else {
            proof {
                assert forall|y: int| 0 <= y < n implies f.claimed_before(y, x as int + 1)
                    == f.claimed_before(y, x as int) by {
                    if f.claimed_before(y, x as int + 1) {
                        let w = choose|w: int|
                            0 <= w < x as int + 1 && f.boundary(w) && #[trigger] f.region(w, y);
                        assert(w < x);
                    }
                    if f.claimed_before(y, x as int) {
                        let w = choose|w: int|
                            0 <= w < x as int && f.boundary(w) && #[trigger] f.region(w, y);
                        assert(0 <= w < x as int + 1);
                    }
                }
            }
        }
        x += 1;
    }
    proof {
        assert forall|a: usize, b: usize|
            #[trigger] edges@.contains((a, b)) <==> f.boundary(a as int) && f.kept(b as int) && b
                != a && f.region(a as int, b as int) by {
            if f.boundary(a as int) {
                assert(a < n);
            }
        }
    }
    Absorption { acc, linked, edges }
}

/// Walks through the region of the boundary node `x`: folds the sizes of
/// the nodes that no lower boundary node has claimed into `acc[x]`, and
/// notes an edge from `x` to each retained node met.
fn absorb_from(
    di: &DepInfos,
    x: usize,
    kept: &Vec<bool>,
    boundary: &Vec<bool>,
    acc: &mut Vec<u64>,
    absorbed: &mut Vec<bool>,
    linked: &mut Vec<bool>,
    edges: &mut Vec<(usize, usize)>,
    Ghost(f): Ghost<Filter>,
)
    requires
        di.wf(),
        f.view == di@,
        f.root == di.root,
        f.mask.len() == di@.len(),
        x < di@.len(),
        f.boundary(x as int),
        kept.len() == di@.len(),
        boundary.len() == di@.len(),
        old(acc).len() == di@.len(),
        old(absorbed).len() == di@.len(),
        old(linked).len() == di@.len(),
        forall|v: int| 0 <= v < di@.len() ==> kept[v] == f.kept(v),
        forall|v: int| 0 <= v < di@.len() ==> boundary[v] == f.boundary(v),
        marked(boundary@) == f.barrier(),
        forall|y: int|
            0 <= y < di@.len() ==> old(absorbed)[y] == (f.boundary(y) || f.claimed_before(
                y,
                x as int,
            )),
        old(acc)[x as int] == di@[x as int].weight.size,
        !old(linked)[x as int],
        forall|a: usize, b: usize| old(edges)@.contains((a, b)) ==> a < x,
        old(edges)@.no_duplicates(),
    ensures
        final(acc).len() == di@.len(),
        final(absorbed).len() == di@.len(),
        final(linked).len() == di@.len(),
        forall|y: int|
            0 <= y < di@.len() ==> final(absorbed)[y] == (f.boundary(y) || f.claimed_before(
                y,
                x as int + 1,
            )),
        final(acc)[x as int] == f.acc(x as int),
        forall|v: int| 0 <= v < di@.len() && v != x ==> final(acc)[v] == old(acc)[v],
        final(linked)[x as int] == f.linked(x as int),
        forall|v: int| 0 <= v < di@.len() && v != x ==> final(linked)[v] == old(linked)[v],
        forall|a: usize, b: usize|
            final(edges)@.contains((a, b)) <==> old(edges)@.contains((a, b)) || (a == x && f.kept(
                b as int,
            ) && b != x && f.region(x as int, b as int)),
        final(edges)@.no_duplicates(),
{
    let n = node_count(&di.graph);
    let order = region_order(&di.graph, x, boundary);
    let ghost view = di@;
    let ghost old_edges = edges@;
    let ghost old_acc = acc@;
    let ghost old_linked = linked@;
    let mut j: usize = 0;
    proof {
        assert(f.part(x as int, order@, 0) =~= Set::empty().insert(x as int));
        lemma_size_in_empty(view, Set::empty(), n as int);
        lemma_size_in_insert(view, Set::empty(), x as int, n as int);
    }
    while j < order.len()
        invariant
            j <= order.len(),
            di.wf(),
            n == di@.len(),
            view == di@,
            f.view == view,
            f.root == di.root,
            f.mask.len() == n,
            x < n,
            f.boundary(x as int),
            kept.len() == n,
            boundary.len() == n,
            acc.len() == n,
            absorbed.len() == n,
            linked.len() == n,
            forall|v: int| 0 <= v < n ==> kept[v] == f.kept(v),
            forall|v: int| 0 <= v < n ==> boundary[v] == f.boundary(v),
            order@.no_duplicates(),
            forall|v: usize| order@.contains(v) <==> f.region(x as int, v as int),
            forall|y: int|
                0 <= y < n ==> #[trigger] absorbed[y] == (f.boundary(y) || f.claimed_before(
                    y,
                    x as int,
                ) || prefix_set(order@, j as int).contains(y)),
            acc[x as int] == size_in(view, f.part(x as int, order@, j as int), n as int),
            old_acc.len() == n,
            old_linked.len() == n,
            forall|v: int| 0 <= v < n && v != x ==> acc[v] == old_acc[v],
            linked[x as int] == (exists|y: int|
                prefix_set(order@, j as int).contains(y) && #[trigger] f.kept(y) && y != x),
            forall|v: int| 0 <= v < n && v != x ==> linked[v] == old_linked[v],
            forall|a: usize, b: usize| #[trigger] old_edges.contains((a, b)) ==> a < x,
            forall|a: usize, b: usize|
                #[trigger] edges@.contains((a, b)) <==> old_edges.contains((a, b)) || (a == x && f.kept(
                    b as int,
                ) && b != x && prefix_set(order@, j as int).contains(b as int)),
            edges@.no_duplicates(),
        decreases order.len() - j,
    {
        let y = order[j];
        proof {
            assert(order@.contains(y));
            lemma_reaches_in_bounds(view, f.barrier(), x as int, y as int);
            lemma_prefix_set_step(order@, j as int);
        }
        let ghost before = prefix_set(order@, j as int);
        let ghost after = prefix_set(order@, j as int + 1);
        let ghost edges_before = edges@;
        let ghost linked_before = linked[x as int];
        let ghost absorbed_before = absorbed@;
        if y != x && kept[y] {
            edges.push((x, y));
            linked.set(x, true);
            proof {
                assert(after.contains(y as int) && f.kept(y as int) && y != x);
                assert(edges@ == edges_before.push((x, y)));
                assert(!edges_before.contains((x, y))) by {
                    if edges_before.contains((x, y)) {
                        assert(!old_edges.contains((x, y)));
                    }
                }
                assert forall|a: usize, b: usize|
                    edges@.contains((a, b)) <==> old_edges.contains((a, b)) || (a == x && f.kept(
                        b as int,
                    ) && b != x && after.contains(b as int)) by {
                    if edges@.contains((a, b)) {
                        let i = choose|i: int| 0 <= i < edges@.len() && edges@[i] == (a, b);
                        if i < edges_before.len() {
                            assert(edges_before[i] == (a, b));
                            assert(edges_before.contains((a, b)));
                        }
                    }
                    if old_edges.contains((a, b)) || (a == x && f.kept(b as int) && b != x
                        && after.contains(b as int)) {
                        if (a, b) == (x, y) {
                            assert(edges@[edges_before.len() as int] == (a, b));
                        } else {
                            assert(edges_before.contains((a, b)));
                            let i = choose|i: int|
                                0 <= i < edges_before.len() && edges_before[i] == (a, b);
                            assert(edges@[i] == (a, b));
                        }
                    }
                }
                assert(f.part(x as int, order@, j as int + 1) =~= f.part(x as int, order@, j as int));
            }
        } else if !boundary[y] && !absorbed[y] {
            proof {
                assert(f.absorbs(x as int, y as int));
                assert(f.part(x as int, order@, j as int + 1) =~= f.part(
                    x as int,
                    order@,
                    j as int,
                ).insert(y as int));
                lemma_size_in_insert(
                    view,
                    f.part(x as int, order@, j as int),
                    y as int,
                    n as int,
                );
                lemma_size_in_subset(
                    view,
                    f.part(x as int, order@, j as int + 1),
                    Set::full(),
                    n as int,
                );
            }
            let size = node_weight(&di.graph, y).size;
            let sum = acc[x] + size;
            acc.set(x, sum);
            absorbed.set(y, true);
            proof {
                assert(linked_before == (exists|z: int|
                    after.contains(z) && #[trigger] f.kept(z) && z != x)) by {
                    if exists|z: int| after.contains(z) && #[trigger] f.kept(z) && z != x {
                        let z = choose|z: int| after.contains(z) && #[trigger] f.kept(z) && z != x;
                        assert(before.contains(z));
                    }
                }
            }
        } else {
            proof {
                assert(f.part(x as int, order@, j as int + 1) =~= f.part(x as int, order@, j as int))
                    by {
                    if f.absorbs(x as int, y as int) {
                        assert(!f.boundary(y as int));
                        assert(absorbed[y as int]);
                        assert(false);
                    }
                }
                assert(linked_before == (exists|z: int|
                    after.contains(z) && #[trigger] f.kept(z) && z != x)) by {
                    if exists|z: int| after.contains(z) && #[trigger] f.kept(z) && z != x {
                        let z = choose|z: int| after.contains(z) && #[trigger] f.kept(z) && z != x;
                        assert(before.contains(z));
                    }
                }
            }
        }
        proof {
            assert forall|z: int| 0 <= z < n implies absorbed[z] == (f.boundary(z)
                || f.claimed_before(z, x as int) || after.contains(z)) by {
                if z == y {
                    assert(after.contains(z));
                    assert(absorbed[z]);
                } else {
                    assert(absorbed[z] == absorbed_before[z]);
                    assert(after.contains(z) == before.contains(z));
                }
            }
        }
        j += 1;
    }
    proof {
        let full = prefix_set(order@, order.len() as int);
        assert forall|y: int| 0 <= y < n implies full.contains(y) == f.region(x as int, y) by {
            if f.region(x as int, y) {
                assert(order@.contains(y as usize));
                let i = choose|i: int| 0 <= i < order@.len() && order@[i] == y as usize;
                assert(order@[i] == y);
            }
            if full.contains(y) {
                let i = choose|i: int|
                    0 <= i < order.len() && i < order@.len() && #[trigger] order@[i] == y;
                assert(order@.contains(order@[i]));
            }
        }
        assert(f.part(x as int, order@, order.len() as int) =~= f.territory(x as int));
        assert forall|y: int| 0 <= y < n implies absorbed[y] == (f.boundary(y) || f.claimed_before(
            y,
            x as int + 1,
        )) by {
            lemma_claimed_step(f, y, x as int);
        }
        assert(linked[x as int] == f.linked(x as int)) by {
            if f.linked(x as int) {
                let y = choose|y: int| f.kept(y) && y != x && #[trigger] f.region(x as int, y);
                assert(full.contains(y));
            }
            if linked[x as int] {
                let y = choose|y: int| full.contains(y) && #[trigger] f.kept(y) && y != x;
                assert(f.region(x as int, y));
            }
        }
        assert forall|a: usize, b: usize|
            edges@.contains((a, b)) <==> old_edges.contains((a, b)) || (a == x && f.kept(b as int)
                && b != x && f.region(x as int, b as int)) by {
            if f.kept(b as int) {
                assert(full.contains(b as int) == f.region(x as int, b as int));
            }
        }
    }
}

} // verus!
