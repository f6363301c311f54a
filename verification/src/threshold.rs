// SPDX-License-Identifier: LGPL-3.0

//! Choosing the size below which nodes are hidden.

use crate::depgraph::DepInfos;
use crate::graph::{node_count, node_weight, Vertex};
use crate::node::DepNode;
use vstd::prelude::*;

verus! {

/// `sorted` holds the values of `values` in ascending order.
pub open spec fn is_sorted_copy(values: Seq<u64>, sorted: Seq<u64>) -> bool {
    &&& sorted.to_multiset() == values.to_multiset()
    &&& forall|i: int, j: int| 0 <= i <= j < sorted.len() ==> sorted[i] <= sorted[j]
}

/// `<[u64]>::sort_unstable` puts the values of a vector in ascending order.
#[verifier::external_body]
fn sort_sizes(values: &mut Vec<u64>)
    ensures
        is_sorted_copy(old(values)@, final(values)@),
{
    values.sort_unstable();
}

/// The sizes of the nodes, by index.
pub open spec fn sizes_of(view: Seq<Vertex>) -> Seq<u64> {
    Seq::new(view.len(), |v: int| view[v].weight.size)
}

/// What `min_size_for` returns: the size of the `n_nodes`-th biggest node
/// where there are more nodes than that and `n_nodes` is not zero, else
/// `min_size`.
pub open spec fn is_min_size(view: Seq<Vertex>, min_size: u64, n_nodes: int, res: u64) -> bool {
    if 0 < n_nodes < view.len() {
        exists|sorted: Seq<u64>|
            #[trigger] is_sorted_copy(sizes_of(view), sorted) && res == sorted[sorted.len()
                - n_nodes]
    } else {
        res == min_size
    }
}

/// The size from which on nodes are shown: to keep about the `n_nodes`
/// biggest nodes, the size of the `n_nodes`-th biggest; without such a wish
/// (`n_nodes` is zero, or the graph has no more nodes than that), `min_size`.
pub fn min_size_for(di: &DepInfos, min_size: u64, n_nodes: usize) -> (res: u64)
    ensures
        is_min_size(di@, min_size, n_nodes as int, res),
{
    let n = node_count(&di.graph);
    if n_nodes > 0 && n_nodes < n {
        let mut sizes: Vec<u64> = Vec::new();
        let mut v: usize = 0;
        while v < n
            invariant
                v <= n,
                n == di@.len(),
                sizes.len() == v,
                forall|u: int| 0 <= u < v ==> #[trigger] sizes[u] == di@[u].weight.size,
            decreases n - v,
        {
            sizes.push(node_weight(&di.graph, v).size);
            v += 1;
        }
        assert(sizes@ =~= sizes_of(di@));
        sort_sizes(&mut sizes);
        proof {
            sizes_of(di@).to_multiset_ensures();
            sizes@.to_multiset_ensures();
        }
        sizes[sizes.len() - n_nodes]
    } else {
        min_size
    }
}

/// Whether a node is at least as big as `min_size`.
pub fn is_big(node: &DepNode, min_size: u64) -> (res: bool)
    ensures
        res == (node.size >= min_size),
{
    node.size >= min_size
}

} // verus!
