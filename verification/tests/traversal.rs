// SPDX-License-Identifier: LGPL-3.0

use nix_du::depgraph::new_graph;
use nix_du::graph::DepGraph;
use nix_du::node::{DepNode, NodeDescription};
use nix_du::traversal::{passes_through, region_order};
use petgraph::graph::NodeIndex;
use std::collections::BTreeSet;

/// a small generator of numbers, the same at each run
struct Numbers(u64);

impl Numbers {
    fn next(&mut self) -> u64 {
        self.0 = self
            .0
            .wrapping_mul(6364136223846793005)
            .wrapping_add(1442695040888963407);
        self.0 >> 33
    }

    fn below(&mut self, n: u64) -> u64 {
        self.next() % n
    }
}

fn random_graph(numbers: &mut Numbers, n: usize, edges: usize) -> DepGraph {
    let mut g = new_graph();
    for i in 0..n {
        g.add_node(DepNode {
            description: NodeDescription::Path(i.to_string().into_bytes()),
            size: 1,
        });
    }
    for _ in 0..edges {
        let a = numbers.below(n as u64) as usize;
        let b = numbers.below(n as u64) as usize;
        g.add_edge(NodeIndex::new(a), NodeIndex::new(b), ());
    }
    g
}

/// what `start` reaches without passing through a marked node: found by
/// following, again and again, the edges that leave `start` or an unmarked
/// node that is reached
fn region(g: &DepGraph, start: usize, boundary: &[bool]) -> BTreeSet<usize> {
    let mut found: BTreeSet<usize> = [start].into_iter().collect();
    loop {
        let mut more = found.clone();
        for &a in &found {
            if a == start || !boundary[a] {
                for b in g.neighbors(NodeIndex::new(a)) {
                    more.insert(b.index());
                }
            }
        }
        if more == found {
            return found;
        }
        found = more;
    }
}

#[test]
fn a_region_holds_what_is_reached_without_passing_a_marked_node() {
    let mut numbers = Numbers(7);
    for round in 0..300 {
        let n = 1 + numbers.below(12) as usize;
        let edges = numbers.below(30) as usize;
        let g = random_graph(&mut numbers, n, edges);
        let boundary: Vec<bool> = (0..n).map(|_| numbers.below(3) == 0).collect();
        for start in 0..n {
            let order = region_order(&g, start, &boundary);
            let met: BTreeSet<usize> = order.iter().cloned().collect();
            assert_eq!(met.len(), order.len(), "round {}: a node is met twice", round);
            assert_eq!(met, region(&g, start, &boundary), "round {}, from {}", round, start);
            assert_eq!(order[0], start);
        }
    }
}

#[test]
fn without_marks_a_region_is_all_that_is_reached() {
    let mut g = new_graph();
    for i in 0..5 {
        g.add_node(DepNode {
            description: NodeDescription::Path(vec![b'0' + i]),
            size: 1,
        });
    }
    for (a, b) in [(0, 1), (1, 2), (2, 0), (3, 4)] {
        g.add_edge(NodeIndex::new(a), NodeIndex::new(b), ());
    }
    let all: BTreeSet<usize> = region_order(&g, 0, &vec![false; 5]).into_iter().collect();
    assert_eq!(all, [0, 1, 2].into_iter().collect());
    // marks on the start do not hold it back, marks on the others do
    let marked: BTreeSet<usize> = region_order(&g, 0, &vec![true, true, false, false, false])
        .into_iter()
        .collect();
    assert_eq!(marked, [0, 1].into_iter().collect());
    // flags that are too short mark nothing beyond their end
    let short: BTreeSet<usize> = region_order(&g, 0, &vec![true]).into_iter().collect();
    assert_eq!(short, [0, 1, 2].into_iter().collect());
}

#[test]
fn a_traversal_goes_on_from_the_start_and_from_unmarked_nodes() {
    let boundary = vec![true, false, true];
    assert!(passes_through(0, 0, &boundary));
    assert!(!passes_through(0, 1, &boundary));
    assert!(passes_through(1, 0, &boundary));
    assert!(!passes_through(2, 0, &boundary));
    assert!(passes_through(2, 2, &boundary));
    assert!(passes_through(3, 0, &boundary));
}
