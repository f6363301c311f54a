// SPDX-License-Identifier: LGPL-3.0

use nix_du::depgraph::{new_graph, register_edge, register_node, BuildError, DepInfos};
use nix_du::graph::DepGraph;
use nix_du::metadata::{DedupAwareness, Reachability, SizeMetadata, SizeTable};
use nix_du::node::{DepNode, NodeDescription, NodeKind};
use petgraph::graph::NodeIndex;
use std::collections::BTreeSet;

fn node(description: NodeDescription, size: u64) -> DepNode {
    DepNode { description, size }
}

fn path(name: &str, size: u64) -> DepNode {
    node(
        NodeDescription::Path(format!("/nix/store/hash-{}", name).into_bytes()),
        size,
    )
}

fn link(name: &str, size: u64) -> DepNode {
    node(NodeDescription::Link(format!("/roots/{}", name).into_bytes()), size)
}

fn idx(i: usize) -> NodeIndex<usize> {
    NodeIndex::new(i)
}

/// two links to `a`, which needs `b`; `c` is garbage
fn store() -> DepGraph {
    let mut g = new_graph();
    for n in [link("one", 1), link("two", 2), path("a", 10), path("b", 20), path("c", 40)] {
        g.add_node(n);
    }
    g.add_edge(idx(0), idx(2), ());
    g.add_edge(idx(1), idx(2), ());
    g.add_edge(idx(2), idx(3), ());
    g
}

#[test]
fn failed_ingestion_is_reported_with_its_status() {
    for status in [1, -1, 42, i32::MIN] {
        assert_eq!(
            DepInfos::read_from_store(store(), status, false).err(),
            Some(BuildError::Ingestion(status))
        );
        assert_eq!(
            DepInfos::read_from_store(new_graph(), status, true).err(),
            Some(BuildError::Ingestion(status))
        );
    }
}

#[test]
fn a_root_that_was_asked_for_must_be_there() {
    assert_eq!(
        DepInfos::read_from_store(new_graph(), 0, true).err(),
        Some(BuildError::MissingRoot)
    );
    // without a wish for a root, the empty store is a dummy root alone
    let di = DepInfos::read_from_store(new_graph(), 0, false).unwrap();
    assert_eq!(di.graph.node_count(), 1);
    assert_eq!(di.root, 0);
    assert_eq!(di.size(), 0);
}

#[test]
fn sizes_that_exceed_64_bits_are_refused() {
    let mut g = new_graph();
    g.add_node(path("a", u64::MAX));
    g.add_node(path("b", 1));
    assert_eq!(
        DepInfos::read_from_store(g, 0, false).err(),
        Some(BuildError::SizeOverflow)
    );
    let mut g = new_graph();
    g.add_node(path("a", u64::MAX - 1));
    g.add_node(path("b", 1));
    let di = DepInfos::read_from_store(g, 0, true).unwrap();
    assert_eq!(di.size(), u64::MAX);
}

#[test]
fn a_dummy_root_is_put_above_the_gc_roots() {
    let mut g = store();
    g.add_node(node(NodeDescription::Memory(b"{memory:1}".to_vec()), 0));
    g.add_node(node(NodeDescription::Temporary(b"{temp:1}".to_vec()), 0));
    g.add_node(node(NodeDescription::Shared(b"x".to_vec()), 5));
    let di = DepInfos::read_from_store(g, 0, false).unwrap();
    assert_eq!(di.root, 8);
    assert_eq!(di.graph.node_count(), 9);
    assert_eq!(di.graph[idx(8)], DepNode::dummy());
    // one hop to each root, the highest first, and to nothing else
    assert_eq!(di.roots(), vec![6, 5, 1, 0]);
    assert_eq!(di.graph.edge_count(), 3 + 4);
    assert_eq!(di.metadata.reachable, Reachability::Disconnected);
    assert_eq!(di.metadata.dedup, DedupAwareness::Unaware);
    assert_eq!(
        di.metadata.size.get(DedupAwareness::Unaware, Reachability::Connected),
        Some(1 + 2 + 10 + 20)
    );
    assert_eq!(
        di.metadata.size.get(DedupAwareness::Unaware, Reachability::Disconnected),
        Some(1 + 2 + 10 + 20 + 40 + 5)
    );
    assert_eq!(di.metadata.size.get(DedupAwareness::Aware, Reachability::Connected), None);
    assert_eq!(di.metadata.size.get(DedupAwareness::Aware, Reachability::Disconnected), None);
    assert!(di.is_well_formed());
    assert!(di.check_metadata());
}

#[test]
fn a_root_that_was_asked_for_is_the_first_node() {
    let mut g = new_graph();
    g.add_node(path("top", 1));
    g.add_node(path("dep", 2));
    g.add_edge(idx(0), idx(1), ());
    let di = DepInfos::read_from_store(g, 0, true).unwrap();
    assert_eq!(di.root, 0);
    assert_eq!(di.graph.node_count(), 2);
    assert_eq!(di.graph.edge_count(), 1);
    assert_eq!(di.metadata.reachable, Reachability::Connected);
    assert_eq!(
        di.metadata.size.get(DedupAwareness::Unaware, Reachability::Connected),
        Some(3)
    );
    assert_eq!(
        di.metadata.size.get(DedupAwareness::Unaware, Reachability::Disconnected),
        None
    );
    assert!(di.check_metadata());
}

#[test]
fn reachable_size_and_total_size() {
    let di = DepInfos::read_from_store(store(), 0, false).unwrap();
    assert_eq!(di.size(), 73);
    assert_eq!(di.reachable_size(), 33);
    // a node that two roots keep alive counts once
    let visited: BTreeSet<usize> = di.dfs().into_iter().collect();
    assert_eq!(visited, [0, 1, 2, 3, 5].into_iter().collect());
    assert_eq!(di.dfs().len(), 5);
    assert_eq!(di.dfs()[0], 5);
}

#[test]
fn cycles_are_tolerated() {
    let mut g = new_graph();
    g.add_node(link("l", 1));
    g.add_node(path("a", 2));
    g.add_node(path("b", 4));
    g.add_edge(idx(0), idx(1), ());
    g.add_edge(idx(1), idx(2), ());
    g.add_edge(idx(2), idx(1), ());
    g.add_edge(idx(2), idx(0), ());
    let di = DepInfos::read_from_store(g, 0, false).unwrap();
    assert_eq!(di.reachable_size(), 7);
    assert_eq!(di.size(), 7);
}

#[test]
fn recording_never_changes_a_cell_that_is_set() {
    let mut di = DepInfos::read_from_store(store(), 0, false).unwrap();
    let recorded = di.metadata;
    di.record_metadata();
    assert_eq!(di.metadata.size, recorded.size);
    // a size that was recorded is kept, be it right or wrong
    let mut size = SizeTable::empty();
    size.set(DedupAwareness::Unaware, Reachability::Connected, Some(7));
    di.metadata.size = size;
    di.record_metadata();
    assert_eq!(
        di.metadata.size.get(DedupAwareness::Unaware, Reachability::Connected),
        Some(7)
    );
    assert_eq!(
        di.metadata.size.get(DedupAwareness::Unaware, Reachability::Disconnected),
        Some(73)
    );
    di.record_metadata();
    assert_eq!(
        di.metadata.size.get(DedupAwareness::Unaware, Reachability::Connected),
        Some(7)
    );
    assert_eq!(
        di.metadata.size.get(DedupAwareness::Unaware, Reachability::Disconnected),
        Some(73)
    );
}

#[test]
fn recording_fills_the_row_of_the_dedup_awareness() {
    let mut di = DepInfos::read_from_store(store(), 0, false).unwrap();
    di.metadata = SizeMetadata::unset(Reachability::Connected, DedupAwareness::Aware);
    di.record_metadata();
    assert_eq!(
        di.metadata.size.get(DedupAwareness::Aware, Reachability::Connected),
        Some(33)
    );
    // only what is reachable is recorded of a graph that counts as connected
    assert_eq!(di.metadata.size.get(DedupAwareness::Aware, Reachability::Disconnected), None);
    assert_eq!(di.metadata.size.get(DedupAwareness::Unaware, Reachability::Connected), None);
    assert_eq!(
        di.metadata.size.get(DedupAwareness::Unaware, Reachability::Disconnected),
        None
    );
}

#[test]
fn metadata_is_checked_against_the_graph() {
    let mut di = DepInfos::read_from_store(store(), 0, false).unwrap();
    assert!(di.check_metadata());
    // the garbage cannot be reached
    di.metadata.reachable = Reachability::Connected;
    assert!(!di.check_metadata());
    di.metadata = SizeMetadata::unset(Reachability::Disconnected, DedupAwareness::Unaware);
    assert!(di.check_metadata());
    di.metadata
        .size
        .set(DedupAwareness::Unaware, Reachability::Disconnected, Some(72));
    assert!(!di.check_metadata());
    di.metadata
        .size
        .set(DedupAwareness::Unaware, Reachability::Disconnected, Some(73));
    assert!(di.check_metadata());
}

#[test]
fn well_formedness_is_tested() {
    let mut di = DepInfos::read_from_store(store(), 0, false).unwrap();
    assert!(di.is_well_formed());
    di.root = 6;
    assert!(!di.is_well_formed());
    di.root = 0;
    assert!(di.is_well_formed());
    di.graph.add_node(path("huge", u64::MAX));
    assert!(!di.is_well_formed());
}

#[test]
fn roots_and_their_names() {
    let di = DepInfos::read_from_store(store(), 0, false).unwrap();
    assert_eq!(di.roots(), vec![1, 0]);
    assert_eq!(
        di.roots_name(),
        vec![b"/roots/two".to_vec(), b"/roots/one".to_vec()]
    );
}

#[test]
fn a_clone_is_the_same_graph() {
    let di = DepInfos::read_from_store(store(), 0, false).unwrap();
    let copy = di.clone();
    assert_eq!(copy.root, di.root);
    assert_eq!(copy.metadata.size, di.metadata.size);
    assert_eq!(copy.graph.node_count(), di.graph.node_count());
    assert_eq!(copy.size(), di.size());
    assert_eq!(copy.reachable_size(), di.reachable_size());
    assert_eq!(copy.roots(), di.roots());
}

#[test]
fn nodes_are_registered_by_their_path() {
    let mut g = new_graph();
    assert_eq!(register_node(&mut g, b"/nix/store/h-a".to_vec(), false, 3), Ok(0));
    assert_eq!(register_node(&mut g, b"/home/me/result".to_vec(), true, 0), Ok(1));
    assert_eq!(register_node(&mut g, b"{temp:123}".to_vec(), true, 0), Ok(2));
    assert_eq!(
        register_node(&mut g, b"what".to_vec(), false, 1),
        Err(b"what".to_vec())
    );
    assert_eq!(g.node_count(), 3);
    assert_eq!(g[idx(0)].kind(), NodeKind::Path);
    assert_eq!(g[idx(0)].size, 3);
    assert_eq!(g[idx(1)].kind(), NodeKind::Link);
    assert_eq!(g[idx(2)].kind(), NodeKind::Temporary);
}

#[test]
fn an_edge_from_a_node_to_itself_is_not_registered() {
    let mut g = new_graph();
    register_node(&mut g, b"/a".to_vec(), false, 1).unwrap();
    register_node(&mut g, b"/b".to_vec(), false, 1).unwrap();
    assert!(!register_edge(&mut g, 0, 0));
    assert!(!register_edge(&mut g, 5, 5));
    assert_eq!(g.edge_count(), 0);
    assert!(register_edge(&mut g, 0, 1));
    assert!(register_edge(&mut g, 1, 0));
    // an edge that is reported twice is there once
    assert!(register_edge(&mut g, 0, 1));
    assert_eq!(g.edge_count(), 2);
    assert!(!register_edge(&mut g, 0, 2));
    assert!(!register_edge(&mut g, 2, 0));
    assert_eq!(g.edge_count(), 2);
    let targets: Vec<usize> = g.neighbors(idx(0)).map(|n| n.index()).collect();
    assert_eq!(targets, vec![1]);
}

/// a small generator of numbers, the same at each run
fn next(state: &mut u64) -> u64 {
    *state = state
        .wrapping_mul(6364136223846793005)
        .wrapping_add(1442695040888963407);
    *state >> 33
}

#[test]
fn the_reachable_size_is_that_of_what_the_root_reaches() {
    let mut state = 11;
    for _ in 0..200 {
        let n = 1 + (next(&mut state) % 12) as usize;
        let mut g = new_graph();
        for i in 0..n {
            g.add_node(path(&i.to_string(), 1 << i));
        }
        for _ in 0..(next(&mut state) % 25) {
            let a = (next(&mut state) % n as u64) as usize;
            let b = (next(&mut state) % n as u64) as usize;
            g.add_edge(idx(a), idx(b), ());
        }
        let di = DepInfos::read_from_store(g, 0, true).unwrap();
        let mut found: BTreeSet<usize> = [0].into_iter().collect();
        loop {
            let mut more = found.clone();
            for &a in &found {
                more.extend(di.graph.neighbors(idx(a)).map(|b| b.index()));
            }
            if more == found {
                break;
            }
            found = more;
        }
        let expected: u64 = found.iter().map(|&i| 1u64 << i).sum();
        assert_eq!(di.reachable_size(), expected);
        assert_eq!(di.size(), (1u64 << n) - 1);
        let met: BTreeSet<usize> = di.dfs().into_iter().collect();
        assert_eq!(met, found);
        assert_eq!(di.dfs().len(), found.len());
        assert_eq!(di.check_metadata(), found.len() == n);
    }
}
