// SPDX-License-Identifier: LGPL-3.0

use nix_du::depgraph::{new_graph, DepInfos};
use nix_du::graph::DepGraph;
use nix_du::metadata::{DedupAwareness, Reachability, SizeMetadata};
use nix_du::node::{DepNode, NodeDescription, NodeKind};
use nix_du::reduction::filter::evaluate;
use nix_du::reduction::{keep, keep_marked};
use nix_du::threshold::{is_big, min_size_for};
use petgraph::graph::NodeIndex;
use std::collections::BTreeSet;

fn idx(i: usize) -> NodeIndex<usize> {
    NodeIndex::new(i)
}

fn link(name: &str, size: u64) -> DepNode {
    DepNode {
        description: NodeDescription::Link(format!("/roots/{}", name).into_bytes()),
        size,
    }
}

fn path(name: &str, size: u64) -> DepNode {
    DepNode {
        description: NodeDescription::Path(format!("/nix/store/hash-{}", name).into_bytes()),
        size,
    }
}

/// the graph with these nodes and edges, below a dummy root that is put
/// above the links
fn graph(nodes: Vec<DepNode>, edges: &[(usize, usize)]) -> DepInfos {
    let mut g: DepGraph = new_graph();
    for n in nodes {
        g.add_node(n);
    }
    for &(a, b) in edges {
        g.add_edge(idx(a), idx(b), ());
    }
    DepInfos::read_from_store(g, 0, false).unwrap()
}

/// the names and sizes of the children of the root
fn roots(di: &DepInfos) -> BTreeSet<(String, u64)> {
    di.graph
        .neighbors(idx(di.root))
        .map(|n| {
            (
                String::from_utf8_lossy(&di.graph[n].name()).into_owned(),
                di.graph[n].size,
            )
        })
        .collect()
}

/// the names and sizes of all nodes
fn nodes(di: &DepInfos) -> Vec<(String, u64)> {
    di.graph
        .node_weights()
        .map(|n| (String::from_utf8_lossy(&n.name()).into_owned(), n.size))
        .collect()
}

/// the edges, by the names of their ends
fn edges(di: &DepInfos) -> BTreeSet<(String, String)> {
    di.graph
        .raw_edges()
        .iter()
        .map(|e| {
            (
                String::from_utf8_lossy(&di.graph[e.source()].name()).into_owned(),
                String::from_utf8_lossy(&di.graph[e.target()].name()).into_owned(),
            )
        })
        .collect()
}

fn named(pairs: &[(&str, &str)]) -> BTreeSet<(String, String)> {
    pairs.iter().map(|(a, b)| (a.to_string(), b.to_string())).collect()
}

/// root `R` with the children `a` (size 10) and `b` (size 20)
fn two_children() -> DepInfos {
    graph(vec![link("a", 10), link("b", 20)], &[])
}

#[test]
fn filter_folds_small_root_into_aggregate() {
    let di = two_children();
    assert_eq!(di.size(), 30);
    assert_eq!(di.reachable_size(), 30);
    let out = keep(di, |node: &DepNode| node.size >= 15);
    assert_eq!(out.size(), 30);
    assert_eq!(out.reachable_size(), 30);
    let mut top: Vec<(NodeKind, u64)> = out
        .graph
        .neighbors(idx(out.root))
        .map(|n| (out.graph[n].kind(), out.graph[n].size))
        .collect();
    top.sort();
    assert_eq!(top, vec![(NodeKind::Link, 20), (NodeKind::FilteredOut, 10)]);
    assert_eq!(
        nodes(&out),
        vec![
            ("/roots/b".to_string(), 20),
            ("{dummy}".to_string(), 0),
            ("{filtered out}".to_string(), 10)
        ]
    );
    assert_eq!(out.root, 1);
}

#[test]
fn a_root_is_kept_for_the_sake_of_what_hangs_below_it() {
    // l -> x -> y -> k, and the predicate holds of k alone
    let di = graph(
        vec![link("l", 1), path("x", 2), path("y", 4), path("k", 8)],
        &[(0, 1), (1, 2), (2, 3)],
    );
    let out = keep_marked(di, &vec![false, false, false, true, false]);
    assert_eq!(
        nodes(&out),
        vec![
            ("/roots/l".to_string(), 7),
            ("k".to_string(), 8),
            ("{dummy}".to_string(), 0)
        ]
    );
    assert_eq!(edges(&out), named(&[("{dummy}", "/roots/l"), ("/roots/l", "k")]));
    assert_eq!(out.root, 2);
    assert_eq!(out.size(), 15);
    assert_eq!(out.reachable_size(), 15);
}

#[test]
fn what_hangs_below_a_retained_node_is_folded_into_it() {
    // l -> k -> x -> j -> y, and the predicate holds of k and j
    let di = graph(
        vec![link("l", 1), path("k", 2), path("x", 4), path("j", 8), path("y", 16)],
        &[(0, 1), (1, 2), (2, 3), (3, 4)],
    );
    let out = keep_marked(di, &vec![false, true, false, true, false, false]);
    assert_eq!(
        nodes(&out),
        vec![
            ("/roots/l".to_string(), 1),
            ("k".to_string(), 6),
            ("j".to_string(), 24),
            ("{dummy}".to_string(), 0)
        ]
    );
    assert_eq!(
        edges(&out),
        named(&[("{dummy}", "/roots/l"), ("/roots/l", "k"), ("k", "j")])
    );
}

#[test]
fn a_node_is_folded_into_the_lowest_node_that_reaches_it() {
    // both k and j need x
    let di = graph(
        vec![link("l", 1), path("k", 2), path("j", 4), path("x", 8)],
        &[(0, 1), (0, 2), (1, 3), (2, 3)],
    );
    let out = keep_marked(di, &vec![false, true, true, false, false]);
    assert_eq!(
        nodes(&out),
        vec![
            ("/roots/l".to_string(), 1),
            ("k".to_string(), 10),
            ("j".to_string(), 4),
            ("{dummy}".to_string(), 0)
        ]
    );
    assert_eq!(
        edges(&out),
        named(&[("{dummy}", "/roots/l"), ("/roots/l", "k"), ("/roots/l", "j")])
    );
    assert_eq!(out.size(), 15);
}

#[test]
fn a_walk_through_a_region_stops_at_the_next_retained_node() {
    // l -> k -> j: no edge from l to j
    let di = graph(
        vec![link("l", 1), path("k", 2), path("j", 4)],
        &[(0, 1), (1, 2)],
    );
    let out = keep_marked(di, &vec![false, true, true, false]);
    assert_eq!(
        edges(&out),
        named(&[("{dummy}", "/roots/l"), ("/roots/l", "k"), ("k", "j")])
    );
    // an edge past it makes an edge
    let di = graph(
        vec![link("l", 1), path("k", 2), path("j", 4)],
        &[(0, 1), (1, 2), (0, 2)],
    );
    let out = keep_marked(di, &vec![false, true, true, false]);
    assert_eq!(
        edges(&out),
        named(&[
            ("{dummy}", "/roots/l"),
            ("/roots/l", "k"),
            ("k", "j"),
            ("/roots/l", "j")
        ])
    );
}

#[test]
fn roots_without_a_retained_node_are_gathered() {
    // one root with something retained below it, two without
    let di = graph(
        vec![
            link("a", 1),
            link("b", 2),
            link("c", 4),
            path("k", 8),
            path("x", 16),
            path("y", 32),
        ],
        &[(0, 3), (1, 4), (2, 5), (2, 4)],
    );
    let out = keep(di, |node: &DepNode| node.size == 8);
    assert_eq!(
        nodes(&out),
        vec![
            ("/roots/a".to_string(), 1),
            ("k".to_string(), 8),
            ("{dummy}".to_string(), 0),
            ("{filtered out}".to_string(), 2 + 4 + 16 + 32)
        ]
    );
    assert_eq!(
        edges(&out),
        named(&[
            ("{dummy}", "/roots/a"),
            ("/roots/a", "k"),
            ("{dummy}", "{filtered out}")
        ])
    );
    assert_eq!(out.size(), 63);
    assert_eq!(out.reachable_size(), 63);
}

#[test]
fn nothing_is_gathered_without_a_size() {
    let di = graph(vec![link("a", 0), path("x", 0)], &[(0, 1)]);
    let out = keep(di, |_: &DepNode| false);
    assert_eq!(nodes(&out), vec![("{dummy}".to_string(), 0)]);
    assert_eq!(out.graph.edge_count(), 0);
    assert_eq!(out.root, 0);
}

#[test]
fn a_predicate_that_always_holds_keeps_the_roots() {
    let di = graph(
        vec![link("a", 1), link("b", 2), path("x", 4), path("y", 8)],
        &[(0, 2), (1, 2), (2, 3)],
    );
    let before = roots(&di);
    let reachable = di.reachable_size();
    let total = di.size();
    let out = keep(di, |_: &DepNode| true);
    assert_eq!(roots(&out), before);
    assert_eq!(out.graph.node_count(), 5);
    assert_eq!(out.reachable_size(), reachable);
    assert_eq!(out.size(), total);
    assert_eq!(
        edges(&out),
        named(&[
            ("{dummy}", "/roots/a"),
            ("{dummy}", "/roots/b"),
            ("/roots/a", "x"),
            ("/roots/b", "x"),
            ("x", "y")
        ])
    );
}

#[test]
fn a_predicate_that_never_holds_leaves_the_aggregate() {
    let di = graph(
        vec![link("a", 1), link("b", 2), path("x", 4), path("y", 8)],
        &[(0, 2), (1, 2), (2, 3)],
    );
    let out = keep(di, |_: &DepNode| false);
    assert_eq!(
        roots(&out),
        [("{filtered out}".to_string(), 15)].into_iter().collect()
    );
    assert_eq!(out.graph.node_count(), 2);
    assert_eq!(out.reachable_size(), 15);
    assert_eq!(out.size(), 15);
}

#[test]
fn the_roots_of_the_filtered_graph_are_roots_of_the_graph() {
    let di = graph(
        vec![link("a", 1), link("b", 2), link("c", 4), path("x", 8), path("y", 16)],
        &[(0, 3), (1, 4), (2, 4)],
    );
    let before = roots(&di);
    let out = keep(di, |node: &DepNode| node.size == 8 || node.size == 2);
    let names_before: BTreeSet<String> = before.into_iter().map(|(name, _)| name).collect();
    for (name, _) in roots(&out) {
        assert!(name == "{filtered out}" || names_before.contains(&name), "{}", name);
    }
    assert_eq!(
        roots(&out),
        [
            ("/roots/a".to_string(), 1),
            ("/roots/b".to_string(), 18),
            ("{filtered out}".to_string(), 4)
        ]
        .into_iter()
        .collect()
    );
}

#[test]
fn the_size_of_what_nothing_reaches_is_lost() {
    // x is garbage: no root and no retained node reaches it
    let di = graph(vec![link("a", 1), path("x", 2)], &[]);
    assert_eq!(di.size(), 3);
    let out = keep(di, |node: &DepNode| node.size == 1);
    assert_eq!(out.size(), 1);
    assert_eq!(out.reachable_size(), 1);
}

#[test]
fn the_filter_keeps_how_the_graph_is_read() {
    let mut di = two_children();
    di.metadata = SizeMetadata::unset(Reachability::Connected, DedupAwareness::Aware);
    di.record_metadata();
    let out = keep(di, |_: &DepNode| true);
    assert_eq!(out.metadata.reachable, Reachability::Connected);
    assert_eq!(out.metadata.dedup, DedupAwareness::Aware);
    assert_eq!(out.metadata.size.get(DedupAwareness::Aware, Reachability::Connected), None);
    assert!(out.check_metadata());
}

#[test]
fn the_predicate_is_asked_once_for_each_node() {
    let di = graph(vec![link("a", 1), path("x", 2), path("y", 3)], &[(0, 1)]);
    let calls = std::cell::Cell::new(0);
    let mask = evaluate(&di, &|node: &DepNode| {
        calls.set(calls.get() + 1);
        node.size > 1
    });
    assert_eq!(mask, vec![false, true, true, false]);
    assert_eq!(calls.get(), 4);
}

#[test]
fn the_size_of_the_nth_biggest_node() {
    let di = graph(
        vec![link("a", 5), path("b", 1), path("c", 9), path("d", 7), path("e", 7)],
        &[],
    );
    // six nodes with the dummy root
    assert_eq!(min_size_for(&di, 3, 0), 3);
    assert_eq!(min_size_for(&di, 3, 1), 9);
    assert_eq!(min_size_for(&di, 3, 2), 7);
    assert_eq!(min_size_for(&di, 3, 3), 7);
    assert_eq!(min_size_for(&di, 3, 4), 5);
    assert_eq!(min_size_for(&di, 3, 5), 1);
    assert_eq!(min_size_for(&di, 3, 6), 3);
    assert_eq!(min_size_for(&di, 0, 7), 0);
    assert!(is_big(&path("x", 7), 7));
    assert!(!is_big(&path("x", 6), 7));
    assert!(is_big(&path("x", 0), 0));
}
