// SPDX-License-Identifier: LGPL-3.0

use nix_du::depgraph::{new_graph, DepInfos};
use nix_du::graph::DepGraph;
use nix_du::metadata::Reachability;
use nix_du::node::{DepNode, NodeDescription, NodeKind};
use nix_du::reduction::{
    condense, condense_along, keep_reachable, keep_reachable_along, merge_transient_roots,
};
use petgraph::graph::NodeIndex;
use std::collections::BTreeSet;

fn idx(i: usize) -> NodeIndex<usize> {
    NodeIndex::new(i)
}

fn link(name: &str, size: u64) -> DepNode {
    DepNode {
        description: NodeDescription::Link(format!("/roots/{}", name).into_bytes()),
        size,
    }
}

fn path(name: &str, size: u64) -> DepNode {
    DepNode {
        description: NodeDescription::Path(format!("/nix/store/hash-{}", name).into_bytes()),
        size,
    }
}

fn graph(nodes: Vec<DepNode>, edges: &[(usize, usize)]) -> DepInfos {
    let mut g: DepGraph = new_graph();
    for n in nodes {
        g.add_node(n);
    }
    for &(a, b) in edges {
        g.add_edge(idx(a), idx(b), ());
    }
    DepInfos::read_from_store(g, 0, false).unwrap()
}

fn nodes(di: &DepInfos) -> Vec<(String, u64)> {
    di.graph
        .node_weights()
        .map(|n| (String::from_utf8_lossy(&n.name()).into_owned(), n.size))
        .collect()
}

fn edges(di: &DepInfos) -> BTreeSet<(String, String)> {
    di.graph
        .raw_edges()
        .iter()
        .map(|e| {
            (
                String::from_utf8_lossy(&di.graph[e.source()].name()).into_owned(),
                String::from_utf8_lossy(&di.graph[e.target()].name()).into_owned(),
            )
        })
        .collect()
}

fn named(pairs: &[(&str, &str)]) -> BTreeSet<(String, String)> {
    pairs.iter().map(|(a, b)| (a.to_string(), b.to_string())).collect()
}

fn children(di: &DepInfos, of: usize) -> BTreeSet<usize> {
    di.graph.neighbors(idx(of)).map(|n| n.index()).collect()
}

#[test]
fn two_roots_make_two_classes() {
    let di = graph(vec![link("a", 10), link("b", 20)], &[]);
    assert_eq!(di.size(), 30);
    assert_eq!(di.reachable_size(), 30);
    let out = condense(di);
    assert_eq!(out.root, 0);
    assert_eq!(out.graph.node_count(), 3);
    let mut classes: Vec<u64> = (1..3).map(|i| out.graph[idx(i)].size).collect();
    classes.sort();
    assert_eq!(classes, vec![10, 20]);
    assert!(out.graph.find_edge(idx(1), idx(2)).is_none());
    assert!(out.graph.find_edge(idx(2), idx(1)).is_none());
    assert_eq!(children(&out, 0), [1, 2].into_iter().collect());
    assert_eq!(out.reachable_size(), 30);
    assert_eq!(out.size(), 30);
}

#[test]
fn nodes_with_the_same_roots_are_one_class() {
    // both roots need x, only a needs y and z
    let di = graph(
        vec![link("a", 1), link("b", 2), path("x", 4), path("y", 8), path("z", 16)],
        &[(0, 2), (1, 2), (0, 3), (3, 4), (4, 2)],
    );
    let out = condense(di);
    let mut got = nodes(&out);
    got.sort();
    assert_eq!(
        got,
        vec![
            ("/roots/a".to_string(), 1 + 8 + 16),
            ("/roots/b".to_string(), 2),
            ("x".to_string(), 4),
            ("{dummy}".to_string(), 0)
        ]
    );
    assert_eq!(
        edges(&out),
        named(&[
            ("{dummy}", "/roots/a"),
            ("{dummy}", "/roots/b"),
            ("/roots/a", "x"),
            ("/roots/b", "x")
        ])
    );
    assert_eq!(out.graph.edge_count(), 4);
    assert_eq!(out.reachable_size(), 31);
    assert_eq!(out.metadata.reachable, Reachability::Connected);
    assert!(out.check_metadata());
}

#[test]
fn what_no_root_needs_is_dropped_from_the_quotient() {
    let di = graph(
        vec![link("a", 1), path("x", 2), path("garbage", 4), path("more", 8)],
        &[(0, 1), (2, 3), (2, 1)],
    );
    assert_eq!(di.size(), 15);
    let out = condense(di);
    assert_eq!(
        nodes(&out),
        vec![("{dummy}".to_string(), 0), ("/roots/a".to_string(), 3)]
    );
    assert_eq!(out.size(), 3);
    assert_eq!(out.reachable_size(), 3);
}

#[test]
fn the_first_node_met_stands_for_its_class() {
    // x and y both hang below the one root
    let di = graph(vec![link("a", 1), path("x", 2), path("y", 4)], &[(0, 1), (0, 2)]);
    let root = di.root;
    let out = condense_along(di.clone(), &vec![root, 1, 0, 2]);
    assert_eq!(
        nodes(&out),
        vec![("{dummy}".to_string(), 0), ("x".to_string(), 7)]
    );
    let out = condense_along(di.clone(), &vec![root, 2, 1, 0]);
    assert_eq!(
        nodes(&out),
        vec![("{dummy}".to_string(), 0), ("y".to_string(), 7)]
    );
    // a breadth-first traversal meets the root first
    let out = condense(di);
    assert_eq!(
        nodes(&out),
        vec![("{dummy}".to_string(), 0), ("/roots/a".to_string(), 7)]
    );
    assert_eq!(edges(&out), named(&[("{dummy}", "/roots/a")]));
}

#[test]
fn the_quotient_has_each_edge_once() {
    // three edges lead from the class of a to the class of x
    let di = graph(
        vec![link("a", 1), link("b", 2), path("x", 4), path("y", 8)],
        &[(0, 3), (0, 2), (3, 2), (0, 2), (1, 2)],
    );
    let out = condense(di);
    assert_eq!(
        edges(&out),
        named(&[
            ("{dummy}", "/roots/a"),
            ("{dummy}", "/roots/b"),
            ("/roots/a", "x"),
            ("/roots/b", "x")
        ])
    );
    assert_eq!(out.graph.edge_count(), 4);
}

#[test]
fn the_quotient_of_a_graph_with_a_cycle() {
    let di = graph(
        vec![link("a", 1), path("x", 2), path("y", 4)],
        &[(0, 1), (1, 2), (2, 1)],
    );
    let out = condense(di);
    assert_eq!(
        nodes(&out),
        vec![("{dummy}".to_string(), 0), ("/roots/a".to_string(), 7)]
    );
}

fn temporary(id: u32, size: u64) -> DepNode {
    DepNode::new(format!("{{temp:{}}}", id).into_bytes(), false, size).unwrap()
}

#[test]
fn a_temporary_root_is_moved_below_the_transient_node() {
    let node = temporary(123, 5);
    assert_eq!(node.kind(), NodeKind::Temporary);
    let di = graph(
        vec![
            node,
            link("a", 1),
            DepNode::new(b"/proc/7/exe".to_vec(), false, 2).unwrap(),
            path("x", 4),
        ],
        &[(0, 3), (1, 3), (2, 3)],
    );
    let root = di.root;
    assert_eq!(children(&di, root), [0, 1, 2].into_iter().collect());
    let reachable = di.reachable_size();
    let total = di.size();
    let out = merge_transient_roots(di);
    assert_eq!(out.root, root);
    let transient = out.graph.node_count() - 1;
    assert_eq!(transient, 5);
    assert_eq!(out.graph[idx(transient)].kind(), NodeKind::Transient);
    assert_eq!(out.graph[idx(transient)].size, 0);
    assert_eq!(out.graph[idx(transient)].name(), b"{transient}".to_vec());
    assert!(out.graph.find_edge(idx(root), idx(0)).is_none());
    assert!(out.graph.find_edge(idx(transient), idx(0)).is_some());
    assert_eq!(children(&out, root), [1, transient].into_iter().collect());
    assert_eq!(children(&out, transient), [0, 2].into_iter().collect());
    assert_eq!(children(&out, 0), [3].into_iter().collect());
    assert_eq!(out.reachable_size(), reachable);
    assert_eq!(out.size(), total);
    assert_eq!(out.graph.edge_count(), 7);
}

#[test]
fn the_transient_node_is_the_first_child_of_the_root() {
    let di = graph(vec![link("a", 1), temporary(1, 2), link("b", 4)], &[]);
    assert_eq!(di.roots(), vec![2, 1, 0]);
    let out = merge_transient_roots(di);
    assert_eq!(out.roots(), vec![4, 2, 0]);
    // without a transient root the node is there all the same
    let di = graph(vec![link("a", 1)], &[]);
    let out = merge_transient_roots(di);
    assert_eq!(out.roots(), vec![2, 0]);
    assert_eq!(out.graph.neighbors(idx(2)).count(), 0);
}

#[test]
fn a_transient_node_that_is_no_child_of_the_root_stays() {
    // the root was asked for, so there is no edge to the memory root
    let mut g = new_graph();
    g.add_node(path("top", 1));
    g.add_node(DepNode::new(b"{memory:1}".to_vec(), false, 2).unwrap());
    g.add_node(temporary(2, 4));
    g.add_edge(idx(0), idx(2), ());
    g.add_edge(idx(2), idx(1), ());
    let di = DepInfos::read_from_store(g, 0, true).unwrap();
    let out = merge_transient_roots(di);
    assert_eq!(children(&out, 0), [3].into_iter().collect());
    assert_eq!(children(&out, 3), [2].into_iter().collect());
    assert_eq!(children(&out, 2), [1].into_iter().collect());
    assert_eq!(out.reachable_size(), 7);
    assert_eq!(out.metadata.reachable, Reachability::Connected);
    assert!(out.check_metadata());
}

#[test]
fn merging_keeps_the_order_of_the_edges() {
    let di = graph(
        vec![link("a", 1), path("x", 2), path("y", 4), path("z", 8)],
        &[(0, 1), (0, 2), (0, 3), (1, 3), (1, 2)],
    );
    let before: Vec<Vec<usize>> = (0..4)
        .map(|i| di.graph.neighbors(idx(i)).map(|n| n.index()).collect())
        .collect();
    let out = merge_transient_roots(di);
    let after: Vec<Vec<usize>> = (0..4)
        .map(|i| out.graph.neighbors(idx(i)).map(|n| n.index()).collect())
        .collect();
    assert_eq!(after, before);
    assert_eq!(before[0], vec![3, 2, 1]);
}

#[test]
fn only_what_the_root_reaches_is_retained() {
    let di = graph(
        vec![link("a", 1), path("x", 2), path("garbage", 4), path("y", 8)],
        &[(0, 1), (2, 1), (1, 3), (0, 3)],
    );
    let out = keep_reachable(di.clone());
    let mut got = nodes(&out);
    got.sort();
    assert_eq!(
        got,
        vec![
            ("/roots/a".to_string(), 1),
            ("x".to_string(), 2),
            ("y".to_string(), 8),
            ("{dummy}".to_string(), 0)
        ]
    );
    assert_eq!(
        edges(&out),
        named(&[
            ("{dummy}", "/roots/a"),
            ("/roots/a", "x"),
            ("/roots/a", "y"),
            ("x", "y")
        ])
    );
    assert_eq!(out.graph.edge_count(), 4);
    assert_eq!(out.graph[idx(out.root)].kind(), NodeKind::Dummy);
    assert_eq!(out.reachable_size(), 11);
    assert_eq!(out.size(), 11);
    assert!(out.check_metadata());
    // the nodes stand in the order that is given
    let out = keep_reachable_along(di, &vec![3, 4, 0, 1]);
    assert_eq!(
        nodes(&out),
        vec![
            ("y".to_string(), 8),
            ("{dummy}".to_string(), 0),
            ("/roots/a".to_string(), 1),
            ("x".to_string(), 2)
        ]
    );
    assert_eq!(out.root, 1);
    let targets: Vec<usize> = out.graph.neighbors(idx(2)).map(|n| n.index()).collect();
    assert_eq!(targets, vec![0, 3]);
}
