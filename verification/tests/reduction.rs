// SPDX-License-Identifier: LGPL-3.0

use nix_du::depgraph::DepInfos;
use nix_du::metadata::{DedupAwareness, Reachability, SizeMetadata};
use nix_du::node::{DepNode, NodeDescription, NodeKind};
use nix_du::graph::DepGraph;
use nix_du::reduction::{condense, keep, keep_reachable, merge_transient_roots};
use petgraph::visit::EdgeRef;
use petgraph::visit::IntoNodeReferences;
use petgraph::visit::NodeRef;
use rand::distributions::{IndependentSample, Weighted, WeightedChoice};
use rand::Rng;
use std::collections::{BTreeMap, BTreeSet};

type NodeIndex = petgraph::graph::NodeIndex<usize>;

fn roots_name(di: &DepInfos) -> BTreeSet<String> {
    di.roots_name()
        .iter()
        .map(|name| String::from_utf8_lossy(name).into_owned())
        .collect()
}

/// whether the node is a root: a child of the designated root
fn is_root(di: &DepInfos, idx: NodeIndex) -> bool {
    di.graph.find_edge(NodeIndex::new(di.root), idx).is_some()
}

/// asserts that `transform` preserves
/// * the set of roots, py path
/// * reachable size
/// and returns a coherent `DepInfos`
fn check_invariants<T: Fn(DepInfos) -> DepInfos>(transform: T, di: DepInfos, same_roots: bool) {
    let orig = di.clone();
    let new = transform(di);
    if same_roots {
        assert_eq!(roots_name(&new), roots_name(&orig));
    }
    assert_eq!(new.reachable_size(), orig.reachable_size());
    assert!(new.root < new.graph.node_count());
    let mut recorded = new.clone();
    recorded.record_metadata();
    assert!(recorded.check_metadata());
}

/// generates a random `DepInfos` where
/// * all derivations have a distinct path
/// * there are `size` derivations
/// * the expected average degree of the graph should be `avg_degree`
/// * the first 62 nodes have size `1<<index`
fn generate_random(size: u32, avg_degree: u32) -> DepInfos {
    assert!(avg_degree <= size - 1);
    let mut items = vec![
        Weighted {
            weight: avg_degree,
            item: true,
        },
        Weighted {
            weight: size - 1 - avg_degree,
            item: false,
        },
    ];
    let wc = WeightedChoice::new(&mut items);
    let mut rng = rand::thread_rng();
    let mut g: DepGraph = DepGraph::with_capacity(0, 0);
    for i in 0..size {
        let description = if rng.gen() {
            NodeDescription::Path(i.to_string().into_bytes())
        } else if rng.gen() {
            NodeDescription::Memory(format!("{{memory:{}}}", i).into_bytes())
        } else {
            NodeDescription::Temporary(format!("{{temp:{}}}", i).into_bytes())
        };
        let size = if i < 62 {
            1u64 << i
        } else {
            3 + 2 * (i as u64)
        };
        g.add_node(DepNode { description, size });
    }
    for i in 0..size {
        for j in (i + 1)..size {
            if wc.ind_sample(&mut rng) {
                g.add_edge(NodeIndex::new(i as usize), NodeIndex::new(j as usize), ());
            }
        }
    }
    let roots: std::vec::Vec<NodeIndex> = g
        .externals(petgraph::Direction::Incoming)
        .filter(|_| rng.gen())
        .collect();
    let root = g.add_node(DepNode::dummy());
    for &idx in &roots {
        g.add_edge(root, idx, ());
    }
    DepInfos {
        graph: g,
        root: root.index(),
        metadata: SizeMetadata::unset(Reachability::Disconnected, DedupAwareness::Unaware),
    }
}

fn size_to_old_nodes(drv: &DepNode) -> BTreeSet<NodeIndex> {
    (0..62)
        .filter(|i| drv.size & (1u64 << i) != 0)
        .map(NodeIndex::new)
        .collect()
}

fn path_to_old_size(drv: &DepNode) -> u32 {
    let path = drv.description.path().cloned().unwrap_or_default();
    let only_digits: Vec<u8> = path.iter().cloned().filter(|x| x.is_ascii_digit()).collect();
    match String::from_utf8_lossy(&only_digits).parse() {
        Ok(x) => x,
        Err(_) => panic!("Cannot convert {:?} {:?}", path, only_digits),
    }
}

fn revmap(g: &DepGraph) -> BTreeMap<DepNode, NodeIndex> {
    let mut map = BTreeMap::new();
    for n in g.node_references() {
        map.insert(n.weight().clone(), n.id());
    }
    map
}

#[test]
/// check that condense and keep preserve some invariants
fn invariants() {
    for _ in 0..40 {
        let di = generate_random(250, 10);
        check_invariants(merge_transient_roots, di.clone(), false);
        check_invariants(condense, di.clone(), true);
        check_invariants(keep_reachable, di.clone(), true);
        check_invariants(|x| keep(x, |_| false), di.clone(), false);
        check_invariants(|x| keep(x, |_| true), di.clone(), true);
    }
}

#[test]
fn check_merge_transient_roots() {
    for _ in 0..40 {
        let old = generate_random(250, 10);
        let new = merge_transient_roots(old.clone());
        assert_eq!(new.root, old.root);
        let old_root = NodeIndex::new(old.root);
        for edge in new.graph.edge_references() {
            let new_child = &new.graph[edge.target()];
            let new_parent = &new.graph[edge.source()];
            let existed = edge.source().index() < old.graph.node_count()
                && edge.target().index() < old.graph.node_count()
                && old.graph.find_edge(edge.source(), edge.target()).is_some()
                && !(edge.source() == old_root && old.graph[edge.target()].kind().is_transient());
            if existed {
                let old_parent = &old.graph[edge.source()];
                let old_child = &old.graph[edge.target()];
                assert_eq!(old_parent.description, new_parent.description);
                assert_eq!(old_parent.size, new_parent.size);
                assert_eq!(old_child, new_child);
                if is_root(&old, edge.target()) != is_root(&new, edge.target()) {
                    assert!(is_root(&old, edge.target()));
                    assert!(!is_root(&new, edge.target()));
                }
            } else if edge.source() == old_root {
                assert_eq!(new_child.kind(), NodeKind::Transient);
                assert_eq!(new_child.size, 0);
                assert_eq!(is_root(&new, edge.target()), true);
            } else {
                let old_child = &old.graph[edge.target()];
                assert!(old_child.kind().is_transient());
                assert!(is_root(&old, edge.target()));
                assert!(!is_root(&new, edge.target()));
                assert_eq!(new_parent.kind(), NodeKind::Transient);
                assert_eq!(new_parent.size, 0);
                assert_eq!(is_root(&new, edge.source()), true);
            }
        }
    }
}

#[test]
fn check_keep_reachable() {
    for _ in 0..40 {
        let old = generate_random(150, 1);
        let new = keep_reachable(old.clone());
        let old_map = revmap(&old.graph);
        let new_map = revmap(&new.graph);
        let old_w: BTreeSet<&DepNode> = old_map.keys().collect();
        let new_w: BTreeSet<&DepNode> = new_map.keys().collect();
        assert!(
            new_w.is_subset(&old_w),
            "new: {:?} \nold: {:?}",
            new_map,
            old_map
        );
        let mut space = petgraph::algo::DfsSpace::new(&old.graph);
        for (w, &i) in &old_map {
            let kept = new_map.contains_key(&w);
            let reachable = petgraph::algo::has_path_connecting(
                &old.graph,
                NodeIndex::new(old.root),
                i,
                Some(&mut space),
            );
            assert_eq!(kept, reachable);
        }
        for (w, &i) in &new_map {
            for (w2, &i2) in &new_map {
                let is_edge = new.graph.find_edge(i, i2).is_some();
                let was_edge = old
                    .graph
                    .find_edge(*(&old_map[&w]), *(&old_map[&w2]))
                    .is_some();
                assert_eq!(is_edge, was_edge);
            }
        }
    }
}

#[test]
fn check_condense() {
    // 62 so that each node is uniquely determined by its size, and
    // merging nodes doesn't destroy this information
    for _ in 0..80 {
        let old = generate_random(62, 10);
        let mut old_rev = old.graph.clone();
        old_rev.reverse();
        let new = condense(old.clone());
        let mut new_rev = new.graph.clone();
        new_rev.reverse();
        let oldroots: BTreeSet<NodeIndex> = old
            .roots()
            .iter()
            .map(|&idx| NodeIndex::new(idx))
            .collect();
        let get_dependent_roots = |which, idx| {
            let (di, grev) = if which {
                (&new, &new_rev)
            } else {
                (&old, &old_rev)
            };
            let mut dfs = petgraph::visit::Dfs::new(grev, idx);
            let mut res = BTreeSet::new();
            while let Some(nx) = dfs.next(grev) {
                if is_root(di, nx) {
                    res.extend(&size_to_old_nodes(&grev[nx]) & &oldroots);
                }
            }
            res
        };
        let mut nodes_image = BTreeSet::<BTreeSet<_>>::new();
        for (idx, drv) in new.graph.node_references() {
            if idx.index() == new.root {
                continue;
            }
            let after = get_dependent_roots(true, idx);
            let elements = size_to_old_nodes(drv);
            for &element in &elements {
                let before = get_dependent_roots(false, element);
                assert_eq!(
                    before,
                    after,
                    "new:{:?} and old:{:?} do not belong to the same equivalence class ({:?} != {:?})",
                    idx,
                    element,
                    after,
                    before
                );
            }
            nodes_image.insert(after);
            // here check edges
            for (idx2, drv2) in new.graph.node_references() {
                if idx2.index() == new.root {
                    continue;
                }
                let targets = size_to_old_nodes(drv2);
                let should_exist = idx != idx2
                    && elements.iter().any(|&from| {
                        targets
                            .iter()
                            .any(|&to| old.graph.find_edge(from, to).is_some())
                    });
                let exists = new.graph.find_edge(idx, idx2).is_some();
                assert_eq!(
                    should_exist,
                    exists,
                    "edge {:?} -> {:?} is wrong (expected: {:?})",
                    idx,
                    idx2,
                    should_exist
                );
            }
        }
        assert_eq!(
            nodes_image.len(),
            new.graph.node_count() - 1,
            "two nodes at least have the same equivalence class"
        );
    }
}

#[test]
fn check_keep() {
    let filter_drv = |drv: &DepNode| drv.size % 8 == 0; // third of the drvs
    let real_filter = |di: &DepInfos, n: NodeIndex| {
        let graph = &di.graph;
        let drv = &graph[n];
        let mut keep = false;
        if is_root(di, n) {
            let mut dfs = petgraph::visit::Dfs::new(&graph, n);
            while let Some(idx) = dfs.next(&graph) {
                if filter_drv(&graph[idx]) {
                    keep = true;
                    break;
                }
            }
            keep
        } else {
            filter_drv(&drv)
        }
    };
    for _ in 0..50 {
        let old = generate_random(62, 1);
        let mut new = keep(old.clone(), &filter_drv);
        println!(
            "OLD:\n{:?}\nNew:\n{:?}",
            petgraph::dot::Dot::new(&old.graph),
            petgraph::dot::Dot::new(&new.graph)
        );
        // first let's get rid of {filtered out}
        let fake_roots = new
            .graph
            .node_references()
            .filter_map(|n| {
                if n.weight().kind() == NodeKind::FilteredOut {
                    Some(n.id())
                } else {
                    None
                }
            })
            .collect::<BTreeSet<_>>();
        assert!(fake_roots.len() < 2, "fake_roots={:?}", fake_roots);
        if let Some(&id) = fake_roots.iter().next() {
            // the node that gathers what was filtered out comes last
            assert_eq!(id.index(), new.graph.node_count() - 1);
            assert!(is_root(&new, id));
            new.graph.remove_node(id);
        }
        // nodes:
        //   * roots
        let old_roots = roots_name(&old);
        let new_roots = roots_name(&new);
        assert!(old_roots.is_superset(&new_roots));
        assert!(fake_roots.len() == 1 || new_roots.is_superset(&old_roots));
        //   * labels
        let labels = |di: &DepInfos, all| {
            di.graph
                .node_references()
                .filter_map(|n| {
                    if n.id().index() != di.root && (all || real_filter(di, n.id())) {
                        Some(n.weight().description.path().cloned())
                    } else {
                        None
                    }
                })
                .collect::<BTreeSet<_>>()
        };
        assert_eq!(labels(&old, false), labels(&new, true));
        //  * size
        let filtered = petgraph::visit::EdgeFiltered::from_fn(&old.graph, |e| {
            !filter_drv(&old.graph[e.target()])
        });
        let filtered2 = petgraph::visit::EdgeFiltered::from_fn(&old.graph, |e| {
            !filter_drv(&old.graph[e.source()])
        });
        let mut space = petgraph::algo::DfsSpace::new(&filtered);
        for (id, drv) in new.graph.node_references() {
            if id.index() == new.root {
                continue;
            }
            let top = NodeIndex::new(path_to_old_size(drv) as usize);
            assert!(drv.size & (1u64 << top.index()) != 0);
            for child in size_to_old_nodes(drv) {
                assert!(
                    petgraph::algo::has_path_connecting(&filtered, top, child, Some(&mut space)),
                    "should not have coalesced {:?} and {:?}",
                    top,
                    child
                );
            }
            // also check edges from here
            for (id2, drv2) in new.graph.node_references() {
                if id2.index() == new.root {
                    continue;
                }
                let bottom = NodeIndex::new(path_to_old_size(drv2) as usize);
                let targets = size_to_old_nodes(drv2);
                let mut path_from_here_to = |targets: BTreeSet<NodeIndex>| {
                    targets.iter().any(|&target| {
                        old.graph.find_edge(top, target).is_some()
                            || old.graph.edges(top).any(|edge| {
                                let intermediate = edge.target();
                                petgraph::algo::has_path_connecting(
                                    &filtered2,
                                    intermediate,
                                    target,
                                    Some(&mut space),
                                )
                            })
                    })
                };
                let should_exist =
                    id != id2 && path_from_here_to([bottom].iter().cloned().collect());
                let may_exist = id != id2 && path_from_here_to(targets);
                let exists = new.graph.find_edge(id, id2).is_some();
                // should => exists /\ exists => may
                assert!(
                    (!should_exist || exists) && (!exists || may_exist),
                    "edge {:?} -> {:?} is debatable (expected: {:?}, acceptable: {:?})",
                    id,
                    id2,
                    should_exist,
                    may_exist
                );
            }
        }
    }
}
