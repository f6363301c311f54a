// SPDX-License-Identifier: LGPL-3.0

use nix_du::node::{DepNode, NodeDescription, NodeKind};

fn new(path: &[u8], is_root: bool, size: u64) -> Result<DepNode, Vec<u8>> {
    DepNode::new(path.to_vec(), is_root, size)
}

#[test]
fn gc_root_kinds() {
    for kind in [
        NodeKind::Link,
        NodeKind::Memory,
        NodeKind::Temporary,
        NodeKind::Transient,
    ] {
        assert!(kind.is_gc_root(), "{:?}", kind);
    }
    for kind in [
        NodeKind::Path,
        NodeKind::Dummy,
        NodeKind::FilteredOut,
        NodeKind::Shared,
    ] {
        assert!(!kind.is_gc_root(), "{:?}", kind);
    }
}

#[test]
fn transient_kinds() {
    for kind in [NodeKind::Memory, NodeKind::Temporary] {
        assert!(kind.is_transient(), "{:?}", kind);
    }
    for kind in [
        NodeKind::Path,
        NodeKind::Link,
        NodeKind::Dummy,
        NodeKind::FilteredOut,
        NodeKind::Transient,
        NodeKind::Shared,
    ] {
        assert!(!kind.is_transient(), "{:?}", kind);
    }
}

#[test]
fn temporary_root_is_classified() {
    let node = new(b"{temp:123}", false, 7).unwrap();
    assert_eq!(node.kind(), NodeKind::Temporary);
    assert_eq!(
        node.description,
        NodeDescription::Temporary(b"{temp:123}".to_vec())
    );
    assert_eq!(node.size, 7);
}

#[test]
fn paths_below_proc_are_memory_roots() {
    let node = new(b"/proc/4242/maps", false, 1).unwrap();
    assert_eq!(
        node.description,
        NodeDescription::Memory(b"/proc/4242/maps".to_vec())
    );
    // being declared a root changes nothing
    let node = new(b"/proc/1/exe", true, 1).unwrap();
    assert_eq!(node.kind(), NodeKind::Memory);
    // `/proc` itself is not below `/proc/`
    assert_eq!(new(b"/proc", false, 1).unwrap().kind(), NodeKind::Path);
    assert_eq!(new(b"/procfs/x", false, 1).unwrap().kind(), NodeKind::Path);
}

#[test]
fn declared_roots_are_links() {
    let node = new(b"/home/me/result", true, 0).unwrap();
    assert_eq!(
        node.description,
        NodeDescription::Link(b"/home/me/result".to_vec())
    );
    let node = new(b"/nix/store/abc-hello-2.10", false, 99).unwrap();
    assert_eq!(
        node.description,
        NodeDescription::Path(b"/nix/store/abc-hello-2.10".to_vec())
    );
    assert_eq!(node.size, 99);
    assert_eq!(new(b"/", false, 0).unwrap().kind(), NodeKind::Path);
}

#[test]
fn bracketed_markers_of_memory_roots() {
    assert_eq!(new(b"{memory:17}", false, 0).unwrap().kind(), NodeKind::Memory);
    assert_eq!(new(b"{memory:", true, 0).unwrap().kind(), NodeKind::Memory);
    assert_eq!(new(b"{lsof}", false, 0).unwrap().kind(), NodeKind::Memory);
    assert_eq!(new(b"{censored}", false, 0).unwrap().kind(), NodeKind::Memory);
    assert_eq!(new(b"{temp:", false, 0).unwrap().kind(), NodeKind::Temporary);
}

#[test]
fn unknown_shapes_are_handed_back() {
    for path in [
        &b""[..],
        b"relative/path",
        b"{lsof}x",
        b"{censored} ",
        b"{lso",
        b"{memory",
        b"{temp",
        b"{other:1}",
        b" /nix/store/x",
    ] {
        assert_eq!(new(path, false, 3), Err(path.to_vec()), "{:?}", path);
        assert_eq!(new(path, true, 3), Err(path.to_vec()), "{:?}", path);
    }
}

fn name_of_path(path: &[u8]) -> Vec<u8> {
    NodeDescription::Path(path.to_vec()).name().into_owned()
}

#[test]
fn name_of_a_store_path() {
    assert_eq!(name_of_path(b"/nix/store/hash-blah"), b"blah".to_vec());
    // what follows the first dash of the last component
    assert_eq!(
        name_of_path(b"/nix/store/0123abc-hello-2.10"),
        b"hello-2.10".to_vec()
    );
    // a dash in a directory does not count
    assert_eq!(name_of_path(b"/a-b/c-d"), b"d".to_vec());
    assert_eq!(name_of_path(b"/nix/store/hash-"), b"".to_vec());
}

#[test]
fn name_of_a_malformed_store_path() {
    // without a dash: all that follows the last slash
    assert_eq!(name_of_path(b"/nix/store/nodash"), b"nodash".to_vec());
    assert_eq!(name_of_path(b"/a-b/"), b"".to_vec());
    // without a slash: the whole path, dashes or not
    assert_eq!(name_of_path(b"hash-blah"), b"hash-blah".to_vec());
    assert_eq!(name_of_path(b""), b"".to_vec());
}

#[test]
fn the_name_of_a_path_is_borrowed_from_it() {
    let description = NodeDescription::Path(b"/nix/store/hash-blah".to_vec());
    assert!(matches!(description.name(), std::borrow::Cow::Borrowed(_)));
    let description = NodeDescription::Link(b"/home/me/result".to_vec());
    assert!(matches!(description.name(), std::borrow::Cow::Borrowed(_)));
}

#[test]
fn names_of_the_other_descriptions() {
    assert_eq!(
        NodeDescription::Link(b"/home/me/result-1".to_vec()).name(),
        b"/home/me/result-1".to_vec()
    );
    assert_eq!(
        NodeDescription::Memory(b"{memory:3}".to_vec()).name(),
        b"{memory:3}".to_vec()
    );
    assert_eq!(
        NodeDescription::Temporary(b"{temp:9}".to_vec()).name(),
        b"{temp:9}".to_vec()
    );
    assert_eq!(NodeDescription::Dummy.name(), b"{dummy}".to_vec());
    assert_eq!(NodeDescription::FilteredOut.name(), b"{filtered out}".to_vec());
    assert_eq!(NodeDescription::Transient.name(), b"{transient}".to_vec());
    assert_eq!(
        NodeDescription::Shared(b"ab/cd-ef".to_vec()).name(),
        b"shared:ab/cd-ef".to_vec()
    );
}

#[test]
fn path_and_kind_of_each_description() {
    let bytes = b"/x/y".to_vec();
    let with_path = [
        (NodeDescription::Path(bytes.clone()), NodeKind::Path),
        (NodeDescription::Link(bytes.clone()), NodeKind::Link),
        (NodeDescription::Memory(bytes.clone()), NodeKind::Memory),
        (NodeDescription::Temporary(bytes.clone()), NodeKind::Temporary),
        (NodeDescription::Shared(bytes.clone()), NodeKind::Shared),
    ];
    for (description, kind) in &with_path {
        assert_eq!(description.path(), Some(&bytes));
        assert_eq!(description.kind(), *kind);
        assert_eq!(description.duplicate(), *description);
    }
    let without = [
        (NodeDescription::Dummy, NodeKind::Dummy),
        (NodeDescription::FilteredOut, NodeKind::FilteredOut),
        (NodeDescription::Transient, NodeKind::Transient),
    ];
    for (description, kind) in &without {
        assert_eq!(description.path(), None);
        assert_eq!(description.kind(), *kind);
        assert_eq!(description.duplicate(), *description);
    }
}

#[test]
fn the_dummy_node() {
    let node = DepNode::dummy();
    assert_eq!(node.description, NodeDescription::Dummy);
    assert_eq!(node.size, 0);
    assert_eq!(node.kind(), NodeKind::Dummy);
    assert_eq!(node.name(), b"{dummy}".to_vec());
    assert_eq!(node.duplicate(), node);
}

#[test]
fn nodes_are_ordered_by_description_then_size() {
    let small = DepNode {
        description: NodeDescription::Path(b"/a".to_vec()),
        size: 1,
    };
    let big = DepNode {
        description: NodeDescription::Path(b"/a".to_vec()),
        size: 2,
    };
    let other = DepNode {
        description: NodeDescription::Path(b"/b".to_vec()),
        size: 0,
    };
    assert!(small < big);
    assert!(big < other);
}
