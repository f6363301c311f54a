// SPDX-License-Identifier: LGPL-3.0

//! Nodes of the dependency graph: what a storage object is and how big it is.

use crate::bytes::{has_prefix, same_bytes, starts_with};
use std::borrow::Cow;
use vstd::prelude::*;
use vstd::slice::slice_subrange;

verus! {

/// The semantic kind of a node.
#[derive(Clone, Copy, Debug, PartialEq, Eq, Structural, PartialOrd, Ord)]
pub enum NodeKind {
    Path,
    Link,
    Dummy,
    FilteredOut,
    Memory,
    Temporary,
    Transient,
    Shared,
}

impl NodeKind {
    /// Kinds that stand for an external reference keeping objects alive.
    pub open spec fn spec_is_gc_root(self) -> bool {
        self == NodeKind::Transient || self == NodeKind::Link || self == NodeKind::Memory
            || self == NodeKind::Temporary
    }

    /// Kinds of roots that are not backed by a path on disk.
    pub open spec fn spec_is_transient(self) -> bool {
        self == NodeKind::Memory || self == NodeKind::Temporary
    }

    /// Whether a node of this kind is an external reference that keeps
    /// objects alive.
    #[verifier::when_used_as_spec(spec_is_gc_root)]
    pub fn is_gc_root(self) -> (res: bool)
        ensures
            res == self.spec_is_gc_root(),
    {
        match self {
            NodeKind::Transient | NodeKind::Link | NodeKind::Memory | NodeKind::Temporary => true,
            NodeKind::FilteredOut | NodeKind::Path | NodeKind::Shared | NodeKind::Dummy => false,
        }
    }

    /// Whether a node of this kind is a root that no path on disk backs.
    #[verifier::when_used_as_spec(spec_is_transient)]
    pub fn is_transient(self) -> (res: bool)
        ensures
            res == self.spec_is_transient(),
    {
        match self {
            NodeKind::Memory | NodeKind::Temporary => true,
            NodeKind::Transient
            | NodeKind::Link
            | NodeKind::FilteredOut
            | NodeKind::Path
            | NodeKind::Shared
            | NodeKind::Dummy => false,
        }
    }
}

/// A byte path in the store.
pub type Path = Vec<u8>;

/// The byte `/`.
pub const SLASH: u8 = 0x2f;

/// The byte `-`.
pub const DASH: u8 = 0x2d;

/// `/proc/`: paths below it are roots held by a running process.
pub open spec fn proc_prefix() -> Seq<u8> {
    seq![0x2fu8, 0x70u8, 0x72u8, 0x6fu8, 0x63u8, 0x2fu8]
}

/// `{memory:`: how older store daemons name a root held in memory.
pub open spec fn memory_marker() -> Seq<u8> {
    seq![0x7bu8, 0x6du8, 0x65u8, 0x6du8, 0x6fu8, 0x72u8, 0x79u8, 0x3au8]
}

/// `{lsof}`: a root found by listing open files.
pub open spec fn lsof_marker() -> Seq<u8> {
    seq![0x7bu8, 0x6cu8, 0x73u8, 0x6fu8, 0x66u8, 0x7du8]
}

/// `{censored}`: a root whose origin the daemon does not disclose.
pub open spec fn censored_marker() -> Seq<u8> {
    seq![0x7bu8, 0x63u8, 0x65u8, 0x6eu8, 0x73u8, 0x6fu8, 0x72u8, 0x65u8, 0x64u8, 0x7du8]
}

/// `{temp:`: a temporary root.
pub open spec fn temp_marker() -> Seq<u8> {
    seq![0x7bu8, 0x74u8, 0x65u8, 0x6du8, 0x70u8, 0x3au8]
}

/// `shared:`: put in front of the identifier of a deduplicated object.
pub open spec fn shared_prefix() -> Seq<u8> {
    seq![0x73u8, 0x68u8, 0x61u8, 0x72u8, 0x65u8, 0x64u8, 0x3au8]
}

/// `{dummy}`
pub open spec fn dummy_name() -> Seq<u8> {
    seq![0x7bu8, 0x64u8, 0x75u8, 0x6du8, 0x6du8, 0x79u8, 0x7du8]
}

/// `{filtered out}`
pub open spec fn filtered_out_name() -> Seq<u8> {
    seq![
        0x7bu8, 0x66u8, 0x69u8, 0x6cu8, 0x74u8, 0x65u8, 0x72u8, 0x65u8, 0x64u8, 0x20u8, 0x6fu8,
        0x75u8, 0x74u8, 0x7du8,
    ]
}

/// `{transient}`
pub open spec fn transient_name() -> Seq<u8> {
    seq![0x7bu8, 0x74u8, 0x72u8, 0x61u8, 0x6eu8, 0x73u8, 0x69u8, 0x65u8, 0x6eu8, 0x74u8, 0x7du8]
}

/// What a node stands for.
#[derive(Clone, Debug, PartialEq, Eq, PartialOrd, Ord)]
pub enum NodeDescription {
    /// A real, valid store path
    Path(Path),
    /// An indirect root, as a link on the filesystem
    Link(Path),
    /// A dummy node, for example the fake root whose children are all the roots
    Dummy,
    /// A node gathering all filtered out ones
    FilteredOut,
    /// A node gathering all Memory and Temporary roots
    Transient,
    /// An in-memory root
    Memory(Path),
    /// A temporary root
    Temporary(Path),
    /// Symbolises a set of inodes de-duplicated by store optimisation
    Shared(Path),
}

/// The mathematical value of a [`NodeDescription`].
pub enum DescriptionView {
    Path(Seq<u8>),
    Link(Seq<u8>),
    Dummy,
    FilteredOut,
    Transient,
    Memory(Seq<u8>),
    Temporary(Seq<u8>),
    Shared(Seq<u8>),
}

impl DescriptionView {
    /// The kind of the description.
    pub open spec fn kind(self) -> NodeKind {
        match self {
            DescriptionView::Path(_) => NodeKind::Path,
            DescriptionView::Link(_) => NodeKind::Link,
            DescriptionView::Memory(_) => NodeKind::Memory,
            DescriptionView::Temporary(_) => NodeKind::Temporary,
            DescriptionView::Shared(_) => NodeKind::Shared,
            DescriptionView::Dummy => NodeKind::Dummy,
            DescriptionView::FilteredOut => NodeKind::FilteredOut,
            DescriptionView::Transient => NodeKind::Transient,
        }
    }

    /// The bytes the description carries, if it carries any.
    pub open spec fn path(self) -> Option<Seq<u8>> {
        match self {
            DescriptionView::Path(p)
            | DescriptionView::Link(p)
            | DescriptionView::Memory(p)
            | DescriptionView::Temporary(p)
            | DescriptionView::Shared(p) => Some(p),
            DescriptionView::Dummy | DescriptionView::FilteredOut | DescriptionView::Transient => None,
        }
    }

    /// The label shown for the node.
    pub open spec fn name(self) -> Seq<u8> {
        match self {
            DescriptionView::Path(p) => store_name(p),
            DescriptionView::Link(p) | DescriptionView::Memory(p) | DescriptionView::Temporary(p) => p,
            DescriptionView::Dummy => dummy_name(),
            DescriptionView::FilteredOut => filtered_out_name(),
            DescriptionView::Transient => transient_name(),
            DescriptionView::Shared(id) => shared_prefix() + id,
        }
    }
}

/// `blah` for the store path `/nix/store/<hash>-blah`: what follows the first
/// `-` of what follows the last `/`. Without a `/` it is the whole path, and
/// without a `-` all that follows the last `/`.
pub open spec fn store_name(path: Seq<u8>) -> Seq<u8> {
    match path.index_of_last(SLASH) {
        None => path,
        Some(i) => {
            let base = path.skip(i + 1);
            match base.index_of_first(DASH) {
                None => base,
                Some(j) => base.skip(j + 1),
            }
        },
    }
}

impl View for NodeDescription {
    type V = DescriptionView;

    open spec fn view(&self) -> DescriptionView {
        match self {
            NodeDescription::Path(p) => DescriptionView::Path(p@),
            NodeDescription::Link(p) => DescriptionView::Link(p@),
            NodeDescription::Dummy => DescriptionView::Dummy,
            NodeDescription::FilteredOut => DescriptionView::FilteredOut,
            NodeDescription::Transient => DescriptionView::Transient,
            NodeDescription::Memory(p) => DescriptionView::Memory(p@),
            NodeDescription::Temporary(p) => DescriptionView::Temporary(p@),
            NodeDescription::Shared(p) => DescriptionView::Shared(p@),
        }
    }
}

impl NodeDescription {
    /// Return `blah` when the path of the derivation is
    /// `/nix/store/<hash>-blah`. On a path of another shape, a bigger part of
    /// the path is returned.
    pub fn name(&self) -> (res: Cow<'_, [u8]>)
        ensures
            res@ == self@.name(),
    {
        match self {
            NodeDescription::Path(path) => {
                let whole = path.as_slice();
                let inner = match memchr::memrchr(SLASH, whole) {
                    None => whole,
                    Some(i) => {
                        proof {
                            whole@.index_of_last_ensures(SLASH);
                            assert(whole@.index_of_last(SLASH) == Some(i as int));
                            assert(i < whole@.len());
                        }
                        let len = whole.len();
                        let base = slice_subrange(whole, i + 1, len);
                        assert(base@ == whole@.skip(i + 1));
                        match memchr::memchr(DASH, base) {
                            None => base,
                            Some(j) => {
                                proof {
                                    base@.index_of_first_ensures(DASH);
                                    assert(base@.index_of_first(DASH) == Some(j as int));
                                    assert(j < base@.len());
                                }
                                let base_len = base.len();
                                let tail = slice_subrange(base, j + 1, base_len);
                                assert(tail@ == base@.skip(j + 1));
                                tail
                            },
                        }
                    },
                };
                Cow::Borrowed(inner)
            },
            NodeDescription::Link(path)
            | NodeDescription::Memory(path)
            | NodeDescription::Temporary(path) => Cow::Borrowed(path.as_slice()),
            NodeDescription::Dummy => {
                let res: Vec<u8> = vec![0x7b, 0x64, 0x75, 0x6d, 0x6d, 0x79, 0x7d];
                assert(res@ =~= dummy_name());
                Cow::Owned(res)
            },
            NodeDescription::FilteredOut => {
                let res: Vec<u8> = vec![
                    0x7b, 0x66, 0x69, 0x6c, 0x74, 0x65, 0x72, 0x65, 0x64, 0x20, 0x6f, 0x75, 0x74, 0x7d,
                ];
                assert(res@ =~= filtered_out_name());
                Cow::Owned(res)
            },
            NodeDescription::Transient => {
                let res: Vec<u8> = vec![
                    0x7b, 0x74, 0x72, 0x61, 0x6e, 0x73, 0x69, 0x65, 0x6e, 0x74, 0x7d,
                ];
                assert(res@ =~= transient_name());
                Cow::Owned(res)
            },
            NodeDescription::Shared(id) => {
                let mut res: Vec<u8> = vec![0x73, 0x68, 0x61, 0x72, 0x65, 0x64, 0x3a];
                assert(res@ =~= shared_prefix());
                res.extend_from_slice(id.as_slice());
                Cow::Owned(res)
            },
        }
    }

    /// The bytes the description carries, if it carries any.
    pub fn path(&self) -> (res: Option<&Path>)
        ensures
            match res {
                Some(p) => self@.path() == Some(p@),
                None => self@.path() is None,
            },
    {
        match self {
            NodeDescription::Link(path)
            | NodeDescription::Path(path)
            | NodeDescription::Memory(path)
            | NodeDescription::Temporary(path) => Some(path),
            NodeDescription::Shared(name) => Some(name),
            NodeDescription::Transient | NodeDescription::Dummy | NodeDescription::FilteredOut => None,
        }
    }

    /// The kind of the description.
    pub fn kind(&self) -> (res: NodeKind)
        ensures
            res == self@.kind(),
    {
        match self {
            NodeDescription::Path(_) => NodeKind::Path,
            NodeDescription::Link(_) => NodeKind::Link,
            NodeDescription::Memory(_) => NodeKind::Memory,
            NodeDescription::Temporary(_) => NodeKind::Temporary,
            NodeDescription::Shared(_) => NodeKind::Shared,
            NodeDescription::Dummy => NodeKind::Dummy,
            NodeDescription::FilteredOut => NodeKind::FilteredOut,
            NodeDescription::Transient => NodeKind::Transient,
        }
    }

    /// A copy of the description.
    pub fn duplicate(&self) -> (res: NodeDescription)
        ensures
            res@ == self@,
    {
        match self {
            NodeDescription::Path(p) => NodeDescription::Path(p.clone()),
            NodeDescription::Link(p) => NodeDescription::Link(p.clone()),
            NodeDescription::Dummy => NodeDescription::Dummy,
            NodeDescription::FilteredOut => NodeDescription::FilteredOut,
            NodeDescription::Transient => NodeDescription::Transient,
            NodeDescription::Memory(p) => NodeDescription::Memory(p.clone()),
            NodeDescription::Temporary(p) => NodeDescription::Temporary(p.clone()),
            NodeDescription::Shared(p) => NodeDescription::Shared(p.clone()),
        }
    }
}

/// What the store reports of an object of the given path, or `None` where
/// the path has none of the known shapes.
pub open spec fn classify(path: Seq<u8>, is_root: bool) -> Option<DescriptionView> {
    if path.len() > 0 && path[0] == SLASH {
        if has_prefix(path, proc_prefix()) {
            Some(DescriptionView::Memory(path))
        } else if is_root {
            Some(DescriptionView::Link(path))
        } else {
            Some(DescriptionView::Path(path))
        }
    } else if has_prefix(path, memory_marker()) || path == lsof_marker() || path
        == censored_marker() {
        Some(DescriptionView::Memory(path))
    } else if has_prefix(path, temp_marker()) {
        Some(DescriptionView::Temporary(path))
    } else {
        None
    }
}

/// A node of the dependency graph.
#[derive(Clone, Debug, PartialEq, Eq, PartialOrd, Ord)]
pub struct DepNode {
    pub description: NodeDescription,
    /// size in bytes
    pub size: u64,
}

/// The mathematical value of a [`DepNode`].
pub struct NodeView {
    pub description: DescriptionView,
    pub size: u64,
}

impl View for DepNode {
    type V = NodeView;

    open spec fn view(&self) -> NodeView {
        NodeView { description: self.description@, size: self.size }
    }
}

impl DepNode {
    /// The node for an object that the store reports under `path`, with
    /// whether the store declares it a root and its size. A path of unknown
    /// shape is handed back.
    pub fn new(path: Path, is_root: bool, size: u64) -> (res: Result<DepNode, Path>)
        ensures
            match res {
                Ok(node) => classify(path@, is_root) == Some(node@.description) && node.size
                    == size,
                Err(p) => classify(path@, is_root) is None && p@ == path@,
            },
    {
        let proc: [u8; 6] = [0x2f, 0x70, 0x72, 0x6f, 0x63, 0x2f];
        let memory: [u8; 8] = [0x7b, 0x6d, 0x65, 0x6d, 0x6f, 0x72, 0x79, 0x3a];
        let lsof: [u8; 6] = [0x7b, 0x6c, 0x73, 0x6f, 0x66, 0x7d];
        let censored: [u8; 10] = [0x7b, 0x63, 0x65, 0x6e, 0x73, 0x6f, 0x72, 0x65, 0x64, 0x7d];
        let temp: [u8; 6] = [0x7b, 0x74, 0x65, 0x6d, 0x70, 0x3a];
        assert(proc@ =~= proc_prefix());
        assert(memory@ =~= memory_marker());
        assert(lsof@ =~= lsof_marker());
        assert(censored@ =~= censored_marker());
        assert(temp@ =~= temp_marker());
        let description = if path.len() > 0 && path[0] == SLASH {
            if starts_with(path.as_slice(), proc.as_slice()) {
                NodeDescription::Memory(path)
            } else if is_root {
                NodeDescription::Link(path)
            } else {
                NodeDescription::Path(path)
            }
        } else if starts_with(path.as_slice(), memory.as_slice()) || same_bytes(
            path.as_slice(),
            lsof.as_slice(),
        ) || same_bytes(path.as_slice(), censored.as_slice()) {
            NodeDescription::Memory(path)
        } else if starts_with(path.as_slice(), temp.as_slice()) {
            NodeDescription::Temporary(path)
        } else {
            return Err(path);
        };
        Ok(DepNode { description, size })
    }

    /// The node that stands for nothing in the store and weighs nothing.
    pub fn dummy() -> (res: DepNode)
        ensures
            res@ == (NodeView { description: DescriptionView::Dummy, size: 0 }),
    {
        DepNode { description: NodeDescription::Dummy, size: 0 }
    }

    /// The kind of the node.
    pub fn kind(&self) -> (res: NodeKind)
        ensures
            res == self@.description.kind(),
    {
        self.description.kind()
    }

    /// The label shown for the node.
    pub fn name(&self) -> (res: Cow<'_, [u8]>)
        ensures
            res@ == self@.description.name(),
    {
        self.description.name()
    }

    /// A copy of the node.
    pub fn duplicate(&self) -> (res: DepNode)
        ensures
            res@ == self@,
    {
        DepNode { description: self.description.duplicate(), size: self.size }
    }
}

} // verus!
