// SPDX-License-Identifier: LGPL-3.0

//! The sizes recorded of a graph.

use vstd::prelude::*;

verus! {

/// Whether all nodes are reachable from the root
#[derive(Debug, Clone, Copy, PartialEq, Eq, Structural)]
pub enum Reachability {
    Connected,
    Disconnected,
}

/// Whether deduplicated nodes are counted several times
#[derive(Debug, Clone, Copy, PartialEq, Eq, Structural)]
pub enum DedupAwareness {
    Aware,
    Unaware,
}

/// One optional size for each pair of a dedup-awareness and a reachability.
#[derive(Debug, Clone, Copy, PartialEq, Eq)]
pub struct SizeTable {
    pub aware_connected: Option<u64>,
    pub aware_disconnected: Option<u64>,
    pub unaware_connected: Option<u64>,
    pub unaware_disconnected: Option<u64>,
}

impl SizeTable {
    /// The cell for `dedup` and `reachable`.
    pub open spec fn cell(self, dedup: DedupAwareness, reachable: Reachability) -> Option<u64> {
        match (dedup, reachable) {
            (DedupAwareness::Aware, Reachability::Connected) => self.aware_connected,
            (DedupAwareness::Aware, Reachability::Disconnected) => self.aware_disconnected,
            (DedupAwareness::Unaware, Reachability::Connected) => self.unaware_connected,
            (DedupAwareness::Unaware, Reachability::Disconnected) => self.unaware_disconnected,
        }
    }

    /// The table with `value` in the cell for `dedup` and `reachable`.
    pub open spec fn with_cell(
        self,
        dedup: DedupAwareness,
        reachable: Reachability,
        value: Option<u64>,
    ) -> SizeTable {
        match (dedup, reachable) {
            (DedupAwareness::Aware, Reachability::Connected) => SizeTable {
                aware_connected: value,
                ..self
            },
            (DedupAwareness::Aware, Reachability::Disconnected) => SizeTable {
                aware_disconnected: value,
                ..self
            },
            (DedupAwareness::Unaware, Reachability::Connected) => SizeTable {
                unaware_connected: value,
                ..self
            },
            (DedupAwareness::Unaware, Reachability::Disconnected) => SizeTable {
                unaware_disconnected: value,
                ..self
            },
        }
    }

    /// The table in which no cell is set.
    pub open spec fn spec_empty() -> SizeTable {
        SizeTable {
            aware_connected: None,
            aware_disconnected: None,
            unaware_connected: None,
            unaware_disconnected: None,
        }
    }

    /// The table in which no cell is set.
    #[verifier::when_used_as_spec(spec_empty)]
    pub fn empty() -> (res: SizeTable)
        ensures
            res == SizeTable::spec_empty(),
    {
        SizeTable {
            aware_connected: None,
            aware_disconnected: None,
            unaware_connected: None,
            unaware_disconnected: None,
        }
    }

    /// The size in the cell for `dedup` and `reachable`, if one is set.
    pub fn get(&self, dedup: DedupAwareness, reachable: Reachability) -> (res: Option<u64>)
        ensures
            res == self.cell(dedup, reachable),
    {
        match (dedup, reachable) {
            (DedupAwareness::Aware, Reachability::Connected) => self.aware_connected,
            (DedupAwareness::Aware, Reachability::Disconnected) => self.aware_disconnected,
            (DedupAwareness::Unaware, Reachability::Connected) => self.unaware_connected,
            (DedupAwareness::Unaware, Reachability::Disconnected) => self.unaware_disconnected,
        }
    }

    /// Puts `value` in the cell for `dedup` and `reachable`.
    pub fn set(&mut self, dedup: DedupAwareness, reachable: Reachability, value: Option<u64>)
        ensures
            *final(self) == old(self).with_cell(dedup, reachable, value),
    {
        match (dedup, reachable) {
            (DedupAwareness::Aware, Reachability::Connected) => {
                self.aware_connected = value;
            },
            (DedupAwareness::Aware, Reachability::Disconnected) => {
                self.aware_disconnected = value;
            },
            (DedupAwareness::Unaware, Reachability::Connected) => {
                self.unaware_connected = value;
            },
            (DedupAwareness::Unaware, Reachability::Disconnected) => {
                self.unaware_disconnected = value;
            },
        }
    }
}

/// The sizes recorded of a graph, and how the graph is to be read.
#[derive(Clone, Copy, Debug)]
pub struct SizeMetadata {
    pub reachable: Reachability,
    pub dedup: DedupAwareness,
    pub size: SizeTable,
}

impl SizeMetadata {
    /// Metadata in which no size is recorded yet.
    pub fn unset(reachable: Reachability, dedup: DedupAwareness) -> (res: SizeMetadata)
        ensures
            res == (SizeMetadata { reachable, dedup, size: SizeTable::spec_empty() }),
    {
        SizeMetadata { reachable, dedup, size: SizeTable::empty() }
    }

    /// The metadata after the sizes of the graph have been recorded in it:
    /// the cell of the reachable size is filled if it was empty, and so is
    /// that of the total size where not all nodes need be reachable. A cell
    /// that holds a size keeps it.
    pub open spec fn recorded(self, reachable_size: u64, total_size: u64) -> SizeMetadata {
        let first = if self.size.cell(self.dedup, Reachability::Connected) is None {
            self.size.with_cell(self.dedup, Reachability::Connected, Some(reachable_size))
        } else {
            self.size
        };
        let second = if self.reachable == Reachability::Disconnected && first.cell(
            self.dedup,
            Reachability::Disconnected,
        ) is None {
            first.with_cell(self.dedup, Reachability::Disconnected, Some(total_size))
        } else {
            first
        };
        SizeMetadata { reachable: self.reachable, dedup: self.dedup, size: second }
    }
}

/// The metadata of a graph that a reduction made: how the graph is to be
/// read, and no size recorded yet.
pub open spec fn fresh_metadata(reachable: Reachability, of: SizeMetadata) -> SizeMetadata {
    SizeMetadata { reachable, dedup: of.dedup, size: SizeTable::spec_empty() }
}

/// Recording the sizes never changes a cell that holds a size already, and
/// recording them a second time changes nothing at all.
pub proof fn lemma_record_metadata_idempotent(
    m: SizeMetadata,
    reachable_size: u64,
    total_size: u64,
    again_reachable: u64,
    again_total: u64,
)
    ensures
        forall|d: DedupAwareness, r: Reachability|
            m.size.cell(d, r) is Some ==> #[trigger] m.recorded(reachable_size, total_size).size.cell(
                d,
                r,
            ) == m.size.cell(d, r),
        m.recorded(reachable_size, total_size).recorded(again_reachable, again_total)
            == m.recorded(reachable_size, total_size),
{
}

} // verus!
