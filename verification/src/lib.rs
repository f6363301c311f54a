// SPDX-License-Identifier: LGPL-3.0

//! Reduction of a package store's dependency graph to a small graph that
//! still answers "how much space would deleting this root free?".

pub mod bitset;
pub mod bytes;
pub mod depgraph;
pub mod graph;
pub mod metadata;
pub mod node;
pub mod reduction;
pub mod sizes;
pub mod threshold;
pub mod traversal;
