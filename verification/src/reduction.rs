// SPDX-License-Identifier: LGPL-3.0

//! The reductions of a dependency graph: merging the transient roots, the
//! quotient by "the same roots depend on it", the filter that keeps the
//! sizes, and the restriction to what the root reaches.

pub mod absorb;
pub mod assemble;
pub mod condense;
pub mod condense_laws;
pub mod filter;
pub mod filter_laws;
pub mod merge;
pub mod restrict;

pub use self::condense::condense;
pub use self::condense::condense_along;
pub use self::filter::keep;
pub use self::filter::keep_marked;
pub use self::merge::merge_transient_roots;
pub use self::restrict::keep_reachable;
pub use self::restrict::keep_reachable_along;
