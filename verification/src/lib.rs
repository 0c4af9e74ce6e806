//! Size-aggregated view of a directory subtree: the entry catalog
//! (files, directories, snapshots with derived rankings), the filter
//! chain evaluator, the incremental scan builder with its publication
//! cadence, and the deletion synchronizer.

pub mod model;
pub mod paths;
pub mod rank;
pub mod filter;
pub mod group;
pub mod scan;
pub mod snapshot;
