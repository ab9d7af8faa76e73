//! Finding build-output directories of projects in a directory tree,
//! ordering them, and choosing which of them to remove.

pub mod human;
pub mod select;
pub mod target;
pub mod tree;

pub use human::{human_size, SizeError};
pub use select::{filter_same, parse_selection, plan_removal, SelectionError};
pub use target::{sort_targets, SortBy, TargetItem};
pub use tree::{DirTree, Node, NodeKind, ScanError, Timestamp};
