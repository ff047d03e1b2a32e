//! Hierarchical diff of two file-tree snapshots: rename detection, a merged
//! sorted directory tree, and per-node statuses with aggregated line counts.

pub mod archive;
pub mod builder;
pub mod dirs;
pub mod laws;
pub mod lines;
pub mod paths;
pub mod renames;
pub mod score;
pub mod text;
pub mod tree;
pub mod types;

pub use builder::{build_diff_tree, DiffTreeBuilder};
pub use score::SCALE;
pub use text::{count_diff, get_diff_content, DiffCounts};
pub use tree::DiffFileEntry;
pub use types::{DiffStatus, FileMap, FileMapEntry, FileType};

