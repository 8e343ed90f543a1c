//! Size-annotated directory trees built from a flat list of relative file paths.
//!
//! The listed paths are split into segments, the directories they run
//! through are gathered level by level into a depth matrix, and the tree is
//! built over that matrix: every node with the files directly inside it, the
//! nodes directly below it, and the bytes of all of that. The report lists
//! the directories by ascending size.

pub mod aggregate;
pub mod builder;
pub mod hierarchy;
pub mod listing;
pub mod order;
pub mod path;
pub mod report;
pub mod size;
pub mod text;
pub mod tree;

pub use builder::{sizes_fit, untracked_tree};
pub use hierarchy::{dir_tree_hierarchy, get_dir_hierarchy_matrix};
pub use listing::get_file_list_from;
pub use order::ascending_order;
pub use path::{is_direct_child_path, path_segments, path_trail, SEPARATOR};
pub use report::{report_untracked, FileTreeInfo};
pub use size::{size_str, truncate_decimal};
pub use text::split_by;
pub use tree::{get_files_at_dir, File, FileTree};
