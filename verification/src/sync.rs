//! Reconciling a directory with a file list: which entries a directory
//! holds, which of them are to go, and in what order.

pub mod laws;
pub mod manifest;
pub mod order;
pub mod pass;
pub mod plan;
pub mod tree;

pub use manifest::Manifest;
pub use pass::clear_root;
pub use pass::plan_pass;
pub use pass::read_file_list;
pub use pass::Cleared;
pub use pass::SyncError;
pub use plan::plan;
pub use plan::tally;
pub use plan::Report;
pub use tree::walk_depth_first;
pub use tree::Entry;
pub use tree::Listed;
pub use tree::Node;
