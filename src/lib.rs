//! Repository paths and the path matchers that prune working-copy traversals.

pub mod component_set;
pub mod dirs;
pub mod matchers;
pub mod repo_path;
