//! The changes since a branch: the view that shows them, the tree of the changed files beside it,
//! its toolbar, and how it is opened, split, saved and restored.
pub mod deploy;
pub mod diff;
pub mod error;
pub mod file_entry;
pub mod order;
pub mod repo_path;
pub mod rows;
pub mod sort;
pub mod toolbar;
pub mod tree;
pub mod tree_build;
pub mod tree_laws;
pub mod tree_model;
pub mod tree_shape;
pub mod view;
pub mod width;
