//! Builds a typed tree of a directory hierarchy and renders it as an
//! indented diagram with box-drawing connectors.
pub mod render;
pub mod tree;
pub mod walk;

pub use render::{print_tree, Padding, Printer};
pub use tree::Tree;
pub use walk::{classify, is_hidden, read_dir, Entry, EntryAction, FilterConfig, Step, Walk};
