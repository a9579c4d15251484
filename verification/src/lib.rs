//! Renders a directory tree as a nested list.
//!
//! The nodes that a traversal of the file system reports are gathered into a
//! tree, an ordered mapping from relative path to kind, and the tree is
//! written out as text: one line for each entry, in ascending order of the
//! paths, indented by depth, between an opening and a closing marker.
//!
//! - [`order`]: the order of paths.
//! - [`bytes`]: that order, told by the bytes of the paths.
//! - [`path`]: the components of a path.
//! - [`listing`]: sequences of entries and the mappings they stand for.
//! - [`tree`]: the tree.
//! - [`walk`]: from the reports of a traversal to a tree.
//! - [`render`]: from a tree to text.

pub mod bytes;
pub mod listing;
pub mod order;
pub mod path;
pub mod render;
pub mod tree;
pub mod walk;
