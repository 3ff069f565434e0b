//! The logic behind the desktop application: the clipboard text with its
//! optional compression, the cache of file contents, directory scanning
//! decisions, and the selection of files in the list.
pub mod clipboard_ops;
pub mod fs_ops;
pub mod file_reader;
pub mod ui;
pub mod file_tree;
pub mod file_list;
pub mod tree_order;
