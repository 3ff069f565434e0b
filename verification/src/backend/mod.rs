//! The logic behind the commands of the Tauri application: formatting the
//! selected files for the clipboard, the file tree, and the order of a
//! directory listing.
pub mod clipboard_ops;
pub mod file_reader;
pub mod fs_ops;
pub mod state;
