# pastemax

Collects the contents of the files of a project into one text for pasting
into a language model, with an optional tree of the files and an optional
compression of the text. The library builds that text and states what it
is; what the platform's path rules and the `glob` crate decide is taken from
them, and stated exactly only for paths and patterns that every platform
reads alike. The programs around the library read the files and use the
clipboard.

- `src/backend/` — the logic of the Tauri application's commands: the text of
  the selected files, the file tree, the order of a directory listing, and the
  state kept between commands.
- `src/desktop/` — the logic of the desktop window: the copied text and its
  compression, the tree of directories drawn before it, the cache of file
  contents and chunked reading, scanning decisions and filters, the rows of
  the file list, the selection of files and the window's state; and why the
  tree does not depend on the order of the files (`tree_order.rs`).
- `src/text.rs`, `src/paths.rs`, `src/ordering.rs` — characters and texts,
  slash-separated paths, and the stable sort the listings use.
- `src/glob_patterns.rs` — the glob patterns of the `glob` crate.
- `app/` — a command-line front end: walks a directory, reads the files,
  copies the result to the system clipboard.
