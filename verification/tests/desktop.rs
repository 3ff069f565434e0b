use pastemax::desktop::clipboard_ops::{
    assemble_text, compress_text, compressed_contents_text, file_contents_text, relative_for_copy_exec,
};
use pastemax::desktop::file_reader::{read_entry, ChunkedRead, FileContentReader, CHUNK_SIZE, MAX_FILE_SIZE};
use pastemax::desktop::file_list::{visible_rows, Row};
use pastemax::desktop::file_tree::{generate_file_tree, render_file_tree};
use pastemax::desktop::fs_ops::{compile_patterns, filter_verdict, EntryMetadata, FileInfo, ScanState, Scanner};
use pastemax::desktop::ui::{
    copy_status, initial_path, may_start_scan, token_counts, Key, Modifiers, Shortcut, count_tokens, default_exclude_patterns, matches_search, parse_patterns, should_filter_path, sort_token_counts,
    status_text, token_count_of, selected_cards, Selection, ThemeType, WindowState, selection_summary, copy_button_text,
    card_tokens_text, card_rows, row_tokens_text,
};

fn pairs(v: &[(&str, &str)]) -> Vec<(String, String)> {
    v.iter().map(|(a, b)| (a.to_string(), b.to_string())).collect()
}

fn strings(v: &[&str]) -> Vec<String> {
    v.iter().map(|s| s.to_string()).collect()
}

const NOTE: &str = "\n// Note: This text has been compressed to reduce tokens while maintaining LLM readability.";

#[test]
fn file_contents_text_with_and_without_names() {
    let contents = pairs(&[("a.rs", "x"), ("b.rs", "y")]);
    assert_eq!(file_contents_text(&contents, true), "// File: a.rs\nx\n\n// File: b.rs\ny\n\n");
    assert_eq!(file_contents_text(&contents, false), "x\n\ny\n\n");
    assert_eq!(file_contents_text(&[], true), "");
}

#[test]
fn compress_text_abbreviates_drops_comments_and_spaces() {
    assert_eq!(
        compress_text("function foo() { return 1; } // comment\nlet   x = 2;"),
        "fn foo() { ret 1; } \nl x = 2;"
    );
}

#[test]
fn compress_text_keeps_strings() {
    assert_eq!(compress_text("let s = \"a  b\"; // c"), "l s = \"a  b\"; ");
}

#[test]
fn compress_text_all_abbreviations() {
    assert_eq!(
        compress_text("const var import export interface implements extends public private protected static class struct string number boolean"),
        "c v imp exp iface impl ext pub priv prot stat cls st str num bool"
    );
}

#[test]
fn compress_text_treats_double_slash_in_urls_as_comment() {
    assert_eq!(compress_text("http://x"), "http:");
}

#[test]
fn compress_text_keeps_newlines_in_whitespace_runs() {
    assert_eq!(compress_text("a \n\n  b"), "a \n\nb");
    assert_eq!(compress_text(""), "");
}

#[test]
fn compressed_text_is_never_longer() {
    for t in ["function  f() {}\n\n// x\n", "a    b", "\"  \"  ", "plain"] {
        assert!(compress_text(t).chars().count() <= t.chars().count());
    }
}

#[test]
fn relative_for_copy_cases() {
    let rel = |p: &str, r: &str| -> String {
        let p: Vec<char> = p.chars().collect();
        let r: Vec<char> = r.chars().collect();
        relative_for_copy_exec(&p, &r).into_iter().collect()
    };
    assert_eq!(rel("/root/a.rs", "/root"), "a.rs");
    assert_eq!(rel("/root/a.rs", "/root/"), "a.rs");
    assert_eq!(rel("C:\\p\\a.rs", "C:\\p"), "a.rs");
    assert_eq!(rel("/rootx/a.rs", "/root"), "/rootx/a.rs");
    assert_eq!(rel("/other/a.rs", "/root"), "/other/a.rs");
}

#[test]
fn compressed_contents_text_without_tree() {
    let contents = pairs(&[("/root/a.rs", "x  y")]);
    assert_eq!(
        compressed_contents_text(&contents, false, true, "/root"),
        format!("// ---- File: a.rs ----\nx y\n\n{}", NOTE)
    );
    assert_eq!(
        compressed_contents_text(&contents, false, false, "/root"),
        "// ---- File: a.rs ----\nx  y\n\n"
    );
}

#[test]
fn desktop_tree_of_nested_files() {
    let paths = strings(&["/p/src/a.rs", "/p/src/b.rs", "/p/README.md"]);
    assert_eq!(
        generate_file_tree(&paths),
        "<file_map>\n/p\n├── README.md\n└── src\n    ├── a.rs\n    └── b.rs\n</file_map>\n\n"
    );
    assert_eq!(generate_file_tree(&[]), "");
}

#[test]
fn desktop_tree_from_located_files() {
    let located = vec![
        ("/p/src".to_string(), "b.rs".to_string(), "src".to_string()),
        ("/p".to_string(), "z.md".to_string(), "p".to_string()),
        ("/p/src".to_string(), "a.rs".to_string(), "src".to_string()),
        ("/p/docs".to_string(), "x.md".to_string(), "docs".to_string()),
    ];
    assert_eq!(
        render_file_tree("/p", &located),
        "<file_map>\n/p\n├── z.md\n├── docs\n│   └── x.md\n└── src\n    ├── a.rs\n    └── b.rs\n</file_map>\n\n"
    );
}

#[test]
fn compressed_contents_text_with_tree() {
    let contents = pairs(&[("/p/src/a.rs", "x"), ("/p/README.md", "y")]);
    assert_eq!(
        compressed_contents_text(&contents, true, false, "/p"),
        "<file_map>\n/p\n├── README.md\n└── src\n    └── a.rs\n</file_map>\n\n// ---- File: src/a.rs ----\nx\n\n// ---- File: README.md ----\ny\n\n"
    );
    assert_eq!(assemble_text("T\n", &pairs(&[("/p/a", "b")]), false, "/p"), "T\n// ---- File: a ----\nb\n\n");
}

#[test]
fn cache_serves_fresh_contents_only() {
    let mut reader = FileContentReader::new();
    assert_eq!(reader.cached_content("/a", Some(5)), None);
    reader.remember("/a", "hello".to_string(), 10);
    assert_eq!(reader.cached_content("/a", Some(10)), Some("hello".to_string()));
    assert_eq!(reader.cached_content("/a", Some(3)), Some("hello".to_string()));
    assert_eq!(reader.cached_content("/a", Some(11)), None);
    assert_eq!(reader.cached_content("/a", None), None);
    assert_eq!(reader.cached_content("/b", Some(1)), None);
    reader.remember("/a", "again".to_string(), 20);
    assert_eq!(reader.cached_content("/a", Some(15)), Some("again".to_string()));
}

#[test]
fn chunked_read_of_text() {
    let mut read = ChunkedRead::new();
    read.push_chunk(b"hello ");
    read.push_chunk("wörld".as_bytes());
    assert!(!read.stopped);
    read.push_chunk(b"");
    assert!(read.stopped);
    assert_eq!(read.contents, "hello wörld");
    assert_eq!(read.total_read, 12);
}

#[test]
fn chunked_read_of_binary() {
    let mut read = ChunkedRead::new();
    read.push_chunk(b"ok");
    read.push_chunk(&[0xff, 0xfe]);
    assert!(read.stopped);
    assert_eq!(read.contents, "ok[Non-UTF-8 content]");
}

#[test]
fn chunked_read_size_limit() {
    let mut read = ChunkedRead::new();
    let chunk = vec![b'a'; CHUNK_SIZE];
    let mut pushes = 0;
    while !read.stopped {
        read.push_chunk(&chunk);
        pushes += 1;
    }
    assert_eq!(pushes, MAX_FILE_SIZE / CHUNK_SIZE + 1);
    assert!(read.contents.ends_with("[Content truncated due to size limit]"));
    assert_eq!(read.contents.len(), MAX_FILE_SIZE + "[Content truncated due to size limit]".len());
}

#[test]
fn read_entry_texts() {
    assert_eq!(read_entry("/a".to_string(), Ok("x".to_string())), ("/a".to_string(), "x".to_string()));
    assert_eq!(
        read_entry("/a".to_string(), Err("boom".to_string())),
        ("/a".to_string(), "Error reading file: boom".to_string())
    );
}

#[test]
fn scanner_filters() {
    let scanner = Scanner::new();
    let wanted = compile_patterns(&strings(&["*.rs"]));
    let exclude = compile_patterns(&strings(&["**/target/**"]));
    assert!(!scanner.should_filter_path(&exclude, &wanted, "src/a.rs"));
    assert!(scanner.should_filter_path(&exclude, &wanted, "src/a.txt"));
    assert!(scanner.should_filter_path(&exclude, &wanted, "/x/target/a.rs"));
    assert!(!scanner.should_filter_path(&vec![], &vec![], "anything"));
    assert_eq!(compile_patterns(&strings(&["[", "a***", "ok"])).len(), 1);
}

#[test]
fn filter_verdict_rules() {
    assert!(!filter_verdict(&[], &[]));
    assert!(filter_verdict(&[false, false], &[]));
    assert!(!filter_verdict(&[false, true], &[false]));
    assert!(filter_verdict(&[true], &[false, true]));
    assert!(filter_verdict(&[], &[true]));
}

#[test]
fn scan_state_records_and_reports() {
    let mut scan = ScanState::new();
    let meta = EntryMetadata { is_dir: false, is_file: true, len: 42 };
    let dir = EntryMetadata { is_dir: true, is_file: false, len: 4096 };
    assert_eq!(scan.visit("/a".to_string(), false, Some(meta)), None);
    assert_eq!(scan.visit("/d".to_string(), false, Some(dir)), None);
    assert_eq!(scan.visit("/skip".to_string(), true, Some(meta)), None);
    assert_eq!(scan.visit("/gone".to_string(), false, None), None);
    assert_eq!(scan.files.len(), 2);
    assert_eq!(scan.files[0].size, 42);
    assert_eq!(scan.files[1].size, 0);
    assert!(scan.files[1].is_dir);
    let mut report = None;
    for k in 0..96 {
        report = scan.visit(format!("/f{}", k), true, None);
    }
    assert_eq!(report, Some(100));
    assert_eq!(scan.count, 100);
}

#[test]
fn selection_clicks() {
    let mut sel = Selection::new();
    sel.click(3, false, false);
    assert!(sel.is_selected(3));
    sel.click(3, false, false);
    assert!(!sel.is_selected(3));
    assert!(sel.is_empty());
    sel.click(2, true, false);
    sel.click(5, false, true);
    assert_eq!(sel.selected_below(10), vec![2, 3, 4, 5]);
    sel.click(0, true, false);
    assert_eq!(sel.selected_below(10), vec![0, 2, 3, 4, 5]);
    sel.click(9, false, true);
    assert_eq!(sel.selected_below(10), vec![0, 1, 2, 3, 4, 5, 6, 7, 8, 9]);
    sel.clear();
    assert!(sel.is_empty());
    sel.click(4, false, true);
    assert_eq!(sel.selected_below(10), vec![4]);
}

#[test]
fn selection_all_and_folders() {
    let mut sel = Selection::new();
    sel.select_all(3);
    assert_eq!(sel.selected_below(10), vec![0, 1, 2]);
    sel.clear();
    let parents = strings(&["/p", "/p/src", "/p", "/q"]);
    sel.select_folder("/p", &parents, true);
    assert_eq!(sel.selected_below(10), vec![0, 2]);
    sel.click(3, true, false);
    sel.select_folder("/p", &parents, false);
    assert_eq!(sel.selected_below(10), vec![3]);
}

#[test]
fn selection_tokens() {
    let mut sel = Selection::new();
    let counts = vec![(0, 10), (1, 20), (2, 30)];
    assert_eq!(sel.total_tokens(&counts), 0);
    sel.click(0, false, false);
    sel.click(2, true, false);
    assert_eq!(sel.total_tokens(&counts), 40);
    assert_eq!(token_count_of(&counts, 1), 20);
    assert_eq!(token_count_of(&counts, 7), 0);
}

#[test]
fn token_counting_and_ordering() {
    assert_eq!(count_tokens("a b  c\nd"), 4);
    assert_eq!(count_tokens("   "), 0);
    assert_eq!(count_tokens(""), 0);
    assert_eq!(count_tokens("word"), 1);
    assert_eq!(sort_token_counts(vec![(0, 5), (1, 9), (2, 5), (3, 1)]), vec![(1, 9), (0, 5), (2, 5), (3, 1)]);
}

#[test]
fn patterns_typed_in_text_box() {
    assert_eq!(parse_patterns("  a \n\n b\r\n"), strings(&["a", "b"]));
    assert_eq!(parse_patterns(""), Vec::<String>::new());
    assert_eq!(parse_patterns("**/x/**\n*.rs"), strings(&["**/x/**", "*.rs"]));
}

#[test]
fn window_filters_with_invalid_patterns() {
    assert!(!should_filter_path(&strings(&["["]), &vec![], "/a"));
    assert!(should_filter_path(&vec![], &strings(&["["]), "/a"));
    assert!(should_filter_path(&strings(&["**/node_modules/**"]), &vec![], "/p/node_modules/x.js"));
}

#[test]
fn defaults_and_status() {
    let defaults = default_exclude_patterns();
    assert_eq!(defaults.len(), 12);
    assert_eq!(defaults[0], "**/node_modules/**");
    assert_eq!(defaults[11], "**/.DS_Store");
    assert_eq!(status_text(true, true, "Copied"), "Copied");
    assert_eq!(status_text(true, false, ""), "Scanning repository...");
    assert_eq!(status_text(false, true, ""), "Reading selected files...");
    assert_eq!(status_text(false, false, ""), "Ready");
    assert!(matches!(ThemeType::Dark, ThemeType::Dark));
}

#[test]
fn search_matching() {
    assert!(matches_search("README.md", "read"));
    assert!(!matches_search("main.rs", "lib"));
    assert!(matches_search("x", ""));
}

#[test]
fn keyboard_shortcuts() {
    let mut keys = Modifiers::new();
    assert_eq!(keys.key_pressed(Key::Character('a'), true), None);
    assert_eq!(keys.key_pressed(Key::Control, true), None);
    assert!(keys.cmd);
    assert_eq!(keys.key_pressed(Key::Character('a'), false), Some(Shortcut::SelectAll));
    assert_eq!(keys.key_pressed(Key::Character('c'), false), None);
    assert_eq!(keys.key_pressed(Key::Character('c'), true), Some(Shortcut::Copy));
    assert_eq!(keys.key_pressed(Key::Character('r'), true), Some(Shortcut::Read));
    assert_eq!(keys.key_pressed(Key::Escape, false), Some(Shortcut::Clear));
    keys.key_released(Key::Alt);
    assert!(!keys.cmd);
    assert_eq!(keys.key_pressed(Key::Shift, false), None);
    assert!(keys.shift);
    keys.key_released(Key::Shift);
    assert!(!keys.shift);
}

#[test]
fn copy_targets_and_status() {
    let mut sel = Selection::new();
    assert_eq!(sel.copy_targets(5), Err("No files selected".to_string()));
    sel.click(7, false, false);
    assert_eq!(sel.copy_targets(5), Err("No valid files selected".to_string()));
    sel.click(2, true, false);
    assert_eq!(sel.copy_targets(5), Ok(vec![2]));
    assert_eq!(copy_status(Some("disk"), Some("x"), true), "Error reading files: disk");
    assert_eq!(copy_status(None, Some("no display"), true), "Clipboard error: no display");
    assert_eq!(copy_status(None, None, true), "Copied to clipboard (compressed)");
    assert_eq!(copy_status(None, None, false), "Copied to clipboard");
}

#[test]
fn token_counts_of_scanned_files() {
    let contents = vec![Some("a b".to_string()), None, Some("one two three".to_string()), Some("x y".to_string())];
    assert_eq!(token_counts(&contents), vec![(2, 3), (0, 2), (3, 2), (1, 0)]);
}

#[test]
fn startup_and_scan_guard() {
    assert_eq!(initial_path("  /home/u/p\n"), "/home/u/p");
    assert_eq!(initial_path(""), "");
    assert!(may_start_scan(false, "/p"));
    assert!(!may_start_scan(true, "/p"));
    assert!(!may_start_scan(false, ""));
}

#[test]
fn compile_patterns_keeps_plain_and_drops_triple_stars() {
    assert_eq!(compile_patterns(&strings(&["*.rs", "x?", "a***", "b/***/c"])).len(), 2);
    assert_eq!(compile_patterns(&[]).len(), 0);
}

#[test]
fn desktop_tree_files_before_subdirectories() {
    let paths = strings(&["src/ui/view.rs", "src/main.rs"]);
    assert_eq!(
        generate_file_tree(&paths),
        "<file_map>\nsrc\n├── main.rs\n└── ui\n    └── view.rs\n</file_map>\n\n"
    );
}

#[test]
fn desktop_tree_sorts_and_indents_subdirectories() {
    let paths = strings(&["r/b/y.rs", "r/a/z.rs", "r/a/x.rs"]);
    assert_eq!(
        generate_file_tree(&paths),
        "<file_map>\nr\n├── a\n│   ├── x.rs\n│   └── z.rs\n└── b\n    └── y.rs\n</file_map>\n\n"
    );
}

#[test]
fn desktop_tree_same_for_any_order_of_paths() {
    let a = generate_file_tree(&strings(&["r/b/y.rs", "r/a/z.rs", "r/a/x.rs"]));
    let b = generate_file_tree(&strings(&["r/a/x.rs", "r/b/y.rs", "r/a/z.rs"]));
    let c = generate_file_tree(&strings(&["r/a/z.rs", "r/a/x.rs", "r/b/y.rs"]));
    assert_eq!(a, b);
    assert_eq!(a, c);
}

#[test]
fn desktop_tree_of_one_file_and_of_files_in_the_root() {
    assert_eq!(generate_file_tree(&strings(&["a/b.rs"])), "<file_map>\na/b.rs\n</file_map>\n\n");
    assert_eq!(
        generate_file_tree(&strings(&["/x.rs", "/y.rs"])),
        "<file_map>\n/\n├── x.rs\n└── y.rs\n</file_map>\n\n"
    );
}

#[test]
fn compressed_contents_tree_is_drawn_from_every_path() {
    let contents = pairs(&[("r/b/y.rs", "1"), ("r/a/x.rs", "2")]);
    assert_eq!(
        compressed_contents_text(&contents, true, false, "r"),
        "<file_map>\nr\n├── a\n│   └── x.rs\n└── b\n    └── y.rs\n</file_map>\n\n// ---- File: b/y.rs ----\n1\n\n// ---- File: a/x.rs ----\n2\n\n"
    );
}

#[test]
fn compile_patterns_keeps_whole_component_double_stars() {
    assert_eq!(compile_patterns(&strings(&["**/node_modules/**", "a**/b", "a/**b", "**", "x/**"])).len(), 3);
    assert_eq!(compile_patterns(&default_exclude_patterns()).len(), 12);
}

#[test]
fn filtered_scan_records_only_passing_paths() {
    let scanner = Scanner::new();
    let wanted = compile_patterns(&strings(&["*.rs"]));
    let exclude = compile_patterns(&strings(&["**/target/**"]));
    let meta = Some(EntryMetadata { is_dir: false, is_file: true, len: 7 });
    let mut state = ScanState::new();
    assert_eq!(state.visit_filtered(&scanner, &exclude, &wanted, "src/a.rs".to_string(), meta), None);
    assert_eq!(state.visit_filtered(&scanner, &exclude, &wanted, "src/a.txt".to_string(), meta), None);
    assert_eq!(state.visit_filtered(&scanner, &exclude, &wanted, "/x/target/b.rs".to_string(), meta), None);
    assert_eq!(state.visit_filtered(&scanner, &exclude, &wanted, "src/c.rs".to_string(), None), None);
    assert_eq!(state.count, 4);
    assert_eq!(state.files.len(), 1);
    assert_eq!(state.files[0].path, "src/a.rs");
    assert_eq!(state.files[0].size, 7);
}

fn info(path: &str) -> FileInfo {
    FileInfo { path: path.to_string(), is_dir: false, size: 1 }
}

#[test]
fn window_opens_with_default_patterns() {
    let (w, scan) = WindowState::new("  /home/p \n");
    assert!(scan);
    assert_eq!(w.current_path, "/home/p");
    assert_eq!(w.exclude_patterns, default_exclude_patterns());
    assert_eq!(w.exclude_patterns_input, default_exclude_patterns().join("\n"));
    assert!(w.exclude_patterns_input.starts_with("**/node_modules/**\n**/.git/**"));
    assert!(w.include_patterns.is_empty());
    assert_eq!(w.include_patterns_input, "");
    assert!(w.selection.is_empty());
    assert!(!w.scanning);
    assert!(w.sorted_by_tokens);
    assert_eq!(w.theme, ThemeType::Light);
    assert_eq!(w.total_tokens, 0);
    let (w2, scan2) = WindowState::new("   ");
    assert!(!scan2);
    assert_eq!(w2.current_path, "");
}

#[test]
fn window_scan_complete_replaces_files_and_clears_selection() {
    let (mut w, _) = WindowState::new("/p");
    assert!(w.scan_requested());
    assert!(w.scanning);
    assert!(!w.scan_requested());
    w.token_counts = vec![(0, 5)];
    w.scan_complete(vec![info("/p/a"), info("/p/b")]);
    w.file_selected(1);
    w.scan_complete(vec![info("/p/c")]);
    assert!(!w.scanning);
    assert_eq!(w.files.len(), 1);
    assert_eq!(w.files[0].path, "/p/c");
    assert!(w.selection.is_empty());
    assert_eq!(w.token_counts, vec![(0, 5)]);
}

#[test]
fn window_directory_selected_forgets_previous_directory() {
    let (mut w, _) = WindowState::new("/p");
    w.scan_complete(vec![info("/p/a")]);
    w.token_counts_calculated(vec![(0, 9)]);
    w.file_selected(0);
    assert_eq!(w.total_tokens, 9);
    w.toggle_folder_expanded("/p".to_string());
    let filtered = w.directory_selected("/q".to_string());
    assert!(filtered);
    assert_eq!(w.current_path, "/q");
    assert!(w.files.is_empty());
    assert!(w.selection.is_empty());
    assert!(w.expanded_folders.is_empty());
    assert!(w.token_counts.is_empty());
    assert_eq!(w.total_tokens, 0);
    assert!(w.scanning);
    w.exclude_patterns = vec![];
    assert!(!w.directory_selected("/r".to_string()));
}

#[test]
fn window_apply_filters_reads_the_boxes() {
    let (mut w, _) = WindowState::new("/p");
    w.exclude_patterns_input = " *.log \n\n  target \n".to_string();
    w.include_patterns_input = "*.rs".to_string();
    assert!(w.apply_filters());
    assert_eq!(w.exclude_patterns, strings(&["*.log", "target"]));
    assert_eq!(w.include_patterns, strings(&["*.rs"]));
    assert!(w.scanning);
    assert!(!w.apply_filters());
    let (mut empty, _) = WindowState::new("");
    assert!(!empty.apply_filters());
    assert!(!empty.scanning);
}

#[test]
fn window_toggle_folder() {
    let (mut w, _) = WindowState::new("/p");
    w.toggle_folder_expanded("/p/src".to_string());
    assert_eq!(w.expanded_folders, strings(&["/p/src"]));
    w.toggle_folder_expanded("/p/doc".to_string());
    w.toggle_folder_expanded("/p/src".to_string());
    assert_eq!(w.expanded_folders, strings(&["/p/doc"]));
}

#[test]
fn window_total_follows_the_selection() {
    let (mut w, _) = WindowState::new("/p");
    w.scan_complete(vec![info("/p/a"), info("/p/b"), info("/p/c")]);
    w.token_counts_calculated(vec![(2, 30), (0, 10), (1, 20)]);
    assert_eq!(w.total_tokens, 0);
    w.file_selected(0);
    assert_eq!(w.total_tokens, 10);
    w.modifiers.shift = true;
    w.file_selected(2);
    assert_eq!(w.total_tokens, 60);
    w.modifiers.shift = false;
    w.file_selected(1);
    assert_eq!(w.total_tokens, 40);
    w.clear_selection();
    assert_eq!(w.total_tokens, 0);
    w.select_all_files();
    assert_eq!(w.total_tokens, 60);
}

#[test]
fn selected_cards_by_tokens_and_by_index() {
    let counts = vec![(0, 5), (1, 50), (2, 20), (3, 20)];
    assert_eq!(selected_cards(&[0, 1, 2, 3], &counts, true, 4), vec![1, 2, 3, 0]);
    assert_eq!(selected_cards(&[3, 2, 0, 1], &counts, true, 4), vec![1, 3, 2, 0]);
    assert_eq!(selected_cards(&[3, 0, 2], &counts, false, 4), vec![0, 2, 3]);
    assert_eq!(selected_cards(&[7, 1, 2], &counts, true, 4), vec![1, 2]);
    assert_eq!(selected_cards(&[9, 4], &counts, false, 10), vec![4, 9]);
    assert_eq!(selected_cards(&[], &counts, true, 4), Vec::<usize>::new());
}

fn folder(path: &str, name: &str, depth: usize, expanded: bool) -> Row {
    Row::Folder { path: path.to_string(), name: name.to_string(), depth, expanded }
}

fn file_row(index: usize, name: &str, depth: usize) -> Row {
    Row::File { index, name: name.to_string(), depth, tokens: 0, selected: false }
}

#[test]
fn file_list_rows_follow_expanded_folders() {
    let files = vec![info("/p/src/a.rs"), info("/p/src/b.rs"), info("/p/README.md"), info("/p/src/ui/v.rs")];
    assert_eq!(visible_rows(&files, &[], "", "/p", &Selection::new(), &[]), vec![folder("/p/src", "src", 0, false)]);
    assert_eq!(
        visible_rows(&files, &strings(&["/p/src"]), "", "/p", &Selection::new(), &[]),
        vec![
            folder("/p/src", "src", 0, true),
            file_row(0, "a.rs", 1),
            file_row(1, "b.rs", 1),
            folder("/p/src/ui", "ui", 1, false),
        ]
    );
    assert_eq!(
        visible_rows(&files, &strings(&["/p/src/ui", "/p/src"]), "", "/p", &Selection::new(), &[]),
        vec![
            folder("/p/src", "src", 0, true),
            file_row(0, "a.rs", 1),
            file_row(1, "b.rs", 1),
            folder("/p/src/ui", "ui", 1, true),
            file_row(3, "v.rs", 2),
        ]
    );
}

#[test]
fn file_list_rows_follow_the_search() {
    let files = vec![info("/p/src/a.rs"), info("/p/src/b.rs"), info("/p/README.md"), info("/p/src/ui/v.rs")];
    let open = strings(&["/p/src/ui", "/p/src"]);
    assert_eq!(
        visible_rows(&files, &open, "A", "/p", &Selection::new(), &[]),
        vec![folder("/p/src", "src", 0, true), file_row(0, "a.rs", 1), folder("/p/src/ui", "ui", 1, true)]
    );
    assert_eq!(visible_rows(&files, &open, "V.RS", "/p", &Selection::new(), &[]), Vec::<Row>::new());
    assert_eq!(visible_rows(&files, &open, "SRC", "/p", &Selection::new(), &[]).len(), 5);
}

#[test]
fn file_list_rows_of_relative_files() {
    let files = vec![info("b.rs"), info("a.rs"), FileInfo { path: "d".to_string(), is_dir: true, size: 0 }];
    assert_eq!(visible_rows(&files, &[], "", "", &Selection::new(), &[]), vec![folder("", "/", 0, false)]);
    assert_eq!(
        visible_rows(&files, &strings(&[""]), "", "", &Selection::new(), &[]),
        vec![folder("", "/", 0, true), file_row(0, "b.rs", 1), file_row(1, "a.rs", 1)]
    );
}

#[test]
fn desktop_tree_of_mixed_absolute_and_relative_paths_depends_on_order() {
    assert_eq!(generate_file_tree(&strings(&["/a/x.rs", "b.rs"])), "<file_map>\n/\n</file_map>\n\n");
    assert_eq!(
        generate_file_tree(&strings(&["b.rs", "/a/x.rs"])),
        "<file_map>\n\n├── b.rs\n└── a\n    └── x.rs\n</file_map>\n\n"
    );
}

#[test]
fn desktop_tree_leaves_out_files_two_levels_below_a_listed_directory() {
    assert_eq!(
        generate_file_tree(&strings(&["r/x/y/z.rs", "r/w.rs"])),
        "<file_map>\nr\n└── w.rs\n</file_map>\n\n"
    );
}

#[test]
fn file_list_rows_show_tokens_and_checkboxes() {
    let files = vec![info("/p/src/a.rs"), info("/p/src/b.rs")];
    let mut sel = Selection::new();
    sel.click(1, false, false);
    let counts = vec![(1, 40), (0, 7)];
    assert_eq!(
        visible_rows(&files, &strings(&["/p/src"]), "", "/p", &sel, &counts),
        vec![
            folder("/p/src", "src", 0, true),
            Row::File { index: 0, name: "a.rs".to_string(), depth: 1, tokens: 7, selected: false },
            Row::File { index: 1, name: "b.rs".to_string(), depth: 1, tokens: 40, selected: true },
        ]
    );
    assert_eq!(row_tokens_text(40), "(~40)");
}

#[test]
fn window_folder_selection_updates_files_folders_and_total() {
    let (mut w, _) = WindowState::new("/p");
    w.scan_complete(vec![info("/p/src/a.rs"), info("/p/src/b.rs"), info("/p/c.rs")]);
    w.token_counts_calculated(vec![(0, 3), (1, 4), (2, 5)]);
    w.folder_selected("/p/src".to_string(), true);
    assert!(w.selection.is_selected(0) && w.selection.is_selected(1) && !w.selection.is_selected(2));
    assert_eq!(w.selected_folders, strings(&["/p/src"]));
    assert_eq!(w.total_tokens, 7);
    w.folder_selected("/p/src".to_string(), true);
    assert_eq!(w.selected_folders, strings(&["/p/src"]));
    w.file_selected(2);
    w.folder_selected("/p/src".to_string(), false);
    assert!(!w.selection.is_selected(0) && !w.selection.is_selected(1) && w.selection.is_selected(2));
    assert!(w.selected_folders.is_empty());
    assert_eq!(w.total_tokens, 5);
}

#[test]
fn window_copy_request_states() {
    let (mut w, _) = WindowState::new("/p");
    w.reading_files = true;
    assert_eq!(w.copy_requested(), None);
    assert_eq!(w.copy_status, "No files selected");
    assert!(w.reading_files);
    w.file_selected(5);
    assert_eq!(w.copy_requested(), None);
    assert_eq!(w.copy_status, "No valid files selected");
    assert!(!w.reading_files);
    w.scan_complete(vec![info("/p/a"), info("/p/b"), info("/p/c")]);
    w.file_selected(2);
    w.file_selected(0);
    assert_eq!(w.copy_requested(), Some(vec![0, 2]));
    assert_eq!(w.copy_status, "Reading files...");
    assert!(w.reading_files);
}

#[test]
fn window_steps_keep_held_keys() {
    let (mut w, _) = WindowState::new("/p");
    w.scan_complete(vec![info("/p/a"), info("/p/b"), info("/p/c"), info("/p/d")]);
    w.token_counts_calculated(vec![(0, 5), (1, 7), (2, 11), (3, 13)]);
    w.file_selected(1);
    w.modifiers.shift = true;
    w.file_selected(3);
    assert!(w.selection.is_selected(1) && w.selection.is_selected(2) && w.selection.is_selected(3));
    assert!(!w.selection.is_selected(0));
    assert_eq!(w.total_tokens, 31);
    assert!(w.modifiers.shift && !w.modifiers.cmd);
    assert_eq!(w.selection.count(), 3);
}

#[test]
fn selection_header_button_and_cards() {
    assert_eq!(selection_summary(3, 31), "3 files | ~31 tokens");
    assert_eq!(copy_button_text(0), "COPY ALL SELECTED (0 files)");
    assert_eq!(card_tokens_text(12), "~12 tokens");
    assert_eq!(card_rows(&[4, 1, 2, 9, 7]), vec![vec![4, 1, 2], vec![9, 7]]);
    assert_eq!(card_rows(&[1, 2, 3]), vec![vec![1, 2, 3]]);
    assert_eq!(card_rows(&[]), Vec::<Vec<usize>>::new());
}

#[test]
fn filtered_scan_with_backslash_paths_follows_the_verdict() {
    let scanner = Scanner::new();
    let wanted = compile_patterns(&strings(&["*.rs"]));
    let exclude = compile_patterns(&strings(&[]));
    let meta = Some(EntryMetadata { is_dir: false, is_file: true, len: 2 });
    let mut state = ScanState::new();
    let keep = !scanner.should_filter_path(&exclude, &wanted, "src\\a.rs");
    state.visit_filtered(&scanner, &exclude, &wanted, "src\\a.rs".to_string(), meta);
    assert_eq!(state.files.len(), if keep { 1 } else { 0 });
}
