use pastemax::backend::clipboard_ops::{copy_to_clipboard, format_file_contents, get_from_clipboard};
use pastemax::backend::file_reader::{is_text_file, read_files};
use pastemax::backend::fs_ops::{generate_file_tree, listing_of, sort_entries, FileEntry};
use pastemax::desktop::fs_ops::EntryMetadata;
use pastemax::backend::state::{copied_message, dialog_answer, open_directory_dialog, AppState};
use pastemax::paths::find_common_base_dir;

fn strings(v: &[&str]) -> Vec<String> {
    v.iter().map(|s| s.to_string()).collect()
}

#[test]
fn copy_to_clipboard_always_succeeds() {
    assert!(copy_to_clipboard("anything").is_ok());
    assert!(copy_to_clipboard("").is_ok());
}

#[test]
fn get_from_clipboard_gives_empty_text() {
    assert_eq!(get_from_clipboard().unwrap(), "");
}

#[test]
fn format_file_contents_with_names() {
    let paths = strings(&["a.rs", "b.rs"]);
    let contents = strings(&["fn a() {}", "fn b() {}"]);
    assert_eq!(
        format_file_contents(&paths, &contents, true),
        "// Archivo: a.rs\nfn a() {}\n\n// Archivo: b.rs\nfn b() {}"
    );
}

#[test]
fn format_file_contents_without_names() {
    let paths = strings(&["a.rs", "b.rs"]);
    let contents = strings(&["fn a() {}", "fn b() {}"]);
    assert_eq!(format_file_contents(&paths, &contents, false), "fn a() {}\n\nfn b() {}");
}

#[test]
fn format_file_contents_pairs_up_to_the_shorter_list() {
    let paths = strings(&["a.rs", "b.rs"]);
    let contents = strings(&["only"]);
    assert_eq!(format_file_contents(&paths, &contents, true), "// Archivo: a.rs\nonly");
    assert_eq!(format_file_contents(&[], &[], true), "");
}

#[test]
fn read_files_relative_headers_and_errors() {
    let paths = strings(&["/root/src/a.rs", "/other/b.rs"]);
    let outcomes = vec![Ok("A".to_string()), Err("not found".to_string())];
    assert_eq!(
        read_files(&paths, "/root", &outcomes).unwrap(),
        "// ---- File: src/a.rs ----\nA\n\n// ---- File: /other/b.rs ----\nError al leer el archivo: not found"
    );
    assert_eq!(
        read_files(&paths, "/root/", &outcomes).unwrap(),
        "// ---- File: src/a.rs ----\nA\n\n// ---- File: /other/b.rs ----\nError al leer el archivo: not found"
    );
}

#[test]
fn read_files_of_nothing_is_empty() {
    assert_eq!(read_files(&[], "/root", &[]).unwrap(), "");
}

#[test]
fn is_text_file_cases() {
    assert!(!is_text_file(None));
    assert!(is_text_file(Some(&[])));
    let mut one_zero = vec![b'a'; 20];
    one_zero[3] = 0;
    assert!(is_text_file(Some(&one_zero)));
    let mut two_zeros = vec![b'a'; 20];
    two_zeros[3] = 0;
    two_zeros[9] = 0;
    assert!(!is_text_file(Some(&two_zeros)));
    // Fewer than 10% zero bytes: a short text with none is text, one with
    // a zero among fewer than eleven bytes is not.
    assert!(is_text_file(Some(b"hello")));
    assert!(!is_text_file(Some(b"hel\0o")));
    let mut eleven = vec![b'a'; 11];
    eleven[0] = 0;
    assert!(is_text_file(Some(&eleven)));
}

fn entry(name: &str, is_dir: bool) -> FileEntry {
    FileEntry { path: format!("/d/{}", name), name: name.to_string(), is_dir, size: if is_dir { 0 } else { 7 } }
}

#[test]
fn sort_entries_directories_first_then_by_lowercase_name() {
    let entries = vec![entry("b.txt", false), entry("Zeta", true), entry("A.txt", false), entry("alpha", true)];
    let sorted = sort_entries(entries);
    let names: Vec<&str> = sorted.iter().map(|e| e.name.as_str()).collect();
    assert_eq!(names, vec!["alpha", "Zeta", "A.txt", "b.txt"]);
}

#[test]
fn sort_entries_keeps_equal_names_in_order() {
    let mut first = entry("readme", false);
    first.size = 1;
    let mut second = entry("README", false);
    second.size = 2;
    let sorted = sort_entries(vec![first, second]);
    assert_eq!(sorted[0].size, 1);
    assert_eq!(sorted[1].size, 2);
}

#[test]
fn generate_file_tree_sorted_and_relative() {
    let files = strings(&["/r/b.txt", "/r/a.txt", "/elsewhere/c.txt"]);
    assert_eq!(
        generate_file_tree(&files, "/r").unwrap(),
        "<file_map>\n/r\n├── /elsewhere/c.txt\n├── a.txt\n└── b.txt\n</file_map>"
    );
}

#[test]
fn generate_file_tree_with_trailing_slashes() {
    let files = strings(&["/r/a.txt"]);
    assert_eq!(generate_file_tree(&files, "/r//").unwrap(), "<file_map>\n/r\n└── /r/a.txt\n</file_map>");
    assert_eq!(generate_file_tree(&files, "/r/").unwrap(), "<file_map>\n/r\n└── a.txt\n</file_map>");
}

#[test]
fn generate_file_tree_of_nothing() {
    assert_eq!(
        generate_file_tree(&[], "/r").unwrap(),
        "<file_map>\nNo hay archivos seleccionados\n</file_map>"
    );
}

#[test]
fn generate_file_tree_does_not_depend_on_order() {
    let a = strings(&["/r/x", "/r/y", "/r/z"]);
    let b = strings(&["/r/z", "/r/x", "/r/y"]);
    assert_eq!(generate_file_tree(&a, "/r").unwrap(), generate_file_tree(&b, "/r").unwrap());
}

#[test]
fn find_common_base_dir_cases() {
    assert_eq!(find_common_base_dir(&[]), "");
    assert_eq!(find_common_base_dir(&strings(&["a/b.txt"])), "a");
    assert_eq!(find_common_base_dir(&strings(&["x.txt"])), "");
    assert_eq!(find_common_base_dir(&strings(&["a/b/c.txt", "a/b/d.txt"])), "a/b");
    assert_eq!(find_common_base_dir(&strings(&["/a/b", "/a/c"])), "/a");
    assert_eq!(find_common_base_dir(&strings(&["a/x", "b/y"])), "");
    assert_eq!(find_common_base_dir(&strings(&["/x", "/y"])), "");
    assert_eq!(find_common_base_dir(&strings(&["a/b", "a/b", "a/b/c"])), "a");
    assert_eq!(find_common_base_dir(&strings(&["a/x.rs", "a/x.rs"])), "a");
    assert_eq!(find_common_base_dir(&strings(&["a/b/c.txt", "a/b/c.txt", "a/b/d/e.txt"])), "a/b");
}

#[test]
fn common_base_dir_is_a_prefix_of_every_path() {
    let paths = strings(&["/home/u/p/src/a.rs", "/home/u/p/src/b/c.rs", "/home/u/p/README.md"]);
    let base = find_common_base_dir(&paths);
    assert_eq!(base, "/home/u/p");
    for p in &paths {
        assert!(p.starts_with(&base));
    }
}

#[test]
fn app_state_selection_and_last_directory() {
    let mut state = AppState::new();
    assert_eq!(state.get_last_directory(), None);
    assert!(state.get_selected_files().is_empty());
    state.record_scan("/home/u/p".to_string());
    assert_eq!(state.get_last_directory(), Some("/home/u/p".to_string()));
    assert!(state.select_files(strings(&["/home/u/p/a.rs"])).is_ok());
    assert_eq!(state.get_selected_files(), strings(&["/home/u/p/a.rs"]));
}

#[test]
fn clipboard_text_needs_a_selection() {
    let state = AppState::new();
    assert_eq!(state.clipboard_text("/r", &[], true), Err("No hay archivos seleccionados".to_string()));
}

#[test]
fn clipboard_text_with_and_without_tree() {
    let mut state = AppState::new();
    state.select_files(strings(&["/r/a.rs"])).unwrap();
    let outcomes = vec![Ok("fn main() {}".to_string())];
    assert_eq!(
        state.clipboard_text("/r", &outcomes, false).unwrap(),
        "// ---- File: a.rs ----\nfn main() {}"
    );
    assert_eq!(
        state.clipboard_text("/r", &outcomes, true).unwrap(),
        "<file_map>\n/r\n└── a.rs\n</file_map>\n\n// ---- File: a.rs ----\nfn main() {}"
    );
}

#[test]
fn copied_message_counts() {
    assert_eq!(copied_message(3), "Contenido de 3 archivos copiado al portapapeles");
    assert_eq!(copied_message(0), "Contenido de 0 archivos copiado al portapapeles");
    assert_eq!(copied_message(1234), "Contenido de 1234 archivos copiado al portapapeles");
}

#[test]
fn dialog_answers() {
    assert_eq!(dialog_answer(Some(Some("/x".to_string()))), Ok(Some("/x".to_string())));
    assert_eq!(dialog_answer(Some(None)), Ok(None));
    assert_eq!(
        dialog_answer(None),
        Err("El canal del diálogo se cerró inesperadamente".to_string())
    );
    assert!(open_directory_dialog().is_ok());
}

#[test]
fn listing_records_walked_entries() {
    let file = Some(EntryMetadata { is_dir: false, is_file: true, len: 42 });
    let dir = Some(EntryMetadata { is_dir: true, is_file: false, len: 4096 });
    let walked = vec![
        ("/r/b.txt".to_string(), Some("b.txt".to_string()), file),
        ("/r/gone".to_string(), Some("gone".to_string()), None),
        ("/r/Src".to_string(), Some("Src".to_string()), dir),
        ("/r/A.md".to_string(), Some("A.md".to_string()), file),
        ("/r/..".to_string(), None, dir),
    ];
    let listing = listing_of(walked);
    let seen: Vec<(String, String, bool, u64)> =
        listing.iter().map(|e| (e.path.clone(), e.name.clone(), e.is_dir, e.size)).collect();
    assert_eq!(
        seen,
        vec![
            ("/r/..".to_string(), "".to_string(), true, 0),
            ("/r/Src".to_string(), "Src".to_string(), true, 0),
            ("/r/A.md".to_string(), "A.md".to_string(), false, 42),
            ("/r/b.txt".to_string(), "b.txt".to_string(), false, 42),
        ]
    );
    assert!(listing_of(vec![]).is_empty());
}
