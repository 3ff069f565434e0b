use pastemax::paths::{dir_with_slash, relative_path, split_at_slashes, trim_end_slashes};
use pastemax::text::{chars_le, chars_of, string_from_chars};

fn chars(s: &str) -> Vec<char> {
    s.chars().collect()
}

fn text(v: &[char]) -> String {
    v.iter().collect()
}

#[test]
fn dir_with_slash_appends_once() {
    assert_eq!(text(&dir_with_slash("/r")), "/r/");
    assert_eq!(text(&dir_with_slash("/r/")), "/r/");
    assert_eq!(text(&dir_with_slash("")), "/");
}

#[test]
fn relative_path_round_trip() {
    let root = chars("/home/u/");
    for p in ["/home/u/a.rs", "/home/u/src/b.rs", "/home/u/"] {
        let rel = relative_path(&chars(p), &root);
        assert_eq!(format!("{}{}", text(&root), text(&rel)), p);
    }
    assert_eq!(text(&relative_path(&chars("/tmp/x"), &root)), "/tmp/x");
}

#[test]
fn trim_end_slashes_removes_all() {
    assert_eq!(text(&trim_end_slashes(&chars("/a//"))), "/a");
    assert_eq!(text(&trim_end_slashes(&chars("///"))), "");
    assert_eq!(text(&trim_end_slashes(&chars("a"))), "a");
}

#[test]
fn split_then_join_gives_back_the_path() {
    for p in ["", "/", "a", "/a/b", "a//b/", "x/y/z.rs"] {
        let pieces = split_at_slashes(&chars(p));
        let joined: Vec<String> = pieces.iter().map(|c| text(c)).collect();
        assert_eq!(joined.join("/"), p);
        assert_eq!(pieces.len(), p.matches('/').count() + 1);
    }
}

#[test]
fn text_helpers() {
    assert_eq!(chars_of("héllo"), vec!['h', 'é', 'l', 'l', 'o']);
    assert_eq!(string_from_chars(&['a', 'ß']), "aß");
    assert!(chars_le(&chars("abc"), &chars("abd")));
    assert!(chars_le(&chars("ab"), &chars("abc")));
    assert!(!chars_le(&chars("b"), &chars("abc")));
    assert!(chars_le(&chars(""), &chars("")));
    assert!(chars_le(&chars("Z"), &chars("a")));
}
