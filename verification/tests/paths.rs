use wisp_cli::path::{join_path, normalize_path, split_segments};
use wisp_cli::text::str_eq;

#[test]
fn test_normalize_path() {
    assert_eq!(normalize_path("index.html"), "index.html");
    assert_eq!(normalize_path("cobblemon/index.html"), "index.html");
    assert_eq!(normalize_path("folder/subfolder/file.txt"), "subfolder/file.txt");
    assert_eq!(normalize_path("a/b/c/d.txt"), "b/c/d.txt");
}

#[test]
fn normalize_path_edges() {
    assert_eq!(normalize_path(""), "");
    assert_eq!(normalize_path("/"), "");
    assert_eq!(normalize_path("/index.html"), "index.html");
    assert_eq!(normalize_path("dir/"), "");
    assert_eq!(normalize_path("d\u{e9}p\u{f4}t/\u{fc}ber.txt"), "\u{fc}ber.txt");
}

#[test]
fn join_path_puts_one_separator() {
    assert_eq!(join_path("", "index.html"), "index.html");
    assert_eq!(join_path("assets", "app.js"), "assets/app.js");
    assert_eq!(join_path("a/b", "c"), "a/b/c");
    assert_eq!(join_path("a", ""), "a/");
}

#[test]
fn split_segments_cuts_at_every_separator() {
    assert_eq!(split_segments("a/b/c"), vec!["a", "b", "c"]);
    assert_eq!(split_segments("assets"), vec!["assets"]);
    assert_eq!(split_segments(""), vec![""]);
    assert_eq!(split_segments("a//b"), vec!["a", "", "b"]);
    assert_eq!(split_segments("/a/"), vec!["", "a", ""]);
    assert_eq!(split_segments("\u{e9}t\u{e9}/\u{4e2d}"), vec!["\u{e9}t\u{e9}", "\u{4e2d}"]);
}

#[test]
fn str_eq_compares_text() {
    assert!(str_eq("", ""));
    assert!(str_eq("abc", "abc"));
    assert!(!str_eq("abc", "abd"));
    assert!(!str_eq("abc", "ab"));
    assert!(!str_eq("\u{e9}", "e"));
}
