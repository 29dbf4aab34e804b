use cloud_store::path::{begins_with, child_path, covers_path, file_name, normalize, parent_dir,
    same_text, slash_join, split_last};
use cloud_store::text::{last_separator, same_bytes, starts_with, trimmed_len};
use cloud_store::store::storage_location;

#[test]
fn covers_itself_and_what_lies_beneath() {
    assert!(covers_path("a", "a"));
    assert!(covers_path("a", "a/b"));
    assert!(covers_path("a", "a/b/c"));
    assert!(covers_path("a/b", "a/b/c"));
    assert!(!covers_path("a/b", "a"));
    assert!(!covers_path("a/b", "a/c"));
}

#[test]
fn covers_stops_at_segment_boundaries() {
    assert!(!covers_path("ab", "abc"));
    assert!(!covers_path("abc", "ab"));
    assert!(!covers_path("a", "ab/c"));
    assert!(covers_path("ab", "ab/c"));
}

#[test]
fn root_covers_only_itself_and_rooted_paths() {
    assert!(covers_path("", ""));
    assert!(!covers_path("", "a"));
    assert!(covers_path("", "/a"));
}

#[test]
fn starts_with_and_same_bytes() {
    assert!(starts_with(b"abc", b"ab"));
    assert!(starts_with(b"abc", b""));
    assert!(starts_with(b"abc", b"abc"));
    assert!(!starts_with(b"ab", b"abc"));
    assert!(!starts_with(b"abc", b"bc"));
    assert!(same_bytes(b"abc", b"abc"));
    assert!(!same_bytes(b"abc", b"abd"));
    assert!(!same_bytes(b"abc", b"ab"));
    assert!(same_text("docs", "docs"));
    assert!(!same_text("docs", "docs/"));
}

#[test]
fn normalize_strips_trailing_separators() {
    assert_eq!(normalize("a/b/"), "a/b");
    assert_eq!(normalize("a/b"), "a/b");
    assert_eq!(normalize("a/b///"), "a/b");
    assert_eq!(normalize("/"), "");
    assert_eq!(normalize(""), "");
    assert_eq!(normalize("/a"), "/a");
    assert_eq!(trimmed_len(b"a/b//"), 3);
    assert_eq!(trimmed_len(b""), 0);
}

#[test]
fn parent_dir_is_what_precedes_the_last_separator() {
    assert_eq!(parent_dir("a/b/c"), "a/b");
    assert_eq!(parent_dir("docs/readme.txt"), "docs");
    assert_eq!(parent_dir("a"), "");
    assert_eq!(parent_dir(""), "");
    assert_eq!(parent_dir("a/"), "a");
    assert_eq!(parent_dir("/a"), "");
    assert_eq!(parent_dir("a//b"), "a/");
    assert_eq!(last_separator(b"a/b/c"), Some(3));
    assert_eq!(last_separator(b"abc"), None);
}

#[test]
fn file_name_is_the_last_segment() {
    assert_eq!(file_name("a/b/c.txt"), "c.txt");
    assert_eq!(file_name("c.txt"), "c.txt");
    assert_eq!(file_name("a/"), "");
    assert_eq!(file_name(""), "");
    assert_eq!(file_name("/x"), "x");
    assert_eq!(split_last("a/b/c.txt"), ("a/b", "c.txt"));
    assert_eq!(split_last("c.txt"), ("", "c.txt"));
    assert_eq!(split_last("a/"), ("a", ""));
}

#[test]
fn paths_with_characters_of_several_bytes() {
    assert_eq!(parent_dir("données/été.txt"), "données");
    assert_eq!(file_name("données/été.txt"), "été.txt");
    assert_eq!(normalize("日本語/"), "日本語");
    assert_eq!(child_path("日本語", "ファイル"), "日本語/ファイル");
    assert!(covers_path("données", "données/été.txt"));
    assert!(!covers_path("donnée", "données/été.txt"));
    assert!(covers_path("é", "é/è"));
    assert!(!covers_path("é", "è/é"));
    assert_eq!(parent_dir("é/è"), "é");
    assert_eq!(normalize("é//"), "é");
}

#[test]
fn child_path_names_root_entries_barely() {
    assert_eq!(child_path("", "b"), "b");
    assert_eq!(child_path("a", "b"), "a/b");
    assert_eq!(child_path("a/b", "c"), "a/b/c");
    assert_eq!(child_path("a", ""), "a/");
}

#[test]
fn slash_join_and_storage_location() {
    assert_eq!(slash_join("a", "b"), "a/b");
    assert_eq!(slash_join("", "b"), "/b");
    assert_eq!(storage_location("cloud", "docs/readme.txt"), "cloud/docs/readme.txt");
    assert_eq!(storage_location("cloud", ""), "cloud/");
}

#[test]
fn begins_with_compares_whole_characters() {
    assert!(begins_with("abc", "ab"));
    assert!(begins_with("abc", ""));
    assert!(!begins_with("ab", "abc"));
    assert!(begins_with("été", "é"));
    assert!(!begins_with("été", "e"));
}
