use seamonkey::sanitize::sanitize_file_path;

#[test]
fn traversal_components_are_removed() {
    let (segs, path) = sanitize_file_path("../evil.txt");
    assert_eq!(path, "evil.txt");
    assert_eq!(segs, vec!["evil.txt".to_string()]);
}

#[test]
fn backslash_traversal_is_removed() {
    let (_segs, path) = sanitize_file_path("..\\..\\boot.cfg");
    assert_eq!(path, "boot.cfg");
}

#[test]
fn nested_traversal_keeps_safe_segments() {
    let (_segs, path) = sanitize_file_path("a/../../b/c.txt");
    assert_eq!(path, "a/b/c.txt");
}

#[test]
fn backslashes_are_separators() {
    let (segs, path) = sanitize_file_path("dir\\sub\\file.bin");
    assert_eq!(path, "dir/sub/file.bin");
    assert_eq!(segs.len(), 3);
}

#[test]
fn trailing_separator_is_dropped() {
    let (segs, path) = sanitize_file_path("dir/");
    assert_eq!(path, "dir");
    assert_eq!(segs, vec!["dir".to_string()]);
}

#[test]
fn reserved_characters_are_stripped() {
    let (_segs, path) = sanitize_file_path("na?me*.txt");
    assert_eq!(path, "name.txt");
}

#[test]
fn control_characters_are_stripped() {
    let (_segs, path) = sanitize_file_path("a\u{0007}b.txt");
    assert_eq!(path, "ab.txt");
}

#[test]
fn dot_segment_is_dropped() {
    let (_segs, path) = sanitize_file_path("./keep/./it.txt");
    assert_eq!(path, "keep/it.txt");
}

#[test]
fn empty_name_gives_empty_path() {
    let (segs, path) = sanitize_file_path("");
    assert_eq!(path, "");
    assert!(segs.is_empty());
}

#[test]
fn absolute_path_loses_its_root() {
    let (_segs, path) = sanitize_file_path("/etc/passwd");
    assert_eq!(path, "etc/passwd");
}
