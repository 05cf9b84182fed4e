use iroh::paths::segments;

#[test]
fn test_segments() {
    let p = "public/README.md";
    assert_eq!(segments(p), vec!["public", "README.md"]);
}

#[test]
fn segments_of_absolute_path_start_at_root() {
    assert_eq!(segments("/a/b"), vec!["/", "a", "b"]);
}

#[test]
fn segments_drop_empty_pieces() {
    assert_eq!(segments("a//b/"), vec!["a", "b"]);
    assert!(segments("").is_empty());
    assert_eq!(segments("/"), vec!["/"]);
}

#[test]
fn segments_normalize_inner_dot_pieces() {
    assert_eq!(segments("a/./b"), vec!["a", "b"]);
    assert_eq!(segments("x/."), vec!["x"]);
    assert_eq!(segments("/./a"), vec!["/", "a"]);
}

#[test]
fn segments_keep_a_leading_dot_and_parent_steps() {
    assert_eq!(segments("./a"), vec![".", "a"]);
    assert_eq!(segments("././a"), vec![".", "a"]);
    assert_eq!(segments("."), vec!["."]);
    assert_eq!(segments("../a"), vec!["..", "a"]);
}
