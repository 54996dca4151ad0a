//! Paths.

use fatxlib::path::{join_path, path_parts, split_path, trim_slashes};

#[test]
fn test_split_path() {
    assert_eq!(split_path("/foo/bar.txt"), ("/foo", "bar.txt"));
    assert_eq!(split_path("/bar.txt"), ("/", "bar.txt"));
    assert_eq!(split_path("bar.txt"), ("/", "bar.txt"));
    assert_eq!(split_path("/a/b/c"), ("/a/b", "c"));
}

#[test]
fn components_and_joins() {
    assert_eq!(path_parts("/a//b/c/"), vec!["a", "b", "c"]);
    assert!(path_parts("///").is_empty());
    assert_eq!(split_path("/a/b/"), ("/a", "b"));
    assert_eq!(split_path("/"), ("/", ""));
    assert_eq!(join_path("/a/", "b"), "/a/b");
    assert_eq!(join_path("/", "b"), "/b");
    assert_eq!(join_path("", "b"), "/b");
    assert_eq!(trim_slashes("/a//"), "/a");
}
