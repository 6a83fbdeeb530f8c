//! Paths.
use bitors::path::{Component, FilePath};

fn path(text: &str) -> FilePath {
    FilePath::from_bytes(text.as_bytes())
}

#[test]
fn separators_and_dots_are_dropped() {
    assert_eq!(path("a//b/"), path("a/b"));
    assert_eq!(path("a/./b"), path("a/b"));
    assert_ne!(path("./a"), path("a"));
    assert_eq!(path("/").len(), 1);
    assert_eq!(path("/").component(0), &Component::RootDir);
    assert_eq!(path("./..").component(0), &Component::CurDir);
    assert_eq!(path("./..").component(1), &Component::ParentDir);
    assert!(path("").is_empty());
}

#[test]
fn an_absolute_path_replaces_what_is_before_it() {
    assert_eq!(path("a").join(b"b/c"), path("a/b/c"));
    assert_eq!(path("a").join(b"/b"), path("/b"));
    let mut p = path("a");
    p.push(b"");
    assert_eq!(p, path("a"));
}

#[test]
fn cleaning_follows_the_text() {
    assert_eq!(path("hello/world/..").clean(), path("hello"));
    assert_eq!(path("/test/../path/").clean(), path("/path"));
    assert_eq!(path("/..").clean(), path("/"));
    assert_eq!(path("../a").clean(), path("../a"));
    assert_eq!(path("a/../..").clean(), path(".."));
    assert_eq!(path("a/..").clean(), path("."));
    assert_eq!(path("").clean(), path("."));
    assert_eq!(path("./a").clean(), path("a"));
}

#[test]
fn prefixes_are_whole_components() {
    assert!(path("a/b").starts_with(&path("a")));
    assert!(!path("ab").starts_with(&path("a")));
    assert!(path("a/b").same(&path("a//b")));
    assert_eq!(path("a/b/c").first(2), path("a/b"));
    assert_eq!(path("a/b/c").rest(1), path("b/c"));
    assert_eq!(path("/x").component(0).to_bytes(), b"/".to_vec());
}
