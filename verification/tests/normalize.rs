use path_normalizer::{Component, LexicalPath, NormalizeError, PathNormalizeExt};

fn named(text: &str) -> Component {
    Component::Normal(text.to_string())
}

fn path(components: Vec<Component>) -> LexicalPath {
    LexicalPath::from_components(components)
}

#[test]
fn test_normalize_simple() {
    // a/b/../c normalizes to a/c
    let p = path(vec![named("a"), named("b"), Component::ParentDir, named("c")]);
    let normalized = p.normalize_path().unwrap();
    assert_eq!(normalized, path(vec![named("a"), named("c")]));
}

#[test]
fn test_normalize_root_escape() {
    // ../a fails: there is no root to escape from
    let p = path(vec![Component::ParentDir, named("a")]);
    assert!(p.normalize_path().is_err());
}

#[test]
fn test_normalize_empty() {
    let p = path(vec![]);
    let normalized = p.normalize_path().unwrap();
    assert_eq!(normalized, path(vec![]));
}

#[test]
fn test_normalize_curdir_dropped() {
    // foo/./bar/../baz normalizes to foo/baz
    let p = path(vec![
        named("foo"),
        Component::CurDir,
        named("bar"),
        Component::ParentDir,
        named("baz"),
    ]);
    let normalized = p.normalize_path().unwrap();
    assert_eq!(normalized, path(vec![named("foo"), named("baz")]));
}

#[test]
fn test_normalize_absolute_escape() {
    // /a/../../b fails: the second .. would pop past the root
    let p = path(vec![
        Component::RootDir,
        named("a"),
        Component::ParentDir,
        Component::ParentDir,
        named("b"),
    ]);
    assert!(p.normalize_path().is_err());
}

#[test]
fn test_normalize_parent_at_root() {
    // /../a fails: an absolute root cannot be ascended even once
    let p = path(vec![Component::RootDir, Component::ParentDir, named("a")]);
    assert!(p.normalize_path().is_err());
}

#[test]
fn test_normalize_absolute_within_root() {
    // /a/../b stays absolute and normalizes to /b
    let p = path(vec![
        Component::RootDir,
        named("a"),
        Component::ParentDir,
        named("b"),
    ]);
    let normalized = p.normalize_path().unwrap();
    assert_eq!(normalized, path(vec![Component::RootDir, named("b")]));
}

#[test]
fn test_normalize_leading_curdir_preserved() {
    // ./a keeps its leading . as the root boundary
    let p = path(vec![Component::CurDir, named("a")]);
    let normalized = p.normalize_path().unwrap();
    assert_eq!(normalized, path(vec![Component::CurDir, named("a")]));
}

#[test]
fn test_normalize_leading_curdir_escape() {
    // ./.. cannot ascend above the explicit current directory
    let p = path(vec![Component::CurDir, Component::ParentDir]);
    assert!(p.normalize_path().is_err());
}

#[test]
fn test_normalize_prefix_with_root() {
    // C:\x\..\y keeps the prefix and the root marker
    let p = path(vec![
        Component::Prefix("C:".to_string()),
        Component::RootDir,
        named("x"),
        Component::ParentDir,
        named("y"),
    ]);
    let normalized = p.normalize_path().unwrap();
    assert_eq!(
        normalized,
        path(vec![
            Component::Prefix("C:".to_string()),
            Component::RootDir,
            named("y"),
        ])
    );
}

#[test]
fn test_normalize_prefix_without_root_escape() {
    // C:.. cannot ascend above a bare prefix
    let p = path(vec![Component::Prefix("C:".to_string()), Component::ParentDir]);
    assert!(p.normalize_path().is_err());
}

#[test]
fn test_normalize_second_prefix_rejected() {
    // a prefix past the first position is a malformed decomposition
    let p = path(vec![named("a"), Component::Prefix("C:".to_string())]);
    assert!(p.normalize_path().is_err());
}

#[test]
fn test_normalize_stray_root_rejected() {
    // a root marker past the boundary is a malformed decomposition
    let p = path(vec![named("a"), Component::RootDir, named("b")]);
    assert!(p.normalize_path().is_err());
}

#[test]
fn test_normalize_pop_to_relative_start() {
    // a/.. empties a rootless path without failing
    let p = path(vec![named("a"), Component::ParentDir]);
    let normalized = p.normalize_path().unwrap();
    assert_eq!(normalized, path(vec![]));
}

#[test]
fn test_normalize_idempotent_concrete() {
    let p = path(vec![
        named("a"),
        Component::CurDir,
        named("b"),
        Component::ParentDir,
        named("c"),
    ]);
    let once = p.normalize_path().unwrap();
    let twice = once.normalize_path().unwrap();
    assert_eq!(once, twice);
}

#[test]
fn test_components_round_trip() {
    let p = path(vec![Component::RootDir, named("a")]);
    assert_eq!(
        p.components().as_slice(),
        &[Component::RootDir, named("a")][..]
    );
}

#[test]
fn test_new_is_empty() {
    let p = LexicalPath::new();
    assert_eq!(p, path(vec![]));
    assert!(p.normalize_path().unwrap().components().is_empty());
}

#[test]
fn test_component_clone_exact() {
    let c = named("dir");
    assert_eq!(c.clone(), c);
    let r = Component::RootDir;
    assert_eq!(r.clone(), r);
}

#[test]
fn test_is_root_dir() {
    assert!(Component::RootDir.is_root_dir());
    assert!(!Component::CurDir.is_root_dir());
    assert!(!named("a").is_root_dir());
}

#[test]
fn test_error_message() {
    let e: NormalizeError = path(vec![Component::ParentDir])
        .normalize_path()
        .unwrap_err();
    assert_eq!(e.message(), "Path normalization failed");
}
