use jujutsu_lib::repo_path::{RepoPath, RepoPathComponent};

fn path(components: &[&str]) -> RepoPath {
    RepoPath::from_components(
        components
            .iter()
            .map(|c| RepoPathComponent::from(c))
            .collect(),
    )
}

#[test]
fn internal_string_splits_on_slash() {
    assert_eq!(
        RepoPath::from_internal_string("dir1/subdir1/file1"),
        path(&["dir1", "subdir1", "file1"])
    );
    assert_eq!(RepoPath::from_internal_string("file"), path(&["file"]));
    assert_ne!(
        RepoPath::from_internal_string("foo/bar"),
        RepoPath::from_internal_string("bar/foo")
    );
}

#[test]
fn empty_string_is_root() {
    let root = RepoPath::from_internal_string("");
    assert!(root.is_root());
    assert_eq!(root, RepoPath::root());
    assert!(root.components().is_empty());
    assert!(!RepoPath::from_internal_string("a").is_root());
}

#[test]
fn split_gives_parent_and_basename() {
    let p = RepoPath::from_internal_string("a/b/c");
    let (parent, base) = p.split().unwrap();
    assert_eq!(parent, RepoPath::from_internal_string("a/b"));
    assert_eq!(base, RepoPathComponent::from("c"));
    let (parent, base) = RepoPath::from_internal_string("c").split().unwrap();
    assert!(parent.is_root());
    assert_eq!(base, RepoPathComponent::from("c"));
    assert!(RepoPath::root().split().is_none());
}

#[test]
fn join_appends_a_component() {
    let p = RepoPath::root()
        .join(&RepoPathComponent::from("a"))
        .join(&RepoPathComponent::from("b"));
    assert_eq!(p, RepoPath::from_internal_string("a/b"));
    assert_eq!(p.components().len(), 2);
    assert_eq!(p.clone(), p);
}

#[test]
fn non_ascii_components() {
    assert_eq!(
        RepoPath::from_internal_string("répertoire/fichier"),
        path(&["répertoire", "fichier"])
    );
}
