use jujutsu_lib::component_set::ComponentSet;
use jujutsu_lib::dirs::Dirs;
use jujutsu_lib::matchers::{
    EverythingMatcher, FilesMatcher, Matcher, NothingMatcher, PrefixMatcher, Visit, VisitDirs,
    VisitFiles,
};
use jujutsu_lib::repo_path::{RepoPath, RepoPathComponent};

fn set(names: &[&str]) -> ComponentSet {
    let mut s = ComponentSet::new();
    for name in names {
        s.insert(RepoPathComponent::from(name));
    }
    s
}

#[test]
fn test_dirs_empty() {
    let dirs = Dirs::new();
    assert_eq!(dirs.get_dirs(&RepoPath::root()), set(&[]));
}

#[test]
fn test_dirs_root() {
    let mut dirs = Dirs::new();
    dirs.add_dir(&RepoPath::root());
    assert_eq!(dirs.get_dirs(&RepoPath::root()), set(&[]));
}

#[test]
fn test_dirs_dir() {
    let mut dirs = Dirs::new();
    dirs.add_dir(&RepoPath::from_internal_string("dir"));
    assert_eq!(dirs.get_dirs(&RepoPath::root()), set(&["dir"]));
}

#[test]
fn test_dirs_file() {
    let mut dirs = Dirs::new();
    dirs.add_file(&RepoPath::from_internal_string("dir/file"));
    assert_eq!(dirs.get_dirs(&RepoPath::root()), set(&["dir"]));
    assert_eq!(dirs.get_files(&RepoPath::root()), set(&[]));
}

#[test]
fn test_nothingmatcher() {
    let m = NothingMatcher;
    assert!(!m.matches(&RepoPath::from_internal_string("file")));
    assert!(!m.matches(&RepoPath::from_internal_string("dir/file")));
    assert_eq!(m.visit(&RepoPath::root()), Visit::nothing());
}

#[test]
fn test_filesmatcher_empty() {
    let m = FilesMatcher::new(vec![]);
    assert!(!m.matches(&RepoPath::from_internal_string("file")));
    assert!(!m.matches(&RepoPath::from_internal_string("dir/file")));
    assert_eq!(m.visit(&RepoPath::root()), Visit::nothing());
}

#[test]
fn test_filesmatcher_nonempty() {
    let m = FilesMatcher::new(vec![
        RepoPath::from_internal_string("dir1/subdir1/file1"),
        RepoPath::from_internal_string("dir1/subdir1/file2"),
        RepoPath::from_internal_string("dir1/subdir2/file3"),
        RepoPath::from_internal_string("file4"),
    ]);

    assert_eq!(
        m.visit(&RepoPath::root()),
        Visit::Specific {
            dirs: VisitDirs::Only(set(&["dir1"])),
            files: VisitFiles::Only(set(&["file4"])),
        }
    );
    assert_eq!(
        m.visit(&RepoPath::from_internal_string("dir1")),
        Visit::Specific {
            dirs: VisitDirs::Only(set(&["subdir1", "subdir2"])),
            files: VisitFiles::Only(set(&[])),
        }
    );
    assert_eq!(
        m.visit(&RepoPath::from_internal_string("dir1/subdir1")),
        Visit::Specific {
            dirs: VisitDirs::Only(set(&[])),
            files: VisitFiles::Only(set(&["file1", "file2"])),
        }
    );
    assert_eq!(
        m.visit(&RepoPath::from_internal_string("dir1/subdir2")),
        Visit::Specific {
            dirs: VisitDirs::Only(set(&[])),
            files: VisitFiles::Only(set(&["file3"])),
        }
    );
}

#[test]
fn test_prefixmatcher_empty() {
    let m = PrefixMatcher::new(&[]);
    assert!(!m.matches(&RepoPath::from_internal_string("file")));
    assert!(!m.matches(&RepoPath::from_internal_string("dir/file")));
    assert_eq!(m.visit(&RepoPath::root()), Visit::nothing());
}

#[test]
fn test_prefixmatcher_root() {
    let m = PrefixMatcher::new(&[RepoPath::root()]);
    // Matches all files
    assert!(m.matches(&RepoPath::from_internal_string("file")));
    assert!(m.matches(&RepoPath::from_internal_string("dir/file")));
    // Visits all directories
    assert_eq!(m.visit(&RepoPath::root()), Visit::AllRecursively);
    assert_eq!(
        m.visit(&RepoPath::from_internal_string("foo/bar")),
        Visit::AllRecursively
    );
}

#[test]
fn test_prefixmatcher_single_prefix() {
    let m = PrefixMatcher::new(&[RepoPath::from_internal_string("foo/bar")]);

    // Parts of the prefix should not match
    assert!(!m.matches(&RepoPath::from_internal_string("foo")));
    assert!(!m.matches(&RepoPath::from_internal_string("bar")));
    // A file matching the prefix exactly should match
    assert!(m.matches(&RepoPath::from_internal_string("foo/bar")));
    // Files in subdirectories should match
    assert!(m.matches(&RepoPath::from_internal_string("foo/bar/baz")));
    assert!(m.matches(&RepoPath::from_internal_string("foo/bar/baz/qux")));
    // Sibling files should not match
    assert!(!m.matches(&RepoPath::from_internal_string("foo/foo")));
    // An unrooted "foo/bar" should not match
    assert!(!m.matches(&RepoPath::from_internal_string("bar/foo/bar")));

    // The matcher should only visit directory foo/ in the root (file "foo"
    // shouldn't be visited)
    assert_eq!(
        m.visit(&RepoPath::root()),
        Visit::Specific {
            dirs: VisitDirs::Only(set(&["foo"])),
            files: VisitFiles::Only(set(&[])),
        }
    );
    // Inside parent directory "foo/", both subdirectory "bar" and file "bar" may
    // match
    assert_eq!(
        m.visit(&RepoPath::from_internal_string("foo")),
        Visit::Specific {
            dirs: VisitDirs::Only(set(&["bar"])),
            files: VisitFiles::Only(set(&["bar"])),
        }
    );
    // Inside a directory that matches the prefix, everything matches recursively
    assert_eq!(
        m.visit(&RepoPath::from_internal_string("foo/bar")),
        Visit::AllRecursively
    );
    // Same thing in subdirectories of the prefix
    assert_eq!(
        m.visit(&RepoPath::from_internal_string("foo/bar/baz")),
        Visit::AllRecursively
    );
    // Nothing in directories that are siblings of the prefix can match, so don't
    // visit
    assert_eq!(
        m.visit(&RepoPath::from_internal_string("bar")),
        Visit::nothing()
    );
}

#[test]
fn test_prefixmatcher_nested_prefixes() {
    let m = PrefixMatcher::new(&[
        RepoPath::from_internal_string("foo"),
        RepoPath::from_internal_string("foo/bar/baz"),
    ]);

    assert!(m.matches(&RepoPath::from_internal_string("foo")));
    assert!(!m.matches(&RepoPath::from_internal_string("bar")));
    assert!(m.matches(&RepoPath::from_internal_string("foo/bar")));
    // Matches because the the "foo" pattern matches
    assert!(m.matches(&RepoPath::from_internal_string("foo/baz/foo")));

    assert_eq!(
        m.visit(&RepoPath::root()),
        Visit::Specific {
            dirs: VisitDirs::Only(set(&["foo"])),
            files: VisitFiles::Only(set(&["foo"])),
        }
    );
    // Inside a directory that matches the prefix, everything matches recursively
    assert_eq!(
        m.visit(&RepoPath::from_internal_string("foo")),
        Visit::AllRecursively
    );
    // Same thing in subdirectories of the prefix
    assert_eq!(
        m.visit(&RepoPath::from_internal_string("foo/bar/baz")),
        Visit::AllRecursively
    );
}

#[test]
fn everythingmatcher_matches_and_visits_all() {
    let m = EverythingMatcher;
    assert!(m.matches(&RepoPath::from_internal_string("file")));
    assert!(m.matches(&RepoPath::from_internal_string("dir/sub/file")));
    assert_eq!(m.visit(&RepoPath::root()), Visit::AllRecursively);
    assert_eq!(
        m.visit(&RepoPath::from_internal_string("dir")),
        Visit::AllRecursively
    );
}

#[test]
fn nothing_differs_from_all_recursively() {
    assert_ne!(Visit::nothing(), Visit::AllRecursively);
    assert_ne!(
        Visit::Specific {
            dirs: VisitDirs::All,
            files: VisitFiles::Only(set(&[])),
        },
        Visit::nothing()
    );
    assert_eq!(
        Visit::Specific {
            dirs: VisitDirs::All,
            files: VisitFiles::All,
        },
        Visit::Specific {
            dirs: VisitDirs::All,
            files: VisitFiles::All,
        }
    );
}

#[test]
fn component_set_ignores_order_and_repeats() {
    let mut a = set(&["x", "y"]);
    a.insert(RepoPathComponent::from("x"));
    assert_eq!(a, set(&["y", "x"]));
    assert!(a.contains(&RepoPathComponent::from("y")));
    assert!(!a.contains(&RepoPathComponent::from("z")));
    assert_ne!(a, set(&["x"]));
    assert!(set(&["x"]).is_subset_of(&a));
    assert!(!a.is_subset_of(&set(&["x"])));
}

#[test]
fn dirs_records_every_ancestor() {
    let mut dirs = Dirs::new();
    dirs.add_dir(&RepoPath::from_internal_string("a/b/c"));
    dirs.add_dir(&RepoPath::from_internal_string("a/d"));
    assert_eq!(dirs.get_dirs(&RepoPath::root()), set(&["a"]));
    assert_eq!(
        dirs.get_dirs(&RepoPath::from_internal_string("a")),
        set(&["b", "d"])
    );
    assert_eq!(
        dirs.get_dirs(&RepoPath::from_internal_string("a/b")),
        set(&["c"])
    );
    assert_eq!(
        dirs.get_dirs(&RepoPath::from_internal_string("a/b/c")),
        set(&[])
    );
    assert_eq!(
        dirs.get_dirs(&RepoPath::from_internal_string("elsewhere")),
        set(&[])
    );
    dirs.add_file(&RepoPath::from_internal_string("a/d/f"));
    assert_eq!(
        dirs.get_files(&RepoPath::from_internal_string("a/d")),
        set(&["f"])
    );
    assert_eq!(
        dirs.get_dirs(&RepoPath::from_internal_string("a/d")),
        set(&[])
    );
}

#[test]
fn filesmatcher_repeated_file_matches_once() {
    let m = FilesMatcher::new(vec![
        RepoPath::from_internal_string("dir/file"),
        RepoPath::from_internal_string("dir/file"),
    ]);
    assert!(m.matches(&RepoPath::from_internal_string("dir/file")));
    assert!(!m.matches(&RepoPath::from_internal_string("dir")));
    assert_eq!(
        m.visit(&RepoPath::from_internal_string("dir")),
        Visit::Specific {
            dirs: VisitDirs::Only(set(&[])),
            files: VisitFiles::Only(set(&["file"])),
        }
    );
}

/// Follows `visit` from the root down toward `file` and says whether the
/// traversal reaches it.
fn walk_reaches(m: &dyn Matcher, file: &RepoPath) -> bool {
    let components = file.components();
    let mut dir = RepoPath::root();
    for (i, component) in components.iter().enumerate() {
        match m.visit(&dir) {
            Visit::AllRecursively => return true,
            Visit::Specific { dirs, files } => {
                if i + 1 == components.len() {
                    return match files {
                        VisitFiles::All => true,
                        VisitFiles::Only(s) => s.contains(component),
                    };
                }
                let enter = match dirs {
                    VisitDirs::All => true,
                    VisitDirs::Only(s) => s.contains(component),
                };
                if !enter {
                    return false;
                }
            }
        }
        dir = dir.join(component);
    }
    false
}

#[test]
fn walk_agrees_with_matches() {
    let files = FilesMatcher::new(vec![
        RepoPath::from_internal_string("a/b/c"),
        RepoPath::from_internal_string("a/d"),
        RepoPath::from_internal_string("e"),
    ]);
    let prefixes = PrefixMatcher::new(&[
        RepoPath::from_internal_string("a/b"),
        RepoPath::from_internal_string("e"),
    ]);
    let probes = [
        "a", "a/b", "a/b/c", "a/b/c/d", "a/d", "a/d/x", "e", "e/f", "x", "a/x", "b",
    ];
    let matchers: [&dyn Matcher; 4] = [&NothingMatcher, &EverythingMatcher, &files, &prefixes];
    for m in matchers {
        for probe in probes {
            let path = RepoPath::from_internal_string(probe);
            assert_eq!(m.matches(&path), walk_reaches(m, &path), "{}", probe);
        }
    }
    assert!(files.matches(&RepoPath::from_internal_string("a/d")));
    assert!(!files.matches(&RepoPath::from_internal_string("a/b")));
    assert!(prefixes.matches(&RepoPath::from_internal_string("a/b/c/d")));
    assert!(!prefixes.matches(&RepoPath::from_internal_string("a/d")));
}
