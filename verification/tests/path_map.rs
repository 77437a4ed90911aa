use analysis_server::ids::FileId;
use analysis_server::path_map::{normalize, PathMap, Root};

#[test]
fn test_resolve() {
    let mut m = PathMap::default();
    let (_, id1) = m.get_or_insert("/foo", Root::Workspace);
    let (_, id2) = m.get_or_insert("/foo/bar.rs", Root::Workspace);
    assert_eq!(m.resolve(id1, "bar.rs"), Some(id2),)
}

#[test]
fn normalize_drops_dots_and_repeated_separators() {
    assert_eq!(normalize("/foo/./bar//baz/"), "/foo/bar/baz");
    assert_eq!(normalize("foo/bar"), "foo/bar");
    assert_eq!(normalize(""), "");
    assert_eq!(normalize("/"), "/");
    assert_eq!(normalize("."), "");
}

#[test]
fn normalize_applies_parent_dirs() {
    assert_eq!(normalize("/foo/../bar"), "/bar");
    assert_eq!(normalize("/foo/bar/../../baz.rs"), "/baz.rs");
    assert_eq!(normalize("/.."), "/");
    assert_eq!(normalize("../a"), "a");
    assert_eq!(normalize("a/.."), "");
    assert_eq!(normalize("/a/b/../c/./d/.."), "/a/c");
}

#[test]
fn normalize_keeps_names_that_only_contain_dots() {
    assert_eq!(normalize("/a/.../b"), "/a/.../b");
    assert_eq!(normalize("/a/.b/..c"), "/a/.b/..c");
}

#[test]
fn intern_is_idempotent_and_signals_newness() {
    let mut m = PathMap::default();
    let (fresh1, id1) = m.get_or_insert("/main.rs", Root::Workspace);
    let (fresh2, id2) = m.get_or_insert("/main.rs", Root::Lib);
    assert!(fresh1);
    assert!(!fresh2);
    assert_eq!(id1, id2);
    assert_eq!(m.get_root(id1), Root::Workspace);
    assert_eq!(m.len(), 1);
}

#[test]
fn path_of_interned_id_is_normalized_path() {
    let mut m = PathMap::default();
    let (_, id) = m.get_or_insert("/src/../lib/./mod.rs", Root::Lib);
    assert_eq!(m.get_path(id), "/lib/mod.rs");
    assert_eq!(m.get_id("/lib/mod.rs"), Some(id));
    assert_eq!(m.get_id("/lib//mod.rs"), Some(id));
    assert_eq!(m.get_id("/lib/other.rs"), None);
    assert_eq!(m.get_root(id), Root::Lib);
}

#[test]
fn ids_are_dense_from_one() {
    let mut m = PathMap::default();
    let mut seen = Vec::new();
    for i in 0..100 {
        let path = format!("/dir{}/file{}.rs", 99 - i, i);
        let (fresh, id) = m.get_or_insert(&path, Root::Workspace);
        assert!(fresh);
        seen.push(id.0);
    }
    seen.sort();
    let expected: Vec<u32> = (1..=100).collect();
    assert_eq!(seen, expected);
    assert!(m.contains_id(FileId(100)));
    assert!(!m.contains_id(FileId(101)));
    assert!(!m.contains_id(FileId(0)));
}

#[test]
fn ids_grow_and_never_collide() {
    let mut m = PathMap::default();
    let (_, a) = m.get_or_insert("/a.rs", Root::Workspace);
    let (_, b) = m.get_or_insert("/b.rs", Root::Workspace);
    let (_, a2) = m.get_or_insert("/./a.rs", Root::Workspace);
    let (_, c) = m.get_or_insert("/c.rs", Root::Lib);
    assert_eq!(a, FileId(1));
    assert_eq!(b, FileId(2));
    assert_eq!(a2, a);
    assert_eq!(c, FileId(3));
}

#[test]
fn resolve_goes_up_with_parent_dir() {
    let mut m = PathMap::default();
    let (_, main) = m.get_or_insert("/src/main.rs", Root::Workspace);
    let (_, foo) = m.get_or_insert("/src/foo.rs", Root::Workspace);
    assert_eq!(m.resolve(main, "../foo.rs"), Some(foo));
    assert_eq!(m.resolve(main, "../bar.rs"), None);
}

#[test]
fn the_path_of_an_issued_id_is_found_under_that_id() {
    let mut m = PathMap::default();
    for path in ["/a/../b.rs", "c/./d.rs", "/", "", "x//y/"] {
        let (_, id) = m.get_or_insert(path, Root::Workspace);
        let stored = m.get_path(id).to_string();
        assert_eq!(stored, normalize(path));
        assert_eq!(normalize(&stored), stored);
        assert_eq!(m.get_id(&stored), Some(id));
    }
    assert_eq!(m.get_id("/never/interned.rs"), None);
}

#[test]
fn normalizing_twice_changes_nothing() {
    for path in ["/foo/./bar//baz/", "a/../../b", "/..", "../a", "/a/.../b", "//", "./."] {
        let once = normalize(path);
        assert_eq!(normalize(&once), once);
    }
}

#[test]
fn a_copy_of_the_registry_does_not_see_later_paths() {
    let mut m = PathMap::default();
    let (_, a) = m.get_or_insert("/a.rs", Root::Workspace);
    let copy = m.clone();
    let (fresh, b) = m.get_or_insert("/b.rs", Root::Lib);
    assert!(fresh);
    assert_eq!(copy.get_id("/a.rs"), Some(a));
    assert_eq!(copy.get_id("/b.rs"), None);
    assert!(!copy.contains_id(b));
    assert_eq!(copy.len(), 1);
    assert_eq!(m.get_id("/b.rs"), Some(b));
    assert_eq!(m.get_root(b), Root::Lib);
    assert_eq!(copy.get_path(a), "/a.rs");
    assert!(format!("{:?}", copy).contains("PathMap"));
}
