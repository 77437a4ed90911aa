use analysis_server::ids::{FileId, SourceRootId, WORKSPACE};
use analysis_server::vfs::{ScannedFile, Vfs, VfsChange, VfsTask};

fn scan(root: u32, local: bool, files: &[(&str, &str)]) -> VfsTask {
    VfsTask {
        root: SourceRootId(root),
        local,
        files: files
            .iter()
            .map(|(p, t)| ScannedFile { path: p.to_string(), text: t.to_string() })
            .collect(),
    }
}

fn text(vfs: &Vfs, id: FileId) -> Option<String> {
    vfs.file_text(id).cloned()
}

#[test]
fn open_registers_the_file_and_sets_the_overlay() {
    let mut vfs = Vfs::new();
    let id = vfs.add_file_overlay("/main.rs", "fn main() {}".to_string());
    assert_eq!(id, Some(FileId(1)));
    assert_eq!(text(&vfs, FileId(1)), Some("fn main() {}".to_string()));
    assert_eq!(vfs.file_id("/main.rs"), Some(FileId(1)));
    let changes = vfs.commit_changes();
    assert_eq!(changes.len(), 1);
    match &changes[0] {
        VfsChange::AddFile { root, file_id, path, text } => {
            assert_eq!(*root, SourceRootId(WORKSPACE));
            assert_eq!(*file_id, FileId(1));
            assert_eq!(path, "/main.rs");
            assert_eq!(text, "fn main() {}");
        }
        _ => panic!("expected an added file"),
    }
    assert!(vfs.commit_changes().is_empty());
}

#[test]
fn removing_an_overlay_restores_the_text_on_disk() {
    let mut vfs = Vfs::new();
    vfs.handle_task(scan(0, true, &[("/main.rs", "on disk")]));
    let id = vfs.file_id("/main.rs").unwrap();
    assert_eq!(text(&vfs, id), Some("on disk".to_string()));
    assert_eq!(vfs.add_file_overlay("/main.rs", "in editor".to_string()), Some(id));
    assert_eq!(text(&vfs, id), Some("in editor".to_string()));
    assert_eq!(vfs.remove_file_overlay("/main.rs"), Some(id));
    assert_eq!(text(&vfs, id), Some("on disk".to_string()));
    let changes = vfs.commit_changes();
    assert_eq!(changes.len(), 3);
    match &changes[2] {
        VfsChange::ChangeFile { file_id, text } => {
            assert_eq!(*file_id, id);
            assert_eq!(text, "on disk");
        }
        _ => panic!("expected a changed file"),
    }
}

#[test]
fn removing_the_overlay_of_a_file_without_disk_text_removes_the_file() {
    let mut vfs = Vfs::new();
    let id = vfs.add_file_overlay("/new.rs", "unsaved".to_string()).unwrap();
    assert_eq!(vfs.remove_file_overlay("/new.rs"), Some(id));
    assert_eq!(text(&vfs, id), None);
    let changes = vfs.commit_changes();
    assert_eq!(changes.len(), 2);
    match &changes[1] {
        VfsChange::RemoveFile { root, file_id } => {
            assert_eq!(*root, SourceRootId(WORKSPACE));
            assert_eq!(*file_id, id);
        }
        _ => panic!("expected a removed file"),
    }
    // the id stays with the path
    assert_eq!(vfs.file_id("/new.rs"), Some(id));
}

#[test]
fn opening_an_open_file_replaces_the_overlay() {
    let mut vfs = Vfs::new();
    let a = vfs.add_file_overlay("/main.rs", "one".to_string()).unwrap();
    let b = vfs.add_file_overlay("/main.rs", "two".to_string()).unwrap();
    assert_eq!(a, b);
    assert_eq!(text(&vfs, a), Some("two".to_string()));
    let changes = vfs.commit_changes();
    assert_eq!(changes.len(), 2);
    assert!(matches!(&changes[1], VfsChange::ChangeFile { file_id, text } if *file_id == a && text == "two"));
}

#[test]
fn change_replaces_the_overlay_of_an_open_file_only() {
    let mut vfs = Vfs::new();
    vfs.handle_task(scan(0, true, &[("/closed.rs", "on disk")]));
    let closed = vfs.file_id("/closed.rs").unwrap();
    let open = vfs.add_file_overlay("/open.rs", "one".to_string()).unwrap();
    vfs.commit_changes();
    vfs.change_file_overlay("/open.rs", "two".to_string());
    vfs.change_file_overlay("/closed.rs", "ignored".to_string());
    vfs.change_file_overlay("/unknown.rs", "ignored".to_string());
    assert_eq!(text(&vfs, open), Some("two".to_string()));
    assert_eq!(text(&vfs, closed), Some("on disk".to_string()));
    assert_eq!(vfs.file_id("/unknown.rs"), None);
    assert_eq!(vfs.commit_changes().len(), 1);
}

#[test]
fn closing_a_file_that_is_not_open_changes_nothing() {
    let mut vfs = Vfs::new();
    vfs.handle_task(scan(0, true, &[("/main.rs", "on disk")]));
    vfs.commit_changes();
    assert_eq!(vfs.remove_file_overlay("/main.rs"), None);
    assert_eq!(vfs.remove_file_overlay("/unknown.rs"), None);
    assert!(vfs.commit_changes().is_empty());
    assert_eq!(text(&vfs, FileId(1)), Some("on disk".to_string()));
}

#[test]
fn library_files_get_no_overlay() {
    let mut vfs = Vfs::new();
    vfs.handle_task(scan(1, false, &[("/lib/lib.rs", "pub fn g(){}")]));
    vfs.commit_changes();
    let id = vfs.file_id("/lib/lib.rs").unwrap();
    assert_eq!(vfs.add_file_overlay("/lib/lib.rs", "edited".to_string()), None);
    assert_eq!(text(&vfs, id), Some("pub fn g(){}".to_string()));
    assert!(vfs.commit_changes().is_empty());
}

#[test]
fn scanned_root_reports_its_files_but_for_the_open_ones() {
    let mut vfs = Vfs::new();
    let open = vfs.add_file_overlay("/main.rs", "in editor".to_string()).unwrap();
    vfs.commit_changes();
    vfs.handle_task(scan(0, true, &[("/main.rs", "on disk"), ("/foo.rs", "struct S;")]));
    assert_eq!(text(&vfs, open), Some("in editor".to_string()));
    let foo = vfs.file_id("/foo.rs").unwrap();
    assert_eq!(foo, FileId(2));
    let changes = vfs.commit_changes();
    assert_eq!(changes.len(), 1);
    match &changes[0] {
        VfsChange::AddRoot { root, local, files } => {
            assert_eq!(*root, SourceRootId(0));
            assert!(*local);
            assert_eq!(files.len(), 1);
            assert_eq!(files[0].file_id, foo);
            assert_eq!(files[0].path, "/foo.rs");
            assert_eq!(files[0].text, "struct S;");
        }
        _ => panic!("expected a scanned root"),
    }
    // closing brings the text on disk back
    vfs.remove_file_overlay("/main.rs");
    assert_eq!(text(&vfs, open), Some("on disk".to_string()));
}

#[test]
fn room_counts_the_ids_that_are_left() {
    let mut vfs = Vfs::new();
    assert_eq!(vfs.room(), u32::MAX - 1);
    vfs.add_file_overlay("/a.rs", "".to_string());
    vfs.add_file_overlay("/b.rs", "".to_string());
    vfs.add_file_overlay("/a.rs", "again".to_string());
    assert_eq!(vfs.room(), u32::MAX - 3);
}

#[test]
fn opening_again_after_closing_an_unsaved_file_adds_the_file_again() {
    let mut vfs = Vfs::new();
    let id = vfs.add_file_overlay("/x.rs", "one".to_string()).unwrap();
    vfs.remove_file_overlay("/x.rs");
    vfs.commit_changes();
    assert_eq!(vfs.add_file_overlay("/x.rs", "two".to_string()), Some(id));
    let changes = vfs.commit_changes();
    assert_eq!(changes.len(), 1);
    match &changes[0] {
        VfsChange::AddFile { root, file_id, path, text } => {
            assert_eq!(*root, SourceRootId(WORKSPACE));
            assert_eq!(*file_id, id);
            assert_eq!(path, "/x.rs");
            assert_eq!(text, "two");
        }
        _ => panic!("expected an added file"),
    }
    // a file with a text on disk is changed, not added
    vfs.handle_task(scan(0, true, &[("/y.rs", "on disk")]));
    vfs.commit_changes();
    vfs.add_file_overlay("/y.rs", "in editor".to_string());
    let changes = vfs.commit_changes();
    assert!(matches!(&changes[0], VfsChange::ChangeFile { text, .. } if text == "in editor"));
}

#[test]
fn a_scan_leaves_files_of_the_other_kind_of_root_alone() {
    let mut vfs = Vfs::new();
    vfs.handle_task(scan(0, true, &[("/src/a.rs", "workspace")]));
    vfs.handle_task(scan(1, false, &[("/lib/b.rs", "library")]));
    vfs.commit_changes();
    let a = vfs.file_id("/src/a.rs").unwrap();
    let b = vfs.file_id("/lib/b.rs").unwrap();
    vfs.handle_task(scan(1, false, &[("/src/a.rs", "from library"), ("/lib/c.rs", "new")]));
    vfs.handle_task(scan(0, true, &[("/lib/b.rs", "from workspace")]));
    assert_eq!(text(&vfs, a), Some("workspace".to_string()));
    assert_eq!(text(&vfs, b), Some("library".to_string()));
    let changes = vfs.commit_changes();
    assert_eq!(changes.len(), 2);
    match &changes[0] {
        VfsChange::AddRoot { files, local, .. } => {
            assert!(!*local);
            assert_eq!(files.len(), 1);
            assert_eq!(files[0].path, "/lib/c.rs");
        }
        _ => panic!("expected a scanned root"),
    }
    assert!(matches!(&changes[1], VfsChange::AddRoot { files, .. } if files.is_empty()));
    let registry = vfs.registry();
    assert_eq!(registry.get_id("/lib/c.rs"), Some(FileId(3)));
}
