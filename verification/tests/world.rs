use analysis_server::cancel::CancelToken;
use analysis_server::ids::{FileId, SourceRootId, WORKSPACE};
use analysis_server::world::{AnalysisChange, AnalysisHost, FileEntry, LibraryData};

fn text_of(analysis: &analysis_server::world::Analysis, id: u32) -> Option<String> {
    analysis.file_text(FileId(id)).cloned()
}

#[test]
fn empty_world_has_version_zero_and_no_files() {
    let host = AnalysisHost::default();
    assert_eq!(host.version(), 0);
    let snap = host.analysis();
    assert_eq!(snap.version(), 0);
    assert_eq!(text_of(&snap, 1), None);
}

#[test]
fn change_adds_changes_and_removes_files() {
    let mut host = AnalysisHost::default();
    let mut change = AnalysisChange::new();
    change.add_file(SourceRootId(WORKSPACE), FileId(1), "main.rs".to_string(), "fn main() {}".to_string());
    change.add_file(SourceRootId(WORKSPACE), FileId(2), "foo.rs".to_string(), "struct S;".to_string());
    host.apply_change(change);
    assert_eq!(host.version(), 1);
    let snap = host.analysis();
    assert_eq!(text_of(&snap, 1), Some("fn main() {}".to_string()));
    assert_eq!(text_of(&snap, 2), Some("struct S;".to_string()));
    assert_eq!(snap.file_path(FileId(2)).cloned(), Some("foo.rs".to_string()));
    assert_eq!(snap.file_root(FileId(2)), Some(SourceRootId(WORKSPACE)));
    assert_eq!(snap.file_root(FileId(3)), None);

    let mut change = AnalysisChange::new();
    change.change_file(FileId(1), "fn main() { x }".to_string());
    change.change_file(FileId(7), "never added".to_string());
    change.remove_file(FileId(2));
    host.apply_change(change);
    assert_eq!(host.version(), 2);
    let snap = host.analysis();
    assert_eq!(text_of(&snap, 1), Some("fn main() { x }".to_string()));
    assert_eq!(text_of(&snap, 2), None);
    assert_eq!(text_of(&snap, 7), None);
    assert_eq!(snap.file_path(FileId(2)), None);
    assert_eq!(snap.file_root(FileId(2)), None);
    assert_eq!(snap.file_root(FileId(1)), Some(SourceRootId(0)));
}

#[test]
fn additions_come_before_changes_and_removals_of_one_change_set() {
    let mut host = AnalysisHost::default();
    let mut change = AnalysisChange::new();
    change.remove_file(FileId(2));
    change.change_file(FileId(1), "changed".to_string());
    change.add_file(SourceRootId(WORKSPACE), FileId(1), "a.rs".to_string(), "added".to_string());
    change.add_file(SourceRootId(WORKSPACE), FileId(2), "b.rs".to_string(), "gone".to_string());
    host.apply_change(change);
    let snap = host.analysis();
    assert_eq!(text_of(&snap, 1), Some("changed".to_string()));
    assert_eq!(text_of(&snap, 2), None);
}

#[test]
fn snapshot_is_not_touched_by_later_changes() {
    let mut host = AnalysisHost::default();
    let mut change = AnalysisChange::new();
    change.add_file(SourceRootId(WORKSPACE), FileId(1), "main.rs".to_string(), "old".to_string());
    host.apply_change(change);
    let before = host.analysis();
    let mut change = AnalysisChange::new();
    change.change_file(FileId(1), "new".to_string());
    change.add_file(SourceRootId(WORKSPACE), FileId(2), "foo.rs".to_string(), "more".to_string());
    host.apply_change(change);
    let mut change = AnalysisChange::new();
    change.remove_file(FileId(1));
    host.apply_change(change);
    assert_eq!(text_of(&before, 1), Some("old".to_string()));
    assert_eq!(text_of(&before, 2), None);
    assert_eq!(before.version(), 1);
    let after = host.analysis();
    assert_eq!(text_of(&after, 1), None);
    assert_eq!(text_of(&after, 2), Some("more".to_string()));
    assert_eq!(after.version(), 3);
}

#[test]
fn change_cancels_the_token_of_the_previous_snapshot() {
    let mut host = AnalysisHost::default();
    let first = host.analysis();
    assert!(!host.cancel_token(&first).is_canceled());
    host.apply_change(AnalysisChange::new());
    assert!(host.cancel_token(&first).is_canceled());
    let second = host.analysis();
    assert!(!host.cancel_token(&second).is_canceled());
    host.apply_change(AnalysisChange::new());
    assert!(host.cancel_token(&first).is_canceled());
    assert!(host.cancel_token(&second).is_canceled());
    assert!(!host.cancel_token(&host.analysis()).is_canceled());
}

#[test]
fn cancel_is_idempotent() {
    let mut token = CancelToken::new();
    assert!(!token.is_canceled());
    token.cancel();
    assert!(token.is_canceled());
    let once = token;
    token.cancel();
    assert!(token.is_canceled());
    assert_eq!(token, once);
}

#[test]
fn library_is_installed_as_a_whole() {
    let mut host = AnalysisHost::default();
    let files = vec![
        FileEntry { file_id: FileId(10), path: "lib.rs".to_string(), text: "pub fn g(){}".to_string() },
        FileEntry { file_id: FileId(11), path: "a.rs".to_string(), text: "mod a;".to_string() },
    ];
    let data = LibraryData::prepare(SourceRootId(1), files);
    assert_eq!(data.root, SourceRootId(1));
    assert_eq!(data.files.len(), 2);
    let mut change = AnalysisChange::new();
    change.add_library(data);
    host.apply_change(change);
    let snap = host.analysis();
    assert_eq!(snap.version(), 1);
    assert_eq!(text_of(&snap, 10), Some("pub fn g(){}".to_string()));
    assert_eq!(text_of(&snap, 11), Some("mod a;".to_string()));
    assert_eq!(snap.file_path(FileId(10)).cloned(), Some("lib.rs".to_string()));
    assert_eq!(snap.file_root(FileId(10)), Some(SourceRootId(1)));
    assert_eq!(snap.file_root(FileId(11)), Some(SourceRootId(1)));
}
