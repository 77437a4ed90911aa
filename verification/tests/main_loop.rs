use analysis_server::ids::{FileId, SourceRootId};
use analysis_server::main_loop::{
    feedback, on_request, on_task, Action, Event, LoopError, MainLoop, PoolDispatcher, Turn,
    Warning,
};
use analysis_server::messages::{
    ClientMessage, Notification, RawMessage, RawNotification, RawRequest, RawResponse, Task,
    METHOD_NOT_FOUND, REQUEST_CANCELLED,
};
use analysis_server::pending::PendingRequests;
use analysis_server::req::RequestKind;
use analysis_server::server_world::ServerWorldState;
use analysis_server::vfs::{ScannedFile, VfsTask};
use analysis_server::world::{FileEntry, LibraryData};

fn request(id: u64, method: &str, params: &str) -> Event {
    Event::Msg(RawMessage::Request(RawRequest {
        id,
        method: method.to_string(),
        params: params.to_string(),
    }))
}

fn open(path: &str, text: &str) -> Event {
    Event::Msg(RawMessage::Notification(Notification::DidOpenTextDocument {
        uri: format!("file://{}", path),
        path: Some(path.to_string()),
        text: text.to_string(),
    }))
}

fn change(path: &str, text: &str) -> Event {
    Event::Msg(RawMessage::Notification(Notification::DidChangeTextDocument {
        uri: format!("file://{}", path),
        path: Some(path.to_string()),
        content_changes: vec![text.to_string()],
    }))
}

fn close(path: &str) -> Event {
    Event::Msg(RawMessage::Notification(Notification::DidCloseTextDocument {
        uri: format!("file://{}", path),
        path: Some(path.to_string()),
    }))
}

fn cancel(id: u64) -> Event {
    Event::Msg(RawMessage::Notification(Notification::Cancel { id }))
}

fn respond(id: u64, result: &str) -> Event {
    Event::Task(Task::Respond(RawResponse::ok(id, result.to_string())))
}

fn take(m: &mut MainLoop, event: Event) -> Turn {
    assert!(m.can_take(&event));
    m.on_event(event).unwrap()
}

/// The workspace of the scenarios: `/main.rs` and `/foo.rs`, both open.
fn workspace() -> MainLoop {
    let mut m = MainLoop::new(true, false, 0);
    take(&mut m, open("/main.rs", "fn main() {}"));
    take(&mut m, open("/foo.rs", "struct S;"));
    m
}

fn sent(turn: &Turn) -> Vec<&ClientMessage> {
    turn.actions
        .iter()
        .filter_map(|a| match a {
            Action::Send(m) => Some(m),
            _ => None,
        })
        .collect()
}

fn error_of(m: &ClientMessage) -> (u64, i32, String) {
    match m {
        ClientMessage::Response(r) => {
            assert!(r.result.is_none());
            let e = r.error.as_ref().unwrap();
            (r.id, e.code, e.message.clone())
        }
        _ => panic!("expected a response"),
    }
}

fn subscriptions_of(turn: &Turn) -> Vec<u32> {
    for a in turn.actions.iter() {
        if let Action::UpdateNotifications { subscriptions, .. } = a {
            let mut ids: Vec<u32> = subscriptions.iter().map(|f| f.0).collect();
            ids.sort();
            return ids;
        }
    }
    panic!("no diagnostics requested");
}

#[test]
fn simple_query_is_dispatched_on_a_snapshot_of_the_world() {
    let mut m = workspace();
    let turn = take(&mut m, request(1, "m/syntaxTree", "{\"textDocument\":\"/main.rs\"}"));
    assert!(!turn.done);
    assert_eq!(turn.actions.len(), 1);
    match &turn.actions[0] {
        Action::Dispatch(d) => {
            assert_eq!(d.id, 1);
            assert_eq!(d.kind, RequestKind::SyntaxTree);
            assert_eq!(d.params, "{\"textDocument\":\"/main.rs\"}");
            assert_eq!(d.snapshot.file_text(FileId(1)).unwrap(), "fn main() {}");
            assert_eq!(d.snapshot.file_text(FileId(2)).unwrap(), "struct S;");
        }
        _ => panic!("expected a dispatch"),
    }
    assert!(m.is_pending(1));
    // the worker's response is passed on, once
    let turn = take(&mut m, respond(1, "\"FN_DEF fn main\""));
    let out = sent(&turn);
    assert_eq!(out.len(), 1);
    match out[0] {
        ClientMessage::Response(r) => {
            assert_eq!(r.id, 1);
            assert_eq!(r.result.as_deref(), Some("\"FN_DEF fn main\""));
            assert!(r.error.is_none());
        }
        _ => panic!("expected a response"),
    }
    assert!(!m.is_pending(1));
    let turn = take(&mut m, respond(1, "\"again\""));
    assert!(turn.actions.is_empty());
}

#[test]
fn change_supersedes_the_snapshot_of_a_running_query() {
    let mut m = workspace();
    let turn = take(&mut m, request(3, "textDocument/completion", "{}"));
    let snapshot = match turn.actions.into_iter().next().unwrap() {
        Action::Dispatch(d) => d.snapshot,
        _ => panic!("expected a dispatch"),
    };
    let turn = take(&mut m, change("/main.rs", "fn main() {x}"));
    // the old snapshot still shows the old text, and is behind the world
    assert_eq!(snapshot.file_text(FileId(1)).unwrap(), "fn main() {}");
    let now = m.snapshot();
    assert!(snapshot.version() < now.version());
    assert_eq!(now.file_text(FileId(1)).unwrap(), "fn main() {x}");
    // diagnostics for the new text follow
    match turn.actions.last().unwrap() {
        Action::UpdateNotifications { snapshot, publish_decorations, subscriptions } => {
            assert_eq!(snapshot.file_text(FileId(1)).unwrap(), "fn main() {x}");
            assert!(!publish_decorations);
            assert_eq!(subscriptions.len(), 2);
        }
        _ => panic!("expected diagnostics"),
    }
    // whichever way the worker ends, its response goes out under the id once
    assert!(m.is_pending(3));
    let turn = take(
        &mut m,
        Event::Task(Task::Respond(RawResponse::err(3, REQUEST_CANCELLED, "canceled".to_string()))),
    );
    assert_eq!(error_of(sent(&turn)[0]), (3, REQUEST_CANCELLED, "canceled".to_string()));
}

#[test]
fn explicit_cancel_answers_once_and_drops_the_late_result() {
    let mut m = workspace();
    take(&mut m, request(7, "workspace/symbol", "{\"query\":\"S\"}"));
    let turn = take(&mut m, cancel(7));
    let out = sent(&turn);
    assert_eq!(out.len(), 1);
    assert_eq!(error_of(out[0]), (7, REQUEST_CANCELLED, "canceled by client".to_string()));
    assert_eq!(REQUEST_CANCELLED, -32800);
    assert!(!m.is_pending(7));
    let turn = take(&mut m, respond(7, "[]"));
    assert!(turn.actions.is_empty());
    assert!(turn.warning.is_none());
}

#[test]
fn canceling_an_id_that_is_not_pending_does_nothing() {
    let mut m = workspace();
    take(&mut m, request(1, "textDocument/hover", "{}"));
    let version = m.snapshot().version();
    let turn = take(&mut m, cancel(99));
    assert!(turn.actions.is_empty());
    assert!(turn.warning.is_none());
    assert!(!turn.done);
    assert!(m.is_pending(1));
    assert!(!m.is_pending(99));
    assert_eq!(m.snapshot().version(), version);
}

#[test]
fn library_loaded_feedback_comes_once_then_workspace_loaded() {
    let mut m = MainLoop::new(true, false, 2);
    // the roots are scanned: the workspace, then the library
    let turn = take(
        &mut m,
        Event::Vfs(VfsTask {
            root: SourceRootId(0),
            local: true,
            files: vec![ScannedFile { path: "/main.rs".to_string(), text: "fn main() {}".to_string() }],
        }),
    );
    assert!(sent(&turn).is_empty());
    let turn = take(
        &mut m,
        Event::Vfs(VfsTask {
            root: SourceRootId(1),
            local: false,
            files: vec![ScannedFile { path: "/lib.rs".to_string(), text: "pub fn g(){}".to_string() }],
        }),
    );
    assert!(sent(&turn).is_empty());
    let index = turn.actions.iter().find(|a| matches!(a, Action::IndexLibrary(_))).unwrap();
    let lib = match index {
        Action::IndexLibrary(lib) => {
            assert_eq!(lib.root, SourceRootId(1));
            assert_eq!(lib.files.len(), 1);
            assert_eq!(lib.files[0].path, "/lib.rs");
            assert_eq!(lib.files[0].text, "pub fn g(){}");
            LibraryData::prepare(
                lib.root,
                vec![FileEntry {
                    file_id: lib.files[0].file_id,
                    path: lib.files[0].path.clone(),
                    text: lib.files[0].text.clone(),
                }],
            )
        }
        _ => panic!("expected a library to index"),
    };
    // the library is not in the world before it is indexed
    assert!(m.snapshot().file_text(FileId(2)).is_none());
    let turn = take(&mut m, Event::Lib(lib));
    let feedbacks: Vec<String> = sent(&turn)
        .iter()
        .map(|m| match m {
            ClientMessage::InternalFeedback { message } => message.clone(),
            _ => panic!("expected feedback"),
        })
        .collect();
    assert_eq!(feedbacks, vec!["library loaded".to_string(), "workspace loaded".to_string()]);
    assert_eq!(m.snapshot().file_text(FileId(2)).unwrap(), "pub fn g(){}");
    assert_eq!(m.snapshot().file_text(FileId(1)).unwrap(), "fn main() {}");
    assert_eq!(m.snapshot().file_root(FileId(1)), Some(SourceRootId(0)));
    assert_eq!(m.snapshot().file_root(FileId(2)), Some(SourceRootId(1)));
}

#[test]
fn no_feedback_outside_internal_mode() {
    let mut m = MainLoop::new(false, true, 0);
    let turn = take(&mut m, open("/main.rs", "fn main() {}"));
    assert!(sent(&turn).is_empty());
    assert_eq!(turn.actions.len(), 2);
    assert!(matches!(&turn.actions[0], Action::CancelSnapshots { before: 1 }));
    match &turn.actions[1] {
        Action::UpdateNotifications { publish_decorations, subscriptions, .. } => {
            assert!(*publish_decorations);
            assert_eq!(subscriptions, &vec![FileId(1)]);
        }
        _ => panic!("expected diagnostics"),
    }
    assert!(feedback(false, "workspace loaded").is_none());
    match feedback(true, "workspace loaded") {
        Some(ClientMessage::InternalFeedback { message }) => assert_eq!(message, "workspace loaded"),
        _ => panic!("expected feedback"),
    }
}

#[test]
fn shutdown_is_answered_once_and_ends_the_session() {
    let mut m = workspace();
    take(&mut m, change("/main.rs", "fn main() { 1 }"));
    take(&mut m, close("/foo.rs"));
    take(&mut m, request(4, "textDocument/hover", "{}"));
    let turn = take(&mut m, request(5, "shutdown", "null"));
    assert!(turn.done);
    assert!(m.is_shutdown());
    let out = sent(&turn);
    assert_eq!(out.len(), 1);
    match out[0] {
        ClientMessage::Response(r) => {
            assert_eq!(r.id, 5);
            assert_eq!(r.result.as_deref(), Some("null"));
            assert!(r.error.is_none());
        }
        _ => panic!("expected a response"),
    }
    // no further messages but the responses of tasks that are still running
    let version = m.snapshot().version();
    let turn = take(&mut m, request(6, "shutdown", "null"));
    assert!(turn.done);
    assert!(turn.actions.is_empty());
    let turn = take(&mut m, open("/bar.rs", "late"));
    assert!(turn.actions.is_empty());
    let turn = take(&mut m, request(8, "textDocument/hover", "{}"));
    assert!(turn.actions.is_empty());
    assert!(!m.is_pending(8));
    assert_eq!(m.snapshot().version(), version);
    let turn = take(&mut m, Event::ClientClosed);
    assert!(turn.done && turn.actions.is_empty());
    // the pending request is still answered while the loop drains
    let turn = take(&mut m, respond(4, "null"));
    assert!(turn.done);
    assert_eq!(sent(&turn).len(), 1);
    assert!(!m.is_pending(4));
}

#[test]
fn opening_files_issues_dense_ids_and_subscribes_them() {
    let mut m = MainLoop::new(false, false, 0);
    let mut last = Vec::new();
    for i in 0..100 {
        let turn = take(&mut m, open(&format!("/src/file{}.rs", (i * 37) % 100), "x"));
        last = subscriptions_of(&turn);
    }
    let expected: Vec<u32> = (1..=100).collect();
    assert_eq!(last, expected);
}

#[test]
fn closing_a_file_withdraws_its_diagnostics() {
    let mut m = workspace();
    let turn = take(&mut m, close("/main.rs"));
    assert!(turn.warning.is_none());
    assert!(matches!(&turn.actions[0], Action::CancelSnapshots { before: 3 }));
    match &turn.actions[1] {
        Action::Send(ClientMessage::PublishDiagnostics { uri }) => assert_eq!(uri, "file:///main.rs"),
        _ => panic!("expected empty diagnostics"),
    }
    assert_eq!(subscriptions_of(&turn), vec![2]);
    // the file had no text on disk, so it is gone from the world
    assert!(m.snapshot().file_text(FileId(1)).is_none());
}

#[test]
fn closing_a_file_that_was_never_opened_is_no_error() {
    let mut m = workspace();
    let version = m.snapshot().version();
    let turn = take(&mut m, close("/never.rs"));
    assert!(turn.warning.is_none());
    assert!(!turn.done);
    match &turn.actions[0] {
        Action::Send(ClientMessage::PublishDiagnostics { uri }) => assert_eq!(uri, "file:///never.rs"),
        _ => panic!("expected empty diagnostics"),
    }
    assert_eq!(subscriptions_of(&turn), vec![1, 2]);
    assert_eq!(m.snapshot().version(), version);
}

#[test]
fn opening_an_open_file_replaces_its_text() {
    let mut m = workspace();
    let turn = take(&mut m, open("/main.rs", "fn other() {}"));
    assert_eq!(subscriptions_of(&turn), vec![1, 2]);
    assert_eq!(m.snapshot().file_text(FileId(1)).unwrap(), "fn other() {}");
}

#[test]
fn unknown_request_gets_method_not_found() {
    let mut m = workspace();
    let turn = take(&mut m, request(9, "m/noSuchThing", "{}"));
    let out = sent(&turn);
    assert_eq!(out.len(), 1);
    assert_eq!(error_of(out[0]), (9, METHOD_NOT_FOUND, "unknown request".to_string()));
    assert_eq!(METHOD_NOT_FOUND, -32601);
    assert!(!m.is_pending(9));
}

#[test]
fn malformed_notifications_are_warnings_and_the_loop_goes_on() {
    let mut m = workspace();
    let version = m.snapshot().version();
    let turn = take(
        &mut m,
        Event::Msg(RawMessage::Notification(Notification::DidOpenTextDocument {
            uri: "http://example.com/x".to_string(),
            path: None,
            text: "x".to_string(),
        })),
    );
    assert!(turn.actions.is_empty());
    match turn.warning {
        Some(w) => {
            assert!(matches!(&w, Warning::InvalidUri { uri } if uri == "http://example.com/x"));
            assert_eq!(w.message(), "invalid uri: http://example.com/x");
        }
        None => panic!("expected a warning"),
    }
    let turn = take(
        &mut m,
        Event::Msg(RawMessage::Notification(Notification::DidChangeTextDocument {
            uri: "file:///main.rs".to_string(),
            path: Some("/main.rs".to_string()),
            content_changes: vec![],
        })),
    );
    assert!(turn.actions.is_empty());
    match turn.warning {
        Some(w) => assert_eq!(w.message(), "empty changes"),
        None => panic!("expected a warning"),
    }
    assert_eq!(m.snapshot().version(), version);
    let turn = take(
        &mut m,
        Event::Msg(RawMessage::Notification(Notification::Unhandled { method: "x/y".to_string() })),
    );
    assert!(turn.actions.is_empty() && turn.warning.is_none());
}

#[test]
fn the_last_change_of_a_notification_is_the_new_text() {
    let mut m = workspace();
    take(
        &mut m,
        Event::Msg(RawMessage::Notification(Notification::DidChangeTextDocument {
            uri: "file:///main.rs".to_string(),
            path: Some("/main.rs".to_string()),
            content_changes: vec!["first".to_string(), "last".to_string()],
        })),
    );
    assert_eq!(m.snapshot().file_text(FileId(1)).unwrap(), "last");
}

#[test]
fn closed_channels_end_the_loop_with_an_error() {
    let mut m = workspace();
    assert_eq!(m.on_event(Event::ClientClosed).err(), Some(LoopError::ClientExited));
    assert_eq!(m.on_event(Event::VfsClosed).err(), Some(LoopError::VfsDied));
    assert_eq!(LoopError::ClientExited.message(), "client exited without shutdown");
    assert_eq!(LoopError::VfsDied.message(), "vfs died");
}

#[test]
fn a_request_with_a_pending_id_is_not_taken() {
    let mut m = workspace();
    take(&mut m, request(1, "textDocument/hover", "{}"));
    assert!(!m.can_take(&request(1, "textDocument/hover", "{}")));
    assert!(m.can_take(&request(1, "m/noSuchThing", "{}")));
    assert!(m.can_take(&request(1, "shutdown", "null")));
    assert!(m.can_take(&request(2, "textDocument/hover", "{}")));
}

#[test]
fn responses_of_tasks_pass_only_for_pending_ids() {
    let mut pending = PendingRequests::new();
    pending.insert(1);
    assert!(pending.contains(1));
    let out = on_task(Task::Respond(RawResponse::ok(2, "x".to_string())), &mut pending);
    assert!(out.is_none());
    assert!(pending.contains(1));
    let out = on_task(Task::Respond(RawResponse::ok(1, "x".to_string())), &mut pending);
    assert!(matches!(out, Some(ClientMessage::Response(r)) if r.id == 1));
    assert!(!pending.contains(1));
    let note = RawNotification { method: "textDocument/publishDiagnostics".to_string(), params: "{}".to_string() };
    let out = on_task(Task::Notify(note), &mut pending);
    assert!(matches!(out, Some(ClientMessage::Notification(n)) if n.method == "textDocument/publishDiagnostics"));
    assert!(!pending.remove(1));
}

#[test]
fn dispatcher_accepts_a_request_under_exactly_one_kind() {
    let world = ServerWorldState::new(0);
    let req = RawRequest { id: 3, method: "m/joinLines".to_string(), params: "p".to_string() };
    let mut d = PoolDispatcher::new(req);
    d.on(RequestKind::SyntaxTree, &world);
    d.on(RequestKind::JoinLines, &world);
    d.on(RequestKind::JoinLines, &world);
    d.on(RequestKind::Hover, &world);
    match d.finish() {
        Ok(dispatch) => {
            assert_eq!(dispatch.id, 3);
            assert_eq!(dispatch.kind, RequestKind::JoinLines);
            assert_eq!(dispatch.params, "p");
        }
        Err(_) => panic!("expected the request to be accepted"),
    }
    let req = RawRequest { id: 4, method: "m/joinLines".to_string(), params: "p".to_string() };
    let mut d = PoolDispatcher::new(req);
    d.on(RequestKind::SyntaxTree, &world);
    match d.finish() {
        Ok(_) => panic!("no kind accepted the request"),
        Err(req) => assert_eq!(req.id, 4),
    }
}

#[test]
fn on_request_enters_the_id_as_pending() {
    let world = ServerWorldState::new(0);
    let mut pending = PendingRequests::new();
    let req = RawRequest { id: 11, method: "textDocument/references".to_string(), params: "{}".to_string() };
    match on_request(&world, &mut pending, req) {
        Ok(d) => assert_eq!((d.id, d.kind), (11, RequestKind::References)),
        Err(_) => panic!("expected a dispatch"),
    }
    assert!(pending.contains(11));
    let req = RawRequest { id: 12, method: "textDocument/unknown".to_string(), params: "{}".to_string() };
    match on_request(&world, &mut pending, req) {
        Ok(_) => panic!("unknown method"),
        Err(req) => assert_eq!(req.method, "textDocument/unknown"),
    }
    assert!(!pending.contains(12));
}

#[test]
fn world_state_counts_down_the_roots() {
    let mut state = ServerWorldState::new(2);
    assert!(state.process_changes().is_empty());
    assert_eq!(state.analysis_host.version(), 0);
    state.vfs.handle_task(VfsTask {
        root: SourceRootId(0),
        local: true,
        files: vec![ScannedFile { path: "/a.rs".to_string(), text: "a".to_string() }],
    });
    state.vfs.handle_task(VfsTask {
        root: SourceRootId(1),
        local: false,
        files: vec![ScannedFile { path: "/lib/b.rs".to_string(), text: "b".to_string() }],
    });
    let libs = state.process_changes();
    assert_eq!(state.roots_to_scan, 1);
    assert_eq!(libs.len(), 1);
    assert_eq!(libs[0].root, SourceRootId(1));
    assert_eq!(state.analysis_host.version(), 1);
    assert_eq!(state.snapshot().file_text(FileId(1)).unwrap(), "a");
    assert!(state.snapshot().file_text(FileId(2)).is_none());
    let lib = libs.into_iter().next().unwrap();
    state.add_lib(LibraryData::prepare(lib.root, lib.files));
    assert_eq!(state.roots_to_scan, 0);
    assert_eq!(state.analysis_host.version(), 2);
    assert_eq!(state.snapshot().file_text(FileId(2)).unwrap(), "b");
    state.add_lib(LibraryData::prepare(SourceRootId(2), vec![]));
    assert_eq!(state.roots_to_scan, 0);
}

#[test]
fn every_change_of_the_world_cancels_the_snapshots_taken_before() {
    let mut m = workspace();
    let turn = take(&mut m, request(1, "textDocument/hover", "{}"));
    let old = match turn.actions.into_iter().next().unwrap() {
        Action::Dispatch(d) => d.snapshot,
        _ => panic!("expected a dispatch"),
    };
    assert_eq!(old.version(), 2);
    // a request, a response and a cancellation leave the world alone
    for turn in [
        take(&mut m, request(2, "textDocument/hover", "{}")),
        take(&mut m, respond(2, "null")),
        take(&mut m, cancel(1)),
        take(&mut m, change("/not/open.rs", "x")),
    ] {
        assert!(!turn.actions.iter().any(|a| matches!(a, Action::CancelSnapshots { .. })));
    }
    assert_eq!(m.snapshot().version(), 2);
    // a change of an open file moves the world on
    let turn = take(&mut m, change("/foo.rs", "struct T;"));
    match &turn.actions[0] {
        Action::CancelSnapshots { before } => {
            assert_eq!(*before, 3);
            assert!(old.version() < *before);
        }
        _ => panic!("expected the cancellation to come first"),
    }
    assert_eq!(m.snapshot().version(), 3);
    assert_eq!(
        turn.actions.iter().filter(|a| matches!(a, Action::CancelSnapshots { .. })).count(),
        1
    );
}

#[test]
fn a_file_opened_again_after_it_was_closed_is_in_the_world() {
    let mut m = MainLoop::new(false, false, 0);
    take(&mut m, open("/x.rs", "first"));
    assert_eq!(m.snapshot().file_text(FileId(1)).unwrap(), "first");
    take(&mut m, close("/x.rs"));
    assert!(m.snapshot().file_text(FileId(1)).is_none());
    let turn = take(&mut m, open("/x.rs", "second"));
    assert_eq!(subscriptions_of(&turn), vec![1]);
    let snapshot = m.snapshot();
    assert_eq!(snapshot.file_text(FileId(1)).unwrap(), "second");
    assert_eq!(snapshot.file_path(FileId(1)).unwrap(), "/x.rs");
    assert_eq!(snapshot.file_root(FileId(1)), Some(SourceRootId(0)));
    // and once more, with a change in between
    take(&mut m, change("/x.rs", "third"));
    take(&mut m, close("/x.rs"));
    take(&mut m, open("/x.rs", "fourth"));
    assert_eq!(m.snapshot().file_text(FileId(1)).unwrap(), "fourth");
}

#[test]
fn a_closed_file_comes_back_with_its_text_on_disk_when_it_is_scanned() {
    let mut m = MainLoop::new(false, false, 1);
    take(&mut m, open("/x.rs", "in editor"));
    take(&mut m, close("/x.rs"));
    assert!(m.snapshot().file_text(FileId(1)).is_none());
    take(
        &mut m,
        Event::Vfs(VfsTask {
            root: SourceRootId(0),
            local: true,
            files: vec![ScannedFile { path: "/x.rs".to_string(), text: "on disk".to_string() }],
        }),
    );
    assert_eq!(m.snapshot().file_text(FileId(1)).unwrap(), "on disk");
    take(&mut m, open("/x.rs", "again"));
    assert_eq!(m.snapshot().file_text(FileId(1)).unwrap(), "again");
    take(&mut m, close("/x.rs"));
    assert_eq!(m.snapshot().file_text(FileId(1)).unwrap(), "on disk");
}

#[test]
fn the_registry_comes_with_added_files_as_the_file_resolver() {
    let mut m = MainLoop::new(false, false, 0);
    assert!(m.snapshot().file_resolver().is_none());
    take(&mut m, open("/src/main.rs", "mod foo;"));
    let early = m.snapshot();
    take(&mut m, open("/src/foo.rs", "struct S;"));
    let late = m.snapshot();
    let resolver = late.file_resolver().unwrap();
    assert!(resolver.knows(FileId(1)) && resolver.knows(FileId(2)) && !resolver.knows(FileId(3)));
    assert_eq!(resolver.resolve(FileId(1), "../foo.rs"), Some(FileId(2)));
    assert_eq!(resolver.resolve(FileId(1), "../bar.rs"), None);
    // the resolver of the earlier snapshot does not see the later file
    let resolver = early.file_resolver().unwrap();
    assert!(resolver.knows(FileId(1)) && !resolver.knows(FileId(2)));
    assert_eq!(resolver.resolve(FileId(1), "../foo.rs"), None);
}

#[test]
fn opening_a_registered_path_needs_no_free_id() {
    let mut m = workspace();
    assert!(m.can_take(&open("/main.rs", "again")));
    assert!(m.can_take(&open("/./main.rs", "again")));
    assert!(m.can_take(&open("/new.rs", "new")));
    let invalid = Event::Msg(RawMessage::Notification(Notification::DidOpenTextDocument {
        uri: "x".to_string(),
        path: None,
        text: "".to_string(),
    }));
    assert!(m.can_take(&invalid));
}

#[test]
fn a_library_is_apart_from_the_workspace() {
    let mut m = workspace();
    take(
        &mut m,
        Event::Vfs(VfsTask {
            root: SourceRootId(1),
            local: false,
            files: vec![ScannedFile { path: "/lib.rs".to_string(), text: "pub fn g(){}".to_string() }],
        }),
    );
    let entry = |id: u32| FileEntry { file_id: FileId(id), path: "p".to_string(), text: "t".to_string() };
    assert!(m.is_apart(&LibraryData::prepare(SourceRootId(1), vec![entry(3), entry(9)])));
    assert!(!m.is_apart(&LibraryData::prepare(SourceRootId(1), vec![entry(3), entry(1)])));
    assert!(m.is_apart(&LibraryData::prepare(SourceRootId(1), vec![])));
}
