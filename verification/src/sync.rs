//! The world and the overlay tracker agree: what the tracker holds as the text
//! of a file of the workspace is what a snapshot of the world reads, after
//! every step of the main loop.

use crate::ids::{FileId, SourceRootId};
use crate::main_loop::{ActionView, Event, MainLoopView};
use crate::messages::{ClientMessageView, Notification, RawMessage};
use crate::path_map::{lemma_ids_monotonic, lemma_normalize_idempotent, normalize_spec, Root};
use crate::server_world::{as_added, collect, collect_step, Collected, ServerWorldView};
use crate::vfs::{
    lemma_closed_wf, lemma_changed_wf, lemma_opened_wf, lemma_pending_wf, lemma_scanned_wf,
    ScannedFile, VfsChangeView, VfsView,
};
use crate::world::{
    AddFileView, ChangeFileView, ChangeView, FileEntryView, LibraryView, WorldView,
};
use vstd::prelude::*;

verus! {

/// Whether the tracker holds a text for a file of the workspace.
pub open spec fn held(v: VfsView, id: u32) -> bool {
    &&& v.registry.roots.contains_key(id)
    &&& v.registry.roots[id] == Root::Workspace
    &&& v.text(FileId(id)) is Some
}

/// Whether the world shows every file of the workspace with the text that the
/// tracker holds for it: the overlay where there is one, else the text on disk.
pub open spec fn shows(w: WorldView, v: VfsView) -> bool {
    forall|id: u32| #[trigger] held(v, id) ==> w.read(FileId(id)) == v.text(FileId(id))
}

/// Whether a library holds no file that the tracker holds as a file of the
/// workspace.
pub open spec fn apart(v: VfsView, files: Seq<FileEntryView>) -> bool {
    forall|k: int|
        0 <= k < files.len() ==> !(v.registry.roots.contains_key((#[trigger] files[k]).file_id.0)
            && v.registry.roots[files[k].file_id.0] == Root::Workspace)
}

impl MainLoopView {
    /// Whether world and tracker agree: the tracker is sound, it has handed
    /// every recorded change to the world, and the world shows the files of
    /// the workspace as the tracker holds them.
    pub open spec fn in_step(self) -> bool {
        &&& self.world.vfs.wf()
        &&& self.world.vfs.pending.len() == 0
        &&& shows(self.world.world, self.world.vfs)
    }

    /// Whether the event, where it brings an indexed library, brings one
    /// that holds no file of the workspace.
    pub open spec fn keeps_apart(self, event: Event) -> bool {
        !self.shutdown ==> (event matches Event::Lib(data) ==> apart(self.world.vfs, data@.files))
    }
}

/// What one added file, one new text, one removal and one library do to the
/// world.
pub proof fn lemma_one_change(w: WorldView)
    ensures
        forall|a: AddFileView| #[trigger]
            w.with_added(seq![a]) == w.with_file(a.root, a.file_id, a.path, a.text),
        forall|c: ChangeFileView| #[trigger]
            w.with_changed(seq![c]) == w.with_text(c.file_id, c.text),
        forall|f: FileId| #[trigger] w.with_removed(seq![f]) == w.without_file(f),
        forall|l: LibraryView| #[trigger]
            w.with_libraries(seq![l]) == w.with_entries(l.root, l.files),
{
    assert forall|a: AddFileView| #[trigger]
        w.with_added(seq![a]) == w.with_file(a.root, a.file_id, a.path, a.text) by {
        assert(seq![a].drop_last() =~= Seq::<AddFileView>::empty());
        assert(w.with_added(seq![a].drop_last()) == w);
    }
    assert forall|c: ChangeFileView| #[trigger]
        w.with_changed(seq![c]) == w.with_text(c.file_id, c.text) by {
        assert(seq![c].drop_last() =~= Seq::<ChangeFileView>::empty());
        assert(w.with_changed(seq![c].drop_last()) == w);
    }
    assert forall|f: FileId| #[trigger] w.with_removed(seq![f]) == w.without_file(f) by {
        assert(seq![f].drop_last() =~= Seq::<FileId>::empty());
        assert(w.with_removed(seq![f].drop_last()) == w);
    }
    assert forall|l: LibraryView| #[trigger]
        w.with_libraries(seq![l]) == w.with_entries(l.root, l.files) by {
        assert(seq![l].drop_last() =~= Seq::<LibraryView>::empty());
        assert(w.with_libraries(seq![l].drop_last()) == w);
    }
}

/// What handing one recorded change to the world does to the texts that the
/// world holds.
pub proof fn lemma_processed_one(sw: ServerWorldView, c: VfsChangeView)
    requires
        sw.vfs.pending == seq![c],
    ensures
        sw.processed().vfs == (VfsView { pending: Seq::empty(), ..sw.vfs }),
        sw.processed().world.texts == match c {
            VfsChangeView::AddFile { root, file_id, path, text } => sw.world.texts.insert(
                file_id.0,
                text,
            ),
            VfsChangeView::ChangeFile { file_id, text } => sw.world.with_text(file_id, text).texts,
            VfsChangeView::RemoveFile { root, file_id } => sw.world.texts.remove(file_id.0),
            VfsChangeView::AddRoot { root, local, files } => if local {
                sw.world.with_added(files.map_values(|f: FileEntryView| as_added(root, f))).texts
            } else {
                sw.world.texts
            },
        },
{
    let w = sw.world;
    assert(seq![c].drop_last() =~= Seq::<VfsChangeView>::empty());
    let none = Collected { change: ChangeView::empty(), libs: Seq::empty(), local_roots: 0 };
    assert(collect(seq![c].drop_last()) == none);
    assert(collect(seq![c]) == collect_step(none, c));
    let change = sw.world_change();
    assert(change.added == collect(seq![c]).change.added);
    lemma_one_change(w);
    match c {
        VfsChangeView::AddFile { root, file_id, path, text } => {
            let a = AddFileView { root, file_id, path, text };
            assert(change.added =~= seq![a]);
            lemma_one_change(w.with_added(seq![a]));
        },
        VfsChangeView::ChangeFile { file_id, text } => {
            let ch = ChangeFileView { file_id, text };
            assert(change.changed =~= seq![ch]);
            assert(w.with_added(change.added) == w);
        },
        VfsChangeView::RemoveFile { root, file_id } => {
            assert(change.removed =~= seq![file_id]);
            assert(w.with_added(change.added) == w);
            assert(w.with_changed(change.changed) == w);
        },
        VfsChangeView::AddRoot { root, local, files } => {
            if local {
                let added = files.map_values(|f: FileEntryView| as_added(root, f));
                assert(change.added =~= added);
            } else {
                assert(w.with_added(change.added) == w);
            }
        },
    }
}

/// The files of a library touch no text but those of its own files.
pub proof fn lemma_entries_texts(w: WorldView, root: SourceRootId, files: Seq<FileEntryView>, id: u32)
    requires
        forall|k: int| 0 <= k < files.len() ==> (#[trigger] files[k]).file_id.0 != id,
    ensures
        w.with_entries(root, files).read(FileId(id)) == w.read(FileId(id)),
    decreases files.len(),
{
    if files.len() > 0 {
        let init = files.drop_last();
        assert forall|k: int| 0 <= k < init.len() implies (#[trigger] init[k]).file_id.0 != id by {
            assert(init[k] == files[k]);
        }
        lemma_entries_texts(w, root, init, id);
        assert(files[files.len() - 1].file_id.0 != id);
    }
}

/// Taking in the files of a scanned root keeps world and tracker in step: the
/// files of a workspace root that are reported are added to the world with
/// the text on disk, open files keep their overlay in both, and a scan of a
/// library touches no file of the workspace.
pub proof fn lemma_scan_in_step(
    w: WorldView,
    v: VfsView,
    root: SourceRootId,
    local: bool,
    files: Seq<ScannedFile>,
)
    requires
        v.wf(),
        shows(w, v),
        v.registry.next_id + files.len() < u32::MAX,
    ensures
        ({
            let kind = crate::vfs::root_kind(local);
            let (after, entries) = v.with_scan(kind, files);
            let world = if local {
                w.with_added(entries.map_values(|f: FileEntryView| as_added(root, f)))
            } else {
                w
            };
            &&& after.wf()
            &&& after.pending == v.pending
            &&& after.registry.next_id <= v.registry.next_id + files.len()
            &&& shows(world, after)
        }),
    decreases files.len(),
{
    let kind = crate::vfs::root_kind(local);
    if files.len() > 0 {
        let init = files.drop_last();
        lemma_scan_in_step(w, v, root, local, init);
        let (before, seen) = v.with_scan(kind, init);
        let path = files.last().path@;
        let text = files.last().text@;
        let (after, entry) = before.with_scanned(kind, path, text);
        let entries = v.with_scan(kind, files).1;
        let added_before = seen.map_values(|f: FileEntryView| as_added(root, f));
        let added = entries.map_values(|f: FileEntryView| as_added(root, f));
        let world_before = if local {
            w.with_added(added_before)
        } else {
            w
        };
        let world = if local {
            w.with_added(added)
        } else {
            w
        };
        lemma_scanned_wf(before, kind, path, text);
        let p = normalize_spec(path);
        if !before.registry.ids.contains_key(p) {
            lemma_normalize_idempotent(path);
            lemma_ids_monotonic(before.registry, p, kind);
        }
        match entry {
            Some(e) => {
                assert(added =~= added_before.push(as_added(root, e)));
                assert(added.drop_last() =~= added_before);
            },
            None => {
                assert(added =~= added_before);
            },
        }
        assert forall|id: u32| #[trigger] held(after, id) implies world.read(FileId(id))
            == after.text(FileId(id)) by {
            if before.foreign(kind, path) {
                assert(held(before, id));
            } else {
                let known = before.registry.ids.contains_key(p);
                let fid = if known {
                    before.registry.ids[p]
                } else {
                    before.registry.next_id as u32
                };
                if id == fid {
                    if before.overlay.contains_key(id) {
                        assert(before.registry.paths.contains_key(id));
                        assert(held(before, id));
                    }
                } else {
                    if before.registry.roots.contains_key(id) {
                        assert(held(before, id));
                    } else {
                        assert(before.registry.paths.contains_key(id) || !after.registry.roots.contains_key(id));
                    }
                }
            }
        }
    }
}

/// Every step of the main loop keeps world and tracker in step: afterwards
/// each file of the workspace for which the tracker holds a text, an overlay
/// or a text on disk, is read with that text from the world. A library that
/// is installed must hold no file of the workspace.
pub proof fn lemma_step_in_step(s: MainLoopView, event: Event)
    requires
        s.in_step(),
        s.admits(event),
        s.keeps_apart(event),
    ensures
        s.step(event).next.in_step(),
{
    let next = s.react(event).next;
    assert(s.step(event).next == next);
    let w = s.world.world;
    let v = s.world.vfs;
    if !s.shutdown {
        match event {
            Event::Vfs(task) => {
                let kind = crate::vfs::root_kind(task.local);
                lemma_scan_in_step(w, v, task.root, task.local, task.files@);
                let (after, entries) = v.with_scan(kind, task.files@);
                let c = VfsChangeView::AddRoot { root: task.root, local: task.local, files: entries };
                let handled = v.handled(task);
                assert(handled.pending =~= seq![c]);
                lemma_pending_wf(after, handled.pending);
                let sw = ServerWorldView { vfs: handled, ..s.world };
                lemma_processed_one(sw, c);
                lemma_pending_wf(handled, Seq::empty());
                let world = next.world.world;
                assert forall|id: u32| #[trigger] held(next.world.vfs, id) implies world.read(
                    FileId(id),
                ) == next.world.vfs.text(FileId(id)) by {
                    assert(held(after, id));
                }
            },
            Event::Lib(data) => {
                lemma_one_change(w);
                let lib = data@;
                let installed = w.with_entries(lib.root, lib.files);
                assert(w.with_added(Seq::empty()) == w);
                assert(w.with_changed(Seq::empty()) == w);
                assert(w.with_removed(Seq::empty()) == w);
                assert(next.world.world.texts == installed.texts);
                assert forall|id: u32| #[trigger] held(next.world.vfs, id) implies next.world.world.read(
                    FileId(id),
                ) == next.world.vfs.text(FileId(id)) by {
                    assert(held(v, id));
                    assert forall|k: int| 0 <= k < lib.files.len() implies (
                    #[trigger] lib.files[k]).file_id.0 != id by {}
                    lemma_entries_texts(w, lib.root, lib.files, id);
                }
            },
            Event::Msg(RawMessage::Notification(not)) => {
                match not {
                    Notification::DidOpenTextDocument { uri, path, text } => {
                        match path {
                            Some(p) => {
                                let (opened, file) = v.opened(p@, text@);
                                lemma_opened_wf(v, p@, text@);
                                if file is Some {
                                    let c = opened.pending.last();
                                    assert(opened.pending =~= seq![c]);
                                    let sw = ServerWorldView { vfs: opened, ..s.world };
                                    lemma_processed_one(sw, c);
                                    lemma_pending_wf(opened, Seq::empty());
                                    let opened_file = file->0;
                                    let id0 = opened_file.0;
                                    let np = normalize_spec(p@);
                                    if !v.registry.ids.contains_key(np) {
                                        lemma_normalize_idempotent(p@);
                                        lemma_ids_monotonic(v.registry, np, Root::Workspace);
                                    } else {
                                        assert(v.registry.paths.contains_key(id0));
                                        if v.text(FileId(id0)) is Some {
                                            assert(held(v, id0));
                                        }
                                    }
                                    assert forall|id: u32| #[trigger]
                                        held(next.world.vfs, id) implies next.world.world.read(
                                        FileId(id),
                                    ) == next.world.vfs.text(FileId(id)) by {
                                        if id != id0 {
                                            if v.registry.roots.contains_key(id) {
                                                assert(held(v, id));
                                            }
                                        }
                                    }
                                }
                            },
                            None => {},
                        }
                    },
                    Notification::DidChangeTextDocument { uri, path, content_changes } => {
                        match path {
                            Some(p) => {
                                if content_changes@.len() > 0 {
                                    let text = content_changes@.last()@;
                                    let changed = v.changed(p@, text);
                                    lemma_changed_wf(v, p@, text);
                                    match v.open_file(p@) {
                                        Some(file) => {
                                            let c = changed.pending.last();
                                            assert(changed.pending =~= seq![c]);
                                            let sw = ServerWorldView { vfs: changed, ..s.world };
                                            lemma_processed_one(sw, c);
                                            lemma_pending_wf(changed, Seq::empty());
                                            assert(held(v, file.0));
                                            assert forall|id: u32| #[trigger]
                                                held(
                                                    next.world.vfs,
                                                    id,
                                                ) implies next.world.world.read(FileId(id))
                                                == next.world.vfs.text(FileId(id)) by {
                                                if id != file.0 {
                                                    assert(held(v, id));
                                                }
                                            }
                                        },
                                        None => {},
                                    }
                                }
                            },
                            None => {},
                        }
                    },
                    Notification::DidCloseTextDocument { uri, path } => {
                        match path {
                            Some(p) => {
                                let closed = v.closed(p@);
                                lemma_closed_wf(v, p@);
                                match v.open_file(p@) {
                                    Some(file) => {
                                        let c = closed.pending.last();
                                        assert(closed.pending =~= seq![c]);
                                        let sw = ServerWorldView { vfs: closed, ..s.world };
                                        lemma_processed_one(sw, c);
                                        lemma_pending_wf(closed, Seq::empty());
                                        assert(held(v, file.0));
                                        assert forall|id: u32| #[trigger]
                                            held(
                                                next.world.vfs,
                                                id,
                                            ) implies next.world.world.read(FileId(id))
                                            == next.world.vfs.text(FileId(id)) by {
                                            if id != file.0 {
                                                assert(held(v, id));
                                            }
                                        }
                                    },
                                    None => {},
                                }
                            },
                            None => {},
                        }
                    },
                    _ => {},
                }
            },
            _ => {},
        }
    }
}

/// At the start world and tracker are in step.
pub proof fn lemma_start_in_step(internal_mode: bool, publish_decorations: bool, roots_to_scan: nat)
    ensures
        MainLoopView::start(internal_mode, publish_decorations, roots_to_scan).in_step(),
{
}

/// The notification that the client opened `path` with `text`.
pub open spec fn opens(event: Event, path: Seq<char>, text: Seq<char>) -> bool {
    event matches Event::Msg(
        RawMessage::Notification(Notification::DidOpenTextDocument { uri, path: Some(p), text: t }),
    ) && p@ == path && t@ == text
}

/// The notification that the client closed `path`.
pub open spec fn closes(event: Event, path: Seq<char>) -> bool {
    event matches Event::Msg(
        RawMessage::Notification(Notification::DidCloseTextDocument { uri, path: Some(p) }),
    ) && p@ == path
}

/// Opening a file and closing it again brings back what was there before: the
/// tracker holds the overlays and the texts on disk that it held, the file is
/// not subscribed, and a snapshot of the world reads the file as the tracker
/// holds it, with its text on disk.
pub proof fn lemma_open_then_close(
    s: MainLoopView,
    open: Event,
    close: Event,
    path: Seq<char>,
    text: Seq<char>,
)
    requires
        s.in_step(),
        !s.shutdown,
        opens(open, path, text),
        closes(close, path),
        s.admits(open),
        s.step(open).next.admits(close),
        s.world.vfs.open_file(path) is None,
        s.world.vfs.opened(path, text).1 is Some,
    ensures
        ({
            let file = s.world.vfs.opened(path, text).1->0;
            let then = s.step(open).next;
            let back = then.step(close).next;
            &&& then.world.vfs.text(file) == Some(text)
            &&& then.world.world.read(file) == Some(text)
            &&& then.subs.contains(file.0)
            &&& back.world.vfs.overlay == s.world.vfs.overlay
            &&& back.world.vfs.disk == s.world.vfs.disk
            &&& back.world.vfs.text(file) == s.world.vfs.text(file)
            &&& !back.subs.contains(file.0)
            &&& back.in_step()
            &&& back.world.vfs.text(file) is Some ==> back.world.world.read(file)
                == s.world.vfs.text(file)
        }),
{
    let v = s.world.vfs;
    let file = v.opened(path, text).1->0;
    let then = s.step(open).next;
    let back = then.step(close).next;
    lemma_step_in_step(s, open);
    lemma_step_in_step(then, close);
    lemma_opened_wf(v, path, text);
    let np = normalize_spec(path);
    if !v.registry.ids.contains_key(np) {
        lemma_normalize_idempotent(path);
        lemma_ids_monotonic(v.registry, np, Root::Workspace);
        if v.overlay.contains_key(file.0) {
            assert(v.registry.paths.contains_key(file.0));
        }
        if v.disk.contains_key(file.0) {
            assert(v.registry.paths.contains_key(file.0));
        }
    }
    let opened = v.opened(path, text).0;
    assert(opened.open_file(path) == Some(file));
    assert(then.world.vfs.overlay == opened.overlay);
    assert(then.world.vfs.registry == opened.registry);
    assert(then.world.vfs.disk == opened.disk);
    assert(then.world.vfs.open_file(path) == Some(file));
    assert(back.world.vfs.overlay =~= v.overlay);
    assert(held(then.world.vfs, file.0));
    if back.world.vfs.text(file) is Some {
        assert(held(back.world.vfs, file.0));
    }
}

/// Opening a file that is open replaces its overlay: the file keeps its id and
/// stays subscribed, no other overlay is touched, and a snapshot of the world
/// reads the new text.
pub proof fn lemma_open_again(s: MainLoopView, open: Event, path: Seq<char>, text: Seq<char>)
    requires
        s.in_step(),
        !s.shutdown,
        opens(open, path, text),
        s.admits(open),
        s.world.vfs.open_file(path) is Some,
    ensures
        ({
            let file = s.world.vfs.open_file(path)->0;
            let next = s.step(open).next;
            &&& next.world.vfs.open_file(path) == Some(file)
            &&& next.world.vfs.overlay == s.world.vfs.overlay.insert(file.0, text)
            &&& next.world.vfs.registry == s.world.vfs.registry
            &&& next.subs == s.subs.insert(file.0)
            &&& next.world.vfs.text(file) == Some(text)
            &&& next.world.world.read(file) == Some(text)
        }),
{
    let v = s.world.vfs;
    let file = v.open_file(path)->0;
    let next = s.step(open).next;
    lemma_step_in_step(s, open);
    assert(v.opened(path, text).1 == Some(file));
    assert(next.world.vfs.overlay == v.overlay.insert(file.0, text));
    assert(held(next.world.vfs, file.0));
}

/// When the last outstanding root is a library and its index comes in, the
/// loop tells the client once that the library is loaded and then that the
/// workspace is loaded, and asks for the diagnostics on a snapshot that holds
/// the library.
pub proof fn lemma_library_loaded(s: MainLoopView, event: Event)
    requires
        !s.shutdown,
        s.internal_mode,
        s.world.roots_to_scan == 1,
        s.world.vfs.pending.len() == 0,
        event is Lib,
    ensures
        ({
            let step = s.step(event);
            let installed = s.world.with_lib(event->Lib_0@);
            &&& step.next.world == installed
            &&& step.next.world.roots_to_scan == 0
            &&& step.actions == seq![
                ActionView::CancelSnapshots { before: installed.world.version },
                ActionView::Send(
                    ClientMessageView::InternalFeedback { message: "library loaded"@ },
                ),
                ActionView::Send(
                    ClientMessageView::InternalFeedback { message: "workspace loaded"@ },
                ),
                ActionView::UpdateNotifications {
                    snapshot: installed.world,
                    publish_decorations: s.publish_decorations,
                    subscriptions: s.subs,
                },
            ]
        }),
{
    let data = event->Lib_0;
    let installed = s.world.with_lib(data@);
    crate::world::lemma_apply_version(
        s.world.world,
        ChangeView { libraries: seq![data@], ..ChangeView::empty() },
    );
    let reaction = s.react(event);
    let none = Seq::<LibraryView>::empty().map_values(|l: LibraryView| ActionView::IndexLibrary(l));
    assert(none =~= Seq::<ActionView>::empty());
    assert(reaction.actions =~= seq![
        ActionView::Send(ClientMessageView::InternalFeedback { message: "library loaded"@ }),
        ActionView::Send(ClientMessageView::InternalFeedback { message: "workspace loaded"@ }),
        ActionView::UpdateNotifications {
            snapshot: installed.world,
            publish_decorations: s.publish_decorations,
            subscriptions: s.subs,
        },
    ]);
    assert(s.step(event).actions =~= seq![
        ActionView::CancelSnapshots { before: installed.world.version },
    ] + reaction.actions);
}

} // verus!
