//! The overlay tracker: the registry of files, the text that each has on disk,
//! and the unsaved text that shadows it while the client has the file open.
//! Every operation that changes what a reader sees records a change for the
//! world to take in.

use crate::ids::{FileId, SourceRootId, WORKSPACE};
use crate::path_map::{normalize, normalize_spec, PathMap, PathMapView, Root};
use crate::persistent::{text_entries, texts_get, texts_insert, texts_new, texts_remove};
use crate::world::{FileEntry, FileEntryView};
use vstd::prelude::*;

verus! {

/// A change of the file tree that the world has not taken in yet.
pub enum VfsChange {
    /// A root was scanned: its files, but for those that are open.
    AddRoot { root: SourceRootId, local: bool, files: Vec<FileEntry> },
    /// A file appeared.
    AddFile { root: SourceRootId, file_id: FileId, path: String, text: String },
    /// A file went away.
    RemoveFile { root: SourceRootId, file_id: FileId },
    /// The text that readers see for a file changed.
    ChangeFile { file_id: FileId, text: String },
}

/// A change, with its strings as sequences.
pub enum VfsChangeView {
    AddRoot { root: SourceRootId, local: bool, files: Seq<FileEntryView> },
    AddFile { root: SourceRootId, file_id: FileId, path: Seq<char>, text: Seq<char> },
    RemoveFile { root: SourceRootId, file_id: FileId },
    ChangeFile { file_id: FileId, text: Seq<char> },
}

impl View for VfsChange {
    type V = VfsChangeView;

    open spec fn view(&self) -> VfsChangeView {
        match *self {
            VfsChange::AddRoot { root, local, files } => VfsChangeView::AddRoot {
                root,
                local,
                files: files@.map_values(|f: FileEntry| f@),
            },
            VfsChange::AddFile { root, file_id, path, text } => VfsChangeView::AddFile {
                root,
                file_id,
                path: path@,
                text: text@,
            },
            VfsChange::RemoveFile { root, file_id } => VfsChangeView::RemoveFile { root, file_id },
            VfsChange::ChangeFile { file_id, text } => VfsChangeView::ChangeFile {
                file_id,
                text: text@,
            },
        }
    }
}

/// The changes of a list, each with its strings as sequences.
pub open spec fn change_views(changes: Seq<VfsChange>) -> Seq<VfsChangeView> {
    changes.map_values(|c: VfsChange| c@)
}

/// A file found when a root was scanned.
pub struct ScannedFile {
    pub path: String,
    pub text: String,
}

/// The result of scanning one root on disk.
pub struct VfsTask {
    pub root: SourceRootId,
    pub local: bool,
    pub files: Vec<ScannedFile>,
}

/// The kind of root that a scanned root is registered as.
pub open spec fn root_kind(local: bool) -> Root {
    if local {
        Root::Workspace
    } else {
        Root::Lib
    }
}

/// What the tracker holds.
pub struct VfsView {
    /// The file registry.
    pub registry: PathMapView,
    /// The text on disk of each file that has one.
    pub disk: Map<u32, Seq<char>>,
    /// The unsaved text of each open file.
    pub overlay: Map<u32, Seq<char>>,
    /// The changes that the world has not taken in yet, oldest first.
    pub pending: Seq<VfsChangeView>,
}

impl VfsView {
    /// The tracker without files.
    pub open spec fn empty() -> VfsView {
        VfsView {
            registry: PathMapView::empty(),
            disk: Map::empty(),
            overlay: Map::empty(),
            pending: Seq::empty(),
        }
    }

    /// The registry is sound, texts belong to registered files only, and an
    /// overlay exists only for a file of the writable root.
    pub open spec fn wf(self) -> bool {
        &&& self.registry.wf()
        &&& forall|id: u32|
            (#[trigger] self.disk.contains_key(id)) ==> self.registry.paths.contains_key(id)
        &&& forall|id: u32|
            (#[trigger] self.overlay.contains_key(id)) ==> self.registry.paths.contains_key(id)
                && self.registry.roots[id] == Root::Workspace
    }

    /// The text that a reader sees for a file: the overlay if there is one,
    /// else the text on disk.
    pub open spec fn text(self, file_id: FileId) -> Option<Seq<char>> {
        if self.overlay.contains_key(file_id.0) {
            Some(self.overlay[file_id.0])
        } else if self.disk.contains_key(file_id.0) {
            Some(self.disk[file_id.0])
        } else {
            None
        }
    }

    /// The tracker after the client opened `path` with `text`, and the id of
    /// the file if an overlay was set. Readers of the world are told of a new
    /// text where they see the file already, and of a new file where they do
    /// not: where the path is new, or where its file has neither an overlay
    /// nor a text on disk, as after it was closed unsaved.
    pub open spec fn opened(self, path: Seq<char>, text: Seq<char>) -> (VfsView, Option<FileId>) {
        let p = normalize_spec(path);
        if self.registry.ids.contains_key(p) {
            let id = self.registry.ids[p];
            if self.registry.roots[id] == Root::Workspace {
                (
                    VfsView {
                        overlay: self.overlay.insert(id, text),
                        pending: self.pending.push(
                            if self.text(FileId(id)) is Some {
                                VfsChangeView::ChangeFile { file_id: FileId(id), text }
                            } else {
                                VfsChangeView::AddFile {
                                    root: SourceRootId(WORKSPACE),
                                    file_id: FileId(id),
                                    path: p,
                                    text,
                                }
                            },
                        ),
                        ..self
                    },
                    Some(FileId(id)),
                )
            } else {
                (self, None)
            }
        } else {
            let id = self.registry.next_id as u32;
            (
                VfsView {
                    registry: self.registry.with(p, Root::Workspace),
                    overlay: self.overlay.insert(id, text),
                    pending: self.pending.push(
                        VfsChangeView::AddFile {
                            root: SourceRootId(WORKSPACE),
                            file_id: FileId(id),
                            path: p,
                            text,
                        },
                    ),
                    ..self
                },
                Some(FileId(id)),
            )
        }
    }

    /// The open file that `path` names, if it names one.
    pub open spec fn open_file(self, path: Seq<char>) -> Option<FileId> {
        let p = normalize_spec(path);
        if self.registry.ids.contains_key(p) && self.overlay.contains_key(self.registry.ids[p]) {
            Some(FileId(self.registry.ids[p]))
        } else {
            None
        }
    }

    /// The tracker after the client changed the text of `path`: the overlay
    /// of an open file is replaced, anything else is left alone.
    pub open spec fn changed(self, path: Seq<char>, text: Seq<char>) -> VfsView {
        match self.open_file(path) {
            Some(file_id) => VfsView {
                overlay: self.overlay.insert(file_id.0, text),
                pending: self.pending.push(VfsChangeView::ChangeFile { file_id, text }),
                ..self
            },
            None => self,
        }
    }

    /// The tracker after the client closed `path`: the overlay of an open file
    /// is removed, and readers see the text on disk again, or no file where
    /// the disk has none.
    pub open spec fn closed(self, path: Seq<char>) -> VfsView {
        match self.open_file(path) {
            Some(file_id) => VfsView {
                overlay: self.overlay.remove(file_id.0),
                pending: self.pending.push(
                    if self.disk.contains_key(file_id.0) {
                        VfsChangeView::ChangeFile { file_id, text: self.disk[file_id.0] }
                    } else {
                        VfsChangeView::RemoveFile { root: SourceRootId(WORKSPACE), file_id }
                    },
                ),
                ..self
            },
            None => self,
        }
    }

    /// Whether a scanned file belongs to a root of the other kind: its path is
    /// registered already, under a root that is not of the kind scanned.
    pub open spec fn foreign(self, kind: Root, path: Seq<char>) -> bool {
        let p = normalize_spec(path);
        self.registry.ids.contains_key(p) && self.registry.roots[self.registry.ids[p]] != kind
    }

    /// The tracker after one scanned file was taken in, and the entry that
    /// the world is told of, if any: an open file keeps its overlay and is
    /// not reported, and a file that belongs to a root of the other kind is
    /// left alone.
    pub open spec fn with_scanned(self, kind: Root, path: Seq<char>, text: Seq<char>) -> (
        VfsView,
        Option<FileEntryView>,
    ) {
        let p = normalize_spec(path);
        let known = self.registry.ids.contains_key(p);
        let id = if known {
            self.registry.ids[p]
        } else {
            self.registry.next_id as u32
        };
        let registry = if known {
            self.registry
        } else {
            self.registry.with(p, kind)
        };
        if self.foreign(kind, path) {
            (self, None)
        } else {
            (
                VfsView { registry, disk: self.disk.insert(id, text), ..self },
                if self.overlay.contains_key(id) {
                    None
                } else {
                    Some(FileEntryView { file_id: FileId(id), path: p, text })
                },
            )
        }
    }

    /// The tracker after the files of a scanned root were taken in, in order,
    /// and the entries that the world is told of.
    pub open spec fn with_scan(self, kind: Root, files: Seq<ScannedFile>) -> (
        VfsView,
        Seq<FileEntryView>,
    )
        decreases files.len(),
    {
        if files.len() == 0 {
            (self, Seq::<FileEntryView>::empty())
        } else {
            let (before, entries) = self.with_scan(kind, files.drop_last());
            let (after, entry) = before.with_scanned(kind, files.last().path@, files.last().text@);
            (
                after,
                match entry {
                    Some(e) => entries.push(e),
                    None => entries,
                },
            )
        }
    }

    /// The tracker after a scanned root was handled.
    pub open spec fn handled(self, task: VfsTask) -> VfsView {
        let (after, entries) = self.with_scan(root_kind(task.local), task.files@);
        VfsView {
            pending: after.pending.push(
                VfsChangeView::AddRoot { root: task.root, local: task.local, files: entries },
            ),
            ..after
        }
    }
}

/// The overlay tracker.
pub struct Vfs {
    path_map: PathMap,
    disk: im::HashMap<u32, String>,
    overlay: im::HashMap<u32, String>,
    pending: Vec<VfsChange>,
}

impl View for Vfs {
    type V = VfsView;

    closed spec fn view(&self) -> VfsView {
        VfsView {
            registry: self.path_map@,
            disk: text_entries(self.disk),
            overlay: text_entries(self.overlay),
            pending: change_views(self.pending@),
        }
    }
}

impl Vfs {
    /// The invariant of the tracker.
    pub open spec fn wf(&self) -> bool {
        self@.wf()
    }

    /// A tracker without files.
    pub fn new() -> (vfs: Vfs)
        ensures
            vfs.wf(),
            vfs@ == VfsView::empty(),
    {
        let vfs = Vfs {
            path_map: PathMap::default(),
            disk: texts_new(),
            overlay: texts_new(),
            pending: Vec::new(),
        };
        assert(change_views(vfs.pending@) =~= Seq::<VfsChangeView>::empty());
        vfs
    }

    /// How many more files the registry can take.
    pub fn room(&self) -> (n: u32)
        requires
            self.wf(),
        ensures
            n == u32::MAX - self@.registry.next_id,
    {
        u32::MAX - 1 - self.path_map.len()
    }

    /// A copy of the file registry as it is now.
    pub fn registry(&self) -> (copy: PathMap)
        ensures
            copy@ == self@.registry,
    {
        self.path_map.clone()
    }

    /// The kind of root that a file belongs to, if the file is registered.
    pub fn root_of(&self, file_id: FileId) -> (res: Option<Root>)
        requires
            self.wf(),
        ensures
            res.is_some() == self@.registry.roots.contains_key(file_id.0),
            res matches Some(root) ==> root == self@.registry.roots[file_id.0],
    {
        if self.path_map.contains_id(file_id) {
            Some(self.path_map.get_root(file_id))
        } else {
            None
        }
    }

    /// The id of a path, if it is registered.
    pub fn file_id(&self, path: &str) -> (res: Option<FileId>)
        ensures
            res == self@.registry.id_of(path@),
    {
        self.path_map.get_id(path)
    }

    /// The text that a reader sees for a file.
    pub fn file_text(&self, file_id: FileId) -> (text: Option<&String>)
        ensures
            text.is_some() == self@.text(file_id).is_some(),
            text matches Some(t) ==> Some(t@) == self@.text(file_id),
    {
        match texts_get(&self.overlay, file_id.0) {
            Some(t) => Some(t),
            None => texts_get(&self.disk, file_id.0),
        }
    }

    /// The client opened a file: the file is registered if it was not, and
    /// `text` shadows whatever the disk holds. A file of a library gets no
    /// overlay.
    #[verifier::rlimit(60)]
    pub fn add_file_overlay(&mut self, path: &str, text: String) -> (res: Option<FileId>)
        requires
            old(self).wf(),
            old(self)@.registry.has_room_for(path@),
        ensures
            final(self).wf(),
            final(self)@ == old(self)@.opened(path@, text@).0,
            res == old(self)@.opened(path@, text@).1,
    {
        let (fresh, file_id) = self.path_map.get_or_insert(path, Root::Workspace);
        let root = self.path_map.get_root(file_id);
        if !fresh && root != Root::Workspace {
            return None;
        }
        let seen = self.file_text(file_id).is_some();
        proof {
            if fresh {
                if old(self)@.text(file_id) is Some {
                    assert(old(self)@.registry.paths.contains_key(file_id.0));
                }
            }
        }
        texts_insert(&mut self.overlay, file_id.0, text.clone());
        let ghost before = change_views(self.pending@);
        if !seen {
            let registered = self.path_map.get_path(file_id).to_owned();
            self.pending.push(
                VfsChange::AddFile {
                    root: SourceRootId(WORKSPACE),
                    file_id,
                    path: registered,
                    text,
                },
            );
        } else {
            self.pending.push(VfsChange::ChangeFile { file_id, text });
        }
        proof {
            assert(change_views(self.pending@) =~= before.push(self.pending@.last()@));
            lemma_opened_wf(old(self)@, path@, text@);
        }
        Some(file_id)
    }

    /// The client changed the text of an open file.
    pub fn change_file_overlay(&mut self, path: &str, text: String)
        requires
            old(self).wf(),
        ensures
            final(self).wf(),
            final(self)@ == old(self)@.changed(path@, text@),
    {
        let file_id = match self.path_map.get_id(path) {
            Some(file_id) => file_id,
            None => {
                return ;
            },
        };
        if texts_get(&self.overlay, file_id.0).is_none() {
            return ;
        }
        texts_insert(&mut self.overlay, file_id.0, text.clone());
        let ghost before = change_views(self.pending@);
        self.pending.push(VfsChange::ChangeFile { file_id, text });
        proof {
            assert(change_views(self.pending@) =~= before.push(self.pending@.last()@));
            lemma_changed_wf(old(self)@, path@, text@);
        }
    }

    /// The client closed a file. Returns the file if it was open.
    pub fn remove_file_overlay(&mut self, path: &str) -> (res: Option<FileId>)
        requires
            old(self).wf(),
        ensures
            final(self).wf(),
            final(self)@ == old(self)@.closed(path@),
            res == old(self)@.open_file(path@),
    {
        let file_id = match self.path_map.get_id(path) {
            Some(file_id) => file_id,
            None => {
                return None;
            },
        };
        if texts_remove(&mut self.overlay, file_id.0).is_none() {
            assert(text_entries(self.overlay) =~= text_entries(old(self).overlay));
            return None;
        }
        let ghost before = change_views(self.pending@);
        match texts_get(&self.disk, file_id.0) {
            Some(text) => {
                self.pending.push(VfsChange::ChangeFile { file_id, text: text.clone() });
            },
            None => {
                self.pending.push(
                    VfsChange::RemoveFile { root: SourceRootId(WORKSPACE), file_id },
                );
            },
        }
        proof {
            assert(change_views(self.pending@) =~= before.push(self.pending@.last()@));
            lemma_closed_wf(old(self)@, path@);
        }
        Some(file_id)
    }

    /// Takes in the files of a scanned root.
    #[verifier::rlimit(60)]
    pub fn handle_task(&mut self, task: VfsTask)
        requires
            old(self).wf(),
            old(self)@.registry.next_id + task.files@.len() < u32::MAX,
        ensures
            final(self).wf(),
            final(self)@ == old(self)@.handled(task),
    {
        let ghost start = self@;
        let kind = if task.local {
            Root::Workspace
        } else {
            Root::Lib
        };
        let mut entries: Vec<FileEntry> = Vec::new();
        let mut i: usize = 0;
        assert(task.files@.take(0) =~= Seq::<ScannedFile>::empty());
        assert(entries@.map_values(|f: FileEntry| f@) =~= Seq::<FileEntryView>::empty());
        while i < task.files.len()
            invariant
                i <= task.files.len(),
                kind == root_kind(task.local),
                self.wf(),
                self@.registry.next_id <= start.registry.next_id + i,
                start.registry.next_id + task.files@.len() < u32::MAX,
                self@ == start.with_scan(kind, task.files@.take(i as int)).0,
                entries@.map_values(|f: FileEntry| f@) == start.with_scan(
                    kind,
                    task.files@.take(i as int),
                ).1,
            decreases task.files.len() - i,
        {
            let file = &task.files[i];
            proof {
                assert(task.files@.take(i + 1).drop_last() =~= task.files@.take(i as int));
            }
            let ghost seen = entries@.map_values(|f: FileEntry| f@);
            proof {
                lemma_scanned_wf(self@, kind, file.path@, file.text@);
            }
            let (fresh, file_id) = self.path_map.get_or_insert(file.path.as_str(), kind);
            if !fresh && self.path_map.get_root(file_id) != kind {
                i = i + 1;
                continue ;
            }
            texts_insert(&mut self.disk, file_id.0, file.text.clone());
            if texts_get(&self.overlay, file_id.0).is_none() {
                let registered = self.path_map.get_path(file_id).to_owned();
                entries.push(FileEntry { file_id, path: registered, text: file.text.clone() });
                proof {
                    assert(entries@.map_values(|f: FileEntry| f@) =~= seen.push(
                        entries@.last()@,
                    ));
                }
            }
            i = i + 1;
        }
        proof {
            assert(task.files@.take(task.files.len() as int) =~= task.files@);
        }
        let ghost done = self@;
        self.pending.push(VfsChange::AddRoot { root: task.root, local: task.local, files: entries });
        proof {
            assert(change_views(self.pending@) =~= done.pending.push(self.pending@.last()@));
            assert(self@ == (VfsView { pending: self@.pending, ..done }));
            lemma_pending_wf(done, self@.pending);
        }
    }

    /// Hands out the changes recorded since the last call, oldest first.
    pub fn commit_changes(&mut self) -> (changes: Vec<VfsChange>)
        requires
            old(self).wf(),
        ensures
            final(self).wf(),
            change_views(changes@) == old(self)@.pending,
            final(self)@ == (VfsView { pending: Seq::<VfsChangeView>::empty(), ..old(self)@ }),
    {
        let mut changes: Vec<VfsChange> = Vec::new();
        std::mem::swap(&mut self.pending, &mut changes);
        proof {
            assert(change_views(self.pending@) =~= Seq::<VfsChangeView>::empty());
            lemma_pending_wf(old(self)@, Seq::<VfsChangeView>::empty());
        }
        changes
    }
}

/// The invariant of the tracker does not depend on the changes recorded.
pub proof fn lemma_pending_wf(v: VfsView, pending: Seq<VfsChangeView>)
    requires
        v.wf(),
    ensures
        (VfsView { pending, ..v }).wf(),
{
    let after = VfsView { pending, ..v };
    assert forall|id: u32| #[trigger] after.disk.contains_key(id) implies after.registry.paths.contains_key(
        id,
    ) by {
        assert(v.disk.contains_key(id));
    }
    assert forall|id: u32| #[trigger]
        after.overlay.contains_key(id) implies after.registry.paths.contains_key(id)
        && after.registry.roots[id] == Root::Workspace by {
        assert(v.overlay.contains_key(id));
    }
}

/// Opening a file keeps the invariant of the tracker.
pub proof fn lemma_opened_wf(v: VfsView, path: Seq<char>, text: Seq<char>)
    requires
        v.wf(),
        v.registry.has_room_for(path),
    ensures
        v.opened(path, text).0.wf(),
{
    let p = normalize_spec(path);
    let after = v.opened(path, text).0;
    if !v.registry.ids.contains_key(p) {
        crate::path_map::lemma_normalize_idempotent(path);
        crate::path_map::lemma_ids_monotonic(v.registry, p, Root::Workspace);
        assert forall|id: u32| #[trigger] after.disk.contains_key(id) implies after.registry.paths.contains_key(
            id,
        ) by {
            assert(v.disk.contains_key(id));
        }
        assert forall|id: u32| #[trigger]
            after.overlay.contains_key(id) implies after.registry.paths.contains_key(id)
            && after.registry.roots[id] == Root::Workspace by {
            if id != v.registry.next_id as u32 {
                assert(v.overlay.contains_key(id));
            }
        }
    } else {
        assert forall|id: u32| #[trigger]
            after.overlay.contains_key(id) implies after.registry.paths.contains_key(id)
            && after.registry.roots[id] == Root::Workspace by {
            if id != v.registry.ids[p] {
                assert(v.overlay.contains_key(id));
            }
        }
    }
}

/// Changing the text of a file keeps the invariant of the tracker.
pub proof fn lemma_changed_wf(v: VfsView, path: Seq<char>, text: Seq<char>)
    requires
        v.wf(),
    ensures
        v.changed(path, text).wf(),
{
    let after = v.changed(path, text);
    assert forall|id: u32| #[trigger]
        after.overlay.contains_key(id) implies after.registry.paths.contains_key(id)
        && after.registry.roots[id] == Root::Workspace by {
        assert(v.overlay.contains_key(id));
    }
}

/// Closing a file keeps the invariant of the tracker.
pub proof fn lemma_closed_wf(v: VfsView, path: Seq<char>)
    requires
        v.wf(),
    ensures
        v.closed(path).wf(),
{
    let after = v.closed(path);
    assert forall|id: u32| #[trigger]
        after.overlay.contains_key(id) implies after.registry.paths.contains_key(id)
        && after.registry.roots[id] == Root::Workspace by {
        assert(v.overlay.contains_key(id));
    }
}

/// Taking in a scanned file keeps the invariant of the tracker.
pub proof fn lemma_scanned_wf(v: VfsView, kind: Root, path: Seq<char>, text: Seq<char>)
    requires
        v.wf(),
        v.registry.next_id < u32::MAX,
    ensures
        v.with_scanned(kind, path, text).0.wf(),
{
    let p = normalize_spec(path);
    let after = v.with_scanned(kind, path, text).0;
    if !v.registry.ids.contains_key(p) {
        crate::path_map::lemma_normalize_idempotent(path);
        crate::path_map::lemma_ids_monotonic(v.registry, p, kind);
    }
    assert forall|id: u32| #[trigger] after.disk.contains_key(id) implies after.registry.paths.contains_key(
        id,
    ) by {
        if v.disk.contains_key(id) {
            assert(v.registry.paths.contains_key(id));
        }
    }
    assert forall|id: u32| #[trigger]
        after.overlay.contains_key(id) implies after.registry.paths.contains_key(id)
        && after.registry.roots[id] == Root::Workspace by {
        assert(v.overlay.contains_key(id));
        assert(v.registry.paths.contains_key(id));
    }
}

/// Closing a file that was opened brings back what readers saw before it was
/// opened: the text on disk, or no file where the disk has none.
pub proof fn lemma_overlay_round_trip(v: VfsView, path: Seq<char>, text: Seq<char>)
    requires
        v.wf(),
        v.registry.has_room_for(path),
        v.opened(path, text).1 is Some,
        v.open_file(path) is None,
    ensures
        ({
            let file_id = v.opened(path, text).1->0;
            let back = v.opened(path, text).0.closed(path);
            &&& back.text(file_id) == v.text(file_id)
            &&& back.overlay == v.overlay
            &&& back.disk == v.disk
        }),
{
    let file_id = v.opened(path, text).1->0;
    let mid = v.opened(path, text).0;
    let back = mid.closed(path);
    assert(mid.open_file(path) == Some(file_id));
    assert(!v.overlay.contains_key(file_id.0)) by {
        if v.registry.ids.contains_key(normalize_spec(path)) {
        } else {
            if v.overlay.contains_key(file_id.0) {
                assert(v.registry.paths.contains_key(file_id.0));
            }
        }
    }
    assert(back.overlay =~= v.overlay);
}

/// Opening a file that is open already replaces its overlay and touches no
/// other file.
pub proof fn lemma_reopen_replaces(v: VfsView, path: Seq<char>, text: Seq<char>)
    requires
        v.wf(),
        v.open_file(path) is Some,
    ensures
        ({
            let file_id = v.open_file(path)->0;
            let after = v.opened(path, text).0;
            &&& v.opened(path, text).1 == Some(file_id)
            &&& after.text(file_id) == Some(text)
            &&& after.overlay == v.overlay.insert(file_id.0, text)
            &&& after.registry == v.registry
            &&& after.disk == v.disk
        }),
{
}

} // verus!
