//! The versioned world: the texts and paths of all files, changed only by
//! applying a change set, and read through snapshots that later changes do not
//! touch.

use crate::cancel::CancelToken;
use crate::ids::{FileId, SourceRootId};
use crate::resolver::{FileResolver, ResolverView};
use crate::persistent::{
    number_entries, numbers_clone, numbers_get, numbers_insert, numbers_new, numbers_remove,
    text_entries, texts_clone, texts_get, texts_insert, texts_new, texts_remove,
};
use vstd::prelude::*;

verus! {

/// A file of a source root: its id, its path relative to the root, its text.
pub struct FileEntry {
    pub file_id: FileId,
    pub path: String,
    pub text: String,
}

/// A file to add, with the root it belongs to.
pub struct AddFile {
    pub root: SourceRootId,
    pub file_id: FileId,
    pub path: String,
    pub text: String,
}

/// A new text for a file.
pub struct ChangeFile {
    pub file_id: FileId,
    pub text: String,
}

/// A library, prepared away from the main loop and installed as a whole.
pub struct LibraryData {
    pub root: SourceRootId,
    pub files: Vec<FileEntry>,
}

impl LibraryData {
    /// Bundles the files of one library root.
    pub fn prepare(root: SourceRootId, files: Vec<FileEntry>) -> (data: LibraryData)
        ensures
            data.root == root,
            data.files == files,
    {
        LibraryData { root, files }
    }
}

/// A file of a source root, with its strings as sequences.
pub struct FileEntryView {
    pub file_id: FileId,
    pub path: Seq<char>,
    pub text: Seq<char>,
}

impl View for FileEntry {
    type V = FileEntryView;

    open spec fn view(&self) -> FileEntryView {
        FileEntryView { file_id: self.file_id, path: self.path@, text: self.text@ }
    }
}

/// A file to add, with its strings as sequences.
pub struct AddFileView {
    pub root: SourceRootId,
    pub file_id: FileId,
    pub path: Seq<char>,
    pub text: Seq<char>,
}

impl View for AddFile {
    type V = AddFileView;

    open spec fn view(&self) -> AddFileView {
        AddFileView { root: self.root, file_id: self.file_id, path: self.path@, text: self.text@ }
    }
}

/// A new text for a file, as a sequence.
pub struct ChangeFileView {
    pub file_id: FileId,
    pub text: Seq<char>,
}

impl View for ChangeFile {
    type V = ChangeFileView;

    open spec fn view(&self) -> ChangeFileView {
        ChangeFileView { file_id: self.file_id, text: self.text@ }
    }
}

/// A library, with its files as a sequence.
pub struct LibraryView {
    pub root: SourceRootId,
    pub files: Seq<FileEntryView>,
}

impl View for LibraryData {
    type V = LibraryView;

    open spec fn view(&self) -> LibraryView {
        LibraryView { root: self.root, files: self.files@.map_values(|f: FileEntry| f@) }
    }
}

/// A change set, as sequences.
pub struct ChangeView {
    pub added: Seq<AddFileView>,
    pub changed: Seq<ChangeFileView>,
    pub removed: Seq<FileId>,
    pub libraries: Seq<LibraryView>,
    /// The file resolver that comes with the files added, if one was set.
    pub resolver: Option<ResolverView>,
}

impl ChangeView {
    /// The change set that changes nothing.
    pub open spec fn empty() -> ChangeView {
        ChangeView {
            added: Seq::empty(),
            changed: Seq::empty(),
            removed: Seq::empty(),
            libraries: Seq::empty(),
            resolver: None,
        }
    }
}

impl View for AnalysisChange {
    type V = ChangeView;

    open spec fn view(&self) -> ChangeView {
        ChangeView {
            added: self.added@.map_values(|a: AddFile| a@),
            changed: self.changed@.map_values(|c: ChangeFile| c@),
            removed: self.removed@,
            libraries: self.libraries@.map_values(|l: LibraryData| l@),
            resolver: match self.file_resolver {
                Some(r) => Some(r@),
                None => None,
            },
        }
    }
}

/// A set of changes that the world applies in one step.
pub struct AnalysisChange {
    pub added: Vec<AddFile>,
    pub changed: Vec<ChangeFile>,
    pub removed: Vec<FileId>,
    pub libraries: Vec<LibraryData>,
    pub file_resolver: Option<FileResolver>,
}

impl AnalysisChange {
    /// The change that changes nothing.
    pub fn new() -> (change: AnalysisChange)
        ensures
            change@ == ChangeView::empty(),
    {
        let change = AnalysisChange {
            added: Vec::new(),
            changed: Vec::new(),
            removed: Vec::new(),
            libraries: Vec::new(),
            file_resolver: None,
        };
        assert(change@.added =~= Seq::<AddFileView>::empty());
        assert(change@.changed =~= Seq::<ChangeFileView>::empty());
        assert(change@.libraries =~= Seq::<LibraryView>::empty());
        change
    }

    /// Records a file to add.
    pub fn add_file(&mut self, root: SourceRootId, file_id: FileId, path: String, text: String)
        ensures
            final(self)@ == (ChangeView {
                added: old(self)@.added.push(
                    AddFileView { root, file_id, path: path@, text: text@ },
                ),
                ..old(self)@
            }),
    {
        self.added.push(AddFile { root, file_id, path, text });
        assert(self@.added =~= old(self)@.added.push(self.added@.last()@));
    }

    /// Records a new text for a file.
    pub fn change_file(&mut self, file_id: FileId, text: String)
        ensures
            final(self)@ == (ChangeView {
                changed: old(self)@.changed.push(ChangeFileView { file_id, text: text@ }),
                ..old(self)@
            }),
    {
        self.changed.push(ChangeFile { file_id, text });
        assert(self@.changed =~= old(self)@.changed.push(self.changed@.last()@));
    }

    /// Records a file to remove.
    pub fn remove_file(&mut self, file_id: FileId)
        ensures
            final(self)@ == (ChangeView {
                removed: old(self)@.removed.push(file_id),
                ..old(self)@
            }),
    {
        self.removed.push(file_id);
    }

    /// Sets the file resolver that is installed with the files added.
    pub fn set_file_resolver(&mut self, resolver: FileResolver)
        ensures
            final(self)@ == (ChangeView { resolver: Some(resolver@), ..old(self)@ }),
    {
        self.file_resolver = Some(resolver);
    }

    /// Records a library to install.
    pub fn add_library(&mut self, data: LibraryData)
        ensures
            final(self)@ == (ChangeView {
                libraries: old(self)@.libraries.push(data@),
                ..old(self)@
            }),
    {
        self.libraries.push(data);
        assert(self@.libraries =~= old(self)@.libraries.push(self.libraries@.last()@));
    }
}

/// What a world, or a snapshot of it, holds.
pub struct WorldView {
    /// How many change sets were applied.
    pub version: nat,
    /// The text of each file.
    pub texts: Map<u32, Seq<char>>,
    /// The path of each file, relative to its root.
    pub paths: Map<u32, Seq<char>>,
    /// The number of the source root that each file belongs to.
    pub roots: Map<u32, u32>,
    /// The file resolver that was installed last, if any.
    pub resolver: Option<ResolverView>,
}

impl WorldView {
    /// The world before any change: version 0, no files.
    pub open spec fn empty() -> WorldView {
        WorldView {
            version: 0,
            texts: Map::empty(),
            paths: Map::empty(),
            roots: Map::empty(),
            resolver: None,
        }
    }

    /// The world with one more file in a source root, or with a file replaced.
    pub open spec fn with_file(
        self,
        root: SourceRootId,
        file_id: FileId,
        path: Seq<char>,
        text: Seq<char>,
    ) -> WorldView {
        WorldView {
            version: self.version,
            texts: self.texts.insert(file_id.0, text),
            paths: self.paths.insert(file_id.0, path),
            roots: self.roots.insert(file_id.0, root.0),
            resolver: self.resolver,
        }
    }

    /// The world with a new text for a file it holds; a file it does not hold
    /// is not created.
    pub open spec fn with_text(self, file_id: FileId, text: Seq<char>) -> WorldView {
        if self.texts.contains_key(file_id.0) {
            WorldView { texts: self.texts.insert(file_id.0, text), ..self }
        } else {
            self
        }
    }

    /// The world without a file.
    pub open spec fn without_file(self, file_id: FileId) -> WorldView {
        WorldView {
            version: self.version,
            texts: self.texts.remove(file_id.0),
            paths: self.paths.remove(file_id.0),
            roots: self.roots.remove(file_id.0),
            resolver: self.resolver,
        }
    }

    /// The world after the additions, taken in order.
    pub open spec fn with_added(self, added: Seq<AddFileView>) -> WorldView
        decreases added.len(),
    {
        if added.len() == 0 {
            self
        } else {
            self.with_added(added.drop_last()).with_file(
                added.last().root,
                added.last().file_id,
                added.last().path,
                added.last().text,
            )
        }
    }

    /// The world after the text changes, taken in order.
    pub open spec fn with_changed(self, changed: Seq<ChangeFileView>) -> WorldView
        decreases changed.len(),
    {
        if changed.len() == 0 {
            self
        } else {
            self.with_changed(changed.drop_last()).with_text(
                changed.last().file_id,
                changed.last().text,
            )
        }
    }

    /// The world after the removals.
    pub open spec fn with_removed(self, removed: Seq<FileId>) -> WorldView
        decreases removed.len(),
    {
        if removed.len() == 0 {
            self
        } else {
            self.with_removed(removed.drop_last()).without_file(removed.last())
        }
    }

    /// The world after the files of one library were taken in.
    pub open spec fn with_entries(self, root: SourceRootId, files: Seq<FileEntryView>) -> WorldView
        decreases files.len(),
    {
        if files.len() == 0 {
            self
        } else {
            self.with_entries(root, files.drop_last()).with_file(
                root,
                files.last().file_id,
                files.last().path,
                files.last().text,
            )
        }
    }

    /// The world after the libraries were installed, each as a whole.
    pub open spec fn with_libraries(self, libraries: Seq<LibraryView>) -> WorldView
        decreases libraries.len(),
    {
        if libraries.len() == 0 {
            self
        } else {
            self.with_libraries(libraries.drop_last()).with_entries(
                libraries.last().root,
                libraries.last().files,
            )
        }
    }

    /// The world after a change set: additions, text changes and removals,
    /// then the libraries; the file resolver of the change set is installed
    /// where it has one; then the version moves on by one.
    pub open spec fn apply(self, change: ChangeView) -> WorldView {
        let w = self.with_added(change.added).with_changed(change.changed).with_removed(
            change.removed,
        ).with_libraries(change.libraries);
        WorldView {
            version: w.version + 1,
            resolver: match change.resolver {
                Some(r) => Some(r),
                None => w.resolver,
            },
            ..w
        }
    }

    /// The text that a reader of this world sees for a file.
    pub open spec fn read(self, file_id: FileId) -> Option<Seq<char>> {
        if self.texts.contains_key(file_id.0) {
            Some(self.texts[file_id.0])
        } else {
            None
        }
    }
}

/// An immutable view of the world at one version.
pub struct Analysis {
    version: u64,
    texts: im::HashMap<u32, String>,
    paths: im::HashMap<u32, String>,
    roots: im::HashMap<u32, u32>,
    resolver: Option<FileResolver>,
}

impl View for Analysis {
    type V = WorldView;

    closed spec fn view(&self) -> WorldView {
        WorldView {
            version: self.version as nat,
            texts: text_entries(self.texts),
            paths: text_entries(self.paths),
            roots: number_entries(self.roots),
            resolver: match self.resolver {
                Some(r) => Some(r@),
                None => None,
            },
        }
    }
}

impl Analysis {
    /// The version of the world that this snapshot shows.
    pub fn version(&self) -> (v: u64)
        ensures
            v == self@.version,
    {
        self.version
    }

    /// The text of a file, if the snapshot holds the file.
    pub fn file_text(&self, file_id: FileId) -> (text: Option<&String>)
        ensures
            text.is_some() == self@.read(file_id).is_some(),
            text matches Some(t) ==> Some(t@) == self@.read(file_id),
    {
        texts_get(&self.texts, file_id.0)
    }

    /// The path of a file, if the snapshot holds the file.
    pub fn file_path(&self, file_id: FileId) -> (path: Option<&String>)
        ensures
            path.is_some() == self@.paths.contains_key(file_id.0),
            path matches Some(p) ==> p@ == self@.paths[file_id.0],
    {
        texts_get(&self.paths, file_id.0)
    }

    /// The file resolver of the snapshot, if one was installed.
    pub fn file_resolver(&self) -> (resolver: Option<&FileResolver>)
        ensures
            match resolver {
                Some(r) => self@.resolver == Some(r@),
                None => self@.resolver is None,
            },
    {
        match &self.resolver {
            Some(r) => Some(r),
            None => None,
        }
    }

    /// The source root that a file belongs to, if the snapshot holds the file.
    pub fn file_root(&self, file_id: FileId) -> (root: Option<SourceRootId>)
        ensures
            root.is_some() == self@.roots.contains_key(file_id.0),
            root matches Some(r) ==> r.0 == self@.roots[file_id.0],
    {
        match numbers_get(&self.roots, file_id.0) {
            Some(root) => Some(SourceRootId(root)),
            None => None,
        }
    }
}

/// The world. It is changed only through `apply_change`.
pub struct AnalysisHost {
    version: u64,
    texts: im::HashMap<u32, String>,
    paths: im::HashMap<u32, String>,
    roots: im::HashMap<u32, u32>,
    resolver: Option<FileResolver>,
}

impl View for AnalysisHost {
    type V = WorldView;

    closed spec fn view(&self) -> WorldView {
        WorldView {
            version: self.version as nat,
            texts: text_entries(self.texts),
            paths: text_entries(self.paths),
            roots: number_entries(self.roots),
            resolver: match self.resolver {
                Some(r) => Some(r@),
                None => None,
            },
        }
    }
}

impl Default for AnalysisHost {
    /// The world at version 0, without files.
    fn default() -> (host: AnalysisHost)
        ensures
            host@ == WorldView::empty(),
    {
        AnalysisHost {
            version: 0,
            texts: texts_new(),
            paths: texts_new(),
            roots: numbers_new(),
            resolver: None,
        }
    }
}

impl AnalysisHost {
    /// Whether the world has moved past a snapshot, so that work on the
    /// snapshot is to be abandoned.
    pub open spec fn supersedes(&self, snapshot: &Analysis) -> bool {
        snapshot@.version < self@.version
    }

    /// A snapshot of the world as it is now.
    pub fn analysis(&self) -> (snapshot: Analysis)
        ensures
            snapshot@ == self@,
            !self.supersedes(&snapshot),
    {
        Analysis {
            version: self.version,
            texts: texts_clone(&self.texts),
            paths: texts_clone(&self.paths),
            roots: numbers_clone(&self.roots),
            resolver: match &self.resolver {
                Some(r) => Some(r.share()),
                None => None,
            },
        }
    }

    /// The version of the world.
    pub fn version(&self) -> (v: u64)
        ensures
            v == self@.version,
    {
        self.version
    }

    /// The cancel token of a snapshot, as the world sees it: set if and only
    /// if the world has moved past the snapshot.
    pub fn cancel_token(&self, snapshot: &Analysis) -> (token: CancelToken)
        ensures
            token.canceled() == self.supersedes(snapshot),
    {
        let mut token = CancelToken::new();
        if snapshot.version() < self.version {
            token.cancel();
        }
        token
    }

    /// Applies a change set in one step. Every snapshot taken before is
    /// superseded afterwards.
    pub fn apply_change(&mut self, change: AnalysisChange)
        requires
            old(self)@.version < u64::MAX,
        ensures
            final(self)@ == old(self)@.apply(change@),
            forall|snapshot: Analysis|
                snapshot@.version <= old(self)@.version ==> #[trigger] final(self).supersedes(
                    &snapshot,
                ),
    {
        let ghost start = self@;
        let mut i: usize = 0;
        while i < change.added.len()
            invariant
                i <= change.added.len(),
                self@ == start.with_added(change@.added.take(i as int)),
                self@.version == start.version,
            decreases change.added.len() - i,
        {
            let item = &change.added[i];
            proof {
                assert(change@.added.take(i + 1).drop_last() =~= change@.added.take(i as int));
            }
            self.put_file(item.root, item.file_id, &item.path, &item.text);
            i = i + 1;
        }
        proof {
            assert(change@.added.take(change.added.len() as int) =~= change@.added);
        }
        let ghost added = self@;
        let mut i: usize = 0;
        while i < change.changed.len()
            invariant
                i <= change.changed.len(),
                self@ == added.with_changed(change@.changed.take(i as int)),
                self@.version == start.version,
            decreases change.changed.len() - i,
        {
            let item = &change.changed[i];
            proof {
                assert(change@.changed.take(i + 1).drop_last() =~= change@.changed.take(i as int));
            }
            if texts_get(&self.texts, item.file_id.0).is_some() {
                texts_insert(&mut self.texts, item.file_id.0, item.text.clone());
            }
            i = i + 1;
        }
        proof {
            assert(change@.changed.take(change.changed.len() as int) =~= change@.changed);
        }
        let ghost changed = self@;
        let mut i: usize = 0;
        while i < change.removed.len()
            invariant
                i <= change.removed.len(),
                self@ == changed.with_removed(change.removed@.take(i as int)),
                self@.version == start.version,
            decreases change.removed.len() - i,
        {
            let file_id = change.removed[i];
            proof {
                assert(change.removed@.take(i + 1).drop_last() =~= change.removed@.take(i as int));
            }
            texts_remove(&mut self.texts, file_id.0);
            texts_remove(&mut self.paths, file_id.0);
            numbers_remove(&mut self.roots, file_id.0);
            i = i + 1;
        }
        proof {
            assert(change.removed@.take(change.removed.len() as int) =~= change.removed@);
        }
        let ghost removed = self@;
        let mut i: usize = 0;
        while i < change.libraries.len()
            invariant
                i <= change.libraries.len(),
                self@ == removed.with_libraries(change@.libraries.take(i as int)),
                self@.version == start.version,
            decreases change.libraries.len() - i,
        {
            let library = &change.libraries[i];
            proof {
                assert(change@.libraries.take(i + 1).drop_last() =~= change@.libraries.take(
                    i as int,
                ));
            }
            self.put_entries(library.root, &library.files);
            i = i + 1;
        }
        proof {
            assert(change@.libraries.take(change.libraries.len() as int) =~= change@.libraries);
        }
        match change.file_resolver {
            Some(resolver) => {
                self.resolver = Some(resolver);
            },
            None => {},
        }
        self.version = self.version + 1;
    }

    fn put_file(&mut self, root: SourceRootId, file_id: FileId, path: &String, text: &String)
        ensures
            final(self)@ == old(self)@.with_file(root, file_id, path@, text@),
    {
        texts_insert(&mut self.texts, file_id.0, text.clone());
        texts_insert(&mut self.paths, file_id.0, path.clone());
        numbers_insert(&mut self.roots, file_id.0, root.0);
    }

    fn put_entries(&mut self, root: SourceRootId, files: &Vec<FileEntry>)
        ensures
            final(self)@ == old(self)@.with_entries(root, files@.map_values(|f: FileEntry| f@)),
            final(self)@.version == old(self)@.version,
    {
        let ghost start = self@;
        let mut i: usize = 0;
        while i < files.len()
            invariant
                i <= files.len(),
                self@ == start.with_entries(
                    root,
                    files@.map_values(|f: FileEntry| f@).take(i as int),
                ),
                self@.version == start.version,
            decreases files.len() - i,
        {
            let item = &files[i];
            proof {
                let views = files@.map_values(|f: FileEntry| f@);
                assert(views.take(i + 1).drop_last() =~= views.take(i as int));
            }
            self.put_file(root, item.file_id, &item.path, &item.text);
            i = i + 1;
        }
        proof {
            let views = files@.map_values(|f: FileEntry| f@);
            assert(views.take(files.len() as int) =~= views);
        }
    }
}

/// A snapshot is not touched by what happens to the world after it was taken:
/// it reads what the world held when it was taken, whatever change set is
/// applied later, and the world that results has moved past it.
pub proof fn lemma_snapshot_isolated(
    host: AnalysisHost,
    snapshot: Analysis,
    change: ChangeView,
    after: AnalysisHost,
    file_id: FileId,
)
    requires
        snapshot@ == host@,
        after@ == host@.apply(change),
    ensures
        snapshot@.read(file_id) == host@.read(file_id),
        after.supersedes(&snapshot),
{
    lemma_apply_version(host@, change);
}

/// Applying a change set moves the version on by exactly one.
pub proof fn lemma_apply_version(w: WorldView, change: ChangeView)
    ensures
        w.apply(change).version == w.version + 1,
{
    lemma_added_version(w, change.added);
    let a = w.with_added(change.added);
    lemma_changed_version(a, change.changed);
    let b = a.with_changed(change.changed);
    lemma_removed_version(b, change.removed);
    let c = b.with_removed(change.removed);
    lemma_libraries_version(c, change.libraries);
}

proof fn lemma_added_version(w: WorldView, added: Seq<AddFileView>)
    ensures
        w.with_added(added).version == w.version,
    decreases added.len(),
{
    if added.len() > 0 {
        lemma_added_version(w, added.drop_last());
    }
}

proof fn lemma_changed_version(w: WorldView, changed: Seq<ChangeFileView>)
    ensures
        w.with_changed(changed).version == w.version,
    decreases changed.len(),
{
    if changed.len() > 0 {
        lemma_changed_version(w, changed.drop_last());
    }
}

proof fn lemma_removed_version(w: WorldView, removed: Seq<FileId>)
    ensures
        w.with_removed(removed).version == w.version,
    decreases removed.len(),
{
    if removed.len() > 0 {
        lemma_removed_version(w, removed.drop_last());
    }
}

proof fn lemma_entries_version(w: WorldView, root: SourceRootId, files: Seq<FileEntryView>)
    ensures
        w.with_entries(root, files).version == w.version,
    decreases files.len(),
{
    if files.len() > 0 {
        lemma_entries_version(w, root, files.drop_last());
    }
}

proof fn lemma_libraries_version(w: WorldView, libraries: Seq<LibraryView>)
    ensures
        w.with_libraries(libraries).version == w.version,
    decreases libraries.len(),
{
    if libraries.len() > 0 {
        lemma_libraries_version(w, libraries.drop_last());
        lemma_entries_version(
            w.with_libraries(libraries.drop_last()),
            libraries.last().root,
            libraries.last().files,
        );
    }
}

} // verus!
