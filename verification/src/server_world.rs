//! The state that the main loop owns: the world, the overlay tracker that feeds
//! it, and the number of roots that are still being scanned or indexed.

use crate::ids::{FileId, SourceRootId};
use crate::resolver::{FileResolver, ResolverView};
use crate::vfs::{change_views, Vfs, VfsChange, VfsChangeView, VfsView};
use crate::world::{
    AddFileView, Analysis, AnalysisChange, AnalysisHost, ChangeFileView, ChangeView, FileEntry,
    FileEntryView, LibraryData, LibraryView, WorldView,
};
use std::sync::Arc;
use vstd::prelude::*;

verus! {

/// The files of a library root that is to be indexed away from the main loop.
pub struct LibraryRoot {
    pub root: SourceRootId,
    pub files: Vec<FileEntry>,
}

impl View for LibraryRoot {
    type V = LibraryView;

    open spec fn view(&self) -> LibraryView {
        LibraryView { root: self.root, files: self.files@.map_values(|f: FileEntry| f@) }
    }
}

/// What a run of recorded changes amounts to.
pub struct Collected {
    /// The change set for the world.
    pub change: ChangeView,
    /// The library roots to index, in the order in which they were scanned.
    pub libs: Seq<LibraryView>,
    /// How many roots of the workspace were scanned.
    pub local_roots: nat,
}

/// A file of a root, as a file to add to that root.
pub open spec fn as_added(root: SourceRootId, file: FileEntryView) -> AddFileView {
    AddFileView { root, file_id: file.file_id, path: file.path, text: file.text }
}

/// What one more recorded change adds: the files of a workspace root, an added
/// file, a removal and a new text go to the change set; a library root is set
/// aside for indexing.
pub open spec fn collect_step(c: Collected, change: VfsChangeView) -> Collected {
    match change {
        VfsChangeView::AddRoot { root, local, files } => if local {
            Collected {
                change: ChangeView {
                    added: c.change.added + files.map_values(
                        |f: FileEntryView| as_added(root, f),
                    ),
                    ..c.change
                },
                local_roots: c.local_roots + 1,
                ..c
            }
        } else {
            Collected { libs: c.libs.push(LibraryView { root, files }), ..c }
        },
        VfsChangeView::AddFile { root, file_id, path, text } => Collected {
            change: ChangeView {
                added: c.change.added.push(AddFileView { root, file_id, path, text }),
                ..c.change
            },
            ..c
        },
        VfsChangeView::RemoveFile { root, file_id } => Collected {
            change: ChangeView { removed: c.change.removed.push(file_id), ..c.change },
            ..c
        },
        VfsChangeView::ChangeFile { file_id, text } => Collected {
            change: ChangeView {
                changed: c.change.changed.push(ChangeFileView { file_id, text }),
                ..c.change
            },
            ..c
        },
    }
}

/// What the recorded changes amount to, taken oldest first.
pub open spec fn collect(changes: Seq<VfsChangeView>) -> Collected
    decreases changes.len(),
{
    if changes.len() == 0 {
        Collected { change: ChangeView::empty(), libs: Seq::empty(), local_roots: 0 }
    } else {
        collect_step(collect(changes.drop_last()), changes.last())
    }
}

/// The recorded changes themselves bring no file resolver.
pub proof fn lemma_collect_no_resolver(changes: Seq<VfsChangeView>)
    ensures
        collect(changes).change.resolver is None,
    decreases changes.len(),
{
    if changes.len() > 0 {
        lemma_collect_no_resolver(changes.drop_last());
    }
}

/// `n` less `by`, and 0 where `by` is more than `n`.
pub open spec fn less(n: nat, by: nat) -> nat {
    if by <= n {
        (n - by) as nat
    } else {
        0
    }
}

/// What the main loop's state holds.
pub struct ServerWorldView {
    /// The roots that are still being scanned or indexed.
    pub roots_to_scan: nat,
    /// The world.
    pub world: WorldView,
    /// The overlay tracker.
    pub vfs: VfsView,
}

impl ServerWorldView {
    /// The change set that the recorded changes make for the world. Where it
    /// adds files, the file registry as it is now comes with it as the file
    /// resolver.
    pub open spec fn world_change(self) -> ChangeView {
        let change = collect(self.vfs.pending).change;
        ChangeView {
            resolver: if change.added.len() > 0 {
                Some(ResolverView::Registry(self.vfs.registry))
            } else {
                None
            },
            ..change
        }
    }

    /// The state after the changes that the tracker recorded were handed to
    /// the world. Without recorded changes nothing happens, and the version
    /// of the world stays.
    pub open spec fn processed(self) -> ServerWorldView {
        if self.vfs.pending.len() == 0 {
            self
        } else {
            let c = collect(self.vfs.pending);
            ServerWorldView {
                roots_to_scan: less(self.roots_to_scan, c.local_roots),
                world: self.world.apply(self.world_change()),
                vfs: VfsView { pending: Seq::empty(), ..self.vfs },
            }
        }
    }

    /// The state after an indexed library was installed.
    pub open spec fn with_lib(self, data: LibraryView) -> ServerWorldView {
        ServerWorldView {
            roots_to_scan: less(self.roots_to_scan, 1),
            world: self.world.apply(
                ChangeView { libraries: seq![data], ..ChangeView::empty() },
            ),
            ..self
        }
    }
}

/// The state that the main loop owns.
pub struct ServerWorldState {
    pub roots_to_scan: usize,
    pub analysis_host: AnalysisHost,
    pub vfs: Vfs,
}

impl View for ServerWorldState {
    type V = ServerWorldView;

    open spec fn view(&self) -> ServerWorldView {
        ServerWorldView {
            roots_to_scan: self.roots_to_scan as nat,
            world: self.analysis_host@,
            vfs: self.vfs@,
        }
    }
}

impl ServerWorldState {
    /// The invariant of the state.
    pub open spec fn wf(&self) -> bool {
        self.vfs.wf()
    }

    /// The state at start: an empty world, and `roots_to_scan` roots handed
    /// to the scanner.
    pub fn new(roots_to_scan: usize) -> (state: ServerWorldState)
        ensures
            state.wf(),
            state@ == (ServerWorldView {
                roots_to_scan: roots_to_scan as nat,
                world: WorldView::empty(),
                vfs: VfsView::empty(),
            }),
    {
        ServerWorldState { roots_to_scan, analysis_host: AnalysisHost::default(), vfs: Vfs::new() }
    }

    /// Hands the changes that the tracker recorded to the world, and returns
    /// the library roots that are to be indexed.
    #[verifier::rlimit(60)]
    pub fn process_changes(&mut self) -> (libs: Vec<LibraryRoot>)
        requires
            old(self).wf(),
            old(self)@.world.version < u64::MAX,
        ensures
            final(self).wf(),
            final(self)@ == old(self)@.processed(),
            libs@.map_values(|l: LibraryRoot| l@) == if old(self)@.vfs.pending.len() == 0 {
                Seq::<LibraryView>::empty()
            } else {
                collect(old(self)@.vfs.pending).libs
            },
    {
        let changes = self.vfs.commit_changes();
        let mut libs: Vec<LibraryRoot> = Vec::new();
        assert(libs@.map_values(|l: LibraryRoot| l@) =~= Seq::<LibraryView>::empty());
        if changes.len() == 0 {
            assert(old(self)@.vfs.pending.len() == 0);
            assert(old(self)@.vfs.pending =~= Seq::<VfsChangeView>::empty());
            return libs;
        }
        let ghost views = change_views(changes@);
        let mut change = AnalysisChange::new();
        let mut local_roots: usize = 0;
        let mut i: usize = 0;
        assert(views.take(0) =~= Seq::<VfsChangeView>::empty());
        while i < changes.len()
            invariant
                i <= changes.len(),
                views == change_views(changes@),
                local_roots <= i,
                change@ == collect(views.take(i as int)).change,
                libs@.map_values(|l: LibraryRoot| l@) == collect(views.take(i as int)).libs,
                local_roots == collect(views.take(i as int)).local_roots,
            decreases changes.len() - i,
        {
            proof {
                assert(views.take(i + 1).drop_last() =~= views.take(i as int));
                assert(views.take(i + 1).last() == changes@[i as int]@);
            }
            let ghost seen = libs@.map_values(|l: LibraryRoot| l@);
            match &changes[i] {
                VfsChange::AddRoot { root, local, files } => {
                    if *local {
                        local_roots = local_roots + 1;
                        add_root_files(&mut change, *root, files);
                    } else {
                        libs.push(LibraryRoot { root: *root, files: clone_entries(files) });
                        proof {
                            assert(libs@.map_values(|l: LibraryRoot| l@) =~= seen.push(
                                libs@.last()@,
                            ));
                        }
                    }
                },
                VfsChange::AddFile { root, file_id, path, text } => {
                    change.add_file(*root, *file_id, path.clone(), text.clone());
                },
                VfsChange::RemoveFile { root, file_id } => {
                    change.remove_file(*file_id);
                },
                VfsChange::ChangeFile { file_id, text } => {
                    change.change_file(*file_id, text.clone());
                },
            }
            i = i + 1;
        }
        proof {
            assert(views.take(changes.len() as int) =~= views);
        }
        proof {
            assert(change@.added.len() == change.added@.len());
            lemma_collect_no_resolver(views);
            assert(change@.resolver is None);
            assert(old(self)@.vfs.pending == views);
        }
        if change.added.len() > 0 {
            change.set_file_resolver(FileResolver::Registry(Arc::new(self.vfs.registry())));
        }
        assert(change@ == old(self)@.world_change());
        self.analysis_host.apply_change(change);
        self.roots_to_scan = if local_roots <= self.roots_to_scan {
            self.roots_to_scan - local_roots
        } else {
            0
        };
        libs
    }

    /// Installs an indexed library.
    pub fn add_lib(&mut self, data: LibraryData)
        requires
            old(self).wf(),
            old(self)@.world.version < u64::MAX,
        ensures
            final(self).wf(),
            final(self)@ == old(self)@.with_lib(data@),
            final(self)@.world.version == old(self)@.world.version + 1,
    {
        proof {
            crate::world::lemma_apply_version(
                self@.world,
                ChangeView { libraries: seq![data@], ..ChangeView::empty() },
            );
        }
        if self.roots_to_scan > 0 {
            self.roots_to_scan = self.roots_to_scan - 1;
        }
        let mut change = AnalysisChange::new();
        change.add_library(data);
        assert(change@.libraries =~= seq![data@]);
        self.analysis_host.apply_change(change);
    }

    /// A snapshot of the world as it is now.
    pub fn snapshot(&self) -> (snapshot: Analysis)
        ensures
            snapshot@ == self@.world,
            !self.analysis_host.supersedes(&snapshot),
    {
        self.analysis_host.analysis()
    }
}

fn clone_entries(files: &Vec<FileEntry>) -> (copy: Vec<FileEntry>)
    ensures
        copy@.map_values(|f: FileEntry| f@) == files@.map_values(|f: FileEntry| f@),
{
    let mut copy: Vec<FileEntry> = Vec::new();
    let mut j: usize = 0;
    while j < files.len()
        invariant
            j <= files.len(),
            copy@.len() == j,
            forall|k: int| 0 <= k < j ==> (#[trigger] copy@[k])@ == files@[k]@,
        decreases files.len() - j,
    {
        let f = &files[j];
        copy.push(FileEntry { file_id: f.file_id, path: f.path.clone(), text: f.text.clone() });
        j = j + 1;
    }
    assert(copy@.map_values(|f: FileEntry| f@) =~= files@.map_values(|f: FileEntry| f@));
    copy
}

fn add_root_files(change: &mut AnalysisChange, root: SourceRootId, files: &Vec<FileEntry>)
    ensures
        final(change)@ == (ChangeView {
            added: old(change)@.added + files@.map_values(|f: FileEntry| f@).map_values(
                |f: FileEntryView| as_added(root, f),
            ),
            ..old(change)@
        }),
{
    let ghost base = change@;
    let ghost mapped = files@.map_values(|f: FileEntry| f@).map_values(
        |f: FileEntryView| as_added(root, f),
    );
    let mut j: usize = 0;
    assert(base.added + mapped.take(0) =~= base.added);
    while j < files.len()
        invariant
            j <= files.len(),
            mapped == files@.map_values(|f: FileEntry| f@).map_values(
                |f: FileEntryView| as_added(root, f),
            ),
            change@ == (ChangeView { added: base.added + mapped.take(j as int), ..base }),
        decreases files.len() - j,
    {
        let f = &files[j];
        change.add_file(root, f.file_id, f.path.clone(), f.text.clone());
        proof {
            assert(mapped[j as int] == as_added(root, files@[j as int]@));
            assert(base.added + mapped.take(j + 1) =~= (base.added + mapped.take(j as int)).push(
                mapped[j as int],
            ));
        }
        j = j + 1;
    }
    assert(mapped.take(files.len() as int) =~= mapped);
}

} // verus!
