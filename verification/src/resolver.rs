//! The file resolver: what tells which file a relative path names when it is
//! read from a given file. The world carries the resolver that came with the
//! last change that added files, and hands it on to every snapshot.

use crate::ids::FileId;
use crate::mock::{resolve_in, FileMap};
use crate::path_map::{PathMap, PathMapView};
use std::sync::Arc;
use vstd::prelude::*;

verus! {

/// A resolver: a list of files with their relative paths, or a copy of the
/// file registry.
pub enum FileResolver {
    Files(Arc<FileMap>),
    Registry(Arc<PathMap>),
}

/// What a resolver holds.
pub enum ResolverView {
    /// The relative paths of the files, the file at place `i` under the id
    /// `i + 1`.
    Files(Seq<Seq<char>>),
    /// The registry.
    Registry(PathMapView),
}

impl ResolverView {
    /// Whether the resolver holds a file with this id.
    pub open spec fn knows(self, id: FileId) -> bool {
        match self {
            ResolverView::Files(paths) => 1 <= id.0 <= paths.len(),
            ResolverView::Registry(registry) => registry.paths.contains_key(id.0),
        }
    }

    /// The file that `rel` names when it is read from the file `id`, if the
    /// resolver holds such a file.
    pub open spec fn resolve(self, id: FileId, rel: Seq<char>) -> Option<FileId> {
        match self {
            ResolverView::Files(paths) => resolve_in(paths, id, rel),
            ResolverView::Registry(registry) => registry.id_of(
                registry.paths[id.0] + seq!['/'] + rel,
            ),
        }
    }
}

impl View for FileResolver {
    type V = ResolverView;

    open spec fn view(&self) -> ResolverView {
        match *self {
            FileResolver::Files(files) => ResolverView::Files(files@),
            FileResolver::Registry(registry) => ResolverView::Registry(registry@),
        }
    }
}

impl FileResolver {
    /// Another handle to the same resolver.
    pub fn share(&self) -> (copy: FileResolver)
        ensures
            copy@ == self@,
    {
        match self {
            FileResolver::Files(files) => FileResolver::Files(files.clone()),
            FileResolver::Registry(registry) => FileResolver::Registry(registry.clone()),
        }
    }

    /// Tells whether the resolver holds a file with this id.
    pub fn knows(&self, id: FileId) -> (res: bool)
        ensures
            res == self@.knows(id),
    {
        match self {
            FileResolver::Files(files) => files.holds(id),
            FileResolver::Registry(registry) => registry.contains_id(id),
        }
    }

    /// The file that the relative path `rel` names when it is read from the
    /// file `id`.
    pub fn resolve(&self, id: FileId, rel: &str) -> (res: Option<FileId>)
        requires
            self@.knows(id),
        ensures
            res == self@.resolve(id, rel@),
    {
        match self {
            FileResolver::Files(files) => files.resolve(id, rel),
            FileResolver::Registry(registry) => registry.resolve(id, rel),
        }
    }
}

} // verus!
