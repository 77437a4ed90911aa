//! Identifiers shared by the registry, the world and the main loop.

use vstd::prelude::*;

verus! {

/// Identifier of a file. Ids are issued densely, starting at 1, and are never reused.
#[derive(Debug, Clone, Copy, PartialEq, Eq, Structural, Hash)]
pub struct FileId(pub u32);

/// Identifier of a source root: the workspace, or one library.
#[derive(Debug, Clone, Copy, PartialEq, Eq, Structural, Hash)]
pub struct SourceRootId(pub u32);

/// The number of the root that holds the files of the workspace; the only writable one.
pub const WORKSPACE: u32 = 0;

} // verus!
