//! The contents of directories as they are read, piece by piece.
use std::sync::Arc;

use vstd::prelude::*;

use crate::entry::Entry;
use crate::path::FilePath;

verus! {

/// Which piece of a directory's contents a snapshot is.
#[derive(Clone, Copy, Debug, PartialEq, Eq, Structural)]
pub enum SnapshotKind {
    Complete,
    Start,
    Middle,
    End,
}

impl SnapshotKind {
    pub open spec fn spec_initial(self) -> bool {
        self is Complete || self is Start
    }

    /// Whether it is the first piece.
    pub fn initial(self) -> (r: bool)
        ensures
            r == self.spec_initial(),
    {
        match self {
            SnapshotKind::Complete | SnapshotKind::Start => true,
            SnapshotKind::Middle | SnapshotKind::End => false,
        }
    }

    pub open spec fn spec_finished(self) -> bool {
        self is Complete || self is End
    }

    /// Whether it is the last piece.
    pub fn finished(self) -> (r: bool)
        ensures
            r == self.spec_finished(),
    {
        match self {
            SnapshotKind::Complete | SnapshotKind::End => true,
            SnapshotKind::Start | SnapshotKind::Middle => false,
        }
    }
}

/// Which directory is read, and for whom.
pub struct SnapshotId {
    pub kind: SnapshotKind,
    /// The number of the watch that asked for it.
    pub id: u64,
    pub path: Arc<FilePath>,
}

/// A piece of a directory's contents.
pub struct DirSnapshot {
    pub id: SnapshotId,
    pub entries: Vec<Arc<Entry>>,
}

impl DirSnapshot {
    pub fn new(kind: SnapshotKind, path: &Arc<FilePath>, id: u64, entries: Vec<Arc<Entry>>) -> (r:
        DirSnapshot)
        ensures
            r.id == (SnapshotId { kind, id, path: *path }),
            r.entries == entries,
    {
        DirSnapshot { id: SnapshotId { kind, id, path: path.clone() }, entries }
    }
}

/// How much is below a directory.
#[derive(Clone, Copy, Debug, PartialEq, Eq, Structural)]
pub struct ChildInfo {
    pub size: u64,
    pub allocated: u64,
    pub files: usize,
    pub dirs: usize,
    pub done: bool,
}

impl Default for ChildInfo {
    fn default() -> (r: ChildInfo)
        ensures
            r == (ChildInfo { size: 0, allocated: 0, files: 0, dirs: 0, done: false }),
    {
        ChildInfo { size: 0, allocated: 0, files: 0, dirs: 0, done: false }
    }
}

/// What comes in at once begins and ends with it. What comes in parts begins with the
/// first one and ends with the last one.
pub proof fn parts_begin_and_end(kind: SnapshotKind)
    ensures
        kind.spec_initial() && kind.spec_finished() <==> kind is Complete,
        kind.spec_initial() && !kind.spec_finished() <==> kind is Start,
        !kind.spec_initial() && kind.spec_finished() <==> kind is End,
        !kind.spec_initial() && !kind.spec_finished() <==> kind is Middle,
{
}

} // verus!
