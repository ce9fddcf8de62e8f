//! Changes that the file system reports.
use std::sync::Arc;

use vstd::prelude::*;

use crate::entry::Entry;
use crate::path::FilePath;

verus! {

/// Whether a path lies below `ancestor`, but not directly inside it.
pub open spec fn below_subdir(path: Seq<Seq<u8>>, ancestor: Seq<Seq<u8>>) -> bool {
    ancestor.is_prefix_of(path) && !(path.len() > 0 && path.drop_last() == ancestor)
}

/// A change to one path. Creations and modifications are treated alike.
pub enum Update {
    Entry(Arc<Entry>),
    Removed(FilePath),
}

impl Update {
    pub open spec fn spec_path(&self) -> Seq<Seq<u8>> {
        match *self {
            Update::Entry(e) => e.abs_path@,
            Update::Removed(p) => p@,
        }
    }

    pub fn path(&self) -> (r: &FilePath)
        ensures
            r@ == self.spec_path(),
    {
        match self {
            Update::Entry(e) => &e.abs_path,
            Update::Removed(p) => p,
        }
    }

    /// Whether the change is below `ancestor`, but not directly inside it.
    pub fn is_in_subdir(&self, ancestor: &FilePath) -> (r: bool)
        ensures
            r == below_subdir(self.spec_path(), ancestor@),
    {
        let path = self.path();
        if path.is_child_of(ancestor) {
            return false;
        }
        path.starts_with(ancestor)
    }
}

/// What is directly inside a directory is not in a subdirectory of it, what is deeper
/// is, and what is elsewhere is not.
pub proof fn deeper_is_in_a_subdirectory(
    dir: Seq<Seq<u8>>,
    name: Seq<u8>,
    below: Seq<Seq<u8>>,
    path: Seq<Seq<u8>>,
)
    requires
        below.len() > 0,
    ensures
        !below_subdir(dir.push(name), dir),
        below_subdir(dir.push(name) + below, dir),
        !dir.is_prefix_of(path) ==> !below_subdir(path, dir),
{
    assert(dir.push(name).drop_last() =~= dir);
    let deep = dir.push(name) + below;
    assert(dir.is_prefix_of(deep)) by {
        assert(deep.subrange(0, dir.len() as int) =~= dir);
    }
    assert(deep.drop_last().len() > dir.len());
}

} // verus!
